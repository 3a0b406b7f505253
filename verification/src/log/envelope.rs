//! The envelope's `op`: there are two, and `pv/1` will not grow a third.

use vstd::prelude::*;
use crate::json::{json_quoted, json_string};
use crate::text::{decimal, decimal_exec, push_all, push_str, string_of};

verus! {

/// `op`: a `put` carries the row as `d`; a `del` is a permanent tombstone.
#[derive(Debug, Clone, Copy, PartialEq, Eq)]
pub enum Op {
    /// The row is `d`.
    Put,
    /// A tombstone.
    Del,
}

impl Op {
    /// The wire value.
    pub fn as_str(self) -> (r: &'static str)
        ensures
            r@ == (match self {
                Op::Put => "put"@,
                Op::Del => "del"@,
            }),
    {
        match self {
            Op::Put => "put",
            Op::Del => "del",
        }
    }
}


/// The fields of an envelope the log's own bookkeeping reads: its position in its
/// writer's stream, its Lamport value, its timestamp as written, its writer, and the batch
/// marker when the line opens a batch.
#[derive(Debug, Clone, PartialEq, Eq)]
pub struct Meta {
    /// The writer's `seq`.
    pub seq: u64,
    /// The Lamport value.
    pub lam: u64,
    /// The timestamp, as written.
    pub ts: String,
    /// The writer's device ID.
    pub dev: String,
    /// The batch marker, on the first line of a batch of that many events.
    pub batch: Option<u64>,
}


/// The wire value of `op`.
pub open spec fn op_text(op: Op) -> Seq<char> {
    match op {
        Op::Put => "put"@,
        Op::Del => "del"@,
    }
}

/// One event as its line, without the newline: the keys in the order `seq`, `lam`, `ts`,
/// `dev`, `app`, `op`, `tbl`, `id`, then `batch` on the first line of a batch of two or
/// more, then `d` (the row, already JSON) on a put.
pub open spec fn envelope_text(
    seq: u64,
    lam: u64,
    ts: Seq<char>,
    dev: Seq<char>,
    app: Seq<char>,
    op: Op,
    tbl: Seq<char>,
    id: Seq<char>,
    batch: Option<u64>,
    d: Option<Seq<char>>,
) -> Seq<char> {
    "{\"seq\":"@ + decimal(seq as nat) + ",\"lam\":"@ + decimal(lam as nat) + ",\"ts\":"@
        + json_string(ts) + ",\"dev\":"@ + json_string(dev) + ",\"app\":"@ + json_string(app)
        + ",\"op\":"@ + json_string(op_text(op)) + ",\"tbl\":"@ + json_string(tbl) + ",\"id\":"@
        + json_string(id) + (match batch {
        Some(n) => ",\"batch\":"@ + decimal(n as nat),
        None => Seq::empty(),
    }) + (match d {
        Some(t) => ",\"d\":"@ + t,
        None => Seq::empty(),
    }) + "}"@
}

/// The line carries the `seq` and the `lam` it was given, each read back from it: it
/// opens with `{"seq":`, the digits of `seq`, then `,"lam":` and the digits of `lam`, ended
/// by a comma. Two events whose counters differ never write the same line.
pub proof fn lemma_line_carries_seq_and_lam(
    seq: u64,
    lam: u64,
    ts: Seq<char>,
    dev: Seq<char>,
    app: Seq<char>,
    op: Op,
    tbl: Seq<char>,
    id: Seq<char>,
    batch: Option<u64>,
    d: Option<Seq<char>>,
)
    ensures
        ({
            let t = envelope_text(seq, lam, ts, dev, app, op, tbl, id, batch, d);
            exists|i: int, k: int, j: int|
                #![trigger t.subrange(7, i), t.subrange(k, j)]
                {
                    &&& 7 < i
                    &&& k == i + 7
                    &&& k < j < t.len()
                    &&& t.subrange(0, 7) == "{\"seq\":"@
                    &&& crate::text::all_digits(t.subrange(7, i))
                    &&& crate::text::digits_value(t.subrange(7, i)) == seq
                    &&& t.subrange(i, k) == ",\"lam\":"@
                    &&& crate::text::all_digits(t.subrange(k, j))
                    &&& crate::text::digits_value(t.subrange(k, j)) == lam
                    &&& t[j] == ','
                }
        }),
{
    reveal_strlit("{\"seq\":");
    reveal_strlit(",\"lam\":");
    reveal_strlit(",\"ts\":");
    crate::text::lemma_decimal_reads_back(seq as nat);
    crate::text::lemma_decimal_reads_back(lam as nat);
    let t = envelope_text(seq, lam, ts, dev, app, op, tbl, id, batch, d);
    let a = "{\"seq\":"@;
    let b = decimal(seq as nat);
    let c = ",\"lam\":"@;
    let e = decimal(lam as nat);
    let f = ",\"ts\":"@;
    let x = a + b + c + e + f;
    let i: int = 7 + b.len() as int;
    let j: int = i + 7 + e.len() as int;
    assert(t.len() >= x.len());
    assert forall|k: int| 0 <= k < x.len() implies t[k] == x[k] by {}
    assert(t.subrange(0, 7) =~= a);
    assert(t.subrange(7, i) =~= b);
    assert(t.subrange(i, i + 7) =~= c);
    assert(t.subrange(i + 7, j) =~= e);
    let k: int = i + 7;
    assert(t.subrange(k, j) =~= e);
    assert(t[j] == x[j]);
}

/// One event as the characters of its line, without the newline.
pub fn envelope_line(
    seq: u64,
    lam: u64,
    ts: &str,
    dev: &str,
    app: &str,
    op: Op,
    tbl: &str,
    id: &str,
    batch: Option<u64>,
    d: Option<&str>,
) -> (r: String)
    ensures
        r@ == envelope_text(seq, lam, ts@, dev@, app@, op, tbl@, id@, batch, match d {
            Some(t) => Some(t@),
            None => None,
        }),
{
    let mut out: Vec<char> = Vec::new();
    push_str(&mut out, "{\"seq\":");
    push_all(&mut out, decimal_exec(seq).as_slice());
    push_str(&mut out, ",\"lam\":");
    push_all(&mut out, decimal_exec(lam).as_slice());
    push_str(&mut out, ",\"ts\":");
    push_str(&mut out, json_quoted(ts).as_str());
    push_str(&mut out, ",\"dev\":");
    push_str(&mut out, json_quoted(dev).as_str());
    push_str(&mut out, ",\"app\":");
    push_str(&mut out, json_quoted(app).as_str());
    push_str(&mut out, ",\"op\":");
    push_str(&mut out, json_quoted(op.as_str()).as_str());
    push_str(&mut out, ",\"tbl\":");
    push_str(&mut out, json_quoted(tbl).as_str());
    push_str(&mut out, ",\"id\":");
    push_str(&mut out, json_quoted(id).as_str());
    match batch {
        Some(n) => {
            push_str(&mut out, ",\"batch\":");
            push_all(&mut out, decimal_exec(n).as_slice());
        },
        None => {},
    }
    match d {
        Some(t) => {
            push_str(&mut out, ",\"d\":");
            push_str(&mut out, t);
        },
        None => {},
    }
    push_str(&mut out, "}");
    assert(out@ =~= envelope_text(seq, lam, ts@, dev@, app@, op, tbl@, id@, batch, match d {
        Some(t) => Some(t@),
        None => None,
    }));
    string_of(out.as_slice())
}

} // verus!
