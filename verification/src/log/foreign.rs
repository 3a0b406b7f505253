//! Reception of another device's log, byte for byte: every range is checked whole before
//! any of it is written — each line within the line bound, each envelope well formed,
//! addressed to this destination and numbered one past the last — and a torn last line
//! is completed by appending only what it lacks.

use vstd::prelude::*;
use crate::log::reader::{parse_ts, ts_nanos};
use crate::text::{chars_of, same_chars};

verus! {

#[verifier::external_type_specification]
#[verifier::external_body]
pub struct ExJsonValue(serde_json::Value);

/// A JSON value as the envelope check reads it: what kind it is, and for a number whether
/// it is a whole number that fits a `u64`.
#[derive(Debug, Clone, PartialEq, Eq)]
pub enum JsonScalar {
    Null,
    Bool(bool),
    /// A number that reads as a `u64`.
    U64(u64),
    /// Any other number.
    OtherNumber,
    Str(String),
    Array,
    Object,
}

/// A parsed line: whether it is an object, and its members.
#[derive(Debug, Clone, PartialEq, Eq)]
pub struct JsonValue {
    pub is_object: bool,
    pub fields: Vec<(String, JsonScalar)>,
}

/// A member's value as plain values.
pub enum ScalarView {
    Null,
    Bool(bool),
    U64(u64),
    OtherNumber,
    Str(Seq<char>),
    Array,
    Object,
}

/// A parsed line as plain values.
pub struct JsonView {
    pub is_object: bool,
    pub fields: Seq<(Seq<char>, ScalarView)>,
}

pub open spec fn scalar_v(s: JsonScalar) -> ScalarView {
    match s {
        JsonScalar::Null => ScalarView::Null,
        JsonScalar::Bool(b) => ScalarView::Bool(b),
        JsonScalar::U64(n) => ScalarView::U64(n),
        JsonScalar::OtherNumber => ScalarView::OtherNumber,
        JsonScalar::Str(s) => ScalarView::Str(s@),
        JsonScalar::Array => ScalarView::Array,
        JsonScalar::Object => ScalarView::Object,
    }
}

pub open spec fn json_v(v: JsonValue) -> JsonView {
    JsonView { is_object: v.is_object, fields: Seq::new(v.fields@.len(), |k: int| (v.fields@[k].0@, scalar_v(v.fields@[k].1))) }
}

/// What `serde_json` reads from the bytes of a line: `None` where they are not one JSON
/// value; for an object, its members.
pub uninterp spec fn json_parsed(line: Seq<u8>) -> Option<JsonView>;

/// One member's value, its kind told apart one arm per kind of `serde_json::Value`.
#[verifier::external_body]
fn scalar_of(x: &serde_json::Value) -> JsonScalar {
    match x {
        serde_json::Value::Null => JsonScalar::Null,
        serde_json::Value::Bool(b) => JsonScalar::Bool(*b),
        serde_json::Value::Number(n) => n.as_u64().map_or(JsonScalar::OtherNumber, JsonScalar::U64),
        serde_json::Value::String(s) => JsonScalar::Str(s.clone()),
        serde_json::Value::Array(_) => JsonScalar::Array,
        serde_json::Value::Object(_) => JsonScalar::Object,
    }
}

/// `serde_json::from_slice::<serde_json::Value>`: the line's value, its members taken as
/// plain values. What the parser accepts is named, not restated.
#[verifier::external_body]
pub(crate) fn json_value(line: &[u8]) -> (r: Option<JsonValue>)
    ensures
        match r {
            Some(v) => json_parsed(line@) == Some(json_v(v)),
            None => json_parsed(line@) is None,
        },
{
    let v: serde_json::Value = serde_json::from_slice(line).ok()?;
    let fields = match &v {
        serde_json::Value::Object(m) => m.iter().map(|(k, x)| (k.clone(), scalar_of(x))).collect(),
        _ => Vec::new(),
    };
    Some(JsonValue { is_object: v.is_object(), fields })
}

/// Why a foreign range is refused.
#[derive(Debug, Clone, Copy, PartialEq, Eq)]
pub enum Problem {
    /// The range does not end with a newline.
    EndsInsideLine,
    /// `seq` is not a positive whole number.
    InvalidSequence,
    /// The sequence cannot go past `u64::MAX`.
    SequenceExhausted,
    /// A torn line waits to be completed.
    TornLineFirst,
    /// The envelope names another device.
    OtherDevice,
    /// The envelope names another app.
    OtherApp,
    /// `lam`, `ts`, `op`, `tbl`, `id` or a put's `d` is missing or malformed.
    InvalidShape,
    /// The stream named is this node's own log, which only its writer appends to.
    OwnLog,
    /// The bound on a line is zero.
    NoLineBound,
    /// A segment before the stream's last ends inside a line.
    EarlierSegmentTorn,
}

/// How each problem reads.
pub open spec fn problem_text(p: Problem) -> Seq<char> {
    match p {
        Problem::EndsInsideLine => "range ends inside a line"@,
        Problem::InvalidSequence => "invalid envelope sequence"@,
        Problem::SequenceExhausted => "sequence exhausted"@,
        Problem::TornLineFirst => "complete the foreign line before appending"@,
        Problem::OtherDevice => "envelope device differs from destination"@,
        Problem::OtherApp => "envelope app differs from destination"@,
        Problem::InvalidShape => "invalid envelope shape"@,
        Problem::OwnLog => "cannot receive this node's own log"@,
        Problem::NoLineBound => "line bound must be positive"@,
        Problem::EarlierSegmentTorn => "an earlier segment has an incomplete line"@,
    }
}

impl Problem {
    /// How the problem reads.
    pub fn text(self) -> (r: &'static str)
        ensures
            r@ == problem_text(self),
    {
        match self {
            Problem::EndsInsideLine => "range ends inside a line",
            Problem::InvalidSequence => "invalid envelope sequence",
            Problem::SequenceExhausted => "sequence exhausted",
            Problem::TornLineFirst => "complete the foreign line before appending",
            Problem::OtherDevice => "envelope device differs from destination",
            Problem::OtherApp => "envelope app differs from destination",
            Problem::InvalidShape => "invalid envelope shape",
            Problem::OwnLog => "cannot receive this node's own log",
            Problem::NoLineBound => "line bound must be positive",
            Problem::EarlierSegmentTorn => "an earlier segment has an incomplete line",
        }
    }
}

/// Why a foreign range was refused; nothing of it is written.
#[derive(Debug, Clone, Copy, PartialEq, Eq)]
pub enum ForeignError {
    /// The range, or a line of it, is not acceptable.
    Line(Problem),
    /// The envelope numbered `seq` is not acceptable.
    Envelope { seq: u64, problem: Problem },
    /// A line is longer than the bound.
    LineTooLong { limit: usize },
    /// An envelope is not numbered one past the last.
    OutOfOrder { expected: u64, found: u64 },
    /// The bytes do not extend the torn line they should complete; `offset` is the count
    /// of complete bytes in the segment, where the torn line begins.
    Diverged { offset: u64 },
}

/// The problem an error names, where it names one.
pub open spec fn error_problem(e: ForeignError) -> Option<Problem> {
    match e {
        ForeignError::Line(p) => Some(p),
        ForeignError::Envelope { problem, .. } => Some(problem),
        _ => None,
    }
}

impl ForeignError {
    /// The problem this refusal names, where it names one; its text is [`Problem::text`].
    pub fn problem(&self) -> (r: Option<Problem>)
        ensures
            r == error_problem(*self),
    {
        match self {
            ForeignError::Line(p) => Some(*p),
            ForeignError::Envelope { problem, .. } => Some(*problem),
            _ => None,
        }
    }
}

/// The value of member `key`.
pub open spec fn field(fields: Seq<(Seq<char>, ScalarView)>, key: Seq<char>) -> Option<ScalarView>
    decreases fields.len(),
{
    if fields.len() == 0 {
        None
    } else if fields[0].0 == key {
        Some(fields[0].1)
    } else {
        field(fields.drop_first(), key)
    }
}

/// A member that is a non-empty string.
pub open spec fn nonempty_str(fields: Seq<(Seq<char>, ScalarView)>, key: Seq<char>) -> bool {
    field(fields, key) matches Some(ScalarView::Str(s)) && s.len() > 0
}

/// The envelope is shaped as one: a positive `lam`, a `ts` the date-time crate reads,
/// non-empty `op`, `tbl` and `id`, and an object `d` for a put.
pub open spec fn well_shaped(fields: Seq<(Seq<char>, ScalarView)>) -> bool {
    &&& field(fields, "lam"@) matches Some(ScalarView::U64(l)) && l > 0
    &&& field(fields, "ts"@) matches Some(ScalarView::Str(t)) && ts_nanos(t) is Some
    &&& nonempty_str(fields, "op"@)
    &&& nonempty_str(fields, "tbl"@)
    &&& nonempty_str(fields, "id"@)
    &&& (field(fields, "op"@) == Some(ScalarView::Str("put"@)) ==> field(fields, "d"@) == Some(ScalarView::Object))
}

/// What a line is for reception: `Ok(None)` for a line that is not an envelope (not
/// JSON, or an object without `seq`), `Ok(Some(seq))` for an envelope of this
/// destination, and the refusal otherwise.
pub open spec fn envelope_seq_spec(p: Option<JsonView>, app: Seq<char>, dev: Seq<char>) -> Result<Option<u64>, ForeignError> {
    match p {
        None => Ok(None),
        Some(v) => if !v.is_object || field(v.fields, "seq"@) is None {
            Ok(None)
        } else {
            match field(v.fields, "seq"@) {
                Some(ScalarView::U64(n)) if n > 0 => {
                    if field(v.fields, "dev"@) != Some(ScalarView::Str(dev)) {
                        Err(ForeignError::Envelope { seq: n, problem: Problem::OtherDevice })
                    } else if field(v.fields, "app"@) != Some(ScalarView::Str(app)) {
                        Err(ForeignError::Envelope { seq: n, problem: Problem::OtherApp })
                    } else if !well_shaped(v.fields) {
                        Err(ForeignError::Envelope { seq: n, problem: Problem::InvalidShape })
                    } else {
                        Ok(Some(n))
                    }
                },
                _ => Err(ForeignError::Line(Problem::InvalidSequence)),
            }
        },
    }
}

/// An envelope for another app is never accepted: a line that reads as an object with a
/// positive `seq` and this device's `dev`, but whose `app` is not the string `app`, is
/// refused as `OtherApp` under that `seq`.
pub proof fn lemma_other_app_is_refused(v: JsonView, app: Seq<char>, dev: Seq<char>, n: u64)
    requires
        v.is_object,
        field(v.fields, "seq"@) == Some(ScalarView::U64(n)),
        n > 0,
        field(v.fields, "dev"@) == Some(ScalarView::Str(dev)),
        field(v.fields, "app"@) != Some(ScalarView::Str(app)),
    ensures
        envelope_seq_spec(Some(v), app, dev) == Err::<Option<u64>, ForeignError>(
            ForeignError::Envelope { seq: n, problem: Problem::OtherApp },
        ),
{
}

/// What is accepted as an envelope belongs to the destination: an accepted `seq` comes
/// from an object whose `seq` member is that number and whose `dev` and `app` members are
/// the destination's device and app.
pub proof fn lemma_accepted_envelope_names_destination(p: Option<JsonView>, app: Seq<char>, dev: Seq<char>)
    ensures
        envelope_seq_spec(p, app, dev) matches Ok(Some(n)) ==> (p matches Some(v) && v.is_object
            && field(v.fields, "seq"@) == Some(ScalarView::U64(n)) && n > 0
            && field(v.fields, "dev"@) == Some(ScalarView::Str(dev))
            && field(v.fields, "app"@) == Some(ScalarView::Str(app))),
{
}

/// A range whose first line is an envelope for another app is refused whole, under that
/// envelope's `seq`, provided the line is within the bound: nothing of it is written.
pub proof fn lemma_range_for_other_app_is_refused(
    b: Seq<u8>,
    head: u64,
    limit: usize,
    app: Seq<char>,
    dev: Seq<char>,
    v: JsonView,
    n: u64,
)
    requires
        b.len() > 0,
        b.last() == 10,
        line_end(b, 0) <= limit,
        json_parsed(b.subrange(0, line_end(b, 0))) == Some(v),
        v.is_object,
        field(v.fields, "seq"@) == Some(ScalarView::U64(n)),
        n > 0,
        field(v.fields, "dev"@) == Some(ScalarView::Str(dev)),
        field(v.fields, "app"@) != Some(ScalarView::Str(app)),
    ensures
        validate_spec(b, head, limit, app, dev) == Err::<u64, ForeignError>(
            ForeignError::Envelope { seq: n, problem: Problem::OtherApp },
        ),
        receive_spec(head, Seq::empty(), limit, app, dev, b) == Err::<(u64, Seq<u8>), ForeignError>(
            ForeignError::Envelope { seq: n, problem: Problem::OtherApp },
        ),
{
    lemma_other_app_is_refused(v, app, dev, n);
    lemma_nl_from(b, 0);
    let end = line_end(b, 0);
    assert(b.subrange(0, end).len() == end);
    assert(validate_from(b, 0, head, limit, app, dev) == Err::<u64, ForeignError>(
        ForeignError::Envelope { seq: n, problem: Problem::OtherApp },
    ));
}

pub(crate) fn field_exec<'a>(fields: &'a Vec<(String, JsonScalar)>, key: &str) -> (r: Option<&'a JsonScalar>)
    ensures
        match r {
            Some(x) => field(Seq::new(fields@.len(), |k: int| (fields@[k].0@, scalar_v(fields@[k].1))), key@) == Some(scalar_v(*x)),
            None => field(Seq::new(fields@.len(), |k: int| (fields@[k].0@, scalar_v(fields@[k].1))), key@) is None,
        },
{
    let ghost fv = Seq::new(fields@.len(), |k: int| (fields@[k].0@, scalar_v(fields@[k].1)));
    let kc = chars_of(key);
    let mut i: usize = 0;
    assert(fv.subrange(0, fv.len() as int) =~= fv);
    while i < fields.len()
        invariant
            i <= fields@.len(),
            fv == Seq::new(fields@.len(), |k: int| (fields@[k].0@, scalar_v(fields@[k].1))),
            kc@ == key@,
            field(fv, key@) == field(fv.subrange(i as int, fv.len() as int), key@),
        decreases fields@.len() - i,
    {
        let nc = chars_of(fields[i].0.as_str());
        assert(fv.subrange(i as int, fv.len() as int)[0] == fv[i as int]);
        if same_chars(nc.as_slice(), kc.as_slice()) {
            return Some(&fields[i].1);
        }
        assert(fv.subrange(i as int, fv.len() as int).drop_first() =~= fv.subrange(i + 1, fv.len() as int));
        i = i + 1;
    }
    None
}

fn is_str(x: Option<&JsonScalar>, w: &str) -> (r: bool)
    ensures
        r == (match x {
            Some(s) => scalar_v(*s) == ScalarView::Str(w@),
            None => false,
        }),
{
    match x {
        Some(JsonScalar::Str(s)) => {
            let a = chars_of(s.as_str());
            let b = chars_of(w);
            same_chars(a.as_slice(), b.as_slice())
        },
        _ => false,
    }
}

fn nonempty_exec(x: Option<&JsonScalar>) -> (r: bool)
    ensures
        r == (match x {
            Some(s) => scalar_v(*s) matches ScalarView::Str(t) && t.len() > 0,
            None => false,
        }),
{
    match x {
        Some(JsonScalar::Str(s)) => {
            let a = chars_of(s.as_str());
            a.len() > 0
        },
        _ => false,
    }
}

/// What a line is for reception, read from its bytes: not an envelope, an envelope of
/// this destination with its `seq`, or the refusal.
pub fn envelope_seq(line: &[u8], app: &str, dev: &str) -> (r: Result<Option<u64>, ForeignError>)
    ensures
        r == envelope_seq_spec(json_parsed(line@), app@, dev@),
{
    let v = match json_value(line) {
        None => return Ok(None),
        Some(v) => v,
    };
    let ghost fv = json_v(v).fields;
    let seq = field_exec(&v.fields, "seq");
    if !v.is_object || seq.is_none() {
        return Ok(None);
    }
    let n = match seq {
        Some(JsonScalar::U64(n)) => {
            if *n > 0 {
                *n
            } else {
                return Err(ForeignError::Line(Problem::InvalidSequence));
            }
        },
        _ => return Err(ForeignError::Line(Problem::InvalidSequence)),
    };
    if !is_str(field_exec(&v.fields, "dev"), dev) {
        return Err(ForeignError::Envelope { seq: n, problem: Problem::OtherDevice });
    }
    if !is_str(field_exec(&v.fields, "app"), app) {
        return Err(ForeignError::Envelope { seq: n, problem: Problem::OtherApp });
    }
    let lam_ok = match field_exec(&v.fields, "lam") {
        Some(JsonScalar::U64(l)) => *l > 0,
        _ => false,
    };
    let ts_ok = match field_exec(&v.fields, "ts") {
        Some(JsonScalar::Str(t)) => parse_ts(t.as_str()).is_some(),
        _ => false,
    };
    let shape_ok = lam_ok && ts_ok && nonempty_exec(field_exec(&v.fields, "op")) && nonempty_exec(field_exec(&v.fields, "tbl"))
        && nonempty_exec(field_exec(&v.fields, "id")) && (!is_str(field_exec(&v.fields, "op"), "put") || match field_exec(&v.fields, "d") {
        Some(JsonScalar::Object) => true,
        _ => false,
    });
    proof {
        reveal_strlit("put");
    }
    if !shape_ok {
        return Err(ForeignError::Envelope { seq: n, problem: Problem::InvalidShape });
    }
    Ok(Some(n))
}

/// The index of the first newline at or after `i`, or the length.
pub open spec fn nl_from(b: Seq<u8>, i: int) -> int
    decreases b.len() - i,
{
    if i < 0 || i >= b.len() {
        b.len() as int
    } else if b[i] == 10 {
        i
    } else {
        nl_from(b, i + 1)
    }
}

proof fn lemma_nl_from(b: Seq<u8>, i: int)
    requires
        0 <= i <= b.len(),
    ensures
        i <= nl_from(b, i) <= b.len(),
    decreases b.len() - i,
{
    if i < b.len() && b[i] != 10 {
        lemma_nl_from(b, i + 1);
    }
}

/// The end of the line that starts at `i`: past its newline, or the end of `b`.
pub open spec fn line_end(b: Seq<u8>, i: int) -> int {
    if nl_from(b, i) < b.len() { nl_from(b, i) + 1 } else { b.len() as int }
}

/// The check of the lines of `b` from `i` on, after the envelope numbered `head`: each line
/// within `limit` bytes, each envelope of this destination and numbered one past the last.
/// The sequence reached, or the first refusal.
pub open spec fn validate_from(b: Seq<u8>, i: int, head: u64, limit: usize, app: Seq<char>, dev: Seq<char>) -> Result<u64, ForeignError>
    decreases b.len() - i,
{
    if i < 0 || i >= b.len() {
        Ok(head)
    } else {
        let end = line_end(b, i);
        let line = b.subrange(i, end);
        if line.len() > limit {
            Err(ForeignError::LineTooLong { limit })
        } else {
            match envelope_seq_spec(json_parsed(line), app, dev) {
                Err(e) => Err(e),
                Ok(None) => if i < end { validate_from(b, end, head, limit, app, dev) } else { Ok(head) },
                Ok(Some(seq)) => if head == u64::MAX {
                    Err(ForeignError::Line(Problem::SequenceExhausted))
                } else if seq != head + 1 {
                    Err(ForeignError::OutOfOrder { expected: (head + 1) as u64, found: seq })
                } else if i < end {
                    validate_from(b, end, seq, limit, app, dev)
                } else {
                    Ok(seq)
                },
            }
        }
    }
}

/// A range is whole lines, each acceptable: the sequence it reaches, or the refusal.
pub open spec fn validate_spec(b: Seq<u8>, head: u64, limit: usize, app: Seq<char>, dev: Seq<char>) -> Result<u64, ForeignError> {
    if b.len() == 0 || b.last() != 10 {
        Err(ForeignError::Line(Problem::EndsInsideLine))
    } else {
        validate_from(b, 0, head, limit, app, dev)
    }
}

/// A range appended after the last complete line: nothing for no bytes; refused while a
/// torn line waits; otherwise the sequence it reaches and the bytes to write, all of them.
pub open spec fn receive_spec(
    head: u64,
    torn: Seq<u8>,
    limit: usize,
    app: Seq<char>,
    dev: Seq<char>,
    b: Seq<u8>,
) -> Result<(u64, Seq<u8>), ForeignError> {
    if b.len() == 0 {
        Ok((head, Seq::empty()))
    } else if torn.len() > 0 {
        Err(ForeignError::Line(Problem::TornLineFirst))
    } else {
        match validate_spec(b, head, limit, app, dev) {
            Ok(h) => Ok((h, b)),
            Err(e) => Err(e),
        }
    }
}

/// A range that completes the torn line: it must extend the torn bytes strictly; the
/// sequence it reaches and only the bytes the torn line lacks.
pub open spec fn complete_spec(
    head: u64,
    torn: Seq<u8>,
    offset: u64,
    limit: usize,
    app: Seq<char>,
    dev: Seq<char>,
    b: Seq<u8>,
) -> Result<(u64, Seq<u8>), ForeignError> {
    if torn.len() == 0 || b.len() <= torn.len() || b.subrange(0, torn.len() as int) != torn {
        Err(ForeignError::Diverged { offset })
    } else {
        match validate_spec(b, head, limit, app, dev) {
            Ok(h) => Ok((h, b.subrange(torn.len() as int, b.len() as int))),
            Err(e) => Err(e),
        }
    }
}

fn copy_bytes(b: &[u8], from: usize) -> (r: Vec<u8>)
    requires
        from <= b@.len(),
    ensures
        r@ == b@.subrange(from as int, b@.len() as int),
{
    let mut r: Vec<u8> = Vec::new();
    let mut i = from;
    while i < b.len()
        invariant
            from <= i <= b@.len(),
            r@ == b@.subrange(from as int, i as int),
        decreases b@.len() - i,
    {
        r.push(b[i]);
        assert(r@ =~= b@.subrange(from as int, i + 1));
        i = i + 1;
    }
    r
}

/// Check a whole range of lines after the envelope numbered `head`.
pub fn validate(b: &[u8], head: u64, limit: usize, app: &str, dev: &str) -> (r: Result<u64, ForeignError>)
    ensures
        r == validate_spec(b@, head, limit, app@, dev@),
{
    if b.len() == 0 || b[b.len() - 1] != 10 {
        return Err(ForeignError::Line(Problem::EndsInsideLine));
    }
    let mut h = head;
    let mut i: usize = 0;
    while i < b.len()
        invariant
            i <= b@.len(),
            b@.len() > 0,
            b@.last() == 10,
            validate_from(b@, 0, head, limit, app@, dev@) == validate_from(b@, i as int, h, limit, app@, dev@),
        decreases b@.len() - i,
    {
        let mut e = i;
        while e < b.len() && b[e] != 10
            invariant
                i <= e <= b@.len(),
                nl_from(b@, i as int) == nl_from(b@, e as int),
            decreases b@.len() - e,
        {
            e = e + 1;
        }
        let end = if e < b.len() { e + 1 } else { b.len() };
        let line = vstd::slice::slice_subrange(b, i, end);
        if line.len() > limit {
            return Err(ForeignError::LineTooLong { limit });
        }
        match envelope_seq(line, app, dev) {
            Err(x) => return Err(x),
            Ok(None) => {},
            Ok(Some(seq)) => {
                if h == u64::MAX {
                    return Err(ForeignError::Line(Problem::SequenceExhausted));
                }
                if seq != h + 1 {
                    return Err(ForeignError::OutOfOrder { expected: h + 1, found: seq });
                }
                h = seq;
            },
        }
        i = end;
    }
    Ok(h)
}

/// A range appended after the last complete line of another device's log: the sequence
/// it reaches and the bytes to write, or the refusal, which writes nothing.
pub fn receive(head: u64, torn: &[u8], line_limit: usize, app: &str, dev: &str, bytes: &[u8]) -> (r: Result<(u64, Vec<u8>), ForeignError>)
    ensures
        match r {
            Ok((h, w)) => receive_spec(head, torn@, line_limit, app@, dev@, bytes@) == Ok::<(u64, Seq<u8>), ForeignError>((h, w@)),
            Err(e) => receive_spec(head, torn@, line_limit, app@, dev@, bytes@) == Err::<(u64, Seq<u8>), ForeignError>(e),
        },
{
    if bytes.len() == 0 {
        return Ok((head, Vec::new()));
    }
    if torn.len() > 0 {
        return Err(ForeignError::Line(Problem::TornLineFirst));
    }
    match validate(bytes, head, line_limit, app, dev) {
        Ok(h) => {
            let w = copy_bytes(bytes, 0);
            assert(bytes@.subrange(0, bytes@.len() as int) =~= bytes@);
            Ok((h, w))
        },
        Err(e) => Err(e),
    }
}

/// A range that completes the torn last line: the sequence it reaches and the bytes the
/// torn line lacks, or the refusal, which writes nothing.
pub fn complete(head: u64, torn: &[u8], offset: u64, line_limit: usize, app: &str, dev: &str, bytes: &[u8]) -> (r: Result<(u64, Vec<u8>), ForeignError>)
    ensures
        match r {
            Ok((h, w)) => complete_spec(head, torn@, offset, line_limit, app@, dev@, bytes@) == Ok::<(u64, Seq<u8>), ForeignError>((h, w@)),
            Err(e) => complete_spec(head, torn@, offset, line_limit, app@, dev@, bytes@) == Err::<(u64, Seq<u8>), ForeignError>(e),
        },
{
    if torn.len() == 0 || bytes.len() <= torn.len() {
        return Err(ForeignError::Diverged { offset });
    }
    let mut k: usize = 0;
    while k < torn.len()
        invariant
            k <= torn@.len() < bytes@.len(),
            forall|j: int| 0 <= j < k ==> bytes@[j] == torn@[j],
        decreases torn@.len() - k,
    {
        if bytes[k] != torn[k] {
            assert(bytes@.subrange(0, torn@.len() as int)[k as int] != torn@[k as int]);
            return Err(ForeignError::Diverged { offset });
        }
        k = k + 1;
    }
    assert(bytes@.subrange(0, torn@.len() as int) =~= torn@);
    match validate(bytes, head, line_limit, app, dev) {
        Ok(h) => Ok((h, copy_bytes(bytes, torn.len()))),
        Err(e) => Err(e),
    }
}

/// The `seq` a complete line carries, as the head of a stream: a whole number that fits a
/// `u64`, in a line that parses.
pub open spec fn tail_seq_spec(p: Option<JsonView>) -> Option<u64> {
    match p {
        Some(v) => match field(v.fields, "seq"@) {
            Some(ScalarView::U64(n)) => Some(n),
            _ => None,
        },
        None => None,
    }
}

/// The `seq` a complete line carries, read from its bytes.
pub fn tail_seq(line: &[u8]) -> (r: Option<u64>)
    ensures
        r == tail_seq_spec(json_parsed(line@)),
{
    match json_value(line) {
        Some(v) => match field_exec(&v.fields, "seq") {
            Some(JsonScalar::U64(n)) => Some(*n),
            _ => None,
        },
        None => None,
    }
}

/// The head only moves forward: an accepted range reaches a sequence no lower than the
/// one it started after.
pub proof fn lemma_head_moves_forward(b: Seq<u8>, i: int, head: u64, limit: usize, app: Seq<char>, dev: Seq<char>)
    ensures
        validate_from(b, i, head, limit, app, dev) matches Ok(h) ==> h >= head,
    decreases b.len() - i,
{
    if !(i < 0 || i >= b.len()) {
        let end = line_end(b, i);
        if i < end {
            lemma_head_moves_forward(b, end, head, limit, app, dev);
            match envelope_seq_spec(json_parsed(b.subrange(i, end)), app, dev) {
                Ok(Some(seq)) => {
                    if head != u64::MAX && seq == head + 1 {
                        lemma_head_moves_forward(b, end, seq, limit, app, dev);
                    }
                },
                _ => {},
            }
        }
    }
}

/// Completing a torn line writes exactly what it lacks: the torn bytes and what is
/// written are the whole line range received.
pub proof fn lemma_completion_is_the_missing_suffix(
    head: u64,
    torn: Seq<u8>,
    offset: u64,
    limit: usize,
    app: Seq<char>,
    dev: Seq<char>,
    b: Seq<u8>,
)
    ensures
        complete_spec(head, torn, offset, limit, app, dev, b) matches Ok((_, w)) ==> torn + w == b,
{
    if complete_spec(head, torn, offset, limit, app, dev, b) is Ok {
        let w = b.subrange(torn.len() as int, b.len() as int);
        assert(torn + w =~= b);
    }
}

/// A refused append leaves the stream as it was: nothing is handed to the writer, and a
/// range is refused whole while a torn line waits.
pub proof fn lemma_torn_line_blocks_appends(head: u64, torn: Seq<u8>, limit: usize, app: Seq<char>, dev: Seq<char>, b: Seq<u8>)
    requires
        torn.len() > 0,
        b.len() > 0,
    ensures
        receive_spec(head, torn, limit, app, dev, b) == Err::<(u64, Seq<u8>), ForeignError>(ForeignError::Line(Problem::TornLineFirst)),
{
}

/// What opening a stream has found, reading its segments' tails from the last back: the
/// head (the last complete envelope's `seq`, 0 for none), the torn bytes at the end of the
/// last segment, the offset past its last newline, and whether the head is found.
pub struct Opening {
    pub head: u64,
    pub torn: Vec<u8>,
    pub offset: u64,
    pub found: bool,
}

impl Opening {
    /// Nothing read yet: no head, nothing torn, at offset 0.
    pub fn new() -> (r: Opening)
        ensures
            r.head == 0,
            r.torn@.len() == 0,
            r.offset == 0,
            !r.found,
    {
        Opening { head: 0, torn: Vec::new(), offset: 0, found: false }
    }

    /// Take in the tail of one more segment, the segments read from the last back (`last`
    /// for the stream's last one, which is appended to): `seq` of its last complete line
    /// that has one, the bytes after its last newline, and the offset past that newline.
    /// The last segment gives the torn bytes and the offset; an earlier one that ends
    /// inside a line is refused; the first tail with a `seq` gives the head, and no
    /// earlier segment needs reading.
    pub fn take_tail(self, last: bool, seq: Option<u64>, torn: Vec<u8>, complete: u64) -> (r: Result<Opening, ForeignError>)
        ensures
            match r {
                Ok(n) => (last || torn@.len() == 0) && n.torn@ == (if last { torn@ } else { self.torn@ })
                    && n.offset == (if last { complete } else { self.offset }) && n.head == (match seq {
                    Some(s) => s,
                    None => self.head,
                }) && n.found == (seq is Some),
                Err(e) => !last && torn@.len() > 0 && e == ForeignError::Line(Problem::EarlierSegmentTorn),
            },
    {
        let Opening { head, torn: kept, offset, found: _ } = self;
        if !last && torn.len() > 0 {
            return Err(ForeignError::Line(Problem::EarlierSegmentTorn));
        }
        let (torn, offset) = if last { (torn, complete) } else { (kept, offset) };
        let (head, found) = match seq {
            Some(s) => (s, true),
            None => (head, false),
        };
        Ok(Opening { head, torn, offset, found })
    }
}

/// Whether a stream may be opened for reception: never this node's own log (`dev` equal
/// to `own`), and only with a positive bound on a line.
pub fn check_opening(dev: &str, own: &str, line_limit: usize) -> (r: Result<(), ForeignError>)
    ensures
        r == if dev@ == own@ {
            Err::<(), ForeignError>(ForeignError::Line(Problem::OwnLog))
        } else if line_limit == 0 {
            Err::<(), ForeignError>(ForeignError::Line(Problem::NoLineBound))
        } else {
            Ok::<(), ForeignError>(())
        },
{
    let d = chars_of(dev);
    let o = chars_of(own);
    if same_chars(d.as_slice(), o.as_slice()) {
        return Err(ForeignError::Line(Problem::OwnLog));
    }
    if line_limit == 0 {
        return Err(ForeignError::Line(Problem::NoLineBound));
    }
    Ok(())
}

} // verus!
