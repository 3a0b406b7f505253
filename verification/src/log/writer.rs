//! The single writer of one `data/<slug>/log/<dev>.jsonl`: puts, tombstones and
//! all-or-nothing batches, `seq` gapless, the Lamport counter taken only once a line is on
//! disk, and a failed append closing the writer until the file has been re-read.

use vstd::prelude::*;
use vstd::string::StringSliceAdditionalSpecFns;
use super::envelope::{envelope_line, envelope_text, Op};
use super::lamport::{ticked, Lamport};
use super::LogError;
use crate::text::{chars_of, push_str, same_chars, string_of};

verus! {

/// How hard an append tries to be on disk before it returns.
#[derive(Debug, Clone, Copy, PartialEq, Eq, Structural)]
pub enum Durability {
    /// `fsync` after every append. Correctness over throughput, and the default.
    Sync,
    /// Leave it to the OS; a power cut can lose the tail.
    Os,
}

impl Default for Durability {
    fn default() -> (r: Self)
        ensures
            r == Durability::Sync,
    {
        Durability::Sync
    }
}

/// What the writer needs of its file: write every byte, and flush to the device. Either
/// may fail, with a description of why.
pub trait Sink {
    /// Write all of `bytes`, or fail having written some prefix of them.
    fn write_all(&mut self, bytes: &[u8]) -> Result<(), String>;

    /// Flush what was written, data and metadata.
    fn sync_all(&self) -> Result<(), String>;
}

/// The name a device's live log carries: `<dev>.jsonl`.
pub open spec fn own_name(dev: Seq<char>) -> Seq<char> {
    dev + ".jsonl"@
}

/// Whether a log file named `file` in the `log/` folder of the app folder named
/// `app_dir` is this node's own for `app`: the live `<dev>.jsonl`, or a rolled
/// `<dev>.<n>.jsonl` (a name with exactly two dots that starts with `<dev>.` and ends with
/// `.jsonl`), under the app's own folder.
pub open spec fn is_ours(file: Option<Seq<char>>, app_dir: Option<Seq<char>>, app: Seq<char>, dev: Seq<char>) -> bool {
    let name = match file {
        Some(f) => f,
        None => Seq::empty(),
    };
    let stem_is_ours = name == own_name(dev) || (crate::text::starts_with(name, dev + "."@)
        && crate::text::ends_with(name, ".jsonl"@) && dots(name) == 2);
    stem_is_ours && app_dir == Some(app)
}

/// The number of `.` in `s`.
pub open spec fn dots(s: Seq<char>) -> nat
    decreases s.len(),
{
    if s.len() == 0 {
        0
    } else {
        dots(s.drop_last()) + if s.last() == '.' { 1nat } else { 0 }
    }
}

/// A device appends only to its own log: whether a file named `file`, in the log folder
/// of the app folder named `app_dir`, is this node's own for `app`.
pub fn log_is_ours(file: Option<&str>, app_dir: Option<&str>, app: &str, dev: &str) -> (r: bool)
    ensures
        r == is_ours(
            match file {
                Some(f) => Some(f@),
                None => None,
            },
            match app_dir {
                Some(a) => Some(a@),
                None => None,
            },
            app@,
            dev@,
        ),
{
    let name = match file {
        Some(f) => chars_of(f),
        None => Vec::new(),
    };
    let mut own: Vec<char> = chars_of(dev);
    push_str(&mut own, ".jsonl");
    let mut prefix: Vec<char> = chars_of(dev);
    prefix.push('.');
    assert(prefix@ =~= dev@ + "."@) by {
        reveal_strlit(".");
    }
    let ext = chars_of(".jsonl");
    let mut count: usize = 0;
    let mut i: usize = 0;
    while i < name.len()
        invariant
            i <= name@.len(),
            count == dots(name@.take(i as int)),
            count <= i,
        decreases name.len() - i,
    {
        assert(name@.take(i + 1).drop_last() =~= name@.take(i as int));
        if name[i] == '.' {
            count = count + 1;
        }
        i = i + 1;
    }
    assert(name@.take(name@.len() as int) =~= name@);
    let stem_is_ours = same_chars(name.as_slice(), own.as_slice()) || (
    crate::text::starts_with_exec(name.as_slice(), prefix.as_slice())
        && crate::text::ends_with_exec(name.as_slice(), ext.as_slice()) && count == 2);
    let dir_is_app = match app_dir {
        Some(a) => {
            let x = chars_of(a);
            let y = chars_of(app);
            same_chars(x.as_slice(), y.as_slice())
        },
        None => false,
    };
    stem_is_ours && dir_is_app
}

/// The nanoseconds since the Unix epoch a timestamp of the date-time crate can hold lie
/// strictly within this bound either way.
pub open spec fn ts_in_range(ns: i128) -> bool {
    -400_000_000_000_000_000_000 < ns < 400_000_000_000_000_000_000
}

/// RFC 3339 UTC with exactly three subsecond digits and a literal `Z`, as the date-time
/// crate prints the instant `ns` nanoseconds after the Unix epoch.
pub uninterp spec fn ts_text(ns: i128) -> Seq<char>;

/// `jiff::Timestamp::from_nanosecond` and then `DateTimePrinter::new().precision(Some(3))
/// .timestamp_to_string`: the instant as `ts`. An instant the crate cannot hold prints as
/// the empty text.
#[verifier::external_body]
fn print_ts(ns: i128) -> (r: String)
    ensures
        r@ == ts_text(ns),
{
    match jiff::Timestamp::from_nanosecond(ns) {
        Ok(at) => jiff::fmt::temporal::DateTimePrinter::new().precision(Some(3)).timestamp_to_string(&at),
        Err(_) => String::new(),
    }
}

/// `jiff::Timestamp::now().as_nanosecond()`: the clock, read. Nothing is promised of the
/// value but that the crate can hold it.
#[verifier::external_body]
fn clock_ns() -> (r: i128)
    ensures
        ts_in_range(r),
{
    jiff::Timestamp::now().as_nanosecond()
}

/// Any instant, formatted as `ts`.
pub fn format_ts(ns: i128) -> (r: String)
    ensures
        r@ == ts_text(ns),
{
    print_ts(ns)
}

/// The current instant, formatted as `ts`.
pub fn now() -> (r: String)
    ensures
        exists|ns: i128| ts_in_range(ns) && r@ == ts_text(ns),
{
    let ns = clock_ns();
    format_ts(ns)
}

/// The UTF-8 bytes of `s`.
fn utf8_bytes(s: &str) -> (v: Vec<u8>)
    ensures
        v@ == s.spec_bytes(),
{
    let b = s.as_bytes();
    let mut v: Vec<u8> = Vec::new();
    let mut i: usize = 0;
    while i < b.len()
        invariant
            i <= b@.len(),
            v@ == b@.take(i as int),
        decreases b.len() - i,
    {
        v.push(b[i]);
        assert(b@.take(i + 1) =~= b@.take(i as int).push(b@[i as int]));
        i = i + 1;
    }
    assert(b@.take(b@.len() as int) =~= b@);
    v
}

/// The bytes of a line of characters, then the line feed.
pub open spec fn line_bytes(text: Seq<char>) -> Seq<u8> {
    vstd::utf8::encode_utf8(text) + seq![10u8]
}

/// The writer as plain values: where it writes, for which app and device, the `seq` of
/// the last event written, the durability policy, why it is closed when it is, and every
/// chunk of bytes it has handed its file, in order.
pub struct WriterView {
    pub path: Seq<char>,
    pub app: Seq<char>,
    pub dev: Seq<char>,
    pub seq: u64,
    pub durability: Durability,
    pub poisoned: Option<Seq<char>>,
    pub handed: Seq<Seq<u8>>,
}

/// The single writer of one log file.
pub struct Writer<S: Sink> {
    sink: S,
    path: String,
    app: String,
    dev: String,
    seq: u64,
    durability: Durability,
    poisoned: Option<String>,
    handed: Ghost<Seq<Seq<u8>>>,
}

impl<S: Sink> View for Writer<S> {
    type V = WriterView;

    closed spec fn view(&self) -> WriterView {
        WriterView {
            path: self.path@,
            app: self.app@,
            dev: self.dev@,
            seq: self.seq,
            durability: self.durability,
            poisoned: match self.poisoned {
                Some(p) => Some(p@),
                None => None,
            },
            handed: self.handed@,
        }
    }
}

/// What a commit does to the writer, given what it handed the file: refused untouched
/// while closed; otherwise the bytes handed over, and closed with a reason when the
/// write or the flush failed.
pub open spec fn committed(old: WriterView, new: WriterView, bytes: Seq<u8>, ok: bool) -> bool {
    &&& new.path == old.path
    &&& new.app == old.app
    &&& new.dev == old.dev
    &&& new.durability == old.durability
    &&& if old.poisoned is Some {
        new == old && !ok
    } else {
        &&& new.handed == old.handed.push(bytes)
        &&& ok ==> new.poisoned is None
        &&& !ok ==> new.poisoned is Some
    }
}

impl<S: Sink> Writer<S> {
    /// A writer over `sink`, the file at `path`, continuing after `seq` (zero for a new
    /// file, so the first event is `seq: 1`). The caller has checked the file is this
    /// node's own ([`log_is_ours`]) and opened it for appending.
    pub fn attach(sink: S, path: &str, app: &str, dev: &str, seq: u64, durability: Durability) -> (r: Self)
        ensures
            r@ == (WriterView {
                path: path@,
                app: app@,
                dev: dev@,
                seq,
                durability,
                poisoned: None,
                handed: Seq::empty(),
            }),
    {
        Writer {
            sink,
            path: path.to_string(),
            app: app.to_string(),
            dev: dev.to_string(),
            seq,
            durability,
            poisoned: None,
            handed: Ghost(Seq::empty()),
        }
    }

    /// One write, then the durability policy. A failure of either closes the writer: the
    /// bytes may be on disk in whole or in part, and nothing may be appended after them
    /// until the file has been re-read.
    fn commit(&mut self, bytes: &[u8]) -> (r: Result<(), LogError>)
        ensures
            committed(old(self)@, final(self)@, bytes@, r is Ok),
            final(self)@.seq == old(self)@.seq,
            old(self)@.poisoned is Some ==> r matches Err(LogError::Poisoned { .. }),
            old(self)@.poisoned is None ==> !(r matches Err(LogError::Poisoned { .. })),
            !(r matches Err(LogError::Json(_))),
    {
        match &self.poisoned {
            Some(reason) => {
                return Err(LogError::Poisoned { path: self.path.clone(), reason: reason.clone() });
            },
            None => {},
        }
        proof {
            self.handed@ = self.handed@.push(bytes@);
        }
        match self.sink.write_all(bytes) {
            Err(e) => {
                let mut why: Vec<char> = Vec::new();
                push_str(&mut why, "write failed: ");
                push_str(&mut why, e.as_str());
                self.poisoned = Some(string_of(why.as_slice()));
                return Err(LogError::Io { path: self.path.clone(), detail: e });
            },
            Ok(()) => {},
        }
        if self.durability == Durability::Sync {
            match self.sink.sync_all() {
                Err(e) => {
                    let mut why: Vec<char> = Vec::new();
                    push_str(&mut why, "flush failed: ");
                    push_str(&mut why, e.as_str());
                    self.poisoned = Some(string_of(why.as_slice()));
                    return Err(LogError::Io { path: self.path.clone(), detail: e });
                },
                Ok(()) => {},
            }
        }
        Ok(())
    }

    fn append(&mut self, lam: &mut Lamport, op: Op, tbl: &str, id: &str, d: Option<&str>) -> (r: Result<
        u64,
        LogError,
    >)
        requires
            old(self)@.seq < u64::MAX,
        ensures
            appended(old(self)@, final(self)@, *old(lam), *final(lam), op, tbl@, id@, match d {
                Some(t) => Some(t@),
                None => None,
            }, r),
    {
        let ts = now();
        let seq = self.seq + 1;
        let mut staged = *lam;
        let l = staged.tick();
        let line = envelope_line(seq, l, ts.as_str(), self.dev.as_str(), self.app.as_str(), op, tbl, id, None, d);
        let mut bytes = utf8_bytes(line.as_str());
        bytes.push(10);
        proof {
            assert(bytes@ =~= line_bytes(line@));
        }
        match self.commit(bytes.as_slice()) {
            Err(e) => Err(e),
            Ok(()) => {
                self.seq = seq;
                *lam = staged;
                Ok(seq)
            },
        }
    }

    /// Append one `put` of the row `d`, given as its JSON text, returning its `seq`. The
    /// timestamp is read from the clock here.
    pub fn put(&mut self, lam: &mut Lamport, tbl: &str, id: &str, d: &str) -> (r: Result<u64, LogError>)
        requires
            old(self)@.seq < u64::MAX,
        ensures
            json_valid(d@) ==> appended(old(self)@, final(self)@, *old(lam), *final(lam), Op::Put, tbl@, id@, Some(d@), r),
            !json_valid(d@) ==> (r matches Err(LogError::Json(_))) && final(self)@ == old(self)@ && *final(lam) == *old(lam),
    {
        if !check_json(d) {
            let mut msg: Vec<char> = Vec::new();
            push_str(&mut msg, "the row of ");
            push_str(&mut msg, tbl);
            push_str(&mut msg, " is not JSON");
            return Err(LogError::Json(string_of(msg.as_slice())));
        }
        self.append(lam, Op::Put, tbl, id, Some(d))
    }

    /// Append one tombstone, returning its `seq`.
    pub fn del(&mut self, lam: &mut Lamport, tbl: &str, id: &str) -> (r: Result<u64, LogError>)
        requires
            old(self)@.seq < u64::MAX,
        ensures
            appended(old(self)@, final(self)@, *old(lam), *final(lam), Op::Del, tbl@, id@, None, r),
    {
        self.append(lam, Op::Del, tbl, id, None)
    }

    /// Start a batch after the last event written, at the counter `lam`: every event it
    /// stages shares one timestamp, read here, and takes the next `seq` and `lam`.
    pub fn begin_batch(&self, lam: &Lamport) -> (b: Batch)
        ensures
            b@.app == self@.app,
            b@.dev == self@.dev,
            b@.start_seq == self@.seq,
            b@.seq == self@.seq,
            b@.start_lam == lam@,
            b@.lam == lam@,
            b@.staged.len() == 0,
            exists|ns: i128| ts_in_range(ns) && b@.ts == ts_text(ns),
    {
        Batch {
            app: self.app.clone(),
            dev: self.dev.clone(),
            ts: now(),
            start_seq: self.seq,
            seq: self.seq,
            start_lam: lam.get(),
            lam: *lam,
            staged: Vec::new(),
        }
    }

    /// Write a batch begun from this writer at this counter, all-or-nothing: the lines go
    /// to the file in one write, the first of two or more carrying the count. Returns the
    /// lines exactly as they went, without their newlines. An empty batch writes nothing;
    /// a row that is not JSON refuses the batch before anything is written.
    pub fn commit_batch(&mut self, lam: &mut Lamport, batch: Batch) -> (r: Result<Vec<Vec<u8>>, LogError>)
        requires
            batch@.app == old(self)@.app,
            batch@.dev == old(self)@.dev,
            batch@.start_seq == old(self)@.seq,
            batch@.start_lam == old(lam)@,
        ensures
            r matches Ok(lines) ==> lines@.len() == batch@.staged.len(),
            r matches Ok(lines) ==> forall|i: int| 0 <= i < lines@.len() ==> #[trigger] lines@[i]@
                == vstd::utf8::encode_utf8(staged_text(batch@, i)),
            r matches Ok(lines) ==> (lines@.len() == 0 ==> final(self)@ == old(self)@ && *final(lam)
                == *old(lam)),
            r matches Ok(lines) ==> (lines@.len() > 0 ==> old(self)@.poisoned is None
                && final(self)@.seq == batch@.seq && final(lam)@ == batch@.lam),
            r matches Ok(lines) ==> (lines@.len() > 0 ==> committed(
                old(self)@,
                final(self)@,
                joined_lines(bytes_views(lines@)),
                true,
            )),
            r matches Ok(lines) ==> (lines@.len() > 0 ==> committed(
                old(self)@,
                final(self)@,
                batch_bytes(batch@),
                true,
            )),
            (r matches Err(LogError::Json(_))) <==> exists|i: int|
                0 <= i < batch@.staged.len() && ((#[trigger] batch@.staged[i]).3 matches Some(t)
                    && !json_valid(t)),
            (r matches Err(LogError::Poisoned { .. })) <==> (old(self)@.poisoned is Some && batch@.staged.len() > 0
                && forall|i: int| 0 <= i < batch@.staged.len() ==> ((#[trigger] batch@.staged[i]).3 matches Some(t)
                    ==> json_valid(t))),
            r matches Err(LogError::Json(_)) ==> final(self)@ == old(self)@ && *final(lam) == *old(lam),
            r is Err && !(r matches Err(LogError::Json(_))) ==> batch@.staged.len() > 0
                && final(self)@.seq == old(self)@.seq && *final(lam) == *old(lam)
                && committed(old(self)@, final(self)@, batch_bytes(batch@), false),
    {
        let lines = match batch.lines() {
            Err(e) => {
                return Err(e);
            },
            Ok(l) => l,
        };
        if lines.len() == 0 {
            return Ok(lines);
        }
        let mut buf: Vec<u8> = Vec::new();
        let mut i: usize = 0;
        while i < lines.len()
            invariant
                i <= lines@.len(),
                buf@ == joined_lines(bytes_views(lines@).take(i as int)),
            decreases lines.len() - i,
        {
            let mut k: usize = 0;
            let ghost before = buf@;
            while k < lines[i].len()
                invariant
                    i < lines@.len(),
                    k <= lines@[i as int]@.len(),
                    buf@ == before + lines@[i as int]@.take(k as int),
                decreases lines@[i as int]@.len() - k,
            {
                buf.push(lines[i][k]);
                assert(lines@[i as int]@.take(k + 1) =~= lines@[i as int]@.take(k as int).push(
                    lines@[i as int]@[k as int],
                ));
                k = k + 1;
            }
            buf.push(10);
            proof {
                let lv = bytes_views(lines@);
                assert(lv.take(i + 1).drop_last() =~= lv.take(i as int));
                assert(lines@[i as int]@.take(k as int) =~= lines@[i as int]@);
                assert(buf@ =~= joined_lines(lv.take(i + 1)));
            }
            i = i + 1;
        }
        proof {
            let lv = bytes_views(lines@);
            assert(lv.take(lines@.len() as int) =~= lv);
            assert(lv =~= batch_lines(batch@));
        }
        let ghost before = self@;
        match self.commit(buf.as_slice()) {
            Err(e) => Err(e),
            Ok(()) => {
                let ghost mid = self@;
                assert(committed(before, mid, joined_lines(bytes_views(lines@)), true));
                self.seq = batch.seq;
                *lam = batch.lam;
                assert(self@.handed == mid.handed);
                assert(self@.poisoned == mid.poisoned);
                assert(committed(before, self@, joined_lines(bytes_views(lines@)), true));
                assert(self@.seq == batch@.seq);
                assert(lam@ == batch@.lam);
                assert(lines@.len() == batch@.staged.len());
                assert(forall|i: int| 0 <= i < lines@.len() ==> #[trigger] lines@[i]@
                        == vstd::utf8::encode_utf8(staged_text(batch@, i)));
                assert(before == old(self)@);
                assert(lines@.len() != 0);
                assert(old(self)@.poisoned is None);
                Ok(lines)
            },
        }
    }

    /// The `seq` of the last event written.
    pub fn seq(&self) -> (r: u64)
        ensures
            r == self@.seq,
    {
        self.seq
    }

    /// Why the writer refuses to append, if it does: the last commit failed and the file
    /// has not been re-read since.
    pub fn poisoned(&self) -> (r: Option<&str>)
        ensures
            match r {
                Some(p) => self@.poisoned == Some(p@),
                None => self@.poisoned is None,
            },
    {
        match &self.poisoned {
            Some(p) => Some(p.as_str()),
            None => None,
        }
    }

    /// Continue from `seq` when the file holds more than this writer wrote. Never moves
    /// backwards.
    pub fn resume(&mut self, seq: u64)
        ensures
            final(self)@ == (WriterView {
                seq: if seq > old(self)@.seq { seq } else { old(self)@.seq },
                ..old(self)@
            }),
    {
        if seq > self.seq {
            self.seq = seq;
        }
    }

    /// The file has been re-read to its end and ends on a line boundary: continue from the
    /// `seq` it holds, and take appends again.
    pub fn reconcile(&mut self, seq: u64)
        ensures
            final(self)@ == (WriterView {
                seq: if seq > old(self)@.seq { seq } else { old(self)@.seq },
                poisoned: None,
                ..old(self)@
            }),
    {
        self.resume(seq);
        self.poisoned = None;
    }

    /// The file being appended to.
    pub fn path(&self) -> (r: &str)
        ensures
            r@ == self@.path,
    {
        self.path.as_str()
    }
}

/// What appending one event does: refused while the writer is closed, with nothing
/// changed; otherwise the event's line — at the next `seq`, the ticked counter, a
/// timestamp read from the clock — handed to the file, and on success `seq` advanced and
/// the counter taken, on failure neither.
pub open spec fn appended(
    old: WriterView,
    new: WriterView,
    old_lam: Lamport,
    new_lam: Lamport,
    op: Op,
    tbl: Seq<char>,
    id: Seq<char>,
    d: Option<Seq<char>>,
    r: Result<u64, LogError>,
) -> bool {
    let seq = (old.seq + 1) as u64;
    let lam = ticked(old_lam@);
    &&& exists|ns: i128|
        ts_in_range(ns) && committed(
            old,
            new,
            line_bytes(envelope_text(seq, lam, ts_text(ns), old.dev, old.app, op, tbl, id, None, d)),
            r is Ok,
        )
    &&& match r {
        Ok(s) => s == seq && new.seq == seq && new_lam@ == lam,
        Err(_) => new.seq == old.seq && new_lam == old_lam,
    }
    &&& (r matches Err(LogError::Poisoned { .. })) <==> old.poisoned is Some
}

/// Appends are gapless: after one append succeeds, the next that succeeds carries the
/// very next `seq`, and its `lam` is stamped after the first one's (held at `u64::MAX`
/// once the counter has reached it).
pub proof fn lemma_appends_are_gapless(
    w0: WriterView,
    w1: WriterView,
    w2: WriterView,
    l0: Lamport,
    l1: Lamport,
    l2: Lamport,
    op1: Op,
    tbl1: Seq<char>,
    id1: Seq<char>,
    d1: Option<Seq<char>>,
    r1: Result<u64, LogError>,
    op2: Op,
    tbl2: Seq<char>,
    id2: Seq<char>,
    d2: Option<Seq<char>>,
    r2: Result<u64, LogError>,
)
    requires
        appended(w0, w1, l0, l1, op1, tbl1, id1, d1, r1),
        appended(w1, w2, l1, l2, op2, tbl2, id2, d2, r2),
        r1 is Ok,
        r2 is Ok,
        w0.seq + 2 <= u64::MAX,
    ensures
        r1->Ok_0 == w0.seq + 1,
        r2->Ok_0 == r1->Ok_0 + 1,
        w2.seq == w0.seq + 2,
        l2@ >= l1@,
        l1@ < u64::MAX ==> l2@ == l1@ + 1,
{
}

/// A failed append changes neither `seq` nor the counter, and leaves the writer closed:
/// whatever reached the file must be re-read before anything is appended after it.
pub proof fn lemma_failed_append_closes_the_writer(
    w0: WriterView,
    w1: WriterView,
    l0: Lamport,
    l1: Lamport,
    op: Op,
    tbl: Seq<char>,
    id: Seq<char>,
    d: Option<Seq<char>>,
    r: Result<u64, LogError>,
)
    requires
        appended(w0, w1, l0, l1, op, tbl, id, d, r),
        r is Err,
    ensures
        w1.seq == w0.seq,
        l1 == l0,
        w1.poisoned is Some,
{
}

/// A closed writer refuses: an append to it fails as poisoned and changes nothing, not
/// even the bytes handed to the file, until `reconcile` reopens it.
pub proof fn lemma_closed_writer_refuses(
    w0: WriterView,
    w1: WriterView,
    l0: Lamport,
    l1: Lamport,
    op: Op,
    tbl: Seq<char>,
    id: Seq<char>,
    d: Option<Seq<char>>,
    r: Result<u64, LogError>,
)
    requires
        appended(w0, w1, l0, l1, op, tbl, id, d, r),
        w0.poisoned is Some,
    ensures
        r matches Err(LogError::Poisoned { .. }),
        w1 == w0,
        l1 == l0,
{
}

/// An open writer hands the file exactly one line per append, success or not: the
/// envelope at the next `seq` with the ticked counter, followed by a line feed.
pub proof fn lemma_one_line_per_append(
    w0: WriterView,
    w1: WriterView,
    l0: Lamport,
    l1: Lamport,
    op: Op,
    tbl: Seq<char>,
    id: Seq<char>,
    d: Option<Seq<char>>,
    r: Result<u64, LogError>,
)
    requires
        appended(w0, w1, l0, l1, op, tbl, id, d, r),
        w0.poisoned is None,
    ensures
        w1.handed.len() == w0.handed.len() + 1,
        w1.handed.drop_last() == w0.handed,
        exists|ns: i128|
            ts_in_range(ns) && w1.handed.last() == line_bytes(
                envelope_text(
                    (w0.seq + 1) as u64,
                    ticked(l0@),
                    ts_text(ns),
                    w0.dev,
                    w0.app,
                    op,
                    tbl,
                    id,
                    None,
                    d,
                ),
            ),
{
    let ns = choose|ns: i128|
        ts_in_range(ns) && committed(
            w0,
            w1,
            line_bytes(
                envelope_text((w0.seq + 1) as u64, ticked(l0@), ts_text(ns), w0.dev, w0.app, op, tbl, id, None, d),
            ),
            r is Ok,
        );
    assert(w1.handed.drop_last() =~= w0.handed);
}

/// The views of a list of byte vectors.
pub open spec fn bytes_views(v: Seq<Vec<u8>>) -> Seq<Seq<u8>> {
    Seq::new(v.len(), |i: int| v[i]@)
}

/// Every line followed by a line feed, in order.
pub open spec fn joined_lines(lines: Seq<Seq<u8>>) -> Seq<u8>
    decreases lines.len(),
{
    if lines.len() == 0 {
        Seq::empty()
    } else {
        joined_lines(lines.drop_last()) + lines.last() + seq![10u8]
    }
}

/// The bytes of a batch's lines, in the order staged, each without its newline.
pub open spec fn batch_lines(b: BatchView) -> Seq<Seq<u8>> {
    Seq::new(b.staged.len(), |i: int| vstd::utf8::encode_utf8(staged_text(b, i)))
}

/// What committing a batch hands the file: its lines, each followed by a line feed.
pub open spec fn batch_bytes(b: BatchView) -> Seq<u8> {
    joined_lines(batch_lines(b))
}

/// Whether `text` is one JSON value, surrounding whitespace allowed, as `serde_json`
/// reads one.
pub uninterp spec fn json_valid(text: Seq<char>) -> bool;

/// `serde_json::from_str::<serde::de::IgnoredAny>`: whether the text reads as one JSON
/// value with nothing but whitespace around it.
#[verifier::external_body]
fn check_json(text: &str) -> (r: bool)
    ensures
        r == json_valid(text@),
{
    serde_json::from_str::<serde::de::IgnoredAny>(text).is_ok()
}

/// JSON's whitespace: space, tab, line feed, carriage return.
pub open spec fn json_ws(c: char) -> bool {
    c == ' ' || c == '\t' || c == '\n' || c == '\r'
}

/// `text` without the JSON whitespace around it: a raw value is kept as the JSON it
/// holds, not the padding it came with.
pub open spec fn json_trimmed(text: Seq<char>) -> Seq<char>
    decreases text.len(),
{
    if text.len() > 0 && json_ws(text[0]) {
        json_trimmed(text.drop_first())
    } else if text.len() > 0 && json_ws(text.last()) {
        json_trimmed(text.drop_last())
    } else {
        text
    }
}

fn json_trim(text: &str) -> (r: String)
    ensures
        r@ == json_trimmed(text@),
{
    let c = chars_of(text);
    let mut a: usize = 0;
    let mut b: usize = c.len();
    assert(c@.subrange(0, c@.len() as int) =~= c@);
    while a < b && (c[a] == ' ' || c[a] == '\t' || c[a] == '\n' || c[a] == '\r')
        invariant
            a <= b <= c@.len(),
            b == c@.len(),
            json_trimmed(c@.subrange(a as int, b as int)) == json_trimmed(c@),
        decreases b - a,
    {
        assert(c@.subrange(a as int, b as int).drop_first() =~= c@.subrange(a + 1, b as int));
        a = a + 1;
    }
    while a < b && (c[b - 1] == ' ' || c[b - 1] == '\t' || c[b - 1] == '\n' || c[b - 1] == '\r')
        invariant
            a <= b <= c@.len(),
            json_trimmed(c@.subrange(a as int, b as int)) == json_trimmed(c@),
            a < b ==> !json_ws(c@[a as int]),
        decreases b - a,
    {
        assert(c@.subrange(a as int, b as int).drop_last() =~= c@.subrange(a as int, b - 1));
        b = b - 1;
    }
    let t = crate::text::slice_chars(c.as_slice(), a, b);
    proof {
        if t@.len() > 0 {
            assert(t@[0] == c@[a as int]);
            assert(t@.last() == c@[b - 1]);
        }
    }
    string_of(t.as_slice())
}

/// One staged event as plain values: `seq`, `lam`, `op`, `d`, `tbl`, `id`.
pub type StagedView = (u64, u64, Op, Option<Seq<char>>, Seq<char>, Seq<char>);

/// A batch as plain values.
pub struct BatchView {
    pub app: Seq<char>,
    pub dev: Seq<char>,
    pub ts: Seq<char>,
    pub start_seq: u64,
    pub seq: u64,
    pub start_lam: u64,
    pub lam: u64,
    pub staged: Seq<StagedView>,
}

struct Staged {
    seq: u64,
    lam: u64,
    op: Op,
    tbl: String,
    id: String,
    d: Option<String>,
}

pub open spec fn staged_text(b: BatchView, i: int) -> Seq<char> {
    let (seq, lam, op, d, tbl, id) = b.staged[i];
    envelope_text(
        seq,
        lam,
        b.ts,
        b.dev,
        b.app,
        op,
        tbl,
        id,
        if i == 0 && b.staged.len() >= 2 { Some(b.staged.len() as u64) } else { None },
        match d {
            Some(t) => Some(json_trimmed(t)),
            None => None,
        },
    )
}

/// A batch under construction. Nothing here has reached the file yet.
pub struct Batch {
    app: String,
    dev: String,
    ts: String,
    start_seq: u64,
    seq: u64,
    start_lam: u64,
    lam: Lamport,
    staged: Vec<Staged>,
}

impl View for Batch {
    type V = BatchView;

    closed spec fn view(&self) -> BatchView {
        BatchView {
            app: self.app@,
            dev: self.dev@,
            ts: self.ts@,
            start_seq: self.start_seq,
            seq: self.seq,
            start_lam: self.start_lam,
            lam: self.lam@,
            staged: self.staged@.map_values(
                |s: Staged|
                    (
                        s.seq,
                        s.lam,
                        s.op,
                        match s.d {
                            Some(t) => Some(t@),
                            None => None,
                        },
                        s.tbl@,
                        s.id@,
                    ),
            ),
        }
    }
}

impl Batch {
    fn stage(&mut self, op: Op, tbl: &str, id: &str, d: Option<String>)
        requires
            old(self)@.seq < u64::MAX,
        ensures
            final(self)@ == (BatchView {
                seq: (old(self)@.seq + 1) as u64,
                lam: ticked(old(self)@.lam),
                staged: old(self)@.staged.push(
                    (
                        (old(self)@.seq + 1) as u64,
                        ticked(old(self)@.lam),
                        op,
                        match d {
                            Some(t) => Some(t@),
                            None => None,
                        },
                        tbl@,
                        id@,
                    ),
                ),
                ..old(self)@
            }),
    {
        let ghost old_view = self@;
        let ghost dv = match &d {
            Some(t) => Some(t@),
            None => None::<Seq<char>>,
        };
        self.seq = self.seq + 1;
        let l = self.lam.tick();
        let ghost before = self.staged@;
        self.staged.push(Staged { seq: self.seq, lam: l, op, tbl: tbl.to_string(), id: id.to_string(), d });
        proof {
            assert(self.staged@ == before.push(self.staged@.last()));
            assert(self@.staged =~= old_view.staged.push((self.seq, l, op, dv, tbl@, id@)));
        }
    }

    /// Stage one `put` of the row `d`, given as its JSON text.
    pub fn put(&mut self, tbl: &str, id: &str, d: &str)
        requires
            old(self)@.seq < u64::MAX,
        ensures
            final(self)@ == (BatchView {
                seq: (old(self)@.seq + 1) as u64,
                lam: ticked(old(self)@.lam),
                staged: old(self)@.staged.push(
                    ((old(self)@.seq + 1) as u64, ticked(old(self)@.lam), Op::Put, Some(d@), tbl@, id@),
                ),
                ..old(self)@
            }),
    {
        self.stage(Op::Put, tbl, id, Some(d.to_string()));
    }

    /// Stage one tombstone.
    pub fn del(&mut self, tbl: &str, id: &str)
        requires
            old(self)@.seq < u64::MAX,
        ensures
            final(self)@ == (BatchView {
                seq: (old(self)@.seq + 1) as u64,
                lam: ticked(old(self)@.lam),
                staged: old(self)@.staged.push(
                    ((old(self)@.seq + 1) as u64, ticked(old(self)@.lam), Op::Del, None, tbl@, id@),
                ),
                ..old(self)@
            }),
    {
        self.stage(Op::Del, tbl, id, None);
    }

    /// The instant every event in this batch carries.
    pub fn ts(&self) -> (r: &str)
        ensures
            r@ == self@.ts,
    {
        self.ts.as_str()
    }

    /// Every staged line without its newline, in order — the first carrying the count
    /// when there are two or more — or the refusal of the first row that is not JSON.
    fn lines(&self) -> (r: Result<Vec<Vec<u8>>, LogError>)
        ensures
            match r {
                Ok(lines) => {
                    &&& lines@.len() == self@.staged.len()
                    &&& forall|i: int| 0 <= i < lines@.len() ==> #[trigger] lines@[i]@
                        == vstd::utf8::encode_utf8(staged_text(self@, i))
                    &&& forall|i: int| 0 <= i < self@.staged.len() ==> ((#[trigger] self@.staged[i]).3 matches Some(t) ==> json_valid(t))
                },
                Err(e) => {
                    &&& e is Json
                    &&& exists|i: int| 0 <= i < self@.staged.len() && ((#[trigger] self@.staged[i]).3 matches Some(t) && !json_valid(t))
                },
            },
    {
        let ghost v = self@;
        let count = self.staged.len() as u64;
        let mut lines: Vec<Vec<u8>> = Vec::new();
        let mut i: usize = 0;
        while i < self.staged.len()
            invariant
                i <= self.staged@.len(),
                v == self@,
                count == self.staged@.len(),
                lines@.len() == i,
                forall|j: int| 0 <= j < i ==> #[trigger] lines@[j]@ == vstd::utf8::encode_utf8(staged_text(v, j)),
                forall|j: int| 0 <= j < i ==> ((#[trigger] v.staged[j]).3 matches Some(t) ==> json_valid(t)),
            decreases self.staged.len() - i,
        {
            let s = &self.staged[i];
            assert(v.staged[i as int] == (s.seq, s.lam, s.op, match s.d {
                Some(t) => Some(t@),
                None => None,
            }, s.tbl@, s.id@));
            let d: Option<String> = match &s.d {
                Some(t) => {
                    if !check_json(t.as_str()) {
                        let mut msg: Vec<char> = Vec::new();
                        push_str(&mut msg, "the row of ");
                        push_str(&mut msg, s.tbl.as_str());
                        push_str(&mut msg, " is not JSON");
                        return Err(LogError::Json(string_of(msg.as_slice())));
                    }
                    Some(json_trim(t.as_str()))
                },
                None => None,
            };
            let marker = if i == 0 && count >= 2 { Some(count) } else { None };
            let dref: Option<&str> = match &d {
                Some(t) => Some(t.as_str()),
                None => None,
            };
            let line = envelope_line(s.seq, s.lam, self.ts.as_str(), self.dev.as_str(), self.app.as_str(), s.op, s.tbl.as_str(), s.id.as_str(), marker, dref);
            assert(line@ == staged_text(v, i as int));
            lines.push(utf8_bytes(line.as_str()));
            i = i + 1;
        }
        Ok(lines)
    }
}

} // verus!
