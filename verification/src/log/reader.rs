//! Reading an app's log: which files are segments, and the order they are read in —
//! by device, then by rotation index numerically, never by filename.

use vstd::prelude::*;
use crate::text::{
    chars_of, ends_with, ends_with_exec, last_index, lemma_last_index, lemma_lex_lt_asymmetric,
    lemma_lex_lt_irreflexive, lemma_lex_lt_total, lemma_lex_lt_transitive, lex_lt, lex_lt_exec,
    parse_u32, parse_u32_exec, rfind_char, same_chars, slice_chars, string_of, substring,
};
use crate::log::envelope::Meta;
use crate::log::foreign::{
    field, field_exec, json_parsed, json_v, json_value, scalar_v, JsonScalar, JsonView, ScalarView,
};

verus! {

/// `.jsonl`, the extension every segment carries.
pub open spec fn jsonl() -> Seq<char> {
    seq!['.', 'j', 's', 'o', 'n', 'l']
}

/// What a file name says as a segment: `<dev>.jsonl` is `(dev, 1)`, `<dev>.<n>.jsonl` is
/// `(dev, n)` for `n >= 2` read as `u32::from_str` reads it, and anything else is not a
/// segment.
pub open spec fn segment_name(name: Seq<char>) -> Option<(Seq<char>, u32)> {
    if !ends_with(name, jsonl()) {
        None
    } else {
        let stem = name.subrange(0, name.len() - 6);
        if stem.len() == 0 {
            None
        } else {
            match last_index(stem, '.') {
                None => Some((stem, 1u32)),
                Some(p) => {
                    let dev = stem.subrange(0, p);
                    match parse_u32(stem.subrange(p + 1, stem.len() as int)) {
                        Some(n) => if n < 2 || dev.len() == 0 {
                            None
                        } else {
                            Some((dev, n))
                        },
                        None => None,
                    }
                },
            }
        }
    }
}

/// `<dev>.jsonl` maps to `(dev, 1)`; `<dev>.<n>.jsonl` to `(dev, n)` for `n >= 2`.
/// Anything else in `log/` is not a segment.
pub fn parse_segment_name(name: &str) -> (r: Option<(String, u32)>)
    ensures
        match r {
            Some((dev, n)) => segment_name(name@) == Some((dev@, n)),
            None => segment_name(name@) is None,
        },
{
    let s = chars_of(name);
    let suffix = chars_of(".jsonl");
    proof {
        reveal_strlit(".jsonl");
        assert(suffix@ =~= jsonl());
    }
    if !ends_with_exec(s.as_slice(), suffix.as_slice()) {
        return None;
    }
    let stem_len = s.len() - 6;
    if stem_len == 0 {
        return None;
    }
    let stem = slice_chars(s.as_slice(), 0, stem_len);
    proof {
        lemma_last_index(stem@, '.');
        assert(stem@ == s@.subrange(0, s@.len() - 6));
    }
    match rfind_char(stem.as_slice(), '.') {
        None => Some((string_of(stem.as_slice()), 1)),
        Some(p) => {
            let number = parse_u32_exec(stem.as_slice(), p + 1, stem.len());
            match number {
                Some(n) => {
                    if n < 2 || p == 0 {
                        None
                    } else {
                        Some((substring(stem.as_slice(), 0, p), n))
                    }
                },
                None => None,
            }
        },
    }
}

/// One file of one device's log stream.
#[derive(Debug, Clone, PartialEq, Eq)]
pub struct Segment {
    path: String,
    dev: String,
    index: u32,
}

/// A segment as data: its path, its device, its rotation index.
pub struct SegmentView {
    pub path: Seq<char>,
    pub dev: Seq<char>,
    pub index: u32,
}

impl View for Segment {
    type V = SegmentView;

    closed spec fn view(&self) -> SegmentView {
        SegmentView { path: self.path@, dev: self.dev@, index: self.index }
    }
}

impl Segment {
    /// A copy of this segment.
    pub fn duplicate(&self) -> (r: Segment)
        ensures
            r@ == self@,
    {
        Segment { path: self.path.clone(), dev: self.dev.clone(), index: self.index }
    }

    /// The device whose log this segment belongs to.
    pub fn dev(&self) -> (r: &str)
        ensures
            r@ == self@.dev,
    {
        self.dev.as_str()
    }

    /// The rotation index: 1 for the live tail, 2 and up for sealed segments.
    pub fn index(&self) -> (r: u32)
        ensures
            r == self@.index,
    {
        self.index
    }

    /// The file on disk.
    pub fn path(&self) -> (r: &str)
        ensures
            r@ == self@.path,
    {
        self.path.as_str()
    }
}

/// `a` is read no later than `b`: by device, then by rotation index.
pub open spec fn segment_le(a: SegmentView, b: SegmentView) -> bool {
    lex_lt(a.dev, b.dev) || (a.dev == b.dev && a.index <= b.index)
}

/// Segments in reading order.
pub open spec fn in_order(s: Seq<SegmentView>) -> bool {
    forall|i: int, j: int| 0 <= i < j < s.len() ==> segment_le(#[trigger] s[i], #[trigger] s[j])
}

/// The segments a listing of `(path, file name)` pairs holds, in listing order.
pub open spec fn segments_in(files: Seq<(Seq<char>, Seq<char>)>) -> Seq<SegmentView>
    decreases files.len(),
{
    if files.len() == 0 {
        Seq::empty()
    } else {
        let rest = segments_in(files.drop_last());
        match segment_name(files.last().1) {
            Some((dev, index)) => rest.push(SegmentView { path: files.last().0, dev, index }),
            None => rest,
        }
    }
}

proof fn lemma_segment_le_total(a: SegmentView, b: SegmentView)
    ensures
        segment_le(a, b) || segment_le(b, a),
{
    lemma_lex_lt_total(a.dev, b.dev);
}

proof fn lemma_segment_le_transitive(a: SegmentView, b: SegmentView, c: SegmentView)
    requires
        segment_le(a, b),
        segment_le(b, c),
    ensures
        segment_le(a, c),
{
    if lex_lt(a.dev, b.dev) && lex_lt(b.dev, c.dev) {
        lemma_lex_lt_transitive(a.dev, b.dev, c.dev);
    }
}

/// `a` strictly after `b` in reading order.
fn after(a: &Segment, b: &Segment) -> (r: bool)
    ensures
        r == !segment_le(a@, b@),
{
    let ad = chars_of(a.dev.as_str());
    let bd = chars_of(b.dev.as_str());
    if lex_lt_exec(bd.as_slice(), ad.as_slice()) {
        proof {
            lemma_lex_lt_asymmetric(b@.dev, a@.dev);
            lemma_lex_lt_irreflexive(a@.dev);
        }
        true
    } else if same_chars(ad.as_slice(), bd.as_slice()) {
        a.index > b.index
    } else {
        proof {
            lemma_lex_lt_total(a@.dev, b@.dev);
        }
        false
    }
}

/// Every segment of one app's log, across every device, in reading order.
#[derive(Debug, Clone, Default)]
pub struct Reader {
    segments: Vec<Segment>,
}

impl View for Reader {
    type V = Seq<SegmentView>;

    closed spec fn view(&self) -> Seq<SegmentView> {
        self.segments@.map_values(|s: Segment| s@)
    }
}

impl Reader {
    /// The segments among a directory listing of `(path, file name)` pairs, ordered by
    /// device and then numerically by rotation index. Files that are not segments are
    /// ignored.
    pub fn from_files(files: &[(String, String)]) -> (r: Reader)
        ensures
            in_order(r@),
            r@.to_multiset() == segments_in(
                files@.map_values(|f: (String, String)| (f.0@, f.1@)),
            ).to_multiset(),
    {
        broadcast use vstd::seq_lib::to_multiset_build, vstd::seq_lib::to_multiset_insert;

        let ghost fs = files@.map_values(|f: (String, String)| (f.0@, f.1@));
        let mut segments: Vec<Segment> = Vec::new();
        let mut k: usize = 0;
        proof {
            assert(fs.subrange(0, 0) =~= Seq::<(Seq<char>, Seq<char>)>::empty());
            assert(segments@.map_values(|s: Segment| s@) =~= Seq::<SegmentView>::empty());
        }
        while k < files.len()
            invariant
                k <= files@.len(),
                fs == files@.map_values(|f: (String, String)| (f.0@, f.1@)),
                in_order(segments@.map_values(|s: Segment| s@)),
                segments@.map_values(|s: Segment| s@).to_multiset() == segments_in(
                    fs.subrange(0, k as int),
                ).to_multiset(),
            decreases files.len() - k,
        {
            let ghost before = segments@.map_values(|s: Segment| s@);
            proof {
                assert(fs.subrange(0, k + 1).drop_last() =~= fs.subrange(0, k as int));
                assert(fs.subrange(0, k + 1).last() == fs[k as int]);
            }
            match parse_segment_name(files[k].1.as_str()) {
                Some((dev, index)) => {
                    let seg = Segment { path: files[k].0.clone(), dev, index };
                    let mut at = segments.len();
                    while at > 0 && after(&segments[at - 1], &seg)
                        invariant
                            at <= segments@.len(),
                            before == segments@.map_values(|s: Segment| s@),
                            forall|j: int| at <= j < before.len() ==> !segment_le(
                                #[trigger] before[j],
                                seg@,
                            ),
                        decreases at,
                    {
                        at = at - 1;
                    }
                    proof {
                        assert forall|j: int| 0 <= j < at implies segment_le(
                            #[trigger] before[j],
                            seg@,
                        ) by {
                            if at > 0 {
                                lemma_segment_le_total(before[at - 1], seg@);
                                if j < at - 1 {
                                    lemma_segment_le_transitive(before[j], before[at - 1], seg@);
                                }
                            }
                        }
                        assert forall|j: int| at <= j < before.len() implies segment_le(
                            seg@,
                            #[trigger] before[j],
                        ) by {
                            lemma_segment_le_total(before[j], seg@);
                        }
                    }
                    let ghost sv = seg@;
                    proof {
                        assert(sv == SegmentView { path: fs[k as int].0, dev: dev@, index });
                        assert(segment_name(fs[k as int].1) == Some((dev@, index)));
                        assert(segments_in(fs.subrange(0, k + 1)) == segments_in(
                            fs.subrange(0, k as int),
                        ).push(sv));
                    }
                    segments.insert(at, seg);
                    proof {
                        let now = segments@.map_values(|s: Segment| s@);
                        assert(now =~= before.insert(at as int, sv));
                        vstd::seq_lib::to_multiset_insert(before, at as int, sv);
                        vstd::seq_lib::to_multiset_build(segments_in(fs.subrange(0, k as int)), sv);
                        assert(now.to_multiset() == before.to_multiset().insert(sv));
                        assert forall|i: int, j: int| 0 <= i < j < now.len() implies segment_le(
                            #[trigger] now[i],
                            #[trigger] now[j],
                        ) by {
                            if i < at && j > at {
                                lemma_segment_le_transitive(now[i], seg@, now[j]);
                            }
                        }
                        assert(segment_name(fs[k as int].1) == Some((dev@, index)));
                    }
                },
                None => {
                    proof {
                        assert(segment_name(fs[k as int].1) is None);
                        assert(segments_in(fs.subrange(0, k + 1)) == segments_in(
                            fs.subrange(0, k as int),
                        ));
                    }
                },
            }
            k = k + 1;
        }
        proof {
            assert(fs.subrange(0, k as int) =~= fs);
        }
        Reader { segments }
    }

    /// The segments, ordered by `(dev, rotation index)`.
    pub fn segments(&self) -> (r: &[Segment])
        ensures
            r@.map_values(|s: Segment| s@) == self@,
    {
        self.segments.as_slice()
    }

    /// The segments belonging to one device, in rotation order.
    pub fn segments_for(&self, dev: &str) -> (r: Vec<Segment>)
        ensures
            r@.map_values(|s: Segment| s@) == self@.filter(|s: SegmentView| s.dev == dev@),
    {
        let want = chars_of(dev);
        let mut out: Vec<Segment> = Vec::new();
        let mut k: usize = 0;
        while k < self.segments.len()
            invariant
                k <= self.segments@.len(),
                want@ == dev@,
                out@.map_values(|s: Segment| s@) == self.segments@.map_values(|s: Segment| s@)
                    .subrange(0, k as int).filter(|s: SegmentView| s.dev == dev@),
            decreases self.segments.len() - k,
        {
            let ghost all = self.segments@.map_values(|s: Segment| s@);
            proof {
                assert(all.subrange(0, k + 1).drop_last() =~= all.subrange(0, k as int));
                reveal_with_fuel(Seq::filter, 1);
            }
            let d = chars_of(self.segments[k].dev.as_str());
            if same_chars(d.as_slice(), want.as_slice()) {
                out.push(self.segments[k].duplicate());
            }
            k = k + 1;
        }
        proof {
            assert(self.segments@.map_values(|s: Segment| s@).subrange(0, k as int) =~= self@);
        }
        out
    }
}


/// A `u8` that `u8::is_ascii_whitespace` accepts: space, tab, line feed, form feed,
/// carriage return.
pub open spec fn ascii_ws_byte(b: u8) -> bool {
    b == 32 || b == 9 || b == 10 || b == 12 || b == 13
}

/// One line of one segment, as bytes: raw, and it stays raw, so unknown fields survive
/// verbatim.
#[derive(Debug, Clone, PartialEq, Eq)]
pub struct Line {
    raw: Vec<u8>,
    offset: u64,
}

impl View for Line {
    type V = (Seq<u8>, u64);

    closed spec fn view(&self) -> (Seq<u8>, u64) {
        (self.raw@, self.offset)
    }
}

impl Line {
    /// The line's bytes, without its terminating newline.
    pub fn raw(&self) -> (r: &[u8])
        ensures
            r@ == self@.0,
    {
        self.raw.as_slice()
    }

    /// The byte offset of the line's first byte within its segment.
    pub fn offset(&self) -> (r: u64)
        ensures
            r == self@.1,
    {
        self.offset
    }
}

/// The first line feed at or after `from`.
pub open spec fn next_newline(b: Seq<u8>, from: int) -> Option<int>
    decreases b.len() - from,
{
    if from >= b.len() || from < 0 {
        None
    } else if b[from] == 10 {
        Some(from)
    } else {
        next_newline(b, from + 1)
    }
}

/// Every byte is ASCII whitespace.
pub open spec fn blank(raw: Seq<u8>) -> bool {
    forall|i: int| 0 <= i < raw.len() ==> #[trigger] ascii_ws_byte(raw[i])
}

/// The lines of a segment's bytes from `pos` on, each without its line feed and with the
/// offset it starts at, blank lines skipped; and the offset of a final line with no line
/// feed, which is reported rather than read.
pub open spec fn lines_from(b: Seq<u8>, pos: int) -> (Seq<(Seq<u8>, u64)>, Option<u64>)
    decreases b.len() - pos,
{
    if pos >= b.len() || pos < 0 {
        (Seq::empty(), None)
    } else {
        match next_newline(b, pos) {
            None => (Seq::empty(), Some(pos as u64)),
            Some(e) => if e < pos || e >= b.len() {
                (Seq::empty(), None)
            } else {
                let raw = b.subrange(pos, e);
                let (rest, partial) = lines_from(b, e + 1);
                if blank(raw) {
                    (rest, partial)
                } else {
                    (seq![(raw, pos as u64)] + rest, partial)
                }
            },
        }
    }
}

/// Lines written one after another from byte `start`, each followed by a line feed: each
/// line with the offset it starts at.
pub open spec fn placed(ls: Seq<Seq<u8>>, start: int) -> Seq<(Seq<u8>, u64)>
    decreases ls.len(),
{
    if ls.len() == 0 {
        Seq::empty()
    } else {
        seq![(ls[0], start as u64)] + placed(ls.drop_first(), start + ls[0].len() + 1)
    }
}

proof fn lemma_joined_front(ls: Seq<Seq<u8>>)
    requires
        ls.len() > 0,
    ensures
        crate::log::writer::joined_lines(ls) == ls[0] + seq![10u8] + crate::log::writer::joined_lines(ls.drop_first()),
    decreases ls.len(),
{
    if ls.len() == 1 {
        assert(crate::log::writer::joined_lines(ls.drop_last()) == Seq::<u8>::empty());
        assert(crate::log::writer::joined_lines(ls.drop_first()) == Seq::<u8>::empty());
        assert(crate::log::writer::joined_lines(ls) == crate::log::writer::joined_lines(ls.drop_last()) + ls.last() + seq![10u8]);
        assert(Seq::<u8>::empty() + ls.last() + seq![10u8] =~= ls[0] + seq![10u8] + Seq::<u8>::empty());
    } else {
        lemma_joined_front(ls.drop_last());
        assert(ls.drop_last().drop_first() =~= ls.drop_first().drop_last());
        assert(ls.drop_first().last() == ls.last());
        assert(ls.drop_last()[0] == ls[0]);
        let j = crate::log::writer::joined_lines(ls.drop_first().drop_last());
        assert(crate::log::writer::joined_lines(ls) == crate::log::writer::joined_lines(ls.drop_last()) + ls.last() + seq![10u8]);
        assert(crate::log::writer::joined_lines(ls.drop_first()) == j + ls.last() + seq![10u8]);
        assert(ls[0] + seq![10u8] + j + ls.last() + seq![10u8] =~= ls[0] + seq![10u8] + (j + ls.last() + seq![10u8]));
    }
}

proof fn lemma_next_newline_at(b: Seq<u8>, from: int, e: int)
    requires
        0 <= from <= e < b.len(),
        b[e] == 10,
        forall|j: int| from <= j < e ==> b[j] != 10,
    ensures
        next_newline(b, from) == Some(e),
    decreases e - from,
{
    if from < e {
        lemma_next_newline_at(b, from + 1, e);
    }
}

proof fn lemma_lines_read_back(pre: Seq<u8>, ls: Seq<Seq<u8>>)
    requires
        forall|i: int| 0 <= i < ls.len() ==> !(#[trigger] ls[i]).contains(10u8) && !blank(ls[i]),
        pre.len() + crate::log::writer::joined_lines(ls).len() <= u64::MAX,
    ensures
        lines_from(pre + crate::log::writer::joined_lines(ls), pre.len() as int) == (placed(ls, pre.len() as int), None::<u64>),
    decreases ls.len(),
{
    let b = pre + crate::log::writer::joined_lines(ls);
    if ls.len() == 0 {
        assert(b =~= pre);
    } else {
        lemma_joined_front(ls);
        let first = ls[0];
        let rest = ls.drop_first();
        let pos = pre.len() as int;
        let e = pos + first.len();
        let pre2 = pre + first + seq![10u8];
        assert(b =~= pre2 + crate::log::writer::joined_lines(rest));
        assert(b[e] == 10);
        assert forall|j: int| pos <= j < e implies b[j] != 10 by {
            assert(b[j] == first[j - pos]);
            if first[j - pos] == 10 {
                assert(first.contains(10u8));
            }
        }
        lemma_next_newline_at(b, pos, e);
        assert(b.subrange(pos, e) =~= first);
        assert forall|i: int| 0 <= i < rest.len() implies !(#[trigger] rest[i]).contains(10u8) && !blank(rest[i]) by {
            assert(rest[i] == ls[i + 1]);
        }
        lemma_lines_read_back(pre2, rest);
        assert(pre2.len() == e + 1);
    }
}

/// What a reader gives back of a write: lines written one after another, each followed by
/// a line feed, read back as those lines at the offsets they were written at, with no
/// torn tail, so long as no line holds a line feed or is blank.
pub proof fn lemma_written_lines_read_back(ls: Seq<Seq<u8>>)
    requires
        forall|i: int| 0 <= i < ls.len() ==> !(#[trigger] ls[i]).contains(10u8) && !blank(ls[i]),
        crate::log::writer::joined_lines(ls).len() <= u64::MAX,
    ensures
        lines_from(crate::log::writer::joined_lines(ls), 0) == (placed(ls, 0), None::<u64>),
{
    lemma_lines_read_back(Seq::empty(), ls);
    assert(Seq::<u8>::empty() + crate::log::writer::joined_lines(ls) =~= crate::log::writer::joined_lines(ls));
}

/// The lines of one segment's bytes, in order, each without its line feed and with its
/// byte offset; blank lines (ASCII whitespace only, a `\r` before the line feed included)
/// are skipped. A trailing line with no line feed is not read: its offset comes back
/// instead, and nothing is truncated or repaired.
pub fn segment_lines(bytes: &[u8]) -> (r: (Vec<Line>, Option<u64>))
    requires
        bytes@.len() <= u64::MAX,
    ensures
        r.0@.map_values(|l: Line| l@) == lines_from(bytes@, 0).0,
        r.1 == lines_from(bytes@, 0).1,
{
    let mut out: Vec<Line> = Vec::new();
    let mut pos: usize = 0;
    let n = bytes.len();
    loop
        invariant
            n == bytes@.len(),
            n <= u64::MAX,
            pos <= n,
            out@.map_values(|l: Line| l@) + lines_from(bytes@, pos as int).0 == lines_from(bytes@, 0).0,
            lines_from(bytes@, pos as int).1 == lines_from(bytes@, 0).1,
        decreases n - pos,
    {
        let ghost before = out@.map_values(|l: Line| l@);
        if pos == n {
            assert(before + Seq::<(Seq<u8>, u64)>::empty() =~= before);
            return (out, None);
        }
        let mut e = pos;
        while e < n && bytes[e] != 10
            invariant
                pos <= e <= n,
                n == bytes@.len(),
                next_newline(bytes@, pos as int) == next_newline(bytes@, e as int),
            decreases n - e,
        {
            e = e + 1;
        }
        if e == n {
            assert(before + Seq::<(Seq<u8>, u64)>::empty() =~= before);
            return (out, Some(pos as u64));
        }
        let mut k = pos;
        while k < e && (bytes[k] == 32 || bytes[k] == 9 || bytes[k] == 10 || bytes[k] == 12
            || bytes[k] == 13)
            invariant
                pos <= k <= e < n,
                n == bytes@.len(),
                forall|j: int| pos <= j < k ==> #[trigger] ascii_ws_byte(bytes@[j]),
            decreases e - k,
        {
            k = k + 1;
        }
        let all_ws = k == e;
        let ghost raw = bytes@.subrange(pos as int, e as int);
        assert(all_ws == blank(raw)) by {
            if all_ws {
                assert forall|i: int| 0 <= i < raw.len() implies #[trigger] ascii_ws_byte(raw[i]) by {
                    assert(raw[i] == bytes@[pos + i]);
                }
            } else {
                assert(raw[k - pos] == bytes@[k as int]);
                assert(!ascii_ws_byte(raw[k - pos]));
            }
        }
        if !all_ws {
            let mut v: Vec<u8> = Vec::new();
            let mut k = pos;
            while k < e
                invariant
                    pos <= k <= e < n,
                    n == bytes@.len(),
                    v@ == bytes@.subrange(pos as int, k as int),
                decreases e - k,
            {
                v.push(bytes[k]);
                k = k + 1;
            }
            out.push(Line { raw: v, offset: pos as u64 });
            proof {
                let after = out@.map_values(|l: Line| l@);
                assert(after =~= before.push((raw, pos as u64)));
                let rest = lines_from(bytes@, e + 1).0;
                assert(before + (seq![(raw, pos as u64)] + rest) =~= after + rest);
            }
        }
        pos = e + 1;
    }
}

/// An event excluded from recovery because its timestamp is too far ahead, and why.
#[derive(Debug, Clone, PartialEq, Eq)]
pub struct Rejected {
    /// The segment the line is in. The line itself stays exactly where it is.
    pub segment: String,
    /// Its byte offset within that segment.
    pub offset: u64,
    /// The writer that claimed it.
    pub dev: String,
    /// Its `seq`.
    pub seq: u64,
    /// The `ts` that failed the check.
    pub ts: String,
    /// How far ahead of this node's clock it is.
    pub ahead_secs: i64,
}

/// A line that is not an envelope at all.
#[derive(Debug, Clone, PartialEq, Eq)]
pub struct Malformed {
    /// The segment the line is in.
    pub segment: String,
    /// Its byte offset within that segment.
    pub offset: u64,
    /// What the parser said.
    pub problem: String,
}

/// This node's clock appears to have moved backwards.
#[derive(Debug, Clone, PartialEq, Eq)]
pub struct Skew {
    /// The `ts` of the last event this node wrote.
    pub tail_ts: String,
    /// How far behind that this node's clock now is, in seconds.
    pub behind_secs: i64,
}


/// How far in the future an event's timestamp may be before recovery excludes it.
pub const MAX_FUTURE_SECS: i64 = 86400;

/// How far behind its own last event this node's clock may be before it warns.
pub const MAX_BACKWARDS_SECS: i64 = 60;

/// The instant an RFC 3339 timestamp names, in nanoseconds since the Unix epoch, as the
/// date-time crate reads it; `None` where it does not read it.
pub uninterp spec fn ts_nanos(ts: Seq<char>) -> Option<i128>;

/// `ts.parse::<jiff::Timestamp>()` followed by `as_nanosecond`: the instant `ts` names.
/// The crate's timestamps lie within ten thousand years of the epoch either way, which
/// keeps the value under 4×10²⁰ nanoseconds in magnitude.
#[verifier::external_body]
pub(crate) fn parse_ts(ts: &str) -> (r: Option<i128>)
    ensures
        r == ts_nanos(ts@),
        r matches Some(n) ==> -400_000_000_000_000_000_000 < n < 400_000_000_000_000_000_000,
{
    ts.parse::<jiff::Timestamp>().ok().map(|t| t.as_nanosecond())
}

/// Whole seconds from `now` to `t`, truncated toward zero.
pub open spec fn secs_between(t: int, now: int) -> int {
    if t >= now {
        (t - now) / 1_000_000_000
    } else {
        -((now - t) / 1_000_000_000)
    }
}

/// How many whole seconds the timestamp `ts` lies after `now`, when it reads as one.
pub open spec fn ahead_of(ts: Seq<char>, now: i128) -> Option<int> {
    match ts_nanos(ts) {
        Some(t) => Some(secs_between(t as int, now as int)),
        None => None,
    }
}

fn ahead_exec(ts: &str, now: i128) -> (r: Option<i64>)
    requires
        -400_000_000_000_000_000_000 < now < 400_000_000_000_000_000_000,
    ensures
        match r {
            Some(a) => ahead_of(ts@, now) == Some(a as int),
            None => ahead_of(ts@, now) is None,
        },
{
    match parse_ts(ts) {
        None => None,
        Some(t) => {
            if t >= now {
                let d = (t - now) / 1_000_000_000;
                Some(d as i64)
            } else {
                let d = (now - t) / 1_000_000_000;
                Some(-(d as i64))
            }
        },
    }
}

/// The envelope fields of a line, as plain values.
pub struct MetaView {
    pub seq: u64,
    pub lam: u64,
    pub ts: Seq<char>,
    pub dev: Seq<char>,
}

/// A line as recovery reads it: the segment it is in, its offset, and the envelope
/// fields it holds or what the envelope parser said of it.
#[derive(Debug, PartialEq, Eq)]
pub struct ScannedLine {
    /// The segment the line is in.
    pub segment: String,
    /// Its byte offset within that segment.
    pub offset: u64,
    /// The envelope's fields, or why the line is not an envelope.
    pub meta: Result<super::envelope::Meta, String>,
}

/// A scanned line as plain values.
pub struct ScannedView {
    pub segment: Seq<char>,
    pub offset: u64,
    pub meta: Result<MetaView, Seq<char>>,
}

impl ScannedLine {
    pub open spec fn view(&self) -> ScannedView {
        ScannedView {
            segment: self.segment@,
            offset: self.offset,
            meta: match self.meta {
                Ok(m) => Ok(MetaView { seq: m.seq, lam: m.lam, ts: m.ts@, dev: m.dev@ }),
                Err(p) => Err(p@),
            },
        }
    }
}

/// A rejection as plain values.
pub struct RejectedView {
    pub segment: Seq<char>,
    pub offset: u64,
    pub dev: Seq<char>,
    pub seq: u64,
    pub ts: Seq<char>,
    pub ahead_secs: int,
}

/// A malformed line as plain values.
pub struct MalformedView {
    pub segment: Seq<char>,
    pub offset: u64,
    pub problem: Seq<char>,
}

/// What a scan has gathered so far.
pub struct RecoveryView {
    pub own_seq: u64,
    pub lam: u64,
    pub heads: Seq<(Seq<char>, u64)>,
    pub rejected: Seq<RejectedView>,
    pub malformed: Seq<MalformedView>,
    pub own_tail: Option<Seq<char>>,
}

/// The value `heads` gives `dev`: the first entry for it.
pub open spec fn head_of(heads: Seq<(Seq<char>, u64)>, dev: Seq<char>) -> Option<u64>
    decreases heads.len(),
{
    if heads.len() == 0 {
        None
    } else if heads[0].0 == dev {
        Some(heads[0].1)
    } else {
        head_of(heads.drop_first(), dev)
    }
}

/// `heads` with `dev` raised to at least `seq`, added at the end when it is new.
pub open spec fn bump_head(heads: Seq<(Seq<char>, u64)>, dev: Seq<char>, seq: u64) -> Seq<(Seq<char>, u64)>
    decreases heads.len(),
{
    if heads.len() == 0 {
        seq![(dev, seq)]
    } else if heads[0].0 == dev {
        seq![(dev, if heads[0].1 >= seq { heads[0].1 } else { seq })] + heads.drop_first()
    } else {
        seq![heads[0]] + bump_head(heads.drop_first(), dev, seq)
    }
}

/// One line folded into a scan: a line that is no envelope is reported; an envelope
/// raises its writer's head (and this node's own `seq` when it is this node's), and is
/// then either excluded for a timestamp more than a day ahead — reported unless an
/// earlier scan already saw its position — or folded into the Lamport counter and, when
/// it is this node's, remembered as the tail this node dates itself against.
pub open spec fn recover_step(
    st: RecoveryView,
    line: ScannedView,
    own: Seq<char>,
    known: Seq<(Seq<char>, u64)>,
    now: i128,
) -> RecoveryView {
    match line.meta {
        Err(p) => RecoveryView {
            malformed: st.malformed.push(
                MalformedView { segment: line.segment, offset: line.offset, problem: p },
            ),
            ..st
        },
        Ok(m) => {
            let ours = m.dev == own;
            let heads = bump_head(st.heads, m.dev, m.seq);
            let own_seq = if ours && m.seq > st.own_seq { m.seq } else { st.own_seq };
            let ahead = match ahead_of(m.ts, now) {
                Some(a) => a,
                None => 0,
            };
            if ahead > MAX_FUTURE_SECS {
                let reported = match head_of(known, m.dev) {
                    Some(seen) => m.seq <= seen,
                    None => false,
                };
                RecoveryView {
                    own_seq,
                    heads,
                    rejected: if reported {
                        st.rejected
                    } else {
                        st.rejected.push(
                            RejectedView {
                                segment: line.segment,
                                offset: line.offset,
                                dev: m.dev,
                                seq: m.seq,
                                ts: m.ts,
                                ahead_secs: ahead,
                            },
                        )
                    },
                    ..st
                }
            } else {
                RecoveryView {
                    own_seq,
                    heads,
                    lam: crate::log::lamport::observed(st.lam, m.lam),
                    own_tail: if ours { Some(m.ts) } else { st.own_tail },
                    ..st
                }
            }
        },
    }
}

/// The scan of `lines`, in order, from a counter at `known_lam`.
pub open spec fn recover_fold(
    lines: Seq<ScannedView>,
    own: Seq<char>,
    known_lam: u64,
    known: Seq<(Seq<char>, u64)>,
    now: i128,
) -> RecoveryView
    decreases lines.len(),
{
    if lines.len() == 0 {
        RecoveryView {
            own_seq: 0,
            lam: known_lam,
            heads: Seq::empty(),
            rejected: Seq::empty(),
            malformed: Seq::empty(),
            own_tail: None,
        }
    } else {
        recover_step(recover_fold(lines.drop_last(), own, known_lam, known, now), lines.last(), own, known, now)
    }
}

/// An envelope the scan folds into the counter: its timestamp is not more than a day
/// ahead of `now`.
pub open spec fn accepted(line: ScannedView, now: i128) -> bool {
    match line.meta {
        Ok(m) => (match ahead_of(m.ts, now) {
            Some(a) => a,
            None => 0,
        }) <= MAX_FUTURE_SECS,
        Err(_) => false,
    }
}

/// The highest `seq` of the envelopes of `lines` written by `dev`, if any.
pub open spec fn max_seq(lines: Seq<ScannedView>, dev: Seq<char>) -> Option<u64>
    decreases lines.len(),
{
    if lines.len() == 0 {
        None
    } else {
        let prev = max_seq(lines.drop_last(), dev);
        match lines.last().meta {
            Ok(m) => if m.dev == dev {
                Some(
                    match prev {
                        Some(p) => if p >= m.seq { p } else { m.seq },
                        None => m.seq,
                    },
                )
            } else {
                prev
            },
            Err(_) => prev,
        }
    }
}

pub proof fn lemma_head_of_bump(h: Seq<(Seq<char>, u64)>, dev: Seq<char>, s: u64, d: Seq<char>)
    ensures
        head_of(bump_head(h, dev, s), d) == if d == dev {
            Some(
                match head_of(h, d) {
                    Some(p) => if p >= s { p } else { s },
                    None => s,
                },
            )
        } else {
            head_of(h, d)
        },
    decreases h.len(),
{
    if h.len() > 0 {
        if h[0].0 == dev {
            let b = seq![(dev, if h[0].1 >= s { h[0].1 } else { s })] + h.drop_first();
            assert(bump_head(h, dev, s) == b);
            assert(b[0] == (dev, if h[0].1 >= s { h[0].1 } else { s }));
            assert(b.drop_first() =~= h.drop_first());
            if d == dev {
                assert(head_of(b, d) == Some(b[0].1));
                assert(head_of(h, d) == Some(h[0].1));
            } else {
                assert(head_of(b, d) == head_of(b.drop_first(), d));
                assert(head_of(h, d) == head_of(h.drop_first(), d));
            }
        } else {
            lemma_head_of_bump(h.drop_first(), dev, s, d);
            let b = seq![h[0]] + bump_head(h.drop_first(), dev, s);
            assert(bump_head(h, dev, s) == b);
            assert(b[0] == h[0]);
            assert(b.drop_first() =~= bump_head(h.drop_first(), dev, s));
            if d == h[0].0 {
                assert(head_of(b, d) == Some(h[0].1));
            } else {
                assert(head_of(b, d) == head_of(b.drop_first(), d));
                assert(head_of(h, d) == head_of(h.drop_first(), d));
            }
        }
    } else {
        let b = seq![(dev, s)];
        assert(bump_head(h, dev, s) == b);
        assert(b.drop_first() =~= Seq::<(Seq<char>, u64)>::empty());
        assert(head_of(b.drop_first(), d) is None);
        assert(head_of(h, d) is None);
    }
}

/// Recovery's counter covers everything it folded in: it ends at or above the value it
/// resumed from and at or above the `lam` of every event it accepted, so the next event
/// this node writes is stamped after all of them.
pub proof fn lemma_recovered_counter_covers_accepted(
    lines: Seq<ScannedView>,
    own: Seq<char>,
    known_lam: u64,
    known: Seq<(Seq<char>, u64)>,
    now: i128,
)
    ensures
        recover_fold(lines, own, known_lam, known, now).lam >= known_lam,
        forall|i: int|
            0 <= i < lines.len() && accepted(#[trigger] lines[i], now) ==> recover_fold(lines, own, known_lam, known, now).lam
                >= lines[i].meta->Ok_0.lam,
    decreases lines.len(),
{
    if lines.len() > 0 {
        let init = lines.drop_last();
        lemma_recovered_counter_covers_accepted(init, own, known_lam, known, now);
        let f = recover_fold(lines, own, known_lam, known, now);
        let g = recover_fold(init, own, known_lam, known, now);
        assert(f.lam >= g.lam);
        assert forall|i: int| 0 <= i < lines.len() && accepted(#[trigger] lines[i], now) implies f.lam
            >= lines[i].meta->Ok_0.lam by {
            if i < lines.len() - 1 {
                assert(lines[i] == init[i]);
            }
        }
    }
}

/// Recovery knows every writer's head: for each device, the head it recovers is the
/// highest `seq` among that device's envelopes, accepted or not, and a device with no
/// envelope has none.
pub proof fn lemma_recovered_heads_are_highest(
    lines: Seq<ScannedView>,
    own: Seq<char>,
    known_lam: u64,
    known: Seq<(Seq<char>, u64)>,
    now: i128,
    dev: Seq<char>,
)
    ensures
        head_of(recover_fold(lines, own, known_lam, known, now).heads, dev) == max_seq(lines, dev),
    decreases lines.len(),
{
    if lines.len() > 0 {
        let init = lines.drop_last();
        lemma_recovered_heads_are_highest(init, own, known_lam, known, now, dev);
        let g = recover_fold(init, own, known_lam, known, now);
        match lines.last().meta {
            Ok(m) => {
                lemma_head_of_bump(g.heads, m.dev, m.seq, dev);
            },
            Err(_) => {},
        }
    }
}

/// This node resumes after its own last event: the `seq` recovery gives it is the
/// highest among the envelopes this node wrote, or zero when there are none.
pub proof fn lemma_recovered_own_seq_is_highest(
    lines: Seq<ScannedView>,
    own: Seq<char>,
    known_lam: u64,
    known: Seq<(Seq<char>, u64)>,
    now: i128,
)
    ensures
        recover_fold(lines, own, known_lam, known, now).own_seq == match max_seq(lines, own) {
            Some(s) => s,
            None => 0,
        },
    decreases lines.len(),
{
    if lines.len() > 0 {
        lemma_recovered_own_seq_is_highest(lines.drop_last(), own, known_lam, known, now);
    }
}

/// What recovery excludes it names once: every event it reports is stamped more than a
/// day ahead, and none lies at or below a head an earlier scan already passed.
pub proof fn lemma_rejected_are_ahead_and_new(
    lines: Seq<ScannedView>,
    own: Seq<char>,
    known_lam: u64,
    known: Seq<(Seq<char>, u64)>,
    now: i128,
)
    ensures
        forall|k: int|
            0 <= k < recover_fold(lines, own, known_lam, known, now).rejected.len() ==> {
                let r = #[trigger] recover_fold(lines, own, known_lam, known, now).rejected[k];
                &&& r.ahead_secs > MAX_FUTURE_SECS
                &&& !(head_of(known, r.dev) matches Some(seen) && r.seq <= seen)
            },
    decreases lines.len(),
{
    if lines.len() > 0 {
        let init = lines.drop_last();
        lemma_rejected_are_ahead_and_new(init, own, known_lam, known, now);
        let g = recover_fold(init, own, known_lam, known, now);
        let f = recover_fold(lines, own, known_lam, known, now);
        assert forall|k: int| 0 <= k < f.rejected.len() implies {
            let r = #[trigger] f.rejected[k];
            &&& r.ahead_secs > MAX_FUTURE_SECS
            &&& !(head_of(known, r.dev) matches Some(seen) && r.seq <= seen)
        } by {
            if k < g.rejected.len() {
                assert(f.rejected[k] == g.rejected[k]);
            }
        }
    }
}

/// A line the scan folds in that this node wrote.
pub open spec fn own_accepted(line: ScannedView, own: Seq<char>, now: i128) -> bool {
    accepted(line, now) && (line.meta matches Ok(m) && m.dev == own)
}

/// The tail the skew warning dates this node by is its own last accepted event: the `ts`
/// of the last line that `own` wrote and the scan accepted, and none when it accepted no
/// line of `own`. No other device's event, and no rejected or malformed line, sets it.
pub proof fn lemma_skew_tail_is_own_last_event(
    lines: Seq<ScannedView>,
    own: Seq<char>,
    known_lam: u64,
    known: Seq<(Seq<char>, u64)>,
    now: i128,
)
    ensures
        match recover_fold(lines, own, known_lam, known, now).own_tail {
            None => forall|i: int| 0 <= i < lines.len() ==> !own_accepted(#[trigger] lines[i], own, now),
            Some(t) => exists|i: int|
                0 <= i < lines.len() && own_accepted(#[trigger] lines[i], own, now) && lines[i].meta->Ok_0.ts == t
                    && forall|j: int| i < j < lines.len() ==> !own_accepted(#[trigger] lines[j], own, now),
        },
    decreases lines.len(),
{
    if lines.len() > 0 {
        let init = lines.drop_last();
        let n = lines.len() - 1;
        lemma_skew_tail_is_own_last_event(init, own, known_lam, known, now);
        let g = recover_fold(init, own, known_lam, known, now);
        let f = recover_fold(lines, own, known_lam, known, now);
        assert forall|i: int| 0 <= i < n implies lines[i] == init[i] by {}
        if own_accepted(lines[n], own, now) {
            assert(f.own_tail == Some(lines[n].meta->Ok_0.ts));
            assert(own_accepted(lines[n], own, now) && lines[n].meta->Ok_0.ts == f.own_tail->Some_0);
        } else {
            assert(f.own_tail == g.own_tail);
            match g.own_tail {
                None => {
                    assert forall|i: int| 0 <= i < lines.len() implies !own_accepted(#[trigger] lines[i], own, now) by {
                        if i < n {
                            assert(lines[i] == init[i]);
                        }
                    }
                },
                Some(t) => {
                    let i = choose|i: int|
                        0 <= i < init.len() && own_accepted(#[trigger] init[i], own, now) && init[i].meta->Ok_0.ts == t
                            && forall|j: int| i < j < init.len() ==> !own_accepted(#[trigger] init[j], own, now);
                    assert(lines[i] == init[i]);
                    assert forall|j: int| i < j < lines.len() implies !own_accepted(#[trigger] lines[j], own, now) by {
                        if j < n {
                            assert(lines[j] == init[j]);
                        }
                    }
                },
            }
        }
    }
}

/// Another device's event never moves the skew warning: appending a line of a device
/// other than `own`, accepted or not, leaves the tail, and so the warning, as it was.
pub proof fn lemma_foreign_event_leaves_skew(
    lines: Seq<ScannedView>,
    line: ScannedView,
    own: Seq<char>,
    known_lam: u64,
    known: Seq<(Seq<char>, u64)>,
    now: i128,
)
    requires
        line.meta matches Ok(m) && m.dev != own,
    ensures
        recover_fold(lines.push(line), own, known_lam, known, now).own_tail == recover_fold(lines, own, known_lam, known, now).own_tail,
        skew_of(recover_fold(lines.push(line), own, known_lam, known, now).own_tail, now) == skew_of(
            recover_fold(lines, own, known_lam, known, now).own_tail,
            now,
        ),
{
    assert(lines.push(line).drop_last() =~= lines);
}

/// The skew warning a scan ends with: this node's last accepted event, when its
/// timestamp reads and lies more than a minute after `now`.
pub open spec fn skew_of(own_tail: Option<Seq<char>>, now: i128) -> Option<(Seq<char>, int)> {
    match own_tail {
        None => None,
        Some(t) => match ahead_of(t, now) {
            Some(b) => if b > MAX_BACKWARDS_SECS { Some((t, b)) } else { None },
            None => None,
        },
    }
}

/// What one scan of an app's log recovered.
#[derive(Debug, Clone)]
pub struct Recovered {
    /// The highest `seq` in this node's own segments.
    pub own_seq: u64,
    /// The Lamport counter, folded over every event accepted.
    pub lam: crate::log::lamport::Lamport,
    /// The highest `seq` seen per device, accepted or not, in the order devices were met.
    pub heads: Vec<(String, u64)>,
    /// Events rejected for a timestamp too far ahead.
    pub rejected: Vec<Rejected>,
    /// Lines that are not envelopes.
    pub malformed: Vec<Malformed>,
    /// Set when this node's own clock looks to have gone backwards.
    pub skew: Option<Skew>,
}


pub open spec fn rejected_view(r: Rejected) -> RejectedView {
    RejectedView {
        segment: r.segment@,
        offset: r.offset,
        dev: r.dev@,
        seq: r.seq,
        ts: r.ts@,
        ahead_secs: r.ahead_secs as int,
    }
}

pub open spec fn malformed_view(m: Malformed) -> MalformedView {
    MalformedView { segment: m.segment@, offset: m.offset, problem: m.problem@ }
}

pub open spec fn heads_view(h: Seq<(String, u64)>) -> Seq<(Seq<char>, u64)> {
    h.map_values(|e: (String, u64)| (e.0@, e.1))
}

pub open spec fn lines_view(lines: Seq<ScannedLine>) -> Seq<ScannedView> {
    lines.map_values(|l: ScannedLine| l.view())
}

proof fn lemma_head_of_first(h: Seq<(Seq<char>, u64)>, d: Seq<char>, i: int)
    requires
        0 <= i < h.len(),
        h[i].0 == d,
        forall|j: int| 0 <= j < i ==> h[j].0 != d,
    ensures
        head_of(h, d) == Some(h[i].1),
        bump_head(h, d, 0) == bump_head(h, d, 0),
    decreases i,
{
    if i > 0 {
        lemma_head_of_first(h.drop_first(), d, i - 1);
    }
}

proof fn lemma_head_of_absent(h: Seq<(Seq<char>, u64)>, d: Seq<char>)
    requires
        forall|j: int| 0 <= j < h.len() ==> h[j].0 != d,
    ensures
        head_of(h, d) is None,
        bump_head(h, d, 0) == h.push((d, 0u64)),
    decreases h.len(),
{
    if h.len() > 0 {
        lemma_head_of_absent(h.drop_first(), d);
        assert(seq![h[0]] + h.drop_first().push((d, 0u64)) =~= h.push((d, 0u64)));
    } else {
        assert(seq![(d, 0u64)] =~= h.push((d, 0u64)));
    }
}

pub(crate) proof fn lemma_bump_first_pub(h: Seq<(Seq<char>, u64)>, d: Seq<char>, s: u64, i: int)
    requires
        0 <= i < h.len(),
        h[i].0 == d,
        forall|j: int| 0 <= j < i ==> h[j].0 != d,
    ensures
        bump_head(h, d, s) == h.update(i, (d, if h[i].1 >= s { h[i].1 } else { s })),
    decreases i,
{
    if i > 0 {
        lemma_bump_first_pub(h.drop_first(), d, s, i - 1);
        assert(seq![h[0]] + h.drop_first().update(i - 1, (d, if h[i].1 >= s { h[i].1 } else { s }))
            =~= h.update(i, (d, if h[i].1 >= s { h[i].1 } else { s })));
    } else {
        assert(seq![(d, if h[0].1 >= s { h[0].1 } else { s })] + h.drop_first() =~= h.update(
            0,
            (d, if h[0].1 >= s { h[0].1 } else { s }),
        ));
    }
}

pub(crate) proof fn lemma_bump_absent_pub(h: Seq<(Seq<char>, u64)>, d: Seq<char>, s: u64)
    requires
        forall|j: int| 0 <= j < h.len() ==> h[j].0 != d,
    ensures
        bump_head(h, d, s) == h.push((d, s)),
    decreases h.len(),
{
    if h.len() > 0 {
        lemma_bump_absent_pub(h.drop_first(), d, s);
        assert(seq![h[0]] + h.drop_first().push((d, s)) =~= h.push((d, s)));
    } else {
        assert(seq![(d, s)] =~= h.push((d, s)));
    }
}

/// The first entry of `heads` for `dev`.
pub(crate) fn find_head_pub(heads: &[(String, u64)], dev: &[char]) -> (r: Option<usize>)
    ensures
        match r {
            Some(i) => i < heads@.len() && heads@[i as int].0@ == dev@ && forall|j: int|
                0 <= j < i ==> #[trigger] heads@[j].0@ != dev@,
            None => forall|j: int| 0 <= j < heads@.len() ==> #[trigger] heads@[j].0@ != dev@,
        },
{
    let mut i: usize = 0;
    while i < heads.len()
        invariant
            i <= heads@.len(),
            forall|j: int| 0 <= j < i ==> #[trigger] heads@[j].0@ != dev@,
        decreases heads.len() - i,
    {
        let k = chars_of(heads[i].0.as_str());
        if same_chars(k.as_slice(), dev) {
            return Some(i);
        }
        i = i + 1;
    }
    None
}

/// Scan every line of every segment, in reading order, recovering this node's `seq`, the
/// Lamport counter from `known_lam` on, the head of every writer, and what was excluded:
/// lines that are no envelope, and events stamped more than a day after `now` (not
/// reported again when `known_heads` shows an earlier scan already passed them). Ends
/// with a warning when this node's own last accepted event is stamped more than a minute
/// after `now`.
pub fn recover(
    lines: &[ScannedLine],
    own: &str,
    known_lam: u64,
    known_heads: &[(String, u64)],
    now: i128,
) -> (r: Recovered)
    requires
        -400_000_000_000_000_000_000 < now < 400_000_000_000_000_000_000,
    ensures
        ({
            let f = recover_fold(lines_view(lines@), own@, known_lam, heads_view(known_heads@), now);
            &&& r.own_seq == f.own_seq
            &&& r.lam@ == f.lam
            &&& heads_view(r.heads@) == f.heads
            &&& r.rejected@.map_values(|x: Rejected| rejected_view(x)) == f.rejected
            &&& r.malformed@.map_values(|x: Malformed| malformed_view(x)) == f.malformed
            &&& match r.skew {
                Some(k) => skew_of(f.own_tail, now) == Some((k.tail_ts@, k.behind_secs as int)),
                None => skew_of(f.own_tail, now) is None,
            }
        }),
{
    let ghost lv = lines_view(lines@);
    let ghost kv = heads_view(known_heads@);
    let own_chars = chars_of(own);
    let mut own_seq: u64 = 0;
    let mut lam = crate::log::lamport::Lamport::new(known_lam);
    let mut heads: Vec<(String, u64)> = Vec::new();
    let mut rejected: Vec<Rejected> = Vec::new();
    let mut malformed: Vec<Malformed> = Vec::new();
    let mut own_tail: Option<String> = None;
    let mut i: usize = 0;
    while i < lines.len()
        invariant
            i <= lines@.len(),
            lv == lines_view(lines@),
            kv == heads_view(known_heads@),
            own_chars@ == own@,
            -400_000_000_000_000_000_000 < now < 400_000_000_000_000_000_000,
            ({
                let f = recover_fold(lv.take(i as int), own@, known_lam, kv, now);
                &&& own_seq == f.own_seq
                &&& lam@ == f.lam
                &&& heads_view(heads@) == f.heads
                &&& rejected@.map_values(|x: Rejected| rejected_view(x)) == f.rejected
                &&& malformed@.map_values(|x: Malformed| malformed_view(x)) == f.malformed
                &&& match own_tail {
                    Some(t) => f.own_tail == Some(t@),
                    None => f.own_tail is None,
                }
            }),
        decreases lines.len() - i,
    {
        let ghost prev = recover_fold(lv.take(i as int), own@, known_lam, kv, now);
        let ghost line = lv[i as int];
        proof {
            assert(lv.take(i + 1).drop_last() =~= lv.take(i as int));
            assert(lv.take(i + 1).last() == line);
            assert(line == lines@[i as int].view());
        }
        let ghost rv = rejected@.map_values(|x: Rejected| rejected_view(x));
        let ghost mv = malformed@.map_values(|x: Malformed| malformed_view(x));
        match &lines[i].meta {
            Err(problem) => {
                malformed.push(Malformed {
                    segment: lines[i].segment.clone(),
                    offset: lines[i].offset,
                    problem: problem.clone(),
                });
                assert(malformed@.map_values(|x: Malformed| malformed_view(x)) =~= mv.push(
                    MalformedView { segment: line.segment, offset: line.offset, problem: problem@ },
                ));
            },
            Ok(m) => {
                let dev = chars_of(m.dev.as_str());
                let ghost hv = heads_view(heads@);
                match find_head_pub(heads.as_slice(), dev.as_slice()) {
                    Some(k) => {
                        proof {
                            assert(hv[k as int].0 == dev@);
                            assert forall|j: int| 0 <= j < k implies hv[j].0 != dev@ by {
                                assert(hv[j].0 == heads@[j].0@);
                            }
                            lemma_bump_first_pub(hv, dev@, m.seq, k as int);
                        }
                        let cur = heads[k].1;
                        let top = if cur >= m.seq { cur } else { m.seq };
                        let name = heads[k].0.clone();
                        heads.set(k, (name, top));
                        assert(heads_view(heads@) =~= hv.update(k as int, (dev@, top)));
                    },
                    None => {
                        proof {
                            assert forall|j: int| 0 <= j < hv.len() implies hv[j].0 != dev@ by {
                                assert(hv[j].0 == heads@[j].0@);
                            }
                            lemma_bump_absent_pub(hv, dev@, m.seq);
                        }
                        heads.push((m.dev.clone(), m.seq));
                        assert(heads_view(heads@) =~= hv.push((dev@, m.seq)));
                    },
                }
                let ours = same_chars(dev.as_slice(), own_chars.as_slice());
                if ours && m.seq > own_seq {
                    own_seq = m.seq;
                }
                let ahead: i64 = match ahead_exec(m.ts.as_str(), now) {
                    Some(a) => a,
                    None => 0,
                };
                if ahead > MAX_FUTURE_SECS {
                    let ghost kvv = kv;
                    let reported = match find_head_pub(known_heads, dev.as_slice()) {
                        Some(k) => {
                            proof {
                                assert forall|j: int| 0 <= j < k implies kvv[j].0 != dev@ by {
                                    assert(kvv[j].0 == known_heads@[j].0@);
                                }
                                lemma_head_of_first(kvv, dev@, k as int);
                            }
                            m.seq <= known_heads[k].1
                        },
                        None => {
                            proof {
                                assert forall|j: int| 0 <= j < kvv.len() implies kvv[j].0 != dev@ by {
                                    assert(kvv[j].0 == known_heads@[j].0@);
                                }
                                lemma_head_of_absent(kvv, dev@);
                            }
                            false
                        },
                    };
                    if !reported {
                        rejected.push(Rejected {
                            segment: lines[i].segment.clone(),
                            offset: lines[i].offset,
                            dev: m.dev.clone(),
                            seq: m.seq,
                            ts: m.ts.clone(),
                            ahead_secs: ahead,
                        });
                        assert(rejected@.map_values(|x: Rejected| rejected_view(x)) =~= rv.push(
                            rejected_view(rejected@.last()),
                        ));
                    }
                } else {
                    lam.observe(m.lam);
                    if ours {
                        own_tail = Some(m.ts.clone());
                    }
                }
            },
        }
        i = i + 1;
    }
    assert(lv.take(lines@.len() as int) =~= lv);
    let skew = match &own_tail {
        None => None,
        Some(t) => match ahead_exec(t.as_str(), now) {
            Some(b) => if b > MAX_BACKWARDS_SECS {
                Some(Skew { tail_ts: t.clone(), behind_secs: b })
            } else {
                None
            },
            None => None,
        },
    };
    Recovered { own_seq, lam, heads, rejected, malformed, skew }
}

/// The envelope fields recovery reads from a parsed line — `seq`, `lam`, `ts`, `dev`, and
/// the batch marker where there is one — or `None` where the line is not an object
/// holding them with those types.
pub open spec fn meta_read(v: Option<JsonView>) -> Option<(u64, u64, Seq<char>, Seq<char>, Option<u64>)> {
    match v {
        None => None,
        Some(j) => if !j.is_object {
            None
        } else {
            match (field(j.fields, "seq"@), field(j.fields, "lam"@), field(j.fields, "ts"@), field(j.fields, "dev"@)) {
                (Some(ScalarView::U64(s)), Some(ScalarView::U64(l)), Some(ScalarView::Str(t)), Some(ScalarView::Str(d))) => {
                    match field(j.fields, "batch"@) {
                        None => Some((s, l, t, d, None)),
                        Some(ScalarView::Null) => Some((s, l, t, d, None)),
                        Some(ScalarView::U64(n)) => Some((s, l, t, d, Some(n))),
                        _ => None,
                    }
                },
                _ => None,
            }
        },
    }
}

/// What recovery is told of a line that is not an envelope.
pub open spec fn meta_problem(v: Option<JsonView>) -> Seq<char> {
    if v is None {
        "not JSON"@
    } else {
        "not an envelope: seq, lam, ts or dev is missing or of the wrong type"@
    }
}

/// One line of segment `segment` at byte `offset`, read as recovery reads it: the
/// envelope's fields, or why the line is not an envelope.
pub fn scan_line(segment: &str, offset: u64, raw: &[u8]) -> (r: ScannedLine)
    ensures
        r.segment@ == segment@,
        r.offset == offset,
        match r.meta {
            Ok(m) => meta_read(json_parsed(raw@)) == Some((m.seq, m.lam, m.ts@, m.dev@, m.batch)),
            Err(p) => meta_read(json_parsed(raw@)) is None && p@ == meta_problem(json_parsed(raw@)),
        },
{
    let parsed = json_value(raw);
    let meta = match parsed {
        None => Err("not JSON".to_string()),
        Some(v) => {
            let ghost fv = json_v(v).fields;
            let wrong = "not an envelope: seq, lam, ts or dev is missing or of the wrong type";
            if !v.is_object {
                Err(wrong.to_string())
            } else {
                let seq = field_exec(&v.fields, "seq");
                let lam = field_exec(&v.fields, "lam");
                let ts = field_exec(&v.fields, "ts");
                let dev = field_exec(&v.fields, "dev");
                let batch = field_exec(&v.fields, "batch");
                proof {
                    assert(fv == Seq::new(v.fields@.len(), |k: int| (v.fields@[k].0@, scalar_v(v.fields@[k].1))));
                }
                match (seq, lam, ts, dev) {
                    (Some(JsonScalar::U64(s)), Some(JsonScalar::U64(l)), Some(JsonScalar::Str(t)), Some(JsonScalar::Str(d))) => {
                        match batch {
                            None => Ok(Meta { seq: *s, lam: *l, ts: t.clone(), dev: d.clone(), batch: None }),
                            Some(JsonScalar::Null) => Ok(Meta { seq: *s, lam: *l, ts: t.clone(), dev: d.clone(), batch: None }),
                            Some(JsonScalar::U64(n)) => Ok(Meta { seq: *s, lam: *l, ts: t.clone(), dev: d.clone(), batch: Some(*n) }),
                            _ => Err(wrong.to_string()),
                        }
                    },
                    _ => Err(wrong.to_string()),
                }
            }
        },
    };
    ScannedLine { segment: segment.to_string(), offset, meta }
}

} // verus!
