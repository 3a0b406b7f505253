//! LSP templates: HTML with `<? ?>`, `<?= ?>`, `<?raw ?>` and `<?-- --?>`, compiled to a Lua
//! chunk plus a line map, so a traceback names the `.lsp` line the author wrote.

use vstd::prelude::*;
use crate::text::{
    chars_of, decimal, decimal_exec, index_of, parse_u32, parse_u32_exec, push_all, push_str,
    same_chars, slice_chars, string_of,
};

verus! {

/// Generated line → source line, one entry per generated line.
#[derive(Debug, Clone, PartialEq, Eq, Default)]
pub struct LineMap {
    source: Vec<u32>,
}

impl View for LineMap {
    type V = Seq<u32>;

    closed spec fn view(&self) -> Seq<u32> {
        self.source@
    }
}

/// The `.lsp` line generated line `generated` came from.
pub open spec fn mapped(map: Seq<u32>, generated: int) -> Option<u32> {
    if 1 <= generated <= map.len() {
        Some(map[generated - 1])
    } else {
        None
    }
}

/// The number of ASCII digits `s` begins with.
pub open spec fn digit_run(s: Seq<char>) -> nat
    decreases s.len(),
{
    if s.len() > 0 && '0' <= s[0] <= '9' {
        1 + digit_run(s.drop_first())
    } else {
        0
    }
}

/// `message` from `from` on, with every `<chunk>:<n>` (`needle` is `<chunk>:`) whose `n`
/// maps to a source line rewritten to that line; `last` is where the copied text resumes.
pub open spec fn rewritten_from(
    map: Seq<u32>,
    msg: Seq<char>,
    needle: Seq<char>,
    from: int,
    last: int,
) -> Seq<char>
    decreases msg.len() + 1 - from,
{
    if needle.len() == 0 || from < 0 || last < 0 || last > msg.len() {
        msg.subrange(if 0 <= last <= msg.len() { last } else { 0 }, msg.len() as int)
    } else {
        match index_of(msg, needle, from) {
            None => msg.subrange(last, msg.len() as int),
            Some(at) => if at < from {
                msg.subrange(last, msg.len() as int)
            } else {
                let next = at + needle.len();
                let ds = at + needle.len();
                if ds > msg.len() {
                    msg.subrange(last, msg.len() as int)
                } else if at < last {
                    rewritten_from(map, msg, needle, next, last)
                } else {
                    let de = ds + digit_run(msg.subrange(ds, msg.len() as int));
                    if de == ds || de > msg.len() {
                        rewritten_from(map, msg, needle, next, last)
                    } else {
                        match parse_u32(msg.subrange(ds, de)) {
                            None => rewritten_from(map, msg, needle, next, last),
                            Some(generated) => match mapped(map, generated as int) {
                                None => rewritten_from(map, msg, needle, next, last),
                                Some(line) => msg.subrange(last, ds) + decimal(line as nat)
                                    + rewritten_from(map, msg, needle, next, de),
                            },
                        }
                    }
                }
            },
        }
    }
}

/// Every `<chunk>:<generated line>` in `message` rewritten to the `.lsp` line.
pub open spec fn rewritten(map: Seq<u32>, message: Seq<char>, chunk: Seq<char>) -> Seq<char> {
    rewritten_from(map, message, chunk.push(':'), 0, 0)
}

proof fn lemma_digit_run(s: Seq<char>, k: int)
    requires
        0 <= k <= s.len(),
        forall|j: int| 0 <= j < k ==> '0' <= #[trigger] s[j] <= '9',
        k == s.len() || !('0' <= s[k] <= '9'),
    ensures
        digit_run(s) == k,
    decreases k,
{
    if k > 0 {
        lemma_digit_run(s.drop_first(), k - 1);
    }
}

impl LineMap {
    /// The `.lsp` line a generated line came from.
    pub fn source_line(&self, generated: u32) -> (r: Option<u32>)
        ensures
            r == mapped(self@, generated as int),
    {
        if generated >= 1 && (generated as usize) <= self.source.len() {
            Some(self.source[generated as usize - 1])
        } else {
            None
        }
    }

    /// Every `<chunk>:<generated line>` in `message` rewritten to the `.lsp` line, so a
    /// Lua error or traceback names what the author wrote. Anything else is untouched.
    pub fn rewrite(&self, message: &str, chunk: &str) -> (r: String)
        ensures
            r@ == rewritten(self@, message@, chunk@),
    {
        let msg = chars_of(message);
        let mut needle = chars_of(chunk);
        needle.push(':');
        let n = msg.len();
        let mut out: Vec<char> = Vec::new();
        let mut last: usize = 0;
        let mut from: usize = 0;
        loop
            invariant
                n == msg@.len(),
                msg@ == message@,
                needle@ == chunk@.push(':'),
                needle@.len() >= 1,
                last <= n,
                from <= n + 1,
                out@ + rewritten_from(self@, msg@, needle@, from as int, last as int)
                    == rewritten(self@, message@, chunk@),
            decreases n + 1 - from,
        {
            let ghost before = out@;
            if from > n {
                proof {
                    assert(index_of(msg@, needle@, from as int) is None);
                }
                let tail = slice_chars(msg.as_slice(), last, n);
                push_all(&mut out, tail.as_slice());
                return string_of(out.as_slice());
            }
            let at = match crate::text::find(msg.as_slice(), needle.as_slice(), from) {
                Some(at) => at,
                None => {
                    let tail = slice_chars(msg.as_slice(), last, n);
                    push_all(&mut out, tail.as_slice());
                    return string_of(out.as_slice());
                },
            };
            proof {
                crate::text::lemma_index_of(msg@, needle@, from as int);
            }
            let ds = at + needle.len();
            let next = ds;
            if at < last {
                from = next;
                continue;
            }
            let mut de = ds;
            while de < n && '0' <= msg[de] && msg[de] <= '9'
                invariant
                    ds <= de <= n == msg@.len(),
                    forall|j: int| ds <= j < de ==> '0' <= #[trigger] msg@[j] <= '9',
                decreases n - de,
            {
                de = de + 1;
            }
            proof {
                let rest = msg@.subrange(ds as int, n as int);
                assert forall|j: int| 0 <= j < de - ds implies '0' <= #[trigger] rest[j] <= '9' by {
                    assert(rest[j] == msg@[ds + j]);
                }
                if de < n {
                    assert(rest[de - ds] == msg@[de as int]);
                }
                lemma_digit_run(rest, de - ds);
            }
            if de == ds {
                from = next;
                continue;
            }
            let mapped_line = match parse_u32_exec(msg.as_slice(), ds, de) {
                None => None,
                Some(generated) => self.source_line(generated),
            };
            match mapped_line {
                None => {
                    from = next;
                },
                Some(line) => {
                    let head = slice_chars(msg.as_slice(), last, ds);
                    push_all(&mut out, head.as_slice());
                    let digits = decimal_exec(line as u64);
                    push_all(&mut out, digits.as_slice());
                    proof {
                        assert(out@ + rewritten_from(self@, msg@, needle@, next as int, de as int)
                            =~= before + (head@ + decimal(line as nat) + rewritten_from(
                            self@,
                            msg@,
                            needle@,
                            next as int,
                            de as int,
                        )));
                    }
                    last = de;
                    from = next;
                },
            }
        }
    }
}

/// A view name: letters, digits, `_` and `-`, never empty and never a path.
pub open spec fn view_name(name: Seq<char>) -> bool {
    name.len() > 0 && forall|i: int| 0 <= i < name.len() ==> #[trigger] view_char(name[i])
}

/// A character a view name may hold.
pub open spec fn view_char(c: char) -> bool {
    crate::text::is_ascii_alnum(c) || c == '_' || c == '-'
}

/// A view name: the file under `views/` without `.lsp`, spelled with letters, digits,
/// `_` and `-` — never a path.
pub fn is_view_name(name: &str) -> (r: bool)
    ensures
        r == view_name(name@),
{
    let s = chars_of(name);
    if s.len() == 0 {
        return false;
    }
    let mut i: usize = 0;
    while i < s.len()
        invariant
            i <= s@.len(),
            s@ == name@,
            s@.len() > 0,
            forall|j: int| 0 <= j < i ==> #[trigger] view_char(s@[j]),
        decreases s.len() - i,
    {
        let c = s[i];
        if !(('a' <= c && c <= 'z') || ('A' <= c && c <= 'Z') || ('0' <= c && c <= '9') || c == '_'
            || c == '-') {
            assert(!view_char(s@[i as int]));
            return false;
        }
        i = i + 1;
    }
    true
}

} // verus!

verus! {

/// The kinds of segment a template is made of.
#[derive(Debug, Clone, PartialEq, Eq)]
pub enum SegmentKind {
    /// Literal text between tags, as written.
    Text(String),
    /// `<? code ?>` — Lua that emits nothing.
    Code(String),
    /// `<?= expr ?>` — emitted, escaped.
    Emit(String),
    /// `<?raw expr ?>` — emitted as it is.
    Raw(String),
    /// `<?-- --?>` — stripped, whatever it contains.
    Comment(String),
}

/// A segment's kind as data.
pub enum KindView {
    Text(Seq<char>),
    Code(Seq<char>),
    Emit(Seq<char>),
    Raw(Seq<char>),
    Comment(Seq<char>),
}

impl View for SegmentKind {
    type V = KindView;

    open spec fn view(&self) -> KindView {
        match self {
            SegmentKind::Text(s) => KindView::Text(s@),
            SegmentKind::Code(s) => KindView::Code(s@),
            SegmentKind::Emit(s) => KindView::Emit(s@),
            SegmentKind::Raw(s) => KindView::Raw(s@),
            SegmentKind::Comment(s) => KindView::Comment(s@),
        }
    }
}

/// One piece of a template as the scanner reads it.
#[derive(Debug, Clone, PartialEq, Eq)]
pub struct Segment {
    /// 1-based `.lsp` line the segment begins on.
    pub line: u32,
    /// What it is.
    pub kind: SegmentKind,
}

/// A segment as data.
pub struct SegView {
    pub line: u32,
    pub kind: KindView,
}

impl View for Segment {
    type V = SegView;

    open spec fn view(&self) -> SegView {
        SegView { line: self.line, kind: self.kind@ }
    }
}

/// Where the compiler stopped.
#[derive(Debug, Clone, PartialEq, Eq)]
pub struct CompileError {
    /// 1-based `.lsp` line of the tag that could not be read.
    pub line: u32,
    /// What was wrong with it.
    pub message: String,
}

/// A compile error as data.
pub struct ErrView {
    pub line: u32,
    pub message: Seq<char>,
}

impl View for CompileError {
    type V = ErrView;

    open spec fn view(&self) -> ErrView {
        ErrView { line: self.line, message: self.message@ }
    }
}

/// `line + n`, held at `u32::MAX`.
pub open spec fn sat(line: u32, n: nat) -> u32 {
    if line + n > u32::MAX {
        u32::MAX
    } else {
        (line + n) as u32
    }
}

/// `<?`.
pub open spec fn tag_open() -> Seq<char> {
    seq!['<', '?']
}

/// `?>`.
pub open spec fn tag_close() -> Seq<char> {
    seq!['?', '>']
}

/// `--?>`.
pub open spec fn comment_end() -> Seq<char> {
    seq!['-', '-', '?', '>']
}

/// Which tag opens at `after` (just past `<?`): 1 for `<?=`, 2 for `<?raw` followed by
/// whitespace, 0 for code.
pub open spec fn tag_kind(src: Seq<char>, after: int) -> int {
    if after < src.len() && src[after] == '=' {
        1
    } else if after + 3 < src.len() && src[after] == 'r' && src[after + 1] == 'a' && src[after + 2]
        == 'w' && crate::text::is_ascii_ws(src[after + 3]) {
        2
    } else {
        0
    }
}

/// Where a tag's body starts, given its kind.
pub open spec fn body_start(after: int, kind: int) -> int {
    if kind == 1 {
        after + 1
    } else if kind == 2 {
        after + 3
    } else {
        after
    }
}

/// The message for a tag of this kind with no `?>` after it.
pub open spec fn unclosed_message(kind: int) -> Seq<char> {
    if kind == 1 {
        "unclosed <?= ?>: no ?> follows it"@
    } else if kind == 2 {
        "unclosed <?raw ?>: no ?> follows it"@
    } else {
        "unclosed <? ?>: no ?> follows it"@
    }
}

/// A segment of that kind holding `body`.
pub open spec fn kind_of(kind: int, body: Seq<char>) -> KindView {
    if kind == 1 {
        KindView::Emit(body)
    } else if kind == 2 {
        KindView::Raw(body)
    } else {
        KindView::Code(body)
    }
}

/// `pre` before whatever the rest of the scan found, or the rest's error.
pub open spec fn prepend(
    pre: Seq<SegView>,
    rest: Result<Seq<SegView>, ErrView>,
) -> Result<Seq<SegView>, ErrView> {
    match rest {
        Ok(s) => Ok(pre + s),
        Err(e) => Err(e),
    }
}

/// The segments of `src` from index `pos`, which is on line `line`.
pub open spec fn scan_from(src: Seq<char>, pos: int, line: u32) -> Result<Seq<SegView>, ErrView>
    decreases src.len() + 1 - pos,
{
    if pos < 0 || pos > src.len() {
        Ok(Seq::empty())
    } else {
        match index_of(src, tag_open(), pos) {
            None => Ok(
                if pos < src.len() {
                    seq![SegView { line, kind: KindView::Text(src.subrange(pos, src.len() as int)) }]
                } else {
                    Seq::empty()
                },
            ),
            Some(open) => if open < pos || open + 2 > src.len() {
                Ok(Seq::empty())
            } else {
                let pre = if open > pos {
                    seq![SegView { line, kind: KindView::Text(src.subrange(pos, open)) }]
                } else {
                    Seq::empty()
                };
                let tag_line = sat(line, crate::text::newlines(src.subrange(pos, open)));
                let after = open + 2;
                if after + 2 <= src.len() && src[after] == '-' && src[after + 1] == '-' {
                    match index_of(src, comment_end(), after + 2) {
                        None => Err(
                            ErrView {
                                line: tag_line,
                                message: "unclosed <?-- comment: no --?> follows it"@,
                            },
                        ),
                        Some(end) => if end < after + 2 || end + 4 > src.len() {
                            Ok(Seq::empty())
                        } else {
                            let body = src.subrange(after + 2, end);
                            prepend(
                                pre.push(SegView { line: tag_line, kind: KindView::Comment(body) }),
                                scan_from(
                                    src,
                                    end + 4,
                                    sat(tag_line, crate::text::newlines(body)),
                                ),
                            )
                        },
                    }
                } else {
                    let kind = tag_kind(src, after);
                    let start = body_start(after, kind);
                    match index_of(src, tag_close(), start) {
                        None => Err(ErrView { line: tag_line, message: unclosed_message(kind) }),
                        Some(end) => if end < start || end + 2 > src.len() {
                            Ok(Seq::empty())
                        } else {
                            let body = src.subrange(start, end);
                            prepend(
                                pre.push(SegView { line: tag_line, kind: kind_of(kind, body) }),
                                scan_from(src, end + 2, sat(tag_line, crate::text::newlines(body))),
                            )
                        },
                    }
                }
            },
        }
    }
}

/// The segments of a template, or where it stopped.
pub open spec fn scanned(src: Seq<char>) -> Result<Seq<SegView>, ErrView> {
    scan_from(src, 0, 1)
}

proof fn lemma_prepend_assoc(a: Seq<SegView>, b: Seq<SegView>, r: Result<Seq<SegView>, ErrView>)
    ensures
        prepend(a, prepend(b, r)) == prepend(a + b, r),
{
    match r {
        Ok(s) => {
            assert(a + (b + s) =~= (a + b) + s);
        },
        Err(e) => {},
    }
}

/// The text a segment was read from: its body with the tag around it.
pub open spec fn segment_source(k: KindView) -> Seq<char> {
    match k {
        KindView::Text(t) => t,
        KindView::Code(b) => tag_open() + b + tag_close(),
        KindView::Emit(b) => tag_open() + seq!['='] + b + tag_close(),
        KindView::Raw(b) => tag_open() + seq!['r', 'a', 'w'] + b + tag_close(),
        KindView::Comment(b) => tag_open() + seq!['-', '-'] + b + comment_end(),
    }
}

/// The text segments were read from, one after the other.
pub open spec fn segments_source(segs: Seq<SegView>) -> Seq<char>
    decreases segs.len(),
{
    if segs.len() == 0 {
        Seq::empty()
    } else {
        segments_source(segs.drop_last()) + segment_source(segs.last().kind)
    }
}

/// Each segment carries the line it begins on, counting from `line` the newlines of the
/// segments before it.
pub open spec fn lines_counted(segs: Seq<SegView>, line: u32) -> bool {
    forall|i: int|
        0 <= i < segs.len() ==> #[trigger] segs[i].line == sat(line, crate::text::newlines(segments_source(segs.take(i))))
}

proof fn lemma_segments_source_concat(a: Seq<SegView>, b: Seq<SegView>)
    ensures
        segments_source(a + b) == segments_source(a) + segments_source(b),
    decreases b.len(),
{
    if b.len() == 0 {
        assert(a + b =~= a);
        assert(segments_source(a) + segments_source(b) =~= segments_source(a));
    } else {
        lemma_segments_source_concat(a, b.drop_last());
        assert((a + b).drop_last() =~= a + b.drop_last());
        assert((segments_source(a) + segments_source(b.drop_last())) + segment_source(b.last().kind)
            =~= segments_source(a) + segments_source(b));
    }
}

proof fn lemma_sat_sat(line: u32, a: nat, b: nat)
    ensures
        sat(sat(line, a), b) == sat(line, a + b),
{
}

proof fn lemma_no_newline(s: Seq<char>)
    requires
        forall|i: int| 0 <= i < s.len() ==> s[i] != '\n',
    ensures
        crate::text::newlines(s) == 0,
    decreases s.len(),
{
    if s.len() > 0 {
        lemma_no_newline(s.drop_last());
    }
}

/// A tag adds no line of its own: a segment holds the newlines of its body.
proof fn lemma_segment_newlines(k: KindView)
    ensures
        crate::text::newlines(segment_source(k)) == match k {
            KindView::Text(t) => crate::text::newlines(t),
            KindView::Code(b) => crate::text::newlines(b),
            KindView::Emit(b) => crate::text::newlines(b),
            KindView::Raw(b) => crate::text::newlines(b),
            KindView::Comment(b) => crate::text::newlines(b),
        },
{
    let o = tag_open();
    let c = tag_close();
    lemma_no_newline(o);
    lemma_no_newline(c);
    lemma_no_newline(comment_end());
    lemma_no_newline(seq!['=']);
    lemma_no_newline(seq!['r', 'a', 'w']);
    lemma_no_newline(seq!['-', '-']);
    match k {
        KindView::Text(t) => {},
        KindView::Code(b) => {
            crate::text::lemma_newlines_concat(o, b);
            crate::text::lemma_newlines_concat(o + b, c);
        },
        KindView::Emit(b) => {
            crate::text::lemma_newlines_concat(o, seq!['=']);
            crate::text::lemma_newlines_concat(o + seq!['='], b);
            crate::text::lemma_newlines_concat(o + seq!['='] + b, c);
        },
        KindView::Raw(b) => {
            crate::text::lemma_newlines_concat(o, seq!['r', 'a', 'w']);
            crate::text::lemma_newlines_concat(o + seq!['r', 'a', 'w'], b);
            crate::text::lemma_newlines_concat(o + seq!['r', 'a', 'w'] + b, c);
        },
        KindView::Comment(b) => {
            crate::text::lemma_newlines_concat(o, seq!['-', '-']);
            crate::text::lemma_newlines_concat(o + seq!['-', '-'], b);
            crate::text::lemma_newlines_concat(o + seq!['-', '-'] + b, comment_end());
        },
    }
}

proof fn lemma_lines_push(pre: Seq<SegView>, seg: SegView, line: u32)
    requires
        lines_counted(pre, line),
        seg.line == sat(line, crate::text::newlines(segments_source(pre))),
    ensures
        lines_counted(pre.push(seg), line),
{
    let a = pre.push(seg);
    assert forall|i: int| 0 <= i < a.len() implies #[trigger] a[i].line == sat(
        line,
        crate::text::newlines(segments_source(a.take(i))),
    ) by {
        if i < pre.len() {
            assert(a.take(i) =~= pre.take(i));
            assert(a[i] == pre[i]);
        } else {
            assert(a.take(i) =~= pre);
        }
    }
}

proof fn lemma_lines_append(a: Seq<SegView>, b: Seq<SegView>, line: u32)
    requires
        lines_counted(a, line),
        lines_counted(b, sat(line, crate::text::newlines(segments_source(a)))),
    ensures
        lines_counted(a + b, line),
{
    let ab = a + b;
    assert forall|i: int| 0 <= i < ab.len() implies #[trigger] ab[i].line == sat(
        line,
        crate::text::newlines(segments_source(ab.take(i))),
    ) by {
        if i < a.len() {
            assert(ab.take(i) =~= a.take(i));
            assert(ab[i] == a[i]);
        } else {
            let k = i - a.len();
            assert(ab.take(i) =~= a + b.take(k));
            assert(ab[i] == b[k]);
            lemma_segments_source_concat(a, b.take(k));
            crate::text::lemma_newlines_concat(segments_source(a), segments_source(b.take(k)));
            lemma_sat_sat(line, crate::text::newlines(segments_source(a)), crate::text::newlines(segments_source(b.take(k))));
        }
    }
}

/// A tag and what follows it, read from `open`: the segments before the tag are `pre`,
/// read from `pos`; the tag's segment is `seg`, whose source runs to `next`.
proof fn lemma_scan_step(src: Seq<char>, pos: int, open: int, next: int, line: u32, pre: Seq<SegView>, seg: SegView)
    requires
        0 <= pos <= open < next <= src.len(),
        segments_source(pre) == src.subrange(pos, open),
        lines_counted(pre, line),
        seg.line == sat(line, crate::text::newlines(src.subrange(pos, open))),
        segment_source(seg.kind) == src.subrange(open, next),
        scan_from(src, next, sat(seg.line, crate::text::newlines(src.subrange(open, next)))) matches Ok(rest)
            ==> segments_source(rest) == src.subrange(next, src.len() as int) && lines_counted(
            rest,
            sat(seg.line, crate::text::newlines(src.subrange(open, next))),
        ),
    ensures
        scan_from(src, next, sat(seg.line, crate::text::newlines(src.subrange(open, next)))) matches Ok(rest)
            ==> segments_source(pre.push(seg) + rest) == src.subrange(pos, src.len() as int) && lines_counted(
            pre.push(seg) + rest,
            line,
        ),
{
    let line2 = sat(seg.line, crate::text::newlines(src.subrange(open, next)));
    if let Ok(rest) = scan_from(src, next, line2) {
        let a = pre.push(seg);
        assert(a.drop_last() =~= pre);
        lemma_segments_source_concat(a, rest);
        assert(src.subrange(pos, open) + src.subrange(open, next) + src.subrange(next, src.len() as int)
            =~= src.subrange(pos, src.len() as int));
        lemma_lines_push(pre, seg, line);
        crate::text::lemma_newlines_concat(src.subrange(pos, open), src.subrange(open, next));
        lemma_sat_sat(line, crate::text::newlines(src.subrange(pos, open)), crate::text::newlines(src.subrange(open, next)));
        assert(segments_source(a) =~= src.subrange(pos, open) + src.subrange(open, next));
        lemma_lines_append(a, rest, line);
    }
}

#[verifier::spinoff_prover]
#[verifier::rlimit(60)]
proof fn lemma_scan_from_source(src: Seq<char>, pos: int, line: u32)
    requires
        0 <= pos <= src.len(),
    ensures
        scan_from(src, pos, line) matches Ok(segs) ==> segments_source(segs) == src.subrange(pos, src.len() as int)
            && lines_counted(segs, line),
    decreases src.len() + 1 - pos,
{
    let e = Seq::<SegView>::empty();
    crate::text::lemma_index_of(src, tag_open(), pos);
    match index_of(src, tag_open(), pos) {
        None => {
            if pos < src.len() {
                let seg = SegView { line, kind: KindView::Text(src.subrange(pos, src.len() as int)) };
                assert(e.push(seg) =~= seq![seg]);
                assert(segments_source(e) =~= Seq::<char>::empty());
                assert(crate::text::newlines(Seq::<char>::empty()) == 0);
                lemma_lines_push(e, seg, line);
                assert(segments_source(seq![seg]) =~= src.subrange(pos, src.len() as int)) by {
                    assert(seq![seg].drop_last() =~= e);
                }
            } else {
                assert(src.subrange(pos, src.len() as int) =~= Seq::<char>::empty());
            }
        },
        Some(open) => {
            assert(src.subrange(open, open + 2) == tag_open());
            let pre = if open > pos {
                seq![SegView { line, kind: KindView::Text(src.subrange(pos, open)) }]
            } else {
                e
            };
            assert(segments_source(pre) =~= src.subrange(pos, open) && lines_counted(pre, line)) by {
                assert(segments_source(e) =~= Seq::<char>::empty());
                assert(crate::text::newlines(Seq::<char>::empty()) == 0);
                if open > pos {
                    let t = SegView { line, kind: KindView::Text(src.subrange(pos, open)) };
                    assert(e.push(t) =~= pre);
                    lemma_lines_push(e, t, line);
                    assert(pre.drop_last() =~= e);
                } else {
                    assert(src.subrange(pos, open) =~= Seq::<char>::empty());
                }
            }
            let tag_line = sat(line, crate::text::newlines(src.subrange(pos, open)));
            let after = open + 2;
            if after + 2 <= src.len() && src[after] == '-' && src[after + 1] == '-' {
                crate::text::lemma_index_of(src, comment_end(), after + 2);
                if let Some(end) = index_of(src, comment_end(), after + 2) {
                    assert(src.subrange(end, end + 4) == comment_end());
                    let body = src.subrange(after + 2, end);
                    let seg = SegView { line: tag_line, kind: KindView::Comment(body) };
                    assert(segment_source(seg.kind) =~= src.subrange(open, end + 4)) by {
                        assert(src.subrange(open, end + 4) =~= src.subrange(open, open + 2) + seq![src[after], src[after + 1]]
                            + body + src.subrange(end, end + 4));
                    }
                    lemma_segment_newlines(seg.kind);
                    lemma_scan_from_source(src, end + 4, sat(tag_line, crate::text::newlines(body)));
                    lemma_scan_step(src, pos, open, end + 4, line, pre, seg);
                }
            } else {
                let kind = tag_kind(src, after);
                let start = body_start(after, kind);
                crate::text::lemma_index_of(src, tag_close(), start);
                if let Some(end) = index_of(src, tag_close(), start) {
                    assert(src.subrange(end, end + 2) == tag_close());
                    let body = src.subrange(start, end);
                    let seg = SegView { line: tag_line, kind: kind_of(kind, body) };
                    assert(segment_source(seg.kind) =~= src.subrange(open, end + 2)) by {
                        if kind == 1 {
                            assert(src.subrange(open, end + 2) =~= src.subrange(open, open + 2) + seq![src[after]] + body
                                + src.subrange(end, end + 2));
                        } else if kind == 2 {
                            assert(src.subrange(open, end + 2) =~= src.subrange(open, open + 2) + seq![src[after], src[after + 1], src[after + 2]]
                                + body + src.subrange(end, end + 2));
                        } else {
                            assert(src.subrange(open, end + 2) =~= src.subrange(open, open + 2) + body + src.subrange(end, end + 2));
                        }
                    }
                    lemma_segment_newlines(seg.kind);
                    lemma_scan_from_source(src, end + 2, sat(tag_line, crate::text::newlines(body)));
                    lemma_scan_step(src, pos, open, end + 2, line, pre, seg);
                }
            }
        },
    }
}

/// A template that scans gives back, segment by segment, exactly the text it was read
/// from: each segment's body with its tag around it (`<?`, `<?=`, `<?raw`, `<?--` … `--?>`),
/// and each segment is numbered with its first line, counted from 1 (held at `u32::MAX`).
pub proof fn lemma_scanned_reads_back(src: Seq<char>)
    ensures
        scanned(src) matches Ok(segs) ==> segments_source(segs) == src && lines_counted(segs, 1),
{
    lemma_scan_from_source(src, 0, 1);
    assert(src.subrange(0, src.len() as int) =~= src);
}

/// Where a tag opened at `p` stops being read: a comment's body after `<?--`, another
/// tag's body after `<?`, `<?=` or `<?raw`.
pub open spec fn tag_body_start(src: Seq<char>, p: int) -> int {
    let after = p + 2;
    if after + 2 <= src.len() && src[after] == '-' && src[after + 1] == '-' {
        after + 2
    } else {
        body_start(after, tag_kind(src, after))
    }
}

/// The tag opened at `p` is never closed: no `--?>` after a comment's body start, no
/// `?>` after another tag's.
pub open spec fn left_open(src: Seq<char>, p: int) -> bool {
    let after = p + 2;
    if after + 2 <= src.len() && src[after] == '-' && src[after + 1] == '-' {
        crate::text::absent_after(src, comment_end(), after + 2)
    } else {
        crate::text::absent_after(src, tag_close(), tag_body_start(src, p))
    }
}

proof fn lemma_err_step(src: Seq<char>, pos: int, open: int, next: int, line: u32, body: Seq<char>, q: int)
    requires
        0 <= pos <= open < next <= q <= src.len(),
        crate::text::newlines(src.subrange(open, next)) == crate::text::newlines(body),
    ensures
        sat(sat(sat(line, crate::text::newlines(src.subrange(pos, open))), crate::text::newlines(body)), crate::text::newlines(
            src.subrange(next, q),
        )) == sat(line, crate::text::newlines(src.subrange(pos, q))),
{
    crate::text::lemma_newlines_concat(src.subrange(pos, open), src.subrange(open, next));
    crate::text::lemma_newlines_concat(src.subrange(pos, next), src.subrange(next, q));
    assert(src.subrange(pos, open) + src.subrange(open, next) =~= src.subrange(pos, next));
    assert(src.subrange(pos, next) + src.subrange(next, q) =~= src.subrange(pos, q));
    lemma_sat_sat(line, crate::text::newlines(src.subrange(pos, open)), crate::text::newlines(body));
    lemma_sat_sat(line, crate::text::newlines(src.subrange(pos, next)), crate::text::newlines(src.subrange(next, q)));
}

/// The source of a tag read at `open` whose body runs from `start` to `end` and whose
/// closing mark is `close`: as many newlines as its body.
proof fn lemma_tag_newlines(src: Seq<char>, open: int, start: int, end: int, close: Seq<char>)
    requires
        0 <= open,
        open + 2 <= start <= end,
        end + close.len() <= src.len(),
        src.subrange(open, open + 2) == tag_open(),
        src.subrange(end, end + close.len()) == close,
        forall|i: int| 0 <= i < close.len() ==> close[i] != '\n',
        forall|i: int| open + 2 <= i < start ==> src[i] != '\n',
    ensures
        crate::text::newlines(src.subrange(open, end + close.len())) == crate::text::newlines(src.subrange(start, end)),
{
    let a = src.subrange(open, start);
    let b = src.subrange(start, end);
    let c = src.subrange(end, end + close.len());
    assert(src.subrange(open, end + close.len()) =~= a + b + c);
    assert forall|i: int| 0 <= i < a.len() implies a[i] != '\n' by {
        if i >= 2 {
            assert(a[i] == src[open + i]);
        } else {
            assert(a[i] == src.subrange(open, open + 2)[i]);
        }
    }
    lemma_no_newline(a);
    lemma_no_newline(c);
    crate::text::lemma_newlines_concat(a, b);
    crate::text::lemma_newlines_concat(a + b, c);
}

#[verifier::spinoff_prover]
#[verifier::rlimit(60)]
proof fn lemma_scan_from_err(src: Seq<char>, pos: int, line: u32)
    requires
        0 <= pos <= src.len(),
    ensures
        scan_from(src, pos, line) matches Err(e) ==> exists|p: int|
            pos <= p && crate::text::occurs_at(src, tag_open(), p) && left_open(src, p) && #[trigger] sat(
                line,
                crate::text::newlines(src.subrange(pos, p)),
            ) == e.line,
    decreases src.len() + 1 - pos,
{
    crate::text::lemma_index_of(src, tag_open(), pos);
    if let Some(open) = index_of(src, tag_open(), pos) {
        let after = open + 2;
        let tag_line = sat(line, crate::text::newlines(src.subrange(pos, open)));
        if after + 2 <= src.len() && src[after] == '-' && src[after + 1] == '-' {
            crate::text::lemma_index_of(src, comment_end(), after + 2);
            match index_of(src, comment_end(), after + 2) {
                None => {
                    assert(left_open(src, open));
                },
                Some(end) => {
                    if end >= after + 2 && end + 4 <= src.len() {
                        let body = src.subrange(after + 2, end);
                        let line2 = sat(tag_line, crate::text::newlines(body));
                        lemma_scan_from_err(src, end + 4, line2);
                        if let Err(e) = scan_from(src, end + 4, line2) {
                            let q = choose|q: int|
                                end + 4 <= q && crate::text::occurs_at(src, tag_open(), q) && left_open(src, q) && #[trigger] sat(
                                    line2,
                                    crate::text::newlines(src.subrange(end + 4, q)),
                                ) == e.line;
                            lemma_tag_newlines(src, open, after + 2, end, comment_end());
                            lemma_err_step(src, pos, open, end + 4, line, body, q);
                        }
                    }
                },
            }
        } else {
            let kind = tag_kind(src, after);
            let start = body_start(after, kind);
            crate::text::lemma_index_of(src, tag_close(), start);
            match index_of(src, tag_close(), start) {
                None => {
                    assert(left_open(src, open));
                },
                Some(end) => {
                    if end >= start && end + 2 <= src.len() {
                        let body = src.subrange(start, end);
                        let line2 = sat(tag_line, crate::text::newlines(body));
                        lemma_scan_from_err(src, end + 2, line2);
                        if let Err(e) = scan_from(src, end + 2, line2) {
                            let q = choose|q: int|
                                end + 2 <= q && crate::text::occurs_at(src, tag_open(), q) && left_open(src, q) && #[trigger] sat(
                                    line2,
                                    crate::text::newlines(src.subrange(end + 2, q)),
                                ) == e.line;
                            assert forall|i: int| open + 2 <= i < start implies src[i] != '\n' by {
                                if kind == 2 {
                                    assert(i < after + 3);
                                }
                            }
                            lemma_tag_newlines(src, open, start, end, tag_close());
                            lemma_err_step(src, pos, open, end + 2, line, body, q);
                        }
                    }
                },
            }
        }
    }
}

/// A template fails to scan only at a tag left open: a `<?` (or `<?=`, `<?raw`) with no
/// `?>` after its body starts, or a `<?--` with no `--?>` after it; the error carries that
/// tag's line, counted from 1 (held at `u32::MAX`).
pub proof fn lemma_scan_fails_at_an_open_tag(src: Seq<char>)
    ensures
        scanned(src) matches Err(e) ==> exists|p: int|
            0 <= p && crate::text::occurs_at(src, tag_open(), p) && left_open(src, p) && #[trigger] sat(
                1,
                crate::text::newlines(src.subrange(0, p)),
            ) == e.line,
{
    lemma_scan_from_err(src, 0, 1);
}

#[verifier::spinoff_prover]
#[verifier::rlimit(60)]
proof fn lemma_scan_from_open(src: Seq<char>, pos: int, line: u32, p: int)
    requires
        0 <= pos <= p,
        crate::text::occurs_at(src, tag_open(), p),
        crate::text::absent_after(src, tag_close(), p),
    ensures
        scan_from(src, pos, line) is Err,
    decreases src.len() + 1 - pos,
{
    crate::text::lemma_index_of(src, tag_open(), pos);
    let open = index_of(src, tag_open(), pos)->0;
    assert(open <= p);
    let after = open + 2;
    let tag_line = sat(line, crate::text::newlines(src.subrange(pos, open)));
    assert(src.subrange(p, p + 2)[0] == src[p]);
    if after + 2 <= src.len() && src[after] == '-' && src[after + 1] == '-' {
        crate::text::lemma_index_of(src, comment_end(), after + 2);
        if let Some(end) = index_of(src, comment_end(), after + 2) {
            assert(src.subrange(end, end + 4)[2] == src[end + 2]);
            assert(src.subrange(end, end + 4)[3] == src[end + 3]);
            assert(src.subrange(end + 2, end + 4) =~= tag_close());
            assert(crate::text::occurs_at(src, tag_close(), end + 2));
            assert(end + 2 < p);
            if end + 2 == p - 1 {
                assert(src.subrange(end + 2, end + 4)[1] == src[p]);
            }
            lemma_scan_from_open(src, end + 4, sat(tag_line, crate::text::newlines(src.subrange(after + 2, end))), p);
        }
    } else {
        let kind = tag_kind(src, after);
        let start = body_start(after, kind);
        crate::text::lemma_index_of(src, tag_close(), start);
        if let Some(end) = index_of(src, tag_close(), start) {
            assert(end < p);
            if end == p - 1 {
                assert(src.subrange(end, end + 2)[1] == src[p]);
            }
            lemma_scan_from_open(src, end + 2, sat(tag_line, crate::text::newlines(src.subrange(start, end))), p);
        }
    }
}

/// A template with a `<?` after which no `?>` appears anywhere never scans: whatever
/// tags close before it, the scan reaches that `<?` and finds it open.
pub proof fn lemma_open_tag_fails_the_scan(src: Seq<char>, p: int)
    requires
        crate::text::occurs_at(src, tag_open(), p),
        crate::text::absent_after(src, tag_close(), p),
    ensures
        scanned(src) is Err,
{
    lemma_scan_from_open(src, 0, 1, p);
}

fn add_lines(line: u32, src: &[char], from: usize, to: usize) -> (r: u32)
    requires
        from <= to <= src@.len(),
    ensures
        r == sat(line, crate::text::newlines(src@.subrange(from as int, to as int))),
{
    let n = crate::text::count_newlines(src, from, to);
    if n as u64 > (u32::MAX - line) as u64 {
        u32::MAX
    } else {
        line + n as u32
    }
}

fn segs_view(v: &Vec<Segment>) -> (r: Ghost<Seq<SegView>>)
    ensures
        r@ == v@.map_values(|s: Segment| s@),
{
    Ghost(v@.map_values(|s: Segment| s@))
}

/// Split a template into its segments: the tags and the text between them. An unclosed
/// tag is the one error.
pub fn scan(source: &str) -> (r: Result<Vec<Segment>, CompileError>)
    ensures
        match r {
            Ok(v) => scanned(source@) == Ok::<Seq<SegView>, ErrView>(
                v@.map_values(|s: Segment| s@),
            ),
            Err(e) => scanned(source@) == Err::<Seq<SegView>, ErrView>(e@),
        },
{
    let src = chars_of(source);
    let n = src.len();
    let lt: Vec<char> = vec!['<', '?'];
    let gt: Vec<char> = vec!['?', '>'];
    let cend: Vec<char> = vec!['-', '-', '?', '>'];
    proof {
        assert(lt@ =~= tag_open());
        assert(gt@ =~= tag_close());
        assert(cend@ =~= comment_end());
    }
    let mut segments: Vec<Segment> = Vec::new();
    let mut pos: usize = 0;
    let mut line: u32 = 1;
    loop
        invariant
            n == src@.len(),
            src@ == source@,
            pos <= n,
            lt@ == tag_open(),
            gt@ == tag_close(),
            cend@ == comment_end(),
            prepend(segments@.map_values(|s: Segment| s@), scan_from(src@, pos as int, line))
                == scanned(source@),
        decreases n + 1 - pos,
    {
        let ghost before = segments@.map_values(|s: Segment| s@);
        let open = match crate::text::find(src.as_slice(), lt.as_slice(), pos) {
            None => {
                if pos < n {
                    let text = crate::text::substring(src.as_slice(), pos, n);
                    segments.push(Segment { line, kind: SegmentKind::Text(text) });
                    proof {
                        assert(segments@.map_values(|s: Segment| s@) =~= before + seq![
                            SegView { line, kind: KindView::Text(src@.subrange(pos as int, n as int)) },
                        ]);
                    }
                } else {
                    proof {
                        assert(before + Seq::<SegView>::empty() =~= before);
                    }
                }
                return Ok(segments);
            },
            Some(o) => o,
        };
        proof {
            crate::text::lemma_index_of(src@, tag_open(), pos as int);
        }
        if open > pos {
            let text = crate::text::substring(src.as_slice(), pos, open);
            segments.push(Segment { line, kind: SegmentKind::Text(text) });
        }
        let ghost pre = if open > pos {
            seq![SegView { line, kind: KindView::Text(src@.subrange(pos as int, open as int)) }]
        } else {
            Seq::<SegView>::empty()
        };
        proof {
            assert(segments@.map_values(|s: Segment| s@) =~= before + pre);
        }
        let tag_line = add_lines(line, src.as_slice(), pos, open);
        let after = open + 2;
        if n - after >= 2 && src[after] == '-' && src[after + 1] == '-' {
            match crate::text::find(src.as_slice(), cend.as_slice(), after + 2) {
                None => {
                    return Err(CompileError {
                        line: tag_line,
                        message: String::from_str("unclosed <?-- comment: no --?> follows it"),
                    });
                },
                Some(end) => {
                    proof {
                        crate::text::lemma_index_of(src@, comment_end(), after + 2);
                    }
                    let body = crate::text::substring(src.as_slice(), after + 2, end);
                    let next_line = add_lines(tag_line, src.as_slice(), after + 2, end);
                    segments.push(Segment { line: tag_line, kind: SegmentKind::Comment(body) });
                    proof {
                        assert(segments@.map_values(|s: Segment| s@) =~= (before + pre).push(
                            SegView {
                                line: tag_line,
                                kind: KindView::Comment(src@.subrange(after + 2, end as int)),
                            },
                        ));
                        assert(before + pre.push(
                            SegView {
                                line: tag_line,
                                kind: KindView::Comment(src@.subrange(after + 2, end as int)),
                            },
                        ) =~= (before + pre).push(
                            SegView {
                                line: tag_line,
                                kind: KindView::Comment(src@.subrange(after + 2, end as int)),
                            },
                        ));
                        let cv = SegView {
                            line: tag_line,
                            kind: KindView::Comment(src@.subrange(after + 2, end as int)),
                        };
                        let rest = scan_from(src@, end + 4, next_line);
                        assert(scan_from(src@, pos as int, line) == prepend(pre.push(cv), rest));
                        lemma_prepend_assoc(before, pre.push(cv), rest);
                    }
                    pos = end + 4;
                    line = next_line;
                },
            }
        } else {
            let kind: u8 = if after < n && src[after] == '=' {
                1
            } else if n - after > 3 && src[after] == 'r' && src[after + 1] == 'a' && src[after + 2]
                == 'w' && crate::text::is_ascii_ws_exec(src[after + 3]) {
                2
            } else {
                0
            };
            let start = if kind == 1 {
                after + 1
            } else if kind == 2 {
                after + 3
            } else {
                after
            };
            assert(kind as int == tag_kind(src@, after as int));
            assert(start as int == body_start(after as int, kind as int));
            match crate::text::find(src.as_slice(), gt.as_slice(), start) {
                None => {
                    let message = if kind == 1 {
                        String::from_str("unclosed <?= ?>: no ?> follows it")
                    } else if kind == 2 {
                        String::from_str("unclosed <?raw ?>: no ?> follows it")
                    } else {
                        String::from_str("unclosed <? ?>: no ?> follows it")
                    };
                    return Err(CompileError { line: tag_line, message });
                },
                Some(end) => {
                    proof {
                        crate::text::lemma_index_of(src@, tag_close(), start as int);
                    }
                    let body = crate::text::substring(src.as_slice(), start, end);
                    let next_line = add_lines(tag_line, src.as_slice(), start, end);
                    let seg_kind = if kind == 1 {
                        SegmentKind::Emit(body)
                    } else if kind == 2 {
                        SegmentKind::Raw(body)
                    } else {
                        SegmentKind::Code(body)
                    };
                    let ghost sv = SegView {
                        line: tag_line,
                        kind: kind_of(kind as int, src@.subrange(start as int, end as int)),
                    };
                    segments.push(Segment { line: tag_line, kind: seg_kind });
                    proof {
                        assert(segments@.map_values(|s: Segment| s@) =~= (before + pre).push(sv));
                        assert(before + pre.push(sv) =~= (before + pre).push(sv));
                        let rest = scan_from(src@, end + 2, next_line);
                        assert(scan_from(src@, pos as int, line) == prepend(pre.push(sv), rest));
                        lemma_prepend_assoc(before, pre.push(sv), rest);
                    }
                    pos = end + 2;
                    line = next_line;
                },
            }
        }
    }
}

} // verus!

verus! {

/// One character of Lua string literal text: quotes, backslashes and control characters
/// escaped, everything else as it is.
pub open spec fn escape_char(c: char) -> Seq<char> {
    if c == '"' {
        seq!['\\', '"']
    } else if c == '\\' {
        seq!['\\', '\\']
    } else if c == '\n' {
        seq!['\\', 'n']
    } else if c == '\r' {
        seq!['\\', 'r']
    } else if c == '\t' {
        seq!['\\', 't']
    } else if (c as u32) < 0x20 || c as u32 == 0x7f {
        let n = c as u32 as int;
        seq!['\\', crate::text::digit_char(n / 100), crate::text::digit_char((n / 10) % 10),
            crate::text::digit_char(n % 10)]
    } else {
        seq![c]
    }
}

/// Every character of `text` escaped.
pub open spec fn escaped(text: Seq<char>) -> Seq<char>
    decreases text.len(),
{
    if text.len() == 0 {
        Seq::empty()
    } else {
        escaped(text.drop_last()) + escape_char(text.last())
    }
}

/// `text` as a Lua string literal.
pub open spec fn lua_string(text: Seq<char>) -> Seq<char> {
    seq!['"'] + escaped(text) + seq!['"']
}

/// The generated lines of literal text: one line appending it to the buffer.
pub open spec fn literal_lines(src: u32, text: Seq<char>) -> Seq<(u32, Seq<char>)> {
    if text.len() == 0 {
        Seq::empty()
    } else {
        seq![(src, "__n = __n + 1; __b[__n] = "@ + lua_string(text))]
    }
}

/// Author-written Lua copied as it is, each of its lines mapped to its own.
pub open spec fn verbatim_lines(src: u32, code: Seq<char>) -> Seq<(u32, Seq<char>)> {
    let pieces = crate::text::split(code, '\n');
    Seq::new(pieces.len(), |k: int| (sat(src, k as nat), pieces[k]))
}

/// The generated lines one segment compiles to.
pub open spec fn segment_lines(seg: SegView) -> Seq<(u32, Seq<char>)> {
    match seg.kind {
        KindView::Text(t) => literal_lines(seg.line, t),
        KindView::Comment(_) => Seq::empty(),
        KindView::Code(b) => verbatim_lines(seg.line, b),
        KindView::Emit(b) => seq![(seg.line, "__n = __n + 1; __b[__n] = __esc("@)] + verbatim_lines(
            seg.line,
            b,
        ) + seq![(sat(seg.line, crate::text::newlines(b)), ")"@)],
        KindView::Raw(b) => seq![(seg.line, "__n = __n + 1; __b[__n] = __str("@)] + verbatim_lines(
            seg.line,
            b,
        ) + seq![(sat(seg.line, crate::text::newlines(b)), ")"@)],
    }
}

/// The source line a segment ends on.
pub open spec fn segment_end(seg: SegView) -> u32 {
    match seg.kind {
        KindView::Text(t) => sat(seg.line, crate::text::newlines(t)),
        KindView::Comment(b) => sat(seg.line, crate::text::newlines(b)),
        KindView::Code(b) => sat(seg.line, crate::text::newlines(b)),
        KindView::Emit(b) => sat(seg.line, crate::text::newlines(b)),
        KindView::Raw(b) => sat(seg.line, crate::text::newlines(b)),
    }
}

/// The generated lines of a run of segments, in order.
pub open spec fn body_lines(segs: Seq<SegView>) -> Seq<(u32, Seq<char>)>
    decreases segs.len(),
{
    if segs.len() == 0 {
        Seq::empty()
    } else {
        body_lines(segs.drop_last()) + segment_lines(segs.last())
    }
}

/// Every generated line of a template: the header, each segment's lines, the footer on
/// the line the last segment ends on.
pub open spec fn compiled_lines(segs: Seq<SegView>) -> Seq<(u32, Seq<char>)> {
    let last = if segs.len() == 0 { 1u32 } else { segment_end(segs.last()) };
    seq![(1u32, "local __concat, __esc, __str = ..."@), (1u32, "return function(_ENV)"@),
        (1u32, "local __b, __n = {}, 0"@)] + body_lines(segs) + seq![(last, "return __concat(__b)"@),
        (last, "end"@)]
}

/// Generated lines as text: each followed by a newline.
pub open spec fn joined(lines: Seq<(u32, Seq<char>)>) -> Seq<char>
    decreases lines.len(),
{
    if lines.len() == 0 {
        Seq::empty()
    } else {
        joined(lines.drop_last()) + lines.last().1 + seq!['\n']
    }
}

/// Generated lines' source lines.
pub open spec fn sources(lines: Seq<(u32, Seq<char>)>) -> Seq<u32> {
    lines.map_values(|l: (u32, Seq<char>)| l.0)
}

/// A template compiled to Lua.
#[derive(Debug, Clone, PartialEq, Eq)]
pub struct Compiled {
    /// The chunk: a factory that, called with `(table.concat, esc, str)`, returns the
    /// render function `function(_ENV) … end`.
    pub lua: String,
    /// Generated line → `.lsp` line.
    pub map: LineMap,
    /// The template as written.
    pub source: String,
}

proof fn lemma_joined_concat(a: Seq<(u32, Seq<char>)>, b: Seq<(u32, Seq<char>)>)
    ensures
        joined(a + b) == joined(a) + joined(b),
    decreases b.len(),
{
    if b.len() == 0 {
        assert(a + b =~= a);
        assert(joined(a) + joined(b) =~= joined(a));
    } else {
        lemma_joined_concat(a, b.drop_last());
        assert((a + b).drop_last() =~= a + b.drop_last());
        assert(joined(a) + (joined(b.drop_last()) + b.last().1 + seq!['\n']) =~= joined(a)
            + joined(b.drop_last()) + b.last().1 + seq!['\n']);
    }
}

struct Emitter {
    out: Vec<char>,
    map: Vec<u32>,
    lines: Ghost<Seq<(u32, Seq<char>)>>,
}

impl Emitter {
    spec fn wf(&self) -> bool {
        &&& self.out@ == joined(self.lines@)
        &&& self.map@ == sources(self.lines@)
    }

    fn new() -> (r: Emitter)
        ensures
            r.wf(),
            r.lines@ == Seq::<(u32, Seq<char>)>::empty(),
    {
        let r = Emitter { out: Vec::new(), map: Vec::new(), lines: Ghost(Seq::empty()) };
        proof {
            assert(sources(Seq::<(u32, Seq<char>)>::empty()) =~= Seq::<u32>::empty());
        }
        r
    }

    fn line(&mut self, src: u32, text: &[char])
        requires
            old(self).wf(),
        ensures
            final(self).wf(),
            final(self).lines@ == old(self).lines@.push((src, text@)),
    {
        push_all(&mut self.out, text);
        self.out.push('\n');
        self.map.push(src);
        let ghost before = self.lines@;
        self.lines = Ghost(before.push((src, text@)));
        proof {
            assert(self.lines@.drop_last() =~= before);
            assert(self.lines@.last() == (src, text@));
            assert(joined(self.lines@) == joined(before) + text@ + seq!['\n']);
            assert(self.out@ =~= joined(before) + text@ + seq!['\n']);
            assert(sources(self.lines@) =~= sources(before).push(src));
        }
    }

    fn line_str(&mut self, src: u32, text: &str)
        requires
            old(self).wf(),
        ensures
            final(self).wf(),
            final(self).lines@ == old(self).lines@.push((src, text@)),
    {
        let t = chars_of(text);
        self.line(src, t.as_slice());
    }

    fn verbatim(&mut self, src: u32, code: &[char])
        requires
            old(self).wf(),
            code@.len() < u32::MAX,
        ensures
            final(self).wf(),
            final(self).lines@ == old(self).lines@ + verbatim_lines(src, code@),
    {
        let ghost start = self.lines@;
        let n = code.len();
        let mut pos: usize = 0;
        let mut k: u32 = 0;
        proof {
            assert(code@.subrange(0, code@.len() as int) =~= code@);
            assert(start + numbered(src, 0, crate::text::split(code@, '\n')) =~= start
                + verbatim_lines(src, code@));
            assert(start =~= start + Seq::<(u32, Seq<char>)>::empty());
        }
        loop
            invariant
                self.wf(),
                start == old(self).lines@,
                n == code@.len(),
                n < u32::MAX,
                pos <= n,
                k <= pos,
                self.lines@ + numbered(
                    src,
                    k as int,
                    crate::text::split(code@.subrange(pos as int, n as int), '\n'),
                ) == start + verbatim_lines(src, code@),
            decreases n - pos,
        {
            let ghost rest = code@.subrange(pos as int, n as int);
            let ghost before = self.lines@;
            let nl = crate::text::find_char_in_rest(code, '\n', pos);
            let end = match nl {
                Some(i) => i,
                None => n,
            };
            let piece = slice_chars(code, pos, end);
            let line_no = if k > u32::MAX - src { u32::MAX } else { src + k };
            assert(line_no == sat(src, k as nat));
            self.line(line_no, piece.as_slice());
            match nl {
                Some(i) => {
                    proof {
                        let tail = crate::text::split(rest.subrange(i - pos + 1, rest.len() as int), '\n');
                        assert(piece@ =~= rest.subrange(0, i - pos));
                        assert(code@.subrange(i + 1, n as int) =~= rest.subrange(
                            i - pos + 1,
                            rest.len() as int,
                        ));
                        assert(crate::text::split(rest, '\n') == seq![piece@] + tail);
                        lemma_numbered_cons(src, k as int, piece@, tail);
                        assert(before.push((line_no, piece@)) + numbered(src, k + 1, tail) =~= before
                            + (seq![(sat(src, k as nat), piece@)] + numbered(src, k + 1, tail)));
                    }
                    pos = i + 1;
                    k = k + 1;
                },
                None => {
                    proof {
                        assert(piece@ =~= rest);
                        assert(crate::text::split(rest, '\n') == seq![rest]);
                        assert(numbered(src, k as int, seq![rest]) =~= seq![(sat(src, k as nat), rest)]);
                        assert(self.lines@ =~= before + numbered(src, k as int, seq![rest]));
                        assert(self.lines@ == start + verbatim_lines(src, code@));
                    }
                    return;
                },
            }
        }
    }
}

/// `pieces` numbered from `k0`: `(src + k0 + k, pieces[k])`, held at `u32::MAX`.
pub open spec fn numbered(src: u32, k0: int, pieces: Seq<Seq<char>>) -> Seq<(u32, Seq<char>)> {
    Seq::new(pieces.len(), |k: int| (sat(src, (k0 + k) as nat), pieces[k]))
}

proof fn lemma_numbered_cons(src: u32, k0: int, p: Seq<char>, tail: Seq<Seq<char>>)
    requires
        k0 >= 0,
    ensures
        numbered(src, k0, seq![p] + tail) == seq![(sat(src, k0 as nat), p)] + numbered(
            src,
            k0 + 1,
            tail,
        ),
{
    assert(numbered(src, k0, seq![p] + tail) =~= seq![(sat(src, k0 as nat), p)] + numbered(
        src,
        k0 + 1,
        tail,
    ));
}

} // verus!

verus! {

fn escape_into(out: &mut Vec<char>, c: char)
    ensures
        final(out)@ == old(out)@ + escape_char(c),
{
    if c == '"' {
        out.push('\\');
        out.push('"');
    } else if c == '\\' {
        out.push('\\');
        out.push('\\');
    } else if c == '\n' {
        out.push('\\');
        out.push('n');
    } else if c == '\r' {
        out.push('\\');
        out.push('r');
    } else if c == '\t' {
        out.push('\\');
        out.push('t');
    } else if (c as u32) < 0x20 || c as u32 == 0x7f {
        let n = c as u32;
        out.push('\\');
        let d = decimal_digit(n / 100);
        out.push(d);
        let d = decimal_digit((n / 10) % 10);
        out.push(d);
        let d = decimal_digit(n % 10);
        out.push(d);
    } else {
        out.push(c);
    }
    proof {
        assert(final(out)@ =~= old(out)@ + escape_char(c));
    }
}

fn decimal_digit(d: u32) -> (r: char)
    requires
        d < 10,
    ensures
        r == crate::text::digit_char(d as int),
{
    if d == 0 {
        '0'
    } else if d == 1 {
        '1'
    } else if d == 2 {
        '2'
    } else if d == 3 {
        '3'
    } else if d == 4 {
        '4'
    } else if d == 5 {
        '5'
    } else if d == 6 {
        '6'
    } else if d == 7 {
        '7'
    } else if d == 8 {
        '8'
    } else {
        '9'
    }
}

fn lua_string_into(out: &mut Vec<char>, text: &[char])
    ensures
        final(out)@ == old(out)@ + lua_string(text@),
{
    let ghost start = out@;
    out.push('"');
    let mut i: usize = 0;
    while i < text.len()
        invariant
            i <= text@.len(),
            out@ == start + seq!['"'] + escaped(text@.subrange(0, i as int)),
        decreases text.len() - i,
    {
        escape_into(out, text[i]);
        proof {
            assert(text@.subrange(0, i + 1).drop_last() =~= text@.subrange(0, i as int));
        }
        i = i + 1;
    }
    out.push('"');
    proof {
        assert(text@.subrange(0, text@.len() as int) =~= text@);
        assert(out@ =~= start + lua_string(text@));
    }
}

impl Emitter {
    fn literal(&mut self, src: u32, text: &[char])
        requires
            old(self).wf(),
        ensures
            final(self).wf(),
            final(self).lines@ == old(self).lines@ + literal_lines(src, text@),
    {
        if text.len() == 0 {
            proof {
                assert(self.lines@ + literal_lines(src, text@) =~= self.lines@);
            }
            return;
        }
        let mut line: Vec<char> = chars_of("__n = __n + 1; __b[__n] = ");
        lua_string_into(&mut line, text);
        self.line(src, line.as_slice());
        proof {
            assert(final(self).lines@ =~= old(self).lines@ + literal_lines(src, text@));
        }
    }

    fn segment(&mut self, seg: &Segment)
        requires
            old(self).wf(),
            (match seg.kind {
                SegmentKind::Text(t) => true,
                SegmentKind::Comment(b) => true,
                SegmentKind::Code(b) => b@.len() < u32::MAX,
                SegmentKind::Emit(b) => b@.len() < u32::MAX,
                SegmentKind::Raw(b) => b@.len() < u32::MAX,
            }),
        ensures
            final(self).wf(),
            final(self).lines@ == old(self).lines@ + segment_lines(seg@),
    {
        let line = seg.line;
        match &seg.kind {
            SegmentKind::Text(text) => {
                let t = chars_of(text.as_str());
                self.literal(line, t.as_slice());
            },
            SegmentKind::Comment(_) => {
                proof {
                    assert(self.lines@ + segment_lines(seg@) =~= self.lines@);
                }
            },
            SegmentKind::Code(body) => {
                let b = chars_of(body.as_str());
                self.verbatim(line, b.as_slice());
            },
            SegmentKind::Emit(body) => {
                let b = chars_of(body.as_str());
                let ghost start = self.lines@;
                self.line_str(line, "__n = __n + 1; __b[__n] = __esc(");
                self.verbatim(line, b.as_slice());
                let end = add_lines(line, b.as_slice(), 0, b.len());
                proof {
                    assert(b@.subrange(0, b@.len() as int) =~= b@);
                }
                self.line_str(end, ")");
                proof {
                    assert(self.lines@ =~= start + segment_lines(seg@));
                }
            },
            SegmentKind::Raw(body) => {
                let b = chars_of(body.as_str());
                let ghost start = self.lines@;
                self.line_str(line, "__n = __n + 1; __b[__n] = __str(");
                self.verbatim(line, b.as_slice());
                let end = add_lines(line, b.as_slice(), 0, b.len());
                proof {
                    assert(b@.subrange(0, b@.len() as int) =~= b@);
                }
                self.line_str(end, ")");
                proof {
                    assert(self.lines@ =~= start + segment_lines(seg@));
                }
            },
        }
    }
}

fn segment_end_exec(seg: &Segment) -> (r: u32)
    ensures
        r == segment_end(seg@),
{
    let body = match &seg.kind {
        SegmentKind::Text(s) => s,
        SegmentKind::Comment(s) => s,
        SegmentKind::Code(s) => s,
        SegmentKind::Emit(s) => s,
        SegmentKind::Raw(s) => s,
    };
    let b = chars_of(body.as_str());
    proof {
        assert(b@.subrange(0, b@.len() as int) =~= b@);
    }
    add_lines(seg.line, b.as_slice(), 0, b.len())
}

proof fn lemma_scan_bodies_short(src: Seq<char>, pos: int, line: u32)
    requires
        src.len() < u32::MAX,
    ensures
        match scan_from(src, pos, line) {
            Ok(segs) => all_short(segs, src.len() as int),
            Err(_) => true,
        },
    decreases src.len() + 1 - pos,
{
    if 0 <= pos <= src.len() {
        match index_of(src, tag_open(), pos) {
            None => {},
            Some(open) => {
                if !(open < pos || open + 2 > src.len()) {
                    let after = open + 2;
                    if after + 2 <= src.len() && src[after] == '-' && src[after + 1] == '-' {
                        match index_of(src, comment_end(), after + 2) {
                            None => {},
                            Some(end) => {
                                if !(end < after + 2 || end + 4 > src.len()) {
                                    lemma_scan_bodies_short(
                                        src,
                                        end + 4,
                                        sat(
                                            sat(line, crate::text::newlines(src.subrange(pos, open))),
                                            crate::text::newlines(src.subrange(after + 2, end)),
                                        ),
                                    );
                                }
                            },
                        }
                    } else {
                        let kind = tag_kind(src, after);
                        let start = body_start(after, kind);
                        match index_of(src, tag_close(), start) {
                            None => {},
                            Some(end) => {
                                if !(end < start || end + 2 > src.len()) {
                                    lemma_scan_bodies_short(
                                        src,
                                        end + 2,
                                        sat(
                                            sat(line, crate::text::newlines(src.subrange(pos, open))),
                                            crate::text::newlines(src.subrange(start, end)),
                                        ),
                                    );
                                }
                            },
                        }
                    }
                }
            },
        }
    }
}

/// Every segment's text no longer than `n`.
pub open spec fn all_short(segs: Seq<SegView>, n: int) -> bool {
    forall|k: int| 0 <= k < segs.len() ==> short_seg(#[trigger] segs[k], n)
}

/// A segment whose text is no longer than `n`.
pub open spec fn short_seg(seg: SegView, n: int) -> bool {
    match seg.kind {
        KindView::Text(t) => t.len() <= n,
        KindView::Comment(b) => b.len() <= n,
        KindView::Code(b) => b.len() <= n,
        KindView::Emit(b) => b.len() <= n,
        KindView::Raw(b) => b.len() <= n,
    }
}

/// Compile one template, or say where it stopped.
pub fn compile(source: &str) -> (r: Result<Compiled, CompileError>)
    requires
        source@.len() < u32::MAX,
    ensures
        match r {
            Ok(c) => scanned(source@) matches Ok(segs) && c.lua@ == joined(compiled_lines(segs))
                && c.map@ == sources(compiled_lines(segs)) && c.source@ == source@,
            Err(e) => scanned(source@) == Err::<Seq<SegView>, ErrView>(e@),
        },
{
    let segments = match scan(source) {
        Ok(s) => s,
        Err(e) => {
            return Err(e);
        },
    };
    let ghost segs = segments@.map_values(|s: Segment| s@);
    proof {
        lemma_scan_bodies_short(source@, 0, 1);
        assert(scan_from(source@, 0, 1) == Ok::<Seq<SegView>, ErrView>(segs));
        assert(all_short(segs, source@.len() as int));
    }
    let mut emitter = Emitter::new();
    emitter.line_str(1, "local __concat, __esc, __str = ...");
    emitter.line_str(1, "return function(_ENV)");
    emitter.line_str(1, "local __b, __n = {}, 0");
    let ghost header = emitter.lines@;
    let mut last: u32 = 1;
    let mut k: usize = 0;
    while k < segments.len()
        invariant
            k <= segments@.len(),
            segs == segments@.map_values(|s: Segment| s@),
            forall|j: int| 0 <= j < segs.len() ==> short_seg(#[trigger] segs[j], source@.len() as int),
            source@.len() < u32::MAX,
            emitter.wf(),
            emitter.lines@ == header + body_lines(segs.subrange(0, k as int)),
            last == if k == 0 { 1u32 } else { segment_end(segs[k - 1]) },
        decreases segments.len() - k,
    {
        let seg = &segments[k];
        proof {
            assert(short_seg(segs[k as int], source@.len() as int));
            assert(segs[k as int] == seg@);
            assert(segs.subrange(0, k + 1).drop_last() =~= segs.subrange(0, k as int));
        }
        emitter.segment(seg);
        last = segment_end_exec(seg);
        proof {
            assert(emitter.lines@ =~= header + body_lines(segs.subrange(0, k + 1)));
        }
        k = k + 1;
    }
    emitter.line_str(last, "return __concat(__b)");
    emitter.line_str(last, "end");
    proof {
        assert(segs.subrange(0, k as int) =~= segs);
        assert(emitter.lines@ =~= compiled_lines(segs));
    }
    Ok(Compiled {
        lua: string_of(emitter.out.as_slice()),
        map: LineMap { source: emitter.map },
        source: String::from_str(source),
    })
}


impl LineMap {
    /// A copy holding the same map.
    pub fn duplicate(&self) -> (r: LineMap)
        ensures
            r@ == self@,
    {
        LineMap { source: self.source.clone() }
    }
}

impl Compiled {
    /// A copy holding the same chunk, map and source.
    pub fn duplicate(&self) -> (r: Compiled)
        ensures
            r.lua@ == self.lua@,
            r.map@ == self.map@,
            r.source@ == self.source@,
    {
        Compiled { lua: self.lua.clone(), map: self.map.duplicate(), source: self.source.clone() }
    }
}

/// What a view file is compared by between two scans: its modification time in
/// nanoseconds since the Unix epoch, when the platform reports one, and its length.
#[derive(Debug, Clone, Copy, PartialEq, Eq, Structural)]
pub struct Stat {
    /// Modification time, nanoseconds since the Unix epoch.
    pub mtime: Option<i128>,
    /// Length in bytes.
    pub len: u64,
}

/// One `views/<name>.lsp` as a scan found it: its name, its stat, and its text.
#[derive(Debug, Clone)]
pub struct ViewFile {
    /// The view name: the file name without `.lsp`.
    pub name: String,
    /// Its stat.
    pub stat: Stat,
    /// Its text.
    pub source: String,
}

/// One template as every VM of the app sees it.
#[derive(Debug)]
pub struct CompiledView {
    /// The view name.
    pub name: String,
    /// The chunk and its map.
    pub compiled: Compiled,
    stat: Stat,
    /// The generation this compile belongs to; a VM's loaded chunk is keyed by it.
    pub generation: u64,
}

/// A compiled view as plain values.
pub struct CompiledViewView {
    pub name: Seq<char>,
    pub lua: Seq<char>,
    pub map: Seq<u32>,
    pub source: Seq<char>,
    pub stat: Stat,
    pub generation: u64,
}

impl View for CompiledView {
    type V = CompiledViewView;

    closed spec fn view(&self) -> CompiledViewView {
        CompiledViewView {
            name: self.name@,
            lua: self.compiled.lua@,
            map: self.compiled.map@,
            source: self.compiled.source@,
            stat: self.stat,
            generation: self.generation,
        }
    }
}

/// `views/<name>.lsp`, as messages spell it.
pub open spec fn chunk_of(name: Seq<char>) -> Seq<char> {
    "views/"@ + name + ".lsp"@
}

impl CompiledView {
    /// `views/<name>.lsp`, as messages spell it.
    pub fn chunk_name(&self) -> (r: String)
        ensures
            r@ == chunk_of(self@.name),
    {
        let mut out: Vec<char> = Vec::new();
        push_str(&mut out, "views/");
        push_str(&mut out, self.name.as_str());
        push_str(&mut out, ".lsp");
        string_of(out.as_slice())
    }

    fn duplicate(&self) -> (r: CompiledView)
        ensures
            r@ == self@,
    {
        CompiledView {
            name: self.name.clone(),
            compiled: self.compiled.duplicate(),
            stat: self.stat,
            generation: self.generation,
        }
    }
}

pub open spec fn views_of(v: Seq<CompiledView>) -> Seq<CompiledViewView> {
    v.map_values(|c: CompiledView| c@)
}

/// The first view named `name`.
pub open spec fn view_named(views: Seq<CompiledViewView>, name: Seq<char>) -> Option<CompiledViewView>
    decreases views.len(),
{
    if views.len() == 0 {
        None
    } else if views[0].name == name {
        Some(views[0])
    } else {
        view_named(views.drop_first(), name)
    }
}

/// The message a template that does not compile fails its load with.
pub open spec fn compile_failure(name: Seq<char>, e: ErrView) -> Seq<char> {
    "views/"@ + name + ".lsp:"@ + decimal(e.line as nat) + ": "@ + e.message
}

/// The files compiled in order into a generation: a view whose stat is unchanged from
/// the one of that name in `previous` is kept as it was; any other is compiled fresh and
/// stamped `generation`. The first template that does not compile is the error.
pub open spec fn compile_dir_spec(
    files: Seq<(Seq<char>, Stat, Seq<char>)>,
    previous: Seq<CompiledViewView>,
    generation: u64,
) -> Result<Seq<CompiledViewView>, Seq<char>>
    decreases files.len(),
{
    if files.len() == 0 {
        Ok(Seq::empty())
    } else {
        match compile_dir_spec(files.drop_last(), previous, generation) {
            Err(e) => Err(e),
            Ok(done) => {
                let (name, stat, source) = files.last();
                match view_named(previous, name) {
                    Some(v) if v.stat == stat => Ok(done.push(v)),
                    _ => match scanned(source) {
                        Err(e) => Err(compile_failure(name, e)),
                        Ok(segs) => Ok(
                            done.push(
                                CompiledViewView {
                                    name,
                                    lua: joined(compiled_lines(segs)),
                                    map: sources(compiled_lines(segs)),
                                    source,
                                    stat,
                                    generation,
                                },
                            ),
                        ),
                    },
                }
            },
        }
    }
}

pub open spec fn files_of(files: Seq<ViewFile>) -> Seq<(Seq<char>, Stat, Seq<char>)> {
    files.map_values(|f: ViewFile| (f.name@, f.stat, f.source@))
}

pub open spec fn stats_of(files: Seq<ViewFile>) -> Seq<(Seq<char>, Stat)> {
    files.map_values(|f: ViewFile| (f.name@, f.stat))
}

pub open spec fn sources_fit(files: Seq<ViewFile>) -> bool {
    forall|i: int| 0 <= i < files.len() ==> #[trigger] files[i].source@.len() < u32::MAX
}

fn find_view(views: &[CompiledView], name: &[char]) -> (r: Option<usize>)
    ensures
        match r {
            Some(i) => i < views@.len() && view_named(views_of(views@), name@) == Some(views@[i as int]@),
            None => view_named(views_of(views@), name@) is None,
        },
{
    let ghost vs = views_of(views@);
    assert(vs.skip(0) =~= vs);
    let mut i: usize = 0;
    while i < views.len()
        invariant
            i <= views@.len(),
            vs == views_of(views@),
            view_named(vs, name@) == view_named(vs.skip(i as int), name@),
        decreases views.len() - i,
    {
        let n = chars_of(views[i].name.as_str());
        assert(vs.skip(i as int)[0] == views@[i as int]@);
        assert(vs.skip(i as int).drop_first() =~= vs.skip(i + 1));
        if same_chars(n.as_slice(), name) {
            return Some(i);
        }
        i = i + 1;
    }
    None
}

/// Where a view named `name` goes among `r`, looking from `from`: before the first whose
/// name comes after it, else at the end.
pub open spec fn name_slot(r: Seq<(Seq<char>, Stat, Seq<char>)>, name: Seq<char>, from: int) -> int
    decreases r.len() - from,
{
    if from >= r.len() || from < 0 {
        r.len() as int
    } else if crate::text::lex_lt(name, r[from].0) {
        from
    } else {
        name_slot(r, name, from + 1)
    }
}

/// The views in name order (a stable insertion sort by name), the order they are
/// compiled in and the first failure is found in.
pub open spec fn by_name(fs: Seq<(Seq<char>, Stat, Seq<char>)>) -> Seq<(Seq<char>, Stat, Seq<char>)>
    decreases fs.len(),
{
    if fs.len() == 0 {
        fs
    } else {
        let r = by_name(fs.drop_last());
        r.insert(name_slot(r, fs.last().0, 0), fs.last())
    }
}

fn sort_by_name(files: &[ViewFile]) -> (r: Vec<ViewFile>)
    requires
        sources_fit(files@),
    ensures
        files_of(r@) == by_name(files_of(files@)),
        sources_fit(r@),
{
    let ghost all = files_of(files@);
    let mut sorted: Vec<ViewFile> = Vec::new();
    let mut i: usize = 0;
    assert(files_of(sorted@) =~= Seq::<(Seq<char>, Stat, Seq<char>)>::empty());
    assert(all.take(0) =~= Seq::<(Seq<char>, Stat, Seq<char>)>::empty());
    while i < files.len()
        invariant
            i <= files@.len(),
            all == files_of(files@),
            sources_fit(files@),
            sources_fit(sorted@),
            files_of(sorted@) == by_name(all.take(i as int)),
        decreases files.len() - i,
    {
        let f = &files[i];
        let x = ViewFile { name: f.name.clone(), stat: f.stat, source: f.source.clone() };
        let xn = chars_of(x.name.as_str());
        let ghost r = files_of(sorted@);
        let mut p: usize = 0;
        while p < sorted.len() && !crate::text::lex_lt_exec(xn.as_slice(), chars_of(sorted[p].name.as_str()).as_slice())
            invariant
                p <= sorted@.len(),
                r == files_of(sorted@),
                xn@ == x.name@,
                name_slot(r, x.name@, 0) == name_slot(r, x.name@, p as int),
            decreases sorted.len() - p,
        {
            p = p + 1;
        }
        proof {
            assert(all.take(i + 1).drop_last() =~= all.take(i as int));
            assert(all.take(i + 1).last() == all[i as int]);
            assert(all[i as int] == (x.name@, x.stat, x.source@));
        }
        let ghost before = sorted@;
        sorted.insert(p, x);
        proof {
            assert(files_of(sorted@) =~= r.insert(p as int, (x.name@, x.stat, x.source@)));
            assert forall|k: int| 0 <= k < sorted@.len() implies #[trigger] sorted@[k].source@.len() < u32::MAX by {
                if k < p {
                    assert(sorted@[k] == before[k]);
                } else if k > p {
                    assert(sorted@[k] == before[k - 1]);
                } else {
                    assert(files@[i as int].source@.len() < u32::MAX);
                }
            }
        }
        i = i + 1;
    }
    proof {
        assert(all.take(all.len() as int) =~= all);
    }
    sorted
}

/// Compile the views in name order, each anew or kept from `previous` when its stat is
/// unchanged; the first that does not compile, in name order, is the error.
fn compile_dir(files: &[ViewFile], previous: &[CompiledView], generation: u64) -> (r: Result<
    Vec<CompiledView>,
    String,
>)
    requires
        sources_fit(files@),
    ensures
        match r {
            Ok(v) => compile_dir_spec(by_name(files_of(files@)), views_of(previous@), generation) == Ok::<
                Seq<CompiledViewView>,
                Seq<char>,
            >(views_of(v@)),
            Err(e) => compile_dir_spec(by_name(files_of(files@)), views_of(previous@), generation) == Err::<
                Seq<CompiledViewView>,
                Seq<char>,
            >(e@),
        },
{
    let sorted = sort_by_name(files);
    compile_listed(sorted.as_slice(), previous, generation)
}

/// Compile the views in the order listed.
fn compile_listed(files: &[ViewFile], previous: &[CompiledView], generation: u64) -> (r: Result<
    Vec<CompiledView>,
    String,
>)
    requires
        sources_fit(files@),
    ensures
        match r {
            Ok(v) => compile_dir_spec(files_of(files@), views_of(previous@), generation) == Ok::<
                Seq<CompiledViewView>,
                Seq<char>,
            >(views_of(v@)),
            Err(e) => compile_dir_spec(files_of(files@), views_of(previous@), generation) == Err::<
                Seq<CompiledViewView>,
                Seq<char>,
            >(e@),
        },
{
    let ghost fs = files_of(files@);
    let ghost pv = views_of(previous@);
    let mut out: Vec<CompiledView> = Vec::new();
    assert(fs.take(0) =~= Seq::<(Seq<char>, Stat, Seq<char>)>::empty());
    assert(views_of(out@) =~= Seq::<CompiledViewView>::empty());
    let mut i: usize = 0;
    while i < files.len()
        invariant
            i <= files@.len(),
            fs == files_of(files@),
            pv == views_of(previous@),
            sources_fit(files@),
            compile_dir_spec(fs.take(i as int), pv, generation) == Ok::<Seq<CompiledViewView>, Seq<char>>(
                views_of(out@),
            ),
        decreases files.len() - i,
    {
        let ghost done = views_of(out@);
        proof {
            assert(fs.take(i + 1).drop_last() =~= fs.take(i as int));
            assert(fs.take(i + 1).last() == fs[i as int]);
            assert(fs[i as int] == (files@[i as int].name@, files@[i as int].stat, files@[i as int].source@));
        }
        let name = chars_of(files[i].name.as_str());
        let found = find_view(previous, name.as_slice());
        let reuse = match found {
            Some(k) => previous[k].stat == files[i].stat,
            None => false,
        };
        if reuse {
            let k = match found {
                Some(k) => k,
                None => 0,
            };
            let v = previous[k].duplicate();
            out.push(v);
            assert(views_of(out@) =~= done.push(previous@[k as int]@));
        } else {
            assert(files@[i as int].source@.len() < u32::MAX);
            match compile(files[i].source.as_str()) {
                Err(e) => {
                    let mut msg: Vec<char> = Vec::new();
                    push_str(&mut msg, "views/");
                    push_str(&mut msg, files[i].name.as_str());
                    push_str(&mut msg, ".lsp:");
                    let d = decimal_exec(e.line as u64);
                    push_all(&mut msg, d.as_slice());
                    push_str(&mut msg, ": ");
                    push_str(&mut msg, e.message.as_str());
                    proof {
                        lemma_compile_dir_err(fs, pv, generation, i as int);
                    }
                    return Err(string_of(msg.as_slice()));
                },
                Ok(c) => {
                    out.push(CompiledView {
                        name: files[i].name.clone(),
                        compiled: c,
                        stat: files[i].stat,
                        generation,
                    });
                    assert(views_of(out@) =~= done.push(out@.last()@));
                },
            }
        }
        i = i + 1;
    }
    assert(fs.take(files@.len() as int) =~= fs);
    Ok(out)
}

proof fn lemma_compile_dir_err(
    fs: Seq<(Seq<char>, Stat, Seq<char>)>,
    pv: Seq<CompiledViewView>,
    generation: u64,
    i: int,
)
    requires
        0 <= i < fs.len(),
        compile_dir_spec(fs.take(i + 1), pv, generation) is Err,
    ensures
        compile_dir_spec(fs, pv, generation) == compile_dir_spec(fs.take(i + 1), pv, generation),
    decreases fs.len() - i,
{
    if i + 1 < fs.len() {
        assert(fs.take(i + 2).drop_last() =~= fs.take(i + 1));
        lemma_compile_dir_err(fs, pv, generation, i + 1);
    } else {
        assert(fs.take(i + 1) =~= fs);
    }
}

/// A recompiled generation that is not current yet: what a reload holds while a VM
/// checks that every chunk parses, and what it publishes only then.
#[derive(Debug)]
pub struct Candidate {
    views: Vec<CompiledView>,
    stat: Vec<(String, Stat)>,
    generation: u64,
}

impl Candidate {
    /// The views this generation would publish, as plain values.
    pub closed spec fn views_spec(&self) -> Seq<CompiledViewView> {
        views_of(self.views@)
    }

    /// The stat of the files it was compiled from.
    pub closed spec fn stat_spec(&self) -> Seq<(Seq<char>, Stat)> {
        stat_pairs(self.stat@)
    }

    /// The generation it was compiled as.
    pub closed spec fn generation_spec(&self) -> u64 {
        self.generation
    }

    /// The views this generation would publish.
    pub fn views(&self) -> (r: &[CompiledView])
        ensures
            views_of(r@) == self.views_spec(),
    {
        self.views.as_slice()
    }
}

/// An app's compiled templates: the current snapshot, the generation counter that
/// invalidates the per-VM chunks, and the stat of the last edit that failed to load — so
/// the same broken files are not recompiled on every request, only the next edit.
#[derive(Debug)]
pub struct Templates {
    current: Vec<CompiledView>,
    generation: u64,
    published: u64,
    failed: Option<Vec<(String, Stat)>>,
}

pub open spec fn stat_pairs(v: Seq<(String, Stat)>) -> Seq<(Seq<char>, Stat)> {
    v.map_values(|e: (String, Stat)| (e.0@, e.1))
}

/// Whether the files on disk differ from what was compiled: not when they are exactly the
/// edit that last failed to load; otherwise when a view appeared or vanished, or one
/// moved by its stat.
pub open spec fn changed_spec(
    on_disk: Seq<(Seq<char>, Stat)>,
    current: Seq<CompiledViewView>,
    failed: Option<Seq<(Seq<char>, Stat)>>,
) -> bool {
    if failed == Some(on_disk) {
        false
    } else {
        on_disk.len() != current.len() || exists|i: int|
            0 <= i < on_disk.len() && match view_named(current, #[trigger] on_disk[i].0) {
                None => true,
                Some(v) => v.stat != on_disk[i].1,
            }
    }
}

/// An edit that failed to load is not compiled again while the files stand as they did:
/// with those files remembered as the failed edit, they read as unchanged, whatever the
/// snapshot holds.
pub proof fn lemma_failed_edit_waits_for_the_next(
    on_disk: Seq<(Seq<char>, Stat)>,
    current: Seq<CompiledViewView>,
)
    ensures
        !changed_spec(on_disk, current, Some(on_disk)),
{
}

/// Any other listing is judged against the snapshot: a view more or fewer than the
/// snapshot holds is a change, whatever failed before.
pub proof fn lemma_a_view_more_or_fewer_is_a_change(
    on_disk: Seq<(Seq<char>, Stat)>,
    current: Seq<CompiledViewView>,
    failed: Option<Seq<(Seq<char>, Stat)>>,
)
    requires
        failed != Some(on_disk),
        on_disk.len() != current.len(),
    ensures
        changed_spec(on_disk, current, failed),
{
}

/// `message` with every generated line of the views from `k` on rewritten to its `.lsp`
/// line.
pub open spec fn rewrite_views(views: Seq<CompiledViewView>, message: Seq<char>, k: int) -> Seq<char>
    decreases views.len() - k,
{
    if k >= views.len() || k < 0 {
        message
    } else {
        let chunk = chunk_of(views[k].name);
        let next = if crate::text::contains_seq(message, chunk) {
            rewritten(views[k].map, message, chunk)
        } else {
            message
        };
        rewrite_views(views, next, k + 1)
    }
}

impl Templates {
    /// The current views, the generation and the failed edit, as plain values.
    pub closed spec fn current_views(&self) -> Seq<CompiledViewView> {
        views_of(self.current@)
    }

    /// The last generation handed out: the next compile is one past it.
    pub closed spec fn generation_spec(&self) -> u64 {
        self.generation
    }

    /// The generation of the current snapshot.
    pub closed spec fn snapshot_generation(&self) -> u64 {
        self.published
    }

    pub closed spec fn failed_spec(&self) -> Option<Seq<(Seq<char>, Stat)>> {
        match self.failed {
            Some(f) => Some(stat_pairs(f@)),
            None => None,
        }
    }

    /// Compile every view file of an app, in name order. A template that does not compile
    /// fails the app's load naming the file and line; the first in name order does.
    pub fn load(files: &[ViewFile]) -> (r: Result<Templates, String>)
        requires
            sources_fit(files@),
        ensures
            match r {
                Ok(t) => compile_dir_spec(by_name(files_of(files@)), Seq::empty(), 1) == Ok::<
                    Seq<CompiledViewView>,
                    Seq<char>,
                >(t.current_views()) && t.generation_spec() == 1 && t.snapshot_generation() == 1 && t.failed_spec() is None,
                Err(e) => compile_dir_spec(by_name(files_of(files@)), Seq::empty(), 1) == Err::<
                    Seq<CompiledViewView>,
                    Seq<char>,
                >(e@),
            },
    {
        let none: Vec<CompiledView> = Vec::new();
        assert(views_of(none@) =~= Seq::<CompiledViewView>::empty());
        match compile_dir(files, none.as_slice(), 1) {
            Ok(views) => Ok(Templates { current: views, generation: 1, published: 1, failed: None }),
            Err(e) => Err(e),
        }
    }

    /// The current snapshot. A run resolves every view against it.
    pub fn snapshot(&self) -> (r: &[CompiledView])
        ensures
            views_of(r@) == self.current_views(),
    {
        self.current.as_slice()
    }

    /// The generation of the current snapshot.
    pub fn generation(&self) -> (r: u64)
        ensures
            r == self.snapshot_generation(),
    {
        self.published
    }

    /// Whether another generation can be prepared: the counter has not reached its last
    /// value.
    pub fn can_prepare(&self) -> (r: bool)
        ensures
            r == (self.generation_spec() < u64::MAX),
    {
        self.generation < u64::MAX
    }

    /// Whether a view appeared, vanished, or moved by its stat since the snapshot was
    /// compiled — or since the last edit that failed to load, which is not worth
    /// compiling again until it changes.
    pub fn changed(&self, on_disk: &[(String, Stat)]) -> (r: bool)
        ensures
            r == changed_spec(stat_pairs(on_disk@), self.current_views(), self.failed_spec()),
    {
        let ghost od = stat_pairs(on_disk@);
        match &self.failed {
            Some(f) => {
                if f.len() == on_disk.len() {
                    let mut same = true;
                    assert(stat_pairs(f@).take(0) =~= od.take(0));
                    let mut i: usize = 0;
                    while i < f.len()
                        invariant
                            i <= f@.len(),
                            f@.len() == on_disk@.len(),
                            od == stat_pairs(on_disk@),
                            same == (stat_pairs(f@).take(i as int) == od.take(i as int)),
                        decreases f.len() - i,
                    {
                        let a = chars_of(f[i].0.as_str());
                        let b = chars_of(on_disk[i].0.as_str());
                        let eq = same_chars(a.as_slice(), b.as_slice()) && f[i].1 == on_disk[i].1;
                        proof {
                            let x = stat_pairs(f@);
                            if same && eq {
                                assert(x.take(i + 1) =~= od.take(i + 1));
                            }
                            if !eq {
                                assert(x.take(i + 1)[i as int] != od.take(i + 1)[i as int]);
                            }
                            if !same {
                                assert(x.take(i as int) != od.take(i as int));
                                if x.take(i + 1) == od.take(i + 1) {
                                    assert(x.take(i as int) =~= x.take(i + 1).take(i as int));
                                    assert(od.take(i as int) =~= od.take(i + 1).take(i as int));
                                }
                            }
                        }
                        same = same && eq;
                        i = i + 1;
                    }
                    assert(stat_pairs(f@).take(f@.len() as int) =~= stat_pairs(f@));
                    assert(od.take(f@.len() as int) =~= od);
                    if same {
                        return false;
                    }
                    assert(self.failed_spec() != Some(od));
                } else {
                    assert(stat_pairs(f@).len() != od.len());
                    assert(self.failed_spec() != Some(od));
                }
            },
            None => {},
        }
        assert(self.failed_spec() != Some(od));
        if on_disk.len() != self.current.len() {
            return true;
        }
        let mut i: usize = 0;
        while i < on_disk.len()
            invariant
                i <= on_disk@.len(),
                od == stat_pairs(on_disk@),
                self.failed_spec() != Some(od),
                forall|j: int| 0 <= j < i ==> match view_named(views_of(self.current@), #[trigger] od[j].0) {
                    None => false,
                    Some(v) => v.stat == od[j].1,
                },
            decreases on_disk.len() - i,
        {
            let name = chars_of(on_disk[i].0.as_str());
            assert(od[i as int].0 == name@);
            match find_view(self.current.as_slice(), name.as_slice()) {
                None => {
                    assert(match view_named(views_of(self.current@), od[i as int].0) {
                        None => true,
                        Some(v) => v.stat != od[i as int].1,
                    });
                    return true;
                },
                Some(k) => {
                    if self.current[k].stat != on_disk[i].1 {
                        assert(match view_named(views_of(self.current@), od[i as int].0) {
                            None => true,
                            Some(v) => v.stat != od[i as int].1,
                        });
                        return true;
                    }
                },
            }
            i = i + 1;
        }
        false
    }

    /// Recompile what changed into a candidate generation, publishing nothing. Unchanged
    /// views keep their generation, so a VM's loaded chunk for them stays valid. A
    /// template that does not compile is the error (the first in name order, whatever the
    /// order `files` lists them in), and the files as they stand are remembered so
    /// [`changed`](Self::changed) waits for the next edit.
    pub fn prepare(&mut self, files: &[ViewFile]) -> (r: Result<Candidate, String>)
        requires
            old(self).generation_spec() < u64::MAX,
            sources_fit(files@),
        ensures
            final(self).generation_spec() == old(self).generation_spec() + 1,
            final(self).snapshot_generation() == old(self).snapshot_generation(),
            final(self).current_views() == old(self).current_views(),
            match r {
                Ok(c) => c.generation_spec() == old(self).generation_spec() + 1 && compile_dir_spec(
                    by_name(files_of(files@)),
                    old(self).current_views(),
                    (old(self).generation_spec() + 1) as u64,
                ) == Ok::<Seq<CompiledViewView>, Seq<char>>(c.views_spec()) && c.stat_spec()
                    == stats_of(files@) && final(self).failed_spec() == old(self).failed_spec(),
                Err(e) => compile_dir_spec(
                    by_name(files_of(files@)),
                    old(self).current_views(),
                    (old(self).generation_spec() + 1) as u64,
                ) == Err::<Seq<CompiledViewView>, Seq<char>>(e@) && final(self).failed_spec() == Some(
                    stats_of(files@),
                ),
            },
    {
        self.generation = self.generation + 1;
        let generation = self.generation;
        let mut stat: Vec<(String, Stat)> = Vec::new();
        assert(stat_pairs(stat@) =~= stats_of(files@.take(0)));
        let mut i: usize = 0;
        while i < files.len()
            invariant
                i <= files@.len(),
                stat_pairs(stat@) == stats_of(files@.take(i as int)),
            decreases files.len() - i,
        {
            let ghost before = stat@;
            stat.push((files[i].name.clone(), files[i].stat));
            assert(stat@ == before.push(stat@.last()));
            assert(stat_pairs(stat@) =~= stat_pairs(before).push((files@[i as int].name@, files@[i as int].stat)));
            assert(stats_of(files@.take(i + 1)) =~= stats_of(files@.take(i as int)).push(
                (files@[i as int].name@, files@[i as int].stat),
            ));
            i = i + 1;
        }
        assert(files@.take(files@.len() as int) =~= files@);
        match compile_dir(files, self.current.as_slice(), generation) {
            Ok(views) => Ok(Candidate { views, stat, generation }),
            Err(error) => {
                self.failed = Some(stat);
                Err(error)
            },
        }
    }

    /// Make a candidate the snapshot every later request resolves against, once the
    /// caller has proven it loads.
    pub fn publish(&mut self, candidate: Candidate)
        ensures
            final(self).current_views() == candidate.views_spec(),
            final(self).generation_spec() == old(self).generation_spec(),
            final(self).snapshot_generation() == candidate.generation_spec(),
            final(self).failed_spec() is None,
    {
        self.current = candidate.views;
        self.published = candidate.generation;
        self.failed = None;
    }

    /// A candidate that compiled but did not load in a VM: keep serving what is current
    /// and do not try these files again until they change.
    pub fn refuse(&mut self, candidate: Candidate)
        ensures
            final(self).current_views() == old(self).current_views(),
            final(self).generation_spec() == old(self).generation_spec(),
            final(self).snapshot_generation() == old(self).snapshot_generation(),
            final(self).failed_spec() == Some(candidate.stat_spec()),
    {
        self.failed = Some(candidate.stat);
    }

    /// `message` with every generated line of every view rewritten to its `.lsp` line.
    pub fn rewrite(&self, message: &str) -> (r: String)
        ensures
            r@ == rewrite_views(self.current_views(), message@, 0),
    {
        let ghost vs = views_of(self.current@);
        let mut text = message.to_string();
        let mut k: usize = 0;
        while k < self.current.len()
            invariant
                k <= self.current@.len(),
                vs == views_of(self.current@),
                rewrite_views(vs, text@, k as int) == rewrite_views(vs, message@, 0),
            decreases self.current.len() - k,
        {
            let chunk = self.current[k].chunk_name();
            let t = chars_of(text.as_str());
            let c = chars_of(chunk.as_str());
            assert(vs[k as int].map == self.current@[k as int].compiled.map@);
            if crate::text::contains_exec(t.as_slice(), c.as_slice()) {
                text = self.current[k].compiled.map.rewrite(text.as_str(), chunk.as_str());
            }
            k = k + 1;
        }
        text
    }
}

} // verus!
