//! The template rules that read a view's literal text: the HTML skeleton, line-aligned
//! with the `.lsp` source, that the element rules run over; the quoted attributes of the
//! literal text with their offsets; the heading tags of a piece of text with their lines;
//! and `PV204`, a non-GET form that carries no token.

use vstd::prelude::*;
use crate::lint::html::{attr_of, elem_v, find_all_spec, refs_v, Element, ElemV};
use crate::lint::{severity_of, spec_of, trim_end_slashes, Ctx, Finding, RuleId};
use crate::lua::lsp::{KindView, SegView, Segment, SegmentKind};
use crate::text::{chars_of, lowered, lowered_exec, newlines, push_str, same_chars, slice_chars, string_of, utf8_len};

verus! {

/// The newlines of `s`, nothing else.
pub open spec fn nl_only(s: Seq<char>) -> Seq<char>
    decreases s.len(),
{
    if s.len() == 0 {
        Seq::empty()
    } else {
        nl_only(s.drop_last()) + if s.last() == '\n' {
            seq!['\n']
        } else {
            Seq::empty()
        }
    }
}

/// How many segments emit a value.
pub open spec fn emit_count(segs: Seq<SegView>) -> nat
    decreases segs.len(),
{
    if segs.len() == 0 {
        0
    } else {
        emit_count(segs.drop_last()) + match segs.last().kind {
            KindView::Emit(_) | KindView::Raw(_) => 1nat,
            _ => 0nat,
        }
    }
}

/// The HTML a template's segments make: literal text as it is, each emit replaced by the
/// HTML it stands for (`emits`, in order), and every newline of a tag's body kept.
pub open spec fn synth(segs: Seq<SegView>, emits: Seq<Seq<char>>) -> Seq<char>
    decreases segs.len(),
{
    if segs.len() == 0 {
        Seq::empty()
    } else {
        synth(segs.drop_last(), emits) + match segs.last().kind {
            KindView::Text(t) => t,
            KindView::Comment(b) => nl_only(b),
            KindView::Code(b) => nl_only(b),
            KindView::Emit(b) => emits[emit_count(segs.drop_last()) as int] + nl_only(b),
            KindView::Raw(b) => emits[emit_count(segs.drop_last()) as int] + nl_only(b),
        }
    }
}

/// The newlines of a template's segments: of its text and of its tags' bodies.
pub open spec fn seg_newlines(segs: Seq<SegView>) -> nat
    decreases segs.len(),
{
    if segs.len() == 0 {
        0
    } else {
        seg_newlines(segs.drop_last()) + match segs.last().kind {
            KindView::Text(t) => newlines(t),
            KindView::Comment(b) => newlines(b),
            KindView::Code(b) => newlines(b),
            KindView::Emit(b) => newlines(b),
            KindView::Raw(b) => newlines(b),
        }
    }
}

pub proof fn lemma_nl_only(s: Seq<char>)
    ensures
        newlines(nl_only(s)) == newlines(s),
    decreases s.len(),
{
    if s.len() > 0 {
        lemma_nl_only(s.drop_last());
        crate::text::lemma_newlines_concat(
            nl_only(s.drop_last()),
            if s.last() == '\n' { seq!['\n'] } else { Seq::<char>::empty() },
        );
        if s.last() == '\n' {
            assert(seq!['\n'].drop_last() =~= Seq::<char>::empty());
            assert(newlines(Seq::<char>::empty()) == 0);
            assert(newlines(seq!['\n']) == 1);
        } else {
            assert(newlines(Seq::<char>::empty()) == 0);
        }
    }
}

/// The skeleton keeps the template's lines: where no emitted HTML holds a newline, it has
/// exactly the newlines of the template's text and tags.
pub proof fn lemma_synth_keeps_lines(segs: Seq<SegView>, emits: Seq<Seq<char>>)
    requires
        forall|k: int| 0 <= k < emits.len() ==> newlines(#[trigger] emits[k]) == 0,
        emits.len() == emit_count(segs),
    ensures
        newlines(synth(segs, emits)) == seg_newlines(segs),
    decreases segs.len(),
{
    if segs.len() > 0 {
        let init = segs.drop_last();
        lemma_emit_count_grows(segs);
        lemma_synth_keeps_lines_prefix(init, emits);
        let piece = match segs.last().kind {
            KindView::Text(t) => t,
            KindView::Comment(b) => nl_only(b),
            KindView::Code(b) => nl_only(b),
            KindView::Emit(b) => emits[emit_count(init) as int] + nl_only(b),
            KindView::Raw(b) => emits[emit_count(init) as int] + nl_only(b),
        };
        crate::text::lemma_newlines_concat(synth(init, emits), piece);
        match segs.last().kind {
            KindView::Text(t) => {},
            KindView::Comment(b) => lemma_nl_only(b),
            KindView::Code(b) => lemma_nl_only(b),
            KindView::Emit(b) => {
                lemma_nl_only(b);
                crate::text::lemma_newlines_concat(emits[emit_count(init) as int], nl_only(b));
            },
            KindView::Raw(b) => {
                lemma_nl_only(b);
                crate::text::lemma_newlines_concat(emits[emit_count(init) as int], nl_only(b));
            },
        }
    }
}

proof fn lemma_emit_count_grows(segs: Seq<SegView>)
    requires
        segs.len() > 0,
    ensures
        emit_count(segs.drop_last()) <= emit_count(segs),
        (segs.last().kind is Emit || segs.last().kind is Raw) ==> emit_count(segs.drop_last()) < emit_count(segs),
{
}

proof fn lemma_synth_keeps_lines_prefix(segs: Seq<SegView>, emits: Seq<Seq<char>>)
    requires
        forall|k: int| 0 <= k < emits.len() ==> newlines(#[trigger] emits[k]) == 0,
        emit_count(segs) <= emits.len(),
    ensures
        newlines(synth(segs, emits)) == seg_newlines(segs),
    decreases segs.len(),
{
    if segs.len() > 0 {
        let init = segs.drop_last();
        lemma_emit_count_grows(segs);
        lemma_synth_keeps_lines_prefix(init, emits);
        let piece = match segs.last().kind {
            KindView::Text(t) => t,
            KindView::Comment(b) => nl_only(b),
            KindView::Code(b) => nl_only(b),
            KindView::Emit(b) => emits[emit_count(init) as int] + nl_only(b),
            KindView::Raw(b) => emits[emit_count(init) as int] + nl_only(b),
        };
        crate::text::lemma_newlines_concat(synth(init, emits), piece);
        match segs.last().kind {
            KindView::Text(t) => {},
            KindView::Comment(b) => lemma_nl_only(b),
            KindView::Code(b) => lemma_nl_only(b),
            KindView::Emit(b) => {
                lemma_nl_only(b);
                crate::text::lemma_newlines_concat(emits[emit_count(init) as int], nl_only(b));
            },
            KindView::Raw(b) => {
                lemma_nl_only(b);
                crate::text::lemma_newlines_concat(emits[emit_count(init) as int], nl_only(b));
            },
        }
    }
}

fn push_newlines(out: &mut Vec<char>, body: &str)
    ensures
        final(out)@ == old(out)@ + nl_only(body@),
{
    let b = chars_of(body);
    let mut k: usize = 0;
    let ghost start = out@;
    proof {
        assert(b@.take(0) =~= Seq::<char>::empty());
        assert(start + nl_only(b@.take(0)) =~= start);
    }
    while k < b.len()
        invariant
            k <= b@.len(),
            out@ == start + nl_only(b@.take(k as int)),
        decreases b@.len() - k,
    {
        proof {
            assert(b@.take(k + 1).drop_last() =~= b@.take(k as int));
        }
        let ghost before = out@;
        if b[k] == '\n' {
            out.push('\n');
        }
        proof {
            assert(out@ =~= start + nl_only(b@.take(k + 1)));
        }
        k = k + 1;
    }
    proof {
        assert(b@.take(b@.len() as int) =~= b@);
    }
}

pub open spec fn segs_v(s: Seq<Segment>) -> Seq<SegView> {
    s.map_values(|x: Segment| x@)
}

/// The HTML a template's literal text makes, each emit replaced by the HTML it stands for
/// (`emits`, one for each `<?= ?>` or `<?raw ?>` in order: a decorative or labelled
/// `<svg>` for `icon()`, the hidden field for `csrf()`, nothing for a partial or
/// `content`, a word for any other value), with every newline of a tag kept, so a line of
/// the skeleton is the line of the `.lsp`.
pub fn synthesize(segments: &[Segment], emits: &[String]) -> (r: String)
    requires
        emits@.len() == emit_count(segs_v(segments@)),
    ensures
        r@ == synth(segs_v(segments@), emits@.map_values(|e: String| e@)),
{
    let ghost sv = segs_v(segments@);
    let ghost ev = emits@.map_values(|e: String| e@);
    let mut out: Vec<char> = Vec::new();
    let mut used: usize = 0;
    let mut k: usize = 0;
    proof {
        assert(sv.take(0) =~= Seq::<SegView>::empty());
    }
    while k < segments.len()
        invariant
            k <= segments@.len(),
            sv == segs_v(segments@),
            ev == emits@.map_values(|e: String| e@),
            emits@.len() == emit_count(sv),
            used == emit_count(sv.take(k as int)),
            out@ == synth(sv.take(k as int), ev),
        decreases segments@.len() - k,
    {
        proof {
            assert(sv.take(k + 1).drop_last() =~= sv.take(k as int));
            assert(sv.take(k + 1).last() == segments@[k as int]@);
            lemma_emit_count_prefix(sv, k + 1);
        }
        match &segments[k].kind {
            SegmentKind::Text(t) => {
                push_str(&mut out, t.as_str());
            },
            SegmentKind::Comment(b) => {
                push_newlines(&mut out, b.as_str());
            },
            SegmentKind::Code(b) => {
                push_newlines(&mut out, b.as_str());
            },
            SegmentKind::Emit(b) => {
                push_str(&mut out, emits[used].as_str());
                push_newlines(&mut out, b.as_str());
                used = used + 1;
            },
            SegmentKind::Raw(b) => {
                push_str(&mut out, emits[used].as_str());
                push_newlines(&mut out, b.as_str());
                used = used + 1;
            },
        }
        proof {
            assert(out@ =~= synth(sv.take(k + 1), ev));
        }
        k = k + 1;
    }
    proof {
        assert(sv.take(segments@.len() as int) =~= sv);
    }
    string_of(out.as_slice())
}

proof fn lemma_emit_count_prefix(s: Seq<SegView>, k: int)
    requires
        0 <= k <= s.len(),
    ensures
        emit_count(s.take(k)) <= emit_count(s),
        k > 0 && (s[k - 1].kind is Emit || s[k - 1].kind is Raw) ==> emit_count(s.take(k)) >= emit_count(
            s.take(k - 1),
        ) + 1,
    decreases s.len() - k,
{
    if k > 0 {
        assert(s.take(k).drop_last() =~= s.take(k - 1));
    }
    if k < s.len() {
        lemma_emit_count_prefix(s, k + 1);
        assert(s.take(k + 1).drop_last() =~= s.take(k));
    } else {
        assert(s.take(k) =~= s);
    }
}

/// One quoted attribute of literal text.
#[derive(Debug, Clone)]
pub struct Attribute {
    /// The tag it stands in, lowercased; `?` for text that begins inside a tag.
    pub tag: String,
    /// The attribute's name, lowercased.
    pub name: String,
    /// The value between the quotes.
    pub value: String,
    /// Byte offset of the value's first character within the text.
    pub value_offset: usize,
}

/// An attribute as plain values; the offset in characters.
pub struct AttrV {
    pub tag: Seq<char>,
    pub name: Seq<char>,
    pub value: Seq<char>,
    pub at: int,
}

/// A character of a tag name: an ASCII letter or digit, or `-`.
pub open spec fn tag_char(c: char) -> bool {
    crate::text::is_ascii_alnum(c) || c == '-'
}

/// A character of an attribute name: a tag-name character or `:`.
pub open spec fn attr_char(c: char) -> bool {
    tag_char(c) || c == ':'
}

/// The first index at or after `i` that is not a tag-name character, or the end.
pub open spec fn tag_end(h: Seq<char>, i: int) -> int
    decreases h.len() - i,
{
    if 0 <= i < h.len() && tag_char(h[i]) { tag_end(h, i + 1) } else { i }
}

/// The start of the run of attribute-name characters that ends at `i`.
pub open spec fn name_start(h: Seq<char>, i: int) -> int
    decreases i,
{
    if 0 < i <= h.len() && attr_char(h[i - 1]) { name_start(h, i - 1) } else { i }
}

/// The first index at or after `i` that is not ASCII whitespace, or the end.
pub open spec fn ws_end(h: Seq<char>, i: int) -> int
    decreases h.len() - i,
{
    if 0 <= i < h.len() && crate::text::is_ascii_ws(h[i]) { ws_end(h, i + 1) } else { i }
}

pub proof fn lemma_tag_end(h: Seq<char>, i: int)
    ensures
        tag_end(h, i) >= i,
        0 <= i <= h.len() ==> tag_end(h, i) <= h.len(),
    decreases h.len() - i,
{
    if 0 <= i < h.len() && tag_char(h[i]) {
        lemma_tag_end(h, i + 1);
    }
}

pub proof fn lemma_ws_end(h: Seq<char>, i: int)
    ensures
        ws_end(h, i) >= i,
        0 <= i <= h.len() ==> ws_end(h, i) <= h.len(),
    decreases h.len() - i,
{
    if 0 <= i < h.len() && crate::text::is_ascii_ws(h[i]) {
        lemma_ws_end(h, i + 1);
    }
}

pub proof fn lemma_name_start(h: Seq<char>, i: int)
    ensures
        0 <= i <= h.len() ==> 0 <= name_start(h, i) <= i,
    decreases i,
{
    if 0 < i <= h.len() && attr_char(h[i - 1]) {
        lemma_name_start(h, i - 1);
    }
}

/// The quoted attributes of `h` from `i` on, inside the tag `tag`.
pub open spec fn attrs_in(h: Seq<char>, i: int, tag: Seq<char>) -> Seq<AttrV>
    decreases h.len() + 1 - i,
{
    if i < 0 || i >= h.len() {
        Seq::empty()
    } else if h[i] == '<' {
        let j = tag_end(h, i + 1);
        proof {
            lemma_tag_end(h, i + 1);
        }
        attrs_in(h, j, if j > i + 1 { lowered(h.subrange(i + 1, j)) } else { tag })
    } else if h[i] == '>' {
        attrs_in(h, i + 1, "?"@)
    } else if h[i] == '=' && i > 0 && tag_char(h[i - 1]) {
        let v = ws_end(h, i + 1);
        proof {
            lemma_ws_end(h, i + 1);
        }
        if v < h.len() && (h[v] == '"' || h[v] == '\'') {
            let e = crate::lint::sql::char_end(h, v + 1, h[v]);
            proof {
                crate::lint::sql::lemma_char_end(h, v + 1, h[v]);
            }
            seq![
                AttrV {
                    tag,
                    name: lowered(h.subrange(name_start(h, i), i)),
                    value: h.subrange(v + 1, e),
                    at: v + 1,
                },
            ] + attrs_in(h, e + 1, tag)
        } else {
            attrs_in(h, i + 1, tag)
        }
    } else {
        attrs_in(h, i + 1, tag)
    }
}

pub open spec fn attributes_v(h: Seq<char>, a: Seq<Attribute>) -> Seq<AttrV> {
    Seq::new(
        a.len(),
        |k: int| AttrV { tag: a[k].tag@, name: a[k].name@, value: a[k].value@, at: a[k].value_offset as int },
    )
}

/// The attributes found, their offsets as bytes.
pub open spec fn attrs_bytes(h: Seq<char>, a: Seq<AttrV>) -> Seq<AttrV> {
    Seq::new(a.len(), |k: int| AttrV { at: crate::lint::sql::byte_at(h, a[k].at), ..a[k] })
}

fn tag_char_exec(c: char) -> (r: bool)
    ensures
        r == tag_char(c),
{
    ('a' <= c && c <= 'z') || ('A' <= c && c <= 'Z') || ('0' <= c && c <= '9') || c == '-'
}

/// The quoted attributes of `text`'s tags, in order. Text that begins inside a tag,
/// after an emit split it, attributes them to an unknown tag.
pub fn attributes_in(text: &str) -> (r: Vec<Attribute>)
    requires
        utf8_len(text@) < usize::MAX,
    ensures
        attributes_v(text@, r@) == attrs_bytes(text@, attrs_in(text@, 0, "?"@)),
{
    attributes_at(text, true)
}

/// The quoted attributes of `text`'s tags, each value's offset in bytes when `bytes`,
/// else in characters.
pub(crate) fn attributes_at(text: &str, bytes: bool) -> (r: Vec<Attribute>)
    requires
        utf8_len(text@) < usize::MAX,
    ensures
        attributes_v(text@, r@) == if bytes { attrs_bytes(text@, attrs_in(text@, 0, "?"@)) } else { attrs_in(text@, 0, "?"@) },
{
    let h = chars_of(text);
    let n = h.len();
    let mut out: Vec<Attribute> = Vec::new();
    let mut tag = chars_of("?");
    let mut i: usize = 0;
    let ghost mut done: Seq<AttrV> = Seq::empty();
    proof {
        crate::lint::sql::lemma_utf8_len_ge(h@);
    }
    while i < n
        invariant
            n == h@.len(),
            h@ == text@,
            n < usize::MAX,
            utf8_len(h@) < usize::MAX,
            i <= n + 1,
            attrs_in(h@, 0, "?"@) == done + attrs_in(h@, i as int, tag@),
            attributes_v(h@, out@) == if bytes { attrs_bytes(h@, done) } else { done },
        decreases n + 1 - i,
    {
        if h[i] == '<' {
            let mut j = i + 1;
            while j < n && tag_char_exec(h[j])
                invariant
                    i < j <= n == h@.len(),
                    tag_end(h@, i + 1) == tag_end(h@, j as int),
                decreases n - j,
            {
                j = j + 1;
            }
            if j > i + 1 {
                tag = lowered_exec(slice_chars(h.as_slice(), i + 1, j).as_slice());
            }
            i = j;
            continue;
        }
        if h[i] == '>' {
            tag = chars_of("?");
            i = i + 1;
            continue;
        }
        if h[i] == '=' && i > 0 && tag_char_exec(h[i - 1]) {
            let mut v = i + 1;
            while v < n && (h[v] == ' ' || h[v] == '\t' || h[v] == '\n' || h[v] == '\x0C' || h[v] == '\r')
                invariant
                    i < v <= n == h@.len(),
                    ws_end(h@, i + 1) == ws_end(h@, v as int),
                decreases n - v,
            {
                v = v + 1;
            }
            if v < n && (h[v] == '"' || h[v] == '\'') {
                let quote = h[v];
                let mut e = v + 1;
                while e < n && h[e] != quote
                    invariant
                        v < e <= n == h@.len(),
                        crate::lint::sql::char_end(h@, v + 1, quote) == crate::lint::sql::char_end(h@, e as int, quote),
                    decreases n - e,
                {
                    e = e + 1;
                }
                let mut k = i;
                while k > 0 && (tag_char_exec(h[k - 1]) || h[k - 1] == ':')
                    invariant
                        k <= i < n == h@.len(),
                        name_start(h@, i as int) == name_start(h@, k as int),
                    decreases k,
                {
                    k = k - 1;
                }
                let name = lowered_exec(slice_chars(h.as_slice(), k, i).as_slice());
                let value = slice_chars(h.as_slice(), v + 1, e);
                let offset = if bytes { crate::lint::sql::byte_offset(h.as_slice(), v + 1) } else { v + 1 };
                let ghost a = AttrV { tag: tag@, name: name@, value: value@, at: v + 1 };
                let ghost before = out@;
                out.push(Attribute {
                    tag: string_of(tag.as_slice()),
                    name: string_of(name.as_slice()),
                    value: string_of(value.as_slice()),
                    value_offset: offset,
                });
                proof {
                    let old_done = done;
                    done = done.push(a);
                    if bytes {
                        assert(attributes_v(h@, out@) =~= attributes_v(h@, before).push(
                            AttrV { at: crate::lint::sql::byte_at(h@, a.at), ..a },
                        ));
                    } else {
                        assert(attributes_v(h@, out@) =~= attributes_v(h@, before).push(a));
                    }
                    assert(attrs_bytes(h@, done) =~= attrs_bytes(h@, old_done).push(
                        AttrV { at: crate::lint::sql::byte_at(h@, a.at), ..a },
                    ));
                    assert(old_done + (seq![a] + attrs_in(h@, e + 1, tag@)) =~= done + attrs_in(
                        h@,
                        e + 1,
                        tag@,
                    ));
                }
                i = e + 1;
                continue;
            }
        }
        i = i + 1;
    }
    proof {
        assert(done + Seq::<AttrV>::empty() =~= done);
    }
    out
}

/// The heading open tags of `text` whose first line is `line`: each `<h` followed by a
/// digit from 1 to 6 and then the end, whitespace, `>` or `/`, as (level, line).
pub open spec fn headings_from(low: Seq<char>, i: int, line: int) -> Seq<(u32, u32)>
    decreases low.len() + 1 - i,
{
    match index_of_h(low, i) {
        None => Seq::empty(),
        Some(start) => {
            let d = if start + 2 < low.len() { low[start + 2] } else { ' ' };
            let ends = start + 3 >= low.len() || crate::text::is_ascii_ws(low[start + 3]) || low[start + 3]
                == '>' || low[start + 3] == '/';
            if i <= start && start + 2 <= low.len() {
                (if '1' <= d <= '6' && ends {
                    seq![((d as u32 - '0' as u32) as u32, (line + newlines(low.subrange(0, start))) as u32)]
                } else {
                    Seq::empty()
                }) + headings_from(low, start + 2, line)
            } else {
                Seq::empty()
            }
        },
    }
}

/// The first `<h` at or after `i`.
pub open spec fn index_of_h(low: Seq<char>, i: int) -> Option<int> {
    crate::text::index_of(low, seq!['<', 'h'], i)
}

/// The heading open tags in literal text: `(level, line)`.
pub fn headings_in(text: &str, line: u32) -> (r: Vec<(u32, u32)>)
    requires
        line + newlines(text@) <= u32::MAX,
    ensures
        r@ == headings_from(lowered(text@), 0, line as int),
{
    let h = chars_of(text);
    let low = lowered_exec(h.as_slice());
    let n = low.len();
    let needle: Vec<char> = vec!['<', 'h'];
    proof {
        assert(needle@ =~= seq!['<', 'h']);
        assert(newlines(low@) == newlines(h@)) by {
            lemma_newlines_lowered(h@);
        }
    }
    let mut out: Vec<(u32, u32)> = Vec::new();
    let mut i: usize = 0;
    let ghost mut done: Seq<(u32, u32)> = Seq::empty();
    loop
        invariant
            n == low@.len(),
            low@ == lowered(h@),
            h@ == text@,
            needle@ == seq!['<', 'h'],
            line + newlines(low@) <= u32::MAX,
            i <= n,
            headings_from(low@, 0, line as int) == done + headings_from(low@, i as int, line as int),
            out@ == done,
        decreases n + 1 - i,
    {
        let found = crate::text::find(low.as_slice(), needle.as_slice(), i);
        proof {
            crate::text::lemma_index_of(low@, needle@, i as int);
        }
        match found {
            None => {
                proof {
                    assert(done + Seq::<(u32, u32)>::empty() =~= done);
                }
                return out;
            },
            Some(start) => {
                let d = if start + 2 < n { low[start + 2] } else { ' ' };
                let ends = n - start <= 3 || low[start + 3] == ' ' || low[start + 3] == '\t' || low[start + 3] == '\n'
                    || low[start + 3] == '\x0C' || low[start + 3] == '\r' || low[start + 3] == '>' || low[start
                    + 3] == '/';
                let ghost before = done;
                if '1' <= d && d <= '6' && ends {
                    proof {
                        crate::text::lemma_newlines_concat(low@.subrange(0, start as int), low@.subrange(start as int, n as int));
                        assert(low@.subrange(0, start as int) + low@.subrange(start as int, n as int) =~= low@);
                    }
                    let nl = crate::text::count_newlines(low.as_slice(), 0, start);
                    let level = (d as u32) - ('0' as u32);
                    out.push((level, line + nl as u32));
                    proof {
                        done = done.push((level, (line + nl) as u32));
                    }
                }
                proof {
                    assert(before + ((if '1' <= d <= '6' && ends {
                        seq![((d as u32 - '0' as u32) as u32, (line + newlines(low@.subrange(0, start as int))) as u32)]
                    } else {
                        Seq::<(u32, u32)>::empty()
                    }) + headings_from(low@, start + 2, line as int)) =~= done + headings_from(low@, start + 2, line as int));
                }
                i = start + 2;
            },
        }
    }
}

proof fn lemma_newlines_lowered(s: Seq<char>)
    ensures
        newlines(lowered(s)) == newlines(s),
    decreases s.len(),
{
    if s.len() > 0 {
        lemma_newlines_lowered(s.drop_last());
        assert(lowered(s).drop_last() =~= lowered(s.drop_last()));
    }
}

/// A form that writes: a method other than `get` (trimmed, any case; `get` when absent),
/// or an htmx write attribute.
pub open spec fn writes_form(f: ElemV) -> bool {
    let method = match attr_of(f.attrs, "method"@) {
        Some(m) => lowered(crate::text::trim(m)),
        None => "get"@,
    };
    ||| method != "get"@
    ||| attr_of(f.attrs, "hx-post"@) is Some
    ||| attr_of(f.attrs, "hx-put"@) is Some
    ||| attr_of(f.attrs, "hx-patch"@) is Some
    ||| attr_of(f.attrs, "hx-delete"@) is Some
}

/// Some input under the form is named `_csrf`.
pub open spec fn has_token(f: ElemV) -> bool {
    let inputs = find_all_spec(f, "input"@);
    exists|k: int| 0 <= k < inputs.len() && attr_of(#[trigger] inputs[k].attrs, "name"@) == Some("_csrf"@)
}

/// The forms of `forms` that write without the token.
pub open spec fn tokenless(forms: Seq<ElemV>) -> Seq<ElemV>
    decreases forms.len(),
{
    if forms.len() == 0 {
        Seq::empty()
    } else if writes_form(forms.last()) && !has_token(forms.last()) {
        tokenless(forms.drop_last()).push(forms.last())
    } else {
        tokenless(forms.drop_last())
    }
}

/// `f` is the `PV204` finding of `rel` in `ctx`'s app for the form `form`.
pub open spec fn pv204_finding(f: Finding, display: Seq<char>, rel: Seq<char>, form: ElemV) -> bool {
    &&& f.id == RuleId::PV204
    &&& f.severity == severity_of(RuleId::PV204)
    &&& f.file@ == trim_end_slashes(display) + "/"@ + rel
    &&& f.line == form.line
    &&& f.message@ == "non-GET form without csrf(): "@ + crate::lint::html::describe_spec(form)
        + " — the host answers 403 without the token"@
    &&& f.fix matches Some(x) && x@ == "put <?= csrf() ?> inside the form"@
    &&& f.spec == spec_of(RuleId::PV204)
    &&& f.edit is None
}

/// `PV204`: a form that is not a GET carries the token.
pub fn check_forms(ctx: &mut Ctx, rel: &str, root: &Element)
    ensures
        final(ctx).display == old(ctx).display,
        final(ctx).folder == old(ctx).folder,
        final(ctx).manifest_slug == old(ctx).manifest_slug,
        final(ctx).solo == old(ctx).solo,
        final(ctx).findings@.len() == old(ctx).findings@.len() + tokenless(
            find_all_spec(elem_v(*root), "form"@),
        ).len(),
        forall|i: int| 0 <= i < old(ctx).findings@.len() ==> final(ctx).findings@[i] == old(ctx).findings@[i],
        forall|k: int|
            0 <= k < tokenless(find_all_spec(elem_v(*root), "form"@)).len() ==> pv204_finding(
                #[trigger] final(ctx).findings@[old(ctx).findings@.len() + k],
                old(ctx).display@,
                rel@,
                tokenless(find_all_spec(elem_v(*root), "form"@))[k],
            ),
{
    let forms = root.find_all("form");
    let ghost fv = refs_v(forms@);
    let ghost base = ctx.findings@.len();
    let ghost disp = ctx.display@;
    let mut k: usize = 0;
    let writes = ["hx-post", "hx-put", "hx-patch", "hx-delete"];
    while k < forms.len()
        invariant
            k <= forms@.len(),
            fv == refs_v(forms@),
            fv == find_all_spec(elem_v(*root), "form"@),
            ctx.display == old(ctx).display,
            ctx.folder == old(ctx).folder,
            ctx.manifest_slug == old(ctx).manifest_slug,
            ctx.solo == old(ctx).solo,
            disp == old(ctx).display@,
            base == old(ctx).findings@.len(),
            writes@.len() == 4,
            writes@[0]@ == "hx-post"@,
            writes@[1]@ == "hx-put"@,
            writes@[2]@ == "hx-patch"@,
            writes@[3]@ == "hx-delete"@,
            ctx.findings@.len() == base + tokenless(fv.take(k as int)).len(),
            forall|i: int| 0 <= i < base ==> ctx.findings@[i] == old(ctx).findings@[i],
            forall|j: int|
                0 <= j < tokenless(fv.take(k as int)).len() ==> pv204_finding(
                    #[trigger] ctx.findings@[base + j],
                    disp,
                    rel@,
                    tokenless(fv.take(k as int))[j],
                ),
        decreases forms@.len() - k,
    {
        proof {
            assert(fv.take(k + 1).drop_last() =~= fv.take(k as int));
        }
        let form = forms[k];
        let method = match form.attr("method") {
            Some(m) => lowered_exec(crate::text::trimmed(chars_of(m).as_slice()).as_slice()),
            None => chars_of("get"),
        };
        let get = chars_of("get");
        let mut htmx_write = false;
        let mut w: usize = 0;
        while w < 4
            invariant
                w <= 4,
                writes@.len() == 4,
                htmx_write == exists|j: int| 0 <= j < w && attr_of(elem_v(*form).attrs, (#[trigger] writes@[j])@) is Some,
            decreases 4 - w,
        {
            if form.attr(writes[w]).is_some() {
                htmx_write = true;
            }
            w = w + 1;
        }
        proof {
            assert(htmx_write == (attr_of(elem_v(*form).attrs, "hx-post"@) is Some || attr_of(elem_v(*form).attrs, "hx-put"@) is Some
                || attr_of(elem_v(*form).attrs, "hx-patch"@) is Some || attr_of(elem_v(*form).attrs, "hx-delete"@) is Some)) by {
                if htmx_write {
                    let j = choose|j: int| 0 <= j < 4 && attr_of(elem_v(*form).attrs, (#[trigger] writes@[j])@) is Some;
                    assert(0 <= j < 4);
                }
                if attr_of(elem_v(*form).attrs, "hx-post"@) is Some { assert(attr_of(elem_v(*form).attrs, writes@[0]@) is Some); }
                if attr_of(elem_v(*form).attrs, "hx-put"@) is Some { assert(attr_of(elem_v(*form).attrs, writes@[1]@) is Some); }
                if attr_of(elem_v(*form).attrs, "hx-patch"@) is Some { assert(attr_of(elem_v(*form).attrs, writes@[2]@) is Some); }
                if attr_of(elem_v(*form).attrs, "hx-delete"@) is Some { assert(attr_of(elem_v(*form).attrs, writes@[3]@) is Some); }
            }
        }
        let writes_it = !same_chars(method.as_slice(), get.as_slice()) || htmx_write;
        if writes_it {
            let inputs = form.find_all("input");
            let ghost iv = refs_v(inputs@);
            let mut token_found = false;
            let mut m: usize = 0;
            while m < inputs.len()
                invariant
                    m <= inputs@.len(),
                    iv == refs_v(inputs@),
                    token_found == exists|j: int| 0 <= j < m && attr_of(#[trigger] iv[j].attrs, "name"@) == Some("_csrf"@),
                decreases inputs@.len() - m,
            {
                let named_csrf = match inputs[m].attr("name") {
                    Some(nm) => {
                        let a = chars_of(nm);
                        let b = chars_of("_csrf");
                        same_chars(a.as_slice(), b.as_slice())
                    },
                    None => false,
                };
                if named_csrf {
                    proof {
                        assert(attr_of(iv[m as int].attrs, "name"@) == Some("_csrf"@));
                    }
                    token_found = true;
                }
                m = m + 1;
            }
            if !token_found {
                let mut message = chars_of("non-GET form without csrf(): ");
                push_str(&mut message, form.describe().as_str());
                push_str(&mut message, " — the host answers 403 without the token");
                let ghost before = ctx.findings@;
                let f = ctx.push(RuleId::PV204, rel, form.line, string_of(message.as_slice()));
                f.fix = Some("put <?= csrf() ?> inside the form".to_string());
                proof {
                    assert(ctx.findings@ == before.push(ctx.findings@.last()));
                    assert(tokenless(fv.take(k + 1)) == tokenless(fv.take(k as int)).push(fv[k as int]));
                    assert(fv[k as int] == elem_v(*form));
                }
            }
        }
        k = k + 1;
    }
    proof {
        assert(fv.take(forms@.len() as int) =~= fv);
    }
}

} // verus!
