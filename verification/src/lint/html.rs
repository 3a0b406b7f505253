//! A small tolerant HTML tree, and the element-level accessibility checks a template, a
//! document and a rendered page all answer to. Each element carries the line it opened
//! on, so a finding names it.

use vstd::prelude::*;
use crate::text::{
    chars_of, find, index_of, lower, lowered, lowered_exec, newlines, count_newlines, slice_chars,
    string_of, trim, trimmed, push_all,
};
use crate::lint::css::words;
use crate::lint::RuleId;

verus! {

/// A node of the parsed document.
#[derive(Debug)]
pub enum Node {
    /// An element.
    Element(Element),
    /// Text between elements, entities kept.
    Text(String),
}

/// An element with its attributes (names lowercased, values as written, entities kept).
#[derive(Debug)]
pub struct Element {
    /// The tag name, lowercased.
    pub name: String,
    /// Attributes in document order.
    pub attrs: Vec<(String, String)>,
    /// Children in document order.
    pub children: Vec<Node>,
    /// 1-based line the open tag is on.
    pub line: u32,
}

/// A node as plain values.
pub enum NodeV {
    Element(ElemV),
    Text(Seq<char>),
}

/// An element as plain values.
pub struct ElemV {
    pub name: Seq<char>,
    pub attrs: Seq<(Seq<char>, Seq<char>)>,
    pub children: Seq<NodeV>,
    pub line: u32,
}

pub open spec fn attrs_v(a: Seq<(String, String)>) -> Seq<(Seq<char>, Seq<char>)> {
    Seq::new(a.len(), |i: int| (a[i].0@, a[i].1@))
}

/// An element's plain values.
pub open spec fn elem_v(e: Element) -> ElemV
    decreases e,
{
    ElemV { name: e.name@, attrs: attrs_v(e.attrs@), children: nodes_v(e.children@), line: e.line }
}

/// A list of nodes' plain values.
pub open spec fn nodes_v(ns: Seq<Node>) -> Seq<NodeV>
    decreases ns,
{
    if ns.len() == 0 {
        Seq::empty()
    } else {
        nodes_v(ns.drop_last()).push(node_v(ns.last()))
    }
}

/// A node's plain values.
pub open spec fn node_v(n: Node) -> NodeV
    decreases n,
{
    match n {
        Node::Element(e) => NodeV::Element(elem_v(e)),
        Node::Text(t) => NodeV::Text(t@),
    }
}

proof fn lemma_nodes_v_index(ns: Seq<Node>, i: int)
    requires
        0 <= i < ns.len(),
    ensures
        nodes_v(ns).len() == ns.len(),
        nodes_v(ns)[i] == node_v(ns[i]),
    decreases ns.len(),
{
    if i < ns.len() - 1 {
        lemma_nodes_v_index(ns.drop_last(), i);
    } else {
        lemma_nodes_v_len(ns.drop_last());
    }
}

proof fn lemma_nodes_v_len(ns: Seq<Node>)
    ensures
        nodes_v(ns).len() == ns.len(),
    decreases ns.len(),
{
    if ns.len() > 0 {
        lemma_nodes_v_len(ns.drop_last());
    }
}

// ---------------------------------------------------------------------------------------
// Parsing
// ---------------------------------------------------------------------------------------

/// ASCII whitespace as the parser reads it: space, tab, line feed, form feed, return.
pub open spec fn html_ws(c: char) -> bool {
    c == ' ' || c == '\t' || c == '\n' || c == '\x0c' || c == '\r'
}

fn html_ws_exec(c: char) -> (r: bool)
    ensures
        r == html_ws(c),
{
    c == ' ' || c == '\t' || c == '\n' || c == '\x0c' || c == '\r'
}

/// Elements that never have content or an end tag.
pub open spec fn is_void(name: Seq<char>) -> bool {
    name == "area"@ || name == "base"@ || name == "br"@ || name == "col"@ || name == "embed"@
        || name == "hr"@ || name == "img"@ || name == "input"@ || name == "link"@ || name == "meta"@
        || name == "param"@ || name == "source"@ || name == "track"@ || name == "wbr"@
}

/// Elements whose content is raw text up to the end tag.
pub open spec fn is_raw(name: Seq<char>) -> bool {
    name == "script"@ || name == "style"@
}

/// Elements whose end tag may be omitted: a new one closes an open one.
pub open spec fn is_optional_end(name: Seq<char>) -> bool {
    name == "p"@ || name == "li"@ || name == "dt"@ || name == "dd"@ || name == "tr"@ || name == "td"@
        || name == "th"@ || name == "option"@
}

fn name_in(name: &[char], list: &[&str]) -> (r: bool)
    ensures
        r == exists|k: int| 0 <= k < list@.len() && name@ == (#[trigger] list@[k])@,
{
    let mut k: usize = 0;
    while k < list.len()
        invariant
            k <= list@.len(),
            forall|j: int| 0 <= j < k ==> name@ != (#[trigger] list@[j])@,
        decreases list.len() - k,
    {
        let w = chars_of(list[k]);
        if crate::text::same_chars(name, w.as_slice()) {
            return true;
        }
        k = k + 1;
    }
    false
}

fn is_void_exec(name: &[char]) -> (r: bool)
    ensures
        r == is_void(name@),
{
    let list = ["area", "base", "br", "col", "embed", "hr", "img", "input", "link", "meta", "param",
        "source", "track", "wbr"];
    let r = name_in(name, &list);
    assert(r == is_void(name@)) by {
        if is_void(name@) {
            if name@ == "area"@ { assert(list@[0]@ == "area"@); }
            else if name@ == "base"@ { assert(list@[1]@ == "base"@); }
            else if name@ == "br"@ { assert(list@[2]@ == "br"@); }
            else if name@ == "col"@ { assert(list@[3]@ == "col"@); }
            else if name@ == "embed"@ { assert(list@[4]@ == "embed"@); }
            else if name@ == "hr"@ { assert(list@[5]@ == "hr"@); }
            else if name@ == "img"@ { assert(list@[6]@ == "img"@); }
            else if name@ == "input"@ { assert(list@[7]@ == "input"@); }
            else if name@ == "link"@ { assert(list@[8]@ == "link"@); }
            else if name@ == "meta"@ { assert(list@[9]@ == "meta"@); }
            else if name@ == "param"@ { assert(list@[10]@ == "param"@); }
            else if name@ == "source"@ { assert(list@[11]@ == "source"@); }
            else if name@ == "track"@ { assert(list@[12]@ == "track"@); }
            else { assert(list@[13]@ == "wbr"@); }
        }
    }
    r
}

fn is_raw_exec(name: &[char]) -> (r: bool)
    ensures
        r == is_raw(name@),
{
    let list = ["script", "style"];
    let r = name_in(name, &list);
    assert(r == is_raw(name@)) by {
        if is_raw(name@) {
            if name@ == "script"@ { assert(list@[0]@ == "script"@); }
            else { assert(list@[1]@ == "style"@); }
        }
    }
    r
}

fn is_optional_end_exec(name: &[char]) -> (r: bool)
    ensures
        r == is_optional_end(name@),
{
    let list = ["p", "li", "dt", "dd", "tr", "td", "th", "option"];
    let r = name_in(name, &list);
    assert(r == is_optional_end(name@)) by {
        if is_optional_end(name@) {
            if name@ == "p"@ { assert(list@[0]@ == "p"@); }
            else if name@ == "li"@ { assert(list@[1]@ == "li"@); }
            else if name@ == "dt"@ { assert(list@[2]@ == "dt"@); }
            else if name@ == "dd"@ { assert(list@[3]@ == "dd"@); }
            else if name@ == "tr"@ { assert(list@[4]@ == "tr"@); }
            else if name@ == "td"@ { assert(list@[5]@ == "td"@); }
            else if name@ == "th"@ { assert(list@[6]@ == "th"@); }
            else { assert(list@[7]@ == "option"@); }
        }
    }
    r
}

/// The first index at or after `i` whose character is not whitespace, or the end.
pub open spec fn skip_ws_from(h: Seq<char>, i: int) -> int
    decreases h.len() - i,
{
    if i < h.len() && i >= 0 && html_ws(h[i]) { skip_ws_from(h, i + 1) } else { i }
}

/// A character a tag or attribute name stops at.
pub open spec fn name_stop(c: char) -> bool {
    html_ws(c) || c == '>' || c == '/'
}

/// A character an attribute name stops at.
pub open spec fn attr_stop(c: char) -> bool {
    html_ws(c) || c == '=' || c == '>' || c == '/'
}

/// A character an unquoted value stops at.
pub open spec fn value_stop(c: char) -> bool {
    html_ws(c) || c == '>'
}

/// The first index at or after `i` whose character is a stop of `kind` (`0` name, `1`
/// attribute name, `2` unquoted value, otherwise the quote `kind` as a character code),
/// or the end.
pub open spec fn scan_to(h: Seq<char>, i: int, kind: u32) -> int
    decreases h.len() - i,
{
    if i < 0 || i >= h.len() {
        i
    } else if (kind == 0 && name_stop(h[i])) || (kind == 1 && attr_stop(h[i])) || (kind == 2
        && value_stop(h[i])) || (kind > 2 && h[i] as u32 == kind) {
        i
    } else {
        scan_to(h, i + 1, kind)
    }
}

pub proof fn lemma_skip_ws_from(h: Seq<char>, i: int)
    ensures
        skip_ws_from(h, i) >= i,
        0 <= i <= h.len() ==> skip_ws_from(h, i) <= h.len(),
    decreases h.len() - i,
{
    if i < h.len() && i >= 0 && html_ws(h[i]) {
        lemma_skip_ws_from(h, i + 1);
    }
}

pub proof fn lemma_scan_to(h: Seq<char>, i: int, kind: u32)
    ensures
        scan_to(h, i, kind) >= i,
        0 <= i <= h.len() ==> scan_to(h, i, kind) <= h.len(),
    decreases h.len() - i,
{
    if 0 <= i < h.len() && !((kind == 0 && name_stop(h[i])) || (kind == 1 && attr_stop(h[i])) || (kind
        == 2 && value_stop(h[i])) || (kind > 2 && h[i] as u32 == kind)) {
        lemma_scan_to(h, i + 1, kind);
    }
}

/// The attributes of an open tag from `i` on, given those read and whether a `/` was
/// seen: the attributes, whether the tag ended in `/>`, and the index after the tag. An
/// unterminated quoted value leaves that index one past the end.
pub open spec fn attrs_from(h: Seq<char>, i: int, sc: bool, attrs: Seq<(Seq<char>, Seq<char>)>) -> (
    Seq<(Seq<char>, Seq<char>)>,
    bool,
    int,
)
    decreases h.len() + 2 - i,
{
    let j = skip_ws_from(h, i);
    proof {
        lemma_skip_ws_from(h, i);
    }
    if i < 0 || i > h.len() + 1 || j >= h.len() {
        (attrs, sc, j)
    } else if h[j] == '>' {
        (attrs, sc, j + 1)
    } else if h[j] == '/' {
        attrs_from(h, j + 1, true, attrs)
    } else {
        let a_end = scan_to(h, j, 1);
        let aname = lowered(h.subrange(j, a_end));
        let k = skip_ws_from(h, a_end);
        proof {
            lemma_scan_to(h, j, 1);
            lemma_skip_ws_from(h, a_end);
            lemma_skip_ws_from(h, k + 1);
            lemma_scan_to(h, skip_ws_from(h, k + 1), 2);
            if k + 1 <= h.len() && skip_ws_from(h, k + 1) < h.len() {
                lemma_scan_to(h, skip_ws_from(h, k + 1) + 1, h[skip_ws_from(h, k + 1)] as u32);
            }
        }
        let (value, next) = if k < h.len() && h[k] == '=' {
            let k2 = skip_ws_from(h, k + 1);
            if k2 < h.len() && (h[k2] == '"' || h[k2] == '\'') {
                let v_end = scan_to(h, k2 + 1, h[k2] as u32);
                (h.subrange(k2 + 1, v_end), v_end + 1)
            } else {
                let v_end = scan_to(h, k2, 2);
                (h.subrange(k2, v_end), v_end)
            }
        } else {
            (Seq::empty(), k)
        };
        let attrs2 = if aname.len() > 0 { attrs.push((aname, value)) } else { attrs };
        if next > i { attrs_from(h, next, sc, attrs2) } else { (attrs2, sc, next) }
    }
}

/// An open tag at `at` (`h[at] == '<'`): its name lowercased, its attributes, whether it
/// ended in `/>`, and the index past `>`.
pub open spec fn open_tag_spec(h: Seq<char>, at: int) -> (Seq<char>, Seq<(Seq<char>, Seq<char>)>, bool, int) {
    let name_end = scan_to(h, at + 1, 0);
    let (attrs, sc, end) = attrs_from(h, name_end, false, Seq::empty());
    (lowered(h.subrange(at + 1, name_end)), attrs, sc, end)
}

/// The parser's state: the open elements, the position, where pending text starts, the
/// line of the last `<` seen and where its count stopped.
pub struct PState {
    pub stack: Seq<ElemV>,
    pub i: int,
    pub text_start: int,
    pub line: int,
    pub line_at: int,
}

/// `e` with `n` as its last child.
pub open spec fn with_child(e: ElemV, n: NodeV) -> ElemV {
    ElemV { children: e.children.push(n), ..e }
}

/// `n` added to the innermost open element.
pub open spec fn push_child(stack: Seq<ElemV>, n: NodeV) -> Seq<ElemV> {
    if stack.len() == 0 {
        stack
    } else {
        stack.update(stack.len() - 1, with_child(stack.last(), n))
    }
}

/// Pending text, when there is any, added to the innermost open element.
pub open spec fn flush(stack: Seq<ElemV>, text: Seq<char>) -> Seq<ElemV> {
    if text.len() > 0 { push_child(stack, NodeV::Text(text)) } else { stack }
}

/// The innermost open element closed into its parent; the document itself stays open.
pub open spec fn close(stack: Seq<ElemV>) -> Seq<ElemV> {
    if stack.len() > 1 {
        push_child(stack.drop_last(), NodeV::Element(stack.last()))
    } else {
        stack
    }
}

/// Elements closed until `n` remain open (at least one).
pub open spec fn close_to(stack: Seq<ElemV>, n: int) -> Seq<ElemV>
    decreases stack.len(),
{
    if stack.len() > n && stack.len() > 1 { close_to(close(stack), n) } else { stack }
}

/// The last open element named `name`.
pub open spec fn last_named(stack: Seq<ElemV>, name: Seq<char>) -> Option<int>
    decreases stack.len(),
{
    if stack.len() == 0 {
        None
    } else if stack.last().name == name {
        Some(stack.len() - 1)
    } else {
        last_named(stack.drop_last(), name)
    }
}

/// One step of the parser at a `<`; `None` where the reading would fail. Anything that
/// is not a comment, a declaration, an end tag or an open tag starting with a letter is a
/// literal `<` of the text.
pub open spec fn step(h: Seq<char>, st: PState) -> Option<PState> {
    let i = st.i;
    let line = st.line + newlines(h.subrange(st.line_at, i));
    let rest = h.subrange(i, h.len() as int);
    let text = h.subrange(st.text_start, i);
    if crate::text::starts_with(rest, "<!--"@) {
        let end = match index_of(h, "-->"@, i) {
            Some(at) => at + 3,
            None => h.len() as int,
        };
        Some(PState { stack: flush(st.stack, text), i: end, text_start: end, line, line_at: i })
    } else if crate::text::starts_with(rest, "<!"@) || crate::text::starts_with(rest, "<?"@) {
        let end = match index_of(h, ">"@, i) {
            Some(at) => at + 1,
            None => h.len() as int,
        };
        Some(PState { stack: flush(st.stack, text), i: end, text_start: end, line, line_at: i })
    } else if crate::text::starts_with(rest, "</"@) {
        let found = index_of(h, ">"@, i);
        if found is None && (h.last() as u32) >= 128 {
            None
        } else {
            let end = match found {
                Some(at) => at + 1,
                None => h.len() as int,
            };
            let name_end = if end - 1 > i + 2 { end - 1 } else { i + 2 };
            let name = lowered(trim(h.subrange(i + 2, name_end)));
            let stack = flush(st.stack, text);
            let closed = match last_named(stack, name) {
                Some(depth) => {
                    let s = close_to(stack, depth + 1);
                    if depth > 0 { close(s) } else { s }
                },
                None => stack,
            };
            Some(PState { stack: closed, i: end, text_start: end, line, line_at: i })
        }
    } else if !(i + 1 < h.len() && crate::text::is_ascii_alpha(h[i + 1])) {
        Some(PState { i: i + 1, line, line_at: i, ..st })
    } else {
        let stack = flush(st.stack, text);
        let (name, attrs, sc, end) = open_tag_spec(h, i);
        let el = ElemV { name, attrs, children: Seq::empty(), line: line as u32 };
        let stack = if is_optional_end(name) && stack.len() > 1 && stack.last().name == name {
            close(stack)
        } else {
            stack
        };
        if sc || is_void(name) {
            Some(PState { stack: push_child(stack, NodeV::Element(el)), i: end, text_start: end, line, line_at: i })
        } else if is_raw(name) {
            if end > h.len() {
                None
            } else {
                let body_end = match index_of(lowered(h), "</"@ + name, end) {
                    Some(at) => at,
                    None => h.len() as int,
                };
                let el2 = if body_end > end { with_child(el, NodeV::Text(h.subrange(end, body_end))) } else { el };
                let after = match index_of(h, ">"@, body_end) {
                    Some(at) => at + 1,
                    None => h.len() as int,
                };
                Some(PState { stack: push_child(stack, NodeV::Element(el2)), i: after, text_start: after, line, line_at: i })
            }
        } else {
            Some(PState { stack: stack.push(el), i: end, text_start: end, line, line_at: i })
        }
    }
}

/// The first `<` at or after `i`, or the end.
pub open spec fn next_lt(h: Seq<char>, i: int) -> int
    decreases h.len() - i,
{
    if i < 0 || i >= h.len() || h[i] == '<' { i } else { next_lt(h, i + 1) }
}

pub proof fn lemma_next_lt(h: Seq<char>, i: int)
    ensures
        next_lt(h, i) >= i,
        0 <= i <= h.len() ==> next_lt(h, i) <= h.len(),
    decreases h.len() - i,
{
    if 0 <= i < h.len() && h[i] != '<' {
        lemma_next_lt(h, i + 1);
    }
}

/// The parse from a state: step at each `<` until the end, then the pending text, then
/// every open element closed into the document. `None` where the reading would fail.
pub open spec fn run(h: Seq<char>, st: PState) -> Option<ElemV>
    decreases h.len() + 2 - st.i,
{
    let i = next_lt(h, st.i);
    proof {
        lemma_next_lt(h, st.i);
    }
    if st.i < 0 || st.i > h.len() + 1 || st.text_start < 0 || st.stack.len() == 0 {
        None
    } else if i >= h.len() {
        if st.text_start > h.len() {
            None
        } else {
            Some(close_to(flush(st.stack, h.subrange(st.text_start, h.len() as int)), 1)[0])
        }
    } else {
        match step(h, PState { i, ..st }) {
            None => None,
            Some(next) => if i < next.i <= h.len() + 1 { run(h, next) } else { None },
        }
    }
}

/// The document `#document` holding the parse of `h`, or `None` where the reading would
/// fail: an end tag left open at the end of a text whose last character is not ASCII,
/// or a quoted attribute value left open at the end.
pub open spec fn parse_spec(h: Seq<char>) -> Option<ElemV> {
    run(
        h,
        PState {
            stack: seq![ElemV { name: "#document"@, attrs: Seq::empty(), children: Seq::empty(), line: 1 }],
            i: 0,
            text_start: 0,
            line: 1,
            line_at: 0,
        },
    )
}


/// The open elements' plain values.
pub open spec fn stack_v(s: Seq<Element>) -> Seq<ElemV> {
    Seq::new(s.len(), |i: int| elem_v(s[i]))
}

fn add_child(e: &mut Element, n: Node)
    ensures
        elem_v(*final(e)) == with_child(elem_v(*old(e)), node_v(n)),
{
    let ghost before = e.children@;
    e.children.push(n);
    proof {
        assert(e.children@.drop_last() =~= before);
        assert(elem_v(*e).children =~= nodes_v(before).push(node_v(n)));
    }
}

fn push_child_exec(stack: &mut Vec<Element>, n: Node)
    ensures
        final(stack)@.len() == old(stack)@.len(),
        stack_v(final(stack)@) == push_child(stack_v(old(stack)@), node_v(n)),
{
    let ghost sv = stack_v(stack@);
    if stack.len() > 0 {
        let mut top = stack.pop().unwrap();
        add_child(&mut top, n);
        stack.push(top);
        assert(stack_v(stack@) =~= sv.update(sv.len() - 1, with_child(sv.last(), node_v(n))));
    }
}

fn flush_exec(stack: &mut Vec<Element>, h: &[char], from: usize, to: usize)
    requires
        from <= to <= h@.len(),
    ensures
        stack_v(final(stack)@) == flush(stack_v(old(stack)@), h@.subrange(from as int, to as int)),
        final(stack)@.len() == old(stack)@.len(),
{
    if to > from {
        let t = slice_chars(h, from, to);
        push_child_exec(stack, Node::Text(string_of(t.as_slice())));
    }
}

fn close_exec(stack: &mut Vec<Element>)
    ensures
        old(stack)@.len() >= 1 ==> final(stack)@.len() >= 1,
        stack_v(final(stack)@) == close(stack_v(old(stack)@)),
{
    let ghost sv = stack_v(stack@);
    if stack.len() > 1 {
        let done = stack.pop().unwrap();
        assert(stack_v(stack@) =~= sv.drop_last());
        push_child_exec(stack, Node::Element(done));
    }
}

fn close_to_exec(stack: &mut Vec<Element>, n: usize)
    ensures
        old(stack)@.len() >= 1 ==> final(stack)@.len() >= 1,
        stack_v(final(stack)@) == close_to(stack_v(old(stack)@), n as int),
{
    while stack.len() > n && stack.len() > 1
        invariant
            close_to(stack_v(stack@), n as int) == close_to(stack_v(old(stack)@), n as int),
            old(stack)@.len() >= 1 ==> stack@.len() >= 1,
        decreases stack@.len(),
    {
        close_exec(stack);
    }
}

fn last_named_exec(stack: &Vec<Element>, name: &[char]) -> (r: Option<usize>)
    ensures
        match r {
            Some(d) => last_named(stack_v(stack@), name@) == Some(d as int),
            None => last_named(stack_v(stack@), name@) is None,
        },
        r matches Some(d) ==> d < stack@.len(),
{
    let mut k = stack.len();
    let ghost sv = stack_v(stack@);
    proof {
        assert(sv.take(stack@.len() as int) =~= sv);
    }
    while k > 0
        invariant
            k <= stack@.len(),
            sv == stack_v(stack@),
            last_named(sv, name@) == last_named(sv.take(k as int), name@),
        decreases k,
    {
        let nm = chars_of(stack[k - 1].name.as_str());
        assert(sv.take(k as int).last() == elem_v(stack@[k - 1]));
        assert(sv.take(k as int).drop_last() =~= sv.take(k - 1));
        if crate::text::same_chars(nm.as_slice(), name) {
            return Some(k - 1);
        }
        k = k - 1;
    }
    None
}

fn skip_ws_exec(h: &[char], i: usize) -> (r: usize)
    ensures
        r == skip_ws_from(h@, i as int),
        i <= r,
        i <= h@.len() ==> r <= h@.len(),
{
    let mut j = i;
    while j < h.len() && html_ws_exec(h[j])
        invariant
            i <= j,
            i <= h@.len() ==> j <= h@.len(),
            skip_ws_from(h@, i as int) == skip_ws_from(h@, j as int),
        decreases h.len() - j,
    {
        j = j + 1;
    }
    j
}

fn scan_to_exec(h: &[char], i: usize, kind: u32) -> (r: usize)
    ensures
        r == scan_to(h@, i as int, kind),
        i <= r,
        i <= h@.len() ==> r <= h@.len(),
{
    let mut j = i;
    while j < h.len() && !((kind == 0 && (html_ws_exec(h[j]) || h[j] == '>' || h[j] == '/')) || (kind
        == 1 && (html_ws_exec(h[j]) || h[j] == '=' || h[j] == '>' || h[j] == '/')) || (kind == 2 && (
    html_ws_exec(h[j]) || h[j] == '>')) || (kind > 2 && h[j] as u32 == kind))
        invariant
            i <= j,
            i <= h@.len() ==> j <= h@.len(),
            scan_to(h@, i as int, kind) == scan_to(h@, j as int, kind),
        decreases h.len() - j,
    {
        j = j + 1;
    }
    j
}

fn open_tag_exec(h: &[char], at: usize) -> (r: (String, Vec<(String, String)>, bool, usize))
    requires
        at < h@.len(),
        h@.len() < u32::MAX,
    ensures
        (r.0@, attrs_v(r.1@), r.2, r.3 as int) == open_tag_spec(h@, at as int),
        at < r.3 <= h@.len() + 1,
{
    let name_end = scan_to_exec(h, at + 1, 0);
    let name = lowered_exec(slice_chars(h, at + 1, name_end).as_slice());
    let mut attrs: Vec<(String, String)> = Vec::new();
    let mut sc = false;
    let mut i = name_end;
    let ghost goal = attrs_from(h@, name_end as int, false, Seq::empty());
    assert(attrs_v(attrs@) =~= Seq::<(Seq<char>, Seq<char>)>::empty());
    loop
        invariant
            at < i <= h@.len() + 1,
            i >= name_end,
            name_end > at,
            name_end <= h@.len(),
            attrs_from(h@, i as int, sc, attrs_v(attrs@)) == goal,
            goal == attrs_from(h@, name_end as int, false, Seq::empty()),
            name@ == lowered(h@.subrange(at + 1, name_end as int)),
            name_end == scan_to(h@, at + 1, 0),
            h@.len() < u32::MAX,
        decreases h@.len() + 2 - i,
    {
        let j = skip_ws_exec(h, i);
        assert(attrs_from(h@, i as int, sc, attrs_v(attrs@)) == goal);
        if j >= h.len() {
            assert(attrs_from(h@, i as int, sc, attrs_v(attrs@)) == (attrs_v(attrs@), sc, j as int));
            return (string_of(name.as_slice()), attrs, sc, j);
        }
        if h[j] == '>' {
            assert(attrs_from(h@, i as int, sc, attrs_v(attrs@)) == (attrs_v(attrs@), sc, j + 1));
            return (string_of(name.as_slice()), attrs, sc, j + 1);
        }
        if h[j] == '/' {
            sc = true;
            i = j + 1;
            continue;
        }
        let a_end = scan_to_exec(h, j, 1);
        let aname = lowered_exec(slice_chars(h, j, a_end).as_slice());
        let k = skip_ws_exec(h, a_end);
        let mut value: Vec<char> = Vec::new();
        let next: usize;
        if k < h.len() && h[k] == '=' {
            let k2 = skip_ws_exec(h, k + 1);
            if k2 < h.len() && (h[k2] == '"' || h[k2] == '\'') {
                let v_end = scan_to_exec(h, k2 + 1, h[k2] as u32);
                value = slice_chars(h, k2 + 1, v_end);
                next = v_end + 1;
            } else {
                let v_end = scan_to_exec(h, k2, 2);
                value = slice_chars(h, k2, v_end);
                next = v_end;
            }
        } else {
            next = k;
        }
        let ghost before = attrs_v(attrs@);
        if aname.len() > 0 {
            attrs.push((string_of(aname.as_slice()), string_of(value.as_slice())));
            assert(attrs_v(attrs@) =~= before.push((aname@, value@)));
        }
        if next <= i {
            return (string_of(name.as_slice()), attrs, sc, next);
        }
        i = next;
    }
}

fn stack_root(stack: Vec<Element>) -> (r: Element)
    requires
        stack@.len() >= 1,
    ensures
        elem_v(r) == stack_v(stack@)[0],
{
    let mut s = stack;
    while s.len() > 1
        invariant
            s@.len() >= 1,
            stack_v(s@)[0] == stack_v(stack@)[0],
        decreases s@.len(),
    {
        s.pop();
    }
    s.pop().unwrap()
}

proof fn lemma_rest_starts(h: Seq<char>, p: Seq<char>, i: int)
    requires
        0 <= i <= h.len(),
    ensures
        crate::text::starts_with(h.subrange(i, h.len() as int), p) == crate::text::occurs_at(h, p, i),
{
    let rest = h.subrange(i, h.len() as int);
    if i + p.len() <= h.len() {
        assert(rest.subrange(0, p.len() as int) =~= h.subrange(i, i + p.len()));
    }
}

/// The first `c` in `h` at or after `from`, or the end.
fn find_or_end(h: &[char], c: char, from: usize) -> (r: usize)
    requires
        from <= h@.len(),
    ensures
        r == match index_of(h@, seq![c], from as int) {
            Some(at) => at,
            None => h@.len() as int,
        },
        from <= r <= h@.len(),
        r < h@.len() <==> index_of(h@, seq![c], from as int) is Some,
{
    let p = vec![c];
    assert(p@ =~= seq![c]);
    let found = crate::text::find(h, p.as_slice(), from);
    proof {
        crate::text::lemma_index_of(h@, seq![c], from as int);
    }
    match found {
        Some(at) => at,
        None => h.len(),
    }
}

/// One step of the parser at the `<` at `i`, on the open elements in `stack`: the new
/// position, text start, line and line position.
#[verifier::spinoff_prover]
#[verifier::rlimit(40)]
fn step_exec(h: &[char], stack: &mut Vec<Element>, i: usize, text_start: usize, line: u32, line_at: usize) -> (r: (
    usize,
    usize,
    u32,
    usize,
))
    requires
        i < h@.len(),
        h@[i as int] == '<',
        text_start <= i,
        line_at <= i,
        h@.len() < u32::MAX,
        line + newlines(h@.subrange(line_at as int, h@.len() as int)) <= u32::MAX,
        old(stack)@.len() >= 1,
        step(
            h@,
            PState { stack: stack_v(old(stack)@), i: i as int, text_start: text_start as int, line: line as int, line_at: line_at as int },
        ) is Some,
    ensures
        step(
            h@,
            PState { stack: stack_v(old(stack)@), i: i as int, text_start: text_start as int, line: line as int, line_at: line_at as int },
        ) == Some(
            PState { stack: stack_v(final(stack)@), i: r.0 as int, text_start: r.1 as int, line: r.2 as int, line_at: r.3 as int },
        ),
        i < r.0 <= h@.len() + 1,
        r.1 <= r.0,
        r.3 == i,
        final(stack)@.len() >= 1,
        r.2 + newlines(h@.subrange(r.3 as int, h@.len() as int)) <= u32::MAX,
{
    let n = h.len();
    let ghost hv = h@;
    proof {
        crate::text::lemma_newlines_concat(hv.subrange(line_at as int, i as int), hv.subrange(i as int, n as int));
        assert(hv.subrange(line_at as int, i as int) + hv.subrange(i as int, n as int) =~= hv.subrange(line_at as int, n as int));
    }
    let nl = crate::text::count_newlines(h, line_at, i);
    let line2: u32 = line + nl as u32;
    proof {
        reveal_strlit(">");
        assert(">"@ =~= seq!['>']);
    }
    let comment = chars_of("<!--");
    let decl = chars_of("<!");
    let pi = chars_of("<?");
    let end_open = chars_of("</");
    proof {
        lemma_rest_starts(hv, comment@, i as int);
        lemma_rest_starts(hv, decl@, i as int);
        lemma_rest_starts(hv, pi@, i as int);
        lemma_rest_starts(hv, end_open@, i as int);
    }
    if crate::text::occurs_at_exec(h, comment.as_slice(), i) {
        flush_exec(stack, h, text_start, i);
        let arrow = chars_of("-->");
        proof {
            reveal_strlit("-->");
        }
        let found = crate::text::find(h, arrow.as_slice(), i);
        proof {
            crate::text::lemma_index_of(hv, arrow@, i as int);
        }
        let end = match found {
            Some(at) => at + 3,
            None => n,
        };
        proof {
            reveal_strlit("-->");
        }
        return (end, end, line2, i);
    }
    if crate::text::occurs_at_exec(h, decl.as_slice(), i) || crate::text::occurs_at_exec(h, pi.as_slice(), i) {
        flush_exec(stack, h, text_start, i);
        let gt = find_or_end(h, '>', i);
        let end = if gt < n { gt + 1 } else { n };
        proof {
            reveal_strlit(">");
            assert(">"@ =~= seq!['>']);
        }
        return (end, end, line2, i);
    }
    if crate::text::occurs_at_exec(h, end_open.as_slice(), i) {
        proof {
            reveal_strlit("</");
            reveal_strlit(">");
            assert(">"@ =~= seq!['>']);
        }
        let gt = find_or_end(h, '>', i);
        if gt >= n && (h[n - 1] as u32) >= 128 {
            assert(false);
        }
        let end = if gt < n { gt + 1 } else { n };
        flush_exec(stack, h, text_start, i);
        let name_end = if end - 1 > i + 2 { end - 1 } else { i + 2 };
        let raw_name = slice_chars(h, i + 2, name_end);
        let name = lowered_exec(trimmed(raw_name.as_slice()).as_slice());
        let depth_found = last_named_exec(stack, name.as_slice());
        let sl = stack.len();
        match depth_found {
            Some(depth) => {
                assert(depth < sl);
                close_to_exec(stack, depth + 1);
                proof {
                    lemma_close_to_nonempty(stack_v(stack@), (depth + 1) as int);
                }
                if depth > 0 {
                    close_exec(stack);
                }
            },
            None => {},
        }
        return (end, end, line2, i);
    }
    if !(i + 1 < n && (('a' <= h[i + 1] && h[i + 1] <= 'z') || ('A' <= h[i + 1] && h[i + 1] <= 'Z'))) {
        return (i + 1, text_start, line2, i);
    }
    flush_exec(stack, h, text_start, i);
    let (name_s, attrs, sc, end) = open_tag_exec(h, i);
    let name = chars_of(name_s.as_str());
    let el = Element { name: name_s, attrs, children: Vec::new(), line: line2 };
    proof {
        assert(nodes_v(el.children@) =~= Seq::<NodeV>::empty());
    }
    if is_optional_end_exec(name.as_slice()) && stack.len() > 1 {
        let top = chars_of(stack[stack.len() - 1].name.as_str());
        if crate::text::same_chars(top.as_slice(), name.as_slice()) {
            close_exec(stack);
        }
    }
    if sc || is_void_exec(name.as_slice()) {
        push_child_exec(stack, Node::Element(el));
        return (end, end, line2, i);
    }
    if is_raw_exec(name.as_slice()) {
        if end > n {
            assert(false);
        }
        let lower_h = lowered_exec(h);
        let mut close_tag = chars_of("</");
        crate::text::push_all(&mut close_tag, name.as_slice());
        let found = crate::text::find(lower_h.as_slice(), close_tag.as_slice(), end);
        proof {
            crate::text::lemma_index_of(lower_h@, close_tag@, end as int);
        }
        let body_end = match found {
            Some(at) => at,
            None => n,
        };
        let mut el = el;
        if body_end > end {
            let body = slice_chars(h, end, body_end);
            add_child(&mut el, Node::Text(string_of(body.as_slice())));
        }
        let gt = find_or_end(h, '>', body_end);
        let after = if gt < n { gt + 1 } else { n };
        push_child_exec(stack, Node::Element(el));
        return (after, after, line2, i);
    }
    let ghost before = stack_v(stack@);
    let ghost ev = elem_v(el);
    stack.push(el);
    proof {
        assert(stack_v(stack@) =~= before.push(ev));
    }
    (end, end, line2, i)
}

/// Parse `html` into a tree under a synthetic `#document` element. Comments and the
/// doctype are dropped, `<script>`/`<style>` contents kept as text, void elements and
/// `/>` never opened, an end tag with no matching open element ignored.
pub fn parse(html: &str) -> (r: Element)
    requires
        html@.len() < u32::MAX,
        parse_spec(html@) is Some,
    ensures
        Some(elem_v(r)) == parse_spec(html@),
{
    let h = chars_of(html);
    let n = h.len();
    let mut stack: Vec<Element> = Vec::new();
    stack.push(Element { name: "#document".to_string(), attrs: Vec::new(), children: Vec::new(), line: 1 });
    proof {
        assert(attrs_v(stack@[0].attrs@) =~= Seq::<(Seq<char>, Seq<char>)>::empty());
        assert(nodes_v(stack@[0].children@) =~= Seq::<NodeV>::empty());
        assert(stack_v(stack@) =~= seq![ElemV { name: "#document"@, attrs: Seq::empty(), children: Seq::empty(), line: 1 }]);
        crate::text::lemma_newlines_bound(h@);
        assert(h@.subrange(0, n as int) =~= h@);
    }
    let mut i: usize = 0;
    let mut text_start: usize = 0;
    let mut line: u32 = 1;
    let mut line_at: usize = 0;
    loop
        invariant
            n == h@.len(),
            h@ == html@,
            n < u32::MAX,
            i <= n + 1,
            text_start <= i,
            line_at <= i,
            line_at <= n,
            line + newlines(h@.subrange(line_at as int, n as int)) <= u32::MAX,
            stack@.len() >= 1,
            run(h@, PState { stack: stack_v(stack@), i: i as int, text_start: text_start as int, line: line as int, line_at: line_at as int }) == parse_spec(html@),
            parse_spec(html@) is Some,
        decreases n + 2 - i,
    {
        let mut j = i;
        while j < n && h[j] != '<'
            invariant
                i <= j,
                i <= n ==> j <= n,
                n == h@.len(),
                next_lt(h@, i as int) == next_lt(h@, j as int),
            decreases n - j,
        {
            j = j + 1;
        }
        if j >= n {
            if text_start > n {
                assert(false);
            }
            flush_exec(&mut stack, h.as_slice(), text_start, n);
            proof {
                lemma_close_to_nonempty(stack_v(stack@), 1);
            }
            close_to_exec(&mut stack, 1);
            return stack_root(stack);
        }
        let r = step_exec(h.as_slice(), &mut stack, j, text_start, line, line_at);
        i = r.0;
        text_start = r.1;
        line = r.2;
        line_at = r.3;
    }
}

/// Whether the parser's step at the `<` at `i` reads on: it stops only at an end tag left
/// open at the end of a text whose last character is not ASCII, or at a `<script>` or
/// `<style>` whose open tag runs past the end.
fn step_some(h: &[char], i: usize) -> (r: bool)
    requires
        i < h@.len(),
        h@[i as int] == '<',
        h@.len() < u32::MAX,
    ensures
        forall|st: PState| st.i == i ==> (#[trigger] step(h@, st) is Some) == r,
{
    let n = h.len();
    let ghost hv = h@;
    let comment = chars_of("<!--");
    let decl = chars_of("<!");
    let pi = chars_of("<?");
    let end_open = chars_of("</");
    proof {
        lemma_rest_starts(hv, comment@, i as int);
        lemma_rest_starts(hv, decl@, i as int);
        lemma_rest_starts(hv, pi@, i as int);
        lemma_rest_starts(hv, end_open@, i as int);
    }
    if crate::text::occurs_at_exec(h, comment.as_slice(), i) {
        return true;
    }
    if crate::text::occurs_at_exec(h, decl.as_slice(), i) || crate::text::occurs_at_exec(h, pi.as_slice(), i) {
        return true;
    }
    if crate::text::occurs_at_exec(h, end_open.as_slice(), i) {
        proof {
            reveal_strlit(">");
            assert(">"@ =~= seq!['>']);
        }
        let gt = find_or_end(h, '>', i);
        return !(gt >= n && (h[n - 1] as u32) >= 128);
    }
    if !(i + 1 < n && (('a' <= h[i + 1] && h[i + 1] <= 'z') || ('A' <= h[i + 1] && h[i + 1] <= 'Z'))) {
        return true;
    }
    let (name_s, _attrs, sc, end) = open_tag_exec(h, i);
    let name = chars_of(name_s.as_str());
    if sc || is_void_exec(name.as_slice()) {
        return true;
    }
    if is_raw_exec(name.as_slice()) {
        return end <= n;
    }
    true
}

/// Parse `html` as [`parse`] does, or `None` on the text it has no tree for: an end tag
/// left open at the end of a text whose last character is not ASCII, or a `<script>` or
/// `<style>` open tag that runs past the end. A caller tests here before [`parse`].
pub fn try_parse(html: &str) -> (r: Option<Element>)
    requires
        html@.len() < u32::MAX,
    ensures
        match r {
            Some(e) => parse_spec(html@) == Some(elem_v(e)),
            None => parse_spec(html@) is None,
        },
{
    let h = chars_of(html);
    let n = h.len();
    let mut stack: Vec<Element> = Vec::new();
    stack.push(Element { name: "#document".to_string(), attrs: Vec::new(), children: Vec::new(), line: 1 });
    proof {
        assert(attrs_v(stack@[0].attrs@) =~= Seq::<(Seq<char>, Seq<char>)>::empty());
        assert(nodes_v(stack@[0].children@) =~= Seq::<NodeV>::empty());
        assert(stack_v(stack@) =~= seq![ElemV { name: "#document"@, attrs: Seq::empty(), children: Seq::empty(), line: 1 }]);
        crate::text::lemma_newlines_bound(h@);
        assert(h@.subrange(0, n as int) =~= h@);
    }
    let mut i: usize = 0;
    let mut text_start: usize = 0;
    let mut line: u32 = 1;
    let mut line_at: usize = 0;
    loop
        invariant
            n == h@.len(),
            h@ == html@,
            n < u32::MAX,
            i <= n + 1,
            text_start <= i,
            line_at <= i,
            line_at <= n,
            line + newlines(h@.subrange(line_at as int, n as int)) <= u32::MAX,
            stack@.len() >= 1,
            run(h@, PState { stack: stack_v(stack@), i: i as int, text_start: text_start as int, line: line as int, line_at: line_at as int }) == parse_spec(html@),
        decreases n + 2 - i,
    {
        let mut j = i;
        while j < n && h[j] != '<'
            invariant
                i <= j,
                i <= n ==> j <= n,
                n == h@.len(),
                next_lt(h@, i as int) == next_lt(h@, j as int),
            decreases n - j,
        {
            j = j + 1;
        }
        if j >= n {
            if text_start > n {
                return None;
            }
            flush_exec(&mut stack, h.as_slice(), text_start, n);
            proof {
                lemma_close_to_nonempty(stack_v(stack@), 1);
            }
            close_to_exec(&mut stack, 1);
            return Some(stack_root(stack));
        }
        if !step_some(h.as_slice(), j) {
            proof {
                let st = PState { stack: stack_v(stack@), i: j as int, text_start: text_start as int, line: line as int, line_at: line_at as int };
                assert(step(h@, st) is None);
            }
            return None;
        }
        let r = step_exec(h.as_slice(), &mut stack, j, text_start, line, line_at);
        i = r.0;
        text_start = r.1;
        line = r.2;
        line_at = r.3;
    }
}

proof fn lemma_close_to_nonempty(s: Seq<ElemV>, n: int)
    requires
        s.len() >= 1,
    ensures
        close_to(s, n).len() >= 1,
    decreases s.len(),
{
    if s.len() > n && s.len() > 1 {
        lemma_close_to_nonempty(close(s), n);
    }
}

// ---------------------------------------------------------------------------------------
// Queries
// ---------------------------------------------------------------------------------------

/// The value of the first attribute named `name`.
pub open spec fn attr_of(attrs: Seq<(Seq<char>, Seq<char>)>, name: Seq<char>) -> Option<Seq<char>>
    decreases attrs.len(),
{
    if attrs.len() == 0 {
        None
    } else if attrs[0].0 == name {
        Some(attrs[0].1)
    } else {
        attr_of(attrs.drop_first(), name)
    }
}

/// Whether `class` is one of the whitespace-separated words of the `class` attribute.
pub open spec fn has_class_spec(e: ElemV, class: Seq<char>) -> bool {
    match attr_of(e.attrs, "class"@) {
        Some(c) => words(c).contains(class),
        None => false,
    }
}

/// The elements under a list of nodes, preorder.
pub open spec fn desc_nodes(ns: Seq<NodeV>) -> Seq<ElemV>
    decreases ns,
{
    if ns.len() == 0 {
        Seq::empty()
    } else {
        desc_nodes(ns.drop_last()) + desc_node(ns.last())
    }
}

/// A node's elements, itself first, preorder.
pub open spec fn desc_node(n: NodeV) -> Seq<ElemV>
    decreases n,
{
    match n {
        NodeV::Element(e) => seq![e] + desc_nodes(e.children),
        NodeV::Text(_) => Seq::empty(),
    }
}

/// Every element under `e`, preorder.
pub open spec fn desc(e: ElemV) -> Seq<ElemV> {
    desc_nodes(e.children)
}

/// The elements of `s` named `name`, in order.
pub open spec fn named(s: Seq<ElemV>, name: Seq<char>) -> Seq<ElemV>
    decreases s.len(),
{
    if s.len() == 0 {
        Seq::empty()
    } else if s.last().name == name {
        named(s.drop_last(), name).push(s.last())
    } else {
        named(s.drop_last(), name)
    }
}

/// Every element under `e` named `name`.
pub open spec fn find_all_spec(e: ElemV, name: Seq<char>) -> Seq<ElemV> {
    named(desc(e), name)
}

proof fn lemma_named_empty(s: Seq<ElemV>, name: Seq<char>)
    requires
        named(s, name).len() == 0,
    ensures
        forall|k: int| 0 <= k < s.len() ==> #[trigger] s[k].name != name,
    decreases s.len(),
{
    if s.len() > 0 {
        if s.last().name == name {
            assert(named(s, name).len() > 0);
        }
        lemma_named_empty(s.drop_last(), name);
        assert forall|k: int| 0 <= k < s.len() implies #[trigger] s[k].name != name by {
            if k < s.len() - 1 {
                assert(s[k] == s.drop_last()[k]);
            }
        }
    }
}

proof fn lemma_text_same_nodes(ns: Seq<NodeV>)
    requires
        forall|k: int| 0 <= k < desc_nodes(ns).len() ==> #[trigger] desc_nodes(ns)[k].name != "svg"@,
    ensures
        text_nodes(ns, true) == text_nodes(ns, false),
    decreases ns, 0int,
{
    if ns.len() > 0 {
        let a = desc_nodes(ns.drop_last());
        let b = desc_node(ns.last());
        assert(desc_nodes(ns) == a + b);
        assert forall|k: int| 0 <= k < a.len() implies #[trigger] a[k].name != "svg"@ by {
            assert(desc_nodes(ns)[k] == a[k]);
        }
        assert forall|k: int| 0 <= k < b.len() implies #[trigger] b[k].name != "svg"@ by {
            assert(desc_nodes(ns)[a.len() + k] == b[k]);
        }
        lemma_text_same_nodes(ns.drop_last());
        lemma_text_same_node(ns.last());
    }
}

proof fn lemma_text_same_node(n: NodeV)
    requires
        forall|k: int| 0 <= k < desc_node(n).len() ==> #[trigger] desc_node(n)[k].name != "svg"@,
    ensures
        text_node(n, true) == text_node(n, false),
    decreases n, 1int,
{
    match n {
        NodeV::Element(e) => {
            let d = desc_node(n);
            assert(d[0] == e);
            let c = desc_nodes(e.children);
            assert forall|k: int| 0 <= k < c.len() implies #[trigger] c[k].name != "svg"@ by {
                assert(d[k + 1] == c[k]);
            }
            lemma_text_same_nodes(e.children);
        },
        NodeV::Text(_) => {},
    }
}

/// An element with no `<svg>` beneath it shows all its text: its visible text and all
/// its text are the same.
pub proof fn lemma_all_text_is_visible_without_svg(e: ElemV)
    requires
        find_all_spec(e, "svg"@).len() == 0,
    ensures
        all_text_spec(e) == visible(e),
{
    lemma_named_empty(desc(e), "svg"@);
    lemma_text_same_nodes(e.children);
}

/// The text under a list of nodes, `<svg>` subtrees left out when `skip_svg`.
pub open spec fn text_nodes(ns: Seq<NodeV>, skip_svg: bool) -> Seq<char>
    decreases ns,
{
    if ns.len() == 0 {
        Seq::empty()
    } else {
        text_nodes(ns.drop_last(), skip_svg) + text_node(ns.last(), skip_svg)
    }
}

/// A node's text.
pub open spec fn text_node(n: NodeV, skip_svg: bool) -> Seq<char>
    decreases n,
{
    match n {
        NodeV::Text(t) => t,
        NodeV::Element(e) => if skip_svg && e.name == "svg"@ {
            Seq::empty()
        } else {
            text_nodes(e.children, skip_svg)
        },
    }
}

/// The text under `e`, `<svg>` subtrees left out.
pub open spec fn visible(e: ElemV) -> Seq<char> {
    text_nodes(e.children, true)
}

/// All the text under `e`.
pub open spec fn all_text_spec(e: ElemV) -> Seq<char> {
    text_nodes(e.children, false)
}

/// Words joined by single spaces.
pub open spec fn spaced(ws: Seq<Seq<char>>) -> Seq<char>
    decreases ws.len(),
{
    if ws.len() == 0 {
        Seq::empty()
    } else if ws.len() == 1 {
        ws[0]
    } else {
        spaced(ws.drop_last()) + " "@ + ws.last()
    }
}

/// The attributes a description shows.
pub open spec fn shown_attr(name: Seq<char>) -> bool {
    name == "id"@ || name == "class"@ || name == "name"@ || name == "href"@ || name == "type"@
        || name == "role"@ || name == "aria-label"@
}

/// The shown attributes, each as ` name="value"`.
pub open spec fn described_attrs(attrs: Seq<(Seq<char>, Seq<char>)>) -> Seq<char>
    decreases attrs.len(),
{
    if attrs.len() == 0 {
        Seq::empty()
    } else {
        described_attrs(attrs.drop_last()) + if shown_attr(attrs.last().0) {
            " "@ + attrs.last().0 + "=\""@ + attrs.last().1 + "\""@
        } else {
            Seq::empty()
        }
    }
}

/// A one-line description: the open tag with its identifying attributes, then the first
/// 40 characters of the visible text with its whitespace collapsed, `…` after a cut.
pub open spec fn describe_spec(e: ElemV) -> Seq<char> {
    let text = spaced(words(visible(e)));
    "<"@ + e.name + described_attrs(e.attrs) + ">"@ + if text.len() == 0 {
        Seq::empty()
    } else if text.len() > 40 {
        text.take(40) + "…"@
    } else {
        text
    }
}

/// The plain values of a list of elements.
pub open spec fn refs_v(s: Seq<&Element>) -> Seq<ElemV> {
    Seq::new(s.len(), |i: int| elem_v(*s[i]))
}

proof fn lemma_nodes_v_take(ns: Seq<Node>, k: int)
    requires
        0 <= k < ns.len(),
    ensures
        nodes_v(ns.take(k + 1)) == nodes_v(ns.take(k)).push(node_v(ns[k])),
        desc_nodes(nodes_v(ns.take(k + 1))) == desc_nodes(nodes_v(ns.take(k))) + desc_node(node_v(ns[k])),
        text_nodes(nodes_v(ns.take(k + 1)), true) == text_nodes(nodes_v(ns.take(k)), true) + text_node(node_v(ns[k]), true),
        text_nodes(nodes_v(ns.take(k + 1)), false) == text_nodes(nodes_v(ns.take(k)), false) + text_node(node_v(ns[k]), false),
{
    assert(ns.take(k + 1).drop_last() =~= ns.take(k));
    let nv = nodes_v(ns.take(k));
    assert(nv.push(node_v(ns[k])).drop_last() =~= nv);
}

proof fn lemma_nodes_v_all(ns: Seq<Node>)
    ensures
        ns.take(ns.len() as int) == ns,
{
    assert(ns.take(ns.len() as int) =~= ns);
}

fn is_named(e: &Element, name: &str) -> (r: bool)
    ensures
        r == (e.name@ == name@),
{
    let a = chars_of(e.name.as_str());
    let b = chars_of(name);
    crate::text::same_chars(a.as_slice(), b.as_slice())
}

fn walk_desc<'a>(node: &'a Element, into: &mut Vec<&'a Element>)
    ensures
        refs_v(final(into)@) == refs_v(old(into)@) + desc_nodes(nodes_v(node.children@)),
    decreases node,
{
    let mut k: usize = 0;
    proof {
        assert(refs_v(into@) + desc_nodes(nodes_v(node.children@.take(0))) =~= refs_v(into@));
    }
    while k < node.children.len()
        invariant
            k <= node.children@.len(),
            refs_v(into@) == refs_v(old(into)@) + desc_nodes(nodes_v(node.children@.take(k as int))),
        decreases node.children@.len() - k,
    {
        proof {
            lemma_nodes_v_take(node.children@, k as int);
        }
        let ghost before = refs_v(into@);
        match &node.children[k] {
            Node::Element(e) => {
                into.push(e);
                assert(refs_v(into@) =~= before.push(elem_v(*e)));
                walk_desc(e, into);
                proof {
                    let d = desc_nodes(nodes_v(node.children@.take(k as int)));
                    assert(desc_node(node_v(node.children@[k as int])) == seq![elem_v(*e)] + desc_nodes(
                        nodes_v(e.children@),
                    ));
                    assert(refs_v(into@) =~= refs_v(old(into)@) + (d + desc_node(node_v(node.children@[k as int]))));
                }
            },
            Node::Text(_) => {
                proof {
                    assert(desc_nodes(nodes_v(node.children@.take(k + 1))) =~= desc_nodes(
                        nodes_v(node.children@.take(k as int)),
                    ));
                }
            },
        }
        k = k + 1;
    }
    proof {
        lemma_nodes_v_all(node.children@);
    }
}

fn walk_text(node: &Element, into: &mut Vec<char>, skip_svg: bool)
    ensures
        final(into)@ == old(into)@ + text_nodes(nodes_v(node.children@), skip_svg),
    decreases node,
{
    let mut k: usize = 0;
    proof {
        assert(into@ + text_nodes(nodes_v(node.children@.take(0)), skip_svg) =~= into@);
    }
    while k < node.children.len()
        invariant
            k <= node.children@.len(),
            into@ == old(into)@ + text_nodes(nodes_v(node.children@.take(k as int)), skip_svg),
        decreases node.children@.len() - k,
    {
        proof {
            lemma_nodes_v_take(node.children@, k as int);
        }
        let ghost t = text_nodes(nodes_v(node.children@.take(k as int)), skip_svg);
        match &node.children[k] {
            Node::Text(text) => {
                crate::text::push_str(into, text.as_str());
                assert(into@ =~= old(into)@ + (t + text@));
                assert(text_node(node_v(node.children@[k as int]), skip_svg) == text@);
            },
            Node::Element(e) => {
                if !(skip_svg && is_named(e, "svg")) {
                    walk_text(e, into, skip_svg);
                    assert(into@ =~= old(into)@ + (t + text_nodes(nodes_v(e.children@), skip_svg)));
                } else {
                    proof {
                        reveal_strlit("svg");
                        assert(into@ =~= old(into)@ + (t + Seq::<char>::empty()));
                    }
                }
            },
        }
        k = k + 1;
    }
    proof {
        lemma_nodes_v_all(node.children@);
    }
}

impl Element {
    /// The value of attribute `name`, if present.
    pub fn attr(&self, name: &str) -> (r: Option<&str>)
        ensures
            match r {
                Some(v) => attr_of(attrs_v(self.attrs@), name@) == Some(v@),
                None => attr_of(attrs_v(self.attrs@), name@) is None,
            },
    {
        let want = chars_of(name);
        let mut k: usize = 0;
        proof {
            assert(attrs_v(self.attrs@).subrange(0, self.attrs@.len() as int) =~= attrs_v(self.attrs@));
        }
        while k < self.attrs.len()
            invariant
                k <= self.attrs@.len(),
                want@ == name@,
                attr_of(attrs_v(self.attrs@), name@) == attr_of(
                    attrs_v(self.attrs@).subrange(k as int, self.attrs@.len() as int),
                    name@,
                ),
            decreases self.attrs@.len() - k,
        {
            let ghost rest = attrs_v(self.attrs@).subrange(k as int, self.attrs@.len() as int);
            proof {
                assert(rest.drop_first() =~= attrs_v(self.attrs@).subrange(k + 1, self.attrs@.len() as int));
            }
            let have = chars_of(self.attrs[k].0.as_str());
            if crate::text::same_chars(have.as_slice(), want.as_slice()) {
                return Some(self.attrs[k].1.as_str());
            }
            k = k + 1;
        }
        None
    }

    /// Whether `class` is one of the element's classes.
    pub fn has_class(&self, class: &str) -> (r: bool)
        ensures
            r == has_class_spec(elem_v(*self), class@),
    {
        match self.attr("class") {
            Some(c) => {
                let cs = chars_of(c);
                let ws = crate::lint::css::split_words(cs.as_slice());
                let want = chars_of(class);
                let mut k: usize = 0;
                while k < ws.len()
                    invariant
                        k <= ws@.len(),
                        want@ == class@,
                        crate::text::vec_views(ws@) == words(c@),
                        attr_of(elem_v(*self).attrs, "class"@) == Some(c@),
                        forall|j: int| 0 <= j < k ==> ws@[j]@ != class@,
                    decreases ws@.len() - k,
                {
                    if crate::text::same_chars(ws[k].as_slice(), want.as_slice()) {
                        proof {
                            assert(crate::text::vec_views(ws@)[k as int] == class@);
                            assert(words(c@)[k as int] == class@);
                            assert(words(c@).contains(class@));
                            assert(attr_of(elem_v(*self).attrs, "class"@) == Some(c@));
                        }
                        return true;
                    }
                    k = k + 1;
                }
                proof {
                    if words(c@).contains(class@) {
                        let j = choose|j: int| 0 <= j < words(c@).len() && words(c@)[j] == class@;
                        assert(crate::text::vec_views(ws@)[j] == ws@[j]@);
                    }
                }
                false
            },
            None => false,
        }
    }

    /// Every descendant element, preorder.
    pub fn descendants(&self) -> (r: Vec<&Element>)
        ensures
            refs_v(r@) == desc(elem_v(*self)),
    {
        let mut out: Vec<&Element> = Vec::new();
        walk_desc(self, &mut out);
        assert(refs_v(out@) =~= desc(elem_v(*self)));
        out
    }

    /// Every descendant named `name`.
    pub fn find_all(&self, name: &str) -> (r: Vec<&Element>)
        ensures
            refs_v(r@) == find_all_spec(elem_v(*self), name@),
    {
        let all = self.descendants();
        let mut out: Vec<&Element> = Vec::new();
        let mut k: usize = 0;
        while k < all.len()
            invariant
                k <= all@.len(),
                refs_v(all@) == desc(elem_v(*self)),
                refs_v(out@) == named(refs_v(all@).take(k as int), name@),
            decreases all@.len() - k,
        {
            let ghost before = refs_v(out@);
            proof {
                assert(refs_v(all@).take(k + 1).drop_last() =~= refs_v(all@).take(k as int));
            }
            if is_named(all[k], name) {
                out.push(all[k]);
                assert(refs_v(out@) =~= before.push(elem_v(*all@[k as int])));
            }
            k = k + 1;
        }
        assert(refs_v(all@).take(all@.len() as int) =~= refs_v(all@));
        out
    }

    /// The text of every descendant, `<svg>` subtrees excluded (an icon's `<title>` is its
    /// accessible name only when the icon is `role="img"`, which `has_accessible_name`
    /// sees).
    pub fn visible_text(&self) -> (r: String)
        ensures
            r@ == visible(elem_v(*self)),
    {
        let mut out: Vec<char> = Vec::new();
        walk_text(self, &mut out, true);
        assert(out@ =~= visible(elem_v(*self)));
        string_of(out.as_slice())
    }

    /// All the text, including `<svg><title>`.
    pub fn all_text(&self) -> (r: String)
        ensures
            r@ == all_text_spec(elem_v(*self)),
    {
        let mut out: Vec<char> = Vec::new();
        walk_text(self, &mut out, false);
        assert(out@ =~= all_text_spec(elem_v(*self)));
        string_of(out.as_slice())
    }

    /// A one-line description for a finding.
    pub fn describe(&self) -> (r: String)
        ensures
            r@ == describe_spec(elem_v(*self)),
    {
        let mut out = chars_of("<");
        crate::text::push_str(&mut out, self.name.as_str());
        let ghost head = out@;
        let mut k: usize = 0;
        while k < self.attrs.len()
            invariant
                k <= self.attrs@.len(),
                out@ == head + described_attrs(attrs_v(self.attrs@).take(k as int)),
            decreases self.attrs@.len() - k,
        {
            proof {
                assert(attrs_v(self.attrs@).take(k + 1).drop_last() =~= attrs_v(self.attrs@).take(k as int));
            }
            let name = chars_of(self.attrs[k].0.as_str());
            let list = ["id", "class", "name", "href", "type", "role", "aria-label"];
            let mut shown = false;
            let mut j: usize = 0;
            while j < 7
                invariant
                    j <= 7,
                    list@.len() == 7,
                    shown == exists|m: int| 0 <= m < j && name@ == (#[trigger] list@[m])@,
                decreases 7 - j,
            {
                let w = chars_of(list[j]);
                if crate::text::same_chars(name.as_slice(), w.as_slice()) {
                    shown = true;
                }
                j = j + 1;
            }
            proof {
                assert(shown == shown_attr(name@)) by {
                    if shown_attr(name@) {
                        if name@ == "id"@ { assert(list@[0]@ == "id"@); }
                        else if name@ == "class"@ { assert(list@[1]@ == "class"@); }
                        else if name@ == "name"@ { assert(list@[2]@ == "name"@); }
                        else if name@ == "href"@ { assert(list@[3]@ == "href"@); }
                        else if name@ == "type"@ { assert(list@[4]@ == "type"@); }
                        else if name@ == "role"@ { assert(list@[5]@ == "role"@); }
                        else { assert(list@[6]@ == "aria-label"@); }
                    }
                }
            }
            let ghost before = out@;
            if shown {
                crate::text::push_str(&mut out, " ");
                push_all(&mut out, name.as_slice());
                crate::text::push_str(&mut out, "=\"");
                crate::text::push_str(&mut out, self.attrs[k].1.as_str());
                crate::text::push_str(&mut out, "\"");
                assert(out@ =~= before + (" "@ + name@ + "=\""@ + self.attrs@[k as int].1@ + "\""@));
            } else {
                assert(out@ =~= before + Seq::<char>::empty());
            }
            k = k + 1;
        }
        assert(attrs_v(self.attrs@).take(self.attrs@.len() as int) =~= attrs_v(self.attrs@));
        crate::text::push_str(&mut out, ">");
        let vis = chars_of(self.visible_text().as_str());
        let ws = crate::lint::css::split_words(vis.as_slice());
        let mut text: Vec<char> = Vec::new();
        let mut m: usize = 0;
        while m < ws.len()
            invariant
                m <= ws@.len(),
                text@ == spaced(crate::text::vec_views(ws@).take(m as int)),
            decreases ws@.len() - m,
        {
            proof {
                assert(crate::text::vec_views(ws@).take(m + 1).drop_last() =~= crate::text::vec_views(ws@).take(
                    m as int,
                ));
            }
            let ghost before = text@;
            if m > 0 {
                crate::text::push_str(&mut text, " ");
            }
            push_all(&mut text, ws[m].as_slice());
            proof {
                if m == 0 {
                    assert(text@ =~= crate::text::vec_views(ws@).take(1)[0]);
                } else {
                    assert(text@ =~= before + " "@ + ws@[m as int]@);
                }
            }
            m = m + 1;
        }
        assert(crate::text::vec_views(ws@).take(ws@.len() as int) =~= crate::text::vec_views(ws@));
        let ghost tv = text@;
        let ghost mid = out@;
        if text.len() > 40 {
            let short = slice_chars(text.as_slice(), 0, 40);
            push_all(&mut out, short.as_slice());
            crate::text::push_str(&mut out, "…");
            assert(out@ =~= mid + (tv.take(40) + "…"@));
        } else {
            push_all(&mut out, text.as_slice());
            assert(out@ =~= mid + tv);
        }
        proof {
            reveal_strlit("<");
            reveal_strlit(">");
        }
        string_of(out.as_slice())
    }
}

// ---------------------------------------------------------------------------------------
// Accessible names
// ---------------------------------------------------------------------------------------

/// A value present and not blank once trimmed.
pub open spec fn nonblank(v: Option<Seq<char>>) -> bool {
    match v {
        Some(s) => trim(s).len() > 0,
        None => false,
    }
}

/// An `<svg>` that is `role="img"` and whose first `<title>` has text.
pub open spec fn titled_icon(svg: ElemV) -> bool {
    let titles = find_all_spec(svg, "title"@);
    &&& attr_of(svg.attrs, "role"@) == Some("img"@)
    &&& titles.len() > 0
    &&& trim(all_text_spec(titles[0])).len() > 0
}

/// An `<svg>` that is decorative (`aria-hidden="true"`) or a titled icon.
pub open spec fn svg_ok(svg: ElemV) -> bool {
    titled_icon(svg) || attr_of(svg.attrs, "aria-hidden"@) == Some("true"@)
}

/// What assistive technology would announce for a control: `aria-label`, a labelled
/// element, its visible text, a titled icon inside it, an image's alt, or an input's value.
pub open spec fn accessible(e: ElemV) -> bool {
    let svgs = find_all_spec(e, "svg"@);
    let imgs = find_all_spec(e, "img"@);
    if nonblank(attr_of(e.attrs, "aria-label"@)) || attr_of(e.attrs, "aria-labelledby"@) is Some
        || nonblank(attr_of(e.attrs, "title"@)) {
        true
    } else if trim(visible(e)).len() > 0 {
        true
    } else if exists|k: int| 0 <= k < svgs.len() && #[trigger] titled_icon(svgs[k]) {
        true
    } else if e.name == "img"@ || exists|k: int|
        0 <= k < imgs.len() && #[trigger] nonblank(attr_of(imgs[k].attrs, "alt"@)) {
        e.name != "img"@ || nonblank(attr_of(e.attrs, "alt"@))
    } else if e.name == "input"@ {
        nonblank(attr_of(e.attrs, "value"@)) || attr_of(e.attrs, "alt"@) is Some
    } else {
        false
    }
}

fn blank(s: &str) -> (r: bool)
    ensures
        r == (trim(s@).len() == 0),
{
    let c = chars_of(s);
    trimmed(c.as_slice()).len() == 0
}

fn attr_nonblank(e: &Element, name: &str) -> (r: bool)
    ensures
        r == nonblank(attr_of(elem_v(*e).attrs, name@)),
{
    match e.attr(name) {
        Some(v) => !blank(v),
        None => false,
    }
}

fn attr_is(e: &Element, name: &str, value: &str) -> (r: bool)
    ensures
        r == (attr_of(elem_v(*e).attrs, name@) == Some(value@)),
{
    match e.attr(name) {
        Some(v) => {
            let a = chars_of(v);
            let b = chars_of(value);
            crate::text::same_chars(a.as_slice(), b.as_slice())
        },
        None => false,
    }
}

fn titled_icon_exec(svg: &Element) -> (r: bool)
    ensures
        r == titled_icon(elem_v(*svg)),
{
    if !attr_is(svg, "role", "img") {
        return false;
    }
    let titles = svg.find_all("title");
    if titles.len() == 0 {
        return false;
    }
    proof {
        assert(refs_v(titles@)[0] == elem_v(*titles@[0]));
    }
    !blank(titles[0].all_text().as_str())
}

fn svg_ok_exec(svg: &Element) -> (r: bool)
    ensures
        r == svg_ok(elem_v(*svg)),
{
    titled_icon_exec(svg) || attr_is(svg, "aria-hidden", "true")
}

/// What assistive technology would announce for a control: `aria-label`, a labelled
/// element, its visible text, a labelled icon inside it, or an input's value.
pub fn has_accessible_name(element: &Element) -> (r: bool)
    ensures
        r == accessible(elem_v(*element)),
{
    let ghost e = elem_v(*element);
    if attr_nonblank(element, "aria-label") || element.attr("aria-labelledby").is_some()
        || attr_nonblank(element, "title") {
        return true;
    }
    if !blank(element.visible_text().as_str()) {
        return true;
    }
    let svgs = element.find_all("svg");
    let mut k: usize = 0;
    while k < svgs.len()
        invariant
            k <= svgs@.len(),
            refs_v(svgs@) == find_all_spec(e, "svg"@),
            e == elem_v(*element),
            forall|j: int| 0 <= j < k ==> !titled_icon(#[trigger] refs_v(svgs@)[j]),
        decreases svgs@.len() - k,
    {
        if titled_icon_exec(svgs[k]) {
            proof {
                assert(titled_icon(refs_v(svgs@)[k as int]));
            }
            return true;
        }
        k = k + 1;
    }
    let is_img = is_named(element, "img");
    let imgs = element.find_all("img");
    let mut any_alt = false;
    let mut m: usize = 0;
    while m < imgs.len()
        invariant
            m <= imgs@.len(),
            refs_v(imgs@) == find_all_spec(e, "img"@),
            e == elem_v(*element),
            any_alt == exists|j: int| 0 <= j < m && #[trigger] nonblank(attr_of(refs_v(imgs@)[j].attrs, "alt"@)),
        decreases imgs@.len() - m,
    {
        if attr_nonblank(imgs[m], "alt") {
            proof {
                assert(nonblank(attr_of(refs_v(imgs@)[m as int].attrs, "alt"@)));
            }
            any_alt = true;
        }
        m = m + 1;
    }
    if is_img || any_alt {
        return !is_img || attr_nonblank(element, "alt");
    }
    if is_named(element, "input") {
        return attr_nonblank(element, "value") || element.attr("alt").is_some();
    }
    false
}

// ---------------------------------------------------------------------------------------
// Element findings
// ---------------------------------------------------------------------------------------

/// One element-level finding: the rule, the line, what is wrong.
#[derive(Debug, Clone)]
pub struct ElementFinding {
    /// The rule.
    pub rule: RuleId,
    /// 1-based line of the element.
    pub line: u32,
    /// What is wrong, in one sentence.
    pub message: String,
    /// Whether a mechanical fix exists: `focusable="false"` on an inline `<svg>`.
    pub fixable: bool,
}

/// A finding as plain values.
pub struct FindingV {
    pub rule: RuleId,
    pub line: u32,
    pub message: Seq<char>,
    pub fixable: bool,
}

pub open spec fn findings_v(v: Seq<ElementFinding>) -> Seq<FindingV> {
    Seq::new(
        v.len(),
        |i: int| FindingV { rule: v[i].rule, line: v[i].line, message: v[i].message@, fixable: v[i].fixable },
    )
}

/// A single finding.
pub open spec fn one(rule: RuleId, line: u32, message: Seq<char>, fixable: bool) -> Seq<FindingV> {
    seq![FindingV { rule, line, message, fixable }]
}

/// `f` over each element of `s`, in order, the results concatenated.
pub open spec fn flat(s: Seq<ElemV>, f: spec_fn(ElemV) -> Seq<FindingV>) -> Seq<FindingV>
    decreases s.len(),
{
    if s.len() == 0 {
        Seq::empty()
    } else {
        flat(s.drop_last(), f) + f(s.last())
    }
}

proof fn lemma_flat_take(s: Seq<ElemV>, f: spec_fn(ElemV) -> Seq<FindingV>, k: int)
    requires
        0 <= k < s.len(),
    ensures
        flat(s.take(k + 1), f) == flat(s.take(k), f) + f(s[k]),
{
    assert(s.take(k + 1).drop_last() =~= s.take(k));
}

/// An input's `type`, `text` when absent.
pub open spec fn type_or_text(e: ElemV) -> Seq<char> {
    match attr_of(e.attrs, "type"@) {
        Some(t) => t,
        None => "text"@,
    }
}

/// A button, a link with `href`, or a button-like input.
pub open spec fn is_control(e: ElemV) -> bool {
    let t = type_or_text(e);
    ||| e.name == "button"@
    ||| e.name == "a"@ && attr_of(e.attrs, "href"@) is Some
    ||| e.name == "input"@ && (t == "button"@ || t == "submit"@ || t == "reset"@ || t == "image"@)
}

/// `PV401` on one element: a control with no accessible name, an `<svg>` neither hidden
/// nor titled, an `<svg>` that can take focus, an `<img>` without `alt`.
pub open spec fn pv401_of(e: ElemV) -> Seq<FindingV> {
    let control = if is_control(e) && !accessible(e) {
        one(
            RuleId::PV401,
            e.line,
            if find_all_spec(e, "svg"@).len() > 0 {
                "icon-only control with no label: "@ + describe_spec(e)
                    + " — pass the label as icon()'s second argument, or add aria-label"@
            } else {
                "control with no accessible name: "@ + describe_spec(e)
            },
            false,
        )
    } else {
        Seq::empty()
    };
    let svg = if e.name == "svg"@ {
        (if !svg_ok(e) {
            one(
                RuleId::PV401,
                e.line,
                "<svg> is neither aria-hidden=\"true\" nor role=\"img\" with a <title> (docs/icons.md)"@,
                false,
            )
        } else {
            Seq::empty()
        }) + if attr_of(e.attrs, "focusable"@) != Some("false"@) {
            one(
                RuleId::PV401,
                e.line,
                "<svg> without focusable=\"false\": older browsers put it in the tab order (docs/icons.md)"@,
                true,
            )
        } else {
            Seq::empty()
        }
    } else {
        Seq::empty()
    };
    let img = if e.name == "img"@ && attr_of(e.attrs, "alt"@) is None {
        one(RuleId::PV401, e.line, "<img> without alt: "@ + describe_spec(e), false)
    } else {
        Seq::empty()
    };
    control + svg + img
}

/// A `<label>` whose `for` is `t`.
pub open spec fn labels(e: ElemV, t: Seq<char>) -> bool {
    e.name == "label"@ && attr_of(e.attrs, "for"@) == Some(t)
}

/// Some element of `all` is a `<label for="t">`.
pub open spec fn label_for(all: Seq<ElemV>, t: Seq<char>) -> bool
    decreases all.len(),
{
    if all.len() == 0 {
        false
    } else {
        labels(all.last(), t) || label_for(all.drop_last(), t)
    }
}

/// The line of the last `<label for="t">` of `all`.
pub open spec fn last_label_line(all: Seq<ElemV>, t: Seq<char>) -> u32
    decreases all.len(),
{
    if all.len() == 0 {
        0
    } else if labels(all.last(), t) {
        all.last().line
    } else {
        last_label_line(all.drop_last(), t)
    }
}

/// Some element of `all` has the id `t`.
pub open spec fn is_id(all: Seq<ElemV>, t: Seq<char>) -> bool
    decreases all.len(),
{
    if all.len() == 0 {
        false
    } else {
        attr_of(all.last().attrs, "id"@) == Some(t) || is_id(all.drop_last(), t)
    }
}

/// A form control that needs a `<label for>`.
pub open spec fn labelled_kind(e: ElemV) -> bool {
    let t = type_or_text(e);
    ||| e.name == "select"@
    ||| e.name == "textarea"@
    ||| e.name == "input"@ && !(t == "hidden"@ || t == "submit"@ || t == "button"@ || t == "reset"@
        || t == "image"@)
}

/// `PV402` on one element of `all`: a control with no `<label for>` naming its id.
pub open spec fn pv402_of(all: Seq<ElemV>, e: ElemV) -> Seq<FindingV> {
    if labelled_kind(e) {
        match attr_of(e.attrs, "id"@) {
            Some(id) => if label_for(all, id) {
                Seq::empty()
            } else {
                one(RuleId::PV402, e.line, "no <label for=\""@ + id + "\"> for "@ + describe_spec(e), false)
            },
            None => one(
                RuleId::PV402,
                e.line,
                "input without an id, so no <label for> can name it: "@ + describe_spec(e),
                false,
            ),
        }
    } else {
        Seq::empty()
    }
}

/// `d` lists, in ascending order and each once, the targets of the `<label for>`s of `all`
/// that name no element's id, each with the line of its last label.
pub open spec fn dangling_ok(all: Seq<ElemV>, d: Seq<(Seq<char>, u32)>) -> bool {
    &&& forall|i: int, j: int| 0 <= i < j < d.len() ==> crate::text::lex_lt(d[i].0, d[j].0)
    &&& forall|i: int|
        0 <= i < d.len() ==> label_for(all, #[trigger] d[i].0) && !is_id(all, d[i].0) && d[i].1
            == last_label_line(all, d[i].0)
    &&& forall|t: Seq<char>|
        #[trigger] label_for(all, t) && !is_id(all, t) ==> exists|i: int| 0 <= i < d.len() && d[i].0 == t
}

/// The findings for labels naming no element.
pub open spec fn dangling_msgs(d: Seq<(Seq<char>, u32)>) -> Seq<FindingV>
    decreases d.len(),
{
    if d.len() == 0 {
        Seq::empty()
    } else {
        dangling_msgs(d.drop_last()) + one(
            RuleId::PV402,
            d.last().1,
            "<label for=\""@ + d.last().0 + "\"> names no element"@,
            false,
        )
    }
}

/// The innermost `<fieldset>` of a chain of ancestors.
pub open spec fn nearest_fieldset(anc: Seq<ElemV>) -> Option<ElemV>
    decreases anc.len(),
{
    if anc.len() == 0 {
        None
    } else if anc.last().name == "fieldset"@ {
        Some(anc.last())
    } else {
        nearest_fieldset(anc.drop_last())
    }
}

/// A child `<legend>` with text.
pub open spec fn has_legend(f: ElemV) -> bool {
    exists|k: int|
        0 <= k < f.children.len() && (#[trigger] f.children[k] matches NodeV::Element(l) && l.name
            == "legend"@ && trim(all_text_spec(l)).len() > 0)
}

/// `PV403` on one element with its ancestors: a radio or checkbox outside a fieldset
/// with a legend.
pub open spec fn pv403_of(e: ElemV, anc: Seq<ElemV>) -> Seq<FindingV> {
    if e.name == "input"@ && (attr_of(e.attrs, "type"@) == Some("radio"@) || attr_of(e.attrs, "type"@)
        == Some("checkbox"@)) {
        match nearest_fieldset(anc) {
            Some(f) => if has_legend(f) {
                Seq::empty()
            } else {
                one(RuleId::PV403, e.line, "fieldset without a legend around "@ + describe_spec(e), false)
            },
            None => one(RuleId::PV403, e.line, "not inside a fieldset with a legend: "@ + describe_spec(e), false),
        }
    } else {
        Seq::empty()
    }
}

/// `PV403` over a list of nodes under the chain of ancestors `anc`, preorder.
pub open spec fn group_nodes(ns: Seq<NodeV>, anc: Seq<ElemV>) -> Seq<FindingV>
    decreases ns,
{
    if ns.len() == 0 {
        Seq::empty()
    } else {
        group_nodes(ns.drop_last(), anc) + group_node(ns.last(), anc)
    }
}

/// `PV403` over a node and what is under it.
pub open spec fn group_node(n: NodeV, anc: Seq<ElemV>) -> Seq<FindingV>
    decreases n,
{
    match n {
        NodeV::Element(e) => pv403_of(e, anc) + group_nodes(e.children, anc.push(e)),
        NodeV::Text(_) => Seq::empty(),
    }
}

/// Class names that name a colour and nothing else.
pub open spec fn colour_class(x: Seq<char>) -> bool {
    x == "red"@ || x == "green"@ || x == "yellow"@ || x == "orange"@ || x == "amber"@ || x == "blue"@
        || x == "grey"@ || x == "gray"@ || x == "success"@ || x == "danger"@ || x == "warning"@ || x
        == "ok"@ || x == "bad"@
}

/// A class that marks a status.
pub open spec fn status_class(x: Seq<char>) -> bool {
    crate::text::starts_with(x, "pv-badge"@) || crate::text::starts_with(x, "pv-notice"@) || x
        == "pv-error"@ || colour_class(x)
}

/// One of the words of a class list marks a status.
pub open spec fn status_classes(c: Seq<char>) -> bool {
    exists|k: int| 0 <= k < words(c).len() && #[trigger] status_class(words(c)[k])
}

/// An alert, or an element with a status class.
pub open spec fn status_like(e: ElemV) -> bool {
    attr_of(e.attrs, "role"@) == Some("alert"@) || match attr_of(e.attrs, "class"@) {
        Some(c) => status_classes(c),
        None => false,
    }
}

/// `PV405` on one element: a status with no text, so colour alone carries it.
pub open spec fn pv405_of(e: ElemV) -> Seq<FindingV> {
    let svgs = find_all_spec(e, "svg"@);
    if status_like(e) && trim(visible(e)).len() == 0 && !accessible(e) && (forall|k: int|
        0 <= k < svgs.len() ==> !svg_ok(#[trigger] svgs[k]) || attr_of(svgs[k].attrs, "role"@) != Some(
            "img"@,
        )) {
        one(RuleId::PV405, e.line, "status with no text, so colour alone carries it: "@ + describe_spec(e), false)
    } else {
        Seq::empty()
    }
}

/// A `<th>` with a valid `scope`.
pub open spec fn scoped(th: ElemV) -> bool {
    match attr_of(th.attrs, "scope"@) {
        Some(v) => v == "col"@ || v == "row"@ || v == "colgroup"@ || v == "rowgroup"@,
        None => false,
    }
}

/// `PV407` on one `<th>`.
pub open spec fn th_of(th: ElemV) -> Seq<FindingV> {
    if scoped(th) {
        Seq::empty()
    } else {
        one(RuleId::PV407, th.line, "<th> without scope: "@ + describe_spec(th), false)
    }
}

/// `PV407` on one `<table>`: no header cell, then each unscoped one.
pub open spec fn table_of(t: ElemV) -> Seq<FindingV> {
    let ths = find_all_spec(t, "th"@);
    (if ths.len() == 0 {
        one(RuleId::PV407, t.line, "<table> without a <th>"@, false)
    } else {
        Seq::empty()
    }) + flat(ths, |th: ElemV| th_of(th))
}

/// `PV407` on one element: a grid of divs.
pub open spec fn grid_of(e: ElemV) -> Seq<FindingV> {
    if e.name == "div"@ && (has_class_spec(e, "row"@) || has_class_spec(e, "cell"@) || attr_of(
        e.attrs,
        "role"@,
    ) == Some("grid"@)) {
        one(
            RuleId::PV407,
            e.line,
            "a grid of divs where tabular data wants a <table>: "@ + describe_spec(e),
            false,
        )
    } else {
        Seq::empty()
    }
}

/// Every element finding of a tree whose element list is `all`, given the dangling labels
/// `d`, in the order the checks run.
pub open spec fn findings_spec(root: ElemV, d: Seq<(Seq<char>, u32)>) -> Seq<FindingV> {
    let all = desc(root);
    flat(all, |e: ElemV| pv401_of(e)) + flat(all, |e: ElemV| pv402_of(all, e)) + dangling_msgs(d)
        + group_nodes(root.children, Seq::empty()) + flat(all, |e: ElemV| pv405_of(e)) + flat(
        named(all, "table"@),
        |t: ElemV| table_of(t),
    ) + flat(all, |e: ElemV| grid_of(e))
}

fn push_finding(out: &mut Vec<ElementFinding>, rule: RuleId, line: u32, message: Vec<char>, fixable: bool)
    ensures
        findings_v(final(out)@) == findings_v(old(out)@) + one(rule, line, message@, fixable),
{
    let ghost before = findings_v(out@);
    out.push(ElementFinding { rule, line, message: string_of(message.as_slice()), fixable });
    assert(findings_v(out@) =~= before + one(rule, line, message@, fixable));
}

/// `text` followed by the element's description.
fn about(text: &str, e: &Element) -> (r: Vec<char>)
    ensures
        r@ == text@ + describe_spec(elem_v(*e)),
{
    let mut m = chars_of(text);
    crate::text::push_str(&mut m, e.describe().as_str());
    m
}

fn type_or_text_exec(e: &Element) -> (r: Vec<char>)
    ensures
        r@ == type_or_text(elem_v(*e)),
{
    match e.attr("type") {
        Some(t) => chars_of(t),
        None => chars_of("text"),
    }
}

fn among(v: &[char], list: &[&str]) -> (r: bool)
    ensures
        r == exists|k: int| 0 <= k < list@.len() && v@ == (#[trigger] list@[k])@,
{
    name_in(v, list)
}

fn push_pv401(out: &mut Vec<ElementFinding>, e: &Element)
    ensures
        findings_v(final(out)@) == findings_v(old(out)@) + pv401_of(elem_v(*e)),
{
    let ghost ev = elem_v(*e);
    let ghost start = findings_v(out@);
    let t = type_or_text_exec(e);
    let kinds = ["button", "submit", "reset", "image"];
    let button_like = among(t.as_slice(), &kinds);
    proof {
        assert(button_like == (t@ == "button"@ || t@ == "submit"@ || t@ == "reset"@ || t@ == "image"@)) by {
            if t@ == "button"@ { assert(kinds@[0]@ == "button"@); }
            if t@ == "submit"@ { assert(kinds@[1]@ == "submit"@); }
            if t@ == "reset"@ { assert(kinds@[2]@ == "reset"@); }
            if t@ == "image"@ { assert(kinds@[3]@ == "image"@); }
        }
    }
    let control = is_named(e, "button") || (is_named(e, "a") && e.attr("href").is_some()) || (is_named(
        e,
        "input",
    ) && button_like);
    if control && !has_accessible_name(e) {
        let icon_only = e.find_all("svg").len() > 0;
        if icon_only {
            let mut m = about("icon-only control with no label: ", e);
            crate::text::push_str(&mut m, " — pass the label as icon()'s second argument, or add aria-label");
            push_finding(out, RuleId::PV401, e.line, m, false);
        } else {
            push_finding(out, RuleId::PV401, e.line, about("control with no accessible name: ", e), false);
        }
    }
    let ghost mid1 = findings_v(out@);
    if is_named(e, "svg") {
        if !svg_ok_exec(e) {
            push_finding(
                out,
                RuleId::PV401,
                e.line,
                chars_of("<svg> is neither aria-hidden=\"true\" nor role=\"img\" with a <title> (docs/icons.md)"),
                false,
            );
        }
        if !attr_is(e, "focusable", "false") {
            push_finding(
                out,
                RuleId::PV401,
                e.line,
                chars_of("<svg> without focusable=\"false\": older browsers put it in the tab order (docs/icons.md)"),
                true,
            );
        }
    }
    let ghost mid2 = findings_v(out@);
    if is_named(e, "img") && e.attr("alt").is_none() {
        push_finding(out, RuleId::PV401, e.line, about("<img> without alt: ", e), false);
    }
    proof {
        let p = pv401_of(ev);
        assert(findings_v(out@) =~= start + p);
    }
}

proof fn lemma_take_last<A>(s: Seq<A>, k: int)
    requires
        0 <= k < s.len(),
    ensures
        s.take(k + 1).drop_last() == s.take(k),
        s.take(k + 1).last() == s[k],
{
    assert(s.take(k + 1).drop_last() =~= s.take(k));
}

fn label_for_exec(all: &Vec<&Element>, t: &[char]) -> (r: bool)
    ensures
        r == label_for(refs_v(all@), t@),
{
    let mut found = false;
    let mut k: usize = 0;
    while k < all.len()
        invariant
            k <= all@.len(),
            found == label_for(refs_v(all@).take(k as int), t@),
        decreases all@.len() - k,
    {
        proof {
            lemma_take_last(refs_v(all@), k as int);
        }
        if is_named(all[k], "label") {
            match all[k].attr("for") {
                Some(f) => {
                    let fc = chars_of(f);
                    if crate::text::same_chars(fc.as_slice(), t) {
                        found = true;
                    }
                },
                None => {},
            }
        }
        k = k + 1;
    }
    proof {
        assert(refs_v(all@).take(all@.len() as int) =~= refs_v(all@));
    }
    found
}

fn is_id_exec(all: &Vec<&Element>, t: &[char]) -> (r: bool)
    ensures
        r == is_id(refs_v(all@), t@),
{
    let mut found = false;
    let mut k: usize = 0;
    while k < all.len()
        invariant
            k <= all@.len(),
            found == is_id(refs_v(all@).take(k as int), t@),
        decreases all@.len() - k,
    {
        proof {
            lemma_take_last(refs_v(all@), k as int);
        }
        match all[k].attr("id") {
            Some(f) => {
                let fc = chars_of(f);
                if crate::text::same_chars(fc.as_slice(), t) {
                    found = true;
                }
            },
            None => {},
        }
        k = k + 1;
    }
    proof {
        assert(refs_v(all@).take(all@.len() as int) =~= refs_v(all@));
    }
    found
}

fn push_pv402(out: &mut Vec<ElementFinding>, all: &Vec<&Element>, e: &Element)
    ensures
        findings_v(final(out)@) == findings_v(old(out)@) + pv402_of(refs_v(all@), elem_v(*e)),
{
    let ghost start = findings_v(out@);
    let t = type_or_text_exec(e);
    let kinds = ["hidden", "submit", "button", "reset", "image"];
    let excluded = among(t.as_slice(), &kinds);
    proof {
        assert(excluded == (t@ == "hidden"@ || t@ == "submit"@ || t@ == "button"@ || t@ == "reset"@
            || t@ == "image"@)) by {
            if t@ == "hidden"@ { assert(kinds@[0]@ == "hidden"@); }
            if t@ == "submit"@ { assert(kinds@[1]@ == "submit"@); }
            if t@ == "button"@ { assert(kinds@[2]@ == "button"@); }
            if t@ == "reset"@ { assert(kinds@[3]@ == "reset"@); }
            if t@ == "image"@ { assert(kinds@[4]@ == "image"@); }
        }
    }
    let kind = is_named(e, "select") || is_named(e, "textarea") || (is_named(e, "input") && !excluded);
    if !kind {
        assert(findings_v(out@) =~= start + Seq::<FindingV>::empty());
        return;
    }
    match e.attr("id") {
        Some(id) => {
            let idc = chars_of(id);
            if label_for_exec(all, idc.as_slice()) {
                assert(findings_v(out@) =~= start + Seq::<FindingV>::empty());
            } else {
                let mut m = chars_of("no <label for=\"");
                push_all(&mut m, idc.as_slice());
                crate::text::push_str(&mut m, "\"> for ");
                crate::text::push_str(&mut m, e.describe().as_str());
                push_finding(out, RuleId::PV402, e.line, m, false);
            }
        },
        None => {
            push_finding(
                out,
                RuleId::PV402,
                e.line,
                about("input without an id, so no <label for> can name it: ", e),
                false,
            );
        },
    }
}

fn status_class_exec(x: &[char]) -> (r: bool)
    ensures
        r == status_class(x@),
{
    let badge = chars_of("pv-badge");
    let notice = chars_of("pv-notice");
    let error = chars_of("pv-error");
    let colours = ["red", "green", "yellow", "orange", "amber", "blue", "grey", "gray", "success",
        "danger", "warning", "ok", "bad"];
    let c = among(x, &colours);
    proof {
        assert(c == colour_class(x@)) by {
            if x@ == "red"@ { assert(colours@[0]@ == "red"@); }
            if x@ == "green"@ { assert(colours@[1]@ == "green"@); }
            if x@ == "yellow"@ { assert(colours@[2]@ == "yellow"@); }
            if x@ == "orange"@ { assert(colours@[3]@ == "orange"@); }
            if x@ == "amber"@ { assert(colours@[4]@ == "amber"@); }
            if x@ == "blue"@ { assert(colours@[5]@ == "blue"@); }
            if x@ == "grey"@ { assert(colours@[6]@ == "grey"@); }
            if x@ == "gray"@ { assert(colours@[7]@ == "gray"@); }
            if x@ == "success"@ { assert(colours@[8]@ == "success"@); }
            if x@ == "danger"@ { assert(colours@[9]@ == "danger"@); }
            if x@ == "warning"@ { assert(colours@[10]@ == "warning"@); }
            if x@ == "ok"@ { assert(colours@[11]@ == "ok"@); }
            if x@ == "bad"@ { assert(colours@[12]@ == "bad"@); }
        }
    }
    crate::text::starts_with_exec(x, badge.as_slice()) || crate::text::starts_with_exec(x, notice.as_slice())
        || crate::text::same_chars(x, error.as_slice()) || c
}

fn status_like_exec(e: &Element) -> (r: bool)
    ensures
        r == status_like(elem_v(*e)),
{
    if attr_is(e, "role", "alert") {
        return true;
    }
    match e.attr("class") {
        Some(c) => {
            let cs = chars_of(c);
            let ws = crate::lint::css::split_words(cs.as_slice());
            let mut k: usize = 0;
            while k < ws.len()
                invariant
                    k <= ws@.len(),
                    crate::text::vec_views(ws@) == words(c@),
                    attr_of(elem_v(*e).attrs, "class"@) == Some(c@),
                    forall|j: int| 0 <= j < k ==> !status_class(#[trigger] words(c@)[j]),
                decreases ws@.len() - k,
            {
                if status_class_exec(ws[k].as_slice()) {
                    proof {
                        assert(crate::text::vec_views(ws@)[k as int] == ws@[k as int]@);
                        assert(status_class(words(c@)[k as int]));
                        assert(k < words(c@).len());
                        assert(status_classes(c@));
                    }
                    return true;
                }
                proof {
                    assert(crate::text::vec_views(ws@)[k as int] == ws@[k as int]@);
                }
                k = k + 1;
            }
            false
        },
        None => false,
    }
}

fn push_pv405(out: &mut Vec<ElementFinding>, e: &Element)
    ensures
        findings_v(final(out)@) == findings_v(old(out)@) + pv405_of(elem_v(*e)),
{
    let ghost start = findings_v(out@);
    let ghost ev = elem_v(*e);
    if !status_like_exec(e) || !blank(e.visible_text().as_str()) || has_accessible_name(e) {
        assert(findings_v(out@) =~= start + Seq::<FindingV>::empty());
        return;
    }
    let svgs = e.find_all("svg");
    let mut k: usize = 0;
    while k < svgs.len()
        invariant
            k <= svgs@.len(),
            refs_v(svgs@) == find_all_spec(ev, "svg"@),
            forall|j: int|
                0 <= j < k ==> !svg_ok(#[trigger] refs_v(svgs@)[j]) || attr_of(refs_v(svgs@)[j].attrs, "role"@)
                    != Some("img"@),
            findings_v(out@) == start,
            ev == elem_v(*e),
        decreases svgs@.len() - k,
    {
        if svg_ok_exec(svgs[k]) && attr_is(svgs[k], "role", "img") {
            proof {
                assert(svg_ok(refs_v(svgs@)[k as int]));
                assert(attr_of(refs_v(svgs@)[k as int].attrs, "role"@) == Some("img"@));
            }
            assert(findings_v(out@) =~= start + Seq::<FindingV>::empty());
            return;
        }
        k = k + 1;
    }
    push_finding(out, RuleId::PV405, e.line, about("status with no text, so colour alone carries it: ", e), false);
}

fn push_table(out: &mut Vec<ElementFinding>, t: &Element)
    ensures
        findings_v(final(out)@) == findings_v(old(out)@) + table_of(elem_v(*t)),
{
    let ghost start = findings_v(out@);
    let ths = t.find_all("th");
    if ths.len() == 0 {
        push_finding(out, RuleId::PV407, t.line, chars_of("<table> without a <th>"), false);
    }
    let ghost mid = findings_v(out@);
    let ghost f = |th: ElemV| th_of(th);
    let mut k: usize = 0;
    let scopes = ["col", "row", "colgroup", "rowgroup"];
    while k < ths.len()
        invariant
            k <= ths@.len(),
            scopes@.len() == 4,
            scopes@[0]@ == "col"@,
            scopes@[1]@ == "row"@,
            scopes@[2]@ == "colgroup"@,
            scopes@[3]@ == "rowgroup"@,
            findings_v(out@) == mid + flat(refs_v(ths@).take(k as int), f),
            f == (|th: ElemV| th_of(th)),
        decreases ths@.len() - k,
    {
        proof {
            lemma_flat_take(refs_v(ths@), f, k as int);
        }
        let th = ths[k];
        let ok = match th.attr("scope") {
            Some(v) => {
                let vc = chars_of(v);
                among(vc.as_slice(), &scopes)
            },
            None => false,
        };
        proof {
            let thv = elem_v(*th);
            assert(ok == scoped(thv)) by {
                match attr_of(thv.attrs, "scope"@) {
                    Some(v) => {
                        if v == "col"@ { assert(scopes@[0]@ == v); }
                        if v == "row"@ { assert(scopes@[1]@ == v); }
                        if v == "colgroup"@ { assert(scopes@[2]@ == v); }
                        if v == "rowgroup"@ { assert(scopes@[3]@ == v); }
                    },
                    None => {},
                }
            }
        }
        let ghost before = findings_v(out@);
        if !ok {
            push_finding(out, RuleId::PV407, th.line, about("<th> without scope: ", th), false);
        } else {
            assert(findings_v(out@) =~= before + Seq::<FindingV>::empty());
        }
        proof {
            assert(refs_v(ths@)[k as int] == elem_v(*th));
            assert(findings_v(out@) =~= mid + (flat(refs_v(ths@).take(k as int), f) + f(refs_v(ths@)[k as int])));
        }
        k = k + 1;
    }
    proof {
        assert(refs_v(ths@).take(ths@.len() as int) =~= refs_v(ths@));
        assert(findings_v(out@) =~= start + table_of(elem_v(*t)));
    }
}

fn push_grid(out: &mut Vec<ElementFinding>, e: &Element)
    ensures
        findings_v(final(out)@) == findings_v(old(out)@) + grid_of(elem_v(*e)),
{
    let ghost start = findings_v(out@);
    if is_named(e, "div") && (e.has_class("row") || e.has_class("cell") || attr_is(e, "role", "grid")) {
        push_finding(
            out,
            RuleId::PV407,
            e.line,
            about("a grid of divs where tabular data wants a <table>: ", e),
            false,
        );
    } else {
        assert(findings_v(out@) =~= start + Seq::<FindingV>::empty());
    }
}

proof fn lemma_groups_take(ns: Seq<Node>, k: int, anc: Seq<ElemV>)
    requires
        0 <= k < ns.len(),
    ensures
        group_nodes(nodes_v(ns.take(k + 1)), anc) == group_nodes(nodes_v(ns.take(k)), anc) + group_node(
            node_v(ns[k]),
            anc,
        ),
{
    lemma_nodes_v_take(ns, k);
    let nv = nodes_v(ns.take(k));
    assert(nv.push(node_v(ns[k])).drop_last() =~= nv);
}

fn nearest_fieldset_exec<'a>(anc: &Vec<&'a Element>) -> (r: Option<&'a Element>)
    ensures
        match r {
            Some(f) => nearest_fieldset(refs_v(anc@)) == Some(elem_v(*f)),
            None => nearest_fieldset(refs_v(anc@)) is None,
        },
{
    let mut k = anc.len();
    proof {
        assert(refs_v(anc@).take(k as int) =~= refs_v(anc@));
    }
    while k > 0
        invariant
            k <= anc@.len(),
            nearest_fieldset(refs_v(anc@)) == nearest_fieldset(refs_v(anc@).take(k as int)),
        decreases k,
    {
        proof {
            lemma_take_last(refs_v(anc@), k - 1);
        }
        if is_named(anc[k - 1], "fieldset") {
            return Some(anc[k - 1]);
        }
        k = k - 1;
    }
    None
}

fn has_legend_exec(f: &Element) -> (r: bool)
    ensures
        r == has_legend(elem_v(*f)),
{
    let ghost fv = elem_v(*f);
    let mut k: usize = 0;
    proof {
        lemma_nodes_v_len(f.children@);
    }
    while k < f.children.len()
        invariant
            k <= f.children@.len(),
            fv == elem_v(*f),
            fv.children.len() == f.children@.len(),
            forall|j: int|
                0 <= j < k ==> !(#[trigger] fv.children[j] matches NodeV::Element(l) && l.name == "legend"@
                    && trim(all_text_spec(l)).len() > 0),
        decreases f.children@.len() - k,
    {
        proof {
            lemma_nodes_v_index(f.children@, k as int);
        }
        match &f.children[k] {
            Node::Element(l) => {
                if is_named(l, "legend") && !blank(l.all_text().as_str()) {
                    proof {
                        assert(fv.children[k as int] == NodeV::Element(elem_v(*l)));
                    }
                    return true;
                }
            },
            Node::Text(_) => {},
        }
        k = k + 1;
    }
    false
}

fn push_pv403(out: &mut Vec<ElementFinding>, e: &Element, anc: &Vec<&Element>)
    ensures
        findings_v(final(out)@) == findings_v(old(out)@) + pv403_of(elem_v(*e), refs_v(anc@)),
{
    let ghost start = findings_v(out@);
    if is_named(e, "input") && (attr_is(e, "type", "radio") || attr_is(e, "type", "checkbox")) {
        match nearest_fieldset_exec(anc) {
            Some(f) => {
                if has_legend_exec(f) {
                    assert(findings_v(out@) =~= start + Seq::<FindingV>::empty());
                } else {
                    push_finding(out, RuleId::PV403, e.line, about("fieldset without a legend around ", e), false);
                }
            },
            None => {
                push_finding(out, RuleId::PV403, e.line, about("not inside a fieldset with a legend: ", e), false);
            },
        }
    } else {
        assert(findings_v(out@) =~= start + Seq::<FindingV>::empty());
    }
}

fn walk_groups<'a>(element: &'a Element, anc: &mut Vec<&'a Element>, out: &mut Vec<ElementFinding>)
    ensures
        final(anc)@ == old(anc)@,
        findings_v(final(out)@) == findings_v(old(out)@) + group_nodes(
            nodes_v(element.children@),
            refs_v(old(anc)@),
        ),
    decreases element,
{
    let ghost start = findings_v(out@);
    let ghost a = refs_v(anc@);
    let mut k: usize = 0;
    proof {
        assert(start + group_nodes(nodes_v(element.children@.take(0)), a) =~= start);
    }
    while k < element.children.len()
        invariant
            k <= element.children@.len(),
            anc@ == old(anc)@,
            a == refs_v(anc@),
            findings_v(out@) == start + group_nodes(nodes_v(element.children@.take(k as int)), a),
        decreases element.children@.len() - k,
    {
        proof {
            lemma_groups_take(element.children@, k as int, a);
        }
        let ghost before = findings_v(out@);
        match &element.children[k] {
            Node::Element(e) => {
                push_pv403(out, e, anc);
                let ghost mid = findings_v(out@);
                anc.push(e);
                proof {
                    assert(refs_v(anc@) =~= a.push(elem_v(*e)));
                }
                walk_groups(e, anc, out);
                anc.pop();
                proof {
                    assert(anc@ =~= old(anc)@);
                    assert(findings_v(out@) =~= before + (pv403_of(elem_v(*e), a) + group_nodes(
                        nodes_v(e.children@),
                        a.push(elem_v(*e)),
                    )));
                }
            },
            Node::Text(_) => {
                assert(findings_v(out@) =~= before + Seq::<FindingV>::empty());
            },
        }
        k = k + 1;
    }
    proof {
        lemma_nodes_v_all(element.children@);
    }
}

/// Pairs of characters and a line, as plain values.
pub open spec fn pairs_v(s: Seq<(Vec<char>, u32)>) -> Seq<(Seq<char>, u32)> {
    Seq::new(s.len(), |i: int| (s[i].0@, s[i].1))
}

/// Some pair of `d` has the key `t`.
pub open spec fn has_key(d: Seq<(Seq<char>, u32)>, t: Seq<char>) -> bool {
    exists|i: int| 0 <= i < d.len() && #[trigger] d[i].0 == t
}

proof fn lemma_label_push(p: Seq<ElemV>, e: ElemV, t: Seq<char>)
    ensures
        label_for(p.push(e), t) == (labels(e, t) || label_for(p, t)),
        last_label_line(p.push(e), t) == if labels(e, t) {
            e.line
        } else {
            last_label_line(p, t)
        },
{
    assert(p.push(e).drop_last() =~= p);
}

/// The distinct targets of the `<label for>`s of `all` in ascending order, each with the
/// line of its last label.
fn label_targets(all: &Vec<&Element>) -> (r: Vec<(Vec<char>, u32)>)
    ensures
        forall|i: int, j: int| 0 <= i < j < r@.len() ==> crate::text::lex_lt(pairs_v(r@)[i].0, pairs_v(r@)[j].0),
        forall|i: int|
            0 <= i < r@.len() ==> label_for(refs_v(all@), #[trigger] pairs_v(r@)[i].0) && pairs_v(r@)[i].1
                == last_label_line(refs_v(all@), pairs_v(r@)[i].0),
        forall|t: Seq<char>| #[trigger] label_for(refs_v(all@), t) ==> has_key(pairs_v(r@), t),
{
    let mut keys: Vec<(Vec<char>, u32)> = Vec::new();
    let mut k: usize = 0;
    while k < all.len()
        invariant
            k <= all@.len(),
            forall|i: int, j: int|
                0 <= i < j < keys@.len() ==> crate::text::lex_lt(pairs_v(keys@)[i].0, pairs_v(keys@)[j].0),
            forall|i: int|
                0 <= i < keys@.len() ==> label_for(refs_v(all@).take(k as int), #[trigger] pairs_v(keys@)[i].0)
                    && pairs_v(keys@)[i].1 == last_label_line(refs_v(all@).take(k as int), pairs_v(keys@)[i].0),
            forall|t: Seq<char>| #[trigger] label_for(refs_v(all@).take(k as int), t) ==> has_key(pairs_v(keys@), t),
        decreases all@.len() - k,
    {
        let ghost p = refs_v(all@).take(k as int);
        let ghost ev = refs_v(all@)[k as int];
        proof {
            lemma_take_last(refs_v(all@), k as int);
            assert(refs_v(all@).take(k + 1) =~= p.push(ev));
            assert forall|t: Seq<char>| true implies label_for(p.push(ev), t) == (labels(ev, t) || label_for(p, t))
                && last_label_line(p.push(ev), t) == (if labels(ev, t) { ev.line } else { last_label_line(p, t) }) by {
                lemma_label_push(p, ev, t);
            }
        }
        let e = all[k];
        let target: Option<&str> = if is_named(e, "label") { e.attr("for") } else { None };
        match target {
            Some(f) => {
                let fc = chars_of(f);
                let ghost fv = fc@;
                assert(forall|t: Seq<char>| labels(ev, t) <==> t == fv);
                let mut q: usize = 0;
                while q < keys.len() && crate::text::lex_lt_exec(keys[q].0.as_slice(), fc.as_slice())
                    invariant
                        q <= keys@.len(),
                        forall|m: int| 0 <= m < q ==> crate::text::lex_lt(#[trigger] pairs_v(keys@)[m].0, fv),
                        fc@ == fv,
                    decreases keys@.len() - q,
                {
                    q = q + 1;
                }
                let ghost old_keys = pairs_v(keys@);
                if q < keys.len() && crate::text::same_chars(keys[q].0.as_slice(), fc.as_slice()) {
                    keys[q] = (fc, e.line);
                    proof {
                        let nk = pairs_v(keys@);
                        assert(nk =~= old_keys.update(q as int, (fv, ev.line)));
                        assert forall|i: int, j: int| 0 <= i < j < nk.len() implies crate::text::lex_lt(nk[i].0, nk[j].0) by {
                            assert(nk[i].0 == old_keys[i].0);
                            assert(nk[j].0 == old_keys[j].0);
                        }
                        assert forall|i: int| 0 <= i < nk.len() implies label_for(refs_v(all@).take(k + 1), #[trigger] nk[i].0)
                            && nk[i].1 == last_label_line(refs_v(all@).take(k + 1), nk[i].0) by {
                            if i != q {
                                assert(nk[i] == old_keys[i]);
                                assert(old_keys[i].0 != fv) by {
                                    crate::text::lemma_lex_lt_irreflexive(fv);
                                    if i < q {
                                        assert(crate::text::lex_lt(old_keys[i].0, old_keys[q as int].0));
                                    } else {
                                        assert(crate::text::lex_lt(old_keys[q as int].0, old_keys[i].0));
                                    }
                                }
                            }
                        }
                        assert forall|t: Seq<char>| #[trigger] label_for(refs_v(all@).take(k + 1), t) implies has_key(pairs_v(keys@), t) by {
                            if t == fv {
                                assert(pairs_v(keys@)[q as int].0 == t);
                            } else {
                                assert(label_for(p, t));
                                let i = choose|i: int| 0 <= i < old_keys.len() && #[trigger] old_keys[i].0 == t;
                                assert(pairs_v(keys@)[i].0 == t);
                            }
                        }
                    }
                } else {
                    proof {
                        if q < keys@.len() {
                            crate::text::lemma_lex_lt_total(old_keys[q as int].0, fv);
                        }
                    }
                    keys.insert(q, (fc, e.line));
                    proof {
                        let nk = pairs_v(keys@);
                        assert(nk =~= old_keys.insert(q as int, (fv, ev.line)));
                        assert forall|i: int, j: int| 0 <= i < j < nk.len() implies crate::text::lex_lt(nk[i].0, nk[j].0) by {
                            if j < q {
                            } else if j == q {
                            } else if i == q {
                                if j - 1 > q {
                                    crate::text::lemma_lex_lt_transitive(fv, old_keys[q as int].0, old_keys[j - 1].0);
                                }
                            } else if i < q {
                                assert(crate::text::lex_lt(old_keys[i].0, old_keys[j - 1].0));
                            } else {
                            }
                        }
                        assert forall|t: Seq<char>| #[trigger] label_for(refs_v(all@).take(k + 1), t) implies has_key(nk, t) by {
                            if t == fv {
                                assert(nk[q as int].0 == t);
                            } else {
                                assert(label_for(p, t));
                                let i = choose|i: int| 0 <= i < old_keys.len() && #[trigger] old_keys[i].0 == t;
                                if i < q {
                                    assert(nk[i].0 == t);
                                } else {
                                    assert(nk[i + 1].0 == t);
                                }
                            }
                        }
                        assert forall|i: int| 0 <= i < nk.len() implies label_for(refs_v(all@).take(k + 1), #[trigger] nk[i].0)
                            && nk[i].1 == last_label_line(refs_v(all@).take(k + 1), nk[i].0) by {
                            if i < q {
                                assert(nk[i] == old_keys[i]);
                                assert(old_keys[i].0 != fv) by {
                                    crate::text::lemma_lex_lt_irreflexive(fv);
                                }
                            } else if i > q {
                                assert(nk[i] == old_keys[i - 1]);
                                assert(old_keys[i - 1].0 != fv) by {
                                    crate::text::lemma_lex_lt_irreflexive(fv);
                                    if i - 1 > q {
                                        crate::text::lemma_lex_lt_transitive(fv, old_keys[q as int].0, old_keys[i - 1].0);
                                    }
                                }
                            }
                        }
                    }
                }
            },
            None => {
                proof {
                    assert(forall|t: Seq<char>| !labels(ev, t));
                    assert forall|t: Seq<char>| #[trigger] label_for(refs_v(all@).take(k + 1), t) implies has_key(
                        pairs_v(keys@),
                        t,
                    ) by {
                        assert(label_for(p, t));
                    }
                }
            },
        }
        k = k + 1;
    }
    proof {
        assert(refs_v(all@).take(all@.len() as int) =~= refs_v(all@));
    }
    keys
}

/// The targets of `<label for>`s of `all` that name no element, ascending, each with the
/// line of its last label.
fn dangling(all: &Vec<&Element>) -> (r: Vec<(Vec<char>, u32)>)
    ensures
        dangling_ok(refs_v(all@), pairs_v(r@)),
{
    let ghost av = refs_v(all@);
    let keys = label_targets(all);
    let ghost kv = pairs_v(keys@);
    let mut out: Vec<(Vec<char>, u32)> = Vec::new();
    let mut k: usize = 0;
    while k < keys.len()
        invariant
            k <= keys@.len(),
            av == refs_v(all@),
            kv == pairs_v(keys@),
            forall|i: int, j: int| 0 <= i < j < kv.len() ==> crate::text::lex_lt(kv[i].0, kv[j].0),
            forall|i: int|
                0 <= i < kv.len() ==> label_for(av, #[trigger] kv[i].0) && kv[i].1 == last_label_line(av, kv[i].0),
            forall|t: Seq<char>| #[trigger] label_for(av, t) ==> has_key(kv, t),
            forall|i: int, j: int|
                0 <= i < j < out@.len() ==> crate::text::lex_lt(pairs_v(out@)[i].0, pairs_v(out@)[j].0),
            forall|i: int, m: int|
                0 <= i < out@.len() && k <= m < kv.len() ==> crate::text::lex_lt(#[trigger] pairs_v(out@)[i].0, #[trigger] kv[m].0),
            forall|i: int|
                0 <= i < out@.len() ==> label_for(av, #[trigger] pairs_v(out@)[i].0) && !is_id(av, pairs_v(out@)[i].0)
                    && pairs_v(out@)[i].1 == last_label_line(av, pairs_v(out@)[i].0),
            forall|t: Seq<char>|
                #[trigger] label_for(av, t) && !is_id(av, t) ==> has_key(pairs_v(out@), t) || exists|m: int|
                    k <= m < kv.len() && #[trigger] kv[m].0 == t,
        decreases keys@.len() - k,
    {
        let ghost ov = pairs_v(out@);
        if !is_id_exec(all, keys[k].0.as_slice()) {
            out.push((keys[k].0.clone(), keys[k].1));
            proof {
                let nv = pairs_v(out@);
                assert(nv =~= ov.push(kv[k as int]));
                assert forall|i: int, j: int| 0 <= i < j < nv.len() implies crate::text::lex_lt(nv[i].0, nv[j].0) by {
                    if j == ov.len() {
                        assert(crate::text::lex_lt(ov[i].0, kv[k as int].0));
                    }
                }
                assert forall|i: int, m: int| 0 <= i < nv.len() && k + 1 <= m < kv.len() implies crate::text::lex_lt(
                    #[trigger] nv[i].0,
                    #[trigger] kv[m].0,
                ) by {
                    if i == ov.len() {
                    } else {
                        assert(nv[i] == ov[i]);
                    }
                }
                assert forall|t: Seq<char>| #[trigger] label_for(av, t) && !is_id(av, t) implies has_key(nv, t) || exists|m: int|
                    k + 1 <= m < kv.len() && #[trigger] kv[m].0 == t by {
                    if has_key(ov, t) {
                        let i = choose|i: int| 0 <= i < ov.len() && #[trigger] ov[i].0 == t;
                        assert(nv[i].0 == t);
                    } else {
                        let m = choose|m: int| k <= m < kv.len() && #[trigger] kv[m].0 == t;
                        if m == k {
                            assert(nv[ov.len() as int].0 == t);
                        }
                    }
                }
            }
        } else {
            proof {
                assert forall|t: Seq<char>| #[trigger] label_for(av, t) && !is_id(av, t) implies has_key(ov, t) || exists|m: int|
                    k + 1 <= m < kv.len() && #[trigger] kv[m].0 == t by {
                    if !has_key(ov, t) {
                        let m = choose|m: int| k <= m < kv.len() && #[trigger] kv[m].0 == t;
                        assert(m != k);
                    }
                }
            }
        }
        k = k + 1;
    }
    out
}

fn push_dangling(out: &mut Vec<ElementFinding>, d: &Vec<(Vec<char>, u32)>)
    ensures
        findings_v(final(out)@) == findings_v(old(out)@) + dangling_msgs(pairs_v(d@)),
{
    let ghost start = findings_v(out@);
    let mut k: usize = 0;
    proof {
        assert(start + dangling_msgs(pairs_v(d@).take(0)) =~= start);
    }
    while k < d.len()
        invariant
            k <= d@.len(),
            findings_v(out@) == start + dangling_msgs(pairs_v(d@).take(k as int)),
        decreases d@.len() - k,
    {
        proof {
            lemma_take_last(pairs_v(d@), k as int);
        }
        let mut m = chars_of("<label for=\"");
        push_all(&mut m, d[k].0.as_slice());
        crate::text::push_str(&mut m, "\"> names no element");
        let ghost before = findings_v(out@);
        push_finding(out, RuleId::PV402, d[k].1, m, false);
        proof {
            assert(findings_v(out@) =~= start + (dangling_msgs(pairs_v(d@).take(k as int)) + one(
                RuleId::PV402,
                d@[k as int].1,
                m@,
                false,
            )));
        }
        k = k + 1;
    }
    proof {
        assert(pairs_v(d@).take(d@.len() as int) =~= pairs_v(d@));
    }
}

/// The element checks of `PV401`, `PV402`, `PV403`, `PV405` and `PV407` over a tree.
/// Heading order (`PV404`) is not here: its unit is the rendered page, and the template
/// layer judges it over branches.
pub fn element_findings(root: &Element) -> (r: Vec<ElementFinding>)
    ensures
        exists|d: Seq<(Seq<char>, u32)>|
            dangling_ok(desc(elem_v(*root)), d) && findings_v(r@) == findings_spec(elem_v(*root), d),
{
    let all = root.descendants();
    let ghost av = refs_v(all@);
    let ghost f1 = |e: ElemV| pv401_of(e);
    let ghost f2 = |e: ElemV| pv402_of(av, e);
    let ghost f5 = |e: ElemV| pv405_of(e);
    let ghost f7 = |t: ElemV| table_of(t);
    let ghost fg = |e: ElemV| grid_of(e);
    let mut out: Vec<ElementFinding> = Vec::new();
    let mut k: usize = 0;
    proof {
        assert(findings_v(out@) =~= flat(av.take(0), f1));
    }
    while k < all.len()
        invariant
            k <= all@.len(),
            av == refs_v(all@),
            f1 == (|e: ElemV| pv401_of(e)),
            findings_v(out@) == flat(av.take(k as int), f1),
        decreases all@.len() - k,
    {
        proof {
            lemma_flat_take(av, f1, k as int);
        }
        push_pv401(&mut out, all[k]);
        k = k + 1;
    }
    assert(av.take(all@.len() as int) =~= av);
    let ghost a1 = findings_v(out@);
    k = 0;
    assert(findings_v(out@) =~= a1 + flat(av.take(0), f2));
    while k < all.len()
        invariant
            k <= all@.len(),
            av == refs_v(all@),
            f2 == (|e: ElemV| pv402_of(av, e)),
            findings_v(out@) == a1 + flat(av.take(k as int), f2),
        decreases all@.len() - k,
    {
        proof {
            lemma_flat_take(av, f2, k as int);
        }
        push_pv402(&mut out, &all, all[k]);
        k = k + 1;
    }
    let ghost a2 = findings_v(out@);
    let d = dangling(&all);
    push_dangling(&mut out, &d);
    let ghost a3 = findings_v(out@);
    let mut anc: Vec<&Element> = Vec::new();
    walk_groups(root, &mut anc, &mut out);
    proof {
        assert(refs_v(Seq::<&Element>::empty()) =~= Seq::<ElemV>::empty());
    }
    let ghost a4 = findings_v(out@);
    k = 0;
    assert(findings_v(out@) =~= a4 + flat(av.take(0), f5));
    while k < all.len()
        invariant
            k <= all@.len(),
            av == refs_v(all@),
            f5 == (|e: ElemV| pv405_of(e)),
            findings_v(out@) == a4 + flat(av.take(k as int), f5),
        decreases all@.len() - k,
    {
        proof {
            lemma_flat_take(av, f5, k as int);
        }
        push_pv405(&mut out, all[k]);
        k = k + 1;
    }
    let ghost a5 = findings_v(out@);
    let tables = root.find_all("table");
    let ghost tv = refs_v(tables@);
    k = 0;
    assert(findings_v(out@) =~= a5 + flat(tv.take(0), f7));
    while k < tables.len()
        invariant
            k <= tables@.len(),
            tv == refs_v(tables@),
            f7 == (|t: ElemV| table_of(t)),
            findings_v(out@) == a5 + flat(tv.take(k as int), f7),
        decreases tables@.len() - k,
    {
        proof {
            lemma_flat_take(tv, f7, k as int);
        }
        push_table(&mut out, tables[k]);
        k = k + 1;
    }
    assert(tv.take(tables@.len() as int) =~= tv);
    let ghost a6 = findings_v(out@);
    k = 0;
    assert(findings_v(out@) =~= a6 + flat(av.take(0), fg));
    while k < all.len()
        invariant
            k <= all@.len(),
            av == refs_v(all@),
            fg == (|e: ElemV| grid_of(e)),
            findings_v(out@) == a6 + flat(av.take(k as int), fg),
        decreases all@.len() - k,
    {
        proof {
            lemma_flat_take(av, fg, k as int);
        }
        push_grid(&mut out, all[k]);
        k = k + 1;
    }
    proof {
        let dv = pairs_v(d@);
        assert(dangling_ok(desc(elem_v(*root)), dv));
        assert(findings_v(out@) =~= findings_spec(elem_v(*root), dv));
    }
    out
}

/// The heading level of an element named `h` and a number from 1 to 6 as `u32::from_str`
/// reads it.
pub open spec fn heading_level(name: Seq<char>) -> Option<u32> {
    if name.len() > 0 && name[0] == 'h' {
        match crate::text::parse_u32(name.drop_first()) {
            Some(level) => if 1 <= level <= 6 {
                Some(level)
            } else {
                None
            },
            None => None,
        }
    } else {
        None
    }
}

/// The headings of a list of elements, in order, as (level, line).
pub open spec fn headings_of(s: Seq<ElemV>) -> Seq<(u32, u32)>
    decreases s.len(),
{
    if s.len() == 0 {
        Seq::empty()
    } else {
        headings_of(s.drop_last()) + match heading_level(s.last().name) {
            Some(level) => seq![(level, s.last().line)],
            None => Seq::empty(),
        }
    }
}

/// The heading levels of a tree in document order, with their lines.
pub fn headings(root: &Element) -> (r: Vec<(u32, u32)>)
    ensures
        r@ == headings_of(desc(elem_v(*root))),
{
    let all = root.descendants();
    let ghost av = refs_v(all@);
    let mut out: Vec<(u32, u32)> = Vec::new();
    let mut k: usize = 0;
    while k < all.len()
        invariant
            k <= all@.len(),
            av == refs_v(all@),
            out@ == headings_of(av.take(k as int)),
        decreases all@.len() - k,
    {
        proof {
            lemma_take_last(av, k as int);
        }
        let name = chars_of(all[k].name.as_str());
        let ghost before = out@;
        if name.len() > 0 && name[0] == 'h' {
            proof {
                assert(name@.subrange(1, name@.len() as int) =~= name@.drop_first());
            }
            match crate::text::parse_u32_exec(name.as_slice(), 1, name.len()) {
                Some(level) => {
                    if 1 <= level && level <= 6 {
                        out.push((level, all[k].line));
                    }
                },
                None => {},
            }
        }
        proof {
            assert(out@ =~= headings_of(av.take(k as int)) + match heading_level(av[k as int].name) {
                Some(level) => seq![(level, av[k as int].line)],
                None => Seq::<(u32, u32)>::empty(),
            });
        }
        k = k + 1;
    }
    assert(av.take(all@.len() as int) =~= av);
    out
}

} // verus!
