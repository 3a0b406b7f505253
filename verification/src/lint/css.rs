//! What the contrast rule reads of a stylesheet: its `:root` tokens and its rules, `var()`
//! resolution, and which values are colours. Nothing here fails on a value it cannot
//! read; an unreadable value is simply not checked.

use vstd::prelude::*;
use crate::text::{
    chars_of, find, find_char_in_rest, find_in_rest, index_of, is_ws, lower, lowered, lowered_exec, push_all,
    same_chars, slice_chars, split, string_of, trim, trim_bounds, trimmed, utf8_len,
    utf8_len_capped,
};

verus! {

/// The map an insertion log of `(property, value)` pairs builds: later entries win.
pub open spec fn assoc_map(e: Seq<(Seq<char>, Seq<char>)>) -> Map<Seq<char>, Seq<char>>
    decreases e.len(),
{
    if e.len() == 0 {
        Map::empty()
    } else {
        assoc_map(e.drop_last()).insert(e.last().0, e.last().1)
    }
}

/// A block's declarations, by property: a map from lowercased property name to value.
#[derive(Debug, Clone, PartialEq, Eq)]
pub struct Declarations {
    entries: Vec<(String, String)>,
}

impl View for Declarations {
    type V = Map<Seq<char>, Seq<char>>;

    closed spec fn view(&self) -> Map<Seq<char>, Seq<char>> {
        assoc_map(self.entries@.map_values(|e: (String, String)| (e.0@, e.1@)))
    }
}

proof fn lemma_assoc_last(e: Seq<(Seq<char>, Seq<char>)>, k: Seq<char>, i: int)
    requires
        0 <= i < e.len(),
        e[i].0 == k,
        forall|j: int| i < j < e.len() ==> e[j].0 != k,
    ensures
        assoc_map(e).contains_key(k),
        assoc_map(e)[k] == e[i].1,
    decreases e.len(),
{
    if i < e.len() - 1 {
        lemma_assoc_last(e.drop_last(), k, i);
    }
}

proof fn lemma_assoc_absent(e: Seq<(Seq<char>, Seq<char>)>, k: Seq<char>)
    requires
        forall|j: int| 0 <= j < e.len() ==> e[j].0 != k,
    ensures
        !assoc_map(e).contains_key(k),
    decreases e.len(),
{
    if e.len() > 0 {
        lemma_assoc_absent(e.drop_last(), k);
    }
}

impl Declarations {
    /// The property names as declared, in order, a name declared twice appearing twice.
    pub closed spec fn declared(&self) -> Seq<Seq<char>> {
        self.entries@.map_values(|e: (String, String)| e.0@)
    }

    /// No declarations.
    pub fn new() -> (r: Declarations)
        ensures
            r@ == Map::<Seq<char>, Seq<char>>::empty(),
            r.declared() == Seq::<Seq<char>>::empty(),
    {
        let r = Declarations { entries: Vec::new() };
        proof {
            assert(r.entries@.map_values(|e: (String, String)| (e.0@, e.1@)).len() == 0);
            assert(r.declared() =~= Seq::<Seq<char>>::empty());
        }
        r
    }

    /// Set `name` to `value`, replacing what it held.
    pub fn insert(&mut self, name: String, value: String)
        ensures
            final(self)@ == old(self)@.insert(name@, value@),
            final(self).declared() == old(self).declared().push(name@),
    {
        let ghost before = self.entries@.map_values(|e: (String, String)| (e.0@, e.1@));
        let ghost names_before = self.declared();
        let ghost pair = (name@, value@);
        self.entries.push((name, value));
        proof {
            let after = self.entries@.map_values(|e: (String, String)| (e.0@, e.1@));
            assert(after.drop_last() =~= before);
            assert(after.last() == pair);
            assert(self.declared() =~= names_before.push(pair.0));
        }
    }

    /// The value of `name`, if the block declares it.
    pub fn get(&self, name: &str) -> (r: Option<String>)
        ensures
            match r {
                Some(v) => self@.contains_key(name@) && self@[name@] == v@,
                None => !self@.contains_key(name@),
            },
    {
        let ghost e = self.entries@.map_values(|e: (String, String)| (e.0@, e.1@));
        let want = chars_of(name);
        let mut i = self.entries.len();
        while i > 0
            invariant
                i <= self.entries@.len(),
                e == self.entries@.map_values(|e: (String, String)| (e.0@, e.1@)),
                want@ == name@,
                forall|j: int| i <= j < e.len() ==> e[j].0 != name@,
            decreases i,
        {
            let key = chars_of(self.entries[i - 1].0.as_str());
            if same_chars(key.as_slice(), want.as_slice()) {
                proof {
                    lemma_assoc_last(e, name@, i - 1);
                }
                return Some(self.entries[i - 1].1.clone());
            }
            i = i - 1;
        }
        proof {
            lemma_assoc_absent(e, name@);
        }
        None
    }

    /// The declared property names, in the order they were declared (a name declared
    /// twice appears twice).
    pub fn names(&self) -> (r: Vec<String>)
        ensures
            r@.map_values(|s: String| s@) == self.declared(),
            forall|i: int| 0 <= i < r@.len() ==> self@.contains_key(#[trigger] r@[i]@),
            forall|k: Seq<char>| self@.contains_key(k) ==> exists|i: int| 0 <= i < r@.len() && #[trigger] r@[i]@ == k,
    {
        let ghost e = self.entries@.map_values(|e: (String, String)| (e.0@, e.1@));
        let mut out: Vec<String> = Vec::new();
        let mut i: usize = 0;
        while i < self.entries.len()
            invariant
                i <= self.entries@.len(),
                e == self.entries@.map_values(|e: (String, String)| (e.0@, e.1@)),
                out@.len() == i,
                forall|a: int| 0 <= a < i ==> #[trigger] out@[a]@ == e[a].0,
            decreases self.entries@.len() - i,
        {
            out.push(self.entries[i].0.clone());
            i = i + 1;
        }
        proof {
            assert forall|a: int| 0 <= a < out@.len() implies assoc_map(e).contains_key(#[trigger] out@[a]@) by {
                lemma_assoc_has(e, a);
            }
            assert forall|k: Seq<char>| assoc_map(e).contains_key(k) implies exists|a: int| 0 <= a < out@.len() && #[trigger] out@[a]@ == k by {
                lemma_assoc_key(e, k);
                let j = choose|j: int| 0 <= j < e.len() && e[j].0 == k;
                assert(out@[j]@ == k);
            }
            assert(out@.map_values(|s: String| s@) =~= self.declared());
        }
        out
    }
}

proof fn lemma_assoc_has(e: Seq<(Seq<char>, Seq<char>)>, i: int)
    requires
        0 <= i < e.len(),
    ensures
        assoc_map(e).contains_key(e[i].0),
    decreases e.len(),
{
    if i < e.len() - 1 {
        lemma_assoc_has(e.drop_last(), i);
    }
}

proof fn lemma_assoc_key(e: Seq<(Seq<char>, Seq<char>)>, k: Seq<char>)
    requires
        assoc_map(e).contains_key(k),
    ensures
        exists|j: int| 0 <= j < e.len() && e[j].0 == k,
    decreases e.len(),
{
    if e.len() > 0 && e.last().0 != k {
        lemma_assoc_key(e.drop_last(), k);
        let j = choose|j: int| 0 <= j < e.len() - 1 && e.drop_last()[j].0 == k;
        assert(e[j].0 == k);
    }
}

/// What one piece of a block between semicolons declares: `name: value`, the name
/// trimmed and lowercased, the value trimmed. A piece with no colon, or an empty name,
/// declares nothing.
pub open spec fn declaration(piece: Seq<char>) -> Option<(Seq<char>, Seq<char>)> {
    match index_of(piece, seq![':'], 0) {
        None => None,
        Some(c) => {
            let name = trim(piece.subrange(0, c));
            if name.len() == 0 {
                None
            } else {
                Some((lowered(name), trim(piece.subrange(c + 1, piece.len() as int))))
            }
        },
    }
}

/// Fold the declarations of `pieces`, in order, into `m`.
pub open spec fn fold_declarations(
    m: Map<Seq<char>, Seq<char>>,
    pieces: Seq<Seq<char>>,
) -> Map<Seq<char>, Seq<char>>
    decreases pieces.len(),
{
    if pieces.len() == 0 {
        m
    } else {
        let next = match declaration(pieces[0]) {
            Some((k, v)) => m.insert(k, v),
            None => m,
        };
        fold_declarations(next, pieces.drop_first())
    }
}

/// The property names that `pieces` declare, in order.
pub open spec fn declared_names(pieces: Seq<Seq<char>>) -> Seq<Seq<char>>
    decreases pieces.len(),
{
    if pieces.len() == 0 {
        Seq::empty()
    } else {
        match declaration(pieces[0]) {
            Some((k, _)) => seq![k] + declared_names(pieces.drop_first()),
            None => declared_names(pieces.drop_first()),
        }
    }
}

/// The property names a block declares, lowercased, in order, repeats kept.
pub open spec fn declared_names_of(block: Seq<char>) -> Seq<Seq<char>> {
    declared_names(split(block, ';'))
}

/// The declarations of a block, by lowercased property; a later one wins.
pub open spec fn declarations_of(block: Seq<char>) -> Map<Seq<char>, Seq<char>> {
    fold_declarations(Map::empty(), split(block, ';'))
}

fn declaration_exec(piece: &[char]) -> (r: Option<(String, String)>)
    ensures
        match r {
            Some((k, v)) => declaration(piece@) == Some((k@, v@)),
            None => declaration(piece@) is None,
        },
{
    let colon = find_char_in_rest(piece, ':', 0);
    proof {
        assert(piece@.subrange(0, piece@.len() as int) =~= piece@);
    }
    match colon {
        None => None,
        Some(c) => {
            let name = trimmed(slice_chars(piece, 0, c).as_slice());
            if name.len() == 0 {
                return None;
            }
            let key = lowered_exec(name.as_slice());
            let n = piece.len();
            assert(c < n);
            let (a, b) = trim_bounds(piece, c + 1, n);
            let value = slice_chars(piece, a, b);
            Some((string_of(key.as_slice()), string_of(value.as_slice())))
        },
    }
}

fn declarations_chars(block: &[char]) -> (r: Declarations)
    ensures
        r@ == declarations_of(block@),
        r.declared() == declared_names_of(block@),
{
    let mut out = Declarations::new();
    let mut pos: usize = 0;
    let n = block.len();
    proof {
        assert(block@.subrange(0, block@.len() as int) =~= block@);
    }
    loop
        invariant
            pos <= block@.len(),
            n == block@.len(),
            fold_declarations(out@, split(block@.subrange(pos as int, block@.len() as int), ';'))
                == declarations_of(block@),
            out.declared() + declared_names(split(block@.subrange(pos as int, block@.len() as int), ';'))
                == declared_names_of(block@),
        decreases block@.len() - pos,
    {
        let ghost rest = block@.subrange(pos as int, block@.len() as int);
        let semi = find_char_in_rest(block, ';', pos);
        let end = match semi {
            Some(i) => i,
            None => block.len(),
        };
        let piece = slice_chars(block, pos, end);
        let ghost m0 = out@;
        let ghost n0 = out.declared();
        proof {
            match semi {
                Some(i) => {
                    assert(piece@ =~= rest.subrange(0, i - pos));
                    assert(block@.subrange(i + 1, block@.len() as int) =~= rest.subrange(
                        i - pos + 1,
                        rest.len() as int,
                    ));
                    let tail = split(rest.subrange(i - pos + 1, rest.len() as int), ';');
                    assert(split(rest, ';') == seq![piece@] + tail);
                    assert((seq![piece@] + tail)[0] == piece@);
                    assert((seq![piece@] + tail).drop_first() =~= tail);
                },
                None => {
                    assert(piece@ =~= rest);
                    assert(split(rest, ';') == seq![rest]);
                    assert(seq![rest].drop_first() =~= Seq::<Seq<char>>::empty());
                },
            }
        }
        let d = declaration_exec(piece.as_slice());
        match d {
            Some((k, v)) => out.insert(k, v),
            None => {},
        }
        proof {
            let pieces = split(rest, ';');
            assert(pieces[0] == piece@);
            match declaration(piece@) {
                Some((k, _)) => {
                    assert(n0 + declared_names(pieces) =~= out.declared() + declared_names(pieces.drop_first()));
                },
                None => {
                    assert(out.declared() == n0);
                },
            }
        }
        match semi {
            Some(i) => {
                assert(i < n);
                pos = i + 1;
            },
            None => {
                proof {
                    assert(fold_declarations(m0, seq![rest]) == fold_declarations(
                        out@,
                        Seq::<Seq<char>>::empty(),
                    ));
                    assert(fold_declarations(out@, Seq::<Seq<char>>::empty()) == out@);
                    assert(out.declared() + declared_names(Seq::<Seq<char>>::empty()) =~= out.declared());
                }
                return out;
            },
        }
    }
}

/// The declarations of one block, by property (lowercased).
pub fn declarations(block: &str) -> (r: Declarations)
    ensures
        r@ == declarations_of(block@),
        r.declared() == declared_names_of(block@),
{
    let b = chars_of(block);
    declarations_chars(b.as_slice())
}

} // verus!

verus! {

/// `/*`.
pub open spec fn comment_open() -> Seq<char> {
    seq!['/', '*']
}

/// `*/`.
pub open spec fn comment_close() -> Seq<char> {
    seq!['*', '/']
}

/// Every character of `t` turned to a space, except newlines, which stay.
pub open spec fn blank(t: Seq<char>) -> Seq<char> {
    t.map_values(|c: char| if c == '\n' { '\n' } else { ' ' })
}

/// `s` with every `/* … */` replaced by spaces of the same shape, so lines hold. A comment
/// that is never closed ends the text.
pub open spec fn stripped(s: Seq<char>) -> Seq<char>
    decreases s.len(),
{
    match index_of(s, comment_open(), 0) {
        None => s,
        Some(st) => match index_of(s, comment_close(), st) {
            None => s.subrange(0, st),
            Some(e) => if 0 <= st <= e && e + 2 <= s.len() {
                s.subrange(0, st) + blank(s.subrange(st, e + 2)) + stripped(
                    s.subrange(e + 2, s.len() as int),
                )
            } else {
                s
            },
        },
    }
}

fn comment_marks() -> (r: (Vec<char>, Vec<char>))
    ensures
        r.0@ == comment_open(),
        r.1@ == comment_close(),
{
    let a = chars_of("/*");
    let b = chars_of("*/");
    proof {
        reveal_strlit("/*");
        reveal_strlit("*/");
        assert(a@ =~= comment_open());
        assert(b@ =~= comment_close());
    }
    (a, b)
}

proof fn lemma_stripped_unfold(rest: Seq<char>, st: int, e: int)
    requires
        index_of(rest, comment_open(), 0) == Some(st),
        index_of(rest, comment_close(), st) == Some(e),
    ensures
        0 <= st <= e,
        e + 2 <= rest.len(),
        stripped(rest) == rest.subrange(0, st) + blank(rest.subrange(st, e + 2)) + stripped(
            rest.subrange(e + 2, rest.len() as int),
        ),
{
    crate::text::lemma_index_of(rest, comment_open(), 0);
    crate::text::lemma_index_of(rest, comment_close(), st);
}

fn push_blank(out: &mut Vec<char>, css: &[char], from: usize, to: usize)
    requires
        from <= to <= css@.len(),
    ensures
        final(out)@ == old(out)@ + blank(css@.subrange(from as int, to as int)),
{
    let mut k = from;
    while k < to
        invariant
            from <= k <= to <= css@.len(),
            out@ == old(out)@ + blank(css@.subrange(from as int, k as int)),
        decreases to - k,
    {
        if css[k] == '\n' {
            out.push('\n');
        } else {
            out.push(' ');
        }
        k = k + 1;
        proof {
            assert(blank(css@.subrange(from as int, k as int)) =~= blank(
                css@.subrange(from as int, k - 1),
            ).push(if css@[k - 1] == '\n' { '\n' } else { ' ' }));
        }
    }
}

fn strip_chars(css: &[char]) -> (r: Vec<char>)
    ensures
        r@ == stripped(css@),
{
    let (open, close) = comment_marks();
    let mut out: Vec<char> = Vec::new();
    let mut pos: usize = 0;
    let n = css.len();
    proof {
        assert(css@.subrange(0, css@.len() as int) =~= css@);
    }
    loop
        invariant
            pos <= css@.len(),
            n == css@.len(),
            open@ == comment_open(),
            close@ == comment_close(),
            out@ + stripped(css@.subrange(pos as int, css@.len() as int)) == stripped(css@),
        decreases css@.len() - pos,
    {
        let ghost rest = css@.subrange(pos as int, css@.len() as int);
        let ghost before = out@;
        match find_in_rest(css, open.as_slice(), pos, 0) {
            None => {
                let tail = slice_chars(css, pos, n);
                push_all(&mut out, tail.as_slice());
                return out;
            },
            Some(st) => {
                let head = slice_chars(css, pos, st);
                push_all(&mut out, head.as_slice());
                match find_in_rest(css, close.as_slice(), pos, st - pos) {
                    None => {
                        proof {
                            assert(head@ =~= rest.subrange(0, st - pos));
                        }
                        return out;
                    },
                    Some(e) => {
                        assert(e + 2 <= n);
                        push_blank(&mut out, css, st, e + 2);
                        proof {
                            lemma_stripped_unfold(rest, st - pos, e - pos);
                            assert(head@ =~= rest.subrange(0, st - pos));
                            assert(css@.subrange(st as int, e + 2) =~= rest.subrange(
                                st - pos,
                                e + 2 - pos,
                            ));
                            assert(css@.subrange(e + 2, css@.len() as int) =~= rest.subrange(
                                e + 2 - pos,
                                rest.len() as int,
                            ));
                            assert(before + stripped(rest) == before + (head@ + blank(
                                css@.subrange(st as int, e + 2),
                            ) + stripped(css@.subrange(e + 2, css@.len() as int))));
                            assert(out@ + stripped(css@.subrange(e + 2, css@.len() as int))
                                =~= before + stripped(rest));
                        }
                        pos = e + 2;
                    },
                }
            },
        }
    }
}

/// `css` with every `/* … */` replaced by spaces of the same shape, so lines hold.
pub fn strip_comments(css: &str) -> (r: String)
    ensures
        r@ == stripped(css@),
{
    let c = chars_of(css);
    let s = strip_chars(c.as_slice());
    string_of(s.as_slice())
}

} // verus!

verus! {

/// `:root`.
pub open spec fn root_mark() -> Seq<char> {
    seq![':', 'r', 'o', 'o', 't']
}

/// The declarations of every `:root { … }` block of `css` from `from` on, in order.
pub open spec fn tokens_from(css: Seq<char>, from: int) -> Seq<Map<Seq<char>, Seq<char>>>
    decreases css.len() + 1 - from,
{
    match index_of(css, root_mark(), from) {
        None => Seq::empty(),
        Some(start) => match index_of(css, seq!['{'], start) {
            None => Seq::empty(),
            Some(open) => match index_of(css, seq!['}'], open) {
                None => Seq::empty(),
                Some(close) => if from <= close < css.len() {
                    seq![declarations_of(css.subrange(open + 1, close))] + tokens_from(
                        css,
                        close + 1,
                    )
                } else {
                    Seq::empty()
                },
            },
        },
    }
}

/// The text inside every `:root { … }` block of `css` from `from` on, in order.
pub open spec fn root_blocks_from(css: Seq<char>, from: int) -> Seq<Seq<char>>
    decreases css.len() + 1 - from,
{
    match index_of(css, root_mark(), from) {
        None => Seq::empty(),
        Some(start) => match index_of(css, seq!['{'], start) {
            None => Seq::empty(),
            Some(open) => match index_of(css, seq!['}'], open) {
                None => Seq::empty(),
                Some(close) => if from <= close < css.len() {
                    seq![css.subrange(open + 1, close)] + root_blocks_from(css, close + 1)
                } else {
                    Seq::empty()
                },
            },
        },
    }
}

/// The text inside every `:root { … }` block, in order, comments stripped first.
pub open spec fn root_blocks(css: Seq<char>) -> Seq<Seq<char>> {
    root_blocks_from(stripped(css), 0)
}

/// The custom properties of every `:root { … }` block, in order, comments stripped first.
pub open spec fn root_tokens_of(css: Seq<char>) -> Seq<Map<Seq<char>, Seq<char>>> {
    tokens_from(stripped(css), 0)
}

/// The custom properties of every `:root { … }` block, in order — the light scheme first,
/// then the one inside `@media (prefers-color-scheme: dark)`.
pub fn root_tokens(css: &str) -> (r: Vec<Declarations>)
    ensures
        r@.map_values(|d: Declarations| d@) == root_tokens_of(css@),
        r@.len() == root_blocks(css@).len(),
        forall|i: int| 0 <= i < r@.len() ==> (#[trigger] r@[i]).declared() == declared_names_of(root_blocks(css@)[i]),
{
    let raw = chars_of(css);
    let text = strip_chars(raw.as_slice());
    let mark = chars_of(":root");
    proof {
        reveal_strlit(":root");
        assert(mark@ =~= root_mark());
    }
    let lbrace: Vec<char> = vec!['{'];
    let rbrace: Vec<char> = vec!['}'];
    proof {
        assert(lbrace@ =~= seq!['{']);
        assert(rbrace@ =~= seq!['}']);
    }
    let mut out: Vec<Declarations> = Vec::new();
    let mut from: usize = 0;
    let ghost mut blocks: Seq<Seq<char>> = Seq::empty();
    loop
        invariant
            from <= text@.len() + 1,
            text@ == stripped(css@),
            blocks + root_blocks_from(text@, from as int) == root_blocks_from(text@, 0),
            out@.len() == blocks.len(),
            forall|i: int| 0 <= i < out@.len() ==> (#[trigger] out@[i]).declared() == declared_names_of(blocks[i]),
            mark@ == root_mark(),
            lbrace@ == seq!['{'],
            rbrace@ == seq!['}'],
            out@.map_values(|d: Declarations| d@) + tokens_from(text@, from as int)
                == tokens_from(text@, 0),
        decreases text@.len() + 1 - from,
    {
        let ghost before = out@.map_values(|d: Declarations| d@);
        let start = match find(text.as_slice(), mark.as_slice(), from) {
            Some(s) => s,
            None => {
                proof {
                    assert(before + Seq::<Map<Seq<char>, Seq<char>>>::empty() =~= before);
                    assert(blocks + Seq::<Seq<char>>::empty() =~= blocks);
                }
                return out;
            },
        };
        let open = match find(text.as_slice(), lbrace.as_slice(), start) {
            Some(o) => o,
            None => {
                proof {
                    assert(before + Seq::<Map<Seq<char>, Seq<char>>>::empty() =~= before);
                    assert(blocks + Seq::<Seq<char>>::empty() =~= blocks);
                }
                return out;
            },
        };
        let close = match find(text.as_slice(), rbrace.as_slice(), open) {
            Some(c) => c,
            None => {
                proof {
                    assert(before + Seq::<Map<Seq<char>, Seq<char>>>::empty() =~= before);
                    assert(blocks + Seq::<Seq<char>>::empty() =~= blocks);
                }
                return out;
            },
        };
        proof {
            crate::text::lemma_index_of(text@, root_mark(), from as int);
            crate::text::lemma_index_of(text@, seq!['{'], start as int);
            crate::text::lemma_index_of(text@, seq!['}'], open as int);
            assert(text@.subrange(open as int, open + 1)[0] == text@[open as int]);
            assert(text@.subrange(close as int, close + 1)[0] == text@[close as int]);
        }
        let block = slice_chars(text.as_slice(), open + 1, close);
        let d = declarations_chars(block.as_slice());
        let ghost blocks_before = blocks;
        out.push(d);
        proof {
            assert(out@.map_values(|d: Declarations| d@) =~= before.push(
                declarations_of(text@.subrange(open + 1, close as int)),
            ));
            blocks = blocks.push(text@.subrange(open + 1, close as int));
            assert(blocks_before + root_blocks_from(text@, from as int) =~= blocks + root_blocks_from(text@, close + 1));
        }
        assert(close < text.len());
        from = close + 1;
    }
}

} // verus!

verus! {

/// `@font-face`.
pub open spec fn font_face() -> Seq<char> {
    seq!['@', 'f', 'o', 'n', 't', '-', 'f', 'a', 'c', 'e']
}

/// A selector that opens an at-rule whose body holds further rules (`@media`, `@supports`),
/// as opposed to `@font-face`, whose body is declarations.
pub open spec fn is_grouping_rule(selector: Seq<char>) -> bool {
    selector.len() > 0 && selector[0] == '@' && !crate::text::starts_with(selector, font_face())
}

/// The `}` that closes a block whose body starts at `i`, `depth` braces deep.
pub open spec fn close_of(s: Seq<char>, i: int, depth: int) -> Option<int>
    decreases s.len() - i,
{
    if i < 0 || i >= s.len() {
        None
    } else if s[i] == '{' {
        close_of(s, i + 1, depth + 1)
    } else if s[i] == '}' {
        if depth <= 1 {
            Some(i)
        } else {
            close_of(s, i + 1, depth - 1)
        }
    } else {
        close_of(s, i + 1, depth)
    }
}

/// One style rule, as data.
pub struct RuleView {
    pub selector: Seq<char>,
    pub declarations: Map<Seq<char>, Seq<char>>,
    pub line: u32,
}

/// The rules one `selector { body }` makes: one per comma-separated part of the selector,
/// each with the body's declarations and the selector's line.
pub open spec fn rules_for(selector: Seq<char>, body: Seq<char>, line: u32) -> Seq<RuleView> {
    split(selector, ',').map_values(
        |piece: Seq<char>|
            RuleView { selector: trim(piece), declarations: declarations_of(body), line: line },
    )
}

/// Every `selector { declarations }` of `css` from index `pos` on, grouping at-rules
/// flattened, in order, each with the 1-based line its selector starts on in the sheet
/// `css` is part of, `base` being the newlines of the sheet before `css`.
pub open spec fn rules_from(css: Seq<char>, pos: int, base: int) -> Seq<RuleView>
    decreases css.len(), css.len() - pos,
{
    if pos < 0 || pos > css.len() {
        Seq::empty()
    } else {
        match index_of(css, seq!['{'], pos) {
            None => Seq::empty(),
            Some(open) => if open < pos || open >= css.len() {
                Seq::empty()
            } else {
                match close_of(css, open + 1, 1) {
                    None => Seq::empty(),
                    Some(end) => if end <= open || end >= css.len() {
                        Seq::empty()
                    } else {
                        let raw = css.subrange(pos, open);
                        let selector = trim(raw);
                        let body = css.subrange(open + 1, end);
                        let here = if is_grouping_rule(selector) {
                            rules_from(body, 0, base + crate::text::newlines(css.subrange(0, open + 1)))
                        } else {
                            let at = open - crate::text::trim_start(raw).len();
                            rules_for(selector, body, (base + crate::text::line_at(css, at)) as u32)
                        };
                        here + rules_from(css, end + 1, base)
                    },
                }
            },
        }
    }
}

/// Every rule of a stylesheet, comments stripped first.
pub open spec fn rules_of(css: Seq<char>) -> Seq<RuleView> {
    rules_from(stripped(css), 0, 0)
}

/// One style rule.
#[derive(Debug, Clone, PartialEq, Eq)]
pub struct Rule {
    /// The selector, one per comma-separated part.
    pub selector: String,
    /// The declarations, by property.
    pub declarations: Declarations,
    /// 1-based line of the selector.
    pub line: u32,
}

impl View for Rule {
    type V = RuleView;

    open spec fn view(&self) -> RuleView {
        RuleView { selector: self.selector@, declarations: self.declarations@, line: self.line }
    }
}

fn find_close(css: &[char], from: usize) -> (r: Option<usize>)
    requires
        from <= css@.len(),
        css@.len() < u32::MAX,
    ensures
        match r {
            Some(i) => from <= i < css@.len() && close_of(css@, from as int, 1) == Some(i as int),
            None => close_of(css@, from as int, 1) is None,
        },
{
    let mut depth: usize = 1;
    let mut j = from;
    while j < css.len()
        invariant
            from <= j <= css@.len(),
            css@.len() < u32::MAX,
            1 <= depth <= j - from + 1,
            close_of(css@, from as int, 1) == close_of(css@, j as int, depth as int),
        decreases css@.len() - j,
    {
        if css[j] == '{' {
            depth = depth + 1;
        } else if css[j] == '}' {
            if depth == 1 {
                return Some(j);
            }
            depth = depth - 1;
        }
        j = j + 1;
    }
    None
}

fn push_rules_for(
    into: &mut Vec<Rule>,
    selector: &[char],
    body: &[char],
    line: u32,
)
    ensures
        final(into)@.map_values(|r: Rule| r@) == old(into)@.map_values(|r: Rule| r@) + rules_for(
            selector@,
            body@,
            line,
        ),
{
    let ghost f = |piece: Seq<char>|
        RuleView { selector: trim(piece), declarations: declarations_of(body@), line: line };
    let mut pos: usize = 0;
    let n = selector.len();
    proof {
        assert(selector@.subrange(0, selector@.len() as int) =~= selector@);
    }
    loop
        invariant
            pos <= selector@.len(),
            n == selector@.len(),
            f == (|piece: Seq<char>|
                RuleView { selector: trim(piece), declarations: declarations_of(body@), line: line }),
            into@.map_values(|r: Rule| r@) + split(
                selector@.subrange(pos as int, selector@.len() as int),
                ',',
            ).map_values(f) == old(into)@.map_values(|r: Rule| r@) + split(selector@, ',').map_values(f),
        decreases selector@.len() - pos,
    {
        let ghost rest = selector@.subrange(pos as int, selector@.len() as int);
        let ghost before = into@.map_values(|r: Rule| r@);
        let comma = find_char_in_rest(selector, ',', pos);
        let end = match comma {
            Some(i) => i,
            None => n,
        };
        let piece = slice_chars(selector, pos, end);
        let name = trimmed(piece.as_slice());
        let decls = declarations_chars(body);
        into.push(Rule { selector: string_of(name.as_slice()), declarations: decls, line });
        proof {
            assert(into@.map_values(|r: Rule| r@) =~= before.push(f(piece@)));
        }
        match comma {
            Some(i) => {
                proof {
                    assert(piece@ =~= rest.subrange(0, i - pos));
                    let tail = split(rest.subrange(i - pos + 1, rest.len() as int), ',');
                    assert(selector@.subrange(i + 1, selector@.len() as int) =~= rest.subrange(
                        i - pos + 1,
                        rest.len() as int,
                    ));
                    assert(split(rest, ',') == seq![piece@] + tail);
                    assert((seq![piece@] + tail).map_values(f) =~= seq![f(piece@)] + tail.map_values(f));
                    assert(before.push(f(piece@)) + tail.map_values(f) =~= before + (seq![f(piece@)]
                        + tail.map_values(f)));
                }
                assert(i < n);
                pos = i + 1;
            },
            None => {
                proof {
                    assert(piece@ =~= rest);
                    assert(split(rest, ',') == seq![rest]);
                    assert(seq![rest].map_values(f) =~= seq![f(rest)]);
                    assert(into@.map_values(|r: Rule| r@) =~= before + seq![rest].map_values(f));
                }
                return;
            },
        }
    }
}

fn collect_rules(css: &[char], base: u32, into: &mut Vec<Rule>)
    requires
        base + css@.len() < u32::MAX,
    ensures
        final(into)@.map_values(|r: Rule| r@) == old(into)@.map_values(|r: Rule| r@) + rules_from(
            css@,
            0,
            base as int,
        ),
    decreases css@.len(),
{
    let lbrace: Vec<char> = vec!['{'];
    proof {
        assert(lbrace@ =~= seq!['{']);
    }
    let mut pos: usize = 0;
    let n = css.len();
    loop
        invariant
            pos <= css@.len(),
            n == css@.len(),
            base + css@.len() < u32::MAX,
            lbrace@ == seq!['{'],
            into@.map_values(|r: Rule| r@) + rules_from(css@, pos as int, base as int) == old(into)@.map_values(
                |r: Rule| r@,
            ) + rules_from(css@, 0, base as int),
        decreases css@.len() - pos,
    {
        let ghost before = into@.map_values(|r: Rule| r@);
        let open = match find(css, lbrace.as_slice(), pos) {
            Some(o) => o,
            None => {
                proof {
                    assert(before + Seq::<RuleView>::empty() =~= before);
                }
                return;
            },
        };
        proof {
            crate::text::lemma_index_of(css@, seq!['{'], pos as int);
        }
        let end = match find_close(css, open + 1) {
            Some(e) => e,
            None => {
                proof {
                    assert(before + Seq::<RuleView>::empty() =~= before);
                }
                return;
            },
        };
        let (a, b) = trim_bounds(css, pos, open);
        let selector = slice_chars(css, a, b);
        let body = slice_chars(css, open + 1, end);
        let grouping = selector.len() > 0 && selector[0] == '@' && !starts_with_font_face(
            selector.as_slice(),
        );
        let ghost raw = css@.subrange(pos as int, open as int);
        assert(grouping == is_grouping_rule(selector@));
        if grouping {
            let inner = crate::text::count_newlines(css, 0, open + 1);
            proof {
                crate::text::lemma_newlines_bound(css@.subrange(0, open + 1));
            }
            collect_rules(body.as_slice(), base + inner as u32, into);
            proof {
                assert(rules_from(css@, pos as int, base as int) == rules_from(body@, 0, base + inner) + rules_from(
                    css@,
                    end + 1,
                    base as int,
                ));
            }
        } else {
            let lead = crate::text::skip_ws(css, pos, open);
            proof {
                lemma_trim_start_len(css@, pos as int, open as int, lead as int);
            }
            let local = crate::text::line_of(css, lead);
            proof {
                crate::text::lemma_newlines_bound(css@.subrange(0, lead as int));
            }
            let line = base + local;
            push_rules_for(into, selector.as_slice(), body.as_slice(), line);
            proof {
                assert(open - crate::text::trim_start(raw).len() == lead);
                assert((base + crate::text::line_at(css@, lead as int)) as u32 == line);
                assert(rules_from(css@, pos as int, base as int) == rules_for(selector@, body@, line)
                    + rules_from(css@, end + 1, base as int));
            }
        }
        proof {
            assert(into@.map_values(|r: Rule| r@) + rules_from(css@, end + 1, base as int) =~= before
                + rules_from(css@, pos as int, base as int));
        }
        pos = end + 1;
    }
}

proof fn lemma_stripped_len(s: Seq<char>)
    ensures
        stripped(s).len() <= s.len(),
    decreases s.len(),
{
    match index_of(s, comment_open(), 0) {
        None => {},
        Some(st) => {
            crate::text::lemma_index_of(s, comment_open(), 0);
            match index_of(s, comment_close(), st) {
                None => {},
                Some(e) => {
                    if 0 <= st <= e && e + 2 <= s.len() {
                        lemma_stripped_len(s.subrange(e + 2, s.len() as int));
                    }
                },
            }
        },
    }
}

proof fn lemma_trim_start_len(s: Seq<char>, from: int, to: int, lead: int)
    requires
        0 <= from <= lead <= to <= s.len(),
        forall|j: int| from <= j < lead ==> is_ws(s[j]),
        lead == to || !is_ws(s[lead]),
    ensures
        crate::text::trim_start(s.subrange(from, to)).len() == to - lead,
{
    let t = s.subrange(from, to);
    crate::text::lemma_lead_ws(t, lead - from);
}

fn starts_with_font_face(s: &[char]) -> (r: bool)
    ensures
        r == crate::text::starts_with(s@, font_face()),
{
    let p = chars_of("@font-face");
    proof {
        reveal_strlit("@font-face");
        assert(p@ =~= font_face());
    }
    crate::text::starts_with_exec(s, p.as_slice())
}

/// Every `selector { declarations }` in the sheet, grouping at-rules flattened, in order,
/// with the line of the sheet each rule starts on.
pub fn rules(css: &str) -> (r: Vec<Rule>)
    requires
        css@.len() < u32::MAX,
    ensures
        r@.map_values(|r: Rule| r@) == rules_of(css@),
{
    let raw = chars_of(css);
    let text = strip_chars(raw.as_slice());
    proof {
        lemma_stripped_len(raw@);
    }
    let mut out: Vec<Rule> = Vec::new();
    proof {
        assert(out@.map_values(|r: Rule| r@) =~= Seq::<RuleView>::empty());
    }
    collect_rules(text.as_slice(), 0, &mut out);
    proof {
        assert(Seq::<RuleView>::empty() + rules_from(text@, 0, 0) =~= rules_from(text@, 0, 0));
    }
    out
}

} // verus!

verus! {

/// `var(`.
pub open spec fn var_open() -> Seq<char> {
    seq!['v', 'a', 'r', '(']
}

/// A declaration's value with `var(--x)` resolved through `tokens`, or the trimmed
/// literal. A `var()` naming a token that is not declared resolves to nothing.
pub open spec fn resolved(value: Seq<char>, tokens: Map<Seq<char>, Seq<char>>) -> Option<Seq<char>> {
    let v = trim(value);
    if v.len() >= 5 && crate::text::starts_with(v, var_open()) && v.last() == ')' {
        let inner = v.subrange(4, v.len() - 1);
        let name = trim(split(inner, ',')[0]);
        if tokens.contains_key(name) {
            Some(tokens[name])
        } else {
            None
        }
    } else {
        Some(v)
    }
}

fn resolve_chars(value: &[char], tokens: &Declarations) -> (r: Option<String>)
    ensures
        match r {
            Some(s) => resolved(value@, tokens@) == Some(s@),
            None => resolved(value@, tokens@) is None,
        },
{
    let v = trimmed(value);
    let prefix = chars_of("var(");
    proof {
        reveal_strlit("var(");
        assert(prefix@ =~= var_open());
    }
    if v.len() >= 5 && crate::text::starts_with_exec(v.as_slice(), prefix.as_slice()) && v[v.len()
        - 1] == ')' {
        let inner = slice_chars(v.as_slice(), 4, v.len() - 1);
        let comma = find_char_in_rest(inner.as_slice(), ',', 0);
        let end = match comma {
            Some(i) => i,
            None => inner.len(),
        };
        proof {
            assert(inner@.subrange(0, inner@.len() as int) =~= inner@);
            match comma {
                Some(i) => {
                    assert(split(inner@, ',')[0] == inner@.subrange(0, i as int));
                },
                None => {
                    assert(split(inner@, ',')[0] == inner@);
                    assert(inner@.subrange(0, end as int) =~= inner@);
                },
            }
        }
        let name = trimmed(slice_chars(inner.as_slice(), 0, end).as_slice());
        let key = string_of(name.as_slice());
        tokens.get(key.as_str())
    } else {
        Some(string_of(v.as_slice()))
    }
}

/// A declaration's value with `var(--x)` resolved through `tokens`, or the literal.
pub fn resolve(value: &str, tokens: &Declarations) -> (r: Option<String>)
    ensures
        match r {
            Some(s) => resolved(value@, tokens@) == Some(s@),
            None => resolved(value@, tokens@) is None,
        },
{
    let v = chars_of(value);
    resolve_chars(v.as_slice(), tokens)
}

/// The value of a hexadecimal digit.
pub open spec fn hex_digit(c: char) -> Option<int> {
    if '0' <= c <= '9' {
        Some(c as int - '0' as int)
    } else if 'a' <= c <= 'f' {
        Some(c as int - 'a' as int + 10)
    } else if 'A' <= c <= 'F' {
        Some(c as int - 'A' as int + 10)
    } else {
        None
    }
}

/// Two characters as `u8::from_str_radix(_, 16)` reads them: two hex digits, or `+` and
/// one.
pub open spec fn hex_pair(a: char, b: char) -> Option<int> {
    if a == '+' {
        hex_digit(b)
    } else {
        match (hex_digit(a), hex_digit(b)) {
            (Some(x), Some(y)) => Some(16 * x + y),
            _ => None,
        }
    }
}

/// The sRGB channels of the named colours the reader knows.
pub open spec fn named_rgb(name: Seq<char>) -> Option<(u8, u8, u8)> {
    if name == "white"@ {
        Some((255u8, 255u8, 255u8))
    } else if name == "black"@ {
        Some((0u8, 0u8, 0u8))
    } else if name == "red"@ {
        Some((255u8, 0u8, 0u8))
    } else if name == "green"@ {
        Some((0u8, 128u8, 0u8))
    } else if name == "blue"@ {
        Some((0u8, 0u8, 255u8))
    } else if name == "yellow"@ {
        Some((255u8, 255u8, 0u8))
    } else if name == "gray"@ || name == "grey"@ {
        Some((128u8, 128u8, 128u8))
    } else if name == "silver"@ {
        Some((192u8, 192u8, 192u8))
    } else if name == "navy"@ {
        Some((0u8, 0u8, 128u8))
    } else if name == "orange"@ {
        Some((255u8, 165u8, 0u8))
    } else {
        None
    }
}

/// `#rgb`/`#rgba` (the first three digits, each doubled) or `#rrggbb`/`#rrggbbaa` (the
/// first three pairs), by the digits' length in bytes, or a named colour — as 0–255
/// channels. A six- or eight-byte form is read only when its first six characters are
/// ASCII.
pub open spec fn hex_rgb(color: Seq<char>) -> Option<(u8, u8, u8)> {
    let t = trim(color);
    match named_rgb(lowered(t)) {
        Some(rgb) => Some(rgb),
        None => if t.len() == 0 || t[0] != '#' {
            None
        } else {
            let d = t.drop_first();
            let len = utf8_len(d);
            if len == 3 || len == 4 {
                if d.len() >= 3 && hex_digit(d[0]) is Some && hex_digit(d[1]) is Some
                    && hex_digit(d[2]) is Some {
                    Some(
                        (
                            (17 * hex_digit(d[0])->0) as u8,
                            (17 * hex_digit(d[1])->0) as u8,
                            (17 * hex_digit(d[2])->0) as u8,
                        ),
                    )
                } else {
                    None
                }
            } else if len == 6 || len == 8 {
                if d.len() >= 6 && (forall|i: int| 0 <= i < 6 ==> (#[trigger] d[i] as u32) < 0x80)
                    && hex_pair(d[0], d[1]) is Some && hex_pair(d[2], d[3]) is Some && hex_pair(
                    d[4],
                    d[5],
                ) is Some {
                    Some(
                        (
                            hex_pair(d[0], d[1])->0 as u8,
                            hex_pair(d[2], d[3])->0 as u8,
                            hex_pair(d[4], d[5])->0 as u8,
                        ),
                    )
                } else {
                    None
                }
            } else {
                None
            }
        },
    }
}

fn hex_digit_exec(c: char) -> (r: Option<u8>)
    ensures
        match r {
            Some(v) => hex_digit(c) == Some(v as int),
            None => hex_digit(c) is None,
        },
{
    if '0' <= c && c <= '9' {
        Some((c as u32 - '0' as u32) as u8)
    } else if 'a' <= c && c <= 'f' {
        Some((c as u32 - 'a' as u32 + 10) as u8)
    } else if 'A' <= c && c <= 'F' {
        Some((c as u32 - 'A' as u32 + 10) as u8)
    } else {
        None
    }
}

fn hex_pair_exec(a: char, b: char) -> (r: Option<u8>)
    ensures
        match r {
            Some(v) => hex_pair(a, b) == Some(v as int),
            None => hex_pair(a, b) is None,
        },
{
    if a == '+' {
        hex_digit_exec(b)
    } else {
        match (hex_digit_exec(a), hex_digit_exec(b)) {
            (Some(x), Some(y)) => Some(16 * x + y),
            _ => None,
        }
    }
}

fn named_exec(name: &[char]) -> (r: Option<(u8, u8, u8)>)
    ensures
        r == named_rgb(name@),
{
    if same_chars(name, chars_of("white").as_slice()) {
        Some((255, 255, 255))
    } else if same_chars(name, chars_of("black").as_slice()) {
        Some((0, 0, 0))
    } else if same_chars(name, chars_of("red").as_slice()) {
        Some((255, 0, 0))
    } else if same_chars(name, chars_of("green").as_slice()) {
        Some((0, 128, 0))
    } else if same_chars(name, chars_of("blue").as_slice()) {
        Some((0, 0, 255))
    } else if same_chars(name, chars_of("yellow").as_slice()) {
        Some((255, 255, 0))
    } else if same_chars(name, chars_of("gray").as_slice()) || same_chars(
        name,
        chars_of("grey").as_slice(),
    ) {
        Some((128, 128, 128))
    } else if same_chars(name, chars_of("silver").as_slice()) {
        Some((192, 192, 192))
    } else if same_chars(name, chars_of("navy").as_slice()) {
        Some((0, 0, 128))
    } else if same_chars(name, chars_of("orange").as_slice()) {
        Some((255, 165, 0))
    } else {
        None
    }
}


fn first_six_ascii(d: &[char]) -> (r: bool)
    requires
        d@.len() >= 6,
    ensures
        r == forall|i: int| 0 <= i < 6 ==> (#[trigger] d@[i] as u32) < 0x80,
{
    let mut k: usize = 0;
    while k < 6
        invariant
            k <= 6 <= d@.len(),
            forall|i: int| 0 <= i < k ==> (#[trigger] d@[i] as u32) < 0x80,
        decreases 6 - k,
    {
        if (d[k] as u32) >= 0x80 {
            return false;
        }
        k = k + 1;
    }
    true
}

fn hex_chars(color: &[char]) -> (r: Option<(u8, u8, u8)>)
    ensures
        r == hex_rgb(color@),
{
    let t = trimmed(color);
    let low = lowered_exec(t.as_slice());
    if let Some(rgb) = named_exec(low.as_slice()) {
        return Some(rgb);
    }
    if t.len() == 0 || t[0] != '#' {
        return None;
    }
    let d = slice_chars(t.as_slice(), 1, t.len());
    proof {
        assert(d@ =~= t@.drop_first());
    }
    let len = utf8_len_capped(d.as_slice(), 9);
    if len == 3 || len == 4 {
        if d.len() < 3 {
            return None;
        }
        match (hex_digit_exec(d[0]), hex_digit_exec(d[1]), hex_digit_exec(d[2])) {
            (Some(r), Some(g), Some(b)) => Some((17 * r, 17 * g, 17 * b)),
            _ => None,
        }
    } else if len == 6 || len == 8 {
        if d.len() < 6 || !first_six_ascii(d.as_slice()) {
            return None;
        }
        match (hex_pair_exec(d[0], d[1]), hex_pair_exec(d[2], d[3]), hex_pair_exec(d[4], d[5])) {
            (Some(r), Some(g), Some(b)) => Some((r, g, b)),
            _ => None,
        }
    } else {
        None
    }
}

/// A colour's sRGB channels, 0–255, or `None` for a value that is not one.
pub fn hex_channels(color: &str) -> (r: Option<(u8, u8, u8)>)
    ensures
        r == hex_rgb(color@),
{
    let c = chars_of(color);
    hex_chars(c.as_slice())
}

/// The whitespace-separated words of `s`, as `str::split_whitespace` yields them.
pub open spec fn words(s: Seq<char>) -> Seq<Seq<char>>
    decreases s.len(),
{
    if s.len() == 0 {
        Seq::empty()
    } else if is_ws(s[0]) {
        words(s.drop_first())
    } else {
        let k = word_len(s);
        if 1 <= k <= s.len() {
            seq![s.subrange(0, k)] + words(s.subrange(k, s.len() as int))
        } else {
            Seq::empty()
        }
    }
}

/// The number of non-whitespace characters `s` begins with.
pub open spec fn word_len(s: Seq<char>) -> int
    decreases s.len(),
{
    if s.len() > 0 && !is_ws(s[0]) {
        1 + word_len(s.drop_first())
    } else {
        0
    }
}

} // verus!

verus! {

/// The first of `parts` that resolves through `tokens` to a colour, resolved.
pub open spec fn first_colour(
    parts: Seq<Seq<char>>,
    tokens: Map<Seq<char>, Seq<char>>,
) -> Option<Seq<char>>
    decreases parts.len(),
{
    if parts.len() == 0 {
        None
    } else {
        match resolved(parts[0], tokens) {
            Some(r) => if hex_rgb(r) is Some {
                Some(r)
            } else {
                first_colour(parts.drop_first(), tokens)
            },
            None => first_colour(parts.drop_first(), tokens),
        }
    }
}

/// The whitespace-separated words of `s`.
pub fn split_words(s: &[char]) -> (r: Vec<Vec<char>>)
    ensures
        crate::text::vec_views(r@) == words(s@),
{
    let n = s.len();
    let mut out: Vec<Vec<char>> = Vec::new();
    let mut pos: usize = 0;
    proof {
        assert(s@.subrange(0, n as int) =~= s@);
        assert(crate::text::vec_views(out@) + words(s@) =~= words(s@));
    }
    while pos < n
        invariant
            pos <= n == s@.len(),
            crate::text::vec_views(out@) + words(s@.subrange(pos as int, n as int)) == words(s@),
        decreases n - pos,
    {
        let ghost rest = s@.subrange(pos as int, n as int);
        if crate::text::is_ws_exec(s[pos]) {
            proof {
                assert(rest.drop_first() =~= s@.subrange(pos + 1, n as int));
            }
            pos = pos + 1;
        } else {
            let mut end = pos + 1;
            while end < n && !crate::text::is_ws_exec(s[end])
                invariant
                    pos < end <= n == s@.len(),
                    forall|j: int| pos <= j < end ==> !is_ws(s@[j]),
                decreases n - end,
            {
                end = end + 1;
            }
            proof {
                lemma_word_len(rest, end - pos);
                assert(rest.subrange(end - pos, rest.len() as int) =~= s@.subrange(end as int, n as int));
            }
            let word = slice_chars(s, pos, end);
            let ghost before = crate::text::vec_views(out@);
            out.push(word);
            proof {
                assert(word@ =~= rest.subrange(0, end - pos));
                assert(crate::text::vec_views(out@) =~= before.push(word@));
                assert(words(rest) == seq![word@] + words(s@.subrange(end as int, n as int)));
                assert(before.push(word@) + words(s@.subrange(end as int, n as int)) =~= before + words(
                    rest,
                ));
            }
            pos = end;
        }
    }
    proof {
        assert(s@.subrange(pos as int, n as int).len() == 0);
        assert(crate::text::vec_views(out@) + Seq::<Seq<char>>::empty() =~= crate::text::vec_views(out@));
    }
    out
}

proof fn lemma_word_len(s: Seq<char>, k: int)
    requires
        0 <= k <= s.len(),
        forall|j: int| 0 <= j < k ==> !is_ws(s[j]),
        k == s.len() || is_ws(s[k]),
    ensures
        word_len(s) == k,
    decreases k,
{
    if k > 0 {
        lemma_word_len(s.drop_first(), k - 1);
    }
}

/// The first colour in a shorthand such as `1px solid #abc` or `3px solid var(--x)`,
/// resolved through `tokens`.
pub fn colour_in(value: &str, tokens: &Declarations) -> (r: Option<String>)
    ensures
        match r {
            Some(s) => first_colour(words(value@), tokens@) == Some(s@),
            None => first_colour(words(value@), tokens@) is None,
        },
{
    let v = chars_of(value);
    let n = v.len();
    let mut pos: usize = 0;
    proof {
        assert(v@.subrange(0, v@.len() as int) =~= v@);
    }
    while pos < n
        invariant
            pos <= n == v@.len(),
            v@ == value@,
            first_colour(words(v@.subrange(pos as int, n as int)), tokens@) == first_colour(
                words(v@),
                tokens@,
            ),
        decreases n - pos,
    {
        let ghost rest = v@.subrange(pos as int, n as int);
        if crate::text::is_ws_exec(v[pos]) {
            proof {
                assert(rest.drop_first() =~= v@.subrange(pos + 1, n as int));
            }
            pos = pos + 1;
        } else {
            let mut end = pos + 1;
            while end < n && !crate::text::is_ws_exec(v[end])
                invariant
                    pos < end <= n == v@.len(),
                    forall|j: int| pos <= j < end ==> !is_ws(v@[j]),
                decreases n - end,
            {
                end = end + 1;
            }
            proof {
                lemma_word_len(rest, end - pos);
                assert(rest.subrange(end - pos, rest.len() as int) =~= v@.subrange(
                    end as int,
                    n as int,
                ));
            }
            let word = slice_chars(v.as_slice(), pos, end);
            proof {
                assert(word@ =~= rest.subrange(0, end - pos));
                let ws = words(rest);
                assert(ws == seq![word@] + words(v@.subrange(end as int, n as int)));
                assert(ws[0] == word@);
                assert(ws.drop_first() =~= words(v@.subrange(end as int, n as int)));
            }
            match resolve_chars(word.as_slice(), tokens) {
                Some(r) => {
                    let rc = chars_of(r.as_str());
                    if hex_chars(rc.as_slice()).is_some() {
                        proof {
                            let ws = words(rest);
                            assert(ws[0] == word@);
                            assert(first_colour(ws, tokens@) == Some(r@));
                        }
                        return Some(r);
                    }
                },
                None => {},
            }
            pos = end;
        }
    }
    proof {
        assert(v@.subrange(pos as int, n as int).len() == 0);
    }
    None
}

/// `s` without its leading quotes and spaces.
pub open spec fn strip_quotes(s: Seq<char>) -> Seq<char>
    decreases s.len(),
{
    if s.len() > 0 && (s[0] == '"' || s[0] == '\'' || s[0] == ' ') {
        strip_quotes(s.drop_first())
    } else {
        s
    }
}

/// The origin rules at each `needle` of a stylesheet from `from` on: the value after it
/// names an origin that is `@import`ed, or not declared in `remote`.
pub open spec fn css_scan(h: Seq<char>, needle: Seq<char>, from: int, remote: Seq<Seq<char>>) -> Seq<crate::lint::web::FSpec>
    decreases h.len() + 1 - from,
{
    match index_of(lowered(h), needle, from) {
        None => Seq::empty(),
        Some(at) => {
            let start = at + needle.len();
            let line = crate::text::line_at(h, start) as u32;
            (match crate::lint::origin(strip_quotes(h.subrange(start, h.len() as int))) {
                Some(o) => (if needle == "@import "@ {
                    seq![
                        crate::lint::web::FSpec {
                            id: crate::lint::RuleId::PV504,
                            line,
                            message: "@import from "@ + o,
                            fix: Some("vendor the stylesheet"@),
                            edit: None,
                        },
                    ]
                } else {
                    Seq::empty()
                }) + if !remote.contains(o) {
                    seq![
                        crate::lint::web::FSpec {
                            id: crate::lint::RuleId::PV207,
                            line,
                            message: o + " is referenced but not declared in permissions.remote; the CSP blocks it silently"@,
                            fix: Some("vendor the resource"@),
                            edit: None,
                        },
                    ]
                } else {
                    Seq::empty()
                },
                None => Seq::empty(),
            }) + if from < start <= h.len() {
                css_scan(h, needle, start, remote)
            } else {
                Seq::empty()
            }
        },
    }
}

/// The origin rules over a stylesheet: every `url(`, then every `@import `.
pub open spec fn css_origin_fspecs(h: Seq<char>, remote: Seq<Seq<char>>) -> Seq<crate::lint::web::FSpec> {
    css_scan(h, "url("@, 0, remote) + css_scan(h, "@import "@, 0, remote)
}

fn strip_quotes_at(h: &[char], start: usize) -> (r: usize)
    requires
        start <= h@.len(),
    ensures
        start <= r <= h@.len(),
        h@.subrange(r as int, h@.len() as int) == strip_quotes(h@.subrange(start as int, h@.len() as int)),
{
    let mut i = start;
    while i < h.len() && (h[i] == '"' || h[i] == '\'' || h[i] == ' ')
        invariant
            start <= i <= h@.len(),
            strip_quotes(h@.subrange(start as int, h@.len() as int)) == strip_quotes(h@.subrange(i as int, h@.len() as int)),
        decreases h@.len() - i,
    {
        assert(h@.subrange(i as int, h@.len() as int).drop_first() =~= h@.subrange(i + 1, h@.len() as int));
        i = i + 1;
    }
    i
}

/// The origin rules at each `needle`, as pending findings.
fn css_scan_exec(h: &[char], low: &[char], needle: &str, remote: &[String], out: &mut Vec<crate::lint::web::Pending>)
    requires
        low@ == lowered(h@),
        h@.len() < u32::MAX,
    ensures
        crate::lint::web::pending_v(final(out)@) == crate::lint::web::pending_v(old(out)@) + css_scan(
            h@,
            needle@,
            0,
            crate::lint::web::strings_v(remote@),
        ),
{
    let ghost o0 = crate::lint::web::pending_v(out@);
    let ghost rv = crate::lint::web::strings_v(remote@);
    let nd = chars_of(needle);
    let mut from: usize = 0;
    loop
        invariant_except_break
            css_scan(h@, needle@, 0, rv) == crate::lint::web::pending_v(out@).subrange(o0.len() as int, crate::lint::web::pending_v(out@).len() as int) + css_scan(h@, needle@, from as int, rv),
            crate::lint::web::pending_v(out@).subrange(0, o0.len() as int) == o0,
            o0.len() <= out@.len(),
        invariant
            from <= h@.len(),
            low@ == lowered(h@),
            h@.len() < u32::MAX,
            nd@ == needle@,
            rv == crate::lint::web::strings_v(remote@),
        ensures
            crate::lint::web::pending_v(out@) == o0 + css_scan(h@, needle@, 0, rv),
        decreases h@.len() + 1 - from,
    {
        let ghost before = crate::lint::web::pending_v(out@);
        let at = match crate::text::find(low, nd.as_slice(), from) {
            Some(at) => at,
            None => {
                proof {
                    assert(css_scan(h@, needle@, from as int, rv) =~= Seq::<crate::lint::web::FSpec>::empty());
                    assert(crate::lint::web::pending_v(out@) =~= o0 + crate::lint::web::pending_v(out@).subrange(o0.len() as int, crate::lint::web::pending_v(out@).len() as int));
                }
                break;
            },
        };
        let start = at + nd.len();
        let v = strip_quotes_at(h, start);
        let value = slice_chars(h, v, h.len());
        let vs = string_of(value.as_slice());
        let line = crate::text::line_of(h, start);
        match crate::lint::origin_of(vs.as_str()) {
            Some(o) => {
                let oc = chars_of(o.as_str());
                let imp = chars_of("@import ");
                if same_chars(nd.as_slice(), imp.as_slice()) {
                    let mut m = chars_of("@import from ");
                    push_all(&mut m, oc.as_slice());
                    let ghost b0 = crate::lint::web::pending_v(out@);
                    out.push(crate::lint::web::Pending { id: crate::lint::RuleId::PV504, line, message: string_of(m.as_slice()), fix: Some("vendor the stylesheet".to_string()), edit: None });
                    assert(crate::lint::web::pending_v(out@) =~= b0.push(crate::lint::web::pending_v(out@).last()));
                }
                let mut declared = false;
                let mut r: usize = 0;
                while r < remote.len()
                    invariant
                        r <= remote@.len(),
                        oc@ == o@,
                        rv == crate::lint::web::strings_v(remote@),
                        declared == exists|j: int| 0 <= j < r && rv[j] == o@,
                    decreases remote@.len() - r,
                {
                    let rc = chars_of(remote[r].as_str());
                    assert(rv[r as int] == rc@);
                    if same_chars(rc.as_slice(), oc.as_slice()) {
                        declared = true;
                    }
                    r = r + 1;
                }
                proof {
                    assert(declared == rv.contains(o@));
                }
                if !declared {
                    let mut m = oc.clone();
                    crate::text::push_str(&mut m, " is referenced but not declared in permissions.remote; the CSP blocks it silently");
                    let ghost b1 = crate::lint::web::pending_v(out@);
                    out.push(crate::lint::web::Pending { id: crate::lint::RuleId::PV207, line, message: string_of(m.as_slice()), fix: Some("vendor the resource".to_string()), edit: None });
                    assert(crate::lint::web::pending_v(out@) =~= b1.push(crate::lint::web::pending_v(out@).last()));
                }
            },
            None => {},
        }
        proof {
            reveal_strlit("@import ");
            let head = crate::lint::web::pending_v(out@).subrange(before.len() as int, crate::lint::web::pending_v(out@).len() as int);
            assert(css_scan(h@, needle@, from as int, rv) == head + if from < start <= h@.len() {
                css_scan(h@, needle@, start as int, rv)
            } else {
                Seq::<crate::lint::web::FSpec>::empty()
            });
            assert(crate::lint::web::pending_v(out@).subrange(0, o0.len() as int) =~= o0);
            assert(crate::lint::web::pending_v(out@).subrange(o0.len() as int, crate::lint::web::pending_v(out@).len() as int)
                =~= before.subrange(o0.len() as int, before.len() as int) + head);
        }
        if start > from && start <= h.len() {
            from = start;
        } else {
            proof {
                assert(crate::lint::web::pending_v(out@) =~= o0 + crate::lint::web::pending_v(out@).subrange(o0.len() as int, crate::lint::web::pending_v(out@).len() as int));
            }
            break;
        }
    }
}

/// The origin rules over a stylesheet, recorded in `ctx` for `rel`: each `url(` whose
/// value names an origin not declared in `remote`, then each `@import ` of an origin (and
/// its declaration).
pub fn check_css_origins(ctx: &mut crate::lint::Ctx, rel: &str, text: &str, remote: &[String])
    requires
        text@.len() < u32::MAX,
    ensures
        crate::lint::web::recorded(*old(ctx), *final(ctx), rel@, css_origin_fspecs(text@, crate::lint::web::strings_v(remote@))),
{
    let h = chars_of(text);
    let low = lowered_exec(h.as_slice());
    let mut out: Vec<crate::lint::web::Pending> = Vec::new();
    proof {
        assert(crate::lint::web::pending_v(out@) =~= Seq::<crate::lint::web::FSpec>::empty());
    }
    css_scan_exec(h.as_slice(), low.as_slice(), "url(", remote, &mut out);
    css_scan_exec(h.as_slice(), low.as_slice(), "@import ", remote, &mut out);
    crate::lint::web::record_all(ctx, rel, out);
}

/// A rule that removes the outline (`none…` or `0`) with neither a box-shadow nor a border
/// to replace it.
pub open spec fn removes_outline(r: RuleView) -> bool {
    &&& r.declarations.contains_key("outline"@)
    &&& (crate::text::starts_with(r.declarations["outline"@], "none"@) || trim(r.declarations["outline"@]) == "0"@)
    &&& !r.declarations.contains_key("box-shadow"@)
    &&& !r.declarations.contains_key("border"@)
}

/// Whether `rule` removes the outline with nothing in its place.
pub fn outline_removed(rule: &Rule) -> (r: bool)
    ensures
        r == removes_outline(rule@),
{
    match rule.declarations.get("outline") {
        Some(o) => {
            let oc = chars_of(o.as_str());
            let none = chars_of("none");
            let zero = chars_of("0");
            let t = trimmed(oc.as_slice());
            (crate::text::starts_with_exec(oc.as_slice(), none.as_slice()) || same_chars(t.as_slice(), zero.as_slice()))
                && rule.declarations.get("box-shadow").is_none() && rule.declarations.get("border").is_none()
        },
        None => false,
    }
}

/// The stem of a token that names a text colour: the name without its `-fg`, `-text`,
/// `-ink`, `-color` or `-foreground` suffix (the first that fits, in that order), or
/// `-` for `--fg` and `--text`; `None` for any other token.
pub open spec fn text_stem(name: Seq<char>) -> Option<Seq<char>> {
    if crate::text::ends_with(name, "-fg"@) {
        Some(name.subrange(0, name.len() - "-fg"@.len()))
    } else if crate::text::ends_with(name, "-text"@) {
        Some(name.subrange(0, name.len() - "-text"@.len()))
    } else if crate::text::ends_with(name, "-ink"@) {
        Some(name.subrange(0, name.len() - "-ink"@.len()))
    } else if crate::text::ends_with(name, "-color"@) {
        Some(name.subrange(0, name.len() - "-color"@.len()))
    } else if crate::text::ends_with(name, "-foreground"@) {
        Some(name.subrange(0, name.len() - "-foreground"@.len()))
    } else if name == "--fg"@ || name == "--text"@ {
        Some("-"@)
    } else {
        None
    }
}

/// The tokens a text-colour token is checked against, in order: `--bg` and
/// `--background` for the bare stem, else the stem's `-bg`, `-background` and
/// `-surface`; none for a token that is not a text colour.
pub open spec fn background_candidates_spec(name: Seq<char>) -> Seq<Seq<char>> {
    match text_stem(name) {
        None => Seq::empty(),
        Some(s) => if s == "-"@ {
            seq!["--bg"@, "--background"@]
        } else {
            seq![s + "-bg"@, s + "-background"@, s + "-surface"@]
        },
    }
}

fn stem_after(v: &[char], suffix: &str) -> (r: Option<Vec<char>>)
    ensures
        match r {
            Some(s) => crate::text::ends_with(v@, suffix@) && s@ == v@.subrange(0, v@.len() - suffix@.len()),
            None => !crate::text::ends_with(v@, suffix@),
        },
{
    let suf = chars_of(suffix);
    if crate::text::ends_with_exec(v, suf.as_slice()) {
        Some(slice_chars(v, 0, v.len() - suf.len()))
    } else {
        None
    }
}

fn joined_text(stem: &[char], tail: &str) -> (r: String)
    ensures
        r@ == stem@ + tail@,
{
    let mut out: Vec<char> = Vec::new();
    push_all(&mut out, stem);
    crate::text::push_str(&mut out, tail);
    proof {
        assert(Seq::<char>::empty() + stem@ =~= stem@);
    }
    string_of(out.as_slice())
}

/// The background tokens a text-colour token `name` is checked against, in order.
pub fn background_candidates(name: &str) -> (r: Vec<String>)
    ensures
        r@.map_values(|s: String| s@) == background_candidates_spec(name@),
{
    let v = chars_of(name);
    let mut stem: Option<Vec<char>> = stem_after(v.as_slice(), "-fg");
    if stem.is_none() {
        stem = stem_after(v.as_slice(), "-text");
    }
    if stem.is_none() {
        stem = stem_after(v.as_slice(), "-ink");
    }
    if stem.is_none() {
        stem = stem_after(v.as_slice(), "-color");
    }
    if stem.is_none() {
        stem = stem_after(v.as_slice(), "-foreground");
    }
    if stem.is_none() {
        let fg = chars_of("--fg");
        let text = chars_of("--text");
        if same_chars(v.as_slice(), fg.as_slice()) || same_chars(v.as_slice(), text.as_slice()) {
            stem = Some(chars_of("-"));
        }
    }
    let mut out: Vec<String> = Vec::new();
    match stem {
        None => {
            assert(out@.map_values(|s: String| s@) =~= Seq::<Seq<char>>::empty());
        },
        Some(s) => {
            let dash = chars_of("-");
            if same_chars(s.as_slice(), dash.as_slice()) {
                out.push("--bg".to_string());
                out.push("--background".to_string());
                assert(out@.map_values(|s: String| s@) =~= seq!["--bg"@, "--background"@]);
            } else {
                out.push(joined_text(s.as_slice(), "-bg"));
                out.push(joined_text(s.as_slice(), "-background"));
                out.push(joined_text(s.as_slice(), "-surface"));
                assert(out@.map_values(|x: String| x@) =~= seq![s@ + "-bg"@, s@ + "-background"@, s@ + "-surface"@]);
            }
        },
    }
    out
}

/// The line a token is declared on: one more than the newlines before the first
/// `name:` in the sheet, or 0 where there is none.
pub open spec fn token_line_spec(text: Seq<char>, name: Seq<char>) -> int {
    match index_of(text, name + ":"@, 0) {
        Some(at) => crate::text::newlines(text.subrange(0, at)) + 1int,
        None => 0,
    }
}

/// The line `name` is declared on in the sheet `text`, as [`token_line_spec`] says.
pub fn token_line(text: &str, name: &str) -> (r: u32)
    requires
        text@.len() < u32::MAX,
    ensures
        r == token_line_spec(text@, name@),
{
    let t = chars_of(text);
    let mut p = chars_of(name);
    crate::text::push_str(&mut p, ":");
    match find(t.as_slice(), p.as_slice(), 0) {
        Some(at) => {
            proof {
                crate::text::lemma_newlines_bound(t@.subrange(0, at as int));
            }
            (crate::text::count_newlines(t.as_slice(), 0, at) + 1) as u32
        },
        None => 0,
    }
}

/// The colour a block paints behind its text: its `background`, else its
/// `background-color`, read for its first colour through `tokens`.
pub open spec fn background_spec(d: Map<Seq<char>, Seq<char>>, tokens: Map<Seq<char>, Seq<char>>) -> Option<Seq<char>> {
    if d.contains_key("background"@) {
        first_colour(words(d["background"@]), tokens)
    } else if d.contains_key("background-color"@) {
        first_colour(words(d["background-color"@]), tokens)
    } else {
        None
    }
}

/// The colour `d` paints behind its text, as [`background_spec`] says.
pub fn background_of(d: &Declarations, tokens: &Declarations) -> (r: Option<String>)
    ensures
        match r {
            Some(s) => background_spec(d@, tokens@) == Some(s@),
            None => background_spec(d@, tokens@) is None,
        },
{
    let v = match d.get("background") {
        Some(v) => Some(v),
        None => d.get("background-color"),
    };
    match v {
        Some(x) => colour_in(x.as_str(), tokens),
        None => None,
    }
}

/// The first rule, from `from` on, whose selector is `body` or `html`.
pub open spec fn page_rule_from(rules: Seq<RuleView>, from: int) -> Option<int>
    decreases rules.len() - from,
{
    if from < 0 || from >= rules.len() {
        None
    } else if rules[from].selector == "body"@ || rules[from].selector == "html"@ {
        Some(from)
    } else {
        page_rule_from(rules, from + 1)
    }
}

/// The page's background: that of the first `body` or `html` rule, else the first of the
/// tokens `--bg`, `--pv-bg` and `--background` that is declared, as written.
pub open spec fn page_background_spec(rules: Seq<RuleView>, tokens: Map<Seq<char>, Seq<char>>) -> Option<Seq<char>> {
    let from_rule = match page_rule_from(rules, 0) {
        Some(i) => background_spec(rules[i].declarations, tokens),
        None => None,
    };
    if from_rule is Some {
        from_rule
    } else if tokens.contains_key("--bg"@) {
        Some(tokens["--bg"@])
    } else if tokens.contains_key("--pv-bg"@) {
        Some(tokens["--pv-bg"@])
    } else if tokens.contains_key("--background"@) {
        Some(tokens["--background"@])
    } else {
        None
    }
}

/// The page's background, as [`page_background_spec`] says.
pub fn page_background(rules: &Vec<Rule>, tokens: &Declarations) -> (r: Option<String>)
    ensures
        match r {
            Some(s) => page_background_spec(rules@.map_values(|x: Rule| x@), tokens@) == Some(s@),
            None => page_background_spec(rules@.map_values(|x: Rule| x@), tokens@) is None,
        },
{
    let ghost rv = rules@.map_values(|x: Rule| x@);
    let body = chars_of("body");
    let html = chars_of("html");
    let mut i: usize = 0;
    let mut found: Option<usize> = None;
    while i < rules.len() && found.is_none()
        invariant
            i <= rules@.len(),
            rv == rules@.map_values(|x: Rule| x@),
            body@ == "body"@,
            html@ == "html"@,
            found is None ==> page_rule_from(rv, 0) == page_rule_from(rv, i as int),
            found matches Some(k) ==> k < rules@.len() && page_rule_from(rv, 0) == Some(k as int),
        decreases rules.len() - i, if found is None { 1int } else { 0int },
    {
        let sel = chars_of(rules[i].selector.as_str());
        if same_chars(sel.as_slice(), body.as_slice()) || same_chars(sel.as_slice(), html.as_slice()) {
            found = Some(i);
        } else {
            i = i + 1;
        }
    }
    assert(found is None ==> page_rule_from(rv, i as int) is None);
    let from_rule = match found {
        Some(k) => background_of(&rules[k].declarations, tokens),
        None => None,
    };
    if from_rule.is_some() {
        return from_rule;
    }
    match tokens.get("--bg") {
        Some(v) => Some(v),
        None => match tokens.get("--pv-bg") {
            Some(v) => Some(v),
            None => tokens.get("--background"),
        },
    }
}

/// The properties that can draw a focus ring, in the order they are checked.
pub open spec fn ring_property(k: int) -> Seq<char> {
    if k == 0 {
        "outline"@
    } else if k == 1 {
        "border"@
    } else if k == 2 {
        "outline-color"@
    } else {
        "border-color"@
    }
}

/// The ring colours of a rule over its first `k` ring properties: for a rule whose selector
/// holds `:focus`, each property it declares whose value holds a colour (resolved through
/// `tokens`), with that colour; none for any other rule.
pub open spec fn ring_colours_spec(r: RuleView, tokens: Map<Seq<char>, Seq<char>>, k: int) -> Seq<(Seq<char>, Seq<char>)>
    decreases k,
{
    if k <= 0 || !crate::text::contains_seq(r.selector, ":focus"@) {
        Seq::empty()
    } else {
        let before = ring_colours_spec(r, tokens, k - 1);
        let p = ring_property(k - 1);
        if r.declarations.contains_key(p) && first_colour(words(r.declarations[p]), tokens) is Some {
            before.push((p, first_colour(words(r.declarations[p]), tokens)->0))
        } else {
            before
        }
    }
}

/// The focus-ring colours of `rule` whose contrast with the background is to be checked:
/// each of `outline`, `border`, `outline-color` and `border-color` it declares with a
/// colour in its value, for a rule whose selector holds `:focus`.
pub fn ring_colours(rule: &Rule, tokens: &Declarations) -> (r: Vec<(String, String)>)
    ensures
        r@.map_values(|x: (String, String)| (x.0@, x.1@)) == ring_colours_spec(rule@, tokens@, 4),
{
    let mut out: Vec<(String, String)> = Vec::new();
    let sel = chars_of(rule.selector.as_str());
    let focus = chars_of(":focus");
    if !crate::text::contains_exec(sel.as_slice(), focus.as_slice()) {
        assert(out@.map_values(|x: (String, String)| (x.0@, x.1@)) =~= Seq::<(Seq<char>, Seq<char>)>::empty());
        return out;
    }
    let names = ["outline", "border", "outline-color", "border-color"];
    let mut k: usize = 0;
    while k < 4
        invariant
            k <= 4,
            names@ == seq!["outline", "border", "outline-color", "border-color"],
            crate::text::contains_seq(rule@.selector, ":focus"@),
            out@.map_values(|x: (String, String)| (x.0@, x.1@)) == ring_colours_spec(rule@, tokens@, k as int),
        decreases 4 - k,
    {
        let name = names[k];
        assert(name@ == ring_property(k as int));
        let ghost before = out@.map_values(|x: (String, String)| (x.0@, x.1@));
        match rule.declarations.get(name) {
            Some(v) => match colour_in(v.as_str(), tokens) {
                Some(c) => {
                    out.push((name.to_string(), c));
                    assert(out@.map_values(|x: (String, String)| (x.0@, x.1@)) =~= before.push((name@, c@)));
                },
                None => {},
            },
            None => {},
        }
        k = k + 1;
    }
    out
}

} // verus!
