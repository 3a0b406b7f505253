//! A Tier 2 app's `web/` and a Tier 1 app's `static/`: JavaScript through a small lexer
//! (strings, template literals, comments, regular expressions, identifiers) for the
//! browser-code rules, and an HTML page through the same tree the templates use.

use vstd::prelude::*;
use crate::lint::sql::{byte_at, lemma_utf8_len_ge, lemma_utf8_prefix};
use crate::text::{chars_of, index_of, is_ascii_alnum, is_ascii_alpha, is_ascii_digit, is_ascii_ws, slice_chars, string_of, utf8_len, utf8_width};

verus! {

/// One JavaScript token.
#[derive(Debug, Clone, PartialEq, Eq)]
pub enum Tok {
    /// An identifier or keyword.
    Ident(String),
    /// A string; `interpolated` when a template literal carries `${`. A regular
    /// expression is an empty string.
    Str { text: String, interpolated: bool },
    /// A number.
    Num,
    /// Punctuation.
    Punct(String),
}

/// A token as plain values.
pub enum JsTok {
    Ident(Seq<char>),
    Str { text: Seq<char>, interpolated: bool },
    Num,
    Punct(Seq<char>),
}

pub open spec fn js_tok(t: Tok) -> JsTok {
    match t {
        Tok::Ident(s) => JsTok::Ident(s@),
        Tok::Str { text, interpolated } => JsTok::Str { text: text@, interpolated },
        Tok::Num => JsTok::Num,
        Tok::Punct(p) => JsTok::Punct(p@),
    }
}

/// Whether a `/` after `last` begins a regular expression rather than a division.
pub open spec fn regex_may_follow(last: Option<JsTok>) -> bool {
    match last {
        None => true,
        Some(JsTok::Punct(p)) => !(p == ")"@ || p == "]"@ || p == "}"@),
        Some(JsTok::Ident(i)) => i == "return"@ || i == "typeof"@ || i == "in"@ || i == "of"@ || i == "case"@ || i
            == "await"@ || i == "yield"@,
        Some(_) => false,
    }
}

/// The end of a quoted string whose body starts at `j`, quoted by `q`: the index of the
/// closing quote (a backslash skips the character after it), or past the end; and
/// whether a template literal's body holds `${`.
pub open spec fn str_scan(h: Seq<char>, j: int, q: char, interpolated: bool) -> (int, bool)
    decreases h.len() + 1 - j,
{
    if j < 0 || j >= h.len() || h[j] == q {
        (j, interpolated)
    } else if h[j] == '\\' {
        str_scan(h, j + 2, q, interpolated)
    } else {
        str_scan(
            h,
            j + 1,
            q,
            interpolated || (q == '`' && h[j] == '$' && j + 1 < h.len() && h[j + 1] == '{'),
        )
    }
}

/// The end of a regular expression's body from `j`: the index of the `/` that closes it
/// outside a class, or of a line feed, or past the end.
pub open spec fn regex_end(h: Seq<char>, j: int, in_class: bool) -> int
    decreases h.len() + 1 - j,
{
    if j < 0 || j >= h.len() {
        j
    } else if h[j] == '\\' {
        regex_end(h, j + 2, in_class)
    } else if h[j] == '[' {
        regex_end(h, j + 1, true)
    } else if h[j] == ']' {
        regex_end(h, j + 1, false)
    } else if (h[j] == '/' && !in_class) || h[j] == '\n' {
        j
    } else {
        regex_end(h, j + 1, in_class)
    }
}

/// The first index at or after `j` that is not an ASCII letter, or the end.
pub open spec fn alpha_end(h: Seq<char>, j: int) -> int
    decreases h.len() - j,
{
    if 0 <= j < h.len() && is_ascii_alpha(h[j]) { alpha_end(h, j + 1) } else { j }
}

pub proof fn lemma_str_scan(h: Seq<char>, j: int, q: char, b: bool)
    ensures
        str_scan(h, j, q, b).0 >= j,
        0 <= j <= h.len() + 1 ==> str_scan(h, j, q, b).0 <= h.len() + 1,
    decreases h.len() + 1 - j,
{
    if !(j < 0 || j >= h.len() || h[j] == q) {
        if h[j] == '\\' {
            lemma_str_scan(h, j + 2, q, b);
        } else {
            lemma_str_scan(h, j + 1, q, b || (q == '`' && h[j] == '$' && j + 1 < h.len() && h[j + 1] == '{'));
        }
    }
}

pub proof fn lemma_regex_end(h: Seq<char>, j: int, c: bool)
    ensures
        regex_end(h, j, c) >= j,
        0 <= j <= h.len() + 1 ==> regex_end(h, j, c) <= h.len() + 1,
    decreases h.len() + 1 - j,
{
    if !(j < 0 || j >= h.len()) {
        if h[j] == '\\' {
            lemma_regex_end(h, j + 2, c);
        } else if h[j] == '[' {
            lemma_regex_end(h, j + 1, true);
        } else if h[j] == ']' {
            lemma_regex_end(h, j + 1, false);
        } else if !((h[j] == '/' && !c) || h[j] == '\n') {
            lemma_regex_end(h, j + 1, c);
        }
    }
}

pub proof fn lemma_alpha_end(h: Seq<char>, j: int)
    ensures
        alpha_end(h, j) >= j,
        0 <= j <= h.len() ==> alpha_end(h, j) <= h.len(),
        j > h.len() ==> alpha_end(h, j) == j,
    decreases h.len() - j,
{
    if 0 <= j < h.len() && is_ascii_alpha(h[j]) {
        lemma_alpha_end(h, j + 1);
    }
}

/// The three-character operators.
pub open spec fn three_op(p: Seq<char>) -> bool {
    p == "==="@ || p == "!=="@ || p == "**="@ || p == "..."@
}

/// The two-character operators.
pub open spec fn two_op(p: Seq<char>) -> bool {
    p == "=>"@ || p == "=="@ || p == "!="@ || p == "+="@ || p == "-="@ || p == "&&"@ || p == "||"@ || p
        == "??"@ || p == "?."@ || p == "++"@ || p == "--"@ || p == "<="@ || p == ">="@
}

/// At punctuation the reader looks at the next two and the next three bytes; both slices
/// must end on a character boundary.
pub open spec fn js_punct_ok(h: Seq<char>, i: int) -> bool {
    ||| utf8_width(h[i]) == 1 && (i + 1 >= h.len() || (utf8_width(h[i + 1]) == 1 && (i + 2 >= h.len()
        || utf8_width(h[i + 2]) == 1)))
    ||| utf8_width(h[i]) == 2 && (i + 1 >= h.len() || utf8_width(h[i + 1]) == 1)
}

/// The tokens of `h` from `i` on, after the token `last`, each with the index it starts
/// at; `None` where the reading would stop on a slice that ends inside a character.
pub open spec fn lex_js(h: Seq<char>, i: int, last: Option<JsTok>) -> Option<Seq<(int, JsTok)>>
    decreases h.len() + 3 - i,
{
    if i < 0 || i >= h.len() {
        Some(Seq::empty())
    } else {
        let c = h[i];
        if is_ascii_ws(c) {
            lex_js(h, i + 1, last)
        } else if c == '/' && i + 1 < h.len() && h[i + 1] == '/' {
            let e = match index_of(h, "\n"@, i) {
                Some(at) => at,
                None => h.len() as int,
            };
            if i < e <= h.len() { lex_js(h, e, last) } else { lex_js(h, i + 1, last) }
        } else if c == '/' && i + 1 < h.len() && h[i + 1] == '*' {
            let e = match index_of(h, "*/"@, i + 2) {
                Some(at) => at + 2,
                None => h.len() as int,
            };
            if i < e <= h.len() { lex_js(h, e, last) } else { lex_js(h, i + 1, last) }
        } else {
            proof {
                lemma_str_scan(h, i + 1, c, false);
                lemma_regex_end(h, i + 1, false);
                lemma_alpha_end(h, regex_end(h, i + 1, false) + 1);
                crate::lint::sql::lemma_run_end(h, i, false);
                crate::lint::sql::lemma_run_end(h, i, true);
            }
            let (tok, e) = if c == '\'' || c == '"' || c == '`' {
                let (end, interpolated) = str_scan(h, i + 1, c, false);
                let stop = if end <= h.len() { end } else { h.len() as int };
                (Some(JsTok::Str { text: h.subrange(i + 1, stop), interpolated }), end + 1)
            } else if c == '/' && regex_may_follow(last) {
                (Some(JsTok::Str { text: Seq::empty(), interpolated: false }), alpha_end(h, regex_end(h, i + 1, false) + 1))
            } else if is_ascii_alpha(c) || c == '_' || c == '$' {
                let end = crate::lint::sql::run_end(h, i, false);
                (Some(JsTok::Ident(h.subrange(i, end))), end)
            } else if is_ascii_digit(c) {
                (Some(JsTok::Num), crate::lint::sql::run_end(h, i, true))
            } else if !js_punct_ok(h, i) {
                (None, i + 1)
            } else if i + 2 < h.len() && three_op(h.subrange(i, i + 3)) {
                (Some(JsTok::Punct(h.subrange(i, i + 3))), i + 3)
            } else if i + 1 < h.len() && two_op(h.subrange(i, i + 2)) {
                (Some(JsTok::Punct(h.subrange(i, i + 2))), i + 2)
            } else {
                (Some(JsTok::Punct(seq![c])), i + 1)
            };
            match tok {
                None => None,
                Some(t) => if i < e <= h.len() + 2 {
                    match lex_js(h, e, Some(t)) {
                        Some(rest) => Some(seq![(i, t)] + rest),
                        None => None,
                    }
                } else {
                    None
                },
            }
        }
    }
}

/// A string token at `k` holds the characters after its opening quote (a regular
/// expression holds none).
pub open spec fn str_in(h: Seq<char>, k: int, t: JsTok) -> bool {
    match t {
        JsTok::Str { text, .. } => text.len() == 0 || (k + 1 + text.len() <= h.len() && text == h.subrange(
            k + 1,
            k + 1 + text.len(),
        )),
        _ => true,
    }
}

/// Tokens that start at increasing indices of `h`, from `from` on.
pub open spec fn well_placed(h: Seq<char>, s: Seq<(int, JsTok)>, from: int) -> bool {
    &&& forall|j: int| 0 <= j < s.len() ==> from <= #[trigger] s[j].0 < h.len() && str_in(h, s[j].0, s[j].1)
    &&& forall|j1: int, j2: int| 0 <= j1 < j2 < s.len() ==> #[trigger] s[j1].0 < #[trigger] s[j2].0
}

proof fn lemma_placed_cons(h: Seq<char>, i: int, t: JsTok, e: int, rest: Seq<(int, JsTok)>)
    requires
        0 <= i < e,
        i < h.len(),
        str_in(h, i, t),
        well_placed(h, rest, e),
    ensures
        well_placed(h, seq![(i, t)] + rest, i),
{
    let all = seq![(i, t)] + rest;
    assert forall|j: int| 0 <= j < all.len() implies i <= #[trigger] all[j].0 < h.len() && str_in(h, all[j].0, all[j].1) by {
        if j > 0 {
            assert(all[j] == rest[j - 1]);
        }
    }
    assert forall|j1: int, j2: int| 0 <= j1 < j2 < all.len() implies #[trigger] all[j1].0 < #[trigger] all[j2].0 by {
        assert(all[j2] == rest[j2 - 1]);
        if j1 > 0 {
            assert(all[j1] == rest[j1 - 1]);
        }
    }
}

/// A reading from `i` yields at most one token per character left, each at its place.
#[verifier::spinoff_prover]
#[verifier::rlimit(50)]
pub proof fn lemma_lex_len(h: Seq<char>, i: int, last: Option<JsTok>)
    requires
        0 <= i,
    ensures
        lex_js(h, i, last) matches Some(s) ==> s.len() <= (if i < h.len() { h.len() - i } else { 0 }) && well_placed(h, s, i),
    decreases h.len() + 3 - i,
{
    if i < h.len() {
        let c = h[i];
        if is_ascii_ws(c) {
            lemma_lex_len(h, i + 1, last);
        } else if c == '/' && i + 1 < h.len() && h[i + 1] == '/' {
            let e = match index_of(h, "\n"@, i) {
                Some(at) => at,
                None => h.len() as int,
            };
            if i < e <= h.len() { lemma_lex_len(h, e, last) } else { lemma_lex_len(h, i + 1, last) }
        } else if c == '/' && i + 1 < h.len() && h[i + 1] == '*' {
            let e = match index_of(h, "*/"@, i + 2) {
                Some(at) => at + 2,
                None => h.len() as int,
            };
            if i < e <= h.len() { lemma_lex_len(h, e, last) } else { lemma_lex_len(h, i + 1, last) }
        } else {
            lemma_str_scan(h, i + 1, c, false);
            lemma_regex_end(h, i + 1, false);
            lemma_alpha_end(h, regex_end(h, i + 1, false) + 1);
            crate::lint::sql::lemma_run_end(h, i, false);
            crate::lint::sql::lemma_run_end(h, i, true);
            let (tok, e) = if c == '\'' || c == '"' || c == '`' {
                let (end, interpolated) = str_scan(h, i + 1, c, false);
                let stop = if end <= h.len() { end } else { h.len() as int };
                (Some(JsTok::Str { text: h.subrange(i + 1, stop), interpolated }), end + 1)
            } else if c == '/' && regex_may_follow(last) {
                (Some(JsTok::Str { text: Seq::empty(), interpolated: false }), alpha_end(h, regex_end(h, i + 1, false) + 1))
            } else if is_ascii_alpha(c) || c == '_' || c == '$' {
                let end = crate::lint::sql::run_end(h, i, false);
                (Some(JsTok::Ident(h.subrange(i, end))), end)
            } else if is_ascii_digit(c) {
                (Some(JsTok::Num), crate::lint::sql::run_end(h, i, true))
            } else if !js_punct_ok(h, i) {
                (None, i + 1)
            } else if i + 2 < h.len() && three_op(h.subrange(i, i + 3)) {
                (Some(JsTok::Punct(h.subrange(i, i + 3))), i + 3)
            } else if i + 1 < h.len() && two_op(h.subrange(i, i + 2)) {
                (Some(JsTok::Punct(h.subrange(i, i + 2))), i + 2)
            } else {
                (Some(JsTok::Punct(seq![c])), i + 1)
            };
            match tok {
                None => {},
                Some(t) => if i < e <= h.len() + 2 {
                    lemma_lex_len(h, e, Some(t));
                    if let Some(rest) = lex_js(h, e, Some(t)) {
                        lemma_placed_cons(h, i, t, e, rest);
                    }
                },
            }
        }
    }
}

/// `h` can be read to the end.
pub open spec fn js_lexable(h: Seq<char>) -> bool {
    lex_js(h, 0, None) is Some
}

/// The tokens of `h`.
pub open spec fn js_lexed(h: Seq<char>) -> Seq<(int, JsTok)> {
    lex_js(h, 0, None).unwrap()
}

/// The tokens with byte offsets.
pub open spec fn js_toks_v(h: Seq<char>, t: Seq<(int, JsTok)>) -> Seq<(int, JsTok)> {
    Seq::new(t.len(), |k: int| (byte_at(h, t[k].0), t[k].1))
}

pub open spec fn js_out_v(r: Seq<(usize, Tok)>) -> Seq<(int, JsTok)> {
    Seq::new(r.len(), |k: int| (r[k].0 as int, js_tok(r[k].1)))
}

fn regex_may_follow_exec(last: Option<&Tok>) -> (r: bool)
    ensures
        r == regex_may_follow(match last {
            Some(t) => Some(js_tok(*t)),
            None => None,
        }),
{
    match last {
        None => true,
        Some(Tok::Punct(p)) => {
            let pc = chars_of(p.as_str());
            let list = [")", "]", "}"];
            let hit = crate::text::one_of(pc.as_slice(), &list);
            proof {
                assert(hit == (p@ == ")"@ || p@ == "]"@ || p@ == "}"@)) by {
                    if p@ == ")"@ { assert(list@[0]@ == p@); }
                    if p@ == "]"@ { assert(list@[1]@ == p@); }
                    if p@ == "}"@ { assert(list@[2]@ == p@); }
                }
            }
            !hit
        },
        Some(Tok::Ident(i)) => {
            let ic = chars_of(i.as_str());
            let list = ["return", "typeof", "in", "of", "case", "await", "yield"];
            let hit = crate::text::one_of(ic.as_slice(), &list);
            proof {
                assert(hit == (i@ == "return"@ || i@ == "typeof"@ || i@ == "in"@ || i@ == "of"@ || i@ == "case"@
                    || i@ == "await"@ || i@ == "yield"@)) by {
                    if i@ == "return"@ { assert(list@[0]@ == i@); }
                    if i@ == "typeof"@ { assert(list@[1]@ == i@); }
                    if i@ == "in"@ { assert(list@[2]@ == i@); }
                    if i@ == "of"@ { assert(list@[3]@ == i@); }
                    if i@ == "case"@ { assert(list@[4]@ == i@); }
                    if i@ == "await"@ { assert(list@[5]@ == i@); }
                    if i@ == "yield"@ { assert(list@[6]@ == i@); }
                }
            }
            hit
        },
        Some(_) => false,
    }
}

fn str_scan_exec(h: &[char], j0: usize, q: char) -> (r: (usize, bool))
    requires
        j0 <= h@.len(),
        h@.len() + 2 < usize::MAX,
    ensures
        (r.0 as int, r.1) == str_scan(h@, j0 as int, q, false),
{
    let mut j = j0;
    let mut interpolated = false;
    while j < h.len() && h[j] != q
        invariant
            j0 <= j <= h@.len() + 1,
            h@.len() + 2 < usize::MAX,
            str_scan(h@, j0 as int, q, false) == str_scan(h@, j as int, q, interpolated),
        decreases h@.len() + 1 - j,
    {
        if h[j] == '\\' {
            j = j + 2;
        } else {
            if q == '`' && h[j] == '$' && j + 1 < h.len() && h[j + 1] == '{' {
                interpolated = true;
            }
            j = j + 1;
        }
    }
    (j, interpolated)
}

fn regex_end_exec(h: &[char], j0: usize) -> (r: usize)
    requires
        j0 <= h@.len(),
        h@.len() + 2 < usize::MAX,
    ensures
        r == regex_end(h@, j0 as int, false),
{
    let mut j = j0;
    let mut in_class = false;
    while j < h.len()
        invariant
            j0 <= j <= h@.len() + 1,
            h@.len() + 2 < usize::MAX,
            regex_end(h@, j0 as int, false) == regex_end(h@, j as int, in_class),
        decreases h@.len() + 1 - j,
    {
        let c = h[j];
        if c == '\\' {
            j = j + 2;
        } else if c == '[' {
            in_class = true;
            j = j + 1;
        } else if c == ']' {
            in_class = false;
            j = j + 1;
        } else if (c == '/' && !in_class) || c == '\n' {
            return j;
        } else {
            j = j + 1;
        }
    }
    j
}

fn width_of(c: char) -> (r: u8)
    ensures
        r == utf8_width(c),
{
    let n = c as u32;
    if n < 0x80 {
        1
    } else if n < 0x800 {
        2
    } else if n < 0x10000 {
        3
    } else {
        4
    }
}

fn alpha_exec(c: char) -> (r: bool)
    ensures
        r == is_ascii_alpha(c),
{
    ('a' <= c && c <= 'z') || ('A' <= c && c <= 'Z')
}

/// Tokenize JavaScript: comments and whitespace dropped, each token with its byte offset.
pub fn tokens(js: &str) -> (r: Vec<(usize, Tok)>)
    requires
        js_lexable(js@),
        utf8_len(js@) < usize::MAX - 3,
    ensures
        js_out_v(r@) == js_toks_v(js@, js_lexed(js@)),
{
    match lex_try(js, true) {
        Some(v) => v,
        None => Vec::new(),
    }
}

/// The tokens of `js`, each with its byte offset when `bytes`, else its character index,
/// or `None` where the reading stops on a slice that ends inside a character.
#[verifier::spinoff_prover]
#[verifier::rlimit(60)]
fn lex_try(js: &str, bytes: bool) -> (r: Option<Vec<(usize, Tok)>>)
    requires
        utf8_len(js@) < usize::MAX - 3,
    ensures
        match r {
            Some(v) => js_lexable(js@) && js_out_v(v@) == if bytes { js_toks_v(js@, js_lexed(js@)) } else { js_lexed(js@) },
            None => !js_lexable(js@),
        },
{
    let h = chars_of(js);
    let n = h.len();
    let mut out: Vec<(usize, Tok)> = Vec::new();
    let mut i: usize = 0;
    let ghost mut done: Seq<(int, JsTok)> = Seq::empty();
    let nl = chars_of("\n");
    let close_comment = chars_of("*/");
    proof {
        reveal_strlit("\n");
        reveal_strlit("*/");
        lemma_utf8_len_ge(h@);
    }
    while i < n
        invariant
            n == h@.len(),
            h@ == js@,
            i <= n + 2,
            utf8_len(h@) < usize::MAX - 3,
            n < usize::MAX - 3,
            nl@ == "\n"@,
            close_comment@ == "*/"@,
            lex_js(h@, 0, None) == match lex_js(h@, i as int, if out@.len() == 0 {
                None
            } else {
                Some(js_tok(out@.last().1))
            }) {
                Some(rest) => Some(done + rest),
                None => None::<Seq<(int, JsTok)>>,
            },
            js_out_v(out@) == if bytes { js_toks_v(h@, done) } else { done },
        decreases n + 3 - i,
    {
        let c = h[i];
        if c == ' ' || c == '\t' || c == '\n' || c == '\x0C' || c == '\r' {
            i = i + 1;
            continue;
        }
        if c == '/' && i + 1 < n && h[i + 1] == '/' {
            let found = crate::text::find(h.as_slice(), nl.as_slice(), i);
            proof {
                crate::text::lemma_index_of(h@, nl@, i as int);
            }
            let e = match found {
                Some(at) => at,
                None => n,
            };
            i = if e > i && e <= n { e } else { i + 1 };
            continue;
        }
        if c == '/' && i + 1 < n && h[i + 1] == '*' {
            proof {
                reveal_strlit("*/");
            }
            let found = crate::text::find(h.as_slice(), close_comment.as_slice(), i + 2);
            proof {
                crate::text::lemma_index_of(h@, close_comment@, (i + 2) as int);
            }
            let e = match found {
                Some(at) => at + 2,
                None => n,
            };
            i = if e > i && e <= n { e } else { i + 1 };
            continue;
        }
        proof {
            lemma_str_scan(h@, i + 1, c, false);
            lemma_regex_end(h@, i + 1, false);
            lemma_alpha_end(h@, regex_end(h@, i + 1, false) + 1);
            crate::lint::sql::lemma_run_end(h@, i as int, false);
            crate::lint::sql::lemma_run_end(h@, i as int, true);
        }
        let last: Option<&Tok> = if out.len() == 0 { None } else { Some(&out[out.len() - 1].1) };
        let tok: Tok;
        let e: usize;
        if c == '\'' || c == '"' || c == '`' {
            let (end, interpolated) = str_scan_exec(h.as_slice(), i + 1, c);
            let stop = if end <= n { end } else { n };
            tok = Tok::Str { text: string_of(slice_chars(h.as_slice(), i + 1, stop).as_slice()), interpolated };
            e = end + 1;
        } else if c == '/' && regex_may_follow_exec(last) {
            let end = regex_end_exec(h.as_slice(), i + 1);
            let mut k = end + 1;
            while k < n && alpha_exec(h[k])
                invariant
                    end + 1 <= k,
                    k <= n + 2,
                    n == h@.len(),
                    alpha_end(h@, end + 1) == alpha_end(h@, k as int),
                decreases n + 2 - k,
            {
                k = k + 1;
            }
            proof {
                lemma_alpha_end(h@, k as int);
            }
            tok = Tok::Str { text: string_of(Vec::<char>::new().as_slice()), interpolated: false };
            e = k;
        } else if ('a' <= c && c <= 'z') || ('A' <= c && c <= 'Z') || c == '_' || c == '$' {
            let end = crate::lint::sql::run_end_exec(h.as_slice(), i, false);
            tok = Tok::Ident(string_of(slice_chars(h.as_slice(), i, end).as_slice()));
            e = end;
        } else if '0' <= c && c <= '9' {
            tok = Tok::Num;
            e = crate::lint::sql::run_end_exec(h.as_slice(), i, true);
        } else {
            let w0 = width_of(c);
            let ok = (w0 == 1 && (i + 1 >= n || (width_of(h[i + 1]) == 1 && (i + 2 >= n || width_of(h[i + 2]) == 1))))
                || (w0 == 2 && (i + 1 >= n || width_of(h[i + 1]) == 1));
            if !ok {
                return None;
            }
            let mut three = false;
            if i + 2 < n {
                let s3 = slice_chars(h.as_slice(), i, i + 3);
                let ops3 = ["===", "!==", "**=", "..."];
                three = crate::text::one_of(s3.as_slice(), &ops3);
                proof {
                    assert(three == three_op(s3@)) by {
                        if s3@ == "==="@ { assert(ops3@[0]@ == s3@); }
                        if s3@ == "!=="@ { assert(ops3@[1]@ == s3@); }
                        if s3@ == "**="@ { assert(ops3@[2]@ == s3@); }
                        if s3@ == "..."@ { assert(ops3@[3]@ == s3@); }
                    }
                }
            }
            let mut two = false;
            if !three && i + 1 < n {
                let s2 = slice_chars(h.as_slice(), i, i + 2);
                let ops2 = ["=>", "==", "!=", "+=", "-=", "&&", "||", "??", "?.", "++", "--", "<=", ">="];
                two = crate::text::one_of(s2.as_slice(), &ops2);
                proof {
                    assert(two == two_op(s2@)) by {
                        if s2@ == "=>"@ { assert(ops2@[0]@ == s2@); }
                        if s2@ == "=="@ { assert(ops2@[1]@ == s2@); }
                        if s2@ == "!="@ { assert(ops2@[2]@ == s2@); }
                        if s2@ == "+="@ { assert(ops2@[3]@ == s2@); }
                        if s2@ == "-="@ { assert(ops2@[4]@ == s2@); }
                        if s2@ == "&&"@ { assert(ops2@[5]@ == s2@); }
                        if s2@ == "||"@ { assert(ops2@[6]@ == s2@); }
                        if s2@ == "??"@ { assert(ops2@[7]@ == s2@); }
                        if s2@ == "?."@ { assert(ops2@[8]@ == s2@); }
                        if s2@ == "++"@ { assert(ops2@[9]@ == s2@); }
                        if s2@ == "--"@ { assert(ops2@[10]@ == s2@); }
                        if s2@ == "<="@ { assert(ops2@[11]@ == s2@); }
                        if s2@ == ">="@ { assert(ops2@[12]@ == s2@); }
                    }
                }
            }
            if three {
                tok = Tok::Punct(string_of(slice_chars(h.as_slice(), i, i + 3).as_slice()));
                e = i + 3;
            } else if two {
                tok = Tok::Punct(string_of(slice_chars(h.as_slice(), i, i + 2).as_slice()));
                e = i + 2;
            } else {
                let one = slice_chars(h.as_slice(), i, i + 1);
                assert(one@ =~= seq![c]);
                tok = Tok::Punct(string_of(one.as_slice()));
                e = i + 1;
            }
        }
        if !(i < e && e <= n + 2) {
            return None;
        }
        let off = if bytes { crate::lint::sql::byte_offset(h.as_slice(), i) } else { i };
        let ghost t = js_tok(tok);
        let ghost before = done;
        let ghost old_out = out@;
        out.push((off, tok));
        proof {
            done = done.push((i as int, t));
            assert(out@ == old_out.push((off, tok)));
            assert(js_out_v(out@) =~= js_out_v(old_out).push((off as int, t)));
            assert(js_toks_v(h@, done) =~= js_toks_v(h@, before).push((byte_at(h@, i as int), t)));
            assert(done == before.push((i as int, t)));
            assert(before + (seq![(i as int, t)] + lex_js(h@, e as int, Some(t)).unwrap()) =~= done + lex_js(
                h@,
                e as int,
                Some(t),
            ).unwrap());
        }
        i = e;
    }
    proof {
        assert(done + Seq::<(int, JsTok)>::empty() =~= done);
    }
    Some(out)
}

// ---------------------------------------------------------------------------------------
// The JavaScript rules
// ---------------------------------------------------------------------------------------

/// What a JavaScript check reads besides the tokens: the app's slug, its declared remote
/// origins, the schema's columns, the text, the line before its first, and the file an
/// edit names (none for a script inside HTML).
pub struct JsEnv {
    pub slug: Seq<char>,
    pub remote: Seq<Seq<char>>,
    pub cols: Seq<(Seq<char>, Seq<char>)>,
    pub h: Seq<char>,
    pub base: u32,
    pub edit_file: Option<Seq<char>>,
}

/// The reading's state: the keys of each open object literal, the `pv` writes of each
/// open block, and the names already reported as outbox bookkeeping.
pub struct JsState {
    pub objects: Seq<Seq<Seq<char>>>,
    pub writes: Seq<int>,
    pub noted: Seq<Seq<char>>,
}

/// A finding as plain values: rule, line, message, fix, and the edit (file, start byte,
/// end byte, replacement).
pub struct FSpec {
    pub id: crate::lint::RuleId,
    pub line: u32,
    pub message: Seq<char>,
    pub fix: Option<Seq<char>>,
    pub edit: Option<(Seq<char>, int, int, Seq<char>)>,
}

pub open spec fn is_p(t: JsTok, p: Seq<char>) -> bool {
    match t {
        JsTok::Punct(q) => q == p,
        _ => false,
    }
}

/// The end of the argument that starts at `j`: the first `,` or closing bracket at depth
/// zero, or the end.
pub open spec fn arg_end(toks: Seq<(int, JsTok)>, j: int, depth: int) -> int
    decreases toks.len() - j,
{
    if j < 0 || j >= toks.len() {
        j
    } else {
        let t = toks[j].1;
        if is_p(t, "("@) || is_p(t, "["@) || is_p(t, "{"@) {
            arg_end(toks, j + 1, depth + 1)
        } else if is_p(t, ")"@) || is_p(t, "]"@) || is_p(t, "}"@) {
            if depth == 0 { j } else { arg_end(toks, j + 1, depth - 1) }
        } else if is_p(t, ","@) && depth == 0 {
            j
        } else {
            arg_end(toks, j + 1, depth)
        }
    }
}

pub proof fn lemma_arg_end(toks: Seq<(int, JsTok)>, j: int, depth: int)
    ensures
        arg_end(toks, j, depth) >= j,
        0 <= j <= toks.len() ==> arg_end(toks, j, depth) <= toks.len(),
    decreases toks.len() - j,
{
    if !(j < 0 || j >= toks.len()) {
        let t = toks[j].1;
        if is_p(t, "("@) || is_p(t, "["@) || is_p(t, "{"@) {
            lemma_arg_end(toks, j + 1, depth + 1);
        } else if is_p(t, ")"@) || is_p(t, "]"@) || is_p(t, "}"@) {
            if depth != 0 {
                lemma_arg_end(toks, j + 1, depth - 1);
            }
        } else if !(is_p(t, ","@) && depth == 0) {
            lemma_arg_end(toks, j + 1, depth);
        }
    }
}

/// The tokens of the argument that starts at `j`.
pub open spec fn argument(toks: Seq<(int, JsTok)>, j: int) -> Seq<(int, JsTok)> {
    toks.subrange(j, arg_end(toks, j, 0))
}

/// One plain string literal and nothing else.
pub open spec fn plain_literal(arg: Seq<(int, JsTok)>) -> bool {
    arg.len() == 1 && arg[0].1 matches JsTok::Str { interpolated: false, .. }
}

/// A DECIMAL or BIGINT column of that name.
pub open spec fn numeric_column(cols: Seq<(Seq<char>, Seq<char>)>, name: Seq<char>) -> bool {
    crate::lint::has_column(cols, name, 0) || crate::lint::has_column(cols, name, 1)
}

/// The first `x.col`, `x?.col` or `x["col"]` from `k` on whose column is DECIMAL or BIGINT.
pub open spec fn column_in(arg: Seq<(int, JsTok)>, cols: Seq<(Seq<char>, Seq<char>)>, k: int) -> Option<Seq<char>>
    decreases arg.len() - k,
{
    if k < 0 || k >= arg.len() {
        None
    } else {
        match arg[k].1 {
            JsTok::Ident(name) => if k > 0 && (is_p(arg[k - 1].1, "."@) || is_p(arg[k - 1].1, "?."@))
                && numeric_column(cols, name) {
                Some(name)
            } else {
                column_in(arg, cols, k + 1)
            },
            JsTok::Str { text, .. } => if k > 0 && is_p(arg[k - 1].1, "["@) && numeric_column(cols, text) {
                Some(text)
            } else {
                column_in(arg, cols, k + 1)
            },
            _ => column_in(arg, cols, k + 1),
        }
    }
}

/// The length of the run of names and `.`/`?.` an operand starts with.
pub open spec fn chain_len(arg: Seq<(int, JsTok)>, k: int) -> int
    decreases arg.len() - k,
{
    if 0 <= k < arg.len() && (arg[k].1 is Ident || is_p(arg[k].1, "."@) || is_p(arg[k].1, "?."@)) {
        chain_len(arg, k + 1)
    } else {
        k
    }
}

/// The names of an event's envelope a client never sets, in order.
pub open spec fn envelope_keys() -> Seq<Seq<char>> {
    seq!["seq"@, "lam"@, "ts"@, "dev"@, "app"@]
}

/// The envelope keys among `keys`, in order.
pub open spec fn stamped(keys: Seq<Seq<char>>, k: int) -> Seq<Seq<char>>
    decreases 5 - k,
{
    if k < 0 || k >= 5 {
        Seq::empty()
    } else if keys.contains(envelope_keys()[k]) {
        seq![envelope_keys()[k]] + stamped(keys, k + 1)
    } else {
        stamped(keys, k + 1)
    }
}

/// Names joined with `, `.
pub open spec fn comma_joined(ws: Seq<Seq<char>>) -> Seq<char>
    decreases ws.len(),
{
    if ws.len() == 0 {
        Seq::empty()
    } else if ws.len() == 1 {
        ws[0]
    } else {
        comma_joined(ws.drop_last()) + ", "@ + ws.last()
    }
}

/// Name fragments that mean an outbox is being deduplicated by hand.
pub open spec fn dedupe_names() -> Seq<Seq<char>> {
    seq!["dedupe"@, "dedup"@, "txid"@, "tx_id"@, "transaction_id"@, "transactionid"@, "acked"@, "ack_at"@, "acknowledg"@]
}

pub open spec fn dedupe_like(lower: Seq<char>) -> bool {
    exists|k: int| 0 <= k < 9 && crate::text::contains_seq(lower, #[trigger] dedupe_names()[k])
}

pub open spec fn f(id: crate::lint::RuleId, line: u32, message: Seq<char>, fix: Seq<char>) -> Seq<FSpec> {
    seq![FSpec { id, line, message, fix: Some(fix), edit: None }]
}

pub open spec fn line_of_tok(env: JsEnv, toks: Seq<(int, JsTok)>, i: int) -> u32 {
    (env.base + crate::text::line_at(env.h, toks[i].0)) as u32
}

/// The SQL rules over a literal handed to `pv.sql`, as findings at `line`; `None` where
/// the SQL reader would stop on it.
pub open spec fn sql_findings(sql: Seq<char>, cols: Seq<(Seq<char>, Seq<char>)>, line: u32) -> Option<Seq<FSpec>> {
    if !crate::lint::sql::lexable(sql) || utf8_len(sql) >= usize::MAX {
        None
    } else {
        let toks = crate::lint::sql::toks_v(sql, crate::lint::sql::lexed(sql));
        let w = crate::lint::sql::wfold(toks).1;
        let a = crate::lint::sql::arith_upto(toks, toks.len() as int, cols);
        Some(
            Seq::new(w.len(), |k: int| FSpec { id: crate::lint::RuleId::PV303, line, message: w[k].message, fix: Some(w[k].fix), edit: None })
                + Seq::new(a.len(), |k: int| FSpec { id: crate::lint::RuleId::PV308, line, message: a[k].message, fix: Some(a[k].fix), edit: None }),
        )
    }
}

pub open spec fn prev_p(toks: Seq<(int, JsTok)>, i: int, p: Seq<char>) -> bool {
    i > 0 && is_p(toks[i - 1].1, p)
}

pub open spec fn next_p(toks: Seq<(int, JsTok)>, i: int, p: Seq<char>) -> bool {
    i + 1 < toks.len() && is_p(toks[i + 1].1, p)
}

/// A `+` or an interpolated template literal.
pub open spec fn joins(t: JsTok) -> bool {
    is_p(t, "+"@) || t matches JsTok::Str { interpolated: true, .. }
}

/// Some token of `arg` is a `+` or an interpolated template literal.
pub open spec fn concatenated(arg: Seq<(int, JsTok)>) -> bool {
    exists|k: int| 0 <= k < arg.len() && joins(#[trigger] arg[k].1)
}

/// The text of a string token.
pub open spec fn str_text(t: JsTok) -> Seq<char> {
    match t {
        JsTok::Str { text, .. } => text,
        _ => Seq::empty(),
    }
}

/// The name of an identifier token.
pub open spec fn ident_name(t: JsTok) -> Seq<char> {
    match t {
        JsTok::Ident(n) => n,
        _ => Seq::empty(),
    }
}

/// The second argument of a call whose first starts at `i + 2` begins here.
pub open spec fn second_arg(toks: Seq<(int, JsTok)>, i: int) -> int {
    argument(toks, i + 2).len() + i + 3
}

/// An object literal's key: `name:` not after `?`, recorded in the innermost open object.
pub open spec fn with_key(toks: Seq<(int, JsTok)>, i: int, objects: Seq<Seq<Seq<char>>>, name: Seq<char>) -> Seq<Seq<Seq<char>>> {
    if next_p(toks, i, ":"@) && !prev_p(toks, i, "?"@) && objects.len() > 0 {
        objects.update(objects.len() - 1, objects.last().push(name))
    } else {
        objects
    }
}

/// `PV305` at a name that looks like outbox bookkeeping, once per lowercased name.
pub open spec fn p305(env: JsEnv, toks: Seq<(int, JsTok)>, i: int, noted: Seq<Seq<char>>, name: Seq<char>) -> Seq<FSpec> {
    let lower = crate::text::lowered(name);
    if dedupe_like(lower) && !noted.contains(lower) {
        f(
            crate::lint::RuleId::PV305,
            line_of_tok(env, toks, i),
            "`"@ + name
                + "` looks like outbox bookkeeping — a dedupe key, a transaction id, an acknowledgement; ULIDs already make replay idempotent (pv.js's outbox needs none)"@,
            "drop it: a queued write retried with its id converges"@,
        )
    } else {
        Seq::empty()
    }
}

pub open spec fn noted_after(noted: Seq<Seq<char>>, name: Seq<char>) -> Seq<Seq<char>> {
    let lower = crate::text::lowered(name);
    if dedupe_like(lower) && !noted.contains(lower) { noted.push(lower) } else { noted }
}

/// `PV206` at `innerHTML`/`outerHTML` assigned anything but one plain literal.
pub open spec fn p206a(env: JsEnv, toks: Seq<(int, JsTok)>, i: int, name: Seq<char>) -> Seq<FSpec> {
    if (name == "innerHTML"@ || name == "outerHTML"@) && (prev_p(toks, i, "."@) || prev_p(toks, i, "?."@)) && (next_p(
        toks,
        i,
        "="@,
    ) || next_p(toks, i, "+="@)) && (!plain_literal(argument(toks, i + 2)) || next_p(toks, i, "+="@)) {
        f(
            crate::lint::RuleId::PV206,
            line_of_tok(env, toks, i),
            name + " assigned from data — markup built from a value is the injection the CSP cannot see"@,
            "textContent for text; createElement and append for structure"@,
        )
    } else {
        Seq::empty()
    }
}

/// A call of `insertAdjacentHTML`.
pub open spec fn adjacent(toks: Seq<(int, JsTok)>, i: int, name: Seq<char>) -> bool {
    name == "insertAdjacentHTML"@ && next_p(toks, i, "("@)
}

/// `PV206` at `insertAdjacentHTML` given anything but one plain literal as its markup.
pub open spec fn p206b(env: JsEnv, toks: Seq<(int, JsTok)>, i: int, name: Seq<char>) -> Seq<FSpec> {
    if adjacent(toks, i, name) && !plain_literal(argument(toks, second_arg(toks, i))) {
        f(
            crate::lint::RuleId::PV206,
            line_of_tok(env, toks, i),
            "insertAdjacentHTML with data — markup built from a value is the injection the CSP cannot see"@,
            "textContent, or createElement and append"@,
        )
    } else {
        Seq::empty()
    }
}

/// `PV302` at `Number(`, `parseFloat(` or `parseInt(` over a DECIMAL or BIGINT column.
pub open spec fn p302(env: JsEnv, toks: Seq<(int, JsTok)>, i: int, name: Seq<char>) -> Seq<FSpec> {
    if (name == "Number"@ || name == "parseFloat"@ || name == "parseInt"@) && next_p(toks, i, "("@) {
        match column_in(argument(toks, i + 2), env.cols, 0) {
            Some(c) => f(
                crate::lint::RuleId::PV302,
                line_of_tok(env, toks, i),
                name + "() on `"@ + c + "`, a DECIMAL or BIGINT column that arrives as a string — a double loses what the text keeps"@,
                "keep it a string; a decimal library or integer cents for arithmetic"@,
            ),
            None => Seq::empty(),
        }
    } else {
        Seq::empty()
    }
}

/// `pv.<method>(` at `i`: the method, when the call is one.
pub open spec fn pv_call(toks: Seq<(int, JsTok)>, i: int, name: Seq<char>) -> Option<Seq<char>> {
    if name == "pv"@ && next_p(toks, i, "."@) && i + 2 < toks.len() && toks[i + 2].1 is Ident && i + 3 < toks.len()
        && is_p(toks[i + 3].1, "("@) {
        Some(ident_name(toks[i + 2].1))
    } else {
        None
    }
}

/// A `pv.sql(` whose argument is one string: that string.
pub open spec fn sql_literal(toks: Seq<(int, JsTok)>, i: int, name: Seq<char>) -> Option<Seq<char>> {
    if pv_call(toks, i, name) == Some("sql"@) && argument(toks, i + 4).len() == 1 && argument(toks, i + 4)[0].1 is Str {
        Some(str_text(argument(toks, i + 4)[0].1))
    } else {
        None
    }
}

/// `PV201` at `pv.sql(` given SQL built by concatenation or interpolation.
pub open spec fn p201(env: JsEnv, toks: Seq<(int, JsTok)>, i: int, name: Seq<char>) -> Seq<FSpec> {
    if pv_call(toks, i, name) == Some("sql"@) && concatenated(argument(toks, i + 4)) {
        f(
            crate::lint::RuleId::PV201,
            line_of_tok(env, toks, i),
            "pv.sql is given SQL built by concatenation or interpolation; a value reaches the engine as SQL"@,
            "write ? in the SQL and pass the values as the second argument"@,
        )
    } else {
        Seq::empty()
    }
}

/// A `pv.put(`, `pv.del(` or `pv.append(` counted in the innermost open block.
pub open spec fn pv_write(toks: Seq<(int, JsTok)>, i: int, name: Seq<char>, writes: Seq<int>) -> bool {
    &&& pv_call(toks, i, name) matches Some(m) && (m == "put"@ || m == "del"@ || m == "append"@)
    &&& writes.len() > 0
}

pub open spec fn writes_after(toks: Seq<(int, JsTok)>, i: int, name: Seq<char>, writes: Seq<int>) -> Seq<int> {
    if pv_write(toks, i, name, writes) { writes.update(writes.len() - 1, writes.last() + 1) } else { writes }
}

/// `PV306` at the second `pv` write of a block.
pub open spec fn p306(env: JsEnv, toks: Seq<(int, JsTok)>, i: int, name: Seq<char>, writes: Seq<int>) -> Seq<FSpec> {
    if pv_write(toks, i, name, writes) && writes.last() + 1 == 2 {
        f(
            crate::lint::RuleId::PV306,
            line_of_tok(env, toks, i),
            "a second pv.put/pv.del/pv.append in the same block lands as its own batch; if the two must land together, send them in one pv.append([...])"@,
            "pv.append([{ op:'put', … }, { op:'del', … }])"@,
        )
    } else {
        Seq::empty()
    }
}

/// `PV504` at `importScripts(` of a URL on another origin.
pub open spec fn p504(env: JsEnv, toks: Seq<(int, JsTok)>, i: int, name: Seq<char>) -> Seq<FSpec> {
    if name == "importScripts"@ && next_p(toks, i, "("@) && i + 2 < toks.len() && toks[i + 2].1 is Str {
        match crate::lint::origin(str_text(toks[i + 2].1)) {
            Some(o) => f(crate::lint::RuleId::PV504, line_of_tok(env, toks, i), "importScripts from "@ + o, "vendor it under web/vendor/"@),
            None => Seq::empty(),
        }
    } else {
        Seq::empty()
    }
}

/// Where the reading would stop at an identifier: an `insertAdjacentHTML(` whose first
/// argument runs to the end, or SQL handed to `pv.sql` that the SQL reader would stop on.
pub open spec fn ident_stops(toks: Seq<(int, JsTok)>, i: int, name: Seq<char>) -> bool {
    ||| adjacent(toks, i, name) && second_arg(toks, i) > toks.len()
    ||| sql_literal(toks, i, name) matches Some(sql) && (!crate::lint::sql::lexable(sql) || utf8_len(sql) >= usize::MAX)
}

/// The rules at an identifier `name` at token `i`; `None` where the reading would stop.
pub open spec fn js_ident(env: JsEnv, toks: Seq<(int, JsTok)>, i: int, st: JsState, name: Seq<char>) -> Option<(JsState, Seq<FSpec>)> {
    if ident_stops(toks, i, name) {
        None
    } else {
        let fsql = match sql_literal(toks, i, name) {
            Some(sql) => sql_findings(sql, env.cols, line_of_tok(env, toks, i)).unwrap(),
            None => Seq::empty(),
        };
        Some(
            (
                JsState {
                    objects: with_key(toks, i, st.objects, name),
                    writes: writes_after(toks, i, name, st.writes),
                    noted: noted_after(st.noted, name),
                },
                p305(env, toks, i, st.noted, name) + p206a(env, toks, i, name) + p206b(env, toks, i, name) + p302(
                    env,
                    toks,
                    i,
                    name,
                ) + p201(env, toks, i, name) + fsql + p306(env, toks, i, name, st.writes) + p504(env, toks, i, name),
            ),
        )
    }
}

/// The rule at a `+` at token `i`: a unary plus on a DECIMAL or BIGINT column.
pub open spec fn js_plus(env: JsEnv, toks: Seq<(int, JsTok)>, i: int) -> Seq<FSpec> {
    let unary = i == 0 || toks[i - 1].1 is Punct || toks[i - 1].1 == JsTok::Ident("return"@);
    if unary && !prev_p(toks, i, ")"@) && !prev_p(toks, i, "]"@) {
        let operand = argument(toks, i + 1);
        let head = chain_len(operand, 0);
        if head >= 3 && operand[head - 1].1 is Ident && numeric_column(env.cols, ident_name(operand[head - 1].1)) {
            f(
                crate::lint::RuleId::PV302,
                line_of_tok(env, toks, i),
                "unary + on `"@ + ident_name(operand[head - 1].1) + "`, a DECIMAL or BIGINT column that arrives as a string"@,
                "keep it a string; a decimal library or integer cents for arithmetic"@,
            )
        } else {
            Seq::empty()
        }
    } else {
        Seq::empty()
    }
}

/// The rules at a string `s` at token `i`: a literal mount path, an absolute filesystem
/// path, and an origin (imported, and undeclared).
pub open spec fn js_str(env: JsEnv, toks: Seq<(int, JsTok)>, i: int, s: Seq<char>) -> Seq<FSpec> {
    let at = line_of_tok(env, toks, i);
    let start = byte_at(env.h, toks[i].0);
    let f301 = match crate::lint::mount_of(s) {
        Some((target, beneath)) => if target == env.slug {
            seq![
                FSpec {
                    id: crate::lint::RuleId::PV301,
                    line: at,
                    message: "literal mount path '/a/"@ + target + "/' breaks solo mode"@,
                    fix: Some("pv.url('"@ + beneath + "')"@),
                    edit: match env.edit_file {
                        Some(file) => Some((file, start, start + utf8_len(s) + 2, "pv.url('"@ + beneath + "')"@)),
                        None => None,
                    },
                },
            ]
        } else {
            seq![
                FSpec {
                    id: crate::lint::RuleId::PV301,
                    line: at,
                    message: "literal mount path '/a/"@ + target + "/' breaks solo mode"@,
                    fix: Some("another app has no mount in solo mode"@),
                    edit: None,
                },
            ]
        },
        None => Seq::empty(),
    };
    let f505 = if crate::lint::absolute_fs_path(s) {
        f(
            crate::lint::RuleId::PV505,
            at,
            "absolute filesystem path "@ + crate::lua::debug_quoted(s)
                + " in browser code — nothing beside the binary or on the owner's disk is the app's"@,
            "everything an app stores is an event"@,
        )
    } else {
        Seq::empty()
    };
    let forigin = match crate::lint::origin(s) {
        Some(o) => (if i > 0 && (toks[i - 1].1 == JsTok::Ident("from"@) || toks[i - 1].1 == JsTok::Ident("import"@)) {
            f(
                crate::lint::RuleId::PV504,
                at,
                "import from "@ + o + " — a CDN is a third party on the critical path, an offline failure and an IP leak"@,
                "vendor the module under web/vendor/"@,
            )
        } else {
            Seq::empty()
        }) + if !env.remote.contains(o) {
            f(
                crate::lint::RuleId::PV207,
                at,
                o + " is referenced but not declared in permissions.remote; connect-src blocks it silently"@,
                "keep the app on its own origin, or declare the origin in [permissions] remote with a comment saying why"@,
            )
        } else {
            Seq::empty()
        },
        None => Seq::empty(),
    };
    f301 + f505 + forigin
}

/// The state and findings after one token; `None` where the reading would stop.
pub open spec fn js_step(env: JsEnv, toks: Seq<(int, JsTok)>, i: int, st: JsState) -> Option<(JsState, Seq<FSpec>)> {
    let t = toks[i].1;
    if is_p(t, "{"@) {
        Some((JsState { objects: st.objects.push(Seq::empty()), writes: st.writes.push(0), ..st }, Seq::empty()))
    } else if is_p(t, "}"@) {
        let fs = if st.objects.len() > 0 {
            let keys = st.objects.last();
            let stamp = stamped(keys, 0);
            if (keys.contains("op"@) || keys.contains("tbl"@)) && stamp.len() > 0 {
                f(
                    crate::lint::RuleId::PV304,
                    line_of_tok(env, toks, i),
                    "an event sets "@ + comma_joined(stamp)
                        + " — the framework stamps the envelope and the server rejects a client that does"@,
                    "send op, tbl, id and d only"@,
                )
            } else {
                Seq::empty()
            }
        } else {
            Seq::empty()
        };
        Some(
            (
                JsState {
                    objects: if st.objects.len() > 0 { st.objects.drop_last() } else { st.objects },
                    writes: if st.writes.len() > 0 { st.writes.drop_last() } else { st.writes },
                    ..st
                },
                fs,
            ),
        )
    } else {
        match t {
            JsTok::Ident(name) => js_ident(env, toks, i, st, name),
            JsTok::Punct(p) => if p == "+"@ {
                Some((st, js_plus(env, toks, i)))
            } else {
                Some((st, Seq::empty()))
            },
            JsTok::Str { text, .. } => Some((st, js_str(env, toks, i, text))),
            _ => Some((st, Seq::empty())),
        }
    }
}

/// The reading over the first `k` tokens; `None` where it would stop.
pub open spec fn js_run(env: JsEnv, toks: Seq<(int, JsTok)>, k: int) -> Option<(JsState, Seq<FSpec>)>
    decreases k,
{
    if k <= 0 {
        Some((JsState { objects: Seq::empty(), writes: seq![0], noted: Seq::empty() }, Seq::empty()))
    } else {
        match js_run(env, toks, k - 1) {
            None => None,
            Some((st, fs)) => match js_step(env, toks, k - 1, st) {
                None => None,
                Some((st2, f2)) => Some((st2, fs + f2)),
            },
        }
    }
}

/// The findings of the JavaScript rules over `env.h`; `None` where the reading would stop.
pub open spec fn js_findings(env: JsEnv) -> Option<Seq<FSpec>> {
    if !js_lexable(env.h) {
        None
    } else {
        match js_run(env, js_lexed(env.h), js_lexed(env.h).len() as int) {
            Some((_, fs)) => Some(fs),
            None => None,
        }
    }
}

/// A finding not yet recorded: rule, line, message, fix and edit.
#[derive(Debug, Clone)]
pub struct Pending {
    pub id: crate::lint::RuleId,
    pub line: u32,
    pub message: String,
    pub fix: Option<String>,
    pub edit: Option<crate::lint::Edit>,
}

pub open spec fn pending_v(p: Seq<Pending>) -> Seq<FSpec> {
    Seq::new(
        p.len(),
        |k: int|
            FSpec {
                id: p[k].id,
                line: p[k].line,
                message: p[k].message@,
                fix: match p[k].fix {
                    Some(x) => Some(x@),
                    None => None,
                },
                edit: match p[k].edit {
                    Some(e) => Some((e.file@, e.start as int, e.end as int, e.replacement@)),
                    None => None,
                },
            },
    )
}

fn note(out: &mut Vec<Pending>, id: crate::lint::RuleId, line: u32, message: Vec<char>, fix: &str)
    ensures
        pending_v(final(out)@) == pending_v(old(out)@) + f(id, line, message@, fix@),
{
    let ghost before = pending_v(out@);
    out.push(Pending { id, line, message: string_of(message.as_slice()), fix: Some(fix.to_string()), edit: None });
    assert(pending_v(out@) =~= before + f(id, line, message@, fix@));
}

fn with(a: &str, b: &[char], c: &str) -> (r: Vec<char>)
    ensures
        r@ == a@ + b@ + c@,
{
    let mut m = chars_of(a);
    crate::text::push_all(&mut m, b);
    crate::text::push_str(&mut m, c);
    m
}

fn punct_is(t: &Tok, p: &str) -> (r: bool)
    ensures
        r == is_p(js_tok(*t), p@),
{
    match t {
        Tok::Punct(q) => {
            let a = chars_of(q.as_str());
            let b = chars_of(p);
            crate::text::same_chars(a.as_slice(), b.as_slice())
        },
        _ => false,
    }
}

fn name_is(name: &[char], w: &str) -> (r: bool)
    ensures
        r == (name@ == w@),
{
    let b = chars_of(w);
    crate::text::same_chars(name, b.as_slice())
}

fn prev_is(toks: &Vec<(usize, Tok)>, i: usize, p: &str) -> (r: bool)
    requires
        i < toks@.len(),
    ensures
        r == prev_p(js_out_v(toks@), i as int, p@),
{
    i > 0 && punct_is(&toks[i - 1].1, p)
}

fn next_is(toks: &Vec<(usize, Tok)>, i: usize, p: &str) -> (r: bool)
    requires
        i < toks@.len(),
    ensures
        r == next_p(js_out_v(toks@), i as int, p@),
{
    i < toks.len() - 1 && punct_is(&toks[i + 1].1, p)
}

fn arg_end_exec(toks: &Vec<(usize, Tok)>, j: usize) -> (r: usize)
    requires
        j <= toks@.len(),
    ensures
        r == arg_end(js_out_v(toks@), j as int, 0),
        j <= r <= toks@.len(),
{
    let ghost tv = js_out_v(toks@);
    let mut depth: usize = 0;
    let mut k = j;
    while k < toks.len()
        invariant
            j <= k <= toks@.len(),
            depth <= k - j,
            tv == js_out_v(toks@),
            arg_end(tv, j as int, 0) == arg_end(tv, k as int, depth as int),
        decreases toks@.len() - k,
    {
        let t = &toks[k].1;
        if punct_is(t, "(") || punct_is(t, "[") || punct_is(t, "{") {
            depth = depth + 1;
        } else if punct_is(t, ")") || punct_is(t, "]") || punct_is(t, "}") {
            if depth == 0 {
                return k;
            }
            depth = depth - 1;
        } else if punct_is(t, ",") && depth == 0 {
            return k;
        }
        k = k + 1;
    }
    k
}

fn plain_literal_exec(toks: &Vec<(usize, Tok)>, a: usize, b: usize) -> (r: bool)
    requires
        a <= b <= toks@.len(),
    ensures
        r == plain_literal(js_out_v(toks@).subrange(a as int, b as int)),
{
    if b - a != 1 {
        return false;
    }
    match &toks[a].1 {
        Tok::Str { interpolated, .. } => !*interpolated,
        _ => false,
    }
}

fn numeric_exec(columns: &crate::lint::Columns, name: &str) -> (r: bool)
    ensures
        r == numeric_column(columns@, name@),
{
    columns.is_decimal(name) || columns.is_integer(name)
}

fn column_in_exec(toks: &Vec<(usize, Tok)>, a: usize, b: usize, columns: &crate::lint::Columns) -> (r: Option<String>)
    requires
        a <= b <= toks@.len(),
    ensures
        match r {
            Some(c) => column_in(js_out_v(toks@).subrange(a as int, b as int), columns@, 0) == Some(c@),
            None => column_in(js_out_v(toks@).subrange(a as int, b as int), columns@, 0) is None,
        },
{
    let ghost arg = js_out_v(toks@).subrange(a as int, b as int);
    let mut k = a;
    while k < b
        invariant
            a <= k <= b <= toks@.len(),
            arg == js_out_v(toks@).subrange(a as int, b as int),
            column_in(arg, columns@, 0) == column_in(arg, columns@, k - a),
        decreases b - k,
    {
        assert(arg[k - a] == js_out_v(toks@)[k as int]);
        if k > a {
            assert(arg[k - a - 1] == js_out_v(toks@)[k - 1]);
        }
        match &toks[k].1 {
            Tok::Ident(name) => {
                if k > a && (punct_is(&toks[k - 1].1, ".") || punct_is(&toks[k - 1].1, "?.")) && numeric_exec(columns, name.as_str()) {
                    return Some(name.clone());
                }
            },
            Tok::Str { text, .. } => {
                if k > a && punct_is(&toks[k - 1].1, "[") && numeric_exec(columns, text.as_str()) {
                    return Some(text.clone());
                }
            },
            _ => {},
        }
        k = k + 1;
    }
    None
}

pub open spec fn strings_v(v: Seq<String>) -> Seq<Seq<char>> {
    Seq::new(v.len(), |k: int| v[k]@)
}

pub open spec fn objects_v(o: Seq<Vec<String>>) -> Seq<Seq<Seq<char>>> {
    Seq::new(o.len(), |k: int| strings_v(o[k]@))
}

pub open spec fn writes_v(w: Seq<u64>) -> Seq<int> {
    Seq::new(w.len(), |k: int| w[k] as int)
}

pub open spec fn noted_v(n: Seq<Vec<char>>) -> Seq<Seq<char>> {
    Seq::new(n.len(), |k: int| n[k]@)
}

proof fn lemma_newlines_prefix(s: Seq<char>, k: int)
    requires
        0 <= k <= s.len(),
    ensures
        crate::text::newlines(s.subrange(0, k)) <= crate::text::newlines(s),
{
    crate::text::lemma_newlines_concat(s.subrange(0, k), s.subrange(k, s.len() as int));
    assert(s.subrange(0, k) + s.subrange(k, s.len() as int) =~= s);
}

fn push_sql(out: &mut Vec<Pending>, sql: &str, columns: &crate::lint::Columns, line: u32)
    requires
        crate::lint::sql::lexable(sql@),
        utf8_len(sql@) < usize::MAX,
    ensures
        pending_v(final(out)@) == pending_v(old(out)@) + sql_findings(sql@, columns@, line).unwrap(),
{
    let ghost start = pending_v(out@);
    let w = crate::lint::sql::write_problems(sql);
    let a = crate::lint::sql::arithmetic_problems(sql, columns);
    let ghost wv = crate::lint::sql::problems_v(w@);
    let ghost av = crate::lint::sql::problems_v(a@);
    let mut k: usize = 0;
    while k < w.len()
        invariant
            k <= w@.len(),
            wv == crate::lint::sql::problems_v(w@),
            pending_v(out@) == start + Seq::new(k as nat, |j: int| FSpec { id: crate::lint::RuleId::PV303, line, message: wv[j].message, fix: Some(wv[j].fix), edit: None }),
        decreases w@.len() - k,
    {
        let ghost before = pending_v(out@);
        out.push(Pending { id: crate::lint::RuleId::PV303, line, message: w[k].message.clone(), fix: Some(w[k].fix.clone()), edit: None });
        assert(pending_v(out@) =~= before.push(FSpec { id: crate::lint::RuleId::PV303, line, message: wv[k as int].message, fix: Some(wv[k as int].fix), edit: None }));
        assert(pending_v(out@) =~= start + Seq::new((k + 1) as nat, |j: int| FSpec { id: crate::lint::RuleId::PV303, line, message: wv[j].message, fix: Some(wv[j].fix), edit: None }));
        k = k + 1;
    }
    let ghost mid = pending_v(out@);
    let mut m: usize = 0;
    while m < a.len()
        invariant
            m <= a@.len(),
            av == crate::lint::sql::problems_v(a@),
            pending_v(out@) == mid + Seq::new(m as nat, |j: int| FSpec { id: crate::lint::RuleId::PV308, line, message: av[j].message, fix: Some(av[j].fix), edit: None }),
        decreases a@.len() - m,
    {
        let ghost before = pending_v(out@);
        out.push(Pending { id: crate::lint::RuleId::PV308, line, message: a[m].message.clone(), fix: Some(a[m].fix.clone()), edit: None });
        assert(pending_v(out@) =~= before.push(FSpec { id: crate::lint::RuleId::PV308, line, message: av[m as int].message, fix: Some(av[m as int].fix), edit: None }));
        assert(pending_v(out@) =~= mid + Seq::new((m + 1) as nat, |j: int| FSpec { id: crate::lint::RuleId::PV308, line, message: av[j].message, fix: Some(av[j].fix), edit: None }));
        m = m + 1;
    }
    proof {
        let toks = crate::lint::sql::toks_v(sql@, crate::lint::sql::lexed(sql@));
        assert(wv == crate::lint::sql::wfold(toks).1);
        assert(av == crate::lint::sql::arith_upto(toks, toks.len() as int, columns@));
        assert(pending_v(out@) =~= start + sql_findings(sql@, columns@, line).unwrap());
    }
}

/// The common demands of the rules at an identifier token `i`.
pub open spec fn at_ident(toks: Seq<(int, JsTok)>, i: int, name: Seq<char>) -> bool {
    &&& 0 <= i < toks.len()
    &&& toks[i].1 == JsTok::Ident(name)
    &&& toks.len() < usize::MAX - 8
}

/// An object literal's key.
fn key_exec(toks: &Vec<(usize, Tok)>, i: usize, name: &String, objects: &mut Vec<Vec<String>>)
    requires
        at_ident(js_out_v(toks@), i as int, name@),
    ensures
        objects_v(final(objects)@) == with_key(js_out_v(toks@), i as int, objects_v(old(objects)@), name@),
{
    let ghost ov = objects_v(objects@);
    if next_is(toks, i, ":") && !prev_is(toks, i, "?") && objects.len() > 0 {
        let last = objects.len() - 1;
        let mut keys = objects[last].clone();
        assert(keys@ == objects@[last as int]@);
        keys.push(name.clone());
        assert(strings_v(keys@) =~= ov.last().push(name@));
        objects.set(last, keys);
        assert(objects_v(objects@) =~= with_key(js_out_v(toks@), i as int, ov, name@));
    }
}

/// `PV305`, once per lowercased name.
#[verifier::spinoff_prover]
#[verifier::rlimit(40)]
fn bookkeeping_exec(
    Ghost(env): Ghost<JsEnv>,
    toks: &Vec<(usize, Tok)>,
    i: usize,
    name: &String,
    line: u32,
    noted: &mut Vec<Vec<char>>,
    out: &mut Vec<Pending>,
)
    requires
        at_ident(js_out_v(toks@), i as int, name@),
        line == line_of_tok(env, js_out_v(toks@), i as int),
    ensures
        pending_v(final(out)@) == pending_v(old(out)@) + p305(env, js_out_v(toks@), i as int, noted_v(old(noted)@), name@),
        noted_v(final(noted)@) == noted_after(noted_v(old(noted)@), name@),
{
    let ghost start = pending_v(out@);
    let ghost nv = noted_v(noted@);
    let nm = chars_of(name.as_str());
    let lower = crate::text::lowered_exec(nm.as_slice());
    let frags = ["dedupe", "dedup", "txid", "tx_id", "transaction_id", "transactionid", "acked", "ack_at", "acknowledg"];
    let mut dedupe = false;
    let mut q: usize = 0;
    while q < 9
        invariant
            q <= 9,
            frags@.len() == 9,
            forall|j: int| 0 <= j < 9 ==> #[trigger] frags@[j]@ == dedupe_names()[j],
            dedupe == exists|j: int| 0 <= j < q && crate::text::contains_seq(lower@, #[trigger] dedupe_names()[j]),
        decreases 9 - q,
    {
        let fc = chars_of(frags[q]);
        if crate::text::contains_exec(lower.as_slice(), fc.as_slice()) {
            dedupe = true;
        }
        q = q + 1;
    }
    let mut seen = false;
    let mut r: usize = 0;
    while r < noted.len()
        invariant
            r <= noted@.len(),
            nv == noted_v(noted@),
            seen == exists|j: int| 0 <= j < r && nv[j] == lower@,
        decreases noted@.len() - r,
    {
        assert(nv[r as int] == noted@[r as int]@);
        if crate::text::same_chars(noted[r].as_slice(), lower.as_slice()) {
            seen = true;
        }
        r = r + 1;
    }
    proof {
        assert(seen == nv.contains(lower@));
    }
    if dedupe && !seen {
        note(
            out,
            crate::lint::RuleId::PV305,
            line,
            with("`", nm.as_slice(), "` looks like outbox bookkeeping — a dedupe key, a transaction id, an acknowledgement; ULIDs already make replay idempotent (pv.js's outbox needs none)"),
            "drop it: a queued write retried with its id converges",
        );
        noted.push(lower);
        assert(noted_v(noted@) =~= nv.push(crate::text::lowered(name@)));
    } else {
        assert(pending_v(out@) =~= start + Seq::<FSpec>::empty());
    }
}

/// `PV206` at `innerHTML`, `outerHTML` and `insertAdjacentHTML`.
#[verifier::spinoff_prover]
#[verifier::rlimit(40)]
fn markup_exec(
    Ghost(env): Ghost<JsEnv>,
    toks: &Vec<(usize, Tok)>,
    i: usize,
    name: &String,
    line: u32,
    out: &mut Vec<Pending>,
)
    requires
        at_ident(js_out_v(toks@), i as int, name@),
        line == line_of_tok(env, js_out_v(toks@), i as int),
        !(adjacent(js_out_v(toks@), i as int, name@) && second_arg(js_out_v(toks@), i as int) > toks@.len()),
    ensures
        pending_v(final(out)@) == pending_v(old(out)@) + p206a(env, js_out_v(toks@), i as int, name@) + p206b(
            env,
            js_out_v(toks@),
            i as int,
            name@,
        ),
{
    let ghost tv = js_out_v(toks@);
    let ghost a1 = pending_v(out@);
    let nm = chars_of(name.as_str());
    if (name_is(nm.as_slice(), "innerHTML") || name_is(nm.as_slice(), "outerHTML")) && (prev_is(toks, i, ".") || prev_is(toks, i, "?."))
        && (next_is(toks, i, "=") || next_is(toks, i, "+=")) {
        let e = arg_end_exec(toks, i + 2);
        if !plain_literal_exec(toks, i + 2, e) || next_is(toks, i, "+=") {
            note(
                out,
                crate::lint::RuleId::PV206,
                line,
                with("", nm.as_slice(), " assigned from data — markup built from a value is the injection the CSP cannot see"),
                "textContent for text; createElement and append for structure",
            );
            proof {
                reveal_strlit("");
            }
        } else {
            assert(pending_v(out@) =~= a1 + Seq::<FSpec>::empty());
        }
    } else {
        assert(pending_v(out@) =~= a1 + Seq::<FSpec>::empty());
    }
    let ghost a2 = pending_v(out@);
    if name_is(nm.as_slice(), "insertAdjacentHTML") && next_is(toks, i, "(") {
        let e = arg_end_exec(toks, i + 2);
        let second = (e - (i + 2)) + i + 3;
        let e2 = arg_end_exec(toks, second);
        if !plain_literal_exec(toks, second, e2) {
            note(
                out,
                crate::lint::RuleId::PV206,
                line,
                chars_of("insertAdjacentHTML with data — markup built from a value is the injection the CSP cannot see"),
                "textContent, or createElement and append",
            );
        } else {
            assert(pending_v(out@) =~= a2 + Seq::<FSpec>::empty());
        }
    } else {
        assert(pending_v(out@) =~= a2 + Seq::<FSpec>::empty());
    }
}

/// `PV302` at `Number(`, `parseFloat(` or `parseInt(`.
#[verifier::spinoff_prover]
#[verifier::rlimit(40)]
fn number_exec(
    Ghost(env): Ghost<JsEnv>,
    toks: &Vec<(usize, Tok)>,
    i: usize,
    name: &String,
    line: u32,
    columns: &crate::lint::Columns,
    out: &mut Vec<Pending>,
)
    requires
        at_ident(js_out_v(toks@), i as int, name@),
        line == line_of_tok(env, js_out_v(toks@), i as int),
        env.cols == columns@,
    ensures
        pending_v(final(out)@) == pending_v(old(out)@) + p302(env, js_out_v(toks@), i as int, name@),
{
    let ghost a3 = pending_v(out@);
    let nm = chars_of(name.as_str());
    if (name_is(nm.as_slice(), "Number") || name_is(nm.as_slice(), "parseFloat") || name_is(nm.as_slice(), "parseInt")) && next_is(toks, i, "(") {
        let e = arg_end_exec(toks, i + 2);
        match column_in_exec(toks, i + 2, e, columns) {
            Some(c) => {
                let mut m = nm.clone();
                crate::text::push_str(&mut m, "() on `");
                crate::text::push_str(&mut m, c.as_str());
                crate::text::push_str(&mut m, "`, a DECIMAL or BIGINT column that arrives as a string — a double loses what the text keeps");
                note(out, crate::lint::RuleId::PV302, line, m, "keep it a string; a decimal library or integer cents for arithmetic");
            },
            None => {
                assert(pending_v(out@) =~= a3 + Seq::<FSpec>::empty());
            },
        }
    } else {
        assert(pending_v(out@) =~= a3 + Seq::<FSpec>::empty());
    }
}

/// The method of a `pv.<method>(` call at `i`.
fn pv_method(toks: &Vec<(usize, Tok)>, i: usize, name: &String) -> (r: Option<Vec<char>>)
    requires
        at_ident(js_out_v(toks@), i as int, name@),
    ensures
        match r {
            Some(m) => pv_call(js_out_v(toks@), i as int, name@) == Some(m@),
            None => pv_call(js_out_v(toks@), i as int, name@) is None,
        },
{
    let nm = chars_of(name.as_str());
    if name_is(nm.as_slice(), "pv") && next_is(toks, i, ".") && i + 3 < toks.len() && punct_is(&toks[i + 3].1, "(") {
        match &toks[i + 2].1 {
            Tok::Ident(m) => {
                return Some(chars_of(m.as_str()));
            },
            _ => {},
        }
    }
    None
}

/// `PV201`, the SQL rules over a literal, and `PV306` at a `pv` call.
#[verifier::spinoff_prover]
#[verifier::rlimit(40)]
fn pv_exec(
    Ghost(env): Ghost<JsEnv>,
    toks: &Vec<(usize, Tok)>,
    i: usize,
    name: &String,
    line: u32,
    columns: &crate::lint::Columns,
    writes: &mut Vec<u64>,
    out: &mut Vec<Pending>,
)
    requires
        at_ident(js_out_v(toks@), i as int, name@),
        line == line_of_tok(env, js_out_v(toks@), i as int),
        env.cols == columns@,
        !(sql_literal(js_out_v(toks@), i as int, name@) matches Some(sql) && (!crate::lint::sql::lexable(sql) || utf8_len(sql)
            >= usize::MAX)),
        forall|j: int| 0 <= j < old(writes)@.len() ==> old(writes)@[j] <= i,
    ensures
        pending_v(final(out)@) == pending_v(old(out)@) + p201(env, js_out_v(toks@), i as int, name@) + (match sql_literal(
            js_out_v(toks@),
            i as int,
            name@,
        ) {
            Some(sql) => sql_findings(sql, env.cols, line).unwrap(),
            None => Seq::<FSpec>::empty(),
        }) + p306(env, js_out_v(toks@), i as int, name@, writes_v(old(writes)@)),
        writes_v(final(writes)@) == writes_after(js_out_v(toks@), i as int, name@, writes_v(old(writes)@)),
        forall|j: int| 0 <= j < final(writes)@.len() ==> final(writes)@[j] <= i + 1,
{
    let ghost tv = js_out_v(toks@);
    let ghost wv0 = writes_v(writes@);
    let ghost a4 = pending_v(out@);
    let method = pv_method(toks, i, name);
    let is_sql = match &method {
        Some(m) => name_is(m.as_slice(), "sql"),
        None => false,
    };
    if is_sql {
        let e = arg_end_exec(toks, i + 4);
        let mut concat = false;
        let mut k = i + 4;
        let ghost arg = tv.subrange(i + 4, e as int);
        while k < e
            invariant
                i + 4 <= k <= e <= toks@.len(),
                tv == js_out_v(toks@),
                arg == tv.subrange(i + 4, e as int),
                concat == exists|j: int| 0 <= j < k - (i + 4) && joins(#[trigger] arg[j].1),
            decreases e - k,
        {
            let hit = match &toks[k].1 {
                Tok::Str { interpolated, .. } => *interpolated,
                t => punct_is(t, "+"),
            };
            assert(arg[k - (i + 4)].1 == tv[k as int].1);
            assert(hit == joins(arg[k - (i + 4)].1));
            if hit {
                concat = true;
            }
            k = k + 1;
        }
        if concat {
            note(
                out,
                crate::lint::RuleId::PV201,
                line,
                chars_of("pv.sql is given SQL built by concatenation or interpolation; a value reaches the engine as SQL"),
                "write ? in the SQL and pass the values as the second argument",
            );
        } else {
            assert(pending_v(out@) =~= a4 + Seq::<FSpec>::empty());
        }
        let ghost a5 = pending_v(out@);
        if e - (i + 4) == 1 {
            match &toks[i + 4].1 {
                Tok::Str { text, .. } => {
                    push_sql(out, text.as_str(), columns, line);
                },
                _ => {
                    assert(pending_v(out@) =~= a5 + Seq::<FSpec>::empty());
                },
            }
        } else {
            assert(pending_v(out@) =~= a5 + Seq::<FSpec>::empty());
        }
    } else {
        assert(pending_v(out@) =~= a4 + Seq::<FSpec>::empty() + Seq::<FSpec>::empty());
    }
    let ghost a6 = pending_v(out@);
    let is_write = match &method {
        Some(m) => name_is(m.as_slice(), "put") || name_is(m.as_slice(), "del") || name_is(m.as_slice(), "append"),
        None => false,
    };
    if is_write && writes.len() > 0 {
        let last = writes.len() - 1;
        let count = writes[last] + 1;
        writes.set(last, count);
        assert(writes_v(writes@) =~= wv0.update(wv0.len() - 1, wv0.last() + 1));
        if count == 2 {
            note(
                out,
                crate::lint::RuleId::PV306,
                line,
                chars_of("a second pv.put/pv.del/pv.append in the same block lands as its own batch; if the two must land together, send them in one pv.append([...])"),
                "pv.append([{ op:'put', … }, { op:'del', … }])",
            );
        } else {
            assert(pending_v(out@) =~= a6 + Seq::<FSpec>::empty());
        }
    } else {
        assert(pending_v(out@) =~= a6 + Seq::<FSpec>::empty());
    }
}

/// `PV504` at `importScripts(` of a URL on another origin.
#[verifier::spinoff_prover]
#[verifier::rlimit(40)]
fn import_exec(
    Ghost(env): Ghost<JsEnv>,
    toks: &Vec<(usize, Tok)>,
    i: usize,
    name: &String,
    line: u32,
    out: &mut Vec<Pending>,
)
    requires
        at_ident(js_out_v(toks@), i as int, name@),
        line == line_of_tok(env, js_out_v(toks@), i as int),
    ensures
        pending_v(final(out)@) == pending_v(old(out)@) + p504(env, js_out_v(toks@), i as int, name@),
{
    let ghost a7 = pending_v(out@);
    let nm = chars_of(name.as_str());
    if name_is(nm.as_slice(), "importScripts") && next_is(toks, i, "(") && i + 2 < toks.len() {
        match &toks[i + 2].1 {
            Tok::Str { text, .. } => {
                match crate::lint::origin_of(text.as_str()) {
                    Some(o) => {
                        let oc = chars_of(o.as_str());
                        note(out, crate::lint::RuleId::PV504, line, with("importScripts from ", oc.as_slice(), ""), "vendor it under web/vendor/");
                        proof {
                            reveal_strlit("");
                        }
                    },
                    None => {
                        assert(pending_v(out@) =~= a7 + Seq::<FSpec>::empty());
                    },
                }
            },
            _ => {
                assert(pending_v(out@) =~= a7 + Seq::<FSpec>::empty());
            },
        }
    } else {
        assert(pending_v(out@) =~= a7 + Seq::<FSpec>::empty());
    }
}

/// The rules at identifier token `i`, writing the state and the findings.
#[verifier::spinoff_prover]
#[verifier::rlimit(50)]
fn ident_exec(
    Ghost(env): Ghost<JsEnv>,
    toks: &Vec<(usize, Tok)>,
    i: usize,
    name: &String,
    line: u32,
    columns: &crate::lint::Columns,
    objects: &mut Vec<Vec<String>>,
    writes: &mut Vec<u64>,
    noted: &mut Vec<Vec<char>>,
    out: &mut Vec<Pending>,
)
    requires
        at_ident(js_out_v(toks@), i as int, name@),
        !ident_stops(js_out_v(toks@), i as int, name@),
        line == line_of_tok(env, js_out_v(toks@), i as int),
        env.cols == columns@,
        forall|j: int| 0 <= j < old(writes)@.len() ==> old(writes)@[j] <= i,
    ensures
        js_ident(
            env,
            js_out_v(toks@),
            i as int,
            JsState { objects: objects_v(old(objects)@), writes: writes_v(old(writes)@), noted: noted_v(old(noted)@) },
            name@,
        ) == Some(
            (
                JsState { objects: objects_v(final(objects)@), writes: writes_v(final(writes)@), noted: noted_v(final(noted)@) },
                pending_v(final(out)@).subrange(old(out)@.len() as int, final(out)@.len() as int),
            ),
        ),
        pending_v(final(out)@).subrange(0, old(out)@.len() as int) == pending_v(old(out)@),
        old(out)@.len() <= final(out)@.len(),
        forall|j: int| 0 <= j < final(writes)@.len() ==> final(writes)@[j] <= i + 1,
{
    let ghost tv = js_out_v(toks@);
    let ghost start = pending_v(out@);
    let ghost nv = noted_v(noted@);
    let ghost wv0 = writes_v(writes@);
    key_exec(toks, i, name, objects);
    bookkeeping_exec(Ghost(env), toks, i, name, line, noted, out);
    markup_exec(Ghost(env), toks, i, name, line, out);
    number_exec(Ghost(env), toks, i, name, line, columns, out);
    pv_exec(Ghost(env), toks, i, name, line, columns, writes, out);
    import_exec(Ghost(env), toks, i, name, line, out);
    proof {
        let fsql = match sql_literal(tv, i as int, name@) {
            Some(sql) => sql_findings(sql, env.cols, line).unwrap(),
            None => Seq::<FSpec>::empty(),
        };
        assert(pending_v(out@).subrange(0, start.len() as int) =~= start);
        assert(pending_v(out@).subrange(start.len() as int, pending_v(out@).len() as int) =~= p305(env, tv, i as int, nv, name@)
            + p206a(env, tv, i as int, name@) + p206b(env, tv, i as int, name@) + p302(env, tv, i as int, name@) + p201(
            env,
            tv,
            i as int,
            name@,
        ) + fsql + p306(env, tv, i as int, name@, wv0) + p504(env, tv, i as int, name@));
    }
}

/// Whether `keys` holds `w`.
fn holds_key(keys: &Vec<String>, w: &str) -> (r: bool)
    ensures
        r == strings_v(keys@).contains(w@),
{
    let ghost kv = strings_v(keys@);
    let wc = chars_of(w);
    let mut k: usize = 0;
    while k < keys.len()
        invariant
            k <= keys@.len(),
            kv == strings_v(keys@),
            wc@ == w@,
            forall|j: int| 0 <= j < k ==> kv[j] != w@,
        decreases keys@.len() - k,
    {
        let kc = chars_of(keys[k].as_str());
        if crate::text::same_chars(kc.as_slice(), wc.as_slice()) {
            assert(kv[k as int] == w@);
            return true;
        }
        k = k + 1;
    }
    false
}

/// The envelope keys among `keys`, joined with `, `, and how many there are.
fn stamped_exec(keys: &Vec<String>) -> (r: (Vec<char>, usize))
    ensures
        r.0@ == comma_joined(stamped(strings_v(keys@), 0)),
        r.1 == stamped(strings_v(keys@), 0).len(),
{
    let ghost kv = strings_v(keys@);
    let names = ["seq", "lam", "ts", "dev", "app"];
    let mut found: Vec<&str> = Vec::new();
    let mut k: usize = 0;
    while k < 5
        invariant
            k <= 5,
            kv == strings_v(keys@),
            names@.len() == 5,
            forall|j: int| 0 <= j < 5 ==> #[trigger] names@[j]@ == envelope_keys()[j],
            found@.map_values(|x: &str| x@) + stamped(kv, k as int) == stamped(kv, 0),
        decreases 5 - k,
    {
        let ghost before = found@.map_values(|x: &str| x@);
        assert(names@[k as int]@ == envelope_keys()[k as int]);
        let nk: &str = names[k];
        let has = holds_key(keys, nk);
        if has {
            assert(stamped(kv, k as int) == seq![envelope_keys()[k as int]] + stamped(kv, k + 1));
            found.push(names[k]);
            assert(found@.map_values(|x: &str| x@) =~= before.push(envelope_keys()[k as int]));
            assert(before.push(envelope_keys()[k as int]) + stamped(kv, k + 1) =~= before + stamped(kv, k as int));
        } else {
            assert(stamped(kv, k as int) == stamped(kv, k + 1));
            assert(found@.map_values(|x: &str| x@) =~= before);
        }
        k = k + 1;
    }
    assert(found@.map_values(|x: &str| x@) =~= stamped(kv, 0));
    let ghost fv = found@.map_values(|x: &str| x@);
    let mut out: Vec<char> = Vec::new();
    let mut m: usize = 0;
    while m < found.len()
        invariant
            m <= found@.len(),
            fv == found@.map_values(|x: &str| x@),
            out@ == comma_joined(fv.subrange(0, m as int)),
        decreases found@.len() - m,
    {
        assert(fv.subrange(0, m + 1).drop_last() =~= fv.subrange(0, m as int));
        if m > 0 {
            crate::text::push_str(&mut out, ", ");
        } else {
            assert(out@ =~= Seq::<char>::empty());
        }
        crate::text::push_str(&mut out, found[m]);
        m = m + 1;
    }
    assert(fv.subrange(0, found@.len() as int) =~= fv);
    (out, found.len())
}

/// `{` opens an object and a block; `}` closes them, with `PV304` when the object was an
/// event that sets envelope keys.
#[verifier::spinoff_prover]
#[verifier::rlimit(40)]
fn brace_exec(
    Ghost(env): Ghost<JsEnv>,
    Ghost(nv): Ghost<Seq<Seq<char>>>,
    toks: &Vec<(usize, Tok)>,
    i: usize,
    open: bool,
    line: u32,
    objects: &mut Vec<Vec<String>>,
    writes: &mut Vec<u64>,
    out: &mut Vec<Pending>,
)
    requires
        i < toks@.len(),
        is_p(js_out_v(toks@)[i as int].1, if open { "{"@ } else { "}"@ }),
        line == line_of_tok(env, js_out_v(toks@), i as int),
        forall|j: int| 0 <= j < old(writes)@.len() ==> old(writes)@[j] <= i,
    ensures
        ({
            let st = JsState { objects: objects_v(old(objects)@), writes: writes_v(old(writes)@), noted: nv };
            js_step(env, js_out_v(toks@), i as int, st) == Some(
                (
                    JsState { objects: objects_v(final(objects)@), writes: writes_v(final(writes)@), noted: nv },
                    pending_v(final(out)@).subrange(old(out)@.len() as int, final(out)@.len() as int),
                ),
            )
        }),
        pending_v(final(out)@).subrange(0, old(out)@.len() as int) == pending_v(old(out)@),
        old(out)@.len() <= final(out)@.len(),
        forall|j: int| 0 <= j < final(writes)@.len() ==> final(writes)@[j] <= i,
{
    let ghost tv = js_out_v(toks@);
    let ghost start = pending_v(out@);
    let ghost ov = objects_v(objects@);
    let ghost wv = writes_v(writes@);
    proof {
        reveal_strlit("{");
        reveal_strlit("}");
    }
    if open {
        objects.push(Vec::new());
        writes.push(0);
        assert(strings_v(objects@.last()@) =~= Seq::<Seq<char>>::empty());
        assert(objects_v(objects@) =~= ov.push(Seq::empty()));
        assert(writes_v(writes@) =~= wv.push(0));
        assert(pending_v(out@).subrange(start.len() as int, pending_v(out@).len() as int) =~= Seq::<FSpec>::empty());
        assert(pending_v(out@).subrange(0, start.len() as int) =~= start);
    } else {
        match objects.pop() {
            Some(keys) => {
                assert(objects_v(objects@) =~= ov.drop_last());
                assert(strings_v(keys@) == ov.last());
                let event = holds_key(&keys, "op") || holds_key(&keys, "tbl");
                let (joined, count) = stamped_exec(&keys);
                if event && count > 0 {
                    note(
                        out,
                        crate::lint::RuleId::PV304,
                        line,
                        with("an event sets ", joined.as_slice(), " — the framework stamps the envelope and the server rejects a client that does"),
                        "send op, tbl, id and d only",
                    );
                } else {
                    assert(pending_v(out@) =~= start + Seq::<FSpec>::empty());
                }
            },
            None => {
                assert(pending_v(out@) =~= start + Seq::<FSpec>::empty());
            },
        }
        let ghost mid = pending_v(out@);
        match writes.pop() {
            Some(_) => {
                assert(writes_v(writes@) =~= wv.drop_last());
            },
            None => {},
        }
        assert(pending_v(out@).subrange(0, start.len() as int) =~= start);
        proof {
            let st = JsState { objects: ov, writes: wv, noted: nv };
            reveal_strlit("{");
            reveal_strlit("}");
            assert("{"@ != "}"@) by {
                assert("{"@[0] != "}"@[0]);
            }
            assert(!is_p(tv[i as int].1, "{"@));
            assert(is_p(tv[i as int].1, "}"@));
            assert(js_step(env, tv, i as int, st).unwrap().0 == JsState { objects: objects_v(objects@), writes: writes_v(writes@), noted: nv });
            assert(js_step(env, tv, i as int, st).unwrap().1 =~= pending_v(out@).subrange(start.len() as int, pending_v(out@).len() as int));
        }
    }
}

/// A name, `.` or `?.`.
fn chain_tok(t: &Tok) -> (r: bool)
    ensures
        r == (js_tok(*t) is Ident || is_p(js_tok(*t), "."@) || is_p(js_tok(*t), "?."@)),
{
    match t {
        Tok::Ident(_) => true,
        _ => punct_is(t, ".") || punct_is(t, "?."),
    }
}

/// `PV302` at a unary `+` on a DECIMAL or BIGINT column.
#[verifier::spinoff_prover]
#[verifier::rlimit(40)]
fn plus_exec(
    Ghost(env): Ghost<JsEnv>,
    toks: &Vec<(usize, Tok)>,
    i: usize,
    line: u32,
    columns: &crate::lint::Columns,
    out: &mut Vec<Pending>,
)
    requires
        i < toks@.len() < usize::MAX - 8,
        line == line_of_tok(env, js_out_v(toks@), i as int),
        env.cols == columns@,
    ensures
        pending_v(final(out)@) == pending_v(old(out)@) + js_plus(env, js_out_v(toks@), i as int),
{
    let ghost tv = js_out_v(toks@);
    let ghost start = pending_v(out@);
    let unary = if i == 0 {
        true
    } else {
        match &toks[i - 1].1 {
            Tok::Punct(_) => true,
            Tok::Ident(n) => {
                let nc = chars_of(n.as_str());
                name_is(nc.as_slice(), "return")
            },
            _ => false,
        }
    };
    if unary && !prev_is(toks, i, ")") && !prev_is(toks, i, "]") {
        let e = arg_end_exec(toks, i + 1);
        let ghost operand = tv.subrange(i + 1, e as int);
        let mut k = i + 1;
        while k < e && chain_tok(&toks[k].1)
            invariant
                i + 1 <= k <= e <= toks@.len(),
                tv == js_out_v(toks@),
                operand == tv.subrange(i + 1, e as int),
                chain_len(operand, 0) == chain_len(operand, k - (i + 1)),
            decreases e - k,
        {
            assert(operand[k - (i + 1)] == tv[k as int]);
            k = k + 1;
        }
        proof {
            if k < e {
                assert(operand[k - (i + 1)] == tv[k as int]);
            }
        }
        let head = k - (i + 1);
        let mut hit: Option<&String> = None;
        if head >= 3 {
            assert(operand[head - 1] == tv[k - 1]);
            match &toks[k - 1].1 {
                Tok::Ident(col) => {
                    if numeric_exec(columns, col.as_str()) {
                        hit = Some(col);
                    }
                },
                _ => {},
            }
        }
        match hit {
            Some(col) => {
                let cc = chars_of(col.as_str());
                note(
                    out,
                    crate::lint::RuleId::PV302,
                    line,
                    with("unary + on `", cc.as_slice(), "`, a DECIMAL or BIGINT column that arrives as a string"),
                    "keep it a string; a decimal library or integer cents for arithmetic",
                );
            },
            None => {
                assert(pending_v(out@) =~= start + Seq::<FSpec>::empty());
            },
        }
    } else {
        assert(pending_v(out@) =~= start + Seq::<FSpec>::empty());
    }
}

/// The byte span of a string token: from its opening quote to past its closing one.
proof fn lemma_str_span(h: Seq<char>, k: int, t: JsTok)
    requires
        0 <= k < h.len(),
        str_in(h, k, t),
        t is Str,
    ensures
        byte_at(h, k) + utf8_len(str_text(t)) + 1 <= utf8_len(h),
{
    let text = str_text(t);
    lemma_utf8_prefix(h, k);
    assert(h.subrange(0, k + 1).drop_last() =~= h.subrange(0, k));
    crate::text::lemma_utf8_len_nonneg(h.subrange(k + 1, h.len() as int));
    crate::text::lemma_utf8_concat(h.subrange(0, k + 1), h.subrange(k + 1, h.len() as int));
    assert(h.subrange(0, k + 1) + h.subrange(k + 1, h.len() as int) =~= h);
    if text.len() > 0 {
        let tail = h.subrange(k + 1, h.len() as int);
        let n = text.len() as int;
        crate::text::lemma_utf8_len_nonneg(tail.subrange(n, tail.len() as int));
        crate::text::lemma_utf8_concat(tail.subrange(0, n), tail.subrange(n, tail.len() as int));
        assert(tail.subrange(0, n) + tail.subrange(n, tail.len() as int) =~= tail);
        assert(tail.subrange(0, n) =~= text);
    }
}

/// The rules at a string token `i` whose text is `text`.
#[verifier::spinoff_prover]
#[verifier::rlimit(40)]
fn str_exec(
    Ghost(env): Ghost<JsEnv>,
    h: &[char],
    toks: &Vec<(usize, Tok)>,
    i: usize,
    text: &String,
    line: u32,
    slug: &String,
    remote: &[String],
    edit_file: Option<&str>,
    out: &mut Vec<Pending>,
)
    requires
        i < toks@.len(),
        js_out_v(toks@)[i as int].1 is Str,
        str_text(js_out_v(toks@)[i as int].1) == text@,
        0 <= js_out_v(toks@)[i as int].0 < h@.len(),
        str_in(h@, js_out_v(toks@)[i as int].0, js_out_v(toks@)[i as int].1),
        h@ == env.h,
        utf8_len(h@) < usize::MAX - 3,
        line == line_of_tok(env, js_out_v(toks@), i as int),
        slug@ == env.slug,
        strings_v(remote@) == env.remote,
        env.edit_file == match edit_file {
            Some(f) => Some(f@),
            None => None::<Seq<char>>,
        },
    ensures
        pending_v(final(out)@) == pending_v(old(out)@) + js_str(env, js_out_v(toks@), i as int, text@),
{
    let ghost tv = js_out_v(toks@);
    let ghost start = pending_v(out@);
    let tc = chars_of(text.as_str());
    match crate::lint::mount_path(text.as_str()) {
        Some((target, beneath)) => {
            let mut m = chars_of("literal mount path '/a/");
            crate::text::push_str(&mut m, target.as_str());
            crate::text::push_str(&mut m, "/' breaks solo mode");
            let tg = chars_of(target.as_str());
            let sl = chars_of(slug.as_str());
            if crate::text::same_chars(tg.as_slice(), sl.as_slice()) {
                let mut rep = chars_of("pv.url('");
                crate::text::push_str(&mut rep, beneath.as_str());
                crate::text::push_str(&mut rep, "')");
                let edit = match edit_file {
                    Some(file) => {
                        let at = toks[i].0;
                        let from = crate::lint::sql::byte_offset(h, at);
                        let width = crate::text::utf8_len_capped(tc.as_slice(), usize::MAX);
                        proof {
                            lemma_str_span(h@, at as int, tv[i as int].1);
                        }
                        Some(crate::lint::Edit { file: file.to_string(), start: from, end: from + width + 2, replacement: string_of(rep.as_slice()) })
                    },
                    None => None,
                };
                out.push(Pending { id: crate::lint::RuleId::PV301, line, message: string_of(m.as_slice()), fix: Some(string_of(rep.as_slice())), edit });
            } else {
                out.push(Pending { id: crate::lint::RuleId::PV301, line, message: string_of(m.as_slice()), fix: Some("another app has no mount in solo mode".to_string()), edit: None });
            }
            assert(pending_v(out@) =~= start.push(pending_v(out@).last()));
        },
        None => {},
    }
    let ghost a1 = pending_v(out@);
    if crate::lint::is_absolute_fs_path(text.as_str()) {
        let q = crate::lua::debug_quote(text.as_str());
        let qc = chars_of(q.as_str());
        note(
            out,
            crate::lint::RuleId::PV505,
            line,
            with("absolute filesystem path ", qc.as_slice(), " in browser code — nothing beside the binary or on the owner's disk is the app's"),
            "everything an app stores is an event",
        );
    } else {
        assert(pending_v(out@) =~= a1 + Seq::<FSpec>::empty());
    }
    let ghost a2 = pending_v(out@);
    match crate::lint::origin_of(text.as_str()) {
        Some(o) => {
            let oc = chars_of(o.as_str());
            let imported = i > 0 && match &toks[i - 1].1 {
                Tok::Ident(n) => {
                    let nc = chars_of(n.as_str());
                    name_is(nc.as_slice(), "from") || name_is(nc.as_slice(), "import")
                },
                _ => false,
            };
            proof {
                if i > 0 {
                    reveal_strlit("from");
                    reveal_strlit("import");
                }
            }
            if imported {
                note(
                    out,
                    crate::lint::RuleId::PV504,
                    line,
                    with("import from ", oc.as_slice(), " — a CDN is a third party on the critical path, an offline failure and an IP leak"),
                    "vendor the module under web/vendor/",
                );
            } else {
                assert(pending_v(out@) =~= a2 + Seq::<FSpec>::empty());
            }
            let ghost a3 = pending_v(out@);
            let mut declared = false;
            let mut r: usize = 0;
            while r < remote.len()
                invariant
                    r <= remote@.len(),
                    oc@ == o@,
                    declared == exists|j: int| 0 <= j < r && strings_v(remote@)[j] == o@,
                decreases remote@.len() - r,
            {
                let rc = chars_of(remote[r].as_str());
                assert(strings_v(remote@)[r as int] == rc@);
                if crate::text::same_chars(rc.as_slice(), oc.as_slice()) {
                    declared = true;
                }
                r = r + 1;
            }
            proof {
                assert(declared == strings_v(remote@).contains(o@));
            }
            if !declared {
                note(
                    out,
                    crate::lint::RuleId::PV207,
                    line,
                    with("", oc.as_slice(), " is referenced but not declared in permissions.remote; connect-src blocks it silently"),
                    "keep the app on its own origin, or declare the origin in [permissions] remote with a comment saying why",
                );
                proof {
                    reveal_strlit("");
                }
            } else {
                assert(pending_v(out@) =~= a3 + Seq::<FSpec>::empty());
            }
        },
        None => {
            assert(pending_v(out@) =~= a2 + Seq::<FSpec>::empty());
        },
    }
    proof {
        assert(pending_v(out@) =~= start + js_str(env, tv, i as int, text@));
    }
}

/// Nothing in `h` stops the JavaScript reading: it lexes, and no identifier stops it.
pub open spec fn js_readable(h: Seq<char>) -> bool {
    &&& js_lexable(h)
    &&& forall|i: int|
        0 <= i < js_lexed(h).len() ==> (#[trigger] js_lexed(h)[i].1 matches JsTok::Ident(n) ==> !ident_stops(js_lexed(h), i, n))
}

/// A readable text gives findings.
pub proof fn lemma_readable_runs(env: JsEnv, k: int)
    requires
        js_readable(env.h),
        0 <= k <= js_lexed(env.h).len(),
    ensures
        js_run(env, js_lexed(env.h), k) is Some,
    decreases k,
{
    if k > 0 {
        lemma_readable_runs(env, k - 1);
        let toks = js_lexed(env.h);
        let _ = toks[k - 1].1;
    }
}

/// The slug a check names the app by: the manifest's, else the folder's.
pub open spec fn ctx_slug(ctx: crate::lint::Ctx) -> Seq<char> {
    match ctx.manifest_slug {
        Some(s) => s@,
        None => ctx.folder@,
    }
}

/// What the JavaScript check of `js` reads, for a check in `ctx`.
pub open spec fn js_env(
    ctx: crate::lint::Ctx,
    js: Seq<char>,
    base: u32,
    cols: Seq<(Seq<char>, Seq<char>)>,
    remote: Seq<String>,
    edit_file: Option<Seq<char>>,
) -> JsEnv {
    JsEnv { slug: ctx_slug(ctx), remote: strings_v(remote), cols, h: js, base, edit_file }
}

/// One finding recorded as `g` says, for `rel`.
pub open spec fn recorded_as(f: crate::lint::Finding, g: FSpec, display: Seq<char>, rel: Seq<char>) -> bool {
    &&& f.id == g.id
    &&& f.severity == crate::lint::severity_of(g.id)
    &&& f.file@ == crate::lint::trim_end_slashes(display) + "/"@ + rel
    &&& f.line == g.line
    &&& f.message@ == g.message
    &&& match f.fix {
        Some(x) => g.fix == Some(x@),
        None => g.fix is None,
    }
    &&& f.spec == crate::lint::spec_of(g.id)
    &&& match f.edit {
        Some(e) => g.edit == Some((e.file@, e.start as int, e.end as int, e.replacement@)),
        None => g.edit is None,
    }
}

/// `ctx` after `old` gained one finding for each of `added`, for `rel`, in order, and
/// nothing else.
pub open spec fn recorded(old: crate::lint::Ctx, ctx: crate::lint::Ctx, rel: Seq<char>, added: Seq<FSpec>) -> bool {
    &&& ctx.display == old.display
    &&& ctx.folder == old.folder
    &&& ctx.manifest_slug == old.manifest_slug
    &&& ctx.solo == old.solo
    &&& ctx.findings@.len() == old.findings@.len() + added.len()
    &&& forall|i: int| 0 <= i < old.findings@.len() ==> ctx.findings@[i] == old.findings@[i]
    &&& forall|k: int|
        0 <= k < added.len() ==> recorded_as(#[trigger] ctx.findings@[old.findings@.len() + k], added[k], old.display@, rel)
}

/// Findings recorded in two runs are those of the first, then those of the second.
pub proof fn lemma_recorded_trans(a: crate::lint::Ctx, b: crate::lint::Ctx, c: crate::lint::Ctx, rel: Seq<char>, x: Seq<FSpec>, y: Seq<FSpec>)
    requires
        recorded(a, b, rel, x),
        recorded(b, c, rel, y),
    ensures
        recorded(a, c, rel, x + y),
{
    let n = a.findings@.len();
    assert forall|k: int| 0 <= k < (x + y).len() implies recorded_as(#[trigger] c.findings@[n + k], (x + y)[k], a.display@, rel) by {
        if k < x.len() {
            assert(c.findings@[n + k] == b.findings@[n + k]);
        } else {
            assert(c.findings@[n + k] == c.findings@[b.findings@.len() + (k - x.len())]);
        }
    }
}

/// Whether the reading stops at the identifier `name` at token `i`, as [`ident_stops`].
fn ident_stops_exec(toks: &Vec<(usize, Tok)>, i: usize, name: &String) -> (r: bool)
    requires
        at_ident(js_out_v(toks@), i as int, name@),
    ensures
        r == ident_stops(js_out_v(toks@), i as int, name@),
{
    let ghost tv = js_out_v(toks@);
    let nc = chars_of(name.as_str());
    if name_is(nc.as_slice(), "insertAdjacentHTML") && next_is(toks, i, "(") {
        let e = arg_end_exec(toks, i + 2);
        proof {
            assert(argument(tv, i + 2).len() == e - (i + 2));
        }
        if e >= toks.len() {
            return true;
        }
    }
    match pv_method(toks, i, name) {
        Some(m) => {
            if name_is(m.as_slice(), "sql") {
                let e = arg_end_exec(toks, i + 4);
                proof {
                    assert(argument(tv, i + 4).len() == e - (i + 4));
                }
                if e == i + 5 {
                    match &toks[i + 4].1 {
                        Tok::Str { text, .. } => {
                            proof {
                                assert(argument(tv, i + 4)[0] == tv[i + 4]);
                            }
                            let sc = chars_of(text.as_str());
                            let width = crate::text::utf8_len_capped(sc.as_slice(), usize::MAX);
                            if width >= usize::MAX {
                                return true;
                            }
                            return crate::lint::sql::try_tokens(text.as_str()).is_none();
                        },
                        _ => {
                            proof {
                                assert(argument(tv, i + 4)[0] == tv[i + 4]);
                            }
                        },
                    }
                }
            }
            false
        },
        None => false,
    }
}

/// Whether `js` is text [`check_js_at`] reads to the end: it lexes, and no
/// `insertAdjacentHTML(` lacks its second argument and no `pv.sql('…')` literal is SQL that
/// does not lex. A caller tests here before [`check_js_at`].
pub fn js_is_readable(js: &str) -> (r: bool)
    requires
        utf8_len(js@) < usize::MAX - 8,
    ensures
        r == js_readable(js@),
{
    let toks = match lex_try(js, false) {
        Some(v) => v,
        None => {
            return false;
        },
    };
    let ghost tv = js_out_v(toks@);
    proof {
        lemma_lex_len(js@, 0, None);
        lemma_utf8_len_ge(js@);
        assert(tv == js_lexed(js@));
    }
    let mut k: usize = 0;
    while k < toks.len()
        invariant
            k <= toks@.len(),
            tv == js_out_v(toks@),
            tv == js_lexed(js@),
            js_lexable(js@),
            toks@.len() < usize::MAX - 8,
            forall|j: int| 0 <= j < k ==> (#[trigger] tv[j].1 matches JsTok::Ident(n) ==> !ident_stops(tv, j, n)),
        decreases toks.len() - k,
    {
        match &toks[k].1 {
            Tok::Ident(n) => {
                if ident_stops_exec(&toks, k, n) {
                    return false;
                }
            },
            _ => {},
        }
        k = k + 1;
    }
    true
}

/// Record the pending findings, in order.
pub(crate) fn record_all(ctx: &mut crate::lint::Ctx, rel: &str, out: Vec<Pending>)
    ensures
        recorded(*old(ctx), *final(ctx), rel@, pending_v(out@)),
{
    let ghost pv = pending_v(out@);
    let ghost n0 = ctx.findings@.len();
    let mut k: usize = 0;
    while k < out.len()
        invariant
            k <= out@.len(),
            pv == pending_v(out@),
            n0 == old(ctx).findings@.len(),
            recorded(*old(ctx), *ctx, rel@, pv.subrange(0, k as int)),
        decreases out@.len() - k,
    {
        let p = &out[k];
        let ghost before = *ctx;
        let f = ctx.push(p.id, rel, p.line, p.message.clone());
        f.fix = match &p.fix {
            Some(x) => Some(x.clone()),
            None => None,
        };
        f.edit = match &p.edit {
            Some(e) => Some(crate::lint::Edit { file: e.file.clone(), start: e.start, end: e.end, replacement: e.replacement.clone() }),
            None => None,
        };
        proof {
            assert(pv.subrange(0, k + 1) =~= pv.subrange(0, k as int).push(pv[k as int]));
            assert(ctx.findings@[n0 + k] == ctx.findings@.last());
            assert forall|j: int| 0 <= j < k + 1 implies recorded_as(
                #[trigger] ctx.findings@[n0 + j],
                pv.subrange(0, k + 1)[j],
                old(ctx).display@,
                rel@,
            ) by {
                if j < k {
                    assert(ctx.findings@[n0 + j] == before.findings@[n0 + j]);
                    assert(pv.subrange(0, k + 1)[j] == pv.subrange(0, k as int)[j]);
                }
            }
        }
        k = k + 1;
    }
    assert(pv.subrange(0, out@.len() as int) =~= pv);
}

/// One token of the reading: its rules, the state after it, and its findings.
#[verifier::spinoff_prover]
#[verifier::rlimit(40)]
fn step_exec(
    Ghost(env): Ghost<JsEnv>,
    h: &[char],
    toks: &Vec<(usize, Tok)>,
    i: usize,
    line: u32,
    slug: &String,
    columns: &crate::lint::Columns,
    remote: &[String],
    edit_file: Option<&str>,
    objects: &mut Vec<Vec<String>>,
    writes: &mut Vec<u64>,
    noted: &mut Vec<Vec<char>>,
    out: &mut Vec<Pending>,
)
    requires
        i < toks@.len() < usize::MAX - 8,
        js_out_v(toks@)[i as int].1 matches JsTok::Ident(n) ==> !ident_stops(js_out_v(toks@), i as int, n),
        0 <= js_out_v(toks@)[i as int].0 < h@.len(),
        str_in(h@, js_out_v(toks@)[i as int].0, js_out_v(toks@)[i as int].1),
        h@ == env.h,
        utf8_len(h@) < usize::MAX - 3,
        line == line_of_tok(env, js_out_v(toks@), i as int),
        slug@ == env.slug,
        strings_v(remote@) == env.remote,
        env.cols == columns@,
        env.edit_file == match edit_file {
            Some(f) => Some(f@),
            None => None::<Seq<char>>,
        },
        forall|j: int| 0 <= j < old(writes)@.len() ==> old(writes)@[j] <= i,
    ensures
        js_step(
            env,
            js_out_v(toks@),
            i as int,
            JsState { objects: objects_v(old(objects)@), writes: writes_v(old(writes)@), noted: noted_v(old(noted)@) },
        ) == Some(
            (
                JsState { objects: objects_v(final(objects)@), writes: writes_v(final(writes)@), noted: noted_v(final(noted)@) },
                pending_v(final(out)@).subrange(old(out)@.len() as int, final(out)@.len() as int),
            ),
        ),
        pending_v(final(out)@).subrange(0, old(out)@.len() as int) == pending_v(old(out)@),
        old(out)@.len() <= final(out)@.len(),
        forall|j: int| 0 <= j < final(writes)@.len() ==> final(writes)@[j] <= i + 1,
{
    let ghost tv = js_out_v(toks@);
        let ghost start = pending_v(out@);
    let t = &toks[i].1;
    if punct_is(t, "{") {
        brace_exec(Ghost(env), Ghost(noted_v(noted@)), toks, i, true, line, objects, writes, out);
    } else if punct_is(t, "}") {
        brace_exec(Ghost(env), Ghost(noted_v(noted@)), toks, i, false, line, objects, writes, out);
    } else {
        match t {
            Tok::Ident(name) => {
                ident_exec(Ghost(env), toks, i, name, line, columns, objects, writes, noted, out);
            },
            Tok::Punct(_) => {
                if punct_is(t, "+") {
                    plus_exec(Ghost(env), toks, i, line, columns, out);
                }
                proof {
                    reveal_strlit("+");
                    assert(pending_v(out@).subrange(0, start.len() as int) =~= start);
                    assert(pending_v(out@).subrange(start.len() as int, pending_v(out@).len() as int) =~= if is_p(tv[i as int].1, "+"@) {
                        js_plus(env, tv, i as int)
                    } else {
                        Seq::empty()
                    });
                }
            },
            Tok::Str { text, .. } => {
                str_exec(Ghost(env), h, toks, i, text, line, slug, remote, edit_file, out);
                proof {
                    assert(pending_v(out@).subrange(0, start.len() as int) =~= start);
                    assert(pending_v(out@).subrange(start.len() as int, pending_v(out@).len() as int) =~= js_str(env, tv, i as int, text@));
                }
            },
            Tok::Num => {
                proof {
                    assert(pending_v(out@).subrange(0, start.len() as int) =~= start);
                    assert(pending_v(out@).subrange(start.len() as int, pending_v(out@).len() as int) =~= Seq::<FSpec>::empty());
                }
            },
        }
    }
}

/// The JavaScript rules over `js`, whose first line is line `base + 1` of the file `rel`:
/// each finding recorded in `ctx`, in the order the tokens give them. An edit names
/// `edit_file` (none for a script inside HTML); `remote` holds the origins the manifest
/// declares.
pub fn check_js_at(
    ctx: &mut crate::lint::Ctx,
    rel: &str,
    js: &str,
    base: u32,
    columns: &crate::lint::Columns,
    remote: &[String],
    edit_file: Option<&str>,
)
    requires
        js_readable(js@),
        utf8_len(js@) < usize::MAX - 8,
        base + crate::text::newlines(js@) + 1 <= u32::MAX,
    ensures
        js_findings(
            js_env(
                *old(ctx),
                js@,
                base,
                columns@,
                remote@,
                match edit_file {
                    Some(f) => Some(f@),
                    None => None,
                },
            ),
        ) matches Some(fs) && recorded(*old(ctx), *final(ctx), rel@, fs),
{
    let h = chars_of(js);
    let toks = match lex_try(js, false) {
        Some(v) => v,
        None => Vec::new(),
    };
    let slug = ctx.slug();
    let ghost env = js_env(
        *ctx,
        js@,
        base,
        columns@,
        remote@,
        match edit_file {
            Some(f) => Some(f@),
            None => None,
        },
    );
    let ghost tv = js_out_v(toks@);
    proof {
        lemma_lex_len(js@, 0, None);
        lemma_utf8_len_ge(js@);
        lemma_readable_runs(env, tv.len() as int);
    }
    let mut objects: Vec<Vec<String>> = Vec::new();
    let mut writes: Vec<u64> = Vec::new();
    writes.push(0);
    let mut noted: Vec<Vec<char>> = Vec::new();
    let mut out: Vec<Pending> = Vec::new();
    let mut line: u32 = base + 1;
    let mut pos: usize = 0;
    let mut i: usize = 0;
    proof {
        assert(objects_v(objects@) =~= Seq::<Seq<Seq<char>>>::empty());
        assert(writes_v(writes@) =~= seq![0int]);
        assert(noted_v(noted@) =~= Seq::<Seq<char>>::empty());
        assert(pending_v(out@) =~= Seq::<FSpec>::empty());
        assert(h@.subrange(0, 0) =~= Seq::<char>::empty());
    }
    while i < toks.len()
        invariant
            tv == js_out_v(toks@),
            tv == js_lexed(js@),
            well_placed(js@, tv, 0),
            js_readable(js@),
            h@ == js@,
            env.h == js@,
            env.base == base,
            env.slug == slug@,
            env.cols == columns@,
            env.remote == strings_v(remote@),
            env.edit_file == match edit_file {
                Some(f) => Some(f@),
                None => None::<Seq<char>>,
            },
            utf8_len(js@) < usize::MAX - 8,
            toks@.len() <= js@.len() <= utf8_len(js@),
            base + crate::text::newlines(js@) + 1 <= u32::MAX,
            i <= toks@.len(),
            js_run(env, tv, i as int) == Some(
                (JsState { objects: objects_v(objects@), writes: writes_v(writes@), noted: noted_v(noted@) }, pending_v(out@)),
            ),
            forall|j: int| 0 <= j < writes@.len() ==> writes@[j] <= i,
            pos <= h@.len(),
            i < toks@.len() ==> pos <= tv[i as int].0,
            line == base + crate::text::newlines(h@.subrange(0, pos as int)) + 1,
        decreases toks@.len() - i,
    {
        let at = toks[i].0;
        let more = crate::text::count_newlines(h.as_slice(), pos, at);
        proof {
            crate::text::lemma_newlines_concat(h@.subrange(0, pos as int), h@.subrange(pos as int, at as int));
            assert(h@.subrange(0, pos as int) + h@.subrange(pos as int, at as int) =~= h@.subrange(0, at as int));
            lemma_newlines_prefix(h@, at as int);
        }
        line = line + more as u32;
        pos = at;
        let ghost before = pending_v(out@);
        let ghost st = JsState { objects: objects_v(objects@), writes: writes_v(writes@), noted: noted_v(noted@) };
        step_exec(Ghost(env), h.as_slice(), &toks, i, line, &slug, columns, remote, edit_file, &mut objects, &mut writes, &mut noted, &mut out);
        proof {
            assert(pending_v(out@) =~= before + pending_v(out@).subrange(before.len() as int, pending_v(out@).len() as int));
            if i + 1 < toks@.len() {
                assert(tv[i as int].0 < tv[i + 1].0);
            }
        }
        i = i + 1;
    }
    proof {
        assert(js_findings(env) == Some(pending_v(out@)));
    }
    record_all(ctx, rel, out);
}

} // verus!
