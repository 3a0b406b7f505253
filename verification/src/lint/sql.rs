//! The SQL half of the linter that needs no engine: a small tokenizer over app SQL (the
//! literals Lua, templates and JavaScript hand to `pv.query` and `pv.sql`, and view
//! bodies), `PV303` (no writes) and `PV308` (no `SUM` over a `DECIMAL`, no `+` or `-` on a
//! `DATE`), and the verdict on one `schema.sql` statement from the actions the engine
//! reported while preparing it.

use vstd::prelude::*;
use crate::lint::{has_column, Columns};
use crate::text::{
    chars_of, index_of, is_ascii_alnum, is_ascii_alpha, is_ascii_digit, is_ascii_ws, push_str, same_chars,
    slice_chars, string_of, uppered, uppered_exec, utf8_len, utf8_width,
};

verus! {

/// One SQL token.
#[derive(Debug, Clone, PartialEq, Eq)]
pub enum Tok {
    /// An identifier or keyword, as written (quotes removed).
    Word(String),
    /// A string literal.
    Str,
    /// A number.
    Num,
    /// Punctuation: `(`, `)`, `,`, `+`, `-`, `*`, `/`, `.`, `||`, `=`, `<`, `>`, `;`, …
    Punct(String),
}

/// A token as plain values.
pub enum TokV {
    Word(Seq<char>),
    Str,
    Num,
    Punct(Seq<char>),
}

pub open spec fn tok_v(t: Tok) -> TokV {
    match t {
        Tok::Word(w) => TokV::Word(w@),
        Tok::Str => TokV::Str,
        Tok::Num => TokV::Num,
        Tok::Punct(p) => TokV::Punct(p@),
    }
}

/// A character that continues a word: an ASCII letter or digit, `_` or `$`.
pub open spec fn word_char(c: char) -> bool {
    is_ascii_alnum(c) || c == '_' || c == '$'
}

/// A character that continues a number: an ASCII letter or digit, or `.`.
pub open spec fn num_char(c: char) -> bool {
    is_ascii_alnum(c) || c == '.'
}

/// The first index at or after `i` whose character does not continue a word (`num`
/// false) or a number (`num` true), or the end.
pub open spec fn run_end(h: Seq<char>, i: int, num: bool) -> int
    decreases h.len() - i,
{
    if 0 <= i < h.len() && (if num { num_char(h[i]) } else { word_char(h[i]) }) {
        run_end(h, i + 1, num)
    } else {
        i
    }
}

/// The first index at or after `i` holding `c`, or the end.
pub open spec fn char_end(h: Seq<char>, i: int, c: char) -> int
    decreases h.len() - i,
{
    if 0 <= i < h.len() && h[i] != c {
        char_end(h, i + 1, c)
    } else {
        i
    }
}

/// The index past a string literal whose body starts at `i`: past the closing quote that
/// is not doubled, or the end.
pub open spec fn str_end(h: Seq<char>, i: int) -> int
    decreases h.len() - i,
{
    if i < 0 || i >= h.len() {
        i
    } else if h[i] == '\'' {
        if i + 1 < h.len() && h[i + 1] == '\'' {
            str_end(h, i + 2)
        } else {
            i + 1
        }
    } else {
        str_end(h, i + 1)
    }
}

/// The two-character operators.
pub open spec fn two_char_op(p: Seq<char>) -> bool {
    p == "||"@ || p == "<>"@ || p == "<="@ || p == ">="@ || p == "=="@ || p == "!="@
}

/// At punctuation the reader looks at the two bytes from the character on; that slice must
/// end on a character boundary.
pub open spec fn punct_ok(h: Seq<char>, i: int) -> bool {
    utf8_width(h[i]) == 2 || (utf8_width(h[i]) == 1 && (i + 1 >= h.len() || utf8_width(h[i + 1]) == 1))
}

pub proof fn lemma_run_end(h: Seq<char>, i: int, num: bool)
    ensures
        run_end(h, i, num) >= i,
        0 <= i <= h.len() ==> run_end(h, i, num) <= h.len(),
    decreases h.len() - i,
{
    if 0 <= i < h.len() && (if num { num_char(h[i]) } else { word_char(h[i]) }) {
        lemma_run_end(h, i + 1, num);
    }
}

pub proof fn lemma_char_end(h: Seq<char>, i: int, c: char)
    ensures
        char_end(h, i, c) >= i,
        0 <= i <= h.len() ==> char_end(h, i, c) <= h.len(),
    decreases h.len() - i,
{
    if 0 <= i < h.len() && h[i] != c {
        lemma_char_end(h, i + 1, c);
    }
}

pub proof fn lemma_str_end(h: Seq<char>, i: int)
    ensures
        str_end(h, i) >= i,
        0 <= i <= h.len() ==> str_end(h, i) <= h.len(),
    decreases h.len() - i,
{
    if 0 <= i < h.len() {
        if h[i] == '\'' {
            if i + 1 < h.len() && h[i + 1] == '\'' {
                lemma_str_end(h, i + 2);
            }
        } else {
            lemma_str_end(h, i + 1);
        }
    }
}

/// The tokens of `h` from `i` on, each with the index it starts at, comments dropped;
/// `None` where the reading would stop on a slice that ends inside a character.
pub open spec fn lex(h: Seq<char>, i: int) -> Option<Seq<(int, TokV)>>
    decreases h.len() + 2 - i,
{
    if i < 0 || i >= h.len() {
        Some(Seq::empty())
    } else {
        let c = h[i];
        if is_ascii_ws(c) {
            lex(h, i + 1)
        } else if c == '-' && i + 1 < h.len() && h[i + 1] == '-' {
            let e = match index_of(h, "\n"@, i) {
                Some(at) => at,
                None => h.len() as int,
            };
            if i < e <= h.len() { lex(h, e) } else { lex(h, i + 1) }
        } else if c == '/' && i + 1 < h.len() && h[i + 1] == '*' {
            let e = match index_of(h, "*/"@, i + 2) {
                Some(at) => at + 2,
                None => h.len() as int,
            };
            if i < e <= h.len() { lex(h, e) } else { lex(h, i + 1) }
        } else {
            let (tok, e) = if c == '\'' {
                (Some(TokV::Str), str_end(h, i + 1))
            } else if c == '"' || c == '`' || c == '[' {
                let close = if c == '[' { ']' } else { c };
                let end = char_end(h, i + 1, close);
                (Some(TokV::Word(h.subrange(i + 1, end))), end + 1)
            } else if is_ascii_alpha(c) || c == '_' || c == '$' {
                let end = run_end(h, i, false);
                (Some(TokV::Word(h.subrange(i, end))), end)
            } else if is_ascii_digit(c) {
                (Some(TokV::Num), run_end(h, i, true))
            } else if !punct_ok(h, i) {
                (None, i + 1)
            } else if i + 1 < h.len() && two_char_op(h.subrange(i, i + 2)) {
                (Some(TokV::Punct(h.subrange(i, i + 2))), i + 2)
            } else {
                (Some(TokV::Punct(seq![c])), i + 1)
            };
            proof {
                lemma_str_end(h, i + 1);
                lemma_char_end(h, i + 1, if c == '[' { ']' } else { c });
                lemma_run_end(h, i, false);
                lemma_run_end(h, i, true);
            }
            match tok {
                None => None,
                Some(t) => if i < e <= h.len() + 1 {
                    match lex(h, e) {
                        Some(rest) => Some(seq![(i, t)] + rest),
                        None => None,
                    }
                } else {
                    None
                },
            }
        }
    }
}

/// `h` can be read to the end.
pub open spec fn lexable(h: Seq<char>) -> bool {
    lex(h, 0) is Some
}

/// The tokens of `h`.
pub open spec fn lexed(h: Seq<char>) -> Seq<(int, TokV)> {
    lex(h, 0).unwrap()
}

/// The byte offset of character `i` of `h`.
pub open spec fn byte_at(h: Seq<char>, i: int) -> int {
    utf8_len(h.subrange(0, i))
}

/// The tokens with byte offsets, as plain values.
pub open spec fn toks_v(h: Seq<char>, t: Seq<(int, TokV)>) -> Seq<(int, TokV)> {
    Seq::new(t.len(), |k: int| (byte_at(h, t[k].0), t[k].1))
}

pub open spec fn out_v(r: Seq<(usize, Tok)>) -> Seq<(int, TokV)> {
    Seq::new(r.len(), |k: int| (r[k].0 as int, tok_v(r[k].1)))
}

pub proof fn lemma_utf8_len_ge(s: Seq<char>)
    ensures
        utf8_len(s) >= s.len(),
    decreases s.len(),
{
    if s.len() > 0 {
        lemma_utf8_len_ge(s.drop_last());
    }
}

pub proof fn lemma_utf8_prefix(s: Seq<char>, i: int)
    requires
        0 <= i <= s.len(),
    ensures
        0 <= utf8_len(s.subrange(0, i)) <= utf8_len(s),
    decreases s.len() - i,
{
    if i < s.len() {
        lemma_utf8_prefix(s, i + 1);
        assert(s.subrange(0, i + 1).drop_last() =~= s.subrange(0, i));
    } else {
        assert(s.subrange(0, i) =~= s);
    }
    crate::text::lemma_utf8_len_nonneg(s.subrange(0, i));
}

pub(crate) fn byte_offset(h: &[char], i: usize) -> (r: usize)
    requires
        i <= h@.len(),
        utf8_len(h@) < usize::MAX,
    ensures
        r == byte_at(h@, i as int),
{
    proof {
        lemma_utf8_prefix(h@, i as int);
    }
    let prefix = slice_chars(h, 0, i);
    crate::text::utf8_len_capped(prefix.as_slice(), usize::MAX)
}

pub(crate) fn run_end_exec(h: &[char], i: usize, num: bool) -> (r: usize)
    requires
        i <= h@.len(),
    ensures
        r == run_end(h@, i as int, num),
        i <= r <= h@.len(),
{
    let mut j = i;
    while j < h.len() && ((num && num_char_exec(h[j])) || (!num && word_char_exec(h[j])))
        invariant
            i <= j <= h@.len(),
            run_end(h@, i as int, num) == run_end(h@, j as int, num),
        decreases h.len() - j,
    {
        j = j + 1;
    }
    j
}

fn char_end_exec(h: &[char], i: usize, c: char) -> (r: usize)
    requires
        i <= h@.len(),
    ensures
        r == char_end(h@, i as int, c),
        i <= r <= h@.len(),
{
    let mut j = i;
    while j < h.len() && h[j] != c
        invariant
            i <= j <= h@.len(),
            char_end(h@, i as int, c) == char_end(h@, j as int, c),
        decreases h.len() - j,
    {
        j = j + 1;
    }
    j
}

fn str_end_exec(h: &[char], i: usize) -> (r: usize)
    requires
        i <= h@.len(),
    ensures
        r == str_end(h@, i as int),
        i <= r <= h@.len(),
{
    let mut j = i;
    while j < h.len()
        invariant
            i <= j <= h@.len(),
            str_end(h@, i as int) == str_end(h@, j as int),
        decreases h.len() - j,
    {
        if h[j] == '\'' {
            if j + 1 < h.len() && h[j + 1] == '\'' {
                j = j + 2;
            } else {
                return j + 1;
            }
        } else {
            j = j + 1;
        }
    }
    j
}

fn alnum_exec(c: char) -> (r: bool)
    ensures
        r == is_ascii_alnum(c),
{
    ('a' <= c && c <= 'z') || ('A' <= c && c <= 'Z') || ('0' <= c && c <= '9')
}

fn word_char_exec(c: char) -> (r: bool)
    ensures
        r == word_char(c),
{
    alnum_exec(c) || c == '_' || c == '$'
}

fn num_char_exec(c: char) -> (r: bool)
    ensures
        r == num_char(c),
{
    alnum_exec(c) || c == '.'
}

fn width_exec(c: char) -> (r: u8)
    ensures
        r == utf8_width(c),
{
    let n = c as u32;
    if n < 0x80 {
        1
    } else if n < 0x800 {
        2
    } else if n < 0x10000 {
        3
    } else {
        4
    }
}

/// Tokenize `sql`, comments dropped, with each token's byte offset.
pub fn tokens(sql: &str) -> (r: Vec<(usize, Tok)>)
    requires
        lexable(sql@),
        utf8_len(sql@) < usize::MAX,
    ensures
        out_v(r@) == toks_v(sql@, lexed(sql@)),
{
    match try_tokens(sql) {
        Some(v) => v,
        None => Vec::new(),
    }
}

/// Tokenize `sql` as [`tokens`] does, or `None` where the reading stops on a slice that
/// ends inside a character (the text [`tokens`] does not take).
pub fn try_tokens(sql: &str) -> (r: Option<Vec<(usize, Tok)>>)
    requires
        utf8_len(sql@) < usize::MAX,
    ensures
        match r {
            Some(v) => lexable(sql@) && out_v(v@) == toks_v(sql@, lexed(sql@)),
            None => !lexable(sql@),
        },
{
    let h = chars_of(sql);
    let n = h.len();
    let mut out: Vec<(usize, Tok)> = Vec::new();
    let mut i: usize = 0;
    let ghost mut done: Seq<(int, TokV)> = Seq::empty();
    let nl = chars_of("\n");
    let close_comment = chars_of("*/");
    proof {
        reveal_strlit("\n");
        reveal_strlit("*/");
        lemma_utf8_len_ge(h@);
    }
    while i < n
        invariant
            n == h@.len(),
            h@ == sql@,
            i <= n + 1,
            utf8_len(h@) < usize::MAX,
            n < usize::MAX,
            nl@ == "\n"@,
            close_comment@ == "*/"@,
            lex(h@, 0) == match lex(h@, i as int) {
                Some(rest) => Some(done + rest),
                None => None::<Seq<(int, TokV)>>,
            },
            out_v(out@) == toks_v(h@, done),
        decreases n + 2 - i,
    {
        let c = h[i];
        if c == ' ' || c == '\t' || c == '\n' || c == '\x0C' || c == '\r' {
            i = i + 1;
            continue;
        }
        if c == '-' && i + 1 < n && h[i + 1] == '-' {
            let found = crate::text::find(h.as_slice(), nl.as_slice(), i);
            proof {
                crate::text::lemma_index_of(h@, nl@, i as int);
            }
            let e = match found {
                Some(at) => at,
                None => n,
            };
            i = if e > i && e <= n { e } else { i + 1 };
            continue;
        }
        if c == '/' && i + 1 < n && h[i + 1] == '*' {
            proof {
                reveal_strlit("*/");
            }
            let found = crate::text::find(h.as_slice(), close_comment.as_slice(), i + 2);
            proof {
                crate::text::lemma_index_of(h@, close_comment@, (i + 2) as int);
            }
            let e = match found {
                Some(at) => at + 2,
                None => n,
            };
            i = if e > i && e <= n { e } else { i + 1 };
            continue;
        }
        proof {
            lemma_str_end(h@, i + 1);
            lemma_char_end(h@, i + 1, if c == '[' { ']' } else { c });
            lemma_run_end(h@, i as int, false);
            lemma_run_end(h@, i as int, true);
        }
        let tok: Tok;
        let e: usize;
        if c == '\'' {
            tok = Tok::Str;
            e = str_end_exec(h.as_slice(), i + 1);
        } else if c == '"' || c == '`' || c == '[' {
            let close = if c == '[' { ']' } else { c };
            let end = char_end_exec(h.as_slice(), i + 1, close);
            tok = Tok::Word(string_of(slice_chars(h.as_slice(), i + 1, end).as_slice()));
            e = end + 1;
        } else if ('a' <= c && c <= 'z') || ('A' <= c && c <= 'Z') || c == '_' || c == '$' {
            let end = run_end_exec(h.as_slice(), i, false);
            tok = Tok::Word(string_of(slice_chars(h.as_slice(), i, end).as_slice()));
            e = end;
        } else if '0' <= c && c <= '9' {
            tok = Tok::Num;
            e = run_end_exec(h.as_slice(), i, true);
        } else {
            let w = width_exec(c);
            let ok = w == 2 || (w == 1 && (i + 1 >= n || width_exec(h[i + 1]) == 1));
            if !ok {
                return None;
            }
            let mut two_op = false;
            if i + 1 < n {
                let two = slice_chars(h.as_slice(), i, i + 2);
                let ops = ["||", "<>", "<=", ">=", "==", "!="];
                two_op = crate::text::one_of(two.as_slice(), &ops);
                proof {
                    assert(two_op == two_char_op(two@)) by {
                        if two@ == "||"@ { assert(ops@[0]@ == "||"@); }
                        if two@ == "<>"@ { assert(ops@[1]@ == "<>"@); }
                        if two@ == "<="@ { assert(ops@[2]@ == "<="@); }
                        if two@ == ">="@ { assert(ops@[3]@ == ">="@); }
                        if two@ == "=="@ { assert(ops@[4]@ == "=="@); }
                        if two@ == "!="@ { assert(ops@[5]@ == "!="@); }
                    }
                }
            }
            if two_op {
                tok = Tok::Punct(string_of(slice_chars(h.as_slice(), i, i + 2).as_slice()));
                e = i + 2;
            } else {
                let one = slice_chars(h.as_slice(), i, i + 1);
                assert(one@ =~= seq![c]);
                tok = Tok::Punct(string_of(one.as_slice()));
                e = i + 1;
            }
        }
        if !(i < e && e <= n + 1) {
            return None;
        }
        let off = byte_offset(h.as_slice(), i);
        let ghost t = tok_v(tok);
        let ghost before = done;
        let ghost old_out = out@;
        out.push((off, tok));
        proof {
            done = done.push((i as int, t));
            assert(out@ == old_out.push((off, tok)));
            assert(out_v(out@) =~= out_v(old_out).push((off as int, t)));
            assert(toks_v(h@, done) =~= toks_v(h@, before).push((byte_at(h@, i as int), t)));
            assert(out_v(out@) =~= toks_v(h@, done));
            assert(seq![(i as int, t)] + lex(h@, e as int).unwrap() =~= seq![(i as int, t)] + lex(
                h@,
                e as int,
            ).unwrap());
            assert(before + (seq![(i as int, t)] + lex(h@, e as int).unwrap()) =~= done + lex(
                h@,
                e as int,
            ).unwrap());
        }
        i = e;
    }
    proof {
        assert(done + Seq::<(int, TokV)>::empty() =~= done);
    }
    Some(out)
}

/// One problem in a SQL literal.
#[derive(Debug, Clone, PartialEq, Eq)]
pub struct SqlProblem {
    /// Byte offset into the literal.
    pub offset: usize,
    /// What is wrong.
    pub message: String,
    /// What to write instead.
    pub fix: String,
}

impl SqlProblem {
    /// The problem in one line: its message.
    pub fn text(&self) -> (r: String)
        ensures
            r@ == self.message@,
    {
        self.message.clone()
    }
}

/// A problem as plain values.
pub struct ProblemV {
    pub offset: int,
    pub message: Seq<char>,
    pub fix: Seq<char>,
}

pub open spec fn problems_v(v: Seq<SqlProblem>) -> Seq<ProblemV> {
    Seq::new(v.len(), |i: int| ProblemV { offset: v[i].offset as int, message: v[i].message@, fix: v[i].fix@ })
}

/// The punctuation `p`.
pub open spec fn is_punct(t: TokV, p: Seq<char>) -> bool {
    match t {
        TokV::Punct(q) => q == p,
        _ => false,
    }
}

/// Where the statement-start reading is: at the start of a statement, the parenthesis
/// depth, inside a `WITH` before its statement.
pub struct WState {
    pub at_start: bool,
    pub depth: int,
    pub in_with: bool,
}

/// A keyword that writes.
pub open spec fn write_kw(u: Seq<char>) -> bool {
    u == "INSERT"@ || u == "UPDATE"@ || u == "DELETE"@ || u == "REPLACE"@
}

/// One token of the statement-start reading: the next state, and whether the token is a
/// write at a statement's start.
pub open spec fn wstep(st: WState, t: TokV) -> (WState, bool) {
    if is_punct(t, "("@) {
        (WState { depth: st.depth + 1, ..st }, false)
    } else if is_punct(t, ")"@) {
        (WState { depth: st.depth - 1, ..st }, false)
    } else if is_punct(t, ";"@) && st.depth <= 0 {
        (WState { at_start: true, in_with: false, ..st }, false)
    } else {
        match t {
            TokV::Word(w) => if st.depth <= 0 && (st.at_start || st.in_with) {
                let u = uppered(w);
                if st.at_start && u == "WITH"@ {
                    (WState { in_with: true, at_start: false, ..st }, false)
                } else {
                    (
                        WState {
                            in_with: if write_kw(u) || u == "SELECT"@ { false } else { st.in_with },
                            at_start: false,
                            ..st
                        },
                        write_kw(u),
                    )
                }
            } else {
                (WState { at_start: false, ..st }, false)
            },
            _ => (WState { at_start: false, ..st }, false),
        }
    }
}

/// The `PV303` problem for the write keyword `u` at byte `offset`.
pub open spec fn write_problem(offset: int, u: Seq<char>) -> ProblemV {
    ProblemV {
        offset,
        message: u + " in app SQL — writes are appends, reads are SQL"@,
        fix: "pv.append / pv.delete (Lua) or pv.put / pv.del (JavaScript)"@,
    }
}

/// The statement-start reading over `toks`: the state after them, and the problems found.
pub open spec fn wfold(toks: Seq<(int, TokV)>) -> (WState, Seq<ProblemV>)
    decreases toks.len(),
{
    if toks.len() == 0 {
        (WState { at_start: true, depth: 0, in_with: false }, Seq::empty())
    } else {
        let (st, ps) = wfold(toks.drop_last());
        let (st2, hit) = wstep(st, toks.last().1);
        (st2, if hit {
            ps.push(
                write_problem(
                    toks.last().0,
                    match toks.last().1 {
                        TokV::Word(w) => uppered(w),
                        _ => Seq::empty(),
                    },
                ),
            )
        } else {
            ps
        })
    }
}

/// How many parentheses `toks` leaves open: each `(` opens one, each `)` closes one.
pub open spec fn paren_depth(toks: Seq<(int, TokV)>) -> int
    decreases toks.len(),
{
    if toks.len() == 0 {
        0
    } else {
        paren_depth(toks.drop_last()) + if is_punct(toks.last().1, "("@) {
            1int
        } else if is_punct(toks.last().1, ")"@) {
            -1int
        } else {
            0int
        }
    }
}

proof fn lemma_wfold_depth(toks: Seq<(int, TokV)>)
    ensures
        wfold(toks).0.depth == paren_depth(toks),
    decreases toks.len(),
{
    if toks.len() > 0 {
        lemma_wfold_depth(toks.drop_last());
        reveal_strlit("(");
        reveal_strlit(")");
        reveal_strlit(";");
    }
}

proof fn lemma_wfold_prefix(toks: Seq<(int, TokV)>, m: int)
    requires
        0 <= m <= toks.len(),
    ensures
        wfold(toks.take(m)).1.len() <= wfold(toks).1.len(),
        wfold(toks).1.take(wfold(toks.take(m)).1.len() as int) == wfold(toks.take(m)).1,
    decreases toks.len() - m,
{
    if m == toks.len() {
        assert(toks.take(m) =~= toks);
        assert(wfold(toks).1.take(wfold(toks).1.len() as int) =~= wfold(toks).1);
    } else {
        lemma_wfold_prefix(toks, m + 1);
        lemma_take_push(toks, m);
        let p = wfold(toks.take(m)).1;
        let q = wfold(toks.take(m + 1)).1;
        assert(q.take(p.len() as int) =~= p);
        assert(wfold(toks).1.take(p.len() as int) =~= q.take(p.len() as int));
    }
}

/// A write keyword that opens a statement outside any parentheses is reported, once:
/// `INSERT`, `UPDATE`, `DELETE` or `REPLACE`, in any case, as the first token or the first
/// after a `;` that closes a statement, adds exactly one `PV303` problem at its offset,
/// naming the keyword, and that problem is among those of the whole text.
pub proof fn lemma_statement_write_is_reported(toks: Seq<(int, TokV)>, k: int)
    requires
        0 <= k < toks.len(),
        toks[k].1 is Word,
        uppered(toks[k].1->Word_0) == "INSERT"@ || uppered(toks[k].1->Word_0) == "UPDATE"@
            || uppered(toks[k].1->Word_0) == "DELETE"@ || uppered(toks[k].1->Word_0) == "REPLACE"@,
        k == 0 || (is_punct(toks[k - 1].1, ";"@) && paren_depth(toks.take(k - 1)) <= 0),
    ensures
        wfold(toks.take(k + 1)).1 == wfold(toks.take(k)).1.push(
            write_problem(toks[k].0, uppered(toks[k].1->Word_0)),
        ),
        ({
            let j = wfold(toks.take(k)).1.len() as int;
            j < wfold(toks).1.len() && wfold(toks).1[j] == write_problem(toks[k].0, uppered(toks[k].1->Word_0))
        }),
{
    reveal_strlit("(");
    reveal_strlit(")");
    reveal_strlit(";");
    reveal_strlit("INSERT");
    reveal_strlit("UPDATE");
    reveal_strlit("DELETE");
    reveal_strlit("REPLACE");
    reveal_strlit("WITH");
    reveal_strlit("SELECT");
    lemma_take_push(toks, k);
    if k == 0 {
        assert(toks.take(0) =~= Seq::<(int, TokV)>::empty());
    } else {
        lemma_take_push(toks, k - 1);
        lemma_wfold_depth(toks.take(k - 1));
        let t = toks[k - 1].1;
        assert(";"@[0] != "("@[0] && ";"@[0] != ")"@[0]);
        assert(!is_punct(t, "("@));
        assert(!is_punct(t, ")"@));
        assert(toks.take(k).drop_last() == toks.take(k - 1));
        assert(toks.take(k).last() == toks[k - 1]);
    }
    let st = wfold(toks.take(k)).0;
    assert(st.at_start && st.depth <= 0);
    let u = uppered(toks[k].1->Word_0);
    assert("WITH"@.len() == 4 && "INSERT"@.len() == 6 && "UPDATE"@.len() == 6 && "DELETE"@.len() == 6
        && "REPLACE"@.len() == 7);
    assert(u != "WITH"@);
    assert(write_kw(u));
    lemma_wfold_prefix(toks, k + 1);
    let p = wfold(toks.take(k)).1;
    let q = wfold(toks.take(k + 1)).1;
    assert(wfold(toks).1[p.len() as int] == wfold(toks).1.take(q.len() as int)[p.len() as int]);
}

proof fn lemma_take_push<A>(s: Seq<A>, k: int)
    requires
        0 <= k < s.len(),
    ensures
        s.take(k + 1).drop_last() == s.take(k),
        s.take(k + 1).last() == s[k],
{
    assert(s.take(k + 1).drop_last() =~= s.take(k));
}

fn punct_is(t: &Tok, p: &str) -> (r: bool)
    ensures
        r == is_punct(tok_v(*t), p@),
{
    match t {
        Tok::Punct(q) => {
            let a = chars_of(q.as_str());
            let b = chars_of(p);
            same_chars(a.as_slice(), b.as_slice())
        },
        _ => false,
    }
}

/// `PV303`: the first keyword of each statement, `WITH …` looked through.
pub fn write_problems(sql: &str) -> (r: Vec<SqlProblem>)
    requires
        lexable(sql@),
        utf8_len(sql@) < usize::MAX,
    ensures
        problems_v(r@) == wfold(toks_v(sql@, lexed(sql@))).1,
{
    let toks = tokens(sql);
    let ghost tv = out_v(toks@);
    let mut out: Vec<SqlProblem> = Vec::new();
    let mut at_start = true;
    let mut depth: i128 = 0;
    let mut in_with = false;
    let mut k: usize = 0;
    let with_kw = chars_of("WITH");
    let select_kw = chars_of("SELECT");
    let writes = ["INSERT", "UPDATE", "DELETE", "REPLACE"];
    proof {
        assert(tv.take(0) =~= Seq::<(int, TokV)>::empty());
    }
    while k < toks.len()
        invariant
            k <= toks@.len(),
            tv == out_v(toks@),
            -(k as int) <= depth <= k,
            with_kw@ == "WITH"@,
            select_kw@ == "SELECT"@,
            writes@.len() == 4,
            writes@[0]@ == "INSERT"@,
            writes@[1]@ == "UPDATE"@,
            writes@[2]@ == "DELETE"@,
            writes@[3]@ == "REPLACE"@,
            wfold(tv.take(k as int)) == (WState { at_start, depth: depth as int, in_with }, problems_v(out@)),
        decreases toks@.len() - k,
    {
        proof {
            lemma_take_push(tv, k as int);
        }
        let ghost t = tv[k as int];
        let tok = &toks[k].1;
        let offset = toks[k].0;
        if punct_is(tok, "(") {
            depth = depth + 1;
        } else if punct_is(tok, ")") {
            depth = depth - 1;
        } else if punct_is(tok, ";") && depth <= 0 {
            at_start = true;
            in_with = false;
        } else {
            match tok {
                Tok::Word(word) => {
                    if depth <= 0 && (at_start || in_with) {
                        let upper = uppered_exec(chars_of(word.as_str()).as_slice());
                        if at_start && same_chars(upper.as_slice(), with_kw.as_slice()) {
                            in_with = true;
                            at_start = false;
                        } else {
                            let is_write = crate::text::one_of(upper.as_slice(), &writes);
                            proof {
                                assert(is_write == write_kw(upper@)) by {
                                    if upper@ == "INSERT"@ { assert(writes@[0]@ == upper@); }
                                    if upper@ == "UPDATE"@ { assert(writes@[1]@ == upper@); }
                                    if upper@ == "DELETE"@ { assert(writes@[2]@ == upper@); }
                                    if upper@ == "REPLACE"@ { assert(writes@[3]@ == upper@); }
                                }
                            }
                            if is_write {
                                let mut message = upper.clone();
                                push_str(&mut message, " in app SQL — writes are appends, reads are SQL");
                                let ghost before = problems_v(out@);
                                out.push(
                                    SqlProblem {
                                        offset,
                                        message: string_of(message.as_slice()),
                                        fix: "pv.append / pv.delete (Lua) or pv.put / pv.del (JavaScript)".to_string(),
                                    },
                                );
                                proof {
                                    assert(problems_v(out@) =~= before.push(write_problem(offset as int, upper@)));
                                }
                            }
                            if is_write || same_chars(upper.as_slice(), select_kw.as_slice()) {
                                in_with = false;
                            }
                            at_start = false;
                        }
                    } else {
                        at_start = false;
                    }
                },
                _ => {
                    at_start = false;
                },
            }
        }
        k = k + 1;
    }
    proof {
        assert(tv.take(toks@.len() as int) =~= tv);
    }
    out
}

/// The first `DECIMAL` column named inside the parentheses that open at `j`, before they
/// close.
pub open spec fn sum_scan(toks: Seq<(int, TokV)>, j: int, depth: int, cols: Seq<(Seq<char>, Seq<char>)>) -> Option<Seq<char>>
    decreases toks.len() - j,
{
    if j < 0 || j >= toks.len() {
        None
    } else if is_punct(toks[j].1, "("@) {
        sum_scan(toks, j + 1, depth + 1, cols)
    } else if is_punct(toks[j].1, ")"@) {
        if depth - 1 == 0 {
            None
        } else {
            sum_scan(toks, j + 1, depth - 1, cols)
        }
    } else {
        match toks[j].1 {
            TokV::Word(name) => if has_column(cols, name, 0) {
                Some(name)
            } else {
                sum_scan(toks, j + 1, depth, cols)
            },
            _ => sum_scan(toks, j + 1, depth, cols),
        }
    }
}

/// A `sum(` at `i` over a `DECIMAL` column: the column.
pub open spec fn sum_at(toks: Seq<(int, TokV)>, i: int, cols: Seq<(Seq<char>, Seq<char>)>) -> Option<Seq<char>> {
    match toks[i].1 {
        TokV::Word(w) => if crate::text::lowered(w) == "sum"@ && i + 1 < toks.len() && is_punct(toks[i + 1].1, "("@) {
            sum_scan(toks, i + 1, 0, cols)
        } else {
            None
        },
        _ => None,
    }
}

/// A word at `i` that is not a function name.
pub open spec fn column_at(toks: Seq<(int, TokV)>, i: int) -> Option<Seq<char>> {
    match toks[i].1 {
        TokV::Word(w) => if i + 1 < toks.len() && is_punct(toks[i + 1].1, "("@) {
            None
        } else {
            Some(w)
        },
        _ => None,
    }
}

/// A `+` or `-` at `j`.
pub open spec fn plus_minus_at(toks: Seq<(int, TokV)>, j: int) -> bool {
    0 <= j < toks.len() && (is_punct(toks[j].1, "+"@) || is_punct(toks[j].1, "-"@))
}

/// The `PV308` problems at token `i`: a `SUM` over a `DECIMAL`, then a `DATE` beside `+`
/// or `-`.
pub open spec fn arith_at(toks: Seq<(int, TokV)>, i: int, cols: Seq<(Seq<char>, Seq<char>)>) -> Seq<ProblemV> {
    (match sum_at(toks, i, cols) {
        Some(name) => seq![
            ProblemV {
                offset: toks[i].0,
                message: "SUM("@ + name + ") over a DECIMAL column is a float"@,
                fix: "decimal_sum("@ + name + ")"@,
            },
        ],
        None => Seq::empty(),
    }) + match column_at(toks, i) {
        Some(name) => if has_column(cols, name, 2) && (plus_minus_at(toks, i + 1) || plus_minus_at(toks, i - 1)) {
            seq![
                ProblemV {
                    offset: toks[i].0,
                    message: "`"@ + name + "` is a DATE; + and - treat it as an integer"@,
                    fix: "date("@ + name + ", '+30 days') — the modifier spelling"@,
                },
            ]
        } else {
            Seq::empty()
        },
        None => Seq::empty(),
    }
}

/// The `PV308` problems of the first `n` tokens' positions.
pub open spec fn arith_upto(toks: Seq<(int, TokV)>, n: int, cols: Seq<(Seq<char>, Seq<char>)>) -> Seq<ProblemV>
    decreases n,
{
    if n <= 0 {
        Seq::empty()
    } else {
        arith_upto(toks, n - 1, cols) + arith_at(toks, n - 1, cols)
    }
}

fn sum_scan_exec(toks: &Vec<(usize, Tok)>, start: usize, columns: &Columns) -> (r: Option<String>)
    requires
        start < toks@.len(),
        is_punct(out_v(toks@)[start as int].1, "("@),
    ensures
        match r {
            Some(name) => sum_scan(out_v(toks@), start as int, 0, columns@) == Some(name@),
            None => sum_scan(out_v(toks@), start as int, 0, columns@) is None,
        },
{
    let ghost tv = out_v(toks@);
    let mut depth: usize = 0;
    let mut j = start;
    while j < toks.len()
        invariant
            start <= j <= toks@.len(),
            depth <= j - start,
            j > start ==> depth >= 1,
            is_punct(tv[start as int].1, "("@),
            tv == out_v(toks@),
            sum_scan(tv, start as int, 0, columns@) == sum_scan(tv, j as int, depth as int, columns@),
        decreases toks@.len() - j,
    {
        let tok = &toks[j].1;
        if punct_is(tok, "(") {
            depth = depth + 1;
        } else if punct_is(tok, ")") {
            if depth <= 1 {
                return None;
            }
            depth = depth - 1;
        } else {
            match tok {
                Tok::Word(name) => {
                    if columns.is_decimal(name.as_str()) {
                        return Some(name.clone());
                    }
                },
                _ => {},
            }
        }
        j = j + 1;
    }
    None
}

fn word_of(t: &Tok) -> (r: Option<&String>)
    ensures
        match r {
            Some(w) => tok_v(*t) == TokV::Word(w@),
            None => !(tok_v(*t) is Word),
        },
{
    match t {
        Tok::Word(w) => Some(w),
        _ => None,
    }
}

/// `PV308`: `SUM(` over a DECIMAL column, and `+`/`-` beside a DATE column.
pub fn arithmetic_problems(sql: &str, columns: &Columns) -> (r: Vec<SqlProblem>)
    requires
        lexable(sql@),
        utf8_len(sql@) < usize::MAX,
    ensures
        problems_v(r@) == arith_upto(toks_v(sql@, lexed(sql@)), lexed(sql@).len() as int, columns@),
{
    let toks = tokens(sql);
    let ghost tv = out_v(toks@);
    let mut out: Vec<SqlProblem> = Vec::new();
    let n = toks.len();
    let mut i: usize = 0;
    while i < n
        invariant
            i <= n == toks@.len(),
            tv == out_v(toks@),
            problems_v(out@) == arith_upto(tv, i as int, columns@),
        decreases n - i,
    {
        let ghost before = problems_v(out@);
        let offset = toks[i].0;
        let next_is_open = i + 1 < n && punct_is(&toks[i + 1].1, "(");
        match word_of(&toks[i].1) {
            Some(w) => {
                let lw = crate::text::lowered_exec(chars_of(w.as_str()).as_slice());
                let sum = chars_of("sum");
                if same_chars(lw.as_slice(), sum.as_slice()) && next_is_open {
                    match sum_scan_exec(&toks, i + 1, columns) {
                        Some(name) => {
                            let mut message = chars_of("SUM(");
                            push_str(&mut message, name.as_str());
                            push_str(&mut message, ") over a DECIMAL column is a float");
                            let mut fix = chars_of("decimal_sum(");
                            push_str(&mut fix, name.as_str());
                            push_str(&mut fix, ")");
                            out.push(SqlProblem { offset, message: string_of(message.as_slice()), fix: string_of(fix.as_slice()) });
                        },
                        None => {},
                    }
                }
            },
            None => {},
        }
        let ghost mid = problems_v(out@);
        proof {
            assert(mid =~= before + match sum_at(tv, i as int, columns@) {
                Some(name) => seq![
                    ProblemV {
                        offset: tv[i as int].0,
                        message: "SUM("@ + name + ") over a DECIMAL column is a float"@,
                        fix: "decimal_sum("@ + name + ")"@,
                    },
                ],
                None => Seq::<ProblemV>::empty(),
            });
        }
        match word_of(&toks[i].1) {
            Some(name) => {
                if !next_is_open && columns.is_date(name.as_str()) {
                    let after = i + 1 < n && (punct_is(&toks[i + 1].1, "+") || punct_is(&toks[i + 1].1, "-"));
                    let prior = i > 0 && (punct_is(&toks[i - 1].1, "+") || punct_is(&toks[i - 1].1, "-"));
                    if after || prior {
                        let mut message = chars_of("`");
                        push_str(&mut message, name.as_str());
                        push_str(&mut message, "` is a DATE; + and - treat it as an integer");
                        let mut fix = chars_of("date(");
                        push_str(&mut fix, name.as_str());
                        push_str(&mut fix, ", '+30 days') — the modifier spelling");
                        out.push(SqlProblem { offset, message: string_of(message.as_slice()), fix: string_of(fix.as_slice()) });
                    }
                }
            },
            None => {},
        }
        proof {
            assert(problems_v(out@) =~= before + arith_at(tv, i as int, columns@));
        }
        i = i + 1;
    }
    out
}

/// An action the engine reported while preparing one statement, as the recording
/// authorizer keeps it.
#[derive(Debug, Clone, PartialEq, Eq)]
pub enum Seen {
    /// A `CREATE TABLE`, `CREATE VIEW` or `CREATE INDEX`.
    Create(&'static str),
    /// A row written: the verb and the table.
    Write(&'static str, String),
    /// A read, a function call or the like, which a view's body does.
    Read,
    /// Anything else, named.
    Other(String),
}

/// What one statement of a `schema.sql` is, by the actions the engine reports for it.
#[derive(Debug, Clone, PartialEq, Eq)]
pub struct Verdict {
    /// 1-based line of the statement.
    pub line: u32,
    /// `None` when the statement is a declaration; otherwise what it does instead.
    pub problem: Option<String>,
}

/// The engine's own bookkeeping tables.
pub open spec fn catalog(table: Seq<char>) -> bool {
    let t = crate::text::lowered(table);
    t == "sqlite_master"@ || t == "sqlite_temp_master"@ || t == "sqlite_schema"@ || t
        == "sqlite_temp_schema"@ || t == "sqlite_sequence"@ || t == "sqlite_stat1"@
}

/// Whether `table` is one of the engine's own bookkeeping tables, in any case.
pub fn is_catalog(table: &str) -> (r: bool)
    ensures
        r == catalog(table@),
{
    let t = crate::text::lowered_exec(chars_of(table).as_slice());
    let names = ["sqlite_master", "sqlite_temp_master", "sqlite_schema", "sqlite_temp_schema",
        "sqlite_sequence", "sqlite_stat1"];
    let r = crate::text::one_of(t.as_slice(), &names);
    proof {
        assert(r == catalog(table@)) by {
            if t@ == "sqlite_master"@ { assert(names@[0]@ == t@); }
            if t@ == "sqlite_temp_master"@ { assert(names@[1]@ == t@); }
            if t@ == "sqlite_schema"@ { assert(names@[2]@ == t@); }
            if t@ == "sqlite_temp_schema"@ { assert(names@[3]@ == t@); }
            if t@ == "sqlite_sequence"@ { assert(names@[4]@ == t@); }
            if t@ == "sqlite_stat1"@ { assert(names@[5]@ == t@); }
        }
    }
    r
}

/// The first action from `k` on that is not a declaration's own: a row written outside
/// the catalog, or anything named.
pub open spec fn first_problem(actions: Seq<Seen>, k: int) -> Option<Seq<char>>
    decreases actions.len() - k,
{
    if k < 0 || k >= actions.len() {
        None
    } else {
        match actions[k] {
            Seen::Write(verb, table) => if !catalog(table@) {
                Some(verb@ + " `"@ + table@ + "` — a schema declares tables, views and indexes; rows arrive by append"@)
            } else {
                first_problem(actions, k + 1)
            },
            Seen::Other(what) => Some(what@ + " is not a declaration"@),
            _ => first_problem(actions, k + 1),
        }
    }
}

/// The verdict on a statement from its actions: the first that is not a declaration's
/// own; else, when nothing was created, that it is no declaration; else none.
pub open spec fn judge_spec(actions: Seq<Seen>) -> Option<Seq<char>> {
    match first_problem(actions, 0) {
        Some(m) => Some(m),
        None => if exists|k: int| 0 <= k < actions.len() && #[trigger] actions[k] is Create {
            None
        } else {
            Some("not a CREATE TABLE, CREATE VIEW or CREATE INDEX"@)
        },
    }
}

/// What a statement that the engine prepared is, from the actions it reported: `None`
/// for a declaration, otherwise what it does instead.
pub fn judge(actions: &[Seen]) -> (r: Option<String>)
    ensures
        match r {
            Some(m) => judge_spec(actions@) == Some(m@),
            None => judge_spec(actions@) is None,
        },
{
    let mut creates = false;
    let mut k: usize = 0;
    while k < actions.len()
        invariant
            k <= actions@.len(),
            first_problem(actions@, 0) == first_problem(actions@, k as int),
            creates == exists|j: int| 0 <= j < k && #[trigger] actions@[j] is Create,
        decreases actions.len() - k,
    {
        match &actions[k] {
            Seen::Create(_) => {
                creates = true;
            },
            Seen::Write(verb, table) => {
                if !is_catalog(table.as_str()) {
                    let mut m = chars_of(verb);
                    push_str(&mut m, " `");
                    push_str(&mut m, table.as_str());
                    push_str(&mut m, "` — a schema declares tables, views and indexes; rows arrive by append");
                    return Some(string_of(m.as_slice()));
                }
            },
            Seen::Read => {},
            Seen::Other(what) => {
                let mut m = chars_of(what.as_str());
                push_str(&mut m, " is not a declaration");
                return Some(string_of(m.as_slice()));
            },
        }
        k = k + 1;
    }
    if !creates {
        return Some("not a CREATE TABLE, CREATE VIEW or CREATE INDEX".to_string());
    }
    None
}

} // verus!
