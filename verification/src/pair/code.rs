//! The 16-bit pairing code, its two renderings — four glyphs and two words — and the
//! parser that accepts either, or the glyphs' labels.

use vstd::prelude::*;
use rand::RngExt as _;
use crate::text::{chars_of, is_ascii_alpha, lower, lower_exec, split, starts_with,
    starts_with_exec, string_of, vec_views, lowered, uppered};

verus! {

/// One entry of the glyph table: the emoji, as the exact characters the table gives
/// (index 8 and 9 keep their U+FE0F variation selector), and the label shown beneath it.
#[derive(Debug, Clone, Copy, PartialEq, Eq)]
pub struct Glyph {
    /// The emoji.
    pub glyph: &'static str,
    /// The label shown beneath the glyph, everywhere it is rendered.
    pub label: &'static str,
}

/// The sixteen glyphs in index order. Index order is wire meaning; changing it is a
/// breaking protocol change.
pub open spec fn glyph_spec(i: int) -> Glyph {
    if i == 0 {
        Glyph { glyph: "\u{1F984}", label: "Unicorn" }
    } else if i == 1 {
        Glyph { glyph: "\u{1F3A7}", label: "Headphones" }
    } else if i == 2 {
        Glyph { glyph: "\u{1F355}", label: "Pizza" }
    } else if i == 3 {
        Glyph { glyph: "\u{1F6F8}", label: "UFO" }
    } else if i == 4 {
        Glyph { glyph: "\u{1F3B8}", label: "Guitar" }
    } else if i == 5 {
        Glyph { glyph: "\u{1F344}", label: "Mushroom" }
    } else if i == 6 {
        Glyph { glyph: "\u{1F48E}", label: "Diamond" }
    } else if i == 7 {
        Glyph { glyph: "\u{1F98A}", label: "Fox" }
    } else if i == 8 {
        Glyph { glyph: "\u{26A1}\u{FE0F}", label: "Lightning" }
    } else if i == 9 {
        Glyph { glyph: "\u{1F336}\u{FE0F}", label: "Hot Pepper" }
    } else if i == 10 {
        Glyph { glyph: "\u{1F9A9}", label: "Flamingo" }
    } else if i == 11 {
        Glyph { glyph: "\u{1F3A8}", label: "Artist Palette" }
    } else if i == 12 {
        Glyph { glyph: "\u{1F34D}", label: "Pineapple" }
    } else if i == 13 {
        Glyph { glyph: "\u{1F341}", label: "Maple Leaf" }
    } else if i == 14 {
        Glyph { glyph: "\u{1F3B2}", label: "Game Die" }
    } else {
        Glyph { glyph: "\u{1F353}", label: "Strawberry" }
    }
}

/// The glyph at `index` of the table.
pub fn glyph(index: u8) -> (g: Glyph)
    requires
        index < 16,
    ensures
        g == glyph_spec(index as int),
{
    if index == 0 {
        Glyph { glyph: "\u{1F984}", label: "Unicorn" }
    } else if index == 1 {
        Glyph { glyph: "\u{1F3A7}", label: "Headphones" }
    } else if index == 2 {
        Glyph { glyph: "\u{1F355}", label: "Pizza" }
    } else if index == 3 {
        Glyph { glyph: "\u{1F6F8}", label: "UFO" }
    } else if index == 4 {
        Glyph { glyph: "\u{1F3B8}", label: "Guitar" }
    } else if index == 5 {
        Glyph { glyph: "\u{1F344}", label: "Mushroom" }
    } else if index == 6 {
        Glyph { glyph: "\u{1F48E}", label: "Diamond" }
    } else if index == 7 {
        Glyph { glyph: "\u{1F98A}", label: "Fox" }
    } else if index == 8 {
        Glyph { glyph: "\u{26A1}\u{FE0F}", label: "Lightning" }
    } else if index == 9 {
        Glyph { glyph: "\u{1F336}\u{FE0F}", label: "Hot Pepper" }
    } else if index == 10 {
        Glyph { glyph: "\u{1F9A9}", label: "Flamingo" }
    } else if index == 11 {
        Glyph { glyph: "\u{1F3A8}", label: "Artist Palette" }
    } else if index == 12 {
        Glyph { glyph: "\u{1F34D}", label: "Pineapple" }
    } else if index == 13 {
        Glyph { glyph: "\u{1F341}", label: "Maple Leaf" }
    } else if index == 14 {
        Glyph { glyph: "\u{1F3B2}", label: "Game Die" }
    } else {
        Glyph { glyph: "\u{1F353}", label: "Strawberry" }
    }
}

/// The first character of glyph `i`: what a typed glyph is recognized by, with or
/// without its variation selector.
pub open spec fn glyph_first(i: int) -> char {
    if i == 0 {
        '\u{1F984}'
    } else if i == 1 {
        '\u{1F3A7}'
    } else if i == 2 {
        '\u{1F355}'
    } else if i == 3 {
        '\u{1F6F8}'
    } else if i == 4 {
        '\u{1F3B8}'
    } else if i == 5 {
        '\u{1F344}'
    } else if i == 6 {
        '\u{1F48E}'
    } else if i == 7 {
        '\u{1F98A}'
    } else if i == 8 {
        '\u{26A1}'
    } else if i == 9 {
        '\u{1F336}'
    } else if i == 10 {
        '\u{1F9A9}'
    } else if i == 11 {
        '\u{1F3A8}'
    } else if i == 12 {
        '\u{1F34D}'
    } else if i == 13 {
        '\u{1F341}'
    } else if i == 14 {
        '\u{1F3B2}'
    } else {
        '\u{1F353}'
    }
}

/// The characters of glyph `i`: its first character, and for the two that carry one,
/// the variation selector.
pub open spec fn glyph_chars(i: int) -> Seq<char> {
    if i == 8 || i == 9 {
        seq![glyph_first(i), '\u{FE0F}']
    } else {
        seq![glyph_first(i)]
    }
}

/// The table's emoji are exactly the characters `glyph_chars` states.
pub proof fn lemma_glyph_chars(i: int)
    requires
        0 <= i < 16,
    ensures
        glyph_spec(i).glyph@ == glyph_chars(i),
{
    if i == 0 {
        reveal_strlit("\u{1F984}");
    } else if i == 1 {
        reveal_strlit("\u{1F3A7}");
    } else if i == 2 {
        reveal_strlit("\u{1F355}");
    } else if i == 3 {
        reveal_strlit("\u{1F6F8}");
    } else if i == 4 {
        reveal_strlit("\u{1F3B8}");
    } else if i == 5 {
        reveal_strlit("\u{1F344}");
    } else if i == 6 {
        reveal_strlit("\u{1F48E}");
    } else if i == 7 {
        reveal_strlit("\u{1F98A}");
    } else if i == 8 {
        reveal_strlit("\u{26A1}\u{FE0F}");
    } else if i == 9 {
        reveal_strlit("\u{1F336}\u{FE0F}");
    } else if i == 10 {
        reveal_strlit("\u{1F9A9}");
    } else if i == 11 {
        reveal_strlit("\u{1F3A8}");
    } else if i == 12 {
        reveal_strlit("\u{1F34D}");
    } else if i == 13 {
        reveal_strlit("\u{1F341}");
    } else if i == 14 {
        reveal_strlit("\u{1F3B2}");
    } else {
        reveal_strlit("\u{1F353}");
    }
}

/// The first glyph, from index `from` on, whose emoji begins with `c`.
pub open spec fn glyph_index_from(c: char, from: int) -> Option<u8>
    decreases 16 - from,
{
    if from >= 16 || from < 0 {
        None
    } else if glyph_first(from) == c {
        Some(from as u8)
    } else {
        glyph_index_from(c, from + 1)
    }
}

/// The glyph whose emoji begins with `c`, if one does.
pub open spec fn glyph_index(c: char) -> Option<u8> {
    glyph_index_from(c, 0)
}

fn glyph_first_exec(i: u8) -> (r: char)
    requires
        i < 16,
    ensures
        r == glyph_first(i as int),
{
    if i == 0 {
        '\u{1F984}'
    } else if i == 1 {
        '\u{1F3A7}'
    } else if i == 2 {
        '\u{1F355}'
    } else if i == 3 {
        '\u{1F6F8}'
    } else if i == 4 {
        '\u{1F3B8}'
    } else if i == 5 {
        '\u{1F344}'
    } else if i == 6 {
        '\u{1F48E}'
    } else if i == 7 {
        '\u{1F98A}'
    } else if i == 8 {
        '\u{26A1}'
    } else if i == 9 {
        '\u{1F336}'
    } else if i == 10 {
        '\u{1F9A9}'
    } else if i == 11 {
        '\u{1F3A8}'
    } else if i == 12 {
        '\u{1F34D}'
    } else if i == 13 {
        '\u{1F341}'
    } else if i == 14 {
        '\u{1F3B2}'
    } else {
        '\u{1F353}'
    }
}

fn glyph_of(c: char) -> (r: Option<u8>)
    ensures
        r == glyph_index(c),
{
    let mut i: u8 = 0;
    while i < 16
        invariant
            i <= 16,
            glyph_index(c) == glyph_index_from(c, i as int),
        decreases 16 - i,
    {
        if glyph_first_exec(i) == c {
            return Some(i);
        }
        i = i + 1;
    }
    None
}

/// Why a typed code could not be read. The input is never echoed: a code is a secret for
/// the length of its window, and an error message is the kind of thing that gets logged.
#[derive(Debug, Clone, Copy, PartialEq, Eq)]
pub enum CodeError {
    /// Nothing was typed.
    Empty,
    /// Something was typed and it is not a code in any accepted rendering.
    Unrecognized,
}

impl CodeError {
    /// The message shown for this refusal.
    pub fn message(&self) -> (r: &'static str)
        ensures
            r@ == match self {
                CodeError::Empty => "enter the pairing code: the four emoji, their four labels, or the two words"@,
                CodeError::Unrecognized => "the pairing code was not recognized: expected the four emoji from the pad, their four labels, or the two words shown on the node"@,
            },
    {
        match self {
            CodeError::Empty => "enter the pairing code: the four emoji, their four labels, or the two words",
            CodeError::Unrecognized => "the pairing code was not recognized: expected the four emoji from the pad, their four labels, or the two words shown on the node",
        }
    }
}

/// The pairing secret: 16 bits from the CSPRNG, rendered as four glyphs (big-endian
/// nibbles) or two words (big-endian bytes), both meaning this integer. It has no
/// `Debug`, so nothing holding a code can print it into a log.
#[derive(Clone, Copy, PartialEq, Eq)]
pub struct Code(u16);

impl View for Code {
    type V = u16;

    closed spec fn view(&self) -> u16 {
        self.0
    }
}

/// A fresh 16-bit value from the thread's CSPRNG: `rand::rng().random::<u16>()`. Nothing
/// is promised of the value; the generator panics only if the platform cannot seed it.
#[verifier::external_body]
fn random_u16() -> (r: u16) {
    rand::rng().random::<u16>()
}

/// The code of four nibbles, most significant first.
pub open spec fn from_nibbles(n: Seq<u8>) -> u16 {
    (n[0] * 4096 + n[1] * 256 + n[2] * 16 + n[3]) as u16
}

/// The code of two bytes, most significant first.
pub open spec fn from_bytes(high: u8, low: u8) -> u16 {
    (high * 256 + low) as u16
}

/// Nibble `k` of `v`, counted from the most significant.
pub open spec fn nibble(v: u16, k: int) -> int {
    if k == 0 {
        (v / 4096) as int
    } else if k == 1 {
        ((v / 256) % 16) as int
    } else if k == 2 {
        ((v / 16) % 16) as int
    } else {
        (v % 16) as int
    }
}

impl Code {
    /// A fresh code from the platform CSPRNG. Never owner-chosen.
    pub fn random() -> (c: Code) {
        Code(random_u16())
    }

    /// The code for a known integer — a test, or a fixture.
    pub fn from_u16(value: u16) -> (c: Code)
        ensures
            c@ == value,
    {
        Code(value)
    }

    /// The integer both renderings encode.
    pub fn as_u16(self) -> (r: u16)
        ensures
            r == self@,
    {
        self.0
    }

    /// The two bytes of the code, big-endian — the key exchange's input.
    pub fn bytes(self) -> (r: [u8; 2])
        ensures
            r[0] == self@ / 256,
            r[1] == self@ % 256,
    {
        [(self.0 / 256) as u8, (self.0 % 256) as u8]
    }

    /// The emoji rendering: four glyphs, most significant nibble first.
    pub fn glyphs(self) -> (r: [Glyph; 4])
        ensures
            forall|k: int| 0 <= k < 4 ==> #[trigger] r[k] == glyph_spec(nibble(self@, k)),
    {
        let v = self.0;
        let r = [
            glyph((v / 4096) as u8),
            glyph(((v / 256) % 16) as u8),
            glyph(((v / 16) % 16) as u8),
            glyph((v % 16) as u8),
        ];
        assert forall|k: int| 0 <= k < 4 implies #[trigger] r[k] == glyph_spec(nibble(v, k)) by {
            if k == 0 {
                assert(r[0] == glyph_spec(nibble(v, 0)));
            } else if k == 1 {
                assert(r[1] == glyph_spec(nibble(v, 1)));
            } else if k == 2 {
                assert(r[2] == glyph_spec(nibble(v, 2)));
            } else {
                assert(r[3] == glyph_spec(nibble(v, 3)));
            }
        }
        r
    }

    /// The word rendering: two words of `list`, most significant byte first.
    pub fn words<'a>(self, list: &'a WordList) -> (r: [&'a str; 2])
        requires
            list.wf(),
        ensures
            r[0]@ == list.view()[(self@ / 256) as int],
            r[1]@ == list.view()[(self@ % 256) as int],
    {
        let high = (self.0 / 256) as usize;
        let low = (self.0 % 256) as usize;
        [list.words[high].as_str(), list.words[low].as_str()]
    }

    /// Read a code a person typed or pasted, in any accepted rendering:
    ///
    /// - the four glyphs, with or without spaces, with or without their variation
    ///   selectors;
    /// - the four labels, in any case, separated by anything or nothing; the one-word
    ///   forms of the two-word labels are accepted too;
    /// - the two words of `list`, in any case, with spaces, hyphens and punctuation
    ///   ignored, and each word abbreviated to any prefix of three letters or more.
    ///
    /// Anything else is [`CodeError::Unrecognized`], which never repeats what was typed.
    pub fn parse(text: &str, list: &WordList) -> (r: Result<Code, CodeError>)
        requires
            list.wf(),
        ensures
            match r {
                Ok(c) => parse_spec(text@, list.view()) == Ok::<u16, CodeError>(c@),
                Err(e) => parse_spec(text@, list.view()) == Err::<u16, CodeError>(e),
            },
    {
        let chars = chars_of(text);
        let mut glyphs: Vec<u8> = Vec::new();
        let mut tokens: Vec<Vec<char>> = Vec::new();
        let mut current: Vec<char> = Vec::new();
        let mut i: usize = 0;
        while i < chars.len()
            invariant
                i <= chars@.len(),
                scan(chars@.take(i as int)) == (glyphs@, vec_views(tokens@), current@),
                forall|k: int| 0 <= k < glyphs@.len() ==> #[trigger] glyphs@[k] < 16,
                forall|k: int| 0 <= k < tokens@.len() ==> #[trigger] all_lower_alpha(tokens@[k]@),
                all_lower_alpha(current@),
            decreases chars.len() - i,
        {
            let c = chars[i];
            proof {
                assert(chars@.take(i + 1).drop_last() =~= chars@.take(i as int));
            }
            if ('a' <= c && c <= 'z') || ('A' <= c && c <= 'Z') {
                current.push(lower_exec(c));
            } else {
                if current.len() > 0 {
                    let ghost old_tokens = tokens@;
                    let t = current;
                    tokens.push(t);
                    current = Vec::new();
                    proof {
                        assert(vec_views(tokens@) =~= vec_views(old_tokens).push(t@)) by {
                            assert(tokens@.drop_last() =~= old_tokens);
                        }
                    }
                } else {
                    current = Vec::new();
                }
                match glyph_of(c) {
                    Some(g) => {
                        proof {
                            lemma_glyph_index_small(c, 0);
                        }
                        glyphs.push(g);
                    },
                    None => {},
                }
            }
            i = i + 1;
        }
        assert(chars@.take(chars@.len() as int) =~= chars@);
        if current.len() > 0 {
            let ghost old_tokens = tokens@;
            let t = current;
            tokens.push(t);
            proof {
                assert(tokens@.drop_last() =~= old_tokens);
                assert(vec_views(tokens@) =~= vec_views(old_tokens).push(t@));
            }
        }
        assert(vec_views(tokens@) == final_tokens(text@));
        if glyphs.len() > 0 {
            if glyphs.len() == 4 && tokens.len() == 0 {
                let v: u16 = (glyphs[0] as u16) * 4096 + (glyphs[1] as u16) * 256 + (glyphs[2] as u16) * 16
                    + (glyphs[3] as u16);
                return Ok(Code(v));
            }
            return Err(CodeError::Unrecognized);
        }
        if tokens.len() == 0 {
            return Err(CodeError::Empty);
        }
        if tokens.len() == 2 {
            let high = word_index(list, tokens[0].as_slice());
            let low = word_index(list, tokens[1].as_slice());
            if let (Some(h), Some(l)) = (high, low) {
                return Ok(Code((h as u16) * 256 + (l as u16)));
            }
        }
        let mut joined: Vec<char> = Vec::new();
        let mut k: usize = 0;
        while k < tokens.len()
            invariant
                k <= tokens@.len(),
                joined@ == concat(vec_views(tokens@).take(k as int)),
            decreases tokens.len() - k,
        {
            let ghost before = joined@;
            crate::text::push_all(&mut joined, tokens[k].as_slice());
            proof {
                let tv = vec_views(tokens@);
                assert(tv.take(k + 1).drop_last() =~= tv.take(k as int));
                assert(tv[k as int] == tokens@[k as int]@);
            }
            k = k + 1;
        }
        proof {
            let tv = vec_views(tokens@);
            assert(tv.take(tv.len() as int) =~= tv);
        }
        match joined_words(list, joined.as_slice()) {
            Some(v) => Ok(Code(v)),
            None => match joined_labels(joined.as_slice()) {
                Some(v) => Ok(Code(v)),
                None => Err(CodeError::Unrecognized),
            },
        }
    }
}

proof fn lemma_glyph_index_small(c: char, from: int)
    ensures
        glyph_index_from(c, from) matches Some(g) ==> g < 16,
    decreases 16 - from,
{
    if 0 <= from < 16 && glyph_first(from) != c {
        lemma_glyph_index_small(c, from + 1);
    }
}

/// Every character is an ASCII lower-case letter.
pub open spec fn all_lower_alpha(s: Seq<char>) -> bool {
    forall|i: int| 0 <= i < s.len() ==> 'a' <= #[trigger] s[i] <= 'z'
}

/// The concatenation of `parts`.
pub open spec fn concat(parts: Seq<Seq<char>>) -> Seq<char>
    decreases parts.len(),
{
    if parts.len() == 0 {
        Seq::empty()
    } else {
        concat(parts.drop_last()) + parts.last()
    }
}

/// What a reading of typed text has collected: the glyphs seen, the finished tokens of
/// ASCII letters (lower-cased), and the token in progress. Everything that is neither a
/// letter nor the start of a glyph — whitespace, hyphens, punctuation, the variation
/// selector, digits, letters outside ASCII — separates tokens.
pub open spec fn scan(s: Seq<char>) -> (Seq<u8>, Seq<Seq<char>>, Seq<char>)
    decreases s.len(),
{
    if s.len() == 0 {
        (Seq::empty(), Seq::empty(), Seq::empty())
    } else {
        let (g, t, cur) = scan(s.drop_last());
        let c = s.last();
        if is_ascii_alpha(c) {
            (g, t, cur.push(lower(c)))
        } else {
            let t2 = if cur.len() > 0 { t.push(cur) } else { t };
            let g2 = match glyph_index(c) {
                Some(i) => g.push(i),
                None => g,
            };
            (g2, t2, Seq::empty())
        }
    }
}

/// The tokens of typed text, the last one included.
pub open spec fn final_tokens(s: Seq<char>) -> Seq<Seq<char>> {
    let (g, t, cur) = scan(s);
    if cur.len() > 0 { t.push(cur) } else { t }
}

/// A list of pairing words, in the order that gives each its byte.
pub struct WordList {
    words: Vec<String>,
}

/// Why a word list could not be read.
#[derive(Debug, Clone, Copy, PartialEq, Eq)]
pub enum WordsError {
    /// More than 256 lines hold a word.
    TooMany,
    /// A line is empty.
    BlankLine,
    /// Fewer than 256 words.
    WrongCount,
}

/// The lines of a word file: one word per line, a final line feed ending the file rather
/// than starting an empty word.
pub open spec fn word_lines(text: Seq<char>) -> Seq<Seq<char>> {
    let parts = split(text, '\n');
    if parts.last().len() == 0 { parts.drop_last() } else { parts }
}

/// The first of the first 256 lines that is empty, if any is.
pub open spec fn first_blank(lines: Seq<Seq<char>>, from: int) -> bool
    decreases lines.len() - from,
{
    if from >= lines.len() || from >= 256 || from < 0 {
        false
    } else if lines[from].len() == 0 {
        true
    } else {
        first_blank(lines, from + 1)
    }
}

/// A word file read: exactly 256 non-empty lines, or the first problem met reading it
/// line by line.
pub open spec fn read_words(text: Seq<char>) -> Result<Seq<Seq<char>>, WordsError> {
    let lines = word_lines(text);
    if first_blank(lines, 0) {
        Err(WordsError::BlankLine)
    } else if lines.len() > 256 {
        Err(WordsError::TooMany)
    } else if lines.len() != 256 {
        Err(WordsError::WrongCount)
    } else {
        Ok(lines)
    }
}

impl View for WordList {
    type V = Seq<Seq<char>>;

    closed spec fn view(&self) -> Seq<Seq<char>> {
        Seq::new(self.words@.len(), |i: int| self.words@[i]@)
    }
}

impl WordList {
    /// The list holds 256 words.
    pub closed spec fn wf(&self) -> bool {
        self.words@.len() == 256
    }

    /// The words held.
    pub proof fn lemma_len(&self)
        requires
            self.wf(),
        ensures
            self.view().len() == 256,
    {
    }

    /// Read a word file: one word per line, 256 lines, no blank line, a final line feed
    /// optional.
    pub fn parse(text: &str) -> (r: Result<WordList, WordsError>)
        ensures
            match r {
                Ok(l) => l.wf() && read_words(text@) == Ok::<Seq<Seq<char>>, WordsError>(l.view()),
                Err(e) => read_words(text@) == Err::<Seq<Seq<char>>, WordsError>(e),
            },
    {
        let chars = chars_of(text);
        let lines = crate::text::split_exec(chars.as_slice(), '\n');
        let n = if lines.len() > 0 && lines[lines.len() - 1].len() == 0 {
            lines.len() - 1
        } else {
            lines.len()
        };
        let ghost wl = word_lines(text@);
        proof {
            crate::text::lemma_split_nonempty(text@, '\n');
            let parts = crate::text::vec_views(lines@);
            assert(parts.last() == lines@[lines@.len() - 1]@);
            assert(forall|k: int| 0 <= k < n ==> #[trigger] lines@[k]@ == wl[k]) by {
                assert forall|k: int| 0 <= k < n implies #[trigger] lines@[k]@ == wl[k] by {
                    assert(parts[k] == lines@[k]@);
                }
            }
        }
        let mut i: usize = 0;
        while i < n && i < 256
            invariant
                i <= n,
                i <= 256,
                wl == word_lines(text@),
                n == wl.len(),
                n <= lines@.len(),
                forall|k: int| 0 <= k < n ==> #[trigger] lines@[k]@ == wl[k],
                first_blank(wl, 0) == first_blank(wl, i as int),
            decreases 256 - i,
        {
            if lines[i].len() == 0 {
                assert(wl[i as int].len() == 0);
                assert(first_blank(wl, i as int));
                return Err(WordsError::BlankLine);
            }
            i = i + 1;
        }
        if n > 256 {
            return Err(WordsError::TooMany);
        }
        if n != 256 {
            return Err(WordsError::WrongCount);
        }
        let mut words: Vec<String> = Vec::new();
        let mut k: usize = 0;
        while k < n
            invariant
                k <= n,
                n == wl.len(),
                n <= lines@.len(),
                forall|j: int| 0 <= j < n ==> #[trigger] lines@[j]@ == wl[j],
                words@.len() == k,
                forall|j: int| 0 <= j < k ==> #[trigger] words@[j]@ == wl[j],
            decreases n - k,
        {
            words.push(string_of(lines[k].as_slice()));
            k = k + 1;
        }
        let list = WordList { words };
        assert(list.view() =~= wl);
        Ok(list)
    }
}

/// The first word of `list`, from index `from` on, that `token` is a prefix of.
pub open spec fn word_from(list: Seq<Seq<char>>, token: Seq<char>, from: int) -> Option<u8>
    decreases list.len() - from,
{
    if from >= list.len() || from < 0 {
        None
    } else if starts_with(list[from], token) {
        Some(from as u8)
    } else {
        word_from(list, token, from + 1)
    }
}

/// The index of a whole word or of an abbreviation of one three letters or longer: the
/// first word that begins with it.
pub open spec fn word_index_spec(list: Seq<Seq<char>>, token: Seq<char>) -> Option<u8> {
    if token.len() < 3 {
        None
    } else {
        word_from(list, token, 0)
    }
}

fn word_index(list: &WordList, token: &[char]) -> (r: Option<u8>)
    requires
        list.wf(),
    ensures
        r == word_index_spec(list.view(), token@),
{
    if token.len() < 3 {
        return None;
    }
    let mut k: usize = 0;
    while k < list.words.len()
        invariant
            list.wf(),
            k <= 256,
            word_index_spec(list.view(), token@) == word_from(list.view(), token@, k as int),
        decreases list.words.len() - k,
    {
        let w = chars_of(list.words[k].as_str());
        assert(w@ == list.view()[k as int]);
        if starts_with_exec(w.as_slice(), token) {
            return Some(k as u8);
        }
        k = k + 1;
    }
    None
}

/// The first word of `list`, from index `from` on, that `rest` begins with and that
/// begins with the first three characters of `rest`.
pub open spec fn joined_word_from(list: Seq<Seq<char>>, rest: Seq<char>, from: int) -> Option<u8>
    decreases list.len() - from,
{
    if from >= list.len() || from < 0 {
        None
    } else if starts_with(rest, list[from]) && starts_with(list[from], rest.take(3)) {
        Some(from as u8)
    } else {
        joined_word_from(list, rest, from + 1)
    }
}

proof fn lemma_joined_word_from(list: Seq<Seq<char>>, rest: Seq<char>, from: int)
    requires
        list.len() <= 256,
    ensures
        joined_word_from(list, rest, from) matches Some(k) ==> 0 <= k < list.len() && starts_with(
            rest,
            list[k as int],
        ) && starts_with(list[k as int], rest.take(3)),
    decreases list.len() - from,
{
    if 0 <= from < list.len() && !(starts_with(rest, list[from]) && starts_with(list[from], rest.take(3))) {
        lemma_joined_word_from(list, rest, from + 1);
    }
}

/// Two whole words written with nothing between them, read from `rest` with the bytes
/// `acc` already read.
pub open spec fn joined_words_spec(list: Seq<Seq<char>>, rest: Seq<char>, acc: Seq<u8>) -> Option<u16>
    decreases 2 - acc.len(),
{
    if rest.len() == 0 {
        if acc.len() == 2 { Some(from_bytes(acc[0], acc[1])) } else { None }
    } else if acc.len() >= 2 || rest.len() < 3 {
        None
    } else {
        match joined_word_from(list, rest, 0) {
            None => None,
            Some(k) => joined_words_spec(list, rest.skip(list[k as int].len() as int), acc.push(k)),
        }
    }
}

fn first_joined_word(list: &WordList, joined: &[char], pos: usize, head: &[char]) -> (r: Option<u8>)
    requires
        list.wf(),
        pos + 3 <= joined@.len(),
        head@ == joined@.skip(pos as int).take(3),
    ensures
        r == joined_word_from(list.view(), joined@.skip(pos as int), 0),
{
    let ghost rest = joined@.skip(pos as int);
    let mut k: usize = 0;
    while k < list.words.len()
        invariant
            list.wf(),
            k <= 256,
            pos + 3 <= joined@.len(),
            rest == joined@.skip(pos as int),
            head@ == rest.take(3),
            joined_word_from(list.view(), rest, 0) == joined_word_from(list.view(), rest, k as int),
        decreases list.words.len() - k,
    {
        let w = chars_of(list.words[k].as_str());
        assert(w@ == list.view()[k as int]);
        let whole = crate::text::occurs_at_exec(joined, w.as_slice(), pos);
        assert(whole == starts_with(rest, w@)) by {
            if whole || starts_with(rest, w@) {
                assert(rest.take(w@.len() as int) =~= joined@.subrange(pos as int, pos + w@.len()));
            }
        }
        if whole && starts_with_exec(w.as_slice(), head) {
            return Some(k as u8);
        }
        k = k + 1;
    }
    None
}

fn joined_words(list: &WordList, joined: &[char]) -> (r: Option<u16>)
    requires
        list.wf(),
    ensures
        r == joined_words_spec(list.view(), joined@, Seq::empty()),
{
    let mut pos: usize = 0;
    let mut acc: Vec<u8> = Vec::new();
    assert(joined@.skip(0) =~= joined@);
    loop
        invariant
            list.wf(),
            pos <= joined@.len(),
            acc@.len() <= 2,
            joined_words_spec(list.view(), joined@.skip(pos as int), acc@) == joined_words_spec(
                list.view(),
                joined@,
                Seq::empty(),
            ),
        decreases 2 - acc@.len(),
    {
        let ghost rest = joined@.skip(pos as int);
        if pos == joined.len() {
            assert(rest.len() == 0);
            if acc.len() == 2 {
                return Some((acc[0] as u16) * 256 + (acc[1] as u16));
            }
            return None;
        }
        if acc.len() >= 2 || joined.len() - pos < 3 {
            return None;
        }
        let head = crate::text::slice_chars(joined, pos, pos + 3);
        assert(head@ =~= rest.take(3));
        let found = first_joined_word(list, joined, pos, head.as_slice());
        match found {
            None => {
                return None;
            },
            Some(k) => {
                proof {
                    lemma_joined_word_from(list.view(), rest, 0);
                }
                let w = chars_of(list.words[k as usize].as_str());
                assert(w@ == list.view()[k as int]);
                let len = w.len();
                assert(rest.skip(len as int) =~= joined@.skip((pos + len) as int));
                pos = pos + len;
                acc.push(k);
            },
        }
    }
}

/// The spellings accepted for each glyph when a person types its label: the label with
/// its case, spaces and punctuation removed, and for the two-word labels the one word a
/// person says when reading the pad aloud. Entry `j` of the list: the glyph and the
/// spelling.
pub open spec fn spelling(j: int) -> (u8, Seq<char>) {
    if j == 0 {
        (0, "unicorn"@)
    } else if j == 1 {
        (1, "headphones"@)
    } else if j == 2 {
        (2, "pizza"@)
    } else if j == 3 {
        (3, "ufo"@)
    } else if j == 4 {
        (4, "guitar"@)
    } else if j == 5 {
        (5, "mushroom"@)
    } else if j == 6 {
        (6, "diamond"@)
    } else if j == 7 {
        (7, "fox"@)
    } else if j == 8 {
        (8, "lightning"@)
    } else if j == 9 {
        (9, "hotpepper"@)
    } else if j == 10 {
        (9, "pepper"@)
    } else if j == 11 {
        (10, "flamingo"@)
    } else if j == 12 {
        (11, "artistpalette"@)
    } else if j == 13 {
        (11, "palette"@)
    } else if j == 14 {
        (12, "pineapple"@)
    } else if j == 15 {
        (13, "mapleleaf"@)
    } else if j == 16 {
        (13, "maple"@)
    } else if j == 17 {
        (13, "leaf"@)
    } else if j == 18 {
        (14, "gamedie"@)
    } else if j == 19 {
        (14, "die"@)
    } else {
        (15, "strawberry"@)
    }
}

/// The number of spellings.
pub open spec fn spellings_len() -> int {
    21
}

/// Entry `j` of the spellings a typed label may take: the glyph it names and the spelling,
/// or `None` past the last.
pub fn label_spelling(j: usize) -> (r: Option<(u8, String)>)
    ensures
        match r {
            Some((g, t)) => j < spellings_len() && g == spelling(j as int).0 && t@ == spelling(j as int).1,
            None => j >= spellings_len(),
        },
{
    if j < 21 {
        let (g, t) = spelling_exec(j);
        Some((g, string_of(t.as_slice())))
    } else {
        None
    }
}

fn spelling_exec(j: usize) -> (r: (u8, Vec<char>))
    requires
        j < 21,
    ensures
        r.0 == spelling(j as int).0,
        r.1@ == spelling(j as int).1,
{
    if j == 0 {
        (0, chars_of("unicorn"))
    } else if j == 1 {
        (1, chars_of("headphones"))
    } else if j == 2 {
        (2, chars_of("pizza"))
    } else if j == 3 {
        (3, chars_of("ufo"))
    } else if j == 4 {
        (4, chars_of("guitar"))
    } else if j == 5 {
        (5, chars_of("mushroom"))
    } else if j == 6 {
        (6, chars_of("diamond"))
    } else if j == 7 {
        (7, chars_of("fox"))
    } else if j == 8 {
        (8, chars_of("lightning"))
    } else if j == 9 {
        (9, chars_of("hotpepper"))
    } else if j == 10 {
        (9, chars_of("pepper"))
    } else if j == 11 {
        (10, chars_of("flamingo"))
    } else if j == 12 {
        (11, chars_of("artistpalette"))
    } else if j == 13 {
        (11, chars_of("palette"))
    } else if j == 14 {
        (12, chars_of("pineapple"))
    } else if j == 15 {
        (13, chars_of("mapleleaf"))
    } else if j == 16 {
        (13, chars_of("maple"))
    } else if j == 17 {
        (13, chars_of("leaf"))
    } else if j == 18 {
        (14, chars_of("gamedie"))
    } else if j == 19 {
        (14, chars_of("die"))
    } else {
        (15, chars_of("strawberry"))
    }
}

/// The longest spelling that `rest` begins with, among entries `j..` and the best `best`
/// found before them; of equally long ones the later is kept.
pub open spec fn longest_label_from(rest: Seq<char>, j: int, best: Option<(u8, nat)>) -> Option<
    (u8, nat),
>
    decreases 21 - j,
{
    if j >= 21 || j < 0 {
        best
    } else {
        let (g, s) = spelling(j);
        let next = if starts_with(rest, s) && (match best {
            None => true,
            Some((_, n)) => s.len() >= n,
        }) {
            Some((g, s.len()))
        } else {
            best
        };
        longest_label_from(rest, j + 1, next)
    }
}

/// Four labels, in any of their accepted spellings, written with nothing between them,
/// read from `rest` with the nibbles `acc` already read.
pub open spec fn joined_labels_spec(rest: Seq<char>, acc: Seq<u8>) -> Option<u16>
    decreases 4 - acc.len(),
{
    if rest.len() == 0 {
        if acc.len() == 4 { Some(from_nibbles(acc)) } else { None }
    } else if acc.len() >= 4 {
        None
    } else {
        match longest_label_from(rest, 0, None) {
            None => None,
            Some((g, n)) => joined_labels_spec(rest.skip(n as int), acc.push(g)),
        }
    }
}

fn joined_labels(joined: &[char]) -> (r: Option<u16>)
    ensures
        r == joined_labels_spec(joined@, Seq::empty()),
{
    let mut pos: usize = 0;
    let mut acc: Vec<u8> = Vec::new();
    assert(joined@.skip(0) =~= joined@);
    loop
        invariant
            pos <= joined@.len(),
            acc@.len() <= 4,
            forall|k: int| 0 <= k < acc@.len() ==> #[trigger] acc@[k] < 16,
            joined_labels_spec(joined@.skip(pos as int), acc@) == joined_labels_spec(
                joined@,
                Seq::empty(),
            ),
        decreases 4 - acc@.len(),
    {
        let ghost rest = joined@.skip(pos as int);
        if pos == joined.len() {
            assert(rest.len() == 0);
            if acc.len() == 4 {
                return Some((acc[0] as u16) * 4096 + (acc[1] as u16) * 256 + (acc[2] as u16) * 16
                    + (acc[3] as u16));
            }
            return None;
        }
        if acc.len() >= 4 {
            return None;
        }
        let mut best: Option<(u8, usize)> = None;
        let mut j: usize = 0;
        while j < 21
            invariant
                j <= 21,
                pos < joined@.len(),
                rest == joined@.skip(pos as int),
                longest_label_from(rest, 0, None) == longest_label_from(rest, j as int, match best {
                    Some((g, n)) => Some((g, n as nat)),
                    None => None,
                }),
                match best {
                    Some((g, n)) => g < 16 && pos + n <= joined@.len(),
                    None => true,
                },
            decreases 21 - j,
        {
            let (g, s) = spelling_exec(j);
            let matches = crate::text::occurs_at_exec(joined, s.as_slice(), pos);
            assert(matches == starts_with(rest, s@)) by {
                if matches || starts_with(rest, s@) {
                    assert(rest.take(s@.len() as int) =~= joined@.subrange(pos as int, pos + s@.len()));
                }
            }
            let longer = match best {
                None => true,
                Some((_, n)) => s.len() >= n,
            };
            if matches && longer {
                best = Some((g, s.len()));
            }
            j = j + 1;
        }
        match best {
            None => {
                return None;
            },
            Some((g, n)) => {
                assert(rest.skip(n as int) =~= joined@.skip((pos + n) as int));
                pos = pos + n;
                acc.push(g);
            },
        }
    }
}

/// The code typed text stands for, or why it stands for none.
pub open spec fn parse_spec(text: Seq<char>, list: Seq<Seq<char>>) -> Result<u16, CodeError> {
    let (glyphs, _, _) = scan(text);
    let tokens = final_tokens(text);
    if glyphs.len() > 0 {
        if glyphs.len() == 4 && tokens.len() == 0 {
            Ok(from_nibbles(glyphs))
        } else {
            Err(CodeError::Unrecognized)
        }
    } else if tokens.len() == 0 {
        Err(CodeError::Empty)
    } else if tokens.len() == 2 && word_index_spec(list, tokens[0]) is Some && word_index_spec(
        list,
        tokens[1],
    ) is Some {
        Ok(from_bytes(word_index_spec(list, tokens[0])->0, word_index_spec(list, tokens[1])->0))
    } else {
        match joined_words_spec(list, concat(tokens), Seq::empty()) {
            Some(v) => Ok(v),
            None => match joined_labels_spec(concat(tokens), Seq::empty()) {
                Some(v) => Ok(v),
                None => Err(CodeError::Unrecognized),
            },
        }
    }
}


proof fn lemma_glyph_index_of_first(i: int, from: int)
    requires
        0 <= from <= i < 16,
    ensures
        glyph_index_from(glyph_first(i), from) == Some(i as u8),
    decreases i - from,
{
    if from < i {
        assert(glyph_first(from) != glyph_first(i));
        lemma_glyph_index_of_first(i, from + 1);
    }
}

proof fn lemma_selector_is_no_glyph(from: int)
    requires
        0 <= from <= 16,
    ensures
        glyph_index_from('\u{FE0F}', from) is None,
    decreases 16 - from,
{
    if from < 16 {
        lemma_selector_is_no_glyph(from + 1);
    }
}

/// Reading one more glyph after a separator adds its index and nothing else.
proof fn lemma_scan_glyph(s: Seq<char>, i: int)
    requires
        0 <= i < 16,
        scan(s).2.len() == 0,
    ensures
        scan(s + glyph_chars(i)) == (scan(s).0.push(i as u8), scan(s).1, Seq::<char>::empty()),
{
    let c = glyph_first(i);
    lemma_glyph_index_of_first(i, 0);
    let s1 = s.push(c);
    assert(s1.drop_last() =~= s);
    assert(!is_ascii_alpha(c));
    assert(glyph_index(c) == Some(i as u8));
    assert(scan(s1) == (scan(s).0.push(i as u8), scan(s).1, Seq::<char>::empty()));
    if i == 8 || i == 9 {
        let s2 = s1.push('\u{FE0F}');
        assert(s2.drop_last() =~= s1);
        lemma_selector_is_no_glyph(0);
        assert(!is_ascii_alpha('\u{FE0F}'));
        assert(glyph_index('\u{FE0F}') is None);
        assert(scan(s2) == scan(s1));
        assert(s + glyph_chars(i) =~= s2);
    } else {
        assert(s + glyph_chars(i) =~= s1);
    }
}

/// The text of the four glyphs of `v`, most significant nibble first.
pub open spec fn glyph_text(v: u16) -> Seq<char> {
    glyph_spec(nibble(v, 0)).glyph@ + glyph_spec(nibble(v, 1)).glyph@ + glyph_spec(nibble(v, 2)).glyph@
        + glyph_spec(nibble(v, 3)).glyph@
}

/// The four glyphs of a code, written one after the other, read back as that code,
/// whatever the word list.
pub proof fn lemma_glyphs_parse_back(v: u16, list: Seq<Seq<char>>)
    ensures
        parse_spec(glyph_text(v), list) == Ok::<u16, CodeError>(v),
{
    let n0 = nibble(v, 0);
    let n1 = nibble(v, 1);
    let n2 = nibble(v, 2);
    let n3 = nibble(v, 3);
    assert(0 <= n0 < 16 && 0 <= n1 < 16 && 0 <= n2 < 16 && 0 <= n3 < 16);
    lemma_glyph_chars(n0);
    lemma_glyph_chars(n1);
    lemma_glyph_chars(n2);
    lemma_glyph_chars(n3);
    let e = Seq::<char>::empty();
    assert(scan(e) == (Seq::<u8>::empty(), Seq::<Seq<char>>::empty(), e));
    lemma_scan_glyph(e, n0);
    assert(e + glyph_chars(n0) =~= glyph_chars(n0));
    let a = glyph_chars(n0);
    lemma_scan_glyph(a, n1);
    let b = a + glyph_chars(n1);
    lemma_scan_glyph(b, n2);
    let c = b + glyph_chars(n2);
    lemma_scan_glyph(c, n3);
    let d = c + glyph_chars(n3);
    assert(d =~= glyph_text(v));
    let g = scan(d).0;
    assert(g =~= seq![n0 as u8, n1 as u8, n2 as u8, n3 as u8]);
    assert(scan(d).1.len() == 0);
    assert(final_tokens(d).len() == 0);
    assert(n0 * 4096 + n1 * 256 + n2 * 16 + n3 == v) by (nonlinear_arith)
        requires
            n0 == v / 4096,
            n1 == (v / 256) % 16,
            n2 == (v / 16) % 16,
            n3 == v % 16,
            0 <= v < 65536,
    ;
}

/// A list a code's words can be read back from: 256 words of four to six lower-case
/// ASCII letters, no two sharing their first three.
pub open spec fn valid_words(list: Seq<Seq<char>>) -> bool {
    &&& list.len() == 256
    &&& forall|k: int| 0 <= k < 256 ==> 4 <= #[trigger] list[k].len() <= 6 && all_lower_alpha(list[k])
    &&& forall|j: int, k: int| 0 <= j < 256 && 0 <= k < 256 && j != k ==> #[trigger] list[j].take(3)
        != #[trigger] list[k].take(3)
}

/// Reading lower-case letters extends the token in progress and nothing else.
proof fn lemma_scan_letters(s: Seq<char>, w: Seq<char>)
    requires
        all_lower_alpha(w),
    ensures
        scan(s + w) == (scan(s).0, scan(s).1, scan(s).2 + w),
    decreases w.len(),
{
    if w.len() == 0 {
        assert(s + w =~= s);
        assert(scan(s).2 + w =~= scan(s).2);
    } else {
        lemma_scan_letters(s, w.drop_last());
        assert((s + w).drop_last() =~= s + w.drop_last());
        let c = w.last();
        assert('a' <= c <= 'z');
        assert(lower(c) == c);
        assert((scan(s).2 + w.drop_last()).push(c) =~= scan(s).2 + w);
    }
}

proof fn lemma_word_from_first(list: Seq<Seq<char>>, i: int, from: int)
    requires
        valid_words(list),
        0 <= from <= i < 256,
    ensures
        word_from(list, list[i], from) == Some(i as u8),
    decreases i - from,
{
    if from < i {
        if starts_with(list[from], list[i]) {
            assert(list[from].take(3) =~= list[i].take(3)) by {
                assert forall|k: int| 0 <= k < 3 implies list[from].take(3)[k] == list[i].take(3)[k] by {
                    assert(list[from][k] == list[i][k]);
                }
            }
            assert(false);
        }
        lemma_word_from_first(list, i, from + 1);
    } else {
        assert(starts_with(list[i], list[i])) by {
            assert(list[i].take(list[i].len() as int) =~= list[i]);
        }
    }
}

/// The two words of a code with a space between them, as the node shows them.
pub open spec fn word_text(v: u16, list: Seq<Seq<char>>) -> Seq<char> {
    list[(v / 256) as int] + seq![' '] + list[(v % 256) as int]
}

/// The two words of a code, read back as that code, from any valid list.
pub proof fn lemma_words_parse_back(v: u16, list: Seq<Seq<char>>)
    requires
        valid_words(list),
    ensures
        parse_spec(word_text(v, list), list) == Ok::<u16, CodeError>(v),
{
    let hi = (v / 256) as int;
    let lo = (v % 256) as int;
    let wh = list[hi];
    let wl = list[lo];
    let e = Seq::<char>::empty();
    assert(scan(e) == (Seq::<u8>::empty(), Seq::<Seq<char>>::empty(), e));
    lemma_scan_letters(e, wh);
    assert(e + wh =~= wh);
    let s1 = wh.push(' ');
    assert(s1.drop_last() =~= wh);
    assert(!is_ascii_alpha(' '));
    lemma_glyph_none_space(0);
    assert(scan(s1) == (Seq::<u8>::empty(), seq![wh], e)) by {
        assert(e + wh =~= wh);
        assert(Seq::<Seq<char>>::empty().push(wh) =~= seq![wh]);
    }
    lemma_scan_letters(s1, wl);
    assert(s1 + wl =~= word_text(v, list));
    let t = word_text(v, list);
    assert(e + wl =~= wl);
    assert(final_tokens(t) =~= seq![wh, wl]);
    lemma_word_from_first(list, hi, 0);
    lemma_word_from_first(list, lo, 0);
    assert(hi * 256 + lo == v);
}

proof fn lemma_glyph_none_space(from: int)
    requires
        0 <= from <= 16,
    ensures
        glyph_index_from(' ', from) is None,
    decreases 16 - from,
{
    if from < 16 {
        lemma_glyph_none_space(from + 1);
    }
}

/// Reading a character that is neither a letter nor the start of a glyph closes the
/// token in progress and adds no glyph.
proof fn lemma_scan_separator(s: Seq<char>, c: char)
    requires
        !is_ascii_alpha(c),
        glyph_index(c) is None,
    ensures
        scan(s.push(c)) == (scan(s).0, if scan(s).2.len() > 0 { scan(s).1.push(scan(s).2) } else { scan(s).1 }, Seq::<char>::empty()),
{
    assert(s.push(c).drop_last() =~= s);
}

/// Text with no letter and no glyph leaves nothing read.
proof fn lemma_scan_blank(text: Seq<char>)
    requires
        forall|i: int| 0 <= i < text.len() ==> !is_ascii_alpha(#[trigger] text[i]) && glyph_index(text[i]) is None,
    ensures
        scan(text) == (Seq::<u8>::empty(), Seq::<Seq<char>>::empty(), Seq::<char>::empty()),
    decreases text.len(),
{
    if text.len() > 0 {
        let c = text.last();
        assert(!is_ascii_alpha(text[text.len() - 1]));
        lemma_scan_blank(text.drop_last());
        lemma_scan_separator(text.drop_last(), c);
        assert(text.drop_last().push(c) =~= text);
    }
}

/// Text that holds neither a letter nor a glyph (nothing at all, or only spaces and
/// punctuation) is empty, whatever the word list.
pub proof fn lemma_blank_is_empty(text: Seq<char>, list: Seq<Seq<char>>)
    requires
        forall|i: int| 0 <= i < text.len() ==> !is_ascii_alpha(#[trigger] text[i]) && glyph_index(text[i]) is None,
    ensures
        parse_spec(text, list) == Err::<u16, CodeError>(CodeError::Empty),
{
    lemma_scan_blank(text);
}

/// Reading ASCII letters extends the token in progress by the same letters, lowered.
proof fn lemma_scan_alpha(s: Seq<char>, w: Seq<char>)
    requires
        forall|i: int| 0 <= i < w.len() ==> is_ascii_alpha(#[trigger] w[i]),
    ensures
        scan(s + w) == (scan(s).0, scan(s).1, scan(s).2 + lowered(w)),
    decreases w.len(),
{
    if w.len() == 0 {
        assert(s + w =~= s);
        assert(scan(s).2 + lowered(w) =~= scan(s).2);
    } else {
        let c = w.last();
        assert(is_ascii_alpha(w[w.len() - 1]));
        lemma_scan_alpha(s, w.drop_last());
        assert((s + w).drop_last() =~= s + w.drop_last());
        assert(lowered(w.drop_last()) =~= lowered(w).drop_last());
        assert((scan(s).2 + lowered(w.drop_last())).push(lower(c)) =~= scan(s).2 + lowered(w));
    }
}

/// A word in capitals is all letters, and lowers back to the word.
proof fn lemma_uppered_word(w: Seq<char>)
    requires
        all_lower_alpha(w),
    ensures
        forall|i: int| 0 <= i < uppered(w).len() ==> is_ascii_alpha(#[trigger] uppered(w)[i]),
        lowered(uppered(w)) == w,
{
    assert forall|i: int| 0 <= i < uppered(w).len() implies is_ascii_alpha(#[trigger] uppered(w)[i]) && lower(uppered(w)[i]) == w[i] by {
        let c = w[i];
        assert('a' <= c <= 'z');
        let u = ((c as u32) - 32) as char;
        assert(uppered(w)[i] == u);
        assert('A' <= u <= 'Z');
    }
    assert(lowered(uppered(w)) =~= w);
}

/// The two words of a code in capitals with a hyphen between them, as a person may
/// copy them from a printed page.
pub open spec fn shouted_word_text(v: u16, list: Seq<Seq<char>>) -> Seq<char> {
    uppered(list[(v / 256) as int]) + seq!['-'] + uppered(list[(v % 256) as int])
}

/// The two words of a code, in capitals and joined by a hyphen, read back as that code,
/// from any valid list.
pub proof fn lemma_shouted_words_parse_back(v: u16, list: Seq<Seq<char>>)
    requires
        valid_words(list),
    ensures
        parse_spec(shouted_word_text(v, list), list) == Ok::<u16, CodeError>(v),
{
    let hi = (v / 256) as int;
    let lo = (v % 256) as int;
    let wh = list[hi];
    let wl = list[lo];
    lemma_uppered_word(wh);
    lemma_uppered_word(wl);
    let uh = uppered(wh);
    let ul = uppered(wl);
    let e = Seq::<char>::empty();
    assert(scan(e) == (Seq::<u8>::empty(), Seq::<Seq<char>>::empty(), e));
    lemma_scan_alpha(e, uh);
    assert(e + uh =~= uh);
    assert(e + wh =~= wh);
    lemma_glyph_none_sep('-', 0);
    lemma_scan_separator(uh, '-');
    let s1 = uh.push('-');
    assert(scan(s1) == (Seq::<u8>::empty(), seq![wh], e)) by {
        assert(Seq::<Seq<char>>::empty().push(wh) =~= seq![wh]);
    }
    lemma_scan_alpha(s1, ul);
    assert(s1 + ul =~= shouted_word_text(v, list));
    assert(e + wl =~= wl);
    assert(final_tokens(shouted_word_text(v, list)) =~= seq![wh, wl]);
    lemma_word_from_first(list, hi, 0);
    lemma_word_from_first(list, lo, 0);
    assert(hi * 256 + lo == v);
}

proof fn lemma_glyph_none_sep(c: char, from: int)
    requires
        c == ' ' || c == '-',
        0 <= from <= 16,
    ensures
        glyph_index_from(c, from) is None,
    decreases 16 - from,
{
    if from < 16 {
        lemma_glyph_none_sep(c, from + 1);
    }
}

/// The letters of `u`, lowered, in order: what is left of typed text once everything
/// that separates its tokens is dropped.
pub open spec fn letters(u: Seq<char>) -> Seq<char>
    decreases u.len(),
{
    if u.len() == 0 {
        Seq::empty()
    } else if is_ascii_alpha(u.last()) {
        letters(u.drop_last()).push(lower(u.last()))
    } else {
        letters(u.drop_last())
    }
}

/// Every character of `u` is an ASCII letter or a space.
pub open spec fn words_only(u: Seq<char>) -> bool
    decreases u.len(),
{
    u.len() == 0 || (words_only(u.drop_last()) && (is_ascii_alpha(u.last()) || u.last() == ' '))
}

/// Reading words separated by spaces adds no glyph, appends their letters to what the
/// tokens hold, and adds a token for each word.
proof fn lemma_scan_words(s: Seq<char>, u: Seq<char>)
    requires
        words_only(u),
    ensures
        scan(s + u).0 == scan(s).0,
        concat(scan(s + u).1) + scan(s + u).2 == concat(scan(s).1) + scan(s).2 + letters(u),
        scan(s + u).1.len() >= scan(s).1.len(),
        scan(s + u).1.len() + (if scan(s + u).2.len() > 0 { 1int } else { 0 }) >= scan(s).1.len() + (
        if scan(s).2.len() > 0 || letters(u).len() > 0 { 1int } else { 0 }),
        u.len() > 0 && u.last() == ' ' ==> scan(s + u).2.len() == 0,
    decreases u.len(),
{
    if u.len() == 0 {
        assert(s + u =~= s);
        assert(concat(scan(s).1) + scan(s).2 + letters(u) =~= concat(scan(s).1) + scan(s).2);
    } else {
        let p = u.drop_last();
        let c = u.last();
        lemma_scan_words(s, p);
        assert((s + u).drop_last() =~= s + p);
        let x = scan(s + p);
        if is_ascii_alpha(c) {
            assert(concat(x.1) + x.2.push(lower(c)) =~= (concat(x.1) + x.2).push(lower(c)));
            assert((concat(scan(s).1) + scan(s).2 + letters(p)).push(lower(c)) =~= concat(scan(s).1)
                + scan(s).2 + letters(u));
        } else {
            assert(c == ' ');
            lemma_glyph_none_sep(' ', 0);
            if x.2.len() > 0 {
                assert(x.1.push(x.2).drop_last() =~= x.1);
                assert(concat(x.1.push(x.2)) + Seq::<char>::empty() =~= concat(x.1) + x.2);
            } else {
                assert(concat(x.1) + Seq::<char>::empty() =~= concat(x.1) + x.2);
            }
        }
    }
}

/// The spelling entry that is a glyph's whole label.
pub open spec fn full_spelling(n: int) -> int {
    if n <= 9 {
        n
    } else if n == 10 {
        11
    } else if n == 11 {
        12
    } else if n == 12 {
        14
    } else if n == 13 {
        15
    } else if n == 14 {
        18
    } else {
        20
    }
}

/// Each label is words separated by spaces, and its letters are the glyph's whole
/// spelling.
#[verifier::spinoff_prover]
#[verifier::rlimit(60)]
proof fn lemma_label_letters(n: int)
    requires
        0 <= n < 16,
    ensures
        0 <= full_spelling(n) < 21,
        spelling(full_spelling(n)).0 == n,
        words_only(glyph_spec(n).label@),
        letters(glyph_spec(n).label@) == spelling(full_spelling(n)).1,
        spelling(full_spelling(n)).1.len() >= 3,
{
    if n == 0 {
        assert(words_only("Unicorn"@) && letters("Unicorn"@) == "unicorn"@) by {
            reveal_with_fuel(letters, 8);
            reveal_with_fuel(words_only, 8);
            reveal_strlit("Unicorn");
            reveal_strlit("unicorn");
        }
        reveal_strlit("unicorn");
    } else if n == 1 {
        assert(words_only("Headphones"@) && letters("Headphones"@) == "headphones"@) by {
            reveal_with_fuel(letters, 11);
            reveal_with_fuel(words_only, 11);
            reveal_strlit("Headphones");
            reveal_strlit("headphones");
        }
        reveal_strlit("headphones");
    } else if n == 2 {
        assert(words_only("Pizza"@) && letters("Pizza"@) == "pizza"@) by {
            reveal_with_fuel(letters, 6);
            reveal_with_fuel(words_only, 6);
            reveal_strlit("Pizza");
            reveal_strlit("pizza");
        }
        reveal_strlit("pizza");
    } else if n == 3 {
        assert(words_only("UFO"@) && letters("UFO"@) == "ufo"@) by {
            reveal_with_fuel(letters, 4);
            reveal_with_fuel(words_only, 4);
            reveal_strlit("UFO");
            reveal_strlit("ufo");
        }
        reveal_strlit("ufo");
    } else if n == 4 {
        assert(words_only("Guitar"@) && letters("Guitar"@) == "guitar"@) by {
            reveal_with_fuel(letters, 7);
            reveal_with_fuel(words_only, 7);
            reveal_strlit("Guitar");
            reveal_strlit("guitar");
        }
        reveal_strlit("guitar");
    } else if n == 5 {
        assert(words_only("Mushroom"@) && letters("Mushroom"@) == "mushroom"@) by {
            reveal_with_fuel(letters, 9);
            reveal_with_fuel(words_only, 9);
            reveal_strlit("Mushroom");
            reveal_strlit("mushroom");
        }
        reveal_strlit("mushroom");
    } else if n == 6 {
        assert(words_only("Diamond"@) && letters("Diamond"@) == "diamond"@) by {
            reveal_with_fuel(letters, 8);
            reveal_with_fuel(words_only, 8);
            reveal_strlit("Diamond");
            reveal_strlit("diamond");
        }
        reveal_strlit("diamond");
    } else if n == 7 {
        assert(words_only("Fox"@) && letters("Fox"@) == "fox"@) by {
            reveal_with_fuel(letters, 4);
            reveal_with_fuel(words_only, 4);
            reveal_strlit("Fox");
            reveal_strlit("fox");
        }
        reveal_strlit("fox");
    } else if n == 8 {
        assert(words_only("Lightning"@) && letters("Lightning"@) == "lightning"@) by {
            reveal_with_fuel(letters, 10);
            reveal_with_fuel(words_only, 10);
            reveal_strlit("Lightning");
            reveal_strlit("lightning");
        }
        reveal_strlit("lightning");
    } else if n == 9 {
        assert(words_only("Hot Pepper"@) && letters("Hot Pepper"@) == "hotpepper"@) by {
            reveal_with_fuel(letters, 11);
            reveal_with_fuel(words_only, 11);
            reveal_strlit("Hot Pepper");
            reveal_strlit("hotpepper");
        }
        reveal_strlit("hotpepper");
    } else if n == 10 {
        assert(words_only("Flamingo"@) && letters("Flamingo"@) == "flamingo"@) by {
            reveal_with_fuel(letters, 9);
            reveal_with_fuel(words_only, 9);
            reveal_strlit("Flamingo");
            reveal_strlit("flamingo");
        }
        reveal_strlit("flamingo");
    } else if n == 11 {
        assert(words_only("Artist Palette"@) && letters("Artist Palette"@) == "artistpalette"@) by {
            reveal_with_fuel(letters, 15);
            reveal_with_fuel(words_only, 15);
            reveal_strlit("Artist Palette");
            reveal_strlit("artistpalette");
        }
        reveal_strlit("artistpalette");
    } else if n == 12 {
        assert(words_only("Pineapple"@) && letters("Pineapple"@) == "pineapple"@) by {
            reveal_with_fuel(letters, 10);
            reveal_with_fuel(words_only, 10);
            reveal_strlit("Pineapple");
            reveal_strlit("pineapple");
        }
        reveal_strlit("pineapple");
    } else if n == 13 {
        assert(words_only("Maple Leaf"@) && letters("Maple Leaf"@) == "mapleleaf"@) by {
            reveal_with_fuel(letters, 11);
            reveal_with_fuel(words_only, 11);
            reveal_strlit("Maple Leaf");
            reveal_strlit("mapleleaf");
        }
        reveal_strlit("mapleleaf");
    } else if n == 14 {
        assert(words_only("Game Die"@) && letters("Game Die"@) == "gamedie"@) by {
            reveal_with_fuel(letters, 9);
            reveal_with_fuel(words_only, 9);
            reveal_strlit("Game Die");
            reveal_strlit("gamedie");
        }
        reveal_strlit("gamedie");
    } else {
        assert(words_only("Strawberry"@) && letters("Strawberry"@) == "strawberry"@) by {
            reveal_with_fuel(letters, 11);
            reveal_with_fuel(words_only, 11);
            reveal_strlit("Strawberry");
            reveal_strlit("strawberry");
        }
        reveal_strlit("strawberry");
    }
}

proof fn lemma_differ_at(t: Seq<char>, s: Seq<char>, i: int)
    requires
        0 <= i < s.len(),
        s.len() <= t.len(),
        t[i] != s[i],
    ensures
        !starts_with(t, s),
{
    if starts_with(t, s) {
        assert(t.subrange(0, s.len() as int)[i] == t[i]);
    }
}

/// No other spelling begins with a glyph's whole spelling and is as long.
proof fn lemma_spelling_unshadowed(n: int)
    requires
        0 <= n < 16,
    ensures
        forall|k: int|
            0 <= k < 21 && k != full_spelling(n) ==> spelling(k).1.len() < spelling(full_spelling(n)).1.len()
                || !starts_with(spelling(k).1, spelling(full_spelling(n)).1),
{
    reveal_strlit("unicorn");
    reveal_strlit("headphones");
    reveal_strlit("pizza");
    reveal_strlit("ufo");
    reveal_strlit("guitar");
    reveal_strlit("mushroom");
    reveal_strlit("diamond");
    reveal_strlit("fox");
    reveal_strlit("lightning");
    reveal_strlit("hotpepper");
    reveal_strlit("pepper");
    reveal_strlit("flamingo");
    reveal_strlit("artistpalette");
    reveal_strlit("palette");
    reveal_strlit("pineapple");
    reveal_strlit("mapleleaf");
    reveal_strlit("maple");
    reveal_strlit("leaf");
    reveal_strlit("gamedie");
    reveal_strlit("die");
    reveal_strlit("strawberry");
    let s = spelling(full_spelling(n)).1;
    assert forall|k: int| 0 <= k < 21 && k != full_spelling(n) implies spelling(k).1.len() < s.len()
        || !starts_with(spelling(k).1, s) by {
        let t = spelling(k).1;
        if t.len() >= s.len() {
            if t[0] != s[0] {
                lemma_differ_at(t, s, 0);
            } else if t[1] != s[1] {
                lemma_differ_at(t, s, 1);
            } else {
                lemma_differ_at(t, s, 2);
            }
        }
    }
}

/// Where no other spelling begins with entry `jf`'s spelling `sp` and is as long, the
/// longest spelling that `sp + r` begins with is `sp`, whatever follows it.
proof fn lemma_longest_is(sp: Seq<char>, g: u8, jf: int, r: Seq<char>, j: int, best: Option<(u8, nat)>)
    requires
        0 <= jf < 21,
        spelling(jf) == (g, sp),
        0 <= j <= 21,
        forall|k: int| 0 <= k < 21 && k != jf ==> spelling(k).1.len() < sp.len() || !starts_with(spelling(k).1, sp),
        j <= jf ==> (best matches Some((_, m)) ==> m < sp.len()),
        j > jf ==> best == Some((g, sp.len())),
    ensures
        longest_label_from(sp + r, j, best) == Some((g, sp.len())),
    decreases 21 - j,
{
    if j < 21 {
        let (gj, t) = spelling(j);
        let x = sp + r;
        if j == jf {
            assert(x.subrange(0, sp.len() as int) =~= sp);
        } else if starts_with(x, t) && t.len() >= sp.len() {
            assert(t.subrange(0, sp.len() as int) =~= sp) by {
                assert forall|i: int| 0 <= i < sp.len() implies t.subrange(0, sp.len() as int)[i] == sp[i] by {
                    assert(x.subrange(0, t.len() as int)[i] == x[i]);
                }
            }
            assert(starts_with(t, sp));
        }
        let next = if starts_with(x, t) && (match best {
            None => true,
            Some((_, m)) => t.len() >= m,
        }) {
            Some((gj, t.len()))
        } else {
            best
        };
        lemma_longest_is(sp, g, jf, r, j + 1, next);
    }
}

/// Text longer than two words can be is not read as two words joined, from a valid list.
pub proof fn lemma_long_text_is_no_two_words(list: Seq<Seq<char>>, rest: Seq<char>)
    requires
        valid_words(list),
        rest.len() > 12,
    ensures
        joined_words_spec(list, rest, Seq::empty()) is None,
{
    lemma_joined_word_from(list, rest, 0);
    if let Some(k) = joined_word_from(list, rest, 0) {
        assert(list[k as int].len() <= 6);
        let r1 = rest.skip(list[k as int].len() as int);
        let a1 = Seq::<u8>::empty().push(k);
        assert(joined_words_spec(list, rest, Seq::empty()) == joined_words_spec(list, r1, a1));
        assert(r1.len() > 6);
        lemma_joined_word_from(list, r1, 0);
        if let Some(k2) = joined_word_from(list, r1, 0) {
            assert(list[k2 as int].len() <= 6);
            let r2 = r1.skip(list[k2 as int].len() as int);
            assert(joined_words_spec(list, r1, a1) == joined_words_spec(list, r2, a1.push(k2)));
            assert(r2.len() > 0);
            assert(joined_words_spec(list, r2, a1.push(k2)) is None);
        }
    }
}

/// The labels of a code's four glyphs, as the pad shows them, with a space between each.
pub open spec fn label_text(v: u16) -> Seq<char> {
    glyph_spec(nibble(v, 0)).label@ + seq![' '] + glyph_spec(nibble(v, 1)).label@ + seq![' ']
        + glyph_spec(nibble(v, 2)).label@ + seq![' '] + glyph_spec(nibble(v, 3)).label@
}

/// The four labels of a code, separated by spaces, read back as that code, unless their
/// letters, run together, also read as two words of `list` (see
/// `lemma_long_text_is_no_two_words` for when they cannot).
pub proof fn lemma_labels_parse_back(v: u16, list: Seq<Seq<char>>)
    requires
        joined_words_spec(list, letters(label_text(v)), Seq::empty()) is None,
    ensures
        parse_spec(label_text(v), list) == Ok::<u16, CodeError>(v),
{
    let n0 = nibble(v, 0);
    let n1 = nibble(v, 1);
    let n2 = nibble(v, 2);
    let n3 = nibble(v, 3);
    assert(0 <= n0 < 16 && 0 <= n1 < 16 && 0 <= n2 < 16 && 0 <= n3 < 16);
    lemma_label_letters(n0);
    lemma_label_letters(n1);
    lemma_label_letters(n2);
    lemma_label_letters(n3);
    let l0 = glyph_spec(n0).label@;
    let l1 = glyph_spec(n1).label@;
    let l2 = glyph_spec(n2).label@;
    let l3 = glyph_spec(n3).label@;
    let sp0 = spelling(full_spelling(n0)).1;
    let sp1 = spelling(full_spelling(n1)).1;
    let sp2 = spelling(full_spelling(n2)).1;
    let sp3 = spelling(full_spelling(n3)).1;
    let p0 = l0.push(' ');
    let p1 = l1.push(' ');
    let p2 = l2.push(' ');
    assert(p0.drop_last() =~= l0);
    assert(p1.drop_last() =~= l1);
    assert(p2.drop_last() =~= l2);
    assert(words_only(p0) && letters(p0) == sp0);
    assert(words_only(p1) && letters(p1) == sp1);
    assert(words_only(p2) && letters(p2) == sp2);
    let e = Seq::<char>::empty();
    assert(scan(e) == (Seq::<u8>::empty(), Seq::<Seq<char>>::empty(), e));
    lemma_scan_words(e, p0);
    assert(e + p0 =~= p0);
    lemma_scan_words(p0, p1);
    let s2 = p0 + p1;
    lemma_scan_words(s2, p2);
    let s3 = s2 + p2;
    lemma_scan_words(s3, l3);
    let text = s3 + l3;
    assert(text =~= label_text(v));
    assert(concat(Seq::<Seq<char>>::empty()) + e + sp0 =~= sp0);
    let all = sp0 + sp1 + sp2 + sp3;
    assert(concat(scan(text).1) + scan(text).2 =~= all);
    let toks = final_tokens(text);
    assert(toks.len() >= 4);
    assert(concat(toks) =~= all) by {
        if scan(text).2.len() > 0 {
            assert(scan(text).1.push(scan(text).2).drop_last() =~= scan(text).1);
        } else {
            assert(concat(scan(text).1) + scan(text).2 =~= concat(scan(text).1));
        }
    }
    assert(letters(text) =~= all) by {
        lemma_letters_concat(s3, l3);
        lemma_letters_concat(s2, p2);
        lemma_letters_concat(p0, p1);
    }
    lemma_spelling_unshadowed(n0);
    lemma_spelling_unshadowed(n1);
    lemma_spelling_unshadowed(n2);
    lemma_spelling_unshadowed(n3);
    let r1 = sp1 + sp2 + sp3;
    let r2 = sp2 + sp3;
    lemma_longest_is(sp0, n0 as u8, full_spelling(n0), r1, 0, None);
    lemma_longest_is(sp1, n1 as u8, full_spelling(n1), r2, 0, None);
    lemma_longest_is(sp2, n2 as u8, full_spelling(n2), sp3, 0, None);
    lemma_longest_is(sp3, n3 as u8, full_spelling(n3), e, 0, None);
    assert(all =~= sp0 + r1);
    assert((sp0 + r1).skip(sp0.len() as int) =~= r1);
    assert(r1 =~= sp1 + r2);
    assert((sp1 + r2).skip(sp1.len() as int) =~= r2);
    assert((sp2 + sp3).skip(sp2.len() as int) =~= sp3);
    assert(sp3 + e =~= sp3);
    assert((sp3 + e).skip(sp3.len() as int) =~= e);
    let a1 = Seq::<u8>::empty().push(n0 as u8);
    let a2 = a1.push(n1 as u8);
    let a3 = a2.push(n2 as u8);
    let a4 = a3.push(n3 as u8);
    assert(joined_labels_spec(all, Seq::empty()) == joined_labels_spec(r1, a1));
    assert(joined_labels_spec(r1, a1) == joined_labels_spec(r2, a2));
    assert(joined_labels_spec(r2, a2) == joined_labels_spec(sp3, a3));
    assert(joined_labels_spec(sp3, a3) == joined_labels_spec(e, a4));
    assert(n0 * 4096 + n1 * 256 + n2 * 16 + n3 == v) by (nonlinear_arith)
        requires
            n0 == v / 4096,
            n1 == (v / 256) % 16,
            n2 == (v / 16) % 16,
            n3 == v % 16,
            0 <= v < 65536,
    ;
}

/// The letters of two texts together are the letters of each, in turn.
proof fn lemma_letters_concat(a: Seq<char>, b: Seq<char>)
    ensures
        letters(a + b) == letters(a) + letters(b),
    decreases b.len(),
{
    if b.len() == 0 {
        assert(a + b =~= a);
        assert(letters(a) + letters(b) =~= letters(a));
    } else {
        lemma_letters_concat(a, b.drop_last());
        assert((a + b).drop_last() =~= a + b.drop_last());
        assert((a + b).last() == b.last());
        if is_ascii_alpha(b.last()) {
            assert((letters(a) + letters(b.drop_last())).push(lower(b.last())) =~= letters(a) + letters(b));
        }
    }
}

} // verus!
