//! What makes a finding's `spec` field resolvable: a reference is `<path> §<section>` or a
//! bare `<path>`, the path a Markdown document under `spec/` or `docs/`, and the section a
//! numbered heading of it.

use vstd::prelude::*;
use crate::text::{
    chars_of, contains_char, ends_with, ends_with_exec, find_char_in_rest, index_of, is_ascii_alnum,
    is_ws, occurs_at, slice_chars, starts_with, starts_with_exec, string_of, trim, trim_start,
    trimmed,
};

verus! {

/// A parsed reference.
#[derive(Debug, Clone, PartialEq, Eq)]
pub struct SpecRef {
    /// `spec/cli.md`, repository-relative with forward slashes.
    pub path: String,
    /// `5.1`, when the reference names a section.
    pub section: Option<String>,
}

/// A reference as data.
pub struct SpecRefView {
    pub path: Seq<char>,
    pub section: Option<Seq<char>>,
}

impl View for SpecRef {
    type V = SpecRefView;

    open spec fn view(&self) -> SpecRefView {
        SpecRefView {
            path: self.path@,
            section: match self.section {
                Some(s) => Some(s@),
                None => None,
            },
        }
    }
}

/// A section number's characters: ASCII digits, dots and letters.
pub open spec fn section_char(c: char) -> bool {
    is_ascii_alnum(c) || c == '.'
}

/// A path a reference may name: under `spec/` or `docs/`, a `.md` file, no `..`.
pub open spec fn reference_path(path: Seq<char>) -> bool {
    &&& path.len() > 0
    &&& (starts_with(path, "spec/"@) || starts_with(path, "docs/"@))
    &&& ends_with(path, ".md"@)
    &&& index_of(path, seq!['.', '.'], 0) is None
}

/// The path half of a trimmed reference: before `§`, trimmed, or all of it.
pub open spec fn ref_path(t: Seq<char>) -> Seq<char> {
    match index_of(t, seq!['§'], 0) {
        Some(i) => trim(t.subrange(0, i)),
        None => t,
    }
}

/// The section half of a trimmed reference: after `§`, trimmed, if there is a `§`.
pub open spec fn ref_section(t: Seq<char>) -> Option<Seq<char>> {
    match index_of(t, seq!['§'], 0) {
        Some(i) => Some(trim(t.subrange(i + 1, t.len() as int))),
        None => None,
    }
}

/// A section number: non-empty, of digits, dots and ASCII letters.
pub open spec fn section_ok(s: Seq<char>) -> bool {
    s.len() > 0 && forall|i: int| 0 <= i < s.len() ==> section_char(#[trigger] s[i])
}

/// `spec/cli.md §5.1` or `docs/icons.md`, read.
pub open spec fn parsed_ref(text: Seq<char>) -> Option<SpecRefView> {
    let t = trim(text);
    let path = ref_path(t);
    let section = ref_section(t);
    if !reference_path(path) {
        None
    } else if section is Some && !section_ok(section->0) {
        None
    } else {
        Some(SpecRefView { path, section })
    }
}

fn all_section_chars(s: &[char]) -> (r: bool)
    ensures
        r == forall|i: int| 0 <= i < s@.len() ==> section_char(#[trigger] s@[i]),
{
    let mut i: usize = 0;
    while i < s.len()
        invariant
            i <= s@.len(),
            forall|j: int| 0 <= j < i ==> section_char(#[trigger] s@[j]),
        decreases s.len() - i,
    {
        let c = s[i];
        if !(('a' <= c && c <= 'z') || ('A' <= c && c <= 'Z') || ('0' <= c && c <= '9') || c
            == '.') {
            return false;
        }
        i = i + 1;
    }
    true
}

fn reference_path_exec(path: &[char]) -> (r: bool)
    ensures
        r == reference_path(path@),
{
    let spec_dir = chars_of("spec/");
    let docs_dir = chars_of("docs/");
    let md = chars_of(".md");
    let dots: Vec<char> = vec!['.', '.'];
    proof {
        assert(dots@ =~= seq!['.', '.']);
    }
    path.len() > 0 && (starts_with_exec(path, spec_dir.as_slice()) || starts_with_exec(
        path,
        docs_dir.as_slice(),
    )) && ends_with_exec(path, md.as_slice()) && crate::text::find(path, dots.as_slice(), 0).is_none()
}

/// Parse `spec/cli.md §5.1` or `docs/icons.md`.
pub fn parse(text: &str) -> (r: Option<SpecRef>)
    ensures
        match r {
            Some(s) => parsed_ref(text@) == Some(s@),
            None => parsed_ref(text@) is None,
        },
{
    let raw = chars_of(text);
    let t = trimmed(raw.as_slice());
    let mark = find_char_in_rest(t.as_slice(), '§', 0);
    proof {
        assert(t@.subrange(0, t@.len() as int) =~= t@);
    }
    let (path, section) = match mark {
        Some(i) => {
            let n = t.len();
            assert(i < n);
            let p = trimmed(slice_chars(t.as_slice(), 0, i).as_slice());
            let s = trimmed(slice_chars(t.as_slice(), i + 1, t.len()).as_slice());
            (p, Some(s))
        },
        None => (t, None),
    };
    proof {
        let tt = trim(text@);
        assert(t@ == tt);
        match mark {
            Some(i) => {
                assert(index_of(tt, seq!['§'], 0) == Some(i as int));
                assert(path@ == trim(tt.subrange(0, i as int)));
                assert(section matches Some(sv) && sv@ == trim(tt.subrange(i + 1, tt.len() as int)));
            },
            None => {
                assert(index_of(tt, seq!['§'], 0) is None);
                assert(section is None);
                assert(path@ == tt);
            },
        }
    }
    if !reference_path_exec(path.as_slice()) {
        return None;
    }
    match section {
        Some(s) => {
            if s.len() == 0 || !all_section_chars(s.as_slice()) {
                None
            } else {
                Some(SpecRef { path: string_of(path.as_slice()), section: Some(string_of(s.as_slice())) })
            }
        },
        None => Some(SpecRef { path: string_of(path.as_slice()), section: None }),
    }
}

/// The number of `#` a line begins with.
pub open spec fn hashes(s: Seq<char>) -> nat
    decreases s.len(),
{
    if s.len() > 0 && s[0] == '#' {
        1 + hashes(s.drop_first())
    } else {
        0
    }
}

/// The number of section characters `s` begins with.
pub open spec fn number_len(s: Seq<char>) -> nat
    decreases s.len(),
{
    if s.len() > 0 && section_char(s[0]) {
        1 + number_len(s.drop_first())
    } else {
        0
    }
}

/// The number of `.` a run of characters ends with.
pub open spec fn trailing_dots(s: Seq<char>) -> nat
    decreases s.len(),
{
    if s.len() > 0 && s.last() == '.' {
        1 + trailing_dots(s.drop_last())
    } else {
        0
    }
}

/// The heading's text after its `#`s and the whitespace after them.
pub open spec fn heading_text(heading: Seq<char>) -> Seq<char> {
    trim_start(heading.subrange(hashes(heading) as int, heading.len() as int))
}

/// The section number a heading carries: its leading run of digits, dots and letters,
/// without the dots that end it.
pub open spec fn heading_number(heading: Seq<char>) -> Seq<char> {
    let text = heading_text(heading);
    let run = text.subrange(0, number_len(text) as int);
    run.subrange(0, run.len() - trailing_dots(run))
}

/// Whether `heading` — a Markdown heading line — is the section numbered `section`:
/// `## 5. …` for `5`, `### 5.1 …` for `5.1`, `### 3.1b …` for `3.1b`.
pub open spec fn heading_is_spec(heading: Seq<char>, section: Seq<char>) -> bool {
    let text = heading_text(heading);
    let number = heading_number(heading);
    &&& number.len() > 0
    &&& number == section
    &&& (text.len() == number.len() || text[number.len() as int] == '.' || is_ws(
        text[number.len() as int],
    ))
}

proof fn lemma_run(s: Seq<char>, k: int)
    requires
        0 <= k <= s.len(),
        forall|j: int| 0 <= j < k ==> section_char(s[j]),
        k == s.len() || !section_char(s[k]),
    ensures
        number_len(s) == k,
    decreases k,
{
    if k > 0 {
        lemma_run(s.drop_first(), k - 1);
    }
}

proof fn lemma_hashes(s: Seq<char>, k: int)
    requires
        0 <= k <= s.len(),
        forall|j: int| 0 <= j < k ==> s[j] == '#',
        k == s.len() || s[k] != '#',
    ensures
        hashes(s) == k,
    decreases k,
{
    if k > 0 {
        lemma_hashes(s.drop_first(), k - 1);
    }
}

proof fn lemma_trailing_dots(s: Seq<char>, k: int)
    requires
        0 <= k <= s.len(),
        forall|j: int| s.len() - k <= j < s.len() ==> s[j] == '.',
        k == s.len() || s[s.len() - 1 - k] != '.',
    ensures
        trailing_dots(s) == k,
    decreases k,
{
    if k > 0 {
        lemma_trailing_dots(s.drop_last(), k - 1);
    }
}

/// Whether `heading` — a Markdown heading line — is the section numbered `section`.
pub fn heading_is(heading: &str, section: &str) -> (r: bool)
    ensures
        r == heading_is_spec(heading@, section@),
{
    let h = chars_of(heading);
    let want = chars_of(section);
    let mut k: usize = 0;
    while k < h.len() && h[k] == '#'
        invariant
            k <= h@.len(),
            forall|j: int| 0 <= j < k ==> h@[j] == '#',
        decreases h.len() - k,
    {
        k = k + 1;
    }
    proof {
        lemma_hashes(h@, k as int);
    }
    let a = crate::text::skip_ws(h.as_slice(), k, h.len());
    let text = slice_chars(h.as_slice(), a, h.len());
    let mut m: usize = 0;
    while m < text.len() && (('a' <= text[m] && text[m] <= 'z') || ('A' <= text[m] && text[m]
        <= 'Z') || ('0' <= text[m] && text[m] <= '9') || text[m] == '.')
        invariant
            m <= text@.len(),
            forall|j: int| 0 <= j < m ==> section_char(text@[j]),
        decreases text.len() - m,
    {
        m = m + 1;
    }
    proof {
        lemma_run(text@, m as int);
    }
    let mut e = m;
    while e > 0 && text[e - 1] == '.'
        invariant
            e <= m <= text@.len(),
            forall|j: int| e <= j < m ==> text@[j] == '.',
        decreases e,
    {
        e = e - 1;
    }
    proof {
        lemma_trailing_dots(text@.subrange(0, m as int), (m - e) as int);
    }
    let number = slice_chars(text.as_slice(), 0, e);
    let next_ok = e == text.len() || text[e] == '.' || crate::text::is_ws_exec(text[e]);
    proof {
        assert(h@ == heading@);
        assert(text@ =~= heading_text(heading@));
        let run = text@.subrange(0, m as int);
        assert(run.subrange(0, run.len() - trailing_dots(run)) =~= number@);
        assert(number@ == heading_number(heading@));
    }
    e > 0 && crate::text::same_chars(number.as_slice(), want.as_slice()) && next_ok
}

} // verus!
