//! The rules that read `app.toml` and the sample data as text: where a key stands, a
//! widened permission with no comment beside it (`PV205`), and anything that looks like a
//! secret (`PV208`).

use vstd::prelude::*;
use crate::lint::{severity_of, spec_of, trim_end_slashes, Ctx, Finding, RuleId};
use crate::lint::web::{pending_v, recorded, FSpec, Pending};
use crate::text::{decimal, decimal_exec};
use crate::lua::text_lines;
use crate::text::{
    chars_of, contains_seq, index_of, lowered, push_all, push_str, same_chars, starts_with, string_of, trim,
    trim_start, vec_views,
};

verus! {

/// `t` starts with `key` and then, past whitespace, `=`.
pub open spec fn key_match(t: Seq<char>, key: Seq<char>) -> bool {
    starts_with(t, key) && starts_with(trim_start(t.subrange(key.len() as int, t.len() as int)), "="@)
}

/// The 1-based line, from line `k` on, of the first `key =` at the start of a line, or 0.
pub open spec fn key_line_from(lines: Seq<Seq<char>>, key: Seq<char>, k: int) -> u32
    decreases lines.len() - k,
{
    if k < 0 || k >= lines.len() {
        0
    } else if key_match(trim_start(lines[k]), key) {
        (k + 1) as u32
    } else {
        key_line_from(lines, key, k + 1)
    }
}

/// The characters of `s` from `from` on without their leading whitespace.
fn trim_start_from(s: &[char], from: usize) -> (r: Vec<char>)
    requires
        from <= s@.len(),
    ensures
        r@ == trim_start(s@.subrange(from as int, s@.len() as int)),
{
    let a = crate::text::skip_ws(s, from, s.len());
    slice_chars_all(s, a)
}

fn slice_chars_all(s: &[char], from: usize) -> (r: Vec<char>)
    requires
        from <= s@.len(),
    ensures
        r@ == s@.subrange(from as int, s@.len() as int),
{
    crate::text::slice_chars(s, from, s.len())
}

fn key_match_exec(t: &[char], key: &[char]) -> (r: bool)
    ensures
        r == key_match(t@, key@),
{
    if !crate::text::starts_with_exec(t, key) {
        return false;
    }
    let rest = trim_start_from(t, key.len());
    proof {
        reveal_strlit("=");
        assert(t@.subrange(0, key@.len() as int) == key@);
    }
    let r = rest.len() > 0 && rest[0] == '=';
    proof {
        assert("="@ =~= seq!['=']);
        if rest@.len() > 0 {
            assert(rest@.subrange(0, 1) =~= seq![rest@[0]]);
            if rest@[0] == '=' {
                assert(crate::text::occurs_at(rest@, "="@, 0));
            } else {
                assert(rest@.subrange(0, 1)[0] == rest@[0]);
                assert("="@[0] == '=');
                assert(rest@.subrange(0, 1) != "="@);
            }
        }
    }
    r
}

/// The 1-based line of the first `key =` at the start of a line, or 0.
pub fn line_of_key(text: &str, key: &str) -> (r: u32)
    requires
        text@.len() + 1 < u32::MAX,
    ensures
        r == key_line_from(text_lines(text@), key@, 0),
{
    let lines = crate::lua::lines_of(text);
    let ghost lv = vec_views(lines@);
    let k_chars = chars_of(key);
    proof {
        crate::lua::lemma_text_lines_len(text@);
    }
    let mut k: usize = 0;
    while k < lines.len()
        invariant
            k <= lines@.len(),
            lv == vec_views(lines@),
            lv == text_lines(text@),
            lines@.len() < u32::MAX,
            k_chars@ == key@,
            key_line_from(lv, key@, 0) == key_line_from(lv, key@, k as int),
        decreases lines@.len() - k,
    {
        let t = trim_start_from(lines[k].as_slice(), 0);
        proof {
            assert(lines@[k as int]@.subrange(0, lines@[k as int]@.len() as int) =~= lv[k as int]);
        }
        if key_match_exec(t.as_slice(), k_chars.as_slice()) {
            return (k + 1) as u32;
        }
        k = k + 1;
    }
    0
}

/// Whether a `#` stands outside a TOML string in `s` from `k` on, `quote` the string the
/// reading is inside.
pub open spec fn comment_scan(s: Seq<char>, k: int, quote: Option<char>) -> bool
    decreases s.len() - k,
{
    if k < 0 || k >= s.len() {
        false
    } else {
        let ch = s[k];
        match quote {
            None => if ch == '#' {
                true
            } else if ch == '"' || ch == '\'' {
                comment_scan(s, k + 1, Some(ch))
            } else {
                comment_scan(s, k + 1, None)
            },
            Some(q) => if ch == q {
                comment_scan(s, k + 1, None)
            } else {
                comment_scan(s, k + 1, Some(q))
            },
        }
    }
}

/// Whether a `#` appears outside a TOML string on the line.
pub fn comment_outside_strings(line: &str) -> (r: bool)
    ensures
        r == comment_scan(line@, 0, None),
{
    let s = chars_of(line);
    let mut quote: Option<char> = None;
    let mut k: usize = 0;
    while k < s.len()
        invariant
            k <= s@.len(),
            s@ == line@,
            comment_scan(line@, 0, None) == comment_scan(line@, k as int, quote),
        decreases s@.len() - k,
    {
        let ch = s[k];
        match quote {
            None => {
                if ch == '#' {
                    return true;
                }
                if ch == '"' || ch == '\'' {
                    quote = Some(ch);
                }
            },
            Some(q) => {
                if ch == q {
                    quote = None;
                }
            },
        }
        k = k + 1;
    }
    false
}

/// `f` is a finding of `id` for `rel` of the app shown as `display`, at `line`, saying
/// `message`, with the fix `fix`.
pub open spec fn pushed(
    f: Finding,
    id: RuleId,
    display: Seq<char>,
    rel: Seq<char>,
    line: u32,
    message: Seq<char>,
    fix: Seq<char>,
) -> bool {
    &&& f.id == id
    &&& f.severity == severity_of(id)
    &&& f.file@ == trim_end_slashes(display) + "/"@ + rel
    &&& f.line == line
    &&& f.message@ == message
    &&& f.fix matches Some(x) && x@ == fix
    &&& f.spec == spec_of(id)
    &&& f.edit is None
}

/// `ctx` after `old` gained exactly the findings `added` of rule `id` for `rel`, each a
/// line and a message, all with the fix `fix`.
pub open spec fn appended(
    old: Ctx,
    ctx: Ctx,
    id: RuleId,
    rel: Seq<char>,
    added: Seq<(u32, Seq<char>)>,
    fix: Seq<char>,
) -> bool {
    &&& ctx.display == old.display
    &&& ctx.folder == old.folder
    &&& ctx.manifest_slug == old.manifest_slug
    &&& ctx.solo == old.solo
    &&& ctx.findings@.len() == old.findings@.len() + added.len()
    &&& forall|i: int| 0 <= i < old.findings@.len() ==> ctx.findings@[i] == old.findings@[i]
    &&& forall|k: int|
        0 <= k < added.len() ==> pushed(
            #[trigger] ctx.findings@[old.findings@.len() + k],
            id,
            old.display@,
            rel,
            added[k].0,
            added[k].1,
            fix,
        )
}

proof fn lemma_appended_push(
    old: Ctx,
    mid: Ctx,
    ctx: Ctx,
    id: RuleId,
    rel: Seq<char>,
    added: Seq<(u32, Seq<char>)>,
    line: u32,
    message: Seq<char>,
    fix: Seq<char>,
)
    requires
        appended(old, mid, id, rel, added, fix),
        ctx.display == mid.display,
        ctx.folder == mid.folder,
        ctx.manifest_slug == mid.manifest_slug,
        ctx.solo == mid.solo,
        ctx.findings@ == mid.findings@.push(ctx.findings@.last()),
        pushed(ctx.findings@.last(), id, old.display@, rel, line, message, fix),
    ensures
        appended(old, ctx, id, rel, added.push((line, message)), fix),
{
    let n = added.push((line, message));
    assert forall|k: int| 0 <= k < n.len() implies pushed(
        #[trigger] ctx.findings@[old.findings@.len() + k],
        id,
        old.display@,
        rel,
        n[k].0,
        n[k].1,
        fix,
    ) by {
        if k < added.len() {
            assert(ctx.findings@[old.findings@.len() + k] == mid.findings@[old.findings@.len() + k]);
        }
    }
}

/// The first key of `keys` from `j` on that `t` sets.
pub open spec fn first_key(keys: Seq<Seq<char>>, t: Seq<char>, j: int) -> Option<Seq<char>>
    decreases keys.len() - j,
{
    if j < 0 || j >= keys.len() {
        None
    } else if key_match(t, keys[j]) {
        Some(keys[j])
    } else {
        first_key(keys, t, j + 1)
    }
}

/// The `PV205` findings from line `k` on: in the `[permissions]` table, a line setting a
/// widened key with no `#` comment beside it or on the line above, as its line and the
/// key's message.
pub open spec fn perm_from(lines: Seq<Seq<char>>, widened: Seq<Seq<char>>, k: int, in_perm: bool) -> Seq<(u32, Seq<char>)>
    decreases lines.len() - k,
{
    if k < 0 || k >= lines.len() {
        Seq::empty()
    } else {
        let t = trim(lines[k]);
        if starts_with(t, "["@) {
            perm_from(lines, widened, k + 1, t == "[permissions]"@)
        } else if !in_perm {
            perm_from(lines, widened, k + 1, in_perm)
        } else {
            match first_key(widened, t, 0) {
                None => perm_from(lines, widened, k + 1, in_perm),
                Some(key) => {
                    let beside = comment_scan(t, 0, None);
                    let above = k > 0 && starts_with(trim_start(lines[k - 1]), "#"@);
                    (if !beside && !above {
                        seq![
                            (
                                (k + 1) as u32,
                                "permissions."@ + key
                                    + " is widened with no comment saying why; the owner is shown it at install"@,
                            ),
                        ]
                    } else {
                        Seq::empty()
                    }) + perm_from(lines, widened, k + 1, in_perm)
                },
            }
        }
    }
}

/// `PV205`: every widened permission (`widened`, the keys whose value is not the
/// default) has a `#` comment on its own line or on the line above it.
pub fn check_permission_comments(ctx: &mut Ctx, text: &str, widened: &[&str])
    requires
        text@.len() + 1 < u32::MAX,
    ensures
        appended(
            *old(ctx),
            *final(ctx),
            RuleId::PV205,
            "app.toml"@,
            perm_from(text_lines(text@), widened@.map_values(|w: &str| w@), 0, false),
            "add `# why` on the line, or a comment line above it"@,
        ),
{
    let ghost wv = widened@.map_values(|w: &str| w@);
    let lines = crate::lua::lines_of(text);
    let ghost lv = vec_views(lines@);
    proof {
        crate::lua::lemma_text_lines_len(text@);
    }
    let ghost fix = "add `# why` on the line, or a comment line above it"@;
    let ghost mut added: Seq<(u32, Seq<char>)> = Seq::empty();
    let mut in_perm = false;
    let open = chars_of("[");
    let table = chars_of("[permissions]");
    let hash = chars_of("#");
    let mut k: usize = 0;
    proof {
        assert(added + perm_from(lv, wv, 0, false) =~= perm_from(lv, wv, 0, false));
    }
    while k < lines.len()
        invariant
            k <= lines@.len(),
            lv == vec_views(lines@),
            lv == text_lines(text@),
            lines@.len() < u32::MAX,
            wv == widened@.map_values(|w: &str| w@),
            open@ == "["@,
            table@ == "[permissions]"@,
            hash@ == "#"@,
            fix == "add `# why` on the line, or a comment line above it"@,
            added + perm_from(lv, wv, k as int, in_perm) == perm_from(lv, wv, 0, false),
            appended(*old(ctx), *ctx, RuleId::PV205, "app.toml"@, added, fix),
        decreases lines@.len() - k,
    {
        let t = crate::text::trimmed(lines[k].as_slice());
        assert(lines@[k as int]@ == lv[k as int]);
        if crate::text::starts_with_exec(t.as_slice(), open.as_slice()) {
            in_perm = same_chars(t.as_slice(), table.as_slice());
            k = k + 1;
            continue;
        }
        if !in_perm {
            k = k + 1;
            continue;
        }
        let mut j: usize = 0;
        let mut found: Option<usize> = None;
        while j < widened.len() && found.is_none()
            invariant
                j <= widened@.len(),
                wv == widened@.map_values(|w: &str| w@),
                found is None ==> first_key(wv, t@, 0) == first_key(wv, t@, j as int),
                found matches Some(x) ==> x < widened@.len() && first_key(wv, t@, 0) == Some(wv[x as int]),
            decreases widened@.len() - j,
        {
            let w = chars_of(widened[j]);
            if key_match_exec(t.as_slice(), w.as_slice()) {
                found = Some(j);
            }
            j = j + 1;
        }
        match found {
            None => {
                assert(first_key(wv, t@, 0) is None);
            },
            Some(j) => {
                assert(first_key(wv, t@, 0) == Some(wv[j as int]));
                let key = widened[j];
                let beside = comment_outside_strings_chars(t.as_slice());
                let above = k > 0 && crate::text::starts_with_exec(
                    trim_start_from(lines[k - 1].as_slice(), 0).as_slice(),
                    hash.as_slice(),
                );
                proof {
                    if k > 0 {
                        assert(lines@[k - 1]@.subrange(0, lines@[k - 1]@.len() as int) =~= lv[k - 1]);
                    }
                }
                if !beside && !above {
                    let mut m = chars_of("permissions.");
                    push_str(&mut m, key);
                    push_str(&mut m, " is widened with no comment saying why; the owner is shown it at install");
                    let ghost mid = *ctx;
                    let f = ctx.push(RuleId::PV205, "app.toml", (k + 1) as u32, string_of(m.as_slice()));
                    f.fix = Some("add `# why` on the line, or a comment line above it".to_string());
                    proof {
                        lemma_appended_push(*old(ctx), mid, *ctx, RuleId::PV205, "app.toml"@, added, (k + 1) as u32, m@, fix);
                        let piece = seq![((k + 1) as u32, m@)];
                        assert(added.push(((k + 1) as u32, m@)) + perm_from(lv, wv, k + 1, in_perm) =~= added + (piece
                            + perm_from(lv, wv, k + 1, in_perm)));
                        added = added.push(((k + 1) as u32, m@));
                    }
                } else {
                    proof {
                        assert(Seq::<(u32, Seq<char>)>::empty() + perm_from(lv, wv, k + 1, in_perm) =~= perm_from(
                            lv,
                            wv,
                            k + 1,
                            in_perm,
                        ));
                    }
                }
            },
        }
        k = k + 1;
    }
}

fn comment_outside_strings_chars(s: &[char]) -> (r: bool)
    ensures
        r == comment_scan(s@, 0, None),
{
    let mut quote: Option<char> = None;
    let mut k: usize = 0;
    while k < s.len()
        invariant
            k <= s@.len(),
            comment_scan(s@, 0, None) == comment_scan(s@, k as int, quote),
        decreases s@.len() - k,
    {
        let ch = s[k];
        match quote {
            None => {
                if ch == '#' {
                    return true;
                }
                if ch == '"' || ch == '\'' {
                    quote = Some(ch);
                }
            },
            Some(q) => {
                if ch == q {
                    quote = None;
                }
            },
        }
        k = k + 1;
    }
    false
}

/// Key names that mean "this value is a credential".
pub open spec fn secret_keys() -> Seq<Seq<char>> {
    seq![
        "password"@, "passwd"@, "secret"@, "api_key"@, "apikey"@, "api-key"@, "access_token"@,
        "auth_token"@, "private_key"@, "privatekey"@, "client_secret"@, "bearer"@, "pairing_code"@,
        "session_key"@,
    ]
}

/// Prefixes of well-known credential formats.
pub open spec fn secret_prefixes() -> Seq<Seq<char>> {
    seq![
        "-----BEGIN "@, "AKIA"@, "sk_live_"@, "sk_test_"@, "ghp_"@, "gho_"@, "github_pat_"@, "xoxb-"@,
        "xoxp-"@, "AIza"@, "ya29."@, "eyJhbGciOi"@,
    ]
}

/// `s` without the leading characters that belong to `set`.
pub open spec fn strip_set(s: Seq<char>, set: Seq<char>) -> Seq<char>
    decreases s.len(),
{
    if s.len() > 0 && set.contains(s[0]) {
        strip_set(s.drop_first(), set)
    } else {
        s
    }
}

/// The first occurrence of `key` in the lowercased line is followed, past quotes and
/// spaces, by `:` or `=`, and then by a value that does not start with a quote, a comma,
/// a brace, a line feed or a space.
pub open spec fn keyed(lower: Seq<char>, key: Seq<char>) -> bool {
    match index_of(lower, key, 0) {
        None => false,
        Some(at) => {
            let after = trim_start(strip_set(lower.subrange(at + key.len(), lower.len() as int), seq!['"', '\'', ' ']));
            let value = strip_set(trim_start(strip_set(after, seq![':', '='])), seq!['"', '\'']);
            &&& (starts_with(after, ":"@) || starts_with(after, "="@))
            &&& value.len() > 0
            &&& !(value[0] == '"' || value[0] == '\'' || value[0] == ',' || value[0] == '}' || value[0] == '\n' || value[0]
                == ' ')
        },
    }
}

/// The first key of `keys` from `j` on that the lowercased line carries a value for.
pub open spec fn first_keyed(keys: Seq<Seq<char>>, lower: Seq<char>, j: int) -> Option<Seq<char>>
    decreases keys.len() - j,
{
    if j < 0 || j >= keys.len() {
        None
    } else if keyed(lower, keys[j]) {
        Some(keys[j])
    } else {
        first_keyed(keys, lower, j + 1)
    }
}

/// The first prefix of `prefixes` from `j` on that the line contains.
pub open spec fn first_prefix(prefixes: Seq<Seq<char>>, line: Seq<char>, j: int) -> Option<Seq<char>>
    decreases prefixes.len() - j,
{
    if j < 0 || j >= prefixes.len() {
        None
    } else if contains_seq(line, prefixes[j]) {
        Some(prefixes[j])
    } else {
        first_prefix(prefixes, line, j + 1)
    }
}

/// What about a line looks like a secret, if anything.
pub open spec fn secret_what(line: Seq<char>) -> Option<Seq<char>> {
    match first_keyed(secret_keys(), lowered(line), 0) {
        Some(key) => Some("`"@ + key + "` carries a value"@),
        None => match first_prefix(secret_prefixes(), line, 0) {
            Some(p) => Some("a value in a credential format ("@ + trim(p) + ")"@),
            None => None,
        },
    }
}

/// The `PV208` findings of the first `k` lines, as line and message.
pub open spec fn secrets_upto(lines: Seq<Seq<char>>, k: int) -> Seq<(u32, Seq<char>)>
    decreases k,
{
    if k <= 0 || k > lines.len() {
        Seq::empty()
    } else {
        secrets_upto(lines, k - 1) + match secret_what(lines[k - 1]) {
            Some(what) => seq![
                (
                    k as u32,
                    what + " — a secret in an app folder or its data ends up in plain-text logs, snapshots and backups"@,
                ),
            ],
            None => Seq::empty(),
        }
    }
}

fn strip_set_from(s: &[char], from: usize, set: &[char]) -> (r: usize)
    requires
        from <= s@.len(),
    ensures
        from <= r <= s@.len(),
        s@.subrange(r as int, s@.len() as int) == strip_set(s@.subrange(from as int, s@.len() as int), set@),
{
    let mut i = from;
    while i < s.len() && crate::text::contains_char(set, s[i])
        invariant
            from <= i <= s@.len(),
            strip_set(s@.subrange(i as int, s@.len() as int), set@) == strip_set(
                s@.subrange(from as int, s@.len() as int),
                set@,
            ),
        decreases s@.len() - i,
    {
        proof {
            assert(s@.subrange(i as int, s@.len() as int).drop_first() =~= s@.subrange(i + 1, s@.len() as int));
        }
        i = i + 1;
    }
    i
}

fn keyed_exec(lower: &[char], key: &[char]) -> (r: bool)
    ensures
        r == keyed(lower@, key@),
{
    match crate::text::find(lower, key, 0) {
        None => false,
        Some(at) => {
            let n = lower.len();
            let quotes_space: Vec<char> = vec!['"', '\'', ' '];
            let colon_eq: Vec<char> = vec![':', '='];
            let quotes: Vec<char> = vec!['"', '\''];
            proof {
                assert(quotes_space@ =~= seq!['"', '\'', ' ']);
                assert(colon_eq@ =~= seq![':', '=']);
                assert(quotes@ =~= seq!['"', '\'']);
            }
            let a = strip_set_from(lower, at + key.len(), quotes_space.as_slice());
            let b = crate::text::skip_ws(lower, a, n);
            let ghost after = lower@.subrange(b as int, n as int);
            proof {
                assert(lower@.subrange(a as int, n as int) == lower@.subrange(a as int, n as int));
            }
            let c = strip_set_from(lower, b, colon_eq.as_slice());
            let d = crate::text::skip_ws(lower, c, n);
            let e = strip_set_from(lower, d, quotes.as_slice());
            let ghost value = lower@.subrange(e as int, n as int);
            let sep = b < n && (lower[b] == ':' || lower[b] == '=');
            let ok = e < n && !(lower[e] == '"' || lower[e] == '\'' || lower[e] == ',' || lower[e] == '}' || lower[e]
                == '\n' || lower[e] == ' ');
            proof {
                reveal_strlit(":");
                reveal_strlit("=");
                assert(":"@ =~= seq![':']);
                assert("="@ =~= seq!['=']);
                if b < n {
                    assert(after.subrange(0, 1) =~= seq![after[0]]);
                    assert(after[0] == lower@[b as int]);
                    assert(after.subrange(0, 1)[0] == after[0]);
                    assert(":"@[0] == ':');
                    assert("="@[0] == '=');
                }
                if e < n {
                    assert(value[0] == lower@[e as int]);
                }
            }
            sep && ok
        },
    }
}

/// `PV208`: a key named like a credential with a non-empty value, or a value in a
/// well-known credential format, anywhere in `text`. Scanned line by line, so the finding
/// names the line and never repeats the value.
pub fn check_secrets(ctx: &mut Ctx, rel: &str, text: &str)
    requires
        text@.len() + 1 < u32::MAX,
    ensures
        appended(
            *old(ctx),
            *final(ctx),
            RuleId::PV208,
            rel@,
            secrets_upto(text_lines(text@), text_lines(text@).len() as int),
            "keep credentials in the OS keyring or identity/, never under data/ or in an app folder"@,
        ),
{
    let lines = crate::lua::lines_of(text);
    let ghost lv = vec_views(lines@);
    proof {
        crate::lua::lemma_text_lines_len(text@);
    }
    let ghost fix = "keep credentials in the OS keyring or identity/, never under data/ or in an app folder"@;
    let keys = ["password", "passwd", "secret", "api_key", "apikey", "api-key", "access_token", "auth_token",
        "private_key", "privatekey", "client_secret", "bearer", "pairing_code", "session_key"];
    let prefixes = ["-----BEGIN ", "AKIA", "sk_live_", "sk_test_", "ghp_", "gho_", "github_pat_", "xoxb-", "xoxp-",
        "AIza", "ya29.", "eyJhbGciOi"];
    proof {
        assert(keys@.map_values(|k: &str| k@) =~= secret_keys());
        assert(prefixes@.map_values(|p: &str| p@) =~= secret_prefixes());
    }
    let mut k: usize = 0;
    while k < lines.len()
        invariant
            k <= lines@.len(),
            lv == vec_views(lines@),
            lv == text_lines(text@),
            lines@.len() < u32::MAX,
            keys@.map_values(|k: &str| k@) == secret_keys(),
            prefixes@.map_values(|p: &str| p@) == secret_prefixes(),
            fix == "keep credentials in the OS keyring or identity/, never under data/ or in an app folder"@,
            appended(*old(ctx), *ctx, RuleId::PV208, rel@, secrets_upto(lv, k as int), fix),
        decreases lines@.len() - k,
    {
        let line = &lines[k];
        assert(line@ == lv[k as int]);
        let lower = crate::text::lowered_exec(line.as_slice());
        let mut j: usize = 0;
        let mut key_found: Option<usize> = None;
        while j < keys.len() && key_found.is_none()
            invariant
                j <= keys@.len(),
                keys@.map_values(|k: &str| k@) == secret_keys(),
                key_found is None ==> first_keyed(secret_keys(), lower@, 0) == first_keyed(secret_keys(), lower@, j as int),
                key_found matches Some(x) ==> x < keys@.len() && first_keyed(secret_keys(), lower@, 0) == Some(
                    secret_keys()[x as int],
                ),
            decreases keys@.len() - j,
        {
            let kc = chars_of(keys[j]);
            proof {
                assert(secret_keys()[j as int] == keys@[j as int]@);
            }
            if keyed_exec(lower.as_slice(), kc.as_slice()) {
                key_found = Some(j);
            }
            j = j + 1;
        }
        let mut what: Option<Vec<char>> = None;
        match key_found {
            Some(x) => {
                let mut m = chars_of("`");
                push_str(&mut m, keys[x]);
                push_str(&mut m, "` carries a value");
                proof {
                    assert(secret_keys()[x as int] == keys@[x as int]@);
                }
                what = Some(m);
            },
            None => {
                let mut p: usize = 0;
                let mut prefix_found: Option<usize> = None;
                while p < prefixes.len() && prefix_found.is_none()
                    invariant
                        p <= prefixes@.len(),
                        prefixes@.map_values(|p: &str| p@) == secret_prefixes(),
                        prefix_found is None ==> first_prefix(secret_prefixes(), line@, 0) == first_prefix(
                            secret_prefixes(),
                            line@,
                            p as int,
                        ),
                        prefix_found matches Some(x) ==> x < prefixes@.len() && first_prefix(secret_prefixes(), line@, 0)
                            == Some(secret_prefixes()[x as int]),
                    decreases prefixes@.len() - p,
                {
                    let pc = chars_of(prefixes[p]);
                    proof {
                        assert(secret_prefixes()[p as int] == prefixes@[p as int]@);
                    }
                    if crate::text::contains_exec(line.as_slice(), pc.as_slice()) {
                        prefix_found = Some(p);
                    }
                    p = p + 1;
                }
                match prefix_found {
                    Some(x) => {
                        let mut m = chars_of("a value in a credential format (");
                        push_all(&mut m, crate::text::trimmed(chars_of(prefixes[x]).as_slice()).as_slice());
                        push_str(&mut m, ")");
                        proof {
                            assert(secret_prefixes()[x as int] == prefixes@[x as int]@);
                        }
                        what = Some(m);
                    },
                    None => {},
                }
            },
        }
        proof {
            assert(lv.take(k + 1).drop_last() =~= lv.take(k as int));
        }
        match what {
            Some(w) => {
                let mut m = w;
                push_str(&mut m, " — a secret in an app folder or its data ends up in plain-text logs, snapshots and backups");
                let ghost mid = *ctx;
                let f = ctx.push(RuleId::PV208, rel, (k + 1) as u32, string_of(m.as_slice()));
                f.fix = Some("keep credentials in the OS keyring or identity/, never under data/ or in an app folder".to_string());
                proof {
                    lemma_appended_push(*old(ctx), mid, *ctx, RuleId::PV208, rel@, secrets_upto(lv, k as int), (k + 1) as u32, m@, fix);
                    assert(secrets_upto(lv, k + 1) =~= secrets_upto(lv, k as int).push(((k + 1) as u32, m@)));
                }
            },
            None => {
                proof {
                    assert(secrets_upto(lv, k + 1) =~= secrets_upto(lv, k as int));
                }
            },
        }
        k = k + 1;
    }
}

/// The manifest's fields that the structural rules read.
pub struct ManifestFields {
    /// `[app] slug`.
    pub slug: String,
    /// `[app] api`.
    pub api: u32,
    /// `[app] tier`, as written.
    pub tier: String,
    /// The file the tier requires, when it requires one.
    pub tier_file: Option<String>,
    /// `[nav] advertise`.
    pub advertise: bool,
    /// `[permissions] cross_origin_isolated`.
    pub cross_origin_isolated: bool,
    /// `[app] icon`.
    pub icon: Option<String>,
}

/// What the rules need that the fields do not say: whether the slug is reserved, the
/// `api` the framework implements, the longest slug a DNS-SD subtype label holds, whether
/// the tier's file exists, whether the icon is one the framework ships, and whether this
/// app is the one mounted at `/`.
pub struct ManifestFacts {
    pub reserved: bool,
    pub supported_api: u32,
    pub max_advertised: u64,
    pub tier_file_exists: bool,
    pub icon_known: bool,
    pub solo: bool,
}

/// One finding when `c` holds.
pub open spec fn finding_if(c: bool, id: RuleId, line: u32, message: Seq<char>, fix: Seq<char>) -> Seq<FSpec> {
    if c {
        seq![FSpec { id, line, message, fix: Some(fix), edit: None }]
    } else {
        Seq::empty()
    }
}

/// The line of `key =` in the manifest's text, or 0.
pub open spec fn key_line(text: Seq<char>, key: Seq<char>) -> u32 {
    key_line_from(text_lines(text), key, 0)
}

/// `PV102`, `PV103`, `PV104`, `PV105`, `PV501`, `PV502` and `PV503` over the manifest's
/// fields, in that order, for the app in the folder named `folder`.
pub open spec fn manifest_fspecs(text: Seq<char>, m: ManifestFields, f: ManifestFacts, folder: Seq<char>) -> Seq<FSpec> {
    let slug = m.slug@;
    let sl = key_line(text, "slug"@);
    let q = crate::lua::debug_quoted(slug);
    let api = decimal(m.api as nat);
    let supported = decimal(f.supported_api as nat);
    finding_if(f.reserved, RuleId::PV102, sl, "slug "@ + q + " is reserved (spec/protocol.md §1.1)"@, "choose another slug"@)
        + finding_if(
        !f.reserved && !crate::lint::valid_slug(slug),
        RuleId::PV102,
        sl,
        "slug "@ + q + " does not match ^[a-z][a-z0-9-]{1,30}$"@,
        "lowercase letters, digits and hyphens, 2 to 31 characters, starting with a letter"@,
    ) + finding_if(
        m.api == 0 || m.api > f.supported_api,
        RuleId::PV103,
        key_line(text, "api"@),
        "api = "@ + api + " — this framework implements api = "@ + supported,
        "api = "@ + supported,
    ) + finding_if(
        slug != folder,
        RuleId::PV104,
        sl,
        "slug "@ + q + " but the folder is "@ + crate::lua::debug_quoted(folder),
        "rename the folder to "@ + slug + " or the slug to "@ + folder,
    ) + (match m.tier_file {
        Some(file) => finding_if(
            !f.tier_file_exists,
            RuleId::PV105,
            key_line(text, "tier"@),
            "tier = \""@ + m.tier@ + "\" requires "@ + file@,
            "create "@ + file@,
        ),
        None => Seq::empty(),
    }) + finding_if(
        m.advertise && crate::text::utf8_len(slug) > f.max_advertised,
        RuleId::PV501,
        sl,
        "slug "@ + q + " is "@ + decimal(crate::text::utf8_len(slug) as nat)
            + " characters; a DNS-SD subtype label holds "@ + decimal(f.max_advertised as nat),
        "shorten the slug, or set [nav] advertise = false"@,
    ) + finding_if(
        m.cross_origin_isolated && !f.solo,
        RuleId::PV502,
        key_line(text, "cross_origin_isolated"@),
        "permissions.cross_origin_isolated is honoured for the solo app alone; in host mode the COOP/COEP headers would break every other app and the loader refuses it (docs/frameworks.md §5.4)"@,
        "run the node in solo mode with [node] app naming this app, or drop the permission and export single-threaded"@,
    ) + (match m.icon {
        Some(icon) => finding_if(
            !f.icon_known,
            RuleId::PV503,
            key_line(text, "icon"@),
            "icon "@ + crate::lua::debug_quoted(icon@) + " is not in the vendored Bootstrap Icons set"@,
            "name a file of assets/icons/ without .svg"@,
        ),
        None => Seq::empty(),
    })
}

fn note_if(out: &mut Vec<Pending>, c: bool, id: RuleId, line: u32, message: Vec<char>, fix: Vec<char>)
    ensures
        pending_v(final(out)@) == pending_v(old(out)@) + finding_if(c, id, line, message@, fix@),
{
    let ghost before = pending_v(out@);
    if c {
        out.push(Pending { id, line, message: string_of(message.as_slice()), fix: Some(string_of(fix.as_slice())), edit: None });
        assert(pending_v(out@) =~= before + finding_if(c, id, line, message@, fix@));
    } else {
        assert(pending_v(out@) =~= before + finding_if(c, id, line, message@, fix@));
    }
}

fn with(a: &str, b: &[char], c: &str) -> (r: Vec<char>)
    ensures
        r@ == a@ + b@ + c@,
{
    let mut out = chars_of(a);
    push_all(&mut out, b);
    push_str(&mut out, c);
    out
}

/// `PV102`, `PV103`, `PV104`, `PV105`, `PV501`, `PV502` and `PV503` over the manifest's
/// fields `m` (its text `text`, for the lines), with what `f` tells of them.
pub fn check_manifest_fields(ctx: &mut Ctx, text: &str, m: &ManifestFields, f: &ManifestFacts)
    requires
        text@.len() + 1 < u32::MAX,
        crate::text::utf8_len(m.slug@) < usize::MAX,
    ensures
        recorded(*old(ctx), *final(ctx), "app.toml"@, manifest_fspecs(text@, *m, *f, old(ctx).folder@)),
{
    let slug = chars_of(m.slug.as_str());
    let folder = chars_of(ctx.folder.as_str());
    let sl = line_of_key(text, "slug");
    let q = chars_of(crate::lua::debug_quote(m.slug.as_str()).as_str());
    let supported = decimal_exec(f.supported_api as u64);
    let mut out: Vec<Pending> = Vec::new();
    let ghost p0 = pending_v(out@);
    note_if(&mut out, f.reserved, RuleId::PV102, sl, with("slug ", q.as_slice(), " is reserved (spec/protocol.md §1.1)"), chars_of("choose another slug"));
    let valid = crate::lint::is_valid_slug(slug.as_slice());
    note_if(
        &mut out,
        !f.reserved && !valid,
        RuleId::PV102,
        sl,
        with("slug ", q.as_slice(), " does not match ^[a-z][a-z0-9-]{1,30}$"),
        chars_of("lowercase letters, digits and hyphens, 2 to 31 characters, starting with a letter"),
    );
    let mut api_msg = with("api = ", decimal_exec(m.api as u64).as_slice(), " — this framework implements api = ");
    push_all(&mut api_msg, supported.as_slice());
    note_if(&mut out, m.api == 0 || m.api > f.supported_api, RuleId::PV103, line_of_key(text, "api"), api_msg, with("api = ", supported.as_slice(), ""));
    let fq = chars_of(crate::lua::debug_quote(ctx.folder.as_str()).as_str());
    let mut folder_msg = with("slug ", q.as_slice(), " but the folder is ");
    push_all(&mut folder_msg, fq.as_slice());
    let mut folder_fix = with("rename the folder to ", slug.as_slice(), " or the slug to ");
    push_all(&mut folder_fix, folder.as_slice());
    note_if(&mut out, !same_chars(slug.as_slice(), folder.as_slice()), RuleId::PV104, sl, folder_msg, folder_fix);
    match &m.tier_file {
        Some(file) => {
            let fc = chars_of(file.as_str());
            let mut msg = with("tier = \"", chars_of(m.tier.as_str()).as_slice(), "\" requires ");
            push_all(&mut msg, fc.as_slice());
            let fix = with("create ", fc.as_slice(), "");
            proof {
                reveal_strlit("");
                assert(fix@ =~= "create "@ + file@);
            }
            note_if(&mut out, !f.tier_file_exists, RuleId::PV105, line_of_key(text, "tier"), msg, fix);
        },
        None => {},
    }
    let width = crate::text::utf8_len_capped(slug.as_slice(), usize::MAX);
    let mut adv = with("slug ", q.as_slice(), " is ");
    push_all(&mut adv, decimal_exec(width as u64).as_slice());
    push_str(&mut adv, " characters; a DNS-SD subtype label holds ");
    push_all(&mut adv, decimal_exec(f.max_advertised).as_slice());
    note_if(
        &mut out,
        m.advertise && width as u64 > f.max_advertised,
        RuleId::PV501,
        sl,
        adv,
        chars_of("shorten the slug, or set [nav] advertise = false"),
    );
    note_if(
        &mut out,
        m.cross_origin_isolated && !f.solo,
        RuleId::PV502,
        line_of_key(text, "cross_origin_isolated"),
        chars_of("permissions.cross_origin_isolated is honoured for the solo app alone; in host mode the COOP/COEP headers would break every other app and the loader refuses it (docs/frameworks.md §5.4)"),
        chars_of("run the node in solo mode with [node] app naming this app, or drop the permission and export single-threaded"),
    );
    match &m.icon {
        Some(icon) => {
            let iq = chars_of(crate::lua::debug_quote(icon.as_str()).as_str());
            note_if(
                &mut out,
                !f.icon_known,
                RuleId::PV503,
                line_of_key(text, "icon"),
                with("icon ", iq.as_slice(), " is not in the vendored Bootstrap Icons set"),
                chars_of("name a file of assets/icons/ without .svg"),
            );
        },
        None => {},
    }
    proof {
        reveal_strlit("");
        assert("api = "@ + supported@ + ""@ =~= "api = "@ + supported@);
        assert(width == crate::text::utf8_len(m.slug@));
        let fs = manifest_fspecs(text@, *m, *f, old(ctx).folder@);
        assert(pending_v(out@) =~= p0 + fs);
    }
    crate::lint::web::record_all(ctx, "app.toml", out);
}

} // verus!
