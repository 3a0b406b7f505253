//! The URL of a node to join: `http://host[:port]` and nothing else, turned into the
//! address of its pairing socket.

use vstd::prelude::*;
use crate::text::{chars_of, ends_with, ends_with_exec, push_str, starts_with, starts_with_exec,
    string_of, trim, trimmed, slice_chars};

verus! {

/// A join refused before any socket was opened: the URL as given, and why.
#[derive(Debug, Clone, PartialEq, Eq)]
pub struct JoinError {
    /// The URL exactly as the caller gave it.
    pub url: String,
    /// What is wrong with it, in words.
    pub problem: String,
}

/// The port a node listens on when the URL names none.
pub open spec fn default_port() -> Seq<char> {
    ":8420"@
}

/// A character that may appear in the host-and-port part of a join URL.
pub open spec fn authority_char(c: char) -> bool {
    ('a' <= c <= 'z') || ('A' <= c <= 'Z') || ('0' <= c <= '9') || c == '.' || c == '-'
        || c == ':' || c == '[' || c == ']'
}

pub open spec fn scheme_problem() -> Seq<char> {
    "the URL must start with http://"@
}

pub open spec fn shape_problem() -> Seq<char> {
    "the URL is a host and a port and nothing else, as the other node printed it"@
}

/// What follows `http://` in the trimmed URL, without one trailing `/`.
pub open spec fn authority_of(url: Seq<char>) -> Seq<char> {
    let rest = trim(url).skip(7);
    if ends_with(rest, seq!['/']) { rest.drop_last() } else { rest }
}

/// The authority is acceptable: not empty, at most 255 characters, and each one allowed.
pub open spec fn authority_ok(a: Seq<char>) -> bool {
    0 < a.len() <= 255 && forall|i: int| 0 <= i < a.len() ==> #[trigger] authority_char(a[i])
}

/// The authority with the default port added where it names none: a bracketed IPv6
/// literal with nothing after it, or a name without any colon.
pub open spec fn with_port(a: Seq<char>) -> Seq<char> {
    if ends_with(a, seq![']']) || !a.contains(':') { a + default_port() } else { a }
}

/// The socket address for a join URL, or the problem with it.
pub open spec fn join_target_spec(url: Seq<char>) -> Result<Seq<char>, Seq<char>> {
    if !starts_with(trim(url), "http://"@) {
        Err(scheme_problem())
    } else if !authority_ok(authority_of(url)) {
        Err(shape_problem())
    } else {
        Ok("ws://"@ + with_port(authority_of(url)) + "/ws/pair"@)
    }
}

/// A character of a host name as a node prints it: an ASCII letter or digit, `.` or `-`.
pub open spec fn host_name_char(c: char) -> bool {
    ('a' <= c <= 'z') || ('A' <= c <= 'Z') || ('0' <= c <= '9') || c == '.' || c == '-'
}

proof fn lemma_untrimmed(u: Seq<char>)
    requires
        u.len() > 0,
        !crate::text::is_ws(u[0]),
        !crate::text::is_ws(u[u.len() - 1]),
    ensures
        trim(u) == u,
{
    crate::text::lemma_lead_ws(u, 0);
    assert(crate::text::trim_start(u) =~= u);
    crate::text::lemma_trail_ws(u, 0);
    assert(crate::text::trim_end(u) =~= u);
}

/// A host name, with or without a port, is joined as given: `http://` and a name made of
/// ASCII letters, digits, `.` and `-` (at most 255 characters with its port) gives the
/// pairing socket on that host, at the port given or else at 8420.
pub proof fn lemma_host_name_is_joined(host: Seq<char>, port: Seq<char>)
    requires
        0 < host.len(),
        forall|i: int| 0 <= i < host.len() ==> #[trigger] host_name_char(host[i]),
        forall|i: int| 0 <= i < port.len() ==> '0' <= #[trigger] port[i] <= '9',
        host.len() + port.len() + 1 <= 255,
    ensures
        port.len() == 0 ==> join_target_spec("http://"@ + host) == Ok::<Seq<char>, Seq<char>>(
            "ws://"@ + host + ":8420"@ + "/ws/pair"@,
        ),
        port.len() > 0 ==> join_target_spec("http://"@ + host + ":"@ + port) == Ok::<Seq<char>, Seq<char>>(
            "ws://"@ + host + ":"@ + port + "/ws/pair"@,
        ),
{
    reveal_strlit("http://");
    reveal_strlit(":");
    reveal_strlit(":8420");
    let a = if port.len() == 0 { host } else { host + ":"@ + port };
    let u = "http://"@ + a;
    assert(u[0] == 'h');
    assert(u[u.len() - 1] == a[a.len() - 1]);
    if port.len() == 0 {
        assert(host_name_char(host[host.len() - 1]));
    } else {
        assert(a[a.len() - 1] == port[port.len() - 1]);
    }
    lemma_untrimmed(u);
    assert(u.subrange(0, 7) =~= "http://"@);
    assert(trim(u).skip(7) =~= a);
    assert(!ends_with(a, seq!['/'])) by {
        if ends_with(a, seq!['/']) {
            assert(a.subrange(a.len() - 1, a.len() as int)[0] == a[a.len() - 1]);
        }
    }
    assert(authority_of(u) == a);
    assert forall|i: int| 0 <= i < a.len() implies #[trigger] authority_char(a[i]) by {
        if i < host.len() {
            assert(host_name_char(host[i]));
        } else if port.len() > 0 && i > host.len() {
            assert(a[i] == port[i - host.len() - 1]);
        }
    }
    assert(!ends_with(a, seq![']'])) by {
        if ends_with(a, seq![']']) {
            assert(a.subrange(a.len() - 1, a.len() as int)[0] == a[a.len() - 1]);
        }
    }
    if port.len() == 0 {
        assert(!a.contains(':')) by {
            if a.contains(':') {
                let i = choose|i: int| 0 <= i < a.len() && a[i] == ':';
                assert(host_name_char(host[i]));
            }
        }
        assert(with_port(a) == a + default_port());
    } else {
        assert(a[host.len() as int] == ':');
        assert(a.contains(':'));
    }
    assert(starts_with(trim(u), "http://"@));
    assert(authority_ok(a));
    assert(join_target_spec(u) == Ok::<Seq<char>, Seq<char>>("ws://"@ + with_port(a) + "/ws/pair"@));
    if port.len() == 0 {
        assert("ws://"@ + (host + default_port()) + "/ws/pair"@ =~= "ws://"@ + host + ":8420"@ + "/ws/pair"@);
    } else {
        assert(with_port(a) == a);
        assert(u =~= "http://"@ + host + ":"@ + port);
        assert("ws://"@ + a + "/ws/pair"@ =~= "ws://"@ + host + ":"@ + port + "/ws/pair"@);
    }
}

fn authority_char_exec(c: char) -> (r: bool)
    ensures
        r == authority_char(c),
{
    ('a' <= c && c <= 'z') || ('A' <= c && c <= 'Z') || ('0' <= c && c <= '9') || c == '.'
        || c == '-' || c == ':' || c == '[' || c == ']'
}

/// `http://host[:port]`, and nothing else, as the URL of a node to join; the socket path
/// is added here. A scheme, path, query, fragment or user information anywhere is refused,
/// so the URL can go into no request but this one.
pub fn join_target(url: &str) -> (r: Result<String, JoinError>)
    ensures
        match r {
            Ok(s) => join_target_spec(url@) == Ok::<Seq<char>, Seq<char>>(s@),
            Err(e) => e.url@ == url@ && join_target_spec(url@) == Err::<Seq<char>, Seq<char>>(
                e.problem@,
            ),
        },
{
    let all = chars_of(url);
    let t = trimmed(all.as_slice());
    let scheme = chars_of("http://");
    proof {
        reveal_strlit("http://");
    }
    if !starts_with_exec(t.as_slice(), scheme.as_slice()) {
        let problem = chars_of("the URL must start with http://");
        return Err(JoinError { url: string_of(all.as_slice()), problem: string_of(problem.as_slice()) });
    }
    let slash: Vec<char> = vec!['/'];
    let rest = slice_chars(t.as_slice(), 7, t.len());
    assert(rest@ == trim(url@).skip(7));
    assert(slash@ =~= seq!['/']);
    let trailing = ends_with_exec(rest.as_slice(), slash.as_slice());
    let end = if trailing {
        rest.len() - 1
    } else {
        rest.len()
    };
    let authority = slice_chars(rest.as_slice(), 0, end);
    proof {
        if trailing {
            assert(rest@.subrange(0, end as int) =~= rest@.drop_last());
        } else {
            assert(rest@.subrange(0, end as int) =~= rest@);
        }
    }
    assert(authority@ == authority_of(url@));
    let mut ok = 0 < authority.len() && authority.len() <= 255;
    let mut has_colon = false;
    let mut i: usize = 0;
    while i < authority.len()
        invariant
            i <= authority@.len(),
            ok == (0 < authority@.len() <= 255 && forall|j: int|
                0 <= j < i ==> #[trigger] authority_char(authority@[j])),
            has_colon == (exists|j: int| 0 <= j < i && authority@[j] == ':'),
        decreases authority.len() - i,
    {
        let c = authority[i];
        if !authority_char_exec(c) {
            ok = false;
        }
        if c == ':' {
            has_colon = true;
        }
        i = i + 1;
    }
    assert(has_colon == authority@.contains(':'));
    if !ok {
        let problem = chars_of(
            "the URL is a host and a port and nothing else, as the other node printed it",
        );
        return Err(JoinError { url: string_of(all.as_slice()), problem: string_of(problem.as_slice()) });
    }
    let bracket: Vec<char> = vec![']'];
    assert(bracket@ =~= seq![']']);
    let mut out: Vec<char> = Vec::new();
    push_str(&mut out, "ws://");
    let mut j: usize = 0;
    while j < authority.len()
        invariant
            j <= authority@.len(),
            out@ == "ws://"@ + authority@.take(j as int),
        decreases authority.len() - j,
    {
        out.push(authority[j]);
        j = j + 1;
    }
    assert(authority@.take(authority@.len() as int) == authority@);
    if ends_with_exec(authority.as_slice(), bracket.as_slice()) || !has_colon {
        push_str(&mut out, ":8420");
    }
    assert(out@ =~= "ws://"@ + with_port(authority@));
    push_str(&mut out, "/ws/pair");
    Ok(string_of(out.as_slice()))
}

} // verus!
