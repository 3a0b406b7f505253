//! The Lua runtime's logic: routes and their resolution, what a handler is given and
//! answers, where an error points in the app's source, the per-request limits and the
//! template compiler.

use vstd::prelude::*;
use crate::text::{
    chars_of, decimal, decimal_exec, is_ws, is_ws_exec, push_all, push_str, same_chars, split,
    split_exec, starts_with, string_of, uppered, uppered_exec, vec_views,
};
use self::limits::LimitKind;

pub mod limits;
pub mod lsp;

verus! {

/// How `{:?}` writes a string: quoted, with its escapes.
pub uninterp spec fn debug_quoted(s: Seq<char>) -> Seq<char>;

/// `format!("{:?}", s)` for a `str`: the string quoted, as the standard library escapes
/// it. The escaping rules follow Unicode tables and are named here, not restated.
#[verifier::external_body]
pub(crate) fn debug_quote(s: &str) -> (r: String)
    ensures
        r@ == debug_quoted(s@),
{
    format!("{:?}", s)
}

/// One segment of a route pattern.
#[derive(Debug, Clone, PartialEq, Eq)]
pub enum Segment {
    /// Matched as written.
    Literal(String),
    /// `:name`, binding what is there.
    Param(String),
}

/// A pattern segment as plain values.
pub enum SegView {
    Literal(Seq<char>),
    Param(Seq<char>),
}

pub open spec fn seg_view(s: Segment) -> SegView {
    match s {
        Segment::Literal(l) => SegView::Literal(l@),
        Segment::Param(n) => SegView::Param(n@),
    }
}

/// One registered route: `(method, pattern)` in registration order.
#[derive(Debug, Clone, PartialEq, Eq)]
pub struct RouteSpec {
    /// Upper-case.
    pub method: String,
    /// As written, `/fill/:id`.
    pub pattern: String,
    segments: Vec<Segment>,
}

pub open spec fn all_upper(s: Seq<char>) -> bool {
    forall|i: int| 0 <= i < s.len() ==> 'A' <= #[trigger] s[i] <= 'Z'
}

/// The segments of a pattern's pieces from `k` on, or the refusal of the first bad one.
pub open spec fn pattern_segments(pieces: Seq<Seq<char>>, pattern: Seq<char>, k: int) -> Result<
    Seq<SegView>,
    Seq<char>,
>
    decreases pieces.len() - k,
{
    if k >= pieces.len() || k < 0 {
        Ok(Seq::empty())
    } else if pieces[k].len() == 0 {
        Err("route "@ + debug_quoted(pattern) + " has an empty segment"@)
    } else if pieces[k][0] == ':' && pieces[k].len() == 1 {
        Err("route "@ + debug_quoted(pattern) + " has an unnamed parameter"@)
    } else {
        let seg = if pieces[k][0] == ':' {
            SegView::Param(pieces[k].skip(1))
        } else {
            SegView::Literal(pieces[k])
        };
        match pattern_segments(pieces, pattern, k + 1) {
            Err(e) => Err(e),
            Ok(rest) => Ok(seq![seg] + rest),
        }
    }
}

/// A route read from a method and a pattern: `/` or `/seg/:param/seg`, no empty segments.
pub open spec fn route_spec(method: Seq<char>, pattern: Seq<char>) -> Result<Seq<SegView>, Seq<char>> {
    if method.len() == 0 || !all_upper(method) {
        Err("pv.route: "@ + debug_quoted(method) + " is not an HTTP method"@)
    } else if !starts_with(pattern, "/"@) {
        Err("route "@ + debug_quoted(pattern) + " must start with '/'"@)
    } else if pattern.len() == 1 {
        Ok(Seq::empty())
    } else {
        pattern_segments(split(pattern.skip(1), '/'), pattern, 0)
    }
}

/// What a route binds for a path of segments: `None` when the counts differ or a literal
/// does not match, else each parameter's name and value, in pattern order.
pub open spec fn route_match(segs: Seq<SegView>, path: Seq<Seq<char>>, k: int) -> Option<
    Seq<(Seq<char>, Seq<char>)>,
>
    decreases segs.len() - k,
{
    if segs.len() != path.len() {
        None
    } else if k >= segs.len() || k < 0 {
        Some(Seq::empty())
    } else {
        match route_match(segs, path, k + 1) {
            None => None,
            Some(rest) => match segs[k] {
                SegView::Literal(l) => if l == path[k] { Some(rest) } else { None },
                SegView::Param(n) => Some(seq![(n, path[k])] + rest),
            },
        }
    }
}

/// The parameters of `segs` from `k` on, each with the path segment at its place.
pub open spec fn bound_params(segs: Seq<SegView>, path: Seq<Seq<char>>, k: int) -> Seq<(Seq<char>, Seq<char>)>
    decreases segs.len() - k,
{
    if k >= segs.len() || k < 0 {
        Seq::empty()
    } else {
        match segs[k] {
            SegView::Literal(_) => bound_params(segs, path, k + 1),
            SegView::Param(n) => seq![(n, path[k])] + bound_params(segs, path, k + 1),
        }
    }
}

proof fn lemma_route_match_from(segs: Seq<SegView>, path: Seq<Seq<char>>, k: int)
    requires
        0 <= k <= segs.len(),
        segs.len() == path.len(),
    ensures
        route_match(segs, path, k) == if forall|j: int|
            k <= j < segs.len() ==> (#[trigger] segs[j] matches SegView::Literal(l) ==> l == path[j]) {
            Some(bound_params(segs, path, k))
        } else {
            None::<Seq<(Seq<char>, Seq<char>)>>
        },
    decreases segs.len() - k,
{
    if k < segs.len() {
        lemma_route_match_from(segs, path, k + 1);
        let all_from = forall|j: int| k <= j < segs.len() ==> (#[trigger] segs[j] matches SegView::Literal(l) ==> l == path[j]);
        let all_next = forall|j: int| k + 1 <= j < segs.len() ==> (#[trigger] segs[j] matches SegView::Literal(l) ==> l == path[j]);
        if all_next && (segs[k] matches SegView::Literal(l) ==> l == path[k]) {
            assert(all_from);
        }
        if all_from {
            assert(all_next);
        }
    }
}

/// A route matches a path exactly when the path has as many segments as the route and
/// every literal segment is written as the route writes it; it then binds each parameter,
/// in order, to the path segment at its place.
pub proof fn lemma_route_matches_exactly(route: RouteSpec, path: Seq<Seq<char>>)
    ensures
        route_match(route.segs(), path, 0) == if route.segs().len() == path.len() && forall|j: int|
            0 <= j < path.len() ==> (#[trigger] route.segs()[j] matches SegView::Literal(l) ==> l == path[j]) {
            Some(bound_params(route.segs(), path, 0))
        } else {
            None::<Seq<(Seq<char>, Seq<char>)>>
        },
{
    if route.segs().len() == path.len() {
        lemma_route_match_from(route.segs(), path, 0);
    }
}

impl View for RouteSpec {
    type V = (Seq<char>, Seq<char>, Seq<SegView>);

    closed spec fn view(&self) -> (Seq<char>, Seq<char>, Seq<SegView>) {
        (self.method@, self.pattern@, self.segments@.map_values(|s: Segment| seg_view(s)))
    }
}

impl RouteSpec {
    /// The route's segments as plain values.
    pub open spec fn segs(&self) -> Seq<SegView> {
        self@.2
    }

    /// Parse a pattern: `/` or `/seg/:param/seg`, no empty segments; the method is
    /// upper-case letters.
    pub fn parse(method: &str, pattern: &str) -> (r: Result<RouteSpec, String>)
        ensures
            match r {
                Ok(route) => route_spec(method@, pattern@) == Ok::<Seq<SegView>, Seq<char>>(route.segs())
                    && route@.0 == method@ && route@.1 == pattern@,
                Err(e) => route_spec(method@, pattern@) == Err::<Seq<SegView>, Seq<char>>(e@),
            },
    {
        let m = chars_of(method);
        let mut upper = m.len() > 0;
        let mut i: usize = 0;
        while i < m.len()
            invariant
                i <= m@.len(),
                upper == (m@.len() > 0 && forall|j: int| 0 <= j < i ==> 'A' <= #[trigger] m@[j] <= 'Z'),
            decreases m.len() - i,
        {
            if !('A' <= m[i] && m[i] <= 'Z') {
                upper = false;
            }
            i = i + 1;
        }
        if !upper {
            let mut e: Vec<char> = Vec::new();
            push_str(&mut e, "pv.route: ");
            let q = debug_quote(method);
            push_str(&mut e, q.as_str());
            push_str(&mut e, " is not an HTTP method");
            assert(e@ =~= "pv.route: "@ + debug_quoted(method@) + " is not an HTTP method"@);
            return Err(string_of(e.as_slice()));
        }
        let p = chars_of(pattern);
        if p.len() == 0 || p[0] != '/' {
            proof {
                reveal_strlit("/");
            }
            let mut e: Vec<char> = Vec::new();
            push_str(&mut e, "route ");
            let q = debug_quote(pattern);
            push_str(&mut e, q.as_str());
            push_str(&mut e, " must start with '/'");
            assert(e@ =~= "route "@ + debug_quoted(pattern@) + " must start with '/'"@);
            assert(!starts_with(pattern@, "/"@)) by {
                if p@.len() > 0 {
                    assert(pattern@.take(1)[0] == pattern@[0]);
                }
            }
            return Err(string_of(e.as_slice()));
        }
        proof {
            reveal_strlit("/");
            assert(pattern@.take(1) =~= "/"@);
        }
        assert(route_spec(method@, pattern@) == if pattern@.len() == 1 {
            Ok::<Seq<SegView>, Seq<char>>(Seq::empty())
        } else {
            pattern_segments(split(pattern@.skip(1), '/'), pattern@, 0)
        });
        let mut segments: Vec<Segment> = Vec::new();
        if p.len() > 1 {
            let rest = crate::text::slice_chars(p.as_slice(), 1, p.len());
            assert(rest@ == pattern@.skip(1));
            let pieces = split_exec(rest.as_slice(), '/');
            let ghost pv = vec_views(pieces@);
            assert(segments@.map_values(|s: Segment| seg_view(s)) + Seq::<SegView>::empty() =~= Seq::<SegView>::empty());
            assert(prefixed(segments@.map_values(|s: Segment| seg_view(s)), pattern_segments(pv, pattern@, 0))
                == pattern_segments(pv, pattern@, 0)) by {
                match pattern_segments(pv, pattern@, 0) {
                    Ok(x) => {
                        assert(segments@.map_values(|s: Segment| seg_view(s)) + x =~= x);
                    },
                    Err(_) => {},
                }
            }
            let mut k: usize = 0;
            while k < pieces.len()
                invariant
                    k <= pieces@.len(),
                    pv == vec_views(pieces@),
                    route_spec(method@, pattern@) == pattern_segments(pv, pattern@, 0),
                    pattern_segments(pv, pattern@, 0) == prefixed(
                        segments@.map_values(|s: Segment| seg_view(s)),
                        pattern_segments(pv, pattern@, k as int),
                    ),
                decreases pieces.len() - k,
            {
                let piece = &pieces[k];
                assert(pv[k as int] == piece@);
                if piece.len() == 0 {
                    let mut e: Vec<char> = Vec::new();
                    push_str(&mut e, "route ");
                    let q = debug_quote(pattern);
                    push_str(&mut e, q.as_str());
                    push_str(&mut e, " has an empty segment");
                    assert(e@ =~= "route "@ + debug_quoted(pattern@) + " has an empty segment"@);
                    return Err(string_of(e.as_slice()));
                } else if piece[0] == ':' && piece.len() == 1 {
                    let mut e: Vec<char> = Vec::new();
                    push_str(&mut e, "route ");
                    let q = debug_quote(pattern);
                    push_str(&mut e, q.as_str());
                    push_str(&mut e, " has an unnamed parameter");
                    assert(e@ =~= "route "@ + debug_quoted(pattern@) + " has an unnamed parameter"@);
                    return Err(string_of(e.as_slice()));
                }
                let ghost before = segments@.map_values(|s: Segment| seg_view(s));
                let seg = if piece[0] == ':' {
                    let name = crate::text::slice_chars(piece.as_slice(), 1, piece.len());
                    assert(name@ == piece@.skip(1));
                    Segment::Param(string_of(name.as_slice()))
                } else {
                    Segment::Literal(string_of(piece.as_slice()))
                };
                let ghost sv = seg_view(seg);
                segments.push(seg);
                proof {
                    assert(segments@.map_values(|s: Segment| seg_view(s)) =~= before.push(sv));
                    match pattern_segments(pv, pattern@, k + 1) {
                        Err(_) => {},
                        Ok(x) => {
                            assert(before + (seq![sv] + x) =~= before.push(sv) + x);
                        },
                    }
                }
                k = k + 1;
            }
            proof {
                let done = segments@.map_values(|s: Segment| seg_view(s));
                assert(done + Seq::<SegView>::empty() =~= done);
            }
        } else {
            assert(segments@.map_values(|s: Segment| seg_view(s)) =~= Seq::<SegView>::empty());
        }
        Ok(RouteSpec { method: method.to_string(), pattern: pattern.to_string(), segments })
    }

    /// The parameters this route binds for a path of decoded segments, or `None` when it
    /// does not match.
    pub fn matches(&self, path: &[String]) -> (r: Option<Vec<(String, String)>>)
        ensures
            match r {
                Some(v) => route_match(self.segs(), vec_strs(path@), 0) == Some(
                    v@.map_values(|p: (String, String)| (p.0@, p.1@)),
                ),
                None => route_match(self.segs(), vec_strs(path@), 0) is None,
            },
    {
        let ghost sv = self.segs();
        let ghost pv = vec_strs(path@);
        if path.len() != self.segments.len() {
            return None;
        }
        let mut params: Vec<(String, String)> = Vec::new();
        let mut k: usize = 0;
        while k < path.len()
            invariant
                k <= path@.len(),
                path@.len() == self.segments@.len(),
                sv == self.segs(),
                pv == vec_strs(path@),
                route_match(sv, pv, 0) == opt_prefixed(
                    params@.map_values(|p: (String, String)| (p.0@, p.1@)),
                    route_match(sv, pv, k as int),
                ),
            decreases path.len() - k,
        {
            let ghost before = params@.map_values(|p: (String, String)| (p.0@, p.1@));
            assert(sv[k as int] == seg_view(self.segments@[k as int]));
            assert(pv[k as int] == path@[k as int]@);
            match &self.segments[k] {
                Segment::Literal(l) => {
                    let a = chars_of(l.as_str());
                    let b = chars_of(path[k].as_str());
                    if !same_chars(a.as_slice(), b.as_slice()) {
                        return None;
                    }
                },
                Segment::Param(n) => {
                    params.push((n.clone(), path[k].clone()));
                    proof {
                        assert(params@.map_values(|p: (String, String)| (p.0@, p.1@)) =~= before.push(
                            (n@, path@[k as int]@),
                        ));
                        match route_match(sv, pv, k + 1) {
                            None => {},
                            Some(x) => {
                                assert(before + (seq![(n@, path@[k as int]@)] + x) =~= before.push(
                                    (n@, path@[k as int]@),
                                ) + x);
                            },
                        }
                    }
                },
            }
            k = k + 1;
        }
        proof {
            let done = params@.map_values(|p: (String, String)| (p.0@, p.1@));
            assert(done + Seq::<(Seq<char>, Seq<char>)>::empty() =~= done);
        }
        Some(params)
    }
}

pub open spec fn prefixed(done: Seq<SegView>, r: Result<Seq<SegView>, Seq<char>>) -> Result<
    Seq<SegView>,
    Seq<char>,
> {
    match r {
        Ok(x) => Ok(done + x),
        Err(e) => Err(e),
    }
}

pub open spec fn opt_prefixed(
    done: Seq<(Seq<char>, Seq<char>)>,
    r: Option<Seq<(Seq<char>, Seq<char>)>>,
) -> Option<Seq<(Seq<char>, Seq<char>)>> {
    match r {
        Some(x) => Some(done + x),
        None => None,
    }
}

proof fn lemma_route_match_none(segs: Seq<SegView>, path: Seq<Seq<char>>, k: int)
    requires
        segs.len() == path.len(),
        0 <= k < segs.len(),
        route_match(segs, path, k) is None,
    ensures
        route_match(segs, path, 0) is None,
    decreases k,
{
    if k > 0 {
        lemma_route_match_none(segs, path, k - 1);
    }
}

pub open spec fn vec_strs(v: Seq<String>) -> Seq<Seq<char>> {
    v.map_values(|s: String| s@)
}

/// Where a request path leads within an app.
#[derive(Debug, Clone, PartialEq, Eq)]
pub enum Resolved {
    /// Handler `index`, with the `:params` bound.
    Match {
        /// The route index.
        index: usize,
        /// Name and decoded value, in pattern order.
        params: Vec<(String, String)>,
    },
    /// A pattern matched but not with this method.
    MethodNotAllowed {
        /// The methods that would have.
        allow: Vec<String>,
    },
    /// Nothing registered here.
    NotFound,
}

/// A resolution as plain values.
pub enum ResolvedView {
    Match { index: int, params: Seq<(Seq<char>, Seq<char>)> },
    MethodNotAllowed { allow: Seq<Seq<char>> },
    NotFound,
}

/// A route as plain values: its method and its segments.
pub open spec fn routes_view(routes: Seq<RouteSpec>) -> Seq<(Seq<char>, Seq<SegView>)> {
    routes.map_values(|r: RouteSpec| (r@.0, r@.2))
}

/// Resolution from route `k` on, with the methods `allow` collected before it: the first
/// route whose pattern matches and whose method is the request's (`HEAD` answering to a
/// `GET` route) wins; a pattern that matches under another method adds that method, once.
pub open spec fn resolve_from(
    routes: Seq<(Seq<char>, Seq<SegView>)>,
    method: Seq<char>,
    path: Seq<Seq<char>>,
    k: int,
    allow: Seq<Seq<char>>,
) -> ResolvedView
    decreases routes.len() - k,
{
    if k >= routes.len() || k < 0 {
        if allow.len() == 0 {
            ResolvedView::NotFound
        } else {
            ResolvedView::MethodNotAllowed { allow }
        }
    } else {
        match route_match(routes[k].1, path, 0) {
            None => resolve_from(routes, method, path, k + 1, allow),
            Some(params) => if routes[k].0 == method || (method == "HEAD"@ && routes[k].0 == "GET"@) {
                ResolvedView::Match { index: k, params }
            } else {
                resolve_from(
                    routes,
                    method,
                    path,
                    k + 1,
                    if allow.contains(routes[k].0) { allow } else { allow.push(routes[k].0) },
                )
            },
        }
    }
}

pub open spec fn resolved_view(r: Resolved) -> ResolvedView {
    match r {
        Resolved::Match { index, params } => ResolvedView::Match {
            index: index as int,
            params: params@.map_values(|p: (String, String)| (p.0@, p.1@)),
        },
        Resolved::MethodNotAllowed { allow } => ResolvedView::MethodNotAllowed {
            allow: vec_strs(allow@),
        },
        Resolved::NotFound => ResolvedView::NotFound,
    }
}

/// Resolve a method (compared upper-cased) and the decoded segments of a path beneath the
/// mount against a route table. `HEAD` matches a `GET` route. The first registered match
/// wins.
pub fn resolve(routes: &[RouteSpec], method: &str, path: &[String]) -> (r: Resolved)
    ensures
        resolved_view(r) == resolve_from(
            routes_view(routes@),
            uppered(method@),
            vec_strs(path@),
            0,
            Seq::empty(),
        ),
{
    let ghost rv = routes_view(routes@);
    let m = uppered_exec(chars_of(method).as_slice());
    let head = chars_of("HEAD");
    let get = chars_of("GET");
    let mut allow: Vec<String> = Vec::new();
    assert(vec_strs(allow@) =~= Seq::<Seq<char>>::empty());
    let mut k: usize = 0;
    while k < routes.len()
        invariant
            k <= routes@.len(),
            rv == routes_view(routes@),
            m@ == uppered(method@),
            head@ == "HEAD"@,
            get@ == "GET"@,
            resolve_from(rv, m@, vec_strs(path@), k as int, vec_strs(allow@)) == resolve_from(
                rv,
                uppered(method@),
                vec_strs(path@),
                0,
                Seq::empty(),
            ),
        decreases routes.len() - k,
    {
        assert(rv[k as int] == (routes@[k as int]@.0, routes@[k as int]@.2));
        match routes[k].matches(path) {
            None => {},
            Some(params) => {
                let rm = chars_of(routes[k].method.as_str());
                if same_chars(rm.as_slice(), m.as_slice()) || (same_chars(m.as_slice(), head.as_slice())
                    && same_chars(rm.as_slice(), get.as_slice())) {
                    return Resolved::Match { index: k, params };
                }
                let ghost before = vec_strs(allow@);
                let mut seen = false;
                let mut j: usize = 0;
                while j < allow.len()
                    invariant
                        j <= allow@.len(),
                        before == vec_strs(allow@),
                        seen == exists|i: int| 0 <= i < j && before[i] == rm@,
                    decreases allow.len() - j,
                {
                    let a = chars_of(allow[j].as_str());
                    assert(before[j as int] == a@);
                    if same_chars(a.as_slice(), rm.as_slice()) {
                        seen = true;
                    }
                    j = j + 1;
                }
                assert(seen == before.contains(rm@));
                if !seen {
                    allow.push(routes[k].method.clone());
                    assert(vec_strs(allow@) =~= before.push(rm@));
                }
            },
        }
        k = k + 1;
    }
    if allow.len() == 0 {
        Resolved::NotFound
    } else {
        Resolved::MethodNotAllowed { allow }
    }
}

/// Where in the app's source an error points: the first `file:line` of a traceback that
/// names one of the app's own files, with the lines around it.
#[derive(Debug, Clone, PartialEq, Eq)]
pub struct SourceContext {
    /// Relative to the app folder: `views/index.lsp`, `app.lua`, `lib/tree.lua`.
    pub file: String,
    /// The offending line, 1-based.
    pub line: u32,
    /// `(line number, text)` for the offending line and a few around it.
    pub lines: Vec<(u32, String)>,
}

/// `s` right-aligned in four columns.
pub open spec fn pad4(s: Seq<char>) -> Seq<char> {
    if s.len() >= 4 {
        s
    } else {
        Seq::new((4 - s.len()) as nat, |i: int| ' ') + s
    }
}

/// The lines of the context from `k` on, each `"{marker} {number:>4}  {text}\n"`, the
/// marker `>` on the offending line.
pub open spec fn context_lines(lines: Seq<(u32, Seq<char>)>, line: u32) -> Seq<char>
    decreases lines.len(),
{
    if lines.len() == 0 {
        Seq::empty()
    } else {
        let (n, t) = lines.last();
        context_lines(lines.drop_last(), line) + seq![if n == line { '>' } else { ' ' }, ' ']
            + pad4(decimal(n as nat)) + "  "@ + t + seq!['\n']
    }
}

impl SourceContext {
    /// How many lines are shown on each side of the offending one.
    pub const AROUND: u32 = 3;

    /// The context as the terminal prints it: `file:line`, then each line numbered, a `>`
    /// marking the offending one.
    pub fn render_text(&self) -> (r: String)
        ensures
            r@ == self.file@ + ":"@ + decimal(self.line as nat) + "\n"@ + context_lines(
                self.lines@.map_values(|l: (u32, String)| (l.0, l.1@)),
                self.line,
            ),
    {
        let ghost lv = self.lines@.map_values(|l: (u32, String)| (l.0, l.1@));
        let mut out: Vec<char> = Vec::new();
        push_str(&mut out, self.file.as_str());
        push_str(&mut out, ":");
        let d = decimal_exec(self.line as u64);
        push_all(&mut out, d.as_slice());
        push_str(&mut out, "\n");
        let ghost head = out@;
        let mut k: usize = 0;
        while k < self.lines.len()
            invariant
                k <= self.lines@.len(),
                lv == self.lines@.map_values(|l: (u32, String)| (l.0, l.1@)),
                out@ == head + context_lines(lv.take(k as int), self.line),
            decreases self.lines.len() - k,
        {
            let ghost before = out@;
            let n = self.lines[k].0;
            if n == self.line {
                out.push('>');
            } else {
                out.push(' ');
            }
            out.push(' ');
            let digits = decimal_exec(n as u64);
            let mut pad = digits.len();
            while pad < 4
                invariant
                    digits.len() <= pad <= 4 || (pad == digits.len() && pad >= 4),
                    out@ == before + seq![if n == self.line { '>' } else { ' ' }, ' '] + Seq::new(
                        (pad - digits.len()) as nat,
                        |i: int| ' ',
                    ),
                decreases 4 - pad,
            {
                out.push(' ');
                pad = pad + 1;
                assert(Seq::new((pad - digits.len()) as nat, |i: int| ' ') =~= Seq::new(
                    (pad - 1 - digits.len()) as nat,
                    |i: int| ' ',
                ).push(' '));
            }
            push_all(&mut out, digits.as_slice());
            push_str(&mut out, "  ");
            push_str(&mut out, self.lines[k].1.as_str());
            out.push('\n');
            proof {
                assert(lv.take(k + 1).drop_last() =~= lv.take(k as int));
                assert(lv.take(k + 1).last() == (n, self.lines@[k as int].1@));
                if digits@.len() >= 4 {
                    assert(Seq::new((pad - digits.len()) as nat, |i: int| ' ') =~= Seq::<char>::empty());
                }
                assert(out@ =~= head + context_lines(lv.take(k + 1), self.line));
            }
            k = k + 1;
        }
        assert(lv.take(self.lines@.len() as int) =~= lv);
        string_of(out.as_slice())
    }
}

/// The lines of `text` as `str::lines` yields them: split at line feeds, a final line
/// feed ending the text rather than starting an empty line, and one carriage return
/// before each line feed dropped.
pub open spec fn text_lines(text: Seq<char>) -> Seq<Seq<char>> {
    let parts = split(text, '\n');
    let kept = if parts.last().len() == 0 { parts.drop_last() } else { parts };
    kept.map_values(|l: Seq<char>| if l.len() > 0 && l.last() == '\r' { l.drop_last() } else { l })
}

pub proof fn lemma_text_lines_len(text: Seq<char>)
    ensures
        text_lines(text).len() <= text.len() + 1,
{
    crate::text::lemma_split_len(text, '\n');
    crate::text::lemma_split_nonempty(text, '\n');
}

/// The lines of `text`, as `str::lines` yields them.
pub fn lines_of(text: &str) -> (r: Vec<Vec<char>>)
    ensures
        vec_views(r@) == text_lines(text@),
{
    let chars = chars_of(text);
    let parts = split_exec(chars.as_slice(), '\n');
    proof {
        crate::text::lemma_split_nonempty(text@, '\n');
        crate::text::lemma_split_len(text@, '\n');
    }
    let ghost pv = vec_views(parts@);
    let kept = if parts[parts.len() - 1].len() == 0 { parts.len() - 1 } else { parts.len() };
    let ghost lines = text_lines(text@);
    assert(lines.len() == kept) by {
        assert(pv.last() == parts@[parts@.len() - 1]@);
    }
    let mut out: Vec<Vec<char>> = Vec::new();
    let mut k: usize = 0;
    while k < kept
        invariant
            k <= kept,
            kept == lines.len(),
            kept <= pv.len(),
            pv == vec_views(parts@),
            lines == text_lines(text@),
            forall|j: int| 0 <= j < kept ==> #[trigger] lines[j] == (if pv[j].len() > 0 && pv[j].last() == '\r' {
                pv[j].drop_last()
            } else {
                pv[j]
            }),
            vec_views(out@) == lines.take(k as int),
        decreases kept - k,
    {
        let p = &parts[k];
        assert(pv[k as int] == p@);
        let end = if p.len() > 0 && p[p.len() - 1] == '\r' { p.len() - 1 } else { p.len() };
        let t = crate::text::slice_chars(p.as_slice(), 0, end);
        assert(t@ == lines[k as int]) by {
            if p@.len() > 0 && p@.last() == '\r' {
                assert(t@ =~= p@.drop_last());
            } else {
                assert(t@ =~= p@);
            }
        }
        let ghost before = vec_views(out@);
        let ghost tv = t@;
        out.push(t);
        assert(vec_views(out@) =~= before.push(tv));
        assert(lines.take(k + 1) =~= lines.take(k as int).push(lines[k as int]));
        assert(vec_views(out@) =~= lines.take(k + 1));
        k = k + 1;
    }
    assert(lines.take(kept as int) =~= lines);
    out
}

/// The lines of `text` numbered from 1, kept from `first` to `last`.
pub open spec fn numbered_between(lines: Seq<Seq<char>>, first: int, last: int) -> Seq<(u32, Seq<char>)>
    decreases lines.len(),
{
    if lines.len() == 0 {
        Seq::empty()
    } else {
        let n = lines.len();
        let rest = numbered_between(lines.drop_last(), first, last);
        if first <= n <= last { rest.push((n as u32, lines.last())) } else { rest }
    }
}

/// The context for an error that `locate` placed at `reported` in `file`, whose text is
/// `text`: the line clamped into the file — Lua reports an unclosed block at the line
/// after the last — and the three lines either side of it. `None` for an empty file.
pub open spec fn context_spec(file: Seq<char>, reported: u32, text: Seq<char>) -> Option<
    (Seq<char>, u32, Seq<(u32, Seq<char>)>),
> {
    let lines = text_lines(text);
    let count = lines.len();
    if count == 0 {
        None
    } else {
        let line: int = if reported < 1 { 1 } else if reported > count { count as int } else { reported as int };
        let first = if line - 3 < 1 { 1 } else { line - 3 };
        let last = if line + 3 > u32::MAX { u32::MAX as int } else { line + 3 };
        Some((file, line as u32, numbered_between(lines, first, last)))
    }
}

/// Build the context for an error that names line `reported` of `file`, from the file's
/// text.
pub fn context_from(file: String, reported: u32, text: &str) -> (r: Option<SourceContext>)
    requires
        text@.len() + 1 < u32::MAX,
    ensures
        match r {
            Some(c) => context_spec(file@, reported, text@) == Some(
                (c.file@, c.line, c.lines@.map_values(|l: (u32, String)| (l.0, l.1@))),
            ),
            None => context_spec(file@, reported, text@) is None,
        },
{
    let chars = chars_of(text);
    let parts = split_exec(chars.as_slice(), '\n');
    proof {
        crate::text::lemma_split_nonempty(text@, '\n');
        crate::text::lemma_split_len(text@, '\n');
    }
    let ghost pv = vec_views(parts@);
    let kept = if parts[parts.len() - 1].len() == 0 { parts.len() - 1 } else { parts.len() };
    let ghost lines = text_lines(text@);
    assert(lines.len() == kept) by {
        assert(pv.last() == parts@[parts@.len() - 1]@);
    }
    if kept == 0 {
        return None;
    }
    let count = kept as u32;
    let line: u32 = if reported < 1 { 1 } else if reported > count { count } else { reported };
    let first: u32 = if line <= 3 { 1 } else if line - 3 < 1 { 1 } else { line - 3 };
    let last: u32 = if line > u32::MAX - 3 { u32::MAX } else { line + 3 };
    let mut out: Vec<(u32, String)> = Vec::new();
    let mut k: usize = 0;
    while k < kept
        invariant
            k <= kept,
            kept == lines.len(),
            kept <= pv.len(),
            pv == vec_views(parts@),
            lines == text_lines(text@),
            kept < u32::MAX,
            forall|j: int| 0 <= j < kept ==> #[trigger] lines[j] == (if pv[j].len() > 0 && pv[j].last() == '\r' {
                pv[j].drop_last()
            } else {
                pv[j]
            }),
            out@.map_values(|l: (u32, String)| (l.0, l.1@)) == numbered_between(
                lines.take(k as int),
                first as int,
                last as int,
            ),
        decreases kept - k,
    {
        let ghost before = out@.map_values(|l: (u32, String)| (l.0, l.1@));
        let n = (k + 1) as u32;
        proof {
            assert(lines.take(k + 1).drop_last() =~= lines.take(k as int));
            assert(lines.take(k + 1).last() == lines[k as int]);
        }
        if first <= n && n <= last {
            let p = &parts[k];
            assert(pv[k as int] == p@);
            let end = if p.len() > 0 && p[p.len() - 1] == '\r' { p.len() - 1 } else { p.len() };
            let t = crate::text::slice_chars(p.as_slice(), 0, end);
            assert(t@ == lines[k as int]) by {
                if p@.len() > 0 && p@.last() == '\r' {
                    assert(t@ =~= p@.drop_last());
                } else {
                    assert(t@ =~= p@);
                }
            }
            out.push((n, string_of(t.as_slice())));
            assert(out@.map_values(|l: (u32, String)| (l.0, l.1@)) =~= before.push((n, t@)));
        }
        k = k + 1;
    }
    assert(lines.take(kept as int) =~= lines);
    Some(SourceContext { file, line, lines: out })
}

/// Whether `path` is a plain relative path: not empty, not absolute, no `..`, no `:`,
/// and only ASCII letters, digits, `_`, `.`, `/` and `-`.
pub open spec fn plain_path(path: Seq<char>) -> bool {
    &&& path.len() > 0
    &&& path[0] != '/'
    &&& !crate::text::contains_seq(path, ".."@)
    &&& !path.contains(':')
    &&& forall|i: int| 0 <= i < path.len() ==> #[trigger] plain_char(path[i])
}

pub open spec fn plain_char(c: char) -> bool {
    ('a' <= c <= 'z') || ('A' <= c <= 'Z') || ('0' <= c <= '9') || c == '_' || c == '.' || c == '/'
        || c == '-'
}

/// A character a traceback frame's path cannot run back across.
pub open spec fn frame_stop(c: char) -> bool {
    is_ws(c) || c == '[' || c == '<' || c == '(' || c == '"' || c == '\''
}

/// Where the path of a frame ending at `at` begins: after the last stop before it.
pub open spec fn frame_start(m: Seq<char>, at: int) -> int
    decreases at,
{
    if at <= 0 {
        0
    } else if frame_stop(m[at - 1]) {
        at
    } else {
        frame_start(m, at - 1)
    }
}

/// The number of ASCII digits of `m` from `from` on.
pub open spec fn digits_from(m: Seq<char>, from: int) -> int
    decreases m.len() - from,
{
    if from < 0 || from >= m.len() || !('0' <= m[from] <= '9') {
        0
    } else {
        1 + digits_from(m, from + 1)
    }
}

/// The frame `<path><ext><n>` whose extension `ext` (`.lsp:` or `.lua:`) stands at `at`,
/// when the line number reads as a `u32` and the path is plain.
pub open spec fn frame_at(m: Seq<char>, at: int, ext: Seq<char>) -> Option<(Seq<char>, u32)> {
    if !crate::text::occurs_at(m, ext, at) {
        None
    } else {
        let d0 = at + ext.len();
        let digits = m.subrange(d0, d0 + digits_from(m, d0));
        match crate::text::parse_u32(digits) {
            None => None,
            Some(line) => {
                let path = m.subrange(frame_start(m, at), at + ext.len() - 1);
                if plain_path(path) { Some((path, line)) } else { None }
            },
        }
    }
}

/// A frame whose line number reads, but whose path runs back to a whitespace character
/// written in more than one byte: the byte after it is inside that character.
pub open spec fn frame_panics(m: Seq<char>, at: int, ext: Seq<char>) -> bool {
    let d0 = at + ext.len();
    &&& crate::text::occurs_at(m, ext, at)
    &&& crate::text::parse_u32(m.subrange(d0, d0 + digits_from(m, d0))) is Some
    &&& frame_start(m, at) > 0
    &&& is_ws(m[frame_start(m, at) - 1])
    &&& (m[frame_start(m, at) - 1] as u32) >= 128
}

/// Some frame of `message` is such a frame.
pub open spec fn locate_panics(m: Seq<char>) -> bool {
    exists|at: int| 0 <= at < m.len() && (#[trigger] frame_panics(m, at, ".lsp:"@) || frame_panics(m, at, ".lua:"@))
}

/// The first frame at or after `from` naming a plain `.lsp` or `.lua` path.
pub open spec fn locate_from(m: Seq<char>, from: int) -> Option<(Seq<char>, u32)>
    decreases m.len() - from,
{
    if from < 0 || from >= m.len() {
        None
    } else {
        match frame_at(m, from, ".lsp:"@) {
            Some(f) => Some(f),
            None => match frame_at(m, from, ".lua:"@) {
                Some(f) => Some(f),
                None => locate_from(m, from + 1),
            },
        }
    }
}

fn frame_at_exec(m: &[char], at: usize, ext: &[char]) -> (r: Option<(Vec<char>, u32)>)
    requires
        ext@.len() == 5,
        ext@[4] == ':',
    ensures
        match r {
            Some((p, n)) => frame_at(m@, at as int, ext@) == Some((p@, n)),
            None => frame_at(m@, at as int, ext@) is None,
        },
{
    let n = m.len();
    if !crate::text::occurs_at_exec(m, ext, at) {
        return None;
    }
    let d0 = at + 5;
    let mut d1 = d0;
    while d1 < m.len() && '0' <= m[d1] && m[d1] <= '9'
        invariant
            d0 <= d1 <= m@.len(),
            digits_from(m@, d0 as int) == (d1 - d0) + digits_from(m@, d1 as int),
        decreases m.len() - d1,
    {
        d1 = d1 + 1;
    }
    let line = match crate::text::parse_u32_exec(m, d0, d1) {
        None => {
            return None;
        },
        Some(n) => n,
    };
    let mut start = at;
    while start > 0 && !(is_ws_exec(m[start - 1]) || m[start - 1] == '[' || m[start - 1] == '<'
        || m[start - 1] == '(' || m[start - 1] == '"' || m[start - 1] == '\'')
        invariant
            start <= at,
            at + 5 <= m@.len(),
            frame_start(m@, at as int) == frame_start(m@, start as int),
        decreases start,
    {
        start = start - 1;
    }
    let path = crate::text::slice_chars(m, start, at + 4);
    let dots = chars_of("..");
    proof {
        reveal_strlit("..");
    }
    let mut all_plain = true;
    let mut colon = false;
    let mut i: usize = 0;
    while i < path.len()
        invariant
            i <= path@.len(),
            colon == exists|j: int| 0 <= j < i && path@[j] == ':',
            all_plain == forall|j: int| 0 <= j < i ==> #[trigger] plain_char(path@[j]),
        decreases path.len() - i,
    {
        let c = path[i];
        if c == ':' {
            colon = true;
        }
        if !(('a' <= c && c <= 'z') || ('A' <= c && c <= 'Z') || ('0' <= c && c <= '9') || c == '_'
            || c == '.' || c == '/' || c == '-') {
            all_plain = false;
        }
        proof {
            if all_plain {
                assert forall|j: int| 0 <= j < i + 1 implies #[trigger] plain_char(path@[j]) by {
                    if j == i {
                        assert(path@[j] == c);
                    }
                }
            } else if !plain_char(c) {
                assert(path@[i as int] == c);
                assert(!plain_char(path@[i as int]));
            }
        }
        i = i + 1;
    }
    assert(colon == path@.contains(':'));
    let plain = path.len() > 0 && path[0] != '/' && !crate::text::contains_exec(
        path.as_slice(),
        dots.as_slice(),
    ) && all_plain && !colon;
    assert(plain == plain_path(path@));
    assert(digits_from(m@, d1 as int) == 0);
    assert(path@ == m@.subrange(frame_start(m@, at as int), at + ext@.len() - 1));
    if plain {
        Some((path, line))
    } else {
        None
    }
}

/// The first `<relative path>.lsp:<n>` or `.lua:<n>` in `message`, with the path a plain
/// relative one — a traceback frame, never something a request could have spelled.
pub fn locate(message: &str) -> (r: Option<(String, u32)>)
    requires
        !locate_panics(message@),
    ensures
        match r {
            Some((p, n)) => locate_from(message@, 0) == Some((p@, n)),
            None => locate_from(message@, 0) is None,
        },
{
    let m = chars_of(message);
    let lsp = chars_of(".lsp:");
    let lua = chars_of(".lua:");
    proof {
        reveal_strlit(".lsp:");
        reveal_strlit(".lua:");
    }
    let mut at: usize = 0;
    while at < m.len()
        invariant
            at <= m@.len(),
            m@ == message@,
            lsp@ == ".lsp:"@,
            lua@ == ".lua:"@,
            lsp@.len() == 5 && lsp@[4] == ':',
            lua@.len() == 5 && lua@[4] == ':',
            locate_from(m@, 0) == locate_from(m@, at as int),
        decreases m.len() - at,
    {
        match frame_at_exec(m.as_slice(), at, lsp.as_slice()) {
            Some((p, n)) => {
                return Some((string_of(p.as_slice()), n));
            },
            None => {},
        }
        match frame_at_exec(m.as_slice(), at, lua.as_slice()) {
            Some((p, n)) => {
                return Some((string_of(p.as_slice()), n));
            },
            None => {},
        }
        at = at + 1;
    }
    None
}

/// Whether two route tables agree by method, pattern and count; if not, which index
/// differs and how. `vm` names the table being compared: `usize::MAX` for a rebuilt VM.
pub fn same_routes(first: &[RouteSpec], other: &[RouteSpec], vm: usize) -> (r: Result<(), String>)
    ensures
        r is Ok <==> (first@.len() == other@.len() && forall|i: int|
            0 <= i < first@.len() ==> #[trigger] first@[i]@.0 == other@[i]@.0 && first@[i]@.1
                == other@[i]@.1),
{
    let mut name: Vec<char> = Vec::new();
    if vm == usize::MAX {
        push_str(&mut name, "a rebuilt VM");
    } else {
        push_str(&mut name, "VM ");
        let d = decimal_exec(vm as u64);
        push_all(&mut name, d.as_slice());
    }
    if first.len() != other.len() {
        let mut e: Vec<char> = Vec::new();
        push_str(&mut e, "app.lua registers routes non-deterministically: ");
        push_all(&mut e, name.as_slice());
        push_str(&mut e, " registered ");
        push_all(&mut e, decimal_exec(other.len() as u64).as_slice());
        push_str(&mut e, " route(s) where VM 0 registered ");
        push_all(&mut e, decimal_exec(first.len() as u64).as_slice());
        push_str(&mut e, " (§2.4)");
        return Err(string_of(e.as_slice()));
    }
    let mut i: usize = 0;
    while i < first.len()
        invariant
            i <= first@.len(),
            first@.len() == other@.len(),
            forall|j: int| 0 <= j < i ==> #[trigger] first@[j]@.0 == other@[j]@.0 && first@[j]@.1
                == other@[j]@.1,
        decreases first.len() - i,
    {
        let am = chars_of(first[i].method.as_str());
        let bm = chars_of(other[i].method.as_str());
        let ap = chars_of(first[i].pattern.as_str());
        let bp = chars_of(other[i].pattern.as_str());
        assert(am@ == first@[i as int]@.0 && ap@ == first@[i as int]@.1);
        assert(bm@ == other@[i as int]@.0 && bp@ == other@[i as int]@.1);
        if !same_chars(am.as_slice(), bm.as_slice()) || !same_chars(ap.as_slice(), bp.as_slice()) {
            let mut e: Vec<char> = Vec::new();
            push_str(&mut e, "app.lua registers routes non-deterministically: at index ");
            push_all(&mut e, decimal_exec(i as u64).as_slice());
            push_str(&mut e, " ");
            push_all(&mut e, name.as_slice());
            push_str(&mut e, " registered ");
            push_all(&mut e, bm.as_slice());
            push_str(&mut e, " ");
            push_all(&mut e, bp.as_slice());
            push_str(&mut e, " where VM 0 registered ");
            push_all(&mut e, am.as_slice());
            push_str(&mut e, " ");
            push_all(&mut e, ap.as_slice());
            push_str(&mut e, " (§2.4)");
            return Err(string_of(e.as_slice()));
        }
        i = i + 1;
    }
    Ok(())
}

/// What a handler answered.
#[derive(Debug, Clone, PartialEq, Eq)]
pub enum LuaResponse {
    /// A string: `text/html`.
    Html(Vec<u8>),
    /// `pv.text`.
    Text(Vec<u8>),
    /// `pv.json`, already serialized.
    Json(String),
    /// `pv.redirect`: 303 to this location, exactly as given.
    Redirect(String),
    /// `pv.render`, fulfilled: the view rendered. `complete` says the app supplied the
    /// whole document, so the wire layer adds no page frame.
    View {
        /// The HTML.
        html: Vec<u8>,
        /// Whether to serve it as it is rather than inside the framework's frame.
        complete: bool,
    },
    /// `nil`: 204.
    NoContent,
}

/// What a handler is handed.
#[derive(Debug, Clone, Default)]
pub struct LuaRequest {
    /// Upper-case.
    pub method: String,
    /// The path beneath the mount, `/` for the mount point.
    pub path: String,
    /// The bound `:params`.
    pub params: Vec<(String, String)>,
    /// The query string, decoded, by name.
    pub query: Vec<(String, String)>,
    /// A form-encoded body, decoded, by name.
    pub form: Vec<(String, String)>,
    /// The body as received.
    pub body: Vec<u8>,
    /// Lower-case names.
    pub headers: Vec<(String, String)>,
    /// The paired device's ID.
    pub device: String,
    /// Whether `HX-Request` was present.
    pub is_htmx: bool,
}

/// Why a run did not produce a response.
#[derive(Debug, Clone, PartialEq, Eq)]
pub enum RunError {
    /// A limit was exceeded. The request is a 500 and an audit row; the VM has been
    /// discarded.
    Limit {
        /// Which.
        kind: LimitKind,
        /// What the hook or the allocator said.
        detail: String,
    },
    /// The handler or a template raised, or the handler returned something that is not a
    /// response.
    Lua {
        /// The error and its traceback, template lines already mapped to the `.lsp`.
        message: String,
        /// The offending line with context, when the traceback names an app file.
        at: Option<SourceContext>,
    },
    /// The pool could not supply a VM.
    Pool(String),
}

impl RunError {
    /// The error as one line: `{kind} limit exceeded: {detail}`, or the message.
    pub fn text(&self) -> (r: String)
        ensures
            r@ == match self {
                RunError::Limit { kind, detail } => crate::lua::limits::kind_text(*kind) + " limit exceeded: "@
                    + detail@,
                RunError::Lua { message, .. } => message@,
                RunError::Pool(message) => message@,
            },
    {
        match self {
            RunError::Limit { kind, detail } => {
                let mut out: Vec<char> = Vec::new();
                push_str(&mut out, kind.as_str());
                push_str(&mut out, " limit exceeded: ");
                push_str(&mut out, detail.as_str());
                string_of(out.as_slice())
            },
            RunError::Lua { message, .. } => message.clone(),
            RunError::Pool(message) => message.clone(),
        }
    }
}

/// Facts about the node a handler may ask for through `pv.node()`.
#[derive(Debug, Clone, PartialEq, Eq)]
pub struct NodeFacts {
    /// The Node ID.
    pub id: String,
    /// The node's display name, or the Node ID while unset.
    pub name: String,
    /// Whether the node runs in solo mode.
    pub solo: bool,
    /// Which tier built this app's cache, if any has.
    pub restore_tier: Option<u8>,
}

/// The `ui.*` settings `fmt.*` reads.
#[derive(Debug, Clone, PartialEq, Eq)]
pub struct UiSettings {
    /// `ui.locale`, `en-US` by default.
    pub locale: String,
    /// `ui.date_format`: `iso`, `us` or `eu`.
    pub date_format: String,
}

impl Default for UiSettings {
    fn default() -> (r: Self)
        ensures
            r.locale@ == "en-US"@,
            r.date_format@ == "iso"@,
    {
        UiSettings { locale: "en-US".to_string(), date_format: "iso".to_string() }
    }
}

} // verus!
