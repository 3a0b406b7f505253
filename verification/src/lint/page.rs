//! An HTML page under `web/` or `static/`: the element rules over its tree, `PV404` over
//! the whole document, the mount-path and origin rules over its attributes, the
//! JavaScript rules over its inline scripts, and the edit that adds `focusable="false"`
//! to an inline `<svg>`.

use vstd::prelude::*;
use crate::lint::html::{
    all_text_spec, attr_of, dangling_ok, desc, elem_v, find_all_spec, findings_spec, findings_v, headings_of, parse_spec,
    refs_v, Element, ElemV, ElementFinding, FindingV,
};
use crate::lint::template::{attributes_v, attrs_in, AttrV, Attribute};
use crate::lint::web::{js_findings, js_readable, pending_v, recorded, recorded_as, strings_v, FSpec, JsEnv, Pending};
use crate::lint::{Ctx, Finding, RuleId};
use crate::lint::sql::lemma_utf8_prefix;
use crate::text::{chars_of, decimal, line_at, newlines, push_str, string_of, utf8_len};

verus! {

/// The element findings, with `focusable="false"` as the fix of those that have one.
pub open spec fn element_fspecs(fs: Seq<FindingV>) -> Seq<FSpec> {
    Seq::new(
        fs.len(),
        |k: int|
            FSpec {
                id: fs[k].rule,
                line: fs[k].line,
                message: fs[k].message,
                fix: if fs[k].fixable { Some("focusable=\"false\""@) } else { None },
                edit: None,
            },
    )
}

/// How many of the headings are `<h1>`.
pub open spec fn h1_count(hs: Seq<(u32, u32)>) -> nat
    decreases hs.len(),
{
    if hs.len() == 0 {
        0
    } else {
        h1_count(hs.drop_last()) + if hs.last().0 == 1 { 1nat } else { 0nat }
    }
}

/// A heading level more than one below the one before it.
pub open spec fn skip_of(before: (u32, u32), after: (u32, u32)) -> Seq<FSpec> {
    if after.0 > before.0 + 1 {
        seq![
            FSpec {
                id: RuleId::PV404,
                line: after.1,
                message: "<h"@ + decimal(before.0 as nat) + "> is followed by <h"@ + decimal(after.0 as nat)
                    + ">; levels do not skip"@,
                fix: Some("<h"@ + decimal((before.0 + 1) as nat) + ">"@),
                edit: None,
            },
        ]
    } else {
        Seq::empty()
    }
}

/// The skipped levels between each heading and the next.
pub open spec fn skips(hs: Seq<(u32, u32)>) -> Seq<FSpec>
    decreases hs.len(),
{
    if hs.len() <= 1 {
        Seq::empty()
    } else {
        skips(hs.drop_last()) + skip_of(hs[hs.len() - 2], hs.last())
    }
}

/// `PV404` over the document: exactly one `<h1>`, first, and no skipped level.
pub open spec fn heading_fspecs(hs: Seq<(u32, u32)>) -> Seq<FSpec> {
    let n = h1_count(hs);
    (if n != 1 {
        seq![
            FSpec {
                id: RuleId::PV404,
                line: if hs.len() > 0 { hs[0].1 } else { 1 },
                message: decimal(n) + " <h1> elements; a page carries exactly one"@,
                fix: None,
                edit: None,
            },
        ]
    } else {
        Seq::empty()
    }) + (if hs.len() > 0 && hs[0].0 != 1 {
        seq![
            FSpec {
                id: RuleId::PV404,
                line: hs[0].1,
                message: "the first heading is <h"@ + decimal(hs[0].0 as nat) + ">, not <h1>"@,
                fix: None,
                edit: None,
            },
        ]
    } else {
        Seq::empty()
    }) + skips(hs)
}

/// An attribute that makes the browser load what it names.
pub open spec fn resource(a: AttrV) -> bool {
    a.name == "src"@ || a.name == "srcset"@ || a.name == "poster"@ || (a.name == "href"@ && a.tag == "link"@)
}

/// The rules at one attribute: a literal mount path, and a resource on another origin.
pub open spec fn attr_fspecs_one(h: Seq<char>, a: AttrV, slug: Seq<char>, remote: Seq<Seq<char>>) -> Seq<FSpec> {
    let line = line_at(h, a.at) as u32;
    (match crate::lint::mount_of(a.value) {
        Some((target, beneath)) => seq![
            FSpec {
                id: RuleId::PV301,
                line,
                message: "literal mount path '/a/"@ + target + "/' in "@ + a.name + "=\"…\" breaks solo mode"@,
                fix: if target == slug {
                    Some("build the URL with pv.url('"@ + beneath + "') in app.js, or write a relative path"@)
                } else {
                    None
                },
                edit: None,
            },
        ],
        None => Seq::empty(),
    }) + match crate::lint::origin(a.value) {
        Some(o) => if resource(a) {
            seq![
                FSpec {
                    id: RuleId::PV504,
                    line,
                    message: a.tag + " loaded from "@ + o
                        + " — a CDN is a third party on the critical path, an offline failure and an IP leak"@,
                    fix: Some("vendor the file under web/vendor/"@),
                    edit: None,
                },
            ] + if !remote.contains(o) {
                seq![
                    FSpec {
                        id: RuleId::PV207,
                        line,
                        message: o + " is referenced but not declared in permissions.remote; the CSP blocks it silently"@,
                        fix: Some("vendor it, or declare the origin in [permissions] remote with a comment saying why"@),
                        edit: None,
                    },
                ]
            } else {
                Seq::empty()
            }
        } else {
            Seq::empty()
        },
        None => Seq::empty(),
    }
}

/// The rules over each attribute, in order.
pub open spec fn attr_fspecs(h: Seq<char>, attrs: Seq<AttrV>, slug: Seq<char>, remote: Seq<Seq<char>>) -> Seq<FSpec>
    decreases attrs.len(),
{
    if attrs.len() == 0 {
        Seq::empty()
    } else {
        attr_fspecs(h, attrs.drop_last(), slug, remote) + attr_fspecs_one(h, attrs.last(), slug, remote)
    }
}

/// A `<script>` with its code inline rather than in `src`.
pub open spec fn inline_script(s: ElemV) -> bool {
    attr_of(s.attrs, "src"@) is None && crate::text::trim(all_text_spec(s)).len() > 0
}

/// The line before the first line of a script whose code is `body`: where the code first
/// occurs in the page, or the top.
pub open spec fn script_base(h: Seq<char>, body: Seq<char>) -> u32 {
    let at = match crate::text::index_of(h, body, 0) {
        Some(k) => k,
        None => 0,
    };
    (line_at(h, at) - 1) as u32
}

/// What the JavaScript rules read of an inline script.
pub open spec fn script_env(
    h: Seq<char>,
    s: ElemV,
    slug: Seq<char>,
    remote: Seq<Seq<char>>,
    cols: Seq<(Seq<char>, Seq<char>)>,
) -> JsEnv {
    JsEnv { slug, remote, cols, h: all_text_spec(s), base: script_base(h, all_text_spec(s)), edit_file: None }
}

/// An inline script the JavaScript reading takes to its end.
pub open spec fn script_ok(h: Seq<char>, s: ElemV) -> bool {
    let body = all_text_spec(s);
    inline_script(s) ==> js_readable(body) && utf8_len(body) < usize::MAX - 8 && script_base(h, body) + newlines(body) + 1
        <= u32::MAX
}

/// The JavaScript findings of each inline script, in order.
pub open spec fn script_fspecs(
    h: Seq<char>,
    scripts: Seq<ElemV>,
    slug: Seq<char>,
    remote: Seq<Seq<char>>,
    cols: Seq<(Seq<char>, Seq<char>)>,
) -> Seq<FSpec>
    decreases scripts.len(),
{
    if scripts.len() == 0 {
        Seq::empty()
    } else {
        script_fspecs(h, scripts.drop_last(), slug, remote, cols) + if inline_script(scripts.last()) {
            js_findings(script_env(h, scripts.last(), slug, remote, cols)).unwrap()
        } else {
            Seq::empty()
        }
    }
}

/// Every finding a page gives, in order, before the `<svg>` edits.
pub open spec fn page_fspecs(
    h: Seq<char>,
    root: ElemV,
    d: Seq<(Seq<char>, u32)>,
    slug: Seq<char>,
    remote: Seq<Seq<char>>,
    cols: Seq<(Seq<char>, Seq<char>)>,
) -> Seq<FSpec> {
    element_fspecs(findings_spec(root, d)) + heading_fspecs(headings_of(desc(root))) + attr_fspecs(
        h,
        crate::lint::template::attrs_in(h, 0, "?"@),
        slug,
        remote,
    ) + script_fspecs(h, find_all_spec(root, "script"@), slug, remote, cols)
}

/// A `PV401` finding on `line` whose remedy is `focusable`.
pub open spec fn focusable_at(f: Finding, line: u32) -> bool {
    f.id == RuleId::PV401 && f.line == line && crate::text::contains_seq(f.message@, "focusable"@)
}

/// The first finding from `k` on that `focusable_at` `line`.
pub open spec fn first_focusable(fs: Seq<Finding>, line: u32, k: int) -> Option<int>
    decreases fs.len() - k,
{
    if k < 0 || k >= fs.len() {
        None
    } else if focusable_at(fs[k], line) {
        Some(k)
    } else {
        first_focusable(fs, line, k + 1)
    }
}

/// Each inline `<svg` from `from` on, in order, that lacks `focusable` before its `>`:
/// the finding it amends and where it starts.
pub open spec fn svg_marks(h: Seq<char>, fs: Seq<Finding>, from: int) -> Seq<(int, int)>
    decreases h.len() + 1 - from,
{
    let low = crate::text::lowered(h);
    match crate::text::index_of(low, "<svg"@, from) {
        None => Seq::empty(),
        Some(start) => match crate::text::index_of(low, ">"@, start) {
            None => Seq::empty(),
            Some(end) => (if !crate::text::contains_seq(h.subrange(start, end), "focusable"@) {
                match first_focusable(fs, line_at(h, start) as u32, 0) {
                    Some(j) => seq![(j, start)],
                    None => Seq::empty(),
                }
            } else {
                Seq::empty()
            }) + if from < end <= h.len() {
                svg_marks(h, fs, end)
            } else {
                Seq::empty()
            },
        },
    }
}

/// The last mark that amends finding `j`: where its `<svg` starts.
pub open spec fn last_mark(marks: Seq<(int, int)>, j: int) -> Option<int>
    decreases marks.len(),
{
    if marks.len() == 0 {
        None
    } else if marks.last().0 == j {
        Some(marks.last().1)
    } else {
        last_mark(marks.drop_last(), j)
    }
}

/// `f` is `g` with the edit that adds `focusable="false"` to the `<svg` at `start`, and,
/// `with_fix`, the fix that says so.
pub open spec fn svg_edit(g: Finding, f: Finding, h: Seq<char>, path: Seq<char>, start: int, with_fix: bool) -> bool {
    &&& f.id == g.id
    &&& f.severity == g.severity
    &&& f.file == g.file
    &&& f.line == g.line
    &&& f.message == g.message
    &&& if with_fix {
        f.fix matches Some(x) && x@ == "focusable=\"false\""@
    } else {
        f.fix == g.fix
    }
    &&& f.spec == g.spec
    &&& f.edit matches Some(e) && e.file@ == path && e.start == crate::lint::sql::byte_at(h, start) + 4 && e.end == e.start
        && e.replacement@ == " focusable=\"false\""@
}

/// The findings after the `<svg>` edits of `marks`: each amended finding carries the edit
/// of its last mark; the rest are as they were.
pub open spec fn svg_applied(mid: Seq<Finding>, fin: Seq<Finding>, marks: Seq<(int, int)>, h: Seq<char>, path: Seq<char>, with_fix: bool) -> bool {
    &&& fin.len() == mid.len()
    &&& forall|j: int|
        0 <= j < mid.len() ==> match last_mark(marks, j) {
            None => #[trigger] fin[j] == mid[j],
            Some(start) => svg_edit(mid[j], fin[j], h, path, start, with_fix),
        }
}

/// Add one pending finding.
fn pend(out: &mut Vec<Pending>, id: RuleId, line: u32, message: &[char], fix: Option<&[char]>)
    ensures
        pending_v(final(out)@) == pending_v(old(out)@).push(
            FSpec {
                id,
                line,
                message: message@,
                fix: match fix {
                    Some(x) => Some(x@),
                    None => None,
                },
                edit: None,
            },
        ),
{
    let ghost before = pending_v(out@);
    let fx = match fix {
        Some(x) => Some(string_of(x)),
        None => None,
    };
    out.push(Pending { id, line, message: string_of(message), fix: fx, edit: None });
    assert(pending_v(out@) =~= before.push(pending_v(out@).last()));
}

/// The element findings as pending findings.
fn element_pending(fs: &Vec<ElementFinding>, out: &mut Vec<Pending>)
    ensures
        pending_v(final(out)@) == pending_v(old(out)@) + element_fspecs(findings_v(fs@)),
{
    let ghost start = pending_v(out@);
    let ghost fv = findings_v(fs@);
    let focus = chars_of("focusable=\"false\"");
    let mut k: usize = 0;
    while k < fs.len()
        invariant
            k <= fs@.len(),
            fv == findings_v(fs@),
            focus@ == "focusable=\"false\""@,
            pending_v(out@) == start + element_fspecs(fv.subrange(0, k as int)),
        decreases fs@.len() - k,
    {
        let f = &fs[k];
        let m = chars_of(f.message.as_str());
        if f.fixable {
            pend(out, f.rule, f.line, m.as_slice(), Some(focus.as_slice()));
        } else {
            pend(out, f.rule, f.line, m.as_slice(), None);
        }
        assert(element_fspecs(fv.subrange(0, k + 1)) =~= element_fspecs(fv.subrange(0, k as int)).push(element_fspecs(fv)[k as int]));
        k = k + 1;
    }
    assert(fv.subrange(0, fs@.len() as int) =~= fv);
}

proof fn lemma_h1_count_bound(hs: Seq<(u32, u32)>)
    ensures
        h1_count(hs) <= hs.len(),
    decreases hs.len(),
{
    if hs.len() > 0 {
        lemma_h1_count_bound(hs.drop_last());
    }
}

/// `PV404` over the headings, as pending findings.
fn heading_pending(hs: &Vec<(u32, u32)>, out: &mut Vec<Pending>)
    ensures
        pending_v(final(out)@) == pending_v(old(out)@) + heading_fspecs(hs@),
{
    let ghost start = pending_v(out@);
    let mut n: usize = 0;
    let mut k: usize = 0;
    while k < hs.len()
        invariant
            k <= hs@.len(),
            n == h1_count(hs@.subrange(0, k as int)),
            n <= k,
        decreases hs@.len() - k,
    {
        assert(hs@.subrange(0, k + 1).drop_last() =~= hs@.subrange(0, k as int));
        if hs[k].0 == 1 {
            n = n + 1;
        }
        k = k + 1;
    }
    assert(hs@.subrange(0, hs@.len() as int) =~= hs@);
    if n != 1 {
        let mut m = crate::text::decimal_exec(n as u64);
        push_str(&mut m, " <h1> elements; a page carries exactly one");
        let line = if hs.len() > 0 { hs[0].1 } else { 1 };
        pend(out, RuleId::PV404, line, m.as_slice(), None);
    }
    let ghost a1 = pending_v(out@);
    if hs.len() > 0 && hs[0].0 != 1 {
        let mut m = chars_of("the first heading is <h");
        let d = crate::text::decimal_exec(hs[0].0 as u64);
        crate::text::push_all(&mut m, d.as_slice());
        push_str(&mut m, ">, not <h1>");
        pend(out, RuleId::PV404, hs[0].1, m.as_slice(), None);
    }
    let ghost a2 = pending_v(out@);
    if hs.len() > 0 {
        let mut w: usize = 1;
        proof {
            assert(hs@.subrange(0, 1).len() == 1);
            assert(skips(hs@.subrange(0, 1)) =~= Seq::<FSpec>::empty());
        }
        while w < hs.len()
            invariant
                1 <= w <= hs@.len(),
                pending_v(out@) == a2 + skips(hs@.subrange(0, w as int)),
            decreases hs@.len() - w,
        {
            let (before, _) = hs[w - 1];
            let (after, line) = hs[w];
            assert(hs@.subrange(0, w + 1).drop_last() =~= hs@.subrange(0, w as int));
            if (after as u64) > (before as u64) + 1 {
                let mut m = chars_of("<h");
                let bd = crate::text::decimal_exec(before as u64);
                crate::text::push_all(&mut m, bd.as_slice());
                push_str(&mut m, "> is followed by <h");
                let ad = crate::text::decimal_exec(after as u64);
                crate::text::push_all(&mut m, ad.as_slice());
                push_str(&mut m, ">; levels do not skip");
                let mut fx = chars_of("<h");
                let nd = crate::text::decimal_exec(before as u64 + 1);
                crate::text::push_all(&mut fx, nd.as_slice());
                push_str(&mut fx, ">");
                pend(out, RuleId::PV404, line, m.as_slice(), Some(fx.as_slice()));
            }
            proof {
                assert(skips(hs@.subrange(0, w + 1)) == skips(hs@.subrange(0, w as int)) + skip_of(hs@[w - 1], hs@[w as int]));
            }
            w = w + 1;
        }
        proof {
            assert(hs@.subrange(0, hs@.len() as int) =~= hs@);
        }
    }
    proof {
        if hs@.len() == 0 {
            assert(skips(hs@) =~= Seq::<FSpec>::empty());
        }
        assert(pending_v(out@) =~= start + heading_fspecs(hs@));
    }
}

fn same_text(a: &str, b: &str) -> (r: bool)
    ensures
        r == (a@ == b@),
{
    let x = chars_of(a);
    let y = chars_of(b);
    crate::text::same_chars(x.as_slice(), y.as_slice())
}

/// The rules at one attribute, as pending findings.
fn attr_one(h: &[char], a: &Attribute, slug: &String, remote: &[String], out: &mut Vec<Pending>)
    requires
        h@.len() < u32::MAX,
    ensures
        pending_v(final(out)@) == pending_v(old(out)@) + attr_fspecs_one(
            h@,
            AttrV { tag: a.tag@, name: a.name@, value: a.value@, at: a.value_offset as int },
            slug@,
            strings_v(remote@),
        ),
{
    let ghost start = pending_v(out@);
    let ghost av = AttrV { tag: a.tag@, name: a.name@, value: a.value@, at: a.value_offset as int };
    let line = crate::text::line_of(h, a.value_offset);
    match crate::lint::mount_path(a.value.as_str()) {
        Some((target, beneath)) => {
            let mut m = chars_of("literal mount path '/a/");
            push_str(&mut m, target.as_str());
            push_str(&mut m, "/' in ");
            push_str(&mut m, a.name.as_str());
            push_str(&mut m, "=\"…\" breaks solo mode");
            if same_text(target.as_str(), slug.as_str()) {
                let mut fx = chars_of("build the URL with pv.url('");
                push_str(&mut fx, beneath.as_str());
                push_str(&mut fx, "') in app.js, or write a relative path");
                pend(out, RuleId::PV301, line, m.as_slice(), Some(fx.as_slice()));
            } else {
                pend(out, RuleId::PV301, line, m.as_slice(), None);
            }
        },
        None => {},
    }
    let ghost a1 = pending_v(out@);
    match crate::lint::origin_of(a.value.as_str()) {
        Some(o) => {
            let res = same_text(a.name.as_str(), "src") || same_text(a.name.as_str(), "srcset") || same_text(a.name.as_str(), "poster")
                || (same_text(a.name.as_str(), "href") && same_text(a.tag.as_str(), "link"));
            if res {
                let mut m = chars_of(a.tag.as_str());
                push_str(&mut m, " loaded from ");
                push_str(&mut m, o.as_str());
                push_str(&mut m, " — a CDN is a third party on the critical path, an offline failure and an IP leak");
                let fx = chars_of("vendor the file under web/vendor/");
                pend(out, RuleId::PV504, line, m.as_slice(), Some(fx.as_slice()));
                let oc = chars_of(o.as_str());
                let mut declared = false;
                let mut r: usize = 0;
                while r < remote.len()
                    invariant
                        r <= remote@.len(),
                        oc@ == o@,
                        declared == exists|j: int| 0 <= j < r && strings_v(remote@)[j] == o@,
                    decreases remote@.len() - r,
                {
                    let rc = chars_of(remote[r].as_str());
                    assert(strings_v(remote@)[r as int] == rc@);
                    if crate::text::same_chars(rc.as_slice(), oc.as_slice()) {
                        declared = true;
                    }
                    r = r + 1;
                }
                proof {
                    assert(declared == strings_v(remote@).contains(o@));
                }
                if !declared {
                    let mut m2 = oc.clone();
                    push_str(&mut m2, " is referenced but not declared in permissions.remote; the CSP blocks it silently");
                    let fx2 = chars_of("vendor it, or declare the origin in [permissions] remote with a comment saying why");
                    pend(out, RuleId::PV207, line, m2.as_slice(), Some(fx2.as_slice()));
                }
            }
        },
        None => {},
    }
    proof {
        reveal_strlit("src");
        reveal_strlit("srcset");
        reveal_strlit("poster");
        reveal_strlit("href");
        reveal_strlit("link");
        assert(pending_v(out@) =~= start + attr_fspecs_one(h@, av, slug@, strings_v(remote@)));
    }
}

/// The rules over each attribute, as pending findings.
fn attr_pending(h: &[char], attrs: &Vec<Attribute>, slug: &String, remote: &[String], out: &mut Vec<Pending>)
    requires
        h@.len() < u32::MAX,
    ensures
        pending_v(final(out)@) == pending_v(old(out)@) + attr_fspecs(h@, attributes_v(h@, attrs@), slug@, strings_v(remote@)),
{
    let ghost start = pending_v(out@);
    let ghost av = attributes_v(h@, attrs@);
    let mut k: usize = 0;
    while k < attrs.len()
        invariant
            k <= attrs@.len(),
            h@.len() < u32::MAX,
            av == attributes_v(h@, attrs@),
            pending_v(out@) == start + attr_fspecs(h@, av.subrange(0, k as int), slug@, strings_v(remote@)),
        decreases attrs@.len() - k,
    {
        attr_one(h, &attrs[k], slug, remote, out);
        proof {
            assert(av.subrange(0, k + 1).drop_last() =~= av.subrange(0, k as int));
            assert(av[k as int] == AttrV { tag: attrs@[k as int].tag@, name: attrs@[k as int].name@, value: attrs@[k as int].value@, at: attrs@[k as int].value_offset as int });
        }
        k = k + 1;
    }
    assert(av.subrange(0, attrs@.len() as int) =~= av);
}

/// The JavaScript rules over each inline script, recorded in `ctx`.
fn script_checks(
    ctx: &mut Ctx,
    rel: &str,
    h: &[char],
    scripts: &Vec<&Element>,
    columns: &crate::lint::Columns,
    remote: &[String],
)
    requires
        h@.len() < u32::MAX,
        forall|k: int| 0 <= k < scripts@.len() ==> script_ok(h@, #[trigger] refs_v(scripts@)[k]),
    ensures
        recorded(
            *old(ctx),
            *final(ctx),
            rel@,
            script_fspecs(h@, refs_v(scripts@), crate::lint::web::ctx_slug(*old(ctx)), strings_v(remote@), columns@),
        ),
{
    let ghost sv = refs_v(scripts@);
    let ghost slug = crate::lint::web::ctx_slug(*ctx);
    let ghost c0 = *ctx;
    proof {
        assert(script_fspecs(h@, sv.subrange(0, 0), slug, strings_v(remote@), columns@) =~= Seq::<FSpec>::empty());
        assert(c0.findings@.len() == ctx.findings@.len() + 0);
    }
    let mut k: usize = 0;
    while k < scripts.len()
        invariant
            k <= scripts@.len(),
            h@.len() < u32::MAX,
            sv == refs_v(scripts@),
            forall|i: int| 0 <= i < scripts@.len() ==> script_ok(h@, #[trigger] refs_v(scripts@)[i]),
            slug == crate::lint::web::ctx_slug(c0),
            c0 == *old(ctx),
            recorded(c0, *ctx, rel@, script_fspecs(h@, sv.subrange(0, k as int), slug, strings_v(remote@), columns@)),
        decreases scripts@.len() - k,
    {
        let s = scripts[k];
        let ghost before = *ctx;
        proof {
            assert(sv.subrange(0, k + 1).drop_last() =~= sv.subrange(0, k as int));
            assert(sv[k as int] == elem_v(*s));
            assert(script_ok(h@, sv[k as int]));
        }
        let mut ran = false;
        if s.attr("src").is_none() {
            let body = s.all_text();
            let bc = chars_of(body.as_str());
            let (a, b) = crate::text::trim_bounds(bc.as_slice(), 0, bc.len());
            proof {
                assert(bc@.subrange(0, bc@.len() as int) =~= bc@);
            }
            if a < b {
                let at = match crate::text::find(h, bc.as_slice(), 0) {
                    Some(i) => i,
                    None => 0,
                };
                let line = crate::text::line_of(h, at);
                let base = line - 1;
                crate::lint::web::check_js_at(ctx, rel, body.as_str(), base, columns, remote, None);
                ran = true;
            }
        }
        proof {
            let step = if inline_script(sv[k as int]) {
                js_findings(script_env(h@, sv[k as int], slug, strings_v(remote@), columns@)).unwrap()
            } else {
                Seq::<FSpec>::empty()
            };
            if !ran {
                assert(*ctx == before);
                assert(recorded(before, *ctx, rel@, Seq::<FSpec>::empty()));
            }
            assert(recorded(before, *ctx, rel@, step));
            crate::lint::web::lemma_recorded_trans(c0, before, *ctx, rel@, script_fspecs(h@, sv.subrange(0, k as int), slug, strings_v(remote@), columns@), step);
            assert(script_fspecs(h@, sv.subrange(0, k + 1), slug, strings_v(remote@), columns@) == script_fspecs(h@, sv.subrange(0, k as int), slug, strings_v(remote@), columns@) + step);
        }
        k = k + 1;
    }
    assert(sv.subrange(0, scripts@.len() as int) =~= sv);
}

fn focusable_exec(f: &Finding, line: u32) -> (r: bool)
    ensures
        r == focusable_at(*f, line),
{
    let is401 = match f.id {
        RuleId::PV401 => true,
        _ => false,
    };
    if !is401 || f.line != line {
        return false;
    }
    let m = chars_of(f.message.as_str());
    let w = chars_of("focusable");
    crate::text::contains_exec(m.as_slice(), w.as_slice())
}

proof fn lemma_last_mark_push(marks: Seq<(int, int)>, j: int, start: int, i: int)
    ensures
        last_mark(marks.push((j, start)), i) == if i == j { Some(start) } else { last_mark(marks, i) },
{
    assert(marks.push((j, start)).drop_last() =~= marks);
}

/// The `<svg>` edits: each inline `<svg` without `focusable` before its `>` gives the first
/// `PV401` finding on its line that asks for `focusable` an edit that adds it.
pub(crate) fn svg_pass(ctx: &mut Ctx, h: &[char], path: &str, with_fix: bool)
    requires
        h@.len() < u32::MAX,
        utf8_len(h@) < usize::MAX - 8,
    ensures
        svg_applied(old(ctx).findings@, final(ctx).findings@, svg_marks(h@, old(ctx).findings@, 0), h@, path@, with_fix),
        final(ctx).display == old(ctx).display,
        final(ctx).folder == old(ctx).folder,
        final(ctx).manifest_slug == old(ctx).manifest_slug,
        final(ctx).solo == old(ctx).solo,
{
    let ghost mid = ctx.findings@;
    let low = crate::text::lowered_exec(h);
    let needle = chars_of("<svg");
    let gt = chars_of(">");
    let foc = chars_of("focusable");
    let ghost mut done: Seq<(int, int)> = Seq::empty();
    let mut from: usize = 0;
    proof {
        assert(svg_applied(mid, ctx.findings@, done, h@, path@, with_fix));
        assert(svg_marks(h@, mid, 0) =~= done + svg_marks(h@, mid, 0));
    }
    while from <= h.len()
        invariant_except_break
            svg_marks(h@, mid, 0) == done + svg_marks(h@, mid, from as int),
            from <= h@.len(),
        invariant
            from <= h@.len() + 1,
            h@.len() < u32::MAX,
            utf8_len(h@) < usize::MAX - 8,
            low@ == crate::text::lowered(h@),
            needle@ == "<svg"@,
            gt@ == ">"@,
            foc@ == "focusable"@,
            mid == old(ctx).findings@,
            svg_applied(mid, ctx.findings@, done, h@, path@, with_fix),
            ctx.display == old(ctx).display,
            ctx.folder == old(ctx).folder,
            ctx.manifest_slug == old(ctx).manifest_slug,
            ctx.solo == old(ctx).solo,
        ensures
            svg_marks(h@, mid, 0) == done,
        decreases h@.len() + 1 - from,
    {
        let start = match crate::text::find(low.as_slice(), needle.as_slice(), from) {
            Some(i) => i,
            None => {
                proof {
                    assert(svg_marks(h@, mid, from as int) =~= Seq::<(int, int)>::empty());
                    assert(done + Seq::<(int, int)>::empty() =~= done);
                }
                break;
            },
        };
        let end = match crate::text::find(low.as_slice(), gt.as_slice(), start) {
            Some(i) => i,
            None => {
                proof {
                    assert(svg_marks(h@, mid, from as int) =~= Seq::<(int, int)>::empty());
                    assert(done + Seq::<(int, int)>::empty() =~= done);
                }
                break;
            },
        };
        proof {
            crate::text::lemma_index_of(low@, needle@, from as int);
            crate::text::lemma_index_of(low@, gt@, start as int);
        }
        let ghost head = if !crate::text::contains_seq(h@.subrange(start as int, end as int), "focusable"@) {
            match first_focusable(mid, line_at(h@, start as int) as u32, 0) {
                Some(j) => seq![(j, start as int)],
                None => Seq::<(int, int)>::empty(),
            }
        } else {
            Seq::<(int, int)>::empty()
        };
        let body = crate::text::slice_chars(h, start, end);
        if !crate::text::contains_exec(body.as_slice(), foc.as_slice()) {
            let line = crate::text::line_of(h, start);
            let mut j: usize = 0;
            while j < ctx.findings.len() && !focusable_exec(&ctx.findings[j], line)
                invariant
                    j <= ctx.findings@.len(),
                    ctx.findings@.len() == mid.len(),
                    svg_applied(mid, ctx.findings@, done, h@, path@, with_fix),
                    first_focusable(mid, line, 0) == first_focusable(mid, line, j as int),
                decreases ctx.findings@.len() - j,
            {
                proof {
                    assert(focusable_at(ctx.findings@[j as int], line) == focusable_at(mid[j as int], line));
                }
                j = j + 1;
            }
            if j < ctx.findings.len() {
                proof {
                    assert(focusable_at(ctx.findings@[j as int], line) == focusable_at(mid[j as int], line));
                    assert(first_focusable(mid, line, j as int) == Some(j as int));
                }
                let at = crate::lint::sql::byte_offset(h, start);
                proof {
                    lemma_utf8_prefix(h@, start as int);
                }
                let g = &ctx.findings[j];
                let nf = Finding {
                    id: g.id,
                    severity: g.severity,
                    file: g.file.clone(),
                    line: g.line,
                    message: g.message.clone(),
                    fix: if with_fix {
                        Some("focusable=\"false\"".to_string())
                    } else {
                        match &g.fix {
                            Some(x) => Some(x.clone()),
                            None => None,
                        }
                    },
                    spec: g.spec,
                    edit: Some(crate::lint::Edit {
                        file: path.to_string(),
                        start: at + 4,
                        end: at + 4,
                        replacement: " focusable=\"false\"".to_string(),
                    }),
                };
                let ghost before = ctx.findings@;
                ctx.findings.set(j, nf);
                proof {
                    assert(svg_edit(mid[j as int], ctx.findings@[j as int], h@, path@, start as int, with_fix)) by {
                        match last_mark(done, j as int) {
                            None => {},
                            Some(s0) => {},
                        }
                    }
                    assert forall|i: int| 0 <= i < mid.len() implies match last_mark(done.push((j as int, start as int)), i) {
                        None => #[trigger] ctx.findings@[i] == mid[i],
                        Some(st) => svg_edit(mid[i], ctx.findings@[i], h@, path@, st, with_fix),
                    } by {
                        lemma_last_mark_push(done, j as int, start as int, i);
                        if i != j {
                            assert(ctx.findings@[i] == before[i]);
                        }
                    }
                    done = done.push((j as int, start as int));
                }
            } else {
                proof {
                    assert(first_focusable(mid, line, j as int) is None);
                }
            }
        }
        proof {
            assert(svg_marks(h@, mid, from as int) == head + if from < end <= h@.len() {
                svg_marks(h@, mid, end as int)
            } else {
                Seq::<(int, int)>::empty()
            });
        }
        if end > from {
            proof {
                assert(done + svg_marks(h@, mid, end as int) =~= svg_marks(h@, mid, 0));
            }
            from = end;
        } else {
            proof {
                assert(done =~= svg_marks(h@, mid, 0));
            }
            break;
        }
    }
}

fn script_is_readable(h: &[char], s: &Element) -> (r: bool)
    requires
        h@.len() < u32::MAX,
    ensures
        r == script_ok(h@, elem_v(*s)),
{
    if s.attr("src").is_some() {
        return true;
    }
    let body = s.all_text();
    let bc = chars_of(body.as_str());
    let (a, b) = crate::text::trim_bounds(bc.as_slice(), 0, bc.len());
    proof {
        assert(bc@.subrange(0, bc@.len() as int) =~= bc@);
    }
    if a >= b {
        return true;
    }
    let width = crate::text::utf8_len_capped(bc.as_slice(), usize::MAX - 8);
    if width >= usize::MAX - 8 {
        return false;
    }
    if !crate::lint::web::js_is_readable(body.as_str()) {
        return false;
    }
    let at = match crate::text::find(h, bc.as_slice(), 0) {
        Some(i) => i,
        None => 0,
    };
    let line = crate::text::line_of(h, at);
    let nl = crate::text::count_newlines(bc.as_slice(), 0, bc.len());
    proof {
        assert(bc@.subrange(0, bc@.len() as int) =~= bc@);
    }
    if nl >= u32::MAX as usize {
        return false;
    }
    (line - 1) as u64 + nl as u64 + 1 <= u32::MAX as u64
}

/// Whether [`check_html`] takes `text`: it parses, it is short enough to count its lines
/// and bytes, and every inline script in it is JavaScript the rules read to the end. A
/// caller tests here before [`check_html`].
pub fn html_is_checkable(text: &str) -> (r: bool)
    ensures
        r == (text@.len() < u32::MAX && utf8_len(text@) < usize::MAX - 8 && parse_spec(text@) is Some && forall|k: int|
            0 <= k < find_all_spec(parse_spec(text@).unwrap(), "script"@).len() ==> script_ok(
                text@,
                #[trigger] find_all_spec(parse_spec(text@).unwrap(), "script"@)[k],
            )),
{
    let h = chars_of(text);
    if h.len() >= u32::MAX as usize {
        return false;
    }
    let width = crate::text::utf8_len_capped(h.as_slice(), usize::MAX - 8);
    if width >= usize::MAX - 8 {
        return false;
    }
    let root = match crate::lint::html::try_parse(text) {
        Some(r) => r,
        None => {
            return false;
        },
    };
    let scripts = root.find_all("script");
    let ghost sv = refs_v(scripts@);
    let mut k: usize = 0;
    while k < scripts.len()
        invariant
            k <= scripts@.len(),
            h@ == text@,
            h@.len() < u32::MAX,
            sv == refs_v(scripts@),
            sv == find_all_spec(parse_spec(text@).unwrap(), "script"@),
            forall|j: int| 0 <= j < k ==> script_ok(text@, #[trigger] sv[j]),
        decreases scripts.len() - k,
    {
        assert(sv[k as int] == elem_v(*scripts@[k as int]));
        if !script_is_readable(h.as_slice(), scripts[k]) {
            return false;
        }
        k = k + 1;
    }
    true
}

/// What an HTML page gives: the element rules, `PV404` over the document, the attribute
/// rules, and the JavaScript rules over each inline script, recorded in `ctx` for `rel`
/// in that order; then the `<svg>` edits, which name `path`. `remote` holds the origins
/// the manifest declares.
pub fn check_html(
    ctx: &mut Ctx,
    rel: &str,
    text: &str,
    columns: &crate::lint::Columns,
    remote: &[String],
    path: &str,
)
    requires
        text@.len() < u32::MAX,
        utf8_len(text@) < usize::MAX - 8,
        parse_spec(text@) is Some,
        forall|k: int|
            0 <= k < find_all_spec(parse_spec(text@).unwrap(), "script"@).len() ==> script_ok(
                text@,
                #[trigger] find_all_spec(parse_spec(text@).unwrap(), "script"@)[k],
            ),
    ensures
        exists|d: Seq<(Seq<char>, u32)>, mid: Ctx|
            #![trigger page_fspecs(text@, parse_spec(text@).unwrap(), d, crate::lint::web::ctx_slug(*old(ctx)), strings_v(remote@), columns@), svg_marks(text@, mid.findings@, 0)]
            {
                &&& dangling_ok(desc(parse_spec(text@).unwrap()), d)
                &&& recorded(
                    *old(ctx),
                    mid,
                    rel@,
                    page_fspecs(text@, parse_spec(text@).unwrap(), d, crate::lint::web::ctx_slug(*old(ctx)), strings_v(remote@), columns@),
                )
                &&& svg_applied(mid.findings@, final(ctx).findings@, svg_marks(text@, mid.findings@, 0), text@, path@, false)
            },
        final(ctx).display == old(ctx).display,
        final(ctx).folder == old(ctx).folder,
        final(ctx).manifest_slug == old(ctx).manifest_slug,
        final(ctx).solo == old(ctx).solo,
{
    let ghost c0 = *ctx;
    let ghost slug0 = crate::lint::web::ctx_slug(*ctx);
    let h = chars_of(text);
    let root = crate::lint::html::parse(text);
    let ghost rv = elem_v(root);
    let found = crate::lint::html::element_findings(&root);
    let ghost d = choose|d: Seq<(Seq<char>, u32)>| dangling_ok(desc(rv), d) && findings_v(found@) == findings_spec(rv, d);
    let mut out: Vec<Pending> = Vec::new();
    proof {
        assert(pending_v(out@) =~= Seq::<FSpec>::empty());
    }
    element_pending(&found, &mut out);
    let hs = crate::lint::html::headings(&root);
    heading_pending(&hs, &mut out);
    let slug = ctx.slug();
    let attrs = crate::lint::template::attributes_at(text, false);
    attr_pending(h.as_slice(), &attrs, &slug, remote, &mut out);
    let ghost fs1 = pending_v(out@);
    proof {
        assert(fs1 =~= element_fspecs(findings_spec(rv, d)) + heading_fspecs(headings_of(desc(rv))) + attr_fspecs(
            text@,
            attrs_in(text@, 0, "?"@),
            slug0,
            strings_v(remote@),
        ));
    }
    crate::lint::web::record_all(ctx, rel, out);
    let ghost c1 = *ctx;
    let scripts = root.find_all("script");
    proof {
        assert forall|k: int| 0 <= k < scripts@.len() implies script_ok(h@, #[trigger] refs_v(scripts@)[k]) by {
            assert(refs_v(scripts@)[k] == find_all_spec(parse_spec(text@).unwrap(), "script"@)[k]);
        }
    }
    script_checks(ctx, rel, h.as_slice(), &scripts, columns, remote);
    let ghost c2 = *ctx;
    proof {
        crate::lint::web::lemma_recorded_trans(
            c0,
            c1,
            c2,
            rel@,
            fs1,
            script_fspecs(h@, refs_v(scripts@), crate::lint::web::ctx_slug(c1), strings_v(remote@), columns@),
        );
        assert(fs1 + script_fspecs(h@, refs_v(scripts@), crate::lint::web::ctx_slug(c1), strings_v(remote@), columns@) == page_fspecs(
            text@,
            rv,
            d,
            slug0,
            strings_v(remote@),
            columns@,
        ));
    }
    svg_pass(ctx, h.as_slice(), path, false);
    proof {
        assert(recorded(c0, c2, rel@, page_fspecs(text@, rv, d, slug0, strings_v(remote@), columns@)));
        assert(svg_applied(c2.findings@, ctx.findings@, svg_marks(text@, c2.findings@, 0), text@, path@, false));
        assert(rv == parse_spec(text@).unwrap());
        let _ = page_fspecs(text@, parse_spec(text@).unwrap(), d, crate::lint::web::ctx_slug(c0), strings_v(remote@), columns@);
        let _ = svg_marks(text@, c2.findings@, 0);
    }
}

} // verus!
