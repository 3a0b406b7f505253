//! The attribute rules over a template's literal text (`PV301`, `PV504`, `PV207`), with
//! the edit that builds a mount path with `url()`, and `PV401`'s `focusable` fix over its
//! inline `<svg>`s. Offsets are bytes into the `.lsp` as read.

use vstd::prelude::*;
use crate::lint::page::{first_focusable, focusable_at, svg_marks};
use crate::lint::sql::{byte_at, lemma_utf8_len_ge, lemma_utf8_prefix};
use crate::lint::template::{attributes_at, attributes_in, attributes_v, attrs_bytes, attrs_in, AttrV, Attribute};
use crate::lint::web::{pending_v, recorded, strings_v, FSpec, Pending};
use crate::lint::{Ctx, Finding, RuleId};
use crate::lua::lsp::{KindView, SegView, Segment, SegmentKind};
use crate::text::{chars_of, push_str, string_of, utf8_len};

verus! {

/// How many bytes of the source a segment spans, its tags included.
pub open spec fn seg_len(k: KindView) -> int {
    match k {
        KindView::Text(t) => utf8_len(t),
        KindView::Comment(b) => utf8_len(b) + 8,
        KindView::Code(b) => utf8_len(b) + 4,
        KindView::Emit(b) => utf8_len(b) + 5,
        KindView::Raw(b) => utf8_len(b) + 7,
    }
}

/// How many bytes the first `k` segments span.
pub open spec fn segs_len(segs: Seq<SegView>, k: int) -> int
    decreases k,
{
    if k <= 0 || k > segs.len() {
        0
    } else {
        segs_len(segs, k - 1) + seg_len(segs[k - 1].kind)
    }
}

/// The newlines among the characters of `h` that start before byte `b`.
pub open spec fn nl_before_byte(h: Seq<char>, b: int) -> nat
    decreases h.len(),
{
    if h.len() == 0 {
        0
    } else {
        nl_before_byte(h.drop_last(), b) + if h.last() == '\n' && utf8_len(h.drop_last()) < b { 1nat } else { 0nat }
    }
}

/// An attribute that makes the browser load what it names.
pub open spec fn resource(a: AttrV) -> bool {
    a.name == "src"@ || a.name == "srcset"@ || a.name == "poster"@ || (a.name == "href"@ && a.tag == "link"@)
}

/// The rules at one attribute whose value starts at byte `vs` of the source `h`.
pub open spec fn tmpl_attr_one(h: Seq<char>, a: AttrV, vs: int, slug: Seq<char>, remote: Seq<Seq<char>>, path: Seq<char>) -> Seq<FSpec> {
    let line = (nl_before_byte(h, vs) + 1) as u32;
    (match crate::lint::mount_of(a.value) {
        Some((target, beneath)) => seq![
            FSpec {
                id: RuleId::PV301,
                line,
                message: "literal mount path '/a/"@ + target + "/' in "@ + a.name + "=\"…\" breaks solo mode"@,
                fix: Some(
                    if target == slug {
                        a.name + "=\"<?= url('"@ + beneath + "') ?>\""@
                    } else {
                        "another app has no mount in solo mode; link through the launcher"@
                    },
                ),
                edit: if target == slug {
                    Some((path, vs, vs + utf8_len(a.value), "<?= url('"@ + beneath + "') ?>"@))
                } else {
                    None
                },
            },
        ],
        None => Seq::empty(),
    }) + match crate::lint::origin(a.value) {
        Some(o) => (if resource(a) {
            seq![
                FSpec {
                    id: RuleId::PV504,
                    line,
                    message: a.tag + " loaded from "@ + o
                        + " — a CDN is a third party on the critical path, an offline failure and an IP leak"@,
                    fix: Some("vendor the file under static/ (Tier 1) or web/vendor/ (Tier 2)"@),
                    edit: None,
                },
            ]
        } else {
            Seq::empty()
        }) + if resource(a) && !remote.contains(o) {
            seq![
                FSpec {
                    id: RuleId::PV207,
                    line,
                    message: o + " is referenced but not declared in permissions.remote; the CSP blocks it silently"@,
                    fix: Some("vendor it, or declare the origin in [permissions] remote with a comment saying why"@),
                    edit: None,
                },
            ]
        } else {
            Seq::empty()
        },
        None => Seq::empty(),
    }
}

/// The rules over the first `n` attributes of a text segment that starts at byte `base`.
pub open spec fn tmpl_attrs(
    h: Seq<char>,
    attrs: Seq<AttrV>,
    n: int,
    base: int,
    slug: Seq<char>,
    remote: Seq<Seq<char>>,
    path: Seq<char>,
) -> Seq<FSpec>
    decreases n,
{
    if n <= 0 || n > attrs.len() {
        Seq::empty()
    } else {
        tmpl_attrs(h, attrs, n - 1, base, slug, remote, path) + tmpl_attr_one(h, attrs[n - 1], base + attrs[n - 1].at, slug, remote, path)
    }
}

/// The attributes of one segment's literal text, offsets in bytes.
pub open spec fn seg_attrs(k: KindView) -> Seq<AttrV> {
    match k {
        KindView::Text(body) => attrs_bytes(body, attrs_in(body, 0, "?"@)),
        _ => Seq::empty(),
    }
}

/// The attribute rules over the first `n` segments of the template `h`.
pub open spec fn view_attr_fspecs(
    h: Seq<char>,
    segs: Seq<SegView>,
    n: int,
    slug: Seq<char>,
    remote: Seq<Seq<char>>,
    path: Seq<char>,
) -> Seq<FSpec>
    decreases n,
{
    if n <= 0 || n > segs.len() {
        Seq::empty()
    } else {
        let k = segs[n - 1].kind;
        view_attr_fspecs(h, segs, n - 1, slug, remote, path) + tmpl_attrs(
            h,
            seg_attrs(k),
            seg_attrs(k).len() as int,
            segs_len(segs, n - 1),
            slug,
            remote,
            path,
        )
    }
}

/// Each attribute of `attrs_in` lies within the text, its value the text at its offset.
pub proof fn lemma_attrs_within(h: Seq<char>, i: int, tag: Seq<char>)
    requires
        0 <= i,
    ensures
        forall|k: int|
            0 <= k < attrs_in(h, i, tag).len() ==> {
                let a = #[trigger] attrs_in(h, i, tag)[k];
                &&& 0 <= a.at
                &&& a.at + a.value.len() <= h.len()
                &&& a.value == h.subrange(a.at, a.at + a.value.len())
            },
    decreases h.len() + 1 - i,
{
    if !(i < 0 || i >= h.len()) {
        if h[i] == '<' {
            let j = crate::lint::template::tag_end(h, i + 1);
            crate::lint::template::lemma_tag_end(h, i + 1);
            let t2 = if j > i + 1 { crate::text::lowered(h.subrange(i + 1, j)) } else { tag };
            lemma_attrs_within(h, j, t2);
            assert(attrs_in(h, i, tag) == attrs_in(h, j, t2));
        } else if h[i] == '>' {
            lemma_attrs_within(h, i + 1, "?"@);
            assert(attrs_in(h, i, tag) == attrs_in(h, i + 1, "?"@));
        } else if h[i] == '=' && i > 0 && crate::lint::template::tag_char(h[i - 1]) {
            let v = crate::lint::template::ws_end(h, i + 1);
            crate::lint::template::lemma_ws_end(h, i + 1);
            if v < h.len() && (h[v] == '"' || h[v] == '\'') {
                let e = crate::lint::sql::char_end(h, v + 1, h[v]);
                crate::lint::sql::lemma_char_end(h, v + 1, h[v]);
                lemma_attrs_within(h, e + 1, tag);
                let all = attrs_in(h, i, tag);
                let rest = attrs_in(h, e + 1, tag);
                assert(all == seq![AttrV { tag, name: crate::text::lowered(h.subrange(crate::lint::template::name_start(h, i), i)), value: h.subrange(v + 1, e), at: v + 1 }] + rest);
                assert forall|k: int| 0 <= k < all.len() implies {
                    let a = #[trigger] all[k];
                    &&& 0 <= a.at
                    &&& a.at + a.value.len() <= h.len()
                    &&& a.value == h.subrange(a.at, a.at + a.value.len())
                } by {
                    if k > 0 {
                        assert(all[k] == rest[k - 1]);
                    }
                }
            } else {
                lemma_attrs_within(h, i + 1, tag);
                assert(attrs_in(h, i, tag) == attrs_in(h, i + 1, tag));
            }
        } else {
            lemma_attrs_within(h, i + 1, tag);
            assert(attrs_in(h, i, tag) == attrs_in(h, i + 1, tag));
        }
    }
}

/// The bytes of a piece of `h` lie within `h`'s, after those before it.
pub proof fn lemma_piece_bytes(h: Seq<char>, a: int, n: int)
    requires
        0 <= a,
        0 <= n,
        a + n <= h.len(),
    ensures
        byte_at(h, a) + utf8_len(h.subrange(a, a + n)) <= utf8_len(h),
{
    crate::text::lemma_utf8_concat(h.subrange(0, a), h.subrange(a, h.len() as int));
    assert(h.subrange(0, a) + h.subrange(a, h.len() as int) =~= h);
    let tail = h.subrange(a, h.len() as int);
    crate::text::lemma_utf8_concat(tail.subrange(0, n), tail.subrange(n, tail.len() as int));
    assert(tail.subrange(0, n) + tail.subrange(n, tail.len() as int) =~= tail);
    assert(tail.subrange(0, n) =~= h.subrange(a, a + n));
    crate::text::lemma_utf8_len_nonneg(tail.subrange(n, tail.len() as int));
}

pub open spec fn segs_view(s: Seq<Segment>) -> Seq<SegView> {
    Seq::new(s.len(), |k: int| s[k]@)
}

fn bytes_of(s: &str) -> (r: usize)
    ensures
        r as int == if utf8_len(s@) < usize::MAX { utf8_len(s@) } else { usize::MAX as int },
{
    let c = chars_of(s);
    crate::text::utf8_len_capped(c.as_slice(), usize::MAX)
}

/// How many bytes of the source a segment spans, its tags included.
pub fn segment_len(segment: &Segment) -> (r: usize)
    requires
        seg_len(segment@.kind) < usize::MAX,
    ensures
        r == seg_len(segment@.kind),
{
    proof {
        match segment@.kind {
            KindView::Text(t) => crate::text::lemma_utf8_len_nonneg(t),
            KindView::Comment(b) => crate::text::lemma_utf8_len_nonneg(b),
            KindView::Code(b) => crate::text::lemma_utf8_len_nonneg(b),
            KindView::Emit(b) => crate::text::lemma_utf8_len_nonneg(b),
            KindView::Raw(b) => crate::text::lemma_utf8_len_nonneg(b),
        }
    }
    match &segment.kind {
        SegmentKind::Text(t) => bytes_of(t.as_str()),
        SegmentKind::Comment(b) => bytes_of(b.as_str()) + 8,
        SegmentKind::Code(b) => bytes_of(b.as_str()) + 4,
        SegmentKind::Emit(b) => bytes_of(b.as_str()) + 5,
        SegmentKind::Raw(b) => bytes_of(b.as_str()) + 7,
    }
}

/// The 1-based line of byte `b` of `h`: one more than the newlines before it.
fn line_of_byte(h: &[char], b: usize) -> (r: u32)
    requires
        h@.len() < u32::MAX,
        utf8_len(h@) < usize::MAX,
    ensures
        r == nl_before_byte(h@, b as int) + 1,
{
    let mut count: u32 = 0;
    let mut pos: usize = 0;
    let mut i: usize = 0;
    while i < h.len()
        invariant
            i <= h@.len() < u32::MAX,
            utf8_len(h@) < usize::MAX,
            count == nl_before_byte(h@.subrange(0, i as int), b as int),
            count <= i,
            pos == utf8_len(h@.subrange(0, i as int)),
        decreases h@.len() - i,
    {
        assert(h@.subrange(0, i + 1).drop_last() =~= h@.subrange(0, i as int));
        proof {
            lemma_utf8_prefix(h@, i + 1);
        }
        if h[i] == '\n' && pos < b {
            count = count + 1;
        }
        let c = h[i];
        let w: usize = if (c as u32) < 0x80 {
            1
        } else if (c as u32) < 0x800 {
            2
        } else if (c as u32) < 0x10000 {
            3
        } else {
            4
        };
        pos = pos + w;
        i = i + 1;
    }
    assert(h@.subrange(0, h@.len() as int) =~= h@);
    count + 1
}

/// The rules at one attribute whose value starts at byte `vs` of the source.
fn attr_one(
    h: &[char],
    a: &Attribute,
    vs: usize,
    slug: &String,
    remote: &[String],
    path: &str,
    out: &mut Vec<Pending>,
)
    requires
        h@.len() < u32::MAX,
        utf8_len(h@) < usize::MAX,
        vs + utf8_len(a.value@) < usize::MAX,
    ensures
        pending_v(final(out)@) == pending_v(old(out)@) + tmpl_attr_one(
            h@,
            AttrV { tag: a.tag@, name: a.name@, value: a.value@, at: a.value_offset as int },
            vs as int,
            slug@,
            strings_v(remote@),
            path@,
        ),
{
    let ghost start = pending_v(out@);
    let ghost av = AttrV { tag: a.tag@, name: a.name@, value: a.value@, at: a.value_offset as int };
    let line = line_of_byte(h, vs);
    match crate::lint::mount_path(a.value.as_str()) {
        Some((target, beneath)) => {
            let mut m = chars_of("literal mount path '/a/");
            push_str(&mut m, target.as_str());
            push_str(&mut m, "/' in ");
            push_str(&mut m, a.name.as_str());
            push_str(&mut m, "=\"…\" breaks solo mode");
            let tc = chars_of(target.as_str());
            let sc = chars_of(slug.as_str());
            let ghost b0 = pending_v(out@);
            if crate::text::same_chars(tc.as_slice(), sc.as_slice()) {
                let mut fx = chars_of(a.name.as_str());
                push_str(&mut fx, "=\"<?= url('");
                push_str(&mut fx, beneath.as_str());
                push_str(&mut fx, "') ?>\"");
                let mut rep = chars_of("<?= url('");
                push_str(&mut rep, beneath.as_str());
                push_str(&mut rep, "') ?>");
                let len = bytes_of(a.value.as_str());
                let edit = crate::lint::Edit { file: path.to_string(), start: vs, end: vs + len, replacement: string_of(rep.as_slice()) };
                out.push(Pending { id: RuleId::PV301, line, message: string_of(m.as_slice()), fix: Some(string_of(fx.as_slice())), edit: Some(edit) });
            } else {
                out.push(Pending {
                    id: RuleId::PV301,
                    line,
                    message: string_of(m.as_slice()),
                    fix: Some("another app has no mount in solo mode; link through the launcher".to_string()),
                    edit: None,
                });
            }
            assert(pending_v(out@) =~= b0.push(pending_v(out@).last()));
        },
        None => {},
    }
    match crate::lint::origin_of(a.value.as_str()) {
        Some(o) => {
            let res = same(a.name.as_str(), "src") || same(a.name.as_str(), "srcset") || same(a.name.as_str(), "poster")
                || (same(a.name.as_str(), "href") && same(a.tag.as_str(), "link"));
            if res {
                let mut m = chars_of(a.tag.as_str());
                push_str(&mut m, " loaded from ");
                push_str(&mut m, o.as_str());
                push_str(&mut m, " — a CDN is a third party on the critical path, an offline failure and an IP leak");
                let ghost b1 = pending_v(out@);
                out.push(Pending {
                    id: RuleId::PV504,
                    line,
                    message: string_of(m.as_slice()),
                    fix: Some("vendor the file under static/ (Tier 1) or web/vendor/ (Tier 2)".to_string()),
                    edit: None,
                });
                assert(pending_v(out@) =~= b1.push(pending_v(out@).last()));
                let oc = chars_of(o.as_str());
                let mut declared = false;
                let mut r: usize = 0;
                while r < remote.len()
                    invariant
                        r <= remote@.len(),
                        oc@ == o@,
                        declared == exists|j: int| 0 <= j < r && strings_v(remote@)[j] == o@,
                    decreases remote@.len() - r,
                {
                    let rc = chars_of(remote[r].as_str());
                    assert(strings_v(remote@)[r as int] == rc@);
                    if crate::text::same_chars(rc.as_slice(), oc.as_slice()) {
                        declared = true;
                    }
                    r = r + 1;
                }
                proof {
                    assert(declared == strings_v(remote@).contains(o@));
                }
                if !declared {
                    let mut m2 = oc.clone();
                    push_str(&mut m2, " is referenced but not declared in permissions.remote; the CSP blocks it silently");
                    let ghost b2 = pending_v(out@);
                    out.push(Pending {
                        id: RuleId::PV207,
                        line,
                        message: string_of(m2.as_slice()),
                        fix: Some("vendor it, or declare the origin in [permissions] remote with a comment saying why".to_string()),
                        edit: None,
                    });
                    assert(pending_v(out@) =~= b2.push(pending_v(out@).last()));
                }
            }
        },
        None => {},
    }
    proof {
        reveal_strlit("src");
        reveal_strlit("srcset");
        reveal_strlit("poster");
        reveal_strlit("href");
        reveal_strlit("link");
        assert(pending_v(out@) =~= start + tmpl_attr_one(h@, av, vs as int, slug@, strings_v(remote@), path@));
    }
}

fn same(a: &str, b: &str) -> (r: bool)
    ensures
        r == (a@ == b@),
{
    let x = chars_of(a);
    let y = chars_of(b);
    crate::text::same_chars(x.as_slice(), y.as_slice())
}

proof fn lemma_segs_len_grows(segs: Seq<SegView>, a: int, b: int)
    requires
        0 <= a <= b <= segs.len(),
    ensures
        segs_len(segs, a) <= segs_len(segs, b),
    decreases b - a,
{
    if a < b {
        lemma_segs_len_grows(segs, a, b - 1);
        match segs[b - 1].kind {
            KindView::Text(t) => crate::text::lemma_utf8_len_nonneg(t),
            KindView::Comment(t) => crate::text::lemma_utf8_len_nonneg(t),
            KindView::Code(t) => crate::text::lemma_utf8_len_nonneg(t),
            KindView::Emit(t) => crate::text::lemma_utf8_len_nonneg(t),
            KindView::Raw(t) => crate::text::lemma_utf8_len_nonneg(t),
        }
    }
}

/// `PV301`, `PV504` and `PV207` over the attribute values in the literal text of a view
/// `text` read as `segments`: a mount path written out (with the edit that builds it with
/// `url()` when it is this app's own), and a resource loaded from an origin, undeclared in
/// `remote` or not. `path` is the file as the fixer opens it.
pub fn check_attributes(
    ctx: &mut Ctx,
    rel: &str,
    text: &str,
    segments: &Vec<Segment>,
    remote: &[String],
    path: &str,
)
    requires
        text@.len() < u32::MAX,
        utf8_len(text@) < usize::MAX,
        segs_len(segs_view(segments@), segments@.len() as int) < usize::MAX,
    ensures
        recorded(
            *old(ctx),
            *final(ctx),
            rel@,
            view_attr_fspecs(
                text@,
                segs_view(segments@),
                segments@.len() as int,
                crate::lint::web::ctx_slug(*old(ctx)),
                strings_v(remote@),
                path@,
            ),
        ),
{
    let h = chars_of(text);
    let slug = ctx.slug();
    let ghost sv = segs_view(segments@);
    let ghost rv = strings_v(remote@);
    let mut out: Vec<Pending> = Vec::new();
    let mut offset: usize = 0;
    let mut i: usize = 0;
    while i < segments.len()
        invariant
            i <= segments@.len(),
            sv == segs_view(segments@),
            rv == strings_v(remote@),
            h@ == text@,
            h@.len() < u32::MAX,
            utf8_len(h@) < usize::MAX,
            segs_len(sv, sv.len() as int) < usize::MAX,
            offset == segs_len(sv, i as int),
            pending_v(out@) == view_attr_fspecs(text@, sv, i as int, slug@, rv, path@),
        decreases segments.len() - i,
    {
        proof {
            lemma_segs_len_grows(sv, i + 1, sv.len() as int);
        }
        let seg = &segments[i];
        assert(sv[i as int] == seg@);
        let len = segment_len(seg);
        match &seg.kind {
            SegmentKind::Text(body) => {
                let attrs = attributes_in(body.as_str());
                let ghost raw = attrs_in(body@, 0, "?"@);
                let ghost av = attrs_bytes(body@, raw);
                let ghost base = pending_v(out@);
                proof {
                    crate::lint::view_attrs::lemma_attrs_within(body@, 0, "?"@);
                }
                let mut k: usize = 0;
                while k < attrs.len()
                    invariant
                        k <= attrs@.len(),
                        attributes_v(body@, attrs@) == av,
                        av == attrs_bytes(body@, raw),
                        raw == attrs_in(body@, 0, "?"@),
                        forall|j: int|
                            0 <= j < raw.len() ==> {
                                let a = #[trigger] raw[j];
                                &&& 0 <= a.at
                                &&& a.at + a.value.len() <= body@.len()
                                &&& a.value == body@.subrange(a.at, a.at + a.value.len())
                            },
                        h@ == text@,
                        h@.len() < u32::MAX,
                        utf8_len(h@) < usize::MAX,
                        offset + utf8_len(body@) < usize::MAX,
                        rv == strings_v(remote@),
                        pending_v(out@) == base + tmpl_attrs(text@, av, k as int, offset as int, slug@, rv, path@),
                    decreases attrs.len() - k,
                {
                    let a = &attrs[k];
                    proof {
                        let r = raw[k as int];
                        assert(av[k as int].at == byte_at(body@, r.at));
                        assert(av[k as int].value == r.value);
                        assert(a.value_offset == av[k as int].at);
                        assert(a.value@ == av[k as int].value);
                        lemma_piece_bytes(body@, r.at, r.value.len() as int);
                        crate::text::lemma_utf8_len_nonneg(r.value);
                        assert(offset + a.value_offset + utf8_len(a.value@) < usize::MAX);
                    }
                    attr_one(h.as_slice(), a, offset + a.value_offset, &slug, remote, path, &mut out);
                    proof {
                        assert(AttrV { tag: a.tag@, name: a.name@, value: a.value@, at: a.value_offset as int } == av[k as int]);
                    }
                    k = k + 1;
                }
                assert(seg_attrs(seg@.kind) == av);
            },
            _ => {},
        }
        offset = offset + len;
        i = i + 1;
    }
    crate::lint::web::record_all(ctx, rel, out);
}

/// `PV401`'s one mechanical fix over a view `text`: each inline `<svg` in it with no
/// `focusable` before its `>` gives the first `PV401` finding on its line that asks for
/// `focusable` the fix and the edit that add `focusable="false"`. `path` is the file as
/// the fixer opens it.
pub fn fix_focusable(ctx: &mut Ctx, text: &str, path: &str)
    requires
        text@.len() < u32::MAX,
        utf8_len(text@) < usize::MAX - 8,
    ensures
        crate::lint::page::svg_applied(old(ctx).findings@, final(ctx).findings@, svg_marks(text@, old(ctx).findings@, 0), text@, path@, true),
        final(ctx).display == old(ctx).display,
        final(ctx).folder == old(ctx).folder,
        final(ctx).manifest_slug == old(ctx).manifest_slug,
        final(ctx).solo == old(ctx).solo,
{
    let h = chars_of(text);
    crate::lint::page::svg_pass(ctx, h.as_slice(), path, true);
}

} // verus!
