use privatium_core::lint::html;
use privatium_core::lint::shape::{check_pages, h1_bounds, level_skips, Item, ViewShape};
use privatium_core::lint::template::{attributes_in, check_forms, headings_in, synthesize};
use privatium_core::lint::view_attrs::{check_attributes, fix_focusable};
use privatium_core::lint::{Ctx, RuleId};
use privatium_core::lua::lsp;

/// What the host emits for each tag of the template below, in order: a word for a value,
/// a decorative `<svg>` for `icon(name)`, a labelled one for `icon(name, label)`, the
/// hidden field for `csrf()`.
fn emits() -> Vec<String> {
    vec![
        "x".to_string(),
        "<svg class=\"pv-icon\" aria-hidden=\"true\" focusable=\"false\"></svg>".to_string(),
        "<svg class=\"pv-icon\" role=\"img\" focusable=\"false\"><title>Settings</title></svg>".to_string(),
        "<input type=\"hidden\" name=\"_csrf\" value=\"x\">".to_string(),
    ]
}

#[test]
fn synthesized_html_is_line_aligned() {
    let src = "<h1><?= title ?></h1>\n<? if x then\n ?><p><?= icon('gear') ?><?= icon('gear', 'Settings') ?></p><? end ?>\n<form method=\"post\"><?= csrf() ?></form>";
    let segments = lsp::scan(src).unwrap();
    let html = synthesize(&segments, &emits());
    assert_eq!(html.lines().count(), src.lines().count());
    let root = html::parse(&html);
    assert_eq!(root.find_all("svg").len(), 2);
    assert_eq!(root.find_all("svg")[0].attr("aria-hidden"), Some("true"));
    assert_eq!(root.find_all("svg")[1].attr("role"), Some("img"));
    assert_eq!(root.find_all("form")[0].line, 4);
    assert_eq!(root.find_all("input")[0].attr("name"), Some("_csrf"));
}

#[test]
fn attributes_are_found_with_their_tags_and_offsets() {
    let text = "<a href=\"/a/meds/x\">go</a><script src='https://cdn.x.com/a.js'></script>";
    let attrs = attributes_in(text);
    assert_eq!(attrs[0].tag, "a");
    assert_eq!(attrs[0].name, "href");
    assert_eq!(
        &text[attrs[0].value_offset..attrs[0].value_offset + attrs[0].value.len()],
        "/a/meds/x"
    );
    assert_eq!(attrs[1].tag, "script");
    assert_eq!(attrs[1].value, "https://cdn.x.com/a.js");
}

#[test]
fn attribute_offsets_are_bytes_and_text_inside_a_tag_has_no_tag() {
    let text = "é\" data-x:y=\"v\">after <img ALT='ü' src=x>";
    let attrs = attributes_in(text);
    assert_eq!(attrs.len(), 2);
    assert_eq!(attrs[0].tag, "?");
    assert_eq!(attrs[0].name, "data-x:y");
    assert_eq!(&text[attrs[0].value_offset..attrs[0].value_offset + 1], "v");
    assert_eq!(attrs[1].tag, "img");
    assert_eq!(attrs[1].name, "alt");
    assert_eq!(attrs[1].value, "ü");
}

#[test]
fn heading_tags_are_read_with_their_lines() {
    assert_eq!(
        headings_in("<h1>a</h1>\n<h2 class=\"x\">b</h2><hr><html>", 3),
        vec![(1, 3), (2, 4)]
    );
    assert_eq!(headings_in("<H3/><h7><h4", 1), vec![(3, 1), (4, 1)]);
}

#[test]
fn a_writing_form_without_the_token_is_found() {
    let root = html::parse(
        "<form method=\" POST \"><input name=\"q\"></form>\n<form><input name=\"q\"></form>\n<form hx-delete=\"/x\"><input name=\"_csrf\"></form>\n<form hx-post=\"/y\"></form>",
    );
    let mut ctx = Ctx {
        display: "apps/meds/".to_string(),
        folder: "meds".to_string(),
        manifest_slug: None,
        solo: false,
        findings: Vec::new(),
    };
    check_forms(&mut ctx, "views/index.lsp", &root);
    assert_eq!(ctx.findings.len(), 2);
    assert_eq!(ctx.findings[0].id, RuleId::PV204);
    assert_eq!(ctx.findings[0].line, 1);
    assert_eq!(ctx.findings[0].file, "apps/meds/views/index.lsp");
    assert_eq!(
        ctx.findings[0].message,
        "non-GET form without csrf(): <form> — the host answers 403 without the token"
    );
    assert_eq!(ctx.findings[0].fix.as_deref(), Some("put <?= csrf() ?> inside the form"));
    assert_eq!(ctx.findings[1].line, 4);
}

#[test]
fn headings_and_bounds_follow_branches_and_loops() {
    assert_eq!(
        headings_in("<h1>a</h1>\n<h2 class=\"x\">b</h2><hr><html>", 3),
        vec![(1, 3), (2, 4)]
    );
    let views: Vec<(String, ViewShape)> = Vec::new();
    let shape = vec![Item::Branch(vec![
        vec![Item::Text("<h1>a</h1>".into(), 1)],
        vec![Item::Text("<h1>b</h1>".into(), 2)],
        Vec::new(),
    ])];
    assert_eq!(h1_bounds(&shape, &views, &Vec::new()), (0, 1));
    let shape = vec![
        Item::Text("<h1>a</h1>".into(), 1),
        Item::Loop(vec![Item::Text("<h1>x</h1>".into(), 2)]),
    ];
    assert_eq!(h1_bounds(&shape, &views, &Vec::new()), (1, 2));
    let mut skips = Vec::new();
    let shape = vec![
        Item::Text("<h1>a</h1>".into(), 1),
        Item::Branch(vec![vec![Item::Text("<h2>b</h2>".into(), 2)], Vec::new()]),
        Item::Text("<h3>c</h3>".into(), 3),
    ];
    level_skips(&shape, vec![None], &views, &Vec::new(), &mut skips);
    assert_eq!(
        skips,
        vec![(1, 3, 3)],
        "the empty branch leaves h1 before h3"
    );
}

fn view(rel: &str, shape: Vec<Item>, includes: &[&str], layout: Option<&str>) -> ViewShape {
    ViewShape {
        rel: rel.to_string(),
        shape,
        includes: includes.iter().map(|s| s.to_string()).collect(),
        layout: layout.map(|s| s.to_string()),
    }
}

#[test]
fn a_page_is_judged_with_its_layout_and_partials() {
    let views = vec![
        (
            "_head".to_string(),
            view("views/_head.lsp", vec![Item::Text("<h1>T</h1>".into(), 1)], &[], None),
        ),
        (
            "doc".to_string(),
            view(
                "views/doc.lsp",
                vec![Item::Partial("_head".into()), Item::Content],
                &["_head"],
                None,
            ),
        ),
        (
            "home".to_string(),
            view("views/home.lsp", vec![Item::Text("\n<h3>x</h3>".into(), 1)], &[], Some("doc")),
        ),
        (
            "list".to_string(),
            view(
                "views/list.lsp",
                vec![Item::Loop(vec![Item::Text("<h1>row</h1>".into(), 4)])],
                &[],
                None,
            ),
        ),
    ];
    let mut c = Ctx {
        display: "apps/x".to_string(),
        folder: "x".to_string(),
        manifest_slug: None,
        solo: false,
        findings: Vec::new(),
    };
    check_pages(&mut c, &views, &["home".to_string(), "list".to_string()]);
    let got: Vec<(String, u32, String, Option<String>)> = c
        .findings
        .iter()
        .map(|f| (f.file.clone(), f.line, f.message.clone(), f.fix.clone()))
        .collect();
    assert_eq!(
        got,
        vec![
            (
                "apps/x/views/home.lsp".to_string(),
                2,
                "<h1> is followed by <h3>; levels do not skip".to_string(),
                Some("<h2>".to_string())
            ),
            (
                "apps/x/views/list.lsp".to_string(),
                1,
                "some state of this page renders no <h1> — the empty state included, every branch supplies the page's one heading".to_string(),
                Some("give each branch its <h1>, or hoist one above the branches".to_string())
            ),
            (
                "apps/x/views/list.lsp".to_string(),
                1,
                "some state of this page renders more than one <h1> — a page with its partials carries exactly one".to_string(),
                Some("demote the second heading to <h2>, or move the <h1> into the branch that owns the page".to_string())
            ),
        ]
    );
}

fn notes_ctx() -> Ctx {
    Ctx {
        display: "apps/notes".to_string(),
        folder: "notes".to_string(),
        manifest_slug: Some("notes".to_string()),
        solo: false,
        findings: Vec::new(),
    }
}

#[test]
fn literal_attribute_values_are_checked_with_their_byte_offsets() {
    let text = "<p><?= title ?></p>\n<a href=\"/a/notes/list\">all</a>\n<img src=\"https://cdn.example.com/x.png\">\n";
    let segments = lsp::scan(text).unwrap();
    let mut ctx = notes_ctx();
    check_attributes(&mut ctx, "views/index.lsp", text, &segments, &[], "/srv/apps/notes/views/index.lsp");
    let ids: Vec<(RuleId, u32)> = ctx.findings.iter().map(|f| (f.id, f.line)).collect();
    assert_eq!(ids, vec![(RuleId::PV301, 2), (RuleId::PV504, 3), (RuleId::PV207, 3)]);
    let edit = ctx.findings[0].edit.as_ref().unwrap();
    assert_eq!(&text[edit.start..edit.end], "/a/notes/list");
    assert!(edit.replacement.starts_with("<?= url('"));
    assert_eq!(ctx.findings[0].file, "apps/notes/views/index.lsp");

    let mut declared = notes_ctx();
    check_attributes(&mut declared, "views/index.lsp", text, &segments, &["https://cdn.example.com".to_string()], "p");
    let ids: Vec<RuleId> = declared.findings.iter().map(|f| f.id).collect();
    assert_eq!(ids, vec![RuleId::PV301, RuleId::PV504]);
}

#[test]
fn an_inline_svg_without_focusable_gets_the_fix() {
    let text = "<p>x</p>\n<svg viewBox=\"0 0 1 1\"><path/></svg>\n";
    let mut ctx = notes_ctx();
    ctx.push(RuleId::PV401, "views/a.lsp", 2, "an inline <svg> without focusable=\"false\"".to_string());
    fix_focusable(&mut ctx, text, "/srv/a.lsp");
    let edit = ctx.findings[0].edit.as_ref().unwrap();
    assert_eq!(edit.start, text.find("<svg").unwrap() + 4);
    assert_eq!(edit.start, edit.end);
    assert_eq!(edit.replacement, " focusable=\"false\"");
    assert_eq!(ctx.findings[0].fix.as_deref(), Some("focusable=\"false\""));
}
