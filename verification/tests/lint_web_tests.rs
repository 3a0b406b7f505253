use privatium_core::lint::page::{check_html, html_is_checkable};
use privatium_core::lint::web::{check_js_at, js_is_readable, tokens, Tok};
use privatium_core::lint::{Columns, Ctx, RuleId};

fn ctx() -> Ctx {
    Ctx {
        display: "apps/notes".to_string(),
        folder: "notes".to_string(),
        manifest_slug: None,
        solo: false,
        findings: Vec::new(),
    }
}

fn columns() -> Columns {
    Columns::of(&[
        ("amount".to_string(), "DECIMAL(10,2)".to_string()),
        ("qty".to_string(), "BIGINT".to_string()),
    ])
}

#[test]
fn the_lexer_reads_strings_templates_comments_and_regexes() {
    let toks = tokens(
        "const a = 'x\\'y'; // c\nlet b = `t ${a}`; /* d */ x = /re[/]g/i.test(s) / 2; import { pv } from '/static/pv.js';",
    );
    let strings: Vec<(String, bool)> = toks
        .iter()
        .filter_map(|(_, t)| match t {
            Tok::Str { text, interpolated } => Some((text.clone(), *interpolated)),
            _ => None,
        })
        .collect();
    assert_eq!(strings[0], ("x\\'y".into(), false));
    assert_eq!(strings[1], ("t ${a}".into(), true));
    assert_eq!(strings[2], (String::new(), false), "the regex");
    assert_eq!(strings[3], ("/static/pv.js".into(), false));
    assert!(
        toks.iter()
            .any(|(_, t)| matches!(t, Tok::Punct(p) if p == "/")),
        "the division survived"
    );
}

#[test]
fn token_offsets_are_bytes() {
    let toks = tokens("é = 'x'");
    assert_eq!(toks.len(), 3);
    assert_eq!(toks[1].0, 3);
    assert_eq!(toks[2].0, 5);
}

fn ids(c: &Ctx) -> Vec<RuleId> {
    c.findings.iter().map(|f| f.id).collect()
}

#[test]
fn markup_from_data_is_flagged() {
    let mut c = ctx();
    let js = "el.innerHTML = name;\nf(el.outerHTML = '<b>x</b>');\nel.insertAdjacentHTML('beforeend', html);";
    check_js_at(&mut c, "web/app.js", js, 0, &columns(), &[], None);
    assert_eq!(ids(&c), vec![RuleId::PV206, RuleId::PV206]);
    assert_eq!(c.findings[0].line, 1);
    assert_eq!(c.findings[1].line, 3);
    assert_eq!(c.findings[0].file, "apps/notes/web/app.js");
    assert_eq!(
        c.findings[0].message,
        "innerHTML assigned from data — markup built from a value is the injection the CSP cannot see"
    );
}

#[test]
fn a_literal_followed_by_more_code_is_not_one_plain_literal() {
    let mut c = ctx();
    check_js_at(&mut c, "web/app.js", "el.innerHTML = '<b>x</b>';", 0, &columns(), &[], None);
    assert_eq!(ids(&c), vec![RuleId::PV206]);
}

#[test]
fn decimal_columns_are_kept_as_strings() {
    let mut c = ctx();
    let js = "const a = Number(row.amount);\nconst b = +row.qty;\nconst n = Number(row.title);";
    check_js_at(&mut c, "web/app.js", js, 10, &columns(), &[], None);
    assert_eq!(ids(&c), vec![RuleId::PV302, RuleId::PV302]);
    assert_eq!(c.findings[0].line, 11);
    assert!(c.findings[0].message.starts_with("Number() on `amount`"));
    assert_eq!(c.findings[1].line, 12);
    assert!(c.findings[1].message.starts_with("unary + on `qty`"));
}

#[test]
fn sql_built_by_concatenation_is_flagged() {
    let mut c = ctx();
    let js = "pv.sql('SELECT * FROM t WHERE id = ' + id);";
    check_js_at(&mut c, "web/app.js", js, 0, &columns(), &[], None);
    assert_eq!(ids(&c), vec![RuleId::PV201]);
}

#[test]
fn a_second_write_in_a_block_is_flagged_once() {
    let mut c = ctx();
    let js = "function f() {\n  pv.put(a);\n  pv.del(b);\n  pv.append(c);\n}\nfunction g() { pv.put(a); }";
    check_js_at(&mut c, "web/app.js", js, 0, &columns(), &[], None);
    assert_eq!(ids(&c), vec![RuleId::PV306]);
    assert_eq!(c.findings[0].line, 3);
}

#[test]
fn an_event_that_stamps_its_envelope_is_flagged() {
    let mut c = ctx();
    let js = "pv.append([{ op: 'put', tbl: 't', seq: 1, ts: 2 }]);\nconst x = { seq: 1 };";
    check_js_at(&mut c, "web/app.js", js, 0, &columns(), &[], None);
    assert_eq!(ids(&c), vec![RuleId::PV304]);
    assert_eq!(
        c.findings[0].message,
        "an event sets seq, ts — the framework stamps the envelope and the server rejects a client that does"
    );
}

#[test]
fn outbox_bookkeeping_is_named_once() {
    let mut c = ctx();
    let js = "let dedupeKey = 1; dedupeKey = 2; const txId = 3;";
    check_js_at(&mut c, "web/app.js", js, 0, &columns(), &[], None);
    assert_eq!(ids(&c), vec![RuleId::PV305, RuleId::PV305]);
}

#[test]
fn a_literal_mount_path_gets_an_edit() {
    let mut c = ctx();
    let js = "fetch('/a/notes/api/list');\nfetch('/a/other/x');";
    check_js_at(&mut c, "web/app.js", js, 0, &columns(), &[], Some("/tmp/apps/notes/web/app.js"));
    assert_eq!(ids(&c), vec![RuleId::PV301, RuleId::PV301]);
    assert_eq!(c.findings[0].fix.as_deref(), Some("pv.url('/api/list')"));
    let edit = c.findings[0].edit.as_ref().unwrap();
    assert_eq!(edit.file, "/tmp/apps/notes/web/app.js");
    assert_eq!(edit.start, 6);
    assert_eq!(edit.end, 25);
    assert_eq!(edit.replacement, "pv.url('/api/list')");
    assert_eq!(&js[edit.start..edit.end], "'/a/notes/api/list'");
    assert_eq!(c.findings[1].fix.as_deref(), Some("another app has no mount in solo mode"));
    assert!(c.findings[1].edit.is_none());
}

#[test]
fn origins_must_be_declared_and_not_imported() {
    let mut c = ctx();
    let js = "import x from 'https://cdn.example.com/x.js';\nfetch('https://api.example.com/v1');";
    let remote = vec!["https://api.example.com".to_string()];
    check_js_at(&mut c, "web/app.js", js, 0, &columns(), &remote, None);
    assert_eq!(ids(&c), vec![RuleId::PV504, RuleId::PV207]);
    assert!(c.findings[0].message.starts_with("import from https://cdn.example.com"));
}

#[test]
fn an_absolute_filesystem_path_is_flagged() {
    let mut c = ctx();
    check_js_at(&mut c, "web/app.js", "const p = '/etc/passwd';", 0, &columns(), &[], None);
    assert_eq!(ids(&c), vec![RuleId::PV505]);
    assert_eq!(
        c.findings[0].message,
        "absolute filesystem path \"/etc/passwd\" in browser code — nothing beside the binary or on the owner's disk is the app's"
    );
}

#[test]
fn a_page_gets_heading_attribute_and_script_rules() {
    let mut c = ctx();
    let text = "<!doctype html>\n<html lang=\"en\"><body>\n<h2>A</h2>\n<h4>B</h4>\n<img src=\"https://cdn.x.com/a.png\" alt=\"a\">\n<a href=\"/a/notes/x\">x</a>\n<script>\nel.innerHTML = name;\n</script>\n</body></html>";
    check_html(&mut c, "web/index.html", text, &columns(), &[], "/srv/apps/notes/web/index.html");
    let pv404: Vec<(u32, String)> = c
        .findings
        .iter()
        .filter(|f| f.id == RuleId::PV404)
        .map(|f| (f.line, f.message.clone()))
        .collect();
    assert_eq!(
        pv404,
        vec![
            (3, "0 <h1> elements; a page carries exactly one".to_string()),
            (3, "the first heading is <h2>, not <h1>".to_string()),
            (4, "<h2> is followed by <h4>; levels do not skip".to_string()),
        ]
    );
    let skip = c.findings.iter().find(|f| f.message.starts_with("<h2> is followed")).unwrap();
    assert_eq!(skip.fix.as_deref(), Some("<h3>"));
    let rest: Vec<(RuleId, u32)> = c
        .findings
        .iter()
        .filter(|f| matches!(f.id, RuleId::PV301 | RuleId::PV504 | RuleId::PV207 | RuleId::PV206))
        .map(|f| (f.id, f.line))
        .collect();
    assert_eq!(
        rest,
        vec![(RuleId::PV504, 5), (RuleId::PV207, 5), (RuleId::PV301, 6), (RuleId::PV206, 8)]
    );
    let mount = c.findings.iter().find(|f| f.id == RuleId::PV301).unwrap();
    assert_eq!(mount.message, "literal mount path '/a/notes/' in href=\"…\" breaks solo mode");
    assert_eq!(
        mount.fix.as_deref(),
        Some("build the URL with pv.url('/x') in app.js, or write a relative path")
    );
    let cdn = c.findings.iter().find(|f| f.id == RuleId::PV504).unwrap();
    assert!(cdn.message.starts_with("img loaded from https://cdn.x.com"));
}

#[test]
fn an_inline_svg_gets_the_focusable_edit() {
    let mut c = ctx();
    let text = "<!doctype html>\n<html lang=\"en\"><body><h1>T</h1>\n<button><svg viewBox=\"0 0 1 1\"></svg>Go</button>\n</body></html>";
    check_html(&mut c, "web/index.html", text, &columns(), &[], "/srv/x/web/index.html");
    let f = c
        .findings
        .iter()
        .find(|f| f.id == RuleId::PV401 && f.message.contains("focusable"));
    let f = f.unwrap();
    assert_eq!(f.line, 3);
    assert_eq!(f.fix.as_deref(), Some("focusable=\"false\""));
    let e = f.edit.as_ref().unwrap();
    let at = text.find("<svg").unwrap() + 4;
    assert_eq!((e.start, e.end), (at, at));
    assert_eq!(e.replacement, " focusable=\"false\"");
    assert_eq!(e.file, "/srv/x/web/index.html");
}

#[test]
fn what_the_checks_can_read_is_decided_before_they_run() {
    assert!(js_is_readable("let a = 1;\npv.sql('SELECT 1');\nel.insertAdjacentHTML('beforeend', x);"));
    assert!(!js_is_readable("el.insertAdjacentHTML("));
    assert!(!js_is_readable("let a = '\u{20AC}' \u{20AC} 1;"));
    assert!(!js_is_readable("pv.sql('SELECT \u{20AC}');"));
    assert!(html_is_checkable("<p>x</p><script>let a = 1;</script>"));
    assert!(!html_is_checkable("<p></\u{e9}"));
    assert!(!html_is_checkable("<p>x</p><script>el.insertAdjacentHTML(</script>"));
    assert!(html_is_checkable("<p>x</p><script src=\"a.js\">el.insertAdjacentHTML(</script>"));
}
