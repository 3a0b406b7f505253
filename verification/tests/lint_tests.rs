use privatium_core::lint::spec_ref::{heading_is, parse, SpecRef};
use privatium_core::lint::order::report_order;
use privatium_core::lint::{
    is_absolute_fs_path, mount_path, origin_of, rule, Columns, Ctx, Finding, RuleId, Severity,
};

#[test]
fn every_rule_has_one_row_and_a_spec_ref() {
    let all = RuleId::all();
    for id in &all {
        let row = rule(*id);
        assert_eq!(row.id, *id, "the table is in its order");
        assert!(!row.spec.is_empty());
        assert_eq!(RuleId::parse(id.as_str()), Some(*id));
    }
    assert_eq!(RuleId::parse("PV999"), None);
}

#[test]
fn origins_paths_and_mounts_are_recognized() {
    assert_eq!(
        origin_of("https://cdn.example.com/x.js").as_deref(),
        Some("https://cdn.example.com")
    );
    assert_eq!(
        origin_of("//cdn.example.com/x.js").as_deref(),
        Some("https://cdn.example.com")
    );
    assert_eq!(
        origin_of("http://127.0.0.1:8420/a"),
        Some("http://127.0.0.1:8420".into())
    );
    assert_eq!(origin_of("/static/pv.js"), None);
    assert_eq!(origin_of("https://"), None);
    assert!(is_absolute_fs_path("C:\\Users\\x\\file.txt"));
    assert!(is_absolute_fs_path("/home/x/notes"));
    assert!(!is_absolute_fs_path("/static/x.css"));
    assert_eq!(
        mount_path("/a/meds/edit"),
        Some(("meds".into(), "/edit".into()))
    );
    assert_eq!(mount_path("/a/meds/"), Some(("meds".into(), "/".into())));
    assert_eq!(mount_path("/a/meds"), None);
    assert_eq!(mount_path("/api/x"), None);
}

#[test]
fn references_parse_and_headings_match() {
    assert_eq!(
        parse("spec/cli.md §5.1"),
        Some(SpecRef {
            path: "spec/cli.md".into(),
            section: Some("5.1".into())
        })
    );
    assert_eq!(parse("docs/icons.md").map(|r| r.section), Some(None));
    assert_eq!(parse("README.md §1"), None);
    assert_eq!(parse("spec/../x.md"), None);
    assert!(heading_is("## 5. `privatium lint`", "5"));
    assert!(heading_is("### 5.1 Rule classes", "5.1"));
    assert!(heading_is("### 3.1b `sys_cluster`", "3.1b"));
    assert!(!heading_is("### 5.1 Rule classes", "5"));
    assert!(!heading_is("### 51 x", "5"));
}

#[test]
fn columns_are_read_by_kind_whatever_the_case() {
    let cols = Columns::of(&[
        ("Copay".to_string(), " decimal(10,2) ".to_string()),
        ("n".to_string(), "BIGINT".to_string()),
        ("span".to_string(), "INTERVAL".to_string()),
        ("due_on".to_string(), "date".to_string()),
        ("at".to_string(), "TIMESTAMPTZ".to_string()),
    ]);
    assert!(cols.is_decimal("copay"));
    assert!(cols.is_decimal("COPAY"));
    assert!(!cols.is_decimal("n"));
    assert!(cols.is_integer("n"));
    assert!(!cols.is_integer("span"));
    assert!(cols.is_date("due_on"));
    assert!(cols.is_date("at"));
    assert!(!cols.is_date("copay"));
    assert!(!cols.is_integer("missing"));
}

#[test]
fn a_context_names_files_under_its_display_and_records_findings() {
    let mut ctx = Ctx {
        display: "apps/hello//".to_string(),
        folder: "hello".to_string(),
        manifest_slug: None,
        solo: false,
        findings: Vec::new(),
    };
    assert_eq!(ctx.slug(), "hello");
    assert_eq!(ctx.file("app.lua"), "apps/hello/app.lua");
    {
        let finding = ctx.push(RuleId::PV301, "app.lua", 7, "literal mount path".to_string());
        finding.fix = Some("use url()".to_string());
    }
    assert_eq!(ctx.findings.len(), 1);
    let f = &ctx.findings[0];
    assert_eq!(f.file, "apps/hello/app.lua");
    assert_eq!(f.line, 7);
    assert_eq!(f.severity, Severity::Error);
    assert_eq!(f.fix.as_deref(), Some("use url()"));
    assert_eq!(f.spec, rule(RuleId::PV301).spec);
    ctx.manifest_slug = Some("meds".to_string());
    assert_eq!(ctx.slug(), "meds");
}

fn finding(file: &str, line: u32, id: RuleId, message: &str) -> Finding {
    Finding {
        id,
        severity: Severity::Error,
        file: file.to_string(),
        line,
        message: message.to_string(),
        fix: None,
        spec: "spec/app-model.md",
        edit: None,
    }
}

#[test]
fn a_report_is_sorted_by_file_line_rule_and_message_without_repeats() {
    let found = vec![
        finding("apps/b/x.lsp", 3, RuleId::PV301, "second"),
        finding("apps/a/app.lua", 9, RuleId::PV201, "m"),
        finding("apps/b/x.lsp", 3, RuleId::PV203, "z"),
        finding("apps/b/x.lsp", 3, RuleId::PV301, "first"),
        finding("apps/a/app.lua", 2, RuleId::PV401, "m"),
        finding("apps/b/x.lsp", 3, RuleId::PV301, "second"),
        finding("apps/a/app.lua", 10, RuleId::PV101, "m"),
    ];
    let r = report_order(found);
    let keys: Vec<(String, u32, RuleId, String)> =
        r.iter().map(|f| (f.file.clone(), f.line, f.id, f.message.clone())).collect();
    assert_eq!(
        keys,
        vec![
            ("apps/a/app.lua".to_string(), 2, RuleId::PV401, "m".to_string()),
            ("apps/a/app.lua".to_string(), 9, RuleId::PV201, "m".to_string()),
            ("apps/a/app.lua".to_string(), 10, RuleId::PV101, "m".to_string()),
            ("apps/b/x.lsp".to_string(), 3, RuleId::PV203, "z".to_string()),
            ("apps/b/x.lsp".to_string(), 3, RuleId::PV301, "first".to_string()),
            ("apps/b/x.lsp".to_string(), 3, RuleId::PV301, "second".to_string()),
        ]
    );
    let mut with_fix = finding("a", 1, RuleId::PV101, "m");
    with_fix.fix = Some("do this".to_string());
    let kept = report_order(vec![finding("a", 1, RuleId::PV101, "m"), with_fix.clone(), finding("a", 1, RuleId::PV101, "m")]);
    assert_eq!(kept.len(), 3);
    assert_eq!(kept[1], with_fix);
}
