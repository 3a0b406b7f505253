use privatium_core::lint::manifest::{
    check_manifest_fields, check_permission_comments, check_secrets, comment_outside_strings, line_of_key,
    ManifestFacts, ManifestFields,
};
use privatium_core::lint::{Ctx, RuleId};

fn ctx() -> Ctx {
    Ctx {
        display: "apps/x".to_string(),
        folder: "x".to_string(),
        manifest_slug: None,
        solo: false,
        findings: Vec::new(),
    }
}

#[test]
fn keys_and_comments_are_located() {
    let text = "[app]\nslug = \"x\"\n[permissions]\n# why\nsql = true\nremote = [\"https://a.b\"]\n";
    assert_eq!(line_of_key(text, "slug"), 2);
    assert_eq!(line_of_key(text, "sql"), 5);
    assert_eq!(line_of_key(text, "nope"), 0);
    assert!(comment_outside_strings("sql = true # yes"));
    assert!(!comment_outside_strings("x = \"#no\""));
}

#[test]
fn a_key_must_be_followed_by_an_equals_sign() {
    let text = "  slugline = 1\r\n\tslug   = \"x\"\n";
    assert_eq!(line_of_key(text, "slug"), 2);
    assert!(comment_outside_strings("a = 'x' # b"));
    assert!(!comment_outside_strings("a = '#' \"#\""));
}

#[test]
fn a_widened_permission_wants_a_comment() {
    let text = "[app]\nsql = true\n[permissions]\n# why\nsql = true\nwasm = true\neval = true # needed\nremote = [\"https://a.b\"]\n[nav]\nwasm = true\n";
    let mut c = ctx();
    check_permission_comments(&mut c, text, &["sql", "wasm", "eval", "remote"]);
    let lines: Vec<u32> = c.findings.iter().map(|f| f.line).collect();
    assert_eq!(lines, vec![6, 8]);
    assert_eq!(c.findings[0].id, RuleId::PV205);
    assert_eq!(
        c.findings[0].message,
        "permissions.wasm is widened with no comment saying why; the owner is shown it at install"
    );
    assert_eq!(c.findings[0].file, "apps/x/app.toml");
}

#[test]
fn secrets_are_found_by_key_and_by_format() {
    let text = "{\"password\": \"\"}\n{\"Password\": \"hunter2\"}\napi_key = 'x'\nnote = \"AKIA123\"\n-----BEGIN KEY\nbearer\n";
    let mut c = ctx();
    check_secrets(&mut c, "sample/seed.jsonl", text);
    let got: Vec<(u32, String)> = c.findings.iter().map(|f| (f.line, f.message.clone())).collect();
    assert_eq!(
        got,
        vec![
            (2, "`password` carries a value — a secret in an app folder or its data ends up in plain-text logs, snapshots and backups".to_string()),
            (3, "`api_key` carries a value — a secret in an app folder or its data ends up in plain-text logs, snapshots and backups".to_string()),
            (4, "a value in a credential format (AKIA) — a secret in an app folder or its data ends up in plain-text logs, snapshots and backups".to_string()),
            (5, "a value in a credential format (-----BEGIN) — a secret in an app folder or its data ends up in plain-text logs, snapshots and backups".to_string()),
        ]
    );
    assert!(c.findings.iter().all(|f| f.id == RuleId::PV208));
}

#[test]
fn the_manifest_fields_are_checked_in_rule_order() {
    let text = "[app]\nslug = \"Hello!\"\napi = 3\ntier = \"web\"\nicon = \"nope\"\n[permissions]\ncross_origin_isolated = true\n";
    let m = ManifestFields {
        slug: "Hello!".to_string(),
        api: 3,
        tier: "web".to_string(),
        tier_file: Some("web/index.html".to_string()),
        advertise: true,
        cross_origin_isolated: true,
        icon: Some("nope".to_string()),
    };
    let facts = ManifestFacts { reserved: false, supported_api: 1, max_advertised: 4, tier_file_exists: false, icon_known: false, solo: false };
    let mut ctx = privatium_core::lint::Ctx {
        display: "apps/hello".to_string(),
        folder: "hello".to_string(),
        manifest_slug: None,
        solo: false,
        findings: Vec::new(),
    };
    check_manifest_fields(&mut ctx, text, &m, &facts);
    let got: Vec<(privatium_core::lint::RuleId, u32)> = ctx.findings.iter().map(|f| (f.id, f.line)).collect();
    assert_eq!(got, vec![(RuleId::PV102, 2), (RuleId::PV103, 3), (RuleId::PV104, 2), (RuleId::PV105, 4), (RuleId::PV501, 2), (RuleId::PV502, 7), (RuleId::PV503, 5)]);
    assert_eq!(ctx.findings[0].message, "slug \"Hello!\" does not match ^[a-z][a-z0-9-]{1,30}$");
    assert_eq!(ctx.findings[1].message, "api = 3 — this framework implements api = 1");
    assert_eq!(ctx.findings[1].fix.as_deref(), Some("api = 1"));
    assert_eq!(ctx.findings[2].message, "slug \"Hello!\" but the folder is \"hello\"");
    assert_eq!(ctx.findings[3].message, "tier = \"web\" requires web/index.html");
    assert_eq!(ctx.findings[4].message, "slug \"Hello!\" is 6 characters; a DNS-SD subtype label holds 4");
    assert_eq!(ctx.findings[0].file, "apps/hello/app.toml");

    let fine = ManifestFields {
        slug: "hello".to_string(),
        api: 1,
        tier: "lua".to_string(),
        tier_file: None,
        advertise: false,
        cross_origin_isolated: false,
        icon: None,
    };
    let mut quiet = privatium_core::lint::Ctx {
        display: "apps/hello".to_string(),
        folder: "hello".to_string(),
        manifest_slug: None,
        solo: false,
        findings: Vec::new(),
    };
    check_manifest_fields(&mut quiet, "[app]\nslug = \"hello\"\n", &fine, &ManifestFacts { reserved: true, ..facts });
    assert_eq!(quiet.findings.len(), 1);
    assert_eq!(quiet.findings[0].message, "slug \"hello\" is reserved (spec/protocol.md §1.1)");
}
