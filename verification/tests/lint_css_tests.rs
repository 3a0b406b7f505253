use privatium_core::lint::css::{
    background_candidates, background_of, check_css_origins, colour_in, hex_channels, outline_removed,
    page_background, resolve, ring_colours, root_tokens, rules, strip_comments, token_line,
};
use privatium_core::lint::{Ctx, RuleId};

#[test]
fn tokens_rules_and_lines_are_read() {
    let css = "/* c */\n:root { --fg: #111; --bg: #fff }\n@media (x) {\n  :root { --fg: #eee }\n}\na,\nb { color: var(--fg); border: 1px solid var(--bg) }\n";
    let tokens = root_tokens(css);
    assert_eq!(tokens.len(), 2);
    assert_eq!(tokens[0].get("--fg").as_deref(), Some("#111"));
    assert_eq!(tokens[1].get("--fg").as_deref(), Some("#eee"));
    let rules = rules(css);
    assert_eq!(rules.len(), 4, "two :root blocks, a and b");
    assert_eq!(rules[3].selector, "b");
    assert_eq!(rules[3].line, 6);
    assert_eq!(rules[2].selector, "a");
    assert_eq!(rules[2].line, 6);
    assert_eq!(rules[1].selector, ":root");
    assert_eq!(rules[1].line, 4, "a rule inside @media carries its line in the sheet");
    assert_eq!(rules[0].line, 2);
    assert_eq!(
        resolve(&rules[3].declarations.get("color").unwrap(), &tokens[0]).as_deref(),
        Some("#111")
    );
    assert_eq!(
        colour_in(&rules[3].declarations.get("border").unwrap(), &tokens[0]).as_deref(),
        Some("#fff")
    );
}

#[test]
fn comments_become_spaces_and_keep_lines() {
    assert_eq!(strip_comments("a/* x\ny */b"), "a    \n    b");
    assert_eq!(strip_comments("a /* never closed"), "a ");
    assert_eq!(strip_comments("/*/x*/"), "   x*/");
}

#[test]
fn colours_are_read_as_channels() {
    assert_eq!(hex_channels("#fff"), Some((255, 255, 255)));
    assert_eq!(hex_channels(" #00274c "), Some((0, 39, 76)));
    assert_eq!(hex_channels("Navy"), Some((0, 0, 128)));
    assert_eq!(hex_channels("#12345"), None);
    assert_eq!(hex_channels("nope"), None);
    assert_eq!(hex_channels("#+f+f+f"), Some((15, 15, 15)));
}

#[test]
fn stylesheet_origins_are_declared_and_not_imported() {
    let mut c = Ctx {
        display: "apps/x".to_string(),
        folder: "x".to_string(),
        manifest_slug: None,
        solo: false,
        findings: Vec::new(),
    };
    let css = "body { background: URL('https://img.example.com/a.png'); }\n@import \"https://fonts.example.com/f.css\";\na { b: url(/local.png) }";
    check_css_origins(&mut c, "web/app.css", css, &["https://img.example.com".to_string()]);
    let got: Vec<(RuleId, u32, String)> = c
        .findings
        .iter()
        .map(|f| (f.id, f.line, f.message.clone()))
        .collect();
    assert_eq!(
        got,
        vec![
            (RuleId::PV504, 2, "@import from https://fonts.example.com".to_string()),
            (
                RuleId::PV207,
                2,
                "https://fonts.example.com is referenced but not declared in permissions.remote; the CSP blocks it silently".to_string()
            ),
        ]
    );
}

#[test]
fn an_outline_removed_with_nothing_in_its_place_is_found() {
    let rs = rules("a:focus { outline: none; }\nb:focus { outline: 0 ; box-shadow: 0 0 0 2px red; }\nc { outline: 2px solid; }");
    let flags: Vec<bool> = rs.iter().map(outline_removed).collect();
    assert_eq!(flags, vec![true, false, false]);
}

#[test]
fn text_tokens_are_paired_with_their_backgrounds() {
    assert_eq!(background_candidates("--pv-fg"), vec!["--pv-bg", "--pv-background", "--pv-surface"]);
    assert_eq!(background_candidates("--card-foreground"), vec!["--card-bg", "--card-background", "--card-surface"]);
    assert_eq!(background_candidates("--fg"), vec!["--bg", "--background"]);
    assert_eq!(background_candidates("--text"), vec!["--bg", "--background"]);
    assert!(background_candidates("--accent").is_empty());
    let css = "a { color: red }\n:root {\n  --pv-fg: #000;\n}\n";
    assert_eq!(token_line(css, "--pv-fg"), 3);
    assert_eq!(token_line(css, "--missing"), 0);
}

#[test]
fn the_page_background_comes_from_body_else_the_tokens() {
    let css = ":root { --bg: #fafafa }\nbody { background: 1px var(--bg) }\np { color: #333 }\n";
    let tokens = root_tokens(css).remove(0);
    let all = rules(css);
    assert_eq!(page_background(&all, &tokens).as_deref(), Some("#fafafa"));
    let p = all.iter().find(|r| r.selector == "p").unwrap();
    assert_eq!(background_of(&p.declarations, &tokens), None);
    let body = all.iter().find(|r| r.selector == "body").unwrap();
    assert_eq!(background_of(&body.declarations, &tokens).as_deref(), Some("#fafafa"));
    let bare = ":root { --pv-bg: #101010 }\np { color: #333 }\n";
    let tokens = root_tokens(bare).remove(0);
    assert_eq!(page_background(&rules(bare), &tokens).as_deref(), Some("#101010"));
}

#[test]
fn focus_rings_are_read_only_on_focus_rules() {
    let css = ":root { --accent: #0a0 }\na:focus { outline: 2px solid var(--accent); border-color: #111 }\na { outline: 1px solid #fff }\n";
    let tokens = root_tokens(css).remove(0);
    let all = rules(css);
    let focus = all.iter().find(|r| r.selector == "a:focus").unwrap();
    assert_eq!(
        ring_colours(focus, &tokens),
        vec![("outline".to_string(), "#0a0".to_string()), ("border-color".to_string(), "#111".to_string())]
    );
    let plain = all.iter().find(|r| r.selector == "a").unwrap();
    assert!(ring_colours(plain, &tokens).is_empty());
}

#[test]
fn names_come_in_declaration_order_with_repeats() {
    let d = privatium_core::lint::css::declarations("color: red; --Fg : #111; color: blue; nothing");
    assert_eq!(d.names(), vec!["color".to_string(), "--fg".to_string(), "color".to_string()]);
    assert_eq!(d.get("color"), Some("blue".to_string()));
    let schemes = privatium_core::lint::css::root_tokens(":root { --b: 1; --a: 2 } :root { --a: 3 }");
    assert_eq!(schemes.len(), 2);
    assert_eq!(schemes[0].names(), vec!["--b".to_string(), "--a".to_string()]);
    assert_eq!(schemes[1].names(), vec!["--a".to_string()]);
}
