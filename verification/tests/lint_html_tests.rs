use privatium_core::lint::html::{element_findings, has_accessible_name, headings, parse, try_parse, Node};
use privatium_core::lint::RuleId;

#[test]
fn the_tree_keeps_lines_and_nesting() {
    let root = parse("<div>\n<p>a<b>x</b>\n<p>b</div>\n<input id=\"x\">");
    let ps = root.find_all("p");
    assert_eq!(ps.len(), 2);
    assert_eq!(ps[0].line, 2);
    assert_eq!(ps[1].line, 3);
    assert_eq!(root.find_all("input")[0].line, 4);
    assert_eq!(root.find_all("div")[0].find_all("p").len(), 2);
}

#[test]
fn the_element_rules_fire_and_pass() {
    let bad = parse(
        "<button><svg></svg></button>\n<input name=\"a\">\n<input type=\"radio\">\n\
         <span class=\"dot red\"></span>\n<table><tr><td>x</td></tr></table>",
    );
    let rules: Vec<RuleId> = element_findings(&bad).iter().map(|f| f.rule).collect();
    for rule in [
        RuleId::PV401,
        RuleId::PV402,
        RuleId::PV403,
        RuleId::PV405,
        RuleId::PV407,
    ] {
        assert!(rules.contains(&rule), "{rule:?} missing from {rules:?}");
    }
    let good = parse(
        "<button aria-label=\"Go\"><svg aria-hidden=\"true\" focusable=\"false\"></svg></button>\n\
         <label for=\"a\">A</label><input id=\"a\" name=\"a\">\n\
         <fieldset><legend>Pick</legend><input type=\"radio\" id=\"r\"><label for=\"r\">R</label></fieldset>\n\
         <span class=\"dot red\">Overdue</span>\n\
         <table><tr><th scope=\"col\">x</th></tr></table>",
    );
    assert!(
        element_findings(&good).is_empty(),
        "{:?}",
        element_findings(&good)
    );
}

#[test]
fn comments_doctype_and_raw_text_are_handled() {
    let root = parse("<!DOCTYPE html><!-- a <b> --><script>if (a < b) { x(\"</p>\") }</script><p>t");
    assert_eq!(root.name, "#document");
    assert_eq!(root.children.len(), 2);
    match &root.children[0] {
        Node::Element(s) => {
            assert_eq!(s.name, "script");
            assert_eq!(s.all_text(), "if (a < b) { x(\"</p>\") }");
        }
        Node::Text(_) => panic!("the script element comes first"),
    }
    assert!(root.find_all("b").is_empty());
    assert_eq!(root.find_all("p")[0].all_text(), "t");
}

#[test]
fn an_unmatched_end_tag_is_ignored_and_void_elements_stay_empty() {
    let root = parse("<div>a</span>b<br>c<img src=x/>d</div>");
    let div = root.find_all("div")[0];
    assert_eq!(div.all_text(), "abcd");
    assert_eq!(root.find_all("br")[0].children.len(), 0);
    assert_eq!(root.find_all("img")[0].attr("src"), Some("x/"));
}

#[test]
fn attributes_are_lowercased_unquoted_and_first_wins() {
    let root = parse("<A HREF='/x' Class=\"b  c\" data-x=1 href=/y>t</A>");
    let a = root.find_all("a")[0];
    assert_eq!(a.attr("href"), Some("/x"));
    assert_eq!(a.attr("data-x"), Some("1"));
    assert!(a.has_class("c"));
    assert!(!a.has_class("b  c"));
    assert_eq!(a.describe(), "<a href=\"/x\" class=\"b  c\" href=\"/y\">t");
}

#[test]
fn a_long_description_is_cut_at_forty_characters() {
    let root = parse("<p>  one   two\nthree four five six seven eight nine ten eleven</p>");
    let p = root.find_all("p")[0];
    assert_eq!(p.describe(), "<p>one two three four five six seven eight …");
    assert_eq!(p.visible_text(), "  one   two\nthree four five six seven eight nine ten eleven");
}

#[test]
fn svg_text_is_not_visible_but_a_titled_icon_names_a_control() {
    let root = parse("<button><svg role=\"img\"><title>Close</title></svg></button>");
    let b = root.find_all("button")[0];
    assert_eq!(b.visible_text(), "");
    assert_eq!(b.all_text(), "Close");
    assert!(has_accessible_name(b));
    let bare = parse("<button><svg><title>Close</title></svg></button>");
    assert!(!has_accessible_name(bare.find_all("button")[0]));
}

#[test]
fn dangling_labels_are_reported_once_each_in_order() {
    let root = parse("<label for=\"z\">Z</label>\n<label for=\"b\">B</label>\n<label for=\"z\">Z2</label>");
    let f = element_findings(&root);
    assert_eq!(f.len(), 2);
    assert_eq!(f[0].message, "<label for=\"b\"> names no element");
    assert_eq!(f[0].line, 2);
    assert_eq!(f[1].message, "<label for=\"z\"> names no element");
    assert_eq!(f[1].line, 3);
}

#[test]
fn an_unfocusable_flag_is_the_only_fixable_finding() {
    let root = parse("<svg aria-hidden=\"true\"></svg>");
    let f = element_findings(&root);
    assert_eq!(f.len(), 1);
    assert_eq!(f[0].rule, RuleId::PV401);
    assert!(f[0].fixable);
}

#[test]
fn headings_are_read_with_levels_and_lines() {
    let root = parse("<h1>a</h1>\n<h7>x</h7><h+2>b</h+2>\n<header>c</header><h06>d</h06>");
    assert_eq!(headings(&root), vec![(1, 1), (2, 2), (6, 3)]);
}

#[test]
fn a_text_the_parser_has_no_tree_for_is_told_apart() {
    assert!(try_parse("<div><p>a</p></div>").is_some());
    assert_eq!(try_parse("<div><p>a</p></div>").unwrap().find_all("p").len(), 1);
    assert!(try_parse("<p></p").is_some(), "an open end tag at an ASCII end is read");
    assert!(try_parse("<p></\u{e9}").is_none());
    assert!(try_parse("<script a='x").is_none());
}
