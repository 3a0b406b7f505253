use privatium_core::lua::lsp::{compile, is_view_name, scan, Segment, SegmentKind, Stat, Templates, ViewFile};
use privatium_core::lua::{
    context_from, locate, resolve, same_routes, Resolved, RouteSpec, SourceContext,
};

#[test]
fn the_map_rewrites_every_occurrence_and_nothing_else() {
    let compiled = compile("a\n<? x() ?>\nb").unwrap();
    assert_eq!(compiled.map.source_line(4), Some(1));
    assert_eq!(compiled.map.source_line(5), Some(2));
    assert_eq!(compiled.map.source_line(6), Some(2));
    assert_eq!(compiled.map.source_line(7), Some(3));
    assert_eq!(compiled.map.source_line(99), None);
    let text = "views/t.lsp:5: boom\n\tviews/t.lsp:5: in function <views/t.lsp:2>\n\tviews/u.lsp:5: other";
    assert_eq!(
        compiled.map.rewrite(text, "views/t.lsp"),
        "views/t.lsp:2: boom\n\tviews/t.lsp:2: in function <views/t.lsp:1>\n\tviews/u.lsp:5: other"
    );
}

#[test]
fn view_names() {
    assert!(is_view_name("_board"));
    assert!(is_view_name("play-2"));
    assert!(!is_view_name("../x"));
    assert!(!is_view_name("a/b"));
    assert!(!is_view_name(""));
}

fn routes(specs: &[(&str, &str)]) -> Vec<RouteSpec> {
    specs
        .iter()
        .map(|(method, pattern)| RouteSpec::parse(method, pattern).unwrap())
        .collect()
}

#[test]
fn route_tables_are_compared_by_count_method_and_pattern() {
    let first = routes(&[("GET", "/a"), ("POST", "/b")]);
    assert!(same_routes(&first, &first.clone(), 1).is_ok());

    let fewer = same_routes(&first, &routes(&[("GET", "/a")]), 1).unwrap_err();
    assert!(
        fewer.contains("VM 1 registered 1 route(s) where VM 0 registered 2"),
        "{fewer}"
    );
    assert!(fewer.contains("§2.4"), "{fewer}");

    let pattern = same_routes(&first, &routes(&[("GET", "/a"), ("POST", "/c")]), 3).unwrap_err();
    assert!(
        pattern.contains("at index 1 VM 3 registered POST /c where VM 0 registered POST /b"),
        "{pattern}"
    );

    let method = same_routes(&first, &routes(&[("GET", "/a"), ("PUT", "/b")]), 1).unwrap_err();
    assert!(
        method.contains("registered PUT /b where VM 0 registered POST /b"),
        "{method}"
    );

    let rebuilt = same_routes(&first, &routes(&[("GET", "/a")]), usize::MAX).unwrap_err();
    assert!(
        rebuilt.contains("a rebuilt VM registered 1 route(s)"),
        "{rebuilt}"
    );
}

fn segments(path: &str) -> Vec<String> {
    path.trim_start_matches('/')
        .split('/')
        .filter(|s| !s.is_empty())
        .map(str::to_owned)
        .collect()
}

#[test]
fn patterns_parse_and_match_with_params() {
    let route = RouteSpec::parse("GET", "/fill/:id/edit").unwrap();
    assert_eq!(
        route.matches(&segments("/fill/01J9/edit")),
        Some(vec![("id".to_owned(), "01J9".to_owned())])
    );
    assert_eq!(route.matches(&segments("/fill/01J9")), None);
    assert_eq!(route.matches(&segments("/fill/01J9/view")), None);
    assert!(RouteSpec::parse("GET", "/")
        .unwrap()
        .matches(&segments("/"))
        .is_some());
    for bad in ["fill", "/a//b", "/a/:", ""] {
        assert!(RouteSpec::parse("GET", bad).is_err(), "{bad}");
    }
    assert!(RouteSpec::parse("get", "/a").is_err(), "methods are upper-case");
}

#[test]
fn route_errors_say_what_is_wrong() {
    assert_eq!(
        RouteSpec::parse("get", "/a").unwrap_err(),
        "pv.route: \"get\" is not an HTTP method"
    );
    assert_eq!(
        RouteSpec::parse("GET", "a").unwrap_err(),
        "route \"a\" must start with '/'"
    );
    assert_eq!(
        RouteSpec::parse("GET", "/a//b").unwrap_err(),
        "route \"/a//b\" has an empty segment"
    );
    assert_eq!(
        RouteSpec::parse("GET", "/a/:").unwrap_err(),
        "route \"/a/:\" has an unnamed parameter"
    );
}

#[test]
fn resolution_prefers_the_first_match_and_lists_other_methods() {
    let table = routes(&[("GET", "/fill/:id"), ("POST", "/fill/:id"), ("PUT", "/fill/:id"), ("GET", "/")]);
    assert_eq!(
        resolve(&table, "post", &segments("/fill/7")),
        Resolved::Match {
            index: 1,
            params: vec![("id".to_string(), "7".to_string())]
        }
    );
    assert_eq!(
        resolve(&table, "HEAD", &segments("/fill/7")),
        Resolved::Match {
            index: 0,
            params: vec![("id".to_string(), "7".to_string())]
        }
    );
    assert_eq!(
        resolve(&table, "DELETE", &segments("/fill/7")),
        Resolved::MethodNotAllowed {
            allow: vec!["GET".to_string(), "POST".to_string(), "PUT".to_string()]
        }
    );
    assert_eq!(resolve(&table, "GET", &segments("/nope")), Resolved::NotFound);
    assert_eq!(
        resolve(&table, "GET", &segments("/")),
        Resolved::Match {
            index: 3,
            params: vec![]
        }
    );
}

#[test]
fn a_traceback_is_located_at_the_first_plain_frame() {
    assert_eq!(
        locate("runtime error: [string \"views/index.lsp\"]:3: x\nstack: app.lua:12: in main"),
        Some(("app.lua".to_string(), 12))
    );
    assert_eq!(locate("app.lua:12: boom"), Some(("app.lua".to_string(), 12)));
    assert_eq!(
        locate("error at (lib/tree.lua:7) and views/x.lsp:2"),
        Some(("lib/tree.lua".to_string(), 7))
    );
    assert_eq!(locate("/etc/x.lua:3"), None);
    assert_eq!(locate("../x.lua:3"), None);
    assert_eq!(locate("x.lua:"), None);
    assert_eq!(locate("nothing here"), None);
}

#[test]
fn a_context_clamps_and_shows_three_lines_around() {
    let text = "one\ntwo\nthree\nfour\nfive\nsix\nseven\neight\n";
    let ctx = context_from("app.lua".to_string(), 5, text).unwrap();
    assert_eq!(ctx.line, 5);
    let numbers: Vec<u32> = ctx.lines.iter().map(|l| l.0).collect();
    assert_eq!(numbers, vec![2, 3, 4, 5, 6, 7, 8]);
    let last = context_from("app.lua".to_string(), 99, text).unwrap();
    assert_eq!(last.line, 8);
    assert!(context_from("app.lua".to_string(), 1, "").is_none());
    let shown = SourceContext {
        file: "app.lua".to_string(),
        line: 2,
        lines: vec![(1, "a".to_string()), (2, "b".to_string())],
    }
    .render_text();
    assert_eq!(shown, "app.lua:2\n     1  a\n>    2  b\n");
}

fn file(name: &str, len: u64, source: &str) -> ViewFile {
    ViewFile {
        name: name.to_string(),
        stat: Stat {
            mtime: Some(1),
            len,
        },
        source: source.to_string(),
    }
}

#[test]
fn templates_reload_only_what_changed_and_remember_a_failed_edit() {
    let mut t = Templates::load(&[file("a", 1, "x"), file("b", 1, "y")]).unwrap();
    assert_eq!(t.generation(), 1);
    let stat = |len: u64| Stat {
        mtime: Some(1),
        len,
    };
    assert!(!t.changed(&[("a".to_string(), stat(1)), ("b".to_string(), stat(1))]));
    assert!(t.changed(&[("a".to_string(), stat(2)), ("b".to_string(), stat(1))]));
    let broken = [file("a", 2, "<?= open"), file("b", 1, "y")];
    assert!(t.prepare(&broken).unwrap_err().starts_with("views/a.lsp:1: "));
    assert_eq!(t.generation(), 1, "nothing was published");
    assert!(!t.changed(&[("a".to_string(), stat(2)), ("b".to_string(), stat(1))]));
    let fixed = [file("a", 3, "z"), file("b", 1, "y")];
    let candidate = t.prepare(&fixed).unwrap();
    assert_eq!(candidate.views()[0].generation, 3);
    assert_eq!(candidate.views()[1].generation, 1);
    assert_eq!(t.generation(), 1, "a candidate is not the snapshot");
    t.publish(candidate);
    assert_eq!(t.generation(), 3);
    assert_eq!(t.snapshot()[0].compiled.source, "z");
    assert_eq!(t.snapshot()[0].chunk_name(), "views/a.lsp");
}

fn source_of(segs: &[Segment]) -> String {
    let mut out = String::new();
    for s in segs {
        match &s.kind {
            SegmentKind::Text(t) => out.push_str(t),
            SegmentKind::Code(b) => out.push_str(&format!("<?{b}?>")),
            SegmentKind::Emit(b) => out.push_str(&format!("<?={b}?>")),
            SegmentKind::Raw(b) => out.push_str(&format!("<?raw{b}?>")),
            SegmentKind::Comment(b) => out.push_str(&format!("<?--{b}--?>")),
        }
    }
    out
}

#[test]
fn scanned_segments_give_back_the_template_and_their_lines() {
    let src = "<h1>\n<?= title ?></h1>\n<?-- note\n --?><? for i = 1, 3 do ?>\n<?raw html ?>x";
    let segs = scan(src).unwrap();
    assert_eq!(source_of(&segs), src);
    let mut offset = 0usize;
    for s in &segs {
        let before = &src[..offset];
        assert_eq!(s.line as usize, 1 + before.matches('\n').count());
        offset += source_of(std::slice::from_ref(s)).len();
    }
    assert_eq!(segs.len(), 8);
    let err = scan("a\n\n<?= x").unwrap_err();
    assert_eq!(err.line, 3);
}

#[test]
fn the_first_failing_view_is_named_in_name_order() {
    let listed = [file("zeta", 1, "<? open"), file("alpha", 1, "ok"), file("beta", 1, "<?= open")];
    assert!(Templates::load(&listed).unwrap_err().starts_with("views/beta.lsp:1: "));
    let mut t = Templates::load(&[file("zeta", 1, "z"), file("alpha", 1, "a")]).unwrap();
    assert_eq!(t.snapshot()[0].name, "alpha");
    assert_eq!(t.snapshot()[1].name, "zeta");
    assert!(t.can_prepare());
    let err = t.prepare(&[file("zeta", 2, "<? open"), file("alpha", 2, "<?= open")]).unwrap_err();
    assert!(err.starts_with("views/alpha.lsp:1: "));
    assert_eq!(t.generation(), 1);
}

#[test]
fn a_route_matches_exactly_its_own_shape_and_binds_its_parameters() {
    let route = RouteSpec::parse("GET", "/fill/:id/part/:n").unwrap();
    let path = |p: &[&str]| p.iter().map(|s| s.to_string()).collect::<Vec<String>>();
    assert_eq!(
        route.matches(&path(&["fill", "7", "part", "x"])),
        Some(vec![("id".to_string(), "7".to_string()), ("n".to_string(), "x".to_string())])
    );
    assert_eq!(route.matches(&path(&["fill", "7", "part"])), None);
    assert_eq!(route.matches(&path(&["fil", "7", "part", "x"])), None);
}

#[test]
fn a_tag_with_no_close_after_it_fails_even_after_closed_tags() {
    let err = scan("<? a ?>\n<?-- b --?>\n<?= c").unwrap_err();
    assert_eq!(err.line, 3);
    assert!(scan("<? a <?-- b ?>").is_ok());
}
