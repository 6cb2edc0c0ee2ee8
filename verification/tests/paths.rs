use memfs::Path;

fn names(p: &Path) -> Vec<&str> {
    p.components().iter().map(|s| s.as_str()).collect()
}

#[test]
fn root_is_absolute_and_empty() {
    let p = Path::root();
    assert!(p.is_absolute());
    assert!(!p.is_relative());
    assert!(p.components().is_empty());
    assert_eq!(p.to_string(), "/");
}

#[test]
fn parse_absolute_path() {
    let p = Path::parse("/usr/local/bin");
    assert!(p.is_absolute());
    assert_eq!(names(&p), vec!["usr", "local", "bin"]);
}

#[test]
fn parse_relative_path() {
    let p = Path::parse("docs/readme.md");
    assert!(p.is_relative());
    assert!(!p.is_absolute());
    assert_eq!(names(&p), vec!["docs", "readme.md"]);
}

#[test]
fn parse_single_name() {
    let p = Path::parse("ab");
    assert!(p.is_relative());
    assert_eq!(names(&p), vec!["ab"]);
}

#[test]
fn parse_slash_is_root() {
    let p = Path::parse("/");
    assert!(p.is_absolute());
    assert!(p.components().is_empty());
}

#[test]
fn parse_empty_text_is_relative_and_empty() {
    let p = Path::parse("");
    assert!(p.is_relative());
    assert!(p.components().is_empty());
    assert_eq!(p.to_string(), "");
}

#[test]
fn parse_drops_one_trailing_separator() {
    let p = Path::parse("/a/b/");
    assert!(p.is_absolute());
    assert_eq!(names(&p), vec!["a", "b"]);
    let q = Path::parse("a/");
    assert!(q.is_relative());
    assert_eq!(names(&q), vec!["a"]);
}

#[test]
fn parse_keeps_empty_interior_components() {
    let p = Path::parse("a//b");
    assert!(p.is_relative());
    assert_eq!(names(&p), vec!["a", "", "b"]);
    let q = Path::parse("//");
    assert!(q.is_absolute());
    assert_eq!(names(&q), vec![""]);
    let r = Path::parse("a//");
    assert_eq!(names(&r), vec!["a", ""]);
}

#[test]
fn parse_keeps_dots() {
    let p = Path::parse("/../../..");
    assert!(p.is_absolute());
    assert_eq!(names(&p), vec!["..", "..", ".."]);
    let q = Path::parse("./x/..");
    assert!(q.is_relative());
    assert_eq!(names(&q), vec![".", "x", ".."]);
}

#[test]
fn parse_counts_characters_not_bytes() {
    let p = Path::parse("/données/été/ü");
    assert!(p.is_absolute());
    assert_eq!(names(&p), vec!["données", "été", "ü"]);
    assert_eq!(p.to_string(), "/données/été/ü");
}

#[test]
fn render_joins_with_separator() {
    assert_eq!(Path::parse("/a/b/c").to_string(), "/a/b/c");
    assert_eq!(Path::parse("a/b/c").to_string(), "a/b/c");
    assert_eq!(Path::parse("a").to_string(), "a");
    assert_eq!(Path::parse("/a").to_string(), "/a");
}

#[test]
fn render_of_built_path() {
    let p = Path::root()
        .with_component("x".to_string())
        .with_component("y".to_string());
    assert!(p.is_absolute());
    assert_eq!(names(&p), vec!["x", "y"]);
    assert_eq!(p.to_string(), "/x/y");
}

#[test]
fn render_round_trips_for_absolute_paths() {
    for text in ["/", "/a", "/a/b", "/a//b", "/../..", "/./x"] {
        let once = Path::parse(text).to_string();
        let twice = Path::parse(&once).to_string();
        assert_eq!(once, text);
        assert_eq!(twice, once);
    }
}

#[test]
fn render_round_trip_stops_at_a_final_separator() {
    let p = Path::root().with_component("a".to_string()).with_component(String::new());
    let once = p.to_string();
    assert_eq!(once, "/a/");
    assert_eq!(Path::parse(&once).to_string(), "/a");
}

#[test]
fn parse_of_render_gives_well_formed_path_back() {
    let p = Path::parse("x").with_component("y".to_string());
    let q = Path::parse(&p.to_string());
    assert_eq!(q.is_absolute(), p.is_absolute());
    assert_eq!(names(&q), names(&p));
}

#[test]
fn compose_with_root_resets() {
    for base in ["", "/", "a/b", "/a/b"] {
        let sum = Path::parse(base).compose(Path::root());
        assert!(sum.is_absolute());
        assert!(sum.components().is_empty());
        assert_eq!(sum.to_string(), "/");
    }
}

#[test]
fn compose_with_absolute_discards_base() {
    let sum = Path::parse("/home/user").compose(Path::parse("/etc/passwd"));
    assert!(sum.is_absolute());
    assert_eq!(names(&sum), vec!["etc", "passwd"]);
}

#[test]
fn compose_with_relative_appends() {
    let sum = Path::parse("/home/user").compose(Path::parse("docs/../x"));
    assert!(sum.is_absolute());
    assert_eq!(names(&sum), vec!["home", "user", "docs", "..", "x"]);
    let rel = Path::parse("a").compose(Path::parse("b/c"));
    assert!(rel.is_relative());
    assert_eq!(names(&rel), vec!["a", "b", "c"]);
    let same = Path::parse("/a").compose(Path::parse(""));
    assert_eq!(same.to_string(), "/a");
}

#[test]
fn plus_is_compose() {
    let sum = Path::parse("/a") + Path::parse("b");
    assert_eq!(sum.to_string(), "/a/b");
    let reset = Path::parse("/a") + Path::parse("/c");
    assert_eq!(reset.to_string(), "/c");
}

#[test]
fn plus_assign_is_compose() {
    let mut p = Path::parse("/a");
    p += Path::parse("b/c");
    assert_eq!(p.to_string(), "/a/b/c");
    p += Path::parse("/z");
    assert_eq!(p.to_string(), "/z");
    p += Path::root();
    assert_eq!(p.to_string(), "/");
}

#[test]
fn clone_is_equal_and_independent() {
    let p = Path::parse("/a/b");
    let q = p.clone().with_component("c".to_string());
    assert_eq!(p.to_string(), "/a/b");
    assert_eq!(q.to_string(), "/a/b/c");
    assert_eq!(p.clone().is_absolute(), p.is_absolute());
}

#[test]
fn compose_is_associative() {
    let texts = ["", "/", "a", "/a", "b/c", "/b/c", ".."];
    for a in texts {
        for b in texts {
            for c in texts {
                let left = Path::parse(a).compose(Path::parse(b)).compose(Path::parse(c));
                let right = Path::parse(a).compose(Path::parse(b).compose(Path::parse(c)));
                assert_eq!(left.is_absolute(), right.is_absolute());
                assert_eq!(names(&left), names(&right));
            }
        }
    }
}

#[test]
fn compose_with_empty_relative_changes_nothing() {
    for text in ["", "/", "a/b", "/a/b"] {
        let p = Path::parse(text);
        let right = p.clone().compose(Path::parse(""));
        let left = Path::parse("").compose(p.clone());
        assert_eq!(right.is_absolute(), p.is_absolute());
        assert_eq!(names(&right), names(&p));
        assert_eq!(left.is_absolute(), p.is_absolute());
        assert_eq!(names(&left), names(&p));
    }
}

#[test]
fn parsed_components_hold_no_separator() {
    for text in ["/a//b/", "a/b/c", "///", "x"] {
        for name in Path::parse(text).components() {
            assert!(!name.contains('/'));
        }
    }
}

#[test]
fn parse_then_render_drops_one_final_separator() {
    let cases = [
        ("", ""),
        ("/", "/"),
        ("a", "a"),
        ("a/", "a"),
        ("/a/", "/a"),
        ("//", "/"),
        ("a//", "a/"),
        ("/a//b", "/a//b"),
        ("///", "//"),
    ];
    for (text, rendered) in cases {
        assert_eq!(Path::parse(text).to_string(), rendered);
    }
}

#[test]
fn render_and_to_string_agree() {
    for text in ["", "/", "a/b", "/a/b", "/a//b/"] {
        let p = Path::parse(text);
        assert_eq!(p.render(), p.to_string());
    }
    assert_eq!(Path::parse("/x/y/z").render(), "/x/y/z");
    assert_eq!(Path::parse("x/y/z").render(), "x/y/z");
}
