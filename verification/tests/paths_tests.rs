use simpler_notes::paths::{normalize_path, resolve_link};

struct TestCase {
    input: &'static str,
    expected: &'static str,
}

#[test]
fn test_normalize_path() {
    let cases = vec![
        TestCase { input: "a/b/c", expected: "a/b/c" },
        TestCase { input: "a/../b", expected: "b" },
        TestCase { input: "./a/b", expected: "a/b" },
        TestCase { input: "", expected: "" },
        TestCase { input: "a/./b", expected: "a/b" },
        TestCase { input: "a/b/../..", expected: "" },
        TestCase { input: "../a", expected: "a" },
    ];
    for c in cases {
        assert_eq!(normalize_path(c.input), c.expected, "normalize_path({:?})", c.input);
    }
}

#[test]
fn normalize_rooted_paths() {
    assert_eq!(normalize_path("/a//b/"), "/a/b");
    assert_eq!(normalize_path("/"), "/");
    assert_eq!(normalize_path("/.."), "/");
    assert_eq!(normalize_path("/../x"), "/x");
}

#[test]
fn resolve_link_targets() {
    assert_eq!(resolve_link("notes/a.md", "b"), ("notes/b".to_string(), "b".to_string()));
    assert_eq!(resolve_link("notes/a.md", "../x/y.md"), ("x/y.md".to_string(), "y".to_string()));
    assert_eq!(resolve_link("a.md", "/tmp/abs-test"), ("/tmp/abs-test".to_string(), "abs-test".to_string()));
    assert_eq!(resolve_link("a.md", ".hidden"), (".hidden".to_string(), ".hidden".to_string()));
    assert_eq!(resolve_link("a.md", ".."), ("".to_string(), "".to_string()));
}

#[test]
fn normalizing_twice_changes_nothing() {
    for p in ["a/./b/../c", "/../x//y/", "../..", ".", "", "/", "a/b/..", "./a/../../b"] {
        let once = normalize_path(p);
        assert_eq!(normalize_path(&once), once);
    }
}

#[test]
fn parent_at_the_root_stays_at_the_root() {
    assert_eq!(normalize_path("/../a"), "/a");
    assert_eq!(normalize_path("/a/../.."), "/");
    assert_eq!(normalize_path("/x/./../../y/z"), "/y/z");
}
