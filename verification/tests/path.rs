use pathmarks::path::{
    best_effort_relative_if_descendant, is_absolute, join, path_segments, relative_if_descendant,
};
use std::path::Path;

fn strings(items: &[&str]) -> Vec<String> {
    items.iter().map(|s| s.to_string()).collect()
}

#[test]
fn absolute_paths_start_at_the_root() {
    assert!(is_absolute("/"));
    assert!(is_absolute("/home/u"));
    assert!(!is_absolute(""));
    assert!(!is_absolute("home/u"));
    assert!(!is_absolute("./a"));
    assert!(!is_absolute(" /a"));
}

#[test]
fn is_absolute_agrees_with_the_standard_library() {
    for p in ["/", "/a", "a", "", ".", "..", "a/b", "//a", "~/x", "é/x", "/é"] {
        assert_eq!(is_absolute(p), Path::new(p).has_root(), "{}", p);
    }
}

#[test]
fn segments_leave_out_empty_pieces_and_single_dots() {
    assert_eq!(path_segments("/home/u/proj"), strings(&["home", "u", "proj"]));
    assert_eq!(path_segments("/home//u/./proj/"), strings(&["home", "u", "proj"]));
    assert_eq!(path_segments("/a/../b"), strings(&["a", "..", "b"]));
    assert_eq!(path_segments("/.hidden/..."), strings(&[".hidden", "..."]));
    assert_eq!(path_segments("/"), Vec::<String>::new());
    assert_eq!(path_segments(""), Vec::<String>::new());
    assert_eq!(path_segments("."), Vec::<String>::new());
}

#[test]
fn relativize_gives_the_path_below_the_base() {
    assert_eq!(
        best_effort_relative_if_descendant("/home/u/proj", "/home/u/proj/src"),
        Some("src".to_string())
    );
    assert_eq!(
        best_effort_relative_if_descendant("/home/u/proj", "/home/u/proj/src/bin/x"),
        Some("src/bin/x".to_string())
    );
}

#[test]
fn relativize_gives_a_dot_for_the_base_itself() {
    assert_eq!(
        best_effort_relative_if_descendant("/home/u/proj", "/home/u/proj"),
        Some(".".to_string())
    );
    assert_eq!(
        best_effort_relative_if_descendant("/home/u/proj/", "/home/u//proj/."),
        Some(".".to_string())
    );
    assert_eq!(best_effort_relative_if_descendant("/", "/"), Some(".".to_string()));
}

#[test]
fn relativize_gives_nothing_outside_the_base() {
    assert_eq!(best_effort_relative_if_descendant("/home/u/proj", "/home/other"), None);
    assert_eq!(best_effort_relative_if_descendant("/home/u/proj", "/home/u"), None);
    assert_eq!(best_effort_relative_if_descendant("/home/u/proj", "/home/u/project"), None);
    assert_eq!(best_effort_relative_if_descendant("/home/u/proj", "/home/u/pro"), None);
}

#[test]
fn relativize_by_text_needs_two_absolute_paths() {
    assert_eq!(best_effort_relative_if_descendant("home/u", "home/u/src"), None);
    assert_eq!(best_effort_relative_if_descendant("/home/u", "home/u/src"), None);
    assert_eq!(best_effort_relative_if_descendant("home/u", "/home/u/src"), None);
    assert_eq!(best_effort_relative_if_descendant("", ""), None);
}

#[test]
fn relativize_below_the_root() {
    assert_eq!(best_effort_relative_if_descendant("/", "/a/b"), Some("a/b".to_string()));
}

#[test]
fn relativize_goes_by_the_resolved_paths_where_there_are_some() {
    assert_eq!(
        relative_if_descendant("/link", "/link/src", Some(("/real/proj", "/real/proj/src"))),
        Some("src".to_string())
    );
    assert_eq!(
        relative_if_descendant("/home/u", "/home/u/x", Some(("/real", "/elsewhere/x"))),
        None
    );
    assert_eq!(
        relative_if_descendant("/home/u", "/home/u/x", None),
        Some("x".to_string())
    );
    assert_eq!(relative_if_descendant("/home/u", "/tmp", None), None);
}

#[test]
fn relativize_agrees_with_the_standard_library_on_plain_paths() {
    let cases = [
        ("/home/u/proj", "/home/u/proj/src"),
        ("/home/u/proj", "/home/u/proj"),
        ("/home/u/proj", "/home/other"),
        ("/", "/a"),
        ("/a/b", "/a/b/c/d"),
        ("/a/b", "/a/bc"),
        ("/a/b/", "/a/b/c"),
        ("/a", "/a/../b"),
    ];
    for (base, child) in cases {
        let expected = Path::new(child).strip_prefix(Path::new(base)).ok().map(|rel| {
            if rel.as_os_str().is_empty() {
                ".".to_string()
            } else {
                rel.to_str().unwrap().to_string()
            }
        });
        assert_eq!(best_effort_relative_if_descendant(base, child), expected, "{} {}", base, child);
    }
}

#[test]
fn join_puts_a_separator_where_one_is_needed() {
    assert_eq!(join("/a", "b"), "/a/b");
    assert_eq!(join("/a/", "b"), "/a/b");
    assert_eq!(join("", "b"), "b");
    assert_eq!(join("/a", ""), "/a/");
    assert_eq!(join("/a", "/b"), "/b");
    assert_eq!(join("a", "b/c"), "a/b/c");
}

#[test]
fn join_agrees_with_the_standard_library() {
    for (dir, rest) in [("/a", "b"), ("/a/", "b"), ("", "b"), ("/a", ""), ("/a", "/b"), ("a", "../c"), ("/", "x")] {
        assert_eq!(join(dir, rest), Path::new(dir).join(rest).to_str().unwrap(), "{} {}", dir, rest);
    }
}

#[test]
fn relativize_writes_the_rest_anew_from_its_names() {
    assert_eq!(best_effort_relative_if_descendant("/w", "/w/b/./c"), Some("b/c".to_string()));
    assert_eq!(best_effort_relative_if_descendant("/w", "/w/b//c"), Some("b/c".to_string()));
    assert_eq!(best_effort_relative_if_descendant("/w", "/w//b/c/"), Some("b/c".to_string()));
    assert_eq!(best_effort_relative_if_descendant("/w/.", "/w/./b/../c"), Some("b/../c".to_string()));
}

#[test]
fn relativize_names_the_same_path_as_the_standard_library() {
    for (base, child) in [("/w", "/w/b/./c"), ("/w", "/w/b//c"), ("/w/", "/w//b/c/"), ("/w", "/w/./b")] {
        let written = Path::new(child).strip_prefix(Path::new(base)).unwrap();
        let anew = best_effort_relative_if_descendant(base, child).unwrap();
        assert_eq!(Path::new(&anew), written, "{} {}", base, child);
        assert_eq!(
            Path::new(&anew).components().collect::<Vec<_>>(),
            written.components().collect::<Vec<_>>()
        );
    }
    let written = Path::new("/w/b/./c").strip_prefix("/w").unwrap();
    assert_eq!(written.to_str(), Some("b/./c"));
    assert_eq!(best_effort_relative_if_descendant("/w", "/w/b/./c").as_deref(), Some("b/c"));
}
