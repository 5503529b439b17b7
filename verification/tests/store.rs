use pathmarks::error::AppError;
use pathmarks::store::{
    bookmarks_file, contains, format_bookmarks, parse_bookmarks, prune, remove, remove_path, save,
};

fn strings(items: &[&str]) -> Vec<String> {
    items.iter().map(|s| s.to_string()).collect()
}

#[test]
fn save_appends_a_new_directory() {
    let mut bookmarks = strings(&["/a"]);
    save(&mut bookmarks, "/b".to_string());
    assert_eq!(bookmarks, strings(&["/a", "/b"]));
}

#[test]
fn save_twice_keeps_one_entry() {
    let mut bookmarks: Vec<String> = Vec::new();
    save(&mut bookmarks, "/home/u/proj".to_string());
    save(&mut bookmarks, "/home/u/proj".to_string());
    assert_eq!(bookmarks, strings(&["/home/u/proj"]));
    assert_eq!(bookmarks.len(), 1);
}

#[test]
fn contains_finds_exact_text_only() {
    let bookmarks = strings(&["/a", "/b/c"]);
    assert!(contains(&bookmarks, "/b/c"));
    assert!(!contains(&bookmarks, "/b"));
    assert!(!contains(&bookmarks, "/b/c/"));
}

#[test]
fn remove_drops_every_equal_bookmark() {
    let mut bookmarks = strings(&["/a", "/b", "/a", "/c"]);
    assert!(remove(&mut bookmarks, "/a").is_ok());
    assert_eq!(bookmarks, strings(&["/b", "/c"]));
}

#[test]
fn remove_of_an_unknown_path_reports_not_found_and_changes_nothing() {
    let mut bookmarks = strings(&["/a", "/b"]);
    let before = format_bookmarks(&bookmarks);
    match remove_path(&mut bookmarks, "/missing") {
        Err(AppError::NotFound(p)) => assert_eq!(p, "/missing"),
        other => panic!("unexpected: {:?}", other),
    }
    assert_eq!(bookmarks, strings(&["/a", "/b"]));
    assert_eq!(format_bookmarks(&bookmarks), before);
}

#[test]
fn remove_of_a_relative_path_is_refused() {
    let mut bookmarks = strings(&["/a", "b"]);
    assert!(matches!(remove_path(&mut bookmarks, "b"), Err(AppError::InvalidPath)));
    assert_eq!(bookmarks, strings(&["/a", "b"]));
    assert!(matches!(remove_path(&mut bookmarks, ""), Err(AppError::InvalidPath)));
}

#[test]
fn remove_path_removes_an_absolute_bookmark() {
    let mut bookmarks = strings(&["/a", "/b"]);
    assert!(remove_path(&mut bookmarks, "/a").is_ok());
    assert_eq!(bookmarks, strings(&["/b"]));
}

#[test]
fn prune_keeps_existing_paths_in_order() {
    let bookmarks = strings(&["/a", "/missing", "/b"]);
    let left = prune(&bookmarks, &vec![true, false, true]);
    assert_eq!(left, strings(&["/a", "/b"]));
}

#[test]
fn prune_of_nothing_and_of_everything() {
    let bookmarks = strings(&["/a", "/b"]);
    assert_eq!(prune(&bookmarks, &vec![false, false]), Vec::<String>::new());
    assert_eq!(prune(&bookmarks, &vec![true, true]), bookmarks);
    assert_eq!(prune(&Vec::new(), &Vec::new()), Vec::<String>::new());
}

#[test]
fn parse_trims_lines_and_skips_blank_ones() {
    let text = "  /a  \n\n\t\n/b/c\r\n   \n/d e\n";
    assert_eq!(parse_bookmarks(text), strings(&["/a", "/b/c", "/d e"]));
}

#[test]
fn parse_reads_a_last_line_without_line_feed() {
    assert_eq!(parse_bookmarks("/a\n/b"), strings(&["/a", "/b"]));
    assert_eq!(parse_bookmarks(""), Vec::<String>::new());
    assert_eq!(parse_bookmarks("\n\n"), Vec::<String>::new());
}

#[test]
fn parse_keeps_duplicates_and_inner_whitespace() {
    assert_eq!(parse_bookmarks("/a\n/a\n/x  y\n"), strings(&["/a", "/a", "/x  y"]));
    assert_eq!(parse_bookmarks("\u{a0}/a\u{3000}\n"), strings(&["/a"]));
}

#[test]
fn format_writes_one_line_each() {
    assert_eq!(format_bookmarks(&strings(&["/a", "/b"])), "/a\n/b\n");
    assert_eq!(format_bookmarks(&Vec::new()), "");
}

#[test]
fn format_then_parse_gives_the_bookmarks_back() {
    let bookmarks = strings(&["/a", "/b c/d", "/e"]);
    assert_eq!(parse_bookmarks(&format_bookmarks(&bookmarks)), bookmarks);
}

#[test]
fn bookmarks_file_lies_below_the_data_directory() {
    assert_eq!(
        bookmarks_file(Some("/home/u/.local/share")).unwrap(),
        "/home/u/.local/share/pathmarks/bookmarks.txt"
    );
    assert_eq!(bookmarks_file(Some("/data/")).unwrap(), "/data/pathmarks/bookmarks.txt");
}

#[test]
fn bookmarks_file_needs_a_data_directory() {
    assert!(matches!(bookmarks_file(None), Err(AppError::DataDirectoryUnavailable)));
}
