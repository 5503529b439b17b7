use pathmarks::guess::{find_case_insensitive, guess, guess_step, GuessStep};
use pathmarks::listing::ChildEntry;

fn strings(items: &[&str]) -> Vec<String> {
    items.iter().map(|s| s.to_string()).collect()
}

fn dirs(names: &[&str]) -> Vec<ChildEntry> {
    names.iter().map(|name| ChildEntry { name: name.to_string(), is_dir: true }).collect()
}

fn entries(items: &[(&str, bool)]) -> Vec<ChildEntry> {
    items.iter().map(|(name, is_dir)| ChildEntry { name: name.to_string(), is_dir: *is_dir }).collect()
}

#[test]
fn an_absolute_query_is_its_own_answer() {
    let children = dirs(&["tmp", "/tmp"]);
    let bookmarks = strings(&["/tmp/x", "/tmp"]);
    assert_eq!(guess("/tmp", &children, &bookmarks), "/tmp");
    assert_eq!(guess("/nowhere/at/all", &children, &bookmarks), "/nowhere/at/all");
    assert_eq!(guess("/tmp", &Vec::new(), &Vec::new()), "/tmp");
}

#[test]
fn an_absolute_query_is_its_own_answer_whatever_the_bookmarks_hold() {
    let long = "x".repeat(5000);
    let bookmarks = strings(&["\\", &long, ""]);
    let query = format!("/{}", "a".repeat(3000));
    assert_eq!(guess(&query, &Vec::new(), &bookmarks), query);
}

#[test]
fn an_absolute_query_needs_neither_listing_nor_bookmarks() {
    assert!(matches!(guess_step("/tmp/x", None, None), GuessStep::Answer(a) if a == "/tmp/x"));
}

#[test]
fn a_child_directory_is_found_whatever_the_case() {
    let children = dirs(&["Documents", "src"]);
    let bookmarks = strings(&["/home/u/documents"]);
    assert_eq!(guess("documents", &children, &bookmarks), "Documents");
    assert_eq!(guess("SRC", &children, &bookmarks), "src");
}

#[test]
fn a_child_directory_is_found_whatever_the_bookmarks_hold() {
    let children = dirs(&["src"]);
    assert_eq!(guess("src", &children, &strings(&["\\"])), "src");
}

#[test]
fn the_first_child_that_matches_is_taken() {
    let found = dirs(&["a", "Readme", "README", "readme"]);
    assert_eq!(find_case_insensitive("readme", &found), Some("Readme".to_string()));
    assert_eq!(find_case_insensitive("READme", &found), Some("Readme".to_string()));
    assert_eq!(find_case_insensitive("missing", &found), None);
    assert_eq!(find_case_insensitive("a", &Vec::new()), None);
}

#[test]
fn only_directories_are_found_by_name() {
    let found = entries(&[("Notes", false), ("notes", true), ("todo", false)]);
    assert_eq!(find_case_insensitive("NOTES", &found), Some("notes".to_string()));
    assert_eq!(find_case_insensitive("todo", &found), None);
    assert_eq!(guess("todo", &found, &Vec::new()), "todo");
}

#[test]
fn case_is_folded_beyond_ascii() {
    let found = dirs(&["ÉCOLE"]);
    assert_eq!(find_case_insensitive("école", &found), Some("ÉCOLE".to_string()));
}

#[test]
fn a_relative_query_asks_for_the_listing_first() {
    assert!(matches!(guess_step("proj", None, None), GuessStep::ListChildren));
    assert!(matches!(
        guess_step("proj", None, Some(&strings(&["/home/u/proj"]))),
        GuessStep::ListChildren
    ));
}

#[test]
fn without_a_child_the_bookmarks_are_asked_for() {
    let children = dirs(&["src"]);
    assert!(matches!(guess_step("proj", Some(&children), None), GuessStep::ReadBookmarks));
}

#[test]
fn a_child_is_answered_without_the_bookmarks() {
    let children = dirs(&["Proj"]);
    assert!(matches!(guess_step("proj", Some(&children), None), GuessStep::Answer(a) if a == "Proj"));
}

#[test]
fn a_bookmark_is_found_by_fuzzy_match() {
    let children = dirs(&["src"]);
    let bookmarks = strings(&["/var/log", "/home/u/projects/pathmarks"]);
    assert_eq!(guess("pathmarks", &children, &bookmarks), "/home/u/projects/pathmarks");
}

#[test]
fn a_query_that_matches_nothing_is_handed_back() {
    let children = dirs(&["src"]);
    let bookmarks = strings(&["/var/log"]);
    assert_eq!(guess("zzzzqqqq", &children, &bookmarks), "zzzzqqqq");
    assert_eq!(guess("zzzzqqqq", &Vec::new(), &Vec::new()), "zzzzqqqq");
}

#[test]
fn a_query_too_long_for_the_matcher_is_handed_back() {
    let query = "a".repeat(3000);
    let bookmarks = vec![format!("/{}", query)];
    assert_eq!(guess(&query, &Vec::new(), &bookmarks), query);
}

#[test]
fn a_bookmark_too_long_for_the_matcher_keeps_the_bookmarks_unasked() {
    let bookmarks = vec!["/home/u/proj".to_string(), format!("/{}", "x".repeat(1048576))];
    assert_eq!(guess("proj", &Vec::new(), &bookmarks), "proj");
    assert_eq!(guess("proj", &Vec::new(), &bookmarks[..1].to_vec()), "/home/u/proj");
}

#[test]
fn the_longest_query_is_matched() {
    let query = "a".repeat(2048);
    let bookmarks = vec![format!("/{}", query)];
    assert_eq!(guess(&query, &Vec::new(), &bookmarks), bookmarks[0]);
}

#[test]
fn the_shortest_of_equally_good_bookmarks_is_the_answer() {
    let bookmarks = strings(&[
        "/path/with/many/sub/directories",
        "/path/with/",
        "/path/with/many/sub/",
    ]);
    assert_eq!(guess("pathwith", &Vec::new(), &bookmarks), "/path/with/");
}
