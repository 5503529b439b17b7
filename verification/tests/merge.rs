use pathmarks::merge::{merge_sources, merge_with_cwd_dirs};

fn strings(items: &[&str]) -> Vec<String> {
    items.iter().map(|s| s.to_string()).collect()
}

#[test]
fn merge_keeps_each_path_once_in_the_order_seen() {
    let merged = merge_with_cwd_dirs(strings(&["x", "y"]), strings(&["y", "z"]));
    assert_eq!(merged, strings(&["x", "y", "z"]));
}

#[test]
fn merge_of_its_own_result_with_nothing_changes_nothing() {
    let once = merge_with_cwd_dirs(strings(&["a", "b", "a"]), strings(&["c", "b", "d", "c"]));
    assert_eq!(once, strings(&["a", "b", "c", "d"]));
    let twice = merge_with_cwd_dirs(once.clone(), Vec::new());
    assert_eq!(twice, once);
}

#[test]
fn merge_does_not_normalize_paths() {
    let merged = merge_with_cwd_dirs(strings(&["a", "./a"]), strings(&["a/", "A"]));
    assert_eq!(merged, strings(&["a", "./a", "a/", "A"]));
}

#[test]
fn merge_with_an_empty_side() {
    assert_eq!(merge_with_cwd_dirs(Vec::new(), Vec::new()), Vec::<String>::new());
    assert_eq!(merge_with_cwd_dirs(strings(&["a"]), Vec::new()), strings(&["a"]));
    assert_eq!(merge_with_cwd_dirs(Vec::new(), strings(&["b", "b"])), strings(&["b"]));
}

#[test]
fn merge_puts_the_directories_first() {
    let merged = merge_with_cwd_dirs(strings(&["src", "tests"]), strings(&["/home/u", "src"]));
    assert_eq!(merged, strings(&["src", "tests", "/home/u"]));
}

#[test]
fn merge_sources_keeps_the_two_sources_apart() {
    let (dirs, saved) = merge_sources(strings(&["src", "tests", "src"]), strings(&["/home/u", "src", "/home/u", "/v"]));
    assert_eq!(dirs, strings(&["src", "tests"]));
    assert_eq!(saved, strings(&["/home/u", "/v"]));
}

#[test]
fn merge_sources_one_after_the_other_are_the_merged_list() {
    let dirs = strings(&["a", "b", "a"]);
    let paths = strings(&["c", "b", "d", "c"]);
    let (first, second) = merge_sources(dirs.clone(), paths.clone());
    let mut both = first;
    both.extend(second);
    assert_eq!(both, merge_with_cwd_dirs(dirs, paths));
}
