use pathmarks::error::AppError;
use pathmarks::text::{fill, join_with, same_text, split_at, trim};

fn strings(items: &[&str]) -> Vec<String> {
    items.iter().map(|s| s.to_string()).collect()
}

#[test]
fn split_gives_the_pieces_between_separators() {
    assert_eq!(split_at("a/b//c", '/'), strings(&["a", "b", "", "c"]));
    assert_eq!(split_at("/a/", '/'), strings(&["", "a", ""]));
    assert_eq!(split_at("", '/'), strings(&[""]));
    assert_eq!(split_at("abc", '/'), strings(&["abc"]));
}

#[test]
fn join_is_the_inverse_of_split() {
    for text in ["a/b//c", "/a/", "", "abc", "///"] {
        assert_eq!(join_with(&split_at(text, '/'), '/'), text);
    }
    assert_eq!(join_with(&Vec::new(), '\n'), "");
    assert_eq!(join_with(&strings(&["a", "b"]), '\n'), "a\nb");
}

#[test]
fn trim_removes_whitespace_at_both_ends_only() {
    assert_eq!(trim("  a b \t\r\n"), "a b");
    assert_eq!(trim(""), "");
    assert_eq!(trim(" \t "), "");
    assert_eq!(trim("x"), "x");
    assert_eq!(trim("\u{2003}é\u{a0}"), "é");
}

#[test]
fn trim_agrees_with_the_standard_library() {
    for text in ["", " ", "a", " a", "a ", " a b ", "\n\ta\u{85}", "\u{1680}x y\u{3000}", "\u{200b}a"] {
        assert_eq!(trim(text), text.trim(), "{:?}", text);
    }
}

#[test]
fn fill_replaces_every_mark() {
    assert_eq!(fill("%() { %i; }", '%', "go"), "go() { goi; }");
    assert_eq!(fill("none", '%', "go"), "none");
    assert_eq!(fill("%%", '%', "ab"), "abab");
    assert_eq!(fill("a%b", '%', ""), "ab");
    assert_eq!(fill("", '%', "x"), "");
}

#[test]
fn same_text_compares_characters() {
    assert!(same_text("abc", "abc"));
    assert!(!same_text("abc", "abd"));
    assert!(!same_text("abc", "ab"));
    assert!(same_text("", ""));
}

#[test]
fn every_error_has_its_line() {
    assert_eq!(
        AppError::DataDirectoryUnavailable.message(),
        "Could not determine home/config directory"
    );
    assert_eq!(AppError::Io("permission denied".to_string()).message(), "permission denied");
    assert_eq!(AppError::Picker("not a terminal".to_string()).message(), "not a terminal");
    assert_eq!(AppError::InvalidPath.message(), "Path must be absolute");
    assert_eq!(AppError::NotFound("/a/b".to_string()).message(), "Not found: /a/b");
}

#[test]
fn ascii_whitespace_is_the_blank_and_tab_to_carriage_return() {
    for code in 0u8..128 {
        let c = code as char;
        let text = format!("{}x{}", c, c);
        let blank = c == ' ' || ('\t'..='\r').contains(&c);
        assert_eq!(trim(&text) == "x", blank, "{:?}", c);
        assert_eq!(c.is_whitespace(), blank, "{:?}", c);
    }
}
