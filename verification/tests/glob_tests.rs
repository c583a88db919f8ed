use swhid::glob::glob_match;
use swhid::directory::should_exclude_str;

#[test]
fn test_glob_star() {
    assert!(glob_match("*.tmp", "foo.tmp"));
    assert!(glob_match("*.tmp", ".tmp"));
    assert!(!glob_match("*.tmp", "foo.txt"));
    assert!(glob_match("*", ""));
    assert!(glob_match("*", "anything"));
    assert!(glob_match("a*b*c", "axxbyyc"));
    assert!(!glob_match("a*b*c", "axxbyy"));
}

#[test]
fn test_glob_question_mark() {
    assert!(glob_match("?", "a"));
    assert!(!glob_match("?", ""));
    assert!(!glob_match("?", "ab"));
    assert!(glob_match("a?c", "abc"));
    assert!(!glob_match("a?c", "ac"));
}

#[test]
fn test_glob_literal() {
    assert!(glob_match("exact.txt", "exact.txt"));
    assert!(!glob_match("exact.txt", "exact.txt.bak"));
    assert!(!glob_match("exact.txt", "Exact.txt"));
}

#[test]
fn test_glob_class() {
    assert!(glob_match("[abc].txt", "a.txt"));
    assert!(glob_match("[abc].txt", "c.txt"));
    assert!(!glob_match("[abc].txt", "d.txt"));
    assert!(glob_match("[a-z]", "m"));
    assert!(!glob_match("[a-z]", "M"));
    assert!(glob_match("file[0-9]", "file7"));
    assert!(!glob_match("file[0-9]", "filex"));
}

#[test]
fn test_glob_negated_class() {
    assert!(glob_match("[!abc]", "d"));
    assert!(!glob_match("[!abc]", "a"));
    assert!(glob_match("[!0-9]", "x"));
    assert!(!glob_match("[!0-9]", "5"));
}

#[test]
fn test_glob_unclosed_bracket_is_literal() {
    assert!(glob_match("a[b", "a[b"));
    assert!(!glob_match("a[b", "ab"));
}

#[test]
fn test_glob_class_with_literal_bracket() {
    // a `]` standing first in the class is a member
    assert!(glob_match("[]]", "]"));
    assert!(!glob_match("[]]", "x"));
}

#[test]
fn test_should_exclude_str() {
    let patterns = vec!["*.tmp".to_string(), "*.log".to_string()];
    assert!(should_exclude_str("build.log", &patterns));
    assert!(should_exclude_str("scratch.tmp", &patterns));
    assert!(!should_exclude_str("main.rs", &patterns));
    assert!(!should_exclude_str("log", &patterns));

    let none: Vec<String> = Vec::new();
    assert!(!should_exclude_str("anything", &none));
}
