//! The condition language: parsing and evaluation.
//!
//! `exists(...)` answers are supplied as data; where a test asks about the
//! empty path, it supplies `false`, the answer the reference platform's
//! filesystem gives for an empty path.

use vcxproj::{eval_condition, BoolMap};

fn no_fs() -> BoolMap {
    BoolMap::new()
}

fn fs_empty_path_absent() -> BoolMap {
    let mut fs = BoolMap::new();
    fs.insert(String::from(""), false);
    fs
}

#[test]
fn test_eval() {
    assert_eq!(eval_condition("'' and ''", &no_fs()).unwrap(), false);
    assert_eq!(eval_condition("s == s and s == s", &no_fs()).unwrap(), true);
    assert_eq!(eval_condition("s != s and s == s", &no_fs()).unwrap(), false);
    assert_eq!(eval_condition("s == s or s == s or s == s", &no_fs()).unwrap(), true);
    assert_eq!(eval_condition("'' != '' and !exists('')", &fs_empty_path_absent()).unwrap(), false);
}

#[test]
fn test_exists() {
    assert_eq!(eval_condition("!exists('')", &fs_empty_path_absent()).unwrap(), true);
}

#[test]
fn test_trailing_slash() {
    assert_eq!(eval_condition("HasTrailingSlash('')", &no_fs()).unwrap(), false);
    assert_eq!(eval_condition("HasTrailingSlash('path')", &no_fs()).unwrap(), false);
    assert_eq!(eval_condition("HasTrailingSlash('path\\')", &no_fs()).unwrap(), true);
    assert_eq!(eval_condition("HasTrailingSlash('path/')", &no_fs()).unwrap(), true);
}

#[test]
fn test_eq() {
    assert_eq!(eval_condition("s == s", &no_fs()).unwrap(), true);
    assert_eq!(eval_condition("s == q", &no_fs()).unwrap(), false);
    assert_eq!(eval_condition("(s == s)", &no_fs()).unwrap(), true);
    assert_eq!(eval_condition("(s == q)", &no_fs()).unwrap(), false);
    assert_eq!(eval_condition("((s == s))", &no_fs()).unwrap(), true);
    assert_eq!(eval_condition("((s == q))", &no_fs()).unwrap(), false);
    assert_eq!(eval_condition("'hi' == hi", &no_fs()).unwrap(), true);
    assert_eq!(eval_condition("'a b' == 'a b'", &no_fs()).unwrap(), true);
}

#[test]
fn test_ne() {
    assert_eq!(eval_condition("s != s", &no_fs()).unwrap(), false);
    assert_eq!(eval_condition("s != q", &no_fs()).unwrap(), true);
    assert_eq!(eval_condition("'' != ''", &no_fs()).unwrap(), false);
}

#[test]
fn test_not() {
    assert_eq!(eval_condition("!(s == s)", &no_fs()).unwrap(), false);
    assert_eq!(eval_condition("!(s != s)", &no_fs()).unwrap(), true);
}

#[test]
fn test_and() {
    assert_eq!(eval_condition("(s == s) and (q == q)", &no_fs()).unwrap(), true);
    assert_eq!(eval_condition("(s == s) and (a == b)", &no_fs()).unwrap(), false);
}

#[test]
fn test_or() {
    assert_eq!(eval_condition("(s == s) or (q == q)", &no_fs()).unwrap(), true);
    assert_eq!(eval_condition("(s == s) or (a == b)", &no_fs()).unwrap(), true);
}

#[test]
fn sequential_fold_trace() {
    // Folding follows source order, never operator precedence.  Under
    // AND-binds-tighter precedence `a or '' and ''` would be
    // `a or ('' and '') = true`; the sequential fold gives
    // `(a or '') and '' = false`.
    assert_eq!(eval_condition("a or '' and ''", &no_fs()).unwrap(), false);
    // The mirror case: `'' and '' or c` agrees with precedence here, and is
    // `('' and '') or c = true` sequentially.
    assert_eq!(eval_condition("'' and '' or c", &no_fs()).unwrap(), true);
    // A longer chain, strictly left to right:
    // (((a and '') or x) and '') = false.
    assert_eq!(eval_condition("a and '' or x and ''", &no_fs()).unwrap(), false);
}

#[test]
fn bare_string_truth_value() {
    assert_eq!(eval_condition("x", &no_fs()).unwrap(), true);
    assert_eq!(eval_condition("''", &no_fs()).unwrap(), false);
    assert_eq!(eval_condition("'words here'", &no_fs()).unwrap(), true);
}

#[test]
fn exists_answers() {
    let mut fs = BoolMap::new();
    fs.insert(String::from("present.txt"), true);
    fs.insert(String::from("absent.txt"), false);
    assert_eq!(eval_condition("exists('present.txt')", &fs).unwrap(), true);
    assert_eq!(eval_condition("exists('absent.txt')", &fs).unwrap(), false);
    assert_eq!(eval_condition("exists('present.txt') and exists('absent.txt')", &fs).unwrap(), false);
}

#[test]
fn parse_errors() {
    assert!(eval_condition("", &no_fs()).is_err());
    assert!(eval_condition("(((", &no_fs()).is_err());
    assert!(eval_condition("(s == s", &no_fs()).is_err());
    assert!(eval_condition("s ==", &no_fs()).is_err());
    assert!(eval_condition("s == s)", &no_fs()).is_err());
    assert!(eval_condition("'unterminated", &no_fs()).is_err());
    assert!(eval_condition("s and", &no_fs()).is_err());
}

#[test]
fn negation_of_valid_conditions() {
    // `!(X)` is the logical negation of `X`.
    for (x, v) in [
        ("'a' == 'a'", true),
        ("'a' == 'b'", false),
        ("x and ''", false),
        ("'' or y", true),
    ] {
        assert_eq!(eval_condition(x, &no_fs()).unwrap(), v);
        let negated = format!("!({})", x);
        assert_eq!(eval_condition(&negated, &no_fs()).unwrap(), !v);
    }
}

#[test]
fn quoted_comparison_is_exact() {
    assert_eq!(eval_condition("'Debug|x64' == 'Debug|x64'", &no_fs()).unwrap(), true);
    assert_eq!(eval_condition("'Debug|x64' == 'Debug|X64'", &no_fs()).unwrap(), false);
    assert_eq!(eval_condition("'Debug|x64' != 'Release|x64'", &no_fs()).unwrap(), true);
    assert_eq!(eval_condition("' a' == 'a'", &no_fs()).unwrap(), false);
}
