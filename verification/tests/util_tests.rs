//! The supporting pieces: the property table, macro resolution on its own,
//! path helpers, byte decoding and the parser type.

use vcxproj::resolve::resolve_variables;
use vcxproj::paths::{directory_of, extension_of, file_name_of, has_trailing_slash, stem_of};
use vcxproj::{decode_project_text, ConditionParser, Diag, StringMap};

#[test]
fn table_insert_get_overwrite() {
    let mut t = StringMap::new();
    assert!(t.get("k").is_none());
    assert!(t.insert(String::from("k"), String::from("v1")).is_none());
    assert_eq!(t.get("k").unwrap(), "v1");
    let prev = t.insert(String::from("k"), String::from("v2"));
    assert_eq!(prev.unwrap(), "v1");
    assert_eq!(t.get("k").unwrap(), "v2");
    assert!(t.insert(String::from("other"), String::from("x")).is_none());
    assert_eq!(t.pairs().len(), 2);
}

#[test]
fn macro_resolution_basics() {
    let mut table = StringMap::new();
    table.insert(String::from("Name"), String::from("world"));
    let env = StringMap::new();
    let mut diags: Vec<Diag> = Vec::new();
    let r = resolve_variables("hello $(Name)!", &table, &env, 8, &mut diags).unwrap();
    assert_eq!(r, "hello world!");
    assert!(diags.is_empty());
}

#[test]
fn macro_resolution_nested_value() {
    // A replacement value that itself holds a reference is resolved again.
    let mut table = StringMap::new();
    table.insert(String::from("Inner"), String::from("deep"));
    table.insert(String::from("Outer"), String::from("[$(Inner)]"));
    let env = StringMap::new();
    let mut diags: Vec<Diag> = Vec::new();
    let r = resolve_variables("$(Outer)", &table, &env, 8, &mut diags).unwrap();
    assert_eq!(r, "[deep]");
}

#[test]
fn macro_resolution_idempotent_without_pattern() {
    let table = StringMap::new();
    let env = StringMap::new();
    let mut diags: Vec<Diag> = Vec::new();
    let once = resolve_variables("no references here", &table, &env, 8, &mut diags).unwrap();
    let twice = resolve_variables(&once, &table, &env, 8, &mut diags).unwrap();
    assert_eq!(once, "no references here");
    assert_eq!(twice, once);
    assert!(diags.is_empty());
}

#[test]
fn macro_resolution_unresolved_names() {
    let table = StringMap::new();
    let env = StringMap::new();
    let mut diags: Vec<Diag> = Vec::new();
    let r = resolve_variables("a$(Gone)b$()c", &table, &env, 8, &mut diags).unwrap();
    assert_eq!(r, "abc");
    assert_eq!(
        diags,
        vec![
            Diag::Unresolved { name: String::from("Gone") },
            Diag::Unresolved { name: String::from("") },
        ],
    );
}

#[test]
fn path_components() {
    assert_eq!(file_name_of("dir/sub/file.vcxproj"), "file.vcxproj");
    assert_eq!(file_name_of("file.vcxproj"), "file.vcxproj");
    assert_eq!(file_name_of("dir/"), "");
    assert_eq!(directory_of("dir/sub/file.vcxproj"), "dir/sub/");
    assert_eq!(directory_of("file.vcxproj"), "/");
    assert_eq!(directory_of("/file.vcxproj"), "/");
    assert_eq!(extension_of("a/b.props").unwrap(), "props");
    assert!(extension_of("a/noext").is_none());
    assert!(extension_of("a/.hidden").is_none());
    assert_eq!(extension_of("a/b.").unwrap(), "");
    assert_eq!(stem_of("a/b.props"), "b");
    assert_eq!(stem_of("a/.hidden"), ".hidden");
    assert_eq!(stem_of("a/noext"), "noext");
}

#[test]
fn trailing_slash_predicate() {
    assert_eq!(has_trailing_slash(""), false);
    assert_eq!(has_trailing_slash("path"), false);
    assert_eq!(has_trailing_slash("path\\"), true);
    assert_eq!(has_trailing_slash("path/"), true);
}

#[test]
fn decode_strips_byte_order_mark() {
    let with_bom: Vec<u8> = vec![0xEF, 0xBB, 0xBF, b'<', b'a', b'/', b'>'];
    assert_eq!(decode_project_text(&with_bom).unwrap(), "<a/>");
    let without: Vec<u8> = b"plain text".to_vec();
    assert_eq!(decode_project_text(&without).unwrap(), "plain text");
}

#[test]
fn decode_rejects_malformed_bytes() {
    let bad: Vec<u8> = vec![b'a', 0xFF, 0xFE, b'b'];
    assert!(decode_project_text(&bad).is_err());
}

#[test]
fn parser_builds_a_tree() {
    assert!(ConditionParser::parse("'a' == 'b' and x").is_ok());
    assert!(ConditionParser::parse("not a ( valid").is_err());
}
