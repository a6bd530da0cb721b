use wasm_sourcemap::dwarf::{split_keep, Delimiter};
use wasm_sourcemap::text::normalize_path;

#[test]
fn test_normalize_path() {
    assert_eq!(
        normalize_path(r"C:\Users\user\.\..\file.rs"),
        "C:/Users/user/file.rs"
    );
    assert_eq!(normalize_path(r"./../file.rs"), "file.rs");
    assert_eq!(normalize_path(r"file.rs"), "file.rs");
}

#[test]
fn test_split_keep() {
    let result = split_keep(Delimiter::Digit, "hello1world2");
    assert_eq!(result, vec!["hello", "world"]);
}

#[test]
fn normalize_path_short_names() {
    assert_eq!(normalize_path(r"C:\Users\u\.\..\file.c"), "C:/Users/u/file.c");
    assert_eq!(normalize_path("./../file.c"), "file.c");
    assert_eq!(normalize_path(""), "");
}

#[test]
fn split_keep_debug_line_markers() {
    let text = "info debug_line[0x0000002a] table one debug_line[0x10] table two";
    let result = split_keep(Delimiter::DebugLine, text);
    assert_eq!(
        result,
        vec!["info ", "0x0000002a", " table one ", "0x10", " table two"]
    );
}

#[test]
fn split_keep_without_delimiters() {
    assert_eq!(split_keep(Delimiter::DebugLine, "no markers"), vec!["no markers"]);
    assert!(split_keep(Delimiter::Digit, "").is_empty());
    assert_eq!(split_keep(Delimiter::Digit, "1a"), vec!["a"]);
}
