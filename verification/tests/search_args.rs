use coderag::engine::{engine_tool, EngineTool};
use coderag::search_input::{
    extension_token, normalize_slashes, parse_codebase_search, JsonItem, JsonValue, ToolArgs,
};

fn s(v: &str) -> JsonValue {
    JsonValue::Str(v.to_string())
}

fn n(v: u64) -> JsonValue {
    JsonValue::Number(Some(v))
}

fn list(items: &[&str]) -> JsonValue {
    JsonValue::Array(items.iter().map(|i| JsonItem::Str(i.to_string())).collect())
}

fn args(fields: Vec<(&str, JsonValue)>) -> ToolArgs {
    let mut out = ToolArgs::new();
    for (k, v) in fields {
        out.push(k, v);
    }
    out
}

#[test]
fn defaults_limit_and_normalizes_extensions_and_slashes() {
    let parsed = parse_codebase_search(&args(vec![
        ("query", s("auth")),
        ("file_extensions", list(&[".ts", "go"])),
        ("path_filter", s(r"src\auth")),
        ("exclude_paths", list(&[r"src\gen"])),
    ]))
    .unwrap();
    assert_eq!(parsed.limit, 10);
    assert!(parsed.include_content);
    assert_eq!(parsed.file_extensions, vec!["ts".to_string(), "go".to_string()]);
    assert_eq!(parsed.path_filter.as_deref(), Some("src/auth"));
    assert_eq!(parsed.exclude_paths, vec!["src/gen".to_string()]);
}

#[test]
fn rejects_blank_filters_and_out_of_range_limits() {
    assert!(parse_codebase_search(&args(vec![("query", s("auth")), ("limit", n(101))])).is_err());
    assert!(parse_codebase_search(&args(vec![("query", s("auth")), ("limit", JsonValue::Null)])).is_err());
    assert!(parse_codebase_search(&args(vec![("query", s("auth")), ("path_filter", s("  "))])).is_err());
    assert!(parse_codebase_search(&args(vec![("query", s("auth")), ("exclude_paths", list(&[""]))])).is_err());
    assert!(parse_codebase_search(&args(vec![("query", s("auth")), ("file_extensions", list(&["tar.ts"]))]))
        .is_err());
    assert!(parse_codebase_search(&args(vec![("query", s("auth")), ("include_content", s("yes"))])).is_err());
}

#[test]
fn rejects_invalid_search_before_resolve_index() {
    let missing_root = "/definitely/missing/locus-root-xyz";
    assert_eq!(engine_tool("coderag_search").unwrap(), EngineTool::Search);

    let missing = parse_codebase_search(&args(vec![("root", s(missing_root))])).unwrap_err();
    assert_eq!(missing.code.as_str(), "INVALID_QUERY");
    assert_eq!(missing.message.as_str(), "Missing required field: query");

    let blank =
        parse_codebase_search(&args(vec![("query", s("   ")), ("root", s(missing_root))])).unwrap_err();
    assert_eq!(blank.code.as_str(), "INVALID_QUERY");
    assert_eq!(blank.message.as_str(), "query must not be empty");

    let null_query =
        parse_codebase_search(&args(vec![("query", JsonValue::Null), ("root", s(missing_root))])).unwrap_err();
    assert_eq!(null_query.message.as_str(), "query must be a string");

    let limit = parse_codebase_search(&args(vec![
        ("query", s("auth")),
        ("limit", n(0)),
        ("root", s(missing_root)),
    ]))
    .unwrap_err();
    assert_eq!(limit.code.as_str(), "INVALID_LIMIT");

    let extensions = parse_codebase_search(&args(vec![
        ("query", s("auth")),
        ("file_extensions", list(&[])),
        ("root", s(missing_root)),
    ]))
    .unwrap_err();
    assert_eq!(extensions.code.as_str(), "INVALID_FILTER");
    assert!(extensions.message.contains("file_extensions"));
}

#[test]
fn each_parser_error_has_its_message() {
    let err = |fields: Vec<(&str, JsonValue)>| parse_codebase_search(&args(fields)).unwrap_err();
    let e = err(vec![("query", s("a")), ("limit", s("5"))]);
    assert_eq!((e.code.as_str(), e.message.as_str()), ("INVALID_LIMIT", "limit must be an integer from 1 to 100"));
    let e = err(vec![("query", s("a")), ("limit", JsonValue::Number(None))]);
    assert_eq!(e.code.as_str(), "INVALID_LIMIT");
    let e = err(vec![("query", s("a")), ("include_content", n(1))]);
    assert_eq!((e.code.as_str(), e.message.as_str()), ("INVALID_FILTER", "include_content must be a boolean"));
    let e = err(vec![("query", s("a")), ("path_filter", n(1))]);
    assert_eq!(e.message.as_str(), "path_filter must be a string");
    let e = err(vec![("query", s("a")), ("path_filter", s(""))]);
    assert_eq!(e.message.as_str(), "path_filter must not be empty");
    let e = err(vec![("query", s("a")), ("file_extensions", list(&["a/b"]))]);
    assert_eq!(e.message.as_str(), "file_extensions contains an invalid extension");
    let e = err(vec![("query", s("a")), ("file_extensions", s("ts"))]);
    assert_eq!(e.code.as_str(), "INVALID_FILTER");
    assert!(e.message.contains("file_extensions"));
    let e = err(vec![("query", s("a")), ("exclude_paths", JsonValue::Array(vec![JsonItem::Other]))]);
    assert_eq!(e.code.as_str(), "INVALID_FILTER");
    assert!(e.message.contains("exclude_paths"));
}

#[test]
fn accepted_bounds_and_flags() {
    let p = parse_codebase_search(&args(vec![("query", s("a")), ("limit", n(1))])).unwrap();
    assert_eq!(p.limit, 1);
    let p = parse_codebase_search(&args(vec![("query", s("a")), ("limit", n(100))])).unwrap();
    assert_eq!(p.limit, 100);
    let p = parse_codebase_search(&args(vec![("query", s(" auth ")), ("include_content", JsonValue::Bool(false))]))
        .unwrap();
    assert!(!p.include_content);
    assert_eq!(p.query, " auth ");
    assert!(p.path_filter.is_none());
    assert!(p.file_extensions.is_empty());
}

#[test]
fn extension_tokens_drop_one_leading_dot() {
    assert_eq!(extension_token("ts").as_deref(), Some("ts"));
    assert_eq!(extension_token(".ts").as_deref(), Some("ts"));
    assert_eq!(extension_token(" .ts ").as_deref(), Some("ts"));
    assert_eq!(extension_token("TS").as_deref(), Some("TS"));
    assert_eq!(extension_token("..ts"), None);
    assert_eq!(extension_token("tar.ts"), None);
    assert_eq!(extension_token("."), None);
    assert_eq!(extension_token("   "), None);
    assert_eq!(extension_token("t s"), None);
}

#[test]
fn backslashes_become_slashes() {
    assert_eq!(normalize_slashes(r"a\b\c"), "a/b/c");
    assert_eq!(normalize_slashes("a/b"), "a/b");
}
