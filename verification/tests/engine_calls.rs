use coderag::engine::{
    engine_tool, index_failure, index_source, parse_index_args, parse_related_args, related_query,
    related_results, EngineTool, IndexSource, IndexStage, RelatedArgs,
};
use coderag::index::{Chunk, IndexMode};
use coderag::ranking::SearchIndex;
use coderag::search_input::{JsonItem, JsonValue, ToolArgs};
use coderag::server::{
    codebase_search_call, explicit_root, find_related_call, refresh_args, resolve_search_root,
    CodebaseSearchRequest, FindRelatedRequest,
};
use coderag::launch_args::{launch_root, set_launch_root, LaunchRoot};
use coderag::tokenize::tokenize;

fn s(v: &str) -> JsonValue {
    JsonValue::Str(v.to_string())
}

fn n(v: u64) -> JsonValue {
    JsonValue::Number(Some(v))
}

fn args(fields: Vec<(&str, JsonValue)>) -> ToolArgs {
    let mut out = ToolArgs::new();
    for (k, v) in fields {
        out.push(k, v);
    }
    out
}

fn str_of(a: &ToolArgs, key: &str) -> Option<String> {
    match a.get(key) {
        Some(JsonValue::Str(v)) => Some(v.clone()),
        _ => None,
    }
}

fn num_of(a: &ToolArgs, key: &str) -> Option<u64> {
    match a.get(key) {
        Some(JsonValue::Number(v)) => *v,
        _ => None,
    }
}

#[test]
fn unknown_tool_is_unsupported() {
    assert_eq!(engine_tool("coderag_index").unwrap(), EngineTool::Index);
    assert_eq!(engine_tool("locus_find_related").unwrap(), EngineTool::FindRelated);
    let e = engine_tool("codebase_search").unwrap_err();
    assert_eq!(e.code, "UNSUPPORTED_TOOL");
    assert_eq!(e.message, "Unknown tool: codebase_search");
}

#[test]
fn index_args_default_and_require_root() {
    let a = parse_index_args(&args(vec![("root", s("/repo"))])).unwrap();
    assert_eq!(a.root, "/repo");
    assert_eq!(a.max_file_bytes, 1_048_576);
    assert_eq!(a.mode, IndexMode::Auto);
    let a = parse_index_args(&args(vec![("root", s("/repo")), ("mode", s("full")), ("maxFileBytes", n(5))]))
        .unwrap();
    assert_eq!(a.mode, IndexMode::Full);
    assert_eq!(a.max_file_bytes, 5);
    let a = parse_index_args(&args(vec![("root", s("/repo")), ("mode", s("refresh"))])).unwrap();
    assert_eq!(a.mode, IndexMode::Auto);
    let e = parse_index_args(&args(vec![("root", n(3))])).unwrap_err();
    assert_eq!((e.code.as_str(), e.message.as_str()), ("INVALID_ROOT", "Missing required field: root"));
    assert_eq!(index_failure(IndexStage::Refresh, "boom").code, "INDEX_FAILED");
    assert_eq!(index_failure(IndexStage::Persist, "disk").code, "INDEX_PERSIST_FAILED");
    assert_eq!(index_failure(IndexStage::Persist, "disk").message, "disk");
}

#[test]
fn related_args_check_path_and_line() {
    let e = parse_related_args(&args(vec![("line", n(3))])).unwrap_err();
    assert_eq!((e.code.as_str(), e.message.as_str()), ("INVALID_PATH", "Missing required field: path"));
    let e = parse_related_args(&args(vec![("path", s("a.ts")), ("line", n(0))])).unwrap_err();
    assert_eq!((e.code.as_str(), e.message.as_str()), ("INVALID_LINE", "line must be a positive integer"));
    let e = parse_related_args(&args(vec![("path", s("a.ts"))])).unwrap_err();
    assert_eq!(e.code, "INVALID_LINE");
    let a = parse_related_args(&args(vec![("path", s("a.ts")), ("line", n(3))])).unwrap();
    assert_eq!((a.path.as_str(), a.line, a.limit, a.root.clone()), ("a.ts", 3, 10, None));
    let a = parse_related_args(&args(vec![
        ("path", s("a.ts")),
        ("line", n(3)),
        ("limit", n(0)),
        ("root", s("/r")),
    ]))
    .unwrap();
    assert_eq!(a.limit, 0);
    assert_eq!(a.root.as_deref(), Some("/r"));
}

#[test]
fn index_source_prefers_the_cached_index() {
    assert!(matches!(index_source(None, Some("/r")), IndexSource::Cached));
    assert!(matches!(index_source(Some("/r"), Some("/r")), IndexSource::Cached));
    assert!(matches!(index_source(Some("/other"), Some("/r")), IndexSource::Snapshot));
    assert!(matches!(index_source(Some("/r"), None), IndexSource::Snapshot));
    match index_source(None, None) {
        IndexSource::Missing(e) => {
            assert_eq!(e.code, "INDEX_NOT_FOUND");
            assert_eq!(
                e.message,
                "No in-memory Rust index exists. Call coderag_index first or pass root to load a snapshot."
            );
        }
        _ => panic!("expected a missing index"),
    }
}

fn chunk(path: &str, start: u32, end: u32, text: &str) -> Chunk {
    Chunk {
        path: path.to_string(),
        start_line: start,
        end_line: end,
        text: text.to_string(),
        tokens: tokenize(text),
        symbol_name: None,
        chunk_type: "file".to_string(),
    }
}

#[test]
fn related_results_report_an_empty_lookup() {
    let index = SearchIndex {
        root: "/r".to_string(),
        chunks: vec![chunk("a.ts", 1, 5, "alpha beta"), chunk("b.ts", 1, 5, "beta gamma")],
        doc_freq: Vec::new(),
    };
    let req = |path: &str, line: u32| RelatedArgs { path: path.to_string(), line, limit: 10, root: None };
    let hits = related_results(&index, &req("a.ts", 2)).unwrap();
    assert_eq!(hits.len(), 1);
    assert_eq!(hits[0].path, "b.ts");
    let e = related_results(&index, &req("a.ts", 9)).unwrap_err();
    assert_eq!(e.code, "NO_RELATED_CHUNKS");
    assert_eq!(e.message, "No related chunks found for that location");
    assert_eq!(related_query("src/auth/login.ts", 3), "src/auth/login.ts:3");
    assert_eq!(related_query("a", 4294967295), "a:4294967295");
    assert_eq!(related_query("a", 10), "a:10");
}

#[test]
fn tool_root_wins_over_launch_root() {
    let mut cell = LaunchRoot::new();
    set_launch_root(&mut cell, "/tmp/locus-launch-root".to_string()).expect("launch root can be set once");
    let explicit = resolve_search_root(
        &args(vec![("root", s("/tmp/tool-argument-root"))]),
        launch_root(&cell),
        None,
        None,
    )
    .expect("tool root");
    assert_eq!(explicit, "/tmp/tool-argument-root");
    let launched = resolve_search_root(&args(vec![]), launch_root(&cell), Some("/env".to_string()), None)
        .expect("launch root");
    assert_eq!(launched, "/tmp/locus-launch-root");
}

fn o(v: &str) -> Option<String> {
    Some(v.to_string())
}

#[test]
fn root_falls_back_to_the_environment() {
    let none = args(vec![]);
    assert_eq!(resolve_search_root(&none, None, o("/locus"), o("/coderag")).as_deref(), Some("/locus"));
    assert_eq!(resolve_search_root(&none, None, None, o("/coderag")).as_deref(), Some("/coderag"));
    assert_eq!(resolve_search_root(&none, None, o("  "), o("/coderag")), None);
    assert_eq!(resolve_search_root(&none, None, None, o("  ")), None);
    assert_eq!(resolve_search_root(&none, None, None, None), None);
    assert_eq!(resolve_search_root(&none, o("/launch"), o("/locus"), None).as_deref(), Some("/launch"));
    assert_eq!(
        resolve_search_root(&args(vec![("root", s("   "))]), None, o(" /env "), None).as_deref(),
        Some(" /env ")
    );
    assert_eq!(explicit_root(&args(vec![("root", s("  /repo  "))])).as_deref(), Some("/repo"));
    assert_eq!(explicit_root(&args(vec![("root", n(1))])), None);
}

#[test]
fn codebase_search_call_builds_the_engine_search() {
    let call = codebase_search_call(
        &args(vec![
            ("root", s("/repo")),
            ("query", s("user authentication login")),
            ("limit", n(3)),
            ("include_content", JsonValue::Bool(false)),
            ("file_extensions", JsonValue::Array(vec![JsonItem::Str(".ts".to_string())])),
            ("path_filter", s("src/auth")),
            ("exclude_paths", JsonValue::Array(vec![JsonItem::Str("test".to_string())])),
        ]),
        None,
        None,
        None,
    )
    .unwrap();
    assert_eq!(call.root, "/repo");
    assert_eq!(str_of(&call.args, "root").as_deref(), Some("/repo"));
    assert_eq!(str_of(&call.args, "query").as_deref(), Some("user authentication login"));
    assert_eq!(num_of(&call.args, "limit"), Some(3));
    assert!(matches!(call.args.get("include_content"), Some(JsonValue::Bool(false))));
    assert_eq!(str_of(&call.args, "path_filter").as_deref(), Some("src/auth"));
    assert!(matches!(call.args.get("file_extensions"), Some(JsonValue::Array(items)) if items.len() == 1));
    assert!(matches!(call.args.get("exclude_paths"), Some(JsonValue::Array(items)) if items.len() == 1));

    let plain = codebase_search_call(&args(vec![("query", s("auth"))]), o("/launch"), None, None).unwrap();
    assert_eq!(plain.root, "/launch");
    assert_eq!(num_of(&plain.args, "limit"), Some(10));
    assert_eq!(plain.args.fields.len(), 3);

    let refresh = refresh_args("/repo");
    assert_eq!(str_of(&refresh, "root").as_deref(), Some("/repo"));
    assert_eq!(str_of(&refresh, "mode").as_deref(), Some("refresh"));
}

#[test]
fn codebase_search_call_rejects_before_any_index_work() {
    let e = codebase_search_call(&args(vec![("query", s("auth"))]), None, None, None).unwrap_err();
    assert_eq!(e, "root is required (pass it on the tool call, launch with --root, or set LOCUS_ROOT)");
    let e = codebase_search_call(&args(vec![("root", s("/r"))]), None, None, None).unwrap_err();
    assert_eq!(e, "Missing required field: query");
    let e = codebase_search_call(&args(vec![("root", s("/r")), ("query", n(3))]), None, None, None).unwrap_err();
    assert_eq!(e, "query must be a string");
    let e = codebase_search_call(&args(vec![("root", s("/r")), ("query", s("a")), ("limit", JsonValue::Null)]), None, None, None)
        .unwrap_err();
    assert_eq!(e, "limit must be an integer from 1 to 100");
    let e = codebase_search_call(&args(vec![("root", s("/r")), ("query", s("a")), ("limit", s("5"))]), None, None, None)
        .unwrap_err();
    assert_eq!(e, "limit must be an integer from 1 to 100");
    let e = codebase_search_call(&args(vec![("root", s("/r")), ("query", s("  "))]), None, None, None).unwrap_err();
    assert_eq!(e, "query must not be empty");
    let e = codebase_search_call(&args(vec![("root", s("/r")), ("query", s("a")), ("limit", n(500))]), None, None, None)
        .unwrap_err();
    assert_eq!(e, "limit must be an integer from 1 to 100");
}

#[test]
fn find_related_call_requires_root_path_and_line() {
    let e = find_related_call(&args(vec![("path", s("a.ts")), ("line", n(1))]), None, None, None).unwrap_err();
    assert_eq!(e, "root is required");
    let e = find_related_call(&args(vec![("root", s("/r")), ("line", n(1))]), None, None, None).unwrap_err();
    assert_eq!(e, "path is required");
    let e = find_related_call(&args(vec![("root", s("/r")), ("path", s("a.ts"))]), None, None, None).unwrap_err();
    assert_eq!(e, "line is required");
    let call = find_related_call(&args(vec![("root", s("/r")), ("path", s("a.ts")), ("line", n(0))]), None, None, None)
        .unwrap();
    assert_eq!(num_of(&call.args, "line"), Some(0));
    assert_eq!(num_of(&call.args, "limit"), Some(10));
    assert_eq!(str_of(&call.args, "path").as_deref(), Some("a.ts"));
}

#[test]
fn requests_become_tool_arguments() {
    let req = CodebaseSearchRequest {
        root: None,
        query: "auth".to_string(),
        limit: Some(5),
        include_content: None,
        file_extensions: Some(vec!["ts".to_string()]),
        path_filter: None,
        exclude_paths: None,
    };
    let a = req.to_args();
    assert_eq!(a.fields.len(), 3);
    assert_eq!(str_of(&a, "query").as_deref(), Some("auth"));
    assert_eq!(num_of(&a, "limit"), Some(5));
    assert!(a.get("root").is_none());
    assert!(a.get("include_content").is_none());
    let rel = FindRelatedRequest { root: Some("/r".to_string()), path: "a.ts".to_string(), line: 4, limit: None };
    let a = rel.to_args();
    assert_eq!(num_of(&a, "limit"), Some(10));
    assert_eq!(num_of(&a, "line"), Some(4));
    assert_eq!(str_of(&a, "root").as_deref(), Some("/r"));
}
