use coderag::tool_routes::{is_rust_core_tool, route_for_tool, ToolRoute};

#[test]
fn maps_primary_tools_to_explicit_routes() {
    assert_eq!(route_for_tool("codebase_search"), Some(ToolRoute::RustCore));
    assert_eq!(route_for_tool("find_related"), Some(ToolRoute::RustCore));
    assert_eq!(route_for_tool("coderag_search"), Some(ToolRoute::RustCore));
    assert_eq!(route_for_tool("coderag_index"), Some(ToolRoute::RustCore));
}

#[test]
fn unknown_tools_have_no_route() {
    assert_eq!(route_for_tool("locus_find_related"), Some(ToolRoute::RustCore));
    assert_eq!(route_for_tool("web_search"), None);
    assert_eq!(route_for_tool(""), None);
    assert!(is_rust_core_tool("codebase_search"));
    assert!(!is_rust_core_tool("Codebase_search"));
}
