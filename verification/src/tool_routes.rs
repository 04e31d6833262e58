//! The routing table for the primary tools.

use vstd::prelude::*;

use crate::text::str_eq;

verus! {

/// Where a tool call is served.
#[derive(Debug, Clone, Copy, PartialEq, Eq, Structural)]
pub enum ToolRoute {
    RustCore,
    LegacyOptIn,
}

/// The tools served by the core engine.
pub open spec fn is_core_tool_name(tool: Seq<char>) -> bool {
    ||| tool == "codebase_search"@
    ||| tool == "find_related"@
    ||| tool == "coderag_index"@
    ||| tool == "coderag_search"@
    ||| tool == "locus_find_related"@
}

/// The route of a tool: the core engine for the primary tools, none for
/// any other name.
pub fn route_for_tool(tool: &str) -> (res: Option<ToolRoute>)
    ensures
        res == (if is_core_tool_name(tool@) { Some(ToolRoute::RustCore) } else { None::<ToolRoute> }),
{
    if str_eq(tool, "codebase_search") || str_eq(tool, "find_related") || str_eq(tool, "coderag_index")
        || str_eq(tool, "coderag_search") || str_eq(tool, "locus_find_related") {
        Some(ToolRoute::RustCore)
    } else {
        None
    }
}

/// Whether a tool is served by the core engine.
pub fn is_rust_core_tool(tool: &str) -> (res: bool)
    ensures
        res == is_core_tool_name(tool@),
{
    match route_for_tool(tool) {
        Some(ToolRoute::RustCore) => true,
        _ => false,
    }
}

} // verus!
