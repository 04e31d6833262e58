//! The decisions of the tool engine: which tool a name selects, the
//! arguments of the index and related-chunk tools, where the index of a call
//! comes from, and the outcome of a related-chunk lookup.

use vstd::prelude::*;

use crate::index::{chunk_views, opt_view, IndexMode};
use crate::ranking::SearchIndex;
use crate::related::{find_related_index, find_related_spec, related_views, RelatedHit};
use crate::search_input::{lookup, JsonValue, JsonValueView, ToolArgs};
use crate::text::{concat, push_char, push_str, str_eq};

verus! {

// ---------------------------------------------------------------------------
// Errors
// ---------------------------------------------------------------------------

/// A failed tool call: a code and a message.
#[derive(Debug)]
pub struct ToolError {
    pub code: String,
    pub message: String,
}

pub struct ToolErrorView {
    pub code: Seq<char>,
    pub message: Seq<char>,
}

impl View for ToolError {
    type V = ToolErrorView;

    open spec fn view(&self) -> ToolErrorView {
        ToolErrorView { code: self.code@, message: self.message@ }
    }
}

/// The error with this code and message.
pub open spec fn tool_error(code: Seq<char>, message: Seq<char>) -> ToolErrorView {
    ToolErrorView { code, message }
}

impl ToolError {
    /// An error with this code and message.
    pub fn new(code: &str, message: &str) -> (res: ToolError)
        ensures
            res@ == tool_error(code@, message@),
    {
        ToolError { code: code.to_owned(), message: message.to_owned() }
    }
}

// ---------------------------------------------------------------------------
// Tool names
// ---------------------------------------------------------------------------

/// The tools of the engine.
#[derive(Debug, Clone, Copy, PartialEq, Eq, Structural)]
pub enum EngineTool {
    /// `coderag_index`: build or refresh the index of a root.
    Index,
    /// `coderag_search`: ranked search.
    Search,
    /// `locus_find_related`: chunks related to a known location.
    FindRelated,
}

/// The tool a name selects, or the error for an unknown name.
pub open spec fn engine_tool_spec(tool: Seq<char>) -> Result<EngineTool, ToolErrorView> {
    if tool == "coderag_index"@ {
        Ok(EngineTool::Index)
    } else if tool == "coderag_search"@ {
        Ok(EngineTool::Search)
    } else if tool == "locus_find_related"@ {
        Ok(EngineTool::FindRelated)
    } else {
        Err(tool_error("UNSUPPORTED_TOOL"@, "Unknown tool: "@ + tool))
    }
}

/// Selects the tool for a name.
pub fn engine_tool(tool: &str) -> (res: Result<EngineTool, ToolError>)
    ensures
        match res {
            Ok(t) => engine_tool_spec(tool@) == Ok::<EngineTool, ToolErrorView>(t),
            Err(e) => engine_tool_spec(tool@) == Err::<EngineTool, ToolErrorView>(e@),
        },
{
    if str_eq(tool, "coderag_index") {
        Ok(EngineTool::Index)
    } else if str_eq(tool, "coderag_search") {
        Ok(EngineTool::Search)
    } else if str_eq(tool, "locus_find_related") {
        Ok(EngineTool::FindRelated)
    } else {
        let message = concat("Unknown tool: ", tool);
        Err(ToolError { code: "UNSUPPORTED_TOOL".to_owned(), message })
    }
}

// ---------------------------------------------------------------------------
// Reading fields
// ---------------------------------------------------------------------------

/// The field `key` when it is a string (`get(key).and_then(as_str)`).
pub open spec fn str_field(args: Seq<(Seq<char>, JsonValueView)>, key: Seq<char>) -> Option<Seq<char>> {
    match lookup(args, key) {
        Some(JsonValueView::Str(s)) => Some(s),
        _ => None,
    }
}

/// The field `key` when it is an integer that fits a `u64`
/// (`get(key).and_then(as_u64)`).
pub open spec fn u64_field(args: Seq<(Seq<char>, JsonValueView)>, key: Seq<char>) -> Option<u64> {
    match lookup(args, key) {
        Some(JsonValueView::Number(Some(n))) => Some(n),
        _ => None,
    }
}

/// The string field `key`, if it is one.
pub fn str_arg(args: &ToolArgs, key: &str) -> (res: Option<String>)
    ensures
        opt_view(res) == str_field(args@, key@),
{
    match args.get(key) {
        Some(JsonValue::Str(s)) => Some(s.clone()),
        _ => None,
    }
}

/// The `u64` field `key`, if it is one.
pub fn u64_arg(args: &ToolArgs, key: &str) -> (res: Option<u64>)
    ensures
        res == u64_field(args@, key@),
{
    match args.get(key) {
        Some(JsonValue::Number(Some(n))) => Some(*n),
        _ => None,
    }
}

// ---------------------------------------------------------------------------
// Index arguments
// ---------------------------------------------------------------------------

/// The file size limit when none is given.
pub open spec fn default_max_file_bytes() -> u64 {
    1048576
}

/// The arguments of an index request.
#[derive(Debug)]
pub struct IndexArgs {
    pub root: String,
    pub max_file_bytes: u64,
    pub mode: IndexMode,
}

pub struct IndexArgsView {
    pub root: Seq<char>,
    pub max_file_bytes: u64,
    pub mode: IndexMode,
}

impl View for IndexArgs {
    type V = IndexArgsView;

    open spec fn view(&self) -> IndexArgsView {
        IndexArgsView { root: self.root@, max_file_bytes: self.max_file_bytes, mode: self.mode }
    }
}

/// The mode a string names (see `IndexMode::parse`).
pub open spec fn mode_of(s: Seq<char>) -> IndexMode {
    if s == "full"@ {
        IndexMode::Full
    } else {
        IndexMode::Auto
    }
}

/// The index request: `root` is required; `maxFileBytes` defaults to 1 MiB;
/// `mode` defaults to `Auto`.
pub open spec fn index_args_spec(args: Seq<(Seq<char>, JsonValueView)>) -> Result<IndexArgsView, ToolErrorView> {
    match str_field(args, "root"@) {
        None => Err(tool_error("INVALID_ROOT"@, "Missing required field: root"@)),
        Some(root) => Ok(
            IndexArgsView {
                root,
                max_file_bytes: match u64_field(args, "maxFileBytes"@) {
                    Some(n) => n,
                    None => default_max_file_bytes(),
                },
                mode: match str_field(args, "mode"@) {
                    Some(m) => mode_of(m),
                    None => IndexMode::Auto,
                },
            },
        ),
    }
}

/// Reads the arguments of an index request.
pub fn parse_index_args(input: &ToolArgs) -> (res: Result<IndexArgs, ToolError>)
    ensures
        match res {
            Ok(a) => index_args_spec(input@) == Ok::<IndexArgsView, ToolErrorView>(a@),
            Err(e) => index_args_spec(input@) == Err::<IndexArgsView, ToolErrorView>(e@),
        },
{
    let root = match str_arg(input, "root") {
        Some(r) => r,
        None => {
            return Err(ToolError::new("INVALID_ROOT", "Missing required field: root"));
        },
    };
    let max_file_bytes = match u64_arg(input, "maxFileBytes") {
        Some(n) => n,
        None => 1048576,
    };
    let mode = match str_arg(input, "mode") {
        Some(m) => IndexMode::parse(m.as_str()),
        None => IndexMode::Auto,
    };
    Ok(IndexArgs { root, max_file_bytes, mode })
}

/// The stage of an index request that failed.
#[derive(Debug, Clone, Copy, PartialEq, Eq, Structural)]
pub enum IndexStage {
    /// Building or refreshing the index.
    Refresh,
    /// Writing the snapshot.
    Persist,
}

/// The error of a failed index stage, with the stage's own message.
pub fn index_failure(stage: IndexStage, message: &str) -> (res: ToolError)
    ensures
        res@ == tool_error(
            match stage {
                IndexStage::Refresh => "INDEX_FAILED"@,
                IndexStage::Persist => "INDEX_PERSIST_FAILED"@,
            },
            message@,
        ),
{
    match stage {
        IndexStage::Refresh => ToolError::new("INDEX_FAILED", message),
        IndexStage::Persist => ToolError::new("INDEX_PERSIST_FAILED", message),
    }
}

// ---------------------------------------------------------------------------
// Where the index comes from
// ---------------------------------------------------------------------------

/// Where a search or lookup takes its index from.
#[derive(Debug)]
pub enum IndexSource {
    /// The index kept in memory.
    Cached,
    /// The snapshot of the given root, or, when it cannot be loaded, a
    /// fresh index of that root.
    Snapshot,
    /// No index can be had.
    Missing(ToolError),
}

pub enum IndexSourceView {
    Cached,
    Snapshot,
    Missing(ToolErrorView),
}

impl View for IndexSource {
    type V = IndexSourceView;

    open spec fn view(&self) -> IndexSourceView {
        match self {
            IndexSource::Cached => IndexSourceView::Cached,
            IndexSource::Snapshot => IndexSourceView::Snapshot,
            IndexSource::Missing(e) => IndexSourceView::Missing(e@),
        }
    }
}

/// The message when there is neither an index in memory nor a root.
pub open spec fn no_index_message() -> Seq<char> {
    "No in-memory Rust index exists. Call coderag_index first or pass root to load a snapshot."@
}

/// The index in memory serves a call without a root, or with its own root;
/// a call with another root loads that root; a call without a root and
/// without an index in memory fails.
pub open spec fn index_source_spec(root: Option<Seq<char>>, cached_root: Option<Seq<char>>) -> IndexSourceView {
    if cached_root is Some && (root is None || root == cached_root) {
        IndexSourceView::Cached
    } else if root is None {
        IndexSourceView::Missing(tool_error("INDEX_NOT_FOUND"@, no_index_message()))
    } else {
        IndexSourceView::Snapshot
    }
}

/// Decides where the index of a call comes from, given the call's root and
/// the root of the index in memory, if there is one.
pub fn index_source(root: Option<&str>, cached_root: Option<&str>) -> (res: IndexSource)
    ensures
        res@ == index_source_spec(
            match root {
                Some(r) => Some(r@),
                None => None,
            },
            match cached_root {
                Some(c) => Some(c@),
                None => None,
            },
        ),
{
    match cached_root {
        Some(c) => {
            match root {
                None => {
                    return IndexSource::Cached;
                },
                Some(r) => {
                    if str_eq(r, c) {
                        return IndexSource::Cached;
                    }
                },
            }
        },
        None => {},
    }
    match root {
        None => IndexSource::Missing(
            ToolError::new(
                "INDEX_NOT_FOUND",
                "No in-memory Rust index exists. Call coderag_index first or pass root to load a snapshot.",
            ),
        ),
        Some(_) => IndexSource::Snapshot,
    }
}

// ---------------------------------------------------------------------------
// Related chunks
// ---------------------------------------------------------------------------

/// The arguments of a related-chunk lookup.
#[derive(Debug)]
pub struct RelatedArgs {
    pub path: String,
    pub line: u32,
    pub limit: usize,
    pub root: Option<String>,
}

pub struct RelatedArgsView {
    pub path: Seq<char>,
    pub line: u32,
    pub limit: usize,
    pub root: Option<Seq<char>>,
}

impl View for RelatedArgs {
    type V = RelatedArgsView;

    open spec fn view(&self) -> RelatedArgsView {
        RelatedArgsView { path: self.path@, line: self.line, limit: self.limit, root: opt_view(self.root) }
    }
}

/// The lookup request: `path` is required; `line` must be a positive
/// integer (kept in 32 bits); `limit` defaults to 10; `root` is optional.
pub open spec fn related_args_spec(args: Seq<(Seq<char>, JsonValueView)>) -> Result<RelatedArgsView, ToolErrorView> {
    match str_field(args, "path"@) {
        None => Err(tool_error("INVALID_PATH"@, "Missing required field: path"@)),
        Some(path) => match u64_field(args, "line"@) {
            Some(line) if line > 0 => Ok(
                RelatedArgsView {
                    path,
                    line: line as u32,
                    limit: match u64_field(args, "limit"@) {
                        Some(n) => n as usize,
                        None => 10usize,
                    },
                    root: str_field(args, "root"@),
                },
            ),
            _ => Err(tool_error("INVALID_LINE"@, "line must be a positive integer"@)),
        },
    }
}

/// Reads the arguments of a related-chunk lookup.
pub fn parse_related_args(input: &ToolArgs) -> (res: Result<RelatedArgs, ToolError>)
    ensures
        match res {
            Ok(a) => related_args_spec(input@) == Ok::<RelatedArgsView, ToolErrorView>(a@),
            Err(e) => related_args_spec(input@) == Err::<RelatedArgsView, ToolErrorView>(e@),
        },
{
    let path = match str_arg(input, "path") {
        Some(p) => p,
        None => {
            return Err(ToolError::new("INVALID_PATH", "Missing required field: path"));
        },
    };
    let line: u32 = match u64_arg(input, "line") {
        Some(v) => {
            if v > 0 {
                v as u32
            } else {
                return Err(ToolError::new("INVALID_LINE", "line must be a positive integer"));
            }
        },
        None => {
            return Err(ToolError::new("INVALID_LINE", "line must be a positive integer"));
        },
    };
    let limit: usize = match u64_arg(input, "limit") {
        Some(n) => n as usize,
        None => 10,
    };
    let root = str_arg(input, "root");
    Ok(RelatedArgs { path, line, limit, root })
}

/// The message when nothing is related to the location.
pub open spec fn no_related_message() -> Seq<char> {
    "No related chunks found for that location"@
}

/// The chunks related to the requested location, or an error when there
/// are none.
pub fn related_results(index: &SearchIndex, args: &RelatedArgs) -> (res: Result<Vec<RelatedHit>, ToolError>)
    ensures
        match res {
            Ok(hits) => related_views(hits@) == find_related_spec(
                chunk_views(index.chunks@),
                args.path@,
                args.line,
                args.limit,
            ) && hits@.len() > 0,
            Err(e) => find_related_spec(chunk_views(index.chunks@), args.path@, args.line, args.limit).len()
                == 0 && e@ == tool_error("NO_RELATED_CHUNKS"@, no_related_message()),
        },
{
    let hits = find_related_index(index, args.path.as_str(), args.line, args.limit);
    if hits.len() == 0 {
        return Err(ToolError::new("NO_RELATED_CHUNKS", "No related chunks found for that location"));
    }
    Ok(hits)
}

/// Decimal digits of `n`, most significant first, without leading zeros.
pub open spec fn decimal(n: u32) -> Seq<char>
    decreases n,
{
    if n < 10 {
        seq![((n + 48) as u32) as char]
    } else {
        decimal(n / 10) + seq![((n % 10 + 48) as u32) as char]
    }
}

/// Appends the decimal digits of `n`.
pub fn push_decimal(out: &mut String, n: u32)
    ensures
        final(out)@ == old(out)@ + decimal(n),
    decreases n,
{
    if n >= 10 {
        push_decimal(out, n / 10);
    }
    let d: u8 = (n % 10) as u8;
    let c: u8 = d + 48;
    push_char(out, c as char);
}

/// The query label of a lookup: `path:line`.
pub fn related_query(path: &str, line: u32) -> (res: String)
    ensures
        res@ == path@ + seq![':'] + decimal(line),
{
    let mut out = String::new();
    push_str(&mut out, path);
    push_char(&mut out, ':');
    push_decimal(&mut out, line);
    out
}

} // verus!
