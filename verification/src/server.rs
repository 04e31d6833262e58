//! The server's tools: which repository root a call uses, and the engine
//! calls that a `codebase_search` or `find_related` request becomes.

use vstd::prelude::*;

use crate::engine::{str_arg, str_field, u64_arg, u64_field};
use crate::index::opt_view;
use crate::search_input::{
    lookup, parse_codebase_search, parse_codebase_search_spec, JsonItem, JsonItemView, JsonValue,
    JsonValueView, ToolArgs,
};
use crate::text::{chars_of, is_blank, string_of_range, trim_bounds, trimmed, views};

verus! {

/// Argument fields, as the engine reads them.
pub type Fields = Seq<(Seq<char>, JsonValueView)>;

// ---------------------------------------------------------------------------
// The repository root
// ---------------------------------------------------------------------------

/// The `root` argument, trimmed, when it is a string that is not blank.
pub open spec fn explicit_root_spec(args: Fields) -> Option<Seq<char>> {
    match str_field(args, "root"@) {
        Some(r) => if is_blank(r) {
            None
        } else {
            Some(trimmed(r))
        },
        None => None,
    }
}

/// The root that the environment gives: `LOCUS_ROOT` when it is not blank;
/// when `LOCUS_ROOT` is unset, `CODERAG_ROOT` when it is not blank.
pub open spec fn env_root_spec(locus_env: Option<Seq<char>>, coderag_env: Option<Seq<char>>) -> Option<Seq<char>> {
    match locus_env {
        Some(l) => if is_blank(l) {
            None
        } else {
            Some(l)
        },
        None => match coderag_env {
            Some(c) => if is_blank(c) {
                None
            } else {
                Some(c)
            },
            None => None,
        },
    }
}

/// The root of a call: the tool argument, then the launch `--root`, then
/// the environment (see [`env_root_spec`]).
pub open spec fn search_root_spec(
    args: Fields,
    launch: Option<Seq<char>>,
    locus_env: Option<Seq<char>>,
    coderag_env: Option<Seq<char>>,
) -> Option<Seq<char>> {
    match explicit_root_spec(args) {
        Some(r) => Some(r),
        None => match launch {
            Some(l) => Some(l),
            None => env_root_spec(locus_env, coderag_env),
        },
    }
}

/// The trimmed `root` argument, if it is a string that is not blank.
pub fn explicit_root(args: &ToolArgs) -> (res: Option<String>)
    ensures
        opt_view(res) == explicit_root_spec(args@),
{
    match str_arg(args, "root") {
        Some(r) => {
            let chars = chars_of(r.as_str());
            let (a, b) = trim_bounds(&chars);
            if a == b {
                None
            } else {
                Some(string_of_range(&chars, a, b))
            }
        },
        None => None,
    }
}

fn is_blank_string(s: &String) -> (res: bool)
    ensures
        res == is_blank(s@),
{
    let chars = chars_of(s.as_str());
    let (a, b) = trim_bounds(&chars);
    a == b
}

/// The root that the environment gives, from the values of `LOCUS_ROOT` and
/// `CODERAG_ROOT`, where set.
pub fn environment_root(locus_env: Option<String>, coderag_env: Option<String>) -> (res: Option<String>)
    ensures
        opt_view(res) == env_root_spec(opt_view(locus_env), opt_view(coderag_env)),
{
    match locus_env {
        Some(l) => if is_blank_string(&l) {
            None
        } else {
            Some(l)
        },
        None => match coderag_env {
            Some(c) => if is_blank_string(&c) {
                None
            } else {
                Some(c)
            },
            None => None,
        },
    }
}

/// The root of a call, given the launch root and the values of
/// `LOCUS_ROOT` and `CODERAG_ROOT`, where set.
pub fn resolve_search_root(
    args: &ToolArgs,
    launch: Option<String>,
    locus_env: Option<String>,
    coderag_env: Option<String>,
) -> (res: Option<String>)
    ensures
        opt_view(res) == search_root_spec(args@, opt_view(launch), opt_view(locus_env), opt_view(coderag_env)),
{
    match explicit_root(args) {
        Some(r) => Some(r),
        None => match launch {
            Some(l) => Some(l),
            None => environment_root(locus_env, coderag_env),
        },
    }
}

/// The tool argument's root wins over the launch root and the environment;
/// the launch root wins over the environment; `LOCUS_ROOT` wins over
/// `CODERAG_ROOT`, which counts only when `LOCUS_ROOT` is unset.
pub proof fn lemma_root_precedence(
    args: Fields,
    launch: Option<Seq<char>>,
    locus_env: Option<Seq<char>>,
    coderag_env: Option<Seq<char>>,
)
    ensures
        explicit_root_spec(args) is Some ==> search_root_spec(args, launch, locus_env, coderag_env)
            == explicit_root_spec(args),
        explicit_root_spec(args) is None && launch is Some ==> search_root_spec(
            args,
            launch,
            locus_env,
            coderag_env,
        ) == launch,
        explicit_root_spec(args) is None && launch is None && locus_env is Some ==> search_root_spec(
            args,
            launch,
            locus_env,
            coderag_env,
        ) == (if is_blank(locus_env->0) {
            None
        } else {
            locus_env
        }),
        explicit_root_spec(args) is None && launch is None && locus_env is None ==> search_root_spec(
            args,
            launch,
            locus_env,
            coderag_env,
        ) == (match coderag_env {
            Some(c) => if is_blank(c) {
                None
            } else {
                Some(c)
            },
            None => None,
        }),
{
}

// ---------------------------------------------------------------------------
// Engine calls
// ---------------------------------------------------------------------------

/// A call of an engine tool for a root.
#[derive(Debug)]
pub struct EngineCall {
    pub root: String,
    pub args: ToolArgs,
}

/// The field `key` of `args`, as a one-field sequence, when present.
pub open spec fn carried(args: Fields, key: Seq<char>) -> Fields {
    match lookup(args, key) {
        Some(v) => seq![(key, v)],
        None => Seq::empty(),
    }
}

/// The fields of the refresh that precedes a server search.
pub open spec fn refresh_fields(root: Seq<char>) -> Fields {
    seq![("root"@, JsonValueView::Str(root)), ("mode"@, JsonValueView::Str("refresh"@))]
}

/// The refresh arguments for a root.
pub fn refresh_args(root: &str) -> (res: ToolArgs)
    ensures
        res@ == refresh_fields(root@),
{
    let mut args = ToolArgs::new();
    args.push("root", JsonValue::Str(root.to_owned()));
    args.push("mode", JsonValue::Str("refresh".to_owned()));
    args
}

/// The message when a search has no root.
pub open spec fn search_root_message() -> Seq<char> {
    "root is required (pass it on the tool call, launch with --root, or set LOCUS_ROOT)"@
}

/// The `limit` field of a search: as given, or 10 when absent.
pub open spec fn limit_fields(args: Fields) -> Fields {
    match lookup(args, "limit"@) {
        Some(v) => seq![("limit"@, v)],
        None => seq![("limit"@, JsonValueView::Number(Some(10u64)))],
    }
}

/// The engine search fields of a `codebase_search` call for a root: the
/// root, then the query, the limit (10 when absent) and the content and
/// filter fields, each as given.
pub open spec fn search_fields(args: Fields, root: Seq<char>) -> Fields {
    seq![("root"@, JsonValueView::Str(root))] + carried(args, "query"@) + limit_fields(args) + carried(
        args,
        "include_content"@,
    ) + carried(args, "file_extensions"@) + carried(args, "path_filter"@) + carried(args, "exclude_paths"@)
}

/// The engine search that a `codebase_search` call becomes, or the message
/// of its invalid-parameters error: no root, or search arguments that the
/// parser rejects, with the parser's message (checked before any index
/// work).
pub open spec fn codebase_search_spec(
    args: Fields,
    launch: Option<Seq<char>>,
    locus_env: Option<Seq<char>>,
    coderag_env: Option<Seq<char>>,
) -> Result<
    (Seq<char>, Fields),
    Seq<char>,
> {
    match search_root_spec(args, launch, locus_env, coderag_env) {
        None => Err(search_root_message()),
        Some(root) => match parse_codebase_search_spec(search_fields(args, root)) {
            Err(e) => Err(e.message),
            Ok(_) => Ok((root, search_fields(args, root))),
        },
    }
}

/// Appends the field `key` of `from` to `to`, when present.
fn carry(to: &mut ToolArgs, from: &ToolArgs, key: &str)
    ensures
        final(to)@ == old(to)@ + carried(from@, key@),
{
    match from.get(key) {
        Some(v) => {
            to.push(key, v.duplicate());
            assert(final(to)@ =~= old(to)@ + carried(from@, key@));
        },
        None => {
            assert(old(to)@ + carried(from@, key@) =~= old(to)@);
        },
    }
}

/// Builds the engine search for a `codebase_search` call, or the message of
/// the invalid-parameters error.
pub fn codebase_search_call(
    args: &ToolArgs,
    launch: Option<String>,
    locus_env: Option<String>,
    coderag_env: Option<String>,
) -> (res: Result<
    EngineCall,
    String,
>)
    ensures
        match res {
            Ok(call) => codebase_search_spec(
                args@,
                opt_view(launch),
                opt_view(locus_env),
                opt_view(coderag_env),
            ) == Ok::<
                (Seq<char>, Fields),
                Seq<char>,
            >((call.root@, call.args@)),
            Err(m) => codebase_search_spec(args@, opt_view(launch), opt_view(locus_env), opt_view(coderag_env)) == Err::<
                (Seq<char>, Fields),
                Seq<char>,
            >(m@),
        },
{
    let root = match resolve_search_root(args, launch, locus_env, coderag_env) {
        Some(r) => r,
        None => {
            return Err(
                "root is required (pass it on the tool call, launch with --root, or set LOCUS_ROOT)".to_owned(),
            );
        },
    };
    let mut out = ToolArgs::new();
    out.push("root", JsonValue::Str(root.clone()));
    carry(&mut out, args, "query");
    match args.get("limit") {
        Some(v) => out.push("limit", v.duplicate()),
        None => out.push("limit", JsonValue::Number(Some(10))),
    }
    assert(out@ =~= seq![("root"@, JsonValueView::Str(root@))] + carried(args@, "query"@) + limit_fields(args@));
    carry(&mut out, args, "include_content");
    carry(&mut out, args, "file_extensions");
    carry(&mut out, args, "path_filter");
    carry(&mut out, args, "exclude_paths");
    assert(out@ =~= search_fields(args@, root@));
    match parse_codebase_search(&out) {
        Err(e) => Err(e.message),
        Ok(_) => Ok(EngineCall { root, args: out }),
    }
}

/// The engine lookup that a `find_related` call becomes: the root, path and
/// line, and the limit (10 unless an integer is given).
pub open spec fn find_related_spec_args(
    args: Fields,
    launch: Option<Seq<char>>,
    locus_env: Option<Seq<char>>,
    coderag_env: Option<Seq<char>>,
) -> Result<
    (Seq<char>, Fields),
    Seq<char>,
> {
    match search_root_spec(args, launch, locus_env, coderag_env) {
        None => Err("root is required"@),
        Some(root) => match str_field(args, "path"@) {
            None => Err("path is required"@),
            Some(path) => match u64_field(args, "line"@) {
                None => Err("line is required"@),
                Some(line) => Ok(
                    (
                        root,
                        seq![
                            ("root"@, JsonValueView::Str(root)),
                            ("path"@, JsonValueView::Str(path)),
                            ("line"@, JsonValueView::Number(Some(line))),
                            ("limit"@, JsonValueView::Number(Some(match u64_field(args, "limit"@) {
                                Some(n) => n,
                                None => 10u64,
                            }))),
                        ],
                    ),
                ),
            },
        },
    }
}

/// Builds the engine lookup for a `find_related` call, or the message of the
/// invalid-parameters error.
pub fn find_related_call(
    args: &ToolArgs,
    launch: Option<String>,
    locus_env: Option<String>,
    coderag_env: Option<String>,
) -> (res: Result<
    EngineCall,
    String,
>)
    ensures
        match res {
            Ok(call) => find_related_spec_args(args@, opt_view(launch), opt_view(locus_env), opt_view(coderag_env)) == Ok::<
                (Seq<char>, Fields),
                Seq<char>,
            >((call.root@, call.args@)),
            Err(m) => find_related_spec_args(args@, opt_view(launch), opt_view(locus_env), opt_view(coderag_env)) == Err::<
                (Seq<char>, Fields),
                Seq<char>,
            >(m@),
        },
{
    let root = match resolve_search_root(args, launch, locus_env, coderag_env) {
        Some(r) => r,
        None => {
            return Err("root is required".to_owned());
        },
    };
    let path = match str_arg(args, "path") {
        Some(p) => p,
        None => {
            return Err("path is required".to_owned());
        },
    };
    let line = match u64_arg(args, "line") {
        Some(n) => n,
        None => {
            return Err("line is required".to_owned());
        },
    };
    let limit: u64 = match u64_arg(args, "limit") {
        Some(n) => n,
        None => 10,
    };
    let mut out = ToolArgs::new();
    out.push("root", JsonValue::Str(root.clone()));
    out.push("path", JsonValue::Str(path));
    out.push("line", JsonValue::Number(Some(line)));
    out.push("limit", JsonValue::Number(Some(limit)));
    assert(out@ =~= seq![
        ("root"@, JsonValueView::Str(root@)),
        ("path"@, JsonValueView::Str(str_field(args@, "path"@)->0)),
        ("line"@, JsonValueView::Number(Some(line))),
        ("limit"@, JsonValueView::Number(Some(limit))),
    ]);
    let ghost sp = find_related_spec_args(args@, opt_view(launch), opt_view(locus_env), opt_view(coderag_env));
    assert(sp->Ok_0.1 =~= out@);
    Ok(EngineCall { root, args: out })
}

// ---------------------------------------------------------------------------
// Requests
// ---------------------------------------------------------------------------

/// A `codebase_search` request as the server receives it.
#[derive(Debug)]
pub struct CodebaseSearchRequest {
    pub root: Option<String>,
    pub query: String,
    pub limit: Option<u64>,
    pub include_content: Option<bool>,
    pub file_extensions: Option<Vec<String>>,
    pub path_filter: Option<String>,
    pub exclude_paths: Option<Vec<String>>,
}

/// A `find_related` request as the server receives it.
#[derive(Debug)]
pub struct FindRelatedRequest {
    pub root: Option<String>,
    pub path: String,
    pub line: u64,
    pub limit: Option<u64>,
}

/// A JSON array of strings.
pub open spec fn string_array(items: Seq<Seq<char>>) -> JsonValueView {
    JsonValueView::Array(items.map_values(|s: Seq<char>| JsonItemView::Str(s)))
}

/// The field `key` with `value`, when present.
pub open spec fn given(key: Seq<char>, value: Option<JsonValueView>) -> Fields {
    match value {
        Some(v) => seq![(key, v)],
        None => Seq::empty(),
    }
}

/// A string field's value.
pub open spec fn str_value(s: Option<Seq<char>>) -> Option<JsonValueView> {
    match s {
        Some(v) => Some(JsonValueView::Str(v)),
        None => None,
    }
}

/// A string list field's value.
pub open spec fn list_value(s: Option<Seq<String>>) -> Option<JsonValueView> {
    match s {
        Some(v) => Some(string_array(views(v))),
        None => None,
    }
}

/// The arguments of a `codebase_search` request: the query, then each
/// optional field that is given.
pub open spec fn search_request_fields(r: CodebaseSearchRequest) -> Fields {
    seq![("query"@, JsonValueView::Str(r.query@))] + given("root"@, str_value(opt_view(r.root))) + given(
        "limit"@,
        match r.limit {
            Some(n) => Some(JsonValueView::Number(Some(n))),
            None => None,
        },
    ) + given(
        "include_content"@,
        match r.include_content {
            Some(b) => Some(JsonValueView::Bool(b)),
            None => None,
        },
    ) + given("file_extensions"@, list_value(
        match r.file_extensions {
            Some(v) => Some(v@),
            None => None,
        },
    )) + given("path_filter"@, str_value(opt_view(r.path_filter))) + given("exclude_paths"@, list_value(
        match r.exclude_paths {
            Some(v) => Some(v@),
            None => None,
        },
    ))
}

/// The arguments of a `find_related` request: path, line, the limit (10 when
/// not given), and the root when given.
pub open spec fn related_request_fields(r: FindRelatedRequest) -> Fields {
    seq![
        ("path"@, JsonValueView::Str(r.path@)),
        ("line"@, JsonValueView::Number(Some(r.line))),
        ("limit"@, JsonValueView::Number(Some(match r.limit {
            Some(n) => n,
            None => 10u64,
        }))),
    ] + given("root"@, str_value(opt_view(r.root)))
}

/// A JSON array holding the strings of `v`.
fn string_array_of(v: &Vec<String>) -> (res: JsonValue)
    ensures
        res@ == string_array(views(v@)),
{
    let mut items: Vec<JsonItem> = Vec::new();
    let mut i: usize = 0;
    while i < v.len()
        invariant
            i <= v@.len(),
            items@.len() == i,
            forall|k: int| 0 <= k < i ==> #[trigger] items@[k]@ == JsonItemView::Str(v@[k]@),
        decreases v@.len() - i,
    {
        items.push(JsonItem::Str(v[i].clone()));
        i += 1;
    }
    let res = JsonValue::Array(items);
    assert(res@ == string_array(views(v@))) by {
        assert(crate::search_input::item_views(items@) =~= views(v@).map_values(
            |s: Seq<char>| JsonItemView::Str(s),
        ));
    }
    res
}

impl CodebaseSearchRequest {
    /// The tool arguments of the request.
    pub fn to_args(&self) -> (res: ToolArgs)
        ensures
            res@ == search_request_fields(*self),
    {
        let mut args = ToolArgs::new();
        args.push("query", JsonValue::Str(self.query.clone()));
        let ghost base = args@;
        match &self.root {
            Some(r) => args.push("root", JsonValue::Str(r.clone())),
            None => {},
        }
        assert(args@ =~= base + given("root"@, str_value(opt_view(self.root))));
        let ghost base = args@;
        match self.limit {
            Some(n) => args.push("limit", JsonValue::Number(Some(n))),
            None => {},
        }
        assert(args@ =~= base + given(
            "limit"@,
            match self.limit {
                Some(n) => Some(JsonValueView::Number(Some(n))),
                None => None,
            },
        ));
        let ghost base = args@;
        match self.include_content {
            Some(b) => args.push("include_content", JsonValue::Bool(b)),
            None => {},
        }
        assert(args@ =~= base + given(
            "include_content"@,
            match self.include_content {
                Some(b) => Some(JsonValueView::Bool(b)),
                None => None,
            },
        ));
        let ghost base = args@;
        match &self.file_extensions {
            Some(v) => args.push("file_extensions", string_array_of(v)),
            None => {},
        }
        assert(args@ =~= base + given(
            "file_extensions"@,
            list_value(
                match self.file_extensions {
                    Some(v) => Some(v@),
                    None => None,
                },
            ),
        ));
        let ghost base = args@;
        match &self.path_filter {
            Some(p) => args.push("path_filter", JsonValue::Str(p.clone())),
            None => {},
        }
        assert(args@ =~= base + given("path_filter"@, str_value(opt_view(self.path_filter))));
        let ghost base = args@;
        match &self.exclude_paths {
            Some(v) => args.push("exclude_paths", string_array_of(v)),
            None => {},
        }
        assert(args@ =~= base + given(
            "exclude_paths"@,
            list_value(
                match self.exclude_paths {
                    Some(v) => Some(v@),
                    None => None,
                },
            ),
        ));
        args
    }
}

impl FindRelatedRequest {
    /// The tool arguments of the request.
    pub fn to_args(&self) -> (res: ToolArgs)
        ensures
            res@ == related_request_fields(*self),
    {
        let mut args = ToolArgs::new();
        args.push("path", JsonValue::Str(self.path.clone()));
        args.push("line", JsonValue::Number(Some(self.line)));
        let limit: u64 = match self.limit {
            Some(n) => n,
            None => 10,
        };
        args.push("limit", JsonValue::Number(Some(limit)));
        let ghost base = args@;
        match &self.root {
            Some(r) => args.push("root", JsonValue::Str(r.clone())),
            None => {},
        }
        assert(args@ =~= base + given("root"@, str_value(opt_view(self.root))));
        args
    }
}

} // verus!
