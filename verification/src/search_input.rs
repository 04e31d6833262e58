//! The `codebase_search` argument parser, shared by every caller before any
//! index work.
//!
//! Tool arguments arrive as JSON. The parser reads only the top-level fields
//! of the argument object, and of an array only whether each element is a
//! string; [`ToolArgs`] holds exactly that.

use vstd::prelude::*;

use crate::text::{
    chars_of, concat, is_blank, is_white_space, is_white_space_exec, replace_char_exec,
    slashes_normalized, string_of_range, str_eq, trim_bounds, trimmed, views,
};

verus! {

// ---------------------------------------------------------------------------
// The argument model
// ---------------------------------------------------------------------------

/// An element of a JSON array, as far as the parser reads it.
#[derive(Debug, Clone, PartialEq, Eq)]
pub enum JsonItem {
    /// A JSON string.
    Str(String),
    /// Any other JSON value.
    Other,
}

/// A top-level JSON argument value, as far as the parser reads it.
#[derive(Debug, Clone, PartialEq, Eq)]
pub enum JsonValue {
    Null,
    Bool(bool),
    /// A number, with its value when it is an integer that fits a `u64`
    /// (what `Value::as_u64` gives), `None` otherwise.
    Number(Option<u64>),
    Str(String),
    Array(Vec<JsonItem>),
    Object,
}

/// The top-level fields of a JSON argument object, in order. A non-object
/// argument has no fields.
#[derive(Debug, Clone, PartialEq, Eq)]
pub struct ToolArgs {
    pub fields: Vec<(String, JsonValue)>,
}

pub enum JsonItemView {
    Str(Seq<char>),
    Other,
}

pub enum JsonValueView {
    Null,
    Bool(bool),
    Number(Option<u64>),
    Str(Seq<char>),
    Array(Seq<JsonItemView>),
    Object,
}

/// The views of a sequence of array elements.
pub open spec fn item_views(items: Seq<JsonItem>) -> Seq<JsonItemView> {
    items.map_values(|i: JsonItem| i@)
}

impl View for JsonItem {
    type V = JsonItemView;

    open spec fn view(&self) -> JsonItemView {
        match self {
            JsonItem::Str(s) => JsonItemView::Str(s@),
            JsonItem::Other => JsonItemView::Other,
        }
    }
}

impl View for JsonValue {
    type V = JsonValueView;

    open spec fn view(&self) -> JsonValueView {
        match self {
            JsonValue::Null => JsonValueView::Null,
            JsonValue::Bool(b) => JsonValueView::Bool(*b),
            JsonValue::Number(n) => JsonValueView::Number(*n),
            JsonValue::Str(s) => JsonValueView::Str(s@),
            JsonValue::Array(items) => JsonValueView::Array(item_views(items@)),
            JsonValue::Object => JsonValueView::Object,
        }
    }
}

impl View for ToolArgs {
    type V = Seq<(Seq<char>, JsonValueView)>;

    open spec fn view(&self) -> Seq<(Seq<char>, JsonValueView)> {
        self.fields@.map_values(|f: (String, JsonValue)| (f.0@, f.1@))
    }
}

/// The value of the first field named `key`, if any.
pub open spec fn lookup(fields: Seq<(Seq<char>, JsonValueView)>, key: Seq<char>) -> Option<
    JsonValueView,
>
    decreases fields.len(),
{
    if fields.len() == 0 {
        None
    } else if fields[0].0 == key {
        Some(fields[0].1)
    } else {
        lookup(fields.drop_first(), key)
    }
}

impl ToolArgs {
    /// The value of the first field named `key` (`Value::get`).
    pub fn get(&self, key: &str) -> (res: Option<&JsonValue>)
        ensures
            match res {
                Some(v) => lookup(self@, key@) == Some(v@),
                None => lookup(self@, key@) is None,
            },
    {
        let mut i: usize = 0;
        assert(self@.skip(0) == self@);
        while i < self.fields.len()
            invariant
                0 <= i <= self.fields@.len(),
                lookup(self@, key@) == lookup(self@.skip(i as int), key@),
            decreases self.fields@.len() - i,
        {
            assert(self@.skip(i as int)[0] == (self.fields@[i as int].0@, self.fields@[i as int].1@));
            assert(self@.skip(i as int).drop_first() == self@.skip(i + 1));
            if str_eq(self.fields[i].0.as_str(), key) {
                return Some(&self.fields[i].1);
            }
            i += 1;
        }
        None
    }

    /// An argument object without fields.
    pub fn new() -> (res: ToolArgs)
        ensures
            res@ == Seq::<(Seq<char>, JsonValueView)>::empty(),
    {
        let res = ToolArgs { fields: Vec::new() };
        assert(res@ =~= Seq::<(Seq<char>, JsonValueView)>::empty());
        res
    }

    /// Appends the field `key` with `value`.
    pub fn push(&mut self, key: &str, value: JsonValue)
        ensures
            final(self)@ == old(self)@.push((key@, value@)),
    {
        self.fields.push((key.to_owned(), value));
        assert(self@ =~= old(self)@.push((key@, value@)));
    }
}

impl JsonItem {
    /// A copy of the element.
    pub fn duplicate(&self) -> (res: JsonItem)
        ensures
            res@ == self@,
    {
        match self {
            JsonItem::Str(s) => JsonItem::Str(s.clone()),
            JsonItem::Other => JsonItem::Other,
        }
    }
}

impl JsonValue {
    /// A copy of the value.
    pub fn duplicate(&self) -> (res: JsonValue)
        ensures
            res@ == self@,
    {
        match self {
            JsonValue::Null => JsonValue::Null,
            JsonValue::Bool(b) => JsonValue::Bool(*b),
            JsonValue::Number(n) => JsonValue::Number(*n),
            JsonValue::Str(s) => JsonValue::Str(s.clone()),
            JsonValue::Array(items) => {
                let mut out: Vec<JsonItem> = Vec::new();
                let mut i: usize = 0;
                while i < items.len()
                    invariant
                        i <= items@.len(),
                        out@.len() == i,
                        forall|k: int| 0 <= k < i ==> #[trigger] out@[k]@ == items@[k]@,
                    decreases items@.len() - i,
                {
                    let item = items[i].duplicate();
                    out.push(item);
                    i += 1;
                }
                assert(item_views(out@) =~= item_views(items@));
                JsonValue::Array(out)
            },
            JsonValue::Object => JsonValue::Object,
        }
    }
}

// ---------------------------------------------------------------------------
// Results
// ---------------------------------------------------------------------------

/// A rejected argument: a code (`INVALID_QUERY`, `INVALID_LIMIT`,
/// `INVALID_FILTER`) and a message.
#[derive(Debug, Clone, PartialEq, Eq)]
pub struct SearchInputError {
    pub code: String,
    pub message: String,
}

/// The accepted arguments of a search.
#[derive(Debug, Clone, PartialEq, Eq)]
pub struct ParsedCodebaseSearch {
    pub query: String,
    pub limit: usize,
    pub include_content: bool,
    /// Final-extension tokens without a leading dot, case preserved.
    pub file_extensions: Vec<String>,
    /// Slash-normalized substring. `None` means no path filter.
    pub path_filter: Option<String>,
    /// Slash-normalized substrings. Empty means no exclusions.
    pub exclude_paths: Vec<String>,
}

pub struct InputErrorView {
    pub code: Seq<char>,
    pub message: Seq<char>,
}

pub struct ParsedView {
    pub query: Seq<char>,
    pub limit: usize,
    pub include_content: bool,
    pub file_extensions: Seq<Seq<char>>,
    pub path_filter: Option<Seq<char>>,
    pub exclude_paths: Seq<Seq<char>>,
}

impl View for SearchInputError {
    type V = InputErrorView;

    open spec fn view(&self) -> InputErrorView {
        InputErrorView { code: self.code@, message: self.message@ }
    }
}

impl View for ParsedCodebaseSearch {
    type V = ParsedView;

    open spec fn view(&self) -> ParsedView {
        ParsedView {
            query: self.query@,
            limit: self.limit,
            include_content: self.include_content,
            file_extensions: views(self.file_extensions@),
            path_filter: match self.path_filter {
                Some(p) => Some(p@),
                None => None,
            },
            exclude_paths: views(self.exclude_paths@),
        }
    }
}

/// The error with this code and message.
pub open spec fn err(code: Seq<char>, message: Seq<char>) -> InputErrorView {
    InputErrorView { code, message }
}

/// Builds an error value.
pub fn error(code: &str, message: String) -> (res: SearchInputError)
    ensures
        res@ == err(code@, message@),
{
    SearchInputError { code: code.to_owned(), message }
}

// ---------------------------------------------------------------------------
// Extension tokens and slashes
// ---------------------------------------------------------------------------

/// A character that no extension token may hold: `.`, `/`, `\\` or white space.
pub open spec fn bad_extension_char(c: char) -> bool {
    c == '.' || c == '/' || c == '\\' || is_white_space(c)
}

/// Some character of `token` is a [`bad_extension_char`].
pub open spec fn has_bad_extension_char(token: Seq<char>) -> bool {
    exists|i: int| 0 <= i < token.len() && bad_extension_char(#[trigger] token[i])
}

/// `ts` and `.ts` both become `ts`: trimmed, one leading dot dropped; blank
/// input, and tokens that are empty or hold `.`, `/`, `\` or white space,
/// are rejected.
pub open spec fn extension_token_spec(raw: Seq<char>) -> Option<Seq<char>> {
    let t = trimmed(raw);
    let token = if t.len() > 0 && t[0] == '.' {
        t.drop_first()
    } else {
        t
    };
    if t.len() == 0 {
        None
    } else if token.len() == 0 || has_bad_extension_char(token) {
        None
    } else {
        Some(token)
    }
}

/// `ts` and `.ts` name the same extension: a token without `.`, `/`, `\`
/// and white space is accepted as it is, and with one leading dot.
pub proof fn lemma_leading_dot_names_same_extension(token: Seq<char>)
    requires
        token.len() > 0,
        !has_bad_extension_char(token),
    ensures
        extension_token_spec(token) == Some(token),
        extension_token_spec(seq!['.'] + token) == Some(token),
{
    assert(!bad_extension_char(token[0]));
    assert(!bad_extension_char(token.last()));
    assert(trimmed(token) == token);
    let dotted = seq!['.'] + token;
    assert(dotted.last() == token.last());
    assert(dotted[0] == '.');
    assert(trimmed(dotted) == dotted);
    assert(dotted.drop_first() =~= token);
}

/// `ts` and `.ts` both become `ts`. Rejects blank and multi-dot tokens.
pub fn extension_token(raw: &str) -> (res: Option<String>)
    ensures
        match res {
            Some(t) => extension_token_spec(raw@) == Some(t@),
            None => extension_token_spec(raw@) is None,
        },
{
    let chars = chars_of(raw);
    let (a, b) = trim_bounds(&chars);
    let ghost t = trimmed(raw@);
    if a == b {
        return None;
    }
    let start: usize = if chars[a] == '.' {
        a + 1
    } else {
        a
    };
    let ghost token = chars@.subrange(start as int, b as int);
    proof {
        if chars@[a as int] == '.' {
            assert(t.drop_first() == token);
        } else {
            assert(t == token);
        }
    }
    if start == b {
        return None;
    }
    let mut i: usize = start;
    while i < b
        invariant
            start <= i <= b <= chars@.len(),
            chars@ == raw@,
            t == trimmed(raw@),
            t.len() > 0,
            token == (if t[0] == '.' { t.drop_first() } else { t }),
            token == chars@.subrange(start as int, b as int),
            forall|k: int| 0 <= k < i - start ==> !bad_extension_char(#[trigger] token[k]),
        decreases b - i,
    {
        let c = chars[i];
        assert(token[i - start] == c);
        if c == '.' || c == '/' || c == '\\' || is_white_space_exec(c) {
            assert(bad_extension_char(token[i - start]));
            return None;
        }
        i += 1;
    }
    Some(string_of_range(&chars, start, b))
}

/// Backslashes become forward slashes.
pub fn normalize_slashes(raw: &str) -> (res: String)
    ensures
        res@ == slashes_normalized(raw@),
{
    replace_char_exec(raw, '\\', '/')
}

// ---------------------------------------------------------------------------
// The parser, specified
// ---------------------------------------------------------------------------

pub open spec fn invalid_filter(message: Seq<char>) -> InputErrorView {
    err("INVALID_FILTER"@, message)
}

/// The strings of a list field, or the error for its first bad element.
pub open spec fn string_items(items: Seq<JsonItemView>, field: Seq<char>) -> Result<
    Seq<Seq<char>>,
    InputErrorView,
>
    decreases items.len(),
{
    if items.len() == 0 {
        Ok(seq![])
    } else {
        match string_items(items.drop_last(), field) {
            Err(e) => Err(e),
            Ok(parsed) => match items.last() {
                JsonItemView::Str(s) => if is_blank(s) {
                    Err(invalid_filter(field + " contains an empty value"@))
                } else {
                    Ok(parsed.push(s))
                },
                JsonItemView::Other => Err(invalid_filter(field + " contains a non-string value"@)),
            },
        }
    }
}

/// A list field: a non-empty array of non-blank strings.
pub open spec fn string_list_spec(value: JsonValueView, field: Seq<char>) -> Result<
    Seq<Seq<char>>,
    InputErrorView,
> {
    match value {
        JsonValueView::Array(items) => if items.len() == 0 {
            Err(invalid_filter(field + " must not be empty"@))
        } else {
            string_items(items, field)
        },
        _ => Err(invalid_filter(field + " must be an array of strings"@)),
    }
}

/// The extension tokens of `items`, or the error for the first invalid one.
pub open spec fn extension_tokens(items: Seq<Seq<char>>) -> Result<Seq<Seq<char>>, InputErrorView>
    decreases items.len(),
{
    if items.len() == 0 {
        Ok(seq![])
    } else {
        match extension_tokens(items.drop_last()) {
            Err(e) => Err(e),
            Ok(parsed) => match extension_token_spec(items.last()) {
                Some(t) => Ok(parsed.push(t)),
                None => Err(invalid_filter("file_extensions contains an invalid extension"@)),
            },
        }
    }
}

pub open spec fn parse_extensions_spec(value: JsonValueView) -> Result<
    Seq<Seq<char>>,
    InputErrorView,
> {
    match string_list_spec(value, "file_extensions"@) {
        Err(e) => Err(e),
        Ok(items) => extension_tokens(items),
    }
}

pub open spec fn parse_exclude_paths_spec(value: JsonValueView) -> Result<
    Seq<Seq<char>>,
    InputErrorView,
> {
    match string_list_spec(value, "exclude_paths"@) {
        Err(e) => Err(e),
        Ok(items) => Ok(items.map_values(|s: Seq<char>| slashes_normalized(s))),
    }
}

pub open spec fn limit_message() -> Seq<char> {
    "limit must be an integer from 1 to 100"@
}

/// The parser: query, then limit, then `include_content`, then
/// `file_extensions`, then `path_filter`, then `exclude_paths`; the first
/// field that fails decides the error.
pub open spec fn parse_codebase_search_spec(args: Seq<(Seq<char>, JsonValueView)>) -> Result<
    ParsedView,
    InputErrorView,
> {
    let query = match lookup(args, "query"@) {
        None => Err(err("INVALID_QUERY"@, "Missing required field: query"@)),
        Some(JsonValueView::Str(q)) => if is_blank(q) {
            Err(err("INVALID_QUERY"@, "query must not be empty"@))
        } else {
            Ok(q)
        },
        Some(_) => Err(err("INVALID_QUERY"@, "query must be a string"@)),
    };
    let limit: Result<usize, InputErrorView> = match lookup(args, "limit"@) {
        None => Ok(10usize),
        Some(JsonValueView::Number(Some(n))) => if 1 <= n && n <= 100 {
            Ok(n as usize)
        } else {
            Err(err("INVALID_LIMIT"@, limit_message()))
        },
        Some(_) => Err(err("INVALID_LIMIT"@, limit_message())),
    };
    let include_content = match lookup(args, "include_content"@) {
        None => Ok(true),
        Some(JsonValueView::Bool(b)) => Ok(b),
        Some(_) => Err(invalid_filter("include_content must be a boolean"@)),
    };
    let file_extensions = match lookup(args, "file_extensions"@) {
        None => Ok(seq![]),
        Some(v) => parse_extensions_spec(v),
    };
    let path_filter: Result<Option<Seq<char>>, InputErrorView> = match lookup(args, "path_filter"@) {
        None => Ok(None),
        Some(JsonValueView::Str(p)) => if is_blank(p) {
            Err(invalid_filter("path_filter must not be empty"@))
        } else {
            Ok(Some(slashes_normalized(p)))
        },
        Some(_) => Err(invalid_filter("path_filter must be a string"@)),
    };
    let exclude_paths = match lookup(args, "exclude_paths"@) {
        None => Ok(seq![]),
        Some(v) => parse_exclude_paths_spec(v),
    };
    match (query, limit, include_content, file_extensions, path_filter, exclude_paths) {
        (Err(e), _, _, _, _, _) => Err(e),
        (_, Err(e), _, _, _, _) => Err(e),
        (_, _, Err(e), _, _, _) => Err(e),
        (_, _, _, Err(e), _, _) => Err(e),
        (_, _, _, _, Err(e), _) => Err(e),
        (_, _, _, _, _, Err(e)) => Err(e),
        (Ok(q), Ok(l), Ok(c), Ok(x), Ok(p), Ok(e)) => Ok(
            ParsedView {
                query: q,
                limit: l,
                include_content: c,
                file_extensions: x,
                path_filter: p,
                exclude_paths: e,
            },
        ),
    }
}

// ---------------------------------------------------------------------------
// The parser
// ---------------------------------------------------------------------------

fn is_blank_str(s: &str) -> (res: bool)
    ensures
        res == is_blank(s@),
{
    let chars = chars_of(s);
    let (a, b) = trim_bounds(&chars);
    a == b
}

/// Parses the `codebase_search` arguments (see [`parse_codebase_search_spec`]).
pub fn parse_codebase_search(input: &ToolArgs) -> (res: Result<ParsedCodebaseSearch, SearchInputError>)
    ensures
        match res {
            Ok(p) => parse_codebase_search_spec(input@) == Ok::<ParsedView, InputErrorView>(p@),
            Err(e) => parse_codebase_search_spec(input@) == Err::<ParsedView, InputErrorView>(e@),
        },
{
    let query = match input.get("query") {
        None => {
            return Err(error("INVALID_QUERY", "Missing required field: query".to_owned()));
        },
        Some(JsonValue::Str(q)) => {
            if is_blank_str(q.as_str()) {
                return Err(error("INVALID_QUERY", "query must not be empty".to_owned()));
            }
            q.clone()
        },
        Some(_) => {
            return Err(error("INVALID_QUERY", "query must be a string".to_owned()));
        },
    };
    let limit: usize = match input.get("limit") {
        None => 10,
        Some(JsonValue::Number(Some(n))) => {
            if 1 <= *n && *n <= 100 {
                *n as usize
            } else {
                return Err(
                    error("INVALID_LIMIT", "limit must be an integer from 1 to 100".to_owned()),
                );
            }
        },
        Some(_) => {
            return Err(error("INVALID_LIMIT", "limit must be an integer from 1 to 100".to_owned()));
        },
    };
    let include_content = match input.get("include_content") {
        None => true,
        Some(JsonValue::Bool(b)) => *b,
        Some(_) => {
            return Err(error("INVALID_FILTER", "include_content must be a boolean".to_owned()));
        },
    };
    let file_extensions = match input.get("file_extensions") {
        None => {
            let v: Vec<String> = Vec::new();
            assert(views(v@) =~= Seq::<Seq<char>>::empty());
            v
        },
        Some(v) => parse_extensions(v)?,
    };
    let path_filter = match input.get("path_filter") {
        None => None,
        Some(JsonValue::Str(p)) => {
            if is_blank_str(p.as_str()) {
                return Err(error("INVALID_FILTER", "path_filter must not be empty".to_owned()));
            }
            Some(normalize_slashes(p.as_str()))
        },
        Some(_) => {
            return Err(error("INVALID_FILTER", "path_filter must be a string".to_owned()));
        },
    };
    let exclude_paths = match input.get("exclude_paths") {
        None => {
            let v: Vec<String> = Vec::new();
            assert(views(v@) =~= Seq::<Seq<char>>::empty());
            v
        },
        Some(v) => parse_exclude_paths(v)?,
    };
    let res = ParsedCodebaseSearch {
        query,
        limit,
        include_content,
        file_extensions,
        path_filter,
        exclude_paths,
    };
    Ok(res)
}

/// The extension tokens of the `file_extensions` field.
pub fn parse_extensions(value: &JsonValue) -> (res: Result<Vec<String>, SearchInputError>)
    ensures
        match res {
            Ok(v) => parse_extensions_spec(value@) == Ok::<Seq<Seq<char>>, InputErrorView>(
                views(v@),
            ),
            Err(e) => parse_extensions_spec(value@) == Err::<Seq<Seq<char>>, InputErrorView>(e@),
        },
{
    let items = string_list(value, "file_extensions")?;
    let mut extensions: Vec<String> = Vec::new();
    let mut i: usize = 0;
    assert(views(extensions@) =~= Seq::<Seq<char>>::empty());
    assert(views(items@).take(0) =~= Seq::<Seq<char>>::empty());
    while i < items.len()
        invariant
            0 <= i <= items@.len(),
            string_list_spec(value@, "file_extensions"@) == Ok::<Seq<Seq<char>>, InputErrorView>(
                views(items@),
            ),
            extension_tokens(views(items@).take(i as int)) == Ok::<
                Seq<Seq<char>>,
                InputErrorView,
            >(views(extensions@)),
        decreases items@.len() - i,
    {
        let ghost prefix = views(items@).take(i as int);
        let ghost next = views(items@).take(i + 1);
        assert(next.drop_last() == prefix);
        assert(next.last() == items@[i as int]@);
        match extension_token(items[i].as_str()) {
            None => {
                proof {
                    lemma_extension_tokens_err_extends(views(items@), i as int + 1);
                }
                return Err(
                    error(
                        "INVALID_FILTER",
                        "file_extensions contains an invalid extension".to_owned(),
                    ),
                );
            },
            Some(t) => {
                let ghost before = views(extensions@);
                extensions.push(t);
                assert(views(extensions@) == before.push(extensions@.last()@));
            },
        }
        i += 1;
    }
    assert(views(items@).take(items@.len() as int) == views(items@));
    Ok(extensions)
}

proof fn lemma_extension_tokens_err_extends(items: Seq<Seq<char>>, i: int)
    requires
        0 <= i <= items.len(),
        extension_tokens(items.take(i)) is Err,
    ensures
        extension_tokens(items) == extension_tokens(items.take(i)),
    decreases items.len() - i,
{
    if i < items.len() {
        let next = items.take(i + 1);
        assert(next.drop_last() == items.take(i));
        lemma_extension_tokens_err_extends(items, i + 1);
    } else {
        assert(items.take(i) == items);
    }
}

proof fn lemma_string_items_err_extends(items: Seq<JsonItemView>, field: Seq<char>, i: int)
    requires
        0 <= i <= items.len(),
        string_items(items.take(i), field) is Err,
    ensures
        string_items(items, field) == string_items(items.take(i), field),
    decreases items.len() - i,
{
    if i < items.len() {
        let next = items.take(i + 1);
        assert(next.drop_last() == items.take(i));
        lemma_string_items_err_extends(items, field, i + 1);
    } else {
        assert(items.take(i) == items);
    }
}

/// The slash-normalized strings of the `exclude_paths` field.
pub fn parse_exclude_paths(value: &JsonValue) -> (res: Result<Vec<String>, SearchInputError>)
    ensures
        match res {
            Ok(v) => parse_exclude_paths_spec(value@) == Ok::<Seq<Seq<char>>, InputErrorView>(
                views(v@),
            ),
            Err(e) => parse_exclude_paths_spec(value@) == Err::<Seq<Seq<char>>, InputErrorView>(
                e@,
            ),
        },
{
    let items = string_list(value, "exclude_paths")?;
    let mut out: Vec<String> = Vec::new();
    let mut i: usize = 0;
    assert(views(out@) =~= Seq::<Seq<char>>::empty());
    assert(views(items@).take(0) =~= Seq::<Seq<char>>::empty());
    while i < items.len()
        invariant
            0 <= i <= items@.len(),
            views(out@) == views(items@).take(i as int).map_values(
                |s: Seq<char>| slashes_normalized(s),
            ),
        decreases items@.len() - i,
    {
        let ghost before = views(out@);
        out.push(normalize_slashes(items[i].as_str()));
        assert(views(out@) == before.push(out@.last()@));
        assert(views(items@).take(i + 1).map_values(|s: Seq<char>| slashes_normalized(s))
            == views(items@).take(i as int).map_values(|s: Seq<char>| slashes_normalized(s)).push(
            slashes_normalized(items@[i as int]@),
        ));
        i += 1;
    }
    assert(views(items@).take(items@.len() as int) == views(items@));
    Ok(out)
}

/// A list field: a non-empty array of non-blank strings.
pub fn string_list(value: &JsonValue, field: &str) -> (res: Result<Vec<String>, SearchInputError>)
    ensures
        match res {
            Ok(v) => string_list_spec(value@, field@) == Ok::<Seq<Seq<char>>, InputErrorView>(
                views(v@),
            ),
            Err(e) => string_list_spec(value@, field@) == Err::<Seq<Seq<char>>, InputErrorView>(
                e@,
            ),
        },
{
    let items = match value {
        JsonValue::Array(items) => items,
        _ => {
            return Err(error("INVALID_FILTER", concat(field, " must be an array of strings")));
        },
    };
    if items.len() == 0 {
        return Err(error("INVALID_FILTER", concat(field, " must not be empty")));
    }
    let ghost ivs = item_views(items@);
    let mut parsed: Vec<String> = Vec::new();
    let mut i: usize = 0;
    assert(views(parsed@) =~= Seq::<Seq<char>>::empty());
    assert(ivs.take(0) =~= Seq::<JsonItemView>::empty());
    while i < items.len()
        invariant
            0 <= i <= items@.len(),
            ivs == item_views(items@),
            value@ == JsonValueView::Array(ivs),
            items@.len() > 0,
            string_items(ivs.take(i as int), field@) == Ok::<
                Seq<Seq<char>>,
                InputErrorView,
            >(views(parsed@)),
        decreases items@.len() - i,
    {
        let ghost prefix = ivs.take(i as int);
        let ghost next = ivs.take(i + 1);
        assert(next.drop_last() == prefix);
        assert(next.last() == items@[i as int]@);
        match &items[i] {
            JsonItem::Str(text) => {
                if is_blank_str(text.as_str()) {
                    proof {
                        assert(next.last() == JsonItemView::Str(text@));
                        assert(string_items(next, field@) == Err::<Seq<Seq<char>>, InputErrorView>(invalid_filter(field@ + " contains an empty value"@)));
                        lemma_string_items_err_extends(ivs, field@, i as int + 1);
                        assert(string_items(ivs, field@) == Err::<Seq<Seq<char>>, InputErrorView>(invalid_filter(field@ + " contains an empty value"@)));
                        assert(value@ == JsonValueView::Array(ivs));
                        assert(string_list_spec(value@, field@) == Err::<Seq<Seq<char>>, InputErrorView>(invalid_filter(field@ + " contains an empty value"@)));
                    }
                    let e = error("INVALID_FILTER", concat(field, " contains an empty value"));
                    assert(e@ == invalid_filter(field@ + " contains an empty value"@));
                    return Err(e);
                }
                let ghost before = views(parsed@);
                parsed.push(text.clone());
                assert(views(parsed@) == before.push(text@));
            },
            JsonItem::Other => {
                proof {
                    lemma_string_items_err_extends(ivs, field@, i as int + 1);
                }
                return Err(error("INVALID_FILTER", concat(field, " contains a non-string value")));
            },
        }
        i += 1;
    }
    assert(ivs.take(items@.len() as int) == ivs);
    Ok(parsed)
}

// ---------------------------------------------------------------------------
// Laws of the list fields
// ---------------------------------------------------------------------------

/// An accepted list keeps every element, in order, as its string.
proof fn lemma_string_items_ok(items: Seq<JsonItemView>, field: Seq<char>)
    requires
        string_items(items, field) is Ok,
    ensures
        string_items(items, field)->Ok_0.len() == items.len(),
        forall|i: int|
            0 <= i < items.len() ==> #[trigger] items[i] == JsonItemView::Str(
                string_items(items, field)->Ok_0[i],
            ),
    decreases items.len(),
{
    if items.len() > 0 {
        let rest = items.drop_last();
        lemma_string_items_ok(rest, field);
        let parsed = string_items(rest, field)->Ok_0;
        assert forall|i: int| 0 <= i < items.len() implies #[trigger] items[i] == JsonItemView::Str(
            string_items(items, field)->Ok_0[i],
        ) by {
            if i < rest.len() {
                assert(items[i] == rest[i]);
            }
        }
    }
}

/// Accepted extension tokens: one per listed string, each its token.
proof fn lemma_extension_tokens_ok(items: Seq<Seq<char>>)
    requires
        extension_tokens(items) is Ok,
    ensures
        extension_tokens(items)->Ok_0.len() == items.len(),
        forall|i: int|
            0 <= i < items.len() ==> extension_token_spec(#[trigger] items[i]) == Some(
                extension_tokens(items)->Ok_0[i],
            ),
    decreases items.len(),
{
    if items.len() > 0 {
        let rest = items.drop_last();
        lemma_extension_tokens_ok(rest);
        assert forall|i: int| 0 <= i < items.len() implies extension_token_spec(#[trigger] items[i]) == Some(
            extension_tokens(items)->Ok_0[i],
        ) by {
            if i < rest.len() {
                assert(items[i] == rest[i]);
            }
        }
    }
}

/// An accepted search keeps every `exclude_paths` string, in order, with
/// each backslash turned into a slash and nothing else changed.
pub proof fn lemma_exclude_paths_kept(args: Seq<(Seq<char>, JsonValueView)>, items: Seq<JsonItemView>)
    requires
        parse_codebase_search_spec(args) is Ok,
        lookup(args, "exclude_paths"@) == Some(JsonValueView::Array(items)),
    ensures
        ({
            let kept = parse_codebase_search_spec(args)->Ok_0.exclude_paths;
            &&& kept.len() == items.len()
            &&& forall|i: int|
                0 <= i < items.len() ==> {
                    &&& items[i] is Str
                    &&& (#[trigger] kept[i]).len() == items[i]->Str_0.len()
                    &&& forall|k: int|
                        0 <= k < kept[i].len() ==> #[trigger] kept[i][k] == if items[i]->Str_0[k] == '\\' {
                            '/'
                        } else {
                            items[i]->Str_0[k]
                        }
                }
        }),
{
    let v = JsonValueView::Array(items);
    assert(parse_exclude_paths_spec(v) is Ok);
    assert(string_list_spec(v, "exclude_paths"@) is Ok);
    assert(items.len() > 0);
    lemma_string_items_ok(items, "exclude_paths"@);
}

/// An accepted search keeps one extension per `file_extensions` string, in
/// order, each the token of its string.
pub proof fn lemma_file_extensions_kept(args: Seq<(Seq<char>, JsonValueView)>, items: Seq<JsonItemView>)
    requires
        parse_codebase_search_spec(args) is Ok,
        lookup(args, "file_extensions"@) == Some(JsonValueView::Array(items)),
    ensures
        ({
            let kept = parse_codebase_search_spec(args)->Ok_0.file_extensions;
            &&& kept.len() == items.len()
            &&& forall|i: int|
                0 <= i < items.len() ==> items[i] is Str && extension_token_spec(items[i]->Str_0) == Some(
                    #[trigger] kept[i],
                )
        }),
{
    let v = JsonValueView::Array(items);
    assert(parse_extensions_spec(v) is Ok);
    assert(string_list_spec(v, "file_extensions"@) is Ok);
    lemma_string_items_ok(items, "file_extensions"@);
    let strs = string_items(items, "file_extensions"@)->Ok_0;
    lemma_extension_tokens_ok(strs);
    let kept = parse_codebase_search_spec(args)->Ok_0.file_extensions;
    assert forall|i: int| 0 <= i < items.len() implies items[i] is Str && extension_token_spec(
        items[i]->Str_0,
    ) == Some(#[trigger] kept[i]) by {
        assert(items[i] == JsonItemView::Str(strs[i]));
        assert(extension_token_spec(strs[i]) == Some(extension_tokens(strs)->Ok_0[i]));
    }
}

} // verus!
