//! Chunks, index modes, the final-extension rule, skip rules and search filters.

use vstd::prelude::*;

use crate::search_input::{extension_token, extension_token_spec};
use crate::text::{
    chars_of, concat, has_substring, push_char, replace_char_exec, slashes_normalized, str_contains,
    str_eq, views,
};

verus! {

/// One searchable window of a file.
#[derive(Debug, Clone)]
pub struct Chunk {
    pub path: String,
    pub start_line: u32,
    pub end_line: u32,
    pub text: String,
    pub tokens: Vec<String>,
    pub symbol_name: Option<String>,
    pub chunk_type: String,
}

/// The mathematical value of a [`Chunk`].
pub struct ChunkView {
    pub path: Seq<char>,
    pub start_line: u32,
    pub end_line: u32,
    pub text: Seq<char>,
    pub tokens: Seq<Seq<char>>,
    pub symbol_name: Option<Seq<char>>,
    pub chunk_type: Seq<char>,
}

/// The view of an optional string.
pub open spec fn opt_view(o: Option<String>) -> Option<Seq<char>> {
    match o {
        Some(s) => Some(s@),
        None => None,
    }
}

impl View for Chunk {
    type V = ChunkView;

    open spec fn view(&self) -> ChunkView {
        ChunkView {
            path: self.path@,
            start_line: self.start_line,
            end_line: self.end_line,
            text: self.text@,
            tokens: views(self.tokens@),
            symbol_name: opt_view(self.symbol_name),
            chunk_type: self.chunk_type@,
        }
    }
}

/// The views of a sequence of chunks.
pub open spec fn chunk_views(v: Seq<Chunk>) -> Seq<ChunkView> {
    v.map_values(|c: Chunk| c@)
}

/// A copy of an optional string.
pub fn copy_opt_string(o: &Option<String>) -> (res: Option<String>)
    ensures
        opt_view(res) == opt_view(*o),
{
    match o {
        Some(s) => Some(s.clone()),
        None => None,
    }
}

/// A copy of a vector of strings.
pub fn copy_strings(v: &Vec<String>) -> (res: Vec<String>)
    ensures
        views(res@) == views(v@),
{
    let mut res: Vec<String> = Vec::new();
    let mut i: usize = 0;
    while i < v.len()
        invariant
            0 <= i <= v@.len(),
            views(res@) == views(v@.take(i as int)),
        decreases v@.len() - i,
    {
        let ghost before = views(res@);
        res.push(v[i].clone());
        assert(views(res@) == before.push(v@[i as int]@));
        assert(views(v@.take(i + 1)) == views(v@.take(i as int)).push(v@[i as int]@));
        i += 1;
    }
    assert(v@.take(v@.len() as int) == v@);
    res
}

impl Chunk {
    /// A field-by-field copy.
    pub fn duplicate(&self) -> (res: Chunk)
        ensures
            res@ == self@,
    {
        Chunk {
            path: self.path.clone(),
            start_line: self.start_line,
            end_line: self.end_line,
            text: self.text.clone(),
            tokens: copy_strings(&self.tokens),
            symbol_name: copy_opt_string(&self.symbol_name),
            chunk_type: self.chunk_type.clone(),
        }
    }
}

/// The chunk type of a chunk that is a whole file.
pub open spec fn file_chunk_type() -> Seq<char> {
    seq!['f', 'i', 'l', 'e']
}

/// The chunk type used when a stored chunk names none: `file`.
pub fn default_chunk_type() -> (res: String)
    ensures
        res@ == file_chunk_type(),
{
    let mut s = String::new();
    push_char(&mut s, 'f');
    push_char(&mut s, 'i');
    push_char(&mut s, 'l');
    push_char(&mut s, 'e');
    s
}

/// How an index request treats an existing snapshot.
#[derive(Debug, Clone, Copy, PartialEq, Eq, Structural)]
pub enum IndexMode {
    /// Rebuild from scratch.
    Full,
    /// Reuse the snapshot where the file hashes allow.
    Auto,
}

impl IndexMode {
    /// `full` is `Full`; every other string (`auto`, `refresh`, ...) is `Auto`.
    pub fn parse(value: &str) -> (res: IndexMode)
        ensures
            res == (if value@ == "full"@ {
                IndexMode::Full
            } else {
                IndexMode::Auto
            }),
    {
        if str_eq(value, "full") {
            IndexMode::Full
        } else {
            IndexMode::Auto
        }
    }
}

// ---------------------------------------------------------------------------
// The final-extension rule
// ---------------------------------------------------------------------------

/// A path separator, forward or backward.
pub open spec fn is_path_sep(c: char) -> bool {
    c == '/' || c == '\\'
}

/// Where the file name starts: just after the last separator, or 0.
pub open spec fn name_start(p: Seq<char>) -> int
    decreases p.len(),
{
    if p.len() == 0 {
        0
    } else if is_path_sep(p.last()) {
        p.len() as int
    } else {
        name_start(p.drop_last())
    }
}

/// The index of the last `.` in `s`, or -1.
pub open spec fn last_dot(s: Seq<char>) -> int
    decreases s.len(),
{
    if s.len() == 0 {
        -1
    } else if s.last() == '.' {
        s.len() - 1
    } else {
        last_dot(s.drop_last())
    }
}

/// The final extension of a path: after the last `.` of the file name, when
/// both the part before that `.` and the part after it are non-empty.
pub open spec fn final_extension_spec(p: Seq<char>) -> Option<Seq<char>> {
    let name = p.skip(name_start(p));
    let d = last_dot(name);
    if d <= 0 || d == name.len() - 1 {
        None
    } else {
        Some(name.skip(d + 1))
    }
}

proof fn lemma_name_start_take(p: Seq<char>, j: int)
    requires
        0 <= j <= p.len(),
        forall|k: int| j <= k < p.len() ==> !is_path_sep(#[trigger] p[k]),
    ensures
        name_start(p) == name_start(p.take(j)),
        0 <= name_start(p) <= j,
    decreases p.len() - j,
{
    if j < p.len() {
        assert(p.drop_last().take(j) == p.take(j));
        assert forall|k: int| j <= k < p.drop_last().len() implies !is_path_sep(
            #[trigger] p.drop_last()[k],
        ) by {
            assert(p.drop_last()[k] == p[k]);
        }
        lemma_name_start_take(p.drop_last(), j);
    } else {
        assert(p.take(j) == p);
        lemma_name_start_bounds(p);
    }
}

proof fn lemma_name_start_bounds(p: Seq<char>)
    ensures
        0 <= name_start(p) <= p.len(),
    decreases p.len(),
{
    if p.len() > 0 && !is_path_sep(p.last()) {
        lemma_name_start_bounds(p.drop_last());
    }
}

proof fn lemma_last_dot_take(s: Seq<char>, j: int)
    requires
        0 <= j <= s.len(),
        forall|k: int| j <= k < s.len() ==> #[trigger] s[k] != '.',
    ensures
        last_dot(s) == last_dot(s.take(j)),
    decreases s.len() - j,
{
    if j < s.len() {
        assert(s.drop_last().take(j) == s.take(j));
        assert forall|k: int| j <= k < s.drop_last().len() implies #[trigger] s.drop_last()[k]
            != '.' by {
            assert(s.drop_last()[k] == s[k]);
        }
        lemma_last_dot_take(s.drop_last(), j);
    } else {
        assert(s.take(j) == s);
    }
}

/// The final extension of `path` (exact and case-sensitive): `file.tsx` is
/// `tsx`, `file.sh` is `sh`, `file.tar.ts` is `ts`; a name without a dot, or
/// with nothing before or after its last dot, has none.
pub fn final_extension(path: &str) -> (res: Option<&str>)
    ensures
        match res {
            Some(e) => final_extension_spec(path@) == Some(e@),
            None => final_extension_spec(path@) is None,
        },
{
    let chars = chars_of(path);
    let n: usize = chars.len();
    let mut j: usize = n;
    while j > 0 && chars[j - 1] != '/' && chars[j - 1] != '\\'
        invariant
            n == chars@.len(),
            0 <= j <= n,
            forall|k: int| j <= k < n ==> !is_path_sep(#[trigger] chars@[k]),
        decreases j,
    {
        j -= 1;
    }
    proof {
        lemma_name_start_take(chars@, j as int);
        if j > 0 {
            assert(chars@.take(j as int).last() == chars@[j - 1]);
        }
    }
    let start = j;
    assert(name_start(path@) == start);
    let ghost name = chars@.skip(start as int);
    let mut d: usize = n;
    while d > start && chars[d - 1] != '.'
        invariant
            n == chars@.len(),
            start <= d <= n,
            forall|k: int| d <= k < n ==> #[trigger] chars@[k] != '.',
        decreases d,
    {
        d -= 1;
    }
    proof {
        assert forall|k: int| d - start <= k < name.len() implies #[trigger] name[k] != '.' by {
            assert(name[k] == chars@[k + start]);
        }
        lemma_last_dot_take(name, d - start);
        if d > start {
            assert(name.take(d - start).last() == chars@[d - 1]);
        } else {
            assert(name.take(0).len() == 0);
        }
    }
    // `d` is one past the last dot in the name, or `start` when there is none.
    if d - start <= 1 || d == n {
        None
    } else {
        proof {
            assert(last_dot(name) == d - 1 - start);
            assert(name.skip(d - start) == chars@.subrange(d as int, n as int));
        }
        Some(path.substring_char(d, n))
    }
}

/// The final extensions that are indexed.
pub open spec fn indexable_extension(e: Seq<char>) -> bool {
    ||| e == "ts"@
    ||| e == "tsx"@
    ||| e == "js"@
    ||| e == "jsx"@
    ||| e == "mjs"@
    ||| e == "cjs"@
    ||| e == "rs"@
    ||| e == "md"@
    ||| e == "py"@
    ||| e == "go"@
}

/// Whether a file with this relative path is indexed, by its final extension.
pub fn is_indexable_extension(rel: &str) -> (res: bool)
    ensures
        res == (final_extension_spec(rel@) matches Some(e) && indexable_extension(e)),
{
    match final_extension(rel) {
        Some(e) => str_eq(e, "ts") || str_eq(e, "tsx") || str_eq(e, "js") || str_eq(e, "jsx")
            || str_eq(e, "mjs") || str_eq(e, "cjs") || str_eq(e, "rs") || str_eq(e, "md")
            || str_eq(e, "py") || str_eq(e, "go"),
        None => false,
    }
}

// ---------------------------------------------------------------------------
// Skip rules
// ---------------------------------------------------------------------------

/// Directory names that are never indexed.
pub open spec fn excluded_segment(s: Seq<char>) -> bool {
    ||| s == "node_modules"@
    ||| s == "dist"@
    ||| s == "target"@
    ||| s == ".git"@
}

/// The `/`-separated segments of `s` after the partial segment `cur` (`str::split('/')`).
pub open spec fn segments_after(s: Seq<char>, cur: Seq<char>) -> Seq<Seq<char>>
    decreases s.len(),
{
    if s.len() == 0 {
        seq![cur]
    } else if s[0] == '/' {
        seq![cur] + segments_after(s.drop_first(), seq![])
    } else {
        segments_after(s.drop_first(), cur.push(s[0]))
    }
}

/// The `/`-separated segments of `s`.
pub open spec fn segments(s: Seq<char>) -> Seq<Seq<char>> {
    segments_after(s, seq![])
}

/// Some segment of the path is an excluded directory name (exact match).
pub open spec fn should_skip_spec(rel: Seq<char>) -> bool {
    exists|i: int| 0 <= i < segments(rel).len() && excluded_segment(#[trigger] segments(rel)[i])
}

fn is_excluded_segment(s: &str) -> (res: bool)
    ensures
        res == excluded_segment(s@),
{
    str_eq(s, "node_modules") || str_eq(s, "dist") || str_eq(s, "target") || str_eq(s, ".git")
}

proof fn lemma_segments_step(s: Seq<char>, i: int, cur: Seq<char>)
    requires
        0 <= i < s.len(),
    ensures
        segments_after(s.skip(i), cur) == if s[i] == '/' {
            seq![cur] + segments_after(s.skip(i + 1), seq![])
        } else {
            segments_after(s.skip(i + 1), cur.push(s[i]))
        },
{
    assert(s.skip(i).drop_first() == s.skip(i + 1));
    assert(s.skip(i)[0] == s[i]);
}

/// Whether a relative path lies under a skipped directory name
/// (`node_modules`, `dist`, `target`, `.git`), compared segment by segment.
pub fn should_skip(rel: &str) -> (res: bool)
    ensures
        res == should_skip_spec(rel@),
{
    let chars = chars_of(rel);
    let n: usize = chars.len();
    let mut cur = String::new();
    let mut i: usize = 0;
    let ghost mut done: Seq<Seq<char>> = seq![];
    assert(chars@.skip(0) == chars@);
    while i < n
        invariant
            n == chars@.len(),
            chars@ == rel@,
            0 <= i <= n,
            done + segments_after(chars@.skip(i as int), cur@) == segments(rel@),
            forall|k: int| 0 <= k < done.len() ==> !excluded_segment(#[trigger] done[k]),
        decreases n - i,
    {
        proof {
            lemma_segments_step(chars@, i as int, cur@);
        }
        if chars[i] == '/' {
            if is_excluded_segment(cur.as_str()) {
                proof {
                    let segs = segments(rel@);
                    assert(segs == done + (seq![cur@] + segments_after(chars@.skip(i + 1), seq![])));
                    assert(segs[done.len() as int] == cur@);
                }
                return true;
            }
            proof {
                assert(done + (seq![cur@] + segments_after(chars@.skip(i + 1), seq![])) == done.push(
                    cur@,
                ) + segments_after(chars@.skip(i + 1), seq![]));
                done = done.push(cur@);
            }
            cur = String::new();
        } else {
            push_char(&mut cur, chars[i]);
        }
        i += 1;
    }
    assert(chars@.skip(n as int).len() == 0);
    let last = is_excluded_segment(cur.as_str());
    proof {
        let segs = segments(rel@);
        assert(segs == done.push(cur@));
        if !last {
            assert forall|k: int| 0 <= k < segs.len() implies !excluded_segment(#[trigger] segs[k]) by {
                if k < done.len() {
                    assert(segs[k] == done[k]);
                }
            }
        } else {
            assert(segs[done.len() as int] == cur@);
        }
    }
    last
}

// ---------------------------------------------------------------------------
// Search options and filters
// ---------------------------------------------------------------------------

/// What a search keeps and returns.
#[derive(Debug, Clone)]
pub struct SearchOptions {
    pub limit: usize,
    pub include_content: bool,
    pub file_extensions: Vec<String>,
    pub path_filter: Option<String>,
    pub exclude_paths: Vec<String>,
}

impl SearchOptions {
    /// Only a limit: content included, no filters.
    pub fn limit_only(limit: usize) -> (res: SearchOptions)
        ensures
            res.limit == limit,
            res.include_content,
            res.file_extensions@.len() == 0,
            res.path_filter is None,
            res.exclude_paths@.len() == 0,
    {
        SearchOptions {
            limit,
            include_content: true,
            file_extensions: Vec::new(),
            path_filter: None,
            exclude_paths: Vec::new(),
        }
    }
}

/// No exclusion is a substring of the (normalized) path `p`.
pub open spec fn not_excluded(p: Seq<char>, exclude_paths: Seq<Seq<char>>) -> bool {
    forall|i: int|
        0 <= i < exclude_paths.len() ==> !has_substring(
            p,
            slashes_normalized(#[trigger] exclude_paths[i]),
        )
}

/// Some wanted extension, as a token, is the final extension `ext`.
pub open spec fn extension_wanted(ext: Seq<char>, file_extensions: Seq<Seq<char>>) -> bool {
    exists|i: int|
        0 <= i < file_extensions.len() && extension_token_spec(#[trigger] file_extensions[i])
            == Some(ext)
}

/// A chunk's path passes the path filter, the exclusions and the extension
/// filter. All comparisons are case-sensitive, on slash-normalized paths.
pub open spec fn matches_filters_spec(
    path: Seq<char>,
    file_extensions: Seq<Seq<char>>,
    path_filter: Option<Seq<char>>,
    exclude_paths: Seq<Seq<char>>,
) -> bool {
    &&& path_filter matches Some(f) ==> has_substring(
        slashes_normalized(path),
        slashes_normalized(f),
    )
    &&& not_excluded(slashes_normalized(path), exclude_paths)
    &&& file_extensions.len() > 0 ==> match final_extension_spec(slashes_normalized(path)) {
        Some(ext) => extension_wanted(ext, file_extensions),
        None => false,
    }
}

/// Whether a chunk passes the filters of `options`.
pub fn chunk_matches_filters(chunk: &Chunk, options: &SearchOptions) -> (res: bool)
    ensures
        res == matches_filters_spec(
            chunk.path@,
            views(options.file_extensions@),
            opt_view(options.path_filter),
            views(options.exclude_paths@),
        ),
{
    let path = replace_char_exec(chunk.path.as_str(), '\\', '/');
    if let Some(filter) = &options.path_filter {
        let filter = replace_char_exec(filter.as_str(), '\\', '/');
        if !str_contains(path.as_str(), filter.as_str()) {
            return false;
        }
    }
    let mut i: usize = 0;
    while i < options.exclude_paths.len()
        invariant
            0 <= i <= options.exclude_paths@.len(),
            path@ == slashes_normalized(chunk.path@),
            forall|k: int|
                0 <= k < i ==> !has_substring(
                    path@,
                    slashes_normalized(#[trigger] views(options.exclude_paths@)[k]),
                ),
        decreases options.exclude_paths@.len() - i,
    {
        let excluded = replace_char_exec(options.exclude_paths[i].as_str(), '\\', '/');
        if str_contains(path.as_str(), excluded.as_str()) {
            assert(views(options.exclude_paths@)[i as int] == options.exclude_paths@[i as int]@);
            return false;
        }
        i += 1;
    }
    if options.file_extensions.len() == 0 {
        return true;
    }
    let ext = match final_extension(path.as_str()) {
        Some(e) => e,
        None => {
            return false;
        },
    };
    let mut j: usize = 0;
    while j < options.file_extensions.len()
        invariant
            0 <= j <= options.file_extensions@.len(),
            path@ == slashes_normalized(chunk.path@),
            final_extension_spec(path@) == Some(ext@),
            options.file_extensions@.len() > 0,
            opt_view(options.path_filter) matches Some(f) ==> has_substring(path@, slashes_normalized(f)),
            not_excluded(path@, views(options.exclude_paths@)),
            forall|k: int|
                0 <= k < j ==> extension_token_spec(#[trigger] views(options.file_extensions@)[k])
                    != Some(ext@),
        decreases options.file_extensions@.len() - j,
    {
        let wanted = extension_token(options.file_extensions[j].as_str());
        assert(views(options.file_extensions@)[j as int] == options.file_extensions@[j as int]@);
        match wanted {
            Some(w) => {
                if str_eq(w.as_str(), ext) {
                    assert(extension_token_spec(views(options.file_extensions@)[j as int])
                        == Some(ext@));
                    return true;
                }
            },
            None => {},
        }
        j += 1;
    }
    false
}

/// A path that passes the path filter and the exclusions passes the
/// extension filter when its final extension is the token of any one of the
/// listed extensions, wherever that one stands in the list.
pub proof fn lemma_any_listed_extension_matches(
    path: Seq<char>,
    file_extensions: Seq<Seq<char>>,
    path_filter: Option<Seq<char>>,
    exclude_paths: Seq<Seq<char>>,
    i: int,
)
    requires
        0 <= i < file_extensions.len(),
        matches_filters_spec(path, seq![], path_filter, exclude_paths),
        final_extension_spec(slashes_normalized(path)) is Some,
        extension_token_spec(file_extensions[i]) == final_extension_spec(slashes_normalized(path)),
    ensures
        matches_filters_spec(path, file_extensions, path_filter, exclude_paths),
{
    let ext = final_extension_spec(slashes_normalized(path))->0;
    assert(extension_wanted(ext, file_extensions));
}

/// With extensions listed, a path passes only when its final extension is
/// the token of one of them.
pub proof fn lemma_matched_extension_is_listed(
    path: Seq<char>,
    file_extensions: Seq<Seq<char>>,
    path_filter: Option<Seq<char>>,
    exclude_paths: Seq<Seq<char>>,
)
    requires
        file_extensions.len() > 0,
        matches_filters_spec(path, file_extensions, path_filter, exclude_paths),
    ensures
        final_extension_spec(slashes_normalized(path)) is Some,
        exists|i: int|
            0 <= i < file_extensions.len() && extension_token_spec(#[trigger] file_extensions[i])
                == final_extension_spec(slashes_normalized(path)),
{
}

/// Listing more extensions, before or after the others, never drops a path
/// that the listed ones keep.
pub proof fn lemma_more_extensions_keep_matches(
    path: Seq<char>,
    file_extensions: Seq<Seq<char>>,
    more: Seq<Seq<char>>,
    path_filter: Option<Seq<char>>,
    exclude_paths: Seq<Seq<char>>,
)
    requires
        file_extensions.len() > 0,
        matches_filters_spec(path, file_extensions, path_filter, exclude_paths),
    ensures
        matches_filters_spec(path, more + file_extensions, path_filter, exclude_paths),
        matches_filters_spec(path, file_extensions + more, path_filter, exclude_paths),
{
    let ext = final_extension_spec(slashes_normalized(path))->0;
    let i = choose|i: int|
        0 <= i < file_extensions.len() && extension_token_spec(#[trigger] file_extensions[i]) == Some(ext);
    assert((more + file_extensions)[more.len() + i] == file_extensions[i]);
    assert((file_extensions + more)[i] == file_extensions[i]);
    assert(extension_wanted(ext, more + file_extensions));
    assert(extension_wanted(ext, file_extensions + more));
}

/// A path that holds any one of the excluded substrings (after slash
/// normalization) never passes.
pub proof fn lemma_any_exclusion_drops(
    path: Seq<char>,
    file_extensions: Seq<Seq<char>>,
    path_filter: Option<Seq<char>>,
    exclude_paths: Seq<Seq<char>>,
    i: int,
)
    requires
        0 <= i < exclude_paths.len(),
        has_substring(slashes_normalized(path), slashes_normalized(exclude_paths[i])),
    ensures
        !matches_filters_spec(path, file_extensions, path_filter, exclude_paths),
{
}

/// `root` joined with a relative path, as `Path::join` joins a relative
/// component: nothing is added to an empty root, and no second `/` is
/// added after a root that already ends with one.
pub open spec fn join_path(root: Seq<char>, rel: Seq<char>) -> Seq<char> {
    if root.len() == 0 {
        rel
    } else if root.last() == '/' {
        root + rel
    } else {
        root + seq!['/'] + rel
    }
}

/// `root` joined with `rel` (see [`join_path`]).
pub fn join_path_exec(root: &str, rel: &str) -> (res: String)
    ensures
        res@ == join_path(root@, rel@),
{
    let chars = chars_of(root);
    let n: usize = chars.len();
    if n == 0 {
        return rel.to_owned();
    }
    if chars[n - 1] == '/' {
        concat(root, rel)
    } else {
        let mut out = root.to_owned();
        push_char(&mut out, '/');
        crate::text::push_str(&mut out, rel);
        out
    }
}

/// The snapshot file of the index under a repository root:
/// `<root>/.locus/rust-index.json`.
pub fn index_path(root: &str) -> (res: String)
    ensures
        res@ == join_path(join_path(root@, ".locus"@), "rust-index.json"@),
{
    let dir = join_path_exec(root, ".locus");
    join_path_exec(dir.as_str(), "rust-index.json")
}

/// The older location of the index snapshot: `<root>/.coderag/rust-index.json`.
pub fn legacy_index_path(root: &str) -> (res: String)
    ensures
        res@ == join_path(join_path(root@, ".coderag"@), "rust-index.json"@),
{
    let dir = join_path_exec(root, ".coderag");
    join_path_exec(dir.as_str(), "rust-index.json")
}

/// The index snapshot to read: the current location when a snapshot exists
/// there; otherwise the older location when one exists there; otherwise
/// the current location.
pub fn index_path_for_read(root: &str, current_exists: bool, legacy_exists: bool) -> (res: String)
    ensures
        res@ == if !current_exists && legacy_exists {
            join_path(join_path(root@, ".coderag"@), "rust-index.json"@)
        } else {
            join_path(join_path(root@, ".locus"@), "rust-index.json"@)
        },
{
    if current_exists {
        return index_path(root);
    }
    if legacy_exists {
        return legacy_index_path(root);
    }
    index_path(root)
}

} // verus!
