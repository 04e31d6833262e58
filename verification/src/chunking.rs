//! Symbol chunks: line patterns find symbol starts; each symbol's chunk runs
//! to the line before the next symbol; lines before the first symbol are
//! copied onto the front of every symbol chunk; a file without symbols is one
//! `file` chunk.

use vstd::prelude::*;
use vstd::string::StringSliceAdditionalSpecFns;

use crate::index::{final_extension, final_extension_spec, file_chunk_type, Chunk, ChunkView, chunk_views};
use crate::text::{
    chars_of, join_exec, joined, lines_after, lines_exec, lines_of, push_char, push_str, str_eq,
    views,
};
use crate::tokenize::{lemma_tokens_split, tokenize, tokens_of};

verus! {

// ---------------------------------------------------------------------------
// Regular expressions (outside crate)
// ---------------------------------------------------------------------------

/// The matches of the regular expression `pattern` in `haystack`, as the
/// `regex` crate finds them: `None` when the pattern does not compile;
/// otherwise, for each successive non-overlapping match, capture group 1 as
/// its text and the byte offset at which it starts (when that group took
/// part in the match).
pub uninterp spec fn regex_matches(pattern: Seq<char>, haystack: Seq<char>) -> Option<
    Seq<Option<(Seq<char>, usize)>>,
>;

/// The view of one match's capture group.
pub open spec fn group_view(g: Option<(String, usize)>) -> Option<(Seq<char>, usize)> {
    match g {
        Some((s, start)) => Some((s@, start)),
        None => None,
    }
}

/// The views of the raw matches.
pub open spec fn match_views(v: Seq<Option<(String, usize)>>) -> Seq<Option<(Seq<char>, usize)>> {
    v.map_values(|g: Option<(String, usize)>| group_view(g))
}

/// Compiles `pattern` with `regex::Regex::new` and collects, over
/// `captures_iter`, capture group 1 of each match with the byte offset where
/// the group starts. The contract only names the result ([`regex_matches`]);
/// what the regex engine matches is not stated here.
#[verifier::external_body]
fn capture_matches(pattern: &str, haystack: &str) -> (res: Option<Vec<Option<(String, usize)>>>)
    ensures
        match res {
            Some(v) => regex_matches(pattern@, haystack@) == Some(match_views(v@)),
            None => regex_matches(pattern@, haystack@) is None,
        },
{
    let re = regex::Regex::new(pattern).ok()?;
    Some(re.captures_iter(haystack).map(|cap| cap.get(1).map(|m| (m.as_str().to_string(), m.start()))).collect())
}

// ---------------------------------------------------------------------------
// Symbol spans
// ---------------------------------------------------------------------------

/// A symbol found in a file: its name, its chunk type and its first line.
#[derive(Debug, Clone)]
pub struct SymbolSpan {
    pub name: String,
    pub chunk_type: String,
    pub start_line: u32,
}

pub struct SpanView {
    pub name: Seq<char>,
    pub chunk_type: Seq<char>,
    pub start_line: u32,
}

impl View for SymbolSpan {
    type V = SpanView;

    open spec fn view(&self) -> SpanView {
        SpanView { name: self.name@, chunk_type: self.chunk_type@, start_line: self.start_line }
    }
}

impl SymbolSpan {
    /// A field-by-field copy.
    pub fn duplicate(&self) -> (res: SymbolSpan)
        ensures
            res@ == self@,
    {
        SymbolSpan {
            name: self.name.clone(),
            chunk_type: self.chunk_type.clone(),
            start_line: self.start_line,
        }
    }
}

pub open spec fn span_views(v: Seq<SymbolSpan>) -> Seq<SpanView> {
    v.map_values(|s: SymbolSpan| s@)
}

/// The patterns tried on every indexed file, with their chunk types. They
/// match at column 0 only.
pub open spec fn base_patterns() -> Seq<(Seq<char>, Seq<char>)> {
    seq![
        (r"(?m)^export\s+(?:async\s+)?function\s+([A-Za-z_][A-Za-z0-9_]*)"@, "function"@),
        (r"(?m)^export\s+class\s+([A-Za-z_][A-Za-z0-9_]*)"@, "class"@),
        (r"(?m)^export\s+const\s+([A-Za-z_][A-Za-z0-9_]*)\s*="@, "const"@),
        (r"(?m)^(?:async\s+)?function\s+([A-Za-z_][A-Za-z0-9_]*)"@, "function"@),
        (r"(?m)^def\s+([A-Za-z_][A-Za-z0-9_]*)\s*\("@, "function"@),
        (r"(?m)^class\s+([A-Za-z_][A-Za-z0-9_]*)"@, "class"@),
    ]
}

/// The extra patterns of Rust files (leading white space allowed).
pub open spec fn rust_patterns() -> Seq<(Seq<char>, Seq<char>)> {
    seq![
        (r"(?m)^\s*(?:pub(?:\([^)]*\))?\s+)?(?:async\s+)?fn\s+([A-Za-z_][A-Za-z0-9_]*)"@, "function"@),
        (r"(?m)^\s*(?:pub(?:\([^)]*\))?\s+)?struct\s+([A-Za-z_][A-Za-z0-9_]*)"@, "struct"@),
        (r"(?m)^\s*(?:pub(?:\([^)]*\))?\s+)?enum\s+([A-Za-z_][A-Za-z0-9_]*)"@, "enum"@),
        (r"(?m)^\s*(?:pub(?:\([^)]*\))?\s+)?trait\s+([A-Za-z_][A-Za-z0-9_]*)"@, "trait"@),
    ]
}

/// The extra pattern of Go files (functions and methods).
pub open spec fn go_patterns() -> Seq<(Seq<char>, Seq<char>)> {
    seq![(r"(?m)^\s*func\s+(?:\([^)\n]*\)\s*)?([A-Za-z_][A-Za-z0-9_]*)"@, "function"@)]
}

/// The patterns tried on a file, in order, by its final extension.
pub open spec fn symbol_patterns(path: Seq<char>) -> Seq<(Seq<char>, Seq<char>)> {
    if final_extension_spec(path) == Some("rs"@) {
        base_patterns() + rust_patterns()
    } else if final_extension_spec(path) == Some("go"@) {
        base_patterns() + go_patterns()
    } else {
        base_patterns()
    }
}

/// The number of `\n` bytes in `b`.
pub open spec fn newline_count(b: Seq<u8>) -> nat
    decreases b.len(),
{
    if b.len() == 0 {
        0
    } else {
        newline_count(b.drop_last()) + if b.last() == 10u8 {
            1nat
        } else {
            0nat
        }
    }
}

/// The 1-based line of the byte at `offset` (offsets past the end count as the end).
pub open spec fn line_at(bytes: Seq<u8>, offset: usize) -> int {
    let end = if offset <= bytes.len() {
        offset as int
    } else {
        bytes.len() as int
    };
    newline_count(bytes.take(end)) as int + 1
}

/// The spans of the matches of one pattern, in match order, each starting on
/// the line of its symbol name (capture group 1); a match whose group 1 took
/// no part is left out.
pub open spec fn spans_of_matches(
    matches: Seq<Option<(Seq<char>, usize)>>,
    chunk_type: Seq<char>,
    bytes: Seq<u8>,
) -> Seq<SpanView>
    decreases matches.len(),
{
    if matches.len() == 0 {
        seq![]
    } else {
        let rest = spans_of_matches(matches.drop_last(), chunk_type, bytes);
        match matches.last() {
            Some((name, start)) => rest.push(
                SpanView { name, chunk_type, start_line: line_at(bytes, start) as u32 },
            ),
            None => rest,
        }
    }
}

/// The matches of one pattern (`None` when it did not compile) with the
/// chunk type it gives.
pub type PatternResult = (Option<Seq<Option<(Seq<char>, usize)>>>, Seq<char>);

/// The spans of the results, pattern by pattern, in pattern order.
pub open spec fn spans_of_results(results: Seq<PatternResult>, bytes: Seq<u8>) -> Seq<SpanView>
    decreases results.len(),
{
    if results.len() == 0 {
        seq![]
    } else {
        let rest = spans_of_results(results.drop_last(), bytes);
        match results.last().0 {
            Some(m) => rest + spans_of_matches(m, results.last().1, bytes),
            None => rest,
        }
    }
}

/// What the patterns find in `content`.
pub open spec fn pattern_results(patterns: Seq<(Seq<char>, Seq<char>)>, content: Seq<char>) -> Seq<
    PatternResult,
> {
    Seq::new(patterns.len(), |i: int| (regex_matches(patterns[i].0, content), patterns[i].1))
}

/// `x` inserted into `sorted` after every span whose start line is not greater.
pub open spec fn insert_by_line(sorted: Seq<SpanView>, x: SpanView) -> Seq<SpanView>
    decreases sorted.len(),
{
    if sorted.len() == 0 {
        seq![x]
    } else if sorted.last().start_line <= x.start_line {
        sorted.push(x)
    } else {
        insert_by_line(sorted.drop_last(), x).push(sorted.last())
    }
}

/// `s` stably sorted by start line.
pub open spec fn sort_by_line(s: Seq<SpanView>) -> Seq<SpanView>
    decreases s.len(),
{
    if s.len() == 0 {
        seq![]
    } else {
        insert_by_line(sort_by_line(s.drop_last()), s.last())
    }
}

/// Two spans with the same start line and the same name.
pub open spec fn same_span(a: SpanView, b: SpanView) -> bool {
    a.start_line == b.start_line && a.name == b.name
}

/// `s` with each run of adjacent [`same_span`] spans collapsed to its first.
pub open spec fn dedup_spans(s: Seq<SpanView>) -> Seq<SpanView>
    decreases s.len(),
{
    if s.len() == 0 {
        seq![]
    } else {
        let d = dedup_spans(s.drop_last());
        if d.len() > 0 && same_span(d.last(), s.last()) {
            d
        } else {
            d.push(s.last())
        }
    }
}

/// The spans that pattern results give: all of them, stably ordered by start
/// line, with equal (line, name) neighbours collapsed.
pub open spec fn spans_of_found(results: Seq<PatternResult>, bytes: Seq<u8>) -> Seq<SpanView> {
    dedup_spans(sort_by_line(spans_of_results(results, bytes)))
}

/// The symbol spans of a file: all pattern matches, stably ordered by start
/// line, with equal (line, name) neighbours collapsed.
pub open spec fn symbol_spans_spec(path: Seq<char>, content: Seq<char>, bytes: Seq<u8>) -> Seq<
    SpanView,
> {
    spans_of_found(pattern_results(symbol_patterns(path), content), bytes)
}

/// Start lines never decrease along `s`.
pub open spec fn ordered_by_line(s: Seq<SpanView>) -> bool {
    forall|i: int, j: int| 0 <= i < j < s.len() ==> (#[trigger] s[i]).start_line <= (#[trigger] s[j]).start_line
}

/// No two neighbours of `s` are the same span.
pub open spec fn no_adjacent_repeats(s: Seq<SpanView>) -> bool {
    forall|i: int| 0 <= i < s.len() - 1 ==> !same_span(#[trigger] s[i], s[i + 1])
}

/// Every span of `insert_by_line(sorted, x)` is one of `sorted` or `x`.
proof fn lemma_insert_by_line_keeps(sorted: Seq<SpanView>, x: SpanView, p: spec_fn(SpanView) -> bool)
    requires
        forall|i: int| 0 <= i < sorted.len() ==> p(#[trigger] sorted[i]),
        p(x),
    ensures
        forall|i: int| 0 <= i < insert_by_line(sorted, x).len() ==> p(#[trigger] insert_by_line(sorted, x)[i]),
    decreases sorted.len(),
{
    if sorted.len() > 0 && !(sorted.last().start_line <= x.start_line) {
        let rest = sorted.drop_last();
        assert forall|i: int| 0 <= i < rest.len() implies p(#[trigger] rest[i]) by {
            assert(rest[i] == sorted[i]);
        }
        lemma_insert_by_line_keeps(rest, x, p);
        let ins = insert_by_line(rest, x);
        assert(p(sorted[sorted.len() - 1]));
        assert forall|i: int| 0 <= i < ins.push(sorted.last()).len() implies p(
            #[trigger] ins.push(sorted.last())[i],
        ) by {
            if i < ins.len() {
                assert(ins.push(sorted.last())[i] == ins[i]);
            }
        }
    }
}

proof fn lemma_insert_by_line_ordered(sorted: Seq<SpanView>, x: SpanView)
    requires
        ordered_by_line(sorted),
    ensures
        ordered_by_line(insert_by_line(sorted, x)),
    decreases sorted.len(),
{
    if sorted.len() == 0 {
    } else if sorted.last().start_line <= x.start_line {
        let r = sorted.push(x);
        assert forall|i: int, j: int| 0 <= i < j < r.len() implies (#[trigger] r[i]).start_line <= (
        #[trigger] r[j]).start_line by {
            assert(r[i] == sorted[i]);
            if j < sorted.len() {
                assert(r[j] == sorted[j]);
            } else if i < sorted.len() - 1 {
                assert(sorted[i].start_line <= sorted[sorted.len() - 1].start_line);
            }
        }
    } else {
        let rest = sorted.drop_last();
        let last = sorted.last();
        assert forall|i: int, j: int| 0 <= i < j < rest.len() implies (#[trigger] rest[i]).start_line <= (
        #[trigger] rest[j]).start_line by {
            assert(rest[i] == sorted[i] && rest[j] == sorted[j]);
        }
        lemma_insert_by_line_ordered(rest, x);
        let ins = insert_by_line(rest, x);
        let p = |y: SpanView| y.start_line <= last.start_line;
        assert forall|i: int| 0 <= i < rest.len() implies p(#[trigger] rest[i]) by {
            assert(rest[i] == sorted[i]);
            assert(sorted[i].start_line <= sorted[sorted.len() - 1].start_line);
        }
        lemma_insert_by_line_keeps(rest, x, p);
        let r = ins.push(last);
        assert forall|i: int, j: int| 0 <= i < j < r.len() implies (#[trigger] r[i]).start_line <= (
        #[trigger] r[j]).start_line by {
            assert(r[i] == ins[i]);
            if j < ins.len() {
                assert(r[j] == ins[j]);
            } else {
                assert(p(ins[i]));
            }
        }
    }
}

proof fn lemma_sort_by_line_ordered(s: Seq<SpanView>)
    ensures
        ordered_by_line(sort_by_line(s)),
    decreases s.len(),
{
    if s.len() > 0 {
        lemma_sort_by_line_ordered(s.drop_last());
        lemma_insert_by_line_ordered(sort_by_line(s.drop_last()), s.last());
    }
}

/// Every span of `dedup_spans(s)` is one of `s`.
proof fn lemma_dedup_keeps(s: Seq<SpanView>, p: spec_fn(SpanView) -> bool)
    requires
        forall|i: int| 0 <= i < s.len() ==> p(#[trigger] s[i]),
    ensures
        forall|i: int| 0 <= i < dedup_spans(s).len() ==> p(#[trigger] dedup_spans(s)[i]),
    decreases s.len(),
{
    if s.len() > 0 {
        let rest = s.drop_last();
        assert forall|i: int| 0 <= i < rest.len() implies p(#[trigger] rest[i]) by {
            assert(rest[i] == s[i]);
        }
        lemma_dedup_keeps(rest, p);
        let d = dedup_spans(rest);
        assert(p(s[s.len() - 1]));
        assert forall|i: int| 0 <= i < d.push(s.last()).len() implies p(#[trigger] d.push(s.last())[i]) by {
            if i < d.len() {
                assert(d.push(s.last())[i] == d[i]);
            }
        }
    }
}

proof fn lemma_dedup_ordered(s: Seq<SpanView>)
    requires
        ordered_by_line(s),
    ensures
        ordered_by_line(dedup_spans(s)),
        no_adjacent_repeats(dedup_spans(s)),
    decreases s.len(),
{
    if s.len() > 0 {
        let rest = s.drop_last();
        let x = s.last();
        assert forall|i: int, j: int| 0 <= i < j < rest.len() implies (#[trigger] rest[i]).start_line <= (
        #[trigger] rest[j]).start_line by {
            assert(rest[i] == s[i] && rest[j] == s[j]);
        }
        lemma_dedup_ordered(rest);
        let d = dedup_spans(rest);
        if !(d.len() > 0 && same_span(d.last(), x)) {
            let p = |y: SpanView| y.start_line <= x.start_line;
            assert forall|i: int| 0 <= i < rest.len() implies p(#[trigger] rest[i]) by {
                assert(rest[i] == s[i]);
                assert(s[i].start_line <= s[s.len() - 1].start_line);
            }
            lemma_dedup_keeps(rest, p);
            let r = d.push(x);
            assert forall|i: int, j: int| 0 <= i < j < r.len() implies (#[trigger] r[i]).start_line <= (
            #[trigger] r[j]).start_line by {
                assert(r[i] == d[i]);
                if j < d.len() {
                    assert(r[j] == d[j]);
                } else {
                    assert(p(d[i]));
                }
            }
            assert forall|i: int| 0 <= i < r.len() - 1 implies !same_span(#[trigger] r[i], r[i + 1]) by {
                assert(r[i] == d[i]);
                if i + 1 < d.len() {
                    assert(r[i + 1] == d[i + 1]);
                }
            }
        }
    }
}

/// The symbols of a file are ordered by start line, and no two neighbours
/// share both their start line and their name.
pub proof fn lemma_symbol_spans_ordered(path: Seq<char>, content: Seq<char>, bytes: Seq<u8>)
    ensures
        ordered_by_line(symbol_spans_spec(path, content, bytes)),
        no_adjacent_repeats(symbol_spans_spec(path, content, bytes)),
{
    let all = spans_of_results(pattern_results(symbol_patterns(path), content), bytes);
    lemma_sort_by_line_ordered(all);
    lemma_dedup_ordered(sort_by_line(all));
}

fn pattern_table(path: &str) -> (res: Vec<(&'static str, &'static str)>)
    ensures
        res@.map_values(|p: (&str, &str)| (p.0@, p.1@)) == symbol_patterns(path@),
{
    let mut patterns: Vec<(&'static str, &'static str)> = Vec::new();
    patterns.push((r"(?m)^export\s+(?:async\s+)?function\s+([A-Za-z_][A-Za-z0-9_]*)", "function"));
    patterns.push((r"(?m)^export\s+class\s+([A-Za-z_][A-Za-z0-9_]*)", "class"));
    patterns.push((r"(?m)^export\s+const\s+([A-Za-z_][A-Za-z0-9_]*)\s*=", "const"));
    patterns.push((r"(?m)^(?:async\s+)?function\s+([A-Za-z_][A-Za-z0-9_]*)", "function"));
    patterns.push((r"(?m)^def\s+([A-Za-z_][A-Za-z0-9_]*)\s*\(", "function"));
    patterns.push((r"(?m)^class\s+([A-Za-z_][A-Za-z0-9_]*)", "class"));
    let ext = final_extension(path);
    let is_rs = match ext {
        Some(e) => str_eq(e, "rs"),
        None => false,
    };
    let is_go = match ext {
        Some(e) => str_eq(e, "go"),
        None => false,
    };
    if is_rs {
        patterns.push(
            (r"(?m)^\s*(?:pub(?:\([^)]*\))?\s+)?(?:async\s+)?fn\s+([A-Za-z_][A-Za-z0-9_]*)", "function"),
        );
        patterns.push((r"(?m)^\s*(?:pub(?:\([^)]*\))?\s+)?struct\s+([A-Za-z_][A-Za-z0-9_]*)", "struct"));
        patterns.push((r"(?m)^\s*(?:pub(?:\([^)]*\))?\s+)?enum\s+([A-Za-z_][A-Za-z0-9_]*)", "enum"));
        patterns.push((r"(?m)^\s*(?:pub(?:\([^)]*\))?\s+)?trait\s+([A-Za-z_][A-Za-z0-9_]*)", "trait"));
    } else if is_go {
        patterns.push((r"(?m)^\s*func\s+(?:\([^)\n]*\)\s*)?([A-Za-z_][A-Za-z0-9_]*)", "function"));
    }
    assert(res_views_eq(patterns@, path@));
    patterns
}

spec fn res_views_eq(v: Seq<(&str, &str)>, path: Seq<char>) -> bool {
    v.map_values(|p: (&str, &str)| (p.0@, p.1@)) =~= symbol_patterns(path)
}

/// The 1-based line of the byte at `offset` in `bytes`.
fn line_at_exec(bytes: &[u8], offset: usize) -> (res: u32)
    requires
        bytes@.len() < u32::MAX,
    ensures
        res == line_at(bytes@, offset),
{
    let end: usize = if offset <= bytes.len() {
        offset
    } else {
        bytes.len()
    };
    let mut count: u32 = 0;
    let mut i: usize = 0;
    while i < end
        invariant
            end <= bytes@.len() < u32::MAX,
            0 <= i <= end,
            count == newline_count(bytes@.take(i as int)),
            count <= i,
        decreases end - i,
    {
        assert(bytes@.take(i + 1).drop_last() == bytes@.take(i as int));
        if bytes[i] == 10u8 {
            count += 1;
        }
        i += 1;
    }
    count + 1
}

/// Appends the spans of `matches` to `out`.
fn push_match_spans(
    out: &mut Vec<SymbolSpan>,
    matches: &Vec<Option<(String, usize)>>,
    chunk_type: &String,
    bytes: &[u8],
)
    requires
        bytes@.len() < u32::MAX,
    ensures
        span_views(final(out)@) == span_views(old(out)@) + spans_of_matches(
            match_views(matches@),
            chunk_type@,
            bytes@,
        ),
{
    let mut i: usize = 0;
    while i < matches.len()
        invariant
            0 <= i <= matches@.len(),
            bytes@.len() < u32::MAX,
            span_views(out@) == span_views(old(out)@) + spans_of_matches(
                match_views(matches@.take(i as int)),
                chunk_type@,
                bytes@,
            ),
        decreases matches@.len() - i,
    {
        let ghost prev = match_views(matches@.take(i as int));
        let ghost next = match_views(matches@.take(i + 1));
        assert(next.drop_last() =~= prev);
        assert(next.last() == match_views(matches@)[i as int]);
        match &matches[i] {
            Some((name, start)) => {
                let line = line_at_exec(bytes, *start);
                let ghost before = span_views(out@);
                out.push(SymbolSpan { name: name.clone(), chunk_type: chunk_type.clone(), start_line: line });
                assert(span_views(out@) == before.push(out@.last()@));
            },
            None => {},
        }
        i += 1;
    }
    assert(matches@.take(matches@.len() as int) == matches@);
}

/// Inserts `x` after every span whose start line is not greater.
fn insert_span(sorted: &mut Vec<SymbolSpan>, x: SymbolSpan)
    ensures
        span_views(final(sorted)@) == insert_by_line(span_views(old(sorted)@), x@),
{
    let ghost s = span_views(sorted@);
    let mut j: usize = sorted.len();
    assert(s.take(j as int) == s);
    assert(s.skip(j as int).len() == 0);
    while j > 0 && sorted[j - 1].start_line > x.start_line
        invariant
            0 <= j <= sorted@.len(),
            s == span_views(sorted@),
            insert_by_line(s, x@) == insert_by_line(s.take(j as int), x@) + s.skip(j as int),
        decreases j,
    {
        let ghost t = s.take(j as int);
        assert(t.last() == s[j - 1]);
        assert(t.drop_last() == s.take(j - 1));
        assert(s.skip(j - 1) == seq![s[j - 1]] + s.skip(j as int));
        assert(insert_by_line(t, x@) == insert_by_line(s.take(j - 1), x@).push(s[j - 1]));
        assert(insert_by_line(s.take(j - 1), x@).push(s[j - 1]) + s.skip(j as int)
            == insert_by_line(s.take(j - 1), x@) + s.skip(j - 1));
        j -= 1;
    }
    proof {
        if j == 0 {
            assert(s.take(0).len() == 0);
            assert(insert_by_line(s.take(0), x@) == seq![x@]);
        } else {
            assert(s.take(j as int).last() == s[j - 1]);
            assert(insert_by_line(s.take(j as int), x@) == s.take(j as int).push(x@));
        }
    }
    let ghost xv = x@;
    sorted.insert(j, x);
    assert(span_views(sorted@) =~= s.take(j as int).push(xv) + s.skip(j as int));
}

/// The view of one pattern's result.
pub open spec fn found_view(r: (Option<Vec<Option<(String, usize)>>>, String)) -> PatternResult {
    (
        match r.0 {
            Some(v) => Some(match_views(v@)),
            None => None,
        },
        r.1@,
    )
}

/// The views of the pattern results.
pub open spec fn found_views(v: Seq<(Option<Vec<Option<(String, usize)>>>, String)>) -> Seq<PatternResult> {
    v.map_values(|r: (Option<Vec<Option<(String, usize)>>>, String)| found_view(r))
}

/// The symbol spans of a file (see [`symbol_spans_spec`]).
pub fn extract_symbol_spans(path: &str, content: &str) -> (res: Vec<SymbolSpan>)
    requires
        content.spec_bytes().len() < u32::MAX,
    ensures
        span_views(res@) == symbol_spans_spec(path@, content@, content.spec_bytes()),
{
    let bytes = content.as_bytes();
    let patterns = pattern_table(path);
    let ghost pats = patterns@.map_values(|p: (&str, &str)| (p.0@, p.1@));
    let mut results: Vec<(Option<Vec<Option<(String, usize)>>>, String)> = Vec::new();
    let mut k: usize = 0;
    while k < patterns.len()
        invariant
            0 <= k <= patterns@.len(),
            pats == patterns@.map_values(|p: (&str, &str)| (p.0@, p.1@)),
            found_views(results@) == pattern_results(pats, content@).take(k as int),
        decreases patterns@.len() - k,
    {
        let (pattern, chunk_type) = patterns[k];
        assert(pats[k as int] == (pattern@, chunk_type@));
        let found = capture_matches(pattern, content);
        let ghost before = found_views(results@);
        results.push((found, chunk_type.to_owned()));
        assert(found_views(results@) =~= before.push(pattern_results(pats, content@)[k as int]));
        assert(pattern_results(pats, content@).take(k + 1) =~= pattern_results(pats, content@).take(
            k as int,
        ).push(pattern_results(pats, content@)[k as int]));
        k += 1;
    }
    assert(pattern_results(pats, content@).take(k as int) =~= pattern_results(pats, content@));
    spans_from_matches(&results, bytes)
}

/// The spans that the pattern results give (see [`spans_of_found`]).
pub fn spans_from_matches(results: &Vec<(Option<Vec<Option<(String, usize)>>>, String)>, bytes: &[u8]) -> (res:
    Vec<SymbolSpan>)
    requires
        bytes@.len() < u32::MAX,
    ensures
        span_views(res@) == spans_of_found(found_views(results@), bytes@),
{
    let ghost fv = found_views(results@);
    let mut raw: Vec<SymbolSpan> = Vec::new();
    let mut k: usize = 0;
    assert(span_views(raw@) =~= Seq::<SpanView>::empty());
    while k < results.len()
        invariant
            0 <= k <= results@.len(),
            fv == found_views(results@),
            bytes@.len() < u32::MAX,
            span_views(raw@) == spans_of_results(fv.take(k as int), bytes@),
        decreases results@.len() - k,
    {
        let ghost prev = fv.take(k as int);
        let ghost next = fv.take(k + 1);
        assert(next.drop_last() =~= prev);
        assert(next.last() == found_view(results@[k as int]));
        match &results[k].0 {
            Some(m) => {
                push_match_spans(&mut raw, m, &results[k].1, bytes);
            },
            None => {},
        }
        k += 1;
    }
    assert(fv.take(results@.len() as int) == fv);
    let ghost raw_v = span_views(raw@);
    // Stable sort by start line.
    let mut sorted: Vec<SymbolSpan> = Vec::new();
    assert(span_views(sorted@) =~= Seq::<SpanView>::empty());
    let mut i: usize = 0;
    assert(raw_v.take(0) =~= Seq::<SpanView>::empty());
    while i < raw.len()
        invariant
            0 <= i <= raw@.len(),
            raw_v == span_views(raw@),
            span_views(sorted@) == sort_by_line(raw_v.take(i as int)),
        decreases raw@.len() - i,
    {
        proof {
            assert(raw_v.take(i + 1).drop_last() =~= raw_v.take(i as int));
            assert(raw_v.take(i + 1).last() == raw_v[i as int]);
        }
        let x = raw[i].duplicate();
        insert_span(&mut sorted, x);
        i += 1;
    }
    assert(raw_v.take(i as int) =~= raw_v);
    // Collapse equal neighbours.
    let ghost sv = span_views(sorted@);
    let mut out: Vec<SymbolSpan> = Vec::new();
    let mut j: usize = 0;
    assert(span_views(out@) =~= Seq::<SpanView>::empty());
    assert(sv.take(0) =~= Seq::<SpanView>::empty());
    while j < sorted.len()
        invariant
            0 <= j <= sorted@.len(),
            sv == span_views(sorted@),
            span_views(out@) == dedup_spans(sv.take(j as int)),
        decreases sorted@.len() - j,
    {
        proof {
            assert(sv.take(j + 1).drop_last() =~= sv.take(j as int));
            assert(sv.take(j + 1).last() == sv[j as int]);
        }
        let n = out.len();
        let dup = n > 0 && out[n - 1].start_line == sorted[j].start_line && out[n - 1].name == sorted[j].name;
        if !dup {
            let ghost before = span_views(out@);
            let x = sorted[j].duplicate();
            out.push(x);
            assert(span_views(out@) == before.push(sv[j as int]));
        } else {
            assert(span_views(out@).last() == out@[n - 1]@);
        }
        j += 1;
    }
    assert(sv.take(j as int) =~= sv);
    out
}

// ---------------------------------------------------------------------------
// Chunks
// ---------------------------------------------------------------------------

/// `/`, `.` and `-` in a path become spaces.
pub open spec fn path_context(path: Seq<char>) -> Seq<char> {
    path.map_values(|c: char| if c == '/' || c == '.' || c == '-' { ' ' } else { c })
}

/// The number of lines of a file, at least 1.
pub open spec fn total_lines(content: Seq<char>) -> u32 {
    let n = lines_of(content).len();
    if n == 0 {
        1u32
    } else {
        n as u32
    }
}

/// The chunk of a file without symbols.
pub open spec fn file_chunk(path: Seq<char>, content: Seq<char>) -> ChunkView {
    ChunkView {
        path,
        start_line: 1,
        end_line: total_lines(content),
        text: content,
        tokens: tokens_of(path_context(path) + seq![' '] + content),
        symbol_name: None,
        chunk_type: file_chunk_type(),
    }
}

/// The lines before the first symbol, joined with `\n`.
pub open spec fn preamble(lines: Seq<Seq<char>>, spans: Seq<SpanView>) -> Seq<char> {
    let first = spans[0].start_line as int;
    let n = if first >= 1 {
        first - 1
    } else {
        0
    };
    let m = if n <= lines.len() {
        n
    } else {
        lines.len() as int
    };
    joined(lines.take(m), seq!['\n'])
}

/// The last line of symbol `i`'s chunk: the line before the next symbol, or
/// the last line of the file; never before the symbol's own line.
pub open spec fn span_end(spans: Seq<SpanView>, i: int, total: u32) -> u32 {
    let end: u32 = if i + 1 < spans.len() {
        if spans[i + 1].start_line >= 1 {
            (spans[i + 1].start_line - 1) as u32
        } else {
            0u32
        }
    } else {
        total
    };
    if end >= spans[i].start_line {
        end
    } else {
        spans[i].start_line
    }
}

/// Lines `[start-1, end)` joined with `\n`; empty when that range is not within the file.
pub open spec fn snippet(lines: Seq<Seq<char>>, start: u32, end: u32) -> Seq<char> {
    let a: int = if start >= 1 {
        start - 1
    } else {
        0
    };
    if a <= end && end <= lines.len() {
        joined(lines.subrange(a, end as int), seq!['\n'])
    } else {
        seq![]
    }
}

/// The chunk of symbol `i`.
pub open spec fn symbol_chunk(path: Seq<char>, content: Seq<char>, spans: Seq<SpanView>, i: int) -> ChunkView {
    let lines = lines_of(content);
    let end = span_end(spans, i, total_lines(content));
    let pre = preamble(lines, spans);
    let snip = snippet(lines, spans[i].start_line, end);
    let text = if pre.len() == 0 {
        snip
    } else {
        pre + seq!['\n'] + snip
    };
    ChunkView {
        path,
        start_line: spans[i].start_line,
        end_line: end,
        text,
        tokens: tokens_of(path_context(path) + seq![' '] + spans[i].name + seq![' '] + text),
        symbol_name: Some(spans[i].name),
        chunk_type: spans[i].chunk_type,
    }
}

/// The chunks of a file, given its symbol spans.
pub open spec fn chunks_spec(path: Seq<char>, content: Seq<char>, spans: Seq<SpanView>) -> Seq<ChunkView> {
    if spans.len() == 0 {
        seq![file_chunk(path, content)]
    } else {
        Seq::new(spans.len(), |i: int| symbol_chunk(path, content, spans, i))
    }
}

proof fn lemma_lines_after_bound(s: Seq<char>, cur: Seq<char>)
    ensures
        lines_after(s, cur).len() <= s.len() + if cur.len() > 0 {
            1int
        } else {
            0int
        },
    decreases s.len(),
{
    if s.len() > 0 {
        if s[0] == '\n' {
            lemma_lines_after_bound(s.drop_first(), seq![]);
        } else {
            lemma_lines_after_bound(s.drop_first(), cur.push(s[0]));
        }
    }
}

/// The chunks of a file: each starts no later than it ends; they come in
/// start-line order; and with symbols, none starts before the first symbol,
/// so the preamble lines lie in no chunk.
pub proof fn lemma_file_chunk_lines(path: Seq<char>, content: Seq<char>, bytes: Seq<u8>)
    requires
        content.len() < u32::MAX,
    ensures
        ({
            let spans = symbol_spans_spec(path, content, bytes);
            let chunks = chunks_spec(path, content, spans);
            &&& forall|i: int| 0 <= i < chunks.len() ==> (#[trigger] chunks[i]).start_line <= chunks[i].end_line
            &&& forall|i: int, j: int|
                0 <= i < j < chunks.len() ==> (#[trigger] chunks[i]).start_line <= (#[trigger] chunks[j]).start_line
            &&& spans.len() > 0 ==> forall|i: int|
                0 <= i < chunks.len() ==> spans[0].start_line <= (#[trigger] chunks[i]).start_line
        }),
{
    let spans = symbol_spans_spec(path, content, bytes);
    let chunks = chunks_spec(path, content, spans);
    lemma_symbol_spans_ordered(path, content, bytes);
    if spans.len() == 0 {
        lemma_lines_after_bound(content, seq![]);
        assert(chunks[0].end_line >= 1);
    } else {
        assert forall|i: int| 0 <= i < chunks.len() implies (#[trigger] chunks[i]).start_line <= chunks[i].end_line by {
            assert(chunks[i] == symbol_chunk(path, content, spans, i));
        }
        assert forall|i: int, j: int| 0 <= i < j < chunks.len() implies (#[trigger] chunks[i]).start_line <= (
        #[trigger] chunks[j]).start_line by {
            assert(chunks[i] == symbol_chunk(path, content, spans, i));
            assert(chunks[j] == symbol_chunk(path, content, spans, j));
        }
        assert forall|i: int| 0 <= i < chunks.len() implies spans[0].start_line <= (
        #[trigger] chunks[i]).start_line by {
            assert(chunks[i] == symbol_chunk(path, content, spans, i));
            if i > 0 {
                assert(spans[0].start_line <= spans[i].start_line);
            }
        }
    }
}

/// The tokens of a path's context, then those of what follows a space.
proof fn lemma_context_tokens_first(path: Seq<char>, rest: Seq<char>)
    ensures
        tokens_of(path_context(path) + seq![' '] + rest) == tokens_of(path_context(path)) + tokens_of(rest),
{
    let y = seq![' '] + rest;
    assert(path_context(path) + seq![' '] + rest =~= path_context(path) + y);
    assert(y.drop_first() =~= rest);
    lemma_tokens_split(path_context(path), y, seq![]);
}

/// Every chunk of a file starts with the tokens of its path (the path with
/// `/`, `.` and `-` read as spaces), so a query for a word of the path hits
/// every chunk of that file.
pub proof fn lemma_chunks_hold_path_tokens(path: Seq<char>, content: Seq<char>, spans: Seq<SpanView>)
    ensures
        forall|i: int|
            0 <= i < chunks_spec(path, content, spans).len() ==> {
                let t = (#[trigger] chunks_spec(path, content, spans)[i]).tokens;
                &&& tokens_of(path_context(path)).len() <= t.len()
                &&& t.take(tokens_of(path_context(path)).len() as int) == tokens_of(path_context(path))
            },
{
    let chunks = chunks_spec(path, content, spans);
    let ctx = tokens_of(path_context(path));
    assert forall|i: int| 0 <= i < chunks.len() implies {
        let t = (#[trigger] chunks[i]).tokens;
        &&& ctx.len() <= t.len()
        &&& t.take(ctx.len() as int) == ctx
    } by {
        if spans.len() == 0 {
            lemma_context_tokens_first(path, content);
            assert(chunks[i] == file_chunk(path, content));
            assert((ctx + tokens_of(content)).take(ctx.len() as int) =~= ctx);
        } else {
            let c = symbol_chunk(path, content, spans, i);
            assert(chunks[i] == c);
            let text = c.text;
            let rest = spans[i].name + seq![' '] + text;
            assert(path_context(path) + seq![' '] + spans[i].name + seq![' '] + text =~= path_context(path)
                + seq![' '] + rest);
            lemma_context_tokens_first(path, rest);
            assert((ctx + tokens_of(rest)).take(ctx.len() as int) =~= ctx);
        }
    }
}

fn path_context_exec(path: &str) -> (res: String)
    ensures
        res@ == path_context(path@),
{
    let chars = chars_of(path);
    let mut out = String::new();
    let mut i: usize = 0;
    while i < chars.len()
        invariant
            0 <= i <= chars@.len(),
            chars@ == path@,
            out@ == path_context(chars@.take(i as int)),
        decreases chars@.len() - i,
    {
        let c = chars[i];
        if c == '/' || c == '.' || c == '-' {
            push_char(&mut out, ' ');
        } else {
            push_char(&mut out, c);
        }
        assert(path_context(chars@.take(i + 1)) =~= path_context(chars@.take(i as int)).push(
            if c == '/' || c == '.' || c == '-' { ' ' } else { c },
        ));
        i += 1;
    }
    assert(chars@.take(chars@.len() as int) == chars@);
    out
}

/// The chunks of a file given its symbol spans (see [`chunks_spec`]).
pub fn chunks_from_spans(path: &str, content: &str, spans: &Vec<SymbolSpan>) -> (res: Vec<Chunk>)
    requires
        content@.len() < u32::MAX,
    ensures
        chunk_views(res@) == chunks_spec(path@, content@, span_views(spans@)),
{
    let lines = lines_exec(content);
    proof {
        lemma_lines_len(content@);
    }
    let n_lines: usize = lines.len();
    let total: u32 = if n_lines == 0 {
        1
    } else {
        n_lines as u32
    };
    assert(total == total_lines(content@));
    let context = path_context_exec(path);
    if spans.len() == 0 {
        let mut body = context.clone();
        push_char(&mut body, ' ');
        push_str(&mut body, content);
        let chunk = Chunk {
            path: path.to_owned(),
            start_line: 1,
            end_line: total,
            text: content.to_owned(),
            tokens: tokenize(body.as_str()),
            symbol_name: None,
            chunk_type: crate::index::default_chunk_type(),
        };
        let mut res: Vec<Chunk> = Vec::new();
        assert(body@ =~= path_context(path@) + seq![' '] + content@);
        assert(chunk@ == file_chunk(path@, content@));
        res.push(chunk);
        assert(chunk_views(res@) =~= chunks_spec(path@, content@, span_views(spans@)));
        return res;
    }
    let ghost sv = span_views(spans@);
    let ghost lv = lines_of(content@);
    let first = spans[0].start_line;
    let pre_n: usize = if first >= 1 {
        (first - 1) as usize
    } else {
        0
    };
    let pre_m: usize = if pre_n <= n_lines {
        pre_n
    } else {
        n_lines
    };
    let pre = join_exec(&lines, 0, pre_m, "\n");
    proof {
        reveal_strlit("\n");
        assert("\n"@ =~= seq!['\n']);
        assert(lines@.subrange(0, pre_m as int) == lines@.take(pre_m as int));
        assert(views(lines@.take(pre_m as int)) =~= lv.take(pre_m as int));
        assert(pre@ == preamble(lv, sv));
    }
    let pre_len: usize = pre.as_str().unicode_len();
    let mut res: Vec<Chunk> = Vec::new();
    let mut i: usize = 0;
    while i < spans.len()
        invariant
            0 <= i <= spans@.len(),
            sv == span_views(spans@),
            lv == lines_of(content@),
            views(lines@) == lv,
            n_lines == lines@.len(),
            total == total_lines(content@),
            spans@.len() > 0,
            pre@ == preamble(lv, sv),
            pre_len == pre@.len(),
            context@ == path_context(path@),
            chunk_views(res@) == Seq::new(i as nat, |k: int| symbol_chunk(path@, content@, sv, k)),
        decreases spans@.len() - i,
    {
        let span = &spans[i];
        assert(sv[i as int] == span@);
        let end_raw: u32 = if i + 1 < spans.len() {
            let next = spans[i + 1].start_line;
            assert(sv[i + 1] == spans@[i + 1]@);
            if next >= 1 {
                next - 1
            } else {
                0
            }
        } else {
            total
        };
        let end: u32 = if end_raw >= span.start_line {
            end_raw
        } else {
            span.start_line
        };
        assert(end == span_end(sv, i as int, total));
        let a: usize = if span.start_line >= 1 {
            (span.start_line - 1) as usize
        } else {
            0
        };
        let snip = if a <= end as usize && end as usize <= n_lines {
            let s = join_exec(&lines, a, end as usize, "\n");
            proof {
                reveal_strlit("\n");
                assert("\n"@ =~= seq!['\n']);
                assert(views(lines@.subrange(a as int, end as int)) =~= lv.subrange(a as int, end as int));
            }
            s
        } else {
            String::new()
        };
        assert(snip@ == snippet(lv, span.start_line, end));
        let text = if pre_len == 0 {
            snip
        } else {
            let mut t = pre.clone();
            push_char(&mut t, '\n');
            push_str(&mut t, snip.as_str());
            assert(t@ =~= pre@ + seq!['\n'] + snip@);
            t
        };
        assert(text@ == (if pre@.len() == 0 { snip@ } else { pre@ + seq!['\n'] + snip@ }));
        let mut body = context.clone();
        push_char(&mut body, ' ');
        push_str(&mut body, span.name.as_str());
        push_char(&mut body, ' ');
        push_str(&mut body, text.as_str());
        assert(body@ =~= path_context(path@) + seq![' '] + span.name@ + seq![' '] + text@);
        let tokens = tokenize(body.as_str());
        let chunk = Chunk {
            path: path.to_owned(),
            start_line: span.start_line,
            end_line: end,
            text,
            tokens,
            symbol_name: Some(span.name.clone()),
            chunk_type: span.chunk_type.clone(),
        };
        let ghost before = chunk_views(res@);
        let ghost cv = chunk@;
        proof {
            assert(chunk@ == symbol_chunk(path@, content@, sv, i as int));
        }
        res.push(chunk);
        assert(chunk_views(res@) =~= before.push(cv));
        assert(chunk_views(res@) =~= Seq::new((i + 1) as nat, |k: int| symbol_chunk(path@, content@, sv, k)));
        i += 1;
    }
    assert(chunk_views(res@) =~= chunks_spec(path@, content@, sv));
    res
}

proof fn lemma_lines_after_len(s: Seq<char>, cur: Seq<char>)
    ensures
        crate::text::lines_after(s, cur).len() <= s.len() + 1,
    decreases s.len(),
{
    if s.len() > 0 {
        lemma_lines_after_len(s.drop_first(), seq![]);
        lemma_lines_after_len(s.drop_first(), cur.push(s[0]));
    }
}

proof fn lemma_lines_len(s: Seq<char>)
    ensures
        lines_of(s).len() <= s.len() + 1,
{
    lemma_lines_after_len(s, seq![]);
}

/// The chunks of a file: its symbol spans, then the chunks cut at them.
pub fn chunk_file(path: &str, content: &str) -> (res: Vec<Chunk>)
    requires
        content@.len() < u32::MAX,
        content.spec_bytes().len() < u32::MAX,
    ensures
        chunk_views(res@) == chunks_spec(
            path@,
            content@,
            symbol_spans_spec(path@, content@, content.spec_bytes()),
        ),
{
    let spans = extract_symbol_spans(path, content);
    chunks_from_spans(path, content, &spans)
}

} // verus!
