use coderag::index::{Chunk, IndexMode, SearchOptions};
use coderag::ranking::{rebuild_doc_freq, search_candidates, SearchIndex};
use coderag::refresh::{
    admit_file, apply_refresh, index_from_files, plan_refresh, refresh_action, IndexStats, RefreshAction, SearchStats,
};
use coderag::related::find_related_index;

fn index_of(chunks: Vec<Chunk>) -> SearchIndex {
    SearchIndex { root: "/r".to_string(), chunks, doc_freq: Vec::new() }
}
use coderag::tokenize::tokenize;

fn repo() -> SearchIndex {
    let files = vec![
        ("ext/a.ts", "export function extmarker() { return 1 }\n"),
        ("ext/a.tsx", "export function extmarker() { return 1 }\n"),
        ("ext/a.js", "export function extmarker() { return 1 }\n"),
        ("ext/a.jsx", "export function extmarker() { return 1 }\n"),
        ("ext/a.h", "int extmarker;\n"),
        ("ext/a.sh", "extmarker\n"),
        ("Src/Auth.ts", "export function markerpath() { return 1 }\n"),
        ("df/a.ts", "export function alpha() { sharedterm }\n"),
        ("df/b.ts", "export function beta() { sharedterm }\n"),
        ("df/c.ts", "export function gamma() { otherterm }\n"),
        ("node_modules/x/index.ts", "export function extmarker() {}\n"),
    ];
    let mut paths = Vec::new();
    let mut contents = Vec::new();
    for (p, c) in files {
        if admit_file(p, Some(c.len() as u64), 1_048_576) {
            paths.push(p.to_string());
            contents.push(c.to_string());
        }
    }
    index_from_files("/repo".to_string(), &paths, &contents)
}

fn with_ext(ext: &str) -> SearchOptions {
    SearchOptions { file_extensions: vec![ext.to_string()], ..SearchOptions::limit_only(10) }
}

#[test]
fn build_keeps_only_indexed_files() {
    let index = repo();
    assert!(index.chunks.iter().all(|c| !c.path.ends_with(".h") && !c.path.ends_with(".sh")));
    assert!(index.chunks.iter().all(|c| !c.path.starts_with("node_modules")));
    assert_eq!(index.chunks.len(), 8);
    assert_eq!(index.root, "/repo");
}

#[test]
fn extension_filters_use_the_final_extension() {
    let index = repo();
    let only = |ext: &str, suffix: &str| {
        let hits = search_candidates(&index, "extmarker", &with_ext(ext));
        assert_eq!(hits.len(), 1, "{ext}");
        assert!(hits[0].path.ends_with(suffix), "{} -> {}", ext, hits[0].path);
    };
    only("ts", "ext/a.ts");
    only(".ts", "ext/a.ts");
    only("tsx", "ext/a.tsx");
    only("js", "ext/a.js");
    only("jsx", "ext/a.jsx");
    assert!(search_candidates(&index, "extmarker", &with_ext("TS")).is_empty());
    assert!(search_candidates(&index, "extmarker", &with_ext("h")).is_empty());
    assert_eq!(search_candidates(&index, "extmarker", &SearchOptions::limit_only(10)).len(), 4);
}

#[test]
fn path_filters_are_case_sensitive_substrings() {
    let index = repo();
    let auth = |filter: &str| {
        search_candidates(
            &index,
            "markerpath",
            &SearchOptions { path_filter: Some(filter.to_string()), ..SearchOptions::limit_only(10) },
        )
    };
    assert!(auth("auth").is_empty());
    assert_eq!(auth("Auth").len(), 1);
    assert_eq!(auth(r"Src\Auth").len(), 1);
    let excluded = search_candidates(
        &index,
        "markerpath",
        &SearchOptions { exclude_paths: vec!["Auth".to_string()], ..SearchOptions::limit_only(10) },
    );
    assert!(excluded.is_empty());
}

#[test]
fn content_flag_only_drops_snippets() {
    let index = repo();
    let shown = search_candidates(&index, "markerpath", &SearchOptions::limit_only(10));
    assert_eq!(shown.len(), 1);
    assert!(shown[0].snippet.as_ref().unwrap().contains("markerpath"));
    let hidden = search_candidates(
        &index,
        "markerpath",
        &SearchOptions { include_content: false, ..SearchOptions::limit_only(10) },
    );
    assert_eq!(hidden.len(), 1);
    assert!(hidden[0].snippet.is_none());
    assert_eq!(hidden[0].path, shown[0].path);
}

#[test]
fn document_frequency_comes_from_the_whole_index() {
    let index = repo();
    let hits = search_candidates(
        &index,
        "sharedterm",
        &SearchOptions { path_filter: Some("df/a.ts".to_string()), ..SearchOptions::limit_only(10) },
    );
    assert_eq!(hits.len(), 1);
    let stat = hits[0].stats.iter().find(|s| s.term == "sharedterm").unwrap();
    assert_eq!(stat.document_frequency, 2);
    assert_eq!(stat.term_frequency, 1);
    assert_eq!(hits[0].matched_terms, vec!["sharedterm"]);
}

#[test]
fn queries_without_tokens_find_nothing() {
    let index = repo();
    assert!(search_candidates(&index, "...", &SearchOptions::limit_only(10)).is_empty());
    assert!(search_candidates(&index, "a", &SearchOptions::limit_only(10)).is_empty());
}

fn chunk(path: &str, start: u32, end: u32, text: &str) -> Chunk {
    Chunk {
        path: path.to_string(),
        start_line: start,
        end_line: end,
        text: text.to_string(),
        tokens: tokenize(text),
        symbol_name: None,
        chunk_type: "file".to_string(),
    }
}

#[test]
fn document_frequency_counts_each_chunk_once() {
    let chunks = vec![chunk("a", 1, 1, "xx xx yy"), chunk("b", 1, 1, "xx zz")];
    let df = rebuild_doc_freq(&chunks);
    let get = |t: &str| df.iter().find(|(k, _)| k == t).map(|(_, v)| *v);
    assert_eq!(get("xx"), Some(2));
    assert_eq!(get("yy"), Some(1));
    assert_eq!(get("zz"), Some(1));
    assert_eq!(df.len(), 3);
}

#[test]
fn related_hits_rank_by_overlap_then_path() {
    let chunks = vec![
        chunk("seed.ts", 1, 10, "alpha beta gamma"),
        chunk("z.ts", 1, 5, "alpha delta"),
        chunk("b.ts", 1, 5, "alpha delta"),
        chunk("c.ts", 1, 5, "alpha beta gamma"),
        chunk("d.ts", 1, 5, "omega"),
    ];
    let idx = index_of(chunks);
    let hits = find_related_index(&idx, "seed.ts", 4, 10);
    let paths: Vec<_> = hits.iter().map(|h| h.path.as_str()).collect();
    assert_eq!(paths, vec!["c.ts", "b.ts", "z.ts"]);
    assert_eq!((hits[0].overlap, hits[0].union), (3, 3));
    assert_eq!((hits[1].overlap, hits[1].union), (1, 4));
    assert_eq!(hits[0].matched_terms, vec!["alpha", "beta", "gamma"]);
    let one = find_related_index(&idx, "seed.ts", 4, 0);
    assert_eq!(one.len(), 1);
    assert!(find_related_index(&idx, "seed.ts", 11, 10).is_empty());
    assert!(find_related_index(&idx, "missing.ts", 1, 10).is_empty());
}

#[test]
fn repeated_shared_tokens_can_score_above_one() {
    let idx = index_of(vec![chunk("s.ts", 1, 1, "aa"), chunk("t.ts", 1, 1, "aa aa aa")]);
    let hits = find_related_index(&idx, "s.ts", 1, 10);
    assert_eq!(hits.len(), 1);
    assert_eq!((hits[0].overlap, hits[0].union), (3, 1));
}

fn pairs(v: &[(&str, &str)]) -> Vec<(String, String)> {
    v.iter().map(|(a, b)| (a.to_string(), b.to_string())).collect()
}

#[test]
fn unchanged_inventory_is_a_cache_hit() {
    let inv = pairs(&[("a.ts", "h1"), ("b.ts", "h2")]);
    let stored = pairs(&[("b.ts", "h2"), ("a.ts", "h1")]);
    let plan = plan_refresh(&inv, &stored);
    assert!(plan.cache_hit);
    assert!(plan.changed.is_empty());
    assert!(plan.removed.is_empty());
}

#[test]
fn plan_lists_changed_and_removed_files() {
    let inv = pairs(&[("a.ts", "h1"), ("b.ts", "new"), ("c.ts", "h3")]);
    let stored = pairs(&[("a.ts", "h1"), ("b.ts", "old"), ("d.ts", "h4")]);
    let plan = plan_refresh(&inv, &stored);
    assert!(!plan.cache_hit);
    let mut changed = plan.changed.clone();
    changed.sort();
    assert_eq!(changed, vec!["b.ts", "c.ts"]);
    assert_eq!(plan.removed, vec!["d.ts"]);
}

#[test]
fn refresh_rechunks_changed_files_and_drops_removed_ones() {
    let paths = vec!["a.ts".to_string(), "b.ts".to_string(), "d.ts".to_string()];
    let contents = vec![
        "export function keep() {}\n".to_string(),
        "export function before() {}\n".to_string(),
        "export function gone() {}\n".to_string(),
    ];
    let index = index_from_files("/r".to_string(), &paths, &contents);
    let refreshed = apply_refresh(
        &index,
        &vec!["b.ts".to_string()],
        &vec!["d.ts".to_string()],
        &vec!["export function after() {}\n".to_string()],
    );
    let names: Vec<_> = refreshed.chunks.iter().filter_map(|c| c.symbol_name.clone()).collect();
    assert_eq!(names, vec!["keep", "after"]);
    assert!(refreshed.doc_freq.iter().any(|(t, n)| t == "after" && *n == 1));
    assert!(!refreshed.doc_freq.iter().any(|(t, _)| t == "before" || t == "gone"));
}

#[test]
fn stats_name_the_refresh_mode() {
    assert_eq!(IndexStats::full(3, 5, 7).refresh_mode, "full");
    assert_eq!(IndexStats::full(3, 5, 7).files_changed, 3);
    assert_eq!(IndexStats::cache_hit(3, 5, 7).refresh_mode, "cache_hit");
    assert_eq!(IndexStats::cache_hit(3, 5, 7).files_changed, 0);
    let inc = IndexStats::incremental(3, 5, 7, 2, 1);
    assert_eq!((inc.refresh_mode.as_str(), inc.files_changed, inc.files_removed), ("incremental", 2, 1));
    assert_eq!(SearchStats::ranked(4).route, "rust-tfidf");
}

#[test]
fn refresh_action_follows_mode_snapshot_and_plan() {
    let hit = plan_refresh(&pairs(&[("a.ts", "h")]), &pairs(&[("a.ts", "h")]));
    let miss = plan_refresh(&pairs(&[("a.ts", "h")]), &pairs(&[("a.ts", "g")]));
    assert_eq!(refresh_action(IndexMode::Full, Some(&hit), true), RefreshAction::Build);
    assert_eq!(refresh_action(IndexMode::Auto, None, true), RefreshAction::Build);
    assert_eq!(refresh_action(IndexMode::Auto, Some(&hit), true), RefreshAction::Reuse { copy_forward: false });
    assert_eq!(refresh_action(IndexMode::Auto, Some(&hit), false), RefreshAction::Reuse { copy_forward: true });
    assert_eq!(refresh_action(IndexMode::Auto, Some(&miss), true), RefreshAction::Incremental);
}
