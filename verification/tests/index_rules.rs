use coderag::index::{
    final_extension, index_path, index_path_for_read, is_indexable_extension, join_path_exec,
    legacy_index_path, should_skip, Chunk, IndexMode, SearchOptions,
};
use coderag::ranking::{search_candidates, SearchIndex};
use coderag::refresh::admit_file;
use coderag::tokenize::tokenize;

#[test]
fn refresh_mode_string_parses_as_auto() {
    assert_eq!(IndexMode::parse("refresh"), IndexMode::Auto);
    assert_eq!(IndexMode::parse("full"), IndexMode::Full);
    assert_eq!(IndexMode::parse("auto"), IndexMode::Auto);
}

#[test]
fn final_extension_is_exact_and_case_sensitive() {
    assert_eq!(final_extension("src/a.ts"), Some("ts"));
    assert_eq!(final_extension("src/a.tsx"), Some("tsx"));
    assert_eq!(final_extension("src/a.js"), Some("js"));
    assert_eq!(final_extension("src/a.jsx"), Some("jsx"));
    assert_eq!(final_extension("src/a.h"), Some("h"));
    assert_eq!(final_extension("src/a.sh"), Some("sh"));
    assert_eq!(final_extension(r"src\a.sh"), Some("sh"));
    assert_eq!(final_extension("src/a.TS"), Some("TS"));
    assert_ne!(final_extension("src/a.sh"), Some("h"));
    assert_ne!(final_extension("src/a.tsx"), Some("ts"));
}

fn file_chunk(path: &str, text: &str) -> Chunk {
    Chunk {
        path: path.to_string(),
        start_line: 1,
        end_line: 1,
        text: text.to_string(),
        tokens: tokenize(text),
        symbol_name: None,
        chunk_type: "file".to_string(),
    }
}

#[test]
fn extension_filter_does_not_treat_sh_as_h() {
    let chunks = vec![
        file_chunk("include/widget.h", "headerterm"),
        file_chunk("scripts/widget.sh", "headerterm"),
    ];
    let index = SearchIndex { root: "/tmp".to_string(), chunks, doc_freq: Vec::new() };
    let hits = search_candidates(
        &index,
        "headerterm",
        &SearchOptions { file_extensions: vec!["h".to_string()], ..SearchOptions::limit_only(10) },
    );
    assert_eq!(hits.len(), 1);
    assert!(hits[0].path.ends_with(".h"));
    assert!(!hits[0].path.ends_with(".sh"));
}

#[test]
fn final_extension_edge_cases() {
    assert_eq!(final_extension("Makefile"), None);
    assert_eq!(final_extension("src/.gitignore"), None);
    assert_eq!(final_extension("file.tar.ts"), Some("ts"));
    assert_eq!(final_extension("dir.d/file"), None);
    assert_eq!(final_extension("a."), None);
}

#[test]
fn indexed_extensions_are_the_documented_ten() {
    for ok in ["a.ts", "a.tsx", "a.js", "a.jsx", "a.mjs", "a.cjs", "a.rs", "a.md", "a.py", "a.go"] {
        assert!(is_indexable_extension(ok), "{ok}");
    }
    for no in ["a.json", "a.h", "a.sh", "a.TS", "a.yaml", "README"] {
        assert!(!is_indexable_extension(no), "{no}");
    }
}

#[test]
fn skip_rule_matches_whole_segments_only() {
    assert!(should_skip("node_modules/x/index.js"));
    assert!(should_skip("src/dist/a.ts"));
    assert!(should_skip("crate/target/debug/build.rs"));
    assert!(should_skip(".git/hooks/pre-commit.py"));
    assert!(!should_skip("src/target.rs"));
    assert!(!should_skip("src/distance.ts"));
    assert!(!should_skip("my_node_modules/a.ts"));
}

#[test]
fn admit_file_checks_skip_extension_and_size() {
    assert!(admit_file("src/a.ts", Some(10), 1_048_576));
    assert!(admit_file("src/a.ts", Some(1_048_576), 1_048_576));
    assert!(!admit_file("src/a.ts", Some(1_048_577), 1_048_576));
    assert!(admit_file("src/a.ts", None, 1));
    assert!(!admit_file("dist/a.ts", Some(1), 1_048_576));
    assert!(!admit_file("src/a.json", Some(1), 1_048_576));
}

#[test]
fn snapshot_paths_join_like_paths() {
    assert_eq!(index_path("/tmp/repo"), "/tmp/repo/.locus/rust-index.json");
    assert_eq!(index_path("/tmp/repo/"), "/tmp/repo/.locus/rust-index.json");
    assert_eq!(legacy_index_path("/tmp/repo"), "/tmp/repo/.coderag/rust-index.json");
    assert_eq!(index_path_for_read("/r", true, true), "/r/.locus/rust-index.json");
    assert_eq!(index_path_for_read("/r", false, true), "/r/.coderag/rust-index.json");
    assert_eq!(index_path_for_read("/r", false, false), "/r/.locus/rust-index.json");
    assert_eq!(join_path_exec("", "a"), "a");
}

#[test]
fn limit_only_sets_no_filters() {
    let options = SearchOptions::limit_only(7);
    assert_eq!(options.limit, 7);
    assert!(options.include_content);
    assert!(options.file_extensions.is_empty());
    assert!(options.path_filter.is_none());
    assert!(options.exclude_paths.is_empty());
}
