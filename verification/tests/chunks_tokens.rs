use coderag::chunking::{chunk_file, extract_symbol_spans, spans_from_matches};
use coderag::tokenize::{tokenize, unique_terms};

#[test]
fn tokens_are_lowercase_word_runs_longer_than_one() {
    assert_eq!(tokenize("Hello, World_1 a bb"), vec!["hello", "world_1", "bb"]);
    assert_eq!(tokenize("...a"), Vec::<String>::new());
    assert_eq!(tokenize("fooBar9-x_y"), vec!["foobar9", "x_y"]);
    assert_eq!(tokenize("héllo"), vec!["llo"]);
    for t in tokenize("Some MIXED_case text, with 42 numbers & x") {
        assert!(t.len() > 1);
        assert!(t.chars().all(|c| c.is_ascii_lowercase() || c.is_ascii_digit() || c == '_'));
    }
}

#[test]
fn unique_terms_keep_first_occurrences() {
    let tokens = tokenize("b a_ b c a_ bb");
    assert_eq!(tokens, vec!["a_", "a_", "bb"]);
    assert_eq!(unique_terms(&tokens), vec!["a_", "bb"]);
    assert_eq!(unique_terms(&vec!["x".to_string(), "yy".to_string(), "x".to_string()]), vec!["x", "yy"]);
}

#[test]
fn typescript_only_column_zero_patterns() {
    let chunks = chunk_file("paint.ts", "fn paint() { return 1 }\nexport function render() { return 2 }\n");
    assert_eq!(chunks.len(), 1);
    assert_eq!(chunks[0].symbol_name.as_deref(), Some("render"));
    assert_eq!(chunks[0].chunk_type, "function");
    assert_eq!((chunks[0].start_line, chunks[0].end_line), (2, 2));
    assert_eq!(chunks[0].text, "fn paint() { return 1 }\nexport function render() { return 2 }");

    let only = chunk_file("only-paint.ts", "fn paint() { return 1 }\n");
    assert_eq!(only.len(), 1);
    assert_eq!(only[0].symbol_name, None);
    assert_eq!(only[0].chunk_type, "file");
    assert_eq!((only[0].start_line, only[0].end_line), (1, 1));
    assert!(only[0].tokens.contains(&"paint".to_string()));
    assert!(only[0].tokens.contains(&"only".to_string()));
}

#[test]
fn rust_symbols_share_the_preamble() {
    let chunks = chunk_file(
        "lib.rs",
        "// preambletoken\npub(crate) fn paint() {}\npub struct Color {}\npub enum Mode {}\npub trait Brush {}\n",
    );
    let names: Vec<_> = chunks.iter().filter_map(|c| c.symbol_name.clone()).collect();
    assert_eq!(names, vec!["paint", "Color", "Mode", "Brush"]);
    let types: Vec<_> = chunks.iter().map(|c| c.chunk_type.clone()).collect();
    assert_eq!(types, vec!["function", "struct", "enum", "trait"]);
    assert!(chunks.iter().all(|c| c.text.starts_with("// preambletoken\n")));
    assert_eq!((chunks[0].start_line, chunks[0].end_line), (2, 2));
    assert_eq!((chunks[3].start_line, chunks[3].end_line), (5, 5));
}

#[test]
fn go_functions_and_methods() {
    let chunks = chunk_file("main.go", "// gopreamble\nfunc main() {}\nfunc (s *Server) Listen() {}\n");
    let names: Vec<_> = chunks.iter().filter_map(|c| c.symbol_name.clone()).collect();
    assert_eq!(names, vec!["main", "Listen"]);
    assert!(chunks.iter().all(|c| c.text.contains("gopreamble")));
}

#[test]
fn spans_are_ordered_and_deduplicated() {
    let content = "class Beta\nexport function alpha() {}\nfunction gamma() {}\n";
    let spans = extract_symbol_spans("a.ts", content);
    let got: Vec<_> = spans.iter().map(|s| (s.name.clone(), s.start_line)).collect();
    assert_eq!(got, vec![("Beta".to_string(), 1), ("alpha".to_string(), 2), ("gamma".to_string(), 3)]);
    let spans = extract_symbol_spans("b.py", "def run(x):\n    pass\nclass Job:\n    pass\n");
    let got: Vec<_> = spans.iter().map(|s| (s.name.clone(), s.chunk_type.clone(), s.start_line)).collect();
    assert_eq!(
        got,
        vec![("run".to_string(), "function".to_string(), 1), ("Job".to_string(), "class".to_string(), 3)]
    );
}

#[test]
fn file_chunk_spans_all_lines() {
    let chunks = chunk_file("notes.md", "one\ntwo\nthree");
    assert_eq!(chunks.len(), 1);
    assert_eq!((chunks[0].start_line, chunks[0].end_line), (1, 3));
    let empty = chunk_file("e.ts", "");
    assert_eq!((empty[0].start_line, empty[0].end_line), (1, 1));
}

#[test]
fn a_symbol_starts_on_its_own_line_after_blank_lines() {
    let spans = extract_symbol_spans("lib.rs", "fn a() {}\n\nfn b() {}\n");
    let got: Vec<_> = spans.iter().map(|s| (s.name.clone(), s.chunk_type.clone(), s.start_line)).collect();
    assert_eq!(
        got,
        vec![("a".to_string(), "function".to_string(), 1), ("b".to_string(), "function".to_string(), 3)]
    );
    let chunks = chunk_file("lib.rs", "fn a() {}\n\nfn b() {}\n");
    assert_eq!((chunks[0].start_line, chunks[0].end_line), (1, 2));
    assert_eq!((chunks[1].start_line, chunks[1].end_line), (3, 3));
    let go = extract_symbol_spans("main.go", "package main\n\n\n  func run() {}\n");
    assert_eq!(go.iter().map(|s| s.start_line).collect::<Vec<_>>(), vec![4]);
}

#[test]
fn spans_from_matches_sorts_by_line_and_drops_repeats() {
    let bytes = b"x\ny\nz\n";
    let results = vec![
        (Some(vec![Some(("late".to_string(), 4)), None]), "class".to_string()),
        (None, "function".to_string()),
        (
            Some(vec![Some(("early".to_string(), 0)), Some(("late".to_string(), 5))]),
            "function".to_string(),
        ),
    ];
    let spans = spans_from_matches(&results, bytes);
    let got: Vec<_> = spans.iter().map(|s| (s.name.clone(), s.chunk_type.clone(), s.start_line)).collect();
    assert_eq!(
        got,
        vec![("early".to_string(), "function".to_string(), 1), ("late".to_string(), "class".to_string(), 3)]
    );
}
