use you_autocomplete_me::AutocompletionEngine;

#[test]
fn engine_finds_stored_phrases_by_substring() {
    let mut engine = AutocompletionEngine::default();
    engine.insert("hello");
    engine.insert("world");
    engine.insert("hello-world");
    let mut found = engine.search("wor");
    found.sort();
    assert_eq!(found, vec!["hello-world".to_string(), "world".to_string()]);
}

#[test]
fn engine_search_ignores_ascii_case() {
    let mut engine = AutocompletionEngine::default();
    engine.insert("World");
    assert_eq!(engine.search("wor"), vec!["World".to_string()]);
    assert_eq!(engine.search("WOR"), vec!["World".to_string()]);
}

#[test]
fn engine_empty_query_matches_nothing() {
    let mut engine = AutocompletionEngine::default();
    engine.insert("hello");
    assert!(engine.search("").is_empty());
}

#[test]
fn engine_insert_deduplicates() {
    let mut engine = AutocompletionEngine::default();
    engine.insert("hello");
    engine.insert("hello");
    assert_eq!(engine.search("hello").len(), 1);
}

#[test]
fn engine_ignores_empty_insertion() {
    let mut engine = AutocompletionEngine::default();
    engine.insert("");
    assert!(engine.search("a").is_empty());
}
