use you_autocomplete_me::AutocompleteError;
use you_autocomplete_me::SearchOptions;
use you_autocomplete_me::TrieNode;
use you_autocomplete_me::YouAutoCompleteMe;

fn phrase_book(values: &[&str]) -> TrieNode {
    let mut trie = TrieNode::default();
    for v in values {
        let _ = trie.insert(v);
    }
    trie
}

#[test]
fn absent_query_with_no_tolerant_candidates_completes_to_nothing() {
    let book = phrase_book(&["hello", "world", "spark"]);
    let completer = YouAutoCompleteMe::builder(&book).build();
    let options = SearchOptions::new(true, 2, 5);
    let result = completer.complete("zzz_not_present", &options).unwrap();
    assert!(result.is_empty());
}

#[test]
fn substring_matches_come_back_for_exact_queries() {
    let book = phrase_book(&["hello", "world", "help", "helium", "spark"]);
    let completer = YouAutoCompleteMe::builder(&book).build();
    let options = SearchOptions::default();
    let mut result = completer.complete("hel", &options).unwrap();
    result.sort();
    assert_eq!(result, vec!["helium".to_string(), "hello".to_string(), "help".to_string()]);
}

#[test]
fn fuzzy_fallback_admits_close_phrases() {
    let book = phrase_book(&["hello", "spark"]);
    let completer = YouAutoCompleteMe::builder(&book).build();
    let options = SearchOptions::new(true, 2, 5);
    // "hellp" is no substring of any phrase, but one edit from "hello"
    let result = completer.complete("hellp", &options).unwrap();
    assert_eq!(result, vec!["hello".to_string()]);
}

#[test]
fn fuzzy_fallback_can_be_disabled() {
    let book = phrase_book(&["hello"]);
    let completer = YouAutoCompleteMe::builder(&book).build();
    let options = SearchOptions::new(false, 2, 5);
    let result = completer.complete("hellp", &options).unwrap();
    assert!(result.is_empty());
}

#[test]
fn fuzzy_results_order_by_ascending_distance() {
    let book = phrase_book(&["abcd", "abcdef", "xyz"]);
    let completer = YouAutoCompleteMe::builder(&book).build();
    let options = SearchOptions::new(true, 3, 5);
    // "abqd" matches nothing as substring; distance 1 to "abcd", 3 to "abcdef"
    let result = completer.complete("abqd", &options).unwrap();
    assert_eq!(result, vec!["abcd".to_string(), "abcdef".to_string()]);
}

#[test]
fn result_count_is_capped() {
    let book = phrase_book(&["aa1", "aa2", "aa3", "aa4"]);
    let completer = YouAutoCompleteMe::builder(&book).build();
    let options = SearchOptions::new(true, 2, 2);
    let result = completer.complete("aa", &options).unwrap();
    assert_eq!(result.len(), 2);
}

#[test]
fn empty_query_completes_to_nothing() {
    let book = phrase_book(&["hello"]);
    let completer = YouAutoCompleteMe::builder(&book).build();
    let result = completer.complete("", &SearchOptions::default()).unwrap();
    assert!(result.is_empty());
}

#[test]
fn overlong_query_is_rejected() {
    let book = phrase_book(&["hello"]);
    let completer = YouAutoCompleteMe::builder(&book).build();
    let long: String = "a".repeat(257);
    assert_eq!(
        completer.complete(&long, &SearchOptions::default()),
        Err(AutocompleteError::InputTooLong)
    );
}

#[test]
fn exact_matches_take_precedence_over_fuzzy() {
    let book = phrase_book(&["abc", "abd"]);
    let completer = YouAutoCompleteMe::builder(&book).build();
    let options = SearchOptions::new(true, 2, 5);
    // "abc" matches "abc" exactly; "abd" is only one edit away, but the
    // exact phase alone answers
    let result = completer.complete("abc", &options).unwrap();
    assert_eq!(result, vec!["abc".to_string()]);
}

#[test]
fn completion_is_case_insensitive() {
    let book = phrase_book(&["Hello-World"]);
    let completer = YouAutoCompleteMe::builder(&book).build();
    let result = completer.complete("o-w", &SearchOptions::default()).unwrap();
    assert_eq!(result, vec!["Hello-World".to_string()]);
}

#[test]
fn exact_results_order_by_descending_score() {
    // "abc" matches the whole phrase "abc": base 3, adjacency 4, boundary 5,
    // prefix 3, suffix 3. Inside "xxabc" the same match starts at offset 2:
    // base 3, adjacency 4, suffix 3, penalty 2.
    let book = phrase_book(&["xxabc", "abc"]);
    let completer = YouAutoCompleteMe::builder(&book).build();
    let result = completer.complete("abc", &SearchOptions::default()).unwrap();
    assert_eq!(result, vec!["abc".to_string(), "xxabc".to_string()]);
}

#[test]
fn completion_results_carry_no_duplicate() {
    let book = phrase_book(&["testing, testing, testing"]);
    let completer = YouAutoCompleteMe::builder(&book).build();
    let result = completer.complete("test", &SearchOptions::default()).unwrap();
    assert_eq!(result.len(), 1);
}
