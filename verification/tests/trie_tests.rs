use itertools::Itertools;
use you_autocomplete_me::AutocompleteError;
use you_autocomplete_me::Search;
use you_autocomplete_me::Searcher;
use you_autocomplete_me::TrieNode;

fn sorted_strs(v: &[String]) -> Vec<&str> {
    v.iter().map(|s| s.as_str()).sorted().collect()
}

#[test]
fn get_all_autocompletions_with_mixed_cases() {
    let mut trie = TrieNode::default();
    let values = vec![
        "hello",
        "world",
        "help",
        "helium",
        "spark",
        "strange",
        "stranger",
        "World",
        "hello-world",
    ];
    for val in &values {
        let _ = trie.insert(val);
    }

    let expected = ["world", "World", "hello-world"];
    let actual = trie.search("wor");
    itertools::assert_equal(expected.iter().sorted(), sorted_strs(&actual).iter())
}

#[test]
fn get_all_autocompletions() {
    let mut trie = TrieNode::default();
    let values = vec![
        "hello", "world", "help", "helium", "spark", "strange", "stranger",
    ];
    for val in &values {
        let _ = trie.insert(val);
    }

    let expected = vec!["world"];
    let actual = trie.search("wor");
    itertools::assert_equal(expected, sorted_strs(&actual))
}

#[test]
fn get_middle_completions() {
    let mut trie = TrieNode::default();
    let expected = vec![
        "This is a test!",
        "This is a test",
        "I don't think I'll pass the science test!",
        "I don't think I'll pass the science test",
        "It is important to test software",
        "testing, testing, testing",
    ];
    for val in &expected {
        let _ = trie.insert(val);
    }
    let actual = trie.search("test");
    itertools::assert_equal(expected.iter().sorted(), sorted_strs(&actual).iter())
}

#[test]
fn case_insensitive_search_keeps_original_casing() {
    let mut trie = TrieNode::default();
    let _ = trie.insert("hello-world");
    let _ = trie.insert("World");

    let mut actual = trie.search("wor");
    actual.sort();
    assert_eq!(actual, vec!["World".to_string(), "hello-world".to_string()]);
}

#[test]
fn search_for_substring_finds_inserted_phrase() {
    let mut trie = TrieNode::default();
    let _ = trie.insert("hello-world");
    let actual = trie.search("lo-w");
    assert_eq!(actual, vec!["hello-world".to_string()]);
}

#[test]
fn inserting_twice_yields_same_results_as_once() {
    let mut once = TrieNode::default();
    let _ = once.insert("hello");
    let mut twice = TrieNode::default();
    let _ = twice.insert("hello");
    let _ = twice.insert("hello");

    for query in ["h", "hello", "ell", "lo", "x", ""] {
        assert_eq!(sorted_strs(&once.search(query)), sorted_strs(&twice.search(query)));
    }
    assert_eq!(twice.search("hello").len(), 1);
}

#[test]
fn empty_query_matches_nothing() {
    let mut trie = TrieNode::default();
    let _ = trie.insert("hello");
    assert!(trie.search("").is_empty());
}

#[test]
fn query_longer_than_every_phrase_matches_nothing() {
    let mut trie = TrieNode::default();
    let _ = trie.insert("ab");
    let _ = trie.insert("cd");
    assert!(trie.search("abcde").is_empty());
}

#[test]
fn empty_phrase_insertion_is_a_no_op() {
    let mut trie = TrieNode::default();
    assert_eq!(trie.insert(""), Ok(()));
    assert!(trie.search("a").is_empty());
}

#[test]
fn overlong_phrase_is_rejected() {
    let mut trie = TrieNode::default();
    let long: String = "a".repeat(257);
    assert_eq!(trie.insert(&long), Err(AutocompleteError::InputTooLong));
    let ok: String = "a".repeat(256);
    assert_eq!(trie.insert(&ok), Ok(()));
    assert_eq!(trie.search("aaa").len(), 1);
}

#[test]
fn get_all_returns_every_phrase() {
    let mut trie = TrieNode::default();
    let _ = trie.insert("alpha");
    let _ = trie.insert("beta");
    let _ = trie.insert("alpha");
    let mut all = trie.get_all();
    all.sort();
    assert_eq!(all, vec!["alpha".to_string(), "beta".to_string()]);
}

#[test]
fn searcher_trait_resolves_profiles() {
    let mut trie = TrieNode::default();
    let _ = trie.insert("hello");
    let _ = trie.insert("world");
    let profiles = Searcher::search(&trie, &Search::new("ell"));
    assert_eq!(profiles.len(), 1);
    assert_eq!(profiles[0].phrase, "hello");
    assert_eq!(profiles[0].matched_positions, vec![1, 2, 3]);
}
