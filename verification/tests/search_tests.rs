use you_autocomplete_me::Search;

#[test]
fn building_a_search_with_builder_uses_value() {
    let search_value = "test";
    let search = Search::builder().search(search_value).build();
    assert_eq!(search_value, search.search)
}

#[test]
fn builder_options_reach_the_search() {
    let search = Search::builder()
        .search("example")
        .strict(true)
        .fuzzy(true)
        .build();
    assert_eq!(search.search, "example");
    assert!(search.strict_case);
    assert!(search.fuzzy);
}

#[test]
fn unchosen_options_default_to_off() {
    let search = Search::builder().search("example").build();
    assert!(!search.strict_case);
    assert!(!search.fuzzy);
}

#[test]
fn smart_case_applies_with_an_uppercase_character() {
    let search = Search::new("Example");
    assert!(search.is_smart_case());
    let lower = Search::new("example");
    assert!(!lower.is_smart_case());
}

#[test]
fn strict_casing_disables_smart_case() {
    let search = Search::builder().search("Example").strict(true).build();
    assert!(!search.is_smart_case());
}

#[test]
fn capitlized_chars_lists_uppercase_characters() {
    let search = Search::new("Example");
    assert_eq!(search.capitlized_chars(), vec!['E']);
    let mixed = Search::new("aBcDe");
    assert_eq!(mixed.capitlized_chars(), vec!['B', 'D']);
    let none = Search::new("abc");
    assert!(none.capitlized_chars().is_empty());
}
