use you_autocomplete_me::ScoreConfiguration;
use you_autocomplete_me::TrieNode;
use you_autocomplete_me::YouAutoCompleteMe;

#[test]
fn builder_with_score_configuration() {
    let phrase_book: TrieNode = Default::default();

    let builder = YouAutoCompleteMe::builder(&phrase_book);
    builder.with_score_configuration(ScoreConfiguration::default());
}

#[test]
fn builder_with_word_delimiters_contains_only_word_delimiters() {
    const SPC: char = ' ';
    const UNDERSCORE: char = '_';
    let mut word_delimiters = Vec::new();
    word_delimiters.push(SPC);
    word_delimiters.push(UNDERSCORE);
    let builder = ScoreConfiguration::builder().with_word_delimiters(word_delimiters);

    let config = builder.build();

    assert!(config.word_delimiters.contains(&SPC));
    assert!(config.word_delimiters.contains(&UNDERSCORE));

    assert_eq!(config.word_delimiters.len(), 2);
}

#[test]
fn builder_with_character_adjacency_bonus_is_correct() {
    const CHARACTER_ADJACENCY_BONUS: u8 = 7;
    let builder = ScoreConfiguration::builder();
    let config = builder
        .with_character_adjacency_bonus(CHARACTER_ADJACENCY_BONUS)
        .build();

    assert_eq!(config.character_adjacency_bonus, CHARACTER_ADJACENCY_BONUS);
}

#[test]
fn default_configuration_has_documented_values() {
    let config = ScoreConfiguration::default();
    let mut delims = config.word_delimiters.clone();
    delims.sort();
    let mut expected = vec![' ', '-', '/', '_'];
    expected.sort();
    assert_eq!(delims, expected);
    assert_eq!(config.character_adjacency_bonus, 1);
    assert_eq!(config.character_adjacency_multiplier, 2);
    assert_eq!(config.max_character_adjacency_bonus, 6);
    assert_eq!(config.word_boundary_bonus, 5);
    assert_eq!(config.word_prefix_bonus, 3);
    assert_eq!(config.word_suffix_bonus, 3);
    assert_eq!(config.character_offset_penalty, 1);
    assert_eq!(config.max_offset_penalty, 3);
}

#[test]
fn builder_with_optional_score_configuration_uses_default_when_none() {
    let phrase_book: TrieNode = Default::default();
    let completer = YouAutoCompleteMe::builder(&phrase_book)
        .with_optional_score_configuration(None)
        .build();
    assert_eq!(completer.score_configuration.word_boundary_bonus, 5);

    let custom = ScoreConfiguration::builder().with_word_boundary_bonus(9).build();
    let completer = YouAutoCompleteMe::builder(&phrase_book)
        .with_optional_score_configuration(Some(custom))
        .build();
    assert_eq!(completer.score_configuration.word_boundary_bonus, 9);
}
