use you_autocomplete_me::levenshtein_distance;
use you_autocomplete_me::AutocompleteError;

#[test]
fn test_levenshtein() {
    assert_eq!(Ok(3), levenshtein_distance("kitten", "sitting"));
    assert_eq!(Ok(0), levenshtein_distance("sitting", "sitting"));
}

#[test]
fn distance_from_empty_is_length() {
    assert_eq!(Ok(3), levenshtein_distance("", "abc"));
    assert_eq!(Ok(5), levenshtein_distance("house", ""));
    assert_eq!(Ok(0), levenshtein_distance("", ""));
}

#[test]
fn distance_is_symmetric() {
    let pairs = [("kitten", "sitting"), ("abc", "yabd"), ("flaw", "lawn")];
    for (a, b) in pairs {
        assert_eq!(levenshtein_distance(a, b), levenshtein_distance(b, a));
    }
}

#[test]
fn distance_exact_values() {
    assert_eq!(Ok(1), levenshtein_distance("cat", "cart"));
    assert_eq!(Ok(1), levenshtein_distance("cat", "bat"));
    assert_eq!(Ok(2), levenshtein_distance("book", "back"));
    assert_eq!(Ok(3), levenshtein_distance("abc", "xyz"));
}

#[test]
fn oversized_operand_is_rejected() {
    let long: String = "a".repeat(257);
    assert_eq!(
        Err(AutocompleteError::LengthExceeded),
        levenshtein_distance(&long, "short")
    );
    assert_eq!(
        Err(AutocompleteError::LengthExceeded),
        levenshtein_distance("short", &long)
    );
    let max: String = "a".repeat(256);
    assert_eq!(Ok(251), levenshtein_distance(&max, "aaaaa"));
}
