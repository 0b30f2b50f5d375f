use you_autocomplete_me::rank_and_filter;
use you_autocomplete_me::score;
use you_autocomplete_me::MatchProfile;
use you_autocomplete_me::ScoreConfiguration;

fn chars(s: &str) -> Vec<char> {
    s.chars().collect()
}

#[test]
fn four_character_run_reaches_adjacency_cap() {
    // base 4, adjacency min(6, 1 * 2^3) = 6, no boundary/prefix/suffix,
    // offset penalty min(3, 1 * 1) = 1
    let cfg = ScoreConfiguration::default();
    let s = score(&cfg, &chars("abcd"), &chars("xabcdx"), &vec![1, 2, 3, 4]);
    assert_eq!(s, 4 + 6 - 1);
}

#[test]
fn three_character_run_stays_below_cap() {
    // base 3, adjacency min(6, 1 * 2^2) = 4, offset penalty 1
    let cfg = ScoreConfiguration::default();
    let s = score(&cfg, &chars("abc"), &chars("xabcx"), &vec![1, 2, 3]);
    assert_eq!(s, 3 + 4 - 1);
}

#[test]
fn prefix_match_collects_boundary_and_prefix_bonuses() {
    // base 4, adjacency 6, boundary 5, prefix 3, suffix 3, no penalty
    let cfg = ScoreConfiguration::default();
    let s = score(&cfg, &chars("abcd"), &chars("abcd"), &vec![0, 1, 2, 3]);
    assert_eq!(s, 4 + 6 + 5 + 3 + 3);
}

#[test]
fn match_after_delimiter_gets_boundary_bonus() {
    // candidate "x-abc": match at 2..5, after '-': boundary 5, suffix 3,
    // adjacency min(6, 1 * 2^2) = 4, penalty min(3, 2) = 2
    let cfg = ScoreConfiguration::default();
    let s = score(&cfg, &chars("abc"), &chars("x-abc"), &vec![2, 3, 4]);
    assert_eq!(s, 3 + 4 + 5 + 3 - 2);
}

#[test]
fn offset_penalty_is_capped() {
    // candidate "xxxxxabc": offset 5, penalty min(3, 5) = 3
    let cfg = ScoreConfiguration::default();
    let s = score(&cfg, &chars("abc"), &chars("xxxxxabc"), &vec![5, 6, 7]);
    assert_eq!(s, 3 + 4 + 3 - 3);
}

#[test]
fn empty_match_scores_zero() {
    let cfg = ScoreConfiguration::default();
    assert_eq!(score(&cfg, &chars("q"), &chars("abc"), &vec![]), 0);
}

#[test]
fn separated_matches_form_two_runs() {
    // runs [0] and [2]: each min(6, 1 * 2^0) = 1; boundary 5, prefix 3
    let cfg = ScoreConfiguration::default();
    let s = score(&cfg, &chars("ac"), &chars("abcx"), &vec![0, 2]);
    assert_eq!(s, 2 + 1 + 1 + 5 + 3);
}

#[test]
fn rank_and_filter_orders_by_descending_score() {
    let candidates = vec![
        MatchProfile::new("low".to_string(), vec![], 1),
        MatchProfile::new("high".to_string(), vec![], 9),
        MatchProfile::new("mid".to_string(), vec![], 5),
    ];
    let ranked = rank_and_filter(candidates, i64::MIN);
    let phrases: Vec<&str> = ranked.iter().map(|p| p.phrase.as_str()).collect();
    assert_eq!(phrases, vec!["high", "mid", "low"]);
}

#[test]
fn rank_and_filter_drops_below_threshold() {
    let candidates = vec![
        MatchProfile::new("keep".to_string(), vec![], 4),
        MatchProfile::new("drop".to_string(), vec![], 2),
        MatchProfile::new("also".to_string(), vec![], 3),
    ];
    let ranked = rank_and_filter(candidates, 3);
    let phrases: Vec<&str> = ranked.iter().map(|p| p.phrase.as_str()).collect();
    assert_eq!(phrases, vec!["keep", "also"]);
}

#[test]
fn rank_and_filter_keeps_encounter_order_on_ties() {
    let candidates = vec![
        MatchProfile::new("first".to_string(), vec![], 5),
        MatchProfile::new("second".to_string(), vec![], 5),
        MatchProfile::new("third".to_string(), vec![], 5),
    ];
    let ranked = rank_and_filter(candidates, i64::MIN);
    let phrases: Vec<&str> = ranked.iter().map(|p| p.phrase.as_str()).collect();
    assert_eq!(phrases, vec!["first", "second", "third"]);
}
