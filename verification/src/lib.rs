//! A fuzzy autocomplete / search library.
//!
//! Phrases are inserted into a suffix-indexed character trie
//! ([`TrieNode`]), which answers case-insensitive substring queries.
//! Matches are ranked by a configurable weighted heuristic
//! ([`ScoreConfiguration`]); when no substring match exists, a bounded
//! Levenshtein edit distance admits fuzzy candidates instead.

use vstd::prelude::*;

mod builder;
mod edit_distance;
mod engine;
mod errors;
mod match_configuration;
mod match_profile;
mod phrase_match;
mod score_configuration;
mod scoring;
mod search;
mod text;
mod trie;

pub use builder::YouAutoCompleteMeBuilder;
pub use edit_distance::levenshtein_distance;
pub use edit_distance::lev;
pub use edit_distance::lemma_lev_self;
pub use edit_distance::lemma_lev_empty;
pub use edit_distance::lemma_lev_symmetric;
pub use edit_distance::MAX_STRING_LEN;
pub use engine::AutocompletionEngine;
pub use engine::Match;
pub use engine::Score;
pub use engine::SearchOptions;
pub use engine::Traversal;
pub use errors::AutocompleteError;
pub use match_configuration::MatchConfiguration;
pub use match_configuration::MatchConfigurationBuilder;
pub use match_profile::MatchProfile;
pub use score_configuration::ScoreConfiguration;
pub use score_configuration::ScoreConfigurationBuilder;
pub use score_configuration::default_delimiters;
pub use score_configuration::is_default_configuration;
pub use scoring::rank_and_filter;
pub use scoring::score;
pub use scoring::score_spec;
pub use scoring::rank_spec;
pub use scoring::sorted_desc;
pub use scoring::adjacency_run_bonus;
pub use scoring::adjacency_total;
pub use scoring::valid_positions;
pub use scoring::lemma_rank_spec_properties;
pub use scoring::lemma_rank_spec_distinct;
pub use scoring::distinct_profile_phrases;
pub use search::NoSearch;
pub use search::Search;
pub use search::SearchBuilder;
pub use search::SearchMarker;
pub use search::WithSearch;
pub use search::is_upper_char;
pub use text::distinct_phrases;
pub use text::first_occurrence_at;
pub use text::has_phrase;
pub use text::is_prefix_of;
pub use text::is_substring_of;
pub use text::is_suffix_of;
pub use text::lower_char_spec;
pub use text::lower_spec;
pub use text::lemma_substring_lower;
pub use text::lemma_substring_len;
pub use trie::Searcher;
pub use trie::TrieNode;
pub use trie::MAX_PHRASE_LEN;
pub use trie::search_matches;
pub use trie::lemma_insert_idempotent;
pub use trie::lemma_long_query_matches_nothing;

use crate::edit_distance::lev_chars;
use crate::text::chars_of;
use crate::text::find_substring;
use crate::text::lemma_first_occurrence_unique;
use crate::text::lower;

verus! {

/// The phrase book holds `w` and the query occurs in it as a substring,
/// ignoring ASCII case.
pub open spec fn exact_match(book: TrieNode, q: Seq<char>, w: Seq<char>) -> bool {
    book.phrases().contains(w) && is_substring_of(lower_spec(q), lower_spec(w))
}

/// The score the exact phase assigns to a matched phrase `w`: the
/// heuristic score of the match whose positions cover the first
/// occurrence of the lowercased query inside the lowercased phrase.
pub open spec fn exact_score(cfg: ScoreConfiguration, q: Seq<char>, w: Seq<char>) -> int {
    let lq = lower_spec(q);
    let lw = lower_spec(w);
    let i = choose|i: int| first_occurrence_at(lq, lw, i);
    score_spec(cfg, w, Seq::new(lq.len(), |k: int| (i + k) as usize))
}

/// The phrase book holds `w` within the given edit distance of the query,
/// both taken in ASCII lowercase.
pub open spec fn fuzzy_match(book: TrieNode, q: Seq<char>, max_distance: int, w: Seq<char>) -> bool {
    book.phrases().contains(w) && lev(lower_spec(q), lower_spec(w)) <= max_distance
}

/// Matches phrases against a query and ranks them by relevance.
pub struct YouAutoCompleteMe<'a> {
    /// The configuration of the scoring heuristic.
    pub score_configuration: ScoreConfiguration,
    /// The phrase book completions are drawn from.
    pub phrase_book: &'a TrieNode,
}

/// Resolves the exact phase of a query: every phrase the index matches by
/// substring containment, scored at the first occurrence of the query.
fn exact_profiles(book: &TrieNode, cfg: &ScoreConfiguration, input: &str) -> (r: Vec<MatchProfile>)
    requires
        book.wf(),
    ensures
        forall|k: int|
            0 <= k < r@.len() ==> exact_match(*book, input@, (#[trigger] r@[k]).phrase@),
        (r@.len() > 0) == (input@.len() > 0 && (exists|w: Seq<char>|
            exact_match(*book, input@, w))),
        distinct_profile_phrases(r@),
        forall|k: int|
            0 <= k < r@.len() ==> (#[trigger] r@[k]).score == exact_score(
                *cfg,
                input@,
                r@[k].phrase@,
            ),
{
    let qchars = chars_of(input);
    let lq = lower(&qchars);
    let found = book.search(input);
    let mut profiles: Vec<MatchProfile> = Vec::new();
    let mut i: usize = 0;
    while i < found.len()
        invariant
            book.wf(),
            lq@ == lower_spec(input@),
            i <= found@.len(),
            profiles@.len() == i,
            forall|w: Seq<char>| #[trigger]
                has_phrase(found@, w) <==> search_matches(book.phrases(), input@).contains(w),
            forall|k: int|
                0 <= k < i ==> exact_match(*book, input@, (#[trigger] profiles@[k]).phrase@),
            forall|k: int| 0 <= k < i ==> (#[trigger] profiles@[k]).phrase@ == (found@[k])@,
            forall|k: int|
                0 <= k < i ==> (#[trigger] profiles@[k]).score == exact_score(
                    *cfg,
                    input@,
                    profiles@[k].phrase@,
                ),
            crate::text::distinct_phrases(found@),
        decreases found@.len() - i,
    {
        let w = &found[i];
        proof {
            assert(has_phrase(found@, (found@[i as int])@));
            book.lemma_phrase_len((found@[i as int])@);
        }
        let cchars = chars_of(w.as_str());
        let lc = lower(&cchars);
        let idx: usize = match find_substring(&lc, &lq) {
            Some(x) => x,
            None => {
                proof {
                    assert(false);
                }
                0
            },
        };
        let mut ps: Vec<usize> = Vec::new();
        let mut t: usize = 0;
        while t < lq.len()
            invariant
                idx + lq@.len() <= lc@.len(),
                lc@.len() <= MAX_PHRASE_LEN,
                t <= lq@.len(),
                ps@.len() == t,
                forall|k: int| 0 <= k < t ==> (#[trigger] ps@[k]) == idx + k,
            decreases lq@.len() - t,
        {
            ps.push(idx + t);
            t += 1;
        }
        proof {
            assert(valid_positions(ps@, cchars@));
        }
        let s = score(cfg, &lq, &cchars, &ps);
        proof {
            let wv = (found@[i as int])@;
            let lw = lower_spec(wv);
            assert(lc@ == lw);
            let ci = choose|ci: int| first_occurrence_at(lower_spec(input@), lw, ci);
            assert(first_occurrence_at(lower_spec(input@), lw, idx as int));
            lemma_first_occurrence_unique(lower_spec(input@), lw, ci, idx as int);
            assert(ps@ =~= Seq::new(lower_spec(input@).len(), |k: int| (ci + k) as usize));
            assert(s as int == exact_score(*cfg, input@, wv));
        }
        profiles.push(MatchProfile::new(w.clone(), ps, s));
        i += 1;
    }
    proof {
        if found@.len() > 0 {
            assert(has_phrase(found@, (found@[0])@));
            assert(search_matches(book.phrases(), input@).contains((found@[0])@));
            assert(input@.len() > 0);
            assert(exact_match(*book, input@, (found@[0])@));
        }
        if input@.len() > 0 && (exists|w: Seq<char>| exact_match(*book, input@, w)) {
            let w = choose|w: Seq<char>| exact_match(*book, input@, w);
            assert(search_matches(book.phrases(), input@).contains(w));
            assert(has_phrase(found@, w));
            let k = choose|k: int| 0 <= k < found@.len() && (#[trigger] found@[k])@ == w;
            assert(found@.len() > 0);
        }
        assert forall|a: int, b: int|
            0 <= a < b < profiles@.len() implies (#[trigger] profiles@[a]).phrase@ != (
        #[trigger] profiles@[b]).phrase@ by {
            assert((found@[a])@ != (found@[b])@);
        }
    }
    profiles
}

impl<'a> YouAutoCompleteMe<'a> {
    /// A completer over the given phrase book with the default scoring
    /// configuration.
    pub fn new(phrase_book: &'a TrieNode) -> (r: YouAutoCompleteMe<'a>)
        ensures
            r.phrase_book == phrase_book,
            is_default_configuration(r.score_configuration),
    {
        YouAutoCompleteMe {
            phrase_book,
            score_configuration: ScoreConfiguration::builder().build(),
        }
    }

    /// Creates a [`YouAutoCompleteMeBuilder`] for configuring the completer.
    pub fn builder(phrase_book: &'a TrieNode) -> (r: YouAutoCompleteMeBuilder<'a>)
        ensures
            r.phrase_book == phrase_book,
            r.score_configuration is None,
    {
        YouAutoCompleteMeBuilder::new(phrase_book)
    }

    /// Completes `input` against the phrase book.
    ///
    /// A query longer than [`MAX_PHRASE_LEN`] characters is rejected with
    /// `InputTooLong`; the empty query completes to nothing. Substring
    /// matches take precedence: when any exist, they alone are returned,
    /// ordered by descending heuristic score, equal scores in the order
    /// the index enumerates them. Only when none exist, and the options
    /// allow it, phrases within the configured edit distance of the query
    /// — both sides lowercased — are returned, ordered by ascending
    /// distance. At most `max_results` phrases come back.
    pub fn complete(&self, input: &str, options: &SearchOptions) -> (r: Result<
        Vec<String>,
        AutocompleteError,
    >)
        requires
            self.phrase_book.wf(),
        ensures
            (input@.len() > MAX_PHRASE_LEN) <==> r == Err::<Vec<String>, AutocompleteError>(
                AutocompleteError::InputTooLong,
            ),
            input@.len() <= MAX_PHRASE_LEN ==> r is Ok,
            r matches Ok(out) ==> out@.len() <= options.max_results,
            r matches Ok(out) ==> (input@.len() == 0 ==> out@.len() == 0),
            r matches Ok(out) ==> ((exists|w: Seq<char>|
                exact_match(*self.phrase_book, input@, w)) ==> (forall|k: int|
                0 <= k < out@.len() ==> exact_match(
                    *self.phrase_book,
                    input@,
                    (#[trigger] out@[k])@,
                )) && (options.max_results > 0 && input@.len() > 0 ==> out@.len() > 0)),
            r matches Ok(out) ==> (!(exists|w: Seq<char>|
                exact_match(*self.phrase_book, input@, w)) && options.fuzzy ==> (forall|k: int|
                0 <= k < out@.len() ==> fuzzy_match(
                    *self.phrase_book,
                    input@,
                    options.levenshtein as int,
                    (#[trigger] out@[k])@,
                ))),
            r matches Ok(out) ==> (!(exists|w: Seq<char>|
                exact_match(*self.phrase_book, input@, w)) && !options.fuzzy ==> out@.len() == 0),
            r matches Ok(out) ==> (!(exists|w: Seq<char>|
                exact_match(*self.phrase_book, input@, w)) && options.fuzzy && input@.len() > 0
                && options.max_results > 0 && (exists|w: Seq<char>|
                fuzzy_match(*self.phrase_book, input@, options.levenshtein as int, w))
                ==> out@.len() > 0),
            r matches Ok(out) ==> (forall|i: int, j: int|
                0 <= i < j < out@.len() ==> (#[trigger] out@[i])@ != (#[trigger] out@[j])@),
            r matches Ok(out) ==> ((exists|w: Seq<char>|
                exact_match(*self.phrase_book, input@, w)) ==> (forall|i: int, j: int|
                0 <= i < j < out@.len() ==> exact_score(
                    self.score_configuration,
                    input@,
                    (#[trigger] out@[i])@,
                ) >= exact_score(self.score_configuration, input@, (#[trigger] out@[j])@))),
            r matches Ok(out) ==> (!(exists|w: Seq<char>|
                exact_match(*self.phrase_book, input@, w)) && options.fuzzy ==> (forall|
                i: int,
                j: int,
            |
                0 <= i < j < out@.len() ==> lev(lower_spec(input@), lower_spec(
                    (#[trigger] out@[i])@,
                )) <= lev(lower_spec(input@), lower_spec((#[trigger] out@[j])@)))),
    {
        let qchars = chars_of(input);
        if qchars.len() > MAX_PHRASE_LEN {
            return Err(AutocompleteError::InputTooLong);
        }
        if qchars.len() == 0 {
            return Ok(Vec::new());
        }
        let lq = lower(&qchars);
        let mut profiles: Vec<MatchProfile> = exact_profiles(
            self.phrase_book,
            &self.score_configuration,
            input,
        );
        let ghost had_exact = profiles@.len() > 0;
        if profiles.len() == 0 && options.fuzzy {
            let all = self.phrase_book.get_all();
            let mut i: usize = 0;
            while i < all.len()
                invariant
                    self.phrase_book.wf(),
                    lq@ == lower_spec(input@),
                    lq@.len() <= MAX_PHRASE_LEN,
                    i <= all@.len(),
                    forall|w: Seq<char>| #[trigger]
                        has_phrase(all@, w) <==> self.phrase_book.phrases().contains(w),
                    forall|k: int|
                        0 <= k < profiles@.len() ==> fuzzy_match(
                            *self.phrase_book,
                            input@,
                            options.levenshtein as int,
                            (#[trigger] profiles@[k]).phrase@,
                        ),
                    profiles@.len() == 0 ==> forall|j: int|
                        0 <= j < i ==> !fuzzy_match(
                            *self.phrase_book,
                            input@,
                            options.levenshtein as int,
                            (#[trigger] all@[j])@,
                        ),
                    crate::text::distinct_phrases(all@),
                    forall|k: int|
                        0 <= k < profiles@.len() ==> exists|j: int|
                            0 <= j < i && (#[trigger] profiles@[k]).phrase@ == (all@[j])@,
                    forall|k: int|
                        0 <= k < profiles@.len() ==> (#[trigger] profiles@[k]).score == -(lev(
                            lower_spec(input@),
                            lower_spec(profiles@[k].phrase@),
                        ) as int),
                    distinct_profile_phrases(profiles@),
                decreases all@.len() - i,
            {
                proof {
                    assert(has_phrase(all@, (all@[i as int])@));
                    self.phrase_book.lemma_phrase_len((all@[i as int])@);
                }
                let cchars = chars_of(all[i].as_str());
                let lc = lower(&cchars);
                let d = lev_chars(&lq, &lc);
                let ghost pre_profiles = profiles@;
                if d <= options.levenshtein as usize {
                    profiles.push(MatchProfile::new(all[i].clone(), Vec::new(), -(d as i64)));
                }
                proof {
                    assert forall|k: int| 0 <= k < profiles@.len() implies exists|j: int|
                        0 <= j < i + 1 && (#[trigger] profiles@[k]).phrase@ == (all@[j])@ by {
                        if k < pre_profiles.len() {
                            let j = choose|j: int|
                                0 <= j < i && (#[trigger] pre_profiles[k]).phrase@ == (all@[j])@;
                            assert(0 <= j < i + 1 && profiles@[k].phrase@ == (all@[j])@);
                        } else {
                            assert(0 <= i < i + 1 && profiles@[k].phrase@ == (all@[i as int])@);
                        }
                    }
                    assert forall|a: int, b: int|
                        0 <= a < b < profiles@.len() implies (#[trigger] profiles@[a]).phrase@
                        != (#[trigger] profiles@[b]).phrase@ by {
                        if b == profiles@.len() - 1 && profiles@.len() > pre_profiles.len() {
                            let j = choose|j: int|
                                0 <= j < i && (#[trigger] pre_profiles[a]).phrase@ == (all@[j])@;
                            assert((all@[j])@ != (all@[i as int])@);
                        }
                    }
                }
                i += 1;
            }
            proof {
                if exists|w: Seq<char>|
                    fuzzy_match(*self.phrase_book, input@, options.levenshtein as int, w) {
                    let w = choose|w: Seq<char>|
                        fuzzy_match(*self.phrase_book, input@, options.levenshtein as int, w);
                    if profiles@.len() == 0 {
                        assert(self.phrase_book.phrases().contains(w));
                        assert(has_phrase(all@, w));
                        let k = choose|k: int| 0 <= k < all@.len() && (#[trigger] all@[k])@ == w;
                        assert(!fuzzy_match(
                            *self.phrase_book,
                            input@,
                            options.levenshtein as int,
                            (all@[k])@,
                        ));
                    }
                    assert(profiles@.len() > 0);
                }
            }
        }
        let ghost pre_rank = profiles@;
        let ranked = rank_and_filter(profiles, i64::MIN);
        proof {
            lemma_rank_spec_properties(pre_rank, i64::MIN as int);
            lemma_rank_spec_distinct(pre_rank, i64::MIN as int);
            assert forall|k: int|
                0 <= k < pre_rank.len() implies (#[trigger] pre_rank[k]).score >= i64::MIN by {}
            scoring::lemma_rank_spec_len(pre_rank, i64::MIN as int);
        }
        let mut out: Vec<String> = Vec::new();
        let mut k: usize = 0;
        while k < ranked.len() && k < options.max_results
            invariant
                k <= ranked@.len(),
                k <= options.max_results,
                out@.len() == k,
                forall|j: int| 0 <= j < k ==> (#[trigger] out@[j])@ == ranked@[j].phrase@,
            decreases ranked@.len() - k,
        {
            out.push(ranked[k].phrase.clone());
            k += 1;
        }
        proof {
            if had_exact {
                assert forall|k: int| 0 <= k < out@.len() implies exact_match(
                    *self.phrase_book,
                    input@,
                    (#[trigger] out@[k])@,
                ) && ranked@[k].score == exact_score(
                    self.score_configuration,
                    input@,
                    (out@[k])@,
                ) by {
                    let e = ranked@[k];
                    assert(ranked@.contains(e));
                    assert(rank_spec(pre_rank, i64::MIN as int).contains(e));
                    assert(pre_rank.contains(e));
                    let t = choose|t: int| 0 <= t < pre_rank.len() && pre_rank[t] == e;
                    assert(pre_rank[t].score == exact_score(
                        self.score_configuration,
                        input@,
                        pre_rank[t].phrase@,
                    ));
                }
                assert forall|i: int, j: int| 0 <= i < j < out@.len() implies exact_score(
                    self.score_configuration,
                    input@,
                    (#[trigger] out@[i])@,
                ) >= exact_score(self.score_configuration, input@, (#[trigger] out@[j])@) by {
                    assert(ranked@[i].score >= ranked@[j].score);
                }
            } else {
                assert forall|k: int| 0 <= k < out@.len() implies fuzzy_match(
                    *self.phrase_book,
                    input@,
                    options.levenshtein as int,
                    (#[trigger] out@[k])@,
                ) && ranked@[k].score == -(lev(lower_spec(input@), lower_spec((out@[k])@)) as int) by {
                    let e = ranked@[k];
                    assert(ranked@.contains(e));
                    assert(rank_spec(pre_rank, i64::MIN as int).contains(e));
                    assert(pre_rank.contains(e));
                    let t = choose|t: int| 0 <= t < pre_rank.len() && pre_rank[t] == e;
                    assert(pre_rank[t].score == -(lev(
                        lower_spec(input@),
                        lower_spec(pre_rank[t].phrase@),
                    ) as int));
                }
                assert forall|i: int, j: int| 0 <= i < j < out@.len() implies lev(
                    lower_spec(input@),
                    lower_spec((#[trigger] out@[i])@),
                ) <= lev(lower_spec(input@), lower_spec((#[trigger] out@[j])@)) by {
                    assert(ranked@[i].score >= ranked@[j].score);
                }
            }
        }
        Ok(out)
    }
}

} // verus!
