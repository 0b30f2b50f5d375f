//! A self-contained completion engine: a flat, duplicate-free phrase
//! store with case-insensitive substring search, together with the search
//! options and the bookkeeping records of a single traversal. Simpler
//! than the suffix trie and deterministic: a query answers with exactly
//! the stored phrases that contain it, ignoring ASCII case.

use vstd::prelude::*;

use crate::text::chars_of;
use crate::text::distinct_phrases;
use crate::text::find_substring;
use crate::text::has_phrase;
use crate::text::is_substring_of;
use crate::text::lemma_has_phrase_push;
use crate::text::lower;
use crate::text::lower_spec;

verus! {

/// Options of one engine query.
pub struct SearchOptions {
    /// Whether fuzzy matching may be used.
    pub fuzzy: bool,
    /// The largest edit distance a fuzzy match may have.
    pub levenshtein: u8,
    /// The most results a query returns.
    pub max_results: usize,
}

impl Default for SearchOptions {
    /// Fuzzy matching on, edit distance up to 12, at most 10 results.
    fn default() -> (r: SearchOptions)
        ensures
            r.fuzzy == true,
            r.levenshtein == 12,
            r.max_results == 10,
    {
        SearchOptions { fuzzy: true, levenshtein: 12, max_results: 10 }
    }
}

impl SearchOptions {
    /// Options with the given fields.
    pub fn new(fuzzy: bool, levenshtein: u8, max_results: usize) -> (r: SearchOptions)
        ensures
            r.fuzzy == fuzzy,
            r.levenshtein == levenshtein,
            r.max_results == max_results,
    {
        SearchOptions { fuzzy, levenshtein, max_results }
    }
}

/// How a match was admitted: at which edit distance, and whether fuzzily.
#[derive(Debug, Default)]
#[allow(dead_code)]
pub struct Score {
    levenshtein: u8,
    fuzzy: bool,
}

/// The raw bytes a traversal matched.
#[derive(Default)]
pub struct Match(#[allow(dead_code)] Vec<u8>);

impl Match {
    /// An empty match record.
    #[allow(dead_code)]
    fn new() -> (r: Match)
        ensures
            r.0@.len() == 0,
    {
        Match(Vec::new())
    }
}

/// State of one walk over a candidate: the characters matched so far and
/// the part of the query still unmatched.
#[derive(Default)]
#[allow(dead_code)]
pub struct Traversal {
    matched_characters: Vec<char>,
    search: Vec<char>,
    consumed: usize,
    search_options: SearchOptions,
    auto_completions: Vec<String>,
}

impl Traversal {
    /// Whether the traversal state is sound: the cursor stays within the
    /// query.
    pub closed spec fn wf(self) -> bool {
        self.consumed <= self.search@.len()
    }

    /// The characters matched so far.
    pub closed spec fn matched(self) -> Seq<char> {
        self.matched_characters@
    }

    /// The query characters not yet consumed.
    pub closed spec fn remaining(self) -> Seq<char> {
        self.search@.skip(self.consumed as int)
    }

    /// Replaces the traversal's options.
    #[allow(dead_code)]
    fn with_search_options(self, search_options: SearchOptions) -> (r: Traversal)
        ensures
            r == (Traversal { search_options, ..self }),
    {
        Traversal { search_options, ..self }
    }

    /// Feeds one candidate character to the walk. Under strict matching the
    /// character counts only if it is the next unmatched query character,
    /// which it then consumes; once the query is consumed, and under fuzzy
    /// matching always, every character counts.
    #[allow(dead_code)]
    fn matched_character(&mut self, c: char)
        requires
            old(self).wf(),
        ensures
            final(self).wf(),
            final(self).search == old(self).search,
            final(self).search_options == old(self).search_options,
            final(self).auto_completions == old(self).auto_completions,
            (old(self).search_options.fuzzy || old(self).remaining().len() == 0) ==> (final(self).matched()
                == old(self).matched().push(c) && final(self).remaining() == old(self).remaining()),
            (!old(self).search_options.fuzzy && old(self).remaining().len() > 0
                && old(self).remaining()[0] == c) ==> (final(self).matched() == old(self).matched().push(c)
                && final(self).remaining() == old(self).remaining().skip(1)),
            (!old(self).search_options.fuzzy && old(self).remaining().len() > 0
                && old(self).remaining()[0] != c) ==> *final(self) == *old(self),
    {
        if !self.search_options.fuzzy {
            if self.consumed < self.search.len() {
                if self.search[self.consumed] == c {
                    proof {
                        assert(old(self).remaining()[0] == old(self).search@[old(
                            self,
                        ).consumed as int]);
                    }
                    self.consumed += 1;
                    proof {
                        assert(self.search@.skip(self.consumed as int) =~= old(
                            self,
                        ).remaining().skip(1));
                    }
                } else {
                    proof {
                        assert(old(self).remaining()[0] == old(self).search@[old(
                            self,
                        ).consumed as int]);
                    }
                    return ;
                }
            }
        }
        self.matched_characters.push(c);
    }
}

/// A completion engine over a flat, duplicate-free phrase store.
#[derive(Debug)]
pub struct AutocompletionEngine {
    words: Vec<String>,
    #[allow(dead_code)]
    fuzzy: bool,
}

impl AutocompletionEngine {
    /// The store holds no phrase twice and no empty phrase.
    pub closed spec fn wf(self) -> bool {
        &&& distinct_phrases(self.words@)
        &&& forall|i: int| 0 <= i < self.words@.len() ==> (#[trigger] self.words@[i])@.len() > 0
    }

    /// The set of stored phrases.
    pub closed spec fn words(self) -> Set<Seq<char>> {
        Set::new(|w: Seq<char>| has_phrase(self.words@, w))
    }
}

impl Default for AutocompletionEngine {
    /// An empty engine with fuzzy matching enabled.
    fn default() -> (r: AutocompletionEngine)
        ensures
            r.wf(),
            r.words() == Set::<Seq<char>>::empty(),
    {
        let r = AutocompletionEngine { words: Vec::new(), fuzzy: true };
        proof {
            assert(r.words() =~= Set::<Seq<char>>::empty());
        }
        r
    }
}

impl AutocompletionEngine {
    /// Stores `value`; the empty phrase and phrases already stored are
    /// ignored.
    pub fn insert(&mut self, value: &str)
        requires
            old(self).wf(),
        ensures
            final(self).wf(),
            value@.len() == 0 ==> final(self).words() == old(self).words(),
            value@.len() > 0 ==> final(self).words() == old(self).words().insert(value@),
    {
        if value.is_empty() {
            return ;
        }
        let word: String = value.to_owned();
        let ghost pre = self.words@;
        if !word_present(&self.words, &word) {
            self.words.push(word);
            proof {
                assert forall|u: Seq<char>| #[trigger]
                    has_phrase(self.words@, u) <==> (has_phrase(pre, u) || u == value@) by {
                    lemma_has_phrase_push(pre, self.words@.last(), u);
                }
            }
        }
        proof {
            assert(self.words() =~= old(self).words().insert(value@));
        }
    }

    /// Returns every stored phrase that contains `value`, ignoring ASCII
    /// case; the empty query matches nothing.
    pub fn search(&self, value: &str) -> (r: Vec<String>)
        requires
            self.wf(),
        ensures
            distinct_phrases(r@),
            forall|w: Seq<char>| #[trigger]
                has_phrase(r@, w) <==> (value@.len() > 0 && self.words().contains(w)
                    && is_substring_of(lower_spec(value@), lower_spec(w))),
    {
        let mut out: Vec<String> = Vec::new();
        if value.is_empty() {
            return out;
        }
        let qchars = chars_of(value);
        let q = lower(&qchars);
        let mut i: usize = 0;
        while i < self.words.len()
            invariant
                self.wf(),
                q@ == lower_spec(value@),
                i <= self.words@.len(),
                distinct_phrases(out@),
                forall|w: Seq<char>| #[trigger]
                    has_phrase(out@, w) <==> (has_phrase(self.words@.take(i as int), w)
                        && is_substring_of(lower_spec(value@), lower_spec(w))),
            decreases self.words@.len() - i,
        {
            let cand = chars_of(self.words[i].as_str());
            let lc = lower(&cand);
            let ghost pre = out@;
            if find_substring(&lc, &q).is_some() {
                out.push(self.words[i].clone());
            }
            proof {
                let w0 = (self.words@[i as int])@;
                assert(self.words@.take(i + 1) =~= self.words@.take(i as int).push(
                    self.words@[i as int],
                ));
                assert forall|w: Seq<char>| #[trigger]
                    has_phrase(out@, w) <==> (has_phrase(self.words@.take(i + 1), w)
                        && is_substring_of(lower_spec(value@), lower_spec(w))) by {
                    lemma_has_phrase_push(
                        self.words@.take(i as int),
                        self.words@[i as int],
                        w,
                    );
                    if has_phrase(out@, w) && !has_phrase(pre, w) {
                        lemma_has_phrase_push(pre, self.words@[i as int], w);
                    }
                    if w == w0 && is_substring_of(lower_spec(value@), lower_spec(w)) {
                        lemma_has_phrase_push(pre, self.words@[i as int], w);
                    }
                    if has_phrase(pre, w) {
                        if out@ != pre {
                            lemma_has_phrase_push(pre, self.words@[i as int], w);
                        }
                    }
                }
                assert(distinct_phrases(out@)) by {
                    if out@ != pre {
                        assert forall|a: int, b: int|
                            0 <= a < b < out@.len() implies (#[trigger] out@[a])@ != (
                        #[trigger] out@[b])@ by {
                            if b == out@.len() - 1 {
                                assert(out@[b]@ == w0);
                                assert(!has_phrase(pre, w0));
                                assert((pre[a])@ != w0);
                            }
                        }
                    }
                }
            }
            i += 1;
        }
        proof {
            assert(self.words@.take(self.words@.len() as int) =~= self.words@);
        }
        out
    }
}

/// Whether `w` already occurs in `words`.
fn word_present(words: &Vec<String>, w: &String) -> (r: bool)
    ensures
        r == has_phrase(words@, w@),
{
    let mut i: usize = 0;
    while i < words.len()
        invariant
            i <= words@.len(),
            forall|k: int| 0 <= k < i ==> (#[trigger] words@[k])@ != w@,
        decreases words@.len() - i,
    {
        if words[i].eq(w) {
            return true;
        }
        i += 1;
    }
    false
}

} // verus!
