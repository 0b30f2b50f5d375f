//! The record of one resolved match: what was searched, which characters
//! matched, and the phrase that satisfied the search.

use vstd::prelude::*;

verus! {

/// One resolved match.
#[allow(dead_code)]
pub(crate) struct Match {
    pub(crate) search: String,
    pub(crate) matching_characters: Vec<char>,
    pub(crate) result: String,
}

impl Match {
    /// Bundles a search, its matched characters and the matching phrase.
    #[allow(dead_code)]
    pub(crate) fn new(search: String, matching_characters: Vec<char>, result: String) -> (r: Match)
        ensures
            r.search == search,
            r.matching_characters == matching_characters,
            r.result == result,
    {
        Match { search, matching_characters, result }
    }
}

} // verus!
