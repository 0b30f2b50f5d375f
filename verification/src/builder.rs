//! Builder for the auto completer: a phrase book is mandatory, the score
//! configuration optional.

use vstd::prelude::*;

use crate::score_configuration::ScoreConfiguration;
use crate::score_configuration::is_default_configuration;
use crate::trie::TrieNode;
use crate::YouAutoCompleteMe;

verus! {

/// Builder for [`YouAutoCompleteMe`].
pub struct YouAutoCompleteMeBuilder<'a> {
    /// The score configuration, when one was supplied.
    pub score_configuration: Option<ScoreConfiguration>,
    /// The phrase book to complete from.
    pub phrase_book: &'a TrieNode,
}

impl<'a> YouAutoCompleteMeBuilder<'a> {
    /// A builder over the given phrase book, with no configuration chosen.
    pub fn new(phrase_book: &'a TrieNode) -> (r: YouAutoCompleteMeBuilder<'a>)
        ensures
            r.score_configuration is None,
            r.phrase_book == phrase_book,
    {
        YouAutoCompleteMeBuilder { score_configuration: None, phrase_book }
    }

    /// Chooses the given score configuration.
    pub fn with_score_configuration(self, score_config: ScoreConfiguration) -> (r:
        YouAutoCompleteMeBuilder<'a>)
        ensures
            r.score_configuration == Some(score_config),
            r.phrase_book == self.phrase_book,
    {
        YouAutoCompleteMeBuilder { score_configuration: Some(score_config), ..self }
    }

    /// Chooses the given score configuration, or none.
    pub fn with_optional_score_configuration(self, score_config: Option<ScoreConfiguration>) -> (r:
        YouAutoCompleteMeBuilder<'a>)
        ensures
            r.score_configuration == score_config,
            r.phrase_book == self.phrase_book,
    {
        YouAutoCompleteMeBuilder { score_configuration: score_config, ..self }
    }

    /// Builds the completer; a missing configuration falls back to the
    /// documented defaults.
    pub fn build(self) -> (r: YouAutoCompleteMe<'a>)
        ensures
            r.phrase_book == self.phrase_book,
            self.score_configuration is Some ==> r.score_configuration
                == self.score_configuration.unwrap(),
            self.score_configuration is None ==> is_default_configuration(r.score_configuration),
    {
        YouAutoCompleteMe {
            score_configuration: match self.score_configuration {
                Some(c) => c,
                None => ScoreConfiguration::builder().build(),
            },
            phrase_book: self.phrase_book,
        }
    }
}

} // verus!
