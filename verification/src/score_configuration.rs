//! The scoring knobs: an immutable value object shared across queries,
//! built by [`ScoreConfigurationBuilder`] with a documented default for
//! every field.

use vstd::prelude::*;

verus! {

/// The default word delimiters: space, `-`, `/` and `_`.
pub open spec fn default_delimiters() -> Seq<char> {
    seq![' ', '-', '/', '_']
}

/// Builder for [`ScoreConfiguration`]: unset fields fall back to their
/// documented defaults at [`ScoreConfigurationBuilder::build`].
#[derive(Debug, Default)]
pub struct ScoreConfigurationBuilder {
    /// Delimiters to use, when set.
    pub word_delimiters: Option<Vec<char>>,
    /// Adjacency bonus, when set.
    pub character_adjacency_bonus: Option<u8>,
    /// Adjacency multiplier, when set.
    pub character_adjacency_multiplier: Option<u8>,
    /// Adjacency bonus cap, when set.
    pub max_character_adjacency_bonus: Option<u8>,
    /// Word-boundary bonus, when set.
    pub word_boundary_bonus: Option<u8>,
    /// Word-prefix bonus, when set.
    pub word_prefix_bonus: Option<u8>,
    /// Word-suffix bonus, when set.
    pub word_suffix_bonus: Option<u8>,
    /// Offset penalty, when set.
    pub character_offset_penalty: Option<u8>,
    /// Offset penalty cap, when set.
    pub max_offset_penalty: Option<u8>,
}

impl ScoreConfigurationBuilder {
    /// A builder with every field unset.
    pub fn new() -> (r: ScoreConfigurationBuilder)
        ensures
            r == (ScoreConfigurationBuilder {
                word_delimiters: None,
                character_adjacency_bonus: None,
                character_adjacency_multiplier: None,
                max_character_adjacency_bonus: None,
                word_boundary_bonus: None,
                word_prefix_bonus: None,
                word_suffix_bonus: None,
                character_offset_penalty: None,
                max_offset_penalty: None,
            }),
    {
        ScoreConfigurationBuilder {
            word_delimiters: None,
            character_adjacency_bonus: None,
            character_adjacency_multiplier: None,
            max_character_adjacency_bonus: None,
            word_boundary_bonus: None,
            word_prefix_bonus: None,
            word_suffix_bonus: None,
            character_offset_penalty: None,
            max_offset_penalty: None,
        }
    }

    /// Sets the delimiters that mark word boundaries in scoring.
    pub fn with_word_delimiters(self, word_delimiters: Vec<char>) -> (r: ScoreConfigurationBuilder)
        ensures
            r == (ScoreConfigurationBuilder { word_delimiters: Some(word_delimiters), ..self }),
    {
        ScoreConfigurationBuilder { word_delimiters: Some(word_delimiters), ..self }
    }

    /// Sets the bonus given to adjacent matched characters.
    pub fn with_character_adjacency_bonus(self, character_adjacency_bonus: u8) -> (r:
        ScoreConfigurationBuilder)
        ensures
            r == (ScoreConfigurationBuilder {
                character_adjacency_bonus: Some(character_adjacency_bonus),
                ..self
            }),
    {
        ScoreConfigurationBuilder {
            character_adjacency_bonus: Some(character_adjacency_bonus),
            ..self
        }
    }

    /// Sets the multiplier applied for each further adjacent character.
    pub fn with_character_adjacency_multiplier(self, character_adjacency_multiplier: u8) -> (r:
        ScoreConfigurationBuilder)
        ensures
            r == (ScoreConfigurationBuilder {
                character_adjacency_multiplier: Some(character_adjacency_multiplier),
                ..self
            }),
    {
        ScoreConfigurationBuilder {
            character_adjacency_multiplier: Some(character_adjacency_multiplier),
            ..self
        }
    }

    /// Caps the bonus one adjacency run can earn.
    pub fn with_max_character_adjacency_bonus(self, max_character_adjacency_bonus: u8) -> (r:
        ScoreConfigurationBuilder)
        ensures
            r == (ScoreConfigurationBuilder {
                max_character_adjacency_bonus: Some(max_character_adjacency_bonus),
                ..self
            }),
    {
        ScoreConfigurationBuilder {
            max_character_adjacency_bonus: Some(max_character_adjacency_bonus),
            ..self
        }
    }

    /// Sets the bonus for a match starting at a word boundary.
    pub fn with_word_boundary_bonus(self, word_boundary_bonus: u8) -> (r:
        ScoreConfigurationBuilder)
        ensures
            r == (ScoreConfigurationBuilder {
                word_boundary_bonus: Some(word_boundary_bonus),
                ..self
            }),
    {
        ScoreConfigurationBuilder { word_boundary_bonus: Some(word_boundary_bonus), ..self }
    }

    /// Sets the bonus for a match that is a prefix of the candidate.
    pub fn with_word_prefix_bonus(self, word_prefix_bonus: u8) -> (r: ScoreConfigurationBuilder)
        ensures
            r == (ScoreConfigurationBuilder { word_prefix_bonus: Some(word_prefix_bonus), ..self }),
    {
        ScoreConfigurationBuilder { word_prefix_bonus: Some(word_prefix_bonus), ..self }
    }

    /// Sets the bonus for a match ending at a word boundary.
    pub fn with_word_suffix_bonus(self, word_suffix_bonus: u8) -> (r: ScoreConfigurationBuilder)
        ensures
            r == (ScoreConfigurationBuilder { word_suffix_bonus: Some(word_suffix_bonus), ..self }),
    {
        ScoreConfigurationBuilder { word_suffix_bonus: Some(word_suffix_bonus), ..self }
    }

    /// Sets the penalty per character of offset from the candidate's start.
    pub fn with_character_offset_penalty(self, character_offset_penalty: u8) -> (r:
        ScoreConfigurationBuilder)
        ensures
            r == (ScoreConfigurationBuilder {
                character_offset_penalty: Some(character_offset_penalty),
                ..self
            }),
    {
        ScoreConfigurationBuilder {
            character_offset_penalty: Some(character_offset_penalty),
            ..self
        }
    }

    /// Caps the offset penalty.
    pub fn with_max_offset_penalty(self, max_offset_penalty: u8) -> (r: ScoreConfigurationBuilder)
        ensures
            r == (ScoreConfigurationBuilder { max_offset_penalty: Some(max_offset_penalty), ..self }),
    {
        ScoreConfigurationBuilder { max_offset_penalty: Some(max_offset_penalty), ..self }
    }

    /// Builds the configuration, filling unset fields with the documented
    /// defaults: delimiters space, `-`, `/`, `_`; adjacency bonus 1,
    /// multiplier 2, cap 6; boundary bonus 5; prefix bonus 3; suffix bonus
    /// 3; offset penalty 1, cap 3.
    pub fn build(self) -> (r: ScoreConfiguration)
        ensures
            r.word_delimiters@ == (match self.word_delimiters {
                Some(d) => d@,
                None => default_delimiters(),
            }),
            r.character_adjacency_bonus == self.character_adjacency_bonus.unwrap_or(1),
            r.character_adjacency_multiplier == self.character_adjacency_multiplier.unwrap_or(2),
            r.max_character_adjacency_bonus == self.max_character_adjacency_bonus.unwrap_or(6),
            r.word_boundary_bonus == self.word_boundary_bonus.unwrap_or(5),
            r.word_prefix_bonus == self.word_prefix_bonus.unwrap_or(3),
            r.word_suffix_bonus == self.word_suffix_bonus.unwrap_or(3),
            r.character_offset_penalty == self.character_offset_penalty.unwrap_or(1),
            r.max_offset_penalty == self.max_offset_penalty.unwrap_or(3),
    {
        let word_delimiters = match self.word_delimiters {
            Some(d) => d,
            None => {
                let mut d: Vec<char> = Vec::new();
                d.push(' ');
                d.push('-');
                d.push('/');
                d.push('_');
                proof {
                    assert(d@ =~= default_delimiters());
                }
                d
            },
        };
        ScoreConfiguration {
            word_delimiters,
            character_adjacency_bonus: match self.character_adjacency_bonus {
                Some(v) => v,
                None => 1,
            },
            character_adjacency_multiplier: match self.character_adjacency_multiplier {
                Some(v) => v,
                None => 2,
            },
            max_character_adjacency_bonus: match self.max_character_adjacency_bonus {
                Some(v) => v,
                None => 6,
            },
            word_boundary_bonus: match self.word_boundary_bonus {
                Some(v) => v,
                None => 5,
            },
            word_prefix_bonus: match self.word_prefix_bonus {
                Some(v) => v,
                None => 3,
            },
            word_suffix_bonus: match self.word_suffix_bonus {
                Some(v) => v,
                None => 3,
            },
            character_offset_penalty: match self.character_offset_penalty {
                Some(v) => v,
                None => 1,
            },
            max_offset_penalty: match self.max_offset_penalty {
                Some(v) => v,
                None => 3,
            },
        }
    }
}

/// Configuration of the relevance heuristic that orders matches.
#[derive(Debug)]
pub struct ScoreConfiguration {
    /// Characters which mark word boundaries.
    pub word_delimiters: Vec<char>,
    /// Bonus given to adjacent matched characters.
    pub character_adjacency_bonus: u8,
    /// Multiplier applied for each further adjacent matched character.
    pub character_adjacency_multiplier: u8,
    /// Highest bonus one adjacency run can earn.
    pub max_character_adjacency_bonus: u8,
    /// Bonus for a match starting at a word boundary.
    pub word_boundary_bonus: u8,
    /// Additional bonus if the match is a prefix of the candidate.
    pub word_prefix_bonus: u8,
    /// Additional bonus if the match ends a word.
    pub word_suffix_bonus: u8,
    /// Penalty per character between candidate start and match start.
    pub character_offset_penalty: u8,
    /// Cap on the offset penalty.
    pub max_offset_penalty: u8,
}

/// The documented default configuration, field by field.
pub open spec fn is_default_configuration(c: ScoreConfiguration) -> bool {
    &&& c.word_delimiters@ == default_delimiters()
    &&& c.character_adjacency_bonus == 1
    &&& c.character_adjacency_multiplier == 2
    &&& c.max_character_adjacency_bonus == 6
    &&& c.word_boundary_bonus == 5
    &&& c.word_prefix_bonus == 3
    &&& c.word_suffix_bonus == 3
    &&& c.character_offset_penalty == 1
    &&& c.max_offset_penalty == 3
}

impl ScoreConfiguration {
    /// Creates a new builder for a score configuration.
    pub fn builder() -> (r: ScoreConfigurationBuilder)
        ensures
            r == (ScoreConfigurationBuilder {
                word_delimiters: None,
                character_adjacency_bonus: None,
                character_adjacency_multiplier: None,
                max_character_adjacency_bonus: None,
                word_boundary_bonus: None,
                word_prefix_bonus: None,
                word_suffix_bonus: None,
                character_offset_penalty: None,
                max_offset_penalty: None,
            }),
    {
        ScoreConfigurationBuilder::new()
    }
}

impl Default for ScoreConfiguration {
    /// The configuration with every field at its documented default.
    fn default() -> (r: ScoreConfiguration)
        ensures
            is_default_configuration(r),
    {
        ScoreConfigurationBuilder::new().build()
    }
}

} // verus!
