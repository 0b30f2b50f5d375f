//! Configuration of how candidates are matched, separate from how they
//! are scored. The options are chosen through a builder.

use vstd::prelude::*;

verus! {

/// Builder for [`MatchConfiguration`].
#[derive(Debug, Default)]
#[allow(dead_code)]
pub struct MatchConfigurationBuilder {
    strict_case: Option<bool>,
    fuzzy: Option<bool>,
}

impl MatchConfigurationBuilder {
    /// A builder with no option chosen.
    #[allow(dead_code)]
    fn new() -> (r: MatchConfigurationBuilder)
        ensures
            r.strict_case is None,
            r.fuzzy is None,
    {
        MatchConfigurationBuilder { strict_case: None, fuzzy: None }
    }
}

/// How candidates are matched.
#[derive(Debug, Default)]
pub struct MatchConfiguration {}

impl MatchConfiguration {
    /// A fresh [`MatchConfigurationBuilder`].
    #[allow(dead_code)]
    fn builder() -> (r: MatchConfigurationBuilder)
        ensures
            r.strict_case is None,
            r.fuzzy is None,
    {
        MatchConfigurationBuilder { strict_case: None, fuzzy: None }
    }
}

} // verus!
