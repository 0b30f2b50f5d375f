//! The search query object and its staged builder. The builder will not
//! produce a [`Search`] until a query string has been supplied: supplying
//! it moves the builder from [`NoSearch`] to [`WithSearch`], and only the
//! latter offers [`SearchBuilder::build`].

use vstd::prelude::*;

verus! {

/// What `char::is_uppercase` answers for one character.
pub uninterp spec fn is_upper_char(c: char) -> bool;

/// Relies on char::is_uppercase: whether a character is uppercase (Unicode
/// letter category Lu) depends on the character alone.
#[verifier::external_body]
fn char_is_uppercase(c: char) -> (r: bool)
    ensures
        r == is_upper_char(c),
{
    c.is_uppercase()
}

/// A marker trait restricting the states a [`SearchBuilder`] can be in.
pub trait SearchMarker {

}

/// The builder state before a query string was supplied.
#[derive(Default, Debug)]
pub struct NoSearch;

/// The builder state holding the query string.
#[derive(Debug)]
pub struct WithSearch<'a>(pub &'a str);

impl SearchMarker for NoSearch {

}

impl<'a> SearchMarker for WithSearch<'a> {

}

/// A staged builder for [`Search`].
#[derive(Debug)]
pub struct SearchBuilder<S: SearchMarker> {
    /// The state: nothing, or the query string.
    pub search: S,
    /// Strict case matching, when chosen.
    pub strict_case: Option<bool>,
    /// Fuzzy matching, when chosen.
    pub fuzzy: Option<bool>,
}

impl<S: SearchMarker> SearchBuilder<S> {
    /// Supplies the query string, whatever state the builder was in.
    pub fn search(self, search: &str) -> (r: SearchBuilder<WithSearch<'_>>)
        ensures
            r.search.0@ == search@,
            r.strict_case == self.strict_case,
            r.fuzzy == self.fuzzy,
    {
        let SearchBuilder { strict_case, fuzzy, .. } = self;
        SearchBuilder { search: WithSearch(search), strict_case, fuzzy }
    }

    /// Chooses strict case matching.
    pub fn strict(self, strict: bool) -> (r: SearchBuilder<S>)
        ensures
            r.search == self.search,
            r.strict_case == Some(strict),
            r.fuzzy == self.fuzzy,
    {
        SearchBuilder { strict_case: Some(strict), ..self }
    }

    /// Chooses fuzzy matching.
    pub fn fuzzy(self, fuzzy: bool) -> (r: SearchBuilder<S>)
        ensures
            r.search == self.search,
            r.strict_case == self.strict_case,
            r.fuzzy == Some(fuzzy),
    {
        SearchBuilder { fuzzy: Some(fuzzy), ..self }
    }
}

impl<'a> SearchBuilder<WithSearch<'a>> {
    /// Builds the query; unchosen options default to off.
    pub fn build(self) -> (r: Search<'a>)
        ensures
            r.search@ == self.search.0@,
            r.strict_case == self.strict_case.unwrap_or(false),
            r.fuzzy == self.fuzzy.unwrap_or(false),
    {
        Search {
            search: self.search.0,
            strict_case: match self.strict_case {
                Some(b) => b,
                None => false,
            },
            fuzzy: match self.fuzzy {
                Some(b) => b,
                None => false,
            },
        }
    }
}

impl SearchBuilder<NoSearch> {
    /// A builder with no query and no options chosen.
    pub fn new() -> (r: SearchBuilder<NoSearch>)
        ensures
            r.strict_case is None,
            r.fuzzy is None,
    {
        SearchBuilder { search: NoSearch, strict_case: None, fuzzy: None }
    }
}

/// One search query with its matching options.
#[derive(Debug)]
pub struct Search<'a> {
    /// The query string.
    pub search: &'a str,
    /// Use strict casing.
    pub strict_case: bool,
    /// Allow fuzzy matching.
    pub fuzzy: bool,
}

impl<'a> Search<'a> {
    /// A query over `search` with both options off.
    pub fn new(search: &'a str) -> (r: Search<'a>)
        ensures
            r.search@ == search@,
            r.strict_case == false,
            r.fuzzy == false,
    {
        Search { search, strict_case: false, fuzzy: false }
    }

    /// Whether smart-case matching applies: casing is not strict, yet the
    /// query holds an uppercase character.
    pub fn is_smart_case(&self) -> (r: bool)
        ensures
            r == (!self.strict_case && exists|i: int|
                0 <= i < self.search@.len() && is_upper_char(#[trigger] self.search@[i])),
    {
        if self.strict_case {
            return false;
        }
        let n = self.search.unicode_len();
        let mut i: usize = 0;
        while i < n
            invariant
                !self.strict_case,
                n == self.search@.len(),
                i <= n,
                forall|k: int| 0 <= k < i ==> !is_upper_char(#[trigger] self.search@[k]),
            decreases n - i,
        {
            if char_is_uppercase(self.search.get_char(i)) {
                proof {
                    assert(0 <= i < self.search@.len() && is_upper_char(
                        #[trigger] self.search@[i as int],
                    ));
                    assert(exists|k: int|
                        0 <= k < self.search@.len() && is_upper_char(#[trigger] self.search@[k]));
                }
                return true;
            }
            i += 1;
        }
        false
    }

    /// The uppercase characters of the query, in order.
    pub fn capitlized_chars(&self) -> (r: Vec<char>)
        ensures
            r@ == self.search@.filter(|c: char| is_upper_char(c)),
    {
        let n = self.search.unicode_len();
        let mut r: Vec<char> = Vec::new();
        let mut i: usize = 0;
        proof {
            assert(self.search@.take(0) =~= Seq::<char>::empty());
            broadcast use vstd::seq_lib::group_seq_properties;
        }
        while i < n
            invariant
                n == self.search@.len(),
                i <= n,
                r@ == self.search@.take(i as int).filter(|c: char| is_upper_char(c)),
            decreases n - i,
        {
            let c = self.search.get_char(i);
            proof {
                let pre = self.search@.take(i as int);
                assert(self.search@.take(i + 1) =~= pre.push(self.search@[i as int]));
                broadcast use vstd::seq_lib::group_seq_properties;
                reveal(Seq::filter);
                assert(pre.push(self.search@[i as int]).drop_last() =~= pre);
                assert(pre.push(self.search@[i as int]).filter(|c: char| is_upper_char(c))
                    == if is_upper_char(self.search@[i as int]) {
                        pre.filter(|c: char| is_upper_char(c)).push(self.search@[i as int])
                    } else {
                        pre.filter(|c: char| is_upper_char(c))
                    });
            }
            if char_is_uppercase(c) {
                r.push(c);
            }
            i += 1;
        }
        proof {
            assert(self.search@.take(n as int) =~= self.search@);
        }
        r
    }

    /// A fresh [`SearchBuilder`].
    pub fn builder() -> (r: SearchBuilder<NoSearch>)
        ensures
            r.strict_case is None,
            r.fuzzy is None,
    {
        SearchBuilder::new()
    }
}

} // verus!
