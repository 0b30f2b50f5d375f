//! The searchable index: a character trie that stores every suffix of every
//! inserted phrase (in original case and, when it differs, in ASCII
//! lowercase), so that case-insensitive substring queries reduce to one
//! root-anchored walk.

use vstd::prelude::*;

use crate::errors::AutocompleteError;
use crate::match_profile::MatchProfile;
use crate::score_configuration::ScoreConfiguration;
use crate::search::Search;
use crate::text::chars_eq;
use crate::text::chars_of;
use crate::text::distinct_phrases;
use crate::text::has_phrase;
use crate::text::is_prefix_of;
use crate::text::is_substring_of;
use crate::text::is_suffix_of;
use crate::text::lemma_has_phrase_push;
use crate::text::lemma_lower_idempotent;
use crate::text::lemma_skip_is_suffix;
use crate::text::lemma_substring_len;
use crate::text::lemma_substring_lower;
use crate::text::lemma_substring_via_suffix;
use crate::text::lemma_suffix_is_skip;
use crate::text::lower;
use crate::text::lower_spec;

verus! {

/// The longest phrase the index accepts, in characters.
pub const MAX_PHRASE_LEN: usize = 256;

/// The phrases of a phrase book that a query matches: the phrase book
/// entries of which the ASCII-lowercased query is a substring, ignoring
/// ASCII case. The empty query matches nothing.
pub open spec fn search_matches(phrases: Set<Seq<char>>, q: Seq<char>) -> Set<Seq<char>> {
    Set::new(
        |w: Seq<char>|
            phrases.contains(w) && q.len() > 0 && is_substring_of(lower_spec(q), lower_spec(w)),
    )
}

/// One node of the phrase trie. The root node doubles as the whole index.
///
/// Each child edge is labelled by one character; at most one child per
/// character. `words` holds the phrases whose indexed suffix path ends at
/// this node, without duplicates.
pub struct TrieNode {
    children: Vec<(char, Box<TrieNode>)>,
    words: Vec<String>,
    phrases: Ghost<Set<Seq<char>>>,
}

impl TrieNode {
    /// The phrases attached to this very node, as character sequences.
    pub closed spec fn words_view(self) -> Set<Seq<char>> {
        Set::new(|w: Seq<char>| has_phrase(self.words@, w))
    }

    /// Structural well-formedness of this node and all nodes below it:
    /// child labels are unique and attached phrase lists carry no duplicate.
    pub closed spec fn nodes_ok(self) -> bool
        decreases self,
    {
        &&& distinct_phrases(self.words@)
        &&& forall|i: int, j: int|
            0 <= i < j < self.children@.len() ==> (#[trigger] self.children@[i]).0 != (
            #[trigger] self.children@[j]).0
        &&& forall|i: int|
            0 <= i < self.children@.len() ==> (#[trigger] self.children@[i]).1.nodes_ok()
    }

    /// The phrase `w` is attached to the node reached from here along `path`.
    pub closed spec fn word_at(self, path: Seq<char>, w: Seq<char>) -> bool
        decreases path.len(),
    {
        if path.len() == 0 {
            self.words_view().contains(w)
        } else {
            exists|i: int|
                0 <= i < self.children@.len() && (#[trigger] self.children@[i]).0 == path[0]
                    && self.children@[i].1.word_at(path.skip(1), w)
        }
    }

    /// The phrase `w` is attached somewhere in this subtree.
    pub closed spec fn subtree_word(self, w: Seq<char>) -> bool
        decreases self,
    {
        self.words_view().contains(w) || exists|i: int|
            0 <= i < self.children@.len() && (#[trigger] self.children@[i]).1.subtree_word(w)
    }

    /// The phrase `w` is attached along some path that extends `q`.
    pub closed spec fn reachable_word(self, q: Seq<char>, w: Seq<char>) -> bool {
        exists|p: Seq<char>| #[trigger] is_prefix_of(q, p) && self.word_at(p, w)
    }

    /// The phrase book: every phrase this index has accepted.
    pub closed spec fn phrases(self) -> Set<Seq<char>> {
        self.phrases@
    }

    /// Full well-formedness: the structure is sound and the stored paths are
    /// exactly the suffixes of each accepted phrase and of its lowercase
    /// form.
    pub closed spec fn wf(self) -> bool {
        &&& self.nodes_ok()
        &&& forall|w: Seq<char>| #[trigger]
            self.phrases@.contains(w) ==> 0 < w.len() <= MAX_PHRASE_LEN
        &&& forall|path: Seq<char>, w: Seq<char>| #[trigger]
            self.word_at(path, w) <==> self.phrases@.contains(w) && (is_suffix_of(path, w)
                || is_suffix_of(path, lower_spec(w)))
    }
}

impl TrieNode {
    /// A node with no children and no attached phrases.
    fn empty() -> (t: TrieNode)
        ensures
            t.nodes_ok(),
            t.children@.len() == 0,
            t.words@.len() == 0,
    {
        TrieNode { children: Vec::new(), words: Vec::new(), phrases: Ghost(Set::empty()) }
    }

    /// `word_at` depends on the stored structure alone, not on the ghost
    /// phrase book.
    proof fn lemma_word_at_same_shape(a: TrieNode, b: TrieNode, p: Seq<char>, u: Seq<char>)
        requires
            a.children == b.children,
            a.words == b.words,
        ensures
            a.word_at(p, u) == b.word_at(p, u),
    {
        reveal_with_fuel(TrieNode::word_at, 1);
        if p.len() == 0 {
            assert(a.words_view() =~= b.words_view());
        }
    }

    /// A node without children or phrases holds no phrase at any path.
    proof fn lemma_bare_node_no_word(self, path: Seq<char>, w: Seq<char>)
        requires
            self.children@.len() == 0,
            self.words@.len() == 0,
        ensures
            !self.word_at(path, w),
    {
        reveal_with_fuel(TrieNode::word_at, 2);
    }

    /// Looks up the child edge labelled `c`.
    fn find_child(&self, c: char) -> (r: Option<usize>)
        ensures
            match r {
                Some(j) => j < self.children@.len() && self.children@[j as int].0 == c,
                None => forall|i: int|
                    0 <= i < self.children@.len() ==> (#[trigger] self.children@[i]).0 != c,
            },
    {
        let mut i: usize = 0;
        while i < self.children.len()
            invariant
                i <= self.children@.len(),
                forall|k: int| 0 <= k < i ==> (#[trigger] self.children@[k]).0 != c,
            decreases self.children@.len() - i,
        {
            if self.children[i].0 == c {
                return Some(i);
            }
            i += 1;
        }
        None
    }

    /// Attaches `word` at the end of the path `path[pos..]`, creating edges
    /// as needed; every other attachment is untouched.
    fn m_insert(&mut self, path: &Vec<char>, pos: usize, word: &String)
        requires
            old(self).nodes_ok(),
            pos <= path@.len(),
        ensures
            final(self).nodes_ok(),
            final(self).phrases == old(self).phrases,
            forall|p: Seq<char>, u: Seq<char>| #[trigger]
                final(self).word_at(p, u) <==> (old(self).word_at(p, u) || (p == path@.skip(
                    pos as int,
                ) && u == word@)),
        decreases path@.len() - pos,
    {
        if pos == path.len() {
            let ghost pre = *self;
            if !contains_word(&self.words, word) {
                self.words.push(word.clone());
                proof {
                    assert forall|u: Seq<char>| #[trigger]
                        has_phrase(self.words@, u) implies (has_phrase(pre.words@, u) || u
                        == word@) by {
                        let k = choose|k: int| 0 <= k < self.words@.len() && (#[trigger] self.words@[k])@ == u;
                        if k < pre.words@.len() {
                            assert((pre.words@[k])@ == u);
                        }
                    }
                    assert forall|u: Seq<char>| has_phrase(pre.words@, u) implies #[trigger]
                        has_phrase(self.words@, u) by {
                        let k = choose|k: int| 0 <= k < pre.words@.len() && (#[trigger] pre.words@[k])@ == u;
                        assert((self.words@[k])@ == u);
                    }
                    assert((self.words@[pre.words@.len() as int])@ == word@);
                }
            }
            proof {
                assert(path@.skip(pos as int) =~= Seq::<char>::empty());
                assert(self.words_view() =~= pre.words_view().insert(word@));
                assert forall|p: Seq<char>, u: Seq<char>| #[trigger]
                    self.word_at(p, u) <==> (pre.word_at(p, u) || (p == path@.skip(pos as int)
                        && u == word@)) by {
                    if p.len() == 0 {
                        assert(p =~= Seq::<char>::empty());
                    }
                }
            }
        } else {
            let c = path[pos];
            let ghost orig = *self;
            let j: usize = match self.find_child(c) {
                Some(j) => j,
                None => {
                    self.children.push((c, Box::new(TrieNode::empty())));
                    self.children.len() - 1
                },
            };
            let ghost mid = *self;
            proof {
                // in both branches: labels of `orig` kept, label `j` is `c`,
                // a fresh child (if any) holds nothing.
                assert(mid.nodes_ok());
                assert(mid.children@[j as int].0 == c);
                assert forall|i: int|
                    0 <= i < mid.children@.len() && i != j implies #[trigger] mid.children@[i]
                        == orig.children@[i] by {}
            }
            let child = &mut self.children[j];
            let ghost child_pre = *child;
            child.1.m_insert(path, pos + 1, word);
            proof {
                let chpre = child_pre.1;
                let chpost = final(child).1;
                assert(final(child).0 == c);
                assert(self.children@ =~= mid.children@.update(j as int, *final(child)));
                let rest = path@.skip(pos as int + 1);
                let whole = path@.skip(pos as int);
                assert(whole.len() > 0 && whole[0] == c && whole.skip(1) =~= rest);
                assert forall|p: Seq<char>, u: Seq<char>| #[trigger]
                    self.word_at(p, u) <==> (orig.word_at(p, u) || (p == whole && u == word@)) by {
                    if p.len() == 0 {
                        assert(self.words_view() =~= orig.words_view());
                        assert(p != whole);
                    } else if p[0] != c {
                        assert(p != whole);
                        assert forall|i: int|
                            0 <= i < self.children@.len() && (#[trigger] self.children@[i]).0
                                == p[0] implies self.children@[i] == orig.children@[i] by {}
                        if orig.word_at(p, u) {
                            let i = choose|i: int|
                                0 <= i < orig.children@.len() && (#[trigger] orig.children@[i]).0
                                    == p[0] && orig.children@[i].1.word_at(p.skip(1), u);
                            assert(self.children@[i] == orig.children@[i]);
                            assert(self.word_at(p, u));
                        }
                    } else {
                        // only edge `j` carries label `c`, before and after
                        assert forall|i: int|
                            0 <= i < self.children@.len() && (#[trigger] self.children@[i]).0 == c
                                implies i == j by {}
                        assert forall|i: int|
                            0 <= i < orig.children@.len() && (#[trigger] orig.children@[i]).0 == c
                                implies i == j && j < orig.children@.len() by {}
                        if self.word_at(p, u) {
                            assert(chpost.word_at(p.skip(1), u));
                        }
                        if chpost.word_at(p.skip(1), u) {
                            assert(self.children@[j as int].0 == c && self.children@[j as
                                int].1.word_at(p.skip(1), u));
                            assert(self.word_at(p, u));
                        }
                        if j < orig.children@.len() {
                            // the edge existed already
                            assert(chpre == orig.children@[j as int].1);
                            if orig.word_at(p, u) {
                                assert(chpre.word_at(p.skip(1), u));
                            }
                            if chpre.word_at(p.skip(1), u) {
                                assert(orig.word_at(p, u));
                            }
                        } else {
                            // the edge is new: nothing was reachable along it
                            chpre.lemma_bare_node_no_word(p.skip(1), u);
                            if orig.word_at(p, u) {
                                let i = choose|i: int|
                                    0 <= i < orig.children@.len() && (
                                    #[trigger] orig.children@[i]).0 == c && orig.children@[
                                        i
                                    ].1.word_at(p.skip(1), u);
                                assert(false);
                            }
                        }
                        if p == whole && u == word@ {
                            assert(p.skip(1) == rest);
                            assert(chpost.word_at(rest, word@));
                        }
                        if p.skip(1) == rest && u == word@ {
                            assert forall|k: int| 1 <= k < p.len() implies p[k] == whole[k] by {
                                assert(p[k] == p.skip(1)[k - 1]);
                                assert(whole[k] == whole.skip(1)[k - 1]);
                            }
                            assert(p =~= whole);
                        }
                    }
                }
            }
        }
    }
}

/// Whether `w` already occurs in `words`.
fn contains_word(words: &Vec<String>, w: &String) -> (r: bool)
    ensures
        r == has_phrase(words@, w@),
{
    let mut i: usize = 0;
    while i < words.len()
        invariant
            i <= words@.len(),
            forall|k: int| 0 <= k < i ==> (#[trigger] words@[k])@ != w@,
        decreases words@.len() - i,
    {
        if words[i].eq(w) {
            return true;
        }
        i += 1;
    }
    false
}

/// `p` is one of the paths laid down by the first `i` insertion rounds for
/// a phrase `w` with lowercase form `lw`: a suffix of `w` starting before
/// `i`, or, when the two forms differ, such a suffix of `lw`.
spec fn laid_path(w: Seq<char>, lw: Seq<char>, differs: bool, i: int, p: Seq<char>) -> bool
    decreases i,
{
    i > 0 && (laid_path(w, lw, differs, i - 1, p) || p == w.skip(i - 1) || (differs && p == lw.skip(
        i - 1,
    )))
}

/// After all rounds, the laid paths are exactly the suffixes of `w` and,
/// when the forms differ, of `lw`.
proof fn lemma_laid_path_full(w: Seq<char>, lw: Seq<char>, differs: bool, i: int, p: Seq<char>)
    requires
        lw.len() == w.len(),
        0 <= i <= w.len() + 1,
    ensures
        laid_path(w, lw, differs, i, p) <==> ((is_suffix_of(p, w) && w.len() - p.len() < i) || (
        differs && is_suffix_of(p, lw) && w.len() - p.len() < i)),
    decreases i,
{
    if i > 0 {
        lemma_laid_path_full(w, lw, differs, i - 1, p);
        if p == w.skip(i - 1) {
            lemma_skip_is_suffix(w, i - 1);
        }
        if differs && p == lw.skip(i - 1) {
            lemma_skip_is_suffix(lw, i - 1);
        }
        if is_suffix_of(p, w) && w.len() - p.len() == i - 1 {
            lemma_suffix_is_skip(p, w);
        }
        if differs && is_suffix_of(p, lw) && w.len() - p.len() == i - 1 {
            lemma_suffix_is_skip(p, lw);
        }
    }
}

impl TrieNode {
    /// Indexes `value`: every suffix of the phrase — and of its ASCII
    /// lowercase form, when that differs — becomes a path of the trie with
    /// the original phrase attached at its end.
    ///
    /// The empty phrase is accepted and ignored; a phrase longer than
    /// [`MAX_PHRASE_LEN`] characters is rejected and the index is left
    /// unchanged. Inserting a phrase twice leaves the phrase book as after
    /// one insertion.
    pub fn insert(&mut self, value: &str) -> (r: Result<(), AutocompleteError>)
        requires
            old(self).wf(),
        ensures
            final(self).wf(),
            value@.len() == 0 ==> r == Ok::<(), AutocompleteError>(()) && *final(self)
                == *old(self),
            value@.len() > MAX_PHRASE_LEN ==> r == Err::<(), AutocompleteError>(
                AutocompleteError::InputTooLong,
            ) && *final(self) == *old(self),
            0 < value@.len() <= MAX_PHRASE_LEN ==> r == Ok::<(), AutocompleteError>(())
                && final(self).phrases() == old(self).phrases().insert(value@),
    {
        let chars = chars_of(value);
        if chars.len() == 0 {
            return Ok(());
        }
        if chars.len() > MAX_PHRASE_LEN {
            return Err(AutocompleteError::InputTooLong);
        }
        let lowered = lower(&chars);
        let differs = !chars_eq(&lowered, &chars);
        let word: String = value.to_owned();
        let ghost orig = *self;
        let ghost w = value@;
        let ghost lw = lower_spec(value@);
        let mut i: usize = 0;
        while i <= chars.len()
            invariant
                self.nodes_ok(),
                orig.wf(),
                orig == *old(self),
                w == value@,
                lw == lower_spec(value@),
                0 < w.len() <= MAX_PHRASE_LEN,
                chars@ == w,
                chars@.len() <= MAX_PHRASE_LEN,
                lowered@ == lw,
                lowered@.len() == chars@.len(),
                word@ == w,
                differs == (lw != w),
                i <= chars@.len() + 1,
                self.phrases == orig.phrases,
                forall|p: Seq<char>, u: Seq<char>| #[trigger]
                    self.word_at(p, u) <==> (orig.word_at(p, u) || (u == w && laid_path(
                        w,
                        lw,
                        differs,
                        i as int,
                        p,
                    ))),
            decreases chars@.len() + 1 - i,
        {
            let ghost before = *self;
            self.m_insert(&chars, i, &word);
            if differs {
                self.m_insert(&lowered, i, &word);
            }
            proof {
                assert forall|p: Seq<char>, u: Seq<char>| #[trigger]
                    self.word_at(p, u) <==> (orig.word_at(p, u) || (u == w && laid_path(
                        w,
                        lw,
                        differs,
                        i + 1,
                        p,
                    ))) by {}
            }
            i += 1;
        }
        proof {
            assert(lw.len() == w.len());
            let pre = *self;
            self.phrases@ = orig.phrases@.insert(w);
            assert forall|p: Seq<char>, u: Seq<char>| #[trigger]
                self.word_at(p, u) <==> (self.phrases@.contains(u) && (is_suffix_of(p, u)
                    || is_suffix_of(p, lower_spec(u)))) by {
                TrieNode::lemma_word_at_same_shape(*self, pre, p, u);
                lemma_laid_path_full(w, lw, differs, w.len() as int + 1, p);
                if !differs {
                    assert(lw == w);
                }
                assert(pre.word_at(p, u) <==> (orig.word_at(p, u) || (u == w && laid_path(
                    w,
                    lw,
                    differs,
                    i as int,
                    p,
                ))));
            }
        }
        Ok(())
    }
}

/// `w` is attached below one of the first `i` children.
spec fn subtree_word_upto(children: Seq<(char, Box<TrieNode>)>, i: int, w: Seq<char>) -> bool
    decreases i,
{
    i > 0 && (subtree_word_upto(children, i - 1, w) || children[i - 1].1.subtree_word(w))
}

impl TrieNode {
    /// Scanning all children finds exactly the phrases of the subtrees,
    /// which together with this node's own phrases make up `subtree_word`.
    proof fn lemma_subtree_upto_all(self, i: int, w: Seq<char>)
        requires
            i == self.children@.len(),
        ensures
            self.subtree_word(w) <==> (subtree_word_upto(self.children@, i, w)
                || self.words_view().contains(w)),
        decreases i,
    {
        assert forall|n: int| 0 <= n <= i implies (subtree_word_upto(self.children@, n, w) <==> (
        exists|k: int|
            0 <= k < n && (#[trigger] self.children@[k]).1.subtree_word(w))) by {
            Self::lemma_subtree_upto_exists(self.children@, n, w);
        }
    }

    proof fn lemma_subtree_upto_exists(children: Seq<(char, Box<TrieNode>)>, n: int, w: Seq<char>)
        requires
            0 <= n <= children.len(),
        ensures
            subtree_word_upto(children, n, w) <==> (exists|k: int|
                0 <= k < n && (#[trigger] children[k]).1.subtree_word(w)),
        decreases n,
    {
        if n > 0 {
            Self::lemma_subtree_upto_exists(children, n - 1, w);
            if subtree_word_upto(children, n, w) {
                if subtree_word_upto(children, n - 1, w) {
                    let k = choose|k: int|
                        0 <= k < n - 1 && (#[trigger] children[k]).1.subtree_word(w);
                    assert(0 <= k < n && children[k].1.subtree_word(w));
                } else {
                    assert(children[n - 1].1.subtree_word(w));
                }
            }
            if exists|k: int| 0 <= k < n && (#[trigger] children[k]).1.subtree_word(w) {
                let k = choose|k: int| 0 <= k < n && (#[trigger] children[k]).1.subtree_word(w);
                if k < n - 1 {
                    assert(0 <= k < n - 1 && children[k].1.subtree_word(w));
                }
            }
        }
    }

    /// A phrase sits in a subtree exactly when it is attached along some
    /// path of that subtree.
    proof fn lemma_subtree_iff_path(self, w: Seq<char>)
        ensures
            self.subtree_word(w) <==> (exists|p: Seq<char>| self.word_at(p, w)),
        decreases self,
    {
        if self.subtree_word(w) {
            if self.words_view().contains(w) {
                assert(self.word_at(Seq::<char>::empty(), w));
            } else {
                let i = choose|i: int|
                    0 <= i < self.children@.len() && (#[trigger] self.children@[i]).1.subtree_word(
                        w,
                    );
                self.children@[i].1.lemma_subtree_iff_path(w);
                let p0 = choose|p0: Seq<char>| self.children@[i].1.word_at(p0, w);
                let p = seq![self.children@[i].0] + p0;
                assert(p.len() > 0 && p[0] == self.children@[i].0);
                assert(p.skip(1) =~= p0);
                assert(self.word_at(p, w));
            }
        }
        if exists|p: Seq<char>| self.word_at(p, w) {
            let p = choose|p: Seq<char>| self.word_at(p, w);
            if p.len() == 0 {
                assert(self.words_view().contains(w));
            } else {
                let i = choose|i: int|
                    0 <= i < self.children@.len() && (#[trigger] self.children@[i]).0 == p[0]
                        && self.children@[i].1.word_at(p.skip(1), w);
                self.children@[i].1.lemma_subtree_iff_path(w);
                assert(self.children@[i].1.subtree_word(w));
            }
        }
    }

    /// Gathers every phrase of this subtree into `out`, skipping those
    /// already present.
    fn collect_all(&self, out: &mut Vec<String>)
        requires
            self.nodes_ok(),
            distinct_phrases(old(out)@),
        ensures
            distinct_phrases(final(out)@),
            forall|w: Seq<char>| #[trigger]
                has_phrase(final(out)@, w) <==> (has_phrase(old(out)@, w) || self.subtree_word(w)),
        decreases *self,
    {
        let mut i: usize = 0;
        while i < self.children.len()
            invariant
                self.nodes_ok(),
                distinct_phrases(out@),
                i <= self.children@.len(),
                forall|w: Seq<char>| #[trigger]
                    has_phrase(out@, w) <==> (has_phrase(old(out)@, w) || subtree_word_upto(
                        self.children@,
                        i as int,
                        w,
                    )),
            decreases self.children@.len() - i,
        {
            self.children[i].1.collect_all(out);
            i += 1;
        }
        let mut k: usize = 0;
        while k < self.words.len()
            invariant
                distinct_phrases(self.words@),
                distinct_phrases(out@),
                k <= self.words@.len(),
                forall|w: Seq<char>| #[trigger]
                    has_phrase(out@, w) <==> (has_phrase(old(out)@, w) || subtree_word_upto(
                        self.children@,
                        self.children@.len() as int,
                        w,
                    ) || has_phrase(self.words@.subrange(0, k as int), w)),
            decreases self.words@.len() - k,
        {
            let ghost pre = out@;
            if !contains_word(out, &self.words[k]) {
                out.push(self.words[k].clone());
            }
            proof {
                lemma_has_phrase_push(pre, self.words@[k as int], self.words@[k as int]@);
                assert(self.words@.subrange(0, k as int + 1) =~= self.words@.subrange(
                    0,
                    k as int,
                ).push(self.words@[k as int]));
                lemma_has_phrase_push(
                    self.words@.subrange(0, k as int),
                    self.words@[k as int],
                    self.words@[k as int]@,
                );
                assert forall|w: Seq<char>| #[trigger]
                    has_phrase(out@, w) <==> (has_phrase(pre, w) || self.words@[k as int]@
                        == w) by {
                    lemma_has_phrase_push(pre, self.words@[k as int], w);
                    if has_phrase(out@, w) && out@ == pre {
                    }
                }
                assert forall|w: Seq<char>|
                    has_phrase(self.words@.subrange(0, k as int + 1), w) <==> (has_phrase(
                        self.words@.subrange(0, k as int),
                        w,
                    ) || self.words@[k as int]@ == w) by {
                    lemma_has_phrase_push(self.words@.subrange(0, k as int), self.words@[k as int], w);
                }
            }
            k += 1;
        }
        proof {
            assert(self.words@.subrange(0, self.words@.len() as int) =~= self.words@);
            assert forall|w: Seq<char>| #[trigger]
                has_phrase(out@, w) <==> (has_phrase(old(out)@, w) || self.subtree_word(w)) by {
                self.lemma_subtree_upto_all(self.children@.len() as int, w);
                assert(self.words_view().contains(w) == has_phrase(self.words@, w));
            }
        }
    }
}

impl TrieNode {
    /// Walks the query `q[pos..]` edge by edge and gathers the phrases of
    /// the subtree at the reached node; an unmatched edge yields nothing.
    fn search_down(&self, q: &Vec<char>, pos: usize) -> (r: Vec<String>)
        requires
            self.nodes_ok(),
            pos <= q@.len(),
        ensures
            distinct_phrases(r@),
            forall|w: Seq<char>| #[trigger]
                has_phrase(r@, w) <==> self.reachable_word(q@.skip(pos as int), w),
        decreases q@.len() - pos,
    {
        let ghost tail = q@.skip(pos as int);
        if pos == q.len() {
            let mut out: Vec<String> = Vec::new();
            self.collect_all(&mut out);
            proof {
                assert(tail =~= Seq::<char>::empty());
                assert forall|w: Seq<char>| #[trigger]
                    has_phrase(out@, w) <==> self.reachable_word(tail, w) by {
                    self.lemma_subtree_iff_path(w);
                    if self.subtree_word(w) {
                        let p = choose|p: Seq<char>| self.word_at(p, w);
                        assert(p.subrange(0, 0) =~= tail);
                        assert(is_prefix_of(tail, p) && self.word_at(p, w));
                    }
                    if self.reachable_word(tail, w) {
                        let p = choose|p: Seq<char>| #[trigger]
                            is_prefix_of(tail, p) && self.word_at(p, w);
                    }
                }
            }
            out
        } else {
            let c = q[pos];
            match self.find_child(c) {
                None => {
                    let out: Vec<String> = Vec::new();
                    proof {
                        assert forall|w: Seq<char>| !self.reachable_word(tail, w) by {
                            if self.reachable_word(tail, w) {
                                let p = choose|p: Seq<char>| #[trigger]
                                    is_prefix_of(tail, p) && self.word_at(p, w);
                                assert(p.len() >= tail.len() > 0);
                                assert(p[0] == tail[0] == c);
                            }
                        }
                    }
                    out
                },
                Some(j) => {
                    let out = self.children[j].1.search_down(q, pos + 1);
                    proof {
                        let child = self.children@[j as int].1;
                        let tail1 = q@.skip(pos as int + 1);
                        assert(tail.len() > 0 && tail[0] == c && tail.skip(1) =~= tail1);
                        assert forall|w: Seq<char>| #[trigger]
                            has_phrase(out@, w) <==> self.reachable_word(tail, w) by {
                            if child.reachable_word(tail1, w) {
                                let p1 = choose|p1: Seq<char>| #[trigger]
                                    is_prefix_of(tail1, p1) && child.word_at(p1, w);
                                let p = seq![c] + p1;
                                assert(p.len() > 0 && p[0] == c && p.skip(1) =~= p1);
                                assert(self.word_at(p, w));
                                assert(p.subrange(0, tail.len() as int) =~= seq![c]
                                    + p1.subrange(0, tail1.len() as int));
                                assert(tail =~= seq![c] + tail1);
                                assert(is_prefix_of(tail, p));
                            }
                            if self.reachable_word(tail, w) {
                                let p = choose|p: Seq<char>| #[trigger]
                                    is_prefix_of(tail, p) && self.word_at(p, w);
                                assert(p.len() >= tail.len() > 0);
                                assert(p[0] == p.subrange(0, tail.len() as int)[0]);
                                assert(p[0] == c);
                                let i = choose|i: int|
                                    0 <= i < self.children@.len() && (
                                    #[trigger] self.children@[i]).0 == p[0] && self.children@[
                                        i
                                    ].1.word_at(p.skip(1), w);
                                assert(i == j);
                                assert(child.word_at(p.skip(1), w));
                                assert(p.skip(1).subrange(0, tail1.len() as int) =~= p.subrange(
                                    0,
                                    tail.len() as int,
                                ).skip(1));
                                assert(tail1 =~= tail.skip(1));
                                assert(is_prefix_of(tail1, p.skip(1)));
                                assert(child.reachable_word(tail1, w));
                            }
                        }
                    }
                    out
                },
            }
        }
    }

    /// Finds every accepted phrase that contains `value` as a substring,
    /// ignoring ASCII case. The empty query matches nothing; the result
    /// carries no duplicate; the original casing of each phrase is returned.
    pub fn search(&self, value: &str) -> (r: Vec<String>)
        requires
            self.wf(),
        ensures
            distinct_phrases(r@),
            forall|w: Seq<char>| #[trigger]
                has_phrase(r@, w) <==> search_matches(self.phrases(), value@).contains(w),
    {
        let chars = chars_of(value);
        if chars.len() == 0 {
            let r: Vec<String> = Vec::new();
            return r;
        }
        let q = lower(&chars);
        let r = self.search_down(&q, 0);
        proof {
            let lq = lower_spec(value@);
            assert(q@.skip(0) =~= lq);
            assert forall|w: Seq<char>| #[trigger]
                has_phrase(r@, w) <==> (value@.len() > 0 && self.phrases@.contains(w)
                    && is_substring_of(lq, lower_spec(w))) by {
                lemma_substring_via_suffix(lq, lower_spec(w));
                if self.reachable_word(lq, w) {
                    let p = choose|p: Seq<char>| #[trigger]
                        is_prefix_of(lq, p) && self.word_at(p, w);
                    assert(self.phrases@.contains(w));
                    if is_suffix_of(p, w) {
                        lemma_substring_via_suffix(lq, w);
                        assert(is_substring_of(lq, w));
                        lemma_substring_lower(lq, w);
                        lemma_lower_idempotent(value@);
                        assert(lower_spec(lq) == lq);
                    } else {
                        assert(is_suffix_of(p, lower_spec(w)));
                    }
                }
                if self.phrases@.contains(w) && is_substring_of(lq, lower_spec(w)) {
                    let p = choose|p: Seq<char>|
                        is_suffix_of(p, lower_spec(w)) && #[trigger] is_prefix_of(lq, p);
                    assert(self.word_at(p, w));
                    assert(self.reachable_word(lq, w));
                }
            }
        }
        r
    }

    /// Returns every accepted phrase, without duplicates and in original
    /// casing; used to enumerate fuzzy candidates.
    pub fn get_all(&self) -> (r: Vec<String>)
        requires
            self.wf(),
        ensures
            distinct_phrases(r@),
            forall|w: Seq<char>| #[trigger] has_phrase(r@, w) <==> self.phrases().contains(w),
    {
        let mut out: Vec<String> = Vec::new();
        self.collect_all(&mut out);
        proof {
            assert forall|w: Seq<char>| #[trigger]
                has_phrase(out@, w) <==> self.phrases@.contains(w) by {
                self.lemma_subtree_iff_path(w);
                if self.phrases@.contains(w) {
                    assert(w.subrange(w.len() - w.len(), w.len() as int) =~= w);
                    assert(is_suffix_of(w, w));
                    assert(self.word_at(w, w));
                }
            }
        }
        out
    }
}

impl Default for TrieNode {
    /// An empty index.
    fn default() -> (t: TrieNode)
        ensures
            t.wf(),
            t.phrases() == Set::<Seq<char>>::empty(),
    {
        let t = TrieNode { children: Vec::new(), words: Vec::new(), phrases: Ghost(Set::empty()) };
        proof {
            assert forall|path: Seq<char>, w: Seq<char>| !t.word_at(path, w) by {
                reveal_with_fuel(TrieNode::word_at, 2);
            }
        }
        t
    }
}

impl TrieNode {
    /// Every phrase the index accepted is non-empty and fits the length
    /// cap.
    pub proof fn lemma_phrase_len(self, w: Seq<char>)
        requires
            self.wf(),
            self.phrases().contains(w),
        ensures
            0 < w.len() <= MAX_PHRASE_LEN,
    {
    }

    /// Law: a search for any non-empty substring of an accepted phrase
    /// matches that phrase — the condition `search` promises of each of
    /// its results holds of it.
    pub proof fn lemma_search_finds_inserted(self, q: Seq<char>, w: Seq<char>)
        requires
            self.wf(),
            self.phrases().contains(w),
            is_substring_of(q, w),
            q.len() > 0,
        ensures
            search_matches(self.phrases(), q).contains(w),
    {
        lemma_substring_lower(q, w);
    }
}

/// A data type that can resolve a search query to scored match profiles.
pub trait Searcher {
    /// Whether this value is ready to be searched.
    spec fn searchable(&self) -> bool;

    /// What `search` promises of its result for a given query.
    spec fn search_post(&self, query: Seq<char>, r: Seq<MatchProfile>) -> bool;

    /// Resolves the query to scored match profiles.
    fn search(&self, s: &Search<'_>) -> (r: Vec<MatchProfile>)
        requires
            self.searchable(),
        ensures
            self.search_post(s.search@, r@),
    ;
}

impl Searcher for TrieNode {
    /// The index can be searched once well-formed.
    open spec fn searchable(&self) -> bool {
        self.wf()
    }

    /// Every profile is a case-insensitive substring match of the query,
    /// and some profile comes back exactly when some phrase matches a
    /// non-empty query.
    open spec fn search_post(&self, query: Seq<char>, r: Seq<MatchProfile>) -> bool {
        &&& forall|k: int|
            0 <= k < r.len() ==> crate::exact_match(*self, query, (#[trigger] r[k]).phrase@)
        &&& (r.len() > 0) == (query.len() > 0 && (exists|w: Seq<char>|
            crate::exact_match(*self, query, w)))
    }

    /// Resolves the query with the default scoring configuration.
    fn search(&self, s: &Search<'_>) -> (r: Vec<MatchProfile>) {
        crate::exact_profiles(self, &ScoreConfiguration::builder().build(), s.search)
    }
}

/// Law: inserting a phrase twice leaves every search where one insertion
/// left it — the phrase book, and with it the match set of every query,
/// is the same.
pub proof fn lemma_insert_idempotent(phrases: Set<Seq<char>>, w: Seq<char>, q: Seq<char>)
    ensures
        phrases.insert(w).insert(w) == phrases.insert(w),
        search_matches(phrases.insert(w).insert(w), q) == search_matches(phrases.insert(w), q),
{
    assert(phrases.insert(w).insert(w) =~= phrases.insert(w));
}

/// Law: a query longer than every phrase of the book matches nothing.
pub proof fn lemma_long_query_matches_nothing(phrases: Set<Seq<char>>, q: Seq<char>)
    requires
        forall|w: Seq<char>| #[trigger] phrases.contains(w) ==> w.len() < q.len(),
    ensures
        search_matches(phrases, q) == Set::<Seq<char>>::empty(),
{
    assert forall|w: Seq<char>| !(#[trigger] search_matches(phrases, q).contains(w)) by {
        if search_matches(phrases, q).contains(w) {
            lemma_substring_len(lower_spec(q), lower_spec(w));
        }
    }
    assert(search_matches(phrases, q) =~= Set::<Seq<char>>::empty());
}

} // verus!
