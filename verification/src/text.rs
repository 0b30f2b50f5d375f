//! Character and sequence helpers shared by the trie, the scorer and the
//! query pipeline: ASCII lowercasing and substring containment, each with
//! its mathematical counterpart.

use vstd::prelude::*;

verus! {

/// The ASCII lowercase image of a single character: `'A'..='Z'` map to
/// `'a'..='z'`, every other character is unchanged.
pub open spec fn lower_char_spec(c: char) -> char {
    if 'A' <= c && c <= 'Z' {
        ((c as int) + 32) as char
    } else {
        c
    }
}

/// The ASCII lowercase image of a character sequence, character by character.
pub open spec fn lower_spec(s: Seq<char>) -> Seq<char> {
    s.map_values(|c: char| lower_char_spec(c))
}

/// `needle` occurs contiguously inside `hay` (the empty sequence occurs in
/// every sequence).
pub open spec fn is_substring_of(needle: Seq<char>, hay: Seq<char>) -> bool {
    exists|i: int|
        0 <= i && i + needle.len() <= hay.len() && #[trigger] hay.subrange(
            i,
            i + needle.len() as int,
        ) == needle
}

/// `p` is a prefix of `s`.
pub open spec fn is_prefix_of(p: Seq<char>, s: Seq<char>) -> bool {
    p.len() <= s.len() && s.subrange(0, p.len() as int) == p
}

/// `p` is a suffix of `s`.
pub open spec fn is_suffix_of(p: Seq<char>, s: Seq<char>) -> bool {
    p.len() <= s.len() && s.subrange(s.len() - p.len(), s.len() as int) == p
}

/// A phrase, given as a character sequence, occurs in a vector of strings.
pub open spec fn has_phrase(r: Seq<String>, w: Seq<char>) -> bool {
    exists|k: int| 0 <= k < r.len() && (#[trigger] r[k])@ == w
}

/// No two strings of `r` are equal.
pub open spec fn distinct_phrases(r: Seq<String>) -> bool {
    forall|i: int, j: int| 0 <= i < j < r.len() ==> (#[trigger] r[i])@ != (#[trigger] r[j])@
}

/// Lowercasing a sequence twice is the same as lowercasing it once.
pub proof fn lemma_lower_idempotent(s: Seq<char>)
    ensures
        lower_spec(lower_spec(s)) == lower_spec(s),
{
    assert(lower_spec(lower_spec(s)) =~= lower_spec(s));
}

/// Lowercasing commutes with taking a contiguous part.
pub proof fn lemma_lower_subrange(s: Seq<char>, a: int, b: int)
    requires
        0 <= a <= b <= s.len(),
    ensures
        lower_spec(s.subrange(a, b)) == lower_spec(s).subrange(a, b),
{
    assert(lower_spec(s.subrange(a, b)) =~= lower_spec(s).subrange(a, b));
}

/// Substring containment survives lowercasing both sides.
pub proof fn lemma_substring_lower(needle: Seq<char>, hay: Seq<char>)
    requires
        is_substring_of(needle, hay),
    ensures
        is_substring_of(lower_spec(needle), lower_spec(hay)),
{
    let i = choose|i: int|
        0 <= i && i + needle.len() <= hay.len() && #[trigger] hay.subrange(
            i,
            i + needle.len() as int,
        ) == needle;
    lemma_lower_subrange(hay, i, i + needle.len() as int);
    assert(lower_spec(hay).subrange(i, i + lower_spec(needle).len() as int) == lower_spec(needle));
}

/// A substring never exceeds the containing sequence in length.
pub proof fn lemma_substring_len(needle: Seq<char>, hay: Seq<char>)
    requires
        is_substring_of(needle, hay),
    ensures
        needle.len() <= hay.len(),
{
}

/// `q` occurs in `s` exactly when `q` is a prefix of some suffix of `s`.
pub proof fn lemma_substring_via_suffix(q: Seq<char>, s: Seq<char>)
    ensures
        is_substring_of(q, s) <==> exists|p: Seq<char>|
            is_suffix_of(p, s) && #[trigger] is_prefix_of(q, p),
{
    if is_substring_of(q, s) {
        let i = choose|i: int|
            0 <= i && i + q.len() <= s.len() && #[trigger] s.subrange(i, i + q.len() as int) == q;
        let p = s.subrange(i, s.len() as int);
        assert(s.subrange(s.len() - p.len(), s.len() as int) =~= p);
        assert(p.subrange(0, q.len() as int) =~= s.subrange(i, i + q.len() as int));
        assert(is_suffix_of(p, s) && is_prefix_of(q, p));
    }
    if exists|p: Seq<char>| is_suffix_of(p, s) && #[trigger] is_prefix_of(q, p) {
        let p = choose|p: Seq<char>| is_suffix_of(p, s) && #[trigger] is_prefix_of(q, p);
        let i = s.len() - p.len();
        assert(s.subrange(i, i + q.len() as int) =~= p.subrange(0, q.len() as int));
    }
}

/// Dropping the first `k` characters of `w` leaves a suffix of `w`.
pub proof fn lemma_skip_is_suffix(w: Seq<char>, k: int)
    requires
        0 <= k <= w.len(),
    ensures
        is_suffix_of(w.skip(k), w),
{
    assert(w.subrange(w.len() - w.skip(k).len(), w.len() as int) =~= w.skip(k));
}

/// Every suffix of `w` arises by dropping its first characters.
pub proof fn lemma_suffix_is_skip(p: Seq<char>, w: Seq<char>)
    requires
        is_suffix_of(p, w),
    ensures
        p == w.skip(w.len() - p.len()),
{
    assert(w.skip(w.len() - p.len()) =~= w.subrange(w.len() - p.len(), w.len() as int));
}

/// Appending one string extends the phrases of a vector by exactly that
/// string.
pub proof fn lemma_has_phrase_push(r: Seq<String>, s: String, w: Seq<char>)
    ensures
        has_phrase(r.push(s), w) <==> (has_phrase(r, w) || s@ == w),
{
    if has_phrase(r.push(s), w) {
        let k = choose|k: int| 0 <= k < r.push(s).len() && (#[trigger] r.push(s)[k])@ == w;
        if k < r.len() {
            assert((r[k])@ == w);
        }
    }
    if has_phrase(r, w) {
        let k = choose|k: int| 0 <= k < r.len() && (#[trigger] r[k])@ == w;
        assert((r.push(s)[k])@ == w);
    }
    if s@ == w {
        assert((r.push(s)[r.len() as int])@ == w);
    }
}

/// ASCII-lowercases one character.
pub fn lower_char(c: char) -> (r: char)
    ensures
        r == lower_char_spec(c),
{
    if 'A' <= c && c <= 'Z' {
        ((c as u8) + 32) as char
    } else {
        c
    }
}

/// Compares two character vectors for equality.
pub fn chars_eq(a: &Vec<char>, b: &Vec<char>) -> (r: bool)
    ensures
        r == (a@ == b@),
{
    if a.len() != b.len() {
        proof {
            assert(a@ != b@);
        }
        return false;
    }
    let mut i: usize = 0;
    while i < a.len()
        invariant
            a@.len() == b@.len(),
            i <= a@.len(),
            forall|k: int| 0 <= k < i ==> a@[k] == b@[k],
        decreases a@.len() - i,
    {
        if a[i] != b[i] {
            return false;
        }
        i += 1;
    }
    proof {
        assert(a@ =~= b@);
    }
    true
}

/// `i` is the first offset at which `needle` occurs in `hay`.
pub open spec fn first_occurrence_at(needle: Seq<char>, hay: Seq<char>, i: int) -> bool {
    &&& 0 <= i
    &&& i + needle.len() <= hay.len()
    &&& hay.subrange(i, i + needle.len() as int) == needle
    &&& forall|k: int| 0 <= k < i ==> #[trigger] hay.subrange(k, k + needle.len() as int) != needle
}

/// There is at most one first occurrence.
pub proof fn lemma_first_occurrence_unique(needle: Seq<char>, hay: Seq<char>, i: int, j: int)
    requires
        first_occurrence_at(needle, hay, i),
        first_occurrence_at(needle, hay, j),
    ensures
        i == j,
{
    if i < j {
        assert(hay.subrange(i, i + needle.len() as int) != needle);
    }
    if j < i {
        assert(hay.subrange(j, j + needle.len() as int) != needle);
    }
}

/// Finds the first offset at which `needle` occurs in `hay`, if any.
pub fn find_substring(hay: &Vec<char>, needle: &Vec<char>) -> (r: Option<usize>)
    ensures
        match r {
            Some(i) => first_occurrence_at(needle@, hay@, i as int),
            None => !is_substring_of(needle@, hay@),
        },
        (r is Some) == is_substring_of(needle@, hay@),
{
    if needle.len() > hay.len() {
        return None;
    }
    let hn = hay.len();
    let nn = needle.len();
    let last_start = hn - nn;
    let mut i: usize = 0;
    loop
        invariant
            hn == hay@.len(),
            nn == needle@.len(),
            nn <= hn,
            last_start == hn - nn,
            i <= last_start,
            forall|k: int|
                0 <= k < i ==> #[trigger] hay@.subrange(k, k + needle@.len()) != needle@,
        decreases last_start - i,
    {
        let mut j: usize = 0;
        let mut matches = true;
        while j < needle.len()
            invariant
                hn == hay@.len(),
                nn == needle@.len(),
                i + nn <= hn,
                j <= needle@.len(),
                matches ==> (forall|t: int| 0 <= t < j ==> hay@[i + t] == needle@[t]),
                !matches ==> j == needle@.len() && hay@.subrange(i as int, i + needle@.len())
                    != needle@,
            decreases needle@.len() - j,
        {
            if hay[i + j] != needle[j] {
                matches = false;
                proof {
                    assert(hay@.subrange(i as int, i + needle@.len())[j as int] == hay@[i + j]);
                    assert(hay@.subrange(i as int, i + needle@.len()) != needle@);
                }
                j = needle.len();
            } else {
                proof {
                    assert(hay@[i + j] == needle@[j as int]);
                }
                j += 1;
            }
        }
        if matches {
            proof {
                assert(hay@.subrange(i as int, i + needle@.len()) =~= needle@);
            }
            return Some(i);
        }
        if i == last_start {
            proof {
                if is_substring_of(needle@, hay@) {
                    let k = choose|k: int|
                        0 <= k && k + needle@.len() <= hay@.len() && #[trigger] hay@.subrange(
                            k,
                            k + needle@.len() as int,
                        ) == needle@;
                    assert(k <= last_start);
                }
            }
            return None;
        }
        i += 1;
    }
}

/// Collects the characters of a string slice into a vector.
pub fn chars_of(s: &str) -> (r: Vec<char>)
    ensures
        r@ == s@,
{
    let n = s.unicode_len();
    let mut r: Vec<char> = Vec::new();
    let mut i: usize = 0;
    while i < n
        invariant
            n == s@.len(),
            i <= n,
            r@ == s@.subrange(0, i as int),
        decreases n - i,
    {
        r.push(s.get_char(i));
        i += 1;
        proof {
            assert(r@ =~= s@.subrange(0, i as int));
        }
    }
    proof {
        assert(r@ =~= s@);
    }
    r
}

/// ASCII-lowercases a character vector.
pub fn lower(s: &Vec<char>) -> (r: Vec<char>)
    ensures
        r@ == lower_spec(s@),
{
    let mut r: Vec<char> = Vec::new();
    let mut i: usize = 0;
    while i < s.len()
        invariant
            i <= s@.len(),
            r@ == lower_spec(s@.subrange(0, i as int)),
        decreases s@.len() - i,
    {
        r.push(lower_char(s[i]));
        i += 1;
        proof {
            assert(r@ =~= lower_spec(s@.subrange(0, i as int)));
        }
    }
    proof {
        assert(s@.subrange(0, s@.len() as int) =~= s@);
    }
    r
}

} // verus!
