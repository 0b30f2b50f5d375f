//! Bounded Levenshtein edit distance: the fuzzy-match signal of the query
//! pipeline. The distance is computed by the classic dynamic program over a
//! matrix sized to the two inputs; operands longer than [`MAX_STRING_LEN`]
//! characters are rejected explicitly instead of being truncated.

use vstd::prelude::*;

use crate::errors::AutocompleteError;
use crate::text::chars_eq;
use crate::text::chars_of;

verus! {

/// The longest operand the distance computation accepts, in characters.
pub const MAX_STRING_LEN: usize = 256;

/// The smaller of two naturals.
pub open spec fn min2(a: nat, b: nat) -> nat {
    if a <= b {
        a
    } else {
        b
    }
}

/// The Levenshtein distance between two character sequences: the least
/// number of single-character insertions, deletions and substitutions that
/// turns one into the other, here as the textbook recurrence on last
/// characters.
pub open spec fn lev(a: Seq<char>, b: Seq<char>) -> nat
    decreases a.len() + b.len(),
{
    if a.len() == 0 {
        b.len()
    } else if b.len() == 0 {
        a.len()
    } else {
        let deletion = lev(a.drop_last(), b) + 1;
        let insertion = lev(a, b.drop_last()) + 1;
        let substitution = lev(a.drop_last(), b.drop_last()) + (if a.last() == b.last() {
            0nat
        } else {
            1nat
        });
        min2(min2(deletion, insertion), substitution)
    }
}

/// A string is at distance zero from itself.
pub proof fn lemma_lev_self(a: Seq<char>)
    ensures
        lev(a, a) == 0,
    decreases a.len(),
{
    if a.len() > 0 {
        lemma_lev_self(a.drop_last());
    }
}

/// The distance from the empty string is the other operand's length.
pub proof fn lemma_lev_empty(b: Seq<char>)
    ensures
        lev(Seq::<char>::empty(), b) == b.len(),
{
}

/// The distance is symmetric in its operands.
pub proof fn lemma_lev_symmetric(a: Seq<char>, b: Seq<char>)
    ensures
        lev(a, b) == lev(b, a),
    decreases a.len() + b.len(),
{
    if a.len() > 0 && b.len() > 0 {
        lemma_lev_symmetric(a.drop_last(), b);
        lemma_lev_symmetric(a, b.drop_last());
        lemma_lev_symmetric(a.drop_last(), b.drop_last());
    }
}

/// The distance never exceeds the lengths added together.
pub proof fn lemma_lev_upper(a: Seq<char>, b: Seq<char>)
    ensures
        lev(a, b) <= a.len() + b.len(),
    decreases a.len() + b.len(),
{
    if a.len() > 0 && b.len() > 0 {
        lemma_lev_upper(a.drop_last(), b.drop_last());
    }
}

/// The recurrence, restated over prefixes as the dynamic program fills its
/// matrix: cell `(i, j)` speaks of the first `i` and `j` characters.
proof fn lemma_lev_step(a: Seq<char>, b: Seq<char>, i: int, j: int)
    requires
        1 <= i <= a.len(),
        1 <= j <= b.len(),
    ensures
        lev(a.take(i), b.take(j)) == min2(
            min2(lev(a.take(i - 1), b.take(j)) + 1, lev(a.take(i), b.take(j - 1)) + 1),
            lev(a.take(i - 1), b.take(j - 1)) + (if a[i - 1] == b[j - 1] {
                0nat
            } else {
                1nat
            }),
        ),
{
    assert(a.take(i).drop_last() =~= a.take(i - 1));
    assert(b.take(j).drop_last() =~= b.take(j - 1));
    assert(a.take(i).last() == a[i - 1]);
    assert(b.take(j).last() == b[j - 1]);
}

/// The smaller of two machine integers.
fn umin(a: usize, b: usize) -> (r: usize)
    ensures
        r == min2(a as nat, b as nat),
{
    if a <= b {
        a
    } else {
        b
    }
}

/// The distance computation itself, over character vectors no longer than
/// [`MAX_STRING_LEN`], by the classic row-by-row dynamic program.
pub(crate) fn lev_chars(a: &Vec<char>, b: &Vec<char>) -> (r: usize)
    requires
        a@.len() <= MAX_STRING_LEN,
        b@.len() <= MAX_STRING_LEN,
    ensures
        r == lev(a@, b@),
{
    let m = a.len();
    let n = b.len();
    proof {
        lemma_lev_upper(a@, b@);
    }
    if m == 0 {
        return n;
    }
    if n == 0 {
        return m;
    }
    if chars_eq(a, b) {
        proof {
            lemma_lev_self(a@);
        }
        return 0;
    }
    let mut prev: Vec<usize> = Vec::new();
    let mut j: usize = 0;
    while j <= n
        invariant
            n == b@.len() <= MAX_STRING_LEN,
            m == a@.len() <= MAX_STRING_LEN,
            j <= n + 1,
            prev@.len() == j,
            forall|k: int| 0 <= k < j ==> prev@[k] == lev(a@.take(0), b@.take(k)),
        decreases n + 1 - j,
    {
        proof {
            assert(a@.take(0) =~= Seq::<char>::empty());
            assert(b@.take(j as int).len() == j);
        }
        prev.push(j);
        j += 1;
    }
    let mut i: usize = 1;
    while i <= m
        invariant
            n == b@.len() <= MAX_STRING_LEN,
            m == a@.len() <= MAX_STRING_LEN,
            1 <= i <= m + 1,
            prev@.len() == n + 1,
            forall|k: int| 0 <= k <= n ==> prev@[k] == lev(a@.take(i - 1), b@.take(k)),
        decreases m + 1 - i,
    {
        let mut cur: Vec<usize> = Vec::new();
        proof {
            assert(b@.take(0) =~= Seq::<char>::empty());
            assert(a@.take(i as int).len() == i);
        }
        cur.push(i);
        let mut jj: usize = 1;
        while jj <= n
            invariant
                n == b@.len() <= MAX_STRING_LEN,
                m == a@.len() <= MAX_STRING_LEN,
                1 <= i <= m,
                1 <= jj <= n + 1,
                prev@.len() == n + 1,
                cur@.len() == jj,
                forall|k: int| 0 <= k <= n ==> prev@[k] == lev(a@.take(i - 1), b@.take(k)),
                forall|k: int| 0 <= k < jj ==> cur@[k] == lev(a@.take(i as int), b@.take(k)),
            decreases n + 1 - jj,
        {
            proof {
                lemma_lev_step(a@, b@, i as int, jj as int);
                lemma_lev_upper(a@.take(i as int), b@.take(jj as int - 1));
                lemma_lev_upper(a@.take(i as int - 1), b@.take(jj as int));
                lemma_lev_upper(a@.take(i as int - 1), b@.take(jj as int - 1));
            }
            let cost: usize = if a[i - 1] == b[jj - 1] {
                0
            } else {
                1
            };
            let deletion = prev[jj] + 1;
            let insertion = cur[jj - 1] + 1;
            let substitution = prev[jj - 1] + cost;
            cur.push(umin(umin(deletion, insertion), substitution));
            jj += 1;
        }
        prev = cur;
        i += 1;
    }
    proof {
        assert(a@.take(m as int) =~= a@);
        assert(b@.take(n as int) =~= b@);
    }
    prev[n]
}

/// Calculates the Levenshtein distance between two strings.
///
/// Returns `Err(LengthExceeded)` exactly when an operand is longer than
/// [`MAX_STRING_LEN`] characters; otherwise the distance.
pub fn levenshtein_distance(word: &str, word2: &str) -> (r: Result<usize, AutocompleteError>)
    ensures
        word@.len() <= MAX_STRING_LEN && word2@.len() <= MAX_STRING_LEN ==> r == Ok::<
            usize,
            AutocompleteError,
        >((lev(word@, word2@) as usize)),
        word@.len() > MAX_STRING_LEN || word2@.len() > MAX_STRING_LEN ==> r == Err::<
            usize,
            AutocompleteError,
        >(AutocompleteError::LengthExceeded),
{
    let a = chars_of(word);
    let b = chars_of(word2);
    if a.len() > MAX_STRING_LEN || b.len() > MAX_STRING_LEN {
        return Err(AutocompleteError::LengthExceeded);
    }
    proof {
        lemma_lev_upper(word@, word2@);
    }
    Ok(lev_chars(&a, &b))
}

} // verus!
