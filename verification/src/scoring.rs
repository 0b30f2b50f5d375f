//! The scoring engine: turns a raw match — a candidate phrase and the
//! positions its characters were matched at — into a relevance score, and
//! orders a batch of scored candidates.
//!
//! The score of a non-empty match is the number of matched characters,
//! plus, for each maximal run of consecutive matched positions, an
//! adjacency bonus of `min(cap, bonus * multiplier^(run_length - 1))`,
//! plus word-boundary, word-prefix and word-suffix bonuses where they
//! apply, minus an offset penalty of `min(cap, penalty * offset)`.

use vstd::arithmetic::mul::lemma_mul_inequality;
use vstd::arithmetic::power::lemma_pow0;
use vstd::arithmetic::power::lemma_pow1;
use vstd::arithmetic::power::lemma_pow_adds;
use vstd::arithmetic::power::pow;
use vstd::prelude::*;

use crate::match_profile::MatchProfile;
use crate::score_configuration::ScoreConfiguration;
use crate::trie::MAX_PHRASE_LEN;

verus! {

/// The smaller of two integers.
pub open spec fn min2i(a: int, b: int) -> int {
    if a <= b {
        a
    } else {
        b
    }
}

/// `ps` lists positions inside `candidate`, strictly ascending.
pub open spec fn valid_positions(ps: Seq<usize>, candidate: Seq<char>) -> bool {
    &&& forall|i: int| 0 <= i < ps.len() ==> (#[trigger] ps[i]) < candidate.len()
    &&& forall|i: int| 1 <= i < ps.len() ==> ps[i - 1] < (#[trigger] ps[i])
}

/// The bonus one maximal run of `run_len` consecutive matched characters
/// earns: the configured bonus grows by the configured multiplier for each
/// character beyond the first, capped at the configured maximum.
pub open spec fn adjacency_run_bonus(cfg: ScoreConfiguration, run_len: int) -> int {
    min2i(
        cfg.max_character_adjacency_bonus as int,
        cfg.character_adjacency_bonus as int * pow(
            cfg.character_adjacency_multiplier as int,
            (run_len - 1) as nat,
        ),
    )
}

/// The length of the maximal run of consecutive values at the front of
/// `ps`.
pub open spec fn first_run_len(ps: Seq<usize>) -> int
    decreases ps.len(),
{
    if ps.len() <= 1 {
        ps.len() as int
    } else if ps[0] + 1 == ps[1] {
        1 + first_run_len(ps.skip(1))
    } else {
        1
    }
}

/// The summed adjacency bonus of every maximal run of `ps`.
pub open spec fn adjacency_total(cfg: ScoreConfiguration, ps: Seq<usize>) -> int
    decreases ps.len(),
{
    if ps.len() == 0 {
        0
    } else {
        let r = first_run_len(ps);
        if 1 <= r <= ps.len() {
            adjacency_run_bonus(cfg, r) + adjacency_total(cfg, ps.skip(r))
        } else {
            0
        }
    }
}

/// The match beginning at `start` sits at a word boundary: at the very
/// start of the candidate or right after a delimiter.
pub open spec fn at_word_start(delims: Seq<char>, candidate: Seq<char>, start: int) -> bool {
    start == 0 || delims.contains(candidate[start - 1])
}

/// The match ending at `last` ends a word: at the very end of the
/// candidate or right before a delimiter.
pub open spec fn at_word_end(delims: Seq<char>, candidate: Seq<char>, last: int) -> bool {
    last == candidate.len() - 1 || delims.contains(candidate[last + 1])
}

/// The relevance score of a match: see the module description. An empty
/// match scores zero.
pub open spec fn score_spec(cfg: ScoreConfiguration, candidate: Seq<char>, ps: Seq<usize>) -> int {
    if ps.len() == 0 {
        0
    } else {
        let start = ps[0] as int;
        let last = ps[ps.len() - 1] as int;
        ps.len() + adjacency_total(cfg, ps) + (if at_word_start(
            cfg.word_delimiters@,
            candidate,
            start,
        ) {
            cfg.word_boundary_bonus as int
        } else {
            0
        }) + (if start == 0 {
            cfg.word_prefix_bonus as int
        } else {
            0
        }) + (if at_word_end(cfg.word_delimiters@, candidate, last) {
            cfg.word_suffix_bonus as int
        } else {
            0
        }) - min2i(cfg.max_offset_penalty as int, cfg.character_offset_penalty as int * start)
    }
}

/// In a strictly ascending position list, the position at index `i` is at
/// least `i`.
proof fn lemma_position_lower(ps: Seq<usize>, candidate: Seq<char>, i: int)
    requires
        valid_positions(ps, candidate),
        0 <= i < ps.len(),
    ensures
        ps[i] >= i,
    decreases i,
{
    if i > 0 {
        lemma_position_lower(ps, candidate, i - 1);
        assert(ps[i - 1] < ps[i]);
    }
}

/// Strictly ascending positions inside `candidate` cannot outnumber its
/// characters.
pub proof fn lemma_positions_count(ps: Seq<usize>, candidate: Seq<char>)
    requires
        valid_positions(ps, candidate),
    ensures
        ps.len() <= candidate.len(),
{
    if ps.len() > 0 {
        lemma_position_lower(ps, candidate, ps.len() - 1);
        assert(ps[ps.len() - 1] < candidate.len());
    }
}

/// An exec-observed maximal front run has the length `first_run_len` gives.
proof fn lemma_first_run_observed(ps: Seq<usize>, r: int)
    requires
        1 <= r <= ps.len(),
        forall|k: int| 0 <= k < r - 1 ==> (#[trigger] ps[k]) + 1 == ps[k + 1],
        r == ps.len() || ps[r - 1] + 1 != ps[r],
    ensures
        first_run_len(ps) == r,
    decreases r,
{
    if r == 1 {
        if ps.len() > 1 {
            assert(ps[0] + 1 != ps[1]);
        }
    } else {
        assert(ps[0] + 1 == ps[1]);
        let t = ps.skip(1);
        assert forall|k: int| 0 <= k < r - 2 implies (#[trigger] t[k]) + 1 == t[k + 1] by {
            assert(ps[k + 1] + 1 == ps[k + 2]);
        }
        if r - 1 < t.len() {
            assert(t[r - 2] == ps[r - 1] && t[r - 1] == ps[r]);
        }
        lemma_first_run_observed(t, r - 1);
    }
}

/// Whether `v` holds the character `c`.
fn contains_char(v: &Vec<char>, c: char) -> (r: bool)
    ensures
        r == v@.contains(c),
{
    let mut i: usize = 0;
    while i < v.len()
        invariant
            i <= v@.len(),
            forall|k: int| 0 <= k < i ==> v@[k] != c,
        decreases v@.len() - i,
    {
        if v[i] == c {
            assert(v@[i as int] == c);
            return true;
        }
        i += 1;
    }
    false
}

/// The bonus of one run: grows the configured bonus by the configured
/// multiplier per extra character, capped at the configured maximum.
fn run_bonus(cfg: &ScoreConfiguration, run_len: usize) -> (r: u8)
    requires
        run_len >= 1,
    ensures
        r as int == adjacency_run_bonus(*cfg, run_len as int),
{
    let bonus = cfg.character_adjacency_bonus;
    let mult = cfg.character_adjacency_multiplier;
    let cap = cfg.max_character_adjacency_bonus;
    let ghost b = bonus as int;
    let ghost m = mult as int;
    let mut acc: u32 = bonus as u32;
    proof {
        lemma_pow0(m);
        assert(b * 1 == b);
    }
    let mut k: usize = 1;
    while k < run_len
        invariant
            1 <= k <= run_len,
            acc <= 256,
            acc as int == min2i(256, b * pow(m, (k - 1) as nat)),
            b == bonus as int,
            m == mult as int,
        decreases run_len - k,
    {
        let ghost p = b * pow(m, (k - 1) as nat);
        proof {
            assert(acc * (mult as u32) <= 256 * 255) by (nonlinear_arith)
                requires
                    acc <= 256,
                    mult <= 255,
            ;
        }
        acc = acc * (mult as u32);
        if acc > 256 {
            acc = 256;
        }
        proof {
            let p2 = b * pow(m, k as nat);
            lemma_pow1(m);
            lemma_pow_adds(m, 1nat, (k - 1) as nat);
            assert(pow(m, k as nat) == m * pow(m, (k - 1) as nat));
            assert(p2 == p * m) by (nonlinear_arith)
                requires
                    p == b * pow(m, (k - 1) as nat),
                    p2 == b * (m * pow(m, (k - 1) as nat)),
            ;
            if p <= 256 {
                assert(min2i(256, p) == p);
                assert(acc as int == min2i(256, p2));
            } else {
                assert(min2i(256, p) == 256);
                if m == 0 {
                    assert(p2 == 0);
                } else {
                    lemma_mul_inequality(256, p, m);
                    assert(256 * m >= 256);
                    assert(p2 >= 256);
                }
                assert(acc as int == min2i(256, p2));
            }
        }
        k += 1;
    }
    if acc >= cap as u32 {
        cap
    } else {
        acc as u8
    }
}

/// Inserts `x` into a sequence that is sorted by descending score, behind
/// every earlier entry of the same score: the tie-break is the order of
/// first encounter.
pub open spec fn insert_ranked(sorted: Seq<MatchProfile>, x: MatchProfile) -> Seq<MatchProfile>
    decreases sorted.len(),
{
    if sorted.len() == 0 {
        seq![x]
    } else if x.score > sorted[0].score {
        seq![x] + sorted
    } else {
        seq![sorted[0]] + insert_ranked(sorted.skip(1), x)
    }
}

/// The ranking of `candidates` at `threshold`: candidates scoring below
/// the threshold are dropped, the rest are ordered by descending score,
/// equal scores staying in their original order.
pub open spec fn rank_spec(candidates: Seq<MatchProfile>, threshold: int) -> Seq<MatchProfile>
    decreases candidates.len(),
{
    if candidates.len() == 0 {
        Seq::empty()
    } else {
        let prev = rank_spec(candidates.drop_last(), threshold);
        if candidates.last().score >= threshold {
            insert_ranked(prev, candidates.last())
        } else {
            prev
        }
    }
}

/// A sequence is sorted by weakly descending score.
pub open spec fn sorted_desc(s: Seq<MatchProfile>) -> bool {
    forall|i: int, j: int| 0 <= i < j < s.len() ==> (#[trigger] s[i]).score >= (#[trigger] s[j]).score
}

proof fn lemma_insert_ranked_sorted(sorted: Seq<MatchProfile>, x: MatchProfile)
    requires
        sorted_desc(sorted),
    ensures
        sorted_desc(insert_ranked(sorted, x)),
        insert_ranked(sorted, x).len() == sorted.len() + 1,
        forall|e: MatchProfile|
            #[trigger] insert_ranked(sorted, x).contains(e) <==> (sorted.contains(e) || e == x),
    decreases sorted.len(),
{
    let out = insert_ranked(sorted, x);
    if sorted.len() == 0 {
        assert(out =~= seq![x]);
        assert(out[0] == x);
        assert forall|e: MatchProfile| #[trigger] out.contains(e) implies (sorted.contains(e) || e
            == x) by {
            let k = choose|k: int| 0 <= k < out.len() && out[k] == e;
        }
    } else if x.score > sorted[0].score {
        assert(out =~= seq![x] + sorted);
        assert forall|i: int, j: int| 0 <= i < j < out.len() implies (#[trigger] out[i]).score >= (
        #[trigger] out[j]).score by {
            if i > 0 {
                assert(sorted[i - 1].score >= sorted[j - 1].score);
            } else {
                assert(out[j] == sorted[j - 1]);
                assert(sorted[0].score >= sorted[j - 1].score);
            }
        }
        assert forall|e: MatchProfile| #[trigger] out.contains(e) implies (sorted.contains(e) || e
            == x) by {
            let k = choose|k: int| 0 <= k < out.len() && out[k] == e;
            if k > 0 {
                assert(sorted[k - 1] == e);
            }
        }
        assert forall|e: MatchProfile| sorted.contains(e) || e == x implies #[trigger] out.contains(
            e,
        ) by {
            if e == x {
                assert(out[0] == e);
            } else {
                let k = choose|k: int| 0 <= k < sorted.len() && sorted[k] == e;
                assert(out[k + 1] == e);
            }
        }
    } else {
        let tail = sorted.skip(1);
        assert(sorted_desc(tail));
        lemma_insert_ranked_sorted(tail, x);
        let sub = insert_ranked(tail, x);
        assert(out =~= seq![sorted[0]] + sub);
        assert forall|i: int, j: int| 0 <= i < j < out.len() implies (#[trigger] out[i]).score >= (
        #[trigger] out[j]).score by {
            if i == 0 {
                assert(out[j] == sub[j - 1]);
                assert(sub.contains(sub[j - 1]));
                if sub[j - 1] == x {
                    assert(sorted[0].score >= x.score);
                } else {
                    assert(tail.contains(sub[j - 1]));
                    let k = choose|k: int| 0 <= k < tail.len() && tail[k] == sub[j - 1];
                    assert(sorted[k + 1] == tail[k]);
                    assert(sorted[0].score >= sorted[k + 1].score);
                }
            } else {
                assert(out[i] == sub[i - 1] && out[j] == sub[j - 1]);
            }
        }
        assert forall|e: MatchProfile| #[trigger] out.contains(e) implies (sorted.contains(e) || e
            == x) by {
            let k = choose|k: int| 0 <= k < out.len() && out[k] == e;
            if k == 0 {
                assert(sorted[0] == e);
            } else {
                assert(sub.contains(sub[k - 1]));
                if sub[k - 1] != x {
                    let k2 = choose|k2: int| 0 <= k2 < tail.len() && tail[k2] == sub[k - 1];
                    assert(sorted[k2 + 1] == e);
                }
            }
        }
        assert forall|e: MatchProfile| sorted.contains(e) || e == x implies #[trigger] out.contains(
            e,
        ) by {
            if e == x {
                assert(sub.contains(e));
                let k = choose|k: int| 0 <= k < sub.len() && sub[k] == e;
                assert(out[k + 1] == e);
            } else {
                let k = choose|k: int| 0 <= k < sorted.len() && sorted[k] == e;
                if k == 0 {
                    assert(out[0] == e);
                } else {
                    assert(tail[k - 1] == e);
                    assert(sub.contains(e));
                    let k2 = choose|k2: int| 0 <= k2 < sub.len() && sub[k2] == e;
                    assert(out[k2 + 1] == e);
                }
            }
        }
    }
}

/// The ranking is sorted by descending score, and a profile appears in
/// it exactly when it was handed in and reaches the threshold.
pub proof fn lemma_rank_spec_properties(candidates: Seq<MatchProfile>, threshold: int)
    ensures
        sorted_desc(rank_spec(candidates, threshold)),
        forall|e: MatchProfile|
            #[trigger] rank_spec(candidates, threshold).contains(e) <==> (candidates.contains(e)
                && e.score >= threshold),
    decreases candidates.len(),
{
    let out = rank_spec(candidates, threshold);
    if candidates.len() == 0 {
        assert forall|e: MatchProfile| #[trigger] out.contains(e) implies false by {
            let k = choose|k: int| 0 <= k < out.len() && out[k] == e;
        }
        assert forall|e: MatchProfile| candidates.contains(e) implies false by {
            let k = choose|k: int| 0 <= k < candidates.len() && candidates[k] == e;
        }
    } else {
        let front = candidates.drop_last();
        lemma_rank_spec_properties(front, threshold);
        let prev = rank_spec(front, threshold);
        if candidates.last().score >= threshold {
            lemma_insert_ranked_sorted(prev, candidates.last());
        }
        assert forall|e: MatchProfile| #[trigger]
            out.contains(e) <==> (candidates.contains(e) && e.score >= threshold) by {
            if candidates.contains(e) {
                let k = choose|k: int| 0 <= k < candidates.len() && candidates[k] == e;
                if k < candidates.len() - 1 {
                    assert(front[k] == e);
                    assert(front.contains(e));
                } else {
                    assert(e == candidates.last());
                }
            }
            if front.contains(e) {
                let k = choose|k: int| 0 <= k < front.len() && front[k] == e;
                assert(candidates[k] == e);
            }
            if e == candidates.last() {
                assert(candidates[candidates.len() - 1] == e);
            }
        }
    }
}

/// Insertion grows a sequence by exactly one entry.
proof fn lemma_insert_ranked_len(sorted: Seq<MatchProfile>, x: MatchProfile)
    ensures
        insert_ranked(sorted, x).len() == sorted.len() + 1,
    decreases sorted.len(),
{
    if sorted.len() > 0 && !(x.score > sorted[0].score) {
        lemma_insert_ranked_len(sorted.skip(1), x);
    }
}

/// No two profiles of `s` carry the same phrase.
pub open spec fn distinct_profile_phrases(s: Seq<MatchProfile>) -> bool {
    forall|i: int, j: int|
        0 <= i < j < s.len() ==> (#[trigger] s[i]).phrase@ != (#[trigger] s[j]).phrase@
}

/// Insertion keeps phrases distinct when the new profile's phrase is
/// fresh.
proof fn lemma_insert_ranked_distinct(sorted: Seq<MatchProfile>, x: MatchProfile)
    requires
        sorted_desc(sorted),
        distinct_profile_phrases(sorted),
        forall|e: MatchProfile| #[trigger] sorted.contains(e) ==> e.phrase@ != x.phrase@,
    ensures
        distinct_profile_phrases(insert_ranked(sorted, x)),
    decreases sorted.len(),
{
    lemma_insert_ranked_sorted(sorted, x);
    let out = insert_ranked(sorted, x);
    if sorted.len() == 0 {
        assert(out =~= seq![x]);
    } else if x.score > sorted[0].score {
        assert(out =~= seq![x] + sorted);
        assert forall|i: int, j: int| 0 <= i < j < out.len() implies (#[trigger] out[i]).phrase@
            != (#[trigger] out[j]).phrase@ by {
            if i == 0 {
                assert(out[j] == sorted[j - 1]);
                assert(sorted.contains(sorted[j - 1]));
            } else {
                assert(out[i] == sorted[i - 1] && out[j] == sorted[j - 1]);
            }
        }
    } else {
        let tail = sorted.skip(1);
        let sub = insert_ranked(tail, x);
        assert(sorted_desc(tail));
        assert forall|e: MatchProfile| #[trigger] tail.contains(e) implies e.phrase@
            != x.phrase@ by {
            let k = choose|k: int| 0 <= k < tail.len() && tail[k] == e;
            assert(sorted[k + 1] == e);
            assert(sorted.contains(e));
        }
        lemma_insert_ranked_distinct(tail, x);
        lemma_insert_ranked_sorted(tail, x);
        assert(out =~= seq![sorted[0]] + sub);
        assert forall|i: int, j: int| 0 <= i < j < out.len() implies (#[trigger] out[i]).phrase@
            != (#[trigger] out[j]).phrase@ by {
            if i == 0 {
                assert(out[j] == sub[j - 1]);
                assert(sub.contains(sub[j - 1]));
                if sub[j - 1] == x {
                    assert(sorted.contains(sorted[0]));
                    if sorted.len() > 0 {
                        assert(sorted[0].phrase@ != x.phrase@);
                    }
                } else {
                    assert(tail.contains(sub[j - 1]));
                    let k = choose|k: int| 0 <= k < tail.len() && tail[k] == sub[j - 1];
                    assert(sorted[k + 1] == tail[k]);
                }
            } else {
                assert(out[i] == sub[i - 1] && out[j] == sub[j - 1]);
            }
        }
    }
}

/// The ranking of candidates with pairwise distinct phrases keeps the
/// phrases pairwise distinct.
pub proof fn lemma_rank_spec_distinct(candidates: Seq<MatchProfile>, threshold: int)
    requires
        distinct_profile_phrases(candidates),
    ensures
        distinct_profile_phrases(rank_spec(candidates, threshold)),
    decreases candidates.len(),
{
    if candidates.len() > 0 {
        let front = candidates.drop_last();
        assert forall|i: int, j: int| 0 <= i < j < front.len() implies (#[trigger] front[i]).phrase@
            != (#[trigger] front[j]).phrase@ by {
            assert(candidates[i].phrase@ != candidates[j].phrase@);
        }
        lemma_rank_spec_distinct(front, threshold);
        lemma_rank_spec_properties(front, threshold);
        let prev = rank_spec(front, threshold);
        let x = candidates.last();
        if x.score >= threshold {
            assert forall|e: MatchProfile| #[trigger] prev.contains(e) implies e.phrase@
                != x.phrase@ by {
                assert(front.contains(e));
                let k = choose|k: int| 0 <= k < front.len() && front[k] == e;
                assert(candidates[k] == e);
                assert(candidates[k].phrase@ != candidates[candidates.len() - 1].phrase@);
            }
            lemma_insert_ranked_distinct(prev, x);
        }
    }
}

/// The ranking of candidates that all pass the threshold keeps them all.
pub proof fn lemma_rank_spec_len(candidates: Seq<MatchProfile>, threshold: int)
    requires
        forall|i: int| 0 <= i < candidates.len() ==> (#[trigger] candidates[i]).score >= threshold,
    ensures
        rank_spec(candidates, threshold).len() == candidates.len(),
    decreases candidates.len(),
{
    if candidates.len() > 0 {
        lemma_rank_spec_len(candidates.drop_last(), threshold);
        lemma_insert_ranked_len(rank_spec(candidates.drop_last(), threshold), candidates.last());
    }
}

/// Drops the candidates scoring below `threshold` and orders the rest by
/// descending score; candidates of equal score keep their original
/// relative order.
pub fn rank_and_filter(candidates: Vec<MatchProfile>, threshold: i64) -> (r: Vec<MatchProfile>)
    ensures
        r@ == rank_spec(candidates@, threshold as int),
        sorted_desc(r@),
{
    let ghost orig = candidates@;
    let mut rest = candidates;
    let mut out: Vec<MatchProfile> = Vec::new();
    let ghost i: int = 0;
    proof {
        assert(orig.take(0) =~= Seq::<MatchProfile>::empty());
        assert(orig.skip(0) =~= orig);
    }
    while rest.len() > 0
        invariant
            0 <= i <= orig.len(),
            i == orig.len() - rest@.len(),
            rest@ == orig.skip(i),
            out@ == rank_spec(orig.take(i), threshold as int),
            sorted_desc(out@),
        decreases rest@.len(),
    {
        let x = rest.remove(0);
        proof {
            assert(orig.skip(i)[0] == orig[i]);
            assert(rest@ =~= orig.skip(i + 1));
            assert(orig.take(i + 1).drop_last() =~= orig.take(i));
            assert(orig.take(i + 1).last() == orig[i]);
        }
        if x.score >= threshold {
            let mut k: usize = 0;
            while k < out.len() && out[k].score >= x.score
                invariant
                    k <= out@.len(),
                    sorted_desc(out@),
                    forall|t: int| 0 <= t < k ==> (#[trigger] out@[t]).score >= x.score,
                decreases out@.len() - k,
            {
                k += 1;
            }
            let ghost pre = out@;
            out.insert(k, x);
            proof {
                lemma_insert_ranked_at(pre, x, k as int);
                assert(out@ =~= pre.take(k as int) + seq![x] + pre.skip(k as int));
                lemma_insert_ranked_sorted(pre, x);
            }
        }
        proof {
            i = i + 1;
        }
    }
    proof {
        assert(orig.take(orig.len() as int) =~= orig);
    }
    out
}

/// Inserting at the first index whose score falls below the new entry's
/// realises `insert_ranked`.
proof fn lemma_insert_ranked_at(sorted: Seq<MatchProfile>, x: MatchProfile, k: int)
    requires
        0 <= k <= sorted.len(),
        forall|t: int| 0 <= t < k ==> (#[trigger] sorted[t]).score >= x.score,
        k == sorted.len() || sorted[k].score < x.score,
    ensures
        insert_ranked(sorted, x) == sorted.take(k) + seq![x] + sorted.skip(k),
    decreases k,
{
    if k == 0 {
        if sorted.len() == 0 {
            assert(insert_ranked(sorted, x) =~= sorted.take(0) + seq![x] + sorted.skip(0));
        } else {
            assert(x.score > sorted[0].score);
            assert(insert_ranked(sorted, x) =~= sorted.take(0) + seq![x] + sorted.skip(0));
        }
    } else {
        assert(sorted[0].score >= x.score);
        let tail = sorted.skip(1);
        assert forall|t: int| 0 <= t < k - 1 implies (#[trigger] tail[t]).score >= x.score by {
            assert(sorted[t + 1].score >= x.score);
        }
        if k - 1 < tail.len() {
            assert(tail[k - 1] == sorted[k as int]);
        }
        lemma_insert_ranked_at(tail, x, k - 1);
        assert(insert_ranked(sorted, x) =~= seq![sorted[0]] + (tail.take(k - 1) + seq![x]
            + tail.skip(k - 1)));
        assert(seq![sorted[0]] + (tail.take(k - 1) + seq![x] + tail.skip(k - 1)) =~= sorted.take(k)
            + seq![x] + sorted.skip(k));
    }
}

/// Scores a match of `query` against `candidate` at the given matched
/// positions, with the configured heuristic. The query itself does not
/// enter the formula; the matched positions carry all that is scored.
#[verifier::rlimit(100)]
pub fn score(
    configuration: &ScoreConfiguration,
    query: &Vec<char>,
    candidate: &Vec<char>,
    matched_positions: &Vec<usize>,
) -> (r: i64)
    requires
        valid_positions(matched_positions@, candidate@),
        candidate@.len() <= MAX_PHRASE_LEN,
    ensures
        r as int == score_spec(*configuration, candidate@, matched_positions@),
{
    let ps = matched_positions;
    if ps.len() == 0 {
        return 0;
    }
    proof {
        lemma_positions_count(ps@, candidate@);
    }
    let base: i64 = ps.len() as i64;
    let mut total: i64 = 0;
    let mut i: usize = 0;
    proof {
        assert(ps@.skip(0) =~= ps@);
    }
    while i < ps.len()
        invariant
            valid_positions(ps@, candidate@),
            candidate@.len() <= MAX_PHRASE_LEN,
            ps@.len() <= candidate@.len(),
            i <= ps@.len(),
            0 <= total <= 255 * i,
            total + adjacency_total(*configuration, ps@.skip(i as int)) == adjacency_total(
                *configuration,
                ps@,
            ),
        decreases ps@.len() - i,
    {
        let mut j: usize = i;
        while j + 1 < ps.len() && ps[j] + 1 == ps[j + 1]
            invariant
                valid_positions(ps@, candidate@),
                candidate@.len() <= MAX_PHRASE_LEN,
                ps@.len() <= candidate@.len(),
                i <= j < ps@.len(),
                forall|k: int| i <= k < j ==> (#[trigger] ps@[k]) + 1 == ps@[k + 1],
            decreases ps@.len() - j,
        {
            j += 1;
        }
        let run_len = j - i + 1;
        let b = run_bonus(configuration, run_len);
        proof {
            let tail = ps@.skip(i as int);
            assert forall|k: int| 0 <= k < run_len - 1 implies (#[trigger] tail[k]) + 1 == tail[k
                + 1] by {
                assert(ps@[i + k] + 1 == ps@[i + k + 1]);
            }
            if run_len < tail.len() {
                assert(tail[run_len - 1] == ps@[j as int] && tail[run_len as int] == ps@[j + 1]);
            }
            lemma_first_run_observed(tail, run_len as int);
            assert(tail.skip(run_len as int) =~= ps@.skip(j + 1));
        }
        total = total + (b as i64);
        i = j + 1;
    }
    proof {
        assert(ps@.skip(ps@.len() as int) =~= Seq::<usize>::empty());
    }
    let start = ps[0];
    let last = ps[ps.len() - 1];
    let delims = &configuration.word_delimiters;
    let boundary: bool = start == 0 || contains_char(delims, candidate[start - 1]);
    let prefix: bool = start == 0;
    let suffix: bool = last == candidate.len() - 1 || contains_char(delims, candidate[last + 1]);
    proof {
        assert(ps@[0] < candidate@.len());
        assert((configuration.character_offset_penalty as u64) * (start as u64) <= 255 * 256)
            by (nonlinear_arith)
            requires
                configuration.character_offset_penalty <= 255,
                start <= 256,
        ;
    }
    let raw_penalty: u64 = (configuration.character_offset_penalty as u64) * (start as u64);
    let penalty: i64 = if raw_penalty >= configuration.max_offset_penalty as u64 {
        configuration.max_offset_penalty as i64
    } else {
        raw_penalty as i64
    };
    let mut r: i64 = base + total;
    if boundary {
        r = r + configuration.word_boundary_bonus as i64;
    }
    if prefix {
        r = r + configuration.word_prefix_bonus as i64;
    }
    if suffix {
        r = r + configuration.word_suffix_bonus as i64;
    }
    r = r - penalty;
    r
}

} // verus!
