//! Score fusion: turning raw lexical relevance into comparable
//! probabilities, normalising lexical scores into the unit range for
//! hybrid search, and blending lexical and semantic candidate lists into
//! one fused, weighted result list.

use vstd::prelude::*;
use vstd::arithmetic::div_mod::lemma_div_is_ordered;
use vstd::arithmetic::div_mod::lemma_div_multiples_vanish;
use vstd::arithmetic::div_mod::lemma_div_pos_is_pos;
use vstd::arithmetic::div_mod::lemma_fundamental_div_mod;
use vstd::arithmetic::div_mod::lemma_fundamental_div_mod_converse;
use vstd::arithmetic::div_mod::lemma_mod_bound;
use crate::SCORE_SCALE;
use crate::rank::path_of;
use crate::rank::paths_distinct;
use crate::result::SearchResult;
use crate::text::bytes_eq;

verus! {

/// Largest raw lexical score the fusion stage accepts.
pub const RAW_CAP: i64 = 1_000_000_000_000_000;

/// Largest semantic score the fusion stage accepts.
pub const SEM_CAP: i64 = 100_000_000_000;

/// Sum of the first `n` scores.
pub open spec fn spec_sum(s: Seq<i64>, n: int) -> int
    decreases n,
{
    if n <= 0 {
        0
    } else {
        spec_sum(s, n - 1) + s[n - 1]
    }
}

/// All scores lie in `[0, c]`.
pub open spec fn scores_in_cap(s: Seq<i64>, c: int) -> bool {
    forall|i: int| 0 <= i < s.len() ==> 0 <= #[trigger] s[i] <= c
}

pub proof fn lemma_sum_bounds(s: Seq<i64>, n: int, c: int)
    requires
        0 <= n <= s.len(),
        scores_in_cap(s, c),
    ensures
        0 <= spec_sum(s, n) <= n * c,
    decreases n,
{
    if n > 0 {
        lemma_sum_bounds(s, n - 1, c);
        assert((n - 1) * c + c == n * c) by (nonlinear_arith);
    } else {
        assert(n * c == 0) by (nonlinear_arith)
            requires
                n == 0,
        ;
    }
}

/// Sums agree on agreeing prefixes.
pub proof fn lemma_sum_agree(a: Seq<i64>, b: Seq<i64>, n: int)
    requires
        n <= a.len(),
        n <= b.len(),
        forall|k: int| 0 <= k < n ==> a[k] == b[k],
    ensures
        spec_sum(a, n) == spec_sum(b, n),
    decreases n,
{
    if n > 0 {
        lemma_sum_agree(a, b, n - 1);
    }
}

/// Appending a score adds it to the sum.
pub proof fn lemma_sum_push(s: Seq<i64>, x: i64)
    ensures
        spec_sum(s.push(x), s.len() as int + 1) == spec_sum(s, s.len() as int) + x,
{
    lemma_sum_agree(s.push(x), s, s.len() as int);
}

/// Every score is at most the sum of all of them.
pub proof fn lemma_sum_component(s: Seq<i64>, n: int, i: int)
    requires
        0 <= i < n <= s.len(),
        scores_in_cap(s, RAW_CAP as int),
    ensures
        s[i] <= spec_sum(s, n),
    decreases n,
{
    lemma_sum_bounds(s, n - 1, RAW_CAP as int);
    if i < n - 1 {
        lemma_sum_component(s, n - 1, i);
    }
}

/// The probability assigned to a raw score: its share of the total, in
/// fixed-point ticks.
pub open spec fn prob_of(raw: int, total: int) -> int {
    (raw * SCORE_SCALE) / total
}

/// Transforms raw relevance scores into probabilities over the candidate
/// set: each score becomes its share of the total, so the results of
/// heterogeneous queries are comparable and the shares sum to one up to
/// rounding. A zero total falls back to the uniform distribution.
pub fn prob_normalize(scores: &Vec<i64>) -> (r: Vec<i64>)
    requires
        scores_in_cap(scores@, RAW_CAP as int),
    ensures
        r@.len() == scores@.len(),
        spec_sum(scores@, scores@.len() as int) > 0 ==> forall|i: int|
            0 <= i < r@.len() ==> r@[i] == prob_of(
                scores@[i] as int,
                spec_sum(scores@, scores@.len() as int),
            ),
        spec_sum(scores@, scores@.len() as int) == 0 ==> forall|i: int|
            0 <= i < r@.len() ==> r@[i] == (SCORE_SCALE as int) / (scores@.len() as int),
        scores_in_cap(r@, SCORE_SCALE as int),
{
    let n: usize = scores.len();
    let mut acc: i128 = 0;
    let mut i: usize = 0;
    while i < n
        invariant
            i <= n,
            n == scores@.len(),
            scores_in_cap(scores@, RAW_CAP as int),
            acc == spec_sum(scores@, i as int),
            0 <= acc <= (i as int) * (RAW_CAP as int),
        decreases n - i,
    {
        proof {
            lemma_sum_bounds(scores@, i + 1, RAW_CAP as int);
        }
        acc = acc + (scores[i] as i128);
        i = i + 1;
    }
    let ghost total: int = spec_sum(scores@, scores@.len() as int);
    let mut r: Vec<i64> = Vec::new();
    if acc > 0 {
        let t: u128 = acc as u128;
        let mut i: usize = 0;
        while i < n
            invariant
                i <= n,
                n == scores@.len(),
                scores_in_cap(scores@, RAW_CAP as int),
                t == total,
                total == spec_sum(scores@, n as int),
                total > 0,
                r@.len() == i,
                forall|j: int| 0 <= j < i ==> r@[j] == prob_of(scores@[j] as int, total),
                scores_in_cap(r@, SCORE_SCALE as int),
            decreases n - i,
        {
            proof {
                lemma_sum_component(scores@, n as int, i as int);
            }
            let num: u128 = (scores[i] as u128) * (SCORE_SCALE as u128);
            let q: u128 = num / t;
            proof {
                assert(q == prob_of(scores@[i as int] as int, total));
                assert(scores@[i as int] * SCORE_SCALE <= total * SCORE_SCALE) by (nonlinear_arith)
                    requires
                        scores@[i as int] <= total,
                        SCORE_SCALE > 0,
                ;
                assert(scores@[i as int] * SCORE_SCALE >= 0) by (nonlinear_arith)
                    requires
                        scores@[i as int] >= 0,
                ;
                lemma_div_is_ordered(
                    scores@[i as int] * SCORE_SCALE,
                    total * SCORE_SCALE,
                    total,
                );
                lemma_div_multiples_vanish(SCORE_SCALE as int, total);
                assert((total * SCORE_SCALE) / total == SCORE_SCALE);
                lemma_div_pos_is_pos(scores@[i as int] * SCORE_SCALE, total);
            }
            r.push(q as i64);
            i = i + 1;
        }
        r
    } else {
        if n == 0 {
            return r;
        }
        let share: u64 = (SCORE_SCALE as u64) / (n as u64);
        proof {
            assert(share == (SCORE_SCALE as int) / (n as int));
            lemma_div_is_ordered(SCORE_SCALE as int, SCORE_SCALE as int, n as int);
            vstd::arithmetic::div_mod::lemma_div_nonincreasing(SCORE_SCALE as int, n as int);
            lemma_div_pos_is_pos(SCORE_SCALE as int, n as int);
        }
        let mut i: usize = 0;
        while i < n
            invariant
                i <= n,
                n == scores@.len(),
                0 <= share <= SCORE_SCALE,
                share == (SCORE_SCALE as int) / (n as int),
                r@.len() == i,
                forall|j: int| 0 <= j < i ==> r@[j] == (SCORE_SCALE as int) / (n as int),
                scores_in_cap(r@, SCORE_SCALE as int),
            decreases n - i,
        {
            r.push(share as i64);
            i = i + 1;
        }
        r
    }
}

/// Quotients add up to within one of the quotient of the sum.
pub proof fn lemma_div_add(a: int, b: int, t: int)
    requires
        0 <= a,
        0 <= b,
        0 < t,
    ensures
        a / t + b / t <= (a + b) / t <= a / t + b / t + 1,
{
    lemma_fundamental_div_mod(a, t);
    lemma_fundamental_div_mod(b, t);
    lemma_mod_bound(a, t);
    lemma_mod_bound(b, t);
    let qa = a / t;
    let qb = b / t;
    let ra = a % t;
    let rb = b % t;
    if ra + rb < t {
        assert(a + b == (qa + qb) * t + (ra + rb)) by (nonlinear_arith)
            requires
                a == t * qa + ra,
                b == t * qb + rb,
        ;
        lemma_fundamental_div_mod_converse(a + b, t, qa + qb, ra + rb);
    } else {
        assert(a + b == (qa + qb + 1) * t + (ra + rb - t)) by (nonlinear_arith)
            requires
                a == t * qa + ra,
                b == t * qb + rb,
        ;
        lemma_fundamental_div_mod_converse(a + b, t, qa + qb + 1, ra + rb - t);
    }
}

/// The probability shares of a positive total sum to one, up to one
/// rounding tick lost per candidate: with `n` candidates the shares sum
/// to at least `SCORE_SCALE - n` and at most `SCORE_SCALE`.
pub proof fn lemma_prob_sum(scores: Seq<i64>, probs: Seq<i64>, n: int)
    requires
        0 <= n <= scores.len(),
        probs.len() == scores.len(),
        scores_in_cap(scores, RAW_CAP as int),
        spec_sum(scores, scores.len() as int) > 0,
        forall|i: int|
            0 <= i < probs.len() ==> probs[i] == prob_of(
                scores[i] as int,
                spec_sum(scores, scores.len() as int),
            ),
    ensures
        (spec_sum(scores, n) * SCORE_SCALE) / spec_sum(scores, scores.len() as int) - n
            <= spec_sum(probs, n),
        spec_sum(probs, n) <= (spec_sum(scores, n) * SCORE_SCALE) / spec_sum(
            scores,
            scores.len() as int,
        ),
    decreases n,
{
    let t = spec_sum(scores, scores.len() as int);
    if n > 0 {
        lemma_prob_sum(scores, probs, n - 1);
        lemma_sum_bounds(scores, n - 1, RAW_CAP as int);
        lemma_div_add(spec_sum(scores, n - 1) * SCORE_SCALE, scores[n - 1] * SCORE_SCALE, t);
        assert(spec_sum(scores, n) * SCORE_SCALE == spec_sum(scores, n - 1) * SCORE_SCALE + scores[
            n - 1
        ] * SCORE_SCALE) by (nonlinear_arith)
            requires
                spec_sum(scores, n) == spec_sum(scores, n - 1) + scores[n - 1],
        ;
        assert(scores[n - 1] * SCORE_SCALE >= 0) by (nonlinear_arith)
            requires
                scores[n - 1] >= 0,
        ;
    } else {
        vstd::arithmetic::div_mod::lemma_div_of0(t);
    }
}

/// Over the whole candidate list, the probability shares sum to one up
/// to one rounding tick per candidate.
pub proof fn lemma_prob_total(scores: Seq<i64>, probs: Seq<i64>)
    requires
        probs.len() == scores.len(),
        scores_in_cap(scores, RAW_CAP as int),
        spec_sum(scores, scores.len() as int) > 0,
        forall|i: int|
            0 <= i < probs.len() ==> probs[i] == prob_of(
                scores[i] as int,
                spec_sum(scores, scores.len() as int),
            ),
    ensures
        SCORE_SCALE - scores.len() <= spec_sum(probs, probs.len() as int) <= SCORE_SCALE,
{
    let n = scores.len() as int;
    let t = spec_sum(scores, n);
    lemma_prob_sum(scores, probs, n);
    lemma_div_multiples_vanish(SCORE_SCALE as int, t);
    assert(t * SCORE_SCALE == SCORE_SCALE * t) by (nonlinear_arith);
}

/// The probability transform preserves the relative order of scores.
pub proof fn lemma_prob_order(a: int, b: int, t: int)
    requires
        0 <= a <= b,
        0 < t,
    ensures
        prob_of(a, t) <= prob_of(b, t),
{
    assert(a * SCORE_SCALE <= b * SCORE_SCALE) by (nonlinear_arith)
        requires
            a <= b,
    ;
    lemma_div_is_ordered(a * SCORE_SCALE, b * SCORE_SCALE, t);
}

/// The probability transform is strictly order-preserving whenever the
/// gap between two scores is at least one tick's worth of the total;
/// smaller gaps can be levelled by rounding.
pub proof fn lemma_prob_strict(a: int, b: int, t: int)
    requires
        0 <= a,
        a * SCORE_SCALE + t <= b * SCORE_SCALE,
        0 < t,
    ensures
        prob_of(a, t) < prob_of(b, t),
{
    lemma_fundamental_div_mod(a * SCORE_SCALE, t);
    lemma_mod_bound(a * SCORE_SCALE, t);
    lemma_fundamental_div_mod(b * SCORE_SCALE, t);
    lemma_mod_bound(b * SCORE_SCALE, t);
    let qa = prob_of(a, t);
    let qb = prob_of(b, t);
    assert(qa < qb) by (nonlinear_arith)
        requires
            a * SCORE_SCALE == t * qa + (a * SCORE_SCALE) % t,
            b * SCORE_SCALE == t * qb + (b * SCORE_SCALE) % t,
            0 <= (a * SCORE_SCALE) % t < t,
            0 <= (b * SCORE_SCALE) % t < t,
            a * SCORE_SCALE + t <= b * SCORE_SCALE,
            0 < t,
    ;
}

/// A uniform score list yields the uniform distribution: every share is
/// exactly one over the number of candidates.
pub proof fn lemma_prob_uniform(c: int, n: int)
    requires
        0 < c,
        0 < n,
    ensures
        prob_of(c, n * c) == (SCORE_SCALE as int) / n,
{
    assert(c * SCORE_SCALE == SCORE_SCALE * c) by (nonlinear_arith);
    assert(n * c == c * n) by (nonlinear_arith);
    vstd::arithmetic::div_mod::lemma_div_denominator(SCORE_SCALE * c, c, n);
    lemma_div_multiples_vanish(SCORE_SCALE as int, c);
}

/// The normalised share of the best lexical score under max-scaling.
pub open spec fn max_scaled(v: int, divisor: int) -> int {
    (v * SCORE_SCALE) / divisor
}

/// Scales scores into `[0, SCORE_SCALE]` by the maximum score, so the
/// best lexical candidate carries full weight in the hybrid blend. When
/// every score is zero or the list is empty the divisor is the scale
/// itself, standing for a range of one, which guards the division.
pub fn max_normalize(scores: &Vec<i64>) -> (r: Vec<i64>)
    requires
        scores_in_cap(scores@, SCORE_SCALE as int),
    ensures
        r@.len() == scores@.len(),
        ({
            let mx = max_score(scores@, scores@.len() as int);
            let divisor: int = if mx <= 0 {
                SCORE_SCALE as int
            } else {
                mx
            };
            forall|i: int| 0 <= i < r@.len() ==> r@[i] == max_scaled(scores@[i] as int, divisor)
        }),
        scores_in_cap(r@, SCORE_SCALE as int),
{
    let n: usize = scores.len();
    let mut mx: i64 = 0;
    let mut i: usize = 0;
    while i < n
        invariant
            i <= n,
            n == scores@.len(),
            scores_in_cap(scores@, SCORE_SCALE as int),
            mx == max_score(scores@, i as int),
            0 <= mx <= SCORE_SCALE,
        decreases n - i,
    {
        if scores[i] > mx {
            mx = scores[i];
        }
        i = i + 1;
    }
    let divisor: i64 = if mx <= 0 {
        SCORE_SCALE
    } else {
        mx
    };
    let ghost gd: int = divisor as int;
    proof {
        assert forall|k: int| 0 <= k < n implies #[trigger] scores@[k] <= gd by {
            lemma_max_component(scores@, n as int, k);
        }
    }
    let mut r: Vec<i64> = Vec::new();
    let mut i: usize = 0;
    while i < n
        invariant
            i <= n,
            n == scores@.len(),
            scores_in_cap(scores@, SCORE_SCALE as int),
            0 < divisor <= SCORE_SCALE,
            gd == divisor,
            forall|k: int| 0 <= k < n ==> #[trigger] scores@[k] <= gd,
            r@.len() == i,
            forall|j: int| 0 <= j < i ==> r@[j] == max_scaled(scores@[j] as int, gd),
            scores_in_cap(r@, SCORE_SCALE as int),
        decreases n - i,
    {
        proof {
            assert(0 <= scores@[i as int] <= SCORE_SCALE);
        }
        let num: u64 = (scores[i] as u64) * (SCORE_SCALE as u64);
        let q: u64 = num / (divisor as u64);
        proof {
            assert(q == max_scaled(scores@[i as int] as int, gd));
            assert(scores@[i as int] * SCORE_SCALE <= gd * SCORE_SCALE) by (nonlinear_arith)
                requires
                    scores@[i as int] <= gd,
                    SCORE_SCALE > 0,
            ;
            assert(scores@[i as int] * SCORE_SCALE >= 0) by (nonlinear_arith)
                requires
                    scores@[i as int] >= 0,
            ;
            lemma_div_is_ordered(scores@[i as int] * SCORE_SCALE, gd * SCORE_SCALE, gd);
            lemma_div_multiples_vanish(SCORE_SCALE as int, gd);
            assert((gd * SCORE_SCALE) / gd == SCORE_SCALE);
            lemma_div_pos_is_pos(scores@[i as int] * SCORE_SCALE, gd);
        }
        r.push(q as i64);
        i = i + 1;
    }
    r
}

/// The largest of the first `n` scores, or zero when there are none.
pub open spec fn max_score(s: Seq<i64>, n: int) -> int
    decreases n,
{
    if n <= 0 {
        0
    } else if s[n - 1] > max_score(s, n - 1) {
        s[n - 1] as int
    } else {
        max_score(s, n - 1)
    }
}

/// No score exceeds the running maximum.
pub proof fn lemma_max_component(s: Seq<i64>, n: int, i: int)
    requires
        0 <= i < n <= s.len(),
    ensures
        s[i] <= max_score(s, n),
    decreases n,
{
    if i < n - 1 {
        lemma_max_component(s, n - 1, i);
    }
}

/// The index of the first result with the given path, or `-1`.
pub open spec fn ridx_of(rs: Seq<SearchResult>, p: Seq<u8>) -> int
    decreases rs.len(),
{
    if rs.len() == 0 {
        -1
    } else if path_of(rs[0]) == p {
        0
    } else {
        let r = ridx_of(rs.drop_first(), p);
        if r < 0 {
            -1
        } else {
            r + 1
        }
    }
}

pub proof fn lemma_ridx_of(rs: Seq<SearchResult>, p: Seq<u8>)
    ensures
        -1 <= ridx_of(rs, p) < rs.len(),
        ridx_of(rs, p) >= 0 ==> path_of(rs[ridx_of(rs, p)]) == p,
        ridx_of(rs, p) < 0 ==> forall|k: int| 0 <= k < rs.len() ==> path_of(#[trigger] rs[k]) != p,
    decreases rs.len(),
{
    if rs.len() > 0 && path_of(rs[0]) != p {
        lemma_ridx_of(rs.drop_first(), p);
        if ridx_of(rs, p) < 0 {
            assert forall|k: int| 0 <= k < rs.len() implies path_of(#[trigger] rs[k]) != p by {
                if k > 0 {
                    assert(rs[k] == rs.drop_first()[k - 1]);
                }
            }
        }
    }
}

pub proof fn lemma_ridx_of_found(rs: Seq<SearchResult>, p: Seq<u8>, i: int)
    requires
        0 <= i < rs.len(),
        path_of(rs[i]) == p,
        forall|k: int| 0 <= k < i ==> path_of(#[trigger] rs[k]) != p,
    ensures
        ridx_of(rs, p) == i,
    decreases i,
{
    if i > 0 {
        lemma_ridx_of_found(rs.drop_first(), p, i - 1);
    }
}

pub proof fn lemma_ridx_of_none(rs: Seq<SearchResult>, p: Seq<u8>)
    requires
        forall|k: int| 0 <= k < rs.len() ==> path_of(#[trigger] rs[k]) != p,
    ensures
        ridx_of(rs, p) == -1,
    decreases rs.len(),
{
    if rs.len() > 0 {
        lemma_ridx_of_none(rs.drop_first(), p);
    }
}

/// A path found in a list is still found after appending to the list.
pub proof fn lemma_ridx_preserved_push(rs: Seq<SearchResult>, x: SearchResult, p: Seq<u8>)
    requires
        ridx_of(rs, p) >= 0,
    ensures
        ridx_of(rs.push(x), p) >= 0,
{
    lemma_ridx_of(rs, p);
    lemma_ridx_of(rs.push(x), p);
    if ridx_of(rs.push(x), p) < 0 {
        let k = ridx_of(rs, p);
        assert(rs.push(x)[k] == rs[k]);
    }
}

/// Finds the result carrying the given path, if any.
pub fn find_result(rs: &Vec<SearchResult>, p: &[u8]) -> (r: Option<usize>)
    ensures
        match r {
            Some(i) => i < rs@.len() && ridx_of(rs@, p@) == i as int,
            None => ridx_of(rs@, p@) == -1,
        },
{
    let mut i: usize = 0;
    while i < rs.len()
        invariant
            i <= rs@.len(),
            forall|k: int| 0 <= k < i ==> path_of(#[trigger] rs@[k]) != p@,
        decreases rs@.len() - i,
    {
        if bytes_eq(rs[i].path.as_str().as_bytes(), p) {
            proof {
                lemma_ridx_of_found(rs@, p@, i as int);
            }
            return Some(i);
        }
        i = i + 1;
    }
    proof {
        lemma_ridx_of_none(rs@, p@);
    }
    None
}

/// Two results describe the same document record: same metadata value
/// and the same timestamps.
pub open spec fn base_eq(x: SearchResult, y: SearchResult) -> bool {
    &&& crate::result::meta_view(x.metadata) == crate::result::meta_view(y.metadata)
    &&& x.created_at == y.created_at
    &&& x.updated_at == y.updated_at
}

/// One fused result is correct with respect to the lexical and semantic
/// candidate lists: its component scores are exactly the candidates'
/// scores (absent where the path is absent from a list), and its final
/// score is the fixed-weight blend of the components, an absent
/// component contributing zero.
pub open spec fn fused_entry_ok(
    lex: Seq<SearchResult>,
    sem: Seq<SearchResult>,
    x: SearchResult,
) -> bool {
    let li = ridx_of(lex, path_of(x));
    let si = ridx_of(sem, path_of(x));
    &&& (li >= 0 || si >= 0)
    &&& x.fts_score == (if li >= 0 {
        lex[li].fts_score
    } else {
        Option::<i64>::None
    })
    &&& x.semantic_score == (if si >= 0 {
        sem[si].semantic_score
    } else {
        Option::<i64>::None
    })
    &&& x.final_score == (6 * crate::result::opt_score(x.fts_score) + 4 * crate::result::opt_score(
        x.semantic_score,
    )) / 10
    &&& (li >= 0 ==> base_eq(x, lex[li]))
    &&& (li < 0 ==> base_eq(x, sem[si]))
}

/// Every lexical candidate carries a present, bounded lexical score.
pub open spec fn lex_scores_ok(lex: Seq<SearchResult>) -> bool {
    forall|i: int|
        0 <= i < lex.len() ==> ((#[trigger] lex[i]).fts_score matches Some(v) && 0 <= v
            <= SCORE_SCALE)
}

/// Every semantic candidate carries a present, bounded semantic score.
pub open spec fn sem_scores_ok(sem: Seq<SearchResult>) -> bool {
    forall|i: int|
        0 <= i < sem.len() ==> ((#[trigger] sem[i]).semantic_score matches Some(v) && 0 <= v
            <= SEM_CAP)
}

/// Blends a lexical and a semantic candidate list into one fused list.
///
/// Every path of either list appears exactly once; a document found by
/// both searches carries both component scores, one found by a single
/// search carries the other component as absent; the final score weighs
/// the lexical component at six tenths and the semantic component at
/// four tenths, an absent component contributing zero.
pub fn fuse_results(lex: &Vec<SearchResult>, sem: &Vec<SearchResult>) -> (r: Vec<SearchResult>)
    requires
        paths_distinct(lex@),
        paths_distinct(sem@),
        lex_scores_ok(lex@),
        sem_scores_ok(sem@),
    ensures
        paths_distinct(r@),
        forall|i: int| 0 <= i < r@.len() ==> fused_entry_ok(lex@, sem@, #[trigger] r@[i]),
        forall|i: int| 0 <= i < lex@.len() ==> ridx_of(r@, path_of(#[trigger] lex@[i])) >= 0,
        forall|i: int| 0 <= i < sem@.len() ==> ridx_of(r@, path_of(#[trigger] sem@[i])) >= 0,
{
    let mut r: Vec<SearchResult> = Vec::new();
    let mut i: usize = 0;
    while i < lex.len()
        invariant
            i <= lex@.len(),
            paths_distinct(lex@),
            paths_distinct(sem@),
            lex_scores_ok(lex@),
            sem_scores_ok(sem@),
            r@.len() == i,
            forall|k: int| 0 <= k < i ==> path_of(#[trigger] r@[k]) == path_of(lex@[k]),
            forall|k: int| 0 <= k < i ==> fused_entry_ok(lex@, sem@, #[trigger] r@[k]),
        decreases lex@.len() - i,
    {
        let pb: &[u8] = lex[i].path.as_str().as_bytes();
        let si: Option<usize> = find_result(sem, pb);
        let fv: i64 = match lex[i].fts_score {
            Some(v) => v,
            None => 0,
        };
        let (sv, sem_opt): (i64, Option<i64>) = match si {
            Some(j) => {
                let v: i64 = match sem[j].semantic_score {
                    Some(v) => v,
                    None => 0,
                };
                (v, Some(v))
            },
            None => (0, None),
        };
        let num: u64 = 6 * (fv as u64) + 4 * (sv as u64);
        let blended: i64 = (num / 10) as i64;
        let entry = SearchResult {
            path: lex[i].path.clone(),
            metadata: crate::result::clone_metadata(&lex[i].metadata),
            created_at: lex[i].created_at,
            updated_at: lex[i].updated_at,
            fts_score: Some(fv),
            semantic_score: sem_opt,
            final_score: blended,
        };
        proof {
            assert(path_of(entry) == path_of(lex@[i as int]));
            assert forall|k: int| 0 <= k < i implies path_of(#[trigger] lex@[k]) != path_of(
                lex@[i as int],
            ) by {}
            lemma_ridx_of_found(lex@, path_of(lex@[i as int]), i as int);
        }
        r.push(entry);
        i = i + 1;
    }
    let ghost lex_part = r@;
    proof {
        assert(r@.subrange(0, lex_part.len() as int) =~= lex_part);
    }
    let mut i: usize = 0;
    while i < sem.len()
        invariant
            i <= sem@.len(),
            paths_distinct(lex@),
            paths_distinct(sem@),
            lex_scores_ok(lex@),
            sem_scores_ok(sem@),
            lex_part.len() == lex@.len(),
            forall|k: int|
                0 <= k < lex_part.len() ==> path_of(#[trigger] lex_part[k]) == path_of(lex@[k]),
            r@.len() >= lex_part.len(),
            r@.subrange(0, lex_part.len() as int) == lex_part,
            forall|k: int| 0 <= k < r@.len() ==> fused_entry_ok(lex@, sem@, #[trigger] r@[k]),
            forall|k: int|
                lex_part.len() <= k < r@.len() ==> ridx_of(lex@, path_of(#[trigger] r@[k])) < 0
                    && 0 <= ridx_of(sem@, path_of(r@[k])) < i,
            paths_distinct(r@),
            forall|k: int|
                0 <= k < i ==> ridx_of(lex@, path_of(#[trigger] sem@[k])) >= 0 || ridx_of(
                    r@,
                    path_of(sem@[k]),
                ) >= 0,
        decreases sem@.len() - i,
    {
        let pb: &[u8] = sem[i].path.as_str().as_bytes();
        let li: Option<usize> = find_result(lex, pb);
        match li {
            Some(_) => {},
            None => {
                let sv: i64 = match sem[i].semantic_score {
                    Some(v) => v,
                    None => 0,
                };
                let num: u64 = 4 * (sv as u64);
                let blended: i64 = (num / 10) as i64;
                let entry = SearchResult {
                    path: sem[i].path.clone(),
                    metadata: crate::result::clone_metadata(&sem[i].metadata),
                    created_at: sem[i].created_at,
                    updated_at: sem[i].updated_at,
                    fts_score: None,
                    semantic_score: Some(sv),
                    final_score: blended,
                };
                let ghost old_r = r@;
                proof {
                    assert(path_of(entry) == path_of(sem@[i as int]));
                    assert forall|k: int| 0 <= k < i implies path_of(#[trigger] sem@[k])
                        != path_of(sem@[i as int]) by {}
                    lemma_ridx_of_found(sem@, path_of(sem@[i as int]), i as int);
                    assert forall|k: int| 0 <= k < old_r.len() implies path_of(
                        #[trigger] old_r[k],
                    ) != path_of(entry) by {
                        if k < lex_part.len() {
                            assert(old_r[k] == old_r.subrange(0, lex_part.len() as int)[k]);
                            assert(old_r[k] == lex_part[k]);
                            assert(path_of(lex_part[k]) == path_of(lex@[k]));
                            if path_of(old_r[k]) == path_of(entry) {
                                lemma_ridx_of_found(lex@, path_of(lex@[k]), k);
                            }
                        } else {
                            assert(ridx_of(sem@, path_of(old_r[k])) < i);
                        }
                    }
                }
                r.push(entry);
                proof {
                    assert(r@.subrange(0, lex_part.len() as int) =~= old_r.subrange(
                        0,
                        lex_part.len() as int,
                    ));
                    lemma_ridx_of(r@, path_of(sem@[i as int]));
                    assert(r@[r@.len() - 1] == entry);
                    assert(ridx_of(r@, path_of(sem@[i as int])) >= 0);
                    assert forall|k: int|
                        0 <= k < i + 1 implies ridx_of(lex@, path_of(#[trigger] sem@[k])) >= 0
                        || ridx_of(r@, path_of(sem@[k])) >= 0 by {
                        if k < i && ridx_of(lex@, path_of(sem@[k])) < 0 {
                            lemma_ridx_preserved_push(old_r, entry, path_of(sem@[k]));
                        }
                    }
                }
            },
        }
        i = i + 1;
    }
    proof {
        assert forall|i: int| 0 <= i < lex@.len() implies ridx_of(
            r@,
            path_of(#[trigger] lex@[i]),
        ) >= 0 by {
            lemma_ridx_of(r@, path_of(lex@[i]));
            assert(r@[i] == r@.subrange(0, lex_part.len() as int)[i]);
            assert(r@[i] == lex_part[i]);
            assert(path_of(lex_part[i]) == path_of(lex@[i]));
        }
        assert forall|i: int| 0 <= i < sem@.len() implies ridx_of(
            r@,
            path_of(#[trigger] sem@[i]),
        ) >= 0 by {
            lemma_ridx_of(r@, path_of(sem@[i]));
            if ridx_of(lex@, path_of(sem@[i])) >= 0 {
                let k = ridx_of(lex@, path_of(sem@[i]));
                lemma_ridx_of(lex@, path_of(sem@[i]));
                assert(r@[k] == r@.subrange(0, lex_part.len() as int)[k]);
                assert(r@[k] == lex_part[k]);
                assert(path_of(lex_part[k]) == path_of(lex@[k]));
            }
        }
    }
    r
}

} // verus!
