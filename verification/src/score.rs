//! Fixed-point similarity arithmetic: dot products, integer square roots
//! and write-time normalisation of embedding vectors.
//!
//! A vector component of `SCORE_SCALE` stands for the real value one, so
//! the dot product of two unit vectors divided by `SCORE_SCALE` is again a
//! fixed-point value near `SCORE_SCALE`.

use vstd::prelude::*;
use crate::SCORE_SCALE;

verus! {

/// Largest vector length the similarity arithmetic accepts.
pub const MAX_DIM: usize = 4096;

/// Largest magnitude a raw (pre-normalisation) component may have.
pub const COMP_CAP: i64 = 1_000_000_000_000;

/// Norm threshold under which a vector is left unnormalised, in
/// fixed-point ticks: `SCORE_SCALE / 100_000` stands for the real
/// threshold of one hundred-thousandth.
pub const NORM_EPS: i64 = 10;

/// Sum of the squares of the first `n` components.
pub open spec fn sum_sq(v: Seq<i64>, n: int) -> int
    decreases n,
{
    if n <= 0 {
        0
    } else {
        sum_sq(v, n - 1) + v[n - 1] * v[n - 1]
    }
}

/// Sum of the squares of all components: the squared L2 norm.
pub open spec fn spec_norm_sq(v: Seq<i64>) -> int {
    sum_sq(v, v.len() as int)
}

/// Dot product of the first `n` components.
pub open spec fn dot_prefix(a: Seq<i64>, b: Seq<i64>, n: int) -> int
    decreases n,
{
    if n <= 0 {
        0
    } else {
        dot_prefix(a, b, n - 1) + a[n - 1] * b[n - 1]
    }
}

/// Dot product of two equally long vectors.
pub open spec fn spec_dot(a: Seq<i64>, b: Seq<i64>) -> int {
    dot_prefix(a, b, a.len() as int)
}

/// Signed division that rounds toward zero, as machine division does.
pub open spec fn div_to_zero(x: int, d: int) -> int {
    if x >= 0 {
        x / d
    } else {
        -((-x) / d)
    }
}

/// Every component is within `c` of zero.
pub open spec fn comps_bounded(v: Seq<i64>, c: int) -> bool {
    forall|i: int| 0 <= i < v.len() ==> -c <= #[trigger] v[i] <= c
}

/// Every component lies in `[0, c]`.
pub open spec fn comps_in_cap(v: Seq<i64>, c: int) -> bool {
    forall|i: int| 0 <= i < v.len() ==> 0 <= #[trigger] v[i] <= c
}

pub proof fn lemma_sum_sq_nonneg(v: Seq<i64>, n: int)
    ensures
        sum_sq(v, n) >= 0,
    decreases n,
{
    if n > 0 {
        lemma_sum_sq_nonneg(v, n - 1);
        assert(v[n - 1] * v[n - 1] >= 0) by (nonlinear_arith);
    }
}

/// Each component's square is at most the whole squared norm.
pub proof fn lemma_sum_sq_component(v: Seq<i64>, n: int, i: int)
    requires
        0 <= i < n,
    ensures
        v[i] * v[i] <= sum_sq(v, n),
    decreases n,
{
    lemma_sum_sq_nonneg(v, n - 1);
    if i == n - 1 {
    } else {
        lemma_sum_sq_component(v, n - 1, i);
        assert(v[n - 1] * v[n - 1] >= 0) by (nonlinear_arith);
    }
}

/// A bound on every pair of components bounds the dot product linearly.
pub proof fn lemma_dot_prefix_bound(a: Seq<i64>, b: Seq<i64>, n: int, c: int)
    requires
        0 <= c,
        0 <= n,
        n <= a.len(),
        n <= b.len(),
        comps_bounded(a, c),
        comps_bounded(b, c),
    ensures
        -(n * c * c) <= dot_prefix(a, b, n) <= n * c * c,
    decreases n,
{
    if n > 0 {
        lemma_dot_prefix_bound(a, b, n - 1, c);
        assert(-(c * c) <= a[n - 1] * b[n - 1] <= c * c) by (nonlinear_arith)
            requires
                -c <= a[n - 1] <= c,
                -c <= b[n - 1] <= c,
                0 <= c,
        ;
        assert((n - 1) * c * c + c * c == n * c * c) by (nonlinear_arith);
    } else {
        assert(n * c * c == 0) by (nonlinear_arith)
            requires
                n == 0,
        ;
    }
}

/// Cosine similarity of two pre-normalised fixed-point vectors: their dot
/// product scaled back down by `SCORE_SCALE`. Mismatched lengths yield
/// exactly zero, a defensive default rather than an error.
pub fn cosine_similarity(a: &[i64], b: &[i64]) -> (r: i64)
    requires
        a@.len() <= MAX_DIM,
        comps_bounded(a@, 2 * SCORE_SCALE),
        comps_bounded(b@, 2 * SCORE_SCALE),
    ensures
        a@.len() != b@.len() ==> r == 0,
        a@.len() == b@.len() ==> r == div_to_zero(spec_dot(a@, b@), SCORE_SCALE as int),
{
    if a.len() != b.len() {
        return 0;
    }
    let n: usize = a.len();
    let mut acc: i128 = 0;
    let mut i: usize = 0;
    while i < n
        invariant
            i <= n,
            n == a@.len(),
            n == b@.len(),
            n <= MAX_DIM,
            comps_bounded(a@, 2 * SCORE_SCALE),
            comps_bounded(b@, 2 * SCORE_SCALE),
            acc == dot_prefix(a@, b@, i as int),
            -20_000_000_000_000_000 <= acc <= 20_000_000_000_000_000,
        decreases n - i,
    {
        proof {
            assert(-4_000_000_000_000 <= (a@[i as int] as int) * (b@[i as int] as int)
                <= 4_000_000_000_000) by (nonlinear_arith)
                requires
                    -2_000_000 <= a@[i as int] <= 2_000_000,
                    -2_000_000 <= b@[i as int] <= 2_000_000,
            ;
            lemma_dot_prefix_bound(a@, b@, i + 1, 2 * SCORE_SCALE);
            assert((i + 1) * (2 * SCORE_SCALE as int) * (2 * SCORE_SCALE as int) <= (MAX_DIM as int)
                * (2 * SCORE_SCALE as int) * (2 * SCORE_SCALE as int)) by (nonlinear_arith)
                requires
                    0 <= i,
                    i + 1 <= MAX_DIM as int,
            ;
        }
        let prod: i128 = (a[i] as i128) * (b[i] as i128);
        acc = acc + prod;
        i = i + 1;
    }
    let neg: bool = acc < 0;
    let mag: u128 = if neg {
        (-acc) as u128
    } else {
        acc as u128
    };
    let q: u128 = mag / (SCORE_SCALE as u128);
    proof {
        assert(q == (mag as int) / (SCORE_SCALE as int));
        assert(q * (SCORE_SCALE as int) <= mag as int) by {
            vstd::arithmetic::div_mod::lemma_fundamental_div_mod(
                mag as int,
                SCORE_SCALE as int,
            );
            vstd::arithmetic::div_mod::lemma_mod_bound(mag as int, SCORE_SCALE as int);
        }
        assert(q <= 20_000_000_000_000_000);
    }
    if neg {
        proof {
            assert(div_to_zero(spec_dot(a@, b@), SCORE_SCALE as int) == -(q as int));
        }
        -(q as i64)
    } else {
        q as i64
    }
}

/// Sum of the first `n` components.
pub open spec fn sum_comps(v: Seq<i64>, n: int) -> int
    decreases n,
{
    if n <= 0 {
        0
    } else {
        sum_comps(v, n - 1) + v[n - 1]
    }
}

/// `r` is the integer square root of `n`.
pub open spec fn is_sqrt(n: int, r: int) -> bool {
    0 <= r && r * r <= n && n < (r + 1) * (r + 1)
}

/// The integer square root as a specification-level value.
pub open spec fn spec_isqrt(n: int) -> int {
    choose|r: int| is_sqrt(n, r)
}

/// Integer square roots are unique.
pub proof fn lemma_isqrt_unique(n: int, a: int, b: int)
    requires
        is_sqrt(n, a),
        is_sqrt(n, b),
    ensures
        a == b,
{
    assert(a < b + 1 && b < a + 1) by (nonlinear_arith)
        requires
            0 <= a && 0 <= b,
            a * a <= n && n < (a + 1) * (a + 1),
            b * b <= n && n < (b + 1) * (b + 1),
    ;
}

/// Floor integer square root by bisection.
pub fn isqrt(n: u128) -> (r: u64)
    ensures
        is_sqrt(n as int, r as int),
        r as int == spec_isqrt(n as int),
{
    let mut lo: u128 = 0;
    let mut hi: u128 = 0x1_0000_0000_0000_0000;
    proof {
        assert((0x1_0000_0000_0000_0000 as int) * (0x1_0000_0000_0000_0000 as int) > n as int);
    }
    while lo + 1 < hi
        invariant
            lo < hi,
            hi <= 0x1_0000_0000_0000_0000,
            (lo as int) * (lo as int) <= n as int,
            (n as int) < (hi as int) * (hi as int),
        decreases hi - lo,
    {
        let mid: u128 = lo + (hi - lo) / 2;
        proof {
            assert(lo < mid < hi);
            assert((mid as int) * (mid as int) < (0x1_0000_0000_0000_0000 as int) * (
            0x1_0000_0000_0000_0000 as int)) by (nonlinear_arith)
                requires
                    0 <= mid as int,
                    (mid as int) < 0x1_0000_0000_0000_0000 as int,
            ;
        }
        let sq: u128 = mid * mid;
        if sq <= n {
            lo = mid;
        } else {
            hi = mid;
        }
    }
    proof {
        assert(hi == lo + 1);
        assert(is_sqrt(n as int, lo as int));
        assert(lo < 0x1_0000_0000_0000_0000) by (nonlinear_arith)
            requires
                (lo as int) * (lo as int) <= n as int,
                (n as int) < (0x1_0000_0000_0000_0000 as int) * (0x1_0000_0000_0000_0000 as int),
                lo >= 0,
        ;
        lemma_isqrt_unique(n as int, lo as int, spec_isqrt(n as int));
    }
    lo as u64
}

/// No component of a non-negative vector exceeds the integer square root
/// of the vector's squared norm.
pub proof fn lemma_comp_le_norm(v: Seq<i64>, m: int, i: int)
    requires
        0 <= i < v.len(),
        v[i] >= 0,
        is_sqrt(spec_norm_sq(v), m),
    ensures
        v[i] <= m,
{
    lemma_sum_sq_component(v, v.len() as int, i);
    assert(v[i] <= m) by (nonlinear_arith)
        requires
            v[i] * v[i] <= spec_norm_sq(v),
            spec_norm_sq(v) < (m + 1) * (m + 1),
            v[i] >= 0,
            m >= 0,
    ;
}

/// The normalised form of a vector, at specification level: every
/// component scaled by `SCORE_SCALE / m` with `m` the integer square root
/// of the squared norm, or the vector itself when `m` is below `NORM_EPS`.
pub open spec fn spec_normalize(v: Seq<i64>) -> Seq<i64> {
    let m = spec_isqrt(spec_norm_sq(v));
    if m < NORM_EPS {
        v
    } else {
        Seq::new(v.len(), |i: int| ((v[i] * SCORE_SCALE) / m) as i64)
    }
}

/// Scales a non-negative fixed-point vector to (near) unit norm.
///
/// The squared norm is computed exactly, its integer square root `m` is
/// taken, and every component is scaled by `SCORE_SCALE / m`. A vector
/// whose norm is below `NORM_EPS` ticks is returned unchanged, because
/// dividing by a tiny norm would only amplify noise.
pub fn normalize_vector(v: &Vec<i64>) -> (r: Vec<i64>)
    requires
        v@.len() <= MAX_DIM,
        comps_in_cap(v@, COMP_CAP as int),
    ensures
        r@.len() == v@.len(),
        spec_isqrt(spec_norm_sq(v@)) < NORM_EPS ==> r@ == v@,
        spec_isqrt(spec_norm_sq(v@)) >= NORM_EPS ==> forall|i: int|
            0 <= i < r@.len() ==> r@[i] == (v@[i] * SCORE_SCALE) / spec_isqrt(spec_norm_sq(v@)),
        r@ == spec_normalize(v@),
        comps_in_cap(r@, SCORE_SCALE as int),
{
    let n: usize = v.len();
    let mut ssq: u128 = 0;
    let mut i: usize = 0;
    proof {
        lemma_sum_sq_nonneg(v@, 0);
    }
    while i < n
        invariant
            i <= n,
            n == v@.len(),
            n <= MAX_DIM,
            comps_in_cap(v@, COMP_CAP as int),
            ssq == sum_sq(v@, i as int),
            ssq <= (i as int) * (COMP_CAP as int) * (COMP_CAP as int),
        decreases n - i,
    {
        proof {
            assert(0 <= (v@[i as int] as int) * (v@[i as int] as int) <= (COMP_CAP as int) * (
            COMP_CAP as int)) by (nonlinear_arith)
                requires
                    0 <= v@[i as int] <= COMP_CAP as int,
            ;
            assert((i as int) * (COMP_CAP as int) * (COMP_CAP as int) + (COMP_CAP as int) * (
            COMP_CAP as int) == (i + 1) * (COMP_CAP as int) * (COMP_CAP as int))
                by (nonlinear_arith);
            assert((i + 1) * (COMP_CAP as int) * (COMP_CAP as int) <= (MAX_DIM as int) * (
            COMP_CAP as int) * (COMP_CAP as int)) by (nonlinear_arith)
                requires
                    0 <= i,
                    i + 1 <= MAX_DIM as int,
            ;
        }
        let c: u128 = v[i] as u128;
        ssq = ssq + c * c;
        i = i + 1;
    }
    let m: u64 = isqrt(ssq);
    if m < NORM_EPS as u64 {
        let mut r: Vec<i64> = Vec::new();
        let mut i: usize = 0;
        while i < n
            invariant
                i <= n,
                n == v@.len(),
                r@ == v@.subrange(0, i as int),
            decreases n - i,
        {
            r.push(v[i]);
            proof {
                assert(r@ =~= v@.subrange(0, i + 1));
            }
            i = i + 1;
        }
        proof {
            assert(r@ =~= v@);
            assert forall|j: int| 0 <= j < r@.len() implies 0 <= #[trigger] r@[j]
                <= SCORE_SCALE as int by {
                lemma_comp_le_norm(v@, m as int, j);
            }
        }
        r
    } else {
        let ghost gm: int = m as int;
        let mut r: Vec<i64> = Vec::new();
        let mut i: usize = 0;
        while i < n
            invariant
                i <= n,
                n == v@.len(),
                n <= MAX_DIM,
                comps_in_cap(v@, COMP_CAP as int),
                gm == spec_isqrt(spec_norm_sq(v@)),
                is_sqrt(spec_norm_sq(v@), gm),
                m as int == gm,
                NORM_EPS <= gm <= 0xffff_ffff_ffff_ffff,
                r@.len() == i,
                forall|j: int| 0 <= j < i ==> r@[j] == (v@[j] * SCORE_SCALE) / gm,
                comps_in_cap(r@, SCORE_SCALE as int),
            decreases n - i,
        {
            proof {
                lemma_comp_le_norm(v@, gm, i as int);
            }
            let scaled: u64 = (v[i] as u64) * (SCORE_SCALE as u64);
            let q: u64 = scaled / (m as u64);
            proof {
                assert(q == (v@[i as int] * SCORE_SCALE) / gm);
                vstd::arithmetic::div_mod::lemma_div_is_ordered(
                    v@[i as int] * SCORE_SCALE,
                    gm * SCORE_SCALE,
                    gm,
                );
                vstd::arithmetic::div_mod::lemma_div_multiples_vanish(SCORE_SCALE as int, gm);
                assert((gm * SCORE_SCALE) / gm == SCORE_SCALE);
                assert(q <= SCORE_SCALE);
                vstd::arithmetic::div_mod::lemma_div_pos_is_pos(v@[i as int] * SCORE_SCALE, gm);
            }
            r.push(q as i64);
            i = i + 1;
        }
        proof {
            assert(r@ =~= spec_normalize(v@));
        }
        r
    }
}

/// A vector's dot product with itself is its squared norm.
pub proof fn lemma_dot_self_is_norm_sq(v: Seq<i64>, n: int)
    ensures
        dot_prefix(v, v, n) == sum_sq(v, n),
    decreases n,
{
    if n > 0 {
        lemma_dot_self_is_norm_sq(v, n - 1);
    }
}

/// Cosine identity: the similarity of a vector with itself is its squared
/// norm scaled down, so any bound on the squared norm bounds the
/// self-similarity. For a vector stored by `normalize_vector` the squared
/// norm is within rounding noise of `SCORE_SCALE * SCORE_SCALE`, and its
/// self-similarity accordingly within rounding noise of `SCORE_SCALE`,
/// the fixed-point value one.
pub proof fn lemma_cosine_identity(v: Seq<i64>, lo: int, hi: int)
    requires
        0 <= lo <= spec_norm_sq(v) <= hi,
    ensures
        spec_dot(v, v) == spec_norm_sq(v),
        lo / (SCORE_SCALE as int) <= div_to_zero(spec_dot(v, v), SCORE_SCALE as int) <= hi / (
        SCORE_SCALE as int),
{
    lemma_dot_self_is_norm_sq(v, v.len() as int);
    vstd::arithmetic::div_mod::lemma_div_is_ordered(lo, spec_norm_sq(v), SCORE_SCALE as int);
    vstd::arithmetic::div_mod::lemma_div_is_ordered(spec_norm_sq(v), hi, SCORE_SCALE as int);
}

/// Cosine of orthogonal vectors: a zero dot product scales to exactly
/// zero similarity.
pub proof fn lemma_cosine_orthogonal(a: Seq<i64>, b: Seq<i64>)
    requires
        spec_dot(a, b) == 0,
    ensures
        div_to_zero(spec_dot(a, b), SCORE_SCALE as int) == 0,
{
    vstd::arithmetic::div_mod::lemma_div_of0(SCORE_SCALE as int);
}

/// Write-time normalisation leaves the squared norm of the stored vector
/// within a small fixed-point tolerance of one.
///
/// With `m` the integer square root of the squared input norm and `s` the
/// fixed-point scale, the two multiplied-out inequalities below say
/// exactly that the stored squared norm differs from `s * s` (the square
/// of one) by at most `2 * s * s / m` above and `2 * s * sum / m` below,
/// where `sum` is the component sum of the input: the stored norm is one
/// up to rounding noise that shrinks as the input norm grows.
pub proof fn lemma_normalized_norm(v: Seq<i64>, r: Seq<i64>, m: int)
    requires
        comps_in_cap(v, COMP_CAP as int),
        m == spec_isqrt(spec_norm_sq(v)),
        is_sqrt(spec_norm_sq(v), m),
        m >= NORM_EPS,
        r.len() == v.len(),
        forall|i: int| 0 <= i < r.len() ==> r[i] == (v[i] * SCORE_SCALE) / m,
    ensures
        m * m * spec_norm_sq(r) <= SCORE_SCALE * SCORE_SCALE * (spec_norm_sq(v)),
        spec_norm_sq(v) < (m + 1) * (m + 1),
        m * m <= spec_norm_sq(v),
        m * m * spec_norm_sq(r) + 2 * m * SCORE_SCALE * sum_comps(v, v.len() as int)
            >= SCORE_SCALE * SCORE_SCALE * (spec_norm_sq(v)),
{
    lemma_norm_bounds_prefix(v, r, m, v.len() as int);
}

proof fn lemma_norm_bounds_prefix(v: Seq<i64>, r: Seq<i64>, m: int, n: int)
    requires
        comps_in_cap(v, COMP_CAP as int),
        m >= 1,
        r.len() == v.len(),
        0 <= n <= v.len(),
        forall|i: int| 0 <= i < r.len() ==> r[i] == (v[i] * SCORE_SCALE) / m,
    ensures
        m * m * sum_sq(r, n) <= SCORE_SCALE * SCORE_SCALE * sum_sq(v, n),
        m * m * sum_sq(r, n) + 2 * m * SCORE_SCALE * sum_comps(v, n) >= SCORE_SCALE * SCORE_SCALE
            * sum_sq(v, n),
    decreases n,
{
    if n > 0 {
        lemma_norm_bounds_prefix(v, r, m, n - 1);
        let x: int = v[n - 1] * SCORE_SCALE;
        let y: int = r[n - 1] as int;
        assert(x >= 0) by (nonlinear_arith)
            requires
                x == v[n - 1] * SCORE_SCALE,
                v[n - 1] >= 0,
        ;
        vstd::arithmetic::div_mod::lemma_fundamental_div_mod(x, m);
        vstd::arithmetic::div_mod::lemma_mod_bound(x, m);
        assert(y == x / m);
        vstd::arithmetic::div_mod::lemma_div_pos_is_pos(x, m);
        assert(m * y <= x < m * y + m);
        assert(m * m * (y * y) <= x * x) by (nonlinear_arith)
            requires
                0 <= y,
                m * y <= x,
                m >= 1,
        ;
        assert(m * m * (y * y) >= x * x - 2 * m * x) by (nonlinear_arith)
            requires
                0 <= y,
                0 <= x,
                x < m * y + m,
                m >= 1,
        ;
        assert(x * x == SCORE_SCALE * SCORE_SCALE * (v[n - 1] * v[n - 1])) by (nonlinear_arith)
            requires
                x == v[n - 1] * SCORE_SCALE,
        ;
        assert(2 * m * x == 2 * m * SCORE_SCALE * v[n - 1]) by (nonlinear_arith)
            requires
                x == v[n - 1] * SCORE_SCALE,
        ;
        assert(m * m * sum_sq(r, n) == m * m * sum_sq(r, n - 1) + m * m * (y * y))
            by (nonlinear_arith)
            requires
                sum_sq(r, n) == sum_sq(r, n - 1) + y * y,
        ;
        assert(SCORE_SCALE * SCORE_SCALE * sum_sq(v, n) == SCORE_SCALE * SCORE_SCALE * sum_sq(
            v,
            n - 1,
        ) + SCORE_SCALE * SCORE_SCALE * (v[n - 1] * v[n - 1])) by (nonlinear_arith)
            requires
                sum_sq(v, n) == sum_sq(v, n - 1) + v[n - 1] * v[n - 1],
        ;
        assert(2 * m * SCORE_SCALE * sum_comps(v, n) == 2 * m * SCORE_SCALE * sum_comps(v, n - 1)
            + 2 * m * SCORE_SCALE * v[n - 1]) by (nonlinear_arith)
            requires
                sum_comps(v, n) == sum_comps(v, n - 1) + v[n - 1],
        ;
    }
}

} // verus!
