//! A deterministic in-memory embedding provider.
//!
//! Texts are mapped to a fixed-dimension bag-of-words vector: each word
//! token is hashed into a bucket and the bucket counts, taken in
//! fixed-point ticks, are normalised to (near) unit length at write time.
//! It is a pure function of the text alone, which makes semantic search
//! fully checkable; richer model-backed providers live outside the
//! verified core and can be swapped in by the surrounding application.

use vstd::prelude::*;
use vstd::pervasive::VecAdditionalExecFns;
use vstd::string::StringSliceAdditionalSpecFns;
use crate::SCORE_SCALE;
use crate::score::COMP_CAP;
use crate::score::MAX_DIM;
use crate::score::comps_in_cap;
use crate::score::normalize_vector;
use crate::score::spec_normalize;
use crate::text::spec_tokens;
use crate::text::tokenize;
use crate::text::views_of;

verus! {

/// The hash modulus: bucket hashing works modulo two to the thirty-second.
pub const HASH_MOD: u64 = 0x1_0000_0000;

/// Polynomial rolling hash of the first `n` bytes of a token.
pub open spec fn hash_prefix(t: Seq<u8>, n: int) -> int
    decreases n,
{
    if n <= 0 {
        0
    } else {
        (hash_prefix(t, n - 1) * 31 + t[n - 1]) % (HASH_MOD as int)
    }
}

/// The bucket a token falls into, for a given dimension.
pub open spec fn spec_bucket(t: Seq<u8>, dim: int) -> int {
    hash_prefix(t, t.len() as int) % dim
}

/// Hashes a token into one of `dim` buckets.
pub fn bucket(t: &[u8], dim: usize) -> (r: usize)
    requires
        1 <= dim,
    ensures
        r == spec_bucket(t@, dim as int),
        r < dim,
{
    let mut h: u64 = 0;
    let mut i: usize = 0;
    while i < t.len()
        invariant
            i <= t@.len(),
            h == hash_prefix(t@, i as int),
            h < HASH_MOD,
        decreases t@.len() - i,
    {
        h = (h * 31 + (t[i] as u64)) % HASH_MOD;
        i = i + 1;
    }
    let r: usize = (h % (dim as u64)) as usize;
    proof {
        vstd::arithmetic::div_mod::lemma_mod_bound(h as int, dim as int);
    }
    r
}

/// One token's worth of weight added to its bucket, saturating at
/// `COMP_CAP` so counts can never overflow downstream arithmetic.
pub open spec fn bump(v: Seq<i64>, k: int) -> Seq<i64> {
    if v[k] + SCORE_SCALE <= COMP_CAP {
        v.update(k, (v[k] + SCORE_SCALE) as i64)
    } else {
        v
    }
}

/// The bucket counts of a token list, in fixed-point ticks.
pub open spec fn spec_counts(toks: Seq<Seq<u8>>, dim: int) -> Seq<i64>
    decreases toks.len(),
{
    if toks.len() == 0 {
        Seq::new(dim as nat, |i: int| 0i64)
    } else {
        bump(spec_counts(toks.drop_last(), dim), spec_bucket(toks.last(), dim))
    }
}

/// The embedding of a text: its token bucket counts, normalised.
pub open spec fn spec_embed(dim: int, s: Seq<u8>) -> Seq<i64> {
    spec_normalize(spec_counts(spec_tokens(s), dim))
}

/// Bag-of-words embedding provider with a fixed vector dimension.
#[derive(Clone, Copy, Debug)]
pub struct BagEmbedder {
    pub dim: usize,
}

impl BagEmbedder {
    /// The dimension is valid for the similarity arithmetic.
    pub open spec fn wf(self) -> bool {
        1 <= self.dim <= MAX_DIM
    }

    /// Creates a provider producing vectors of the given dimension.
    pub fn new(dim: usize) -> (r: BagEmbedder)
        requires
            1 <= dim <= MAX_DIM,
        ensures
            r.wf(),
            r.dim == dim,
    {
        BagEmbedder { dim }
    }

    /// Embeds a text: a pure function of the bytes of the text.
    pub fn embed(&self, text: &str) -> (v: Vec<i64>)
        requires
            self.wf(),
        ensures
            v@ == spec_embed(self.dim as int, spec_text_bytes(text)),
            v@.len() == self.dim,
            comps_in_cap(v@, SCORE_SCALE as int),
    {
        let bytes: &[u8] = text.as_bytes();
        let toks: Vec<Vec<u8>> = tokenize(bytes);
        let mut counts: Vec<i64> = Vec::new();
        let mut i: usize = 0;
        while i < self.dim
            invariant
                i <= self.dim,
                counts@.len() == i,
                forall|j: int| 0 <= j < i ==> counts@[j] == 0i64,
            decreases self.dim - i,
        {
            counts.push(0);
            i = i + 1;
        }
        proof {
            assert(counts@ =~= spec_counts(Seq::<Seq<u8>>::empty(), self.dim as int));
            assert(views_of(toks@).subrange(0, 0) =~= Seq::<Seq<u8>>::empty());
        }
        let mut k: usize = 0;
        while k < toks.len()
            invariant
                k <= toks@.len(),
                self.wf(),
                views_of(toks@) == spec_tokens(bytes@),
                counts@ == spec_counts(views_of(toks@).subrange(0, k as int), self.dim as int),
                counts@.len() == self.dim,
                comps_in_cap(counts@, COMP_CAP as int),
            decreases toks@.len() - k,
        {
            let b: usize = bucket(toks[k].as_slice(), self.dim);
            let cur: i64 = counts[b];
            if cur + SCORE_SCALE <= COMP_CAP {
                counts.set(b, cur + SCORE_SCALE);
            }
            proof {
                let ghost pre = views_of(toks@).subrange(0, k as int);
                let ghost post = views_of(toks@).subrange(0, k + 1);
                assert(post.drop_last() =~= pre);
                assert(post.last() == toks@[k as int]@);
                assert(counts@ =~= bump(
                    spec_counts(pre, self.dim as int),
                    spec_bucket(toks@[k as int]@, self.dim as int),
                ));
            }
            k = k + 1;
        }
        proof {
            assert(views_of(toks@).subrange(0, toks@.len() as int) =~= views_of(toks@));
        }
        normalize_vector(&counts)
    }
}

/// The byte view of a string: what `str::as_bytes` yields.
pub open spec fn spec_text_bytes(text: &str) -> Seq<u8> {
    text.spec_bytes()
}

} // verus!
