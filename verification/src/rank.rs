//! Ranking of search results: descending final score, ties broken by
//! ascending path so that result order is deterministic, and a verified
//! selection sort with respect to that order.

use vstd::prelude::*;
use vstd::relations::sorted_by;
use vstd::multiset::Multiset;
use vstd::seq_lib::group_to_multiset_ensures;
use crate::result::SearchResult;
use crate::text::lex_lt;
use crate::text::lemma_lex_asym;
use crate::text::lemma_lex_total;
use crate::text::bytes_lt;

verus! {

/// The byte view of a result's path.
pub open spec fn path_of(r: SearchResult) -> Seq<u8> {
    vstd::utf8::encode_utf8(r.path@)
}

/// `a` ranks at least as high as `b`: a strictly higher final score, or an
/// equal score and a path that is lexicographically no greater.
pub open spec fn rank_ge(a: SearchResult, b: SearchResult) -> bool {
    ||| a.final_score > b.final_score
    ||| (a.final_score == b.final_score && (lex_lt(path_of(a), path_of(b)) || path_of(a) == path_of(
        b,
    )))
}

/// The ranking relation used by [`sort_results`].
pub open spec fn rank_leq() -> spec_fn(SearchResult, SearchResult) -> bool {
    |x: SearchResult, y: SearchResult| rank_ge(x, y)
}

/// Ranking is total: one of any two results ranks at least as high.
pub proof fn lemma_rank_total(a: SearchResult, b: SearchResult)
    ensures
        rank_ge(a, b) || rank_ge(b, a),
{
    if a.final_score == b.final_score && !lex_lt(path_of(a), path_of(b)) && !lex_lt(
        path_of(b),
        path_of(a),
    ) {
        lemma_lex_total(path_of(a), path_of(b));
    }
}

/// No two results share a path.
pub open spec fn paths_distinct(rs: Seq<SearchResult>) -> bool {
    forall|i: int, j: int|
        0 <= i < j < rs.len() ==> path_of(#[trigger] rs[i]) != path_of(#[trigger] rs[j])
}

/// Does `a` rank at least as high as `b`?
pub fn rank_ge_exec(a: &SearchResult, b: &SearchResult) -> (r: bool)
    ensures
        r == rank_ge(*a, *b),
{
    if a.final_score > b.final_score {
        true
    } else if a.final_score < b.final_score {
        false
    } else {
        let ab: &[u8] = a.path.as_str().as_bytes();
        let bb: &[u8] = b.path.as_str().as_bytes();
        let lt: bool = bytes_lt(ab, bb);
        if lt {
            true
        } else {
            let gt: bool = bytes_lt(bb, ab);
            proof {
                if !gt {
                    lemma_lex_total(path_of(*a), path_of(*b));
                }
                if gt {
                    lemma_lex_asym(path_of(*b), path_of(*a));
                }
            }
            !gt
        }
    }
}

/// Sorts results by descending final score, ties by ascending path.
///
/// The output is a permutation of the input; if no two inputs share a
/// path, no two outputs do either.
pub fn sort_results(v: Vec<SearchResult>) -> (r: Vec<SearchResult>)
    ensures
        sorted_by(r@, rank_leq()),
        r@.to_multiset() == v@.to_multiset(),
        r@.len() == v@.len(),
        paths_distinct(v@) ==> paths_distinct(r@),
{
    broadcast use group_to_multiset_ensures;

    let ghost orig = v@;
    let mut rem: Vec<SearchResult> = v;
    let mut out: Vec<SearchResult> = Vec::new();
    proof {
        assert(out@.to_multiset().add(rem@.to_multiset()) =~= orig.to_multiset());
        assert(out@ + rem@ =~= orig);
    }
    while rem.len() > 0
        invariant
            out@.to_multiset().add(rem@.to_multiset()) == orig.to_multiset(),
            out@.len() + rem@.len() == orig.len(),
            sorted_by(out@, rank_leq()),
            forall|p: int, q: int|
                0 <= p < out@.len() && 0 <= q < rem@.len() ==> rank_ge(
                    #[trigger] out@[p],
                    #[trigger] rem@[q],
                ),
            paths_distinct(orig) ==> paths_distinct(out@ + rem@),
        decreases rem@.len(),
    {
        let mut best: usize = 0;
        let mut k: usize = 1;
        while k < rem.len()
            invariant
                best < k <= rem@.len(),
                forall|t: int| 0 <= t < k ==> rank_ge(rem@[best as int], #[trigger] rem@[t]),
            decreases rem@.len() - k,
        {
            proof {
                lemma_rank_total(rem@[best as int], rem@[k as int]);
            }
            if !rank_ge_exec(&rem[best], &rem[k]) {
                let ghost old_best: int = best as int;
                best = k;
                proof {
                    assert forall|t: int| 0 <= t < k + 1 implies rank_ge(
                        rem@[best as int],
                        #[trigger] rem@[t],
                    ) by {
                        if t < k {
                            lemma_rank_trans(rem@[k as int], rem@[old_best], rem@[t]);
                        }
                    }
                }
            }
            k = k + 1;
        }
        let ghost old_out = out@;
        let ghost old_rem = rem@;
        let m: SearchResult = rem.remove(best);
        out.push(m);
        proof {
            broadcast use group_to_multiset_ensures;

            assert(old_rem.contains(m));
            assert(out@ == old_out.push(m));
            assert(old_out.push(m).to_multiset() =~= old_out.to_multiset().insert(m));
            assert(rem@ == old_rem.remove(best as int));
            assert(old_rem.remove(best as int).to_multiset() =~= old_rem.to_multiset().remove(
                old_rem[best as int],
            ));
            assert(out@.to_multiset() =~= old_out.to_multiset().insert(m));
            assert(rem@.to_multiset() =~= old_rem.to_multiset().remove(m));
            assert(out@.to_multiset().add(rem@.to_multiset()) =~= orig.to_multiset());
            assert forall|i: int, j: int| 0 <= i < j < out@.len() implies rank_leq()(
                out@[i],
                out@[j],
            ) by {
                if j < out@.len() - 1 {
                    assert(rank_leq()(old_out[i], old_out[j]));
                }
            }
            assert forall|p: int, q: int|
                0 <= p < out@.len() && 0 <= q < rem@.len() implies rank_ge(
                #[trigger] out@[p],
                #[trigger] rem@[q],
            ) by {
                let qq: int = if q < best { q } else { q + 1 };
                assert(rem@[q] == old_rem[qq]);
                if p < out@.len() - 1 {
                    assert(rank_ge(old_out[p], old_rem[qq]));
                } else {
                    assert(rank_ge(old_rem[best as int], old_rem[qq]));
                }
            }
            if paths_distinct(orig) {
                assert forall|i: int, j: int|
                    0 <= i < j < (out@ + rem@).len() implies path_of(#[trigger] (out@ + rem@)[i])
                    != path_of(#[trigger] (out@ + rem@)[j]) by {
                    let n_out: int = out@.len() as int;
                    let old_cat = old_out + old_rem;
                    let i0: int = remap_index(i, n_out, best as int);
                    let j0: int = remap_index(j, n_out, best as int);
                    assert((out@ + rem@)[i] == old_cat[i0]);
                    assert((out@ + rem@)[j] == old_cat[j0]);
                    assert(i0 != j0);
                    if i0 < j0 {
                        assert(path_of(old_cat[i0]) != path_of(old_cat[j0]));
                    } else {
                        assert(path_of(old_cat[j0]) != path_of(old_cat[i0]));
                    }
                }
            }
        }
    }
    proof {
        assert(rem@.len() == 0);
        assert(out@ + rem@ =~= out@);
        assert(rem@.to_multiset() =~= Multiset::<SearchResult>::empty());
        assert(out@.to_multiset() =~= orig.to_multiset());
        assert(out@.len() == out@.to_multiset().len());
        assert(orig.len() == orig.to_multiset().len());
    }
    out
}

/// Where an element of the new `out + rem` concatenation came from in the
/// old one, after moving the element at `best` of the remainder to the
/// end of the sorted prefix.
spec fn remap_index(i: int, n_out: int, best: int) -> int {
    if i < n_out - 1 {
        i
    } else if i == n_out - 1 {
        n_out - 1 + best
    } else {
        let off = i - n_out;
        if off < best {
            n_out - 1 + off
        } else {
            n_out - 1 + off + 1
        }
    }
}

/// Ranking is transitive.
pub proof fn lemma_rank_trans(a: SearchResult, b: SearchResult, c: SearchResult)
    requires
        rank_ge(a, b),
        rank_ge(b, c),
    ensures
        rank_ge(a, c),
{
    if a.final_score == b.final_score && b.final_score == c.final_score {
        if lex_lt(path_of(a), path_of(b)) && lex_lt(path_of(b), path_of(c)) {
            crate::text::lemma_lex_trans(path_of(a), path_of(b), path_of(c));
        }
    }
}

} // verus!
