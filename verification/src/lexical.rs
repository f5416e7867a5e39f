//! Lexical relevance: matching query tokens against document content and
//! path filtering by substring containment.

use vstd::prelude::*;
use vstd::string::StringSliceAdditionalSpecFns;
use crate::SCORE_SCALE;
use crate::text::contains_bytes;
use crate::text::contains_sub;
use crate::text::contains_word;
use crate::text::bytes_eq;
use crate::text::has_word;
use crate::text::string_bytes;
use crate::text::views_of;

verus! {

/// Largest number of query tokens the scorer accepts; keeps every raw
/// score within [`crate::fusion::RAW_CAP`].
pub const MAX_QUERY_TOKENS: usize = 1_000_000_000;

/// The byte views of an optional filter list.
pub open spec fn filters_view(pf: Option<&[String]>) -> Option<Seq<Seq<u8>>> {
    match pf {
        None => None,
        Some(fs) => Some(fs@.map_values(|s: String| string_bytes(s))),
    }
}

/// A path passes the filter when no filter is given, the filter list is
/// empty, or the path contains any one of the filter substrings.
pub open spec fn passes_filter(p: Seq<u8>, f: Option<Seq<Seq<u8>>>) -> bool {
    match f {
        None => true,
        Some(fv) => fv.len() == 0 || exists|k: int| 0 <= k < fv.len() && contains_bytes(p, fv[k]),
    }
}

/// Does the path pass the filter?
pub fn passes(path: &str, pf: Option<&[String]>) -> (r: bool)
    ensures
        r == passes_filter(path.spec_bytes(), filters_view(pf)),
{
    match pf {
        None => true,
        Some(fs) => {
            if fs.len() == 0 {
                return true;
            }
            let pb: &[u8] = path.as_bytes();
            let mut k: usize = 0;
            while k < fs.len()
                invariant
                    k <= fs@.len(),
                    pf == Some(fs),
                    pb@ == path.spec_bytes(),
                    forall|j: int|
                        0 <= j < k ==> !contains_bytes(pb@, string_bytes(#[trigger] fs@[j])),
                decreases fs@.len() - k,
            {
                if contains_sub(pb, fs[k].as_str().as_bytes()) {
                    proof {
                        let fv = fs@.map_values(|s: String| string_bytes(s));
                        assert(fv[k as int] == string_bytes(fs@[k as int]));
                        assert(contains_bytes(path.spec_bytes(), fv[k as int]));
                        assert(exists|j: int|
                            0 <= j < fv.len() && contains_bytes(path.spec_bytes(), fv[j]));
                        assert(filters_view(pf) == Some(fv));
                        assert(passes_filter(path.spec_bytes(), filters_view(pf)));
                    }
                    return true;
                }
                k = k + 1;
            }
            proof {
                let fv = fs@.map_values(|s: String| string_bytes(s));
                assert forall|j: int| 0 <= j < fv.len() implies !contains_bytes(
                    path.spec_bytes(),
                    #[trigger] fv[j],
                ) by {
                    assert(fv[j] == string_bytes(fs@[j]));
                }
            }
            false
        },
    }
}

/// The token at `k` is the first occurrence of its value in the list.
pub open spec fn tok_first(qtoks: Seq<Seq<u8>>, k: int) -> bool {
    forall|j: int| 0 <= j < k ==> qtoks[j] != qtoks[k]
}

/// The raw lexical relevance of a content for a token list: one score
/// unit for every distinct query token that occurs in the content as a
/// whole word.
pub open spec fn lex_raw(content: Seq<u8>, qtoks: Seq<Seq<u8>>) -> int
    decreases qtoks.len(),
{
    if qtoks.len() == 0 {
        0
    } else {
        lex_raw(content, qtoks.drop_last()) + if tok_first(qtoks, qtoks.len() - 1) && has_word(
            content,
            qtoks.last(),
        ) {
            SCORE_SCALE as int
        } else {
            0
        }
    }
}

pub proof fn lemma_lex_raw_bounds(content: Seq<u8>, qtoks: Seq<Seq<u8>>)
    ensures
        0 <= lex_raw(content, qtoks) <= qtoks.len() * (SCORE_SCALE as int),
    decreases qtoks.len(),
{
    if qtoks.len() == 0 {
    } else {
        lemma_lex_raw_bounds(content, qtoks.drop_last());
        assert((qtoks.len() - 1) * (SCORE_SCALE as int) + SCORE_SCALE == qtoks.len() * (
        SCORE_SCALE as int)) by (nonlinear_arith);
    }
}

/// Is token `k` the first occurrence of its value?
fn tok_first_exec(qtoks: &Vec<Vec<u8>>, k: usize) -> (r: bool)
    requires
        k < qtoks@.len(),
    ensures
        r == tok_first(views_of(qtoks@), k as int),
{
    let mut j: usize = 0;
    while j < k
        invariant
            j <= k < qtoks@.len(),
            forall|t: int| 0 <= t < j ==> views_of(qtoks@)[t] != views_of(qtoks@)[k as int],
        decreases k - j,
    {
        if bytes_eq(qtoks[j].as_slice(), qtoks[k].as_slice()) {
            proof {
                assert(views_of(qtoks@)[j as int] == views_of(qtoks@)[k as int]);
            }
            return false;
        }
        j = j + 1;
    }
    true
}

/// Scores a content against a token list.
pub fn lex_raw_score(content: &[u8], qtoks: &Vec<Vec<u8>>) -> (s: i64)
    requires
        qtoks@.len() <= MAX_QUERY_TOKENS,
    ensures
        s as int == lex_raw(content@, views_of(qtoks@)),
        0 <= s <= (qtoks@.len() as int) * (SCORE_SCALE as int),
{
    let ghost views = views_of(qtoks@);
    let mut s: i64 = 0;
    let mut k: usize = 0;
    proof {
        assert(views.subrange(0, 0) =~= Seq::<Seq<u8>>::empty());
    }
    while k < qtoks.len()
        invariant
            k <= qtoks@.len(),
            qtoks@.len() <= MAX_QUERY_TOKENS,
            views == views_of(qtoks@),
            s as int == lex_raw(content@, views.subrange(0, k as int)),
            0 <= s <= (k as int) * (SCORE_SCALE as int),
        decreases qtoks@.len() - k,
    {
        let first: bool = tok_first_exec(qtoks, k);
        let hit: bool = first && contains_word(content, qtoks[k].as_slice());
        proof {
            let pre = views.subrange(0, k as int);
            let post = views.subrange(0, k + 1);
            assert(post.drop_last() =~= pre);
            assert(post.last() == views[k as int]);
            assert(tok_first(post, k as int) == tok_first(views, k as int)) by {
                if tok_first(post, k as int) {
                    assert forall|j: int| 0 <= j < k as int implies views[j] != views[k as int] by {
                        assert(post[j] != post[k as int]);
                    }
                }
                if tok_first(views, k as int) {
                    assert forall|j: int| 0 <= j < k as int implies post[j] != post[k as int] by {
                        assert(views[j] != views[k as int]);
                    }
                }
            }
            assert((k as int) * (SCORE_SCALE as int) + SCORE_SCALE <= ((k + 1) as int) * (
            SCORE_SCALE as int)) by (nonlinear_arith);
        }
        if hit {
            s = s + SCORE_SCALE;
        }
        k = k + 1;
    }
    proof {
        assert(views.subrange(0, qtoks@.len() as int) =~= views);
    }
    s
}

} // verus!
