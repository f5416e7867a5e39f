//! The record a search returns for one matching document.

use vstd::prelude::*;

verus! {

/// Result from a search operation with scores and metadata.
///
/// Scores are fixed-point: a value of `crate::SCORE_SCALE` stands for a
/// score of one. For a single-mode search exactly one of `fts_score` /
/// `semantic_score` is populated; a hybrid search may populate both.
/// `final_score` is the value the result list is ranked by.
#[derive(Debug)]
pub struct SearchResult {
    pub path: String,
    pub metadata: Option<Vec<(String, String)>>,
    pub created_at: u64,
    pub updated_at: u64,
    pub fts_score: Option<i64>,
    pub semantic_score: Option<i64>,
    pub final_score: i64,
}

/// The value of metadata: its key/value pairs as character sequences.
pub open spec fn meta_view(m: Option<Vec<(String, String)>>) -> Option<
    Seq<(Seq<char>, Seq<char>)>,
> {
    match m {
        None => None,
        Some(v) => Some(v@.map_values(|p: (String, String)| (p.0@, p.1@))),
    }
}

/// Copies a metadata mapping, preserving its value.
pub fn clone_metadata(m: &Option<Vec<(String, String)>>) -> (r: Option<Vec<(String, String)>>)
    ensures
        meta_view(r) == meta_view(*m),
{
    match m {
        None => None,
        Some(v) => {
            let mut out: Vec<(String, String)> = Vec::new();
            let mut i: usize = 0;
            while i < v.len()
                invariant
                    i <= v@.len(),
                    out@.len() == i,
                    forall|j: int|
                        0 <= j < i ==> (#[trigger] out@[j]).0@ == v@[j].0@ && out@[j].1@
                            == v@[j].1@,
                decreases v@.len() - i,
            {
                let k: String = v[i].0.clone();
                let val: String = v[i].1.clone();
                out.push((k, val));
                i = i + 1;
            }
            proof {
                assert(out@.map_values(|p: (String, String)| (p.0@, p.1@)) =~= v@.map_values(
                    |p: (String, String)| (p.0@, p.1@),
                ));
            }
            Some(out)
        },
    }
}

/// The score of a component that may be absent: an absent component
/// contributes zero to a weighted sum.
pub open spec fn opt_score(o: Option<i64>) -> int {
    match o {
        Some(v) => v as int,
        None => 0,
    }
}

} // verus!
