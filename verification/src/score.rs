//! Score details attached to each returned document.

use vstd::prelude::*;

verus! {

/// A bucket's position in a rule's own ordering: `rank <= max_rank`, and a
/// larger rank means a better bucket.
#[derive(Clone, Copy, PartialEq, Eq, Debug)]
pub struct Rank {
    pub rank: u32,
    pub max_rank: u32,
}

/// One per-rule entry of a document's score vector, tagged by rule kind.
#[derive(Clone, Copy, PartialEq, Eq, Debug)]
pub enum ScoreDetails {
    Words(Rank),
    Typo(Rank),
    Proximity(Rank),
    Attribute(Rank),
    Exactness(Rank),
}

/// Whether ties are broken down the whole rule pipeline (`Default`) or
/// single-candidate buckets short-circuit tie-breaking (`Skip`).
#[derive(Clone, Copy, PartialEq, Eq, Structural, Debug)]
pub enum ScoringStrategy {
    Default,
    Skip,
}

/// Copies a score vector entry by entry.
pub(crate) fn clone_score_vec(v: &Vec<ScoreDetails>) -> (r: Vec<ScoreDetails>)
    ensures
        r@ == v@,
{
    let mut r: Vec<ScoreDetails> = Vec::new();
    let mut i: usize = 0;
    while i < v.len()
        invariant
            i <= v.len(),
            r@ == v@.take(i as int),
        decreases v.len() - i,
    {
        r.push(v[i]);
        proof {
            assert(v@.take(i as int).push(v@[i as int]) =~= v@.take(i + 1 as int));
        }
        i += 1;
    }
    proof {
        assert(v@.take(v@.len() as int) =~= v@);
    }
    r
}

} // verus!
