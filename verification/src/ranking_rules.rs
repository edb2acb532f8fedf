//! Ranking rules as stateful bucket iterators.
//!
//! A rule is defined by an ordered list of bucket definitions — best bucket
//! first, each carrying the score entry it contributes — and driven through
//! the start_iteration / next_bucket / end_iteration lifecycle: started once
//! per descent, asked for ordered buckets restricted to a shrinking
//! universe, and ended when its universe is exhausted.

use vstd::prelude::*;
use roaring::RoaringBitmap;
use crate::bitmap::{bm_elems, bm_and, bm_is_empty};
use crate::score::ScoreDetails;

verus! {

/// One bucket of a rule's ordering: the documents the rule deems equivalent
/// at this position, and the score entry they earn.
pub struct BucketDef {
    pub score: ScoreDetails,
    pub docids: RoaringBitmap,
}

/// A bucket as handed to the driver: candidates restricted to the current
/// universe, never empty, with the score of the defining bucket.
pub struct Bucket {
    pub candidates: RoaringBitmap,
    pub score: ScoreDetails,
}

/// `sc` is the score of one of the buckets of `defn`.
pub open spec fn is_bucket_score(defn: Seq<BucketDef>, sc: ScoreDetails) -> bool {
    exists|b: int| 0 <= b < defn.len() && (#[trigger] defn[b]).score == sc
}

/// The ids of the buckets of `defn` from position `i` on: what a rule whose
/// cursor stands at `i` can still emit.
pub open spec fn coverage_from(defn: Seq<BucketDef>, i: int) -> Set<u32>
    decreases defn.len() - i,
{
    if 0 <= i < defn.len() {
        bm_elems(defn[i].docids).union(coverage_from(defn, i + 1))
    } else {
        Set::<u32>::empty()
    }
}

/// A ranking rule bound to one query: its bucket definitions and its
/// iteration state. `starts` counts the `start_iteration` calls the rule
/// received, a diagnostic the driver's descend policy is observed through.
pub struct RankingRule {
    pub name: String,
    pub defn: Vec<BucketDef>,
    pub cursor: usize,
    pub active: bool,
    pub starts: u64,
}

impl RankingRule {
    /// Everything this rule can ever emit.
    pub open spec fn coverage(self) -> Set<u32> {
        coverage_from(self.defn@, 0)
    }

    pub fn new(name: String, defn: Vec<BucketDef>) -> (r: RankingRule)
        ensures
            r.name == name,
            r.defn == defn,
            r.cursor == 0,
            !r.active,
            r.starts == 0,
    {
        RankingRule { name, defn, cursor: 0, active: false, starts: 0 }
    }

    /// Diagnostic identifier, stable across versions.
    pub fn id(&self) -> (r: &str)
        ensures
            r@ == self.name@,
    {
        self.name.as_str()
    }

    /// Prepares the rule to enumerate its ordered buckets over `universe`.
    pub fn start_iteration(&mut self, universe: &RoaringBitmap)
        requires
            !old(self).active,
        ensures
            final(self).active,
            final(self).cursor == 0,
            final(self).defn == old(self).defn,
            final(self).name == old(self).name,
            final(self).starts == (if old(self).starts == u64::MAX {
                u64::MAX as int
            } else {
                old(self).starts + 1
            }),
    {
        self.cursor = 0;
        self.active = true;
        if self.starts < u64::MAX {
            self.starts = self.starts + 1;
        }
    }

    /// Releases the iteration state.
    pub fn end_iteration(&mut self)
        requires
            old(self).active,
        ensures
            !final(self).active,
            final(self).cursor == old(self).cursor,
            final(self).defn == old(self).defn,
            final(self).name == old(self).name,
            final(self).starts == old(self).starts,
    {
        self.active = false;
    }

    /// The next best bucket restricted to `universe`. Exhaustion contract:
    /// a `None` answer certifies that the universe passed in was empty.
    pub fn next_bucket(&mut self, universe: &RoaringBitmap) -> (r: Option<Bucket>)
        requires
            old(self).active,
            old(self).cursor <= old(self).defn@.len(),
            bm_elems(*universe).subset_of(
                coverage_from(old(self).defn@, old(self).cursor as int),
            ),
        ensures
            final(self).active,
            final(self).defn == old(self).defn,
            final(self).name == old(self).name,
            final(self).starts == old(self).starts,
            old(self).cursor <= final(self).cursor <= final(self).defn@.len(),
            (match r {
                Option::None => bm_elems(*universe).is_empty() && final(self).cursor
                    == final(self).defn@.len(),
                Option::Some(b) => {
                    &&& !bm_elems(b.candidates).is_empty()
                    &&& bm_elems(b.candidates).finite()
                    &&& old(self).cursor < final(self).cursor
                    // the bucket is the first one that meets the universe
                    &&& forall|j: int|
                        old(self).cursor <= j < final(self).cursor - 1 ==> bm_elems(
                            (#[trigger] final(self).defn@[j]).docids,
                        ).intersect(bm_elems(*universe)).is_empty()
                    &&& bm_elems(b.candidates) == bm_elems(
                        final(self).defn@[final(self).cursor - 1].docids,
                    ).intersect(bm_elems(*universe))
                    &&& b.score == final(self).defn@[final(self).cursor - 1].score
                    &&& bm_elems(b.candidates).subset_of(bm_elems(*universe))
                    &&& bm_elems(*universe).difference(bm_elems(b.candidates)).subset_of(
                        coverage_from(final(self).defn@, final(self).cursor as int),
                    )
                },
            }),
    {
        let n = self.defn.len();
        let mut cur = self.cursor;
        while cur < n
            invariant
                self == old(self),
                self.active,
                n == self.defn@.len(),
                old(self).cursor <= cur <= n,
                bm_elems(*universe).subset_of(coverage_from(self.defn@, cur as int)),
                forall|j: int|
                    old(self).cursor <= j < cur ==> bm_elems(
                        (#[trigger] self.defn@[j]).docids,
                    ).intersect(bm_elems(*universe)).is_empty(),
            decreases n - cur,
        {
            let inter = bm_and(&self.defn[cur].docids, universe);
            if !bm_is_empty(&inter) {
                self.cursor = cur + 1;
                let score = self.defn[cur].score;
                proof {
                    assert forall|x: u32|
                        bm_elems(*universe).difference(bm_elems(inter)).contains(x)
                        implies coverage_from(self.defn@, cur + 1 as int).contains(x) by {
                        assert(coverage_from(self.defn@, cur as int).contains(x));
                        if bm_elems(self.defn@[cur as int].docids).contains(x) {
                            assert(bm_elems(inter).contains(x));
                        }
                    }
                }
                return Some(Bucket { candidates: inter, score });
            }
            proof {
                assert forall|x: u32| bm_elems(*universe).contains(x)
                    implies coverage_from(self.defn@, cur + 1 as int).contains(x) by {
                    assert(coverage_from(self.defn@, cur as int).contains(x));
                    if bm_elems(self.defn@[cur as int].docids).contains(x) {
                        assert(bm_elems(inter).contains(x));
                    }
                }
            }
            cur = cur + 1;
        }
        self.cursor = cur;
        proof {
            assert(bm_elems(*universe) =~= Set::<u32>::empty());
        }
        None
    }
}

} // verus!
