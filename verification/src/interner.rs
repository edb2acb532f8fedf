//! A deduplicating arena for word-graph conditions.
//!
//! Conditions are heavily shared between edges; they live in one arena per
//! query and edges carry cheap integer handles. Inserting a condition that
//! is already present hands back the handle of the first equal entry.

use vstd::prelude::*;
use crate::words::{WordsCondition, lqts_equiv, lqts_eq};

verus! {

/// An integer handle into a `DedupInterner`.
#[derive(Clone, Copy, PartialEq, Eq, Debug)]
pub struct Interned {
    pub idx: usize,
}

/// The arena of interned conditions.
pub struct DedupInterner {
    pub items: Vec<WordsCondition>,
}

impl DedupInterner {
    pub fn new() -> (r: DedupInterner)
        ensures
            r.items@.len() == 0,
    {
        DedupInterner { items: Vec::new() }
    }

    /// Interns `condition`: hands back the handle of the first equal entry,
    /// appending the condition only when no equal entry exists yet.
    pub fn insert(&mut self, condition: WordsCondition) -> (r: Interned)
        ensures
            r.idx < final(self).items@.len(),
            lqts_equiv(final(self).items@[r.idx as int].term, condition.term),
            forall|j: int|
                0 <= j < r.idx ==> !lqts_equiv(
                    (#[trigger] old(self).items@[j]).term,
                    condition.term,
                ),
            (exists|j: int|
                0 <= j < old(self).items@.len() && lqts_equiv(
                    (#[trigger] old(self).items@[j]).term,
                    condition.term,
                )) ==> final(self).items@ == old(self).items@ && r.idx < old(
                self,
            ).items@.len(),
            !(exists|j: int|
                0 <= j < old(self).items@.len() && lqts_equiv(
                    (#[trigger] old(self).items@[j]).term,
                    condition.term,
                )) ==> final(self).items@ == old(self).items@.push(condition) && r.idx == old(
                self,
            ).items@.len(),
    {
        let n = self.items.len();
        let mut i: usize = 0;
        while i < n
            invariant
                self == old(self),
                n == self.items@.len(),
                i <= n,
                forall|j: int|
                    0 <= j < i ==> !lqts_equiv(
                        (#[trigger] self.items@[j]).term,
                        condition.term,
                    ),
            decreases n - i,
        {
            if lqts_eq(&self.items[i].term, &condition.term) {
                return Interned { idx: i };
            }
            i += 1;
        }
        self.items.push(condition);
        Interned { idx: n }
    }
}

} // verus!
