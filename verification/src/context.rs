//! The search context: the engine's view of the corpus store.
//!
//! The real store sits behind a read transaction and is an external
//! collaborator; the ranked-retrieval core only ever reads two things from
//! it: the posting list of a word and the distinct-field value of a
//! document. A `SearchCtx` holds exactly that data as plain values, so the
//! logic over it is verified for every store content.

use vstd::prelude::*;
use roaring::RoaringBitmap;
use crate::bitmap::{bm_elems, bm_new, bm_clone};

verus! {

/// One row of the per-field facet index: document `docid` holds value
/// `value` in field `fid`.
#[derive(Clone, Copy, PartialEq, Eq, Debug)]
pub struct FacetEntry {
    pub fid: u16,
    pub docid: u32,
    pub value: u64,
}

/// Snapshot of the store data the core reads during one query.
pub struct SearchCtx {
    /// Posting lists: for each indexed word id, the documents containing it.
    pub postings: Vec<(u32, RoaringBitmap)>,
    /// The distinct field configured on the index, if any.
    pub distinct_fid: Option<u16>,
    /// Facet rows, consulted by the distinct rule.
    pub facets: Vec<FacetEntry>,
}

/// The posting lists as a map from word id to document-id set.
pub open spec fn postings_map_of(entries: Seq<(u32, RoaringBitmap)>) -> Map<u32, Set<u32>>
    decreases entries.len(),
{
    if entries.len() == 0 {
        Map::empty()
    } else {
        postings_map_of(entries.drop_last())
            .insert(entries.last().0, bm_elems(entries.last().1))
    }
}

/// The facet rows of field `fid` as a map from document id to value.
pub open spec fn facet_map_of(entries: Seq<FacetEntry>, fid: u16) -> Map<u32, u64>
    decreases entries.len(),
{
    if entries.len() == 0 {
        Map::empty()
    } else {
        let m = facet_map_of(entries.drop_last(), fid);
        if entries.last().fid == fid {
            m.insert(entries.last().docid, entries.last().value)
        } else {
            m
        }
    }
}

impl SearchCtx {
    /// Well-formed store data: no duplicate posting-list key, no duplicate
    /// facet row per field and document, finite posting lists.
    pub open spec fn wf(self) -> bool {
        &&& forall|i: int, j: int|
            0 <= i < j < self.postings@.len() ==> self.postings@[i].0 != self.postings@[j].0
        &&& forall|i: int, j: int|
            0 <= i < j < self.facets@.len()
                ==> !(self.facets@[i].fid == self.facets@[j].fid
                    && self.facets@[i].docid == self.facets@[j].docid)
        &&& forall|i: int|
            0 <= i < self.postings@.len() ==> bm_elems(#[trigger] self.postings@[i].1).finite()
    }

    /// Documents containing word `w`; empty when `w` is not indexed.
    pub open spec fn posting_ids(self, w: u32) -> Set<u32> {
        if postings_map_of(self.postings@).contains_key(w) {
            postings_map_of(self.postings@)[w]
        } else {
            Set::empty()
        }
    }

    /// Document-to-value map of the distinct field `fid`.
    pub open spec fn distinct_map(self, fid: u16) -> Map<u32, u64> {
        facet_map_of(self.facets@, fid)
    }
}

proof fn lemma_postings_map_entry(entries: Seq<(u32, RoaringBitmap)>, i: int)
    requires
        forall|a: int, b: int| 0 <= a < b < entries.len() ==> entries[a].0 != entries[b].0,
        0 <= i < entries.len(),
    ensures
        postings_map_of(entries).contains_key(entries[i].0),
        postings_map_of(entries)[entries[i].0] == bm_elems(entries[i].1),
    decreases entries.len(),
{
    if i == entries.len() - 1 {
    } else {
        lemma_postings_map_entry(entries.drop_last(), i);
        assert(entries.drop_last()[i] == entries[i]);
        assert(entries.last().0 != entries[i].0);
    }
}

proof fn lemma_postings_map_absent(entries: Seq<(u32, RoaringBitmap)>, w: u32)
    requires
        forall|a: int| 0 <= a < entries.len() ==> entries[a].0 != w,
    ensures
        !postings_map_of(entries).contains_key(w),
    decreases entries.len(),
{
    if entries.len() > 0 {
        lemma_postings_map_absent(entries.drop_last(), w);
    }
}

pub(crate) proof fn lemma_facet_map_entry(entries: Seq<FacetEntry>, fid: u16, i: int)
    requires
        forall|a: int, b: int|
            0 <= a < b < entries.len()
                ==> !(entries[a].fid == entries[b].fid && entries[a].docid == entries[b].docid),
        0 <= i < entries.len(),
        entries[i].fid == fid,
    ensures
        facet_map_of(entries, fid).contains_key(entries[i].docid),
        facet_map_of(entries, fid)[entries[i].docid] == entries[i].value,
    decreases entries.len(),
{
    if i == entries.len() - 1 {
    } else {
        lemma_facet_map_entry(entries.drop_last(), fid, i);
        assert(entries.drop_last()[i] == entries[i]);
    }
}

pub(crate) proof fn lemma_facet_map_to_entry(entries: Seq<FacetEntry>, fid: u16, d: u32)
    requires
        facet_map_of(entries, fid).contains_key(d),
    ensures
        exists|i: int|
            0 <= i < entries.len() && entries[i].fid == fid && entries[i].docid == d
                && entries[i].value == facet_map_of(entries, fid)[d],
    decreases entries.len(),
{
    if entries.len() > 0 {
        let last = entries.last();
        if last.fid == fid && last.docid == d
            && last.value == facet_map_of(entries, fid)[d] {
            assert(entries[entries.len() - 1] == last);
        } else {
            lemma_facet_map_to_entry(entries.drop_last(), fid, d);
            let i = choose|i: int|
                0 <= i < entries.drop_last().len() && entries.drop_last()[i].fid == fid
                    && entries.drop_last()[i].docid == d
                    && entries.drop_last()[i].value == facet_map_of(entries.drop_last(), fid)[d];
            assert(entries[i] == entries.drop_last()[i]);
        }
    }
}

pub(crate) proof fn lemma_facet_map_absent(entries: Seq<FacetEntry>, fid: u16, d: u32)
    requires
        forall|a: int|
            0 <= a < entries.len() ==> !(entries[a].fid == fid && entries[a].docid == d),
    ensures
        !facet_map_of(entries, fid).contains_key(d),
    decreases entries.len(),
{
    if entries.len() > 0 {
        lemma_facet_map_absent(entries.drop_last(), fid, d);
    }
}

/// Looks up the posting list for word `w`; the store never fails on a
/// missing word, it answers with the empty set.
pub fn word_docids(ctx: &SearchCtx, w: u32) -> (r: RoaringBitmap)
    requires
        ctx.wf(),
    ensures
        bm_elems(r) == ctx.posting_ids(w),
        bm_elems(r).finite(),
{
    let n = ctx.postings.len();
    let mut i: usize = 0;
    while i < n
        invariant
            ctx.wf(),
            n == ctx.postings@.len(),
            i <= n,
            forall|a: int| 0 <= a < i ==> ctx.postings@[a].0 != w,
        decreases n - i,
    {
        if ctx.postings[i].0 == w {
            proof {
                lemma_postings_map_entry(ctx.postings@, i as int);
            }
            return bm_clone(&ctx.postings[i].1);
        }
        i += 1;
    }
    proof {
        lemma_postings_map_absent(ctx.postings@, w);
    }
    bm_new()
}

/// Reads the value document `docid` holds in field `fid`, if any.
pub fn facet_value(ctx: &SearchCtx, fid: u16, docid: u32) -> (r: Option<u64>)
    requires
        ctx.wf(),
    ensures
        (match r {
            Some(v) => ctx.distinct_map(fid).contains_key(docid)
                && ctx.distinct_map(fid)[docid] == v,
            None => !ctx.distinct_map(fid).contains_key(docid),
        }),
{
    let n = ctx.facets.len();
    let mut i: usize = 0;
    while i < n
        invariant
            ctx.wf(),
            n == ctx.facets@.len(),
            i <= n,
            forall|a: int|
                0 <= a < i ==> !(ctx.facets@[a].fid == fid && ctx.facets@[a].docid == docid),
        decreases n - i,
    {
        if ctx.facets[i].fid == fid && ctx.facets[i].docid == docid {
            proof {
                lemma_facet_map_entry(ctx.facets@, fid, i as int);
            }
            return Some(ctx.facets[i].value);
        }
        i += 1;
    }
    proof {
        lemma_facet_map_absent(ctx.facets@, fid, docid);
    }
    None
}

} // verus!
