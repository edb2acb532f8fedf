//! Trusted interface to the roaring bitmap type: compressed ordered sets of
//! `u32` document ids. Every universe and candidate set of the engine is one
//! of these; the contracts below describe each operation through `bm_elems`,
//! the set of ids a bitmap holds.

use vstd::prelude::*;
use roaring::RoaringBitmap;

verus! {

/// Declares roaring::RoaringBitmap to the verifier as an opaque type; the
/// wrappers below are the only window into what a value of it holds.
#[verifier::external_type_specification]
#[verifier::external_body]
pub struct ExRoaringBitmap(RoaringBitmap);

/// The set of document ids that a roaring bitmap holds.
pub uninterp spec fn bm_elems(b: RoaringBitmap) -> Set<u32>;

/// Relies on roaring::RoaringBitmap::new: a fresh bitmap holds no ids.
#[verifier::external_body]
pub(crate) fn bm_new() -> (r: RoaringBitmap)
    ensures
        bm_elems(r) =~= Set::<u32>::empty(),
        bm_elems(r).finite(),
{
    RoaringBitmap::new()
}

/// Relies on roaring's Clone impl: the copy holds the same ids.
#[verifier::external_body]
pub(crate) fn bm_clone(b: &RoaringBitmap) -> (r: RoaringBitmap)
    ensures
        bm_elems(r) =~= bm_elems(*b),
        bm_elems(r).finite(),
{
    b.clone()
}

/// Relies on roaring::RoaringBitmap::len: the number of distinct ids held.
#[verifier::external_body]
pub(crate) fn bm_len(b: &RoaringBitmap) -> (r: u64)
    ensures
        r == bm_elems(*b).len(),
{
    b.len()
}

/// Relies on roaring::RoaringBitmap::is_empty.
#[verifier::external_body]
pub(crate) fn bm_is_empty(b: &RoaringBitmap) -> (r: bool)
    ensures
        r == bm_elems(*b).is_empty(),
{
    b.is_empty()
}

/// Relies on roaring::RoaringBitmap::contains.
#[verifier::external_body]
pub(crate) fn bm_contains(b: &RoaringBitmap, x: u32) -> (r: bool)
    ensures
        r == bm_elems(*b).contains(x),
{
    b.contains(x)
}

/// Relies on roaring::RoaringBitmap::insert: adds one id and reports whether
/// it was absent.
#[verifier::external_body]
pub(crate) fn bm_insert(b: &mut RoaringBitmap, x: u32) -> (r: bool)
    ensures
        bm_elems(*final(b)) =~= bm_elems(*old(b)).insert(x),
        bm_elems(*final(b)).finite(),
        r == !bm_elems(*old(b)).contains(x),
{
    b.insert(x)
}

/// Relies on roaring::RoaringBitmap::clear: removes every id.
#[verifier::external_body]
pub(crate) fn bm_clear(b: &mut RoaringBitmap)
    ensures
        bm_elems(*final(b)) =~= Set::<u32>::empty(),
        bm_elems(*final(b)).finite(),
{
    b.clear()
}

/// Relies on roaring's BitAnd impl for bitmap references: set intersection.
#[verifier::external_body]
pub(crate) fn bm_and(a: &RoaringBitmap, b: &RoaringBitmap) -> (r: RoaringBitmap)
    ensures
        bm_elems(r) =~= bm_elems(*a).intersect(bm_elems(*b)),
        bm_elems(r).finite(),
{
    a & b
}

/// Relies on roaring's SubAssign impl for a bitmap reference: set difference.
#[verifier::external_body]
pub(crate) fn bm_sub_assign(a: &mut RoaringBitmap, b: &RoaringBitmap)
    ensures
        bm_elems(*final(a)) =~= bm_elems(*old(a)).difference(bm_elems(*b)),
        bm_elems(*final(a)).finite(),
{
    *a -= b;
}

/// Relies on roaring's BitOrAssign impl for a bitmap reference: set union.
#[verifier::external_body]
pub(crate) fn bm_or_assign(a: &mut RoaringBitmap, b: &RoaringBitmap)
    ensures
        bm_elems(*final(a)) =~= bm_elems(*old(a)).union(bm_elems(*b)),
        bm_elems(*final(a)).finite(),
{
    *a |= b;
}

/// Relies on roaring::RoaringBitmap::iter, whose documentation guarantees
/// that values come out ordered by value: the ids, strictly ascending.
#[verifier::external_body]
pub(crate) fn bm_to_vec(b: &RoaringBitmap) -> (r: Vec<u32>)
    requires
        bm_elems(*b).finite(),
    ensures
        r@.len() == bm_elems(*b).len(),
        forall|i: int, j: int| 0 <= i < j < r@.len() ==> r@[i] < r@[j],
        forall|i: int| 0 <= i < r@.len() ==> bm_elems(*b).contains(r@[i]),
        forall|x: u32| bm_elems(*b).contains(x) ==> r@.contains(x),
{
    b.iter().collect()
}

} // verus!
