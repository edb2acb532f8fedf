//! The distinct rule: keep at most one document per value of a configured
//! field. Among documents sharing a value, the one with the smallest id
//! survives, a consequence of scanning candidates in ascending id order.

use vstd::prelude::*;
use roaring::RoaringBitmap;
use crate::bitmap::{bm_elems, bm_new, bm_contains, bm_insert, bm_to_vec};
use crate::context::{SearchCtx, lemma_facet_map_entry, lemma_facet_map_to_entry};

verus! {

/// Documents `a` and `b` both hold a value of the field mapped by `m`, and
/// it is the same value.
pub open spec fn same_value(m: Map<u32, u64>, a: u32, b: u32) -> bool {
    m.contains_key(a) && m.contains_key(b) && m[a] == m[b]
}

/// No candidate of `c` smaller than `d` shares `d`'s value.
pub open spec fn no_smaller_same(m: Map<u32, u64>, c: Set<u32>, d: u32) -> bool {
    forall|e: u32| c.contains(e) && e < d ==> !(#[trigger] same_value(m, e, d))
}

/// The candidates of `c` that survive the distinct filter: those with no
/// smaller equal-valued candidate. Candidates without a value all survive.
pub open spec fn distinct_remaining(m: Map<u32, u64>, c: Set<u32>) -> Set<u32> {
    Set::new(|d: u32| c.contains(d) && no_smaller_same(m, c, d))
}

/// Every document sharing its field value with some document of `s` —
/// including the documents of `s` that hold a value themselves.
pub open spec fn value_class(m: Map<u32, u64>, s: Set<u32>) -> Set<u32> {
    Set::new(|x: u32| exists|r: u32| s.contains(r) && same_value(m, r, x))
}

/// Every document sharing its field value with `d`, itself included; empty
/// when `d` holds no value.
pub open spec fn doc_class(m: Map<u32, u64>, d: u32) -> Set<u32> {
    Set::new(|x: u32| same_value(m, d, x))
}

/// The split a distinct application returns: the surviving candidates and
/// every document excluded on their account.
pub struct DistinctOutput {
    pub remaining: RoaringBitmap,
    pub excluded: RoaringBitmap,
}

/// A candidate dropped by the distinct filter always loses to a smaller
/// surviving candidate of equal value.
pub proof fn lemma_dropped_has_smaller_survivor(m: Map<u32, u64>, c: Set<u32>, d: u32)
    requires
        c.contains(d),
        !distinct_remaining(m, c).contains(d),
    ensures
        exists|e: u32|
            distinct_remaining(m, c).contains(e) && e < d && same_value(m, e, d),
    decreases d,
{
    let r = distinct_remaining(m, c);
    assert(!no_smaller_same(m, c, d));
    assert(exists|e: u32| c.contains(e) && e < d && same_value(m, e, d));
    let e = choose|e: u32| c.contains(e) && e < d && same_value(m, e, d);
    if r.contains(e) {
        assert(r.contains(e) && e < d && same_value(m, e, d));
    } else {
        lemma_dropped_has_smaller_survivor(m, c, e);
        let e2 = choose|e2: u32| r.contains(e2) && e2 < e && same_value(m, e2, e);
        assert(r.contains(e2) && e2 < d && same_value(m, e2, d));
    }
}

/// Applying the distinct filter to its own output changes nothing: the
/// distinct rule is idempotent.
pub proof fn lemma_distinct_idempotent(m: Map<u32, u64>, c: Set<u32>)
    ensures
        distinct_remaining(m, distinct_remaining(m, c)) == distinct_remaining(m, c),
{
    let r = distinct_remaining(m, c);
    assert forall|d: u32| r.contains(d) implies distinct_remaining(m, r).contains(d) by {
        assert forall|e: u32| r.contains(e) && e < d implies !(#[trigger] same_value(
            m,
            e,
            d,
        )) by {
            assert(c.contains(e));
            assert(no_smaller_same(m, c, d));
        }
        assert(no_smaller_same(m, r, d));
    }
    assert(distinct_remaining(m, r) =~= r);
}

/// No two ids of `s` share a value of the field mapped by `m`.
pub open spec fn pairwise_distinct_values(m: Map<u32, u64>, s: Set<u32>) -> bool {
    forall|a: u32, b: u32|
        s.contains(a) && s.contains(b) && a != b ==> !(#[trigger] same_value(m, a, b))
}

/// The distinct survivors of `u` are a full system of representatives: one
/// id per value class, every unvalued id kept, and every id of `u` either
/// survives or shares its value with a survivor.
pub proof fn lemma_remaining_is_cover(m: Map<u32, u64>, u: Set<u32>)
    ensures
        distinct_remaining(m, u).subset_of(u),
        pairwise_distinct_values(m, distinct_remaining(m, u)),
        u.subset_of(
            distinct_remaining(m, u).union(value_class(m, distinct_remaining(m, u))),
        ),
{
    let r = distinct_remaining(m, u);
    assert forall|a: u32, b: u32| r.contains(a) && r.contains(b) && a != b
        implies !(#[trigger] same_value(m, a, b)) by {
        lemma_remaining_pairwise_distinct(m, u, a, b);
    }
    assert forall|x: u32| u.contains(x)
        implies r.union(value_class(m, r)).contains(x) by {
        if !r.contains(x) {
            lemma_dropped_has_smaller_survivor(m, u, x);
            let e = choose|e: u32| r.contains(e) && e < x && same_value(m, e, x);
            assert(value_class(m, r).contains(x));
        }
    }
}

/// Any two pairwise-distinct-valued selections from `u` have the same size
/// when the second covers `u`: at most one id per value class fits, and a
/// covering selection holds exactly one.
pub proof fn lemma_distinct_reps_le(m: Map<u32, u64>, u: Set<u32>, a: Set<u32>, b: Set<u32>)
    requires
        u.finite(),
        a.subset_of(u),
        b.subset_of(u),
        pairwise_distinct_values(m, a),
        pairwise_distinct_values(m, b),
        u.subset_of(b.union(value_class(m, b))),
    ensures
        a.len() <= b.len(),
    decreases a.len(),
{
    vstd::set_lib::lemma_len_subset(a, u);
    vstd::set_lib::lemma_len_subset(b, u);
    if a.len() > 0 {
        let x = a.choose();
        assert(a.contains(x));
        assert(u.contains(x));
        let y = if b.contains(x) {
            x
        } else {
            assert(value_class(m, b).contains(x));
            choose|y: u32| b.contains(y) && same_value(m, y, x)
        };
        assert(b.contains(y));
        assert(y == x || same_value(m, y, x));
        let removed = Set::new(|z: u32| z == x || same_value(m, z, x));
        let u2 = u.difference(removed);
        let a2 = a.remove(x);
        let b2 = b.remove(y);
        vstd::set_lib::lemma_len_subset(u2, u);
        assert forall|z: u32| a2.contains(z) implies u2.contains(z) by {
            assert(!same_value(m, z, x));
            if same_value(m, x, z) {
                assert(same_value(m, z, x));
            }
        }
        assert forall|z: u32| b2.contains(z) implies u2.contains(z) by {
            if same_value(m, z, x) {
                // z and y would share a value, yet both stand in b
                if y == x {
                    assert(same_value(m, z, y));
                    assert(false);
                } else {
                    assert(same_value(m, z, y));
                    assert(false);
                }
            }
        }
        assert forall|z: u32| u2.contains(z)
            implies b2.union(value_class(m, b2)).contains(z) by {
            assert(b.union(value_class(m, b)).contains(z));
            if b.contains(z) {
                if z == y {
                    assert(removed.contains(z));
                    assert(false);
                }
            } else {
                let r = choose|r: u32| b.contains(r) && same_value(m, r, z);
                if r == y {
                    if y == x {
                        assert(same_value(m, x, z));
                        assert(same_value(m, z, x));
                        assert(false);
                    } else {
                        assert(same_value(m, x, z)) by {
                            assert(same_value(m, y, x));
                            assert(same_value(m, y, z));
                        }
                        assert(same_value(m, z, x));
                        assert(false);
                    }
                } else {
                    assert(b2.contains(r));
                    assert(value_class(m, b2).contains(z));
                }
            }
        }
        assert(pairwise_distinct_values(m, a2));
        assert(pairwise_distinct_values(m, b2));
        lemma_distinct_reps_le(m, u2, a2, b2);
    }
}

/// Two distinct survivors of the distinct filter never share a value.
pub proof fn lemma_remaining_pairwise_distinct(m: Map<u32, u64>, c: Set<u32>, a: u32, b: u32)
    requires
        distinct_remaining(m, c).contains(a),
        distinct_remaining(m, c).contains(b),
        a != b,
    ensures
        !same_value(m, a, b),
{
    if same_value(m, a, b) {
        if a < b {
            assert(c.contains(a) && a < b && same_value(m, a, b));
        } else {
            assert(c.contains(b) && b < a && same_value(m, b, a));
        }
    }
}

/// The facet rows whose field is `fid` and value is `val`, among the first
/// `n` rows: the part of a value class that a scan has already collected.
pub(crate) open spec fn class_upto(
    entries: Seq<crate::context::FacetEntry>,
    fid: u16,
    val: u64,
    n: int,
) -> Set<u32> {
    Set::new(
        |x: u32|
            exists|j: int|
                0 <= j < n && j < entries.len() && entries[j].fid == fid
                    && entries[j].value == val && entries[j].docid == x,
    )
}

/// Adds to `excluded` every document that shares the distinct-field value of
/// `docid` — `docid` itself included. Used by the rule-free driver path.
pub fn distinct_single_docid(
    ctx: &SearchCtx,
    field_id: u16,
    docid: u32,
    excluded: &mut RoaringBitmap,
)
    requires
        ctx.wf(),
        bm_elems(*old(excluded)).finite(),
    ensures
        bm_elems(*final(excluded)) == bm_elems(*old(excluded)).union(
            doc_class(ctx.distinct_map(field_id), docid),
        ),
        bm_elems(*final(excluded)).finite(),
{
    let ghost m = ctx.distinct_map(field_id);
    let value_opt = crate::context::facet_value(ctx, field_id, docid);
    match value_opt {
        None => {
            proof {
                assert(doc_class(m, docid) =~= Set::<u32>::empty());
                assert(bm_elems(*excluded).union(doc_class(m, docid)) =~= bm_elems(*excluded));
            }
        },
        Some(val) => {
            let n = ctx.facets.len();
            let mut i: usize = 0;
            while i < n
                invariant
                    ctx.wf(),
                    m == ctx.distinct_map(field_id),
                    m.contains_key(docid) && m[docid] == val,
                    n == ctx.facets@.len(),
                    i <= n,
                    bm_elems(*excluded) == bm_elems(*old(excluded)).union(
                        class_upto(ctx.facets@, field_id, val, i as int),
                    ),
                    bm_elems(*excluded).finite(),
                decreases n - i,
            {
                let e = ctx.facets[i];
                if e.fid == field_id && e.value == val {
                    bm_insert(excluded, e.docid);
                }
                proof {
                    if e.fid == field_id && e.value == val {
                        assert(class_upto(ctx.facets@, field_id, val, i + 1 as int)
                            =~= class_upto(ctx.facets@, field_id, val, i as int).insert(e.docid));
                        assert(bm_elems(*excluded) =~= bm_elems(*old(excluded)).union(
                            class_upto(ctx.facets@, field_id, val, i + 1 as int),
                        ));
                    } else {
                        assert(class_upto(ctx.facets@, field_id, val, i + 1 as int)
                            =~= class_upto(ctx.facets@, field_id, val, i as int));
                    }
                }
                i += 1;
            }
            proof {
                let full = class_upto(ctx.facets@, field_id, val, n as int);
                assert forall|x: u32| full.contains(x) implies doc_class(m, x) == doc_class(
                    m,
                    docid,
                ) && doc_class(m, docid).contains(x) by {
                    let j = choose|j: int|
                        0 <= j < n && ctx.facets@[j].fid == field_id
                            && ctx.facets@[j].value == val && ctx.facets@[j].docid == x;
                    lemma_facet_map_entry(ctx.facets@, field_id, j);
                    assert(doc_class(m, x) =~= doc_class(m, docid));
                }
                assert forall|x: u32| doc_class(m, docid).contains(x) implies full.contains(
                    x,
                ) by {
                    lemma_facet_map_to_entry(ctx.facets@, field_id, x);
                    let j = choose|j: int|
                        0 <= j < ctx.facets@.len() && ctx.facets@[j].fid == field_id
                            && ctx.facets@[j].docid == x && ctx.facets@[j].value == m[x];
                }
                assert(full =~= doc_class(m, docid));
            }
        },
    }
}

/// Splits `candidates` into the survivors of the distinct filter and the
/// full value classes of those survivors, scanning in ascending id order.
pub fn apply_distinct_rule(
    ctx: &SearchCtx,
    field_id: u16,
    candidates: &RoaringBitmap,
) -> (out: DistinctOutput)
    requires
        ctx.wf(),
        bm_elems(*candidates).finite(),
    ensures
        bm_elems(out.remaining) == distinct_remaining(
            ctx.distinct_map(field_id),
            bm_elems(*candidates),
        ),
        bm_elems(out.excluded) == value_class(
            ctx.distinct_map(field_id),
            bm_elems(out.remaining),
        ),
        bm_elems(out.remaining).finite(),
        bm_elems(out.excluded).finite(),
        bm_elems(out.remaining).subset_of(bm_elems(*candidates)),
{
    let ghost m = ctx.distinct_map(field_id);
    let ghost cset = bm_elems(*candidates);
    let v = bm_to_vec(candidates);
    let n = v.len();
    let mut remaining = bm_new();
    let mut excluded = bm_new();
    let mut i: usize = 0;
    proof {
        assert(value_class(m, bm_elems(remaining)) =~= Set::<u32>::empty());
        assert(distinct_remaining(m, v@.take(0).to_set()) =~= Set::<u32>::empty());
    }
    while i < n
        invariant
            ctx.wf(),
            m == ctx.distinct_map(field_id),
            cset == bm_elems(*candidates),
            cset.finite(),
            n == v@.len(),
            i <= n,
            n == cset.len(),
            forall|a: int, b: int| 0 <= a < b < n ==> v@[a] < v@[b],
            forall|a: int| 0 <= a < n ==> cset.contains(v@[a]),
            forall|x: u32| cset.contains(x) ==> v@.contains(x),
            bm_elems(remaining) == distinct_remaining(m, v@.take(i as int).to_set()),
            bm_elems(excluded) == value_class(m, bm_elems(remaining)),
            bm_elems(remaining).finite(),
            bm_elems(excluded).finite(),
        decreases n - i,
    {
        let d = v[i];
        let ghost pre = v@.take(i as int).to_set();
        let ghost post = v@.take(i + 1 as int).to_set();
        let ghost rem_pre = bm_elems(remaining);
        proof {
            assert forall|x: u32| post.contains(x) implies pre.insert(d).contains(x) by {
                assert(v@.take(i + 1 as int).contains(x));
                let j = choose|j: int| 0 <= j < i + 1 && #[trigger] v@.take(i + 1 as int)[j] == x;
                if j < i {
                    assert(v@.take(i as int)[j] == x);
                    assert(v@.take(i as int).contains(x));
                } else {
                    assert(x == d);
                }
            }
            assert forall|x: u32| pre.insert(d).contains(x) implies post.contains(x) by {
                if x == d {
                    assert(v@.take(i + 1 as int)[i as int] == d);
                    assert(v@.take(i + 1 as int).contains(x));
                } else {
                    let j = choose|j: int| 0 <= j < i && v@.take(i as int)[j] == x;
                    assert(v@.take(i + 1 as int)[j] == x);
                    assert(v@.take(i + 1 as int).contains(x));
                }
            }
            assert(post =~= pre.insert(d));
            // every processed candidate sits strictly below d
            assert forall|x: u32| pre.contains(x) implies x < d by {
                let j = choose|j: int| 0 <= j < i && v@.take(i as int)[j] == x;
                assert(v@[j] == x);
            }
        }
        if !bm_contains(&excluded, d) {
            bm_insert(&mut remaining, d);
            distinct_single_docid(ctx, field_id, d, &mut excluded);
            proof {
                // d is not blocked: no smaller equal-valued candidate exists
                assert forall|e: u32| post.contains(e) && e < d implies !(#[trigger] same_value(
                    m,
                    e,
                    d,
                )) by {
                    if same_value(m, e, d) {
                        assert(pre.contains(e));
                        if rem_pre.contains(e) {
                            assert(value_class(m, rem_pre).contains(d));
                        } else {
                            lemma_dropped_has_smaller_survivor(m, pre, e);
                            let e2 = choose|e2: u32|
                                distinct_remaining(m, pre).contains(e2) && e2 < e && same_value(
                                    m,
                                    e2,
                                    e,
                                );
                            assert(value_class(m, rem_pre).contains(d));
                        }
                    }
                }
                assert(no_smaller_same(m, post, d));
                assert forall|x: u32| distinct_remaining(m, post).contains(x) implies rem_pre
                    .insert(d).contains(x) by {
                    if x != d {
                        assert(pre.contains(x));
                        assert(no_smaller_same(m, post, x));
                        assert forall|e: u32| pre.contains(e) && e < x
                            implies !(#[trigger] same_value(m, e, x)) by {
                            assert(post.contains(e));
                        }
                        assert(no_smaller_same(m, pre, x));
                        assert(distinct_remaining(m, pre).contains(x));
                    }
                }
                assert forall|x: u32| rem_pre.insert(d).contains(x)
                    implies distinct_remaining(m, post).contains(x) by {
                    if x != d {
                        assert(distinct_remaining(m, pre).contains(x));
                        assert(pre.contains(x));
                        assert(x < d);
                        assert forall|e: u32| post.contains(e) && e < x
                            implies !(#[trigger] same_value(m, e, x)) by {
                            assert(pre.contains(e));
                            assert(no_smaller_same(m, pre, x));
                        }
                        assert(no_smaller_same(m, post, x));
                        assert(post.contains(x));
                    }
                }
                assert(distinct_remaining(m, post) =~= rem_pre.insert(d));
                assert(bm_elems(remaining) =~= distinct_remaining(m, post));
                assert forall|x: u32| value_class(m, rem_pre).union(doc_class(m, d)).contains(x)
                    implies value_class(m, bm_elems(remaining)).contains(x) by {
                    if value_class(m, rem_pre).contains(x) {
                        let r = choose|r: u32| rem_pre.contains(r) && same_value(m, r, x);
                        assert(bm_elems(remaining).contains(r));
                    } else {
                        assert(bm_elems(remaining).contains(d));
                    }
                }
                assert forall|x: u32| value_class(m, bm_elems(remaining)).contains(x)
                    implies value_class(m, rem_pre).union(doc_class(m, d)).contains(x) by {
                    let r = choose|r: u32| bm_elems(remaining).contains(r) && same_value(m, r, x);
                    if r != d {
                        assert(rem_pre.contains(r));
                        assert(value_class(m, rem_pre).contains(x));
                    }
                }
                assert(bm_elems(excluded) =~= value_class(m, bm_elems(remaining)));
            }
        } else {
            proof {
                // d is blocked by a smaller surviving candidate of equal value
                let r = choose|r: u32| rem_pre.contains(r) && same_value(m, r, d);
                assert(pre.contains(r));
                assert(r < d);
                assert forall|x: u32| distinct_remaining(m, post).contains(x) implies rem_pre
                    .contains(x) by {
                    if x == d {
                        assert(post.contains(r) && r < d && same_value(m, r, d));
                        assert(no_smaller_same(m, post, d));
                        assert(false);
                    } else {
                        assert(pre.contains(x));
                        assert(no_smaller_same(m, post, x));
                        assert forall|e: u32| pre.contains(e) && e < x
                            implies !(#[trigger] same_value(m, e, x)) by {
                            assert(post.contains(e));
                        }
                        assert(no_smaller_same(m, pre, x));
                        assert(distinct_remaining(m, pre).contains(x));
                    }
                }
                assert forall|x: u32| rem_pre.contains(x) implies distinct_remaining(
                    m,
                    post,
                ).contains(x) by {
                    assert(distinct_remaining(m, pre).contains(x));
                    assert(pre.contains(x));
                    assert(x < d);
                    assert forall|e: u32| post.contains(e) && e < x
                        implies !(#[trigger] same_value(m, e, x)) by {
                        assert(pre.contains(e));
                        assert(no_smaller_same(m, pre, x));
                    }
                    assert(no_smaller_same(m, post, x));
                    assert(post.contains(x));
                }
                assert(distinct_remaining(m, post) =~= rem_pre);
            }
        }
        i += 1;
    }
    proof {
        assert(v@.take(n as int) =~= v@);
        assert forall|x: u32| v@.to_set().contains(x) implies cset.contains(x) by {
            let j = choose|j: int| 0 <= j < v@.len() && v@[j] == x;
        }
        assert(v@.to_set() =~= cset);
        assert(bm_elems(remaining) =~= distinct_remaining(m, cset));
        assert forall|x: u32| bm_elems(remaining).contains(x) implies cset.contains(x) by {}
    }
    DistinctOutput { remaining, excluded }
}

} // verus!
