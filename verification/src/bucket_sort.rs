//! The bucket-sort driver.
//!
//! Drives a stack of ranking rules over a universe of candidate ids: at each
//! level it pulls the next ordered bucket from the current rule and either
//! emits documents or descends one level to break ties on a smaller
//! universe. Pagination, the distinct rule and the scoring strategy decide
//! which buckets are emitted, skipped, or descended into. Back-tracking is a
//! manual stack, not recursion.

use vstd::prelude::*;
use roaring::RoaringBitmap;
use crate::bitmap::{
    bm_elems, bm_new, bm_clone, bm_len, bm_is_empty, bm_contains, bm_insert, bm_clear,
    bm_sub_assign, bm_or_assign, bm_to_vec,
};
use crate::context::SearchCtx;
use crate::ranking_rules::{RankingRule, coverage_from, is_bucket_score};
use crate::score::ScoringStrategy;
use crate::distinct::{
    same_value, distinct_remaining, value_class, apply_distinct_rule, distinct_single_docid,
    pairwise_distinct_values, lemma_remaining_is_cover, lemma_distinct_reps_le,
};
use crate::order::{
    strictly_increasing, is_page, page_ids, rank_in, ids_below, lemma_slice_is_page,
    lemma_take_one_more, lemma_sorted_prefix_below, lemma_sorted_prefix_complete,
    lemma_strictly_increasing_no_duplicates,
};
use crate::score::{ScoreDetails, clone_score_vec};
use vstd::set_lib::{lemma_len_subset, lemma_set_disjoint_lens};

verus! {

/// What the driver returns: an ordered page of ids, one score vector per id,
/// and the superset of every candidate observed before distinct truncation.
pub struct BucketSortOutput {
    pub docids: Vec<u32>,
    pub scores: Vec<Vec<ScoreDetails>>,
    pub all_candidates: RoaringBitmap,
}

/// The id sets behind a stack of universe bitmaps.
pub open spec fn views_of(s: Seq<RoaringBitmap>) -> Seq<Set<u32>> {
    s.map_values(|b: RoaringBitmap| bm_elems(b))
}

/// Sum of the universe sizes on a stack of levels.
pub open spec fn total_ids(s: Seq<Set<u32>>) -> nat
    decreases s.len(),
{
    if s.len() == 0 {
        0
    } else {
        s.last().len() + total_ids(s.drop_last())
    }
}

/// Work potential of the stack: each level's size counted once per prefix
/// that contains it, so ids deeper in the stack weigh less. Moving a bucket
/// one level down therefore strictly shrinks the weight, which bounds the
/// driver's descend/back-off traversal.
pub open spec fn stack_weight(s: Seq<Set<u32>>) -> nat
    decreases s.len(),
{
    if s.len() == 0 {
        0
    } else {
        total_ids(s) + stack_weight(s.drop_last())
    }
}

proof fn lemma_total_ids_update(s: Seq<Set<u32>>, k: int, v: Set<u32>)
    requires
        0 <= k < s.len(),
    ensures
        total_ids(s.update(k, v)) + s[k].len() == total_ids(s) + v.len(),
    decreases s.len(),
{
    let t = s.update(k, v);
    if k == s.len() - 1 {
        assert(t.drop_last() =~= s.drop_last());
    } else {
        assert(t.drop_last() =~= s.drop_last().update(k, v));
        assert(t.last() == s.last());
        lemma_total_ids_update(s.drop_last(), k, v);
    }
}

proof fn lemma_stack_weight_update(s: Seq<Set<u32>>, k: int, v: Set<u32>)
    requires
        0 <= k < s.len(),
    ensures
        stack_weight(s.update(k, v)) + s[k].len() * (s.len() - k)
            == stack_weight(s) + v.len() * (s.len() - k),
    decreases s.len(),
{
    let t = s.update(k, v);
    lemma_total_ids_update(s, k, v);
    if k == s.len() - 1 {
        assert(t.drop_last() =~= s.drop_last());
        assert(s[k].len() * (s.len() - k) == s[k].len()) by (nonlinear_arith)
            requires s.len() - k == 1;
        assert(v.len() * (s.len() - k) == v.len()) by (nonlinear_arith)
            requires s.len() - k == 1;
    } else {
        lemma_stack_weight_update(s.drop_last(), k, v);
        assert(t.drop_last() =~= s.drop_last().update(k, v));
        assert(t.last() == s.last());
        assert(s.drop_last()[k] == s[k]);
        assert(s[k].len() * (s.len() - k) == s[k].len() * (s.len() - 1 - k) + s[k].len())
            by (nonlinear_arith);
        assert(v.len() * (s.len() - k) == v.len() * (s.len() - 1 - k) + v.len())
            by (nonlinear_arith);
    }
}

proof fn lemma_stack_weight_mono(s1: Seq<Set<u32>>, s2: Seq<Set<u32>>)
    requires
        s1.len() == s2.len(),
        forall|i: int| 0 <= i < s1.len() ==> #[trigger] s1[i].subset_of(s2[i]),
        forall|i: int| 0 <= i < s2.len() ==> #[trigger] s2[i].finite(),
    ensures
        total_ids(s1) <= total_ids(s2),
        stack_weight(s1) <= stack_weight(s2),
    decreases s1.len(),
{
    if s1.len() > 0 {
        let d1 = s1.drop_last();
        let d2 = s2.drop_last();
        assert forall|i: int| 0 <= i < d1.len() implies #[trigger] d1[i].subset_of(d2[i]) by {
            assert(s1[i].subset_of(s2[i]));
        }
        assert forall|i: int| 0 <= i < d2.len() implies #[trigger] d2[i].finite() by {
            assert(s2[i].finite());
        }
        lemma_stack_weight_mono(d1, d2);
        assert(s1.last().subset_of(s2.last()));
        assert(s2.last().finite());
        lemma_len_subset(s1.last(), s2.last());
    }
}

/// Everything on a stack of levels, all levels together.
pub open spec fn set_union_of(s: Seq<Set<u32>>) -> Set<u32>
    decreases s.len(),
{
    if s.len() == 0 {
        Set::empty()
    } else {
        set_union_of(s.drop_last()).union(s.last())
    }
}

proof fn lemma_union_membership(s: Seq<Set<u32>>, x: u32)
    ensures
        set_union_of(s).contains(x) <==> exists|i: int|
            0 <= i < s.len() && (#[trigger] s[i]).contains(x),
    decreases s.len(),
{
    if s.len() > 0 {
        lemma_union_membership(s.drop_last(), x);
        if set_union_of(s).contains(x) {
            if s.last().contains(x) {
                assert(s[s.len() - 1].contains(x));
            } else {
                let i = choose|i: int|
                    0 <= i < s.drop_last().len() && (#[trigger] s.drop_last()[i]).contains(x);
                assert(s[i].contains(x));
            }
        }
        if exists|i: int| 0 <= i < s.len() && (#[trigger] s[i]).contains(x) {
            let i = choose|i: int| 0 <= i < s.len() && (#[trigger] s[i]).contains(x);
            if i == s.len() - 1 {
            } else {
                assert(s.drop_last()[i].contains(x));
            }
        }
    }
}

proof fn lemma_len_diff_subset(a: Set<u32>, b: Set<u32>)
    requires
        a.finite(),
        b.subset_of(a),
    ensures
        a.difference(b).len() + b.len() == a.len(),
        a.difference(b).finite(),
        b.finite(),
{
    lemma_len_subset(a.difference(b), a);
    lemma_len_subset(b, a);
    assert(a.difference(b).disjoint(b));
    lemma_set_disjoint_lens(a.difference(b), b);
    assert(a.difference(b) + b =~= a);
}

/// The candidates a bucket contributes once distinct is applied.
pub open spec fn effective_candidates(
    ctx: SearchCtx,
    distinct_fid: Option<u16>,
    c: Set<u32>,
) -> Set<u32> {
    match distinct_fid {
        Some(fid) => distinct_remaining(ctx.distinct_map(fid), c),
        None => c,
    }
}

/// The ids a bucket's distinct application excludes from every universe.
pub open spec fn excluded_ids(ctx: SearchCtx, distinct_fid: Option<u16>, c: Set<u32>) -> Set<
    u32,
> {
    match distinct_fid {
        Some(fid) => value_class(
            ctx.distinct_map(fid),
            distinct_remaining(ctx.distinct_map(fid), c),
        ),
        None => Set::empty(),
    }
}

/// Adds a bucket's candidates to the results, honoring distinct, `from` and
/// `length`: applies the distinct rule, shrinks every universe and
/// `all_candidates` by the exclusions, skips what lies before the page
/// window, and appends at most `length - |valid_docids|` ids in ascending
/// order, each with the current score prefix. The ghost `processed` set
/// carries the ids already counted into `cur_offset`.
fn maybe_add_to_results(
    ctx: &SearchCtx,
    from: usize,
    length: usize,
    valid_docids: &mut Vec<u32>,
    valid_scores: &mut Vec<Vec<ScoreDetails>>,
    all_candidates: &mut RoaringBitmap,
    ranking_rule_universes: &mut Vec<RoaringBitmap>,
    cur_offset: &mut usize,
    distinct_fid: Option<u16>,
    ranking_rule_scores: &Vec<ScoreDetails>,
    candidates: RoaringBitmap,
    processed: Ghost<Set<u32>>,
) -> (np: Ghost<Set<u32>>)
    requires
        ctx.wf(),
        bm_elems(candidates).finite(),
        old(valid_docids)@.len() == old(valid_scores)@.len(),
        old(valid_docids)@.len() <= length,
        processed@.finite(),
        *old(cur_offset) == processed@.len(),
        processed@.disjoint(bm_elems(candidates)),
        processed@.len() + bm_elems(candidates).len() <= usize::MAX,
        bm_elems(*old(all_candidates)).finite(),
        forall|i: int|
            0 <= i < old(ranking_rule_universes)@.len()
                ==> bm_elems(#[trigger] old(ranking_rule_universes)@[i]).finite(),
        forall|i: int|
            0 <= i < old(ranking_rule_universes)@.len()
                ==> bm_elems(candidates).disjoint(
                    bm_elems(#[trigger] old(ranking_rule_universes)@[i]),
                ),
        old(valid_docids)@.to_set().subset_of(processed@),
        forall|i: int|
            0 <= i < old(valid_docids)@.len()
                ==> bm_elems(*old(all_candidates)).contains(#[trigger] old(valid_docids)@[i]),
        (match distinct_fid {
            Some(fid) => forall|a: int, x: u32|
                0 <= a < old(valid_docids)@.len() && #[trigger] same_value(
                    ctx.distinct_map(fid),
                    old(valid_docids)@[a],
                    x,
                ) ==> !bm_elems(candidates).contains(x),
            None => true,
        }),
    ensures
        np@ == processed@.union(effective_candidates(*ctx, distinct_fid, bm_elems(candidates))),
        np@.finite(),
        *final(cur_offset) == np@.len(),
        final(ranking_rule_universes)@.len() == old(ranking_rule_universes)@.len(),
        forall|i: int|
            0 <= i < old(ranking_rule_universes)@.len()
                ==> bm_elems(#[trigger] final(ranking_rule_universes)@[i]) == bm_elems(
                    old(ranking_rule_universes)@[i],
                ).difference(excluded_ids(*ctx, distinct_fid, bm_elems(candidates))),
        bm_elems(*final(all_candidates)) == bm_elems(*old(all_candidates)).difference(
            excluded_ids(*ctx, distinct_fid, bm_elems(candidates)),
        ).union(effective_candidates(*ctx, distinct_fid, bm_elems(candidates))),
        bm_elems(*final(all_candidates)).finite(),
        final(valid_docids)@.len() == final(valid_scores)@.len(),
        old(valid_docids)@.len() <= final(valid_docids)@.len() <= length,
        final(valid_docids)@.subrange(0, old(valid_docids)@.len() as int) == old(
            valid_docids,
        )@,
        forall|i: int|
            0 <= i < old(valid_docids)@.len()
                ==> #[trigger] final(valid_scores)@[i] == old(valid_scores)@[i],
        forall|i: int|
            old(valid_docids)@.len() <= i < final(valid_docids)@.len()
                ==> (#[trigger] final(valid_scores)@[i])@ == ranking_rule_scores@,
        forall|i: int|
            old(valid_docids)@.len() <= i < final(valid_docids)@.len()
                ==> effective_candidates(*ctx, distinct_fid, bm_elems(candidates)).contains(
                    #[trigger] final(valid_docids)@[i],
                ),
        strictly_increasing(final(valid_docids)@.skip(old(valid_docids)@.len() as int)),
        forall|i: int|
            0 <= i < final(valid_docids)@.len()
                ==> bm_elems(*final(all_candidates)).contains(
                    #[trigger] final(valid_docids)@[i],
                ),
        from <= *old(cur_offset) ==> (final(valid_docids)@.len() == length
            || final(valid_docids)@.to_set() == old(valid_docids)@.to_set().union(
                effective_candidates(*ctx, distinct_fid, bm_elems(candidates)),
            )),
        // how many ids the bucket contributes: what remains of the effective
        // candidates after the skip, capped by the page bound
        final(valid_docids)@.len() - old(valid_docids)@.len() == ({
            let n = effective_candidates(*ctx, distinct_fid, bm_elems(candidates)).len();
            let skip0 = if from > *old(cur_offset) {
                from - *old(cur_offset)
            } else {
                0
            };
            let avail = if skip0 <= n {
                n - skip0
            } else {
                0
            };
            let want = length - old(valid_docids)@.len();
            if avail <= want {
                avail
            } else {
                want
            }
        }),
        // the appended run is exactly the ascending slice of the effective
        // candidates that falls inside the page window: skip what stands
        // before `from`, stop at the page bound
        is_page(
            effective_candidates(*ctx, distinct_fid, bm_elems(candidates)),
            final(valid_docids)@.skip(old(valid_docids)@.len() as int),
            (if from > *old(cur_offset) {
                from - *old(cur_offset)
            } else {
                0
            }),
            length - old(valid_docids)@.len(),
        ),
{
    let ghost old_docids = old(valid_docids)@;
    let ghost cset = bm_elems(candidates);
    let ghost eff_spec = effective_candidates(*ctx, distinct_fid, cset);
    let ghost excl_spec = excluded_ids(*ctx, distinct_fid, cset);

    // First apply the distinct rule on the candidates, shrinking the
    // universes and `all_candidates` by whatever it excludes.
    let effective: RoaringBitmap;
    match distinct_fid {
        Some(fid) => {
            let out = apply_distinct_rule(ctx, fid, &candidates);
            let nuniv = ranking_rule_universes.len();
            let mut i: usize = 0;
            while i < nuniv
                invariant
                    nuniv == ranking_rule_universes@.len(),
                    i <= nuniv,
                    bm_elems(out.excluded) == excl_spec,
                    forall|j: int|
                        0 <= j < i ==> bm_elems(#[trigger] ranking_rule_universes@[j])
                            == bm_elems(old(ranking_rule_universes)@[j]).difference(excl_spec),
                    forall|j: int|
                        i <= j < nuniv ==> #[trigger] ranking_rule_universes@[j] == old(
                            ranking_rule_universes,
                        )@[j],
                decreases nuniv - i,
            {
                bm_sub_assign(&mut ranking_rule_universes[i], &out.excluded);
                i += 1;
            }
            bm_sub_assign(all_candidates, &out.excluded);
            effective = out.remaining;
        },
        None => {
            proof {
                assert forall|j: int| 0 <= j < ranking_rule_universes@.len()
                    implies bm_elems(#[trigger] ranking_rule_universes@[j]) == bm_elems(
                    old(ranking_rule_universes)@[j],
                ).difference(excl_spec) by {
                    assert(bm_elems(ranking_rule_universes@[j]).difference(Set::empty())
                        =~= bm_elems(ranking_rule_universes@[j]));
                }
                assert(bm_elems(*all_candidates).difference(excl_spec) =~= bm_elems(
                    *all_candidates,
                ));
            }
            effective = candidates;
        },
    }
    proof {
        assert(bm_elems(effective) == eff_spec);
        assert(eff_spec.subset_of(cset));
        lemma_len_subset(eff_spec, cset);
        assert(processed@.disjoint(eff_spec));
        lemma_set_disjoint_lens(processed@, eff_spec);
        assert(processed@ + eff_spec =~= processed@.union(eff_spec));
    }
    bm_or_assign(all_candidates, &effective);

    // if the effective candidates are empty, there is nothing to do
    if bm_is_empty(&effective) {
        proof {
            assert(processed@.union(eff_spec) =~= processed@);
            assert(final(valid_docids)@.skip(old_docids.len() as int) =~= Seq::<u32>::empty());
            assert(final(valid_docids)@.subrange(0, old_docids.len() as int) =~= old_docids);
            assert(old_docids.to_set().union(eff_spec) =~= old_docids.to_set());
            assert forall|x: u32| !eff_spec.contains(x) by {}
        }
        return Ghost(processed@.union(eff_spec));
    }

    let cand_vec = bm_to_vec(&effective);
    let clen = cand_vec.len();

    // if we still haven't reached the first document of the page
    if *cur_offset < from {
        // a bucket that ends before the page is skipped whole; otherwise
        // skip only what lies before the page and add some of the rest, in
        // ascending id order
        if *cur_offset + clen >= from {
            let skipcnt = from - *cur_offset;
            let mut i: usize = skipcnt;
            while i < clen && valid_docids.len() < length
                invariant
                    skipcnt <= i <= clen,
                    clen == cand_vec@.len(),
                    valid_docids@.len() == valid_scores@.len(),
                    old_docids.len() <= valid_docids@.len() <= length,
                    valid_docids@ == old_docids + cand_vec@.subrange(skipcnt as int, i as int),
                    forall|j: int|
                        0 <= j < old_docids.len()
                            ==> #[trigger] valid_scores@[j] == old(valid_scores)@[j],
                    forall|j: int|
                        old_docids.len() <= j < valid_docids@.len()
                            ==> (#[trigger] valid_scores@[j])@ == ranking_rule_scores@,
                decreases clen - i,
            {
                valid_docids.push(cand_vec[i]);
                valid_scores.push(clone_score_vec(ranking_rule_scores));
                proof {
                    assert(cand_vec@.subrange(skipcnt as int, i as int).push(
                        cand_vec@[i as int],
                    ) =~= cand_vec@.subrange(skipcnt as int, i + 1 as int));
                }
                i += 1;
            }
            proof {
                let want = length - old_docids.len();
                assert(clen == eff_spec.len());
                lemma_slice_is_page(eff_spec, cand_vec@, skipcnt as int, want as int);
                let hi = if skipcnt + want <= clen {
                    skipcnt + want
                } else {
                    clen as int
                };
                assert(i as int == hi);
                assert(valid_docids@.skip(old_docids.len() as int) =~= cand_vec@.subrange(
                    skipcnt as int,
                    hi,
                ));
            }
        } else {
            proof {
                // the whole bucket stands before the page: every effective
                // candidate ranks below the window
                assert(clen == eff_spec.len());
                assert(valid_docids@.skip(old_docids.len() as int) =~= Seq::<u32>::empty());
                assert forall|x: u32| eff_spec.contains(x)
                    implies rank_in(eff_spec, x) < from - *cur_offset by {
                    crate::order::lemma_rank_lt_len(eff_spec, x);
                }
            }
        }
    } else {
        // past the offset already: add documents up to the page limit
        let mut i: usize = 0;
        while i < clen && valid_docids.len() < length
            invariant
                i <= clen,
                clen == cand_vec@.len(),
                valid_docids@.len() == valid_scores@.len(),
                old_docids.len() <= valid_docids@.len() <= length,
                valid_docids@ == old_docids + cand_vec@.subrange(0, i as int),
                forall|j: int|
                    0 <= j < old_docids.len()
                        ==> #[trigger] valid_scores@[j] == old(valid_scores)@[j],
                forall|j: int|
                    old_docids.len() <= j < valid_docids@.len()
                        ==> (#[trigger] valid_scores@[j])@ == ranking_rule_scores@,
            decreases clen - i,
        {
            valid_docids.push(cand_vec[i]);
            valid_scores.push(clone_score_vec(ranking_rule_scores));
            proof {
                assert(cand_vec@.subrange(0, i as int).push(cand_vec@[i as int])
                    =~= cand_vec@.subrange(0, i + 1 as int));
            }
            i += 1;
        }
        proof {
            let want = length - old_docids.len();
            assert(clen == eff_spec.len());
            lemma_slice_is_page(eff_spec, cand_vec@, 0, want as int);
            let hi = if want <= clen {
                want as int
            } else {
                clen as int
            };
            assert(i as int == hi);
            assert(valid_docids@.skip(old_docids.len() as int) =~= cand_vec@.subrange(0, hi));
            // everything effective was either appended or the page is full
            if valid_docids@.len() != length {
                assert(i == clen);
                assert(cand_vec@.subrange(0, clen as int) =~= cand_vec@);
                assert forall|x: u32| valid_docids@.to_set().contains(x)
                    implies old_docids.to_set().union(eff_spec).contains(x) by {
                    assert(valid_docids@.contains(x));
                    let j = choose|j: int|
                        0 <= j < valid_docids@.len() && valid_docids@[j] == x;
                    if j < old_docids.len() {
                        assert(old_docids[j] == x);
                        assert(old_docids.contains(x));
                    } else {
                        assert(cand_vec@[j - old_docids.len()] == x);
                        assert(bm_elems(effective).contains(x));
                    }
                }
                assert forall|x: u32| old_docids.to_set().union(eff_spec).contains(x)
                    implies valid_docids@.to_set().contains(x) by {
                    if old_docids.to_set().contains(x) {
                        let j = choose|j: int|
                            0 <= j < old_docids.len() && old_docids[j] == x;
                        assert(valid_docids@[j] == x);
                    } else {
                        assert(bm_elems(effective).contains(x));
                        assert(cand_vec@.contains(x));
                        let j = choose|j: int| 0 <= j < cand_vec@.len() && cand_vec@[j] == x;
                        assert(valid_docids@[old_docids.len() + j] == x);
                    }
                    assert(valid_docids@.contains(x));
                }
                assert(valid_docids@.to_set() =~= old_docids.to_set().union(eff_spec));
            }
        }
    }

    *cur_offset = *cur_offset + clen;

    proof {
        let app = valid_docids@.skip(old_docids.len() as int);
        assert(valid_docids@.subrange(0, old_docids.len() as int) =~= old_docids);
        assert forall|a: int, b: int| 0 <= a < b < app.len() implies app[a] < app[b] by {
            assert(app[a] == valid_docids@[old_docids.len() + a]);
        }
        assert forall|i: int|
            old_docids.len() <= i < valid_docids@.len()
            implies eff_spec.contains(#[trigger] valid_docids@[i]) by {
            assert(bm_elems(effective).contains(valid_docids@[i]));
        }
        assert forall|i: int|
            0 <= i < valid_docids@.len()
            implies bm_elems(*all_candidates).contains(#[trigger] valid_docids@[i]) by {
            if i < old_docids.len() {
                assert(valid_docids@[i] == old_docids[i]);
                assert(bm_elems(*old(all_candidates)).contains(old_docids[i]));
                if excl_spec.contains(old_docids[i]) {
                    // an excluded id shares its value with an effective
                    // candidate, which the emitted ids never do
                    match distinct_fid {
                        Some(fid) => {
                            let m = ctx.distinct_map(fid);
                            let r = choose|r: u32|
                                distinct_remaining(m, cset).contains(r) && same_value(
                                    m,
                                    r,
                                    old_docids[i],
                                );
                            assert(same_value(m, old_docids[i], r));
                            assert(cset.contains(r));
                            assert(old_docids.to_set().contains(old_docids[i]));
                            assert(false);
                        },
                        None => {
                            assert(false);
                        },
                    }
                }
            } else {
                assert(eff_spec.contains(valid_docids@[i]));
            }
        }
    }
    Ghost(processed@.union(eff_spec))
}

/// The rule-free, distinct-free driver path: the page is a plain ascending
/// slice of the universe.
fn page_without_rules(universe: &RoaringBitmap, from: usize, length: usize) -> (out:
    BucketSortOutput)
    requires
        bm_elems(*universe).finite(),
        from <= bm_elems(*universe).len(),
        from + length <= usize::MAX,
    ensures
        out.docids@.len() == out.scores@.len(),
        out.docids@.len() <= length,
        is_page(bm_elems(*universe), out.docids@, from as int, length as int),
        strictly_increasing(out.docids@),
        forall|i: int|
            0 <= i < out.docids@.len() ==> bm_elems(*universe).contains(
                #[trigger] out.docids@[i],
            ),
        bm_elems(out.all_candidates) == bm_elems(*universe),
        bm_elems(out.all_candidates).finite(),
        forall|i: int| 0 <= i < out.scores@.len() ==> (#[trigger] out.scores@[i])@.len() == 0,
        from == 0 ==> (out.docids@.len() == length || out.docids@.to_set() == bm_elems(
            *universe,
        )),
        out.docids@.len() == (if bm_elems(*universe).len() - from <= length {
            bm_elems(*universe).len() - from
        } else {
            length as int
        }),
{
    let v = bm_to_vec(universe);
    let n = v.len();
    let hi = if from + length <= n {
        from + length
    } else {
        n
    };
    let mut docids: Vec<u32> = Vec::new();
    let mut scores: Vec<Vec<ScoreDetails>> = Vec::new();
    let mut i: usize = from;
    while i < hi
        invariant
            from <= i <= hi,
            hi <= n,
            n == v@.len(),
            docids@ == v@.subrange(from as int, i as int),
            scores@.len() == docids@.len(),
            forall|j: int| 0 <= j < scores@.len() ==> (#[trigger] scores@[j])@.len() == 0,
        decreases hi - i,
    {
        docids.push(v[i]);
        let empty_scores: Vec<ScoreDetails> = Vec::new();
        scores.push(empty_scores);
        proof {
            assert(v@.subrange(from as int, i as int).push(v@[i as int]) =~= v@.subrange(
                from as int,
                i + 1 as int,
            ));
        }
        i += 1;
    }
    proof {
        lemma_slice_is_page(bm_elems(*universe), v@, from as int, length as int);
        assert(docids@ =~= v@.subrange(
            from as int,
            if from + length <= v@.len() {
                from + length as int
            } else {
                v@.len() as int
            },
        ));
        assert forall|a: int, b: int| 0 <= a < b < docids@.len() implies docids@[a]
            < docids@[b] by {
            assert(docids@[a] == v@[from + a]);
            assert(docids@[b] == v@[from + b]);
        }
        assert forall|a: int|
            0 <= a < docids@.len()
            implies bm_elems(*universe).contains(#[trigger] docids@[a]) by {
            assert(docids@[a] == v@[from + a]);
        }
        if from == 0 && docids@.len() != length {
            // the universe ran out before the page filled: everything of it
            // was returned
            assert(hi == v@.len());
            assert forall|x: u32| docids@.to_set().contains(x)
                implies bm_elems(*universe).contains(x) by {
                assert(docids@.contains(x));
                let j = choose|j: int| 0 <= j < docids@.len() && docids@[j] == x;
                assert(docids@[j] == v@[j]);
            }
            assert forall|x: u32| bm_elems(*universe).contains(x)
                implies docids@.to_set().contains(x) by {
                assert(v@.contains(x));
                let j = choose|j: int| 0 <= j < v@.len() && v@[j] == x;
                assert(docids@[j] == x);
                assert(docids@.contains(x));
            }
            assert(docids@.to_set() =~= bm_elems(*universe));
        }
    }
    BucketSortOutput { docids, scores, all_candidates: bm_clone(universe) }
}

/// The rule-free driver path with a distinct field: scan the universe in
/// ascending id order, keep the first document of every value class —
/// excluding the rest of the class — stop after `from + length` emissions,
/// and drop the first `from` of them.
fn page_without_rules_distinct(
    ctx: &SearchCtx,
    fid: u16,
    universe: &RoaringBitmap,
    from: usize,
    length: usize,
) -> (out: BucketSortOutput)
    requires
        ctx.wf(),
        bm_elems(*universe).finite(),
        from + length <= usize::MAX,
    ensures
        out.docids@.len() == out.scores@.len(),
        out.docids@.len() <= length,
        is_page(
            distinct_remaining(ctx.distinct_map(fid), bm_elems(*universe)),
            out.docids@,
            from as int,
            length as int,
        ),
        strictly_increasing(out.docids@),
        forall|i: int|
            0 <= i < out.docids@.len() ==> bm_elems(*universe).contains(
                #[trigger] out.docids@[i],
            ),
        forall|i: int|
            0 <= i < out.docids@.len() ==> bm_elems(out.all_candidates).contains(
                #[trigger] out.docids@[i],
            ),
        bm_elems(out.all_candidates) == bm_elems(*universe).difference(
            value_class(
                ctx.distinct_map(fid),
                page_ids(
                    distinct_remaining(ctx.distinct_map(fid), bm_elems(*universe)),
                    0,
                    from + length,
                ),
            ),
        ).union(
            page_ids(
                distinct_remaining(ctx.distinct_map(fid), bm_elems(*universe)),
                0,
                from + length,
            ),
        ),
        bm_elems(out.all_candidates).finite(),
        bm_elems(out.all_candidates).subset_of(bm_elems(*universe)),
        forall|i: int, j: int|
            0 <= i < out.docids@.len() && 0 <= j < out.docids@.len() && i != j
                ==> !same_value(ctx.distinct_map(fid), out.docids@[i], out.docids@[j]),
        forall|i: int| 0 <= i < out.scores@.len() ==> (#[trigger] out.scores@[i])@.len() == 0,
        from == 0 ==> (out.docids@.len() == length || bm_elems(*universe).subset_of(
            out.docids@.to_set().union(
                value_class(ctx.distinct_map(fid), out.docids@.to_set()),
            ),
        )),
        out.docids@.len() == ({
            let s = distinct_remaining(ctx.distinct_map(fid), bm_elems(*universe)).len();
            if s <= from {
                0
            } else if s - from <= length {
                s - from
            } else {
                length as int
            }
        }),
{
    let ghost m = ctx.distinct_map(fid);
    let ghost uset = bm_elems(*universe);
    let ghost rset = distinct_remaining(m, uset);
    let v = bm_to_vec(universe);
    let n = v.len();
    let limit = from + length;
    let mut excluded = bm_new();
    let mut results: Vec<u32> = Vec::new();
    let mut i: usize = 0;
    proof {
        assert(value_class(m, results@.to_set()) =~= Set::<u32>::empty());
    }
    while i < n && results.len() < limit
        invariant
            ctx.wf(),
            m == ctx.distinct_map(fid),
            uset == bm_elems(*universe),
            uset.finite(),
            rset == distinct_remaining(m, uset),
            n == v@.len(),
            i <= n,
            limit == from + length,
            forall|a: int, b: int| 0 <= a < b < n ==> v@[a] < v@[b],
            forall|a: int| 0 <= a < n ==> uset.contains(#[trigger] v@[a]),
            forall|x: u32| uset.contains(x) ==> v@.contains(x),
            results@.len() <= limit,
            strictly_increasing(results@),
            forall|j: int| 0 <= j < results@.len() ==> rset.contains(#[trigger] results@[j]),
            forall|j: int|
                0 <= j < results@.len() ==> rank_in(rset, #[trigger] results@[j]) == j,
            forall|j: int|
                0 <= j < results@.len() ==> v@.take(i as int).to_set().contains(
                    #[trigger] results@[j],
                ),
            forall|x: u32|
                rset.contains(x) && v@.take(i as int).to_set().contains(x)
                    ==> results@.contains(x),
            bm_elems(excluded) == value_class(m, results@.to_set()),
            bm_elems(excluded).finite(),
        decreases n - i,
    {
        let d = v[i];
        let ghost pre = v@.take(i as int).to_set();
        let ghost oldres = results@;
        proof {
            lemma_take_one_more(v@, i as int);
            lemma_sorted_prefix_below(v@, i as int);
            lemma_sorted_prefix_complete(uset, v@, i as int);
        }
        if !bm_contains(&excluded, d) {
            results.push(d);
            distinct_single_docid(ctx, fid, d, &mut excluded);
            proof {
                // d survives over the whole universe: no smaller candidate
                // of equal value exists anywhere in it
                assert forall|e: u32| uset.contains(e) && e < d implies !(
                #[trigger] same_value(m, e, d)) by {
                    if same_value(m, e, d) {
                        assert(pre.contains(e));
                        if rset.contains(e) {
                            assert(oldres.contains(e));
                            let j = choose|j: int| 0 <= j < oldres.len() && oldres[j] == e;
                            assert(oldres.to_set().contains(e));
                            assert(value_class(m, oldres.to_set()).contains(d));
                            assert(false);
                        } else {
                            crate::distinct::lemma_dropped_has_smaller_survivor(m, uset, e);
                            let e2 = choose|e2: u32|
                                rset.contains(e2) && e2 < e && same_value(m, e2, e);
                            assert(pre.contains(e2));
                            assert(oldres.contains(e2));
                            assert(oldres.to_set().contains(e2));
                            assert(same_value(m, e2, d));
                            assert(value_class(m, oldres.to_set()).contains(d));
                            assert(false);
                        }
                    }
                }
                assert(crate::distinct::no_smaller_same(m, uset, d));
                assert(rset.contains(d));
                // the rank of d in the survivors is the number already kept
                assert forall|x: u32| ids_below(rset, d).contains(x)
                    implies oldres.to_set().contains(x) by {
                    assert(rset.contains(x) && x < d);
                    assert(pre.contains(x));
                    assert(oldres.contains(x));
                }
                assert forall|x: u32| oldres.to_set().contains(x)
                    implies ids_below(rset, d).contains(x) by {
                    let j = choose|j: int| 0 <= j < oldres.len() && oldres[j] == x;
                    assert(rset.contains(x));
                    assert(pre.contains(x));
                }
                assert(ids_below(rset, d) =~= oldres.to_set());
                lemma_strictly_increasing_no_duplicates(oldres);
                oldres.unique_seq_to_set();
                assert(rank_in(rset, d) == oldres.len());
                // push maintenance
                assert forall|a: int, b: int|
                    0 <= a < b < results@.len()
                    implies results@[a] < results@[b] by {
                    if b < oldres.len() {
                        assert(oldres[a] < oldres[b]);
                    } else {
                        assert(results@[b] == d);
                        assert(oldres.to_set().contains(oldres[a]));
                        assert(pre.contains(oldres[a]));
                    }
                }
                assert forall|j: int|
                    0 <= j < results@.len()
                    implies v@.take(i + 1 as int).to_set().contains(
                    #[trigger] results@[j]) by {
                    if j < oldres.len() {
                        assert(pre.contains(oldres[j]));
                    }
                }
                assert forall|x: u32|
                    rset.contains(x) && v@.take(i + 1 as int).to_set().contains(x)
                    implies results@.contains(x) by {
                    if x == d {
                        assert(results@[results@.len() - 1] == d);
                    } else {
                        assert(pre.contains(x));
                        assert(oldres.contains(x));
                        let j = choose|j: int| 0 <= j < oldres.len() && oldres[j] == x;
                        assert(results@[j] == x);
                    }
                }
                // the exclusions stay the value classes of what was kept
                assert(results@.to_set() =~= oldres.to_set().insert(d)) by {
                    assert forall|x: u32| results@.to_set().contains(x)
                        implies oldres.to_set().insert(d).contains(x) by {
                        let j = choose|j: int| 0 <= j < results@.len() && results@[j] == x;
                        if j < oldres.len() {
                            assert(oldres[j] == x);
                        }
                    }
                    assert forall|x: u32| oldres.to_set().insert(d).contains(x)
                        implies results@.to_set().contains(x) by {
                        if x == d {
                            assert(results@[results@.len() - 1] == x);
                        } else {
                            let j = choose|j: int| 0 <= j < oldres.len() && oldres[j] == x;
                            assert(results@[j] == x);
                        }
                    }
                }
                assert forall|x: u32|
                    value_class(m, oldres.to_set()).union(
                        crate::distinct::doc_class(m, d),
                    ).contains(x)
                    implies value_class(m, results@.to_set()).contains(x) by {
                    if value_class(m, oldres.to_set()).contains(x) {
                        let r = choose|r: u32|
                            oldres.to_set().contains(r) && same_value(m, r, x);
                        assert(results@.to_set().contains(r));
                    } else {
                        assert(results@.to_set().contains(d));
                    }
                }
                assert forall|x: u32| value_class(m, results@.to_set()).contains(x)
                    implies value_class(m, oldres.to_set()).union(
                    crate::distinct::doc_class(m, d),
                ).contains(x) by {
                    let r = choose|r: u32|
                        results@.to_set().contains(r) && same_value(m, r, x);
                    if r != d {
                        assert(oldres.to_set().contains(r));
                        assert(value_class(m, oldres.to_set()).contains(x));
                    }
                }
                assert(bm_elems(excluded) =~= value_class(m, results@.to_set()));
            }
        } else {
            proof {
                // d is already excluded: an earlier survivor shares its value
                let r = choose|r: u32| results@.to_set().contains(r) && same_value(m, r, d);
                assert(oldres.contains(r));
                let jr = choose|jr: int| 0 <= jr < oldres.len() && oldres[jr] == r;
                assert(pre.contains(r));
                assert(r < d);
                assert(!rset.contains(d)) by {
                    if rset.contains(d) {
                        assert(crate::distinct::no_smaller_same(m, uset, d));
                        assert(!same_value(m, r, d));
                    }
                }
                assert forall|x: u32|
                    rset.contains(x) && v@.take(i + 1 as int).to_set().contains(x)
                    implies results@.contains(x) by {
                    if x != d {
                        assert(pre.contains(x));
                    }
                }
                assert forall|j: int|
                    0 <= j < results@.len()
                    implies v@.take(i + 1 as int).to_set().contains(
                    #[trigger] results@[j]) by {
                    assert(pre.contains(results@[j]));
                }
            }
        }
        i += 1;
    }
    // the kept ids are exactly the first `from + length` survivors
    let ghost em = page_ids(rset, 0, (from + length) as int);
    proof {
        let t = results@.len() as int;
        if i == n {
            assert(v@.take(n as int) =~= v@);
            assert forall|x: u32| rset.contains(x) implies results@.contains(x) by {
                assert(uset.contains(x));
                assert(v@.contains(x));
                let j = choose|j: int| 0 <= j < v@.len() && v@[j] == x;
                assert(v@.take(n as int)[j] == x);
                assert(v@.take(n as int).to_set().contains(x));
            }
            assert forall|x: u32| em.contains(x) implies results@.to_set().contains(x) by {
                assert(results@.contains(x));
                let j = choose|j: int| 0 <= j < results@.len() && results@[j] == x;
            }
            assert forall|x: u32| results@.to_set().contains(x) implies em.contains(x) by {
                let j = choose|j: int| 0 <= j < results@.len() && results@[j] == x;
                assert(rank_in(rset, x) == j);
            }
            assert(em =~= results@.to_set());
        } else {
            assert(t == limit);
            assert forall|x: u32| em.contains(x) implies results@.to_set().contains(x) by {
                if !results@.contains(x) {
                    assert(uset.contains(x));
                    assert(v@.contains(x));
                    let jx = choose|jx: int| 0 <= jx < v@.len() && v@[jx] == x;
                    if jx < i {
                        assert(v@.take(i as int)[jx] == x);
                        assert(v@.take(i as int).to_set().contains(x));
                        assert(false);
                    }
                    // x comes at or after the stop point: every kept id is
                    // smaller, so the rank of x is at least the limit
                    assert(v@[i as int] <= v@[jx]);
                    lemma_sorted_prefix_below(v@, i as int);
                    assert forall|y: u32| results@.to_set().contains(y)
                        implies ids_below(rset, x).contains(y) by {
                        let jy = choose|jy: int| 0 <= jy < results@.len() && results@[jy] == y;
                        assert(v@.take(i as int).to_set().contains(y));
                        assert(y < v@[i as int]);
                        assert(rset.contains(y));
                    }
                    lemma_strictly_increasing_no_duplicates(results@);
                    results@.unique_seq_to_set();
                    assert(rset.subset_of(uset));
                    lemma_len_subset(rset, uset);
                    crate::order::lemma_ids_below_finite(rset, x);
                    lemma_len_subset(results@.to_set(), ids_below(rset, x));
                    assert(rank_in(rset, x) >= limit);
                    assert(false);
                }
                let j = choose|j: int| 0 <= j < results@.len() && results@[j] == x;
            }
            assert forall|x: u32| results@.to_set().contains(x) implies em.contains(x) by {
                let j = choose|j: int| 0 <= j < results@.len() && results@[j] == x;
                assert(rank_in(rset, x) == j);
            }
            assert(em =~= results@.to_set());
        }
    }
    // drop the first `from` emissions
    let rlen = results.len();
    let start = if from <= rlen {
        from
    } else {
        rlen
    };
    let mut docids: Vec<u32> = Vec::new();
    let mut scores: Vec<Vec<ScoreDetails>> = Vec::new();
    let mut j: usize = start;
    while j < rlen
        invariant
            start <= j <= rlen,
            rlen == results@.len(),
            docids@ == results@.subrange(start as int, j as int),
            scores@.len() == docids@.len(),
            forall|q: int| 0 <= q < scores@.len() ==> (#[trigger] scores@[q])@.len() == 0,
        decreases rlen - j,
    {
        docids.push(results[j]);
        let empty_scores: Vec<ScoreDetails> = Vec::new();
        scores.push(empty_scores);
        proof {
            assert(results@.subrange(start as int, j as int).push(results@[j as int])
                =~= results@.subrange(start as int, j + 1 as int));
        }
        j += 1;
    }
    // all candidates: the universe shorn of the emitted value classes, the
    // emitted ids themselves kept
    let mut all = bm_clone(universe);
    bm_sub_assign(&mut all, &excluded);
    let mut t2: usize = 0;
    while t2 < rlen
        invariant
            t2 <= rlen,
            rlen == results@.len(),
            forall|a: int, b: int| 0 <= a < b < rlen ==> results@[a] < results@[b],
            bm_elems(all) == uset.difference(value_class(m, results@.to_set())).union(
                results@.take(t2 as int).to_set(),
            ),
            bm_elems(all).finite(),
        decreases rlen - t2,
    {
        bm_insert(&mut all, results[t2]);
        proof {
            lemma_take_one_more(results@, t2 as int);
        }
        t2 += 1;
    }
    proof {
        assert(results@.take(rlen as int) =~= results@);
        assert(bm_elems(all) =~= uset.difference(value_class(m, em)).union(em));
        // the returned page: ranks `from` to `from + length` of the survivors
        assert forall|a: int, b: int| 0 <= a < b < docids@.len() implies docids@[a]
            < docids@[b] by {
            assert(docids@[a] == results@[start + a]);
            assert(docids@[b] == results@[start + b]);
        }
        assert forall|x: u32| docids@.contains(x)
            implies (rset.contains(x) && from <= rank_in(rset, x) < from + length) by {
            let q = choose|q: int| 0 <= q < docids@.len() && docids@[q] == x;
            assert(results@[start + q] == x);
            assert(rank_in(rset, x) == start + q);
        }
        assert forall|x: u32| rset.contains(x) && from <= rank_in(rset, x) < from + length
            implies docids@.contains(x) by {
            assert(em.contains(x));
            assert(results@.to_set().contains(x));
            assert(results@.contains(x));
            let jx = choose|jx: int| 0 <= jx < results@.len() && results@[jx] == x;
            assert(rank_in(rset, x) == jx);
            assert(from <= jx < rlen);
            assert(docids@[jx - start] == x);
        }
        assert forall|a: int|
            0 <= a < docids@.len()
            implies uset.contains(#[trigger] docids@[a]) by {
            assert(docids@[a] == results@[start + a]);
            assert(rset.contains(results@[start + a]));
        }
        assert forall|a: int|
            0 <= a < docids@.len()
            implies bm_elems(all).contains(#[trigger] docids@[a]) by {
            assert(docids@[a] == results@[start + a]);
            let x = results@[start + a];
            assert(results@.to_set().contains(x));
            assert(em.contains(x));
        }
        assert forall|a: int, b: int|
            0 <= a < docids@.len() && 0 <= b < docids@.len() && a != b
            implies !same_value(m, docids@[a], docids@[b]) by {
            assert(docids@[a] == results@[start + a]);
            assert(docids@[b] == results@[start + b]);
            assert(rset.contains(docids@[a]));
            assert(rset.contains(docids@[b]));
            if a < b {
                assert(docids@[a] < docids@[b]);
            } else {
                assert(docids@[b] < docids@[a]);
            }
            crate::distinct::lemma_remaining_pairwise_distinct(m, uset, docids@[a], docids@[b]);
        }
        assert forall|x: u32| bm_elems(all).contains(x) implies uset.contains(x) by {
            if em.contains(x) {
            }
        }
        // the page size: the scan kept one survivor per value class, so the
        // emission count is the number of survivors of the whole universe,
        // clipped at `from + length`
        lemma_strictly_increasing_no_duplicates(results@);
        results@.unique_seq_to_set();
        assert(rset.subset_of(uset));
        lemma_len_subset(rset, uset);
        assert forall|x: u32| results@.to_set().contains(x) implies rset.contains(x) by {
            let j = choose|j: int| 0 <= j < results@.len() && results@[j] == x;
        }
        lemma_len_subset(results@.to_set(), rset);
        assert(v@.take(n as int) =~= v@);
        if rlen < limit {
            assert(i == n);
            assert forall|x: u32| rset.contains(x)
                implies results@.to_set().contains(x) by {
                assert(uset.contains(x));
                assert(v@.contains(x));
                let j = choose|j: int| 0 <= j < v@.len() && v@[j] == x;
                assert(v@.take(n as int)[j] == x);
                assert(v@.take(n as int).to_set().contains(x));
                assert(results@.contains(x));
            }
            assert(results@.to_set() =~= rset);
        }
        if from == 0 && docids@.len() != length {
            // the scan ran out of candidates before the page filled: every
            // universe document was returned or lost to a returned one
            assert(docids@ =~= results@);
            assert(results@.len() < limit);
            assert(i == n);
            assert(v@.take(n as int) =~= v@);
            assert forall|x: u32| uset.contains(x)
                implies docids@.to_set().union(
                value_class(m, docids@.to_set()),
            ).contains(x) by {
                if rset.contains(x) {
                    assert(v@.contains(x));
                    let j = choose|j: int| 0 <= j < v@.len() && v@[j] == x;
                    assert(v@.take(n as int)[j] == x);
                    assert(v@.take(n as int).to_set().contains(x));
                    assert(results@.contains(x));
                    let jj = choose|jj: int| 0 <= jj < results@.len() && results@[jj] == x;
                    assert(docids@[jj] == x);
                    assert(docids@.contains(x));
                } else {
                    crate::distinct::lemma_dropped_has_smaller_survivor(m, uset, x);
                    let e = choose|e: u32|
                        rset.contains(e) && e < x && same_value(m, e, x);
                    assert(v@.contains(e));
                    let j = choose|j: int| 0 <= j < v@.len() && v@[j] == e;
                    assert(v@.take(n as int)[j] == e);
                    assert(v@.take(n as int).to_set().contains(e));
                    assert(results@.contains(e));
                    let jj = choose|jj: int| 0 <= jj < results@.len() && results@[jj] == e;
                    assert(docids@[jj] == e);
                    assert(docids@.contains(e));
                    assert(docids@.to_set().contains(e));
                    assert(value_class(m, docids@.to_set()).contains(x));
                }
            }
        }
    }
    BucketSortOutput { docids, scores, all_candidates: all }
}

/// After a bucket was counted into the offset, the bookkeeping still covers
/// the universe: every universe id is processed, still on some level of the
/// stack, or — under distinct — shares its field value with a processed id.
proof fn lemma_offset_conservation(
    dactive: bool,
    m: Map<u32, u64>,
    uset: Set<u32>,
    views0: Seq<Set<u32>>,
    views1: Seq<Set<u32>>,
    newviews: Seq<Set<u32>>,
    k0: int,
    bset: Set<u32>,
    eff: Set<u32>,
    excl: Set<u32>,
    processed_pre: Set<u32>,
    processed: Set<u32>,
)
    requires
        0 <= k0 < views0.len(),
        views1.len() == views0.len(),
        newviews.len() == views0.len(),
        views1 == views0.update(k0, views0[k0].difference(bset)),
        bset.subset_of(views0[k0]),
        forall|i: int|
            0 <= i < newviews.len() ==> #[trigger] newviews[i] == views1[i].difference(excl),
        processed == processed_pre.union(eff),
        eff.subset_of(bset),
        processed_pre.subset_of(uset),
        bset.subset_of(uset),
        forall|i: int| 0 <= i < views0.len() ==> (#[trigger] views0[i]).subset_of(uset),
        !dactive ==> eff == bset,
        !dactive ==> excl == Set::<u32>::empty(),
        dactive ==> eff == distinct_remaining(m, bset),
        dactive ==> excl == value_class(m, eff),
        !dactive ==> processed_pre.union(set_union_of(views0)) == uset,
        dactive ==> uset.subset_of(
            processed_pre.union(set_union_of(views0)).union(value_class(m, processed_pre)),
        ),
        dactive ==> pairwise_distinct_values(m, processed_pre),
        dactive ==> processed_pre.disjoint(bset),
        dactive ==> (forall|p: u32, x: u32, i: int|
            processed_pre.contains(p) && #[trigger] same_value(m, p, x) && x != p && 0 <= i
                < views0.len() ==> !(#[trigger] views0[i]).contains(x)),
    ensures
        !dactive ==> processed.union(set_union_of(newviews)) == uset,
        dactive ==> uset.subset_of(
            processed.union(set_union_of(newviews)).union(value_class(m, processed)),
        ),
        dactive ==> pairwise_distinct_values(m, processed),
        dactive ==> (forall|p: u32, x: u32, i: int|
            processed.contains(p) && #[trigger] same_value(m, p, x) && x != p && 0 <= i
                < newviews.len() ==> !(#[trigger] newviews[i]).contains(x)),
{
    if !dactive {
        assert forall|x: u32| uset.contains(x)
            implies processed.union(set_union_of(newviews)).contains(x) by {
            lemma_union_membership(views0, x);
            lemma_union_membership(newviews, x);
            if !processed.contains(x) {
                assert(processed_pre.union(set_union_of(views0)).contains(x));
                let i = choose|i: int|
                    0 <= i < views0.len() && (#[trigger] views0[i]).contains(x);
                if i == k0 {
                    assert(!bset.contains(x));
                    assert(views1[k0].contains(x));
                    assert(newviews[k0].contains(x));
                } else {
                    assert(views1[i].contains(x));
                    assert(newviews[i].contains(x));
                }
            }
        }
        assert forall|x: u32| processed.union(set_union_of(newviews)).contains(x)
            implies uset.contains(x) by {
            lemma_union_membership(newviews, x);
            if !processed.contains(x) {
                let i = choose|i: int|
                    0 <= i < newviews.len() && (#[trigger] newviews[i]).contains(x);
                assert(views1[i].contains(x));
                assert(views0[i].contains(x));
            }
        }
        assert(processed.union(set_union_of(newviews)) =~= uset);
    } else {
        assert forall|x: u32| uset.contains(x)
            implies processed.union(set_union_of(newviews)).union(
            value_class(m, processed)).contains(x) by {
            lemma_union_membership(views0, x);
            lemma_union_membership(newviews, x);
            if !processed.contains(x) {
                if value_class(m, processed_pre).contains(x) {
                    let r = choose|r: u32|
                        processed_pre.contains(r) && same_value(m, r, x);
                    assert(processed.contains(r));
                    assert(value_class(m, processed).contains(x));
                } else if set_union_of(views0).contains(x) {
                    let i = choose|i: int|
                        0 <= i < views0.len() && (#[trigger] views0[i]).contains(x);
                    if i == k0 && bset.contains(x) {
                        // dropped by distinct: it loses to a smaller
                        // surviving candidate
                        assert(!eff.contains(x));
                        crate::distinct::lemma_dropped_has_smaller_survivor(m, bset, x);
                        let e = choose|e: u32|
                            distinct_remaining(m, bset).contains(e) && e < x && same_value(
                                m,
                                e,
                                x,
                            );
                        assert(processed.contains(e));
                        assert(value_class(m, processed).contains(x));
                    } else {
                        assert(views1[i].contains(x));
                        if excl.contains(x) {
                            let e = choose|e: u32| eff.contains(e) && same_value(m, e, x);
                            assert(processed.contains(e));
                            assert(value_class(m, processed).contains(x));
                        } else {
                            assert(newviews[i].contains(x));
                        }
                    }
                }
            }
        }
        // the processed ids still hold pairwise distinct values, and their
        // whole value classes have left every level
        assert forall|p: u32, q: u32|
            processed.contains(p) && processed.contains(q) && p != q
            implies !(#[trigger] same_value(m, p, q)) by {
            if same_value(m, p, q) {
                if processed_pre.contains(p) && processed_pre.contains(q) {
                } else if processed_pre.contains(p) {
                    assert(eff.contains(q));
                    assert(bset.contains(q));
                    assert(views0[k0].contains(q));
                } else if processed_pre.contains(q) {
                    assert(eff.contains(p));
                    assert(bset.contains(p));
                    assert(views0[k0].contains(p));
                    assert(same_value(m, q, p));
                } else {
                    assert(eff.contains(p));
                    assert(eff.contains(q));
                    crate::distinct::lemma_remaining_pairwise_distinct(m, bset, p, q);
                }
            }
        }
        assert forall|p: u32, x: u32, i: int|
            processed.contains(p) && #[trigger] same_value(m, p, x) && x != p && 0 <= i
                < newviews.len()
            implies !(#[trigger] newviews[i]).contains(x) by {
            if processed_pre.contains(p) {
                assert(!views0[i].contains(x));
                assert(views1[i].subset_of(views0[i])) by {
                    if i == k0 {
                    } else {
                        assert(views1[i] == views0[i]);
                    }
                }
            } else {
                assert(eff.contains(p));
                assert(value_class(m, eff).contains(x));
                assert(!newviews[i].contains(x));
            }
        }
    }
}

/// After a bucket was added to the results, the extended result list still
/// repeats no id, and under a distinct field still holds at most one
/// document per value, all of whose classmates have left every universe.
proof fn lemma_results_extend(
    active: bool,
    m: Map<u32, u64>,
    old_docids: Seq<u32>,
    new_docids: Seq<u32>,
    processed_old: Set<u32>,
    bset: Set<u32>,
    eff: Set<u32>,
    excl: Set<u32>,
    views1: Seq<Set<u32>>,
    newviews: Seq<Set<u32>>,
)
    requires
        new_docids.len() >= old_docids.len(),
        new_docids.subrange(0, old_docids.len() as int) == old_docids,
        strictly_increasing(new_docids.skip(old_docids.len() as int)),
        forall|i: int|
            old_docids.len() <= i < new_docids.len() ==> eff.contains(#[trigger] new_docids[i]),
        old_docids.to_set().subset_of(processed_old),
        processed_old.disjoint(bset),
        eff.subset_of(bset),
        forall|i: int, j: int|
            0 <= i < j < old_docids.len() ==> #[trigger] old_docids[i] != #[trigger] old_docids[j],
        views1.len() == newviews.len(),
        forall|i: int|
            0 <= i < newviews.len() ==> #[trigger] newviews[i] == views1[i].difference(excl),
        active ==> eff == distinct_remaining(m, bset),
        active ==> excl == value_class(m, eff),
        active ==> (forall|a: int, b: int|
            0 <= a < old_docids.len() && 0 <= b < old_docids.len() && a != b
                ==> !(#[trigger] same_value(m, old_docids[a], old_docids[b]))),
        active ==> (forall|a: int, x: u32|
            0 <= a < old_docids.len() && #[trigger] same_value(m, old_docids[a], x)
                ==> !bset.contains(x)),
        active ==> (forall|a: int, x: u32, i: int|
            0 <= a < old_docids.len() && #[trigger] same_value(m, old_docids[a], x)
                && 0 <= i < views1.len() ==> !(#[trigger] views1[i]).contains(x)),
    ensures
        forall|i: int, j: int|
            0 <= i < j < new_docids.len() ==> #[trigger] new_docids[i] != #[trigger] new_docids[j],
        active ==> (forall|a: int, b: int|
            0 <= a < new_docids.len() && 0 <= b < new_docids.len() && a != b
                ==> !(#[trigger] same_value(m, new_docids[a], new_docids[b]))),
        active ==> (forall|a: int, x: u32, i: int|
            0 <= a < new_docids.len() && #[trigger] same_value(m, new_docids[a], x)
                && 0 <= i < newviews.len() ==> !(#[trigger] newviews[i]).contains(x)),
{
    let ol = old_docids.len() as int;
    let app = new_docids.skip(ol);
    assert forall|i: int, j: int|
        0 <= i < j < new_docids.len()
        implies #[trigger] new_docids[i] != #[trigger] new_docids[j] by {
        if j < ol {
            assert(new_docids[i] == old_docids[i]);
            assert(new_docids[j] == old_docids[j]);
        } else if i >= ol {
            assert(app[i - ol] == new_docids[i]);
            assert(app[j - ol] == new_docids[j]);
            assert(app[i - ol] < app[j - ol]);
        } else {
            // an old id was processed before; a new one comes from the bucket
            assert(new_docids[i] == old_docids[i]);
            assert(old_docids.to_set().contains(old_docids[i]));
            assert(eff.contains(new_docids[j]));
            assert(bset.contains(new_docids[j]));
        }
    }
    if active {
            assert forall|a: int, b: int|
                0 <= a < new_docids.len() && 0 <= b < new_docids.len() && a != b
                implies !(#[trigger] same_value(m, new_docids[a], new_docids[b])) by {
                if a < ol && b < ol {
                    assert(new_docids[a] == old_docids[a]);
                    assert(new_docids[b] == old_docids[b]);
                } else if a >= ol && b >= ol {
                    assert(eff.contains(new_docids[a]));
                    assert(eff.contains(new_docids[b]));
                    assert(app[a - ol] == new_docids[a]);
                    assert(app[b - ol] == new_docids[b]);
                    if a < b {
                        assert(app[a - ol] < app[b - ol]);
                    } else {
                        assert(app[b - ol] < app[a - ol]);
                    }
                    crate::distinct::lemma_remaining_pairwise_distinct(
                        m,
                        bset,
                        new_docids[a],
                        new_docids[b],
                    );
                } else if a < ol {
                    assert(new_docids[a] == old_docids[a]);
                    assert(eff.contains(new_docids[b]));
                    assert(bset.contains(new_docids[b]));
                    if same_value(m, new_docids[a], new_docids[b]) {
                        assert(false);
                    }
                } else {
                    assert(new_docids[b] == old_docids[b]);
                    assert(eff.contains(new_docids[a]));
                    assert(bset.contains(new_docids[a]));
                    if same_value(m, new_docids[a], new_docids[b]) {
                        assert(same_value(m, new_docids[b], new_docids[a]));
                        assert(false);
                    }
                }
            }
            assert forall|a: int, x: u32, i: int|
                0 <= a < new_docids.len() && #[trigger] same_value(m, new_docids[a], x) && 0
                    <= i < newviews.len()
                implies !(#[trigger] newviews[i]).contains(x) by {
                if a < ol {
                    assert(new_docids[a] == old_docids[a]);
                    assert(!views1[i].contains(x));
                } else {
                    assert(eff.contains(new_docids[a]));
                    assert(value_class(m, eff).contains(x));
                }
            }
        }
}

/// Ranked retrieval: drives the ordered rule pipeline over `universe` and
/// returns the page `[from, from + length)` of the ranked stream, one score
/// vector per returned document, and the union of every candidate observed.
///
/// Every returned id comes from the universe, ids are returned at most once,
/// at most `length` of them, with `|scores| == |docids|`; under a distinct
/// field no two returned documents share that field's value. With no rules
/// the result is exactly the ascending page of the (distinct-filtered)
/// universe.
#[verifier::rlimit(100)]
pub fn bucket_sort(
    ctx: &SearchCtx,
    ranking_rules: &mut Vec<RankingRule>,
    universe: &RoaringBitmap,
    from: usize,
    length: usize,
    scoring_strategy: ScoringStrategy,
) -> (out: BucketSortOutput)
    requires
        ctx.wf(),
        bm_elems(*universe).finite(),
        bm_elems(*universe).len() <= usize::MAX,
        from + length <= usize::MAX,
        forall|i: int|
            0 <= i < old(ranking_rules)@.len() ==> !(#[trigger] old(ranking_rules)@[i]).active,
        forall|i: int|
            0 <= i < old(ranking_rules)@.len() ==> bm_elems(*universe).subset_of(
                (#[trigger] old(ranking_rules)@[i]).coverage(),
            ),
    ensures
        out.docids@.len() == out.scores@.len(),
        out.docids@.len() <= length,
        forall|i: int|
            0 <= i < out.docids@.len() ==> bm_elems(*universe).contains(
                #[trigger] out.docids@[i],
            ),
        forall|i: int, j: int|
            0 <= i < j < out.docids@.len() ==> #[trigger] out.docids@[i] != #[trigger] out.docids@[j],
        forall|i: int|
            0 <= i < out.docids@.len() ==> bm_elems(out.all_candidates).contains(
                #[trigger] out.docids@[i],
            ),
        bm_elems(out.all_candidates).subset_of(bm_elems(*universe)),
        bm_elems(out.all_candidates).finite(),
        forall|i: int|
            0 <= i < out.scores@.len() ==> (#[trigger] out.scores@[i])@.len() <= old(
                ranking_rules,
            )@.len(),
        // each score entry is one of the owning rule's bucket scores
        forall|i: int, j: int|
            0 <= i < out.scores@.len() && 0 <= j < out.scores@[i]@.len()
                ==> is_bucket_score(
                    final(ranking_rules)@[j].defn@,
                    #[trigger] out.scores@[i]@[j],
                ),
        final(ranking_rules)@.len() == old(ranking_rules)@.len(),
        forall|i: int|
            0 <= i < old(ranking_rules)@.len() ==> (#[trigger] final(ranking_rules)@[i]).defn
                == old(ranking_rules)@[i].defn,
        forall|i: int|
            0 <= i < old(ranking_rules)@.len() ==> (#[trigger] final(ranking_rules)@[i]).name
                == old(ranking_rules)@[i].name,
        (match ctx.distinct_fid {
            Some(fid) => forall|i: int, j: int|
                0 <= i < out.docids@.len() && 0 <= j < out.docids@.len() && i != j
                    ==> !same_value(ctx.distinct_map(fid), out.docids@[i], out.docids@[j]),
            None => true,
        }),
        // not enough candidates to reach the offset: empty page
        bm_elems(*universe).len() < from ==> out.docids@ == Seq::<u32>::empty() && bm_elems(
            out.all_candidates,
        ) == bm_elems(*universe),
        // no rules, no distinct: the ascending page of the universe itself
        (old(ranking_rules)@.len() == 0 && ctx.distinct_fid is None && bm_elems(
            *universe,
        ).len() >= from) ==> is_page(
            bm_elems(*universe),
            out.docids@,
            from as int,
            length as int,
        ) && bm_elems(out.all_candidates) == bm_elems(*universe) && (forall|i: int|
            0 <= i < out.scores@.len() ==> (#[trigger] out.scores@[i])@.len() == 0),
        // no rules with a distinct field: the ascending page of the
        // surviving candidates
        (match ctx.distinct_fid {
            Some(fid) => (old(ranking_rules)@.len() == 0 && bm_elems(*universe).len() >= from)
                ==> is_page(
                    distinct_remaining(ctx.distinct_map(fid), bm_elems(*universe)),
                    out.docids@,
                    from as int,
                    length as int,
                ) && bm_elems(out.all_candidates) == bm_elems(*universe).difference(
                    value_class(
                        ctx.distinct_map(fid),
                        page_ids(
                            distinct_remaining(ctx.distinct_map(fid), bm_elems(*universe)),
                            0,
                            from + length,
                        ),
                    ),
                ).union(
                    page_ids(
                        distinct_remaining(ctx.distinct_map(fid), bm_elems(*universe)),
                        0,
                        from + length,
                    ),
                ) && (forall|i: int|
                    0 <= i < out.scores@.len() ==> (#[trigger] out.scores@[i])@.len() == 0),
            None => true,
        }),
        // success is owed: from the start of the stream, the page only ends
        // early when the whole universe was returned
        (ctx.distinct_fid is None && from == 0) ==> (out.docids@.len() == length
            || out.docids@.to_set() == bm_elems(*universe)),
        // without distinct the page size is exact, at any offset: what is
        // left of the universe past `from`, capped by `length`
        ctx.distinct_fid is None ==> out.docids@.len() == ({
            let u = bm_elems(*universe).len();
            if u <= from {
                0
            } else if u - from <= length {
                u - from
            } else {
                length as int
            }
        }),
        // with distinct the page size is exact too: the ranked stream emits
        // one document per value class — as many as the distinct filter
        // leaves of the universe — and the page takes what lies past `from`
        (match ctx.distinct_fid {
            Some(fid) => out.docids@.len() == ({
                let s = distinct_remaining(
                    ctx.distinct_map(fid),
                    bm_elems(*universe),
                ).len();
                if s <= from {
                    0
                } else if s - from <= length {
                    s - from
                } else {
                    length as int
                }
            }),
            None => true,
        }),
        // with distinct, the page only ends early when every universe
        // document was returned or shares its value with a returned one
        (match ctx.distinct_fid {
            Some(fid) => from == 0 ==> (out.docids@.len() == length || bm_elems(
                *universe,
            ).subset_of(
                out.docids@.to_set().union(
                    value_class(ctx.distinct_map(fid), out.docids@.to_set()),
                ),
            )),
            None => true,
        }),
{
    let ghost uset = bm_elems(*universe);
    let u_len = bm_len(universe);
    if u_len < from as u64 {
        proof {
            match ctx.distinct_fid {
                Some(fid) => {
                    let rset = distinct_remaining(ctx.distinct_map(fid), uset);
                    assert(rset.subset_of(uset));
                    lemma_len_subset(rset, uset);
                },
                None => {},
            }
        }
        return BucketSortOutput {
            docids: Vec::new(),
            scores: Vec::new(),
            all_candidates: bm_clone(universe),
        };
    }
    let distinct_fid = ctx.distinct_fid;
    if ranking_rules.len() == 0 {
        match distinct_fid {
            Some(fid) => {
                let out = page_without_rules_distinct(ctx, fid, universe, from, length);
                proof {
                    assert forall|i: int, j: int| 0 <= i < j < out.docids@.len()
                        implies out.docids@[i] != out.docids@[j] by {
                        assert(out.docids@[i] < out.docids@[j]);
                    }
                }
                return out;
            },
            None => {
                let out = page_without_rules(universe, from, length);
                proof {
                    assert forall|i: int, j: int| 0 <= i < j < out.docids@.len()
                        implies out.docids@[i] != out.docids@[j] by {
                        assert(out.docids@[i] < out.docids@[j]);
                    }
                }
                return out;
            },
        }
    }

    let nr = ranking_rules.len();
    ranking_rules[0].start_iteration(universe);

    let mut universes: Vec<RoaringBitmap> = Vec::new();
    universes.push(bm_clone(universe));
    let mut t: usize = 1;
    while t < nr
        invariant
            1 <= t <= nr,
            universes@.len() == t,
            bm_elems(universes@[0]) == uset,
            forall|i: int| 1 <= i < t ==> bm_elems(#[trigger] universes@[i]).is_empty(),
            forall|i: int| 0 <= i < t ==> bm_elems(#[trigger] universes@[i]).finite(),
        decreases nr - t,
    {
        universes.push(bm_new());
        t += 1;
    }

    let mut k: usize = 0;
    let mut rule_scores: Vec<ScoreDetails> = Vec::new();
    let mut all_candidates = bm_clone(universe);
    let mut valid_docids: Vec<u32> = Vec::new();
    let mut valid_scores: Vec<Vec<ScoreDetails>> = Vec::new();
    let mut cur_offset: usize = 0;
    let ghost mut processed: Set<u32> = Set::empty();

    proof {
        assert forall|x: u32| uset.contains(x)
            implies processed.union(set_union_of(views_of(universes@))).contains(x) by {
            lemma_union_membership(views_of(universes@), x);
            assert(views_of(universes@)[0] == bm_elems(universes@[0]));
            assert(views_of(universes@)[0].contains(x));
        }
        assert forall|x: u32| processed.union(set_union_of(views_of(universes@))).contains(x)
            implies uset.contains(x) by {
            lemma_union_membership(views_of(universes@), x);
            let i = choose|i: int|
                0 <= i < views_of(universes@).len() && (#[trigger] views_of(
                    universes@,
                )[i]).contains(x);
            assert(bm_elems(universes@[i]).contains(x));
            if i > 0 {
                assert(bm_elems(universes@[i]).is_empty());
            }
        }
        assert(processed.union(set_union_of(views_of(universes@))) =~= uset);
    }

    while valid_docids.len() < length
        invariant
            forall|i: int| 0 <= i <= k ==> (#[trigger] ranking_rules@[i]).active,
            ctx.wf(),
            distinct_fid == ctx.distinct_fid,
            uset == bm_elems(*universe),
            uset.finite(),
            uset.len() <= usize::MAX,
            from + length <= usize::MAX,
            nr == ranking_rules@.len(),
            nr == universes@.len(),
            forall|i: int|
                0 <= i < nr ==> uset.subset_of((#[trigger] old(ranking_rules)@[i]).coverage()),
            1 <= nr,
            k < nr,
            rule_scores@.len() == k,
            forall|i: int|
                0 <= i < nr ==> (#[trigger] ranking_rules@[i]).defn == old(
                    ranking_rules,
                )@[i].defn,
            forall|i: int|
                0 <= i < nr ==> (#[trigger] ranking_rules@[i]).name == old(
                    ranking_rules,
                )@[i].name,
            forall|i: int| k < i < nr ==> !(#[trigger] ranking_rules@[i]).active,
            forall|i: int|
                0 <= i <= k ==> (#[trigger] ranking_rules@[i]).cursor
                    <= ranking_rules@[i].defn@.len(),
            forall|i: int| 0 <= i < nr ==> bm_elems(#[trigger] universes@[i]).finite(),
            forall|i: int| 0 <= i < nr ==> bm_elems(#[trigger] universes@[i]).subset_of(uset),
            forall|i: int| k < i < nr ==> bm_elems(#[trigger] universes@[i]).is_empty(),
            forall|i: int|
                0 <= i <= k ==> bm_elems(#[trigger] universes@[i]).subset_of(
                    coverage_from(
                        ranking_rules@[i].defn@,
                        ranking_rules@[i].cursor as int,
                    ),
                ),
            forall|i: int, j: int|
                0 <= i < j < nr ==> bm_elems(#[trigger] universes@[i]).disjoint(
                    bm_elems(#[trigger] universes@[j]),
                ),
            valid_docids@.len() == valid_scores@.len(),
            valid_docids@.len() <= length,
            valid_docids@.len() == (if cur_offset <= from {
                0
            } else if cur_offset - from <= length {
                cur_offset - from
            } else {
                length as int
            }),
            forall|i: int|
                0 <= i < valid_docids@.len() ==> uset.contains(#[trigger] valid_docids@[i]),
            forall|i: int, j: int|
                0 <= i < j < valid_docids@.len() ==> #[trigger] valid_docids@[i] != #[trigger] valid_docids@[j],
            forall|i: int|
                0 <= i < valid_docids@.len() ==> bm_elems(all_candidates).contains(
                    #[trigger] valid_docids@[i],
                ),
            bm_elems(all_candidates).subset_of(uset),
            bm_elems(all_candidates).finite(),
            forall|i: int|
                0 <= i < valid_scores@.len() ==> (#[trigger] valid_scores@[i])@.len() <= nr,
            forall|j: int|
                0 <= j < rule_scores@.len() ==> is_bucket_score(
                    ranking_rules@[j].defn@,
                    #[trigger] rule_scores@[j],
                ),
            forall|i: int, j: int|
                0 <= i < valid_scores@.len() && 0 <= j < valid_scores@[i]@.len()
                    ==> is_bucket_score(
                        ranking_rules@[j].defn@,
                        #[trigger] valid_scores@[i]@[j],
                    ),
            processed.finite(),
            processed.subset_of(uset),
            cur_offset == processed.len(),
            forall|i: int|
                0 <= i < nr ==> processed.disjoint(bm_elems(#[trigger] universes@[i])),
            valid_docids@.to_set().subset_of(processed),
            old(ranking_rules)@.len() == nr,
            from <= uset.len(),
            distinct_fid is None ==> processed.union(set_union_of(views_of(universes@)))
                == uset,
            (distinct_fid is None && from == 0) ==> (valid_docids@.to_set() == processed
                || valid_docids@.len() == length),
            (match distinct_fid {
                Some(fid) => from == 0 ==> (valid_docids@.len() == length
                    || valid_docids@.to_set() == processed),
                None => true,
            }),
            (match distinct_fid {
                Some(fid) => {
                    &&& pairwise_distinct_values(ctx.distinct_map(fid), processed)
                    &&& uset.subset_of(
                        processed.union(set_union_of(views_of(universes@))).union(
                            value_class(ctx.distinct_map(fid), processed),
                        ),
                    )
                    &&& (forall|p: u32, x: u32, i: int|
                        processed.contains(p) && #[trigger] same_value(
                            ctx.distinct_map(fid),
                            p,
                            x,
                        ) && x != p && 0 <= i < nr ==> !bm_elems(
                            #[trigger] universes@[i],
                        ).contains(x))
                },
                None => true,
            }),
            (match distinct_fid {
                Some(fid) => {
                    &&& (forall|a: int, b: int|
                        0 <= a < valid_docids@.len() && 0 <= b < valid_docids@.len() && a != b
                            ==> !(#[trigger] same_value(
                                ctx.distinct_map(fid),
                                valid_docids@[a],
                                valid_docids@[b],
                            )))
                    &&& (forall|a: int, x: u32, i: int|
                        0 <= a < valid_docids@.len() && #[trigger] same_value(
                            ctx.distinct_map(fid),
                            valid_docids@[a],
                            x,
                        ) && 0 <= i < nr ==> !bm_elems(#[trigger] universes@[i]).contains(x))
                },
                None => true,
            }),
        decreases stack_weight(views_of(universes@)), k,
    {
        let ghost views0 = views_of(universes@);
        let ghost k0 = k as int;
        let cur_is_empty = bm_is_empty(&universes[k]);
        let take_whole = if cur_is_empty {
            true
        } else if scoring_strategy == ScoringStrategy::Skip {
            bm_len(&universes[k]) == 1
        } else {
            false
        };
        if take_whole {
            // this level's whole remaining universe is one leaf bucket
            let bucket = bm_clone(&universes[k]);
            bm_clear(&mut universes[k]);
            let ghost bset = bm_elems(bucket);
            proof {
                assert(views_of(universes@) =~= views0.update(k0, Set::<u32>::empty()));
                lemma_stack_weight_update(views0, k0, Set::empty());
                if !bset.is_empty() {
                    assert(views0[k0].len() * (views0.len() - k0) >= views0[k0].len())
                        by (nonlinear_arith)
                        requires views0.len() - k0 >= 1;
                    assert(stack_weight(views_of(universes@)) < stack_weight(views0));
                }
                assert(processed.disjoint(bset));
                lemma_set_disjoint_lens(processed, bset);
                assert(processed + bset =~= processed.union(bset));
                assert(processed.union(bset).subset_of(uset));
                lemma_len_subset(processed.union(bset), uset);
            }
            let ghost views1 = views_of(universes@);
            let ghost old_docids = valid_docids@;
            let ghost processed_pre = processed;
            proof {
                assert(bset == views0[k0]);
                assert forall|i: int| 0 <= i < nr
                    implies bset.disjoint(bm_elems(#[trigger] universes@[i])) by {
                    if i == k0 {
                        assert(bm_elems(universes@[i]).is_empty());
                    } else {
                        assert(bm_elems(universes@[i]) == views0[i]);
                        assert(views0[i].disjoint(views0[k0]));
                    }
                }
            }
            let gp = maybe_add_to_results(
                ctx,
                from,
                length,
                &mut valid_docids,
                &mut valid_scores,
                &mut all_candidates,
                &mut universes,
                &mut cur_offset,
                distinct_fid,
                &rule_scores,
                bucket,
                Ghost(processed),
            );
            proof {
                processed = gp@;
                let excl = excluded_ids(*ctx, distinct_fid, bset);
                let eff = effective_candidates(*ctx, distinct_fid, bset);
                assert(eff.subset_of(bset));
                assert forall|i: int| 0 <= i < nr
                    implies #[trigger] views1[i].subset_of(views0[i]) && views1[i].finite() by {
                    if i == k0 {
                    } else {
                        assert(views1[i] == views0[i]);
                    }
                }
                assert forall|i: int| 0 <= i < nr
                    implies bm_elems(#[trigger] universes@[i]).finite()
                        && bm_elems(universes@[i]).subset_of(views1[i]) by {
                    assert(bm_elems(universes@[i]) == views1[i].difference(excl));
                    lemma_len_subset(bm_elems(universes@[i]), views1[i]);
                }
                assert forall|i: int| 0 <= i < nr
                    implies (#[trigger] views_of(universes@)[i]).subset_of(views1[i]) by {
                    assert(views_of(universes@)[i] == bm_elems(universes@[i]));
                }
                lemma_stack_weight_mono(views_of(universes@), views1);
                let dactive = (distinct_fid is Some);
                let dmap = (match distinct_fid {
                    Some(fid) => ctx.distinct_map(fid),
                    None => Map::<u32, u64>::empty(),
                });
                match distinct_fid {
                    Some(fid) => {
                        let m = ctx.distinct_map(fid);
                        assert forall|a: int, x: u32|
                            0 <= a < old_docids.len() && #[trigger] same_value(
                                m,
                                old_docids[a],
                                x,
                            )
                            implies !bset.contains(x) by {
                            assert(!views0[k0].contains(x));
                        }
                        assert forall|a: int, x: u32, i: int|
                            0 <= a < old_docids.len() && #[trigger] same_value(
                                m,
                                old_docids[a],
                                x,
                            ) && 0 <= i < views1.len()
                            implies !(#[trigger] views1[i]).contains(x) by {
                            assert(!views0[i].contains(x));
                        }
                    },
                    None => {},
                }
                lemma_results_extend(
                    dactive,
                    dmap,
                    old_docids,
                    valid_docids@,
                    processed_pre,
                    bset,
                    eff,
                    excl,
                    views1,
                    views_of(universes@),
                );
                match distinct_fid {
                    Some(fid) => {
                        let m = ctx.distinct_map(fid);
                        assert forall|a: int, x: u32, i: int|
                            0 <= a < valid_docids@.len() && #[trigger] same_value(
                                m,
                                valid_docids@[a],
                                x,
                            ) && 0 <= i < nr
                            implies !bm_elems(#[trigger] universes@[i]).contains(x) by {
                            assert(views_of(universes@)[i] == bm_elems(universes@[i]));
                            assert(!views_of(universes@)[i].contains(x));
                        }
                    },
                    None => {},
                }
                // remaining pieces of the loop invariant
                assert forall|i: int|
                    0 <= i < valid_docids@.len()
                    implies uset.contains(#[trigger] valid_docids@[i]) by {
                    if i < old_docids.len() {
                        assert(valid_docids@[i] == old_docids[i]);
                    } else {
                        assert(eff.contains(valid_docids@[i]));
                        assert(bset.contains(valid_docids@[i]));
                    }
                }
                assert forall|x: u32| bm_elems(all_candidates).contains(x)
                    implies uset.contains(x) by {
                    if eff.contains(x) {
                        assert(bset.contains(x));
                    }
                }
                assert forall|i: int|
                    0 <= i < valid_scores@.len()
                    implies (#[trigger] valid_scores@[i])@.len() <= nr by {
                    if i < old_docids.len() {
                    } else {
                        assert(valid_scores@[i]@ == rule_scores@);
                    }
                }
                assert forall|x: u32| valid_docids@.to_set().contains(x)
                    implies processed.contains(x) by {
                    let j = choose|j: int| 0 <= j < valid_docids@.len() && valid_docids@[j] == x;
                    if j < old_docids.len() {
                        assert(old_docids[j] == x);
                        assert(old_docids.to_set().contains(x));
                    } else {
                        assert(eff.contains(x));
                    }
                }
                assert forall|i: int| 0 <= i < nr
                    implies processed.disjoint(bm_elems(#[trigger] universes@[i])) by {
                    assert forall|x: u32| processed.contains(x)
                        implies !bm_elems(universes@[i]).contains(x) by {
                        if processed_pre.contains(x) {
                            assert(!views0[i].contains(x));
                            assert(views1[i].subset_of(views0[i]));
                        } else {
                            assert(eff.contains(x));
                            assert(bset.contains(x));
                            assert(bm_elems(universes@[i]).subset_of(views1[i]));
                        }
                    }
                }
                assert(processed.subset_of(uset));
                // offset accounting: the new offset counts the processed
                // ids plus this bucket's effective candidates
                lemma_set_disjoint_lens(processed_pre, eff);
                assert(processed_pre + eff =~= processed_pre.union(eff));
                assert(cur_offset == processed_pre.len() + eff.len());
                assert(views1 =~~= views0.update(k0, views0[k0].difference(bset)));
                assert forall|i: int| 0 <= i < nr
                    implies #[trigger] views_of(universes@)[i] == views1[i].difference(
                    excl) by {
                    assert(bm_elems(universes@[i]) == views1[i].difference(excl));
                }
                if distinct_fid is None {
                    lemma_offset_conservation(
                        false,
                        dmap,
                        uset,
                        views0,
                        views1,
                        views_of(universes@),
                        k0,
                        bset,
                        eff,
                        excl,
                        processed_pre,
                        processed,
                    );
                    if from == 0 && valid_docids@.len() != length {
                        assert(old_docids.to_set() == processed_pre);
                        assert(valid_docids@.to_set() =~= processed);
                    }
                } else {
                    if from == 0 && valid_docids@.len() != length {
                        assert(old_docids.to_set() == processed_pre);
                        assert(valid_docids@.to_set() =~= processed);
                    }
                    lemma_offset_conservation(
                        true,
                        dmap,
                        uset,
                        views0,
                        views1,
                        views_of(universes@),
                        k0,
                        bset,
                        eff,
                        excl,
                        processed_pre,
                        processed,
                    );
                }
            }
            // back off: this rule's bucket is exhausted
            proof {
                assert(bm_elems(universes@[k0]) =~= Set::<u32>::empty());
            }
            ranking_rules[k].end_iteration();
            if k == 0 {
                // the first rule's universe is exhausted: the search is over
                proof {
                    assert forall|x: u32|
                        !set_union_of(views_of(universes@)).contains(x) by {
                        lemma_union_membership(views_of(universes@), x);
                        if set_union_of(views_of(universes@)).contains(x) {
                            let i = choose|i: int|
                                0 <= i < views_of(universes@).len() && (
                                #[trigger] views_of(universes@)[i]).contains(x);
                            if i == 0 {
                                assert(bm_elems(universes@[0]).is_empty());
                            } else {
                                assert(bm_elems(universes@[i]).is_empty());
                            }
                        }
                    }
                    assert(set_union_of(views_of(universes@)) =~= Set::<u32>::empty());
                    if distinct_fid is None {
                        // every universe document was counted into the offset
                        assert(processed =~= uset);
                    }
                    match distinct_fid {
                        Some(fid) => {
                            // the offset counted one document per value
                            // class: exactly as many as the distinct filter
                            // leaves of the whole universe
                            let m = ctx.distinct_map(fid);
                            let rset = distinct_remaining(m, uset);
                            lemma_len_subset(processed, uset);
                            lemma_remaining_is_cover(m, uset);
                            assert(uset.subset_of(
                                processed.union(value_class(m, processed)),
                            ));
                            lemma_distinct_reps_le(m, uset, processed, rset);
                            lemma_distinct_reps_le(m, uset, rset, processed);
                            assert(processed.len() == rset.len());
                        },
                        None => {},
                    }
                    if from == 0 && valid_docids@.len() != length {
                        match distinct_fid {
                            Some(fid) => {
                                let m = ctx.distinct_map(fid);
                                assert forall|x: u32| uset.contains(x)
                                    implies valid_docids@.to_set().union(
                                    value_class(m, valid_docids@.to_set()),
                                ).contains(x) by {
                                    assert(processed.union(
                                        set_union_of(views_of(universes@)),
                                    ).union(value_class(m, processed)).contains(x));
                                    assert(valid_docids@.to_set() == processed);
                                }
                                assert(uset.subset_of(
                                    valid_docids@.to_set().union(
                                        value_class(m, valid_docids@.to_set()),
                                    ),
                                ));
                            },
                            None => {
                                assert(valid_docids@.to_set() =~= bm_elems(*universe));
                            },
                        }
                    }
                }
                return BucketSortOutput {
                    docids: valid_docids,
                    scores: valid_scores,
                    all_candidates,
                };
            }
            k = k - 1;
            if rule_scores.len() > k {
                rule_scores.pop();
            }
        } else {
            // ask the current rule for its next bucket
            let bucket_opt = ranking_rules[k].next_bucket(&universes[k]);
            match bucket_opt {
                None => {
                    // a rule may answer `None` only on an empty universe,
                    // and this level's universe is not empty
                    proof {
                        assert(!bm_elems(universes@[k0]).is_empty());
                        assert(false);
                    }
                    return BucketSortOutput {
                        docids: valid_docids,
                        scores: valid_scores,
                        all_candidates,
                    };
                },
                Some(next_bucket) => {
                    rule_scores.push(next_bucket.score);
                    proof {
                        let rk = ranking_rules@[k0];
                        assert(rk.defn@[rk.cursor - 1].score == next_bucket.score);
                        assert(is_bucket_score(rk.defn@, next_bucket.score));
                    }
                    let ghost bset = bm_elems(next_bucket.candidates);
                    bm_sub_assign(&mut universes[k], &next_bucket.candidates);
                    let ghost views1 = views_of(universes@);
                    proof {
                        assert(views1 =~= views0.update(k0, views0[k0].difference(bset)));
                        lemma_stack_weight_update(views0, k0, views0[k0].difference(bset));
                        assert(bset.subset_of(views0[k0]));
                        lemma_len_diff_subset(views0[k0], bset);
                        let a = views0[k0].len() as int;
                        let b = bset.len() as int;
                        let c = views0.len() - k0;
                        assert(a * c == (a - b) * c + b * c) by (nonlinear_arith);
                        assert(b * c >= b) by (nonlinear_arith)
                            requires c >= 1 && b >= 0;
                        if bset.len() == 0 {
                            bset.lemma_len0_is_empty();
                            assert(false);
                        }
                        assert(stack_weight(views1) < stack_weight(views0));
                        assert(processed.disjoint(bset));
                        lemma_set_disjoint_lens(processed, bset);
                        assert(processed + bset =~= processed.union(bset));
                        assert(processed.union(bset).subset_of(uset));
                        lemma_len_subset(processed.union(bset), uset);
                    }
                    let blen = bm_len(&next_bucket.candidates);
                    let blen_us = blen as usize;
                    if k == nr - 1 || (scoring_strategy == ScoringStrategy::Skip && blen <= 1)
                        || cur_offset + blen_us < from {
                        // emit: the bucket cannot or need not be tie-broken
                        let ghost old_docids = valid_docids@;
                        let ghost processed_pre = processed;
                        proof {
                            assert forall|i: int| 0 <= i < nr
                                implies bset.disjoint(
                                bm_elems(#[trigger] universes@[i])) by {
                                if i == k0 {
                                    assert(bm_elems(universes@[i]) == views0[k0].difference(
                                        bset,
                                    ));
                                } else {
                                    assert(views1[i] == views0[i]);
                                    assert(bset.subset_of(views0[k0]));
                                }
                            }
                        }
                        let gp = maybe_add_to_results(
                            ctx,
                            from,
                            length,
                            &mut valid_docids,
                            &mut valid_scores,
                            &mut all_candidates,
                            &mut universes,
                            &mut cur_offset,
                            distinct_fid,
                            &rule_scores,
                            next_bucket.candidates,
                            Ghost(processed),
                        );
                        proof {
                            processed = gp@;
                            let excl = excluded_ids(*ctx, distinct_fid, bset);
                            let eff = effective_candidates(*ctx, distinct_fid, bset);
                            assert(eff.subset_of(bset));
                            assert forall|i: int| 0 <= i < nr
                                implies #[trigger] views1[i].subset_of(views0[i])
                                    && views1[i].finite() by {
                                if i == k0 {
                                } else {
                                    assert(views1[i] == views0[i]);
                                }
                            }
                            assert forall|i: int| 0 <= i < nr
                                implies bm_elems(#[trigger] universes@[i]).finite()
                                    && bm_elems(universes@[i]).subset_of(views1[i]) by {
                                assert(bm_elems(universes@[i]) == views1[i].difference(excl));
                                lemma_len_subset(bm_elems(universes@[i]), views1[i]);
                            }
                            assert forall|i: int| 0 <= i < nr
                                implies (#[trigger] views_of(universes@)[i]).subset_of(
                                views1[i]) by {
                                assert(views_of(universes@)[i] == bm_elems(universes@[i]));
                            }
                            lemma_stack_weight_mono(views_of(universes@), views1);
                            let dactive = (distinct_fid is Some);
                            let dmap = (match distinct_fid {
                                Some(fid) => ctx.distinct_map(fid),
                                None => Map::<u32, u64>::empty(),
                            });
                            match distinct_fid {
                                Some(fid) => {
                                    let m = ctx.distinct_map(fid);
                                    assert forall|a: int, x: u32|
                                        0 <= a < old_docids.len() && #[trigger] same_value(
                                            m,
                                            old_docids[a],
                                            x,
                                        )
                                        implies !bset.contains(x) by {
                                        assert(!views0[k0].contains(x));
                                    }
                                    assert forall|a: int, x: u32, i: int|
                                        0 <= a < old_docids.len() && #[trigger] same_value(
                                            m,
                                            old_docids[a],
                                            x,
                                        ) && 0 <= i < views1.len()
                                        implies !(#[trigger] views1[i]).contains(x) by {
                                        assert(!views0[i].contains(x));
                                    }
                                },
                                None => {},
                            }
                            lemma_results_extend(
                                dactive,
                                dmap,
                                old_docids,
                                valid_docids@,
                                processed_pre,
                                bset,
                                eff,
                                excl,
                                views1,
                                views_of(universes@),
                            );
                            match distinct_fid {
                                Some(fid) => {
                                    let m = ctx.distinct_map(fid);
                                    assert forall|a: int, x: u32, i: int|
                                        0 <= a < valid_docids@.len() && #[trigger] same_value(
                                            m,
                                            valid_docids@[a],
                                            x,
                                        ) && 0 <= i < nr
                                        implies !bm_elems(
                                        #[trigger] universes@[i]).contains(x) by {
                                        assert(views_of(universes@)[i] == bm_elems(
                                            universes@[i],
                                        ));
                                        assert(!views_of(universes@)[i].contains(x));
                                    }
                                },
                                None => {},
                            }
                            assert forall|i: int|
                                0 <= i < valid_docids@.len()
                                implies uset.contains(#[trigger] valid_docids@[i]) by {
                                if i < old_docids.len() {
                                    assert(valid_docids@[i] == old_docids[i]);
                                } else {
                                    assert(eff.contains(valid_docids@[i]));
                                    assert(bset.contains(valid_docids@[i]));
                                }
                            }
                            assert forall|x: u32| bm_elems(all_candidates).contains(x)
                                implies uset.contains(x) by {
                                if eff.contains(x) {
                                    assert(bset.contains(x));
                                }
                            }
                            assert forall|i: int|
                                0 <= i < valid_scores@.len()
                                implies (#[trigger] valid_scores@[i])@.len() <= nr by {
                                if i < old_docids.len() {
                                } else {
                                    assert(valid_scores@[i]@ == rule_scores@);
                                }
                            }
                            assert forall|x: u32| valid_docids@.to_set().contains(x)
                                implies processed.contains(x) by {
                                let j = choose|j: int|
                                    0 <= j < valid_docids@.len() && valid_docids@[j] == x;
                                if j < old_docids.len() {
                                    assert(old_docids[j] == x);
                                    assert(old_docids.to_set().contains(x));
                                } else {
                                    assert(eff.contains(x));
                                }
                            }
                            assert forall|i: int| 0 <= i < nr
                                implies processed.disjoint(
                                bm_elems(#[trigger] universes@[i])) by {
                                assert forall|x: u32| processed.contains(x)
                                    implies !bm_elems(universes@[i]).contains(x) by {
                                    if processed_pre.contains(x) {
                                        assert(!views0[i].contains(x));
                                        assert(views1[i].subset_of(views0[i]));
                                    } else {
                                        assert(eff.contains(x));
                                        assert(bset.contains(x));
                                        assert(bm_elems(universes@[i]).subset_of(views1[i]));
                                    }
                                }
                            }
                            assert(processed.subset_of(uset));
                            // offset accounting: the new offset counts the processed
                            // ids plus this bucket's effective candidates
                            lemma_set_disjoint_lens(processed_pre, eff);
                            assert(processed_pre + eff =~= processed_pre.union(eff));
                            assert(cur_offset == processed_pre.len() + eff.len());
                            assert(views1 =~~= views0.update(k0, views0[k0].difference(bset)));
                            assert forall|i: int| 0 <= i < nr
                                implies #[trigger] views_of(universes@)[i] == views1[i].difference(
                                excl) by {
                                assert(bm_elems(universes@[i]) == views1[i].difference(excl));
                            }
                            if distinct_fid is None {
                                lemma_offset_conservation(
                                    false,
                                    dmap,
                                    uset,
                                    views0,
                                    views1,
                                    views_of(universes@),
                                    k0,
                                    bset,
                                    eff,
                                    excl,
                                    processed_pre,
                                    processed,
                                );
                                if from == 0 && valid_docids@.len() != length {
                                    assert(old_docids.to_set() == processed_pre);
                                    assert(valid_docids@.to_set() =~= processed);
                                }
                            } else {
                                if from == 0 && valid_docids@.len() != length {
                                    assert(old_docids.to_set() == processed_pre);
                                    assert(valid_docids@.to_set() =~= processed);
                                }
                                lemma_offset_conservation(
                                    true,
                                    dmap,
                                    uset,
                                    views0,
                                    views1,
                                    views_of(universes@),
                                    k0,
                                    bset,
                                    eff,
                                    excl,
                                    processed_pre,
                                    processed,
                                );
                            }
                        }
                        rule_scores.pop();
                    } else {
                        // descend: break this bucket's ties one level down
                        k = k + 1;
                        proof {
                            assert(bm_elems(universes@[k as int]).is_empty());
                        }
                        bm_clear(&mut universes[k]);
                        proof {
                            assert(views_of(universes@) =~= views1);
                        }
                        bm_or_assign(&mut universes[k], &next_bucket.candidates);
                        proof {
                            assert(Set::<u32>::empty().union(bset) =~= bset);
                            assert(views_of(universes@) =~= views1.update(k as int, bset));
                            lemma_stack_weight_update(views1, k as int, bset);
                            let b = bset.len() as int;
                            let c = views0.len() - k0;
                            assert(views1[k as int].len() == 0);
                            assert(b * c == b * (c - 1) + b) by (nonlinear_arith);
                            assert(stack_weight(views_of(universes@)) < stack_weight(views0));
                        }
                        ranking_rules[k].start_iteration(&next_bucket.candidates);
                        proof {
                            assert(bm_elems(universes@[k as int]) == bset);
                            assert(uset.subset_of(old(ranking_rules)@[k as int].coverage()));
                            assert(ranking_rules@[k as int].defn == old(
                                ranking_rules,
                            )@[k as int].defn);
                            assert(bm_elems(universes@[k as int]).subset_of(
                                coverage_from(ranking_rules@[k as int].defn@, 0),
                            ));
                            assert forall|i: int, j: int| 0 <= i < j < nr
                                implies bm_elems(#[trigger] universes@[i]).disjoint(
                                bm_elems(#[trigger] universes@[j])) by {
                                if j == k as int {
                                    if i == k0 {
                                        assert(bm_elems(universes@[i]) == views0[k0].difference(
                                            bset,
                                        ));
                                    } else {
                                        assert(bm_elems(universes@[i]) == views0[i]);
                                        assert(views0[i].disjoint(views0[k0]));
                                        assert(bset.subset_of(views0[k0]));
                                    }
                                } else if i == k as int {
                                    assert(bm_elems(universes@[j]).is_empty());
                                } else {
                                    assert(bm_elems(universes@[i]) == views1[i]);
                                    assert(bm_elems(universes@[j]) == views1[j]);
                                }
                            }
                            assert forall|i: int| 0 <= i < nr
                                implies processed.disjoint(
                                bm_elems(#[trigger] universes@[i])) by {
                                if i == k as int {
                                    assert(bset.subset_of(views0[k0]));
                                    assert(processed.disjoint(views0[k0]));
                                } else {
                                    assert(bm_elems(universes@[i]).subset_of(views0[i]));
                                }
                            }
                            match distinct_fid {
                                Some(fid) => {
                                    let m = ctx.distinct_map(fid);
                                    assert forall|a: int, x: u32, i: int|
                                        0 <= a < valid_docids@.len() && #[trigger] same_value(
                                            m,
                                            valid_docids@[a],
                                            x,
                                        ) && 0 <= i < nr
                                        implies !bm_elems(
                                        #[trigger] universes@[i]).contains(x) by {
                                        if i == k as int {
                                            assert(!views0[k0].contains(x));
                                            assert(bset.subset_of(views0[k0]));
                                        } else {
                                            assert(!views0[i].contains(x));
                                            assert(bm_elems(universes@[i]).subset_of(
                                                views0[i],
                                            ));
                                        }
                                    }
                                },
                                None => {},
                            }
                            if distinct_fid is None {
                                assert forall|x: u32| uset.contains(x)
                                    implies processed.union(
                                    set_union_of(views_of(universes@))).contains(x) by {
                                    lemma_union_membership(views0, x);
                                    lemma_union_membership(views_of(universes@), x);
                                    if !processed.contains(x) {
                                        assert(processed.union(
                                            set_union_of(views0),
                                        ).contains(x));
                                        let i = choose|i: int|
                                            0 <= i < views0.len() && (#[trigger] views0[
                                                i]).contains(x);
                                        if i == k0 {
                                            if bset.contains(x) {
                                                assert(views_of(universes@)[
                                                    k as int].contains(x));
                                            } else {
                                                assert(views1[k0].contains(x));
                                                assert(views_of(universes@)[k0].contains(
                                                    x,
                                                ));
                                            }
                                        } else {
                                            assert(views1[i].contains(x));
                                            assert(views_of(universes@)[i].contains(x));
                                        }
                                    }
                                }
                                assert forall|x: u32|
                                    processed.union(
                                        set_union_of(views_of(universes@)),
                                    ).contains(x)
                                    implies uset.contains(x) by {
                                    lemma_union_membership(views_of(universes@), x);
                                    if !processed.contains(x) {
                                        let i = choose|i: int|
                                            0 <= i < views_of(universes@).len() && (
                                            #[trigger] views_of(universes@)[i]).contains(
                                                x,
                                            );
                                        if i == k as int {
                                            assert(bset.subset_of(views0[k0]));
                                        } else {
                                            assert(views1[i].contains(x));
                                            assert(views0[i].contains(x));
                                        }
                                    }
                                }
                                assert(processed.union(set_union_of(views_of(universes@)))
                                    =~= uset);
                            }
                            match distinct_fid {
                                Some(fid) => {
                                    let m = ctx.distinct_map(fid);
                                    assert forall|x: u32| uset.contains(x)
                                        implies processed.union(
                                        set_union_of(views_of(universes@)),
                                    ).union(value_class(m, processed)).contains(x) by {
                                        lemma_union_membership(views0, x);
                                        lemma_union_membership(views_of(universes@), x);
                                        if !processed.contains(x) && !value_class(
                                            m,
                                            processed,
                                        ).contains(x) {
                                            let i = choose|i: int|
                                                0 <= i < views0.len() && (
                                                #[trigger] views0[i]).contains(x);
                                            if i == k0 {
                                                if bset.contains(x) {
                                                    assert(views_of(universes@)[
                                                        k as int].contains(x));
                                                } else {
                                                    assert(views1[k0].contains(x));
                                                    assert(views_of(universes@)[
                                                        k0].contains(x));
                                                }
                                            } else {
                                                assert(views1[i].contains(x));
                                                assert(views_of(universes@)[i].contains(
                                                    x,
                                                ));
                                            }
                                        }
                                    }
                                    assert forall|p: u32, x: u32, i: int|
                                        processed.contains(p) && #[trigger] same_value(
                                            m,
                                            p,
                                            x,
                                        ) && x != p && 0 <= i < nr
                                        implies !bm_elems(
                                        #[trigger] universes@[i]).contains(x) by {
                                        assert(!views0[i].contains(x));
                                        if i == k as int {
                                            assert(bm_elems(universes@[i]) == bset);
                                            assert(bset.subset_of(views0[k0]));
                                            assert(!views0[k0].contains(x));
                                        } else {
                                            assert(bm_elems(universes@[i]).subset_of(
                                                views0[i],
                                            ));
                                        }
                                    }
                                },
                                None => {},
                            }
                        }
                    }
                },
            }
        }
    }

    proof {
        lemma_len_subset(processed, uset);
        match distinct_fid {
            Some(fid) => {
                let m = ctx.distinct_map(fid);
                let rset = distinct_remaining(m, uset);
                lemma_remaining_is_cover(m, uset);
                lemma_distinct_reps_le(m, uset, processed, rset);
            },
            None => {},
        }
    }
    BucketSortOutput { docids: valid_docids, scores: valid_scores, all_candidates }
}

} // verus!
