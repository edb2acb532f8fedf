//! The words ranking rule and its graph pieces.
//!
//! A located query-term subset names the word variants admitted at one
//! position of the query, with its span. The words rule ranks documents by
//! how many of the query's terms they contain: its best bucket holds the
//! documents matching every term, and successive buckets drop the last term
//! one by one.

use vstd::prelude::*;
use roaring::RoaringBitmap;
use crate::bitmap::{bm_elems, bm_new, bm_and, bm_or_assign, bm_len};
use crate::bucket_sort::{bucket_sort, BucketSortOutput};
use crate::context::{SearchCtx, word_docids};
use crate::distinct::same_value;
use crate::interner::{DedupInterner, Interned};
use crate::ranking_rules::{RankingRule, BucketDef, coverage_from};
use crate::score::{Rank, ScoreDetails, ScoringStrategy};
use vstd::string::StringExecFns;

verus! {

/// A node of the query graph: a chosen subset of the term variants at one
/// query position, with its span in the original query.
pub struct LocatedQueryTermSubset {
    /// Word ids of the variants this subset admits.
    pub words: Vec<u32>,
    /// First position of the span in the original query.
    pub start_pos: u16,
    /// Last position of the span in the original query.
    pub end_pos: u16,
}

/// Two term subsets admit the same words over the same span.
pub open spec fn lqts_equiv(a: LocatedQueryTermSubset, b: LocatedQueryTermSubset) -> bool {
    a.words@ == b.words@ && a.start_pos == b.start_pos && a.end_pos == b.end_pos
}

/// Decides `lqts_equiv`.
pub fn lqts_eq(a: &LocatedQueryTermSubset, b: &LocatedQueryTermSubset) -> (r: bool)
    ensures
        r == lqts_equiv(*a, *b),
{
    if a.start_pos != b.start_pos || a.end_pos != b.end_pos {
        return false;
    }
    let n = a.words.len();
    if n != b.words.len() {
        proof {
            assert(a.words@.len() != b.words@.len());
        }
        return false;
    }
    let mut i: usize = 0;
    while i < n
        invariant
            n == a.words@.len(),
            n == b.words@.len(),
            i <= n,
            forall|j: int| 0 <= j < i ==> a.words@[j] == b.words@[j],
        decreases n - i,
    {
        if a.words[i] != b.words[i] {
            return false;
        }
        i += 1;
    }
    proof {
        assert(a.words@ =~= b.words@);
    }
    true
}

/// Copies a term subset.
pub fn clone_lqts(s: &LocatedQueryTermSubset) -> (r: LocatedQueryTermSubset)
    ensures
        lqts_equiv(r, *s),
{
    let n = s.words.len();
    let mut words: Vec<u32> = Vec::new();
    let mut i: usize = 0;
    while i < n
        invariant
            n == s.words@.len(),
            i <= n,
            words@ == s.words@.take(i as int),
        decreases n - i,
    {
        words.push(s.words[i]);
        proof {
            assert(s.words@.take(i as int).push(s.words@[i as int]) =~= s.words@.take(
                i + 1 as int,
            ));
        }
        i += 1;
    }
    proof {
        assert(s.words@.take(n as int) =~= s.words@);
    }
    LocatedQueryTermSubset { words, start_pos: s.start_pos, end_pos: s.end_pos }
}

/// Documents containing any of the words, in query order.
pub open spec fn union_docids(ctx: SearchCtx, words: Seq<u32>) -> Set<u32>
    decreases words.len(),
{
    if words.len() == 0 {
        Set::empty()
    } else {
        union_docids(ctx, words.drop_last()).union(ctx.posting_ids(words.last()))
    }
}

/// Documents matching a term subset: those containing any admitted variant.
pub open spec fn subset_docids(ctx: SearchCtx, s: LocatedQueryTermSubset) -> Set<u32> {
    union_docids(ctx, s.words@)
}

/// Resolves a term subset to its document set.
pub fn compute_query_term_subset_docids(
    ctx: &SearchCtx,
    term_subset: &LocatedQueryTermSubset,
) -> (r: RoaringBitmap)
    requires
        ctx.wf(),
    ensures
        bm_elems(r) == subset_docids(*ctx, *term_subset),
        bm_elems(r).finite(),
{
    let n = term_subset.words.len();
    let mut docids = bm_new();
    let mut i: usize = 0;
    while i < n
        invariant
            ctx.wf(),
            n == term_subset.words@.len(),
            i <= n,
            bm_elems(docids) == union_docids(*ctx, term_subset.words@.take(i as int)),
            bm_elems(docids).finite(),
        decreases n - i,
    {
        let w = word_docids(ctx, term_subset.words[i]);
        bm_or_assign(&mut docids, &w);
        proof {
            assert(term_subset.words@.take(i + 1 as int).drop_last() =~= term_subset.words@
                .take(i as int));
            assert(term_subset.words@.take(i + 1 as int).last() == term_subset.words@[
                i as int]);
        }
        i += 1;
    }
    proof {
        assert(term_subset.words@.take(n as int) =~= term_subset.words@);
    }
    docids
}

/// A resolved edge condition: the documents it admits within a universe.
pub struct ComputedCondition {
    pub docids: RoaringBitmap,
    pub universe_len: u64,
    pub start_term_subset: Option<LocatedQueryTermSubset>,
    pub end_term_subset: LocatedQueryTermSubset,
}

/// The condition a words edge carries: the term subset it requires.
pub struct WordsCondition {
    pub term: LocatedQueryTermSubset,
}

/// The words flavor of the ranking-rule graph.
pub struct WordsGraph;

impl WordsGraph {
    /// Resolves a words condition within `universe`: the documents of the
    /// universe containing the condition's term.
    pub fn resolve_condition(
        ctx: &SearchCtx,
        condition: &WordsCondition,
        universe: &RoaringBitmap,
    ) -> (r: ComputedCondition)
        requires
            ctx.wf(),
        ensures
            bm_elems(r.docids) == subset_docids(*ctx, condition.term).intersect(
                bm_elems(*universe),
            ),
            bm_elems(r.docids).finite(),
            r.universe_len == bm_elems(*universe).len(),
            r.start_term_subset is None,
            lqts_equiv(r.end_term_subset, condition.term),
    {
        let docids = compute_query_term_subset_docids(ctx, &condition.term);
        let docids = bm_and(&docids, universe);
        ComputedCondition {
            docids,
            universe_len: bm_len(universe),
            start_term_subset: None,
            end_term_subset: clone_lqts(&condition.term),
        }
    }

    /// One edge per located term subset, always of cost zero: matching the
    /// term is all the words rule asks of a document. The condition is
    /// interned: an equal condition hands back the handle of the first equal
    /// arena entry with the arena unchanged, and a new one is appended.
    pub fn build_edges(
        conditions_interner: &mut DedupInterner,
        _from_term: Option<&LocatedQueryTermSubset>,
        to_term: &LocatedQueryTermSubset,
    ) -> (r: Vec<(u32, Interned)>)
        ensures
            r@.len() == 1,
            r@[0].0 == 0,
            r@[0].1.idx < final(conditions_interner).items@.len(),
            lqts_equiv(
                final(conditions_interner).items@[r@[0].1.idx as int].term,
                *to_term,
            ),
            forall|j: int|
                0 <= j < r@[0].1.idx ==> !lqts_equiv(
                    (#[trigger] old(conditions_interner).items@[j]).term,
                    *to_term,
                ),
            (exists|j: int|
                0 <= j < old(conditions_interner).items@.len() && lqts_equiv(
                    (#[trigger] old(conditions_interner).items@[j]).term,
                    *to_term,
                )) ==> final(conditions_interner).items@ == old(
                conditions_interner,
            ).items@ && r@[0].1.idx < old(conditions_interner).items@.len(),
            !(exists|j: int|
                0 <= j < old(conditions_interner).items@.len() && lqts_equiv(
                    (#[trigger] old(conditions_interner).items@[j]).term,
                    *to_term,
                )) ==> final(conditions_interner).items@.len() == old(
                conditions_interner,
            ).items@.len() + 1 && final(conditions_interner).items@.subrange(
                0,
                old(conditions_interner).items@.len() as int,
            ) == old(conditions_interner).items@ && r@[0].1.idx == old(
                conditions_interner,
            ).items@.len(),
    {
        let cond = WordsCondition { term: clone_lqts(to_term) };
        let ghost cterm = cond.term;
        let handle = conditions_interner.insert(cond);
        proof {
            assert forall|j: int| 0 <= j < old(conditions_interner).items@.len()
                implies lqts_equiv(
                (#[trigger] old(conditions_interner).items@[j]).term,
                cterm,
            ) == lqts_equiv(old(conditions_interner).items@[j].term, *to_term) by {}
            if !(exists|j: int|
                0 <= j < old(conditions_interner).items@.len() && lqts_equiv(
                    (#[trigger] old(conditions_interner).items@[j]).term,
                    *to_term,
                )) {
                assert(conditions_interner.items@ == old(
                    conditions_interner,
                ).items@.push(WordsCondition { term: cterm }));
                assert(conditions_interner.items@.subrange(
                    0,
                    old(conditions_interner).items@.len() as int,
                ) =~= old(conditions_interner).items@);
            }
        }
        let mut r: Vec<(u32, Interned)> = Vec::new();
        r.push((0, handle));
        r
    }

    /// Lifts a words rank into its score entry.
    pub fn rank_to_score(rank: Rank) -> (r: ScoreDetails)
        ensures
            r == ScoreDetails::Words(rank),
    {
        ScoreDetails::Words(rank)
    }
}

/// Documents matching the first `k` terms of the query, all of them at once.
pub open spec fn words_docids_upto(
    ctx: SearchCtx,
    terms: Seq<LocatedQueryTermSubset>,
    k: int,
) -> Set<u32>
    decreases k,
{
    if k <= 0 || k > terms.len() {
        Set::empty()
    } else if k == 1 {
        subset_docids(ctx, terms[0])
    } else {
        words_docids_upto(ctx, terms, k - 1).intersect(subset_docids(ctx, terms[k - 1]))
    }
}

proof fn lemma_upto_subset_one(ctx: SearchCtx, terms: Seq<LocatedQueryTermSubset>, k: int)
    requires
        1 <= k <= terms.len(),
    ensures
        words_docids_upto(ctx, terms, k).subset_of(words_docids_upto(ctx, terms, 1)),
    decreases k,
{
    if k > 1 {
        lemma_upto_subset_one(ctx, terms, k - 1);
    }
}

proof fn lemma_words_cov(
    ctx: SearchCtx,
    terms: Seq<LocatedQueryTermSubset>,
    defn: Seq<BucketDef>,
    i: int,
)
    requires
        defn.len() == terms.len(),
        0 <= i < defn.len(),
        forall|j: int|
            0 <= j < defn.len() ==> bm_elems((#[trigger] defn[j]).docids) == words_docids_upto(
                ctx,
                terms,
                defn.len() - j,
            ),
    ensures
        coverage_from(defn, i) == words_docids_upto(ctx, terms, 1),
    decreases defn.len() - i,
{
    lemma_upto_subset_one(ctx, terms, defn.len() - i);
    if i == defn.len() - 1 {
        assert(coverage_from(defn, i + 1) =~= Set::<u32>::empty());
        assert(coverage_from(defn, i) =~= words_docids_upto(ctx, terms, 1));
    } else {
        lemma_words_cov(ctx, terms, defn, i + 1);
        assert(coverage_from(defn, i) =~= words_docids_upto(ctx, terms, 1));
    }
}

/// Builds the words ranking rule for a query: bucket `i` holds the
/// documents matching all but the last `i` terms, ranked by how many terms
/// still match.
pub fn words_rule(ctx: &SearchCtx, terms: &Vec<LocatedQueryTermSubset>) -> (r: RankingRule)
    requires
        ctx.wf(),
        terms@.len() <= u32::MAX,
    ensures
        r.defn@.len() == terms@.len(),
        forall|i: int|
            0 <= i < r.defn@.len() ==> bm_elems((#[trigger] r.defn@[i]).docids)
                == words_docids_upto(*ctx, terms@, terms@.len() - i),
        forall|i: int|
            0 <= i < r.defn@.len() ==> (#[trigger] r.defn@[i]).score == ScoreDetails::Words(
                Rank { rank: (terms@.len() - i) as u32, max_rank: terms@.len() as u32 },
            ),
        r.cursor == 0,
        !r.active,
        r.starts == 0,
        terms@.len() > 0 ==> r.coverage() == words_docids_upto(*ctx, terms@, 1),
        terms@.len() == 0 ==> r.coverage() == Set::<u32>::empty(),
        r.name@ == "words"@,
{
    let n = terms.len();
    let mut defn: Vec<BucketDef> = Vec::new();
    let mut i: usize = 0;
    while i < n
        invariant
            ctx.wf(),
            n == terms@.len(),
            n <= u32::MAX,
            i <= n,
            defn@.len() == i,
            forall|q: int|
                0 <= q < i ==> bm_elems((#[trigger] defn@[q]).docids) == words_docids_upto(
                    *ctx,
                    terms@,
                    n - q,
                ),
            forall|q: int|
                0 <= q < i ==> (#[trigger] defn@[q]).score == ScoreDetails::Words(
                    Rank { rank: (n - q) as u32, max_rank: n as u32 },
                ),
        decreases n - i,
    {
        let kk = n - i;
        let mut docids = compute_query_term_subset_docids(ctx, &terms[0]);
        let mut j: usize = 1;
        while j < kk
            invariant
                ctx.wf(),
                n == terms@.len(),
                1 <= kk <= n,
                1 <= j <= kk,
                bm_elems(docids) == words_docids_upto(*ctx, terms@, j as int),
            decreases kk - j,
        {
            let tdocs = compute_query_term_subset_docids(ctx, &terms[j]);
            docids = bm_and(&docids, &tdocs);
            j += 1;
        }
        defn.push(
            BucketDef {
                score: ScoreDetails::Words(Rank { rank: kk as u32, max_rank: n as u32 }),
                docids,
            },
        );
        i += 1;
    }
    let r = RankingRule::new(String::from_str("words"), defn);
    proof {
        if terms@.len() > 0 {
            lemma_words_cov(*ctx, terms@, r.defn@, 0);
        } else {
            assert(r.coverage() =~= Set::<u32>::empty());
        }
    }
    r
}

/// Resolves the universe a words query retrieves over: the documents
/// containing the query's first term, which is everything any words bucket
/// can emit.
pub fn resolve_universe(ctx: &SearchCtx, terms: &Vec<LocatedQueryTermSubset>) -> (r:
    RoaringBitmap)
    requires
        ctx.wf(),
    ensures
        terms@.len() > 0 ==> bm_elems(r) == words_docids_upto(*ctx, terms@, 1),
        terms@.len() == 0 ==> bm_elems(r) == Set::<u32>::empty(),
        bm_elems(r).finite(),
{
    if terms.len() == 0 {
        bm_new()
    } else {
        compute_query_term_subset_docids(ctx, &terms[0])
    }
}

/// The universe a words query retrieves over: the documents containing the
/// query's first term.
pub open spec fn words_universe(ctx: SearchCtx, terms: Seq<LocatedQueryTermSubset>) -> Set<
    u32,
> {
    if terms.len() == 0 {
        Set::empty()
    } else {
        words_docids_upto(ctx, terms, 1)
    }
}

/// Runs a words query end to end: resolves the universe it retrieves over,
/// builds the words rule, and pages the ranked stream through the
/// bucket-sort driver.
pub fn execute_words_search(
    ctx: &SearchCtx,
    terms: &Vec<LocatedQueryTermSubset>,
    from: usize,
    length: usize,
    scoring_strategy: ScoringStrategy,
) -> (out: BucketSortOutput)
    requires
        ctx.wf(),
        terms@.len() <= u32::MAX,
        from + length <= usize::MAX,
        words_universe(*ctx, terms@).len() <= usize::MAX,
    ensures
        out.docids@.len() == out.scores@.len(),
        out.docids@.len() <= length,
        forall|i: int|
            0 <= i < out.docids@.len() ==> words_universe(*ctx, terms@).contains(
                #[trigger] out.docids@[i],
            ),
        forall|i: int, j: int|
            0 <= i < j < out.docids@.len() ==> #[trigger] out.docids@[i]
                != #[trigger] out.docids@[j],
        forall|i: int|
            0 <= i < out.docids@.len() ==> bm_elems(out.all_candidates).contains(
                #[trigger] out.docids@[i],
            ),
        bm_elems(out.all_candidates).subset_of(words_universe(*ctx, terms@)),
        bm_elems(out.all_candidates).finite(),
        forall|i: int| 0 <= i < out.scores@.len() ==> (#[trigger] out.scores@[i])@.len() <= 1,
        (match ctx.distinct_fid {
            Some(fid) => forall|i: int, j: int|
                0 <= i < out.docids@.len() && 0 <= j < out.docids@.len() && i != j
                    ==> !same_value(ctx.distinct_map(fid), out.docids@[i], out.docids@[j]),
            None => true,
        }),
        (ctx.distinct_fid is None && from == 0) ==> (out.docids@.len() == length
            || out.docids@.to_set() == words_universe(*ctx, terms@)),
        ctx.distinct_fid is None ==> out.docids@.len() == ({
            let u = words_universe(*ctx, terms@).len();
            if u <= from {
                0
            } else if u - from <= length {
                u - from
            } else {
                length as int
            }
        }),
        (match ctx.distinct_fid {
            Some(fid) => from == 0 ==> (out.docids@.len() == length || words_universe(
                *ctx,
                terms@,
            ).subset_of(
                out.docids@.to_set().union(
                    crate::distinct::value_class(
                        ctx.distinct_map(fid),
                        out.docids@.to_set(),
                    ),
                ),
            )),
            None => true,
        }),
        (match ctx.distinct_fid {
            Some(fid) => out.docids@.len() == ({
                let s = crate::distinct::distinct_remaining(
                    ctx.distinct_map(fid),
                    words_universe(*ctx, terms@),
                ).len();
                if s <= from {
                    0
                } else if s - from <= length {
                    s - from
                } else {
                    length as int
                }
            }),
            None => true,
        }),
{
    let universe = resolve_universe(ctx, terms);
    let rule = words_rule(ctx, terms);
    let mut rules: Vec<RankingRule> = Vec::new();
    rules.push(rule);
    proof {
        assert(bm_elems(universe) == words_universe(*ctx, terms@));
        assert forall|i: int| 0 <= i < rules@.len()
            implies bm_elems(universe).subset_of((#[trigger] rules@[i]).coverage()) by {
            if terms@.len() == 0 {
                assert(bm_elems(universe) =~= Set::<u32>::empty());
            }
        }
    }
    bucket_sort(ctx, &mut rules, &universe, from, length, scoring_strategy)
}

} // verus!
