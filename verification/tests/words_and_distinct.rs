//! Unit scenarios for the words rule, the distinct filter, the interner and
//! the search context.

use roaring::RoaringBitmap;
use milli::bucket_sort::bucket_sort;
use milli::context::{SearchCtx, FacetEntry, word_docids, facet_value};
use milli::distinct::{apply_distinct_rule, distinct_single_docid};
use milli::interner::DedupInterner;
use milli::ranking_rules::RankingRule;
use milli::score::{Rank, ScoreDetails, ScoringStrategy};
use milli::words::{
    LocatedQueryTermSubset, WordsCondition, WordsGraph, compute_query_term_subset_docids,
    words_rule, resolve_universe, lqts_eq, clone_lqts,
};

fn bm(ids: &[u32]) -> RoaringBitmap {
    let mut b = RoaringBitmap::new();
    for &x in ids {
        b.insert(x);
    }
    b
}

fn subset(words: &[u32], start: u16, end: u16) -> LocatedQueryTermSubset {
    LocatedQueryTermSubset { words: words.to_vec(), start_pos: start, end_pos: end }
}

// docs: 1 "bobby buddy", 2 "bobby", 3 "buddy"; word 0 is "bobby", 1 "buddy"
fn bobby_ctx() -> SearchCtx {
    SearchCtx {
        postings: vec![(0, bm(&[1, 2])), (1, bm(&[1, 3]))],
        distinct_fid: None,
        facets: Vec::new(),
    }
}

#[test]
fn single_words_rule_drops_non_matching_docs() {
    let ctx = bobby_ctx();
    let terms = vec![subset(&[0], 0, 0)];
    let universe = resolve_universe(&ctx, &terms);
    assert_eq!(universe, bm(&[1, 2]));
    let mut rules = vec![words_rule(&ctx, &terms)];
    let out = bucket_sort(&ctx, &mut rules, &universe, 0, 10, ScoringStrategy::Default);
    // doc 3 drops out: it does not contain the queried word
    assert_eq!(out.docids, vec![1, 2]);
    for s in &out.scores {
        assert_eq!(s.as_slice(), &[ScoreDetails::Words(Rank { rank: 1, max_rank: 1 })]);
    }
    assert_eq!(out.all_candidates, bm(&[1, 2]));
}

#[test]
fn words_rule_ranks_docs_with_more_terms_first() {
    let ctx = bobby_ctx();
    let terms = vec![subset(&[0], 0, 0), subset(&[1], 1, 1)];
    let universe = resolve_universe(&ctx, &terms);
    assert_eq!(universe, bm(&[1, 2]));
    let mut rules = vec![words_rule(&ctx, &terms)];
    let out = bucket_sort(&ctx, &mut rules, &universe, 0, 10, ScoringStrategy::Default);
    // doc 1 holds both words, doc 2 only the first
    assert_eq!(out.docids, vec![1, 2]);
    assert_eq!(
        out.scores[0].as_slice(),
        &[ScoreDetails::Words(Rank { rank: 2, max_rank: 2 })],
    );
    assert_eq!(
        out.scores[1].as_slice(),
        &[ScoreDetails::Words(Rank { rank: 1, max_rank: 2 })],
    );
    assert_eq!(rules[0].id(), "words");
}

#[test]
fn term_subset_docids_are_the_union_of_the_variants() {
    let ctx = SearchCtx {
        postings: vec![(7, bm(&[1, 4])), (9, bm(&[2]))],
        distinct_fid: None,
        facets: Vec::new(),
    };
    let s = subset(&[7, 9], 0, 0);
    assert_eq!(compute_query_term_subset_docids(&ctx, &s), bm(&[1, 2, 4]));
    // a missing word never fails: it resolves to no documents
    let missing = subset(&[8], 0, 0);
    assert!(compute_query_term_subset_docids(&ctx, &missing).is_empty());
    assert!(word_docids(&ctx, 8).is_empty());
    assert_eq!(word_docids(&ctx, 9), bm(&[2]));
}

#[test]
fn resolve_condition_restricts_to_the_universe() {
    let ctx = bobby_ctx();
    let condition = WordsCondition { term: subset(&[1], 1, 1) };
    let universe = bm(&[1, 2]);
    let computed = WordsGraph::resolve_condition(&ctx, &condition, &universe);
    // word 1 appears in docs 1 and 3; only 1 is in the universe
    assert_eq!(computed.docids, bm(&[1]));
    assert_eq!(computed.universe_len, 2);
    assert!(computed.start_term_subset.is_none());
    assert!(lqts_eq(&computed.end_term_subset, &condition.term));
}

#[test]
fn build_edges_makes_one_zero_cost_edge_and_interns() {
    let mut interner = DedupInterner::new();
    let t0 = subset(&[0], 0, 0);
    let t1 = subset(&[1], 1, 1);
    let e0 = WordsGraph::build_edges(&mut interner, None, &t0);
    let e1 = WordsGraph::build_edges(&mut interner, Some(&t0), &t1);
    let e2 = WordsGraph::build_edges(&mut interner, Some(&t1), &t0);
    assert_eq!(e0.len(), 1);
    assert_eq!(e0[0].0, 0);
    assert_eq!(e1[0].0, 0);
    // the same condition is shared, a new one appended
    assert_eq!(e2[0].1.idx, e0[0].1.idx);
    assert_ne!(e1[0].1.idx, e0[0].1.idx);
    assert_eq!(interner.items.len(), 2);
}

#[test]
fn rank_to_score_tags_the_words_kind() {
    let rank = Rank { rank: 3, max_rank: 5 };
    assert_eq!(WordsGraph::rank_to_score(rank), ScoreDetails::Words(rank));
}

#[test]
fn term_subset_copies_compare_equal() {
    let a = subset(&[3, 5], 0, 1);
    let b = clone_lqts(&a);
    assert!(lqts_eq(&a, &b));
    let c = subset(&[3, 6], 0, 1);
    let d = subset(&[3, 5], 0, 2);
    assert!(!lqts_eq(&a, &c));
    assert!(!lqts_eq(&a, &d));
}

fn color_ctx() -> SearchCtx {
    SearchCtx {
        postings: Vec::new(),
        distinct_fid: Some(1),
        facets: vec![
            FacetEntry { fid: 1, docid: 2, value: 5 },
            FacetEntry { fid: 1, docid: 4, value: 5 },
            FacetEntry { fid: 1, docid: 6, value: 6 },
            FacetEntry { fid: 1, docid: 8, value: 5 },
            FacetEntry { fid: 2, docid: 2, value: 9 },
        ],
    }
}

#[test]
fn apply_distinct_keeps_the_smallest_of_each_value() {
    let ctx = color_ctx();
    let out = apply_distinct_rule(&ctx, 1, &bm(&[2, 4, 6, 8, 10]));
    // 2 wins its value class; 6 is alone; 10 holds no value
    assert_eq!(out.remaining, bm(&[2, 6, 10]));
    // the excluded set carries the whole value classes of the survivors
    assert_eq!(out.excluded, bm(&[2, 4, 6, 8]));
}

#[test]
fn apply_distinct_is_idempotent_on_its_own_output() {
    let ctx = color_ctx();
    let first = apply_distinct_rule(&ctx, 1, &bm(&[2, 4, 6, 8, 10]));
    let again = apply_distinct_rule(&ctx, 1, &first.remaining);
    assert_eq!(again.remaining, first.remaining);
}

#[test]
fn distinct_single_docid_collects_the_value_class() {
    let ctx = color_ctx();
    let mut excluded = bm(&[100]);
    distinct_single_docid(&ctx, 1, 4, &mut excluded);
    // every document sharing the value of doc 4, itself included
    assert_eq!(excluded, bm(&[2, 4, 8, 100]));
    // a document without a value for the field excludes nothing
    let mut untouched = bm(&[100]);
    distinct_single_docid(&ctx, 1, 10, &mut untouched);
    assert_eq!(untouched, bm(&[100]));
}

#[test]
fn facet_value_reads_the_right_field() {
    let ctx = color_ctx();
    assert_eq!(facet_value(&ctx, 1, 2), Some(5));
    assert_eq!(facet_value(&ctx, 2, 2), Some(9));
    assert_eq!(facet_value(&ctx, 1, 10), None);
}

#[test]
fn words_rule_with_distinct_field() {
    // one word matching four documents, two of which share a color
    let ctx = SearchCtx {
        postings: vec![(0, bm(&[1, 2, 3, 4]))],
        distinct_fid: Some(0),
        facets: vec![
            FacetEntry { fid: 0, docid: 1, value: 1 },
            FacetEntry { fid: 0, docid: 3, value: 1 },
            FacetEntry { fid: 0, docid: 2, value: 2 },
            FacetEntry { fid: 0, docid: 4, value: 3 },
        ],
    };
    let terms = vec![subset(&[0], 0, 0)];
    let universe = resolve_universe(&ctx, &terms);
    let mut rules = vec![words_rule(&ctx, &terms)];
    let out = bucket_sort(&ctx, &mut rules, &universe, 0, 10, ScoringStrategy::Default);
    assert_eq!(out.docids, vec![1, 2, 4]);
    assert_eq!(out.scores.len(), 3);
}

#[test]
fn exhausted_rule_reports_no_bucket_on_an_empty_universe() {
    let mut rule = RankingRule::new(
        "first".to_string(),
        vec![milli::ranking_rules::BucketDef {
            score: ScoreDetails::Words(Rank { rank: 1, max_rank: 1 }),
            docids: bm(&[1, 2]),
        }],
    );
    rule.start_iteration(&bm(&[1, 2]));
    let first = rule.next_bucket(&bm(&[1, 2]));
    assert!(first.is_some());
    let b = first.unwrap();
    assert_eq!(b.candidates, bm(&[1, 2]));
    // once everything was emitted the leftover universe is empty, and only
    // then does the rule answer with no bucket
    let second = rule.next_bucket(&RoaringBitmap::new());
    assert!(second.is_none());
    rule.end_iteration();
    assert_eq!(rule.starts, 1);
}

#[test]
fn execute_words_search_pages_the_ranked_stream() {
    let ctx = bobby_ctx();
    let terms = vec![subset(&[0], 0, 0), subset(&[1], 1, 1)];
    let out = milli::words::execute_words_search(&ctx, &terms, 0, 10, ScoringStrategy::Default);
    assert_eq!(out.docids, vec![1, 2]);
    assert_eq!(out.scores.len(), 2);
    let empty_query: Vec<LocatedQueryTermSubset> = Vec::new();
    let none =
        milli::words::execute_words_search(&ctx, &empty_query, 0, 10, ScoringStrategy::Default);
    assert!(none.docids.is_empty());
    assert!(none.all_candidates.is_empty());
}

#[test]
fn empty_universe_yields_an_empty_page() {
    let ctx = SearchCtx { postings: Vec::new(), distinct_fid: None, facets: Vec::new() };
    let universe = RoaringBitmap::new();
    let mut rules: Vec<RankingRule> = Vec::new();
    let out = bucket_sort(&ctx, &mut rules, &universe, 0, 5, ScoringStrategy::Default);
    assert!(out.docids.is_empty());
    assert!(out.scores.is_empty());
    assert!(out.all_candidates.is_empty());
}
