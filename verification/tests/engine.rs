//! End-to-end scenarios for the bucket-sort driver.

use roaring::RoaringBitmap;
use milli::bucket_sort::bucket_sort;
use milli::context::{SearchCtx, FacetEntry};
use milli::ranking_rules::{RankingRule, BucketDef};
use milli::score::{Rank, ScoreDetails, ScoringStrategy};

fn bm(ids: &[u32]) -> RoaringBitmap {
    let mut b = RoaringBitmap::new();
    for &x in ids {
        b.insert(x);
    }
    b
}

fn plain_ctx() -> SearchCtx {
    SearchCtx { postings: Vec::new(), distinct_fid: None, facets: Vec::new() }
}

#[test]
fn empty_rules_no_distinct_pages_ascending() {
    let ctx = plain_ctx();
    let universe = bm(&[3, 7, 9, 15]);
    let mut rules: Vec<RankingRule> = Vec::new();
    let out = bucket_sort(&ctx, &mut rules, &universe, 1, 2, ScoringStrategy::Default);
    assert_eq!(out.docids, vec![7, 9]);
    assert_eq!(out.scores.len(), 2);
    assert!(out.scores.iter().all(|s| s.is_empty()));
    assert_eq!(out.all_candidates, bm(&[3, 7, 9, 15]));
}

#[test]
fn empty_rules_distinct_keeps_one_per_color() {
    // colors: 3, 9 and 15 share one color, 7 has another
    let ctx = SearchCtx {
        postings: Vec::new(),
        distinct_fid: Some(0),
        facets: vec![
            FacetEntry { fid: 0, docid: 3, value: 1 },
            FacetEntry { fid: 0, docid: 7, value: 2 },
            FacetEntry { fid: 0, docid: 9, value: 1 },
            FacetEntry { fid: 0, docid: 15, value: 1 },
        ],
    };
    let universe = bm(&[3, 7, 9, 15]);
    let mut rules: Vec<RankingRule> = Vec::new();
    let out = bucket_sort(&ctx, &mut rules, &universe, 0, 3, ScoringStrategy::Default);
    assert_eq!(out.docids, vec![3, 7]);
    assert_eq!(out.scores.len(), 2);
    assert!(out.scores.iter().all(|s| s.is_empty()));
    assert_eq!(out.all_candidates, bm(&[3, 7]));
}

#[test]
fn offset_past_universe_returns_nothing() {
    let ctx = plain_ctx();
    let universe = bm(&[1, 2, 3]);
    let mut rules: Vec<RankingRule> = Vec::new();
    let out = bucket_sort(&ctx, &mut rules, &universe, 5, 2, ScoringStrategy::Default);
    assert!(out.docids.is_empty());
    assert!(out.scores.is_empty());
    assert_eq!(out.all_candidates, bm(&[1, 2, 3]));
}

#[test]
fn two_rules_words_then_typo() {
    // docs: 1 matches the word exactly, 2 with one typo, 3 with two
    let ctx = SearchCtx {
        postings: vec![(0, bm(&[1])), (1, bm(&[2])), (2, bm(&[3]))],
        distinct_fid: None,
        facets: Vec::new(),
    };
    let words = RankingRule::new(
        "words".to_string(),
        vec![BucketDef {
            score: ScoreDetails::Words(Rank { rank: 1, max_rank: 1 }),
            docids: bm(&[1, 2, 3]),
        }],
    );
    let typo = RankingRule::new(
        "typo".to_string(),
        vec![
            BucketDef {
                score: ScoreDetails::Typo(Rank { rank: 0, max_rank: 2 }),
                docids: bm(&[1]),
            },
            BucketDef {
                score: ScoreDetails::Typo(Rank { rank: 1, max_rank: 2 }),
                docids: bm(&[2]),
            },
            BucketDef {
                score: ScoreDetails::Typo(Rank { rank: 2, max_rank: 2 }),
                docids: bm(&[3]),
            },
        ],
    );
    let universe = bm(&[1, 2, 3]);
    let mut rules = vec![words, typo];
    let out = bucket_sort(&ctx, &mut rules, &universe, 0, 10, ScoringStrategy::Default);
    assert_eq!(out.docids, vec![1, 2, 3]);
    assert_eq!(out.scores.len(), 3);
    for (i, s) in out.scores.iter().enumerate() {
        assert_eq!(s.len(), 2);
        assert_eq!(s[0], ScoreDetails::Words(Rank { rank: 1, max_rank: 1 }));
        assert_eq!(s[1], ScoreDetails::Typo(Rank { rank: i as u32, max_rank: 2 }));
    }
    assert_eq!(out.all_candidates, bm(&[1, 2, 3]));
}

#[test]
fn skip_strategy_single_candidate_never_descends() {
    let ctx = plain_ctx();
    let first = RankingRule::new(
        "first".to_string(),
        vec![
            BucketDef {
                score: ScoreDetails::Words(Rank { rank: 2, max_rank: 2 }),
                docids: bm(&[42]),
            },
            BucketDef {
                score: ScoreDetails::Words(Rank { rank: 1, max_rank: 2 }),
                docids: bm(&[50]),
            },
        ],
    );
    let second = RankingRule::new(
        "second".to_string(),
        vec![BucketDef {
            score: ScoreDetails::Typo(Rank { rank: 0, max_rank: 0 }),
            docids: bm(&[42, 50]),
        }],
    );
    let universe = bm(&[42, 50]);
    let mut rules = vec![first, second];
    let out = bucket_sort(&ctx, &mut rules, &universe, 0, 1, ScoringStrategy::Skip);
    assert_eq!(out.docids, vec![42]);
    // the single-candidate bucket was emitted without tie-breaking below
    assert_eq!(rules[1].starts, 0);
    assert_eq!(out.scores[0].len(), 1);
}

fn deep_pagination_setup() -> (SearchCtx, RoaringBitmap, Vec<RankingRule>) {
    let ctx = plain_ctx();
    let mut universe = RoaringBitmap::new();
    universe.insert_range(0..1_000_000);
    let mut buckets = Vec::new();
    for b in 0..1000u32 {
        let mut ids = RoaringBitmap::new();
        ids.insert_range(b * 1000..(b + 1) * 1000);
        buckets.push(BucketDef {
            score: ScoreDetails::Words(Rank { rank: 1000 - b, max_rank: 1000 }),
            docids: ids,
        });
    }
    let first = RankingRule::new("first".to_string(), buckets);
    let mut all = RoaringBitmap::new();
    all.insert_range(0..1_000_000);
    let second = RankingRule::new(
        "second".to_string(),
        vec![BucketDef {
            score: ScoreDetails::Typo(Rank { rank: 0, max_rank: 0 }),
            docids: all,
        }],
    );
    (ctx, universe, vec![first, second])
}

#[test]
fn deep_pagination_descends_only_into_the_page_bucket() {
    let (ctx, universe, mut rules) = deep_pagination_setup();
    let out = bucket_sort(&ctx, &mut rules, &universe, 500_005, 10, ScoringStrategy::Default);
    assert_eq!(out.docids, (500_005..500_015).collect::<Vec<u32>>());
    // every bucket wholly before the page window was skipped unbroken
    assert_eq!(rules[1].starts, 1);
}

#[test]
fn deep_pagination_boundary_bucket_takes_the_emission_path() {
    // a bucket ending exactly at the offset is emitted (to no effect), not
    // skipped, so the level below starts once for it as well
    let (ctx, universe, mut rules) = deep_pagination_setup();
    let out = bucket_sort(&ctx, &mut rules, &universe, 500_000, 10, ScoringStrategy::Default);
    assert_eq!(out.docids, (500_000..500_010).collect::<Vec<u32>>());
    assert_eq!(rules[1].starts, 2);
}

#[test]
fn boundedness_and_parity_hold_across_strategies() {
    let ctx = plain_ctx();
    for &strategy in &[ScoringStrategy::Default, ScoringStrategy::Skip] {
        let rule = RankingRule::new(
            "first".to_string(),
            vec![
                BucketDef {
                    score: ScoreDetails::Words(Rank { rank: 2, max_rank: 2 }),
                    docids: bm(&[5, 6, 7]),
                },
                BucketDef {
                    score: ScoreDetails::Words(Rank { rank: 1, max_rank: 2 }),
                    docids: bm(&[1, 2]),
                },
            ],
        );
        let universe = bm(&[1, 2, 5, 6, 7]);
        let mut rules = vec![rule];
        let out = bucket_sort(&ctx, &mut rules, &universe, 0, 4, strategy);
        assert!(out.docids.len() <= 4);
        assert_eq!(out.scores.len(), out.docids.len());
        assert_eq!(out.docids, vec![5, 6, 7, 1]);
    }
}

#[test]
fn skip_strategy_returns_the_same_documents() {
    // the scoring strategy may shorten score vectors but not change the ids
    let ctx = SearchCtx {
        postings: vec![(0, bm(&[1])), (1, bm(&[2])), (2, bm(&[3]))],
        distinct_fid: None,
        facets: Vec::new(),
    };
    let universe = bm(&[1, 2, 3]);
    let mk_rules = || {
        vec![
            RankingRule::new(
                "words".to_string(),
                vec![BucketDef {
                    score: ScoreDetails::Words(Rank { rank: 1, max_rank: 1 }),
                    docids: bm(&[1, 2, 3]),
                }],
            ),
            RankingRule::new(
                "typo".to_string(),
                vec![
                    BucketDef {
                        score: ScoreDetails::Typo(Rank { rank: 0, max_rank: 2 }),
                        docids: bm(&[1, 2]),
                    },
                    BucketDef {
                        score: ScoreDetails::Typo(Rank { rank: 2, max_rank: 2 }),
                        docids: bm(&[3]),
                    },
                ],
            ),
        ]
    };
    let mut r1 = mk_rules();
    let mut r2 = mk_rules();
    let full = bucket_sort(&ctx, &mut r1, &universe, 0, 10, ScoringStrategy::Default);
    let skip = bucket_sort(&ctx, &mut r2, &universe, 0, 10, ScoringStrategy::Skip);
    assert_eq!(full.docids, skip.docids);
    assert!(skip.scores.iter().zip(full.scores.iter()).all(|(s, f)| s.len() <= f.len()));
}

#[test]
fn pagination_composes_without_rules() {
    let ctx = plain_ctx();
    let universe = bm(&[2, 4, 8, 16, 32, 64, 128]);
    let mut r1: Vec<RankingRule> = Vec::new();
    let mut r2: Vec<RankingRule> = Vec::new();
    let mut r3: Vec<RankingRule> = Vec::new();
    let first = bucket_sort(&ctx, &mut r1, &universe, 0, 3, ScoringStrategy::Default);
    let second = bucket_sort(&ctx, &mut r2, &universe, 3, 4, ScoringStrategy::Default);
    let whole = bucket_sort(&ctx, &mut r3, &universe, 0, 7, ScoringStrategy::Default);
    let mut joined = first.docids.clone();
    joined.extend_from_slice(&second.docids);
    assert_eq!(joined, whole.docids);
}

#[test]
fn pagination_composes_with_a_rule() {
    let ctx = plain_ctx();
    let mk_rules = || {
        vec![RankingRule::new(
            "first".to_string(),
            vec![
                BucketDef {
                    score: ScoreDetails::Words(Rank { rank: 3, max_rank: 3 }),
                    docids: bm(&[10, 11]),
                },
                BucketDef {
                    score: ScoreDetails::Words(Rank { rank: 2, max_rank: 3 }),
                    docids: bm(&[1, 5]),
                },
                BucketDef {
                    score: ScoreDetails::Words(Rank { rank: 1, max_rank: 3 }),
                    docids: bm(&[7]),
                },
            ],
        )]
    };
    let universe = bm(&[1, 5, 7, 10, 11]);
    let mut r1 = mk_rules();
    let mut r2 = mk_rules();
    let mut r3 = mk_rules();
    let first = bucket_sort(&ctx, &mut r1, &universe, 0, 2, ScoringStrategy::Default);
    let second = bucket_sort(&ctx, &mut r2, &universe, 2, 3, ScoringStrategy::Default);
    let whole = bucket_sort(&ctx, &mut r3, &universe, 0, 5, ScoringStrategy::Default);
    let mut joined = first.docids.clone();
    joined.extend_from_slice(&second.docids);
    assert_eq!(joined, whole.docids);
    assert_eq!(whole.docids, vec![10, 11, 1, 5, 7]);
}

#[test]
fn distinct_engine_runs_are_identical() {
    let ctx = SearchCtx {
        postings: Vec::new(),
        distinct_fid: Some(3),
        facets: vec![
            FacetEntry { fid: 3, docid: 1, value: 9 },
            FacetEntry { fid: 3, docid: 2, value: 9 },
            FacetEntry { fid: 3, docid: 5, value: 8 },
            FacetEntry { fid: 3, docid: 6, value: 7 },
        ],
    };
    let rule_buckets = || {
        vec![
            BucketDef {
                score: ScoreDetails::Words(Rank { rank: 2, max_rank: 2 }),
                docids: bm(&[2, 5]),
            },
            BucketDef {
                score: ScoreDetails::Words(Rank { rank: 1, max_rank: 2 }),
                docids: bm(&[1, 6]),
            },
        ]
    };
    let universe = bm(&[1, 2, 5, 6]);
    let mut r1 = vec![RankingRule::new("first".to_string(), rule_buckets())];
    let mut r2 = vec![RankingRule::new("first".to_string(), rule_buckets())];
    let a = bucket_sort(&ctx, &mut r1, &universe, 0, 10, ScoringStrategy::Default);
    let b = bucket_sort(&ctx, &mut r2, &universe, 0, 10, ScoringStrategy::Default);
    assert_eq!(a.docids, b.docids);
    assert_eq!(a.scores, b.scores);
    assert_eq!(a.all_candidates, b.all_candidates);
    // doc 1 shares its value with the already-returned doc 2
    assert_eq!(a.docids, vec![2, 5, 6]);
}

#[test]
fn distinct_with_rules_excludes_value_classmates() {
    let ctx = SearchCtx {
        postings: Vec::new(),
        distinct_fid: Some(0),
        facets: vec![
            FacetEntry { fid: 0, docid: 10, value: 1 },
            FacetEntry { fid: 0, docid: 20, value: 1 },
            FacetEntry { fid: 0, docid: 30, value: 2 },
        ],
    };
    let rule = RankingRule::new(
        "first".to_string(),
        vec![
            BucketDef {
                score: ScoreDetails::Words(Rank { rank: 2, max_rank: 2 }),
                docids: bm(&[10, 30]),
            },
            BucketDef {
                score: ScoreDetails::Words(Rank { rank: 1, max_rank: 2 }),
                docids: bm(&[20, 40]),
            },
        ],
    );
    let universe = bm(&[10, 20, 30, 40]);
    let mut rules = vec![rule];
    let out = bucket_sort(&ctx, &mut rules, &universe, 0, 10, ScoringStrategy::Default);
    // 20 shares its value with the returned 10; 40 has no value and stays
    assert_eq!(out.docids, vec![10, 30, 40]);
}

#[test]
fn distinct_offset_beyond_survivors_returns_nothing() {
    // two documents, one color: a single survivor, and the page starts
    // after it
    let ctx = SearchCtx {
        postings: Vec::new(),
        distinct_fid: Some(0),
        facets: vec![
            FacetEntry { fid: 0, docid: 2, value: 7 },
            FacetEntry { fid: 0, docid: 4, value: 7 },
        ],
    };
    let universe = bm(&[2, 4]);
    let mut rules: Vec<RankingRule> = Vec::new();
    let out = bucket_sort(&ctx, &mut rules, &universe, 1, 2, ScoringStrategy::Default);
    assert!(out.docids.is_empty());
    assert_eq!(out.all_candidates, bm(&[2]));
}

#[test]
fn ranked_page_size_is_exact_at_any_offset() {
    // five candidates across two buckets: a page starting inside the stream
    // returns exactly what is left of it, capped by the length
    let ctx = plain_ctx();
    let mk = || {
        vec![RankingRule::new(
            "first".to_string(),
            vec![
                BucketDef {
                    score: ScoreDetails::Words(Rank { rank: 2, max_rank: 2 }),
                    docids: bm(&[5, 6, 7]),
                },
                BucketDef {
                    score: ScoreDetails::Words(Rank { rank: 1, max_rank: 2 }),
                    docids: bm(&[1, 2]),
                },
            ],
        )]
    };
    let universe = bm(&[1, 2, 5, 6, 7]);
    let mut r1 = mk();
    let out = bucket_sort(&ctx, &mut r1, &universe, 2, 10, ScoringStrategy::Default);
    assert_eq!(out.docids, vec![7, 1, 2]);
    let mut r2 = mk();
    let capped = bucket_sort(&ctx, &mut r2, &universe, 1, 2, ScoringStrategy::Default);
    assert_eq!(capped.docids, vec![6, 7]);
}

#[test]
fn distinct_ranked_page_at_positive_offset_is_owed() {
    // three value-distinct survivors exist, so a page starting at 1 owes
    // two documents even under distinct
    let ctx = SearchCtx {
        postings: Vec::new(),
        distinct_fid: Some(0),
        facets: vec![
            FacetEntry { fid: 0, docid: 10, value: 1 },
            FacetEntry { fid: 0, docid: 20, value: 1 },
            FacetEntry { fid: 0, docid: 30, value: 2 },
        ],
    };
    let rule = RankingRule::new(
        "first".to_string(),
        vec![
            BucketDef {
                score: ScoreDetails::Words(Rank { rank: 2, max_rank: 2 }),
                docids: bm(&[10, 30]),
            },
            BucketDef {
                score: ScoreDetails::Words(Rank { rank: 1, max_rank: 2 }),
                docids: bm(&[20, 40]),
            },
        ],
    );
    let universe = bm(&[10, 20, 30, 40]);
    let mut rules = vec![rule];
    let out = bucket_sort(&ctx, &mut rules, &universe, 1, 10, ScoringStrategy::Default);
    // the stream emits 10, 30, 40; the page drops the first
    assert_eq!(out.docids, vec![30, 40]);
}
