//! Tests of the search layers: ranking, vectors, text, fusion.

use sift_core::fusion::{gather_ranks, reciprocal_rank_fusion};
use sift_core::score::{rank, top_k};
use sift_core::text::{Corpus, Hit, InvertedIndex};
use sift_core::tokens::{split_words, tokenize};
use sift_core::vector::{Metric, VectorError, VectorIndex};

const K1: f32 = 1.2;
const B: f32 = 0.75;

fn bits(v: &[f32]) -> Vec<u32> {
    v.iter().map(|x| x.to_bits()).collect()
}

fn floats(v: &[u32]) -> Vec<f32> {
    v.iter().map(|x| f32::from_bits(*x)).collect()
}

fn dot(a: &[f32], b: &[f32]) -> f32 {
    a.iter().zip(b).map(|(x, y)| x * y).sum()
}

fn similarity(metric: Metric, query: &[u32], row: &[u32]) -> u32 {
    let (q, r) = (floats(query), floats(row));
    let score = match metric {
        Metric::Dot => dot(&q, &r),
        Metric::L2 => -q.iter().zip(&r).map(|(x, y)| (x - y) * (x - y)).sum::<f32>(),
        Metric::Cosine => {
            let denom = dot(&q, &q).sqrt() * dot(&r, &r).sqrt();
            if denom == 0.0 {
                0.0
            } else {
                dot(&q, &r) / denom
            }
        }
    };
    score.to_bits()
}

fn bm25(corpus: Corpus, hits: &[Hit]) -> u32 {
    let n = corpus.doc_count as f32;
    let avgdl = (corpus.total_doc_length as f32 / n).max(1.0);
    let mut score = 0.0f32;
    for h in hits {
        let df = h.doc_freq as f32;
        let idf = ((n - df + 0.5) / (df + 0.5) + 1.0).ln();
        let tf = h.term_freq as f32;
        let dl = h.doc_length as f32;
        score += idf * (tf * (K1 + 1.0)) / (tf + K1 * (1.0 - B + B * (dl / avgdl)));
    }
    score.to_bits()
}

fn rrf(k_const: u32, ranks: &[usize]) -> u32 {
    let k = f32::from_bits(k_const);
    let mut score = 0.0f32;
    for r in ranks {
        score += 1.0 / (k + *r as f32 + 1.0);
    }
    score.to_bits()
}

fn scored(found: &[(u64, f32)]) -> Vec<(u64, u32)> {
    found.iter().map(|(id, s)| (*id, s.to_bits())).collect()
}

fn ids(found: &[(u64, u32)]) -> Vec<u64> {
    found.iter().map(|(id, _)| *id).collect()
}

// ---------- ranking ----------

#[test]
fn scores_rank_from_the_best_to_the_worst() {
    let found = scored(&[
        (1, -1.0),
        (2, 0.5),
        (3, f32::INFINITY),
        (4, f32::NEG_INFINITY),
        (5, 1e-40),
        (6, -0.25),
        (7, 100.0),
    ]);
    assert_eq!(ids(&rank(&found)), vec![3, 7, 2, 5, 6, 1, 4]);
    assert_eq!(ids(&top_k(&found, 2)), vec![3, 7]);
    assert_eq!(ids(&top_k(&found, 100)), vec![3, 7, 2, 5, 6, 1, 4]);
    assert!(top_k(&found, 0).is_empty());
}

#[test]
fn what_scores_alike_stays_in_order() {
    let found = scored(&[(9, 1.0), (3, 2.0), (7, 1.0), (1, 2.0), (5, 0.0), (4, -0.0)]);
    assert_eq!(ids(&rank(&found)), vec![3, 1, 9, 7, 5, 4]);
    assert_eq!(ids(&top_k(&found, 3)), vec![3, 1, 9]);
}

#[test]
fn what_is_no_number_ranks_last() {
    let found = scored(&[
        (1, f32::NAN),
        (2, f32::NEG_INFINITY),
        (3, -f32::NAN),
        (4, 1.0),
    ]);
    assert_eq!(ids(&rank(&found)), vec![4, 2, 1, 3]);
    assert_eq!(ids(&top_k(&found, 2)), vec![4, 2]);
}

// ---------- vectors ----------

#[test]
fn exact_match_is_top_result() {
    let mut idx = VectorIndex::new(4);
    idx.insert(1, &bits(&[1.0, 0.0, 0.0, 0.0])).unwrap();
    idx.insert(2, &bits(&[0.0, 1.0, 0.0, 0.0])).unwrap();
    idx.insert(3, &bits(&[0.9, 0.1, 0.0, 0.0])).unwrap();
    let results = idx
        .search(&bits(&[1.0, 0.0, 0.0, 0.0]), 2, Metric::Cosine, similarity)
        .unwrap();
    assert_eq!(results[0].0, 1);
    assert_eq!(results.len(), 2);
}

#[test]
fn l2_prefers_nearest_point() {
    let mut idx = VectorIndex::new(2);
    idx.insert(1, &bits(&[0.0, 0.0])).unwrap();
    idx.insert(2, &bits(&[10.0, 10.0])).unwrap();
    idx.insert(3, &bits(&[0.5, 0.5])).unwrap();
    let results = idx
        .search(&bits(&[0.0, 0.0]), 1, Metric::L2, similarity)
        .unwrap();
    assert_eq!(results[0].0, 1);
}

#[test]
fn remove_then_search_excludes_id() {
    let mut idx = VectorIndex::new(2);
    idx.insert(1, &bits(&[1.0, 0.0])).unwrap();
    idx.insert(2, &bits(&[0.0, 1.0])).unwrap();
    idx.remove(1);
    let results = idx
        .search(&bits(&[1.0, 0.0]), 5, Metric::Dot, similarity)
        .unwrap();
    assert_eq!(results.len(), 1);
    assert_eq!(results[0].0, 2);
}

#[test]
fn dimension_mismatch_is_rejected() {
    let mut idx = VectorIndex::new(3);
    let err = idx.insert(1, &bits(&[1.0, 2.0])).unwrap_err();
    assert!(matches!(
        err,
        VectorError::DimensionMismatch {
            expected: 3,
            got: 2
        }
    ));
}

#[test]
fn nan_score_does_not_displace_real_results() {
    let mut idx = VectorIndex::new(2);
    idx.insert(1, &bits(&[1.0, 0.0])).unwrap();
    idx.insert(2, &bits(&[0.0, 0.0])).unwrap();
    let results = idx
        .search(&bits(&[1.0, 0.0]), 2, Metric::Cosine, similarity)
        .unwrap();
    assert_eq!(results[0].0, 1);
}

#[test]
fn a_row_that_scores_no_number_gives_way() {
    let mut idx = VectorIndex::new(1);
    idx.insert(1, &bits(&[f32::NAN])).unwrap();
    idx.insert(2, &bits(&[-3.0])).unwrap();
    idx.insert(3, &bits(&[-4.0])).unwrap();
    let results = idx
        .search(&bits(&[1.0]), 2, Metric::Dot, similarity)
        .unwrap();
    assert_eq!(ids(&results), vec![2, 3]);
    assert_eq!(f32::from_bits(results[0].1), -3.0);
}

#[test]
fn a_query_of_another_width_is_rejected() {
    let idx = VectorIndex::new(3);
    let err = idx
        .search(&bits(&[1.0]), 5, Metric::Dot, similarity)
        .unwrap_err();
    assert_eq!(err, VectorError::DimensionMismatch { expected: 3, got: 1 });
    assert_eq!(err.message(), "expected 3-dim vector, got 1");
    let wide = VectorError::DimensionMismatch { expected: 1024, got: 0 };
    assert_eq!(wide.message(), "expected 1024-dim vector, got 0");
}

#[test]
fn storing_again_overwrites_in_place() {
    let mut idx = VectorIndex::new(2);
    idx.insert(7, &[1, 2]).unwrap();
    idx.insert(8, &[3, 4]).unwrap();
    idx.insert(7, &[5, 6]).unwrap();
    assert_eq!(idx.len(), 2);
    assert_eq!(idx.row(0), vec![5, 6]);
    assert_eq!(idx.row(1), vec![3, 4]);
    assert_eq!(idx.dim(), 2);
}

#[test]
fn removing_moves_the_last_row_up() {
    let mut idx = VectorIndex::new(2);
    assert!(idx.is_empty());
    for id in 1..=3u64 {
        idx.insert(id, &[id as u32, 10 + id as u32]).unwrap();
    }
    assert!(idx.remove(1));
    assert!(!idx.remove(1));
    assert_eq!(idx.len(), 2);
    assert_eq!(idx.row(0), vec![3, 13]);
    assert_eq!(idx.row(1), vec![2, 12]);
    assert!(idx.remove(2));
    assert!(idx.remove(3));
    assert!(idx.is_empty());
}

#[test]
fn asking_for_nothing_finds_nothing() {
    let mut idx = VectorIndex::new(1);
    assert!(idx.search(&[0], 5, Metric::Dot, similarity).unwrap().is_empty());
    idx.insert(1, &[0]).unwrap();
    assert!(idx.search(&[0], 0, Metric::Dot, similarity).unwrap().is_empty());
}

#[test]
fn given_scores_decide_the_ranking_of_rows() {
    let mut idx = VectorIndex::new(1);
    for id in [10u64, 20, 30] {
        idx.insert(id, &[0]).unwrap();
    }
    let found = idx.rank(&bits(&[0.1, 0.3, 0.2]), 2);
    assert_eq!(found, scored(&[(20, 0.3), (30, 0.2)]));
}

// ---------- words ----------

#[test]
fn words_are_runs_of_letters_and_digits_in_lower_case() {
    assert_eq!(
        tokenize("Sift-Core is a HYBRID engine, v2!"),
        vec!["sift", "core", "is", "a", "hybrid", "engine", "v2"]
    );
    assert_eq!(tokenize("  ...  "), Vec::<String>::new());
    assert_eq!(tokenize(""), Vec::<String>::new());
    assert_eq!(tokenize("one"), vec!["one"]);
    assert_eq!(tokenize("ÉCOLE Straße 42"), vec!["école", "straße", "42"]);
}

#[test]
fn flags_decide_where_words_end() {
    let text: Vec<char> = "abcdef".chars().collect();
    let flags = vec![true, true, false, false, true, false];
    assert_eq!(split_words(&text, &flags), vec!["ab", "e"]);
    assert_eq!(split_words(&text, &vec![true; 6]), vec!["abcdef"]);
    assert!(split_words(&text, &vec![false; 6]).is_empty());
}

// ---------- text ----------

#[test]
fn exact_term_match_outranks_unrelated_doc() {
    let mut idx = InvertedIndex::new();
    idx.index_document(
        1,
        "sift-core is a hybrid search engine for vectors and text",
    );
    idx.index_document(2, "the weather today is mild and pleasant");
    let results = idx.search("search engine vectors", 5, bm25);
    assert_eq!(results[0].0, 1);
}

#[test]
fn removing_a_document_drops_it_from_results() {
    let mut idx = InvertedIndex::new();
    idx.index_document(1, "rust systems programming");
    idx.index_document(2, "rust systems programming and databases");
    idx.remove_document(2);
    let results = idx.search("rust systems", 5, bm25);
    assert_eq!(results.len(), 1);
    assert_eq!(results[0].0, 1);
}

#[test]
fn reindexing_a_doc_id_replaces_its_terms() {
    let mut idx = InvertedIndex::new();
    idx.index_document(1, "apples and oranges");
    idx.index_document(1, "bananas only");
    assert!(idx.search("apples", 5, bm25).is_empty());
    assert_eq!(idx.search("bananas", 5, bm25)[0].0, 1);
}

#[test]
fn remove_document_prunes_empty_posting_lists() {
    let mut idx = InvertedIndex::new();
    idx.index_document(1, "unique term alpha");
    idx.remove_document(1);
    assert!(idx.term_count() == 0);
}

#[test]
fn a_document_whose_tokens_can_be_counted_is_indexed() {
    let mut idx = InvertedIndex::new();
    assert!(idx.try_index_document(1, "Unique term"));
    assert_eq!(idx.term_count(), 2);
    assert_eq!(ids(&idx.search("unique", 5, bm25)), vec![1]);
    assert!(idx.try_index_document(1, "other"));
    assert_eq!(idx.term_count(), 1);
}

#[test]
fn hits_hold_what_the_formula_needs() {
    let mut idx = InvertedIndex::default();
    idx.index_document(7, "red red blue");
    idx.index_document(8, "blue");
    assert_eq!(idx.corpus(), Corpus { doc_count: 2, total_doc_length: 4 });
    assert_eq!(idx.term_count(), 2);
    let found = idx.matches(&tokenize("blue red blue green"));
    assert_eq!(found.len(), 2);
    assert_eq!(
        found[0],
        (
            7,
            vec![
                Hit { doc_freq: 2, term_freq: 1, doc_length: 3 },
                Hit { doc_freq: 1, term_freq: 2, doc_length: 3 },
            ]
        )
    );
    assert_eq!(
        found[1],
        (8, vec![Hit { doc_freq: 2, term_freq: 1, doc_length: 1 }])
    );
}

#[test]
fn a_text_search_has_an_exact_score() {
    let mut idx = InvertedIndex::new();
    idx.index_document(1, "a b");
    idx.index_document(2, "c d");
    let found = idx.search("a", 5, bm25);
    let idf = ((2.0f32 - 1.0 + 0.5) / (1.0 + 0.5) + 1.0).ln();
    let expected = idf * (1.0 * (K1 + 1.0)) / (1.0 + K1 * (1.0 - B + B * (2.0 / 2.0)));
    assert_eq!(found, vec![(1, expected.to_bits())]);
}

#[test]
fn a_search_finds_every_document_that_shares_a_word() {
    let mut idx = InvertedIndex::new();
    idx.index_document(1, "red green");
    idx.index_document(2, "green blue");
    idx.index_document(3, "white");
    idx.index_document(4, "red red");
    idx.remove_document(4);
    let mut found = ids(&idx.search("Red, blue!", 9, bm25));
    found.sort();
    assert_eq!(found, vec![1, 2]);
    assert_eq!(idx.search("red blue", 1, bm25).len(), 1);
    assert!(idx.search("black", 9, bm25).is_empty());
    assert!(idx.search("", 9, bm25).is_empty());
}

#[test]
fn a_repeated_query_term_changes_nothing() {
    let mut idx = InvertedIndex::new();
    idx.index_document(1, "red green");
    idx.index_document(2, "green blue");
    let once = idx.search("green red blue", 9, bm25);
    assert_eq!(idx.search("green red GREEN blue red", 9, bm25), once);
}

#[test]
fn only_the_best_matches_are_kept() {
    let mut idx = InvertedIndex::new();
    idx.index_document(1, "x filler filler filler filler");
    idx.index_document(2, "x x x");
    idx.index_document(3, "x y");
    assert_eq!(ids(&idx.search("x", 1, bm25)), vec![2]);
    assert_eq!(idx.search("x", 5, bm25).len(), 3);
    assert!(idx.search("x", 0, bm25).is_empty());
    assert!(InvertedIndex::new().search("x", 5, bm25).is_empty());
}

#[test]
fn removing_keeps_the_other_documents() {
    let mut idx = InvertedIndex::new();
    idx.index_document(1, "shared one");
    idx.index_document(2, "shared two");
    idx.remove_document(3);
    assert_eq!(idx.corpus(), Corpus { doc_count: 2, total_doc_length: 4 });
    idx.remove_document(1);
    assert_eq!(idx.corpus(), Corpus { doc_count: 1, total_doc_length: 2 });
    assert_eq!(idx.term_count(), 2);
    assert_eq!(
        idx.matches(&tokenize("shared")),
        vec![(2, vec![Hit { doc_freq: 1, term_freq: 1, doc_length: 2 }])]
    );
}

// ---------- fusion ----------

#[test]
fn item_ranked_high_in_both_lists_wins() {
    let vector_results = scored(&[(1, 0.9), (2, 0.8), (3, 0.7)]);
    let text_results = scored(&[(2, 5.0), (1, 4.0), (4, 3.0)]);
    let fused = reciprocal_rank_fusion(
        &[&vector_results, &text_results],
        60.0f32.to_bits(),
        rrf,
    );
    assert!(fused[0].0 == 1 || fused[0].0 == 2);
    assert!(fused.iter().position(|(id, _)| *id == 4).unwrap() > 1);
}

#[test]
fn item_only_in_one_list_still_appears() {
    let vector_results = scored(&[(1, 0.9)]);
    let text_results: Vec<(u64, u32)> = vec![];
    let fused = reciprocal_rank_fusion(
        &[&vector_results, &text_results],
        60.0f32.to_bits(),
        rrf,
    );
    assert_eq!(fused.len(), 1);
    assert_eq!(fused[0].0, 1);
}

#[test]
fn ranks_are_gathered_list_by_list() {
    let a = scored(&[(1, 0.9), (2, 0.8), (1, 0.1)]);
    let b = scored(&[(2, 5.0), (3, 4.0)]);
    assert_eq!(
        gather_ranks(&[&a, &b]),
        vec![(1, vec![0, 2]), (2, vec![1, 0]), (3, vec![1])]
    );
    assert!(gather_ranks(&[]).is_empty());
}

#[test]
fn fused_scores_are_sums_of_reciprocal_ranks() {
    let a = scored(&[(1, 0.9), (2, 0.8)]);
    let b = scored(&[(2, 5.0)]);
    let fused = reciprocal_rank_fusion(&[&a, &b], 60.0f32.to_bits(), rrf);
    let both: f32 = 1.0 / 62.0 + 1.0 / 61.0;
    let one: f32 = 1.0 / 61.0;
    assert_eq!(fused, vec![(2, both.to_bits()), (1, one.to_bits())]);
}
