//! What holds of the engine as a whole: a query finds documents of the store
//! and no others, what it returns for them is what was stored, and a restart
//! changes neither.

use vstd::prelude::*;
use crate::engine::{
    all_stored, are_hits, blob_in, blob_view, both, can_serve, documents_in, engine_message,
    have_blobs, indexes_hold, is_answer, is_blob, is_first_failure, is_full_answer, is_hit,
    is_vector_search, lemma_held_ids, pool_size, record_of, same_ids, terms_in, vectors_in,
    EngineError, EngineFault, SearchHit, FUSION_CONSTANT,
};
use crate::codec::be_bytes;
use crate::fusion::{
    fused_ranks, is_fusion, law_fusion_gathers_every_rank, law_fusion_keeps_every_id,
    law_fusion_ranks_every_id_once, law_fusion_scores_by_all_places, out_has,
};
use crate::gather::{by_id, distinct_ids, is_place, lemma_scored_distinct, with_scores};
use crate::lsm::{is_read, law_faithful_reads_are_right, lemma_newest_snapshot, LsmEngine};
use crate::messages::{store_message, vector_message};
use crate::record::{document_of, record_message, DocumentModel, RecordError};
use crate::score::{
    at_most, best, descending, distinct_found, found_ids, law_ranked_descends,
    law_ranked_keeps_ids, law_ranked_permutes, lemma_best_from, lemma_found_counted, rank_key,
    ranked,
};
use crate::sstable::TableError;
use crate::store::{uses_seq, StoreError};
use crate::text::{
    consistent, corpus_of, describes, distinct_docs, hit_of, hits_in, hits_of, is_text_search,
    list_of, matched, stands_for, Corpus, Hit, Posting, TextModel,
};
use crate::text_laws::{
    law_text_search_fills_its_list, lemma_occurrences, matching, share_a_term,
};
use crate::tokens::tokens;
use crate::vector::{
    are_scores, has_score, law_search_gives_the_best_rows, scored_row, Metric, VectorError,
};
use crate::versions::{lookup, Versions};

verus! {

// ---------- what a query finds ----------

/// A vector search finds only ids that have a vector.
pub proof fn law_vector_search_finds_only_stored<F: Fn(Metric, &[u32], &[u32]) -> u32>(
    rows: Seq<(u64, Seq<u32>)>,
    query: &[u32],
    k: nat,
    score: F,
    found: Seq<(u64, u32)>,
    i: int,
)
    requires
        is_vector_search(rows, query, k, score, found),
        0 <= i < found.len(),
    ensures
        by_id(rows).contains_key(found[i].0),
{
    let scores = choose|scores: Seq<u32>| #[trigger]
        crate::vector::are_scores(rows, score, Metric::Cosine, query, scores) && found == best(
            with_scores(rows, scores),
            k,
        );
    let j = lemma_best_from(with_scores(rows, scores), k, i);
    assert(is_place(rows, found[i].0, j));
}

/// A text search finds only documents that are indexed.
pub proof fn law_text_search_finds_only_indexed<F: Fn(Corpus, &[Hit]) -> u32>(
    m: TextModel,
    query: Seq<char>,
    k: nat,
    score: F,
    found: Seq<(u64, u32)>,
    i: int,
)
    requires
        consistent(m),
        is_text_search(m, query, k, score, found),
        0 <= i < found.len(),
    ensures
        m.lengths.contains_key(found[i].0),
{
    let all = matched(m, tokens(query));
    let scores = choose|scores: Seq<u32>| #[trigger]
        crate::text::are_match_scores(all, score, corpus_of(m), scores) && found == best(
            with_scores(all, scores),
            k,
        );
    let j = lemma_best_from(with_scores(all, scores), k, i);
    let doc = found[i].0;
    assert(is_place(all, doc, j));
    if !m.lengths.contains_key(doc) {
        crate::text::law_removed_is_not_found(m, tokens(query), doc);
    }
}

/// Fusing lists finds only what is in one of them.
pub proof fn law_fusion_finds_only_what_was_found<F: Fn(u32, &[usize]) -> u32>(
    lists: Seq<Seq<(u64, u32)>>,
    score: F,
    k_const: u32,
    fused: Seq<(u64, u32)>,
    i: int,
) -> (r: (int, int))
    requires
        is_fusion(lists, score, k_const, fused),
        0 <= i < fused.len(),
    ensures
        0 <= r.0 < lists.len(),
        0 <= r.1 < lists[r.0].len(),
        lists[r.0][r.1].0 == fused[i].0,
{
    let acc = fused_ranks(lists);
    let scores = choose|scores: Seq<u32>| #[trigger]
        crate::fusion::are_fused_scores(acc, score, k_const, scores) && fused == ranked(
            with_scores(acc, scores),
        );
    let pairs = with_scores(acc, scores);
    law_ranked_permutes(pairs);
    let j = lemma_best_from(pairs, pairs.len(), i);
    let id = fused[i].0;
    assert(is_place(acc, id, j));
    law_fusion_keeps_every_id(lists, id);
    let (l, p) = choose|l: int, p: int|
        0 <= l < lists.len() && 0 <= p < lists[l].len() && (#[trigger] lists[l][p]).0 == id;
    (l, p)
}

/// A query finds what the indexes hold and nothing else. So what was deleted
/// comes out of no query until it is stored again.
pub proof fn law_query_finds_only_indexed<V, T, R>(
    vectors: Seq<(u64, Seq<u32>)>,
    text: TextModel,
    vector: &[u32],
    text_query: Seq<char>,
    pool: nat,
    similarity: V,
    relevance: T,
    fusion: R,
    k_const: u32,
    near: Seq<(u64, u32)>,
    relevant: Seq<(u64, u32)>,
    fused: Seq<(u64, u32)>,
    i: int,
) where
    V: Fn(Metric, &[u32], &[u32]) -> u32,
    T: Fn(Corpus, &[Hit]) -> u32,
    R: Fn(u32, &[usize]) -> u32,

    requires
        consistent(text),
        same_ids(vectors, text),
        is_vector_search(vectors, vector, pool, similarity, near),
        is_text_search(text, text_query, pool, relevance, relevant),
        is_fusion(both(near, relevant), fusion, k_const, fused),
        0 <= i < fused.len(),
    ensures
        by_id(vectors).contains_key(fused[i].0),
{
    let (l, p) = law_fusion_finds_only_what_was_found(
        both(near, relevant),
        fusion,
        k_const,
        fused,
        i,
    );
    if l == 0 {
        law_vector_search_finds_only_stored(vectors, vector, pool, similarity, near, p);
    } else {
        law_text_search_finds_only_indexed(text, text_query, pool, relevance, relevant, p);
        assert(text.lengths.dom().contains(fused[i].0));
        assert(by_id(vectors).dom().contains(fused[i].0));
    }
}

/// A query over indexes that hold the documents of the store finds documents of
/// the store and no others.
pub proof fn law_query_finds_only_documents<V, T, R>(
    vectors: Seq<(u64, Seq<u32>)>,
    text: TextModel,
    docs: Map<u64, DocumentModel>,
    vector: &[u32],
    text_query: Seq<char>,
    pool: nat,
    similarity: V,
    relevance: T,
    fusion: R,
    k_const: u32,
    near: Seq<(u64, u32)>,
    relevant: Seq<(u64, u32)>,
    fused: Seq<(u64, u32)>,
    i: int,
) where
    V: Fn(Metric, &[u32], &[u32]) -> u32,
    T: Fn(Corpus, &[Hit]) -> u32,
    R: Fn(u32, &[usize]) -> u32,

    requires
        indexes_hold(vectors, text, docs),
        is_vector_search(vectors, vector, pool, similarity, near),
        is_text_search(text, text_query, pool, relevance, relevant),
        is_fusion(both(near, relevant), fusion, k_const, fused),
        0 <= i < fused.len(),
    ensures
        docs.contains_key(fused[i].0),
{
    lemma_held_ids(vectors, text, docs);
    law_query_finds_only_indexed(
        vectors,
        text,
        vector,
        text_query,
        pool,
        similarity,
        relevance,
        fusion,
        k_const,
        near,
        relevant,
        fused,
        i,
    );
}

/// A list in which no id stands twice has as many ids as entries.
proof fn lemma_ids_counted<T>(acc: Seq<(u64, Seq<T>)>)
    requires
        distinct_ids(acc),
    ensures
        by_id(acc).dom().finite(),
        by_id(acc).dom().len() == acc.len(),
    decreases acc.len(),
{
    if acc.len() == 0 {
        assert(by_id(acc).dom() =~= Set::empty());
    } else {
        let fewer = acc.drop_last();
        let last = acc.last().0;
        lemma_ids_counted(fewer);
        assert forall|id: u64| by_id(acc).dom().contains(id) <==> #[trigger] by_id(
            fewer,
        ).dom().insert(last).contains(id) by {
            if let Some(i) = choose_place(acc, id) {
                if i < fewer.len() {
                    assert(is_place(fewer, id, i));
                }
            }
            if let Some(i) = choose_place(fewer, id) {
                assert(is_place(acc, id, i));
            }
            assert(is_place(acc, last, acc.len() - 1));
        }
        assert(by_id(acc).dom() =~= by_id(fewer).dom().insert(last));
        if let Some(i) = choose_place(fewer, last) {
            assert(acc[i].0 == acc[acc.len() - 1].0);
        }
    }
}

/// A place of `id` in `acc`, if there is one.
spec fn choose_place<T>(acc: Seq<(u64, Seq<T>)>, id: u64) -> Option<int> {
    if exists|i: int| is_place(acc, id, i) {
        Some(choose|i: int| is_place(acc, id, i))
    } else {
        None
    }
}

/// With its indexes in step an engine counts its documents: `len` is how many
/// the store holds.
pub proof fn law_len_counts_documents(
    vectors: Seq<(u64, Seq<u32>)>,
    text: TextModel,
    docs: Map<u64, DocumentModel>,
)
    requires
        indexes_hold(vectors, text, docs),
        distinct_ids(vectors),
    ensures
        docs.dom().finite(),
        docs.dom().len() == vectors.len(),
{
    lemma_ids_counted(vectors);
    assert(vectors_in(docs).dom() =~= docs.dom());
}

/// In a store as flushes and compactions leave it the blob that is read for an
/// id is the one that was stored last, and there is none for an id that was
/// never stored or was deleted.
pub proof fn law_blob_is_the_stored_one(
    docs: LsmEngine,
    id: u64,
    r: Result<Option<Seq<u8>>, EngineFault>,
)
    requires
        docs.well_formed(),
        docs.faithful(),
        is_blob(docs, id, r),
    ensures
        r == blob_in(Ok(record_of(docs@, id))),
        documents_in(docs@).contains_key(id) ==> r == Ok::<Option<Seq<u8>>, EngineFault>(
            Some(documents_in(docs@)[id].blob),
        ),
        record_of(docs@, id) is None ==> r == Ok::<Option<Seq<u8>>, EngineFault>(None),
{
    let as_of = (docs.next_seq() - 1) as u64;
    docs.lemma_seqs_below();
    law_faithful_reads_are_right(docs.mem(), docs.tables(), be_bytes(id), as_of);
    lemma_newest_snapshot(docs@, be_bytes(id), as_of);
    let x = choose|x: Result<Option<Seq<u8>>, TableError>| #[trigger]
        is_read(docs.mem(), docs.tables(), be_bytes(id), as_of, x) && r == blob_in(x);
}

/// A vector search gives as many rows as were asked for, or all if there are
/// fewer, and none twice.
pub proof fn law_vector_search_fills_its_list<F: Fn(Metric, &[u32], &[u32]) -> u32>(
    rows: Seq<(u64, Seq<u32>)>,
    query: &[u32],
    k: nat,
    score: F,
    found: Seq<(u64, u32)>,
)
    requires
        distinct_ids(rows),
        is_vector_search(rows, query, k, score, found),
    ensures
        found.len() == if k < rows.len() {
            k
        } else {
            rows.len()
        },
        distinct_found(found),
{
    if k > 0 && rows.len() > 0 {
        let scores = choose|scores: Seq<u32>| #[trigger]
            are_scores(rows, score, Metric::Cosine, query, scores) && found == best(
                with_scores(rows, scores),
                k,
            );
        let pairs = with_scores(rows, scores);
        lemma_scored_distinct(rows, scores);
        law_ranked_permutes(pairs);
        law_ranked_keeps_ids(pairs);
        assert forall|i: int, j: int| 0 <= i < j < found.len() implies (#[trigger] found[i]).0 != (
        #[trigger] found[j]).0 by {
            assert(ranked(pairs)[i].0 != ranked(pairs)[j].0);
        }
    }
}

/// A fusion meets every id of its lists once, and orders them by their scores.
proof fn lemma_fusion_meets_all<F: Fn(u32, &[usize]) -> u32>(
    lists: Seq<Seq<(u64, u32)>>,
    score: F,
    k_const: u32,
    fused: Seq<(u64, u32)>,
)
    requires
        is_fusion(lists, score, k_const, fused),
    ensures
        distinct_found(fused),
        descending(fused),
        forall|l: int, i: int|
            0 <= l < lists.len() && 0 <= i < lists[l].len() ==> found_ids(fused).contains(
                (#[trigger] lists[l][i]).0,
            ),
{
    let acc = fused_ranks(lists);
    let scores = choose|scores: Seq<u32>| #[trigger]
        crate::fusion::are_fused_scores(acc, score, k_const, scores) && fused == ranked(
            with_scores(acc, scores),
        );
    let pairs = with_scores(acc, scores);
    law_fusion_gathers_every_rank(lists, 0);
    lemma_scored_distinct(acc, scores);
    law_ranked_keeps_ids(pairs);
    law_ranked_descends(pairs);
    assert forall|l: int, i: int|
        0 <= l < lists.len() && 0 <= i < lists[l].len() implies found_ids(fused).contains(
        (#[trigger] lists[l][i]).0,
    ) by {
        let id = lists[l][i].0;
        law_fusion_keeps_every_id(lists, id);
        let p = choose|p: int| is_place(acc, id, p);
        assert(pairs[p].0 == id);
        assert(found_ids(pairs).contains(id));
    }
}

/// A query gives as many results as were asked for, or all documents that the
/// indexes hold if there are fewer: one that matches no word still fills the
/// list. No document comes twice, and better scores come first. In a store as
/// flushes and compactions leave it, with a document for every id of the indexes,
/// no query of the right width fails, and each result has the blob that was
/// stored last.
pub proof fn law_query_fills_its_list<V, T, R>(
    docs: LsmEngine,
    vectors: Seq<(u64, Seq<u32>)>,
    text: TextModel,
    vector: &[u32],
    text_query: Seq<char>,
    k: usize,
    similarity: V,
    relevance: T,
    fusion: R,
    near: Seq<(u64, u32)>,
    relevant: Seq<(u64, u32)>,
    fused: Seq<(u64, u32)>,
    r: Result<Vec<SearchHit>, EngineError>,
) where
    V: Fn(Metric, &[u32], &[u32]) -> u32,
    T: Fn(Corpus, &[Hit]) -> u32,
    R: Fn(u32, &[usize]) -> u32,

    requires
        docs.well_formed(),
        distinct_ids(vectors),
        consistent(text),
        same_ids(vectors, text),
        is_vector_search(vectors, vector, pool_size(k), similarity, near),
        is_text_search(text, text_query, pool_size(k), relevance, relevant),
        is_fusion(both(near, relevant), fusion, FUSION_CONSTANT, fused),
        are_hits(docs, at_most(fused, k as nat), r),
    ensures
        r matches Ok(hits) ==> is_full_answer(vectors, k as nat, hits@),
        docs.faithful() && all_stored(vectors, documents_in(docs@)) ==> (
        r matches Ok(hits) && have_blobs(documents_in(docs@), hits@)),
{
    let all = documents_in(docs@);
    let ids = by_id(vectors);
    let lists = both(near, relevant);
    let found = at_most(fused, k as nat);
    lemma_ids_counted(vectors);
    law_vector_search_fills_its_list(vectors, vector, pool_size(k), similarity, near);
    lemma_fusion_meets_all(lists, fusion, FUSION_CONSTANT, fused);
    lemma_found_counted(fused);
    lemma_found_counted(near);
    assert forall|i: int| 0 <= i < fused.len() implies ids.contains_key((#[trigger] fused[i]).0) by {
        law_query_finds_only_indexed(
            vectors,
            text,
            vector,
            text_query,
            pool_size(k),
            similarity,
            relevance,
            fusion,
            FUSION_CONSTANT,
            near,
            relevant,
            fused,
            i,
        );
    }
    assert forall|id: u64| found_ids(near).contains(id) implies #[trigger] found_ids(
        fused,
    ).contains(id) by {
        let i = choose|i: int| 0 <= i < near.len() && (#[trigger] near[i]).0 == id;
        assert(lists[0][i].0 == id);
    }
    vstd::set_lib::lemma_len_subset(found_ids(near), found_ids(fused));
    assert(found_ids(fused).subset_of(ids.dom()));
    vstd::set_lib::lemma_len_subset(found_ids(fused), ids.dom());
    assert(k <= pool_size(k));
    if docs.faithful() && all_stored(vectors, all) {
        assert forall|i: int, b: Result<Option<Seq<u8>>, EngineFault>|
            0 <= i < found.len() && #[trigger] is_blob(docs, (#[trigger] found[i]).0, b) implies b
            == Ok::<Option<Seq<u8>>, EngineFault>(Some(all[found[i].0].blob)) by {
            assert(ids.contains_key(fused[i].0));
            law_blob_is_the_stored_one(docs, found[i].0, b);
        }
    }
    if let Ok(hits) = r {
        assert forall|i: int| 0 <= i < hits@.len() implies (#[trigger] hits@[i]).id == fused[i].0
            && hits@[i].score == fused[i].1 by {
            assert(is_hit(docs, found[i], hits@[i]));
        }
        assert forall|i: int, j: int| 0 <= i < j < hits@.len() implies (#[trigger] hits@[i]).id != (
        #[trigger] hits@[j]).id && rank_key(hits@[i].score) >= rank_key(hits@[j].score) by {
            assert(fused[i].0 != fused[j].0);
            assert(rank_key(fused[i].1) >= rank_key(fused[j].1));
        }
        if docs.faithful() && all_stored(vectors, all) {
            assert forall|i: int| 0 <= i < hits@.len() implies all.contains_key(
                (#[trigger] hits@[i]).id,
            ) && hits@[i].blob@ == all[hits@[i].id].blob by {
                assert(ids.contains_key(fused[i].0));
                assert(is_hit(docs, found[i], hits@[i]));
            }
        }
    }
}

/// Each search gives at least four candidates for each result that is asked for,
/// and at least twenty, and no more than one of the two.
pub proof fn law_candidate_pool_is_wide(k: usize)
    ensures
        pool_size(k) >= 4 * k,
        pool_size(k) >= 20,
        pool_size(k) == 4 * k || pool_size(k) == 20,
{
}

/// What a query fuses: of the rows the best by cosine similarity, and of the
/// documents that share a word with the query the best by relevance; of each
/// twenty, or four for each result that is asked for, whichever is more, or all
/// if there are fewer. So in an engine with no more documents than that the
/// ranking of the rows is complete, and so is that of the matching documents.
pub proof fn law_query_considers_enough_candidates<V, T, R>(
    docs: LsmEngine,
    vectors: Seq<(u64, Seq<u32>)>,
    text: TextModel,
    terms: Map<u64, Seq<Seq<char>>>,
    vector: &[u32],
    text_query: Seq<char>,
    k: usize,
    similarity: V,
    relevance: T,
    fusion: R,
    near: Seq<(u64, u32)>,
    relevant: Seq<(u64, u32)>,
    fused: Seq<(u64, u32)>,
    r: Result<Vec<SearchHit>, EngineError>,
) -> (scores: Seq<u32>) where
    V: Fn(Metric, &[u32], &[u32]) -> u32,
    T: Fn(Corpus, &[Hit]) -> u32,
    R: Fn(u32, &[usize]) -> u32,

    requires
        forall|i: int, j: int|
            0 <= i < j < vectors.len() ==> (#[trigger] vectors[i]).0 != (
            #[trigger] vectors[j]).0,
        describes(text, terms),
        is_answer(
            docs,
            vectors,
            text,
            vector,
            text_query,
            k,
            similarity,
            relevance,
            fusion,
            near,
            relevant,
            fused,
            r,
        ),
    ensures
        scores.len() == vectors.len(),
        forall|j: int, s: u32|
            #![trigger has_score(scores, j, s)]
            0 <= j < vectors.len() && has_score(scores, j, s) ==> exists|row: &[u32]|
                row@ == vectors[j].1 && #[trigger] call_ensures(
                    similarity,
                    (Metric::Cosine, vector, row),
                    s,
                ),
        near.len() <= vectors.len(),
        near.len() < vectors.len() ==> near.len() >= 20 && near.len() >= 4 * k && (near.len() == 20
            || near.len() == 4 * k),
        forall|i: int, j: int|
            0 <= i < j < near.len() ==> (#[trigger] near[i]).0 != (#[trigger] near[j]).0
                && rank_key(near[i].1) >= rank_key(near[j].1),
        forall|i: int| 0 <= i < near.len() ==> scored_row(vectors, scores, #[trigger] near[i]),
        forall|i: int, j: int|
            0 <= i < near.len() && 0 <= j < vectors.len() ==> near.contains(
                ((#[trigger] vectors[j]).0, scores[j]),
            ) || rank_key((#[trigger] near[i]).1) >= rank_key(scores[j]),
        relevant.len() <= matching(terms, tokens(text_query)).len(),
        relevant.len() < matching(terms, tokens(text_query)).len() ==> relevant.len() >= 20
            && relevant.len() >= 4 * k && (relevant.len() == 20 || relevant.len() == 4 * k),
        vectors.len() <= 20 || vectors.len() <= 4 * k ==> near.len() == vectors.len(),
        matching(terms, tokens(text_query)).len() <= 20 || matching(
            terms,
            tokens(text_query),
        ).len() <= 4 * k ==> forall|doc: u64| #[trigger]
            terms.contains_key(doc) && share_a_term(tokens(text_query), terms[doc])
                ==> found_ids(relevant).contains(doc),
{
    law_candidate_pool_is_wide(k);
    let all = matching(terms, tokens(text_query));
    law_text_search_fills_its_list(text, terms, text_query, pool_size(k), relevance, relevant);
    lemma_found_counted(relevant);
    if relevant.len() == all.len() {
        vstd::set_lib::lemma_subset_equality(found_ids(relevant), all);
        assert forall|doc: u64| #[trigger]
            terms.contains_key(doc) && share_a_term(tokens(text_query), terms[doc]) implies found_ids(
            relevant,
        ).contains(doc) by {
            assert(all.contains(doc));
        }
    }
    if vectors.len() == 0 {
        Seq::empty()
    } else {
        law_search_gives_the_best_rows(
            vectors,
            vector,
            pool_size(k),
            Metric::Cosine,
            similarity,
            near,
        )
    }
}

/// Every result of a query is scored by the ranks of its document among the
/// candidates by vector and among those by text, with the constant sixty as bits
/// of a single-precision number, and no document that is a candidate and is left
/// out has a better score.
pub proof fn law_query_answers_with_the_best_fused<V, T, R>(
    docs: LsmEngine,
    vectors: Seq<(u64, Seq<u32>)>,
    text: TextModel,
    vector: &[u32],
    text_query: Seq<char>,
    k: usize,
    similarity: V,
    relevance: T,
    fusion: R,
    near: Seq<(u64, u32)>,
    relevant: Seq<(u64, u32)>,
    fused: Seq<(u64, u32)>,
    hits: Vec<SearchHit>,
    i: int,
) -> (places: Seq<(int, int)>) where
    V: Fn(Metric, &[u32], &[u32]) -> u32,
    T: Fn(Corpus, &[Hit]) -> u32,
    R: Fn(u32, &[usize]) -> u32,

    requires
        4 * k <= usize::MAX,
        is_answer(
            docs,
            vectors,
            text,
            vector,
            text_query,
            k,
            similarity,
            relevance,
            fusion,
            near,
            relevant,
            fused,
            Ok(hits),
        ),
        0 <= i < fused.len(),
    ensures
        hits@.len() == if k < fused.len() {
            k as nat
        } else {
            fused.len()
        },
        i < hits@.len() ==> hits@[i].id == fused[i].0 && hits@[i].score == fused[i].1,
        forall|j: int|
            0 <= j < hits@.len() && i >= hits@.len() ==> rank_key((#[trigger] hits@[j]).score)
                >= rank_key(fused[i].1),
        forall|p: int|
            0 <= p < near.len() ==> out_has(fused, (#[trigger] near[p]).0) && (near[p].0
                == fused[i].0 ==> places.contains((0int, p))),
        forall|p: int|
            0 <= p < relevant.len() ==> out_has(fused, (#[trigger] relevant[p]).0) && (
            relevant[p].0 == fused[i].0 ==> places.contains((1int, p))),
        places.len() > 0,
        forall|j: int|
            0 <= j < places.len() ==> {
                let (l, p) = #[trigger] places[j];
                ||| l == 0 && 0 <= p < near.len() && near[p].0 == fused[i].0
                ||| l == 1 && 0 <= p < relevant.len() && relevant[p].0 == fused[i].0
            },
        forall|a: int, b: int|
            0 <= a < b < places.len() ==> (#[trigger] places[a]).0 < (#[trigger] places[b]).0 || (
            places[a].0 == places[b].0 && places[a].1 < places[b].1),
        exists|ranks: &[usize]|
            ranks@.len() == places.len() && (forall|j: int|
                0 <= j < places.len() ==> #[trigger] ranks@[j] == places[j].1)
                && #[trigger] call_ensures(fusion, (0x4270_0000u32, ranks), fused[i].1),
{
    let lists = both(near, relevant);
    let found = at_most(fused, k as nat);
    law_candidate_pool_is_wide(k);
    assert(near.len() <= pool_size(k) && relevant.len() <= pool_size(k));
    assert(lists[0] == near && lists[1] == relevant && lists.len() == 2);
    law_fusion_ranks_every_id_once(lists, fusion, FUSION_CONSTANT, fused);
    let places = law_fusion_scores_by_all_places(lists, fusion, FUSION_CONSTANT, fused, i);
    assert forall|p: int| 0 <= p < near.len() implies out_has(fused, (#[trigger] near[p]).0) && (
    near[p].0 == fused[i].0 ==> places.contains((0int, p))) by {
        assert(lists[0][p] == near[p]);
    }
    assert forall|p: int| 0 <= p < relevant.len() implies out_has(
        fused,
        (#[trigger] relevant[p]).0,
    ) && (relevant[p].0 == fused[i].0 ==> places.contains((1int, p))) by {
        assert(lists[1][p] == relevant[p]);
    }
    if i < hits@.len() {
        assert(is_hit(docs, found[i], hits@[i]));
    }
    assert forall|j: int| 0 <= j < hits@.len() && i >= hits@.len() implies rank_key(
        (#[trigger] hits@[j]).score,
    ) >= rank_key(fused[i].1) by {
        assert(is_hit(docs, found[j], hits@[j]));
        assert(found[j] == fused[j]);
    }
    places
}

/// The fusion's constant is the single-precision number sixty: without a sign,
/// with the exponent five and a fraction that makes it thirty-two times one and
/// seven eighths.
pub proof fn law_fusion_constant_is_sixty()
    ensures
        FUSION_CONSTANT / 0x80_0000 == 127 + 5,
        (0x80_0000 + FUSION_CONSTANT % 0x80_0000) * 32 == 60 * 0x80_0000,
{
}

// ---------- what a restart changes ----------

pub proof fn lemma_unique_docs(list: Seq<Posting>)
    requires
        distinct_docs(list),
    ensures
        list.no_duplicates(),
{
    assert forall|i: int, j: int| 0 <= i < list.len() && 0 <= j < list.len() && i != j implies list[i]
        != list[j] by {
        if i < j {
            assert(list[i].doc_id != list[j].doc_id);
        } else {
            assert(list[j].doc_id != list[i].doc_id);
        }
    }
}

pub proof fn lemma_list_distinct(m: TextModel, docs: Map<u64, Seq<Seq<char>>>, term: Seq<char>)
    requires
        describes(m, docs),
    ensures
        distinct_docs(list_of(m.postings, term)),
{
    if m.postings.contains_key(term) {
        assert(m.postings[term].len() > 0 && distinct_docs(m.postings[term]));
    }
}

/// The same documents stand for a term in two indexes that hold the same
/// documents.
proof fn lemma_same_list(
    a: TextModel,
    b: TextModel,
    docs: Map<u64, Seq<Seq<char>>>,
    term: Seq<char>,
)
    requires
        describes(a, docs),
        describes(b, docs),
    ensures
        list_of(a.postings, term).len() == list_of(b.postings, term).len(),
        forall|x: Posting|
            list_of(a.postings, term).contains(x) == #[trigger] list_of(b.postings, term).contains(
                x,
            ),
{
    let la = list_of(a.postings, term);
    let lb = list_of(b.postings, term);
    lemma_list_distinct(a, docs, term);
    lemma_list_distinct(b, docs, term);
    lemma_unique_docs(la);
    lemma_unique_docs(lb);
    assert forall|x: Posting| la.contains(x) == #[trigger] lb.contains(x) by {
        let y = Posting { doc_id: x.doc_id, term_freq: x.term_freq };
        assert(x == y);
        assert(stands_for(a, term, x.doc_id, x.term_freq) == stands_for(
            b,
            term,
            x.doc_id,
            x.term_freq,
        ));
    }
    la.unique_seq_to_set();
    lb.unique_seq_to_set();
    assert(la.to_set() =~= lb.to_set());
}

/// In a list without a document twice, a document has one hit or none.
pub proof fn lemma_one_hit(list: Seq<Posting>, n: nat, doc: u64, lengths: Map<u64, u32>)
    requires
        distinct_docs(list),
        n <= list.len(),
    ensures
        forall|i: int|
            0 <= i < n && (#[trigger] list[i]).doc_id == doc ==> hits_in(list, n, doc, lengths)
                == seq![hit_of(list[i], list, lengths)],
        (forall|i: int| 0 <= i < n ==> (#[trigger] list[i]).doc_id != doc) ==> hits_in(
            list,
            n,
            doc,
            lengths,
        ) == Seq::<Hit>::empty(),
    decreases n,
{
    if n > 0 {
        let m = (n - 1) as nat;
        lemma_one_hit(list, m, doc, lengths);
        if list[m as int].doc_id == doc {
            assert forall|i: int| 0 <= i < m implies (#[trigger] list[i]).doc_id != doc by {
                assert(list[i].doc_id != list[m as int].doc_id);
            }
            assert(hits_in(list, n, doc, lengths) =~= seq![
                hit_of(list[m as int], list, lengths),
            ]);
        }
    }
}

/// A search finds the same in every index that holds the same documents: the
/// same statistics, and for each document the same hits. So an index that was
/// rebuilt scores every document as the one that it stands for did.
pub proof fn law_rebuilt_index_searches_alike(
    a: TextModel,
    b: TextModel,
    docs: Map<u64, Seq<Seq<char>>>,
    terms: Seq<Seq<char>>,
    doc: u64,
)
    requires
        describes(a, docs),
        describes(b, docs),
    ensures
        corpus_of(a) == corpus_of(b),
        hits_of(a, terms, doc) == hits_of(b, terms, doc),
    decreases terms.len(),
{
    assert forall|d: u64| #[trigger] a.lengths.contains_key(d) == b.lengths.contains_key(d) && (
    a.lengths.contains_key(d) ==> a.lengths[d] == b.lengths[d]) by {
        assert(a.lengths.dom().contains(d) == docs.dom().contains(d));
        assert(b.lengths.dom().contains(d) == docs.dom().contains(d));
        if docs.contains_key(d) {
        }
    }
    assert(a.lengths =~= b.lengths);
    if terms.len() > 0 {
        law_rebuilt_index_searches_alike(a, b, docs, terms.drop_last(), doc);
        let term = terms.last();
        let la = list_of(a.postings, term);
        let lb = list_of(b.postings, term);
        lemma_same_list(a, b, docs, term);
        lemma_list_distinct(a, docs, term);
        lemma_list_distinct(b, docs, term);
        lemma_one_hit(la, la.len(), doc, a.lengths);
        lemma_one_hit(lb, lb.len(), doc, b.lengths);
        if exists|i: int| 0 <= i < la.len() && (#[trigger] la[i]).doc_id == doc {
            let i = choose|i: int| 0 <= i < la.len() && (#[trigger] la[i]).doc_id == doc;
            assert(la.contains(la[i]));
            assert(lb.contains(la[i]));
            let j = choose|j: int| 0 <= j < lb.len() && lb[j] == la[i];
            assert(lb[j].doc_id == doc);
        } else {
            assert forall|j: int| 0 <= j < lb.len() implies (#[trigger] lb[j]).doc_id != doc by {
                assert(lb.contains(lb[j]));
                assert(la.contains(lb[j]));
                let i = choose|i: int| 0 <= i < la.len() && la[i] == lb[j];
                assert(la[i].doc_id != doc);
            }
        }
    }
}

/// A restart changes no search: an engine that was opened over the versions that
/// another one has holds the same vectors under the same ids, and its text
/// search has the same statistics and the same hits for every document.
pub proof fn law_search_survives_restart(
    before_vectors: Seq<(u64, Seq<u32>)>,
    before_text: TextModel,
    after_vectors: Seq<(u64, Seq<u32>)>,
    after_text: TextModel,
    docs: Map<u64, DocumentModel>,
    terms: Seq<Seq<char>>,
    doc: u64,
)
    requires
        indexes_hold(before_vectors, before_text, docs),
        indexes_hold(after_vectors, after_text, docs),
    ensures
        by_id(after_vectors) == by_id(before_vectors),
        corpus_of(after_text) == corpus_of(before_text),
        hits_of(after_text, terms, doc) == hits_of(before_text, terms, doc),
{
    law_rebuilt_index_searches_alike(before_text, after_text, terms_in(docs), terms, doc);
}

/// An engine can be opened over a store exactly if a sequence number is left and
/// the live record of every document can be read and has a vector of its width.
pub proof fn law_stores_that_can_be_served(m: Versions, dim: usize)
    ensures
        can_serve(m, dim) <==> {
            &&& forall|key: Seq<u8>| !#[trigger] m.contains_key((key, u64::MAX))
            &&& forall|id: u64, record: Seq<u8>|
                #![trigger be_bytes(id), document_of(record)]
                lookup(m, be_bytes(id), u64::MAX) == Some(Some(record)) ==> document_of(
                    record,
                ) is Ok && document_of(record)->Ok_0.vector.len() == dim
        },
{
    if can_serve(m, dim) {
        assert forall|key: Seq<u8>| !#[trigger] m.contains_key((key, u64::MAX)) by {
            if m.contains_key((key, u64::MAX)) {
                assert(uses_seq(m, u64::MAX));
            }
        }
        assert forall|id: u64, record: Seq<u8>|
            #![trigger be_bytes(id), document_of(record)]
            lookup(m, be_bytes(id), u64::MAX) == Some(Some(record)) implies document_of(
            record,
        ) is Ok && document_of(record)->Ok_0.vector.len() == dim by {
            assert(record_of(m, id) == Some(record));
            assert(documents_in(m).contains_key(id));
        }
    }
    if (forall|key: Seq<u8>| !#[trigger] m.contains_key((key, u64::MAX))) && (forall|
        id: u64,
        record: Seq<u8>,
    |
        #![trigger be_bytes(id), document_of(record)]
        lookup(m, be_bytes(id), u64::MAX) == Some(Some(record)) ==> document_of(record) is Ok
            && document_of(record)->Ok_0.vector.len() == dim) {
        assert forall|id: u64| (#[trigger] record_of(m, id)) is Some implies document_of(
            record_of(m, id)->0,
        ) is Ok by {
            let record = record_of(m, id)->0;
            assert(lookup(m, be_bytes(id), u64::MAX) == Some(Some(record)));
        }
        assert forall|id: u64| #[trigger] documents_in(m).contains_key(id) implies documents_in(
            m,
        )[id].vector.len() == dim by {
            let record = record_of(m, id)->0;
            assert(lookup(m, be_bytes(id), u64::MAX) == Some(Some(record)));
        }
    }
}

/// The documents of a store are those whose live record can be read, and each is
/// what its record holds.
pub proof fn law_documents_are_the_live_records(m: Versions, id: u64)
    ensures
        documents_in(m).contains_key(id) ==> exists|record: Seq<u8>|
            lookup(m, be_bytes(id), u64::MAX) == Some(Some(record)) && #[trigger] document_of(
                record,
            ) == Ok::<DocumentModel, RecordError>(documents_in(m)[id]),
        forall|record: Seq<u8>|
            lookup(m, be_bytes(id), u64::MAX) == Some(Some(record)) && (#[trigger] document_of(
                record,
            )) is Ok ==> documents_in(m).contains_key(id) && documents_in(m)[id] == document_of(
                record,
            )->Ok_0,
{
    if documents_in(m).contains_key(id) {
        let record = record_of(m, id)->0;
        assert(lookup(m, be_bytes(id), u64::MAX) == Some(Some(record)));
        assert(document_of(record) == Ok::<DocumentModel, RecordError>(documents_in(m)[id]));
    }
}

/// A blob is that of the document in the record that was read. Without a record
/// there is none; a record that cannot be read and a read that fails are errors.
pub proof fn law_blob_comes_from_the_record(
    x: Result<Option<Seq<u8>>, TableError>,
    r: Result<Option<Seq<u8>>, EngineFault>,
)
    ensures
        blob_in(x) == Ok::<Option<Seq<u8>>, EngineFault>(None) <==> x == Ok::<
            Option<Seq<u8>>,
            TableError,
        >(None),
        forall|d: DocumentModel, record: Seq<u8>|
            x == Ok::<Option<Seq<u8>>, TableError>(Some(record)) && #[trigger] document_of(record)
                == Ok::<DocumentModel, RecordError>(d) ==> blob_in(x) == Ok::<
                Option<Seq<u8>>,
                EngineFault,
            >(Some(#[trigger] d.blob)),
        x is Ok && x->Ok_0 is Some && document_of(x->Ok_0->0) is Err ==> blob_in(x) == Err::<
            Option<Seq<u8>>,
            EngineFault,
        >(EngineFault::Corrupt(record_message(document_of(x->Ok_0->0)->Err_0))),
        x is Err ==> blob_in(x) == Err::<Option<Seq<u8>>, EngineFault>(
            EngineFault::Io(StoreError::Table(x->Err_0)),
        ),
{
}

/// What a question for a blob returns are the bytes themselves, or the error.
pub proof fn law_blobs_are_bytes(r: Result<Option<Vec<u8>>, EngineError>)
    ensures
        r is Err <==> blob_view(r) is Err,
        r is Ok && r->Ok_0 is None <==> blob_view(r) == Ok::<Option<Seq<u8>>, EngineFault>(None),
        r is Ok && r->Ok_0 is Some ==> blob_view(r) == Ok::<Option<Seq<u8>>, EngineFault>(
            Some(r->Ok_0->0@),
        ),
        r is Err ==> blob_view(r)->Err_0 == match r->Err_0 {
            EngineError::Io(e) => EngineFault::Io(e),
            EngineError::Vector(e) => EngineFault::Vector(e),
            EngineError::Corrupt(msg) => EngineFault::Corrupt(msg@),
        },
{
}

/// The message of an engine's error ends in that of the part that failed.
pub proof fn law_message_tells_what_failed(e: StoreError, v: VectorError, msg: Seq<char>)
    ensures
        engine_message(EngineFault::Io(e)) == "io error: "@ + store_message(e),
        engine_message(EngineFault::Vector(v)) == "vector error: "@ + vector_message(v),
        engine_message(EngineFault::Corrupt(msg)) == "corrupt document record: "@ + msg,
{
}

/// Every result that is fetched has the id and the score that were asked for and
/// the blob that was stored under the id, or an empty one if nothing is. Where
/// every record is a document's, fetching does not fail.
pub proof fn law_hits_carry_their_blobs(
    docs: LsmEngine,
    found: Seq<(u64, u32)>,
    r: Result<Vec<SearchHit>, EngineError>,
    i: int,
)
    requires
        docs.well_formed(),
        docs.faithful(),
        are_hits(docs, found, r),
        0 <= i < found.len(),
    ensures
        (forall|id: u64|
            lookup(docs@, #[trigger] be_bytes(id), u64::MAX) is None || lookup(
                docs@,
                be_bytes(id),
                u64::MAX,
            ) == Some(None::<Seq<u8>>) || documents_in(docs@).contains_key(id)) ==> r is Ok,
        r is Ok ==> {
            let hits = r->Ok_0@;
            &&& hits.len() == found.len()
            &&& hits[i].id == found[i].0
            &&& hits[i].score == found[i].1
            &&& documents_in(docs@).contains_key(found[i].0) ==> hits[i].blob@ == documents_in(
                docs@,
            )[found[i].0].blob
            &&& lookup(docs@, be_bytes(found[i].0), u64::MAX) is None || lookup(
                docs@,
                be_bytes(found[i].0),
                u64::MAX,
            ) == Some(None::<Seq<u8>>) ==> hits[i].blob@.len() == 0
        },
{
    match r {
        Ok(hits) => {
            let id = found[i].0;
            assert(is_hit(docs, found[i], hits@[i]));
            if is_blob(docs, id, Ok(Some(hits@[i].blob@))) {
                law_blob_is_the_stored_one(docs, id, Ok(Some(hits@[i].blob@)));
            } else {
                law_blob_is_the_stored_one(docs, id, Ok(None));
            }
        },
        Err(e) => {
            let j = choose|j: int| #[trigger] is_first_failure(docs, found, j, e@);
            law_blob_is_the_stored_one(docs, found[j].0, Err(e@));
            let key = be_bytes(found[j].0);
        },
    }
}

/// Indexes that are in step with the documents hold of each its vector, the number
/// of its words, and how often it has each of them, and nothing else.
pub proof fn law_indexes_hold_the_documents(
    vectors: Seq<(u64, Seq<u32>)>,
    text: TextModel,
    docs: Map<u64, DocumentModel>,
    id: u64,
    term: Seq<char>,
    freq: u32,
)
    requires
        indexes_hold(vectors, text, docs),
    ensures
        by_id(vectors).contains_key(id) <==> docs.contains_key(id),
        text.lengths.contains_key(id) <==> docs.contains_key(id),
        docs.contains_key(id) ==> by_id(vectors)[id] == docs[id].vector && text.lengths[id]
            == tokens(docs[id].text).len(),
        stands_for(text, term, id, freq) <==> {
            &&& docs.contains_key(id)
            &&& tokens(docs[id].text).contains(term)
            &&& tokens(docs[id].text).to_multiset().count(term) == freq
        },
{
    let terms = terms_in(docs);
    assert(by_id(vectors).contains_key(id) == vectors_in(docs).contains_key(id));
    assert(text.lengths.dom().contains(id) == terms.dom().contains(id));
    if docs.contains_key(id) {
        assert(terms.contains_key(id));
        assert(terms[id] == tokens(docs[id].text));
        lemma_occurrences(terms[id], term);
    }
}

} // verus!
