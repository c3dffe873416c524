//! What a text search finds of all documents: those that share a word with the
//! query, each once, and no others.

use vstd::prelude::*;
use crate::engine_laws::{lemma_list_distinct, lemma_one_hit};
use crate::gather::{is_place, items_of, lemma_place_unique, lemma_scored_distinct, with_scores};
use crate::score::{
    best, descending, distinct_found, found_ids, law_best_leave_nothing_better,
    law_ranked_descends, law_ranked_keeps_ids, law_ranked_permutes, lemma_best_from,
    lemma_found_counted, rank_key, ranked,
};
use crate::text::{
    are_match_scores, corpus_of, describes, empty_model, hits_in, hits_of, is_text_search,
    law_empty_describes_nothing, law_index_describes, law_match_finds_every_hit,
    law_remove_describes, lemma_sum_bound, lemma_term_hits, list_of, matched, may_match,
    model_with, model_without, occurrences, stands_for, sum_lengths, Corpus, Hit, Posting,
    TextModel,
};
use crate::tokens::tokens;

verus! {

// ---------- what an index holds after any run of changes ----------

/// One change of an index.
pub enum Change {
    Index(u64, Seq<Seq<char>>),
    Remove(u64),
}

/// The index after `changes`.
pub open spec fn model_after(changes: Seq<Change>) -> TextModel
    decreases changes.len(),
{
    if changes.len() == 0 {
        empty_model()
    } else {
        let before = model_after(changes.drop_last());
        match changes.last() {
            Change::Index(doc, terms) => model_with(before, doc, terms),
            Change::Remove(doc) => model_without(before, doc),
        }
    }
}

/// The documents after `changes`, each with its terms.
pub open spec fn docs_after(changes: Seq<Change>) -> Map<u64, Seq<Seq<char>>>
    decreases changes.len(),
{
    if changes.len() == 0 {
        Map::empty()
    } else {
        let before = docs_after(changes.drop_last());
        match changes.last() {
            Change::Index(doc, terms) => before.insert(doc, terms),
            Change::Remove(doc) => before.remove(doc),
        }
    }
}

/// Whether no document of `changes` has more terms than its length can say.
pub open spec fn changes_fit(changes: Seq<Change>) -> bool {
    forall|i: int|
        0 <= i < changes.len() ==> match #[trigger] changes[i] {
            Change::Index(_, terms) => terms.len() <= u32::MAX,
            Change::Remove(_) => true,
        }
}

/// Whatever was indexed and removed, the index holds the documents that were
/// indexed and not removed since, each with the terms it was indexed with last.
pub proof fn law_index_holds_what_was_indexed(changes: Seq<Change>)
    requires
        changes_fit(changes),
    ensures
        describes(model_after(changes), docs_after(changes)),
    decreases changes.len(),
{
    if changes.len() == 0 {
        law_empty_describes_nothing();
    } else {
        let fewer = changes.drop_last();
        assert forall|i: int| 0 <= i < fewer.len() implies match #[trigger] fewer[i] {
            Change::Index(_, terms) => terms.len() <= u32::MAX,
            Change::Remove(_) => true,
        } by {
            assert(fewer[i] == changes[i]);
        }
        law_index_holds_what_was_indexed(fewer);
        match changes[changes.len() - 1] {
            Change::Index(doc, terms) => {
                law_index_describes(model_after(fewer), docs_after(fewer), doc, terms);
            },
            Change::Remove(doc) => {
                law_remove_describes(model_after(fewer), docs_after(fewer), doc);
            },
        }
    }
}

// ---------- which documents match ----------

/// Whether a query and a document have a term in common.
pub open spec fn share_a_term(query: Seq<Seq<char>>, terms: Seq<Seq<char>>) -> bool {
    exists|t: Seq<char>| #[trigger] query.contains(t) && terms.contains(t)
}

/// The documents that share a term with the query.
pub open spec fn matching(docs: Map<u64, Seq<Seq<char>>>, query: Seq<Seq<char>>) -> Set<u64> {
    Set::new(|doc: u64| docs.contains_key(doc) && share_a_term(query, docs[doc]))
}

/// A hit in a list comes from a posting.
proof fn lemma_hit_from(list: Seq<Posting>, n: nat, doc: u64, lengths: Map<u64, u32>) -> (i: int)
    requires
        n <= list.len(),
        hits_in(list, n, doc, lengths).len() > 0,
    ensures
        0 <= i < n,
        list[i].doc_id == doc,
    decreases n,
{
    if list[n - 1].doc_id == doc {
        n - 1
    } else {
        lemma_hit_from(list, (n - 1) as nat, doc, lengths)
    }
}

/// A document's hit comes from a posting for one of the terms.
proof fn lemma_hits_from(m: TextModel, terms: Seq<Seq<char>>, doc: u64) -> (r: (int, int))
    requires
        hits_of(m, terms, doc).len() > 0,
    ensures
        0 <= r.0 < terms.len(),
        0 <= r.1 < list_of(m.postings, terms[r.0]).len(),
        list_of(m.postings, terms[r.0])[r.1].doc_id == doc,
    decreases terms.len(),
{
    let before = terms.drop_last();
    if hits_of(m, before, doc).len() > 0 {
        let r = lemma_hits_from(m, before, doc);
        assert(before[r.0] == terms[r.0]);
        r
    } else {
        let list = list_of(m.postings, terms.last());
        (terms.len() - 1, lemma_hit_from(list, list.len(), doc, m.lengths))
    }
}

/// A query matches exactly the documents that share a term with it.
pub proof fn law_match_finds_exactly(
    m: TextModel,
    docs: Map<u64, Seq<Seq<char>>>,
    query: Seq<Seq<char>>,
    doc: u64,
)
    requires
        describes(m, docs),
    ensures
        (exists|i: int| is_place(matched(m, query), doc, i)) <==> docs.contains_key(doc)
            && share_a_term(query, docs[doc]),
{
    let all = matched(m, query);
    law_match_finds_every_hit(m, query, doc);
    if exists|i: int| is_place(all, doc, i) {
        let i = choose|i: int| is_place(all, doc, i);
        lemma_place_unique(all, doc, i);
        let (k, p) = lemma_hits_from(m, query, doc);
        let x = list_of(m.postings, query[k])[p];
        assert(x == Posting { doc_id: doc, term_freq: x.term_freq });
        assert(stands_for(m, query[k], doc, x.term_freq));
        assert(query.contains(query[k]));
    }
    if docs.contains_key(doc) && share_a_term(query, docs[doc]) {
        let t = choose|t: Seq<char>| #[trigger] query.contains(t) && docs[doc].contains(t);
        let freq = occurrences(docs[doc], t) as u32;
        assert(stands_for(m, t, doc, freq));
        let list = list_of(m.postings, t);
        let p = choose|p: int|
            0 <= p < list.len() && list[p] == (Posting { doc_id: doc, term_freq: freq });
        let k = choose|k: int| 0 <= k < query.len() && query[k] == t;
        lemma_term_hits(m, query, doc, k, p);
        if forall|j: int| !is_place(all, doc, j) {
            assert(items_of(all, doc) =~= Seq::<Hit>::empty());
        }
    }
}

/// A term that a query repeats changes nothing: the same documents match, with
/// the same hits.
pub proof fn law_repeated_term_changes_nothing(
    m: TextModel,
    a: Seq<Seq<char>>,
    t: Seq<char>,
    b: Seq<Seq<char>>,
)
    requires
        a.contains(t),
    ensures
        matched(m, a + seq![t] + b) == matched(m, a + b),
    decreases b.len(),
{
    let long = a + seq![t] + b;
    let short = a + b;
    if b.len() == 0 {
        assert(long.drop_last() =~= a);
        assert(long.last() == t);
        assert(short =~= a);
    } else {
        let fewer = b.drop_last();
        let x = b.last();
        law_repeated_term_changes_nothing(m, a, t, fewer);
        let long_before = a + seq![t] + fewer;
        let short_before = a + fewer;
        assert(long.drop_last() =~= long_before);
        assert(short.drop_last() =~= short_before);
        assert(long.last() == x && short.last() == x);
        assert(long_before.contains(x) == short_before.contains(x)) by {
            let n = a.len() as int;
            if long_before.contains(x) {
                let i = choose|i: int| 0 <= i < long_before.len() && long_before[i] == x;
                if i < n {
                    assert(short_before[i] == x);
                } else if i == n {
                    let j = choose|j: int| 0 <= j < a.len() && a[j] == t;
                    assert(short_before[j] == x);
                } else {
                    assert(short_before[i - 1] == x);
                }
            }
            if short_before.contains(x) {
                let i = choose|i: int| 0 <= i < short_before.len() && short_before[i] == x;
                assert(long_before[if i < n { i } else { i + 1 }] == x);
            }
        }
    }
}

// ---------- what a search returns ----------

/// Whether nothing among `pairs` that `found` leaves out scores better than what
/// it holds.
pub open spec fn leaves_nothing_better(pairs: Seq<(u64, u32)>, found: Seq<(u64, u32)>) -> bool {
    forall|i: int, j: int|
        0 <= i < found.len() && 0 <= j < pairs.len() ==> found.contains(#[trigger] pairs[j])
            || rank_key((#[trigger] found[i]).1) >= rank_key(pairs[j].1)
}

/// A search gives as many documents as were asked for, or all that share a word
/// with the query if there are fewer: no others, none twice, and better scores
/// first. None that is left out scores better than one that is returned.
pub proof fn law_text_search_fills_its_list<F: Fn(Corpus, &[Hit]) -> u32>(
    m: TextModel,
    docs: Map<u64, Seq<Seq<char>>>,
    query: Seq<char>,
    k: nat,
    score: F,
    found: Seq<(u64, u32)>,
)
    requires
        describes(m, docs),
        is_text_search(m, query, k, score, found),
    ensures
        ({
            let all = matching(docs, tokens(query));
            &&& all.finite()
            &&& found.len() == if k < all.len() {
                k
            } else {
                all.len()
            }
            &&& found_ids(found).subset_of(all)
        }),
        distinct_found(found),
        descending(found),
        m.count > 0 ==> exists|scores: Seq<u32>| #[trigger]
            are_match_scores(matched(m, tokens(query)), score, corpus_of(m), scores)
                && leaves_nothing_better(with_scores(matched(m, tokens(query)), scores), found),
{
    let terms = tokens(query);
    let all = matching(docs, terms);
    if m.count == 0 {
        assert forall|doc: u64| !#[trigger] all.contains(doc) by {
            if docs.contains_key(doc) {
                assert(m.lengths.dom().contains(doc));
            }
        }
        assert(all =~= Set::empty());
    } else {
        let acc = matched(m, terms);
        let scores = choose|scores: Seq<u32>| #[trigger]
            are_match_scores(acc, score, corpus_of(m), scores) && found == best(
                with_scores(acc, scores),
                k,
            );
        let pairs = with_scores(acc, scores);
        law_match_finds_every_hit(m, terms, 0);
        lemma_scored_distinct(acc, scores);
        lemma_found_counted(pairs);
        assert forall|doc: u64| #[trigger] all.contains(doc) == found_ids(pairs).contains(doc) by {
            law_match_finds_exactly(m, docs, terms, doc);
            if all.contains(doc) {
                let i = choose|i: int| is_place(acc, doc, i);
                assert(pairs[i].0 == doc);
            }
            if found_ids(pairs).contains(doc) {
                let i = choose|i: int| 0 <= i < pairs.len() && (#[trigger] pairs[i]).0 == doc;
                assert(is_place(acc, doc, i));
            }
        }
        assert(all =~= found_ids(pairs));
        law_ranked_permutes(pairs);
        law_ranked_keeps_ids(pairs);
        law_ranked_descends(pairs);
        assert forall|i: int, j: int| 0 <= i < j < found.len() implies (#[trigger] found[i]).0 != (
        #[trigger] found[j]).0 by {
            assert(ranked(pairs)[i].0 != ranked(pairs)[j].0);
        }
        assert forall|i: int, j: int| 0 <= i <= j < found.len() implies rank_key(
            (#[trigger] found[i]).1,
        ) >= rank_key((#[trigger] found[j]).1) by {
            assert(rank_key(ranked(pairs)[i].1) >= rank_key(ranked(pairs)[j].1));
        }
        assert forall|id: u64| #[trigger] found_ids(found).contains(id) implies all.contains(
            id,
        ) by {
            let i = choose|i: int| 0 <= i < found.len() && (#[trigger] found[i]).0 == id;
            let j = lemma_best_from(pairs, k, i);
            assert(pairs[j].0 == id);
        }
        assert forall|i: int, j: int|
            0 <= i < found.len() && 0 <= j < pairs.len() implies found.contains(
            #[trigger] pairs[j],
        ) || rank_key((#[trigger] found[i]).1) >= rank_key(pairs[j].1) by {
            law_best_leave_nothing_better(pairs, k, i, j);
        }
        assert(leaves_nothing_better(pairs, found));
    }
}

// ---------- what a score is computed from ----------

/// The documents that hold `term`.
pub open spec fn holders(docs: Map<u64, Seq<Seq<char>>>, term: Seq<char>) -> Set<u64> {
    Set::new(|doc: u64| docs.contains_key(doc) && docs[doc].contains(term))
}

/// How many terms the documents have together.
pub open spec fn total_terms(docs: Map<u64, Seq<Seq<char>>>) -> nat
    decreases docs.dom().len(),
    when docs.dom().finite()
{
    if docs.dom().len() == 0 {
        0
    } else {
        let doc = docs.dom().choose();
        docs[doc].len() + total_terms(docs.remove(doc))
    }
}

proof fn lemma_totals(lengths: Map<u64, u32>, docs: Map<u64, Seq<Seq<char>>>)
    requires
        lengths.dom() == docs.dom(),
        docs.dom().finite(),
        forall|doc: u64| #[trigger] docs.contains_key(doc) ==> lengths[doc] == docs[doc].len(),
    ensures
        sum_lengths(lengths) == total_terms(docs),
    decreases docs.dom().len(),
{
    if docs.dom().len() > 0 {
        let doc = docs.dom().choose();
        assert(docs.contains_key(doc));
        assert(lengths.remove(doc).dom() =~= docs.remove(doc).dom());
        assert forall|d: u64| #[trigger] docs.remove(doc).contains_key(d) implies lengths.remove(
            doc,
        )[d] == docs.remove(doc)[d].len() by {
            assert(docs.contains_key(d));
        }
        lemma_totals(lengths.remove(doc), docs.remove(doc));
    }
}

pub proof fn lemma_occurrences(terms: Seq<Seq<char>>, term: Seq<char>)
    ensures
        occurrences(terms, term) == terms.to_multiset().count(term),
        occurrences(terms, term) <= terms.len(),
    decreases terms.len(),
{
    broadcast use vstd::seq_lib::group_to_multiset_ensures;

    if terms.len() > 0 {
        lemma_occurrences(terms.drop_last(), term);
        assert(terms =~= terms.drop_last().push(terms.last()));
    }
}

/// As many documents stand for a term as hold it.
proof fn lemma_holders_counted(m: TextModel, docs: Map<u64, Seq<Seq<char>>>, term: Seq<char>)
    requires
        describes(m, docs),
    ensures
        holders(docs, term).finite(),
        holders(docs, term).len() == list_of(m.postings, term).len(),
{
    let list = list_of(m.postings, term);
    lemma_list_distinct(m, docs, term);
    let ids = list.map_values(|p: Posting| p.doc_id);
    assert forall|i: int, j: int| 0 <= i < ids.len() && 0 <= j < ids.len() && i != j implies ids[i]
        != ids[j] by {
        if i < j {
            assert(list[i].doc_id != list[j].doc_id);
        } else {
            assert(list[j].doc_id != list[i].doc_id);
        }
    }
    ids.unique_seq_to_set();
    assert forall|doc: u64| #[trigger] holders(docs, term).contains(doc) == ids.to_set().contains(
        doc,
    ) by {
        if holders(docs, term).contains(doc) {
            let freq = occurrences(docs[doc], term) as u32;
            assert(stands_for(m, term, doc, freq));
            let p = choose|p: int|
                0 <= p < list.len() && list[p] == (Posting { doc_id: doc, term_freq: freq });
            assert(ids[p] == doc);
        }
        if ids.to_set().contains(doc) {
            let p = choose|p: int| 0 <= p < ids.len() && ids[p] == doc;
            let x = list[p];
            assert(x == Posting { doc_id: doc, term_freq: x.term_freq });
            assert(stands_for(m, term, doc, x.term_freq));
        }
    }
    assert(holders(docs, term) =~= ids.to_set());
}

/// The places in a query at which a term of `doc` comes first are what its hits
/// come from.
proof fn lemma_hit_places(
    m: TextModel,
    docs: Map<u64, Seq<Seq<char>>>,
    query: Seq<Seq<char>>,
    doc: u64,
) -> (at: Seq<int>)
    requires
        describes(m, docs),
        docs.dom().len() <= usize::MAX,
        docs.contains_key(doc),
    ensures
        at.len() == hits_of(m, query, doc).len(),
        forall|j: int|
            0 <= j < at.len() ==> {
                &&& 0 <= #[trigger] at[j] < query.len()
                &&& docs[doc].contains(query[at[j]])
                &&& !query.take(at[j]).contains(query[at[j]])
                &&& hits_of(m, query, doc)[j].doc_freq == holders(docs, query[at[j]]).len()
                &&& hits_of(m, query, doc)[j].term_freq == docs[doc].to_multiset().count(
                    query[at[j]],
                )
                &&& hits_of(m, query, doc)[j].doc_length == docs[doc].len()
            },
        forall|a: int, b: int|
            0 <= a < b < at.len() ==> (#[trigger] at[a]) < (#[trigger] at[b]),
        forall|p: int|
            0 <= p < query.len() && docs[doc].contains(#[trigger] query[p]) && !query.take(
                p,
            ).contains(query[p]) ==> at.contains(p),
    decreases query.len(),
{
    if query.len() == 0 {
        Seq::empty()
    } else {
        let before = query.drop_last();
        let n = query.len() - 1;
        let t = query[n];
        let was = lemma_hit_places(m, docs, before, doc);
        let list = list_of(m.postings, t);
        assert forall|p: int| 0 <= p <= n implies #[trigger] query.take(p) == before.take(p) by {
            assert(query.take(p) =~= before.take(p));
        }
        assert(query.take(n) =~= before);
        lemma_list_distinct(m, docs, t);
        lemma_one_hit(list, list.len(), doc, m.lengths);
        lemma_holders_counted(m, docs, t);
        assert(holders(docs, t).subset_of(docs.dom()));
        assert(docs.dom().finite());
        vstd::set_lib::lemma_len_subset(holders(docs, t), docs.dom());
        lemma_occurrences(docs[doc], t);
        assert(m.lengths.dom().contains(doc));
        let all = if !before.contains(t) && docs[doc].contains(t) {
            was.push(n)
        } else {
            was
        };
        let freq = occurrences(docs[doc], t) as u32;
        if docs[doc].contains(t) {
            assert(stands_for(m, t, doc, freq));
            let p = choose|p: int|
                0 <= p < list.len() && list[p] == (Posting { doc_id: doc, term_freq: freq });
            assert(list[p].doc_id == doc);
        } else {
            assert forall|p: int| 0 <= p < list.len() implies (#[trigger] list[p]).doc_id
                != doc by {
                let x = list[p];
                if x.doc_id == doc {
                    assert(x == Posting { doc_id: doc, term_freq: x.term_freq });
                    assert(stands_for(m, t, doc, x.term_freq));
                }
            }
        }
        let hits = hits_of(m, query, doc);
        assert forall|j: int| 0 <= j < all.len() implies {
            &&& 0 <= #[trigger] all[j] < query.len()
            &&& docs[doc].contains(query[all[j]])
            &&& !query.take(all[j]).contains(query[all[j]])
            &&& hits[j].doc_freq == holders(docs, query[all[j]]).len()
            &&& hits[j].term_freq == docs[doc].to_multiset().count(query[all[j]])
            &&& hits[j].doc_length == docs[doc].len()
        } by {
            if j < was.len() {
                assert(all[j] == was[j]);
                assert(before[was[j]] == query[was[j]]);
                assert(query.take(was[j]) == before.take(was[j]));
            }
        }
        assert forall|p: int|
            0 <= p < query.len() && docs[doc].contains(#[trigger] query[p]) && !query.take(
                p,
            ).contains(query[p]) implies all.contains(p) by {
            if p < n {
                assert(before[p] == query[p]);
                assert(query.take(p) == before.take(p));
                let j = choose|j: int| 0 <= j < was.len() && was[j] == p;
                assert(all[j] == p);
            } else {
                assert(all[was.len() as int] == p);
            }
        }
        all
    }
}

/// Every score of a text search was computed from what the documents hold. The
/// score function got the number of documents and of their terms, and one hit for
/// each term that the query and the document share, in the order in which the
/// query brings them first: how many documents hold the term, how often this one
/// does, and how many terms it has.
pub proof fn law_search_scores_by_what_documents_hold<F: Fn(Corpus, &[Hit]) -> u32>(
    changes: Seq<Change>,
    query: Seq<char>,
    k: nat,
    score: F,
    found: Seq<(u64, u32)>,
    i: int,
) -> (at: Seq<int>)
    requires
        changes_fit(changes),
        docs_after(changes).dom().len() <= usize::MAX,
        is_text_search(model_after(changes), query, k, score, found),
        0 <= i < found.len(),
    ensures
        docs_after(changes).contains_key(found[i].0),
        ({
            let docs = docs_after(changes);
            let terms = docs[found[i].0];
            let words = tokens(query);
            &&& forall|j: int|
                0 <= j < at.len() ==> {
                    &&& 0 <= #[trigger] at[j] < words.len()
                    &&& terms.contains(words[at[j]])
                    &&& !words.take(at[j]).contains(words[at[j]])
                }
            &&& forall|a: int, b: int|
                0 <= a < b < at.len() ==> (#[trigger] at[a]) < (#[trigger] at[b])
            &&& forall|p: int|
                0 <= p < words.len() && terms.contains(#[trigger] words[p]) && !words.take(
                    p,
                ).contains(words[p]) ==> at.contains(p)
            &&& docs.dom().finite()
            &&& exists|corpus: Corpus, hits: &[Hit]|
                {
                    &&& #[trigger] call_ensures(score, (corpus, hits), found[i].1)
                    &&& corpus.doc_count == docs.dom().len()
                    &&& corpus.total_doc_length == total_terms(docs)
                    &&& hits@.len() == at.len()
                    &&& forall|j: int|
                        0 <= j < at.len() ==> {
                            &&& (#[trigger] hits@[j]).doc_freq == holders(docs, words[at[j]]).len()
                            &&& hits@[j].term_freq == terms.to_multiset().count(words[at[j]])
                            &&& hits@[j].doc_length == terms.len()
                        }
                }
        }),
{
    let m = model_after(changes);
    let docs = docs_after(changes);
    let words = tokens(query);
    law_index_holds_what_was_indexed(changes);
    let acc = matched(m, words);
    let scores = choose|scores: Seq<u32>| #[trigger]
        are_match_scores(acc, score, corpus_of(m), scores) && found == best(
            with_scores(acc, scores),
            k,
        );
    let q = lemma_best_from(with_scores(acc, scores), k, i);
    let doc = found[i].0;
    assert(is_place(acc, doc, q));
    law_match_finds_exactly(m, docs, words, doc);
    law_match_finds_every_hit(m, words, doc);
    lemma_place_unique(acc, doc, q);
    let at = lemma_hit_places(m, docs, words, doc);
    lemma_totals(m.lengths, docs);
    lemma_sum_bound(m.lengths);
    assert(docs.dom().len() * (u32::MAX as nat) <= u128::MAX) by (nonlinear_arith)
        requires
            docs.dom().len() <= usize::MAX,
    ;
    assert(may_match(score, corpus_of(m), acc[q].1, scores[q]));
    let h = choose|h: &[Hit]|
        h@ == acc[q].1 && #[trigger] call_ensures(score, (corpus_of(m), h), scores[q]);
    assert forall|j: int| 0 <= j < at.len() implies {
        &&& (#[trigger] h@[j]).doc_freq == holders(docs, words[at[j]]).len()
        &&& h@[j].term_freq == docs[doc].to_multiset().count(words[at[j]])
        &&& h@[j].doc_length == docs[doc].len()
    } by {
        assert(0 <= at[j] < words.len());
    }
    assert(call_ensures(score, (corpus_of(m), h), found[i].1));
    at
}

} // verus!
