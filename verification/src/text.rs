//! The inverted index: for each term the documents that hold it.
//!
//! There is no stemming, no list of words to leave out and no search for
//! phrases. The index finds the documents that match a query and what Okapi
//! BM25 needs to know of each match; the formula itself works on
//! single-precision numbers and comes from the caller.

use vstd::prelude::*;
use std::collections::HashMap;
use crate::gather::{
    attach_scores, gather_view, gathered, is_place, items_of, lemma_gathered, lemma_place_unique,
    sound, with_scores, Gathering,
};
use crate::score::{best, top_k};
use crate::term_map::{
    by_term, is_term, lemma_term_inserted, lemma_term_place, lemma_term_updated, term_before,
    terms_sorted, TermMap,
};
use crate::tokens::{strings_view, tokenize, tokens};

verus! {

broadcast use vstd::std_specs::hash::group_hash_axioms;

/// How often a term stands in a document.
#[derive(Debug, Clone, Copy, PartialEq, Eq, Structural)]
pub struct Posting {
    pub doc_id: u64,
    pub term_freq: u32,
}

/// What BM25 needs to know of one query term in one document: how many
/// documents hold the term, how often this one does, and how many terms it has.
#[derive(Debug, Clone, Copy, PartialEq, Eq, Structural)]
pub struct Hit {
    pub doc_freq: usize,
    pub term_freq: u32,
    pub doc_length: u32,
}

/// What BM25 needs to know of all documents together.
#[derive(Debug, Clone, Copy, PartialEq, Eq, Structural)]
pub struct Corpus {
    pub doc_count: u64,
    pub total_doc_length: u128,
}

/// The index, as contracts speak of it.
#[verifier::ext_equal]
pub struct TextModel {
    /// For each term the documents that hold it, in the order in which they
    /// were indexed.
    pub postings: Map<Seq<char>, Seq<Posting>>,
    /// For each document how many terms it has.
    pub lengths: Map<u64, u32>,
    /// How many terms the documents have together.
    pub total: nat,
    /// How many documents there are.
    pub count: nat,
}

// ---------- what the operations do ----------

/// `list` without the document `doc`.
pub open spec fn without_doc(list: Seq<Posting>, doc: u64) -> Seq<Posting>
    decreases list.len(),
{
    if list.len() == 0 {
        Seq::empty()
    } else if list.last().doc_id == doc {
        without_doc(list.drop_last(), doc)
    } else {
        without_doc(list.drop_last(), doc).push(list.last())
    }
}

/// `postings` without the document `doc`; a term that no document is left for
/// goes, too.
pub open spec fn postings_without(postings: Map<Seq<char>, Seq<Posting>>, doc: u64) -> Map<
    Seq<char>,
    Seq<Posting>,
> {
    Map::new(
        |t: Seq<char>| postings.contains_key(t) && without_doc(postings[t], doc).len() > 0,
        |t: Seq<char>| without_doc(postings[t], doc),
    )
}

/// The documents that hold `term`.
pub open spec fn list_of(postings: Map<Seq<char>, Seq<Posting>>, term: Seq<char>) -> Seq<Posting> {
    if postings.contains_key(term) {
        postings[term]
    } else {
        Seq::empty()
    }
}

/// How often `term` stands in `list`.
pub open spec fn occurrences(list: Seq<Seq<char>>, term: Seq<char>) -> nat
    decreases list.len(),
{
    if list.len() == 0 {
        0
    } else {
        occurrences(list.drop_last(), term) + if list.last() == term {
            1nat
        } else {
            0nat
        }
    }
}

/// The posting of `doc` for `term`, if `terms` are the document's.
pub open spec fn posting_of(doc: u64, terms: Seq<Seq<char>>, term: Seq<char>) -> Posting {
    Posting { doc_id: doc, term_freq: occurrences(terms, term) as u32 }
}

/// `postings` with those of `doc` for its terms.
pub open spec fn postings_with(
    postings: Map<Seq<char>, Seq<Posting>>,
    doc: u64,
    terms: Seq<Seq<char>>,
) -> Map<Seq<char>, Seq<Posting>> {
    Map::new(
        |t: Seq<char>| postings.contains_key(t) || terms.contains(t),
        |t: Seq<char>|
            if terms.contains(t) {
                list_of(postings, t).push(posting_of(doc, terms, t))
            } else {
                postings[t]
            },
    )
}

/// The index after `doc` was removed.
pub open spec fn model_without(m: TextModel, doc: u64) -> TextModel {
    if m.lengths.contains_key(doc) {
        TextModel {
            postings: postings_without(m.postings, doc),
            lengths: m.lengths.remove(doc),
            total: (m.total - m.lengths[doc]) as nat,
            count: (m.count - 1) as nat,
        }
    } else {
        m
    }
}

/// The index after `doc` was indexed with `terms`, whatever it had before.
pub open spec fn model_with(m: TextModel, doc: u64, terms: Seq<Seq<char>>) -> TextModel {
    let base = model_without(m, doc);
    TextModel {
        postings: postings_with(base.postings, doc, terms),
        lengths: base.lengths.insert(doc, terms.len() as u32),
        total: base.total + terms.len(),
        count: base.count + 1,
    }
}

/// The sum of the lengths of all documents.
pub open spec fn sum_lengths(lengths: Map<u64, u32>) -> nat
    decreases lengths.dom().len(),
    when lengths.dom().finite()
{
    if lengths.dom().len() == 0 {
        0
    } else {
        let doc = lengths.dom().choose();
        lengths[doc] as nat + sum_lengths(lengths.remove(doc))
    }
}

/// Whether no document stands in `list` twice.
pub open spec fn distinct_docs(list: Seq<Posting>) -> bool {
    forall|i: int, j: int|
        0 <= i < j < list.len() ==> (#[trigger] list[i]).doc_id != (#[trigger] list[j]).doc_id
}

/// Whether the parts of the index agree: no term is kept without a document,
/// no document stands twice for a term, every document that stands for a term
/// has a length, and the totals are those of the documents.
pub open spec fn consistent(m: TextModel) -> bool {
    &&& m.lengths.dom().finite()
    &&& m.total == sum_lengths(m.lengths)
    &&& m.count == m.lengths.dom().len()
    &&& forall|t: Seq<char>| #[trigger]
        m.postings.contains_key(t) ==> m.postings[t].len() > 0 && distinct_docs(m.postings[t])
    &&& forall|t: Seq<char>, i: int|
        m.postings.contains_key(t) && 0 <= i < m.postings[t].len() ==> m.lengths.contains_key(
            (#[trigger] m.postings[t][i]).doc_id,
        )
}

// ---------- laws of the operations ----------

proof fn lemma_sum_remove(lengths: Map<u64, u32>, doc: u64)
    requires
        lengths.dom().finite(),
        lengths.contains_key(doc),
    ensures
        sum_lengths(lengths) == lengths[doc] as nat + sum_lengths(lengths.remove(doc)),
    decreases lengths.dom().len(),
{
    let c = lengths.dom().choose();
    assert(lengths.dom().contains(doc));
    if c != doc {
        assert(lengths.dom().contains(c));
        lemma_sum_remove(lengths.remove(c), doc);
        lemma_sum_remove(lengths.remove(doc), c);
        assert(lengths.remove(c).remove(doc) =~= lengths.remove(doc).remove(c));
    }
}

/// No document has more terms than its length can say.
pub proof fn lemma_sum_bound(lengths: Map<u64, u32>)
    requires
        lengths.dom().finite(),
    ensures
        sum_lengths(lengths) <= lengths.dom().len() * (u32::MAX as nat),
    decreases lengths.dom().len(),
{
    if lengths.dom().len() > 0 {
        let doc = lengths.dom().choose();
        assert(lengths.dom().contains(doc));
        lemma_sum_bound(lengths.remove(doc));
    }
}

proof fn lemma_sum_insert(lengths: Map<u64, u32>, doc: u64, len: u32)
    requires
        lengths.dom().finite(),
        !lengths.contains_key(doc),
    ensures
        sum_lengths(lengths.insert(doc, len)) == sum_lengths(lengths) + len,
{
    let now = lengths.insert(doc, len);
    assert(now.dom().finite());
    lemma_sum_remove(now, doc);
    assert(now.remove(doc) =~= lengths);
}

proof fn lemma_without_doc(list: Seq<Posting>, doc: u64)
    ensures
        forall|i: int|
            0 <= i < without_doc(list, doc).len() ==> (#[trigger] without_doc(list, doc)[i]).doc_id
                != doc && list.contains(without_doc(list, doc)[i]),
        distinct_docs(list) ==> distinct_docs(without_doc(list, doc)),
        without_doc(list, doc).len() <= list.len(),
    decreases list.len(),
{
    if list.len() > 0 {
        let before = list.drop_last();
        let x = list.last();
        lemma_without_doc(before, doc);
        let kept = without_doc(before, doc);
        let now = without_doc(list, doc);
        assert forall|i: int| 0 <= i < now.len() implies (#[trigger] now[i]).doc_id != doc
            && list.contains(now[i]) by {
            if i < kept.len() {
                assert(now[i] == kept[i]);
                let j = choose|j: int| 0 <= j < before.len() && before[j] == kept[i];
                assert(list[j] == now[i]);
            } else {
                assert(list[list.len() - 1] == x);
            }
        }
        if distinct_docs(list) {
            assert forall|i: int, j: int| 0 <= i < j < before.len() implies (
            #[trigger] before[i]).doc_id != (#[trigger] before[j]).doc_id by {
                assert(list[i].doc_id != list[j].doc_id);
            }
            assert(distinct_docs(before));
            assert forall|i: int, j: int| 0 <= i < j < now.len() implies (#[trigger] now[i]).doc_id
                != (#[trigger] now[j]).doc_id by {
                if j < kept.len() {
                    assert(kept[i].doc_id != kept[j].doc_id);
                } else {
                    let p = choose|p: int| 0 <= p < before.len() && before[p] == kept[i];
                    assert(list[p].doc_id != list[list.len() - 1].doc_id);
                }
            }
        }
    }
}

/// A list that the document is not in stays as it is.
proof fn lemma_without_absent(list: Seq<Posting>, doc: u64)
    requires
        forall|i: int| 0 <= i < list.len() ==> (#[trigger] list[i]).doc_id != doc,
    ensures
        without_doc(list, doc) == list,
    decreases list.len(),
{
    if list.len() > 0 {
        lemma_without_absent(list.drop_last(), doc);
        assert(list.drop_last().push(list.last()) =~= list);
    } else {
        assert(without_doc(list, doc) =~= list);
    }
}

/// Removing a document keeps the parts of the index in agreement.
pub proof fn law_remove_keeps_consistent(m: TextModel, doc: u64)
    requires
        consistent(m),
    ensures
        consistent(model_without(m, doc)),
        !model_without(m, doc).lengths.contains_key(doc),
        m.lengths.contains_key(doc) ==> m.total >= m.lengths[doc] && m.count >= 1,
{
    if m.lengths.contains_key(doc) {
        let now = model_without(m, doc);
        lemma_sum_remove(m.lengths, doc);
        assert(m.lengths.dom().contains(doc));
        assert(m.lengths.remove(doc).dom() =~= m.lengths.dom().remove(doc));
        assert forall|t: Seq<char>| #[trigger] now.postings.contains_key(t) implies now.postings[t].len()
            > 0 && distinct_docs(now.postings[t]) by {
            assert(m.postings.contains_key(t));
            lemma_without_doc(m.postings[t], doc);
        }
        assert forall|t: Seq<char>, i: int|
            now.postings.contains_key(t) && 0 <= i
                < now.postings[t].len() implies now.lengths.contains_key(
            (#[trigger] now.postings[t][i]).doc_id,
        ) by {
            lemma_without_doc(m.postings[t], doc);
            let x = now.postings[t][i];
            assert(without_doc(m.postings[t], doc)[i] == x);
            let j = choose|j: int| 0 <= j < m.postings[t].len() && m.postings[t][j] == x;
            assert(m.lengths.contains_key(m.postings[t][j].doc_id));
        }
    }
}

/// Indexing a document keeps the parts of the index in agreement.
pub proof fn law_index_keeps_consistent(m: TextModel, doc: u64, terms: Seq<Seq<char>>)
    requires
        consistent(m),
        terms.len() <= u32::MAX,
    ensures
        consistent(model_with(m, doc, terms)),
{
    let base = model_without(m, doc);
    let now = model_with(m, doc, terms);
    law_remove_keeps_consistent(m, doc);
    lemma_sum_insert(base.lengths, doc, terms.len() as u32);
    assert(now.lengths.dom() =~= base.lengths.dom().insert(doc));
    assert forall|t: Seq<char>| #[trigger] now.postings.contains_key(t) implies now.postings[t].len()
        > 0 && distinct_docs(now.postings[t]) by {
        let list = list_of(base.postings, t);
        if base.postings.contains_key(t) {
            assert(base.postings[t].len() > 0 && distinct_docs(base.postings[t]));
        }
        if terms.contains(t) {
            assert forall|i: int, j: int| 0 <= i < j < now.postings[t].len() implies (
            #[trigger] now.postings[t][i]).doc_id != (#[trigger] now.postings[t][j]).doc_id by {
                if j < list.len() {
                    assert(list[i].doc_id != list[j].doc_id);
                } else {
                    assert(base.lengths.contains_key(base.postings[t][i].doc_id));
                }
            }
        }
    }
    assert forall|t: Seq<char>, i: int|
        now.postings.contains_key(t) && 0 <= i
            < now.postings[t].len() implies now.lengths.contains_key(
        (#[trigger] now.postings[t][i]).doc_id,
    ) by {
        let list = list_of(base.postings, t);
        if i < list.len() {
            assert(now.postings[t][i] == base.postings[t][i]);
            assert(base.lengths.contains_key(base.postings[t][i].doc_id));
        }
    }
}

/// Removing a document leaves no trace of it, and of what was indexed for it
/// nothing stays: the index is as if it had never been indexed.
pub proof fn law_remove_undoes_index(m: TextModel, doc: u64, terms: Seq<Seq<char>>)
    requires
        consistent(m),
        terms.len() <= u32::MAX,
    ensures
        model_without(model_with(m, doc, terms), doc) == model_without(m, doc),
{
    let base = model_without(m, doc);
    let with = model_with(m, doc, terms);
    let again = model_without(with, doc);
    law_remove_keeps_consistent(m, doc);
    assert forall|t: Seq<char>| #[trigger] again.postings.contains_key(t)
        == base.postings.contains_key(t) && (base.postings.contains_key(t) ==> again.postings[t]
        == base.postings[t]) by {
        let list = list_of(base.postings, t);
        assert forall|i: int| 0 <= i < list.len() implies (#[trigger] list[i]).doc_id != doc by {
            assert(base.lengths.contains_key(base.postings[t][i].doc_id));
        }
        lemma_without_absent(list, doc);
        if terms.contains(t) {
            let longer = list.push(posting_of(doc, terms, t));
            assert(longer.drop_last() =~= list);
            assert(without_doc(longer, doc) == list);
        }
        if base.postings.contains_key(t) {
            assert(base.postings[t].len() > 0);
        }
    }
    assert(again.postings =~= base.postings);
    assert(again.lengths =~= base.lengths);
    assert(again =~= base);
}

/// Indexing a document again replaces what was indexed for it before.
pub proof fn law_reindex_replaces(
    m: TextModel,
    doc: u64,
    first: Seq<Seq<char>>,
    second: Seq<Seq<char>>,
)
    requires
        consistent(m),
        first.len() <= u32::MAX,
    ensures
        model_with(model_with(m, doc, first), doc, second) == model_with(m, doc, second),
{
    law_remove_undoes_index(m, doc, first);
}

/// Whether `doc` stands for `term` in the index.
pub open spec fn stands_for(m: TextModel, term: Seq<char>, doc: u64, freq: u32) -> bool {
    list_of(m.postings, term).contains(Posting { doc_id: doc, term_freq: freq })
}

/// Whether the index holds exactly the documents of `docs`, each with its terms:
/// a document stands for a term exactly if the term is one of its own, with the
/// number of times that it has it, and has as many terms as its length says.
pub open spec fn describes(m: TextModel, docs: Map<u64, Seq<Seq<char>>>) -> bool {
    &&& consistent(m)
    &&& m.lengths.dom() == docs.dom()
    &&& forall|doc: u64| #[trigger]
        docs.contains_key(doc) ==> docs[doc].len() <= u32::MAX && m.lengths[doc] == docs[doc].len()
    &&& forall|term: Seq<char>, doc: u64, freq: u32| #[trigger]
        stands_for(m, term, doc, freq) <==> docs.contains_key(doc) && docs[doc].contains(term)
            && freq == occurrences(docs[doc], term) as u32
}

proof fn lemma_without_keeps(list: Seq<Posting>, doc: u64, x: Posting)
    ensures
        without_doc(list, doc).contains(x) <==> list.contains(x) && x.doc_id != doc,
    decreases list.len(),
{
    lemma_without_doc(list, doc);
    if list.len() > 0 {
        let before = list.drop_last();
        let kept = without_doc(before, doc);
        let now = without_doc(list, doc);
        lemma_without_keeps(before, doc, x);
        if list.contains(x) && x.doc_id != doc {
            let i = choose|i: int| 0 <= i < list.len() && list[i] == x;
            if i < before.len() {
                assert(before[i] == x);
                let j = choose|j: int| 0 <= j < kept.len() && kept[j] == x;
                assert(now[j] == x);
            } else {
                assert(now[now.len() - 1] == x);
            }
        }
        if now.contains(x) {
            let i = choose|i: int| 0 <= i < now.len() && now[i] == x;
            assert(now[i].doc_id != doc && list.contains(now[i]));
        }
    }
}

/// The empty index holds no document.
pub proof fn law_empty_describes_nothing()
    ensures
        describes(empty_model(), Map::empty()),
{
    let m = empty_model();
    assert(m.lengths.dom() =~= Map::<u64, Seq<Seq<char>>>::empty().dom());
    assert(m.lengths.dom().len() == 0);
    assert(list_of(m.postings, Seq::empty()) == Seq::<Posting>::empty());
}

/// Removing a document takes that document away and changes no other.
pub proof fn law_remove_describes(m: TextModel, docs: Map<u64, Seq<Seq<char>>>, doc: u64)
    requires
        describes(m, docs),
    ensures
        describes(model_without(m, doc), docs.remove(doc)),
{
    let now = model_without(m, doc);
    let left = docs.remove(doc);
    law_remove_keeps_consistent(m, doc);
    assert(m.lengths.dom().contains(doc) == docs.dom().contains(doc));
    assert(now.lengths.dom() =~= left.dom());
    assert forall|d: u64| #[trigger] left.contains_key(d) implies left[d].len() <= u32::MAX
        && now.lengths[d] == left[d].len() by {
        assert(docs.contains_key(d));
    }
    assert forall|term: Seq<char>, d: u64, freq: u32| #[trigger]
        stands_for(now, term, d, freq) <==> left.contains_key(d) && left[d].contains(term) && freq
            == occurrences(left[d], term) as u32 by {
        let x = Posting { doc_id: d, term_freq: freq };
        let list = list_of(m.postings, term);
        assert(stands_for(m, term, d, freq) == list.contains(x));
        lemma_without_keeps(list, doc, x);
        if m.lengths.contains_key(doc) {
            assert(list_of(now.postings, term) =~= without_doc(list, doc));
        }
    }
}

/// Indexing a document gives that document its terms and changes no other.
pub proof fn law_index_describes(
    m: TextModel,
    docs: Map<u64, Seq<Seq<char>>>,
    doc: u64,
    terms: Seq<Seq<char>>,
)
    requires
        describes(m, docs),
        terms.len() <= u32::MAX,
    ensures
        describes(model_with(m, doc, terms), docs.insert(doc, terms)),
{
    let base = model_without(m, doc);
    let now = model_with(m, doc, terms);
    let all = docs.insert(doc, terms);
    let left = docs.remove(doc);
    law_remove_describes(m, docs, doc);
    law_index_keeps_consistent(m, doc, terms);
    assert(now.lengths.dom() =~= all.dom()) by {
        assert(base.lengths.dom() == left.dom());
        assert(now.lengths.dom() =~= base.lengths.dom().insert(doc));
        assert(all.dom() =~= left.dom().insert(doc));
    }
    assert forall|d: u64| #[trigger] all.contains_key(d) implies all[d].len() <= u32::MAX
        && now.lengths[d] == all[d].len() by {
        if d != doc {
            assert(left.contains_key(d));
        }
    }
    assert forall|term: Seq<char>, d: u64, freq: u32| #[trigger]
        stands_for(now, term, d, freq) <==> all.contains_key(d) && all[d].contains(term) && freq
            == occurrences(all[d], term) as u32 by {
        let x = Posting { doc_id: d, term_freq: freq };
        let list = list_of(base.postings, term);
        assert(stands_for(base, term, d, freq) == list.contains(x));
        if terms.contains(term) {
            let own = posting_of(doc, terms, term);
            let longer = list.push(own);
            assert(list_of(now.postings, term) == longer);
            if longer.contains(x) {
                let i = choose|i: int| 0 <= i < longer.len() && longer[i] == x;
                if i < list.len() {
                    assert(list[i] == x);
                }
            }
            if list.contains(x) {
                let i = choose|i: int| 0 <= i < list.len() && list[i] == x;
                assert(longer[i] == x);
            }
            assert(longer[list.len() as int] == own);
        } else {
            assert(list_of(now.postings, term) =~= list);
        }
    }
}

// ---------- matching a query ----------

/// The documents of `list` as hits, put behind what was gathered.
pub open spec fn with_postings(
    acc: Seq<(u64, Seq<Hit>)>,
    list: Seq<Posting>,
    n: nat,
    lengths: Map<u64, u32>,
) -> Seq<(u64, Seq<Hit>)>
    decreases n,
{
    if n == 0 {
        acc
    } else {
        let p = list[n - 1];
        gathered(with_postings(acc, list, (n - 1) as nat, lengths), p.doc_id, hit_of(p, list, lengths))
    }
}

/// What BM25 needs to know of a posting in the list of its term.
pub open spec fn hit_of(p: Posting, list: Seq<Posting>, lengths: Map<u64, u32>) -> Hit {
    Hit {
        doc_freq: list.len() as usize,
        term_freq: p.term_freq,
        doc_length: if lengths.contains_key(p.doc_id) {
            lengths[p.doc_id]
        } else {
            0
        },
    }
}

/// The documents that hold one of the terms, each with its hits, term by term.
/// A term that comes again counts once.
pub open spec fn matched(m: TextModel, terms: Seq<Seq<char>>) -> Seq<(u64, Seq<Hit>)>
    decreases terms.len(),
{
    if terms.len() == 0 {
        Seq::empty()
    } else {
        let before = terms.drop_last();
        let acc = matched(m, before);
        let list = list_of(m.postings, terms.last());
        if before.contains(terms.last()) {
            acc
        } else {
            with_postings(acc, list, list.len(), m.lengths)
        }
    }
}

/// The hit of `doc` in the list of a term, if the document is in it.
pub open spec fn hits_in(list: Seq<Posting>, n: nat, doc: u64, lengths: Map<u64, u32>) -> Seq<Hit>
    decreases n,
{
    if n == 0 {
        Seq::empty()
    } else if list[n - 1].doc_id == doc {
        hits_in(list, (n - 1) as nat, doc, lengths).push(hit_of(list[n - 1], list, lengths))
    } else {
        hits_in(list, (n - 1) as nat, doc, lengths)
    }
}

/// The hits of `doc`, term by term.
pub open spec fn hits_of(m: TextModel, terms: Seq<Seq<char>>, doc: u64) -> Seq<Hit>
    decreases terms.len(),
{
    if terms.len() == 0 {
        Seq::empty()
    } else {
        let before = terms.drop_last();
        let list = list_of(m.postings, terms.last());
        hits_of(m, before, doc) + if before.contains(terms.last()) {
            Seq::empty()
        } else {
            hits_in(list, list.len(), doc, m.lengths)
        }
    }
}

proof fn lemma_with_postings(
    acc: Seq<(u64, Seq<Hit>)>,
    list: Seq<Posting>,
    n: nat,
    lengths: Map<u64, u32>,
    doc: u64,
)
    requires
        sound(acc),
        n <= list.len(),
    ensures
        sound(with_postings(acc, list, n, lengths)),
        items_of(with_postings(acc, list, n, lengths), doc) == items_of(acc, doc) + hits_in(
            list,
            n,
            doc,
            lengths,
        ),
    decreases n,
{
    if n > 0 {
        let k = (n - 1) as nat;
        lemma_with_postings(acc, list, k, lengths, doc);
        lemma_gathered(
            with_postings(acc, list, k, lengths),
            list[k as int].doc_id,
            hit_of(list[k as int], list, lengths),
            doc,
        );
        assert(items_of(with_postings(acc, list, n, lengths), doc) =~= items_of(acc, doc) + hits_in(
            list,
            n,
            doc,
            lengths,
        ));
    } else {
        assert(items_of(acc, doc) + hits_in(list, n, doc, lengths) =~= items_of(acc, doc));
    }
}

/// A query finds each document once, with all of its hits.
pub proof fn law_match_finds_every_hit(m: TextModel, terms: Seq<Seq<char>>, doc: u64)
    ensures
        sound(matched(m, terms)),
        items_of(matched(m, terms), doc) == hits_of(m, terms, doc),
    decreases terms.len(),
{
    if terms.len() > 0 {
        let before = terms.drop_last();
        law_match_finds_every_hit(m, before, doc);
        let list = list_of(m.postings, terms.last());
        lemma_with_postings(matched(m, before), list, list.len(), m.lengths, doc);
        assert(hits_of(m, before, doc) + Seq::<Hit>::empty() =~= hits_of(m, before, doc));
    }
}

/// A document that was removed, or never indexed, is found by no query.
pub proof fn law_removed_is_not_found(m: TextModel, terms: Seq<Seq<char>>, doc: u64)
    requires
        consistent(m),
        !m.lengths.contains_key(doc),
    ensures
        forall|i: int| !is_place(matched(m, terms), doc, i),
{
    lemma_no_hits(m, terms, doc);
    law_match_finds_every_hit(m, terms, doc);
    assert forall|i: int| !is_place(matched(m, terms), doc, i) by {
        if is_place(matched(m, terms), doc, i) {
            lemma_place_unique(matched(m, terms), doc, i);
        }
    }
}

proof fn lemma_no_hits(m: TextModel, terms: Seq<Seq<char>>, doc: u64)
    requires
        consistent(m),
        !m.lengths.contains_key(doc),
    ensures
        hits_of(m, terms, doc) == Seq::<Hit>::empty(),
    decreases terms.len(),
{
    if terms.len() > 0 {
        lemma_no_hits(m, terms.drop_last(), doc);
        let list = list_of(m.postings, terms.last());
        assert forall|i: int| 0 <= i < list.len() implies (#[trigger] list[i]).doc_id != doc by {
            assert(m.lengths.contains_key(m.postings[terms.last()][i].doc_id));
        }
        lemma_no_hits_in(list, list.len(), doc, m.lengths);
        assert(hits_of(m, terms, doc) =~= Seq::<Hit>::empty());
    }
}

proof fn lemma_no_hits_in(list: Seq<Posting>, n: nat, doc: u64, lengths: Map<u64, u32>)
    requires
        n <= list.len(),
        forall|i: int| 0 <= i < list.len() ==> (#[trigger] list[i]).doc_id != doc,
    ensures
        hits_in(list, n, doc, lengths) == Seq::<Hit>::empty(),
    decreases n,
{
    if n > 0 {
        lemma_no_hits_in(list, (n - 1) as nat, doc, lengths);
    }
}

proof fn lemma_hit_in(list: Seq<Posting>, n: nat, doc: u64, lengths: Map<u64, u32>, i: int)
    requires
        n <= list.len(),
        0 <= i < n,
        list[i].doc_id == doc,
    ensures
        hits_in(list, n, doc, lengths).len() > 0,
    decreases n,
{
    if i < n - 1 {
        lemma_hit_in(list, (n - 1) as nat, doc, lengths, i);
    }
}

pub proof fn lemma_term_hits(m: TextModel, terms: Seq<Seq<char>>, doc: u64, k: int, i: int)
    requires
        0 <= k < terms.len(),
        0 <= i < list_of(m.postings, terms[k]).len(),
        list_of(m.postings, terms[k])[i].doc_id == doc,
    ensures
        hits_of(m, terms, doc).len() > 0,
    decreases terms.len(),
{
    let before = terms.drop_last();
    if before.contains(terms[k]) {
        let j = choose|j: int| 0 <= j < before.len() && before[j] == terms[k];
        lemma_term_hits(m, before, doc, j, i);
    } else {
        assert(k == terms.len() - 1) by {
            if k < before.len() {
                assert(before[k] == terms[k]);
            }
        }
        let list = list_of(m.postings, terms.last());
        lemma_hit_in(list, list.len(), doc, m.lengths, i);
    }
}

/// A document is found by every query that holds one of its terms.
pub proof fn law_indexed_is_found(
    m: TextModel,
    doc: u64,
    terms: Seq<Seq<char>>,
    query: Seq<Seq<char>>,
    term: Seq<char>,
)
    requires
        terms.contains(term),
        query.contains(term),
    ensures
        exists|i: int| is_place(matched(model_with(m, doc, terms), query), doc, i),
{
    let now = model_with(m, doc, terms);
    let list = list_of(now.postings, term);
    let i = list.len() - 1;
    assert(list[i].doc_id == doc);
    let k = choose|k: int| 0 <= k < query.len() && query[k] == term;
    lemma_term_hits(now, query, doc, k, i);
    law_match_finds_every_hit(now, query, doc);
    if forall|j: int| !is_place(matched(now, query), doc, j) {
        assert(items_of(matched(now, query), doc) =~= Seq::<Hit>::empty());
    }
}

// ---------- the index ----------

/// The lists of postings, as contracts speak of them.
spec fn postings_view(lists: Map<Seq<char>, Vec<Posting>>) -> Map<Seq<char>, Seq<Posting>> {
    lists.map_values(|list: Vec<Posting>| list@)
}

/// A copy of `list` without `doc`.
fn list_without(list: &Vec<Posting>, doc: u64) -> (r: Vec<Posting>)
    ensures
        r@ == without_doc(list@, doc),
{
    let mut out: Vec<Posting> = Vec::new();
    let mut i: usize = 0;
    while i < list.len()
        invariant
            i <= list@.len(),
            out@ == without_doc(list@.take(i as int), doc),
        decreases list@.len() - i,
    {
        proof {
            assert(list@.take(i + 1).drop_last() =~= list@.take(i as int));
        }
        if list[i].doc_id != doc {
            out.push(list[i]);
        }
        i = i + 1;
    }
    assert(list@.take(i as int) =~= list@);
    out
}

/// Puts a posting behind those of its term.
fn add_posting(lists: &mut TermMap<Vec<Posting>>, term: &String, posting: Posting)
    requires
        old(lists).well_formed(),
    ensures
        final(lists).well_formed(),
        postings_view(final(lists)@) == postings_view(old(lists)@).insert(
            term@,
            list_of(postings_view(old(lists)@), term@).push(posting),
        ),
{
    let ghost before = lists.list();
    match lists.position(term) {
        Ok(i) => {
            proof {
                lemma_term_place(before, term@, i as int);
            }
            lists.entries[i].1.push(posting);
            proof {
                let now = lists.list();
                lemma_term_updated(before, now, i as int);
                assert(postings_view(lists@) =~= postings_view(by_term(before)).insert(
                    term@,
                    list_of(postings_view(by_term(before)), term@).push(posting),
                ));
            }
        },
        Err(p) => {
            let mut list: Vec<Posting> = Vec::new();
            list.push(posting);
            let entry: (String, Vec<Posting>) = (term.clone(), list);
            proof {
                lemma_term_inserted(before, p as int, entry);
                assert(list@ =~= list_of(postings_view(by_term(before)), term@).push(posting));
            }
            lists.entries.insert(p, entry);
            assert(lists.list() =~= before.insert(p as int, entry));
            assert(postings_view(lists@) =~= postings_view(by_term(before)).insert(
                term@,
                list_of(postings_view(by_term(before)), term@).push(posting),
            ));
        },
    }
}

/// Whether `counts` says how often each term stands in `terms`.
spec fn counts_terms(counts: Map<Seq<char>, u32>, terms: Seq<Seq<char>>) -> bool {
    &&& forall|t: Seq<char>| #[trigger] counts.contains_key(t) <==> terms.contains(t)
    &&& forall|t: Seq<char>| #[trigger]
        counts.contains_key(t) ==> counts[t] == occurrences(terms, t)
}

proof fn lemma_occurrences(terms: Seq<Seq<char>>, t: Seq<char>)
    ensures
        occurrences(terms, t) <= terms.len(),
        occurrences(terms, t) > 0 <==> terms.contains(t),
    decreases terms.len(),
{
    if terms.len() > 0 {
        let before = terms.drop_last();
        lemma_occurrences(before, t);
        if before.contains(t) {
            let i = choose|i: int| 0 <= i < before.len() && before[i] == t;
            assert(terms[i] == t);
        }
        if terms.last() == t {
            assert(terms[terms.len() - 1] == t);
        }
        if terms.contains(t) && terms.last() != t {
            let i = choose|i: int| 0 <= i < terms.len() && terms[i] == t;
            assert(before[i] == t);
        }
    }
}

/// One more term.
proof fn lemma_count_one_more(
    before: Map<Seq<char>, u32>,
    now: Map<Seq<char>, u32>,
    terms: Seq<Seq<char>>,
    t: Seq<char>,
)
    requires
        counts_terms(before, terms),
        terms.len() < u32::MAX,
        now == before.insert(
            t,
            if before.contains_key(t) {
                (before[t] + 1) as u32
            } else {
                1u32
            },
        ),
    ensures
        counts_terms(now, terms.push(t)),
{
    let all = terms.push(t);
    assert(all.drop_last() =~= terms);
    assert forall|x: Seq<char>| #[trigger] now.contains_key(x) <==> all.contains(x) by {
        lemma_occurrences(terms, x);
        lemma_occurrences(all, x);
        assert(before.contains_key(x) == terms.contains(x));
    }
    assert forall|x: Seq<char>| #[trigger] now.contains_key(x) implies now[x] == occurrences(
        all,
        x,
    ) by {
        lemma_occurrences(terms, x);
        if before.contains_key(x) {
            assert(before[x] == occurrences(terms, x));
        } else {
            assert(!terms.contains(x));
        }
    }
}

/// How often each term stands in `terms`.
fn count_terms(terms: &Vec<String>) -> (r: TermMap<u32>)
    requires
        terms@.len() <= u32::MAX,
    ensures
        r.well_formed(),
        counts_terms(r@, strings_view(terms@)),
{
    let ghost all = strings_view(terms@);
    let mut counts: TermMap<u32> = TermMap::new();
    let mut i: usize = 0;
    assert(all.take(0) =~= Seq::<Seq<char>>::empty());
    while i < terms.len()
        invariant
            i <= terms@.len() <= u32::MAX,
            all == strings_view(terms@),
            counts.well_formed(),
            counts_terms(counts@, all.take(i as int)),
        decreases terms@.len() - i,
    {
        let ghost before = counts.list();
        let ghost t = all[i as int];
        proof {
            assert(all.take(i as int).push(t) =~= all.take(i + 1));
            lemma_occurrences(all.take(i as int), t);
        }
        match counts.position(&terms[i]) {
            Ok(p) => {
                proof {
                    lemma_term_place(before, t, p as int);
                }
                let n: u32 = counts.entries[p].1;
                counts.entries[p].1 = n + 1;
                proof {
                    lemma_term_updated(before, counts.list(), p as int);
                }
            },
            Err(p) => {
                let entry: (String, u32) = (terms[i].clone(), 1);
                proof {
                    lemma_term_inserted(before, p as int, entry);
                }
                counts.entries.insert(p, entry);
                assert(counts.list() =~= before.insert(p as int, entry));
            },
        }
        proof {
            lemma_count_one_more(by_term(before), counts@, all.take(i as int), t);
        }
        i = i + 1;
    }
    assert(all.take(i as int) =~= all);
    counts
}

/// `postings` with those of `doc` for the first `n` terms of `counts`.
spec fn postings_with_counts(
    postings: Map<Seq<char>, Seq<Posting>>,
    doc: u64,
    counts: Seq<(String, u32)>,
    n: int,
) -> Map<Seq<char>, Seq<Posting>>
    decreases n,
{
    if n <= 0 {
        postings
    } else {
        let before = postings_with_counts(postings, doc, counts, n - 1);
        let (term, freq) = counts[n - 1];
        before.insert(
            term@,
            list_of(before, term@).push(Posting { doc_id: doc, term_freq: freq }),
        )
    }
}

proof fn lemma_postings_with_counts(
    postings: Map<Seq<char>, Seq<Posting>>,
    doc: u64,
    counts: Seq<(String, u32)>,
    n: int,
    t: Seq<char>,
)
    requires
        terms_sorted(counts),
        0 <= n <= counts.len(),
    ensures
        ({
            let now = postings_with_counts(postings, doc, counts, n);
            &&& forall|i: int|
                0 <= i < n && #[trigger] is_term(counts, t, i) ==> now.contains_key(t) && now[t]
                    == list_of(postings, t).push(
                    Posting { doc_id: doc, term_freq: counts[i].1 },
                )
            &&& (forall|i: int| 0 <= i < n ==> !#[trigger] is_term(counts, t, i)) ==> (
            now.contains_key(t) == postings.contains_key(t) && (now.contains_key(t) ==> now[t]
                == postings[t]))
        }),
    decreases n,
{
    if n > 0 {
        lemma_postings_with_counts(postings, doc, counts, n - 1, t);
        let last = n - 1;
        assert(is_term(counts, counts[last].0@, last));
        if is_term(counts, t, last) {
            lemma_term_place(counts, t, last);
        }
    }
}

proof fn lemma_counts_give_postings(
    postings: Map<Seq<char>, Seq<Posting>>,
    doc: u64,
    counts: Seq<(String, u32)>,
    terms: Seq<Seq<char>>,
)
    requires
        terms_sorted(counts),
        counts_terms(by_term(counts), terms),
        terms.len() <= u32::MAX,
    ensures
        postings_with_counts(postings, doc, counts, counts.len() as int) == postings_with(
            postings,
            doc,
            terms,
        ),
{
    let n = counts.len() as int;
    let a = postings_with_counts(postings, doc, counts, n);
    let b = postings_with(postings, doc, terms);
    assert forall|t: Seq<char>| #[trigger] a.contains_key(t) == b.contains_key(t) && (
    a.contains_key(t) ==> a[t] == b[t]) by {
        lemma_postings_with_counts(postings, doc, counts, n, t);
        lemma_occurrences(terms, t);
        if by_term(counts).contains_key(t) {
            let i = choose|i: int| is_term(counts, t, i);
            assert(is_term(counts, t, i));
            lemma_term_place(counts, t, i);
        } else {
            assert forall|i: int| 0 <= i < n implies !#[trigger] is_term(counts, t, i) by {}
        }
    }
    assert(a =~= b);
}

/// Takes a document out of every list, and the lists that become empty out of
/// the map.
fn drop_document(lists: &mut TermMap<Vec<Posting>>, doc: u64)
    requires
        old(lists).well_formed(),
    ensures
        final(lists).well_formed(),
        postings_view(final(lists)@) == postings_without(postings_view(old(lists)@), doc),
{
    let ghost all = lists.list();
    let mut kept: Vec<(String, Vec<Posting>)> = Vec::new();
    let ghost mut from: Seq<int> = Seq::empty();
    let mut i: usize = 0;
    while i < lists.entries.len()
        invariant
            i <= lists.entries@.len(),
            all == lists.entries@,
            all == old(lists).list(),
            terms_sorted(all),
            keeps_lists(all, doc, i as int, kept@, from),
        decreases lists.entries@.len() - i,
    {
        let list: Vec<Posting> = list_without(&lists.entries[i].1, doc);
        let ghost before = kept@;
        let ghost was = from;
        if list.len() > 0 {
            let term: String = lists.entries[i].0.clone();
            kept.push((term, list));
            proof {
                from = from.push(i as int);
                assert(kept@.drop_last() =~= before);
            }
        }
        proof {
            lemma_keeps_one_more(all, doc, i as int, before, was, kept@, from);
        }
        i = i + 1;
    }
    proof {
        lemma_kept_lists(all, doc, kept@, from);
    }
    lists.entries = kept;
}

/// Whether `kept` are those of the first `n` lists that do not become empty
/// without `doc`; `from` says where each stood.
spec fn keeps_lists(
    all: Seq<(String, Vec<Posting>)>,
    doc: u64,
    n: int,
    kept: Seq<(String, Vec<Posting>)>,
    from: Seq<int>,
) -> bool {
    &&& kept.len() == from.len()
    &&& forall|j: int| #![trigger kept[j]] #![trigger from[j]]
        0 <= j < kept.len() ==> {
            &&& 0 <= from[j] < n
            &&& kept[j].0@ == all[from[j]].0@
            &&& kept[j].1@ == without_doc(all[from[j]].1@, doc)
            &&& kept[j].1@.len() > 0
        }
    &&& forall|a: int, b: int|
        0 <= a < b < from.len() ==> (#[trigger] from[a]) < (#[trigger] from[b])
    &&& forall|q: int|
        0 <= q < n && without_doc((#[trigger] all[q]).1@, doc).len() > 0 ==> from.contains(q)
}

proof fn lemma_keeps_one_more(
    all: Seq<(String, Vec<Posting>)>,
    doc: u64,
    n: int,
    before: Seq<(String, Vec<Posting>)>,
    was: Seq<int>,
    kept: Seq<(String, Vec<Posting>)>,
    from: Seq<int>,
)
    requires
        0 <= n < all.len(),
        keeps_lists(all, doc, n, before, was),
        ({
            let list = without_doc(all[n].1@, doc);
            if list.len() > 0 {
                &&& from == was.push(n)
                &&& kept.len() == before.len() + 1
                &&& kept.drop_last() == before
                &&& kept.last().0@ == all[n].0@
                &&& kept.last().1@ == list
            } else {
                from == was && kept == before
            }
        }),
    ensures
        keeps_lists(all, doc, n + 1, kept, from),
{
    let grew = without_doc(all[n].1@, doc).len() > 0;
    assert forall|j: int| #![trigger kept[j]] #![trigger from[j]] 0 <= j < kept.len() implies {
        &&& 0 <= from[j] < n + 1
        &&& kept[j].0@ == all[from[j]].0@
        &&& kept[j].1@ == without_doc(all[from[j]].1@, doc)
        &&& kept[j].1@.len() > 0
    } by {
        if j < before.len() {
            assert(from[j] == was[j]);
            if grew {
                assert(kept.drop_last()[j] == kept[j]);
            }
            assert(kept[j] == before[j]);
        }
    }
    assert forall|a: int, b: int| 0 <= a < b < from.len() implies (#[trigger] from[a]) < (
    #[trigger] from[b]) by {
        assert(was[a] < n);
        if b < was.len() {
            assert(was[a] < was[b]);
        }
    }
    assert forall|q: int|
        0 <= q < n + 1 && without_doc((#[trigger] all[q]).1@, doc).len()
            > 0 implies from.contains(q) by {
        if q < n {
            assert(was.contains(q));
            let j = choose|j: int| 0 <= j < was.len() && was[j] == q;
            assert(from[j] == q);
        } else {
            assert(from[was.len() as int] == q);
        }
    }
}

proof fn lemma_kept_lists(
    all: Seq<(String, Vec<Posting>)>,
    doc: u64,
    kept: Seq<(String, Vec<Posting>)>,
    from: Seq<int>,
)
    requires
        terms_sorted(all),
        keeps_lists(all, doc, all.len() as int, kept, from),
    ensures
        terms_sorted(kept),
        postings_view(by_term(kept)) == postings_without(postings_view(by_term(all)), doc),
{
    assert forall|a: int, b: int| 0 <= a < b < kept.len() implies term_before(
        (#[trigger] kept[a]).0@,
        (#[trigger] kept[b]).0@,
    ) by {
        assert(from[a] < from[b]);
        assert(term_before(all[from[a]].0@, all[from[b]].0@));
    }
    let a = postings_view(by_term(kept));
    let b = postings_without(postings_view(by_term(all)), doc);
    assert forall|t: Seq<char>| #[trigger] a.contains_key(t) == b.contains_key(t) && (
    a.contains_key(t) ==> a[t] == b[t]) by {
        if exists|j: int| is_term(kept, t, j) {
            let j = choose|j: int| is_term(kept, t, j);
            lemma_term_place(kept, t, j);
            assert(is_term(all, t, from[j]));
            lemma_term_place(all, t, from[j]);
        }
        if b.contains_key(t) {
            let q = choose|q: int| is_term(all, t, q);
            assert(is_term(all, t, q));
            lemma_term_place(all, t, q);
            assert(without_doc(all[q].1@, doc).len() > 0);
            let j = choose|j: int| 0 <= j < from.len() && from[j] == q;
            assert(kept[j].0@ == all[from[j]].0@);
            assert(is_term(kept, t, j));
        }
    }
    assert(a =~= b);
}

/// Whether `terms[i]` stands earlier in `terms`, too.
fn seen_before(terms: &Vec<String>, i: usize) -> (r: bool)
    requires
        i < terms@.len(),
    ensures
        r == strings_view(terms@).take(i as int).contains(strings_view(terms@)[i as int]),
{
    let ghost all = strings_view(terms@);
    let mut j: usize = 0;
    while j < i
        invariant
            j <= i < terms@.len(),
            all == strings_view(terms@),
            forall|k: int| 0 <= k < j ==> (#[trigger] all[k]) != all[i as int],
        decreases i - j,
    {
        if terms[j] == terms[i] {
            assert(all.take(i as int)[j as int] == all[i as int]);
            return true;
        }
        j = j + 1;
    }
    assert forall|k: int| 0 <= k < i implies (#[trigger] all.take(i as int)[k]) != all[i as int] by {
        assert(all[k] != all[i as int]);
    }
    false
}

pub struct InvertedIndex {
    lists: TermMap<Vec<Posting>>,
    doc_lengths: HashMap<u64, u32>,
    total_doc_length: u128,
    doc_count: u64,
}

impl View for InvertedIndex {
    type V = TextModel;

    closed spec fn view(&self) -> TextModel {
        TextModel {
            postings: postings_view(self.lists@),
            lengths: self.doc_lengths@,
            total: self.total_doc_length as nat,
            count: self.doc_count as nat,
        }
    }
}

/// The index without documents.
pub open spec fn empty_model() -> TextModel {
    TextModel { postings: Map::empty(), lengths: Map::empty(), total: 0, count: 0 }
}

/// Whether `score` may give `s` to a document with these hits.
pub open spec fn may_match<F: Fn(Corpus, &[Hit]) -> u32>(
    score: F,
    corpus: Corpus,
    hits: Seq<Hit>,
    s: u32,
) -> bool {
    exists|h: &[Hit]| h@ == hits && #[trigger] call_ensures(score, (corpus, h), s)
}

/// Whether `scores` are what `score` may give to the documents of `acc`.
pub open spec fn are_match_scores<F: Fn(Corpus, &[Hit]) -> u32>(
    acc: Seq<(u64, Seq<Hit>)>,
    score: F,
    corpus: Corpus,
    scores: Seq<u32>,
) -> bool {
    scores.len() == acc.len() && forall|i: int|
        0 <= i < acc.len() ==> may_match(score, corpus, acc[i].1, #[trigger] scores[i])
}

/// Whether `out` is what a search of `query` may return.
pub open spec fn is_text_search<F: Fn(Corpus, &[Hit]) -> u32>(
    m: TextModel,
    query: Seq<char>,
    k: nat,
    score: F,
    out: Seq<(u64, u32)>,
) -> bool {
    if m.count == 0 {
        out.len() == 0
    } else {
        exists|scores: Seq<u32>| #[trigger]
            are_match_scores(matched(m, tokens(query)), score, corpus_of(m), scores) && out == best(
                with_scores(matched(m, tokens(query)), scores),
                k,
            )
    }
}

pub open spec fn corpus_of(m: TextModel) -> Corpus {
    Corpus { doc_count: m.count as u64, total_doc_length: m.total as u128 }
}

impl InvertedIndex {
    pub closed spec fn well_formed(&self) -> bool {
        self.lists.well_formed() && consistent(self@)
    }

    /// The parts of a well-formed index agree.
    pub proof fn lemma_consistent(&self)
        requires
            self.well_formed(),
        ensures
            consistent(self@),
    {
    }

    pub fn new() -> (r: Self)
        ensures
            r.well_formed(),
            r@ == empty_model(),
    {
        let r = InvertedIndex {
            lists: TermMap::new(),
            doc_lengths: HashMap::new(),
            total_doc_length: 0,
            doc_count: 0,
        };
        proof {
            assert(r@.postings =~= Map::<Seq<char>, Seq<Posting>>::empty());
            assert(r@.lengths =~= Map::<u64, u32>::empty());
            assert(r@ =~= empty_model());
        }
        r
    }

    /// How many terms have a document.
    pub fn term_count(&self) -> (r: usize)
        requires
            self.well_formed(),
        ensures
            r == self@.postings.dom().len(),
            self@.postings.dom().finite(),
    {
        assert(self@.postings.dom() =~= self.lists@.dom());
        self.lists.len()
    }

    /// How many documents there are, and how many terms they have together.
    pub fn corpus(&self) -> (r: Corpus)
        ensures
            r == corpus_of(self@),
            r.doc_count == self@.count,
            r.total_doc_length == self@.total,
    {
        Corpus { doc_count: self.doc_count, total_doc_length: self.total_doc_length }
    }

    /// Takes the document `doc_id` out of the index, if it is there. Terms that
    /// no document is left for go, too: otherwise they would pile up where
    /// documents come and go.
    pub fn remove_document(&mut self, doc_id: u64)
        requires
            old(self).well_formed(),
        ensures
            final(self).well_formed(),
            final(self)@ == model_without(old(self)@, doc_id),
    {
        let ghost m = self@;
        proof {
            law_remove_keeps_consistent(m, doc_id);
        }
        if let Some(len) = self.doc_lengths.remove(&doc_id) {
            self.total_doc_length = self.total_doc_length.saturating_sub(len as u128);
            self.doc_count = self.doc_count.saturating_sub(1);
            drop_document(&mut self.lists, doc_id);
            assert(self@ =~= model_without(m, doc_id));
        } else {
            assert(self@ =~= m);
        }
    }

    /// Indexes the document `doc_id` with `terms`, in the place of what was
    /// indexed for it before.
    pub fn index_terms(&mut self, doc_id: u64, terms: &Vec<String>)
        requires
            old(self).well_formed(),
            terms@.len() <= u32::MAX,
        ensures
            final(self).well_formed(),
            final(self)@ == model_with(old(self)@, doc_id, strings_view(terms@)),
    {
        let ghost m = self@;
        let ghost list = strings_view(terms@);
        proof {
            law_remove_keeps_consistent(m, doc_id);
            law_index_keeps_consistent(m, doc_id, list);
        }
        self.remove_document(doc_id);
        let ghost base = self@.postings;
        let counts: TermMap<u32> = count_terms(terms);
        let ghost list_of_counts = counts.list();
        let mut i: usize = 0;
        while i < counts.entries.len()
            invariant
                i <= list_of_counts.len(),
                list_of_counts == counts.entries@,
                self.lists.well_formed(),
                postings_view(self.lists@) == postings_with_counts(
                    base,
                    doc_id,
                    list_of_counts,
                    i as int,
                ),
                self@.lengths == model_without(m, doc_id).lengths,
                self@.total == model_without(m, doc_id).total,
                self@.count == model_without(m, doc_id).count,
            decreases list_of_counts.len() - i,
        {
            let (term, freq) = &counts.entries[i];
            add_posting(&mut self.lists, term, Posting { doc_id, term_freq: *freq });
            i = i + 1;
        }
        proof {
            lemma_counts_give_postings(base, doc_id, list_of_counts, list);
        }
        let len: u32 = terms.len() as u32;
        proof {
            lemma_sum_bound(self.doc_lengths@);
        }
        self.doc_lengths.insert(doc_id, len);
        self.total_doc_length = self.total_doc_length + len as u128;
        let docs: usize = self.doc_lengths.len();
        self.doc_count = docs as u64;
        assert(self@ =~= model_with(m, doc_id, list));
    }

    /// Indexes the document `doc_id` with the tokens of `text`, in the place of
    /// what was indexed for it before.
    pub fn index_document(&mut self, doc_id: u64, text: &str)
        requires
            old(self).well_formed(),
            tokens(text@).len() <= u32::MAX,
        ensures
            final(self).well_formed(),
            final(self)@ == model_with(old(self)@, doc_id, tokens(text@)),
    {
        let terms: Vec<String> = tokenize(text);
        self.index_terms(doc_id, &terms);
    }

    /// Indexes the document `doc_id` as `index_document` does, if its length can
    /// count the tokens of `text`; otherwise the index stays as it is. Returns
    /// whether the document was indexed.
    pub fn try_index_document(&mut self, doc_id: u64, text: &str) -> (r: bool)
        requires
            old(self).well_formed(),
        ensures
            final(self).well_formed(),
            r == (tokens(text@).len() <= u32::MAX),
            r ==> final(self)@ == model_with(old(self)@, doc_id, tokens(text@)),
            !r ==> *final(self) == *old(self),
    {
        let count: usize = tokenize(text).len();
        if count as u64 <= u32::MAX as u64 {
            self.index_document(doc_id, text);
            true
        } else {
            false
        }
    }

    /// The documents that hold one of `terms`, each with its hits.
    pub fn matches(&self, terms: &Vec<String>) -> (r: Vec<(u64, Vec<Hit>)>)
        requires
            self.well_formed(),
        ensures
            gather_view(r@) == matched(self@, strings_view(terms@)),
    {
        let ghost list = strings_view(terms@);
        let ghost m = self@;
        let mut acc: Gathering<Hit> = Gathering::new();
        let mut i: usize = 0;
        assert(acc@ =~= matched(m, list.take(0)));
        while i < terms.len()
            invariant
                i <= terms@.len(),
                list == strings_view(terms@),
                m == self@,
                self.well_formed(),
                acc.well_formed(),
                acc@ == matched(m, list.take(i as int)),
            decreases terms@.len() - i,
        {
            proof {
                assert(list.take(i + 1).drop_last() =~= list.take(i as int));
                assert(list.take(i + 1).last() == list[i as int]);
            }
            if !seen_before(terms, i) {
                match self.lists.get(&terms[i]) {
                    Some(postings) => {
                        self.gather_hits(&mut acc, postings);
                    },
                    None => {},
                }
            }
            i = i + 1;
        }
        assert(list.take(i as int) =~= list);
        acc.into_items()
    }

    /// Puts the documents of one term behind what was gathered.
    fn gather_hits(&self, acc: &mut Gathering<Hit>, postings: &Vec<Posting>)
        requires
            old(acc).well_formed(),
        ensures
            final(acc).well_formed(),
            final(acc)@ == with_postings(
                old(acc)@,
                postings@,
                postings@.len(),
                self@.lengths,
            ),
    {
        let ghost start = acc@;
        let mut n: usize = 0;
        while n < postings.len()
            invariant
                n <= postings@.len(),
                acc.well_formed(),
                acc@ == with_postings(start, postings@, n as nat, self@.lengths),
            decreases postings@.len() - n,
        {
            let p: Posting = postings[n];
            let doc_length: u32 = match self.doc_lengths.get(&p.doc_id) {
                Some(len) => *len,
                None => 0,
            };
            let hit = Hit { doc_freq: postings.len(), term_freq: p.term_freq, doc_length };
            assert(hit == hit_of(p, postings@, self@.lengths));
            acc.add_item(p.doc_id, hit);
            n = n + 1;
        }
    }

    /// The `k` documents that match `query` best, from the best score to the
    /// worst. `score` gives the score of a document: it gets what is known of
    /// all documents, and the document's hits in the order of the query's terms.
    pub fn search<F: Fn(Corpus, &[Hit]) -> u32>(
        &self,
        query: &str,
        k: usize,
        score: F,
    ) -> (r: Vec<(u64, u32)>)
        requires
            self.well_formed(),
            forall|hits: &[Hit]|
                hits@.len() > 0 ==> #[trigger] call_requires(score, (corpus_of(self@), hits)),
        ensures
            is_text_search(self@, query@, k as nat, score, r@),
    {
        if self.doc_count == 0 {
            return Vec::new();
        }
        let terms: Vec<String> = tokenize(query);
        let acc: Vec<(u64, Vec<Hit>)> = self.matches(&terms);
        let corpus: Corpus = self.corpus();
        let ghost all = matched(self@, tokens(query@));
        let mut scores: Vec<u32> = Vec::new();
        let mut i: usize = 0;
        proof {
            law_match_finds_every_hit(self@, tokens(query@), 0);
        }
        while i < acc.len()
            invariant
                i <= acc@.len(),
                gather_view(acc@) == all,
                sound(all),
                corpus == corpus_of(self@),
                forall|hits: &[Hit]|
                    hits@.len() > 0 ==> #[trigger] call_requires(score, (corpus_of(self@), hits)),
                scores@.len() == i,
                forall|j: int|
                    0 <= j < i ==> may_match(score, corpus, all[j].1, #[trigger] scores@[j]),
            decreases acc@.len() - i,
        {
            assert(all[i as int].1 == acc@[i as int].1@);
            let s: u32 = score(corpus, acc[i].1.as_slice());
            assert(may_match(score, corpus, all[i as int].1, s));
            scores.push(s);
            i = i + 1;
        }
        assert(are_match_scores(all, score, corpus, scores@));
        rank_matches(&acc, &scores, k)
    }
}

/// The `k` best of the documents that were found, by their scores.
pub fn rank_matches(found: &Vec<(u64, Vec<Hit>)>, scores: &Vec<u32>, k: usize) -> (r: Vec<
    (u64, u32),
>)
    requires
        scores@.len() == found@.len(),
    ensures
        r@ == best(with_scores(gather_view(found@), scores@), k as nat),
{
    let pairs: Vec<(u64, u32)> = attach_scores(found, scores);
    top_k(&pairs, k)
}

impl Default for InvertedIndex {
    fn default() -> (r: Self)
        ensures
            r.well_formed(),
            r@ == empty_model(),
    {
        Self::new()
    }
}

} // verus!
