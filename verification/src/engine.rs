//! The hybrid search engine: a blob, a vector and a text for each document id,
//! and queries by vector and text together.
//!
//! Only the store is durable. The vector index and the inverted index are
//! derived from it: opening an engine rebuilds both from the stored records,
//! and every write keeps them in step with the store.

use vstd::prelude::*;
use crate::codec::{be_bytes, doc_id, doc_key, law_doc_keys_distinct, lemma_doc_key};
use crate::compaction::{compacted, expected_entries, TableFile};
use crate::bloom::BITS_PER_KEY;
use crate::compaction_laws::live;
use crate::engine_laws::{
    law_blob_is_the_stored_one, law_len_counts_documents, law_query_fills_its_list,
};
use crate::fusion::{is_fusion, lists_view, reciprocal_rank_fusion};
use crate::gather::{by_id, distinct_ids, stored};
use crate::lsm::{is_read, log_weight, read_view, LsmEngine};
use crate::memtable::ENTRY_OVERHEAD;
use crate::messages::{store_message, vector_message};
use crate::order::{lemma_lex_total, lex_less};
use crate::record::{
    decode_record, document_bytes, document_fits, document_of, encode_record, law_record_round_trip,
    lemma_chars_bound, lemma_document_len, lemma_read_text_bound, record_message, Document,
    DocumentModel,
};
use crate::score::{at_most, rank_key};
use crate::sstable::{table_bytes, TableError};
use crate::store::{
    flawless, is_first_flaw, is_next_seq, is_snapshot, law_read_after_write, logged, pairs_view,
    store_versions, uses_seq, StoreError,
};
use crate::text::{
    consistent, describes, is_text_search, law_empty_describes_nothing, law_index_describes,
    law_remove_describes, model_with, model_without, Corpus, Hit, InvertedIndex, TextModel,
};
use crate::tokens::{lemma_token_count, tokens};
use crate::vector::{
    is_search, law_remove_then_read, law_store_then_read, without_row, Metric, VectorError,
    VectorIndex,
};
use crate::versions::{lemma_lookup_none, lookup, Versions};
use crate::wal::{record_bytes, replayed, LogEntry, Op};

verus! {

/// How many candidates each search gives to the fusion for each result that is
/// asked for. A document that ranks well in both searches can beat one that
/// leads only one of them, but only if both lists reach far enough to hold it.
pub const CANDIDATE_POOL_MULTIPLIER: usize = 4;

/// How many candidates each search gives at least.
pub const MIN_CANDIDATE_POOL: usize = 20;

/// The bits of the fusion's constant, which is sixty.
pub const FUSION_CONSTANT: u32 = 0x4270_0000;

#[derive(Debug)]
pub enum EngineError {
    Io(StoreError),
    Vector(VectorError),
    Corrupt(String),
}

/// An error as contracts speak of it.
#[verifier::ext_equal]
pub enum EngineFault {
    Io(StoreError),
    Vector(VectorError),
    Corrupt(Seq<char>),
}

impl View for EngineError {
    type V = EngineFault;

    open spec fn view(&self) -> EngineFault {
        match self {
            EngineError::Io(e) => EngineFault::Io(*e),
            EngineError::Vector(e) => EngineFault::Vector(*e),
            EngineError::Corrupt(msg) => EngineFault::Corrupt(msg@),
        }
    }
}

pub open spec fn engine_message(e: EngineFault) -> Seq<char> {
    match e {
        EngineFault::Io(e) => "io error: "@ + store_message(e),
        EngineFault::Vector(e) => "vector error: "@ + vector_message(e),
        EngineFault::Corrupt(msg) => "corrupt document record: "@ + msg,
    }
}

impl EngineError {
    /// What to tell of the error.
    pub fn message(&self) -> (r: String)
        ensures
            r@ == engine_message(self@),
    {
        match self {
            EngineError::Io(e) => {
                let mut out: String = "io error: ".to_owned();
                out.append(e.message().as_str());
                out
            },
            EngineError::Vector(e) => {
                let mut out: String = "vector error: ".to_owned();
                out.append(e.message().as_str());
                out
            },
            EngineError::Corrupt(msg) => {
                let mut out: String = "corrupt document record: ".to_owned();
                out.append(msg.as_str());
                out
            },
        }
    }
}

impl From<StoreError> for EngineError {
    fn from(e: StoreError) -> (r: Self) {
        EngineError::Io(e)
    }
}

impl vstd::std_specs::convert::FromSpecImpl<StoreError> for EngineError {
    open spec fn obeys_from_spec() -> bool {
        true
    }

    open spec fn from_spec(e: StoreError) -> Self {
        EngineError::Io(e)
    }
}

impl From<VectorError> for EngineError {
    fn from(e: VectorError) -> (r: Self) {
        EngineError::Vector(e)
    }
}

impl vstd::std_specs::convert::FromSpecImpl<VectorError> for EngineError {
    open spec fn obeys_from_spec() -> bool {
        true
    }

    open spec fn from_spec(e: VectorError) -> Self {
        EngineError::Vector(e)
    }
}

/// One result of a query. The score is a single-precision number, held as its
/// bits.
pub struct SearchHit {
    pub id: u64,
    pub score: u32,
    pub blob: Vec<u8>,
}

// ---------- the documents of a store ----------

/// The record of the document `id`, if there is one.
pub open spec fn record_of(m: Versions, id: u64) -> Option<Seq<u8>> {
    live(lookup(m, be_bytes(id), u64::MAX))
}

/// The documents of a store.
pub open spec fn documents_in(m: Versions) -> Map<u64, DocumentModel> {
    Map::new(
        |id: u64| record_of(m, id) is Some && document_of(record_of(m, id)->0) is Ok,
        |id: u64| document_of(record_of(m, id)->0)->Ok_0,
    )
}

/// Whether every record is a document's.
pub open spec fn all_documents(m: Versions) -> bool {
    forall|id: u64| (#[trigger] record_of(m, id)) is Some ==> document_of(record_of(m, id)->0) is Ok
}

pub open spec fn vectors_in(docs: Map<u64, DocumentModel>) -> Map<u64, Seq<u32>> {
    docs.map_values(|d: DocumentModel| d.vector)
}

pub open spec fn terms_in(docs: Map<u64, DocumentModel>) -> Map<u64, Seq<Seq<char>>> {
    docs.map_values(|d: DocumentModel| tokens(d.text))
}

/// Whether the two indexes hold exactly the documents of `docs`.
pub open spec fn indexes_hold(
    vectors: Seq<(u64, Seq<u32>)>,
    text: TextModel,
    docs: Map<u64, DocumentModel>,
) -> bool {
    by_id(vectors) == vectors_in(docs) && describes(text, terms_in(docs))
}

/// Whether every document's vector has `dim` components.
pub open spec fn all_of_width(docs: Map<u64, DocumentModel>, dim: usize) -> bool {
    forall|id: u64| #[trigger] docs.contains_key(id) ==> docs[id].vector.len() == dim
}

/// Whether an engine for vectors of `dim` components can be opened over `m`:
/// every record is a document's, with such a vector, and a sequence number is
/// left for the next write.
pub open spec fn can_serve(m: Versions, dim: usize) -> bool {
    &&& !uses_seq(m, u64::MAX)
    &&& all_documents(m)
    &&& all_of_width(documents_in(m), dim)
}

/// Why a stored pair cannot be taken into the indexes, if it cannot. A key that
/// is no document's is passed over.
pub open spec fn pair_fault(pair: (Seq<u8>, Seq<u8>), dim: usize) -> Option<EngineFault> {
    if pair.0.len() != 8 {
        None
    } else {
        match document_of(pair.1) {
            Err(e) => Some(EngineFault::Corrupt(record_message(e))),
            Ok(d) => if d.vector.len() != dim {
                Some(
                    EngineFault::Vector(
                        VectorError::DimensionMismatch {
                            expected: dim,
                            got: d.vector.len() as usize,
                        },
                    ),
                )
            } else {
                None
            },
        }
    }
}

/// Whether `x` is why the first pair that cannot be taken in, `i`, cannot.
pub open spec fn is_first_fault(
    pairs: Seq<(Seq<u8>, Seq<u8>)>,
    dim: usize,
    i: int,
    x: EngineFault,
) -> bool {
    &&& 0 <= i < pairs.len()
    &&& pair_fault(pairs[i], dim) == Some(x)
    &&& forall|j: int| 0 <= j < i ==> pair_fault(#[trigger] pairs[j], dim) is None
}

/// The id whose key is `key`.
pub open spec fn id_of(key: Seq<u8>) -> u64 {
    choose|id: u64| be_bytes(id) == key
}

/// The documents of the first `n` pairs.
spec fn documents_of(pairs: Seq<(Seq<u8>, Seq<u8>)>, n: nat) -> Map<u64, DocumentModel>
    decreases n,
{
    if n == 0 {
        Map::empty()
    } else {
        let (key, record) = pairs[n - 1];
        let before = documents_of(pairs, (n - 1) as nat);
        if key.len() == 8 {
            before.insert(id_of(key), document_of(record)->Ok_0)
        } else {
            before
        }
    }
}

proof fn lemma_id_of(id: u64)
    ensures
        id_of(be_bytes(id)) == id,
{
    let c = choose|c: u64| be_bytes(c) == be_bytes(id);
    law_doc_keys_distinct(c, id);
}

proof fn lemma_be_len(id: u64)
    ensures
        be_bytes(id).len() == 8,
{
    crate::codec::lemma_le_bytes_len(id as nat, 8);
}

/// What the documents of the first `n` pairs are.
proof fn lemma_documents_of(pairs: Seq<(Seq<u8>, Seq<u8>)>, n: nat, id: u64)
    requires
        n <= pairs.len(),
        forall|i: int, j: int|
            0 <= i < j < pairs.len() ==> lex_less((#[trigger] pairs[i]).0, (#[trigger] pairs[j]).0),
        forall|i: int|
            0 <= i < pairs.len() && (#[trigger] pairs[i]).0.len() == 8 ==> exists|c: u64|
                be_bytes(c) == pairs[i].0,
    ensures
        documents_of(pairs, n).contains_key(id) <==> exists|i: int|
            0 <= i < n && (#[trigger] pairs[i]).0 == be_bytes(id),
        forall|i: int|
            0 <= i < n && (#[trigger] pairs[i]).0 == be_bytes(id) ==> documents_of(pairs, n)[id]
                == document_of(pairs[i].1)->Ok_0,
    decreases n,
{
    lemma_be_len(id);
    if n > 0 {
        let m = (n - 1) as nat;
        lemma_documents_of(pairs, m, id);
        lemma_id_of(id);
        let (key, record) = pairs[m as int];
        if key.len() == 8 {
            let c = choose|c: u64| be_bytes(c) == key;
            assert(be_bytes(id_of(key)) == key);
        }
        assert forall|i: int| 0 <= i < n && (#[trigger] pairs[i]).0 == be_bytes(id) implies documents_of(
            pairs,
            n,
        )[id] == document_of(pairs[i].1)->Ok_0 by {
            if i < m {
                assert(lex_less(pairs[i].0, pairs[m as int].0));
                lemma_lex_total(pairs[i].0, pairs[m as int].0);
            }
        }
        if documents_of(pairs, n).contains_key(id) {
            if documents_of(pairs, m).contains_key(id) {
                let i = choose|i: int| 0 <= i < m && (#[trigger] pairs[i]).0 == be_bytes(id);
                assert(pairs[i].0 == be_bytes(id));
            } else {
                assert(pairs[m as int].0 == be_bytes(id));
            }
        }
        if exists|i: int| 0 <= i < n && (#[trigger] pairs[i]).0 == be_bytes(id) {
            let i = choose|i: int| 0 <= i < n && (#[trigger] pairs[i]).0 == be_bytes(id);
            if i < m {
                assert(documents_of(pairs, m).contains_key(id));
            }
        }
    }
}

/// The documents of a store are those of its snapshot.
proof fn lemma_snapshot_documents(m: Versions, pairs: Seq<(Seq<u8>, Seq<u8>)>, dim: usize)
    requires
        is_snapshot(m, pairs),
        forall|i: int| 0 <= i < pairs.len() ==> pair_fault(#[trigger] pairs[i], dim) is None,
        forall|i: int|
            0 <= i < pairs.len() && (#[trigger] pairs[i]).0.len() == 8 ==> exists|c: u64|
                be_bytes(c) == pairs[i].0,
    ensures
        documents_of(pairs, pairs.len()) == documents_in(m),
        all_documents(m),
        all_of_width(documents_in(m), dim),
{
    let a = documents_of(pairs, pairs.len());
    let b = documents_in(m);
    assert forall|id: u64| #[trigger] a.contains_key(id) == b.contains_key(id) && (a.contains_key(
        id,
    ) ==> a[id] == b[id] && a[id].vector.len() == dim) && (record_of(m, id) is Some ==> document_of(
        record_of(m, id)->0,
    ) is Ok) by {
        lemma_documents_of(pairs, pairs.len(), id);
        lemma_be_len(id);
        if a.contains_key(id) {
            let i = choose|i: int| 0 <= i < pairs.len() && (#[trigger] pairs[i]).0 == be_bytes(id);
            assert(live(lookup(m, pairs[i].0, u64::MAX)) == Some(pairs[i].1));
            assert(pair_fault(pairs[i], dim) is None);
        }
        if record_of(m, id) is Some {
            assert(live(lookup(m, be_bytes(id), u64::MAX)) is Some);
            let i = choose|i: int| 0 <= i < pairs.len() && (#[trigger] pairs[i]).0 == be_bytes(id);
            assert(live(lookup(m, pairs[i].0, u64::MAX)) == Some(pairs[i].1));
            assert(pair_fault(pairs[i], dim) is None);
        }
    }
    assert(a =~= b);
    assert forall|id: u64| (#[trigger] record_of(m, id)) is Some implies document_of(
        record_of(m, id)->0,
    ) is Ok by {
        assert(a.contains_key(id) == b.contains_key(id));
    }
}

/// A pair that cannot be taken into the indexes is one that an engine cannot
/// serve.
proof fn lemma_fault_is_served_by_none(
    m: Versions,
    pairs: Seq<(Seq<u8>, Seq<u8>)>,
    dim: usize,
    i: int,
    x: EngineFault,
)
    requires
        is_snapshot(m, pairs),
        is_first_fault(pairs, dim, i, x),
    ensures
        !can_serve(m, dim),
{
    let id = lemma_doc_key(pairs[i].0);
    assert(live(lookup(m, pairs[i].0, u64::MAX)) == Some(pairs[i].1));
    assert(record_of(m, id) == Some(pairs[i].1));
    if all_documents(m) {
        assert(documents_in(m).contains_key(id));
    }
}

/// Where every document's vector has `was` components, opening the engine for
/// another width fails because of that, if there is a document at all.
pub proof fn law_another_width_is_refused(
    m: Versions,
    pairs: Seq<(Seq<u8>, Seq<u8>)>,
    was: usize,
    dim: usize,
    i: int,
    x: EngineFault,
    id: u64,
)
    requires
        can_serve(m, was),
        was != dim,
        documents_in(m).contains_key(id),
    ensures
        !can_serve(m, dim),
        is_snapshot(m, pairs) && is_first_fault(pairs, dim, i, x) ==> x == EngineFault::Vector(
            VectorError::DimensionMismatch { expected: dim, got: was },
        ),
{
    assert(documents_in(m)[id].vector.len() == was);
    if is_snapshot(m, pairs) && is_first_fault(pairs, dim, i, x) {
        let c = lemma_doc_key(pairs[i].0);
        assert(live(lookup(m, pairs[i].0, u64::MAX)) == Some(pairs[i].1));
        assert(record_of(m, c) == Some(pairs[i].1));
        assert(documents_in(m).contains_key(c));
    }
}

/// Writing a document's record gives the store that document and changes no
/// other.
pub proof fn law_stored_document_is_read_back(m: Versions, id: u64, seq: u64, d: DocumentModel)
    requires
        document_fits(d),
        forall|s: u64| #[trigger] uses_seq(m, s) ==> s < seq,
    ensures
        documents_in(m.insert((be_bytes(id), seq), Some(document_bytes(d)))) == documents_in(
            m,
        ).insert(id, d),
        all_documents(m) ==> all_documents(
            m.insert((be_bytes(id), seq), Some(document_bytes(d))),
        ),
{
    let val = Some(document_bytes(d));
    let now = m.insert((be_bytes(id), seq), val);
    let behind = Seq::<u8>::empty();
    assert(document_bytes(d) + behind =~= document_bytes(d));
    law_record_round_trip(d, behind);
    assert forall|other: u64| #[trigger] record_of(now, other) == if other == id {
        val
    } else {
        record_of(m, other)
    } by {
        if other != id && be_bytes(other) == be_bytes(id) {
            law_doc_keys_distinct(other, id);
        }
        law_read_after_write(m, be_bytes(id), seq, val, be_bytes(other), u64::MAX);
    }
    assert(documents_in(now) =~= documents_in(m).insert(id, d));
}

/// Writing a tombstone takes the document out of the store and changes no other.
pub proof fn law_deleted_document_is_gone(m: Versions, id: u64, seq: u64)
    requires
        forall|s: u64| #[trigger] uses_seq(m, s) ==> s < seq,
    ensures
        documents_in(m.insert((be_bytes(id), seq), None)) == documents_in(m).remove(id),
        all_documents(m) ==> all_documents(m.insert((be_bytes(id), seq), None)),
{
    let now = m.insert((be_bytes(id), seq), None);
    assert forall|other: u64| #[trigger] record_of(now, other) == if other == id {
        None
    } else {
        record_of(m, other)
    } by {
        if other != id && be_bytes(other) == be_bytes(id) {
            law_doc_keys_distinct(other, id);
        }
        law_read_after_write(m, be_bytes(id), seq, None, be_bytes(other), u64::MAX);
    }
    assert(documents_in(now) =~= documents_in(m).remove(id));
}

/// A store without versions has no documents.
pub proof fn law_nothing_stored_no_documents()
    ensures
        documents_in(Map::empty()) == Map::<u64, DocumentModel>::empty(),
        all_documents(Map::empty()),
{
    let m: Versions = Map::empty();
    assert forall|id: u64| #[trigger] record_of(m, id) is None by {
        lemma_lookup_none(m, be_bytes(id), u64::MAX);
    }
    assert(documents_in(m) =~= Map::<u64, DocumentModel>::empty());
}

/// Two stores of which every read is the same hold the same documents.
pub proof fn law_same_reads_same_documents(a: Versions, b: Versions)
    requires
        forall|key: Seq<u8>| live(#[trigger] lookup(a, key, u64::MAX)) == live(
            lookup(b, key, u64::MAX),
        ),
    ensures
        documents_in(a) == documents_in(b),
        all_documents(a) == all_documents(b),
{
    assert forall|id: u64| #[trigger] record_of(a, id) == record_of(b, id) by {
        assert(live(lookup(a, be_bytes(id), u64::MAX)) == live(
            lookup(b, be_bytes(id), u64::MAX),
        ));
    }
    assert(documents_in(a) =~= documents_in(b));
    assert(all_documents(a) == all_documents(b)) by {
        if all_documents(a) {
            assert forall|id: u64| (#[trigger] record_of(b, id)) is Some implies document_of(
                record_of(b, id)->0,
            ) is Ok by {
                assert(record_of(a, id) == record_of(b, id));
            }
        }
        if all_documents(b) {
            assert forall|id: u64| (#[trigger] record_of(a, id)) is Some implies document_of(
                record_of(a, id)->0,
            ) is Ok by {
                assert(record_of(a, id) == record_of(b, id));
            }
        }
    }
}

/// Taking one more document into the indexes.
proof fn lemma_indexes_take(
    vectors: Seq<(u64, Seq<u32>)>,
    text: TextModel,
    docs: Map<u64, DocumentModel>,
    id: u64,
    d: DocumentModel,
)
    requires
        distinct_ids(vectors),
        indexes_hold(vectors, text, docs),
        tokens(d.text).len() <= u32::MAX,
    ensures
        indexes_hold(
            stored(vectors, id, d.vector),
            model_with(text, id, tokens(d.text)),
            docs.insert(id, d),
        ),
        stored(vectors, id, d.vector).len() == vectors.len() + (if docs.contains_key(id) {
            0nat
        } else {
            1nat
        }),
{
    assert(by_id(vectors).contains_key(id) == vectors_in(docs).contains_key(id));
    law_store_then_read(vectors, id, d.vector);
    law_index_describes(text, terms_in(docs), id, tokens(d.text));
    let now = docs.insert(id, d);
    assert(vectors_in(now) =~= vectors_in(docs).insert(id, d.vector));
    assert(terms_in(now) =~= terms_in(docs).insert(id, tokens(d.text)));
}

/// Taking a document out of the indexes.
proof fn lemma_indexes_drop(
    vectors: Seq<(u64, Seq<u32>)>,
    text: TextModel,
    docs: Map<u64, DocumentModel>,
    id: u64,
)
    requires
        distinct_ids(vectors),
        indexes_hold(vectors, text, docs),
    ensures
        indexes_hold(without_row(vectors, id), model_without(text, id), docs.remove(id)),
        without_row(vectors, id).len() == vectors.len() - (if docs.contains_key(id) {
            1int
        } else {
            0int
        }),
{
    assert(by_id(vectors).contains_key(id) == vectors_in(docs).contains_key(id));
    law_remove_then_read(vectors, id);
    law_remove_describes(text, terms_in(docs), id);
    let now = docs.remove(id);
    assert(vectors_in(now) =~= vectors_in(docs).remove(id));
    assert(terms_in(now) =~= terms_in(docs).remove(id));
}

/// Indexes that hold the documents of a store hold the same ids, and the store
/// has a document for each.
pub proof fn lemma_held_ids(
    vectors: Seq<(u64, Seq<u32>)>,
    text: TextModel,
    docs: Map<u64, DocumentModel>,
)
    requires
        indexes_hold(vectors, text, docs),
    ensures
        same_ids(vectors, text),
        all_stored(vectors, docs),
{
    assert(vectors_in(docs).dom() =~= docs.dom());
    assert(terms_in(docs).dom() =~= docs.dom());
    assert forall|id: u64| #[trigger] by_id(vectors).contains_key(id) implies docs.contains_key(
        id,
    ) by {
        assert(vectors_in(docs).contains_key(id));
    }
}

/// Storing a vector and indexing a text under one id, and removing both, keeps
/// the ids of both indexes the same.
proof fn lemma_same_ids(
    vectors: Seq<(u64, Seq<u32>)>,
    text: TextModel,
    id: u64,
    v: Seq<u32>,
    terms: Seq<Seq<char>>,
)
    requires
        distinct_ids(vectors),
        same_ids(vectors, text),
    ensures
        same_ids(stored(vectors, id, v), model_with(text, id, terms)),
        same_ids(without_row(vectors, id), model_without(text, id)),
{
    law_store_then_read(vectors, id, v);
    law_remove_then_read(vectors, id);
    let ids = by_id(vectors).dom();
    assert(ids.contains(id) == text.lengths.dom().contains(id));
    assert(model_without(text, id).lengths.dom() =~= ids.remove(id));
    assert(by_id(without_row(vectors, id)).dom() =~= ids.remove(id));
    assert(model_with(text, id, terms).lengths.dom() =~= ids.insert(id));
    assert(by_id(stored(vectors, id, v)).dom() =~= ids.insert(id));
}

// ---------- reading a blob ----------

/// The blob in what a read of a record returned.
pub open spec fn blob_in(x: Result<Option<Seq<u8>>, TableError>) -> Result<
    Option<Seq<u8>>,
    EngineFault,
> {
    match x {
        Ok(Some(record)) => match document_of(record) {
            Ok(d) => Ok(Some(d.blob)),
            Err(e) => Err(EngineFault::Corrupt(record_message(e))),
        },
        Ok(None) => Ok(None),
        Err(e) => Err(EngineFault::Io(StoreError::Table(e))),
    }
}

/// Whether `r` is what reading the blob of `id` returns.
pub open spec fn is_blob(
    docs: LsmEngine,
    id: u64,
    r: Result<Option<Seq<u8>>, EngineFault>,
) -> bool {
    exists|x: Result<Option<Seq<u8>>, TableError>| #[trigger]
        is_read(docs.mem(), docs.tables(), be_bytes(id), (docs.next_seq() - 1) as u64, x) && r
            == blob_in(x)
}

pub open spec fn blob_view(r: Result<Option<Vec<u8>>, EngineError>) -> Result<
    Option<Seq<u8>>,
    EngineFault,
> {
    match r {
        Ok(Some(b)) => Ok(Some(b@)),
        Ok(None) => Ok(None),
        Err(e) => Err(e@),
    }
}

/// In a store as flushes and compactions leave it there is one answer to the
/// question for a blob.
proof fn lemma_blob_read(docs: LsmEngine, id: u64)
    requires
        docs.well_formed(),
        docs.faithful(),
    ensures
        forall|r: Result<Option<Seq<u8>>, EngineFault>| #[trigger]
            is_blob(docs, id, r) ==> r == blob_in(Ok(record_of(docs@, id))),
{
    assert forall|r: Result<Option<Seq<u8>>, EngineFault>| #[trigger]
        is_blob(docs, id, r) implies r == blob_in(Ok(record_of(docs@, id))) by {
        law_blob_is_the_stored_one(docs, id, r);
    }
}

/// Whether `hit` is the result for `found`: with its blob, or without one if the
/// store has no record.
pub open spec fn is_hit(docs: LsmEngine, found: (u64, u32), hit: SearchHit) -> bool {
    &&& hit.id == found.0
    &&& hit.score == found.1
    &&& is_blob(docs, found.0, Ok(Some(hit.blob@))) || (is_blob(docs, found.0, Ok(None))
        && hit.blob@.len() == 0)
}

/// Whether `found` can be made a result.
pub open spec fn has_hit(docs: LsmEngine, found: (u64, u32)) -> bool {
    exists|hit: SearchHit| is_hit(docs, found, hit)
}

/// Whether `e` is the error of the first of `found` that cannot be fetched, `i`.
pub open spec fn is_first_failure(
    docs: LsmEngine,
    found: Seq<(u64, u32)>,
    i: int,
    e: EngineFault,
) -> bool {
    &&& 0 <= i < found.len()
    &&& is_blob(docs, found[i].0, Err(e))
    &&& forall|j: int| 0 <= j < i ==> has_hit(docs, #[trigger] found[j])
}

/// Whether `r` is what fetching the blobs of `found` returns.
pub open spec fn are_hits(
    docs: LsmEngine,
    found: Seq<(u64, u32)>,
    r: Result<Vec<SearchHit>, EngineError>,
) -> bool {
    match r {
        Ok(hits) => hits@.len() == found.len() && forall|i: int|
            0 <= i < found.len() ==> is_hit(docs, #[trigger] found[i], hits@[i]),
        Err(e) => exists|i: int| #[trigger] is_first_failure(docs, found, i, e@),
    }
}

/// Whether `hits` are a full answer of `k` results from the documents that
/// `vectors` holds: as many as were asked for, or all if there are fewer; none
/// twice, and from the best score to the worst.
pub open spec fn is_full_answer(
    vectors: Seq<(u64, Seq<u32>)>,
    k: nat,
    hits: Seq<SearchHit>,
) -> bool {
    &&& hits.len() == if k < vectors.len() {
        k
    } else {
        vectors.len()
    }
    &&& forall|i: int|
        0 <= i < hits.len() ==> by_id(vectors).contains_key((#[trigger] hits[i]).id)
    &&& forall|i: int, j: int|
        0 <= i < j < hits.len() ==> (#[trigger] hits[i]).id != (#[trigger] hits[j]).id
            && rank_key(hits[i].score) >= rank_key(hits[j].score)
}

/// Whether each hit is a document and has its blob.
pub open spec fn have_blobs(docs: Map<u64, DocumentModel>, hits: Seq<SearchHit>) -> bool {
    forall|i: int|
        0 <= i < hits.len() ==> docs.contains_key((#[trigger] hits[i]).id) && hits[i].blob@
            == docs[hits[i].id].blob
}

/// Whether both indexes hold the same ids.
pub open spec fn same_ids(vectors: Seq<(u64, Seq<u32>)>, text: TextModel) -> bool {
    by_id(vectors).dom() == text.lengths.dom()
}

/// Whether there is a document for every vector.
pub open spec fn all_stored(
    vectors: Seq<(u64, Seq<u32>)>,
    docs: Map<u64, DocumentModel>,
) -> bool {
    forall|id: u64| #[trigger] by_id(vectors).contains_key(id) ==> docs.contains_key(id)
}

/// How many candidates each search gives to the fusion.
pub open spec fn pool_size(k: usize) -> nat {
    let wide = (k * CANDIDATE_POOL_MULTIPLIER) as nat;
    if wide < MIN_CANDIDATE_POOL {
        MIN_CANDIDATE_POOL as nat
    } else {
        wide
    }
}

/// The two lists that a query fuses.
pub open spec fn both(near: Seq<(u64, u32)>, relevant: Seq<(u64, u32)>) -> Seq<Seq<(u64, u32)>> {
    seq![near, relevant]
}

/// Whether `found` is what a vector search may give.
pub open spec fn is_vector_search<F: Fn(Metric, &[u32], &[u32]) -> u32>(
    rows: Seq<(u64, Seq<u32>)>,
    query: &[u32],
    k: nat,
    score: F,
    found: Seq<(u64, u32)>,
) -> bool {
    is_search(rows, query, k, Metric::Cosine, score, found)
}

/// Whether `r` answers a query: `near` and `relevant` are the candidates of the
/// two searches, `fused` their fusion, and `r` its first results with their blobs.
pub open spec fn is_answer<V, T, R>(
    docs: LsmEngine,
    vectors: Seq<(u64, Seq<u32>)>,
    text: TextModel,
    vector: &[u32],
    text_query: Seq<char>,
    k: usize,
    similarity: V,
    relevance: T,
    fusion: R,
    near: Seq<(u64, u32)>,
    relevant: Seq<(u64, u32)>,
    fused: Seq<(u64, u32)>,
    r: Result<Vec<SearchHit>, EngineError>,
) -> bool where
    V: Fn(Metric, &[u32], &[u32]) -> u32,
    T: Fn(Corpus, &[Hit]) -> u32,
    R: Fn(u32, &[usize]) -> u32,
 {
    &&& is_vector_search(vectors, vector, pool_size(k), similarity, near)
    &&& is_text_search(text, text_query, pool_size(k), relevance, relevant)
    &&& is_fusion(both(near, relevant), fusion, FUSION_CONSTANT, fused)
    &&& are_hits(docs, at_most(fused, k as nat), r)
}

// ---------- the engine ----------

pub struct Engine {
    docs: LsmEngine,
    vectors: VectorIndex,
    text: InvertedIndex,
}

impl Engine {
    /// The store.
    pub closed spec fn docs(&self) -> LsmEngine {
        self.docs
    }

    /// The rows of the vector index.
    pub closed spec fn vectors(&self) -> Seq<(u64, Seq<u32>)> {
        self.vectors@
    }

    /// How many components a vector has.
    pub closed spec fn width(&self) -> usize {
        self.vectors.width()
    }

    /// The inverted index.
    pub closed spec fn text(&self) -> TextModel {
        self.text@
    }

    /// Whether the parts are well formed, and both indexes hold the same ids.
    pub closed spec fn well_formed(&self) -> bool {
        &&& self.docs.well_formed()
        &&& self.vectors.well_formed()
        &&& self.text.well_formed()
        &&& same_ids(self.vectors@, self.text@)
    }

    /// What a well-formed engine is made of is well formed, and both indexes hold
    /// the same ids.
    pub proof fn lemma_parts(&self)
        requires
            self.well_formed(),
        ensures
            self.docs().well_formed(),
            distinct_ids(self.vectors()),
            consistent(self.text()),
            same_ids(self.vectors(), self.text()),
    {
        self.text.lemma_consistent();
    }

    /// Whether both indexes hold exactly the documents of the store.
    pub open spec fn in_step(&self) -> bool {
        &&& all_documents(self.docs()@)
        &&& indexes_hold(self.vectors(), self.text(), documents_in(self.docs()@))
    }

    /// Whether the store has a document for every id of the indexes. A document
    /// whose vector was refused is in the store alone, so that the indexes need
    /// not hold all documents.
    pub open spec fn has_records(&self) -> bool {
        all_stored(self.vectors(), documents_in(self.docs()@))
    }

    /// Opens an engine over the store of `tables`, from the newest to the
    /// oldest, and of the writes in `log`, and rebuilds both indexes.
    pub fn open(tables: Vec<TableFile>, log: &[u8], dim: usize) -> (r: Result<Self, EngineError>)
        ensures
            r is Ok <==> flawless(tables@) && can_serve(
                store_versions(logged(replayed(log@, 0)), tables@),
                dim,
            ),
            match r {
                Ok(e) => {
                    &&& e.well_formed()
                    &&& e.in_step()
                    &&& e.has_records()
                    &&& e.width() == dim
                    &&& all_of_width(documents_in(e.docs()@), dim)
                    &&& e.docs().tables() == tables@
                    &&& flawless(tables@)
                    &&& e.docs().mem() == logged(replayed(log@, 0))
                    &&& e.docs().mem_bytes() == log_weight(replayed(log@, 0))
                    &&& is_next_seq(e.docs()@, e.docs().next_seq())
                },
                Err(EngineError::Io(StoreError::SeqExhausted)) => flawless(tables@) && uses_seq(
                    store_versions(logged(replayed(log@, 0)), tables@),
                    u64::MAX,
                ),
                Err(EngineError::Io(x)) => exists|i: int| #[trigger] is_first_flaw(tables@, i, x),
                Err(x) => {
                    &&& flawless(tables@)
                    &&& !uses_seq(store_versions(logged(replayed(log@, 0)), tables@), u64::MAX)
                    &&& exists|pairs: Seq<(Seq<u8>, Seq<u8>)>, i: int|
                        is_snapshot(store_versions(logged(replayed(log@, 0)), tables@), pairs)
                            && #[trigger] is_first_fault(pairs, dim, i, x@)
                },
            },
            tables@.len() == 0 && log@.len() == 0 ==> (r matches Ok(e) && e.docs().is_fresh()
                && e.vectors().len() == 0 && documents_in(e.docs()@) == Map::<
                u64,
                DocumentModel,
            >::empty()),
    {
        let docs: LsmEngine = match LsmEngine::open(tables, log) {
            Ok(d) => d,
            Err(x) => {
                return Err(EngineError::Io(x));
            },
        };
        let all: Vec<(Vec<u8>, Vec<u8>)> = docs.iter_all();
        let ghost pairs = pairs_view(all@);
        let ghost m = store_versions(logged(replayed(log@, 0)), tables@);
        let mut vectors: VectorIndex = VectorIndex::new(dim);
        let mut text: InvertedIndex = InvertedIndex::new();
        let mut i: usize = 0;
        proof {
            law_empty_describes_nothing();
            let none = documents_of(pairs, 0);
            assert(by_id(vectors@) =~= vectors_in(none));
            assert(terms_in(none) =~= Map::<u64, Seq<Seq<char>>>::empty());
        }
        while i < all.len()
            invariant
                i <= all@.len(),
                pairs == pairs_view(all@),
                m == store_versions(logged(replayed(log@, 0)), tables@),
                is_snapshot(m, pairs),
                flawless(tables@),
                !uses_seq(m, u64::MAX),
                vectors.well_formed(),
                vectors.width() == dim,
                text.well_formed(),
                indexes_hold(vectors@, text@, documents_of(pairs, i as nat)),
                forall|j: int| 0 <= j < i ==> pair_fault(#[trigger] pairs[j], dim) is None,
                forall|j: int|
                    0 <= j < i && (#[trigger] pairs[j]).0.len() == 8 ==> exists|c: u64|
                        be_bytes(c) == pairs[j].0,
            decreases all@.len() - i,
        {
            let ghost pair = pairs[i as int];
            assert(pair == (all@[i as int].0@, all@[i as int].1@));
            if all[i].0.len() == 8 {
                let id: u64 = doc_id(all[i].0.as_slice());
                let d: Document = match decode_record(all[i].1.as_slice()) {
                    Ok(d) => d,
                    Err(e) => {
                        let x: EngineError = EngineError::Corrupt(e.message());
                        proof {
                            assert(is_first_fault(pairs, dim, i as int, x@));
                            lemma_fault_is_served_by_none(m, pairs, dim, i as int, x@);
                        }
                        return Err(x);
                    },
                };
                let ghost before = vectors@;
                match vectors.insert(id, d.vector.as_slice()) {
                    Ok(_) => {},
                    Err(e) => {
                        let x: EngineError = EngineError::Vector(e);
                        proof {
                            assert(is_first_fault(pairs, dim, i as int, x@));
                            lemma_fault_is_served_by_none(m, pairs, dim, i as int, x@);
                        }
                        return Err(x);
                    },
                }
                proof {
                    lemma_read_text_bound(pair.1);
                    lemma_token_count(d.text@);
                    lemma_id_of(id);
                    lemma_indexes_take(
                        before,
                        text@,
                        documents_of(pairs, i as nat),
                        id,
                        d@,
                    );
                    assert(be_bytes(id) == pair.0);
                }
                text.index_document(id, d.text.as_str());
            }
            i = i + 1;
        }
        proof {
            lemma_snapshot_documents(docs@, pairs, dim);
            lemma_held_ids(vectors@, text@, documents_in(docs@));
            if docs.is_fresh() {
                law_nothing_stored_no_documents();
                law_len_counts_documents(vectors@, text@, documents_in(docs@));
            }
        }
        Ok(Engine { docs, vectors, text })
    }

    /// Whether `upsert` can take the document in. Only one that is too long for
    /// its length prefixes or for the memory cannot.
    pub fn can_upsert(&self, vector: &[u32], text: &str, blob: &[u8]) -> (r: bool)
        ensures
            r == self.docs().takes(
                8,
                document_bytes(
                    DocumentModel { vector: vector@, text: text@, blob: blob@ },
                ).len(),
            ),
    {
        let record: Vec<u8> = encode_record(vector, text, blob);
        self.docs.can_take(8, record.len())
    }

    /// Whether `delete` can take one more delete in.
    pub fn can_delete(&self) -> (r: bool)
        ensures
            r == self.docs().takes(8, 0),
    {
        self.docs.can_take(8, 0)
    }

    /// The log record of the write that `upsert` takes in.
    pub fn upsert_record(&self, id: u64, vector: &[u32], text: &str, blob: &[u8]) -> (r: Vec<u8>)
        ensures
            r@ == record_bytes(
                LogEntry {
                    seq: self.docs().next_seq(),
                    op: Op::Put,
                    key: be_bytes(id),
                    val: document_bytes(
                        DocumentModel { vector: vector@, text: text@, blob: blob@ },
                    ),
                },
            ),
    {
        let key: Vec<u8> = doc_key(id);
        let record: Vec<u8> = encode_record(vector, text, blob);
        self.docs.put_record(key.as_slice(), record.as_slice())
    }

    /// Stores a document under `id`, in the place of what was stored under it:
    /// vector, text and blob. The write's log record has to be durable. A vector
    /// of another width is an error; the store has the record then, as the log
    /// does, and the indexes stay as they were.
    pub fn upsert(&mut self, id: u64, vector: &[u32], text: &str, blob: &[u8]) -> (r: Result<
        (),
        EngineError,
    >)
        requires
            old(self).well_formed(),
            old(self).docs().takes(
                8,
                document_bytes(
                    DocumentModel { vector: vector@, text: text@, blob: blob@ },
                ).len(),
            ),
        ensures
            final(self).well_formed(),
            final(self).width() == old(self).width(),
            ({
                let d = DocumentModel { vector: vector@, text: text@, blob: blob@ };
                let seq = old(self).docs().next_seq();
                &&& final(self).docs().mem() == old(self).docs().mem().insert(
                    (be_bytes(id), seq),
                    Some(document_bytes(d)),
                )
                &&& final(self).docs()@ == old(self).docs()@.insert(
                    (be_bytes(id), seq),
                    Some(document_bytes(d)),
                )
                &&& documents_in(final(self).docs()@) == documents_in(
                    old(self).docs()@,
                ).insert(id, d)
                &&& final(self).docs().mem_bytes() == old(self).docs().mem_bytes() + 8
                    + document_bytes(d).len() + ENTRY_OVERHEAD
            }),
            final(self).docs().tables() == old(self).docs().tables(),
            final(self).docs().next_seq() == old(self).docs().next_seq() + 1,
            old(self).has_records() ==> final(self).has_records(),
            old(self).docs().faithful() ==> final(self).docs().faithful() && forall|
                b: Result<Option<Seq<u8>>, EngineFault>,
            | #[trigger]
                is_blob(final(self).docs(), id, b) ==> b == Ok::<Option<Seq<u8>>, EngineFault>(
                    Some(blob@),
                ),
            match r {
                Ok(_) => {
                    &&& vector@.len() == old(self).width()
                    &&& final(self).vectors() == stored(old(self).vectors(), id, vector@)
                    &&& final(self).text() == model_with(old(self).text(), id, tokens(text@))
                    &&& by_id(final(self).vectors()) == by_id(old(self).vectors()).insert(
                        id,
                        vector@,
                    )
                    &&& final(self).vectors().len() == old(self).vectors().len() + (
                    if by_id(old(self).vectors()).contains_key(id) {
                        0nat
                    } else {
                        1nat
                    })
                    &&& old(self).in_step() ==> {
                        &&& final(self).in_step()
                        &&& final(self).vectors().len() == old(self).vectors().len() + (
                        if documents_in(old(self).docs()@).contains_key(id) {
                            0nat
                        } else {
                            1nat
                        })
                    }
                },
                Err(e) => {
                    &&& vector@.len() != old(self).width()
                    &&& e@ == EngineFault::Vector(
                        VectorError::DimensionMismatch {
                            expected: old(self).width(),
                            got: vector@.len() as usize,
                        },
                    )
                    &&& final(self).vectors() == old(self).vectors()
                    &&& final(self).text() == old(self).text()
                },
            },
    {
        let ghost d = DocumentModel { vector: vector@, text: text@, blob: blob@ };
        let key: Vec<u8> = doc_key(id);
        let record: Vec<u8> = encode_record(vector, text, blob);
        proof {
            lemma_be_len(id);
            lemma_document_len(d);
            lemma_chars_bound(text@);
            lemma_token_count(text@);
            self.docs.lemma_seqs_below();
            law_stored_document_is_read_back(self.docs@, id, self.docs.next_seq(), d);
            law_store_then_read(self.vectors@, id, vector@);
            lemma_same_ids(self.vectors@, self.text@, id, vector@, tokens(text@));
        }
        self.docs.put(key.as_slice(), record.as_slice());
        proof {
            if self.docs.faithful() {
                assert(documents_in(self.docs@).contains_key(id));
                assert(documents_in(self.docs@)[id] == d);
                lemma_blob_read(self.docs, id);
            }
        }
        match self.vectors.insert(id, vector) {
            Ok(_) => {},
            Err(e) => {
                return Err(EngineError::Vector(e));
            },
        }
        self.text.index_document(id, text);
        proof {
            if old(self).in_step() {
                lemma_indexes_take(
                    old(self).vectors(),
                    old(self).text(),
                    documents_in(old(self).docs()@),
                    id,
                    d,
                );
            }
        }
        Ok(())
    }

    /// The log record of the delete that `delete` takes in.
    pub fn delete_record(&self, id: u64) -> (r: Vec<u8>)
        ensures
            r@ == record_bytes(
                LogEntry {
                    seq: self.docs().next_seq(),
                    op: Op::Delete,
                    key: be_bytes(id),
                    val: Seq::<u8>::empty(),
                },
            ),
    {
        let key: Vec<u8> = doc_key(id);
        self.docs.delete_record(key.as_slice())
    }

    /// Deletes the document `id`. The delete's log record has to be durable.
    pub fn delete(&mut self, id: u64)
        requires
            old(self).well_formed(),
            old(self).docs().takes(8, 0),
        ensures
            final(self).well_formed(),
            final(self).width() == old(self).width(),
            final(self).docs().mem() == old(self).docs().mem().insert(
                (be_bytes(id), old(self).docs().next_seq()),
                None,
            ),
            final(self).docs()@ == old(self).docs()@.insert(
                (be_bytes(id), old(self).docs().next_seq()),
                None,
            ),
            documents_in(final(self).docs()@) == documents_in(old(self).docs()@).remove(id),
            final(self).docs().mem_bytes() == old(self).docs().mem_bytes() + 8 + ENTRY_OVERHEAD,
            final(self).docs().tables() == old(self).docs().tables(),
            final(self).docs().next_seq() == old(self).docs().next_seq() + 1,
            old(self).has_records() ==> final(self).has_records(),
            old(self).docs().faithful() ==> final(self).docs().faithful() && forall|
                b: Result<Option<Seq<u8>>, EngineFault>,
            | #[trigger]
                is_blob(final(self).docs(), id, b) ==> b == Ok::<Option<Seq<u8>>, EngineFault>(
                    None,
                ),
            final(self).vectors() == without_row(old(self).vectors(), id),
            final(self).text() == model_without(old(self).text(), id),
            by_id(final(self).vectors()) == by_id(old(self).vectors()).remove(id),
            final(self).vectors().len() == old(self).vectors().len() - (if by_id(
                old(self).vectors(),
            ).contains_key(id) {
                1int
            } else {
                0int
            }),
            old(self).in_step() ==> {
                &&& final(self).in_step()
                &&& final(self).vectors().len() == old(self).vectors().len() - (
                if documents_in(old(self).docs()@).contains_key(id) {
                    1int
                } else {
                    0int
                })
            },
    {
        let key: Vec<u8> = doc_key(id);
        proof {
            lemma_be_len(id);
            self.docs.lemma_seqs_below();
            law_deleted_document_is_gone(self.docs@, id, self.docs.next_seq());
            law_remove_then_read(self.vectors@, id);
            lemma_same_ids(self.vectors@, self.text@, id, Seq::empty(), Seq::empty());
        }
        self.docs.delete(key.as_slice());
        proof {
            law_read_after_write(
                old(self).docs@,
                be_bytes(id),
                old(self).docs.next_seq(),
                None,
                be_bytes(id),
                u64::MAX,
            );
            if self.docs.faithful() {
                lemma_blob_read(self.docs, id);
            }
        }
        self.vectors.remove(id);
        self.text.remove_document(id);
        proof {
            if old(self).in_step() {
                lemma_indexes_drop(
                    old(self).vectors(),
                    old(self).text(),
                    documents_in(old(self).docs()@),
                    id,
                );
            }
        }
    }

    /// The blob of the document `id`, if there is such a document.
    pub fn get_blob(&self, id: u64) -> (r: Result<Option<Vec<u8>>, EngineError>)
        requires
            self.well_formed(),
        ensures
            is_blob(self.docs(), id, blob_view(r)),
            self.docs().faithful() ==> blob_view(r) == blob_in(
                Ok(record_of(self.docs()@, id)),
            ),
    {
        let key: Vec<u8> = doc_key(id);
        let found: Result<Option<Vec<u8>>, TableError> = self.docs.get(key.as_slice());
        assert(is_read(
            self.docs.mem(),
            self.docs.tables(),
            be_bytes(id),
            (self.docs.next_seq() - 1) as u64,
            read_view(found),
        ));
        match found {
            Ok(Some(record)) => match decode_record(record.as_slice()) {
                Ok(d) => Ok(Some(d.blob)),
                Err(e) => Err(EngineError::Corrupt(e.message())),
            },
            Ok(None) => Ok(None),
            Err(e) => Err(EngineError::Io(StoreError::Table(e))),
        }
    }

    /// The first `k` of `fused`, each with its blob.
    pub fn hits(&self, fused: &Vec<(u64, u32)>, k: usize) -> (r: Result<
        Vec<SearchHit>,
        EngineError,
    >)
        requires
            self.well_formed(),
        ensures
            are_hits(self.docs(), at_most(fused@, k as nat), r),
    {
        let ghost found = at_most(fused@, k as nat);
        let mut out: Vec<SearchHit> = Vec::new();
        let mut i: usize = 0;
        while i < fused.len() && i < k
            invariant
                i <= fused@.len(),
                i <= k,
                self.well_formed(),
                found == at_most(fused@, k as nat),
                out@.len() == i,
                forall|j: int|
                    0 <= j < i ==> is_hit(self.docs(), #[trigger] found[j], out@[j]),
            decreases fused@.len() - i,
        {
            let (id, score) = fused[i];
            assert(found[i as int] == fused@[i as int]);
            let ghost before = out@;
            match self.get_blob(id) {
                Ok(Some(blob)) => {
                    out.push(SearchHit { id, score, blob });
                },
                Ok(None) => {
                    out.push(SearchHit { id, score, blob: Vec::new() });
                },
                Err(e) => {
                    proof {
                        assert forall|j: int| 0 <= j < i implies has_hit(
                            self.docs(),
                            #[trigger] found[j],
                        ) by {
                            assert(is_hit(self.docs(), found[j], out@[j]));
                        }
                        assert(is_first_failure(self.docs(), found, i as int, e@));
                    }
                    return Err(e);
                },
            }
            proof {
                assert forall|j: int| 0 <= j < i + 1 implies is_hit(
                    self.docs(),
                    #[trigger] found[j],
                    out@[j],
                ) by {
                    if j < i {
                        assert(out@[j] == before[j]);
                    }
                }
            }
            i = i + 1;
        }
        Ok(out)
    }

    /// The `k` documents that match `vector` and `text_query` best: both
    /// searches give their candidates, and the candidates' ranks are fused.
    /// The three functions give the scores: of a row for the vector, of a
    /// document's hits for the text, and of an id's ranks in both lists.
    pub fn query<V, T, R>(
        &self,
        vector: &[u32],
        text_query: &str,
        k: usize,
        similarity: V,
        relevance: T,
        fusion: R,
    ) -> (r: Result<Vec<SearchHit>, EngineError>) where
        V: Fn(Metric, &[u32], &[u32]) -> u32,
        T: Fn(Corpus, &[Hit]) -> u32,
        R: Fn(u32, &[usize]) -> u32,

        requires
            self.well_formed(),
            k * CANDIDATE_POOL_MULTIPLIER <= usize::MAX,
            forall|row: &[u32]|
                row@.len() == self.width() && vector@.len() == self.width()
                    ==> #[trigger] call_requires(similarity, (Metric::Cosine, vector, row)),
            forall|corpus: Corpus, hits: &[Hit]|
                hits@.len() > 0 ==> #[trigger] call_requires(relevance, (corpus, hits)),
            forall|ranks: &[usize]|
                ranks@.len() > 0 ==> #[trigger] call_requires(fusion, (FUSION_CONSTANT, ranks)),
        ensures
            vector@.len() != self.width() <==> (r matches Err(EngineError::Vector(_))),
            match r {
                Err(EngineError::Vector(e)) => e == (VectorError::DimensionMismatch {
                    expected: self.width(),
                    got: vector@.len() as usize,
                }),
                _ => exists|
                    near: Seq<(u64, u32)>,
                    relevant: Seq<(u64, u32)>,
                    fused: Seq<(u64, u32)>,
                | #[trigger]
                    is_answer(
                        self.docs(),
                        self.vectors(),
                        self.text(),
                        vector,
                        text_query@,
                        k,
                        similarity,
                        relevance,
                        fusion,
                        near,
                        relevant,
                        fused,
                        r,
                    ),
            },
            r matches Ok(hits) ==> is_full_answer(self.vectors(), k as nat, hits@),
            self.has_records() && self.docs().faithful() && vector@.len() == self.width() ==> (
            r matches Ok(hits) && have_blobs(documents_in(self.docs()@), hits@)),
    {
        let wide: usize = k * CANDIDATE_POOL_MULTIPLIER;
        let pool: usize = if wide < MIN_CANDIDATE_POOL {
            MIN_CANDIDATE_POOL
        } else {
            wide
        };
        let near: Vec<(u64, u32)> = match self.vectors.search(
            vector,
            pool,
            Metric::Cosine,
            similarity,
        ) {
            Ok(found) => found,
            Err(e) => {
                return Err(EngineError::Vector(e));
            },
        };
        let relevant: Vec<(u64, u32)> = self.text.search(text_query, pool, relevance);
        let lists: [&[(u64, u32)]; 2] = [near.as_slice(), relevant.as_slice()];
        let fused: Vec<(u64, u32)> = reciprocal_rank_fusion(&lists, FUSION_CONSTANT, fusion);
        assert(lists_view(lists@) =~= both(near@, relevant@));
        let r: Result<Vec<SearchHit>, EngineError> = self.hits(&fused, k);
        proof {
            assert(is_answer(
                self.docs(),
                self.vectors(),
                self.text(),
                vector,
                text_query@,
                k,
                similarity,
                relevance,
                fusion,
                near@,
                relevant@,
                fused@,
                r,
            ));
            self.lemma_parts();
            law_query_fills_its_list(
                self.docs(),
                self.vectors(),
                self.text(),
                vector,
                text_query@,
                k,
                similarity,
                relevance,
                fusion,
                near@,
                relevant@,
                fused@,
                r,
            );
        }
        r
    }

    /// How many documents there are: one for each vector.
    pub fn len(&self) -> (r: usize)
        ensures
            r == self.vectors().len(),
            self.well_formed() && self.in_step() ==> documents_in(self.docs()@).dom().len() == r,
    {
        proof {
            if self.well_formed() && self.in_step() {
                law_len_counts_documents(
                    self.vectors(),
                    self.text(),
                    documents_in(self.docs()@),
                );
            }
        }
        self.vectors.len()
    }

    pub fn is_empty(&self) -> (r: bool)
        ensures
            r == (self.vectors().len() == 0),
            self.well_formed() && self.in_step() ==> r == (documents_in(self.docs()@).dom().len()
                == 0),
    {
        proof {
            if self.well_formed() && self.in_step() {
                law_len_counts_documents(
                    self.vectors(),
                    self.text(),
                    documents_in(self.docs()@),
                );
            }
        }
        self.vectors.is_empty()
    }

    /// The store.
    pub fn store(&self) -> (r: &LsmEngine)
        ensures
            *r == self.docs(),
    {
        &self.docs
    }

    /// Puts the table that the store's `flush_table` gave in the place of the
    /// unflushed writes. Its file has to be durable.
    pub fn install_flushed(&mut self, table: TableFile)
        requires
            old(self).well_formed(),
            table.bytes@ == table_bytes(
                old(self).docs().mem_entries(),
                old(self).docs().mem_entries().len(),
            ),
        ensures
            final(self).well_formed(),
            final(self).width() == old(self).width(),
            final(self).docs()@ == old(self).docs()@,
            final(self).docs().mem() == Map::<(Seq<u8>, u64), Option<Seq<u8>>>::empty(),
            final(self).docs().mem_bytes() == 0,
            final(self).docs().tables() == seq![table] + old(self).docs().tables(),
            final(self).docs().next_seq() == old(self).docs().next_seq(),
            old(self).docs().faithful() ==> final(self).docs().faithful(),
            final(self).vectors() == old(self).vectors(),
            final(self).text() == old(self).text(),
            old(self).in_step() ==> final(self).in_step(),
            old(self).has_records() ==> final(self).has_records(),
    {
        self.docs.install_flushed(table);
    }

    /// Puts the table that the store's `compacted_table` gave in the place of all
    /// tables. Its file has to be durable.
    pub fn install_compacted(&mut self, table: TableFile)
        requires
            old(self).well_formed(),
            expected_entries(old(self).docs().tables()) * BITS_PER_KEY <= usize::MAX,
            table.bytes@ == table_bytes(
                compacted(old(self).docs().tables(), true),
                expected_entries(old(self).docs().tables()),
            ),
        ensures
            final(self).well_formed(),
            final(self).width() == old(self).width(),
            final(self).docs().mem() == old(self).docs().mem(),
            final(self).docs().mem_bytes() == old(self).docs().mem_bytes(),
            final(self).docs().tables() == seq![table],
            final(self).docs().next_seq() == old(self).docs().next_seq(),
            final(self).vectors() == old(self).vectors(),
            final(self).text() == old(self).text(),
            old(self).docs().faithful() ==> {
                &&& final(self).docs().faithful()
                &&& documents_in(final(self).docs()@) == documents_in(old(self).docs()@)
                &&& old(self).in_step() ==> final(self).in_step()
                &&& old(self).has_records() ==> final(self).has_records()
            },
    {
        self.docs.install_compacted(table);
        proof {
            if old(self).docs().faithful() {
                law_same_reads_same_documents(self.docs@, old(self).docs@);
            }
        }
    }
}

} // verus!
