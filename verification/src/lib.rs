//! A small hybrid (vector and full-text) search engine over a log-structured
//! storage engine, with every layer's behaviour stated as a contract.
//!
//! Layers, from the bottom up:
//!   codec           -> integers and length-prefixed fields as bytes
//!   order           -> the order of byte strings
//!   hash            -> the FNV-1a checksum
//!   bloom           -> the filter that tells which keys a table cannot hold
//!   wal             -> records of the crash-durable log, and its replay
//!   versions        -> what a set of versions answers to a read
//!   memtable        -> the in-memory sorted buffer of versions
//!   sstable         -> immutable sorted tables with a sparse index and a filter
//!   table_laws      -> what a table gives back of what was written to it
//!   compaction      -> merging tables into one, and reading across them
//!   compaction_laws -> what merging keeps, and what reading across tables finds
//!   store           -> what log, memtable and tables hold together
//!   lsm             -> the storage engine over log, memtable and tables
//!   score           -> ranking by score
//!   gather          -> collecting items under ids
//!   vector          -> the flat vector index
//!   tokens          -> the words of a text
//!   term_map        -> a sorted map from terms
//!   text            -> the inverted index
//!   text_laws       -> what a text search finds of all documents
//!   fusion          -> reciprocal rank fusion of ranked lists
//!   record          -> the record under which a document is stored
//!   messages        -> what to tell of an error
//!   engine          -> the hybrid search engine
//!   engine_laws     -> what holds of the engine as a whole
//!   history         -> what an engine holds after any run of operations

pub mod codec;
pub mod order;
pub mod hash;
pub mod bloom;
pub mod wal;
pub mod versions;
pub mod memtable;
pub mod sstable;
pub mod table_laws;
pub mod compaction;
pub mod compaction_laws;
pub mod store;
pub mod lsm;
pub mod score;
pub mod gather;
pub mod vector;
pub mod tokens;
pub mod term_map;
pub mod text;
pub mod text_laws;
pub mod fusion;
pub mod record;
pub mod messages;
pub mod engine;
pub mod engine_laws;
pub mod history;

pub use crate::engine::{Engine, EngineError};

use vstd::prelude::*;
use crate::order::{bytes_equal, compare_bytes, lemma_lex_total, lex_less, Order};

verus! {

/// A logical write timestamp. Every mutation gets a strictly greater one, and
/// a read that pins one sees the store as it was then.
pub type SeqNo = u64;

/// The key of one version of one user key. Versions are ordered by user key,
/// and the versions of one user key from the newest to the oldest.
#[derive(Debug, Clone)]
pub struct InternalKey {
    pub user_key: Vec<u8>,
    pub seq: SeqNo,
}

/// One stored version, as contracts speak of it: `val` is `None` for a
/// tombstone.
#[verifier::ext_equal]
pub struct Entry {
    pub key: Seq<u8>,
    pub seq: u64,
    pub val: Option<Seq<u8>>,
}

/// Whether a version of `a` at `a_seq` comes before one of `b` at `b_seq`.
pub open spec fn version_before(a: Seq<u8>, a_seq: u64, b: Seq<u8>, b_seq: u64) -> bool {
    lex_less(a, b) || (a == b && a_seq > b_seq)
}

pub open spec fn entry_before(a: Entry, b: Entry) -> bool {
    version_before(a.key, a.seq, b.key, b.seq)
}

/// Whether entries stand in the order in which tables hold them, with no
/// version twice.
pub open spec fn in_order(entries: Seq<Entry>) -> bool {
    forall|i: int, j: int|
        0 <= i < j < entries.len() ==> entry_before(#[trigger] entries[i], #[trigger] entries[j])
}

pub open spec fn version_order(a: Seq<u8>, a_seq: u64, b: Seq<u8>, b_seq: u64) -> Order {
    if version_before(a, a_seq, b, b_seq) {
        Order::Less
    } else if a == b && a_seq == b_seq {
        Order::Equal
    } else {
        Order::Greater
    }
}

/// The same in the standard library's terms.
pub open spec fn std_order(order: Order) -> std::cmp::Ordering {
    match order {
        Order::Less => std::cmp::Ordering::Less,
        Order::Equal => std::cmp::Ordering::Equal,
        Order::Greater => std::cmp::Ordering::Greater,
    }
}

impl InternalKey {
    pub fn new(user_key: Vec<u8>, seq: SeqNo) -> (r: Self)
        ensures
            r.user_key == user_key,
            r.seq == seq,
    {
        InternalKey { user_key, seq }
    }

    /// The order of versions: user key ascending, then the newest first.
    pub fn order(&self, other: &Self) -> (r: Order)
        ensures
            r == version_order(self.user_key@, self.seq, other.user_key@, other.seq),
    {
        proof {
            lemma_lex_total(self.user_key@, other.user_key@);
        }
        match compare_bytes(self.user_key.as_slice(), other.user_key.as_slice()) {
            Order::Less => Order::Less,
            Order::Greater => Order::Greater,
            Order::Equal => {
                if self.seq > other.seq {
                    Order::Less
                } else if self.seq == other.seq {
                    Order::Equal
                } else {
                    Order::Greater
                }
            },
        }
    }

    /// The order of versions, in the standard library's terms.
    pub fn cmp(&self, other: &Self) -> (r: std::cmp::Ordering)
        ensures
            r == std_order(version_order(self.user_key@, self.seq, other.user_key@, other.seq)),
    {
        match self.order(other) {
            Order::Less => std::cmp::Ordering::Less,
            Order::Equal => std::cmp::Ordering::Equal,
            Order::Greater => std::cmp::Ordering::Greater,
        }
    }
}

impl PartialEq for InternalKey {
    fn eq(&self, other: &Self) -> (r: bool) {
        bytes_equal(self.user_key.as_slice(), other.user_key.as_slice()) && self.seq == other.seq
    }
}

impl vstd::std_specs::cmp::PartialEqSpecImpl for InternalKey {
    open spec fn obeys_eq_spec() -> bool {
        true
    }

    open spec fn eq_spec(&self, other: &Self) -> bool {
        self.user_key@ == other.user_key@ && self.seq == other.seq
    }
}

impl Eq for InternalKey {

}

impl PartialOrd for InternalKey {
    fn partial_cmp(&self, other: &Self) -> (r: Option<std::cmp::Ordering>) {
        Some(self.cmp(other))
    }
}

impl vstd::std_specs::cmp::PartialOrdSpecImpl for InternalKey {
    open spec fn obeys_partial_cmp_spec() -> bool {
        true
    }

    open spec fn partial_cmp_spec(&self, other: &Self) -> Option<std::cmp::Ordering> {
        Some(std_order(version_order(self.user_key@, self.seq, other.user_key@, other.seq)))
    }
}

/// A value is either live bytes or a tombstone. A tombstone has to stay until
/// every older version of its key is gone, or the delete would bring one back.
#[derive(Debug, Clone, PartialEq, Eq)]
pub enum Value {
    Put(Vec<u8>),
    Delete,
}

impl View for Value {
    type V = Option<Seq<u8>>;

    open spec fn view(&self) -> Option<Seq<u8>> {
        match self {
            Value::Put(v) => Some(v@),
            Value::Delete => None,
        }
    }
}

impl Value {
    /// The live bytes, if there are any.
    pub fn as_put(&self) -> (r: Option<&[u8]>)
        ensures
            match r {
                Some(bytes) => self@ == Some(bytes@),
                None => self@ is None,
            },
    {
        match self {
            Value::Put(v) => Some(v.as_slice()),
            Value::Delete => None,
        }
    }

    /// A second value with the same bytes.
    pub fn duplicate(&self) -> (r: Self)
        ensures
            r@ == self@,
    {
        match self {
            Value::Put(v) => {
                let copy: Vec<u8> = crate::codec::copy_range(v.as_slice(), 0, v.len());
                assert(copy@ =~= v@);
                Value::Put(copy)
            },
            Value::Delete => Value::Delete,
        }
    }
}

/// The version that a key and a value make up.
pub open spec fn entry_of(key: InternalKey, value: Value) -> Entry {
    Entry { key: key.user_key@, seq: key.seq, val: value@ }
}

/// Two version keys compare by their user keys first, the smaller one below, and
/// where these are the same by age, the newer one below. They are equal exactly
/// if both parts are.
pub proof fn law_version_keys_compare(a: InternalKey, b: InternalKey)
    ensures
        vstd::std_specs::cmp::PartialOrdSpec::partial_cmp_spec(&a, &b) == Some(
            if a.user_key@ == b.user_key@ {
                if a.seq > b.seq {
                    std::cmp::Ordering::Less
                } else if a.seq < b.seq {
                    std::cmp::Ordering::Greater
                } else {
                    std::cmp::Ordering::Equal
                }
            } else if lex_less(a.user_key@, b.user_key@) {
                std::cmp::Ordering::Less
            } else {
                std::cmp::Ordering::Greater
            },
        ),
        vstd::std_specs::cmp::PartialEqSpec::eq_spec(&a, &b) <==> a.user_key@ == b.user_key@
            && a.seq == b.seq,
        std_order(Order::Less) == std::cmp::Ordering::Less,
        std_order(Order::Equal) == std::cmp::Ordering::Equal,
        std_order(Order::Greater) == std::cmp::Ordering::Greater,
{
    lemma_lex_total(a.user_key@, b.user_key@);
    lemma_lex_total(b.user_key@, a.user_key@);
}

/// A version has the user key and the sequence number of its key, and the bytes
/// of its value; a tombstone has none.
pub proof fn law_version_has_its_parts(key: InternalKey, val: Vec<u8>)
    ensures
        entry_of(key, Value::Put(val)).key == key.user_key@,
        entry_of(key, Value::Put(val)).seq == key.seq,
        entry_of(key, Value::Put(val)).val == Some(val@),
        entry_of(key, Value::Delete).key == key.user_key@,
        entry_of(key, Value::Delete).seq == key.seq,
        entry_of(key, Value::Delete).val is None,
{
}

} // verus!
