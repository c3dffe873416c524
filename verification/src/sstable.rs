//! Sorted string tables, as the bytes of a file.
//!
//! Layout, from front to back; a reader starts at the end:
//!
//!   [ data block: sorted records ]
//!   [ sparse index: one (key, offset) every `SPARSE_INTERVAL` records ]
//!   [ bloom filter bits ]
//!   [ footer of fixed size ]
//!
//! A point lookup asks the filter first, then finds in the index the block that
//! may hold the key, and reads that block from its beginning.

use vstd::prelude::*;
use crate::bloom::{
    capacity_bits, filter_answers, filter_bits, lemma_probe_bound, lemma_sound_reaches,
    lemma_with_probes_len, probe_reaches, probes_set, with_probes, BloomFilter, BITS_PER_KEY,
    PROBES,
};
use crate::codec::{
    copy_range, framed, get_u32, get_u64, le_bytes, lemma_le_bytes_len, put_bytes, put_framed,
    put_u64, u32_at, u64_at, LEN_LIMIT,
};
use crate::order::{compare_bytes, lemma_lex_total, lex_less, Order};
use crate::{entry_of, Entry, InternalKey, SeqNo, Value};

verus! {

pub const SPARSE_INTERVAL: usize = 16;

pub const FOOTER_MAGIC: u64 = 0x7470_7566_6665_7221;

/// Seven numbers of eight bytes: index offset, index count, bloom offset, bloom
/// bits, bloom hashes, entry count, magic.
pub const FOOTER_SIZE: usize = 56;

/// Why the bytes of a file cannot be read as a table.
#[derive(Debug, Clone, Copy, PartialEq, Eq, Structural)]
pub enum TableError {
    /// The file is shorter than a footer.
    TooSmall,
    /// The footer does not end in the magic number.
    BadMagic,
    /// The footer's offsets are out of range.
    OffsetsOutOfRange,
    /// A record runs past the end of the file.
    UnexpectedEof,
}

// ---------- what a table's bytes are ----------

pub open spec fn value_op(val: Option<Seq<u8>>) -> u8 {
    match val {
        Some(_) => 0,
        None => 1,
    }
}

pub open spec fn value_bytes(val: Option<Seq<u8>>) -> Seq<u8> {
    match val {
        Some(v) => v,
        None => Seq::empty(),
    }
}

/// A record's bytes.
pub open spec fn table_record(e: Entry) -> Seq<u8> {
    framed(e.key) + le_bytes(e.seq as nat, 8) + seq![value_op(e.val)] + framed(value_bytes(e.val))
}

/// The data block of `entries`.
pub open spec fn data_bytes(entries: Seq<Entry>) -> Seq<u8>
    decreases entries.len(),
{
    if entries.len() == 0 {
        Seq::empty()
    } else {
        data_bytes(entries.drop_last()) + table_record(entries.last())
    }
}

/// The sparse index of `entries`: the key and the offset of every
/// `SPARSE_INTERVAL`-th record.
pub open spec fn sparse_index(entries: Seq<Entry>) -> Seq<(Seq<u8>, u64)>
    decreases entries.len(),
{
    if entries.len() == 0 {
        Seq::empty()
    } else {
        let before = entries.drop_last();
        if before.len() % (SPARSE_INTERVAL as nat) == 0 {
            sparse_index(before).push((entries.last().key, data_bytes(before).len() as u64))
        } else {
            sparse_index(before)
        }
    }
}

pub open spec fn index_entry_bytes(e: (Seq<u8>, u64)) -> Seq<u8> {
    framed(e.0) + le_bytes(e.1 as nat, 8)
}

pub open spec fn index_bytes(index: Seq<(Seq<u8>, u64)>) -> Seq<u8>
    decreases index.len(),
{
    if index.len() == 0 {
        Seq::empty()
    } else {
        index_bytes(index.drop_last()) + index_entry_bytes(index.last())
    }
}

pub open spec fn keys_of(entries: Seq<Entry>) -> Seq<Seq<u8>> {
    entries.map_values(|e: Entry| e.key)
}

pub open spec fn footer_bytes(
    index_offset: nat,
    index_count: nat,
    bloom_offset: nat,
    num_bits: nat,
    num_hashes: nat,
    entry_count: nat,
) -> Seq<u8> {
    le_bytes(index_offset, 8) + le_bytes(index_count, 8) + le_bytes(bloom_offset, 8) + le_bytes(
        num_bits,
        8,
    ) + le_bytes(num_hashes, 8) + le_bytes(entry_count, 8) + le_bytes(FOOTER_MAGIC as nat, 8)
}

/// Where the index of a table of `entries` begins.
pub open spec fn index_start(entries: Seq<Entry>) -> nat {
    data_bytes(entries).len()
}

/// Where the filter of a table of `entries` begins.
pub open spec fn bloom_start(entries: Seq<Entry>) -> nat {
    data_bytes(entries).len() + index_bytes(sparse_index(entries)).len()
}

/// The file of a table of `entries` whose filter was sized for `expected`.
pub open spec fn table_bytes(entries: Seq<Entry>, expected: nat) -> Seq<u8> {
    data_bytes(entries) + index_bytes(sparse_index(entries)) + filter_bits(
        keys_of(entries),
        expected,
    ) + footer_bytes(
        index_start(entries),
        sparse_index(entries).len(),
        bloom_start(entries),
        capacity_bits(expected),
        PROBES as nat,
        entries.len(),
    )
}

/// Whether the entry's lengths fit their prefixes.
pub open spec fn entry_fits(e: Entry) -> bool {
    e.key.len() < LEN_LIMIT && value_bytes(e.val).len() < LEN_LIMIT
}

pub open spec fn entries_fit(entries: Seq<Entry>) -> bool {
    forall|i: int| 0 <= i < entries.len() ==> entry_fits(#[trigger] entries[i])
}

// ---------- what a file's bytes say ----------

/// The record of `s` at `pos` with the position behind it. Less than the four
/// bytes of a length is the end of the records; a record that does not end
/// within `s` is an error.
pub open spec fn table_record_at(s: Seq<u8>, pos: int) -> Result<Option<(Entry, int)>, TableError> {
    if pos + 4 > s.len() {
        Ok(None)
    } else {
        let key_len = u32_at(s, pos);
        if pos + 17 + key_len > s.len() {
            Err(TableError::UnexpectedEof)
        } else {
            let val_len = u32_at(s, pos + 13 + key_len);
            let end = pos + 17 + key_len + val_len;
            if end > s.len() {
                Err(TableError::UnexpectedEof)
            } else {
                Ok(
                    Some(
                        (
                            Entry {
                                key: s.subrange(pos + 4, pos + 4 + key_len),
                                seq: u64_at(s, pos + 4 + key_len) as u64,
                                val: if s[pos + 12 + key_len] == 0 {
                                    Some(s.subrange(pos + 17 + key_len, end))
                                } else {
                                    None
                                },
                            },
                            end,
                        ),
                    ),
                )
            }
        }
    }
}

/// What reading records from `pos` on, up to `data_end`, finds for `key` at the
/// snapshot `as_of`: the first version of the key that is no newer, or nothing
/// as soon as a greater key comes.
pub open spec fn scan(
    s: Seq<u8>,
    data_end: int,
    pos: int,
    key: Seq<u8>,
    as_of: u64,
) -> Result<Option<Option<Seq<u8>>>, TableError>
    decreases s.len() - pos,
{
    if pos >= data_end {
        Ok(None)
    } else {
        match table_record_at(s, pos) {
            Err(e) => Err(e),
            Ok(None) => Ok(None),
            Ok(Some((e, next))) => {
                if lex_less(key, e.key) {
                    Ok(None)
                } else if e.key == key && e.seq <= as_of {
                    Ok(Some(e.val))
                } else {
                    scan(s, data_end, next, key, as_of)
                }
            },
        }
    }
}

/// The records of `s` from `pos` on, until `remaining` bytes were read, and the
/// error that ends them early, if there is one.
pub open spec fn records_from(s: Seq<u8>, pos: int, remaining: int) -> (
    Seq<Entry>,
    Option<TableError>,
)
    decreases s.len() - pos,
{
    if remaining <= 0 {
        (Seq::empty(), None)
    } else {
        match table_record_at(s, pos) {
            Err(e) => (Seq::empty(), Some(e)),
            Ok(None) => (Seq::empty(), None),
            Ok(Some((e, next))) => {
                let rest = records_from(s, next, remaining - (next - pos));
                (seq![e] + rest.0, rest.1)
            },
        }
    }
}

/// The footer's field `i`.
pub open spec fn footer_field(file: Seq<u8>, i: int) -> nat {
    u64_at(file, file.len() - FOOTER_SIZE + 8 * i)
}

/// Why the footer of `file` is refused, if it is.
pub open spec fn footer_error(file: Seq<u8>) -> Option<TableError> {
    let bound = file.len() - FOOTER_SIZE;
    if file.len() < FOOTER_SIZE {
        Some(TableError::TooSmall)
    } else if footer_field(file, 6) != FOOTER_MAGIC {
        Some(TableError::BadMagic)
    } else if footer_field(file, 0) > bound || footer_field(file, 2) > bound || footer_field(
        file,
        2,
    ) < footer_field(file, 0) {
        Some(TableError::OffsetsOutOfRange)
    } else {
        None
    }
}

/// The index entries of `buf` from `cursor` on; `None` if one runs past its
/// end.
pub open spec fn parse_index(buf: Seq<u8>, cursor: int) -> Option<Seq<(Seq<u8>, u64)>>
    decreases buf.len() - cursor,
{
    if cursor >= buf.len() {
        Some(Seq::empty())
    } else if cursor + 4 > buf.len() {
        None
    } else {
        let key_len = u32_at(buf, cursor);
        let end = cursor + 12 + key_len;
        if end > buf.len() {
            None
        } else {
            match parse_index(buf, end) {
                None => None,
                Some(rest) => Some(
                    seq![
                        (
                            buf.subrange(cursor + 4, cursor + 4 + key_len),
                            u64_at(buf, cursor + 4 + key_len) as u64,
                        ),
                    ] + rest,
                ),
            }
        }
    }
}

/// The bytes between the records and the filter.
pub open spec fn index_block(file: Seq<u8>) -> Seq<u8> {
    file.subrange(footer_field(file, 0) as int, footer_field(file, 2) as int)
}

/// Whether the index of a file with a sound footer can be read.
pub open spec fn index_readable(file: Seq<u8>) -> bool {
    footer_error(file) is None ==> parse_index(index_block(file), 0) is Some
}

/// What a reader keeps of a table.
#[verifier::ext_equal]
pub struct TableModel {
    pub path: Seq<char>,
    pub index: Seq<(Seq<u8>, u64)>,
    pub bits: Seq<u8>,
    pub num_bits: u64,
    pub num_hashes: u32,
    pub data_end: u64,
    pub entry_count: u64,
}

/// What a reader keeps of the table in `file`.
pub open spec fn table_of(path: Seq<char>, file: Seq<u8>) -> TableModel {
    TableModel {
        path,
        index: parse_index(index_block(file), 0)->0,
        bits: file.subrange(footer_field(file, 2) as int, file.len() - FOOTER_SIZE),
        num_bits: footer_field(file, 3) as u64,
        num_hashes: (footer_field(file, 4) % (LEN_LIMIT as nat)) as u32,
        data_end: footer_field(file, 0) as u64,
        entry_count: footer_field(file, 5) as u64,
    }
}

/// Whether the table's filter answers for `key`.
pub open spec fn table_answers(t: TableModel, key: Seq<u8>) -> bool {
    filter_answers(t.bits, t.num_bits, t.num_hashes, key)
}

/// Whether the table's filter holds as many bits as it says, so that it answers
/// for every key.
pub open spec fn filter_sound(t: TableModel) -> bool {
    0 < t.num_bits <= 8 * t.bits.len()
}

pub proof fn lemma_sound_filter_answers(t: TableModel, key: Seq<u8>)
    requires
        filter_sound(t),
    ensures
        table_answers(t, key),
{
    assert forall|i: int| #[trigger] probe_reaches(t.bits, t.num_bits, key, i) by {
        lemma_probe_bound(key, i, t.num_bits);
    }
}

/// Whether `p` splits the index at `key`: the entry before `p` has a smaller
/// key, and the entry at `p` has none. In a sorted index only one place does.
pub open spec fn splits_index(index: Seq<(Seq<u8>, u64)>, key: Seq<u8>, p: int) -> bool {
    &&& 0 <= p <= index.len()
    &&& p > 0 ==> lex_less(index[p - 1].0, key)
    &&& p < index.len() ==> !lex_less(index[p].0, key)
}

/// Where a lookup that splits the index at `p` starts to read: at the block
/// before it, since the newest versions of the key may stand at its end.
pub open spec fn block_offset(index: Seq<(Seq<u8>, u64)>, p: int) -> u64 {
    if p > 0 {
        index[p - 1].1
    } else {
        0
    }
}

/// Whether `offset` is where a lookup of `key` starts to read.
pub open spec fn starts_at(index: Seq<(Seq<u8>, u64)>, key: Seq<u8>, offset: u64) -> bool {
    exists|p: int| #[trigger] splits_index(index, key, p) && offset == block_offset(index, p)
}

/// Whether `r` is what a lookup in the table `t` with the file `file` returns.
pub open spec fn is_lookup(
    t: TableModel,
    file: Seq<u8>,
    key: Seq<u8>,
    as_of: u64,
    r: Result<Option<Option<Seq<u8>>>, TableError>,
) -> bool {
    if probes_set(t.bits, t.num_bits, key, t.num_hashes as nat) {
        exists|offset: u64| #[trigger]
            starts_at(t.index, key, offset) && r == scan(
                file,
                t.data_end as int,
                offset as int,
                key,
                as_of,
            )
    } else {
        r == Ok::<Option<Option<Seq<u8>>>, TableError>(None)
    }
}

// ---------- writer ----------

/// What the engine keeps of a finished table. The keys are empty for a table
/// without entries.
#[derive(Debug, Clone)]
pub struct SSTableMeta {
    pub path: String,
    pub min_key: Vec<u8>,
    pub max_key: Vec<u8>,
    pub entry_count: u64,
}

/// Builds a table's file. Entries have to come in the order of versions: the
/// writer does not sort.
pub struct SSTableWriter {
    path: String,
    out: Vec<u8>,
    sparse_index: Vec<(Vec<u8>, u64)>,
    bloom: BloomFilter,
    entries_since_index: usize,
    entry_count: u64,
    min_key: Option<Vec<u8>>,
    max_key: Vec<u8>,
    added: Ghost<Seq<Entry>>,
    expected: Ghost<nat>,
}

pub open spec fn index_view(index: Seq<(Vec<u8>, u64)>) -> Seq<(Seq<u8>, u64)> {
    index.map_values(|e: (Vec<u8>, u64)| (e.0@, e.1))
}

fn copy_key(key: &Vec<u8>) -> (r: Vec<u8>)
    ensures
        r@ == key@,
{
    let r: Vec<u8> = copy_range(key.as_slice(), 0, key.len());
    assert(r@ =~= key@);
    r
}

pub proof fn lemma_record_len(e: Entry)
    ensures
        table_record(e).len() == 17 + e.key.len() + value_bytes(e.val).len(),
{
    lemma_le_bytes_len(e.seq as nat, 8);
    lemma_le_bytes_len(crate::codec::len_prefix(e.key.len()), 4);
    lemma_le_bytes_len(crate::codec::len_prefix(value_bytes(e.val).len()), 4);
}

/// What one more entry does to each part of a table.
proof fn lemma_table_grows(es: Seq<Entry>, e: Entry, expected: nat)
    ensures
        data_bytes(es.push(e)) == data_bytes(es) + table_record(e),
        data_bytes(es.push(e)).len() >= data_bytes(es).len() + 17,
        sparse_index(es.push(e)) == if es.len() % (SPARSE_INTERVAL as nat) == 0 {
            sparse_index(es).push((e.key, data_bytes(es).len() as u64))
        } else {
            sparse_index(es)
        },
        filter_bits(keys_of(es.push(e)), expected) == with_probes(
            filter_bits(keys_of(es), expected),
            capacity_bits(expected) as u64,
            e.key,
            PROBES as nat,
        ),
        (es.push(e).len() % (SPARSE_INTERVAL as nat)) == (es.len() % (SPARSE_INTERVAL as nat) + 1)
            % (SPARSE_INTERVAL as nat),
{
    let now = es.push(e);
    assert(now.drop_last() =~= es);
    assert(keys_of(now) =~= keys_of(es).push(e.key));
    assert(keys_of(now).drop_last() =~= keys_of(es));
    lemma_record_len(e);
}

/// Adds a key to a sound filter.
fn put_in_filter(bloom: &mut BloomFilter, key: &[u8])
    requires
        old(bloom).sound(),
        old(bloom).num_hashes == PROBES,
    ensures
        final(bloom).bits@ == with_probes(old(bloom).bits@, old(bloom).num_bits, key@, PROBES as nat),
        final(bloom).num_bits == old(bloom).num_bits,
        final(bloom).num_hashes == PROBES,
        final(bloom).sound(),
{
    proof {
        lemma_sound_reaches(*bloom, key@);
        lemma_with_probes_len(bloom.bits@, bloom.num_bits, key@, PROBES as nat);
    }
    bloom.add(key);
}

/// Appends the record of one entry.
fn put_record(out: &mut Vec<u8>, ik: &InternalKey, value: &Value)
    ensures
        final(out)@ == old(out)@ + table_record(entry_of(*ik, *value)),
{
    put_framed(out, ik.user_key.as_slice());
    put_u64(out, ik.seq);
    match value {
        Value::Put(v) => {
            out.push(0);
            put_framed(out, v.as_slice());
        },
        Value::Delete => {
            out.push(1);
            let nothing: Vec<u8> = Vec::new();
            put_framed(out, nothing.as_slice());
            assert(nothing@ =~= Seq::<u8>::empty());
        },
    }
    assert(out@ =~= old(out)@ + table_record(entry_of(*ik, *value)));
}

impl SSTableWriter {
    /// The entries that were added.
    pub closed spec fn entries(&self) -> Seq<Entry> {
        self.added@
    }

    /// The number of entries that the filter was sized for.
    pub closed spec fn expected(&self) -> nat {
        self.expected@
    }

    pub closed spec fn path(&self) -> Seq<char> {
        self.path@
    }

    pub closed spec fn well_formed(&self) -> bool {
        let es = self.added@;
        &&& self.out@ == data_bytes(es)
        &&& index_view(self.sparse_index@) == sparse_index(es)
        &&& self.bloom.bits@ == filter_bits(keys_of(es), self.expected@)
        &&& self.bloom.num_bits == capacity_bits(self.expected@)
        &&& self.bloom.num_hashes == PROBES
        &&& self.bloom.sound()
        &&& self.entries_since_index == es.len() % (SPARSE_INTERVAL as nat)
        &&& self.entry_count == es.len()
        &&& 17 * es.len() <= self.out@.len()
        &&& match self.min_key {
            Some(k) => es.len() > 0 && k@ == es[0].key,
            None => es.len() == 0,
        }
        &&& self.max_key@ == if es.len() > 0 {
            es.last().key
        } else {
            Seq::empty()
        }
    }

    /// A table at `path` without entries, whose filter is sized for
    /// `expected_entries`.
    pub fn create(path: String, expected_entries: usize) -> (r: Self)
        requires
            expected_entries * BITS_PER_KEY <= usize::MAX,
        ensures
            r.well_formed(),
            r.entries() == Seq::<Entry>::empty(),
            r.expected() == expected_entries,
            r.path() == path@,
    {
        let r = SSTableWriter {
            path,
            out: Vec::new(),
            sparse_index: Vec::new(),
            bloom: BloomFilter::with_capacity(expected_entries),
            entries_since_index: 0,
            entry_count: 0,
            min_key: None,
            max_key: Vec::new(),
            added: Ghost(Seq::empty()),
            expected: Ghost(expected_entries as nat),
        };
        assert(index_view(r.sparse_index@) =~= sparse_index(r.added@));
        assert(keys_of(r.added@) =~= Seq::<Seq<u8>>::empty());
        r
    }

    /// Adds one entry. The writer does not sort: lookups and merges rely on
    /// entries that were added in the order of internal keys.
    pub fn add(&mut self, ik: &InternalKey, value: &Value)
        requires
            old(self).well_formed(),
        ensures
            final(self).well_formed(),
            final(self).entries() == old(self).entries().push(entry_of(*ik, *value)),
            final(self).expected() == old(self).expected(),
            final(self).path() == old(self).path(),
    {
        let ghost e = entry_of(*ik, *value);
        let ghost es = self.added@;
        let ghost now = es.push(e);
        proof {
            lemma_table_grows(es, e, self.expected@);
        }
        if self.entries_since_index == 0 {
            let ghost before = self.sparse_index@;
            let offset: u64 = self.out.len() as u64;
            self.sparse_index.push((copy_key(&ik.user_key), offset));
            assert(index_view(self.sparse_index@) =~= index_view(before).push((e.key, offset)));
        }
        if self.min_key.is_none() {
            self.min_key = Some(copy_key(&ik.user_key));
        }
        self.max_key = copy_key(&ik.user_key);
        put_in_filter(&mut self.bloom, ik.user_key.as_slice());
        put_record(&mut self.out, ik, value);
        assert(self.out.len() == self.out@.len());
        self.entry_count = self.entry_count + 1;
        self.entries_since_index = (self.entries_since_index + 1) % SPARSE_INTERVAL;
        self.added = Ghost(now);
    }

    /// The finished table: what the engine keeps of it, and its file. The file
    /// has to be durable before the log that covers the same writes is cut.
    pub fn finish(self) -> (r: (SSTableMeta, Vec<u8>))
        requires
            self.well_formed(),
        ensures
            r.1@ == table_bytes(self.entries(), self.expected()),
            r.0.path@ == self.path(),
            r.0.entry_count == self.entries().len(),
            r.0.min_key@ == if self.entries().len() > 0 {
                self.entries()[0].key
            } else {
                Seq::empty()
            },
            r.0.max_key@ == if self.entries().len() > 0 {
                self.entries().last().key
            } else {
                Seq::empty()
            },
    {
        let ghost es = self.added@;
        let ghost index = sparse_index(es);
        let mut out: Vec<u8> = self.out;
        let index_offset: u64 = out.len() as u64;
        let mut i: usize = 0;
        assert(index.take(0) =~= Seq::<(Seq<u8>, u64)>::empty());
        assert(out@ + index_bytes(index.take(0)) =~= out@);
        while i < self.sparse_index.len()
            invariant
                i <= self.sparse_index@.len(),
                index == index_view(self.sparse_index@),
                out@ == data_bytes(es) + index_bytes(index.take(i as int)),
            decreases self.sparse_index@.len() - i,
        {
            let entry: &(Vec<u8>, u64) = &self.sparse_index[i];
            put_framed(&mut out, entry.0.as_slice());
            put_u64(&mut out, entry.1);
            proof {
                let next = index.take(i + 1);
                assert(next.drop_last() =~= index.take(i as int));
                assert(next.last() == index[i as int]);
                assert(out@ =~= data_bytes(es) + index_bytes(next));
            }
            i = i + 1;
        }
        assert(index.take(i as int) =~= index);
        let bloom_offset: u64 = out.len() as u64;
        put_bytes(&mut out, self.bloom.bits.as_slice());
        put_u64(&mut out, index_offset);
        put_u64(&mut out, self.sparse_index.len() as u64);
        put_u64(&mut out, bloom_offset);
        put_u64(&mut out, self.bloom.num_bits);
        put_u64(&mut out, self.bloom.num_hashes as u64);
        put_u64(&mut out, self.entry_count);
        put_u64(&mut out, FOOTER_MAGIC);
        assert(out@ =~= table_bytes(es, self.expected@));
        let min_key: Vec<u8> = match self.min_key {
            Some(k) => k,
            None => Vec::new(),
        };
        (
            SSTableMeta {
                path: self.path,
                min_key,
                max_key: self.max_key,
                entry_count: self.entry_count,
            },
            out,
        )
    }
}

// ---------- reader ----------

/// One record as it was read.
pub struct RawRecord {
    pub user_key: Vec<u8>,
    pub seq: SeqNo,
    pub value: Value,
    pub encoded_len: usize,
}

impl RawRecord {
    pub open spec fn entry(&self) -> Entry {
        Entry { key: self.user_key@, seq: self.seq, val: self.value@ }
    }
}

/// The record of `file` at `pos`; `None` where the records end.
pub fn read_record(file: &[u8], pos: usize) -> (r: Result<Option<RawRecord>, TableError>)
    ensures
        match r {
            Ok(Some(rec)) => table_record_at(file@, pos as int) == Ok::<
                Option<(Entry, int)>,
                TableError,
            >(Some((rec.entry(), pos + rec.encoded_len))),
            Ok(None) => table_record_at(file@, pos as int) == Ok::<
                Option<(Entry, int)>,
                TableError,
            >(None),
            Err(e) => table_record_at(file@, pos as int) == Err::<Option<(Entry, int)>, TableError>(
                e,
            ),
        },
{
    let len: usize = file.len();
    if pos > len || len - pos < 4 {
        return Ok(None);
    }
    let key_len: usize = get_u32(file, pos) as usize;
    let behind_len: usize = len - pos - 4;
    if behind_len < 13 || behind_len - 13 < key_len {
        return Err(TableError::UnexpectedEof);
    }
    let seq_at: usize = pos + 4 + key_len;
    let val_len: usize = get_u32(file, seq_at + 9) as usize;
    if len - seq_at - 13 < val_len {
        return Err(TableError::UnexpectedEof);
    }
    let end: usize = seq_at + 13 + val_len;
    let user_key: Vec<u8> = copy_range(file, pos + 4, seq_at);
    let seq: u64 = get_u64(file, seq_at);
    let value: Value = if file[seq_at + 8] == 0 {
        Value::Put(copy_range(file, seq_at + 13, end))
    } else {
        Value::Delete
    };
    Ok(Some(RawRecord { user_key, seq, value, encoded_len: end - pos }))
}

/// What the engine keeps of an open table: everything but the records.
pub struct SSTable {
    path: String,
    index: Vec<(Vec<u8>, u64)>,
    bloom: BloomFilter,
    data_end: u64,
    entry_count: u64,
}

impl View for SSTable {
    type V = TableModel;

    closed spec fn view(&self) -> TableModel {
        TableModel {
            path: self.path@,
            index: index_view(self.index@),
            bits: self.bloom.bits@,
            num_bits: self.bloom.num_bits,
            num_hashes: self.bloom.num_hashes,
            data_end: self.data_end,
            entry_count: self.entry_count,
        }
    }
}

/// Reads a footer's seven fields, if the file is long enough to have one and
/// ends in the magic number.
fn read_footer(file: &[u8]) -> (r: Result<[u64; 6], TableError>)
    ensures
        match r {
            Ok(f) => file@.len() >= FOOTER_SIZE && footer_field(file@, 6) == FOOTER_MAGIC && (forall|
                i: int,
            |
                0 <= i < 6 ==> #[trigger] f@[i] == footer_field(file@, i)),
            Err(e) => (file@.len() < FOOTER_SIZE && e == TableError::TooSmall) || (file@.len()
                >= FOOTER_SIZE && footer_field(file@, 6) != FOOTER_MAGIC && e
                == TableError::BadMagic),
        },
{
    if file.len() < FOOTER_SIZE {
        return Err(TableError::TooSmall);
    }
    let at: usize = file.len() - FOOTER_SIZE;
    let index_offset: u64 = get_u64(file, at);
    let index_count: u64 = get_u64(file, at + 8);
    let bloom_offset: u64 = get_u64(file, at + 16);
    let num_bits: u64 = get_u64(file, at + 24);
    let num_hashes: u64 = get_u64(file, at + 32);
    let entry_count: u64 = get_u64(file, at + 40);
    let magic: u64 = get_u64(file, at + 48);
    if magic != FOOTER_MAGIC {
        return Err(TableError::BadMagic);
    }
    Ok([index_offset, index_count, bloom_offset, num_bits, num_hashes, entry_count])
}

/// The footer's offsets and counts of a file that can be opened.
fn checked_footer(file: &[u8]) -> (r: Result<[u64; 6], TableError>)
    ensures
        match r {
            Ok(f) => footer_error(file@) is None && (forall|i: int|
                0 <= i < 6 ==> #[trigger] f@[i] == footer_field(file@, i)),
            Err(e) => footer_error(file@) == Some(e),
        },
{
    let f = read_footer(file)?;
    let bound: u64 = (file.len() - FOOTER_SIZE) as u64;
    assert(f@[0] == footer_field(file@, 0));
    assert(f@[2] == footer_field(file@, 2));
    if f[0] > bound || f[2] > bound || f[2] < f[0] {
        return Err(TableError::OffsetsOutOfRange);
    }
    Ok(f)
}

/// The index entries of the bytes of `file` from `from` up to `to`, or `None`
/// if one runs past their end.
fn read_index(file: &[u8], from: usize, to: usize) -> (r: Option<Vec<(Vec<u8>, u64)>>)
    requires
        from <= to <= file@.len(),
    ensures
        match r {
            Some(index) => parse_index(file@.subrange(from as int, to as int), 0) == Some(
                index_view(index@),
            ),
            None => parse_index(file@.subrange(from as int, to as int), 0) is None,
        },
{
    let ghost buf = file@.subrange(from as int, to as int);
    let mut index: Vec<(Vec<u8>, u64)> = Vec::new();
    let mut cursor: usize = from;
    assert(index_view(index@) =~= Seq::<(Seq<u8>, u64)>::empty());
    assert(parse_index(buf, 0) is Some ==> parse_index(buf, 0)->0 =~= index_view(index@)
        + parse_index(buf, 0)->0);
    while cursor < to
        invariant
            from <= cursor <= to <= file@.len(),
            buf == file@.subrange(from as int, to as int),
            parse_index(buf, 0) is Some <==> parse_index(buf, cursor - from) is Some,
            parse_index(buf, 0) is Some ==> parse_index(buf, 0)->0 == index_view(index@)
                + parse_index(buf, cursor - from)->0,
        decreases to - cursor,
    {
        if to - cursor < 4 {
            return None;
        }
        let key_len: usize = get_u32(file, cursor) as usize;
        assert(file@.subrange(cursor as int, cursor + 4) =~= buf.subrange(
            cursor - from,
            cursor - from + 4,
        ));
        let behind_len: usize = to - cursor - 4;
        if behind_len < 8 || behind_len - 8 < key_len {
            return None;
        }
        let offset_at: usize = cursor + 4 + key_len;
        let key: Vec<u8> = copy_range(file, cursor + 4, offset_at);
        let offset: u64 = get_u64(file, offset_at);
        let ghost before = index@;
        index.push((key, offset));
        proof {
            let c = cursor - from;
            let o = offset_at - from;
            assert(file@.subrange(offset_at as int, offset_at + 8) =~= buf.subrange(o, o + 8));
            assert(file@.subrange(cursor + 4, offset_at as int) =~= buf.subrange(c + 4, o));
            assert(index_view(index@) =~= index_view(before).push((key@, offset)));
            if parse_index(buf, o + 8) is Some {
                let rest = parse_index(buf, o + 8)->0;
                assert(parse_index(buf, c)->0 == seq![(key@, offset)] + rest);
                assert(index_view(before) + (seq![(key@, offset)] + rest) =~= index_view(index@)
                    + rest);
            }
        }
        cursor = offset_at + 8;
    }
    assert(index_view(index@) + Seq::<(Seq<u8>, u64)>::empty() =~= index_view(index@));
    Some(index)
}

impl SSTable {
    /// Whether `open` can read the index of `file`. Only the index of a damaged
    /// file cannot be read.
    pub fn can_open(file: &[u8]) -> (r: bool)
        ensures
            r == index_readable(file@),
    {
        match checked_footer(file) {
            Ok(f) => {
                assert(f@[0] == footer_field(file@, 0));
                assert(f@[2] == footer_field(file@, 2));
                assert(file.len() == file@.len());
                read_index(file, f[0] as usize, f[2] as usize).is_some()
            },
            Err(_) => true,
        }
    }

    /// Reads a table's footer, index and filter out of its file.
    pub fn open(path: String, file: &[u8]) -> (r: Result<Self, TableError>)
        requires
            index_readable(file@),
        ensures
            match r {
                Ok(t) => footer_error(file@) is None && t@ == table_of(path@, file@),
                Err(e) => footer_error(file@) == Some(e),
            },
    {
        let f = checked_footer(file)?;
        proof {
            assert(f@[0] == footer_field(file@, 0));
            assert(f@[2] == footer_field(file@, 2));
            assert(f@[3] == footer_field(file@, 3));
            assert(f@[4] == footer_field(file@, 4));
            assert(f@[5] == footer_field(file@, 5));
        }
        let len: usize = file.len();
        let index_offset: usize = f[0] as usize;
        let bloom_offset: usize = f[2] as usize;
        let index: Vec<(Vec<u8>, u64)> = read_index(file, index_offset, bloom_offset).unwrap();
        let bits: Vec<u8> = copy_range(file, bloom_offset, len - FOOTER_SIZE);
        let num_hashes: u32 = (f[4] % LEN_LIMIT) as u32;
        Ok(
            SSTable {
                path,
                index,
                bloom: BloomFilter::from_raw(bits, f[3], num_hashes),
                data_end: f[0],
                entry_count: f[5],
            },
        )
    }

    /// What the engine keeps of the table after a restart. The greatest key is
    /// not in the footer and stays empty; nothing asks for it.
    pub fn into_meta(self) -> (r: SSTableMeta)
        ensures
            r.path@ == self@.path,
            r.min_key@ == if self@.index.len() > 0 {
                self@.index[0].0
            } else {
                Seq::empty()
            },
            r.max_key@ == Seq::<u8>::empty(),
            r.entry_count == self@.entry_count,
    {
        let min_key: Vec<u8> = if self.index.len() > 0 {
            copy_key(&self.index[0].0)
        } else {
            Vec::new()
        };
        SSTableMeta {
            path: self.path,
            min_key,
            max_key: Vec::new(),
            entry_count: self.entry_count,
        }
    }

    /// Where a lookup of `key` starts to read: one block before the first index
    /// entry whose key is not smaller, because the newest versions of the key
    /// may stand at the end of that block.
    pub fn block_start_offset(&self, key: &[u8]) -> (r: u64)
        ensures
            starts_at(self@.index, key@, r),
    {
        let ghost index = index_view(self.index@);
        let mut lo: usize = 0;
        let mut hi: usize = self.index.len();
        while lo < hi
            invariant
                lo <= hi <= self.index@.len(),
                index == index_view(self.index@),
                lo > 0 ==> lex_less(index[lo - 1].0, key@),
                hi < index.len() ==> !lex_less(index[hi as int].0, key@),
            decreases hi - lo,
        {
            let mid: usize = lo + (hi - lo) / 2;
            assert(index[mid as int].0 == self.index@[mid as int].0@);
            match compare_bytes(self.index[mid].0.as_slice(), key) {
                Order::Less => {
                    lo = mid + 1;
                },
                _ => {
                    hi = mid;
                },
            }
        }
        assert(splits_index(self@.index, key@, lo as int));
        if lo > 0 {
            assert(index[lo - 1].1 == self.index@[lo - 1].1);
            self.index[lo - 1].1
        } else {
            0
        }
    }

    /// Whether `get` can be asked for every key.
    pub fn has_sound_filter(&self) -> (r: bool)
        ensures
            r == filter_sound(self@),
    {
        let len: usize = self.bloom.bits.len();
        0 < self.bloom.num_bits && (self.bloom.num_bits as u128) <= 8 * (len as u128)
    }

    /// Whether `get` can be asked for `key`. Only a table whose filter was
    /// damaged cannot.
    pub fn can_get(&self, key: &[u8]) -> (r: bool)
        ensures
            r == table_answers(self@, key@),
    {
        self.bloom.can_answer(key)
    }

    /// The newest version of `key` in the table that is no newer than `as_of`.
    /// `file` is the table's file.
    pub fn get(&self, file: &[u8], key: &[u8], as_of: SeqNo) -> (r: Result<
        Option<Value>,
        TableError,
    >)
        requires
            table_answers(self@, key@),
        ensures
            match r {
                Ok(Some(v)) => is_lookup(self@, file@, key@, as_of, Ok(Some(v@))),
                Ok(None) => is_lookup(self@, file@, key@, as_of, Ok(None)),
                Err(e) => is_lookup(self@, file@, key@, as_of, Err(e)),
            },
    {
        if !self.bloom.might_contain(key) {
            return Ok(None);
        }
        let start: u64 = self.block_start_offset(key);
        let ghost whole = scan(file@, self.data_end as int, start as int, key@, as_of);
        assert(is_lookup(self@, file@, key@, as_of, whole));
        let mut offset: u64 = start;
        loop
            invariant
                whole == scan(file@, self.data_end as int, offset as int, key@, as_of),
                is_lookup(self@, file@, key@, as_of, whole),
            decreases file@.len() - offset,
        {
            if offset >= self.data_end || offset > file.len() as u64 {
                return Ok(None);
            }
            let pos: usize = offset as usize;
            match read_record(file, pos) {
                Err(e) => {
                    return Err(e);
                },
                Ok(None) => {
                    return Ok(None);
                },
                Ok(Some(rec)) => {
                    proof {
                        lemma_lex_total(rec.user_key@, key@);
                        lemma_lex_total(key@, rec.user_key@);
                    }
                    assert(file.len() == file@.len());
                    match compare_bytes(rec.user_key.as_slice(), key) {
                        Order::Greater => {
                            return Ok(None);
                        },
                        Order::Less => {},
                        Order::Equal => {
                            if rec.seq <= as_of {
                                return Ok(Some(rec.value));
                            }
                        },
                    }
                    offset = (pos + rec.encoded_len) as u64;
                },
            }
        }
    }

    /// The least key of the table, if it has entries, and no greatest key: the
    /// index does not hold it.
    pub fn min_max(&self) -> (r: (Option<&[u8]>, Option<&[u8]>))
        ensures
            match r.0 {
                Some(k) => self@.index.len() > 0 && k@ == self@.index[0].0,
                None => self@.index.len() == 0,
            },
            r.1 is None,
    {
        if self.index.len() > 0 {
            (Some(self.index[0].0.as_slice()), None)
        } else {
            (None, None)
        }
    }
}

/// Reads all records of a table's file from front to back.
pub struct SSTableIter<'a> {
    file: &'a [u8],
    pos: usize,
    remaining: u64,
}

impl<'a> SSTableIter<'a> {
    pub closed spec fn file(&self) -> Seq<u8> {
        self.file@
    }

    /// Where the next record begins.
    pub closed spec fn pos(&self) -> int {
        self.pos as int
    }

    /// How many bytes of records are left.
    pub closed spec fn remaining(&self) -> int {
        self.remaining as int
    }

    /// The entries that are still to come, and the error that ends them early,
    /// if there is one.
    pub open spec fn rest(&self) -> (Seq<Entry>, Option<TableError>) {
        records_from(self.file(), self.pos(), self.remaining())
    }

    /// Starts at the first record. Of the footer only the end of the records is
    /// read: the rest serves point lookups.
    pub fn open(file: &'a [u8]) -> (r: Result<Self, TableError>)
        ensures
            match r {
                Ok(it) => file@.len() >= FOOTER_SIZE && footer_field(file@, 6) == FOOTER_MAGIC
                    && it.file() == file@ && it.pos() == 0 && it.remaining() == footer_field(
                    file@,
                    0,
                ),
                Err(e) => (file@.len() < FOOTER_SIZE && e == TableError::TooSmall) || (file@.len()
                    >= FOOTER_SIZE && footer_field(file@, 6) != FOOTER_MAGIC && e
                    == TableError::BadMagic),
            },
    {
        let f = read_footer(file)?;
        assert(f@[0] == footer_field(file@, 0));
        Ok(SSTableIter { file, pos: 0, remaining: f[0] })
    }

    /// The next entry; `None` at the end. After an error nothing more comes.
    pub fn next(&mut self) -> (r: Option<Result<(InternalKey, Value), TableError>>)
        ensures
            final(self).file() == old(self).file(),
            match r {
                Some(Ok((ik, v))) => old(self).rest().0.len() > 0 && old(self).rest().0[0]
                    == entry_of(ik, v) && final(self).rest() == (
                    old(self).rest().0.skip(1),
                    old(self).rest().1,
                ),
                Some(Err(e)) => old(self).rest() == (Seq::<Entry>::empty(), Some(e))
                    && final(self).rest() == (Seq::<Entry>::empty(), None::<TableError>),
                None => old(self).rest() == (Seq::<Entry>::empty(), None::<TableError>)
                    && *final(self) == *old(self),
            },
    {
        if self.remaining == 0 {
            return None;
        }
        match read_record(self.file, self.pos) {
            Ok(Some(rec)) => {
                assert(self.file.len() == self.file@.len());
                let next: usize = self.pos + rec.encoded_len;
                let consumed: u64 = rec.encoded_len as u64;
                self.remaining = if self.remaining > consumed {
                    self.remaining - consumed
                } else {
                    0
                };
                self.pos = next;
                proof {
                    let left = old(self).remaining() - consumed;
                    if left <= 0 {
                        assert(records_from(self.file(), next as int, left) == records_from(
                            self.file(),
                            next as int,
                            0,
                        ));
                    }
                    assert(old(self).rest().0.skip(1) =~= self.rest().0);
                }
                Some(Ok((InternalKey::new(rec.user_key, rec.seq), rec.value)))
            },
            Ok(None) => None,
            Err(e) => {
                self.pos = self.file.len();
                Some(Err(e))
            },
        }
    }
}

} // verus!
