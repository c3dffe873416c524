//! What holds of a table as a whole: whatever was written to it in order is
//! what its lookups and its scans give back.

use vstd::prelude::*;
use crate::bloom::{
    capacity_bits, filter_bits, law_no_false_negatives, lemma_filter_bits_len, no_bits, probes_set,
    PROBES,
};
use crate::codec::{
    framed, law_le_bytes_of_value, law_le_round_trip, le_bytes, lemma_framed_at,
    lemma_le_bytes_len, lemma_le_value_bound, lemma_limits, len_prefix, u32_at, u64_at, LEN_LIMIT,
};
use crate::order::lemma_lex_total;
use crate::sstable::{
    block_offset, bloom_start, data_bytes, entries_fit, entry_fits, footer_bytes, filter_sound,
    footer_error, footer_field, index_block, index_bytes, index_entry_bytes, index_readable,
    index_start, is_lookup, keys_of, lemma_record_len, lemma_sound_filter_answers, parse_index,
    records_from, scan, sparse_index, splits_index, starts_at, table_answers, table_bytes, table_of,
    table_record, table_record_at, value_bytes, value_op, TableError, FOOTER_MAGIC, FOOTER_SIZE,
};
use crate::versions::{
    is_version, lemma_before_trans, lemma_lookup_in_order, lemma_lookup_none, lookup, versions_of,
    visible,
};
use crate::{entry_before, in_order, version_before, Entry};

verus! {

/// Where the record of entry `q` begins.
pub open spec fn record_offset(entries: Seq<Entry>, q: int) -> int {
    data_bytes(entries.take(q)).len() as int
}

/// Whether `file` begins with the data block of `entries`.
pub open spec fn begins_with_data(file: Seq<u8>, entries: Seq<Entry>) -> bool {
    data_bytes(entries).len() <= file.len() && file.subrange(0, data_bytes(entries).len() as int)
        == data_bytes(entries)
}

proof fn lemma_take_next(entries: Seq<Entry>, q: int)
    requires
        0 <= q < entries.len(),
    ensures
        data_bytes(entries.take(q + 1)) == data_bytes(entries.take(q)) + table_record(entries[q]),
        record_offset(entries, q + 1) == record_offset(entries, q) + table_record(entries[q]).len(),
{
    let next = entries.take(q + 1);
    assert(next.drop_last() =~= entries.take(q));
    assert(next.last() == entries[q]);
}

proof fn lemma_data_prefix(entries: Seq<Entry>, q: int)
    requires
        0 <= q <= entries.len(),
    ensures
        data_bytes(entries.take(q)).len() <= data_bytes(entries).len(),
        data_bytes(entries).subrange(0, record_offset(entries, q)) == data_bytes(entries.take(q)),
    decreases entries.len() - q,
{
    if q < entries.len() {
        lemma_data_prefix(entries, q + 1);
        lemma_take_next(entries, q);
        let all = data_bytes(entries);
        let (a, b) = (record_offset(entries, q), record_offset(entries, q + 1));
        assert(all.subrange(0, a) =~= all.subrange(0, b).subrange(0, a));
        assert(all.subrange(0, b).subrange(0, a) =~= data_bytes(entries.take(q)));
    } else {
        assert(entries.take(q) =~= entries);
        assert(data_bytes(entries).subrange(0, record_offset(entries, q)) =~= data_bytes(entries));
    }
}

/// Where a file holds the bytes of a record, the record is found.
proof fn lemma_record_read(file: Seq<u8>, pos: int, e: Entry)
    requires
        0 <= pos,
        pos + table_record(e).len() <= file.len(),
        file.subrange(pos, pos + table_record(e).len()) == table_record(e),
        entry_fits(e),
    ensures
        table_record_at(file, pos) == Ok::<Option<(Entry, int)>, TableError>(
            Some((e, pos + table_record(e).len())),
        ),
{
    let rec = table_record(e);
    let end = pos + rec.len();
    let part = file.subrange(pos, end);
    let k = e.key.len() as int;
    let v = value_bytes(e.val);
    lemma_record_len(e);
    lemma_limits();
    lemma_le_bytes_len(e.seq as nat, 8);
    law_le_round_trip(e.seq as nat, 8);
    lemma_le_bytes_len(len_prefix(e.key.len()), 4);
    lemma_le_bytes_len(len_prefix(v.len()), 4);
    assert(file.subrange(pos, pos + 4 + k) =~= framed(e.key)) by {
        assert(file.subrange(pos, pos + 4 + k) =~= part.subrange(0, 4 + k));
        assert(rec.subrange(0, 4 + k) =~= framed(e.key));
    }
    lemma_framed_at(file, pos, e.key);
    assert(file.subrange(pos + 4 + k, pos + 12 + k) =~= le_bytes(e.seq as nat, 8)) by {
        assert(file.subrange(pos + 4 + k, pos + 12 + k) =~= part.subrange(4 + k, 12 + k));
        assert(rec.subrange(4 + k, 12 + k) =~= le_bytes(e.seq as nat, 8));
    }
    assert(file[pos + 12 + k] == value_op(e.val)) by {
        assert(part[12 + k] == file[pos + 12 + k]);
        assert(rec[12 + k] == value_op(e.val));
    }
    assert(file.subrange(pos + 13 + k, end) =~= framed(v)) by {
        assert(file.subrange(pos + 13 + k, end) =~= part.subrange(13 + k, rec.len() as int));
        assert(rec.subrange(13 + k, rec.len() as int) =~= framed(v));
    }
    lemma_framed_at(file, pos + 13 + k, v);
}

/// The record of entry `q` is found where it was written.
proof fn lemma_record_found(file: Seq<u8>, entries: Seq<Entry>, q: int)
    requires
        begins_with_data(file, entries),
        entries_fit(entries),
        0 <= q < entries.len(),
    ensures
        table_record_at(file, record_offset(entries, q)) == Ok::<Option<(Entry, int)>, TableError>(
            Some((entries[q], record_offset(entries, q + 1))),
        ),
        record_offset(entries, q) + 17 <= record_offset(entries, q + 1)
            <= data_bytes(entries).len(),
{
    let e = entries[q];
    let (pos, end) = (record_offset(entries, q), record_offset(entries, q + 1));
    lemma_take_next(entries, q);
    lemma_data_prefix(entries, q + 1);
    lemma_record_len(e);
    assert(entry_fits(e));
    let all = data_bytes(entries);
    let upto = data_bytes(entries.take(q + 1));
    assert(file.subrange(pos, end) =~= table_record(e)) by {
        assert(file.subrange(pos, end) =~= file.subrange(0, all.len() as int).subrange(pos, end));
        assert(all.subrange(pos, end) =~= all.subrange(0, end).subrange(pos, end));
        assert(upto.subrange(pos, end) =~= table_record(e));
    }
    lemma_record_read(file, pos, e);
}

/// Reading a table from the record of entry `q` on gives the entries from `q`
/// on.
proof fn lemma_records_from(file: Seq<u8>, entries: Seq<Entry>, q: int)
    requires
        begins_with_data(file, entries),
        entries_fit(entries),
        0 <= q <= entries.len(),
    ensures
        records_from(
            file,
            record_offset(entries, q),
            data_bytes(entries).len() - record_offset(entries, q),
        ) == (entries.skip(q), None::<TableError>),
    decreases entries.len() - q,
{
    if q < entries.len() {
        lemma_records_from(file, entries, q + 1);
        lemma_record_found(file, entries, q);
        assert(entries.skip(q) =~= seq![entries[q]] + entries.skip(q + 1));
    } else {
        assert(entries.take(q) =~= entries);
        assert(entries.skip(q) =~= Seq::<Entry>::empty());
    }
}

/// Scanning from an entry that does not come behind the one that decides the
/// lookup finds what the lookup should.
proof fn lemma_scan(
    file: Seq<u8>,
    entries: Seq<Entry>,
    q: int,
    p: int,
    key: Seq<u8>,
    as_of: u64,
)
    requires
        begins_with_data(file, entries),
        entries_fit(entries),
        0 <= q <= p <= entries.len(),
        forall|i: int|
            0 <= i < p ==> version_before((#[trigger] entries[i]).key, entries[i].seq, key, as_of),
        p < entries.len() ==> !version_before(entries[p].key, entries[p].seq, key, as_of),
    ensures
        scan(file, data_bytes(entries).len() as int, record_offset(entries, q), key, as_of) == Ok::<
            Option<Option<Seq<u8>>>,
            TableError,
        >(
            if p < entries.len() && entries[p].key == key {
                Some(entries[p].val)
            } else {
                None
            },
        ),
    decreases p - q,
{
    if q < entries.len() {
        lemma_record_found(file, entries, q);
        lemma_lex_total(entries[q].key, key);
        lemma_lex_total(key, entries[q].key);
        lemma_lex_total(key, key);
        if q < p {
            lemma_scan(file, entries, q + 1, p, key, as_of);
        }
    } else {
        assert(entries.take(q) =~= entries);
    }
}

/// The place of the first entry in order that does not come before `(key,
/// as_of)`.
proof fn lemma_deciding_place(entries: Seq<Entry>, key: Seq<u8>, as_of: u64) -> (p: int)
    requires
        in_order(entries),
    ensures
        0 <= p <= entries.len(),
        forall|i: int|
            0 <= i < p ==> version_before((#[trigger] entries[i]).key, entries[i].seq, key, as_of),
        p < entries.len() ==> !version_before(entries[p].key, entries[p].seq, key, as_of),
    decreases entries.len(),
{
    if entries.len() == 0 {
        0
    } else {
        let front = entries.drop_last();
        assert forall|i: int, j: int| 0 <= i < j < front.len() implies entry_before(
            #[trigger] front[i],
            #[trigger] front[j],
        ) by {
            assert(entry_before(entries[i], entries[j]));
        }
        let p = lemma_deciding_place(front, key, as_of);
        assert forall|i: int| 0 <= i < p implies version_before(
            (#[trigger] entries[i]).key,
            entries[i].seq,
            key,
            as_of,
        ) by {
            assert(entries[i] == front[i]);
        }
        if p < front.len() {
            assert(entries[p] == front[p]);
            p
        } else if version_before(entries.last().key, entries.last().seq, key, as_of) {
            entries.len() as int
        } else {
            p
        }
    }
}

/// The sparse index holds every `SPARSE_INTERVAL`-th entry.
proof fn lemma_sparse_index(entries: Seq<Entry>)
    ensures
        sparse_index(entries).len() == (entries.len() + 15) / 16,
        forall|j: int|
            0 <= j < sparse_index(entries).len() ==> #[trigger] sparse_index(entries)[j] == (
                entries[16 * j].key,
                record_offset(entries, 16 * j) as u64,
            ),
    decreases entries.len(),
{
    if entries.len() > 0 {
        let front = entries.drop_last();
        lemma_sparse_index(front);
        assert forall|j: int| 0 <= j < sparse_index(entries).len() implies #[trigger] sparse_index(
            entries,
        )[j] == (entries[16 * j].key, record_offset(entries, 16 * j) as u64) by {
            if j < sparse_index(front).len() {
                assert(sparse_index(entries)[j] == sparse_index(front)[j]);
                assert(front.take(16 * j) =~= entries.take(16 * j));
            } else {
                assert(16 * j == front.len());
                assert(entries.take(16 * j) =~= front);
            }
        }
    }
}

/// Where the index entry `k` begins within the index.
spec fn index_offset(index: Seq<(Seq<u8>, u64)>, k: int) -> int {
    index_bytes(index.take(k)).len() as int
}

proof fn lemma_index_next(index: Seq<(Seq<u8>, u64)>, k: int)
    requires
        0 <= k < index.len(),
    ensures
        index_bytes(index.take(k + 1)) == index_bytes(index.take(k)) + index_entry_bytes(index[k]),
        index_offset(index, k + 1) == index_offset(index, k) + 12 + index[k].0.len(),
{
    let next = index.take(k + 1);
    assert(next.drop_last() =~= index.take(k));
    assert(next.last() == index[k]);
    lemma_le_bytes_len(index[k].1 as nat, 8);
    lemma_le_bytes_len(len_prefix(index[k].0.len()), 4);
}

proof fn lemma_index_prefix(index: Seq<(Seq<u8>, u64)>, k: int)
    requires
        0 <= k <= index.len(),
    ensures
        index_offset(index, k) <= index_bytes(index).len(),
        index_bytes(index).subrange(0, index_offset(index, k)) == index_bytes(index.take(k)),
    decreases index.len() - k,
{
    if k < index.len() {
        lemma_index_prefix(index, k + 1);
        lemma_index_next(index, k);
        let all = index_bytes(index);
        let (a, b) = (index_offset(index, k), index_offset(index, k + 1));
        assert(all.subrange(0, a) =~= all.subrange(0, b).subrange(0, a));
        assert(all.subrange(0, b).subrange(0, a) =~= index_bytes(index.take(k)));
    } else {
        assert(index.take(k) =~= index);
        assert(index_bytes(index).subrange(0, index_offset(index, k)) =~= index_bytes(index));
    }
}

/// An index reads back as it was written.
proof fn lemma_index_reads_back(index: Seq<(Seq<u8>, u64)>, k: int)
    requires
        forall|i: int| 0 <= i < index.len() ==> (#[trigger] index[i]).0.len() < LEN_LIMIT,
        0 <= k <= index.len(),
    ensures
        parse_index(index_bytes(index), index_offset(index, k)) == Some(index.skip(k)),
    decreases index.len() - k,
{
    let buf = index_bytes(index);
    if k < index.len() {
        lemma_index_reads_back(index, k + 1);
        lemma_index_next(index, k);
        lemma_index_prefix(index, k + 1);
        let (pos, end) = (index_offset(index, k), index_offset(index, k + 1));
        let part = index_entry_bytes(index[k]);
        let upto = index_bytes(index.take(k + 1));
        let n = index[k].0.len() as int;
        lemma_limits();
        lemma_le_bytes_len(index[k].1 as nat, 8);
        law_le_round_trip(index[k].1 as nat, 8);
        lemma_le_bytes_len(len_prefix(index[k].0.len()), 4);
        assert(buf.subrange(pos, end) =~= buf.subrange(0, end).subrange(pos, end));
        assert(upto.subrange(pos, end) =~= part);
        assert(buf.subrange(pos, end) == part);
        assert(end == pos + 12 + n);
        assert(buf.subrange(pos, pos + 4 + n) =~= buf.subrange(pos, end).subrange(0, 4 + n));
        assert(part.subrange(0, 4 + n) =~= framed(index[k].0));
        lemma_framed_at(buf, pos, index[k].0);
        assert(buf.subrange(pos + 4 + n, end) =~= buf.subrange(pos, end).subrange(4 + n, 12 + n));
        assert(part.subrange(4 + n, 12 + n) =~= le_bytes(index[k].1 as nat, 8));
        assert(u32_at(buf, pos) == n);
        assert(u64_at(buf, pos + 4 + n) == index[k].1);
        assert(index.skip(k) =~= seq![index[k]] + index.skip(k + 1));
    } else {
        assert(index.take(k) =~= index);
        assert(index.skip(k) =~= Seq::<(Seq<u8>, u64)>::empty());
    }
}

/// The fields of a table's footer.
proof fn lemma_footer(entries: Seq<Entry>, expected: nat)
    requires
        table_bytes(entries, expected).len() <= u64::MAX,
        capacity_bits(expected) <= u64::MAX,
    ensures
        table_bytes(entries, expected).len() == bloom_start(entries) + no_bits(expected).len()
            + FOOTER_SIZE,
        footer_field(table_bytes(entries, expected), 0) == index_start(entries),
        footer_field(table_bytes(entries, expected), 2) == bloom_start(entries),
        footer_field(table_bytes(entries, expected), 3) == capacity_bits(expected),
        footer_field(table_bytes(entries, expected), 4) == PROBES,
        footer_field(table_bytes(entries, expected), 5) == entries.len(),
        footer_field(table_bytes(entries, expected), 6) == FOOTER_MAGIC,
{
    let file = table_bytes(entries, expected);
    let f0 = index_start(entries);
    let f1 = sparse_index(entries).len();
    let f2 = bloom_start(entries);
    let f3 = capacity_bits(expected);
    let f4 = PROBES as nat;
    let f5 = entries.len();
    let f6 = FOOTER_MAGIC as nat;
    let foot = footer_bytes(f0, f1, f2, f3, f4, f5);
    lemma_limits();
    lemma_filter_bits_len(keys_of(entries), expected);
    lemma_le_bytes_len(f0, 8);
    lemma_le_bytes_len(f1, 8);
    lemma_le_bytes_len(f2, 8);
    lemma_le_bytes_len(f3, 8);
    lemma_le_bytes_len(f4, 8);
    lemma_le_bytes_len(f5, 8);
    lemma_le_bytes_len(f6, 8);
    lemma_data_len(entries);
    law_le_round_trip(f0, 8);
    law_le_round_trip(f2, 8);
    law_le_round_trip(f3, 8);
    law_le_round_trip(f4, 8);
    law_le_round_trip(f5, 8);
    law_le_round_trip(f6, 8);
    let at = file.len() - FOOTER_SIZE;
    assert(file.subrange(at, file.len() as int) =~= foot);
    assert(foot.subrange(0, 8) =~= le_bytes(f0, 8));
    assert(foot.subrange(16, 24) =~= le_bytes(f2, 8));
    assert(foot.subrange(24, 32) =~= le_bytes(f3, 8));
    assert(foot.subrange(32, 40) =~= le_bytes(f4, 8));
    assert(foot.subrange(40, 48) =~= le_bytes(f5, 8));
    assert(foot.subrange(48, 56) =~= le_bytes(f6, 8));
    assert(file.subrange(at, at + 8) =~= foot.subrange(0, 8));
    assert(file.subrange(at + 16, at + 24) =~= foot.subrange(16, 24));
    assert(file.subrange(at + 24, at + 32) =~= foot.subrange(24, 32));
    assert(file.subrange(at + 32, at + 40) =~= foot.subrange(32, 40));
    assert(file.subrange(at + 40, at + 48) =~= foot.subrange(40, 48));
    assert(file.subrange(at + 48, at + 56) =~= foot.subrange(48, 56));
}

proof fn lemma_data_len(entries: Seq<Entry>)
    ensures
        17 * entries.len() <= data_bytes(entries).len(),
    decreases entries.len(),
{
    if entries.len() > 0 {
        lemma_data_len(entries.drop_last());
        lemma_record_len(entries.last());
    }
}

/// Whether a table of `entries` can be written and read: the lengths fit their
/// prefixes and the sizes fit a machine word.
pub open spec fn table_fits(entries: Seq<Entry>, expected: nat) -> bool {
    &&& entries_fit(entries)
    &&& table_bytes(entries, expected).len() <= u64::MAX
    &&& capacity_bits(expected) <= u64::MAX
}

/// A table that was written opens, with the entry count and the index that it
/// was written with.
pub proof fn law_written_table_opens(entries: Seq<Entry>, expected: nat, path: Seq<char>)
    requires
        table_fits(entries, expected),
    ensures
        footer_error(table_bytes(entries, expected)) is None,
        index_readable(table_bytes(entries, expected)),
        table_of(path, table_bytes(entries, expected)).entry_count == entries.len(),
        table_of(path, table_bytes(entries, expected)).index == sparse_index(entries),
        entries.len() > 0 ==> table_of(path, table_bytes(entries, expected)).index[0].0
            == entries[0].key,
        filter_sound(table_of(path, table_bytes(entries, expected))),
        forall|key: Seq<u8>| #[trigger]
            table_answers(table_of(path, table_bytes(entries, expected)), key),
{
    let file = table_bytes(entries, expected);
    let t = table_of(path, file);
    let index = sparse_index(entries);
    lemma_footer(entries, expected);
    lemma_data_len(entries);
    lemma_sparse_index(entries);
    assert(index_block(file) =~= index_bytes(index));
    assert forall|i: int| 0 <= i < index.len() implies (#[trigger] index[i]).0.len()
        < LEN_LIMIT by {
        assert(index[i] == (entries[16 * i].key, record_offset(entries, 16 * i) as u64));
        assert(entry_fits(entries[16 * i]));
    }
    lemma_index_reads_back(index, 0);
    assert(index.take(0) =~= Seq::<(Seq<u8>, u64)>::empty());
    assert(index.skip(0) =~= index);
    if entries.len() > 0 {
        assert(index[0] == (entries[0].key, record_offset(entries, 0) as u64));
    }
    lemma_filter_bits_len(keys_of(entries), expected);
    assert forall|key: Seq<u8>| #[trigger] table_answers(t, key) by {
        lemma_sound_filter_answers(t, key);
    }
}

/// A scan of a table that was written gives back its entries, in order.
pub proof fn law_scan_gives_back_what_was_written(entries: Seq<Entry>, expected: nat)
    requires
        table_fits(entries, expected),
    ensures
        footer_field(table_bytes(entries, expected), 6) == FOOTER_MAGIC,
        records_from(
            table_bytes(entries, expected),
            0,
            footer_field(table_bytes(entries, expected), 0) as int,
        ) == (entries, None::<TableError>),
{
    let file = table_bytes(entries, expected);
    lemma_footer(entries, expected);
    assert(file.subrange(0, data_bytes(entries).len() as int) =~= data_bytes(entries));
    lemma_records_from(file, entries, 0);
    assert(entries.take(0) =~= Seq::<Entry>::empty());
    assert(entries.skip(0) =~= entries);
}

/// A point lookup in a table that was written in order finds the newest version
/// of the key that is no newer than the snapshot, however many versions the key
/// has and whatever block they stand in, and finds nothing if there is none.
pub proof fn law_lookup_gives_back_what_was_written(
    entries: Seq<Entry>,
    expected: nat,
    path: Seq<char>,
    key: Seq<u8>,
    as_of: u64,
    r: Result<Option<Option<Seq<u8>>>, TableError>,
)
    requires
        table_fits(entries, expected),
        in_order(entries),
        is_lookup(
            table_of(path, table_bytes(entries, expected)),
            table_bytes(entries, expected),
            key,
            as_of,
            r,
        ),
    ensures
        r == Ok::<Option<Option<Seq<u8>>>, TableError>(lookup(versions_of(entries), key, as_of)),
{
    let file = table_bytes(entries, expected);
    let t = table_of(path, file);
    let index = sparse_index(entries);
    law_written_table_opens(entries, expected, path);
    lemma_footer(entries, expected);
    lemma_filter_bits_len(keys_of(entries), expected);
    assert(t.bits =~= filter_bits(keys_of(entries), expected));
    assert(file.subrange(0, data_bytes(entries).len() as int) =~= data_bytes(entries));
    if probes_set(t.bits, t.num_bits, key, t.num_hashes as nat) {
        let offset = choose|offset: u64| #[trigger]
            starts_at(t.index, key, offset) && r == scan(
                file,
                t.data_end as int,
                offset as int,
                key,
                as_of,
            );
        let s = choose|s: int| #[trigger]
            splits_index(t.index, key, s) && offset == block_offset(t.index, s);
        let p = lemma_deciding_place(entries, key, as_of);
        lemma_lookup_in_order(entries, p, key, as_of);
        lemma_sparse_index(entries);
        let q = if s > 0 {
            16 * (s - 1)
        } else {
            0
        };
        assert(entries.take(0) =~= Seq::<Entry>::empty());
        if s > 0 {
            assert(index[s - 1] == (entries[16 * (s - 1)].key, record_offset(entries, 16 * (s - 1))
                as u64));
            lemma_data_prefix(entries, q);
            if p <= q {
                // The entry at `q` has a smaller key, so the deciding place lies
                // behind it.
                if p < q {
                    assert(entry_before(entries[p], entries[q]));
                    let target = Entry { key, seq: as_of, val: None };
                    lemma_before_trans(entries[p], entries[q], target);
                }
                assert(false);
            }
        }
        assert(offset as int == record_offset(entries, q));
        lemma_scan(file, entries, q, p, key, as_of);
    } else {
        assert forall|seq: u64| !#[trigger] visible(versions_of(entries), key, as_of, seq) by {
            if visible(versions_of(entries), key, as_of, seq) {
                let i = choose|i: int|
                    0 <= i < entries.len() && is_version(#[trigger] entries[i], (key, seq));
                law_no_false_negatives(keys_of(entries), expected, i);
                assert(keys_of(entries)[i] == key);
            }
        }
        lemma_lookup_none(versions_of(entries), key, as_of);
    }
}

// ---------- what a table's file looks like ----------

/// Where the parts of a table's record stand: the key behind its length, the
/// sequence number, the operation, and the value behind its length. A tombstone
/// has an empty value.
#[verifier::rlimit(40)]
pub proof fn law_table_record_layout(e: Entry)
    requires
        e.key.len() < 0x1_0000_0000,
        e.val is Some ==> (e.val->0).len() < 0x1_0000_0000,
    ensures
        entry_fits(e),
        ({
            let r = table_record(e);
            let k = e.key.len() as int;
            let val = if e.val is Some {
                e.val->0
            } else {
                Seq::empty()
            };
            &&& r.len() == 17 + k + val.len()
            &&& u32_at(r, 0) == k
            &&& r.subrange(4, 4 + k) == e.key
            &&& u64_at(r, 4 + k) == e.seq
            &&& r[12 + k] == if e.val is Some {
                0u8
            } else {
                1u8
            }
            &&& u32_at(r, 13 + k) == val.len()
            &&& r.skip(17 + k) == val
        }),
{
    let r = table_record(e);
    let k = e.key.len() as int;
    let val = value_bytes(e.val);
    lemma_record_len(e);
    lemma_limits();
    lemma_le_bytes_len(e.seq as nat, 8);
    law_le_round_trip(e.seq as nat, 8);
    lemma_le_bytes_len(len_prefix(e.key.len()), 4);
    lemma_le_bytes_len(len_prefix(val.len()), 4);
    assert(r.subrange(0, 4 + k) =~= framed(e.key));
    lemma_framed_at(r, 0, e.key);
    assert(r.subrange(4 + k, 12 + k) =~= le_bytes(e.seq as nat, 8));
    assert(r.subrange(13 + k, r.len() as int) =~= framed(val));
    lemma_framed_at(r, 13 + k, val);
    assert(r.skip(17 + k) =~= r.subrange(17 + k, r.len() as int));
}

/// A record of which only the beginning is there is an error, unless not even
/// the length of its key is: that is the end of the records.
#[verifier::rlimit(40)]
pub proof fn law_cut_record_is_refused(e: Entry, n: int)
    requires
        e.key.len() < 0x1_0000_0000,
        e.val is Some ==> (e.val->0).len() < 0x1_0000_0000,
        0 <= n < table_record(e).len(),
    ensures
        table_record_at(table_record(e).take(n), 0) == if n < 4 {
            Ok::<Option<(Entry, int)>, TableError>(None)
        } else {
            Err(TableError::UnexpectedEof)
        },
{
    let all = table_record(e);
    let s = all.take(n);
    let k = e.key.len() as int;
    law_table_record_layout(e);
    if n >= 4 {
        assert(s.subrange(0, 4) =~= all.subrange(0, 4));
    }
    if n >= 17 + k {
        assert(s.subrange(13 + k, 17 + k) =~= all.subrange(13 + k, 17 + k));
    }
}

/// The data block is the records one behind the other, and so is the index its
/// entries: each a key behind its length, and the offset of the record.
pub proof fn law_blocks_are_concatenations(
    entries: Seq<Entry>,
    e: Entry,
    index: Seq<(Seq<u8>, u64)>,
    x: (Seq<u8>, u64),
)
    ensures
        data_bytes(Seq::<Entry>::empty()) == Seq::<u8>::empty(),
        data_bytes(entries.push(e)) == data_bytes(entries) + table_record(e),
        index_bytes(Seq::<(Seq<u8>, u64)>::empty()) == Seq::<u8>::empty(),
        index_bytes(index.push(x)) == index_bytes(index) + framed(x.0) + le_bytes(x.1 as nat, 8),
{
    assert(entries.push(e).drop_last() =~= entries);
    assert(index.push(x).drop_last() =~= index);
    assert(index_bytes(index.push(x)) =~= index_bytes(index) + framed(x.0) + le_bytes(
        x.1 as nat,
        8,
    ));
}

/// The index holds the key and the offset of every sixteenth record, the first
/// among them.
pub proof fn law_index_holds_every_sixteenth(entries: Seq<Entry>, j: int)
    requires
        0 <= j,
        data_bytes(entries).len() <= u64::MAX,
    ensures
        sparse_index(entries).len() == (entries.len() + 15) / 16,
        16 * j < entries.len() ==> sparse_index(entries)[j].0 == entries[16 * j].key
            && sparse_index(entries)[j].1 == data_bytes(entries.take(16 * j)).len(),
{
    lemma_sparse_index(entries);
    if 16 * j < entries.len() {
        lemma_data_prefix(entries, 16 * j);
    }
}

/// Where the parts of a table's file stand: the data block, the index, the bits of
/// the filter, and seven numbers that tell where they are and how many of each
/// there are.
#[verifier::rlimit(40)]
pub proof fn law_table_file_layout(entries: Seq<Entry>, expected: nat)
    requires
        table_bytes(entries, expected).len() <= u64::MAX,
        capacity_bits(expected) <= u64::MAX,
    ensures
        ({
            let file = table_bytes(entries, expected);
            let data = data_bytes(entries);
            let index = index_bytes(sparse_index(entries));
            let bits = filter_bits(keys_of(entries), expected);
            let end = file.len() as int;
            let d = data.len() as int;
            let i = d + index.len();
            &&& end == i + bits.len() + 56
            &&& file.subrange(0, d) == data
            &&& file.subrange(d, i) == index
            &&& file.subrange(i, end - 56) == bits
            &&& u64_at(file, end - 56) == d
            &&& u64_at(file, end - 48) == (entries.len() + 15) / 16
            &&& u64_at(file, end - 40) == i
            &&& u64_at(file, end - 32) == capacity_bits(expected)
            &&& u64_at(file, end - 24) == 7
            &&& u64_at(file, end - 16) == entries.len()
            &&& u64_at(file, end - 8) == 0x7470_7566_6665_7221
            &&& keys_of(entries).len() == entries.len()
            &&& forall|q: int|
                0 <= q < entries.len() ==> #[trigger] keys_of(entries)[q] == entries[q].key
        }),
{
    let file = table_bytes(entries, expected);
    let data = data_bytes(entries);
    let index = index_bytes(sparse_index(entries));
    let bits = filter_bits(keys_of(entries), expected);
    let end = file.len() as int;
    let d = data.len() as int;
    let i = d + index.len();
    lemma_footer(entries, expected);
    lemma_sparse_index(entries);
    lemma_filter_bits_len(keys_of(entries), expected);
    let foot = footer_bytes(
        index_start(entries),
        sparse_index(entries).len(),
        bloom_start(entries),
        capacity_bits(expected),
        PROBES as nat,
        entries.len(),
    );
    lemma_le_bytes_len(index_start(entries), 8);
    lemma_le_bytes_len(sparse_index(entries).len(), 8);
    lemma_le_bytes_len(bloom_start(entries), 8);
    lemma_le_bytes_len(capacity_bits(expected), 8);
    lemma_le_bytes_len(PROBES as nat, 8);
    lemma_le_bytes_len(entries.len(), 8);
    lemma_le_bytes_len(FOOTER_MAGIC as nat, 8);
    assert(foot.len() == 56);
    assert(file.subrange(0, d) =~= data);
    assert(file.subrange(d, i) =~= index);
    assert(file.subrange(i, end - 56) =~= bits);
    lemma_limits();
    lemma_data_len(entries);
    law_le_round_trip(sparse_index(entries).len(), 8);
    assert(file.subrange(end - 48, end - 40) =~= le_bytes(sparse_index(entries).len(), 8));
    assert(footer_field(file, 0) == u64_at(file, end - 56));
    assert(footer_field(file, 2) == u64_at(file, end - 40));
    assert(footer_field(file, 3) == u64_at(file, end - 32));
    assert(footer_field(file, 4) == u64_at(file, end - 24));
    assert(footer_field(file, 5) == u64_at(file, end - 16));
    assert(footer_field(file, 6) == u64_at(file, end - 8));
}

/// A file is refused exactly if it is shorter than a footer, does not end in the
/// magic number, or its footer says that the index or the filter begin behind the
/// end or in the wrong order.
pub proof fn law_bad_footer_is_refused(file: Seq<u8>)
    ensures
        footer_error(file) == Some(TableError::TooSmall) <==> file.len() < 56,
        footer_error(file) == Some(TableError::BadMagic) <==> file.len() >= 56 && u64_at(
            file,
            file.len() - 8,
        ) != 0x7470_7566_6665_7221,
        footer_error(file) is None <==> {
            &&& file.len() >= 56
            &&& u64_at(file, file.len() - 8) == 0x7470_7566_6665_7221
            &&& u64_at(file, file.len() - 56) <= u64_at(file, file.len() - 40) <= file.len() - 56
        },
        footer_error(file) is None || footer_error(file) == Some(TableError::TooSmall)
            || footer_error(file) == Some(TableError::BadMagic) || footer_error(file) == Some(
            TableError::OffsetsOutOfRange,
        ),
{
}

/// Every table whose lengths fit 32 bits and whose size fits 64 can be written
/// and read.
pub proof fn law_tables_of_any_entries_fit(entries: Seq<Entry>, expected: nat)
    requires
        forall|i: int|
            0 <= i < entries.len() ==> (#[trigger] entries[i]).key.len() < 0x1_0000_0000 && (
            entries[i].val is Some ==> (entries[i].val->0).len() < 0x1_0000_0000),
        table_bytes(entries, expected).len() <= u64::MAX,
        10 * expected <= u64::MAX,
    ensures
        table_fits(entries, expected),
{
    assert forall|i: int| 0 <= i < entries.len() implies entry_fits(#[trigger] entries[i]) by {
        law_table_record_layout(entries[i]);
    }
}

/// A record is read where it stands: the key behind its length, the sequence
/// number, the operation, of which zero alone writes a value, and the value behind
/// its length. Fewer than four bytes are the end of the records, and a record that
/// is not all there is an error.
pub proof fn law_table_record_is_read_where_it_stands(s: Seq<u8>, pos: int)
    requires
        0 <= pos <= s.len(),
    ensures
        table_record_at(s, pos) == Ok::<Option<(Entry, int)>, TableError>(None) <==> s.len()
            < pos + 4,
        table_record_at(s, pos) is Err ==> table_record_at(s, pos)->Err_0
            == TableError::UnexpectedEof && s.len() >= pos + 4 && (s.len() < pos + 17 + u32_at(
            s,
            pos,
        ) || s.len() < pos + 17 + u32_at(s, pos) + u32_at(s, pos + 13 + u32_at(s, pos))),
        table_record_at(s, pos) is Ok && table_record_at(s, pos)->Ok_0 is Some ==> {
            let (e, end) = table_record_at(s, pos)->Ok_0->0;
            let k = u32_at(s, pos) as int;
            let v = u32_at(s, pos + 13 + k) as int;
            &&& end == pos + 17 + k + v
            &&& end <= s.len()
            &&& e.key == s.subrange(pos + 4, pos + 4 + k)
            &&& e.seq == u64_at(s, pos + 4 + k)
            &&& s[pos + 12 + k] == 0 ==> e.val == Some(s.subrange(pos + 17 + k, end))
            &&& s[pos + 12 + k] != 0 ==> e.val is None
        },
{
    if table_record_at(s, pos) is Ok && table_record_at(s, pos)->Ok_0 is Some {
        let k = u32_at(s, pos) as int;
        lemma_limits();
        lemma_le_value_bound(s.subrange(pos + 4 + k, pos + 12 + k));
    }
}

proof fn lemma_index_front(x: (Seq<u8>, u64), rest: Seq<(Seq<u8>, u64)>)
    ensures
        index_bytes(seq![x] + rest) == index_entry_bytes(x) + index_bytes(rest),
    decreases rest.len(),
{
    let all = seq![x] + rest;
    if rest.len() == 0 {
        assert(all.drop_last() =~= Seq::<(Seq<u8>, u64)>::empty());
        assert(index_bytes(all.drop_last()) =~= Seq::<u8>::empty());
        assert(index_bytes(all) =~= index_entry_bytes(x) + index_bytes(rest));
    } else {
        lemma_index_front(x, rest.drop_last());
        assert(all.drop_last() =~= seq![x] + rest.drop_last());
        assert(index_bytes(all) =~= index_entry_bytes(x) + index_bytes(rest));
    }
}

#[verifier::rlimit(40)]
proof fn lemma_index_was_written(buf: Seq<u8>, cursor: int)
    requires
        0 <= cursor <= buf.len(),
        parse_index(buf, cursor) is Some,
    ensures
        index_bytes(parse_index(buf, cursor)->0) == buf.skip(cursor),
    decreases buf.len() - cursor,
{
    if cursor < buf.len() {
        let k = u32_at(buf, cursor) as int;
        let end = cursor + 12 + k;
        let key = buf.subrange(cursor + 4, cursor + 4 + k);
        let offset = u64_at(buf, cursor + 4 + k) as u64;
        lemma_index_was_written(buf, end);
        lemma_limits();
        lemma_le_value_bound(buf.subrange(cursor, cursor + 4));
        lemma_le_value_bound(buf.subrange(cursor + 4 + k, end));
        law_le_bytes_of_value(buf.subrange(cursor, cursor + 4));
        law_le_bytes_of_value(buf.subrange(cursor + 4 + k, end));
        lemma_index_front((key, offset), parse_index(buf, end)->0);
        assert(index_entry_bytes((key, offset)) =~= buf.subrange(cursor, end));
        assert(buf.skip(cursor) =~= buf.subrange(cursor, end) + buf.skip(end));
    } else {
        assert(buf.skip(cursor) =~= Seq::<u8>::empty());
    }
}

/// An index is read only from bytes that are its entries and nothing else: one
/// that was cut in an entry cannot be read.
pub proof fn law_index_is_read_whole(buf: Seq<u8>)
    requires
        parse_index(buf, 0) is Some,
    ensures
        index_bytes(parse_index(buf, 0)->0) == buf,
{
    lemma_index_was_written(buf, 0);
    assert(buf.skip(0) =~= buf);
}

} // verus!
