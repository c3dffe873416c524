//! Tests of the storage layers: bytes, filter, log, memtable, tables.

use sift_core::bloom::BloomFilter;
use sift_core::codec::{
    doc_id, doc_key, get_u32, get_u64, put_framed, put_u32, put_u64,
};
use sift_core::hash::fnv1a;
use sift_core::memtable::MemTable;
use sift_core::order::{compare_bytes, Order};
use sift_core::sstable::{
    read_record, SSTable, SSTableIter, SSTableMeta, SSTableWriter, TableError, FOOTER_SIZE,
};
use sift_core::wal::{replay, replay_intact, Op, Wal};
use sift_core::{InternalKey, SeqNo, Value};

fn put(val: &[u8]) -> Value {
    Value::Put(val.to_vec())
}

fn table(expected: usize, entries: &[(&[u8], u64, Value)]) -> (SSTableMeta, Vec<u8>) {
    let mut w = SSTableWriter::create("t.sst".to_string(), expected);
    for (key, seq, value) in entries {
        w.add(&InternalKey::new(key.to_vec(), *seq), value);
    }
    w.finish()
}

fn entries_of(file: &[u8]) -> Vec<(Vec<u8>, u64, Value)> {
    let mut it = SSTableIter::open(file).unwrap();
    let mut out = Vec::new();
    while let Some(item) = it.next() {
        let (ik, v) = item.unwrap();
        out.push((ik.user_key, ik.seq, v));
    }
    out
}

// ---------- bytes, order, hash ----------

#[test]
fn numbers_are_little_endian_and_read_back() {
    let mut out = Vec::new();
    put_u32(&mut out, 0x0102_0304);
    put_u64(&mut out, 0x1122_3344_5566_7788);
    assert_eq!(
        out,
        vec![4, 3, 2, 1, 0x88, 0x77, 0x66, 0x55, 0x44, 0x33, 0x22, 0x11]
    );
    assert_eq!(get_u32(&out, 0), 0x0102_0304);
    assert_eq!(get_u64(&out, 4), 0x1122_3344_5566_7788);
}

#[test]
fn framed_fields_carry_their_length() {
    let mut out = Vec::new();
    put_framed(&mut out, b"abc");
    assert_eq!(out, vec![3, 0, 0, 0, b'a', b'b', b'c']);
}

#[test]
fn document_keys_are_big_endian_and_sort_like_their_ids() {
    assert_eq!(doc_key(1), vec![0, 0, 0, 0, 0, 0, 0, 1]);
    assert_eq!(doc_key(0x0102_0304_0506_0708), vec![1, 2, 3, 4, 5, 6, 7, 8]);
    assert_eq!(doc_id(&doc_key(0xdead_beef)), 0xdead_beef);
    assert_eq!(compare_bytes(&doc_key(255), &doc_key(256)), Order::Less);
}

#[test]
fn byte_strings_compare_from_the_front() {
    assert_eq!(compare_bytes(b"ab", b"abc"), Order::Less);
    assert_eq!(compare_bytes(b"b", b"abc"), Order::Greater);
    assert_eq!(compare_bytes(b"abc", b"abc"), Order::Equal);
    assert_eq!(compare_bytes(b"", b""), Order::Equal);
}

#[test]
fn fnv1a_has_its_published_values() {
    assert_eq!(fnv1a(b""), 0xcbf2_9ce4_8422_2325);
    assert_eq!(fnv1a(b"a"), 0xaf63_dc4c_8601_ec8c);
    assert_eq!(fnv1a(b"foobar"), 0x8594_4171_f739_67e8);
}

#[test]
fn internal_keys_sort_by_key_and_then_newest_first() {
    let a1 = InternalKey::new(b"a".to_vec(), 1);
    let a2 = InternalKey::new(b"a".to_vec(), 2);
    let b1 = InternalKey::new(b"b".to_vec(), 1);
    assert!(a2 < a1);
    assert!(a1 < b1);
    assert!(a1 == InternalKey::new(b"a".to_vec(), 1));
    assert!(a1 != a2);
    assert_eq!(a1.cmp(&a2), std::cmp::Ordering::Greater);
    assert_eq!(a1.cmp(&a1), std::cmp::Ordering::Equal);
}

#[test]
fn values_know_their_live_bytes() {
    assert_eq!(put(b"x").as_put(), Some(&b"x"[..]));
    assert_eq!(Value::Delete.as_put(), None);
    assert_eq!(put(b"x").duplicate(), put(b"x"));
}

// ---------- memtable ----------

#[test]
fn mvcc_snapshot_read_sees_correct_version() {
    let mut mt = MemTable::new();
    mt.put(b"k", b"v1", 1);
    mt.put(b"k", b"v2", 2);
    mt.delete(b"k", 3);
    mt.put(b"k", b"v4", 4);

    assert_eq!(mt.get(b"k", 1), Some(&Value::Put(b"v1".to_vec())));
    assert_eq!(mt.get(b"k", 2), Some(&Value::Put(b"v2".to_vec())));
    assert_eq!(mt.get(b"k", 3), Some(&Value::Delete));
    assert_eq!(mt.get(b"k", 4), Some(&Value::Put(b"v4".to_vec())));
    assert_eq!(mt.get(b"missing", 4), None);
}

#[test]
fn iteration_is_key_ascending_seq_descending() {
    let mut mt = MemTable::new();
    mt.put(b"b", b"1", 1);
    mt.put(b"a", b"1", 1);
    mt.put(b"a", b"2", 2);
    let order: Vec<(Vec<u8>, SeqNo)> = mt
        .iter()
        .iter()
        .map(|(ik, _)| (ik.user_key.clone(), ik.seq))
        .collect();
    assert_eq!(
        order,
        vec![(b"a".to_vec(), 2), (b"a".to_vec(), 1), (b"b".to_vec(), 1)]
    );
}

#[test]
fn memtable_estimates_its_size() {
    let mut mt = MemTable::default();
    assert!(mt.is_empty());
    assert_eq!(mt.approx_bytes(), 0);
    mt.put(b"ab", b"cde", 1);
    assert_eq!(mt.approx_bytes(), 29);
    mt.delete(b"x", 2);
    assert_eq!(mt.approx_bytes(), 54);
    assert!(!mt.is_empty());
    mt.clear();
    assert!(mt.is_empty());
    assert_eq!(mt.approx_bytes(), 0);
    assert_eq!(mt.get(b"ab", 9), None);
}

#[test]
fn a_cleared_memtable_is_as_a_new_one() {
    let mut mt = MemTable::new();
    mt.put(b"k", b"v", 1);
    assert!(!mt.is_empty());
    mt.clear();
    assert!(mt.is_empty());
    assert_eq!(mt.approx_bytes(), 0);
    assert!(mt.iter().is_empty());
    assert_eq!(mt.get(b"k", 9), None);
    mt.delete(b"k", 2);
    assert!(!mt.is_empty());
}

#[test]
fn writing_a_version_again_replaces_its_value() {
    let mut mt = MemTable::new();
    mt.put(b"k", b"old", 7);
    mt.put(b"k", b"new", 7);
    assert_eq!(mt.get(b"k", 7), Some(&put(b"new")));
    assert_eq!(mt.iter().len(), 1);
    assert_eq!(mt.get(b"k", 6), None);
}

// ---------- bloom filter ----------

#[test]
fn bloom_filter_has_no_false_negatives() {
    let mut bf = BloomFilter::with_capacity(1000);
    let keys: Vec<Vec<u8>> = (0..1000).map(|i| format!("k{}", i).into_bytes()).collect();
    for k in &keys {
        bf.add(k);
    }
    for k in &keys {
        assert!(bf.might_contain(k));
    }
}

#[test]
fn bloom_filter_is_sized_by_its_keys() {
    let small = BloomFilter::with_capacity(0);
    assert_eq!((small.num_bits, small.num_hashes, small.bits.len()), (64, 7, 8));
    let large = BloomFilter::with_capacity(1000);
    assert_eq!(
        (large.num_bits, large.num_hashes, large.bits.len()),
        (10_000, 7, 1250)
    );
    assert!(!large.might_contain(b"anything"));
}

#[test]
fn a_damaged_filter_says_that_it_cannot_answer() {
    assert!(!BloomFilter::from_raw(Vec::new(), 64, 7).can_answer(b"k"));
    assert!(!BloomFilter::from_raw(vec![255; 8], 0, 7).can_answer(b"k"));
    assert!(BloomFilter::from_raw(vec![255; 8], 64, 7).can_answer(b"k"));
    assert!(BloomFilter::from_raw(vec![255; 8], 64, 7).might_contain(b"k"));
}

// ---------- log ----------

fn log_of(records: &[(u64, Op, &[u8], &[u8])]) -> Vec<u8> {
    let mut wal = Wal::new();
    for (seq, op, key, val) in records {
        wal.append(*seq, *op, key, val);
    }
    wal.take_buffered()
}

#[test]
fn log_records_have_their_documented_layout() {
    let log = log_of(&[(7, Op::Put, b"k", b"vw")]);
    let body = vec![
        7, 0, 0, 0, 0, 0, 0, 0, 0, 1, 0, 0, 0, b'k', 2, 0, 0, 0, b'v', b'w',
    ];
    let mut expected = fnv1a(&body).to_le_bytes().to_vec();
    expected.extend_from_slice(&body);
    assert_eq!(log, expected);
}

#[test]
fn replay_gives_back_what_was_appended() {
    let log = log_of(&[
        (1, Op::Put, b"a", b"1"),
        (2, Op::Delete, b"a", b""),
        (3, Op::Put, b"", b""),
    ]);
    let records = replay(&log);
    assert_eq!(records.len(), 3);
    assert_eq!((records[0].seq, records[0].op), (1, Op::Put));
    assert_eq!(records[0].key, b"a".to_vec());
    assert_eq!(records[0].val, b"1".to_vec());
    assert_eq!((records[1].seq, records[1].op), (2, Op::Delete));
    assert_eq!((records[2].seq, records[2].key.len()), (3, 0));
    assert_eq!(replay_intact(&log).1, log.len());
    assert!(replay(b"").is_empty());
}

#[test]
fn replay_stops_at_a_torn_record() {
    let first = log_of(&[(1, Op::Put, b"a", b"1")]);
    let both = log_of(&[(1, Op::Put, b"a", b"1"), (2, Op::Put, b"bb", b"22")]);
    for cut in first.len()..both.len() {
        let (records, end) = replay_intact(&both[..cut]);
        assert_eq!(records.len(), 1);
        assert_eq!(end, first.len());
    }
    for cut in 0..first.len() {
        assert!(replay(&both[..cut]).is_empty());
    }
}

#[test]
fn replay_stops_at_a_bad_checksum() {
    let first = log_of(&[(1, Op::Put, b"a", b"1")]);
    let mut both = log_of(&[(1, Op::Put, b"a", b"1"), (2, Op::Put, b"b", b"2")]);
    let last = both.len() - 1;
    both[last] ^= 1;
    let (records, end) = replay_intact(&both);
    assert_eq!((records.len(), end), (1, first.len()));
}

#[test]
fn damage_spares_the_records_before_it() {
    let records: [(u64, Op, &[u8], &[u8]); 3] = [
        (1, Op::Put, b"a", b"1"),
        (2, Op::Put, b"b", b"2"),
        (3, Op::Delete, b"a", b""),
    ];
    let before = log_of(&records[..1]).len();
    let whole = log_of(&records);
    for at in before..log_of(&records[..2]).len() {
        let mut damaged = whole.clone();
        damaged[at] ^= 0x10;
        let (found, end) = replay_intact(&damaged);
        assert_eq!((found.len(), end), (1, before));
        assert_eq!(found[0].key, b"a".to_vec());
    }
}

#[test]
fn replay_stops_at_an_unknown_op() {
    let mut body = vec![9, 0, 0, 0, 0, 0, 0, 0, 2];
    put_framed(&mut body, b"k");
    put_framed(&mut body, b"v");
    let mut log = fnv1a(&body).to_le_bytes().to_vec();
    log.extend_from_slice(&body);
    assert!(replay(&log).is_empty());
    body[8] = 1;
    let mut known = fnv1a(&body).to_le_bytes().to_vec();
    known.extend_from_slice(&body);
    assert_eq!(replay(&known).len(), 1);
}

// ---------- tables ----------

#[test]
fn write_then_point_lookups() {
    let mut w = SSTableWriter::create("basic.sst".to_string(), 100);
    for i in 0..100u32 {
        let key = format!("key{:04}", i).into_bytes();
        let val = format!("val{}", i).into_bytes();
        w.add(&InternalKey::new(key, 1), &Value::Put(val));
    }
    let (_, file) = w.finish();

    let sst = SSTable::open("basic.sst".to_string(), &file).unwrap();
    assert_eq!(
        sst.get(&file, b"key0050", 10).unwrap(),
        Some(Value::Put(b"val50".to_vec()))
    );
    assert_eq!(
        sst.get(&file, b"key0099", 10).unwrap(),
        Some(Value::Put(b"val99".to_vec()))
    );
    assert_eq!(sst.get(&file, b"nope", 10).unwrap(), None);
}

#[test]
fn entry_count_survives_round_trip() {
    let mut w = SSTableWriter::create("entry_count.sst".to_string(), 50);
    for i in 0..50u32 {
        let key = format!("k{:04}", i).into_bytes();
        w.add(&InternalKey::new(key, 1), &Value::Put(b"v".to_vec()));
    }
    let (_, file) = w.finish();

    let meta = SSTable::open("entry_count.sst".to_string(), &file)
        .unwrap()
        .into_meta();
    assert_eq!(meta.entry_count, 50);
}

/// A key with at least as many versions as an index entry spans must still be
/// found at the newest version that the snapshot may see.
#[test]
fn many_versions_of_same_key_point_lookup() {
    let mut w = SSTableWriter::create("multiversion.sst".to_string(), 22);
    w.add(
        &InternalKey::new(b"aaa".to_vec(), 1),
        &Value::Put(b"anchor-low".to_vec()),
    );
    for seq in (1u64..=20).rev() {
        let val = format!("hot-v{}", seq).into_bytes();
        w.add(&InternalKey::new(b"hot".to_vec(), seq), &Value::Put(val));
    }
    w.add(
        &InternalKey::new(b"zzz".to_vec(), 1),
        &Value::Put(b"anchor-high".to_vec()),
    );
    let (_, file) = w.finish();

    let sst = SSTable::open("multiversion.sst".to_string(), &file).unwrap();
    assert_eq!(
        sst.get(&file, b"hot", SeqNo::MAX).unwrap(),
        Some(Value::Put(b"hot-v20".to_vec()))
    );
    assert_eq!(
        sst.get(&file, b"hot", 5).unwrap(),
        Some(Value::Put(b"hot-v5".to_vec()))
    );
    assert_eq!(sst.get(&file, b"hot", 0).unwrap(), None);
}

#[test]
fn every_version_is_found_over_many_blocks_of_one_key() {
    let entries: Vec<(&[u8], u64, Value)> = (1u64..=100)
        .rev()
        .map(|seq| (&b"k"[..], seq, put(format!("v{}", seq).as_bytes())))
        .collect();
    let (_, file) = table(100, &entries);
    let sst = SSTable::open("t.sst".to_string(), &file).unwrap();
    for seq in 1u64..=100 {
        assert_eq!(
            sst.get(&file, b"k", seq).unwrap(),
            Some(put(format!("v{}", seq).as_bytes()))
        );
    }
}

#[test]
fn tables_have_their_documented_layout() {
    let (meta, file) = table(1, &[(b"k", 5, put(b"vw"))]);
    let record = vec![1, 0, 0, 0, b'k', 5, 0, 0, 0, 0, 0, 0, 0, 0, 2, 0, 0, 0, b'v', b'w'];
    let index = vec![1, 0, 0, 0, b'k', 0, 0, 0, 0, 0, 0, 0, 0];
    assert_eq!(file[..20], record[..]);
    assert_eq!(file[20..33], index[..]);
    assert_eq!(file.len(), 20 + 13 + 8 + FOOTER_SIZE);
    let footer: Vec<u64> = (0..7).map(|i| get_u64(&file, 41 + 8 * i)).collect();
    assert_eq!(footer, vec![20, 1, 33, 64, 7, 1, 0x7470_7566_6665_7221]);
    assert_eq!(meta.path, "t.sst");
    assert_eq!((meta.min_key, meta.max_key), (b"k".to_vec(), b"k".to_vec()));
    assert_eq!(meta.entry_count, 1);
}

#[test]
fn a_scan_gives_back_what_was_written() {
    let entries: Vec<(&[u8], u64, Value)> = vec![
        (b"a", 9, put(b"1")),
        (b"a", 4, Value::Delete),
        (b"b", 2, put(b"")),
    ];
    let (meta, file) = table(3, &entries);
    let expected: Vec<(Vec<u8>, u64, Value)> = entries
        .iter()
        .map(|(k, s, v)| (k.to_vec(), *s, v.duplicate()))
        .collect();
    assert_eq!(entries_of(&file), expected);
    assert_eq!((meta.min_key, meta.max_key), (b"a".to_vec(), b"b".to_vec()));
}

#[test]
fn tombstones_are_found_as_such() {
    let (_, file) = table(2, &[(b"a", 2, Value::Delete), (b"a", 1, put(b"x"))]);
    let sst = SSTable::open("t.sst".to_string(), &file).unwrap();
    assert_eq!(sst.get(&file, b"a", 9).unwrap(), Some(Value::Delete));
    assert_eq!(sst.get(&file, b"a", 1).unwrap(), Some(put(b"x")));
}

#[test]
fn a_reader_knows_the_least_key_only() {
    let (_, file) = table(2, &[(b"a", 1, put(b"1")), (b"b", 1, put(b"2"))]);
    let sst = SSTable::open("t.sst".to_string(), &file).unwrap();
    assert_eq!(sst.min_max(), (Some(&b"a"[..]), None));
    let meta = sst.into_meta();
    assert_eq!(meta.path, "t.sst");
    assert_eq!((meta.min_key, meta.max_key), (b"a".to_vec(), Vec::new()));
    let (_, empty) = table(0, &[]);
    let none = SSTable::open("e.sst".to_string(), &empty).unwrap();
    assert_eq!(none.min_max(), (None, None));
    assert_eq!(none.get(&empty, b"a", 9).unwrap(), None);
}

#[test]
fn lookups_start_one_block_before_the_key() {
    let keys: Vec<Vec<u8>> = (0..40).map(|i| format!("k{:02}", i).into_bytes()).collect();
    let entries: Vec<(&[u8], u64, Value)> = keys
        .iter()
        .map(|k| (k.as_slice(), 1, put(b"v")))
        .collect();
    let (_, file) = table(40, &entries);
    let sst = SSTable::open("t.sst".to_string(), &file).unwrap();
    let record = 4 + 3 + 8 + 1 + 4 + 1;
    assert_eq!(sst.block_start_offset(b"a"), 0);
    assert_eq!(sst.block_start_offset(b"k00"), 0);
    assert_eq!(sst.block_start_offset(b"k10"), 0);
    assert_eq!(sst.block_start_offset(b"k16"), 0);
    assert_eq!(sst.block_start_offset(b"k17"), 16 * record);
    assert_eq!(sst.block_start_offset(b"z"), 32 * record);
}

#[test]
fn a_file_that_is_no_table_is_refused() {
    let (_, file) = table(1, &[(b"k", 1, put(b"v"))]);
    let open = |bytes: &[u8]| SSTable::open("t.sst".to_string(), bytes).err();
    assert_eq!(open(&file[..FOOTER_SIZE - 1]), Some(TableError::TooSmall));
    assert_eq!(SSTableIter::open(&file[..10]).err(), Some(TableError::TooSmall));

    let mut bad = file.clone();
    let last = bad.len() - 1;
    bad[last] ^= 1;
    assert_eq!(open(&bad), Some(TableError::BadMagic));
    assert_eq!(SSTableIter::open(&bad).err(), Some(TableError::BadMagic));

    let mut far = file.clone();
    let footer = far.len() - FOOTER_SIZE;
    far[footer + 7] = 1;
    assert_eq!(open(&far), Some(TableError::OffsetsOutOfRange));
    assert_eq!(open(&file), None);
}

#[test]
fn a_record_that_runs_past_the_end_is_an_error() {
    let (_, file) = table(1, &[(b"k", 1, put(b"v"))]);
    let mut cut = file.clone();
    cut[0] = 255;
    cut[1] = 255;
    assert_eq!(read_record(&cut, 0).err(), Some(TableError::UnexpectedEof));
    let mut it = SSTableIter::open(&cut).unwrap();
    assert!(matches!(it.next(), Some(Err(TableError::UnexpectedEof))));
    let sst = SSTable::open("t.sst".to_string(), &cut).unwrap();
    assert_eq!(sst.get(&cut, b"k", 1).err(), Some(TableError::UnexpectedEof));
    assert!(read_record(&file, file.len() - 3).unwrap().is_none());
    let rec = read_record(&file, 0).unwrap().unwrap();
    assert_eq!((rec.user_key, rec.seq, rec.encoded_len), (b"k".to_vec(), 1, 19));
}

#[test]
fn damaged_indexes_and_filters_are_noticed() {
    let (_, file) = table(1, &[(b"k", 1, put(b"v"))]);
    assert!(SSTable::can_open(&file));
    let mut index = file.clone();
    index[19] = 200;
    assert!(!SSTable::can_open(&index));

    let mut filter = file.clone();
    let footer = filter.len() - FOOTER_SIZE;
    for i in 0..8 {
        filter[footer + 24 + i] = 255;
    }
    let sst = SSTable::open("t.sst".to_string(), &filter).unwrap();
    assert!(!sst.has_sound_filter());
    assert!(!sst.can_get(b"some key"));
    let sound = SSTable::open("t.sst".to_string(), &file).unwrap();
    assert!(sound.has_sound_filter());
    assert!(sound.can_get(b"some key"));
}
