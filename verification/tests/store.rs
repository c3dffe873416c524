//! Tests of compaction and of the storage engine.

use sift_core::compaction::{compact, lookup_in_tiers, should_compact, TableFile};
use sift_core::lsm::{load_table, LsmEngine, FLUSH_TRIGGER};
use sift_core::sstable::{SSTableIter, SSTableWriter, TableError, FOOTER_SIZE};
use sift_core::store::StoreError;
use sift_core::wal::{Op, Wal};
use sift_core::{InternalKey, Value};

fn put(val: &[u8]) -> Value {
    Value::Put(val.to_vec())
}

fn table(path: &str, entries: &[(&[u8], u64, Value)]) -> TableFile {
    let mut w = SSTableWriter::create(path.to_string(), entries.len());
    for (key, seq, value) in entries {
        w.add(&InternalKey::new(key.to_vec(), *seq), value);
    }
    let (meta, bytes) = w.finish();
    TableFile { meta, bytes }
}

fn again(t: &TableFile) -> TableFile {
    load_table(t.meta.path.clone(), t.bytes.clone()).unwrap()
}

fn entries_of(file: &[u8]) -> Vec<(Vec<u8>, u64, Value)> {
    let mut it = SSTableIter::open(file).unwrap();
    let mut out = Vec::new();
    while let Some(item) = it.next() {
        let (ik, v) = item.unwrap();
        out.push((ik.user_key, ik.seq, v));
    }
    out
}

// ---------- compaction ----------

#[test]
fn four_tables_are_compacted() {
    assert!(!should_compact(0));
    assert!(!should_compact(3));
    assert!(should_compact(4));
    assert!(should_compact(5));
}

#[test]
fn compaction_keeps_the_newest_version_of_each_key() {
    let inputs = vec![
        table("2.sst", &[(b"a", 5, put(b"a5")), (b"c", 6, put(b"c6"))]),
        table(
            "1.sst",
            &[(b"a", 2, put(b"a2")), (b"a", 1, put(b"a1")), (b"b", 3, put(b"b3"))],
        ),
    ];
    let out = compact(&inputs, "3.sst".to_string(), false).unwrap();
    assert_eq!(
        entries_of(&out.bytes),
        vec![
            (b"a".to_vec(), 5, put(b"a5")),
            (b"b".to_vec(), 3, put(b"b3")),
            (b"c".to_vec(), 6, put(b"c6")),
        ]
    );
    assert_eq!(out.meta.path, "3.sst");
    assert_eq!(out.meta.entry_count, 3);
    assert_eq!(out.meta.min_key, b"a".to_vec());
    assert_eq!(out.meta.max_key, b"c".to_vec());
}

#[test]
fn tombstones_stay_until_the_last_level() {
    let inputs = vec![
        table("2.sst", &[(b"a", 5, Value::Delete)]),
        table("1.sst", &[(b"a", 2, put(b"a2")), (b"b", 3, put(b"b3"))]),
    ];
    let middle = compact(&inputs, "m.sst".to_string(), false).unwrap();
    assert_eq!(
        entries_of(&middle.bytes),
        vec![(b"a".to_vec(), 5, Value::Delete), (b"b".to_vec(), 3, put(b"b3"))]
    );
    let last = compact(&inputs, "l.sst".to_string(), true).unwrap();
    assert_eq!(entries_of(&last.bytes), vec![(b"b".to_vec(), 3, put(b"b3"))]);
}

#[test]
fn the_earlier_input_wins_where_both_hold_a_version() {
    let inputs = vec![
        table("2.sst", &[(b"a", 1, put(b"first"))]),
        table("1.sst", &[(b"a", 1, put(b"second"))]),
    ];
    let out = compact(&inputs, "o.sst".to_string(), true).unwrap();
    assert_eq!(entries_of(&out.bytes), vec![(b"a".to_vec(), 1, put(b"first"))]);
}

#[test]
fn compacting_nothing_gives_an_empty_table() {
    let out = compact(&Vec::new(), "o.sst".to_string(), true).unwrap();
    assert_eq!(out.meta.entry_count, 0);
    assert!(out.meta.min_key.is_empty() && out.meta.max_key.is_empty());
    assert!(entries_of(&out.bytes).is_empty());
}

#[test]
fn compaction_reports_inputs_that_cannot_be_read() {
    let good = table("1.sst", &[(b"a", 1, put(b"x"))]);
    let short = TableFile { meta: again(&good).meta, bytes: vec![1, 2, 3] };
    let inputs = vec![again(&good), short];
    assert_eq!(
        compact(&inputs, "o.sst".to_string(), true).err(),
        Some(TableError::TooSmall)
    );

    let mut torn = again(&good);
    torn.bytes[1] = 255;
    assert_eq!(
        compact(&vec![torn], "o.sst".to_string(), true).err(),
        Some(TableError::UnexpectedEof)
    );

    let mut magic = again(&good);
    let last = magic.bytes.len() - 1;
    magic.bytes[last] ^= 1;
    assert_eq!(
        compact(&vec![magic], "o.sst".to_string(), true).err(),
        Some(TableError::BadMagic)
    );
}

#[test]
fn tiers_are_asked_from_the_newest_on() {
    let tiers = vec![
        table("2.sst", &[(b"a", 5, Value::Delete), (b"c", 6, put(b"c6"))]),
        table("1.sst", &[(b"a", 2, put(b"a2")), (b"b", 3, put(b"b3"))]),
    ];
    assert_eq!(lookup_in_tiers(&tiers, b"a", 9).unwrap(), Some(Value::Delete));
    assert_eq!(lookup_in_tiers(&tiers, b"a", 4).unwrap(), Some(put(b"a2")));
    assert_eq!(lookup_in_tiers(&tiers, b"b", 9).unwrap(), Some(put(b"b3")));
    assert_eq!(lookup_in_tiers(&tiers, b"c", 5).unwrap(), None);
    assert_eq!(lookup_in_tiers(&tiers, b"d", 9).unwrap(), None);
    let mut bad = table("1.sst", &[(b"a", 2, put(b"a2"))]);
    bad.bytes.truncate(10);
    assert_eq!(
        lookup_in_tiers(&vec![bad], b"a", 9).err(),
        Some(TableError::TooSmall)
    );
}

#[test]
fn compacting_the_newer_tables_keeps_older_ones_shadowed() {
    let old = table("1.sst", &[(b"a", 1, put(b"a1")), (b"b", 2, put(b"b2"))]);
    let newer = vec![
        table("3.sst", &[(b"a", 5, Value::Delete)]),
        table("2.sst", &[(b"a", 4, put(b"a4")), (b"c", 3, put(b"c3"))]),
    ];
    let tiers = vec![compact(&newer, "4.sst".to_string(), false).unwrap(), again(&old)];
    assert_eq!(lookup_in_tiers(&tiers, b"a", 9).unwrap(), Some(Value::Delete));
    assert_eq!(lookup_in_tiers(&tiers, b"b", 9).unwrap(), Some(put(b"b2")));
    assert_eq!(lookup_in_tiers(&tiers, b"c", 9).unwrap(), Some(put(b"c3")));
    // Without the tombstone the old version comes back.
    let tiers = vec![compact(&newer, "4.sst".to_string(), true).unwrap(), old];
    assert_eq!(lookup_in_tiers(&tiers, b"a", 9).unwrap(), Some(put(b"a1")));
}

#[test]
fn compaction_does_not_change_reads_of_the_newest_state() {
    let mut tables = Vec::new();
    for t in (0..4u64).rev() {
        let keys: Vec<Vec<u8>> = (0..30u64)
            .filter(|k| (k + t) % 3 != 0)
            .map(|k| format!("k{:02}", k).into_bytes())
            .collect();
        let entries: Vec<(&[u8], u64, Value)> = keys
            .iter()
            .enumerate()
            .map(|(i, k)| {
                let seq = 1 + 30 * t + i as u64;
                let value = if (i as u64 + t) % 4 == 0 {
                    Value::Delete
                } else {
                    put(format!("v{}", seq).as_bytes())
                };
                (k.as_slice(), seq, value)
            })
            .collect();
        tables.push(table("t.sst", &entries));
    }
    let one = vec![compact(&tables, "o.sst".to_string(), true).unwrap()];
    for k in 0..30u64 {
        let key = format!("k{:02}", k).into_bytes();
        let before = lookup_in_tiers(&tables, &key, u64::MAX).unwrap();
        let after = lookup_in_tiers(&one, &key, u64::MAX).unwrap();
        let live = |v: Option<Value>| v.and_then(|v| v.as_put().map(|b| b.to_vec()));
        assert_eq!(live(before), live(after));
    }
}

// ---------- storage engine ----------

/// An engine with its log.
struct Logged {
    engine: LsmEngine,
    log: Vec<u8>,
}

impl Logged {
    fn empty() -> Self {
        Logged { engine: LsmEngine::open(Vec::new(), b"").unwrap(), log: Vec::new() }
    }

    fn put(&mut self, key: &[u8], val: &[u8]) {
        assert!(self.engine.can_take(key.len(), val.len()));
        self.log.extend_from_slice(&self.engine.put_record(key, val));
        self.engine.put(key, val);
    }

    fn delete(&mut self, key: &[u8]) {
        assert!(self.engine.can_take(key.len(), 0));
        self.log.extend_from_slice(&self.engine.delete_record(key));
        self.engine.delete(key);
    }

    fn flush(&mut self, path: &str) -> Option<TableFile> {
        let t = self.engine.flush_table(path.to_string())?;
        let kept = again(&t);
        self.engine.install_flushed(t);
        self.log.clear();
        Some(kept)
    }
}

#[test]
fn reads_see_writes() {
    let mut db = Logged::empty();
    db.put(b"a", b"1");
    db.put(b"b", b"2");
    assert_eq!(db.engine.get(b"a").unwrap(), Some(b"1".to_vec()));
    assert_eq!(db.engine.get(b"missing").unwrap(), None);
    db.put(b"a", b"3");
    assert_eq!(db.engine.get(b"a").unwrap(), Some(b"3".to_vec()));
    db.delete(b"a");
    assert_eq!(db.engine.get(b"a").unwrap(), None);
    assert_eq!(db.engine.get(b"b").unwrap(), Some(b"2".to_vec()));
}

#[test]
fn a_reopened_store_weighs_its_log() {
    let mut db = Logged::empty();
    assert_eq!(db.engine.approx_bytes(), 0);
    db.put(b"a", b"123");
    db.delete(b"bc");
    assert_eq!(db.engine.approx_bytes(), 28 + 26);
    assert_eq!(LsmEngine::open(Vec::new(), &db.log).unwrap().approx_bytes(), 28 + 26);
    db.flush("1.sst");
    assert_eq!(db.engine.approx_bytes(), 0);
}

#[test]
fn a_store_is_flushed_when_its_writes_take_much() {
    let mut db = Logged::empty();
    let left = FLUSH_TRIGGER - 24 - 1;
    db.put(b"k", &vec![0; left - 1]);
    assert!(!db.engine.should_flush());
    let mut db = Logged::empty();
    db.put(b"k", &vec![0; left]);
    assert!(db.engine.should_flush());
}

#[test]
fn a_snapshot_does_not_see_later_writes() {
    let mut db = Logged::empty();
    assert_eq!(db.engine.snapshot(), 0);
    db.put(b"k", b"old");
    let snapshot = db.engine.snapshot();
    assert_eq!(snapshot, 1);
    db.put(b"k", b"new");
    db.delete(b"k");
    assert_eq!(db.engine.get_at(b"k", snapshot).unwrap(), Some(b"old".to_vec()));
    assert_eq!(db.engine.get_at(b"k", 2).unwrap(), Some(b"new".to_vec()));
    assert_eq!(db.engine.get_at(b"k", 3).unwrap(), None);
    assert_eq!(db.engine.get_at(b"k", 0).unwrap(), None);
    db.flush("1.sst");
    assert_eq!(db.engine.get_at(b"k", snapshot).unwrap(), Some(b"old".to_vec()));
}

#[test]
fn writes_survive_a_restart_through_the_log() {
    let mut db = Logged::empty();
    db.put(b"a", b"1");
    db.put(b"b", b"2");
    db.delete(b"a");
    let reopened = LsmEngine::open(Vec::new(), &db.log).unwrap();
    assert_eq!(reopened.get(b"a").unwrap(), None);
    assert_eq!(reopened.get(b"b").unwrap(), Some(b"2".to_vec()));
    assert_eq!(reopened.get_at(b"a", 1).unwrap(), Some(b"1".to_vec()));
    assert_eq!(reopened.snapshot(), db.engine.snapshot());
}

#[test]
fn a_torn_write_leaves_no_trace() {
    let mut db = Logged::empty();
    db.put(b"a", b"1");
    let whole = db.log.len();
    db.put(b"a", b"2");
    for cut in whole..db.log.len() {
        let reopened = LsmEngine::open(Vec::new(), &db.log[..cut]).unwrap();
        assert_eq!(reopened.get(b"a").unwrap(), Some(b"1".to_vec()));
        assert_eq!(reopened.snapshot(), 1);
    }
}

#[test]
fn flushing_changes_no_read() {
    let mut db = Logged::empty();
    assert!(db.engine.flush_table("0.sst".to_string()).is_none());
    db.put(b"a", b"1");
    db.put(b"b", b"2");
    let bytes = db.engine.approx_bytes();
    assert_eq!(bytes, 2 * (1 + 1 + 24));
    let first = db.flush("1.sst").unwrap();
    assert_eq!(first.meta.entry_count, 2);
    assert_eq!(db.engine.approx_bytes(), 0);
    assert_eq!(db.engine.table_count(), 1);
    db.put(b"a", b"3");
    db.delete(b"b");
    let second = db.flush("2.sst").unwrap();
    db.put(b"c", b"4");
    assert_eq!(db.engine.get(b"a").unwrap(), Some(b"3".to_vec()));
    assert_eq!(db.engine.get(b"b").unwrap(), None);
    assert_eq!(db.engine.get(b"c").unwrap(), Some(b"4".to_vec()));
    assert_eq!(
        db.engine.table_paths(),
        vec!["2.sst".to_string(), "1.sst".to_string()]
    );

    let reopened = LsmEngine::open(vec![second, first], &db.log).unwrap();
    assert_eq!(reopened.get(b"a").unwrap(), Some(b"3".to_vec()));
    assert_eq!(reopened.get(b"b").unwrap(), None);
    assert_eq!(reopened.get(b"c").unwrap(), Some(b"4".to_vec()));
    assert_eq!(reopened.snapshot(), 5);
}

#[test]
fn compacting_the_store_keeps_its_newest_state() {
    let mut db = Logged::empty();
    for round in 0..4u32 {
        db.put(b"same", format!("r{}", round).as_bytes());
        db.put(format!("k{}", round).as_bytes(), b"v");
        if round > 0 {
            db.delete(format!("k{}", round - 1).as_bytes());
        }
        assert!(!db.engine.should_compact());
        db.flush(&format!("{}.sst", round));
    }
    assert!(db.engine.should_compact());
    assert!(db.engine.can_compact());
    db.put(b"mem", b"m");
    let before = db.engine.iter_all();
    let merged = db.engine.compacted_table("4.sst".to_string()).unwrap();
    assert_eq!(
        entries_of(&merged.bytes).len(),
        2,
        "one key was rewritten, three were deleted and one is left"
    );
    db.engine.install_compacted(merged);
    assert_eq!(db.engine.table_count(), 1);
    assert!(!db.engine.should_compact());
    assert_eq!(db.engine.iter_all(), before);
    assert_eq!(db.engine.get(b"same").unwrap(), Some(b"r3".to_vec()));
    assert_eq!(db.engine.get(b"k0").unwrap(), None);
    assert_eq!(db.engine.get(b"k3").unwrap(), Some(b"v".to_vec()));
    assert_eq!(db.engine.get(b"mem").unwrap(), Some(b"m".to_vec()));
}

#[test]
fn an_interrupted_compaction_changes_no_read() {
    let mut db = Logged::empty();
    let mut tables = Vec::new();
    db.put(b"a", b"1");
    db.put(b"b", b"1");
    tables.insert(0, db.flush("1.sst").unwrap());
    db.delete(b"a");
    tables.insert(0, db.flush("2.sst").unwrap());
    let merged = db.engine.compacted_table("3.sst".to_string()).unwrap();
    for left in 0..=tables.len() {
        let mut found = vec![again(&merged)];
        for t in &tables[..left] {
            found.push(again(t));
        }
        let reopened = LsmEngine::open(found, b"").unwrap();
        assert_eq!(reopened.get(b"a").unwrap(), None);
        assert_eq!(reopened.get(b"b").unwrap(), Some(b"1".to_vec()));
    }
}

#[test]
fn iter_all_lists_live_keys_in_order() {
    let mut db = Logged::empty();
    db.put(b"b", b"1");
    db.put(b"a", b"1");
    db.put(b"gone", b"1");
    db.flush("1.sst");
    db.put(b"b", b"2");
    db.delete(b"gone");
    db.put(b"c", b"3");
    assert_eq!(
        db.engine.iter_all(),
        vec![
            (b"a".to_vec(), b"1".to_vec()),
            (b"b".to_vec(), b"2".to_vec()),
            (b"c".to_vec(), b"3".to_vec()),
        ]
    );
    assert!(Logged::empty().engine.iter_all().is_empty());
}

#[test]
fn a_log_that_was_flushed_but_not_cut_does_no_harm() {
    let mut db = Logged::empty();
    db.put(b"a", b"1");
    db.delete(b"a");
    db.put(b"b", b"2");
    let log = db.log.clone();
    let t = db.flush("1.sst").unwrap();
    let reopened = LsmEngine::open(vec![t], &log).unwrap();
    assert_eq!(reopened.get(b"a").unwrap(), None);
    assert_eq!(reopened.get(b"b").unwrap(), Some(b"2".to_vec()));
    assert_eq!(reopened.snapshot(), 3);
}

#[test]
fn opening_reports_the_first_flaw() {
    let good = table("1.sst", &[(b"a", 1, put(b"x")), (b"b", 1, put(b"y"))]);
    let open = |t: TableFile, log: &[u8]| LsmEngine::open(vec![again(&good), t], log).err();
    assert_eq!(open(again(&good), b""), None);

    let mut short = again(&good);
    short.bytes.truncate(FOOTER_SIZE - 1);
    assert_eq!(open(short, b""), Some(StoreError::Table(TableError::TooSmall)));

    let mut magic = again(&good);
    let last = magic.bytes.len() - 1;
    magic.bytes[last] ^= 1;
    assert_eq!(open(magic, b""), Some(StoreError::Table(TableError::BadMagic)));

    let mut far = again(&good);
    let footer = far.bytes.len() - FOOTER_SIZE;
    far.bytes[footer + 7] = 1;
    assert_eq!(
        open(far, b""),
        Some(StoreError::Table(TableError::OffsetsOutOfRange))
    );

    let mut index = again(&good);
    index.bytes[38] = 200;
    assert_eq!(open(index, b""), Some(StoreError::DamagedIndex));

    let mut filter = again(&good);
    filter.bytes[footer + 30] = 1;
    assert_eq!(open(filter, b""), Some(StoreError::DamagedFilter));

    let mut torn = again(&good);
    torn.bytes[1] = 255;
    assert_eq!(
        open(torn, b""),
        Some(StoreError::Table(TableError::UnexpectedEof))
    );

    let unordered = table_unchecked(&[(b"b", 1, put(b"y")), (b"a", 1, put(b"x"))]);
    assert_eq!(open(unordered, b""), Some(StoreError::Unordered));

    let mut wal = Wal::new();
    wal.append(u64::MAX, Op::Put, b"k", b"v");
    let log = wal.take_buffered();
    assert_eq!(open(again(&good), &log), Some(StoreError::SeqExhausted));
}

fn table_unchecked(entries: &[(&[u8], u64, Value)]) -> TableFile {
    let t = table("u.sst", entries);
    assert!(matches!(
        load_table("u.sst".to_string(), t.bytes.clone()),
        Err(StoreError::Unordered)
    ));
    t
}

#[test]
fn a_table_is_loaded_with_what_its_footer_says() {
    let t = table("1.sst", &[(b"a", 1, put(b"x")), (b"b", 1, put(b"y"))]);
    let loaded = again(&t);
    assert_eq!(loaded.meta.path, "1.sst");
    assert_eq!(loaded.meta.entry_count, 2);
    assert_eq!(loaded.meta.min_key, b"a".to_vec());
    assert!(loaded.meta.max_key.is_empty());
    assert_eq!(loaded.bytes, t.bytes);
}

#[test]
fn writes_that_no_prefix_can_hold_are_not_taken() {
    let db = Logged::empty();
    assert!(db.engine.can_take(0, 0));
    assert!(db.engine.can_take(8, 0xffff_ffff));
    assert!(!db.engine.can_take(8, 0x1_0000_0000));
    assert!(!db.engine.can_take(0x1_0000_0000, 0));
    assert!(!db.engine.can_take(8, usize::MAX));
}

#[test]
fn errors_tell_what_is_wrong() {
    assert_eq!(TableError::TooSmall.message(), "sstable too small");
    assert_eq!(TableError::BadMagic.message(), "bad sstable footer magic");
    assert_eq!(
        TableError::OffsetsOutOfRange.message(),
        "sstable footer offsets out of range"
    );
    assert_eq!(TableError::UnexpectedEof.message(), "failed to fill whole buffer");
    assert_eq!(
        StoreError::Table(TableError::BadMagic).message(),
        "bad sstable footer magic"
    );
    assert_eq!(StoreError::DamagedIndex.message(), "sstable index is damaged");
    assert_eq!(StoreError::DamagedFilter.message(), "sstable filter is damaged");
    assert_eq!(StoreError::Unordered.message(), "sstable records are out of order");
    assert_eq!(StoreError::SeqExhausted.message(), "no sequence number is left");
}
