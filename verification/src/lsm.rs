//! The storage engine: it ties the log, the memtable and the tables into a
//! store of versions that survives restarts.
//!
//! Nothing here touches a disk. A write goes in two steps: the engine gives the
//! bytes for the log, the caller makes them durable, and then the engine takes
//! the write in, so that a write that the disk refused leaves no trace. A flush
//! and a compaction go the same way: the engine gives the new table's file, the
//! caller makes it durable under its final name, and then the engine puts it in
//! the place of what it stands for. Only behind that the caller cuts the log or
//! removes the tables that were merged, the oldest first.

use vstd::prelude::*;
use crate::bloom::BITS_PER_KEY;
use crate::codec::{copy_range, lemma_le_value_bound, lemma_limits, u32_at, LEN_LIMIT};
use crate::compaction::{
    compact, compacted, expected_entries, file_records, input_lists, is_first_open_error,
    is_record_error, is_tiers_lookup, lookup_in_tiers, should_compact, sum_entry_counts_checked,
    survivors, tier_usable, TableFile, COMPACTION_TRIGGER,
};
use crate::compaction_laws::{
    all_versions, ascending, collected, first_of_key, holds_first, lemma_first_of_key,
    lemma_held_entry, lemma_survivors, live,
};
use crate::memtable::{entries_of, lemma_inserted, place_version, MemTable, ENTRY_OVERHEAD};
use crate::order::{bytes_equal, lemma_lex_total, lex_less, Order};
use crate::sstable::{
    entry_fits, filter_sound, footer_error, lemma_sound_filter_answers, table_bytes, table_of,
    SSTable, SSTableIter, SSTableWriter, TableError,
};
use crate::store::{
    flawless, is_first_flaw, is_next_seq, is_snapshot, law_compaction_preserves_newest_reads,
    law_flush_preserves_versions, law_written_table_is_flawless, lemma_all_versions_front,
    lemma_compacted_fit, lemma_compacted_newer, lemma_compacted_one, lemma_entry_in_all,
    lemma_faithful_lookup, lemma_lists_in_order, lemma_lookup_over, lemma_survivor_was_there,
    log_value, logged, newer, pairs_view, store_versions, table_flaw, tables_faithful, uses_seq,
    versions_fit, StoreError, FIRST_SEQ,
};
use crate::table_laws::table_fits;
use crate::versions::{
    is_newest, is_version, lemma_before_total, lemma_before_trans, lemma_lookup_in_order,
    lemma_lookup_is, lemma_versions_of, lookup, versions_of, visible, Versions,
};
use crate::wal::{
    log_entries, log_entry_fits, record_at, record_bytes, replay_intact, replayed, LogEntry, Op,
    Wal, WalRecord,
};
use crate::{entry_before, entry_of, in_order, version_before, Entry, InternalKey, SeqNo, Value};

verus! {

/// How much memory unflushed writes may be taken to need before they should be
/// flushed.
pub const FLUSH_TRIGGER: usize = 0x40_0000;

// ---------- sequence numbers in use ----------

/// Whether `g` is the greatest of `seqs`.
spec fn is_greatest(seqs: Set<u64>, g: Option<u64>) -> bool {
    match g {
        None => forall|s: u64| !#[trigger] seqs.contains(s),
        Some(x) => seqs.contains(x) && forall|s: u64| #[trigger] seqs.contains(s) ==> s <= x,
    }
}

/// The sequence numbers of entries.
spec fn entry_seqs(entries: Seq<Entry>) -> Set<u64> {
    Set::new(|s: u64| exists|i: int| 0 <= i < entries.len() && (#[trigger] entries[i]).seq == s)
}

/// The sequence numbers of lists of entries.
spec fn list_seqs(lists: Seq<Seq<Entry>>) -> Set<u64>
    decreases lists.len(),
{
    if lists.len() == 0 {
        Set::empty()
    } else {
        list_seqs(lists.drop_last()).union(entry_seqs(lists.last()))
    }
}

/// The sequence numbers of log records.
spec fn log_seqs(records: Seq<LogEntry>) -> Set<u64>
    decreases records.len(),
{
    if records.len() == 0 {
        Set::empty()
    } else {
        log_seqs(records.drop_last()).insert(records.last().seq)
    }
}

/// The greater of two sequence numbers.
spec fn greater_of(a: Option<u64>, b: Option<u64>) -> Option<u64> {
    match (a, b) {
        (Some(x), Some(y)) => if x < y {
            Some(y)
        } else {
            Some(x)
        },
        (Some(x), None) => Some(x),
        (None, y) => y,
    }
}

fn greater(a: Option<u64>, b: Option<u64>) -> (r: Option<u64>)
    ensures
        r == greater_of(a, b),
{
    match (a, b) {
        (Some(x), Some(y)) => if x < y {
            Some(y)
        } else {
            Some(x)
        },
        (Some(x), None) => Some(x),
        (None, y) => y,
    }
}

proof fn lemma_greater(x: Set<u64>, y: Set<u64>, a: Option<u64>, b: Option<u64>)
    requires
        is_greatest(x, a),
        is_greatest(y, b),
    ensures
        is_greatest(x.union(y), greater_of(a, b)),
{
}

proof fn lemma_list_seqs(lists: Seq<Seq<Entry>>, s: u64)
    ensures
        list_seqs(lists).contains(s) <==> exists|i: int, q: int|
            0 <= i < lists.len() && 0 <= q < lists[i].len() && (#[trigger] lists[i][q]).seq == s,
    decreases lists.len(),
{
    if lists.len() > 0 {
        let before = lists.drop_last();
        let n = lists.len() - 1;
        lemma_list_seqs(before, s);
        if list_seqs(before).contains(s) {
            let (i, q) = choose|i: int, q: int|
                0 <= i < before.len() && 0 <= q < before[i].len() && (#[trigger] before[i][q]).seq
                    == s;
            assert(lists[i][q].seq == s);
        }
        if entry_seqs(lists.last()).contains(s) {
            let q = choose|q: int|
                0 <= q < lists.last().len() && (#[trigger] lists.last()[q]).seq == s;
            assert(lists[n][q].seq == s);
        }
        if exists|i: int, q: int|
            0 <= i < lists.len() && 0 <= q < lists[i].len() && (#[trigger] lists[i][q]).seq == s {
            let (i, q) = choose|i: int, q: int|
                0 <= i < lists.len() && 0 <= q < lists[i].len() && (#[trigger] lists[i][q]).seq
                    == s;
            if i < n {
                assert(before[i][q].seq == s);
            } else {
                assert(lists.last()[q].seq == s);
            }
        }
    }
}

proof fn lemma_log_seqs(records: Seq<LogEntry>, s: u64)
    ensures
        log_seqs(records).contains(s) <==> uses_seq(logged(records), s),
    decreases records.len(),
{
    if records.len() > 0 {
        let e = records.last();
        let before = logged(records.drop_last());
        let now = logged(records);
        lemma_log_seqs(records.drop_last(), s);
        if uses_seq(before, s) {
            let key = choose|key: Seq<u8>| #[trigger] before.contains_key((key, s));
            assert(now.contains_key((key, s)));
        }
        if s == e.seq {
            assert(now.contains_key((e.key, s)));
        }
        if uses_seq(now, s) && s != e.seq {
            let key = choose|key: Seq<u8>| #[trigger] now.contains_key((key, s));
            assert(before.contains_key((key, s)));
        }
    }
}

/// The sequence numbers of a store are those of its tables and of its log.
proof fn lemma_store_seqs(records: Seq<LogEntry>, tables: Seq<TableFile>, s: u64)
    ensures
        uses_seq(store_versions(logged(records), tables), s) <==> list_seqs(
            input_lists(tables),
        ).union(log_seqs(records)).contains(s),
{
    let mem = logged(records);
    let lists = input_lists(tables);
    let all = all_versions(lists);
    let m = store_versions(mem, tables);
    lemma_list_seqs(lists, s);
    lemma_log_seqs(records, s);
    if uses_seq(m, s) {
        let key = choose|key: Seq<u8>| #[trigger] m.contains_key((key, s));
        if mem.contains_key((key, s)) {
            assert(uses_seq(mem, s));
        } else {
            assert(all.contains_key((key, s)));
            let i = choose|i: int| holds_first(lists, (key, s), i);
            assert(holds_first(lists, (key, s), i));
            let q = lemma_held_entry(lists, (key, s), i);
            assert(lists[i][q].seq == s);
        }
    }
    if list_seqs(lists).contains(s) {
        let (i, q) = choose|i: int, q: int|
            0 <= i < lists.len() && 0 <= q < lists[i].len() && (#[trigger] lists[i][q]).seq == s;
        lemma_entry_in_all(lists, i, q);
        assert(m.contains_key((lists[i][q].key, s)));
    }
    if uses_seq(mem, s) {
        let key = choose|key: Seq<u8>| #[trigger] mem.contains_key((key, s));
        assert(m.contains_key((key, s)));
    }
}

// ---------- checking a table ----------

proof fn lemma_in_order_push(done: Seq<Entry>, e: Entry)
    ensures
        in_order(done.push(e)) <==> in_order(done) && (done.len() > 0 ==> entry_before(
            done.last(),
            e,
        )),
{
    let now = done.push(e);
    if in_order(now) {
        assert forall|i: int, j: int| 0 <= i < j < done.len() implies entry_before(
            #[trigger] done[i],
            #[trigger] done[j],
        ) by {
            assert(entry_before(now[i], now[j]));
        }
        if done.len() > 0 {
            assert(entry_before(now[done.len() - 1], now[done.len() as int]));
        }
    }
    if in_order(done) && (done.len() > 0 ==> entry_before(done.last(), e)) {
        assert forall|i: int, j: int| 0 <= i < j < now.len() implies entry_before(
            #[trigger] now[i],
            #[trigger] now[j],
        ) by {
            if j < done.len() {
                assert(entry_before(done[i], done[j]));
            } else if i < done.len() - 1 {
                assert(entry_before(done[i], done[done.len() - 1]));
                lemma_before_trans(done[i], done.last(), e);
            }
        }
    }
}

proof fn lemma_entry_seqs_push(done: Seq<Entry>, e: Entry)
    ensures
        entry_seqs(done.push(e)) == entry_seqs(done).insert(e.seq),
{
    let now = done.push(e);
    assert forall|s: u64| entry_seqs(now).contains(s) == entry_seqs(done).insert(e.seq).contains(
        s,
    ) by {
        if entry_seqs(now).contains(s) {
            let i = choose|i: int| 0 <= i < now.len() && (#[trigger] now[i]).seq == s;
            if i < done.len() {
                assert(done[i].seq == s);
            }
        }
        if entry_seqs(done).contains(s) {
            let i = choose|i: int| 0 <= i < done.len() && (#[trigger] done[i]).seq == s;
            assert(now[i].seq == s);
        }
        if s == e.seq {
            assert(now[done.len() as int].seq == s);
        }
    }
    assert(entry_seqs(now) =~= entry_seqs(done).insert(e.seq));
}

/// Reads a table's records from front to back; gives the greatest sequence
/// number, or what is wrong with the records.
fn check_records(file: &[u8]) -> (r: Result<Option<u64>, StoreError>)
    requires
        footer_error(file@) is None,
    ensures
        match r {
            Ok(g) => file_records(file@).1 is None && in_order(file_records(file@).0)
                && is_greatest(entry_seqs(file_records(file@).0), g),
            Err(e) => if file_records(file@).1 is Some {
                e == StoreError::Table(file_records(file@).1->0)
            } else {
                e == StoreError::Unordered && !in_order(file_records(file@).0)
            },
        },
{
    let mut it: SSTableIter = match SSTableIter::open(file) {
        Ok(it) => it,
        Err(e) => {
            return Err(StoreError::Table(e));
        },
    };
    let ghost all = file_records(file@);
    let ghost mut done: Seq<Entry> = Seq::empty();
    let mut last: Option<InternalKey> = None;
    let mut ordered: bool = true;
    let mut greatest: Option<u64> = None;
    assert(done + it.rest().0 =~= all.0);
    loop
        invariant
            all == file_records(file@),
            done + it.rest().0 == all.0,
            it.rest().1 == all.1,
            ordered == in_order(done),
            is_greatest(entry_seqs(done), greatest),
            match last {
                Some(ik) => done.len() > 0 && done.last().key == ik.user_key@ && done.last().seq
                    == ik.seq,
                None => done.len() == 0,
            },
        decreases it.rest().0.len(),
    {
        match it.next() {
            None => {
                assert(done =~= all.0);
                if ordered {
                    return Ok(greatest);
                } else {
                    return Err(StoreError::Unordered);
                }
            },
            Some(Err(e)) => {
                return Err(StoreError::Table(e));
            },
            Some(Ok((ik, v))) => {
                let ghost e = entry_of(ik, v);
                let ghost now = done.push(e);
                proof {
                    lemma_in_order_push(done, e);
                    lemma_entry_seqs_push(done, e);
                    assert(now + it.rest().0 =~= all.0);
                }
                let follows: bool = match &last {
                    Some(before) => match before.order(&ik) {
                        Order::Less => true,
                        _ => false,
                    },
                    None => true,
                };
                ordered = ordered && follows;
                greatest = match greatest {
                    Some(x) => if x < ik.seq {
                        Some(ik.seq)
                    } else {
                        Some(x)
                    },
                    None => Some(ik.seq),
                };
                last = Some(ik);
                proof {
                    done = now;
                }
            },
        }
    }
}

/// Checks that nothing is wrong with a table's file; gives the greatest
/// sequence number in it.
fn check_table(file: &[u8]) -> (r: Result<Option<u64>, StoreError>)
    ensures
        match r {
            Ok(g) => table_flaw(file@) is None && is_greatest(
                entry_seqs(file_records(file@).0),
                g,
            ),
            Err(e) => table_flaw(file@) == Some(e),
        },
{
    reveal(table_flaw);
    if !SSTable::can_open(file) {
        return Err(StoreError::DamagedIndex);
    }
    let table: SSTable = match SSTable::open(String::new(), file) {
        Ok(t) => t,
        Err(e) => {
            return Err(StoreError::Table(e));
        },
    };
    if !table.has_sound_filter() {
        return Err(StoreError::DamagedFilter);
    }
    check_records(file)
}

/// Checks all tables; gives the greatest sequence number in them.
fn check_tables(tables: &Vec<TableFile>) -> (r: Result<Option<u64>, StoreError>)
    ensures
        match r {
            Ok(g) => flawless(tables@) && is_greatest(list_seqs(input_lists(tables@)), g),
            Err(e) => exists|i: int| #[trigger] is_first_flaw(tables@, i, e),
        },
{
    let ghost lists = input_lists(tables@);
    let mut greatest: Option<u64> = None;
    let mut i: usize = 0;
    assert(lists.take(0) =~= Seq::<Seq<Entry>>::empty());
    while i < tables.len()
        invariant
            i <= tables@.len(),
            lists == input_lists(tables@),
            forall|j: int| 0 <= j < i ==> table_flaw((#[trigger] tables@[j]).bytes@) is None,
            is_greatest(list_seqs(lists.take(i as int)), greatest),
        decreases tables@.len() - i,
    {
        match check_table(tables[i].bytes.as_slice()) {
            Ok(g) => {
                proof {
                    let next = lists.take(i + 1);
                    assert(next.drop_last() =~= lists.take(i as int));
                    assert(next.last() == lists[i as int]);
                    assert(lists[i as int] == file_records(tables@[i as int].bytes@).0);
                    lemma_greater(
                        list_seqs(lists.take(i as int)),
                        entry_seqs(lists[i as int]),
                        greatest,
                        g,
                    );
                }
                greatest = greater(greatest, g);
            },
            Err(e) => {
                assert(is_first_flaw(tables@, i as int, e));
                return Err(e);
            },
        }
        i = i + 1;
    }
    assert(lists.take(i as int) =~= lists);
    Ok(greatest)
}

/// The table in a file that was found after a restart, if nothing is wrong with
/// it.
pub fn load_table(path: String, bytes: Vec<u8>) -> (r: Result<TableFile, StoreError>)
    ensures
        match r {
            Ok(t) => {
                let model = table_of(path@, bytes@);
                &&& table_flaw(bytes@) is None
                &&& t.bytes@ == bytes@
                &&& t.meta.path@ == path@
                &&& t.meta.entry_count == model.entry_count
                &&& t.meta.min_key@ == (if model.index.len() > 0 {
                    model.index[0].0
                } else {
                    Seq::empty()
                })
                &&& t.meta.max_key@ == Seq::<u8>::empty()
            },
            Err(e) => table_flaw(bytes@) == Some(e),
        },
{
    match check_table(bytes.as_slice()) {
        Ok(_) => {},
        Err(e) => {
            return Err(e);
        },
    }
    reveal(table_flaw);
    match SSTable::open(path, bytes.as_slice()) {
        Ok(t) => Ok(TableFile { meta: t.into_meta(), bytes }),
        Err(e) => Err(StoreError::Table(e)),
    }
}

// ---------- replaying a log ----------

/// The memory that a log's record is taken to need in a memtable.
pub open spec fn entry_weight(e: LogEntry) -> nat {
    match log_value(e) {
        Some(val) => e.key.len() + val.len() + ENTRY_OVERHEAD as nat,
        None => e.key.len() + ENTRY_OVERHEAD as nat,
    }
}

/// The memory that the records of a log are taken to need in a memtable.
pub open spec fn log_weight(records: Seq<LogEntry>) -> nat
    decreases records.len(),
{
    if records.len() == 0 {
        0
    } else {
        log_weight(records.drop_last()) + entry_weight(records.last())
    }
}

proof fn lemma_weight_front(e: LogEntry, rest: Seq<LogEntry>)
    ensures
        log_weight(seq![e] + rest) == entry_weight(e) + log_weight(rest),
    decreases rest.len(),
{
    let all = seq![e] + rest;
    if rest.len() > 0 {
        lemma_weight_front(e, rest.drop_last());
        assert(all.drop_last() =~= seq![e] + rest.drop_last());
        assert(all.last() == rest.last());
    } else {
        assert(all.drop_last() =~= Seq::<LogEntry>::empty());
        assert(all.last() == e);
        assert(log_weight(Seq::<LogEntry>::empty()) == 0);
    }
}

proof fn lemma_weight_take(records: Seq<LogEntry>, n: int)
    requires
        0 <= n <= records.len(),
    ensures
        log_weight(records.take(n)) <= log_weight(records),
    decreases records.len() - n,
{
    if n < records.len() {
        lemma_weight_take(records, n + 1);
        assert(records.take(n + 1).drop_last() =~= records.take(n));
    } else {
        assert(records.take(n) =~= records);
    }
}

/// What a log's records need in a memtable is less than the log, and their
/// lengths fit their prefixes.
proof fn lemma_replay_weight(s: Seq<u8>, pos: int)
    requires
        0 <= pos <= s.len(),
    ensures
        pos + log_weight(replayed(s, pos)) <= s.len(),
        forall|i: int|
            0 <= i < replayed(s, pos).len() ==> log_entry_fits(#[trigger] replayed(s, pos)[i]),
    decreases s.len() - pos,
{
    if let Some((e, next)) = record_at(s, pos) {
        lemma_replay_weight(s, next);
        let rest = replayed(s, next);
        lemma_weight_front(e, rest);
        lemma_limits();
        let key_len = u32_at(s, pos + 17);
        lemma_le_value_bound(s.subrange(pos + 17, pos + 21));
        lemma_le_value_bound(s.subrange(pos + 21 + key_len, pos + 25 + key_len));
        assert(log_entry_fits(e));
        let all = replayed(s, pos);
        assert(all == seq![e] + rest);
        assert forall|i: int| 0 <= i < all.len() implies log_entry_fits(#[trigger] all[i]) by {
            if i > 0 {
                assert(all[i] == rest[i - 1]);
            }
        }
    }
}

/// Takes the records of a log into a memtable.
fn memtable_of(records: &Vec<WalRecord>) -> (r: (MemTable, Option<u64>))
    requires
        log_weight(log_entries(records@)) <= usize::MAX,
        forall|i: int|
            0 <= i < records@.len() ==> log_entry_fits(#[trigger] log_entries(records@)[i]),
    ensures
        r.0.well_formed(),
        r.0@ == logged(log_entries(records@)),
        r.0.bytes() == log_weight(log_entries(records@)),
        versions_fit(r.0@),
        is_greatest(log_seqs(log_entries(records@)), r.1),
{
    let ghost all = log_entries(records@);
    let mut mem: MemTable = MemTable::new();
    let mut greatest: Option<u64> = None;
    let mut i: usize = 0;
    assert(all.take(0) =~= Seq::<LogEntry>::empty());
    while i < records.len()
        invariant
            i <= records@.len(),
            all == log_entries(records@),
            log_weight(all) <= usize::MAX,
            forall|j: int| 0 <= j < all.len() ==> log_entry_fits(#[trigger] all[j]),
            mem.well_formed(),
            mem@ == logged(all.take(i as int)),
            mem.bytes() == log_weight(all.take(i as int)),
            versions_fit(mem@),
            is_greatest(log_seqs(all.take(i as int)), greatest),
        decreases records@.len() - i,
    {
        let rec: &WalRecord = &records[i];
        proof {
            let next = all.take(i + 1);
            assert(next.drop_last() =~= all.take(i as int));
            assert(next.last() == all[i as int]);
            lemma_weight_take(all, i + 1);
            assert(log_entry_fits(all[i as int]));
        }
        let ghost before = mem@;
        match rec.op {
            Op::Put => {
                mem.put(rec.key.as_slice(), rec.val.as_slice(), rec.seq);
            },
            Op::Delete => {
                mem.delete(rec.key.as_slice(), rec.seq);
            },
        }
        greatest = match greatest {
            Some(x) => if x < rec.seq {
                Some(rec.seq)
            } else {
                Some(x)
            },
            None => Some(rec.seq),
        };
        proof {
            assert(mem@ == before.insert((rec.key@, rec.seq), log_value(rec@)));
            lemma_insert_fits(before, rec.key@, rec.seq, log_value(rec@));
        }
        i = i + 1;
    }
    assert(all.take(i as int) =~= all);
    (mem, greatest)
}

proof fn lemma_insert_fits(m: Versions, key: Seq<u8>, seq: u64, val: Option<Seq<u8>>)
    requires
        versions_fit(m),
        entry_fits(Entry { key, seq, val }),
    ensures
        versions_fit(m.insert((key, seq), val)),
{
}

// ---------- the engine ----------

pub struct LsmEngine {
    memtable: MemTable,
    tables: Vec<TableFile>,
    next_seq: SeqNo,
}

impl View for LsmEngine {
    type V = Versions;

    open spec fn view(&self) -> Versions {
        store_versions(self.mem(), self.tables())
    }
}

/// What a read returns, with the bytes as a sequence.
pub open spec fn read_view(r: Result<Option<Vec<u8>>, TableError>) -> Result<
    Option<Seq<u8>>,
    TableError,
> {
    match r {
        Ok(Some(v)) => Ok(Some(v@)),
        Ok(None) => Ok(None),
        Err(e) => Err(e),
    }
}

/// Whether `r` is what a read of `key` at `as_of` returns: what the memtable
/// says, or else what the tables do; a tombstone is nothing.
pub open spec fn is_read(
    mem: Versions,
    tables: Seq<TableFile>,
    key: Seq<u8>,
    as_of: u64,
    r: Result<Option<Seq<u8>>, TableError>,
) -> bool {
    if lookup(mem, key, as_of) is Some {
        r == Ok::<Option<Seq<u8>>, TableError>(live(lookup(mem, key, as_of)))
    } else {
        match r {
            Ok(Some(v)) => is_tiers_lookup(tables, key, as_of, Ok(Some(Some(v)))),
            Ok(None) => is_tiers_lookup(tables, key, as_of, Ok(None)) || is_tiers_lookup(
                tables,
                key,
                as_of,
                Ok(Some(None)),
            ),
            Err(e) => is_tiers_lookup(tables, key, as_of, Err(e)),
        }
    }
}

/// In a store as flushes and compactions leave it a read never fails: it
/// returns the live value of the newest version that is no newer than the
/// snapshot, wherever that version is.
pub proof fn law_faithful_reads_are_right(
    mem: Versions,
    tables: Seq<TableFile>,
    key: Seq<u8>,
    as_of: u64,
)
    requires
        tables_faithful(tables),
        newer(mem, all_versions(input_lists(tables))),
    ensures
        forall|r: Result<Option<Seq<u8>>, TableError>| #[trigger]
            is_read(mem, tables, key, as_of, r) ==> r == Ok::<Option<Seq<u8>>, TableError>(
                live(lookup(store_versions(mem, tables), key, as_of)),
            ),
{
    lemma_lookup_over(mem, all_versions(input_lists(tables)), key, as_of);
    assert forall|r: Result<Option<Seq<u8>>, TableError>| #[trigger]
        is_read(mem, tables, key, as_of, r) implies r == Ok::<Option<Seq<u8>>, TableError>(
        live(lookup(store_versions(mem, tables), key, as_of)),
    ) by {
        if lookup(mem, key, as_of) is None {
            match r {
                Ok(Some(v)) => {
                    lemma_faithful_lookup(tables, key, as_of, Ok(Some(Some(v))));
                },
                Ok(None) => {
                    if is_tiers_lookup(tables, key, as_of, Ok(None)) {
                        lemma_faithful_lookup(tables, key, as_of, Ok(None));
                    } else {
                        lemma_faithful_lookup(tables, key, as_of, Ok(Some(None)));
                    }
                },
                Err(e) => {
                    lemma_faithful_lookup(tables, key, as_of, Err(e));
                },
            }
        }
    }
}

/// A restart loses nothing: an engine that is opened over the same tables and
/// the log that holds the unflushed writes has the same versions, and so gives
/// the same answer to every read.
pub proof fn law_restart_loses_nothing(before: LsmEngine, after: LsmEngine, log: Seq<u8>)
    requires
        before.mem() == logged(replayed(log, 0)),
        after.mem() == logged(replayed(log, 0)),
        after.tables() == before.tables(),
    ensures
        after@ == before@,
        before.faithful() ==> after.faithful(),
{
}

impl LsmEngine {
    /// The versions that were not flushed yet.
    pub closed spec fn mem(&self) -> Versions {
        self.memtable@
    }

    /// The same in the order in which a table holds them.
    pub closed spec fn mem_entries(&self) -> Seq<Entry> {
        self.memtable.sorted_entries()
    }

    /// The estimate of the memory that they need.
    pub closed spec fn mem_bytes(&self) -> nat {
        self.memtable.bytes() as nat
    }

    /// The tables, from the newest to the oldest.
    pub closed spec fn tables(&self) -> Seq<TableFile> {
        self.tables@
    }

    /// The sequence number of the next write.
    pub closed spec fn next_seq(&self) -> u64 {
        self.next_seq
    }

    /// Whether nothing is wrong with the tables, and every version is older
    /// than the next write and can be written to a table.
    pub closed spec fn well_formed(&self) -> bool {
        &&& self.memtable.well_formed()
        &&& flawless(self.tables@)
        &&& versions_fit(self.memtable@)
        &&& self.next_seq >= FIRST_SEQ
        &&& forall|s: u64| #[trigger] uses_seq(self@, s) ==> s < self.next_seq
    }

    /// Whether the tables are as flushes and compactions leave them, and the
    /// memtable is at least as new as they are.
    pub open spec fn faithful(&self) -> bool {
        tables_faithful(self.tables()) && newer(
            self.mem(),
            all_versions(input_lists(self.tables())),
        )
    }

    /// Whether nothing was written yet.
    pub open spec fn is_fresh(&self) -> bool {
        &&& self@ == Map::<(Seq<u8>, u64), Option<Seq<u8>>>::empty()
        &&& self.mem_bytes() == 0
        &&& self.next_seq() == FIRST_SEQ
        &&& self.faithful()
    }

    /// Whether a write of these lengths can be taken in.
    pub open spec fn takes(&self, key_len: nat, val_len: nat) -> bool {
        &&& self.next_seq() < u64::MAX
        &&& self.mem_bytes() + key_len + val_len + ENTRY_OVERHEAD <= usize::MAX
        &&& key_len < LEN_LIMIT
        &&& val_len < LEN_LIMIT
    }

    /// Every version is older than the next write.
    pub proof fn lemma_seqs_below(&self)
        requires
            self.well_formed(),
        ensures
            forall|s: u64| #[trigger] uses_seq(self@, s) ==> s < self.next_seq(),
    {
    }

    /// Opens a store of `tables`, from the newest to the oldest, and of the
    /// writes in `log`. Whatever a crash tore at the end of the log is left out.
    pub fn open(tables: Vec<TableFile>, log: &[u8]) -> (r: Result<Self, StoreError>)
        ensures
            match r {
                Ok(e) => {
                    &&& e.well_formed()
                    &&& e.tables() == tables@
                    &&& flawless(tables@)
                    &&& e.mem() == logged(replayed(log@, 0))
                    &&& e.mem_bytes() == log_weight(replayed(log@, 0))
                    &&& is_next_seq(e@, e.next_seq())
                },
                Err(StoreError::SeqExhausted) => flawless(tables@) && uses_seq(
                    store_versions(logged(replayed(log@, 0)), tables@),
                    u64::MAX,
                ),
                Err(x) => exists|i: int| #[trigger] is_first_flaw(tables@, i, x),
            },
            tables@.len() == 0 && log@.len() == 0 ==> (r matches Ok(e) && e.is_fresh()),
    {
        let in_tables: Option<u64> = match check_tables(&tables) {
            Ok(g) => g,
            Err(x) => {
                reveal(table_flaw);
                return Err(x);
            },
        };
        let (records, _) = replay_intact(log);
        proof {
            assert(log.len() == log@.len());
            lemma_replay_weight(log@, 0);
        }
        let (memtable, in_log) = memtable_of(&records);
        let greatest: Option<u64> = greater(in_tables, in_log);
        let ghost entries = replayed(log@, 0);
        let ghost m = store_versions(logged(entries), tables@);
        let ghost seqs = list_seqs(input_lists(tables@)).union(log_seqs(entries));
        proof {
            lemma_greater(
                list_seqs(input_lists(tables@)),
                log_seqs(entries),
                in_tables,
                in_log,
            );
            assert forall|s: u64| #[trigger] uses_seq(m, s) == seqs.contains(s) by {
                lemma_store_seqs(entries, tables@, s);
            }
            if tables@.len() == 0 && log@.len() == 0 {
                assert(input_lists(tables@) =~= Seq::<Seq<Entry>>::empty());
                assert(m =~= Map::<(Seq<u8>, u64), Option<Seq<u8>>>::empty());
            }
        }
        let next_seq: u64 = match greatest {
            Some(x) => {
                if x == u64::MAX {
                    assert(uses_seq(m, x));
                    return Err(StoreError::SeqExhausted);
                }
                assert(uses_seq(m, x));
                x + 1
            },
            None => FIRST_SEQ,
        };
        Ok(LsmEngine { memtable, tables, next_seq })
    }

    /// Whether a write of these lengths can be taken in. Only one that a length
    /// prefix or the memory's size has no room for cannot.
    pub fn can_take(&self, key_len: usize, val_len: usize) -> (r: bool)
        ensures
            r == self.takes(key_len as nat, val_len as nat),
    {
        let room: usize = usize::MAX - self.memtable.approx_bytes();
        self.next_seq < u64::MAX && (key_len as u64) < LEN_LIMIT && (val_len as u64) < LEN_LIMIT
            && ENTRY_OVERHEAD <= room && key_len <= room - ENTRY_OVERHEAD && val_len <= room
            - ENTRY_OVERHEAD - key_len
    }

    /// The newest snapshot: a read at it sees every write so far, and none that
    /// comes later.
    pub fn snapshot(&self) -> (r: SeqNo)
        requires
            self.well_formed(),
        ensures
            r == self.next_seq() - 1,
    {
        self.next_seq - 1
    }

    /// The log record of the write that `put` takes in.
    pub fn put_record(&self, key: &[u8], val: &[u8]) -> (r: Vec<u8>)
        ensures
            r@ == record_bytes(
                LogEntry { seq: self.next_seq(), op: Op::Put, key: key@, val: val@ },
            ),
    {
        let mut wal: Wal = Wal::new();
        wal.append(self.next_seq, Op::Put, key, val);
        let r: Vec<u8> = wal.take_buffered();
        assert(r@ =~= record_bytes(
            LogEntry { seq: self.next_seq(), op: Op::Put, key: key@, val: val@ },
        ));
        r
    }

    /// The log record of the delete that `delete` takes in.
    pub fn delete_record(&self, key: &[u8]) -> (r: Vec<u8>)
        ensures
            r@ == record_bytes(
                LogEntry {
                    seq: self.next_seq(),
                    op: Op::Delete,
                    key: key@,
                    val: Seq::<u8>::empty(),
                },
            ),
    {
        let mut wal: Wal = Wal::new();
        let nothing: Vec<u8> = Vec::new();
        wal.append(self.next_seq, Op::Delete, key, nothing.as_slice());
        let r: Vec<u8> = wal.take_buffered();
        assert(nothing@ =~= Seq::<u8>::empty());
        assert(r@ =~= record_bytes(
            LogEntry {
                seq: self.next_seq(),
                op: Op::Delete,
                key: key@,
                val: Seq::<u8>::empty(),
            },
        ));
        r
    }

    /// Writes `val` under `key`. The write's log record has to be durable.
    pub fn put(&mut self, key: &[u8], val: &[u8])
        requires
            old(self).well_formed(),
            old(self).takes(key@.len(), val@.len()),
        ensures
            final(self).well_formed(),
            final(self).mem() == old(self).mem().insert(
                (key@, old(self).next_seq()),
                Some(val@),
            ),
            final(self).tables() == old(self).tables(),
            final(self).next_seq() == old(self).next_seq() + 1,
            final(self).mem_bytes() == old(self).mem_bytes() + key@.len() + val@.len()
                + ENTRY_OVERHEAD,
            final(self)@ == old(self)@.insert((key@, old(self).next_seq()), Some(val@)),
            old(self).faithful() ==> final(self).faithful(),
    {
        self.memtable.put(key, val, self.next_seq);
        proof {
            assert(store_versions(old(self).mem(), self.tables@) == old(self)@);
            lemma_version_added(
                old(self).mem(),
                self.tables@,
                key@,
                self.next_seq,
                Some(val@),
            );
        }
        self.next_seq = self.next_seq + 1;
    }

    /// Deletes `key`. The delete's log record has to be durable.
    pub fn delete(&mut self, key: &[u8])
        requires
            old(self).well_formed(),
            old(self).takes(key@.len(), 0),
        ensures
            final(self).well_formed(),
            final(self).mem() == old(self).mem().insert((key@, old(self).next_seq()), None),
            final(self).tables() == old(self).tables(),
            final(self).next_seq() == old(self).next_seq() + 1,
            final(self).mem_bytes() == old(self).mem_bytes() + key@.len() + ENTRY_OVERHEAD,
            final(self)@ == old(self)@.insert((key@, old(self).next_seq()), None),
            old(self).faithful() ==> final(self).faithful(),
    {
        self.memtable.delete(key, self.next_seq);
        proof {
            assert(store_versions(old(self).mem(), self.tables@) == old(self)@);
            lemma_version_added(old(self).mem(), self.tables@, key@, self.next_seq, None);
        }
        self.next_seq = self.next_seq + 1;
    }

    /// Snapshot read: the live value of `key` as of `as_of`.
    pub fn get_at(&self, key: &[u8], as_of: SeqNo) -> (r: Result<Option<Vec<u8>>, TableError>)
        requires
            self.well_formed(),
        ensures
            is_read(self.mem(), self.tables(), key@, as_of, read_view(r)),
            self.faithful() ==> read_view(r) == Ok::<Option<Seq<u8>>, TableError>(
                live(lookup(self@, key@, as_of)),
            ),
    {
        proof {
            if self.faithful() {
                law_faithful_reads_are_right(self.mem(), self.tables(), key@, as_of);
            }
        }
        let r: Result<Option<Vec<u8>>, TableError> = match self.memtable.get(key, as_of) {
            Some(v) => Ok(live_bytes(v)),
            None => {
                proof {
                    assert forall|i: int| 0 <= i < self.tables@.len() implies tier_usable(
                        #[trigger] self.tables@[i],
                        key@,
                    ) by {
                        lemma_flawless_usable(self.tables@[i], key@);
                    }
                }
                match lookup_in_tiers(&self.tables, key, as_of) {
                    Ok(Some(v)) => Ok(live_bytes(&v)),
                    Ok(None) => Ok(None),
                    Err(e) => Err(e),
                }
            },
        };
        assert(is_read(self.mem(), self.tables(), key@, as_of, read_view(r)));
        r
    }

    /// The live value of `key`.
    pub fn get(&self, key: &[u8]) -> (r: Result<Option<Vec<u8>>, TableError>)
        requires
            self.well_formed(),
        ensures
            is_read(
                self.mem(),
                self.tables(),
                key@,
                (self.next_seq() - 1) as u64,
                read_view(r),
            ),
            self.faithful() ==> read_view(r) == Ok::<Option<Seq<u8>>, TableError>(
                live(lookup(self@, key@, u64::MAX)),
            ),
    {
        proof {
            lemma_newest_snapshot(self@, key@, (self.next_seq() - 1) as u64);
        }
        self.get_at(key, self.snapshot())
    }

    /// An estimate of the memory that unflushed writes take.
    pub fn approx_bytes(&self) -> (r: usize)
        ensures
            r == self.mem_bytes(),
    {
        self.memtable.approx_bytes()
    }

    /// How many tables there are.
    pub fn table_count(&self) -> (r: usize)
        ensures
            r == self.tables().len(),
    {
        self.tables.len()
    }

    /// The names of the tables' files, from the newest to the oldest.
    pub fn table_paths(&self) -> (r: Vec<String>)
        ensures
            r@.len() == self.tables().len(),
            forall|i: int|
                0 <= i < r@.len() ==> (#[trigger] r@[i])@ == self.tables()[i].meta.path@,
    {
        let mut out: Vec<String> = Vec::new();
        let mut i: usize = 0;
        while i < self.tables.len()
            invariant
                i <= self.tables@.len(),
                out@.len() == i,
                forall|j: int|
                    0 <= j < i ==> (#[trigger] out@[j])@ == self.tables@[j].meta.path@,
            decreases self.tables@.len() - i,
        {
            out.push(self.tables[i].meta.path.clone());
            i = i + 1;
        }
        out
    }

    /// The table that a flush writes to `path`, or `None` if there is nothing
    /// to flush.
    pub fn flush_table(&self, path: String) -> (r: Option<TableFile>)
        requires
            self.well_formed(),
        ensures
            match r {
                Some(t) => {
                    let es = self.mem_entries();
                    &&& es.len() > 0
                    &&& in_order(es)
                    &&& versions_of(es) == self.mem()
                    &&& t.bytes@ == table_bytes(es, es.len())
                    &&& t.meta.path@ == path@
                    &&& t.meta.entry_count == es.len()
                    &&& t.meta.min_key@ == es[0].key
                    &&& t.meta.max_key@ == es.last().key
                },
                None => self.mem() == Map::<(Seq<u8>, u64), Option<Seq<u8>>>::empty(),
            },
    {
        if self.memtable.is_empty() {
            return None;
        }
        let all: Vec<(&InternalKey, &Value)> = self.memtable.iter();
        let ghost es = self.memtable.sorted_entries();
        let mut writer = SSTableWriter::create(path, all.len());
        let mut i: usize = 0;
        assert(es.take(0) =~= Seq::<Entry>::empty());
        while i < all.len()
            invariant
                i <= all@.len(),
                all@.len() == es.len(),
                forall|j: int|
                    0 <= j < all@.len() ==> entry_of(*(#[trigger] all@[j]).0, *all@[j].1) == es[j],
                writer.well_formed(),
                writer.entries() == es.take(i as int),
                writer.expected() == es.len(),
                writer.path() == path@,
            decreases all@.len() - i,
        {
            writer.add(all[i].0, all[i].1);
            assert(es.take(i as int).push(es[i as int]) =~= es.take(i + 1));
            i = i + 1;
        }
        assert(es.take(i as int) =~= es);
        let (meta, file) = writer.finish();
        Some(TableFile { meta, bytes: file })
    }

    /// Puts the table that `flush_table` gave in the place of the memtable. Its
    /// file has to be durable.
    pub fn install_flushed(&mut self, table: TableFile)
        requires
            old(self).well_formed(),
            table.bytes@ == table_bytes(old(self).mem_entries(), old(self).mem_entries().len()),
        ensures
            final(self).well_formed(),
            final(self).mem() == Map::<(Seq<u8>, u64), Option<Seq<u8>>>::empty(),
            final(self).mem_bytes() == 0,
            final(self).tables() == seq![table] + old(self).tables(),
            final(self).next_seq() == old(self).next_seq(),
            final(self)@ == old(self)@,
            old(self).faithful() ==> final(self).faithful(),
    {
        proof {
            assert(table.bytes.len() == table.bytes@.len());
            lemma_flush(self.memtable.sorted_entries(), table, self.tables@);
        }
        self.tables.insert(0, table);
        assert(self.tables@ =~= seq![table] + old(self).tables@);
        self.memtable.clear();
        assert(self@ == old(self)@);
        assert(versions_fit(self.memtable@));
    }

    /// Whether unflushed writes take so much that they should be flushed.
    pub fn should_flush(&self) -> (r: bool)
        ensures
            r == (self.mem_bytes() >= FLUSH_TRIGGER),
    {
        self.memtable.approx_bytes() >= FLUSH_TRIGGER
    }

    /// Whether so many tables have gathered that they should be compacted.
    pub fn should_compact(&self) -> (r: bool)
        ensures
            r == (self.tables().len() >= COMPACTION_TRIGGER),
    {
        should_compact(self.tables.len())
    }

    /// Whether the tables' filter can be sized for a compaction.
    pub fn can_compact(&self) -> (r: bool)
        ensures
            r == (expected_entries(self.tables()) * BITS_PER_KEY <= usize::MAX),
    {
        match sum_entry_counts_checked(&self.tables) {
            Some(n) => n <= (usize::MAX / BITS_PER_KEY) as u64,
            None => false,
        }
    }

    /// The table that a compaction of all tables writes to `path`. Nothing older
    /// lies below, so tombstones go.
    pub fn compacted_table(&self, path: String) -> (r: Result<TableFile, TableError>)
        requires
            self.well_formed(),
            expected_entries(self.tables()) * BITS_PER_KEY <= usize::MAX,
        ensures
            match r {
                Ok(t) => {
                    let es = compacted(self.tables(), true);
                    &&& t.bytes@ == table_bytes(es, expected_entries(self.tables()))
                    &&& t.meta.path@ == path@
                    &&& t.meta.entry_count == es.len()
                    &&& t.meta.min_key@ == (if es.len() > 0 { es[0].key } else { Seq::empty() })
                    &&& t.meta.max_key@ == (if es.len() > 0 { es.last().key } else { Seq::empty() })
                },
                Err(_) => false,
            },
    {
        proof {
            lemma_flawless_compacts(self.tables@);
        }
        compact(&self.tables, path, true)
    }

    /// Puts the table that `compacted_table` gave in the place of all tables. Its
    /// file has to be durable.
    pub fn install_compacted(&mut self, table: TableFile)
        requires
            old(self).well_formed(),
            expected_entries(old(self).tables()) * BITS_PER_KEY <= usize::MAX,
            table.bytes@ == table_bytes(
                compacted(old(self).tables(), true),
                expected_entries(old(self).tables()),
            ),
        ensures
            final(self).well_formed(),
            final(self).mem() == old(self).mem(),
            final(self).mem_bytes() == old(self).mem_bytes(),
            final(self).tables() == seq![table],
            final(self).next_seq() == old(self).next_seq(),
            old(self).faithful() ==> final(self).faithful() && forall|key: Seq<u8>, as_of: u64|
                as_of >= old(self).next_seq() - 1 ==> live(
                    #[trigger] lookup(final(self)@, key, as_of),
                ) == live(lookup(old(self)@, key, as_of)),
    {
        proof {
            assert(table.bytes.len() == table.bytes@.len());
            lemma_compaction(self.mem(), self.tables@, table, self.next_seq);
        }
        let mut tables: Vec<TableFile> = Vec::new();
        tables.push(table);
        assert(tables@ =~= seq![table]);
        self.tables = tables;
    }

    /// The live keys with their newest values, in the order of the keys.
    pub fn iter_all(&self) -> (r: Vec<(Vec<u8>, Vec<u8>)>)
        requires
            self.well_formed(),
        ensures
            is_snapshot(self@, pairs_view(r@)),
    {
        let mut list: Vec<(InternalKey, Value)> = Vec::new();
        let ghost lists = input_lists(self.tables@);
        let n: usize = self.tables.len();
        let mut i: usize = n;
        proof {
            lemma_lists_in_order(self.tables@);
            assert(lists.skip(n as int) =~= Seq::<Seq<Entry>>::empty());
            assert(all_versions(lists.skip(n as int)) =~= Map::<
                (Seq<u8>, u64),
                Option<Seq<u8>>,
            >::empty());
            assert(entries_of(list@) =~= Seq::<Entry>::empty());
            assert(versions_of(entries_of(list@)) =~= Map::<
                (Seq<u8>, u64),
                Option<Seq<u8>>,
            >::empty());
        }
        while i > 0
            invariant
                i <= n == self.tables@.len(),
                lists == input_lists(self.tables@),
                self.well_formed(),
                in_order(entries_of(list@)),
                versions_of(entries_of(list@)) == all_versions(lists.skip(i as int)),
            decreases i,
        {
            i = i - 1;
            assert(table_flaw(self.tables@[i as int].bytes@) is None);
            place_file(&mut list, self.tables[i].bytes.as_slice());
            proof {
                assert(lists.skip(i as int) =~= seq![lists[i as int]] + lists.skip(i + 1));
                lemma_all_versions_front(lists[i as int], lists.skip(i + 1));
            }
        }
        assert(lists.skip(0) =~= lists);
        place_entries(&mut list, &self.memtable.iter(), Ghost(self.memtable.sorted_entries()));
        newest_pairs(&list)
    }
}

/// The bytes of a live value.
fn live_bytes(v: &Value) -> (r: Option<Vec<u8>>)
    ensures
        match r {
            Some(bytes) => v@ == Some(bytes@),
            None => v@ is None,
        },
{
    match v {
        Value::Put(bytes) => {
            let copy: Vec<u8> = copy_range(bytes.as_slice(), 0, bytes.len());
            assert(copy@ =~= bytes@);
            Some(copy)
        },
        Value::Delete => None,
    }
}

/// What a flush does to a store.
pub proof fn lemma_flush(es: Seq<Entry>, table: TableFile, tables: Seq<TableFile>)
    requires
        in_order(es),
        versions_fit(versions_of(es)),
        ENTRY_OVERHEAD * es.len() <= usize::MAX,
        table.bytes@ == table_bytes(es, es.len()),
        table.bytes@.len() <= usize::MAX,
        flawless(tables),
    ensures
        flawless(seq![table] + tables),
        store_versions(Map::empty(), seq![table] + tables) == store_versions(
            versions_of(es),
            tables,
        ),
        tables_faithful(tables) && newer(
            versions_of(es),
            all_versions(input_lists(tables)),
        ) ==> tables_faithful(seq![table] + tables),
{
    let m = versions_of(es);
    let now = seq![table] + tables;
    assert forall|i: int| 0 <= i < es.len() implies entry_fits(#[trigger] es[i]) by {
        lemma_versions_of(es, i);
        let v = (es[i].key, es[i].seq);
        assert(m.contains_key(v));
        assert(es[i] == (Entry { key: v.0, seq: v.1, val: m[v] }));
    }
    assert(table_fits(es, es.len()));
    law_written_table_is_flawless(es, es.len());
    law_flush_preserves_versions(es, table, tables);
    assert forall|i: int| 0 <= i < now.len() implies table_flaw(
        (#[trigger] now[i]).bytes@,
    ) is None by {
        if i > 0 {
            assert(now[i] == tables[i - 1]);
        }
    }
}

/// What one more write does to a store.
pub proof fn lemma_version_added(
    mem: Versions,
    tables: Seq<TableFile>,
    key: Seq<u8>,
    seq: u64,
    val: Option<Seq<u8>>,
)
    requires
        seq < u64::MAX,
        versions_fit(mem),
        entry_fits(Entry { key, seq, val }),
        forall|s: u64| #[trigger] uses_seq(store_versions(mem, tables), s) ==> s < seq,
    ensures
        store_versions(mem.insert((key, seq), val), tables) == store_versions(mem, tables).insert(
            (key, seq),
            val,
        ),
        versions_fit(mem.insert((key, seq), val)),
        forall|s: u64| #[trigger]
            uses_seq(store_versions(mem.insert((key, seq), val), tables), s) ==> s < seq + 1,
        newer(mem, all_versions(input_lists(tables))) ==> newer(
            mem.insert((key, seq), val),
            all_versions(input_lists(tables)),
        ),
{
    let all = all_versions(input_lists(tables));
    let was = store_versions(mem, tables);
    let now_mem = mem.insert((key, seq), val);
    let now = store_versions(now_mem, tables);
    assert(now =~= was.insert((key, seq), val));
    assert forall|s: u64| #[trigger] uses_seq(now, s) implies s < seq + 1 by {
        let k = choose|k: Seq<u8>| #[trigger] now.contains_key((k, s));
        if s != seq {
            assert(was.contains_key((k, s)));
            assert(uses_seq(was, s));
        }
    }
    if newer(mem, all) {
        assert forall|k: Seq<u8>, s: u64, t: u64| #[trigger]
            now_mem.contains_key((k, s)) && #[trigger] all.contains_key((k, t)) implies s >= t
            || now_mem.contains_key((k, t)) by {
            if !mem.contains_key((k, s)) {
                assert(was.contains_key((k, t)));
                assert(uses_seq(was, t));
            }
        }
    }
}

/// A read at a snapshot that no version is newer than sees everything.
pub proof fn lemma_newest_snapshot(m: Versions, key: Seq<u8>, as_of: u64)
    requires
        forall|s: u64| #[trigger] uses_seq(m, s) ==> s <= as_of,
    ensures
        lookup(m, key, as_of) == lookup(m, key, u64::MAX),
{
    assert forall|s: u64| visible(m, key, as_of, s)
        == #[trigger] visible(m, key, u64::MAX, s) by {
        if m.contains_key((key, s)) {
            assert(uses_seq(m, s));
        }
    }
    assert forall|s: u64| is_newest(m, key, as_of, s)
        == #[trigger] is_newest(m, key, u64::MAX, s) by {
        assert(visible(m, key, as_of, s) == visible(
            m,
            key,
            u64::MAX,
            s,
        ));
        if is_newest(m, key, as_of, s) {
            assert forall|t: u64| #[trigger]
                visible(m, key, u64::MAX, t) implies t <= s by {
                assert(visible(m, key, as_of, t));
            }
        }
        if is_newest(m, key, u64::MAX, s) {
            assert forall|t: u64| #[trigger]
                visible(m, key, as_of, t) implies t <= s by {
                assert(visible(m, key, u64::MAX, t));
            }
        }
    }
    if exists|s: u64| is_newest(m, key, as_of, s) {
        let s = choose|s: u64| is_newest(m, key, as_of, s);
        assert(is_newest(m, key, u64::MAX, s));
        lemma_lookup_is(m, key, as_of, s);
        lemma_lookup_is(m, key, u64::MAX, s);
    } else if exists|s: u64| is_newest(m, key, u64::MAX, s) {
        let s = choose|s: u64| is_newest(m, key, u64::MAX, s);
        assert(is_newest(m, key, as_of, s));
    }
}

/// A table that nothing is wrong with can be asked for every key.
proof fn lemma_flawless_usable(table: TableFile, key: Seq<u8>)
    requires
        table_flaw(table.bytes@) is None,
    ensures
        tier_usable(table, key),
{
    reveal(table_flaw);
    let t = table_of(table.meta.path@, table.bytes@);
    assert(filter_sound(t));
    lemma_sound_filter_answers(t, key);
}

/// Tables that nothing is wrong with can be compacted.
proof fn lemma_flawless_compacts(tables: Seq<TableFile>)
    requires
        flawless(tables),
    ensures
        forall|i: int, e: TableError| !#[trigger] is_first_open_error(tables, i, e),
        forall|i: int, e: TableError| !#[trigger] is_record_error(tables, i, e),
{
    reveal(table_flaw);
    assert forall|i: int, e: TableError| !#[trigger] is_first_open_error(tables, i, e) by {
        if is_first_open_error(tables, i, e) {
            assert(table_flaw(tables[i].bytes@) is None);
        }
    }
    assert forall|i: int, e: TableError| !#[trigger] is_record_error(tables, i, e) by {
        if is_record_error(tables, i, e) {
            assert(table_flaw(tables[i].bytes@) is None);
        }
    }
}

/// What a compaction does to a store.
pub proof fn lemma_compaction(mem: Versions, tables: Seq<TableFile>, table: TableFile, next_seq: u64)
    requires
        flawless(tables),
        expected_entries(tables) * BITS_PER_KEY <= usize::MAX,
        table.bytes@ == table_bytes(compacted(tables, true), expected_entries(tables)),
        table.bytes@.len() <= usize::MAX,
        forall|s: u64| #[trigger] uses_seq(store_versions(mem, tables), s) ==> s < next_seq,
    ensures
        flawless(seq![table]),
        forall|s: u64| #[trigger] uses_seq(store_versions(mem, seq![table]), s) ==> s < next_seq,
        newer(mem, all_versions(input_lists(tables))) ==> {
            &&& tables_faithful(seq![table])
            &&& newer(mem, all_versions(input_lists(seq![table])))
            &&& forall|key: Seq<u8>, as_of: u64|
                as_of >= next_seq - 1 ==> live(
                    #[trigger] lookup(store_versions(mem, seq![table]), key, as_of),
                ) == live(lookup(store_versions(mem, tables), key, as_of))
        },
{
    lemma_compacted_fit(tables);
    assert(table_fits(compacted(tables, true), expected_entries(tables)));
    lemma_compacted_one(tables, table);
    lemma_compacted_seqs(mem, tables, table);
    let all = all_versions(input_lists(tables));
    if newer(mem, all) {
        lemma_compacted_newer(mem, tables);
        assert forall|key: Seq<u8>, as_of: u64| as_of >= next_seq - 1 implies live(
            #[trigger] lookup(store_versions(mem, seq![table]), key, as_of),
        ) == live(lookup(store_versions(mem, tables), key, as_of)) by {
            assert forall|s: u64| #[trigger] all.contains_key((key, s)) implies s <= as_of by {
                assert(store_versions(mem, tables).contains_key((key, s)));
                assert(uses_seq(store_versions(mem, tables), s));
            }
            law_compaction_preserves_newest_reads(mem, tables, table, key, as_of);
        }
    }
}

/// Compaction brings no sequence number into use.
proof fn lemma_compacted_seqs(mem: Versions, tables: Seq<TableFile>, table: TableFile)
    requires
        flawless(tables),
        all_versions(input_lists(seq![table])) == versions_of(compacted(tables, true)),
    ensures
        forall|s: u64| #[trigger]
            uses_seq(store_versions(mem, seq![table]), s) ==> uses_seq(
                store_versions(mem, tables),
                s,
            ),
{
    let now = store_versions(mem, seq![table]);
    let was = store_versions(mem, tables);
    assert forall|s: u64| #[trigger] uses_seq(now, s) implies uses_seq(was, s) by {
        let key = choose|key: Seq<u8>| #[trigger] now.contains_key((key, s));
        if !mem.contains_key((key, s)) {
            lemma_survivor_was_there(tables, (key, s));
        }
        assert(was.contains_key((key, s)));
    }
}

/// One more entry of a list in order is one more of its versions.
proof fn lemma_versions_grow(base: Versions, entries: Seq<Entry>, q: int)
    requires
        in_order(entries),
        0 <= q < entries.len(),
    ensures
        base.union_prefer_right(versions_of(entries.take(q + 1))) == base.union_prefer_right(
            versions_of(entries.take(q)),
        ).insert((entries[q].key, entries[q].seq), entries[q].val),
{
    let a = entries.take(q);
    let b = entries.take(q + 1);
    assert(a.insert(q, entries[q]) =~= b);
    assert(in_order(a));
    assert(in_order(b));
    lemma_inserted(a, q, entries[q]);
    assert(base.union_prefer_right(versions_of(b)) =~= base.union_prefer_right(
        versions_of(a),
    ).insert((entries[q].key, entries[q].seq), entries[q].val));
}

/// Puts the records of a table in their places.
fn place_file(list: &mut Vec<(InternalKey, Value)>, file: &[u8])
    requires
        in_order(entries_of(old(list)@)),
        table_flaw(file@) is None,
    ensures
        in_order(entries_of(final(list)@)),
        versions_of(entries_of(final(list)@)) == versions_of(
            entries_of(old(list)@),
        ).union_prefer_right(versions_of(file_records(file@).0)),
{
    reveal(table_flaw);
    let ghost base = versions_of(entries_of(list@));
    let ghost all = file_records(file@).0;
    let mut it: SSTableIter = match SSTableIter::open(file) {
        Ok(it) => it,
        Err(_) => {
            assert(false);
            return;
        },
    };
    let ghost mut q: int = 0;
    proof {
        assert(all.skip(0) =~= all);
        assert(all.take(0) =~= Seq::<Entry>::empty());
        assert(versions_of(all.take(0)) =~= Map::<(Seq<u8>, u64), Option<Seq<u8>>>::empty());
        assert(base.union_prefer_right(versions_of(all.take(0))) =~= base);
    }
    loop
        invariant
            0 <= q <= all.len(),
            in_order(all),
            it.rest() == (all.skip(q), None::<TableError>),
            in_order(entries_of(list@)),
            versions_of(entries_of(list@)) == base.union_prefer_right(versions_of(all.take(q))),
            base == versions_of(entries_of(old(list)@)),
            all == file_records(file@).0,
        decreases all.len() - q,
    {
        match it.next() {
            Some(Ok((ik, v))) => {
                proof {
                    assert(all.skip(q)[0] == all[q]);
                    assert(all.skip(q).skip(1) =~= all.skip(q + 1));
                    lemma_versions_grow(base, all, q);
                }
                place_version(list, ik, v);
                proof {
                    q = q + 1;
                }
            },
            Some(Err(_)) => {
                assert(false);
                return;
            },
            None => {
                assert(q == all.len()) by {
                    assert(all.skip(q).len() == 0);
                }
                assert(all.take(q) =~= all);
                return;
            },
        }
    }
}

/// Puts entries in order in their places.
fn place_entries(
    list: &mut Vec<(InternalKey, Value)>,
    from: &Vec<(&InternalKey, &Value)>,
    Ghost(all): Ghost<Seq<Entry>>,
)
    requires
        in_order(entries_of(old(list)@)),
        in_order(all),
        from@.len() == all.len(),
        forall|i: int|
            0 <= i < from@.len() ==> entry_of(*(#[trigger] from@[i]).0, *from@[i].1) == all[i],
    ensures
        in_order(entries_of(final(list)@)),
        versions_of(entries_of(final(list)@)) == versions_of(
            entries_of(old(list)@),
        ).union_prefer_right(versions_of(all)),
{
    let ghost base = versions_of(entries_of(list@));
    let mut q: usize = 0;
    proof {
        assert(all.take(0) =~= Seq::<Entry>::empty());
        assert(versions_of(all.take(0)) =~= Map::<(Seq<u8>, u64), Option<Seq<u8>>>::empty());
        assert(base.union_prefer_right(versions_of(all.take(0))) =~= base);
    }
    while q < from.len()
        invariant
            q <= from@.len() == all.len(),
            in_order(all),
            forall|i: int|
                0 <= i < from@.len() ==> entry_of(*(#[trigger] from@[i]).0, *from@[i].1) == all[i],
            in_order(entries_of(list@)),
            versions_of(entries_of(list@)) == base.union_prefer_right(
                versions_of(all.take(q as int)),
            ),
        decreases from@.len() - q,
    {
        let key: Vec<u8> = copy_range(
            from[q].0.user_key.as_slice(),
            0,
            from[q].0.user_key.len(),
        );
        let ik: InternalKey = InternalKey::new(key, from[q].0.seq);
        let v: Value = from[q].1.duplicate();
        proof {
            assert(key@ =~= from@[q as int].0.user_key@);
            assert(entry_of(ik, v) == all[q as int]);
            lemma_versions_grow(base, all, q as int);
        }
        place_version(list, ik, v);
        q = q + 1;
    }
    assert(all.take(q as int) =~= all);
}

/// The live keys of a list in order, with their newest values.
fn newest_pairs(list: &Vec<(InternalKey, Value)>) -> (r: Vec<(Vec<u8>, Vec<u8>)>)
    requires
        in_order(entries_of(list@)),
    ensures
        is_snapshot(versions_of(entries_of(list@)), pairs_view(r@)),
{
    let ghost es = entries_of(list@);
    let mut out: Vec<(Vec<u8>, Vec<u8>)> = Vec::new();
    let mut i: usize = 0;
    assert(es.take(0) =~= Seq::<Entry>::empty());
    while i < list.len()
        invariant
            i <= list@.len(),
            es == entries_of(list@),
            out@.len() == survivors(es.take(i as int), true).len(),
            forall|j: int|
                0 <= j < out@.len() ==> (#[trigger] out@[j]).0@ == survivors(
                    es.take(i as int),
                    true,
                )[j].key && survivors(es.take(i as int), true)[j].val == Some(out@[j].1@),
        decreases list@.len() - i,
    {
        let ghost next = es.take(i + 1);
        proof {
            assert(next.drop_last() =~= es.take(i as int));
            assert(next.last() == es[i as int]);
            assert(i > 0 ==> es.take(i as int).last() == es[i - 1]);
        }
        let shadowed: bool = i > 0 && bytes_equal(
            list[i - 1].0.user_key.as_slice(),
            list[i].0.user_key.as_slice(),
        );
        if !shadowed {
            if let Value::Put(bytes) = &list[i].1 {
                let key: Vec<u8> = copy_range(
                    list[i].0.user_key.as_slice(),
                    0,
                    list[i].0.user_key.len(),
                );
                let val: Vec<u8> = copy_range(bytes.as_slice(), 0, bytes.len());
                proof {
                    assert(key@ =~= es[i as int].key);
                    assert(val@ =~= bytes@);
                }
                out.push((key, val));
            }
        }
        i = i + 1;
    }
    proof {
        assert(es.take(i as int) =~= es);
        lemma_survivors_are_snapshot(es, pairs_view(out@));
    }
    out
}

/// What survives of a list in order when tombstones go is its snapshot.
proof fn lemma_survivors_are_snapshot(es: Seq<Entry>, pairs: Seq<(Seq<u8>, Seq<u8>)>)
    requires
        in_order(es),
        pairs.len() == survivors(es, true).len(),
        forall|j: int|
            0 <= j < pairs.len() ==> (#[trigger] pairs[j]).0 == survivors(es, true)[j].key
                && survivors(es, true)[j].val == Some(pairs[j].1),
    ensures
        is_snapshot(versions_of(es), pairs),
{
    let m = versions_of(es);
    let s = survivors(es, true);
    assert(ascending(es)) by {
        assert forall|i: int, j: int| 0 <= i < j < es.len() implies !entry_before(
            #[trigger] es[j],
            #[trigger] es[i],
        ) by {
            lemma_before_total(es[i], es[j]);
        }
    }
    lemma_survivors(es, true);
    assert forall|i: int, j: int| 0 <= i < j < pairs.len() implies lex_less(
        (#[trigger] pairs[i]).0,
        (#[trigger] pairs[j]).0,
    ) by {
        assert(lex_less(s[i].key, s[j].key));
    }
    assert forall|i: int| 0 <= i < pairs.len() implies live(
        lookup(m, (#[trigger] pairs[i]).0, u64::MAX),
    ) == Some(pairs[i].1) by {
        assert(s.contains(s[i]));
        let k = choose|k: int| #[trigger]
            first_of_key(es, k) && es[k] == s[i]
                && !collected(s[i], true);
        lemma_first_decides(es, k);
    }
    assert forall|key: Seq<u8>| live(#[trigger] lookup(m, key, u64::MAX)) is Some implies exists|
        i: int,
    | 0 <= i < pairs.len() && (#[trigger] pairs[i]).0 == key by {
        let n = choose|n: u64| is_newest(m, key, u64::MAX, n);
        assert(is_newest(m, key, u64::MAX, n));
        assert(visible(m, key, u64::MAX, n));
        let p = choose|p: int| 0 <= p < es.len() && is_version(#[trigger] es[p], (key, n));
        let k = lemma_first_of_key(es, p);
        lemma_first_decides(es, k);
        assert(s.contains(es[k]));
        let i = choose|i: int| 0 <= i < s.len() && s[i] == es[k];
        assert(pairs[i].0 == key);
    }
}

/// The first entry of a key in a list in order is what a read finds.
proof fn lemma_first_decides(es: Seq<Entry>, k: int)
    requires
        in_order(es),
        first_of_key(es, k),
    ensures
        lookup(versions_of(es), es[k].key, u64::MAX) == Some(es[k].val),
{
    let key = es[k].key;
    assert forall|i: int| 0 <= i < k implies version_before(
        (#[trigger] es[i]).key,
        es[i].seq,
        key,
        u64::MAX,
    ) by {
        assert(entry_before(es[i], es[k]));
        assert(es[i].key != key);
    }
    lemma_lex_total(key, key);
    lemma_lookup_in_order(es, k, key, u64::MAX);
}

/// A write can be taken in exactly if a sequence number is left for it, its key
/// and value have lengths of 32 bits, and the estimate of the memory can be
/// counted.
pub proof fn law_writes_that_are_taken(e: LsmEngine, key_len: nat, val_len: nat)
    ensures
        e.takes(key_len, val_len) <==> {
            &&& e.next_seq() < u64::MAX
            &&& e.mem_bytes() + key_len + val_len + 24 <= usize::MAX
            &&& key_len < 0x1_0000_0000
            &&& val_len < 0x1_0000_0000
        },
        FLUSH_TRIGGER == 0x40_0000,
{
}

/// The estimate of the memory that a log's records need is the lengths of the
/// keys and values, and 24 bytes for each record.
pub proof fn law_estimate_adds_up(records: Seq<LogEntry>, e: LogEntry)
    ensures
        log_weight(Seq::empty()) == 0,
        e.op is Put ==> log_weight(records.push(e)) == log_weight(records) + e.key.len()
            + e.val.len() + 24,
        e.op is Delete ==> log_weight(records.push(e)) == log_weight(records) + e.key.len() + 24,
{
    assert(records.push(e).drop_last() =~= records);
}

/// What a read and a snapshot return are the bytes themselves.
pub proof fn law_reads_return_bytes(
    r: Result<Option<Vec<u8>>, TableError>,
    pairs: Seq<(Vec<u8>, Vec<u8>)>,
    i: int,
)
    requires
        0 <= i < pairs.len(),
    ensures
        r is Err <==> read_view(r) is Err,
        r is Err ==> read_view(r)->Err_0 == r->Err_0,
        r is Ok && r->Ok_0 is None <==> read_view(r) == Ok::<Option<Seq<u8>>, TableError>(None),
        r is Ok && r->Ok_0 is Some ==> read_view(r) == Ok::<Option<Seq<u8>>, TableError>(
            Some(r->Ok_0->0@),
        ),
        pairs_view(pairs).len() == pairs.len(),
        pairs_view(pairs)[i].0 == pairs[i].0@,
        pairs_view(pairs)[i].1 == pairs[i].1@,
{
}

} // verus!
