//! The store as a whole: what the log, the memtable and the tables hold
//! together, what is wrong with a table that cannot be used, and the laws that
//! the engine's operations keep.

use vstd::prelude::*;
use crate::codec::{lemma_le_value_bound, lemma_limits, u32_at, u64_at};
use crate::compaction::{
    compacted, expected_entries, file_records, input_lists, is_tiers_lookup, merged, survivors,
    TableFile,
};
use crate::compaction_laws::{
    all_in_order, all_versions, holds, holds_first, law_compaction_adds_nothing,
    law_compaction_keeps_order, law_compaction_preserves_reads, law_first_answer_is_right,
    law_lookup_in_tiers_is_right, layered, lemma_all_versions, lemma_first_holder,
    lemma_survivor_is_newest, live, tiers_hold,
};
use crate::order::lex_less;
use crate::sstable::{
    entries_fit, entry_fits, filter_sound, footer_error, index_block, parse_index, records_from,
    table_bytes, table_of, table_record_at, TableError,
};
use crate::table_laws::{law_scan_gives_back_what_was_written, law_written_table_opens, table_fits};
use crate::versions::{
    is_newest, is_version, lemma_lookup_is, lemma_lookup_same, lemma_lookup_some, lookup,
    versions_of, visible, Versions,
};
use crate::wal::{
    intact, law_replay_after_append, law_torn_record_is_dropped, log_entry_fits, record_bytes,
    replayed, LogEntry, Op,
};
use crate::{entry_before, in_order, Entry, SeqNo};

verus! {

/// The sequence number of the first write.
pub const FIRST_SEQ: SeqNo = 1;

/// Why a store cannot be opened.
#[derive(Debug, Clone, Copy, PartialEq, Eq, Structural)]
pub enum StoreError {
    /// A table's footer or one of its records cannot be read.
    Table(TableError),
    /// A table's index cannot be read.
    DamagedIndex,
    /// A table's filter is shorter than its footer says.
    DamagedFilter,
    /// A table's records are out of order.
    Unordered,
    /// A version has the greatest sequence number, so that none is left.
    SeqExhausted,
}

// ---------- what the parts hold ----------

/// What is wrong with a table's file, if something is.
#[verifier::opaque]
pub open spec fn table_flaw(bytes: Seq<u8>) -> Option<StoreError> {
    if footer_error(bytes) is Some {
        Some(StoreError::Table(footer_error(bytes)->0))
    } else if parse_index(index_block(bytes), 0) is None {
        Some(StoreError::DamagedIndex)
    } else if !filter_sound(table_of(Seq::empty(), bytes)) {
        Some(StoreError::DamagedFilter)
    } else if file_records(bytes).1 is Some {
        Some(StoreError::Table(file_records(bytes).1->0))
    } else if !in_order(file_records(bytes).0) {
        Some(StoreError::Unordered)
    } else {
        None
    }
}

/// Whether `x` is what is wrong with the first table that something is wrong
/// with, `i`.
pub open spec fn is_first_flaw(tables: Seq<TableFile>, i: int, x: StoreError) -> bool {
    &&& 0 <= i < tables.len()
    &&& table_flaw(tables[i].bytes@) == Some(x)
    &&& forall|j: int| 0 <= j < i ==> table_flaw((#[trigger] tables[j]).bytes@) is None
}

/// Whether nothing is wrong with any table.
pub open spec fn flawless(tables: Seq<TableFile>) -> bool {
    forall|i: int| 0 <= i < tables.len() ==> table_flaw((#[trigger] tables[i]).bytes@) is None
}

/// What a log record writes; `None` for a tombstone.
pub open spec fn log_value(e: LogEntry) -> Option<Seq<u8>> {
    match e.op {
        Op::Put => Some(e.val),
        Op::Delete => None,
    }
}

/// The versions that a log's records write.
pub open spec fn logged(records: Seq<LogEntry>) -> Versions
    decreases records.len(),
{
    if records.len() == 0 {
        Map::empty()
    } else {
        let e = records.last();
        logged(records.drop_last()).insert((e.key, e.seq), log_value(e))
    }
}

/// The versions of a store: those of the memtable over those of the tables.
pub open spec fn store_versions(mem: Versions, tables: Seq<TableFile>) -> Versions {
    all_versions(input_lists(tables)).union_prefer_right(mem)
}

/// Whether a version in `m` has the sequence number `s`.
pub open spec fn uses_seq(m: Versions, s: u64) -> bool {
    exists|key: Seq<u8>| #[trigger] m.contains_key((key, s))
}

/// Whether `n` is the sequence number of the next write to a store of `m`: the
/// one behind the greatest in use.
pub open spec fn is_next_seq(m: Versions, n: u64) -> bool {
    &&& n >= FIRST_SEQ
    &&& forall|s: u64| #[trigger] uses_seq(m, s) ==> s < n
    &&& n == FIRST_SEQ || uses_seq(m, (n - 1) as u64)
}

/// Whether every version in `a` is at least as new as those of the same key in
/// `b`, but for those that `a` holds, too.
pub open spec fn newer(a: Versions, b: Versions) -> bool {
    forall|key: Seq<u8>, s: u64, t: u64| #[trigger]
        a.contains_key((key, s)) && #[trigger] b.contains_key((key, t)) ==> s >= t
            || a.contains_key((key, t))
}

/// Whether the lengths of all versions fit their prefixes.
pub open spec fn versions_fit(m: Versions) -> bool {
    forall|v: (Seq<u8>, u64)| #[trigger]
        m.contains_key(v) ==> entry_fits(Entry { key: v.0, seq: v.1, val: m[v] })
}

pub open spec fn is_written(bytes: Seq<u8>, n: nat) -> bool {
    &&& bytes == table_bytes(file_records(bytes).0, n)
    &&& table_fits(file_records(bytes).0, n)
    &&& in_order(file_records(bytes).0)
}

/// Whether a file is one that a table's writer wrote in order.
pub open spec fn written(bytes: Seq<u8>) -> bool {
    exists|n: nat| is_written(bytes, n)
}

/// Whether tables are as flushes and compactions leave them: written in order,
/// and the newer before the older.
pub open spec fn tables_faithful(tables: Seq<TableFile>) -> bool {
    (forall|i: int| 0 <= i < tables.len() ==> written((#[trigger] tables[i]).bytes@)) && layered(
        input_lists(tables),
    )
}

/// Whether `pairs` are the live keys of `m` with their newest values, in the
/// order of the keys.
pub open spec fn is_snapshot(m: Versions, pairs: Seq<(Seq<u8>, Seq<u8>)>) -> bool {
    &&& forall|i: int, j: int|
        0 <= i < j < pairs.len() ==> lex_less((#[trigger] pairs[i]).0, (#[trigger] pairs[j]).0)
    &&& forall|i: int|
        0 <= i < pairs.len() ==> live(lookup(m, (#[trigger] pairs[i]).0, u64::MAX)) == Some(
            pairs[i].1,
        )
    &&& forall|key: Seq<u8>|
        live(#[trigger] lookup(m, key, u64::MAX)) is Some ==> exists|i: int|
            0 <= i < pairs.len() && (#[trigger] pairs[i]).0 == key
}

pub open spec fn pairs_view(pairs: Seq<(Vec<u8>, Vec<u8>)>) -> Seq<(Seq<u8>, Seq<u8>)> {
    pairs.map_values(|p: (Vec<u8>, Vec<u8>)| (p.0@, p.1@))
}

// ---------- laws ----------

/// One more list in front of others goes over them.
pub proof fn lemma_all_versions_front(front: Seq<Entry>, rest: Seq<Seq<Entry>>)
    ensures
        all_versions(seq![front] + rest) == all_versions(rest).union_prefer_right(
            versions_of(front),
        ),
{
    let lists = seq![front] + rest;
    let a = all_versions(lists);
    let b = all_versions(rest).union_prefer_right(versions_of(front));
    assert forall|v: (Seq<u8>, u64), i: int| #[trigger] holds(rest, v, i) implies holds(
        lists,
        v,
        i + 1,
    ) by {
        assert(lists[i + 1] == rest[i]);
    }
    assert forall|v: (Seq<u8>, u64), i: int| i > 0 && #[trigger] holds(lists, v, i) implies holds(
        rest,
        v,
        i - 1,
    ) by {
        assert(lists[i] == rest[i - 1]);
    }
    assert forall|v: (Seq<u8>, u64)| #[trigger] a.contains_key(v) == b.contains_key(v) && (
    a.contains_key(v) ==> a[v] == b[v]) by {
        if versions_of(front).contains_key(v) {
            assert(lists[0] == front);
            assert(holds(lists, v, 0));
            assert(holds_first(lists, v, 0));
            lemma_all_versions(lists, v, 0);
        } else {
            assert(!holds(lists, v, 0));
            if exists|i: int| holds_first(rest, v, i) {
                let i = choose|i: int| holds_first(rest, v, i);
                assert(holds_first(rest, v, i));
                assert(holds(lists, v, i + 1));
                assert forall|j: int| 0 <= j < i + 1 implies !#[trigger] holds(lists, v, j) by {
                    if j > 0 && holds(lists, v, j) {
                        assert(holds(rest, v, j - 1));
                    }
                }
                assert(holds_first(lists, v, i + 1));
                lemma_all_versions(lists, v, i + 1);
                lemma_all_versions(rest, v, i);
                assert(lists[i + 1] == rest[i]);
            }
            if exists|i: int| holds_first(lists, v, i) {
                let i = choose|i: int| holds_first(lists, v, i);
                assert(holds_first(lists, v, i));
                assert(holds(lists, v, i));
                let f = lemma_first_holder(rest, v, i - 1);
                assert(holds_first(rest, v, f));
            }
        }
    }
    assert(a =~= b);
}

/// A read over two stores, the first at least as new as the second, finds what
/// the first finds, or else what the second does.
pub proof fn lemma_lookup_over(a: Versions, b: Versions, key: Seq<u8>, as_of: u64)
    requires
        newer(a, b),
    ensures
        lookup(b.union_prefer_right(a), key, as_of) == if lookup(a, key, as_of) is Some {
            lookup(a, key, as_of)
        } else {
            lookup(b, key, as_of)
        },
{
    let m = b.union_prefer_right(a);
    if lookup(a, key, as_of) is Some {
        let s = choose|s: u64| is_newest(a, key, as_of, s);
        assert(is_newest(a, key, as_of, s));
        assert(visible(a, key, as_of, s));
        lemma_lookup_is(a, key, as_of, s);
        assert(visible(m, key, as_of, s));
        assert forall|t: u64| #[trigger] visible(m, key, as_of, t) implies t <= s by {
            if a.contains_key((key, t)) {
                assert(visible(a, key, as_of, t));
            } else {
                assert(b.contains_key((key, t)));
            }
        }
        assert(is_newest(m, key, as_of, s));
        lemma_lookup_is(m, key, as_of, s);
    } else {
        assert forall|s: u64| s <= as_of implies !a.contains_key((key, s)) by {
            if a.contains_key((key, s)) {
                assert(visible(a, key, as_of, s));
                lemma_lookup_some(a, key, as_of, s);
            }
        }
        lemma_lookup_same(m, b, key, as_of);
    }
}

/// What is written is what is read: a read at the write's sequence number, or
/// behind it as long as no later write touches the key, finds what was written,
/// and no read of another key or of an earlier snapshot changes.
pub proof fn law_read_after_write(
    m: Versions,
    key: Seq<u8>,
    seq: u64,
    val: Option<Seq<u8>>,
    other: Seq<u8>,
    as_of: u64,
)
    requires
        forall|s: u64| #[trigger] uses_seq(m, s) ==> s < seq,
    ensures
        as_of >= seq ==> lookup(m.insert((key, seq), val), key, as_of) == Some(val),
        other != key || as_of < seq ==> lookup(m.insert((key, seq), val), other, as_of) == lookup(
            m,
            other,
            as_of,
        ),
{
    let now = m.insert((key, seq), val);
    if as_of >= seq {
        assert(visible(now, key, as_of, seq));
        assert forall|t: u64| #[trigger] visible(now, key, as_of, t) implies t <= seq by {
            if t != seq {
                assert(m.contains_key((key, t)));
                assert(uses_seq(m, t));
            }
        }
        assert(is_newest(now, key, as_of, seq));
        lemma_lookup_is(now, key, as_of, seq);
    }
    if other != key || as_of < seq {
        lemma_lookup_same(now, m, other, as_of);
    }
}

/// A write whose record reached the log is there after a restart: replaying the
/// longer log gives what replaying the log gave, with the write behind it.
pub proof fn law_logged_write_survives_restart(log: Seq<u8>, e: LogEntry)
    requires
        intact(log),
        log_entry_fits(e),
    ensures
        intact(log + record_bytes(e)),
        logged(replayed(log + record_bytes(e), 0)) == logged(replayed(log, 0)).insert(
            (e.key, e.seq),
            log_value(e),
        ),
{
    law_replay_after_append(log, e);
    let records = replayed(log, 0);
    assert(records.push(e).drop_last() =~= records);
}

/// A write whose record a crash tore is as if it had never been.
pub proof fn law_torn_write_leaves_no_trace(log: Seq<u8>, e: LogEntry, n: int)
    requires
        intact(log),
        log_entry_fits(e),
        0 <= n < record_bytes(e).len(),
    ensures
        logged(replayed(log + record_bytes(e).take(n), 0)) == logged(replayed(log, 0)),
{
    law_torn_record_is_dropped(log, e, n);
}

/// A table that was written in order is found without a flaw, with the entries
/// that were written.
pub proof fn law_written_table_is_flawless(entries: Seq<Entry>, n: nat)
    requires
        table_fits(entries, n),
        in_order(entries),
    ensures
        written(table_bytes(entries, n)),
        file_records(table_bytes(entries, n)) == (entries, None::<TableError>),
        table_flaw(table_bytes(entries, n)) is None,
{
    reveal(table_flaw);
    let bytes = table_bytes(entries, n);
    law_scan_gives_back_what_was_written(entries, n);
    law_written_table_opens(entries, n, Seq::empty());
    assert(is_written(bytes, n));
}

/// Flushing changes no read: the versions of the memtable go to a table in
/// front of the others.
pub proof fn law_flush_preserves_versions(
    mem_entries: Seq<Entry>,
    table: TableFile,
    tables: Seq<TableFile>,
)
    requires
        in_order(mem_entries),
        table_fits(mem_entries, mem_entries.len()),
        table.bytes@ == table_bytes(mem_entries, mem_entries.len()),
    ensures
        store_versions(Map::empty(), seq![table] + tables) == store_versions(
            versions_of(mem_entries),
            tables,
        ),
        tables_faithful(tables) && newer(
            versions_of(mem_entries),
            all_versions(input_lists(tables)),
        ) ==> tables_faithful(seq![table] + tables),
{
    law_written_table_is_flawless(mem_entries, mem_entries.len());
    let now = seq![table] + tables;
    let lists = input_lists(tables);
    assert(input_lists(now) =~= seq![mem_entries] + lists);
    lemma_all_versions_front(mem_entries, lists);
    let all = all_versions(input_lists(now));
    assert(all.union_prefer_right(Map::empty()) =~= all);
    if tables_faithful(tables) && newer(versions_of(mem_entries), all_versions(lists)) {
        assert forall|i: int| 0 <= i < now.len() implies written((#[trigger] now[i]).bytes@) by {
            if i > 0 {
                assert(now[i] == tables[i - 1]);
            }
        }
        lemma_layered_front(mem_entries, lists);
    }
}

/// A crash between a flush and the cut of the log does no harm: with the writes
/// both in the new table and in the log, every read is as it was.
pub proof fn law_uncut_log_does_no_harm(
    mem_entries: Seq<Entry>,
    table: TableFile,
    tables: Seq<TableFile>,
)
    requires
        in_order(mem_entries),
        table_fits(mem_entries, mem_entries.len()),
        table.bytes@ == table_bytes(mem_entries, mem_entries.len()),
    ensures
        store_versions(versions_of(mem_entries), seq![table] + tables) == store_versions(
            versions_of(mem_entries),
            tables,
        ),
        tables_faithful(tables) && newer(
            versions_of(mem_entries),
            all_versions(input_lists(tables)),
        ) ==> tables_faithful(seq![table] + tables) && newer(
            versions_of(mem_entries),
            all_versions(input_lists(seq![table] + tables)),
        ),
{
    let m = versions_of(mem_entries);
    law_flush_preserves_versions(mem_entries, table, tables);
    law_written_table_is_flawless(mem_entries, mem_entries.len());
    let now = seq![table] + tables;
    let lists = input_lists(tables);
    assert(input_lists(now) =~= seq![mem_entries] + lists);
    lemma_all_versions_front(mem_entries, lists);
    assert(store_versions(m, now) =~= store_versions(m, tables));
}

/// A list that is at least as new as all others goes in front of them.
pub proof fn lemma_layered_front(front: Seq<Entry>, rest: Seq<Seq<Entry>>)
    requires
        layered(rest),
        newer(versions_of(front), all_versions(rest)),
    ensures
        layered(seq![front] + rest),
{
    let lists = seq![front] + rest;
    assert forall|i: int, j: int, key: Seq<u8>, s: u64, t: u64|
        0 <= i < j < lists.len() && #[trigger] holds(lists, (key, s), i) && #[trigger] holds(
            lists,
            (key, t),
            j,
        ) implies s >= t || holds(lists, (key, t), i) by {
        assert(lists[j] == rest[j - 1]);
        assert(holds(rest, (key, t), j - 1));
        if i > 0 {
            assert(lists[i] == rest[i - 1]);
            assert(holds(rest, (key, s), i - 1));
        } else {
            let f = lemma_first_holder(rest, (key, t), j - 1);
            lemma_all_versions(rest, (key, t), f);
            assert(versions_of(front).contains_key((key, s)));
        }
    }
}

/// Compacting all tables into one changes no read of the newest state: what is
/// live stays so, and what was deleted stays deleted.
pub proof fn law_compaction_preserves_newest_reads(
    mem: Versions,
    tables: Seq<TableFile>,
    table: TableFile,
    key: Seq<u8>,
    as_of: u64,
)
    requires
        flawless(tables),
        newer(mem, all_versions(input_lists(tables))),
        table_fits(compacted(tables, true), expected_entries(tables)),
        table.bytes@ == table_bytes(compacted(tables, true), expected_entries(tables)),
        forall|s: u64| #[trigger]
            all_versions(input_lists(tables)).contains_key((key, s)) ==> s <= as_of,
    ensures
        live(lookup(store_versions(mem, seq![table]), key, as_of)) == live(
            lookup(store_versions(mem, tables), key, as_of),
        ),
{
    let lists = input_lists(tables);
    let out = compacted(tables, true);
    lemma_compacted_one(tables, table);
    lemma_lists_in_order(tables);
    assert forall|i: int, q: int|
        0 <= i < lists.len() && 0 <= q < lists[i].len() && (#[trigger] lists[i][q]).key
            == key implies lists[i][q].seq <= as_of by {
        lemma_entry_in_all(lists, i, q);
    }
    law_compaction_preserves_reads(lists, true, key, as_of);
    lemma_compacted_newer(mem, tables);
    lemma_lookup_over(mem, all_versions(lists), key, as_of);
    lemma_lookup_over(mem, versions_of(out), key, as_of);
}

/// The only table that compaction leaves holds what survived.
pub proof fn lemma_compacted_one(tables: Seq<TableFile>, table: TableFile)
    requires
        flawless(tables),
        table_fits(compacted(tables, true), expected_entries(tables)),
        table.bytes@ == table_bytes(compacted(tables, true), expected_entries(tables)),
    ensures
        in_order(compacted(tables, true)),
        input_lists(seq![table]) == seq![compacted(tables, true)],
        all_versions(input_lists(seq![table])) == versions_of(compacted(tables, true)),
        table_flaw(table.bytes@) is None,
        tables_faithful(seq![table]),
{
    let out = compacted(tables, true);
    lemma_lists_in_order(tables);
    law_compaction_keeps_order(input_lists(tables), true);
    law_written_table_is_flawless(out, expected_entries(tables));
    assert(input_lists(seq![table]) =~= seq![out]);
    let none = Seq::<Seq<Entry>>::empty();
    assert(seq![out] + none =~= seq![out]);
    lemma_all_versions_front(out, none);
    assert(all_versions(none) =~= Map::<(Seq<u8>, u64), Option<Seq<u8>>>::empty());
    assert(all_versions(none).union_prefer_right(versions_of(out)) =~= versions_of(out));
    assert(layered(input_lists(seq![table])));
}

pub proof fn lemma_lists_in_order(tables: Seq<TableFile>)
    requires
        flawless(tables),
    ensures
        all_in_order(input_lists(tables)),
{
    reveal(table_flaw);
    let lists = input_lists(tables);
    assert forall|i: int| 0 <= i < lists.len() implies in_order(#[trigger] lists[i]) by {
        assert(table_flaw(tables[i].bytes@) is None);
    }
}

pub proof fn lemma_entry_in_all(lists: Seq<Seq<Entry>>, i: int, q: int)
    requires
        0 <= i < lists.len(),
        0 <= q < lists[i].len(),
    ensures
        all_versions(lists).contains_key((lists[i][q].key, lists[i][q].seq)),
{
    let v = (lists[i][q].key, lists[i][q].seq);
    assert(is_version(lists[i][q], v));
    assert(holds(lists, v, i));
    let f = lemma_first_holder(lists, v, i);
    lemma_all_versions(lists, v, f);
}

/// What survives compaction is among what was there.
pub proof fn lemma_survivor_was_there(tables: Seq<TableFile>, v: (Seq<u8>, u64))
    requires
        flawless(tables),
        versions_of(compacted(tables, true)).contains_key(v),
    ensures
        all_versions(input_lists(tables)).contains_key(v),
{
    let lists = input_lists(tables);
    let out = compacted(tables, true);
    lemma_lists_in_order(tables);
    let q = choose|q: int| 0 <= q < out.len() && is_version(#[trigger] out[q], v);
    assert(out.contains(out[q]));
    law_compaction_adds_nothing(lists, true, out[q]);
    let i = choose|i: int| 0 <= i < lists.len() && (#[trigger] lists[i]).contains(out[q]);
    let p = choose|p: int| 0 <= p < lists[i].len() && lists[i][p] == out[q];
    lemma_entry_in_all(lists, i, p);
}

pub proof fn lemma_compacted_newer(mem: Versions, tables: Seq<TableFile>)
    requires
        flawless(tables),
        newer(mem, all_versions(input_lists(tables))),
    ensures
        newer(mem, versions_of(compacted(tables, true))),
{
    let b = versions_of(compacted(tables, true));
    assert forall|key: Seq<u8>, s: u64, t: u64| #[trigger]
        mem.contains_key((key, s)) && #[trigger] b.contains_key((key, t)) implies s >= t
        || mem.contains_key((key, t)) by {
        lemma_survivor_was_there(tables, (key, t));
    }
}

/// The entries that a file's records give fit their prefixes.
proof fn lemma_records_fit(s: Seq<u8>, pos: int, remaining: int)
    requires
        0 <= pos,
    ensures
        entries_fit(records_from(s, pos, remaining).0),
    decreases s.len() - pos,
{
    if remaining > 0 {
        if let Ok(Some((e, next))) = table_record_at(s, pos) {
            lemma_records_fit(s, next, remaining - (next - pos));
            lemma_limits();
            let key_len = u32_at(s, pos);
            lemma_le_value_bound(s.subrange(pos, pos + 4));
            lemma_le_value_bound(s.subrange(pos + 13 + key_len, pos + 17 + key_len));
            assert(entry_fits(e));
            let rest = records_from(s, next, remaining - (next - pos)).0;
            let all = records_from(s, pos, remaining).0;
            assert(all == seq![e] + rest);
            assert forall|i: int| 0 <= i < all.len() implies entry_fits(#[trigger] all[i]) by {
                if i > 0 {
                    assert(all[i] == rest[i - 1]);
                }
            }
        }
    }
}

pub proof fn lemma_compacted_fit(tables: Seq<TableFile>)
    requires
        flawless(tables),
    ensures
        entries_fit(compacted(tables, true)),
{
    let lists = input_lists(tables);
    let out = compacted(tables, true);
    lemma_lists_in_order(tables);
    assert forall|q: int| 0 <= q < out.len() implies entry_fits(#[trigger] out[q]) by {
        assert(out.contains(out[q]));
        law_compaction_adds_nothing(lists, true, out[q]);
        let i = choose|i: int| 0 <= i < lists.len() && (#[trigger] lists[i]).contains(out[q]);
        let p = choose|p: int| 0 <= p < lists[i].len() && lists[i][p] == out[q];
        lemma_records_fit(
            tables[i].bytes@,
            0,
            crate::sstable::footer_field(tables[i].bytes@, 0) as int,
        );
        assert(entry_fits(lists[i][p]));
    }
}

/// Asking tables as flushes and compactions leave them finds what they hold.
pub proof fn lemma_faithful_lookup(
    tables: Seq<TableFile>,
    key: Seq<u8>,
    as_of: u64,
    r: Result<Option<Option<Seq<u8>>>, TableError>,
)
    requires
        tables_faithful(tables),
        is_tiers_lookup(tables, key, as_of, r),
    ensures
        r == Ok::<Option<Option<Seq<u8>>>, TableError>(
            lookup(all_versions(input_lists(tables)), key, as_of),
        ),
{
    let lists = input_lists(tables);
    let sizes = Seq::new(tables.len(), |i: int| choose|n: nat| is_written(tables[i].bytes@, n));
    assert forall|i: int| 0 <= i < tables.len() implies (#[trigger] tables[i]).bytes@
        == table_bytes(lists[i], sizes[i]) && table_fits(lists[i], sizes[i]) && in_order(
        lists[i],
    ) by {
        assert(written(tables[i].bytes@));
        assert(is_written(tables[i].bytes@, sizes[i]));
    }
    assert forall|i: int| 0 <= i < lists.len() implies in_order(#[trigger] lists[i]) by {
        assert(tables[i].bytes@ == table_bytes(lists[i], sizes[i]));
    }
    assert(tiers_hold(tables, lists, sizes));
    law_lookup_in_tiers_is_right(tables, lists, sizes, key, as_of, r);
}

/// The first list that finds a key at all, or the number of lists.
proof fn lemma_first_answer(lists: Seq<Seq<Entry>>, key: Seq<u8>, as_of: u64, n: int) -> (i: int)
    requires
        0 <= n <= lists.len(),
        forall|j: int| 0 <= j < n ==> lookup(versions_of(#[trigger] lists[j]), key, as_of) is None,
    ensures
        n <= i <= lists.len(),
        forall|j: int| 0 <= j < i ==> lookup(versions_of(#[trigger] lists[j]), key, as_of) is None,
        i < lists.len() ==> lookup(versions_of(lists[i]), key, as_of) is Some,
    decreases lists.len() - n,
{
    if n < lists.len() && lookup(versions_of(lists[n]), key, as_of) is None {
        lemma_first_answer(lists, key, as_of, n + 1)
    } else {
        n
    }
}

/// A compaction that a crash interrupts while the merged tables are removed, the
/// oldest first, changes no read of the newest state: the new table in front of
/// whichever of the newer ones are left gives the same answers.
pub proof fn law_interrupted_compaction_changes_no_read(
    lists: Seq<Seq<Entry>>,
    left: int,
    key: Seq<u8>,
    as_of: u64,
)
    requires
        all_in_order(lists),
        layered(lists),
        0 <= left <= lists.len(),
        forall|s: u64| #[trigger] all_versions(lists).contains_key((key, s)) ==> s <= as_of,
    ensures
        live(
            lookup(
                all_versions(seq![survivors(merged(lists), true)] + lists.take(left)),
                key,
                as_of,
            ),
        ) == live(lookup(all_versions(lists), key, as_of)),
        layered(seq![survivors(merged(lists), true)] + lists.take(left)),
{
    let out = survivors(merged(lists), true);
    let rest = lists.take(left);
    let a = versions_of(out);
    let b = all_versions(rest);
    lemma_all_versions_front(out, rest);
    assert forall|i: int, q: int|
        0 <= i < lists.len() && 0 <= q < lists[i].len() && (#[trigger] lists[i][q]).key
            == key implies lists[i][q].seq <= as_of by {
        lemma_entry_in_all(lists, i, q);
    }
    law_compaction_preserves_reads(lists, true, key, as_of);
    assert forall|v: (Seq<u8>, u64), i: int| #[trigger] holds(rest, v, i) implies holds(
        lists,
        v,
        i,
    ) by {
        assert(rest[i] == lists[i]);
    }
    assert forall|k: Seq<u8>, s: u64, t: u64| #[trigger]
        a.contains_key((k, s)) && #[trigger] b.contains_key((k, t)) implies s >= t by {
        let i = choose|i: int| holds_first(rest, (k, t), i);
        assert(holds_first(rest, (k, t), i));
        assert(holds(lists, (k, t), i));
        let f = lemma_first_holder(lists, (k, t), i);
        lemma_all_versions(lists, (k, t), f);
        lemma_survivor_is_newest(lists, true, k, s, t);
    }
    lemma_lookup_over(a, b, key, as_of);
    assert(layered(rest));
    lemma_layered_front(out, rest);
    if lookup(a, key, as_of) is None {
        let i = lemma_first_answer(lists, key, as_of, 0);
        law_first_answer_is_right(lists, i, key, as_of);
        assert forall|j: int| 0 <= j < rest.len() implies in_order(#[trigger] rest[j]) by {
            assert(rest[j] == lists[j]);
        }
        let n = if i < left { i } else { left };
        assert forall|j: int| 0 <= j < n implies lookup(
            versions_of(#[trigger] rest[j]),
            key,
            as_of,
        ) is None by {
            assert(rest[j] == lists[j]);
        }
        law_first_answer_is_right(rest, n, key, as_of);
    }
}

/// Lists in front of others go over them.
proof fn lemma_all_versions_concat(front: Seq<Seq<Entry>>, rest: Seq<Seq<Entry>>)
    ensures
        all_versions(front + rest) == all_versions(rest).union_prefer_right(all_versions(front)),
    decreases front.len(),
{
    if front.len() == 0 {
        assert(front + rest =~= rest);
        assert(all_versions(front) =~= Map::<(Seq<u8>, u64), Option<Seq<u8>>>::empty());
        assert(all_versions(rest).union_prefer_right(all_versions(front)) =~= all_versions(rest));
    } else {
        let first = front[0];
        let more = front.skip(1);
        lemma_all_versions_concat(more, rest);
        assert(front =~= seq![first] + more);
        assert(front + rest =~= seq![first] + (more + rest));
        lemma_all_versions_front(first, more);
        lemma_all_versions_front(first, more + rest);
        assert(all_versions(front + rest) =~= all_versions(rest).union_prefer_right(
            all_versions(front),
        ));
    }
}

/// The newer of layered lists are at least as new as the older.
proof fn lemma_layers_split(lists: Seq<Seq<Entry>>, n: int)
    requires
        layered(lists),
        0 <= n <= lists.len(),
    ensures
        newer(all_versions(lists.take(n)), all_versions(lists.skip(n))),
{
    let a = lists.take(n);
    let b = lists.skip(n);
    assert forall|key: Seq<u8>, s: u64, t: u64| #[trigger]
        all_versions(a).contains_key((key, s)) && #[trigger] all_versions(b).contains_key(
            (key, t),
        ) implies s >= t || all_versions(a).contains_key((key, t)) by {
        let i = choose|i: int| holds_first(a, (key, s), i);
        assert(holds_first(a, (key, s), i));
        assert(a[i] == lists[i]);
        assert(holds(lists, (key, s), i));
        let j = choose|j: int| holds_first(b, (key, t), j);
        assert(holds_first(b, (key, t), j));
        assert(b[j] == lists[j + n]);
        assert(holds(lists, (key, t), j + n));
        if holds(lists, (key, t), i) {
            assert(holds(a, (key, t), i));
            let f = lemma_first_holder(a, (key, t), i);
            lemma_all_versions(a, (key, t), f);
        }
    }
}

/// Compacting only the newer tables changes no read of the newest state either:
/// the tombstones that such a compaction keeps go on to shadow what lies in the
/// older tables.
pub proof fn law_partial_compaction_keeps_shadowing(
    lists: Seq<Seq<Entry>>,
    n: int,
    key: Seq<u8>,
    as_of: u64,
)
    requires
        all_in_order(lists),
        layered(lists),
        0 <= n <= lists.len(),
        forall|s: u64| #[trigger]
            all_versions(lists.take(n)).contains_key((key, s)) ==> s <= as_of,
    ensures
        lookup(
            all_versions(seq![survivors(merged(lists.take(n)), false)] + lists.skip(n)),
            key,
            as_of,
        ) == lookup(all_versions(lists), key, as_of),
{
    let a = lists.take(n);
    let b = lists.skip(n);
    let out = survivors(merged(a), false);
    assert(lists =~= a + b);
    assert forall|i: int| 0 <= i < a.len() implies in_order(#[trigger] a[i]) by {
        assert(a[i] == lists[i]);
    }
    assert forall|i: int, q: int|
        0 <= i < a.len() && 0 <= q < a[i].len() && (#[trigger] a[i][q]).key
            == key implies a[i][q].seq <= as_of by {
        lemma_entry_in_all(a, i, q);
    }
    law_compaction_preserves_reads(a, false, key, as_of);
    lemma_all_versions_concat(a, b);
    lemma_all_versions_front(out, b);
    lemma_layers_split(lists, n);
    lemma_lookup_over(all_versions(a), all_versions(b), key, as_of);
    assert forall|k: Seq<u8>, s: u64, t: u64| #[trigger]
        versions_of(out).contains_key((k, s)) && #[trigger] all_versions(b).contains_key(
            (k, t),
        ) implies s >= t by {
        let q = choose|q: int| 0 <= q < out.len() && is_version(#[trigger] out[q], (k, s));
        assert(out.contains(out[q]));
        law_compaction_adds_nothing(a, false, out[q]);
        let i = choose|i: int| 0 <= i < a.len() && (#[trigger] a[i]).contains(out[q]);
        let p = choose|p: int| 0 <= p < a[i].len() && a[i][p] == out[q];
        lemma_entry_in_all(a, i, p);
        if all_versions(a).contains_key((k, t)) {
            lemma_survivor_is_newest(a, false, k, s, t);
        }
    }
    lemma_lookup_over(versions_of(out), all_versions(b), key, as_of);
}

/// The versions of a list and of those behind it are those of the list over those
/// behind it.
pub proof fn law_earlier_list_counts(front: Seq<Entry>, rest: Seq<Seq<Entry>>, v: (Seq<u8>, u64))
    ensures
        !all_versions(Seq::empty()).contains_key(v),
        all_versions(seq![front] + rest).contains_key(v) <==> versions_of(front).contains_key(v)
            || all_versions(rest).contains_key(v),
        versions_of(front).contains_key(v) ==> all_versions(seq![front] + rest)[v] == versions_of(
            front,
        )[v],
        !versions_of(front).contains_key(v) && all_versions(rest).contains_key(v)
            ==> all_versions(seq![front] + rest)[v] == all_versions(rest)[v],
{
    lemma_all_versions_front(front, rest);
    let none = Seq::<Seq<Entry>>::empty();
    if all_versions(none).contains_key(v) {
        let i = choose|i: int| holds_first(none, v, i);
        assert(holds_first(none, v, i));
    }
}

/// A store holds the unflushed versions and those of its tables, and no others.
pub proof fn law_store_holds_memtable_over_tables(
    mem: Versions,
    tables: Seq<TableFile>,
    v: (Seq<u8>, u64),
)
    ensures
        store_versions(mem, tables).contains_key(v) <==> mem.contains_key(v) || all_versions(
            input_lists(tables),
        ).contains_key(v),
        mem.contains_key(v) ==> store_versions(mem, tables)[v] == mem[v],
        !mem.contains_key(v) && all_versions(input_lists(tables)).contains_key(v)
            ==> store_versions(mem, tables)[v] == all_versions(input_lists(tables))[v],
        input_lists(tables).len() == tables.len(),
        forall|i: int|
            0 <= i < tables.len() ==> #[trigger] input_lists(tables)[i] == records_from(
                tables[i].bytes@,
                0,
                u64_at(tables[i].bytes@, tables[i].bytes@.len() - 56) as int,
            ).0,
{
}

/// A log writes what its records do, one after the other: a later record of the
/// same version takes the place of an earlier one.
pub proof fn law_log_writes_in_turn(records: Seq<LogEntry>, e: LogEntry)
    ensures
        logged(Seq::empty()) == Map::<(Seq<u8>, u64), Option<Seq<u8>>>::empty(),
        e.op is Put ==> logged(records.push(e)) == logged(records).insert(
            (e.key, e.seq),
            Some(e.val),
        ),
        e.op is Delete ==> logged(records.push(e)) == logged(records).insert(
            (e.key, e.seq),
            None,
        ),
{
    assert(records.push(e).drop_last() =~= records);
}

/// Nothing is wrong with a table exactly if its footer, its index and its filter
/// are sound and all its records can be read and stand in order.
pub proof fn law_flawless_table_can_be_read(bytes: Seq<u8>)
    ensures
        table_flaw(bytes) is None <==> {
            let (entries, error) = records_from(bytes, 0, u64_at(bytes, bytes.len() - 56) as int);
            &&& footer_error(bytes) is None
            &&& parse_index(index_block(bytes), 0) is Some
            &&& filter_sound(table_of(Seq::empty(), bytes))
            &&& error is None
            &&& forall|i: int, j: int|
                0 <= i < j < entries.len() ==> entry_before(
                    #[trigger] entries[i],
                    #[trigger] entries[j],
                )
        },
        footer_error(bytes) is Some ==> table_flaw(bytes) == Some(
            StoreError::Table(footer_error(bytes)->0),
        ),
        footer_error(bytes) is None ==> (table_flaw(bytes) == Some(StoreError::DamagedIndex)
            <==> parse_index(index_block(bytes), 0) is None),
        footer_error(bytes) is None && parse_index(index_block(bytes), 0) is Some ==> (table_flaw(
            bytes,
        ) == Some(StoreError::DamagedFilter) <==> !filter_sound(table_of(Seq::empty(), bytes))),
        table_flaw(bytes) == Some(StoreError::Unordered) ==> !in_order(
            records_from(bytes, 0, u64_at(bytes, bytes.len() - 56) as int).0,
        ),
        table_flaw(bytes) != Some(StoreError::SeqExhausted),
{
    reveal(table_flaw);
}

/// A snapshot of a store holds a pair exactly if the newest version of its key has
/// its value, and none twice.
pub proof fn law_snapshot_holds_every_live_key(
    m: Versions,
    pairs: Seq<(Seq<u8>, Seq<u8>)>,
    key: Seq<u8>,
    val: Seq<u8>,
)
    requires
        is_snapshot(m, pairs),
    ensures
        pairs.contains((key, val)) <==> lookup(m, key, u64::MAX) == Some(Some(val)),
        forall|i: int, j: int|
            0 <= i < j < pairs.len() ==> lex_less(
                (#[trigger] pairs[i]).0,
                (#[trigger] pairs[j]).0,
            ),
{
    if pairs.contains((key, val)) {
        let i = choose|i: int| 0 <= i < pairs.len() && pairs[i] == (key, val);
        assert(live(lookup(m, pairs[i].0, u64::MAX)) == Some(pairs[i].1));
    }
    if lookup(m, key, u64::MAX) == Some(Some(val)) {
        assert(live(lookup(m, key, u64::MAX)) is Some);
        let i = choose|i: int| 0 <= i < pairs.len() && (#[trigger] pairs[i]).0 == key;
        assert(live(lookup(m, pairs[i].0, u64::MAX)) == Some(pairs[i].1));
        assert(pairs[i] == (key, val));
    }
}

/// The next write's sequence number is greater than every one in use and skips
/// none; the first is one.
pub proof fn law_next_sequence_number(m: Versions, n: u64)
    ensures
        is_next_seq(m, n) <==> {
            &&& n >= 1
            &&& forall|key: Seq<u8>, s: u64| #[trigger] m.contains_key((key, s)) ==> s < n
            &&& n == 1 || exists|key: Seq<u8>| #[trigger] m.contains_key((key, (n - 1) as u64))
        },
{
    if is_next_seq(m, n) {
        assert forall|key: Seq<u8>, s: u64| #[trigger] m.contains_key((key, s)) implies s < n by {
            assert(uses_seq(m, s));
        }
    }
}

} // verus!
