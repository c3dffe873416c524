//! What an engine holds after any run of operations: whatever was upserted and
//! deleted, flushed, compacted and reopened in between, its documents are those
//! that were upserted and not deleted since, each as it was upserted last.

use vstd::prelude::*;
use crate::bloom::BITS_PER_KEY;
use crate::codec::{be_bytes, lemma_le_bytes_len, LEN_LIMIT};
use crate::compaction::{compacted, expected_entries, input_lists, TableFile};
use crate::compaction_laws::{all_versions, layered};
use crate::engine::{
    all_documents, all_of_width, can_serve, documents_in, is_blob, law_deleted_document_is_gone,
    law_nothing_stored_no_documents, law_same_reads_same_documents,
    law_stored_document_is_read_back, record_of, terms_in,
    vectors_in, Engine, EngineFault,
};
use crate::engine_laws::{law_blob_is_the_stored_one, law_len_counts_documents};
use crate::gather::by_id;
use crate::lsm::{lemma_compaction, lemma_flush, lemma_version_added};
use crate::memtable::ENTRY_OVERHEAD;
use crate::record::{document_bytes, lemma_document_len, DocumentModel};
use crate::sstable::table_bytes;
use crate::store::{
    flawless, is_next_seq, law_logged_write_survives_restart, log_value, logged, newer,
    store_versions, tables_faithful, uses_seq, versions_fit, FIRST_SEQ,
};
use crate::text::describes;
use crate::versions::{versions_of, Versions};
use crate::wal::{intact, record_bytes, replayed, LogEntry, Op};
use crate::{in_order, Entry};

verus! {

/// One operation on an engine.
pub enum Step {
    Upsert(u64, DocumentModel),
    Delete(u64),
    Flush(TableFile, Seq<Entry>),
    Compact(TableFile),
    Reopen,
}

/// What an engine has on its disk, and the sequence number of its next write.
pub struct Disk {
    pub tables: Seq<TableFile>,
    pub log: Seq<u8>,
    pub next_seq: u64,
}

/// The unflushed versions.
pub open spec fn unflushed(d: Disk) -> Versions {
    logged(replayed(d.log, 0))
}

/// All versions.
pub open spec fn held(d: Disk) -> Versions {
    store_versions(unflushed(d), d.tables)
}

/// An empty directory.
pub open spec fn empty_disk() -> Disk {
    Disk { tables: Seq::empty(), log: Seq::empty(), next_seq: FIRST_SEQ }
}

/// What holds of a disk before and after every operation.
pub open spec fn sound_disk(d: Disk) -> bool {
    &&& flawless(d.tables)
    &&& tables_faithful(d.tables)
    &&& intact(d.log)
    &&& versions_fit(unflushed(d))
    &&& newer(unflushed(d), all_versions(input_lists(d.tables)))
    &&& d.next_seq >= FIRST_SEQ
    &&& forall|s: u64| #[trigger] uses_seq(held(d), s) ==> s < d.next_seq
    &&& all_documents(held(d))
}

/// The log record of an upsert.
pub open spec fn upsert_entry(seq: u64, id: u64, d: DocumentModel) -> LogEntry {
    LogEntry { seq, op: Op::Put, key: be_bytes(id), val: document_bytes(d) }
}

/// The log record of a delete.
pub open spec fn delete_entry(seq: u64, id: u64) -> LogEntry {
    LogEntry { seq, op: Op::Delete, key: be_bytes(id), val: Seq::empty() }
}

/// Whether `b` is the disk `a` with one more record in its log.
pub open spec fn is_append(a: Disk, e: LogEntry, b: Disk) -> bool {
    &&& a.next_seq < u64::MAX
    &&& b.tables == a.tables
    &&& b.log == a.log + record_bytes(e)
    &&& b.next_seq == a.next_seq + 1
}

/// Whether the operation `s` leads from the disk `a` to the disk `b`.
pub open spec fn is_step(a: Disk, s: Step, b: Disk) -> bool {
    match s {
        Step::Upsert(id, d) => document_bytes(d).len() < LEN_LIMIT && is_append(
            a,
            upsert_entry(a.next_seq, id, d),
            b,
        ),
        Step::Delete(id) => is_append(a, delete_entry(a.next_seq, id), b),
        Step::Flush(table, es) => {
            &&& in_order(es)
            &&& versions_of(es) == unflushed(a)
            &&& ENTRY_OVERHEAD * es.len() <= usize::MAX
            &&& table.bytes@ == table_bytes(es, es.len())
            &&& b.tables == seq![table] + a.tables
            &&& b.log == Seq::<u8>::empty()
            &&& b.next_seq == a.next_seq
        },
        Step::Compact(table) => {
            &&& expected_entries(a.tables) * BITS_PER_KEY <= usize::MAX
            &&& table.bytes@ == table_bytes(compacted(a.tables, true), expected_entries(a.tables))
            &&& b.tables == seq![table]
            &&& b.log == a.log
            &&& b.next_seq == a.next_seq
        },
        Step::Reopen => {
            &&& b.tables == a.tables
            &&& b.log == a.log
            &&& is_next_seq(held(a), b.next_seq)
        },
    }
}

/// Whether `disks` are the disks before, between and after `steps`.
pub open spec fn is_run(disks: Seq<Disk>, steps: Seq<Step>) -> bool {
    &&& disks.len() == steps.len() + 1
    &&& forall|i: int|
        0 <= i < steps.len() ==> is_step(disks[i], #[trigger] steps[i], disks[i + 1])
}

/// The documents after one more operation.
pub open spec fn after_step(docs: Map<u64, DocumentModel>, s: Step) -> Map<u64, DocumentModel> {
    match s {
        Step::Upsert(id, d) => docs.insert(id, d),
        Step::Delete(id) => docs.remove(id),
        _ => docs,
    }
}

/// The documents after `steps`: those that were upserted and not deleted since,
/// each as it was upserted last.
pub open spec fn after(docs: Map<u64, DocumentModel>, steps: Seq<Step>) -> Map<u64, DocumentModel>
    decreases steps.len(),
{
    if steps.len() == 0 {
        docs
    } else {
        after_step(after(docs, steps.drop_last()), steps.last())
    }
}

/// An empty directory is sound and holds no document.
pub proof fn law_empty_disk_is_sound()
    ensures
        sound_disk(empty_disk()),
        documents_in(held(empty_disk())) == Map::<u64, DocumentModel>::empty(),
        held(empty_disk()) == Map::<(Seq<u8>, u64), Option<Seq<u8>>>::empty(),
{
    let d = empty_disk();
    assert(unflushed(d) =~= Map::<(Seq<u8>, u64), Option<Seq<u8>>>::empty());
    assert(input_lists(d.tables) =~= Seq::<Seq<Entry>>::empty());
    assert(held(d) =~= Map::<(Seq<u8>, u64), Option<Seq<u8>>>::empty());
    assert(layered(input_lists(d.tables)));
    law_nothing_stored_no_documents();
}

proof fn lemma_append_is_sound(a: Disk, e: LogEntry, b: Disk)
    requires
        sound_disk(a),
        is_append(a, e, b),
        e.seq == a.next_seq,
        e.key.len() < LEN_LIMIT,
        e.val.len() < LEN_LIMIT,
    ensures
        flawless(b.tables),
        tables_faithful(b.tables),
        intact(b.log),
        versions_fit(unflushed(b)),
        newer(unflushed(b), all_versions(input_lists(b.tables))),
        forall|s: u64| #[trigger] uses_seq(held(b), s) ==> s < b.next_seq,
        held(b) == held(a).insert((e.key, e.seq), log_value(e)),
{
    law_logged_write_survives_restart(a.log, e);
    lemma_version_added(unflushed(a), a.tables, e.key, e.seq, log_value(e));
}

/// Every operation keeps a disk sound and changes the documents as it should:
/// an upsert and a delete change one of them, and no other operation any.
pub proof fn law_step_keeps_documents(a: Disk, s: Step, b: Disk)
    requires
        sound_disk(a),
        is_step(a, s, b),
    ensures
        sound_disk(b),
        documents_in(held(b)) == after_step(documents_in(held(a)), s),
{
    match s {
        Step::Upsert(id, d) => {
            lemma_le_bytes_len(id as nat, 8);
            lemma_append_is_sound(a, upsert_entry(a.next_seq, id, d), b);
            lemma_document_len(d);
            law_stored_document_is_read_back(held(a), id, a.next_seq, d);
        },
        Step::Delete(id) => {
            lemma_le_bytes_len(id as nat, 8);
            lemma_append_is_sound(a, delete_entry(a.next_seq, id), b);
            law_deleted_document_is_gone(held(a), id, a.next_seq);
        },
        Step::Flush(table, es) => {
            assert(table.bytes.len() == table.bytes@.len());
            lemma_flush(es, table, a.tables);
            assert(unflushed(b) =~= Map::<(Seq<u8>, u64), Option<Seq<u8>>>::empty());
        },
        Step::Compact(table) => {
            assert(table.bytes.len() == table.bytes@.len());
            lemma_compaction(unflushed(a), a.tables, table, a.next_seq);
            law_same_reads_same_documents(held(b), held(a));
        },
        Step::Reopen => {},
    }
}

/// Whatever run of operations leads from one disk to another, the documents are
/// those that were upserted and not deleted since, each as it was upserted last.
pub proof fn law_run_keeps_documents(disks: Seq<Disk>, steps: Seq<Step>)
    requires
        is_run(disks, steps),
        sound_disk(disks[0]),
    ensures
        sound_disk(disks.last()),
        documents_in(held(disks.last())) == after(documents_in(held(disks[0])), steps),
    decreases steps.len(),
{
    if steps.len() > 0 {
        let n = steps.len() - 1;
        let fewer = steps.drop_last();
        let before = disks.drop_last();
        assert forall|i: int| 0 <= i < fewer.len() implies is_step(
            before[i],
            #[trigger] fewer[i],
            before[i + 1],
        ) by {
            assert(is_step(disks[i], steps[i], disks[i + 1]));
        }
        law_run_keeps_documents(before, fewer);
        assert(is_step(disks[n], steps[n], disks[n + 1]));
        law_step_keeps_documents(disks[n], steps[n], disks[n + 1]);
    }
}

/// Whether every upsert of `steps` has a vector of `dim` components.
pub open spec fn upserts_of_width(steps: Seq<Step>, dim: usize) -> bool {
    forall|i: int|
        0 <= i < steps.len() ==> match #[trigger] steps[i] {
            Step::Upsert(_, d) => d.vector.len() == dim,
            _ => true,
        }
}

proof fn lemma_widths(docs: Map<u64, DocumentModel>, steps: Seq<Step>, dim: usize)
    requires
        all_of_width(docs, dim),
        upserts_of_width(steps, dim),
    ensures
        all_of_width(after(docs, steps), dim),
    decreases steps.len(),
{
    if steps.len() > 0 {
        let fewer = steps.drop_last();
        assert forall|i: int| 0 <= i < fewer.len() implies match #[trigger] fewer[i] {
            Step::Upsert(_, d) => d.vector.len() == dim,
            _ => true,
        } by {
            assert(fewer[i] == steps[i]);
        }
        lemma_widths(docs, fewer, dim);
        let was = after(docs, fewer);
        let s = steps[steps.len() - 1];
        assert forall|id: u64| #[trigger] after(docs, steps).contains_key(id) implies after(
            docs,
            steps,
        )[id].vector.len() == dim by {
            if was.contains_key(id) {
                assert(was[id].vector.len() == dim);
            }
        }
    }
}

/// After any run of operations on an empty directory, all upserts being of one
/// width, an engine of that width can be opened over what is on the disk.
pub proof fn law_engine_reopens(disks: Seq<Disk>, steps: Seq<Step>, dim: usize)
    requires
        is_run(disks, steps),
        disks[0] == empty_disk(),
        upserts_of_width(steps, dim),
    ensures
        flawless(disks.last().tables),
        can_serve(held(disks.last()), dim),
{
    law_empty_disk_is_sound();
    law_run_keeps_documents(disks, steps);
    lemma_widths(Map::empty(), steps, dim);
}

/// An engine that was opened over what a run of operations on an empty directory
/// left holds the documents that were upserted and not deleted since: as many,
/// under each id the vector and the terms of the last upsert, and its blob; and
/// there is no blob for any other id.
pub proof fn law_reopened_engine_has_what_was_stored(
    e: Engine,
    disks: Seq<Disk>,
    steps: Seq<Step>,
)
    requires
        is_run(disks, steps),
        disks[0] == empty_disk(),
        e.well_formed(),
        e.in_step(),
        e.docs().tables() == disks.last().tables,
        e.docs().mem() == unflushed(disks.last()),
    ensures
        ({
            let docs = after(Map::<u64, DocumentModel>::empty(), steps);
            &&& documents_in(e.docs()@) == docs
            &&& docs.dom().finite()
            &&& e.vectors().len() == docs.dom().len()
            &&& by_id(e.vectors()) == vectors_in(docs)
            &&& describes(e.text(), terms_in(docs))
            &&& e.docs().faithful()
            &&& forall|id: u64, r: Result<Option<Seq<u8>>, EngineFault>| #[trigger]
                is_blob(e.docs(), id, r) ==> r == Ok::<Option<Seq<u8>>, EngineFault>(
                    if docs.contains_key(id) {
                        Some(docs[id].blob)
                    } else {
                        None
                    },
                )
        }),
{
    law_empty_disk_is_sound();
    law_run_keeps_documents(disks, steps);
    let docs = after(Map::<u64, DocumentModel>::empty(), steps);
    e.lemma_parts();
    law_len_counts_documents(e.vectors(), e.text(), docs);
    assert forall|id: u64, r: Result<Option<Seq<u8>>, EngineFault>| #[trigger]
        is_blob(e.docs(), id, r) implies r == Ok::<Option<Seq<u8>>, EngineFault>(
        if docs.contains_key(id) {
            Some(docs[id].blob)
        } else {
            None
        },
    ) by {
        law_blob_is_the_stored_one(e.docs(), id, r);
        if !docs.contains_key(id) {
            assert(record_of(e.docs()@, id) is None);
        }
    }
}

} // verus!
