//! Compaction: merges tables into one in a single pass over their sorted
//! entries.
//!
//! The order of versions is the merge order, and it brings the newest version
//! of a key first. So the versions that it shadows are those that come right
//! behind it, and dropping them takes no second pass.

use vstd::prelude::*;
use crate::bloom::BITS_PER_KEY;
use crate::order::{bytes_equal, Order};
use crate::sstable::{
    footer_error, footer_field, index_readable, is_lookup, records_from, table_answers, table_bytes,
    table_of, SSTable, SSTableIter, SSTableMeta, SSTableWriter, TableError, FOOTER_MAGIC,
    FOOTER_SIZE,
};
use crate::versions::{lemma_before_total, lemma_before_trans};
use crate::{entry_before, entry_of, Entry, InternalKey, SeqNo, Value};

verus! {

/// How many tables may gather before they are compacted.
pub const COMPACTION_TRIGGER: usize = 4;

pub fn should_compact(file_count: usize) -> (r: bool)
    ensures
        r == (file_count >= COMPACTION_TRIGGER),
{
    file_count >= COMPACTION_TRIGGER
}

/// A table: what the engine keeps of it, and its file.
pub struct TableFile {
    pub meta: SSTableMeta,
    pub bytes: Vec<u8>,
}

/// Why the records of a file cannot be read from front to back, if they cannot
/// even be started on.
pub open spec fn open_error(file: Seq<u8>) -> Option<TableError> {
    if file.len() < FOOTER_SIZE {
        Some(TableError::TooSmall)
    } else if footer_field(file, 6) != FOOTER_MAGIC {
        Some(TableError::BadMagic)
    } else {
        None
    }
}

/// The entries of a file, and the error that ends them early, if there is one.
pub open spec fn file_records(file: Seq<u8>) -> (Seq<Entry>, Option<TableError>) {
    records_from(file, 0, footer_field(file, 0) as int)
}

/// The entries of each input.
pub open spec fn input_lists(inputs: Seq<TableFile>) -> Seq<Seq<Entry>> {
    inputs.map_values(|t: TableFile| file_records(t.bytes@).0)
}

/// How many entries the inputs are said to hold.
pub open spec fn expected_entries(inputs: Seq<TableFile>) -> nat
    decreases inputs.len(),
{
    if inputs.len() == 0 {
        0
    } else {
        expected_entries(inputs.drop_last()) + inputs.last().meta.entry_count as nat
    }
}

/// How many entries the lists hold together.
pub open spec fn total_len(lists: Seq<Seq<Entry>>) -> nat
    decreases lists.len(),
{
    if lists.len() == 0 {
        0
    } else {
        total_len(lists.drop_last()) + lists.last().len()
    }
}

/// Whether the first entry of list `i` is the next to come in a merge: no list
/// has an entry to come before it, and where another list has the same version
/// to come, `i` is the earlier list.
pub open spec fn is_next(lists: Seq<Seq<Entry>>, i: int) -> bool {
    &&& 0 <= i < lists.len()
    &&& lists[i].len() > 0
    &&& forall|j: int|
        0 <= j < lists.len() && j != i && (#[trigger] lists[j]).len() > 0 ==> entry_before(
            lists[i][0],
            lists[j][0],
        ) || (!entry_before(lists[j][0], lists[i][0]) && i < j)
}

/// The lists after the first entry of list `i` was taken.
pub open spec fn taken(lists: Seq<Seq<Entry>>, i: int) -> Seq<Seq<Entry>> {
    lists.update(i, lists[i].skip(1))
}

/// The lists merged into one.
pub open spec fn merged(lists: Seq<Seq<Entry>>) -> Seq<Entry>
    decreases total_len(lists),
{
    if exists|i: int| is_next(lists, i) {
        let i = choose|i: int| is_next(lists, i);
        proof {
            lemma_total_len_taken(lists, i);
        }
        seq![lists[i][0]] + merged(taken(lists, i))
    } else {
        Seq::empty()
    }
}

/// What a merge keeps of its entries: of each run of versions of one key only
/// the first, and no tombstone if nothing older can lie below.
pub open spec fn survivors(entries: Seq<Entry>, is_last_level: bool) -> Seq<Entry>
    decreases entries.len(),
{
    if entries.len() == 0 {
        Seq::empty()
    } else {
        let before = entries.drop_last();
        let e = entries.last();
        if before.len() > 0 && before.last().key == e.key {
            survivors(before, is_last_level)
        } else if is_last_level && e.val is None {
            survivors(before, is_last_level)
        } else {
            survivors(before, is_last_level).push(e)
        }
    }
}

/// The entries of the table that the inputs are compacted into.
pub open spec fn compacted(inputs: Seq<TableFile>, is_last_level: bool) -> Seq<Entry> {
    survivors(merged(input_lists(inputs)), is_last_level)
}

pub proof fn lemma_total_len_taken(lists: Seq<Seq<Entry>>, i: int)
    requires
        0 <= i < lists.len(),
        lists[i].len() > 0,
    ensures
        total_len(taken(lists, i)) + 1 == total_len(lists),
    decreases lists.len(),
{
    let now = taken(lists, i);
    if i == lists.len() - 1 {
        assert(now.drop_last() =~= lists.drop_last());
    } else {
        lemma_total_len_taken(lists.drop_last(), i);
        assert(now.drop_last() =~= taken(lists.drop_last(), i));
    }
}

/// Only one entry is the next to come.
pub proof fn lemma_next_unique(lists: Seq<Seq<Entry>>, i: int, j: int)
    requires
        is_next(lists, i),
        is_next(lists, j),
    ensures
        i == j,
{
    if i != j {
        lemma_before_total(lists[i][0], lists[j][0]);
        assert(lists[i].len() > 0 && lists[j].len() > 0);
    }
}

/// Merging goes on with the entry that is the next to come.
pub proof fn lemma_merged_step(lists: Seq<Seq<Entry>>, i: int)
    requires
        is_next(lists, i),
    ensures
        merged(lists) == seq![lists[i][0]] + merged(taken(lists, i)),
{
    let c = choose|c: int| is_next(lists, c);
    lemma_next_unique(lists, i, c);
}

/// What is still to come of an input: the entry that was read ahead, and what
/// its iterator has left.
spec fn pending(head: Option<(InternalKey, Value)>, it: SSTableIter) -> Seq<Entry> {
    match head {
        Some((ik, v)) => seq![entry_of(ik, v)] + it.rest().0,
        None => Seq::empty(),
    }
}

spec fn all_pending(heads: Seq<Option<(InternalKey, Value)>>, iters: Seq<SSTableIter>) -> Seq<
    Seq<Entry>,
> {
    Seq::new(heads.len(), |i: int| pending(heads[i], iters[i]))
}

/// The input whose entry is the next to come, if an entry is left.
fn least_head(
    heads: &Vec<Option<(InternalKey, Value)>>,
    Ghost(iters): Ghost<Seq<SSTableIter>>,
) -> (r: Option<usize>)
    requires
        heads@.len() == iters.len(),
    ensures
        match r {
            Some(i) => is_next(all_pending(heads@, iters), i as int),
            None => forall|i: int| 0 <= i < heads@.len() ==> (#[trigger] heads@[i]) is None,
        },
{
    let ghost lists = all_pending(heads@, iters);
    let mut best: Option<usize> = None;
    let mut i: usize = 0;
    while i < heads.len()
        invariant
            i <= heads@.len(),
            heads@.len() == iters.len(),
            lists == all_pending(heads@, iters),
            match best {
                Some(b) => b < i && heads@[b as int] is Some && forall|j: int|
                    0 <= j < i && j != b && (#[trigger] lists[j]).len() > 0 ==> entry_before(
                        lists[b as int][0],
                        lists[j][0],
                    ) || (!entry_before(lists[j][0], lists[b as int][0]) && b < j),
                None => forall|j: int| 0 <= j < i ==> (#[trigger] heads@[j]) is None,
            },
        decreases heads@.len() - i,
    {
        match &heads[i] {
            Some(candidate) => {
                match best {
                    Some(b) => {
                        let ghost e = entry_of(candidate.0, candidate.1);
                        if let Some(current) = &heads[b] {
                            proof {
                                assert(lists[b as int][0] == entry_of(current.0, current.1));
                                assert(lists[i as int][0] == e);
                                lemma_before_total(lists[b as int][0], e);
                            }
                            match candidate.0.order(&current.0) {
                                Order::Less => {
                                    proof {
                                        assert forall|j: int|
                                            0 <= j < i + 1 && j != i && (#[trigger] lists[j]).len()
                                                > 0 implies entry_before(e, lists[j][0]) || (
                                        !entry_before(lists[j][0], e) && i < j) by {
                                            if j != b {
                                                if entry_before(lists[b as int][0], lists[j][0]) {
                                                    lemma_before_trans(
                                                        e,
                                                        lists[b as int][0],
                                                        lists[j][0],
                                                    );
                                                } else {
                                                    lemma_before_total(
                                                        lists[b as int][0],
                                                        lists[j][0],
                                                    );
                                                }
                                            }
                                        }
                                    }
                                    best = Some(i);
                                },
                                _ => {},
                            }
                        }
                    },
                    None => {
                        proof {
                            assert forall|j: int|
                                0 <= j < i + 1 && j != i && (#[trigger] lists[j]).len()
                                    > 0 implies false by {
                                assert(heads@[j] is None);
                            }
                        }
                        best = Some(i);
                    },
                }
            },
            None => {
                assert(lists[i as int].len() == 0);
            },
        }
        i = i + 1;
    }
    proof {
        if let Some(b) = best {
            assert(is_next(lists, b as int));
        }
    }
    best
}

/// Opens each input for reading from front to back.
fn open_inputs<'a>(inputs: &'a Vec<TableFile>) -> (r: Result<Vec<SSTableIter<'a>>, TableError>)
    ensures
        match r {
            Ok(iters) => iters@.len() == inputs@.len() && forall|i: int|
                0 <= i < inputs@.len() ==> {
                    &&& open_error((#[trigger] inputs@[i]).bytes@) is None
                    &&& iters@[i].file() == inputs@[i].bytes@
                    &&& iters@[i].rest() == file_records(inputs@[i].bytes@)
                },
            Err(e) => exists|i: int| #[trigger] is_first_open_error(inputs@, i, e),
        },
{
    let mut iters: Vec<SSTableIter<'a>> = Vec::new();
    let mut i: usize = 0;
    while i < inputs.len()
        invariant
            i <= inputs@.len(),
            iters@.len() == i,
            forall|j: int|
                0 <= j < i ==> {
                    &&& open_error((#[trigger] inputs@[j]).bytes@) is None
                    &&& iters@[j].file() == inputs@[j].bytes@
                    &&& iters@[j].rest() == file_records(inputs@[j].bytes@)
                },
        decreases inputs@.len() - i,
    {
        match SSTableIter::open(inputs[i].bytes.as_slice()) {
            Ok(it) => {
                iters.push(it);
            },
            Err(e) => {
                assert(is_first_open_error(inputs@, i as int, e));
                return Err(e);
            },
        }
        i = i + 1;
    }
    Ok(iters)
}

/// Whether `e` is the error of the first input that cannot be opened, `i`.
pub open spec fn is_first_open_error(inputs: Seq<TableFile>, i: int, e: TableError) -> bool {
    &&& 0 <= i < inputs.len()
    &&& open_error(inputs[i].bytes@) == Some(e)
    &&& forall|j: int| 0 <= j < i ==> open_error((#[trigger] inputs[j]).bytes@) is None
}

/// Whether all inputs open and `e` ends the records of one of them early.
pub open spec fn is_record_error(inputs: Seq<TableFile>, i: int, e: TableError) -> bool {
    &&& 0 <= i < inputs.len()
    &&& file_records(inputs[i].bytes@).1 == Some(e)
    &&& forall|j: int| 0 <= j < inputs.len() ==> open_error((#[trigger] inputs[j]).bytes@) is None
}

/// Whether every input opens and can be read to its end.
pub open spec fn all_readable(inputs: Seq<TableFile>) -> bool {
    forall|i: int|
        0 <= i < inputs.len() ==> open_error((#[trigger] inputs[i]).bytes@) is None && file_records(
            inputs[i].bytes@,
        ).1 is None
}

/// Reads the first entry of each input ahead.
fn first_heads<'a>(
    inputs: &Vec<TableFile>,
    iters: &mut Vec<SSTableIter<'a>>,
) -> (r: Result<Vec<Option<(InternalKey, Value)>>, TableError>)
    requires
        old(iters)@.len() == inputs@.len(),
        forall|i: int|
            0 <= i < inputs@.len() ==> {
                &&& open_error((#[trigger] inputs@[i]).bytes@) is None
                &&& old(iters)@[i].rest() == file_records(inputs@[i].bytes@)
            },
    ensures
        final(iters)@.len() == inputs@.len(),
        match r {
            Ok(heads) => {
                &&& heads@.len() == inputs@.len()
                &&& all_pending(heads@, final(iters)@) == input_lists(inputs@)
                &&& heads_agree(inputs@, heads@, final(iters)@)
            },
            Err(e) => exists|i: int| #[trigger] is_record_error(inputs@, i, e),
        },
{
    let mut heads: Vec<Option<(InternalKey, Value)>> = Vec::new();
    let mut i: usize = 0;
    while i < iters.len()
        invariant
            i <= iters@.len() == inputs@.len(),
            heads@.len() == i,
            forall|j: int|
                0 <= j < inputs@.len() ==> open_error((#[trigger] inputs@[j]).bytes@) is None,
            forall|j: int|
                i <= j < inputs@.len() ==> iters@[j].rest() == file_records(
                    (#[trigger] inputs@[j]).bytes@,
                ),
            forall|j: int|
                0 <= j < i ==> pending(heads@[j], iters@[j]) == file_records(
                    (#[trigger] inputs@[j]).bytes@,
                ).0,
            forall|j: int|
                0 <= j < i ==> #[trigger] head_agrees(inputs@, heads@, iters@, j),
        decreases iters@.len() - i,
    {
        let ghost before = iters@;
        let ghost heads_before = heads@;
        let next: Option<Result<(InternalKey, Value), TableError>> = iters[i].next();
        proof {
            assert(inputs@[i as int].bytes@ == inputs@[i as int].bytes@);
        }
        match next {
            Some(Ok((ik, v))) => {
                heads.push(Some((ik, v)));
                proof {
                    let all = before[i as int].rest().0;
                    assert(seq![all[0]] + all.skip(1) =~= all);
                }
            },
            Some(Err(e)) => {
                assert(is_record_error(inputs@, i as int, e));
                return Err(e);
            },
            None => {
                heads.push(None);
            },
        }
        proof {
            assert(head_agrees(inputs@, heads@, iters@, i as int));
            assert forall|j: int| 0 <= j < i implies #[trigger] head_agrees(
                inputs@,
                heads@,
                iters@,
                j,
            ) by {
                assert(head_agrees(inputs@, heads_before, before, j));
            }
        }
        i = i + 1;
    }
    assert(all_pending(heads@, iters@) =~= input_lists(inputs@));
    Ok(heads)
}

/// Whether input `j` fails to be read to its end exactly if what is left of it
/// does, and has nothing left if no entry of it was read ahead.
spec fn head_agrees(
    inputs: Seq<TableFile>,
    heads: Seq<Option<(InternalKey, Value)>>,
    iters: Seq<SSTableIter>,
    j: int,
) -> bool {
    &&& iters[j].rest().1 == file_records(inputs[j].bytes@).1
    &&& heads[j] is None ==> iters[j].rest() == (Seq::<Entry>::empty(), None::<TableError>)
}

spec fn heads_agree(
    inputs: Seq<TableFile>,
    heads: Seq<Option<(InternalKey, Value)>>,
    iters: Seq<SSTableIter>,
) -> bool {
    forall|j: int| 0 <= j < inputs.len() ==> #[trigger] head_agrees(inputs, heads, iters, j)
}

/// The sum of the inputs' entry counts.
fn sum_entry_counts(inputs: &Vec<TableFile>) -> (r: u64)
    requires
        expected_entries(inputs@) <= u64::MAX,
    ensures
        r == expected_entries(inputs@),
{
    let mut sum: u64 = 0;
    let mut i: usize = 0;
    assert(inputs@.take(0) =~= Seq::<TableFile>::empty());
    while i < inputs.len()
        invariant
            i <= inputs@.len(),
            sum == expected_entries(inputs@.take(i as int)),
            expected_entries(inputs@) <= u64::MAX,
        decreases inputs@.len() - i,
    {
        proof {
            let next = inputs@.take(i + 1);
            assert(next.drop_last() =~= inputs@.take(i as int));
            lemma_expected_grows(inputs@, i + 1);
        }
        sum = sum + inputs[i].meta.entry_count;
        i = i + 1;
    }
    assert(inputs@.take(i as int) =~= inputs@);
    sum
}

/// The sum of the inputs' entry counts, or `None` if it does not fit.
pub fn sum_entry_counts_checked(inputs: &Vec<TableFile>) -> (r: Option<u64>)
    ensures
        match r {
            Some(n) => n == expected_entries(inputs@),
            None => expected_entries(inputs@) > u64::MAX,
        },
{
    let mut sum: u64 = 0;
    let mut i: usize = 0;
    assert(inputs@.take(0) =~= Seq::<TableFile>::empty());
    while i < inputs.len()
        invariant
            i <= inputs@.len(),
            sum == expected_entries(inputs@.take(i as int)),
        decreases inputs@.len() - i,
    {
        proof {
            let next = inputs@.take(i + 1);
            assert(next.drop_last() =~= inputs@.take(i as int));
            lemma_expected_grows(inputs@, i + 1);
        }
        match sum.checked_add(inputs[i].meta.entry_count) {
            Some(n) => {
                sum = n;
            },
            None => {
                return None;
            },
        }
        i = i + 1;
    }
    assert(inputs@.take(i as int) =~= inputs@);
    Some(sum)
}

proof fn lemma_expected_grows(inputs: Seq<TableFile>, i: int)
    requires
        0 <= i <= inputs.len(),
    ensures
        expected_entries(inputs.take(i)) <= expected_entries(inputs),
    decreases inputs.len() - i,
{
    if i < inputs.len() {
        lemma_expected_grows(inputs, i + 1);
        assert(inputs.take(i + 1).drop_last() =~= inputs.take(i));
    } else {
        assert(inputs.take(i) =~= inputs);
    }
}

/// Merges `inputs` into a single table at `output_path`; the earlier of two
/// inputs wins where both hold the same version.
///
/// With `is_last_level` tombstones are dropped once they have shadowed the
/// older versions in this merge: nothing further down could come back. Without
/// it they are kept, so that a version in a table that is not merged stays
/// shadowed.
///
/// The caller writes the file beside its final place, syncs it, renames it into
/// place, and only then removes the inputs.
pub fn compact(
    inputs: &Vec<TableFile>,
    output_path: String,
    is_last_level: bool,
) -> (r: Result<TableFile, TableError>)
    requires
        expected_entries(inputs@) * BITS_PER_KEY <= usize::MAX,
    ensures
        match r {
            Ok(t) => {
                let es = compacted(inputs@, is_last_level);
                &&& all_readable(inputs@)
                &&& t.bytes@ == table_bytes(es, expected_entries(inputs@))
                &&& t.meta.path@ == output_path@
                &&& t.meta.entry_count == es.len()
                &&& t.meta.min_key@ == (if es.len() > 0 { es[0].key } else { Seq::empty() })
                &&& t.meta.max_key@ == (if es.len() > 0 { es.last().key } else { Seq::empty() })
            },
            Err(e) => (exists|i: int| #[trigger] is_first_open_error(inputs@, i, e)) || (exists|
                i: int,
            | #[trigger] is_record_error(inputs@, i, e)),
        },
{
    let mut iters: Vec<SSTableIter> = open_inputs(inputs)?;
    let mut heads: Vec<Option<(InternalKey, Value)>> = first_heads(inputs, &mut iters)?;
    let expected: u64 = sum_entry_counts(inputs);
    let mut writer = SSTableWriter::create(output_path, expected as usize);
    let mut last_key: Option<Vec<u8>> = None;
    let ghost all = merged(input_lists(inputs@));
    let ghost mut done: Seq<Entry> = Seq::empty();
    assert(done + merged(all_pending(heads@, iters@)) =~= all);
    loop
        invariant
            heads@.len() == inputs@.len(),
            iters@.len() == inputs@.len(),
            forall|j: int|
                0 <= j < inputs@.len() ==> open_error((#[trigger] inputs@[j]).bytes@) is None,
            heads_agree(inputs@, heads@, iters@),
            all == merged(input_lists(inputs@)),
            done + merged(all_pending(heads@, iters@)) == all,
            writer.well_formed(),
            writer.entries() == survivors(done, is_last_level),
            writer.expected() == expected_entries(inputs@),
            writer.path() == output_path@,
            match last_key {
                Some(k) => done.len() > 0 && k@ == done.last().key,
                None => done.len() == 0,
            },
        decreases total_len(all_pending(heads@, iters@)),
    {
        match least_head(&heads, Ghost(iters@)) {
            None => {
                proof {
                    let lists = all_pending(heads@, iters@);
                    assert forall|i: int| !is_next(lists, i) by {
                        if is_next(lists, i) {
                            assert(heads@[i] is None);
                        }
                    }
                    assert(done + merged(lists) =~= done);
                    assert forall|i: int| 0 <= i < inputs@.len() implies open_error(
                        (#[trigger] inputs@[i]).bytes@,
                    ) is None && file_records(inputs@[i].bytes@).1 is None by {
                        assert(head_agrees(inputs@, heads@, iters@, i));
                        assert(heads@[i] is None);
                    }
                }
                let (meta, bytes) = writer.finish();
                return Ok(TableFile { meta, bytes });
            },
            Some(idx) => {
                let ghost lists = all_pending(heads@, iters@);
                let ghost heads_before = heads@;
                let ghost iters_before = iters@;
                assert(head_agrees(inputs@, heads@, iters@, idx as int));
                let next: Option<Result<(InternalKey, Value), TableError>> = iters[idx].next();
                let refill: Option<(InternalKey, Value)> = match next {
                    Some(Ok(item)) => Some(item),
                    Some(Err(e)) => {
                        assert(is_record_error(inputs@, idx as int, e));
                        return Err(e);
                    },
                    None => None,
                };
                let mut slot: Option<(InternalKey, Value)> = refill;
                let ghost refilled = slot;
                std::mem::swap(&mut slot, &mut heads[idx]);
                proof {
                    lemma_merged_step(lists, idx as int);
                    lemma_total_len_taken(lists, idx as int);
                    let rest = iters_before[idx as int].rest().0;
                    assert(lists[idx as int].skip(1) =~= rest);
                    if rest.len() > 0 {
                        assert(seq![rest[0]] + rest.skip(1) =~= rest);
                    }
                    assert(heads@ =~= heads_before.update(idx as int, refilled));
                    assert(pending(heads@[idx as int], iters@[idx as int]) =~= rest);
                    assert(all_pending(heads@, iters@) =~= taken(lists, idx as int));
                    assert forall|j: int| 0 <= j < inputs@.len() implies #[trigger] head_agrees(
                        inputs@,
                        heads@,
                        iters@,
                        j,
                    ) by {
                        assert(head_agrees(inputs@, heads_before, iters_before, j));
                    }
                }
                if let Some((ik, value)) = slot {
                    let ghost e = entry_of(ik, value);
                    let ghost now = done.push(e);
                    proof {
                        assert(now.drop_last() =~= done);
                        assert(now + merged(taken(lists, idx as int)) =~= done + merged(lists));
                    }
                    let shadowed: bool = match &last_key {
                        Some(k) => bytes_equal(k.as_slice(), ik.user_key.as_slice()),
                        None => false,
                    };
                    if !shadowed {
                        let dropped: bool = is_last_level && match &value {
                            Value::Delete => true,
                            Value::Put(_) => false,
                        };
                        if !dropped {
                            writer.add(&ik, &value);
                        }
                        last_key = Some(ik.user_key);
                    }
                    proof {
                        done = now;
                    }
                }
            },
        }
    }
}

/// Whether a lookup of `key` may go on to tier `i`: the tiers before it open
/// and have nothing to say of the key.
pub open spec fn reaches_tier(tiers: Seq<TableFile>, key: Seq<u8>, as_of: u64, i: int) -> bool {
    forall|j: int|
        0 <= j < i ==> footer_error((#[trigger] tiers[j]).bytes@) is None && tier_answers(
            tiers[j],
            key,
            as_of,
            Ok(None),
        )
}

/// Whether `r` is what a lookup of `key` in `tier` returns once it is open.
pub open spec fn tier_answers(
    tier: TableFile,
    key: Seq<u8>,
    as_of: u64,
    r: Result<Option<Option<Seq<u8>>>, TableError>,
) -> bool {
    is_lookup(table_of(tier.meta.path@, tier.bytes@), tier.bytes@, key, as_of, r)
}

/// Whether `tier` can be asked for `key`: its index can be read, and its filter
/// answers.
pub open spec fn tier_usable(tier: TableFile, key: Seq<u8>) -> bool {
    &&& index_readable(tier.bytes@)
    &&& footer_error(tier.bytes@) is None ==> table_answers(
        table_of(tier.meta.path@, tier.bytes@),
        key,
    )
}

/// Whether `r` is what asking the tiers in turn for `key` returns.
pub open spec fn is_tiers_lookup(
    tiers: Seq<TableFile>,
    key: Seq<u8>,
    as_of: u64,
    r: Result<Option<Option<Seq<u8>>>, TableError>,
) -> bool {
    match r {
        Ok(Some(v)) => exists|i: int|
            #![trigger tiers[i]]
            0 <= i < tiers.len() && reaches_tier(tiers, key, as_of, i) && footer_error(
                tiers[i].bytes@,
            ) is None && tier_answers(tiers[i], key, as_of, Ok(Some(v))),
        Ok(None) => reaches_tier(tiers, key, as_of, tiers.len() as int),
        Err(e) => exists|i: int|
            #![trigger tiers[i]]
            0 <= i < tiers.len() && reaches_tier(tiers, key, as_of, i) && (footer_error(
                tiers[i].bytes@,
            ) == Some(e) || (footer_error(tiers[i].bytes@) is None && tier_answers(
                tiers[i],
                key,
                as_of,
                Err(e),
            ))),
    }
}

/// What a lookup returns, as contracts speak of it.
pub open spec fn found_view(r: Result<Option<Value>, TableError>) -> Result<
    Option<Option<Seq<u8>>>,
    TableError,
> {
    match r {
        Ok(Some(v)) => Ok(Some(v@)),
        Ok(None) => Ok(None),
        Err(e) => Err(e),
    }
}

/// A copy of a string.
pub(crate) fn copy_string(s: &String) -> (r: String)
    ensures
        r@ == s@,
{
    s.clone()
}

/// Looks `key` up in tables from the newest to the oldest and stops at the first
/// one that has an answer, be it a tombstone.
pub fn lookup_in_tiers(tiers: &Vec<TableFile>, key: &[u8], as_of: SeqNo) -> (r: Result<
    Option<Value>,
    TableError,
>)
    requires
        forall|i: int|
            0 <= i < tiers@.len() && reaches_tier(tiers@, key@, as_of, i) ==> tier_usable(
                #[trigger] tiers@[i],
                key@,
            ),
    ensures
        is_tiers_lookup(tiers@, key@, as_of, found_view(r)),
{
    let mut i: usize = 0;
    while i < tiers.len()
        invariant
            i <= tiers@.len(),
            reaches_tier(tiers@, key@, as_of, i as int),
            forall|j: int|
                0 <= j < tiers@.len() && reaches_tier(tiers@, key@, as_of, j) ==> tier_usable(
                    #[trigger] tiers@[j],
                    key@,
                ),
        decreases tiers@.len() - i,
    {
        let tier: &TableFile = &tiers[i];
        assert(tier_usable(tiers@[i as int], key@));
        let table: SSTable = match SSTable::open(
            copy_string(&tier.meta.path),
            tier.bytes.as_slice(),
        ) {
            Ok(t) => t,
            Err(e) => {
                return Err(e);
            },
        };
        match table.get(tier.bytes.as_slice(), key, as_of) {
            Ok(Some(v)) => {
                return Ok(Some(v));
            },
            Ok(None) => {},
            Err(e) => {
                return Err(e);
            },
        }
        i = i + 1;
    }
    Ok(None)
}

} // verus!
