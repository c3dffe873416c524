//! What holds of merging and of reading across tables: the merge loses no
//! newest version and brings no deleted one back, and the first table that has
//! an answer has the right one.

use vstd::prelude::*;
use crate::compaction::{
    expected_entries, is_next, is_tiers_lookup, lemma_merged_step, lemma_total_len_taken, merged,
    reaches_tier, survivors, taken, tier_answers, tier_usable, total_len, TableFile,
    COMPACTION_TRIGGER,
};
use crate::order::{lemma_lex_total, lemma_lex_trans, lex_less};
use crate::sstable::{footer_error, table_bytes, TableError};
use crate::table_laws::{
    law_lookup_gives_back_what_was_written, law_written_table_opens, table_fits,
};
use crate::versions::{
    is_newest, is_version, lemma_before_total, lemma_before_trans, lemma_lookup_is,
    lemma_lookup_none, lemma_lookup_some, lemma_versions_of, lookup, versions_of, visible, Versions,
};
use crate::{entry_before, in_order, Entry};

verus! {

/// Whether each list stands in order.
pub open spec fn all_in_order(lists: Seq<Seq<Entry>>) -> bool {
    forall|i: int| 0 <= i < lists.len() ==> in_order(#[trigger] lists[i])
}

/// Whether list `i` holds the version `v`.
pub open spec fn holds(lists: Seq<Seq<Entry>>, v: (Seq<u8>, u64), i: int) -> bool {
    0 <= i < lists.len() && versions_of(lists[i]).contains_key(v)
}

/// Whether `i` is the first list that holds the version `v`.
pub open spec fn holds_first(lists: Seq<Seq<Entry>>, v: (Seq<u8>, u64), i: int) -> bool {
    holds(lists, v, i) && forall|j: int| 0 <= j < i ==> !#[trigger] holds(lists, v, j)
}

/// The versions of all lists together; where two lists hold the same version,
/// the earlier one counts.
pub open spec fn all_versions(lists: Seq<Seq<Entry>>) -> Versions {
    Map::new(
        |v: (Seq<u8>, u64)| exists|i: int| holds_first(lists, v, i),
        |v: (Seq<u8>, u64)|
            versions_of(lists[choose|i: int| holds_first(lists, v, i)])[v],
    )
}

/// What a reader sees of what a lookup found: a tombstone is nothing.
pub open spec fn live(found: Option<Option<Seq<u8>>>) -> Option<Seq<u8>> {
    match found {
        Some(val) => val,
        None => None,
    }
}

pub proof fn lemma_first_holder(lists: Seq<Seq<Entry>>, v: (Seq<u8>, u64), i: int) -> (f: int)
    requires
        holds(lists, v, i),
    ensures
        holds_first(lists, v, f),
        f <= i,
    decreases i,
{
    if holds_first(lists, v, i) {
        i
    } else {
        let j = choose|j: int| 0 <= j < i && #[trigger] holds(lists, v, j);
        lemma_first_holder(lists, v, j)
    }
}

pub proof fn lemma_all_versions(lists: Seq<Seq<Entry>>, v: (Seq<u8>, u64), i: int)
    requires
        holds_first(lists, v, i),
    ensures
        all_versions(lists).contains_key(v),
        all_versions(lists)[v] == versions_of(lists[i])[v],
{
    let c = choose|c: int| holds_first(lists, v, c);
    assert(holds_first(lists, v, c));
    if c < i {
        assert(!holds(lists, v, c));
    } else if i < c {
        assert(!holds(lists, v, i));
    }
}

/// An entry of a list in order is one of its versions.
pub proof fn lemma_entry_held(lists: Seq<Seq<Entry>>, i: int, q: int)
    requires
        all_in_order(lists),
        0 <= i < lists.len(),
        0 <= q < lists[i].len(),
    ensures
        holds(lists, (lists[i][q].key, lists[i][q].seq), i),
        versions_of(lists[i])[(lists[i][q].key, lists[i][q].seq)] == lists[i][q].val,
{
    lemma_versions_of(lists[i], q);
}

/// A version that a list holds is one of its entries.
pub proof fn lemma_held_entry(lists: Seq<Seq<Entry>>, v: (Seq<u8>, u64), i: int) -> (q: int)
    requires
        holds(lists, v, i),
    ensures
        0 <= q < lists[i].len(),
        is_version(lists[i][q], v),
{
    choose|q: int| 0 <= q < lists[i].len() && is_version(#[trigger] lists[i][q], v)
}

// ---------- the merge ----------

/// Whether no entry comes before an earlier one.
pub open spec fn ascending(entries: Seq<Entry>) -> bool {
    forall|i: int, j: int|
        0 <= i < j < entries.len() ==> !entry_before(#[trigger] entries[j], #[trigger] entries[i])
}

proof fn lemma_taken_in_order(lists: Seq<Seq<Entry>>, i: int)
    requires
        all_in_order(lists),
        0 <= i < lists.len(),
        lists[i].len() > 0,
    ensures
        all_in_order(taken(lists, i)),
{
    let now = taken(lists, i);
    assert forall|j: int| 0 <= j < now.len() implies in_order(#[trigger] now[j]) by {
        assert(in_order(lists[j]));
        assert forall|a: int, b: int| 0 <= a < b < now[j].len() implies entry_before(
            #[trigger] now[j][a],
            #[trigger] now[j][b],
        ) by {
            if j == i {
                assert(entry_before(lists[j][a + 1], lists[j][b + 1]));
            } else {
                assert(entry_before(lists[j][a], lists[j][b]));
            }
        }
    }
}

/// While a list has entries left, an entry is the next to come.
proof fn lemma_next_exists(lists: Seq<Seq<Entry>>, n: int) -> (r: int)
    requires
        0 <= n <= lists.len(),
        exists|i: int| 0 <= i < n && (#[trigger] lists[i]).len() > 0,
    ensures
        is_next(lists.take(n), r),
    decreases n,
{
    let last = n - 1;
    let part = lists.take(n);
    if exists|i: int| 0 <= i < last && (#[trigger] lists[i]).len() > 0 {
        let b = lemma_next_exists(lists, last);
        let before = lists.take(last);
        assert(before[b] == lists[b]);
        if lists[last].len() > 0 && entry_before(lists[last][0], lists[b][0]) {
            assert forall|j: int| 0 <= j < part.len() && j != last && (#[trigger] part[j]).len()
                > 0 implies entry_before(part[last][0], part[j][0]) by {
                assert(before[j] == lists[j]);
                if j != b {
                    if entry_before(lists[b][0], lists[j][0]) {
                        lemma_before_trans(lists[last][0], lists[b][0], lists[j][0]);
                    } else {
                        lemma_before_total(lists[b][0], lists[j][0]);
                    }
                }
            }
            last
        } else {
            assert forall|j: int| 0 <= j < part.len() && j != b && (#[trigger] part[j]).len()
                > 0 implies entry_before(part[b][0], part[j][0]) || (!entry_before(
                part[j][0],
                part[b][0],
            ) && b < j) by {
                if j < last {
                    assert(before[j] == lists[j]);
                }
            }
            b
        }
    } else {
        let i = choose|i: int| 0 <= i < n && (#[trigger] lists[i]).len() > 0;
        assert(i == last);
        last
    }
}

/// An entry that is the next to come stands before no entry of any list.
proof fn lemma_next_is_least(lists: Seq<Seq<Entry>>, i: int, j: int, q: int)
    requires
        all_in_order(lists),
        is_next(lists, i),
        0 <= j < lists.len(),
        0 <= q < lists[j].len(),
    ensures
        !entry_before(lists[j][q], lists[i][0]),
        j < i ==> entry_before(lists[i][0], lists[j][q]),
        j == i && q > 0 ==> entry_before(lists[i][0], lists[j][q]),
{
    let e = lists[i][0];
    let head = lists[j][0];
    let x = lists[j][q];
    lemma_before_total(x, e);
    lemma_before_total(e, x);
    lemma_before_total(head, e);
    assert(in_order(lists[j]));
    if q > 0 {
        assert(entry_before(head, x));
        if entry_before(e, head) {
            lemma_before_trans(e, head, x);
        }
        if entry_before(x, e) {
            lemma_before_trans(head, x, e);
        }
    }
}

/// Every entry of a merge comes from one of the lists.
proof fn lemma_merged_from(lists: Seq<Seq<Entry>>, k: int) -> (r: (int, int))
    requires
        0 <= k < merged(lists).len(),
    ensures
        0 <= r.0 < lists.len(),
        0 <= r.1 < lists[r.0].len(),
        lists[r.0][r.1] == merged(lists)[k],
    decreases total_len(lists),
{
    let i = choose|i: int| is_next(lists, i);
    lemma_merged_step(lists, i);
    lemma_total_len_taken(lists, i);
    if k == 0 {
        (i, 0)
    } else {
        let (j, q) = lemma_merged_from(taken(lists, i), k - 1);
        if j == i {
            (j, q + 1)
        } else {
            (j, q)
        }
    }
}

/// Every entry of the lists comes in the merge.
proof fn lemma_merged_has(lists: Seq<Seq<Entry>>, j: int, q: int) -> (k: int)
    requires
        0 <= j < lists.len(),
        0 <= q < lists[j].len(),
    ensures
        0 <= k < merged(lists).len(),
        merged(lists)[k] == lists[j][q],
    decreases total_len(lists),
{
    let i = lemma_next_exists(lists, lists.len() as int);
    assert(lists.take(lists.len() as int) =~= lists);
    lemma_merged_step(lists, i);
    lemma_total_len_taken(lists, i);
    let rest = taken(lists, i);
    if j == i && q == 0 {
        0
    } else if j == i {
        assert(rest[j][q - 1] == lists[j][q]);
        let k = lemma_merged_has(rest, j, q - 1);
        k + 1
    } else {
        assert(rest[j] == lists[j]);
        let k = lemma_merged_has(rest, j, q);
        k + 1
    }
}

/// Merging lists in order gives a list in which no entry comes before an
/// earlier one.
proof fn lemma_merged_ascending(lists: Seq<Seq<Entry>>)
    requires
        all_in_order(lists),
    ensures
        ascending(merged(lists)),
    decreases total_len(lists),
{
    if exists|i: int| is_next(lists, i) {
        let i = choose|i: int| is_next(lists, i);
        lemma_merged_step(lists, i);
        lemma_total_len_taken(lists, i);
        lemma_taken_in_order(lists, i);
        lemma_merged_ascending(taken(lists, i));
        let all = merged(lists);
        let rest = merged(taken(lists, i));
        assert forall|a: int, b: int| 0 <= a < b < all.len() implies !entry_before(
            #[trigger] all[b],
            #[trigger] all[a],
        ) by {
            if a > 0 {
                assert(all[a] == rest[a - 1]);
                assert(all[b] == rest[b - 1]);
            } else {
                let (j, q) = lemma_merged_from(taken(lists, i), b - 1);
                if j == i {
                    lemma_next_is_least(lists, i, j, q + 1);
                } else {
                    lemma_next_is_least(lists, i, j, q);
                }
            }
        }
    }
}

/// Whether `k` is the first entry of `entries` with its version.
spec fn first_of_version(entries: Seq<Entry>, k: int) -> bool {
    0 <= k < entries.len() && forall|j: int|
        0 <= j < k ==> !is_version(#[trigger] entries[j], (entries[k].key, entries[k].seq))
}

/// Where two lists hold the same version, the first of the two in a merge is
/// that of the earlier list.
proof fn lemma_merged_prefers_earlier(lists: Seq<Seq<Entry>>, k: int)
    requires
        all_in_order(lists),
        first_of_version(merged(lists), k),
    ensures
        all_versions(lists).contains_key((merged(lists)[k].key, merged(lists)[k].seq)),
        all_versions(lists)[(merged(lists)[k].key, merged(lists)[k].seq)] == merged(lists)[k].val,
    decreases total_len(lists),
{
    let all = merged(lists);
    let i = choose|i: int| is_next(lists, i);
    lemma_merged_step(lists, i);
    lemma_total_len_taken(lists, i);
    lemma_taken_in_order(lists, i);
    let e = lists[i][0];
    let v = (all[k].key, all[k].seq);
    let rest = taken(lists, i);
    if k == 0 {
        lemma_entry_held(lists, i, 0);
        assert forall|j: int| 0 <= j < i implies !#[trigger] holds(lists, v, j) by {
            if holds(lists, v, j) {
                let q = lemma_held_entry(lists, v, j);
                lemma_next_is_least(lists, i, j, q);
                lemma_before_total(e, lists[j][q]);
            }
        }
        assert(holds_first(lists, v, i));
        lemma_all_versions(lists, v, i);
    } else {
        let m = merged(rest);
        assert(all[0] == e);
        assert(!is_version(e, v));
        assert forall|j: int| 0 <= j < k - 1 implies !is_version(#[trigger] m[j], v) by {
            assert(all[j + 1] == m[j]);
        }
        assert(first_of_version(m, k - 1));
        lemma_merged_prefers_earlier(rest, k - 1);
        assert forall|j: int| 0 <= j < lists.len() implies #[trigger] holds(lists, v, j) == holds(
            rest,
            v,
            j,
        ) && (holds(lists, v, j) ==> versions_of(lists[j])[v] == versions_of(rest[j])[v]) by {
            if j == i {
                if holds(lists, v, j) {
                    let q = lemma_held_entry(lists, v, j);
                    assert(q > 0);
                    assert(rest[j][q - 1] == lists[j][q]);
                    lemma_entry_held(rest, j, q - 1);
                    lemma_entry_held(lists, j, q);
                }
                if holds(rest, v, j) {
                    let q = lemma_held_entry(rest, v, j);
                    assert(rest[j][q] == lists[j][q + 1]);
                    lemma_entry_held(lists, j, q + 1);
                }
            }
        }
        let f = choose|f: int| holds_first(rest, v, f);
        assert(holds_first(rest, v, f));
        assert(holds(lists, v, f));
        assert forall|j: int| 0 <= j < f implies !#[trigger] holds(lists, v, j) by {
            assert(!holds(rest, v, j));
        }
        assert(holds_first(lists, v, f));
        lemma_all_versions(lists, v, f);
        lemma_all_versions(rest, v, f);
    }
}

/// Whether `k` is the first entry of `entries` with its key.
pub open spec fn first_of_key(entries: Seq<Entry>, k: int) -> bool {
    0 <= k < entries.len() && forall|j: int|
        0 <= j < k ==> (#[trigger] entries[j]).key != entries[k].key
}

/// Whether a merge drops an entry that no newer one shadows.
pub open spec fn collected(e: Entry, is_last_level: bool) -> bool {
    is_last_level && e.val is None
}

/// In an ascending list an entry has the key of its predecessor exactly if some
/// earlier entry has its key.
proof fn lemma_same_key_run(entries: Seq<Entry>, k: int)
    requires
        ascending(entries),
        0 < k < entries.len(),
        entries[k - 1].key != entries[k].key,
    ensures
        first_of_key(entries, k),
        forall|j: int| 0 <= j < k ==> lex_less((#[trigger] entries[j]).key, entries[k].key),
{
    let e = entries[k];
    let p = entries[k - 1];
    lemma_lex_total(p.key, e.key);
    lemma_lex_total(e.key, p.key);
    assert(!entry_before(e, p));
    assert(lex_less(p.key, e.key));
    assert forall|j: int| 0 <= j < k implies lex_less((#[trigger] entries[j]).key, e.key)
        && entries[j].key != e.key by {
        if j < k - 1 {
            assert(!entry_before(p, entries[j]));
            lemma_lex_total(p.key, entries[j].key);
            lemma_lex_total(entries[j].key, p.key);
            if lex_less(entries[j].key, p.key) {
                lemma_lex_trans(entries[j].key, p.key, e.key);
            }
        }
        lemma_lex_total(entries[j].key, e.key);
    }
}

/// Of an ascending list the first entry of each key survives, unless it is
/// collected, and nothing else does.
pub proof fn lemma_survivors(entries: Seq<Entry>, is_last_level: bool)
    requires
        ascending(entries),
    ensures
        in_order(survivors(entries, is_last_level)),
        forall|x: Entry| #[trigger]
            survivors(entries, is_last_level).contains(x) ==> exists|k: int| #[trigger]
                first_of_key(entries, k) && entries[k] == x && !collected(x, is_last_level),
        forall|k: int| #[trigger]
            first_of_key(entries, k) && !collected(entries[k], is_last_level) ==> survivors(
                entries,
                is_last_level,
            ).contains(entries[k]),
        forall|i: int, j: int|
            0 <= i < j < survivors(entries, is_last_level).len() ==> lex_less(
                (#[trigger] survivors(entries, is_last_level)[i]).key,
                (#[trigger] survivors(entries, is_last_level)[j]).key,
            ),
    decreases entries.len(),
{
    let s = survivors(entries, is_last_level);
    if entries.len() > 0 {
        let before = entries.drop_last();
        let e = entries.last();
        let n = before.len() as int;
        let t = survivors(before, is_last_level);
        lemma_survivors(before, is_last_level);
        assert forall|k: int| 0 <= k < n implies (#[trigger] first_of_key(before, k))
            == first_of_key(entries, k) by {
            if first_of_key(entries, k) {
                assert forall|j: int| 0 <= j < k implies (#[trigger] before[j]).key
                    != before[k].key by {
                    assert(entries[j].key != entries[k].key);
                }
            }
            if first_of_key(before, k) {
                assert forall|j: int| 0 <= j < k implies (#[trigger] entries[j]).key
                    != entries[k].key by {
                    assert(before[j].key != before[k].key);
                }
            }
        }
        let shadowed = n > 0 && before.last().key == e.key;
        if shadowed {
            assert(!first_of_key(entries, n)) by {
                assert(entries[n - 1].key == entries[n].key);
            }
        } else {
            if n > 0 {
                lemma_same_key_run(entries, n);
            }
            assert(first_of_key(entries, n));
        }
        assert(s == if shadowed || collected(e, is_last_level) { t } else { t.push(e) });
        assert forall|x: Entry| #[trigger] s.contains(x) implies exists|k: int| #[trigger]
            first_of_key(entries, k) && entries[k] == x && !collected(x, is_last_level) by {
            if t.contains(x) {
                let k = choose|k: int| #[trigger] first_of_key(before, k) && before[k] == x
                    && !collected(x, is_last_level);
                assert(first_of_key(entries, k) && entries[k] == x);
            } else {
                let p = choose|p: int| 0 <= p < s.len() && s[p] == x;
                assert(x == e) by {
                    if p < t.len() {
                        assert(t[p] == x);
                    }
                }
                assert(first_of_key(entries, n));
            }
        }
        assert forall|k: int| #[trigger]
            first_of_key(entries, k) && !collected(entries[k], is_last_level) implies s.contains(
            entries[k],
        ) by {
            if k < n {
                assert(first_of_key(before, k));
                assert(t.contains(before[k]));
                let p = choose|p: int| 0 <= p < t.len() && t[p] == before[k];
                assert(s[p] == entries[k]);
            } else {
                assert(s[t.len() as int] == e);
            }
        }
        assert forall|i: int, j: int| 0 <= i < j < s.len() implies lex_less(
            (#[trigger] s[i]).key,
            (#[trigger] s[j]).key,
        ) by {
            if j < t.len() {
                assert(lex_less(t[i].key, t[j].key));
            } else {
                assert(t.contains(t[i]));
                let k = choose|k: int| #[trigger] first_of_key(before, k) && before[k] == t[i]
                    && !collected(t[i], is_last_level);
                assert(entries[k] == s[i]);
            }
        }
    }
}

// ---------- laws ----------

/// Compacting tables in order gives a table in order that holds each key at
/// most once.
pub proof fn law_compaction_keeps_order(lists: Seq<Seq<Entry>>, is_last_level: bool)
    requires
        all_in_order(lists),
    ensures
        in_order(survivors(merged(lists), is_last_level)),
        forall|i: int, j: int|
            0 <= i < j < survivors(merged(lists), is_last_level).len() ==> (#[trigger] survivors(
                merged(lists),
                is_last_level,
            )[i]).key != (#[trigger] survivors(merged(lists), is_last_level)[j]).key,
{
    lemma_merged_ascending(lists);
    lemma_survivors(merged(lists), is_last_level);
    let s = survivors(merged(lists), is_last_level);
    assert forall|i: int, j: int| 0 <= i < j < s.len() implies (#[trigger] s[i]).key != (
    #[trigger] s[j]).key by {
        lemma_lex_total(s[i].key, s[j].key);
    }
}

/// Compaction makes nothing up: every entry that it keeps is one of an input.
pub proof fn law_compaction_adds_nothing(lists: Seq<Seq<Entry>>, is_last_level: bool, x: Entry)
    requires
        all_in_order(lists),
        survivors(merged(lists), is_last_level).contains(x),
    ensures
        exists|i: int| 0 <= i < lists.len() && (#[trigger] lists[i]).contains(x),
{
    lemma_merged_ascending(lists);
    lemma_survivors(merged(lists), is_last_level);
    let k = choose|k: int| #[trigger] first_of_key(merged(lists), k) && merged(lists)[k] == x
        && !collected(x, is_last_level);
    let (i, q) = lemma_merged_from(lists, k);
    assert(lists[i][q] == x);
    assert(lists[i].contains(x));
}

/// The first entry of a key in a merge is the newest version of the key.
proof fn lemma_first_is_newest(lists: Seq<Seq<Entry>>, k: int, as_of: u64)
    requires
        all_in_order(lists),
        first_of_key(merged(lists), k),
        merged(lists)[k].seq <= as_of,
    ensures
        lookup(all_versions(lists), merged(lists)[k].key, as_of) == Some(merged(lists)[k].val),
{
    let all = merged(lists);
    let (key, s) = (all[k].key, all[k].seq);
    let m = all_versions(lists);
    lemma_merged_ascending(lists);
    assert forall|j: int| 0 <= j < k implies !is_version(#[trigger] all[j], (key, s)) by {}
    assert(first_of_version(all, k));
    lemma_merged_prefers_earlier(lists, k);
    assert(visible(m, key, as_of, s));
    assert forall|t: u64| #[trigger] visible(m, key, as_of, t) implies t <= s by {
        let i = choose|i: int| holds_first(lists, (key, t), i);
        assert(holds_first(lists, (key, t), i));
        let q = lemma_held_entry(lists, (key, t), i);
        let p = lemma_merged_has(lists, i, q);
        assert(all[p].key == key && all[p].seq == t);
        if p < k {
            assert(all[p].key != all[k].key);
        }
        if p > k {
            assert(!entry_before(all[p], all[k]));
        }
    }
    assert(is_newest(m, key, as_of, s));
    lemma_lookup_is(m, key, as_of, s);
}

/// Compaction does not change what a read of a key finds at a snapshot that is
/// no older than the key's newest version: a live value stays, and what was
/// deleted stays deleted. Without `is_last_level` tombstones are found as
/// before, too.
pub proof fn law_compaction_preserves_reads(
    lists: Seq<Seq<Entry>>,
    is_last_level: bool,
    key: Seq<u8>,
    as_of: u64,
)
    requires
        all_in_order(lists),
        forall|i: int, q: int|
            0 <= i < lists.len() && 0 <= q < lists[i].len() && (#[trigger] lists[i][q]).key == key
                ==> lists[i][q].seq <= as_of,
    ensures
        live(lookup(versions_of(survivors(merged(lists), is_last_level)), key, as_of)) == live(
            lookup(all_versions(lists), key, as_of),
        ),
        !is_last_level ==> lookup(
            versions_of(survivors(merged(lists), is_last_level)),
            key,
            as_of,
        ) == lookup(all_versions(lists), key, as_of),
{
    let all = merged(lists);
    let s = survivors(all, is_last_level);
    let out = versions_of(s);
    let m = all_versions(lists);
    lemma_merged_ascending(lists);
    lemma_survivors(all, is_last_level);
    if exists|p: int| 0 <= p < all.len() && (#[trigger] all[p]).key == key {
        let p = choose|p: int| 0 <= p < all.len() && (#[trigger] all[p]).key == key;
        let k = lemma_first_of_key(all, p);
        let e = all[k];
        let (i, q) = lemma_merged_from(lists, k);
        assert(lists[i][q].seq <= as_of);
        lemma_first_is_newest(lists, k, as_of);
        if collected(e, is_last_level) {
            assert forall|t: u64| !#[trigger] visible(out, key, as_of, t) by {
                if visible(out, key, as_of, t) {
                    let j = choose|j: int| 0 <= j < s.len() && is_version(#[trigger] s[j], (key, t));
                    lemma_key_survives_once(all, is_last_level, j, k);
                }
            }
            lemma_lookup_none(out, key, as_of);
        } else {
            assert(s.contains(e));
            let j = choose|j: int| 0 <= j < s.len() && s[j] == e;
            lemma_versions_of(s, j);
            assert(visible(out, key, as_of, e.seq));
            assert forall|t: u64| #[trigger] visible(out, key, as_of, t) implies t <= e.seq by {
                let c = choose|c: int| 0 <= c < s.len() && is_version(#[trigger] s[c], (key, t));
                lemma_key_survives_once(all, is_last_level, c, k);
            }
            assert(is_newest(out, key, as_of, e.seq));
            lemma_lookup_is(out, key, as_of, e.seq);
        }
    } else {
        assert forall|t: u64| !#[trigger] visible(m, key, as_of, t) by {
            if visible(m, key, as_of, t) {
                let i = choose|i: int| holds_first(lists, (key, t), i);
                assert(holds_first(lists, (key, t), i));
                let q = lemma_held_entry(lists, (key, t), i);
                let p = lemma_merged_has(lists, i, q);
                assert(all[p].key == key);
            }
        }
        lemma_lookup_none(m, key, as_of);
        assert forall|t: u64| !#[trigger] visible(out, key, as_of, t) by {
            if visible(out, key, as_of, t) {
                let j = choose|j: int| 0 <= j < s.len() && is_version(#[trigger] s[j], (key, t));
                assert(s.contains(s[j]));
                let k = choose|k: int| #[trigger] first_of_key(all, k) && all[k] == s[j]
                    && !collected(s[j], is_last_level);
                assert(all[k].key == key);
            }
        }
        lemma_lookup_none(out, key, as_of);
    }
}

pub proof fn lemma_first_of_key(entries: Seq<Entry>, p: int) -> (k: int)
    requires
        0 <= p < entries.len(),
    ensures
        first_of_key(entries, k),
        entries[k].key == entries[p].key,
    decreases p,
{
    if first_of_key(entries, p) {
        p
    } else {
        let j = choose|j: int| 0 <= j < p && (#[trigger] entries[j]).key == entries[p].key;
        lemma_first_of_key(entries, j)
    }
}

/// What survives of a key is at least as new as everything that was there.
pub proof fn lemma_survivor_is_newest(
    lists: Seq<Seq<Entry>>,
    is_last_level: bool,
    key: Seq<u8>,
    s: u64,
    t: u64,
)
    requires
        all_in_order(lists),
        versions_of(survivors(merged(lists), is_last_level)).contains_key((key, s)),
        all_versions(lists).contains_key((key, t)),
    ensures
        s >= t,
{
    let all = merged(lists);
    let out = survivors(all, is_last_level);
    lemma_merged_ascending(lists);
    lemma_survivors(all, is_last_level);
    let j = choose|j: int| 0 <= j < out.len() && is_version(#[trigger] out[j], (key, s));
    assert(out.contains(out[j]));
    let k = choose|k: int| #[trigger] first_of_key(all, k) && all[k] == out[j] && !collected(
        out[j],
        is_last_level,
    );
    let i = choose|i: int| holds_first(lists, (key, t), i);
    assert(holds_first(lists, (key, t), i));
    let q = lemma_held_entry(lists, (key, t), i);
    let p = lemma_merged_has(lists, i, q);
    assert(all[p].key == key && all[p].seq == t);
    if p < k {
        assert(all[p].key != all[k].key);
    }
    if p > k {
        assert(!entry_before(all[p], all[k]));
    }
}

/// What survives of a key is its first entry.
proof fn lemma_key_survives_once(entries: Seq<Entry>, is_last_level: bool, j: int, k: int)
    requires
        ascending(entries),
        first_of_key(entries, k),
        0 <= j < survivors(entries, is_last_level).len(),
        survivors(entries, is_last_level)[j].key == entries[k].key,
    ensures
        survivors(entries, is_last_level)[j] == entries[k],
        !collected(entries[k], is_last_level),
{
    lemma_survivors(entries, is_last_level);
    let x = survivors(entries, is_last_level)[j];
    assert(survivors(entries, is_last_level).contains(x));
    let f = choose|f: int| #[trigger] first_of_key(entries, f) && entries[f] == x && !collected(
        x,
        is_last_level,
    );
    if f < k {
        assert(entries[f].key != entries[k].key);
    } else if k < f {
        assert(entries[k].key != entries[f].key);
    }
}

/// Whether no list holds a newer version of a key than an earlier list does, but
/// for versions that the earlier list holds, too.
pub open spec fn layered(lists: Seq<Seq<Entry>>) -> bool {
    forall|i: int, j: int, key: Seq<u8>, s: u64, t: u64|
        0 <= i < j < lists.len() && #[trigger] holds(lists, (key, s), i) && #[trigger] holds(
            lists,
            (key, t),
            j,
        ) ==> s >= t || holds(lists, (key, t), i)
}

/// Of lists from the newest to the oldest the first one that finds a key at all
/// finds what all of them together do.
pub proof fn law_first_answer_is_right(
    lists: Seq<Seq<Entry>>,
    i: int,
    key: Seq<u8>,
    as_of: u64,
)
    requires
        all_in_order(lists),
        layered(lists),
        0 <= i <= lists.len(),
        forall|j: int|
            0 <= j < i ==> lookup(versions_of(#[trigger] lists[j]), key, as_of) is None,
        i < lists.len() ==> lookup(versions_of(lists[i]), key, as_of) is Some,
    ensures
        lookup(all_versions(lists), key, as_of) == if i < lists.len() {
            lookup(versions_of(lists[i]), key, as_of)
        } else {
            None
        },
{
    let m = all_versions(lists);
    assert forall|j: int, t: u64|
        0 <= j < i && t <= as_of implies !#[trigger] holds(lists, (key, t), j) by {
        if holds(lists, (key, t), j) {
            assert(visible(versions_of(lists[j]), key, as_of, t));
            lemma_lookup_some(versions_of(lists[j]), key, as_of, t);
        }
    }
    if i < lists.len() {
        let own = versions_of(lists[i]);
        let s = choose|s: u64| is_newest(own, key, as_of, s);
        assert(is_newest(own, key, as_of, s));
        lemma_lookup_is(own, key, as_of, s);
        let v = (key, s);
        assert(visible(own, key, as_of, s));
        assert(holds(lists, v, i));
        assert(holds_first(lists, v, i));
        lemma_all_versions(lists, v, i);
        assert(visible(m, key, as_of, s));
        assert forall|t: u64| #[trigger] visible(m, key, as_of, t) implies t <= s by {
            let c = choose|c: int| holds_first(lists, (key, t), c);
            assert(holds_first(lists, (key, t), c));
            assert(holds(lists, (key, t), c));
            if c == i {
                assert(visible(own, key, as_of, t));
            }
        }
        assert(is_newest(m, key, as_of, s));
        lemma_lookup_is(m, key, as_of, s);
    } else {
        assert forall|t: u64| !#[trigger] visible(m, key, as_of, t) by {
            if visible(m, key, as_of, t) {
                let c = choose|c: int| holds_first(lists, (key, t), c);
                assert(holds_first(lists, (key, t), c));
                assert(holds(lists, (key, t), c));
            }
        }
        lemma_lookup_none(m, key, as_of);
    }
}

/// Whether tier `i` is the table that was written for `lists[i]`, for each `i`.
pub open spec fn tiers_hold(tiers: Seq<TableFile>, lists: Seq<Seq<Entry>>, sizes: Seq<nat>) -> bool {
    &&& tiers.len() == lists.len()
    &&& tiers.len() == sizes.len()
    &&& forall|i: int|
        0 <= i < tiers.len() ==> (#[trigger] tiers[i]).bytes@ == table_bytes(lists[i], sizes[i])
            && table_fits(lists[i], sizes[i])
}

/// Tables that were written can be asked for every key.
pub proof fn law_written_tiers_are_usable(
    tiers: Seq<TableFile>,
    lists: Seq<Seq<Entry>>,
    sizes: Seq<nat>,
    key: Seq<u8>,
)
    requires
        tiers_hold(tiers, lists, sizes),
    ensures
        forall|i: int| 0 <= i < tiers.len() ==> tier_usable(#[trigger] tiers[i], key),
        forall|i: int| 0 <= i < tiers.len() ==> footer_error((#[trigger] tiers[i]).bytes@) is None,
{
    assert forall|i: int| 0 <= i < tiers.len() implies tier_usable(#[trigger] tiers[i], key)
        && footer_error(tiers[i].bytes@) is None by {
        law_written_table_opens(lists[i], sizes[i], tiers[i].meta.path@);
    }
}

/// Asking tables that were written in order, from the newest to the oldest,
/// never fails: it finds the newest version that is no newer than the snapshot,
/// whichever table holds it, and finds nothing if none does.
pub proof fn law_lookup_in_tiers_is_right(
    tiers: Seq<TableFile>,
    lists: Seq<Seq<Entry>>,
    sizes: Seq<nat>,
    key: Seq<u8>,
    as_of: u64,
    r: Result<Option<Option<Seq<u8>>>, TableError>,
)
    requires
        tiers_hold(tiers, lists, sizes),
        all_in_order(lists),
        layered(lists),
        is_tiers_lookup(tiers, key, as_of, r),
    ensures
        r == Ok::<Option<Option<Seq<u8>>>, TableError>(lookup(all_versions(lists), key, as_of)),
{
    law_written_tiers_are_usable(tiers, lists, sizes, key);
    let i = match r {
        Ok(Some(v)) => choose|i: int|
            #![trigger tiers[i]]
            0 <= i < tiers.len() && reaches_tier(tiers, key, as_of, i) && footer_error(
                tiers[i].bytes@,
            ) is None && tier_answers(tiers[i], key, as_of, Ok(Some(v))),
        Ok(None) => tiers.len() as int,
        Err(e) => choose|i: int|
            #![trigger tiers[i]]
            0 <= i < tiers.len() && reaches_tier(tiers, key, as_of, i) && (footer_error(
                tiers[i].bytes@,
            ) == Some(e) || (footer_error(tiers[i].bytes@) is None && tier_answers(
                tiers[i],
                key,
                as_of,
                Err(e),
            ))),
    };
    assert(reaches_tier(tiers, key, as_of, i));
    assert forall|j: int| 0 <= j < i implies lookup(
        versions_of(#[trigger] lists[j]),
        key,
        as_of,
    ) is None by {
        assert(tier_answers(tiers[j], key, as_of, Ok(None)));
        lemma_tier_is_right(tiers, lists, sizes, key, as_of, j, Ok(None));
    }
    if i < tiers.len() {
        assert(footer_error(tiers[i].bytes@) is None);
        lemma_tier_is_right(tiers, lists, sizes, key, as_of, i, r);
    }
    law_first_answer_is_right(lists, i, key, as_of);
}

/// A table that was written answers with what was written to it.
proof fn lemma_tier_is_right(
    tiers: Seq<TableFile>,
    lists: Seq<Seq<Entry>>,
    sizes: Seq<nat>,
    key: Seq<u8>,
    as_of: u64,
    i: int,
    r: Result<Option<Option<Seq<u8>>>, TableError>,
)
    requires
        tiers_hold(tiers, lists, sizes),
        all_in_order(lists),
        0 <= i < tiers.len(),
        tier_answers(tiers[i], key, as_of, r),
    ensures
        r == Ok::<Option<Option<Seq<u8>>>, TableError>(lookup(versions_of(lists[i]), key, as_of)),
{
    assert(tiers[i].bytes@ == table_bytes(lists[i], sizes[i]));
    law_lookup_gives_back_what_was_written(
        lists[i],
        sizes[i],
        tiers[i].meta.path@,
        key,
        as_of,
        r,
    );
}

/// A compaction keeps exactly the newest version of each key, with its value,
/// unless that is a tombstone and nothing older can lie below.
pub proof fn law_compaction_keeps_the_newest_of_each_key(
    lists: Seq<Seq<Entry>>,
    is_last_level: bool,
    x: Entry,
)
    requires
        all_in_order(lists),
    ensures
        survivors(merged(lists), is_last_level).contains(x) <==> {
            &&& all_versions(lists).contains_key((x.key, x.seq))
            &&& all_versions(lists)[(x.key, x.seq)] == x.val
            &&& forall|s: u64| #[trigger]
                all_versions(lists).contains_key((x.key, s)) ==> s <= x.seq
            &&& !(is_last_level && x.val is None)
        },
{
    let all = merged(lists);
    let out = survivors(all, is_last_level);
    let m = all_versions(lists);
    lemma_merged_ascending(lists);
    lemma_survivors(all, is_last_level);
    if out.contains(x) {
        let k = choose|k: int| #[trigger] first_of_key(all, k) && all[k] == x && !collected(
            x,
            is_last_level,
        );
        assert(first_of_version(all, k));
        lemma_merged_prefers_earlier(lists, k);
        let j = choose|j: int| 0 <= j < out.len() && out[j] == x;
        lemma_versions_of(out, j);
        assert forall|s: u64| #[trigger] m.contains_key((x.key, s)) implies s <= x.seq by {
            lemma_survivor_is_newest(lists, is_last_level, x.key, x.seq, s);
        }
    }
    if m.contains_key((x.key, x.seq)) && m[(x.key, x.seq)] == x.val && (forall|s: u64| #[trigger]
        m.contains_key((x.key, s)) ==> s <= x.seq) && !(is_last_level && x.val is None) {
        let i = choose|i: int| holds_first(lists, (x.key, x.seq), i);
        assert(holds_first(lists, (x.key, x.seq), i));
        let q = lemma_held_entry(lists, (x.key, x.seq), i);
        let p = lemma_merged_has(lists, i, q);
        let k = lemma_first_of_key(all, p);
        assert(first_of_version(all, k));
        lemma_merged_prefers_earlier(lists, k);
        if k < p {
            assert(!entry_before(all[p], all[k]));
        }
        assert(m.contains_key((all[k].key, all[k].seq)));
        assert(all[k] == x);
    }
}

/// A key without a version and one whose newest version is a tombstone have no
/// live value; any other has that of its newest version.
pub proof fn law_tombstone_is_nothing(found: Option<Option<Seq<u8>>>, val: Seq<u8>)
    ensures
        live(found) == Some(val) <==> found == Some(Some(val)),
        live(found) is None <==> found is None || found == Some(None::<Seq<u8>>),
{
}

/// The filter of a compacted table is sized for as many keys as its inputs are
/// said to hold entries, all together.
pub proof fn law_expected_entries_add_up(inputs: Seq<TableFile>, one: TableFile)
    ensures
        expected_entries(Seq::empty()) == 0,
        expected_entries(inputs.push(one)) == expected_entries(inputs) + one.meta.entry_count,
        COMPACTION_TRIGGER == 4,
{
    assert(inputs.push(one).drop_last() =~= inputs);
}

} // verus!
