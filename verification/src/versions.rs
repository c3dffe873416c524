//! The mathematical model of what the store holds: versions of keys, each with
//! its write's sequence number, and what a read at a snapshot sees of them.

use vstd::prelude::*;
use crate::order::{lemma_lex_total, lemma_lex_trans, lex_less, Order};
use crate::{entry_before, in_order, version_before, version_order, Entry};

verus! {

/// Versions by user key and sequence number; a tombstone is `None`.
pub type Versions = Map<(Seq<u8>, u64), Option<Seq<u8>>>;

/// Whether a read of `key` at the snapshot `as_of` may see the version `seq`.
pub open spec fn visible(m: Versions, key: Seq<u8>, as_of: u64, seq: u64) -> bool {
    m.contains_key((key, seq)) && seq <= as_of
}

/// Whether `seq` is the newest version of `key` that the snapshot may see.
pub open spec fn is_newest(m: Versions, key: Seq<u8>, as_of: u64, seq: u64) -> bool {
    visible(m, key, as_of, seq) && forall|s: u64| #[trigger] visible(m, key, as_of, s) ==> s <= seq
}

/// What a read of `key` at the snapshot `as_of` finds: the newest version that
/// is no newer than the snapshot, or `None` if there is no such version. A
/// tombstone is found as `Some(None)`.
pub open spec fn lookup(m: Versions, key: Seq<u8>, as_of: u64) -> Option<Option<Seq<u8>>> {
    if exists|s: u64| is_newest(m, key, as_of, s) {
        Some(m[(key, choose|s: u64| is_newest(m, key, as_of, s))])
    } else {
        None
    }
}

pub open spec fn is_version(e: Entry, v: (Seq<u8>, u64)) -> bool {
    e.key == v.0 && e.seq == v.1
}

/// The versions that a sequence of entries holds.
pub open spec fn versions_of(entries: Seq<Entry>) -> Versions {
    Map::new(
        |v: (Seq<u8>, u64)|
            exists|i: int| 0 <= i < entries.len() && is_version(#[trigger] entries[i], v),
        |v: (Seq<u8>, u64)|
            entries[choose|i: int|
                0 <= i < entries.len() && is_version(#[trigger] entries[i], v)].val,
    )
}

/// A read finds the version of its key with the greatest sequence number that is
/// no greater than the snapshot's, and finds nothing exactly if there is none.
pub proof fn law_read_finds_the_newest_visible(m: Versions, key: Seq<u8>, as_of: u64, seq: u64)
    ensures
        m.contains_key((key, seq)) && seq <= as_of && (forall|s: u64| #[trigger]
            m.contains_key((key, s)) && s <= as_of ==> s <= seq) ==> lookup(m, key, as_of) == Some(
            m[(key, seq)],
        ),
        lookup(m, key, as_of) is Some ==> exists|s: u64|
            {
                &&& #[trigger] m.contains_key((key, s))
                &&& s <= as_of
                &&& lookup(m, key, as_of) == Some(m[(key, s)])
                &&& forall|t: u64| #[trigger] m.contains_key((key, t)) && t <= as_of ==> t <= s
            },
        m.contains_key((key, seq)) && seq <= as_of ==> lookup(m, key, as_of) is Some,
{
    if m.contains_key((key, seq)) && seq <= as_of {
        assert(visible(m, key, as_of, seq));
        lemma_lookup_some(m, key, as_of, seq);
        if forall|s: u64| #[trigger] m.contains_key((key, s)) && s <= as_of ==> s <= seq {
            assert(is_newest(m, key, as_of, seq));
            lemma_lookup_is(m, key, as_of, seq);
        }
    }
    if lookup(m, key, as_of) is Some {
        let s = choose|s: u64| is_newest(m, key, as_of, s);
        assert(is_newest(m, key, as_of, s));
        assert forall|t: u64| #[trigger] m.contains_key((key, t)) && t <= as_of implies t <= s by {
            assert(visible(m, key, as_of, t));
        }
        assert(m.contains_key((key, s)));
    }
}

/// The versions of a list are those of its entries, each with its value. No
/// version stands in the list twice.
pub proof fn law_versions_are_the_entries(entries: Seq<Entry>, v: (Seq<u8>, u64))
    requires
        forall|i: int, j: int|
            0 <= i < j < entries.len() ==> (#[trigger] entries[i]).key != (
            #[trigger] entries[j]).key || entries[i].seq != entries[j].seq,
    ensures
        forall|i: int|
            0 <= i < entries.len() && (#[trigger] entries[i]).key == v.0 && entries[i].seq == v.1
                ==> versions_of(entries).contains_key(v) && versions_of(entries)[v]
                == entries[i].val,
        versions_of(entries).contains_key(v) ==> exists|i: int|
            0 <= i < entries.len() && (#[trigger] entries[i]).key == v.0 && entries[i].seq == v.1,
{
    assert forall|i: int|
        0 <= i < entries.len() && (#[trigger] entries[i]).key == v.0 && entries[i].seq
            == v.1 implies versions_of(entries).contains_key(v) && versions_of(entries)[v]
        == entries[i].val by {
        assert(is_version(entries[i], v));
        let c = choose|c: int| 0 <= c < entries.len() && is_version(#[trigger] entries[c], v);
        assert(is_version(entries[c], v));
        if c < i {
            assert(entries[c].key != entries[i].key || entries[c].seq != entries[i].seq);
        } else if i < c {
            assert(entries[i].key != entries[c].key || entries[i].seq != entries[c].seq);
        }
    }
    if versions_of(entries).contains_key(v) {
        let i = choose|i: int| 0 <= i < entries.len() && is_version(#[trigger] entries[i], v);
        assert(entries[i].key == v.0 && entries[i].seq == v.1);
    }
}

/// A list is in order if user keys ascend and of one user key the versions
/// descend; `version_order` compares two versions in that order.
pub proof fn law_order_of_versions(
    entries: Seq<Entry>,
    a: Seq<u8>,
    s: u64,
    b: Seq<u8>,
    t: u64,
)
    ensures
        version_order(a, s, b, t) == Order::Less <==> lex_less(a, b) || (a == b && s > t),
        version_order(a, s, b, t) == Order::Greater <==> lex_less(b, a) || (a == b && s < t),
        version_order(a, s, b, t) == Order::Equal <==> a == b && s == t,
        in_order(entries) <==> forall|i: int, j: int|
            0 <= i < j < entries.len() ==> lex_less(
                (#[trigger] entries[i]).key,
                (#[trigger] entries[j]).key,
            ) || (entries[i].key == entries[j].key && entries[i].seq > entries[j].seq),
{
    lemma_lex_total(a, b);
    lemma_lex_total(b, a);
    if forall|i: int, j: int|
        0 <= i < j < entries.len() ==> lex_less(
            (#[trigger] entries[i]).key,
            (#[trigger] entries[j]).key,
        ) || (entries[i].key == entries[j].key && entries[i].seq > entries[j].seq) {
        assert forall|i: int, j: int| 0 <= i < j < entries.len() implies entry_before(
            #[trigger] entries[i],
            #[trigger] entries[j],
        ) by {}
    }
    if in_order(entries) {
        assert forall|i: int, j: int| 0 <= i < j < entries.len() implies lex_less(
            (#[trigger] entries[i]).key,
            (#[trigger] entries[j]).key,
        ) || (entries[i].key == entries[j].key && entries[i].seq > entries[j].seq) by {
            assert(entry_before(entries[i], entries[j]));
        }
    }
}

/// A read finds the newest version, and nothing else.
pub proof fn lemma_lookup_is(m: Versions, key: Seq<u8>, as_of: u64, seq: u64)
    requires
        is_newest(m, key, as_of, seq),
    ensures
        lookup(m, key, as_of) == Some(m[(key, seq)]),
{
    let s = choose|s: u64| is_newest(m, key, as_of, s);
    assert(is_newest(m, key, as_of, s));
    assert(visible(m, key, as_of, s));
    assert(visible(m, key, as_of, seq));
}

/// A read finds something exactly if some version is visible.
pub proof fn lemma_lookup_some(m: Versions, key: Seq<u8>, as_of: u64, seq: u64)
    requires
        visible(m, key, as_of, seq),
    ensures
        exists|s: u64| is_newest(m, key, as_of, s),
        lookup(m, key, as_of) is Some,
    decreases as_of - seq,
{
    if !is_newest(m, key, as_of, seq) {
        let s = choose|s: u64| visible(m, key, as_of, s) && s > seq;
        lemma_lookup_some(m, key, as_of, s);
    }
}

pub proof fn lemma_lookup_none(m: Versions, key: Seq<u8>, as_of: u64)
    requires
        forall|s: u64| !#[trigger] visible(m, key, as_of, s),
    ensures
        lookup(m, key, as_of) is None,
{
    if exists|s: u64| is_newest(m, key, as_of, s) {
        let s = choose|s: u64| is_newest(m, key, as_of, s);
        assert(visible(m, key, as_of, s));
    }
}

/// Two stores that agree on the versions of a key agree on every read of it.
pub proof fn lemma_lookup_same(a: Versions, b: Versions, key: Seq<u8>, as_of: u64)
    requires
        forall|s: u64| s <= as_of ==> (#[trigger] a.contains_key((key, s)) <==> b.contains_key((key, s))),
        forall|s: u64|
            s <= as_of && a.contains_key((key, s)) ==> #[trigger] a[(key, s)] == b[(key, s)],
    ensures
        lookup(a, key, as_of) == lookup(b, key, as_of),
{
    assert forall|s: u64| #[trigger] visible(a, key, as_of, s) == visible(b, key, as_of, s) by {}
    if exists|s: u64| is_newest(a, key, as_of, s) {
        let s = choose|s: u64| is_newest(a, key, as_of, s);
        assert(is_newest(b, key, as_of, s)) by {
            assert(visible(b, key, as_of, s) == visible(a, key, as_of, s));
            assert forall|t: u64| #[trigger] visible(b, key, as_of, t) implies t <= s by {
                assert(visible(a, key, as_of, t) == visible(b, key, as_of, t));
            }
        }
        lemma_lookup_is(a, key, as_of, s);
        lemma_lookup_is(b, key, as_of, s);
    } else {
        assert forall|t: u64| !#[trigger] visible(b, key, as_of, t) by {
            assert(visible(a, key, as_of, t) == visible(b, key, as_of, t));
            if visible(a, key, as_of, t) {
                lemma_lookup_some(a, key, as_of, t);
            }
        }
        lemma_lookup_none(b, key, as_of);
    }
}

pub proof fn lemma_before_trans(a: Entry, b: Entry, c: Entry)
    requires
        entry_before(a, b),
        entry_before(b, c),
    ensures
        entry_before(a, c),
{
    if lex_less(a.key, b.key) && lex_less(b.key, c.key) {
        lemma_lex_trans(a.key, b.key, c.key);
    }
}

/// Of two versions one comes first, or they are the same version.
pub proof fn lemma_before_total(a: Entry, b: Entry)
    ensures
        entry_before(a, b) ==> !entry_before(b, a) && !(a.key == b.key && a.seq == b.seq),
        !entry_before(a, b) && !entry_before(b, a) ==> a.key == b.key && a.seq == b.seq,
{
    lemma_lex_total(a.key, b.key);
    lemma_lex_total(b.key, a.key);
    lemma_lex_total(a.key, a.key);
}

/// Entries in order hold each of their versions, with its value.
pub proof fn lemma_versions_of(entries: Seq<Entry>, i: int)
    requires
        in_order(entries),
        0 <= i < entries.len(),
    ensures
        versions_of(entries).contains_key((entries[i].key, entries[i].seq)),
        versions_of(entries)[(entries[i].key, entries[i].seq)] == entries[i].val,
{
    let v = (entries[i].key, entries[i].seq);
    assert(is_version(entries[i], v));
    let j = choose|j: int| 0 <= j < entries.len() && is_version(#[trigger] entries[j], v);
    if i < j {
        lemma_before_total(entries[i], entries[j]);
    } else if j < i {
        lemma_before_total(entries[j], entries[i]);
    }
}

/// The first entry in order that does not come before `(key, as_of)` decides
/// what a read of `key` at `as_of` finds.
pub proof fn lemma_lookup_in_order(entries: Seq<Entry>, p: int, key: Seq<u8>, as_of: u64)
    requires
        in_order(entries),
        0 <= p <= entries.len(),
        forall|i: int|
            0 <= i < p ==> version_before((#[trigger] entries[i]).key, entries[i].seq, key, as_of),
        p < entries.len() ==> !version_before(entries[p].key, entries[p].seq, key, as_of),
    ensures
        lookup(versions_of(entries), key, as_of) == if p < entries.len() && entries[p].key == key {
            Some(entries[p].val)
        } else {
            None
        },
{
    let m = versions_of(entries);
    lemma_lex_total(key, key);
    if p < entries.len() && entries[p].key == key {
        let s = entries[p].seq;
        lemma_versions_of(entries, p);
        assert(visible(m, key, as_of, s));
        assert forall|t: u64| #[trigger] visible(m, key, as_of, t) implies t <= s by {
            let j = choose|j: int| 0 <= j < entries.len() && is_version(#[trigger] entries[j], (key, t));
            if j > p {
                assert(entry_before(entries[p], entries[j]));
            }
        }
        assert(is_newest(m, key, as_of, s));
        lemma_lookup_is(m, key, as_of, s);
    } else {
        assert forall|t: u64| !#[trigger] visible(m, key, as_of, t) by {
            if visible(m, key, as_of, t) {
                let j = choose|j: int| 0 <= j < entries.len() && is_version(#[trigger] entries[j], (key, t));
                if j > p {
                    assert(entry_before(entries[p], entries[j]));
                    lemma_lex_total(entries[p].key, key);
                    lemma_lex_total(key, entries[p].key);
                }
            }
        }
        lemma_lookup_none(m, key, as_of);
    }
}

} // verus!
