//! The in-memory sorted buffer that takes writes in before they are flushed to
//! a table. Entries stand in the order in which a table holds them.

use vstd::prelude::*;
use crate::codec::copy_range;
use crate::order::Order;
use crate::versions::{
    is_version, lemma_before_total, lemma_before_trans, lemma_lookup_in_order, lemma_lookup_none,
    lemma_versions_of, lookup, versions_of, Versions,
};
use crate::{entry_before, entry_of, in_order, version_before, Entry, InternalKey, SeqNo, Value};

verus! {

/// The memory that an entry is taken to need beside its key and value.
pub const ENTRY_OVERHEAD: usize = 24;

pub struct MemTable {
    entries: Vec<(InternalKey, Value)>,
    approx_bytes: usize,
}

/// The entries that a list of keys and values makes up.
pub open spec fn entries_of(list: Seq<(InternalKey, Value)>) -> Seq<Entry> {
    list.map_values(|e: (InternalKey, Value)| entry_of(e.0, e.1))
}

/// The first entry that does not come before the version `(key, seq)`.
fn position(list: &Vec<(InternalKey, Value)>, key: &InternalKey) -> (p: usize)
    requires
        in_order(entries_of(list@)),
    ensures
        p <= list@.len(),
        forall|i: int|
            0 <= i < p ==> version_before(
                (#[trigger] entries_of(list@)[i]).key,
                entries_of(list@)[i].seq,
                key.user_key@,
                key.seq,
            ),
        p < list@.len() ==> !version_before(
            entries_of(list@)[p as int].key,
            entries_of(list@)[p as int].seq,
            key.user_key@,
            key.seq,
        ),
{
    let ghost es = entries_of(list@);
    let ghost target = Entry { key: key.user_key@, seq: key.seq, val: None };
    let mut lo: usize = 0;
    let mut hi: usize = list.len();
    while lo < hi
        invariant
            lo <= hi <= list@.len(),
            es == entries_of(list@),
            in_order(es),
            target == (Entry { key: key.user_key@, seq: key.seq, val: None }),
            forall|i: int| 0 <= i < lo ==> entry_before(#[trigger] es[i], target),
            hi < es.len() ==> !entry_before(es[hi as int], target),
        decreases hi - lo,
    {
        let mid: usize = lo + (hi - lo) / 2;
        match list[mid].0.order(key) {
            Order::Less => {
                assert(entry_before(es[mid as int], target));
                assert forall|i: int| 0 <= i < mid + 1 implies entry_before(
                    #[trigger] es[i],
                    target,
                ) by {
                    if i < mid {
                        lemma_before_trans(es[i], es[mid as int], target);
                    }
                }
                lo = mid + 1;
            },
            _ => {
                assert(!entry_before(es[mid as int], target));
                hi = mid;
            },
        }
    }
    lo
}

/// Puts the version `key` with `value` in its place.
pub(crate) fn place_version(list: &mut Vec<(InternalKey, Value)>, key: InternalKey, value: Value)
    requires
        in_order(entries_of(old(list)@)),
    ensures
        in_order(entries_of(final(list)@)),
        versions_of(entries_of(final(list)@)) == versions_of(entries_of(old(list)@)).insert(
            (key.user_key@, key.seq),
            value@,
        ),
        final(list)@.len() <= old(list)@.len() + 1,
{
    let p: usize = position(list, &key);
    let ghost es = entries_of(list@);
    let ghost e = entry_of(key, value);
    let ghost v = (key.user_key@, key.seq);
    let mut replace: bool = false;
    if p < list.len() {
        replace = list[p].0 == key;
    }
    if replace {
        list.set(p, (key, value));
        proof {
            let now = entries_of(list@);
            assert(now =~= es.update(p as int, e));
            assert forall|i: int, j: int| 0 <= i < j < now.len() implies entry_before(
                #[trigger] now[i],
                #[trigger] now[j],
            ) by {
                assert(entry_before(es[i], es[j]));
            }
            lemma_replaced(es, p as int, e);
        }
    } else {
        proof {
            if p < es.len() {
                lemma_before_total(es[p as int], e);
            }
        }
        list.insert(p, (key, value));
        proof {
            let now = entries_of(list@);
            assert(now =~= es.insert(p as int, e));
            assert forall|i: int, j: int| 0 <= i < j < now.len() implies entry_before(
                #[trigger] now[i],
                #[trigger] now[j],
            ) by {
                let oi = if i < p {
                    i
                } else {
                    i - 1
                };
                let oj = if j < p {
                    j
                } else {
                    j - 1
                };
                if i != p && j != p {
                    assert(entry_before(es[oi], es[oj]));
                } else if i == p {
                    if oj > p {
                        lemma_before_trans(e, es[p as int], es[oj]);
                    }
                } else {
                    assert(entry_before(es[oi], e));
                }
            }
            lemma_inserted(es, p as int, e);
        }
    }
}

impl View for MemTable {
    type V = Versions;

    open spec fn view(&self) -> Versions {
        versions_of(self.sorted_entries())
    }
}

impl MemTable {
    /// The entries in the order in which a table holds them.
    pub closed spec fn sorted_entries(&self) -> Seq<Entry> {
        entries_of(self.entries@)
    }

    /// The estimate of the memory that the entries need.
    pub closed spec fn bytes(&self) -> usize {
        self.approx_bytes
    }

    /// Whether the entries stand in order, and the estimate counts them all.
    pub open spec fn well_formed(&self) -> bool {
        in_order(self.sorted_entries()) && ENTRY_OVERHEAD * self.sorted_entries().len()
            <= self.bytes()
    }

    pub fn new() -> (r: Self)
        ensures
            r.well_formed(),
            r@ == Map::<(Seq<u8>, u64), Option<Seq<u8>>>::empty(),
            r.sorted_entries() == Seq::<Entry>::empty(),
            r.bytes() == 0,
    {
        let r = MemTable { entries: Vec::new(), approx_bytes: 0 };
        assert(r.sorted_entries() =~= Seq::<Entry>::empty());
        assert(r@ =~= Map::<(Seq<u8>, u64), Option<Seq<u8>>>::empty());
        r
    }

    /// Adds the version of `key` that writes `val` at `seq`.
    pub fn put(&mut self, key: &[u8], val: &[u8], seq: SeqNo)
        requires
            old(self).well_formed(),
            old(self).bytes() + key@.len() + val@.len() + ENTRY_OVERHEAD <= usize::MAX,
        ensures
            final(self).well_formed(),
            final(self)@ == old(self)@.insert((key@, seq), Some(val@)),
            final(self).bytes() == old(self).bytes() + key@.len() + val@.len() + ENTRY_OVERHEAD,
    {
        self.approx_bytes = self.approx_bytes + (key.len() + val.len() + ENTRY_OVERHEAD);
        let key_copy: Vec<u8> = copy_range(key, 0, key.len());
        let val_copy: Vec<u8> = copy_range(val, 0, val.len());
        assert(key_copy@ =~= key@);
        assert(val_copy@ =~= val@);
        place_version(
            &mut self.entries,
            InternalKey::new(key_copy, seq),
            Value::Put(val_copy),
        );
    }

    /// Adds the version of `key` that deletes it at `seq`.
    pub fn delete(&mut self, key: &[u8], seq: SeqNo)
        requires
            old(self).well_formed(),
            old(self).bytes() + key@.len() + ENTRY_OVERHEAD <= usize::MAX,
        ensures
            final(self).well_formed(),
            final(self)@ == old(self)@.insert((key@, seq), None),
            final(self).bytes() == old(self).bytes() + key@.len() + ENTRY_OVERHEAD,
    {
        self.approx_bytes = self.approx_bytes + (key.len() + ENTRY_OVERHEAD);
        let key_copy: Vec<u8> = copy_range(key, 0, key.len());
        assert(key_copy@ =~= key@);
        place_version(&mut self.entries, InternalKey::new(key_copy, seq), Value::Delete);
    }

    /// Snapshot read: the newest version of `key` that is no newer than
    /// `as_of`.
    pub fn get(&self, key: &[u8], as_of: SeqNo) -> (r: Option<&Value>)
        requires
            self.well_formed(),
        ensures
            match r {
                Some(v) => lookup(self@, key@, as_of) == Some(v@),
                None => lookup(self@, key@, as_of) is None,
            },
    {
        let key_copy: Vec<u8> = copy_range(key, 0, key.len());
        assert(key_copy@ =~= key@);
        let target = InternalKey::new(key_copy, as_of);
        let p: usize = position(&self.entries, &target);
        proof {
            lemma_lookup_in_order(self.sorted_entries(), p as int, key@, as_of);
        }
        if p < self.entries.len() && crate::order::bytes_equal(
            self.entries[p].0.user_key.as_slice(),
            key,
        ) {
            Some(&self.entries[p].1)
        } else {
            None
        }
    }

    /// An estimate of the memory that the entries take.
    pub fn approx_bytes(&self) -> (r: usize)
        ensures
            r == self.bytes(),
    {
        self.approx_bytes
    }

    pub fn is_empty(&self) -> (r: bool)
        ensures
            r == (self.sorted_entries().len() == 0),
            r == (self@ == Map::<(Seq<u8>, u64), Option<Seq<u8>>>::empty()),
    {
        proof {
            if self.entries@.len() == 0 {
                assert(self@ =~= Map::<(Seq<u8>, u64), Option<Seq<u8>>>::empty());
            } else {
                let e = self.sorted_entries()[0];
                assert(is_version(e, (e.key, e.seq)));
                assert(self@.contains_key((e.key, e.seq)));
            }
        }
        self.entries.len() == 0
    }

    /// All entries in the order in which a table holds them.
    pub fn iter(&self) -> (r: Vec<(&InternalKey, &Value)>)
        ensures
            r@.len() == self.sorted_entries().len(),
            forall|i: int|
                0 <= i < r@.len() ==> entry_of(*(#[trigger] r@[i]).0, *r@[i].1)
                    == self.sorted_entries()[i],
    {
        let mut out: Vec<(&InternalKey, &Value)> = Vec::new();
        let mut i: usize = 0;
        while i < self.entries.len()
            invariant
                i <= self.entries@.len(),
                out@.len() == i,
                forall|j: int|
                    0 <= j < i ==> entry_of(*(#[trigger] out@[j]).0, *out@[j].1)
                        == self.sorted_entries()[j],
            decreases self.entries@.len() - i,
        {
            let e: &(InternalKey, Value) = &self.entries[i];
            out.push((&e.0, &e.1));
            i = i + 1;
        }
        out
    }

    /// Drops every entry.
    pub fn clear(&mut self)
        ensures
            final(self).well_formed(),
            final(self)@ == Map::<(Seq<u8>, u64), Option<Seq<u8>>>::empty(),
            final(self).sorted_entries() == Seq::<Entry>::empty(),
            final(self).bytes() == 0,
    {
        self.entries.clear();
        self.approx_bytes = 0;
        assert(self.sorted_entries() =~= Seq::<Entry>::empty());
        assert(self@ =~= Map::<(Seq<u8>, u64), Option<Seq<u8>>>::empty());
    }
}

impl Default for MemTable {
    fn default() -> (r: Self)
        ensures
            r.well_formed(),
            r@ == Map::<(Seq<u8>, u64), Option<Seq<u8>>>::empty(),
            r.bytes() == 0,
    {
        Self::new()
    }
}

/// A memtable that holds nothing, as a new one or one that was cleared, has no
/// entries and answers no read. One more write, a tombstone too, makes it hold
/// something.
pub proof fn law_cleared_memtable_is_as_new(
    cleared: MemTable,
    later: MemTable,
    version: (Seq<u8>, u64),
    val: Option<Seq<u8>>,
)
    requires
        cleared@ == Map::<(Seq<u8>, u64), Option<Seq<u8>>>::empty(),
        later@ == cleared@.insert(version, val),
    ensures
        cleared.sorted_entries() == Seq::<Entry>::empty(),
        forall|key: Seq<u8>, as_of: u64| #[trigger] lookup(cleared@, key, as_of) is None,
        later.sorted_entries().len() > 0,
        later@ != Map::<(Seq<u8>, u64), Option<Seq<u8>>>::empty(),
{
    let es = cleared.sorted_entries();
    if es.len() > 0 {
        assert(is_version(es[0], (es[0].key, es[0].seq)));
        assert(cleared@.contains_key((es[0].key, es[0].seq)));
    }
    assert(es =~= Seq::<Entry>::empty());
    assert forall|key: Seq<u8>, as_of: u64| #[trigger] lookup(cleared@, key, as_of) is None by {
        lemma_lookup_none(cleared@, key, as_of);
    }
    assert(later@.contains_key(version));
}

proof fn lemma_replaced(es: Seq<Entry>, p: int, e: Entry)
    requires
        in_order(es),
        in_order(es.update(p, e)),
        0 <= p < es.len(),
        es[p].key == e.key,
        es[p].seq == e.seq,
    ensures
        versions_of(es.update(p, e)) == versions_of(es).insert((e.key, e.seq), e.val),
{
    let now = es.update(p, e);
    let a = versions_of(now);
    let b = versions_of(es).insert((e.key, e.seq), e.val);
    assert forall|v: (Seq<u8>, u64)| a.contains_key(v) == b.contains_key(v) by {
        if a.contains_key(v) {
            let i = choose|i: int| 0 <= i < now.len() && is_version(#[trigger] now[i], v);
            assert(is_version(es[i], v));
        }
        if b.contains_key(v) {
            if v == (e.key, e.seq) {
                assert(is_version(now[p], v));
            } else {
                let i = choose|i: int| 0 <= i < es.len() && is_version(#[trigger] es[i], v);
                assert(is_version(now[i], v));
            }
        }
    }
    assert forall|v: (Seq<u8>, u64)| a.contains_key(v) implies #[trigger] a[v] == b[v] by {
        let i = choose|i: int| 0 <= i < now.len() && is_version(#[trigger] now[i], v);
        lemma_versions_of(now, i);
        lemma_versions_of(now, p);
        lemma_versions_of(es, i);
    }
    assert(a =~= b);
}

pub proof fn lemma_inserted(es: Seq<Entry>, p: int, e: Entry)
    requires
        in_order(es),
        in_order(es.insert(p, e)),
        0 <= p <= es.len(),
    ensures
        versions_of(es.insert(p, e)) == versions_of(es).insert((e.key, e.seq), e.val),
{
    let now = es.insert(p, e);
    let a = versions_of(now);
    let b = versions_of(es).insert((e.key, e.seq), e.val);
    assert forall|v: (Seq<u8>, u64)| a.contains_key(v) == b.contains_key(v) by {
        if a.contains_key(v) {
            let i = choose|i: int| 0 <= i < now.len() && is_version(#[trigger] now[i], v);
            if i != p {
                assert(is_version(
                    es[if i < p {
                        i
                    } else {
                        i - 1
                    }],
                    v,
                ));
            }
        }
        if b.contains_key(v) {
            if v == (e.key, e.seq) {
                assert(is_version(now[p], v));
            } else {
                let i = choose|i: int| 0 <= i < es.len() && is_version(#[trigger] es[i], v);
                assert(is_version(
                    now[if i < p {
                        i
                    } else {
                        i + 1
                    }],
                    v,
                ));
            }
        }
    }
    assert forall|v: (Seq<u8>, u64)| a.contains_key(v) implies #[trigger] a[v] == b[v] by {
        let i = choose|i: int| 0 <= i < now.len() && is_version(#[trigger] now[i], v);
        lemma_versions_of(now, i);
        lemma_versions_of(now, p);
        if i != p {
            let oi = if i < p {
                i
            } else {
                i - 1
            };
            lemma_versions_of(es, oi);
            if i < p {
                lemma_before_total(now[i], now[p]);
            } else {
                lemma_before_total(now[p], now[i]);
            }
        }
    }
    assert(a =~= b);
}

/// The entries of a list are its keys with their values, one for one.
pub proof fn law_entries_are_the_pairs(list: Seq<(InternalKey, Value)>, i: int)
    requires
        0 <= i < list.len(),
    ensures
        entries_of(list).len() == list.len(),
        entries_of(list)[i].key == list[i].0.user_key@,
        entries_of(list)[i].seq == list[i].0.seq,
        entries_of(list)[i].val == list[i].1@,
{
}

} // verus!
