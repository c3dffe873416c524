//! Collecting items under the ids that they belong to, in the order in which
//! the ids are first met.

use vstd::prelude::*;
use std::collections::HashMap;
use crate::score::distinct_found;

verus! {

broadcast use vstd::std_specs::hash::group_hash_axioms;

/// Whether `id` stands at place `i` of `acc`.
pub open spec fn is_place<K, T>(acc: Seq<(K, Seq<T>)>, id: K, i: int) -> bool {
    0 <= i < acc.len() && acc[i].0 == id
}

/// `acc` with `item` put behind what `id` has.
pub open spec fn gathered<T>(acc: Seq<(u64, Seq<T>)>, id: u64, item: T) -> Seq<(u64, Seq<T>)> {
    if exists|i: int| is_place(acc, id, i) {
        let i = choose|i: int| is_place(acc, id, i);
        acc.update(i, (id, acc[i].1.push(item)))
    } else {
        acc.push((id, seq![item]))
    }
}

/// Whether no id stands in `acc` twice.
pub open spec fn distinct_ids<K, T>(acc: Seq<(K, Seq<T>)>) -> bool {
    forall|i: int, j: int|
        0 <= i < j < acc.len() ==> (#[trigger] acc[i]).0 != (#[trigger] acc[j]).0
}

/// What `id` has in `acc`.
pub open spec fn items_of<K, T>(acc: Seq<(K, Seq<T>)>, id: K) -> Seq<T> {
    if exists|i: int| is_place(acc, id, i) {
        acc[choose|i: int| is_place(acc, id, i)].1
    } else {
        Seq::empty()
    }
}

/// Whether every id in `acc` stands there once and has something.
pub open spec fn sound<T>(acc: Seq<(u64, Seq<T>)>) -> bool {
    distinct_ids(acc) && forall|i: int| 0 <= i < acc.len() ==> (#[trigger] acc[i]).1.len() > 0
}

/// What the ids have, by id.
pub open spec fn by_id<K, T>(acc: Seq<(K, Seq<T>)>) -> Map<K, Seq<T>> {
    Map::new(
        |id: K| exists|i: int| is_place(acc, id, i),
        |id: K| acc[choose|i: int| is_place(acc, id, i)].1,
    )
}

/// `acc` with `items` for `id`: in the place of what it had, or behind all
/// others.
pub open spec fn stored<K, T>(acc: Seq<(K, Seq<T>)>, id: K, items: Seq<T>) -> Seq<(K, Seq<T>)> {
    if exists|i: int| is_place(acc, id, i) {
        acc.update(choose|i: int| is_place(acc, id, i), (id, items))
    } else {
        acc.push((id, items))
    }
}

pub proof fn lemma_place_unique<K, T>(acc: Seq<(K, Seq<T>)>, id: K, i: int)
    requires
        distinct_ids(acc),
        is_place(acc, id, i),
    ensures
        items_of(acc, id) == acc[i].1,
        by_id(acc).contains_key(id),
        by_id(acc)[id] == acc[i].1,
        forall|j: int| #[trigger] is_place(acc, id, j) ==> j == i,
{
    assert forall|j: int| #[trigger] is_place(acc, id, j) implies j == i by {
        if j < i {
            assert(acc[j].0 != acc[i].0);
        } else if i < j {
            assert(acc[i].0 != acc[j].0);
        }
    }
    let c = choose|c: int| is_place(acc, id, c);
    assert(is_place(acc, id, c));
}

/// Storing gives one id what was stored and changes nothing of the others.
pub proof fn lemma_stored<K, T>(acc: Seq<(K, Seq<T>)>, id: K, items: Seq<T>)
    requires
        distinct_ids(acc),
    ensures
        distinct_ids(stored(acc, id, items)),
        by_id(stored(acc, id, items)) == by_id(acc).insert(id, items),
{
    let now = stored(acc, id, items);
    let p = if exists|i: int| is_place(acc, id, i) {
        choose|i: int| is_place(acc, id, i)
    } else {
        acc.len() as int
    };
    assert forall|i: int, j: int| 0 <= i < j < now.len() implies (#[trigger] now[i]).0 != (
    #[trigger] now[j]).0 by {
        if j < acc.len() {
            assert(acc[i].0 != acc[j].0);
        } else {
            assert(!is_place(acc, id, i));
        }
    }
    assert(is_place(now, id, p));
    lemma_place_unique(now, id, p);
    assert forall|other: K| #[trigger] by_id(now).contains_key(other) == by_id(
        acc,
    ).insert(id, items).contains_key(other) && (by_id(now).contains_key(other) ==> by_id(
        now,
    )[other] == by_id(acc).insert(id, items)[other]) by {
        if other != id {
            if exists|i: int| is_place(acc, other, i) {
                let i = choose|i: int| is_place(acc, other, i);
                assert(is_place(now, other, i));
                lemma_place_unique(now, other, i);
            }
            if exists|i: int| is_place(now, other, i) {
                let i = choose|i: int| is_place(now, other, i);
                assert(is_place(acc, other, i));
            }
        }
    }
    assert(by_id(now) =~= by_id(acc).insert(id, items));
}

/// Gathering gives one more item to one id and changes nothing of the others.
pub proof fn lemma_gathered<T>(acc: Seq<(u64, Seq<T>)>, id: u64, item: T, other: u64)
    requires
        sound(acc),
    ensures
        sound(gathered(acc, id, item)),
        items_of(gathered(acc, id, item), other) == if other == id {
            items_of(acc, id).push(item)
        } else {
            items_of(acc, other)
        },
{
    let now = gathered(acc, id, item);
    if exists|i: int| is_place(acc, id, i) {
        let i = choose|i: int| is_place(acc, id, i);
        assert forall|a: int, b: int| 0 <= a < b < now.len() implies (#[trigger] now[a]).0 != (
        #[trigger] now[b]).0 by {
            assert(acc[a].0 != acc[b].0);
        }
        assert forall|a: int| 0 <= a < now.len() implies (#[trigger] now[a]).1.len() > 0 by {
            assert(acc[a].1.len() > 0);
        }
        if other == id {
            assert(is_place(now, id, i));
            lemma_place_unique(now, id, i);
            lemma_place_unique(acc, id, i);
        } else if exists|j: int| is_place(acc, other, j) {
            let j = choose|j: int| is_place(acc, other, j);
            assert(is_place(now, other, j));
            lemma_place_unique(now, other, j);
        } else {
            assert forall|j: int| !is_place(now, other, j) by {
                if is_place(now, other, j) {
                    assert(is_place(acc, other, j));
                }
            }
        }
    } else {
        let n = acc.len() as int;
        assert forall|a: int, b: int| 0 <= a < b < now.len() implies (#[trigger] now[a]).0 != (
        #[trigger] now[b]).0 by {
            if b < n {
                assert(acc[a].0 != acc[b].0);
            } else {
                assert(!is_place(acc, id, a));
            }
        }
        assert forall|a: int| 0 <= a < now.len() implies (#[trigger] now[a]).1.len() > 0 by {
            if a < n {
                assert(acc[a].1.len() > 0);
            }
        }
        if other == id {
            assert(is_place(now, id, n));
            lemma_place_unique(now, id, n);
            assert(items_of(acc, id).push(item) =~= seq![item]);
        } else if exists|j: int| is_place(acc, other, j) {
            let j = choose|j: int| is_place(acc, other, j);
            assert(is_place(now, other, j));
            lemma_place_unique(now, other, j);
        } else {
            assert forall|j: int| !is_place(now, other, j) by {
                if is_place(now, other, j) {
                    assert(is_place(acc, other, j));
                }
            }
        }
    }
}

/// The ids of `acc`, each with its score.
pub open spec fn with_scores<T>(acc: Seq<(u64, Seq<T>)>, scores: Seq<u32>) -> Seq<(u64, u32)> {
    Seq::new(acc.len(), |i: int| (acc[i].0, scores[i]))
}

/// Scoring a list in which no id stands twice repeats none.
pub proof fn lemma_scored_distinct<T>(acc: Seq<(u64, Seq<T>)>, scores: Seq<u32>)
    requires
        distinct_ids(acc),
        scores.len() == acc.len(),
    ensures
        distinct_found(with_scores(acc, scores)),
        with_scores(acc, scores).len() == acc.len(),
{
    let pairs = with_scores(acc, scores);
    assert forall|i: int, j: int| 0 <= i < j < pairs.len() implies (#[trigger] pairs[i]).0 != (
    #[trigger] pairs[j]).0 by {
        assert(acc[i].0 != acc[j].0);
    }
}

pub open spec fn gather_view<T>(acc: Seq<(u64, Vec<T>)>) -> Seq<(u64, Seq<T>)> {
    acc.map_values(|e: (u64, Vec<T>)| (e.0, e.1@))
}

/// Items under their ids, while they are being collected.
pub struct Gathering<T> {
    items: Vec<(u64, Vec<T>)>,
    places: HashMap<u64, usize>,
}

impl<T> View for Gathering<T> {
    type V = Seq<(u64, Seq<T>)>;

    closed spec fn view(&self) -> Seq<(u64, Seq<T>)> {
        gather_view(self.items@)
    }
}

impl<T> Gathering<T> {
    /// Whether the place of each id is known.
    pub closed spec fn well_formed(&self) -> bool {
        &&& forall|id: u64| #[trigger]
            self.places@.contains_key(id) ==> is_place(self@, id, self.places@[id] as int)
        &&& forall|i: int|
            0 <= i < self.items@.len() ==> self.places@.contains_key((#[trigger] self.items@[i]).0)
                && self.places@[self.items@[i].0] == i
    }

    pub fn new() -> (r: Self)
        ensures
            r.well_formed(),
            r@ == Seq::<(u64, Seq<T>)>::empty(),
    {
        let r = Gathering { items: Vec::new(), places: HashMap::new() };
        assert(r@ =~= Seq::<(u64, Seq<T>)>::empty());
        r
    }

    /// Puts `item` behind what `id` has.
    pub fn add_item(&mut self, id: u64, item: T)
        requires
            old(self).well_formed(),
        ensures
            final(self).well_formed(),
            final(self)@ == gathered(old(self)@, id, item),
    {
        let ghost before = self@;
        let ghost items = self.items@;
        proof {
            self.lemma_distinct();
        }
        let place: Option<usize> = match self.places.get(&id) {
            Some(i) => Some(*i),
            None => None,
        };
        match place {
            Some(i) => {
                proof {
                    lemma_place_unique(before, id, i as int);
                }
                self.items[i].1.push(item);
                proof {
                    assert(self@ =~= before.update(i as int, (id, before[i as int].1.push(item))));
                    assert forall|j: int| 0 <= j < self.items@.len() implies (
                    #[trigger] self.items@[j]).0 == items[j].0 by {}
                    assert forall|other: u64| #[trigger]
                        self.places@.contains_key(other) implies is_place(
                        self@,
                        other,
                        self.places@[other] as int,
                    ) by {
                        assert(is_place(before, other, self.places@[other] as int));
                    }
                }
            },
            None => {
                let mut own: Vec<T> = Vec::new();
                own.push(item);
                let n: usize = self.items.len();
                proof {
                    assert(own@ =~= seq![item]);
                    assert forall|j: int| !is_place(before, id, j) by {
                        if is_place(before, id, j) {
                            assert(self.places@.contains_key(items[j].0));
                        }
                    }
                }
                self.items.push((id, own));
                self.places.insert(id, n);
                proof {
                    assert(self@ =~= before.push((id, seq![item])));
                    assert forall|other: u64| #[trigger]
                        self.places@.contains_key(other) implies is_place(
                        self@,
                        other,
                        self.places@[other] as int,
                    ) by {
                        if other != id {
                            assert(is_place(before, other, self.places@[other] as int));
                        }
                    }
                    assert forall|i: int| 0 <= i < self.items@.len() implies self.places@.contains_key(
                        (#[trigger] self.items@[i]).0,
                    ) && self.places@[self.items@[i].0] == i by {
                        if i < n {
                            assert(self.items@[i] == items[i]);
                            assert(!is_place(before, id, i));
                        }
                    }
                }
            },
        }
    }

    /// No id has two places.
    proof fn lemma_distinct(&self)
        requires
            self.well_formed(),
        ensures
            distinct_ids(self@),
    {
        assert forall|i: int, j: int| 0 <= i < j < self@.len() implies (#[trigger] self@[i]).0 != (
        #[trigger] self@[j]).0 by {
            assert(self.places@[self.items@[i].0] == i);
            assert(self.places@[self.items@[j].0] == j);
        }
    }

    /// What was collected.
    pub fn into_items(self) -> (r: Vec<(u64, Vec<T>)>)
        ensures
            gather_view(r@) == self@,
    {
        self.items
    }
}

/// Gives each id its score.
pub fn attach_scores<T>(acc: &Vec<(u64, Vec<T>)>, scores: &Vec<u32>) -> (r: Vec<(u64, u32)>)
    requires
        scores@.len() == acc@.len(),
    ensures
        r@ == with_scores(gather_view(acc@), scores@),
{
    let mut out: Vec<(u64, u32)> = Vec::new();
    let mut i: usize = 0;
    while i < acc.len()
        invariant
            i <= acc@.len(),
            scores@.len() == acc@.len(),
            out@ == with_scores(gather_view(acc@), scores@).take(i as int),
        decreases acc@.len() - i,
    {
        out.push((acc[i].0, scores[i]));
        assert(out@ =~= with_scores(gather_view(acc@), scores@).take(i + 1));
        i = i + 1;
    }
    assert(out@ =~= with_scores(gather_view(acc@), scores@));
    out
}

} // verus!
