//! A map from terms, kept as a list that is sorted by the terms' bytes.

use vstd::prelude::*;
use vstd::utf8::{encode_utf8, encode_utf8_decode_utf8};
use crate::order::{compare_bytes, lemma_lex_total, lemma_lex_trans, lex_less, Order};

verus! {

pub struct TermMap<V> {
    pub entries: Vec<(String, V)>,
}

/// Whether the term `a` stands before the term `b`.
pub open spec fn term_before(a: Seq<char>, b: Seq<char>) -> bool {
    lex_less(encode_utf8(a), encode_utf8(b))
}

/// Whether `term` stands at place `i`.
pub open spec fn is_term<V>(entries: Seq<(String, V)>, term: Seq<char>, i: int) -> bool {
    0 <= i < entries.len() && entries[i].0@ == term
}

/// Whether the terms are sorted, with none twice.
pub open spec fn terms_sorted<V>(entries: Seq<(String, V)>) -> bool {
    forall|i: int, j: int|
        0 <= i < j < entries.len() ==> term_before(
            (#[trigger] entries[i]).0@,
            (#[trigger] entries[j]).0@,
        )
}

/// The values by their terms.
pub open spec fn by_term<V>(entries: Seq<(String, V)>) -> Map<Seq<char>, V> {
    Map::new(
        |t: Seq<char>| exists|i: int| is_term(entries, t, i),
        |t: Seq<char>| entries[choose|i: int| is_term(entries, t, i)].1,
    )
}

proof fn lemma_bytes_decide(a: Seq<char>, b: Seq<char>)
    ensures
        encode_utf8(a) == encode_utf8(b) ==> a == b,
{
    encode_utf8_decode_utf8(a);
    encode_utf8_decode_utf8(b);
}

/// Of two terms one stands before the other, or they are the same.
pub proof fn lemma_term_total(a: Seq<char>, b: Seq<char>)
    ensures
        term_before(a, b) ==> !term_before(b, a) && a != b,
        !term_before(a, b) && !term_before(b, a) ==> a == b,
{
    lemma_bytes_decide(a, b);
    lemma_lex_total(encode_utf8(a), encode_utf8(b));
    lemma_lex_total(encode_utf8(b), encode_utf8(a));
    lemma_lex_total(encode_utf8(a), encode_utf8(a));
}

pub proof fn lemma_term_trans(a: Seq<char>, b: Seq<char>, c: Seq<char>)
    requires
        term_before(a, b),
        term_before(b, c),
    ensures
        term_before(a, c),
{
    lemma_lex_trans(encode_utf8(a), encode_utf8(b), encode_utf8(c));
}

/// A term stands in one place, and the map has the value there.
pub proof fn lemma_term_place<V>(entries: Seq<(String, V)>, term: Seq<char>, i: int)
    requires
        terms_sorted(entries),
        is_term(entries, term, i),
    ensures
        by_term(entries).contains_key(term),
        by_term(entries)[term] == entries[i].1,
        forall|j: int| #[trigger] is_term(entries, term, j) ==> j == i,
{
    assert forall|j: int| #[trigger] is_term(entries, term, j) implies j == i by {
        if j < i {
            lemma_term_total(entries[j].0@, entries[i].0@);
        } else if i < j {
            lemma_term_total(entries[i].0@, entries[j].0@);
        }
    }
    let c = choose|c: int| is_term(entries, term, c);
    assert(is_term(entries, term, c));
}

/// Changing the value of a term changes no other.
pub proof fn lemma_term_updated<V>(before: Seq<(String, V)>, now: Seq<(String, V)>, i: int)
    requires
        terms_sorted(before),
        0 <= i < before.len(),
        now.len() == before.len(),
        now[i].0@ == before[i].0@,
        forall|j: int| 0 <= j < before.len() && j != i ==> #[trigger] now[j] == before[j],
    ensures
        terms_sorted(now),
        by_term(now) == by_term(before).insert(before[i].0@, now[i].1),
{
    let term = before[i].0@;
    assert forall|a: int, b: int| 0 <= a < b < now.len() implies term_before(
        (#[trigger] now[a]).0@,
        (#[trigger] now[b]).0@,
    ) by {
        assert(term_before(before[a].0@, before[b].0@));
        assert(a == i || now[a] == before[a]);
        assert(b == i || now[b] == before[b]);
    }
    assert forall|t: Seq<char>| #[trigger] by_term(now).contains_key(t) == by_term(before).insert(
        term,
        now[i].1,
    ).contains_key(t) && (by_term(now).contains_key(t) ==> by_term(now)[t] == by_term(
        before,
    ).insert(term, now[i].1)[t]) by {
        if exists|j: int| is_term(now, t, j) {
            let j = choose|j: int| is_term(now, t, j);
            assert(j == i || now[j] == before[j]);
            assert(is_term(before, t, j));
            lemma_term_place(now, t, j);
            lemma_term_place(before, t, j);
            if t == term {
                assert(is_term(before, t, i));
            }
        }
        if exists|j: int| is_term(before, t, j) {
            let j = choose|j: int| is_term(before, t, j);
            assert(j == i || now[j] == before[j]);
            assert(is_term(now, t, j));
        }
        if t == term {
            assert(is_term(now, t, i));
        }
    }
    assert(by_term(now) =~= by_term(before).insert(term, now[i].1));
}

/// Putting a new term in its place changes no other.
pub proof fn lemma_term_inserted<V>(before: Seq<(String, V)>, p: int, entry: (String, V))
    requires
        terms_sorted(before),
        0 <= p <= before.len(),
        forall|i: int| 0 <= i < p ==> term_before((#[trigger] before[i]).0@, entry.0@),
        forall|i: int| p <= i < before.len() ==> term_before(entry.0@, (#[trigger] before[i]).0@),
    ensures
        terms_sorted(before.insert(p, entry)),
        by_term(before.insert(p, entry)) == by_term(before).insert(entry.0@, entry.1),
        !by_term(before).contains_key(entry.0@),
{
    let now = before.insert(p, entry);
    let term = entry.0@;
    assert forall|a: int, b: int| 0 <= a < b < now.len() implies term_before(
        (#[trigger] now[a]).0@,
        (#[trigger] now[b]).0@,
    ) by {
        let oa = if a < p { a } else { a - 1 };
        let ob = if b < p { b } else { b - 1 };
        if a != p && b != p {
            assert(term_before(before[oa].0@, before[ob].0@));
        } else if a == p {
            assert(term_before(term, before[ob].0@));
        } else {
            assert(term_before(before[oa].0@, term));
        }
    }
    assert(!by_term(before).contains_key(term)) by {
        if exists|i: int| is_term(before, term, i) {
            let i = choose|i: int| is_term(before, term, i);
            lemma_term_total(before[i].0@, term);
            lemma_term_total(term, before[i].0@);
        }
    }
    assert forall|t: Seq<char>| #[trigger] by_term(now).contains_key(t) == by_term(before).insert(
        term,
        entry.1,
    ).contains_key(t) && (by_term(now).contains_key(t) ==> by_term(now)[t] == by_term(
        before,
    ).insert(term, entry.1)[t]) by {
        if exists|j: int| is_term(now, t, j) {
            let j = choose|j: int| is_term(now, t, j);
            lemma_term_place(now, t, j);
            if j != p {
                let o = if j < p { j } else { j - 1 };
                assert(is_term(before, t, o));
                lemma_term_place(before, t, o);
            }
        }
        if exists|o: int| is_term(before, t, o) {
            let o = choose|o: int| is_term(before, t, o);
            let j = if o < p { o } else { o + 1 };
            assert(is_term(now, t, j));
        }
        if t == term {
            assert(is_term(now, t, p));
        }
    }
    assert(by_term(now) =~= by_term(before).insert(term, entry.1));
}

/// There are as many terms as places.
pub proof fn lemma_term_count<V>(entries: Seq<(String, V)>)
    requires
        terms_sorted(entries),
    ensures
        by_term(entries).dom().finite(),
        by_term(entries).dom().len() == entries.len(),
    decreases entries.len(),
{
    if entries.len() > 0 {
        let before = entries.drop_last();
        let last = entries.last();
        let n = before.len() as int;
        assert forall|i: int, j: int| 0 <= i < j < before.len() implies term_before(
            (#[trigger] before[i]).0@,
            (#[trigger] before[j]).0@,
        ) by {
            assert(term_before(entries[i].0@, entries[j].0@));
        }
        assert forall|i: int| 0 <= i < n implies term_before(
            (#[trigger] before[i]).0@,
            last.0@,
        ) by {
            assert(term_before(entries[i].0@, entries[n].0@));
        }
        lemma_term_count(before);
        lemma_term_inserted(before, n, last);
        assert(before.insert(n, last) =~= entries);
        assert(by_term(entries).dom() =~= by_term(before).dom().insert(last.0@));
    } else {
        assert(by_term(entries).dom() =~= Set::<Seq<char>>::empty());
    }
}

impl<V> View for TermMap<V> {
    type V = Map<Seq<char>, V>;

    open spec fn view(&self) -> Map<Seq<char>, V> {
        by_term(self.list())
    }
}

impl<V> TermMap<V> {
    /// The terms with their values, in order.
    pub open spec fn list(&self) -> Seq<(String, V)> {
        self.entries@
    }

    pub open spec fn well_formed(&self) -> bool {
        terms_sorted(self.list())
    }

    pub fn new() -> (r: Self)
        ensures
            r.well_formed(),
            r@ == Map::<Seq<char>, V>::empty(),
            r.list().len() == 0,
    {
        let r = TermMap { entries: Vec::new() };
        assert(r@ =~= Map::<Seq<char>, V>::empty());
        r
    }

    /// How many terms there are.
    pub fn len(&self) -> (r: usize)
        requires
            self.well_formed(),
        ensures
            r == self.list().len(),
            self@.dom().finite(),
            r == self@.dom().len(),
    {
        proof {
            lemma_term_count(self.list());
        }
        self.entries.len()
    }

    /// The place of `term`, or else the place where it would stand.
    pub fn position(&self, term: &String) -> (r: Result<usize, usize>)
        requires
            self.well_formed(),
        ensures
            match r {
                Ok(i) => is_term(self.list(), term@, i as int),
                Err(p) => {
                    &&& p <= self.list().len()
                    &&& forall|i: int|
                        0 <= i < p ==> term_before((#[trigger] self.list()[i]).0@, term@)
                    &&& forall|i: int|
                        p <= i < self.list().len() ==> term_before(
                            term@,
                            (#[trigger] self.list()[i]).0@,
                        )
                },
            },
    {
        let ghost es = self.entries@;
        let mut lo: usize = 0;
        let mut hi: usize = self.entries.len();
        while lo < hi
            invariant
                lo <= hi <= self.entries@.len(),
                es == self.entries@,
                terms_sorted(es),
                forall|i: int| 0 <= i < lo ==> term_before((#[trigger] es[i]).0@, term@),
                forall|i: int| hi <= i < es.len() ==> term_before(term@, (#[trigger] es[i]).0@),
            decreases hi - lo,
        {
            let mid: usize = lo + (hi - lo) / 2;
            let here: &String = &self.entries[mid].0;
            proof {
                lemma_bytes_decide(here@, term@);
                lemma_lex_total(encode_utf8(here@), encode_utf8(term@));
                lemma_lex_total(encode_utf8(term@), encode_utf8(here@));
            }
            match compare_bytes(here.as_str().as_bytes(), term.as_str().as_bytes()) {
                Order::Less => {
                    proof {
                        assert forall|i: int| 0 <= i < mid + 1 implies term_before(
                            (#[trigger] es[i]).0@,
                            term@,
                        ) by {
                            if i < mid {
                                lemma_term_trans(es[i].0@, es[mid as int].0@, term@);
                            }
                        }
                    }
                    lo = mid + 1;
                },
                Order::Equal => {
                    return Ok(mid);
                },
                Order::Greater => {
                    proof {
                        assert forall|i: int| mid <= i < es.len() implies term_before(
                            term@,
                            (#[trigger] es[i]).0@,
                        ) by {
                            if i > mid {
                                lemma_term_trans(term@, es[mid as int].0@, es[i].0@);
                            }
                        }
                    }
                    hi = mid;
                },
            }
        }
        Err(lo)
    }

    /// The value of `term`.
    pub fn get(&self, term: &String) -> (r: Option<&V>)
        requires
            self.well_formed(),
        ensures
            match r {
                Some(v) => self@.contains_key(term@) && *v == self@[term@],
                None => !self@.contains_key(term@),
            },
    {
        match self.position(term) {
            Ok(i) => {
                proof {
                    lemma_term_place(self.entries@, term@, i as int);
                }
                Some(&self.entries[i].1)
            },
            Err(p) => {
                assert(!self@.contains_key(term@)) by {
                    if exists|i: int| is_term(self.entries@, term@, i) {
                        let i = choose|i: int| is_term(self.entries@, term@, i);
                        lemma_term_total(self.entries@[i].0@, term@);
                        lemma_term_total(term@, self.entries@[i].0@);
                    }
                }
                None
            },
        }
    }
}

} // verus!
