//! The flat vector index.
//!
//! Rows stand in one array, row `i` at `i * dim .. (i + 1) * dim`, so that a
//! scan walks through memory from front to back. The components are
//! single-precision numbers, held as their bits: the index stores, finds and
//! ranks rows, and what scores two rows against each other is handed to it.

use vstd::prelude::*;
use crate::gather::{
    by_id, distinct_ids, is_place, lemma_place_unique, lemma_scored_distinct, lemma_stored, stored,
    with_scores,
};
use crate::score::{
    best, keep, law_best_is_a_ranking, law_ranked_keeps_ids, lemma_best_from, lemma_keep_best,
    rank_key, ranked,
};

verus! {

/// What makes two vectors similar. A higher score is more similar under each.
#[derive(Debug, Clone, Copy, PartialEq, Eq, Structural)]
pub enum Metric {
    /// The dot product. Fine for vectors of length one; for others, prefer
    /// `Cosine`.
    Dot,
    /// The squared distance, negated.
    L2,
    Cosine,
}

#[derive(Debug, Clone, Copy, PartialEq, Eq, Structural)]
pub enum VectorError {
    DimensionMismatch { expected: usize, got: usize },
}

pub struct VectorIndex {
    dim: usize,
    ids: Vec<u64>,
    data: Vec<u32>,
}

/// Row `i` of `data`.
pub open spec fn row_of(data: Seq<u32>, dim: nat, i: int) -> Seq<u32> {
    data.subrange(i * dim, (i + 1) * dim)
}

/// `rows` without `id`: the last row takes its place.
pub open spec fn without_row(rows: Seq<(u64, Seq<u32>)>, id: u64) -> Seq<(u64, Seq<u32>)> {
    if exists|i: int| is_place(rows, id, i) {
        rows.update(choose|i: int| is_place(rows, id, i), rows.last()).drop_last()
    } else {
        rows
    }
}

/// Whether `score` may give `s` to a row with the components `row`.
pub open spec fn may_score<F: Fn(Metric, &[u32], &[u32]) -> u32>(
    score: F,
    metric: Metric,
    query: &[u32],
    row: Seq<u32>,
    s: u32,
) -> bool {
    exists|r: &[u32]| r@ == row && #[trigger] call_ensures(score, (metric, query, r), s)
}

/// Whether `scores` are what `score` may give to the rows for `query`.
pub open spec fn are_scores<F: Fn(Metric, &[u32], &[u32]) -> u32>(
    rows: Seq<(u64, Seq<u32>)>,
    score: F,
    metric: Metric,
    query: &[u32],
    scores: Seq<u32>,
) -> bool {
    scores.len() == rows.len() && forall|i: int|
        0 <= i < rows.len() ==> may_score(score, metric, query, rows[i].1, #[trigger] scores[i])
}

/// Whether `out` is what a search may return.
pub open spec fn is_search<F: Fn(Metric, &[u32], &[u32]) -> u32>(
    rows: Seq<(u64, Seq<u32>)>,
    query: &[u32],
    k: nat,
    metric: Metric,
    score: F,
    out: Seq<(u64, u32)>,
) -> bool {
    if k == 0 || rows.len() == 0 {
        out.len() == 0
    } else {
        exists|scores: Seq<u32>| #[trigger]
            are_scores(rows, score, metric, query, scores) && out == best(
                with_scores(rows, scores),
                k,
            )
    }
}

/// After a vector was stored its id has that row and no other, and the rows of
/// all other ids are those that were there.
pub proof fn law_stored_row_is_there(rows: Seq<(u64, Seq<u32>)>, id: u64, v: Seq<u32>)
    requires
        forall|i: int, j: int|
            0 <= i < j < rows.len() ==> (#[trigger] rows[i]).0 != (#[trigger] rows[j]).0,
    ensures
        stored(rows, id, v).contains((id, v)),
        forall|x: (u64, Seq<u32>)|
            x.0 != id ==> (#[trigger] stored(rows, id, v).contains(x) <==> rows.contains(x)),
        forall|i: int, j: int|
            0 <= i < j < stored(rows, id, v).len() ==> (#[trigger] stored(rows, id, v)[i]).0 != (
            #[trigger] stored(rows, id, v)[j]).0,
        stored(rows, id, v).len() == rows.len() + if exists|i: int|
            0 <= i < rows.len() && (#[trigger] rows[i]).0 == id {
            0int
        } else {
            1int
        },
{
    let now = stored(rows, id, v);
    law_store_then_read(rows, id, v);
    if exists|i: int| 0 <= i < rows.len() && (#[trigger] rows[i]).0 == id {
        let i = choose|i: int| 0 <= i < rows.len() && (#[trigger] rows[i]).0 == id;
        assert(is_place(rows, id, i));
    }
    let p = if exists|i: int| is_place(rows, id, i) {
        choose|i: int| is_place(rows, id, i)
    } else {
        rows.len() as int
    };
    assert(now[p] == (id, v));
    assert forall|x: (u64, Seq<u32>)| x.0 != id implies (#[trigger] now.contains(x)
        <==> rows.contains(x)) by {
        if now.contains(x) {
            let i = choose|i: int| 0 <= i < now.len() && now[i] == x;
            assert(i != p);
            assert(rows[i] == x);
        }
        if rows.contains(x) {
            let i = choose|i: int| 0 <= i < rows.len() && rows[i] == x;
            assert(now[i] == x);
        }
    }
}

/// After an id was removed it has no row, and the rows of all other ids are those
/// that were there.
pub proof fn law_removed_row_is_gone(rows: Seq<(u64, Seq<u32>)>, id: u64)
    requires
        forall|i: int, j: int|
            0 <= i < j < rows.len() ==> (#[trigger] rows[i]).0 != (#[trigger] rows[j]).0,
    ensures
        forall|x: (u64, Seq<u32>)| #[trigger]
            without_row(rows, id).contains(x) <==> rows.contains(x) && x.0 != id,
        forall|i: int, j: int|
            0 <= i < j < without_row(rows, id).len() ==> (#[trigger] without_row(rows, id)[i]).0
                != (#[trigger] without_row(rows, id)[j]).0,
        without_row(rows, id).len() == rows.len() - if exists|i: int|
            0 <= i < rows.len() && (#[trigger] rows[i]).0 == id {
            1int
        } else {
            0int
        },
{
    let now = without_row(rows, id);
    law_remove_then_read(rows, id);
    if exists|i: int| 0 <= i < rows.len() && (#[trigger] rows[i]).0 == id {
        let i = choose|i: int| 0 <= i < rows.len() && (#[trigger] rows[i]).0 == id;
        assert(is_place(rows, id, i));
    }
    assert forall|x: (u64, Seq<u32>)| #[trigger]
        now.contains(x) <==> rows.contains(x) && x.0 != id by {
        if exists|i: int| is_place(rows, id, i) {
            let p = choose|i: int| is_place(rows, id, i);
            let last = rows.len() - 1;
            lemma_place_unique(rows, id, p);
            if now.contains(x) {
                let i = choose|i: int| 0 <= i < now.len() && now[i] == x;
                if i == p {
                    assert(rows[last] == x);
                    assert(rows[p].0 != rows[last].0);
                } else {
                    assert(rows[i] == x);
                    assert(!is_place(rows, id, i));
                }
            }
            if rows.contains(x) && x.0 != id {
                let i = choose|i: int| 0 <= i < rows.len() && rows[i] == x;
                if i == last {
                    assert(now[p] == x);
                } else {
                    assert(now[i] == x);
                }
            }
        } else if rows.contains(x) {
            let i = choose|i: int| 0 <= i < rows.len() && rows[i] == x;
            assert(!is_place(rows, id, i));
        }
    }
}

/// A search for no rows, and one in an index without rows, gives nothing.
pub proof fn law_search_for_none_gives_none<F: Fn(Metric, &[u32], &[u32]) -> u32>(
    rows: Seq<(u64, Seq<u32>)>,
    query: &[u32],
    k: nat,
    metric: Metric,
    score: F,
    out: Seq<(u64, u32)>,
)
    requires
        k == 0 || rows.len() == 0,
    ensures
        is_search(rows, query, k, metric, score, out) <==> out.len() == 0,
{
}

/// A vector search gives the rows that score best: as many as were asked for, or
/// all; each with the score that the function gave for the metric, the query and
/// the components of that row; none twice; from the best score to the worst; and
/// every row that was left out has a score that is no better.
pub proof fn law_search_gives_the_best_rows<F: Fn(Metric, &[u32], &[u32]) -> u32>(
    rows: Seq<(u64, Seq<u32>)>,
    query: &[u32],
    k: nat,
    metric: Metric,
    score: F,
    out: Seq<(u64, u32)>,
) -> (scores: Seq<u32>)
    requires
        forall|i: int, j: int|
            0 <= i < j < rows.len() ==> (#[trigger] rows[i]).0 != (#[trigger] rows[j]).0,
        k > 0,
        rows.len() > 0,
        is_search(rows, query, k, metric, score, out),
    ensures
        scores.len() == rows.len(),
        forall|j: int, s: u32|
            #![trigger has_score(scores, j, s)]
            0 <= j < rows.len() && has_score(scores, j, s) ==> exists|row: &[u32]|
                row@ == rows[j].1 && #[trigger] call_ensures(score, (metric, query, row), s),
        out.len() == if k < rows.len() {
            k
        } else {
            rows.len()
        },
        forall|i: int, j: int|
            0 <= i < j < out.len() ==> (#[trigger] out[i]).0 != (#[trigger] out[j]).0 && rank_key(
                out[i].1,
            ) >= rank_key(out[j].1),
        forall|i: int| 0 <= i < out.len() ==> scored_row(rows, scores, #[trigger] out[i]),
        forall|i: int, j: int|
            0 <= i < out.len() && 0 <= j < rows.len() ==> out.contains(
                ((#[trigger] rows[j]).0, scores[j]),
            ) || rank_key((#[trigger] out[i]).1) >= rank_key(scores[j]),
{
    let scores = choose|scores: Seq<u32>| #[trigger]
        are_scores(rows, score, metric, query, scores) && out == best(
            with_scores(rows, scores),
            k,
        );
    let pairs = with_scores(rows, scores);
    assert forall|j: int, s: u32|
        #![trigger has_score(scores, j, s)]
        0 <= j < rows.len() && has_score(scores, j, s) implies exists|row: &[u32]|
        row@ == rows[j].1 && #[trigger] call_ensures(score, (metric, query, row), s) by {
        assert(may_score(score, metric, query, rows[j].1, scores[j]));
    }
    lemma_scored_distinct(rows, scores);
    law_ranked_keeps_ids(pairs);
    law_best_is_a_ranking(pairs, k);
    assert forall|i: int, j: int| 0 <= i < j < out.len() implies (#[trigger] out[i]).0 != (
    #[trigger] out[j]).0 && rank_key(out[i].1) >= rank_key(out[j].1) by {
        assert(ranked(pairs)[i].0 != ranked(pairs)[j].0);
    }
    assert forall|i: int| 0 <= i < out.len() implies scored_row(
        rows,
        scores,
        #[trigger] out[i],
    ) by {
        let j = lemma_best_from(pairs, k, i);
        assert(rows[j].0 == out[i].0 && scores[j] == out[i].1);
    }
    assert forall|i: int, j: int| 0 <= i < out.len() && 0 <= j < rows.len() implies out.contains(
        ((#[trigger] rows[j]).0, scores[j]),
    ) || rank_key((#[trigger] out[i]).1) >= rank_key(scores[j]) by {
        assert(pairs[j] == (rows[j].0, scores[j]));
    }
    scores
}

/// Whether score `j` is `s`.
pub open spec fn has_score(scores: Seq<u32>, j: int, s: u32) -> bool {
    scores[j] == s
}

/// Whether `x` is the id of a row with the row's score.
pub open spec fn scored_row(
    rows: Seq<(u64, Seq<u32>)>,
    scores: Seq<u32>,
    x: (u64, u32),
) -> bool {
    exists|j: int| 0 <= j < rows.len() && (#[trigger] rows[j]).0 == x.0 && scores[j] == x.1
}

/// Storing a vector under an id gives the id that vector and changes no other.
pub proof fn law_store_then_read(rows: Seq<(u64, Seq<u32>)>, id: u64, v: Seq<u32>)
    requires
        distinct_ids(rows),
    ensures
        distinct_ids(stored(rows, id, v)),
        by_id(stored(rows, id, v)) == by_id(rows).insert(id, v),
{
    lemma_stored(rows, id, v);
}

/// Removing an id takes its vector away and changes no other.
pub proof fn law_remove_then_read(rows: Seq<(u64, Seq<u32>)>, id: u64)
    requires
        distinct_ids(rows),
    ensures
        distinct_ids(without_row(rows, id)),
        by_id(without_row(rows, id)) == by_id(rows).remove(id),
{
    let now = without_row(rows, id);
    if exists|i: int| is_place(rows, id, i) {
        let p = choose|i: int| is_place(rows, id, i);
        let last = rows.len() - 1;
        lemma_place_unique(rows, id, p);
        assert forall|i: int, j: int| 0 <= i < j < now.len() implies (#[trigger] now[i]).0 != (
        #[trigger] now[j]).0 by {
            assert(rows[i].0 != rows[j].0);
            assert(rows[i].0 != rows[last].0);
            assert(rows[j].0 != rows[last].0);
        }
        assert forall|other: u64| #[trigger] by_id(now).contains_key(other) == by_id(
            rows,
        ).remove(id).contains_key(other) && (by_id(now).contains_key(other) ==> by_id(
            now,
        )[other] == by_id(rows).remove(id)[other]) by {
            if exists|i: int| is_place(now, other, i) {
                let i = choose|i: int| is_place(now, other, i);
                let from = if i == p { last } else { i };
                assert(is_place(rows, other, from));
                lemma_place_unique(rows, other, from);
                assert(other != id);
            }
            if other != id && exists|i: int| is_place(rows, other, i) {
                let i = choose|i: int| is_place(rows, other, i);
                let to = if i == last { p } else { i };
                assert(is_place(now, other, to));
                lemma_place_unique(now, other, to);
            }
        }
    } else {
        assert(!by_id(rows).contains_key(id));
    }
    assert(by_id(now) =~= by_id(rows).remove(id));
}

/// Where a row lies in the array.
proof fn lemma_row_bounds(i: int, n: int, dim: int)
    requires
        0 <= i < n,
        0 <= dim,
    ensures
        0 <= i * dim <= (i + 1) * dim <= n * dim,
        (i + 1) * dim == i * dim + dim,
{
    assert(0 <= i * dim) by (nonlinear_arith)
        requires
            0 <= i,
            0 <= dim,
    ;
    assert((i + 1) * dim == i * dim + dim) by (nonlinear_arith);
    assert((i + 1) * dim <= n * dim) by (nonlinear_arith)
        requires
            i + 1 <= n,
            0 <= dim,
    ;
}

/// Of two rows the earlier one ends before the later one begins.
proof fn lemma_rows_apart(i: int, j: int, dim: int)
    requires
        0 <= i < j,
        0 <= dim,
    ensures
        (i + 1) * dim <= j * dim,
{
    assert((i + 1) * dim <= j * dim) by (nonlinear_arith)
        requires
            i + 1 <= j,
            0 <= dim,
    ;
}

impl View for VectorIndex {
    type V = Seq<(u64, Seq<u32>)>;

    /// The rows, each with its id.
    closed spec fn view(&self) -> Seq<(u64, Seq<u32>)> {
        Seq::new(
            self.ids@.len(),
            |i: int| (self.ids@[i], row_of(self.data@, self.dim as nat, i)),
        )
    }
}

impl VectorIndex {
    /// How many components a vector has.
    pub closed spec fn width(&self) -> usize {
        self.dim
    }

    /// Whether every id has one row, and every row its components.
    pub open spec fn well_formed(&self) -> bool {
        distinct_ids(self@) && self.filled()
    }

    /// Whether the array holds as many components as the rows have.
    pub closed spec fn filled(&self) -> bool {
        self.data@.len() == self.ids@.len() * self.dim
    }

    pub fn new(dim: usize) -> (r: Self)
        ensures
            r.well_formed(),
            r.width() == dim,
            r@ == Seq::<(u64, Seq<u32>)>::empty(),
    {
        let r = VectorIndex { dim, ids: Vec::new(), data: Vec::new() };
        assert(r@ =~= Seq::<(u64, Seq<u32>)>::empty());
        assert(0 * dim == 0) by (nonlinear_arith);
        r
    }

    pub fn dim(&self) -> (r: usize)
        ensures
            r == self.width(),
    {
        self.dim
    }

    pub fn len(&self) -> (r: usize)
        ensures
            r == self@.len(),
    {
        self.ids.len()
    }

    pub fn is_empty(&self) -> (r: bool)
        ensures
            r == (self@.len() == 0),
    {
        self.ids.len() == 0
    }

    /// The place of `id`, if it is there.
    fn position(&self, id: u64) -> (r: Option<usize>)
        ensures
            match r {
                Some(p) => is_place(self@, id, p as int),
                None => forall|i: int| !is_place(self@, id, i),
            },
    {
        let mut i: usize = 0;
        while i < self.ids.len()
            invariant
                i <= self.ids@.len(),
                forall|j: int| 0 <= j < i ==> !#[trigger] is_place(self@, id, j),
            decreases self.ids@.len() - i,
        {
            if self.ids[i] == id {
                assert(is_place(self@, id, i as int));
                return Some(i);
            }
            assert(!is_place(self@, id, i as int));
            i = i + 1;
        }
        assert forall|j: int| !is_place(self@, id, j) by {}
        None
    }

    /// Overwrites row `p`.
    fn set_row(&mut self, p: usize, vector: &[u32])
        requires
            old(self).well_formed(),
            p < old(self)@.len(),
            vector@.len() == old(self).width(),
        ensures
            final(self).well_formed(),
            final(self).width() == old(self).width(),
            final(self)@ == old(self)@.update(p as int, (old(self)@[p as int].0, vector@)),
    {
        let dim: usize = self.dim;
        let ghost before = self.data@;
        let ghost n = self.ids@.len() as int;
        proof {
            lemma_row_bounds(p as int, n, dim as int);
        }
        let end: usize = self.data.len();
        let start: usize = p * dim;
        let mut d: usize = 0;
        while d < dim
            invariant
                d <= dim,
                dim == vector@.len(),
                start == p * dim,
                start + dim <= end,
                end == self.data@.len(),
                self.dim == dim,
                self.ids@ == old(self).ids@,
                before.len() == end,
                forall|a: int|
                    0 <= a < end ==> #[trigger] self.data@[a] == if start <= a < start + d {
                        vector@[a - start]
                    } else {
                        before[a]
                    },
            decreases dim - d,
        {
            self.data.set(start + d, vector[d]);
            d = d + 1;
        }
        proof {
            let now = self@;
            let want = old(self)@.update(p as int, (old(self)@[p as int].0, vector@));
            assert forall|i: int| 0 <= i < n implies #[trigger] now[i] == want[i] by {
                lemma_row_bounds(i, n, dim as int);
                if i < p {
                    lemma_rows_apart(i, p as int, dim as int);
                } else if i > p {
                    lemma_rows_apart(p as int, i, dim as int);
                }
                assert(now[i].1 =~= want[i].1);
            }
            assert(now =~= want);
            assert forall|i: int, j: int| 0 <= i < j < now.len() implies (#[trigger] now[i]).0 != (
            #[trigger] now[j]).0 by {
                assert(old(self)@[i].0 != old(self)@[j].0);
            }
        }
    }

    /// Stores `vector` under `id`, in the place of the one that `id` had.
    pub fn insert(&mut self, id: u64, vector: &[u32]) -> (r: Result<(), VectorError>)
        requires
            old(self).well_formed(),
        ensures
            final(self).well_formed(),
            final(self).width() == old(self).width(),
            match r {
                Ok(_) => vector@.len() == old(self).width() && final(self)@ == stored(
                    old(self)@,
                    id,
                    vector@,
                ),
                Err(VectorError::DimensionMismatch { expected, got }) => vector@.len() != old(
                    self,
                ).width() && expected == old(self).width() && got == vector@.len()
                    && final(self)@ == old(self)@,
            },
    {
        if vector.len() != self.dim {
            return Err(
                VectorError::DimensionMismatch { expected: self.dim, got: vector.len() },
            );
        }
        let ghost before = self@;
        proof {
            law_store_then_read(before, id, vector@);
        }
        match self.position(id) {
            Some(p) => {
                proof {
                    lemma_place_unique(before, id, p as int);
                }
                self.set_row(p, vector);
            },
            None => {
                let ghost n = self.ids@.len() as int;
                let ghost data = self.data@;
                self.ids.push(id);
                self.data.extend_from_slice(vector);
                proof {
                    let dim = self.dim as int;
                    lemma_row_bounds(n, n + 1, dim);
                    let now = self@;
                    let want = before.push((id, vector@));
                    assert(self.data@ =~= data + vector@);
                    assert forall|i: int| 0 <= i < now.len() implies #[trigger] now[i] == want[i] by {
                        lemma_row_bounds(i, n + 1, dim);
                        if i < n {
                            lemma_row_bounds(i, n, dim);
                        }
                        assert(now[i].1 =~= want[i].1);
                    }
                    assert(now =~= want);
                }
            },
        }
        Ok(())
    }

    /// Takes `id` and its vector away; `false` if it was not there.
    pub fn remove(&mut self, id: u64) -> (r: bool)
        requires
            old(self).well_formed(),
        ensures
            final(self).well_formed(),
            final(self).width() == old(self).width(),
            final(self)@ == without_row(old(self)@, id),
            r == (exists|i: int| is_place(old(self)@, id, i)),
    {
        let ghost before = self@;
        proof {
            law_remove_then_read(before, id);
        }
        let p: usize = match self.position(id) {
            Some(p) => p,
            None => {
                return false;
            },
        };
        let last: usize = self.ids.len() - 1;
        let mut last_row: Vec<u32> = Vec::new();
        last_row.extend_from_slice(self.row(last));
        assert(last_row@ =~= before[last as int].1);
        proof {
            lemma_place_unique(before, id, p as int);
            lemma_row_bounds(last as int, last + 1, self.dim as int);
        }
        self.set_row(p, last_row.as_slice());
        let last_id: u64 = self.ids[last];
        let ghost middle = self@;
        let ghost data = self.data@;
        let ghost ids = self.ids@;
        self.ids.set(p, last_id);
        self.ids.pop();
        proof {
            lemma_row_bounds(last as int, last + 1, self.dim as int);
        }
        assert(self.data.len() == self.data@.len());
        self.data.truncate(last * self.dim);
        proof {
            let dim = self.dim as int;
            let now = self@;
            let want = before.update(p as int, before.last()).drop_last();
            assert(last_id == middle[last as int].0);
            assert(middle[last as int].0 == before[last as int].0);
            assert forall|i: int| 0 <= i < now.len() implies #[trigger] now[i] == want[i] by {
                lemma_row_bounds(i, last as int, dim);
                lemma_row_bounds(i, last + 1, dim);
                assert(now[i].1 =~= middle[i].1);
                assert(now[i].0 == if i == p { last_id } else { ids[i] });
                assert(ids[i] == middle[i].0);
            }
            assert(now =~= want);
        }
        true
    }

    /// Row `i`.
    pub fn row(&self, i: usize) -> (r: &[u32])
        requires
            self.well_formed(),
            i < self@.len(),
        ensures
            r@ == self@[i as int].1,
    {
        proof {
            lemma_row_bounds(i as int, self.ids@.len() as int, self.dim as int);
        }
        assert(self.data.len() == self.data@.len());
        let start: usize = i * self.dim;
        vstd::slice::slice_subrange(self.data.as_slice(), start, start + self.dim)
    }

    /// The `k` best rows by `scores`, of which there is one for each row.
    pub fn rank(&self, scores: &Vec<u32>, k: usize) -> (r: Vec<(u64, u32)>)
        requires
            scores@.len() == self@.len(),
        ensures
            r@ == best(with_scores(self@, scores@), k as nat),
    {
        let ghost all = with_scores(self@, scores@);
        let mut out: Vec<(u64, u32)> = Vec::new();
        let mut i: usize = 0;
        assert(all.take(0) =~= Seq::<(u64, u32)>::empty());
        while i < self.ids.len()
            invariant
                i <= self.ids@.len(),
                scores@.len() == self.ids@.len(),
                all == with_scores(self@, scores@),
                out@ == best(all.take(i as int), k as nat),
            decreases self.ids@.len() - i,
        {
            proof {
                assert(all.take(i as int).push(all[i as int]) =~= all.take(i + 1));
                lemma_keep_best(all.take(i as int), all[i as int], k as nat);
            }
            keep(&mut out, (self.ids[i], scores[i]), k);
            i = i + 1;
        }
        assert(all.take(i as int) =~= all);
        out
    }

    /// The `k` rows that are most similar to `query`, from the best score to the
    /// worst. `score` gives the score of a row under the metric: it gets the
    /// metric, the query and the row.
    pub fn search<F: Fn(Metric, &[u32], &[u32]) -> u32>(
        &self,
        query: &[u32],
        k: usize,
        metric: Metric,
        score: F,
    ) -> (r: Result<Vec<(u64, u32)>, VectorError>)
        requires
            self.well_formed(),
            forall|row: &[u32]|
                row@.len() == self.width() && query@.len() == self.width()
                    ==> #[trigger] call_requires(score, (metric, query, row)),
        ensures
            match r {
                Ok(out) => query@.len() == self.width() && is_search(
                    self@,
                    query,
                    k as nat,
                    metric,
                    score,
                    out@,
                ),
                Err(VectorError::DimensionMismatch { expected, got }) => query@.len()
                    != self.width() && expected == self.width() && got == query@.len(),
            },
    {
        if query.len() != self.dim {
            return Err(VectorError::DimensionMismatch { expected: self.dim, got: query.len() });
        }
        if k == 0 || self.is_empty() {
            return Ok(Vec::new());
        }
        let mut out: Vec<(u64, u32)> = Vec::new();
        let ghost mut scores: Seq<u32> = Seq::empty();
        let mut i: usize = 0;
        assert(with_scores(self@.take(0), scores) =~= Seq::<(u64, u32)>::empty());
        while i < self.ids.len()
            invariant
                i <= self.ids@.len(),
                self.well_formed(),
                query@.len() == self.width(),
                forall|row: &[u32]|
                    row@.len() == self.width() && query@.len() == self.width()
                        ==> #[trigger] call_requires(score, (metric, query, row)),
                scores.len() == i,
                forall|j: int|
                    0 <= j < i ==> may_score(
                        score,
                        metric,
                        query,
                        self@[j].1,
                        #[trigger] scores[j],
                    ),
                out@ == best(with_scores(self@.take(i as int), scores), k as nat),
            decreases self.ids@.len() - i,
        {
            proof {
                lemma_row_bounds(i as int, self.ids@.len() as int, self.dim as int);
            }
            let row: &[u32] = self.row(i);
            let s: u32 = score(metric, query, row);
            proof {
                assert(may_score(score, metric, query, self@[i as int].1, s));
                let before = with_scores(self@.take(i as int), scores);
                let x = (self@[i as int].0, s);
                assert(before.push(x) =~= with_scores(self@.take(i + 1), scores.push(s)));
                lemma_keep_best(before, x, k as nat);
                scores = scores.push(s);
            }
            keep(&mut out, (self.ids[i], s), k);
            i = i + 1;
        }
        assert(self@.take(i as int) =~= self@);
        assert(are_scores(self@, score, metric, query, scores));
        Ok(out)
    }
}

} // verus!
