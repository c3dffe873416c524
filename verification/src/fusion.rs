//! Reciprocal rank fusion.
//!
//! Scores of different searches live on different scales, so that adding them
//! up means little. Fusion goes by rank instead: each list adds
//! `1 / (k + rank)` to an id's score, with ranks counted from one. The ranks
//! are gathered here; the fractions are single-precision numbers and come from
//! the caller.

use vstd::prelude::*;
use crate::gather::{
    attach_scores, gather_view, gathered, is_place, items_of, lemma_gathered, lemma_place_unique,
    lemma_scored_distinct, sound, with_scores, Gathering,
};
use crate::score::{
    best, found_ids, law_ranked_descends, law_ranked_keeps_ids, law_ranked_permutes,
    lemma_best_from, rank, rank_key, ranked,
};

verus! {

/// `acc` with the ranks, from zero on, of the first `n` ids of `list`.
pub open spec fn with_list(acc: Seq<(u64, Seq<usize>)>, list: Seq<(u64, u32)>, n: nat) -> Seq<
    (u64, Seq<usize>),
>
    decreases n,
{
    if n == 0 {
        acc
    } else {
        let rank = (n - 1) as nat;
        gathered(with_list(acc, list, rank), list[rank as int].0, rank as usize)
    }
}

/// The ids of all lists, in the order in which they are first met, each with
/// its ranks.
pub open spec fn fused_ranks(lists: Seq<Seq<(u64, u32)>>) -> Seq<(u64, Seq<usize>)>
    decreases lists.len(),
{
    if lists.len() == 0 {
        Seq::empty()
    } else {
        with_list(fused_ranks(lists.drop_last()), lists.last(), lists.last().len())
    }
}

/// Where `id` stands among the first `n` of `list`.
pub open spec fn positions(list: Seq<(u64, u32)>, id: u64, n: nat) -> Seq<usize>
    decreases n,
{
    if n == 0 {
        Seq::empty()
    } else if list[n - 1].0 == id {
        positions(list, id, (n - 1) as nat).push((n - 1) as usize)
    } else {
        positions(list, id, (n - 1) as nat)
    }
}

/// The ranks of `id`, list by list.
pub open spec fn ranks_of(lists: Seq<Seq<(u64, u32)>>, id: u64) -> Seq<usize>
    decreases lists.len(),
{
    if lists.len() == 0 {
        Seq::empty()
    } else {
        ranks_of(lists.drop_last(), id) + positions(lists.last(), id, lists.last().len())
    }
}

pub open spec fn lists_view(lists: Seq<&[(u64, u32)]>) -> Seq<Seq<(u64, u32)>> {
    lists.map_values(|l: &[(u64, u32)]| l@)
}

/// Whether `score` may give `s` to an id with these ranks.
pub open spec fn may_fuse<F: Fn(u32, &[usize]) -> u32>(
    score: F,
    k_const: u32,
    ranks: Seq<usize>,
    s: u32,
) -> bool {
    exists|r: &[usize]| r@ == ranks && #[trigger] call_ensures(score, (k_const, r), s)
}

/// Whether `scores` are what `score` may give to the ids of `acc`.
pub open spec fn are_fused_scores<F: Fn(u32, &[usize]) -> u32>(
    acc: Seq<(u64, Seq<usize>)>,
    score: F,
    k_const: u32,
    scores: Seq<u32>,
) -> bool {
    scores.len() == acc.len() && forall|i: int|
        0 <= i < acc.len() ==> may_fuse(score, k_const, acc[i].1, #[trigger] scores[i])
}

/// Whether `out` is a fusion of `lists`.
pub open spec fn is_fusion<F: Fn(u32, &[usize]) -> u32>(
    lists: Seq<Seq<(u64, u32)>>,
    score: F,
    k_const: u32,
    out: Seq<(u64, u32)>,
) -> bool {
    exists|scores: Seq<u32>| #[trigger]
        are_fused_scores(fused_ranks(lists), score, k_const, scores) && out == ranked(
            with_scores(fused_ranks(lists), scores),
        )
}

proof fn lemma_with_list(
    acc: Seq<(u64, Seq<usize>)>,
    list: Seq<(u64, u32)>,
    n: nat,
    id: u64,
)
    requires
        sound(acc),
        n <= list.len(),
    ensures
        sound(with_list(acc, list, n)),
        items_of(with_list(acc, list, n), id) == items_of(acc, id) + positions(list, id, n),
    decreases n,
{
    if n > 0 {
        let m = (n - 1) as nat;
        lemma_with_list(acc, list, m, id);
        lemma_gathered(with_list(acc, list, m), list[m as int].0, m as usize, id);
        assert(items_of(with_list(acc, list, n), id) =~= items_of(acc, id) + positions(
            list,
            id,
            n,
        ));
    } else {
        assert(items_of(acc, id) + positions(list, id, n) =~= items_of(acc, id));
    }
}

/// Fusion gives each id all of its ranks, list by list, and meets each id once,
/// whether it is in one list or in several.
pub proof fn law_fusion_gathers_every_rank(lists: Seq<Seq<(u64, u32)>>, id: u64)
    ensures
        sound(fused_ranks(lists)),
        items_of(fused_ranks(lists), id) == ranks_of(lists, id),
    decreases lists.len(),
{
    if lists.len() > 0 {
        law_fusion_gathers_every_rank(lists.drop_last(), id);
        lemma_with_list(
            fused_ranks(lists.drop_last()),
            lists.last(),
            lists.last().len(),
            id,
        );
    }
}

proof fn lemma_position_found(list: Seq<(u64, u32)>, id: u64, n: nat)
    requires
        n <= list.len(),
    ensures
        positions(list, id, n).len() > 0 <==> exists|i: int| 0 <= i < n && (#[trigger] list[i]).0
            == id,
    decreases n,
{
    if n > 0 {
        lemma_position_found(list, id, (n - 1) as nat);
        if list[n - 1].0 == id {
            assert(positions(list, id, n).len() > 0);
        }
        if positions(list, id, (n - 1) as nat).len() > 0 {
            let i = choose|i: int| 0 <= i < n - 1 && (#[trigger] list[i]).0 == id;
            assert(list[i].0 == id);
        }
    }
}

/// An id comes out of fusion exactly if it is in one of the lists.
pub proof fn law_fusion_keeps_every_id(lists: Seq<Seq<(u64, u32)>>, id: u64)
    ensures
        (exists|i: int| is_place(fused_ranks(lists), id, i)) <==> exists|l: int, i: int|
            0 <= l < lists.len() && 0 <= i < lists[l].len() && (#[trigger] lists[l][i]).0 == id,
{
    law_fusion_gathers_every_rank(lists, id);
    lemma_ranks_found(lists, id);
    let acc = fused_ranks(lists);
    if exists|i: int| is_place(acc, id, i) {
        let i = choose|i: int| is_place(acc, id, i);
        lemma_place_unique(acc, id, i);
    }
}

proof fn lemma_ranks_found(lists: Seq<Seq<(u64, u32)>>, id: u64)
    ensures
        ranks_of(lists, id).len() > 0 <==> exists|l: int, i: int|
            0 <= l < lists.len() && 0 <= i < lists[l].len() && (#[trigger] lists[l][i]).0 == id,
    decreases lists.len(),
{
    if lists.len() > 0 {
        let before = lists.drop_last();
        let n = lists.last().len();
        lemma_ranks_found(before, id);
        lemma_position_found(lists.last(), id, n);
        if positions(lists.last(), id, n).len() > 0 {
            let i = choose|i: int| 0 <= i < n && (#[trigger] lists.last()[i]).0 == id;
            assert(lists[lists.len() - 1][i].0 == id);
        }
        if ranks_of(before, id).len() > 0 {
            let (l, i) = choose|l: int, i: int|
                0 <= l < before.len() && 0 <= i < before[l].len() && (#[trigger] before[l][i]).0
                    == id;
            assert(lists[l][i].0 == id);
        }
        if exists|l: int, i: int|
            0 <= l < lists.len() && 0 <= i < lists[l].len() && (#[trigger] lists[l][i]).0 == id {
            let (l, i) = choose|l: int, i: int|
                0 <= l < lists.len() && 0 <= i < lists[l].len() && (#[trigger] lists[l][i]).0 == id;
            if l < before.len() {
                assert(before[l][i].0 == id);
            } else {
                assert(lists.last()[i].0 == id);
            }
        }
    }
}

/// The places of `id` among the first `n` of list `l`.
proof fn lemma_places_in(list: Seq<(u64, u32)>, l: int, id: u64, n: nat) -> (places: Seq<(int, int)>)
    requires
        n <= list.len() <= usize::MAX,
    ensures
        places.len() == positions(list, id, n).len(),
        forall|j: int|
            0 <= j < places.len() ==> {
                &&& (#[trigger] places[j]).0 == l
                &&& 0 <= places[j].1 < n
                &&& list[places[j].1].0 == id
                &&& positions(list, id, n)[j] == places[j].1
            },
        forall|a: int, b: int|
            0 <= a < b < places.len() ==> (#[trigger] places[a]).1 < (#[trigger] places[b]).1,
        forall|p: int| 0 <= p < n && (#[trigger] list[p]).0 == id ==> places.contains((l, p)),
    decreases n,
{
    if n == 0 {
        Seq::empty()
    } else {
        let before = lemma_places_in(list, l, id, (n - 1) as nat);
        if list[n - 1].0 == id {
            let all = before.push((l, n - 1));
            assert forall|p: int| 0 <= p < n && (#[trigger] list[p]).0 == id implies all.contains(
                (l, p),
            ) by {
                if p < n - 1 {
                    let j = choose|j: int| 0 <= j < before.len() && before[j] == (l, p);
                    assert(all[j] == (l, p));
                } else {
                    assert(all[before.len() as int] == (l, p));
                }
            }
            all
        } else {
            before
        }
    }
}

/// The places of `id` in the lists.
proof fn lemma_places(lists: Seq<Seq<(u64, u32)>>, id: u64) -> (places: Seq<(int, int)>)
    requires
        forall|l: int| 0 <= l < lists.len() ==> (#[trigger] lists[l]).len() <= usize::MAX,
    ensures
        places.len() == ranks_of(lists, id).len(),
        forall|j: int|
            0 <= j < places.len() ==> {
                &&& 0 <= (#[trigger] places[j]).0 < lists.len()
                &&& 0 <= places[j].1 < lists[places[j].0].len()
                &&& lists[places[j].0][places[j].1].0 == id
                &&& ranks_of(lists, id)[j] == places[j].1
            },
        forall|a: int, b: int|
            0 <= a < b < places.len() ==> (#[trigger] places[a]).0 < (#[trigger] places[b]).0 || (
            places[a].0 == places[b].0 && places[a].1 < places[b].1),
        forall|l: int, p: int|
            0 <= l < lists.len() && 0 <= p < lists[l].len() && (#[trigger] lists[l][p]).0 == id
                ==> places.contains((l, p)),
    decreases lists.len(),
{
    if lists.len() == 0 {
        Seq::empty()
    } else {
        let fewer = lists.drop_last();
        let n = lists.len() - 1;
        assert forall|l: int| 0 <= l < fewer.len() implies (#[trigger] fewer[l]).len()
            <= usize::MAX by {
            assert(fewer[l] == lists[l]);
        }
        let before = lemma_places(fewer, id);
        let last = lemma_places_in(lists[n], n, id, lists[n].len());
        let all = before + last;
        assert forall|j: int| 0 <= j < all.len() implies {
            &&& 0 <= (#[trigger] all[j]).0 < lists.len()
            &&& 0 <= all[j].1 < lists[all[j].0].len()
            &&& lists[all[j].0][all[j].1].0 == id
            &&& ranks_of(lists, id)[j] == all[j].1
        } by {
            if j < before.len() {
                assert(all[j] == before[j]);
                assert(fewer[before[j].0] == lists[before[j].0]);
            } else {
                assert(all[j] == last[j - before.len()]);
            }
        }
        assert forall|a: int, b: int| 0 <= a < b < all.len() implies (#[trigger] all[a]).0 < (
        #[trigger] all[b]).0 || (all[a].0 == all[b].0 && all[a].1 < all[b].1) by {
            let k = before.len() as int;
            if b < k {
                assert(all[a] == before[a] && all[b] == before[b]);
            } else if a < k {
                assert(all[a] == before[a] && all[b] == last[b - k]);
            } else {
                assert(all[a] == last[a - k] && all[b] == last[b - k]);
            }
        }
        assert forall|l: int, p: int|
            0 <= l < lists.len() && 0 <= p < lists[l].len() && (#[trigger] lists[l][p]).0
                == id implies all.contains((l, p)) by {
            if l < n {
                assert(fewer[l][p].0 == id);
                let j = choose|j: int| 0 <= j < before.len() && before[j] == (l, p);
                assert(all[j] == (l, p));
            } else {
                let j = choose|j: int| 0 <= j < last.len() && last[j] == (l, p);
                assert(all[before.len() + j] == (l, p));
            }
        }
        all
    }
}

/// Every score of a fusion was computed from the places at which its id stands:
/// `places` are all of them, list by list and from front to back, and the score
/// function was called with exactly their ranks.
pub proof fn law_fusion_scores_by_all_places<F: Fn(u32, &[usize]) -> u32>(
    lists: Seq<Seq<(u64, u32)>>,
    score: F,
    k_const: u32,
    out: Seq<(u64, u32)>,
    i: int,
) -> (places: Seq<(int, int)>)
    requires
        forall|l: int| 0 <= l < lists.len() ==> (#[trigger] lists[l]).len() <= usize::MAX,
        is_fusion(lists, score, k_const, out),
        0 <= i < out.len(),
    ensures
        places.len() > 0,
        forall|j: int|
            0 <= j < places.len() ==> {
                &&& 0 <= (#[trigger] places[j]).0 < lists.len()
                &&& 0 <= places[j].1 < lists[places[j].0].len()
                &&& lists[places[j].0][places[j].1].0 == out[i].0
            },
        forall|a: int, b: int|
            0 <= a < b < places.len() ==> (#[trigger] places[a]).0 < (#[trigger] places[b]).0 || (
            places[a].0 == places[b].0 && places[a].1 < places[b].1),
        forall|l: int, p: int|
            0 <= l < lists.len() && 0 <= p < lists[l].len() && (
            #[trigger] lists[l][p]).0 == out[i].0 ==> places.contains((l, p)),
        exists|ranks: &[usize]|
            ranks@.len() == places.len() && (forall|j: int|
                0 <= j < places.len() ==> #[trigger] ranks@[j] == places[j].1)
                && #[trigger] call_ensures(score, (k_const, ranks), out[i].1),
{
    let acc = fused_ranks(lists);
    let scores = choose|scores: Seq<u32>| #[trigger]
        are_fused_scores(acc, score, k_const, scores) && out == ranked(with_scores(acc, scores));
    let pairs = with_scores(acc, scores);
    law_ranked_permutes(pairs);
    assert(best(pairs, pairs.len()) =~= out);
    let q = lemma_best_from(pairs, pairs.len(), i);
    let id = out[i].0;
    law_fusion_gathers_every_rank(lists, id);
    assert(is_place(acc, id, q));
    lemma_place_unique(acc, id, q);
    assert(acc[q].1 == ranks_of(lists, id));
    assert(acc[q].1.len() > 0);
    let places = lemma_places(lists, id);
    assert(may_fuse(score, k_const, acc[q].1, scores[q]));
    assert(scores[q] == out[i].1);
    let ranks = choose|ranks: &[usize]|
        ranks@ == acc[q].1 && #[trigger] call_ensures(score, (k_const, ranks), scores[q]);
    assert forall|j: int| 0 <= j < places.len() implies #[trigger] ranks@[j] == places[j].1 by {
        assert(places[j].0 < lists.len());
    }
    places
}

/// Whether `id` stands in `out`.
pub open spec fn out_has(out: Seq<(u64, u32)>, id: u64) -> bool {
    exists|i: int| 0 <= i < out.len() && (#[trigger] out[i]).0 == id
}

/// A fusion gives every id of its lists, each once, from the best score to the
/// worst.
pub proof fn law_fusion_ranks_every_id_once<F: Fn(u32, &[usize]) -> u32>(
    lists: Seq<Seq<(u64, u32)>>,
    score: F,
    k_const: u32,
    out: Seq<(u64, u32)>,
)
    requires
        is_fusion(lists, score, k_const, out),
    ensures
        forall|l: int, p: int|
            0 <= l < lists.len() && 0 <= p < lists[l].len() ==> out_has(
                out,
                (#[trigger] lists[l][p]).0,
            ),
        forall|i: int, j: int|
            0 <= i < j < out.len() ==> (#[trigger] out[i]).0 != (#[trigger] out[j]).0 && rank_key(
                out[i].1,
            ) >= rank_key(out[j].1),
{
    let acc = fused_ranks(lists);
    let scores = choose|scores: Seq<u32>| #[trigger]
        are_fused_scores(acc, score, k_const, scores) && out == ranked(with_scores(acc, scores));
    let pairs = with_scores(acc, scores);
    law_fusion_gathers_every_rank(lists, 0);
    lemma_scored_distinct(acc, scores);
    law_ranked_permutes(pairs);
    law_ranked_keeps_ids(pairs);
    law_ranked_descends(pairs);
    assert forall|l: int, p: int|
        0 <= l < lists.len() && 0 <= p < lists[l].len() implies out_has(
        out,
        (#[trigger] lists[l][p]).0,
    ) by {
        let id = lists[l][p].0;
        assert(lists[l][p].0 == id);
        law_fusion_keeps_every_id(lists, id);
        let q = choose|q: int| is_place(acc, id, q);
        assert(pairs[q].0 == id);
        assert(found_ids(pairs).contains(id));
        assert(found_ids(out).contains(id));
    }
}

/// The ids of all lists with their ranks.
pub fn gather_ranks(result_lists: &[&[(u64, u32)]]) -> (r: Vec<(u64, Vec<usize>)>)
    ensures
        gather_view(r@) == fused_ranks(lists_view(result_lists@)),
{
    let ghost lists = lists_view(result_lists@);
    let mut acc: Gathering<usize> = Gathering::new();
    let mut l: usize = 0;
    assert(acc@ =~= fused_ranks(lists.take(0)));
    while l < result_lists.len()
        invariant
            l <= result_lists@.len(),
            lists == lists_view(result_lists@),
            acc.well_formed(),
            acc@ == fused_ranks(lists.take(l as int)),
        decreases result_lists@.len() - l,
    {
        let list: &[(u64, u32)] = result_lists[l];
        let ghost start = fused_ranks(lists.take(l as int));
        let mut n: usize = 0;
        while n < list.len()
            invariant
                n <= list@.len(),
                acc.well_formed(),
                acc@ == with_list(start, list@, n as nat),
            decreases list@.len() - n,
        {
            acc.add_item(list[n].0, n);
            n = n + 1;
        }
        proof {
            let next = lists.take(l + 1);
            assert(next.drop_last() =~= lists.take(l as int));
            assert(next.last() == list@);
        }
        l = l + 1;
    }
    assert(lists.take(l as int) =~= lists);
    acc.into_items()
}

/// The gathered ids from the best score to the worst.
pub fn rank_fused(gathered_ranks: &Vec<(u64, Vec<usize>)>, scores: &Vec<u32>) -> (r: Vec<(u64, u32)>)
    requires
        scores@.len() == gathered_ranks@.len(),
    ensures
        r@ == ranked(with_scores(gather_view(gathered_ranks@), scores@)),
{
    let pairs: Vec<(u64, u32)> = attach_scores(gathered_ranks, scores);
    rank(&pairs)
}

/// What a fusion gets is what its lists hold.
pub proof fn law_lists_are_taken_whole(result_lists: Seq<&[(u64, u32)]>)
    ensures
        lists_view(result_lists).len() == result_lists.len(),
        forall|l: int|
            0 <= l < result_lists.len() ==> #[trigger] lists_view(result_lists)[l]
                == result_lists[l]@,
        forall|l: int|
            0 <= l < result_lists.len() ==> (#[trigger] lists_view(result_lists)[l]).len()
                <= usize::MAX,
{
    assert forall|l: int| 0 <= l < result_lists.len() implies (#[trigger] lists_view(
        result_lists,
    )[l]).len() <= usize::MAX by {
        assert(result_lists[l].len() == result_lists[l]@.len());
    }
}

/// Fuses ranked lists into one. `k_const` dampens how much the first ranks
/// count; 60 rarely needs tuning. `score` gives the score of an id: it gets
/// `k_const` and the id's ranks, counted from zero, list by list.
pub fn reciprocal_rank_fusion<F: Fn(u32, &[usize]) -> u32>(
    result_lists: &[&[(u64, u32)]],
    k_const: u32,
    score: F,
) -> (r: Vec<(u64, u32)>)
    requires
        forall|ranks: &[usize]| ranks@.len() > 0 ==> #[trigger] call_requires(score, (k_const, ranks)),
    ensures
        is_fusion(lists_view(result_lists@), score, k_const, r@),
{
    let acc: Vec<(u64, Vec<usize>)> = gather_ranks(result_lists);
    let ghost all = fused_ranks(lists_view(result_lists@));
    let mut scores: Vec<u32> = Vec::new();
    let mut i: usize = 0;
    proof {
        law_fusion_gathers_every_rank(lists_view(result_lists@), 0);
    }
    while i < acc.len()
        invariant
            i <= acc@.len(),
            gather_view(acc@) == all,
            sound(all),
            forall|ranks: &[usize]|
                ranks@.len() > 0 ==> #[trigger] call_requires(score, (k_const, ranks)),
            scores@.len() == i,
            forall|j: int|
                0 <= j < i ==> may_fuse(score, k_const, all[j].1, #[trigger] scores@[j]),
        decreases acc@.len() - i,
    {
        assert(all[i as int].1 == acc@[i as int].1@);
        let s: u32 = score(k_const, acc[i].1.as_slice());
        assert(may_fuse(score, k_const, all[i as int].1, s));
        scores.push(s);
        i = i + 1;
    }
    assert(are_fused_scores(all, score, k_const, scores@));
    rank_fused(&acc, &scores)
}

} // verus!
