//! Ranking by score.
//!
//! A score is a single-precision number, held as its bits: what computes it is
//! not part of this library, and ranking needs no more than the order of
//! scores. Two zeros of different sign rank alike, and what is not a number
//! ranks below everything, so that it never takes a real result's place.

use vstd::prelude::*;

verus! {

/// The bit that holds a score's sign.
pub const SIGN_BIT: u32 = 0x8000_0000;

/// The bits of positive infinity. Without the sign, greater bits are no number.
pub const INFINITY_BITS: u32 = 0x7f80_0000;

/// A number that orders scores.
pub open spec fn rank_key(score: u32) -> int {
    let magnitude = score as int % SIGN_BIT as int;
    if magnitude > INFINITY_BITS {
        -(SIGN_BIT as int)
    } else if score >= SIGN_BIT {
        -magnitude
    } else {
        magnitude
    }
}

/// Scores rank as the numbers that their bits stand for do. Of two numbers
/// without a sign the one with the greater bits ranks above, of two with a sign
/// the one with the smaller bits. A number without a sign ranks above one with a
/// sign, but for the two zeros, which rank alike. What is no number ranks below
/// every number, and alike among itself.
pub proof fn law_scores_rank_as_numbers(a: u32, b: u32)
    ensures
        a <= 0x7f80_0000 && b <= 0x7f80_0000 ==> (rank_key(a) > rank_key(b) <==> a > b),
        0x8000_0000 <= a <= 0xff80_0000 && 0x8000_0000 <= b <= 0xff80_0000 ==> (rank_key(a)
            > rank_key(b) <==> a < b),
        a <= 0x7f80_0000 && 0x8000_0000 <= b <= 0xff80_0000 ==> rank_key(a) >= rank_key(b) && (
        rank_key(a) == rank_key(b) <==> a == 0 && b == 0x8000_0000),
        (a <= 0x7f80_0000 || 0x8000_0000 <= a <= 0xff80_0000) && (0x7f80_0000 < b < 0x8000_0000 || b
            > 0xff80_0000) ==> rank_key(a) > rank_key(b),
        (0x7f80_0000 < a < 0x8000_0000 || a > 0xff80_0000) && (0x7f80_0000 < b < 0x8000_0000 || b
            > 0xff80_0000) ==> rank_key(a) == rank_key(b),
{
}

/// `found` with `x` put behind everything that does not rank below it.
pub open spec fn rank_in(found: Seq<(u64, u32)>, x: (u64, u32)) -> Seq<(u64, u32)>
    decreases found.len(),
{
    if found.len() == 0 || rank_key(found.last().1) >= rank_key(x.1) {
        found.push(x)
    } else {
        rank_in(found.drop_last(), x).push(found.last())
    }
}

/// `found` from the best score to the worst; what scores alike stays in order.
pub open spec fn ranked(found: Seq<(u64, u32)>) -> Seq<(u64, u32)>
    decreases found.len(),
{
    if found.len() == 0 {
        Seq::empty()
    } else {
        rank_in(ranked(found.drop_last()), found.last())
    }
}

/// The first `k` of a sequence, or all of it if there are fewer.
pub open spec fn at_most<T>(s: Seq<T>, k: nat) -> Seq<T> {
    if s.len() <= k {
        s
    } else {
        s.take(k as int)
    }
}

/// The `k` best of `found`, from the best to the worst.
pub open spec fn best(found: Seq<(u64, u32)>, k: nat) -> Seq<(u64, u32)> {
    at_most(ranked(found), k)
}

/// Whether scores fall from front to back.
pub open spec fn descending(found: Seq<(u64, u32)>) -> bool {
    forall|i: int, j: int|
        0 <= i <= j < found.len() ==> rank_key((#[trigger] found[i]).1) >= rank_key(
            (#[trigger] found[j]).1,
        )
}

proof fn lemma_rank_in_len(found: Seq<(u64, u32)>, x: (u64, u32))
    ensures
        rank_in(found, x).len() == found.len() + 1,
    decreases found.len(),
{
    if found.len() > 0 && rank_key(found.last().1) < rank_key(x.1) {
        lemma_rank_in_len(found.drop_last(), x);
    }
}

proof fn lemma_ranked_len(found: Seq<(u64, u32)>)
    ensures
        ranked(found).len() == found.len(),
    decreases found.len(),
{
    if found.len() > 0 {
        lemma_ranked_len(found.drop_last());
        lemma_rank_in_len(ranked(found.drop_last()), found.last());
    }
}

/// Where `x` goes in a list from the best to the worst.
proof fn lemma_rank_in_at(found: Seq<(u64, u32)>, x: (u64, u32), p: int)
    requires
        0 <= p <= found.len(),
        p > 0 ==> rank_key(found[p - 1].1) >= rank_key(x.1),
        forall|i: int| p <= i < found.len() ==> rank_key((#[trigger] found[i]).1) < rank_key(x.1),
    ensures
        rank_in(found, x) == found.insert(p, x),
    decreases found.len(),
{
    if p < found.len() {
        lemma_rank_in_at(found.drop_last(), x, p);
        assert(found.drop_last().insert(p, x).push(found.last()) =~= found.insert(p, x));
    } else {
        assert(found.insert(p, x) =~= found.push(x));
    }
}

/// The place that `lemma_rank_in_at` speaks of.
proof fn lemma_rank_place(found: Seq<(u64, u32)>, x: (u64, u32)) -> (p: int)
    ensures
        0 <= p <= found.len(),
        p > 0 ==> rank_key(found[p - 1].1) >= rank_key(x.1),
        forall|i: int| p <= i < found.len() ==> rank_key((#[trigger] found[i]).1) < rank_key(x.1),
        rank_in(found, x) == found.insert(p, x),
    decreases found.len(),
{
    let p = if found.len() == 0 || rank_key(found.last().1) >= rank_key(x.1) {
        found.len() as int
    } else {
        lemma_rank_place(found.drop_last(), x)
    };
    assert forall|i: int| p <= i < found.len() implies rank_key((#[trigger] found[i]).1)
        < rank_key(x.1) by {
        if i < found.len() - 1 {
            assert(found.drop_last()[i] == found[i]);
        }
    }
    lemma_rank_in_at(found, x, p);
    p
}

proof fn lemma_rank_in_descends(found: Seq<(u64, u32)>, x: (u64, u32))
    requires
        descending(found),
    ensures
        descending(rank_in(found, x)),
{
    let p = lemma_rank_place(found, x);
    let now = rank_in(found, x);
    assert forall|i: int, j: int| 0 <= i <= j < now.len() implies rank_key((#[trigger] now[i]).1)
        >= rank_key((#[trigger] now[j]).1) by {
        let oi = if i < p { i } else { i - 1 };
        let oj = if j < p { j } else { j - 1 };
        if i != p && j != p {
            assert(rank_key(found[oi].1) >= rank_key(found[oj].1));
        } else if i == p && j != p {
            assert(rank_key(found[oj].1) < rank_key(x.1));
        } else if j == p && i != p {
            assert(rank_key(found[oi].1) >= rank_key(found[p - 1].1));
        }
    }
}

/// Ranking puts better scores first.
pub proof fn law_ranked_descends(found: Seq<(u64, u32)>)
    ensures
        descending(ranked(found)),
    decreases found.len(),
{
    if found.len() > 0 {
        law_ranked_descends(found.drop_last());
        lemma_rank_in_descends(ranked(found.drop_last()), found.last());
    }
}

/// Ranking drops nothing, adds nothing and repeats nothing.
pub proof fn law_ranked_permutes(found: Seq<(u64, u32)>)
    ensures
        ranked(found).to_multiset() == found.to_multiset(),
        ranked(found).len() == found.len(),
    decreases found.len(),
{
    broadcast use vstd::seq_lib::group_to_multiset_ensures;

    lemma_ranked_len(found);
    if found.len() > 0 {
        let before = found.drop_last();
        let x = found.last();
        law_ranked_permutes(before);
        let p = lemma_rank_place(ranked(before), x);
        vstd::seq_lib::to_multiset_insert(ranked(before), p, x);
        assert(found =~= before.push(x));
    } else {
        assert(ranked(found) =~= found);
    }
}

/// Whether no id stands in `found` twice.
pub open spec fn distinct_found(found: Seq<(u64, u32)>) -> bool {
    forall|i: int, j: int|
        0 <= i < j < found.len() ==> (#[trigger] found[i]).0 != (#[trigger] found[j]).0
}

/// The ids in `found`.
pub open spec fn found_ids(found: Seq<(u64, u32)>) -> Set<u64> {
    Set::new(|id: u64| exists|i: int| 0 <= i < found.len() && (#[trigger] found[i]).0 == id)
}

/// Ranking keeps the ids, and repeats none that was not repeated before.
pub proof fn law_ranked_keeps_ids(found: Seq<(u64, u32)>)
    ensures
        found_ids(ranked(found)) == found_ids(found),
        distinct_found(found) ==> distinct_found(ranked(found)),
    decreases found.len(),
{
    if found.len() > 0 {
        let before = found.drop_last();
        let x = found.last();
        law_ranked_keeps_ids(before);
        let was = ranked(before);
        let now = ranked(found);
        let p = lemma_rank_place(was, x);
        assert forall|id: u64| #[trigger] found_ids(now).contains(id) == found_ids(found).contains(
            id,
        ) by {
            if found_ids(now).contains(id) {
                let i = choose|i: int| 0 <= i < now.len() && (#[trigger] now[i]).0 == id;
                if i == p {
                    assert(found[found.len() - 1].0 == id);
                } else {
                    assert(was[if i < p { i } else { i - 1 }].0 == id);
                    assert(found_ids(was).contains(id));
                    assert(found_ids(before).contains(id));
                    let j = choose|j: int| 0 <= j < before.len() && (#[trigger] before[j]).0 == id;
                    assert(found[j].0 == id);
                }
            }
            if found_ids(found).contains(id) {
                let j = choose|j: int| 0 <= j < found.len() && (#[trigger] found[j]).0 == id;
                if j == found.len() - 1 {
                    assert(now[p].0 == id);
                } else {
                    assert(before[j].0 == id);
                    assert(found_ids(before).contains(id));
                    assert(found_ids(was).contains(id));
                    let i = choose|i: int| 0 <= i < was.len() && (#[trigger] was[i]).0 == id;
                    assert(now[if i < p { i } else { i + 1 }].0 == id);
                }
            }
        }
        assert(found_ids(now) =~= found_ids(found));
        if distinct_found(found) {
            assert(!found_ids(was).contains(x.0)) by {
                if found_ids(was).contains(x.0) {
                    assert(found_ids(before).contains(x.0));
                    let j = choose|j: int| 0 <= j < before.len() && (#[trigger] before[j]).0 == x.0;
                    assert(found[j].0 != found[found.len() - 1].0);
                }
            }
            assert(distinct_found(before)) by {
                assert forall|i: int, j: int| 0 <= i < j < before.len() implies (
                #[trigger] before[i]).0 != (#[trigger] before[j]).0 by {
                    assert(found[i].0 != found[j].0);
                }
            }
            assert forall|i: int, j: int| 0 <= i < j < now.len() implies (#[trigger] now[i]).0 != (
            #[trigger] now[j]).0 by {
                let oi = if i < p { i } else { i - 1 };
                let oj = if j < p { j } else { j - 1 };
                if i == p {
                    assert(was[oj].0 == now[j].0);
                } else if j == p {
                    assert(was[oi].0 == now[i].0);
                } else {
                    assert(was[oi].0 != was[oj].0);
                }
            }
        }
    } else {
        assert(found_ids(ranked(found)) =~= found_ids(found));
    }
}

/// A list in which no id stands twice has as many ids as results.
pub proof fn lemma_found_counted(found: Seq<(u64, u32)>)
    requires
        distinct_found(found),
    ensures
        found_ids(found).finite(),
        found_ids(found).len() == found.len(),
{
    let ids = found.map_values(|p: (u64, u32)| p.0);
    assert forall|i: int, j: int| 0 <= i < ids.len() && 0 <= j < ids.len() && i != j implies ids[i]
        != ids[j] by {
        if i < j {
            assert(found[i].0 != found[j].0);
        } else {
            assert(found[j].0 != found[i].0);
        }
    }
    ids.unique_seq_to_set();
    assert forall|id: u64| #[trigger] found_ids(found).contains(id) == ids.to_set().contains(id) by {
        if found_ids(found).contains(id) {
            let i = choose|i: int| 0 <= i < found.len() && (#[trigger] found[i]).0 == id;
            assert(ids[i] == id);
        }
        if ids.to_set().contains(id) {
            let i = choose|i: int| 0 <= i < ids.len() && ids[i] == id;
            assert(found[i].0 == id);
        }
    }
    assert(found_ids(found) =~= ids.to_set());
}

/// The results that are kept score at least as well as those that are not.
pub proof fn law_best_are_best(found: Seq<(u64, u32)>, k: nat, i: int, j: int)
    requires
        0 <= i < best(found, k).len(),
        best(found, k).len() <= j < ranked(found).len(),
    ensures
        rank_key(best(found, k)[i].1) >= rank_key(ranked(found)[j].1),
        best(found, k)[i] == ranked(found)[i],
        best(found, k).len() == k,
{
    law_ranked_descends(found);
}

/// Nothing that is left out scores better than what is kept.
pub proof fn law_best_leave_nothing_better(found: Seq<(u64, u32)>, k: nat, i: int, j: int)
    requires
        0 <= i < best(found, k).len(),
        0 <= j < found.len(),
    ensures
        best(found, k).contains(found[j]) || rank_key(best(found, k)[i].1) >= rank_key(found[j].1),
{
    broadcast use vstd::seq_lib::group_to_multiset_ensures;

    law_ranked_permutes(found);
    assert(found.contains(found[j]));
    assert(found.to_multiset().count(found[j]) > 0);
    assert(ranked(found).to_multiset().count(found[j]) > 0);
    assert(ranked(found).contains(found[j]));
    let p = choose|p: int| 0 <= p < ranked(found).len() && ranked(found)[p] == found[j];
    if p < best(found, k).len() {
        assert(best(found, k)[p] == found[j]);
    } else {
        law_best_are_best(found, k, i, p);
    }
}

/// What a ranking holds was found.
pub proof fn lemma_best_from(found: Seq<(u64, u32)>, k: nat, i: int) -> (j: int)
    requires
        0 <= i < best(found, k).len(),
    ensures
        0 <= j < found.len(),
        found[j] == best(found, k)[i],
{
    broadcast use vstd::seq_lib::group_to_multiset_ensures;

    law_ranked_permutes(found);
    let x = ranked(found)[i];
    assert(ranked(found).contains(x));
    assert(ranked(found).to_multiset().count(x) > 0);
    assert(found.to_multiset().count(x) > 0);
    assert(found.contains(x));
    choose|j: int| 0 <= j < found.len() && found[j] == x
}

/// A score that is not a number takes no real score's place: where a result
/// with such a score is kept, every number was kept, too, and stands before it.
pub proof fn law_nan_never_wins(found: Seq<(u64, u32)>, i: int, j: int)
    requires
        0 <= i < ranked(found).len(),
        0 <= j < ranked(found).len(),
        ranked(found)[i].1 as int % SIGN_BIT as int > INFINITY_BITS,
        ranked(found)[j].1 as int % SIGN_BIT as int <= INFINITY_BITS,
    ensures
        j < i,
{
    law_ranked_descends(found);
    assert(rank_key(ranked(found)[i].1) < rank_key(ranked(found)[j].1));
}

/// The `k` best of what was found: as many as were asked for, or all; each of
/// them found, as often as it was; from the best to the worst; and nothing that
/// was left out scores better.
pub proof fn law_best_is_a_ranking(found: Seq<(u64, u32)>, k: nat)
    ensures
        best(found, k).len() == if k < found.len() {
            k
        } else {
            found.len()
        },
        k >= found.len() ==> best(found, k).to_multiset() == found.to_multiset(),
        best(found, k).to_multiset().subset_of(found.to_multiset()),
        forall|i: int, j: int|
            0 <= i <= j < best(found, k).len() ==> rank_key((#[trigger] best(found, k)[i]).1)
                >= rank_key((#[trigger] best(found, k)[j]).1),
        forall|i: int, j: int|
            0 <= i < best(found, k).len() && 0 <= j < found.len() ==> best(found, k).contains(
                #[trigger] found[j],
            ) || rank_key((#[trigger] best(found, k)[i]).1) >= rank_key(found[j].1),
{
    broadcast use vstd::seq_lib::group_to_multiset_ensures;

    let all = ranked(found);
    let out = best(found, k);
    law_ranked_permutes(found);
    law_ranked_descends(found);
    assert forall|i: int, j: int| 0 <= i <= j < out.len() implies rank_key((#[trigger] out[i]).1)
        >= rank_key((#[trigger] out[j]).1) by {
        assert(rank_key(all[i].1) >= rank_key(all[j].1));
    }
    assert forall|i: int, j: int| 0 <= i < out.len() && 0 <= j < found.len() implies out.contains(
        #[trigger] found[j],
    ) || rank_key((#[trigger] out[i]).1) >= rank_key(found[j].1) by {
        law_best_leave_nothing_better(found, k, i, j);
    }
    let n = out.len() as int;
    assert(out =~= all.take(n));
    assert(all =~= all.take(n) + all.skip(n));
    vstd::seq_lib::lemma_multiset_commutative(all.take(n), all.skip(n));
}

/// Results that score alike stay in the order in which they were found.
pub proof fn law_ties_keep_order(found: Seq<(u64, u32)>, i: int, j: int) -> (r: (int, int))
    requires
        0 <= i < j < found.len(),
        rank_key(found[i].1) == rank_key(found[j].1),
    ensures
        0 <= r.0 < r.1 < ranked(found).len(),
        ranked(found)[r.0] == found[i],
        ranked(found)[r.1] == found[j],
    decreases found.len(),
{
    let before = found.drop_last();
    let x = found.last();
    lemma_ranked_len(found);
    lemma_ranked_len(before);
    let p = lemma_rank_place(ranked(before), x);
    if j < before.len() {
        let (a, b) = law_ties_keep_order(before, i, j);
        (if a < p { a } else { a + 1 }, if b < p { b } else { b + 1 })
    } else {
        let a = lemma_ranked_has(before, i);
        law_ranked_descends(before);
        assert(a < p) by {
            if p <= a {
                assert(rank_key(ranked(before)[a].1) < rank_key(x.1));
            }
        }
        (a, p)
    }
}

proof fn lemma_ranked_has(found: Seq<(u64, u32)>, i: int) -> (r: int)
    requires
        0 <= i < found.len(),
    ensures
        0 <= r < ranked(found).len(),
        ranked(found)[r] == found[i],
    decreases found.len(),
{
    let before = found.drop_last();
    lemma_ranked_len(found);
    lemma_ranked_len(before);
    let p = lemma_rank_place(ranked(before), found.last());
    if i < before.len() {
        let a = lemma_ranked_has(before, i);
        if a < p { a } else { a + 1 }
    } else {
        p
    }
}

/// To keep the `k` best of what was found, it is enough to hold the `k` best so
/// far and to put the next one among them.
pub proof fn lemma_keep_best(found: Seq<(u64, u32)>, x: (u64, u32), k: nat)
    ensures
        best(found.push(x), k) == at_most(rank_in(best(found, k), x), k),
{
    assert(found.push(x).drop_last() =~= found);
    law_ranked_descends(found);
    lemma_rank_in_kept(ranked(found), x, k);
}

proof fn lemma_rank_in_kept(found: Seq<(u64, u32)>, x: (u64, u32), k: nat)
    requires
        descending(found),
    ensures
        at_most(rank_in(found, x), k) == at_most(rank_in(at_most(found, k), x), k),
    decreases found.len(),
{
    if found.len() > k {
        let kept = found.take(k as int);
        let before = found.drop_last();
        lemma_rank_in_len(found, x);
        lemma_rank_in_len(kept, x);
        assert(before.take(k as int) =~= kept);
        if rank_key(found.last().1) >= rank_key(x.1) {
            if k > 0 {
                assert(kept.last() == found[k - 1]);
                assert(rank_key(found[k - 1].1) >= rank_key(found[found.len() - 1].1));
            }
            assert(rank_in(kept, x) == kept.push(x));
            assert(found.push(x).take(k as int) =~= kept);
            assert(kept.push(x).take(k as int) =~= kept);
        } else {
            assert(descending(before));
            lemma_rank_in_kept(before, x, k);
            lemma_rank_in_len(before, x);
            assert(at_most(before, k) =~= kept);
            assert(rank_in(before, x).push(found.last()).take(k as int) =~= rank_in(
                before,
                x,
            ).take(k as int));
        }
    }
}

/// The number that orders scores.
fn order_key(score: u32) -> (r: i64)
    ensures
        r == rank_key(score),
{
    let magnitude: i64 = (score % SIGN_BIT) as i64;
    if magnitude > INFINITY_BITS as i64 {
        -(SIGN_BIT as i64)
    } else if score >= SIGN_BIT {
        -magnitude
    } else {
        magnitude
    }
}

/// Puts one more result in its place, and drops the worst if there are more
/// than `k` then.
pub fn keep(found: &mut Vec<(u64, u32)>, x: (u64, u32), k: usize)
    requires
        old(found)@.len() <= k,
    ensures
        final(found)@ == at_most(rank_in(old(found)@, x), k as nat),
{
    let key: i64 = order_key(x.1);
    let mut p: usize = found.len();
    while p > 0 && order_key(found[p - 1].1) < key
        invariant
            p <= found@.len(),
            key == rank_key(x.1),
            forall|i: int|
                p <= i < found@.len() ==> rank_key((#[trigger] found@[i]).1) < rank_key(x.1),
        decreases p,
    {
        p = p - 1;
    }
    proof {
        lemma_rank_in_at(found@, x, p as int);
    }
    found.insert(p, x);
    if found.len() > k {
        let ghost all = found@;
        found.pop();
        assert(found@ =~= all.take(k as int));
    }
}

/// The `k` best of `found`. No more than `k + 1` results are held at a time.
pub fn top_k(found: &Vec<(u64, u32)>, k: usize) -> (r: Vec<(u64, u32)>)
    ensures
        r@ == best(found@, k as nat),
{
    let mut out: Vec<(u64, u32)> = Vec::new();
    let mut i: usize = 0;
    assert(found@.take(0) =~= Seq::<(u64, u32)>::empty());
    while i < found.len()
        invariant
            i <= found@.len(),
            out@ == best(found@.take(i as int), k as nat),
        decreases found@.len() - i,
    {
        proof {
            assert(found@.take(i as int).push(found@[i as int]) =~= found@.take(i + 1));
            lemma_keep_best(found@.take(i as int), found@[i as int], k as nat);
        }
        keep(&mut out, found[i], k);
        i = i + 1;
    }
    assert(found@.take(i as int) =~= found@);
    out
}

/// All of `found`, from the best to the worst.
pub fn rank(found: &Vec<(u64, u32)>) -> (r: Vec<(u64, u32)>)
    ensures
        r@ == ranked(found@),
{
    proof {
        lemma_ranked_len(found@);
    }
    top_k(found, found.len())
}

} // verus!
