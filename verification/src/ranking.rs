//! The order of search results: nearest first, each id once in a row.
use vstd::prelude::*;

verus! {

/// Whether `ranking` is `found` in the order of distance.
pub open spec fn is_ranking(ranking: Seq<(u64, u32)>, found: Seq<(u64, u32)>) -> bool {
    &&& ranking.to_multiset() == found.to_multiset()
    &&& in_order(ranking)
}

/// Whether hits stand in the order of distance.
pub open spec fn in_order(hits: Seq<(u64, u32)>) -> bool {
    forall|i: int, j: int| 0 <= i <= j < hits.len() ==> hits[i].1 <= hits[j].1
}

/// `hits` without those that follow a hit with the same id.
pub open spec fn deduped(hits: Seq<(u64, u32)>) -> Seq<(u64, u32)>
    decreases hits.len(),
{
    if hits.len() == 0 {
        Seq::empty()
    } else if hits.len() >= 2 && hits.last().0 == hits[hits.len() - 2].0 {
        deduped(hits.drop_last())
    } else {
        deduped(hits.drop_last()).push(hits.last())
    }
}

/// The first `k` of a ranking, each id once in a row.
pub open spec fn best(ranking: Seq<(u64, u32)>, k: nat) -> Seq<(u64, u32)> {
    let once = deduped(ranking);
    if once.len() <= k {
        once
    } else {
        once.take(k as int)
    }
}

/// `<[T]>::sort_unstable_by_key` of the standard library: orders the hits by
/// distance, in any order among equal distances, and keeps each of them.
#[verifier::external_body]
pub(crate) fn sort_by_distance(hits: &mut Vec<(u64, u32)>)
    ensures
        is_ranking(final(hits)@, old(hits)@),
{
    hits.sort_unstable_by_key(|hit| hit.1)
}

/// The first `k` of ranked hits, each id once in a row.
pub fn top_hits(ranking: &Vec<(u64, u32)>, k: usize) -> (top: Vec<(u64, u32)>)
    ensures
        top@ == best(ranking@, k as nat),
{
    let mut once: Vec<(u64, u32)> = Vec::new();
    let mut i: usize = 0;
    while i < ranking.len()
        invariant
            i <= ranking@.len(),
            once@ == deduped(ranking@.take(i as int)),
        decreases ranking@.len() - i,
    {
        let ghost seen = ranking@.take(i + 1);
        assert(seen.drop_last() =~= ranking@.take(i as int));
        if i == 0 || ranking[i].0 != ranking[i - 1].0 {
            once.push(ranking[i]);
        }
        i += 1;
    }
    assert(ranking@.take(ranking@.len() as int) =~= ranking@);
    if once.len() > k {
        once.truncate(k);
        assert(once@ =~= deduped(ranking@).take(k as int));
    }
    once
}

proof fn lemma_deduped(hits: Seq<(u64, u32)>)
    ensures
        deduped(hits).len() <= hits.len(),
        hits.len() > 0 ==> deduped(hits).len() > 0 && deduped(hits)[0] == hits[0]
            && deduped(hits).last().0 == hits.last().0,
        forall|j: int|
            0 <= j < deduped(hits).len() ==> hits.contains(#[trigger] deduped(hits)[j]),
        forall|j: int|
            1 <= j < deduped(hits).len() ==> (#[trigger] deduped(hits)[j]).0 != deduped(hits)[j
                - 1].0,
    decreases hits.len(),
{
    if hits.len() > 0 {
        let front = hits.drop_last();
        lemma_deduped(front);
        assert forall|j: int| 0 <= j < deduped(hits).len() implies hits.contains(
            #[trigger] deduped(hits)[j],
        ) by {
            if j < deduped(front).len() {
                let h = deduped(front)[j];
                assert(front.contains(h));
                let i = choose|i: int| 0 <= i < front.len() && front[i] == h;
                assert(hits[i] == h);
            } else {
                assert(hits[hits.len() - 1] == deduped(hits)[j]);
            }
        }
    }
}

proof fn lemma_deduped_sorted(hits: Seq<(u64, u32)>)
    requires
        in_order(hits),
    ensures
        in_order(deduped(hits)),
        hits.len() > 0 ==> deduped(hits).len() > 0 && deduped(hits).last().1 <= hits.last().1,
    decreases hits.len(),
{
    if hits.len() > 0 {
        lemma_deduped_sorted(hits.drop_last());
    }
}

proof fn lemma_deduped_covers(hits: Seq<(u64, u32)>, i: int) -> (j: int)
    requires
        in_order(hits),
        0 <= i < hits.len(),
    ensures
        0 <= j < deduped(hits).len(),
        deduped(hits)[j].0 == hits[i].0,
        deduped(hits)[j].1 <= hits[i].1,
    decreases hits.len(),
{
    let front = hits.drop_last();
    if i < front.len() {
        lemma_deduped_covers(front, i)
    } else if hits.len() >= 2 && hits.last().0 == hits[hits.len() - 2].0 {
        lemma_deduped_covers(front, i - 1)
    } else {
        deduped(front).len() as int
    }
}

/// What is in a ranking is what was found.
proof fn lemma_ranking_contains(ranking: Seq<(u64, u32)>, found: Seq<(u64, u32)>, h: (u64, u32))
    requires
        is_ranking(ranking, found),
    ensures
        ranking.contains(h) <==> found.contains(h),
        ranking.len() == found.len(),
{
    ranking.to_multiset_ensures();
    found.to_multiset_ensures();
    assert(ranking.contains(h) <==> ranking.to_multiset().count(h) > 0);
    assert(found.contains(h) <==> found.to_multiset().count(h) > 0);
}

/// However ties are broken, the results are at most as many as were asked for,
/// in the order of distance, with no id twice in a row, and all of them were
/// found.
pub proof fn law_results_are_ranked(ranking: Seq<(u64, u32)>, found: Seq<(u64, u32)>, k: nat)
    requires
        is_ranking(ranking, found),
    ensures
        best(ranking, k).len() <= k,
        in_order(best(ranking, k)),
        forall|j: int|
            1 <= j < best(ranking, k).len() ==> (#[trigger] best(ranking, k)[j]).0 != best(
                ranking,
                k,
            )[j - 1].0,
        forall|j: int|
            0 <= j < best(ranking, k).len() ==> found.contains(#[trigger] best(ranking, k)[j]),
{
    lemma_deduped(ranking);
    lemma_deduped_sorted(ranking);
    let once = deduped(ranking);
    let top = best(ranking, k);
    assert forall|j: int| 1 <= j < top.len() implies (#[trigger] top[j]).0 != top[j - 1].0 by {
        assert(top[j] == once[j] && top[j - 1] == once[j - 1]);
    }
    assert forall|j: int| 0 <= j < top.len() implies found.contains(#[trigger] top[j]) by {
        assert(top[j] == once[j]);
        lemma_ranking_contains(ranking, found, top[j]);
    }
}

/// No result is nearer than the first, and the first is as near as anything that
/// was found.
pub proof fn law_first_result_is_nearest(
    ranking: Seq<(u64, u32)>,
    found: Seq<(u64, u32)>,
    k: nat,
    h: (u64, u32),
)
    requires
        is_ranking(ranking, found),
        k > 0,
        found.contains(h),
    ensures
        best(ranking, k).len() > 0,
        best(ranking, k)[0].1 <= h.1,
{
    lemma_deduped(ranking);
    lemma_ranking_contains(ranking, found, h);
    let i = choose|i: int| 0 <= i < ranking.len() && ranking[i] == h;
    assert(ranking[0].1 <= ranking[i].1);
}

/// Where as many results are asked for as were found, every id that was found is
/// among them, no farther than it was found.
pub proof fn law_enough_results_name_all(
    ranking: Seq<(u64, u32)>,
    found: Seq<(u64, u32)>,
    k: nat,
    h: (u64, u32),
)
    requires
        is_ranking(ranking, found),
        found.len() <= k,
        found.contains(h),
    ensures
        exists|j: int|
            0 <= j < best(ranking, k).len() && (#[trigger] best(ranking, k)[j]).0 == h.0 && best(
                ranking,
                k,
            )[j].1 <= h.1,
{
    lemma_deduped(ranking);
    lemma_ranking_contains(ranking, found, h);
    let i = choose|i: int| 0 <= i < ranking.len() && ranking[i] == h;
    let j = lemma_deduped_covers(ranking, i);
    assert(best(ranking, k)[j] == deduped(ranking)[j]);
}

/// Whatever number of results is asked for, they are the nearest: what was found
/// is named among them, no farther than it was found, or there are as many
/// results as were asked for and none of them is farther.
pub proof fn law_results_are_the_nearest(
    ranking: Seq<(u64, u32)>,
    found: Seq<(u64, u32)>,
    k: nat,
    h: (u64, u32),
)
    requires
        is_ranking(ranking, found),
        found.contains(h),
    ensures
        ({
            let top = best(ranking, k);
            ||| exists|j: int|
                0 <= j < top.len() && (#[trigger] top[j]).0 == h.0 && top[j].1 <= h.1
            ||| top.len() == k && forall|j: int|
                0 <= j < top.len() ==> (#[trigger] top[j]).1 <= h.1
        }),
{
    lemma_deduped_sorted(ranking);
    lemma_ranking_contains(ranking, found, h);
    let i = choose|i: int| 0 <= i < ranking.len() && ranking[i] == h;
    let j = lemma_deduped_covers(ranking, i);
    let once = deduped(ranking);
    let top = best(ranking, k);
    if j < top.len() {
        assert(top[j] == once[j]);
    } else {
        assert forall|m: int| 0 <= m < top.len() implies (#[trigger] top[m]).1 <= h.1 by {
            assert(top[m] == once[m]);
            assert(once[m].1 <= once[j].1);
        }
    }
}

/// A ranking is what was found, each hit as often as it was found, in the order of
/// distance.
pub proof fn law_ranking_orders_what_was_found(
    ranking: Seq<(u64, u32)>,
    found: Seq<(u64, u32)>,
    i: int,
    j: int,
    h: (u64, u32),
)
    requires
        is_ranking(ranking, found),
        0 <= i <= j < ranking.len(),
    ensures
        ranking[i].1 <= ranking[j].1,
        ranking.len() == found.len(),
        ranking.to_multiset().count(h) == found.to_multiset().count(h),
{
    ranking.to_multiset_ensures();
    found.to_multiset_ensures();
}

/// Two runs of hits between which the id changes lose their repeats each on its
/// own: an id that comes back after another one stays.
pub proof fn law_runs_are_deduped_apart(a: Seq<(u64, u32)>, b: Seq<(u64, u32)>)
    requires
        a.len() > 0 && b.len() > 0 ==> a.last().0 != b[0].0,
    ensures
        deduped(a + b) == deduped(a) + deduped(b),
    decreases b.len(),
{
    if b.len() == 0 {
        assert(a + b =~= a);
        assert(deduped(a) + deduped(b) =~= deduped(a));
    } else {
        let front = b.drop_last();
        assert((a + b).drop_last() =~= a + front);
        law_runs_are_deduped_apart(a, front);
        assert(deduped(a + b) =~= deduped(a) + deduped(b));
    }
}

/// Of a run of hits with one id the first stays, and no other.
pub proof fn law_run_leaves_its_first(run: Seq<(u64, u32)>)
    requires
        run.len() > 0,
        forall|i: int, j: int|
            0 <= i < run.len() && 0 <= j < run.len() ==> run[i].0 == run[j].0,
    ensures
        deduped(run) == seq![run[0]],
    decreases run.len(),
{
    if run.len() == 1 {
        assert(run.drop_last() =~= Seq::<(u64, u32)>::empty());
        assert(deduped(Seq::<(u64, u32)>::empty()).len() == 0);
        assert(deduped(run) =~= seq![run[0]]);
    } else {
        law_run_leaves_its_first(run.drop_last());
    }
}

/// The results are the first of the ranking without repeats, as many as were asked
/// for or as there are.
pub proof fn law_results_are_the_first(ranking: Seq<(u64, u32)>, k: nat, j: int)
    ensures
        best(ranking, k).len() == if deduped(ranking).len() < k {
            deduped(ranking).len()
        } else {
            k
        },
        0 <= j < best(ranking, k).len() ==> best(ranking, k)[j] == deduped(ranking)[j],
{
}

/// A ranking of what was found is any order of it in which no hit stands before a
/// nearer one.
pub proof fn law_what_a_ranking_is(ranking: Seq<(u64, u32)>, found: Seq<(u64, u32)>)
    ensures
        is_ranking(ranking, found) <==> ranking.to_multiset() == found.to_multiset() && (forall|
            i: int,
            j: int,
        |
            0 <= i < j < ranking.len() ==> (#[trigger] ranking[i]).1 <= (#[trigger] ranking[j]).1),
{
}

} // verus!
