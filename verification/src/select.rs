//! The positions of a list that are of interest.

use vstd::prelude::*;

verus! {

/// The positions below `n` that are of interest, in ascending order.
pub open spec fn chosen(n: int, wanted: spec_fn(int) -> bool) -> Seq<usize>
    decreases n,
{
    if n <= 0 {
        seq![]
    } else if wanted(n - 1) {
        chosen(n - 1, wanted).push((n - 1) as usize)
    } else {
        chosen(n - 1, wanted)
    }
}

/// No more than `max` of a list, from its start on.
pub open spec fn at_most<A>(list: Seq<A>, max: int) -> Seq<A> {
    if list.len() <= max {
        list
    } else {
        list.take(max)
    }
}

/// What is chosen: every position of interest, each once, in ascending order.
pub proof fn lemma_chosen(n: int, wanted: spec_fn(int) -> bool)
    requires
        0 <= n <= usize::MAX + 1,
    ensures
        chosen(n, wanted).len() <= n,
        forall|k: int|
            #![trigger chosen(n, wanted)[k]]
            0 <= k < chosen(n, wanted).len() ==> chosen(n, wanted)[k] < n && wanted(
                chosen(n, wanted)[k] as int,
            ),
        forall|p: usize| p < n && #[trigger] wanted(p as int) ==> chosen(n, wanted).contains(p),
        forall|j: int, k: int|
            0 <= j < k < chosen(n, wanted).len() ==> #[trigger] chosen(n, wanted)[j]
                < #[trigger] chosen(n, wanted)[k],
    decreases n,
{
    if n > 0 {
        lemma_chosen(n - 1, wanted);
        let fewer = chosen(n - 1, wanted);
        let all = chosen(n, wanted);
        assert forall|p: usize| p < n && #[trigger] wanted(p as int) implies all.contains(p) by {
            if p < n - 1 {
                let k = choose|k: int| 0 <= k < fewer.len() && fewer[k] == p;
                assert(all[k] == p);
            } else {
                assert(all[all.len() - 1] == p);
            }
        }
    }
}

/// More positions add to what is chosen at its end.
pub proof fn lemma_chosen_grows(m: int, n: int, wanted: spec_fn(int) -> bool)
    requires
        0 <= m <= n,
    ensures
        chosen(m, wanted).len() <= chosen(n, wanted).len(),
        chosen(n, wanted).take(chosen(m, wanted).len() as int) == chosen(m, wanted),
    decreases n,
{
    if m < n {
        lemma_chosen_grows(m, n - 1, wanted);
        let length = chosen(m, wanted).len() as int;
        assert(chosen(n, wanted).take(length) =~= chosen(n - 1, wanted).take(length));
    } else {
        assert(chosen(n, wanted).take(chosen(n, wanted).len() as int) =~= chosen(n, wanted));
    }
}

/// Interest in the same positions chooses the same ones.
pub proof fn lemma_chosen_same(n: int, a: spec_fn(int) -> bool, b: spec_fn(int) -> bool)
    requires
        forall|i: int| 0 <= i < n ==> #[trigger] a(i) == b(i),
    ensures
        chosen(n, a) == chosen(n, b),
    decreases n,
{
    if n > 0 {
        lemma_chosen_same(n - 1, a, b);
    }
}

/// Losing interest in one position takes one from the number of those that are chosen.
pub proof fn lemma_chosen_one_less(
    n: int,
    before: spec_fn(int) -> bool,
    after: spec_fn(int) -> bool,
    k: int,
)
    requires
        0 <= k < n,
        before(k),
        !after(k),
        forall|i: int| 0 <= i < n && i != k ==> #[trigger] before(i) == after(i),
    ensures
        chosen(n, before).len() == chosen(n, after).len() + 1,
    decreases n,
{
    if k < n - 1 {
        lemma_chosen_one_less(n - 1, before, after, k);
        assert(before(n - 1) == after(n - 1));
    } else {
        lemma_chosen_same(n - 1, before, after);
    }
}

/// All positions are chosen where all are of interest, and only there.
pub proof fn lemma_chosen_all(n: int, wanted: spec_fn(int) -> bool)
    requires
        0 <= n,
    ensures
        chosen(n, wanted).len() <= n,
        chosen(n, wanted).len() == n <==> forall|i: int| 0 <= i < n ==> #[trigger] wanted(i),
    decreases n,
{
    if n > 0 {
        lemma_chosen_all(n - 1, wanted);
        if chosen(n, wanted).len() == n {
            assert(wanted(n - 1));
        }
    }
}

/// Interest in fewer positions chooses fewer, unless it is the same.
pub proof fn lemma_chosen_fewer(n: int, fewer: spec_fn(int) -> bool, more: spec_fn(int) -> bool)
    requires
        forall|i: int| 0 <= i < n && #[trigger] fewer(i) ==> more(i),
    ensures
        chosen(n, fewer).len() <= chosen(n, more).len(),
        chosen(n, fewer).len() == chosen(n, more).len() ==> forall|i: int|
            0 <= i < n && #[trigger] more(i) ==> fewer(i),
    decreases n,
{
    if n > 0 {
        lemma_chosen_fewer(n - 1, fewer, more);
        if fewer(n - 1) {
            assert(more(n - 1));
        }
    }
}

/// Interest in no more than one position chooses no other.
pub proof fn lemma_chosen_one(n: int, wanted: spec_fn(int) -> bool, index: int)
    requires
        0 <= index < n,
        forall|i: int| 0 <= i < n && i != index ==> !#[trigger] wanted(i),
    ensures
        chosen(n, wanted) == if wanted(index) {
            seq![index as usize]
        } else {
            seq![]
        },
    decreases n,
{
    if n - 1 == index {
        lemma_chosen_none(n - 1, wanted);
        assert(chosen(n, wanted) =~= if wanted(index) {
            seq![index as usize]
        } else {
            seq![]
        });
    } else {
        lemma_chosen_one(n - 1, wanted, index);
    }
}

/// Interest in none chooses none.
pub proof fn lemma_chosen_none(n: int, wanted: spec_fn(int) -> bool)
    requires
        forall|i: int| 0 <= i < n ==> !#[trigger] wanted(i),
    ensures
        chosen(n, wanted) == Seq::<usize>::empty(),
    decreases n,
{
    if n > 0 {
        lemma_chosen_none(n - 1, wanted);
    }
}

} // verus!
