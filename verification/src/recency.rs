//! Ranking by recency: which of several items is the oldest, and how many are
//! older than a given one.
use vstd::prelude::*;

verus! {

/// Whether `before` orders the items strictly and totally.
pub open spec fn ordered_by<T>(items: Seq<T>, before: spec_fn(T, T) -> bool) -> bool {
    &&& forall|i: int, j: int|
        0 <= i < items.len() && 0 <= j < items.len() && i != j ==> (before(
            #[trigger] items[i],
            #[trigger] items[j],
        ) || before(items[j], items[i]))
    &&& forall|i: int, j: int|
        0 <= i < items.len() && 0 <= j < items.len() ==> !(before(
            #[trigger] items[i],
            #[trigger] items[j],
        ) && before(items[j], items[i]))
    &&& forall|i: int, j: int, k: int|
        0 <= i < items.len() && 0 <= j < items.len() && 0 <= k < items.len() && before(
            #[trigger] items[i],
            #[trigger] items[j],
        ) && before(items[j], #[trigger] items[k]) ==> before(items[i], items[k])
}

/// How many items come before `item`.
pub open spec fn rank<T>(items: Seq<T>, before: spec_fn(T, T) -> bool, item: T) -> nat
    decreases items.len(),
{
    if items.len() == 0 {
        0
    } else {
        rank(items.drop_last(), before, item) + if before(items.last(), item) {
            1nat
        } else {
            0nat
        }
    }
}

/// The index of the item that comes before all others.
pub open spec fn first_of<T>(items: Seq<T>, before: spec_fn(T, T) -> bool) -> int
    decreases items.len(),
{
    if items.len() <= 1 {
        0
    } else {
        let first = first_of(items.drop_last(), before);
        if before(items.last(), items[first]) {
            items.len() - 1
        } else {
            first
        }
    }
}

/// A prefix of ordered items is ordered.
pub proof fn lemma_ordered_prefix<T>(items: Seq<T>, before: spec_fn(T, T) -> bool, n: int)
    requires
        ordered_by(items, before),
        0 <= n <= items.len(),
    ensures
        ordered_by(items.take(n), before),
{
    let part = items.take(n);
    assert forall|i: int| 0 <= i < n implies #[trigger] part[i] == items[i] by {}
    assert forall|i: int, j: int|
        0 <= i < part.len() && 0 <= j < part.len() && i != j implies (before(
        #[trigger] part[i],
        #[trigger] part[j],
    ) || before(part[j], part[i])) by {
        assert(before(items[i], items[j]) || before(items[j], items[i]));
    }
    assert forall|i: int, j: int| 0 <= i < part.len() && 0 <= j < part.len() implies !(before(
        #[trigger] part[i],
        #[trigger] part[j],
    ) && before(part[j], part[i])) by {
        assert(!(before(items[i], items[j]) && before(items[j], items[i])));
    }
    assert forall|i: int, j: int, k: int|
        0 <= i < part.len() && 0 <= j < part.len() && 0 <= k < part.len() && before(
            #[trigger] part[i],
            #[trigger] part[j],
        ) && before(part[j], #[trigger] part[k]) implies before(part[i], part[k]) by {
        assert(before(items[i], items[j]) && before(items[j], items[k]));
    }
}

/// The first item is one of the items.
pub proof fn lemma_first_in_range<T>(items: Seq<T>, before: spec_fn(T, T) -> bool)
    requires
        items.len() > 0,
    ensures
        0 <= first_of(items, before) < items.len(),
    decreases items.len(),
{
    if items.len() > 1 {
        lemma_first_in_range(items.drop_last(), before);
    }
}

/// The first item comes before every other one.
pub proof fn lemma_first<T>(items: Seq<T>, before: spec_fn(T, T) -> bool)
    requires
        items.len() > 0,
        ordered_by(items, before),
    ensures
        0 <= first_of(items, before) < items.len(),
        forall|j: int|
            0 <= j < items.len() && j != first_of(items, before) ==> before(
                items[first_of(items, before)],
                #[trigger] items[j],
            ),
    decreases items.len(),
{
    if items.len() > 1 {
        let rest = items.drop_last();
        lemma_ordered_prefix(items, before, items.len() - 1);
        assert(rest =~= items.take(items.len() - 1));
        lemma_first(rest, before);
        let first = first_of(rest, before);
        let last = items.len() - 1;
        let m = first_of(items, before);
        assert(items[first] == rest[first]);
        assert forall|j: int| 0 <= j < items.len() && j != m implies before(
            items[m],
            #[trigger] items[j],
        ) by {
            if j < last && j != first {
                assert(rest[j] == items[j]);
                assert(before(rest[first], rest[j]));
                if m == last {
                    assert(before(items[last], items[first]) && before(items[first], items[j]));
                }
            } else if j == last {
                assert(before(items[first], items[last]) || before(items[last], items[first]));
            }
        }
    }
}

/// At most all items come before one of them.
pub proof fn lemma_rank_bound<T>(items: Seq<T>, before: spec_fn(T, T) -> bool, item: T)
    ensures
        rank(items, before, item) <= items.len(),
    decreases items.len(),
{
    if items.len() > 0 {
        lemma_rank_bound(items.drop_last(), before, item);
    }
}

proof fn lemma_rank_grows<T>(
    items: Seq<T>,
    before: spec_fn(T, T) -> bool,
    a: T,
    b: T,
    n: int,
    at: int,
)
    requires
        0 <= n <= items.len(),
        0 <= at < items.len(),
        items[at] == a,
        forall|i: int|
            0 <= i < items.len() && before(#[trigger] items[i], a) ==> before(items[i], b),
        before(a, b),
        !before(a, a),
    ensures
        rank(items.take(n), before, a) + (if at < n {
            1nat
        } else {
            0nat
        }) <= rank(items.take(n), before, b),
    decreases n,
{
    if n > 0 {
        lemma_rank_grows(items, before, a, b, n - 1, at);
        assert(items.take(n).drop_last() =~= items.take(n - 1));
        assert(items.take(n).last() == items[n - 1]);
    }
}

/// What comes before another item has the smaller rank.
pub proof fn lemma_rank<T>(items: Seq<T>, before: spec_fn(T, T) -> bool, i: int, j: int)
    requires
        ordered_by(items, before),
        0 <= i < items.len(),
        0 <= j < items.len(),
        before(items[i], items[j]),
    ensures
        rank(items, before, items[i]) < rank(items, before, items[j]),
{
    assert(!(before(items[i], items[i]) && before(items[i], items[i])));
    assert forall|k: int|
        0 <= k < items.len() && before(#[trigger] items[k], items[i]) implies before(
        items[k],
        items[j],
    ) by {
        assert(before(items[k], items[i]) && before(items[i], items[j]));
    }
    lemma_rank_grows(items, before, items[i], items[j], items.len() as int, i);
    assert(items.take(items.len() as int) =~= items);
}

/// Where an item does not come before another, not all items do.
pub proof fn lemma_rank_without<T>(items: Seq<T>, before: spec_fn(T, T) -> bool, item: T, i: int)
    requires
        0 <= i < items.len(),
        !before(items[i], item),
    ensures
        rank(items, before, item) < items.len(),
    decreases items.len(),
{
    if i == items.len() - 1 {
        lemma_rank_bound(items.drop_last(), before, item);
    } else {
        lemma_rank_without(items.drop_last(), before, item, i);
    }
}

} // verus!
