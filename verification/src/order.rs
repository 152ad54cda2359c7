//! Sorting by a given order.
use vstd::prelude::*;
use vstd::seq_lib::*;

verus! {

broadcast use vstd::multiset::group_multiset_axioms;

/// An order on items, stated over their contents.
pub trait Order<T: View> {
    /// Whether the content `a` goes before the content `b`.
    spec fn before(a: T::V, b: T::V) -> bool;

    /// Whether `a` goes before `b`.
    fn is_before(a: &T, b: &T) -> (yes: bool)
        ensures
            yes == Self::before(a@, b@),
    ;

    /// What does not go before something does not go before anything later.
    proof fn lemma_order(a: T::V, b: T::V, c: T::V)
        ensures
            !Self::before(b, a) && !Self::before(c, b) ==> !Self::before(c, a),
            Self::before(a, b) ==> !Self::before(b, a),
    ;
}

/// The contents of items.
pub open spec fn views<T: View>(items: Seq<T>) -> Seq<T::V> {
    items.map_values(|item: T| item@)
}

/// Whether no item goes before an earlier one.
pub open spec fn sorted_by<T: View, O: Order<T>>(items: Seq<T::V>) -> bool {
    forall|i: int, j: int|
        0 <= i < j < items.len() ==> !O::before(#[trigger] items[j], #[trigger] items[i])
}

proof fn lemma_views_push<T: View>(items: Seq<T>, item: T)
    ensures
        views(items.push(item)) == views(items).push(item@),
        views(items.push(item)).to_multiset() == views(items).to_multiset().insert(item@),
{
    assert(views(items.push(item)) =~= views(items).push(item@));
    to_multiset_build(views(items), item@);
}

proof fn lemma_views_empty<T: View>()
    ensures
        views(Seq::<T>::empty()) == Seq::<T::V>::empty(),
        views(Seq::<T>::empty()).to_multiset() == vstd::multiset::Multiset::<T::V>::empty(),
{
    assert(views(Seq::<T>::empty()) =~= Seq::<T::V>::empty());
    to_multiset_len(Seq::<T::V>::empty());
}

/// Items in reverse order.
fn reversed<T: View>(items: Vec<T>) -> (out: Vec<T>)
    ensures
        out@.len() == items@.len(),
        forall|i: int| 0 <= i < out@.len() ==> #[trigger] out@[i] == items@[items@.len() - 1 - i],
        views(out@).to_multiset() == views(items@).to_multiset(),
{
    let ghost all = items@;
    let mut rest = items;
    let mut out: Vec<T> = Vec::new();
    proof {
        lemma_views_empty::<T>();
        assert(views(rest@).to_multiset().add(views(out@).to_multiset()) =~= views(
            all,
        ).to_multiset());
    }
    while rest.len() > 0
        invariant
            rest@.len() + out@.len() == all.len(),
            forall|i: int| 0 <= i < rest@.len() ==> #[trigger] rest@[i] == all[i],
            forall|i: int|
                0 <= i < out@.len() ==> #[trigger] out@[i] == all[all.len() - 1 - i],
            views(rest@).to_multiset().add(views(out@).to_multiset()) == views(all).to_multiset(),
        decreases rest@.len(),
    {
        let ghost before = rest@;
        let ghost past = out@;
        if let Some(item) = rest.pop() {
            proof {
                assert(before =~= rest@.push(item));
                lemma_views_push(rest@, item);
                lemma_views_push(past, item);
            }
            out.push(item);
            assert(views(rest@).to_multiset().add(views(out@).to_multiset()) =~= views(
                before,
            ).to_multiset().add(views(past).to_multiset()));
        }
    }
    proof {
        assert(rest@ =~= Seq::<T>::empty());
        lemma_views_empty::<T>();
        assert(views(rest@).to_multiset().add(views(out@).to_multiset()) =~= views(
            out@,
        ).to_multiset());
    }
    out
}

/// Two sorted lists as one.
fn merge<T: View, O: Order<T>>(left: Vec<T>, right: Vec<T>) -> (out: Vec<T>)
    requires
        sorted_by::<T, O>(views(left@)),
        sorted_by::<T, O>(views(right@)),
    ensures
        sorted_by::<T, O>(views(out@)),
        views(out@).to_multiset() == views(left@).to_multiset().add(views(right@).to_multiset()),
        out@.len() == left@.len() + right@.len(),
{
    let ghost total = views(left@).to_multiset().add(views(right@).to_multiset());
    let ghost size = left@.len() + right@.len();
    let mut a = left;
    let mut b = right;
    // The last items are taken first.
    let mut down: Vec<T> = Vec::new();
    proof {
        lemma_views_empty::<T>();
        assert(views(a@).to_multiset().add(views(b@).to_multiset()).add(
            views(down@).to_multiset(),
        ) =~= total);
    }
    while a.len() > 0 || b.len() > 0
        invariant
            size == a@.len() + b@.len() + down@.len(),
            sorted_by::<T, O>(views(a@)),
            sorted_by::<T, O>(views(b@)),
            forall|i: int, j: int|
                0 <= i < j < down@.len() ==> !O::before(
                    (#[trigger] down@[i])@,
                    (#[trigger] down@[j])@,
                ),
            forall|i: int, j: int|
                0 <= i < a@.len() && 0 <= j < down@.len() ==> !O::before(
                    (#[trigger] down@[j])@,
                    (#[trigger] a@[i])@,
                ),
            forall|i: int, j: int|
                0 <= i < b@.len() && 0 <= j < down@.len() ==> !O::before(
                    (#[trigger] down@[j])@,
                    (#[trigger] b@[i])@,
                ),
            views(a@).to_multiset().add(views(b@).to_multiset()).add(views(down@).to_multiset())
                == total,
        decreases a@.len() + b@.len(),
    {
        let ghost a0 = a@;
        let ghost b0 = b@;
        let ghost d0 = down@;
        let from_a = if a.len() == 0 {
            false
        } else if b.len() == 0 {
            true
        } else {
            O::is_before(&b[b.len() - 1], &a[a.len() - 1])
        };
        proof {
            // The item taken does not go before any that is left.
            assert forall|i: int| 0 <= i < a0.len() && a0.len() > 0 implies !O::before(
                a0[a0.len() - 1]@,
                (#[trigger] a0[i])@,
            ) by {
                if i < a0.len() - 1 {
                    assert(views(a0)[i] == a0[i]@);
                    assert(views(a0)[a0.len() - 1] == a0[a0.len() - 1]@);
                } else {
                    O::lemma_order(a0[i]@, a0[i]@, a0[i]@);
                }
            }
            assert forall|i: int| 0 <= i < b0.len() && b0.len() > 0 implies !O::before(
                b0[b0.len() - 1]@,
                (#[trigger] b0[i])@,
            ) by {
                if i < b0.len() - 1 {
                    assert(views(b0)[i] == b0[i]@);
                    assert(views(b0)[b0.len() - 1] == b0[b0.len() - 1]@);
                } else {
                    O::lemma_order(b0[i]@, b0[i]@, b0[i]@);
                }
            }
        }
        let taken = if from_a {
            a.pop()
        } else {
            b.pop()
        };
        if let Some(item) = taken {
            proof {
                if from_a {
                    assert(a0 =~= a@.push(item));
                    lemma_views_push(a@, item);
                    assert forall|i: int| 0 <= i < b0.len() implies !O::before(
                        item@,
                        (#[trigger] b0[i])@,
                    ) by {
                        O::lemma_order(b0[b0.len() - 1]@, item@, item@);
                        O::lemma_order(b0[i]@, b0[b0.len() - 1]@, item@);
                    }
                } else {
                    assert(b0 =~= b@.push(item));
                    lemma_views_push(b@, item);
                    assert forall|i: int| 0 <= i < a0.len() implies !O::before(
                        item@,
                        (#[trigger] a0[i])@,
                    ) by {
                        O::lemma_order(a0[i]@, a0[a0.len() - 1]@, item@);
                    }
                }
                lemma_views_push(d0, item);
                assert(views(a@) =~= views(a0).take(a@.len() as int));
                assert(views(b@) =~= views(b0).take(b@.len() as int));
                assert forall|i: int, j: int| 0 <= i < j < views(a@).len() implies !O::before(
                    #[trigger] views(a@)[j],
                    #[trigger] views(a@)[i],
                ) by {
                    assert(!O::before(views(a0)[j], views(a0)[i]));
                }
                assert forall|i: int, j: int| 0 <= i < j < views(b@).len() implies !O::before(
                    #[trigger] views(b@)[j],
                    #[trigger] views(b@)[i],
                ) by {
                    assert(!O::before(views(b0)[j], views(b0)[i]));
                }
            }
            down.push(item);
            proof {
                assert(views(a@).to_multiset().add(views(b@).to_multiset()).add(
                    views(down@).to_multiset(),
                ) =~= views(a0).to_multiset().add(views(b0).to_multiset()).add(
                    views(d0).to_multiset(),
                ));
                assert forall|i: int, j: int| 0 <= i < j < down@.len() implies !O::before(
                    (#[trigger] down@[i])@,
                    (#[trigger] down@[j])@,
                ) by {
                    assert(down@[i] == d0[i]);
                    if j < d0.len() {
                        assert(down@[j] == d0[j]);
                    } else if from_a {
                        assert(a0[a0.len() - 1] == item);
                    } else {
                        assert(b0[b0.len() - 1] == item);
                    }
                }
                assert forall|i: int, j: int|
                    0 <= i < a@.len() && 0 <= j < down@.len() implies !O::before(
                    (#[trigger] down@[j])@,
                    (#[trigger] a@[i])@,
                ) by {
                    assert(a@[i] == a0[i]);
                    if j < d0.len() {
                        assert(down@[j] == d0[j]);
                    }
                }
                assert forall|i: int, j: int|
                    0 <= i < b@.len() && 0 <= j < down@.len() implies !O::before(
                    (#[trigger] down@[j])@,
                    (#[trigger] b@[i])@,
                ) by {
                    assert(b@[i] == b0[i]);
                    if j < d0.len() {
                        assert(down@[j] == d0[j]);
                    }
                }
            }
        }
    }
    proof {
        assert(a@ =~= Seq::<T>::empty());
        assert(b@ =~= Seq::<T>::empty());
        lemma_views_empty::<T>();
        assert(views(down@).to_multiset() =~= total);
    }
    let ghost d = down@;
    let out = reversed(down);
    proof {
        assert forall|i: int, j: int| 0 <= i < j < views(out@).len() implies !O::before(
            #[trigger] views(out@)[j],
            #[trigger] views(out@)[i],
        ) by {
            assert(out@[i] == d[d.len() - 1 - i]);
            assert(out@[j] == d[d.len() - 1 - j]);
        }
    }
    out
}

/// The items, sorted.
pub fn sort<T: View, O: Order<T>>(items: Vec<T>) -> (out: Vec<T>)
    ensures
        sorted_by::<T, O>(views(out@)),
        views(out@).to_multiset() == views(items@).to_multiset(),
        out@.len() == items@.len(),
    decreases items@.len(),
{
    if items.len() < 2 {
        return items;
    }
    let ghost all = items@;
    let half: usize = items.len() / 2;
    let mut left = items;
    let right = left.split_off(half);
    proof {
        assert(views(all) =~= views(left@) + views(right@));
        lemma_multiset_commutative(views(left@), views(right@));
    }
    merge::<T, O>(sort::<T, O>(left), sort::<T, O>(right))
}

/// Sorted lists of the same items are equal, where the order tells any two
/// different items apart.
pub proof fn law_sorted_is_unique<T: View, O: Order<T>>(a: Seq<T::V>, b: Seq<T::V>)
    requires
        sorted_by::<T, O>(a),
        sorted_by::<T, O>(b),
        a.to_multiset() == b.to_multiset(),
        forall|x: T::V, y: T::V| x == y || #[trigger] O::before(x, y) || O::before(y, x),
    ensures
        a == b,
    decreases a.len(),
{
    to_multiset_len(a);
    to_multiset_len(b);
    if a.len() > 0 {
        let x = a.last();
        let y = b.last();
        to_multiset_contains(a, y);
        to_multiset_contains(b, x);
        to_multiset_contains(a, x);
        to_multiset_contains(b, y);
        assert(a[a.len() - 1] == x);
        assert(b[b.len() - 1] == y);
        assert(a.contains(x));
        assert(b.contains(y));
        assert(a.contains(y));
        assert(b.contains(x));
        let i = choose|i: int| 0 <= i < a.len() && a[i] == y;
        let j = choose|j: int| 0 <= j < b.len() && b[j] == x;
        assert(x == y) by {
            if x != y {
                assert(i < a.len() - 1);
                assert(j < b.len() - 1);
                assert(!O::before(a[a.len() - 1], a[i]));
                assert(!O::before(b[b.len() - 1], b[j]));
                assert(O::before(x, y) || O::before(y, x));
            }
        }
        let c = a.drop_last();
        let d = b.drop_last();
        assert(a =~= c.push(x));
        assert(b =~= d.push(x));
        to_multiset_build(c, x);
        to_multiset_build(d, x);
        assert(c.to_multiset() =~= c.push(x).to_multiset().remove(x));
        assert(d.to_multiset() =~= d.push(x).to_multiset().remove(x));
        assert forall|m: int, n: int| 0 <= m < n < c.len() implies !O::before(
            #[trigger] c[n],
            #[trigger] c[m],
        ) by {
            assert(!O::before(a[n], a[m]));
        }
        assert forall|m: int, n: int| 0 <= m < n < d.len() implies !O::before(
            #[trigger] d[n],
            #[trigger] d[m],
        ) by {
            assert(!O::before(b[n], b[m]));
        }
        law_sorted_is_unique::<T, O>(c, d);
    } else {
        assert(a =~= b);
    }
}

/// Whether each item goes before all later ones.
pub open spec fn strictly_sorted<T: View, O: Order<T>>(items: Seq<T::V>) -> bool {
    forall|i: int, j: int|
        0 <= i < j < items.len() ==> O::before(#[trigger] items[i], #[trigger] items[j])
}

/// Whether an order tells any two different contents apart.
pub open spec fn tells_apart<T: View, O: Order<T>>() -> bool {
    forall|x: T::V, y: T::V| x == y || #[trigger] O::before(x, y) || O::before(y, x)
}

/// The items, sorted, each content once.
pub fn sort_unique<T: View, O: Order<T>>(items: Vec<T>) -> (out: Vec<T>)
    requires
        tells_apart::<T, O>(),
    ensures
        strictly_sorted::<T, O>(views(out@)),
        forall|x: T::V| #[trigger] views(out@).contains(x) <==> views(items@).contains(x),
        out@.len() <= items@.len(),
{
    let ghost all = views(items@);
    let _size: usize = items.len();
    let sorted = sort::<T, O>(items);
    let ghost s = sorted@;
    proof {
        assert forall|x: T::V| #[trigger] views(s).contains(x) <==> all.contains(x) by {
            to_multiset_contains(views(s), x);
            to_multiset_contains(all, x);
        }
    }
    let mut stack = reversed(sorted);
    let ghost total = stack@.len();
    let mut out: Vec<T> = Vec::new();
    while stack.len() > 0
        invariant
            total == s.len(),
            stack@.len() <= total,
            tells_apart::<T, O>(),
            sorted_by::<T, O>(views(s)),
            forall|i: int|
                0 <= i < stack@.len() ==> #[trigger] stack@[i] == s[total - 1 - i],
            strictly_sorted::<T, O>(views(out@)),
            out@.len() <= total - stack@.len(),
            forall|i: int|
                0 <= i < out@.len() ==> exists|j: int|
                    0 <= j < total - stack@.len() && s[j]@ == (#[trigger] out@[i])@,
            forall|j: int|
                0 <= j < total - stack@.len() ==> views(out@).contains((#[trigger] s[j])@),
            out@.len() > 0 ==> total - stack@.len() > 0 && out@.last()@ == s[total - stack@.len()
                - 1]@,
        decreases stack@.len(),
    {
        let ghost done = total - stack@.len();
        let ghost past = out@;
        if let Some(item) = stack.pop() {
            assert(item == s[done as int]);
            let fresh = out.len() == 0 || O::is_before(&out[out.len() - 1], &item);
            if fresh {
                proof {
                    assert forall|i: int| 0 <= i < past.len() implies O::before(
                        (#[trigger] past[i])@,
                        item@,
                    ) by {
                        if i < past.len() - 1 {
                            assert(O::before(views(past)[i], views(past)[past.len() - 1]));
                            O::lemma_order(past[i]@, past.last()@, item@);
                            O::lemma_order(past[i]@, past.last()@, past.last()@);
                            assert(past[i]@ == item@ || O::before(past[i]@, item@) || O::before(
                                item@,
                                past[i]@,
                            ));
                            O::lemma_order(past.last()@, item@, past[i]@);
                        }
                    }
                }
                out.push(item);
                proof {
                    assert(views(out@) =~= views(past).push(item@));
                    assert forall|i: int, j: int| 0 <= i < j < views(out@).len() implies O::before(
                        #[trigger] views(out@)[i],
                        #[trigger] views(out@)[j],
                    ) by {
                        assert(views(out@)[i] == past[i]@);
                        if j < past.len() {
                            assert(O::before(views(past)[i], views(past)[j]));
                        }
                    }
                    assert forall|j: int| 0 <= j < done + 1 implies views(out@).contains(
                        (#[trigger] s[j])@,
                    ) by {
                        if j < done {
                            assert(views(past).contains(s[j]@));
                            let k = choose|k: int|
                                0 <= k < views(past).len() && views(past)[k] == s[j]@;
                            assert(views(out@)[k] == s[j]@);
                        } else {
                            assert(views(out@)[past.len() as int] == item@);
                        }
                    }
                    assert forall|i: int| 0 <= i < out@.len() implies exists|j: int|
                        0 <= j < done + 1 && s[j]@ == (#[trigger] out@[i])@ by {
                        if i < past.len() {
                            assert(out@[i] == past[i]);
                            let j = choose|j: int| 0 <= j < done && s[j]@ == past[i]@;
                            assert(s[j]@ == out@[i]@);
                        } else {
                            assert(s[done as int]@ == out@[i]@);
                        }
                    }
                }
            } else {
                proof {
                    // Sorted, and not behind the last item: the same content.
                    assert(views(s)[done - 1] == s[done - 1]@);
                    assert(views(s)[done as int] == s[done as int]@);
                    assert(!O::before(views(s)[done as int], views(s)[done - 1]));
                    assert(item@ == past.last()@);
                    assert(views(out@)[past.len() - 1] == item@);
                    assert forall|i: int| 0 <= i < out@.len() implies exists|j: int|
                        0 <= j < done + 1 && s[j]@ == (#[trigger] out@[i])@ by {
                        let j = choose|j: int| 0 <= j < done && s[j]@ == past[i]@;
                        assert(s[j]@ == out@[i]@);
                    }
                }
            }
        }
    }
    proof {
        assert forall|x: T::V| #[trigger] views(out@).contains(x) <==> all.contains(x) by {
            if views(out@).contains(x) {
                let i = choose|i: int| 0 <= i < views(out@).len() && views(out@)[i] == x;
                assert(out@[i]@ == x);
                let j = choose|j: int| 0 <= j < total && s[j]@ == out@[i]@;
                assert(views(s)[j] == x);
                assert(views(s).contains(x));
            }
            if all.contains(x) {
                assert(views(s).contains(x));
                let j = choose|j: int| 0 <= j < views(s).len() && views(s)[j] == x;
                assert(s[j]@ == x);
            }
        }
    }
    out
}

} // verus!
