//! What batches of edits promise whatever their order.
use vstd::prelude::*;
use vstd::seq_lib::*;

use crate::lsp::{char_at, lemma_char_at_inside, PositionError};
use crate::lsp_edits::{
    chars_in, edited, inside, law_accepted_batch_replaces_in_place, lemma_sorted_inside,
    lemma_splices_fail, lemma_splices_inside, overlap, overlapping, rewritten, splice_after, splice_inserted, splices,
    splices_sorted, Edit, Splice,
};

verus! {

broadcast use vstd::multiset::group_multiset_axioms;

/// Whether the range of an edit stands in a text.
pub open spec fn has_place(s: Seq<char>, edit: Edit) -> bool {
    chars_in(s, edit.range) is Ok
}

/// An edit in scalar values, where it has a place.
pub open spec fn splice_of(s: Seq<char>, edit: Edit) -> Splice {
    let (start, end) = chars_in(s, edit.range)->Ok_0;
    Splice { start, end, text: edit.new_text }
}

/// The edits of a batch in scalar values.
pub open spec fn splices_of(s: Seq<char>, edits: Seq<Edit>) -> Seq<Splice> {
    edits.map_values(|edit: Edit| splice_of(s, edit))
}

/// Whether two splices keep apart: they start at different places, and one ends
/// before the other starts.
pub open spec fn apart(a: Splice, b: Splice) -> bool {
    a.start != b.start && (a.end <= b.start || b.end <= a.start)
}

/// A batch has splices exactly where every edit has a place.
proof fn lemma_splices(s: Seq<char>, edits: Seq<Edit>)
    ensures
        splices(s, edits) is Ok <==> forall|i: int|
            0 <= i < edits.len() ==> has_place(s, #[trigger] edits[i]),
        splices(s, edits) matches Ok(list) ==> list == splices_of(s, edits),
    decreases edits.len(),
{
    if edits.len() == 0 {
        assert(splices_of(s, edits) =~= Seq::<Splice>::empty());
    } else {
        let front = edits.drop_last();
        let last = edits.len() - 1;
        lemma_splices(s, front);
        assert(edits[last] == edits.last());
        if splices(s, edits) is Ok {
            assert(splices_of(s, edits) =~= splices_of(s, front).push(splice_of(s, edits.last())));
            assert forall|i: int| 0 <= i < edits.len() implies has_place(
                s,
                #[trigger] edits[i],
            ) by {
                if i < last {
                    assert(front[i] == edits[i]);
                }
            }
        }
        if forall|i: int| 0 <= i < edits.len() ==> has_place(s, #[trigger] edits[i]) {
            assert forall|i: int| 0 <= i < front.len() implies has_place(
                s,
                #[trigger] front[i],
            ) by {
                assert(front[i] == edits[i]);
            }
            assert(has_place(s, edits[last]));
        }
    }
}

/// Inserting adds one splice and keeps the order.
proof fn lemma_inserted(sorted: Seq<Splice>, splice: Splice)
    requires
        forall|i: int, j: int|
            0 <= i < j < sorted.len() ==> !splice_after(#[trigger] sorted[i], #[trigger] sorted[j]),
    ensures
        ({
            let after = splice_inserted(sorted, splice);
            &&& after.to_multiset() == sorted.to_multiset().insert(splice)
            &&& forall|i: int, j: int|
                0 <= i < j < after.len() ==> !splice_after(#[trigger] after[i], #[trigger] after[j])
        }),
    decreases sorted.len(),
{
    let after = splice_inserted(sorted, splice);
    to_multiset_build(sorted, splice);
    if sorted.len() == 0 || !splice_after(sorted.last(), splice) {
        assert forall|i: int, j: int| 0 <= i < j < after.len() implies !splice_after(
            #[trigger] after[i],
            #[trigger] after[j],
        ) by {
            if j == sorted.len() && i < sorted.len() - 1 {
                assert(!splice_after(sorted[i], sorted[sorted.len() - 1]));
            }
        }
    } else {
        let front = sorted.drop_last();
        let last = sorted.last();
        lemma_inserted(front, splice);
        let inner = splice_inserted(front, splice);
        to_multiset_build(inner, last);
        to_multiset_build(front, last);
        assert(front.push(last) =~= sorted);
        assert(after.to_multiset() =~= sorted.to_multiset().insert(splice));
        assert forall|i: int, j: int| 0 <= i < j < after.len() implies !splice_after(
            #[trigger] after[i],
            #[trigger] after[j],
        ) by {
            if j < inner.len() {
                assert(!splice_after(inner[i], inner[j]));
            } else {
                let x = inner[i];
                assert(inner.contains(x));
                inner.to_multiset_ensures();
                front.to_multiset_ensures();
                assert(inner.to_multiset().count(x) > 0);
                if x != splice {
                    assert(front.to_multiset().count(x) > 0);
                    assert(front.contains(x));
                    let k = choose|k: int| 0 <= k < front.len() && front[k] == x;
                    assert(!splice_after(sorted[k], sorted[sorted.len() - 1]));
                }
            }
        }
    }
}

/// Sorting keeps the splices and orders them.
proof fn lemma_sorted(list: Seq<Splice>)
    ensures
        splices_sorted(list).to_multiset() == list.to_multiset(),
        forall|i: int, j: int|
            0 <= i < j < splices_sorted(list).len() ==> !splice_after(
                #[trigger] splices_sorted(list)[i],
                #[trigger] splices_sorted(list)[j],
            ),
    decreases list.len(),
{
    if list.len() > 0 {
        lemma_sorted(list.drop_last());
        lemma_inserted(splices_sorted(list.drop_last()), list.last());
        to_multiset_build(list.drop_last(), list.last());
        assert(list.drop_last().push(list.last()) =~= list);
    }
}

/// Neighbours that do not overlap start one after the other, and so do all.
proof fn lemma_starts_increase(sorted: Seq<Splice>, len: int, i: int, j: int)
    requires
        inside(sorted, len),
        !overlapping(sorted),
        0 <= i < j < sorted.len(),
    ensures
        sorted[i].start < sorted[j].start,
        sorted[i].end <= sorted[j].start,
    decreases j - i,
{
    let k = i + 1;
    assert(!overlap(sorted[k - 1], sorted[k]));
    if k < j {
        lemma_starts_increase(sorted, len, k, j);
    }
}

/// Splices that start one after the other have only one order.
proof fn lemma_one_order(a: Seq<Splice>, b: Seq<Splice>)
    requires
        a.to_multiset() == b.to_multiset(),
        forall|i: int, j: int|
            0 <= i < j < a.len() ==> (#[trigger] a[i]).start < (#[trigger] a[j]).start,
        forall|i: int, j: int|
            0 <= i < j < b.len() ==> !splice_after(#[trigger] b[i], #[trigger] b[j]),
    ensures
        a == b,
    decreases a.len(),
{
    a.to_multiset_ensures();
    b.to_multiset_ensures();
    assert(a.len() == b.len());
    if a.len() == 0 {
        assert(a =~= b);
    } else {
        let last = a.len() - 1;
        let x = a[last];
        let y = b[last];
        assert(a.contains(x) && b.contains(y));
        assert(a.to_multiset().count(y) > 0);
        assert(b.to_multiset().count(x) > 0);
        assert(a.contains(y) && b.contains(x));
        let i = choose|i: int| 0 <= i < a.len() && a[i] == y;
        let j = choose|j: int| 0 <= j < b.len() && b[j] == x;
        if i < last {
            assert(a[i].start < a[last].start);
            if j < last {
                assert(!splice_after(b[j], b[last]));
            }
        }
        assert(x == y);
        assert(a.remove(last) =~= a.drop_last());
        assert(b.remove(last) =~= b.drop_last());
        assert(a.drop_last().to_multiset() == b.drop_last().to_multiset());
        lemma_one_order(a.drop_last(), b.drop_last());
        assert(a =~= a.drop_last().push(x));
        assert(b =~= b.drop_last().push(y));
    }
}

/// The same edits in another order give the same splices in another order.
proof fn lemma_same_splices(s: Seq<char>, a: Seq<Edit>, b: Seq<Edit>)
    requires
        a.to_multiset() == b.to_multiset(),
    ensures
        splices_of(s, a).to_multiset() == splices_of(s, b).to_multiset(),
    decreases a.len(),
{
    a.to_multiset_ensures();
    b.to_multiset_ensures();
    assert(a.len() == b.len());
    if a.len() == 0 {
        assert(splices_of(s, a) =~= splices_of(s, b));
    } else {
        let last = a.len() - 1;
        let x = a[last];
        assert(a.contains(x));
        assert(b.to_multiset().count(x) > 0);
        assert(b.contains(x));
        let j = choose|j: int| 0 <= j < b.len() && b[j] == x;
        assert(a.remove(last).to_multiset() == b.remove(j).to_multiset());
        lemma_same_splices(s, a.remove(last), b.remove(j));
        let p = splices_of(s, a);
        let q = splices_of(s, b);
        assert(splices_of(s, a.remove(last)) =~= p.remove(last));
        assert(splices_of(s, b.remove(j)) =~= q.remove(j));
        p.to_multiset_ensures();
        q.to_multiset_ensures();
        assert(p.contains(p[last]) && q.contains(q[j]));
        let splice = splice_of(s, x);
        assert(p[last] == splice && q[j] == splice);
        assert(p.to_multiset() =~= p.to_multiset().remove(splice).insert(splice));
        assert(q.to_multiset() =~= q.to_multiset().remove(splice).insert(splice));
    }
}

/// An accepted batch gives the same text in any other order.
proof fn lemma_reordered(s: Seq<char>, edits: Seq<Edit>, other: Seq<Edit>)
    requires
        edits.to_multiset() == other.to_multiset(),
        edited(s, edits) is Ok,
    ensures
        edited(s, other) == edited(s, edits),
{
    lemma_splices(s, edits);
    lemma_splices(s, other);
    edits.to_multiset_ensures();
    other.to_multiset_ensures();
    assert forall|i: int| 0 <= i < other.len() implies has_place(s, #[trigger] other[i]) by {
        assert(other.contains(other[i]));
        assert(edits.to_multiset().count(other[i]) > 0);
        assert(edits.contains(other[i]));
        let k = choose|k: int| 0 <= k < edits.len() && edits[k] == other[i];
        assert(has_place(s, edits[k]));
    }
    let a = splices_sorted(splices_of(s, edits));
    let b = splices_sorted(splices_of(s, other));
    lemma_same_splices(s, edits, other);
    lemma_sorted(splices_of(s, edits));
    lemma_sorted(splices_of(s, other));
    lemma_splices_inside(s, edits);
    lemma_sorted_inside(splices_of(s, edits), s.len() as int);
    assert forall|i: int, j: int| 0 <= i < j < a.len() implies (#[trigger] a[i]).start < (
    #[trigger] a[j]).start by {
        lemma_starts_increase(a, s.len() as int, i, j);
    }
    lemma_one_order(a, b);
}

/// The order of a batch does not matter: whether it is accepted, and the text
/// that it gives, depend only on which edits it holds.
pub proof fn law_edit_order_does_not_matter(s: Seq<char>, edits: Seq<Edit>, other: Seq<Edit>)
    requires
        edits.to_multiset() == other.to_multiset(),
    ensures
        edited(s, edits) is Ok <==> edited(s, other) is Ok,
        edited(s, edits) is Ok ==> edited(s, other) == edited(s, edits),
{
    if edited(s, edits) is Ok {
        lemma_reordered(s, edits, other);
    }
    if edited(s, other) is Ok {
        lemma_reordered(s, other, edits);
    }
}

/// A batch is accepted exactly where every edit has a place in the text and any
/// two of them keep apart.
pub proof fn law_batch_is_accepted(s: Seq<char>, edits: Seq<Edit>)
    ensures
        edited(s, edits) is Ok <==> (forall|i: int|
            0 <= i < edits.len() ==> has_place(s, #[trigger] edits[i])) && (forall|i: int, j: int|
            0 <= i < j < edits.len() ==> apart(
                splice_of(s, #[trigger] edits[i]),
                splice_of(s, #[trigger] edits[j]),
            )),
{
    lemma_splices(s, edits);
    if splices(s, edits) is Ok {
        let list = splices_of(s, edits);
        let sorted = splices_sorted(list);
        let len = s.len() as int;
        lemma_sorted(list);
        lemma_splices_inside(s, edits);
        lemma_sorted_inside(list, len);
        list.to_multiset_ensures();
        sorted.to_multiset_ensures();
        if !overlapping(sorted) {
            assert(sorted.no_duplicates()) by {
                assert forall|i: int, j: int| 0 <= i < j < sorted.len() implies sorted[i]
                    != sorted[j] by {
                    lemma_starts_increase(sorted, len, i, j);
                }
            }
            sorted.lemma_multiset_has_no_duplicates();
            list.lemma_multiset_has_no_duplicates_conv();
            assert forall|i: int, j: int| 0 <= i < j < edits.len() implies apart(
                splice_of(s, #[trigger] edits[i]),
                splice_of(s, #[trigger] edits[j]),
            ) by {
                assert(list[i] == splice_of(s, edits[i]) && list[j] == splice_of(s, edits[j]));
                assert(list[i] != list[j]);
                assert(list.contains(list[i]) && list.contains(list[j]));
                assert(sorted.to_multiset().count(list[i]) > 0);
                assert(sorted.to_multiset().count(list[j]) > 0);
                assert(sorted.contains(list[i]) && sorted.contains(list[j]));
                let a = choose|a: int| 0 <= a < sorted.len() && sorted[a] == list[i];
                let b = choose|b: int| 0 <= b < sorted.len() && sorted[b] == list[j];
                if a < b {
                    lemma_starts_increase(sorted, len, a, b);
                } else {
                    lemma_starts_increase(sorted, len, b, a);
                }
            }
        }
        if forall|i: int, j: int|
            0 <= i < j < edits.len() ==> apart(
                splice_of(s, #[trigger] edits[i]),
                splice_of(s, #[trigger] edits[j]),
            ) {
            assert(list.no_duplicates()) by {
                assert forall|i: int, j: int| 0 <= i < j < list.len() implies list[i]
                    != list[j] by {
                    assert(apart(splice_of(s, edits[i]), splice_of(s, edits[j])));
                }
            }
            list.lemma_multiset_has_no_duplicates();
            sorted.lemma_multiset_has_no_duplicates_conv();
            assert forall|k: int| 0 < k < sorted.len() implies !overlap(
                sorted[k - 1],
                #[trigger] sorted[k],
            ) by {
                let left = sorted[k - 1];
                let right = sorted[k];
                assert(left != right);
                assert(sorted.contains(left) && sorted.contains(right));
                assert(list.to_multiset().count(left) > 0);
                assert(list.to_multiset().count(right) > 0);
                assert(list.contains(left) && list.contains(right));
                let a = choose|a: int| 0 <= a < list.len() && list[a] == left;
                let b = choose|b: int| 0 <= b < list.len() && list[b] == right;
                assert(!splice_after(left, right));
                assert(list[a] == splice_of(s, edits[a]) && list[b] == splice_of(s, edits[b]));
                if a < b {
                    assert(apart(splice_of(s, edits[a]), splice_of(s, edits[b])));
                } else {
                    assert(apart(splice_of(s, edits[b]), splice_of(s, edits[a])));
                }
                assert(left.start <= left.end);
                assert(right.start <= right.end);
            }
        }
    }
}

/// A range stands for the scalar values between its two positions, where both
/// have one and the range does not end before it starts.
pub proof fn law_range_joins_its_positions(s: Seq<char>, edit: Edit, i: int, j: int)
    ensures
        chars_in(s, edit.range) == Ok::<(int, int), Seq<char>>((i, j)) <==> {
            &&& char_at(s, edit.range.start) == Ok::<int, PositionError>(i)
            &&& char_at(s, edit.range.end) == Ok::<int, PositionError>(j)
            &&& 0 <= i <= j <= s.len()
        },
{
    lemma_char_at_inside(s, edit.range.start);
    lemma_char_at_inside(s, edit.range.end);
}

/// No edits change nothing.
pub proof fn law_no_edits_change_nothing(s: Seq<char>)
    ensures
        edited(s, Seq::empty()) == Ok::<Seq<char>, Seq<char>>(s),
{
    let none = Seq::<Edit>::empty();
    law_batch_is_accepted(s, none);
    law_accepted_batch_replaces_in_place(s, none);
    assert(s.skip(0) =~= s);
}

proof fn lemma_rewritten_behind(s: Seq<char>, sorted: Seq<Splice>, from: int)
    requires
        inside(sorted, s.len() as int),
        0 <= from <= s.len(),
        sorted.len() > 0 ==> from <= sorted[0].start,
    ensures
        rewritten(s, sorted, from) == rewritten(s, sorted, 0).skip(from),
{
    if sorted.len() == 0 {
        assert(s.skip(0).skip(from) =~= s.skip(from));
    } else {
        let tail = sorted[0].text + rewritten(s, sorted.drop_first(), sorted[0].end);
        assert(0 <= sorted[0].start <= sorted[0].end <= s.len());
        assert(rewritten(s, sorted, 0) =~= s.subrange(0, sorted[0].start) + tail);
        assert(rewritten(s, sorted, from) =~= s.subrange(from, sorted[0].start) + tail);
        assert(rewritten(s, sorted, 0).skip(from) =~= s.subrange(from, sorted[0].start) + tail);
    }
}

/// An edit that stands before all others puts its text in the place of its
/// range, keeps what stands before it, and leaves the rest to the others.
pub proof fn law_first_edit_stands_in_place(
    s: Seq<char>,
    edit: Edit,
    rest: Seq<Edit>,
    i: int,
    j: int,
)
    requires
        char_at(s, edit.range.start) == Ok::<int, PositionError>(i),
        char_at(s, edit.range.end) == Ok::<int, PositionError>(j),
        i <= j,
        edited(s, rest) is Ok,
        forall|k: int|
            0 <= k < rest.len() ==> (char_at(s, (#[trigger] rest[k]).range.start) matches Ok(start)
                && j <= start && i < start),
    ensures
        edited(s, seq![edit] + rest) == Ok::<Seq<char>, Seq<char>>(
            s.take(i) + edit.new_text + edited(s, rest)->Ok_0.skip(j),
        ),
{
    let all = seq![edit] + rest;
    let first = splice_of(s, edit);
    let len = s.len() as int;
    lemma_char_at_inside(s, edit.range.start);
    lemma_char_at_inside(s, edit.range.end);
    assert(has_place(s, edit));
    law_batch_is_accepted(s, rest);
    lemma_splices(s, rest);
    assert forall|k: int| 0 <= k < all.len() implies has_place(s, #[trigger] all[k]) by {
        if k > 0 {
            assert(all[k] == rest[k - 1]);
        }
    }
    assert forall|a: int, b: int| 0 <= a < b < all.len() implies apart(
        splice_of(s, #[trigger] all[a]),
        splice_of(s, #[trigger] all[b]),
    ) by {
        assert(all[b] == rest[b - 1]);
        if a > 0 {
            assert(all[a] == rest[a - 1]);
            assert(apart(splice_of(s, rest[a - 1]), splice_of(s, rest[b - 1])));
        }
    }
    law_batch_is_accepted(s, all);
    lemma_splices(s, all);
    let list = splices_of(s, rest);
    let behind = splices_sorted(list);
    let sorted = seq![first] + behind;
    assert(splices_of(s, all) =~= seq![first] + list);
    lemma_sorted(list);
    lemma_sorted(splices_of(s, all));
    lemma_multiset_commutative(seq![first], list);
    lemma_multiset_commutative(seq![first], behind);
    lemma_splices_inside(s, rest);
    lemma_sorted_inside(list, len);
    list.to_multiset_ensures();
    behind.to_multiset_ensures();
    assert forall|a: int| 0 <= a < behind.len() implies first.start < (#[trigger] behind[a]).start
        && first.end <= behind[a].start by {
        assert(behind.contains(behind[a]));
        assert(list.to_multiset().count(behind[a]) > 0);
        assert(list.contains(behind[a]));
        let k = choose|k: int| 0 <= k < list.len() && list[k] == behind[a];
        assert(list[k] == splice_of(s, rest[k]));
        assert(has_place(s, rest[k]));
    }
    assert forall|a: int, b: int| 0 <= a < b < sorted.len() implies (#[trigger] sorted[a]).start < (
    #[trigger] sorted[b]).start by {
        assert(sorted[b] == behind[b - 1]);
        if a > 0 {
            assert(sorted[a] == behind[a - 1]);
            lemma_starts_increase(behind, len, a - 1, b - 1);
        }
    }
    lemma_one_order(sorted, splices_sorted(splices_of(s, all)));
    law_accepted_batch_replaces_in_place(s, rest);
    law_accepted_batch_replaces_in_place(s, all);
    assert(sorted.drop_first() =~= behind);
    assert(s.subrange(0, i) =~= s.take(i));
    lemma_rewritten_behind(s, behind, j);
}

/// What is refused is answered: the first edit without a place by what is wrong
/// with it, and edits that all have one by their overlap.
pub proof fn law_refused_batch_says_why(s: Seq<char>, edits: Seq<Edit>)
    requires
        edited(s, edits) is Err,
    ensures
        (forall|k: int| 0 <= k < edits.len() ==> chars_in(s, (#[trigger] edits[k]).range) is Ok)
            ==> edited(s, edits) == Err::<Seq<char>, Seq<char>>(
            "LSP edit batch contains overlapping ranges"@,
        ),
        forall|k: int|
            0 <= k < edits.len() && (#[trigger] chars_in(s, edits[k].range)) is Err && (forall|m: int|
                0 <= m < k ==> chars_in(s, (#[trigger] edits[m]).range) is Ok) ==> edited(s, edits)
                == Err::<Seq<char>, Seq<char>>(chars_in(s, edits[k].range)->Err_0),
{
    lemma_splices(s, edits);
    if forall|k: int| 0 <= k < edits.len() ==> chars_in(s, (#[trigger] edits[k]).range) is Ok {
        assert forall|k: int| 0 <= k < edits.len() implies has_place(s, #[trigger] edits[k]) by {
            assert(chars_in(s, edits[k].range) is Ok);
        }
    }
    assert forall|k: int|
        0 <= k < edits.len() && (#[trigger] chars_in(s, edits[k].range)) is Err && (forall|m: int|
            0 <= m < k ==> chars_in(s, (#[trigger] edits[m]).range) is Ok) implies edited(s, edits)
        == Err::<Seq<char>, Seq<char>>(chars_in(s, edits[k].range)->Err_0) by {
        let front = edits.take(k);
        lemma_splices(s, front);
        assert forall|m: int| 0 <= m < front.len() implies has_place(s, #[trigger] front[m]) by {
            assert(front[m] == edits[m]);
            assert(chars_in(s, edits[m].range) is Ok);
        }
        assert(edits.take(k + 1).drop_last() =~= front);
        lemma_splices_fail(s, edits, k + 1);
    }
}

} // verus!
