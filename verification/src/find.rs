//! Finding one text in another, as it stands or with letter case folded, and
//! the byte offsets of what was found.
use vstd::prelude::*;

use crate::text::{
    byte_offset, lemma_utf8_len_add, lemma_utf8_len_bounds, lemma_utf8_len_push,
    lemma_utf8_len_take, utf8_len, width_of,
};

verus! {

/// How many scalar values are folded between two cancellation checks.
pub const CANCELLATION_CHECK_INTERVAL: usize = 1_024;

/// Whether `needle` stands in `text` at index `at`.
pub open spec fn occurs(text: Seq<char>, needle: Seq<char>, at: int) -> bool {
    &&& 0 <= at
    &&& at + needle.len() <= text.len()
    &&& text.subrange(at, at + needle.len()) == needle
}

/// The first index from `from` on at which `needle` stands in `text`.
pub open spec fn next_occurrence(text: Seq<char>, needle: Seq<char>, from: int) -> Option<int>
    decreases text.len() - from,
{
    if from < 0 || from + needle.len() > text.len() {
        None
    } else if occurs(text, needle, from) {
        Some(from)
    } else if from == text.len() {
        None
    } else {
        next_occurrence(text, needle, from + 1)
    }
}

/// The last index up to `upto` at which `needle` stands in `text`.
pub open spec fn last_occurrence(text: Seq<char>, needle: Seq<char>, upto: int) -> Option<int>
    decreases upto + 1,
{
    if upto < 0 {
        None
    } else if occurs(text, needle, upto) {
        Some(upto)
    } else {
        last_occurrence(text, needle, upto - 1)
    }
}

/// The next occurrence is an occurrence, and none comes earlier.
pub proof fn lemma_next_occurrence(text: Seq<char>, needle: Seq<char>, from: int)
    requires
        0 <= from,
    ensures
        match next_occurrence(text, needle, from) {
            Some(at) => from <= at && occurs(text, needle, at) && forall|k: int|
                from <= k < at ==> !occurs(text, needle, k),
            None => forall|k: int| from <= k ==> !occurs(text, needle, k),
        },
    decreases text.len() - from,
{
    if from + needle.len() <= text.len() && !occurs(text, needle, from) && from < text.len() {
        lemma_next_occurrence(text, needle, from + 1);
    }
}

/// Whether `needle` stands at `at`.
fn stands_at(text: &[char], needle: &[char], at: usize) -> (yes: bool)
    requires
        at + needle@.len() <= text@.len(),
    ensures
        yes == occurs(text@, needle@, at as int),
{
    let mut i: usize = 0;
    let size: usize = text.len();
    while i < needle.len()
        invariant
            i <= needle@.len(),
            size == text@.len(),
            at + needle@.len() <= text@.len(),
            forall|k: int| 0 <= k < i ==> #[trigger] needle@[k] == text@[at + k],
        decreases needle@.len() - i,
    {
        if text[at + i] != needle[i] {
            assert(text@.subrange(at as int, at + needle@.len())[i as int] != needle@[i as int]);
            return false;
        }
        i += 1;
    }
    assert(text@.subrange(at as int, at + needle@.len()) =~= needle@);
    true
}

/// Computes [`next_occurrence`].
pub fn find_chars(text: &[char], needle: &[char], from: usize) -> (at: Option<usize>)
    requires
        from <= text@.len(),
    ensures
        match (at, next_occurrence(text@, needle@, from as int)) {
            (Some(a), Some(b)) => a == b,
            (None, None) => true,
            _ => false,
        },
{
    if needle.len() > text.len() {
        return None;
    }
    let last: usize = text.len() - needle.len();
    let mut i: usize = from;
    while i <= last
        invariant
            from <= i <= text@.len(),
            last + needle@.len() == text@.len(),
            next_occurrence(text@, needle@, i as int) == next_occurrence(
                text@,
                needle@,
                from as int,
            ),
        decreases text@.len() + 1 - i,
    {
        if stands_at(text, needle, i) {
            return Some(i);
        }
        if i == text.len() {
            return None;
        }
        i += 1;
    }
    None
}

/// Computes [`last_occurrence`] in a prefix of a text.
pub fn find_chars_before(text: &[char], needle: &[char], end: usize) -> (at: Option<usize>)
    requires
        end <= text@.len(),
    ensures
        match (
            at,
            last_occurrence(text@.take(end as int), needle@, end - needle@.len()),
        ) {
            (Some(a), Some(b)) => a == b,
            (None, None) => true,
            _ => false,
        },
{
    if needle.len() > end {
        return None;
    }
    let ghost part = text@.take(end as int);
    let mut i: usize = end - needle.len();
    loop
        invariant
            end <= text@.len(),
            part == text@.take(end as int),
            i + needle@.len() <= end,
            last_occurrence(part, needle@, i as int) == last_occurrence(
                part,
                needle@,
                end - needle@.len(),
            ),
        decreases i,
    {
        assert(part.subrange(i as int, i + needle@.len()) =~= text@.subrange(
            i as int,
            i + needle@.len(),
        ));
        if stands_at(text, needle, i) {
            return Some(i);
        }
        if i == 0 {
            assert(last_occurrence(part, needle@, -1) is None);
            return None;
        }
        i -= 1;
    }
}

/// What `char::to_lowercase` yields.
pub uninterp spec fn lowercase(c: char) -> Seq<char>;

/// What `char::to_uppercase` yields.
pub uninterp spec fn uppercase(c: char) -> Seq<char>;

/// `char::to_lowercase`: the lowercase mapping, one or more scalar values.
#[verifier::external_body]
pub(crate) fn lowercase_of(c: char) -> (folded: Vec<char>)
    ensures
        folded@ == lowercase(c),
        folded@.len() >= 1,
{
    c.to_lowercase().collect()
}

/// `char::to_uppercase`: the uppercase mapping, one or more scalar values.
#[verifier::external_body]
pub(crate) fn uppercase_of(c: char) -> (folded: Vec<char>)
    ensures
        folded@ == uppercase(c),
        folded@.len() >= 1,
{
    c.to_uppercase().collect()
}

/// How letter case is folded.
#[derive(Clone, Copy, Debug, PartialEq, Eq, Structural)]
pub enum Folding {
    /// The lowercase mapping.
    Lower,
    /// The lowercase mapping of the uppercase mapping.
    Full,
}

/// Lowercase mappings one after the other.
pub open spec fn lowercase_all(text: Seq<char>) -> Seq<char>
    decreases text.len(),
{
    if text.len() == 0 {
        Seq::empty()
    } else {
        lowercase_all(text.drop_last()) + lowercase(text.last())
    }
}

/// A folded scalar value.
pub open spec fn fold_char(folding: Folding, c: char) -> Seq<char> {
    match folding {
        Folding::Lower => lowercase(c),
        Folding::Full => lowercase_all(uppercase(c)),
    }
}

/// A folded text.
pub open spec fn folded(folding: Folding, text: Seq<char>) -> Seq<char>
    decreases text.len(),
{
    if text.len() == 0 {
        Seq::empty()
    } else {
        folded(folding, text.drop_last()) + fold_char(folding, text.last())
    }
}

/// For each part of a folded text, the index of what it was folded from.
pub open spec fn owners(folding: Folding, text: Seq<char>) -> Seq<int>
    decreases text.len(),
{
    if text.len() == 0 {
        Seq::empty()
    } else {
        owners(folding, text.drop_last()) + Seq::new(
            fold_char(folding, text.last()).len(),
            |i: int| text.len() - 1,
        )
    }
}

/// Each part of a folded text stems from the text, in order.
pub proof fn lemma_owners(folding: Folding, text: Seq<char>)
    ensures
        owners(folding, text).len() == folded(folding, text).len(),
        forall|i: int|
            0 <= i < owners(folding, text).len() ==> 0 <= #[trigger] owners(folding, text)[i]
                < text.len(),
        forall|i: int, j: int|
            0 <= i <= j < owners(folding, text).len() ==> #[trigger] owners(folding, text)[i]
                <= #[trigger] owners(folding, text)[j],
    decreases text.len(),
{
    if text.len() > 0 {
        lemma_owners(folding, text.drop_last());
    }
}

/// Folding goes scalar value by scalar value.
pub proof fn lemma_folded_add(folding: Folding, a: Seq<char>, b: Seq<char>)
    ensures
        folded(folding, a + b) == folded(folding, a) + folded(folding, b),
    decreases b.len(),
{
    if b.len() == 0 {
        assert(a + b =~= a);
        assert(folded(folding, a) + folded(folding, b) =~= folded(folding, a));
    } else {
        lemma_folded_add(folding, a, b.drop_last());
        assert((a + b).drop_last() =~= a + b.drop_last());
        assert(folded(folding, a + b) =~= folded(folding, a) + folded(folding, b));
    }
}

/// A part of a folded text stands where the fold of its owner does.
pub proof fn lemma_owner_range(folding: Folding, text: Seq<char>, i: int)
    requires
        0 <= i < owners(folding, text).len(),
    ensures
        ({
            let owner = owners(folding, text)[i];
            &&& 0 <= owner < text.len()
            &&& folded(folding, text.take(owner)).len() <= i < folded(
                folding,
                text.take(owner + 1),
            ).len()
        }),
    decreases text.len(),
{
    lemma_owners(folding, text);
    if text.len() > 0 {
        let front = text.drop_last();
        lemma_owners(folding, front);
        if i < owners(folding, front).len() {
            lemma_owner_range(folding, front, i);
            let owner = owners(folding, text)[i];
            assert(text.take(owner) =~= front.take(owner));
            assert(text.take(owner + 1) =~= front.take(owner + 1));
        } else {
            assert(text.take(text.len() - 1) =~= front);
            assert(text.take(text.len() as int) =~= text);
        }
    }
}

fn lowercase_every(text: &[char]) -> (out: Vec<char>)
    ensures
        out@ == lowercase_all(text@),
        text@.len() > 0 ==> out@.len() > 0,
{
    let mut out: Vec<char> = Vec::new();
    let mut i: usize = 0;
    assert(text@.take(0) =~= Seq::<char>::empty());
    while i < text.len()
        invariant
            i <= text@.len(),
            out@ == lowercase_all(text@.take(i as int)),
            i > 0 ==> out@.len() > 0,
        decreases text@.len() - i,
    {
        proof {
            assert(text@.take(i + 1).drop_last() =~= text@.take(i as int));
            assert(text@.take(i + 1).last() == text@[i as int]);
        }
        let mut one = lowercase_of(text[i]);
        out.append(&mut one);
        i += 1;
    }
    assert(text@.take(i as int) =~= text@);
    out
}

/// Computes [`fold_char`].
pub fn fold_one(folding: Folding, c: char) -> (out: Vec<char>)
    ensures
        out@ == fold_char(folding, c),
        out@.len() > 0,
{
    match folding {
        Folding::Lower => lowercase_of(c),
        Folding::Full => {
            let upper = uppercase_of(c);
            lowercase_every(upper.as_slice())
        },
    }
}

/// Computes [`folded`].
pub fn fold_chars(folding: Folding, text: &[char]) -> (out: Vec<char>)
    ensures
        out@ == folded(folding, text@),
        text@.len() > 0 ==> out@.len() > 0,
{
    let mut out: Vec<char> = Vec::new();
    let mut i: usize = 0;
    assert(text@.take(0) =~= Seq::<char>::empty());
    while i < text.len()
        invariant
            i <= text@.len(),
            out@ == folded(folding, text@.take(i as int)),
            i > 0 ==> out@.len() > 0,
        decreases text@.len() - i,
    {
        proof {
            assert(text@.take(i + 1).drop_last() =~= text@.take(i as int));
            assert(text@.take(i + 1).last() == text@[i as int]);
        }
        let mut one = fold_one(folding, text[i]);
        out.append(&mut one);
        i += 1;
    }
    assert(text@.take(i as int) =~= text@);
    out
}

/// The numbers of a list.
pub open spec fn numbers(list: Seq<usize>) -> Seq<int> {
    list.map_values(|n: usize| n as int)
}

/// Whether a callback answers that work is to stop, whenever it is asked.
pub open spec fn always_stops<C: Fn() -> bool>(cancelled: C) -> bool {
    forall|answer: bool| #[trigger] cancelled.ensures((), answer) ==> answer
}

/// A folded text, with the owners of its parts.
pub struct FoldedText {
    pub text: Vec<char>,
    pub owners: Vec<usize>,
}

impl FoldedText {
    /// Whether this is the folded form of `text`.
    pub open spec fn folds(&self, folding: Folding, text: Seq<char>) -> bool {
        &&& self.text@ == folded(folding, text)
        &&& numbers(self.owners@) == owners(folding, text)
        &&& self.owners@.len() == self.text@.len()
    }

    /// Folds the part of a text from `from` on.
    pub fn new(folding: Folding, text: &[char], from: usize) -> (result: Self)
        requires
            from <= text@.len(),
        ensures
            result.folds(folding, text@.skip(from as int)),
    {
        let never = || -> (stop: bool)
            ensures
                !stop,
            { false };
        match FoldedText::new_cancellable(folding, text, from, &never) {
            Some(result) => result,
            None => FoldedText { text: Vec::new(), owners: Vec::new() },
        }
    }

    /// Folds the part of a text from `from` on, unless `cancelled` answers so.
    pub fn new_cancellable<C: Fn() -> bool>(
        folding: Folding,
        text: &[char],
        from: usize,
        cancelled: &C,
    ) -> (result: Option<Self>)
        requires
            from <= text@.len(),
            cancelled.requires(()),
        ensures
            match result {
                Some(fold) => fold.folds(folding, text@.skip(from as int)),
                None => cancelled.ensures((), true),
            },
            from == text@.len() ==> result is Some,
            from < text@.len() && always_stops(*cancelled) ==> result is None,
    {
        let ghost rest = text@.skip(from as int);
        let mut out: Vec<char> = Vec::new();
        let mut stems: Vec<usize> = Vec::new();
        let mut i: usize = from;
        proof {
            assert(rest.take(0) =~= Seq::<char>::empty());
            assert(numbers(stems@) =~= Seq::<int>::empty());
        }
        while i < text.len()
            invariant
                from <= i <= text@.len(),
                cancelled.requires(()),
                rest == text@.skip(from as int),
                i > from ==> !always_stops(*cancelled),
                out@ == folded(folding, rest.take(i - from)),
                numbers(stems@) == owners(folding, rest.take(i - from)),
            decreases text@.len() - i,
        {
            if (i - from) % CANCELLATION_CHECK_INTERVAL == 0 && cancelled() {
                return None;
            }
            let ghost k = i - from;
            proof {
                assert(rest.take(k + 1).drop_last() =~= rest.take(k));
                assert(rest.take(k + 1).last() == text@[i as int]);
            }
            let mut one = fold_one(folding, text[i]);
            let ghost before = stems@;
            let ghost count = one@.len();
            let mut j: usize = 0;
            while j < one.len()
                invariant
                    j <= one@.len(),
                    from <= i,
                    k == i - from,
                    stems@.len() == before.len() + j,
                    forall|n: int| 0 <= n < before.len() ==> #[trigger] stems@[n] == before[n],
                    forall|n: int|
                        before.len() <= n < stems@.len() ==> #[trigger] stems@[n] == k,
                decreases one@.len() - j,
            {
                stems.push(i - from);
                j += 1;
            }
            assert(numbers(stems@) =~= numbers(before) + Seq::new(count, |n: int| k));
            out.append(&mut one);
            assert(Seq::new(count, |n: int| k) =~= Seq::new(count, |n: int| (k + 1) - 1));
            i += 1;
        }
        proof {
            assert(rest.take(i - from) =~= rest);
            lemma_owners(folding, rest);
            assert(numbers(stems@).len() == stems@.len());
        }
        Some(FoldedText { text: out, owners: stems })
    }
}

/// Whether a byte offset falls between two scalar values of a text.
pub open spec fn on_boundary(text: Seq<char>, offset: int) -> bool {
    exists|k: int| 0 <= k <= text.len() && #[trigger] byte_offset(text, k) == offset
}

/// The index of the scalar value that starts at a byte offset.
pub open spec fn index_at(text: Seq<char>, offset: int) -> int {
    choose|k: int| 0 <= k <= text.len() && #[trigger] byte_offset(text, k) == offset
}

/// Later scalar values start later.
pub proof fn lemma_offsets_increase(text: Seq<char>, i: int, j: int)
    requires
        0 <= i < j <= text.len(),
    ensures
        byte_offset(text, i) < byte_offset(text, j),
        byte_offset(text, j) <= utf8_len(text),
{
    assert(text.take(j) =~= text.take(i) + text.subrange(i, j));
    lemma_utf8_len_add(text.take(i), text.subrange(i, j));
    lemma_utf8_len_bounds(text.subrange(i, j));
    lemma_utf8_len_take(text, j);
}

/// The index at the offset of an index is that index.
pub proof fn lemma_index_at(text: Seq<char>, k: int)
    requires
        0 <= k <= text.len(),
    ensures
        on_boundary(text, byte_offset(text, k) as int),
        index_at(text, byte_offset(text, k) as int) == k,
{
    let found = index_at(text, byte_offset(text, k) as int);
    assert(byte_offset(text, k) == byte_offset(text, k) as int);
    if found < k {
        lemma_offsets_increase(text, found, k);
    } else if found > k {
        lemma_offsets_increase(text, k, found);
    }
}

/// The whole text ends at its length.
pub proof fn lemma_offset_ends(text: Seq<char>)
    ensures
        byte_offset(text, 0) == 0,
        byte_offset(text, text.len() as int) == utf8_len(text),
{
    assert(text.take(0) =~= Seq::<char>::empty());
    assert(text.take(text.len() as int) =~= text);
}

/// Where each scalar value starts, and where the text ends.
pub fn byte_offsets(chars: &[char]) -> (offsets: Vec<usize>)
    requires
        utf8_len(chars@) <= usize::MAX,
    ensures
        offsets@.len() == chars@.len() + 1,
        forall|k: int|
            0 <= k <= chars@.len() ==> #[trigger] offsets@[k] == byte_offset(chars@, k),
{
    let mut offsets: Vec<usize> = Vec::new();
    let mut n: usize = 0;
    let mut i: usize = 0;
    proof {
        lemma_offset_ends(chars@);
    }
    offsets.push(0);
    while i < chars.len()
        invariant
            i <= chars@.len(),
            utf8_len(chars@) <= usize::MAX,
            n == byte_offset(chars@, i as int),
            offsets@.len() == i + 1,
            forall|k: int| 0 <= k <= i ==> #[trigger] offsets@[k] == byte_offset(chars@, k),
        decreases chars@.len() - i,
    {
        proof {
            assert(chars@.take(i + 1) =~= chars@.take(i as int).push(chars@[i as int]));
            lemma_utf8_len_push(chars@.take(i as int), chars@[i as int]);
            lemma_utf8_len_take(chars@, i + 1);
        }
        n = n + width_of(chars[i]);
        offsets.push(n);
        i += 1;
    }
    offsets
}

/// The index at a byte offset, or `None` where it falls inside a scalar value
/// or behind the end.
pub(crate) fn index_of_offset(offsets: &Vec<usize>, offset: usize, Ghost(text): Ghost<Seq<char>>) -> (index:
    Option<usize>)
    requires
        offsets@.len() == text.len() + 1,
        forall|k: int| 0 <= k <= text.len() ==> #[trigger] offsets@[k] == byte_offset(text, k),
    ensures
        match index {
            Some(k) => k <= text.len() && offset == byte_offset(text, k as int) && k == index_at(
                text,
                offset as int,
            ),
            None => !on_boundary(text, offset as int),
        },
{
    let mut low: usize = 0;
    let mut high: usize = offsets.len() - 1;
    while low < high
        invariant
            low <= high < offsets@.len() == text.len() + 1,
            forall|k: int| 0 <= k <= text.len() ==> #[trigger] offsets@[k] == byte_offset(text, k),
            forall|k: int| 0 <= k < low ==> #[trigger] offsets@[k] < offset,
            forall|k: int| high < k <= text.len() ==> #[trigger] offsets@[k] > offset,
        decreases high - low,
    {
        let middle: usize = low + (high - low) / 2;
        if offsets[middle] < offset {
            proof {
                assert forall|k: int| 0 <= k < middle + 1 implies #[trigger] offsets@[k] < offset by {
                    if k < middle {
                        lemma_offsets_increase(text, k, middle as int);
                    }
                }
            }
            low = middle + 1;
        } else {
            proof {
                assert forall|k: int| middle < k <= text.len() implies #[trigger] offsets@[k]
                    > offset by {
                    lemma_offsets_increase(text, middle as int, k);
                }
            }
            high = middle;
        }
    }
    if offsets[low] == offset {
        proof {
            assert(byte_offset(text, low as int) == offset);
            lemma_index_at(text, low as int);
        }
        Some(low)
    } else {
        proof {
            assert forall|k: int| 0 <= k <= text.len() implies #[trigger] byte_offset(text, k)
                != offset by {
                assert(offsets@[k] == byte_offset(text, k));
                assert(k == low || k < low || k > low);
            }
        }
        None
    }
}

} // verus!
