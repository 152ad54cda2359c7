//! Ranges and edits of one document against an immutable text.
use ropey::Rope;
use vstd::prelude::*;

use crate::lsp::{
    char_at, lemma_char_at_inside, position_from, CharOffset, DocumentSnapshot, DocumentVersion, LspPosition,
    PositionError,
};
use crate::lsp_types::LspRange;
use crate::text::copy_text;

verus! {

#[verifier::external_type_specification]
#[verifier::external_body]
pub struct ExRope(Rope);

/// The text that a rope holds.
pub uninterp spec fn rope_text(rope: Rope) -> Seq<char>;

/// `Rope::from_str` holds the given text.
#[verifier::external_body]
fn rope_from(text: &str) -> (rope: Rope)
    ensures
        rope_text(rope) == text@,
{
    Rope::from_str(text)
}

/// `Rope::remove` takes the scalar values of a range out. It panics where the
/// range is inverted or ends behind the text.
#[verifier::external_body]
fn rope_remove(rope: &mut Rope, start: usize, end: usize)
    requires
        start <= end <= rope_text(*old(rope)).len(),
    ensures
        rope_text(*final(rope)) == rope_text(*old(rope)).take(start as int) + rope_text(
            *old(rope),
        ).skip(end as int),
{
    rope.remove(start..end);
}

/// `Rope::insert` puts a text before a scalar value. It panics where that is
/// behind the text.
#[verifier::external_body]
fn rope_insert(rope: &mut Rope, at: usize, text: &str)
    requires
        at <= rope_text(*old(rope)).len(),
    ensures
        rope_text(*final(rope)) == rope_text(*old(rope)).take(at as int) + text@ + rope_text(
            *old(rope),
        ).skip(at as int),
{
    rope.insert(at, text);
}

/// The `Display` of `Rope`, reached through `to_string`, gives the whole text.
#[verifier::external_body]
fn rope_string(rope: &Rope) -> (text: String)
    ensures
        text@ == rope_text(*rope),
{
    rope.to_string()
}

/// The replacement of a range by a text.
#[derive(Debug, PartialEq, Eq)]
pub struct TextEdit {
    pub range: LspRange,
    pub new_text: String,
}

/// The content of a [`TextEdit`].
pub struct Edit {
    pub range: LspRange,
    pub new_text: Seq<char>,
}

impl View for TextEdit {
    type V = Edit;

    open spec fn view(&self) -> Edit {
        Edit { range: self.range, new_text: self.new_text@ }
    }
}

impl Clone for TextEdit {
    fn clone(&self) -> (copy: Self)
        ensures
            copy@ == self@,
    {
        TextEdit { range: self.range, new_text: self.new_text.clone() }
    }
}

/// The scalar values of a range.
pub open spec fn chars_in(s: Seq<char>, range: LspRange) -> Result<(int, int), Seq<char>> {
    match char_at(s, range.start) {
        Err(error) => Err(error.words()),
        Ok(start) => match char_at(s, range.end) {
            Err(error) => Err(error.words()),
            Ok(end) => if start > end {
                Err("LSP edit range ends before it starts"@)
            } else {
                Ok((start, end))
            },
        },
    }
}

/// Whether a result is the described one.
pub open spec fn range_is(
    result: Result<std::ops::Range<usize>, String>,
    expected: Result<(int, int), Seq<char>>,
) -> bool {
    match (result, expected) {
        (Ok(range), Ok((start, end))) => range.start == start && range.end == end,
        (Err(reason), Err(words)) => reason@ == words,
        _ => false,
    }
}

/// The scalar values of a range in a snapshot.
fn range_in_snapshot(snapshot: &DocumentSnapshot, range: LspRange) -> (result: Result<
    std::ops::Range<usize>,
    String,
>)
    ensures
        range_is(result, chars_in(snapshot.content(), range)),
        result matches Ok(r) ==> r.start <= r.end && r.end <= snapshot.content().len(),
{
    let start = match snapshot.position_to_char(range.start) {
        Ok(offset) => offset.get(),
        Err(error) => {
            return Err(error.describe());
        },
    };
    let end = match snapshot.position_to_char(range.end) {
        Ok(offset) => offset.get(),
        Err(error) => {
            return Err(error.describe());
        },
    };
    if start > end {
        return Err(copy_text("LSP edit range ends before it starts"));
    }
    Ok(start..end)
}

/// The scalar values of a range in a text.
pub fn range_to_chars(text: &str, range: LspRange) -> (result: Result<
    std::ops::Range<usize>,
    String,
>)
    ensures
        range_is(result, chars_in(text@, range)),
{
    let snapshot = DocumentSnapshot::from_text(text, DocumentVersion::new(0));
    range_in_snapshot(&snapshot, range)
}

/// The position of a cursor in a snapshot.
pub fn cursor_position_in_snapshot(snapshot: &DocumentSnapshot, cursor: usize) -> (position: Result<
    LspPosition,
    String,
>)
    ensures
        match position {
            Ok(found) => cursor <= snapshot.content().len() && position_from(
                snapshot.content(),
                0,
                cursor as int,
                0,
                0,
            ) == (found.line.index as int, found.character.units as int),
            Err(reason) => cursor > snapshot.content().len() && reason@
                == PositionError::OffsetOutOfBounds.words(),
        },
{
    match snapshot.char_to_position(CharOffset::new(cursor)) {
        Ok(position) => Ok(position),
        Err(error) => Err(error.describe()),
    }
}

/// The position of a cursor in a text.
pub fn cursor_position(text: &str, cursor: usize) -> (position: Result<LspPosition, String>)
    ensures
        match position {
            Ok(found) => cursor <= text@.len() && position_from(text@, 0, cursor as int, 0, 0) == (
                found.line.index as int,
                found.character.units as int,
            ),
            Err(reason) => cursor > text@.len() && reason@
                == PositionError::OffsetOutOfBounds.words(),
        },
{
    let snapshot = DocumentSnapshot::from_text(text, DocumentVersion::new(0));
    cursor_position_in_snapshot(&snapshot, cursor)
}

/// An edit in scalar values: start, end, and what stands there instead.
pub struct Splice {
    pub start: int,
    pub end: int,
    pub text: Seq<char>,
}

/// The edits in scalar values, or why one of them has none.
pub open spec fn splices(s: Seq<char>, edits: Seq<Edit>) -> Result<Seq<Splice>, Seq<char>>
    decreases edits.len(),
{
    if edits.len() == 0 {
        Ok(Seq::empty())
    } else {
        match splices(s, edits.drop_last()) {
            Err(words) => Err(words),
            Ok(before) => match chars_in(s, edits.last().range) {
                Err(words) => Err(words),
                Ok((start, end)) => Ok(
                    before.push(Splice { start, end, text: edits.last().new_text }),
                ),
            },
        }
    }
}

/// Whether `a` comes strictly after `b`, by start and then by end.
pub open spec fn splice_after(a: Splice, b: Splice) -> bool {
    a.start > b.start || (a.start == b.start && a.end > b.end)
}

/// `sorted` with `splice` after everything that does not come after it.
pub open spec fn splice_inserted(sorted: Seq<Splice>, splice: Splice) -> Seq<Splice>
    decreases sorted.len(),
{
    if sorted.len() == 0 || !splice_after(sorted.last(), splice) {
        sorted.push(splice)
    } else {
        splice_inserted(sorted.drop_last(), splice).push(sorted.last())
    }
}

/// The splices by start and end; equal ones keep their order.
pub open spec fn splices_sorted(list: Seq<Splice>) -> Seq<Splice>
    decreases list.len(),
{
    if list.len() == 0 {
        list
    } else {
        splice_inserted(splices_sorted(list.drop_last()), list.last())
    }
}

/// Whether two neighbours overlap: the left one ends behind the start of the
/// right one, or is an insertion at that start.
pub open spec fn overlap(left: Splice, right: Splice) -> bool {
    left.end > right.start || (left.start == left.end && left.start == right.start)
}

/// Whether some neighbours overlap.
pub open spec fn overlapping(sorted: Seq<Splice>) -> bool {
    exists|i: int| 0 < i < sorted.len() && overlap(sorted[i - 1], #[trigger] sorted[i])
}

/// The text after all splices were applied, the last one first.
pub open spec fn spliced(s: Seq<char>, sorted: Seq<Splice>) -> Seq<char>
    decreases sorted.len(),
{
    if sorted.len() == 0 {
        s
    } else {
        let last = sorted.last();
        spliced(s.take(last.start) + last.text + s.skip(last.end), sorted.drop_last())
    }
}

/// The text after an edit batch, or why it is refused.
pub open spec fn edited(s: Seq<char>, edits: Seq<Edit>) -> Result<Seq<char>, Seq<char>> {
    match splices(s, edits) {
        Err(words) => Err(words),
        Ok(list) => if overlapping(splices_sorted(list)) {
            Err("LSP edit batch contains overlapping ranges"@)
        } else {
            Ok(spliced(s, splices_sorted(list)))
        },
    }
}

/// The contents of edits.
pub open spec fn edits_of(edits: Seq<TextEdit>) -> Seq<Edit> {
    edits.map_values(|edit: TextEdit| edit@)
}

/// An edit with its scalar values.
struct Converted {
    start: usize,
    end: usize,
    index: usize,
}

spec fn converted_splice(item: Converted, edits: Seq<TextEdit>) -> Splice {
    Splice {
        start: item.start as int,
        end: item.end as int,
        text: edits[item.index as int].new_text@,
    }
}

spec fn converted_splices(items: Seq<Converted>, edits: Seq<TextEdit>) -> Seq<Splice> {
    items.map_values(|item: Converted| converted_splice(item, edits))
}

spec fn in_text(items: Seq<Converted>, edits: Seq<TextEdit>, len: int) -> bool {
    forall|i: int|
        0 <= i < items.len() ==> (#[trigger] items[i]).start <= items[i].end && items[i].end <= len
            && items[i].index < edits.len()
}

/// Inserts into a sorted list.
fn insert_sorted(sorted: &mut Vec<Converted>, item: Converted, edits: &[TextEdit], len: Ghost<int>)
    requires
        in_text(old(sorted)@, edits@, len@),
        item.start <= item.end <= len@,
        item.index < edits@.len(),
    ensures
        in_text(final(sorted)@, edits@, len@),
        converted_splices(final(sorted)@, edits@) == splice_inserted(
            converted_splices(old(sorted)@, edits@),
            converted_splice(item, edits@),
        ),
{
    let ghost list = converted_splices(sorted@, edits@);
    let ghost splice = converted_splice(item, edits@);
    let mut i: usize = sorted.len();
    proof {
        assert(list.take(i as int) =~= list);
        assert(list.skip(i as int) =~= Seq::<Splice>::empty());
        assert(splice_inserted(list, splice) =~= splice_inserted(list.take(i as int), splice)
            + list.skip(i as int));
    }
    while i > 0 && (sorted[i - 1].start > item.start || (sorted[i - 1].start == item.start
        && sorted[i - 1].end > item.end))
        invariant
            i <= sorted@.len() == list.len(),
            list == converted_splices(sorted@, edits@),
            splice == converted_splice(item, edits@),
            splice_inserted(list, splice) == splice_inserted(list.take(i as int), splice)
                + list.skip(i as int),
        decreases i,
    {
        proof {
            assert(list.take(i as int).last() == list[i - 1]);
            assert(list.take(i as int).drop_last() =~= list.take(i - 1));
            let inner = splice_inserted(list.take(i - 1), splice);
            assert(inner.push(list[i - 1]) + list.skip(i as int) =~= inner + list.skip(i - 1));
        }
        i -= 1;
    }
    proof {
        if i > 0 {
            assert(list.take(i as int).last() == list[i - 1]);
        }
        assert(splice_inserted(list.take(i as int), splice) == list.take(i as int).push(splice));
    }
    let ghost before = sorted@;
    sorted.insert(i, item);
    proof {
        assert(converted_splices(sorted@, edits@) =~= list.take(i as int).push(splice) + list.skip(
            i as int,
        ));
        assert forall|k: int| 0 <= k < sorted@.len() implies (#[trigger] sorted@[k]).start
            <= sorted@[k].end && sorted@[k].end <= len@ && sorted@[k].index < edits@.len() by {
            if k < i {
                assert(sorted@[k] == before[k]);
            } else if k > i {
                assert(sorted@[k] == before[k - 1]);
            }
        }
    }
}

/// The first failure of a list is the failure of the whole list.
pub proof fn lemma_splices_fail(s: Seq<char>, edits: Seq<Edit>, i: int)
    requires
        0 <= i <= edits.len(),
        splices(s, edits.take(i)) is Err,
    ensures
        splices(s, edits) == splices(s, edits.take(i)),
    decreases edits.len() - i,
{
    if i == edits.len() {
        assert(edits.take(i) =~= edits);
    } else {
        assert(edits.take(i + 1).drop_last() =~= edits.take(i));
        lemma_splices_fail(s, edits, i + 1);
    }
}

/// Sorting goes on edit by edit.
proof fn lemma_sorted_step(list: Seq<Splice>, splice: Splice)
    ensures
        splices_sorted(list.push(splice)) == splice_inserted(splices_sorted(list), splice),
{
    assert(list.push(splice).drop_last() =~= list);
}

/// Whether each splice ends at or before the start of the next one, inside a
/// text of this length.
pub open spec fn in_order(sorted: Seq<Splice>, len: int) -> bool {
    forall|i: int|
        0 <= i < sorted.len() ==> 0 <= (#[trigger] sorted[i]).start <= sorted[i].end <= (if i + 1
            < sorted.len() {
            sorted[i + 1].start
        } else {
            len
        })
}

/// The text between and around splices, with their texts in their places.
pub open spec fn rewritten(s: Seq<char>, sorted: Seq<Splice>, from: int) -> Seq<char>
    decreases sorted.len(),
{
    if sorted.len() == 0 {
        s.skip(from)
    } else {
        s.subrange(from, sorted[0].start) + sorted[0].text + rewritten(
            s,
            sorted.drop_first(),
            sorted[0].end,
        )
    }
}

/// What comes after the last splice stands at the end unchanged.
proof fn lemma_rewritten_last(s: Seq<char>, sorted: Seq<Splice>, from: int)
    requires
        sorted.len() > 0,
        0 <= from <= sorted[0].start,
        in_order(sorted, s.len() as int),
    ensures
        ({
            let last = sorted.last();
            let edited_text = s.take(last.start) + last.text + s.skip(last.end);
            rewritten(edited_text, sorted.drop_last(), from) == rewritten(s, sorted, from)
        }),
    decreases sorted.len(),
{
    let last = sorted.last();
    let t = s.take(last.start) + last.text + s.skip(last.end);
    assert(in_order(sorted, s.len() as int));
    if sorted.len() == 1 {
        assert(sorted[0] == last);
        assert(sorted.drop_first() =~= Seq::<Splice>::empty());
        assert(sorted.drop_last() =~= Seq::<Splice>::empty());
        assert(0 <= sorted[0].start <= sorted[0].end <= s.len());
        assert(rewritten(s, sorted.drop_first(), last.end) == s.skip(last.end));
        assert(t.skip(from) =~= s.subrange(from, last.start) + last.text + s.skip(last.end));
    } else {
        let rest = sorted.drop_first();
        assert forall|i: int| 0 <= i < rest.len() implies 0 <= (#[trigger] rest[i]).start
            <= rest[i].end <= (if i + 1 < rest.len() {
            rest[i + 1].start
        } else {
            s.len() as int
        }) by {
            assert(rest[i] == sorted[i + 1]);
        }
        assert(sorted[0].end <= sorted[1].start);
        assert(rest[0] == sorted[1]);
        lemma_rewritten_last(s, rest, sorted[0].end);
        assert(rest.last() == last);
        assert(rest.drop_last() =~= sorted.drop_last().drop_first());
        lemma_in_order_start(sorted, s.len() as int, 0, sorted.len() - 1);
        assert(sorted[0].start <= last.start);
        assert(sorted[sorted.len() - 1].end <= s.len());
        assert(t.subrange(from, sorted[0].start) =~= s.subrange(from, sorted[0].start));
        assert(sorted.drop_last()[0] == sorted[0]);
    }
}

proof fn lemma_in_order_start(sorted: Seq<Splice>, len: int, i: int, j: int)
    requires
        in_order(sorted, len),
        0 <= i <= j < sorted.len(),
    ensures
        sorted[i].start <= sorted[j].start,
    decreases j - i,
{
    if i < j {
        assert(0 <= sorted[i].start <= sorted[i].end <= sorted[i + 1].start);
        lemma_in_order_start(sorted, len, i + 1, j);
    }
}

/// Applying splices from the end is replacing each range of the original text
/// in its place: earlier offsets stay valid.
pub proof fn law_edits_replace_in_place(s: Seq<char>, sorted: Seq<Splice>)
    requires
        in_order(sorted, s.len() as int),
    ensures
        spliced(s, sorted) == rewritten(s, sorted, 0),
    decreases sorted.len(),
{
    if sorted.len() == 0 {
        assert(s.skip(0) =~= s);
    } else {
        let last = sorted.last();
        let t = s.take(last.start) + last.text + s.skip(last.end);
        let rest = sorted.drop_last();
        assert(sorted[sorted.len() - 1].end <= s.len());
        assert(0 <= sorted[sorted.len() - 1].start <= sorted[sorted.len() - 1].end);
        assert forall|i: int| 0 <= i < rest.len() implies 0 <= (#[trigger] rest[i]).start
            <= rest[i].end <= (if i + 1 < rest.len() {
            rest[i + 1].start
        } else {
            t.len() as int
        }) by {
            assert(rest[i] == sorted[i]);
            if i + 1 == rest.len() {
                assert(sorted[i].end <= sorted[i + 1].start);
            }
        }
        law_edits_replace_in_place(t, rest);
        assert(0 <= sorted[0].start);
        lemma_rewritten_last(s, sorted, 0);
    }
}

/// Apply an LSP edit batch to one immutable source version. Edits are checked
/// for overlap and then applied from the end, preserving all earlier offsets.
pub fn apply_text_edits(text: &str, edits: &[TextEdit]) -> (result: Result<String, String>)
    ensures
        match (result, edited(text@, edits_of(edits@))) {
            (Ok(found), Ok(expected)) => found@ == expected,
            (Err(reason), Err(words)) => reason@ == words,
            _ => false,
        },
{
    let snapshot = DocumentSnapshot::from_text(text, DocumentVersion::new(0));
    let ghost s = text@;
    let ghost all = edits_of(edits@);
    let ghost mut list: Seq<Splice> = Seq::empty();
    let mut sorted: Vec<Converted> = Vec::new();
    let mut i: usize = 0;
    proof {
        assert(all.take(0) =~= Seq::<Edit>::empty());
        assert(converted_splices(sorted@, edits@) =~= Seq::<Splice>::empty());
    }
    while i < edits.len()
        invariant
            i <= edits@.len() == all.len(),
            all == edits_of(edits@),
            s == text@,
            snapshot.content() == s,
            splices(s, all.take(i as int)) == Ok::<Seq<Splice>, Seq<char>>(list),
            converted_splices(sorted@, edits@) == splices_sorted(list),
            in_text(sorted@, edits@, s.len() as int),
        decreases edits@.len() - i,
    {
        proof {
            assert(all.take(i + 1).drop_last() =~= all.take(i as int));
            assert(all.take(i + 1).last() == edits@[i as int]@);
        }
        let range = match range_in_snapshot(&snapshot, edits[i].range) {
            Ok(range) => range,
            Err(reason) => {
                proof {
                    lemma_splices_fail(s, all, i + 1);
                }
                return Err(reason);
            },
        };
        let item = Converted { start: range.start, end: range.end, index: i };
        let ghost splice = converted_splice(item, edits@);
        insert_sorted(&mut sorted, item, edits, Ghost(s.len() as int));
        proof {
            lemma_sorted_step(list, splice);
            list = list.push(splice);
        }
        i += 1;
    }
    let ghost order = splices_sorted(list);
    assert(all.take(i as int) =~= all);
    let mut k: usize = 1;
    while k < sorted.len()
        invariant
            1 <= k,
            sorted@.len() > 0 ==> k <= sorted@.len(),
            order == converted_splices(sorted@, edits@),
            edited(s, all) == (if overlapping(order) {
                Err::<Seq<char>, Seq<char>>("LSP edit batch contains overlapping ranges"@)
            } else {
                Ok(spliced(s, order))
            }),
            all == edits_of(edits@),
            s == text@,
            forall|m: int| 0 < m < k ==> !overlap(order[m - 1], #[trigger] order[m]),
        decreases sorted@.len() - k,
    {
        let left_start = sorted[k - 1].start;
        let left_end = sorted[k - 1].end;
        let right_start = sorted[k].start;
        if left_end > right_start || (left_start == left_end && left_start == right_start) {
            assert(overlap(order[k - 1], order[k as int]));
            return Err(copy_text("LSP edit batch contains overlapping ranges"));
        }
        k += 1;
    }
    assert(!overlapping(order));
    let mut rope = rope_from(text);
    let mut n: usize = sorted.len();
    assert(order.take(n as int) =~= order);
    proof {
        assert forall|m: int| 0 < m < sorted@.len() implies sorted@[m - 1].end <= (
        #[trigger] sorted@[m]).start by {
            assert(!overlap(order[m - 1], order[m]));
        }
    }
    while n > 0
        invariant
            n <= sorted@.len() == order.len(),
            order == converted_splices(sorted@, edits@),
            in_text(sorted@, edits@, s.len() as int),
            spliced(s, order) == spliced(rope_text(rope), order.take(n as int)),
            n > 0 ==> sorted@[n - 1].end <= rope_text(rope).len(),
            forall|m: int|
                0 < m < sorted@.len() ==> sorted@[m - 1].end <= (#[trigger] sorted@[m]).start,
        decreases n,
    {
        let item = &sorted[n - 1];
        let ghost before = rope_text(rope);
        let ghost splice = order[n - 1];
        proof {
            assert(order.take(n as int).last() == splice);
            assert(order.take(n as int).drop_last() =~= order.take(n - 1));
            assert(splice == converted_splice(*item, edits@));
            assert(sorted@[n - 1].start <= sorted@[n - 1].end);
        }
        rope_remove(&mut rope, item.start, item.end);
        rope_insert(&mut rope, item.start, edits[item.index].new_text.as_str());
        proof {
            let removed = before.take(splice.start) + before.skip(splice.end);
            assert(removed.take(splice.start) =~= before.take(splice.start));
            assert(removed.skip(splice.start) =~= before.skip(splice.end));
            assert(rope_text(rope) =~= before.take(splice.start) + splice.text + before.skip(
                splice.end,
            ));
            if n > 1 {
                assert(sorted@[n - 2].end <= sorted@[n - 1].start);
            }
        }
        n -= 1;
    }
    assert(order.take(0) =~= Seq::<Splice>::empty());
    Ok(rope_string(&rope))
}

/// A splice stands inside a text of this length.
pub open spec fn inside(list: Seq<Splice>, len: int) -> bool {
    forall|i: int|
        0 <= i < list.len() ==> 0 <= (#[trigger] list[i]).start <= list[i].end <= len
}

pub proof fn lemma_splices_inside(s: Seq<char>, edits: Seq<Edit>)
    ensures
        match splices(s, edits) {
            Ok(list) => inside(list, s.len() as int),
            Err(_) => true,
        },
    decreases edits.len(),
{
    if edits.len() > 0 {
        lemma_splices_inside(s, edits.drop_last());
        lemma_char_at_inside(s, edits.last().range.start);
        lemma_char_at_inside(s, edits.last().range.end);
    }
}

proof fn lemma_inserted_inside(sorted: Seq<Splice>, splice: Splice, len: int)
    requires
        inside(sorted, len),
        0 <= splice.start <= splice.end <= len,
    ensures
        inside(splice_inserted(sorted, splice), len),
    decreases sorted.len(),
{
    if sorted.len() > 0 && splice_after(sorted.last(), splice) {
        assert forall|i: int| 0 <= i < sorted.drop_last().len() implies 0 <= (
        #[trigger] sorted.drop_last()[i]).start <= sorted.drop_last()[i].end <= len by {
            assert(sorted.drop_last()[i] == sorted[i]);
        }
        lemma_inserted_inside(sorted.drop_last(), splice, len);
        assert(sorted[sorted.len() - 1] == sorted.last());
    }
}

pub proof fn lemma_sorted_inside(list: Seq<Splice>, len: int)
    requires
        inside(list, len),
    ensures
        inside(splices_sorted(list), len),
    decreases list.len(),
{
    if list.len() > 0 {
        let rest = list.drop_last();
        assert forall|i: int| 0 <= i < rest.len() implies 0 <= (#[trigger] rest[i]).start
            <= rest[i].end <= len by {
            assert(rest[i] == list[i]);
        }
        lemma_sorted_inside(rest, len);
        assert(list[list.len() - 1] == list.last());
        lemma_inserted_inside(splices_sorted(rest), list.last(), len);
    }
}

/// An accepted edit batch replaces each range of the original text in its
/// place, whatever the order of the batch.
pub proof fn law_accepted_batch_replaces_in_place(s: Seq<char>, edits: Seq<Edit>)
    requires
        edited(s, edits) is Ok,
    ensures
        edited(s, edits) == Ok::<Seq<char>, Seq<char>>(
            rewritten(s, splices_sorted(splices(s, edits)->Ok_0), 0),
        ),
{
    let list = splices(s, edits)->Ok_0;
    let sorted = splices_sorted(list);
    lemma_splices_inside(s, edits);
    lemma_sorted_inside(list, s.len() as int);
    assert forall|i: int| 0 <= i < sorted.len() implies 0 <= (#[trigger] sorted[i]).start
        <= sorted[i].end <= (if i + 1 < sorted.len() {
        sorted[i + 1].start
    } else {
        s.len() as int
    }) by {
        if i + 1 < sorted.len() {
            let k = i + 1;
            assert(!overlap(sorted[k - 1], sorted[k]));
        }
    }
    law_edits_replace_in_place(s, sorted);
}

} // verus!
