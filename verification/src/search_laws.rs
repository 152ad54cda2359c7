//! What a project search promises: where a match stands, what is shown of its
//! line, and which files are searched at all.
use vstd::prelude::*;
use vstd::utf8::*;

use crate::find::{
    folded, lemma_folded_add, lemma_index_at, lemma_next_occurrence, lemma_offsets_increase,
    lemma_owner_range, lemma_owners, next_occurrence, occurs, owners, Folding,
};
use crate::pattern::{matches_from, Rule};
use crate::pattern_laws::law_limit_only_cuts;
use crate::search::{
    after_read, after_text, binary, content_stop, control_count, described, file_spans,
    folded_matches, is_binary_control, lemma_line_begin, lemma_line_stop, line_begin, line_stop,
    newlines, next_read_limit, preview_of, preview_window, room_for, stem_span, wanted_of, Query,
    Reading, Scan, ScanStep, Wanted,
};
use crate::text::byte_offset;

verus! {

proof fn lemma_newlines(text: Seq<char>)
    ensures
        newlines(text) == text.filter(|c: char| c == '\n').len(),
    decreases text.len(),
{
    reveal(Seq::filter);
    if text.len() > 0 {
        lemma_newlines(text.drop_last());
    }
}

/// Counting line feeds adds up.
pub proof fn law_newlines_add_up(a: Seq<char>, b: Seq<char>)
    ensures
        newlines(a + b) == newlines(a) + newlines(b),
        newlines(seq!['\n']) == 1,
        forall|c: char| c != '\n' ==> newlines(#[trigger] seq![c]) == 0,
{
    lemma_newlines(a);
    lemma_newlines(b);
    lemma_newlines(a + b);
    Seq::filter_distributes_over_add(a, b, |c: char| c == '\n');
    assert forall|c: char| newlines(#[trigger] seq![c]) == if c == '\n' {
        1nat
    } else {
        0
    } by {
        assert(seq![c].drop_last() =~= Seq::<char>::empty());
        assert(newlines(seq![c].drop_last()) == 0);
    }
}

proof fn lemma_line_begin_behind_feed(text: Seq<char>)
    ensures
        0 <= line_begin(text) <= text.len(),
        line_begin(text) > 0 ==> text[line_begin(text) - 1] == '\n',
        forall|k: int| line_begin(text) <= k < text.len() ==> text[k] != '\n',
    decreases text.len(),
{
    lemma_line_begin(text);
    if text.len() > 0 && text.last() != '\n' {
        lemma_line_begin_behind_feed(text.drop_last());
    }
}

proof fn lemma_line_stop_at_feed(text: Seq<char>, from: int)
    requires
        0 <= from <= text.len(),
    ensures
        from <= line_stop(text, from) <= text.len(),
        line_stop(text, from) < text.len() ==> text[line_stop(text, from)] == '\n',
        forall|k: int| from <= k < line_stop(text, from) ==> text[k] != '\n',
    decreases text.len() - from,
{
    lemma_line_stop(text, from);
    if from < text.len() && text[from] != '\n' {
        lemma_line_stop_at_feed(text, from + 1);
    }
}

/// The part of a text between two indexes is reported under its own path and
/// byte offsets. Its line is the number of line feeds before it, and its column
/// the number of scalar values behind the last one of them. What is shown is
/// taken from the line around its start, without the line break.
pub proof fn law_match_is_located(
    path: Seq<u8>,
    text: Seq<char>,
    start: int,
    end: int,
    line_start: int,
    line_end: int,
)
    requires
        0 <= line_start <= start <= line_end <= text.len(),
        start <= end <= text.len(),
        line_start == 0 || text[line_start - 1] == '\n',
        line_end == text.len() || text[line_end] == '\n',
        forall|k: int| line_start <= k < line_end ==> #[trigger] text[k] != '\n',
    ensures
        ({
            let span = (
                encode_utf8(text.take(start)).len() as int,
                encode_utf8(text.take(end)).len() as int,
            );
            let found = described(path, text, span);
            let whole = text.subrange(line_start, line_end);
            let line = if whole.len() > 0 && whole.last() == '\r' {
                whole.drop_last()
            } else {
                whole
            };
            let shown = vstd::math::min(end - line_start, line.len() as int) - (start - line_start);
            &&& found.path == path
            &&& found.span == span
            &&& found.line == text.take(start).filter(|c: char| c == '\n').len()
            &&& found.char_column == start - line_start
            &&& found.preview == preview_of(
                line,
                start - line_start,
                vstd::math::max(shown, 1),
            )
        }),
{
    let span = (
        encode_utf8(text.take(start)).len() as int,
        encode_utf8(text.take(end)).len() as int,
    );
    assert(byte_offset(text, start) == span.0);
    assert(byte_offset(text, end) == span.1);
    lemma_index_at(text, start);
    lemma_index_at(text, end);
    lemma_newlines(text.take(start));
    let front = text.take(start);
    lemma_line_begin_behind_feed(front);
    lemma_line_stop_at_feed(text, start);
    let begin = line_begin(front);
    let stop = line_stop(text, start);
    if begin > line_start {
        let k = begin - 1;
        assert(front[k] == text[k]);
    }
    if begin < line_start {
        assert(front[line_start - 1] == text[line_start - 1]);
    }
    assert(begin == line_start);
    assert(stop == line_end);
    let whole = text.subrange(line_start, line_end);
    let content = content_stop(text, begin, stop);
    if whole.len() > 0 {
        assert(whole.last() == text[stop - 1]);
    }
    assert(text.subrange(begin, content) =~= if whole.len() > 0 && whole.last() == '\r' {
        whole.drop_last()
    } else {
        whole
    });
}

/// A line of at most 240 scalar values is shown whole. Of a longer one, 240
/// consecutive scalar values are shown, with an ellipsis where something is cut
/// off. They start 80 before the match, or later where the end of the match
/// would not be shown, and stop at the end of the line at the latest.
pub proof fn law_preview_is_a_window(line: Seq<char>, column: int, count: int)
    requires
        0 <= column <= line.len(),
        0 <= count,
    ensures
        line.len() <= 240 ==> preview_of(line, column, count) == line,
        line.len() > 240 ==> {
            let behind = vstd::math::min(column + count, line.len() as int);
            let from = vstd::math::min(
                vstd::math::max(vstd::math::max(column - 80, 0), behind - 240),
                line.len() - 240,
            );
            let shown = preview_of(line, column, count);
            let left = Seq::new(
                if from > 0 {
                    1
                } else {
                    0
                },
                |i: int| '\u{2026}',
            );
            let right = Seq::new(
                if from + 240 < line.len() {
                    1
                } else {
                    0
                },
                |i: int| '\u{2026}',
            );
            shown == left + line.subrange(from, from + 240) + right
        },
{
    if line.len() > 240 {
        let behind = vstd::math::min(column + count, line.len() as int);
        let from = vstd::math::min(
            vstd::math::max(vstd::math::max(column - 80, 0), behind - 240),
            line.len() - 240,
        );
        assert(preview_window(line.len() as int, column, count) == (from, from + 240));
        assert(preview_of(line, column, count) =~= Seq::new(
            if from > 0 {
                1
            } else {
                0
            },
            |i: int| '\u{2026}',
        ) + line.subrange(from, from + 240) + Seq::new(
            if from + 240 < line.len() {
                1
            } else {
                0
            },
            |i: int| '\u{2026}',
        ));
    }
}

/// Whether a byte stands for a control character other than a tab, a line feed
/// or a carriage return.
spec fn control(byte: u8) -> bool {
    (byte < 32 && byte != 9 && byte != 10 && byte != 13) || byte == 127
}

proof fn lemma_control_count(bytes: Seq<u8>)
    ensures
        control_count(bytes) == bytes.filter(|byte: u8| control(byte)).len(),
    decreases bytes.len(),
{
    reveal(Seq::filter);
    if bytes.len() > 0 {
        lemma_control_count(bytes.drop_last());
        assert(is_binary_control(bytes.last()) == control(bytes.last()));
    }
}

/// Bytes look like binary data if and only if one is zero, or more than one in a
/// hundred is a control character other than a tab, a line feed or a carriage
/// return.
pub proof fn law_binary_data_is_told_by_its_bytes(bytes: Seq<u8>)
    ensures
        binary(bytes) <==> bytes.contains(0u8) || 100 * bytes.filter(
            |byte: u8| (byte < 32 && byte != 9 && byte != 10 && byte != 13) || byte == 127,
        ).len() > bytes.len(),
{
    lemma_control_count(bytes);
    assert((|byte: u8| (byte < 32 && byte != 9 && byte != 10 && byte != 13) || byte == 127) =~= (
    |byte: u8| control(byte)));
}

/// Text is never taken for binary data: tabs, line breaks, printable ASCII and
/// whatever is encoded in more than one byte do not count against it.
pub proof fn law_text_is_not_binary(bytes: Seq<u8>)
    requires
        forall|i: int|
            0 <= i < bytes.len() ==> {
                let byte = #[trigger] bytes[i];
                byte == 9 || byte == 10 || byte == 13 || 32 <= byte <= 126 || 128 <= byte
            },
    ensures
        !binary(bytes),
{
    lemma_no_controls(bytes);
}

proof fn lemma_no_controls(bytes: Seq<u8>)
    requires
        forall|i: int| 0 <= i < bytes.len() ==> !is_binary_control(#[trigger] bytes[i]),
    ensures
        control_count(bytes) == 0,
    decreases bytes.len(),
{
    if bytes.len() > 0 {
        let front = bytes.drop_last();
        assert forall|i: int| 0 <= i < front.len() implies !is_binary_control(
            #[trigger] front[i],
        ) by {
            assert(front[i] == bytes[i]);
        }
        lemma_no_controls(front);
        let last = bytes.len() - 1;
        assert(!is_binary_control(bytes[last]));
    }
}

/// A limit only cuts: fewer matches without regard to case are the first ones of
/// more.
pub proof fn law_folded_limit_only_cuts(
    text: Seq<char>,
    needle: Seq<char>,
    at: int,
    previous: Option<(int, int)>,
    few: nat,
    more: nat,
)
    requires
        few <= more,
    ensures
        folded_matches(text, needle, at, previous, more).len() <= more,
        folded_matches(text, needle, at, previous, few) == folded_matches(
            text,
            needle,
            at,
            previous,
            more,
        ).take(
            vstd::math::min(
                few as int,
                folded_matches(text, needle, at, previous, more).len() as int,
            ),
        ),
    decreases folded(Folding::Full, text).len() - at,
{
    let fold = folded(Folding::Full, text);
    let all = folded_matches(text, needle, at, previous, more);
    let cut = vstd::math::min(few as int, all.len() as int);
    if more == 0 || needle.len() == 0 || at < 0 {
        assert(all.take(cut) =~= Seq::<(int, int)>::empty());
    } else {
        match next_occurrence(fold, needle, at) {
            None => {
                assert(all.take(cut) =~= Seq::<(int, int)>::empty());
            },
            Some(found) => {
                if found < at || found + needle.len() > fold.len() {
                    assert(all.take(cut) =~= Seq::<(int, int)>::empty());
                } else {
                    let span = stem_span(text, found, needle.len() as int);
                    let end = found + needle.len();
                    if previous == Some(span) {
                        law_folded_limit_only_cuts(text, needle, end, previous, few, more);
                        if few == 0 {
                            assert(all.take(cut) =~= Seq::<(int, int)>::empty());
                        }
                    } else {
                        let rest = folded_matches(
                            text,
                            needle,
                            end,
                            Some(span),
                            (more - 1) as nat,
                        );
                        if few == 0 {
                            law_folded_limit_only_cuts(
                                text,
                                needle,
                                end,
                                Some(span),
                                0,
                                (more - 1) as nat,
                            );
                            assert(all.take(cut) =~= Seq::<(int, int)>::empty());
                        } else {
                            law_folded_limit_only_cuts(
                                text,
                                needle,
                                end,
                                Some(span),
                                (few - 1) as nat,
                                (more - 1) as nat,
                            );
                            assert(all.take(cut) =~= seq![span] + rest.take(cut - 1));
                        }
                    }
                }
            },
        }
    }
}

/// Whether a part of a text, told by its byte offsets, is the smallest one whose
/// fold covers a part of the folded text.
spec fn covered_by(
    text: Seq<char>,
    span: (int, int),
    from: int,
    to: int,
    start: int,
    end: int,
) -> bool {
    &&& 0 <= start < end <= text.len()
    &&& span.0 == byte_offset(text, start)
    &&& span.1 == byte_offset(text, end)
    &&& folded(Folding::Full, text.take(start)).len() <= from < folded(
        Folding::Full,
        text.take(start + 1),
    ).len()
    &&& folded(Folding::Full, text.take(end - 1)).len() < to <= folded(
        Folding::Full,
        text.take(end),
    ).len()
}

proof fn lemma_stem_covers(text: Seq<char>, at: int, count: int)
    requires
        0 <= at,
        0 < count,
        at + count <= folded(Folding::Full, text).len(),
    ensures
        covered_by(
            text,
            stem_span(text, at, count),
            at,
            at + count,
            owners(Folding::Full, text)[at],
            owners(Folding::Full, text)[at + count - 1] + 1,
        ),
{
    lemma_owners(Folding::Full, text);
    lemma_owner_range(Folding::Full, text, at);
    lemma_owner_range(Folding::Full, text, at + count - 1);
}

spec fn holds_needle(
    text: Seq<char>,
    needle: Seq<char>,
    span: (int, int),
    at: int,
    k: int,
    start: int,
    end: int,
) -> bool {
    &&& at <= k
    &&& occurs(folded(Folding::Full, text), needle, k)
    &&& covered_by(text, span, k, k + needle.len(), start, end)
}

proof fn lemma_holds_needle(
    text: Seq<char>,
    needle: Seq<char>,
    at: int,
    previous: Option<(int, int)>,
    limit: nat,
    i: int,
) -> (place: (int, int, int))
    requires
        0 <= i < folded_matches(text, needle, at, previous, limit).len(),
    ensures
        holds_needle(
            text,
            needle,
            folded_matches(text, needle, at, previous, limit)[i],
            at,
            place.0,
            place.1,
            place.2,
        ),
    decreases folded(Folding::Full, text).len() - at,
{
    let fold = folded(Folding::Full, text);
    let all = folded_matches(text, needle, at, previous, limit);
    lemma_next_occurrence(fold, needle, at);
    let found = next_occurrence(fold, needle, at)->0;
    let span = stem_span(text, found, needle.len() as int);
    let end = found + needle.len();
    if previous == Some(span) {
        lemma_holds_needle(text, needle, end, previous, limit, i)
    } else if i == 0 {
        lemma_stem_covers(text, found, needle.len() as int);
        (
            found,
            owners(Folding::Full, text)[found],
            owners(Folding::Full, text)[found + needle.len() - 1] + 1,
        )
    } else {
        lemma_holds_needle(text, needle, end, Some(span), (limit - 1) as nat, i - 1)
    }
}

/// Each match without regard to case encloses an occurrence of the folded needle
/// in the folded text, and nothing that the occurrence does not stem from.
pub proof fn law_folded_matches_hold_the_needle(
    text: Seq<char>,
    needle: Seq<char>,
    limit: nat,
    i: int,
) -> (place: (int, int, int))
    requires
        0 <= i < folded_matches(text, needle, 0, None, limit).len(),
    ensures
        ({
            let span = folded_matches(text, needle, 0, None, limit)[i];
            let fold = folded(Folding::Full, text);
            let (k, start, end) = place;
            &&& 0 <= k && k + needle.len() <= fold.len()
            &&& fold.subrange(k, k + needle.len()) == needle
            &&& 0 <= start < end <= text.len()
            &&& span.0 == encode_utf8(text.take(start)).len()
            &&& span.1 == encode_utf8(text.take(end)).len()
            &&& folded(Folding::Full, text.take(start)).len() <= k < folded(
                Folding::Full,
                text.take(start + 1),
            ).len()
            &&& folded(Folding::Full, text.take(end - 1)).len() < k + needle.len() <= folded(
                Folding::Full,
                text.take(end),
            ).len()
        }),
{
    lemma_holds_needle(text, needle, 0, None, limit, i)
}

proof fn lemma_fold_grows(text: Seq<char>, a: int, b: int)
    requires
        0 <= a <= b <= text.len(),
    ensures
        folded(Folding::Full, text.take(a)).len() <= folded(Folding::Full, text.take(b)).len(),
{
    assert(text.take(b) =~= text.take(a) + text.subrange(a, b));
    lemma_folded_add(Folding::Full, text.take(a), text.subrange(a, b));
}

proof fn lemma_folded_ordered(
    text: Seq<char>,
    needle: Seq<char>,
    at: int,
    previous: Option<(int, int)>,
    limit: nat,
)
    ensures
        ({
            let spans = folded_matches(text, needle, at, previous, limit);
            &&& spans.len() > 0 ==> previous != Some(spans[0])
            &&& forall|i: int, j: int|
                0 <= i < j < spans.len() ==> {
                    &&& (#[trigger] spans[i]).0 <= (#[trigger] spans[j]).0
                    &&& spans[i].1 <= spans[j].1
                    &&& j == i + 1 ==> spans[i] != spans[j]
                }
        }),
    decreases folded(Folding::Full, text).len() - at,
{
    let fold = folded(Folding::Full, text);
    let spans = folded_matches(text, needle, at, previous, limit);
    if spans.len() > 0 {
        lemma_next_occurrence(fold, needle, at);
        let found = next_occurrence(fold, needle, at)->0;
        let size = needle.len() as int;
        let span = stem_span(text, found, size);
        let end = found + needle.len();
        if previous == Some(span) {
            lemma_folded_ordered(text, needle, end, previous, limit);
        } else {
            let rest = folded_matches(text, needle, end, Some(span), (limit - 1) as nat);
            lemma_folded_ordered(text, needle, end, Some(span), (limit - 1) as nat);
            lemma_stem_covers(text, found, size);
            let a = owners(Folding::Full, text)[found];
            let b = owners(Folding::Full, text)[found + size - 1] + 1;
            assert(spans == seq![span] + rest);
            assert forall|i: int, j: int| 0 <= i < j < spans.len() implies {
                &&& (#[trigger] spans[i]).0 <= (#[trigger] spans[j]).0
                &&& spans[i].1 <= spans[j].1
                &&& j == i + 1 ==> spans[i] != spans[j]
            } by {
                assert(spans[j] == rest[j - 1]);
                if i > 0 {
                    assert(spans[i] == rest[i - 1]);
                } else {
                    let (k, c, d) = lemma_holds_needle(
                        text,
                        needle,
                        end,
                        Some(span),
                        (limit - 1) as nat,
                        j - 1,
                    );
                    if c < a {
                        lemma_fold_grows(text, c + 1, a);
                    }
                    if d < b {
                        lemma_fold_grows(text, d, b - 1);
                    }
                    if a < c {
                        lemma_offsets_increase(text, a, c);
                    }
                    if b < d {
                        lemma_offsets_increase(text, b, d);
                    }
                }
            }
        }
    }
}

/// Matches without regard to case come in the order of the text, and none is the
/// same as the one before it.
pub proof fn law_folded_matches_are_in_order(
    text: Seq<char>,
    needle: Seq<char>,
    limit: nat,
    i: int,
    j: int,
)
    requires
        0 <= i < j < folded_matches(text, needle, 0, None, limit).len(),
    ensures
        ({
            let spans = folded_matches(text, needle, 0, None, limit);
            &&& spans[i].0 <= spans[j].0
            &&& spans[i].1 <= spans[j].1
            &&& j == i + 1 ==> spans[i] != spans[j]
        }),
{
    lemma_folded_ordered(text, needle, 0, None, limit);
}

/// Whether a folded match is reported, or the one before it was the same part.
spec fn reported(spans: Seq<(int, int)>, previous: Option<(int, int)>, text: Seq<char>, from: int, to: int) -> bool {
    ||| previous matches Some(span) && overlaps(text, span, from, to)
    ||| exists|i: int| 0 <= i < spans.len() && overlaps(text, #[trigger] spans[i], from, to)
}

spec fn overlaps(text: Seq<char>, span: (int, int), from: int, to: int) -> bool {
    exists|start: int, end: int| #[trigger] stretch(text, span, start, end) && folded(
        Folding::Full,
        text.take(start),
    ).len() < to && from < folded(Folding::Full, text.take(end)).len()
}

spec fn stretch(text: Seq<char>, span: (int, int), start: int, end: int) -> bool {
    &&& 0 <= start < end <= text.len()
    &&& span.0 == byte_offset(text, start)
    &&& span.1 == byte_offset(text, end)
}

proof fn lemma_reported(
    text: Seq<char>,
    needle: Seq<char>,
    at: int,
    previous: Option<(int, int)>,
    limit: nat,
    k: int,
)
    requires
        needle.len() > 0,
        0 <= at <= k,
        occurs(folded(Folding::Full, text), needle, k),
        folded_matches(text, needle, at, previous, limit).len() < limit,
    ensures
        reported(
            folded_matches(text, needle, at, previous, limit),
            previous,
            text,
            k,
            k + needle.len(),
        ),
    decreases folded(Folding::Full, text).len() - at,
{
    let fold = folded(Folding::Full, text);
    let all = folded_matches(text, needle, at, previous, limit);
    let size = needle.len() as int;
    lemma_next_occurrence(fold, needle, at);
    let found = next_occurrence(fold, needle, at)->0;
    let span = stem_span(text, found, size);
    let end = found + needle.len();
    lemma_stem_covers(text, found, size);
    let a = owners(Folding::Full, text)[found];
    let b = owners(Folding::Full, text)[found + size - 1] + 1;
    assert(stretch(text, span, a, b));
    if k < end {
        assert(overlaps(text, span, k, k + size));
        if previous != Some(span) {
            assert(all[0] == span);
        }
    } else if previous == Some(span) {
        lemma_reported(text, needle, end, previous, limit, k);
    } else {
        let rest = folded_matches(text, needle, end, Some(span), (limit - 1) as nat);
        lemma_reported(text, needle, end, Some(span), (limit - 1) as nat, k);
        if overlaps(text, span, k, k + size) {
            assert(all[0] == span);
        } else {
            let i = choose|i: int|
                0 <= i < rest.len() && overlaps(text, #[trigger] rest[i], k, k + size);
            assert(all[i + 1] == rest[i]);
        }
    }
}

/// No occurrence without regard to case is passed over: each one overlaps the
/// fold of a reported match, unless the limit was reached.
pub proof fn law_no_folded_occurrence_is_passed_over(
    text: Seq<char>,
    needle: Seq<char>,
    limit: nat,
    k: int,
)
    requires
        needle.len() > 0,
        0 <= k && k + needle.len() <= folded(Folding::Full, text).len(),
        folded(Folding::Full, text).subrange(k, k + needle.len()) == needle,
        folded_matches(text, needle, 0, None, limit).len() < limit,
    ensures
        exists|i: int, start: int, end: int|
            #![trigger folded_matches(text, needle, 0, None, limit)[i], text.subrange(start, end)]
            {
                let span = folded_matches(text, needle, 0, None, limit)[i];
                &&& 0 <= i < folded_matches(text, needle, 0, None, limit).len()
                &&& 0 <= start < end <= text.len()
                &&& span.0 == encode_utf8(text.take(start)).len()
                &&& span.1 == encode_utf8(text.take(end)).len()
                &&& folded(Folding::Full, text.take(start)).len() < k + needle.len()
                &&& k < folded(Folding::Full, text.take(end)).len()
            },
{
    let size = needle.len() as int;
    let spans = folded_matches(text, needle, 0, None, limit);
    assert(occurs(folded(Folding::Full, text), needle, k));
    lemma_reported(text, needle, 0, None, limit, k);
    let i = choose|i: int|
        0 <= i < spans.len() && overlaps(text, #[trigger] spans[i], k, k + size);
    let (start, end) = choose|start: int, end: int| #[trigger]
        stretch(text, spans[i], start, end) && folded(Folding::Full, text.take(start)).len() < k
            + size && k < folded(Folding::Full, text.take(end)).len();
    assert(text.subrange(start, end) == text.subrange(start, end));
    assert(byte_offset(text, start) == encode_utf8(text.take(start)).len());
    assert(byte_offset(text, end) == encode_utf8(text.take(end)).len());
}

/// What a query looks for: a text that does not start like an expression is
/// looked for as it stands, or folded where case does not matter.
pub proof fn law_query_is_looked_for(query: Query)
    requires
        !(query.text.len() >= 3 && query.text[0] == 'r' && query.text[1] == 'e' && query.text[2]
            == ':'),
    ensures
        wanted_of(query) == Some(
            if query.case_sensitive {
                Wanted::Exact(Rule::Literal { text: query.text, case_sensitive: true })
            } else {
                Wanted::Folded(folded(Folding::Full, query.text))
            },
        ),
{
    reveal_strlit("re:");
    if crate::pattern::starts_with(query.text, "re:"@) {
        assert(query.text.subrange(0, 3)[0] == 'r');
        assert(query.text.subrange(0, 3)[1] == 'e');
        assert(query.text.subrange(0, 3)[2] == ':');
    }
}

/// A searched text adds its matches, each as it is reported, the first ones as
/// far as there is room in the file and in total. The result is partial where
/// there was a match more, and the search stops where there was no room at all.
pub proof fn law_text_adds_its_first_matches(
    scan: Scan,
    path: Seq<u8>,
    text: Seq<char>,
    many: nat,
)
    requires
        scan.matches.len() <= scan.total,
        scan.per_file < usize::MAX,
        scan.total < usize::MAX,
        many > scan.per_file && many > scan.total,
    ensures
        ({
            let (after, step) = after_text(scan, path, text);
            let spans = match scan.wanted {
                Wanted::Exact(rule) => matches_from(rule, text, 0, many),
                Wanted::Folded(needle) => folded_matches(text, needle, 0, None, many),
            };
            let kept = vstd::math::min(
                spans.len() as int,
                vstd::math::min(scan.per_file as int, scan.total - scan.matches.len()),
            );
            &&& after.matches.len() == scan.matches.len() + kept
            &&& forall|i: int|
                0 <= i < scan.matches.len() ==> after.matches[i] == #[trigger] scan.matches[i]
            &&& forall|i: int|
                0 <= i < kept ==> after.matches[scan.matches.len() + i] == described(
                    path,
                    text,
                    #[trigger] spans[i],
                )
            &&& after.truncated <==> scan.truncated || kept < spans.len()
            &&& step == if kept == 0 && spans.len() > 0 {
                ScanStep::Stop
            } else {
                ScanStep::Continue
            }
            &&& after.scanned_bytes == scan.scanned_bytes
        }),
{
    let room = room_for(scan);
    let probe = (room + 1) as nat;
    match scan.wanted {
        Wanted::Exact(rule) => {
            law_limit_only_cuts(rule, text, 0, probe, many);
        },
        Wanted::Folded(needle) => {
            law_folded_limit_only_cuts(text, needle, 0, None, probe, many);
        },
    }
    let spans = file_spans(scan.wanted, text, many);
    let few = file_spans(scan.wanted, text, probe);
    assert(few == spans.take(vstd::math::min(probe as int, spans.len() as int)));
}

/// Reading a file counts its bytes. Text is searched, and what is binary or not
/// UTF-8 makes the result partial. So does a file that is too large or cannot be
/// read. The search goes on unless the root was replaced, or what may still be
/// read was the reason.
pub proof fn law_read_file_is_searched_or_reported(
    scan: Scan,
    path: Seq<u8>,
    reading: Reading,
    root_intact: bool,
)
    ensures
        ({
            let (after, step) = after_read(scan, path, reading, root_intact);
            match reading {
                Reading::Bytes(bytes) => {
                    let read = Scan {
                        scanned_bytes: vstd::math::min(
                            scan.scanned_bytes + bytes.len(),
                            u64::MAX as int,
                        ) as u64,
                        ..scan
                    };
                    if !binary(bytes) && valid_utf8(bytes) {
                        (after, step) == after_text(read, path, decode_utf8(bytes))
                    } else {
                        after == Scan { truncated: true, ..read } && step == ScanStep::Continue
                    }
                },
                Reading::TooLarge => after == Scan { truncated: true, ..scan } && (step
                    == ScanStep::Continue <==> root_intact && scan.scanned_bytes
                    + scan.limits.file_bytes <= scan.limits.total_bytes || root_intact
                    && scan.limits.file_bytes == 0) && step != ScanStep::Cancelled,
                Reading::Failed => after == Scan { truncated: true, ..scan } && step
                    == if root_intact {
                    ScanStep::Continue
                } else {
                    ScanStep::Stop
                },
            }
        }),
{
}

/// The next file may have as many bytes as one file may have, and no more than
/// is left in total.
pub proof fn law_read_limit_respects_both_bounds(scan: Scan)
    ensures
        next_read_limit(scan) <= scan.limits.file_bytes,
        next_read_limit(scan) == scan.limits.file_bytes || scan.scanned_bytes + next_read_limit(
            scan,
        ) == scan.limits.total_bytes || (next_read_limit(scan) == 0 && scan.scanned_bytes
            >= scan.limits.total_bytes),
        scan.scanned_bytes <= scan.limits.total_bytes ==> scan.scanned_bytes + next_read_limit(scan)
            <= scan.limits.total_bytes,
        scan.scanned_bytes > scan.limits.total_bytes ==> next_read_limit(scan) == 0,
{
}

} // verus!
