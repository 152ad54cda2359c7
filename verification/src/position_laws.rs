//! What positions mean: lines are counted by their breaks, and columns by the
//! UTF-16 code units of the scalar values before them.
use vstd::prelude::*;

use crate::lsp::{
    break_len, char_at, column, inside_break, law_offset_round_trip, line_start, position_from,
    utf16_width, LspPosition, PositionError,
};

verus! {

/// Whether a line ends right before index `e`.
spec fn ends_line(s: Seq<char>, e: int) -> bool {
    0 < e <= s.len() && (s[e - 1] == '\n' || (s[e - 1] == '\r' && !(e < s.len() && s[e] == '\n')))
}

/// Where lines end, up to an index.
spec fn ends_until(s: Seq<char>, t: int) -> Set<int> {
    Set::new(|e: int| 0 < e <= t && ends_line(s, e))
}

spec fn astral(c: char) -> bool {
    c as u32 >= 0x10000
}

/// How many scalar values of a range take two code units.
spec fn astral_count(s: Seq<char>, a: int, b: int) -> nat {
    s.subrange(a, b).filter(|c: char| astral(c)).len()
}

/// Whether the line that starts at `from` holds an index.
spec fn in_line(s: Seq<char>, from: int, target: int) -> bool {
    &&& 0 <= from <= target
    &&& from == 0 || ends_line(s, from)
    &&& forall|e: int| from < e <= target ==> !ends_line(s, e)
}

proof fn lemma_ends_step(s: Seq<char>, t: int)
    requires
        0 <= t,
    ensures
        ends_until(s, t).finite(),
        ends_until(s, t + 1).finite(),
        ends_until(s, t + 1).len() == ends_until(s, t).len() + if ends_line(s, t + 1) {
            1int
        } else {
            0
        },
    decreases t,
{
    if t > 0 {
        lemma_ends_step(s, t - 1);
    } else {
        assert(ends_until(s, 0) =~= Set::empty());
    }
    if ends_line(s, t + 1) {
        assert(ends_until(s, t + 1) =~= ends_until(s, t).insert(t + 1));
    } else {
        assert(ends_until(s, t + 1) =~= ends_until(s, t));
    }
}

proof fn lemma_ends_grow(s: Seq<char>, a: int, b: int)
    requires
        0 <= a <= b,
    ensures
        ends_until(s, a).finite(),
        ends_until(s, a).len() <= ends_until(s, b).len(),
        (exists|e: int| a < e <= b && ends_line(s, e)) ==> ends_until(s, a).len() < ends_until(
            s,
            b,
        ).len(),
    decreases b - a,
{
    lemma_ends_step(s, a);
    if a < b {
        lemma_ends_grow(s, a, b - 1);
        lemma_ends_step(s, b - 1);
    }
}

proof fn lemma_astral_step(s: Seq<char>, a: int, b: int)
    requires
        0 <= a <= b < s.len(),
    ensures
        astral_count(s, a, a) == 0,
        astral_count(s, a, b + 1) == astral_count(s, a, b) + utf16_width(s[b]) - 1,
{
    reveal(Seq::filter);
    assert(s.subrange(a, b + 1).drop_last() =~= s.subrange(a, b));
    assert(s.subrange(a, b + 1).last() == s[b]);
}

/// Counting on from `i`, which stands in the line that starts at `start`.
proof fn lemma_counting(s: Seq<char>, start: int, i: int, target: int, line: int, units: int)
    requires
        0 <= start <= i <= target <= s.len(),
        !inside_break(s, i),
        !inside_break(s, target),
        in_line(s, start, i),
        line == ends_until(s, i).len(),
        units == i - start + astral_count(s, start, i),
    ensures
        ({
            let (l, u) = position_from(s, i, target, line, units);
            &&& l == ends_until(s, target).len()
            &&& exists|from: int| #[trigger]
                in_line(s, from, target) && u == target - from + astral_count(s, from, target)
        }),
    decreases target - i,
{
    if i == target {
        assert(in_line(s, start, target));
    } else {
        let n = break_len(s, i);
        lemma_ends_step(s, i);
        if n > 0 {
            let to = i + n;
            if n == 2 {
                assert(!ends_line(s, i + 1));
                lemma_ends_step(s, i + 1);
            }
            assert(ends_line(s, to));
            assert(to <= target);
            assert(s.subrange(to, to) =~= Seq::<char>::empty());
            reveal(Seq::filter);
            assert(astral_count(s, to, to) == 0);
            lemma_counting(s, to, to, target, line + 1, 0);
        } else {
            assert(!ends_line(s, i + 1));
            lemma_astral_step(s, start, i);
            lemma_counting(s, start, i + 1, target, line, units + utf16_width(s[i]));
        }
    }
}

/// A column is counted in UTF-16: the position of an index is the number of
/// line ends up to it, and as many units from the start of its line as there are
/// scalar values in between, those from U+10000 on counted twice. A line ends
/// behind a line feed, and behind a carriage return that no line feed follows.
pub proof fn law_position_counts_lines_and_units(s: Seq<char>, start: int, target: int)
    requires
        0 <= start <= target <= s.len(),
        !(0 < target < s.len() && s[target - 1] == '\r' && s[target] == '\n'),
        start > 0 ==> s[start - 1] == '\n' || (s[start - 1] == '\r' && !(start < s.len() && s[start]
            == '\n')),
        forall|k: int| start <= k < target ==> #[trigger] s[k] != '\n',
        forall|k: int| start <= k < target ==> #[trigger] s[k] != '\r',
    ensures
        position_from(s, 0, target, 0, 0) == (
            Set::new(
                |e: int|
                    0 < e <= target && (s[e - 1] == '\n' || (s[e - 1] == '\r' && !(e < s.len()
                        && s[e] == '\n'))),
            ).len() as int,
            (s.subrange(start, target) + s.subrange(start, target).filter(
                |c: char| c as u32 >= 0x10000,
            )).len() as int,
        ),
{
    assert(Set::new(
        |e: int|
            0 < e <= target && (s[e - 1] == '\n' || (s[e - 1] == '\r' && !(e < s.len() && s[e]
                == '\n'))),
    ) =~= ends_until(s, target));
    assert(ends_until(s, 0) =~= Set::empty());
    assert(s.subrange(0, 0) =~= Seq::<char>::empty());
    reveal(Seq::filter);
    assert(astral_count(s, 0, 0) == 0);
    lemma_counting(s, 0, 0, target, 0, 0);
    let (l, u) = position_from(s, 0, target, 0, 0);
    let from = choose|from: int| #[trigger]
        in_line(s, from, target) && u == target - from + astral_count(s, from, target);
    assert(start == 0 || ends_line(s, start));
    if from > start {
        let k = from - 1;
        assert(s[k] != '\n' && s[k] != '\r');
    }
    assert(from == start);
    assert((|c: char| c as u32 >= 0x10000) =~= (|c: char| astral(c)));
}

/// An index between the two halves of a line break counts as the one before.
pub proof fn law_position_inside_a_break(s: Seq<char>, target: int)
    requires
        0 < target < s.len(),
        s[target - 1] == '\r' && s[target] == '\n',
    ensures
        position_from(s, 0, target, 0, 0) == position_from(s, 0, target - 1, 0, 0),
{
    lemma_inside_break(s, 0, target, 0, 0);
}

proof fn lemma_inside_break(s: Seq<char>, i: int, target: int, line: int, units: int)
    requires
        0 <= i < target < s.len(),
        !inside_break(s, i),
        inside_break(s, target),
    ensures
        position_from(s, i, target, line, units) == position_from(s, i, target - 1, line, units),
    decreases target - i,
{
    let n = break_len(s, i);
    if i == target - 1 {
        assert(n == 2);
    } else if n > 0 {
        assert(i + n <= target - 1);
        if i + n < target {
            lemma_inside_break(s, i + n, target, line + 1, 0);
        }
    } else {
        lemma_inside_break(s, i + 1, target, line, units + utf16_width(s[i]));
    }
}

/// A line that is found starts where counting arrives with no units.
proof fn lemma_line_found(s: Seq<char>, i: int, line: int, target: int, before: int, units: int)
    requires
        0 <= i <= s.len(),
        !inside_break(s, i),
        0 < line,
        line_start(s, i, line) is Some,
        line_start(s, i, line)->0 <= target,
    ensures
        i < line_start(s, i, line)->0 <= s.len(),
        ends_line(s, line_start(s, i, line)->0),
        !inside_break(s, line_start(s, i, line)->0),
        position_from(s, i, target, before, units) == position_from(
            s,
            line_start(s, i, line)->0,
            target,
            before + line,
            0,
        ),
    decreases s.len() - i,
{
    let n = break_len(s, i);
    if n > 0 {
        if line == 1 {
            assert(line_start(s, i + n, 0) == Some(i + n));
        } else {
            lemma_line_found(s, i + n, line - 1, target, before + 1, 0);
        }
    } else {
        lemma_line_found(s, i + 1, line, target, before, units + utf16_width(s[i]));
    }
}

proof fn lemma_column_found(s: Seq<char>, i: int, units: int, line: int, before: int)
    requires
        0 <= i <= s.len(),
        !inside_break(s, i),
        0 <= units,
        column(s, i, units) is Ok,
    ensures
        i <= column(s, i, units)->Ok_0 <= s.len(),
        !inside_break(s, column(s, i, units)->Ok_0),
        position_from(s, i, column(s, i, units)->Ok_0, line, before) == (line, before + units),
    decreases s.len() - i,
{
    if units > 0 {
        lemma_column_found(s, i + 1, units - utf16_width(s[i]), line, before + utf16_width(s[i]));
    }
}

/// A position is found at an index if and only if the index stands at that
/// position and not between the two halves of a line break.
pub proof fn law_position_is_found(s: Seq<char>, position: LspPosition, i: int)
    ensures
        char_at(s, position) == Ok::<int, PositionError>(i) <==> {
            &&& 0 <= i <= s.len()
            &&& !(0 < i < s.len() && s[i - 1] == '\r' && s[i] == '\n')
            &&& position_from(s, 0, i, 0, 0) == (
                position.line.index as int,
                position.character.units as int,
            )
        },
{
    if char_at(s, position) == Ok::<int, PositionError>(i) {
        let line = position.line.index as int;
        let start = line_start(s, 0, line)->0;
        if line > 0 {
            lemma_line_found(s, 0, line, start, 0, 0);
        }
        lemma_column_found(s, start, position.character.units as int, line, 0);
        if line > 0 {
            lemma_line_found(s, 0, line, i, 0, 0);
        }
    }
    if 0 <= i <= s.len() && !inside_break(s, i) && position_from(s, 0, i, 0, 0) == (
        position.line.index as int,
        position.character.units as int,
    ) {
        law_offset_round_trip(s, i, position);
    }
}

proof fn lemma_line_missing(s: Seq<char>, i: int, line: int)
    requires
        0 <= i <= s.len(),
        !inside_break(s, i),
        0 <= line,
    ensures
        line_start(s, i, line) is None <==> ends_until(s, i).len() + line > ends_until(
            s,
            s.len() as int,
        ).len(),
    decreases s.len() - i,
{
    lemma_ends_grow(s, i, s.len() as int);
    if line > 0 && i < s.len() {
        let n = break_len(s, i);
        lemma_ends_step(s, i);
        if n > 0 {
            if n == 2 {
                lemma_ends_step(s, i + 1);
            }
            lemma_line_missing(s, i + n, line - 1);
        } else {
            lemma_line_missing(s, i + 1, line);
        }
    }
}

proof fn lemma_column_split(s: Seq<char>, i: int, units: int, line: int, before: int)
    requires
        0 <= i <= s.len(),
        !inside_break(s, i),
        0 <= units,
        column(s, i, units) == Err::<int, PositionError>(PositionError::SplitSurrogatePair),
    ensures
        exists|k: int|
            i <= k < s.len() && astral(#[trigger] s[k]) && !inside_break(s, k) && position_from(
                s,
                i,
                k,
                line,
                before,
            ) == (line, before + units - 1),
    decreases s.len() - i,
{
    if utf16_width(s[i]) > units {
        assert(astral(s[i]));
    } else {
        let w = utf16_width(s[i]);
        lemma_column_split(s, i + 1, units - w, line, before + w);
        let k = choose|k: int|
            i + 1 <= k < s.len() && astral(#[trigger] s[k]) && !inside_break(s, k)
                && position_from(s, i + 1, k, line, before + w) == (line, before + units - 1);
        assert(position_from(s, i, k, line, before) == (line, before + units - 1));
    }
}

proof fn lemma_split_column(s: Seq<char>, i: int, units: int, k: int)
    requires
        0 <= i <= k < s.len(),
        0 <= units,
        column(s, i, units) == Ok::<int, PositionError>(k),
        astral(s[k]),
    ensures
        column(s, i, units + 1) == Err::<int, PositionError>(PositionError::SplitSurrogatePair),
    decreases s.len() - i,
{
    if units > 0 {
        lemma_column_at_least(s, i + 1, units - utf16_width(s[i]));
        lemma_split_column(s, i + 1, units - utf16_width(s[i]), k);
    } else {
        assert(k == i);
    }
}

proof fn lemma_column_at_least(s: Seq<char>, i: int, units: int)
    requires
        0 <= i <= s.len(),
    ensures
        column(s, i, units) matches Ok(at) ==> i <= at,
    decreases s.len() - i,
{
    if units > 0 && i < s.len() && break_len(s, i) == 0 {
        lemma_column_at_least(s, i + 1, units - utf16_width(s[i]));
    }
}

/// A position is refused for its line where the text has fewer line ends, and
/// for splitting a surrogate pair where a scalar value from U+10000 on stands
/// one unit before it. Everything else that is not found is behind its line.
pub proof fn law_refused_positions(s: Seq<char>, position: LspPosition)
    ensures
        char_at(s, position) == Err::<int, PositionError>(PositionError::LineOutOfBounds) <==> Set::new(
            |e: int|
                0 < e <= s.len() && (s[e - 1] == '\n' || (s[e - 1] == '\r' && !(e < s.len() && s[e]
                    == '\n'))),
        ).len() < position.line.index,
        char_at(s, position) == Err::<int, PositionError>(PositionError::SplitSurrogatePair) <==> (
        exists|k: int|
            0 <= k < s.len() && (#[trigger] s[k]) as u32 >= 0x10000 && position_from(s, 0, k, 0, 0)
                == (position.line.index as int, position.character.units - 1)),
        char_at(s, position) != Err::<int, PositionError>(PositionError::OffsetOutOfBounds),
{
    assert(Set::new(
        |e: int|
            0 < e <= s.len() && (s[e - 1] == '\n' || (s[e - 1] == '\r' && !(e < s.len() && s[e]
                == '\n'))),
    ) =~= ends_until(s, s.len() as int));
    assert(ends_until(s, 0) =~= Set::empty());
    let line = position.line.index as int;
    let units = position.character.units as int;
    lemma_line_missing(s, 0, line);
    if line_start(s, 0, line) is Some {
        let start = line_start(s, 0, line)->0;
        lemma_column_errors(s, start, units);
        if line > 0 {
            lemma_line_found(s, 0, line, start, 0, 0);
        }
        if column(s, start, units) == Err::<int, PositionError>(PositionError::SplitSurrogatePair) {
            lemma_column_split(s, start, units, line, 0);
            let k = choose|k: int|
                start <= k < s.len() && astral(#[trigger] s[k]) && !inside_break(s, k)
                    && position_from(s, start, k, line, 0) == (line, units - 1);
            if line > 0 {
                lemma_line_found(s, 0, line, k, 0, 0);
            }
            assert(s[k] as u32 >= 0x10000);
        }
    }
    if exists|k: int|
        0 <= k < s.len() && (#[trigger] s[k]) as u32 >= 0x10000 && position_from(s, 0, k, 0, 0) == (
            line,
            units - 1,
        ) {
        let k = choose|k: int|
            0 <= k < s.len() && (#[trigger] s[k]) as u32 >= 0x10000 && position_from(s, 0, k, 0, 0)
                == (line, units - 1);
        assert(!inside_break(s, k));
        lemma_units_nonnegative(s, 0, k, 0, 0);
        let at = LspPosition {
            line: position.line,
            character: crate::lsp::Utf16Offset { units: (units - 1) as usize },
        };
        law_offset_round_trip(s, k, at);
        let start = line_start(s, 0, line)->0;
        if line > 0 {
            lemma_line_found(s, 0, line, start, 0, 0);
        }
        lemma_column_at_least(s, start, units - 1);
        lemma_split_column(s, start, units - 1, k);
    }
}

proof fn lemma_column_errors(s: Seq<char>, i: int, units: int)
    ensures
        column(s, i, units) matches Err(e) ==> e == PositionError::CharacterOutOfBounds || e
            == PositionError::SplitSurrogatePair,
    decreases s.len() - i,
{
    if units > 0 && 0 <= i < s.len() && break_len(s, i) == 0 {
        lemma_column_errors(s, i + 1, units - utf16_width(s[i]));
    }
}

proof fn lemma_units_nonnegative(s: Seq<char>, i: int, target: int, line: int, units: int)
    requires
        0 <= i,
        0 <= units,
    ensures
        position_from(s, i, target, line, units).1 >= 0,
    decreases s.len() - i,
{
    if i < s.len() && i < target {
        let n = break_len(s, i);
        if n > 0 {
            if i + n <= target {
                lemma_units_nonnegative(s, i + n, target, line + 1, 0);
            }
        } else {
            lemma_units_nonnegative(s, i + 1, target, line, units + utf16_width(s[i]));
        }
    }
}

} // verus!
