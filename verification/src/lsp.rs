//! Positions in documents as the Language Server Protocol counts them: lines
//! from zero, and UTF-16 code units inside a line.
use vstd::prelude::*;

use crate::text::{
    byte_len, byte_offset, chars_of, copy_text, lemma_utf8_len_push, lemma_utf8_len_take, utf8_len,
};

verus! {

/// The version of a document.
#[derive(Clone, Copy, Debug, PartialEq, Eq, PartialOrd, Ord, Hash, Structural)]
pub struct DocumentVersion {
    pub number: u64,
}

impl DocumentVersion {
    /// The version with this number.
    pub fn new(number: u64) -> (version: Self)
        ensures
            version.number == number,
    {
        DocumentVersion { number }
    }

    /// The number of this version.
    pub fn get(self) -> (number: u64)
        ensures
            number == self.number,
    {
        self.number
    }
}

/// A zero-based line.
#[derive(Clone, Copy, Debug, PartialEq, Eq, PartialOrd, Ord, Hash, Structural)]
pub struct Line {
    pub index: usize,
}

impl Line {
    /// The line with this index.
    pub fn new(index: usize) -> (line: Self)
        ensures
            line.index == index,
    {
        Line { index }
    }

    /// The index of this line.
    pub fn get(self) -> (index: usize)
        ensures
            index == self.index,
    {
        self.index
    }
}

/// A number of UTF-16 code units from the start of a line.
#[derive(Clone, Copy, Debug, PartialEq, Eq, PartialOrd, Ord, Hash, Structural)]
pub struct Utf16Offset {
    pub units: usize,
}

impl Utf16Offset {
    /// The offset of this many code units.
    pub fn new(units: usize) -> (offset: Self)
        ensures
            offset.units == units,
    {
        Utf16Offset { units }
    }

    /// The number of code units.
    pub fn get(self) -> (units: usize)
        ensures
            units == self.units,
    {
        self.units
    }
}

/// A zero-based UTF-16 position.
#[derive(Clone, Copy, Debug, PartialEq, Eq, PartialOrd, Ord, Hash, Structural)]
pub struct LspPosition {
    pub line: Line,
    pub character: Utf16Offset,
}

impl LspPosition {
    /// The position at `character` of `line`.
    pub fn new(line: Line, character: Utf16Offset) -> (position: Self)
        ensures
            position.line == line,
            position.character == character,
    {
        LspPosition { line, character }
    }
}

/// A number of scalar values from the start of a document.
#[derive(Clone, Copy, Debug, PartialEq, Eq, PartialOrd, Ord, Hash, Structural)]
pub struct CharOffset {
    pub chars: usize,
}

impl CharOffset {
    /// The offset of this many scalar values.
    pub fn new(chars: usize) -> (offset: Self)
        ensures
            offset.chars == chars,
    {
        CharOffset { chars }
    }

    /// The number of scalar values.
    pub fn get(self) -> (chars: usize)
        ensures
            chars == self.chars,
    {
        self.chars
    }
}

/// Why a position or an offset has no counterpart in a document.
#[derive(Clone, Copy, Debug, PartialEq, Eq, Structural)]
pub enum PositionError {
    LineOutOfBounds,
    CharacterOutOfBounds,
    SplitSurrogatePair,
    OffsetOutOfBounds,
}

impl PositionError {
    /// The words for an error.
    pub open spec fn words(self) -> Seq<char> {
        match self {
            PositionError::LineOutOfBounds => "LSP line is out of bounds"@,
            PositionError::CharacterOutOfBounds => "LSP character is out of bounds"@,
            PositionError::SplitSurrogatePair => "LSP character splits a UTF-16 surrogate pair"@,
            PositionError::OffsetOutOfBounds => "character offset is out of bounds"@,
        }
    }

    /// A sentence for the error.
    pub fn describe(self) -> (text: String)
        ensures
            text@ == self.words(),
    {
        match self {
            PositionError::LineOutOfBounds => copy_text("LSP line is out of bounds"),
            PositionError::CharacterOutOfBounds => copy_text("LSP character is out of bounds"),
            PositionError::SplitSurrogatePair => copy_text(
                "LSP character splits a UTF-16 surrogate pair",
            ),
            PositionError::OffsetOutOfBounds => copy_text("character offset is out of bounds"),
        }
    }
}

/// The number of UTF-16 code units of one scalar value.
pub open spec fn utf16_width(c: char) -> int {
    if (c as u32) < 0x10000 {
        1
    } else {
        2
    }
}

/// How many scalar values the line break at `i` takes, or zero where none is.
pub open spec fn break_len(s: Seq<char>, i: int) -> int {
    if !(0 <= i < s.len()) {
        0
    } else if s[i] == '\n' {
        1
    } else if s[i] == '\r' {
        if i + 1 < s.len() && s[i + 1] == '\n' {
            2
        } else {
            1
        }
    } else {
        0
    }
}

/// Where the line that is `line` breaks after index `i` starts.
pub open spec fn line_start(s: Seq<char>, i: int, line: int) -> Option<int>
    decreases s.len() - i,
{
    if line <= 0 {
        Some(i)
    } else if !(0 <= i < s.len()) {
        None
    } else if break_len(s, i) > 0 {
        line_start(s, i + break_len(s, i), line - 1)
    } else {
        line_start(s, i + 1, line)
    }
}

/// Where `units` code units after index `i` of the same line are.
pub open spec fn column(s: Seq<char>, i: int, units: int) -> Result<int, PositionError>
    decreases s.len() - i,
{
    if units <= 0 {
        Ok(i)
    } else if !(0 <= i < s.len()) || break_len(s, i) > 0 {
        Err(PositionError::CharacterOutOfBounds)
    } else if utf16_width(s[i]) > units {
        Err(PositionError::SplitSurrogatePair)
    } else {
        column(s, i + 1, units - utf16_width(s[i]))
    }
}

/// The scalar value that a position stands before.
pub open spec fn char_at(s: Seq<char>, position: LspPosition) -> Result<int, PositionError> {
    match line_start(s, 0, position.line.index as int) {
        Some(i) => column(s, i, position.character.units as int),
        None => Err(PositionError::LineOutOfBounds),
    }
}

/// The position of index `target`, counted on from index `i` at `line` and
/// `units`. An index inside a line break counts as the end of the line.
pub open spec fn position_from(s: Seq<char>, i: int, target: int, line: int, units: int) -> (int, int)
    decreases s.len() - i,
{
    if !(0 <= i < s.len()) || i >= target {
        (line, units)
    } else if break_len(s, i) > 0 {
        if i + break_len(s, i) > target {
            (line, units)
        } else {
            position_from(s, i + break_len(s, i), target, line + 1, 0)
        }
    } else {
        position_from(s, i + 1, target, line, units + utf16_width(s[i]))
    }
}

/// An immutable document text at one version.
pub struct DocumentSnapshot {
    chars: Vec<char>,
    version: DocumentVersion,
}

impl DocumentSnapshot {
    /// The text came from a `str`, so its encoding has a length.
    #[verifier::type_invariant]
    spec fn encodable(self) -> bool {
        utf8_len(self.chars@) <= usize::MAX
    }

    /// The text.
    pub closed spec fn content(&self) -> Seq<char> {
        self.chars@
    }

    /// The version that the text belongs to.
    pub closed spec fn version_of(&self) -> DocumentVersion {
        self.version
    }

    /// The snapshot of a text.
    pub fn from_text(text: &str, version: DocumentVersion) -> (snapshot: Self)
        ensures
            snapshot.content() == text@,
            snapshot.version_of() == version,
    {
        let bytes = byte_len(text);
        let chars = chars_of(text);
        assert(bytes == utf8_len(chars@));
        DocumentSnapshot { chars, version }
    }

    /// The version that the text belongs to.
    pub fn version(&self) -> (version: DocumentVersion)
        ensures
            version == self.version_of(),
    {
        self.version
    }

    /// The length of the line break at `i`.
    fn break_here(&self, i: usize) -> (n: usize)
        ensures
            n == break_len(self.content(), i as int),
            n <= 2,
            i <= self.chars.len() ==> i + n <= self.chars.len(),
    {
        if i >= self.chars.len() {
            0
        } else if self.chars[i] == '\n' {
            1
        } else if self.chars[i] == '\r' {
            if self.chars.len() - i > 1 && self.chars[i + 1] == '\n' {
                2
            } else {
                1
            }
        } else {
            0
        }
    }

    /// The scalar value that a position stands before.
    pub fn position_to_char(&self, position: LspPosition) -> (offset: Result<
        CharOffset,
        PositionError,
    >)
        ensures
            match (offset, char_at(self.content(), position)) {
                (Ok(at), Ok(i)) => at.chars == i && i <= self.content().len(),
                (Err(error), Err(reason)) => error == reason,
                _ => false,
            },
    {
        let ghost s = self.content();
        let mut line: usize = position.line.get();
        let mut i: usize = 0;
        while line > 0
            invariant
                i <= self.chars.len(),
                s == self.chars@,
                line_start(s, 0, position.line.index as int) == line_start(
                    s,
                    i as int,
                    line as int,
                ),
            decreases self.chars.len() - i,
        {
            if i >= self.chars.len() {
                return Err(PositionError::LineOutOfBounds);
            }
            let n = self.break_here(i);
            if n > 0 {
                i += n;
                line -= 1;
            } else {
                i += 1;
            }
        }
        let mut units: usize = position.character.get();
        let ghost start = i as int;
        while units > 0
            invariant
                i <= self.chars.len(),
                s == self.chars@,
                char_at(s, position) == column(s, start, position.character.units as int),
                column(s, start, position.character.units as int) == column(
                    s,
                    i as int,
                    units as int,
                ),
            decreases self.chars.len() - i,
        {
            if i >= self.chars.len() || self.break_here(i) > 0 {
                return Err(PositionError::CharacterOutOfBounds);
            }
            let width: usize = if (self.chars[i] as u32) < 0x10000 {
                1
            } else {
                2
            };
            if width > units {
                return Err(PositionError::SplitSurrogatePair);
            }
            units -= width;
            i += 1;
        }
        Ok(CharOffset { chars: i })
    }

    /// The position that stands before a scalar value.
    pub fn char_to_position(&self, offset: CharOffset) -> (position: Result<
        LspPosition,
        PositionError,
    >)
        ensures
            match position {
                Ok(found) => offset.chars <= self.content().len() && position_from(
                    self.content(),
                    0,
                    offset.chars as int,
                    0,
                    0,
                ) == (found.line.index as int, found.character.units as int),
                Err(error) => offset.chars > self.content().len() && error
                    == PositionError::OffsetOutOfBounds,
            },
    {
        let ghost s = self.content();
        let target = offset.get();
        proof {
            use_type_invariant(&*self);
            assert(s.take(0) =~= Seq::<char>::empty());
        }
        if target > self.chars.len() {
            return Err(PositionError::OffsetOutOfBounds);
        }
        let mut line: usize = 0;
        let mut units: usize = 0;
        let mut i: usize = 0;
        while i < target
            invariant
                i <= self.chars.len(),
                target <= self.chars.len(),
                s == self.chars@,
                utf8_len(s) <= usize::MAX,
                target == offset.chars,
                line <= i,
                units <= byte_offset(s, i as int),
                position_from(s, 0, offset.chars as int, 0, 0) == position_from(
                    s,
                    i as int,
                    target as int,
                    line as int,
                    units as int,
                ),
            decreases self.chars.len() - i,
        {
            let n = self.break_here(i);
            if n > 0 {
                if n > target - i {
                    return Ok(LspPosition::new(Line { index: line }, Utf16Offset { units }));
                }
                line += 1;
                units = 0;
                i += n;
            } else {
                let width: usize = if (self.chars[i] as u32) < 0x10000 {
                    1
                } else {
                    2
                };
                proof {
                    assert(s.take(i + 1) =~= s.take(i as int).push(s[i as int]));
                    lemma_utf8_len_push(s.take(i as int), s[i as int]);
                    lemma_utf8_len_take(s, i + 1);
                }
                units += width;
                i += 1;
            }
        }
        Ok(LspPosition::new(Line { index: line }, Utf16Offset { units }))
    }
}

/// Whether index `i` stands between the two halves of a line break.
pub open spec fn inside_break(s: Seq<char>, i: int) -> bool {
    0 < i < s.len() && s[i - 1] == '\r' && s[i] == '\n'
}

/// Walking on by `k` lines first and `more` lines then is walking on by both.
proof fn lemma_line_start_adds(s: Seq<char>, i: int, k: int, start: int, more: int)
    requires
        0 <= k,
        0 <= more,
        line_start(s, i, k) == Some(start),
    ensures
        line_start(s, i, k + more) == line_start(s, start, more),
    decreases s.len() - i,
{
    if k > 0 {
        if break_len(s, i) > 0 {
            lemma_line_start_adds(s, i + break_len(s, i), k - 1, start, more);
        } else {
            lemma_line_start_adds(s, i + 1, k, start, more);
        }
    }
}

/// Walking on inside a line does not change where later lines start.
proof fn lemma_column_step(s: Seq<char>, start: int, i: int, units: int)
    requires
        0 <= start,
        0 <= units,
        0 <= i < s.len(),
        column(s, start, units) == Ok::<int, PositionError>(i),
        break_len(s, i) == 0,
    ensures
        column(s, start, units + utf16_width(s[i])) == Ok::<int, PositionError>(i + 1),
    decreases s.len() - start,
{
    if units > 0 {
        lemma_column_step(s, start + 1, i, units - utf16_width(s[start]));
    } else {
        assert(column(s, i + 1, 0) == Ok::<int, PositionError>(i + 1));
    }
}

/// Lines after the one that holds `i` start where they start from `i` on.
proof fn lemma_line_from_column(s: Seq<char>, start: int, i: int, units: int, more: int)
    requires
        0 <= start,
        0 <= units,
        0 < more,
        column(s, start, units) == Ok::<int, PositionError>(i),
    ensures
        line_start(s, start, more) == line_start(s, i, more),
    decreases s.len() - start,
{
    if units > 0 {
        lemma_line_from_column(s, start + 1, i, units - utf16_width(s[start]), more);
    }
}

proof fn lemma_position_round_trip(
    s: Seq<char>,
    start: int,
    i: int,
    target: int,
    line: int,
    units: int,
)
    requires
        0 <= line,
        0 <= units,
        0 <= start,
        0 <= i <= target <= s.len(),
        !inside_break(s, target),
        line_start(s, 0, line) == Some(start),
        column(s, start, units) == Ok::<int, PositionError>(i),
    ensures
        ({
            let (l, u) = position_from(s, i, target, line, units);
            &&& 0 <= l && 0 <= u
            &&& line_start(s, 0, l) is Some
            &&& column(s, line_start(s, 0, l)->0, u) == Ok::<int, PositionError>(target)
        }),
    decreases s.len() - i,
{
    if i < target {
        let n = break_len(s, i);
        if n > 0 {
            lemma_line_start_adds(s, 0, line, start, 1);
            lemma_line_from_column(s, start, i, units, 1);
            assert(line_start(s, i + n, 0) == Some(i + n));
            assert(line_start(s, i, 1) == Some(i + n));
            lemma_position_round_trip(s, i + n, i + n, target, line + 1, 0);
        } else {
            lemma_column_step(s, start, i, units);
            lemma_position_round_trip(s, start, i + 1, target, line, units + utf16_width(s[i]));
        }
    }
}

/// Turning an offset into a position and back gives the offset, unless it
/// stands inside a line break.
pub proof fn law_offset_round_trip(s: Seq<char>, target: int, position: LspPosition)
    requires
        0 <= target <= s.len(),
        !inside_break(s, target),
        position_from(s, 0, target, 0, 0) == (
            position.line.index as int,
            position.character.units as int,
        ),
    ensures
        char_at(s, position) == Ok::<int, PositionError>(target),
{
    lemma_position_round_trip(s, 0, 0, target, 0, 0);
}

proof fn lemma_line_start_inside(s: Seq<char>, i: int, line: int)
    requires
        0 <= i <= s.len(),
    ensures
        match line_start(s, i, line) {
            Some(start) => 0 <= start && start <= s.len(),
            None => true,
        },
    decreases s.len() - i,
{
    if line > 0 && i < s.len() {
        if break_len(s, i) > 0 {
            lemma_line_start_inside(s, i + break_len(s, i), line - 1);
        } else {
            lemma_line_start_inside(s, i + 1, line);
        }
    }
}

proof fn lemma_column_inside(s: Seq<char>, i: int, units: int)
    requires
        0 <= i <= s.len(),
    ensures
        match column(s, i, units) {
            Ok(at) => 0 <= at && at <= s.len(),
            Err(_) => true,
        },
    decreases s.len() - i,
{
    if units > 0 && i < s.len() && break_len(s, i) == 0 {
        lemma_column_inside(s, i + 1, units - utf16_width(s[i]));
    }
}

/// A position that has a scalar value stands inside the text.
pub proof fn lemma_char_at_inside(s: Seq<char>, position: LspPosition)
    ensures
        match char_at(s, position) {
            Ok(at) => 0 <= at && at <= s.len(),
            Err(_) => true,
        },
{
    lemma_line_start_inside(s, 0, position.line.index as int);
    if let Some(start) = line_start(s, 0, position.line.index as int) {
        lemma_column_inside(s, start, position.character.units as int);
    }
}

} // verus!
