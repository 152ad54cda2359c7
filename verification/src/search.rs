//! Project-wide text search: what is found in the files that are read, within
//! bounds, and which search is the current one.
use vstd::prelude::*;
use vstd::utf8::*;

use crate::find::{
    always_stops, byte_offsets, find_chars, fold_chars, folded, index_at, index_of_offset,
    lemma_index_at, lemma_next_occurrence, lemma_offsets_increase, lemma_owners, next_occurrence,
    owners, FoldedText, Folding,
};
use crate::paths::{copy_bytes, is_same_path, same_path, text_from_utf8};
use crate::pattern::{
    has_prefix, is_span, matches_from, pattern_is, rule_for, spans_of, starts_with, Pattern,
    PatternError, Rule,
};
use crate::text::{byte_len, byte_offset, chars_of, copy_text, same_text};

verus! {

/// Default cap for matches retained from one file.
pub const DEFAULT_MATCHES_PER_FILE: usize = 100;

/// Default cap for matches retained across the whole project.
pub const DEFAULT_MATCHES_TOTAL: usize = 1_000;

/// Absolute cap for matches retained from one file, even if a query asks for more.
pub const MAX_MATCHES_PER_FILE: usize = 500;

/// Absolute cap for matches retained across the whole project.
pub const MAX_MATCHES_TOTAL: usize = 5_000;

/// Largest individual file read by project search.
pub const MAX_SEARCH_FILE_BYTES: u64 = 8 * 1024 * 1024;

/// Largest aggregate payload read for one project-search generation.
pub const MAX_SEARCH_TOTAL_BYTES: u64 = 128 * 1024 * 1024;

/// Longest preview, without the marks for what was left out.
pub const MAX_PREVIEW_CHARS: usize = 240;

/// A typed search request.
///
/// Limits are public so UI configuration can adjust them, but every search
/// clamps them to [`MAX_MATCHES_PER_FILE`] and [`MAX_MATCHES_TOTAL`]. The text
/// is not trimmed: leading and trailing whitespace are valid literal search
/// terms. Prefix the text with `re:` or `re:i:` for regular expressions.
#[derive(Clone, Debug, PartialEq, Eq)]
pub struct SearchQuery {
    pub text: String,
    pub case_sensitive: bool,
    pub max_matches_per_file: usize,
    pub max_matches_total: usize,
}

/// The content of a [`SearchQuery`].
pub struct Query {
    pub text: Seq<char>,
    pub case_sensitive: bool,
    pub max_matches_per_file: usize,
    pub max_matches_total: usize,
}

impl View for SearchQuery {
    type V = Query;

    open spec fn view(&self) -> Query {
        Query {
            text: self.text@,
            case_sensitive: self.case_sensitive,
            max_matches_per_file: self.max_matches_per_file,
            max_matches_total: self.max_matches_total,
        }
    }
}

/// The smaller of two numbers.
pub open spec fn smaller(a: usize, b: usize) -> usize {
    if a < b {
        a
    } else {
        b
    }
}

fn smaller_of(a: usize, b: usize) -> (n: usize)
    ensures
        n == smaller(a, b),
{
    if a < b {
        a
    } else {
        b
    }
}

impl SearchQuery {
    /// Creates a case-insensitive query with the default result bounds.
    pub fn new(text: &str) -> (query: Self)
        ensures
            query@ == (Query {
                text: text@,
                case_sensitive: false,
                max_matches_per_file: DEFAULT_MATCHES_PER_FILE,
                max_matches_total: DEFAULT_MATCHES_TOTAL,
            }),
    {
        SearchQuery {
            text: copy_text(text),
            case_sensitive: false,
            max_matches_per_file: DEFAULT_MATCHES_PER_FILE,
            max_matches_total: DEFAULT_MATCHES_TOTAL,
        }
    }

    /// The query with another case rule.
    pub fn with_case_sensitive(self, case_sensitive: bool) -> (query: Self)
        ensures
            query@ == (Query { case_sensitive, ..self@ }),
    {
        let mut query = self;
        query.case_sensitive = case_sensitive;
        query
    }

    /// The query with other limits, within the absolute ones.
    pub fn with_limits(self, per_file: usize, total: usize) -> (query: Self)
        ensures
            query@ == (Query {
                max_matches_per_file: smaller(per_file, MAX_MATCHES_PER_FILE),
                max_matches_total: smaller(total, MAX_MATCHES_TOTAL),
                ..self@
            }),
    {
        let mut query = self;
        query.max_matches_per_file = smaller_of(per_file, MAX_MATCHES_PER_FILE);
        query.max_matches_total = smaller_of(total, MAX_MATCHES_TOTAL);
        query
    }

    /// Whether nothing is looked for.
    pub fn is_empty(&self) -> (yes: bool)
        ensures
            yes == (self@.text.len() == 0),
    {
        self.text.as_str().is_empty()
    }

    /// The limits per file and in total.
    pub fn limits(&self) -> (limits: (usize, usize))
        ensures
            limits.0 == smaller(self@.max_matches_per_file, MAX_MATCHES_PER_FILE),
            limits.1 == smaller(self@.max_matches_total, MAX_MATCHES_TOTAL),
    {
        (
            smaller_of(self.max_matches_per_file, MAX_MATCHES_PER_FILE),
            smaller_of(self.max_matches_total, MAX_MATCHES_TOTAL),
        )
    }

    /// The pattern of the query's text.
    pub fn compile_pattern(&self) -> (result: Result<Pattern, PatternError>)
        ensures
            pattern_is(result, rule_for(self@.text, self@.case_sensitive)),
    {
        Pattern::parse(self.text.as_str(), self.case_sensitive)
    }
}

/// One occurrence in an indexed project file.
#[derive(Debug, Eq)]
pub struct SearchMatch {
    /// Path relative to the project root.
    pub path: Vec<u8>,
    /// Zero-based logical line containing the beginning of the match.
    pub line: usize,
    /// Zero-based Unicode-scalar column on `line` (not a UTF-8 byte offset).
    pub char_column: usize,
    /// Absolute UTF-8 byte range in the file's original contents.
    pub byte_range: std::ops::Range<usize>,
    /// The containing line, bounded and centered near the match when necessary.
    pub preview: String,
}

/// The content of a [`SearchMatch`].
#[verifier::ext_equal]
pub struct Found {
    pub path: Seq<u8>,
    pub line: int,
    pub char_column: int,
    pub span: (int, int),
    pub preview: Seq<char>,
}

impl View for SearchMatch {
    type V = Found;

    open spec fn view(&self) -> Found {
        Found {
            path: self.path@,
            line: self.line as int,
            char_column: self.char_column as int,
            span: (self.byte_range.start as int, self.byte_range.end as int),
            preview: self.preview@,
        }
    }
}

impl PartialEq for SearchMatch {
    fn eq(&self, other: &Self) -> (same: bool) {
        self.line == other.line && self.char_column == other.char_column && self.byte_range.start
            == other.byte_range.start && self.byte_range.end == other.byte_range.end && same_path(
            self.path.as_slice(),
            other.path.as_slice(),
        ) && same_text(self.preview.as_str(), other.preview.as_str())
    }
}

impl vstd::std_specs::cmp::PartialEqSpecImpl for SearchMatch {
    open spec fn obeys_eq_spec() -> bool {
        true
    }

    open spec fn eq_spec(&self, other: &Self) -> bool {
        &&& is_same_path(self@.path, other@.path)
        &&& self@.line == other@.line
        &&& self@.char_column == other@.char_column
        &&& self@.span == other@.span
        &&& self@.preview == other@.preview
    }
}

impl Clone for SearchMatch {
    fn clone(&self) -> (copy: Self)
        ensures
            copy@ == self@,
    {
        SearchMatch {
            path: copy_bytes(self.path.as_slice()),
            line: self.line,
            char_column: self.char_column,
            byte_range: self.byte_range.start..self.byte_range.end,
            preview: self.preview.clone(),
        }
    }
}

/// The contents of matches.
pub open spec fn founds(matches: Seq<SearchMatch>) -> Seq<Found> {
    matches.map_values(|found: SearchMatch| found@)
}

/// The result of a cancellable search.
#[derive(Debug, PartialEq, Eq)]
pub struct SearchOutcome {
    pub matches: Vec<SearchMatch>,
    pub cancelled: bool,
    /// True whenever the retained matches are not a complete answer for the
    /// indexed snapshot: the index or occurrence set was capped, a scan budget
    /// was reached, or an indexed source became unreadable, unsafe, binary, or
    /// invalid UTF-8. Retained matches are still individually valid.
    pub truncated: bool,
}

/// A copy of matches.
fn copy_matches(matches: &Vec<SearchMatch>) -> (copy: Vec<SearchMatch>)
    ensures
        founds(copy@) == founds(matches@),
{
    let copy = matches.clone();
    proof {
        assert forall|i: int| 0 <= i < matches@.len() implies (#[trigger] copy@[i])@
            == matches@[i]@ by {
            assert(cloned(matches@[i], copy@[i]));
        }
        assert(founds(copy@) =~= founds(matches@));
    }
    copy
}

impl Clone for SearchOutcome {
    fn clone(&self) -> (copy: Self)
        ensures
            founds(copy.matches@) == founds(self.matches@),
            copy.cancelled == self.cancelled,
            copy.truncated == self.truncated,
    {
        SearchOutcome {
            matches: copy_matches(&self.matches),
            cancelled: self.cancelled,
            truncated: self.truncated,
        }
    }
}

/// How many line feeds a text holds.
pub open spec fn newlines(text: Seq<char>) -> nat
    decreases text.len(),
{
    if text.len() == 0 {
        0
    } else {
        newlines(text.drop_last()) + if text.last() == '\n' {
            1nat
        } else {
            0nat
        }
    }
}

/// Where the last line of a text begins.
pub open spec fn line_begin(text: Seq<char>) -> int
    decreases text.len(),
{
    if text.len() == 0 {
        0
    } else if text.last() == '\n' {
        text.len() as int
    } else {
        line_begin(text.drop_last())
    }
}

/// Where a line that reaches at least to `from` stops: before its line feed.
pub open spec fn line_stop(text: Seq<char>, from: int) -> int
    decreases text.len() - from,
{
    if from < 0 || from >= text.len() || text[from] == '\n' {
        from
    } else {
        line_stop(text, from + 1)
    }
}

/// Where the content of a line stops: before its carriage return, too.
pub open spec fn content_stop(text: Seq<char>, begin: int, stop: int) -> int {
    if begin < stop && text[stop - 1] == '\r' {
        stop - 1
    } else {
        stop
    }
}

/// The part of a long line that is shown.
pub open spec fn preview_window(len: int, column: int, count: int) -> (int, int) {
    let match_end = if column + count < len {
        column + count
    } else {
        len
    };
    let before = if column > 80 {
        column - 80
    } else {
        0
    };
    let start = if before + MAX_PREVIEW_CHARS < match_end {
        match_end - MAX_PREVIEW_CHARS
    } else {
        before
    };
    if start + MAX_PREVIEW_CHARS >= len {
        (len - MAX_PREVIEW_CHARS, len)
    } else {
        (start, start + MAX_PREVIEW_CHARS)
    }
}

/// A line as it is shown: a long one is cut, with a mark at each cut.
pub open spec fn preview_of(line: Seq<char>, column: int, count: int) -> Seq<char> {
    if line.len() <= MAX_PREVIEW_CHARS {
        line
    } else {
        let (start, end) = preview_window(line.len() as int, column, count);
        (if start > 0 {
            seq!['\u{2026}']
        } else {
            Seq::empty()
        }) + line.subrange(start, end) + (if end < line.len() {
            seq!['\u{2026}']
        } else {
            Seq::empty()
        })
    }
}

/// A preview is bounded, and shows the whole match where the match fits.
pub proof fn law_preview_shows_the_match(line: Seq<char>, column: int, count: int)
    requires
        0 <= column < line.len(),
        0 < count,
    ensures
        preview_of(line, column, count).len() <= MAX_PREVIEW_CHARS + 2,
        line.len() > MAX_PREVIEW_CHARS && count <= MAX_PREVIEW_CHARS ==> {
            let (start, end) = preview_window(line.len() as int, column, count);
            0 <= start <= column && (column + count <= end || line.len() == end)
        },
{
}

/// What is reported of the part of a text between two byte offsets.
pub open spec fn described(path: Seq<u8>, text: Seq<char>, span: (int, int)) -> Found {
    let start = index_at(text, span.0);
    let end = index_at(text, span.1);
    let begin = line_begin(text.take(start));
    let stop = content_stop(text, begin, line_stop(text, start));
    let shown = if end < stop {
        end - start
    } else {
        stop - start
    };
    Found {
        path,
        line: newlines(text.take(start)) as int,
        char_column: start - begin,
        span,
        preview: preview_of(
            text.subrange(begin, stop),
            start - begin,
            if shown > 1 {
                shown
            } else {
                1
            },
        ),
    }
}

/// The first line of a text begins within it.
pub proof fn lemma_line_begin(text: Seq<char>)
    ensures
        0 <= line_begin(text) <= text.len(),
        forall|k: int| line_begin(text) <= k < text.len() ==> text[k] != '\n',
        newlines(text) <= text.len(),
    decreases text.len(),
{
    if text.len() > 0 {
        lemma_line_begin(text.drop_last());
        assert forall|k: int| line_begin(text) <= k < text.len() implies text[k] != '\n' by {
            if k < text.len() - 1 {
                assert(text.drop_last()[k] == text[k]);
            }
        }
    }
}

pub proof fn lemma_line_stop(text: Seq<char>, from: int)
    requires
        0 <= from <= text.len(),
    ensures
        from <= line_stop(text, from) <= text.len(),
    decreases text.len() - from,
{
    if from < text.len() && text[from] != '\n' {
        lemma_line_stop(text, from + 1);
    }
}

/// Computes [`preview_of`].
pub fn bounded_preview(line: &[char], match_column: usize, match_chars: usize) -> (preview: String)
    requires
        match_column <= line@.len() + 1,
    ensures
        preview@ == preview_of(line@, match_column as int, match_chars as int),
{
    let len: usize = line.len();
    if len <= MAX_PREVIEW_CHARS {
        assert(line@.subrange(0, len as int) =~= line@);
        return crate::text::text_of(line, 0, len);
    }
    let reach = match_column.saturating_add(match_chars);
    let match_end: usize = if reach < len {
        reach
    } else {
        len
    };
    let before: usize = if match_column > 80 {
        match_column - 80
    } else {
        0
    };
    let mut start: usize = before;
    if start < match_end && match_end - start > MAX_PREVIEW_CHARS {
        start = match_end - MAX_PREVIEW_CHARS;
    }
    let mut end: usize = len;
    if start < len && len - start > MAX_PREVIEW_CHARS {
        end = start + MAX_PREVIEW_CHARS;
    } else {
        start = len - MAX_PREVIEW_CHARS;
    }
    assert((start as int, end as int) == preview_window(
        len as int,
        match_column as int,
        match_chars as int,
    ));
    let mut preview = String::new();
    if start > 0 {
        preview.push('\u{2026}');
    }
    let shown = crate::text::text_of(line, start, end);
    preview.push_str(shown.as_str());
    if end < len {
        preview.push('\u{2026}');
    }
    assert(preview@ =~= preview_of(line@, match_column as int, match_chars as int));
    preview
}

/// Where lines begin, as far as a text was walked through.
pub struct LineIndex {
    at: usize,
    line: usize,
    begin: usize,
}

impl LineIndex {
    /// Whether the walk through this text is correct so far.
    pub closed spec fn walks(&self, text: Seq<char>) -> bool {
        &&& self.at <= text.len()
        &&& self.line == newlines(text.take(self.at as int))
        &&& self.begin == line_begin(text.take(self.at as int))
    }

    /// At the start of a text.
    pub fn new(Ghost(text): Ghost<Seq<char>>) -> (index: Self)
        ensures
            index.walks(text),
    {
        assert(text.take(0) =~= Seq::<char>::empty());
        LineIndex { at: 0, line: 0, begin: 0 }
    }

    /// Goes to an index, from the start again where it lies behind.
    fn go(&mut self, text: &[char], index: usize)
        requires
            old(self).walks(text@),
            index <= text@.len(),
        ensures
            final(self).walks(text@),
            final(self).at == index,
    {
        if index < self.at {
            assert(text@.take(0) =~= Seq::<char>::empty());
            self.at = 0;
            self.line = 0;
            self.begin = 0;
        }
        while self.at < index
            invariant
                self.walks(text@),
                self.at <= index <= text@.len(),
            decreases index - self.at,
        {
            proof {
                let i = self.at as int;
                assert(text@.take(i + 1).drop_last() =~= text@.take(i));
                assert(text@.take(i + 1).last() == text@[i]);
                lemma_line_begin(text@.take(i));
            }
            if text[self.at] == '\n' {
                self.line = self.line + 1;
                self.begin = self.at + 1;
            }
            self.at = self.at + 1;
        }
    }

    /// What is reported of the part of a text between two indexes.
    pub fn describe(
        &mut self,
        path: &[u8],
        text: &[char],
        start: usize,
        end: usize,
        range: std::ops::Range<usize>,
    ) -> (found: SearchMatch)
        requires
            old(self).walks(text@),
            start <= end <= text@.len(),
            index_at(text@, range.start as int) == start,
            index_at(text@, range.end as int) == end,
        ensures
            final(self).walks(text@),
            found@ == described(path@, text@, (range.start as int, range.end as int)),
    {
        self.go(text, start);
        let begin = self.begin;
        let mut stop: usize = start;
        while stop < text.len() && text[stop] != '\n'
            invariant
                start <= stop <= text@.len(),
                line_stop(text@, stop as int) == line_stop(text@, start as int),
            decreases text@.len() - stop,
        {
            stop += 1;
        }
        assert(stop == line_stop(text@, start as int));
        proof {
            lemma_line_begin(text@.take(start as int));
        }
        let mut content: usize = stop;
        if begin < stop && text[stop - 1] == '\r' {
            content = stop - 1;
        }
        let column: usize = start - begin;
        let last: usize = if end < content {
            end
        } else {
            content
        };
        let count: usize = if last > start && last - start > 1 {
            last - start
        } else {
            1
        };
        let line = crate::text::text_of(text, begin, content);
        let chars = chars_of(line.as_str());
        let preview = bounded_preview(chars.as_slice(), column, count);
        SearchMatch {
            path: copy_bytes(path),
            line: self.line,
            char_column: column,
            byte_range: range,
            preview,
        }
    }
}

/// Where a part of a folded text stems from, in bytes of the text.
pub open spec fn stem_span(text: Seq<char>, at: int, count: int) -> (int, int) {
    let stems = owners(Folding::Full, text);
    (
        byte_offset(text, stems[at]) as int,
        byte_offset(text, stems[at + count - 1] + 1) as int,
    )
}

/// The byte offsets of the matches of a folded needle, from index `at` of the
/// folded text on. A match that stems from the same part of the text as the one
/// before it is left out.
pub open spec fn folded_matches(
    text: Seq<char>,
    needle: Seq<char>,
    at: int,
    previous: Option<(int, int)>,
    limit: nat,
) -> Seq<(int, int)>
    decreases folded(Folding::Full, text).len() - at,
{
    if limit == 0 || needle.len() == 0 || at < 0 {
        Seq::empty()
    } else {
        match next_occurrence(folded(Folding::Full, text), needle, at) {
            None => Seq::empty(),
            Some(found) => if found < at || found + needle.len() > folded(
                Folding::Full,
                text,
            ).len() {
                Seq::empty()
            } else {
                let span = stem_span(text, found, needle.len() as int);
                if previous == Some(span) {
                    folded_matches(text, needle, found + needle.len(), previous, limit)
                } else {
                    seq![span] + folded_matches(
                        text,
                        needle,
                        found + needle.len(),
                        Some(span),
                        (limit - 1) as nat,
                    )
                }
            },
        }
    }
}

/// What a search looks for.
#[derive(Debug)]
pub enum Matcher {
    /// A pattern as it stands.
    Exact(Pattern),
    /// A folded text.
    Folded(Vec<char>),
}

/// The content of a [`Matcher`].
pub enum Wanted {
    Exact(Rule),
    Folded(Seq<char>),
}

impl View for Matcher {
    type V = Wanted;

    open spec fn view(&self) -> Wanted {
        match self {
            Matcher::Exact(pattern) => Wanted::Exact(pattern@),
            Matcher::Folded(needle) => Wanted::Folded(needle@),
        }
    }
}

/// The byte offsets of what is found in a text, at most `limit` matches.
pub open spec fn file_spans(wanted: Wanted, text: Seq<char>, limit: nat) -> Seq<(int, int)> {
    match wanted {
        Wanted::Exact(rule) => matches_from(rule, text, 0, limit),
        Wanted::Folded(needle) => folded_matches(text, needle, 0, None, limit),
    }
}

/// Whether looking for a folded needle asks if it is cancelled: it does so for
/// any text, and before each search in it.
pub open spec fn asks_folded(text: Seq<char>, needle: Seq<char>, limit: nat) -> bool {
    text.len() > 0 || (needle.len() > 0 && limit > 0)
}

/// Whether looking for what is wanted asks if it is cancelled.
pub open spec fn asks(wanted: Wanted, text: Seq<char>, limit: nat) -> bool {
    match wanted {
        Wanted::Exact(_) => limit > 0,
        Wanted::Folded(needle) => asks_folded(text, needle, limit),
    }
}

/// Finds a folded needle. `None` means that `cancelled` answered so.
pub fn find_case_insensitive<C: Fn() -> bool>(
    contents: &str,
    folded_needle: &[char],
    limit: usize,
    cancelled: &C,
) -> (ranges: Option<Vec<std::ops::Range<usize>>>)
    requires
        cancelled.requires(()),
    ensures
        match ranges {
            Some(found) => {
                &&& spans_of(found@) == folded_matches(
                    contents@,
                    folded_needle@,
                    0,
                    None,
                    limit as nat,
                )
                &&& forall|i: int|
                    0 <= i < found@.len() ==> is_span(contents@, #[trigger] spans_of(found@)[i])
            },
            None => cancelled.ensures((), true),
        },
        asks_folded(contents@, folded_needle@, limit as nat) && always_stops(*cancelled)
            ==> ranges is None,
        !asks_folded(contents@, folded_needle@, limit as nat) ==> ranges is Some,
{
    let ghost text = contents@;
    let chars = chars_of(contents);
    let _bytes = byte_len(contents);
    let offsets = byte_offsets(chars.as_slice());
    let fold = match FoldedText::new_cancellable(Folding::Full, chars.as_slice(), 0, cancelled) {
        Some(fold) => fold,
        None => {
            return None;
        },
    };
    assert(text.skip(0) =~= text);
    let mut ranges: Vec<std::ops::Range<usize>> = Vec::new();
    let mut previous: Option<(usize, usize)> = None;
    let mut at: usize = 0;
    let ghost all = folded_matches(text, folded_needle@, 0, None, limit as nat);
    assert(spans_of(ranges@) + all =~= all);
    if folded_needle.len() == 0 {
        assert(spans_of(ranges@) =~= Seq::<(int, int)>::empty());
        return Some(ranges);
    }
    proof {
        lemma_owners(Folding::Full, text);
    }
    while at <= fold.text.len() && ranges.len() < limit
        invariant
            cancelled.requires(()),
            text == contents@,
            text.len() > 0 || at > 0 || ranges@.len() > 0 ==> !always_stops(*cancelled),
            all == folded_matches(text, folded_needle@, 0, None, limit as nat),
            chars@ == text,
            offsets@.len() == text.len() + 1,
            forall|k: int| 0 <= k <= text.len() ==> #[trigger] offsets@[k] == byte_offset(text, k),
            fold.folds(Folding::Full, text),
            folded_needle@.len() > 0,
            at <= fold.text@.len(),
            ranges@.len() <= limit,
            all == spans_of(ranges@) + folded_matches(
                text,
                folded_needle@,
                at as int,
                match previous {
                    Some((a, b)) => Some((a as int, b as int)),
                    None => None,
                },
                (limit - ranges@.len()) as nat,
            ),
            forall|i: int| 0 <= i < ranges@.len() ==> is_span(text, #[trigger] spans_of(ranges@)[i]),
            forall|i: int|
                0 <= i < owners(Folding::Full, text).len() ==> 0 <= #[trigger] owners(
                    Folding::Full,
                    text,
                )[i] < text.len(),
            forall|i: int, j: int|
                0 <= i <= j < owners(Folding::Full, text).len() ==> #[trigger] owners(
                    Folding::Full,
                    text,
                )[i] <= #[trigger] owners(Folding::Full, text)[j],
            owners(Folding::Full, text).len() == fold.text@.len(),
        decreases fold.text@.len() - at,
    {
        if cancelled() {
            return None;
        }
        proof {
            lemma_next_occurrence(fold.text@, folded_needle@, at as int);
        }
        match find_chars(fold.text.as_slice(), folded_needle, at) {
            None => {
                assert(all =~= spans_of(ranges@));
                return Some(ranges);
            },
            Some(found) => {
                assert(found + folded_needle@.len() <= fold.text.len());
                let end: usize = found + folded_needle.len();
                let ghost stems = owners(Folding::Full, text);
                assert(fold.owners@[found as int] == stems[found as int]);
                assert(fold.owners@[end - 1] == stems[end - 1]);
                assert(fold.owners@[end - 1] < chars.len());
                let first: usize = fold.owners[found];
                let last: usize = fold.owners[end - 1] + 1;
                let start_byte: usize = offsets[first];
                let end_byte: usize = offsets[last];
                let ghost span = stem_span(text, found as int, folded_needle@.len() as int);
                assert(span == (start_byte as int, end_byte as int));
                let seen = match previous {
                    Some((a, b)) => a == start_byte && b == end_byte,
                    None => false,
                };
                let ghost before = ranges@;
                if !seen {
                    proof {
                        lemma_index_at(text, first as int);
                        lemma_index_at(text, last as int);
                        lemma_offsets_increase(text, first as int, last as int);
                    }
                    ranges.push(start_byte..end_byte);
                    previous = Some((start_byte, end_byte));
                    proof {
                        assert(spans_of(ranges@) =~= spans_of(before).push(span));
                        assert forall|i: int| 0 <= i < ranges@.len() implies is_span(
                            text,
                            #[trigger] spans_of(ranges@)[i],
                        ) by {
                            if i < before.len() {
                                assert(spans_of(ranges@)[i] == spans_of(before)[i]);
                            }
                        }
                        assert(all =~= spans_of(ranges@) + folded_matches(
                            text,
                            folded_needle@,
                            end as int,
                            Some(span),
                            (limit - ranges@.len()) as nat,
                        ));
                    }
                }
                at = end;
            },
        }
    }
    assert(all =~= spans_of(ranges@));
    Some(ranges)
}

impl Matcher {
    /// Finds what is wanted. `None` means that `cancelled` answered so.
    fn find<C: Fn() -> bool>(&self, contents: &str, limit: usize, cancelled: &C) -> (ranges: Option<
        Vec<std::ops::Range<usize>>,
    >)
        requires
            cancelled.requires(()),
        ensures
            match ranges {
                Some(found) => {
                    &&& spans_of(found@) == file_spans(self@, contents@, limit as nat)
                    &&& forall|i: int|
                        0 <= i < found@.len() ==> is_span(
                            contents@,
                            #[trigger] spans_of(found@)[i],
                        )
                },
                None => cancelled.ensures((), true),
            },
            asks(self@, contents@, limit as nat) && always_stops(*cancelled) ==> ranges is None,
            !asks(self@, contents@, limit as nat) ==> ranges is Some,
    {
        match self {
            Matcher::Exact(pattern) => pattern.find_spans(contents, limit, cancelled),
            Matcher::Folded(needle) => find_case_insensitive(
                contents,
                needle.as_slice(),
                limit,
                cancelled,
            ),
        }
    }
}

/// Whether a byte stands for a control character that text rarely holds.
pub open spec fn is_binary_control(byte: u8) -> bool {
    byte <= 8 || byte == 11 || byte == 12 || 14 <= byte <= 31 || byte == 127
}

/// How many bytes stand for such control characters.
pub open spec fn control_count(bytes: Seq<u8>) -> nat
    decreases bytes.len(),
{
    if bytes.len() == 0 {
        0
    } else {
        control_count(bytes.drop_last()) + if is_binary_control(bytes.last()) {
            1nat
        } else {
            0nat
        }
    }
}

/// Whether bytes look like binary data: a zero byte, or more than one control
/// character in a hundred bytes.
pub open spec fn binary(bytes: Seq<u8>) -> bool {
    bytes.contains(0) || control_count(bytes) * 100 > bytes.len()
}

/// Computes [`binary`].
pub fn looks_binary(bytes: &[u8]) -> (yes: bool)
    ensures
        yes == binary(bytes@),
{
    let mut controls: usize = 0;
    let mut i: usize = 0;
    assert(bytes@.take(0) =~= Seq::<u8>::empty());
    while i < bytes.len()
        invariant
            i <= bytes@.len(),
            controls <= i,
            controls == control_count(bytes@.take(i as int)),
            forall|k: int| 0 <= k < i ==> bytes@[k] != 0,
        decreases bytes@.len() - i,
    {
        proof {
            assert(bytes@.take(i + 1).drop_last() =~= bytes@.take(i as int));
            assert(bytes@.take(i + 1).last() == bytes@[i as int]);
        }
        let byte = bytes[i];
        if byte == 0 {
            assert(bytes@.contains(bytes@[i as int]));
            return true;
        }
        if byte <= 8 || byte == 11 || byte == 12 || (14 <= byte && byte <= 31) || byte == 127 {
            controls += 1;
        }
        i += 1;
    }
    assert(bytes@.take(i as int) =~= bytes@);
    assert(!bytes@.contains(0));
    match controls.checked_mul(100) {
        Some(product) => product > bytes.len(),
        None => true,
    }
}

/// What reading an indexed file gave.
#[derive(Debug)]
pub enum FileRead {
    /// The content, which is within the read limit.
    Bytes(Vec<u8>),
    /// The content exceeds the read limit.
    TooLarge,
    /// The file could not be read.
    Failed,
}

/// The content of a [`FileRead`].
pub enum Reading {
    Bytes(Seq<u8>),
    TooLarge,
    Failed,
}

impl View for FileRead {
    type V = Reading;

    open spec fn view(&self) -> Reading {
        match self {
            FileRead::Bytes(bytes) => Reading::Bytes(bytes@),
            FileRead::TooLarge => Reading::TooLarge,
            FileRead::Failed => Reading::Failed,
        }
    }
}

/// How a search goes on after a file.
#[derive(Clone, Copy, Debug, PartialEq, Eq, Structural)]
pub enum ScanStep {
    /// With the next file.
    Continue,
    /// Not at all: no further file is read.
    Stop,
    /// Not at all: the search was cancelled.
    Cancelled,
}

/// How many bytes a search reads at most.
#[derive(Clone, Copy, Debug, PartialEq, Eq, Structural)]
pub struct SearchScanLimits {
    pub file_bytes: u64,
    pub total_bytes: u64,
}

/// The limits of a project search.
pub open spec fn default_scan_limits() -> SearchScanLimits {
    SearchScanLimits { file_bytes: MAX_SEARCH_FILE_BYTES, total_bytes: MAX_SEARCH_TOTAL_BYTES }
}

impl Default for SearchScanLimits {
    fn default() -> (limits: Self)
        ensures
            limits == default_scan_limits(),
    {
        SearchScanLimits { file_bytes: MAX_SEARCH_FILE_BYTES, total_bytes: MAX_SEARCH_TOTAL_BYTES }
    }
}

/// A search under way: the caller reads one file after the other and hands over
/// what it read.
#[derive(Debug)]
pub struct SearchScan {
    matcher: Matcher,
    per_file: usize,
    total: usize,
    limits: SearchScanLimits,
    matches: Vec<SearchMatch>,
    scanned_bytes: u64,
    truncated: bool,
}

/// The content of a [`SearchScan`].
#[verifier::ext_equal]
pub struct Scan {
    pub wanted: Wanted,
    pub per_file: usize,
    pub total: usize,
    pub limits: SearchScanLimits,
    pub matches: Seq<Found>,
    pub scanned_bytes: u64,
    pub truncated: bool,
}

impl View for SearchScan {
    type V = Scan;

    closed spec fn view(&self) -> Scan {
        Scan {
            wanted: self.matcher@,
            per_file: self.per_file,
            total: self.total,
            limits: self.limits,
            matches: founds(self.matches@),
            scanned_bytes: self.scanned_bytes,
            truncated: self.truncated,
        }
    }
}

/// What the start of a search gives.
pub enum SearchStart {
    /// The search is over before a file is read.
    Done(SearchOutcome),
    /// Files are to be read.
    Scan(SearchScan),
}

/// What a query looks for, unless it is an expression that cannot be compiled.
pub open spec fn wanted_of(query: Query) -> Option<Wanted> {
    if starts_with(query.text, "re:"@) {
        match rule_for(query.text, query.case_sensitive) {
            Ok(rule) => Some(Wanted::Exact(rule)),
            Err(_) => None,
        }
    } else if query.case_sensitive {
        Some(Wanted::Exact(Rule::Literal { text: query.text, case_sensitive: true }))
    } else {
        Some(Wanted::Folded(folded(Folding::Full, query.text)))
    }
}

/// The largest file that may be read next.
pub open spec fn next_read_limit(scan: Scan) -> u64 {
    let left = if scan.scanned_bytes < scan.limits.total_bytes {
        (scan.limits.total_bytes - scan.scanned_bytes) as u64
    } else {
        0
    };
    if scan.limits.file_bytes < left {
        scan.limits.file_bytes
    } else {
        left
    }
}

/// How many more matches of a file are kept.
pub open spec fn room_for(scan: Scan) -> int {
    let left = if scan.matches.len() < scan.total {
        scan.total - scan.matches.len()
    } else {
        0
    };
    if scan.per_file < left {
        scan.per_file as int
    } else {
        left
    }
}

/// What is reported of each span.
pub open spec fn described_all(path: Seq<u8>, text: Seq<char>, spans: Seq<(int, int)>) -> Seq<
    Found,
> {
    spans.map_values(|span: (int, int)| described(path, text, span))
}

/// A search after a text file was searched, and how it goes on. One match more
/// than is kept is looked for, which tells a complete result from a cut one.
pub open spec fn after_text(scan: Scan, path: Seq<u8>, text: Seq<char>) -> (Scan, ScanStep) {
    let room = room_for(scan);
    let probe = if room < usize::MAX {
        room + 1
    } else {
        room
    };
    let spans = file_spans(scan.wanted, text, probe as nat);
    if spans.len() == 0 {
        (scan, ScanStep::Continue)
    } else if room == 0 {
        (Scan { truncated: true, ..scan }, ScanStep::Stop)
    } else if spans.len() > room {
        (
            Scan {
                truncated: true,
                matches: scan.matches + described_all(path, text, spans.take(room)),
                ..scan
            },
            ScanStep::Continue,
        )
    } else {
        (
            Scan { matches: scan.matches + described_all(path, text, spans), ..scan },
            ScanStep::Continue,
        )
    }
}

/// A search after a file was read, and how it goes on.
pub open spec fn after_read(
    scan: Scan,
    path: Seq<u8>,
    reading: Reading,
    root_intact: bool,
) -> (Scan, ScanStep) {
    let cut = Scan { truncated: true, ..scan };
    match reading {
        Reading::TooLarge => if next_read_limit(scan) < scan.limits.file_bytes || !root_intact {
            (cut, ScanStep::Stop)
        } else {
            (cut, ScanStep::Continue)
        },
        Reading::Failed => if root_intact {
            (cut, ScanStep::Continue)
        } else {
            (cut, ScanStep::Stop)
        },
        Reading::Bytes(bytes) => {
            let scanned = if scan.scanned_bytes + bytes.len() > u64::MAX {
                u64::MAX
            } else {
                (scan.scanned_bytes + bytes.len()) as u64
            };
            let read = Scan { scanned_bytes: scanned, ..scan };
            if binary(bytes) || !valid_utf8(bytes) {
                (Scan { truncated: true, ..read }, ScanStep::Continue)
            } else {
                after_text(read, path, decode_utf8(bytes))
            }
        },
    }
}

/// Starts a search.
///
/// An empty query and a replaced root end it at once; so does an expression
/// that cannot be compiled.
pub fn start_search(
    query: &SearchQuery,
    index_truncated: bool,
    root_intact: bool,
    cancelled: bool,
    limits: SearchScanLimits,
) -> (start: SearchStart)
    ensures
        match start {
            SearchStart::Done(outcome) => {
                &&& outcome.matches@.len() == 0
                &&& query@.text.len() == 0 || !root_intact || wanted_of(query@) is None
                &&& outcome.cancelled == ((query@.text.len() == 0 || !root_intact) && cancelled)
                &&& outcome.truncated == (if query@.text.len() == 0 {
                    index_truncated
                } else {
                    !root_intact
                })
            },
            SearchStart::Scan(scan) => {
                &&& query@.text.len() > 0
                &&& root_intact
                &&& wanted_of(query@) == Some(scan@.wanted)
                &&& scan@ == (Scan {
                    wanted: scan@.wanted,
                    per_file: smaller(query@.max_matches_per_file, MAX_MATCHES_PER_FILE),
                    total: smaller(query@.max_matches_total, MAX_MATCHES_TOTAL),
                    limits,
                    matches: Seq::empty(),
                    scanned_bytes: 0,
                    truncated: index_truncated,
                })
            },
        },
{
    if query.is_empty() {
        return SearchStart::Done(
            SearchOutcome { matches: Vec::new(), cancelled, truncated: index_truncated },
        );
    }
    if !root_intact {
        return SearchStart::Done(
            SearchOutcome { matches: Vec::new(), cancelled, truncated: true },
        );
    }
    let matcher = if has_prefix(query.text.as_str(), "re:") {
        match query.compile_pattern() {
            Ok(pattern) => Matcher::Exact(pattern),
            Err(_) => {
                return SearchStart::Done(
                    SearchOutcome { matches: Vec::new(), cancelled: false, truncated: false },
                );
            },
        }
    } else if query.case_sensitive {
        Matcher::Exact(Pattern::Literal { text: query.text.clone(), case_sensitive: true })
    } else {
        let chars = chars_of(query.text.as_str());
        Matcher::Folded(fold_chars(Folding::Full, chars.as_slice()))
    };
    let (per_file, total) = query.limits();
    let matches: Vec<SearchMatch> = Vec::new();
    assert(founds(matches@) =~= Seq::<Found>::empty());
    SearchStart::Scan(
        SearchScan {
            matcher,
            per_file,
            total,
            limits,
            matches,
            scanned_bytes: 0,
            truncated: index_truncated,
        },
    )
}

/// Whether searching what was read asks if it is cancelled: text is searched.
pub open spec fn asks_file(wanted: Wanted, reading: Reading) -> bool {
    match reading {
        Reading::Bytes(bytes) => !binary(bytes) && valid_utf8(bytes) && asks(
            wanted,
            decode_utf8(bytes),
            1,
        ),
        _ => false,
    }
}

impl SearchScan {
    /// The largest file that may be read next.
    pub fn read_limit(&self) -> (limit: u64)
        ensures
            limit == next_read_limit(self@),
    {
        let left = self.limits.total_bytes.saturating_sub(self.scanned_bytes);
        if self.limits.file_bytes < left {
            self.limits.file_bytes
        } else {
            left
        }
    }

    /// Takes what reading the next file gave. `root_intact` matters only where
    /// the file could not be read.
    pub fn scan_file<C: Fn() -> bool>(
        &mut self,
        path: &[u8],
        read: FileRead,
        root_intact: bool,
        cancelled: &C,
    ) -> (step: ScanStep)
        requires
            cancelled.requires(()),
        ensures
            if step == ScanStep::Cancelled {
                cancelled.ensures((), true)
            } else {
                (final(self)@, step) == after_read(old(self)@, path@, read@, root_intact)
            },
            step == ScanStep::Cancelled ==> final(self)@.matches == old(self)@.matches
                && final(self)@.truncated == old(self)@.truncated,
            asks_file(old(self)@.wanted, read@) && always_stops(*cancelled) ==> step
                == ScanStep::Cancelled,
            !asks_file(old(self)@.wanted, read@) ==> step != ScanStep::Cancelled,
    {
        let limit = self.read_limit();
        let bytes = match read {
            FileRead::TooLarge => {
                let stop = limit < self.limits.file_bytes || !root_intact;
                self.truncated = true;
                return if stop {
                    ScanStep::Stop
                } else {
                    ScanStep::Continue
                };
            },
            FileRead::Failed => {
                self.truncated = true;
                return if root_intact {
                    ScanStep::Continue
                } else {
                    ScanStep::Stop
                };
            },
            FileRead::Bytes(bytes) => bytes,
        };
        self.scanned_bytes = self.scanned_bytes.saturating_add(bytes.len() as u64);
        if looks_binary(bytes.as_slice()) {
            self.truncated = true;
            return ScanStep::Continue;
        }
        let ghost content = bytes@;
        let contents = match text_from_utf8(bytes) {
            Some(contents) => contents,
            None => {
                self.truncated = true;
                return ScanStep::Continue;
            },
        };
        proof {
            encode_utf8_decode_utf8(contents@);
        }
        self.scan_text(path, contents.as_str(), cancelled)
    }

    /// Searches a text file.
    pub fn scan_text<C: Fn() -> bool>(&mut self, path: &[u8], contents: &str, cancelled: &C) -> (step:
        ScanStep)
        requires
            cancelled.requires(()),
        ensures
            if step == ScanStep::Cancelled {
                cancelled.ensures((), true) && final(self)@ == old(self)@
            } else {
                (final(self)@, step) == after_text(old(self)@, path@, contents@)
            },
            asks(old(self)@.wanted, contents@, 1) && always_stops(*cancelled) ==> step
                == ScanStep::Cancelled,
            !asks(old(self)@.wanted, contents@, 1) ==> step != ScanStep::Cancelled,
    {
        let ghost start = self@;
        let ghost text = contents@;
        let left: usize = if self.matches.len() < self.total {
            self.total - self.matches.len()
        } else {
            0
        };
        let room = smaller_of(self.per_file, left);
        assert(room == room_for(start));
        let probe = room.saturating_add(1);
        let ranges = match self.matcher.find(contents, probe, cancelled) {
            Some(ranges) => ranges,
            None => {
                return ScanStep::Cancelled;
            },
        };
        let ghost spans = spans_of(ranges@);
        if ranges.len() == 0 {
            return ScanStep::Continue;
        }
        if room == 0 {
            self.truncated = true;
            return ScanStep::Stop;
        }
        let mut kept: usize = ranges.len();
        if ranges.len() > room {
            kept = room;
            self.truncated = true;
        }
        let ghost before = self.matches@;
        let chars = chars_of(contents);
        let _bytes = byte_len(contents);
        let offsets = byte_offsets(chars.as_slice());
        let mut lines = LineIndex::new(Ghost(text));
        let mut i: usize = 0;
        assert(founds(self.matches@) =~= founds(before) + described_all(path@, text, spans.take(0)));
        while i < kept
            invariant
                i <= kept <= ranges@.len(),
                spans == spans_of(ranges@),
                chars@ == text,
                offsets@.len() == text.len() + 1,
                forall|k: int|
                    0 <= k <= text.len() ==> #[trigger] offsets@[k] == byte_offset(text, k),
                lines.walks(text),
                forall|k: int| 0 <= k < ranges@.len() ==> is_span(text, #[trigger] spans[k]),
                founds(self.matches@) == founds(before) + described_all(
                    path@,
                    text,
                    spans.take(i as int),
                ),
                self.matcher@ == start.wanted,
                self.per_file == start.per_file,
                self.total == start.total,
                self.limits == start.limits,
                self.scanned_bytes == start.scanned_bytes,
                self.truncated == (start.truncated || ranges@.len() > room),
            decreases kept - i,
        {
            let range_start = ranges[i].start;
            let range_end = ranges[i].end;
            let ghost span = spans[i as int];
            assert(span == (range_start as int, range_end as int));
            let from = match index_of_offset(&offsets, range_start, Ghost(text)) {
                Some(from) => from,
                None => 0,
            };
            let to = match index_of_offset(&offsets, range_end, Ghost(text)) {
                Some(to) => to,
                None => 0,
            };
            proof {
                assert(is_span(text, span));
                if to < from {
                    lemma_offsets_increase(text, to as int, from as int);
                }
            }
            let found = lines.describe(path, chars.as_slice(), from, to, range_start..range_end);
            let ghost past = self.matches@;
            self.matches.push(found);
            proof {
                assert(founds(self.matches@) =~= founds(past).push(found@));
                assert(described_all(path@, text, spans.take(i + 1)) =~= described_all(
                    path@,
                    text,
                    spans.take(i as int),
                ).push(described(path@, text, span)));
                assert(founds(self.matches@) =~= founds(before) + described_all(
                    path@,
                    text,
                    spans.take(i + 1),
                ));
            }
            i += 1;
        }
        proof {
            if kept == ranges@.len() {
                assert(spans.take(kept as int) =~= spans);
            }
            assert(self@ =~= after_text(start, path@, text).0);
        }
        ScanStep::Continue
    }

    /// Ends a search.
    pub fn finish(self, root_intact: bool, cancelled: bool) -> (outcome: SearchOutcome)
        ensures
            founds(outcome.matches@) == self@.matches,
            outcome.cancelled == cancelled,
            outcome.truncated == (self@.truncated || !root_intact),
    {
        SearchOutcome {
            matches: self.matches,
            cancelled,
            truncated: self.truncated || !root_intact,
        }
    }

    /// Ends a search that was cancelled on the way.
    pub fn abandon(self) -> (outcome: SearchOutcome)
        ensures
            founds(outcome.matches@) == self@.matches,
            outcome.cancelled,
            outcome.truncated == self@.truncated,
    {
        SearchOutcome { matches: self.matches, cancelled: true, truncated: self.truncated }
    }
}

/// A search never keeps more matches than it may, in total or of one file, and
/// what it kept before stays. Where it leaves a match out, it says so.
pub proof fn law_search_is_capped(scan: Scan, path: Seq<u8>, reading: Reading, root_intact: bool)
    requires
        scan.matches.len() <= scan.total,
    ensures
        ({
            let after = after_read(scan, path, reading, root_intact).0;
            &&& after.matches.len() <= scan.total
            &&& after.matches.len() - scan.matches.len() <= scan.per_file
            &&& scan.matches.len() <= after.matches.len()
            &&& after.matches.take(scan.matches.len() as int) == scan.matches
            &&& scan.truncated ==> after.truncated
        }),
{
    let after = after_read(scan, path, reading, root_intact).0;
    assert(after.matches.take(scan.matches.len() as int) =~= scan.matches);
}

/// A file that cannot be searched makes the result partial.
pub proof fn law_unsearched_file_is_reported(
    scan: Scan,
    path: Seq<u8>,
    reading: Reading,
    root_intact: bool,
)
    requires
        match reading {
            Reading::Bytes(bytes) => binary(bytes) || !valid_utf8(bytes),
            _ => true,
        },
    ensures
        after_read(scan, path, reading, root_intact).0.truncated,
        after_read(scan, path, reading, root_intact).0.matches == scan.matches,
{
}

/// The generation after `current`: zero stands for none.
pub open spec fn next_generation(current: u64) -> u64 {
    if current == u64::MAX {
        1
    } else {
        (current + 1) as u64
    }
}

/// Computes [`next_generation`].
pub fn increment_nonzero(current: u64) -> (next: u64)
    ensures
        next == next_generation(current),
        next > 0,
{
    if current == u64::MAX {
        1
    } else {
        current + 1
    }
}

/// Search generation. Calling [`SearchGeneration::next`] invalidates every
/// token previously made from this value. There is one value for all who share
/// it, so it is not copied.
#[derive(Debug)]
pub struct SearchGeneration {
    current: u64,
}

impl View for SearchGeneration {
    type V = u64;

    closed spec fn view(&self) -> u64 {
        self.current
    }
}

impl Default for SearchGeneration {
    fn default() -> (generation: Self)
        ensures
            generation@ == 0,
    {
        SearchGeneration { current: 0 }
    }
}

impl SearchGeneration {
    /// No generation yet.
    pub fn new() -> (generation: Self)
        ensures
            generation@ == 0,
    {
        SearchGeneration { current: 0 }
    }

    /// Starts and returns a new current generation.
    pub fn next(&mut self) -> (token: SearchToken)
        ensures
            final(self)@ == next_generation(old(self)@),
            token@ == final(self)@,
    {
        self.current = increment_nonzero(self.current);
        SearchToken { generation: self.current }
    }

    /// Returns a token for the current generation without advancing it.
    pub fn token(&self) -> (token: SearchToken)
        ensures
            token@ == self@,
    {
        SearchToken { generation: self.current }
    }

    /// Invalidates all outstanding tokens.
    pub fn cancel(&mut self)
        ensures
            final(self)@ == next_generation(old(self)@),
    {
        self.current = increment_nonzero(self.current);
    }

    /// The current generation.
    pub fn current(&self) -> (generation: u64)
        ensures
            generation == self@,
    {
        self.current
    }
}

/// An immutable view of one search generation.
#[derive(Clone, Debug)]
pub struct SearchToken {
    generation: u64,
}

impl View for SearchToken {
    type V = u64;

    closed spec fn view(&self) -> u64 {
        self.generation
    }
}

impl SearchToken {
    /// The generation that the token was made from.
    pub fn generation(&self) -> (generation: u64)
        ensures
            generation == self@,
    {
        self.generation
    }

    /// Whether another generation has become the current one.
    pub fn is_cancelled(&self, generation: &SearchGeneration) -> (yes: bool)
        ensures
            yes == (self@ != generation@),
    {
        generation.current != self.generation
    }
}

/// A new generation invalidates the token of the one before.
pub proof fn law_next_generation_cancels(current: u64)
    ensures
        next_generation(current) != current,
        next_generation(current) != 0,
{
}

/// The generation after as many steps from `current` on.
pub open spec fn generation_after(current: u64, steps: nat) -> u64
    decreases steps,
{
    if steps == 0 {
        current
    } else {
        next_generation(generation_after(current, (steps - 1) as nat))
    }
}

/// A token that was cancelled stays so over all later steps, as long as there
/// are fewer of them than there are generations.
pub proof fn law_cancelled_token_stays_cancelled(current: u64, steps: nat)
    requires
        0 < steps < u64::MAX,
    ensures
        generation_after(current, steps) != current,
        generation_after(current, steps) != 0,
{
    lemma_generation_after(current, steps);
}

proof fn lemma_generation_after(current: u64, steps: nat)
    requires
        steps < u64::MAX,
    ensures
        generation_after(current, steps) == (if current + steps <= u64::MAX {
            current + steps
        } else {
            current + steps - u64::MAX
        }),
    decreases steps,
{
    if steps > 0 {
        lemma_generation_after(current, (steps - 1) as nat);
    }
}

/// Identifier copied into every background result so the UI can reject races.
pub type SearchQueryId = u64;

/// A queued worker request. Construct requests through [`SearchRequestSender`].
#[derive(Clone, Debug)]
pub struct SearchRequest {
    pub query_id: SearchQueryId,
    pub query: SearchQuery,
}

/// The content of a [`SearchRequest`].
pub struct Request {
    pub query_id: u64,
    pub query: Query,
}

impl View for SearchRequest {
    type V = Request;

    open spec fn view(&self) -> Request {
        Request { query_id: self.query_id, query: self.query@ }
    }
}

/// A completed background result.
#[derive(Debug, PartialEq, Eq)]
pub struct SearchResult {
    pub query_id: SearchQueryId,
    pub matches: Vec<SearchMatch>,
    pub truncated: bool,
}

impl Clone for SearchResult {
    fn clone(&self) -> (copy: Self)
        ensures
            copy.query_id == self.query_id,
            founds(copy.matches@) == founds(self.matches@),
            copy.truncated == self.truncated,
    {
        SearchResult {
            query_id: self.query_id,
            matches: copy_matches(&self.matches),
            truncated: self.truncated,
        }
    }
}

impl SearchResult {
    /// Whether a later query has superseded this one.
    pub fn is_stale(&self, latest_query_id: SearchQueryId) -> (yes: bool)
        ensures
            yes == (self.query_id != latest_query_id),
    {
        self.query_id != latest_query_id
    }

    /// Whether the result may be shown: there is no latest query, or this is
    /// its result.
    pub fn is_relevant(&self, latest_query_id: Option<SearchQueryId>) -> (yes: bool)
        ensures
            yes == (latest_query_id is None || latest_query_id == Some(self.query_id)),
    {
        match latest_query_id {
            Some(latest) => !self.is_stale(latest),
            None => true,
        }
    }
}

/// Error returned when a background search worker has stopped.
#[derive(Clone, Copy, Debug, PartialEq, Eq, Structural)]
pub struct SearchWorkerDisconnected;

impl SearchWorkerDisconnected {
    /// What the error says.
    pub fn describe(&self) -> (words: String)
        ensures
            words@ == "project search worker has stopped"@,
    {
        copy_text("project search worker has stopped")
    }
}

/// The producer side of a search worker: the current generation, the latest
/// query, and the requests that the worker has not taken yet.
#[derive(Debug)]
pub struct SearchRequestSender {
    generation: SearchGeneration,
    latest: u64,
    waiting: Vec<SearchRequest>,
    stopped: bool,
}

/// The content of a [`SearchRequestSender`].
#[verifier::ext_equal]
pub struct SenderState {
    pub generation: u64,
    pub latest: u64,
    pub waiting: Seq<Request>,
    pub stopped: bool,
}

/// The contents of requests.
pub open spec fn requests_of(requests: Seq<SearchRequest>) -> Seq<Request> {
    requests.map_values(|request: SearchRequest| request@)
}

impl View for SearchRequestSender {
    type V = SenderState;

    closed spec fn view(&self) -> SenderState {
        SenderState {
            generation: self.generation@,
            latest: self.latest,
            waiting: requests_of(self.waiting@),
            stopped: self.stopped,
        }
    }
}

/// The larger of two identifiers.
pub open spec fn later(a: u64, b: u64) -> u64 {
    if a < b {
        b
    } else {
        a
    }
}

/// The index of the request with the highest identifier, the first of several.
pub open spec fn newest(requests: Seq<Request>) -> int
    decreases requests.len(),
{
    if requests.len() <= 1 {
        0
    } else {
        let best = newest(requests.drop_last());
        if requests.last().query_id > requests[best].query_id {
            requests.len() - 1
        } else {
            best
        }
    }
}

impl SearchRequestSender {
    /// For a worker that just started.
    pub fn new() -> (sender: Self)
        ensures
            sender@ == (SenderState {
                generation: 0,
                latest: 0,
                waiting: Seq::empty(),
                stopped: false,
            }),
            sender_holds(sender@),
    {
        let waiting: Vec<SearchRequest> = Vec::new();
        assert(requests_of(waiting@) =~= Seq::<Request>::empty());
        SearchRequestSender {
            generation: SearchGeneration::new(),
            latest: 0,
            waiting,
            stopped: false,
        }
    }

    /// Submits a query, immediately cancelling all older generations.
    pub fn send(&mut self, query: SearchQuery) -> (result: Result<
        SearchQueryId,
        SearchWorkerDisconnected,
    >)
        ensures
            final(self)@ == submitted(old(self)@, query@),
            match result {
                Ok(id) => !old(self)@.stopped && id == next_generation(old(self)@.generation),
                Err(_) => old(self)@.stopped,
            },
    {
        let token = self.generation.next();
        let query_id = token.generation();
        if self.latest < query_id {
            self.latest = query_id;
        }
        if self.stopped {
            return Err(SearchWorkerDisconnected);
        }
        let ghost before = self.waiting@;
        let request = SearchRequest { query_id, query };
        self.waiting.push(request);
        assert(requests_of(self.waiting@) =~= requests_of(before).push(request@));
        Ok(query_id)
    }

    /// Cancels every search. Cancellation is itself a superseding generation,
    /// so a result that was completed just before is stale as well.
    pub fn cancel(&mut self)
        ensures
            final(self)@ == superseded(old(self)@),
    {
        self.generation.cancel();
        let current = self.generation.current();
        if self.latest < current {
            self.latest = current;
        }
    }

    /// The identifier of the latest query, if there was one.
    pub fn latest_query_id(&self) -> (id: Option<SearchQueryId>)
        ensures
            id == (if self@.latest == 0 {
                None
            } else {
                Some(self@.latest)
            }),
    {
        if self.latest == 0 {
            None
        } else {
            Some(self.latest)
        }
    }

    /// Whether a search of this generation has been superseded.
    pub fn is_superseded(&self, query_id: SearchQueryId) -> (yes: bool)
        ensures
            yes == (self@.generation != query_id),
    {
        self.generation.current() != query_id
    }

    /// Ends the worker: no request is taken from now on.
    pub fn stop(&mut self)
        ensures
            final(self)@ == (SenderState { stopped: true, ..old(self)@ }),
    {
        self.stopped = true;
    }

    /// Whether the worker was ended.
    pub fn is_stopped(&self) -> (yes: bool)
        ensures
            yes == self@.stopped,
    {
        self.stopped
    }

    /// Takes the newest of the waiting requests and drops the others: bursts of
    /// keystrokes collapse. A stopped worker takes none.
    pub fn take_newest(&mut self) -> (request: Option<SearchRequest>)
        ensures
            match request {
                Some(taken) => {
                    &&& !old(self)@.stopped
                    &&& old(self)@.waiting.len() > 0
                    &&& taken@ == old(self)@.waiting[newest(old(self)@.waiting)]
                    &&& final(self)@ == (SenderState { waiting: Seq::empty(), ..old(self)@ })
                },
                None => {
                    &&& old(self)@.stopped || old(self)@.waiting.len() == 0
                    &&& final(self)@ == old(self)@
                },
            },
    {
        if self.stopped || self.waiting.len() == 0 {
            return None;
        }
        let ghost requests = self@.waiting;
        let mut best: usize = 0;
        let mut i: usize = 1;
        assert(requests.take(1).len() == 1);
        while i < self.waiting.len()
            invariant
                1 <= i <= self.waiting@.len(),
                requests == requests_of(self.waiting@),
                best < i,
                best == newest(requests.take(i as int)),
            decreases self.waiting@.len() - i,
        {
            proof {
                assert(requests.take(i + 1).drop_last() =~= requests.take(i as int));
                assert(requests[i as int] == self.waiting@[i as int]@);
                assert(requests[best as int] == self.waiting@[best as int]@);
            }
            if self.waiting[i].query_id > self.waiting[best].query_id {
                best = i;
            }
            i += 1;
        }
        assert(requests.take(i as int) =~= requests);
        let mut waiting: Vec<SearchRequest> = Vec::new();
        std::mem::swap(&mut waiting, &mut self.waiting);
        assert(requests_of(self.waiting@) =~= Seq::<Request>::empty());
        let request = waiting.swap_remove(best);
        Some(request)
    }
}

/// No waiting request is newer than the one that the worker takes.
pub proof fn law_newest_request_is_taken(requests: Seq<Request>, i: int)
    requires
        0 <= i < requests.len(),
    ensures
        0 <= newest(requests) < requests.len(),
        requests[i].query_id <= requests[newest(requests)].query_id,
    decreases requests.len(),
{
    if requests.len() > 1 {
        if i < requests.len() - 1 {
            law_newest_request_is_taken(requests.drop_last(), i);
        } else {
            law_newest_request_is_taken(requests.drop_last(), 0);
        }
    }
}

/// What holds of a sender until generations start again: no identifier was given
/// out beyond the current generation.
pub open spec fn sender_holds(state: SenderState) -> bool {
    &&& state.latest <= state.generation
    &&& forall|i: int|
        0 <= i < state.waiting.len() ==> (#[trigger] state.waiting[i]).query_id <= state.latest
}

/// A sender after its next generation began.
pub open spec fn superseded(state: SenderState) -> SenderState {
    let id = next_generation(state.generation);
    SenderState { generation: id, latest: later(state.latest, id), ..state }
}

/// A sender after a query was submitted.
pub open spec fn submitted(state: SenderState, query: Query) -> SenderState {
    if state.stopped {
        superseded(state)
    } else {
        SenderState {
            waiting: state.waiting.push(
                Request { query_id: next_generation(state.generation), query },
            ),
            ..superseded(state)
        }
    }
}

/// Each identifier exceeds every earlier one, whether it was given to a query or
/// taken by a cancellation, as long as generations do not start again.
pub proof fn law_identifiers_increase(state: SenderState, query: Query)
    requires
        sender_holds(state),
        state.generation < u64::MAX,
    ensures
        next_generation(state.generation) > state.latest,
        forall|i: int|
            0 <= i < state.waiting.len() ==> (#[trigger] state.waiting[i]).query_id
                < next_generation(state.generation),
        superseded(state).latest == next_generation(state.generation),
        sender_holds(superseded(state)),
        submitted(state, query).latest == next_generation(state.generation),
        sender_holds(submitted(state, query)),
{
}

/// After a cancellation, no result of an earlier query is relevant any more, as
/// long as generations do not start again.
pub proof fn law_cancellation_outdates_results(generation: u64, latest: u64, query_id: u64)
    requires
        query_id <= latest <= generation < u64::MAX,
    ensures
        later(latest, next_generation(generation)) != query_id,
{
}

} // verus!
