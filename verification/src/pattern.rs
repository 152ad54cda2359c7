//! Shared find and replace patterns.
//!
//! Default mode remains literal. Prefix a pattern with `re:` for a regular
//! expression, or `re:i:` for a case-insensitive regular expression.
use vstd::prelude::*;

use crate::find::{
    always_stops, byte_offsets, find_chars, find_chars_before, fold_chars, folded, index_at,
    index_of_offset, last_occurrence, lemma_folded_add, lemma_index_at, lemma_next_occurrence,
    lemma_offset_ends, lemma_offsets_increase, lemma_owner_range, lemma_owners, next_occurrence,
    occurs, on_boundary, owners, FoldedText, Folding,
};
use crate::text::{
    byte_len, byte_offset, chars_of, copy_text, decimal, push_decimal, text_of, utf8_len,
};

verus! {

/// Largest pattern source accepted for compilation.
pub const MAX_PATTERN_BYTES: usize = 4 * 1024;

/// Largest compiled program the regex engine may allocate.
pub const MAX_REGEX_SIZE_LIMIT: usize = 1024 * 1024;

/// Largest cache of the regex engine's lazy automaton.
pub const MAX_REGEX_DFA_SIZE_LIMIT: usize = 1024 * 1024;

/// A compiled regular expression of the `regex` crate.
#[verifier::external_type_specification]
#[verifier::external_body]
pub struct ExRegex(regex::Regex);

/// Why the `regex` crate refused an expression.
#[verifier::external_type_specification]
#[verifier::external_body]
pub struct ExRegexError(regex::Error);

/// One match of the `regex` crate with its capture groups.
#[verifier::external_type_specification]
#[verifier::external_body]
pub struct ExCaptures<'h>(regex::Captures<'h>);

/// How an expression is compiled.
#[derive(Clone, Copy, Debug, PartialEq, Eq, Structural)]
pub struct RegexOptions {
    pub case_insensitive: bool,
    pub size_limit: usize,
    pub dfa_size_limit: usize,
    pub unicode: bool,
    pub multi_line: bool,
}

/// What a regular expression is made of.
pub struct Expression {
    pub source: Seq<char>,
    pub options: RegexOptions,
}

/// What a `regex::Regex` was compiled from.
pub uninterp spec fn made_from(regex: regex::Regex) -> Expression;

/// What a `regex::Error` says.
pub uninterp spec fn error_text(error: regex::Error) -> Seq<char>;

/// Which match of which search a `regex::Captures` belongs to: the expression,
/// the text and the number of the match.
pub uninterp spec fn taken_from(captures: regex::Captures<'_>) -> (Expression, Seq<char>, int);

/// What `regex::RegexBuilder::build` has against an expression.
pub uninterp spec fn refusal(expression: Expression) -> Option<Seq<char>>;

/// What `regex::Regex::find_at` returns: the byte offsets of the first match
/// that starts at an offset or behind it. What stands before counts as context.
pub uninterp spec fn match_from(expression: Expression, text: Seq<char>, from: int) -> Option<
    (int, int),
>;

/// What `regex::Regex::find_iter` yields: the byte offsets of each match.
pub uninterp spec fn every_match(expression: Expression, text: Seq<char>) -> Seq<(int, int)>;

/// What `regex::Captures::expand` appends for a match, by its number, and a
/// template.
pub uninterp spec fn expansion(
    expression: Expression,
    text: Seq<char>,
    number: int,
    template: Seq<char>,
) -> Seq<char>;

/// `regex::RegexBuilder::build`: compiles a source with these options, or says
/// what is wrong with it. What exceeds the size limits is counted in bytes of
/// the target.
#[verifier::external_body]
fn build_regex(source: &str, options: RegexOptions) -> (result: Result<regex::Regex, regex::Error>)
    ensures
        match result {
            Ok(regex) => made_from(regex) == (Expression { source: source@, options }) && refusal(
                Expression { source: source@, options },
            ) is None,
            Err(error) => refusal(Expression { source: source@, options }) == Some(
                error_text(error),
            ),
        },
{
    regex::RegexBuilder::new(source)
        .case_insensitive(options.case_insensitive)
        .size_limit(options.size_limit)
        .dfa_size_limit(options.dfa_size_limit)
        .unicode(options.unicode)
        .multi_line(options.multi_line)
        .build()
}

/// `regex::Regex`'s `Clone`: the same expression again.
#[verifier::external_body]
fn copy_regex(regex: &regex::Regex) -> (copy: regex::Regex)
    ensures
        made_from(copy) == made_from(*regex),
{
    regex.clone()
}

/// `regex::Error`'s `Display`: what the error says.
#[verifier::external_body]
fn refusal_text(error: &regex::Error) -> (words: String)
    ensures
        words@ == error_text(*error),
{
    error.to_string()
}

/// Whether byte offsets enclose a part of a text.
pub open spec fn is_span(text: Seq<char>, span: (int, int)) -> bool {
    &&& span.0 <= span.1
    &&& on_boundary(text, span.0)
    &&& on_boundary(text, span.1)
}

/// `regex::Regex::find_at`: the first match from an offset on. Its offsets lie
/// between scalar values. It panics where the offset lies beyond the text.
#[verifier::external_body]
fn find_next(regex: &regex::Regex, text: &str, from: usize) -> (span: Option<(usize, usize)>)
    requires
        from <= utf8_len(text@),
        on_boundary(text@, from as int),
    ensures
        match (span, match_from(made_from(*regex), text@, from as int)) {
            (Some((start, end)), Some(found)) => found == (start as int, end as int) && is_span(
                text@,
                found,
            ) && from <= start,
            (None, None) => true,
            _ => false,
        },
{
    regex.find_at(text, from).map(|found| (found.start(), found.end()))
}

/// `regex::Regex::find_iter`: the offsets of each match from left to right, none
/// of which overlaps another. They lie between scalar values.
#[verifier::external_body]
fn find_every(regex: &regex::Regex, text: &str) -> (spans: Vec<(usize, usize)>)
    ensures
        spans@.len() == every_match(made_from(*regex), text@).len(),
        forall|i: int|
            0 <= i < spans@.len() ==> every_match(made_from(*regex), text@)[i] == (
                (#[trigger] spans@[i]).0 as int,
                spans@[i].1 as int,
            ) && is_span(text@, (spans@[i].0 as int, spans@[i].1 as int)),
        forall|i: int, j: int|
            0 <= i < j < spans@.len() ==> (#[trigger] spans@[i]).1 <= (#[trigger] spans@[j]).0,
{
    regex.find_iter(text).map(|found| (found.start(), found.end())).collect()
}

/// The byte offsets of the match that captures belong to.
pub open spec fn capture_span(captures: regex::Captures<'_>) -> (int, int) {
    let (expression, text, number) = taken_from(captures);
    every_match(expression, text)[number]
}

/// `regex::Captures::get_match`: the offsets of the whole match.
#[verifier::external_body]
fn span_of(captures: &regex::Captures<'_>) -> (span: (usize, usize))
    ensures
        capture_span(*captures) == (span.0 as int, span.1 as int),
{
    (captures.get_match().start(), captures.get_match().end())
}

/// `regex::Regex::captures_iter`: the matches that `regex::Regex::find_iter`
/// yields, with their groups. Each stands behind the one before it, and their
/// offsets lie between scalar values.
#[verifier::external_body]
fn capture_all<'h>(regex: &regex::Regex, text: &'h str) -> (list: Vec<regex::Captures<'h>>)
    ensures
        list@.len() == every_match(made_from(*regex), text@).len(),
        forall|i: int|
            0 <= i < list@.len() ==> taken_from(#[trigger] list@[i]) == (
                made_from(*regex),
                text@,
                i,
            ),
        forall|i: int|
            0 <= i < list@.len() ==> is_span(text@, capture_span(#[trigger] list@[i])),
        forall|i: int, j: int|
            0 <= i < j < list@.len() ==> capture_span(#[trigger] list@[i]).1 <= capture_span(
                #[trigger] list@[j],
            ).0,
{
    regex.captures_iter(text).collect()
}

/// `regex::Captures::expand`: the template with the groups put in.
#[verifier::external_body]
fn expand(captures: &regex::Captures<'_>, template: &str) -> (words: String)
    ensures
        ({
            let (expression, text, number) = taken_from(*captures);
            words@ == expansion(expression, text, number, template@)
        }),
{
    let mut words = String::new();
    captures.expand(template, &mut words);
    words
}

/// Why a pattern cannot be used.
#[derive(Clone, Debug, PartialEq, Eq)]
pub enum PatternError {
    Empty,
    TooLarge { bytes: usize, limit: usize },
    InvalidRegex { message: String },
}

/// The content of a [`PatternError`].
pub enum PatternFault {
    Empty,
    TooLarge { bytes: usize, limit: usize },
    InvalidRegex { message: Seq<char> },
}

impl View for PatternError {
    type V = PatternFault;

    open spec fn view(&self) -> PatternFault {
        match self {
            PatternError::Empty => PatternFault::Empty,
            PatternError::TooLarge { bytes, limit } => PatternFault::TooLarge {
                bytes: *bytes,
                limit: *limit,
            },
            PatternError::InvalidRegex { message } => PatternFault::InvalidRegex {
                message: message@,
            },
        }
    }
}

/// The words for a pattern error.
pub open spec fn pattern_words(fault: PatternFault) -> Seq<char> {
    match fault {
        PatternFault::Empty => "search pattern is empty"@,
        PatternFault::TooLarge { bytes, limit } => "search pattern is "@ + decimal(bytes as nat)
            + " bytes; limit is "@ + decimal(limit as nat) + " bytes"@,
        PatternFault::InvalidRegex { message } => "invalid regular expression: "@ + message,
    }
}

impl PatternError {
    /// What the error says.
    pub fn describe(&self) -> (words: String)
        ensures
            words@ == pattern_words(self@),
    {
        let mut words = String::new();
        match self {
            PatternError::Empty => {
                words.push_str("search pattern is empty");
            },
            PatternError::TooLarge { bytes, limit } => {
                words.push_str("search pattern is ");
                push_decimal(&mut words, *bytes as u64);
                words.push_str(" bytes; limit is ");
                push_decimal(&mut words, *limit as u64);
                words.push_str(" bytes");
            },
            PatternError::InvalidRegex { message } => {
                words.push_str("invalid regular expression: ");
                words.push_str(message.as_str());
            },
        }
        assert(words@ =~= pattern_words(self@));
        words
    }
}

/// A compiled find pattern used by buffer search, project search, and replace.
#[derive(Debug)]
pub enum Pattern {
    Literal { text: String, case_sensitive: bool },
    Regex(regex::Regex),
}

/// The content of a [`Pattern`].
pub enum Rule {
    Literal { text: Seq<char>, case_sensitive: bool },
    Regex(Expression),
}

impl View for Pattern {
    type V = Rule;

    open spec fn view(&self) -> Rule {
        match self {
            Pattern::Literal { text, case_sensitive } => Rule::Literal {
                text: text@,
                case_sensitive: *case_sensitive,
            },
            Pattern::Regex(regex) => Rule::Regex(made_from(*regex)),
        }
    }
}

impl Clone for Pattern {
    fn clone(&self) -> (copy: Self)
        ensures
            copy@ == self@,
    {
        match self {
            Pattern::Literal { text, case_sensitive } => Pattern::Literal {
                text: text.clone(),
                case_sensitive: *case_sensitive,
            },
            Pattern::Regex(regex) => Pattern::Regex(copy_regex(regex)),
        }
    }
}

/// How this library compiles expressions.
pub open spec fn regex_options(case_sensitive: bool) -> RegexOptions {
    RegexOptions {
        case_insensitive: !case_sensitive,
        size_limit: MAX_REGEX_SIZE_LIMIT,
        dfa_size_limit: MAX_REGEX_DFA_SIZE_LIMIT,
        unicode: true,
        multi_line: true,
    }
}

/// The rule that a compilation gives.
pub open spec fn rule_of(result: Result<regex::Regex, regex::Error>) -> Result<Rule, PatternFault> {
    match result {
        Ok(regex) => Ok(Rule::Regex(made_from(regex))),
        Err(error) => Err(PatternFault::InvalidRegex { message: error_text(error) }),
    }
}

/// The rule of a regular expression.
pub open spec fn regex_rule(source: Seq<char>, case_sensitive: bool) -> Result<Rule, PatternFault> {
    if source.len() == 0 {
        Err(PatternFault::Empty)
    } else {
        let expression = Expression { source, options: regex_options(case_sensitive) };
        match refusal(expression) {
            None => Ok(Rule::Regex(expression)),
            Some(message) => Err(PatternFault::InvalidRegex { message }),
        }
    }
}

/// Whether a text starts with another.
pub open spec fn starts_with(text: Seq<char>, prefix: Seq<char>) -> bool {
    occurs(text, prefix, 0)
}

/// The rule that a user pattern stands for.
pub open spec fn rule_for(input: Seq<char>, default_case_sensitive: bool) -> Result<
    Rule,
    PatternFault,
> {
    if input.len() == 0 {
        Err(PatternFault::Empty)
    } else if utf8_len(input) > MAX_PATTERN_BYTES {
        Err(PatternFault::TooLarge { bytes: utf8_len(input) as usize, limit: MAX_PATTERN_BYTES })
    } else if starts_with(input, "re:i:"@) {
        regex_rule(input.skip(5), false)
    } else if starts_with(input, "re:"@) {
        regex_rule(input.skip(3), true)
    } else {
        Ok(Rule::Literal { text: input, case_sensitive: default_case_sensitive })
    }
}

/// Whether a result has this content.
pub open spec fn pattern_is(
    result: Result<Pattern, PatternError>,
    expected: Result<Rule, PatternFault>,
) -> bool {
    match (result, expected) {
        (Ok(pattern), Ok(rule)) => pattern@ == rule,
        (Err(error), Err(fault)) => error@ == fault,
        _ => false,
    }
}

/// Whether a text starts with another.
pub fn has_prefix(text: &str, prefix: &str) -> (yes: bool)
    ensures
        yes == starts_with(text@, prefix@),
{
    let chars = chars_of(text);
    let wanted = chars_of(prefix);
    let mut i: usize = 0;
    if wanted.len() > chars.len() {
        return false;
    }
    while i < wanted.len()
        invariant
            i <= wanted@.len() <= chars@.len(),
            chars@ == text@,
            wanted@ == prefix@,
            forall|k: int| 0 <= k < i ==> #[trigger] wanted@[k] == chars@[k],
        decreases wanted@.len() - i,
    {
        if chars[i] != wanted[i] {
            assert(text@.subrange(0, 0int + prefix@.len())[i as int] != prefix@[i as int]);
            return false;
        }
        i += 1;
    }
    assert(text@.subrange(0, 0int + prefix@.len()) =~= prefix@);
    true
}

/// The part of a text behind its first scalar values.
fn without_start(text: &str, count: usize) -> (rest: String)
    requires
        count <= text@.len(),
    ensures
        rest@ == text@.skip(count as int),
{
    let chars = chars_of(text);
    assert(chars@.subrange(count as int, chars@.len() as int) =~= text@.skip(count as int));
    text_of(chars.as_slice(), count, chars.len())
}

/// Where the part of a folded text that equals `needle` stems from: the indexes
/// of the first scalar value and behind the last one.
pub open spec fn folded_span(folding: Folding, text: Seq<char>, needle: Seq<char>) -> Option<
    (int, int),
> {
    if needle.len() == 0 {
        None
    } else {
        match next_occurrence(folded(folding, text), needle, 0) {
            Some(at) => Some(
                (owners(folding, text)[at], owners(folding, text)[at + needle.len() - 1] + 1),
            ),
            None => None,
        }
    }
}

/// The byte offsets of the first match of a rule from index `from` on.
pub open spec fn found_at(rule: Rule, text: Seq<char>, from: int) -> Option<(int, int)> {
    match rule {
        Rule::Literal { text: needle, case_sensitive: true } => match next_occurrence(
            text,
            needle,
            from,
        ) {
            Some(at) => Some(
                (byte_offset(text, at) as int, byte_offset(text, at + needle.len()) as int),
            ),
            None => None,
        },
        Rule::Literal { text: needle, case_sensitive: false } => match folded_span(
            Folding::Lower,
            text.skip(from),
            folded(Folding::Lower, needle),
        ) {
            Some((start, end)) => Some(
                (byte_offset(text, from + start) as int, byte_offset(text, from + end) as int),
            ),
            None => None,
        },
        Rule::Regex(expression) => match_from(expression, text, byte_offset(text, from) as int),
    }
}

/// Where a search goes on after a match: behind it, or one scalar value further
/// where it is empty.
pub open spec fn next_start(text: Seq<char>, span: (int, int)) -> int {
    let end = index_at(text, span.1);
    if span.0 != span.1 || end == text.len() {
        end
    } else {
        end + 1
    }
}

/// The byte offsets of the matches of a rule from index `from` on, at most
/// `limit` of them, none of which overlaps another.
pub open spec fn matches_from(rule: Rule, text: Seq<char>, from: int, limit: nat) -> Seq<(int, int)>
    decreases limit,
{
    if limit == 0 {
        Seq::empty()
    } else {
        match found_at(rule, text, from) {
            None => Seq::empty(),
            Some(span) => if next_start(text, span) <= from {
                seq![span]
            } else {
                seq![span] + matches_from(
                    rule,
                    text,
                    next_start(text, span),
                    (limit - 1) as nat,
                )
            },
        }
    }
}

/// Ranges as pairs of offsets.
pub open spec fn spans_of(ranges: Seq<std::ops::Range<usize>>) -> Seq<(int, int)> {
    ranges.map_values(|range: std::ops::Range<usize>| (range.start as int, range.end as int))
}

/// The offset at which a search from `from_byte` starts.
pub open spec fn start_offset(text: Seq<char>, from_byte: usize) -> int {
    if from_byte <= utf8_len(text) {
        from_byte as int
    } else {
        utf8_len(text) as int
    }
}

/// Whether a range has this content.
pub open spec fn range_is(
    range: Option<std::ops::Range<usize>>,
    expected: Option<(int, int)>,
) -> bool {
    match (range, expected) {
        (Some(found), Some(span)) => span == (found.start as int, found.end as int),
        (None, None) => true,
        _ => false,
    }
}

/// A text whose scalar values and byte offsets are at hand.
struct Haystack<'h> {
    text: &'h str,
    chars: Vec<char>,
    offsets: Vec<usize>,
}

impl<'h> Haystack<'h> {
    spec fn valid(&self) -> bool {
        &&& self.chars@ == self.text@
        &&& self.offsets@.len() == self.text@.len() + 1
        &&& forall|k: int|
            0 <= k <= self.text@.len() ==> #[trigger] self.offsets@[k] == byte_offset(
                self.text@,
                k,
            )
    }

    fn new(text: &'h str) -> (haystack: Self)
        ensures
            haystack.valid(),
            haystack.text@ == text@,
            haystack.text == text,
    {
        let chars = chars_of(text);
        let _bytes = byte_len(text);
        let offsets = byte_offsets(chars.as_slice());
        Haystack { text, chars, offsets }
    }

    /// The index at a byte offset that falls between two scalar values.
    fn index(&self, offset: usize) -> (index: usize)
        requires
            self.valid(),
            on_boundary(self.text@, offset as int),
        ensures
            index == index_at(self.text@, offset as int),
            index <= self.text@.len(),
            byte_offset(self.text@, index as int) == offset,
    {
        match index_of_offset(&self.offsets, offset, Ghost(self.text@)) {
            Some(index) => index,
            None => 0,
        }
    }
}

impl Pattern {
    /// Parse a user pattern.
    ///
    /// `default_case_sensitive` applies only to literal patterns. Regex
    /// case-sensitivity is controlled by the `re:` / `re:i:` prefix.
    pub fn parse(input: &str, default_case_sensitive: bool) -> (result: Result<
        Pattern,
        PatternError,
    >)
        ensures
            pattern_is(result, rule_for(input@, default_case_sensitive)),
    {
        if input.is_empty() {
            return Err(PatternError::Empty);
        }
        let bytes = byte_len(input);
        if bytes > MAX_PATTERN_BYTES {
            return Err(PatternError::TooLarge { bytes, limit: MAX_PATTERN_BYTES });
        }
        proof {
            reveal_strlit("re:i:");
            reveal_strlit("re:");
        }
        if has_prefix(input, "re:i:") {
            let rest = without_start(input, 5);
            return Pattern::compile_regex(rest.as_str(), false);
        }
        if has_prefix(input, "re:") {
            let rest = without_start(input, 3);
            return Pattern::compile_regex(rest.as_str(), true);
        }
        Ok(Pattern::Literal { text: copy_text(input), case_sensitive: default_case_sensitive })
    }

    fn compile_regex(source: &str, case_sensitive: bool) -> (result: Result<Pattern, PatternError>)
        ensures
            pattern_is(result, regex_rule(source@, case_sensitive)),
    {
        if source.is_empty() {
            return Err(PatternError::Empty);
        }
        let options = RegexOptions {
            case_insensitive: !case_sensitive,
            size_limit: MAX_REGEX_SIZE_LIMIT,
            dfa_size_limit: MAX_REGEX_DFA_SIZE_LIMIT,
            unicode: true,
            multi_line: true,
        };
        Pattern::from_compiled(build_regex(source, options))
    }

    /// The pattern that a compilation gives.
    pub fn from_compiled(result: Result<regex::Regex, regex::Error>) -> (pattern: Result<
        Pattern,
        PatternError,
    >)
        ensures
            pattern_is(pattern, rule_of(result)),
    {
        match result {
            Ok(regex) => Ok(Pattern::Regex(regex)),
            Err(error) => Err(PatternError::InvalidRegex { message: refusal_text(&error) }),
        }
    }

    /// Whether the pattern is a regular expression.
    pub fn is_regex(&self) -> (yes: bool)
        ensures
            yes == (self@ is Regex),
    {
        match self {
            Pattern::Regex(_) => true,
            Pattern::Literal { .. } => false,
        }
    }

    /// A word for the kind of pattern.
    pub fn mode_label(&self) -> (label: &'static str)
        ensures
            label@ == (if self@ is Regex {
                "regex"@
            } else {
                "literal"@
            }),
    {
        match self {
            Pattern::Literal { .. } => "literal",
            Pattern::Regex(_) => "regex",
        }
    }

    /// The next match from an index on.
    fn find_in(&self, haystack: &Haystack<'_>, from: usize) -> (span: Option<(usize, usize)>)
        requires
            haystack.valid(),
            from <= haystack.text@.len(),
        ensures
            match (span, found_at(self@, haystack.text@, from as int)) {
                (Some((start, end)), Some(found)) => {
                    &&& found == (start as int, end as int)
                    &&& is_span(haystack.text@, found)
                    &&& byte_offset(haystack.text@, from as int) <= start
                },
                (None, None) => true,
                _ => false,
            },
    {
        let ghost text = haystack.text@;
        match self {
            Pattern::Literal { text: needle, case_sensitive } => {
                let wanted = chars_of(needle.as_str());
                if *case_sensitive {
                    proof {
                        lemma_next_occurrence(text, needle@, from as int);
                    }
                    match find_chars(haystack.chars.as_slice(), wanted.as_slice(), from) {
                        Some(at) => {
                            assert(at + wanted@.len() <= haystack.chars.len());
                            let end: usize = at + wanted.len();
                            proof {
                                lemma_index_at(text, at as int);
                                lemma_index_at(text, end as int);
                                if from < at {
                                    lemma_offsets_increase(text, from as int, at as int);
                                }
                                if at < end {
                                    lemma_offsets_increase(text, at as int, end as int);
                                }
                            }
                            Some((haystack.offsets[at], haystack.offsets[end]))
                        },
                        None => None,
                    }
                } else {
                    let lowered = fold_chars(Folding::Lower, wanted.as_slice());
                    if lowered.len() == 0 {
                        return None;
                    }
                    let ghost rest = text.skip(from as int);
                    let fold = FoldedText::new(Folding::Lower, haystack.chars.as_slice(), from);
                    proof {
                        lemma_owners(Folding::Lower, rest);
                        lemma_next_occurrence(fold.text@, lowered@, 0);
                    }
                    match find_chars(fold.text.as_slice(), lowered.as_slice(), 0) {
                        Some(at) => {
                            assert(at + lowered@.len() <= fold.text.len());
                            let last: usize = at + (lowered.len() - 1);
                            let ghost stems = owners(Folding::Lower, rest);
                            assert(fold.owners@[at as int] == stems[at as int]);
                            assert(fold.owners@[last as int] == stems[last as int]);
                            assert(from + fold.owners@[last as int] < haystack.chars.len());
                            let start: usize = from + fold.owners[at];
                            let end: usize = from + fold.owners[last] + 1;
                            proof {
                                lemma_index_at(text, start as int);
                                lemma_index_at(text, end as int);
                                if from < start {
                                    lemma_offsets_increase(text, from as int, start as int);
                                }
                                lemma_offsets_increase(text, start as int, end as int);
                            }
                            Some((haystack.offsets[start], haystack.offsets[end]))
                        },
                        None => None,
                    }
                }
            },
            Pattern::Regex(regex) => {
                proof {
                    lemma_index_at(text, from as int);
                    lemma_offset_ends(text);
                    if from < text.len() {
                        lemma_offsets_increase(text, from as int, text.len() as int);
                    }
                }
                find_next(regex, haystack.text, haystack.offsets[from])
            },
        }
    }

    /// Find the next non-overlapping match at or after `from_byte`.
    pub fn find_from(&self, haystack: &str, from_byte: usize) -> (range: Option<
        std::ops::Range<usize>,
    >)
        requires
            on_boundary(haystack@, start_offset(haystack@, from_byte)),
        ensures
            range_is(
                range,
                found_at(
                    self@,
                    haystack@,
                    index_at(haystack@, start_offset(haystack@, from_byte)),
                ),
            ),
    {
        let size = byte_len(haystack);
        let offset: usize = if from_byte < size {
            from_byte
        } else {
            size
        };
        let prepared = Haystack::new(haystack);
        let from = prepared.index(offset);
        match self.find_in(&prepared, from) {
            Some((start, end)) => Some(start..end),
            None => None,
        }
    }

    /// Collects matches from the start of a text.
    fn collect<C: Fn() -> bool>(&self, haystack: &Haystack<'_>, limit: usize, cancelled: &C) -> (
    ranges: Option<Vec<std::ops::Range<usize>>>)
        requires
            haystack.valid(),
            cancelled.requires(()),
        ensures
            match ranges {
                Some(found) => {
                    &&& spans_of(found@) == matches_from(self@, haystack.text@, 0, limit as nat)
                    &&& forall|i: int|
                        0 <= i < found@.len() ==> is_span(
                            haystack.text@,
                            #[trigger] spans_of(found@)[i],
                        )
                    &&& forall|i: int, j: int|
                        0 <= i < j < found@.len() ==> (#[trigger] spans_of(found@)[i]).1 <= (
                        #[trigger] spans_of(found@)[j]).0
                },
                None => cancelled.ensures((), true),
            },
            limit == 0 ==> ranges is Some,
            limit > 0 && always_stops(*cancelled) ==> ranges is None,
    {
        let ghost text = haystack.text@;
        let ghost all = matches_from(self@, text, 0, limit as nat);
        let mut ranges: Vec<std::ops::Range<usize>> = Vec::new();
        let mut from: usize = 0;
        proof {
            assert(spans_of(ranges@) + matches_from(self@, text, 0, limit as nat) =~= all);
            lemma_offset_ends(text);
        }
        while ranges.len() < limit
            invariant_except_break
                haystack.valid(),
                cancelled.requires(()),
                text == haystack.text@,
                from <= text.len(),
                ranges@.len() <= limit,
                ranges@.len() > 0 ==> !always_stops(*cancelled),
                all == spans_of(ranges@) + matches_from(
                    self@,
                    text,
                    from as int,
                    (limit - ranges@.len()) as nat,
                ),
                forall|i: int|
                    0 <= i < ranges@.len() ==> is_span(text, #[trigger] spans_of(ranges@)[i])
                        && spans_of(ranges@)[i].1 <= byte_offset(text, from as int),
                forall|i: int, j: int|
                    0 <= i < j < ranges@.len() ==> (#[trigger] spans_of(ranges@)[i]).1 <= (
                    #[trigger] spans_of(ranges@)[j]).0,
            ensures
                spans_of(ranges@) == all,
                limit > 0 ==> !always_stops(*cancelled),
                forall|i: int|
                    0 <= i < ranges@.len() ==> is_span(text, #[trigger] spans_of(ranges@)[i]),
                forall|i: int, j: int|
                    0 <= i < j < ranges@.len() ==> (#[trigger] spans_of(ranges@)[i]).1 <= (
                    #[trigger] spans_of(ranges@)[j]).0,
            decreases text.len() + 1 - from,
        {
            if cancelled() {
                return None;
            }
            let found = self.find_in(haystack, from);
            match found {
                None => {
                    assert(all =~= spans_of(ranges@));
                    break;
                },
                Some((start, end)) => {
                    let ghost before = ranges@;
                    let ghost span = (start as int, end as int);
                    let ghost rest = (limit - before.len()) as nat;
                    ranges.push(start..end);
                    assert(spans_of(ranges@) =~= spans_of(before).push(span));
                    let at = haystack.index(end);
                    let next: usize = if start != end || at == haystack.chars.len() {
                        at
                    } else {
                        at + 1
                    };
                    assert(next == next_start(text, span));
                    proof {
                        assert forall|i: int| 0 <= i < ranges@.len() implies is_span(
                            text,
                            #[trigger] spans_of(ranges@)[i],
                        ) by {
                            if i < before.len() {
                                assert(spans_of(ranges@)[i] == spans_of(before)[i]);
                            }
                        }
                        assert forall|i: int, j: int| 0 <= i < j < ranges@.len() implies (
                        #[trigger] spans_of(ranges@)[i]).1 <= (
                        #[trigger] spans_of(ranges@)[j]).0 by {
                            assert(spans_of(ranges@)[i] == spans_of(before)[i]);
                            if j < before.len() {
                                assert(spans_of(ranges@)[j] == spans_of(before)[j]);
                            }
                        }
                    }
                    if next <= from {
                        assert(all =~= spans_of(ranges@));
                        break;
                    }
                    proof {
                        assert(all =~= spans_of(ranges@) + matches_from(
                            self@,
                            text,
                            next as int,
                            (rest - 1) as nat,
                        ));
                        if at < next {
                            lemma_offsets_increase(text, at as int, next as int);
                        }
                        lemma_offsets_increase(text, from as int, next as int);
                        assert forall|i: int| 0 <= i < ranges@.len() implies (
                        #[trigger] spans_of(ranges@)[i]).1 <= byte_offset(text, next as int) by {
                            if i < before.len() {
                                assert(spans_of(ranges@)[i] == spans_of(before)[i]);
                            }
                        }
                    }
                    from = next;
                },
            }
        }
        Some(ranges)
    }

    /// [`Self::find_all`] with the fact that each range encloses a part of the
    /// text.
    pub(crate) fn find_spans<C: Fn() -> bool>(&self, haystack: &str, limit: usize, cancelled: &C) -> (
    ranges: Option<Vec<std::ops::Range<usize>>>)
        requires
            cancelled.requires(()),
        ensures
            match ranges {
                Some(found) => {
                    &&& spans_of(found@) == matches_from(self@, haystack@, 0, limit as nat)
                    &&& forall|i: int|
                        0 <= i < found@.len() ==> is_span(
                            haystack@,
                            #[trigger] spans_of(found@)[i],
                        )
                },
                None => cancelled.ensures((), true),
            },
            limit == 0 ==> ranges is Some,
            limit > 0 && always_stops(*cancelled) ==> ranges is None,
    {
        let prepared = Haystack::new(haystack);
        self.collect(&prepared, limit, cancelled)
    }

    /// Collect non-overlapping match ranges, stopping at `limit`. `None` means
    /// that `cancelled` answered so.
    pub fn find_all<C: Fn() -> bool>(&self, haystack: &str, limit: usize, cancelled: C) -> (ranges:
        Option<Vec<std::ops::Range<usize>>>)
        requires
            cancelled.requires(()),
        ensures
            match ranges {
                Some(found) => spans_of(found@) == matches_from(
                    self@,
                    haystack@,
                    0,
                    limit as nat,
                ),
                None => cancelled.ensures((), true),
            },
            limit == 0 ==> ranges is Some,
            limit > 0 && always_stops(cancelled) ==> ranges is None,
    {
        let prepared = Haystack::new(haystack);
        self.collect(&prepared, limit, &cancelled)
    }
}

/// The byte offsets of the last match of a rule that ends at index `upto` or
/// before.
pub open spec fn found_before(rule: Rule, text: Seq<char>, upto: int) -> Option<(int, int)> {
    let part = text.take(upto);
    match rule {
        Rule::Literal { text: needle, case_sensitive: true } => match last_occurrence(
            part,
            needle,
            part.len() - needle.len(),
        ) {
            Some(at) => Some(
                (byte_offset(part, at) as int, byte_offset(part, at + needle.len()) as int),
            ),
            None => None,
        },
        Rule::Literal { case_sensitive: false, .. } => last_of(
            matches_from(rule, part, 0, usize::MAX as nat),
        ),
        Rule::Regex(expression) => last_ending(
            every_match(expression, text),
            byte_offset(text, upto) as int,
        ),
    }
}

/// The last span that ends at an offset or before.
pub open spec fn last_ending(spans: Seq<(int, int)>, offset: int) -> Option<(int, int)>
    decreases spans.len(),
{
    if spans.len() == 0 {
        None
    } else if spans.last().1 <= offset {
        Some(spans.last())
    } else {
        last_ending(spans.drop_last(), offset)
    }
}

/// Pairs of offsets.
pub open spec fn pairs_of(spans: Seq<(usize, usize)>) -> Seq<(int, int)> {
    spans.map_values(|span: (usize, usize)| (span.0 as int, span.1 as int))
}

/// Computes [`last_ending`].
pub fn last_span_before(spans: &Vec<(usize, usize)>, offset: usize) -> (span: Option<
    (usize, usize),
>)
    ensures
        match (span, last_ending(pairs_of(spans@), offset as int)) {
            (Some((start, end)), Some(found)) => found == (start as int, end as int),
            (None, None) => true,
            _ => false,
        },
{
    let ghost all = pairs_of(spans@);
    let mut i: usize = spans.len();
    assert(all.take(all.len() as int) =~= all);
    while i > 0
        invariant
            i <= spans@.len() == all.len(),
            all == pairs_of(spans@),
            last_ending(all.take(i as int), offset as int) == last_ending(all, offset as int),
        decreases i,
    {
        let (start, end) = spans[i - 1];
        assert(all.take(i as int).last() == all[i - 1]);
        assert(all.take(i as int).drop_last() =~= all.take(i - 1));
        if end <= offset {
            return Some((start, end));
        }
        i -= 1;
    }
    None
}

/// The last item, where there is one.
pub open spec fn last_of(spans: Seq<(int, int)>) -> Option<(int, int)> {
    if spans.len() == 0 {
        None
    } else {
        Some(spans.last())
    }
}

/// What takes the place of one match: its byte offsets and the new text.
pub struct Piece {
    pub start: int,
    pub end: int,
    pub words: Seq<char>,
}

/// Where the last piece ends.
pub open spec fn pieces_end(pieces: Seq<Piece>) -> int {
    if pieces.len() == 0 {
        0
    } else {
        pieces.last().end
    }
}

/// A text with pieces put in, up to the end of the last one.
pub open spec fn grown(text: Seq<char>, pieces: Seq<Piece>) -> Seq<char>
    decreases pieces.len(),
{
    if pieces.len() == 0 {
        Seq::empty()
    } else {
        grown(text, pieces.drop_last()) + text.subrange(
            index_at(text, pieces_end(pieces.drop_last())),
            index_at(text, pieces.last().start),
        ) + pieces.last().words
    }
}

/// A text with pieces put in.
pub open spec fn spliced(text: Seq<char>, pieces: Seq<Piece>) -> Seq<char> {
    grown(text, pieces) + text.skip(index_at(text, pieces_end(pieces)))
}

/// The size at which the growing text exceeds a limit first.
pub open spec fn overrun(text: Seq<char>, pieces: Seq<Piece>, limit: usize) -> Option<nat>
    decreases pieces.len(),
{
    if pieces.len() == 0 {
        None
    } else {
        match overrun(text, pieces.drop_last(), limit) {
            Some(bytes) => Some(bytes),
            None => if utf8_len(grown(text, pieces)) > limit {
                Some(utf8_len(grown(text, pieces)))
            } else {
                None
            },
        }
    }
}

/// That a result is too large.
pub open spec fn size_fault(bytes: nat, limit: usize) -> PatternFault {
    PatternFault::InvalidRegex {
        message: "replacement result is "@ + decimal(bytes) + " bytes; limit is "@ + decimal(
            limit as nat,
        ) + " bytes"@,
    }
}

/// The outcome of a replacement: the text and the number of matches. Where
/// `early`, the text is given up as soon as it is too large.
pub open spec fn replacement(
    text: Seq<char>,
    pieces: Seq<Piece>,
    limit: usize,
    early: bool,
) -> Result<(Seq<char>, nat), PatternFault> {
    if pieces.len() == 0 {
        Ok((text, 0))
    } else if early && overrun(text, pieces, limit) is Some {
        Err(size_fault(overrun(text, pieces, limit)->0, limit))
    } else if utf8_len(spliced(text, pieces)) > limit {
        Err(size_fault(utf8_len(spliced(text, pieces)), limit))
    } else {
        Ok((spliced(text, pieces), pieces.len()))
    }
}

/// One piece for each span.
pub open spec fn pieces_for(spans: Seq<(int, int)>, words: Seq<char>) -> Seq<Piece> {
    spans.map_values(|span: (int, int)| Piece { start: span.0, end: span.1, words })
}

/// One piece for each match of an expression, with the template expanded.
pub open spec fn pieces_of(expression: Expression, text: Seq<char>, template: Seq<char>) -> Seq<
    Piece,
> {
    Seq::new(
        every_match(expression, text).len(),
        |i: int|
            Piece {
                start: every_match(expression, text)[i].0,
                end: every_match(expression, text)[i].1,
                words: expansion(expression, text, i, template),
            },
    )
}

/// The byte offsets of every match of a rule.
pub open spec fn every_span(rule: Rule, text: Seq<char>) -> Seq<(int, int)> {
    match rule {
        Rule::Literal { .. } => matches_from(rule, text, 0, usize::MAX as nat),
        Rule::Regex(expression) => every_match(expression, text),
    }
}

/// The outcome of replacing every match of a rule.
pub open spec fn replaced_all(
    rule: Rule,
    text: Seq<char>,
    words: Seq<char>,
    limit: usize,
) -> Result<(Seq<char>, nat), PatternFault> {
    match rule {
        Rule::Literal { case_sensitive, .. } => replacement(
            text,
            pieces_for(matches_from(rule, text, 0, usize::MAX as nat), words),
            limit,
            !case_sensitive,
        ),
        Rule::Regex(expression) => replacement(
            text,
            pieces_of(expression, text, words),
            limit,
            true,
        ),
    }
}

/// Whether a result has this content.
pub open spec fn replaced_is(
    result: Result<(String, usize), PatternError>,
    expected: Result<(Seq<char>, nat), PatternFault>,
) -> bool {
    match (result, expected) {
        (Ok((text, count)), Ok((words, n))) => text@ == words && count == n,
        (Err(error), Err(fault)) => error@ == fault,
        _ => false,
    }
}

fn too_large_result(bytes: usize, limit: usize) -> (error: PatternError)
    ensures
        error@ == size_fault(bytes as nat, limit),
{
    let mut message = String::new();
    message.push_str("replacement result is ");
    push_decimal(&mut message, bytes as u64);
    message.push_str(" bytes; limit is ");
    push_decimal(&mut message, limit as u64);
    message.push_str(" bytes");
    assert(message@ =~= size_fault(bytes as nat, limit)->message);
    PatternError::InvalidRegex { message }
}

/// A text in which one match after the other is replaced.
pub struct Splice<'h> {
    haystack: Haystack<'h>,
    updated: String,
    done: usize,
    pieces: Ghost<Seq<Piece>>,
}

impl<'h> Splice<'h> {
    /// The text.
    pub closed spec fn text(&self) -> Seq<char> {
        self.haystack.text@
    }

    /// What was put in so far.
    pub closed spec fn pieces(&self) -> Seq<Piece> {
        self.pieces@
    }

    /// Whether the parts fit together.
    pub closed spec fn valid(&self) -> bool {
        &&& self.haystack.valid()
        &&& self.updated@ == grown(self.haystack.text@, self.pieces@)
        &&& self.done <= self.haystack.text@.len()
        &&& self.done == index_at(self.haystack.text@, pieces_end(self.pieces@))
        &&& byte_offset(self.haystack.text@, self.done as int) == pieces_end(self.pieces@)
    }

    /// A text in which nothing is replaced yet.
    pub fn new(text: &'h str) -> (splice: Self)
        ensures
            splice.valid(),
            splice.text() == text@,
            splice.pieces() == Seq::<Piece>::empty(),
    {
        proof {
            lemma_offset_ends(text@);
            lemma_index_at(text@, 0);
        }
        Splice {
            haystack: Haystack::new(text),
            updated: String::new(),
            done: 0,
            pieces: Ghost(Seq::empty()),
        }
    }

    /// Replaces a match behind the last one; the size of the new text up to the
    /// end of that match.
    pub fn put(&mut self, start: usize, end: usize, words: &str) -> (bytes: usize)
        requires
            old(self).valid(),
            is_span(old(self).text(), (start as int, end as int)),
            pieces_end(old(self).pieces()) <= start,
        ensures
            final(self).valid(),
            final(self).text() == old(self).text(),
            final(self).pieces() == old(self).pieces().push(
                Piece { start: start as int, end: end as int, words: words@ },
            ),
            bytes == utf8_len(grown(final(self).text(), final(self).pieces())),
    {
        let ghost text = self.haystack.text@;
        let ghost piece = Piece { start: start as int, end: end as int, words: words@ };
        assert(self.pieces@.push(piece).drop_last() =~= self.pieces@);
        let from = self.haystack.index(start);
        let to = self.haystack.index(end);
        proof {
            if from < self.done {
                lemma_offsets_increase(text, from as int, self.done as int);
            }
        }
        let kept = text_of(self.haystack.chars.as_slice(), self.done, from);
        self.updated.push_str(kept.as_str());
        self.updated.push_str(words);
        self.done = to;
        self.pieces = Ghost(self.pieces@.push(piece));
        byte_len(self.updated.as_str())
    }

    /// The whole text, unless it exceeds a limit.
    pub fn finish(self, limit: usize) -> (result: Result<String, PatternError>)
        requires
            self.valid(),
        ensures
            match result {
                Ok(updated) => updated@ == spliced(self.text(), self.pieces()) && utf8_len(updated@)
                    <= limit,
                Err(error) => utf8_len(spliced(self.text(), self.pieces())) > limit && error@
                    == size_fault(utf8_len(spliced(self.text(), self.pieces())), limit),
            },
    {
        let ghost text = self.haystack.text@;
        let size: usize = self.haystack.chars.len();
        let rest = text_of(self.haystack.chars.as_slice(), self.done, size);
        assert(text.subrange(self.done as int, size as int) =~= text.skip(self.done as int));
        let mut updated = self.updated;
        updated.push_str(rest.as_str());
        let bytes = byte_len(updated.as_str());
        if bytes > limit {
            return Err(too_large_result(bytes, limit));
        }
        Ok(updated)
    }
}

proof fn lemma_overrun_stays(text: Seq<char>, pieces: Seq<Piece>, limit: usize, i: int)
    requires
        0 <= i <= pieces.len(),
        overrun(text, pieces.take(i), limit) is Some,
    ensures
        overrun(text, pieces, limit) == overrun(text, pieces.take(i), limit),
    decreases pieces.len() - i,
{
    if i == pieces.len() {
        assert(pieces.take(i) =~= pieces);
    } else {
        assert(pieces.take(i + 1).drop_last() =~= pieces.take(i));
        lemma_overrun_stays(text, pieces, limit, i + 1);
    }
}

fn apply_literal_ranges(
    haystack: &str,
    ranges: &Vec<std::ops::Range<usize>>,
    words: &str,
    limit: usize,
    early: bool,
) -> (result: Result<(String, usize), PatternError>)
    requires
        forall|i: int|
            0 <= i < ranges@.len() ==> is_span(haystack@, #[trigger] spans_of(ranges@)[i]),
        forall|i: int, j: int|
            0 <= i < j < ranges@.len() ==> (#[trigger] spans_of(ranges@)[i]).1 <= (
            #[trigger] spans_of(ranges@)[j]).0,
    ensures
        replaced_is(
            result,
            replacement(haystack@, pieces_for(spans_of(ranges@), words@), limit, early),
        ),
{
    let ghost text = haystack@;
    let ghost spans = spans_of(ranges@);
    let ghost pieces = pieces_for(spans, words@);
    if ranges.len() == 0 {
        return Ok((copy_text(haystack), 0));
    }
    let mut splice = Splice::new(haystack);
    let mut i: usize = 0;
    assert(pieces.take(0) =~= Seq::<Piece>::empty());
    while i < ranges.len()
        invariant
            i <= ranges@.len() == pieces.len(),
            splice.valid(),
            splice.text() == text,
            text == haystack@,
            spans == spans_of(ranges@),
            pieces == pieces_for(spans, words@),
            splice.pieces() == pieces.take(i as int),
            early ==> overrun(text, pieces.take(i as int), limit) is None,
            forall|k: int| 0 <= k < ranges@.len() ==> is_span(text, #[trigger] spans[k]),
            forall|k: int, j: int|
                0 <= k < j < ranges@.len() ==> (#[trigger] spans[k]).1 <= (#[trigger] spans[j]).0,
        decreases ranges@.len() - i,
    {
        proof {
            assert(spans[i as int] == (
                ranges@[i as int].start as int,
                ranges@[i as int].end as int,
            ));
            assert(pieces.take(i + 1) =~= pieces.take(i as int).push(pieces[i as int]));
            assert(pieces.take(i + 1).drop_last() =~= pieces.take(i as int));
            if i > 0 {
                assert(pieces.take(i as int).last() == pieces[i - 1]);
                assert(spans[i - 1].1 <= spans[i as int].0);
            } else {
                let k = index_at(text, spans[0].0);
                assert(byte_offset(text, k) >= 0);
            }
        }
        let bytes = splice.put(ranges[i].start, ranges[i].end, words);
        i += 1;
        if early && bytes > limit {
            proof {
                lemma_overrun_stays(text, pieces, limit, i as int);
            }
            return Err(too_large_result(bytes, limit));
        }
    }
    assert(pieces.take(i as int) =~= pieces);
    match splice.finish(limit) {
        Ok(updated) => Ok((updated, ranges.len())),
        Err(error) => Err(error),
    }
}

fn apply_captures(
    haystack: &str,
    captures: &Vec<regex::Captures<'_>>,
    template: &str,
    limit: usize,
    Ghost(expression): Ghost<Expression>,
) -> (result: Result<(String, usize), PatternError>)
    requires
        captures@.len() == every_match(expression, haystack@).len(),
        forall|i: int|
            0 <= i < captures@.len() ==> taken_from(#[trigger] captures@[i]) == (
                expression,
                haystack@,
                i,
            ),
        forall|i: int|
            0 <= i < captures@.len() ==> is_span(
                haystack@,
                capture_span(#[trigger] captures@[i]),
            ),
        forall|i: int, j: int|
            0 <= i < j < captures@.len() ==> capture_span(#[trigger] captures@[i]).1
                <= capture_span(#[trigger] captures@[j]).0,
    ensures
        replaced_is(
            result,
            replacement(haystack@, pieces_of(expression, haystack@, template@), limit, true),
        ),
{
    let ghost text = haystack@;
    let ghost pieces = pieces_of(expression, haystack@, template@);
    if captures.len() == 0 {
        return Ok((copy_text(haystack), 0));
    }
    let mut splice = Splice::new(haystack);
    let mut i: usize = 0;
    assert(pieces.take(0) =~= Seq::<Piece>::empty());
    while i < captures.len()
        invariant
            i <= captures@.len() == pieces.len(),
            splice.valid(),
            splice.text() == text,
            text == haystack@,
            pieces == pieces_of(expression, haystack@, template@),
            splice.pieces() == pieces.take(i as int),
            forall|k: int|
                0 <= k < captures@.len() ==> taken_from(#[trigger] captures@[k]) == (
                    expression,
                    text,
                    k,
                ),
            overrun(text, pieces.take(i as int), limit) is None,
            forall|k: int|
                0 <= k < captures@.len() ==> is_span(text, capture_span(#[trigger] captures@[k])),
            forall|k: int, j: int|
                0 <= k < j < captures@.len() ==> capture_span(#[trigger] captures@[k]).1
                    <= capture_span(#[trigger] captures@[j]).0,
        decreases captures@.len() - i,
    {
        let (start, end) = span_of(&captures[i]);
        let words = expand(&captures[i], template);
        proof {
            assert(is_span(text, capture_span(captures@[i as int])));
            assert(taken_from(captures@[i as int]) == (expression, text, i as int));
            assert(pieces.take(i + 1) =~= pieces.take(i as int).push(pieces[i as int]));
            assert(pieces.take(i + 1).drop_last() =~= pieces.take(i as int));
            if i > 0 {
                assert(pieces.take(i as int).last() == pieces[i - 1]);
                assert(taken_from(captures@[i - 1]) == (expression, text, i - 1));
                assert(capture_span(captures@[i - 1]).1 <= capture_span(captures@[i as int]).0);
            } else {
                let k = index_at(text, start as int);
                assert(byte_offset(text, k) >= 0);
            }
        }
        let bytes = splice.put(start, end, words.as_str());
        i += 1;
        if bytes > limit {
            proof {
                lemma_overrun_stays(text, pieces, limit, i as int);
            }
            return Err(too_large_result(bytes, limit));
        }
    }
    assert(pieces.take(i as int) =~= pieces);
    match splice.finish(limit) {
        Ok(updated) => Ok((updated, captures.len())),
        Err(error) => Err(error),
    }
}

impl Pattern {
    /// Find the last non-overlapping match that ends at or before `before_byte`.
    pub fn find_previous(&self, haystack: &str, before_byte: usize) -> (range: Option<
        std::ops::Range<usize>,
    >)
        requires
            on_boundary(haystack@, start_offset(haystack@, before_byte)),
        ensures
            range_is(
                range,
                found_before(
                    self@,
                    haystack@,
                    index_at(haystack@, start_offset(haystack@, before_byte)),
                ),
            ),
    {
        let size = byte_len(haystack);
        let offset: usize = if before_byte < size {
            before_byte
        } else {
            size
        };
        let whole = Haystack::new(haystack);
        let end = whole.index(offset);
        match self {
            Pattern::Literal { text: needle, case_sensitive } => {
                let part = text_of(whole.chars.as_slice(), 0, end);
                assert(part@ =~= haystack@.take(end as int));
                let prepared = Haystack::new(part.as_str());
                if *case_sensitive {
                    let wanted = chars_of(needle.as_str());
                    assert(part@.take(part@.len() as int) =~= part@);
                    match find_chars_before(
                        prepared.chars.as_slice(),
                        wanted.as_slice(),
                        prepared.chars.len(),
                    ) {
                        Some(at) => {
                            proof {
                                lemma_last_occurrence(
                                    part@,
                                    needle@,
                                    part@.len() - needle@.len(),
                                );
                            }
                            assert(at + wanted@.len() <= prepared.chars.len());
                            let stop: usize = at + wanted.len();
                            Some(prepared.offsets[at]..prepared.offsets[stop])
                        },
                        None => None,
                    }
                } else {
                    let never = || -> (stop: bool)
                        ensures
                            !stop,
                        { false };
                    match self.collect(&prepared, usize::MAX, &never) {
                        Some(ranges) => {
                            if ranges.len() == 0 {
                                None
                            } else {
                                let last = &ranges[ranges.len() - 1];
                                assert(spans_of(ranges@).last() == (
                                    last.start as int,
                                    last.end as int,
                                ));
                                Some(last.start..last.end)
                            }
                        },
                        None => None,
                    }
                }
            },
            Pattern::Regex(regex) => {
                let spans = find_every(regex, haystack);
                assert(pairs_of(spans@) =~= every_match(made_from(*regex), haystack@));
                match last_span_before(&spans, offset) {
                    Some((start, stop)) => Some(start..stop),
                    None => None,
                }
            },
        }
    }

    /// Replace every non-overlapping match. Returns `(updated, count)`.
    ///
    /// For regex patterns, `replacement` may contain `$n` / `${name}` templates.
    /// The result is bounded by `max_result_bytes`.
    pub fn replace_all(&self, haystack: &str, replacement: &str, max_result_bytes: usize) -> (result:
        Result<(String, usize), PatternError>)
        ensures
            replaced_is(
                result,
                replaced_all(self@, haystack@, replacement@, max_result_bytes),
            ),
            result matches Ok((_, count)) ==> count == every_span(self@, haystack@).len(),
    {
        match self {
            Pattern::Literal { case_sensitive, .. } => {
                let prepared = Haystack::new(haystack);
                let never = || -> (stop: bool)
                    ensures
                        !stop,
                    { false };
                match self.collect(&prepared, usize::MAX, &never) {
                    Some(ranges) => apply_literal_ranges(
                        haystack,
                        &ranges,
                        replacement,
                        max_result_bytes,
                        !*case_sensitive,
                    ),
                    None => Err(PatternError::Empty),
                }
            },
            Pattern::Regex(regex) => {
                let captures = capture_all(regex, haystack);
                apply_captures(
                    haystack,
                    &captures,
                    replacement,
                    max_result_bytes,
                    Ghost(made_from(*regex)),
                )
            },
        }
    }
}

proof fn lemma_last_occurrence(text: Seq<char>, needle: Seq<char>, upto: int)
    ensures
        match last_occurrence(text, needle, upto) {
            Some(at) => at <= upto && occurs(text, needle, at),
            None => true,
        },
    decreases upto + 1,
{
    if upto >= 0 && !occurs(text, needle, upto) {
        lemma_last_occurrence(text, needle, upto - 1);
    }
}

/// Each match of a case-sensitive literal encloses that literal, from the start
/// of the search on, and no match overlaps the one before it.
pub proof fn law_literal_matches(text: Seq<char>, needle: Seq<char>, from: int, limit: nat)
    requires
        needle.len() > 0,
        0 <= from <= text.len(),
    ensures
        ({
            let rule = Rule::Literal { text: needle, case_sensitive: true };
            let spans = matches_from(rule, text, from, limit);
            &&& spans.len() <= limit
            &&& forall|i: int|
                0 <= i < spans.len() ==> {
                    &&& is_span(text, #[trigger] spans[i])
                    &&& byte_offset(text, from) <= spans[i].0
                    &&& text.subrange(index_at(text, spans[i].0), index_at(text, spans[i].1))
                        == needle
                }
            &&& forall|i: int, j: int|
                0 <= i < j < spans.len() ==> (#[trigger] spans[i]).1 <= (#[trigger] spans[j]).0
        }),
    decreases limit,
{
    let rule = Rule::Literal { text: needle, case_sensitive: true };
    let spans = matches_from(rule, text, from, limit);
    if limit > 0 {
        lemma_next_occurrence(text, needle, from);
        if let Some(at) = next_occurrence(text, needle, from) {
            let end = at + needle.len();
            let span = (byte_offset(text, at) as int, byte_offset(text, end) as int);
            lemma_index_at(text, at);
            lemma_index_at(text, end);
            lemma_offsets_increase(text, at, end);
            if from < at {
                lemma_offsets_increase(text, from, at);
            }
            lemma_offsets_increase(text, from, end);
            law_literal_matches(text, needle, end, (limit - 1) as nat);
            let rest = matches_from(rule, text, end, (limit - 1) as nat);
            assert(spans == seq![span] + rest);
            assert forall|i: int| 0 <= i < spans.len() implies {
                &&& is_span(text, #[trigger] spans[i])
                &&& byte_offset(text, from) <= spans[i].0
                &&& text.subrange(index_at(text, spans[i].0), index_at(text, spans[i].1)) == needle
            } by {
                if i > 0 {
                    assert(spans[i] == rest[i - 1]);
                }
            }
            assert forall|i: int, j: int| 0 <= i < j < spans.len() implies (#[trigger] spans[i]).1
                <= (#[trigger] spans[j]).0 by {
                assert(spans[j] == rest[j - 1]);
                if i > 0 {
                    assert(spans[i] == rest[i - 1]);
                }
            }
        }
    }
}

/// A match without regard to case encloses what folds to the needle: the needle
/// stands in the fold of the match.
pub proof fn law_folded_match_holds_the_needle(
    folding: Folding,
    text: Seq<char>,
    needle: Seq<char>,
)
    ensures
        folded_span(folding, text, needle) matches Some((start, end)) ==> 0 <= start < end
            <= text.len() && exists|k: int| #[trigger]
            occurs(folded(folding, text.subrange(start, end)), needle, k),
{
    if let Some((start, end)) = folded_span(folding, text, needle) {
        let whole = folded(folding, text);
        let at = next_occurrence(whole, needle, 0)->0;
        let last = at + needle.len() - 1;
        lemma_next_occurrence(whole, needle, 0);
        lemma_owners(folding, text);
        lemma_owner_range(folding, text, at);
        lemma_owner_range(folding, text, last);
        let part = text.subrange(start, end);
        let before = folded(folding, text.take(start));
        let fold = folded(folding, part);
        assert(text.take(end) =~= text.take(start) + part);
        assert(text =~= text.take(end) + text.skip(end));
        lemma_folded_add(folding, text.take(start), part);
        lemma_folded_add(folding, text.take(end), text.skip(end));
        let k = at - before.len();
        assert(fold.subrange(k, k + needle.len()) =~= whole.subrange(at, at + needle.len()));
        assert(occurs(fold, needle, k));
    }
}

/// Where a literal does not occur, replacing it changes nothing, whatever the
/// limit.
pub proof fn law_absent_literal_changes_nothing(
    text: Seq<char>,
    needle: Seq<char>,
    words: Seq<char>,
    limit: usize,
)
    requires
        forall|k: int| 0 <= k ==> !occurs(text, needle, k),
    ensures
        replaced_all(
            Rule::Literal { text: needle, case_sensitive: true },
            text,
            words,
            limit,
        ) == Ok::<(Seq<char>, nat), PatternFault>((text, 0)),
{
    lemma_next_occurrence(text, needle, 0);
    let rule = Rule::Literal { text: needle, case_sensitive: true };
    assert(matches_from(rule, text, 0, usize::MAX as nat) =~= Seq::<(int, int)>::empty());
    assert(pieces_for(matches_from(rule, text, 0, usize::MAX as nat), words).len() == 0);
}

} // verus!
