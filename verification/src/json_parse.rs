//! Strict JSON parsing with byte offsets for failures.
use vstd::prelude::*;

use crate::json::{
    lemma_list_of, lemma_spelling, list_of, lookup, ordered, with_member, Json, JsonNumber,
    JsonObject, JsonValue, MAX_JSON_DEPTH,
};
use crate::text::{
    byte_len, byte_offset, char_width, chars_of, copy_text, decimal, is_digit,
    lemma_utf8_len_cons, lemma_utf8_len_take, offset_in_bytes, push_decimal, text_of, utf8_len, width_of,
};

verus! {

/// Strict JSON syntax failure with a UTF-8 byte offset.
#[derive(Clone, Debug, PartialEq, Eq)]
pub struct JsonError {
    pub offset: usize,
    pub message: String,
}

/// What a [`JsonError`] says.
pub struct Fault {
    pub offset: nat,
    pub message: Seq<char>,
}

impl View for JsonError {
    type V = Fault;

    open spec fn view(&self) -> Fault {
        Fault { offset: self.offset as nat, message: self.message@ }
    }
}

/// A failure at scalar value `index` of `s`.
pub open spec fn fault_at(s: Seq<char>, index: int, message: Seq<char>) -> Fault {
    Fault { offset: byte_offset(s, index), message }
}

/// How std's `Debug` writes a text: quoted, with its own escapes.
pub uninterp spec fn debug_text(s: Seq<char>) -> Seq<char>;

/// `<str as Debug>::fmt`, reached through `format!`. Its escapes follow tables
/// of printable characters, so the result only gets a name.
#[verifier::external_body]
pub(crate) fn debug_quoted(s: &str) -> (out: String)
    ensures
        out@ == debug_text(s@),
{
    format!("{s:?}")
}

/// JSON white space.
pub open spec fn is_space(c: char) -> bool {
    c == ' ' || c == '\t' || c == '\r' || c == '\n'
}

/// Whether `s` has `c` at `i`.
pub open spec fn char_is(s: Seq<char>, i: int, c: char) -> bool {
    0 <= i < s.len() && s[i] == c
}

/// Whether `s` has a decimal digit at `i`.
pub open spec fn digit_is(s: Seq<char>, i: int) -> bool {
    0 <= i < s.len() && is_digit(s[i])
}

/// Whether `s` continues with `word` at `i`.
pub open spec fn continues_with(s: Seq<char>, i: int, word: Seq<char>) -> bool {
    0 <= i && i + word.len() <= s.len() && s.subrange(i, i + word.len()) == word
}

/// The first index from `i` on that holds no white space.
pub open spec fn after_space(s: Seq<char>, i: int) -> int
    decreases s.len() - i,
{
    if 0 <= i < s.len() && is_space(s[i]) {
        after_space(s, i + 1)
    } else {
        i
    }
}

/// The first index from `i` on that holds no digit.
pub open spec fn after_digits(s: Seq<char>, i: int) -> int
    decreases s.len() - i,
{
    if digit_is(s, i) {
        after_digits(s, i + 1)
    } else {
        i
    }
}

/// Skipping white space moves forward and stays inside.
pub proof fn lemma_after_space(s: Seq<char>, i: int)
    ensures
        i <= after_space(s, i),
        i <= s.len() ==> after_space(s, i) <= s.len(),
    decreases s.len() - i,
{
    if 0 <= i < s.len() && is_space(s[i]) {
        lemma_after_space(s, i + 1);
    }
}

/// Skipping digits moves forward and stays inside.
pub proof fn lemma_after_digits(s: Seq<char>, i: int)
    ensures
        i <= after_digits(s, i),
        i <= s.len() ==> after_digits(s, i) <= s.len(),
    decreases s.len() - i,
{
    if digit_is(s, i) {
        lemma_after_digits(s, i + 1);
    }
}

/// Where the integer part of a number ends.
pub open spec fn integer_at(s: Seq<char>, i: int) -> Result<int, Fault> {
    let j = if char_is(s, i, '-') {
        i + 1
    } else {
        i
    };
    if char_is(s, j, '0') {
        if digit_is(s, j + 1) {
            Err(fault_at(s, j + 1, "leading zero in number"@))
        } else {
            Ok(j + 1)
        }
    } else if digit_is(s, j) {
        Ok(after_digits(s, j))
    } else {
        Err(fault_at(s, j, "invalid number"@))
    }
}

/// Where an optional fraction ends.
pub open spec fn fraction_at(s: Seq<char>, i: int) -> Result<int, Fault> {
    if char_is(s, i, '.') {
        if digit_is(s, i + 1) {
            Ok(after_digits(s, i + 1))
        } else {
            Err(fault_at(s, i + 1, "number fraction has no digits"@))
        }
    } else {
        Ok(i)
    }
}

/// Where an optional exponent ends.
pub open spec fn exponent_at(s: Seq<char>, i: int) -> Result<int, Fault> {
    if char_is(s, i, 'e') || char_is(s, i, 'E') {
        let j = if char_is(s, i + 1, '+') || char_is(s, i + 1, '-') {
            i + 2
        } else {
            i + 1
        };
        if digit_is(s, j) {
            Ok(after_digits(s, j))
        } else {
            Err(fault_at(s, j, "number exponent has no digits"@))
        }
    } else {
        Ok(i)
    }
}

/// Where the number that starts at `i` ends.
pub open spec fn number_at(s: Seq<char>, i: int) -> Result<int, Fault> {
    match integer_at(s, i) {
        Ok(j) => match fraction_at(s, j) {
            Ok(k) => exponent_at(s, k),
            Err(fault) => Err(fault),
        },
        Err(fault) => Err(fault),
    }
}

/// Whether `c` is a hexadecimal digit.
pub open spec fn is_hex(c: char) -> bool {
    is_digit(c) || ('a' <= c && c <= 'f') || ('A' <= c && c <= 'F')
}

/// The value of a hexadecimal digit.
pub open spec fn hex_value(c: char) -> int {
    if is_digit(c) {
        c as int - '0' as int
    } else if 'a' <= c && c <= 'f' {
        c as int - 'a' as int + 10
    } else {
        c as int - 'A' as int + 10
    }
}

/// Where the next `bytes` bytes of `s` end, if they end between scalar values.
pub open spec fn after_bytes(s: Seq<char>, i: int, bytes: int) -> Option<int>
    decreases s.len() - i,
{
    if bytes == 0 {
        Some(i)
    } else if !(0 <= i < s.len()) || char_width(s[i]) > bytes {
        None
    } else {
        after_bytes(s, i + 1, bytes - char_width(s[i]))
    }
}

/// Whether four hexadecimal digits stand at `i`.
pub open spec fn quad_is(s: Seq<char>, i: int) -> bool {
    0 <= i && i + 4 <= s.len() && is_hex(s[i]) && is_hex(s[i + 1]) && is_hex(s[i + 2]) && is_hex(
        s[i + 3],
    )
}

/// The value of the four hexadecimal digits at `i`.
pub open spec fn quad_value(s: Seq<char>, i: int) -> int {
    hex_value(s[i]) * 4096 + hex_value(s[i + 1]) * 256 + hex_value(s[i + 2]) * 16 + hex_value(
        s[i + 3],
    )
}

/// The four hexadecimal digits of a Unicode escape.
pub open spec fn quad_at(s: Seq<char>, i: int) -> Result<int, Fault> {
    if quad_is(s, i) {
        Ok(quad_value(s, i))
    } else if after_bytes(s, i, 4) is None {
        Err(fault_at(s, i, "short Unicode escape"@))
    } else {
        Err(fault_at(s, i, "invalid Unicode escape"@))
    }
}

/// The scalar value of a Unicode escape whose digits start at `i`, and where
/// the escape ends.
pub open spec fn unicode_at(s: Seq<char>, i: int) -> Result<(char, int), Fault> {
    match quad_at(s, i) {
        Err(fault) => Err(fault),
        Ok(first) => if 0xd800 <= first <= 0xdbff {
            if !(char_is(s, i + 4, '\\') && char_is(s, i + 5, 'u')) {
                Err(fault_at(s, i + 4, "high surrogate is not followed by a low surrogate"@))
            } else {
                match quad_at(s, i + 6) {
                    Err(fault) => Err(fault),
                    Ok(second) => if 0xdc00 <= second <= 0xdfff {
                        Ok(
                            (
                                (0x10000 + (first - 0xd800) * 1024 + (second - 0xdc00)) as char,
                                i + 10,
                            ),
                        )
                    } else {
                        Err(fault_at(s, i + 10, "invalid low surrogate"@))
                    },
                }
            }
        } else if 0xdc00 <= first <= 0xdfff {
            Err(fault_at(s, i + 4, "unpaired low surrogate"@))
        } else {
            Ok((first as char, i + 4))
        },
    }
}

/// The scalar value of an escape whose letter stands at `i`, and where the
/// escape ends.
pub open spec fn escape_at(s: Seq<char>, i: int) -> Result<(char, int), Fault> {
    if !(0 <= i < s.len()) {
        Err(fault_at(s, i, "unterminated string escape"@))
    } else if s[i] == '"' || s[i] == '\\' || s[i] == '/' {
        Ok((s[i], i + 1))
    } else if s[i] == 'b' {
        Ok(('\u{08}', i + 1))
    } else if s[i] == 'f' {
        Ok(('\u{0c}', i + 1))
    } else if s[i] == 'n' {
        Ok(('\n', i + 1))
    } else if s[i] == 'r' {
        Ok(('\r', i + 1))
    } else if s[i] == 't' {
        Ok(('\t', i + 1))
    } else if s[i] == 'u' {
        unicode_at(s, i + 1)
    } else {
        Err(Fault { offset: byte_offset(s, i) + 1, message: "invalid string escape"@ })
    }
}

/// The rest of a string from `i` on, after `text`, and where it ends.
pub open spec fn string_at(s: Seq<char>, i: int, text: Seq<char>) -> Result<(Seq<char>, int), Fault>
    decreases s.len() - i,
{
    if !(0 <= i < s.len()) {
        Err(fault_at(s, i, "unterminated string"@))
    } else if s[i] == '"' {
        Ok((text, i + 1))
    } else if s[i] == '\\' {
        match escape_at(s, i + 1) {
            Ok((c, j)) => string_at(s, j, text.push(c)),
            Err(fault) => Err(fault),
        }
    } else if s[i] <= '\u{1f}' {
        Err(fault_at(s, i, "unescaped control character in string"@))
    } else {
        string_at(s, i + 1, text.push(s[i]))
    }
}

/// A string ends after it starts.
pub proof fn lemma_string_at(s: Seq<char>, i: int, text: Seq<char>)
    ensures
        match string_at(s, i, text) {
            Ok((_, j)) => i < j && j <= s.len(),
            Err(_) => true,
        },
    decreases s.len() - i,
{
    if 0 <= i < s.len() && s[i] != '"' {
        if s[i] == '\\' {
            if let Ok((c, j)) = escape_at(s, i + 1) {
                lemma_string_at(s, j, text.push(c));
            }
        } else {
            lemma_string_at(s, i + 1, text.push(s[i]));
        }
    }
}

/// The value that starts at `i`, standing at level `depth`, and where it ends.
pub open spec fn value_at(s: Seq<char>, i: int, depth: int) -> Result<(Json, int), Fault>
    decreases s.len() - i, 0int,
{
    if depth > MAX_JSON_DEPTH {
        Err(fault_at(s, i, "JSON nesting limit exceeded"@))
    } else if !(0 <= i < s.len()) {
        Err(fault_at(s, i, "unexpected end of input"@))
    } else if s[i] == 'n' {
        if continues_with(s, i, "null"@) {
            Ok((Json::Null, i + 4))
        } else {
            Err(fault_at(s, i, "expected null"@))
        }
    } else if s[i] == 't' {
        if continues_with(s, i, "true"@) {
            Ok((Json::Bool(true), i + 4))
        } else {
            Err(fault_at(s, i, "expected true"@))
        }
    } else if s[i] == 'f' {
        if continues_with(s, i, "false"@) {
            Ok((Json::Bool(false), i + 5))
        } else {
            Err(fault_at(s, i, "expected false"@))
        }
    } else if s[i] == '"' {
        match string_at(s, i + 1, Seq::empty()) {
            Ok((text, j)) => Ok((Json::Text(text), j)),
            Err(fault) => Err(fault),
        }
    } else if s[i] == '[' {
        proof {
            lemma_after_space(s, i + 1);
        }
        let j = after_space(s, i + 1);
        if char_is(s, j, ']') {
            Ok((Json::List(Seq::empty()), j + 1))
        } else {
            items_at(s, j, depth + 1, Seq::empty())
        }
    } else if s[i] == '{' {
        proof {
            lemma_after_space(s, i + 1);
        }
        let j = after_space(s, i + 1);
        if char_is(s, j, '}') {
            Ok((Json::Table(Seq::empty()), j + 1))
        } else {
            members_at(s, j, depth + 1, Seq::empty())
        }
    } else if s[i] == '-' || is_digit(s[i]) {
        match number_at(s, i) {
            Ok(j) => Ok((Json::Number(s.subrange(i, j)), j)),
            Err(fault) => Err(fault),
        }
    } else {
        Err(fault_at(s, i, "expected a JSON value"@))
    }
}

/// The rest of an array whose next item starts at `i`, after `items`.
pub open spec fn items_at(s: Seq<char>, i: int, depth: int, items: Seq<Json>) -> Result<
    (Json, int),
    Fault,
>
    decreases s.len() - i, 1int,
{
    match value_at(s, i, depth) {
        Err(fault) => Err(fault),
        Ok((value, end)) => {
            let j = after_space(s, end);
            if char_is(s, j, ']') {
                Ok((Json::List(items.push(value)), j + 1))
            } else if !char_is(s, j, ',') {
                Err(fault_at(s, j, "expected ',' or ']' in array"@))
            } else if i <= j {
                proof {
                    lemma_after_space(s, j + 1);
                }
                items_at(s, after_space(s, j + 1), depth, items.push(value))
            } else {
                arbitrary()
            }
        },
    }
}

/// The rest of an object whose next member starts at `i`, after `members`.
pub open spec fn members_at(
    s: Seq<char>,
    i: int,
    depth: int,
    members: Seq<(Seq<char>, Json)>,
) -> Result<(Json, int), Fault>
    decreases s.len() - i, 1int,
{
    if !char_is(s, i, '"') {
        Err(fault_at(s, i, "object keys must be strings"@))
    } else {
        match string_at(s, i + 1, Seq::empty()) {
            Err(fault) => Err(fault),
            Ok((key, end)) => {
                proof {
                    lemma_string_at(s, i + 1, Seq::empty());
                    lemma_after_space(s, end);
                    lemma_after_space(s, after_space(s, end) + 1);
                }
                let j = after_space(s, end);
                if !char_is(s, j, ':') {
                    Err(fault_at(s, j, "expected ':' after object key"@))
                } else {
                    let k = after_space(s, j + 1);
                    match value_at(s, k, depth) {
                        Err(fault) => Err(fault),
                        Ok((value, stop)) => if lookup(members, key) is Some {
                            Err(fault_at(s, stop, "duplicate object key "@ + debug_text(key)))
                        } else {
                            let next = after_space(s, stop);
                            let bound = with_member(members, key, value);
                            if char_is(s, next, '}') {
                                Ok((Json::Table(bound), next + 1))
                            } else if !char_is(s, next, ',') {
                                Err(fault_at(s, next, "expected ',' or '}' in object"@))
                            } else if i <= next {
                                proof {
                                    lemma_after_space(s, next + 1);
                                }
                                members_at(s, after_space(s, next + 1), depth, bound)
                            } else {
                                arbitrary()
                            }
                        },
                    }
                }
            },
        }
    }
}

/// A number ends after it starts.
pub proof fn lemma_number_at(s: Seq<char>, i: int)
    requires
        0 <= i < s.len(),
    ensures
        match number_at(s, i) {
            Ok(j) => i < j && j <= s.len(),
            Err(_) => true,
        },
{
    let j = if char_is(s, i, '-') {
        i + 1
    } else {
        i
    };
    lemma_after_digits(s, j);
    if digit_is(s, j) {
        lemma_after_digits(s, j + 1);
    }
    if let Ok(k) = integer_at(s, i) {
        lemma_after_digits(s, k + 1);
        if digit_is(s, k + 1) {
            lemma_after_digits(s, k + 2);
        }
        if let Ok(m) = fraction_at(s, k) {
            lemma_after_digits(s, m + 1);
            lemma_after_digits(s, m + 2);
            if digit_is(s, m + 1) {
                lemma_after_digits(s, m + 2);
            }
            if digit_is(s, m + 2) {
                lemma_after_digits(s, m + 3);
            }
        }
    }
}

/// A value ends after it starts.
pub proof fn lemma_value_at(s: Seq<char>, i: int, depth: int)
    ensures
        match value_at(s, i, depth) {
            Ok((_, j)) => i < j && j <= s.len(),
            Err(_) => true,
        },
    decreases s.len() - i, 0int,
{
    if depth <= MAX_JSON_DEPTH && 0 <= i < s.len() {
        reveal_strlit("null");
        reveal_strlit("true");
        reveal_strlit("false");
        lemma_string_at(s, i + 1, Seq::empty());
        lemma_number_at(s, i);
        lemma_after_space(s, i + 1);
        let j = after_space(s, i + 1);
        if s[i] == '[' {
            lemma_items_at(s, j, depth + 1, Seq::empty());
        } else if s[i] == '{' {
            lemma_members_at(s, j, depth + 1, Seq::empty());
        }
    }
}

/// The rest of an array ends after it starts.
proof fn lemma_items_at(s: Seq<char>, i: int, depth: int, items: Seq<Json>)
    ensures
        match items_at(s, i, depth, items) {
            Ok((_, j)) => i < j && j <= s.len(),
            Err(_) => true,
        },
    decreases s.len() - i, 1int,
{
    lemma_value_at(s, i, depth);
    if let Ok((value, end)) = value_at(s, i, depth) {
        let j = after_space(s, end);
        lemma_after_space(s, end);
        lemma_after_space(s, j + 1);
        if char_is(s, j, ',') {
            lemma_items_at(s, after_space(s, j + 1), depth, items.push(value));
        }
    }
}

/// The rest of an object ends after it starts.
proof fn lemma_members_at(s: Seq<char>, i: int, depth: int, members: Seq<(Seq<char>, Json)>)
    ensures
        match members_at(s, i, depth, members) {
            Ok((_, j)) => i < j && j <= s.len(),
            Err(_) => true,
        },
    decreases s.len() - i, 1int,
{
    if char_is(s, i, '"') {
        lemma_string_at(s, i + 1, Seq::empty());
        if let Ok((key, end)) = string_at(s, i + 1, Seq::empty()) {
            let j = after_space(s, end);
            lemma_after_space(s, end);
            lemma_after_space(s, j + 1);
            let k = after_space(s, j + 1);
            if char_is(s, j, ':') {
                lemma_value_at(s, k, depth);
                if let Ok((value, stop)) = value_at(s, k, depth) {
                    let next = after_space(s, stop);
                    lemma_after_space(s, stop);
                    lemma_after_space(s, next + 1);
                    if char_is(s, next, ',') {
                        lemma_members_at(
                            s,
                            after_space(s, next + 1),
                            depth,
                            with_member(members, key, value),
                        );
                    }
                }
            }
        }
    }
}

/// The value that a text holds: one value with optional white space around it.
pub open spec fn parsed(s: Seq<char>) -> Result<Json, Fault> {
    match value_at(s, after_space(s, 0), 0) {
        Err(fault) => Err(fault),
        Ok((value, end)) => {
            let stop = after_space(s, end);
            if stop != s.len() {
                Err(fault_at(s, stop, "trailing characters after JSON value"@))
            } else {
                Ok(value)
            }
        },
    }
}

/// Whether an executable result is the one described.
pub open spec fn gives<T: View>(
    result: Result<(T, usize), JsonError>,
    expected: Result<(T::V, int), Fault>,
) -> bool {
    match (result, expected) {
        (Ok((value, end)), Ok((content, stop))) => value@ == content && end == stop,
        (Err(error), Err(fault)) => error@ == fault,
        _ => false,
    }
}

/// Whether an executable end is the one described.
pub open spec fn ends(result: Result<usize, JsonError>, expected: Result<int, Fault>) -> bool {
    match (result, expected) {
        (Ok(end), Ok(stop)) => end == stop,
        (Err(error), Err(fault)) => error@ == fault,
        _ => false,
    }
}

/// A failure at scalar value `index`.
fn error_at(src: &Vec<char>, index: usize, message: &str) -> (error: JsonError)
    requires
        index <= src.len(),
        utf8_len(src@) <= usize::MAX,
    ensures
        error@ == fault_at(src@, index as int, message@),
{
    JsonError { offset: offset_in_bytes(src.as_slice(), index), message: copy_text(message) }
}

/// Whether the text has `c` at `i`.
fn char_here(src: &Vec<char>, i: usize, c: char) -> (yes: bool)
    ensures
        yes == char_is(src@, i as int, c),
{
    i < src.len() && src[i] == c
}

/// Whether the text has a digit at `i`.
fn digit_here(src: &Vec<char>, i: usize) -> (yes: bool)
    ensures
        yes == digit_is(src@, i as int),
{
    i < src.len() && '0' <= src[i] && src[i] <= '9'
}

/// Skips white space.
fn skip_whitespace(src: &Vec<char>, i: usize) -> (end: usize)
    requires
        i <= src.len(),
    ensures
        end == after_space(src@, i as int),
        i <= end <= src.len(),
{
    let mut j: usize = i;
    while j < src.len() && (src[j] == ' ' || src[j] == '\t' || src[j] == '\r' || src[j] == '\n')
        invariant
            i <= j <= src.len(),
            after_space(src@, i as int) == after_space(src@, j as int),
        decreases src.len() - j,
    {
        j += 1;
    }
    j
}

/// Skips digits.
fn skip_digits(src: &Vec<char>, i: usize) -> (end: usize)
    requires
        i <= src.len(),
    ensures
        end == after_digits(src@, i as int),
        i <= end <= src.len(),
{
    let mut j: usize = i;
    while digit_here(src, j)
        invariant
            i <= j <= src.len(),
            after_digits(src@, i as int) == after_digits(src@, j as int),
        decreases src.len() - j,
    {
        j += 1;
    }
    j
}

/// Whether the text continues with `word` at `i`.
fn word_here(src: &Vec<char>, i: usize, word: &str) -> (yes: bool)
    requires
        i <= src.len(),
    ensures
        yes == continues_with(src@, i as int, word@),
{
    let letters = chars_of(word);
    if src.len() - i < letters.len() {
        return false;
    }
    let mut k: usize = 0;
    while k < letters.len()
        invariant
            k <= letters.len() == word@.len(),
            letters@ == word@,
            i + letters.len() <= src.len(),
            forall|m: int| 0 <= m < k ==> src@[i + m] == word@[m],
        decreases letters.len() - k,
    {
        if src[i + k] != letters[k] {
            assert(src@.subrange(i as int, i + word@.len())[k as int] == src@[i + k]);
            return false;
        }
        k += 1;
    }
    assert(src@.subrange(i as int, i + word@.len()) =~= word@);
    true
}

/// Reads the end of a number.
fn parse_number(src: &Vec<char>, i: usize) -> (end: Result<usize, JsonError>)
    requires
        i < src.len(),
        utf8_len(src@) <= usize::MAX,
    ensures
        ends(end, number_at(src@, i as int)),
        end matches Ok(j) ==> j <= src.len(),
{
    proof {
        lemma_number_at(src@, i as int);
    }
    let j: usize = if char_here(src, i, '-') {
        i + 1
    } else {
        i
    };
    let k: usize = if char_here(src, j, '0') {
        if digit_here(src, j + 1) {
            return Err(error_at(src, j + 1, "leading zero in number"));
        }
        j + 1
    } else if digit_here(src, j) {
        skip_digits(src, j)
    } else {
        return Err(error_at(src, j, "invalid number"));
    };
    let m: usize = if char_here(src, k, '.') {
        if !digit_here(src, k + 1) {
            return Err(error_at(src, k + 1, "number fraction has no digits"));
        }
        skip_digits(src, k + 1)
    } else {
        k
    };
    if char_here(src, m, 'e') || char_here(src, m, 'E') {
        let n: usize = if char_here(src, m + 1, '+') || char_here(src, m + 1, '-') {
            m + 2
        } else {
            m + 1
        };
        if !digit_here(src, n) {
            return Err(error_at(src, n, "number exponent has no digits"));
        }
        Ok(skip_digits(src, n))
    } else {
        Ok(m)
    }
}

/// Whether `c` is a hexadecimal digit.
fn hex_here(c: char) -> (yes: bool)
    ensures
        yes == is_hex(c),
{
    ('0' <= c && c <= '9') || ('a' <= c && c <= 'f') || ('A' <= c && c <= 'F')
}

/// The value of a hexadecimal digit.
fn hex_of(c: char) -> (d: u32)
    requires
        is_hex(c),
    ensures
        d == hex_value(c),
        d < 16,
{
    let v: u32 = c as u32;
    if '0' <= c && c <= '9' {
        v - 48
    } else if 'a' <= c && c <= 'f' {
        v - 97 + 10
    } else {
        v - 65 + 10
    }
}

/// Whether the next four bytes end between scalar values.
fn four_bytes_here(src: &Vec<char>, i: usize) -> (yes: bool)
    requires
        i <= src.len(),
    ensures
        yes == (after_bytes(src@, i as int, 4) is Some),
{
    let mut j: usize = i;
    let mut bytes: usize = 4;
    while bytes > 0
        invariant
            j <= src.len(),
            bytes <= 4,
            after_bytes(src@, i as int, 4) == after_bytes(src@, j as int, bytes as int),
        decreases bytes,
    {
        if j >= src.len() {
            return false;
        }
        let width = width_of(src[j]);
        if width > bytes {
            return false;
        }
        bytes -= width;
        j += 1;
    }
    true
}

/// Reads four hexadecimal digits.
fn parse_hex_quad(src: &Vec<char>, i: usize) -> (value: Result<u32, JsonError>)
    requires
        i <= src.len(),
        utf8_len(src@) <= usize::MAX,
    ensures
        match (value, quad_at(src@, i as int)) {
            (Ok(v), Ok(n)) => v == n && v <= 0xffff && i + 4 <= src.len(),
            (Err(error), Err(fault)) => error@ == fault,
            _ => false,
        },
{
    if src.len() - i >= 4 && hex_here(src[i]) && hex_here(src[i + 1]) && hex_here(src[i + 2])
        && hex_here(src[i + 3]) {
        return Ok(
            hex_of(src[i]) * 4096 + hex_of(src[i + 1]) * 256 + hex_of(src[i + 2]) * 16 + hex_of(
                src[i + 3],
            ),
        );
    }
    if four_bytes_here(src, i) {
        Err(error_at(src, i, "invalid Unicode escape"))
    } else {
        Err(error_at(src, i, "short Unicode escape"))
    }
}

/// `char::from_u32` gives the scalar value with the given number, and nothing
/// for surrogates and for numbers that are too large.
pub assume_specification[ char::from_u32 ](i: u32) -> (c: Option<char>)
    ensures
        c == (if i <= 0x10ffff && !(0xd800 <= i <= 0xdfff) {
            Some(i as char)
        } else {
            None
        }),
;

/// The scalar value with number `value`.
fn scalar_of(value: u32) -> (c: char)
    requires
        value <= 0x10ffff && !(0xd800 <= value <= 0xdfff),
    ensures
        c == value as char,
{
    match char::from_u32(value) {
        Some(c) => c,
        None => ' ',
    }
}

/// Reads the rest of a Unicode escape.
fn parse_unicode(src: &Vec<char>, i: usize) -> (result: Result<(char, usize), JsonError>)
    requires
        i <= src.len(),
        utf8_len(src@) <= usize::MAX,
    ensures
        match (result, unicode_at(src@, i as int)) {
            (Ok((c, end)), Ok((scalar, stop))) => c == scalar && end == stop && end <= src.len(),
            (Err(error), Err(fault)) => error@ == fault,
            _ => false,
        },
{
    let first = match parse_hex_quad(src, i) {
        Ok(first) => first,
        Err(error) => {
            return Err(error);
        },
    };
    if 0xd800 <= first && first <= 0xdbff {
        if !(char_here(src, i + 4, '\\') && char_here(src, i + 5, 'u')) {
            return Err(
                error_at(src, i + 4, "high surrogate is not followed by a low surrogate"),
            );
        }
        let second = match parse_hex_quad(src, i + 6) {
            Ok(second) => second,
            Err(error) => {
                return Err(error);
            },
        };
        if !(0xdc00 <= second && second <= 0xdfff) {
            return Err(error_at(src, i + 10, "invalid low surrogate"));
        }
        let scalar: u32 = 0x10000 + (first - 0xd800) * 1024 + (second - 0xdc00);
        Ok((scalar_of(scalar), i + 10))
    } else if 0xdc00 <= first && first <= 0xdfff {
        Err(error_at(src, i + 4, "unpaired low surrogate"))
    } else {
        Ok((scalar_of(first), i + 4))
    }
}

/// Reads the rest of an escape.
fn parse_escape(src: &Vec<char>, i: usize) -> (result: Result<(char, usize), JsonError>)
    requires
        0 < i <= src.len(),
        utf8_len(src@) <= usize::MAX,
    ensures
        match (result, escape_at(src@, i as int)) {
            (Ok((c, end)), Ok((scalar, stop))) => c == scalar && end == stop && end <= src.len(),
            (Err(error), Err(fault)) => error@ == fault,
            _ => false,
        },
{
    if i >= src.len() {
        return Err(error_at(src, i, "unterminated string escape"));
    }
    let c = src[i];
    if c == '"' || c == '\\' || c == '/' {
        Ok((c, i + 1))
    } else if c == 'b' {
        Ok(('\u{08}', i + 1))
    } else if c == 'f' {
        Ok(('\u{0c}', i + 1))
    } else if c == 'n' {
        Ok(('\n', i + 1))
    } else if c == 'r' {
        Ok(('\r', i + 1))
    } else if c == 't' {
        Ok(('\t', i + 1))
    } else if c == 'u' {
        parse_unicode(src, i + 1)
    } else {
        proof {
            lemma_utf8_len_take(src@, i as int);
            assert(src@.skip(i as int)[0] == c);
            lemma_utf8_len_cons(src@.skip(i as int));
        }
        Err(
            JsonError {
                offset: offset_in_bytes(src.as_slice(), i) + 1,
                message: copy_text("invalid string escape"),
            },
        )
    }
}

/// Reads the rest of a string.
fn parse_string(src: &Vec<char>, i: usize) -> (result: Result<(String, usize), JsonError>)
    requires
        0 < i <= src.len(),
        utf8_len(src@) <= usize::MAX,
    ensures
        gives(result, string_at(src@, i as int, Seq::empty())),
        result matches Ok((_, j)) ==> i < j && j <= src.len(),
{
    let mut out = String::new();
    let mut j: usize = i;
    proof {
        lemma_string_at(src@, i as int, Seq::empty());
    }
    loop
        invariant
            0 < j <= src.len(),
            i <= j,
            utf8_len(src@) <= usize::MAX,
            string_at(src@, i as int, Seq::empty()) == string_at(src@, j as int, out@),
            match string_at(src@, i as int, Seq::empty()) {
                Ok((_, end)) => i < end && end <= src.len(),
                Err(_) => true,
            },
        decreases src.len() - j,
    {
        if j >= src.len() {
            return Err(error_at(src, j, "unterminated string"));
        }
        let c = src[j];
        if c == '"' {
            return Ok((out, j + 1));
        } else if c == '\\' {
            match parse_escape(src, j + 1) {
                Ok((scalar, end)) => {
                    out.push(scalar);
                    j = end;
                },
                Err(error) => {
                    return Err(error);
                },
            }
        } else if c <= '\u{1f}' {
            return Err(error_at(src, j, "unescaped control character in string"));
        } else {
            out.push(c);
            j += 1;
        }
    }
}

/// Reads a value.
fn parse_value(src: &Vec<char>, i: usize, depth: usize) -> (result: Result<
    (JsonValue, usize),
    JsonError,
>)
    requires
        i <= src.len(),
        depth <= MAX_JSON_DEPTH + 1,
        utf8_len(src@) <= usize::MAX,
    ensures
        gives(result, value_at(src@, i as int, depth as int)),
        result matches Ok((_, j)) ==> i < j && j <= src.len(),
    decreases src.len() - i, 1int,
{
    proof {
        lemma_value_at(src@, i as int, depth as int);
        reveal_strlit("null");
        reveal_strlit("true");
        reveal_strlit("false");
    }
    if depth > MAX_JSON_DEPTH {
        return Err(error_at(src, i, "JSON nesting limit exceeded"));
    }
    if i >= src.len() {
        return Err(error_at(src, i, "unexpected end of input"));
    }
    let c = src[i];
    if c == 'n' {
        if word_here(src, i, "null") {
            Ok((JsonValue::Null, i + 4))
        } else {
            Err(error_at(src, i, "expected null"))
        }
    } else if c == 't' {
        if word_here(src, i, "true") {
            Ok((JsonValue::Bool(true), i + 4))
        } else {
            Err(error_at(src, i, "expected true"))
        }
    } else if c == 'f' {
        if word_here(src, i, "false") {
            Ok((JsonValue::Bool(false), i + 5))
        } else {
            Err(error_at(src, i, "expected false"))
        }
    } else if c == '"' {
        match parse_string(src, i + 1) {
            Ok((text, end)) => Ok((JsonValue::String(text), end)),
            Err(error) => Err(error),
        }
    } else if c == '[' {
        parse_array(src, i, depth + 1)
    } else if c == '{' {
        parse_object(src, i, depth + 1)
    } else if c == '-' || ('0' <= c && c <= '9') {
        match parse_number(src, i) {
            Ok(end) => {
                let number = JsonNumber { text: text_of(src.as_slice(), i, end) };
                proof {
                    lemma_spelling(number);
                }
                Ok((JsonValue::Number(number), end))
            },
            Err(error) => Err(error),
        }
    } else {
        Err(error_at(src, i, "expected a JSON value"))
    }
}

/// Reads an array.
fn parse_array(src: &Vec<char>, i: usize, depth: usize) -> (result: Result<
    (JsonValue, usize),
    JsonError,
>)
    requires
        i < src.len(),
        src@[i as int] == '[',
        1 <= depth <= MAX_JSON_DEPTH + 1,
        utf8_len(src@) <= usize::MAX,
    ensures
        gives(result, value_at(src@, i as int, depth - 1)),
    decreases src.len() - i, 0int,
{
    let start = skip_whitespace(src, i + 1);
    let mut items: Vec<JsonValue> = Vec::new();
    proof {
        lemma_list_of(items@);
        assert(list_of(items@) =~= Seq::<Json>::empty());
    }
    if char_here(src, start, ']') {
        return Ok((JsonValue::Array(items), start + 1));
    }
    let mut j: usize = start;
    loop
        invariant
            i < j <= src.len(),
            1 <= depth <= MAX_JSON_DEPTH + 1,
            utf8_len(src@) <= usize::MAX,
            value_at(src@, i as int, depth - 1) == items_at(
                src@,
                j as int,
                depth as int,
                list_of(items@),
            ),
        decreases src.len() - j,
    {
        let (value, end) = match parse_value(src, j, depth) {
            Ok(parsed_value) => parsed_value,
            Err(error) => {
                return Err(error);
            },
        };
        let ghost before = items@;
        items.push(value);
        proof {
            assert(items@.drop_last() =~= before);
            assert(list_of(items@) == list_of(before).push(value@));
        }
        let stop = skip_whitespace(src, end);
        if char_here(src, stop, ']') {
            return Ok((JsonValue::Array(items), stop + 1));
        }
        if !char_here(src, stop, ',') {
            return Err(error_at(src, stop, "expected ',' or ']' in array"));
        }
        j = skip_whitespace(src, stop + 1);
    }
}

/// Reads an object.
fn parse_object(src: &Vec<char>, i: usize, depth: usize) -> (result: Result<
    (JsonValue, usize),
    JsonError,
>)
    requires
        i < src.len(),
        src@[i as int] == '{',
        1 <= depth <= MAX_JSON_DEPTH + 1,
        utf8_len(src@) <= usize::MAX,
    ensures
        gives(result, value_at(src@, i as int, depth - 1)),
    decreases src.len() - i, 0int,
{
    let start = skip_whitespace(src, i + 1);
    let mut object = JsonObject::new();
    if char_here(src, start, '}') {
        return Ok((JsonValue::Object(object), start + 1));
    }
    let mut j: usize = start;
    loop
        invariant
            i < j <= src.len(),
            1 <= depth <= MAX_JSON_DEPTH + 1,
            utf8_len(src@) <= usize::MAX,
            ordered(object@),
            value_at(src@, i as int, depth - 1) == members_at(
                src@,
                j as int,
                depth as int,
                object@,
            ),
        decreases src.len() - j,
    {
        if !char_here(src, j, '"') {
            return Err(error_at(src, j, "object keys must be strings"));
        }
        let (key, end) = match parse_string(src, j + 1) {
            Ok(parsed_key) => parsed_key,
            Err(error) => {
                return Err(error);
            },
        };
        let colon = skip_whitespace(src, end);
        if !char_here(src, colon, ':') {
            return Err(error_at(src, colon, "expected ':' after object key"));
        }
        let first = skip_whitespace(src, colon + 1);
        let (value, stop) = match parse_value(src, first, depth) {
            Ok(parsed_value) => parsed_value,
            Err(error) => {
                return Err(error);
            },
        };
        if object.contains_key(key.as_str()) {
            let mut message = copy_text("duplicate object key ");
            message.push_str(debug_quoted(key.as_str()).as_str());
            return Err(error_at(src, stop, message.as_str()));
        }
        let _ = object.insert(key, value);
        let next = skip_whitespace(src, stop);
        if char_here(src, next, '}') {
            return Ok((JsonValue::Object(object), next + 1));
        }
        if !char_here(src, next, ',') {
            return Err(error_at(src, next, "expected ',' or '}' in object"));
        }
        j = skip_whitespace(src, next + 1);
    }
}

impl JsonValue {
    /// Parses one JSON value with optional white space around it.
    pub fn parse(source: &str) -> (result: Result<JsonValue, JsonError>)
        ensures
            match (result, parsed(source@)) {
                (Ok(value), Ok(content)) => value@ == content,
                (Err(error), Err(fault)) => error@ == fault,
                _ => false,
            },
    {
        let _bytes = byte_len(source);
        let src = chars_of(source);
        let start = skip_whitespace(&src, 0);
        match parse_value(&src, start, 0) {
            Ok((value, end)) => {
                let stop = skip_whitespace(&src, end);
                if stop != src.len() {
                    Err(error_at(&src, stop, "trailing characters after JSON value"))
                } else {
                    Ok(value)
                }
            },
            Err(error) => Err(error),
        }
    }
}

impl JsonError {
    /// A sentence that names the offset.
    pub fn describe(&self) -> (text: String)
        ensures
            text@ == described(self@),
    {
        let mut text = copy_text("invalid JSON at byte ");
        push_decimal(&mut text, self.offset as u64);
        text.push_str(": ");
        text.push_str(self.message.as_str());
        text
    }
}

/// The sentence for a failure.
pub open spec fn described(fault: Fault) -> Seq<char> {
    "invalid JSON at byte "@ + decimal(fault.offset) + ": "@ + fault.message
}

} // verus!
