//! What the JSON reader promises: which texts are numbers, strings and words, and
//! which are refused.
use vstd::prelude::*;

use crate::format_laws::law_json_white_space;
use crate::json::{lookup, Json};
use crate::json_parse::{
    after_digits, after_space, exponent_at, fraction_at, integer_at, is_space, items_at, members_at,
    parsed, string_at, value_at, Fault,
};

verus! {

/// Whether `s[from..to]` holds digits only.
pub open spec fn among_digits(s: Seq<char>, from: int, to: int) -> bool {
    forall|k: int| from <= k < to ==> '0' <= #[trigger] s[k] <= '9'
}

/// Whether a run of digits ends at `end`.
pub open spec fn digits_end(s: Seq<char>, end: int) -> bool {
    end == s.len() || (0 <= end < s.len() && !('0' <= s[end] <= '9'))
}

proof fn lemma_digit_run(s: Seq<char>, i: int, end: int)
    requires
        0 <= i <= end <= s.len(),
        among_digits(s, i, end),
        digits_end(s, end),
    ensures
        after_digits(s, i) == end,
    decreases end - i,
{
    if i < end {
        lemma_digit_run(s, i + 1, end);
    }
}

/// The integer part of a number is a zero or a run of digits that starts with
/// another digit, behind an optional sign. A zero before a digit is refused, and
/// so is a part without digits.
pub proof fn law_integer_parts(s: Seq<char>, i: int, end: int)
    requires
        0 <= i < s.len(),
        i <= end <= s.len(),
    ensures
        ({
            let start = if s[i] == '-' {
                i + 1
            } else {
                i
            };
            let first = start < s.len() && '0' <= s[start] <= '9';
            let second = start + 1 < s.len() && '0' <= s[start + 1] <= '9';
            &&& !first ==> integer_at(s, i) is Err
            &&& first && s[start] == '0' && second ==> integer_at(s, i) is Err
            &&& first && s[start] == '0' && !second ==> integer_at(s, i) == Ok::<int, Fault>(
                start + 1,
            )
            &&& first && s[start] != '0' && start < end && among_digits(s, start, end)
                && digits_end(s, end) ==> integer_at(s, i) == Ok::<int, Fault>(end)
        }),
{
    let start = if s[i] == '-' {
        i + 1
    } else {
        i
    };
    if start < end && among_digits(s, start, end) && digits_end(s, end) {
        lemma_digit_run(s, start, end);
    }
}

/// A fraction is a point and at least one digit. Without a point there is none.
pub proof fn law_fractions(s: Seq<char>, i: int, end: int)
    requires
        0 <= i <= end <= s.len(),
    ensures
        i == s.len() || s[i] != '.' ==> fraction_at(s, i) == Ok::<int, Fault>(i),
        i < s.len() && s[i] == '.' && digits_end(s, i + 1) ==> fraction_at(s, i) is Err,
        i < s.len() && s[i] == '.' && i + 1 < end && among_digits(s, i + 1, end) && digits_end(
            s,
            end,
        ) ==> fraction_at(s, i) == Ok::<int, Fault>(end),
{
    if i < s.len() && s[i] == '.' && i + 1 < end && among_digits(s, i + 1, end) && digits_end(
        s,
        end,
    ) {
        lemma_digit_run(s, i + 1, end);
        assert('0' <= s[i + 1] <= '9');
    }
}

/// An exponent is a letter `e`, an optional sign and at least one digit. Without
/// the letter there is none.
pub proof fn law_exponents(s: Seq<char>, i: int, end: int)
    requires
        0 <= i <= end <= s.len(),
    ensures
        i == s.len() || (s[i] != 'e' && s[i] != 'E') ==> exponent_at(s, i) == Ok::<int, Fault>(i),
        i < s.len() && (s[i] == 'e' || s[i] == 'E') ==> {
            let start = if i + 1 < s.len() && (s[i + 1] == '+' || s[i + 1] == '-') {
                i + 2
            } else {
                i + 1
            };
            &&& digits_end(s, start) ==> exponent_at(s, i) is Err
            &&& start < end && among_digits(s, start, end) && digits_end(s, end) ==> exponent_at(
                s,
                i,
            ) == Ok::<int, Fault>(end)
        },
{
    if i < s.len() && (s[i] == 'e' || s[i] == 'E') {
        let start = if i + 1 < s.len() && (s[i + 1] == '+' || s[i + 1] == '-') {
            i + 2
        } else {
            i + 1
        };
        if start < end && among_digits(s, start, end) && digits_end(s, end) {
            lemma_digit_run(s, start, end);
            assert('0' <= s[start] <= '9');
        }
    }
}

/// Whether `s[from..to]` stands for itself in a string.
pub open spec fn stands_for_itself(s: Seq<char>, from: int, to: int) -> bool {
    forall|k: int|
        from <= k < to ==> (#[trigger] s[k]) != '"' && s[k] != '\\' && (s[k] as u32) >= 0x20
}

proof fn lemma_below_space(c: char)
    ensures
        c <= '\u{1f}' <==> (c as u32) < 0x20,
{
}

/// A string goes up to the next quote. It is refused where no quote follows, and
/// where a control character stands in it.
pub proof fn law_strings(s: Seq<char>, i: int, end: int, text: Seq<char>)
    requires
        0 <= i <= end <= s.len(),
        stands_for_itself(s, i, end),
    ensures
        end == s.len() ==> string_at(s, i, text) is Err,
        end < s.len() && s[end] == '"' ==> string_at(s, i, text) == Ok::<(Seq<char>, int), Fault>(
            (text + s.subrange(i, end), end + 1),
        ),
        end < s.len() && (s[end] as u32) < 0x20 ==> string_at(s, i, text) is Err,
    decreases end - i,
{
    if i < s.len() {
        lemma_below_space(s[i]);
    }
    if i < end {
        law_strings(s, i + 1, end, text.push(s[i]));
        assert(text.push(s[i]) + s.subrange(i + 1, end) =~= text + s.subrange(i, end));
    } else {
        assert(text + s.subrange(i, end) =~= text);
    }
}

/// The words of JSON stand for `null` and the truth values. Any other word is
/// refused.
pub proof fn law_words(s: Seq<char>, i: int, depth: int)
    requires
        0 <= i < s.len(),
        0 <= depth <= 128,
    ensures
        i + 4 <= s.len() && s.subrange(i, i + 4) == "null"@ ==> value_at(s, i, depth) == Ok::<
            (Json, int),
            Fault,
        >((Json::Null, i + 4)),
        i + 4 <= s.len() && s.subrange(i, i + 4) == "true"@ ==> value_at(s, i, depth) == Ok::<
            (Json, int),
            Fault,
        >((Json::Bool(true), i + 4)),
        i + 5 <= s.len() && s.subrange(i, i + 5) == "false"@ ==> value_at(s, i, depth) == Ok::<
            (Json, int),
            Fault,
        >((Json::Bool(false), i + 5)),
        s[i] == 'n' && !(i + 4 <= s.len() && s.subrange(i, i + 4) == "null"@) ==> value_at(
            s,
            i,
            depth,
        ) is Err,
        s[i] == 't' && !(i + 4 <= s.len() && s.subrange(i, i + 4) == "true"@) ==> value_at(
            s,
            i,
            depth,
        ) is Err,
        s[i] == 'f' && !(i + 5 <= s.len() && s.subrange(i, i + 5) == "false"@) ==> value_at(
            s,
            i,
            depth,
        ) is Err,
        !"ntf\"[{-0123456789"@.contains(s[i]) ==> value_at(s, i, depth) is Err,
{
    reveal_strlit("null");
    reveal_strlit("true");
    reveal_strlit("false");
    reveal_strlit("ntf\"[{-0123456789");
    if i + 4 <= s.len() {
        assert(s.subrange(i, i + 4)[0] == s[i]);
    }
    if i + 5 <= s.len() {
        assert(s.subrange(i, i + 5)[0] == s[i]);
    }
    let starts = "ntf\"[{-0123456789"@;
    assert(starts[0] == 'n' && starts[1] == 't' && starts[2] == 'f' && starts[3] == '"' && starts[4]
        == '[' && starts[5] == '{' && starts[6] == '-' && starts[7] == '0' && starts[8] == '1'
        && starts[9] == '2' && starts[10] == '3' && starts[11] == '4' && starts[12] == '5'
        && starts[13] == '6' && starts[14] == '7' && starts[15] == '8' && starts[16] == '9');
    let c = s[i];
    if '0' <= c <= '9' {
        let n = c as u32;
        assert(n == 48 || n == 49 || n == 50 || n == 51 || n == 52 || n == 53 || n == 54 || n == 55
            || n == 56 || n == 57);
        assert(c == '0' || c == '1' || c == '2' || c == '3' || c == '4' || c == '5' || c == '6' || c
            == '7' || c == '8' || c == '9');
    }
}

/// A value that stands in more than 128 others is refused.
pub proof fn law_deep_values_are_refused(s: Seq<char>, i: int, depth: int)
    requires
        depth > 128,
    ensures
        value_at(s, i, depth) is Err,
        items_at(s, i, depth, Seq::empty()) is Err,
{
}

/// An array is empty or holds items one level deeper than it stands, and so do an
/// object and its members.
pub proof fn law_brackets(s: Seq<char>, i: int, depth: int)
    requires
        0 <= i < s.len(),
        0 <= depth <= 128,
    ensures
        ({
            let j = after_space(s, i + 1);
            let closes = |c: char| 0 <= j < s.len() && s[j] == c;
            &&& s[i] == '[' && closes(']') ==> value_at(s, i, depth) == Ok::<(Json, int), Fault>(
                (Json::List(Seq::empty()), j + 1),
            )
            &&& s[i] == '[' && !closes(']') ==> value_at(s, i, depth) == items_at(
                s,
                j,
                depth + 1,
                Seq::empty(),
            )
            &&& s[i] == '{' && closes('}') ==> value_at(s, i, depth) == Ok::<(Json, int), Fault>(
                (Json::Table(Seq::empty()), j + 1),
            )
            &&& s[i] == '{' && !closes('}') ==> value_at(s, i, depth) == members_at(
                s,
                j,
                depth + 1,
                Seq::empty(),
            )
        }),
{
}

/// The items of an array have commas between them, and a bracket behind the last.
pub proof fn law_array_items(s: Seq<char>, i: int, depth: int, items: Seq<Json>)
    ensures
        value_at(s, i, depth) is Err ==> items_at(s, i, depth, items) is Err,
        value_at(s, i, depth) matches Ok((value, end)) ==> {
            let j = after_space(s, end);
            &&& 0 <= j < s.len() && s[j] == ']' ==> items_at(s, i, depth, items) == Ok::<
                (Json, int),
                Fault,
            >((Json::List(items.push(value)), j + 1))
            &&& 0 <= i <= j < s.len() && s[j] == ',' ==> items_at(s, i, depth, items) == items_at(
                s,
                after_space(s, j + 1),
                depth,
                items.push(value),
            )
            &&& !(0 <= j < s.len() && (s[j] == ']' || s[j] == ',')) ==> items_at(s, i, depth, items)
                is Err
        },
{
}

/// A key stands in quotes, a colon stands behind it, and no key occurs twice in
/// an object.
pub proof fn law_object_members(
    s: Seq<char>,
    i: int,
    depth: int,
    members: Seq<(Seq<char>, Json)>,
    key: Seq<char>,
    end: int,
)
    ensures
        !(0 <= i < s.len() && s[i] == '"') ==> members_at(s, i, depth, members) is Err,
        0 <= i < s.len() && s[i] == '"' && string_at(s, i + 1, Seq::empty()) == Ok::<
            (Seq<char>, int),
            Fault,
        >((key, end)) ==> {
            let j = after_space(s, end);
            &&& !(0 <= j < s.len() && s[j] == ':') ==> members_at(s, i, depth, members) is Err
            &&& lookup(members, key) is Some ==> members_at(s, i, depth, members) is Err
        },
{
}

/// White space around a value does not matter; anything else behind it is
/// refused, and so is a text without a value.
pub proof fn law_one_value(s: Seq<char>, at: int, value: Json, end: int)
    requires
        0 <= at <= end <= s.len(),
        forall|k: int| 0 <= k < at ==> " \t\n\r"@.contains(#[trigger] s[k]),
        at < s.len() ==> !" \t\n\r"@.contains(s[at]),
        value_at(s, at, 0) == Ok::<(Json, int), Fault>((value, end)),
    ensures
        (forall|k: int| end <= k < s.len() ==> " \t\n\r"@.contains(#[trigger] s[k])) ==> parsed(s)
            == Ok::<Json, Fault>(value),
        (exists|k: int|
            end <= k < s.len() && !" \t\n\r"@.contains(#[trigger] s[k])) ==> parsed(s) is Err,
{
    lemma_spaces(s, 0, at);
    if exists|k: int| end <= k < s.len() && !" \t\n\r"@.contains(#[trigger] s[k]) {
        let k = choose|k: int| end <= k < s.len() && !" \t\n\r"@.contains(#[trigger] s[k]);
        lemma_stops(s, end, k);
    } else {
        lemma_spaces(s, end, s.len() as int);
    }
}

proof fn lemma_space(c: char)
    ensures
        is_space(c) <==> " \t\n\r"@.contains(c),
{
    reveal_strlit(" \t\n\r");
    law_json_white_space(c);
    let spaces = " \t\n\r"@;
    assert(spaces[0] == ' ' && spaces[1] == '\t' && spaces[2] == '\n' && spaces[3] == '\r');
}

proof fn lemma_spaces(s: Seq<char>, i: int, end: int)
    requires
        0 <= i <= end <= s.len(),
        forall|k: int| i <= k < end ==> " \t\n\r"@.contains(#[trigger] s[k]),
        end < s.len() ==> !" \t\n\r"@.contains(s[end]),
    ensures
        after_space(s, i) == end,
    decreases end - i,
{
    if i < s.len() {
        lemma_space(s[i]);
    }
    if i < end {
        lemma_spaces(s, i + 1, end);
    }
}

proof fn lemma_stops(s: Seq<char>, i: int, k: int)
    requires
        0 <= i <= k < s.len(),
        !" \t\n\r"@.contains(s[k]),
    ensures
        after_space(s, i) <= k,
    decreases k - i,
{
    lemma_space(s[i]);
    if i < k {
        lemma_stops(s, i + 1, k);
    }
}

} // verus!
