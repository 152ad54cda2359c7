//! What printing and parsing JSON promise together.
use vstd::prelude::*;

use crate::json::{
    lemma_absent_below, lemma_with_member, ordered, with_member, Json, MAX_JSON_DEPTH,
};
use crate::json_parse::{
    after_digits, after_space, char_is, digit_is, exponent_at, fraction_at, hex_value, integer_at,
    is_space, items_at, lemma_after_digits, lemma_after_space, lemma_number_at, lemma_string_at,
    lemma_value_at, members_at, number_at, parsed, quad_is, quad_value, string_at, unicode_at,
    value_at,
};
use crate::json_write::{
    escaped, escaped_text, height, items_height, lemma_escaped_prefix, lemma_escaped_split,
    lemma_items_split, lemma_items_step, lemma_members_split, lemma_members_step, member_height,
    members_height, printed, printed_items, printed_member, printed_members, quoted, separated,
};
use crate::text::{is_digit, text_before};

verus! {

/// Whether a text is the spelling of one JSON number.
pub open spec fn is_number(text: Seq<char>) -> bool {
    text.len() > 0 && number_at(text, 0) == Ok::<int, crate::json_parse::Fault>(text.len() as int)
}

/// Whether a value could have been parsed: numbers are spelled as JSON wants
/// it and the keys of each object increase.
pub open spec fn well_formed(value: Json) -> bool
    decreases value,
{
    match value {
        Json::Number(text) => is_number(text),
        Json::List(items) => items_well_formed(items),
        Json::Table(members) => ordered(members) && members_well_formed(members),
        _ => true,
    }
}

/// Whether every item is well formed.
pub open spec fn items_well_formed(items: Seq<Json>) -> bool
    decreases items,
{
    items.len() == 0 || (items_well_formed(items.drop_last()) && well_formed(items.last()))
}

/// Whether every member is well formed.
pub open spec fn members_well_formed(members: Seq<(Seq<char>, Json)>) -> bool
    decreases members,
{
    members.len() == 0 || (members_well_formed(members.drop_last()) && member_well_formed(
        members.last(),
    ))
}

/// Whether the value of a member is well formed.
pub open spec fn member_well_formed(member: (Seq<char>, Json)) -> bool
    decreases member,
{
    well_formed(member.1)
}

proof fn lemma_items_well_formed(items: Seq<Json>, i: int)
    requires
        items_well_formed(items),
        0 <= i < items.len(),
    ensures
        well_formed(items[i]),
        height(items[i]) + 1 <= items_height(items),
    decreases items.len(),
{
    if i < items.len() - 1 {
        lemma_items_well_formed(items.drop_last(), i);
    }
}

proof fn lemma_members_well_formed(members: Seq<(Seq<char>, Json)>, i: int)
    requires
        members_well_formed(members),
        0 <= i < members.len(),
    ensures
        well_formed(members[i].1),
        height(members[i].1) + 1 <= members_height(members),
    decreases members.len(),
{
    if i < members.len() - 1 {
        lemma_members_well_formed(members.drop_last(), i);
    } else {
        assert(member_well_formed(members.last()) == well_formed(members[i].1));
        assert(member_height(members.last()) == height(members[i].1));
    }
}

/// Whether `s` holds `part` at `i`.
pub open spec fn holds(s: Seq<char>, i: int, part: Seq<char>) -> bool {
    0 <= i && i + part.len() <= s.len() && s.subrange(i, i + part.len()) == part
}

/// Whether a value may end at `i`.
pub open spec fn may_end(s: Seq<char>, i: int) -> bool {
    i == s.len() || char_is(s, i, ',') || char_is(s, i, ']') || char_is(s, i, '}')
}

proof fn lemma_holds_index(s: Seq<char>, i: int, part: Seq<char>, k: int)
    requires
        holds(s, i, part),
        0 <= k < part.len(),
    ensures
        s[i + k] == part[k],
{
    assert(s.subrange(i, i + part.len())[k] == s[i + k]);
}

proof fn lemma_holds_part(s: Seq<char>, i: int, a: Seq<char>, b: Seq<char>)
    requires
        holds(s, i, a + b),
    ensures
        holds(s, i, a),
        holds(s, i + a.len(), b),
{
    assert forall|k: int| 0 <= k < (a + b).len() implies s[i + k] == (a + b)[k] by {
        lemma_holds_index(s, i, a + b, k);
    }
    assert(s.subrange(i, i + a.len()) =~= a) by {
        assert forall|k: int| 0 <= k < a.len() implies s.subrange(i, i + a.len())[k] == a[k] by {
            assert(s[i + k] == (a + b)[k]);
        }
    }
    assert(s.subrange(i + a.len(), i + a.len() + b.len()) =~= b) by {
        assert forall|k: int| 0 <= k < b.len() implies s.subrange(
            i + a.len(),
            i + a.len() + b.len(),
        )[k] == b[k] by {
            assert(s[i + (a.len() + k)] == (a + b)[a.len() + k]);
        }
    }
}

/// Digits in a longer text end where they end on their own.
proof fn lemma_digits_in_context(s: Seq<char>, i: int, text: Seq<char>, k: int)
    requires
        holds(s, i, text),
        may_end(s, i + text.len()),
        0 <= k <= text.len(),
    ensures
        after_digits(s, i + k) == i + after_digits(text, k),
        digit_is(s, i + k) == digit_is(text, k),
    decreases text.len() - k,
{
    if k < text.len() {
        lemma_holds_index(s, i, text, k);
        lemma_digits_in_context(s, i, text, k + 1);
    }
}

proof fn lemma_char_in_context(s: Seq<char>, i: int, text: Seq<char>, k: int, c: char)
    requires
        holds(s, i, text),
        may_end(s, i + text.len()),
        0 <= k <= text.len(),
        c != ',' && c != ']' && c != '}',
    ensures
        char_is(s, i + k, c) == char_is(text, k, c),
{
    if k < text.len() {
        lemma_holds_index(s, i, text, k);
    }
}

/// A number in a longer text ends where it ends on its own.
proof fn lemma_number_in_context(s: Seq<char>, i: int, text: Seq<char>)
    requires
        holds(s, i, text),
        may_end(s, i + text.len()),
        is_number(text),
    ensures
        number_at(s, i) == Ok::<int, crate::json_parse::Fault>(i + text.len()),
{
    let n = text.len() as int;
    lemma_number_at(text, 0);
    lemma_char_in_context(s, i, text, 0, '-');
    let j: int = if char_is(text, 0, '-') {
        1
    } else {
        0
    };
    lemma_char_in_context(s, i, text, j, '0');
    lemma_digits_in_context(s, i, text, j);
    lemma_after_digits(text, j);
    if j < n {
        lemma_digits_in_context(s, i, text, j + 1);
        lemma_after_digits(text, j + 1);
    }
    let k = integer_at(text, 0)->Ok_0;
    assert(integer_at(text, 0) is Ok);
    assert(integer_at(s, i) == Ok::<int, crate::json_parse::Fault>(i + k));
    lemma_char_in_context(s, i, text, k, '.');
    if char_is(text, k, '.') {
        lemma_digits_in_context(s, i, text, k + 1);
        lemma_after_digits(text, k + 1);
    }
    let m = fraction_at(text, k)->Ok_0;
    assert(fraction_at(text, k) is Ok);
    assert(fraction_at(s, i + k) == Ok::<int, crate::json_parse::Fault>(i + m));
    lemma_char_in_context(s, i, text, m, 'e');
    lemma_char_in_context(s, i, text, m, 'E');
    if char_is(text, m, 'e') || char_is(text, m, 'E') {
        lemma_char_in_context(s, i, text, m + 1, '+');
        lemma_char_in_context(s, i, text, m + 1, '-');
        lemma_digits_in_context(s, i, text, m + 1);
        if m + 2 <= n {
            lemma_digits_in_context(s, i, text, m + 2);
        }
    }
}

/// Reading one escaped scalar value gives it back.
proof fn lemma_escaped_char(s: Seq<char>, i: int, c: char, text: Seq<char>)
    requires
        holds(s, i, escaped(c)),
    ensures
        string_at(s, i, text) == string_at(s, i + escaped(c).len(), text.push(c)),
{
    let part = escaped(c);
    lemma_holds_index(s, i, part, 0);
    if part.len() > 1 {
        lemma_holds_index(s, i, part, 1);
    }
    if part.len() == 6 {
        lemma_holds_index(s, i, part, 2);
        lemma_holds_index(s, i, part, 3);
        lemma_holds_index(s, i, part, 4);
        lemma_holds_index(s, i, part, 5);
        assert(s[i + 2] == '0' && s[i + 3] == '0');
        assert(hex_value(s[i + 4]) == c as int / 16);
        assert(hex_value(s[i + 5]) == c as int % 16);
        assert(quad_is(s, i + 2));
        assert(quad_value(s, i + 2) == c as int);
        assert(unicode_at(s, i + 2) == Ok::<(char, int), crate::json_parse::Fault>((c, i + 6)));
    }
}

/// Reading an escaped text gives it back.
proof fn lemma_escaped_rest(s: Seq<char>, i: int, text: Seq<char>, k: int)
    requires
        holds(s, i, escaped_text(text) + seq!['"']),
        0 <= k <= text.len(),
    ensures
        string_at(s, i + escaped_text(text.take(k)).len(), text.take(k)) == Ok::<
            (Seq<char>, int),
            crate::json_parse::Fault,
        >((text, i + escaped_text(text).len() + 1)),
    decreases text.len() - k,
{
    lemma_holds_part(s, i, escaped_text(text), seq!['"']);
    if k == text.len() {
        assert(text.take(k) =~= text);
        lemma_holds_index(s, i + escaped_text(text).len(), seq!['"'], 0);
    } else {
        let rest = lemma_escaped_split(text, k + 1);
        lemma_escaped_prefix(text, k);
        lemma_holds_part(s, i, escaped_text(text.take(k + 1)), rest);
        lemma_holds_part(s, i, escaped_text(text.take(k)), escaped(text[k]));
        lemma_escaped_char(s, i + escaped_text(text.take(k)).len(), text[k], text.take(k));
        assert(text.take(k).push(text[k]) =~= text.take(k + 1));
        lemma_escaped_rest(s, i, text, k + 1);
    }
}

/// Reading a quoted text gives it back.
proof fn lemma_quoted(s: Seq<char>, i: int, text: Seq<char>)
    requires
        holds(s, i, quoted(text)),
    ensures
        char_is(s, i, '"'),
        string_at(s, i + 1, Seq::empty()) == Ok::<(Seq<char>, int), crate::json_parse::Fault>(
            (text, i + quoted(text).len()),
        ),
{
    assert(quoted(text) =~= seq!['"'] + (escaped_text(text) + seq!['"']));
    lemma_holds_part(s, i, seq!['"'], escaped_text(text) + seq!['"']);
    lemma_holds_index(s, i, seq!['"'], 0);
    lemma_escaped_rest(s, i + 1, text, 0);
    assert(text.take(0) =~= Seq::<char>::empty());
}

/// Printed values start with neither white space nor a closing bracket.
proof fn lemma_printed_start(value: Json)
    requires
        well_formed(value),
    ensures
        printed(value).len() > 0,
        !is_space(printed(value)[0]),
        printed(value)[0] != ']',
        printed(value)[0] != '}',
{
    reveal_strlit("null");
    reveal_strlit("true");
    reveal_strlit("false");
    if let Json::Number(text) = value {
        assert(integer_at(text, 0) is Ok);
    }
}

proof fn lemma_no_space(s: Seq<char>, i: int)
    requires
        0 <= i < s.len(),
        !is_space(s[i]),
    ensures
        after_space(s, i) == i,
{
}

/// Reading a printed value inside a longer text gives it back.
proof fn lemma_printed_value(s: Seq<char>, i: int, depth: int, value: Json)
    requires
        well_formed(value),
        0 <= depth,
        height(value) + depth <= MAX_JSON_DEPTH,
        holds(s, i, printed(value)),
        may_end(s, i + printed(value).len()),
    ensures
        value_at(s, i, depth) == Ok::<(Json, int), crate::json_parse::Fault>(
            (value, i + printed(value).len()),
        ),
    decreases value, 0int,
{
    let text = printed(value);
    lemma_printed_start(value);
    lemma_holds_index(s, i, text, 0);
    reveal_strlit("null");
    reveal_strlit("true");
    reveal_strlit("false");
    match value {
        Json::Null => {},
        Json::Bool(b) => {},
        Json::Number(spelling) => {
            lemma_number_in_context(s, i, spelling);
            assert(integer_at(spelling, 0) is Ok);
            assert(s.subrange(i, i + spelling.len()) =~= spelling);
        },
        Json::Text(content) => {
            lemma_quoted(s, i, content);
        },
        Json::List(items) => {
            assert(text =~= seq!['['] + (printed_items(items) + seq![']']));
            lemma_holds_part(s, i, seq!['['], printed_items(items) + seq![']']);
            lemma_holds_part(s, i + 1, printed_items(items), seq![']']);
            lemma_holds_index(s, i + 1 + printed_items(items).len(), seq![']'], 0);
            if items.len() == 0 {
                assert(items =~= Seq::<Json>::empty());
                lemma_no_space(s, i + 1);
            } else {
                assert(items.take(0) =~= Seq::<Json>::empty());
                lemma_first_item(s, i + 1, items);
                lemma_no_space(s, i + 1);
                lemma_printed_items(s, i + 1, depth + 1, items, 0);
            }
        },
        Json::Table(members) => {
            assert(text =~= seq!['{'] + (printed_members(members) + seq!['}']));
            lemma_holds_part(s, i, seq!['{'], printed_members(members) + seq!['}']);
            lemma_holds_part(s, i + 1, printed_members(members), seq!['}']);
            lemma_holds_index(s, i + 1 + printed_members(members).len(), seq!['}'], 0);
            if members.len() == 0 {
                assert(members =~= Seq::<(Seq<char>, Json)>::empty());
                lemma_no_space(s, i + 1);
            } else {
                assert(members.take(0) =~= Seq::<(Seq<char>, Json)>::empty());
                lemma_member_place(s, i + 1, members, 0);
                lemma_no_space(s, i + 1);
                lemma_printed_members(s, i + 1, depth + 1, members, 0);
            }
        },
    }
}

/// Where item `k` starts.
spec fn item_start(i: int, items: Seq<Json>, k: int) -> int {
    i + separated(printed_items(items.take(k)), k > 0).len()
}

/// Item `k` stands where its predecessors end.
proof fn lemma_item_place(s: Seq<char>, i: int, items: Seq<Json>, k: int)
    requires
        holds(s, i, printed_items(items)),
        items_well_formed(items),
        0 <= k < items.len(),
    ensures
        holds(s, item_start(i, items, k), printed(items[k])),
        0 <= item_start(i, items, k) < s.len(),
        !is_space(s[item_start(i, items, k)]),
        s[item_start(i, items, k)] != ']',
        item_start(i, items, k) + printed(items[k]).len() == i + printed_items(
            items.take(k + 1),
        ).len(),
        k + 1 < items.len() ==> char_is(s, i + printed_items(items.take(k + 1)).len(), ',')
            && item_start(i, items, k + 1) == i + printed_items(items.take(k + 1)).len() + 1,
{
    lemma_items_well_formed(items, k);
    lemma_printed_start(items[k]);
    lemma_items_step(items, k);
    let rest = lemma_items_split(items, k + 1);
    lemma_holds_part(s, i, printed_items(items.take(k + 1)), rest);
    lemma_holds_part(s, i, separated(printed_items(items.take(k)), k > 0), printed(items[k]));
    lemma_holds_index(s, item_start(i, items, k), printed(items[k]), 0);
    if k + 1 < items.len() {
        lemma_holds_index(s, i + printed_items(items.take(k + 1)).len(), rest, 0);
    }
}

proof fn lemma_first_item(s: Seq<char>, i: int, items: Seq<Json>)
    requires
        holds(s, i, printed_items(items)),
        items_well_formed(items),
        items.len() > 0,
    ensures
        0 <= i < s.len(),
        !is_space(s[i]),
        s[i] != ']',
{
    lemma_item_place(s, i, items, 0);
    assert(items.take(0) =~= Seq::<Json>::empty());
}

/// Reading printed items from item `k` on gives them back.
proof fn lemma_printed_items(s: Seq<char>, i: int, depth: int, items: Seq<Json>, k: int)
    requires
        items_well_formed(items),
        0 <= depth,
        items_height(items) + depth - 1 <= MAX_JSON_DEPTH,
        holds(s, i, printed_items(items)),
        char_is(s, i + printed_items(items).len(), ']'),
        0 <= k < items.len(),
    ensures
        items_at(s, item_start(i, items, k), depth, items.take(k)) == Ok::<
            (Json, int),
            crate::json_parse::Fault,
        >((Json::List(items), i + printed_items(items).len() + 1)),
    decreases items, items.len() - k,
{
    let start = item_start(i, items, k);
    let end = start + printed(items[k]).len();
    lemma_item_place(s, i, items, k);
    lemma_items_well_formed(items, k);
    assert(items.take(k).push(items[k]) =~= items.take(k + 1));
    if k + 1 == items.len() {
        assert(items.take(k + 1) =~= items);
    }
    lemma_printed_value(s, start, depth, items[k]);
    lemma_no_space(s, end);
    if k + 1 < items.len() {
        lemma_item_place(s, i, items, k + 1);
        lemma_no_space(s, end + 1);
        lemma_printed_items(s, i, depth, items, k + 1);
    }
}

/// Where member `k` starts.
spec fn member_start(i: int, members: Seq<(Seq<char>, Json)>, k: int) -> int {
    i + separated(printed_members(members.take(k)), k > 0).len()
}

/// Member `k` stands where its predecessors end.
proof fn lemma_member_place(s: Seq<char>, i: int, members: Seq<(Seq<char>, Json)>, k: int)
    requires
        holds(s, i, printed_members(members)),
        members_well_formed(members),
        0 <= k < members.len(),
    ensures
        ({
            let start = member_start(i, members, k);
            let colon = start + quoted(members[k].0).len();
            let end = i + printed_members(members.take(k + 1)).len();
            &&& holds(s, start, quoted(members[k].0))
            &&& char_is(s, start, '"')
            &&& char_is(s, colon, ':')
            &&& holds(s, colon + 1, printed(members[k].1))
            &&& colon + 1 < s.len()
            &&& !is_space(s[colon + 1])
            &&& colon + 1 + printed(members[k].1).len() == end
            &&& k + 1 < members.len() ==> char_is(s, end, ',') && member_start(i, members, k + 1)
                == end + 1
            &&& k == 0 ==> start == i
        }),
{
    lemma_members_well_formed(members, k);
    lemma_printed_start(members[k].1);
    lemma_members_step(members, k);
    let rest = lemma_members_split(members, k + 1);
    let start = member_start(i, members, k);
    let colon = start + quoted(members[k].0).len();
    lemma_holds_part(s, i, printed_members(members.take(k + 1)), rest);
    lemma_holds_part(
        s,
        i,
        separated(printed_members(members.take(k)), k > 0),
        printed_member(members[k]),
    );
    assert(printed_member(members[k]) =~= quoted(members[k].0) + (seq![':'] + printed(
        members[k].1,
    )));
    lemma_holds_part(s, start, quoted(members[k].0), seq![':'] + printed(members[k].1));
    lemma_holds_part(s, colon, seq![':'], printed(members[k].1));
    lemma_holds_index(s, colon, seq![':'], 0);
    lemma_holds_index(s, colon + 1, printed(members[k].1), 0);
    lemma_quoted(s, start, members[k].0);
    if k + 1 < members.len() {
        lemma_holds_index(s, i + printed_members(members.take(k + 1)).len(), rest, 0);
    }
    if k == 0 {
        assert(members.take(0) =~= Seq::<(Seq<char>, Json)>::empty());
    }
}

/// Reading printed members from member `k` on gives them back.
proof fn lemma_printed_members(
    s: Seq<char>,
    i: int,
    depth: int,
    members: Seq<(Seq<char>, Json)>,
    k: int,
)
    requires
        members_well_formed(members),
        ordered(members),
        0 <= depth,
        members_height(members) + depth - 1 <= MAX_JSON_DEPTH,
        holds(s, i, printed_members(members)),
        char_is(s, i + printed_members(members).len(), '}'),
        0 <= k < members.len(),
    ensures
        members_at(s, member_start(i, members, k), depth, members.take(k)) == Ok::<
            (Json, int),
            crate::json_parse::Fault,
        >((Json::Table(members), i + printed_members(members).len() + 1)),
    decreases members, members.len() - k,
{
    let start = member_start(i, members, k);
    let colon = start + quoted(members[k].0).len();
    let end = i + printed_members(members.take(k + 1)).len();
    let key = members[k].0;
    lemma_member_place(s, i, members, k);
    lemma_members_well_formed(members, k);
    lemma_quoted(s, start, key);
    assert(members.take(k).push((key, members[k].1)) =~= members.take(k + 1));
    if k + 1 == members.len() {
        assert(members.take(k + 1) =~= members);
    }
    if k > 0 {
        assert(members.take(k).last() == members[k - 1]);
        assert(text_before(members[k - 1].0, members[k].0));
    }
    lemma_absent_below(members.take(k), key);
    assert(with_member(members.take(k), key, members[k].1) == members.take(k + 1));
    lemma_no_space(s, colon);
    lemma_no_space(s, colon + 1);
    assert(decreases_to!(members => members[k].1)) by {
        assert(decreases_to!(members => members[k]));
    }
    lemma_printed_value(s, colon + 1, depth, members[k].1);
    lemma_no_space(s, end);
    if k + 1 < members.len() {
        lemma_member_place(s, i, members, k + 1);
        lemma_no_space(s, end + 1);
        lemma_printed_members(s, i, depth, members, k + 1);
    }
}

/// Parsing the canonical text of a value gives the value back: nothing is lost
/// for any well-formed value that is not nested too deeply.
pub proof fn law_parse_after_print(value: Json)
    requires
        well_formed(value),
        height(value) <= MAX_JSON_DEPTH,
    ensures
        parsed(printed(value)) == Ok::<Json, crate::json_parse::Fault>(value),
{
    let s = printed(value);
    lemma_printed_start(value);
    assert(s.subrange(0, s.len() as int) =~= s);
    lemma_no_space(s, 0);
    lemma_printed_value(s, 0, 0, value);
}

/// Digits that end inside a part end there in the part too.
proof fn lemma_digits_in_part(s: Seq<char>, i: int, j: int, k: int)
    requires
        0 <= i <= k <= j <= s.len(),
        after_digits(s, k) <= j,
    ensures
        after_digits(s.subrange(i, j), k - i) == after_digits(s, k) - i,
    decreases j - k,
{
    let text = s.subrange(i, j);
    if k < j {
        assert(text[k - i] == s[k]);
        if digit_is(s, k) {
            lemma_digits_in_part(s, i, j, k + 1);
        }
    } else {
        lemma_after_digits(s, k);
    }
}

/// What was read as a number is the spelling of a number.
#[verifier::spinoff_prover]
#[verifier::rlimit(60)]
proof fn lemma_number_part(s: Seq<char>, i: int)
    requires
        0 <= i < s.len(),
        number_at(s, i) is Ok,
    ensures
        is_number(s.subrange(i, number_at(s, i)->Ok_0)),
{
    let end = number_at(s, i)->Ok_0;
    lemma_number_at(s, i);
    let text = s.subrange(i, end);
    let j = if char_is(s, i, '-') {
        i + 1
    } else {
        i
    };
    let k = integer_at(s, i)->Ok_0;
    let m = fraction_at(s, k)->Ok_0;
    assert(integer_at(s, i) is Ok && fraction_at(s, k) is Ok && exponent_at(s, m) is Ok);
    lemma_after_digits(s, j);
    lemma_after_digits(s, j + 1);
    lemma_after_digits(s, k + 1);
    lemma_after_digits(s, k + 2);
    lemma_after_digits(s, m + 1);
    lemma_after_digits(s, m + 2);
    lemma_after_digits(s, m + 3);
    assert(j < k <= m <= end);
    assert forall|x: int| i <= x < end implies text[x - i] == s[x] by {}
    assert(char_is(text, 0, '-') == char_is(s, i, '-'));
    if !char_is(s, j, '0') {
        lemma_digits_in_part(s, i, end, j);
    }
    assert(integer_at(text, 0) == Ok::<int, crate::json_parse::Fault>(k - i));
    if char_is(s, k, '.') {
        lemma_digits_in_part(s, i, end, k + 1);
    }
    assert(fraction_at(text, k - i) == Ok::<int, crate::json_parse::Fault>(m - i));
    if char_is(s, m, 'e') || char_is(s, m, 'E') {
        let n = if char_is(s, m + 1, '+') || char_is(s, m + 1, '-') {
            m + 2
        } else {
            m + 1
        };
        lemma_digits_in_part(s, i, end, n);
    }
    assert(exponent_at(text, m - i) == Ok::<int, crate::json_parse::Fault>(end - i));
}

proof fn lemma_value_well_formed(s: Seq<char>, i: int, depth: int)
    requires
        0 <= depth,
    ensures
        match value_at(s, i, depth) {
            Ok((value, _)) => well_formed(value) && height(value) + depth <= MAX_JSON_DEPTH,
            Err(_) => true,
        },
    decreases s.len() - i, 0int,
{
    if value_at(s, i, depth) is Ok {
        lemma_after_space(s, i + 1);
        let j = after_space(s, i + 1);
        if s[i] == '[' {
            if !char_is(s, j, ']') {
                lemma_items_at_well_formed(s, j, depth + 1, Seq::empty());
            }
        } else if s[i] == '{' {
            if !char_is(s, j, '}') {
                lemma_members_at_well_formed(s, j, depth + 1, Seq::empty());
            }
        } else if s[i] == '-' || is_digit(s[i]) {
            lemma_number_part(s, i);
        }
    }
}

proof fn lemma_items_at_well_formed(s: Seq<char>, i: int, depth: int, items: Seq<Json>)
    requires
        1 <= depth <= MAX_JSON_DEPTH + 1,
        items_well_formed(items),
        items_height(items) + depth - 1 <= MAX_JSON_DEPTH,
    ensures
        match items_at(s, i, depth, items) {
            Ok((value, _)) => well_formed(value) && height(value) + depth - 1 <= MAX_JSON_DEPTH,
            Err(_) => true,
        },
    decreases s.len() - i, 1int,
{
    lemma_value_at(s, i, depth);
    lemma_value_well_formed(s, i, depth);
    if let Ok((value, end)) = value_at(s, i, depth) {
        let more = items.push(value);
        assert(more.drop_last() =~= items);
        let j = after_space(s, end);
        lemma_after_space(s, end);
        lemma_after_space(s, j + 1);
        if char_is(s, j, ',') {
            lemma_items_at_well_formed(s, after_space(s, j + 1), depth, more);
        }
    }
}

/// Binding a well-formed value keeps the members well formed and low.
proof fn lemma_bound_well_formed(
    members: Seq<(Seq<char>, Json)>,
    key: Seq<char>,
    value: Json,
    bound: nat,
)
    requires
        members_well_formed(members),
        well_formed(value),
        members_height(members) <= bound,
        height(value) + 1 <= bound,
    ensures
        members_well_formed(with_member(members, key, value)),
        members_height(with_member(members, key, value)) <= bound,
    decreases members.len(),
{
    let result = with_member(members, key, value);
    let member = (key, value);
    assert(member_well_formed(member) == well_formed(value));
    assert(member_height(member) == height(value));
    if members.len() == 0 || text_before(members.last().0, key) {
        assert(result.drop_last() =~= members);
    } else if members.last().0 == key {
        assert(result.drop_last() =~= members.drop_last());
    } else {
        lemma_bound_well_formed(members.drop_last(), key, value, bound);
        assert(result.drop_last() =~= with_member(members.drop_last(), key, value));
    }
}

proof fn lemma_members_at_well_formed(
    s: Seq<char>,
    i: int,
    depth: int,
    members: Seq<(Seq<char>, Json)>,
)
    requires
        1 <= depth <= MAX_JSON_DEPTH + 1,
        ordered(members),
        members_well_formed(members),
        members_height(members) + depth - 1 <= MAX_JSON_DEPTH,
    ensures
        match members_at(s, i, depth, members) {
            Ok((value, _)) => well_formed(value) && height(value) + depth - 1 <= MAX_JSON_DEPTH,
            Err(_) => true,
        },
    decreases s.len() - i, 1int,
{
    if char_is(s, i, '"') {
        lemma_string_at(s, i + 1, Seq::empty());
        if let Ok((key, end)) = string_at(s, i + 1, Seq::empty()) {
            let j = after_space(s, end);
            lemma_after_space(s, end);
            lemma_after_space(s, j + 1);
            let k = after_space(s, j + 1);
            if char_is(s, j, ':') {
                lemma_value_at(s, k, depth);
                lemma_value_well_formed(s, k, depth);
                if let Ok((value, stop)) = value_at(s, k, depth) {
                    let next = after_space(s, stop);
                    let bound = with_member(members, key, value);
                    lemma_after_space(s, stop);
                    lemma_after_space(s, next + 1);
                    lemma_with_member(members, key, value);
                    lemma_bound_well_formed(
                        members,
                        key,
                        value,
                        (MAX_JSON_DEPTH - depth + 1) as nat,
                    );
                    if char_is(s, next, ',') {
                        lemma_members_at_well_formed(s, after_space(s, next + 1), depth, bound);
                    }
                }
            }
        }
    }
}

/// Whatever parses is well formed and within the nesting limit: keys increase,
/// so none occurs twice, and each number keeps a valid spelling.
pub proof fn law_parsed_is_well_formed(s: Seq<char>)
    ensures
        match parsed(s) {
            Ok(value) => well_formed(value) && height(value) <= MAX_JSON_DEPTH,
            Err(_) => true,
        },
{
    lemma_value_well_formed(s, after_space(s, 0), 0);
}

/// The canonical text of a parsed text parses to the same value.
pub proof fn law_canonical_text_is_equivalent(s: Seq<char>)
    ensures
        match parsed(s) {
            Ok(value) => parsed(printed(value)) == parsed(s),
            Err(_) => true,
        },
{
    law_parsed_is_well_formed(s);
    if let Ok(value) = parsed(s) {
        law_parse_after_print(value);
    }
}

/// Where a reader of JSON stands: between tokens or inside a string.
pub enum Lexing {
    Outside,
    Inside,
    Escape,
}

/// Where a reader stands behind one more scalar value; nowhere where that is
/// white space outside a string.
pub open spec fn lexed_one(at: Lexing, c: char) -> Option<Lexing> {
    match at {
        Lexing::Outside => if is_space(c) {
            None
        } else if c == '"' {
            Some(Lexing::Inside)
        } else {
            Some(Lexing::Outside)
        },
        Lexing::Inside => if c == '"' {
            Some(Lexing::Outside)
        } else if c == '\\' {
            Some(Lexing::Escape)
        } else {
            Some(Lexing::Inside)
        },
        Lexing::Escape => Some(Lexing::Inside),
    }
}

/// Where a reader stands behind a text, unless the text has white space outside
/// its strings.
pub open spec fn lexed(at: Lexing, text: Seq<char>) -> Option<Lexing>
    decreases text.len(),
{
    if text.len() == 0 {
        Some(at)
    } else {
        match lexed(at, text.drop_last()) {
            Some(there) => lexed_one(there, text.last()),
            None => None,
        }
    }
}

proof fn lemma_lexed_add(at: Lexing, a: Seq<char>, b: Seq<char>)
    ensures
        lexed(at, a + b) == match lexed(at, a) {
            Some(there) => lexed(there, b),
            None => None,
        },
    decreases b.len(),
{
    if b.len() == 0 {
        assert(a + b =~= a);
    } else {
        assert((a + b).drop_last() =~= a + b.drop_last());
        lemma_lexed_add(at, a, b.drop_last());
    }
}

proof fn lemma_lexed_char(at: Lexing, c: char)
    ensures
        lexed(at, seq![c]) == lexed_one(at, c),
{
    assert(seq![c].drop_last() =~= Seq::<char>::empty());
    assert(seq![c].last() == c);
    assert(lexed(at, Seq::<char>::empty()) == Some(at));
}

/// Text without quotes and white space keeps a reader outside.
proof fn lemma_lexed_plain(text: Seq<char>)
    requires
        forall|i: int|
            0 <= i < text.len() ==> !is_space(#[trigger] text[i]) && text[i] != '"',
    ensures
        lexed(Lexing::Outside, text) == Some(Lexing::Outside),
    decreases text.len(),
{
    if text.len() > 0 {
        lemma_lexed_plain(text.drop_last());
        assert(text[text.len() - 1] == text.last());
    }
}

proof fn lemma_lexed_escaped(c: char)
    ensures
        lexed(Lexing::Inside, escaped(c)) == Some(Lexing::Inside),
{
    let code = escaped(c);
    if code.len() == 1 {
        assert(code =~= seq![c]);
        lemma_lexed_char(Lexing::Inside, c);
    } else {
        let front = code.take(2);
        let tail = code.skip(2);
        assert(code =~= front + tail);
        assert(front =~= seq![code[0]] + seq![code[1]]);
        lemma_lexed_add(Lexing::Inside, front, tail);
        lemma_lexed_add(Lexing::Inside, seq![code[0]], seq![code[1]]);
        lemma_lexed_char(Lexing::Inside, code[0]);
        lemma_lexed_char(Lexing::Escape, code[1]);
        assert forall|i: int| 0 <= i < tail.len() implies #[trigger] tail[i] != '"' && tail[i]
            != '\\' by {
            assert(tail[i] == code[i + 2]);
        }
        lemma_lexed_inside(tail);
    }
}

/// Text without quotes and backslashes keeps a reader inside.
proof fn lemma_lexed_inside(text: Seq<char>)
    requires
        forall|i: int| 0 <= i < text.len() ==> #[trigger] text[i] != '"' && text[i] != '\\',
    ensures
        lexed(Lexing::Inside, text) == Some(Lexing::Inside),
    decreases text.len(),
{
    if text.len() > 0 {
        lemma_lexed_inside(text.drop_last());
        assert(text[text.len() - 1] == text.last());
    }
}

proof fn lemma_lexed_text(s: Seq<char>)
    ensures
        lexed(Lexing::Inside, escaped_text(s)) == Some(Lexing::Inside),
    decreases s.len(),
{
    if s.len() > 0 {
        lemma_lexed_text(s.drop_last());
        lemma_lexed_add(Lexing::Inside, escaped_text(s.drop_last()), escaped(s.last()));
        lemma_lexed_escaped(s.last());
    }
}

proof fn lemma_lexed_quoted(s: Seq<char>)
    ensures
        lexed(Lexing::Outside, quoted(s)) == Some(Lexing::Outside),
{
    let quote = seq!['"'];
    lemma_lexed_char(Lexing::Outside, '"');
    lemma_lexed_char(Lexing::Inside, '"');
    lemma_lexed_text(s);
    lemma_lexed_add(Lexing::Outside, quote + escaped_text(s), quote);
    lemma_lexed_add(Lexing::Outside, quote, escaped_text(s));
}

/// What is skipped as digits is digits.
proof fn lemma_digits_between(s: Seq<char>, i: int, k: int)
    requires
        0 <= i <= k < after_digits(s, i),
    ensures
        digit_is(s, k),
    decreases s.len() - i,
{
    if digit_is(s, i) && i < k {
        lemma_digits_between(s, i + 1, k);
    }
}

/// The spelling of a number has neither quotes nor white space.
proof fn lemma_number_is_plain(text: Seq<char>, x: int)
    requires
        is_number(text),
        0 <= x < text.len(),
    ensures
        !is_space(text[x]) && text[x] != '"',
{
    let j = if char_is(text, 0, '-') {
        1int
    } else {
        0int
    };
    let k = integer_at(text, 0)->Ok_0;
    let m = fraction_at(text, k)->Ok_0;
    assert(integer_at(text, 0) is Ok && fraction_at(text, k) is Ok && exponent_at(text, m) is Ok);
    lemma_after_digits(text, j);
    lemma_after_digits(text, k + 1);
    if x < k {
        if x >= j && !char_is(text, j, '0') {
            lemma_digits_between(text, j, x);
        }
    } else if x < m {
        if x > k {
            lemma_digits_between(text, k + 1, x);
        }
    } else {
        let n = if char_is(text, m + 1, '+') || char_is(text, m + 1, '-') {
            m + 2
        } else {
            m + 1
        };
        if x >= n {
            lemma_digits_between(text, n, x);
        }
    }
}

/// The canonical text of a value has no white space outside its strings.
pub proof fn law_printed_text_is_compact(value: Json)
    requires
        well_formed(value),
    ensures
        lexed(Lexing::Outside, printed(value)) == Some(Lexing::Outside),
    decreases value,
{
    match value {
        Json::Null => {
            reveal_strlit("null");
            lemma_lexed_plain("null"@);
        },
        Json::Bool(_) => {
            reveal_strlit("true");
            reveal_strlit("false");
            lemma_lexed_plain("true"@);
            lemma_lexed_plain("false"@);
        },
        Json::Number(text) => {
            assert forall|i: int| 0 <= i < text.len() implies !is_space(#[trigger] text[i])
                && text[i] != '"' by {
                lemma_number_is_plain(text, i);
            }
            lemma_lexed_plain(text);
        },
        Json::Text(s) => {
            lemma_lexed_quoted(s);
        },
        Json::List(items) => {
            lemma_lexed_items(items);
            lemma_lexed_char(Lexing::Outside, '[');
            lemma_lexed_char(Lexing::Outside, ']');
            lemma_lexed_add(Lexing::Outside, seq!['['] + printed_items(items), seq![']']);
            lemma_lexed_add(Lexing::Outside, seq!['['], printed_items(items));
        },
        Json::Table(members) => {
            lemma_lexed_members(members);
            lemma_lexed_char(Lexing::Outside, '{');
            lemma_lexed_char(Lexing::Outside, '}');
            lemma_lexed_add(Lexing::Outside, seq!['{'] + printed_members(members), seq!['}']);
            lemma_lexed_add(Lexing::Outside, seq!['{'], printed_members(members));
        },
    }
}

proof fn lemma_lexed_items(items: Seq<Json>)
    requires
        items_well_formed(items),
    ensures
        lexed(Lexing::Outside, printed_items(items)) == Some(Lexing::Outside),
    decreases items,
{
    if items.len() > 0 {
        let front = printed_items(items.drop_last());
        lemma_lexed_items(items.drop_last());
        law_printed_text_is_compact(items.last());
        lemma_lexed_char(Lexing::Outside, ',');
        lemma_lexed_add(Lexing::Outside, front, seq![',']);
        lemma_lexed_add(
            Lexing::Outside,
            separated(front, items.len() > 1),
            printed(items.last()),
        );
    }
}

proof fn lemma_lexed_members(members: Seq<(Seq<char>, Json)>)
    requires
        members_well_formed(members),
    ensures
        lexed(Lexing::Outside, printed_members(members)) == Some(Lexing::Outside),
    decreases members,
{
    if members.len() > 0 {
        let front = printed_members(members.drop_last());
        lemma_lexed_members(members.drop_last());
        lemma_lexed_member(members.last());
        lemma_lexed_char(Lexing::Outside, ',');
        lemma_lexed_add(Lexing::Outside, front, seq![',']);
        lemma_lexed_add(
            Lexing::Outside,
            separated(front, members.len() > 1),
            printed_member(members.last()),
        );
    }
}

proof fn lemma_lexed_member(member: (Seq<char>, Json))
    requires
        member_well_formed(member),
    ensures
        lexed(Lexing::Outside, printed_member(member)) == Some(Lexing::Outside),
    decreases member,
{
    let key = quoted(member.0);
    lemma_lexed_quoted(member.0);
    lemma_lexed_char(Lexing::Outside, ':');
    law_printed_text_is_compact(member.1);
    lemma_lexed_add(Lexing::Outside, key + seq![':'], printed(member.1));
    lemma_lexed_add(Lexing::Outside, key, seq![':']);
}

} // verus!
