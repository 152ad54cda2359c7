//! What the written forms mean: decimal numbers, JSON strings and members, file
//! URIs and lexical paths.
use vstd::prelude::*;

use crate::file_uri::{
    clean_segments, component_count, components_from, counts, hex_byte, lexical, slashed, unescaped,
    uri_byte, uri_bytes, uri_of, with_segment,
};
use crate::json::{lookup, ordered, with_member, without_member, Json};
use crate::json_parse::{escape_at, is_space, Fault};
use crate::json_write::{escaped, escaped_text, quoted};
use crate::text::{
    decimal, digit_char, lemma_text_order_total, signed_decimal, signed_value, text_before,
    unsigned_value,
};

verus! {

/// Decimal notation is written digit by digit, from `0` to `9`, without a zero
/// in front, and with a minus sign before a negative number.
pub proof fn law_decimal_notation(n: nat, d: int)
    requires
        0 <= d < 10,
    ensures
        decimal(d as nat) == seq!["0123456789"@[d]],
        n > 0 ==> decimal((10 * n + d) as nat) == decimal(n).push("0123456789"@[d]),
        n > 0 ==> signed_decimal(-(n as int)) == seq!['-'] + decimal(n),
        signed_decimal(n as int) == decimal(n),
{
    reveal_strlit("0123456789");
    lemma_digit(d);
    if n > 0 {
        let m = (10 * n + d) as nat;
        assert(m / 10 == n && m % 10 == d) by (nonlinear_arith)
            requires
                m == 10 * n + d,
                0 <= d < 10,
        ;
    }
}

proof fn lemma_digit(d: int)
    requires
        0 <= d < 10,
    ensures
        digit_char(d as nat) == "0123456789"@[d],
{
    reveal_strlit("0123456789");
    assert(d == 0 || d == 1 || d == 2 || d == 3 || d == 4 || d == 5 || d == 6 || d == 7 || d == 8
        || d == 9);
}

/// A number that is written down is read back.
pub proof fn law_decimal_is_read_back(n: nat)
    ensures
        unsigned_value(decimal(n)) == Some(n),
        signed_value(decimal(n)) == Some(n as int),
        n > 0 ==> signed_value(seq!['-'] + decimal(n)) == Some(-(n as int)),
{
    crate::text::lemma_decimal(n);
    let s = decimal(n);
    assert(crate::text::is_digit(s[0]));
    let t = seq!['-'] + s;
    assert(t.drop_first() =~= s);
}

/// What is escaped in a string stands for these scalar values.
pub proof fn law_string_escapes(s: Seq<char>, i: int)
    requires
        0 <= i < s.len(),
    ensures
        s[i] == '"' ==> escape_at(s, i) == Ok::<(char, int), Fault>(('"', i + 1)),
        s[i] == '\\' ==> escape_at(s, i) == Ok::<(char, int), Fault>(('\\', i + 1)),
        s[i] == '/' ==> escape_at(s, i) == Ok::<(char, int), Fault>(('/', i + 1)),
        s[i] == 'b' ==> escape_at(s, i) == Ok::<(char, int), Fault>((8u8 as char, i + 1)),
        s[i] == 't' ==> escape_at(s, i) == Ok::<(char, int), Fault>((9u8 as char, i + 1)),
        s[i] == 'n' ==> escape_at(s, i) == Ok::<(char, int), Fault>((10u8 as char, i + 1)),
        s[i] == 'f' ==> escape_at(s, i) == Ok::<(char, int), Fault>((12u8 as char, i + 1)),
        s[i] == 'r' ==> escape_at(s, i) == Ok::<(char, int), Fault>((13u8 as char, i + 1)),
        !"\"\\/btnfru"@.contains(s[i]) ==> escape_at(s, i) is Err,
{
    reveal_strlit("\"\\/btnfru");
    let letters = "\"\\/btnfru"@;
    assert(letters[0] == '"' && letters[1] == '\\' && letters[2] == '/' && letters[3] == 'b'
        && letters[4] == 't' && letters[5] == 'n' && letters[6] == 'f' && letters[7] == 'r'
        && letters[8] == 'u');
    if !letters.contains(s[i]) {
        assert forall|k: int| 0 <= k < letters.len() implies #[trigger] letters[k] != s[i] by {
            assert(letters.contains(letters[k]));
        }
        assert(letters[0] != s[i] && letters[1] != s[i] && letters[2] != s[i] && letters[3] != s[i]
            && letters[4] != s[i] && letters[5] != s[i] && letters[6] != s[i] && letters[7] != s[i]
            && letters[8] != s[i]);
    }
}

/// Whether a scalar value is the hexadecimal digit of a value.
spec fn hex_digit(c: char, value: int) -> bool {
    0 <= value < 16 && ("0123456789abcdef"@[value] == c || "0123456789ABCDEF"@[value] == c)
}

proof fn lemma_hex_digit(c: char, value: int)
    requires
        hex_digit(c, value),
    ensures
        crate::json_parse::is_hex(c),
        crate::json_parse::hex_value(c) == value,
{
    reveal_strlit("0123456789abcdef");
    reveal_strlit("0123456789ABCDEF");
    assert(value == 0 || value == 1 || value == 2 || value == 3 || value == 4 || value == 5 || value
        == 6 || value == 7 || value == 8 || value == 9 || value == 10 || value == 11 || value == 12
        || value == 13 || value == 14 || value == 15);
}

/// A Unicode escape stands for the scalar value with that number, and two of
/// them for the scalar value whose UTF-16 surrogate pair they are. A surrogate
/// alone is refused.
pub proof fn law_unicode_escapes(
    s: Seq<char>,
    i: int,
    high: Seq<int>,
    low: Seq<int>,
)
    requires
        0 <= i && i + 5 <= s.len(),
        s[i] == 'u',
        high.len() == 4,
        low.len() == 4,
        forall|k: int|
            0 <= k < 4 ==> 0 <= #[trigger] high[k] < 16 && ("0123456789abcdef"@[high[k]] == s[i + 1
                + k] || "0123456789ABCDEF"@[high[k]] == s[i + 1 + k]),
    ensures
        ({
            let first = 4096 * high[0] + 256 * high[1] + 16 * high[2] + high[3];
            let second = 4096 * low[0] + 256 * low[1] + 16 * low[2] + low[3];
            let paired = i + 11 <= s.len() && s[i + 5] == '\\' && s[i + 6] == 'u' && forall|k: int|
                0 <= k < 4 ==> 0 <= #[trigger] low[k] < 16 && ("0123456789abcdef"@[low[k]] == s[i
                    + 7 + k] || "0123456789ABCDEF"@[low[k]] == s[i + 7 + k]);
            &&& !(0xd800 <= first <= 0xdfff) ==> (escape_at(s, i) matches Ok((c, end)) && c as int
                == first && end == i + 5)
            &&& 0xdc00 <= first <= 0xdfff ==> escape_at(s, i) is Err
            &&& 0xd800 <= first <= 0xdbff && !(i + 7 <= s.len() && s[i + 5] == '\\' && s[i + 6]
                == 'u') ==> escape_at(s, i) is Err
            &&& 0xd800 <= first <= 0xdbff && paired && 0xdc00 <= second <= 0xdfff ==> (escape_at(
                s,
                i,
            ) matches Ok((c, end)) && c as int == 0x10000 + 0x400 * (first - 0xd800) + (second
                - 0xdc00) && end == i + 11)
            &&& 0xd800 <= first <= 0xdbff && paired && !(0xdc00 <= second <= 0xdfff) ==> escape_at(
                s,
                i,
            ) is Err
        }),
{
    assert(high[0] >= 0 && high[1] >= 0 && high[2] >= 0 && high[3] >= 0);
    assert(hex_digit(s[i + 1], high[0]) && hex_digit(s[i + 2], high[1]) && hex_digit(
        s[i + 3],
        high[2],
    ) && hex_digit(s[i + 4], high[3]));
    lemma_hex_digit(s[i + 1], high[0]);
    lemma_hex_digit(s[i + 2], high[1]);
    lemma_hex_digit(s[i + 3], high[2]);
    lemma_hex_digit(s[i + 4], high[3]);
    if i + 11 <= s.len() && forall|k: int|
        0 <= k < 4 ==> 0 <= #[trigger] low[k] < 16 && ("0123456789abcdef"@[low[k]] == s[i + 7 + k]
            || "0123456789ABCDEF"@[low[k]] == s[i + 7 + k]) {
        assert(low[0] >= 0 && low[1] >= 0 && low[2] >= 0 && low[3] >= 0);
        lemma_hex_digit(s[i + 7], low[0]);
        lemma_hex_digit(s[i + 8], low[1]);
        lemma_hex_digit(s[i + 9], low[2]);
        lemma_hex_digit(s[i + 10], low[3]);
    }
}

/// White space in JSON is the space, the tab, the line feed and the carriage
/// return.
pub proof fn law_json_white_space(c: char)
    ensures
        is_space(c) <==> c as u32 == 32 || c as u32 == 9 || c as u32 == 10 || c as u32 == 13,
{
}

/// A text is written as a string scalar value by scalar value: quotes and
/// backslashes behind a backslash, control characters by their letter or number,
/// and everything else as it stands.
pub proof fn law_quoted_text(s: Seq<char>)
    ensures
        quoted(s) == seq!['"'] + s.map_values(
            |c: char|
                {
                    let n = c as int;
                    if n == 34 || n == 92 {
                        seq!['\\', c]
                    } else if n == 8 {
                        seq!['\\', 'b']
                    } else if n == 9 {
                        seq!['\\', 't']
                    } else if n == 10 {
                        seq!['\\', 'n']
                    } else if n == 12 {
                        seq!['\\', 'f']
                    } else if n == 13 {
                        seq!['\\', 'r']
                    } else if n < 32 {
                        seq![
                            '\\',
                            'u',
                            '0',
                            '0',
                            "0123456789abcdef"@[n / 16],
                            "0123456789abcdef"@[n % 16],
                        ]
                    } else {
                        seq![c]
                    }
                },
        ).flatten() + seq!['"'],
{
    let f = |c: char|
        {
            let n = c as int;
            if n == 34 || n == 92 {
                seq!['\\', c]
            } else if n == 8 {
                seq!['\\', 'b']
            } else if n == 9 {
                seq!['\\', 't']
            } else if n == 10 {
                seq!['\\', 'n']
            } else if n == 12 {
                seq!['\\', 'f']
            } else if n == 13 {
                seq!['\\', 'r']
            } else if n < 32 {
                seq![
                    '\\',
                    'u',
                    '0',
                    '0',
                    "0123456789abcdef"@[n / 16],
                    "0123456789abcdef"@[n % 16],
                ]
            } else {
                seq![c]
            }
        };
    assert forall|c: char| #[trigger] f(c) == escaped(c) by {
        lemma_control_digits(c);
        assert(f(c) =~= escaped(c));
    }
    lemma_escaped_flat(s, f);
}

proof fn lemma_control_digits(c: char)
    ensures
        0 <= c as int,
        c as int == c as u32 as int,
        (c as int) < 32 ==> crate::json_write::hex_char(c as int / 16) == "0123456789abcdef"@[c as int
            / 16] && crate::json_write::hex_char(c as int % 16) == "0123456789abcdef"@[c as int
            % 16],
{
    let n = c as int;
    if n < 32 {
        lemma_hex_char(n / 16);
        lemma_hex_char(n % 16);
    }
}

proof fn lemma_hex_char(d: int)
    requires
        0 <= d < 16,
    ensures
        crate::json_write::hex_char(d) == "0123456789abcdef"@[d],
{
    reveal_strlit("0123456789abcdef");
    assert(d == 0 || d == 1 || d == 2 || d == 3 || d == 4 || d == 5 || d == 6 || d == 7 || d == 8
        || d == 9 || d == 10 || d == 11 || d == 12 || d == 13 || d == 14 || d == 15);
}

proof fn lemma_escaped_flat(s: Seq<char>, f: spec_fn(char) -> Seq<char>)
    requires
        forall|c: char| #[trigger] f(c) == escaped(c),
    ensures
        escaped_text(s) == s.map_values(f).flatten(),
    decreases s.len(),
{
    broadcast use Seq::lemma_flatten_push;

    if s.len() == 0 {
        assert(s.map_values(f) =~= Seq::<Seq<char>>::empty());
    } else {
        lemma_escaped_flat(s.drop_last(), f);
        assert(s.map_values(f) =~= s.drop_last().map_values(f).push(f(s.last())));
    }
}

proof fn lemma_lookup_in_order(members: Seq<(Seq<char>, Json)>, key: Seq<char>, i: int)
    requires
        ordered(members),
        0 <= i < members.len(),
        members[i].0 == key,
    ensures
        lookup(members, key) == Some(members[i].1),
    decreases members.len(),
{
    let last = members.len() - 1;
    if i < last {
        assert(text_before(members[i].0, members[last].0));
        lemma_text_order_total(members[i].0, members[last].0);
        let front = members.drop_last();
        assert forall|a: int, b: int| 0 <= a < b < front.len() implies text_before(
            #[trigger] front[a].0,
            #[trigger] front[b].0,
        ) by {
            assert(front[a] == members[a] && front[b] == members[b]);
        }
        lemma_lookup_in_order(front, key, i);
    }
}

/// A key is bound to a value if and only if the object holds that member.
pub proof fn law_lookup_finds_members(members: Seq<(Seq<char>, Json)>, key: Seq<char>, value: Json)
    requires
        ordered(members),
    ensures
        lookup(members, key) == Some(value) <==> members.contains((key, value)),
        lookup(members, key) is None <==> forall|i: int|
            0 <= i < members.len() ==> (#[trigger] members[i]).0 != key,
{
    crate::json::lemma_lookup(members, key);
    if members.contains((key, value)) {
        let i = choose|i: int| 0 <= i < members.len() && members[i] == (key, value);
        lemma_lookup_in_order(members, key, i);
    }
    if lookup(members, key) == Some(value) {
        let i = choose|i: int| 0 <= i < members.len() && #[trigger] members[i] == (key, value);
        assert(members.contains(members[i]));
    }
}

/// Binding a key changes what that key is bound to, and no other key; unbinding
/// takes it away, and no other key.
pub proof fn law_binding_changes_one_key(
    members: Seq<(Seq<char>, Json)>,
    key: Seq<char>,
    value: Json,
    other: Seq<char>,
)
    requires
        ordered(members),
    ensures
        lookup(with_member(members, key, value), key) == Some(value),
        other != key ==> lookup(with_member(members, key, value), other) == lookup(members, other),
        lookup(without_member(members, key), key) is None,
        other != key ==> lookup(without_member(members, key), other) == lookup(members, other),
    decreases members.len(),
{
    let bound = with_member(members, key, value);
    let free = without_member(members, key);
    if members.len() == 0 {
        assert(bound.last() == (key, value));
        assert(bound.drop_last() =~= members);
    } else {
        let last = members.len() - 1;
        let front = members.drop_last();
        assert forall|a: int, b: int| 0 <= a < b < front.len() implies text_before(
            #[trigger] front[a].0,
            #[trigger] front[b].0,
        ) by {
            assert(front[a] == members[a] && front[b] == members[b]);
        }
        law_binding_changes_one_key(front, key, value, other);
        lemma_text_order_total(members.last().0, key);
        if text_before(members.last().0, key) {
            assert(bound.drop_last() =~= members);
        } else if members.last().0 == key {
            assert(bound.drop_last() =~= front);
            if lookup(front, key) is Some {
                crate::json::lemma_lookup(front, key);
                let i = choose|i: int|
                    0 <= i < front.len() && #[trigger] front[i] == (key, lookup(front, key)->0);
                assert(members[i] == front[i]);
                assert(text_before(members[i].0, members[last].0));
                lemma_text_order_total(members[i].0, members[last].0);
            }
        } else {
            assert(bound.drop_last() =~= with_member(front, key, value));
        }
        if members.last().0 != key {
            assert(free.drop_last() =~= without_member(front, key));
        }
    }
}

/// A path is spelled in its URI byte by byte: letters, digits, slashes and a few
/// marks as they stand, and every other byte by its two hexadecimal digits.
pub proof fn law_uri_spells_each_byte(path: Seq<u8>)
    requires
        path.len() > 0,
        path[0] == 47,
    ensures
        uri_of(path) == "file://"@ + path.map_values(
            |byte: u8|
                if (byte >= 48 && byte <= 57) || (byte >= 65 && byte <= 90) || (byte >= 97 && byte
                    <= 122) || "/-_.~:"@.contains(byte as char) {
                    seq![byte as char]
                } else {
                    seq![
                        '%',
                        "0123456789ABCDEF"@[byte as int / 16],
                        "0123456789ABCDEF"@[byte as int % 16],
                    ]
                },
        ).flatten(),
{
    let f = |byte: u8|
        if (byte >= 48 && byte <= 57) || (byte >= 65 && byte <= 90) || (byte >= 97 && byte <= 122)
            || "/-_.~:"@.contains(byte as char) {
            seq![byte as char]
        } else {
            seq![
                '%',
                "0123456789ABCDEF"@[byte as int / 16],
                "0123456789ABCDEF"@[byte as int % 16],
            ]
        };
    reveal_strlit("/-_.~:");
    let marks = "/-_.~:"@;
    assert(marks[0] == '/' && marks[1] == '-' && marks[2] == '_' && marks[3] == '.' && marks[4]
        == '~' && marks[5] == ':');
    assert forall|byte: u8| #[trigger] f(byte) == uri_byte(byte) by {
        lemma_upper_hex(byte as int / 16);
        lemma_upper_hex(byte as int % 16);
        let c = byte as char;
        assert(marks.contains(c) <==> byte == 47 || byte == 45 || byte == 95 || byte == 46 || byte
            == 126 || byte == 58) by {
            if marks.contains(c) {
                let k = choose|k: int| 0 <= k < marks.len() && marks[k] == c;
                assert(k == 0 || k == 1 || k == 2 || k == 3 || k == 4 || k == 5);
            }
            if byte == 47 {
                assert(marks[0] == c);
            }
            if byte == 45 {
                assert(marks[1] == c);
            }
            if byte == 95 {
                assert(marks[2] == c);
            }
            if byte == 46 {
                assert(marks[3] == c);
            }
            if byte == 126 {
                assert(marks[4] == c);
            }
            if byte == 58 {
                assert(marks[5] == c);
            }
        }
        assert(f(byte) =~= uri_byte(byte));
    }
    lemma_uri_flat(path, f);
}

proof fn lemma_upper_hex(d: int)
    requires
        0 <= d < 16,
    ensures
        crate::file_uri::upper_hex(d) == "0123456789ABCDEF"@[d],
{
    reveal_strlit("0123456789ABCDEF");
    assert(d == 0 || d == 1 || d == 2 || d == 3 || d == 4 || d == 5 || d == 6 || d == 7 || d == 8
        || d == 9 || d == 10 || d == 11 || d == 12 || d == 13 || d == 14 || d == 15);
}

proof fn lemma_uri_flat(path: Seq<u8>, f: spec_fn(u8) -> Seq<char>)
    requires
        forall|byte: u8| #[trigger] f(byte) == uri_byte(byte),
    ensures
        uri_bytes(path) == path.map_values(f).flatten(),
    decreases path.len(),
{
    broadcast use Seq::lemma_flatten_push;

    if path.len() == 0 {
        assert(path.map_values(f) =~= Seq::<Seq<char>>::empty());
    } else {
        lemma_uri_flat(path.drop_last(), f);
        assert(path.map_values(f) =~= path.drop_last().map_values(f).push(f(path.last())));
    }
}

/// A percent escape is read as the byte of its two hexadecimal digits, whatever
/// their case, and every other byte as it stands.
pub proof fn law_percent_escapes_are_read(source: Seq<u8>, i: int, done: Seq<u8>, a: int, b: int)
    requires
        0 <= i < source.len(),
    ensures
        source[i] != 37 ==> unescaped(source, i, done) == unescaped(
            source,
            i + 1,
            done.push(source[i]),
        ),
        source[i] == 37 && i + 2 < source.len() && 0 <= a < 16 && 0 <= b < 16 && (
        "0123456789abcdef"@[a] == source[i + 1] as char || "0123456789ABCDEF"@[a] == source[i
            + 1] as char) && ("0123456789abcdef"@[b] == source[i + 2] as char
            || "0123456789ABCDEF"@[b] == source[i + 2] as char) ==> unescaped(source, i, done)
            == unescaped(source, i + 3, done.push((16 * a + b) as u8)),
        source[i] == 37 && i + 2 >= source.len() ==> unescaped(source, i, done) is Err,
{
    if i + 2 < source.len() {
        if 0 <= a < 16 && ("0123456789abcdef"@[a] == source[i + 1] as char
            || "0123456789ABCDEF"@[a] == source[i + 1] as char) {
            lemma_hex_byte(source[i + 1], a);
        }
        if 0 <= b < 16 && ("0123456789abcdef"@[b] == source[i + 2] as char
            || "0123456789ABCDEF"@[b] == source[i + 2] as char) {
            lemma_hex_byte(source[i + 2], b);
        }
    }
}

proof fn lemma_hex_byte(byte: u8, d: int)
    requires
        0 <= d < 16,
        "0123456789abcdef"@[d] == byte as char || "0123456789ABCDEF"@[d] == byte as char,
    ensures
        hex_byte(byte) == Some(d),
{
    reveal_strlit("0123456789abcdef");
    reveal_strlit("0123456789ABCDEF");
    assert(d == 0 || d == 1 || d == 2 || d == 3 || d == 4 || d == 5 || d == 6 || d == 7 || d == 8
        || d == 9 || d == 10 || d == 11 || d == 12 || d == 13 || d == 14 || d == 15);
}

/// Parts of a path, each behind a slash.
pub open spec fn joined(parts: Seq<Seq<u8>>) -> Seq<u8> {
    parts.map_values(|part: Seq<u8>| seq![47u8] + part).flatten()
}

spec fn taken(done: Seq<Seq<u8>>, part: Seq<u8>) -> Seq<Seq<u8>> {
    if part.len() == 0 || part == seq![46u8] {
        done
    } else if part == seq![46u8, 46u8] {
        if done.len() > 0 {
            done.take(done.len() - 1)
        } else {
            done
        }
    } else {
        done.push(part)
    }
}

/// The first part of a joined path comes first.
pub proof fn lemma_joined_first(parts: Seq<Seq<u8>>)
    requires
        parts.len() > 0,
    ensures
        joined(parts) == seq![47u8] + parts[0] + joined(parts.drop_first()),
{
    let f = |part: Seq<u8>| seq![47u8] + part;
    let list = parts.map_values(f);
    assert(list.drop_first() =~= parts.drop_first().map_values(f));
    assert(list.flatten() == list.first().add(list.drop_first().flatten()));
}

proof fn lemma_scan(path: Seq<u8>, start: int, i: int, end: int, done: Seq<Seq<u8>>)
    requires
        0 <= start <= i <= end <= path.len(),
        forall|k: int| i <= k < end ==> path[k] != 47,
        end == path.len() || path[end] == 47,
    ensures
        clean_segments(path, start, i, done) == if end == path.len() {
            with_segment(done, path.subrange(start, end))
        } else {
            clean_segments(path, end + 1, end + 1, with_segment(done, path.subrange(start, end)))
        },
        components_from(path, start, i) == counts(path.subrange(start, end)) + if end == path.len() {
            0
        } else {
            components_from(path, end + 1, end + 1)
        },
    decreases end - i,
{
    if i < end {
        lemma_scan(path, start, i + 1, end, done);
    }
}

proof fn lemma_clean(path: Seq<u8>, at: int, parts: Seq<Seq<u8>>, done: Seq<Seq<u8>>)
    requires
        parts.len() > 0,
        0 < at <= path.len(),
        path.skip(at - 1) == joined(parts),
        forall|i: int| 0 <= i < parts.len() ==> !(#[trigger] parts[i]).contains(47u8),
    ensures
        clean_segments(path, at, at, done) == parts.fold_left_alt(
            done,
            |d: Seq<Seq<u8>>, p: Seq<u8>| taken(d, p),
        ),
        components_from(path, at, at) == parts.filter(
            |p: Seq<u8>| p.len() > 0 && p != seq![46u8],
        ).len(),
    decreases parts.len(),
{
    let f = |d: Seq<Seq<u8>>, p: Seq<u8>| taken(d, p);
    let g = |p: Seq<u8>| p.len() > 0 && p != seq![46u8];
    let first = parts[0];
    let rest = parts.drop_first();
    let end = at + first.len();
    lemma_joined_first(parts);
    let tail = path.skip(at - 1);
    assert(tail.len() == 1 + first.len() + joined(rest).len());
    assert(path.subrange(at, end) =~= first) by {
        assert forall|k: int| 0 <= k < first.len() implies path[at + k] == first[k] by {
            assert(tail[1 + k] == path[at + k]);
        }
    }
    assert forall|k: int| at <= k < end implies path[k] != 47 by {
        assert(path.subrange(at, end)[k - at] == path[k]);
        assert(!parts[0].contains(47u8));
        assert(first[k - at] == path[k]);
    }
    assert(path.skip(end) =~= joined(rest)) by {
        assert forall|k: int| 0 <= k < joined(rest).len() implies path[end + k] == joined(rest)[k] by {
            assert(tail[1 + first.len() + k] == path[end + k]);
        }
    }
    assert(parts.subrange(1, parts.len() as int) =~= rest);
    assert(with_segment(done, first) =~= f(done, first));
    assert(parts =~= seq![first] + rest);
    Seq::filter_distributes_over_add(seq![first], rest, g);
    reveal(Seq::filter);
    assert(seq![first].drop_last() =~= Seq::<Seq<u8>>::empty());
    assert(seq![first].drop_last().filter(g).len() == 0);
    assert(seq![first].last() == first);
    assert(seq![first].filter(g).len() == counts(first));
    if rest.len() > 0 {
        lemma_joined_first(rest);
        assert(path.skip(end)[0] == 47);
        lemma_scan(path, at, at, end, done);
        assert forall|i: int| 0 <= i < rest.len() implies !(#[trigger] rest[i]).contains(47u8) by {
            assert(rest[i] == parts[i + 1]);
        }
        lemma_clean(path, end + 1, rest, f(done, first));
    } else {
        assert(rest.map_values(|part: Seq<u8>| seq![47u8] + part) =~= Seq::<Seq<u8>>::empty());
        assert(joined(rest).len() == 0);
        lemma_scan(path, at, at, end, done);
        assert(rest.fold_left_alt(f(done, first), f) == f(done, first));
    }
}

proof fn lemma_slashed(parts: Seq<Seq<u8>>)
    ensures
        slashed(parts) == joined(parts),
    decreases parts.len(),
{
    broadcast use Seq::lemma_flatten_push;

    let f = |part: Seq<u8>| seq![47u8] + part;
    if parts.len() == 0 {
        assert(parts.map_values(f) =~= Seq::<Seq<u8>>::empty());
    } else {
        lemma_slashed(parts.drop_last());
        assert(parts.map_values(f) =~= parts.drop_last().map_values(f).push(f(parts.last())));
        assert(slashed(parts) =~= joined(parts.drop_last()) + (seq![47u8] + parts.last()));
    }
}

/// An absolute path is cleaned part by part: empty parts and single dots go, two
/// dots take the part before them away, and the rest stays in order. What has no
/// part left is the root. Its components are the root and the parts that are
/// neither empty nor a single dot.
pub proof fn law_lexical_path(parts: Seq<Seq<u8>>)
    requires
        parts.len() > 0,
        forall|i: int| 0 <= i < parts.len() ==> !(#[trigger] parts[i]).contains(47u8),
    ensures
        ({
            let path = parts.map_values(|part: Seq<u8>| seq![47u8] + part).flatten();
            let clean = parts.fold_left(
                Seq::<Seq<u8>>::empty(),
                |done: Seq<Seq<u8>>, part: Seq<u8>|
                    if part.len() == 0 || part == seq![46u8] {
                        done
                    } else if part == seq![46u8, 46u8] {
                        if done.len() > 0 {
                            done.take(done.len() - 1)
                        } else {
                            done
                        }
                    } else {
                        done.push(part)
                    },
            );
            &&& lexical(path) == if clean.len() == 0 {
                seq![47u8]
            } else {
                clean.map_values(|part: Seq<u8>| seq![47u8] + part).flatten()
            }
            &&& component_count(path) == 1 + parts.filter(
                |part: Seq<u8>| part.len() > 0 && part != seq![46u8],
            ).len()
        }),
{
    let path = joined(parts);
    let f = |d: Seq<Seq<u8>>, p: Seq<u8>| taken(d, p);
    let h = |done: Seq<Seq<u8>>, part: Seq<u8>|
        if part.len() == 0 || part == seq![46u8] {
            done
        } else if part == seq![46u8, 46u8] {
            if done.len() > 0 {
                done.take(done.len() - 1)
            } else {
                done
            }
        } else {
            done.push(part)
        };
    assert(f =~= h);
    let none = Seq::<Seq<u8>>::empty();
    parts.lemma_fold_left_alt(none, f);
    lemma_joined_first(parts);
    assert(path[0] == 47);
    lemma_scan(path, 0, 0, 0, none);
    assert(path.subrange(0, 0) =~= Seq::<u8>::empty());
    assert(path.skip(0) =~= path);
    lemma_clean(path, 1, parts, none);
    let clean = parts.fold_left(none, f);
    lemma_slashed(clean);
    assert((|p: Seq<u8>| p.len() > 0 && p != seq![46u8]) =~= (|part: Seq<u8>|
        part.len() > 0 && part != seq![46u8]));
}

} // verus!
