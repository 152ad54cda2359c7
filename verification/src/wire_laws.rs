//! What goes over the wire: how headers are read, and which JSON the commands of
//! the client are.
use vstd::prelude::*;
use vstd::utf8::*;

use crate::json::{Json, JsonValue};
use crate::json_write::{
    escaped, escaped_text, printed, printed_member, printed_members, quoted,
};
use crate::lsp::{DocumentVersion, LspPosition};
use crate::lsp_command::{command_parts, command_text, joined, ClientCommand, RequestScope};
use crate::lsp_frame::{
    after_blanks, before_blanks, content_length, framed, header_end, header_number, index_of_byte,
    line_end, number_in, FrameError, Framed,
};
use crate::lsp_types::{DocumentIncarnation, LspOperation, RequestId};
use crate::project::same_ignoring_case;
use crate::text::decimal;

verus! {

proof fn lemma_line_end_shift(a: Seq<u8>, b: Seq<u8>, i: int)
    requires
        0 <= i,
    ensures
        line_end(a + b, a.len() + i) == a.len() + line_end(b, i),
    decreases b.len() - i,
{
    if i < b.len() {
        lemma_line_end_shift(a, b, i + 1);
    }
}

proof fn lemma_index_shift(a: Seq<u8>, b: Seq<u8>, wanted: u8, i: int, end: int)
    requires
        0 <= i,
        end <= b.len(),
    ensures
        index_of_byte(a + b, wanted, a.len() + i, a.len() + end) == a.len() + index_of_byte(
            b,
            wanted,
            i,
            end,
        ),
    decreases end - i,
{
    if i < end {
        lemma_index_shift(a, b, wanted, i + 1, end);
    }
}

proof fn lemma_blanks_shift(a: Seq<u8>, b: Seq<u8>, i: int, end: int)
    requires
        0 <= i,
        end <= b.len(),
    ensures
        after_blanks(a + b, a.len() + i, a.len() + end) == a.len() + after_blanks(b, i, end),
        i <= after_blanks(b, i, end),
    decreases end - i,
{
    if i < end && (b[i] == 32 || b[i] == 9) {
        lemma_blanks_shift(a, b, i + 1, end);
    }
}

proof fn lemma_before_blanks_shift(a: Seq<u8>, b: Seq<u8>, i: int, end: int)
    requires
        0 <= i,
        0 <= end <= b.len(),
    ensures
        before_blanks(a + b, a.len() + i, a.len() + end) == a.len() + before_blanks(b, i, end),
        before_blanks(b, i, end) <= end,
        0 <= before_blanks(b, i, end),
    decreases end - i,
{
    if i < end && (b[end - 1] == 32 || b[end - 1] == 9) {
        lemma_before_blanks_shift(a, b, i, end - 1);
    }
}

proof fn lemma_number_shift(a: Seq<u8>, b: Seq<u8>, i: int, end: int)
    requires
        0 <= i,
        end <= b.len(),
    ensures
        number_in(a + b, a.len() + i, a.len() + end) == number_in(b, i, end),
    decreases end - i,
{
    if i < end {
        assert((a + b)[a.len() + end - 1] == b[end - 1]);
        assert((a + b)[a.len() + i] == b[i]);
        lemma_number_shift(a, b, i, end - 1);
    }
}

proof fn lemma_line_end_inside(b: Seq<u8>, i: int)
    requires
        0 <= i <= b.len(),
    ensures
        i <= line_end(b, i) <= b.len(),
    decreases b.len() - i,
{
    if i < b.len() {
        lemma_line_end_inside(b, i + 1);
    }
}

proof fn lemma_index_inside(b: Seq<u8>, wanted: u8, i: int, end: int)
    requires
        0 <= i <= end <= b.len(),
    ensures
        i <= index_of_byte(b, wanted, i, end) <= end,
    decreases end - i,
{
    if i < end && b[i] != wanted {
        lemma_index_inside(b, wanted, i + 1, end);
    }
}

proof fn lemma_content_shift(a: Seq<u8>, b: Seq<u8>, i: int)
    requires
        0 <= i <= b.len(),
    ensures
        content_length(a + b, a.len() + i) == content_length(b, i),
    decreases b.len() - i,
{
    if i < b.len() {
        let end = line_end(b, i);
        lemma_line_end_shift(a, b, i);
        lemma_line_end_inside(b, i);
        let colon = index_of_byte(b, 58, i, end);
        lemma_index_shift(a, b, 58, i, end);
        lemma_index_inside(b, 58, i, end);
        if colon < end {
            if end + 2 <= b.len() {
                lemma_content_shift(a, b, end + 2);
            }
            assert((a + b).subrange(a.len() + i, a.len() + colon) =~= b.subrange(i, colon));
            lemma_blanks_shift(a, b, colon + 1, end);
            let start = after_blanks(b, colon + 1, end);
            lemma_before_blanks_shift(a, b, start, end);
            lemma_number_shift(a, b, start, before_blanks(b, start, end));
        }
    }
}

proof fn lemma_line_end_at(b: Seq<u8>, i: int, end: int)
    requires
        0 <= i <= end <= b.len(),
        forall|k: int| i <= k < end ==> b[k] != 13,
        end == b.len() || (end + 1 < b.len() && b[end] == 13 && b[end + 1] == 10),
    ensures
        line_end(b, i) == end,
    decreases end - i,
{
    if i < end {
        lemma_line_end_at(b, i + 1, end);
    }
}

proof fn lemma_index_at_colon(b: Seq<u8>, i: int, at: int, end: int)
    requires
        0 <= i <= at < end <= b.len(),
        b[at] == 58,
        forall|k: int| i <= k < at ==> b[k] != 58,
    ensures
        index_of_byte(b, 58, i, end) == at,
    decreases at - i,
{
    if i < at {
        lemma_index_at_colon(b, i + 1, at, end);
    }
}

/// Header fields other than the content length do not matter, whatever their
/// number. A line without a colon makes the header invalid.
pub proof fn law_other_header_fields_do_not_matter(name: Seq<u8>, value: Seq<u8>, rest: Seq<u8>)
    requires
        !name.contains(13u8) && !name.contains(58u8),
        !value.contains(13u8),
        rest.len() > 0,
    ensures
        ({
            let line = name + seq![58u8] + value;
            let header = line + seq![13u8, 10u8] + rest;
            &&& !same_ignoring_case(name, encode_utf8("Content-Length"@)) ==> content_length(
                header,
                0,
            ) == content_length(rest, 0)
            &&& name.len() > 0 ==> content_length(name, 0) is Err
        }),
{
    let line = name + seq![58u8] + value;
    let front = line + seq![13u8, 10u8];
    let header = front + rest;
    let end = line.len() as int;
    assert forall|k: int| 0 <= k < end implies header[k] != 13 by {
        if k < name.len() {
            assert(header[k] == name[k]);
        } else if k > name.len() {
            assert(header[k] == value[k - name.len() - 1]);
        }
    }
    lemma_line_end_at(header, 0, end);
    assert forall|k: int| 0 <= k < name.len() implies header[k] != 58 by {
        assert(header[k] == name[k]);
    }
    lemma_index_at_colon(header, 0, name.len() as int, end);
    assert(header.subrange(0, name.len() as int) =~= name);
    lemma_content_shift(front, rest, 0);
    if name.len() > 0 {
        lemma_line_end_at(name, 0, name.len() as int);
        lemma_index_inside(name, 58, 0, name.len() as int);
        lemma_no_colon(name, 0);
    }
}

proof fn lemma_no_colon(b: Seq<u8>, i: int)
    requires
        0 <= i <= b.len(),
        !b.contains(58u8),
    ensures
        index_of_byte(b, 58, i, b.len() as int) == b.len(),
    decreases b.len() - i,
{
    if i < b.len() {
        assert(b.contains(b[i]));
        lemma_no_colon(b, i + 1);
    }
}

proof fn lemma_skip_blanks(b: Seq<u8>, i: int, at: int, end: int)
    requires
        0 <= i <= at < end <= b.len(),
        forall|k: int| i <= k < at ==> b[k] == 32 || b[k] == 9,
        b[at] != 32 && b[at] != 9,
    ensures
        after_blanks(b, i, end) == at,
    decreases at - i,
{
    if i < at {
        lemma_skip_blanks(b, i + 1, at, end);
    }
}

proof fn lemma_drop_blanks(b: Seq<u8>, i: int, at: int, end: int)
    requires
        0 <= i < at <= end <= b.len(),
        forall|k: int| at <= k < end ==> b[k] == 32 || b[k] == 9,
        b[at - 1] != 32 && b[at - 1] != 9,
    ensures
        before_blanks(b, i, end) == at,
    decreases end - at,
{
    if at < end {
        lemma_drop_blanks(b, i, at, end - 1);
    }
}

/// The content length is the number in the field of that name, whatever the case
/// of its letters and whatever blanks stand around the number. A second field of
/// that name makes the header invalid.
pub proof fn law_content_length_is_read(
    name: Seq<u8>,
    left: Seq<u8>,
    digits: Seq<u8>,
    right: Seq<u8>,
    rest: Seq<u8>,
)
    requires
        same_ignoring_case(name, encode_utf8("Content-Length"@)),
        !name.contains(13u8) && !name.contains(58u8),
        forall|k: int| 0 <= k < left.len() ==> #[trigger] left[k] == 32 || left[k] == 9,
        forall|k: int| 0 <= k < right.len() ==> #[trigger] right[k] == 32 || right[k] == 9,
        digits.len() > 0,
        forall|k: int| 0 <= k < digits.len() ==> 48 <= #[trigger] digits[k] <= 57,
        rest.len() > 0,
    ensures
        ({
            let line = name + seq![58u8] + left + digits + right;
            let header = line + seq![13u8, 10u8] + rest;
            let value = number_in(digits, 0, digits.len() as int);
            &&& value matches Some(n) ==> content_length(line, 0) == Ok::<Option<u64>, ()>(Some(n))
            &&& value is None ==> content_length(line, 0) is Err
            &&& value matches Some(n) ==> (content_length(rest, 0) == Ok::<Option<u64>, ()>(None)
                ==> content_length(header, 0) == Ok::<Option<u64>, ()>(Some(n)))
            &&& content_length(rest, 0) matches Ok(Some(_)) ==> content_length(header, 0) is Err
        }),
{
    let line = name + seq![58u8] + left + digits + right;
    let front = line + seq![13u8, 10u8];
    let header = front + rest;
    assert(line.take(line.len() as int) =~= line);
    assert(header.take(line.len() as int) =~= line);
    assert(header[line.len() as int] == 13 && header[line.len() + 1int] == 10);
    lemma_length_line(name, left, digits, right, line);
    lemma_length_line(name, left, digits, right, header);
    lemma_content_shift(front, rest, 0);
}

proof fn lemma_length_line(
    name: Seq<u8>,
    left: Seq<u8>,
    digits: Seq<u8>,
    right: Seq<u8>,
    header: Seq<u8>,
)
    requires
        !name.contains(13u8) && !name.contains(58u8),
        forall|k: int| 0 <= k < left.len() ==> #[trigger] left[k] == 32 || left[k] == 9,
        forall|k: int| 0 <= k < right.len() ==> #[trigger] right[k] == 32 || right[k] == 9,
        digits.len() > 0,
        forall|k: int| 0 <= k < digits.len() ==> 48 <= #[trigger] digits[k] <= 57,
        ({
            let line = name + seq![58u8] + left + digits + right;
            &&& line.len() <= header.len()
            &&& header.take(line.len() as int) == line
            &&& header.len() == line.len() || (header.len() > line.len() + 1 && header[line.len() as int]
                == 13 && header[line.len() + 1int] == 10)
        }),
    ensures
        ({
            let line = name + seq![58u8] + left + digits + right;
            let end = line_end(header, 0);
            let colon = index_of_byte(header, 58, 0, end);
            &&& end == line.len()
            &&& colon == name.len()
            &&& header.subrange(0, colon) == name
            &&& header_number(header, colon, end) == number_in(digits, 0, digits.len() as int)
        }),
{
    let line = name + seq![58u8] + left + digits + right;
    let end = line.len() as int;
    let colon = name.len() as int;
    let a = colon + 1 + left.len();
    let b = a + digits.len();
    assert forall|k: int| 0 <= k < end implies #[trigger] header[k] == line[k] by {
        assert(header.take(end)[k] == header[k]);
    }
    assert forall|k: int| 0 <= k < end implies #[trigger] line[k] == (if k < colon {
        name[k]
    } else if k == colon {
        58u8
    } else if k < a {
        left[k - colon - 1]
    } else if k < b {
        digits[k - a]
    } else {
        right[k - b]
    }) by {}
    assert forall|k: int| 0 <= k < end implies header[k] != 13 by {
        assert(header[k] == line[k]);
        if k < colon {
            assert(name.contains(name[k]));
        } else if colon < k < a {
            assert(left[k - colon - 1] != 13);
        } else if a <= k < b {
            assert(digits[k - a] >= 48);
        } else if k >= b {
            assert(right[k - b] != 13);
        }
    }
    lemma_line_end_at(header, 0, end);
    assert forall|k: int| 0 <= k < colon implies header[k] != 58 by {
        assert(header[k] == line[k]);
        assert(name.contains(name[k]));
    }
    assert(header[colon] == line[colon]);
    lemma_index_at_colon(header, 0, colon, end);
    assert(header.subrange(0, colon) =~= name);
    assert forall|k: int| colon + 1 <= k < a implies header[k] == 32 || header[k] == 9 by {
        assert(header[k] == line[k]);
        assert(left[k - colon - 1] == 32 || left[k - colon - 1] == 9);
    }
    assert(header[a] == line[a] && digits[0] >= 48);
    lemma_skip_blanks(header, colon + 1, a, end);
    assert forall|k: int| b <= k < end implies header[k] == 32 || header[k] == 9 by {
        assert(header[k] == line[k]);
        assert(right[k - b] == 32 || right[k - b] == 9);
    }
    assert(header[b - 1] == line[b - 1] && digits[digits.len() - 1] >= 48);
    lemma_drop_blanks(header, a, b, end);
    let front = header.take(a);
    let back = header.skip(a);
    assert(front + back =~= header);
    lemma_number_shift(front, back, 0, digits.len() as int);
    lemma_same_number(back, digits, digits.len() as int);
}

proof fn lemma_same_number(b: Seq<u8>, digits: Seq<u8>, end: int)
    requires
        0 <= end <= digits.len() <= b.len(),
        forall|k: int| 0 <= k < digits.len() ==> #[trigger] b[k] == digits[k],
    ensures
        number_in(b, 0, end) == number_in(digits, 0, end),
    decreases end,
{
    if end > 0 {
        assert(b[end - 1] == digits[end - 1]);
        assert(b[0] == digits[0]);
        lemma_same_number(b, digits, end - 1);
    }
}

/// The number of digits is that of their decimal value, where it fits.
pub proof fn law_header_numbers_are_decimal(digits: Seq<u8>, d: u8)
    requires
        48 <= d <= 57,
    ensures
        number_in(seq![d], 0, 1) == Some((d - 48) as u64),
        digits.len() > 0 ==> number_in(digits.push(d), 0, digits.len() + 1int) == match number_in(
            digits,
            0,
            digits.len() as int,
        ) {
            Some(n) => if 10 * n + (d - 48) <= u64::MAX {
                Some((10 * n + (d - 48)) as u64)
            } else {
                None
            },
            None => None,
        },
{
    if digits.len() > 0 {
        lemma_same_number(digits.push(d), digits, digits.len() as int);
    }
}

/// A header ends at the first empty line.
pub proof fn law_header_ends_at_the_first_empty_line(bytes: Seq<u8>, i: int)
    requires
        0 <= i,
    ensures
        match header_end(bytes, i) {
            Some(end) => i <= end && end + 4 <= bytes.len() && bytes.subrange(end, end + 4) == seq![
                13u8,
                10,
                13,
                10,
            ] && forall|k: int|
                i <= k < end ==> #[trigger] bytes.subrange(k, k + 4) != seq![13u8, 10, 13, 10],
            None => forall|k: int|
                i <= k && k + 4 <= bytes.len() ==> #[trigger] bytes.subrange(k, k + 4) != seq![
                    13u8,
                    10,
                    13,
                    10,
                ],
        },
    decreases bytes.len() - i,
{
    let gap = seq![13u8, 10, 13, 10];
    if i + 4 <= bytes.len() {
        let here = bytes.subrange(i, i + 4);
        assert(here[0] == bytes[i] && here[1] == bytes[i + 1] && here[2] == bytes[i + 2] && here[3]
            == bytes[i + 3]);
        if bytes[i] == 13 && bytes[i + 1] == 10 && bytes[i + 2] == 13 && bytes[i + 3] == 10 {
            assert(here =~= gap);
        } else {
            law_header_ends_at_the_first_empty_line(bytes, i + 1);
            assert(here != gap) by {
                assert(gap[0] == 13 && gap[1] == 10 && gap[2] == 13 && gap[3] == 10);
            }
        }
    }
}

proof fn lemma_plain(s: Seq<char>)
    requires
        forall|i: int|
            0 <= i < s.len() ==> #[trigger] s[i] != '"' && s[i] != '\\' && s[i] > '\u{1f}',
    ensures
        quoted(s) == seq!['"'] + s + seq!['"'],
    decreases s.len(),
{
    lemma_plain_text(s);
}

proof fn lemma_plain_text(s: Seq<char>)
    requires
        forall|i: int|
            0 <= i < s.len() ==> #[trigger] s[i] != '"' && s[i] != '\\' && s[i] > '\u{1f}',
    ensures
        escaped_text(s) == s,
    decreases s.len(),
{
    if s.len() == 0 {
        assert(s =~= Seq::<char>::empty());
    } else {
        let front = s.drop_last();
        let last = s.len() - 1;
        assert forall|i: int| 0 <= i < front.len() implies #[trigger] front[i] != '"' && front[i]
            != '\\' && front[i] > '\u{1f}' by {
            assert(front[i] == s[i]);
        }
        lemma_plain_text(front);
        assert(s[last] == s.last());
        assert(escaped(s.last()) =~= seq![s.last()]);
        assert(front + seq![s.last()] =~= s);
    }
}

proof fn lemma_one_member(a: (Seq<char>, Json))
    ensures
        printed(Json::Table(seq![a])) == seq!['{'] + (quoted(a.0) + seq![':'] + printed(a.1)) + seq![
            '}',
        ],
{
    let list = seq![a];
    reveal_with_fuel(printed_members, 2);
    assert(list.drop_last() =~= Seq::<(Seq<char>, Json)>::empty());
    assert(list.last() == a);
    assert(printed_members(list) =~= printed_member(a));
}

proof fn lemma_add_member(list: Seq<(Seq<char>, Json)>, a: (Seq<char>, Json))
    requires
        list.len() > 0,
    ensures
        printed_members(list.push(a)) == printed_members(list) + seq![','] + (quoted(a.0) + seq![':']
            + printed(a.1)),
{
    assert(list.push(a).drop_last() =~= list);
    assert(list.push(a).last() == a);
    assert(printed_member(a) == quoted(a.0) + seq![':'] + printed(a.1));
    assert(printed_members(list.push(a)) == crate::json_write::separated(
        printed_members(list),
        true,
    ) + printed_member(a));
}

/// Closing a document is told by its URI.
pub proof fn law_closing_is_told(uri: String)
    ensures
        command_text(ClientCommand::DidClose { uri }) == printed(
            Json::Table(
                seq![
                    ("jsonrpc"@, Json::Text("2.0"@)),
                    ("method"@, Json::Text("textDocument/didClose"@)),
                    (
                        "params"@,
                        Json::Table(
                            seq![
                                (
                                    "textDocument"@,
                                    Json::Table(seq![("uri"@, Json::Text(uri@))]),
                                ),
                            ],
                        ),
                    ),
                ],
            ),
        ),
{
    let command = ClientCommand::DidClose { uri };
    let document = Json::Table(seq![("uri"@, Json::Text(uri@))]);
    let params = Json::Table(seq![("textDocument"@, document)]);
    lemma_words();
    lemma_one_member(("uri"@, Json::Text(uri@)));
    lemma_one_member(("textDocument"@, document));
    lemma_notification("textDocument/didClose"@, params);
    reveal_strlit("textDocument/didClose");
    lemma_plain("textDocument/didClose"@);
    let parts = command_parts(command);
    lemma_joined_four(parts);
    lemma_close_opening();
    let opening = seq!['{'] + quoted("textDocument"@) + seq![':'] + seq!['{'] + quoted("uri"@) + seq![
        ':',
    ];
    assert("}}}"@ =~= seq!['}', '}', '}']) by {
        reveal_strlit("}}}");
    }
    assert(printed(params) =~= opening + quoted(uri@) + seq!['}', '}']);
    assert(parts[1] == "\"method\":"@ + quoted("textDocument/didClose"@) + ",\"params\":"@ + opening);
    assert(command_text(command) =~= parts[0] + ("\"method\":"@ + quoted("textDocument/didClose"@)
        + ",\"params\":"@) + printed(params) + seq!['}']);
}

proof fn lemma_close_opening()
    ensures
        "\"method\":\"textDocument/didClose\",\"params\":{\"textDocument\":{\"uri\":"@
            == "\"method\":"@ + quoted("textDocument/didClose"@) + ",\"params\":"@ + (seq!['{']
            + quoted("textDocument"@) + seq![':'] + seq!['{'] + quoted("uri"@) + seq![':']),
{
    lemma_words();
    reveal_strlit("textDocument/didClose");
    lemma_plain("textDocument/didClose"@);
    reveal_strlit("\"method\":");
    reveal_strlit(",\"params\":");
    reveal_strlit("\"textDocument\"");
    reveal_strlit("\"uri\"");
    reveal_strlit(
        "\"method\":\"textDocument/didClose\",\"params\":{\"textDocument\":{\"uri\":",
    );
    assert("\"method\":\"textDocument/didClose\",\"params\":{\"textDocument\":{\"uri\":"@
        =~= "\"method\":"@ + quoted("textDocument/didClose"@) + ",\"params\":"@ + (seq!['{']
        + quoted("textDocument"@) + seq![':'] + seq!['{'] + quoted("uri"@) + seq![':']));
}

proof fn lemma_joined_four(parts: Seq<Seq<char>>)
    requires
        parts.len() == 4,
    ensures
        joined(parts) == parts[0] + parts[1] + parts[2] + parts[3],
{
    reveal_with_fuel(joined, 5);
    let none = Seq::<Seq<char>>::empty();
    assert(parts.drop_last().drop_last().drop_last().drop_last() =~= none);
    assert(joined(none) =~= Seq::<char>::empty());
    assert(joined(parts) =~= parts[0] + parts[1] + parts[2] + parts[3]);
}

proof fn lemma_words()
    ensures
        quoted("jsonrpc"@) == "\"jsonrpc\""@,
        quoted("2.0"@) == "\"2.0\""@,
        quoted("method"@) == "\"method\""@,
        quoted("params"@) == "\"params\""@,
        quoted("textDocument"@) == "\"textDocument\""@,
        quoted("uri"@) == "\"uri\""@,
{
    reveal_strlit("jsonrpc");
    reveal_strlit("\"jsonrpc\"");
    lemma_plain("jsonrpc"@);
    assert(quoted("jsonrpc"@) =~= "\"jsonrpc\""@);
    reveal_strlit("2.0");
    reveal_strlit("\"2.0\"");
    lemma_plain("2.0"@);
    assert(quoted("2.0"@) =~= "\"2.0\""@);
    reveal_strlit("method");
    reveal_strlit("\"method\"");
    lemma_plain("method"@);
    assert(quoted("method"@) =~= "\"method\""@);
    reveal_strlit("params");
    reveal_strlit("\"params\"");
    lemma_plain("params"@);
    assert(quoted("params"@) =~= "\"params\""@);
    reveal_strlit("textDocument");
    reveal_strlit("\"textDocument\"");
    lemma_plain("textDocument"@);
    assert(quoted("textDocument"@) =~= "\"textDocument\""@);
    reveal_strlit("uri");
    reveal_strlit("\"uri\"");
    lemma_plain("uri"@);
    assert(quoted("uri"@) =~= "\"uri\""@);
}

proof fn lemma_notification(method: Seq<char>, params: Json)
    ensures
        printed(
            Json::Table(
                seq![
                    ("jsonrpc"@, Json::Text("2.0"@)),
                    ("method"@, Json::Text(method)),
                    ("params"@, params),
                ],
            ),
        ) == "{\"jsonrpc\":\"2.0\","@ + ("\"method\":"@ + quoted(method) + ",\"params\":"@)
            + printed(params) + seq!['}'],
{
    let a = ("jsonrpc"@, Json::Text("2.0"@));
    let b = ("method"@, Json::Text(method));
    let c = ("params"@, params);
    lemma_words();
    let one = seq![a];
    reveal_with_fuel(printed_members, 2);
    assert(one.drop_last() =~= Seq::<(Seq<char>, Json)>::empty());
    assert(one.last() == a);
    assert(printed_members(one) =~= printed_member(a));
    lemma_add_member(one, b);
    lemma_add_member(one.push(b), c);
    assert(seq![a, b, c] =~= one.push(b).push(c));
    reveal_strlit("{\"jsonrpc\":\"2.0\",");
    reveal_strlit("\"jsonrpc\"");
    reveal_strlit("\"2.0\"");
    reveal_strlit("\"method\"");
    reveal_strlit("\"params\"");
    reveal_strlit("\"method\":");
    reveal_strlit(",\"params\":");
    let head = seq!['{'] + (quoted("jsonrpc"@) + seq![':'] + quoted("2.0"@)) + seq![','];
    assert(head =~= "{\"jsonrpc\":\"2.0\","@);
    assert(quoted("method"@) + seq![':'] =~= "\"method\":"@);
    assert(seq![','] + (quoted("params"@) + seq![':']) =~= ",\"params\":"@);
    assert(printed(Json::Table(seq![a, b, c])) =~= head + (quoted("method"@) + seq![':'] + quoted(
        method,
    ) + (seq![','] + (quoted("params"@) + seq![':']))) + printed(params) + seq!['}']);
}

/// A key and the colon behind it.
spec fn keyed(key: Seq<char>) -> Seq<char> {
    seq!['"'] + key + seq!['"', ':']
}

spec fn plain(s: Seq<char>) -> bool {
    forall|i: int| 0 <= i < s.len() ==> #[trigger] s[i] != '"' && s[i] != '\\' && s[i] > '\u{1f}'
}

proof fn lemma_first_member(key: Seq<char>, value: Json)
    requires
        plain(key),
    ensures
        printed_members(seq![(key, value)]) == keyed(key) + printed(value),
{
    lemma_plain(key);
    lemma_one_member((key, value));
    let list = seq![(key, value)];
    reveal_with_fuel(printed_members, 2);
    assert(list.drop_last() =~= Seq::<(Seq<char>, Json)>::empty());
    assert(list.last() == (key, value));
    assert(printed_members(list) =~= printed_member((key, value)));
    assert(printed_member((key, value)) == quoted(key) + seq![':'] + printed(value));
    assert(quoted(key) + seq![':'] =~= keyed(key));
}

proof fn lemma_next_member(list: Seq<(Seq<char>, Json)>, key: Seq<char>, value: Json)
    requires
        list.len() > 0,
        plain(key),
    ensures
        printed_members(list.push((key, value))) == printed_members(list) + seq![','] + keyed(key)
            + printed(value),
{
    lemma_plain(key);
    lemma_add_member(list, (key, value));
    assert(quoted(key) + seq![':'] =~= keyed(key));
    assert(printed_members(list) + seq![','] + (quoted(key) + seq![':'] + printed(value))
        =~= printed_members(list) + seq![','] + keyed(key) + printed(value));
}

proof fn lemma_joined_push(parts: Seq<Seq<char>>, last: Seq<char>)
    ensures
        joined(parts.push(last)) == joined(parts) + last,
{
    assert(parts.push(last).drop_last() =~= parts);
}

proof fn lemma_joined_five(parts: Seq<Seq<char>>)
    requires
        parts.len() == 5,
    ensures
        joined(parts) == parts[0] + parts[1] + parts[2] + parts[3] + parts[4],
{
    lemma_joined_four(parts.take(4));
    lemma_joined_push(parts.take(4), parts[4]);
    assert(parts.take(4).push(parts[4]) =~= parts);
}

proof fn lemma_joined_ten(parts: Seq<Seq<char>>)
    requires
        parts.len() == 10,
    ensures
        joined(parts) == parts[0] + parts[1] + parts[2] + parts[3] + parts[4] + parts[5] + parts[6]
            + parts[7] + parts[8] + parts[9],
{
    lemma_joined_five(parts.take(5));
    lemma_joined_push(parts.take(5), parts[5]);
    assert(parts.take(5).push(parts[5]) =~= parts.take(6));
    lemma_joined_push(parts.take(6), parts[6]);
    assert(parts.take(6).push(parts[6]) =~= parts.take(7));
    lemma_joined_push(parts.take(7), parts[7]);
    assert(parts.take(7).push(parts[7]) =~= parts.take(8));
    lemma_joined_push(parts.take(8), parts[8]);
    assert(parts.take(8).push(parts[8]) =~= parts.take(9));
    lemma_joined_push(parts.take(9), parts[9]);
    assert(parts.take(9).push(parts[9]) =~= parts);
}

proof fn lemma_open_words()
    ensures
        plain("textDocument"@),
        plain("uri"@),
        plain("languageId"@),
        plain("version"@),
        plain("text"@),
        ",\"languageId\":"@ == seq![','] + keyed("languageId"@),
        ",\"version\":"@ == seq![','] + keyed("version"@),
        ",\"text\":"@ == seq![','] + keyed("text"@),
        "}}}"@ == seq!['}', '}', '}'],
        "\"method\":\"textDocument/didOpen\",\"params\":{\"textDocument\":{\"uri\":"@
            == "\"method\":"@ + quoted("textDocument/didOpen"@) + ",\"params\":"@ + (seq!['{']
            + keyed("textDocument"@) + seq!['{'] + keyed("uri"@)),
{
    reveal_strlit("textDocument");
    reveal_strlit("uri");
    reveal_strlit("languageId");
    reveal_strlit("version");
    reveal_strlit("text");
    reveal_strlit(",\"languageId\":");
    reveal_strlit(",\"version\":");
    reveal_strlit(",\"text\":");
    reveal_strlit("}}}");
    assert(",\"languageId\":"@ =~= seq![','] + keyed("languageId"@));
    assert(",\"version\":"@ =~= seq![','] + keyed("version"@));
    assert(",\"text\":"@ =~= seq![','] + keyed("text"@));
    assert("}}}"@ =~= seq!['}', '}', '}']);
    reveal_strlit("textDocument/didOpen");
    lemma_plain("textDocument/didOpen"@);
    reveal_strlit("\"method\":");
    reveal_strlit(",\"params\":");
    reveal_strlit("\"method\":\"textDocument/didOpen\",\"params\":{\"textDocument\":{\"uri\":");
    assert("\"method\":\"textDocument/didOpen\",\"params\":{\"textDocument\":{\"uri\":"@
        =~= "\"method\":"@ + quoted("textDocument/didOpen"@) + ",\"params\":"@ + (seq!['{']
        + keyed("textDocument"@) + seq!['{'] + keyed("uri"@)));
}

proof fn lemma_four_fields(
    a: Seq<char>,
    p: Seq<char>,
    b: Seq<char>,
    q: Seq<char>,
    c: Seq<char>,
    r: Seq<char>,
    d: Seq<char>,
    t: Seq<char>,
)
    ensures
        a + p + seq![','] + b + q + seq![','] + c + r + seq![','] + d + t == a + (p + (seq![','] + b)
            + q + (seq![','] + c) + r + (seq![','] + d) + t),
{
    assert(a + p + seq![','] + b + q + seq![','] + c + r + seq![','] + d + t =~= a + (p + (seq![',']
        + b) + q + (seq![','] + c) + r + (seq![','] + d) + t));
}

proof fn lemma_eight_parts(parts: Seq<Seq<char>>)
    requires
        parts.len() == 10,
    ensures
        joined(parts) == parts[0] + parts[1] + (parts[2] + parts[3] + parts[4] + parts[5] + parts[6]
            + parts[7] + parts[8]) + parts[9],
{
    lemma_joined_ten(parts);
    assert(joined(parts) =~= parts[0] + parts[1] + (parts[2] + parts[3] + parts[4] + parts[5]
        + parts[6] + parts[7] + parts[8]) + parts[9]);
}

proof fn lemma_message(
    head: Seq<char>,
    method: Seq<char>,
    a: Seq<char>,
    b: Seq<char>,
    fields: Seq<char>,
)
    ensures
        head + (method + (seq!['{'] + a + seq!['{'] + b)) + fields + seq!['}', '}', '}'] == head
            + method + (seq!['{'] + (a + (seq!['{'] + (b + fields) + seq!['}'])) + seq!['}']) + seq![
            '}',
        ],
{
    assert(head + (method + (seq!['{'] + a + seq!['{'] + b)) + fields + seq!['}', '}', '}'] =~= head
        + method + (seq!['{'] + (a + (seq!['{'] + (b + fields) + seq!['}'])) + seq!['}']) + seq![
        '}',
    ]);
}

/// Opening a document is told with its URI, its language, its version and its
/// whole text.
pub proof fn law_opening_is_told(
    uri: String,
    language_id: String,
    version: DocumentVersion,
    incarnation: DocumentIncarnation,
    text: String,
)
    ensures
        command_text(
            ClientCommand::DidOpen { uri, language_id, version, incarnation, text },
        ) == printed(
            Json::Table(
                seq![
                    ("jsonrpc"@, Json::Text("2.0"@)),
                    ("method"@, Json::Text("textDocument/didOpen"@)),
                    (
                        "params"@,
                        Json::Table(
                            seq![
                                (
                                    "textDocument"@,
                                    Json::Table(
                                        seq![
                                            ("uri"@, Json::Text(uri@)),
                                            ("languageId"@, Json::Text(language_id@)),
                                            (
                                                "version"@,
                                                Json::Number(decimal(version.number as nat)),
                                            ),
                                            ("text"@, Json::Text(text@)),
                                        ],
                                    ),
                                ),
                            ],
                        ),
                    ),
                ],
            ),
        ),
{
    let command = ClientCommand::DidOpen { uri, language_id, version, incarnation, text };
    let number = decimal(version.number as nat);
    let a = ("uri"@, Json::Text(uri@));
    let b = ("languageId"@, Json::Text(language_id@));
    let c = ("version"@, Json::Number(number));
    let d = ("text"@, Json::Text(text@));
    lemma_open_words();
    lemma_first_member(a.0, a.1);
    lemma_next_member(seq![a], b.0, b.1);
    lemma_next_member(seq![a].push(b), c.0, c.1);
    lemma_next_member(seq![a].push(b).push(c), d.0, d.1);
    assert(seq![a, b, c, d] =~= seq![a].push(b).push(c).push(d));
    let document = Json::Table(seq![a, b, c, d]);
    lemma_first_member("textDocument"@, document);
    let params = Json::Table(seq![("textDocument"@, document)]);
    lemma_notification("textDocument/didOpen"@, params);
    let parts = command_parts(command);
    lemma_joined_ten(parts);
    let opening = seq!['{'] + keyed("textDocument"@) + seq!['{'] + keyed("uri"@);
    let fields = quoted(uri@) + parts[3] + quoted(language_id@) + parts[5] + number + parts[7]
        + quoted(text@);
    lemma_four_fields(
        keyed("uri"@),
        quoted(uri@),
        keyed("languageId"@),
        quoted(language_id@),
        keyed("version"@),
        number,
        keyed("text"@),
        quoted(text@),
    );
    let method = "\"method\":"@ + quoted("textDocument/didOpen"@) + ",\"params\":"@;
    assert(printed(document) == seq!['{'] + (keyed("uri"@) + fields) + seq!['}']);
    assert(printed(params) == seq!['{'] + (keyed("textDocument"@) + printed(document)) + seq!['}']);
    assert(parts[1] == method + opening);
    lemma_eight_parts(parts);
    lemma_message(parts[0], method, keyed("textDocument"@), keyed("uri"@), fields);
}

proof fn lemma_other_words()
    ensures
        plain("textDocument"@),
        plain("uri"@),
        plain("id"@),
        plain("text"@),
        plain("version"@),
        plain("contentChanges"@),
        plain("jsonrpc"@),
        plain("method"@),
        plain("params"@),
        "\"id\":"@ == keyed("id"@),
        ",\"text\":"@ == seq![','] + keyed("text"@),
        ",\"version\":"@ == seq![','] + keyed("version"@),
        "\"text\":"@ == keyed("text"@),
        ",\"method\":"@ == seq![','] + keyed("method"@),
        ",\"params\":"@ == seq![','] + keyed("params"@),
        "}"@ == seq!['}'],
        "}}"@ == seq!['}', '}'],
        "}]}}"@ == seq!['}', ']', '}', '}'],
        "},\"contentChanges\":[{"@ == seq!['}', ','] + keyed("contentChanges"@) + seq!['[', '{'],
        "{\"jsonrpc\":\"2.0\","@ == seq!['{'] + (keyed("jsonrpc"@) + quoted("2.0"@)) + seq![','],
{
    reveal_strlit("textDocument");
    reveal_strlit("uri");
    reveal_strlit("id");
    reveal_strlit("text");
    reveal_strlit("version");
    reveal_strlit("contentChanges");
    reveal_strlit("jsonrpc");
    reveal_strlit("method");
    reveal_strlit("params");
    reveal_strlit("\"id\":");
    reveal_strlit(",\"text\":");
    reveal_strlit(",\"version\":");
    reveal_strlit("\"text\":");
    reveal_strlit(",\"method\":");
    reveal_strlit(",\"params\":");
    reveal_strlit("}");
    reveal_strlit("}}");
    reveal_strlit("}]}}");
    reveal_strlit("},\"contentChanges\":[{");
    reveal_strlit("{\"jsonrpc\":\"2.0\",");
    reveal_strlit("2.0");
    assert("\"id\":"@ =~= keyed("id"@));
    assert(",\"text\":"@ =~= seq![','] + keyed("text"@));
    assert(",\"version\":"@ =~= seq![','] + keyed("version"@));
    assert("\"text\":"@ =~= keyed("text"@));
    assert(",\"method\":"@ =~= seq![','] + keyed("method"@));
    assert(",\"params\":"@ =~= seq![','] + keyed("params"@));
    assert("}"@ =~= seq!['}']);
    assert("}}"@ =~= seq!['}', '}']);
    assert("}]}}"@ =~= seq!['}', ']', '}', '}']);
    assert("},\"contentChanges\":[{"@ =~= seq!['}', ','] + keyed("contentChanges"@) + seq![
        '[',
        '{',
    ]);
    lemma_plain("2.0"@);
    assert("{\"jsonrpc\":\"2.0\","@ =~= seq!['{'] + (keyed("jsonrpc"@) + quoted("2.0"@)) + seq![
        ',',
    ]);
}

proof fn lemma_method_openings()
    ensures
        "\"method\":\"textDocument/didSave\",\"params\":{\"textDocument\":{\"uri\":"@
            == "\"method\":"@ + quoted("textDocument/didSave"@) + ",\"params\":"@ + (seq!['{']
            + keyed("textDocument"@) + seq!['{'] + keyed("uri"@)),
        "\"method\":\"textDocument/didChange\",\"params\":{\"textDocument\":{\"uri\":"@
            == "\"method\":"@ + quoted("textDocument/didChange"@) + ",\"params\":"@ + (seq!['{']
            + keyed("textDocument"@) + seq!['{'] + keyed("uri"@)),
        "\"method\":\"$/cancelRequest\",\"params\":{\"id\":"@ == "\"method\":"@ + quoted(
            "$/cancelRequest"@,
        ) + ",\"params\":"@ + (seq!['{'] + keyed("id"@)),
        ",\"method\":\"shutdown\",\"params\":null}"@ == seq![','] + keyed("method"@) + quoted(
            "shutdown"@,
        ) + (seq![','] + keyed("params"@)) + "null"@ + seq!['}'],
{
    reveal_strlit("textDocument");
    reveal_strlit("uri");
    reveal_strlit("id");
    reveal_strlit("method");
    reveal_strlit("params");
    reveal_strlit("null");
    reveal_strlit("\"method\":");
    reveal_strlit(",\"params\":");
    reveal_strlit("textDocument/didSave");
    reveal_strlit("textDocument/didChange");
    reveal_strlit("$/cancelRequest");
    reveal_strlit("shutdown");
    reveal_strlit("\"method\":\"textDocument/didSave\",\"params\":{\"textDocument\":{\"uri\":");
    reveal_strlit("\"method\":\"textDocument/didChange\",\"params\":{\"textDocument\":{\"uri\":");
    reveal_strlit("\"method\":\"$/cancelRequest\",\"params\":{\"id\":");
    reveal_strlit(",\"method\":\"shutdown\",\"params\":null}");
    lemma_plain("textDocument/didSave"@);
    lemma_plain("textDocument/didChange"@);
    lemma_plain("$/cancelRequest"@);
    lemma_plain("shutdown"@);
    assert("\"method\":\"textDocument/didSave\",\"params\":{\"textDocument\":{\"uri\":"@
        =~= "\"method\":"@ + quoted("textDocument/didSave"@) + ",\"params\":"@ + (seq!['{']
        + keyed("textDocument"@) + seq!['{'] + keyed("uri"@)));
    assert("\"method\":\"textDocument/didChange\",\"params\":{\"textDocument\":{\"uri\":"@
        =~= "\"method\":"@ + quoted("textDocument/didChange"@) + ",\"params\":"@ + (seq!['{']
        + keyed("textDocument"@) + seq!['{'] + keyed("uri"@)));
    assert("\"method\":\"$/cancelRequest\",\"params\":{\"id\":"@ =~= "\"method\":"@ + quoted(
        "$/cancelRequest"@,
    ) + ",\"params\":"@ + (seq!['{'] + keyed("id"@)));
    assert(",\"method\":\"shutdown\",\"params\":null}"@ =~= seq![','] + keyed("method"@)
        + quoted("shutdown"@) + (seq![','] + keyed("params"@)) + "null"@ + seq!['}']);
}

/// Saving a document is told by its URI, with its text where the server asked
/// for it.
pub proof fn law_saving_is_told(uri: String, text: String)
    ensures
        command_text(ClientCommand::DidSave { uri, text: None }) == printed(
            Json::Table(
                seq![
                    ("jsonrpc"@, Json::Text("2.0"@)),
                    ("method"@, Json::Text("textDocument/didSave"@)),
                    (
                        "params"@,
                        Json::Table(
                            seq![("textDocument"@, Json::Table(seq![("uri"@, Json::Text(uri@))]))],
                        ),
                    ),
                ],
            ),
        ),
        command_text(ClientCommand::DidSave { uri, text: Some(text) }) == printed(
            Json::Table(
                seq![
                    ("jsonrpc"@, Json::Text("2.0"@)),
                    ("method"@, Json::Text("textDocument/didSave"@)),
                    (
                        "params"@,
                        Json::Table(
                            seq![
                                ("textDocument"@, Json::Table(seq![("uri"@, Json::Text(uri@))])),
                                ("text"@, Json::Text(text@)),
                            ],
                        ),
                    ),
                ],
            ),
        ),
{
    let document = Json::Table(seq![("uri"@, Json::Text(uri@))]);
    let a = ("textDocument"@, document);
    let b = ("text"@, Json::Text(text@));
    lemma_other_words();
    lemma_method_openings();
    lemma_first_member("uri"@, Json::Text(uri@));
    lemma_first_member(a.0, a.1);
    lemma_next_member(seq![a], b.0, b.1);
    assert(seq![a, b] =~= seq![a].push(b));
    lemma_notification("textDocument/didSave"@, Json::Table(seq![a]));
    lemma_notification("textDocument/didSave"@, Json::Table(seq![a, b]));
    let short = command_parts(ClientCommand::DidSave { uri, text: None });
    let long = command_parts(ClientCommand::DidSave { uri, text: Some(text) });
    lemma_joined_five(short);
    lemma_joined_seven(long);
    let method = "\"method\":"@ + quoted("textDocument/didSave"@) + ",\"params\":"@;
    lemma_save(short[0], method, keyed("textDocument"@), keyed("uri"@), quoted(uri@));
    lemma_save_text(
        long[0],
        method,
        keyed("textDocument"@),
        keyed("uri"@),
        quoted(uri@),
        keyed("text"@),
        quoted(text@),
    );
}

proof fn lemma_save(h: Seq<char>, m: Seq<char>, a: Seq<char>, b: Seq<char>, u: Seq<char>)
    ensures
        h + (m + (seq!['{'] + a + seq!['{'] + b)) + u + seq!['}'] + seq!['}', '}'] == h + m + (seq![
            '{',
        ] + (a + (seq!['{'] + (b + u) + seq!['}'])) + seq!['}']) + seq!['}'],
{
    assert(h + (m + (seq!['{'] + a + seq!['{'] + b)) + u + seq!['}'] + seq!['}', '}'] =~= h + m + (
    seq!['{'] + (a + (seq!['{'] + (b + u) + seq!['}'])) + seq!['}']) + seq!['}']);
}

proof fn lemma_save_text(
    h: Seq<char>,
    m: Seq<char>,
    a: Seq<char>,
    b: Seq<char>,
    u: Seq<char>,
    c: Seq<char>,
    t: Seq<char>,
)
    ensures
        h + (m + (seq!['{'] + a + seq!['{'] + b)) + u + seq!['}'] + (seq![','] + c) + t + seq!['}', '}']
            == h + m + (seq!['{'] + (a + (seq!['{'] + (b + u) + seq!['}']) + seq![','] + c + t) + seq![
            '}',
        ]) + seq!['}'],
{
    assert(h + (m + (seq!['{'] + a + seq!['{'] + b)) + u + seq!['}'] + (seq![','] + c) + t + seq![
        '}',
        '}',
    ] =~= h + m + (seq!['{'] + (a + (seq!['{'] + (b + u) + seq!['}']) + seq![','] + c + t) + seq![
        '}',
    ]) + seq!['}']);
}

proof fn lemma_joined_seven(parts: Seq<Seq<char>>)
    requires
        parts.len() == 7,
    ensures
        joined(parts) == parts[0] + parts[1] + parts[2] + parts[3] + parts[4] + parts[5] + parts[6],
{
    lemma_joined_five(parts.take(5));
    lemma_joined_push(parts.take(5), parts[5]);
    assert(parts.take(5).push(parts[5]) =~= parts.take(6));
    lemma_joined_push(parts.take(6), parts[6]);
    assert(parts.take(6).push(parts[6]) =~= parts);
}

proof fn lemma_joined_nine(parts: Seq<Seq<char>>)
    requires
        parts.len() == 9,
    ensures
        joined(parts) == parts[0] + parts[1] + parts[2] + parts[3] + parts[4] + parts[5] + parts[6]
            + parts[7] + parts[8],
{
    lemma_joined_seven(parts.take(7));
    lemma_joined_push(parts.take(7), parts[7]);
    assert(parts.take(7).push(parts[7]) =~= parts.take(8));
    lemma_joined_push(parts.take(8), parts[8]);
    assert(parts.take(8).push(parts[8]) =~= parts);
}

/// Cancelling is told by the number of the request.
pub proof fn law_cancelling_is_told(request_id: RequestId)
    ensures
        command_text(ClientCommand::CancelRequest { request_id }) == printed(
            Json::Table(
                seq![
                    ("jsonrpc"@, Json::Text("2.0"@)),
                    ("method"@, Json::Text("$/cancelRequest"@)),
                    (
                        "params"@,
                        Json::Table(seq![("id"@, Json::Number(decimal(request_id as nat)))]),
                    ),
                ],
            ),
        ),
{
    let number = decimal(request_id as nat);
    lemma_other_words();
    lemma_method_openings();
    lemma_first_member("id"@, Json::Number(number));
    lemma_notification("$/cancelRequest"@, Json::Table(seq![("id"@, Json::Number(number))]));
    let parts = command_parts(ClientCommand::CancelRequest { request_id });
    lemma_joined_four(parts);
    let method = "\"method\":"@ + quoted("$/cancelRequest"@) + ",\"params\":"@;
    assert(parts[0] + (method + (seq!['{'] + keyed("id"@))) + number + seq!['}', '}'] =~= parts[0]
        + method + (seq!['{'] + (keyed("id"@) + number) + seq!['}']) + seq!['}']);
}

proof fn lemma_request(id: Seq<char>, method: Seq<char>, params: Json)
    ensures
        printed(
            Json::Table(
                seq![
                    ("jsonrpc"@, Json::Text("2.0"@)),
                    ("id"@, Json::Number(id)),
                    ("method"@, Json::Text(method)),
                    ("params"@, params),
                ],
            ),
        ) == "{\"jsonrpc\":\"2.0\","@ + keyed("id"@) + id + (seq![','] + keyed("method"@)) + quoted(
            method,
        ) + (seq![','] + keyed("params"@)) + printed(params) + seq!['}'],
{
    let a = ("jsonrpc"@, Json::Text("2.0"@));
    let b = ("id"@, Json::Number(id));
    let c = ("method"@, Json::Text(method));
    let d = ("params"@, params);
    lemma_other_words();
    lemma_first_member(a.0, a.1);
    lemma_next_member(seq![a], b.0, b.1);
    lemma_next_member(seq![a].push(b), c.0, c.1);
    lemma_next_member(seq![a].push(b).push(c), d.0, d.1);
    assert(seq![a, b, c, d] =~= seq![a].push(b).push(c).push(d));
    lemma_request_parts(
        keyed("jsonrpc"@) + quoted("2.0"@),
        keyed("id"@),
        id,
        keyed("method"@),
        quoted(method),
        keyed("params"@),
        printed(params),
    );
}

proof fn lemma_request_parts(
    a: Seq<char>,
    b: Seq<char>,
    n: Seq<char>,
    c: Seq<char>,
    m: Seq<char>,
    d: Seq<char>,
    p: Seq<char>,
)
    ensures
        seq!['{'] + (a + seq![','] + b + n + seq![','] + c + m + seq![','] + d + p) + seq!['}'] == (
        seq!['{'] + a + seq![',']) + b + n + (seq![','] + c) + m + (seq![','] + d) + p + seq!['}'],
{
    assert(seq!['{'] + (a + seq![','] + b + n + seq![','] + c + m + seq![','] + d + p) + seq!['}']
        =~= (seq!['{'] + a + seq![',']) + b + n + (seq![','] + c) + m + (seq![','] + d) + p + seq![
        '}',
    ]);
}

/// A request is sent with its number, its method and its parameters, and the
/// shutdown request without any.
pub proof fn law_requests_are_sent(
    request_id: RequestId,
    operation: LspOperation,
    method: &'static str,
    scope: RequestScope,
    params: JsonValue,
)
    ensures
        command_text(
            ClientCommand::Request { request_id, operation, method, scope, params },
        ) == printed(
            Json::Table(
                seq![
                    ("jsonrpc"@, Json::Text("2.0"@)),
                    ("id"@, Json::Number(decimal(request_id as nat))),
                    ("method"@, Json::Text(method@)),
                    ("params"@, params@),
                ],
            ),
        ),
        command_text(ClientCommand::Shutdown { request_id }) == printed(
            Json::Table(
                seq![
                    ("jsonrpc"@, Json::Text("2.0"@)),
                    ("id"@, Json::Number(decimal(request_id as nat))),
                    ("method"@, Json::Text("shutdown"@)),
                    ("params"@, Json::Null),
                ],
            ),
        ),
{
    let number = decimal(request_id as nat);
    lemma_other_words();
    lemma_method_openings();
    lemma_request(number, method@, params@);
    lemma_request(number, "shutdown"@, Json::Null);
    let parts = command_parts(
        ClientCommand::Request { request_id, operation, method, scope, params },
    );
    lemma_joined_seven(parts.take(7));
    lemma_joined_push(parts.take(7), parts[7]);
    assert(parts.take(7).push(parts[7]) =~= parts);
    let last = command_parts(ClientCommand::Shutdown { request_id });
    lemma_joined_four(last);
    let front = last[0] + keyed("id"@) + number;
    assert(front + (seq![','] + keyed("method"@) + quoted("shutdown"@) + (seq![','] + keyed(
        "params"@,
    )) + "null"@ + seq!['}']) =~= front + (seq![','] + keyed("method"@)) + quoted("shutdown"@) + (
    seq![','] + keyed("params"@)) + "null"@ + seq!['}']);
}

/// A change of a document is told by its URI and its new version, with the whole
/// new text.
pub proof fn law_changing_is_told(uri: String, version: DocumentVersion, text: String)
    ensures
        command_text(ClientCommand::DidChange { uri, version, previous_end: None, text }) == printed(
            Json::Table(
                seq![
                    ("jsonrpc"@, Json::Text("2.0"@)),
                    ("method"@, Json::Text("textDocument/didChange"@)),
                    (
                        "params"@,
                        Json::Table(
                            seq![
                                (
                                    "textDocument"@,
                                    Json::Table(
                                        seq![
                                            ("uri"@, Json::Text(uri@)),
                                            (
                                                "version"@,
                                                Json::Number(decimal(version.number as nat)),
                                            ),
                                        ],
                                    ),
                                ),
                                (
                                    "contentChanges"@,
                                    Json::List(
                                        seq![Json::Table(seq![("text"@, Json::Text(text@))])],
                                    ),
                                ),
                            ],
                        ),
                    ),
                ],
            ),
        ),
{
    let number = decimal(version.number as nat);
    let a = ("uri"@, Json::Text(uri@));
    let b = ("version"@, Json::Number(number));
    let document = Json::Table(seq![a, b]);
    let change = Json::Table(seq![("text"@, Json::Text(text@))]);
    let changes = Json::List(seq![change]);
    let c = ("textDocument"@, document);
    let d = ("contentChanges"@, changes);
    lemma_other_words();
    lemma_method_openings();
    lemma_first_member(a.0, a.1);
    lemma_next_member(seq![a], b.0, b.1);
    assert(seq![a, b] =~= seq![a].push(b));
    lemma_first_member("text"@, Json::Text(text@));
    lemma_one_item(change);
    lemma_first_member(c.0, c.1);
    lemma_next_member(seq![c], d.0, d.1);
    assert(seq![c, d] =~= seq![c].push(d));
    lemma_notification("textDocument/didChange"@, Json::Table(seq![c, d]));
    let parts = command_parts(ClientCommand::DidChange { uri, version, previous_end: None, text });
    lemma_joined_nine(parts);
    let method = "\"method\":"@ + quoted("textDocument/didChange"@) + ",\"params\":"@;
    lemma_change(
        parts[0],
        method,
        keyed("textDocument"@),
        keyed("uri"@),
        quoted(uri@),
        keyed("version"@),
        number,
        keyed("contentChanges"@),
        keyed("text"@),
        quoted(text@),
    );
}

proof fn lemma_one_item(item: Json)
    ensures
        printed(Json::List(seq![item])) == seq!['['] + printed(item) + seq![']'],
{
    let list = seq![item];
    reveal_with_fuel(crate::json_write::printed_items, 2);
    assert(list.drop_last() =~= Seq::<Json>::empty());
    assert(list.last() == item);
    assert(crate::json_write::printed_items(list) =~= printed(item));
}

proof fn lemma_change(
    h: Seq<char>,
    m: Seq<char>,
    a: Seq<char>,
    b: Seq<char>,
    u: Seq<char>,
    c: Seq<char>,
    n: Seq<char>,
    d: Seq<char>,
    e: Seq<char>,
    t: Seq<char>,
)
    ensures
        h + (m + (seq!['{'] + a + seq!['{'] + b)) + u + (seq![','] + c) + n + (seq!['}', ','] + d + seq![
            '[',
            '{',
        ]) + e + t + seq!['}', ']', '}', '}'] == h + m + (seq!['{'] + (a + (seq!['{'] + (b + u + seq![
            ',',
        ] + c + n) + seq!['}']) + seq![','] + d + (seq!['['] + (seq!['{'] + (e + t) + seq!['}'])
            + seq![']'])) + seq!['}']) + seq!['}'],
{
    assert(h + (m + (seq!['{'] + a + seq!['{'] + b)) + u + (seq![','] + c) + n + (seq!['}', ','] + d
        + seq!['[', '{']) + e + t + seq!['}', ']', '}', '}'] =~= h + m + (seq!['{'] + (a + (seq![
        '{',
    ] + (b + u + seq![','] + c + n) + seq!['}']) + seq![','] + d + (seq!['['] + (seq!['{'] + (e + t)
        + seq!['}']) + seq![']'])) + seq!['}']) + seq!['}']);
}

/// A change that names what it replaces is told like one that does not, with one
/// more member before the text: the range from the start of the document to the
/// end of what it held.
pub proof fn law_ranged_change_is_told(
    uri: String,
    version: DocumentVersion,
    end: LspPosition,
    text: String,
) -> (front: Seq<char>)
    ensures
        ({
            let whole = ClientCommand::DidChange { uri, version, previous_end: None, text };
            let ranged = ClientCommand::DidChange { uri, version, previous_end: Some(end), text };
            let back = "\"text\":"@ + quoted(text@) + "}]}}"@;
            let range = Json::Table(
                seq![
                    ("start"@, place(decimal(0), decimal(0))),
                    (
                        "end"@,
                        place(
                            decimal(end.line.index as nat),
                            decimal(end.character.units as nat),
                        ),
                    ),
                ],
            );
            &&& command_text(whole) == front + back
            &&& command_text(ranged) == front + (printed_members(seq![("range"@, range)])
                + seq![',']) + back
        }),
{
    let whole = command_parts(ClientCommand::DidChange { uri, version, previous_end: None, text });
    let ranged = command_parts(
        ClientCommand::DidChange { uri, version, previous_end: Some(end), text },
    );
    let head = whole.take(6);
    let tail = whole.skip(6);
    let middle = ranged.subrange(6, 11);
    assert(whole =~= head + tail);
    assert(ranged =~= head + middle + tail);
    lemma_joined_add(head, tail);
    lemma_joined_add(head, middle);
    lemma_joined_add(head + middle, tail);
    lemma_joined_three(tail);
    lemma_joined_five(middle);
    lemma_range_text(decimal(end.line.index as nat), decimal(end.character.units as nat));
    joined(head)
}

/// A position as an object.
pub open spec fn place(line: Seq<char>, character: Seq<char>) -> Json {
    Json::Table(seq![("line"@, Json::Number(line)), ("character"@, Json::Number(character))])
}

proof fn lemma_joined_add(a: Seq<Seq<char>>, b: Seq<Seq<char>>)
    ensures
        joined(a + b) == joined(a) + joined(b),
    decreases b.len(),
{
    if b.len() == 0 {
        assert(a + b =~= a);
        assert(joined(a) + joined(b) =~= joined(a));
    } else {
        lemma_joined_add(a, b.drop_last());
        assert((a + b).drop_last() =~= a + b.drop_last());
        assert((a + b).last() == b.last());
        assert(joined(a) + joined(b.drop_last()) + b.last() =~= joined(a) + (joined(b.drop_last())
            + b.last()));
    }
}

proof fn lemma_joined_three(parts: Seq<Seq<char>>)
    requires
        parts.len() == 3,
    ensures
        joined(parts) == parts[0] + parts[1] + parts[2],
{
    reveal_with_fuel(joined, 4);
    let none = Seq::<Seq<char>>::empty();
    assert(parts.drop_last().drop_last().drop_last() =~= none);
    assert(joined(none) =~= Seq::<char>::empty());
    assert(joined(parts) =~= parts[0] + parts[1] + parts[2]);
}

proof fn lemma_place(line: Seq<char>, character: Seq<char>)
    requires
        plain("line"@),
        plain("character"@),
    ensures
        printed(place(line, character)) == seq!['{'] + keyed("line"@) + line + seq![',']
            + keyed("character"@) + character + seq!['}'],
{
    let a = ("line"@, Json::Number(line));
    let b = ("character"@, Json::Number(character));
    lemma_first_member(a.0, a.1);
    lemma_next_member(seq![a], b.0, b.1);
    assert(seq![a, b] =~= seq![a].push(b));
    assert(printed(place(line, character)) =~= seq!['{'] + keyed("line"@) + line + seq![',']
        + keyed("character"@) + character + seq!['}']);
}

proof fn lemma_range_text(line: Seq<char>, character: Seq<char>)
    ensures
        printed_members(
            seq![
                (
                    "range"@,
                    Json::Table(
                        seq![
                            ("start"@, place(decimal(0), decimal(0))),
                            ("end"@, place(line, character)),
                        ],
                    ),
                ),
            ],
        ) + seq![','] == "\"range\":{\"start\":{\"line\":0,\"character\":0},\"end\":{\"line\":"@ + line
            + ",\"character\":"@ + character + "}},"@,
{
    reveal_strlit("range");
    reveal_strlit("start");
    reveal_strlit("end");
    reveal_strlit("line");
    reveal_strlit("character");
    crate::text::lemma_decimal(0);
    let zero = decimal(0);
    let origin = place(zero, zero);
    let last = place(line, character);
    lemma_place(zero, zero);
    lemma_place(line, character);
    let a = ("start"@, origin);
    let b = ("end"@, last);
    let range = Json::Table(seq![a, b]);
    lemma_first_member(a.0, a.1);
    lemma_next_member(seq![a], b.0, b.1);
    assert(seq![a, b] =~= seq![a].push(b));
    lemma_first_member("range"@, range);
    lemma_range_opening();
    lemma_range_closing();
    lemma_range_parts(
        keyed("range"@),
        keyed("start"@),
        keyed("end"@),
        keyed("line"@),
        keyed("character"@),
        line,
        character,
    );
}

proof fn lemma_range_parts(
    r: Seq<char>,
    s: Seq<char>,
    e: Seq<char>,
    l: Seq<char>,
    c: Seq<char>,
    line: Seq<char>,
    character: Seq<char>,
)
    ensures
        ({
            let origin = seq!['{'] + l + seq!['0'] + seq![','] + c + seq!['0'] + seq!['}'];
            let last = seq!['{'] + l + line + seq![','] + c + character + seq!['}'];
            r + (seq!['{'] + (s + origin + seq![','] + e + last) + seq!['}']) + seq![','] == (r
                + seq!['{'] + s + seq!['{'] + l + seq!['0', ','] + c + seq!['0', '}', ','] + e
                + seq!['{'] + l) + line + (seq![','] + c) + character + seq!['}', '}', ',']
        }),
{
    let origin = seq!['{'] + l + seq!['0'] + seq![','] + c + seq!['0'] + seq!['}'];
    let last = seq!['{'] + l + line + seq![','] + c + character + seq!['}'];
    let opening = r + seq!['{'] + s + seq!['{'] + l + seq!['0', ','] + c + seq!['0', '}', ','] + e
        + seq!['{'] + l;
    assert(s + origin + seq![','] + e =~= s + seq!['{'] + l + seq!['0', ','] + c + seq![
        '0',
        '}',
        ',',
    ] + e);
    let before = s + origin + seq![','] + e;
    assert(opening =~= r + seq!['{'] + before + seq!['{'] + l);
    assert(r + (seq!['{'] + (before + last) + seq!['}']) + seq![','] =~= (r + seq!['{'] + before
        + seq!['{'] + l) + line + (seq![','] + c) + character + seq!['}', '}', ',']);
}

proof fn lemma_range_opening()
    ensures
        "\"range\":{\"start\":{\"line\":0,\"character\":0},\"end\":{\"line\":"@ == keyed("range"@)
            + seq!['{'] + keyed("start"@) + seq!['{'] + keyed("line"@) + seq!['0', ','] + keyed(
            "character"@,
        ) + seq!['0', '}', ','] + keyed("end"@) + seq!['{'] + keyed("line"@),
{
    reveal_strlit("range");
    reveal_strlit("start");
    reveal_strlit("end");
    reveal_strlit("line");
    reveal_strlit("character");
    reveal_strlit("\"range\":{\"start\":{\"line\":0,\"character\":0},\"end\":{\"line\":");
    assert("\"range\":{\"start\":{\"line\":0,\"character\":0},\"end\":{\"line\":"@ =~= keyed("range"@)
        + seq!['{'] + keyed("start"@) + seq!['{'] + keyed("line"@) + seq!['0', ','] + keyed(
        "character"@,
    ) + seq!['0', '}', ','] + keyed("end"@) + seq!['{'] + keyed("line"@));
}

proof fn lemma_range_closing()
    ensures
        ",\"character\":"@ == seq![','] + keyed("character"@),
        "}},"@ == seq!['}', '}', ','],
{
    reveal_strlit("character");
    reveal_strlit(",\"character\":");
    reveal_strlit("}},");
    assert(",\"character\":"@ =~= seq![','] + keyed("character"@));
    assert("}},"@ =~= seq!['}', '}', ',']);
}

/// A message is read once it is there as a whole. A header beyond its limit, an
/// announced length beyond its limit, a header without a length and bytes that
/// are not UTF-8 are refused.
pub proof fn law_frames_are_limited(
    bytes: Seq<u8>,
    end: int,
    length: u64,
    max_header: usize,
    max_message: usize,
)
    ensures
        ({
            let read = framed(bytes, max_header, max_message);
            let announced = content_length(bytes.take(end), 0);
            let headed = header_end(bytes, 0) == Some(end) && end <= max_header;
            let sized = headed && announced == Ok::<Option<u64>, ()>(Some(length));
            let fits = sized && length <= max_message;
            let whole = fits && end + 4 + length <= bytes.len();
            let body = bytes.subrange(end + 4, end + 4 + length);
            &&& header_end(bytes, 0) is None && bytes.len() <= max_header ==> read == Framed::More
            &&& header_end(bytes, 0) is None && bytes.len() > max_header ==> read == Framed::Failed(
                FrameError::HeaderTooLarge,
            )
            &&& header_end(bytes, 0) == Some(end) && end > max_header ==> read == Framed::Failed(
                FrameError::HeaderTooLarge,
            )
            &&& headed && announced is Err ==> read == Framed::Failed(FrameError::InvalidHeader)
            &&& headed && announced == Ok::<Option<u64>, ()>(None) ==> read == Framed::Failed(
                FrameError::MissingContentLength,
            )
            &&& sized && length > max_message ==> read == Framed::Failed(
                FrameError::MessageTooLarge,
            )
            &&& fits && bytes.len() < end + 4 + length ==> read == Framed::More
            &&& whole && !valid_utf8(body) ==> read == Framed::Failed(FrameError::InvalidUtf8)
            &&& whole && valid_utf8(body) ==> read == Framed::Message(
                decode_utf8(body),
                bytes.skip(end + 4 + length),
            )
        }),
{
}

} // verus!
