//! The canonical text of JSON values, and writers that can be bounded.
use vstd::prelude::*;

use crate::json::{
    json_of, lemma_list_of, lemma_members, list_of, Json, JsonObject, JsonValue, MAX_JSON_DEPTH,
};
use crate::text::{
    byte_len, chars_of, lemma_utf8_len_add, lemma_utf8_len_push, utf8_len, width_of,
};

verus! {

/// The lower-case hexadecimal digit of a value below sixteen.
pub open spec fn hex_char(d: int) -> char {
    if d < 10 {
        (48 + d) as char
    } else {
        (87 + d) as char
    }
}

/// How one scalar value is written inside a JSON string.
pub open spec fn escaped(c: char) -> Seq<char> {
    if c == '"' {
        seq!['\\', '"']
    } else if c == '\\' {
        seq!['\\', '\\']
    } else if c == '\u{08}' {
        seq!['\\', 'b']
    } else if c == '\u{0c}' {
        seq!['\\', 'f']
    } else if c == '\n' {
        seq!['\\', 'n']
    } else if c == '\r' {
        seq!['\\', 'r']
    } else if c == '\t' {
        seq!['\\', 't']
    } else if c <= '\u{1f}' {
        seq!['\\', 'u', '0', '0', hex_char(c as int / 16), hex_char(c as int % 16)]
    } else {
        seq![c]
    }
}

/// How a text is written inside a JSON string.
pub open spec fn escaped_text(s: Seq<char>) -> Seq<char>
    decreases s.len(),
{
    if s.len() == 0 {
        Seq::empty()
    } else {
        escaped_text(s.drop_last()) + escaped(s.last())
    }
}

/// The JSON string for a text.
pub open spec fn quoted(s: Seq<char>) -> Seq<char> {
    seq!['"'] + escaped_text(s) + seq!['"']
}

/// The canonical text of a value: no white space, members in key order.
pub open spec fn printed(value: Json) -> Seq<char>
    decreases value,
{
    match value {
        Json::Null => "null"@,
        Json::Bool(b) => if b {
            "true"@
        } else {
            "false"@
        },
        Json::Number(text) => text,
        Json::Text(s) => quoted(s),
        Json::List(items) => seq!['['] + printed_items(items) + seq![']'],
        Json::Table(members) => seq!['{'] + printed_members(members) + seq!['}'],
    }
}

/// The items of an array, separated by commas.
pub open spec fn printed_items(items: Seq<Json>) -> Seq<char>
    decreases items,
{
    if items.len() == 0 {
        Seq::empty()
    } else {
        separated(printed_items(items.drop_last()), items.len() > 1) + printed(items.last())
    }
}

/// One member of an object.
pub open spec fn printed_member(member: (Seq<char>, Json)) -> Seq<char>
    decreases member,
{
    quoted(member.0) + seq![':'] + printed(member.1)
}

/// The members of an object, separated by commas.
pub open spec fn printed_members(members: Seq<(Seq<char>, Json)>) -> Seq<char>
    decreases members,
{
    if members.len() == 0 {
        Seq::empty()
    } else {
        separated(printed_members(members.drop_last()), members.len() > 1) + printed_member(
            members.last(),
        )
    }
}

/// `text`, and a comma after it where more follows.
pub open spec fn separated(text: Seq<char>, comma: bool) -> Seq<char> {
    if comma {
        text + seq![',']
    } else {
        text
    }
}

/// How many levels of arrays and objects stand around the deepest value.
pub open spec fn height(value: Json) -> nat
    decreases value,
{
    match value {
        Json::List(items) => items_height(items),
        Json::Table(members) => members_height(members),
        _ => 0,
    }
}

/// The height of an array with these items.
pub open spec fn items_height(items: Seq<Json>) -> nat
    decreases items,
{
    if items.len() == 0 {
        0
    } else {
        let below = height(items.last()) + 1;
        let rest = items_height(items.drop_last());
        if rest > below {
            rest
        } else {
            below
        }
    }
}

/// The height of an object with these members.
pub open spec fn members_height(members: Seq<(Seq<char>, Json)>) -> nat
    decreases members,
{
    if members.len() == 0 {
        0
    } else {
        let below = member_height(members.last()) + 1;
        let rest = members_height(members.drop_last());
        if rest > below {
            rest
        } else {
            below
        }
    }
}

/// The height of the value of one member.
pub open spec fn member_height(member: (Seq<char>, Json)) -> nat
    decreases member,
{
    height(member.1)
}

/// Whether a text stays within an optional byte limit.
pub open spec fn fits(limit: Option<nat>, text: Seq<char>) -> bool {
    match limit {
        Some(max) => utf8_len(text) <= max,
        None => true,
    }
}

/// A text that does not fit still does not fit when more follows.
proof fn lemma_overflow_stays(limit: Option<nat>, text: Seq<char>, more: Seq<char>)
    ensures
        !fits(limit, text) ==> !fits(limit, text + more),
        fits(limit, text + more) ==> fits(limit, text),
{
    lemma_utf8_len_add(text, more);
}

/// Where JSON text goes.
pub trait JsonOutput {
    /// What has been written.
    spec fn written(&self) -> Seq<char>;

    /// How many bytes may be written in all.
    spec fn limit(&self) -> Option<nat>;

    /// Whether the output is consistent.
    spec fn valid(&self) -> bool;

    /// Writes a text, unless that would exceed the limit.
    fn put_text(&mut self, value: &str) -> (done: Result<(), ()>)
        requires
            old(self).valid(),
        ensures
            final(self).valid(),
            final(self).limit() == old(self).limit(),
            done is Ok <==> fits(old(self).limit(), old(self).written() + value@),
            done is Ok ==> final(self).written() == old(self).written() + value@,
    ;

    /// Writes one scalar value, unless that would exceed the limit.
    fn put_char(&mut self, value: char) -> (done: Result<(), ()>)
        requires
            old(self).valid(),
        ensures
            final(self).valid(),
            final(self).limit() == old(self).limit(),
            done is Ok <==> fits(old(self).limit(), old(self).written().push(value)),
            done is Ok ==> final(self).written() == old(self).written().push(value),
    ;
}

/// A text that grows without a limit.
pub struct JsonText {
    pub text: String,
}

impl JsonOutput for JsonText {
    open spec fn written(&self) -> Seq<char> {
        self.text@
    }

    open spec fn limit(&self) -> Option<nat> {
        None
    }

    open spec fn valid(&self) -> bool {
        true
    }

    fn put_text(&mut self, value: &str) -> (done: Result<(), ()>) {
        self.text.push_str(value);
        Ok(())
    }

    fn put_char(&mut self, value: char) -> (done: Result<(), ()>) {
        self.text.push(value);
        Ok(())
    }
}

/// Counts the bytes that a text would take, up to a limit.
pub struct BoundedJsonLength {
    bytes: usize,
    max: usize,
    text: Ghost<Seq<char>>,
}

impl BoundedJsonLength {
    /// Counts from zero.
    pub fn new(max: usize) -> (length: Self)
        ensures
            length.valid(),
            length.written() == Seq::<char>::empty(),
            length.limit() == Some(max as nat),
    {
        BoundedJsonLength { bytes: 0, max, text: Ghost(Seq::empty()) }
    }

    /// The bytes counted so far.
    pub fn bytes(&self) -> (n: usize)
        requires
            self.valid(),
        ensures
            n == utf8_len(self.written()),
    {
        self.bytes
    }

    /// Counts `bytes` more, which encode `more`.
    fn count(&mut self, bytes: usize, more: Ghost<Seq<char>>) -> (done: Result<(), ()>)
        requires
            old(self).valid(),
            bytes == utf8_len(more@),
        ensures
            final(self).valid(),
            final(self).limit() == old(self).limit(),
            done is Ok <==> fits(old(self).limit(), old(self).written() + more@),
            done is Ok ==> final(self).written() == old(self).written() + more@,
    {
        proof {
            lemma_utf8_len_add(self.text@, more@);
        }
        let next = match self.bytes.checked_add(bytes) {
            Some(next) => next,
            None => {
                return Err(());
            },
        };
        if next > self.max {
            return Err(());
        }
        self.bytes = next;
        self.text = Ghost(self.text@ + more@);
        Ok(())
    }
}

impl JsonOutput for BoundedJsonLength {
    closed spec fn written(&self) -> Seq<char> {
        self.text@
    }

    closed spec fn limit(&self) -> Option<nat> {
        Some(self.max as nat)
    }

    closed spec fn valid(&self) -> bool {
        self.bytes == utf8_len(self.text@) && self.bytes <= self.max
    }

    fn put_text(&mut self, value: &str) -> (done: Result<(), ()>) {
        self.count(byte_len(value), Ghost(value@))
    }

    fn put_char(&mut self, value: char) -> (done: Result<(), ()>) {
        proof {
            lemma_utf8_len_push(Seq::empty(), value);
            assert(Seq::<char>::empty().push(value) =~= seq![value]);
            assert(self.text@ + seq![value] =~= self.text@.push(value));
        }
        let ghost more = Seq::<char>::empty().push(value);
        self.count(width_of(value), Ghost(more))
    }
}

/// The hexadecimal digit of a value below sixteen.
fn hex_digit(d: u32) -> (c: char)
    requires
        d < 16,
    ensures
        c == hex_char(d as int),
{
    if d < 10 {
        (48 + d as u8) as char
    } else {
        (87 + d as u8) as char
    }
}

/// Writes one scalar value of a JSON string.
fn write_escaped<O: JsonOutput>(output: &mut O, c: char) -> (done: Result<(), ()>)
    requires
        old(output).valid(),
    ensures
        final(output).valid(),
        final(output).limit() == old(output).limit(),
        done is Ok <==> fits(old(output).limit(), old(output).written() + escaped(c)),
        done is Ok ==> final(output).written() == old(output).written() + escaped(c),
{
    let ghost before = output.written();
    let ghost limit = output.limit();
    proof {
        reveal_strlit("\\\"");
        reveal_strlit("\\\\");
        reveal_strlit("\\b");
        reveal_strlit("\\f");
        reveal_strlit("\\n");
        reveal_strlit("\\r");
        reveal_strlit("\\t");
        reveal_strlit("\\u00");
        assert("\\\""@ =~= seq!['\\', '"']);
        assert("\\\\"@ =~= seq!['\\', '\\']);
        assert("\\b"@ =~= seq!['\\', 'b']);
        assert("\\f"@ =~= seq!['\\', 'f']);
        assert("\\n"@ =~= seq!['\\', 'n']);
        assert("\\r"@ =~= seq!['\\', 'r']);
        assert("\\t"@ =~= seq!['\\', 't']);
        assert("\\u00"@ =~= seq!['\\', 'u', '0', '0']);
    }
    if c == '"' {
        output.put_text("\\\"")
    } else if c == '\\' {
        output.put_text("\\\\")
    } else if c == '\u{08}' {
        output.put_text("\\b")
    } else if c == '\u{0c}' {
        output.put_text("\\f")
    } else if c == '\n' {
        output.put_text("\\n")
    } else if c == '\r' {
        output.put_text("\\r")
    } else if c == '\t' {
        output.put_text("\\t")
    } else if c <= '\u{1f}' {
        let value: u32 = c as u32;
        proof {
            let first = hex_char(c as int / 16);
            let second = hex_char(c as int % 16);
            let start = before + "\\u00"@;
            assert(before + escaped(c) =~= start + seq![first, second]);
            assert(before + escaped(c) =~= start.push(first) + seq![second]);
            assert(before + escaped(c) =~= start.push(first).push(second));
            lemma_overflow_stays(limit, start, seq![first, second]);
            lemma_overflow_stays(limit, start.push(first), seq![second]);
        }
        match output.put_text("\\u00") {
            Ok(()) => {},
            Err(()) => {
                return Err(());
            },
        }
        match output.put_char(hex_digit(value / 16)) {
            Ok(()) => {},
            Err(()) => {
                return Err(());
            },
        }
        output.put_char(hex_digit(value % 16))
    } else {
        assert(before.push(c) =~= before + escaped(c));
        output.put_char(c)
    }
}

/// Escaping goes scalar value by scalar value.
pub proof fn lemma_escaped_prefix(s: Seq<char>, i: int)
    requires
        0 <= i < s.len(),
    ensures
        escaped_text(s.take(i + 1)) == escaped_text(s.take(i)) + escaped(s[i]),
{
    assert(s.take(i + 1).drop_last() =~= s.take(i));
    assert(s.take(i + 1).last() == s[i]);
}

/// The escaped form of a prefix is a prefix of the escaped form.
pub proof fn lemma_escaped_split(s: Seq<char>, i: int) -> (rest: Seq<char>)
    requires
        0 <= i <= s.len(),
    ensures
        escaped_text(s) == escaped_text(s.take(i)) + rest,
    decreases s.len() - i,
{
    if i == s.len() {
        assert(s.take(i) =~= s);
        assert(escaped_text(s) =~= escaped_text(s.take(i)) + Seq::<char>::empty());
        Seq::empty()
    } else {
        let tail = lemma_escaped_split(s, i + 1);
        lemma_escaped_prefix(s, i);
        assert(escaped_text(s) =~= escaped_text(s.take(i)) + (escaped(s[i]) + tail));
        escaped(s[i]) + tail
    }
}

/// Writes a text as a JSON string.
pub fn write_json_string_to<O: JsonOutput>(output: &mut O, value: &str) -> (done: Result<(), ()>)
    requires
        old(output).valid(),
    ensures
        final(output).valid(),
        final(output).limit() == old(output).limit(),
        done is Ok <==> fits(old(output).limit(), old(output).written() + quoted(value@)),
        done is Ok ==> final(output).written() == old(output).written() + quoted(value@),
{
    let ghost before = output.written();
    let ghost limit = output.limit();
    let ghost text = value@;
    proof {
        assert(before + quoted(text) =~= before.push('"') + (escaped_text(text) + seq!['"']));
        lemma_overflow_stays(limit, before.push('"'), escaped_text(text) + seq!['"']);
    }
    match output.put_char('"') {
        Ok(()) => {},
        Err(()) => {
            return Err(());
        },
    }
    let chars = chars_of(value);
    let mut i: usize = 0;
    proof {
        assert(text.take(0) =~= Seq::<char>::empty());
        assert(before.push('"') =~= before.push('"') + escaped_text(text.take(0)));
    }
    while i < chars.len()
        invariant
            i <= chars@.len(),
            chars@ == text,
            output.valid(),
            output.limit() == limit,
            output.written() == before.push('"') + escaped_text(text.take(i as int)),
            limit == old(output).limit(),
            before == old(output).written(),
            text == value@,
        decreases chars@.len() - i,
    {
        proof {
            lemma_escaped_prefix(text, i as int);
            let rest = lemma_escaped_split(text, i + 1);
            let next = before.push('"') + escaped_text(text.take(i + 1));
            assert(output.written() + escaped(text[i as int]) =~= next);
            assert(before + quoted(text) =~= next + (rest + seq!['"']));
            lemma_overflow_stays(limit, next, rest + seq!['"']);
        }
        match write_escaped(output, chars[i]) {
            Ok(()) => {},
            Err(()) => {
                return Err(());
            },
        }
        i += 1;
    }
    proof {
        assert(text.take(i as int) =~= text);
        assert(before + quoted(text) =~= output.written().push('"'));
    }
    output.put_char('"')
}

/// Items are printed one after the other.
pub proof fn lemma_items_step(items: Seq<Json>, i: int)
    requires
        0 <= i < items.len(),
    ensures
        printed_items(items.take(i + 1)) == separated(printed_items(items.take(i)), i > 0)
            + printed(items[i]),
        items_height(items.take(i + 1)) == (if items_height(items.take(i)) > height(items[i]) + 1 {
            items_height(items.take(i))
        } else {
            height(items[i]) + 1
        }),
{
    assert(items.take(i + 1).drop_last() =~= items.take(i));
    assert(items.take(i + 1).last() == items[i]);
}

/// What the first items print and how high they stand is part of the whole.
pub proof fn lemma_items_split(items: Seq<Json>, i: int) -> (rest: Seq<char>)
    requires
        0 <= i <= items.len(),
    ensures
        printed_items(items) == printed_items(items.take(i)) + rest,
        i > 0 && i < items.len() ==> rest.len() > 0 && rest[0] == ',',
        items_height(items) >= items_height(items.take(i)),
    decreases items.len() - i,
{
    if i == items.len() {
        assert(items.take(i) =~= items);
        assert(printed_items(items) =~= printed_items(items.take(i)) + Seq::<char>::empty());
        Seq::empty()
    } else {
        let tail = lemma_items_split(items, i + 1);
        lemma_items_step(items, i);
        let head = separated(Seq::<char>::empty(), i > 0);
        assert(separated(printed_items(items.take(i)), i > 0) =~= printed_items(items.take(i))
            + head);
        let rest = head + printed(items[i]) + tail;
        assert(printed_items(items) =~= printed_items(items.take(i)) + rest);
        rest
    }
}

/// Members are printed one after the other.
pub proof fn lemma_members_step(members: Seq<(Seq<char>, Json)>, i: int)
    requires
        0 <= i < members.len(),
    ensures
        printed_members(members.take(i + 1)) == separated(printed_members(members.take(i)), i > 0)
            + printed_member(members[i]),
        printed_member(members[i]) == quoted(members[i].0) + seq![':'] + printed(members[i].1),
        members_height(members.take(i + 1)) == (if members_height(members.take(i)) > height(
            members[i].1,
        ) + 1 {
            members_height(members.take(i))
        } else {
            height(members[i].1) + 1
        }),
{
    assert(members.take(i + 1).drop_last() =~= members.take(i));
    assert(members.take(i + 1).last() == members[i]);
    assert(member_height(members[i]) == height(members[i].1));
}

/// What the first members print and how high they stand is part of the whole.
pub proof fn lemma_members_split(members: Seq<(Seq<char>, Json)>, i: int) -> (rest: Seq<char>)
    requires
        0 <= i <= members.len(),
    ensures
        printed_members(members) == printed_members(members.take(i)) + rest,
        i > 0 && i < members.len() ==> rest.len() > 0 && rest[0] == ',',
        members_height(members) >= members_height(members.take(i)),
    decreases members.len() - i,
{
    if i == members.len() {
        assert(members.take(i) =~= members);
        assert(printed_members(members) =~= printed_members(members.take(i))
            + Seq::<char>::empty());
        Seq::empty()
    } else {
        let tail = lemma_members_split(members, i + 1);
        lemma_members_step(members, i);
        let head = separated(Seq::<char>::empty(), i > 0);
        assert(separated(printed_members(members.take(i)), i > 0) =~= printed_members(
            members.take(i),
        ) + head);
        let rest = head + printed_member(members[i]) + tail;
        assert(printed_members(members) =~= printed_members(members.take(i)) + rest);
        rest
    }
}

/// Writes a value that stands at level `depth`.
fn write_json_value_to_depth<O: JsonOutput>(
    output: &mut O,
    value: &JsonValue,
    depth: usize,
) -> (done: Result<(), ()>)
    requires
        old(output).valid(),
        depth <= MAX_JSON_DEPTH + 1,
    ensures
        final(output).valid(),
        final(output).limit() == old(output).limit(),
        done is Ok <==> height(value@) + depth <= MAX_JSON_DEPTH && fits(
            old(output).limit(),
            old(output).written() + printed(value@),
        ),
        done is Ok ==> final(output).written() == old(output).written() + printed(value@),
    decreases value,
{
    if depth > MAX_JSON_DEPTH {
        return Err(());
    }
    match value {
        JsonValue::Null => output.put_text("null"),
        JsonValue::Bool(flag) => {
            if *flag {
                output.put_text("true")
            } else {
                output.put_text("false")
            }
        },
        JsonValue::Number(number) => output.put_text(number.as_str()),
        JsonValue::String(text) => write_json_string_to(output, text.as_str()),
        JsonValue::Array(items) => write_items(output, items, depth),
        JsonValue::Object(object) => write_members(output, object, depth),
    }
}

/// Writes an array that stands at level `depth`.
fn write_items<O: JsonOutput>(output: &mut O, items: &Vec<JsonValue>, depth: usize) -> (done:
    Result<(), ()>)
    requires
        old(output).valid(),
        depth <= MAX_JSON_DEPTH,
    ensures
        final(output).valid(),
        final(output).limit() == old(output).limit(),
        done is Ok <==> items_height(list_of(items@)) + depth <= MAX_JSON_DEPTH && fits(
            old(output).limit(),
            old(output).written() + printed(Json::List(list_of(items@))),
        ),
        done is Ok ==> final(output).written() == old(output).written() + printed(
            Json::List(list_of(items@)),
        ),
    decreases items,
{
    let ghost before = output.written();
    let ghost limit = output.limit();
    let ghost list = list_of(items@);
    let ghost total = before + printed(Json::List(list));
    let ghost start = before.push('[');
    proof {
        lemma_list_of(items@);
        assert(total =~= start + (printed_items(list) + seq![']']));
        lemma_overflow_stays(limit, start, printed_items(list) + seq![']']);
    }
    match output.put_char('[') {
        Ok(()) => {},
        Err(()) => {
            return Err(());
        },
    }
    let mut i: usize = 0;
    proof {
        assert(list.take(0) =~= Seq::<Json>::empty());
        assert(start =~= start + printed_items(list.take(0)));
    }
    while i < items.len()
        invariant
            i <= items@.len() == list.len(),
            depth <= MAX_JSON_DEPTH,
            list == list_of(items@),
            forall|k: int| 0 <= k < items@.len() ==> #[trigger] list[k] == json_of(items@[k]),
            total == start + printed_items(list) + seq![']'],
            total == old(output).written() + printed(Json::List(list)),
            limit == old(output).limit(),
            output.valid(),
            output.limit() == limit,
            output.written() == start + printed_items(list.take(i as int)),
            items_height(list.take(i as int)) + depth <= MAX_JSON_DEPTH,
        decreases items@.len() - i,
    {
        let ghost here = output.written();
        let ghost gap = separated(here, i > 0);
        proof {
            lemma_items_step(list, i as int);
            let rest = lemma_items_split(list, i as int);
            let tail = lemma_items_split(list, i + 1);
            assert(separated(start + printed_items(list.take(i as int)), i > 0) =~= start
                + separated(printed_items(list.take(i as int)), i > 0));
            assert(gap + printed(list[i as int]) =~= start + printed_items(list.take(i + 1)));
            assert(total =~= (gap + printed(list[i as int])) + (tail + seq![']']));
            lemma_overflow_stays(limit, gap + printed(list[i as int]), tail + seq![']']);
            lemma_overflow_stays(limit, gap, printed(list[i as int]));
            if i > 0 {
                assert(gap =~= here.push(','));
            }
            assert(list[i as int] == json_of(items@[i as int]));
        }
        if i != 0 {
            match output.put_char(',') {
                Ok(()) => {},
                Err(()) => {
                    return Err(());
                },
            }
        }
        match write_json_value_to_depth(output, &items[i], depth + 1) {
            Ok(()) => {},
            Err(()) => {
                return Err(());
            },
        }
        i += 1;
    }
    proof {
        assert(list.take(i as int) =~= list);
        assert(total =~= output.written().push(']'));
    }
    output.put_char(']')
}

/// Writes an object that stands at level `depth`.
fn write_members<O: JsonOutput>(output: &mut O, object: &JsonObject, depth: usize) -> (done: Result<
    (),
    (),
>)
    requires
        old(output).valid(),
        depth <= MAX_JSON_DEPTH,
    ensures
        final(output).valid(),
        final(output).limit() == old(output).limit(),
        done is Ok <==> members_height(object@) + depth <= MAX_JSON_DEPTH && fits(
            old(output).limit(),
            old(output).written() + printed(Json::Table(object@)),
        ),
        done is Ok ==> final(output).written() == old(output).written() + printed(
            Json::Table(object@),
        ),
    decreases object,
{
    let ghost before = output.written();
    let ghost limit = output.limit();
    let ghost members = object@;
    let ghost total = before + printed(Json::Table(members));
    let ghost start = before.push('{');
    let entries = &object.entries;
    proof {
        lemma_members(*object);
        assert(total =~= start + (printed_members(members) + seq!['}']));
        lemma_overflow_stays(limit, start, printed_members(members) + seq!['}']);
    }
    match output.put_char('{') {
        Ok(()) => {},
        Err(()) => {
            return Err(());
        },
    }
    let mut i: usize = 0;
    proof {
        assert(members.take(0) =~= Seq::<(Seq<char>, Json)>::empty());
        assert(start =~= start + printed_members(members.take(0)));
    }
    while i < entries.len()
        invariant
            i <= entries@.len() == members.len(),
            depth <= MAX_JSON_DEPTH,
            members == object@,
            *entries == object.entries,
            forall|k: int|
                0 <= k < entries@.len() ==> #[trigger] members[k] == (
                    entries@[k].0@,
                    json_of(entries@[k].1),
                ),
            total == start + printed_members(members) + seq!['}'],
            total == old(output).written() + printed(Json::Table(members)),
            limit == old(output).limit(),
            output.valid(),
            output.limit() == limit,
            output.written() == start + printed_members(members.take(i as int)),
            members_height(members.take(i as int)) + depth <= MAX_JSON_DEPTH,
        decreases entries@.len() - i,
    {
        let ghost here = output.written();
        let ghost gap = separated(here, i > 0);
        let ghost named = gap + quoted(members[i as int].0);
        let ghost colon = named.push(':');
        let ghost whole = colon + printed(members[i as int].1);
        proof {
            lemma_members_step(members, i as int);
            let tail = lemma_members_split(members, i + 1);
            assert(separated(start + printed_members(members.take(i as int)), i > 0) =~= start
                + separated(printed_members(members.take(i as int)), i > 0));
            assert(whole =~= gap + printed_member(members[i as int]));
            assert(whole =~= start + printed_members(members.take(i + 1)));
            assert(total =~= whole + (tail + seq!['}']));
            lemma_overflow_stays(limit, whole, tail + seq!['}']);
            lemma_overflow_stays(limit, colon, printed(members[i as int].1));
            lemma_overflow_stays(limit, named, seq![':']);
            assert(named + seq![':'] =~= colon);
            lemma_overflow_stays(limit, gap, quoted(members[i as int].0));
            if i > 0 {
                assert(gap =~= here.push(','));
            }
            assert(members[i as int] == (entries@[i as int].0@, json_of(entries@[i as int].1)));
            assert(decreases_to!(object => entries@[i as int].1));
        }
        if i != 0 {
            match output.put_char(',') {
                Ok(()) => {},
                Err(()) => {
                    return Err(());
                },
            }
        }
        match write_json_string_to(output, entries[i].0.as_str()) {
            Ok(()) => {},
            Err(()) => {
                return Err(());
            },
        }
        match output.put_char(':') {
            Ok(()) => {},
            Err(()) => {
                return Err(());
            },
        }
        match write_json_value_to_depth(output, &entries[i].1, depth + 1) {
            Ok(()) => {},
            Err(()) => {
                return Err(());
            },
        }
        i += 1;
    }
    proof {
        assert(members.take(i as int) =~= members);
        assert(total =~= output.written().push('}'));
    }
    output.put_char('}')
}

/// Writes a value: it succeeds exactly when the value is not nested too deeply
/// and its text fits.
pub fn write_json_value_to<O: JsonOutput>(output: &mut O, value: &JsonValue) -> (done: Result<
    (),
    (),
>)
    requires
        old(output).valid(),
    ensures
        final(output).valid(),
        final(output).limit() == old(output).limit(),
        done is Ok <==> height(value@) <= MAX_JSON_DEPTH && fits(
            old(output).limit(),
            old(output).written() + printed(value@),
        ),
        done is Ok ==> final(output).written() == old(output).written() + printed(value@),
{
    write_json_value_to_depth(output, value, 0)
}

impl JsonValue {
    /// The canonical text of a value that is not nested too deeply.
    pub fn to_json_string(&self) -> (text: String)
        requires
            height(self@) <= MAX_JSON_DEPTH,
        ensures
            text@ == printed(self@),
    {
        let mut output = JsonText { text: String::new() };
        let _ = write_json_value_to(&mut output, self);
        assert(output.text@ =~= printed(self@));
        output.text
    }
}

} // verus!
