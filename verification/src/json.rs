//! A minimal lossless JSON value, its canonical text, and bounded writers.
use vstd::prelude::*;

use crate::text::{
    copy_text, decimal, decimal_text, lemma_text_order_total, lemma_text_order_transitive, order_of,
    parse_signed, parse_unsigned, same_text, signed_decimal, signed_decimal_text, signed_value,
    text_before, unsigned_value, TextOrder,
};

verus! {

/// Deepest level at which a value may stand; the outermost value has level 0.
pub const MAX_JSON_DEPTH: usize = 128;

/// A validated JSON number retained in its lossless source spelling.
#[derive(Debug, PartialEq, Eq)]
pub struct JsonNumber {
    pub(crate) text: String,
}

/// The members of a JSON object, ordered by key.
#[derive(Debug, PartialEq, Eq)]
pub struct JsonObject {
    pub(crate) entries: Vec<(String, JsonValue)>,
}

/// Minimal lossless JSON value used at the LSP boundary.
#[derive(Debug, PartialEq, Eq)]
pub enum JsonValue {
    Null,
    Bool(bool),
    Number(JsonNumber),
    String(String),
    Array(Vec<JsonValue>),
    Object(JsonObject),
}

/// What a [`JsonValue`] holds.
pub enum Json {
    Null,
    Bool(bool),
    Number(Seq<char>),
    Text(Seq<char>),
    List(Seq<Json>),
    Table(Seq<(Seq<char>, Json)>),
}

/// The content of a value.
pub open spec fn json_of(value: JsonValue) -> Json
    decreases value,
{
    match value {
        JsonValue::Null => Json::Null,
        JsonValue::Bool(b) => Json::Bool(b),
        JsonValue::Number(n) => Json::Number(n@),
        JsonValue::String(s) => Json::Text(s@),
        JsonValue::Array(items) => Json::List(list_of(items@)),
        JsonValue::Object(object) => Json::Table(object.members()),
    }
}

/// The contents of a sequence of values.
pub open spec fn list_of(items: Seq<JsonValue>) -> Seq<Json>
    decreases items,
{
    if items.len() == 0 {
        Seq::empty()
    } else {
        list_of(items.drop_last()).push(json_of(items.last()))
    }
}

/// The contents of a sequence of members.
pub open spec fn table_of(entries: Seq<(String, JsonValue)>) -> Seq<(Seq<char>, Json)>
    decreases entries,
{
    if entries.len() == 0 {
        Seq::empty()
    } else {
        table_of(entries.drop_last()).push((entries.last().0@, json_of(entries.last().1)))
    }
}

impl View for JsonValue {
    type V = Json;

    open spec fn view(&self) -> Json {
        json_of(*self)
    }
}

impl JsonObject {
    /// The members, in key order.
    pub closed spec fn members(&self) -> Seq<(Seq<char>, Json)>
        decreases self,
    {
        table_of(self.entries@)
    }
}

impl View for JsonNumber {
    type V = Seq<char>;

    closed spec fn view(&self) -> Seq<char> {
        self.text@
    }
}

impl View for JsonObject {
    type V = Seq<(Seq<char>, Json)>;

    open spec fn view(&self) -> Seq<(Seq<char>, Json)> {
        self.members()
    }
}

/// Contents are taken element by element.
pub broadcast proof fn lemma_list_of(items: Seq<JsonValue>)
    ensures
        #![trigger list_of(items)]
        list_of(items).len() == items.len(),
        forall|i: int| 0 <= i < items.len() ==> #[trigger] list_of(items)[i] == json_of(items[i]),
    decreases items.len(),
{
    if items.len() > 0 {
        lemma_list_of(items.drop_last());
    }
}

/// Contents are taken member by member.
pub broadcast proof fn lemma_table_of(entries: Seq<(String, JsonValue)>)
    ensures
        #![trigger table_of(entries)]
        table_of(entries).len() == entries.len(),
        forall|i: int|
            0 <= i < entries.len() ==> #[trigger] table_of(entries)[i] == (
                entries[i].0@,
                json_of(entries[i].1),
            ),
    decreases entries.len(),
{
    if entries.len() > 0 {
        lemma_table_of(entries.drop_last());
    }
}

/// A number is its stored spelling.
pub(crate) proof fn lemma_spelling(number: JsonNumber)
    ensures
        number@ == number.text@,
{
}

/// The members are those that are stored.
pub(crate) proof fn lemma_members(object: JsonObject)
    ensures
        object@ == table_of(object.entries@),
        object@.len() == object.entries@.len(),
        forall|i: int|
            0 <= i < object.entries@.len() ==> #[trigger] object@[i] == (
                object.entries@[i].0@,
                json_of(object.entries@[i].1),
            ),
{
    lemma_table_of(object.entries@);
}

/// The value of `key` among `members`.
pub open spec fn lookup(members: Seq<(Seq<char>, Json)>, key: Seq<char>) -> Option<Json>
    decreases members.len(),
{
    if members.len() == 0 {
        None
    } else if members.last().0 == key {
        Some(members.last().1)
    } else {
        lookup(members.drop_last(), key)
    }
}

/// Whether keys strictly increase, so that each occurs once.
pub open spec fn ordered(members: Seq<(Seq<char>, Json)>) -> bool {
    forall|i: int, j: int|
        0 <= i < j < members.len() ==> text_before(#[trigger] members[i].0, #[trigger] members[j].0)
}

/// `members` with `key` bound to `value`, in key order.
pub open spec fn with_member(
    members: Seq<(Seq<char>, Json)>,
    key: Seq<char>,
    value: Json,
) -> Seq<(Seq<char>, Json)>
    decreases members.len(),
{
    if members.len() == 0 || text_before(members.last().0, key) {
        members.push((key, value))
    } else if members.last().0 == key {
        members.drop_last().push((key, value))
    } else {
        with_member(members.drop_last(), key, value).push(members.last())
    }
}

/// `members` without the binding of `key`.
pub open spec fn without_member(members: Seq<(Seq<char>, Json)>, key: Seq<char>) -> Seq<
    (Seq<char>, Json),
>
    decreases members.len(),
{
    if members.len() == 0 {
        members
    } else if members.last().0 == key {
        members.drop_last()
    } else {
        without_member(members.drop_last(), key).push(members.last())
    }
}

/// Whether `key` is bound among `members`.
pub open spec fn has_member(members: Seq<(Seq<char>, Json)>, key: Seq<char>) -> bool {
    lookup(members, key) is Some
}

/// A bound key stands at some index with its value.
pub proof fn lemma_lookup(members: Seq<(Seq<char>, Json)>, key: Seq<char>)
    ensures
        match lookup(members, key) {
            Some(value) => exists|i: int|
                0 <= i < members.len() && #[trigger] members[i] == (key, value),
            None => forall|i: int| 0 <= i < members.len() ==> (#[trigger] members[i]).0 != key,
        },
    decreases members.len(),
{
    if members.len() > 0 && members.last().0 != key {
        lemma_lookup(members.drop_last(), key);
        if let Some(value) = lookup(members, key) {
            let i = choose|i: int|
                0 <= i < members.drop_last().len() && #[trigger] members.drop_last()[i] == (
                    key,
                    value,
                );
            assert(members[i] == (key, value));
        } else {
            assert forall|i: int| 0 <= i < members.len() implies (#[trigger] members[i]).0
                != key by {
                if i < members.len() - 1 {
                    assert(members[i] == members.drop_last()[i]);
                }
            }
        }
    } else if members.len() > 0 {
        assert(members[members.len() - 1] == (key, members.last().1));
    }
}

/// Binding a key keeps the order, binds that key, and leaves every other
/// binding alone.
pub proof fn lemma_with_member(members: Seq<(Seq<char>, Json)>, key: Seq<char>, value: Json)
    requires
        ordered(members),
    ensures
        ordered(with_member(members, key, value)),
        lookup(with_member(members, key, value), key) == Some(value),
        forall|other: Seq<char>|
            other != key ==> #[trigger] lookup(with_member(members, key, value), other) == lookup(
                members,
                other,
            ),
        forall|i: int|
            0 <= i < with_member(members, key, value).len() ==> (#[trigger] with_member(
                members,
                key,
                value,
            )[i] == (key, value) || members.contains(with_member(members, key, value)[i])),
    decreases members.len(),
{
    let result = with_member(members, key, value);
    if members.len() == 0 || text_before(members.last().0, key) {
        assert(result.drop_last() =~= members);
        assert forall|i: int, j: int| 0 <= i < j < result.len() implies text_before(
            #[trigger] result[i].0,
            #[trigger] result[j].0,
        ) by {
            if j == result.len() - 1 && i < members.len() - 1 {
                lemma_text_order_transitive(members[i].0, members.last().0, key);
            }
        }
        assert forall|i: int| 0 <= i < result.len() implies (#[trigger] result[i] == (key, value)
            || members.contains(result[i])) by {
            if i < members.len() {
                assert(members.contains(members[i]));
            }
        }
    } else if members.last().0 == key {
        assert(result.drop_last() =~= members.drop_last());
        assert forall|i: int| 0 <= i < result.len() implies (#[trigger] result[i] == (key, value)
            || members.contains(result[i])) by {
            if i < members.len() - 1 {
                assert(members.contains(members[i]));
            }
        }
    } else {
        let inner = with_member(members.drop_last(), key, value);
        lemma_with_member(members.drop_last(), key, value);
        assert(result.drop_last() =~= inner);
        lemma_text_order_total(members.last().0, key);
        assert forall|i: int| 0 <= i < result.len() implies (#[trigger] result[i] == (key, value)
            || members.contains(result[i])) by {
            if i < result.len() - 1 {
                assert(result[i] == inner[i]);
                if inner[i] != (key, value) {
                    let k = choose|k: int|
                        0 <= k < members.drop_last().len() && members.drop_last()[k] == inner[i];
                    assert(members[k] == inner[i]);
                }
            } else {
                assert(members[members.len() - 1] == members.last());
            }
        }
        assert forall|i: int, j: int| 0 <= i < j < result.len() implies text_before(
            #[trigger] result[i].0,
            #[trigger] result[j].0,
        ) by {
            if j == result.len() - 1 {
                assert(result[i] == inner[i]);
                if inner[i] != (key, value) {
                    let k = choose|k: int|
                        0 <= k < members.drop_last().len() && members.drop_last()[k] == inner[i];
                    assert(members[k] == inner[i]);
                    assert(text_before(members[k].0, members[members.len() - 1].0));
                }
            } else {
                assert(result[i] == inner[i] && result[j] == inner[j]);
            }
        }
        assert forall|other: Seq<char>| other != key implies #[trigger] lookup(result, other)
            == lookup(members, other) by {
            assert(lookup(inner, other) == lookup(members.drop_last(), other));
        }
    }
}

impl JsonNumber {
    /// The spelling of the number.
    pub fn as_str(&self) -> (text: &str)
        ensures
            text@ == self@,
    {
        self.text.as_str()
    }
}

impl JsonObject {
    /// An object without members.
    pub fn new() -> (object: Self)
        ensures
            object@ == Seq::<(Seq<char>, Json)>::empty(),
    {
        let object = JsonObject { entries: Vec::new() };
        proof {
            lemma_members(object);
            assert(object@ =~= Seq::<(Seq<char>, Json)>::empty());
        }
        object
    }

    /// The number of members.
    pub fn len(&self) -> (n: usize)
        ensures
            n == self@.len(),
    {
        proof {
            lemma_members(*self);
        }
        self.entries.len()
    }

    /// Whether there is no member.
    pub fn is_empty(&self) -> (yes: bool)
        ensures
            yes == (self@.len() == 0),
    {
        self.len() == 0
    }

    /// The index of the member `key`.
    fn position(&self, key: &str) -> (index: Option<usize>)
        ensures
            match index {
                Some(i) => {
                    &&& i < self.entries@.len()
                    &&& self@[i as int].0 == key@
                    &&& lookup(self@, key@) == Some(json_of(self.entries@[i as int].1))
                    &&& forall|j: int| i < j < self@.len() ==> (#[trigger] self@[j]).0 != key@
                },
                None => lookup(self@, key@) is None && forall|j: int|
                    0 <= j < self@.len() ==> (#[trigger] self@[j]).0 != key@,
            },
    {
        let mut i: usize = self.entries.len();
        proof {
            lemma_members(*self);
        }
        assert(self@.take(i as int) =~= self@);
        while i > 0
            invariant
                i <= self.entries@.len() == self@.len(),
                self@ == table_of(self.entries@),
                forall|j: int|
                    0 <= j < self.entries@.len() ==> #[trigger] self@[j] == (
                        self.entries@[j].0@,
                        json_of(self.entries@[j].1),
                    ),
                lookup(self@, key@) == lookup(self@.take(i as int), key@),
                forall|j: int| i <= j < self@.len() ==> (#[trigger] self@[j]).0 != key@,
            decreases i,
        {
            proof {
                assert(self@.take(i as int).last() == self@[i - 1]);
                assert(self@.take(i as int).drop_last() =~= self@.take(i - 1));
            }
            if same_text(self.entries[i - 1].0.as_str(), key) {
                return Some(i - 1);
            }
            i -= 1;
        }
        None
    }

    /// The value of member `key`.
    pub fn get(&self, key: &str) -> (value: Option<&JsonValue>)
        ensures
            match value {
                Some(v) => lookup(self@, key@) == Some(v@),
                None => lookup(self@, key@) is None,
            },
    {
        match self.position(key) {
            Some(i) => Some(&self.entries[i].1),
            None => None,
        }
    }

    /// Whether member `key` exists.
    pub fn contains_key(&self, key: &str) -> (yes: bool)
        ensures
            yes == has_member(self@, key@),
    {
        self.position(key).is_some()
    }

    /// Takes member `key` out.
    pub fn remove(&mut self, key: &str) -> (value: Option<JsonValue>)
        ensures
            final(self)@ == without_member(old(self)@, key@),
            match value {
                Some(v) => lookup(old(self)@, key@) == Some(v@),
                None => lookup(old(self)@, key@) is None,
            },
    {
        let ghost before = self@;
        match self.position(key) {
            Some(i) => {
                proof {
                    lemma_members(*self);
                }
                let (_, value) = self.entries.remove(i);
                proof {
                    lemma_members(*self);
                    lemma_without_member(before, key@, i as int);
                    assert(self@ =~= before.remove(i as int));
                }
                Some(value)
            },
            None => {
                proof {
                    lemma_without_absent(before, key@);
                }
                None
            },
        }
    }

    /// The number of members that stay before `key` when it is bound.
    fn slot(&self, key: &str) -> (i: usize)
        requires
            ordered(self@),
        ensures
            i <= self@.len(),
            i == 0 || text_before(self@[i - 1].0, key@) || self@[i - 1].0 == key@,
            forall|value: Json| #[trigger]
                with_member(self@, key@, value) == with_member(self@.take(i as int), key@, value)
                    + self@.skip(i as int),
            lookup(self@, key@) == lookup(self@.take(i as int), key@),
    {
        let mut i: usize = self.entries.len();
        proof {
            lemma_members(*self);
            assert(self@.take(i as int) =~= self@);
            assert(self@.skip(i as int) =~= Seq::<(Seq<char>, Json)>::empty());
            assert forall|value: Json| #[trigger]
                with_member(self@, key@, value) == with_member(self@.take(i as int), key@, value)
                    + self@.skip(i as int) by {
                assert(with_member(self@, key@, value) =~= with_member(self@, key@, value)
                    + Seq::<(Seq<char>, Json)>::empty());
            }
        }
        while i > 0
            invariant
                i <= self.entries@.len() == self@.len(),
                forall|j: int|
                    0 <= j < self@.len() ==> (#[trigger] self@[j]).0 == self.entries@[j].0@,
                forall|value: Json| #[trigger]
                    with_member(self@, key@, value) == with_member(
                        self@.take(i as int),
                        key@,
                        value,
                    ) + self@.skip(i as int),
                lookup(self@, key@) == lookup(self@.take(i as int), key@),
            ensures
                i <= self@.len(),
                i == 0 || text_before(self@[i - 1].0, key@) || self@[i - 1].0 == key@,
            decreases i,
        {
            proof {
                assert(self@.take(i as int).last() == self@[i - 1]);
                assert(self@.take(i as int).drop_last() =~= self@.take(i - 1));
                lemma_text_order_total(self@[i - 1].0, key@);
            }
            match order_of(key, self.entries[i - 1].0.as_str()) {
                TextOrder::Before => {
                    proof {
                        assert forall|value: Json| #[trigger]
                            with_member(self@, key@, value) == with_member(
                                self@.take(i - 1),
                                key@,
                                value,
                            ) + self@.skip(i - 1) by {
                            let inner = with_member(self@.take(i - 1), key@, value);
                            assert(inner.push(self@[i - 1]) + self@.skip(i as int) =~= inner
                                + self@.skip(i - 1));
                        }
                    }
                    i -= 1;
                },
                _ => {
                    break;
                },
            }
        }
        i
    }

    /// Binds `key` to `value` and hands back what it was bound to.
    pub fn insert(&mut self, key: String, value: JsonValue) -> (previous: Option<JsonValue>)
        requires
            ordered(old(self)@),
        ensures
            final(self)@ == with_member(old(self)@, key@, value@),
            match previous {
                Some(v) => lookup(old(self)@, key@) == Some(v@),
                None => lookup(old(self)@, key@) is None,
            },
            ordered(final(self)@),
    {
        let ghost before = self@;
        let ghost bound = value@;
        let ghost name = key@;
        let i = self.slot(key.as_str());
        let ghost head = before.take(i as int);
        proof {
            lemma_members(*self);
            lemma_with_member(before, name, bound);
            if i > 0 {
                assert(head.last() == before[i - 1]);
                lemma_text_order_total(before[i - 1].0, name);
            }
        }
        if i > 0 && same_text(self.entries[i - 1].0.as_str(), key.as_str()) {
            let (_, previous) = self.entries.remove(i - 1);
            self.entries.insert(i - 1, (key, value));
            proof {
                lemma_members(*self);
                assert(self@ =~= head.drop_last().push((name, bound)) + before.skip(i as int));
            }
            Some(previous)
        } else {
            self.entries.insert(i, (key, value));
            proof {
                lemma_members(*self);
                assert(self@ =~= head.push((name, bound)) + before.skip(i as int));
                lemma_absent_below(head, name);
            }
            None
        }
    }
}

/// A key above every member is not bound.
pub proof fn lemma_absent_below(members: Seq<(Seq<char>, Json)>, key: Seq<char>)
    requires
        ordered(members),
        members.len() > 0 ==> text_before(members.last().0, key),
    ensures
        lookup(members, key) is None,
    decreases members.len(),
{
    if members.len() > 0 {
        lemma_text_order_total(members.last().0, key);
        if members.len() > 1 {
            let rest = members.drop_last();
            assert(text_before(members[members.len() - 2].0, members[members.len() - 1].0));
            lemma_text_order_transitive(rest.last().0, members.last().0, key);
        }
        lemma_absent_below(members.drop_last(), key);
    }
}

/// Taking a member out removes its last occurrence.
proof fn lemma_without_member(members: Seq<(Seq<char>, Json)>, key: Seq<char>, i: int)
    requires
        0 <= i < members.len(),
        members[i].0 == key,
        forall|j: int| i < j < members.len() ==> (#[trigger] members[j]).0 != key,
    ensures
        without_member(members, key) == members.remove(i),
    decreases members.len(),
{
    if i == members.len() - 1 {
        assert(members.remove(i) =~= members.drop_last());
    } else {
        lemma_without_member(members.drop_last(), key, i);
        assert(members.remove(i) =~= members.drop_last().remove(i).push(members.last()));
    }
}

/// Taking out a key that is not bound changes nothing.
proof fn lemma_without_absent(members: Seq<(Seq<char>, Json)>, key: Seq<char>)
    requires
        forall|j: int| 0 <= j < members.len() ==> (#[trigger] members[j]).0 != key,
    ensures
        without_member(members, key) == members,
    decreases members.len(),
{
    if members.len() > 0 {
        lemma_without_absent(members.drop_last(), key);
        assert(members.drop_last().push(members.last()) =~= members);
    }
}

impl JsonObject {
    /// This object with one more member.
    pub fn with(self, key: &str, value: JsonValue) -> (object: Self)
        requires
            ordered(self@),
        ensures
            object@ == with_member(self@, key@, value@),
            ordered(object@),
    {
        let mut object = self;
        let _ = object.insert(copy_text(key), value);
        object
    }
}

impl Clone for JsonNumber {
    fn clone(&self) -> (copy: Self)
        ensures
            copy@ == self@,
    {
        JsonNumber { text: self.text.clone() }
    }
}

impl Clone for JsonObject {
    fn clone(&self) -> (copy: Self)
        ensures
            copy@ == self@,
        decreases self,
    {
        let mut entries: Vec<(String, JsonValue)> = Vec::new();
        let mut i: usize = 0;
        proof {
            lemma_members(*self);
        }
        while i < self.entries.len()
            invariant
                i <= self.entries@.len(),
                entries@.len() == i,
                forall|k: int|
                    0 <= k < i ==> (#[trigger] entries@[k]).0@ == self.entries@[k].0@ && json_of(
                        entries@[k].1,
                    ) == json_of(self.entries@[k].1),
            decreases self.entries@.len() - i,
        {
            proof {
                assert(decreases_to!(self => self.entries@[i as int].1));
            }
            let key = self.entries[i].0.clone();
            let value = self.entries[i].1.clone();
            entries.push((key, value));
            i += 1;
        }
        let copy = JsonObject { entries };
        proof {
            lemma_members(copy);
            assert(copy@ =~= self@);
        }
        copy
    }
}

impl Clone for JsonValue {
    fn clone(&self) -> (copy: Self)
        ensures
            copy@ == self@,
        decreases self,
    {
        match self {
            JsonValue::Null => JsonValue::Null,
            JsonValue::Bool(flag) => JsonValue::Bool(*flag),
            JsonValue::Number(number) => JsonValue::Number(number.clone()),
            JsonValue::String(text) => JsonValue::String(text.clone()),
            JsonValue::Array(items) => {
                let mut copies: Vec<JsonValue> = Vec::new();
                let mut i: usize = 0;
                while i < items.len()
                    invariant
                        i <= items@.len(),
                        copies@.len() == i,
                        *self == JsonValue::Array(*items),
                        forall|k: int|
                            0 <= k < i ==> json_of(#[trigger] copies@[k]) == json_of(items@[k]),
                    decreases items@.len() - i,
                {
                    proof {
                        assert(self->Array_0 == *items);
                        assert(decreases_to!(*self => self->Array_0));
                        assert(decreases_to!(*items => items@[i as int]));
                    }
                    let copy = items[i].clone();
                    copies.push(copy);
                    i += 1;
                }
                proof {
                    lemma_list_of(copies@);
                    lemma_list_of(items@);
                    assert(list_of(copies@) =~= list_of(items@));
                }
                JsonValue::Array(copies)
            },
            JsonValue::Object(object) => JsonValue::Object(object.clone()),
        }
    }
}

/// The unsigned number that a value spells.
pub open spec fn unsigned_of(value: Json) -> Option<u64> {
    match value {
        Json::Number(text) => match unsigned_value(text) {
            Some(n) => if n <= u64::MAX {
                Some(n as u64)
            } else {
                None
            },
            None => None,
        },
        _ => None,
    }
}

/// The signed number that a value spells.
pub open spec fn signed_of(value: Json) -> Option<i64> {
    match value {
        Json::Number(text) => match signed_value(text) {
            Some(n) => if i64::MIN <= n <= i64::MAX {
                Some(n as i64)
            } else {
                None
            },
            None => None,
        },
        _ => None,
    }
}

/// The member `key` of a value.
pub open spec fn member_of(value: Json, key: Seq<char>) -> Option<Json> {
    match value {
        Json::Table(members) => lookup(members, key),
        _ => None,
    }
}

/// The text of a value.
pub open spec fn text_value(value: Json) -> Option<Seq<char>> {
    match value {
        Json::Text(s) => Some(s),
        _ => None,
    }
}

/// The text of member `key`.
pub open spec fn member_text(value: Json, key: Seq<char>) -> Option<Seq<char>> {
    match member_of(value, key) {
        Some(member) => text_value(member),
        None => None,
    }
}

/// The unsigned number of member `key`.
pub open spec fn member_unsigned(value: Json, key: Seq<char>) -> Option<u64> {
    match member_of(value, key) {
        Some(member) => unsigned_of(member),
        None => None,
    }
}

impl JsonValue {
    /// A JSON string.
    pub fn text(value: &str) -> (json: Self)
        ensures
            json@ == Json::Text(value@),
    {
        JsonValue::String(copy_text(value))
    }

    /// A JSON number without a sign.
    pub fn unsigned(value: u64) -> (json: Self)
        ensures
            json@ == Json::Number(decimal(value as nat)),
    {
        JsonValue::Number(JsonNumber { text: decimal_text(value) })
    }

    /// A JSON number with an optional sign.
    pub fn signed(value: i64) -> (json: Self)
        ensures
            json@ == Json::Number(signed_decimal(value as int)),
    {
        JsonValue::Number(JsonNumber { text: signed_decimal_text(value) })
    }

    /// The text, if this is a string.
    pub fn as_str(&self) -> (text: Option<&str>)
        ensures
            match text {
                Some(t) => text_value(self@) == Some(t@),
                None => text_value(self@) is None,
            },
    {
        match self {
            JsonValue::String(value) => Some(value.as_str()),
            _ => None,
        }
    }

    /// The unsigned number, if this spells one that fits.
    pub fn as_u64(&self) -> (number: Option<u64>)
        ensures
            number == unsigned_of(self@),
    {
        match self {
            JsonValue::Number(value) => parse_unsigned(value.as_str()),
            _ => None,
        }
    }

    /// The signed number, if this spells one that fits.
    pub fn as_i64(&self) -> (number: Option<i64>)
        ensures
            number == signed_of(self@),
    {
        match self {
            JsonValue::Number(value) => parse_signed(value.as_str()),
            _ => None,
        }
    }

    /// The member `key`, if this is an object that has it.
    pub fn get(&self, key: &str) -> (member: Option<&JsonValue>)
        ensures
            match member {
                Some(value) => member_of(self@, key@) == Some(value@),
                None => member_of(self@, key@) is None,
            },
    {
        match self {
            JsonValue::Object(object) => object.get(key),
            _ => None,
        }
    }

    /// Whether this is an object that has member `key`.
    pub fn contains_key(&self, key: &str) -> (yes: bool)
        ensures
            yes == (member_of(self@, key@) is Some),
    {
        match self {
            JsonValue::Object(object) => object.contains_key(key),
            _ => false,
        }
    }
}

/// Members bound one after the other; a later binding of a key wins.
pub open spec fn members_from(pairs: Seq<(Seq<char>, Json)>) -> Seq<(Seq<char>, Json)>
    decreases pairs.len(),
{
    if pairs.len() == 0 {
        Seq::empty()
    } else {
        with_member(members_from(pairs.drop_last()), pairs.last().0, pairs.last().1)
    }
}

/// The object with these members.
pub open spec fn object_of(pairs: Seq<(Seq<char>, Json)>) -> Json {
    Json::Table(members_from(pairs))
}

/// Bound members are ordered.
pub proof fn lemma_members_from(pairs: Seq<(Seq<char>, Json)>)
    ensures
        ordered(members_from(pairs)),
    decreases pairs.len(),
{
    if pairs.len() > 0 {
        lemma_members_from(pairs.drop_last());
        lemma_with_member(members_from(pairs.drop_last()), pairs.last().0, pairs.last().1);
    }
}

/// The contents of key and value pairs.
pub open spec fn pairs_of(entries: Seq<(&str, JsonValue)>) -> Seq<(Seq<char>, Json)> {
    Seq::new(entries.len(), |i: int| (entries[i].0@, json_of(entries[i].1)))
}

/// The object with these members.
pub fn object(entries: Vec<(&str, JsonValue)>) -> (value: JsonValue)
    ensures
        value@ == object_of(pairs_of(entries@)),
{
    let ghost pairs = pairs_of(entries@);
    let ghost all = entries@;
    let mut rest = entries;
    let mut reversed: Vec<(&str, JsonValue)> = Vec::new();
    while rest.len() > 0
        invariant
            rest@.len() + reversed@.len() == all.len(),
            forall|k: int| 0 <= k < rest@.len() ==> rest@[k] == all[k],
            forall|k: int|
                0 <= k < reversed@.len() ==> #[trigger] reversed@[k] == all[all.len() - 1 - k],
        decreases rest@.len(),
    {
        let last = rest.pop();
        if let Some(entry) = last {
            reversed.push(entry);
        }
    }
    let mut members = JsonObject::new();
    assert(pairs.take(0) =~= Seq::<(Seq<char>, Json)>::empty());
    while reversed.len() > 0
        invariant
            reversed@.len() <= all.len(),
            pairs == pairs_of(all),
            forall|k: int|
                0 <= k < reversed@.len() ==> #[trigger] reversed@[k] == all[all.len() - 1 - k],
            members@ == members_from(pairs.take(all.len() - reversed@.len())),
            ordered(members@),
        decreases reversed@.len(),
    {
        let ghost i = all.len() - reversed@.len();
        let last = reversed.pop();
        if let Some((key, value)) = last {
            proof {
                assert(all[i] == (key, value));
                assert(pairs.take(i + 1).drop_last() =~= pairs.take(i));
                assert(pairs.take(i + 1).last() == pairs[i]);
            }
            let _ = members.insert(copy_text(key), value);
        }
    }
    assert(pairs.take(all.len() as int) =~= pairs);
    JsonValue::Object(members)
}

/// Taking one member out leaves every other binding alone.
pub proof fn lemma_without_other(
    members: Seq<(Seq<char>, Json)>,
    key: Seq<char>,
    other: Seq<char>,
)
    requires
        key != other,
    ensures
        lookup(without_member(members, key), other) == lookup(members, other),
    decreases members.len(),
{
    if members.len() > 0 {
        let result = without_member(members, key);
        if members.last().0 != key {
            lemma_without_other(members.drop_last(), key, other);
            assert(result.drop_last() =~= without_member(members.drop_last(), key));
        }
    }
}

} // verus!
