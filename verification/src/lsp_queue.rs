//! Queues with an item budget, a byte budget and a few reserved slots, and the
//! estimate of the heap bytes that a queued value retains.
use std::collections::VecDeque;

use vstd::layout::size_of;
use vstd::prelude::*;

use crate::json::{
    json_of, lemma_list_of, lemma_members, list_of, Json, JsonNumber, JsonObject, JsonValue,
    MAX_JSON_DEPTH,
};
use crate::lsp_command::{ClientCommand, RequestScope};
use crate::lsp_types::{Event, LspEvent, MAX_QUEUE_BYTES};
use crate::text::utf8_len;

verus! {

/// Doubling the estimate covers allocator and tree-node slack.
pub const JSON_QUEUE_MEMORY_SAFETY_MULTIPLIER: usize = 2;

/// `String::capacity`: at least the bytes that the text takes. How much more
/// an allocator gave is left open.
#[verifier::external_body]
pub(crate) fn text_capacity(s: &String) -> (bytes: usize)
    ensures
        bytes >= utf8_len(s@),
{
    s.capacity()
}

/// `Vec::capacity`: at least the number of items. How much more an allocator
/// gave is left open.
#[verifier::external_body]
pub(crate) fn list_capacity<T>(v: &Vec<T>) -> (items: usize)
    ensures
        items >= v@.len(),
{
    v.capacity()
}

/// The smaller of two numbers.
pub open spec fn lesser(a: int, b: int) -> int {
    if a < b {
        a
    } else {
        b
    }
}

/// A product, or the largest number where the product does not fit.
pub fn saturating_product(a: usize, b: usize) -> (product: usize)
    ensures
        product == lesser(a * b, usize::MAX as int),
{
    match a.checked_mul(b) {
        Some(product) => product,
        None => usize::MAX,
    }
}

/// How the parts of a JSON value are allocated.
#[derive(Debug)]
pub enum HeapShape {
    /// No allocation.
    Scalar,
    /// A text with this capacity.
    Text(usize),
    /// A list with this capacity and these items.
    List(usize, Vec<HeapShape>),
    /// A table whose keys have these capacities.
    Table(Vec<(usize, HeapShape)>),
}

/// Whether a shape describes a value: the structure is the same, and no
/// capacity is below what the content needs.
pub open spec fn covers(shape: HeapShape, value: Json) -> bool
    decreases value,
{
    match (shape, value) {
        (HeapShape::Scalar, Json::Null) => true,
        (HeapShape::Scalar, Json::Bool(_)) => true,
        (HeapShape::Text(capacity), Json::Number(text)) => capacity >= utf8_len(text),
        (HeapShape::Text(capacity), Json::Text(text)) => capacity >= utf8_len(text),
        (HeapShape::List(capacity, shapes), Json::List(items)) => capacity >= items.len()
            && items_covered(shapes@, items),
        (HeapShape::Table(shapes), Json::Table(members)) => members_covered(shapes@, members),
        _ => false,
    }
}

/// Whether each item is covered by the shape at the same index.
pub open spec fn items_covered(shapes: Seq<HeapShape>, items: Seq<Json>) -> bool
    decreases items,
{
    shapes.len() == items.len() && (items.len() == 0 || (items_covered(
        shapes.drop_last(),
        items.drop_last(),
    ) && covers(shapes.last(), items.last())))
}

/// Whether each member is covered by the shape at the same index.
pub open spec fn members_covered(
    shapes: Seq<(usize, HeapShape)>,
    members: Seq<(Seq<char>, Json)>,
) -> bool
    decreases members,
{
    shapes.len() == members.len() && (members.len() == 0 || (members_covered(
        shapes.drop_last(),
        members.drop_last(),
    ) && shapes.last().0 >= utf8_len(members.last().0) && member_covered(
        shapes.last().1,
        members.last(),
    )))
}

/// Whether the value of a member is covered.
pub open spec fn member_covered(shape: HeapShape, member: (Seq<char>, Json)) -> bool
    decreases member,
{
    covers(shape, member.1)
}

/// The bytes that a full tree node takes: a header, eleven key and value slots
/// and twelve child edges.
pub open spec fn node_bytes() -> nat {
    8 * size_of::<usize>() + 11 * (size_of::<String>() + size_of::<JsonValue>()) + 12 * size_of::<
        usize,
    >()
}

/// One node for each entry, and one for an empty table.
pub open spec fn table_bytes(entries: nat) -> nat {
    (if entries > 0 {
        entries
    } else {
        1
    }) * node_bytes()
}

/// The bytes charged for a value.
pub open spec fn shape_bytes(shape: HeapShape) -> nat
    decreases shape,
{
    2 * size_of::<JsonValue>() + match shape {
        HeapShape::Scalar => 0,
        HeapShape::Text(capacity) => 2 * capacity as nat,
        HeapShape::List(capacity, items) => 2 * (capacity as nat * size_of::<JsonValue>())
            + items_bytes(items@),
        HeapShape::Table(entries) => 2 * table_bytes(entries@.len()) + entries_bytes(entries@),
    }
}

/// The bytes charged for items.
pub open spec fn items_bytes(items: Seq<HeapShape>) -> nat
    decreases items,
{
    if items.len() == 0 {
        0
    } else {
        items_bytes(items.drop_last()) + shape_bytes(items.last())
    }
}

/// The bytes charged for keys and their values.
pub open spec fn entries_bytes(entries: Seq<(usize, HeapShape)>) -> nat
    decreases entries,
{
    if entries.len() == 0 {
        0
    } else {
        entries_bytes(entries.drop_last()) + 2 * entries.last().0 as nat + shape_bytes(
            entries.last().1,
        )
    }
}

/// How many levels stand around the deepest part.
pub open spec fn shape_height(shape: HeapShape) -> nat
    decreases shape,
{
    match shape {
        HeapShape::List(_, items) => shapes_height(items@),
        HeapShape::Table(entries) => entries_height(entries@),
        _ => 0,
    }
}

/// The height of a list with these items.
pub open spec fn shapes_height(items: Seq<HeapShape>) -> nat
    decreases items,
{
    if items.len() == 0 {
        0
    } else {
        let below = shape_height(items.last()) + 1;
        let rest = shapes_height(items.drop_last());
        if rest > below {
            rest
        } else {
            below
        }
    }
}

/// The height of a table with these entries.
pub open spec fn entries_height(entries: Seq<(usize, HeapShape)>) -> nat
    decreases entries,
{
    if entries.len() == 0 {
        0
    } else {
        let below = shape_height(entries.last().1) + 1;
        let rest = entries_height(entries.drop_last());
        if rest > below {
            rest
        } else {
            below
        }
    }
}

/// How the parts of a value are allocated.
pub(crate) fn json_shape(value: &JsonValue) -> (shape: HeapShape)
    ensures
        covers(shape, value@),
    decreases value,
{
    let shape = match value {
        JsonValue::Null => HeapShape::Scalar,
        JsonValue::Bool(_) => HeapShape::Scalar,
        JsonValue::Number(number) => HeapShape::Text(number_capacity(number)),
        JsonValue::String(text) => HeapShape::Text(text_capacity(text)),
        JsonValue::Array(items) => {
            let (capacity, shapes) = items_shape(items);
            proof {
                lemma_list_of(items@);
            }
            HeapShape::List(capacity, shapes)
        },
        JsonValue::Object(object) => HeapShape::Table(object_shape(object)),
    };
    shape
}

/// The capacity of a number's spelling.
fn number_capacity(number: &JsonNumber) -> (bytes: usize)
    ensures
        bytes >= utf8_len(number@),
{
    proof {
        crate::json::lemma_spelling(*number);
    }
    text_capacity(&number.text)
}

/// How the items of an array are allocated.
fn items_shape(items: &Vec<JsonValue>) -> (result: (usize, Vec<HeapShape>))
    ensures
        result.0 >= items@.len(),
        items_covered(result.1@, list_of(items@)),
    decreases items,
{
    let ghost list = list_of(items@);
    let mut shapes: Vec<HeapShape> = Vec::new();
    let mut i: usize = 0;
    proof {
        lemma_list_of(items@);
        assert(list.take(0) =~= Seq::<Json>::empty());
    }
    while i < items.len()
        invariant
            i <= items@.len() == list.len(),
            list == list_of(items@),
            forall|k: int| 0 <= k < items@.len() ==> #[trigger] list[k] == json_of(items@[k]),
            items_covered(shapes@, list.take(i as int)),
            shapes@.len() == i,
        decreases items@.len() - i,
    {
        let shape = json_shape(&items[i]);
        let ghost before = shapes@;
        shapes.push(shape);
        proof {
            assert(shapes@.drop_last() =~= before);
            assert(list.take(i + 1).drop_last() =~= list.take(i as int));
            assert(list.take(i + 1).last() == json_of(items@[i as int]));
        }
        i += 1;
    }
    assert(list.take(i as int) =~= list);
    (list_capacity(items), shapes)
}

/// How the members of an object are allocated.
fn object_shape(object: &JsonObject) -> (shapes: Vec<(usize, HeapShape)>)
    ensures
        members_covered(shapes@, object@),
    decreases object,
{
    let ghost members = object@;
    let entries = &object.entries;
    let mut shapes: Vec<(usize, HeapShape)> = Vec::new();
    let mut i: usize = 0;
    proof {
        lemma_members(*object);
        assert(members.take(0) =~= Seq::<(Seq<char>, Json)>::empty());
    }
    while i < entries.len()
        invariant
            i <= entries@.len() == members.len(),
            members == object@,
            *entries == object.entries,
            forall|k: int|
                0 <= k < entries@.len() ==> #[trigger] members[k] == (
                    entries@[k].0@,
                    json_of(entries@[k].1),
                ),
            members_covered(shapes@, members.take(i as int)),
            shapes@.len() == i,
        decreases entries@.len() - i,
    {
        proof {
            assert(decreases_to!(object => entries@[i as int].1));
        }
        let capacity = text_capacity(&entries[i].0);
        let shape = json_shape(&entries[i].1);
        let ghost before = shapes@;
        shapes.push((capacity, shape));
        proof {
            assert(shapes@.drop_last() =~= before);
            assert(members.take(i + 1).drop_last() =~= members.take(i as int));
            assert(members.take(i + 1).last() == members[i as int]);
            assert(member_covered(shape, members[i as int]));
        }
        i += 1;
    }
    assert(members.take(i as int) =~= members);
    shapes
}

/// A byte count that stops at a ceiling.
pub struct ByteEstimate {
    bytes: usize,
    ceiling: usize,
}

impl ByteEstimate {
    /// The bytes counted.
    pub closed spec fn counted(&self) -> int {
        self.bytes as int
    }

    /// Where counting stops.
    pub closed spec fn top(&self) -> int {
        self.ceiling as int
    }

    /// Whether the count is at most the ceiling.
    pub open spec fn valid(&self) -> bool {
        self.counted() <= self.top()
    }

    /// Counts from zero, up to one more than `limit`.
    pub fn new(limit: usize) -> (estimate: Self)
        ensures
            estimate.valid(),
            estimate.counted() == 0,
            estimate.top() == lesser(limit + 1, usize::MAX as int),
    {
        ByteEstimate { bytes: 0, ceiling: limit.saturating_add(1) }
    }

    /// The bytes counted.
    pub fn bytes(&self) -> (bytes: usize)
        ensures
            bytes == self.counted(),
    {
        self.bytes
    }

    /// Counts `bytes` more.
    pub fn add(&mut self, bytes: usize)
        requires
            old(self).valid(),
        ensures
            final(self).valid(),
            final(self).top() == old(self).top(),
            final(self).counted() == lesser(old(self).counted() + bytes, old(self).top()),
    {
        let sum = self.bytes.saturating_add(bytes);
        self.bytes = if sum < self.ceiling {
            sum
        } else {
            self.ceiling
        };
    }

    /// Counts a product.
    fn add_product(&mut self, a: usize, b: usize)
        requires
            old(self).valid(),
        ensures
            final(self).valid(),
            final(self).top() == old(self).top(),
            final(self).counted() == lesser(old(self).counted() + a * b, old(self).top()),
    {
        self.add(saturating_product(a, b));
    }
}

/// A count after `bytes` more, which stops at the top where a value is nested
/// too deeply.
pub open spec fn charged(used: int, bytes: int, too_deep: bool, top: int) -> int {
    if too_deep {
        top
    } else {
        lesser(used + bytes, top)
    }
}

proof fn lemma_items_charge(items: Seq<HeapShape>, i: int)
    requires
        0 <= i < items.len(),
    ensures
        items_bytes(items.take(i + 1)) == items_bytes(items.take(i)) + shape_bytes(items[i]),
        shapes_height(items.take(i + 1)) == (if shapes_height(items.take(i)) > shape_height(
            items[i],
        ) + 1 {
            shapes_height(items.take(i))
        } else {
            shape_height(items[i]) + 1
        }),
{
    assert(items.take(i + 1).drop_last() =~= items.take(i));
    assert(items.take(i + 1).last() == items[i]);
}

proof fn lemma_entries_charge(entries: Seq<(usize, HeapShape)>, i: int)
    requires
        0 <= i < entries.len(),
    ensures
        entries_bytes(entries.take(i + 1)) == entries_bytes(entries.take(i)) + 2 * entries[i].0
            + shape_bytes(entries[i].1),
        entries_height(entries.take(i + 1)) == (if entries_height(entries.take(i)) > shape_height(
            entries[i].1,
        ) + 1 {
            entries_height(entries.take(i))
        } else {
            shape_height(entries[i].1) + 1
        }),
{
    assert(entries.take(i + 1).drop_last() =~= entries.take(i));
    assert(entries.take(i + 1).last() == entries[i]);
}

/// The bytes of a node for each entry, and of one node for an empty table.
pub fn btree_queue_object_allocation_estimate(entries: usize) -> (bytes: usize)
    ensures
        bytes == lesser(table_bytes(entries as nat) as int, usize::MAX as int),
{
    let word = core::mem::size_of::<usize>();
    let slot = core::mem::size_of::<String>().saturating_add(core::mem::size_of::<JsonValue>());
    let node = saturating_product(8, word).saturating_add(saturating_product(11, slot)).saturating_add(
        saturating_product(12, word),
    );
    assert(node == lesser(node_bytes() as int, usize::MAX as int));
    let count: usize = if entries > 0 {
        entries
    } else {
        1
    };
    proof {
        let n = count as int;
        let full = node_bytes() as int;
        let kept = node as int;
        assert(n * kept >= kept) by (nonlinear_arith)
            requires
                n >= 1,
                kept >= 0,
        ;
        assert(n * full >= n * kept) by (nonlinear_arith)
            requires
                n >= 1,
                full >= kept,
        ;
        assert(table_bytes(entries as nat) as int == n * full);
    }
    saturating_product(count, node)
}

impl ByteEstimate {
    /// Counts a value that stands at level `depth`.
    fn add_json_at_depth(&mut self, shape: &HeapShape, depth: usize)
        requires
            old(self).valid(),
            depth <= MAX_JSON_DEPTH + 1,
        ensures
            final(self).valid(),
            final(self).top() == old(self).top(),
            final(self).counted() == charged(
                old(self).counted(),
                shape_bytes(*shape) as int,
                shape_height(*shape) + depth > MAX_JSON_DEPTH,
                old(self).top(),
            ),
        decreases shape,
    {
        if self.bytes >= self.ceiling {
            return;
        }
        if depth > MAX_JSON_DEPTH {
            self.bytes = self.ceiling;
            return;
        }
        self.add_product(
            core::mem::size_of::<JsonValue>(),
            JSON_QUEUE_MEMORY_SAFETY_MULTIPLIER,
        );
        match shape {
            HeapShape::Scalar => {},
            HeapShape::Text(capacity) => {
                self.add_product(*capacity, JSON_QUEUE_MEMORY_SAFETY_MULTIPLIER);
            },
            HeapShape::List(capacity, items) => {
                let room = saturating_product(*capacity, core::mem::size_of::<JsonValue>());
                self.add_product(room, JSON_QUEUE_MEMORY_SAFETY_MULTIPLIER);
                self.add_items(items, depth);
            },
            HeapShape::Table(entries) => {
                let nodes = btree_queue_object_allocation_estimate(entries.len());
                self.add_product(nodes, JSON_QUEUE_MEMORY_SAFETY_MULTIPLIER);
                self.add_entries(entries, depth);
            },
        }
    }

    /// Counts the items of a list that stands at level `depth`.
    fn add_items(&mut self, items: &Vec<HeapShape>, depth: usize)
        requires
            old(self).valid(),
            depth <= MAX_JSON_DEPTH,
        ensures
            final(self).valid(),
            final(self).top() == old(self).top(),
            final(self).counted() == charged(
                old(self).counted(),
                items_bytes(items@) as int,
                shapes_height(items@) + depth > MAX_JSON_DEPTH,
                old(self).top(),
            ),
        decreases items,
    {
        let mut i: usize = 0;
        assert(items@.take(0) =~= Seq::<HeapShape>::empty());
        while i < items.len()
            invariant
                i <= items@.len(),
                depth <= MAX_JSON_DEPTH,
                self.valid(),
                self.top() == old(self).top(),
                self.counted() == charged(
                    old(self).counted(),
                    items_bytes(items@.take(i as int)) as int,
                    shapes_height(items@.take(i as int)) + depth > MAX_JSON_DEPTH,
                    self.top(),
                ),
            decreases items@.len() - i,
        {
            proof {
                lemma_items_charge(items@, i as int);
            }
            self.add_json_at_depth(&items[i], depth + 1);
            i += 1;
        }
        assert(items@.take(i as int) =~= items@);
    }

    /// Counts the entries of a table that stands at level `depth`.
    fn add_entries(&mut self, entries: &Vec<(usize, HeapShape)>, depth: usize)
        requires
            old(self).valid(),
            depth <= MAX_JSON_DEPTH,
        ensures
            final(self).valid(),
            final(self).top() == old(self).top(),
            final(self).counted() == charged(
                old(self).counted(),
                entries_bytes(entries@) as int,
                entries_height(entries@) + depth > MAX_JSON_DEPTH,
                old(self).top(),
            ),
        decreases entries,
    {
        let mut i: usize = 0;
        assert(entries@.take(0) =~= Seq::<(usize, HeapShape)>::empty());
        while i < entries.len()
            invariant
                i <= entries@.len(),
                depth <= MAX_JSON_DEPTH,
                self.valid(),
                self.top() == old(self).top(),
                self.counted() == charged(
                    old(self).counted(),
                    entries_bytes(entries@.take(i as int)) as int,
                    entries_height(entries@.take(i as int)) + depth > MAX_JSON_DEPTH,
                    self.top(),
                ),
            decreases entries@.len() - i,
        {
            proof {
                lemma_entries_charge(entries@, i as int);
                assert(decreases_to!(entries => entries@[i as int].1));
            }
            self.add_product(entries[i].0, JSON_QUEUE_MEMORY_SAFETY_MULTIPLIER);
            self.add_json_at_depth(&entries[i].1, depth + 1);
            i += 1;
        }
        assert(entries@.take(i as int) =~= entries@);
    }

    /// Counts a value.
    pub fn add_json(&mut self, shape: &HeapShape)
        requires
            old(self).valid(),
        ensures
            final(self).valid(),
            final(self).top() == old(self).top(),
            final(self).counted() == charged(
                old(self).counted(),
                shape_bytes(*shape) as int,
                shape_height(*shape) > MAX_JSON_DEPTH,
                old(self).top(),
            ),
    {
        self.add_json_at_depth(shape, 0);
    }
}

/// One thing that a queued value retains.
#[derive(Debug)]
pub enum Charge {
    /// An allocation of this many bytes.
    Bytes(usize),
    /// A JSON value.
    Json(HeapShape),
}

/// The bytes of one charge.
pub open spec fn charge_bytes(charge: Charge) -> int {
    match charge {
        Charge::Bytes(bytes) => bytes as int,
        Charge::Json(shape) => shape_bytes(shape) as int,
    }
}

/// Whether a charge is for a value that is nested too deeply.
pub open spec fn charge_too_deep(charge: Charge) -> bool {
    match charge {
        Charge::Bytes(_) => false,
        Charge::Json(shape) => shape_height(shape) > MAX_JSON_DEPTH,
    }
}

/// The bytes of all charges.
pub open spec fn charges_bytes(charges: Seq<Charge>) -> int
    decreases charges.len(),
{
    if charges.len() == 0 {
        0
    } else {
        charges_bytes(charges.drop_last()) + charge_bytes(charges.last())
    }
}

/// Whether some charge is for a value that is nested too deeply.
pub open spec fn charges_too_deep(charges: Seq<Charge>) -> bool
    decreases charges.len(),
{
    charges.len() > 0 && (charges_too_deep(charges.drop_last()) || charge_too_deep(charges.last()))
}

/// What a value of `own` bytes with these charges weighs in a queue of `limit`
/// bytes: anything above the limit weighs one more than the limit.
pub open spec fn weight_of(own: int, charges: Seq<Charge>, limit: usize) -> int {
    charged(own, charges_bytes(charges), charges_too_deep(charges), lesser(limit + 1, usize::MAX as int))
}

/// Computes [`weight_of`].
pub fn weigh(own: usize, charges: &Vec<Charge>, limit: usize) -> (weight: usize)
    ensures
        weight == weight_of(own as int, charges@, limit),
        weight <= limit + 1,
{
    let mut estimate = ByteEstimate::new(limit);
    estimate.add(own);
    let mut i: usize = 0;
    assert(charges@.take(0) =~= Seq::<Charge>::empty());
    while i < charges.len()
        invariant
            i <= charges@.len(),
            estimate.valid(),
            estimate.top() == lesser(limit + 1, usize::MAX as int),
            estimate.counted() == charged(
                own as int,
                charges_bytes(charges@.take(i as int)),
                charges_too_deep(charges@.take(i as int)),
                estimate.top(),
            ),
        decreases charges@.len() - i,
    {
        proof {
            assert(charges@.take(i + 1).drop_last() =~= charges@.take(i as int));
            assert(charges@.take(i + 1).last() == charges@[i as int]);
        }
        match &charges[i] {
            Charge::Bytes(bytes) => estimate.add(*bytes),
            Charge::Json(shape) => estimate.add_json(shape),
        }
        i += 1;
    }
    assert(charges@.take(i as int) =~= charges@);
    estimate.bytes()
}

/// Something that can be weighed for a queue.
pub trait QueueWeight: Sized {
    /// Whether `charges` are what this value retains, with capacities that an
    /// allocator may have given.
    spec fn retains(&self, charges: Seq<Charge>) -> bool;

    /// The bytes of the value itself.
    spec fn own_bytes() -> nat;

    /// What this value weighs in a queue of `limit` bytes.
    fn queue_weight(&self, limit: usize) -> (weight: usize)
        ensures
            exists|charges: Seq<Charge>|
                #![trigger self.retains(charges)]
                self.retains(charges) && weight == weight_of(
                    Self::own_bytes() as int,
                    charges,
                    limit,
                ),
    ;
}

/// Whether a value may weigh `weight` in a queue of `limit` bytes.
pub open spec fn weighs<T: QueueWeight>(item: T, limit: usize, weight: usize) -> bool {
    exists|charges: Seq<Charge>|
        #![trigger item.retains(charges)]
        item.retains(charges) && weight == weight_of(T::own_bytes() as int, charges, limit)
}

/// Whether a charge is for an allocation that holds a text.
pub open spec fn for_text(charge: Charge, text: Seq<char>) -> bool {
    charge matches Charge::Bytes(bytes) && bytes >= utf8_len(text)
}

/// Whether a charge is for a JSON value.
pub open spec fn for_json(charge: Charge, value: Json) -> bool {
    charge matches Charge::Json(shape) && covers(shape, value)
}

/// Whether charges are for one text and one value.
pub open spec fn for_text_and_json(charges: Seq<Charge>, text: Seq<char>, value: Json) -> bool {
    charges.len() == 2 && for_text(charges[0], text) && for_json(charges[1], value)
}

/// What an event retains.
pub open spec fn event_retains(event: Event, charges: Seq<Charge>) -> bool {
    match event {
        Event::Ready { capabilities, .. } => charges.len() == 1 && for_json(
            charges[0],
            capabilities,
        ),
        Event::Diagnostics { uri, diagnostics, .. } => {
            &&& charges.len() == diagnostics.len() + 2
            &&& for_text(charges[0], uri)
            &&& charges[1] matches Charge::Bytes(bytes) && bytes >= lesser(
                diagnostics.len() * size_of::<JsonValue>() as int,
                usize::MAX as int,
            )
            &&& forall|i: int|
                0 <= i < diagnostics.len() ==> for_json(#[trigger] charges[i + 2], diagnostics[i])
        },
        Event::DiagnosticsRejected { uri: Some(uri), reason } => charges.len() == 2 && for_text(
            charges[0],
            uri,
        ) && for_text(charges[1], reason),
        Event::DiagnosticsRejected { uri: None, reason } => charges.len() == 1 && for_text(
            charges[0],
            reason,
        ),
        Event::Answer { uri, result, .. } => for_text_and_json(charges, uri, result),
        Event::WorkspaceSymbols { result, .. } => charges.len() == 1 && for_json(
            charges[0],
            result,
        ),
        Event::RequestFailed { error, .. } => match error.data {
            Some(data) => for_text_and_json(charges, error.message, data),
            None => charges.len() == 1 && for_text(charges[0], error.message),
        },
        Event::StaleResponse { uri, .. } => charges.len() == 1 && for_text(charges[0], uri),
        Event::StaleDiagnostics { uri, .. } => charges.len() == 1 && for_text(charges[0], uri),
        Event::ServerNotification { method, params: Some(params) } => for_text_and_json(
            charges,
            method,
            params,
        ),
        Event::ServerNotification { method, params: None } => charges.len() == 1 && for_text(
            charges[0],
            method,
        ),
        Event::ServerRequestRejected { method } => charges.len() == 1 && for_text(
            charges[0],
            method,
        ),
        Event::Stderr(bytes) => charges.len() == 1 && (charges[0] matches Charge::Bytes(
            capacity,
        ) && capacity >= bytes.len()),
        Event::ProtocolError(message) => charges.len() == 1 && for_text(charges[0], message),
        Event::TransportError(message) => charges.len() == 1 && for_text(charges[0], message),
        Event::StderrTruncated { .. } => charges.len() == 0,
        Event::EventsDropped { .. } => charges.len() == 0,
        Event::ShutdownComplete => charges.len() == 0,
        Event::ServerClosed => charges.len() == 0,
    }
}

fn text_charge(text: &String) -> (charge: Charge)
    ensures
        for_text(charge, text@),
{
    Charge::Bytes(text_capacity(text))
}

fn json_charge(value: &JsonValue) -> (charge: Charge)
    ensures
        for_json(charge, value@),
{
    Charge::Json(json_shape(value))
}

fn text_and_json_charges(text: &String, value: &JsonValue) -> (charges: Vec<Charge>)
    ensures
        for_text_and_json(charges@, text@, value@),
{
    vec![text_charge(text), json_charge(value)]
}

/// The charges of an event.
pub fn event_charges(event: &LspEvent) -> (charges: Vec<Charge>)
    ensures
        event_retains(event@, charges@),
{
    match event {
        LspEvent::Ready { capabilities, .. } => vec![json_charge(capabilities)],
        LspEvent::Diagnostics { uri, diagnostics, .. } => {
            let capacity = list_capacity(diagnostics);
            let room = saturating_product(capacity, core::mem::size_of::<JsonValue>());
            proof {
                lemma_list_of(diagnostics@);
                let n = diagnostics@.len() as int;
                let size = size_of::<JsonValue>() as int;
                assert(capacity * size >= n * size) by (nonlinear_arith)
                    requires
                        capacity >= n,
                        size >= 0,
                ;
                assert(room >= lesser(n * size, usize::MAX as int));
            }
            let mut charges = vec![text_charge(uri), Charge::Bytes(room)];
            let ghost list = list_of(diagnostics@);
            let mut i: usize = 0;
            while i < diagnostics.len()
                invariant
                    i <= diagnostics@.len() == list.len(),
                    list == list_of(diagnostics@),
                    forall|k: int|
                        0 <= k < diagnostics@.len() ==> #[trigger] list[k] == json_of(
                            diagnostics@[k],
                        ),
                    charges@.len() == i + 2,
                    for_text(charges@[0], uri@),
                    charges@[1] == Charge::Bytes(room),
                    forall|k: int| 0 <= k < i ==> for_json(#[trigger] charges@[k + 2], list[k]),
                decreases diagnostics@.len() - i,
            {
                let charge = json_charge(&diagnostics[i]);
                charges.push(charge);
                i += 1;
            }
            charges
        },
        LspEvent::DiagnosticsRejected { uri: Some(uri), reason } => vec![
            text_charge(uri),
            text_charge(reason),
        ],
        LspEvent::DiagnosticsRejected { uri: None, reason } => vec![text_charge(reason)],
        LspEvent::Completion { uri, result, .. } => text_and_json_charges(uri, result),
        LspEvent::Hover { uri, result, .. } => text_and_json_charges(uri, result),
        LspEvent::Definition { uri, result, .. } => text_and_json_charges(uri, result),
        LspEvent::References { uri, result, .. } => text_and_json_charges(uri, result),
        LspEvent::DocumentSymbols { uri, result, .. } => text_and_json_charges(uri, result),
        LspEvent::Formatting { uri, result, .. } => text_and_json_charges(uri, result),
        LspEvent::WorkspaceSymbols { result, .. } => vec![json_charge(result)],
        LspEvent::RequestFailed { error, .. } => match &error.data {
            Some(data) => text_and_json_charges(&error.message, data),
            None => vec![text_charge(&error.message)],
        },
        LspEvent::StaleResponse { uri, .. } => vec![text_charge(uri)],
        LspEvent::StaleDiagnostics { uri, .. } => vec![text_charge(uri)],
        LspEvent::ServerNotification { method, params: Some(params) } => text_and_json_charges(
            method,
            params,
        ),
        LspEvent::ServerNotification { method, params: None } => vec![text_charge(method)],
        LspEvent::ServerRequestRejected { method } => vec![text_charge(method)],
        LspEvent::Stderr(bytes) => vec![Charge::Bytes(list_capacity(bytes))],
        LspEvent::ProtocolError(message) => vec![text_charge(message)],
        LspEvent::TransportError(message) => vec![text_charge(message)],
        LspEvent::StderrTruncated { .. } => Vec::new(),
        LspEvent::EventsDropped { .. } => Vec::new(),
        LspEvent::ShutdownComplete => Vec::new(),
        LspEvent::ServerClosed => Vec::new(),
    }
}

impl QueueWeight for LspEvent {
    open spec fn retains(&self, charges: Seq<Charge>) -> bool {
        event_retains(self@, charges)
    }

    open spec fn own_bytes() -> nat {
        size_of::<LspEvent>()
    }

    fn queue_weight(&self, limit: usize) -> (weight: usize) {
        let charges = event_charges(self);
        assert(self.retains(charges@));
        weigh(core::mem::size_of::<LspEvent>(), &charges, limit)
    }
}

impl LspEvent {
    /// Conservatively estimates heap bytes retained by this event using the
    /// same allocation-aware accounting as the bounded event queue.
    ///
    /// The result is capped at `MAX_QUEUE_BYTES + 1`; that final value is an
    /// overflow sentinel meaning the estimate exceeded the queue's hard byte
    /// ceiling.
    pub fn estimated_retained_bytes(&self) -> (bytes: usize)
        ensures
            weighs(*self, MAX_QUEUE_BYTES, bytes),
    {
        self.queue_weight(MAX_QUEUE_BYTES)
    }
}

/// What the protocol loop works on.
#[derive(Debug)]
pub enum ProtocolInput {
    Command(ClientCommand),
    ServerMessage(String),
    Stderr(Vec<u8>),
    StderrTruncated { limit: usize },
    TransportError(String),
    ServerClosed,
    ForceStop,
}

/// What a command retains; the command's own bytes come first.
pub open spec fn command_retains(command: ClientCommand, charges: Seq<Charge>) -> bool {
    &&& charges.len() > 0
    &&& charges[0] matches Charge::Bytes(own) && own == size_of::<ClientCommand>()
    &&& match command {
        ClientCommand::DidOpen { uri, language_id, text, .. } => charges.len() == 4 && for_text(
            charges[1],
            uri@,
        ) && for_text(charges[2], language_id@) && for_text(charges[3], text@),
        ClientCommand::DidChange { uri, text, .. } => charges.len() == 3 && for_text(
            charges[1],
            uri@,
        ) && for_text(charges[2], text@),
        ClientCommand::DidSave { uri, text: Some(text) } => charges.len() == 3 && for_text(
            charges[1],
            uri@,
        ) && for_text(charges[2], text@),
        ClientCommand::DidSave { uri, text: None } => charges.len() == 2 && for_text(
            charges[1],
            uri@,
        ),
        ClientCommand::DidClose { uri } => charges.len() == 2 && for_text(charges[1], uri@),
        ClientCommand::Request { scope: RequestScope::Document { uri, .. }, params, .. } =>
        charges.len() == 3 && for_text(charges[1], uri@) && for_json(charges[2], params@),
        ClientCommand::Request { scope: RequestScope::Workspace, params, .. } => charges.len() == 2
            && for_json(charges[1], params@),
        ClientCommand::CancelRequest { .. } => charges.len() == 1,
        ClientCommand::Shutdown { .. } => charges.len() == 1,
    }
}

/// The charges of a command.
pub fn command_charges(command: &ClientCommand) -> (charges: Vec<Charge>)
    ensures
        command_retains(*command, charges@),
{
    let own = Charge::Bytes(core::mem::size_of::<ClientCommand>());
    match command {
        ClientCommand::DidOpen { uri, language_id, text, .. } => vec![
            own,
            text_charge(uri),
            text_charge(language_id),
            text_charge(text),
        ],
        ClientCommand::DidChange { uri, text, .. } => vec![
            own,
            text_charge(uri),
            text_charge(text),
        ],
        ClientCommand::DidSave { uri, text: Some(text) } => vec![
            own,
            text_charge(uri),
            text_charge(text),
        ],
        ClientCommand::DidSave { uri, text: None } => vec![own, text_charge(uri)],
        ClientCommand::DidClose { uri } => vec![own, text_charge(uri)],
        ClientCommand::Request { scope: RequestScope::Document { uri, .. }, params, .. } => vec![
            own,
            text_charge(uri),
            json_charge(params),
        ],
        ClientCommand::Request { scope: RequestScope::Workspace, params, .. } => vec![
            own,
            json_charge(params),
        ],
        ClientCommand::CancelRequest { .. } => vec![own],
        ClientCommand::Shutdown { .. } => vec![own],
    }
}

impl QueueWeight for ProtocolInput {
    open spec fn retains(&self, charges: Seq<Charge>) -> bool {
        match *self {
            ProtocolInput::Command(command) => command_retains(command, charges),
            ProtocolInput::ServerMessage(message) => charges.len() == 1 && for_text(
                charges[0],
                message@,
            ),
            ProtocolInput::TransportError(message) => charges.len() == 1 && for_text(
                charges[0],
                message@,
            ),
            ProtocolInput::Stderr(bytes) => charges.len() == 1 && (charges[0] matches Charge::Bytes(
                capacity,
            ) && capacity >= bytes@.len()),
            ProtocolInput::StderrTruncated { .. } => charges.len() == 0,
            ProtocolInput::ServerClosed => charges.len() == 0,
            ProtocolInput::ForceStop => charges.len() == 0,
        }
    }

    open spec fn own_bytes() -> nat {
        size_of::<ProtocolInput>()
    }

    fn queue_weight(&self, limit: usize) -> (weight: usize) {
        let charges = match self {
            ProtocolInput::Command(command) => command_charges(command),
            ProtocolInput::ServerMessage(message) => vec![text_charge(message)],
            ProtocolInput::TransportError(message) => vec![text_charge(message)],
            ProtocolInput::Stderr(bytes) => vec![Charge::Bytes(list_capacity(bytes))],
            ProtocolInput::StderrTruncated { .. } => Vec::new(),
            ProtocolInput::ServerClosed => Vec::new(),
            ProtocolInput::ForceStop => Vec::new(),
        };
        assert(self.retains(charges@));
        weigh(core::mem::size_of::<ProtocolInput>(), &charges, limit)
    }
}

/// A weight never exceeds one more than the limit it was taken for.
pub proof fn law_weight_is_bounded<T: QueueWeight>(item: T, limit: usize, weight: usize)
    requires
        weighs(item, limit, weight),
    ensures
        weight <= limit + 1,
{
}

/// A queued item with what it takes from the budgets.
#[derive(Debug)]
pub struct QueueEnvelope<T> {
    pub item: T,
    pub weight: usize,
    /// Whether the item takes from the budgets; items in reserved slots do not.
    pub counted: bool,
}

/// Why an item was not queued.
#[derive(Debug)]
pub enum SendError<T> {
    Full(T),
    Disconnected(T),
}

/// A queue with budgets.
#[derive(Debug)]
pub struct BudgetedQueue<T> {
    entries: VecDeque<QueueEnvelope<T>>,
    bytes: usize,
    items: usize,
    max_bytes: usize,
    max_items: usize,
    slots: usize,
    connected: bool,
}

/// The bytes that queued items take from the budget.
pub open spec fn counted_bytes<T>(entries: Seq<QueueEnvelope<T>>) -> nat
    decreases entries.len(),
{
    if entries.len() == 0 {
        0
    } else {
        counted_bytes(entries.drop_last()) + (if entries.last().counted {
            entries.last().weight as nat
        } else {
            0
        })
    }
}

/// The items that take from the budget.
pub open spec fn counted_items<T>(entries: Seq<QueueEnvelope<T>>) -> nat
    decreases entries.len(),
{
    if entries.len() == 0 {
        0
    } else {
        counted_items(entries.drop_last()) + (if entries.last().counted {
            1nat
        } else {
            0
        })
    }
}

proof fn lemma_counted_front<T>(entries: Seq<QueueEnvelope<T>>)
    requires
        entries.len() > 0,
    ensures
        counted_bytes(entries) == counted_bytes(entries.drop_first()) + (if entries[0].counted {
            entries[0].weight as nat
        } else {
            0
        }),
        counted_items(entries) == counted_items(entries.drop_first()) + (if entries[0].counted {
            1nat
        } else {
            0
        }),
    decreases entries.len(),
{
    let rest = entries.drop_first();
    if entries.len() > 1 {
        lemma_counted_front(entries.drop_last());
        assert(entries.drop_last().drop_first() =~= rest.drop_last());
        assert(rest.last() == entries.last());
    } else {
        assert(entries.drop_last() =~= Seq::empty());
        assert(rest =~= Seq::empty());
    }
}

/// What a queue holds and how much it may hold.
pub struct QueueState<T> {
    pub entries: Seq<QueueEnvelope<T>>,
    pub max_bytes: nat,
    pub max_items: nat,
    pub slots: nat,
    pub connected: bool,
}

impl<T> QueueState<T> {
    /// The budgets and the slots are kept.
    pub open spec fn within_budget(self) -> bool {
        &&& counted_bytes(self.entries) <= self.max_bytes
        &&& counted_items(self.entries) <= self.max_items
        &&& self.entries.len() <= self.slots
    }

    /// Whether an ordinary item of this weight finds room in the budgets.
    pub open spec fn has_budget(self, weight: usize) -> bool {
        &&& counted_items(self.entries) < self.max_items
        &&& counted_bytes(self.entries) + weight <= self.max_bytes
    }

    /// Whether a slot is free.
    pub open spec fn has_slot(self) -> bool {
        self.entries.len() < self.slots
    }

    /// With one more item at the end.
    pub open spec fn pushed(self, item: T, weight: usize, counted: bool) -> Self {
        QueueState {
            entries: self.entries.push(QueueEnvelope { item, weight, counted }),
            ..self
        }
    }
}

impl<T> View for BudgetedQueue<T> {
    type V = QueueState<T>;

    closed spec fn view(&self) -> QueueState<T> {
        QueueState {
            entries: self.entries@,
            max_bytes: self.max_bytes as nat,
            max_items: self.max_items as nat,
            slots: self.slots as nat,
            connected: self.connected,
        }
    }
}

impl<T> BudgetedQueue<T> {
    /// The counters say what the queue holds, and the budgets are kept.
    pub closed spec fn valid(&self) -> bool {
        &&& self@.within_budget()
        &&& self.bytes == counted_bytes(self.entries@)
        &&& self.items == counted_items(self.entries@)
    }

    /// An empty queue for `max_items` ordinary items of `max_bytes` in all, with
    /// `control_reserve` slots more.
    pub fn new(max_items: usize, max_bytes: usize, control_reserve: usize) -> (queue: Self)
        ensures
            queue.valid(),
            queue@.entries == Seq::<QueueEnvelope<T>>::empty(),
            queue@.max_bytes == max_bytes,
            queue@.max_items == max_items,
            queue@.slots == ({
                let all = lesser(max_items + control_reserve, usize::MAX as int);
                if all > 1 {
                    all
                } else {
                    1
                }
            }),
            queue@.connected,
    {
        let all = max_items.saturating_add(control_reserve);
        let slots: usize = if all > 1 {
            all
        } else {
            1
        };
        BudgetedQueue {
            entries: VecDeque::new(),
            bytes: 0,
            items: 0,
            max_bytes,
            max_items,
            slots,
            connected: true,
        }
    }

    /// Whether an item of this weight finds room in the budgets.
    pub fn reserve(&self, weight: usize) -> (yes: bool)
        requires
            self.valid(),
        ensures
            yes == self@.has_budget(weight),
    {
        if weight > self.max_bytes || self.items >= self.max_items {
            return false;
        }
        match self.bytes.checked_add(weight) {
            Some(next) => next <= self.max_bytes,
            None => false,
        }
    }

    /// Queues an ordinary item of a known weight.
    pub fn send_weighed(&mut self, item: T, weight: usize) -> (sent: Result<(), SendError<T>>)
        requires
            old(self).valid(),
        ensures
            final(self).valid(),
            match sent {
                Ok(()) => old(self)@.has_budget(weight) && old(self)@.connected
                    && old(self)@.has_slot() && final(self)@ == old(self)@.pushed(
                    item,
                    weight,
                    true,
                ),
                Err(SendError::Full(back)) => back == item && final(self)@ == old(self)@ && (
                !old(self)@.has_budget(weight) || (old(self)@.connected && !old(self)@.has_slot())),
                Err(SendError::Disconnected(back)) => back == item && final(self)@ == old(self)@
                    && old(self)@.has_budget(weight) && !old(self)@.connected,
            },
    {
        if !self.reserve(weight) {
            return Err(SendError::Full(item));
        }
        if !self.connected {
            return Err(SendError::Disconnected(item));
        }
        if self.entries.len() >= self.slots {
            return Err(SendError::Full(item));
        }
        let ghost before = self.entries@;
        self.entries.push_back(QueueEnvelope { item, weight, counted: true });
        self.bytes = self.bytes + weight;
        self.items = self.items + 1;
        assert(self.entries@.drop_last() =~= before);
        Ok(())
    }

    /// Queues a tiny lifecycle item in any free slot, outside the budgets.
    pub fn try_send_control(&mut self, item: T) -> (sent: Result<(), SendError<T>>)
        requires
            old(self).valid(),
        ensures
            final(self).valid(),
            match sent {
                Ok(()) => old(self)@.connected && old(self)@.has_slot() && final(self)@ == old(
                    self,
                )@.pushed(item, 0, false),
                Err(SendError::Full(back)) => back == item && final(self)@ == old(self)@ && old(
                    self,
                )@.connected && !old(self)@.has_slot(),
                Err(SendError::Disconnected(back)) => back == item && final(self)@ == old(self)@
                    && !old(self)@.connected,
            },
    {
        if !self.connected {
            return Err(SendError::Disconnected(item));
        }
        if self.entries.len() >= self.slots {
            return Err(SendError::Full(item));
        }
        let ghost before = self.entries@;
        self.entries.push_back(QueueEnvelope { item, weight: 0, counted: false });
        assert(self.entries@.drop_last() =~= before);
        Ok(())
    }

    /// Takes the oldest item out and gives back what it took from the budgets.
    pub fn recv(&mut self) -> (item: Option<T>)
        requires
            old(self).valid(),
        ensures
            final(self).valid(),
            match item {
                Some(taken) => old(self)@.entries.len() > 0 && taken == old(self)@.entries[0].item
                    && final(self)@ == (QueueState {
                    entries: old(self)@.entries.drop_first(),
                    ..old(self)@
                }),
                None => old(self)@.entries.len() == 0 && final(self)@ == old(self)@,
            },
    {
        let ghost before = self.entries@;
        match self.entries.pop_front() {
            Some(envelope) => {
                proof {
                    lemma_counted_front(before);
                    assert(self.entries@ =~= before.drop_first());
                }
                if envelope.counted {
                    self.bytes = self.bytes - envelope.weight;
                    self.items = self.items - 1;
                }
                Some(envelope.item)
            },
            None => None,
        }
    }

    /// Whether nothing is queued.
    pub fn is_empty(&self) -> (yes: bool)
        ensures
            yes == (self@.entries.len() == 0),
    {
        self.entries.len() == 0
    }

    /// Drops what is queued and refuses everything from now on.
    pub fn disconnect(&mut self)
        requires
            old(self).valid(),
        ensures
            final(self).valid(),
            final(self)@ == (QueueState {
                entries: Seq::empty(),
                connected: false,
                ..old(self)@
            }),
    {
        self.entries = VecDeque::new();
        self.bytes = 0;
        self.items = 0;
        self.connected = false;
        assert(self.entries@ =~= Seq::empty());
    }
}

/// A queue never holds more than its budgets and slots allow.
pub proof fn law_queue_stays_within_budget<T>(queue: BudgetedQueue<T>)
    requires
        queue.valid(),
    ensures
        queue@.within_budget(),
{
}

/// Receiving an ordinary item gives back what it took: an item that weighs no
/// more finds room again.
pub proof fn law_receiving_releases_the_budget<T>(state: QueueState<T>, weight: usize)
    requires
        state.within_budget(),
        state.entries.len() > 0,
        state.entries[0].counted,
        weight <= state.entries[0].weight,
    ensures
        ({
            let after = QueueState { entries: state.entries.drop_first(), ..state };
            &&& counted_bytes(after.entries) + state.entries[0].weight == counted_bytes(
                state.entries,
            )
            &&& counted_items(after.entries) + 1 == counted_items(state.entries)
            &&& after.has_budget(weight)
            &&& after.has_slot()
        }),
{
    lemma_counted_front(state.entries);
}

/// Ordinary items never take the reserved slots: as long as fewer items than
/// the reserve came through it, another one can.
pub proof fn law_reserved_slots_stay_free<T>(state: QueueState<T>, reserve: nat)
    requires
        state.within_budget(),
        state.slots == state.max_items + reserve,
        state.entries.len() - counted_items(state.entries) < reserve,
    ensures
        state.has_slot(),
{
}

impl<T: QueueWeight> BudgetedQueue<T> {
    /// Weighs an ordinary item and queues it.
    pub fn try_send(&mut self, item: T) -> (sent: Result<(), SendError<T>>)
        requires
            old(self).valid(),
        ensures
            final(self).valid(),
            exists|weight: usize| #[trigger]
                weighs(item, old(self)@.max_bytes as usize, weight) && match sent {
                    Ok(()) => old(self)@.has_budget(weight) && old(self)@.connected
                        && old(self)@.has_slot() && final(self)@ == old(self)@.pushed(
                        item,
                        weight,
                        true,
                    ),
                    Err(SendError::Full(back)) => back == item && final(self)@ == old(self)@ && (
                    !old(self)@.has_budget(weight) || (old(self)@.connected && !old(
                        self,
                    )@.has_slot())),
                    Err(SendError::Disconnected(back)) => back == item && final(self)@ == old(
                        self,
                    )@ && old(self)@.has_budget(weight) && !old(self)@.connected,
                },
    {
        let weight = item.queue_weight(self.max_bytes);
        assert(weighs(item, self@.max_bytes as usize, weight));
        self.send_weighed(item, weight)
    }
}

/// The event side of a client: events go into the queue, and the number of
/// events that found no room is reported in a reserved slot as soon as one is
/// free.
#[derive(Debug)]
pub struct EventSink {
    pub queue: BudgetedQueue<LspEvent>,
    pub dropped: usize,
}

/// Whether the report of `dropped` lost events is due and finds a slot.
pub open spec fn report_fits(queue: QueueState<LspEvent>, dropped: usize) -> bool {
    dropped > 0 && queue.connected && queue.has_slot()
}

/// The queue and the number of unreported losses after a report was tried.
pub open spec fn after_report(queue: QueueState<LspEvent>, dropped: usize) -> (
    QueueState<LspEvent>,
    usize,
) {
    if report_fits(queue, dropped) {
        (queue.pushed(LspEvent::EventsDropped { count: dropped }, 0, false), 0)
    } else {
        (queue, dropped)
    }
}

/// One more loss, as far as the counter goes.
pub open spec fn one_more(dropped: usize) -> usize {
    if dropped < usize::MAX {
        (dropped + 1) as usize
    } else {
        dropped
    }
}

/// The queue and the number of unreported losses after an event of this weight
/// was emitted.
pub open spec fn after_emit(
    queue: QueueState<LspEvent>,
    dropped: usize,
    event: LspEvent,
    weight: usize,
) -> (QueueState<LspEvent>, usize) {
    let (reported, left) = after_report(queue, dropped);
    if left > 0 {
        (reported, one_more(left))
    } else if reported.has_budget(weight) && !reported.connected {
        (reported, left)
    } else if reported.has_budget(weight) && reported.has_slot() {
        (reported.pushed(event, weight, true), left)
    } else {
        after_report(reported, 1)
    }
}

impl EventSink {
    /// A sink for this queue with nothing lost yet.
    pub fn new(queue: BudgetedQueue<LspEvent>) -> (sink: Self)
        ensures
            sink.queue == queue,
            sink.dropped == 0,
    {
        EventSink { queue, dropped: 0 }
    }

    /// Reports lost events; true when no loss is left unreported.
    pub fn flush_dropped(&mut self) -> (clear: bool)
        requires
            old(self).queue.valid(),
        ensures
            final(self).queue.valid(),
            (final(self).queue@, final(self).dropped) == after_report(
                old(self).queue@,
                old(self).dropped,
            ),
            clear == (final(self).dropped == 0),
    {
        if self.dropped == 0 {
            return true;
        }
        match self.queue.try_send_control(LspEvent::EventsDropped { count: self.dropped }) {
            Ok(()) => {
                self.dropped = 0;
                true
            },
            Err(_) => false,
        }
    }

    /// Queues an event, or counts it as lost.
    pub fn emit(&mut self, event: LspEvent)
        requires
            old(self).queue.valid(),
        ensures
            final(self).queue.valid(),
            exists|weight: usize| #[trigger]
                weighs(event, old(self).queue@.max_bytes as usize, weight) && (
                final(self).queue@,
                final(self).dropped,
            ) == after_emit(old(self).queue@, old(self).dropped, event, weight),
    {
        let weight = event.queue_weight(self.queue.max_bytes);
        assert(weighs(event, self.queue@.max_bytes as usize, weight));
        self.emit_weighed(event, weight);
    }

    /// Queues an event of this weight, or counts it as lost.
    pub fn emit_weighed(&mut self, event: LspEvent, weight: usize)
        requires
            old(self).queue.valid(),
        ensures
            final(self).queue.valid(),
            (final(self).queue@, final(self).dropped) == after_emit(
                old(self).queue@,
                old(self).dropped,
                event,
                weight,
            ),
    {
        if !self.flush_dropped() {
            self.dropped = self.dropped.saturating_add(1);
            return;
        }
        match self.queue.send_weighed(event, weight) {
            Ok(()) => {},
            Err(SendError::Full(_)) => {
                self.dropped = self.dropped.saturating_add(1);
                // A lone event that exceeds the byte budget must still become
                // visible while the otherwise-empty queue has room for this
                // bounded marker.
                let _ = self.flush_dropped();
            },
            Err(SendError::Disconnected(_)) => {},
        }
    }
}

/// No event is lost in silence: as long as somebody listens, an event is queued,
/// or its loss is reported in the queue, or the loss is still to be reported.
pub proof fn law_losses_are_reported(
    queue: QueueState<LspEvent>,
    dropped: usize,
    event: LspEvent,
    weight: usize,
)
    requires
        queue.connected,
    ensures
        ({
            let (after, left) = after_emit(queue, dropped, event, weight);
            left > 0 || (after.entries.len() > 0 && (after.entries.last().item == event
                || after.entries.last().item is EventsDropped))
        }),
{
}

/// What a reader thread hands on of a chunk of diagnostics output.
#[derive(Clone, Copy, Debug, PartialEq, Eq, Structural)]
pub struct StderrStep {
    /// How many bytes of the chunk are kept.
    pub keep: usize,
    /// The bytes retained so far, this chunk among them.
    pub retained: usize,
    /// Whether the truncation is reported with this chunk.
    pub report: bool,
}

/// Retains at most `max` bytes in all and reports the first truncation.
pub fn stderr_step(max: usize, retained: usize, read: usize, reported: bool) -> (step: StderrStep)
    requires
        retained <= max,
    ensures
        step.keep == lesser(max - retained, read as int),
        step.retained == retained + step.keep,
        step.retained <= max,
        step.report == (step.keep < read && !reported),
{
    let available = max - retained;
    let keep = if available < read {
        available
    } else {
        read
    };
    StderrStep { keep, retained: retained + keep, report: keep < read && !reported }
}

} // verus!
