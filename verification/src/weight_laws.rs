//! What budgets promise: how values are weighed, and what is turned away before
//! it takes too much.
use vstd::layout::size_of;
use vstd::prelude::*;
use vstd::utf8::*;

use crate::diagnostic_cache::{
    estimate_of, holds_finding, raw_bytes, raw_items_bytes, raw_member_bytes, raw_members_bytes,
    total_diagnostics, Bucket, DiagnosticHeap,
};
use crate::json::{Json, JsonValue};
use crate::lsp_client::{any_nul, config_refusal, enqueued, LspServerConfig};
use crate::lsp_protocol::{settled_event, LspPhase, ProtocolAction};
use crate::lsp_queue::{
    after_report, charge_bytes, charge_too_deep, charges_bytes, charges_too_deep, counted_bytes,
    counted_items, covers, entries_bytes, items_bytes, one_more, shape_bytes, shape_height,
    weight_of, Charge, HeapShape, ProtocolInput, QueueEnvelope, QueueState,
};
use crate::lsp_types::{clamped, ClientError, Event, LspEvent};
use crate::lsp_ui::{items_nodes, member_nodes, members_nodes, node_count, raw_fits, Finding};
use crate::project::{read_limit_of, tree_read_limit_of, ReadRefusal, TreeEntry};
use crate::recovery::{after_size, JournalScan};

verus! {

/// Charges add up.
pub proof fn law_charges_add_up(charges: Seq<Charge>, bytes: usize)
    ensures
        charges_bytes(charges) == charges.fold_left(
            0int,
            |sum: int, charge: Charge| sum + charge_bytes(charge),
        ),
        charge_bytes(Charge::Bytes(bytes)) == bytes,
    decreases charges.len(),
{
    reveal_with_fuel(Seq::fold_left, 2);
    if charges.len() > 0 {
        law_charges_add_up(charges.drop_last(), bytes);
    }
}

/// A value is nested too deeply if it stands in more than 128 others, and one
/// such value is enough.
pub proof fn law_deep_values_are_told(charges: Seq<Charge>)
    ensures
        charges_too_deep(charges) <==> exists|i: int|
            0 <= i < charges.len() && (#[trigger] charges[i] matches Charge::Json(shape)
                && shape_height(shape) > 128),
    decreases charges.len(),
{
    if charges.len() > 0 {
        let front = charges.drop_last();
        law_deep_values_are_told(front);
        if charges_too_deep(front) {
            let i = choose|i: int|
                0 <= i < front.len() && (#[trigger] front[i] matches Charge::Json(shape)
                    && shape_height(shape) > 128);
            assert(charges[i] == front[i]);
        }
        if charge_too_deep(charges.last()) {
            assert(charges[charges.len() - 1] == charges.last());
        }
        if exists|i: int|
            0 <= i < charges.len() && (#[trigger] charges[i] matches Charge::Json(shape)
                && shape_height(shape) > 128) {
            let i = choose|i: int|
                0 <= i < charges.len() && (#[trigger] charges[i] matches Charge::Json(shape)
                    && shape_height(shape) > 128);
            if i < front.len() {
                assert(front[i] == charges[i]);
            }
        }
    }
}

/// Within the limit a value weighs its own bytes and its charges. Above the limit
/// it weighs too much, and so does a value that is nested too deeply.
pub proof fn law_weights_are_exact_within_the_limit(own: int, charges: Seq<Charge>, limit: usize)
    requires
        limit < usize::MAX,
    ensures
        !charges_too_deep(charges) && own + charges_bytes(charges) <= limit ==> weight_of(
            own,
            charges,
            limit,
        ) == own + charges_bytes(charges),
        !charges_too_deep(charges) && own + charges_bytes(charges) > limit ==> weight_of(
            own,
            charges,
            limit,
        ) == limit + 1,
        charges_too_deep(charges) ==> weight_of(own, charges, limit) == limit + 1,
{
}

/// A value is charged twice what it takes: itself, the capacity of its text or
/// its list, its items, and its keys and values with a tree node for each.
pub proof fn law_json_is_charged_twice(
    capacity: usize,
    items: Vec<HeapShape>,
    entries: Vec<(usize, HeapShape)>,
)
    ensures
        ({
            let own = 2 * size_of::<JsonValue>();
            let node = 20 * size_of::<usize>() + 11 * size_of::<String>() + 11 * size_of::<
                JsonValue,
            >();
            &&& shape_bytes(HeapShape::Scalar) == own
            &&& shape_bytes(HeapShape::Text(capacity)) == own + 2 * capacity
            &&& shape_bytes(HeapShape::List(capacity, items)) == own + 2 * (capacity * size_of::<
                JsonValue,
            >()) + items@.fold_left(0int, |sum: int, item: HeapShape| sum + shape_bytes(item))
            &&& shape_bytes(HeapShape::Table(entries)) == own + 2 * (vstd::math::max(
                1,
                entries@.len() as int,
            ) * node) + entries@.fold_left(
                0int,
                |sum: int, entry: (usize, HeapShape)| sum + 2 * entry.0 + shape_bytes(entry.1),
            )
        }),
{
    lemma_items_add_up(items@);
    lemma_entries_add_up(entries@);
}

proof fn lemma_items_add_up(items: Seq<HeapShape>)
    ensures
        items_bytes(items) == items.fold_left(
            0int,
            |sum: int, item: HeapShape| sum + shape_bytes(item),
        ),
    decreases items.len(),
{
    reveal_with_fuel(Seq::fold_left, 2);
    if items.len() > 0 {
        lemma_items_add_up(items.drop_last());
    }
}

proof fn lemma_entries_add_up(entries: Seq<(usize, HeapShape)>)
    ensures
        entries_bytes(entries) == entries.fold_left(
            0int,
            |sum: int, entry: (usize, HeapShape)| sum + 2 * entry.0 + shape_bytes(entry.1),
        ),
    decreases entries.len(),
{
    reveal_with_fuel(Seq::fold_left, 2);
    if entries.len() > 0 {
        lemma_entries_add_up(entries.drop_last());
    }
}

/// A text is charged at least its bytes.
pub proof fn law_text_is_charged(shape: HeapShape, text: Seq<char>)
    requires
        covers(shape, Json::Text(text)),
    ensures
        shape_bytes(shape) >= 2 * size_of::<JsonValue>() + 2 * encode_utf8(text).len(),
{
}

/// The raw JSON of a diagnostic takes the capacity of its texts; a number takes
/// twice its length and at least a word; a list, its slots and its items; and a
/// table, a tree node for each entry, its keys and its values.
pub proof fn law_raw_json_takes_its_capacities(
    text: Seq<char>,
    capacity: usize,
    list: Seq<Json>,
    shapes: Vec<HeapShape>,
    shape: HeapShape,
    flag: bool,
    members: Seq<(Seq<char>, Json)>,
    entries: Vec<(usize, HeapShape)>,
)
    ensures
        raw_bytes(Json::Null, shape) == 0,
        raw_bytes(Json::Bool(flag), shape) == 0,
        raw_bytes(Json::Text(text), HeapShape::Text(capacity)) == capacity,
        raw_bytes(Json::Number(text), shape) == vstd::math::max(
            2 * encode_utf8(text).len() as int,
            size_of::<usize>() as int,
        ),
        raw_bytes(Json::List(list), HeapShape::List(capacity, shapes)) == capacity * size_of::<
            JsonValue,
        >() + raw_items_bytes(list, shapes@),
        raw_bytes(Json::Table(members), HeapShape::Table(entries)) == vstd::math::max(
            1,
            members.len() as int,
        ) * (20 * size_of::<usize>() + 11 * size_of::<String>() + 11 * size_of::<JsonValue>())
            + raw_members_bytes(members, entries@),
{
}

/// Items take what each of them takes.
pub proof fn law_raw_items_add_up(
    items: Seq<Json>,
    item: Json,
    shapes: Seq<HeapShape>,
    shape: HeapShape,
)
    ensures
        raw_items_bytes(Seq::empty(), Seq::empty()) == 0,
        raw_items_bytes(items.push(item), shapes.push(shape)) == raw_items_bytes(items, shapes)
            + raw_bytes(item, shape),
{
    assert(items.push(item).drop_last() =~= items);
    assert(shapes.push(shape).drop_last() =~= shapes);
}

/// Members take what each key and each value takes.
pub proof fn law_raw_members_add_up(
    members: Seq<(Seq<char>, Json)>,
    key: Seq<char>,
    value: Json,
    entries: Seq<(usize, HeapShape)>,
    capacity: usize,
    shape: HeapShape,
)
    ensures
        raw_members_bytes(Seq::empty(), Seq::empty()) == 0,
        raw_members_bytes(members.push((key, value)), entries.push((capacity, shape)))
            == raw_members_bytes(members, entries) + capacity + raw_bytes(value, shape),
{
    assert(members.push((key, value)).drop_last() =~= members);
    assert(entries.push((capacity, shape)).drop_last() =~= entries);
    assert(members.push((key, value)).last() == (key, value));
    assert(raw_member_bytes((key, value), shape) == raw_bytes(value, shape));
}

/// A diagnostic is estimated at what its texts and its raw JSON take, which is at
/// least what they hold. Where that exceeds the limit there is no estimate.
pub proof fn law_diagnostics_are_estimated(heap: DiagnosticHeap, finding: Finding, limit: usize)
    requires
        limit < usize::MAX,
    ensures
        ({
            let bytes = heap.uri + heap.message + heap.source + raw_bytes(finding.raw, heap.raw);
            &&& raw_fits(finding.raw) && bytes <= limit ==> estimate_of(heap, finding, limit)
                == Some(bytes as usize)
            &&& !raw_fits(finding.raw) || bytes > limit ==> estimate_of(heap, finding, limit)
                is None
            &&& holds_finding(heap, finding) ==> bytes >= encode_utf8(finding.uri).len()
                + encode_utf8(finding.message).len()
        }),
{
}

/// A value consists of itself and its parts.
pub proof fn law_values_are_counted(
    items: Seq<Json>,
    item: Json,
    members: Seq<(Seq<char>, Json)>,
    key: Seq<char>,
    text: Seq<char>,
)
    ensures
        node_count(Json::Null) == 1,
        node_count(Json::Text(text)) == 1,
        node_count(Json::Number(text)) == 1,
        node_count(Json::List(Seq::empty())) == 1,
        node_count(Json::Table(Seq::empty())) == 1,
        node_count(Json::List(items.push(item))) == node_count(Json::List(items)) + node_count(
            item,
        ),
        node_count(Json::Table(members.push((key, item)))) == node_count(Json::Table(members))
            + node_count(item),
{
    reveal_with_fuel(items_nodes, 2);
    reveal_with_fuel(members_nodes, 2);
    assert(items.push(item).drop_last() =~= items);
    assert(members.push((key, item)).drop_last() =~= members);
    assert(members.push((key, item)).last() == (key, item));
    assert(member_nodes((key, item)) == node_count(item));
}

/// The diagnostics of a cache are those of its buckets.
pub proof fn law_diagnostics_are_counted(buckets: Seq<Bucket>)
    ensures
        total_diagnostics(buckets) == buckets.fold_left(
            0int,
            |sum: int, bucket: Bucket| sum + bucket.diagnostics.len(),
        ),
    decreases buckets.len(),
{
    reveal_with_fuel(Seq::fold_left, 2);
    if buckets.len() > 0 {
        law_diagnostics_are_counted(buckets.drop_last());
    }
}

/// Only ordinary items take from the budgets: each one item and its weight.
pub proof fn law_ordinary_items_take_from_the_budgets<T>(entries: Seq<QueueEnvelope<T>>)
    ensures
        counted_items(entries) == entries.filter(|entry: QueueEnvelope<T>| entry.counted).len(),
        counted_bytes(entries) == entries.fold_left(
            0int,
            |sum: int, entry: QueueEnvelope<T>|
                if entry.counted {
                    sum + entry.weight
                } else {
                    sum
                },
        ),
    decreases entries.len(),
{
    reveal(Seq::filter);
    reveal_with_fuel(Seq::fold_left, 2);
    if entries.len() > 0 {
        law_ordinary_items_take_from_the_budgets(entries.drop_last());
    }
}

/// There is room for an item if and only if the queue with it is still within
/// its budgets; and there is a slot if and only if the queue with it has no more
/// items than slots.
pub proof fn law_room_is_what_fits<T>(queue: QueueState<T>, item: T, weight: usize)
    requires
        queue.within_budget(),
    ensures
        ({
            let after = queue.pushed(item, weight, true);
            &&& after.entries.len() == queue.entries.len() + 1
            &&& after.entries.last().item == item
            &&& forall|i: int|
                0 <= i < queue.entries.len() ==> #[trigger] after.entries[i] == queue.entries[i]
            &&& queue.has_budget(weight) && queue.has_slot() <==> after.within_budget()
            &&& queue.has_slot() <==> after.entries.len() <= queue.slots
        }),
{
    let after = queue.pushed(item, weight, true);
    assert(after.entries.drop_last() =~= queue.entries);
}

/// A command is queued behind the others where there is room. Otherwise the queue
/// is full, or nobody receives any more.
pub proof fn law_commands_are_queued(
    queue: QueueState<ProtocolInput>,
    item: ProtocolInput,
    weight: usize,
)
    ensures
        ({
            let queued = enqueued(queue, item, weight);
            let room = queue.has_budget(weight) && queue.has_slot();
            &&& room && queue.connected ==> queued == Ok::<QueueState<ProtocolInput>, ClientError>(
                queue.pushed(item, weight, true),
            )
            &&& room && !queue.connected ==> queued == Err::<
                QueueState<ProtocolInput>,
                ClientError,
            >(ClientError::Stopped)
            &&& !queue.has_budget(weight) ==> queued == Err::<
                QueueState<ProtocolInput>,
                ClientError,
            >(ClientError::QueueFull)
            &&& !room && queue.connected ==> queued == Err::<
                QueueState<ProtocolInput>,
                ClientError,
            >(ClientError::QueueFull)
        }),
{
}

/// Losses are counted one by one. They are reported, all at once, as soon as
/// there is a slot.
pub proof fn law_losses_are_counted(queue: QueueState<LspEvent>, dropped: usize)
    ensures
        dropped < usize::MAX ==> one_more(dropped) == dropped + 1,
        one_more(usize::MAX) == usize::MAX,
        after_report(queue, 0) == (queue, 0usize),
        dropped > 0 && queue.connected && queue.has_slot() ==> after_report(queue, dropped).1 == 0,
        !(queue.connected && queue.has_slot()) ==> after_report(queue, dropped) == (queue, dropped),
{
}

/// A clamped value is within its bounds, and a value within them is kept.
pub proof fn law_clamped_values_are_within_bounds(value: usize, low: usize, high: usize)
    requires
        low <= high,
    ensures
        clamped(value, low, high) == vstd::math::max(
            low as int,
            vstd::math::min(value as int, high as int),
        ),
{
}

/// A journal is loaded if it has at most 128 MiB and all considered journals
/// together at most 256 MiB; otherwise the scan goes on with a warning about it.
pub proof fn law_scans_are_bounded(scan: JournalScan, path: Seq<u8>, bytes: u64)
    ensures
        ({
            let (after, limit) = after_size(scan, path, Ok(bytes));
            let fits = bytes <= 0x800_0000 && scan.considered_bytes + bytes <= 0x1000_0000;
            &&& after.records == scan.records
            &&& after.scanned_entries == scan.scanned_entries
            &&& fits ==> limit == Some(bytes) && after.considered_bytes == scan.considered_bytes
                + bytes && after.warnings == scan.warnings
            &&& !fits ==> limit is None && after.considered_bytes == scan.considered_bytes
                && after.warnings.len() == scan.warnings.len() + 1 && after.warnings.last().path
                == path
        }),
{
}

/// A file of a tree is read up to the limit; a directory or another path is not
/// read.
pub proof fn law_only_files_of_the_tree_are_read(
    tree: Seq<TreeEntry>,
    i: int,
    path: Seq<u8>,
    max_bytes: u64,
)
    ensures
        0 <= i < tree.len() && !tree[i].is_directory ==> tree_read_limit_of(
            tree,
            tree[i].path,
            max_bytes,
        ) == Ok::<u64, ReadRefusal>(read_limit_of(max_bytes)),
        (forall|k: int| 0 <= k < tree.len() ==> (#[trigger] tree[k]).path != path)
            ==> tree_read_limit_of(tree, path, max_bytes) == Err::<u64, ReadRefusal>(
            ReadRefusal::NotInTree,
        ),
        0 <= i < tree.len() && (forall|k: int|
            0 <= k < tree.len() && (#[trigger] tree[k]).path == tree[i].path
                ==> tree[k].is_directory) ==> tree_read_limit_of(tree, tree[i].path, max_bytes)
            == Err::<u64, ReadRefusal>(ReadRefusal::IsDirectory),
{
    if 0 <= i < tree.len() {
        let file = TreeEntry { path: tree[i].path, is_directory: false };
        if !tree[i].is_directory {
            assert(tree[i] == file);
            assert(tree.contains(tree[i]));
        }
        if tree.contains(file) {
            let k = choose|k: int| 0 <= k < tree.len() && tree[k] == file;
            assert(tree[k].path == tree[i].path && !tree[k].is_directory);
        }
    }
}

/// An event is told as it is. A message that could not be written is told where
/// that is to be reported, and one that was written is not told. That a server is
/// ready is told only while the session starts.
pub proof fn law_actions_are_settled(
    event: LspEvent,
    json: String,
    report: bool,
    message: String,
    phase: LspPhase,
    written: Result<(), String>,
)
    ensures
        settled_event(ProtocolAction::Emit(event), written, phase) == Some(event@),
        settled_event(ProtocolAction::Send { json, report_failure: report }, Ok(()), phase) is None,
        settled_event(ProtocolAction::Send { json, report_failure: true }, Err(message), phase)
            == Some(Event::TransportError(message@)),
        settled_event(ProtocolAction::Send { json, report_failure: false }, Err(message), phase)
            is None,
        settled_event(ProtocolAction::PublishReady(event), written, LspPhase::Starting) == Some(
            event@,
        ),
        phase != LspPhase::Starting ==> settled_event(
            ProtocolAction::PublishReady(event),
            written,
            phase,
        ) is None,
{
}

/// A server is started from a non-empty executable, with arguments without NUL
/// bytes, in a directory.
pub proof fn law_configurations_are_checked(
    config: LspServerConfig,
    root_is_directory: bool,
    i: int,
    k: int,
)
    ensures
        config_refusal(config, root_is_directory) is None ==> {
            &&& config.argv@.len() > 0
            &&& config.argv@[0]@.len() > 0
            &&& root_is_directory
            &&& 0 <= i < config.argv@.len() && 0 <= k < config.argv@[i]@.len()
                ==> config.argv@[i]@[k] != 0
        },
        config_refusal(config, root_is_directory) matches Some(error) ==> error is InvalidConfig,
        config.argv@.len() > 0 && config.argv@[0]@.len() > 0 && root_is_directory && (forall|a: int,
            b: int|
            0 <= a < config.argv@.len() && 0 <= b < config.argv@[a]@.len() ==> #[trigger]
            config.argv@[a]@[b] != 0) ==> config_refusal(config, root_is_directory) is None,
{
    let argv = config.argv@;
    if 0 <= i < argv.len() && 0 <= k < argv[i]@.len() && argv[i]@[k] == 0 {
        assert(argv[i]@.contains(argv[i]@[k]));
    }
    if any_nul(argv) {
        let a = choose|a: int| 0 <= a < argv.len() && (#[trigger] argv[a])@.contains(0);
        let b = choose|b: int| 0 <= b < argv[a]@.len() && argv[a]@[b] == 0;
        assert(argv[a]@[b] == 0);
    }
}

} // verus!
