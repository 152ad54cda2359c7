//! Published diagnostics by URI, within a byte budget: the least recently used
//! URI is forgotten first.
use vstd::layout::size_of;
use vstd::prelude::*;

use crate::json::{json_of, lemma_list_of, lemma_members, list_of, Json, JsonObject, JsonValue};
use crate::lsp_queue::{
    btree_queue_object_allocation_estimate, covers, items_covered, json_shape, lesser,
    member_covered, members_covered, saturating_product, table_bytes, text_capacity, HeapShape,
};
use crate::lsp_session::{at, RetentionStatus};
use crate::lsp_ui::{
    diagnostic_raw_within_bounds, diagnostic_uri_is_valid, findings_of, published_uri_is_valid,
    raw_fits, Diagnostic, Finding,
};
use crate::recency::{
    first_of, lemma_first, lemma_first_in_range, lemma_ordered_prefix, lemma_rank, lemma_rank_bound, lemma_rank_without,
    ordered_by, rank,
};
use crate::text::{
    byte_len, lemma_text_order_total, lemma_text_order_transitive, lemma_utf8_len_bounds, order_of,
    same_text, text_before, utf8_len, TextOrder,
};

verus! {

/// Maximum diagnostic URI buckets retained for one service.
pub const MAX_DIAGNOSTIC_URI_BUCKETS: usize = 128;

/// Maximum diagnostics retained from one publication URI.
pub const MAX_DIAGNOSTICS_PER_URI: usize = 1_024;

/// Maximum aggregate retained diagnostic estimate for one service.
pub const MAX_DIAGNOSTIC_RETAINED_BYTES: usize = 8 * 1024 * 1024;

/// `String::shrink_to_fit`: the text stays the same.
#[verifier::external_body]
fn shrink_text(text: &mut String)
    ensures
        final(text)@ == old(text)@,
{
    text.shrink_to_fit()
}

/// `Vec::shrink_to_fit`: the items stay the same.
#[verifier::external_body]
fn shrink_list(items: &mut Vec<Diagnostic>)
    ensures
        final(items)@ == old(items)@,
{
    items.shrink_to_fit()
}

/// The bytes that the parts of a JSON value retain, with these capacities. A
/// number is charged twice its length, and at least one word; a table, one
/// full tree node for each entry, and at least one.
pub open spec fn raw_bytes(value: Json, shape: HeapShape) -> nat
    decreases value,
{
    match (value, shape) {
        (Json::Number(text), _) => if 2 * utf8_len(text) > size_of::<usize>() {
            2 * utf8_len(text)
        } else {
            size_of::<usize>()
        },
        (Json::Text(_), HeapShape::Text(capacity)) => capacity as nat,
        (Json::List(items), HeapShape::List(capacity, shapes)) => capacity as nat * size_of::<
            JsonValue,
        >() + raw_items_bytes(items, shapes@),
        (Json::Table(members), HeapShape::Table(entries)) => table_bytes(members.len())
            + raw_members_bytes(members, entries@),
        _ => 0,
    }
}

/// The bytes that items retain.
pub open spec fn raw_items_bytes(items: Seq<Json>, shapes: Seq<HeapShape>) -> nat
    decreases items,
{
    if items.len() == 0 {
        0
    } else {
        raw_items_bytes(items.drop_last(), shapes.drop_last()) + raw_bytes(
            items.last(),
            shapes.last(),
        )
    }
}

/// The bytes that keys and their values retain.
pub open spec fn raw_members_bytes(
    members: Seq<(Seq<char>, Json)>,
    entries: Seq<(usize, HeapShape)>,
) -> nat
    decreases members,
{
    if members.len() == 0 {
        0
    } else {
        raw_members_bytes(members.drop_last(), entries.drop_last()) + entries.last().0 as nat
            + raw_member_bytes(members.last(), entries.last().1)
    }
}

/// The bytes that the value of a member retains.
pub open spec fn raw_member_bytes(member: (Seq<char>, Json), shape: HeapShape) -> nat
    decreases member,
{
    raw_bytes(member.1, shape)
}

/// The capacities of what a diagnostic holds.
#[derive(Debug)]
pub struct DiagnosticHeap {
    pub uri: usize,
    pub message: usize,
    pub source: usize,
    pub raw: HeapShape,
}

/// Whether capacities may be those of a diagnostic.
pub open spec fn holds_finding(heap: DiagnosticHeap, finding: Finding) -> bool {
    &&& heap.uri >= utf8_len(finding.uri)
    &&& heap.message >= utf8_len(finding.message)
    &&& match finding.source {
        Some(source) => heap.source >= utf8_len(source),
        None => heap.source == 0,
    }
    &&& covers(heap.raw, finding.raw)
}

/// The bytes that a diagnostic retains beside itself.
pub open spec fn heap_bytes(heap: DiagnosticHeap, finding: Finding) -> nat {
    (heap.uri + heap.message + heap.source + raw_bytes(finding.raw, heap.raw)) as nat
}

/// The estimate for a diagnostic: none where its raw JSON exceeds a ceiling,
/// or where the bytes exceed the limit. Counting stops at the largest number.
pub open spec fn estimate_of(heap: DiagnosticHeap, finding: Finding, limit: usize) -> Option<
    usize,
> {
    let bytes = lesser(heap_bytes(heap, finding) as int, usize::MAX as int);
    if raw_fits(finding.raw) && bytes <= limit {
        Some(bytes as usize)
    } else {
        None
    }
}

/// Whether `estimate` is the estimate for a diagnostic, with capacities that
/// an allocator may have given.
pub open spec fn may_estimate(finding: Finding, limit: usize, estimate: Option<usize>) -> bool {
    exists|heap: DiagnosticHeap| #[trigger]
        holds_finding(heap, finding) && estimate == estimate_of(heap, finding, limit)
}

fn saturating_sum(a: usize, b: usize) -> (sum: usize)
    ensures
        sum == lesser(a + b, usize::MAX as int),
{
    a.saturating_add(b)
}

fn raw_estimate(value: &JsonValue, shape: &HeapShape) -> (bytes: usize)
    requires
        covers(*shape, value@),
    ensures
        bytes == lesser(raw_bytes(value@, *shape) as int, usize::MAX as int),
    decreases value,
{
    match (value, shape) {
        (JsonValue::Number(number), _) => {
            proof {
                crate::json::lemma_spelling(*number);
            }
            let double = saturating_product(byte_len(number.text.as_str()), 2);
            let word = core::mem::size_of::<usize>();
            if double > word {
                double
            } else {
                word
            }
        },
        (JsonValue::String(_), HeapShape::Text(capacity)) => *capacity,
        (JsonValue::Array(items), HeapShape::List(capacity, shapes)) => {
            proof {
                lemma_list_of(items@);
            }
            let room = saturating_product(*capacity, core::mem::size_of::<JsonValue>());
            saturating_sum(room, items_estimate(items, shapes))
        },
        (JsonValue::Object(object), HeapShape::Table(entries)) => {
            proof {
                lemma_members(*object);
            }
            let nodes = btree_object_allocation_estimate(object.len());
            saturating_sum(nodes, members_estimate(object, entries))
        },
        _ => 0,
    }
}

fn items_estimate(items: &Vec<JsonValue>, shapes: &Vec<HeapShape>) -> (bytes: usize)
    requires
        items_covered(shapes@, list_of(items@)),
    ensures
        bytes == lesser(raw_items_bytes(list_of(items@), shapes@) as int, usize::MAX as int),
    decreases items,
{
    let ghost list = list_of(items@);
    let mut bytes: usize = 0;
    let mut i: usize = 0;
    proof {
        lemma_list_of(items@);
        assert(list.take(0) =~= Seq::<Json>::empty());
    }
    while i < items.len()
        invariant
            i <= items@.len() == list.len(),
            shapes@.len() == list.len(),
            items_covered(shapes@, list),
            list == list_of(items@),
            forall|k: int| 0 <= k < items@.len() ==> #[trigger] list[k] == json_of(items@[k]),
            bytes == lesser(
                raw_items_bytes(list.take(i as int), shapes@.take(i as int)) as int,
                usize::MAX as int,
            ),
        decreases items@.len() - i,
    {
        proof {
            lemma_item_covered(shapes@, list, i as int);
            assert(list.take(i + 1).drop_last() =~= list.take(i as int));
            assert(shapes@.take(i + 1).drop_last() =~= shapes@.take(i as int));
            assert(list.take(i + 1).last() == list[i as int]);
            assert(shapes@.take(i + 1).last() == shapes@[i as int]);
        }
        bytes = saturating_sum(bytes, raw_estimate(&items[i], &shapes[i]));
        i += 1;
    }
    proof {
        assert(list.take(i as int) =~= list);
        assert(shapes@.take(i as int) =~= shapes@);
    }
    bytes
}

proof fn lemma_item_covered(shapes: Seq<HeapShape>, items: Seq<Json>, i: int)
    requires
        items_covered(shapes, items),
        0 <= i < items.len(),
    ensures
        covers(shapes[i], items[i]),
    decreases items.len(),
{
    if i < items.len() - 1 {
        lemma_item_covered(shapes.drop_last(), items.drop_last(), i);
    }
}

fn members_estimate(object: &JsonObject, entries: &Vec<(usize, HeapShape)>) -> (bytes: usize)
    requires
        members_covered(entries@, object@),
    ensures
        bytes == lesser(raw_members_bytes(object@, entries@) as int, usize::MAX as int),
    decreases object,
{
    let ghost members = object@;
    let own = &object.entries;
    let mut bytes: usize = 0;
    let mut i: usize = 0;
    proof {
        lemma_members(*object);
        assert(members.take(0) =~= Seq::<(Seq<char>, Json)>::empty());
    }
    while i < own.len()
        invariant
            i <= own@.len() == members.len(),
            entries@.len() == members.len(),
            members_covered(entries@, members),
            members == object@,
            *own == object.entries,
            forall|k: int|
                0 <= k < own@.len() ==> #[trigger] members[k] == (own@[k].0@, json_of(own@[k].1)),
            bytes == lesser(
                raw_members_bytes(members.take(i as int), entries@.take(i as int)) as int,
                usize::MAX as int,
            ),
        decreases own@.len() - i,
    {
        proof {
            lemma_member_covered(entries@, members, i as int);
            assert(members.take(i + 1).drop_last() =~= members.take(i as int));
            assert(entries@.take(i + 1).drop_last() =~= entries@.take(i as int));
            assert(members.take(i + 1).last() == members[i as int]);
            assert(entries@.take(i + 1).last() == entries@[i as int]);
            assert(raw_member_bytes(members[i as int], entries@[i as int].1) == raw_bytes(
                json_of(own@[i as int].1),
                entries@[i as int].1,
            ));
            assert(decreases_to!(object => own@[i as int].1));
        }
        bytes = saturating_sum(bytes, entries[i].0);
        bytes = saturating_sum(bytes, raw_estimate(&own[i].1, &entries[i].1));
        i += 1;
    }
    proof {
        assert(members.take(i as int) =~= members);
        assert(entries@.take(i as int) =~= entries@);
    }
    bytes
}

proof fn lemma_member_covered(
    entries: Seq<(usize, HeapShape)>,
    members: Seq<(Seq<char>, Json)>,
    i: int,
)
    requires
        members_covered(entries, members),
        0 <= i < members.len(),
    ensures
        covers(entries[i].1, members[i].1),
    decreases members.len(),
{
    if i < members.len() - 1 {
        lemma_member_covered(entries.drop_last(), members.drop_last(), i);
    } else {
        assert(member_covered(entries.last().1, members.last()));
    }
}

/// The standard tree layout stores several slots in a node, and does not tell
/// how many are filled: one full node is charged for each entry, and one for an
/// empty object.
pub fn btree_object_allocation_estimate(entries: usize) -> (bytes: usize)
    ensures
        bytes == lesser(table_bytes(entries as nat) as int, usize::MAX as int),
{
    btree_queue_object_allocation_estimate(entries)
}

/// The estimate for a diagnostic with these capacities.
pub fn heap_estimate(diagnostic: &Diagnostic, heap: &DiagnosticHeap, limit: usize) -> (estimate:
    Option<usize>)
    requires
        covers(heap.raw, diagnostic@.raw),
    ensures
        estimate == estimate_of(*heap, diagnostic@, limit),
{
    if !diagnostic_raw_within_bounds(&diagnostic.raw) {
        return None;
    }
    let raw = raw_estimate(&diagnostic.raw, &heap.raw);
    let total = saturating_sum(
        saturating_sum(saturating_sum(heap.uri, heap.message), heap.source),
        raw,
    );
    if total > limit {
        None
    } else {
        Some(total)
    }
}

/// Estimate heap bytes uniquely retained beneath one diagnostic while
/// independently enforcing the raw JSON byte, node, and depth ceilings.
///
/// The inline `Diagnostic` itself is accounted for by its bucket's vector.
/// Capacities are those that an allocator gave: at least the content.
pub fn diagnostic_heap_estimate(diagnostic: &Diagnostic, limit: usize) -> (estimate: Option<usize>)
    ensures
        may_estimate(diagnostic@, limit, estimate),
{
    let heap = DiagnosticHeap {
        uri: text_capacity(&diagnostic.uri),
        message: text_capacity(&diagnostic.message),
        source: match &diagnostic.source {
            Some(source) => text_capacity(source),
            None => 0,
        },
        raw: json_shape(&diagnostic.raw),
    };
    assert(holds_finding(heap, diagnostic@));
    heap_estimate(diagnostic, &heap, limit)
}

/// The diagnostics of one URI.
#[derive(Debug)]
pub struct DiagnosticBucket {
    pub uri: String,
    pub diagnostics: Vec<Diagnostic>,
    pub activity_ordinal: u64,
    pub retained_estimate_bytes: usize,
}

/// The content of a [`DiagnosticBucket`].
#[verifier::ext_equal]
pub struct Bucket {
    pub uri: Seq<char>,
    pub diagnostics: Seq<Finding>,
    pub activity: u64,
    pub bytes: usize,
}

impl View for DiagnosticBucket {
    type V = Bucket;

    open spec fn view(&self) -> Bucket {
        Bucket {
            uri: self.uri@,
            diagnostics: findings_of(self.diagnostics@),
            activity: self.activity_ordinal,
            bytes: self.retained_estimate_bytes,
        }
    }
}

/// Outcome of replacing one URI's diagnostics.
#[derive(Clone, Copy, Debug, PartialEq, Eq, Structural)]
pub struct DiagnosticReplaceReport {
    /// Diagnostics supplied by the caller before any bounds are applied.
    pub received: usize,
    /// Diagnostics retained for this URI after the replacement.
    pub retained: usize,
    /// Supplied diagnostics omitted by per-URI, URI-consistency, or byte bounds.
    pub dropped: usize,
    /// Whether any supplied diagnostic was omitted.
    pub truncated: bool,
    /// Other URI buckets evicted to satisfy count or aggregate-byte bounds.
    pub evicted_buckets: usize,
    /// Diagnostics contained by the evicted buckets.
    pub evicted_diagnostics: usize,
    /// Cache-wide completeness after this replacement.
    pub retention: RetentionStatus,
}

impl Default for DiagnosticReplaceReport {
    fn default() -> (report: Self)
        ensures
            report == (DiagnosticReplaceReport {
                received: 0,
                retained: 0,
                dropped: 0,
                truncated: false,
                evicted_buckets: 0,
                evicted_diagnostics: 0,
                retention: RetentionStatus::Complete,
            }),
    {
        DiagnosticReplaceReport {
            received: 0,
            retained: 0,
            dropped: 0,
            truncated: false,
            evicted_buckets: 0,
            evicted_diagnostics: 0,
            retention: RetentionStatus::Complete,
        }
    }
}

impl DiagnosticReplaceReport {
    /// Whether the cache is incomplete.
    pub fn is_partial(self) -> (yes: bool)
        ensures
            yes == (self.retention is Partial),
    {
        self.retention.is_partial()
    }
}

/// Bounded diagnostic cache for one language-server service.
#[derive(Debug)]
pub struct DiagnosticCache {
    pub buckets: Vec<DiagnosticBucket>,
    pub retained_estimate_bytes: usize,
    pub next_activity_ordinal: u64,
    pub retention: RetentionStatus,
}

/// The content of a cache.
#[verifier::ext_equal]
pub struct CacheState {
    pub buckets: Seq<Bucket>,
    pub bytes: usize,
    pub next: u64,
    pub retention: RetentionStatus,
}

/// The contents of buckets.
pub open spec fn buckets_of(buckets: Seq<DiagnosticBucket>) -> Seq<Bucket> {
    buckets.map_values(|bucket: DiagnosticBucket| bucket@)
}

impl View for DiagnosticCache {
    type V = CacheState;

    open spec fn view(&self) -> CacheState {
        CacheState {
            buckets: buckets_of(self.buckets@),
            bytes: self.retained_estimate_bytes,
            next: self.next_activity_ordinal,
            retention: self.retention,
        }
    }
}

/// Which of two buckets was used longer ago; of two that were used at the same
/// time, the one whose URI comes first.
pub open spec fn less_used() -> spec_fn(Bucket, Bucket) -> bool {
    |a: Bucket, b: Bucket|
        a.activity < b.activity || (a.activity == b.activity && text_before(a.uri, b.uri))
}

/// The bytes of all buckets.
pub open spec fn total_bytes(buckets: Seq<Bucket>) -> int
    decreases buckets.len(),
{
    if buckets.len() == 0 {
        0
    } else {
        total_bytes(buckets.drop_last()) + buckets.last().bytes
    }
}

/// The diagnostics of all buckets.
pub open spec fn total_diagnostics(buckets: Seq<Bucket>) -> int
    decreases buckets.len(),
{
    if buckets.len() == 0 {
        0
    } else {
        total_diagnostics(buckets.drop_last()) + buckets.last().diagnostics.len()
    }
}

/// Whether no URI occurs twice.
pub open spec fn distinct_buckets(buckets: Seq<Bucket>) -> bool {
    forall|i: int, j: int|
        0 <= i < j < buckets.len() ==> (#[trigger] buckets[i]).uri != (#[trigger] buckets[j]).uri
}

/// Whether a bucket has a valid URI and some diagnostics, all of that URI, and
/// takes some bytes.
pub open spec fn bucket_holds(bucket: Bucket) -> bool {
    &&& published_uri_is_valid(bucket.uri)
    &&& 0 < bucket.bytes
    &&& 0 < bucket.diagnostics.len() <= MAX_DIAGNOSTICS_PER_URI
    &&& forall|i: int|
        0 <= i < bucket.diagnostics.len() ==> (#[trigger] bucket.diagnostics[i]).uri == bucket.uri
}

/// What always holds of a cache: its buckets are few, distinct and valid, and
/// the bytes are those of the buckets and within the budget.
pub open spec fn cache_holds(state: CacheState) -> bool {
    &&& state.buckets.len() <= MAX_DIAGNOSTIC_URI_BUCKETS
    &&& distinct_buckets(state.buckets)
    &&& forall|i: int| 0 <= i < state.buckets.len() ==> bucket_holds(#[trigger] state.buckets[i])
    &&& forall|i: int|
        0 <= i < state.buckets.len() ==> (#[trigger] state.buckets[i]).activity < state.next
    &&& state.bytes == total_bytes(state.buckets)
    &&& state.bytes <= MAX_DIAGNOSTIC_RETAINED_BYTES
}

/// The index of the bucket of a URI, or the length where there is none.
pub open spec fn bucket_index(buckets: Seq<Bucket>, uri: Seq<char>) -> int
    decreases buckets.len(),
{
    if buckets.len() == 0 {
        0
    } else if buckets[0].uri == uri {
        0
    } else {
        1 + bucket_index(buckets.drop_first(), uri)
    }
}

/// The diagnostics that a cache holds for a URI.
pub open spec fn cached(state: CacheState, uri: Seq<char>) -> Option<Seq<Finding>> {
    match at(state.buckets, bucket_index(state.buckets, uri)) {
        Some(bucket) => Some(bucket.diagnostics),
        None => None,
    }
}

/// The index of a URI's bucket, in other words: it is the first one.
pub proof fn lemma_bucket_index(buckets: Seq<Bucket>, uri: Seq<char>)
    ensures
        0 <= bucket_index(buckets, uri) <= buckets.len(),
        bucket_index(buckets, uri) < buckets.len() ==> buckets[bucket_index(buckets, uri)].uri
            == uri,
        forall|k: int| 0 <= k < bucket_index(buckets, uri) ==> (#[trigger] buckets[k]).uri != uri,
    decreases buckets.len(),
{
    if buckets.len() > 0 && buckets[0].uri != uri {
        let rest = buckets.drop_first();
        lemma_bucket_index(rest, uri);
        assert forall|k: int| 0 <= k < bucket_index(buckets, uri) implies (
        #[trigger] buckets[k]).uri != uri by {
            if k > 0 {
                assert(rest[k - 1] == buckets[k]);
            }
        }
    }
}

/// Buckets whose ordinals are their ranks, from one on.
pub open spec fn rebased_buckets(buckets: Seq<Bucket>) -> Seq<Bucket> {
    Seq::new(
        buckets.len(),
        |i: int|
            Bucket {
                activity: (rank(buckets, less_used(), buckets[i]) + 1) as u64,
                ..buckets[i]
            },
    )
}

/// A cache whose next ordinal can be given out.
pub open spec fn ready_cache(state: CacheState) -> CacheState {
    if state.next == 0 || state.next == u64::MAX {
        CacheState {
            buckets: rebased_buckets(state.buckets),
            next: (state.buckets.len() + 1) as u64,
            ..state
        }
    } else {
        state
    }
}

/// A cache after its next ordinal was given out.
pub open spec fn ticked_cache(state: CacheState) -> CacheState {
    CacheState { next: (ready_cache(state).next + 1) as u64, ..ready_cache(state) }
}

/// A cache without the bucket at an index.
pub open spec fn without_bucket(state: CacheState, index: int) -> CacheState {
    CacheState {
        buckets: state.buckets.remove(index),
        bytes: (state.bytes - state.buckets[index].bytes) as usize,
        ..state
    }
}

/// A cache without the bucket of a URI.
pub open spec fn purged(state: CacheState, uri: Seq<char>) -> CacheState {
    let index = bucket_index(state.buckets, uri);
    if index < state.buckets.len() {
        without_bucket(state, index)
    } else {
        state
    }
}

/// A cache after a bucket was used.
pub open spec fn used(state: CacheState, index: int) -> CacheState {
    let ready_state = ready_cache(state);
    CacheState {
        buckets: ready_state.buckets.update(
            index,
            Bucket { activity: ready_state.next, ..ready_state.buckets[index] },
        ),
        ..ticked_cache(state)
    }
}

/// The diagnostics kept of a publication and the bytes beneath them.
pub struct Kept {
    pub items: Seq<Finding>,
    pub heap: int,
}

/// The bytes of a bucket with so many diagnostics.
pub open spec fn bucket_bytes(base: int, count: int, heap: int) -> int {
    base + count * size_of::<Diagnostic>() + heap
}

/// What is kept of the diagnostics inspected so far: those of the URI whose
/// estimate exists and still fits into the budget.
pub open spec fn kept_of(
    uri: Seq<char>,
    base: int,
    findings: Seq<Finding>,
    estimates: Seq<Option<usize>>,
) -> Kept
    decreases findings.len(),
{
    if findings.len() == 0 {
        Kept { items: Seq::empty(), heap: 0 }
    } else {
        let kept = kept_of(uri, base, findings.drop_last(), estimates.drop_last());
        match estimates.last() {
            Some(bytes) => if findings.last().uri == uri && bucket_bytes(
                base,
                kept.items.len() as int + 1,
                kept.heap + bytes,
            ) <= MAX_DIAGNOSTIC_RETAINED_BYTES {
                Kept { items: kept.items.push(findings.last()), heap: kept.heap + bytes }
            } else {
                kept
            },
            None => kept,
        }
    }
}

/// A cache after its least recently used buckets left, until a bucket of
/// `bytes` bytes fits.
pub open spec fn with_bucket_room(state: CacheState, bytes: int) -> CacheState
    decreases state.buckets.len(),
    via with_bucket_room_ends
{
    if state.buckets.len() > 0 && (state.buckets.len() >= MAX_DIAGNOSTIC_URI_BUCKETS || state.bytes
        + bytes > MAX_DIAGNOSTIC_RETAINED_BYTES) {
        with_bucket_room(
            CacheState {
                retention: RetentionStatus::Partial,
                ..without_bucket(state, first_of(state.buckets, less_used()))
            },
            bytes,
        )
    } else {
        state
    }
}

#[via_fn]
proof fn with_bucket_room_ends(state: CacheState, bytes: int) {
    if state.buckets.len() > 0 {
        lemma_first_in_range(state.buckets, less_used());
    }
}

/// The diagnostics of a publication that are inspected.
pub open spec fn inspected(findings: Seq<Finding>) -> Seq<Finding> {
    findings.take(
        if findings.len() < MAX_DIAGNOSTICS_PER_URI {
            findings.len() as int
        } else {
            MAX_DIAGNOSTICS_PER_URI as int
        },
    )
}

/// Whether a bucket of this URI may take `base` bytes without its diagnostics,
/// and the diagnostics of this URI may have these estimates.
pub open spec fn may_weigh(
    uri: Seq<char>,
    findings: Seq<Finding>,
    base: int,
    estimates: Seq<Option<usize>>,
) -> bool {
    &&& lesser((size_of::<DiagnosticBucket>() + utf8_len(uri)) as int, usize::MAX as int) <= base
        <= usize::MAX
    &&& estimates.len() == inspected(findings).len()
    &&& forall|i: int|
        0 <= i < estimates.len() && inspected(findings)[i].uri == uri ==> may_estimate(
            inspected(findings)[i],
            MAX_DIAGNOSTIC_RETAINED_BYTES,
            #[trigger] estimates[i],
        )
}

/// A retention status after something was or was not lost.
pub open spec fn lost(retention: RetentionStatus, loss: bool) -> RetentionStatus {
    if loss {
        RetentionStatus::Partial
    } else {
        retention
    }
}

/// A cache after the diagnostics of a URI were replaced.
pub open spec fn replaced(
    state: CacheState,
    uri: Seq<char>,
    findings: Seq<Finding>,
    base: int,
    estimates: Seq<Option<usize>>,
) -> CacheState {
    if !published_uri_is_valid(uri) {
        CacheState { retention: RetentionStatus::Partial, ..state }
    } else {
        let kept = kept_of(uri, base, inspected(findings), estimates);
        let rest = CacheState {
            retention: lost(state.retention, kept.items.len() < findings.len()),
            ..purged(state, uri)
        };
        if kept.items.len() == 0 {
            rest
        } else {
            let bytes = bucket_bytes(base, kept.items.len() as int, kept.heap);
            let room = with_bucket_room(rest, bytes);
            CacheState {
                buckets: ready_cache(room).buckets.push(
                    Bucket {
                        uri,
                        diagnostics: kept.items,
                        activity: ready_cache(room).next,
                        bytes: bytes as usize,
                    },
                ),
                bytes: (room.bytes + bytes) as usize,
                ..ticked_cache(room)
            }
        }
    }
}

/// The report on a replacement.
pub open spec fn replace_report(
    state: CacheState,
    uri: Seq<char>,
    findings: Seq<Finding>,
    base: int,
    estimates: Seq<Option<usize>>,
) -> DiagnosticReplaceReport {
    let after = replaced(state, uri, findings, base, estimates);
    let kept = if published_uri_is_valid(uri) {
        kept_of(uri, base, inspected(findings), estimates).items.len() as int
    } else {
        0
    };
    let others = if published_uri_is_valid(uri) {
        purged(state, uri).buckets
    } else {
        state.buckets
    };
    let own = if kept > 0 {
        1int
    } else {
        0int
    };
    DiagnosticReplaceReport {
        received: findings.len() as usize,
        retained: kept as usize,
        dropped: (findings.len() - kept) as usize,
        truncated: kept < findings.len(),
        evicted_buckets: (others.len() + own - after.buckets.len()) as usize,
        evicted_diagnostics: (total_diagnostics(others) + kept - total_diagnostics(
            after.buckets,
        )) as usize,
        retention: after.retention,
    }
}

/// Recency orders the buckets of a cache.
pub proof fn lemma_use_orders(buckets: Seq<Bucket>)
    requires
        distinct_buckets(buckets),
    ensures
        ordered_by(buckets, less_used()),
{
    let before = less_used();
    assert forall|i: int, j: int|
        0 <= i < buckets.len() && 0 <= j < buckets.len() && i != j implies (before(
        #[trigger] buckets[i],
        #[trigger] buckets[j],
    ) || before(buckets[j], buckets[i])) by {
        lemma_text_order_total(buckets[i].uri, buckets[j].uri);
        if i < j {
            assert(buckets[i].uri != buckets[j].uri);
        } else {
            assert(buckets[j].uri != buckets[i].uri);
        }
    }
    assert forall|i: int, j: int| 0 <= i < buckets.len() && 0 <= j < buckets.len() implies !(before(
        #[trigger] buckets[i],
        #[trigger] buckets[j],
    ) && before(buckets[j], buckets[i])) by {
        lemma_text_order_total(buckets[i].uri, buckets[j].uri);
    }
    assert forall|i: int, j: int, k: int|
        0 <= i < buckets.len() && 0 <= j < buckets.len() && 0 <= k < buckets.len() && before(
            #[trigger] buckets[i],
            #[trigger] buckets[j],
        ) && before(buckets[j], #[trigger] buckets[k]) implies before(buckets[i], buckets[k]) by {
        if text_before(buckets[i].uri, buckets[j].uri) && text_before(
            buckets[j].uri,
            buckets[k].uri,
        ) {
            lemma_text_order_transitive(buckets[i].uri, buckets[j].uri, buckets[k].uri);
        }
    }
}

/// New ordinals keep the order of the buckets.
pub proof fn law_bucket_rebase_keeps_order(buckets: Seq<Bucket>)
    requires
        distinct_buckets(buckets),
        buckets.len() < u64::MAX,
    ensures
        rebased_buckets(buckets).len() == buckets.len(),
        forall|i: int|
            #![trigger rebased_buckets(buckets)[i]]
            0 <= i < buckets.len() ==> {
                &&& 1 <= rebased_buckets(buckets)[i].activity <= buckets.len()
                &&& rebased_buckets(buckets)[i] == (Bucket {
                    activity: rebased_buckets(buckets)[i].activity,
                    ..buckets[i]
                })
            },
        forall|i: int, j: int|
            #![trigger rebased_buckets(buckets)[i], rebased_buckets(buckets)[j]]
            0 <= i < buckets.len() && 0 <= j < buckets.len() ==> (less_used()(
                buckets[i],
                buckets[j],
            ) <==> rebased_buckets(buckets)[i].activity < rebased_buckets(buckets)[j].activity),
{
    let before = less_used();
    let ranked = rebased_buckets(buckets);
    lemma_use_orders(buckets);
    assert forall|i: int| 0 <= i < buckets.len() implies #[trigger] rank(
        buckets,
        before,
        buckets[i],
    ) < buckets.len() by {
        assert(!(before(buckets[i], buckets[i]) && before(buckets[i], buckets[i])));
        lemma_rank_without(buckets, before, buckets[i], i);
    }
    assert forall|i: int, j: int|
        #![trigger ranked[i], ranked[j]]
        0 <= i < buckets.len() && 0 <= j < buckets.len() implies (before(buckets[i], buckets[j])
        <==> ranked[i].activity < ranked[j].activity) by {
        assert(rank(buckets, before, buckets[i]) < buckets.len());
        assert(rank(buckets, before, buckets[j]) < buckets.len());
        if before(buckets[i], buckets[j]) {
            lemma_rank(buckets, before, i, j);
        } else if i != j {
            assert(before(buckets[j], buckets[i]));
            lemma_rank(buckets, before, j, i);
        }
    }
}

proof fn lemma_total_remove(buckets: Seq<Bucket>, index: int)
    requires
        0 <= index < buckets.len(),
    ensures
        total_bytes(buckets.remove(index)) == total_bytes(buckets) - buckets[index].bytes,
        total_diagnostics(buckets.remove(index)) == total_diagnostics(buckets)
            - buckets[index].diagnostics.len(),
        buckets[index].bytes <= total_bytes(buckets),
        buckets[index].diagnostics.len() <= total_diagnostics(buckets),
    decreases buckets.len(),
{
    lemma_total_bounds(buckets.drop_last());
    if index == buckets.len() - 1 {
        assert(buckets.remove(index) =~= buckets.drop_last());
    } else {
        lemma_total_remove(buckets.drop_last(), index);
        assert(buckets.remove(index).drop_last() =~= buckets.drop_last().remove(index));
        assert(buckets.remove(index).last() == buckets.last());
    }
}

proof fn lemma_total_bounds(buckets: Seq<Bucket>)
    ensures
        total_bytes(buckets) >= 0,
        total_diagnostics(buckets) >= 0,
        (forall|i: int| 0 <= i < buckets.len() ==> bucket_holds(#[trigger] buckets[i]))
            ==> total_diagnostics(buckets) <= buckets.len() * MAX_DIAGNOSTICS_PER_URI,
    decreases buckets.len(),
{
    if buckets.len() > 0 {
        lemma_total_bounds(buckets.drop_last());
        if forall|i: int| 0 <= i < buckets.len() ==> bucket_holds(#[trigger] buckets[i]) {
            assert(bucket_holds(buckets[buckets.len() - 1]));
            assert forall|i: int| 0 <= i < buckets.drop_last().len() implies bucket_holds(
                #[trigger] buckets.drop_last()[i],
            ) by {
                assert(bucket_holds(buckets[i]));
            }
        }
    }
}

proof fn lemma_total_same(buckets: Seq<Bucket>, changed: Seq<Bucket>)
    requires
        changed.len() == buckets.len(),
        forall|i: int|
            0 <= i < buckets.len() ==> (#[trigger] changed[i]).bytes == buckets[i].bytes
                && changed[i].diagnostics == buckets[i].diagnostics,
    ensures
        total_bytes(changed) == total_bytes(buckets),
        total_diagnostics(changed) == total_diagnostics(buckets),
    decreases buckets.len(),
{
    if buckets.len() > 0 {
        assert forall|i: int| 0 <= i < buckets.drop_last().len() implies (
        #[trigger] changed.drop_last()[i]).bytes == buckets.drop_last()[i].bytes
            && changed.drop_last()[i].diagnostics == buckets.drop_last()[i].diagnostics by {
            assert(changed[i].bytes == buckets[i].bytes);
        }
        lemma_total_same(buckets.drop_last(), changed.drop_last());
        assert(changed[buckets.len() - 1].bytes == buckets[buckets.len() - 1].bytes);
    }
}

/// What holds of a cache keeps holding when only ordinals change.
proof fn lemma_same_buckets(state: CacheState, changed: Seq<Bucket>, next: u64)
    requires
        cache_holds(state),
        changed.len() == state.buckets.len(),
        forall|i: int|
            0 <= i < changed.len() ==> (#[trigger] changed[i]).uri == state.buckets[i].uri
                && changed[i].diagnostics == state.buckets[i].diagnostics && changed[i].bytes
                == state.buckets[i].bytes && changed[i].activity < next,
    ensures
        cache_holds(CacheState { buckets: changed, next, ..state }),
        total_diagnostics(changed) == total_diagnostics(state.buckets),
{
    lemma_total_same(state.buckets, changed);
    assert forall|i: int, j: int| 0 <= i < j < changed.len() implies (#[trigger] changed[i]).uri
        != (#[trigger] changed[j]).uri by {
        assert(state.buckets[i].uri != state.buckets[j].uri);
    }
    assert forall|i: int| 0 <= i < changed.len() implies bucket_holds(#[trigger] changed[i]) by {
        assert(bucket_holds(state.buckets[i]));
    }
}

proof fn lemma_ready_cache(state: CacheState)
    requires
        cache_holds(state),
    ensures
        cache_holds(ready_cache(state)),
        0 < ready_cache(state).next < u64::MAX,
        ready_cache(state).buckets.len() == state.buckets.len(),
        total_diagnostics(ready_cache(state).buckets) == total_diagnostics(state.buckets),
        forall|i: int|
            #![trigger ready_cache(state).buckets[i]]
            0 <= i < state.buckets.len() ==> ready_cache(state).buckets[i] == (Bucket {
                activity: ready_cache(state).buckets[i].activity,
                ..state.buckets[i]
            }),
{
    if state.next == 0 || state.next == u64::MAX {
        law_bucket_rebase_keeps_order(state.buckets);
        lemma_same_buckets(
            state,
            rebased_buckets(state.buckets),
            (state.buckets.len() + 1) as u64,
        );
    }
}

pub proof fn lemma_without_bucket(state: CacheState, index: int)
    requires
        cache_holds(state),
        0 <= index < state.buckets.len(),
    ensures
        cache_holds(without_bucket(state, index)),
        without_bucket(state, index).bytes == state.bytes - state.buckets[index].bytes,
        total_diagnostics(without_bucket(state, index).buckets) == total_diagnostics(state.buckets)
            - state.buckets[index].diagnostics.len(),
{
    lemma_total_remove(state.buckets, index);
    let buckets = state.buckets.remove(index);
    lemma_total_bounds(buckets);
    assert forall|i: int| 0 <= i < buckets.len() implies #[trigger] buckets[i] == (if i < index {
        state.buckets[i]
    } else {
        state.buckets[i + 1]
    }) by {}
    assert forall|i: int, j: int| 0 <= i < j < buckets.len() implies (#[trigger] buckets[i]).uri
        != (#[trigger] buckets[j]).uri by {
        let a = if i < index {
            i
        } else {
            i + 1
        };
        let b = if j < index {
            j
        } else {
            j + 1
        };
        assert(state.buckets[a].uri != state.buckets[b].uri);
    }
}

/// Making room keeps what holds, and takes buckets away only.
pub proof fn lemma_bucket_room(state: CacheState, bytes: int)
    requires
        cache_holds(state),
        0 <= bytes <= MAX_DIAGNOSTIC_RETAINED_BYTES,
    ensures
        ({
            let room = with_bucket_room(state, bytes);
            &&& cache_holds(room)
            &&& room.buckets.len() <= state.buckets.len()
            &&& room.buckets.len() < MAX_DIAGNOSTIC_URI_BUCKETS
            &&& room.bytes + bytes <= MAX_DIAGNOSTIC_RETAINED_BYTES
            &&& 0 <= total_diagnostics(room.buckets) <= total_diagnostics(state.buckets)
            &&& room.next == state.next
            &&& forall|i: int|
                0 <= i < room.buckets.len() ==> state.buckets.contains(#[trigger] room.buckets[i])
            &&& room.retention == lost(
                state.retention,
                room.buckets.len() < state.buckets.len(),
            )
        }),
    decreases state.buckets.len(),
{
    lemma_total_bounds(state.buckets);
    if state.buckets.len() > 0 && (state.buckets.len() >= MAX_DIAGNOSTIC_URI_BUCKETS || state.bytes
        + bytes > MAX_DIAGNOSTIC_RETAINED_BYTES) {
        lemma_use_orders(state.buckets);
        lemma_first(state.buckets, less_used());
        let index = first_of(state.buckets, less_used());
        lemma_without_bucket(state, index);
        let next = CacheState {
            retention: RetentionStatus::Partial,
            ..without_bucket(state, index)
        };
        lemma_bucket_room(next, bytes);
        let room = with_bucket_room(state, bytes);
        assert forall|i: int| 0 <= i < room.buckets.len() implies state.buckets.contains(
            #[trigger] room.buckets[i],
        ) by {
            let k = choose|k: int|
                0 <= k < next.buckets.len() && next.buckets[k] == room.buckets[i];
            assert(next.buckets.contains(room.buckets[i]));
            if k < index {
                assert(state.buckets[k] == room.buckets[i]);
            } else {
                assert(state.buckets[k + 1] == room.buckets[i]);
            }
        }
    } else if state.buckets.len() == 0 {
        assert(total_bytes(state.buckets) == 0);
    } else {
        assert forall|i: int| 0 <= i < state.buckets.len() implies state.buckets.contains(
            #[trigger] state.buckets[i],
        ) by {}
    }
}

proof fn lemma_kept(
    uri: Seq<char>,
    base: int,
    findings: Seq<Finding>,
    estimates: Seq<Option<usize>>,
)
    requires
        0 <= base,
        estimates.len() == findings.len(),
    ensures
        ({
            let kept = kept_of(uri, base, findings, estimates);
            &&& kept.items.len() <= findings.len()
            &&& kept.heap >= 0
            &&& kept.items.len() > 0 ==> bucket_bytes(base, kept.items.len() as int, kept.heap)
                <= MAX_DIAGNOSTIC_RETAINED_BYTES
            &&& forall|i: int|
                0 <= i < kept.items.len() ==> (#[trigger] kept.items[i]).uri == uri
        }),
    decreases findings.len(),
{
    if findings.len() > 0 {
        lemma_kept(uri, base, findings.drop_last(), estimates.drop_last());
        let before = kept_of(uri, base, findings.drop_last(), estimates.drop_last());
        let kept = kept_of(uri, base, findings, estimates);
        assert forall|i: int| 0 <= i < kept.items.len() implies (#[trigger] kept.items[i]).uri
            == uri by {
            if i < before.items.len() {
                assert(kept.items[i] == before.items[i]);
            }
        }
    }
}

/// Replacing diagnostics keeps what always holds of a cache.
pub proof fn law_replacement_stays_bounded(
    state: CacheState,
    uri: Seq<char>,
    findings: Seq<Finding>,
    base: int,
    estimates: Seq<Option<usize>>,
)
    requires
        cache_holds(state),
        0 <= base <= usize::MAX,
        published_uri_is_valid(uri) ==> base > 0,
        estimates.len() == inspected(findings).len(),
    ensures
        cache_holds(replaced(state, uri, findings, base, estimates)),
{
    if published_uri_is_valid(uri) {
        lemma_purged(state, uri);
        lemma_kept(uri, base, inspected(findings), estimates);
        let kept = kept_of(uri, base, inspected(findings), estimates);
        if kept.items.len() > 0 {
            let bytes = bucket_bytes(base, kept.items.len() as int, kept.heap);
            let rest = CacheState {
                retention: lost(state.retention, kept.items.len() < findings.len()),
                ..purged(state, uri)
            };
            assert(bytes >= 0) by {
                assert(kept.items.len() * size_of::<Diagnostic>() >= 0) by (nonlinear_arith)
                    requires
                        kept.items.len() >= 0,
                        size_of::<Diagnostic>() >= 0,
                ;
            }
            lemma_bucket_room(rest, bytes);
            lemma_added(rest, uri, kept.items, bytes);
        }
    }
}

proof fn lemma_purged(state: CacheState, uri: Seq<char>)
    requires
        cache_holds(state),
    ensures
        cache_holds(purged(state, uri)),
        forall|i: int|
            0 <= i < purged(state, uri).buckets.len() ==> (
            #[trigger] purged(state, uri).buckets[i]).uri != uri && state.buckets.contains(
                purged(state, uri).buckets[i],
            ),
{
    lemma_bucket_index(state.buckets, uri);
    let index = bucket_index(state.buckets, uri);
    let after = purged(state, uri);
    if index < state.buckets.len() {
        lemma_without_bucket(state, index);
        assert forall|i: int| 0 <= i < after.buckets.len() implies (#[trigger] after.buckets[i]).uri
            != uri && state.buckets.contains(after.buckets[i]) by {
            if i < index {
                assert(after.buckets[i] == state.buckets[i]);
            } else {
                assert(after.buckets[i] == state.buckets[i + 1]);
                assert(state.buckets[index].uri != state.buckets[i + 1].uri);
            }
        }
    } else {
        assert forall|i: int| 0 <= i < after.buckets.len() implies (#[trigger] after.buckets[i]).uri
            != uri && state.buckets.contains(after.buckets[i]) by {
            assert(state.buckets[i] == after.buckets[i]);
        }
    }
}

/// Adding a bucket after room was made keeps what holds.
proof fn lemma_added(rest: CacheState, uri: Seq<char>, items: Seq<Finding>, bytes: int)
    requires
        cache_holds(rest),
        0 < bytes <= MAX_DIAGNOSTIC_RETAINED_BYTES,
        forall|i: int| 0 <= i < rest.buckets.len() ==> (#[trigger] rest.buckets[i]).uri != uri,
        published_uri_is_valid(uri),
        0 < items.len() <= MAX_DIAGNOSTICS_PER_URI,
        forall|i: int| 0 <= i < items.len() ==> (#[trigger] items[i]).uri == uri,
    ensures
        ({
            let room = with_bucket_room(rest, bytes);
            let bucket = Bucket {
                uri,
                diagnostics: items,
                activity: ready_cache(room).next,
                bytes: bytes as usize,
            };
            let after = CacheState {
                buckets: ready_cache(room).buckets.push(bucket),
                bytes: (room.bytes + bytes) as usize,
                ..ticked_cache(room)
            };
            &&& cache_holds(after)
            &&& total_diagnostics(after.buckets) == total_diagnostics(room.buckets) + items.len()
        }),
{
    lemma_bucket_room(rest, bytes);
    let room = with_bucket_room(rest, bytes);
    lemma_ready_cache(room);
    let bucket = Bucket {
        uri,
        diagnostics: items,
        activity: ready_cache(room).next,
        bytes: bytes as usize,
    };
    let buckets = ready_cache(room).buckets.push(bucket);
    let n = buckets.len() - 1;
    assert(buckets.drop_last() =~= ready_cache(room).buckets);
    assert(bucket_holds(bucket));
    assert forall|i: int| 0 <= i < n implies (#[trigger] buckets[i]).uri != uri by {
        assert(buckets[i] == ready_cache(room).buckets[i]);
        assert(rest.buckets.contains(room.buckets[i]));
    }
    assert forall|i: int, j: int| 0 <= i < j < buckets.len() implies (#[trigger] buckets[i]).uri
        != (#[trigger] buckets[j]).uri by {
        if j < n {
            assert(buckets[i] == ready_cache(room).buckets[i]);
            assert(buckets[j] == ready_cache(room).buckets[j]);
        }
    }
    assert forall|i: int| 0 <= i < buckets.len() implies bucket_holds(#[trigger] buckets[i]) by {
        if i < n {
            assert(buckets[i] == ready_cache(room).buckets[i]);
        }
    }
    assert forall|i: int| 0 <= i < buckets.len() implies (#[trigger] buckets[i]).activity
        < ticked_cache(room).next by {
        if i < n {
            assert(buckets[i] == ready_cache(room).buckets[i]);
        }
    }
}

impl Default for DiagnosticCache {
    fn default() -> (cache: Self)
        ensures
            cache@ == (CacheState {
                buckets: Seq::empty(),
                bytes: 0,
                next: 0,
                retention: RetentionStatus::Complete,
            }),
            cache_holds(cache@),
    {
        let buckets: Vec<DiagnosticBucket> = Vec::new();
        assert(buckets_of(buckets@) =~= Seq::<Bucket>::empty());
        DiagnosticCache {
            buckets,
            retained_estimate_bytes: 0,
            next_activity_ordinal: 0,
            retention: RetentionStatus::Complete,
        }
    }
}

impl DiagnosticCache {
    /// A cache without diagnostics.
    pub fn new() -> (cache: Self)
        ensures
            cache@ == (CacheState {
                buckets: Seq::empty(),
                bytes: 0,
                next: 1,
                retention: RetentionStatus::Complete,
            }),
            cache_holds(cache@),
    {
        let mut cache = DiagnosticCache::default();
        cache.next_activity_ordinal = 1;
        cache
    }

    /// Number of URI buckets, not the aggregate number of diagnostics.
    pub fn len(&self) -> (n: usize)
        ensures
            n == self@.buckets.len(),
    {
        self.buckets.len()
    }

    /// Whether there is no bucket.
    pub fn is_empty(&self) -> (yes: bool)
        ensures
            yes == (self@.buckets.len() == 0),
    {
        self.buckets.len() == 0
    }

    /// The aggregate number of diagnostics.
    pub fn diagnostic_count(&self) -> (n: usize)
        requires
            cache_holds(self@),
        ensures
            n == total_diagnostics(self@.buckets),
    {
        let ghost buckets = self@.buckets;
        let mut n: usize = 0;
        let mut i: usize = 0;
        assert(buckets.take(0).len() == 0);
        while i < self.buckets.len()
            invariant
                cache_holds(self@),
                buckets == self@.buckets,
                i <= self.buckets@.len() == buckets.len(),
                n <= i * MAX_DIAGNOSTICS_PER_URI,
                n == total_diagnostics(buckets.take(i as int)),
            decreases self.buckets@.len() - i,
        {
            proof {
                assert(buckets.take(i + 1).drop_last() =~= buckets.take(i as int));
                assert(buckets.take(i + 1).last() == self.buckets@[i as int]@);
                assert(bucket_holds(buckets[i as int]));
                assert(findings_of(self.buckets@[i as int].diagnostics@).len()
                    == self.buckets@[i as int].diagnostics@.len());
            }
            n += self.buckets[i].diagnostics.len();
            i += 1;
        }
        assert(buckets.take(i as int) =~= buckets);
        n
    }

    /// The estimated bytes of everything retained.
    pub fn retained_estimate_bytes(&self) -> (bytes: usize)
        ensures
            bytes == self@.bytes,
    {
        self.retained_estimate_bytes
    }

    /// Whether diagnostics were lost since the cache was last cleared.
    pub fn retention_status(&self) -> (status: RetentionStatus)
        ensures
            status == self@.retention,
    {
        self.retention
    }

    /// Whether diagnostics were lost since the cache was last cleared.
    pub fn is_partial(&self) -> (yes: bool)
        ensures
            yes == (self@.retention is Partial),
    {
        self.retention.is_partial()
    }

    /// Record upstream parsing or publication loss that the cache cannot infer
    /// from the retained diagnostics. Partial state remains sticky until
    /// [`Self::clear`].
    pub fn mark_partial(&mut self)
        ensures
            final(self)@ == (CacheState { retention: RetentionStatus::Partial, ..old(self)@ }),
            cache_holds(old(self)@) ==> cache_holds(final(self)@),
    {
        self.retention = RetentionStatus::Partial;
    }

    fn position(&self, uri: &str) -> (index: Option<usize>)
        ensures
            match index {
                Some(i) => i < self.buckets@.len() && i == bucket_index(self@.buckets, uri@),
                None => bucket_index(self@.buckets, uri@) == self@.buckets.len(),
            },
    {
        let mut i: usize = 0;
        proof {
            lemma_bucket_index(self@.buckets, uri@);
        }
        while i < self.buckets.len()
            invariant
                i <= self.buckets@.len(),
                forall|k: int| 0 <= k < i ==> (#[trigger] self@.buckets[k]).uri != uri@,
                i <= bucket_index(self@.buckets, uri@) <= self@.buckets.len(),
                bucket_index(self@.buckets, uri@) < self@.buckets.len()
                    ==> self@.buckets[bucket_index(self@.buckets, uri@)].uri == uri@,
                forall|k: int|
                    0 <= k < bucket_index(self@.buckets, uri@) ==> (#[trigger] self@.buckets[k]).uri
                        != uri@,
            decreases self.buckets@.len() - i,
        {
            assert(self@.buckets[i as int] == self.buckets@[i as int]@);
            if same_text(self.buckets[i].uri.as_str(), uri) {
                return Some(i);
            }
            i += 1;
        }
        None
    }

    /// Read a URI bucket without changing its recency.
    pub fn get(&self, uri: &str) -> (diagnostics: Option<&[Diagnostic]>)
        ensures
            match diagnostics {
                Some(list) => cached(self@, uri@) == Some(findings_of(list@)),
                None => cached(self@, uri@) is None,
            },
    {
        proof {
            lemma_bucket_index(self@.buckets, uri@);
        }
        match self.position(uri) {
            Some(i) => Some(self.buckets[i].diagnostics.as_slice()),
            None => None,
        }
    }

    /// Every URI with its diagnostics.
    pub fn iter(&self) -> (list: Vec<(&str, &[Diagnostic])>)
        ensures
            list@.len() == self@.buckets.len(),
            forall|i: int|
                0 <= i < list@.len() ==> (#[trigger] list@[i]).0@ == self@.buckets[i].uri
                    && findings_of(list@[i].1@) == self@.buckets[i].diagnostics,
    {
        let mut list: Vec<(&str, &[Diagnostic])> = Vec::new();
        let mut i: usize = 0;
        while i < self.buckets.len()
            invariant
                i <= self.buckets@.len(),
                list@.len() == i,
                forall|k: int|
                    0 <= k < i ==> (#[trigger] list@[k]).0@ == self@.buckets[k].uri && findings_of(
                        list@[k].1@,
                    ) == self@.buckets[k].diagnostics,
            decreases self.buckets@.len() - i,
        {
            let bucket = &self.buckets[i];
            list.push((bucket.uri.as_str(), bucket.diagnostics.as_slice()));
            i += 1;
        }
        list
    }

    /// Refresh a bucket's recency without cloning its URI or diagnostics.
    pub fn mark_used(&mut self, uri: &str) -> (known: bool)
        requires
            cache_holds(old(self)@),
        ensures
            cache_holds(final(self)@),
            known == (bucket_index(old(self)@.buckets, uri@) < old(self)@.buckets.len()),
            final(self)@ == (if known {
                used(old(self)@, bucket_index(old(self)@.buckets, uri@))
            } else {
                old(self)@
            }),
    {
        let index = match self.position(uri) {
            Some(index) => index,
            None => {
                return false;
            },
        };
        let ghost start = self@;
        proof {
            lemma_ready_cache(start);
        }
        let ordinal = self.allocate_activity_ordinal();
        let ghost before = self@;
        self.buckets[index].activity_ordinal = ordinal;
        proof {
            let changed = self.buckets@[index as int]@;
            assert(buckets_of(self.buckets@) =~= before.buckets.update(index as int, changed));
            assert(self@ =~= used(start, index as int));
            lemma_same_buckets(ready_cache(start), self@.buckets, before.next);
        }
        true
    }

    /// The estimates for the diagnostics of a publication that are inspected;
    /// there is none for another URI.
    fn estimates_for(uri: &str, diagnostics: &Vec<Diagnostic>) -> (estimates: Vec<Option<usize>>)
        ensures
            ({
                let shown = inspected(findings_of(diagnostics@));
                &&& estimates@.len() == shown.len()
                &&& forall|i: int|
                    0 <= i < estimates@.len() && shown[i].uri == uri@ ==> may_estimate(
                        shown[i],
                        MAX_DIAGNOSTIC_RETAINED_BYTES,
                        #[trigger] estimates@[i],
                    )
            }),
    {
        let ghost shown = inspected(findings_of(diagnostics@));
        let mut estimates: Vec<Option<usize>> = Vec::new();
        let mut i: usize = 0;
        while i < diagnostics.len() && i < MAX_DIAGNOSTICS_PER_URI
            invariant
                shown == inspected(findings_of(diagnostics@)),
                estimates@.len() == i <= shown.len(),
                forall|k: int|
                    0 <= k < i && shown[k].uri == uri@ ==> may_estimate(
                        shown[k],
                        MAX_DIAGNOSTIC_RETAINED_BYTES,
                        #[trigger] estimates@[k],
                    ),
            decreases diagnostics@.len() - i,
        {
            assert(shown[i as int] == diagnostics@[i as int]@);
            let estimate = if same_text(diagnostics[i].uri.as_str(), uri) {
                diagnostic_heap_estimate(&diagnostics[i], MAX_DIAGNOSTIC_RETAINED_BYTES)
            } else {
                None
            };
            estimates.push(estimate);
            i += 1;
        }
        estimates
    }

    /// Moves the kept diagnostics of a publication out of it; the bytes that
    /// they take beside themselves.
    fn filter(
        uri: &str,
        base: usize,
        diagnostics: Vec<Diagnostic>,
        estimates: &Vec<Option<usize>>,
    ) -> (result: (Vec<Diagnostic>, usize))
        requires
            estimates@.len() == inspected(findings_of(diagnostics@)).len(),
        ensures
            ({
                let (items, heap) = result;
                let shown = inspected(findings_of(diagnostics@));
                let kept = kept_of(uri@, base as int, shown, estimates@);
                &&& findings_of(items@) == kept.items
                &&& heap == kept.heap
            }),
    {
        let ghost shown = inspected(findings_of(diagnostics@));
        let mut source = diagnostics;
        source.truncate(MAX_DIAGNOSTICS_PER_URI);
        let ghost all = source@;
        assert(findings_of(all) =~= shown);
        let mut queue: Vec<Diagnostic> = Vec::new();
        while source.len() > 0
            invariant
                source@.len() + queue@.len() == all.len(),
                forall|k: int| 0 <= k < source@.len() ==> #[trigger] source@[k] == all[k],
                forall|k: int|
                    0 <= k < queue@.len() ==> #[trigger] queue@[k] == all[all.len() - 1 - k],
            decreases source@.len(),
        {
            if let Some(diagnostic) = source.pop() {
                queue.push(diagnostic);
            }
        }
        let mut items: Vec<Diagnostic> = Vec::new();
        let mut heap: usize = 0;
        let mut next: usize = 0;
        assert(findings_of(items@) =~= Seq::<Finding>::empty());
        assert(shown.take(0) =~= Seq::<Finding>::empty());
        assert(estimates@.take(0) =~= Seq::<Option<usize>>::empty());
        while queue.len() > 0
            invariant
                all.len() <= MAX_DIAGNOSTICS_PER_URI,
                queue@.len() <= all.len(),
                shown == findings_of(all),
                forall|k: int|
                    0 <= k < queue@.len() ==> #[trigger] queue@[k] == all[all.len() - 1 - k],
                next == all.len() - queue@.len(),
                estimates@.len() == all.len(),
                ({
                    let kept = kept_of(
                        uri@,
                        base as int,
                        shown.take(next as int),
                        estimates@.take(next as int),
                    );
                    &&& findings_of(items@) == kept.items
                    &&& heap == kept.heap
                }),
                items@.len() <= next,
                heap <= MAX_DIAGNOSTIC_RETAINED_BYTES,
            decreases queue@.len(),
        {
            let ghost i = next as int;
            if let Some(diagnostic) = queue.pop() {
                assert(diagnostic == all[i as int]);
                assert(shown[i as int] == diagnostic@);
                proof {
                    assert(shown.take(i + 1).drop_last() =~= shown.take(i as int));
                    assert(shown.take(i + 1).last() == diagnostic@);
                    assert(estimates@.take(i + 1).drop_last() =~= estimates@.take(i));
                    assert(estimates@.take(i + 1).last() == estimates@[i]);
                }
                let ghost before = items@;
                if same_text(diagnostic.uri.as_str(), uri) {
                    if let Some(bytes) = estimates[next] {
                        let own = saturating_product(
                            items.len() + 1,
                            core::mem::size_of::<Diagnostic>(),
                        );
                        let projected = saturating_sum(
                            saturating_sum(saturating_sum(base, own), heap),
                            bytes,
                        );
                        assert(own == lesser(
                            (items@.len() as int + 1) * size_of::<Diagnostic>(),
                            usize::MAX as int,
                        ));
                        proof {
                            let exact = bucket_bytes(
                                base as int,
                                items@.len() as int + 1,
                                heap + bytes,
                            );
                            assert((items@.len() as int + 1) * size_of::<Diagnostic>() >= 0)
                                by (nonlinear_arith)
                                requires
                                    items@.len() >= 0,
                                    size_of::<Diagnostic>() >= 0,
                            ;
                            assert(projected == lesser(exact, usize::MAX as int));
                        }
                        if projected <= MAX_DIAGNOSTIC_RETAINED_BYTES {
                            items.push(diagnostic);
                            heap = heap + bytes;
                            assert(findings_of(items@) =~= findings_of(before).push(diagnostic@));
                        }
                    }
                }
                assert(findings_of(before).len() == before.len());
                next += 1;
            }
        }
        assert(shown.take(all.len() as int) =~= shown);
        assert(estimates@.take(all.len() as int) =~= estimates@);
        (items, heap)
    }

    /// Replace all diagnostics for one URI.
    ///
    /// The URI and diagnostics are consumed, so normal publications require no
    /// cache-wide clones. At most `MAX_DIAGNOSTICS_PER_URI` values are inspected
    /// and retained. An empty vector explicitly clears the URI bucket. A
    /// diagnostic whose embedded URI differs from the bucket URI is omitted so
    /// navigation cannot escape the publication identity. Invalid, remote, or
    /// over-limit bucket URIs retain nothing and make the cache partial.
    pub fn replace(&mut self, uri: String, diagnostics: Vec<Diagnostic>) -> (report:
        DiagnosticReplaceReport)
        requires
            cache_holds(old(self)@),
        ensures
            cache_holds(final(self)@),
            exists|base: int, estimates: Seq<Option<usize>>| #[trigger]
                may_weigh(uri@, findings_of(diagnostics@), base, estimates) && final(self)@
                    == replaced(old(self)@, uri@, findings_of(diagnostics@), base, estimates)
                    && report == replace_report(
                    old(self)@,
                    uri@,
                    findings_of(diagnostics@),
                    base,
                    estimates,
                ),
    {
        let mut uri = uri;
        shrink_text(&mut uri);
        let base = saturating_sum(core::mem::size_of::<DiagnosticBucket>(), text_capacity(&uri));
        let estimates = Self::estimates_for(uri.as_str(), &diagnostics);
        proof {
            lemma_utf8_len_bounds(uri@);
            assert(may_weigh(uri@, findings_of(diagnostics@), base as int, estimates@));
        }
        self.replace_estimated(uri, base, diagnostics, &estimates)
    }

    /// Replaces all diagnostics for one URI, where a bucket takes `base` bytes
    /// without its diagnostics and these are the estimates for those that are
    /// inspected.
    pub fn replace_estimated(
        &mut self,
        uri: String,
        base: usize,
        diagnostics: Vec<Diagnostic>,
        estimates: &Vec<Option<usize>>,
    ) -> (report: DiagnosticReplaceReport)
        requires
            cache_holds(old(self)@),
            published_uri_is_valid(uri@) ==> base > 0,
            estimates@.len() == inspected(findings_of(diagnostics@)).len(),
        ensures
            cache_holds(final(self)@),
            final(self)@ == replaced(
                old(self)@,
                uri@,
                findings_of(diagnostics@),
                base as int,
                estimates@,
            ),
            report == replace_report(
                old(self)@,
                uri@,
                findings_of(diagnostics@),
                base as int,
                estimates@,
            ),
    {
        let ghost start = self@;
        let ghost findings = findings_of(diagnostics@);
        let ghost address = uri@;
        let received = diagnostics.len();
        let (mut retained, heap) = Self::filter(uri.as_str(), base, diagnostics, estimates);
        let ghost kept = kept_of(address, base as int, inspected(findings), estimates@);
        proof {
            law_replacement_stays_bounded(start, address, findings, base as int, estimates@);
            lemma_total_bounds(start.buckets);
        }
        if !diagnostic_uri_is_valid(uri.as_str()) {
            self.retention = RetentionStatus::Partial;
            return DiagnosticReplaceReport {
                received,
                retained: 0,
                dropped: received,
                truncated: received != 0,
                evicted_buckets: 0,
                evicted_diagnostics: 0,
                retention: self.retention,
            };
        }
        self.purge(uri.as_str());
        proof {
            lemma_purged(start, address);
            lemma_kept(address, base as int, inspected(findings), estimates@);
            assert(kept.items.len() == retained@.len());
        }
        shrink_list(&mut retained);
        let retained_count = retained.len();
        let dropped = received - retained_count;
        if dropped != 0 {
            self.retention = RetentionStatus::Partial;
        }
        let ghost rest = self@;
        assert(rest =~= (CacheState {
            retention: lost(start.retention, kept.items.len() < findings.len()),
            ..purged(start, address)
        }));
        if retained_count == 0 {
            return DiagnosticReplaceReport {
                received,
                retained: 0,
                dropped,
                truncated: dropped != 0,
                evicted_buckets: 0,
                evicted_diagnostics: 0,
                retention: self.retention,
            };
        }
        let own = saturating_product(retained_count, core::mem::size_of::<Diagnostic>());
        let bytes = saturating_sum(saturating_sum(base, own), heap);
        proof {
            assert(retained_count * size_of::<Diagnostic>() >= 0) by (nonlinear_arith)
                requires
                    retained_count >= 0,
                    size_of::<Diagnostic>() >= 0,
            ;
            assert(bytes == bucket_bytes(base as int, kept.items.len() as int, kept.heap));
        }
        let (evicted_buckets, evicted_diagnostics) = self.make_room(bytes);
        let ghost room = self@;
        proof {
            lemma_bucket_room(rest, bytes as int);
            lemma_added(rest, address, kept.items, bytes as int);
            lemma_ready_cache(room);
        }
        let activity_ordinal = self.allocate_activity_ordinal();
        self.retained_estimate_bytes = self.retained_estimate_bytes + bytes;
        let ghost before = self.buckets@;
        let bucket = DiagnosticBucket {
            uri,
            diagnostics: retained,
            activity_ordinal,
            retained_estimate_bytes: bytes,
        };
        self.buckets.push(bucket);
        proof {
            assert(buckets_of(self.buckets@) =~= buckets_of(before).push(bucket@));
            assert(self@ =~= replaced(start, address, findings, base as int, estimates@));
        }
        DiagnosticReplaceReport {
            received,
            retained: retained_count,
            dropped,
            truncated: dropped != 0,
            evicted_buckets,
            evicted_diagnostics,
            retention: self.retention,
        }
    }

    /// Evicts buckets until one of `bytes` bytes fits; how many buckets and
    /// diagnostics left.
    fn make_room(&mut self, bytes: usize) -> (left: (usize, usize))
        requires
            cache_holds(old(self)@),
            bytes <= MAX_DIAGNOSTIC_RETAINED_BYTES,
        ensures
            final(self)@ == with_bucket_room(old(self)@, bytes as int),
            cache_holds(final(self)@),
            left.0 == old(self)@.buckets.len() - final(self)@.buckets.len(),
            left.1 == total_diagnostics(old(self)@.buckets) - total_diagnostics(
                final(self)@.buckets,
            ),
    {
        let ghost start = self@;
        let mut evicted_buckets: usize = 0;
        let mut evicted_diagnostics: usize = 0;
        proof {
            lemma_total_bounds(start.buckets);
        }
        while self.buckets.len() > 0 && (self.buckets.len() >= MAX_DIAGNOSTIC_URI_BUCKETS
            || saturating_sum(self.retained_estimate_bytes, bytes) > MAX_DIAGNOSTIC_RETAINED_BYTES)
            invariant
                cache_holds(self@),
                bytes <= MAX_DIAGNOSTIC_RETAINED_BYTES,
                start.buckets.len() <= MAX_DIAGNOSTIC_URI_BUCKETS,
                total_diagnostics(start.buckets) <= start.buckets.len() * MAX_DIAGNOSTICS_PER_URI,
                with_bucket_room(self@, bytes as int) == with_bucket_room(start, bytes as int),
                self@.buckets.len() + evicted_buckets == start.buckets.len(),
                total_diagnostics(self@.buckets) + evicted_diagnostics == total_diagnostics(
                    start.buckets,
                ),
            decreases self.buckets@.len(),
        {
            let ghost before = self@;
            let evicted = self.remove_lru_bucket();
            self.retention = RetentionStatus::Partial;
            proof {
                let index = first_of(before.buckets, less_used());
                assert(self@ =~= (CacheState {
                    retention: RetentionStatus::Partial,
                    ..without_bucket(before, index)
                }));
                lemma_total_bounds(self@.buckets);
                assert(evicted@.diagnostics.len() == evicted.diagnostics@.len());
            }
            evicted_buckets += 1;
            evicted_diagnostics = evicted_diagnostics + evicted.diagnostics.len();
        }
        (evicted_buckets, evicted_diagnostics)
    }

    /// Remove one URI bucket. Sticky partial state is intentionally preserved.
    pub fn purge(&mut self, uri: &str) -> (known: bool)
        requires
            cache_holds(old(self)@),
        ensures
            cache_holds(final(self)@),
            known == (bucket_index(old(self)@.buckets, uri@) < old(self)@.buckets.len()),
            final(self)@ == purged(old(self)@, uri@),
    {
        match self.position(uri) {
            Some(index) => {
                self.remove_bucket_at(index);
                true
            },
            None => false,
        }
    }

    /// Drop all diagnostic state and restore a complete empty view.
    pub fn clear(&mut self)
        ensures
            cache_holds(final(self)@),
            final(self)@ == (CacheState {
                buckets: Seq::empty(),
                bytes: 0,
                next: 1,
                retention: RetentionStatus::Complete,
            }),
    {
        self.buckets = Vec::new();
        self.retained_estimate_bytes = 0;
        self.next_activity_ordinal = 1;
        self.retention = RetentionStatus::Complete;
        assert(buckets_of(self.buckets@) =~= Seq::<Bucket>::empty());
    }

    fn remove_lru_bucket(&mut self) -> (bucket: DiagnosticBucket)
        requires
            cache_holds(old(self)@),
            old(self)@.buckets.len() > 0,
        ensures
            ({
                let index = first_of(old(self)@.buckets, less_used());
                &&& 0 <= index < old(self)@.buckets.len()
                &&& bucket@ == old(self)@.buckets[index]
                &&& final(self)@ == without_bucket(old(self)@, index)
                &&& cache_holds(final(self)@)
                &&& total_diagnostics(final(self)@.buckets) == total_diagnostics(
                    old(self)@.buckets,
                ) - bucket@.diagnostics.len()
            }),
    {
        let ghost buckets = self@.buckets;
        let mut oldest: usize = 0;
        let mut i: usize = 1;
        proof {
            lemma_use_orders(buckets);
            assert(buckets.take(1).len() == 1);
        }
        while i < self.buckets.len()
            invariant
                1 <= i <= self.buckets@.len(),
                buckets == self@.buckets,
                ordered_by(buckets, less_used()),
                oldest < i,
                oldest == first_of(buckets.take(i as int), less_used()),
            decreases self.buckets@.len() - i,
        {
            proof {
                lemma_ordered_prefix(buckets, less_used(), i as int);
                lemma_first(buckets.take(i as int), less_used());
                assert(buckets.take(i + 1).drop_last() =~= buckets.take(i as int));
                assert(buckets[i as int] == self.buckets@[i as int]@);
                assert(buckets[oldest as int] == self.buckets@[oldest as int]@);
            }
            if Self::was_used_before(&self.buckets[i], &self.buckets[oldest]) {
                oldest = i;
            }
            i += 1;
        }
        assert(buckets.take(i as int) =~= buckets);
        self.remove_bucket_at(oldest)
    }

    fn was_used_before(one: &DiagnosticBucket, other: &DiagnosticBucket) -> (yes: bool)
        ensures
            yes == less_used()(one@, other@),
    {
        one.activity_ordinal < other.activity_ordinal || (one.activity_ordinal
            == other.activity_ordinal && match order_of(one.uri.as_str(), other.uri.as_str()) {
            TextOrder::Before => true,
            _ => false,
        })
    }

    fn remove_bucket_at(&mut self, index: usize) -> (bucket: DiagnosticBucket)
        requires
            cache_holds(old(self)@),
            index < old(self)@.buckets.len(),
        ensures
            bucket@ == old(self)@.buckets[index as int],
            final(self)@ == without_bucket(old(self)@, index as int),
            cache_holds(final(self)@),
            total_diagnostics(final(self)@.buckets) == total_diagnostics(old(self)@.buckets)
                - bucket@.diagnostics.len(),
    {
        let ghost start = self@;
        let ghost before = self.buckets@;
        proof {
            lemma_without_bucket(start, index as int);
            lemma_total_remove(start.buckets, index as int);
        }
        let bucket = self.buckets.remove(index);
        assert(buckets_of(self.buckets@) =~= buckets_of(before).remove(index as int));
        self.retained_estimate_bytes =
        self.retained_estimate_bytes.saturating_sub(bucket.retained_estimate_bytes);
        bucket
    }

    fn allocate_activity_ordinal(&mut self) -> (ordinal: u64)
        requires
            cache_holds(old(self)@),
        ensures
            ordinal == ready_cache(old(self)@).next,
            final(self)@ == ticked_cache(old(self)@),
    {
        proof {
            lemma_ready_cache(self@);
        }
        if self.next_activity_ordinal == 0 || self.next_activity_ordinal == u64::MAX {
            self.rebase_activity_ordinals();
        }
        let ordinal = self.next_activity_ordinal;
        self.next_activity_ordinal = self.next_activity_ordinal.saturating_add(1);
        ordinal
    }

    fn rank_of(&self, index: usize) -> (count: u64)
        requires
            index < self.buckets@.len(),
            self.buckets@.len() <= MAX_DIAGNOSTIC_URI_BUCKETS,
        ensures
            count == rank(self@.buckets, less_used(), self@.buckets[index as int]),
    {
        let ghost buckets = self@.buckets;
        let item = &self.buckets[index];
        let mut count: u64 = 0;
        let mut i: usize = 0;
        assert(buckets.take(0).len() == 0);
        while i < self.buckets.len()
            invariant
                i <= self.buckets@.len() <= MAX_DIAGNOSTIC_URI_BUCKETS,
                buckets == self@.buckets,
                item@ == buckets[index as int],
                count <= i,
                count == rank(buckets.take(i as int), less_used(), item@),
            decreases self.buckets@.len() - i,
        {
            proof {
                assert(buckets.take(i + 1).drop_last() =~= buckets.take(i as int));
                assert(buckets.take(i + 1).last() == self.buckets@[i as int]@);
            }
            if Self::was_used_before(&self.buckets[i], item) {
                count += 1;
            }
            i += 1;
        }
        assert(buckets.take(i as int) =~= buckets);
        count
    }

    fn rebase_activity_ordinals(&mut self)
        requires
            cache_holds(old(self)@),
        ensures
            final(self)@ == (CacheState {
                buckets: rebased_buckets(old(self)@.buckets),
                next: (old(self)@.buckets.len() + 1) as u64,
                ..old(self)@
            }),
    {
        let ghost start = self@;
        let ghost before = self.buckets@;
        let mut ranks: Vec<u64> = Vec::new();
        let mut i: usize = 0;
        while i < self.buckets.len()
            invariant
                i <= self.buckets@.len() <= MAX_DIAGNOSTIC_URI_BUCKETS,
                self@ == start,
                self.buckets@ == before,
                ranks@.len() == i,
                forall|k: int|
                    0 <= k < i ==> #[trigger] ranks@[k] == rank(
                        start.buckets,
                        less_used(),
                        start.buckets[k],
                    ),
                forall|k: int| 0 <= k < i ==> #[trigger] ranks@[k] <= MAX_DIAGNOSTIC_URI_BUCKETS,
            decreases self.buckets@.len() - i,
        {
            let count = self.rank_of(i);
            proof {
                lemma_rank_bound(start.buckets, less_used(), start.buckets[i as int]);
            }
            ranks.push(count);
            i += 1;
        }
        let mut j: usize = 0;
        while j < self.buckets.len()
            invariant
                j <= self.buckets@.len() == before.len(),
                ranks@.len() == before.len() <= MAX_DIAGNOSTIC_URI_BUCKETS,
                start.buckets == buckets_of(before),
                self@ == (CacheState { buckets: self@.buckets, ..start }),
                forall|k: int|
                    0 <= k < before.len() ==> #[trigger] ranks@[k] == rank(
                        start.buckets,
                        less_used(),
                        start.buckets[k],
                    ),
                forall|k: int|
                    0 <= k < before.len() ==> #[trigger] ranks@[k] <= MAX_DIAGNOSTIC_URI_BUCKETS,
                forall|k: int|
                    0 <= k < before.len() ==> (#[trigger] self.buckets@[k])@ == (if k < j {
                        rebased_buckets(start.buckets)[k]
                    } else {
                        start.buckets[k]
                    }),
            decreases before.len() - j,
        {
            assert(self.buckets@[j as int]@ == start.buckets[j as int]);
            self.buckets[j].activity_ordinal = ranks[j] + 1;
            j += 1;
        }
        self.next_activity_ordinal = self.buckets.len() as u64 + 1;
        assert(buckets_of(self.buckets@) =~= rebased_buckets(start.buckets));
    }
}

proof fn lemma_cached_member(buckets: Seq<Bucket>, i: int)
    requires
        distinct_buckets(buckets),
        0 <= i < buckets.len(),
    ensures
        bucket_index(buckets, buckets[i].uri) == i,
{
    lemma_bucket_index(buckets, buckets[i].uri);
    let k = bucket_index(buckets, buckets[i].uri);
    if k < i {
        assert(buckets[k].uri != buckets[i].uri);
    }
}

/// What a cache gives back for a URI after a replacement is what was kept of
/// the publication, and nothing where nothing was kept.
pub proof fn law_replacement_is_read_back(
    state: CacheState,
    uri: Seq<char>,
    findings: Seq<Finding>,
    base: int,
    estimates: Seq<Option<usize>>,
)
    requires
        cache_holds(state),
        published_uri_is_valid(uri),
        may_weigh(uri, findings, base, estimates),
    ensures
        ({
            let kept = kept_of(uri, base, inspected(findings), estimates).items;
            cached(replaced(state, uri, findings, base, estimates), uri) == (if kept.len() > 0 {
                Some(kept)
            } else {
                None
            })
        }),
{
    lemma_utf8_len_bounds(uri);
    law_replacement_stays_bounded(state, uri, findings, base, estimates);
    lemma_purged(state, uri);
    let after = replaced(state, uri, findings, base, estimates);
    lemma_bucket_index(after.buckets, uri);
    let kept = kept_of(uri, base, inspected(findings), estimates).items;
    if kept.len() > 0 {
        assert(after.buckets[after.buckets.len() - 1].uri == uri);
        lemma_cached_member(after.buckets, after.buckets.len() - 1);
    } else {
        let k = bucket_index(after.buckets, uri);
        if k < after.buckets.len() {
            assert(purged(state, uri).buckets[k].uri != uri);
        }
    }
}

/// A replacement changes no other URI's diagnostics: each is kept as it was, or
/// its bucket was evicted and the cache is partial.
pub proof fn law_replacement_keeps_other_uris(
    state: CacheState,
    uri: Seq<char>,
    other: Seq<char>,
    findings: Seq<Finding>,
    base: int,
    estimates: Seq<Option<usize>>,
)
    requires
        cache_holds(state),
        may_weigh(uri, findings, base, estimates),
        other != uri,
    ensures
        ({
            let after = replaced(state, uri, findings, base, estimates);
            cached(after, other) == cached(state, other) || (cached(after, other) is None
                && after.retention is Partial)
        }),
{
    lemma_utf8_len_bounds(uri);
    if published_uri_is_valid(uri) {
        law_replacement_stays_bounded(state, uri, findings, base, estimates);
        lemma_purged(state, uri);
        lemma_kept(uri, base, inspected(findings), estimates);
        let after = replaced(state, uri, findings, base, estimates);
        let kept = kept_of(uri, base, inspected(findings), estimates);
        let rest = CacheState {
            retention: lost(state.retention, kept.items.len() < findings.len()),
            ..purged(state, uri)
        };
        lemma_purge_keeps(state, uri, other);
        if kept.items.len() > 0 {
            let bytes = bucket_bytes(base, kept.items.len() as int, kept.heap);
            assert(bytes >= 0) by {
                assert(kept.items.len() * size_of::<Diagnostic>() >= 0) by (nonlinear_arith)
                    requires
                        kept.items.len() >= 0,
                        size_of::<Diagnostic>() >= 0,
                ;
            }
            lemma_bucket_room(rest, bytes);
            let room = with_bucket_room(rest, bytes);
            lemma_room_keeps(rest, bytes, other);
            lemma_ready_cache(room);
            lemma_bucket_index(after.buckets, other);
            lemma_bucket_index(room.buckets, other);
            let a = bucket_index(after.buckets, other);
            let r = bucket_index(room.buckets, other);
            if r < room.buckets.len() {
                assert(after.buckets[r] == ready_cache(room).buckets[r]);
                lemma_cached_member(after.buckets, r);
            } else if a < after.buckets.len() {
                assert(after.buckets[a] == ready_cache(room).buckets[a]);
                assert(room.buckets[a].uri == other);
            }
        }
    }
}

proof fn lemma_purge_keeps(state: CacheState, uri: Seq<char>, other: Seq<char>)
    requires
        cache_holds(state),
        other != uri,
    ensures
        cached(purged(state, uri), other) == cached(state, other),
{
    let index = bucket_index(state.buckets, uri);
    lemma_bucket_index(state.buckets, uri);
    if index < state.buckets.len() {
        lemma_without_keeps(state, index, other);
    }
}

proof fn lemma_without_keeps(state: CacheState, index: int, other: Seq<char>)
    requires
        cache_holds(state),
        0 <= index < state.buckets.len(),
        other != state.buckets[index].uri,
    ensures
        cached(without_bucket(state, index), other) == cached(state, other),
{
    let after = without_bucket(state, index).buckets;
    lemma_without_bucket(state, index);
    lemma_bucket_index(state.buckets, other);
    lemma_bucket_index(after, other);
    let k = bucket_index(state.buckets, other);
    if k < state.buckets.len() {
        let moved = if k < index {
            k
        } else {
            k - 1
        };
        assert(after[moved] == state.buckets[k]);
        lemma_cached_member(after, moved);
    } else {
        let a = bucket_index(after, other);
        if a < after.len() {
            if a < index {
                assert(after[a] == state.buckets[a]);
            } else {
                assert(after[a] == state.buckets[a + 1]);
            }
        }
    }
}

proof fn lemma_room_keeps(state: CacheState, bytes: int, other: Seq<char>)
    requires
        cache_holds(state),
        0 <= bytes <= MAX_DIAGNOSTIC_RETAINED_BYTES,
    ensures
        cached(with_bucket_room(state, bytes), other) == cached(state, other) || (cached(
            with_bucket_room(state, bytes),
            other,
        ) is None && with_bucket_room(state, bytes).buckets.len() < state.buckets.len()),
    decreases state.buckets.len(),
{
    if state.buckets.len() > 0 && (state.buckets.len() >= MAX_DIAGNOSTIC_URI_BUCKETS || state.bytes
        + bytes > MAX_DIAGNOSTIC_RETAINED_BYTES) {
        lemma_use_orders(state.buckets);
        lemma_first(state.buckets, less_used());
        let index = first_of(state.buckets, less_used());
        lemma_without_bucket(state, index);
        let next = CacheState {
            retention: RetentionStatus::Partial,
            ..without_bucket(state, index)
        };
        lemma_room_keeps(next, bytes, other);
        lemma_bucket_room(next, bytes);
        if other != state.buckets[index].uri {
            lemma_without_keeps(state, index, other);
        } else {
            lemma_bucket_index(next.buckets, other);
            let k = bucket_index(next.buckets, other);
            if k < next.buckets.len() {
                let old_index = if k < index {
                    k
                } else {
                    k + 1
                };
                assert(next.buckets[k] == state.buckets[old_index]);
                if old_index < index {
                    assert(state.buckets[old_index].uri != state.buckets[index].uri);
                } else {
                    assert(state.buckets[index].uri != state.buckets[old_index].uri);
                }
            }
        }
    }
}

/// Only clearing makes a cache complete again.
pub proof fn law_partial_cache_stays_partial(
    state: CacheState,
    uri: Seq<char>,
    findings: Seq<Finding>,
    base: int,
    estimates: Seq<Option<usize>>,
    index: int,
)
    requires
        cache_holds(state),
        state.retention is Partial,
        may_weigh(uri, findings, base, estimates),
    ensures
        replaced(state, uri, findings, base, estimates).retention is Partial,
        purged(state, uri).retention is Partial,
        used(state, index).retention is Partial,
{
    if published_uri_is_valid(uri) {
        lemma_purged(state, uri);
        lemma_kept(uri, base, inspected(findings), estimates);
        let kept = kept_of(uri, base, inspected(findings), estimates);
        if kept.items.len() > 0 {
            let bytes = bucket_bytes(base, kept.items.len() as int, kept.heap);
            let rest = CacheState {
                retention: lost(state.retention, kept.items.len() < findings.len()),
                ..purged(state, uri)
            };
            assert(bytes >= 0) by {
                assert(kept.items.len() * size_of::<Diagnostic>() >= 0) by (nonlinear_arith)
                    requires
                        kept.items.len() >= 0,
                        size_of::<Diagnostic>() >= 0,
                ;
            }
            lemma_bucket_room(rest, bytes);
        }
    }
}

/// A bucket that was used is more recent than every other one.
pub proof fn law_use_is_most_recent(state: CacheState, index: int, other: int)
    requires
        cache_holds(state),
        0 <= index < state.buckets.len(),
        0 <= other < state.buckets.len(),
        other != index,
    ensures
        less_used()(used(state, index).buckets[other], used(state, index).buckets[index]),
{
    lemma_ready_cache(state);
    assert(ready_cache(state).buckets[other].activity < ready_cache(state).next);
}

/// The estimate is zero for an empty cache and for no other.
pub proof fn law_only_an_empty_cache_takes_nothing(state: CacheState)
    requires
        cache_holds(state),
    ensures
        state.bytes == 0 <==> state.buckets.len() == 0,
        state.bytes <= MAX_DIAGNOSTIC_RETAINED_BYTES,
{
    if state.buckets.len() > 0 {
        let last = state.buckets.len() - 1;
        lemma_total_bounds(state.buckets.drop_last());
        assert(bucket_holds(state.buckets[last]));
    }
}

/// Purging a URI takes back what publishing for it added: where the cache held
/// nothing for the URI and nothing was evicted, the estimate is the same as
/// before.
pub proof fn law_purge_undoes_a_replacement(
    state: CacheState,
    uri: Seq<char>,
    findings: Seq<Finding>,
    base: int,
    estimates: Seq<Option<usize>>,
)
    requires
        cache_holds(state),
        may_weigh(uri, findings, base, estimates),
        cached(state, uri) is None,
        replace_report(state, uri, findings, base, estimates).evicted_buckets == 0,
    ensures
        purged(replaced(state, uri, findings, base, estimates), uri).bytes == state.bytes,
        purged(replaced(state, uri, findings, base, estimates), uri).buckets.len()
            == state.buckets.len(),
{
    lemma_utf8_len_bounds(uri);
    lemma_bucket_index(state.buckets, uri);
    let after = replaced(state, uri, findings, base, estimates);
    if published_uri_is_valid(uri) {
        law_replacement_stays_bounded(state, uri, findings, base, estimates);
        lemma_kept(uri, base, inspected(findings), estimates);
        let kept = kept_of(uri, base, inspected(findings), estimates);
        assert(purged(state, uri) == state);
        if kept.items.len() > 0 {
            let bytes = bucket_bytes(base, kept.items.len() as int, kept.heap);
            assert(kept.items.len() * size_of::<Diagnostic>() >= 0) by (nonlinear_arith)
                requires
                    kept.items.len() >= 0,
                    size_of::<Diagnostic>() >= 0,
            ;
            let rest = CacheState {
                retention: lost(state.retention, kept.items.len() < findings.len()),
                ..state
            };
            lemma_bucket_room(rest, bytes);
            let room = with_bucket_room(rest, bytes);
            lemma_ready_cache(room);
            assert(after.buckets.len() == room.buckets.len() + 1);
            lemma_whole_room(rest, bytes);
            assert(after.buckets[after.buckets.len() - 1].uri == uri);
            lemma_cached_member(after.buckets, after.buckets.len() - 1);
        }
    }
}

/// A cache that lost no bucket is the same cache.
proof fn lemma_whole_room(state: CacheState, bytes: int)
    requires
        cache_holds(state),
        0 <= bytes <= MAX_DIAGNOSTIC_RETAINED_BYTES,
        with_bucket_room(state, bytes).buckets.len() == state.buckets.len(),
    ensures
        with_bucket_room(state, bytes) == state,
{
    if state.buckets.len() > 0 && (state.buckets.len() >= MAX_DIAGNOSTIC_URI_BUCKETS || state.bytes
        + bytes > MAX_DIAGNOSTIC_RETAINED_BYTES) {
        lemma_use_orders(state.buckets);
        lemma_first(state.buckets, less_used());
        let index = first_of(state.buckets, less_used());
        lemma_without_bucket(state, index);
        lemma_bucket_room(
            CacheState { retention: RetentionStatus::Partial, ..without_bucket(state, index) },
            bytes,
        );
    }
}

} // verus!
