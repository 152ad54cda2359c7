//! What bounded stores promise: what is kept stays, what leaves is what was used
//! least recently, and nothing leaves without need.
use vstd::layout::size_of;
use vstd::prelude::*;
use vstd::utf8::*;

use crate::diagnostic_cache::{
    bucket_bytes, cache_holds, kept_of, lemma_bucket_room, lemma_use_orders, lemma_without_bucket,
    less_used, with_bucket_room, without_bucket, CacheState,
};
use crate::format_laws::{joined, lemma_joined_first};
use crate::lsp_session::{
    admitted, editor_index, lemma_ready, less_active, ready, registry_holds, uri_index, Entry,
    RegistryState, RetentionStatus,
};
use crate::lsp_ui::{Diagnostic, Finding};
use crate::onboarding::onboarding_location;
use crate::paths::{component, components_behind, is_absolute, is_same_path, path_join, starts_here};
use crate::recency::{first_of, lemma_first};
use crate::recovery::Snapshot;
use crate::services::records_below;
use crate::text::{lemma_encode_add, text_before};

verus! {

/// A document was active longer ago where its ordinal is smaller, and a bucket
/// was used longer ago where its is.
pub proof fn law_recency_is_told_by_ordinals(a: Entry, b: Entry)
    ensures
        a.activity < b.activity ==> less_active()(a, b) && !less_active()(b, a),
        a.activity == b.activity ==> (less_active()(a, b) <==> a.editor_id < b.editor_id),
{
}

/// A registry with room takes one more document and keeps all others: their
/// identities, versions and states stay as they are, in their order.
pub proof fn law_admission_below_capacity_keeps_all(state: RegistryState, document: Entry, i: int)
    requires
        registry_holds(state),
        state.documents.len() < 64,
        0 <= i < state.documents.len(),
    ensures
        ({
            let after = admitted(state, document);
            &&& after.documents.len() == state.documents.len() + 1
            &&& after.documents[i] == (Entry {
                activity: after.documents[i].activity,
                ..state.documents[i]
            })
            &&& after.documents.last() == (Entry {
                activity: after.documents.last().activity,
                ..document
            })
            &&& after.documents[i].activity < after.documents.last().activity
            &&& after.retention == state.retention
            &&& after.active == Some(document.editor_id)
        }),
{
    lemma_ready(state);
    assert(ready(state).documents[i].activity < ready(state).next);
}

/// A document is found under its editor and its URI: the index is the first one
/// that has it, or the number of documents where none has.
pub proof fn law_documents_are_found(documents: Seq<Entry>, editor_id: u64, uri: Seq<char>)
    ensures
        0 <= editor_index(documents, editor_id) <= documents.len(),
        editor_index(documents, editor_id) < documents.len() ==> documents[editor_index(
            documents,
            editor_id,
        )].editor_id == editor_id,
        forall|k: int|
            0 <= k < editor_index(documents, editor_id) ==> (#[trigger] documents[k]).editor_id
                != editor_id,
        0 <= uri_index(documents, uri) <= documents.len(),
        uri_index(documents, uri) < documents.len() ==> documents[uri_index(documents, uri)].uri
            == uri,
        forall|k: int|
            0 <= k < uri_index(documents, uri) ==> (#[trigger] documents[k]).uri != uri,
    decreases documents.len(),
{
    if documents.len() > 0 {
        let rest = documents.drop_first();
        law_documents_are_found(rest, editor_id, uri);
        assert forall|k: int| 0 <= k < editor_index(documents, editor_id) implies (
        #[trigger] documents[k]).editor_id != editor_id by {
            if k > 0 {
                assert(rest[k - 1] == documents[k]);
            }
        }
        assert forall|k: int| 0 <= k < uri_index(documents, uri) implies (
        #[trigger] documents[k]).uri != uri by {
            if k > 0 {
                assert(rest[k - 1] == documents[k]);
            }
        }
    }
}

/// A cache with room for a bucket evicts nothing.
pub proof fn law_room_is_left_alone(state: CacheState, bytes: int)
    requires
        state.buckets.len() < 128,
        state.bytes + bytes <= 8_388_608,
    ensures
        with_bucket_room(state, bytes) == state,
{
}

/// Where buckets leave, those used least recently leave first: each one that
/// leaves was used before each one that stays.
pub proof fn law_least_used_buckets_leave_first(state: CacheState, bytes: int, i: int, j: int)
    requires
        cache_holds(state),
        0 <= bytes <= 8_388_608,
        0 <= i < state.buckets.len(),
        0 <= j < state.buckets.len(),
        !with_bucket_room(state, bytes).buckets.contains(state.buckets[i]),
        with_bucket_room(state, bytes).buckets.contains(state.buckets[j]),
    ensures
        state.buckets[i].activity < state.buckets[j].activity || (state.buckets[i].activity
            == state.buckets[j].activity && text_before(
            state.buckets[i].uri,
            state.buckets[j].uri,
        )),
    decreases state.buckets.len(),
{
    let room = with_bucket_room(state, bytes);
    if state.buckets.len() >= 128 || state.bytes + bytes > 8_388_608 {
        lemma_use_orders(state.buckets);
        lemma_first(state.buckets, less_used());
        let index = first_of(state.buckets, less_used());
        lemma_without_bucket(state, index);
        let next = CacheState {
            retention: RetentionStatus::Partial,
            ..without_bucket(state, index)
        };
        assert(room == with_bucket_room(next, bytes));
        if i == index {
            if j != index {
                assert(less_used()(state.buckets[index], state.buckets[j]));
            }
        } else {
            let a = if i < index {
                i
            } else {
                i - 1
            };
            assert(next.buckets[a] == state.buckets[i]);
            if j == index {
                lemma_bucket_room(next, bytes);
                let k = choose|k: int|
                    0 <= k < room.buckets.len() && room.buckets[k] == state.buckets[j];
                assert(next.buckets.contains(room.buckets[k]));
                let m = choose|m: int| 0 <= m < next.buckets.len() && next.buckets[m]
                    == room.buckets[k];
                let n = if m < index {
                    m
                } else {
                    m + 1
                };
                assert(state.buckets[n] == next.buckets[m]);
                if n < index {
                    assert(state.buckets[n].uri != state.buckets[index].uri);
                } else {
                    assert(state.buckets[index].uri != state.buckets[n].uri);
                }
            } else {
                let b = if j < index {
                    j
                } else {
                    j - 1
                };
                assert(next.buckets[b] == state.buckets[j]);
                law_least_used_buckets_leave_first(next, bytes, a, b);
            }
        }
    } else {
        assert(room == state);
        assert(room.buckets.contains(state.buckets[i]));
    }
}

/// No bucket leaves without need: with the last one that left, there would be too
/// many buckets or too many bytes.
pub proof fn law_no_bucket_leaves_without_need(state: CacheState, bytes: int)
    requires
        cache_holds(state),
        0 <= bytes <= 8_388_608,
        with_bucket_room(state, bytes).buckets.len() < state.buckets.len(),
    ensures
        ({
            let room = with_bucket_room(state, bytes);
            room.buckets.len() + 1 >= 128 || exists|k: int|
                0 <= k < state.buckets.len() && room.bytes + (#[trigger] state.buckets[k]).bytes
                    + bytes > 8_388_608
        }),
    decreases state.buckets.len(),
{
    let room = with_bucket_room(state, bytes);
    lemma_use_orders(state.buckets);
    lemma_first(state.buckets, less_used());
    let index = first_of(state.buckets, less_used());
    lemma_without_bucket(state, index);
    let next = CacheState { retention: RetentionStatus::Partial, ..without_bucket(state, index) };
    assert(room == with_bucket_room(next, bytes));
    if room.buckets.len() < next.buckets.len() {
        law_no_bucket_leaves_without_need(next, bytes);
        if room.buckets.len() + 1 < 128 {
            let k = choose|k: int|
                0 <= k < next.buckets.len() && room.bytes + (#[trigger] next.buckets[k]).bytes
                    + bytes > 8_388_608;
            let n = if k < index {
                k
            } else {
                k + 1
            };
            assert(state.buckets[n] == next.buckets[k]);
        }
    } else {
        lemma_bucket_room(next, bytes);
        if next.buckets.len() > 0 && (next.buckets.len() >= 128 || next.bytes + bytes > 8_388_608) {
            lemma_use_orders(next.buckets);
            lemma_first(next.buckets, less_used());
            let inner = first_of(next.buckets, less_used());
            lemma_without_bucket(next, inner);
            let third = CacheState {
                retention: RetentionStatus::Partial,
                ..without_bucket(next, inner)
            };
            lemma_bucket_room(third, bytes);
        }
        assert(room == next);
        assert(state.bytes == room.bytes + state.buckets[index].bytes);
        if state.buckets.len() < 128 {
            assert(room.bytes + state.buckets[index].bytes + bytes > 8_388_608);
        }
    }
}

/// Where there is room for all of them, the diagnostics of a publication that
/// belong to its URI are kept, in their order, and no others.
pub proof fn law_publication_is_kept(
    uri: Seq<char>,
    base: int,
    findings: Seq<Finding>,
    estimates: Seq<Option<usize>>,
    each: int,
)
    requires
        0 <= base,
        0 <= each,
        estimates.len() == findings.len(),
        forall|i: int|
            0 <= i < estimates.len() ==> (#[trigger] estimates[i] matches Some(bytes) && bytes
                <= each),
        base + findings.len() * (size_of::<Diagnostic>() + each) <= 8_388_608,
    ensures
        kept_of(uri, base, findings, estimates).items == findings.filter(
            |finding: Finding| finding.uri == uri,
        ),
        0 <= kept_of(uri, base, findings, estimates).heap <= findings.len() * each,
        kept_of(uri, base, findings, estimates).items.len() <= findings.len(),
    decreases findings.len(),
{
    reveal(Seq::filter);
    let n = findings.len() as int;
    if n > 0 {
        let front = findings.drop_last();
        let rest = estimates.drop_last();
        let size = size_of::<Diagnostic>() as int;
        assert forall|i: int| 0 <= i < rest.len() implies (#[trigger] rest[i] matches Some(bytes)
            && bytes <= each) by {
            assert(rest[i] == estimates[i]);
        }
        assert((n - 1) * (size + each) <= n * (size + each)) by (nonlinear_arith)
            requires
                n >= 1,
                size >= 0,
                each >= 0,
        ;
        law_publication_is_kept(uri, base, front, rest, each);
        let kept = kept_of(uri, base, front, rest);
        let last = estimates[n - 1]->0 as int;
        assert(estimates.last() == estimates[n - 1]);
        let count = kept.items.len() as int + 1;
        assert(count * size <= n * size) by (nonlinear_arith)
            requires
                count <= n,
                size >= 0,
        ;
        assert(kept.heap + last <= n * each) by (nonlinear_arith)
            requires
                kept.heap <= (n - 1) * each,
                last <= each,
        ;
        assert(n * (size + each) == n * size + n * each) by (nonlinear_arith);
        assert((n - 1) * each <= n * each) by (nonlinear_arith)
            requires
                each >= 0,
        ;
        assert(bucket_bytes(base, count, kept.heap + last) <= 8_388_608);
    }
}

/// The records of a workspace are those whose root is the same path, in their
/// order.
pub proof fn law_records_of_a_workspace(records: Seq<Snapshot>, root: Seq<u8>)
    ensures
        records_below(records, root) == records.filter(
            |record: Snapshot| is_same_path(record.workspace_root, root),
        ),
    decreases records.len(),
{
    reveal(Seq::filter);
    if records.len() > 0 {
        law_records_of_a_workspace(records.drop_last(), root);
    }
}

proof fn lemma_components_scan(path: Seq<u8>, start: int, i: int, end: int)
    requires
        0 <= start <= i <= end <= path.len(),
        forall|k: int| i <= k < end ==> path[k] != 47,
        end == path.len() || path[end] == 47,
    ensures
        components_behind(path, start, i) == component(path.subrange(start, end)) + if end
            == path.len() {
            Seq::empty()
        } else {
            components_behind(path, end + 1, end + 1)
        },
    decreases end - i,
{
    if i < end {
        lemma_components_scan(path, start, i + 1, end);
    } else if end == path.len() {
        assert(component(path.subrange(start, end)) + Seq::<Seq<u8>>::empty() =~= component(
            path.subrange(start, end),
        ));
    }
}

proof fn lemma_components(path: Seq<u8>, at: int, first: Seq<u8>, rest: Seq<Seq<u8>>)
    requires
        0 <= at <= path.len(),
        path.skip(at) == first + joined(rest),
        !first.contains(47u8),
        forall|i: int| 0 <= i < rest.len() ==> !(#[trigger] rest[i]).contains(47u8),
    ensures
        components_behind(path, at, at) == (seq![first] + rest).filter(
            |part: Seq<u8>| part.len() > 0 && part != seq![46u8],
        ),
    decreases rest.len(),
{
    let keep = |part: Seq<u8>| part.len() > 0 && part != seq![46u8];
    let end = at + first.len();
    let tail = path.skip(at);
    assert(tail.len() == first.len() + joined(rest).len());
    assert forall|k: int| 0 <= k < first.len() implies path[at + k] == first[k] by {
        assert(tail[k] == path[at + k]);
    }
    assert(path.subrange(at, end) =~= first);
    assert forall|k: int| at <= k < end implies path[k] != 47 by {
        assert(first[k - at] == path[k]);
        assert(first.contains(first[k - at]));
    }
    assert(path.skip(end) =~= joined(rest)) by {
        assert forall|k: int| 0 <= k < joined(rest).len() implies path[end + k] == joined(rest)[k] by {
            assert(tail[first.len() + k] == path[end + k]);
        }
    }
    Seq::filter_distributes_over_add(seq![first], rest, keep);
    reveal(Seq::filter);
    assert(seq![first].drop_last() =~= Seq::<Seq<u8>>::empty());
    assert(seq![first].last() == first);
    assert(seq![first].drop_last().filter(keep) =~= Seq::<Seq<u8>>::empty());
    assert(seq![first].filter(keep) =~= component(first)) by {
        if keep(first) {
            assert(seq![first].filter(keep) == seq![first].drop_last().filter(keep).push(first));
        } else {
            assert(seq![first].filter(keep) == seq![first].drop_last().filter(keep));
        }
    }
    if rest.len() == 0 {
        assert(rest.map_values(|part: Seq<u8>| seq![47u8] + part) =~= Seq::<Seq<u8>>::empty());
        assert(joined(rest).len() == 0);
        lemma_components_scan(path, at, at, end);
        assert(rest.filter(keep) =~= Seq::<Seq<u8>>::empty());
    } else {
        lemma_joined_first(rest);
        assert(path.skip(end)[0] == 47);
        lemma_components_scan(path, at, at, end);
        let more = rest.drop_first();
        assert(path.skip(end + 1) =~= rest[0] + joined(more)) by {
            assert forall|k: int| 0 <= k < rest[0].len() + joined(more).len() implies path[end + 1
                + k] == (rest[0] + joined(more))[k] by {
                assert(path.skip(end)[k + 1] == path[end + 1 + k]);
            }
        }
        assert forall|i: int| 0 <= i < more.len() implies !(#[trigger] more[i]).contains(47u8) by {
            assert(more[i] == rest[i + 1]);
        }
        assert(!rest[0].contains(47u8));
        lemma_components(path, end + 1, rest[0], more);
        assert(seq![rest[0]] + more =~= rest);
    }
}

/// Paths are the same if and only if both or neither start at the root, both or
/// neither start with a dot, and they have the same parts in the same order,
/// empty parts and single dots left out. The paths are given part by part.
pub proof fn law_same_paths_have_the_same_parts(
    a: Seq<u8>,
    more: Seq<Seq<u8>>,
    b: Seq<u8>,
    others: Seq<Seq<u8>>,
)
    requires
        !a.contains(47u8),
        !b.contains(47u8),
        forall|i: int| 0 <= i < more.len() ==> !(#[trigger] more[i]).contains(47u8),
        forall|i: int| 0 <= i < others.len() ==> !(#[trigger] others[i]).contains(47u8),
    ensures
        ({
            let slash = |part: Seq<u8>| seq![47u8] + part;
            let x = a + more.map_values(slash).flatten();
            let y = b + others.map_values(slash).flatten();
            let keep = |part: Seq<u8>| part.len() > 0 && part != seq![46u8];
            is_same_path(x, y) <==> {
                &&& (a.len() == 0 && more.len() > 0) == (b.len() == 0 && others.len() > 0)
                &&& (a == seq![46u8]) == (b == seq![46u8])
                &&& (seq![a] + more).filter(keep) == (seq![b] + others).filter(keep)
            }
        }),
{
    let x = a + joined(more);
    let y = b + joined(others);
    assert(x.skip(0) =~= x);
    assert(y.skip(0) =~= y);
    lemma_components(x, 0, a, more);
    lemma_components(y, 0, b, others);
    lemma_start(a, more);
    lemma_start(b, others);
}

proof fn lemma_start(a: Seq<u8>, more: Seq<Seq<u8>>)
    requires
        !a.contains(47u8),
    ensures
        is_absolute(a + joined(more)) <==> a.len() == 0 && more.len() > 0,
        starts_here(a + joined(more)) <==> a == seq![46u8],
{
    let x = a + joined(more);
    if more.len() > 0 {
        lemma_joined_first(more);
        assert(joined(more)[0] == 47);
        assert(x[a.len() as int] == joined(more)[0]);
    } else {
        assert(more.map_values(|part: Seq<u8>| seq![47u8] + part) =~= Seq::<Seq<u8>>::empty());
        assert(joined(more).len() == 0);
    }
    if a.len() > 0 {
        assert(x[0] == a[0]);
        assert(a.contains(a[0]));
    }
    if a.len() > 1 {
        assert(x[1] == a[1]);
        assert(a.contains(a[1]));
    }
    if starts_here(x) {
        if a.len() == 0 {
            assert(more.len() > 0);
        }
        assert(a =~= seq![46u8]);
    }
}

proof fn lemma_below(base: Seq<u8>, a: Seq<char>, b: Seq<char>)
    requires
        base.len() > 0,
        base.last() != 47,
        encode_utf8(a).len() > 0,
        encode_utf8(a).last() != 47,
    ensures
        path_join(path_join(base, encode_utf8(a)), encode_utf8(b)) == base + encode_utf8(
            "/"@ + a + "/"@ + b,
        ),
        path_join(base, encode_utf8(a)) == base + encode_utf8("/"@ + a),
{
    reveal_strlit("/");
    let slash = "/"@;
    assert(is_ascii_chars(slash));
    is_ascii_chars_encode_utf8(slash);
    assert(encode_utf8(slash) =~= seq![47u8]);
    lemma_encode_add(slash, a);
    lemma_encode_add(slash + a, slash);
    lemma_encode_add(slash + a + slash, b);
    let first = path_join(base, encode_utf8(a));
    assert(first =~= base + encode_utf8(slash + a));
    assert(first.last() == encode_utf8(a).last());
    assert(path_join(first, encode_utf8(b)) =~= base + encode_utf8(slash + a + slash + b));
}

/// That the help was seen is kept below the state directory that the environment
/// names, where that is absolute, and below that of the home directory
/// otherwise.
pub proof fn law_onboarding_location(xdg: Option<Seq<u8>>, home: Option<Seq<u8>>)
    requires
        xdg matches Some(value) ==> value.len() == 0 || value.last() != 47,
        home matches Some(value) ==> value.len() == 0 || value.last() != 47,
    ensures
        onboarding_location(xdg, home) == if xdg is Some && xdg->0.len() > 0 && xdg->0[0] == 47 {
            Some(xdg->0 + encode_utf8("/wscrpt/onboarding.toml"@))
        } else if home is Some && home->0.len() > 0 {
            Some(home->0 + encode_utf8("/.local/state/wscrpt/onboarding.toml"@))
        } else {
            None
        },
{
    reveal_strlit("/");
    reveal_strlit("wscrpt");
    reveal_strlit("onboarding.toml");
    reveal_strlit(".local/state");
    reveal_strlit("/wscrpt/onboarding.toml");
    reveal_strlit("/.local/state/wscrpt/onboarding.toml");
    assert(is_ascii_chars("wscrpt"@));
    is_ascii_chars_encode_utf8("wscrpt"@);
    assert(is_ascii_chars(".local/state"@));
    is_ascii_chars_encode_utf8(".local/state"@);
    assert("/wscrpt/onboarding.toml"@ =~= "/"@ + "wscrpt"@ + "/"@ + "onboarding.toml"@);
    if xdg is Some && xdg->0.len() > 0 && xdg->0[0] == 47 {
        lemma_below(xdg->0, "wscrpt"@, "onboarding.toml"@);
    } else if home is Some && home->0.len() > 0 {
        let base = home->0;
        lemma_below(base, ".local/state"@, "wscrpt"@);
        let inner = path_join(base, encode_utf8(".local/state"@));
        lemma_below(inner, "wscrpt"@, "onboarding.toml"@);
        let front = "/"@ + ".local/state"@;
        let back = "/"@ + "wscrpt"@ + "/"@ + "onboarding.toml"@;
        lemma_encode_add(front, back);
        assert(front + back =~= "/.local/state/wscrpt/onboarding.toml"@);
        assert(base + encode_utf8(front) + encode_utf8(back) =~= base + encode_utf8(front + back));
    }
}

} // verus!
