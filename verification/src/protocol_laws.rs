//! What a session promises: how the capabilities of a server are read, what its
//! messages lead to, and which requests a client refuses.
use vstd::prelude::*;
use vstd::utf8::*;

use crate::file_uri::{component_count, lexical, path_of, uri_of};
use crate::format_laws::{law_binding_changes_one_key, law_decimal_is_read_back};
use crate::json::{
    lemma_members_from, lookup, members_from, object_of, signed_of, unsigned_of, Json, JsonValue,
};
use crate::json_write::{height, printed};
use crate::lsp::{DocumentVersion, LspPosition};
use crate::lsp_client::{
    about_document, at_position, change_refusal, document_capabilities, initialize_message,
    initialize_params, open_refusal, readiness, version_check, workspace_capabilities, ClientState,
};
use crate::lsp_command::{command_text, writable, ClientCommand, RequestScope, Scope};
use crate::lsp_protocol::{
    diagnostics_event, message_text, notification_message, offers_workspace_symbols, on_command,
    on_message, position_value, ready_event, refusal, request_message, sync_of,
    Action, Known, LspPhase,
};
use crate::lsp_tables::{
    deferred_in, distinct_requests, is_initializing, lemma_request_index, lemma_requests,
    request_index, request_of, with_request, without_request, Pending,
};
use crate::lsp_types::{
    ClientError, DocumentIncarnation, Event, LspOperation, OpenDocumentState, RequestId, RpcError,
};
use crate::text::{decimal, signed_decimal};

verus! {

/// A plain number says how changes are sent: 1 for the whole text, 2 for changed
/// ranges. Either one also asks for opening and closing, and neither for saving.
pub proof fn law_synchronization_by_number(members: Seq<(Seq<char>, Json)>, kind: u64)
    requires
        lookup(members, "textDocumentSync"@) == Some(Json::Number(decimal(kind as nat))),
    ensures
        ({
            let sync = sync_of(Json::Table(members));
            &&& sync.open_close <==> kind == 1 || kind == 2
            &&& sync.full <==> kind == 1
            &&& sync.incremental <==> kind == 2
            &&& !sync.save
            &&& !sync.save_include_text
        }),
{
    law_decimal_is_read_back(kind as nat);
}

/// Options say of each kind of synchronization whether it is asked for.
pub proof fn law_synchronization_by_options(
    members: Seq<(Seq<char>, Json)>,
    options: Seq<(Seq<char>, Json)>,
    kind: u64,
)
    requires
        lookup(members, "textDocumentSync"@) == Some(Json::Table(options)),
    ensures
        ({
            let sync = sync_of(Json::Table(members));
            let change = lookup(options, "change"@);
            &&& sync.open_close <==> lookup(options, "openClose"@) == Some(Json::Bool(true))
            &&& change == Some(Json::Number(decimal(kind as nat))) ==> (sync.full <==> kind == 1)
            &&& change == Some(Json::Number(decimal(kind as nat))) ==> (sync.incremental <==> kind
                == 2)
            &&& change is None ==> !sync.full && !sync.incremental
            &&& !(change matches Some(Json::Number(_))) ==> !sync.full && !sync.incremental
            &&& sync.save <==> match lookup(options, "save"@) {
                Some(Json::Bool(save)) => save,
                Some(Json::Table(_)) => true,
                _ => false,
            }
            &&& sync.save_include_text <==> match lookup(options, "save"@) {
                Some(Json::Table(save)) => lookup(save, "includeText"@) == Some(Json::Bool(true)),
                _ => false,
            }
        }),
{
    law_decimal_is_read_back(kind as nat);
}

/// A server that does not speak of synchronization asks for none.
pub proof fn law_synchronization_is_asked_for(members: Seq<(Seq<char>, Json)>)
    requires
        match lookup(members, "textDocumentSync"@) {
            Some(Json::Number(_)) => false,
            Some(Json::Table(_)) => false,
            _ => true,
        },
    ensures
        ({
            let sync = sync_of(Json::Table(members));
            !sync.open_close && !sync.full && !sync.incremental && !sync.save
                && !sync.save_include_text
        }),
{
}

/// Workspace symbols are offered by `true` or by options, and by nothing else.
pub proof fn law_workspace_symbols_are_offered(members: Seq<(Seq<char>, Json)>)
    ensures
        offers_workspace_symbols(Json::Table(members)) <==> lookup(
            members,
            "workspaceSymbolProvider"@,
        ) == Some(Json::Bool(true)) || lookup(
            members,
            "workspaceSymbolProvider"@,
        ) matches Some(Json::Table(_)),
{
}

/// The editor learns the capabilities that the server listed, and `null` where
/// it listed none.
pub proof fn law_capabilities_are_told(result: Seq<(Seq<char>, Json)>)
    ensures
        match ready_event(Json::Table(result)) {
            Event::Ready { capabilities, workspace_symbols, text_document_sync } => {
                &&& lookup(result, "capabilities"@) matches Some(listed) ==> capabilities == listed
                &&& lookup(result, "capabilities"@) is None ==> capabilities == Json::Null
                &&& workspace_symbols == offers_workspace_symbols(capabilities)
                &&& text_document_sync == sync_of(capabilities)
            },
            _ => false,
        },
{
}

/// The members of an object are those that it was made of, where no key occurs
/// twice.
proof fn lemma_object_members(pairs: Seq<(Seq<char>, Json)>, key: Seq<char>)
    requires
        forall|i: int, j: int|
            0 <= i < j < pairs.len() ==> #[trigger] pairs[i].0 != #[trigger] pairs[j].0,
    ensures
        forall|i: int|
            0 <= i < pairs.len() && (#[trigger] pairs[i]).0 == key ==> lookup(
                members_from(pairs),
                key,
            ) == Some(pairs[i].1),
        (forall|i: int| 0 <= i < pairs.len() ==> (#[trigger] pairs[i]).0 != key) ==> lookup(
            members_from(pairs),
            key,
        ) is None,
    decreases pairs.len(),
{
    if pairs.len() > 0 {
        let front = pairs.drop_last();
        let last = pairs.len() - 1;
        assert forall|i: int, j: int| 0 <= i < j < front.len() implies #[trigger] front[i].0
            != #[trigger] front[j].0 by {
            assert(front[i] == pairs[i] && front[j] == pairs[j]);
        }
        lemma_object_members(front, key);
        lemma_members_from(front);
        law_binding_changes_one_key(members_from(front), pairs[last].0, pairs[last].1, key);
        assert forall|i: int| 0 <= i < pairs.len() && (#[trigger] pairs[i]).0 == key implies lookup(
            members_from(pairs),
            key,
        ) == Some(pairs[i].1) by {
            if i < last {
                assert(front[i] == pairs[i]);
            }
        }
        if forall|i: int| 0 <= i < pairs.len() ==> (#[trigger] pairs[i]).0 != key {
            assert forall|i: int| 0 <= i < front.len() implies (#[trigger] front[i]).0 != key by {
                assert(front[i] == pairs[i]);
            }
        }
    }
}

/// A request holds the protocol version, its number, its method and its
/// parameters, and nothing else.
pub proof fn law_request_members(
    id: RequestId,
    method: Seq<char>,
    params: Json,
    other: Seq<char>,
)
    ensures
        match request_message(id, method, params) {
            Json::Table(members) => {
                &&& lookup(members, "jsonrpc"@) == Some(Json::Text("2.0"@))
                &&& lookup(members, "id"@) == Some(Json::Number(decimal(id as nat)))
                &&& lookup(members, "method"@) == Some(Json::Text(method))
                &&& lookup(members, "params"@) == Some(params)
                &&& !seq!["jsonrpc"@, "id"@, "method"@, "params"@].contains(other) ==> lookup(
                    members,
                    other,
                ) is None
            },
            _ => false,
        },
{
    reveal_strlit("jsonrpc");
    reveal_strlit("id");
    reveal_strlit("method");
    reveal_strlit("params");
    let keys = seq!["jsonrpc"@, "id"@, "method"@, "params"@];
    let pairs = seq![
        ("jsonrpc"@, Json::Text("2.0"@)),
        ("id"@, Json::Number(decimal(id as nat))),
        ("method"@, Json::Text(method)),
        ("params"@, params),
    ];
    assert("jsonrpc"@.len() == 7 && "id"@.len() == 2);
    assert("method"@[0] == 'm' && "params"@[0] == 'p');
    lemma_object_members(pairs, "jsonrpc"@);
    lemma_object_members(pairs, "id"@);
    lemma_object_members(pairs, "method"@);
    lemma_object_members(pairs, "params"@);
    lemma_object_members(pairs, other);
    assert(pairs[0].0 == "jsonrpc"@ && pairs[1].0 == "id"@ && pairs[2].0 == "method"@ && pairs[3].0
        == "params"@);
    if !keys.contains(other) {
        assert forall|i: int| 0 <= i < pairs.len() implies (#[trigger] pairs[i]).0 != other by {
            assert(keys[i] == pairs[i].0);
        }
    }
}

/// A notification holds the protocol version, its method and its parameters, and
/// nothing else: it has no number.
pub proof fn law_notification_members(method: Seq<char>, params: Json, other: Seq<char>)
    ensures
        match notification_message(method, params) {
            Json::Table(members) => {
                &&& lookup(members, "jsonrpc"@) == Some(Json::Text("2.0"@))
                &&& lookup(members, "method"@) == Some(Json::Text(method))
                &&& lookup(members, "params"@) == Some(params)
                &&& !seq!["jsonrpc"@, "method"@, "params"@].contains(other) ==> lookup(
                    members,
                    other,
                ) is None
            },
            _ => false,
        },
{
    reveal_strlit("jsonrpc");
    reveal_strlit("method");
    reveal_strlit("params");
    let keys = seq!["jsonrpc"@, "method"@, "params"@];
    let pairs = seq![
        ("jsonrpc"@, Json::Text("2.0"@)),
        ("method"@, Json::Text(method)),
        ("params"@, params),
    ];
    assert("jsonrpc"@[0] == 'j' && "method"@[0] == 'm' && "params"@[0] == 'p');
    lemma_object_members(pairs, "jsonrpc"@);
    lemma_object_members(pairs, "method"@);
    lemma_object_members(pairs, "params"@);
    lemma_object_members(pairs, other);
    assert(pairs[0].0 == "jsonrpc"@ && pairs[1].0 == "method"@ && pairs[2].0 == "params"@);
    if !keys.contains(other) {
        assert forall|i: int| 0 <= i < pairs.len() implies (#[trigger] pairs[i]).0 != other by {
            assert(keys[i] == pairs[i].0);
        }
    }
}

/// A request of the server is answered: not supported. The answer repeats the
/// number of the request.
pub proof fn law_refusal_members(id: Json)
    ensures
        match refusal(id) {
            Json::Table(members) => {
                &&& lookup(members, "jsonrpc"@) == Some(Json::Text("2.0"@))
                &&& lookup(members, "id"@) == Some(id)
                &&& lookup(members, "result"@) is None
                &&& match lookup(members, "error"@) {
                    Some(Json::Table(error)) => {
                        &&& lookup(error, "code"@) matches Some(code) && signed_of(code) == Some(
                            -32601i64,
                        )
                        &&& lookup(error, "message"@) == Some(
                            Json::Text("method not supported by wscrpt"@),
                        )
                    },
                    _ => false,
                }
            },
            _ => false,
        },
{
    reveal_strlit("jsonrpc");
    reveal_strlit("id");
    reveal_strlit("error");
    reveal_strlit("result");
    reveal_strlit("code");
    reveal_strlit("message");
    let inner = seq![
        ("code"@, Json::Number(signed_decimal(-32601))),
        ("message"@, Json::Text("method not supported by wscrpt"@)),
    ];
    let pairs = seq![("jsonrpc"@, Json::Text("2.0"@)), ("id"@, id), ("error"@, object_of(inner))];
    assert("jsonrpc"@[0] == 'j' && "id"@[0] == 'i' && "error"@[0] == 'e' && "result"@[0] == 'r');
    assert("code"@[0] == 'c' && "message"@[0] == 'm');
    assert(pairs[0].0 == "jsonrpc"@ && pairs[1].0 == "id"@ && pairs[2].0 == "error"@);
    assert(inner[0].0 == "code"@ && inner[1].0 == "message"@);
    lemma_object_members(pairs, "jsonrpc"@);
    lemma_object_members(pairs, "id"@);
    lemma_object_members(pairs, "error"@);
    lemma_object_members(pairs, "result"@);
    lemma_object_members(inner, "code"@);
    lemma_object_members(inner, "message"@);
    law_decimal_is_read_back(32601);
    assert(pairs[2].1 == object_of(inner));
    assert(inner[0].1 == Json::Number(seq!['-'] + decimal(32601)));
}

/// A position is sent as its line and its offset in the line, both counted from
/// zero.
pub proof fn law_position_members(position: LspPosition)
    ensures
        match at_position(position) {
            Json::Table(members) => match lookup(members, "position"@) {
                Some(Json::Table(place)) => {
                    &&& lookup(place, "line"@) matches Some(line) && unsigned_of(line) == Some(
                        position.line.index as u64,
                    )
                    &&& lookup(place, "character"@) matches Some(column) && unsigned_of(column)
                        == Some(position.character.units as u64)
                },
                _ => false,
            },
            _ => false,
        },
{
    reveal_strlit("line");
    reveal_strlit("character");
    let inner = seq![
        ("line"@, Json::Number(decimal(position.line.index as nat))),
        ("character"@, Json::Number(decimal(position.character.units as nat))),
    ];
    let pairs = seq![("position"@, position_value(position))];
    assert("line"@[0] == 'l' && "character"@[0] == 'c');
    assert(inner[0].0 == "line"@ && inner[1].0 == "character"@);
    assert(pairs[0].0 == "position"@);
    lemma_object_members(pairs, "position"@);
    lemma_object_members(inner, "line"@);
    lemma_object_members(inner, "character"@);
    law_decimal_is_read_back(position.line.index as nat);
    law_decimal_is_read_back(position.character.units as nat);
    assert(position_value(position) == object_of(inner));
}

/// The parameters of a request about a document name it by its URI, beside what
/// they held.
pub proof fn law_parameters_name_the_document(
    pairs: Seq<(Seq<char>, Json)>,
    uri: Seq<char>,
    other: Seq<char>,
)
    ensures
        match about_document(object_of(pairs), uri) {
            Json::Table(members) => {
                &&& match lookup(members, "textDocument"@) {
                    Some(Json::Table(document)) => lookup(document, "uri"@) == Some(
                        Json::Text(uri),
                    ),
                    _ => false,
                }
                &&& other != "textDocument"@ ==> lookup(members, other) == lookup(
                    members_from(pairs),
                    other,
                )
            },
            _ => false,
        },
{
    let inner = seq![("uri"@, Json::Text(uri))];
    assert(inner[0].0 == "uri"@);
    lemma_members_from(pairs);
    lemma_object_members(inner, "uri"@);
    law_binding_changes_one_key(
        members_from(pairs),
        "textDocument"@,
        object_of(inner),
        other,
    );
}

/// Setting or removing a request leaves every other request as it was.
pub proof fn law_requests_do_not_disturb_each_other(
    requests: Seq<(RequestId, Pending)>,
    id: RequestId,
    request: Pending,
    other: RequestId,
)
    requires
        distinct_requests(requests),
    ensures
        request_of(with_request(requests, id, request), id) == Some(request),
        request_of(without_request(requests, id), id) is None,
        other != id ==> request_of(with_request(requests, id, request), other) == request_of(
            requests,
            other,
        ),
        other != id ==> request_of(without_request(requests, id), other) == request_of(
            requests,
            other,
        ),
{
    lemma_requests(requests, id, request);
    let set = with_request(requests, id, request);
    let out = without_request(requests, id);
    lemma_request_index(requests, id);
    lemma_request_index(requests, other);
    lemma_request_index(set, other);
    lemma_request_index(out, other);
    if other != id {
        if let Some(k) = request_index(requests, other) {
            assert(set[k] == requests[k]);
            let at = match request_index(requests, id) {
                Some(i) => if k < i {
                    k
                } else {
                    k - 1
                },
                None => k,
            };
            assert(out[at] == requests[k]);
            if let Some(j) = request_index(set, other) {
                if j != k {
                    assert(set[j].0 == requests[j].0);
                    if j < k {
                        assert(requests[j].0 != requests[k].0);
                    } else {
                        assert(requests[k].0 != requests[j].0);
                    }
                }
            }
            if let Some(j) = request_index(out, other) {
                if j < at {
                    assert(out[j].0 != out[at].0);
                } else if at < j {
                    assert(out[at].0 != out[j].0);
                }
            }
        } else {
            if let Some(j) = request_index(set, other) {
                assert(set[j].0 == other);
                assert(set[j] == requests[j]);
            }
            if let Some(j) = request_index(out, other) {
                assert(out[j].0 == other);
                match request_index(requests, id) {
                    Some(i) => {
                        if j < i {
                            assert(out[j] == requests[j]);
                        } else {
                            assert(out[j] == requests[j + 1]);
                        }
                    },
                    None => {},
                }
            }
        }
    }
}

/// Whether a message is a response to request `id`.
pub open spec fn responds(members: Seq<(Seq<char>, Json)>, id: RequestId) -> bool {
    &&& lookup(members, "jsonrpc"@) == Some(Json::Text("2.0"@))
    &&& lookup(members, "method"@) is None
    &&& lookup(members, "id"@) == Some(Json::Number(decimal(id as nat)))
}

/// The result of a request about a document reaches the editor under the number
/// that it was asked with, as long as the document is as it was then; otherwise
/// the editor learns that it is stale.
pub proof fn law_results_are_answered(
    members: Seq<(Seq<char>, Json)>,
    id: RequestId,
    request: Pending,
    known: Known,
    optimistic: Map<Seq<char>, OpenDocumentState>,
    max: usize,
    uri: Seq<char>,
    version: DocumentVersion,
    incarnation: DocumentIncarnation,
    result: Json,
)
    requires
        responds(members, id),
        lookup(members, "result"@) == Some(result),
        lookup(members, "error"@) is None,
        request_of(known.pending, id) == Some(request),
        request.sent,
        request.scope == Some(Scope::Document { uri, version, incarnation }),
        request.operation != LspOperation::Initialize,
        request.operation != LspOperation::Shutdown,
        request.operation != LspOperation::WorkspaceSymbols,
    ensures
        ({
            let (pending, plan) = on_message(members, known, optimistic, max);
            let current = optimistic.contains_key(uri) && optimistic[uri].version == version
                && optimistic[uri].incarnation == incarnation;
            &&& pending == without_request(known.pending, id)
            &&& plan.keep_running
            &&& plan.actions.len() == 1
            &&& current ==> plan.actions[0] == Action::Emit(
                Event::Answer {
                    operation: request.operation,
                    request_id: id,
                    uri,
                    version,
                    result,
                },
            )
            &&& !current ==> plan.actions[0] == Action::Emit(
                Event::StaleResponse {
                    request_id: id,
                    operation: request.operation,
                    uri,
                    requested_version: version,
                    current_version: if optimistic.contains_key(uri) {
                        Some(optimistic[uri].version)
                    } else {
                        None
                    },
                },
            )
        }),
{
    law_decimal_is_read_back(id as nat);
}

/// Workspace symbols reach the editor under the number that they were asked
/// with.
pub proof fn law_workspace_symbols_are_answered(
    members: Seq<(Seq<char>, Json)>,
    id: RequestId,
    request: Pending,
    known: Known,
    optimistic: Map<Seq<char>, OpenDocumentState>,
    max: usize,
    result: Json,
)
    requires
        responds(members, id),
        lookup(members, "result"@) == Some(result),
        lookup(members, "error"@) is None,
        request_of(known.pending, id) == Some(request),
        request.sent,
        request.scope == Some(Scope::Workspace),
        request.operation == LspOperation::WorkspaceSymbols,
    ensures
        ({
            let (pending, plan) = on_message(members, known, optimistic, max);
            &&& pending == without_request(known.pending, id)
            &&& plan.keep_running
            &&& plan.actions.len() == 1
            &&& plan.actions[0] == Action::Emit(Event::WorkspaceSymbols { request_id: id, result })
        }),
{
    law_decimal_is_read_back(id as nat);
}

/// An error of the server reaches the editor with its code, its message and its
/// data. It ends the session only where initializing or shutting down failed.
pub proof fn law_errors_are_told(
    members: Seq<(Seq<char>, Json)>,
    error: Seq<(Seq<char>, Json)>,
    id: RequestId,
    request: Pending,
    known: Known,
    optimistic: Map<Seq<char>, OpenDocumentState>,
    max: usize,
    code: i64,
    message: Seq<char>,
)
    requires
        responds(members, id),
        lookup(members, "result"@) is None,
        lookup(members, "error"@) == Some(Json::Table(error)),
        lookup(error, "code"@) == Some(Json::Number(signed_decimal(code as int))),
        lookup(error, "message"@) == Some(Json::Text(message)),
        request_of(known.pending, id) == Some(request),
        request.sent,
    ensures
        ({
            let (pending, plan) = on_message(members, known, optimistic, max);
            &&& pending == without_request(known.pending, id)
            &&& plan.actions.len() > 0
            &&& plan.actions[0] == Action::Emit(
                Event::RequestFailed {
                    request_id: id,
                    operation: request.operation,
                    error: RpcError { code, message, data: lookup(error, "data"@) },
                },
            )
            &&& plan.keep_running <==> request.operation != LspOperation::Initialize
                && request.operation != LspOperation::Shutdown
        }),
{
    law_decimal_is_read_back(id as nat);
    if code < 0 {
        law_decimal_is_read_back((-code) as nat);
    } else {
        law_decimal_is_read_back(code as nat);
    }
}

/// A response that holds both a result and an error, or neither, is a failure of
/// the request.
pub proof fn law_ambiguous_responses_fail(
    members: Seq<(Seq<char>, Json)>,
    id: RequestId,
    request: Pending,
    known: Known,
    optimistic: Map<Seq<char>, OpenDocumentState>,
    max: usize,
)
    requires
        responds(members, id),
        lookup(members, "result"@) is Some <==> lookup(members, "error"@) is Some,
        request_of(known.pending, id) == Some(request),
    ensures
        ({
            let (pending, plan) = on_message(members, known, optimistic, max);
            &&& pending == without_request(known.pending, id)
            &&& plan.actions.len() > 0
            &&& plan.actions[0] matches Action::Emit(
                Event::RequestFailed { request_id, operation, error },
            ) && request_id == id && operation == request.operation && error.code == -32098
        }),
{
    law_decimal_is_read_back(id as nat);
}

/// A response that nobody waits for is reported and changes nothing.
pub proof fn law_unknown_responses_change_nothing(
    members: Seq<(Seq<char>, Json)>,
    id: RequestId,
    known: Known,
    optimistic: Map<Seq<char>, OpenDocumentState>,
    max: usize,
)
    requires
        responds(members, id),
        request_of(known.pending, id) is None,
    ensures
        ({
            let (pending, plan) = on_message(members, known, optimistic, max);
            &&& pending == known.pending
            &&& plan.keep_running
            &&& plan.actions.len() == 1
            &&& plan.actions[0] == Action::Emit(
                Event::ProtocolError("response for unknown request ID "@ + decimal(id as nat)),
            )
        }),
{
    law_decimal_is_read_back(id as nat);
}

/// A request of the server is refused, and the editor learns its method; no
/// request of the client is touched.
pub proof fn law_server_requests_are_refused(
    members: Seq<(Seq<char>, Json)>,
    method: Seq<char>,
    id: Json,
    known: Known,
    optimistic: Map<Seq<char>, OpenDocumentState>,
    max: usize,
)
    requires
        lookup(members, "jsonrpc"@) == Some(Json::Text("2.0"@)),
        lookup(members, "method"@) == Some(Json::Text(method)),
        lookup(members, "id"@) == Some(id),
        message_text(refusal(id), max) is Some,
    ensures
        ({
            let (pending, plan) = on_message(members, known, optimistic, max);
            &&& pending == known.pending
            &&& plan.keep_running
            &&& plan.actions =~= seq![
                Action::Send { json: printed(refusal(id)), report_failure: true },
                Action::Emit(Event::ServerRequestRejected { method }),
            ]
        }),
{
}

/// A notification other than published diagnostics is passed on as it is.
pub proof fn law_notifications_are_passed_on(
    members: Seq<(Seq<char>, Json)>,
    method: Seq<char>,
    known: Known,
    optimistic: Map<Seq<char>, OpenDocumentState>,
    max: usize,
)
    requires
        lookup(members, "jsonrpc"@) == Some(Json::Text("2.0"@)),
        lookup(members, "method"@) == Some(Json::Text(method)),
        lookup(members, "id"@) is None,
        method != "textDocument/publishDiagnostics"@,
    ensures
        ({
            let (pending, plan) = on_message(members, known, optimistic, max);
            &&& pending == known.pending
            &&& plan.keep_running
            &&& plan.actions =~= seq![
                Action::Emit(
                    Event::ServerNotification { method, params: lookup(members, "params"@) },
                ),
            ]
        }),
{
}

/// Diagnostics of an open document reach the editor with the version and the
/// identity that the document has; those of another version are stale.
pub proof fn law_open_documents_get_their_diagnostics(
    params: Seq<(Seq<char>, Json)>,
    uri: Seq<char>,
    diagnostics: Seq<Json>,
    documents: Map<Seq<char>, OpenDocumentState>,
    version: u64,
)
    requires
        documents.contains_key(uri),
        lookup(params, "uri"@) == Some(Json::Text(uri)),
        lookup(params, "diagnostics"@) == Some(Json::List(diagnostics)),
    ensures
        ({
            let event = diagnostics_event(Some(Json::Table(params)), documents);
            let held = documents[uri];
            let given = lookup(params, "version"@);
            let numbered = given == Some(Json::Number(decimal(version as nat)));
            &&& given is None ==> event == (Event::Diagnostics {
                uri,
                version: None,
                observed_version: Some(held.version),
                observed_incarnation: Some(held.incarnation),
                diagnostics,
            })
            &&& numbered && version == held.version.number && version <= 0x7fff_ffff ==> event == (
            Event::Diagnostics {
                uri,
                version: Some(DocumentVersion { number: version }),
                observed_version: Some(held.version),
                observed_incarnation: Some(held.incarnation),
                diagnostics,
            })
            &&& numbered && version != held.version.number && version <= 0x7fff_ffff ==> event == (
            Event::StaleDiagnostics {
                uri,
                received_version: DocumentVersion { number: version },
                current_version: Some(held.version),
            })
            &&& numbered && version > 0x7fff_ffff ==> event is DiagnosticsRejected
        }),
{
    law_decimal_is_read_back(version as nat);
}

/// Once the server answered `initialize`, it is told so before the editor learns
/// that it is ready.
pub proof fn law_initialization_is_completed(
    members: Seq<(Seq<char>, Json)>,
    id: RequestId,
    request: Pending,
    known: Known,
    optimistic: Map<Seq<char>, OpenDocumentState>,
    max: usize,
    result: Json,
)
    requires
        responds(members, id),
        lookup(members, "result"@) == Some(result),
        lookup(members, "error"@) is None,
        request_of(known.pending, id) == Some(request),
        request.sent,
        request.operation == LspOperation::Initialize,
        forall|i: int|
            0 <= i < known.pending.len() ==> (#[trigger] known.pending[i]).1.operation
                != LspOperation::Shutdown,
        message_text(
            notification_message("initialized"@, Json::Table(Seq::empty())),
            max,
        ) is Some,
    ensures
        ({
            let (pending, plan) = on_message(members, known, optimistic, max);
            &&& pending == without_request(known.pending, id)
            &&& plan.keep_running
            &&& plan.actions =~= seq![
                Action::Send {
                    json: printed(notification_message("initialized"@, Json::Table(Seq::empty()))),
                    report_failure: true,
                },
                Action::PublishReady(ready_event(result)),
            ]
        }),
{
    law_decimal_is_read_back(id as nat);
    let rest = without_request(known.pending, id);
    lemma_request_index(known.pending, id);
    let at = request_index(known.pending, id)->0;
    assert forall|i: int| 0 <= i < rest.len() implies (#[trigger] rest[i]).1.operation
        != LspOperation::Shutdown by {
        if i < at {
            assert(rest[i] == known.pending[i]);
        } else {
            assert(rest[i] == known.pending[i + 1]);
        }
    }
    lemma_nothing_deferred(rest, 0);
    assert(object_of(Seq::empty()) == Json::Table(Seq::empty()));
}

/// Without a shutdown none is deferred.
proof fn lemma_nothing_deferred(requests: Seq<(RequestId, Pending)>, i: int)
    requires
        forall|k: int|
            0 <= k < requests.len() ==> (#[trigger] requests[k]).1.operation
                != LspOperation::Shutdown,
    ensures
        deferred_in(requests, i) is None,
    decreases requests.len() - i,
{
    if 0 <= i < requests.len() {
        lemma_nothing_deferred(requests, i + 1);
    }
}

/// Once the server answered a shutdown, it is told to exit, the editor learns
/// that the session is over, and nothing follows.
pub proof fn law_shutdown_is_completed(
    members: Seq<(Seq<char>, Json)>,
    id: RequestId,
    request: Pending,
    known: Known,
    optimistic: Map<Seq<char>, OpenDocumentState>,
    max: usize,
    result: Json,
)
    requires
        responds(members, id),
        lookup(members, "result"@) == Some(result),
        lookup(members, "error"@) is None,
        request_of(known.pending, id) == Some(request),
        request.sent,
        request.operation == LspOperation::Shutdown,
        message_text(notification_message("exit"@, Json::Null), max) is Some,
    ensures
        ({
            let (pending, plan) = on_message(members, known, optimistic, max);
            &&& pending == without_request(known.pending, id)
            &&& !plan.keep_running
            &&& plan.actions =~= seq![
                Action::Send {
                    json: printed(notification_message("exit"@, Json::Null)),
                    report_failure: true,
                },
                Action::Emit(Event::ShutdownComplete),
            ]
        }),
{
    law_decimal_is_read_back(id as nat);
}

/// A message goes out as its text, unless it is longer than the limit.
pub proof fn law_long_messages_do_not_go_out(message: Json, max: usize)
    ensures
        message_text(message, max) matches Some(text) ==> text == printed(message),
        encode_utf8(printed(message)).len() > max ==> message_text(message, max) is None,
        encode_utf8(printed(message)).len() <= max && height(message) <= 128 ==> message_text(
            message,
            max,
        ) is Some,
{
}

/// Whether a command can go out.
pub open spec fn fits(command: ClientCommand, max: usize) -> bool {
    writable(command) && encode_utf8(command_text(command)).len() <= max
}

/// A document is known as it was opened, from the command on that opens it, and
/// no longer once it is closed. No other document changes.
pub proof fn law_documents_are_tracked(
    uri: String,
    language_id: String,
    version: DocumentVersion,
    incarnation: DocumentIncarnation,
    text: String,
    known: Known,
    max: usize,
    other: Seq<char>,
)
    ensures
        ({
            let command = ClientCommand::DidOpen { uri, language_id, version, incarnation, text };
            let opened = on_command(command, known, max).0;
            let closed = on_command(ClientCommand::DidClose { uri }, known, max).0;
            &&& opened.pending == known.pending && closed.pending == known.pending
            &&& opened.documents.contains_key(uri@)
            &&& opened.documents[uri@].version == version
            &&& opened.documents[uri@].incarnation == incarnation
            &&& !closed.documents.contains_key(uri@)
            &&& other != uri@ ==> {
                &&& opened.documents.contains_key(other) == known.documents.contains_key(other)
                &&& closed.documents.contains_key(other) == known.documents.contains_key(other)
                &&& known.documents.contains_key(other) ==> opened.documents[other]
                    == known.documents[other] && closed.documents[other] == known.documents[other]
            }
        }),
{
}

/// A change of an open document is sent if its version is newer, and the document
/// keeps its identity. Any other change is dropped.
pub proof fn law_only_newer_changes_are_sent(
    uri: String,
    version: DocumentVersion,
    previous_end: Option<LspPosition>,
    text: String,
    known: Known,
    max: usize,
)
    ensures
        ({
            let command = ClientCommand::DidChange { uri, version, previous_end, text };
            let (after, plan) = on_command(command, known, max);
            let newer = known.documents.contains_key(uri@) && known.documents[uri@].version.number
                < version.number;
            &&& after.pending == known.pending
            &&& newer ==> after.documents[uri@].version == version
                && after.documents[uri@].incarnation == known.documents[uri@].incarnation
            &&& newer && fits(command, max) ==> plan.keep_running && plan.actions =~= seq![
                Action::Send { json: command_text(command), report_failure: true },
            ]
            &&& !newer ==> after == known && plan.keep_running && plan.actions.len() == 0
        }),
{
}

/// A request about a document is sent while the document is as it was asked
/// about and fewer than 127 requests are outstanding; from then on it is
/// outstanding itself.
pub proof fn law_requests_are_made(
    request_id: RequestId,
    operation: LspOperation,
    method: &'static str,
    scope: RequestScope,
    params: JsonValue,
    known: Known,
    max: usize,
)
    requires
        distinct_requests(known.pending),
    ensures
        ({
            let command = ClientCommand::Request { request_id, operation, method, scope, params };
            let (after, plan) = on_command(command, known, max);
            let current = match scope@ {
                Scope::Document { uri, version, incarnation } => known.documents.contains_key(uri)
                    && known.documents[uri].version == version && known.documents[uri].incarnation
                    == incarnation,
                Scope::Workspace => true,
            };
            let made = current && known.pending.len() < 127;
            &&& after.documents == known.documents
            &&& made ==> match request_of(after.pending, request_id) {
                Some(pending) => pending.operation == operation && pending.scope == Some(scope@)
                    && !pending.cancel_requested && pending.sent,
                None => false,
            }
            &&& made && fits(command, max) ==> plan.keep_running && plan.actions =~= seq![
                Action::Send { json: command_text(command), report_failure: true },
            ]
            &&& !made ==> after == known && plan.keep_running && plan.actions.len() == 1
            &&& !current ==> (plan.actions[0] matches Action::Emit(
                Event::StaleResponse { request_id: stale, .. },
            ) && stale == request_id)
            &&& current && !made ==> (plan.actions[0] matches Action::Emit(
                Event::RequestFailed { request_id: failed, error, .. },
            ) && failed == request_id && error.code == -32099)
        }),
{
    lemma_requests(
        known.pending,
        request_id,
        Pending { operation, scope: Some(scope@), cancel_requested: false, sent: true },
    );
}

/// A shutdown is sent at once, unless the server is still initializing: then it
/// waits.
pub proof fn law_shutdown_waits_for_initialization(
    request_id: RequestId,
    known: Known,
    max: usize,
)
    requires
        distinct_requests(known.pending),
        known.pending.len() < 128,
    ensures
        ({
            let command = ClientCommand::Shutdown { request_id };
            let (after, plan) = on_command(command, known, max);
            let waits = exists|i: int|
                0 <= i < known.pending.len() && (#[trigger] known.pending[i]).1.operation
                    == LspOperation::Initialize;
            &&& after.documents == known.documents
            &&& match request_of(after.pending, request_id) {
                Some(pending) => pending.operation == LspOperation::Shutdown && pending.sent
                    == !waits,
                None => false,
            }
            &&& waits ==> plan.keep_running && plan.actions.len() == 0
            &&& !waits && fits(command, max) ==> plan.keep_running && plan.actions =~= seq![
                Action::Send { json: command_text(command), report_failure: true },
            ]
        }),
{
    lemma_requests(
        known.pending,
        request_id,
        Pending {
            operation: LspOperation::Shutdown,
            scope: None,
            cancel_requested: false,
            sent: !is_initializing(known.pending),
        },
    );
}

/// A session takes commands only while it is ready, and says otherwise why it
/// does not.
pub proof fn law_only_ready_sessions_take_commands(phase: LspPhase)
    ensures
        readiness(phase) is None <==> phase == LspPhase::Ready,
        phase == LspPhase::Starting ==> readiness(phase) == Some(ClientError::NotReady),
        phase == LspPhase::ShuttingDown ==> readiness(phase) == Some(ClientError::ShuttingDown),
        phase == LspPhase::Stopped ==> readiness(phase) == Some(ClientError::Stopped),
{
}

/// A document is opened once, with a version of 31 bits, within the limits on
/// its URI, its text and the number of open documents.
pub proof fn law_opening_respects_the_limits(
    state: ClientState,
    uri: Seq<char>,
    language_id: Seq<char>,
    version: DocumentVersion,
    text: Seq<char>,
)
    requires
        state.phase == LspPhase::Ready,
    ensures
        ({
            let refused = open_refusal(state, uri, language_id, version, text);
            let uri_bytes = encode_utf8(uri).len();
            let text_bytes = encode_utf8(text).len();
            &&& version.number > 0x7fff_ffff ==> refused == Some(
                ClientError::VersionOutOfRange(version),
            )
            &&& refused is None ==> {
                &&& version.number <= 0x7fff_ffff
                &&& uri_bytes <= state.limits.max_document_uri_bytes
                &&& text_bytes <= state.limits.max_document_bytes
                &&& !state.documents.contains_key(uri)
                &&& state.documents.len() < state.limits.max_open_documents
            }
            &&& version.number <= 0x7fff_ffff && uri_bytes > state.limits.max_document_uri_bytes
                ==> refused == Some(
                ClientError::DocumentUriTooLarge {
                    bytes: uri_bytes,
                    max: state.limits.max_document_uri_bytes,
                },
            )
            &&& version.number <= 0x7fff_ffff && uri_bytes <= state.limits.max_document_uri_bytes
                && text_bytes > state.limits.max_document_bytes ==> refused == Some(
                ClientError::DocumentTooLarge {
                    bytes: text_bytes,
                    max: state.limits.max_document_bytes,
                },
            )
        }),
{
}

/// A change applies to an open document and raises its version; its text and the
/// position that it names are within their limits.
pub proof fn law_changes_respect_the_limits(
    state: ClientState,
    uri: Seq<char>,
    version: DocumentVersion,
    text: Seq<char>,
    previous_end: Option<LspPosition>,
)
    requires
        state.phase == LspPhase::Ready,
        version.number <= 0x7fff_ffff,
        previous_end matches Some(end) ==> end.line.index <= 0x7fff_ffff && end.character.units
            <= 0x7fff_ffff,
    ensures
        ({
            let refused = change_refusal(state, uri, version, text, previous_end);
            let bytes = encode_utf8(text).len();
            if !state.documents.contains_key(uri) {
                refused == Some(ClientError::DocumentNotOpen(uri))
            } else if version.number <= state.documents[uri].version.number {
                refused == Some(
                    ClientError::StaleDocumentVersion {
                        uri,
                        attempted: version,
                        current: state.documents[uri].version,
                    },
                )
            } else if bytes > state.limits.max_document_bytes {
                refused == Some(
                    ClientError::DocumentTooLarge { bytes, max: state.limits.max_document_bytes },
                )
            } else {
                refused is None
            }
        }),
{
}

/// Versions and positions beyond 31 bits are not sent.
pub proof fn law_large_numbers_are_not_sent(
    state: ClientState,
    uri: Seq<char>,
    version: DocumentVersion,
    text: Seq<char>,
    end: LspPosition,
)
    requires
        state.phase == LspPhase::Ready,
    ensures
        version.number > 0x7fff_ffff ==> change_refusal(state, uri, version, text, Some(end))
            == Some(ClientError::VersionOutOfRange(version)),
        version.number <= 0x7fff_ffff && (end.line.index > 0x7fff_ffff || end.character.units
            > 0x7fff_ffff) ==> change_refusal(state, uri, version, text, Some(end)) == Some(
            ClientError::PositionOutOfRange(end),
        ),
{
}

/// A request is about the version of the document that is open, and about no
/// other.
pub proof fn law_requests_are_about_the_open_version(
    state: ClientState,
    uri: Seq<char>,
    version: DocumentVersion,
)
    ensures
        version_check(state, uri, version) is None <==> state.documents.contains_key(uri)
            && state.documents[uri].version.number == version.number,
        !state.documents.contains_key(uri) ==> version_check(state, uri, version) == Some(
            ClientError::DocumentNotOpen(uri),
        ),
        state.documents.contains_key(uri) && state.documents[uri].version.number != version.number
            ==> version_check(state, uri, version) == Some(
            ClientError::StaleDocumentVersion {
                uri,
                attempted: version,
                current: state.documents[uri].version,
            },
        ),
{
}

/// Diagnostics of a local file that is not open are kept under the canonical
/// spelling of its URI. An empty URI is refused, and so is one of more than
/// 16 KiB or with more than 256 components.
pub proof fn law_other_files_get_their_diagnostics(
    params: Seq<(Seq<char>, Json)>,
    uri: Seq<char>,
    diagnostics: Seq<Json>,
    documents: Map<Seq<char>, OpenDocumentState>,
)
    requires
        !documents.contains_key(uri),
        lookup(params, "uri"@) == Some(Json::Text(uri)),
        lookup(params, "diagnostics"@) == Some(Json::List(diagnostics)),
        lookup(params, "version"@) is None,
    ensures
        ({
            let event = diagnostics_event(Some(Json::Table(params)), documents);
            let short = 0 < uri.len() && encode_utf8(uri).len() <= 16384;
            &&& uri.len() == 0 ==> (event matches Event::DiagnosticsRejected { uri: place, .. }
                && place == Some(uri))
            &&& encode_utf8(uri).len() > 16384 && uri.len() > 0 ==> (
            event matches Event::DiagnosticsRejected { uri: place, .. } && place is None)
            &&& short && path_of(uri) is Err ==> (event matches Event::DiagnosticsRejected {
                uri: place,
                ..
            } && place == Some(uri))
            &&& short && path_of(uri) is Ok && component_count(path_of(uri)->Ok_0) > 256 ==> (
            event matches Event::DiagnosticsRejected { uri: place, .. } && place == Some(uri))
            &&& short && path_of(uri) is Ok && component_count(path_of(uri)->Ok_0) <= 256
                && encode_utf8(uri_of(lexical(path_of(uri)->Ok_0))).len() <= 0x10_0000 ==> {
                let known = uri_of(lexical(path_of(uri)->Ok_0));
                event == (Event::Diagnostics {
                    uri: known,
                    version: None,
                    observed_version: if documents.contains_key(known) {
                        Some(documents[known].version)
                    } else {
                        None
                    },
                    observed_incarnation: if documents.contains_key(known) {
                        Some(documents[known].incarnation)
                    } else {
                        None
                    },
                    diagnostics,
                })
            }
        }),
{
}

/// Diagnostics without a URI, without a list or without parameters are refused.
pub proof fn law_incomplete_diagnostics_are_refused(
    params: Seq<(Seq<char>, Json)>,
    documents: Map<Seq<char>, OpenDocumentState>,
)
    ensures
        diagnostics_event(None, documents) is DiagnosticsRejected,
        !(lookup(params, "uri"@) matches Some(Json::Text(_))) ==> diagnostics_event(
            Some(Json::Table(params)),
            documents,
        ) is DiagnosticsRejected,
        !(lookup(params, "diagnostics"@) matches Some(Json::List(_))) ==> diagnostics_event(
            Some(Json::Table(params)),
            documents,
        ) is DiagnosticsRejected,
{
}

/// A session starts with a request that names the process, the program with its
/// version and the root, with the options of the server where it has any.
pub proof fn law_session_start(
    process_id: u32,
    version: Seq<char>,
    root_uri: Option<Seq<char>>,
    options: Option<Json>,
)
    ensures
        match initialize_message(process_id, version, root_uri, options) {
            Json::Table(message) => {
                &&& lookup(message, "jsonrpc"@) == Some(Json::Text("2.0"@))
                &&& lookup(message, "id"@) == Some(Json::Number(decimal(1)))
                &&& lookup(message, "method"@) == Some(Json::Text("initialize"@))
                &&& match lookup(message, "params"@) {
                    Some(Json::Table(params)) => {
                        &&& lookup(params, "processId"@) == Some(
                            Json::Number(decimal(process_id as nat)),
                        )
                        &&& root_uri matches Some(uri) ==> lookup(params, "rootUri"@) == Some(
                            Json::Text(uri),
                        )
                        &&& root_uri is None ==> lookup(params, "rootUri"@) == Some(Json::Null)
                        &&& lookup(params, "initializationOptions"@) == options
                        &&& match lookup(params, "clientInfo"@) {
                            Some(Json::Table(client)) => {
                                &&& lookup(client, "name"@) == Some(Json::Text("wscrpt"@))
                                &&& lookup(client, "version"@) == Some(Json::Text(version))
                            },
                            _ => false,
                        }
                        &&& match lookup(params, "capabilities"@) {
                            Some(Json::Table(offered)) => {
                                &&& lookup(offered, "textDocument"@) is Some
                                &&& lookup(offered, "workspace"@) is Some
                            },
                            _ => false,
                        }
                    },
                    _ => false,
                }
            },
            _ => false,
        },
{
    let front = initialize_params(process_id, version, root_uri);
    let pairs = match options {
        Some(value) => front.push(("initializationOptions"@, value)),
        None => front,
    };
    law_request_members(1, "initialize"@, object_of(pairs), "id"@);
    reveal_strlit("processId");
    reveal_strlit("clientInfo");
    reveal_strlit("rootUri");
    reveal_strlit("capabilities");
    reveal_strlit("trace");
    reveal_strlit("initializationOptions");
    reveal_strlit("name");
    reveal_strlit("version");
    reveal_strlit("textDocument");
    reveal_strlit("workspace");
    assert("processId"@[0] == 'p' && "clientInfo"@[0] == 'c' && "clientInfo"@[1] == 'l'
        && "rootUri"@[0] == 'r' && "capabilities"@[0] == 'c' && "capabilities"@[1] == 'a'
        && "trace"@[0] == 't' && "initializationOptions"@[0] == 'i');
    assert("name"@[0] == 'n' && "version"@[0] == 'v');
    assert("textDocument"@[0] == 't' && "workspace"@[0] == 'w');
    assert(pairs[0].0 == "processId"@ && pairs[1].0 == "clientInfo"@ && pairs[2].0 == "rootUri"@
        && pairs[3].0 == "capabilities"@ && pairs[4].0 == "trace"@);
    assert(options is Some ==> pairs[5].0 == "initializationOptions"@);
    let client = seq![("name"@, Json::Text("wscrpt"@)), ("version"@, Json::Text(version))];
    let offered = seq![
        ("textDocument"@, document_capabilities()),
        ("workspace"@, workspace_capabilities()),
    ];
    assert(client[0].0 == "name"@ && client[1].0 == "version"@);
    assert(offered[0].0 == "textDocument"@ && offered[1].0 == "workspace"@);
    assert(pairs[1].1 == object_of(client));
    assert(pairs[3].1 == object_of(offered));
    lemma_object_members(pairs, "processId"@);
    lemma_object_members(pairs, "clientInfo"@);
    lemma_object_members(pairs, "rootUri"@);
    lemma_object_members(pairs, "capabilities"@);
    lemma_object_members(pairs, "initializationOptions"@);
    lemma_object_members(client, "name"@);
    lemma_object_members(client, "version"@);
    lemma_object_members(offered, "textDocument"@);
    lemma_object_members(offered, "workspace"@);
}

} // verus!
