//! Client commands and their exact JSON-RPC texts.
use vstd::prelude::*;

use crate::json::{JsonValue, MAX_JSON_DEPTH};
use crate::json_write::{
    fits, height, printed, quoted, write_json_string_to, write_json_value_to, BoundedJsonLength,
    JsonOutput, JsonText,
};
use crate::lsp::{DocumentVersion, LspPosition};
use crate::lsp_types::{DocumentIncarnation, LspOperation, RequestId};
use crate::text::{decimal, decimal_text, lemma_utf8_len_add, utf8_len};

verus! {

/// What a request is about.
#[derive(Debug)]
pub enum RequestScope {
    Document { uri: String, version: DocumentVersion, incarnation: DocumentIncarnation },
    Workspace,
}

/// The content of a [`RequestScope`].
pub enum Scope {
    Document { uri: Seq<char>, version: DocumentVersion, incarnation: DocumentIncarnation },
    Workspace,
}

impl View for RequestScope {
    type V = Scope;

    open spec fn view(&self) -> Scope {
        match *self {
            RequestScope::Document { uri, version, incarnation } => Scope::Document {
                uri: uri@,
                version,
                incarnation,
            },
            RequestScope::Workspace => Scope::Workspace,
        }
    }
}

impl Clone for RequestScope {
    fn clone(&self) -> (copy: Self)
        ensures
            copy@ == self@,
    {
        match self {
            RequestScope::Document { uri, version, incarnation } => RequestScope::Document {
                uri: uri.clone(),
                version: *version,
                incarnation: *incarnation,
            },
            RequestScope::Workspace => RequestScope::Workspace,
        }
    }
}

/// What the editor asks the client to send.
#[derive(Debug)]
pub enum ClientCommand {
    DidOpen {
        uri: String,
        language_id: String,
        version: DocumentVersion,
        incarnation: DocumentIncarnation,
        text: String,
    },
    DidChange {
        uri: String,
        version: DocumentVersion,
        /// `None` is full sync. `Some(end)` is an incremental change that
        /// replaces the previous document's range from `0:0` through `end`.
        previous_end: Option<LspPosition>,
        text: String,
    },
    DidSave { uri: String, text: Option<String> },
    DidClose { uri: String },
    Request {
        request_id: RequestId,
        operation: LspOperation,
        method: &'static str,
        scope: RequestScope,
        params: JsonValue,
    },
    CancelRequest { request_id: RequestId },
    Shutdown { request_id: RequestId },
}

/// The texts of a sequence, one after the other.
pub open spec fn joined(parts: Seq<Seq<char>>) -> Seq<char>
    decreases parts.len(),
{
    if parts.len() == 0 {
        Seq::empty()
    } else {
        joined(parts.drop_last()) + parts.last()
    }
}

/// The number of a JSON text.
pub open spec fn number_text(n: int) -> Seq<char> {
    decimal(n as nat)
}

/// The text of a `didOpen` notification, in parts.
pub open spec fn did_open_parts(
    uri: Seq<char>,
    language_id: Seq<char>,
    version: DocumentVersion,
    text: Seq<char>,
) -> Seq<Seq<char>> {
    seq![
        "{\"jsonrpc\":\"2.0\","@,
        "\"method\":\"textDocument/didOpen\",\"params\":{\"textDocument\":{\"uri\":"@,
        quoted(uri),
        ",\"languageId\":"@,
        quoted(language_id),
        ",\"version\":"@,
        number_text(version.number as int),
        ",\"text\":"@,
        quoted(text),
        "}}}"@,
    ]
}

/// The text of a command, in parts.
pub open spec fn command_parts(command: ClientCommand) -> Seq<Seq<char>> {
    match command {
        ClientCommand::DidOpen { uri, language_id, version, incarnation: _, text } =>
        did_open_parts(uri@, language_id@, version, text@),
        ClientCommand::DidChange { uri, version, previous_end: None, text } => seq![
            "{\"jsonrpc\":\"2.0\","@,
            "\"method\":\"textDocument/didChange\",\"params\":{\"textDocument\":{\"uri\":"@,
            quoted(uri@),
            ",\"version\":"@,
            number_text(version.number as int),
            "},\"contentChanges\":[{"@,
            "\"text\":"@,
            quoted(text@),
            "}]}}"@,
        ],
        ClientCommand::DidChange { uri, version, previous_end: Some(end), text } => seq![
            "{\"jsonrpc\":\"2.0\","@,
            "\"method\":\"textDocument/didChange\",\"params\":{\"textDocument\":{\"uri\":"@,
            quoted(uri@),
            ",\"version\":"@,
            number_text(version.number as int),
            "},\"contentChanges\":[{"@,
            "\"range\":{\"start\":{\"line\":0,\"character\":0},\"end\":{\"line\":"@,
            number_text(end.line.index as int),
            ",\"character\":"@,
            number_text(end.character.units as int),
            "}},"@,
            "\"text\":"@,
            quoted(text@),
            "}]}}"@,
        ],
        ClientCommand::DidSave { uri, text: None } => seq![
            "{\"jsonrpc\":\"2.0\","@,
            "\"method\":\"textDocument/didSave\",\"params\":{\"textDocument\":{\"uri\":"@,
            quoted(uri@),
            "}"@,
            "}}"@,
        ],
        ClientCommand::DidSave { uri, text: Some(saved) } => seq![
            "{\"jsonrpc\":\"2.0\","@,
            "\"method\":\"textDocument/didSave\",\"params\":{\"textDocument\":{\"uri\":"@,
            quoted(uri@),
            "}"@,
            ",\"text\":"@,
            quoted(saved@),
            "}}"@,
        ],
        ClientCommand::DidClose { uri } => seq![
            "{\"jsonrpc\":\"2.0\","@,
            "\"method\":\"textDocument/didClose\",\"params\":{\"textDocument\":{\"uri\":"@,
            quoted(uri@),
            "}}}"@,
        ],
        ClientCommand::Request { request_id, operation: _, method, scope: _, params } => seq![
            "{\"jsonrpc\":\"2.0\","@,
            "\"id\":"@,
            number_text(request_id as int),
            ",\"method\":"@,
            quoted(method@),
            ",\"params\":"@,
            printed(params@),
            "}"@,
        ],
        ClientCommand::CancelRequest { request_id } => seq![
            "{\"jsonrpc\":\"2.0\","@,
            "\"method\":\"$/cancelRequest\",\"params\":{\"id\":"@,
            number_text(request_id as int),
            "}}"@,
        ],
        ClientCommand::Shutdown { request_id } => seq![
            "{\"jsonrpc\":\"2.0\","@,
            "\"id\":"@,
            number_text(request_id as int),
            ",\"method\":\"shutdown\",\"params\":null}"@,
        ],
    }
}

/// The text of a command.
pub open spec fn command_text(command: ClientCommand) -> Seq<char> {
    joined(command_parts(command))
}

/// Whether a command can be written at all: its parameters are not nested too
/// deeply.
pub open spec fn writable(command: ClientCommand) -> bool {
    match command {
        ClientCommand::Request { params, .. } => height(params@) <= MAX_JSON_DEPTH,
        _ => true,
    }
}

/// One part of a command's text.
enum Piece<'a> {
    Raw(&'a str),
    Quoted(&'a str),
    Number(u64),
    Value(&'a JsonValue),
}

spec fn piece_text(piece: Piece) -> Seq<char> {
    match piece {
        Piece::Raw(text) => text@,
        Piece::Quoted(text) => quoted(text@),
        Piece::Number(n) => number_text(n as int),
        Piece::Value(value) => printed(value@),
    }
}

spec fn piece_writable(piece: Piece) -> bool {
    match piece {
        Piece::Value(value) => height(value@) <= MAX_JSON_DEPTH,
        _ => true,
    }
}

spec fn piece_texts(pieces: Seq<Piece>) -> Seq<Seq<char>> {
    Seq::new(pieces.len(), |i: int| piece_text(pieces[i]))
}

proof fn lemma_joined_step(parts: Seq<Seq<char>>, i: int)
    requires
        0 <= i < parts.len(),
    ensures
        joined(parts.take(i + 1)) == joined(parts.take(i)) + parts[i],
{
    assert(parts.take(i + 1).drop_last() =~= parts.take(i));
    assert(parts.take(i + 1).last() == parts[i]);
}

proof fn lemma_joined_split(parts: Seq<Seq<char>>, i: int) -> (rest: Seq<char>)
    requires
        0 <= i <= parts.len(),
    ensures
        joined(parts) == joined(parts.take(i)) + rest,
    decreases parts.len() - i,
{
    if i == parts.len() {
        assert(parts.take(i) =~= parts);
        assert(joined(parts) =~= joined(parts.take(i)) + Seq::<char>::empty());
        Seq::empty()
    } else {
        let tail = lemma_joined_split(parts, i + 1);
        lemma_joined_step(parts, i);
        assert(joined(parts) =~= joined(parts.take(i)) + (parts[i] + tail));
        parts[i] + tail
    }
}

/// Writes one part.
fn write_piece<O: JsonOutput>(output: &mut O, piece: &Piece) -> (done: Result<(), ()>)
    requires
        old(output).valid(),
    ensures
        final(output).valid(),
        final(output).limit() == old(output).limit(),
        done is Ok <==> piece_writable(*piece) && fits(
            old(output).limit(),
            old(output).written() + piece_text(*piece),
        ),
        done is Ok ==> final(output).written() == old(output).written() + piece_text(*piece),
{
    match piece {
        Piece::Raw(text) => output.put_text(text),
        Piece::Quoted(text) => write_json_string_to(output, text),
        Piece::Number(n) => output.put_text(decimal_text(*n).as_str()),
        Piece::Value(value) => write_json_value_to(output, value),
    }
}

/// Writes parts one after the other.
fn write_pieces<O: JsonOutput>(output: &mut O, pieces: &Vec<Piece>) -> (done: Result<(), ()>)
    requires
        old(output).valid(),
        fits(old(output).limit(), old(output).written()),
    ensures
        final(output).valid(),
        final(output).limit() == old(output).limit(),
        done is Ok <==> (forall|i: int| 0 <= i < pieces@.len() ==> piece_writable(pieces@[i]))
            && fits(old(output).limit(), old(output).written() + joined(piece_texts(pieces@))),
        done is Ok ==> final(output).written() == old(output).written() + joined(
            piece_texts(pieces@),
        ),
{
    let ghost before = output.written();
    let ghost limit = output.limit();
    let ghost parts = piece_texts(pieces@);
    let mut i: usize = 0;
    proof {
        assert(parts.take(0) =~= Seq::<Seq<char>>::empty());
        assert(before =~= before + joined(parts.take(0)));
    }
    while i < pieces.len()
        invariant
            i <= pieces@.len() == parts.len(),
            parts == piece_texts(pieces@),
            output.valid(),
            output.limit() == limit,
            limit == old(output).limit(),
            before == old(output).written(),
            output.written() == before + joined(parts.take(i as int)),
            fits(limit, output.written()),
            forall|k: int| 0 <= k < i ==> piece_writable(pieces@[k]),
        decreases pieces@.len() - i,
    {
        proof {
            lemma_joined_step(parts, i as int);
            let rest = lemma_joined_split(parts, i + 1);
            let here = before + joined(parts.take(i as int));
            assert(here + parts[i as int] =~= before + joined(parts.take(i + 1)));
            assert(before + joined(parts) =~= (here + parts[i as int]) + rest);
            lemma_utf8_len_add(here + parts[i as int], rest);
            assert(parts[i as int] == piece_text(pieces@[i as int]));
        }
        match write_piece(output, &pieces[i]) {
            Ok(()) => {},
            Err(()) => {
                return Err(());
            },
        }
        i += 1;
    }
    assert(parts.take(i as int) =~= parts);
    Ok(())
}

/// The parts of a `didOpen` notification.
fn did_open_pieces<'a>(
    uri: &'a str,
    language_id: &'a str,
    version: DocumentVersion,
    text: &'a str,
) -> (pieces: Vec<Piece<'a>>)
    ensures
        piece_texts(pieces@) == did_open_parts(uri@, language_id@, version, text@),
        forall|i: int| 0 <= i < pieces@.len() ==> piece_writable(#[trigger] pieces@[i]),
{
    let pieces = vec![
        Piece::Raw("{\"jsonrpc\":\"2.0\","),
        Piece::Raw("\"method\":\"textDocument/didOpen\",\"params\":{\"textDocument\":{\"uri\":"),
        Piece::Quoted(uri),
        Piece::Raw(",\"languageId\":"),
        Piece::Quoted(language_id),
        Piece::Raw(",\"version\":"),
        Piece::Number(version.get()),
        Piece::Raw(",\"text\":"),
        Piece::Quoted(text),
        Piece::Raw("}}}"),
    ];
    assert(piece_texts(pieces@) =~= did_open_parts(uri@, language_id@, version, text@));
    pieces
}

/// The parts of a command.
fn command_pieces(command: &ClientCommand) -> (pieces: Vec<Piece<'_>>)
    ensures
        piece_texts(pieces@) == command_parts(*command),
        writable(*command) <==> forall|i: int|
            0 <= i < pieces@.len() ==> piece_writable(#[trigger] pieces@[i]),
{
    let pieces = match command {
        ClientCommand::DidOpen { uri, language_id, version, incarnation: _, text } => {
            did_open_pieces(uri.as_str(), language_id.as_str(), *version, text.as_str())
        },
        ClientCommand::DidChange { uri, version, previous_end: None, text } => vec![
            Piece::Raw("{\"jsonrpc\":\"2.0\","),
            Piece::Raw(
                "\"method\":\"textDocument/didChange\",\"params\":{\"textDocument\":{\"uri\":",
            ),
            Piece::Quoted(uri.as_str()),
            Piece::Raw(",\"version\":"),
            Piece::Number(version.get()),
            Piece::Raw("},\"contentChanges\":[{"),
            Piece::Raw("\"text\":"),
            Piece::Quoted(text.as_str()),
            Piece::Raw("}]}}"),
        ],
        ClientCommand::DidChange { uri, version, previous_end: Some(end), text } => vec![
            Piece::Raw("{\"jsonrpc\":\"2.0\","),
            Piece::Raw(
                "\"method\":\"textDocument/didChange\",\"params\":{\"textDocument\":{\"uri\":",
            ),
            Piece::Quoted(uri.as_str()),
            Piece::Raw(",\"version\":"),
            Piece::Number(version.get()),
            Piece::Raw("},\"contentChanges\":[{"),
            Piece::Raw("\"range\":{\"start\":{\"line\":0,\"character\":0},\"end\":{\"line\":"),
            Piece::Number(end.line.get() as u64),
            Piece::Raw(",\"character\":"),
            Piece::Number(end.character.get() as u64),
            Piece::Raw("}},"),
            Piece::Raw("\"text\":"),
            Piece::Quoted(text.as_str()),
            Piece::Raw("}]}}"),
        ],
        ClientCommand::DidSave { uri, text: None } => vec![
            Piece::Raw("{\"jsonrpc\":\"2.0\","),
            Piece::Raw(
                "\"method\":\"textDocument/didSave\",\"params\":{\"textDocument\":{\"uri\":",
            ),
            Piece::Quoted(uri.as_str()),
            Piece::Raw("}"),
            Piece::Raw("}}"),
        ],
        ClientCommand::DidSave { uri, text: Some(saved) } => vec![
            Piece::Raw("{\"jsonrpc\":\"2.0\","),
            Piece::Raw(
                "\"method\":\"textDocument/didSave\",\"params\":{\"textDocument\":{\"uri\":",
            ),
            Piece::Quoted(uri.as_str()),
            Piece::Raw("}"),
            Piece::Raw(",\"text\":"),
            Piece::Quoted(saved.as_str()),
            Piece::Raw("}}"),
        ],
        ClientCommand::DidClose { uri } => vec![
            Piece::Raw("{\"jsonrpc\":\"2.0\","),
            Piece::Raw(
                "\"method\":\"textDocument/didClose\",\"params\":{\"textDocument\":{\"uri\":",
            ),
            Piece::Quoted(uri.as_str()),
            Piece::Raw("}}}"),
        ],
        ClientCommand::Request { request_id, operation: _, method, scope: _, params } => {
            let pieces = vec![
                Piece::Raw("{\"jsonrpc\":\"2.0\","),
                Piece::Raw("\"id\":"),
                Piece::Number(*request_id),
                Piece::Raw(",\"method\":"),
                Piece::Quoted(method),
                Piece::Raw(",\"params\":"),
                Piece::Value(params),
                Piece::Raw("}"),
            ];
            assert(piece_writable(pieces@[6]) == (height(params@) <= MAX_JSON_DEPTH));
            pieces
        },
        ClientCommand::CancelRequest { request_id } => vec![
            Piece::Raw("{\"jsonrpc\":\"2.0\","),
            Piece::Raw("\"method\":\"$/cancelRequest\",\"params\":{\"id\":"),
            Piece::Number(*request_id),
            Piece::Raw("}}"),
        ],
        ClientCommand::Shutdown { request_id } => vec![
            Piece::Raw("{\"jsonrpc\":\"2.0\","),
            Piece::Raw("\"id\":"),
            Piece::Number(*request_id),
            Piece::Raw(",\"method\":\"shutdown\",\"params\":null}"),
        ],
    };
    assert(piece_texts(pieces@) =~= command_parts(*command));
    pieces
}

/// Writes a command: it succeeds exactly when the command can be written and
/// its text fits.
pub fn write_client_command_json_to<O: JsonOutput>(
    command: &ClientCommand,
    output: &mut O,
) -> (done: Result<(), ()>)
    requires
        old(output).valid(),
        fits(old(output).limit(), old(output).written()),
    ensures
        final(output).valid(),
        final(output).limit() == old(output).limit(),
        done is Ok <==> writable(*command) && fits(
            old(output).limit(),
            old(output).written() + command_text(*command),
        ),
        done is Ok ==> final(output).written() == old(output).written() + command_text(*command),
{
    let pieces = command_pieces(command);
    write_pieces(output, &pieces)
}

/// The exact byte length of a command's text, where it is within `max`.
pub fn client_command_json_len(command: &ClientCommand, max: usize) -> (length: Result<usize, ()>)
    ensures
        match length {
            Ok(n) => writable(*command) && n == utf8_len(command_text(*command)) && n <= max,
            Err(()) => !(writable(*command) && utf8_len(command_text(*command)) <= max),
        },
{
    let mut length = BoundedJsonLength::new(max);
    let done = write_client_command_json_to(command, &mut length);
    assert(Seq::<char>::empty() + command_text(*command) =~= command_text(*command));
    match done {
        Ok(()) => Ok(length.bytes()),
        Err(()) => Err(()),
    }
}

/// The exact byte length of a `didOpen` notification, where it is within `max`.
pub fn did_open_json_len(
    uri: &str,
    language_id: &str,
    version: DocumentVersion,
    text: &str,
    max: usize,
) -> (length: Result<usize, ()>)
    ensures
        match length {
            Ok(n) => n == utf8_len(joined(did_open_parts(uri@, language_id@, version, text@))) && n
                <= max,
            Err(()) => utf8_len(joined(did_open_parts(uri@, language_id@, version, text@))) > max,
        },
{
    let mut length = BoundedJsonLength::new(max);
    let pieces = did_open_pieces(uri, language_id, version, text);
    let done = write_pieces(&mut length, &pieces);
    let ghost whole = joined(did_open_parts(uri@, language_id@, version, text@));
    assert(Seq::<char>::empty() + whole =~= whole);
    match done {
        Ok(()) => Ok(length.bytes()),
        Err(()) => Err(()),
    }
}

/// The text of a command, where it can be written within `max` bytes.
pub fn client_command_json(command: &ClientCommand, max: usize) -> (json: Option<String>)
    ensures
        match json {
            Some(text) => writable(*command) && text@ == command_text(*command) && utf8_len(text@)
                <= max,
            None => !(writable(*command) && utf8_len(command_text(*command)) <= max),
        },
{
    match client_command_json_len(command, max) {
        Ok(_) => {
            let mut output = JsonText { text: String::new() };
            let _ = write_client_command_json_to(command, &mut output);
            assert(output.text@ =~= command_text(*command));
            Some(output.text)
        },
        Err(()) => None,
    }
}

/// The text of a message, where it can be written within `max` bytes.
pub fn message_json(message: &JsonValue, max: usize) -> (json: Option<String>)
    ensures
        match json {
            Some(text) => height(message@) <= MAX_JSON_DEPTH && text@ == printed(message@)
                && utf8_len(text@) <= max,
            None => !(height(message@) <= MAX_JSON_DEPTH && utf8_len(printed(message@)) <= max),
        },
{
    let mut length = BoundedJsonLength::new(max);
    let done = write_json_value_to(&mut length, message);
    assert(Seq::<char>::empty() + printed(message@) =~= printed(message@));
    match done {
        Ok(()) => Some(message.to_json_string()),
        Err(()) => None,
    }
}

} // verus!
