//! Typed, conservative adapters from raw LSP JSON into editor-facing values.
//!
//! The live client deliberately retains feature payloads as lossless JSON so
//! it can remain protocol-complete without a large public type graph. This
//! module is the UI boundary for diagnostics, navigation, completion, and
//! single-document formatting.
use vstd::prelude::*;

use crate::file_uri::{file_uri_to_path, path_of};
use crate::json::{
    json_of, lemma_list_of, lemma_members, list_of, member_of, member_text, member_unsigned,
    signed_of, text_value, Json, JsonObject, JsonValue,
};
use crate::json_write::{height, printed, write_json_value_to, BoundedJsonLength};
use crate::lsp::{Line, LspPosition, Utf16Offset};
use crate::lsp_edits::{chars_in, range_to_chars, Edit, TextEdit};
use crate::lsp_types::{text_option, LspRange};
use crate::text::{
    byte_len, char_width, chars_of, copy_text, lemma_utf8_len_cons, text_of, utf8_len, width_of,
};

verus! {

pub const MAX_DOCUMENT_EDITS: usize = 16384;

pub const MAX_DIAGNOSTICS_INSPECTED: usize = 4096;

pub const MAX_DIAGNOSTICS_RETAINED: usize = 1024;

pub const MAX_DIAGNOSTIC_URI_BYTES: usize = 16 * 1024;

pub const MAX_DIAGNOSTIC_MESSAGE_BYTES: usize = 4 * 1024;

pub const MAX_DIAGNOSTIC_SOURCE_BYTES: usize = 256;

pub const MAX_DIAGNOSTIC_RAW_BYTES: usize = 16 * 1024;

pub const MAX_DIAGNOSTIC_RAW_NODES: usize = 4096;

pub const MAX_DIAGNOSTIC_RAW_DEPTH: usize = 64;

/// Maximum number of server-provided workspace-symbol candidates inspected
/// for one request.
pub const MAX_WORKSPACE_SYMBOLS: usize = 4096;

/// Maximum UTF-8 size retained for either a workspace symbol's name or its
/// optional container name.
pub const MAX_WORKSPACE_SYMBOL_FIELD_BYTES: usize = 512;

/// File URIs cannot be clipped without changing their target, so implausibly
/// large values are rejected instead.
pub const MAX_WORKSPACE_SYMBOL_URI_BYTES: usize = 16 * 1024;

/// LSP's `uinteger` wire type is limited to the non-negative signed 32-bit
/// range, even on clients whose native index type is wider.
pub const MAX_LSP_UINTEGER: u64 = 2147483647;

/// Deepest level of nested document symbols that is listed.
pub const MAX_SYMBOL_DEPTH: usize = 32;

/// Most document symbols that are listed.
pub const MAX_DOCUMENT_SYMBOLS: usize = 4096;

/// Most completions that are inspected.
pub const MAX_COMPLETIONS: usize = 1024;

/// Most locations that are inspected.
pub const MAX_LOCATIONS: usize = 4096;

#[derive(Clone, Copy, Debug, PartialEq, Eq, Structural)]
pub enum DiagnosticSeverity {
    Error,
    Warning,
    Information,
    Hint,
    Unknown(i64),
}

impl DiagnosticSeverity {
    /// The letter that marks a severity.
    pub fn marker(self) -> (mark: char)
        ensures
            mark == (match self {
                DiagnosticSeverity::Error => 'E',
                DiagnosticSeverity::Warning => 'W',
                DiagnosticSeverity::Information => 'I',
                DiagnosticSeverity::Hint => 'H',
                DiagnosticSeverity::Unknown(_) => '?',
            }),
    {
        match self {
            DiagnosticSeverity::Error => 'E',
            DiagnosticSeverity::Warning => 'W',
            DiagnosticSeverity::Information => 'I',
            DiagnosticSeverity::Hint => 'H',
            DiagnosticSeverity::Unknown(_) => '?',
        }
    }
}

#[derive(Debug, PartialEq, Eq)]
pub struct Diagnostic {
    pub uri: String,
    pub range: LspRange,
    pub severity: DiagnosticSeverity,
    pub message: String,
    pub source: Option<String>,
    pub raw: JsonValue,
}

/// The content of a [`Diagnostic`].
pub struct Finding {
    pub uri: Seq<char>,
    pub range: LspRange,
    pub severity: DiagnosticSeverity,
    pub message: Seq<char>,
    pub source: Option<Seq<char>>,
    pub raw: Json,
}

impl View for Diagnostic {
    type V = Finding;

    open spec fn view(&self) -> Finding {
        Finding {
            uri: self.uri@,
            range: self.range,
            severity: self.severity,
            message: self.message@,
            source: text_option(self.source),
            raw: self.raw@,
        }
    }
}

impl Clone for Diagnostic {
    fn clone(&self) -> (copy: Self)
        ensures
            copy@ == self@,
    {
        let source = match &self.source {
            Some(source) => Some(source.clone()),
            None => None,
        };
        Diagnostic {
            uri: self.uri.clone(),
            range: self.range,
            severity: self.severity,
            message: self.message.clone(),
            source,
            raw: self.raw.clone(),
        }
    }
}

/// Bounded outcome of adapting one `publishDiagnostics` payload for the UI.
///
/// `truncated` covers either input entries beyond the inspection limit or
/// valid diagnostics beyond the retention limit. `fields_truncated` counts
/// individual retained message/source fields that were clipped, while
/// `raw_omitted` counts retained diagnostics whose original JSON exceeded the
/// raw byte, node, or depth ceiling and was replaced with `JsonValue::Null`.
#[derive(Debug, PartialEq, Eq)]
pub struct DiagnosticReport {
    pub diagnostics: Vec<Diagnostic>,
    pub inspected: usize,
    pub truncated: bool,
    pub skipped_invalid: usize,
    pub fields_truncated: usize,
    pub raw_omitted: usize,
}

impl Clone for DiagnosticReport {
    fn clone(&self) -> (copy: Self)
        ensures
            copy@ == self@,
    {
        let diagnostics = self.diagnostics.clone();
        proof {
            assert forall|i: int| 0 <= i < self.diagnostics@.len() implies (
            #[trigger] diagnostics@[i])@ == self.diagnostics@[i]@ by {
                assert(cloned(self.diagnostics@[i], diagnostics@[i]));
            }
            assert(findings_of(diagnostics@) =~= findings_of(self.diagnostics@));
        }
        DiagnosticReport {
            diagnostics,
            inspected: self.inspected,
            truncated: self.truncated,
            skipped_invalid: self.skipped_invalid,
            fields_truncated: self.fields_truncated,
            raw_omitted: self.raw_omitted,
        }
    }
}

impl Default for DiagnosticReport {
    fn default() -> (report: Self)
        ensures
            report.diagnostics@.len() == 0,
            report.inspected == 0,
            !report.truncated,
            report.skipped_invalid == 0,
            report.fields_truncated == 0,
            report.raw_omitted == 0,
    {
        DiagnosticReport {
            diagnostics: Vec::new(),
            inspected: 0,
            truncated: false,
            skipped_invalid: 0,
            fields_truncated: 0,
            raw_omitted: 0,
        }
    }
}

/// The content of a [`DiagnosticReport`].
pub struct Findings {
    pub diagnostics: Seq<Finding>,
    pub inspected: nat,
    pub truncated: bool,
    pub skipped_invalid: nat,
    pub fields_truncated: nat,
    pub raw_omitted: nat,
}

/// The contents of diagnostics.
pub open spec fn findings_of(diagnostics: Seq<Diagnostic>) -> Seq<Finding> {
    diagnostics.map_values(|diagnostic: Diagnostic| diagnostic@)
}

impl View for DiagnosticReport {
    type V = Findings;

    open spec fn view(&self) -> Findings {
        Findings {
            diagnostics: findings_of(self.diagnostics@),
            inspected: self.inspected as nat,
            truncated: self.truncated,
            skipped_invalid: self.skipped_invalid as nat,
            fields_truncated: self.fields_truncated as nat,
            raw_omitted: self.raw_omitted as nat,
        }
    }
}

#[derive(Debug, PartialEq, Eq)]
pub struct CompletionItem {
    pub label: String,
    pub detail: Option<String>,
    pub insert_text: String,
    pub text_edit: Option<TextEdit>,
    pub is_snippet: bool,
}

impl Clone for CompletionItem {
    fn clone(&self) -> (copy: Self)
        ensures
            copy@ == self@,
    {
        let detail = match &self.detail {
            Some(detail) => Some(detail.clone()),
            None => None,
        };
        let text_edit = match &self.text_edit {
            Some(edit) => Some(edit.clone()),
            None => None,
        };
        CompletionItem {
            label: self.label.clone(),
            detail,
            insert_text: self.insert_text.clone(),
            text_edit,
            is_snippet: self.is_snippet,
        }
    }
}

/// The content of a [`CompletionItem`].
pub struct Completion {
    pub label: Seq<char>,
    pub detail: Option<Seq<char>>,
    pub insert_text: Seq<char>,
    pub text_edit: Option<Edit>,
    pub is_snippet: bool,
}

/// The content of an optional edit.
pub open spec fn edit_option(edit: Option<TextEdit>) -> Option<Edit> {
    match edit {
        Some(e) => Some(e@),
        None => None,
    }
}

impl View for CompletionItem {
    type V = Completion;

    open spec fn view(&self) -> Completion {
        Completion {
            label: self.label@,
            detail: text_option(self.detail),
            insert_text: self.insert_text@,
            text_edit: edit_option(self.text_edit),
            is_snippet: self.is_snippet,
        }
    }
}

#[derive(Debug, PartialEq, Eq)]
pub struct Location {
    pub uri: String,
    pub range: LspRange,
}

/// The content of a [`Location`].
pub struct Place {
    pub uri: Seq<char>,
    pub range: LspRange,
}

impl Clone for Location {
    fn clone(&self) -> (copy: Self)
        ensures
            copy@ == self@,
    {
        Location { uri: self.uri.clone(), range: self.range }
    }
}

impl View for Location {
    type V = Place;

    open spec fn view(&self) -> Place {
        Place { uri: self.uri@, range: self.range }
    }
}

/// Standard LSP `SymbolKind` values, with an explicit forward-compatible
/// fallback for values introduced by a newer or non-conforming server.
#[derive(Clone, Copy, Debug, PartialEq, Eq, Structural)]
pub enum WorkspaceSymbolKind {
    File,
    Module,
    Namespace,
    Package,
    Class,
    Method,
    Property,
    Field,
    Constructor,
    Enum,
    Interface,
    Function,
    Variable,
    Constant,
    String,
    Number,
    Boolean,
    Array,
    Object,
    Key,
    Null,
    EnumMember,
    Struct,
    Event,
    Operator,
    TypeParameter,
    Unknown(i64),
}

/// The label of a kind.
pub open spec fn kind_label(kind: WorkspaceSymbolKind) -> Seq<char> {
    match kind {
        WorkspaceSymbolKind::File => "File"@,
        WorkspaceSymbolKind::Module => "Module"@,
        WorkspaceSymbolKind::Namespace => "Namespace"@,
        WorkspaceSymbolKind::Package => "Package"@,
        WorkspaceSymbolKind::Class => "Class"@,
        WorkspaceSymbolKind::Method => "Method"@,
        WorkspaceSymbolKind::Property => "Property"@,
        WorkspaceSymbolKind::Field => "Field"@,
        WorkspaceSymbolKind::Constructor => "Constructor"@,
        WorkspaceSymbolKind::Enum => "Enum"@,
        WorkspaceSymbolKind::Interface => "Interface"@,
        WorkspaceSymbolKind::Function => "Function"@,
        WorkspaceSymbolKind::Variable => "Variable"@,
        WorkspaceSymbolKind::Constant => "Constant"@,
        WorkspaceSymbolKind::String => "String"@,
        WorkspaceSymbolKind::Number => "Number"@,
        WorkspaceSymbolKind::Boolean => "Boolean"@,
        WorkspaceSymbolKind::Array => "Array"@,
        WorkspaceSymbolKind::Object => "Object"@,
        WorkspaceSymbolKind::Key => "Key"@,
        WorkspaceSymbolKind::Null => "Null"@,
        WorkspaceSymbolKind::EnumMember => "Enum member"@,
        WorkspaceSymbolKind::Struct => "Struct"@,
        WorkspaceSymbolKind::Event => "Event"@,
        WorkspaceSymbolKind::Operator => "Operator"@,
        WorkspaceSymbolKind::TypeParameter => "Type parameter"@,
        WorkspaceSymbolKind::Unknown(_) => "Unknown"@,
    }
}

impl WorkspaceSymbolKind {
    /// A short, control-free label suitable for the symbol picker.
    pub fn label(self) -> (label: &'static str)
        ensures
            label@ == kind_label(self),
    {
        match self {
            WorkspaceSymbolKind::File => "File",
            WorkspaceSymbolKind::Module => "Module",
            WorkspaceSymbolKind::Namespace => "Namespace",
            WorkspaceSymbolKind::Package => "Package",
            WorkspaceSymbolKind::Class => "Class",
            WorkspaceSymbolKind::Method => "Method",
            WorkspaceSymbolKind::Property => "Property",
            WorkspaceSymbolKind::Field => "Field",
            WorkspaceSymbolKind::Constructor => "Constructor",
            WorkspaceSymbolKind::Enum => "Enum",
            WorkspaceSymbolKind::Interface => "Interface",
            WorkspaceSymbolKind::Function => "Function",
            WorkspaceSymbolKind::Variable => "Variable",
            WorkspaceSymbolKind::Constant => "Constant",
            WorkspaceSymbolKind::String => "String",
            WorkspaceSymbolKind::Number => "Number",
            WorkspaceSymbolKind::Boolean => "Boolean",
            WorkspaceSymbolKind::Array => "Array",
            WorkspaceSymbolKind::Object => "Object",
            WorkspaceSymbolKind::Key => "Key",
            WorkspaceSymbolKind::Null => "Null",
            WorkspaceSymbolKind::EnumMember => "Enum member",
            WorkspaceSymbolKind::Struct => "Struct",
            WorkspaceSymbolKind::Event => "Event",
            WorkspaceSymbolKind::Operator => "Operator",
            WorkspaceSymbolKind::TypeParameter => "Type parameter",
            WorkspaceSymbolKind::Unknown(_) => "Unknown",
        }
    }
}

#[derive(Debug, PartialEq, Eq)]
pub struct WorkspaceSymbol {
    pub name: String,
    pub container_name: Option<String>,
    pub kind: WorkspaceSymbolKind,
    pub location: Location,
}

impl Clone for WorkspaceSymbol {
    fn clone(&self) -> (copy: Self)
        ensures
            copy@ == self@,
    {
        let container_name = match &self.container_name {
            Some(name) => Some(name.clone()),
            None => None,
        };
        WorkspaceSymbol {
            name: self.name.clone(),
            container_name,
            kind: self.kind,
            location: self.location.clone(),
        }
    }
}

/// The content of a [`WorkspaceSymbol`].
pub struct Symbol {
    pub name: Seq<char>,
    pub container_name: Option<Seq<char>>,
    pub kind: WorkspaceSymbolKind,
    pub location: Place,
}

impl View for WorkspaceSymbol {
    type V = Symbol;

    open spec fn view(&self) -> Symbol {
        Symbol {
            name: self.name@,
            container_name: text_option(self.container_name),
            kind: self.kind,
            location: self.location@,
        }
    }
}

/// Outcome of parsing one `workspace/symbol` response.
///
/// `truncated` is true when candidates beyond the inspection cap were ignored
/// or when a retained name/container had to be clipped. `skipped_invalid`
/// counts malformed candidates among the bounded set that was inspected.
#[derive(Debug, PartialEq, Eq)]
pub struct WorkspaceSymbolReport {
    pub symbols: Vec<WorkspaceSymbol>,
    pub truncated: bool,
    pub skipped_invalid: usize,
}

impl Clone for WorkspaceSymbolReport {
    fn clone(&self) -> (copy: Self)
        ensures
            copy@ == self@,
    {
        let symbols = self.symbols.clone();
        proof {
            assert forall|i: int| 0 <= i < self.symbols@.len() implies (#[trigger] symbols@[i])@
                == self.symbols@[i]@ by {
                assert(cloned(self.symbols@[i], symbols@[i]));
            }
            assert(symbols_of(symbols@) =~= symbols_of(self.symbols@));
        }
        WorkspaceSymbolReport {
            symbols,
            truncated: self.truncated,
            skipped_invalid: self.skipped_invalid,
        }
    }
}

/// The content of a [`WorkspaceSymbolReport`].
pub struct Symbols {
    pub symbols: Seq<Symbol>,
    pub truncated: bool,
    pub skipped_invalid: nat,
}

impl Default for WorkspaceSymbolReport {
    fn default() -> (report: Self)
        ensures
            report.symbols@.len() == 0,
            !report.truncated,
            report.skipped_invalid == 0,
    {
        WorkspaceSymbolReport { symbols: Vec::new(), truncated: false, skipped_invalid: 0 }
    }
}

/// The contents of symbols.
pub open spec fn symbols_of(symbols: Seq<WorkspaceSymbol>) -> Seq<Symbol> {
    symbols.map_values(|symbol: WorkspaceSymbol| symbol@)
}

impl View for WorkspaceSymbolReport {
    type V = Symbols;

    open spec fn view(&self) -> Symbols {
        Symbols {
            symbols: symbols_of(self.symbols@),
            truncated: self.truncated,
            skipped_invalid: self.skipped_invalid as nat,
        }
    }
}

/// Whether a scalar value is a control character.
pub open spec fn is_control(c: char) -> bool {
    c <= '\u{1f}' || ('\u{7f}' <= c && c <= '\u{9f}')
}

/// Whether a text holds a control character.
pub open spec fn any_control(s: Seq<char>) -> bool {
    exists|i: int| 0 <= i < s.len() && is_control(#[trigger] s[i])
}

/// Whether a text holds a control character.
pub fn holds_control(s: &str) -> (yes: bool)
    ensures
        yes == any_control(s@),
{
    let chars = chars_of(s);
    let mut i: usize = 0;
    while i < chars.len()
        invariant
            i <= chars@.len(),
            chars@ == s@,
            forall|k: int| 0 <= k < i ==> !is_control(#[trigger] s@[k]),
        decreases chars@.len() - i,
    {
        let c = chars[i];
        if c <= '\u{1f}' || ('\u{7f}' <= c && c <= '\u{9f}') {
            assert(is_control(s@[i as int]));
            return true;
        }
        i += 1;
    }
    false
}

/// How many scalar values of `s` fit into `max` bytes.
pub open spec fn fitting(s: Seq<char>, max: int) -> int
    decreases s.len(),
{
    if s.len() == 0 || char_width(s[0]) > max {
        0
    } else {
        1 + fitting(s.drop_first(), max - char_width(s[0]))
    }
}

/// The longest prefix of `s` that fits into `max` bytes.
pub open spec fn clipped(s: Seq<char>, max: int) -> Seq<char> {
    s.take(fitting(s, max))
}

/// What fits is a prefix within the bytes, and no longer prefix is.
pub proof fn law_clip_is_longest_fitting_prefix(s: Seq<char>, max: int)
    requires
        0 <= max,
    ensures
        0 <= fitting(s, max) <= s.len(),
        utf8_len(clipped(s, max)) <= max,
        fitting(s, max) < s.len() ==> utf8_len(s.take(fitting(s, max) + 1)) > max,
        utf8_len(s) <= max ==> clipped(s, max) == s,
    decreases s.len(),
{
    if s.len() > 0 {
        lemma_utf8_len_cons(s);
        if char_width(s[0]) <= max {
            let rest = s.drop_first();
            let n = fitting(rest, max - char_width(s[0]));
            law_clip_is_longest_fitting_prefix(rest, max - char_width(s[0]));
            lemma_utf8_len_cons(s.take(n + 1));
            assert(s.take(n + 1).drop_first() =~= rest.take(n));
            if n < rest.len() {
                lemma_utf8_len_cons(s.take(n + 2));
                assert(s.take(n + 2).drop_first() =~= rest.take(n + 1));
            }
            if utf8_len(s) <= max {
                assert(rest.take(n) == rest);
                assert(n == rest.len()) by {
                    assert(rest.take(n).len() == n);
                }
                assert(s.take(n + 1) =~= s);
            }
        } else {
            assert(s.take(0) =~= Seq::<char>::empty());
            lemma_utf8_len_cons(s.take(1));
            assert(s.take(1).drop_first() =~= Seq::<char>::empty());
        }
    } else {
        assert(clipped(s, max) =~= s);
    }
}

/// The longest prefix that fits, and whether something is left out.
pub fn clip_utf8_field(value: &str, max_bytes: usize) -> (result: (String, bool))
    ensures
        result.0@ == clipped(value@, max_bytes as int),
        result.1 == (utf8_len(value@) > max_bytes),
{
    proof {
        law_clip_is_longest_fitting_prefix(value@, max_bytes as int);
    }
    if byte_len(value) <= max_bytes {
        return (copy_text(value), false);
    }
    let chars = chars_of(value);
    let ghost s = value@;
    let mut room: usize = max_bytes;
    let mut i: usize = 0;
    assert(s.skip(0) =~= s);
    while i < chars.len() && width_of(chars[i]) <= room
        invariant
            i <= chars@.len(),
            chars@ == s,
            room <= max_bytes,
            fitting(s, max_bytes as int) == i + fitting(s.skip(i as int), room as int),
        decreases chars@.len() - i,
    {
        assert(s.skip(i as int).drop_first() =~= s.skip(i + 1));
        room -= width_of(chars[i]);
        i += 1;
    }
    assert(s.subrange(0, i as int) =~= s.take(i as int));
    (text_of(chars.as_slice(), 0, i), true)
}

/// A zero-based position.
pub open spec fn position_of(value: Json) -> Option<LspPosition> {
    match (member_unsigned(value, "line"@), member_unsigned(value, "character"@)) {
        (Some(line), Some(character)) => if line <= MAX_LSP_UINTEGER && character
            <= MAX_LSP_UINTEGER {
            Some(
                LspPosition {
                    line: Line { index: line as usize },
                    character: Utf16Offset { units: character as usize },
                },
            )
        } else {
            None
        },
        _ => None,
    }
}

/// A range.
pub open spec fn range_of(value: Json) -> Option<LspRange> {
    match (member_of(value, "start"@), member_of(value, "end"@)) {
        (Some(start), Some(end)) => match (position_of(start), position_of(end)) {
            (Some(start), Some(end)) => Some(LspRange { start, end }),
            _ => None,
        },
        _ => None,
    }
}

/// The range in member `key`.
pub open spec fn member_range(value: Json, key: Seq<char>) -> Option<LspRange> {
    match member_of(value, key) {
        Some(range) => range_of(range),
        None => None,
    }
}

fn unsigned_member(value: &JsonValue, key: &str) -> (number: Option<u64>)
    ensures
        number == member_unsigned(value@, key@),
{
    match value.get(key) {
        Some(member) => member.as_u64(),
        None => None,
    }
}

fn text_member<'a>(value: &'a JsonValue, key: &str) -> (text: Option<&'a str>)
    ensures
        match text {
            Some(t) => member_text(value@, key@) == Some(t@),
            None => member_text(value@, key@) is None,
        },
{
    match value.get(key) {
        Some(member) => member.as_str(),
        None => None,
    }
}

fn parse_position(value: &JsonValue) -> (position: Option<LspPosition>)
    ensures
        position == position_of(value@),
{
    match (unsigned_member(value, "line"), unsigned_member(value, "character")) {
        (Some(line), Some(character)) => {
            if line > MAX_LSP_UINTEGER || character > MAX_LSP_UINTEGER {
                return None;
            }
            Some(LspPosition::new(Line::new(line as usize), Utf16Offset::new(character as usize)))
        },
        _ => None,
    }
}

/// Reads a range.
pub fn parse_range(value: &JsonValue) -> (range: Option<LspRange>)
    ensures
        range == range_of(value@),
{
    match (value.get("start"), value.get("end")) {
        (Some(start), Some(end)) => match (parse_position(start), parse_position(end)) {
            (Some(start), Some(end)) => Some(LspRange::new(start, end)),
            _ => None,
        },
        _ => None,
    }
}

fn range_member(value: &JsonValue, key: &str) -> (range: Option<LspRange>)
    ensures
        range == member_range(value@, key@),
{
    match value.get(key) {
        Some(range) => parse_range(range),
        None => None,
    }
}

/// Whether `left` is not behind `right`.
pub open spec fn not_behind(left: LspPosition, right: LspPosition) -> bool {
    left.line.index < right.line.index || (left.line.index == right.line.index
        && left.character.units <= right.character.units)
}

fn position_is_at_or_before(left: LspPosition, right: LspPosition) -> (yes: bool)
    ensures
        yes == not_behind(left, right),
{
    left.line.get() < right.line.get() || (left.line.get() == right.line.get()
        && left.character.get() <= right.character.get())
}

/// The severity that a number stands for.
pub open spec fn severity_of(number: Option<i64>) -> DiagnosticSeverity {
    match number {
        None => DiagnosticSeverity::Information,
        Some(n) => if n == 1 {
            DiagnosticSeverity::Error
        } else if n == 2 {
            DiagnosticSeverity::Warning
        } else if n == 3 {
            DiagnosticSeverity::Information
        } else if n == 4 {
            DiagnosticSeverity::Hint
        } else {
            DiagnosticSeverity::Unknown(n)
        },
    }
}

/// The signed number of member `key`.
pub open spec fn member_signed(value: Json, key: Seq<char>) -> Option<i64> {
    match member_of(value, key) {
        Some(member) => signed_of(member),
        None => None,
    }
}

/// Whether a value is a diagnostic: a range that is not inverted and a message.
pub open spec fn is_diagnostic(value: Json) -> bool {
    match member_range(value, "range"@) {
        Some(range) => not_behind(range.start, range.end) && member_text(value, "message"@) is Some,
        None => false,
    }
}

/// How many values a value consists of, itself among them.
pub open spec fn node_count(value: Json) -> nat
    decreases value,
{
    match value {
        Json::List(items) => 1 + items_nodes(items),
        Json::Table(members) => 1 + members_nodes(members),
        _ => 1,
    }
}

/// The values that items consist of.
pub open spec fn items_nodes(items: Seq<Json>) -> nat
    decreases items,
{
    if items.len() == 0 {
        0
    } else {
        items_nodes(items.drop_last()) + node_count(items.last())
    }
}

/// The values that the value of a member consists of.
pub open spec fn member_nodes(member: (Seq<char>, Json)) -> nat
    decreases member,
{
    node_count(member.1)
}

/// The values that members consist of.
pub open spec fn members_nodes(members: Seq<(Seq<char>, Json)>) -> nat
    decreases members,
{
    if members.len() == 0 {
        0
    } else {
        members_nodes(members.drop_last()) + member_nodes(members.last())
    }
}

/// Whether a value is small enough to be kept: by the bytes of its compact
/// text, by its values and by its levels.
pub open spec fn raw_fits(value: Json) -> bool {
    &&& utf8_len(printed(value)) <= MAX_DIAGNOSTIC_RAW_BYTES
    &&& node_count(value) <= MAX_DIAGNOSTIC_RAW_NODES
    &&& height(value) + 1 <= MAX_DIAGNOSTIC_RAW_DEPTH
}

/// What is kept of a diagnostic.
pub open spec fn finding_of(uri: Seq<char>, value: Json) -> Finding {
    Finding {
        uri,
        range: member_range(value, "range"@)->0,
        severity: severity_of(member_signed(value, "severity"@)),
        message: clipped(
            member_text(value, "message"@)->0,
            MAX_DIAGNOSTIC_MESSAGE_BYTES as int,
        ),
        source: match member_text(value, "source"@) {
            Some(source) => Some(clipped(source, MAX_DIAGNOSTIC_SOURCE_BYTES as int)),
            None => None,
        },
        raw: if raw_fits(value) {
            value
        } else {
            Json::Null
        },
    }
}

/// How many fields of a diagnostic are clipped.
pub open spec fn clipped_fields(value: Json) -> nat {
    (if utf8_len(member_text(value, "message"@)->0) > MAX_DIAGNOSTIC_MESSAGE_BYTES {
        1nat
    } else {
        0
    }) + (match member_text(value, "source"@) {
        Some(source) if utf8_len(source) > MAX_DIAGNOSTIC_SOURCE_BYTES => 1nat,
        _ => 0,
    })
}

/// Whether a published URI is a bounded local file URI without control
/// characters.
pub open spec fn published_uri_is_valid(uri: Seq<char>) -> bool {
    &&& uri.len() > 0
    &&& utf8_len(uri) <= MAX_DIAGNOSTIC_URI_BYTES
    &&& !any_control(uri)
    &&& path_of(uri) is Ok
}

/// A report after one more value was inspected.
pub open spec fn report_step(uri: Seq<char>, report: Findings, value: Json) -> Findings {
    if !is_diagnostic(value) {
        Findings { skipped_invalid: report.skipped_invalid + 1, ..report }
    } else if report.diagnostics.len() >= MAX_DIAGNOSTICS_RETAINED {
        Findings { truncated: true, ..report }
    } else {
        Findings {
            diagnostics: report.diagnostics.push(finding_of(uri, value)),
            fields_truncated: report.fields_truncated + clipped_fields(value),
            raw_omitted: if raw_fits(value) {
                report.raw_omitted
            } else {
                report.raw_omitted + 1
            },
            ..report
        }
    }
}

/// A report after these values were inspected.
pub open spec fn report_upto(uri: Seq<char>, start: Findings, values: Seq<Json>) -> Findings
    decreases values.len(),
{
    if values.len() == 0 {
        start
    } else {
        report_step(uri, report_upto(uri, start, values.drop_last()), values.last())
    }
}

/// The smaller of a length and a limit.
pub open spec fn capped(len: nat, limit: usize) -> int {
    if len < limit {
        len as int
    } else {
        limit as int
    }
}

/// The report on published values.
pub open spec fn report_of(uri: Seq<char>, values: Seq<Json>) -> Findings {
    let inspected = capped(values.len(), MAX_DIAGNOSTICS_INSPECTED);
    let start = Findings {
        diagnostics: Seq::empty(),
        inspected: inspected as nat,
        truncated: values.len() > MAX_DIAGNOSTICS_INSPECTED,
        skipped_invalid: 0,
        fields_truncated: 0,
        raw_omitted: 0,
    };
    if published_uri_is_valid(uri) {
        report_upto(uri, start, values.take(inspected))
    } else {
        Findings { skipped_invalid: inspected as nat, ..start }
    }
}

/// Whether a published URI is accepted.
pub fn diagnostic_uri_is_valid(uri: &str) -> (yes: bool)
    ensures
        yes == published_uri_is_valid(uri@),
{
    if uri.is_empty() || byte_len(uri) > MAX_DIAGNOSTIC_URI_BYTES || holds_control(uri) {
        return false;
    }
    file_uri_to_path(uri).is_ok()
}

/// The number of values, or `None` where there are more than `limit`.
fn bounded_nodes(value: &JsonValue, limit: usize) -> (nodes: Option<usize>)
    ensures
        match nodes {
            Some(n) => n == node_count(value@) && n <= limit,
            None => node_count(value@) > limit,
        },
    decreases value,
{
    match value {
        JsonValue::Array(items) => bounded_items(items, limit),
        JsonValue::Object(object) => bounded_members(object, limit),
        _ => if limit >= 1 {
            Some(1)
        } else {
            None
        },
    }
}

proof fn lemma_items_nodes(items: Seq<Json>, i: int)
    requires
        0 <= i < items.len(),
    ensures
        items_nodes(items.take(i + 1)) == items_nodes(items.take(i)) + node_count(items[i]),
        items_nodes(items.take(i + 1)) <= items_nodes(items),
    decreases items.len() - i,
{
    assert(items.take(i + 1).drop_last() =~= items.take(i));
    assert(items.take(i + 1).last() == items[i]);
    if i + 1 < items.len() {
        lemma_items_nodes(items, i + 1);
    } else {
        assert(items.take(i + 1) =~= items);
    }
}

proof fn lemma_members_nodes(members: Seq<(Seq<char>, Json)>, i: int)
    requires
        0 <= i < members.len(),
    ensures
        members_nodes(members.take(i + 1)) == members_nodes(members.take(i)) + node_count(
            members[i].1,
        ),
        members_nodes(members.take(i + 1)) <= members_nodes(members),
    decreases members.len() - i,
{
    assert(members.take(i + 1).drop_last() =~= members.take(i));
    assert(members.take(i + 1).last() == members[i]);
    assert(member_nodes(members[i]) == node_count(members[i].1));
    if i + 1 < members.len() {
        lemma_members_nodes(members, i + 1);
    } else {
        assert(members.take(i + 1) =~= members);
    }
}

fn bounded_items(items: &Vec<JsonValue>, limit: usize) -> (nodes: Option<usize>)
    ensures
        match nodes {
            Some(n) => n == 1 + items_nodes(list_of(items@)) && n <= limit,
            None => 1 + items_nodes(list_of(items@)) > limit,
        },
    decreases items,
{
    let ghost list = list_of(items@);
    if limit < 1 {
        return None;
    }
    let mut n: usize = 1;
    let mut i: usize = 0;
    proof {
        lemma_list_of(items@);
        assert(list.take(0) =~= Seq::<Json>::empty());
    }
    while i < items.len()
        invariant
            i <= items@.len() == list.len(),
            list == list_of(items@),
            forall|k: int| 0 <= k < items@.len() ==> #[trigger] list[k] == json_of(items@[k]),
            n == 1 + items_nodes(list.take(i as int)),
            n <= limit,
        decreases items@.len() - i,
    {
        proof {
            lemma_items_nodes(list, i as int);
            assert(list[i as int] == json_of(items@[i as int]));
        }
        match bounded_nodes(&items[i], limit - n) {
            Some(more) => {
                n += more;
            },
            None => {
                return None;
            },
        }
        i += 1;
    }
    assert(list.take(i as int) =~= list);
    Some(n)
}

fn bounded_members(object: &JsonObject, limit: usize) -> (nodes: Option<usize>)
    ensures
        match nodes {
            Some(n) => n == 1 + members_nodes(object@) && n <= limit,
            None => 1 + members_nodes(object@) > limit,
        },
    decreases object,
{
    let ghost members = object@;
    let entries = &object.entries;
    if limit < 1 {
        return None;
    }
    let mut n: usize = 1;
    let mut i: usize = 0;
    proof {
        lemma_members(*object);
        assert(members.take(0) =~= Seq::<(Seq<char>, Json)>::empty());
    }
    while i < entries.len()
        invariant
            i <= entries@.len() == members.len(),
            members == object@,
            *entries == object.entries,
            forall|k: int|
                0 <= k < entries@.len() ==> #[trigger] members[k] == (
                    entries@[k].0@,
                    json_of(entries@[k].1),
                ),
            n == 1 + members_nodes(members.take(i as int)),
            n <= limit,
        decreases entries@.len() - i,
    {
        proof {
            lemma_members_nodes(members, i as int);
            assert(members[i as int] == (entries@[i as int].0@, json_of(entries@[i as int].1)));
            assert(decreases_to!(object => entries@[i as int].1));
        }
        match bounded_nodes(&entries[i].1, limit - n) {
            Some(more) => {
                n += more;
            },
            None => {
                return None;
            },
        }
        i += 1;
    }
    assert(members.take(i as int) =~= members);
    Some(n)
}

/// Checks exact compact-JSON byte size plus structural complexity without
/// allocating a serialized copy.
pub fn diagnostic_raw_within_bounds(root: &JsonValue) -> (yes: bool)
    ensures
        yes == raw_fits(root@),
{
    let mut length = BoundedJsonLength::new(MAX_DIAGNOSTIC_RAW_BYTES);
    let done = write_json_value_to(&mut length, root);
    assert(Seq::<char>::empty() + printed(root@) =~= printed(root@));
    match done {
        Ok(()) => bounded_nodes(root, MAX_DIAGNOSTIC_RAW_NODES).is_some() && within_height(
            root,
            MAX_DIAGNOSTIC_RAW_DEPTH - 1,
        ),
        Err(()) => false,
    }
}

/// Whether a value has at most `limit` levels below it.
fn within_height(value: &JsonValue, limit: usize) -> (yes: bool)
    ensures
        yes == (height(value@) <= limit),
    decreases value,
{
    match value {
        JsonValue::Array(items) => {
            let ghost list = list_of(items@);
            proof {
                lemma_list_of(items@);
                assert(list.take(0) =~= Seq::<Json>::empty());
            }
            let mut i: usize = 0;
            while i < items.len()
                invariant
                    i <= items@.len() == list.len(),
                    *value == JsonValue::Array(*items),
                    list == list_of(items@),
                    forall|k: int|
                        0 <= k < items@.len() ==> #[trigger] list[k] == json_of(items@[k]),
                    crate::json_write::items_height(list.take(i as int)) <= limit,
                decreases items@.len() - i,
            {
                proof {
                    crate::json_write::lemma_items_step(list, i as int);
                    let _ = crate::json_write::lemma_items_split(list, i + 1);
                    assert(list[i as int] == json_of(items@[i as int]));
                    assert(value->Array_0 == *items);
                    assert(decreases_to!(*value => value->Array_0));
                    assert(decreases_to!(*items => items@[i as int]));
                }
                if limit == 0 || !within_height(&items[i], limit - 1) {
                    return false;
                }
                i += 1;
            }
            assert(list.take(i as int) =~= list);
            true
        },
        JsonValue::Object(object) => {
            let ghost members = object@;
            let entries = &object.entries;
            proof {
                lemma_members(*object);
                assert(members.take(0) =~= Seq::<(Seq<char>, Json)>::empty());
            }
            let mut i: usize = 0;
            while i < entries.len()
                invariant
                    i <= entries@.len() == members.len(),
                    *value == JsonValue::Object(*object),
                    members == object@,
                    *entries == object.entries,
                    forall|k: int|
                        0 <= k < entries@.len() ==> #[trigger] members[k] == (
                            entries@[k].0@,
                            json_of(entries@[k].1),
                        ),
                    crate::json_write::members_height(members.take(i as int)) <= limit,
                decreases entries@.len() - i,
            {
                proof {
                    crate::json_write::lemma_members_step(members, i as int);
                    let _ = crate::json_write::lemma_members_split(members, i + 1);
                    assert(members[i as int] == (
                        entries@[i as int].0@,
                        json_of(entries@[i as int].1),
                    ));
                    assert(value->Object_0 == *object);
                    assert(decreases_to!(*value => value->Object_0));
                    assert(decreases_to!(*object => entries@[i as int].1));
                }
                if limit == 0 || !within_height(&entries[i].1, limit - 1) {
                    return false;
                }
                i += 1;
            }
            assert(members.take(i as int) =~= members);
            true
        },
        _ => true,
    }
}

/// What one more value adds to a report.
fn add_diagnostic(report: &mut DiagnosticReport, uri: &str, value: &JsonValue)
    requires
        old(report).skipped_invalid < usize::MAX,
        old(report).fields_truncated < usize::MAX - 1,
        old(report).raw_omitted < usize::MAX,
    ensures
        final(report)@ == report_step(uri@, old(report)@, value@),
{
    let range = match range_member(value, "range") {
        Some(range) => range,
        None => {
            report.skipped_invalid += 1;
            return;
        },
    };
    if !position_is_at_or_before(range.start, range.end) {
        report.skipped_invalid += 1;
        return;
    }
    let message = match text_member(value, "message") {
        Some(message) => message,
        None => {
            report.skipped_invalid += 1;
            return;
        },
    };
    if report.diagnostics.len() >= MAX_DIAGNOSTICS_RETAINED {
        report.truncated = true;
        return;
    }
    let number = match value.get("severity") {
        Some(severity) => severity.as_i64(),
        None => None,
    };
    let severity = match number {
        None => DiagnosticSeverity::Information,
        Some(n) => {
            if n == 1 {
                DiagnosticSeverity::Error
            } else if n == 2 {
                DiagnosticSeverity::Warning
            } else if n == 3 {
                DiagnosticSeverity::Information
            } else if n == 4 {
                DiagnosticSeverity::Hint
            } else {
                DiagnosticSeverity::Unknown(n)
            }
        },
    };
    let (message, message_clipped) = clip_utf8_field(message, MAX_DIAGNOSTIC_MESSAGE_BYTES);
    if message_clipped {
        report.fields_truncated += 1;
    }
    let source = match text_member(value, "source") {
        Some(source) => {
            let (source, source_clipped) = clip_utf8_field(source, MAX_DIAGNOSTIC_SOURCE_BYTES);
            if source_clipped {
                report.fields_truncated += 1;
            }
            Some(source)
        },
        None => None,
    };
    let raw = if diagnostic_raw_within_bounds(value) {
        value.clone()
    } else {
        report.raw_omitted += 1;
        JsonValue::Null
    };
    let ghost before = report.diagnostics@;
    let diagnostic = Diagnostic { uri: copy_text(uri), range, severity, message, source, raw };
    report.diagnostics.push(diagnostic);
    proof {
        assert(findings_of(report.diagnostics@) =~= findings_of(before).push(diagnostic@));
        assert(diagnostic@ == finding_of(uri@, value@));
    }
}

/// Adapts published diagnostics, within bounds.
pub fn parse_diagnostics(uri: &str, values: &[JsonValue]) -> (report: DiagnosticReport)
    ensures
        report@ == report_of(uri@, list_of(values@)),
{
    let ghost list = list_of(values@);
    proof {
        lemma_list_of(values@);
    }
    let inspected: usize = if values.len() < MAX_DIAGNOSTICS_INSPECTED {
        values.len()
    } else {
        MAX_DIAGNOSTICS_INSPECTED
    };
    let mut report = DiagnosticReport {
        diagnostics: Vec::new(),
        inspected,
        truncated: values.len() > MAX_DIAGNOSTICS_INSPECTED,
        skipped_invalid: 0,
        fields_truncated: 0,
        raw_omitted: 0,
    };
    assert(findings_of(report.diagnostics@) =~= Seq::<Finding>::empty());
    if !diagnostic_uri_is_valid(uri) {
        report.skipped_invalid = inspected;
        return report;
    }
    let ghost start = report@;
    let mut i: usize = 0;
    assert(list.take(0) =~= Seq::<Json>::empty());
    while i < inspected
        invariant
            i <= inspected <= values@.len() == list.len(),
            inspected <= MAX_DIAGNOSTICS_INSPECTED,
            list == list_of(values@),
            forall|k: int| 0 <= k < values@.len() ==> #[trigger] list[k] == json_of(values@[k]),
            report@ == report_upto(uri@, start, list.take(i as int)),
            report.skipped_invalid <= i,
            report.fields_truncated <= 2 * i,
            report.raw_omitted <= i,
        decreases inspected - i,
    {
        proof {
            assert(list.take(i + 1).drop_last() =~= list.take(i as int));
            assert(list.take(i + 1).last() == list[i as int]);
        }
        let ghost before = report@;
        add_diagnostic(&mut report, uri, &values[i]);
        proof {
            assert(report@ == report_step(uri@, before, list[i as int]));
            assert(report@.skipped_invalid <= before.skipped_invalid + 1);
            assert(report@.fields_truncated <= before.fields_truncated + 2);
            assert(report@.raw_omitted <= before.raw_omitted + 1);
        }
        i += 1;
    }
    report
}

/// A report never keeps or counts more than its limits allow.
pub proof fn law_diagnostic_report_is_bounded(uri: Seq<char>, values: Seq<Json>)
    ensures
        report_of(uri, values).diagnostics.len() <= MAX_DIAGNOSTICS_RETAINED,
        report_of(uri, values).diagnostics.len() + report_of(uri, values).skipped_invalid
            <= report_of(uri, values).inspected,
        report_of(uri, values).inspected <= MAX_DIAGNOSTICS_INSPECTED,
{
    let inspected = capped(values.len(), MAX_DIAGNOSTICS_INSPECTED);
    let start = Findings {
        diagnostics: Seq::empty(),
        inspected: inspected as nat,
        truncated: values.len() > MAX_DIAGNOSTICS_INSPECTED,
        skipped_invalid: 0,
        fields_truncated: 0,
        raw_omitted: 0,
    };
    lemma_report_bounded(uri, start, values.take(inspected));
}

proof fn lemma_report_bounded(uri: Seq<char>, start: Findings, values: Seq<Json>)
    requires
        start.diagnostics.len() == 0,
        start.skipped_invalid == 0,
    ensures
        ({
            let report = report_upto(uri, start, values);
            &&& report.diagnostics.len() <= MAX_DIAGNOSTICS_RETAINED
            &&& report.diagnostics.len() + report.skipped_invalid <= values.len()
            &&& report.inspected == start.inspected
        }),
    decreases values.len(),
{
    if values.len() > 0 {
        lemma_report_bounded(uri, start, values.drop_last());
    }
}

/// The edit of a completion: one range, or an insertion range that is a prefix
/// of the replacement range.
pub open spec fn completion_edit(value: Json) -> Option<Edit> {
    match member_text(value, "newText"@) {
        None => None,
        Some(new_text) => match (
            member_of(value, "range"@),
            member_of(value, "insert"@),
            member_of(value, "replace"@),
        ) {
            (Some(range), None, None) => match range_of(range) {
                Some(range) => Some(Edit { range, new_text }),
                None => None,
            },
            (None, Some(insert), Some(replace)) => match (range_of(insert), range_of(replace)) {
                (Some(insert), Some(replace)) => if insert.start == replace.start && not_behind(
                    insert.start,
                    insert.end,
                ) && not_behind(insert.end, replace.end) {
                    Some(Edit { range: replace, new_text })
                } else {
                    None
                },
                _ => None,
            },
            _ => None,
        },
    }
}

/// Whether a completion holds no malformed part.
pub open spec fn completion_is_sound(value: Json) -> bool {
    &&& member_text(value, "label"@) is Some
    &&& member_of(value, "textEdit"@) matches Some(edit) ==> completion_edit(edit) is Some
    &&& member_of(value, "insertText"@) matches Some(text) ==> text_value(text) is Some
    &&& member_of(value, "insertTextFormat"@) matches Some(format) ==> (signed_of(format) == Some(
        1i64,
    ) || signed_of(format) == Some(2i64))
}

/// The completion that a value describes.
pub open spec fn completion_of(value: Json) -> Option<Completion> {
    if !completion_is_sound(value) {
        None
    } else {
        let label = member_text(value, "label"@)->0;
        let text_edit = match member_of(value, "textEdit"@) {
            Some(edit) => completion_edit(edit),
            None => None,
        };
        Some(
            Completion {
                label,
                detail: member_text(value, "detail"@),
                insert_text: match (member_text(value, "insertText"@), text_edit) {
                    (Some(text), _) => text,
                    (None, Some(edit)) => edit.new_text,
                    (None, None) => label,
                },
                text_edit,
                is_snippet: member_signed(value, "insertTextFormat"@) == Some(2i64),
            },
        )
    }
}

/// What `read` makes of values, without those that it refuses.
pub open spec fn collected<T>(values: Seq<Json>, read: spec_fn(Json) -> Option<T>) -> Seq<T>
    decreases values.len(),
{
    if values.len() == 0 {
        Seq::empty()
    } else {
        match read(values.last()) {
            Some(item) => collected(values.drop_last(), read).push(item),
            None => collected(values.drop_last(), read),
        }
    }
}

/// The items of a completion result: an array, or the array in `items`.
pub open spec fn completion_values(result: Json) -> Seq<Json> {
    match result {
        Json::List(values) => values,
        Json::Table(_) => match member_of(result, "items"@) {
            Some(Json::List(values)) => values,
            _ => Seq::empty(),
        },
        _ => Seq::empty(),
    }
}

/// The completions of a result.
pub open spec fn completions_of(result: Json) -> Seq<Completion> {
    let values = completion_values(result);
    collected(
        values.take(capped(values.len(), MAX_COMPLETIONS)),
        |value: Json| completion_of(value),
    )
}

fn parse_completion_text_edit(value: &JsonValue) -> (edit: Option<TextEdit>)
    ensures
        edit_option(edit) == completion_edit(value@),
{
    let new_text = match text_member(value, "newText") {
        Some(text) => copy_text(text),
        None => {
            return None;
        },
    };
    match (value.get("range"), value.get("insert"), value.get("replace")) {
        (Some(range), None, None) => match parse_range(range) {
            Some(range) => Some(TextEdit { range, new_text }),
            None => None,
        },
        (None, Some(insert), Some(replace)) => match (parse_range(insert), parse_range(replace)) {
            (Some(insert), Some(replace)) => {
                // The editor applies the replacement range, but both required
                // ranges and their prefix relationship must be valid before
                // the completion item is allowed into the picker.
                if insert.start != replace.start || !position_is_at_or_before(
                    insert.start,
                    insert.end,
                ) || !position_is_at_or_before(insert.end, replace.end) {
                    return None;
                }
                Some(TextEdit { range: replace, new_text })
            },
            _ => None,
        },
        _ => None,
    }
}

/// The content of an optional completion.
pub open spec fn completion_option(item: Option<CompletionItem>) -> Option<Completion> {
    match item {
        Some(i) => Some(i@),
        None => None,
    }
}

fn parse_completion_item(value: &JsonValue) -> (item: Option<CompletionItem>)
    ensures
        completion_option(item) == completion_of(value@),
{
    let label = match text_member(value, "label") {
        Some(label) => copy_text(label),
        None => {
            return None;
        },
    };
    let detail = match text_member(value, "detail") {
        Some(detail) => Some(copy_text(detail)),
        None => None,
    };
    let text_edit = match value.get("textEdit") {
        None => None,
        Some(edit) => match parse_completion_text_edit(edit) {
            Some(edit) => Some(edit),
            None => {
                return None;
            },
        },
    };
    let explicit = match value.get("insertText") {
        None => None,
        Some(text) => match text.as_str() {
            Some(text) => Some(copy_text(text)),
            None => {
                return None;
            },
        },
    };
    let insert_text = match explicit {
        Some(text) => text,
        None => match &text_edit {
            Some(edit) => edit.new_text.clone(),
            None => label.clone(),
        },
    };
    let is_snippet = match value.get("insertTextFormat") {
        None => false,
        Some(format) => match format.as_i64() {
            Some(n) => {
                if n == 1 {
                    false
                } else if n == 2 {
                    true
                } else {
                    return None;
                }
            },
            None => {
                return None;
            },
        },
    };
    Some(CompletionItem { label, detail, insert_text, text_edit, is_snippet })
}

/// The contents of completions.
pub open spec fn completion_contents(items: Seq<CompletionItem>) -> Seq<Completion> {
    items.map_values(|item: CompletionItem| item@)
}

fn collect_completions(values: &Vec<JsonValue>) -> (items: Vec<CompletionItem>)
    ensures
        ({
            let list = list_of(values@);
            completion_contents(items@) == collected(
                list.take(capped(list.len(), MAX_COMPLETIONS)),
                |value: Json| completion_of(value),
            )
        }),
{
    let ghost list = list_of(values@);
    let ghost read = |value: Json| completion_of(value);
    proof {
        lemma_list_of(values@);
        assert(list.take(0) =~= Seq::<Json>::empty());
    }
    let mut items: Vec<CompletionItem> = Vec::new();
    assert(completion_contents(items@) =~= Seq::<Completion>::empty());
    let mut i: usize = 0;
    while i < values.len() && i < MAX_COMPLETIONS
        invariant
            i <= values@.len() == list.len(),
            i <= MAX_COMPLETIONS,
            list == list_of(values@),
            forall|k: int| 0 <= k < values@.len() ==> #[trigger] list[k] == json_of(values@[k]),
            read == |value: Json| completion_of(value),
            completion_contents(items@) == collected(list.take(i as int), read),
        decreases values@.len() - i,
    {
        proof {
            assert(list.take(i + 1).drop_last() =~= list.take(i as int));
            assert(list.take(i + 1).last() == list[i as int]);
        }
        let ghost before = items@;
        if let Some(item) = parse_completion_item(&values[i]) {
            items.push(item);
            assert(completion_contents(items@) =~= completion_contents(before).push(item@));
        }
        i += 1;
    }
    items
}

/// Reads the completions of a result; malformed items are left out.
pub fn parse_completion(result: &JsonValue) -> (items: Vec<CompletionItem>)
    ensures
        completion_contents(items@) == completions_of(result@),
{
    let none: Vec<JsonValue> = Vec::new();
    proof {
        lemma_list_of(none@);
        assert(list_of(none@) =~= Seq::<Json>::empty());
    }
    match result {
        JsonValue::Array(values) => collect_completions(values),
        JsonValue::Object(_) => match result.get("items") {
            Some(JsonValue::Array(values)) => collect_completions(values),
            _ => collect_completions(&none),
        },
        _ => collect_completions(&none),
    }
}

/// The location that a value describes, in either of the two shapes.
pub open spec fn location_of(value: Json) -> Option<Place> {
    match member_text(value, "uri"@) {
        Some(uri) => match member_range(value, "range"@) {
            Some(range) => Some(Place { uri, range }),
            None => None,
        },
        None => match member_text(value, "targetUri"@) {
            None => None,
            Some(uri) => {
                let range = match member_of(value, "targetSelectionRange"@) {
                    Some(range) => range_of(range),
                    None => member_range(value, "targetRange"@),
                };
                match range {
                    Some(range) => Some(Place { uri, range }),
                    None => None,
                }
            },
        },
    }
}

/// The content of an optional location.
pub open spec fn place_option(location: Option<Location>) -> Option<Place> {
    match location {
        Some(l) => Some(l@),
        None => None,
    }
}

fn parse_location(value: &JsonValue) -> (location: Option<Location>)
    ensures
        place_option(location) == location_of(value@),
{
    if let Some(uri) = text_member(value, "uri") {
        return match range_member(value, "range") {
            Some(range) => Some(Location { uri: copy_text(uri), range }),
            None => None,
        };
    }
    match text_member(value, "targetUri") {
        None => None,
        Some(uri) => {
            let range = match value.get("targetSelectionRange") {
                Some(range) => parse_range(range),
                None => range_member(value, "targetRange"),
            };
            match range {
                Some(range) => Some(Location { uri: copy_text(uri), range }),
                None => None,
            }
        },
    }
}

/// The locations of a result.
pub open spec fn locations_of(result: Json) -> Seq<Place> {
    match result {
        Json::List(values) => collected(
            values.take(capped(values.len(), MAX_LOCATIONS)),
            |value: Json| location_of(value),
        ),
        Json::Table(_) => match location_of(result) {
            Some(place) => seq![place],
            None => Seq::empty(),
        },
        _ => Seq::empty(),
    }
}

/// The contents of locations.
pub open spec fn places_of(locations: Seq<Location>) -> Seq<Place> {
    locations.map_values(|location: Location| location@)
}

/// Reads the locations of a result; malformed ones are left out.
pub fn parse_locations(result: &JsonValue) -> (locations: Vec<Location>)
    ensures
        places_of(locations@) == locations_of(result@),
{
    let mut locations: Vec<Location> = Vec::new();
    assert(places_of(locations@) =~= Seq::<Place>::empty());
    match result {
        JsonValue::Array(values) => {
            let ghost list = list_of(values@);
            let ghost read = |value: Json| location_of(value);
            proof {
                lemma_list_of(values@);
                assert(list.take(0) =~= Seq::<Json>::empty());
            }
            let mut i: usize = 0;
            while i < values.len() && i < MAX_LOCATIONS
                invariant
                    i <= values@.len() == list.len(),
                    i <= MAX_LOCATIONS,
                    list == list_of(values@),
                    forall|k: int|
                        0 <= k < values@.len() ==> #[trigger] list[k] == json_of(values@[k]),
                    read == |value: Json| location_of(value),
                    places_of(locations@) == collected(list.take(i as int), read),
                decreases values@.len() - i,
            {
                proof {
                    assert(list.take(i + 1).drop_last() =~= list.take(i as int));
                    assert(list.take(i + 1).last() == list[i as int]);
                }
                let ghost before = locations@;
                if let Some(location) = parse_location(&values[i]) {
                    locations.push(location);
                    assert(places_of(locations@) =~= places_of(before).push(location@));
                }
                i += 1;
            }
        },
        JsonValue::Object(_) => {
            if let Some(location) = parse_location(result) {
                locations.push(location);
                assert(places_of(locations@) =~= seq![location@]);
            }
        },
        _ => {},
    }
    locations
}

/// The kind that a number stands for.
pub open spec fn kind_of(number: i64) -> WorkspaceSymbolKind {
    if number == 1 {
        WorkspaceSymbolKind::File
    } else if number == 2 {
        WorkspaceSymbolKind::Module
    } else if number == 3 {
        WorkspaceSymbolKind::Namespace
    } else if number == 4 {
        WorkspaceSymbolKind::Package
    } else if number == 5 {
        WorkspaceSymbolKind::Class
    } else if number == 6 {
        WorkspaceSymbolKind::Method
    } else if number == 7 {
        WorkspaceSymbolKind::Property
    } else if number == 8 {
        WorkspaceSymbolKind::Field
    } else if number == 9 {
        WorkspaceSymbolKind::Constructor
    } else if number == 10 {
        WorkspaceSymbolKind::Enum
    } else if number == 11 {
        WorkspaceSymbolKind::Interface
    } else if number == 12 {
        WorkspaceSymbolKind::Function
    } else if number == 13 {
        WorkspaceSymbolKind::Variable
    } else if number == 14 {
        WorkspaceSymbolKind::Constant
    } else if number == 15 {
        WorkspaceSymbolKind::String
    } else if number == 16 {
        WorkspaceSymbolKind::Number
    } else if number == 17 {
        WorkspaceSymbolKind::Boolean
    } else if number == 18 {
        WorkspaceSymbolKind::Array
    } else if number == 19 {
        WorkspaceSymbolKind::Object
    } else if number == 20 {
        WorkspaceSymbolKind::Key
    } else if number == 21 {
        WorkspaceSymbolKind::Null
    } else if number == 22 {
        WorkspaceSymbolKind::EnumMember
    } else if number == 23 {
        WorkspaceSymbolKind::Struct
    } else if number == 24 {
        WorkspaceSymbolKind::Event
    } else if number == 25 {
        WorkspaceSymbolKind::Operator
    } else if number == 26 {
        WorkspaceSymbolKind::TypeParameter
    } else {
        WorkspaceSymbolKind::Unknown(number)
    }
}

pub fn parse_workspace_symbol_kind(number: i64) -> (kind: WorkspaceSymbolKind)
    ensures
        kind == kind_of(number),
{
    match number {
        1 => WorkspaceSymbolKind::File,
        2 => WorkspaceSymbolKind::Module,
        3 => WorkspaceSymbolKind::Namespace,
        4 => WorkspaceSymbolKind::Package,
        5 => WorkspaceSymbolKind::Class,
        6 => WorkspaceSymbolKind::Method,
        7 => WorkspaceSymbolKind::Property,
        8 => WorkspaceSymbolKind::Field,
        9 => WorkspaceSymbolKind::Constructor,
        10 => WorkspaceSymbolKind::Enum,
        11 => WorkspaceSymbolKind::Interface,
        12 => WorkspaceSymbolKind::Function,
        13 => WorkspaceSymbolKind::Variable,
        14 => WorkspaceSymbolKind::Constant,
        15 => WorkspaceSymbolKind::String,
        16 => WorkspaceSymbolKind::Number,
        17 => WorkspaceSymbolKind::Boolean,
        18 => WorkspaceSymbolKind::Array,
        19 => WorkspaceSymbolKind::Object,
        20 => WorkspaceSymbolKind::Key,
        21 => WorkspaceSymbolKind::Null,
        22 => WorkspaceSymbolKind::EnumMember,
        23 => WorkspaceSymbolKind::Struct,
        24 => WorkspaceSymbolKind::Event,
        25 => WorkspaceSymbolKind::Operator,
        26 => WorkspaceSymbolKind::TypeParameter,
        _ => WorkspaceSymbolKind::Unknown(number),
    }
}

/// A name that is clipped to its limit, unless the kept part holds a control
/// character; and whether it was clipped.
pub open spec fn symbol_field(text: Seq<char>) -> Option<(Seq<char>, bool)> {
    let kept = clipped(text, MAX_WORKSPACE_SYMBOL_FIELD_BYTES as int);
    if any_control(kept) {
        None
    } else {
        Some((kept, utf8_len(text) > MAX_WORKSPACE_SYMBOL_FIELD_BYTES))
    }
}

fn bounded_symbol_field(value: &str) -> (field: Option<(String, bool)>)
    ensures
        match (field, symbol_field(value@)) {
            (Some((text, clip)), Some((kept, was))) => text@ == kept && clip == was,
            (None, None) => true,
            _ => false,
        },
{
    let (text, clip) = clip_utf8_field(value, MAX_WORKSPACE_SYMBOL_FIELD_BYTES);
    if holds_control(text.as_str()) {
        return None;
    }
    Some((text, clip))
}

/// The location of a symbol: a bounded local file URI without control
/// characters and a range that is not inverted.
pub open spec fn symbol_location(value: Json) -> Option<Place> {
    match (member_text(value, "uri"@), member_range(value, "range"@)) {
        (Some(uri), Some(range)) => if utf8_len(uri) <= MAX_WORKSPACE_SYMBOL_URI_BYTES
            && !any_control(uri) && path_of(uri) is Ok && not_behind(range.start, range.end) {
            Some(Place { uri, range })
        } else {
            None
        },
        _ => None,
    }
}

fn parse_workspace_symbol_location(value: &JsonValue) -> (location: Option<Location>)
    ensures
        place_option(location) == symbol_location(value@),
{
    let uri = match text_member(value, "uri") {
        Some(uri) => uri,
        None => {
            return None;
        },
    };
    if byte_len(uri) > MAX_WORKSPACE_SYMBOL_URI_BYTES || holds_control(uri) {
        return None;
    }
    if file_uri_to_path(uri).is_err() {
        return None;
    }
    match range_member(value, "range") {
        Some(range) => {
            if !position_is_at_or_before(range.start, range.end) {
                return None;
            }
            Some(Location { uri: copy_text(uri), range })
        },
        None => None,
    }
}

/// The symbol that a value describes, and whether a field was clipped.
pub open spec fn symbol_of(value: Json) -> Option<(Symbol, bool)> {
    match (
        member_signed(value, "kind"@),
        member_of(value, "location"@),
        member_text(value, "name"@),
    ) {
        (Some(kind), Some(location), Some(name)) => match (
            symbol_location(location),
            symbol_field(name),
        ) {
            (Some(location), Some((kept, name_clipped))) => if name.len() == 0 {
                None
            } else {
                match member_of(value, "containerName"@) {
                    None => Some(
                        (
                            Symbol {
                                name: kept,
                                container_name: None,
                                kind: kind_of(kind),
                                location,
                            },
                            name_clipped,
                        ),
                    ),
                    Some(container) => match text_value(container) {
                        None => None,
                        Some(text) => match symbol_field(text) {
                            None => None,
                            Some((container, container_clipped)) => Some(
                                (
                                    Symbol {
                                        name: kept,
                                        container_name: if container.len() == 0 {
                                            None
                                        } else {
                                            Some(container)
                                        },
                                        kind: kind_of(kind),
                                        location,
                                    },
                                    name_clipped || container_clipped,
                                ),
                            ),
                        },
                    },
                }
            },
            _ => None,
        },
        _ => None,
    }
}

fn parse_workspace_symbol(value: &JsonValue) -> (symbol: Option<(WorkspaceSymbol, bool)>)
    ensures
        match (symbol, symbol_of(value@)) {
            (Some((found, clip)), Some((content, was))) => found@ == content && clip == was,
            (None, None) => true,
            _ => false,
        },
{
    let number = match value.get("kind") {
        Some(kind) => match kind.as_i64() {
            Some(number) => number,
            None => {
                return None;
            },
        },
        None => {
            return None;
        },
    };
    let kind = parse_workspace_symbol_kind(number);
    let location = match value.get("location") {
        Some(location) => match parse_workspace_symbol_location(location) {
            Some(location) => location,
            None => {
                return None;
            },
        },
        None => {
            return None;
        },
    };
    let raw_name = match text_member(value, "name") {
        Some(name) => name,
        None => {
            return None;
        },
    };
    if raw_name.is_empty() {
        return None;
    }
    let (name, name_clipped) = match bounded_symbol_field(raw_name) {
        Some(field) => field,
        None => {
            return None;
        },
    };
    match value.get("containerName") {
        None => Some((WorkspaceSymbol { name, container_name: None, kind, location }, name_clipped)),
        Some(container) => match container.as_str() {
            None => None,
            Some(text) => match bounded_symbol_field(text) {
                None => None,
                Some((container, container_clipped)) => {
                    let container_name = if container.as_str().is_empty() {
                        None
                    } else {
                        Some(container)
                    };
                    Some(
                        (
                            WorkspaceSymbol { name, container_name, kind, location },
                            name_clipped || container_clipped,
                        ),
                    )
                },
            },
        },
    }
}

/// A symbol report after one more value was inspected.
pub open spec fn symbols_step(report: Symbols, value: Json) -> Symbols {
    match symbol_of(value) {
        Some((symbol, clip)) => Symbols {
            symbols: report.symbols.push(symbol),
            truncated: report.truncated || clip,
            ..report
        },
        None => Symbols { skipped_invalid: report.skipped_invalid + 1, ..report },
    }
}

/// A symbol report after these values were inspected.
pub open spec fn symbols_upto(start: Symbols, values: Seq<Json>) -> Symbols
    decreases values.len(),
{
    if values.len() == 0 {
        start
    } else {
        symbols_step(symbols_upto(start, values.drop_last()), values.last())
    }
}

/// The report on a `workspace/symbol` result.
pub open spec fn symbol_report(result: Json) -> Symbols {
    let start = Symbols { symbols: Seq::empty(), truncated: false, skipped_invalid: 0 };
    match result {
        Json::Null => start,
        Json::List(values) => symbols_upto(
            Symbols { truncated: values.len() > MAX_WORKSPACE_SYMBOLS, ..start },
            values.take(capped(values.len(), MAX_WORKSPACE_SYMBOLS)),
        ),
        _ => Symbols { skipped_invalid: 1, ..start },
    }
}

/// Whether a symbol may be shown: it has a name, its texts are bounded and hold
/// no control characters, and its location is a bounded local file.
pub open spec fn symbol_is_safe(symbol: Symbol) -> bool {
    &&& symbol.name.len() > 0
    &&& utf8_len(symbol.name) <= MAX_WORKSPACE_SYMBOL_FIELD_BYTES
    &&& !any_control(symbol.name)
    &&& symbol.container_name matches Some(name) ==> utf8_len(name)
        <= MAX_WORKSPACE_SYMBOL_FIELD_BYTES && !any_control(name)
    &&& utf8_len(symbol.location.uri) <= MAX_WORKSPACE_SYMBOL_URI_BYTES
    &&& !any_control(symbol.location.uri)
    &&& path_of(symbol.location.uri) is Ok
    &&& not_behind(symbol.location.range.start, symbol.location.range.end)
}

/// Whether showing a value clips one of its texts.
pub open spec fn is_clipped(value: Json) -> bool {
    symbol_of(value) matches Some((_, clip)) && clip
}

/// Whether showing some of these values clips a text.
pub open spec fn any_clipped(values: Seq<Json>) -> bool {
    exists|i: int| 0 <= i < values.len() && is_clipped(#[trigger] values[i])
}

/// Every symbol of a report is safe to show. Of a list, each value that was
/// inspected is shown or counted. The report is partial exactly where the list
/// was cut or a text was clipped.
pub proof fn law_symbol_report_is_safe(result: Json)
    ensures
        ({
            let report = symbol_report(result);
            &&& forall|i: int|
                0 <= i < report.symbols.len() ==> symbol_is_safe(#[trigger] report.symbols[i])
            &&& result matches Json::List(values) ==> report.symbols.len() + report.skipped_invalid
                == capped(values.len(), MAX_WORKSPACE_SYMBOLS)
            &&& result matches Json::List(values) ==> (report.truncated <==> values.len()
                > MAX_WORKSPACE_SYMBOLS || any_clipped(
                values.take(capped(values.len(), MAX_WORKSPACE_SYMBOLS)),
            ))
            &&& !(result is List) ==> !report.truncated
        }),
{
    if let Json::List(values) = result {
        let start = Symbols {
            symbols: Seq::empty(),
            truncated: values.len() > MAX_WORKSPACE_SYMBOLS,
            skipped_invalid: 0,
        };
        let shown = values.take(capped(values.len(), MAX_WORKSPACE_SYMBOLS));
        lemma_symbols_safe(start, shown);
        lemma_symbols_clipped(start, shown);
    }
}

proof fn lemma_symbols_safe(start: Symbols, values: Seq<Json>)
    requires
        start.symbols.len() == 0,
        start.skipped_invalid == 0,
    ensures
        ({
            let report = symbols_upto(start, values);
            &&& forall|i: int|
                0 <= i < report.symbols.len() ==> symbol_is_safe(#[trigger] report.symbols[i])
            &&& report.symbols.len() + report.skipped_invalid == values.len()
        }),
    decreases values.len(),
{
    if values.len() > 0 {
        lemma_symbols_safe(start, values.drop_last());
        lemma_symbol_safe(values.last());
    }
}

proof fn lemma_symbols_clipped(start: Symbols, values: Seq<Json>)
    ensures
        symbols_upto(start, values).truncated <==> start.truncated || any_clipped(values),
    decreases values.len(),
{
    if values.len() > 0 {
        let front = values.drop_last();
        let last = values.len() - 1;
        lemma_symbols_clipped(start, front);
        assert(values[last] == values.last());
        assert(symbols_upto(start, values).truncated <==> symbols_upto(start, front).truncated
            || is_clipped(values[last]));
        if any_clipped(front) {
            let i = choose|i: int| 0 <= i < front.len() && is_clipped(#[trigger] front[i]);
            assert(is_clipped(values[i]));
        }
        if any_clipped(values) && !is_clipped(values[last]) {
            let i = choose|i: int| 0 <= i < values.len() && is_clipped(#[trigger] values[i]);
            assert(is_clipped(front[i]));
        }
    }
}

proof fn lemma_symbol_safe(value: Json)
    ensures
        symbol_of(value) matches Some((symbol, _)) ==> symbol_is_safe(symbol),
{
    let max = MAX_WORKSPACE_SYMBOL_FIELD_BYTES as int;
    let name = member_text(value, "name"@)->0;
    law_clip_is_longest_fitting_prefix(name, max);
    if name.len() > 0 && fitting(name, max) == 0 {
        lemma_utf8_len_cons(name.take(1));
        lemma_utf8_len_cons(name.take(1).drop_first());
    }
    if let Some(container) = member_of(value, "containerName"@) {
        law_clip_is_longest_fitting_prefix(text_value(container)->0, max);
    }
}

/// Parse the two range-bearing result shapes of a `workspace/symbol` request.
/// Range-less locations are skipped: the client cannot resolve them later.
pub fn parse_workspace_symbols(result: &JsonValue) -> (report: WorkspaceSymbolReport)
    ensures
        report@ == symbol_report(result@),
{
    let mut report = WorkspaceSymbolReport {
        symbols: Vec::new(),
        truncated: false,
        skipped_invalid: 0,
    };
    assert(symbols_of(report.symbols@) =~= Seq::<Symbol>::empty());
    match result {
        JsonValue::Null => {},
        JsonValue::Array(values) => {
            let ghost list = list_of(values@);
            proof {
                lemma_list_of(values@);
                assert(list.take(0) =~= Seq::<Json>::empty());
            }
            report.truncated = values.len() > MAX_WORKSPACE_SYMBOLS;
            let ghost start = report@;
            let mut i: usize = 0;
            while i < values.len() && i < MAX_WORKSPACE_SYMBOLS
                invariant
                    i <= values@.len() == list.len(),
                    i <= MAX_WORKSPACE_SYMBOLS,
                    list == list_of(values@),
                    forall|k: int|
                        0 <= k < values@.len() ==> #[trigger] list[k] == json_of(values@[k]),
                    report@ == symbols_upto(start, list.take(i as int)),
                    report.skipped_invalid <= i,
                decreases values@.len() - i,
            {
                proof {
                    assert(list.take(i + 1).drop_last() =~= list.take(i as int));
                    assert(list.take(i + 1).last() == list[i as int]);
                }
                match parse_workspace_symbol(&values[i]) {
                    Some((symbol, clip)) => {
                        let ghost before = report.symbols@;
                        if clip {
                            report.truncated = true;
                        }
                        report.symbols.push(symbol);
                        assert(symbols_of(report.symbols@) =~= symbols_of(before).push(symbol@));
                    },
                    None => {
                        report.skipped_invalid += 1;
                    },
                }
                i += 1;
            }
        },
        _ => {
            report.skipped_invalid = 1;
        },
    }
    report
}

/// The text of hover contents, piece by piece.
pub open spec fn hover_pieces(value: Json) -> Seq<Seq<char>>
    decreases value,
{
    match value {
        Json::Text(text) => seq![text],
        Json::List(values) => hover_items(values),
        Json::Table(_) => match member_text(value, "value"@) {
            Some(text) => match member_text(value, "language"@) {
                Some(language) => seq!["```"@ + language + "\n"@ + text + "\n```"@],
                None => seq![text],
            },
            None => Seq::empty(),
        },
        _ => Seq::empty(),
    }
}

/// The pieces of several hover contents.
pub open spec fn hover_items(values: Seq<Json>) -> Seq<Seq<char>>
    decreases values,
{
    if values.len() == 0 {
        Seq::empty()
    } else {
        hover_items(values.drop_last()) + hover_pieces(values.last())
    }
}

/// Texts with an empty line between them.
pub open spec fn paragraphs(pieces: Seq<Seq<char>>) -> Seq<char>
    decreases pieces.len(),
{
    if pieces.len() == 0 {
        Seq::empty()
    } else if pieces.len() == 1 {
        pieces[0]
    } else {
        paragraphs(pieces.drop_last()) + "\n\n"@ + pieces.last()
    }
}

/// What a hover result shows.
pub open spec fn hover_text(result: Json) -> Option<Seq<char>> {
    let contents = match member_of(result, "contents"@) {
        Some(contents) => contents,
        None => result,
    };
    let pieces = hover_pieces(contents);
    if pieces.len() == 0 {
        None
    } else {
        Some(paragraphs(pieces))
    }
}

/// The contents of texts.
pub open spec fn texts_of(texts: Seq<String>) -> Seq<Seq<char>> {
    texts.map_values(|text: String| text@)
}

fn collect_hover_contents(value: &JsonValue, lines: &mut Vec<String>)
    ensures
        texts_of(final(lines)@) == texts_of(old(lines)@) + hover_pieces(value@),
    decreases value,
{
    let ghost before = lines@;
    match value {
        JsonValue::String(text) => {
            lines.push(text.clone());
            assert(texts_of(lines@) =~= texts_of(before) + seq![text@]);
        },
        JsonValue::Array(values) => {
            let ghost list = list_of(values@);
            proof {
                lemma_list_of(values@);
                assert(list.take(0) =~= Seq::<Json>::empty());
                assert(texts_of(lines@) =~= texts_of(before) + hover_items(list.take(0)));
            }
            let mut i: usize = 0;
            while i < values.len()
                invariant
                    i <= values@.len() == list.len(),
                    *value == JsonValue::Array(*values),
                    list == list_of(values@),
                    forall|k: int|
                        0 <= k < values@.len() ==> #[trigger] list[k] == json_of(values@[k]),
                    texts_of(lines@) == texts_of(before) + hover_items(list.take(i as int)),
                decreases values@.len() - i,
            {
                proof {
                    assert(list.take(i + 1).drop_last() =~= list.take(i as int));
                    assert(list.take(i + 1).last() == list[i as int]);
                    assert(value->Array_0 == *values);
                    assert(decreases_to!(*value => value->Array_0));
                    assert(decreases_to!(*values => values@[i as int]));
                }
                collect_hover_contents(&values[i], lines);
                assert(texts_of(lines@) =~= texts_of(before) + hover_items(list.take(i + 1)));
                i += 1;
            }
            assert(list.take(i as int) =~= list);
        },
        JsonValue::Object(_) => {
            if let Some(text) = text_member(value, "value") {
                let mut piece = String::new();
                if let Some(language) = text_member(value, "language") {
                    piece.push_str("```");
                    piece.push_str(language);
                    piece.push_str("\n");
                    piece.push_str(text);
                    piece.push_str("\n```");
                    assert(piece@ =~= "```"@ + language@ + "\n"@ + text@ + "\n```"@);
                } else {
                    piece.push_str(text);
                    assert(piece@ =~= text@);
                }
                lines.push(piece);
                assert(texts_of(lines@) =~= texts_of(before) + seq![piece@]);
            } else {
                assert(texts_of(lines@) =~= texts_of(before) + Seq::<Seq<char>>::empty());
            }
        },
        _ => {
            assert(texts_of(lines@) =~= texts_of(before) + Seq::<Seq<char>>::empty());
        },
    }
}

/// Renders a hover result.
pub fn render_hover(result: &JsonValue) -> (text: Option<String>)
    ensures
        text_option(text) == hover_text(result@),
{
    let contents = match result.get("contents") {
        Some(contents) => contents,
        None => result,
    };
    let mut lines: Vec<String> = Vec::new();
    collect_hover_contents(contents, &mut lines);
    let ghost pieces = texts_of(lines@);
    assert(pieces =~= hover_pieces(contents@)) by {
        assert(texts_of(Seq::<String>::empty()) =~= Seq::<Seq<char>>::empty());
        assert(pieces =~= Seq::<Seq<char>>::empty() + hover_pieces(contents@));
    }
    if lines.len() == 0 {
        return None;
    }
    let mut text = lines[0].clone();
    let mut i: usize = 1;
    assert(pieces.take(1).len() == 1);
    while i < lines.len()
        invariant
            1 <= i <= lines@.len() == pieces.len(),
            pieces == texts_of(lines@),
            text@ == paragraphs(pieces.take(i as int)),
        decreases lines@.len() - i,
    {
        proof {
            assert(pieces.take(i + 1).drop_last() =~= pieces.take(i as int));
            assert(pieces.take(i + 1).last() == lines@[i as int]@);
        }
        text.push_str("\n\n");
        text.push_str(lines[i].as_str());
        i += 1;
    }
    assert(pieces.take(i as int) =~= pieces);
    Some(text)
}

/// The edit that a value describes.
pub open spec fn edit_of(value: Json) -> Option<Edit> {
    match (member_range(value, "range"@), member_text(value, "newText"@)) {
        (Some(range), Some(new_text)) => Some(Edit { range, new_text }),
        _ => None,
    }
}

/// The edits that values describe, unless one of them describes none.
pub open spec fn edits_in(values: Seq<Json>) -> Option<Seq<Edit>>
    decreases values.len(),
{
    if values.len() == 0 {
        Some(Seq::empty())
    } else {
        match (edits_in(values.drop_last()), edit_of(values.last())) {
            (Some(edits), Some(edit)) => Some(edits.push(edit)),
            _ => None,
        }
    }
}

/// The edits of a result: all of them, or none at all.
pub open spec fn edit_batch(result: Json) -> Option<Seq<Edit>> {
    match result {
        Json::Null => Some(Seq::empty()),
        Json::List(values) => if values.len() > MAX_DOCUMENT_EDITS {
            None
        } else {
            edits_in(values)
        },
        _ => None,
    }
}

proof fn lemma_edits_fail(values: Seq<Json>, i: int)
    requires
        0 <= i <= values.len(),
        edits_in(values.take(i)) is None,
    ensures
        edits_in(values) is None,
    decreases values.len() - i,
{
    if i == values.len() {
        assert(values.take(i) =~= values);
    } else {
        assert(values.take(i + 1).drop_last() =~= values.take(i));
        lemma_edits_fail(values, i + 1);
    }
}

/// Reads the edits of a result.
pub fn parse_text_edits(result: &JsonValue) -> (edits: Option<Vec<TextEdit>>)
    ensures
        match (edits, edit_batch(result@)) {
            (Some(found), Some(expected)) => crate::lsp_edits::edits_of(found@) == expected,
            (None, None) => true,
            _ => false,
        },
{
    let mut edits: Vec<TextEdit> = Vec::new();
    assert(crate::lsp_edits::edits_of(edits@) =~= Seq::<Edit>::empty());
    match result {
        JsonValue::Null => Some(edits),
        JsonValue::Array(values) => {
            let ghost list = list_of(values@);
            proof {
                lemma_list_of(values@);
                assert(list.take(0) =~= Seq::<Json>::empty());
            }
            if values.len() > MAX_DOCUMENT_EDITS {
                return None;
            }
            let mut i: usize = 0;
            while i < values.len()
                invariant
                    i <= values@.len() == list.len(),
                    values@.len() <= MAX_DOCUMENT_EDITS,
                    *result == JsonValue::Array(*values),
                    list == list_of(values@),
                    forall|k: int|
                        0 <= k < values@.len() ==> #[trigger] list[k] == json_of(values@[k]),
                    edits_in(list.take(i as int)) == Some(crate::lsp_edits::edits_of(edits@)),
                decreases values@.len() - i,
            {
                proof {
                    assert(list.take(i + 1).drop_last() =~= list.take(i as int));
                    assert(list.take(i + 1).last() == list[i as int]);
                }
                let ghost before = edits@;
                match (range_member(&values[i], "range"), text_member(&values[i], "newText")) {
                    (Some(range), Some(new_text)) => {
                        let edit = TextEdit { range, new_text: copy_text(new_text) };
                        edits.push(edit);
                        assert(crate::lsp_edits::edits_of(edits@)
                            =~= crate::lsp_edits::edits_of(before).push(edit@));
                    },
                    _ => {
                        proof {
                            lemma_edits_fail(list, i + 1);
                        }
                        return None;
                    },
                }
                i += 1;
            }
            assert(list.take(i as int) =~= list);
            Some(edits)
        },
        _ => None,
    }
}

/// The scalar values of a diagnostic in a text.
pub fn diagnostic_char_range(text: &str, diagnostic: &Diagnostic) -> (range: Option<
    std::ops::Range<usize>,
>)
    ensures
        match (range, chars_in(text@, diagnostic.range)) {
            (Some(found), Ok((start, end))) => found.start == start && found.end == end,
            (None, Err(_)) => true,
            _ => false,
        },
{
    match range_to_chars(text, diagnostic.range) {
        Ok(range) => Some(range),
        Err(_) => None,
    }
}

/// Two spaces for each level.
pub open spec fn indent(depth: int) -> Seq<char>
    decreases depth,
{
    if depth <= 0 {
        Seq::empty()
    } else {
        indent(depth - 1) + "  "@
    }
}

/// Where a document symbol is: at its own location, or in the document.
pub open spec fn document_symbol_place(value: Json, uri: Seq<char>) -> Option<Place> {
    match member_of(value, "location"@) {
        Some(location) => location_of(location),
        None => {
            let range = match member_of(value, "selectionRange"@) {
                Some(range) => range_of(range),
                None => member_range(value, "range"@),
            };
            match range {
                Some(range) => Some(Place { uri, range }),
                None => None,
            }
        },
    }
}

/// The list of document symbols after the symbols in `values`, which stand at
/// level `depth`, were added to `out`.
pub open spec fn symbols_in(
    values: Seq<Json>,
    uri: Seq<char>,
    depth: int,
    out: Seq<(Seq<char>, Place)>,
) -> Seq<(Seq<char>, Place)>
    decreases 33 - depth, 2int, 0int,
{
    if depth > MAX_SYMBOL_DEPTH || out.len() >= MAX_DOCUMENT_SYMBOLS {
        out
    } else {
        let room = (MAX_DOCUMENT_SYMBOLS - out.len()) as usize;
        symbols_from(values.take(capped(values.len(), room)), uri, depth, out)
    }
}

/// The list after `values` were added one by one, until it is full.
pub open spec fn symbols_from(
    values: Seq<Json>,
    uri: Seq<char>,
    depth: int,
    out: Seq<(Seq<char>, Place)>,
) -> Seq<(Seq<char>, Place)>
    decreases 33 - depth, 1int, values.len(),
{
    if values.len() == 0 {
        out
    } else {
        let before = symbols_from(values.drop_last(), uri, depth, out);
        if before.len() >= MAX_DOCUMENT_SYMBOLS {
            before
        } else {
            with_symbol(values.last(), uri, depth, before)
        }
    }
}

/// The list after one value and what stands below it were added.
pub open spec fn with_symbol(
    value: Json,
    uri: Seq<char>,
    depth: int,
    out: Seq<(Seq<char>, Place)>,
) -> Seq<(Seq<char>, Place)>
    decreases 33 - depth, 0int, 0int,
{
    match member_text(value, "name"@) {
        None => out,
        Some(name) => {
            let listed = match document_symbol_place(value, uri) {
                Some(place) => out.push((indent(depth) + name, place)),
                None => out,
            };
            match member_of(value, "children"@) {
                Some(Json::List(children)) => if depth <= MAX_SYMBOL_DEPTH {
                    symbols_in(children, uri, depth + 1, listed)
                } else {
                    listed
                },
                _ => listed,
            }
        },
    }
}

/// The contents of listed symbols.
pub open spec fn listed_of(list: Seq<(String, Location)>) -> Seq<(Seq<char>, Place)> {
    list.map_values(|entry: (String, Location)| (entry.0@, entry.1@))
}

fn push_indent(text: &mut String, depth: usize)
    ensures
        final(text)@ == old(text)@ + indent(depth as int),
    decreases depth,
{
    if depth > 0 {
        push_indent(text, depth - 1);
        text.push_str("  ");
    }
    assert(text@ =~= old(text)@ + indent(depth as int));
}

fn parse_document_symbol_place(value: &JsonValue, uri: &str) -> (place: Option<Location>)
    ensures
        place_option(place) == document_symbol_place(value@, uri@),
{
    match value.get("location") {
        Some(location) => parse_location(location),
        None => {
            let range = match value.get("selectionRange") {
                Some(range) => parse_range(range),
                None => range_member(value, "range"),
            };
            match range {
                Some(range) => Some(Location { uri: copy_text(uri), range }),
                None => None,
            }
        },
    }
}

proof fn lemma_full_list_stays(
    values: Seq<Json>,
    uri: Seq<char>,
    depth: int,
    out: Seq<(Seq<char>, Place)>,
    i: int,
)
    requires
        0 <= i <= values.len(),
        symbols_from(values.take(i), uri, depth, out).len() >= MAX_DOCUMENT_SYMBOLS,
    ensures
        symbols_from(values, uri, depth, out) == symbols_from(values.take(i), uri, depth, out),
    decreases values.len() - i,
{
    if i == values.len() {
        assert(values.take(i) =~= values);
    } else {
        assert(values.take(i + 1).drop_last() =~= values.take(i));
        lemma_full_list_stays(values, uri, depth, out, i + 1);
    }
}

fn collect_document_symbols(
    values: &Vec<JsonValue>,
    document_uri: &str,
    depth: usize,
    output: &mut Vec<(String, Location)>,
)
    requires
        depth <= MAX_SYMBOL_DEPTH + 1,
    ensures
        listed_of(final(output)@) == symbols_in(
            list_of(values@),
            document_uri@,
            depth as int,
            listed_of(old(output)@),
        ),
    decreases 33 - depth,
{
    if depth > MAX_SYMBOL_DEPTH || output.len() >= MAX_DOCUMENT_SYMBOLS {
        return;
    }
    let ghost out = listed_of(output@);
    let ghost whole = list_of(values@);
    proof {
        lemma_list_of(values@);
    }
    let room: usize = MAX_DOCUMENT_SYMBOLS - output.len();
    let count: usize = if values.len() < room {
        values.len()
    } else {
        room
    };
    let ghost list = whole.take(count as int);
    let mut i: usize = 0;
    assert(list.take(0) =~= Seq::<Json>::empty());
    while i < count
        invariant
            i <= count <= values@.len() == whole.len(),
            depth <= MAX_SYMBOL_DEPTH,
            whole == list_of(values@),
            list == whole.take(count as int),
            forall|k: int| 0 <= k < values@.len() ==> #[trigger] whole[k] == json_of(values@[k]),
            listed_of(output@) == symbols_from(
                list.take(i as int),
                document_uri@,
                depth as int,
                out,
            ),
            output@.len() < MAX_DOCUMENT_SYMBOLS,
            symbols_in(whole, document_uri@, depth as int, out) == symbols_from(
                list,
                document_uri@,
                depth as int,
                out,
            ),
            out == listed_of(old(output)@),
        decreases count - i,
    {
        let value = &values[i];
        proof {
            assert(list.take(i + 1).drop_last() =~= list.take(i as int));
            assert(list.take(i + 1).last() == value@);
        }
        let ghost before = output@;
        if let Some(name) = text_member(value, "name") {
            if let Some(location) = parse_document_symbol_place(value, document_uri) {
                let mut label = String::new();
                push_indent(&mut label, depth);
                label.push_str(name);
                assert(label@ =~= indent(depth as int) + name@);
                output.push((label, location));
                assert(listed_of(output@) =~= listed_of(before).push((label@, location@)));
            }
            if let Some(JsonValue::Array(children)) = value.get("children") {
                collect_document_symbols(children, document_uri, depth + 1, output);
            }
        }
        assert(listed_of(output@) == with_symbol(
            value@,
            document_uri@,
            depth as int,
            listed_of(before),
        ));
        i += 1;
        if output.len() >= MAX_DOCUMENT_SYMBOLS {
            proof {
                assert(listed_of(output@).len() == output@.len());
                assert(list.take(i as int).len() == i);
                lemma_full_list_stays(list, document_uri@, depth as int, out, i as int);
            }
            return;
        }
    }
    assert(list.take(i as int) =~= list);
}

/// Lists the symbols of a document, those below others indented.
pub fn parse_document_symbols(result: &JsonValue, document_uri: &str) -> (list: Vec<
    (String, Location),
>)
    ensures
        listed_of(list@) == (match result@ {
            Json::List(values) => symbols_in(values, document_uri@, 0, Seq::empty()),
            _ => Seq::empty(),
        }),
{
    let mut output: Vec<(String, Location)> = Vec::new();
    assert(listed_of(output@) =~= Seq::<(Seq<char>, Place)>::empty());
    if let JsonValue::Array(values) = result {
        collect_document_symbols(values, document_uri, 0, &mut output);
    }
    output
}

} // verus!
