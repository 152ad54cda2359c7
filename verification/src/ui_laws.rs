//! What server payloads mean to the editor: which members are read, which values
//! are left out, and in which order the rest is shown.
use vstd::prelude::*;
use vstd::utf8::*;

use crate::file_uri::path_of;
use crate::format_laws::law_decimal_is_read_back;
use crate::json::{lookup, member_text, signed_of, Json};
use crate::json_write::{height, printed};
use crate::lsp::LspPosition;
use crate::lsp_edits::Edit;
use crate::lsp_types::LspRange;
use crate::lsp_ui::{
    any_control, clipped, clipped_fields, collected, completion_edit, completion_of, completions_of,
    edit_batch, edit_of, edits_in, finding_of, hover_items, hover_pieces, hover_text, indent,
    is_clipped, is_control, is_diagnostic, kind_of, law_clip_is_longest_fitting_prefix, location_of,
    locations_of, node_count, not_behind, paragraphs, position_of, published_uri_is_valid, range_of,
    raw_fits, report_of, report_upto, severity_of, symbol_field, symbol_of, symbol_report,
    symbols_upto, with_symbol, DiagnosticSeverity, Findings, Place, Symbol, Symbols,
    WorkspaceSymbolKind,
};
use crate::text::decimal;

verus! {

/// A position is read from the members `line` and `character`, which are numbers
/// up to the largest one of the protocol; anything else is no position.
pub proof fn law_position_is_read(members: Seq<(Seq<char>, Json)>, line: nat, character: nat)
    ensures
        ({
            let found = position_of(Json::Table(members));
            &&& lookup(members, "line"@) == Some(Json::Number(decimal(line))) && lookup(
                members,
                "character"@,
            ) == Some(Json::Number(decimal(character))) ==> if line <= 2_147_483_647 && character
                <= 2_147_483_647 {
                found matches Some(position) && position.line.index == line
                    && position.character.units == character
            } else {
                found is None
            }
            &&& lookup(members, "line"@) is None || lookup(members, "character"@) is None
                ==> found is None
        }),
{
    law_decimal_is_read_back(line);
    law_decimal_is_read_back(character);
}

/// A range is read from the members `start` and `end`, and is none where one of
/// them is no position.
pub proof fn law_range_is_read(members: Seq<(Seq<char>, Json)>)
    ensures
        match (lookup(members, "start"@), lookup(members, "end"@)) {
            (Some(start), Some(end)) => match (position_of(start), position_of(end)) {
                (Some(a), Some(b)) => range_of(Json::Table(members)) matches Some(range)
                    && range.start == a && range.end == b,
                _ => range_of(Json::Table(members)) is None,
            },
            _ => range_of(Json::Table(members)) is None,
        },
{
}

/// Positions are in the order of their lines, and in a line of their columns.
pub proof fn law_position_order(a: LspPosition, b: LspPosition)
    ensures
        a.line.index < b.line.index ==> not_behind(a, b) && !not_behind(b, a),
        a.line.index == b.line.index ==> (not_behind(a, b) <==> a.character.units
            <= b.character.units),
{
}

/// Severities are numbered from one on: errors, warnings, information, hints. A
/// diagnostic without one is information.
pub proof fn law_severities(number: i64)
    ensures
        severity_of(None) == DiagnosticSeverity::Information,
        1 <= number <= 4 ==> severity_of(Some(number)) == seq![
            DiagnosticSeverity::Error,
            DiagnosticSeverity::Warning,
            DiagnosticSeverity::Information,
            DiagnosticSeverity::Hint,
        ][number - 1],
        !(1 <= number <= 4) ==> severity_of(Some(number)) == DiagnosticSeverity::Unknown(number),
{
}

/// Control characters are those below U+0020 and those from U+007F to U+009F.
pub proof fn law_control_characters(s: Seq<char>)
    ensures
        any_control(s) <==> exists|i: int|
            0 <= i < s.len() && ((#[trigger] s[i]) as u32 <= 31 || 127 <= s[i] as u32 <= 159),
{
    if any_control(s) {
        let i = choose|i: int| 0 <= i < s.len() && is_control(#[trigger] s[i]);
        lemma_control(s[i]);
    }
    if exists|i: int|
        0 <= i < s.len() && ((#[trigger] s[i]) as u32 <= 31 || 127 <= s[i] as u32 <= 159) {
        let i = choose|i: int|
            0 <= i < s.len() && ((#[trigger] s[i]) as u32 <= 31 || 127 <= s[i] as u32 <= 159);
        lemma_control(s[i]);
        assert(is_control(s[i]));
    }
}

proof fn lemma_control(c: char)
    ensures
        is_control(c) <==> c as u32 <= 31 || 127 <= c as u32 <= 159,
{
}

proof fn lemma_report(uri: Seq<char>, start: Findings, values: Seq<Json>)
    requires
        start.diagnostics.len() == 0,
    ensures
        ({
            let report = report_upto(uri, start, values);
            let valid = values.filter(|value: Json| is_diagnostic(value));
            let kept = vstd::math::min(valid.len() as int, 1024);
            &&& report.diagnostics.len() == kept
            &&& forall|i: int|
                0 <= i < kept ==> report.diagnostics[i] == finding_of(uri, #[trigger] valid[i])
            &&& report.skipped_invalid == start.skipped_invalid + values.len() - valid.len()
            &&& report.truncated <==> start.truncated || valid.len() > 1024
            &&& report.inspected == start.inspected
        }),
    decreases values.len(),
{
    reveal(Seq::filter);
    if values.len() > 0 {
        lemma_report(uri, start, values.drop_last());
        let before = values.drop_last().filter(|value: Json| is_diagnostic(value));
        let valid = values.filter(|value: Json| is_diagnostic(value));
        let kept = vstd::math::min(valid.len() as int, 1024);
        let report = report_upto(uri, start, values);
        let earlier = report_upto(uri, start, values.drop_last());
        assert forall|i: int| 0 <= i < kept implies report.diagnostics[i] == finding_of(
            uri,
            #[trigger] valid[i],
        ) by {
            if i < before.len() {
                assert(valid[i] == before[i]);
            }
        }
    }
}

/// The report on what was published for a file holds its diagnostics in their
/// order, each as it is kept; it counts what is no diagnostic, and tells whether
/// more was published than it holds.
pub proof fn law_report_holds_the_diagnostics(uri: Seq<char>, values: Seq<Json>)
    requires
        published_uri_is_valid(uri),
    ensures
        ({
            let report = report_of(uri, values);
            let seen = values.take(vstd::math::min(values.len() as int, 4096));
            let valid = seen.filter(|value: Json| is_diagnostic(value));
            let kept = vstd::math::min(valid.len() as int, 1024);
            &&& report.inspected == seen.len()
            &&& report.diagnostics.len() == kept
            &&& forall|i: int|
                0 <= i < kept ==> report.diagnostics[i] == finding_of(uri, #[trigger] valid[i])
            &&& report.skipped_invalid == seen.len() - valid.len()
            &&& report.truncated <==> values.len() > 4096 || valid.len() > 1024
        }),
{
    let inspected = vstd::math::min(values.len() as int, 4096);
    let start = Findings {
        diagnostics: Seq::empty(),
        inspected: inspected as nat,
        truncated: values.len() > 4096,
        skipped_invalid: 0,
        fields_truncated: 0,
        raw_omitted: 0,
    };
    lemma_report(uri, start, values.take(inspected));
}

/// A value is a diagnostic if and only if it has a range that is not inverted
/// and a message, and its severity is read from its member of that name.
pub proof fn law_diagnostic_is_read(uri: Seq<char>, members: Seq<(Seq<char>, Json)>)
    ensures
        ({
            let value = Json::Table(members);
            &&& is_diagnostic(value) <==> {
                &&& lookup(members, "range"@) matches Some(range) && (range_of(range) matches Some(
                    found,
                ) && not_behind(found.start, found.end))
                &&& lookup(members, "message"@) matches Some(Json::Text(_))
            }
            &&& is_diagnostic(value) ==> {
                let finding = finding_of(uri, value);
                &&& finding.uri == uri
                &&& Some(finding.range) == range_of(lookup(members, "range"@)->0)
                &&& finding.severity == severity_of(
                    match lookup(members, "severity"@) {
                        Some(number) => signed_of(number),
                        None => None,
                    },
                )
                &&& lookup(members, "message"@) matches Some(Json::Text(text)) && (encode_utf8(
                    text,
                ).len() <= 4096 ==> finding.message == text)
                &&& lookup(members, "source"@) is None ==> finding.source is None
                &&& lookup(members, "source"@) matches Some(Json::Text(text)) ==> (encode_utf8(
                    text,
                ).len() <= 256 ==> finding.source == Some(text))
            }
        }),
{
    let value = Json::Table(members);
    if is_diagnostic(value) {
        law_clip_is_longest_fitting_prefix(member_text(value, "message"@)->0, 4096);
        if let Some(source) = member_text(value, "source"@) {
            law_clip_is_longest_fitting_prefix(source, 256);
        }
    }
}

proof fn lemma_collected<T>(values: Seq<Json>, read: spec_fn(Json) -> Option<T>)
    ensures
        collected(values, read) == values.filter(|value: Json| read(value) is Some).map_values(
            |value: Json| read(value)->0,
        ),
    decreases values.len(),
{
    reveal(Seq::filter);
    let keep = |value: Json| read(value) is Some;
    let get = |value: Json| read(value)->0;
    if values.len() == 0 {
        assert(values.filter(keep).map_values(get) =~= Seq::<T>::empty());
    } else {
        lemma_collected(values.drop_last(), read);
        let before = values.drop_last().filter(keep);
        if read(values.last()) is Some {
            assert(before.push(values.last()).map_values(get) =~= before.map_values(get).push(
                get(values.last()),
            ));
        }
    }
}

/// The completions of a list are the values that describe one, in their order,
/// among the first thousand and twenty-four.
pub proof fn law_completions_are_listed(values: Seq<Json>)
    ensures
        completions_of(Json::List(values)) == values.take(
            vstd::math::min(values.len() as int, 1024),
        ).filter(|value: Json| completion_of(value) is Some).map_values(
            |value: Json| completion_of(value)->0,
        ),
{
    let read = |value: Json| completion_of(value);
    let seen = values.take(vstd::math::min(values.len() as int, 1024));
    lemma_collected(seen, read);
    assert((|value: Json| read(value) is Some) =~= (|value: Json| completion_of(value) is Some));
    assert((|value: Json| read(value)->0) =~= (|value: Json| completion_of(value)->0));
}

/// What a completion inserts: its insertion text, or else the text of its edit,
/// or else its label. It is a snippet where its format is two.
pub proof fn law_completion_is_read(members: Seq<(Seq<char>, Json)>)
    ensures
        ({
            let found = completion_of(Json::Table(members));
            let plain = lookup(members, "textEdit"@) is None && lookup(members, "insertText"@) is None
                && lookup(members, "insertTextFormat"@) is None;
            &&& !(lookup(members, "label"@) matches Some(Json::Text(_))) ==> found is None
            &&& lookup(members, "label"@) matches Some(Json::Text(label)) ==> {
                &&& plain ==> (found matches Some(item) && item.label == label && item.insert_text
                    == label && !item.is_snippet && item.text_edit is None)
                &&& found matches Some(item) ==> {
                    &&& item.label == label
                    &&& lookup(members, "insertText"@) matches Some(Json::Text(text)) ==> item.insert_text
                        == text
                    &&& lookup(members, "insertText"@) is None ==> (item.text_edit matches Some(edit)
                        ==> item.insert_text == edit.new_text)
                    &&& lookup(members, "insertText"@) is None && item.text_edit is None
                        ==> item.insert_text == label
                    &&& item.is_snippet <==> (lookup(members, "insertTextFormat"@) matches Some(
                        format,
                    ) && signed_of(format) == Some(2i64))
                    &&& lookup(members, "detail"@) matches Some(Json::Text(text)) ==> item.detail
                        == Some(text)
                    &&& item.text_edit is Some <==> lookup(members, "textEdit"@) is Some
                }
            }
        }),
{
}

/// A completion edit with a range replaces that range; one with two ranges
/// replaces the larger one, where the smaller one is its start.
pub proof fn law_completion_edit_is_read(members: Seq<(Seq<char>, Json)>, text: Seq<char>)
    requires
        lookup(members, "newText"@) == Some(Json::Text(text)),
    ensures
        ({
            let found = crate::lsp_ui::completion_edit(Json::Table(members));
            let range = lookup(members, "range"@);
            let insert = lookup(members, "insert"@);
            let replace = lookup(members, "replace"@);
            &&& range is Some && insert is None && replace is None ==> match range_of(range->0) {
                Some(r) => found == Some(Edit { range: r, new_text: text }),
                None => found is None,
            }
            &&& range is None && insert is Some && replace is Some ==> match (
                range_of(insert->0),
                range_of(replace->0),
            ) {
                (Some(a), Some(b)) => if a.start == b.start && not_behind(a.start, a.end)
                    && not_behind(a.end, b.end) {
                    found == Some(Edit { range: b, new_text: text })
                } else {
                    found is None
                },
                _ => found is None,
            }
            &&& range is Some && (insert is Some || replace is Some) ==> found is None
        }),
{
}

/// A location is a URI and a range; of a link it is the target, at its selection
/// where that is given.
pub proof fn law_location_is_read(members: Seq<(Seq<char>, Json)>, uri: Seq<char>, range: LspRange)
    ensures
        ({
            let found = location_of(Json::Table(members));
            let own = lookup(members, "uri"@);
            let target = lookup(members, "targetUri"@);
            &&& own == Some(Json::Text(uri)) && (lookup(members, "range"@) matches Some(value)
                && range_of(value) == Some(range)) ==> found == Some(Place { uri, range })
            &&& own is None && target == Some(Json::Text(uri)) && (lookup(
                members,
                "targetSelectionRange"@,
            ) matches Some(value) && range_of(value) == Some(range)) ==> found == Some(
                Place { uri, range },
            )
            &&& own is None && target == Some(Json::Text(uri)) && lookup(
                members,
                "targetSelectionRange"@,
            ) is None && (lookup(members, "targetRange"@) matches Some(value) && range_of(value)
                == Some(range)) ==> found == Some(Place { uri, range })
            &&& own is None && target is None ==> found is None
        }),
{
}

/// The locations of a list are the values that describe one, in their order; a
/// single location is a list of one.
pub proof fn law_locations_are_listed(values: Seq<Json>, members: Seq<(Seq<char>, Json)>)
    ensures
        locations_of(Json::List(values)) == values.take(
            vstd::math::min(values.len() as int, 4096),
        ).filter(|value: Json| location_of(value) is Some).map_values(
            |value: Json| location_of(value)->0,
        ),
        location_of(Json::Table(members)) matches Some(place) ==> locations_of(Json::Table(members))
            == seq![place],
        location_of(Json::Table(members)) is None ==> locations_of(Json::Table(members)).len() == 0,
        locations_of(Json::Null).len() == 0,
{
    let read = |value: Json| location_of(value);
    let seen = values.take(vstd::math::min(values.len() as int, 4096));
    lemma_collected(seen, read);
    assert((|value: Json| read(value) is Some) =~= (|value: Json| location_of(value) is Some));
    assert((|value: Json| read(value)->0) =~= (|value: Json| location_of(value)->0));
}

/// Kinds of symbols are numbered from one on, in this order.
pub proof fn law_symbol_kinds(number: i64)
    ensures
        1 <= number <= 26 ==> kind_of(number) == seq![
            WorkspaceSymbolKind::File,
            WorkspaceSymbolKind::Module,
            WorkspaceSymbolKind::Namespace,
            WorkspaceSymbolKind::Package,
            WorkspaceSymbolKind::Class,
            WorkspaceSymbolKind::Method,
            WorkspaceSymbolKind::Property,
            WorkspaceSymbolKind::Field,
            WorkspaceSymbolKind::Constructor,
            WorkspaceSymbolKind::Enum,
            WorkspaceSymbolKind::Interface,
            WorkspaceSymbolKind::Function,
            WorkspaceSymbolKind::Variable,
            WorkspaceSymbolKind::Constant,
            WorkspaceSymbolKind::String,
            WorkspaceSymbolKind::Number,
            WorkspaceSymbolKind::Boolean,
            WorkspaceSymbolKind::Array,
            WorkspaceSymbolKind::Object,
            WorkspaceSymbolKind::Key,
            WorkspaceSymbolKind::Null,
            WorkspaceSymbolKind::EnumMember,
            WorkspaceSymbolKind::Struct,
            WorkspaceSymbolKind::Event,
            WorkspaceSymbolKind::Operator,
            WorkspaceSymbolKind::TypeParameter,
        ][number - 1],
        !(1 <= number <= 26) ==> kind_of(number) == WorkspaceSymbolKind::Unknown(number),
{
}

proof fn lemma_symbols(start: Symbols, values: Seq<Json>)
    requires
        start.symbols.len() == 0,
    ensures
        ({
            let report = symbols_upto(start, values);
            let valid = values.filter(|value: Json| symbol_of(value) is Some);
            &&& report.symbols == valid.map_values(
                |value: Json|
                    {
                        let (symbol, _) = symbol_of(value)->0;
                        symbol
                    },
            )
            &&& report.skipped_invalid == start.skipped_invalid + values.len() - valid.len()
        }),
    decreases values.len(),
{
    reveal(Seq::filter);
    let get = |value: Json|
        {
            let (symbol, _) = symbol_of(value)->0;
            symbol
        };
    let keep = |value: Json| symbol_of(value) is Some;
    if values.len() == 0 {
        assert(values.filter(keep).map_values(get) =~= Seq::<Symbol>::empty());
        assert(start.symbols =~= Seq::<Symbol>::empty());
    } else {
        lemma_symbols(start, values.drop_last());
        let before = values.drop_last().filter(keep);
        if symbol_of(values.last()) is Some {
            assert(before.push(values.last()).map_values(get) =~= before.map_values(get).push(
                get(values.last()),
            ));
        }
    }
}

/// The symbols of a result are the values that describe one, in their order,
/// among the first four thousand and ninety-six; the others are counted.
pub proof fn law_symbols_are_listed(values: Seq<Json>)
    ensures
        ({
            let report = symbol_report(Json::List(values));
            let seen = values.take(vstd::math::min(values.len() as int, 4096));
            let valid = seen.filter(|value: Json| symbol_of(value) is Some);
            &&& report.symbols == valid.map_values(
                |value: Json|
                    {
                        let (symbol, _) = symbol_of(value)->0;
                        symbol
                    },
            )
            &&& report.skipped_invalid == seen.len() - valid.len()
        }),
{
    let start = Symbols { symbols: Seq::empty(), truncated: values.len() > 4096, skipped_invalid: 0 };
    lemma_symbols(start, values.take(vstd::math::min(values.len() as int, 4096)));
}

/// A symbol has the name, the kind, the location and the container that its
/// members give.
pub proof fn law_symbol_is_read(members: Seq<(Seq<char>, Json)>)
    ensures
        symbol_of(Json::Table(members)) matches Some((symbol, _)) ==> {
            &&& lookup(members, "kind"@) matches Some(kind) && (signed_of(kind) matches Some(number)
                && symbol.kind == kind_of(number))
            &&& lookup(members, "name"@) matches Some(Json::Text(name)) && name.len() > 0 && (
            encode_utf8(name).len() <= 512 ==> symbol.name == name)
            &&& lookup(members, "location"@) matches Some(place) && location_of(place) == Some(
                symbol.location,
            )
            &&& lookup(members, "containerName"@) is None ==> symbol.container_name is None
            &&& lookup(members, "containerName"@) matches Some(Json::Text(text)) ==> (encode_utf8(
                text,
            ).len() <= 512 && text.len() > 0 ==> symbol.container_name == Some(text))
            &&& not_behind(symbol.location.range.start, symbol.location.range.end)
            &&& path_of(symbol.location.uri) is Ok
        },
{
    let value = Json::Table(members);
    if symbol_of(value) is Some {
        law_clip_is_longest_fitting_prefix(member_text(value, "name"@)->0, 512);
        if let Some(Json::Text(text)) = lookup(members, "containerName"@) {
            law_clip_is_longest_fitting_prefix(text, 512);
        }
    }
}

/// Several hover contents are shown one after the other, with an empty line in
/// between.
pub proof fn law_hover_joins_its_parts(a: Seq<Seq<char>>, b: Seq<Seq<char>>, text: Seq<char>)
    requires
        a.len() > 0,
        b.len() > 0,
    ensures
        paragraphs(seq![text]) == text,
        paragraphs(a + b) == paragraphs(a) + "\n\n"@ + paragraphs(b),
    decreases b.len(),
{
    let all = a + b;
    let front = b.drop_last();
    assert(all.drop_last() =~= a + front);
    assert(all.last() == b.last());
    if b.len() == 1 {
        assert(a + front =~= a);
    } else {
        law_hover_joins_its_parts(a, front, text);
        assert(paragraphs(a) + "\n\n"@ + paragraphs(front) + "\n\n"@ + b.last() =~= paragraphs(a)
            + "\n\n"@ + (paragraphs(front) + "\n\n"@ + b.last()));
    }
}

/// What a hover shows: a text as it stands, marked text with a language as a
/// fenced block, and the contents of a list in their order.
pub proof fn law_hover_contents(
    text: Seq<char>,
    language: Seq<char>,
    members: Seq<(Seq<char>, Json)>,
    a: Seq<Json>,
    b: Seq<Json>,
)
    requires
        lookup(members, "value"@) == Some(Json::Text(text)),
    ensures
        hover_pieces(Json::Text(text)) == seq![text],
        lookup(members, "language"@) == Some(Json::Text(language)) ==> hover_pieces(
            Json::Table(members),
        ) == seq!["```"@ + language + "\n"@ + text + "\n```"@],
        lookup(members, "language"@) is None ==> hover_pieces(Json::Table(members)) == seq![text],
        hover_pieces(Json::List(a + b)) == hover_pieces(Json::List(a)) + hover_pieces(
            Json::List(b),
        ),
        hover_pieces(Json::List(seq![Json::Text(text)])) == seq![text],
{
    lemma_hover_items(a, b);
    let one = seq![Json::Text(text)];
    assert(one.drop_last() =~= Seq::<Json>::empty());
    assert(hover_items(one.drop_last()) =~= Seq::<Seq<char>>::empty());
    assert(one.last() == Json::Text(text));
    assert(hover_pieces(one.last()) =~= seq![text]);
    assert(hover_items(one) == hover_items(one.drop_last()) + hover_pieces(one.last()));
    assert(hover_items(one) =~= seq![text]);
}

proof fn lemma_hover_items(a: Seq<Json>, b: Seq<Json>)
    ensures
        hover_items(a + b) == hover_items(a) + hover_items(b),
    decreases b.len(),
{
    if b.len() == 0 {
        assert(a + b =~= a);
        assert(hover_items(a) + hover_items(b) =~= hover_items(a));
    } else {
        lemma_hover_items(a, b.drop_last());
        assert((a + b).drop_last() =~= a + b.drop_last());
        assert((a + b).last() == b.last());
        assert(hover_items(a + b) =~= hover_items(a) + hover_items(b));
    }
}

/// A hover result shows its contents, and nothing where these are empty.
pub proof fn law_hover_shows_its_contents(members: Seq<(Seq<char>, Json)>, contents: Json)
    requires
        lookup(members, "contents"@) == Some(contents),
    ensures
        hover_text(Json::Table(members)) == if hover_pieces(contents).len() == 0 {
            None
        } else {
            Some(paragraphs(hover_pieces(contents)))
        },
{
}

proof fn lemma_edits_in(values: Seq<Json>)
    ensures
        edits_in(values) is Some <==> forall|i: int|
            0 <= i < values.len() ==> edit_of(#[trigger] values[i]) is Some,
        edits_in(values) matches Some(edits) ==> edits == values.map_values(
            |value: Json| edit_of(value)->0,
        ),
    decreases values.len(),
{
    let get = |value: Json| edit_of(value)->0;
    if values.len() == 0 {
        assert(values.map_values(get) =~= Seq::<Edit>::empty());
    } else {
        let front = values.drop_last();
        let last = values.len() - 1;
        lemma_edits_in(front);
        assert(values[last] == values.last());
        if edits_in(values) is Some {
            assert(values.map_values(get) =~= front.map_values(get).push(get(values.last())));
            assert forall|i: int| 0 <= i < values.len() implies edit_of(
                #[trigger] values[i],
            ) is Some by {
                if i < last {
                    assert(front[i] == values[i]);
                }
            }
        }
        if forall|i: int| 0 <= i < values.len() ==> edit_of(#[trigger] values[i]) is Some {
            assert forall|i: int| 0 <= i < front.len() implies edit_of(
                #[trigger] front[i],
            ) is Some by {
                assert(front[i] == values[i]);
            }
            assert(edit_of(values[last]) is Some);
        }
    }
}

/// A batch of edits is taken whole or not at all: every value must describe an
/// edit, and there may be at most sixteen thousand, three hundred and
/// eighty-four.
pub proof fn law_edits_are_taken_whole(values: Seq<Json>)
    ensures
        edit_batch(Json::Null) == Some(Seq::<Edit>::empty()),
        edit_batch(Json::List(values)) is Some <==> values.len() <= 16_384 && forall|i: int|
            0 <= i < values.len() ==> edit_of(#[trigger] values[i]) is Some,
        edit_batch(Json::List(values)) matches Some(edits) ==> edits == values.map_values(
            |value: Json| edit_of(value)->0,
        ),
{
    lemma_edits_in(values);
}

/// An edit is a range and a new text.
pub proof fn law_edit_is_read(members: Seq<(Seq<char>, Json)>, edit: Edit)
    ensures
        edit_of(Json::Table(members)) == Some(edit) <==> (lookup(members, "range"@) matches Some(
            range,
        ) && range_of(range) == Some(edit.range)) && lookup(members, "newText"@) == Some(
            Json::Text(edit.new_text),
        ),
{
}

/// A document symbol is indented by two spaces for each level.
pub proof fn law_indentation(depth: nat)
    ensures
        indent(depth as int).len() == 2 * depth,
        forall|i: int| 0 <= i < 2 * depth ==> #[trigger] indent(depth as int)[i] == ' ',
    decreases depth,
{
    reveal_strlit("  ");
    if depth > 0 {
        law_indentation((depth - 1) as nat);
        let before = indent(depth - 1);
        assert forall|i: int| 0 <= i < 2 * depth implies #[trigger] indent(depth as int)[i] == ' ' by {
            if i < 2 * (depth - 1) {
                assert(indent(depth as int)[i] == before[i]);
            }
        }
    }
}

/// A document symbol without children is listed under its indented name, at its
/// own location or at its selection in the document.
pub proof fn law_document_symbol_is_listed(
    members: Seq<(Seq<char>, Json)>,
    name: Seq<char>,
    uri: Seq<char>,
    depth: int,
    out: Seq<(Seq<char>, Place)>,
)
    requires
        lookup(members, "name"@) == Some(Json::Text(name)),
        lookup(members, "children"@) is None,
    ensures
        ({
            let value = Json::Table(members);
            let place = match lookup(members, "location"@) {
                Some(location) => location_of(location),
                None => match (
                    match lookup(members, "selectionRange"@) {
                        Some(range) => range_of(range),
                        None => match lookup(members, "range"@) {
                            Some(range) => range_of(range),
                            None => None,
                        },
                    }
                ) {
                    Some(range) => Some(Place { uri, range }),
                    None => None,
                },
            };
            with_symbol(value, uri, depth, out) == match place {
                Some(place) => out.push((indent(depth) + name, place)),
                None => out,
            }
        }),
{
}

/// A message is kept up to 4096 bytes and a source up to 256: a prefix that
/// cannot be longer. The fields that were cut are counted.
pub proof fn law_long_fields_are_cut(
    uri: Seq<char>,
    members: Seq<(Seq<char>, Json)>,
    message: Seq<char>,
    source: Seq<char>,
)
    requires
        is_diagnostic(Json::Table(members)),
        lookup(members, "message"@) == Some(Json::Text(message)),
        lookup(members, "source"@) == Some(Json::Text(source)),
    ensures
        ({
            let value = Json::Table(members);
            let finding = finding_of(uri, value);
            &&& is_longest_prefix(finding.message, message, 4096)
            &&& finding.source matches Some(kept) && is_longest_prefix(kept, source, 256)
            &&& clipped_fields(value) == (if finding.message == message {
                0int
            } else {
                1
            }) + (if finding.source == Some(source) {
                0int
            } else {
                1
            })
        }),
{
    law_clip_is_longest_fitting_prefix(message, 4096);
    law_clip_is_longest_fitting_prefix(source, 256);
}

/// Whether `kept` is the longest prefix of `text` that takes at most `max` bytes.
pub open spec fn is_longest_prefix(kept: Seq<char>, text: Seq<char>, max: int) -> bool {
    &&& kept.len() <= text.len()
    &&& kept == text.take(kept.len() as int)
    &&& encode_utf8(kept).len() <= max
    &&& kept.len() < text.len() ==> encode_utf8(text.take(kept.len() + 1int)).len() > max
}

/// The raw JSON of a diagnostic is kept if it takes at most 16 KiB, consists of
/// at most 4096 values and is nested less than 64 levels deep; otherwise `null`
/// stands in its place.
pub proof fn law_large_raw_json_is_left_out(uri: Seq<char>, value: Json)
    ensures
        ({
            let small = encode_utf8(printed(value)).len() <= 16384 && node_count(value) <= 4096
                && height(value) < 64;
            finding_of(uri, value).raw == if small {
                value
            } else {
                Json::Null
            }
        }),
{
}

/// Each diagnostic that is taken into a report adds the fields of it that were
/// cut, and its raw JSON where that was left out.
pub proof fn law_reports_count_what_they_cut(uri: Seq<char>, start: Findings, values: Seq<Json>)
    requires
        start.diagnostics.len() == 0,
        values.filter(|value: Json| is_diagnostic(value)).len() <= 1024,
    ensures
        ({
            let report = report_upto(uri, start, values);
            let valid = values.filter(|value: Json| is_diagnostic(value));
            &&& report.fields_truncated == start.fields_truncated + valid.fold_left(
                0int,
                |sum: int, value: Json| sum + clipped_fields(value),
            )
            &&& report.raw_omitted == start.raw_omitted + valid.filter(
                |value: Json| !raw_fits(value),
            ).len()
        }),
    decreases values.len(),
{
    reveal(Seq::filter);
    reveal_with_fuel(Seq::fold_left, 2);
    let keep = |value: Json| is_diagnostic(value);
    if values.len() > 0 {
        let front = values.drop_last();
        law_reports_count_what_they_cut(uri, start, front);
        lemma_report(uri, start, front);
        if is_diagnostic(values.last()) {
            let before = front.filter(keep);
            let valid = values.filter(keep);
            assert(valid.drop_last() =~= before);
        }
    }
}

/// A completion is left out if and only if it has no label or one of its parts is
/// malformed: an edit that is none, an insertion text that is no text, or a
/// format other than 1 and 2.
pub proof fn law_malformed_completions_are_left_out(
    members: Seq<(Seq<char>, Json)>,
    label: Seq<char>,
    format: nat,
)
    requires
        lookup(members, "label"@) == Some(Json::Text(label)),
    ensures
        ({
            let found = completion_of(Json::Table(members));
            let edit = lookup(members, "textEdit"@);
            let text = lookup(members, "insertText"@);
            let kind = lookup(members, "insertTextFormat"@);
            let numbered = kind == Some(Json::Number(decimal(format)));
            let edit_holds = edit matches Some(value) ==> completion_edit(value) is Some;
            let text_holds = text matches Some(value) ==> value is Text;
            &&& !edit_holds ==> found is None
            &&& !text_holds ==> found is None
            &&& numbered && format != 1 && format != 2 ==> found is None
            &&& (kind matches Some(value) ==> !(value is Number)) && kind is Some ==> found is None
            &&& edit_holds && text_holds && (kind is None || (numbered && (format == 1 || format
                == 2))) ==> found is Some
        }),
{
    law_decimal_is_read_back(format);
}

/// A name is kept up to 512 bytes, and whether it was cut is told. One whose kept
/// part holds a control character is none.
pub proof fn law_symbol_names_are_cut(text: Seq<char>)
    ensures
        symbol_field(text) matches Some((kept, cut)) ==> {
            &&& is_longest_prefix(kept, text, 512)
            &&& cut <==> kept != text
            &&& forall|i: int| 0 <= i < kept.len() ==> !is_control(#[trigger] kept[i])
        },
        (forall|i: int| 0 <= i < text.len() ==> !is_control(#[trigger] text[i])) ==> symbol_field(
            text,
        ) is Some,
{
    law_clip_is_longest_fitting_prefix(text, 512);
    let kept = clipped(text, 512);
    if any_control(kept) {
        let i = choose|i: int| 0 <= i < kept.len() && is_control(#[trigger] kept[i]);
        assert(text[i] == kept[i]);
    }
}

/// A symbol report is partial if and only if there were more than 4096 values or
/// a name of a listed symbol was cut.
pub proof fn law_partial_symbol_reports_are_told(values: Seq<Json>)
    ensures
        ({
            let seen = values.take(vstd::math::min(values.len() as int, 4096));
            symbol_report(Json::List(values)).truncated <==> values.len() > 4096 || exists|i: int|
                0 <= i < seen.len() && is_clipped(#[trigger] seen[i])
        }),
{
    let start = Symbols { symbols: Seq::empty(), truncated: values.len() > 4096, skipped_invalid: 0 };
    lemma_partial(start, values.take(vstd::math::min(values.len() as int, 4096)));
}

proof fn lemma_partial(start: Symbols, values: Seq<Json>)
    ensures
        symbols_upto(start, values).truncated <==> start.truncated || exists|i: int|
            0 <= i < values.len() && is_clipped(#[trigger] values[i]),
    decreases values.len(),
{
    if values.len() > 0 {
        let front = values.drop_last();
        let last = values.len() - 1;
        lemma_partial(start, front);
        assert(values[last] == values.last());
        if exists|i: int| 0 <= i < front.len() && is_clipped(#[trigger] front[i]) {
            let i = choose|i: int| 0 <= i < front.len() && is_clipped(#[trigger] front[i]);
            assert(values[i] == front[i]);
        }
        if exists|i: int| 0 <= i < values.len() && is_clipped(#[trigger] values[i]) {
            let i = choose|i: int| 0 <= i < values.len() && is_clipped(#[trigger] values[i]);
            if i < last {
                assert(front[i] == values[i]);
            }
        }
    }
}

/// A symbol was cut if its name or its container was.
pub proof fn law_cut_symbols_are_told(
    members: Seq<(Seq<char>, Json)>,
    name: Seq<char>,
    container: Seq<char>,
)
    requires
        symbol_of(Json::Table(members)) is Some,
        lookup(members, "name"@) == Some(Json::Text(name)),
        lookup(members, "containerName"@) == Some(Json::Text(container)),
    ensures
        is_clipped(Json::Table(members)) <==> encode_utf8(name).len() > 512 || encode_utf8(
            container,
        ).len() > 512,
{
}

/// A published URI names a local file in at most 16 KiB, without control
/// characters.
pub proof fn law_published_uris(uri: Seq<char>)
    ensures
        published_uri_is_valid(uri) <==> 0 < uri.len() && encode_utf8(uri).len() <= 16384 && (
        forall|i: int| 0 <= i < uri.len() ==> !is_control(#[trigger] uri[i])) && path_of(uri) is Ok,
{
}

} // verus!
