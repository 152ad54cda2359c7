//! What reports promise: how counts, lists and keys are put into words.
use vstd::prelude::*;

use crate::file_uri::{components_from, counts};
use crate::find::{lemma_next_occurrence, next_occurrence, occurs};
use crate::health::{
    all_lines, ascii_upper, configured_line, configured_lines, discovered_words, is_utf8_locale,
    locale_of, program_candidates, transport_words, ConfiguredServer, HealthFacts,
};
use crate::input_diagnostics::{
    event_number, modifier_words, shown_char, shown_chars, shown_text, upper_hex_digits, with_label,
    Modifiers,
};
use crate::launch::{at_most, last_line, restored_words, skipped_count};
use crate::lsp_discover::{quoted_extensions, snippet, snippets, suggestions, Discovered};
use crate::onboarding::{help_due, seen, OnboardingFile};
use crate::paths::{components_behind, is_absolute, lossy_text, starts_here};
use crate::text::decimal;

verus! {

/// A restored position is the remembered one, moved back to the end of what is
/// left. The last line of an empty document is its first.
pub proof fn law_restored_positions_exist(n: usize, bound: int, line_count: usize)
    requires
        bound >= 0,
    ensures
        at_most(n, bound) == vstd::math::min(n as int, bound),
        last_line(line_count) == vstd::math::max(0, line_count - 1),
{
}

/// The files that were skipped are those that could not be opened.
pub proof fn law_skipped_files_are_counted(opened: Seq<Option<usize>>)
    ensures
        skipped_count(opened) == opened.filter(|file: Option<usize>| file is None).len(),
    decreases opened.len(),
{
    reveal(Seq::filter);
    if opened.len() > 0 {
        law_skipped_files_are_counted(opened.drop_last());
    }
}

/// A restored workspace is named by its root, with the number of skipped files
/// where there are any.
pub proof fn law_restored_workspaces_are_named(root: Seq<u8>, skipped: usize)
    ensures
        ({
            let start = "Restored workspace "@ + lossy_text(root);
            &&& skipped == 0 ==> restored_words(root, skipped) == start
            &&& skipped == 1 ==> restored_words(root, skipped) == start
                + "; skipped 1 unavailable file"@
            &&& skipped > 1 ==> restored_words(root, skipped) == start + "; skipped "@ + decimal(
                skipped as nat,
            ) + " unavailable files"@
        }),
{
    reveal_strlit("; skipped ");
    reveal_strlit(" unavailable file");
    reveal_strlit(" unavailable files");
    reveal_strlit("; skipped 1 unavailable file");
    reveal_strlit("s");
    reveal_strlit("");
    let start = "Restored workspace "@ + lossy_text(root);
    if skipped == 1 {
        crate::format_laws::law_decimal_notation(0, 1);
        assert(decimal(1) =~= seq!['1']) by {
            reveal_with_fuel(decimal, 2);
        }
        assert(restored_words(root, skipped) =~= start + "; skipped 1 unavailable file"@);
    } else if skipped > 1 {
        assert(restored_words(root, skipped) =~= start + "; skipped "@ + decimal(skipped as nat)
            + " unavailable files"@);
    }
}

/// Lines follow each other without anything between them.
pub proof fn law_lines_follow_each_other(lines: Seq<Seq<char>>)
    ensures
        all_lines(lines) == lines.flatten(),
    decreases lines.len(),
{
    if lines.len() > 0 {
        law_lines_follow_each_other(lines.drop_last());
        lines.drop_last().lemma_flatten_push(lines.last());
        assert(lines.drop_last().push(lines.last()) =~= lines);
    } else {
        assert(all_lines(lines) =~= lines.flatten());
    }
}

/// Each configured server has a line of its own, in the order of the servers.
pub proof fn law_configured_servers_have_lines(servers: Seq<ConfiguredServer>)
    ensures
        configured_lines(servers) == servers.map_values(
            |server: ConfiguredServer| configured_line(server),
        ).flatten(),
    decreases servers.len(),
{
    let f = |server: ConfiguredServer| configured_line(server);
    if servers.len() > 0 {
        law_configured_servers_have_lines(servers.drop_last());
        let front = servers.drop_last().map_values(f);
        front.lemma_flatten_push(configured_line(servers.last()));
        assert(servers.map_values(f) =~= front.push(configured_line(servers.last())));
    } else {
        assert(configured_lines(servers) =~= servers.map_values(f).flatten());
    }
}

/// Discovered servers are listed with their executables, in their order, with
/// commas between them.
pub proof fn law_discovered_servers_are_listed(servers: Seq<Discovered>, last: Discovered)
    ensures
        discovered_words(seq![last]) == last.server.name@ + "="@ + lossy_text(last.executable),
        servers.len() > 0 ==> discovered_words(servers.push(last)) == discovered_words(servers)
            + ", "@ + discovered_words(seq![last]),
{
    let all = servers.push(last);
    assert(all.drop_last() =~= servers);
    if servers.len() > 0 {
        assert(discovered_words(all) =~= discovered_words(servers) + ", "@ + discovered_words(
            seq![last],
        ));
    }
}

/// Extensions are listed in quotes, in their order, with commas between them.
pub proof fn law_extensions_are_quoted(extensions: Seq<&'static str>, last: &'static str)
    ensures
        quoted_extensions(seq![last]) == seq!['"'] + last@ + seq!['"'],
        extensions.len() > 0 ==> quoted_extensions(extensions.push(last)) == quoted_extensions(
            extensions,
        ) + ", "@ + quoted_extensions(seq![last]),
{
    reveal_strlit("\"");
    assert("\""@ =~= seq!['"']);
    let all = extensions.push(last);
    assert(all.drop_last() =~= extensions);
    if extensions.len() > 0 {
        assert(quoted_extensions(all) =~= quoted_extensions(extensions) + ", "@
            + quoted_extensions(seq![last]));
    }
}

/// Suggestions start with one remark, and the lines for each server follow, in
/// the order of the servers.
pub proof fn law_suggestions_follow_the_servers(servers: Seq<Discovered>)
    requires
        servers.len() > 0,
    ensures
        suggestions(servers) == "# Discovered on PATH (not auto-enabled). Uncomment to authorize:\n"@
            + servers.map_values(|found: Discovered| snippet(found.server)).flatten(),
{
    lemma_snippets(servers);
}

proof fn lemma_snippets(servers: Seq<Discovered>)
    ensures
        snippets(servers) == "# Discovered on PATH (not auto-enabled). Uncomment to authorize:\n"@
            + servers.map_values(|found: Discovered| snippet(found.server)).flatten(),
    decreases servers.len(),
{
    let f = |found: Discovered| snippet(found.server);
    let head = "# Discovered on PATH (not auto-enabled). Uncomment to authorize:\n"@;
    if servers.len() > 0 {
        lemma_snippets(servers.drop_last());
        let front = servers.drop_last().map_values(f);
        front.lemma_flatten_push(snippet(servers.last().server));
        assert(servers.map_values(f) =~= front.push(snippet(servers.last().server)));
        assert(snippets(servers) =~= head + servers.map_values(f).flatten());
    } else {
        assert(servers.map_values(f).flatten() =~= Seq::empty());
        assert(head + servers.map_values(f).flatten() =~= head);
    }
}

/// Mosh is named even where it runs over SSH.
pub proof fn law_routes_are_named(ssh: bool)
    ensures
        transport_words(true, ssh) == "mosh"@,
        transport_words(false, true) == "ssh"@,
        transport_words(false, false) == "local/unknown"@,
{
}

/// `LC_ALL` decides, or else `LC_CTYPE`, or else `LANG`.
pub proof fn law_locale_precedence(facts: HealthFacts)
    ensures
        facts.lc_all matches Some(locale) ==> locale_of(facts) == locale@,
        facts.lc_all is None ==> (facts.lc_ctype matches Some(locale) ==> locale_of(facts)
            == locale@),
        facts.lc_all is None && facts.lc_ctype is None ==> (facts.lang matches Some(locale)
            ==> locale_of(facts) == locale@),
        facts.lc_all is None && facts.lc_ctype is None && facts.lang is None ==> locale_of(facts)
            == "(unset)"@,
{
}

proof fn lemma_utf8_locale(a: Seq<char>, word: Seq<char>, upper: Seq<char>, b: Seq<char>)
    requires
        upper == "UTF-8"@ || upper == "UTF8"@,
        word.map_values(|c: char| ascii_upper(c)) =~= upper,
    ensures
        is_utf8_locale(a + word + b),
{
    let all = a + word + b;
    let raised = all.map_values(|c: char| ascii_upper(c));
    assert(raised.subrange(a.len() as int, (a.len() + upper.len()) as int) =~= upper) by {
        assert forall|k: int| 0 <= k < upper.len() implies raised[a.len() + k] == upper[k] by {
            assert(all[a.len() + k] == word[k]);
            assert(word.map_values(|c: char| ascii_upper(c))[k] == ascii_upper(word[k]));
        }
    }
    assert(occurs(raised, upper, a.len() as int));
    lemma_next_occurrence(raised, upper, 0);
}

/// A locale is one of UTF-8 if it says so somewhere, in capitals or not, with a
/// hyphen or without. One without an `8` is not.
pub proof fn law_utf8_locales(a: Seq<char>, b: Seq<char>, other: Seq<char>)
    ensures
        is_utf8_locale(a + "UTF-8"@ + b),
        is_utf8_locale(a + "utf-8"@ + b),
        is_utf8_locale(a + "UTF8"@ + b),
        is_utf8_locale(a + "utf8"@ + b),
        !other.contains('8') ==> !is_utf8_locale(other),
{
    reveal_strlit("UTF-8");
    reveal_strlit("utf-8");
    reveal_strlit("UTF8");
    reveal_strlit("utf8");
    assert(ascii_upper('u') == 'U' && ascii_upper('t') == 'T' && ascii_upper('f') == 'F');
    lemma_utf8_locale(a, "UTF-8"@, "UTF-8"@, b);
    lemma_utf8_locale(a, "utf-8"@, "UTF-8"@, b);
    lemma_utf8_locale(a, "UTF8"@, "UTF8"@, b);
    lemma_utf8_locale(a, "utf8"@, "UTF8"@, b);
    if !other.contains('8') {
        let raised = other.map_values(|c: char| ascii_upper(c));
        assert forall|k: int| 0 <= k < raised.len() implies raised[k] != '8' by {
            assert(raised[k] == ascii_upper(other[k]));
            assert(other[k] != '8') by {
                assert(other.contains(other[k]));
            }
        }
        lemma_next_occurrence(raised, "UTF-8"@, 0);
        lemma_next_occurrence(raised, "UTF8"@, 0);
        if let Some(at) = next_occurrence(raised, "UTF-8"@, 0) {
            assert(raised.subrange(at, at + 5)[4] == raised[at + 4]);
        }
        if let Some(at) = next_occurrence(raised, "UTF8"@, 0) {
            assert(raised.subrange(at, at + 4)[3] == raised[at + 3]);
        }
    }
}

/// Components are counted one by one.
pub proof fn law_components_are_counted(path: Seq<u8>, start: int, i: int)
    ensures
        components_from(path, start, i) == components_behind(path, start, i).len(),
    decreases path.len() - i,
{
    if 0 <= start <= i < path.len() {
        if path[i] == 47 {
            law_components_are_counted(path, i + 1, i + 1);
        } else {
            law_components_are_counted(path, start, i + 1);
        }
    }
}

/// A plain program name is looked up in every directory, in their order; a name
/// that is a path stands for itself.
pub proof fn law_programs_are_looked_up(
    program: Seq<u8>,
    head: Seq<u8>,
    tail: Seq<u8>,
    directories: Seq<Seq<u8>>,
    i: int,
)
    requires
        0 <= i < directories.len(),
    ensures
        program.len() > 0 && !program.contains(47) && program != seq![46u8] ==> {
            let candidates = program_candidates(program, directories);
            &&& candidates.len() == directories.len()
            &&& directories[i].len() > 0 && directories[i].last() != 47 ==> candidates[i]
                == directories[i] + seq![47u8] + program
            &&& directories[i].len() > 0 && directories[i].last() == 47 ==> candidates[i]
                == directories[i] + program
        },
        head.len() > 0 && !head.contains(47) && tail.len() > 0 && !tail.contains(47) && tail
            != seq![46u8] ==> program_candidates(head + seq![47u8] + tail, directories) == seq![
            head + seq![47u8] + tail,
        ],
        tail.len() > 0 && !tail.contains(47) && tail != seq![46u8] ==> program_candidates(
            seq![47u8] + tail,
            directories,
        ) == seq![seq![47u8] + tail],
{
    if program.len() > 0 && !program.contains(47) && program != seq![46u8] {
        lemma_one_component(program, 0);
        assert(!is_absolute(program)) by {
            if program[0] == 47 {
                assert(program.contains(program[0]));
            }
        }
        assert(!starts_here(program)) by {
            if program.len() == 1 && program[0] == 46 {
                assert(program =~= seq![46u8]);
            }
            if program.len() > 1 && program[1] == 47 {
                assert(program.contains(program[1]));
            }
        }
        let candidates = program_candidates(program, directories);
        if directories[i].len() > 0 && directories[i].last() != 47 {
            assert(candidates[i] =~= directories[i] + seq![47u8] + program);
        }
    }
    if tail.len() > 0 && !tail.contains(47) && tail != seq![46u8] {
        let path = head + seq![47u8] + tail;
        if head.len() > 0 && !head.contains(47) {
            lemma_first_component(head, tail, 0);
            lemma_last_component(head + seq![47u8], tail, 0);
            if head == seq![46u8] {
                assert(path[0] == 46 && path[1] == 47);
            }
        }
        let rooted = seq![47u8] + tail;
        lemma_last_component(seq![47u8], tail, 0);
        assert(rooted[0] == 47);
        assert(rooted.subrange(0, 0).len() == 0);
    }
}

proof fn lemma_one_component(path: Seq<u8>, i: int)
    requires
        0 <= i <= path.len(),
        !path.contains(47),
    ensures
        components_from(path, 0, i) == counts(path),
    decreases path.len() - i,
{
    if i < path.len() {
        assert(path.contains(path[i]));
        lemma_one_component(path, i + 1);
    } else {
        assert(path.subrange(0, path.len() as int) =~= path);
    }
}

proof fn lemma_first_component(head: Seq<u8>, tail: Seq<u8>, i: int)
    requires
        0 <= i <= head.len(),
        !head.contains(47),
    ensures
        components_from(head + seq![47u8] + tail, 0, i) == counts(head) + components_from(
            head + seq![47u8] + tail,
            head.len() + 1int,
            head.len() + 1int,
        ),
    decreases head.len() - i,
{
    let path = head + seq![47u8] + tail;
    if i < head.len() {
        assert(path[i] == head[i]);
        assert(head.contains(head[i]));
        lemma_first_component(head, tail, i + 1);
    } else {
        assert(path[i] == 47);
        assert(path.subrange(0, i) =~= head);
    }
}

proof fn lemma_last_component(front: Seq<u8>, tail: Seq<u8>, i: int)
    requires
        0 <= i <= tail.len(),
        !tail.contains(47),
    ensures
        components_from(front + tail, front.len() as int, front.len() + i) == counts(tail),
    decreases tail.len() - i,
{
    let path = front + tail;
    if i < tail.len() {
        assert(path[front.len() + i] == tail[i]);
        assert(tail.contains(tail[i]));
        lemma_last_component(front, tail, i + 1);
    } else {
        assert(path.subrange(front.len() as int, path.len() as int) =~= tail);
    }
}

/// A shown text is its scalar values, each in words, up to 80 of them.
pub proof fn law_texts_are_shown(text: Seq<char>)
    ensures
        shown_chars(text) == text.map_values(|c: char| shown_char(c)).flatten(),
        text.len() <= 80 ==> shown_text(text) == text.map_values(
            |c: char| shown_char(c),
        ).flatten(),
        text.len() > 80 ==> shown_text(text) == text.take(80).map_values(
            |c: char| shown_char(c),
        ).flatten() + "..."@,
{
    lemma_shown_chars(text);
    lemma_shown_chars(text.take(80));
}

proof fn lemma_shown_chars(text: Seq<char>)
    ensures
        shown_chars(text) == text.map_values(|c: char| shown_char(c)).flatten(),
    decreases text.len(),
{
    let f = |c: char| shown_char(c);
    if text.len() > 0 {
        lemma_shown_chars(text.drop_last());
        let front = text.drop_last().map_values(f);
        front.lemma_flatten_push(shown_char(text.last()));
        assert(text.map_values(f) =~= front.push(shown_char(text.last())));
    } else {
        assert(shown_chars(text) =~= text.map_values(f).flatten());
    }
}

/// Control characters are shown by their number, in four hexadecimal digits;
/// line breaks, tabs and backslashes by an escape, and everything else by itself.
pub proof fn law_characters_are_shown(c: char)
    ensures
        c == '\n' ==> shown_char(c) == seq!['\\', 'n'],
        c == '\r' ==> shown_char(c) == seq!['\\', 'r'],
        c == '\t' ==> shown_char(c) == seq!['\\', 't'],
        c == '\\' ==> shown_char(c) == seq!['\\', '\\'],
        c != '\n' && c != '\r' && c != '\t' && ((c as u32) < 0x20 || 0x7f <= (c as u32) < 0xa0)
            ==> shown_char(c) == "\\u{00"@ + seq![
            "0123456789ABCDEF"@[(c as u32) as int / 16],
            "0123456789ABCDEF"@[(c as u32) as int % 16],
            '}',
        ],
        c != '\\' && (c as u32) >= 0x20 && !(0x7f <= (c as u32) < 0xa0) ==> shown_char(c)
            == seq![c],
{
    reveal_strlit("0123456789ABCDEF");
    reveal_strlit("\\n");
    reveal_strlit("\\r");
    reveal_strlit("\\t");
    reveal_strlit("\\\\");
    assert(upper_hex_digits() =~= "0123456789ABCDEF"@);
    let n = (c as u32) as int;
    if c != '\n' && c != '\r' && c != '\t' && (n < 0x20 || 0x7f <= n < 0xa0) {
        assert(shown_char(c) =~= "\\u{00"@ + seq![
            "0123456789ABCDEF"@[n / 16],
            "0123456789ABCDEF"@[n % 16],
            '}',
        ]);
    }
}

/// Words with a bar between them.
pub open spec fn barred(words: Seq<Seq<char>>) -> Seq<char>
    decreases words.len(),
{
    if words.len() == 0 {
        Seq::empty()
    } else if words.len() == 1 {
        words[0]
    } else {
        barred(words.drop_last()) + seq!['|'] + words.last()
    }
}

/// The words for one held key, or none.
pub open spec fn held(applies: bool, label: Seq<char>) -> Seq<Seq<char>> {
    if applies {
        seq![label]
    } else {
        Seq::empty()
    }
}

proof fn lemma_label(words: Seq<Seq<char>>, applies: bool, label: Seq<char>)
    requires
        forall|i: int| 0 <= i < words.len() ==> (#[trigger] words[i]).len() > 0,
        label.len() > 0,
    ensures
        with_label(barred(words), applies, label) == barred(words + held(applies, label)),
        words.len() > 0 ==> barred(words).len() > 0,
        forall|i: int|
            0 <= i < (words + held(applies, label)).len() ==> (#[trigger] (words + held(
                applies,
                label,
            ))[i]).len() > 0,
{
    reveal_strlit("|");
    assert("|"@ =~= seq!['|']);
    let more = words + held(applies, label);
    if applies {
        assert(more.drop_last() =~= words);
    } else {
        assert(more =~= words);
    }
    if words.len() > 1 {
        assert(words.last() == words[words.len() - 1]);
    }
}

/// The modifier keys that are held are listed in one order, with bars between
/// them; where none is held, that is said.
pub proof fn law_modifiers_are_listed(modifiers: Modifiers)
    ensures
        ({
            let words = held(modifiers.shift, "SHIFT"@) + held(modifiers.control, "CONTROL"@)
                + held(modifiers.alt, "ALT"@) + held(modifiers.super_key, "SUPER"@) + held(
                modifiers.hyper,
                "HYPER"@,
            ) + held(modifiers.meta, "META"@);
            modifier_words(modifiers) == if words.len() == 0 {
                "none"@
            } else {
                barred(words)
            }
        }),
{
    reveal_strlit("SHIFT");
    reveal_strlit("CONTROL");
    reveal_strlit("ALT");
    reveal_strlit("SUPER");
    reveal_strlit("HYPER");
    reveal_strlit("META");
    let none: Seq<Seq<char>> = Seq::empty();
    assert(none + held(modifiers.shift, "SHIFT"@) =~= held(modifiers.shift, "SHIFT"@));
    lemma_label(none, modifiers.shift, "SHIFT"@);
    let a = held(modifiers.shift, "SHIFT"@);
    lemma_label(a, modifiers.control, "CONTROL"@);
    let b = a + held(modifiers.control, "CONTROL"@);
    lemma_label(b, modifiers.alt, "ALT"@);
    let c = b + held(modifiers.alt, "ALT"@);
    lemma_label(c, modifiers.super_key, "SUPER"@);
    let d = c + held(modifiers.super_key, "SUPER"@);
    lemma_label(d, modifiers.hyper, "HYPER"@);
    let e = d + held(modifiers.hyper, "HYPER"@);
    lemma_label(e, modifiers.meta, "META"@);
    let f = e + held(modifiers.meta, "META"@);
    lemma_label(f, false, "META"@);
}

/// Event numbers are filled up with zeros to three digits.
pub proof fn law_event_numbers_have_three_digits(n: nat)
    ensures
        n < 10 ==> event_number(n) == seq!['0', '0'] + decimal(n),
        10 <= n < 100 ==> event_number(n) == seq!['0'] + decimal(n),
        100 <= n ==> event_number(n) == decimal(n),
{
    reveal_strlit("00");
    reveal_strlit("0");
    assert("00"@ =~= seq!['0', '0']);
    assert("0"@ =~= seq!['0']);
}

/// Help is shown until it was seen, unless it is to be skipped. Seeing it is
/// written down once.
pub proof fn law_help_is_shown_until_seen(skip: bool, state: OnboardingFile)
    ensures
        help_due(true, Some(state)) == false,
        help_due(true, None) == false,
        help_due(false, None) == true,
        help_due(false, Some(state)) <==> !state.first_run_help_seen,
        seen(None) == Some(OnboardingFile { first_run_help_seen: true }),
        state.first_run_help_seen <==> seen(Some(state)) is None,
        seen(Some(state)) matches Some(written) ==> written.first_run_help_seen,
{
}

} // verus!
