//! The health report: what the terminal route and the tools look like.
use vstd::prelude::*;
use vstd::utf8::*;

use crate::file_uri::{components_from, has_more_components};
use crate::find::{find_chars, next_occurrence};
use crate::lsp_discover::{
    discovered_of, paths_of, suggested_config_snippets, suggestions, Discovered,
    DiscoveredLanguageServer,
};
use crate::lsp_types::text_option;
use crate::paths::{
    bytes_option, copy_bytes, display_path, is_absolute, join, lossy_text, path_join, starts_here,
};
use crate::text::{chars_of, copy_text};

verus! {

/// A language server of the configuration.
#[derive(Clone, Debug)]
pub struct ConfiguredServer {
    pub name: String,
    pub argv0: String,
    pub resolved: Option<Vec<u8>>,
}

/// The configuration that was loaded.
#[derive(Clone, Debug)]
pub struct ConfiguredServers {
    pub source: Option<String>,
    pub servers: Vec<ConfiguredServer>,
}

/// What the report is about.
#[derive(Debug)]
pub struct HealthFacts {
    pub version: String,
    pub term: Option<String>,
    pub lc_all: Option<String>,
    pub lc_ctype: Option<String>,
    pub lang: Option<String>,
    pub mosh: bool,
    pub ssh: bool,
    pub tmux: bool,
    pub git: bool,
    pub rg: bool,
    pub shell: Option<Vec<u8>>,
    pub config: Option<Vec<u8>>,
    pub session: Result<Vec<u8>, String>,
    pub discovered: Vec<DiscoveredLanguageServer>,
    pub configured: Option<ConfiguredServers>,
}

/// The route to the terminal.
pub open spec fn transport_words(mosh: bool, ssh: bool) -> Seq<char> {
    if mosh {
        "mosh"@
    } else if ssh {
        "ssh"@
    } else {
        "local/unknown"@
    }
}

/// The route to the terminal.
pub fn current_transport(mosh: bool, ssh: bool) -> (words: &'static str)
    ensures
        words@ == transport_words(mosh, ssh),
{
    if mosh {
        "mosh"
    } else if ssh {
        "ssh"
    } else {
        "local/unknown"
    }
}

/// The terminal's name, where it is known.
pub open spec fn or_unset(value: Option<Seq<char>>) -> Seq<char> {
    match value {
        Some(text) => text,
        None => "(unset)"@,
    }
}

/// The locale that applies.
pub open spec fn locale_of(facts: HealthFacts) -> Seq<char> {
    match text_option(facts.lc_all) {
        Some(value) => value,
        None => match text_option(facts.lc_ctype) {
            Some(value) => value,
            None => or_unset(text_option(facts.lang)),
        },
    }
}

/// An ASCII letter in uppercase.
pub open spec fn ascii_upper(c: char) -> char {
    if 'a' <= c && c <= 'z' {
        ((c as u32) - 32) as char
    } else {
        c
    }
}

/// Whether a locale is one of UTF-8, whatever the case of its letters.
pub open spec fn is_utf8_locale(locale: Seq<char>) -> bool {
    let upper = locale.map_values(|c: char| ascii_upper(c));
    next_occurrence(upper, "UTF-8"@, 0) is Some || next_occurrence(upper, "UTF8"@, 0) is Some
}

fn utf8_locale(locale: &str) -> (yes: bool)
    ensures
        yes == is_utf8_locale(locale@),
{
    let chars = chars_of(locale);
    let mut upper: Vec<char> = Vec::new();
    let mut i: usize = 0;
    while i < chars.len()
        invariant
            i <= chars@.len(),
            chars@ == locale@,
            upper@ == locale@.take(i as int).map_values(|c: char| ascii_upper(c)),
        decreases chars@.len() - i,
    {
        let c = chars[i];
        let up = upper_of(c);
        upper.push(up);
        assert(upper@ =~= locale@.take(i + 1).map_values(|c: char| ascii_upper(c)));
        i += 1;
    }
    assert(locale@.take(i as int) =~= locale@);
    let long = chars_of("UTF-8");
    let short = chars_of("UTF8");
    find_chars(upper.as_slice(), long.as_slice(), 0).is_some() || find_chars(
        upper.as_slice(),
        short.as_slice(),
        0,
    ).is_some()
}

fn upper_of(c: char) -> (up: char)
    ensures
        up == ascii_upper(c),
{
    if 'a' <= c && c <= 'z' {
        let n = c as u32 - 32;
        assert(65 <= n <= 90);
        match char::from_u32(n) {
            Some(up) => up,
            None => c,
        }
    } else {
        c
    }
}

/// Discovered servers with their executables, with commas between them.
pub open spec fn discovered_words(servers: Seq<Discovered>) -> Seq<char>
    decreases servers.len(),
{
    if servers.len() == 0 {
        Seq::empty()
    } else if servers.len() == 1 {
        servers[0].server.name@ + "="@ + lossy_text(servers[0].executable)
    } else {
        discovered_words(servers.drop_last()) + ", "@ + servers.last().server.name@ + "="@
            + lossy_text(servers.last().executable)
    }
}

fn push_discovered(words: &mut String, servers: &Vec<DiscoveredLanguageServer>)
    ensures
        final(words)@ == old(words)@ + discovered_words(discovered_of(servers@)),
{
    let ghost start = words@;
    let ghost all = discovered_of(servers@);
    let mut i: usize = 0;
    assert(words@ =~= start + discovered_words(all.take(0)));
    while i < servers.len()
        invariant
            i <= servers@.len() == all.len(),
            all == discovered_of(servers@),
            words@ == start + discovered_words(all.take(i as int)),
        decreases servers@.len() - i,
    {
        let ghost part = all.take(i + 1);
        proof {
            assert(part.drop_last() =~= all.take(i as int));
            assert(part.last() == servers@[i as int]@);
        }
        if i > 0 {
            words.push_str(", ");
        }
        words.push_str(servers[i].name);
        words.push_str("=");
        words.push_str(display_path(servers[i].executable.as_slice()).as_str());
        assert(words@ =~= start + discovered_words(part));
        i += 1;
    }
    assert(all.take(i as int) =~= all);
}

/// The line for a configured server.
pub open spec fn configured_line(server: ConfiguredServer) -> Seq<char> {
    "language_server_configured="@ + server.name@ + " argv0="@ + server.argv0@ + " resolved="@ + (
    match bytes_option(server.resolved) {
        Some(path) => lossy_text(path),
        None => "missing on PATH"@,
    }) + "\n"@
}

/// The lines for configured servers.
pub open spec fn configured_lines(servers: Seq<ConfiguredServer>) -> Seq<char>
    decreases servers.len(),
{
    if servers.len() == 0 {
        Seq::empty()
    } else {
        configured_lines(servers.drop_last()) + configured_line(servers.last())
    }
}

/// What is said about the configuration.
pub open spec fn configured_words(configured: Option<ConfiguredServers>) -> Seq<char> {
    match configured {
        None => Seq::empty(),
        Some(config) => if config.servers@.len() == 0 {
            "language_servers_configured=0"@ + (match text_option(config.source) {
                Some(path) => " ("@ + path + ")"@,
                None => " (defaults)"@,
            }) + "\n"@
        } else {
            configured_lines(config.servers@)
        },
    }
}

fn push_configured(words: &mut String, configured: &Option<ConfiguredServers>)
    ensures
        final(words)@ == old(words)@ + configured_words(*configured),
{
    let ghost start = words@;
    match configured {
        None => {
            assert(words@ =~= start + configured_words(*configured));
        },
        Some(config) => {
            if config.servers.len() == 0 {
                words.push_str("language_servers_configured=0");
                match &config.source {
                    Some(path) => {
                        words.push_str(" (");
                        words.push_str(path.as_str());
                        words.push_str(")");
                    },
                    None => {
                        words.push_str(" (defaults)");
                    },
                }
                words.push_str("\n");
                assert(words@ =~= start + configured_words(*configured));
                return;
            }
            let servers = &config.servers;
            let mut i: usize = 0;
            assert(words@ =~= start + configured_lines(servers@.take(0)));
            while i < servers.len()
                invariant
                    i <= servers@.len(),
                    words@ == start + configured_lines(servers@.take(i as int)),
                decreases servers@.len() - i,
            {
                let ghost part = servers@.take(i + 1);
                let server = &servers[i];
                proof {
                    assert(part.drop_last() =~= servers@.take(i as int));
                    assert(part.last() == *server);
                }
                words.push_str("language_server_configured=");
                words.push_str(server.name.as_str());
                words.push_str(" argv0=");
                words.push_str(server.argv0.as_str());
                words.push_str(" resolved=");
                match &server.resolved {
                    Some(path) => {
                        words.push_str(display_path(path.as_slice()).as_str());
                    },
                    None => {
                        words.push_str("missing on PATH");
                    },
                }
                words.push_str("\n");
                assert(words@ =~= start + configured_lines(part));
                i += 1;
            }
            assert(servers@.take(i as int) =~= servers@);
        },
    }
}

/// The lines on the terminal route.
pub open spec fn route_words(facts: HealthFacts) -> Seq<char> {
    "wscrpt "@ + facts.version@ + "\nTERM="@ + or_unset(text_option(facts.term)) + "\nlocale="@
        + locale_of(facts) + "\ntransport="@ + transport_words(facts.mosh, facts.ssh) + "\ntmux="@
        + (if facts.tmux {
        "yes"@
    } else {
        "no"@
    }) + "\n"@
}

/// A line of the report.
pub open spec fn line(key: Seq<char>, value: Seq<char>) -> Seq<char> {
    key + value + "\n"@
}

/// What is said about the tools and paths, line by line.
pub open spec fn tool_lines(facts: HealthFacts) -> Seq<Seq<char>> {
    seq![
        line("git="@, if facts.git {
            "available"@
        } else {
            "missing"@
        }),
        line("rg="@, if facts.rg {
            "available (optional)"@
        } else {
            "missing (built-in project search remains available)"@
        }),
        line("shell="@, match bytes_option(facts.shell) {
            Some(shell) => if shell.len() > 0 {
                lossy_text(shell)
            } else {
                "/bin/sh (fallback)"@
            },
            None => "/bin/sh (fallback)"@,
        }),
        line("config="@, match bytes_option(facts.config) {
            Some(path) => lossy_text(path),
            None => "unavailable (HOME and XDG_CONFIG_HOME unset)"@,
        }),
        line("session="@, match facts.session {
            Ok(path) => lossy_text(path@),
            Err(error) => "unavailable ("@ + error@ + ")"@,
        }),
    ]
}

/// Lines one after the other.
pub open spec fn all_lines(lines: Seq<Seq<char>>) -> Seq<char>
    decreases lines.len(),
{
    if lines.len() == 0 {
        Seq::empty()
    } else {
        all_lines(lines.drop_last()) + lines.last()
    }
}

/// The lines on tools and paths.
pub open spec fn tool_words(facts: HealthFacts) -> Seq<char> {
    all_lines(tool_lines(facts))
}

/// The lines on language servers.
pub open spec fn server_words(facts: HealthFacts) -> Seq<char> {
    let found = discovered_of(facts.discovered@);
    (if found.len() == 0 {
        "language_servers_on_path=none of the well-known candidates\n"@
    } else {
        "language_servers_on_path="@ + discovered_words(found) + "\n"@ + suggestions(found)
    }) + configured_words(facts.configured)
}

/// The closing remarks.
pub open spec fn remark_words(facts: HealthFacts) -> Seq<char> {
    (if is_utf8_locale(locale_of(facts)) {
        Seq::empty()
    } else {
        "warning=mosh and Unicode editing require a UTF-8 locale\n"@
    }) + (if facts.tmux {
        "clipboard=OSC 52 uses tmux DCS passthrough; tmux 3.3+ needs `allow-passthrough on`\n"@
    } else {
        Seq::empty()
    })
}

fn text_or_unset(value: &Option<String>) -> (text: String)
    ensures
        text@ == or_unset(text_option(*value)),
{
    match value {
        Some(text) => copy_text(text.as_str()),
        None => copy_text("(unset)"),
    }
}

fn locale(facts: &HealthFacts) -> (text: String)
    ensures
        text@ == locale_of(*facts),
{
    match &facts.lc_all {
        Some(value) => copy_text(value.as_str()),
        None => match &facts.lc_ctype {
            Some(value) => copy_text(value.as_str()),
            None => text_or_unset(&facts.lang),
        },
    }
}

fn push_route(words: &mut String, facts: &HealthFacts)
    ensures
        final(words)@ == old(words)@ + route_words(*facts),
{
    let ghost start = words@;
    words.push_str("wscrpt ");
    words.push_str(facts.version.as_str());
    words.push_str("\nTERM=");
    words.push_str(text_or_unset(&facts.term).as_str());
    words.push_str("\nlocale=");
    words.push_str(locale(facts).as_str());
    words.push_str("\ntransport=");
    words.push_str(current_transport(facts.mosh, facts.ssh));
    words.push_str("\ntmux=");
    if facts.tmux {
        words.push_str("yes");
    } else {
        words.push_str("no");
    }
    words.push_str("\n");
    assert(words@ =~= start + route_words(*facts));
}

fn push_line(words: &mut String, key: &str, value: &str, Ghost(done): Ghost<Seq<Seq<char>>>, Ghost(
    start,
): Ghost<Seq<char>>)
    requires
        old(words)@ == start + all_lines(done),
    ensures
        final(words)@ == start + all_lines(done.push(line(key@, value@))),
{
    words.push_str(key);
    words.push_str(value);
    words.push_str("\n");
    proof {
        assert(done.push(line(key@, value@)).drop_last() =~= done);
        assert(words@ =~= start + all_lines(done.push(line(key@, value@))));
    }
}

fn shell_text(shell: &Option<Vec<u8>>) -> (text: String)
    ensures
        text@ == (match bytes_option(*shell) {
            Some(path) => if path.len() > 0 {
                lossy_text(path)
            } else {
                "/bin/sh (fallback)"@
            },
            None => "/bin/sh (fallback)"@,
        }),
{
    match shell {
        Some(path) => {
            if path.len() > 0 {
                display_path(path.as_slice())
            } else {
                copy_text("/bin/sh (fallback)")
            }
        },
        None => copy_text("/bin/sh (fallback)"),
    }
}

fn session_text(session: &Result<Vec<u8>, String>) -> (text: String)
    ensures
        text@ == (match *session {
            Ok(path) => lossy_text(path@),
            Err(error) => "unavailable ("@ + error@ + ")"@,
        }),
{
    match session {
        Ok(path) => display_path(path.as_slice()),
        Err(error) => {
            let mut text = copy_text("unavailable (");
            text.push_str(error.as_str());
            text.push_str(")");
            text
        },
    }
}

fn push_tools(words: &mut String, facts: &HealthFacts)
    ensures
        final(words)@ == old(words)@ + tool_words(*facts),
{
    let ghost start = words@;
    let ghost lines = tool_lines(*facts);
    let git = if facts.git {
        "available"
    } else {
        "missing"
    };
    let rg = if facts.rg {
        "available (optional)"
    } else {
        "missing (built-in project search remains available)"
    };
    let shell = shell_text(&facts.shell);
    let config = match &facts.config {
        Some(path) => display_path(path.as_slice()),
        None => copy_text("unavailable (HOME and XDG_CONFIG_HOME unset)"),
    };
    let session = session_text(&facts.session);
    proof {
        assert(start + all_lines(Seq::empty()) =~= start);
    }
    push_line(words, "git=", git, Ghost(Seq::empty()), Ghost(start));
    assert(Seq::empty().push(lines[0]) =~= lines.take(1));
    push_line(words, "rg=", rg, Ghost(lines.take(1)), Ghost(start));
    assert(lines.take(1).push(lines[1]) =~= lines.take(2));
    push_line(words, "shell=", shell.as_str(), Ghost(lines.take(2)), Ghost(start));
    assert(lines.take(2).push(lines[2]) =~= lines.take(3));
    push_line(words, "config=", config.as_str(), Ghost(lines.take(3)), Ghost(start));
    assert(lines.take(3).push(lines[3]) =~= lines.take(4));
    push_line(words, "session=", session.as_str(), Ghost(lines.take(4)), Ghost(start));
    assert(lines.take(4).push(lines[4]) =~= lines);
}

fn push_servers(words: &mut String, facts: &HealthFacts)
    ensures
        final(words)@ == old(words)@ + server_words(*facts),
{
    let ghost start = words@;
    if facts.discovered.len() == 0 {
        words.push_str("language_servers_on_path=none of the well-known candidates\n");
    } else {
        words.push_str("language_servers_on_path=");
        push_discovered(words, &facts.discovered);
        words.push_str("\n");
        words.push_str(suggested_config_snippets(&facts.discovered).as_str());
    }
    push_configured(words, &facts.configured);
    assert(words@ =~= start + server_words(*facts));
}

/// The health report.
pub fn health_report(facts: &HealthFacts) -> (words: String)
    ensures
        words@ == route_words(*facts) + tool_words(*facts) + server_words(*facts) + remark_words(
            *facts,
        ),
{
    let mut words = String::new();
    push_route(&mut words, facts);
    push_tools(&mut words, facts);
    push_servers(&mut words, facts);
    if !utf8_locale(locale(facts).as_str()) {
        words.push_str("warning=mosh and Unicode editing require a UTF-8 locale\n");
    }
    if facts.tmux {
        words.push_str(
            "clipboard=OSC 52 uses tmux DCS passthrough; tmux 3.3+ needs `allow-passthrough on`\n",
        );
    }
    assert(words@ =~= route_words(*facts) + tool_words(*facts) + server_words(*facts)
        + remark_words(*facts));
    words
}

/// How many components a path has.
pub open spec fn path_components(path: Seq<u8>) -> int {
    components_from(path, 0, 0) + (if is_absolute(path) || starts_here(path) {
        1int
    } else {
        0int
    })
}

/// The files that a program name may stand for: the name itself where it has
/// several components, and otherwise a file in each directory.
pub open spec fn program_candidates(program: Seq<u8>, directories: Seq<Seq<u8>>) -> Seq<Seq<u8>> {
    if program.len() == 0 {
        Seq::empty()
    } else if path_components(program) > 1 {
        seq![program]
    } else {
        directories.map_values(
            |directory: Seq<u8>|
                if is_absolute(program) {
                    program
                } else {
                    path_join(directory, program)
                },
        )
    }
}

/// Computes [`program_candidates`].
pub fn command_candidates(program: &str, directories: &Vec<Vec<u8>>) -> (candidates: Vec<Vec<u8>>)
    ensures
        paths_of(candidates@) == program_candidates(
            encode_utf8(program@),
            paths_of(directories@),
        ),
{
    let bytes = program.as_bytes();
    let ghost name = encode_utf8(program@);
    let mut candidates: Vec<Vec<u8>> = Vec::new();
    assert(paths_of(candidates@) =~= Seq::<Seq<u8>>::empty());
    if bytes.len() == 0 {
        return candidates;
    }
    let rooted = bytes[0] == 47;
    let here = bytes[0] == 46 && (bytes.len() == 1 || bytes[1] == 47);
    let several = if rooted || here {
        has_more_components(bytes, 1)
    } else {
        has_more_components(bytes, 2)
    };
    if several {
        candidates.push(copy_bytes(bytes));
        assert(paths_of(candidates@) =~= seq![name]);
        return candidates;
    }
    let ghost all = program_candidates(name, paths_of(directories@));
    let mut i: usize = 0;
    while i < directories.len()
        invariant
            i <= directories@.len() == all.len(),
            name == encode_utf8(program@),
            bytes@ == name,
            rooted == is_absolute(name),
            name.len() > 0,
            path_components(name) <= 1,
            all == program_candidates(name, paths_of(directories@)),
            paths_of(candidates@) == all.take(i as int),
        decreases directories@.len() - i,
    {
        let ghost before = candidates@;
        let candidate = if rooted {
            copy_bytes(bytes)
        } else {
            join(directories[i].as_slice(), program)
        };
        candidates.push(candidate);
        assert(paths_of(candidates@) =~= paths_of(before).push(candidate@));
        assert(all.take(i + 1) =~= all.take(i as int).push(all[i as int]));
        i += 1;
    }
    assert(all.take(i as int) =~= all);
    candidates
}

/// Whether a command exists: some candidate is an executable file.
pub fn command_exists(executable: &Vec<bool>) -> (yes: bool)
    ensures
        yes == executable@.contains(true),
{
    let mut i: usize = 0;
    while i < executable.len()
        invariant
            i <= executable@.len(),
            forall|k: int| 0 <= k < i ==> !executable@[k],
        decreases executable@.len() - i,
    {
        if executable[i] {
            assert(executable@.contains(executable@[i as int]));
            return true;
        }
        i += 1;
    }
    false
}

} // verus!
