//! PATH-only language-server discovery: where an executable may stand, and what
//! an operator can paste into the configuration.
use vstd::prelude::*;
use vstd::utf8::*;

use crate::paths::{bytes_option, copy_bytes, is_same_path, join, path_join, same_path};
use crate::text::{chars_of, same_text};

verus! {

/// A language server that the health probe may report when present.
#[derive(Clone, Debug, PartialEq, Eq)]
pub struct KnownLanguageServer {
    pub name: &'static str,
    pub language_id: &'static str,
    pub extensions: Vec<&'static str>,
    pub argv0: &'static str,
}

/// The content of a [`KnownLanguageServer`].
#[verifier::ext_equal]
pub struct Server {
    pub name: &'static str,
    pub language_id: &'static str,
    pub extensions: Seq<&'static str>,
    pub argv0: &'static str,
}

impl View for KnownLanguageServer {
    type V = Server;

    open spec fn view(&self) -> Server {
        Server {
            name: self.name,
            language_id: self.language_id,
            extensions: self.extensions@,
            argv0: self.argv0,
        }
    }
}

/// The language servers that are looked for.
pub open spec fn known_servers() -> Seq<Server> {
    seq![
        Server {
            name: "rust-analyzer",
            language_id: "rust",
            extensions: seq!["rs"],
            argv0: "rust-analyzer",
        },
        Server {
            name: "pyright",
            language_id: "python",
            extensions: seq!["py", "pyi"],
            argv0: "pyright-langserver",
        },
        Server {
            name: "typescript-language-server",
            language_id: "typescript",
            extensions: seq!["ts", "tsx", "js", "jsx"],
            argv0: "typescript-language-server",
        },
        Server { name: "gopls", language_id: "go", extensions: seq!["go"], argv0: "gopls" },
        Server {
            name: "clangd",
            language_id: "cpp",
            extensions: seq!["c", "h", "cc", "cpp", "hpp"],
            argv0: "clangd",
        },
        Server {
            name: "lua-language-server",
            language_id: "lua",
            extensions: seq!["lua"],
            argv0: "lua-language-server",
        },
        Server {
            name: "bash-language-server",
            language_id: "shellscript",
            extensions: seq!["sh", "bash"],
            argv0: "bash-language-server",
        },
    ]
}

/// The contents of servers.
pub open spec fn servers_of(list: Seq<KnownLanguageServer>) -> Seq<Server> {
    list.map_values(|server: KnownLanguageServer| server@)
}

/// Well-known language servers the health probe may report when present.
pub fn known_language_servers() -> (list: Vec<KnownLanguageServer>)
    ensures
        servers_of(list@) == known_servers(),
{
    let list: Vec<KnownLanguageServer> = vec![
        KnownLanguageServer {
            name: "rust-analyzer",
            language_id: "rust",
            extensions: vec!["rs"],
            argv0: "rust-analyzer",
        },
        KnownLanguageServer {
            name: "pyright",
            language_id: "python",
            extensions: vec!["py", "pyi"],
            argv0: "pyright-langserver",
        },
        KnownLanguageServer {
            name: "typescript-language-server",
            language_id: "typescript",
            extensions: vec!["ts", "tsx", "js", "jsx"],
            argv0: "typescript-language-server",
        },
        KnownLanguageServer {
            name: "gopls",
            language_id: "go",
            extensions: vec!["go"],
            argv0: "gopls",
        },
        KnownLanguageServer {
            name: "clangd",
            language_id: "cpp",
            extensions: vec!["c", "h", "cc", "cpp", "hpp"],
            argv0: "clangd",
        },
        KnownLanguageServer {
            name: "lua-language-server",
            language_id: "lua",
            extensions: vec!["lua"],
            argv0: "lua-language-server",
        },
        KnownLanguageServer {
            name: "bash-language-server",
            language_id: "shellscript",
            extensions: vec!["sh", "bash"],
            argv0: "bash-language-server",
        },
    ];
    proof {
        assert(list@[0]@ =~= known_servers()[0]);
        assert(list@[1]@ =~= known_servers()[1]);
        assert(list@[2]@ =~= known_servers()[2]);
        assert(list@[3]@ =~= known_servers()[3]);
        assert(list@[4]@ =~= known_servers()[4]);
        assert(list@[5]@ =~= known_servers()[5]);
        assert(list@[6]@ =~= known_servers()[6]);
        assert(servers_of(list@) =~= known_servers());
    }
    list
}

/// One PATH-discovered language-server candidate.
#[derive(Clone, Debug, Eq)]
pub struct DiscoveredLanguageServer {
    pub name: &'static str,
    pub language_id: &'static str,
    pub extensions: Vec<&'static str>,
    pub executable: Vec<u8>,
    pub argv0: &'static str,
}

/// The content of a [`DiscoveredLanguageServer`].
#[verifier::ext_equal]
pub struct Discovered {
    pub server: Server,
    pub executable: Seq<u8>,
}

impl View for DiscoveredLanguageServer {
    type V = Discovered;

    open spec fn view(&self) -> Discovered {
        Discovered {
            server: Server {
                name: self.name,
                language_id: self.language_id,
                extensions: self.extensions@,
                argv0: self.argv0,
            },
            executable: self.executable@,
        }
    }
}

/// The contents of texts.
pub open spec fn texts_of(list: Seq<&'static str>) -> Seq<Seq<char>> {
    list.map_values(|text: &'static str| text@)
}

/// Whether two lists of texts are equal.
fn same_texts(a: &Vec<&'static str>, b: &Vec<&'static str>) -> (same: bool)
    ensures
        same == (texts_of(a@) == texts_of(b@)),
{
    if a.len() != b.len() {
        assert(texts_of(a@).len() != texts_of(b@).len());
        return false;
    }
    let mut i: usize = 0;
    while i < a.len()
        invariant
            i <= a@.len() == b@.len(),
            forall|k: int| 0 <= k < i ==> (#[trigger] a@[k])@ == b@[k]@,
        decreases a@.len() - i,
    {
        if !same_text(a[i], b[i]) {
            assert(texts_of(a@)[i as int] != texts_of(b@)[i as int]);
            return false;
        }
        i += 1;
    }
    assert(texts_of(a@) =~= texts_of(b@));
    true
}

impl PartialEq for DiscoveredLanguageServer {
    fn eq(&self, other: &Self) -> (same: bool) {
        same_text(self.name, other.name) && same_text(self.language_id, other.language_id)
            && same_texts(&self.extensions, &other.extensions) && same_path(
            self.executable.as_slice(),
            other.executable.as_slice(),
        ) && same_text(self.argv0, other.argv0)
    }
}

impl vstd::std_specs::cmp::PartialEqSpecImpl for DiscoveredLanguageServer {
    open spec fn obeys_eq_spec() -> bool {
        true
    }

    open spec fn eq_spec(&self, other: &Self) -> bool {
        &&& self.name@ == other.name@
        &&& self.language_id@ == other.language_id@
        &&& texts_of(self.extensions@) == texts_of(other.extensions@)
        &&& is_same_path(self.executable@, other.executable@)
        &&& self.argv0@ == other.argv0@
    }
}

/// The contents of discovered servers.
pub open spec fn discovered_of(list: Seq<DiscoveredLanguageServer>) -> Seq<Discovered> {
    list.map_values(|server: DiscoveredLanguageServer| server@)
}

/// The files that a command name may stand for, in the order in which they are
/// tried: the name itself where it holds a separator, and otherwise a file in
/// each directory.
pub open spec fn candidates_of(command: Seq<char>, directories: Seq<Seq<u8>>) -> Seq<Seq<u8>> {
    if command.len() == 0 || command.contains('\0') {
        Seq::empty()
    } else if command.contains('/') || command.contains('\\') {
        seq![encode_utf8(command)]
    } else {
        joined_with(directories, encode_utf8(command))
    }
}

/// A file in each directory whose name is not empty.
pub open spec fn joined_with(directories: Seq<Seq<u8>>, name: Seq<u8>) -> Seq<Seq<u8>>
    decreases directories.len(),
{
    if directories.len() == 0 {
        Seq::empty()
    } else if directories.last().len() == 0 {
        joined_with(directories.drop_last(), name)
    } else {
        joined_with(directories.drop_last(), name).push(path_join(directories.last(), name))
    }
}

/// The contents of paths.
pub open spec fn paths_of(paths: Seq<Vec<u8>>) -> Seq<Seq<u8>> {
    paths.map_values(|path: Vec<u8>| path@)
}

fn holds_char(chars: &[char], wanted: char) -> (yes: bool)
    ensures
        yes == chars@.contains(wanted),
{
    let mut i: usize = 0;
    while i < chars.len()
        invariant
            i <= chars@.len(),
            forall|k: int| 0 <= k < i ==> chars@[k] != wanted,
        decreases chars@.len() - i,
    {
        if chars[i] == wanted {
            assert(chars@.contains(chars@[i as int]));
            return true;
        }
        i += 1;
    }
    false
}

/// Computes [`candidates_of`].
pub fn executable_candidates(command: &str, directories: &Vec<Vec<u8>>) -> (candidates: Vec<Vec<u8>>)
    ensures
        paths_of(candidates@) == candidates_of(command@, paths_of(directories@)),
{
    let mut candidates: Vec<Vec<u8>> = Vec::new();
    assert(paths_of(candidates@) =~= Seq::<Seq<u8>>::empty());
    let chars = chars_of(command);
    if chars.len() == 0 || holds_char(chars.as_slice(), '\0') {
        return candidates;
    }
    if holds_char(chars.as_slice(), '/') || holds_char(chars.as_slice(), '\\') {
        candidates.push(copy_bytes(command.as_bytes()));
        assert(paths_of(candidates@) =~= seq![encode_utf8(command@)]);
        return candidates;
    }
    let ghost all = paths_of(directories@);
    let ghost name = encode_utf8(command@);
    let mut i: usize = 0;
    assert(all.take(0) =~= Seq::<Seq<u8>>::empty());
    while i < directories.len()
        invariant
            i <= directories@.len() == all.len(),
            all == paths_of(directories@),
            name == encode_utf8(command@),
            paths_of(candidates@) == joined_with(all.take(i as int), name),
        decreases directories@.len() - i,
    {
        proof {
            assert(all.take(i + 1).drop_last() =~= all.take(i as int));
            assert(all.take(i + 1).last() == directories@[i as int]@);
        }
        if directories[i].len() > 0 {
            let ghost before = candidates@;
            let candidate = join(directories[i].as_slice(), command);
            candidates.push(candidate);
            assert(paths_of(candidates@) =~= paths_of(before).push(candidate@));
        }
        i += 1;
    }
    assert(all.take(i as int) =~= all);
    candidates
}

/// The first candidate that is executable.
pub open spec fn first_executable(candidates: Seq<Seq<u8>>, executable: Seq<bool>) -> Option<Seq<u8>>
    decreases candidates.len(),
{
    if candidates.len() == 0 {
        None
    } else if executable.len() > 0 && executable[0] {
        Some(candidates[0])
    } else {
        first_executable(
            candidates.drop_first(),
            if executable.len() > 0 {
                executable.drop_first()
            } else {
                executable
            },
        )
    }
}

/// Resolve a command name to an executable regular file. Whether each of the
/// [`executable_candidates`] is one was found out before; nothing is executed.
pub fn resolve_executable(
    command: &str,
    directories: &Vec<Vec<u8>>,
    executable: &Vec<bool>,
) -> (resolved: Option<Vec<u8>>)
    ensures
        bytes_option(resolved) == first_executable(
            candidates_of(command@, paths_of(directories@)),
            executable@,
        ),
{
    let candidates = executable_candidates(command, directories);
    let ghost all = paths_of(candidates@);
    let mut i: usize = 0;
    proof {
        assert(all.skip(0) =~= all);
        assert(executable@.skip(0) =~= executable@);
    }
    while i < candidates.len()
        invariant
            i <= candidates@.len() == all.len(),
            all == paths_of(candidates@),
            all == candidates_of(command@, paths_of(directories@)),
            first_executable(all, executable@) == first_executable(
                all.skip(i as int),
                if i <= executable@.len() {
                    executable@.skip(i as int)
                } else {
                    Seq::empty()
                },
            ),
        decreases candidates@.len() - i,
    {
        if i < executable.len() && executable[i] {
            return Some(copy_bytes(candidates[i].as_slice()));
        }
        proof {
            assert(all.skip(i as int).drop_first() =~= all.skip(i + 1));
            if i < executable@.len() {
                assert(executable@.skip(i as int).drop_first() =~= executable@.skip(i + 1));
            } else {
                assert(executable@.skip(executable@.len() as int) =~= Seq::<bool>::empty());
            }
        }
        i += 1;
    }
    None
}

/// The servers that were resolved, in the order of the list.
pub open spec fn discovered(resolved: Seq<Option<Seq<u8>>>, upto: int) -> Seq<Discovered>
    decreases upto,
{
    if upto <= 0 {
        Seq::empty()
    } else {
        let before = discovered(resolved, upto - 1);
        if upto - 1 < resolved.len() {
            match resolved[upto - 1] {
                Some(executable) => before.push(
                    Discovered { server: known_servers()[upto - 1], executable },
                ),
                None => before,
            }
        } else {
            before
        }
    }
}

/// The contents of optional paths.
pub open spec fn options_of(paths: Seq<Option<Vec<u8>>>) -> Seq<Option<Seq<u8>>> {
    paths.map_values(|path: Option<Vec<u8>>| bytes_option(path))
}

/// The known language servers whose executable was resolved.
pub fn discover_language_servers(resolved: &Vec<Option<Vec<u8>>>) -> (found: Vec<
    DiscoveredLanguageServer,
>)
    ensures
        discovered_of(found@) == discovered(
            options_of(resolved@),
            known_servers().len() as int,
        ),
{
    let known = known_language_servers();
    let mut found: Vec<DiscoveredLanguageServer> = Vec::new();
    let ghost paths = options_of(resolved@);
    let mut i: usize = 0;
    assert(discovered_of(found@) =~= Seq::<Discovered>::empty());
    while i < known.len()
        invariant
            i <= known@.len(),
            servers_of(known@) == known_servers(),
            paths == options_of(resolved@),
            discovered_of(found@) == discovered(paths, i as int),
        decreases known@.len() - i,
    {
        let server = &known[i];
        assert(known_servers()[i as int] == server@);
        if i < resolved.len() {
            assert(paths[i as int] == bytes_option(resolved@[i as int]));
            if let Some(executable) = &resolved[i] {
                let ghost before = found@;
                let mut extensions: Vec<&'static str> = Vec::new();
                let mut j: usize = 0;
                while j < server.extensions.len()
                    invariant
                        j <= server.extensions@.len(),
                        extensions@ == server.extensions@.take(j as int),
                    decreases server.extensions@.len() - j,
                {
                    extensions.push(server.extensions[j]);
                    assert(extensions@ =~= server.extensions@.take(j + 1));
                    j += 1;
                }
                assert(extensions@ =~= server.extensions@);
                let item = DiscoveredLanguageServer {
                    name: server.name,
                    language_id: server.language_id,
                    extensions,
                    executable: copy_bytes(executable.as_slice()),
                    argv0: server.argv0,
                };
                found.push(item);
                assert(discovered_of(found@) =~= discovered_of(before).push(item@));
            }
        }
        i += 1;
    }
    assert(servers_of(known@).len() == known@.len());
    found
}

/// Extensions in quotes, with commas between them.
pub open spec fn quoted_extensions(extensions: Seq<&'static str>) -> Seq<char>
    decreases extensions.len(),
{
    if extensions.len() == 0 {
        Seq::empty()
    } else if extensions.len() == 1 {
        "\""@ + extensions[0]@ + "\""@
    } else {
        quoted_extensions(extensions.drop_last()) + ", "@ + "\""@ + extensions.last()@ + "\""@
    }
}

/// What is added for servers that need arguments.
pub open spec fn argument_hint(argv0: Seq<char>) -> Seq<char> {
    if argv0 == "typescript-language-server"@ {
        "# # argv = [\"typescript-language-server\", \"--stdio\"]\n"@
    } else if argv0 == "pyright-langserver"@ {
        "# # argv = [\"pyright-langserver\", \"--stdio\"]\n"@
    } else if argv0 == "bash-language-server"@ {
        "# # argv = [\"bash-language-server\", \"start\"]\n"@
    } else {
        Seq::empty()
    }
}

/// The lines for one server.
pub open spec fn snippet(server: Server) -> Seq<char> {
    "# [[language_servers]]\n# name = \""@ + server.name@ + "\"\n# extensions = ["@
        + quoted_extensions(server.extensions) + "]\n# language_id = \""@ + server.language_id@
        + "\"\n# argv = [\""@ + server.argv0@ + "\"]\n"@ + argument_hint(server.argv0@) + "\n"@
}

/// The lines for several servers.
pub open spec fn snippets(servers: Seq<Discovered>) -> Seq<char>
    decreases servers.len(),
{
    if servers.len() == 0 {
        "# Discovered on PATH (not auto-enabled). Uncomment to authorize:\n"@
    } else {
        snippets(servers.drop_last()) + snippet(servers.last().server)
    }
}

/// What is suggested for the configuration.
pub open spec fn suggestions(servers: Seq<Discovered>) -> Seq<char> {
    if servers.len() == 0 {
        "# No well-known language servers found on PATH.\n"@
    } else {
        snippets(servers)
    }
}

fn push_extensions(text: &mut String, extensions: &Vec<&'static str>)
    ensures
        final(text)@ == old(text)@ + quoted_extensions(extensions@),
{
    let ghost start = text@;
    let mut i: usize = 0;
    assert(text@ =~= start + quoted_extensions(extensions@.take(0)));
    while i < extensions.len()
        invariant
            i <= extensions@.len(),
            text@ == start + quoted_extensions(extensions@.take(i as int)),
        decreases extensions@.len() - i,
    {
        let ghost part = extensions@.take(i + 1);
        proof {
            assert(part.drop_last() =~= extensions@.take(i as int));
            assert(part.last() == extensions@[i as int]);
        }
        if i > 0 {
            text.push_str(", ");
        }
        text.push_str("\"");
        text.push_str(extensions[i]);
        text.push_str("\"");
        assert(text@ =~= start + quoted_extensions(part));
        i += 1;
    }
    assert(extensions@.take(i as int) =~= extensions@);
}

/// Format TOML snippets the operator can paste into the global config.
pub fn suggested_config_snippets(servers: &Vec<DiscoveredLanguageServer>) -> (text: String)
    ensures
        text@ == suggestions(discovered_of(servers@)),
{
    let mut text = String::new();
    let ghost all = discovered_of(servers@);
    if servers.len() == 0 {
        text.push_str("# No well-known language servers found on PATH.\n");
        assert(text@ =~= suggestions(all));
        return text;
    }
    text.push_str("# Discovered on PATH (not auto-enabled). Uncomment to authorize:\n");
    let mut i: usize = 0;
    assert(text@ =~= snippets(all.take(0)));
    while i < servers.len()
        invariant
            i <= servers@.len() == all.len(),
            all == discovered_of(servers@),
            text@ == snippets(all.take(i as int)),
        decreases servers@.len() - i,
    {
        let server = &servers[i];
        let ghost start = text@;
        proof {
            assert(all.take(i + 1).drop_last() =~= all.take(i as int));
            assert(all.take(i + 1).last() == server@);
        }
        text.push_str("# [[language_servers]]\n# name = \"");
        text.push_str(server.name);
        text.push_str("\"\n# extensions = [");
        push_extensions(&mut text, &server.extensions);
        text.push_str("]\n# language_id = \"");
        text.push_str(server.language_id);
        text.push_str("\"\n# argv = [\"");
        text.push_str(server.argv0);
        text.push_str("\"]\n");
        let ghost lines = text@;
        if same_text(server.argv0, "typescript-language-server") {
            text.push_str("# # argv = [\"typescript-language-server\", \"--stdio\"]\n");
        } else if same_text(server.argv0, "pyright-langserver") {
            text.push_str("# # argv = [\"pyright-langserver\", \"--stdio\"]\n");
        } else if same_text(server.argv0, "bash-language-server") {
            text.push_str("# # argv = [\"bash-language-server\", \"start\"]\n");
        }
        assert(text@ =~= lines + argument_hint(server.argv0@));
        text.push_str("\n");
        assert(text@ =~= start + snippet(server@.server));
        i += 1;
    }
    assert(all.take(i as int) =~= all);
    text
}

proof fn lemma_joined_with(directories: Seq<Seq<u8>>, name: Seq<u8>)
    ensures
        joined_with(directories, name) == directories.filter(
            |directory: Seq<u8>| directory.len() > 0,
        ).map_values(|directory: Seq<u8>| path_join(directory, name)),
    decreases directories.len(),
{
    reveal(Seq::filter);
    let keep = |directory: Seq<u8>| directory.len() > 0;
    let file = |directory: Seq<u8>| path_join(directory, name);
    if directories.len() == 0 {
        assert(directories.filter(keep).map_values(file) =~= Seq::<Seq<u8>>::empty());
    } else {
        lemma_joined_with(directories.drop_last(), name);
        let before = directories.drop_last().filter(keep);
        if directories.last().len() > 0 {
            assert(before.push(directories.last()).map_values(file) =~= before.map_values(file).push(
                file(directories.last()),
            ));
        }
    }
}

/// A command is looked for in each named directory, in their order; one with a
/// separator only where it says; and one that is empty or holds a zero nowhere.
pub proof fn law_candidates_follow_the_directories(command: Seq<char>, directories: Seq<Seq<u8>>)
    ensures
        candidates_of(command, directories) == if command.len() == 0 || command.contains('\0') {
            Seq::empty()
        } else if command.contains('/') || command.contains('\\') {
            seq![encode_utf8(command)]
        } else {
            directories.filter(|directory: Seq<u8>| directory.len() > 0).map_values(
                |directory: Seq<u8>| path_join(directory, encode_utf8(command)),
            )
        },
{
    lemma_joined_with(directories, encode_utf8(command));
}

/// A command is the first of its candidates that is executable, and none where
/// none is.
pub proof fn law_first_executable_is_taken(candidates: Seq<Seq<u8>>, executable: Seq<bool>)
    requires
        executable.len() == candidates.len(),
    ensures
        match first_executable(candidates, executable) {
            Some(found) => exists|i: int|
                0 <= i < candidates.len() && found == candidates[i] && #[trigger] executable[i] && (
                forall|k: int| 0 <= k < i ==> !#[trigger] executable[k]),
            None => forall|k: int| 0 <= k < candidates.len() ==> !#[trigger] executable[k],
        },
    decreases candidates.len(),
{
    if candidates.len() > 0 && !executable[0] {
        let rest = executable.drop_first();
        law_first_executable_is_taken(candidates.drop_first(), rest);
        match first_executable(candidates.drop_first(), rest) {
            Some(found) => {
                let i = choose|i: int|
                    0 <= i < candidates.drop_first().len() && found == candidates.drop_first()[i]
                        && #[trigger] rest[i] && (forall|k: int| 0 <= k < i ==> !#[trigger] rest[k]);
                assert(executable[i + 1]);
                assert forall|k: int| 0 <= k < i + 1 implies !#[trigger] executable[k] by {
                    if k > 0 {
                        assert(!rest[k - 1]);
                    }
                }
            },
            None => {
                assert forall|k: int| 0 <= k < candidates.len() implies !#[trigger] executable[k] by {
                    if k > 0 {
                        assert(!rest[k - 1]);
                    }
                }
            },
        }
    }
}

/// The discovered servers are the known ones that were resolved, in their order,
/// each with the file that was found for it.
pub proof fn law_discovered_servers_were_resolved(resolved: Seq<Option<Seq<u8>>>, upto: int)
    requires
        0 <= upto <= resolved.len(),
        upto <= known_servers().len(),
    ensures
        discovered(resolved, upto) == Seq::new(upto as nat, |i: int| i).filter(
            |i: int| resolved[i] is Some,
        ).map_values(
            |i: int| Discovered { server: known_servers()[i], executable: resolved[i]->0 },
        ),
    decreases upto,
{
    reveal(Seq::filter);
    let keep = |i: int| resolved[i] is Some;
    let get = |i: int| Discovered { server: known_servers()[i], executable: resolved[i]->0 };
    let all = Seq::new(upto as nat, |i: int| i);
    if upto == 0 {
        assert(all.filter(keep).map_values(get) =~= Seq::<Discovered>::empty());
    } else {
        law_discovered_servers_were_resolved(resolved, upto - 1);
        let front = Seq::new((upto - 1) as nat, |i: int| i);
        assert(all.drop_last() =~= front);
        assert(all.last() == upto - 1);
        if resolved[upto - 1] is Some {
            assert(front.filter(keep).push(upto - 1).map_values(get) =~= front.filter(
                keep,
            ).map_values(get).push(get(upto - 1)));
        }
    }
}

} // verus!
