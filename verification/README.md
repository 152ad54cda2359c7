# wscrpt

The logic of a remote-first terminal editor, written in Rust and proved with
Verus: project index and fuzzy quick open, literal and regular-expression
search, crash-recovery journals, and a bounded client for the Language Server
Protocol.

## Layout

- `src/` is the library. Every public function states what it returns in an
  `ensures` clause over mathematical models, and Verus proves it. What several functions
  promise together stands in proof functions whose names begin with `law_`.
- `tests/` runs the library.
- `app/` is the program around it: arguments, files, threads, processes and the
  terminal.

## Modules

| Modules | Subject |
| --- | --- |
| `json`, `json_parse`, `json_write`, `json_laws` | Lossless JSON: model, strict parser, canonical writer, and that each undoes the other |
| `lsp`, `lsp_types`, `file_uri` | Positions in UTF-16 units, the types of the protocol, local file URIs |
| `lsp_command`, `lsp_frame`, `lsp_queue`, `lsp_tables` | Outgoing commands, framing, queues with a byte budget, open documents and pending requests |
| `lsp_protocol`, `lsp_client` | The protocol as a step from an input to actions, and the client's operations |
| `lsp_session`, `diagnostic_cache`, `recency` | Bounded stores of documents and diagnostics that evict what was used least recently |
| `lsp_ui`, `lsp_edits`, `edit_laws` | Server payloads as editor values, and edits applied to a text |
| `project`, `walk_laws`, `quick_open`, `fuzzy`, `order` | The workspace walk, its index, and ranking |
| `pattern`, `find`, `search` | Patterns, case folding, and search over the files of an index |
| `recovery`, `recovery_laws`, `services`, `onboarding`, `launch`, `lsp_discover`, `health`, `input_diagnostics` | Journals, background results, startup and diagnostics |
| `text`, `paths` | Unicode text and byte paths |

## What is taken on trust

Calls into `regex` and `ropey`, and a few functions of the standard library that
have no specification of their own, stand behind small functions marked
`external_body`. Each says in its doc comment what is claimed of the call.
