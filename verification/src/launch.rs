//! What the program decides while it starts: what to open, how to restore a
//! session, and how long to wait for input.
use vstd::prelude::*;

use crate::paths::{bytes_option, display_path, lossy_text};
use crate::text::{copy_text, decimal, push_decimal};

verus! {

/// The start of the starter configuration.
pub open spec fn default_config_head() -> Seq<char> {
    "# ~/.config/wscrpt/config.toml\ntab_width = 4\ninsert_spaces = true\nline_numbers = true\nmouse = false\nscroll_margin = 3\nosc52_copy = true\n# When true, Save requests LSP document formatting before writing to disk.\nformat_on_save = false\n\n# Language servers are launched only from this user-owned global config.\n# `wscrpt --health` reports well-known servers found on PATH; it never auto-enables\n# them. Uncomment an entry only after installing and choosing the executable.\n\n"@
}

/// The starter configuration, with snippets for discovered language servers.
pub fn default_config_text(snippets: &str) -> (text: String)
    ensures
        text@ == default_config_head() + snippets@,
{
    let mut text = copy_text(
        "# ~/.config/wscrpt/config.toml\ntab_width = 4\ninsert_spaces = true\nline_numbers = true\nmouse = false\nscroll_margin = 3\nosc52_copy = true\n# When true, Save requests LSP document formatting before writing to disk.\nformat_on_save = false\n\n# Language servers are launched only from this user-owned global config.\n# `wscrpt --health` reports well-known servers found on PATH; it never auto-enables\n# them. Uncomment an entry only after installing and choosing the executable.\n\n",
    );
    text.push_str(snippets);
    text
}

/// The file and the workspace root to open. A directory is the root.
pub fn launch_paths(
    path: Option<Vec<u8>>,
    path_is_directory: bool,
    explicit_root: Option<Vec<u8>>,
) -> (result: Result<(Option<Vec<u8>>, Option<Vec<u8>>), String>)
    ensures
        match result {
            Ok((file, root)) => if path is Some && path_is_directory {
                explicit_root is None && file is None && bytes_option(root) == bytes_option(path)
            } else {
                bytes_option(file) == bytes_option(path) && bytes_option(root) == bytes_option(
                    explicit_root,
                )
            },
            Err(reason) => path is Some && path_is_directory && explicit_root is Some && reason@
                == "pass either a workspace directory or --project, not both"@,
        },
{
    if path.is_some() && path_is_directory {
        if explicit_root.is_some() {
            return Err(copy_text("pass either a workspace directory or --project, not both"));
        }
        return Ok((None, path));
    }
    Ok((path, explicit_root))
}

/// What part of a document is shown.
#[derive(Clone, Copy, Debug, PartialEq, Eq, Structural)]
pub struct ViewportState {
    pub top_line: usize,
    pub top_wrap_char: usize,
    pub left_column: usize,
}

/// The cursor, the selection anchor and the viewport of an open file.
#[derive(Clone, Copy, Debug, PartialEq, Eq)]
pub struct EditorState {
    pub cursor: usize,
    pub anchor: Option<usize>,
    pub viewport: ViewportState,
}

/// The smaller of two numbers.
pub open spec fn at_most(n: usize, bound: int) -> usize {
    if n <= bound {
        n
    } else {
        bound as usize
    }
}

/// The last line that can be on top.
pub open spec fn last_line(line_count: usize) -> int {
    if line_count == 0 {
        0
    } else {
        line_count - 1
    }
}

/// The line that is shown on top of a document with so many lines.
pub fn restored_top_line(top_line: usize, line_count: usize) -> (line: usize)
    ensures
        line == at_most(top_line, last_line(line_count)),
{
    let last = line_count.saturating_sub(1);
    if top_line <= last {
        top_line
    } else {
        last
    }
}

/// The state of an editor for a document that may have changed since: nothing
/// points behind its end. The bounds are those of the line on top.
pub fn restored_state(
    state: EditorState,
    len_chars: usize,
    line_count: usize,
    line_start: usize,
    line_end: usize,
) -> (restored: EditorState)
    ensures
        restored == (EditorState {
            cursor: at_most(state.cursor, len_chars as int),
            anchor: match state.anchor {
                Some(anchor) => if anchor <= len_chars {
                    Some(anchor)
                } else {
                    None
                },
                None => None,
            },
            viewport: ViewportState {
                top_line: at_most(state.viewport.top_line, last_line(line_count)),
                top_wrap_char: at_most(
                    state.viewport.top_wrap_char,
                    if line_start <= line_end {
                        line_end - line_start
                    } else {
                        0
                    },
                ),
                left_column: state.viewport.left_column,
            },
        }),
{
    let width = line_end.saturating_sub(line_start);
    EditorState {
        cursor: if state.cursor <= len_chars {
            state.cursor
        } else {
            len_chars
        },
        anchor: match state.anchor {
            Some(anchor) => {
                if anchor <= len_chars {
                    Some(anchor)
                } else {
                    None
                }
            },
            None => None,
        },
        viewport: ViewportState {
            top_line: restored_top_line(state.viewport.top_line, line_count),
            top_wrap_char: if state.viewport.top_wrap_char <= width {
                state.viewport.top_wrap_char
            } else {
                width
            },
            left_column: state.viewport.left_column,
        },
    }
}

/// How many files could not be opened.
pub open spec fn skipped_count(opened: Seq<Option<usize>>) -> nat
    decreases opened.len(),
{
    if opened.len() == 0 {
        0
    } else {
        skipped_count(opened.drop_last()) + if opened.last() is None {
            1nat
        } else {
            0nat
        }
    }
}

/// Which buffer becomes active, and how many files were skipped, where each
/// file of a session was opened as a buffer or not at all.
pub fn restored_buffers(opened: &Vec<Option<usize>>, active_index: usize) -> (result: (
    Option<usize>,
    usize,
))
    ensures
        result.0 == (if active_index < opened@.len() {
            opened@[active_index as int]
        } else {
            None
        }),
        result.1 == skipped_count(opened@),
{
    let mut skipped: usize = 0;
    let mut i: usize = 0;
    assert(opened@.take(0) =~= Seq::<Option<usize>>::empty());
    while i < opened.len()
        invariant
            i <= opened@.len(),
            skipped <= i,
            skipped == skipped_count(opened@.take(i as int)),
        decreases opened@.len() - i,
    {
        proof {
            assert(opened@.take(i + 1).drop_last() =~= opened@.take(i as int));
            assert(opened@.take(i + 1).last() == opened@[i as int]);
        }
        if opened[i].is_none() {
            skipped += 1;
        }
        i += 1;
    }
    assert(opened@.take(i as int) =~= opened@);
    let active = if active_index < opened.len() {
        opened[active_index]
    } else {
        None
    };
    (active, skipped)
}

/// What is said about a restored workspace.
pub open spec fn restored_words(root: Seq<u8>, skipped: usize) -> Seq<char> {
    if skipped == 0 {
        "Restored workspace "@ + lossy_text(root)
    } else {
        "Restored workspace "@ + lossy_text(root) + "; skipped "@ + decimal(skipped as nat)
            + " unavailable file"@ + (if skipped == 1 {
            ""@
        } else {
            "s"@
        })
    }
}

/// What is said about a restored workspace, and whether it is a warning.
pub fn restored_notice(root: &[u8], skipped: usize) -> (notice: (String, bool))
    ensures
        notice.0@ == restored_words(root@, skipped),
        notice.1 == (skipped > 0),
{
    let mut words = copy_text("Restored workspace ");
    words.push_str(display_path(root).as_str());
    if skipped > 0 {
        words.push_str("; skipped ");
        push_decimal(&mut words, skipped as u64);
        words.push_str(" unavailable file");
        if skipped != 1 {
            words.push_str("s");
        } else {
            words.push_str("");
        }
    }
    assert(words@ =~= restored_words(root@, skipped));
    (words, skipped > 0)
}

/// What is said where the root of a session is gone.
pub fn missing_root_notice(root: &[u8]) -> (words: String)
    ensures
        words@ == "workspace root no longer exists: "@ + lossy_text(root@),
{
    let mut words = copy_text("workspace root no longer exists: ");
    words.push_str(display_path(root).as_str());
    words
}

/// Least time between two frames, in microseconds.
pub const MIN_FRAME_MICROS: u64 = 16_000;

/// How long to wait for input when nothing is going on, in microseconds.
pub const IDLE_POLL_MICROS: u64 = 100_000;

/// How long to wait for input when something is going on, in microseconds.
pub const ACTIVE_POLL_MICROS: u64 = 20_000;

/// How many events are taken in one wake.
pub const MAX_EVENTS_PER_WAKE: usize = 64;

/// Whether a frame is painted now: it is wanted, and the last one is old enough.
pub fn paints_now(redraw: bool, since_frame_micros: u64) -> (yes: bool)
    ensures
        yes == (redraw && since_frame_micros >= MIN_FRAME_MICROS),
{
    redraw && since_frame_micros >= MIN_FRAME_MICROS
}

/// How long to wait for input: not beyond the time at which a wanted frame may
/// be painted.
pub fn poll_timeout(frequent: bool, redraw: bool, since_frame_micros: u64) -> (micros: u64)
    ensures
        ({
            let usual = if frequent {
                ACTIVE_POLL_MICROS
            } else {
                IDLE_POLL_MICROS
            };
            let wait = if since_frame_micros < MIN_FRAME_MICROS {
                MIN_FRAME_MICROS - since_frame_micros
            } else {
                0
            };
            micros == (if redraw && wait < usual {
                wait
            } else {
                usual as int
            })
        }),
{
    let usual = if frequent {
        ACTIVE_POLL_MICROS
    } else {
        IDLE_POLL_MICROS
    };
    let wait = MIN_FRAME_MICROS.saturating_sub(since_frame_micros);
    if redraw && wait < usual {
        wait
    } else {
        usual
    }
}

} // verus!
