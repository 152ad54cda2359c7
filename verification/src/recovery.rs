//! Crash-recovery journals for unsaved editor buffers: what a record must hold,
//! where its journal stands, and what a scan of the journals gives.
use vstd::prelude::*;
use vstd::utf8::*;

use crate::fuzzy::ends_with;
use crate::json_parse::{debug_quoted, debug_text};
use crate::order::{sort, sorted_by, views, Order};
use crate::paths::{
    bytes_option, copy_bytes, copy_option, display_path, is_absolute, is_same_path,
    is_same_path_option, join, lossy_text, nonempty, path_join, same_path, same_path_option,
    starts_at_root, text_from_utf8,
};
use crate::text::{
    byte_len, chars_of, copy_text, decimal, lemma_text_order_total, lemma_text_order_transitive,
    lemma_utf8_len_push, order_of, push_decimal, same_text, text_before, text_of, utf8_len,
    TextOrder,
};

verus! {

/// On-disk schema version understood by this build.
pub const RECOVERY_FORMAT_VERSION: u32 = 1;

/// Longest journal ID.
pub const MAX_ID_BYTES: usize = 128;

/// How often another name is tried for a temporary file.
pub const TEMP_CREATE_ATTEMPTS: usize = 32;

/// Maximum encoded size of one recovery journal.
///
/// Recovery snapshots contain complete buffers, so this is deliberately larger
/// than the normal session file limit while still preventing an unbounded read
/// during startup.
pub const MAX_RECOVERY_JOURNAL_BYTES: u64 = 128 * 1024 * 1024;

/// Maximum number of directory entries inspected by one recovery scan.
pub const MAX_RECOVERY_DIRECTORY_ENTRIES: usize = 4_096;

/// Maximum aggregate encoded journal bytes considered by one recovery scan.
pub const MAX_RECOVERY_LIST_BYTES: u64 = 256 * 1024 * 1024;

/// Errors produced by recovery path resolution, serialization, and storage.
#[derive(Clone, Debug, PartialEq, Eq)]
pub enum RecoveryError {
    /// Neither a valid absolute XDG state root nor an absolute home was found.
    StateDirectoryUnavailable,
    /// An explicit store path exists but is not a real directory.
    InvalidStateDirectory(Vec<u8>),
    /// The ID cannot safely be used as a single filename component.
    InvalidId(String),
    /// A journal path exists but is not a regular file.
    InvalidJournalFile(Vec<u8>),
    /// A journal exceeds the bounded encoded-size limit.
    JournalTooLarge { path: Vec<u8>, limit: u64 },
    /// A journal is not valid UTF-8.
    InvalidUtf8(Vec<u8>),
    /// The record is structurally valid but violates recovery invariants.
    InvalidRecord(String),
    /// The record belongs to an on-disk schema this build does not understand.
    UnsupportedVersion { found: u32, supported: u32 },
    /// A filesystem operation failed.
    Io { operation: String, path: Vec<u8>, cause: String, not_found: bool },
    /// Serialization failed.
    Encode(String),
    /// Deserialization failed.
    Decode { path: Vec<u8>, cause: String },
}

/// The content of a [`RecoveryError`].
#[verifier::ext_equal]
pub enum RecoveryFault {
    StateDirectoryUnavailable,
    InvalidStateDirectory(Seq<u8>),
    InvalidId(Seq<char>),
    InvalidJournalFile(Seq<u8>),
    JournalTooLarge { path: Seq<u8>, limit: u64 },
    InvalidUtf8(Seq<u8>),
    InvalidRecord(Seq<char>),
    UnsupportedVersion { found: u32, supported: u32 },
    Io { operation: Seq<char>, path: Seq<u8>, cause: Seq<char>, not_found: bool },
    Encode(Seq<char>),
    Decode { path: Seq<u8>, cause: Seq<char> },
}

impl View for RecoveryError {
    type V = RecoveryFault;

    open spec fn view(&self) -> RecoveryFault {
        match self {
            RecoveryError::StateDirectoryUnavailable => RecoveryFault::StateDirectoryUnavailable,
            RecoveryError::InvalidStateDirectory(path) => RecoveryFault::InvalidStateDirectory(
                path@,
            ),
            RecoveryError::InvalidId(id) => RecoveryFault::InvalidId(id@),
            RecoveryError::InvalidJournalFile(path) => RecoveryFault::InvalidJournalFile(path@),
            RecoveryError::JournalTooLarge { path, limit } => RecoveryFault::JournalTooLarge {
                path: path@,
                limit: *limit,
            },
            RecoveryError::InvalidUtf8(path) => RecoveryFault::InvalidUtf8(path@),
            RecoveryError::InvalidRecord(reason) => RecoveryFault::InvalidRecord(reason@),
            RecoveryError::UnsupportedVersion { found, supported } =>
                RecoveryFault::UnsupportedVersion { found: *found, supported: *supported },
            RecoveryError::Io { operation, path, cause, not_found } => RecoveryFault::Io {
                operation: operation@,
                path: path@,
                cause: cause@,
                not_found: *not_found,
            },
            RecoveryError::Encode(cause) => RecoveryFault::Encode(cause@),
            RecoveryError::Decode { path, cause } => RecoveryFault::Decode {
                path: path@,
                cause: cause@,
            },
        }
    }
}

/// The words for a recovery error.
pub open spec fn recovery_words(fault: RecoveryFault) -> Seq<char> {
    match fault {
        RecoveryFault::StateDirectoryUnavailable =>
            "could not resolve recovery state directory: XDG_STATE_HOME and HOME are unavailable or invalid"@,
        RecoveryFault::InvalidStateDirectory(path) => "recovery path is not a real directory: "@
            + lossy_text(path),
        RecoveryFault::InvalidId(id) => "invalid recovery journal ID "@ + debug_text(id),
        RecoveryFault::InvalidJournalFile(path) => "recovery journal is not a regular file: "@
            + lossy_text(path),
        RecoveryFault::JournalTooLarge { path, limit } => "recovery journal "@ + lossy_text(path)
            + " exceeds the "@ + decimal(limit as nat) + "-byte limit"@,
        RecoveryFault::InvalidUtf8(path) => "recovery journal is not valid UTF-8: "@ + lossy_text(
            path,
        ),
        RecoveryFault::InvalidRecord(reason) => "invalid recovery record: "@ + reason,
        RecoveryFault::UnsupportedVersion { found, supported } =>
            "unsupported recovery format version "@ + decimal(found as nat)
            + "; this build supports version "@ + decimal(supported as nat),
        RecoveryFault::Io { operation, path, cause, .. } => "could not "@ + operation + " "@
            + lossy_text(path) + ": "@ + cause,
        RecoveryFault::Encode(cause) => "could not encode recovery journal: "@ + cause,
        RecoveryFault::Decode { path, cause } => "could not decode recovery journal "@ + lossy_text(
            path,
        ) + ": "@ + cause,
    }
}

impl RecoveryError {
    /// What the error says.
    pub fn describe(&self) -> (words: String)
        ensures
            words@ == recovery_words(self@),
    {
        let mut words = String::new();
        match self {
            RecoveryError::StateDirectoryUnavailable => {
                words.push_str(
                    "could not resolve recovery state directory: XDG_STATE_HOME and HOME are unavailable or invalid",
                );
            },
            RecoveryError::InvalidStateDirectory(path) => {
                words.push_str("recovery path is not a real directory: ");
                words.push_str(display_path(path.as_slice()).as_str());
            },
            RecoveryError::InvalidId(id) => {
                words.push_str("invalid recovery journal ID ");
                words.push_str(debug_quoted(id.as_str()).as_str());
            },
            RecoveryError::InvalidJournalFile(path) => {
                words.push_str("recovery journal is not a regular file: ");
                words.push_str(display_path(path.as_slice()).as_str());
            },
            RecoveryError::JournalTooLarge { path, limit } => {
                words.push_str("recovery journal ");
                words.push_str(display_path(path.as_slice()).as_str());
                words.push_str(" exceeds the ");
                push_decimal(&mut words, *limit);
                words.push_str("-byte limit");
            },
            RecoveryError::InvalidUtf8(path) => {
                words.push_str("recovery journal is not valid UTF-8: ");
                words.push_str(display_path(path.as_slice()).as_str());
            },
            RecoveryError::InvalidRecord(reason) => {
                words.push_str("invalid recovery record: ");
                words.push_str(reason.as_str());
            },
            RecoveryError::UnsupportedVersion { found, supported } => {
                words.push_str("unsupported recovery format version ");
                push_decimal(&mut words, *found as u64);
                words.push_str("; this build supports version ");
                push_decimal(&mut words, *supported as u64);
            },
            RecoveryError::Io { operation, path, cause, .. } => {
                words.push_str("could not ");
                words.push_str(operation.as_str());
                words.push_str(" ");
                words.push_str(display_path(path.as_slice()).as_str());
                words.push_str(": ");
                words.push_str(cause.as_str());
            },
            RecoveryError::Encode(cause) => {
                words.push_str("could not encode recovery journal: ");
                words.push_str(cause.as_str());
            },
            RecoveryError::Decode { path, cause } => {
                words.push_str("could not decode recovery journal ");
                words.push_str(display_path(path.as_slice()).as_str());
                words.push_str(": ");
                words.push_str(cause.as_str());
            },
        }
        assert(words@ =~= recovery_words(self@));
        words
    }
}

/// Whether a scalar value may stand in a journal ID.
pub open spec fn is_id_char(c: char) -> bool {
    ('0' <= c && c <= '9') || ('A' <= c && c <= 'Z') || ('a' <= c && c <= 'z') || c == '-' || c
        == '_'
}

/// Whether a text is a safe filename component: not empty, bounded, and without
/// anything but letters, digits, hyphens and underscores.
pub open spec fn valid_id(id: Seq<char>) -> bool {
    &&& 0 < id.len()
    &&& utf8_len(id) <= MAX_ID_BYTES
    &&& forall|i: int| 0 <= i < id.len() ==> is_id_char(#[trigger] id[i])
}

/// Checks that a text is a safe journal ID.
pub fn validate_id(id: &str) -> (result: Result<(), RecoveryError>)
    ensures
        match result {
            Ok(()) => valid_id(id@),
            Err(error) => !valid_id(id@) && error@ == RecoveryFault::InvalidId(id@),
        },
{
    let chars = chars_of(id);
    if chars.len() == 0 || byte_len(id) > MAX_ID_BYTES {
        return Err(RecoveryError::InvalidId(copy_text(id)));
    }
    let mut i: usize = 0;
    while i < chars.len()
        invariant
            i <= chars@.len(),
            chars@ == id@,
            forall|k: int| 0 <= k < i ==> is_id_char(#[trigger] chars@[k]),
        decreases chars@.len() - i,
    {
        let c = chars[i];
        if !(('0' <= c && c <= '9') || ('A' <= c && c <= 'Z') || ('a' <= c && c <= 'z') || c == '-'
            || c == '_') {
            assert(!is_id_char(id@[i as int]));
            return Err(RecoveryError::InvalidId(copy_text(id)));
        }
        i += 1;
    }
    Ok(())
}

/// A complete snapshot of one dirty UTF-8 buffer.
///
/// Cursor and anchor are character indices rather than UTF-8 byte offsets.
/// `saved_revision == Some(revision)` describes a clean buffer and is rejected.
/// `None` is useful for a new untitled buffer that has never had a saved
/// revision.
#[derive(Debug, Eq)]
pub struct RecoveryRecord {
    /// Schema version for forwards-compatible rejection of unknown formats.
    pub version: u32,
    /// Filesystem-safe identity used as the journal filename.
    pub id: String,
    /// Project root that was active when the snapshot was captured.
    pub workspace_root: Vec<u8>,
    /// File the buffer came from, or `None` for an untitled buffer.
    pub original_path: Option<Vec<u8>>,
    /// Complete normalized UTF-8 document contents.
    pub text: String,
    /// Cursor position as a Unicode scalar-value (character) index.
    pub cursor: usize,
    /// Selection anchor as a character index, when a selection is active.
    pub anchor: Option<usize>,
    /// Current document state/revision identifier.
    pub revision: u64,
    /// Last saved state/revision identifier, if the buffer has ever been saved.
    pub saved_revision: Option<u64>,
    /// Snapshot time in milliseconds since the Unix epoch.
    pub recorded_at_unix_millis: u64,
}

/// The content of a [`RecoveryRecord`].
#[verifier::ext_equal]
pub struct Snapshot {
    pub version: u32,
    pub id: Seq<char>,
    pub workspace_root: Seq<u8>,
    pub original_path: Option<Seq<u8>>,
    pub text: Seq<char>,
    pub cursor: usize,
    pub anchor: Option<usize>,
    pub revision: u64,
    pub saved_revision: Option<u64>,
    pub recorded_at_unix_millis: u64,
}

impl View for RecoveryRecord {
    type V = Snapshot;

    open spec fn view(&self) -> Snapshot {
        Snapshot {
            version: self.version,
            id: self.id@,
            workspace_root: self.workspace_root@,
            original_path: bytes_option(self.original_path),
            text: self.text@,
            cursor: self.cursor,
            anchor: self.anchor,
            revision: self.revision,
            saved_revision: self.saved_revision,
            recorded_at_unix_millis: self.recorded_at_unix_millis,
        }
    }
}

impl PartialEq for RecoveryRecord {
    fn eq(&self, other: &Self) -> (same: bool) {
        self.version == other.version && self.cursor == other.cursor && self.anchor == other.anchor
            && self.revision == other.revision && self.saved_revision == other.saved_revision
            && self.recorded_at_unix_millis == other.recorded_at_unix_millis && same_text(
            self.id.as_str(),
            other.id.as_str(),
        ) && same_text(self.text.as_str(), other.text.as_str()) && same_path(
            self.workspace_root.as_slice(),
            other.workspace_root.as_slice(),
        ) && same_path_option(&self.original_path, &other.original_path)
    }
}

impl vstd::std_specs::cmp::PartialEqSpecImpl for RecoveryRecord {
    open spec fn obeys_eq_spec() -> bool {
        true
    }

    open spec fn eq_spec(&self, other: &Self) -> bool {
        &&& self@.version == other@.version
        &&& self@.id == other@.id
        &&& is_same_path(self@.workspace_root, other@.workspace_root)
        &&& is_same_path_option(self@.original_path, other@.original_path)
        &&& self@.text == other@.text
        &&& self@.cursor == other@.cursor
        &&& self@.anchor == other@.anchor
        &&& self@.revision == other@.revision
        &&& self@.saved_revision == other@.saved_revision
        &&& self@.recorded_at_unix_millis == other@.recorded_at_unix_millis
    }
}

/// What a position behind the end of the text is answered.
pub open spec fn position_fault(what: Seq<char>, position: usize, length: nat) -> RecoveryFault {
    RecoveryFault::InvalidRecord(
        what + " "@ + decimal(position as nat) + " exceeds buffer length "@ + decimal(length),
    )
}

/// What is wrong with a record, if anything is.
pub open spec fn record_fault(record: Snapshot) -> Option<RecoveryFault> {
    if record.version != RECOVERY_FORMAT_VERSION {
        Some(
            RecoveryFault::UnsupportedVersion {
                found: record.version,
                supported: RECOVERY_FORMAT_VERSION,
            },
        )
    } else if !valid_id(record.id) {
        Some(RecoveryFault::InvalidId(record.id))
    } else if record.workspace_root.len() == 0 {
        Some(RecoveryFault::InvalidRecord("workspace_root must not be empty"@))
    } else if record.saved_revision == Some(record.revision) {
        Some(
            RecoveryFault::InvalidRecord("recovery journals may only contain dirty buffers"@),
        )
    } else if record.cursor > record.text.len() {
        Some(position_fault("cursor"@, record.cursor, record.text.len()))
    } else if record.anchor is Some && record.anchor->0 > record.text.len() {
        Some(position_fault("anchor"@, record.anchor->0, record.text.len()))
    } else {
        None
    }
}

fn position_error(what: &str, position: usize, length: usize) -> (error: RecoveryError)
    ensures
        error@ == position_fault(what@, position, length as nat),
{
    let mut reason = copy_text(what);
    reason.push_str(" ");
    push_decimal(&mut reason, position as u64);
    reason.push_str(" exceeds buffer length ");
    push_decimal(&mut reason, length as u64);
    assert(reason@ =~= what@ + " "@ + decimal(position as nat) + " exceeds buffer length "@
        + decimal(length as nat));
    RecoveryError::InvalidRecord(reason)
}

impl Clone for RecoveryRecord {
    fn clone(&self) -> (copy: Self)
        ensures
            copy@ == self@,
    {
        RecoveryRecord {
            version: self.version,
            id: self.id.clone(),
            workspace_root: copy_bytes(self.workspace_root.as_slice()),
            original_path: copy_option(&self.original_path),
            text: self.text.clone(),
            cursor: self.cursor,
            anchor: self.anchor,
            revision: self.revision,
            saved_revision: self.saved_revision,
            recorded_at_unix_millis: self.recorded_at_unix_millis,
        }
    }
}

impl RecoveryRecord {
    /// Build a new recovery record with a fresh safe ID and a timestamp.
    pub fn new(
        id: String,
        recorded_at_unix_millis: u64,
        workspace_root: Vec<u8>,
        original_path: Option<Vec<u8>>,
        text: String,
        cursor: usize,
        anchor: Option<usize>,
        revision: u64,
        saved_revision: Option<u64>,
    ) -> (record: Self)
        ensures
            record@ == (Snapshot {
                version: RECOVERY_FORMAT_VERSION,
                id: id@,
                workspace_root: workspace_root@,
                original_path: bytes_option(original_path),
                text: text@,
                cursor,
                anchor,
                revision,
                saved_revision,
                recorded_at_unix_millis,
            }),
    {
        RecoveryRecord {
            version: RECOVERY_FORMAT_VERSION,
            id,
            workspace_root,
            original_path,
            text,
            cursor,
            anchor,
            revision,
            saved_revision,
            recorded_at_unix_millis,
        }
    }

    /// Refresh the timestamp before replacing an existing journal snapshot.
    pub fn mark_recorded_now(&mut self, now_unix_millis: u64)
        ensures
            final(self)@ == (Snapshot { recorded_at_unix_millis: now_unix_millis, ..old(self)@ }),
    {
        self.recorded_at_unix_millis = now_unix_millis;
    }

    /// Validate invariants required for a safe, recoverable dirty-buffer record.
    pub fn validate(&self) -> (result: Result<(), RecoveryError>)
        ensures
            match result {
                Ok(()) => record_fault(self@) is None,
                Err(error) => record_fault(self@) == Some(error@),
            },
    {
        if self.version != RECOVERY_FORMAT_VERSION {
            return Err(
                RecoveryError::UnsupportedVersion {
                    found: self.version,
                    supported: RECOVERY_FORMAT_VERSION,
                },
            );
        }
        if let Err(error) = validate_id(self.id.as_str()) {
            return Err(error);
        }
        if self.workspace_root.len() == 0 {
            return Err(
                RecoveryError::InvalidRecord(copy_text("workspace_root must not be empty")),
            );
        }
        if let Some(saved) = self.saved_revision {
            if saved == self.revision {
                return Err(
                    RecoveryError::InvalidRecord(
                        copy_text("recovery journals may only contain dirty buffers"),
                    ),
                );
            }
        }
        let chars = chars_of(self.text.as_str());
        if self.cursor > chars.len() {
            return Err(position_error("cursor", self.cursor, chars.len()));
        }
        if let Some(anchor) = self.anchor {
            if anchor > chars.len() {
                return Err(position_error("anchor", anchor, chars.len()));
            }
        }
        Ok(())
    }
}

/// Where journals stand: under an absolute `$XDG_STATE_HOME`, or else under an
/// absolute `$HOME`.
pub open spec fn recovery_location(xdg: Option<Seq<u8>>, home: Option<Seq<u8>>) -> Option<Seq<u8>> {
    let root = match nonempty(xdg) {
        Some(value) => if is_absolute(value) {
            Some(value)
        } else {
            None
        },
        None => None,
    };
    match root {
        Some(value) => Some(
            path_join(path_join(value, encode_utf8("wscrpt"@)), encode_utf8("recovery"@)),
        ),
        None => match nonempty(home) {
            Some(value) => if is_absolute(value) {
                Some(
                    path_join(
                        path_join(
                            path_join(value, encode_utf8(".local/state"@)),
                            encode_utf8("wscrpt"@),
                        ),
                        encode_utf8("recovery"@),
                    ),
                )
            } else {
                None
            },
            None => None,
        },
    }
}

/// Resolve `$XDG_STATE_HOME/wscrpt/recovery`, falling back to
/// `$HOME/.local/state/wscrpt/recovery`. Relative and empty values are ignored.
pub fn recovery_dir_from(xdg_state_home: Option<Vec<u8>>, home: Option<Vec<u8>>) -> (result: Result<
    Vec<u8>,
    RecoveryError,
>)
    ensures
        match result {
            Ok(path) => recovery_location(bytes_option(xdg_state_home), bytes_option(home)) == Some(
                path@,
            ),
            Err(error) => recovery_location(bytes_option(xdg_state_home), bytes_option(home)) is None
                && error@ == RecoveryFault::StateDirectoryUnavailable,
        },
{
    if let Some(root) = &xdg_state_home {
        if starts_at_root(root.as_slice()) {
            let application = join(root.as_slice(), "wscrpt");
            return Ok(join(application.as_slice(), "recovery"));
        }
    }
    if let Some(root) = &home {
        if starts_at_root(root.as_slice()) {
            let state = join(root.as_slice(), ".local/state");
            let application = join(state.as_slice(), "wscrpt");
            return Ok(join(application.as_slice(), "recovery"));
        }
    }
    Err(RecoveryError::StateDirectoryUnavailable)
}

/// The digits of hexadecimal numbers.
pub open spec fn hex_digits() -> Seq<char> {
    seq!['0', '1', '2', '3', '4', '5', '6', '7', '8', '9', 'a', 'b', 'c', 'd', 'e', 'f']
}

/// The last `width` hexadecimal digits of a number.
pub open spec fn hex(n: nat, width: nat) -> Seq<char>
    decreases width,
{
    if width == 0 {
        Seq::empty()
    } else {
        hex(n / 16, (width - 1) as nat).push(hex_digits()[(n % 16) as int])
    }
}

/// How many numbers `width` hexadecimal digits can tell apart.
pub open spec fn hex_range(width: nat) -> nat
    decreases width,
{
    if width == 0 {
        1
    } else {
        16 * hex_range((width - 1) as nat)
    }
}

fn push_hex(out: &mut String, n: u64, width: usize)
    ensures
        final(out)@ == old(out)@ + hex(n as nat, width as nat),
    decreases width,
{
    if width == 0 {
        assert(out@ =~= old(out)@ + hex(n as nat, 0));
        return;
    }
    push_hex(out, n / 16, width - 1);
    let digit = n % 16;
    let c = if digit == 0 {
        '0'
    } else if digit == 1 {
        '1'
    } else if digit == 2 {
        '2'
    } else if digit == 3 {
        '3'
    } else if digit == 4 {
        '4'
    } else if digit == 5 {
        '5'
    } else if digit == 6 {
        '6'
    } else if digit == 7 {
        '7'
    } else if digit == 8 {
        '8'
    } else if digit == 9 {
        '9'
    } else if digit == 10 {
        'a'
    } else if digit == 11 {
        'b'
    } else if digit == 12 {
        'c'
    } else if digit == 13 {
        'd'
    } else if digit == 14 {
        'e'
    } else {
        'f'
    };
    assert(c == hex_digits()[(n as nat % 16) as int]);
    out.push(c);
    assert(out@ =~= old(out)@ + hex(n as nat, width as nat));
}

proof fn lemma_hex(n: nat, width: nat)
    ensures
        hex(n, width).len() == width,
        forall|i: int| 0 <= i < width ==> is_id_char(#[trigger] hex(n, width)[i]),
    decreases width,
{
    if width > 0 {
        lemma_hex(n / 16, (width - 1) as nat);
        let c = hex_digits()[(n % 16) as int];
        assert(hex_digits().len() == 16);
        assert(is_id_char(c));
        assert forall|i: int| 0 <= i < width implies is_id_char(#[trigger] hex(n, width)[i]) by {
            if i < width - 1 {
                assert(hex(n, width)[i] == hex(n / 16, (width - 1) as nat)[i]);
            }
        }
    }
}

proof fn lemma_hex_injective(a: nat, b: nat, width: nat)
    requires
        a < hex_range(width),
        b < hex_range(width),
        hex(a, width) == hex(b, width),
    ensures
        a == b,
    decreases width,
{
    if width > 0 {
        lemma_hex(a / 16, (width - 1) as nat);
        lemma_hex(b / 16, (width - 1) as nat);
        let x = hex(a, width);
        let y = hex(b, width);
        assert(x.drop_last() =~= hex(a / 16, (width - 1) as nat));
        assert(y.drop_last() =~= hex(b / 16, (width - 1) as nat));
        assert(x.last() == y.last());
        assert(a % 16 == b % 16) by {
            let i = (a % 16) as int;
            let j = (b % 16) as int;
            let digits = hex_digits();
            assert(digits[i] == digits[j]);
            assert(forall|m: int, n: int|
                0 <= m < 16 && 0 <= n < 16 && digits[m] == digits[n] ==> m == n);
        }
        lemma_hex_injective(a / 16, b / 16, (width - 1) as nat);
    }
}

/// What a journal ID is made of.
#[derive(Clone, Copy, Debug, PartialEq, Eq, Structural)]
pub struct IdParts {
    pub seconds: u64,
    pub nanoseconds: u32,
    pub process: u32,
    pub sequence: u64,
}

/// The ID for a time, a process and a sequence number.
pub open spec fn id_of(parts: IdParts) -> Seq<char> {
    "r-"@ + hex(parts.seconds as nat, 16) + "-"@ + hex(parts.nanoseconds as nat, 8) + "-"@ + hex(
        parts.process as nat,
        8,
    ) + "-"@ + hex(parts.sequence as nat, 16)
}

/// Create an opaque filename-safe journal ID.
pub fn generate_id(parts: IdParts) -> (id: String)
    ensures
        id@ == id_of(parts),
{
    let mut id = copy_text("r-");
    push_hex(&mut id, parts.seconds, 16);
    id.push_str("-");
    push_hex(&mut id, parts.nanoseconds as u64, 8);
    id.push_str("-");
    push_hex(&mut id, parts.process as u64, 8);
    id.push_str("-");
    push_hex(&mut id, parts.sequence, 16);
    assert(id@ =~= id_of(parts));
    id
}

/// Every generated ID is a safe filename component, and its parts can be told
/// from where they stand.
pub proof fn law_generated_ids_are_safe(parts: IdParts)
    ensures
        valid_id(id_of(parts)),
{
    let id = id_of(parts);
    reveal_strlit("r-");
    reveal_strlit("-");
    lemma_hex(parts.seconds as nat, 16);
    lemma_hex(parts.nanoseconds as nat, 8);
    lemma_hex(parts.process as nat, 8);
    lemma_hex(parts.sequence as nat, 16);
    assert(id.len() == 53);
    assert forall|i: int| 0 <= i < id.len() implies is_id_char(#[trigger] id[i]) by {
        if 2 <= i < 18 {
            assert(id[i] == hex(parts.seconds as nat, 16)[i - 2]);
        } else if 19 <= i < 27 {
            assert(id[i] == hex(parts.nanoseconds as nat, 8)[i - 19]);
        } else if 28 <= i < 36 {
            assert(id[i] == hex(parts.process as nat, 8)[i - 28]);
        } else if 37 <= i < 53 {
            assert(id[i] == hex(parts.sequence as nat, 16)[i - 37]);
        }
    }
    lemma_ascii_len(id);
}

pub proof fn lemma_ascii_len(id: Seq<char>)
    requires
        forall|i: int| 0 <= i < id.len() ==> is_id_char(#[trigger] id[i]),
    ensures
        utf8_len(id) == id.len(),
    decreases id.len(),
{
    if id.len() > 0 {
        crate::text::lemma_utf8_len_cons(id);
        let rest = id.drop_first();
        assert forall|i: int| 0 <= i < rest.len() implies is_id_char(#[trigger] rest[i]) by {
            assert(rest[i] == id[i + 1]);
        }
        lemma_ascii_len(rest);
    }
}

/// IDs with different parts differ.
pub proof fn law_generated_ids_differ(a: IdParts, b: IdParts)
    requires
        a != b,
    ensures
        id_of(a) != id_of(b),
{
    reveal_strlit("r-");
    reveal_strlit("-");
    lemma_hex(a.seconds as nat, 16);
    lemma_hex(a.nanoseconds as nat, 8);
    lemma_hex(a.process as nat, 8);
    lemma_hex(a.sequence as nat, 16);
    lemma_hex(b.seconds as nat, 16);
    lemma_hex(b.nanoseconds as nat, 8);
    lemma_hex(b.process as nat, 8);
    lemma_hex(b.sequence as nat, 16);
    reveal_with_fuel(hex_range, 17);
    if id_of(a) == id_of(b) {
        let x = id_of(a);
        let y = id_of(b);
        assert(x.subrange(2, 18) =~= hex(a.seconds as nat, 16));
        assert(y.subrange(2, 18) =~= hex(b.seconds as nat, 16));
        assert(x.subrange(19, 27) =~= hex(a.nanoseconds as nat, 8));
        assert(y.subrange(19, 27) =~= hex(b.nanoseconds as nat, 8));
        assert(x.subrange(28, 36) =~= hex(a.process as nat, 8));
        assert(y.subrange(28, 36) =~= hex(b.process as nat, 8));
        assert(x.subrange(37, 53) =~= hex(a.sequence as nat, 16));
        assert(y.subrange(37, 53) =~= hex(b.sequence as nat, 16));
        lemma_hex_injective(a.seconds as nat, b.seconds as nat, 16);
        lemma_hex_injective(a.nanoseconds as nat, b.nanoseconds as nat, 8);
        lemma_hex_injective(a.process as nat, b.process as nat, 8);
        lemma_hex_injective(a.sequence as nat, b.sequence as nat, 16);
    }
}

/// The name of a temporary journal file.
pub open spec fn temporary_name_of(id: Seq<char>, process: u32, sequence: u64) -> Seq<char> {
    "."@ + id + ".tmp-"@ + hex(process as nat, 8) + "-"@ + hex(sequence as nat, 16)
}

/// The name of a temporary journal file.
pub fn temporary_name(id: &str, process: u32, sequence: u64) -> (name: String)
    ensures
        name@ == temporary_name_of(id@, process, sequence),
{
    let mut name = copy_text(".");
    name.push_str(id);
    name.push_str(".tmp-");
    push_hex(&mut name, process as u64, 8);
    name.push_str("-");
    push_hex(&mut name, sequence, 16);
    assert(name@ =~= temporary_name_of(id@, process, sequence));
    name
}

/// Whether a filename ends like that of a journal.
pub open spec fn looks_like_journal(filename: Seq<u8>) -> bool {
    valid_utf8(filename) && ends_with(decode_utf8(filename), ".toml"@)
}

/// The ID in the filename of a journal.
pub open spec fn id_in_filename(filename: Seq<u8>) -> Option<Seq<char>> {
    let name = decode_utf8(filename);
    if looks_like_journal(filename) && valid_id(name.take(name.len() - 5)) {
        Some(name.take(name.len() - 5))
    } else {
        None
    }
}

/// The name without the journal extension, where it has one.
fn stem_of_journal(filename: &[u8]) -> (stem: Option<String>)
    ensures
        match stem {
            Some(text) => looks_like_journal(filename@) && text@ == decode_utf8(filename@).take(
                decode_utf8(filename@).len() - 5,
            ),
            None => !looks_like_journal(filename@),
        },
{
    let name = match text_from_utf8(copy_bytes(filename)) {
        Some(name) => name,
        None => {
            return None;
        },
    };
    proof {
        encode_utf8_decode_utf8(name@);
        reveal_strlit(".toml");
    }
    let chars = chars_of(name.as_str());
    let n: usize = chars.len();
    if n < 5 {
        return None;
    }
    let ghost tail = name@.subrange(n - 5, n as int);
    let same = chars[n - 5] == '.' && chars[n - 4] == 't' && chars[n - 3] == 'o' && chars[n - 2]
        == 'm' && chars[n - 1] == 'l';
    proof {
        assert(name@.len() - 5 + 5 == n);
        if same {
            assert(tail =~= ".toml"@);
        } else if tail == ".toml"@ {
            assert(tail[0] == name@[n - 5]);
            assert(tail[1] == name@[n - 4]);
            assert(tail[2] == name@[n - 3]);
            assert(tail[3] == name@[n - 2]);
            assert(tail[4] == name@[n - 1]);
        }
    }
    if !same {
        return None;
    }
    assert(name@.subrange(0, n - 5) =~= name@.take(n - 5));
    Some(text_of(chars.as_slice(), 0, n - 5))
}

/// The ID in the filename of a journal.
pub fn journal_id_from_filename(filename: &[u8]) -> (id: Option<String>)
    ensures
        match (id, id_in_filename(filename@)) {
            (Some(found), Some(expected)) => found@ == expected,
            (None, None) => true,
            _ => false,
        },
{
    match stem_of_journal(filename) {
        Some(id) => {
            if validate_id(id.as_str()).is_ok() {
                Some(id)
            } else {
                None
            }
        },
        None => None,
    }
}

/// Whether a filename ends like that of a journal.
pub fn filename_has_journal_extension(filename: &[u8]) -> (yes: bool)
    ensures
        yes == looks_like_journal(filename@),
{
    stem_of_journal(filename).is_some()
}

/// A recovery journal rooted at an explicit directory.
#[derive(Clone, Debug, Eq)]
pub struct RecoveryStore {
    directory: Vec<u8>,
}

impl View for RecoveryStore {
    type V = Seq<u8>;

    closed spec fn view(&self) -> Seq<u8> {
        self.directory@
    }
}

impl PartialEq for RecoveryStore {
    fn eq(&self, other: &Self) -> (same: bool) {
        same_path(self.directory.as_slice(), other.directory.as_slice())
    }
}

impl vstd::std_specs::cmp::PartialEqSpecImpl for RecoveryStore {
    open spec fn obeys_eq_spec() -> bool {
        true
    }

    open spec fn eq_spec(&self, other: &Self) -> bool {
        is_same_path(self@, other@)
    }
}

/// The journal of an ID in a directory.
pub open spec fn journal_of(directory: Seq<u8>, id: Seq<char>) -> Seq<u8> {
    path_join(directory, encode_utf8(id + ".toml"@))
}

/// What becomes of a record that is to be written: the journal and its text.
pub open spec fn journal_for(
    directory: Seq<u8>,
    record: Snapshot,
    encoded: Result<Seq<char>, Seq<char>>,
) -> Result<(Seq<u8>, Seq<char>), RecoveryFault> {
    match record_fault(record) {
        Some(fault) => Err(fault),
        None => match encoded {
            Err(cause) => Err(RecoveryFault::Encode(cause)),
            Ok(text) => if utf8_len(text) + 1 > MAX_RECOVERY_JOURNAL_BYTES {
                Err(
                    RecoveryFault::JournalTooLarge {
                        path: journal_of(directory, record.id),
                        limit: MAX_RECOVERY_JOURNAL_BYTES,
                    },
                )
            } else {
                Ok((journal_of(directory, record.id), text.push('\n')))
            },
        },
    }
}

/// What is wrong with a record that was read from the journal of an ID.
pub open spec fn loaded_fault(id: Seq<char>, record: Snapshot) -> Option<RecoveryFault> {
    if record.id != id {
        Some(
            RecoveryFault::InvalidRecord(
                "journal filename ID "@ + debug_text(id) + " does not match record ID "@
                    + debug_text(record.id),
            ),
        )
    } else {
        record_fault(record)
    }
}

/// The content of an encoded record or of the cause of its failure.
pub open spec fn encoded_of(encoded: Result<String, String>) -> Result<Seq<char>, Seq<char>> {
    match encoded {
        Ok(text) => Ok(text@),
        Err(cause) => Err(cause@),
    }
}

impl RecoveryStore {
    /// Use an explicit journal directory. It is created on the first write.
    pub fn new(directory: Vec<u8>) -> (store: Self)
        ensures
            store@ == directory@,
    {
        RecoveryStore { directory }
    }

    /// Resolve the standard XDG recovery directory without creating it.
    pub fn from_env(xdg_state_home: Option<Vec<u8>>, home: Option<Vec<u8>>) -> (result: Result<
        Self,
        RecoveryError,
    >)
        ensures
            match result {
                Ok(store) => recovery_location(bytes_option(xdg_state_home), bytes_option(home))
                    == Some(store@),
                Err(error) => recovery_location(bytes_option(xdg_state_home), bytes_option(home)) is None
                    && error@ == RecoveryFault::StateDirectoryUnavailable,
            },
    {
        match recovery_dir_from(xdg_state_home, home) {
            Ok(directory) => Ok(RecoveryStore { directory }),
            Err(error) => Err(error),
        }
    }

    /// The journal directory.
    pub fn directory(&self) -> (directory: &[u8])
        ensures
            directory@ == self@,
    {
        self.directory.as_slice()
    }

    /// The journal of an ID.
    pub fn journal_path(&self, id: &str) -> (result: Result<Vec<u8>, RecoveryError>)
        ensures
            match result {
                Ok(path) => valid_id(id@) && path@ == journal_of(self@, id@),
                Err(error) => !valid_id(id@) && error@ == RecoveryFault::InvalidId(id@),
            },
    {
        match validate_id(id) {
            Ok(()) => {
                let mut name = copy_text(id);
                name.push_str(".toml");
                Ok(join(self.directory.as_slice(), name.as_str()))
            },
            Err(error) => Err(error),
        }
    }

    /// What is written for a record, and where. Nothing is encoded for a record
    /// that is not valid.
    pub fn write(&self, record: &RecoveryRecord, encoded: Result<String, String>) -> (result: Result<
        (Vec<u8>, String),
        RecoveryError,
    >)
        ensures
            match (result, journal_for(self@, record@, encoded_of(encoded))) {
                (Ok((path, text)), Ok((journal, content))) => path@ == journal && text@ == content,
                (Err(error), Err(fault)) => error@ == fault,
                _ => false,
            },
    {
        if let Err(error) = record.validate() {
            return Err(error);
        }
        let mut text = match encoded {
            Ok(text) => text,
            Err(cause) => {
                return Err(RecoveryError::Encode(cause));
            },
        };
        let path = match self.journal_path(record.id.as_str()) {
            Ok(path) => path,
            Err(error) => {
                return Err(error);
            },
        };
        if byte_len(text.as_str()) as u64 >= MAX_RECOVERY_JOURNAL_BYTES {
            return Err(RecoveryError::JournalTooLarge { path, limit: MAX_RECOVERY_JOURNAL_BYTES });
        }
        text.push('\n');
        Ok((path, text))
    }

    /// Whether a journal may be read: it is a regular file within the limit.
    pub fn check_journal_file(path: &[u8], is_file: bool, bytes: u64, limit: u64) -> (result: Result<
        (),
        RecoveryError,
    >)
        ensures
            match result {
                Ok(()) => is_file && bytes <= limit,
                Err(error) => error@ == (if is_file {
                    RecoveryFault::JournalTooLarge { path: path@, limit }
                } else {
                    RecoveryFault::InvalidJournalFile(path@)
                }) && !(is_file && bytes <= limit),
            },
    {
        if !is_file {
            return Err(RecoveryError::InvalidJournalFile(copy_bytes(path)));
        }
        if bytes > limit {
            return Err(RecoveryError::JournalTooLarge { path: copy_bytes(path), limit });
        }
        Ok(())
    }

    /// The text of a journal that was read.
    pub fn journal_text(path: &[u8], bytes: Vec<u8>, limit: u64) -> (result: Result<
        String,
        RecoveryError,
    >)
        ensures
            match result {
                Ok(text) => bytes@.len() <= limit && encode_utf8(text@) == bytes@,
                Err(error) => if bytes@.len() > limit {
                    error@ == (RecoveryFault::JournalTooLarge { path: path@, limit })
                } else {
                    !valid_utf8(bytes@) && error@ == RecoveryFault::InvalidUtf8(path@)
                },
            },
    {
        if bytes.len() as u64 > limit {
            return Err(RecoveryError::JournalTooLarge { path: copy_bytes(path), limit });
        }
        match text_from_utf8(bytes) {
            Some(text) => Ok(text),
            None => Err(RecoveryError::InvalidUtf8(copy_bytes(path))),
        }
    }

    /// Checks a record that was read from the journal of an ID.
    pub fn accept(id: &str, record: RecoveryRecord) -> (result: Result<
        RecoveryRecord,
        RecoveryError,
    >)
        ensures
            match result {
                Ok(accepted) => accepted@ == record@ && loaded_fault(id@, record@) is None,
                Err(error) => loaded_fault(id@, record@) == Some(error@),
            },
    {
        if !same_text(record.id.as_str(), id) {
            let mut reason = copy_text("journal filename ID ");
            reason.push_str(debug_quoted(id).as_str());
            reason.push_str(" does not match record ID ");
            reason.push_str(debug_quoted(record.id.as_str()).as_str());
            assert(reason@ =~= "journal filename ID "@ + debug_text(id@)
                + " does not match record ID "@ + debug_text(record@.id));
            return Err(RecoveryError::InvalidRecord(reason));
        }
        match record.validate() {
            Ok(()) => Ok(record),
            Err(error) => Err(error),
        }
    }
}

/// The journal of a safe ID stands directly in the directory, and the ID can be
/// told from its filename.
pub proof fn law_journal_names_its_id(id: Seq<char>)
    requires
        valid_id(id),
    ensures
        id_in_filename(encode_utf8(id + ".toml"@)) == Some(id),
        !encode_utf8(id + ".toml"@).contains(47),
{
    let name = id + ".toml"@;
    reveal_strlit(".toml");
    encode_utf8_valid_utf8(name);
    encode_utf8_decode_utf8(name);
    assert(name.take(name.len() - 5) =~= id);
    assert(name.subrange(name.len() - 5, name.len() - 5 + 5) =~= ".toml"@);
    assert forall|i: int| 0 <= i < name.len() implies #[trigger] name[i] != '/' && (name[i] as u32)
        < 0x80 by {
        if i < id.len() {
            assert(is_id_char(id[i]));
        }
    }
    lemma_no_slash(name);
}

/// What is written for a record is read back: the text has the size that a
/// journal may have and its bytes are that text again, its filename gives the
/// ID of the record, and the record is accepted under that ID.
pub proof fn law_written_journal_is_read_back(
    directory: Seq<u8>,
    record: Snapshot,
    encoded: Result<Seq<char>, Seq<char>>,
)
    requires
        journal_for(directory, record, encoded) is Ok,
    ensures
        ({
            let (path, text) = journal_for(directory, record, encoded)->Ok_0;
            &&& path == journal_of(directory, record.id)
            &&& encode_utf8(text).len() <= MAX_RECOVERY_JOURNAL_BYTES
            &&& valid_utf8(encode_utf8(text))
            &&& decode_utf8(encode_utf8(text)) == text
            &&& id_in_filename(encode_utf8(record.id + ".toml"@)) == Some(record.id)
            &&& loaded_fault(record.id, record) is None
        }),
{
    let (path, text) = journal_for(directory, record, encoded)->Ok_0;
    let body = encoded->Ok_0;
    encode_utf8_valid_utf8(text);
    encode_utf8_decode_utf8(text);
    lemma_utf8_len_push(body, '\n');
    law_journal_names_its_id(record.id);
}

proof fn lemma_no_slash(name: Seq<char>)
    requires
        forall|i: int|
            0 <= i < name.len() ==> #[trigger] name[i] != '/' && (name[i] as u32) < 0x80,
    ensures
        !encode_utf8(name).contains(47),
    decreases name.len(),
{
    if name.len() > 0 {
        let rest = name.drop_first();
        assert forall|i: int| 0 <= i < rest.len() implies #[trigger] rest[i] != '/' && (
        rest[i] as u32) < 0x80 by {
            assert(rest[i] == name[i + 1]);
        }
        lemma_no_slash(rest);
        let c = name[0] as u32;
        let head = encode_scalar(c);
        assert(name[0] != '/');
        assert(c != 47) by {
            if c == 47 {
                char_u32_cast(name[0], 47);
                char_u32_cast('/', 47);
            }
        }
        assert(c & 0x7F == c) by (bit_vector)
            requires
                c < 0x80,
        ;
        assert(head.len() == 1 && head[0] == c);
        if encode_utf8(name).contains(47) {
            let k = choose|k: int| 0 <= k < encode_utf8(name).len() && encode_utf8(name)[k] == 47;
            if k > 0 {
                assert(encode_utf8(rest)[k - 1] == 47);
            }
        }
    }
}

/// A non-fatal problem encountered while enumerating recovery journals.
#[derive(Debug, Eq)]
pub struct RecoveryWarning {
    pub path: Vec<u8>,
    pub message: String,
}

/// The content of a [`RecoveryWarning`].
#[verifier::ext_equal]
pub struct Warning {
    pub path: Seq<u8>,
    pub message: Seq<char>,
}

impl View for RecoveryWarning {
    type V = Warning;

    open spec fn view(&self) -> Warning {
        Warning { path: self.path@, message: self.message@ }
    }
}

impl PartialEq for RecoveryWarning {
    fn eq(&self, other: &Self) -> (same: bool) {
        same_path(self.path.as_slice(), other.path.as_slice()) && same_text(
            self.message.as_str(),
            other.message.as_str(),
        )
    }
}

impl vstd::std_specs::cmp::PartialEqSpecImpl for RecoveryWarning {
    open spec fn obeys_eq_spec() -> bool {
        true
    }

    open spec fn eq_spec(&self, other: &Self) -> bool {
        is_same_path(self@.path, other@.path) && self@.message == other@.message
    }
}

impl Clone for RecoveryWarning {
    fn clone(&self) -> (copy: Self)
        ensures
            copy@ == self@,
    {
        RecoveryWarning {
            path: copy_bytes(self.path.as_slice()),
            message: self.message.clone(),
        }
    }
}

impl RecoveryWarning {
    fn from_error(path: &[u8], error: &RecoveryError) -> (warning: Self)
        ensures
            warning@ == warning_for(path@, error@),
    {
        RecoveryWarning { path: copy_bytes(path), message: error.describe() }
    }

    /// What the warning says.
    pub fn describe(&self) -> (words: String)
        ensures
            words@ == lossy_text(self@.path) + ": "@ + self@.message,
    {
        let mut words = display_path(self.path.as_slice());
        words.push_str(": ");
        words.push_str(self.message.as_str());
        words
    }
}

/// The warning for an error.
pub open spec fn warning_for(path: Seq<u8>, fault: RecoveryFault) -> Warning {
    Warning { path, message: recovery_words(fault) }
}

/// Bounded result of scanning a recovery directory.
#[derive(Debug, PartialEq, Eq)]
pub struct RecoveryListing {
    pub records: Vec<RecoveryRecord>,
    pub warnings: Vec<RecoveryWarning>,
}

/// The contents of records.
pub open spec fn snapshots_of(records: Seq<RecoveryRecord>) -> Seq<Snapshot> {
    records.map_values(|record: RecoveryRecord| record@)
}

/// The contents of warnings.
pub open spec fn warnings_of(warnings: Seq<RecoveryWarning>) -> Seq<Warning> {
    warnings.map_values(|warning: RecoveryWarning| warning@)
}

impl Clone for RecoveryListing {
    fn clone(&self) -> (copy: Self)
        ensures
            snapshots_of(copy.records@) == snapshots_of(self.records@),
            warnings_of(copy.warnings@) == warnings_of(self.warnings@),
    {
        let copy = RecoveryListing {
            records: self.records.clone(),
            warnings: self.warnings.clone(),
        };
        proof {
            assert forall|i: int| 0 <= i < self.records@.len() implies (
            #[trigger] copy.records@[i])@ == self.records@[i]@ by {
                assert(cloned(self.records@[i], copy.records@[i]));
            }
            assert forall|i: int| 0 <= i < self.warnings@.len() implies (
            #[trigger] copy.warnings@[i])@ == self.warnings@[i]@ by {
                assert(cloned(self.warnings@[i], copy.warnings@[i]));
            }
            assert(snapshots_of(copy.records@) =~= snapshots_of(self.records@));
            assert(warnings_of(copy.warnings@) =~= warnings_of(self.warnings@));
        }
        copy
    }
}

impl Default for RecoveryListing {
    fn default() -> (listing: Self)
        ensures
            listing.records@.len() == 0,
            listing.warnings@.len() == 0,
    {
        RecoveryListing { records: Vec::new(), warnings: Vec::new() }
    }
}

impl RecoveryListing {
    /// Whether nothing was skipped.
    pub fn is_clean(&self) -> (yes: bool)
        ensures
            yes == (self.warnings@.len() == 0),
    {
        self.warnings.len() == 0
    }
}

/// The order of records: the newest snapshot first, then by ID.
pub open spec fn newer(a: Snapshot, b: Snapshot) -> bool {
    a.recorded_at_unix_millis > b.recorded_at_unix_millis || (a.recorded_at_unix_millis
        == b.recorded_at_unix_millis && text_before(a.id, b.id))
}

/// The order of records.
pub struct RecordOrder;

impl Order<RecoveryRecord> for RecordOrder {
    open spec fn before(a: Snapshot, b: Snapshot) -> bool {
        newer(a, b)
    }

    fn is_before(a: &RecoveryRecord, b: &RecoveryRecord) -> (yes: bool) {
        a.recorded_at_unix_millis > b.recorded_at_unix_millis || (a.recorded_at_unix_millis
            == b.recorded_at_unix_millis && match order_of(a.id.as_str(), b.id.as_str()) {
            TextOrder::Before => true,
            _ => false,
        })
    }

    proof fn lemma_order(a: Snapshot, b: Snapshot, c: Snapshot) {
        lemma_text_order_total(a.id, b.id);
        lemma_text_order_total(b.id, c.id);
        lemma_text_order_total(a.id, c.id);
        if text_before(c.id, a.id) && text_before(a.id, b.id) {
            lemma_text_order_transitive(c.id, a.id, b.id);
        }
    }
}

/// What a directory listing gave for one entry.
#[derive(Debug)]
pub enum DirectoryEntry {
    /// The entry could not be read.
    Unreadable { cause: String },
    /// The kind of the entry could not be told.
    Untyped { path: Vec<u8>, cause: String },
    /// The entry, and whether it is a regular file.
    Present { path: Vec<u8>, filename: Vec<u8>, is_file: bool },
}

/// The content of a [`DirectoryEntry`].
pub enum Listed {
    Unreadable { cause: Seq<char> },
    Untyped { path: Seq<u8>, cause: Seq<char> },
    Present { path: Seq<u8>, filename: Seq<u8>, is_file: bool },
}

impl View for DirectoryEntry {
    type V = Listed;

    open spec fn view(&self) -> Listed {
        match self {
            DirectoryEntry::Unreadable { cause } => Listed::Unreadable { cause: cause@ },
            DirectoryEntry::Untyped { path, cause } => Listed::Untyped {
                path: path@,
                cause: cause@,
            },
            DirectoryEntry::Present { path, filename, is_file } => Listed::Present {
                path: path@,
                filename: filename@,
                is_file: *is_file,
            },
        }
    }
}

/// What a scan does with an entry.
#[derive(Debug, PartialEq, Eq)]
pub enum ScanAction {
    /// The scan is over.
    Stop,
    /// The entry holds no journal to load.
    Skip,
    /// The size of the journal with this ID is to be found out.
    Inspect(String),
}

/// The content of a [`ScanAction`].
pub enum Act {
    Stop,
    Skip,
    Inspect(Seq<char>),
}

impl View for ScanAction {
    type V = Act;

    open spec fn view(&self) -> Act {
        match self {
            ScanAction::Stop => Act::Stop,
            ScanAction::Skip => Act::Skip,
            ScanAction::Inspect(id) => Act::Inspect(id@),
        }
    }
}

/// A scan of a journal directory under way: the caller lists the directory and
/// loads journals, and hands over what it found.
#[derive(Debug)]
pub struct RecoveryScan {
    directory: Vec<u8>,
    records: Vec<RecoveryRecord>,
    warnings: Vec<RecoveryWarning>,
    scanned_entries: usize,
    considered_bytes: u64,
}

/// The content of a [`RecoveryScan`].
#[verifier::ext_equal]
pub struct JournalScan {
    pub directory: Seq<u8>,
    pub records: Seq<Snapshot>,
    pub warnings: Seq<Warning>,
    pub scanned_entries: usize,
    pub considered_bytes: u64,
}

impl View for RecoveryScan {
    type V = JournalScan;

    closed spec fn view(&self) -> JournalScan {
        JournalScan {
            directory: self.directory@,
            records: snapshots_of(self.records@),
            warnings: warnings_of(self.warnings@),
            scanned_entries: self.scanned_entries,
            considered_bytes: self.considered_bytes,
        }
    }
}

/// What always holds of a scan: it stays within its bounds.
pub open spec fn scan_holds(scan: JournalScan) -> bool {
    &&& scan.scanned_entries <= MAX_RECOVERY_DIRECTORY_ENTRIES
    &&& scan.considered_bytes <= MAX_RECOVERY_LIST_BYTES
}

/// A scan with one more warning.
pub open spec fn warned(scan: JournalScan, warning: Warning) -> JournalScan {
    JournalScan { warnings: scan.warnings.push(warning), ..scan }
}

/// That the filesystem refused an operation.
pub open spec fn io_fault(operation: Seq<char>, path: Seq<u8>, cause: Seq<char>) -> RecoveryFault {
    RecoveryFault::Io { operation, path, cause, not_found: false }
}

/// A scan after an entry was listed, and what it does with the entry.
pub open spec fn after_listed(scan: JournalScan, entry: Listed) -> (JournalScan, Act) {
    if scan.scanned_entries == MAX_RECOVERY_DIRECTORY_ENTRIES {
        (
            warned(
                scan,
                Warning {
                    path: scan.directory,
                    message: "recovery scan stopped after 4096 directory entries"@,
                },
            ),
            Act::Stop,
        )
    } else {
        let counted = JournalScan { scanned_entries: (scan.scanned_entries + 1) as usize, ..scan };
        match entry {
            Listed::Unreadable { cause } => (
                warned(
                    counted,
                    warning_for(
                        scan.directory,
                        io_fault("read recovery directory entry"@, scan.directory, cause),
                    ),
                ),
                Act::Skip,
            ),
            Listed::Untyped { path, cause } => (
                warned(
                    counted,
                    warning_for(
                        path,
                        io_fault("inspect recovery directory entry"@, path, cause),
                    ),
                ),
                Act::Skip,
            ),
            Listed::Present { path, filename, is_file } => if !looks_like_journal(filename) {
                (counted, Act::Skip)
            } else if !is_file {
                (
                    warned(counted, warning_for(path, RecoveryFault::InvalidJournalFile(path))),
                    Act::Skip,
                )
            } else {
                match id_in_filename(filename) {
                    Some(id) => (counted, Act::Inspect(id)),
                    None => (
                        warned(
                            counted,
                            Warning {
                                path,
                                message: "recovery journal filename does not contain a safe ID"@,
                            },
                        ),
                        Act::Skip,
                    ),
                }
            },
        }
    }
}

/// A scan after the size of a journal was found out, and the size up to which
/// the journal is to be loaded.
pub open spec fn after_size(
    scan: JournalScan,
    path: Seq<u8>,
    size: Result<u64, Seq<char>>,
) -> (JournalScan, Option<u64>) {
    match size {
        Err(cause) => (
            warned(
                scan,
                warning_for(path, io_fault("inspect recovery journal"@, path, cause)),
            ),
            None,
        ),
        Ok(bytes) => if bytes > MAX_RECOVERY_JOURNAL_BYTES {
            (
                warned(
                    scan,
                    warning_for(
                        path,
                        RecoveryFault::JournalTooLarge { path, limit: MAX_RECOVERY_JOURNAL_BYTES },
                    ),
                ),
                None,
            )
        } else if scan.considered_bytes + bytes > MAX_RECOVERY_LIST_BYTES {
            (
                warned(
                    scan,
                    Warning {
                        path,
                        message:
                            "recovery scan byte limit of 268435456 bytes would be exceeded"@,
                    },
                ),
                None,
            )
        } else {
            (
                JournalScan {
                    considered_bytes: (scan.considered_bytes + bytes) as u64,
                    ..scan
                },
                Some(bytes),
            )
        },
    }
}

/// A scan after a journal was loaded. One that is gone by then leaves no trace.
pub open spec fn after_load(
    scan: JournalScan,
    path: Seq<u8>,
    result: Result<Snapshot, RecoveryFault>,
) -> JournalScan {
    match result {
        Ok(record) => JournalScan { records: scan.records.push(record), ..scan },
        Err(RecoveryFault::Io { not_found: true, .. }) => scan,
        Err(fault) => warned(scan, warning_for(path, fault)),
    }
}

/// The content of a size or of the cause of a failure.
pub open spec fn size_of_result(size: Result<u64, String>) -> Result<u64, Seq<char>> {
    match size {
        Ok(bytes) => Ok(bytes),
        Err(cause) => Err(cause@),
    }
}

/// The content of a loaded record or of its failure.
pub open spec fn load_of(result: Result<RecoveryRecord, RecoveryError>) -> Result<
    Snapshot,
    RecoveryFault,
> {
    match result {
        Ok(record) => Ok(record@),
        Err(error) => Err(error@),
    }
}

impl RecoveryScan {
    /// Starts a scan of a directory.
    pub fn new(store: &RecoveryStore) -> (scan: Self)
        ensures
            scan_holds(scan@),
            scan@ == (JournalScan {
                directory: store@,
                records: Seq::empty(),
                warnings: Seq::empty(),
                scanned_entries: 0,
                considered_bytes: 0,
            }),
    {
        let scan = RecoveryScan {
            directory: copy_bytes(store.directory()),
            records: Vec::new(),
            warnings: Vec::new(),
            scanned_entries: 0,
            considered_bytes: 0,
        };
        assert(scan@.records =~= Seq::<Snapshot>::empty());
        assert(scan@.warnings =~= Seq::<Warning>::empty());
        scan
    }

    fn warn(&mut self, warning: RecoveryWarning)
        ensures
            final(self)@ == warned(old(self)@, warning@),
    {
        let ghost before = self.warnings@;
        self.warnings.push(warning);
        assert(warnings_of(self.warnings@) =~= warnings_of(before).push(warning@));
    }

    fn warn_io(&mut self, operation: &str, path: &[u8], cause: String)
        ensures
            final(self)@ == warned(
                old(self)@,
                warning_for(path@, io_fault(operation@, path@, cause@)),
            ),
    {
        let error = RecoveryError::Io {
            operation: copy_text(operation),
            path: copy_bytes(path),
            cause,
            not_found: false,
        };
        let warning = RecoveryWarning::from_error(path, &error);
        self.warn(warning);
    }

    /// Takes the next entry of the directory.
    pub fn entry(&mut self, entry: DirectoryEntry) -> (action: ScanAction)
        requires
            scan_holds(old(self)@),
        ensures
            scan_holds(final(self)@),
            (final(self)@, action@) == after_listed(old(self)@, entry@),
    {
        if self.scanned_entries == MAX_RECOVERY_DIRECTORY_ENTRIES {
            let path = copy_bytes(self.directory.as_slice());
            self.warn(
                RecoveryWarning {
                    path,
                    message: copy_text("recovery scan stopped after 4096 directory entries"),
                },
            );
            return ScanAction::Stop;
        }
        self.scanned_entries = self.scanned_entries + 1;
        match entry {
            DirectoryEntry::Unreadable { cause } => {
                let path = copy_bytes(self.directory.as_slice());
                self.warn_io("read recovery directory entry", path.as_slice(), cause);
                ScanAction::Skip
            },
            DirectoryEntry::Untyped { path, cause } => {
                self.warn_io("inspect recovery directory entry", path.as_slice(), cause);
                ScanAction::Skip
            },
            DirectoryEntry::Present { path, filename, is_file } => {
                if !filename_has_journal_extension(filename.as_slice()) {
                    return ScanAction::Skip;
                }
                if !is_file {
                    let error = RecoveryError::InvalidJournalFile(copy_bytes(path.as_slice()));
                    let warning = RecoveryWarning::from_error(path.as_slice(), &error);
                    self.warn(warning);
                    return ScanAction::Skip;
                }
                match journal_id_from_filename(filename.as_slice()) {
                    Some(id) => ScanAction::Inspect(id),
                    None => {
                        self.warn(
                            RecoveryWarning {
                                path,
                                message: copy_text(
                                    "recovery journal filename does not contain a safe ID",
                                ),
                            },
                        );
                        ScanAction::Skip
                    },
                }
            },
        }
    }

    /// Takes the size of a journal. The result is the size up to which it is to
    /// be loaded.
    pub fn inspected(&mut self, path: &[u8], size: Result<u64, String>) -> (limit: Option<u64>)
        requires
            scan_holds(old(self)@),
        ensures
            scan_holds(final(self)@),
            (final(self)@, limit) == after_size(old(self)@, path@, size_of_result(size)),
    {
        let bytes = match size {
            Ok(bytes) => bytes,
            Err(cause) => {
                self.warn_io("inspect recovery journal", path, cause);
                return None;
            },
        };
        if bytes > MAX_RECOVERY_JOURNAL_BYTES {
            let error = RecoveryError::JournalTooLarge {
                path: copy_bytes(path),
                limit: MAX_RECOVERY_JOURNAL_BYTES,
            };
            let warning = RecoveryWarning::from_error(path, &error);
            self.warn(warning);
            return None;
        }
        if bytes > MAX_RECOVERY_LIST_BYTES - self.considered_bytes {
            self.warn(
                RecoveryWarning {
                    path: copy_bytes(path),
                    message: copy_text(
                        "recovery scan byte limit of 268435456 bytes would be exceeded",
                    ),
                },
            );
            return None;
        }
        self.considered_bytes = self.considered_bytes + bytes;
        Some(bytes)
    }

    /// Takes a journal that was loaded, or why it was not.
    pub fn loaded(&mut self, path: &[u8], result: Result<RecoveryRecord, RecoveryError>)
        requires
            scan_holds(old(self)@),
        ensures
            scan_holds(final(self)@),
            final(self)@ == after_load(old(self)@, path@, load_of(result)),
    {
        match result {
            Ok(record) => {
                let ghost before = self.records@;
                self.records.push(record);
                assert(snapshots_of(self.records@) =~= snapshots_of(before).push(record@));
            },
            Err(error) => {
                let gone = match &error {
                    RecoveryError::Io { not_found, .. } => *not_found,
                    _ => false,
                };
                if !gone {
                    let warning = RecoveryWarning::from_error(path, &error);
                    self.warn(warning);
                }
            },
        }
    }

    /// What was found, the newest snapshot first.
    pub fn finish(self) -> (listing: RecoveryListing)
        ensures
            sorted_by::<RecoveryRecord, RecordOrder>(snapshots_of(listing.records@)),
            snapshots_of(listing.records@).to_multiset() == self@.records.to_multiset(),
            warnings_of(listing.warnings@) == self@.warnings,
    {
        proof {
            assert(views(self.records@) =~= snapshots_of(self.records@));
        }
        let records = sort::<RecoveryRecord, RecordOrder>(self.records);
        assert(views(records@) =~= snapshots_of(records@));
        RecoveryListing { records, warnings: self.warnings }
    }
}

/// An entry that looks like a journal is inspected, or a warning says why not.
pub proof fn law_skipped_journals_are_reported(scan: JournalScan, entry: Listed)
    requires
        match entry {
            Listed::Present { filename, .. } => looks_like_journal(filename),
            _ => true,
        },
    ensures
        ({
            let (after, act) = after_listed(scan, entry);
            act is Inspect || after.warnings.len() == scan.warnings.len() + 1
        }),
{
}

/// A journal that cannot be loaded hides no record that was found, and is
/// reported unless it is gone.
pub proof fn law_failed_journals_hide_nothing(
    scan: JournalScan,
    path: Seq<u8>,
    fault: RecoveryFault,
)
    ensures
        after_load(scan, path, Err(fault)).records == scan.records,
        after_load(scan, path, Err(fault)).warnings.len() == scan.warnings.len() + 1 || (
        fault matches RecoveryFault::Io { not_found, .. } && not_found),
{
}

} // verus!
