//! What recovery journals promise as a whole: what is written is loaded, and
//! what a scan of the journals gives.
use vstd::prelude::*;
use vstd::utf8::*;

use crate::paths::path_join;
use crate::recovery::{
    after_listed, after_load, after_size, hex, hex_digits, id_in_filename, id_of, is_id_char,
    journal_for, journal_of, law_written_journal_is_read_back, lemma_ascii_len, loaded_fault,
    looks_like_journal, newer, record_fault, recovery_location, valid_id, Act, IdParts, JournalScan,
    Listed, RecoveryFault, Snapshot, Warning, MAX_RECOVERY_DIRECTORY_ENTRIES,
    MAX_RECOVERY_JOURNAL_BYTES,
};
use crate::text::{lemma_encode_add, lemma_encoding_injective, text_before};

verus! {

/// A record that is to be written, with its encoded form or why it has none.
pub struct Writing {
    pub record: Snapshot,
    pub encoded: Result<Seq<char>, Seq<char>>,
}

/// The files of a directory, by path, after a record was written. Nothing is
/// written where the record is refused.
pub open spec fn after_write(
    files: Map<Seq<u8>, Seq<u8>>,
    directory: Seq<u8>,
    writing: Writing,
) -> Map<Seq<u8>, Seq<u8>> {
    match journal_for(directory, writing.record, writing.encoded) {
        Ok((path, text)) => files.insert(path, encode_utf8(text)),
        Err(_) => files,
    }
}

/// The files of a directory after records were written one after the other.
pub open spec fn after_writes(
    files: Map<Seq<u8>, Seq<u8>>,
    directory: Seq<u8>,
    writings: Seq<Writing>,
) -> Map<Seq<u8>, Seq<u8>>
    decreases writings.len(),
{
    if writings.len() == 0 {
        files
    } else {
        after_write(
            after_writes(files, directory, writings.drop_last()),
            directory,
            writings.last(),
        )
    }
}

/// What loading an ID gives, where `decode` reads the encoded form; nothing
/// where there is no journal.
pub open spec fn loading(
    files: Map<Seq<u8>, Seq<u8>>,
    directory: Seq<u8>,
    id: Seq<char>,
    decode: spec_fn(Seq<char>) -> Result<Snapshot, Seq<char>>,
) -> Option<Result<Snapshot, RecoveryFault>> {
    let path = journal_of(directory, id);
    if !valid_id(id) {
        Some(Err(RecoveryFault::InvalidId(id)))
    } else if !files.contains_key(path) {
        None
    } else if files[path].len() > MAX_RECOVERY_JOURNAL_BYTES {
        Some(Err(RecoveryFault::JournalTooLarge { path, limit: MAX_RECOVERY_JOURNAL_BYTES }))
    } else if !valid_utf8(files[path]) {
        Some(Err(RecoveryFault::InvalidUtf8(path)))
    } else {
        match decode(decode_utf8(files[path])) {
            Err(cause) => Some(Err(RecoveryFault::Decode { path, cause })),
            Ok(record) => match loaded_fault(id, record) {
                Some(fault) => Some(Err(fault)),
                None => Some(Ok(record)),
            },
        }
    }
}

/// Safe IDs have journals of their own.
proof fn lemma_own_journal(directory: Seq<u8>, a: Seq<char>, b: Seq<char>)
    requires
        valid_id(a),
        valid_id(b),
        journal_of(directory, a) == journal_of(directory, b),
    ensures
        a == b,
{
    let x = encode_utf8(a + ".toml"@);
    let y = encode_utf8(b + ".toml"@);
    let p = journal_of(directory, a);
    let q = journal_of(directory, b);
    let n = p.len() - x.len();
    assert(x =~= p.subrange(n, p.len() as int));
    assert(y =~= q.subrange(q.len() - y.len(), q.len() as int));
    assert(x =~= y);
    lemma_encoding_injective(a + ".toml"@, b + ".toml"@);
    let s = a + ".toml"@;
    let t = b + ".toml"@;
    assert(a =~= s.take(s.len() - ".toml"@.len()));
    assert(b =~= t.take(t.len() - ".toml"@.len()));
}

/// A record that was written is loaded under its ID, every field as it was,
/// whatever was written under that ID before and under other IDs since. That the
/// encoded form is read as the record is what `decode` must give.
pub proof fn law_last_write_is_loaded(
    files: Map<Seq<u8>, Seq<u8>>,
    directory: Seq<u8>,
    writing: Writing,
    later: Seq<Writing>,
    decode: spec_fn(Seq<char>) -> Result<Snapshot, Seq<char>>,
)
    requires
        journal_for(directory, writing.record, writing.encoded) matches Ok((_, text)) && decode(
            text,
        ) == Ok::<Snapshot, Seq<char>>(writing.record),
        forall|i: int|
            0 <= i < later.len() ==> (#[trigger] later[i]).record.id != writing.record.id,
    ensures
        loading(
            after_writes(after_write(files, directory, writing), directory, later),
            directory,
            writing.record.id,
            decode,
        ) == Some(Ok::<Snapshot, RecoveryFault>(writing.record)),
    decreases later.len(),
{
    let id = writing.record.id;
    let path = journal_of(directory, id);
    law_written_journal_is_read_back(directory, writing.record, writing.encoded);
    if later.len() > 0 {
        let front = later.drop_last();
        let last = later.last();
        assert forall|i: int| 0 <= i < front.len() implies (#[trigger] front[i]).record.id
            != id by {
            assert(front[i] == later[i]);
        }
        law_last_write_is_loaded(files, directory, writing, front, decode);
        assert(later[later.len() - 1] == last);
        if journal_for(directory, last.record, last.encoded) is Ok {
            if journal_of(directory, last.record.id) == path {
                lemma_own_journal(directory, last.record.id, id);
            }
        }
    }
}

/// An ID that is not safe is refused, whatever the directory holds.
pub proof fn law_unsafe_ids_are_refused(
    files: Map<Seq<u8>, Seq<u8>>,
    directory: Seq<u8>,
    id: Seq<char>,
    decode: spec_fn(Seq<char>) -> Result<Snapshot, Seq<char>>,
)
    requires
        !valid_id(id),
    ensures
        loading(files, directory, id, decode) == Some(
            Err::<Snapshot, RecoveryFault>(RecoveryFault::InvalidId(id)),
        ),
{
}

/// What is found of one directory entry: the entry, its size and what loading it
/// gives, should the scan ask for them.
pub struct Found {
    pub entry: Listed,
    pub size: Result<u64, Seq<char>>,
    pub load: Result<Snapshot, RecoveryFault>,
}

/// The path that a warning about an entry names.
pub open spec fn place_of(entry: Listed, directory: Seq<u8>) -> Seq<u8> {
    match entry {
        Listed::Unreadable { .. } => directory,
        Listed::Untyped { path, .. } => path,
        Listed::Present { path, .. } => path,
    }
}

/// A scan after one more directory entry, and whether it goes on.
pub open spec fn after_found(scan: JournalScan, found: Found) -> (JournalScan, bool) {
    let path = place_of(found.entry, scan.directory);
    let (listed, act) = after_listed(scan, found.entry);
    match act {
        Act::Stop => (listed, false),
        Act::Skip => (listed, true),
        Act::Inspect(_) => {
            let (sized, limit) = after_size(listed, path, found.size);
            match limit {
                None => (sized, true),
                Some(_) => (after_load(sized, path, found.load), true),
            }
        },
    }
}

/// A scan after these directory entries, and whether it goes on.
pub open spec fn after_all(scan: JournalScan, entries: Seq<Found>) -> (JournalScan, bool)
    decreases entries.len(),
{
    if entries.len() == 0 {
        (scan, true)
    } else {
        let (before, on) = after_all(scan, entries.drop_last());
        if on {
            after_found(before, entries.last())
        } else {
            (before, false)
        }
    }
}

/// Whether an entry may hold a journal.
pub open spec fn may_be_journal(entry: Listed) -> bool {
    match entry {
        Listed::Present { filename, .. } => looks_like_journal(filename),
        _ => true,
    }
}

/// Whether a journal was gone when it was loaded.
pub open spec fn is_gone(found: Found) -> bool {
    found.load matches Err(RecoveryFault::Io { not_found, .. }) && not_found
}

/// Whether a scan accounts for an entry: its record is there, or a warning names
/// its path, or it was gone, or it is no journal.
pub open spec fn is_settled(scan: JournalScan, found: Found) -> bool {
    ||| !may_be_journal(found.entry)
    ||| is_gone(found)
    ||| found.load matches Ok(record) && scan.records.contains(record)
    ||| exists|i: int|
        0 <= i < scan.warnings.len() && (#[trigger] scan.warnings[i]).path == place_of(
            found.entry,
            scan.directory,
        )
}

/// Whether a record was loaded from one of these entries.
pub open spec fn was_loaded(record: Snapshot, entries: Seq<Found>) -> bool {
    exists|i: int|
        0 <= i < entries.len() && (#[trigger] entries[i]).load == Ok::<Snapshot, RecoveryFault>(
            record,
        ) && may_be_journal(entries[i].entry)
}

/// A whole scan gives only records that were loaded from journals, and accounts
/// for every entry up to the limit: no journal hides another, and none is left
/// out without a warning. Beyond the limit the scan stops, and says so.
pub proof fn law_whole_scan(start: JournalScan, entries: Seq<Found>)
    requires
        start.records.len() == 0,
        start.warnings.len() == 0,
        start.scanned_entries == 0,
        start.considered_bytes == 0,
    ensures
        ({
            let (end, on) = after_all(start, entries);
            &&& forall|k: int|
                0 <= k < end.records.len() ==> was_loaded(#[trigger] end.records[k], entries)
            &&& forall|i: int|
                0 <= i < entries.len() && i < MAX_RECOVERY_DIRECTORY_ENTRIES ==> is_settled(
                    end,
                    #[trigger] entries[i],
                )
            &&& on <==> entries.len() <= MAX_RECOVERY_DIRECTORY_ENTRIES
            &&& !on ==> end.warnings.contains(
                Warning {
                    path: start.directory,
                    message: "recovery scan stopped after 4096 directory entries"@,
                },
            )
        }),
{
    lemma_scan(start, entries);
}

proof fn lemma_scan(start: JournalScan, entries: Seq<Found>)
    requires
        start.records.len() == 0,
        start.warnings.len() == 0,
        start.scanned_entries == 0,
        start.considered_bytes == 0,
    ensures
        ({
            let (end, on) = after_all(start, entries);
            &&& end.directory == start.directory
            &&& end.scanned_entries == (if entries.len() < MAX_RECOVERY_DIRECTORY_ENTRIES {
                entries.len() as int
            } else {
                MAX_RECOVERY_DIRECTORY_ENTRIES as int
            })
            &&& forall|k: int|
                0 <= k < end.records.len() ==> was_loaded(#[trigger] end.records[k], entries)
            &&& forall|i: int|
                0 <= i < entries.len() && i < MAX_RECOVERY_DIRECTORY_ENTRIES ==> is_settled(
                    end,
                    #[trigger] entries[i],
                )
            &&& on <==> entries.len() <= MAX_RECOVERY_DIRECTORY_ENTRIES
            &&& !on ==> end.warnings.contains(
                Warning {
                    path: start.directory,
                    message: "recovery scan stopped after 4096 directory entries"@,
                },
            )
        }),
    decreases entries.len(),
{
    if entries.len() > 0 {
        let front = entries.drop_last();
        let found = entries.last();
        let last = entries.len() - 1;
        lemma_scan(start, front);
        let (before, on) = after_all(start, front);
        let (end, _) = after_all(start, entries);
        assert(entries[last] == found);
        if on {
            lemma_found(before, found);
        }
        assert forall|k: int| 0 <= k < end.records.len() implies was_loaded(
            #[trigger] end.records[k],
            entries,
        ) by {
            if k < before.records.len() {
                assert(end.records[k] == before.records[k]);
                assert(was_loaded(before.records[k], front));
                let i = choose|i: int|
                    0 <= i < front.len() && (#[trigger] front[i]).load == Ok::<
                        Snapshot,
                        RecoveryFault,
                    >(before.records[k]) && may_be_journal(front[i].entry);
                assert(entries[i] == front[i]);
            } else {
                assert(entries[last].load == Ok::<Snapshot, RecoveryFault>(end.records[k]));
            }
        }
        assert forall|i: int|
            0 <= i < entries.len() && i < MAX_RECOVERY_DIRECTORY_ENTRIES implies is_settled(
            end,
            #[trigger] entries[i],
        ) by {
            if i < last {
                assert(entries[i] == front[i]);
                assert(is_settled(before, front[i]));
                if on {
                    lemma_stays_settled(before, end, front[i]);
                }
            }
        }
    }
}

/// What one more entry does.
proof fn lemma_found(scan: JournalScan, found: Found)
    requires
        scan.scanned_entries <= MAX_RECOVERY_DIRECTORY_ENTRIES,
    ensures
        ({
            let (after, on) = after_found(scan, found);
            &&& after.directory == scan.directory
            &&& on <==> scan.scanned_entries < MAX_RECOVERY_DIRECTORY_ENTRIES
            &&& after.scanned_entries == scan.scanned_entries + (if on {
                1int
            } else {
                0int
            })
            &&& after.records == scan.records || (may_be_journal(found.entry) && found.load is Ok
                && after.records == scan.records.push(found.load->Ok_0))
            &&& after.warnings == scan.warnings || exists|warning: Warning|
                after.warnings == #[trigger] scan.warnings.push(warning)
            &&& on ==> is_settled(after, found)
            &&& !on ==> after.warnings.contains(
                Warning {
                    path: scan.directory,
                    message: "recovery scan stopped after 4096 directory entries"@,
                },
            )
        }),
{
    let (after, on) = after_found(scan, found);
    if after.warnings.len() > scan.warnings.len() {
        let n = scan.warnings.len() as int;
        assert(after.warnings == scan.warnings.push(after.warnings[n]));
        assert(after.warnings[n].path == place_of(found.entry, scan.directory) || !on);
        assert(after.warnings.contains(after.warnings[n]));
    }
    if after.records.len() > scan.records.len() {
        assert(after.records.contains(after.records[scan.records.len() as int]));
    }
}

proof fn lemma_stays_settled(before: JournalScan, after: JournalScan, found: Found)
    requires
        is_settled(before, found),
        after.directory == before.directory,
        after.records == before.records || exists|record: Snapshot|
            after.records == #[trigger] before.records.push(record),
        after.warnings == before.warnings || exists|warning: Warning|
            after.warnings == #[trigger] before.warnings.push(warning),
    ensures
        is_settled(after, found),
{
    if let Ok(record) = found.load {
        if before.records.contains(record) {
            let k = choose|k: int| 0 <= k < before.records.len() && before.records[k] == record;
            assert(after.records[k] == record);
        }
    }
    if exists|i: int|
        0 <= i < before.warnings.len() && (#[trigger] before.warnings[i]).path == place_of(
            found.entry,
            before.directory,
        ) {
        let i = choose|i: int|
            0 <= i < before.warnings.len() && (#[trigger] before.warnings[i]).path == place_of(
                found.entry,
                before.directory,
            );
        assert(after.warnings[i] == before.warnings[i]);
    }
}

/// An ID is safe if and only if it has one to a hundred and twenty-eight scalar
/// values, and each is an ASCII letter, a digit, a hyphen or an underscore.
pub proof fn law_safe_ids(id: Seq<char>)
    ensures
        valid_id(id) <==> 1 <= id.len() <= 128 && forall|i: int|
            0 <= i < id.len() ==> {
                let n = (#[trigger] id[i]) as u32;
                (48 <= n && n <= 57) || (65 <= n && n <= 90) || (97 <= n && n <= 122) || n == 45
                    || n == 95
            },
{
    if forall|i: int| 0 <= i < id.len() ==> is_id_char(#[trigger] id[i]) {
        lemma_ascii_len(id);
    }
    if valid_id(id) {
        assert forall|i: int| 0 <= i < id.len() implies {
            let n = (#[trigger] id[i]) as u32;
            (48 <= n && n <= 57) || (65 <= n && n <= 90) || (97 <= n && n <= 122) || n == 45 || n
                == 95
        } by {
            assert(is_id_char(id[i]));
        }
    }
    if forall|i: int|
        0 <= i < id.len() ==> {
            let n = (#[trigger] id[i]) as u32;
            (48 <= n && n <= 57) || (65 <= n && n <= 90) || (97 <= n && n <= 122) || n == 45 || n
                == 95
        } {
        assert forall|i: int| 0 <= i < id.len() implies is_id_char(#[trigger] id[i]) by {
            let c = id[i];
            char_u32_cast(c, c as u32);
            char_u32_cast('-', 45);
            char_u32_cast('_', 95);
        }
    }
}

/// A record is accepted if and only if it has the one known version, a safe ID,
/// a workspace, unsaved changes, and positions inside its text.
pub proof fn law_accepted_records(record: Snapshot)
    ensures
        record_fault(record) is None <==> {
            &&& record.version == 1
            &&& valid_id(record.id)
            &&& record.workspace_root.len() > 0
            &&& record.saved_revision != Some(record.revision)
            &&& record.cursor <= record.text.len()
            &&& (record.anchor matches Some(anchor) ==> anchor <= record.text.len())
        },
        record.version != 1 ==> record_fault(record) == Some(
            RecoveryFault::UnsupportedVersion { found: record.version, supported: 1 },
        ),
        record.version == 1 && !valid_id(record.id) ==> record_fault(record) == Some(
            RecoveryFault::InvalidId(record.id),
        ),
{
}

/// The newest record comes first; records of the same time are in the order of
/// their IDs.
pub proof fn law_newest_record_comes_first(a: Snapshot, b: Snapshot)
    ensures
        a.recorded_at_unix_millis > b.recorded_at_unix_millis ==> newer(a, b) && !newer(b, a),
        a.recorded_at_unix_millis == b.recorded_at_unix_millis ==> (newer(a, b) <==> text_before(
            a.id,
            b.id,
        )),
{
}

proof fn lemma_two_parts(base: Seq<u8>, a: Seq<char>, b: Seq<char>)
    requires
        base.len() > 0,
        base.last() != 47,
        encode_utf8(a).len() > 0,
        encode_utf8(a).last() != 47,
    ensures
        path_join(path_join(base, encode_utf8(a)), encode_utf8(b)) == base + encode_utf8(
            "/"@ + a + "/"@ + b,
        ),
        path_join(base, encode_utf8(a)) == base + encode_utf8("/"@ + a),
{
    reveal_strlit("/");
    let slash = "/"@;
    assert(is_ascii_chars(slash));
    is_ascii_chars_encode_utf8(slash);
    assert(encode_utf8(slash) =~= seq![47u8]);
    lemma_encode_add(slash, a);
    lemma_encode_add(slash + a, slash);
    lemma_encode_add(slash + a + slash, b);
    let first = path_join(base, encode_utf8(a));
    assert(first =~= base + encode_utf8(slash + a));
    assert(first.last() == encode_utf8(a).last());
    assert(path_join(first, encode_utf8(b)) =~= base + encode_utf8(slash + a + slash + b));
}

/// Journals stand below the state directory that the environment names, where
/// that is absolute; below that of the home directory otherwise; and nowhere
/// where neither is absolute.
pub proof fn law_recovery_location(xdg: Option<Seq<u8>>, home: Option<Seq<u8>>)
    requires
        xdg matches Some(value) ==> value.len() == 0 || value.last() != 47,
        home matches Some(value) ==> value.len() == 0 || value.last() != 47,
    ensures
        recovery_location(xdg, home) == if xdg is Some && xdg->0.len() > 0 && xdg->0[0] == 47 {
            Some(xdg->0 + encode_utf8("/wscrpt/recovery"@))
        } else if home is Some && home->0.len() > 0 && home->0[0] == 47 {
            Some(home->0 + encode_utf8("/.local/state/wscrpt/recovery"@))
        } else {
            None
        },
{
    reveal_strlit("/");
    reveal_strlit("wscrpt");
    reveal_strlit("recovery");
    reveal_strlit(".local/state");
    reveal_strlit("/wscrpt/recovery");
    reveal_strlit("/.local/state/wscrpt/recovery");
    assert(is_ascii_chars("wscrpt"@));
    is_ascii_chars_encode_utf8("wscrpt"@);
    assert(is_ascii_chars(".local/state"@));
    is_ascii_chars_encode_utf8(".local/state"@);
    assert("/wscrpt/recovery"@ =~= "/"@ + "wscrpt"@ + "/"@ + "recovery"@);
    if xdg is Some && xdg->0.len() > 0 && xdg->0[0] == 47 {
        lemma_two_parts(xdg->0, "wscrpt"@, "recovery"@);
    } else if home is Some && home->0.len() > 0 && home->0[0] == 47 {
        let base = home->0;
        lemma_two_parts(base, ".local/state"@, "wscrpt"@);
        let inner = path_join(base, encode_utf8(".local/state"@));
        lemma_two_parts(inner, "wscrpt"@, "recovery"@);
        let front = "/"@ + ".local/state"@;
        let back = "/"@ + "wscrpt"@ + "/"@ + "recovery"@;
        lemma_encode_add(front, back);
        assert(front + back =~= "/.local/state/wscrpt/recovery"@);
        assert(base + encode_utf8(front) + encode_utf8(back) =~= base + encode_utf8(front + back));
    }
}

/// A number is written with the sixteen digits from `0` to `f`, as many of them
/// as there is room for.
pub proof fn law_hexadecimal_notation(n: nat, width: nat, d: int)
    requires
        0 <= d < 16,
    ensures
        hex(n, width).len() == width,
        hex((16 * n + d) as nat, width + 1) == hex(n, width).push("0123456789abcdef"@[d]),
    decreases width,
{
    reveal_strlit("0123456789abcdef");
    let m = (16 * n + d) as nat;
    assert(m / 16 == n && m % 16 == d) by (nonlinear_arith)
        requires
            m == 16 * n + d,
            0 <= d < 16,
    ;
    assert(hex_digits()[d] == "0123456789abcdef"@[d]) by {
        assert(d == 0 || d == 1 || d == 2 || d == 3 || d == 4 || d == 5 || d == 6 || d == 7 || d
            == 8 || d == 9 || d == 10 || d == 11 || d == 12 || d == 13 || d == 14 || d == 15);
    }
    if width > 0 {
        law_hexadecimal_notation(n / 16, (width - 1) as nat, 0);
    }
}

/// A generated ID holds the time, the process and the sequence number, each with
/// all its digits, in this order.
pub proof fn law_id_layout(parts: IdParts)
    ensures
        ({
            let id = id_of(parts);
            &&& id.len() == 53
            &&& id[0] == 'r' && id[1] == '-' && id[18] == '-' && id[27] == '-' && id[36] == '-'
            &&& id.subrange(2, 18) == hex(parts.seconds as nat, 16)
            &&& id.subrange(19, 27) == hex(parts.nanoseconds as nat, 8)
            &&& id.subrange(28, 36) == hex(parts.process as nat, 8)
            &&& id.subrange(37, 53) == hex(parts.sequence as nat, 16)
        }),
{
    reveal_strlit("r-");
    reveal_strlit("-");
    law_hexadecimal_notation(parts.seconds as nat, 16, 0);
    law_hexadecimal_notation(parts.nanoseconds as nat, 8, 0);
    law_hexadecimal_notation(parts.process as nat, 8, 0);
    law_hexadecimal_notation(parts.sequence as nat, 16, 0);
    let id = id_of(parts);
    assert(id.subrange(2, 18) =~= hex(parts.seconds as nat, 16));
    assert(id.subrange(19, 27) =~= hex(parts.nanoseconds as nat, 8));
    assert(id.subrange(28, 36) =~= hex(parts.process as nat, 8));
    assert(id.subrange(37, 53) =~= hex(parts.sequence as nat, 16));
}

/// A filename is that of a journal if and only if it is valid UTF-8 and ends in
/// `.toml`, and it names what stands before that, where this is a safe ID.
pub proof fn law_journal_filenames(name: Seq<char>)
    ensures
        looks_like_journal(encode_utf8(name)) <==> name.len() >= 5 && name.skip(name.len() - 5)
            == ".toml"@,
        name.len() >= 5 && name.skip(name.len() - 5) == ".toml"@ ==> id_in_filename(
            encode_utf8(name),
        ) == if valid_id(name.take(name.len() - 5)) {
            Some(name.take(name.len() - 5))
        } else {
            None
        },
{
    reveal_strlit(".toml");
    encode_utf8_valid_utf8(name);
    encode_utf8_decode_utf8(name);
    if name.len() >= 5 {
        assert(name.subrange(name.len() - 5, name.len() - 5 + 5) =~= name.skip(name.len() - 5));
    }
}

} // verus!
