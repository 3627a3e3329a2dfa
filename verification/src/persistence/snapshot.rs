//! The snapshot: what it holds, how it is checked, and what is to be written.
//!
//! A snapshot is stored as a JSON document. Its text is read and written outside; here
//! stands what the document must hold.

use vstd::prelude::*;
use vstd::utf8::encode_utf8;

use super::error::{PersistenceError, PersistenceErrorView};
use super::script::{
    after_step, after_steps, durable_at, flushed_before_sync, flushes, law_untouched_files_stay,
    leaves_alone, lemma_after_steps, lemma_ran_in_order, made_durable, plain_step, ran, reported,
    script_after, step_result, step_views, synchronised_at, syncs, writes, DocumentReadView,
    FileContent, FileEventView, FileOperation, FileOperationView, FileScript, FileStep,
    FileStepView, Files, ScriptView,
};
use super::format::{
    checksum, checksum64, law_checksum_notices_a_changed_byte, mismatch_message, mismatch_text,
};
use crate::domain::Store;
use crate::number::{
    decimal, hex16_text, hex_fixed, law_parse_of_hex, parse_number_text, parsed, push_decimal,
};
use crate::result_view;
use crate::text::{lemma_encode_injective, same_text};
use crate::text_map::{
    contents_of, entry_views, lemma_entries_of_map, sorted_entries, Contents, EntryView,
};

verus! {

/// The version of the snapshots that are written and read.
pub const SNAPSHOT_VERSION: u16 = 1;

/// The largest number of bytes that a snapshot file may have.
pub const MAX_SNAPSHOT_BYTES: u64 = 64 * 1024 * 1024;

/// The content of a snapshot file.
#[derive(Debug, Clone, PartialEq, Eq)]
pub struct SnapshotFile {
    pub magic: String,
    pub version: u16,
    pub last_seq: u64,
    pub entries: Vec<(String, String)>,
    pub checksum: String,
}

/// A snapshot file over character sequences.
pub ghost struct SnapshotView {
    pub magic: Seq<char>,
    pub version: u16,
    pub last_seq: u64,
    pub entries: Seq<EntryView>,
    pub checksum: Seq<char>,
}

impl View for SnapshotFile {
    type V = SnapshotView;

    open spec fn view(&self) -> SnapshotView {
        SnapshotView {
            magic: self.magic@,
            version: self.version,
            last_seq: self.last_seq,
            entries: entry_views(self.entries@),
            checksum: self.checksum@,
        }
    }
}

/// A snapshot that was loaded, with the sequence number up to which it covers the log.
#[derive(Debug)]
pub struct LoadedSnapshot {
    pub store: Store,
    pub last_seq: u64,
}

/// What the file system says of a snapshot file.
#[derive(Debug, Clone, PartialEq, Eq)]
pub enum SnapshotMetadata {
    /// There is no such file.
    Missing,
    /// The question failed, with the cause.
    Unreadable(String),
    /// There is one.
    Found { is_file: bool, len: u64 },
}

/// Reads and writes the snapshot of one path.
#[derive(Debug)]
pub struct SnapshotRepository {
    path: String,
}

impl View for SnapshotRepository {
    type V = Seq<char>;

    closed spec fn view(&self) -> Seq<char> {
        self.path@
    }
}

// ---------------------------------------------------------------------------------------
// Checksum
// ---------------------------------------------------------------------------------------

/// A number in `width` bytes, the least significant first.
pub open spec fn little_endian(n: nat, width: nat) -> Seq<u8>
    decreases width,
{
    if width == 0 {
        Seq::empty()
    } else {
        seq![(n % 256) as u8] + little_endian(n / 256, (width - 1) as nat)
    }
}

/// A text after its length in bytes.
pub open spec fn framed(text: Seq<char>) -> Seq<u8> {
    little_endian(encode_utf8(text).len(), 8) + encode_utf8(text)
}

/// The entries of a snapshot as bytes.
pub open spec fn entries_bytes(entries: Seq<EntryView>) -> Seq<u8>
    decreases entries.len(),
{
    if entries.len() == 0 {
        Seq::empty()
    } else {
        entries_bytes(entries.drop_last()) + framed(entries.last().0) + framed(entries.last().1)
    }
}

/// The bytes over which the checksum of a snapshot is taken.
pub open spec fn canonical_bytes(version: u16, last_seq: u64, entries: Seq<EntryView>) -> Seq<
    u8,
> {
    encode_utf8("RUST_KV_SNAPSHOT"@) + little_endian(version as nat, 2) + little_endian(
        last_seq as nat,
        8,
    ) + entries_bytes(entries)
}

/// The checksum of a snapshot.
pub open spec fn snapshot_checksum(version: u16, last_seq: u64, entries: Seq<EntryView>) -> u64 {
    checksum(canonical_bytes(version, last_seq, entries))
}

fn push_bytes(out: &mut Vec<u8>, bytes: &[u8])
    ensures
        final(out)@ == old(out)@ + bytes@,
{
    let mut i: usize = 0;
    assert(old(out)@ + bytes@.take(0) =~= old(out)@);
    while i < bytes.len()
        invariant
            i <= bytes@.len(),
            out@ == old(out)@ + bytes@.take(i as int),
        decreases bytes@.len() - i,
    {
        out.push(bytes[i]);
        assert(old(out)@ + bytes@.take(i + 1) =~= (old(out)@ + bytes@.take(i as int)).push(
            bytes@[i as int],
        ));
        i += 1;
    }
    assert(bytes@.take(i as int) =~= bytes@);
}

fn push_little_endian(out: &mut Vec<u8>, n: u64, width: usize)
    ensures
        final(out)@ == old(out)@ + little_endian(n as nat, width as nat),
    decreases width,
{
    if width > 0 {
        out.push((n % 256) as u8);
        push_little_endian(out, n / 256, width - 1);
    }
    assert(out@ =~= old(out)@ + little_endian(n as nat, width as nat));
}

fn push_framed(out: &mut Vec<u8>, text: &str)
    ensures
        final(out)@ == old(out)@ + framed(text@),
{
    let bytes = text.as_bytes();
    push_little_endian(out, bytes.len() as u64, 8);
    push_bytes(out, bytes);
    assert(out@ =~= old(out)@ + framed(text@));
}

/// The checksum of a snapshot with the given entries.
pub fn calculate_checksum(version: u16, last_seq: u64, entries: &Vec<(String, String)>) -> (hash:
    u64)
    ensures
        hash == snapshot_checksum(version, last_seq, entry_views(entries@)),
{
    let mut canonical: Vec<u8> = Vec::new();
    push_bytes(&mut canonical, "RUST_KV_SNAPSHOT".as_bytes());
    push_little_endian(&mut canonical, version as u64, 2);
    push_little_endian(&mut canonical, last_seq, 8);
    let ghost head = canonical@;
    let ghost all = entry_views(entries@);
    let mut i: usize = 0;
    assert(head =~= head + entries_bytes(all.take(0)));
    while i < entries.len()
        invariant
            i <= entries@.len(),
            all == entry_views(entries@),
            canonical@ == head + entries_bytes(all.take(i as int)),
        decreases entries@.len() - i,
    {
        push_framed(&mut canonical, entries[i].0.as_str());
        push_framed(&mut canonical, entries[i].1.as_str());
        proof {
            let next = all.take(i + 1);
            assert(next.drop_last() =~= all.take(i as int));
            assert(next.last() == (entries@[i as int].0@, entries@[i as int].1@));
            assert(canonical@ =~= head + entries_bytes(next));
        }
        i += 1;
    }
    proof {
        assert(all.take(i as int) =~= all);
        assert(canonical@ =~= canonical_bytes(version, last_seq, all));
    }
    checksum64(canonical.as_slice())
}

/// Reads the checksum of a snapshot.
pub fn parse_checksum(value: &str) -> (result: Result<u64, String>)
    ensures
        match parsed(value@, 16, u64::MAX as nat) {
            Some(hash) => result is Ok && result->Ok_0 as nat == hash,
            None => result is Err && result->Err_0@ == "invalid snapshot checksum"@,
        },
{
    match parse_number_text(value, 16, u64::MAX) {
        Some(hash) => Ok(hash),
        None => Err("invalid snapshot checksum".to_owned()),
    }
}

// ---------------------------------------------------------------------------------------
// Loading and saving
// ---------------------------------------------------------------------------------------

/// The snapshot of what a store holds.
pub open spec fn snapshot_of(contents: Contents, last_seq: u64) -> SnapshotView {
    SnapshotView {
        magic: "RUST_KV_SNAPSHOT"@,
        version: SNAPSHOT_VERSION,
        last_seq,
        entries: sorted_entries(contents),
        checksum: hex_fixed(
            snapshot_checksum(SNAPSHOT_VERSION, last_seq, sorted_entries(contents)) as nat,
            16,
        ),
    }
}

/// What a snapshot holds, and up to which sequence number; or why it is refused.
pub open spec fn loaded(snapshot: SnapshotView) -> Result<(Contents, u64), Seq<char>> {
    let contents = contents_of(snapshot.entries);
    let expected = parsed(snapshot.checksum, 16, u64::MAX as nat);
    let actual = snapshot_checksum(snapshot.version, snapshot.last_seq, sorted_entries(contents));
    if snapshot.magic != "RUST_KV_SNAPSHOT"@ {
        Err("invalid snapshot magic"@)
    } else if snapshot.version != SNAPSHOT_VERSION {
        Err("unsupported snapshot version: "@ + decimal(snapshot.version as nat))
    } else if expected is None {
        Err("invalid snapshot checksum"@)
    } else if expected->0 != actual {
        Err(mismatch_text(expected->0 as u64, actual))
    } else {
        Ok((contents, snapshot.last_seq))
    }
}

/// Whether a snapshot that was read back is the one that was written.
pub open spec fn as_written(snapshot: SnapshotView, last_seq: u64, hash: u64) -> bool {
    &&& snapshot.magic == "RUST_KV_SNAPSHOT"@
    &&& snapshot.version == SNAPSHOT_VERSION
    &&& snapshot.last_seq == last_seq
    &&& parsed(snapshot.checksum, 16, u64::MAX as nat) == Some(hash as nat)
}

/// The error for a snapshot that cannot be used.
pub open spec fn snapshot_error(path: Seq<char>, reason: Seq<char>) -> PersistenceErrorView {
    PersistenceErrorView::Corrupt { path, line: 0, offset: 0, reason }
}

/// Whether there is a snapshot to load. That there is none means a first start.
pub open spec fn inspected(path: Seq<char>, metadata: SnapshotMetadata) -> Result<
    bool,
    PersistenceErrorView,
> {
    match metadata {
        SnapshotMetadata::Missing => Ok(false),
        SnapshotMetadata::Unreadable(cause) => Err(
            PersistenceErrorView::Io { action: "read snapshot metadata"@, path, source: cause@ },
        ),
        SnapshotMetadata::Found { is_file, len } => if !is_file {
            Err(snapshot_error(path, "snapshot path is not a regular file"@))
        } else if len > MAX_SNAPSHOT_BYTES {
            Err(snapshot_error(path, "snapshot exceeds the maximum size"@))
        } else {
            Ok(true)
        },
    }
}

/// What the document in a snapshot file holds, and up to which sequence number; or why it is
/// refused.
pub open spec fn loaded_document(
    path: Seq<char>,
    document: Result<SnapshotView, Seq<char>>,
) -> Result<(Contents, u64), PersistenceErrorView> {
    match document {
        Err(cause) => Err(snapshot_error(path, "invalid JSON: "@ + cause)),
        Ok(snapshot) => match loaded(snapshot) {
            Ok(found) => Ok(found),
            Err(reason) => Err(snapshot_error(path, reason)),
        },
    }
}

/// Whether a snapshot that was read back may be put in place, or why not.
pub open spec fn checked_document(
    path: Seq<char>,
    len: u64,
    document: Result<SnapshotView, Seq<char>>,
    last_seq: u64,
    hash: u64,
) -> Result<(), PersistenceErrorView> {
    if len > MAX_SNAPSHOT_BYTES {
        Err(snapshot_error(path, "snapshot exceeds the maximum size"@))
    } else {
        match document {
            Err(cause) => Err(
                snapshot_error(path, "temporary snapshot JSON is invalid: "@ + cause),
            ),
            Ok(snapshot) => if as_written(snapshot, last_seq, hash) {
                Ok(())
            } else {
                Err(snapshot_error(path, "temporary snapshot verification failed"@))
            },
        }
    }
}

fn corrupt(path: &str, reason: String) -> (error: PersistenceError)
    ensures
        error@ == snapshot_error(path@, reason@),
{
    PersistenceError::Corrupt { path: path.to_owned(), line: 0, offset: 0, reason }
}

fn check(snapshot: SnapshotFile) -> (result: Result<LoadedSnapshot, String>)
    ensures
        match loaded(snapshot@) {
            Ok((contents, last_seq)) => result is Ok && result->Ok_0.store@ == contents
                && result->Ok_0.last_seq == last_seq,
            Err(reason) => result is Err && result->Err_0@ == reason,
        },
{
    if !same_text(snapshot.magic.as_str(), "RUST_KV_SNAPSHOT") {
        return Err("invalid snapshot magic".to_owned());
    }
    if snapshot.version != SNAPSHOT_VERSION {
        let mut reason = "unsupported snapshot version: ".to_owned();
        push_decimal(&mut reason, snapshot.version as u128);
        return Err(reason);
    }
    let expected_checksum: u64 = match parse_checksum(snapshot.checksum.as_str()) {
        Ok(hash) => hash,
        Err(reason) => {
            return Err(reason);
        },
    };
    let version: u16 = snapshot.version;
    let last_seq: u64 = snapshot.last_seq;
    let store = Store::from_entries(snapshot.entries);
    let actual_checksum: u64 = calculate_checksum(version, last_seq, &store.export_entries());
    if expected_checksum != actual_checksum {
        return Err(mismatch_message(expected_checksum, actual_checksum));
    }
    Ok(LoadedSnapshot { store, last_seq })
}

impl SnapshotRepository {
    /// The repository of a path.
    #[must_use]
    pub fn new(path: String) -> (repository: SnapshotRepository)
        ensures
            repository@ == path@,
    {
        SnapshotRepository { path }
    }

    /// Whether there is a snapshot to load. That there is none means a first start; a file
    /// that cannot be a snapshot is an error.
    pub fn inspect(&self, metadata: &SnapshotMetadata) -> (result: Result<bool, PersistenceError>)
        ensures
            result_view(result) == inspected(self@, *metadata),
    {
        match metadata {
            SnapshotMetadata::Missing => Ok(false),
            SnapshotMetadata::Unreadable(cause) => Err(
                PersistenceError::io("read snapshot metadata", self.path.clone(), cause.clone()),
            ),
            SnapshotMetadata::Found { is_file, len } => if !*is_file {
                Err(corrupt(self.path.as_str(), "snapshot path is not a regular file".to_owned()))
            } else if *len > MAX_SNAPSHOT_BYTES {
                Err(corrupt(self.path.as_str(), "snapshot exceeds the maximum size".to_owned()))
            } else {
                Ok(true)
            },
        }
    }

    /// Checks the document that stands in the snapshot file, or the reason why there is
    /// none in it. A file without a usable document is an error, not an empty store.
    pub fn load(&self, document: Result<SnapshotFile, String>) -> (result: Result<
        LoadedSnapshot,
        PersistenceError,
    >)
        ensures
            match loaded_document(self@, result_view(document)) {
                Ok((contents, last_seq)) => result is Ok && result->Ok_0.store@ == contents
                    && result->Ok_0.last_seq == last_seq,
                Err(error) => result is Err && result->Err_0@ == error,
            },
    {
        match document {
            Err(cause) => {
                let mut reason = "invalid JSON: ".to_owned();
                reason.append(cause.as_str());
                Err(corrupt(self.path.as_str(), reason))
            },
            Ok(snapshot) => match check(snapshot) {
                Ok(snapshot) => Ok(snapshot),
                Err(reason) => Err(corrupt(self.path.as_str(), reason)),
            },
        }
    }

    /// The document to write for a store, and its checksum.
    #[must_use]
    pub fn save(&self, store: &Store, last_seq: u64) -> (document: (SnapshotFile, u64))
        ensures
            document.0@ == snapshot_of(store@, last_seq),
            document.1 == snapshot_checksum(SNAPSHOT_VERSION, last_seq, sorted_entries(store@)),
    {
        let entries = store.export_entries();
        let hash: u64 = calculate_checksum(SNAPSHOT_VERSION, last_seq, &entries);
        let snapshot = SnapshotFile {
            magic: "RUST_KV_SNAPSHOT".to_owned(),
            version: SNAPSHOT_VERSION,
            last_seq,
            entries,
            checksum: hex16_text(hash),
        };
        (snapshot, hash)
    }
}

/// Checks a snapshot that was written to a temporary file and read back, before it takes the
/// place of the old one. A file of more bytes than a start accepts is refused here, so that
/// it never becomes the file that the next start finds.
pub fn validate_temporary_snapshot(
    path: &str,
    len: u64,
    document: Result<SnapshotFile, String>,
    last_seq: u64,
    hash: u64,
) -> (result: Result<(), PersistenceError>)
    ensures
        result_view(result) == checked_document(path@, len, result_view(document), last_seq, hash),
{
    if len > MAX_SNAPSHOT_BYTES {
        return Err(corrupt(path, "snapshot exceeds the maximum size".to_owned()));
    }
    match document {
        Err(cause) => {
            let mut reason = "temporary snapshot JSON is invalid: ".to_owned();
            reason.append(cause.as_str());
            Err(corrupt(path, reason))
        },
        Ok(snapshot) => {
            let same_hash: bool = match parse_checksum(snapshot.checksum.as_str()) {
                Ok(found) => found == hash,
                Err(_) => false,
            };
            if !same_text(snapshot.magic.as_str(), "RUST_KV_SNAPSHOT") || snapshot.version
                != SNAPSHOT_VERSION || snapshot.last_seq != last_seq || !same_hash {
                Err(corrupt(path, "temporary snapshot verification failed".to_owned()))
            } else {
                Ok(())
            }
        },
    }
}

// ---------------------------------------------------------------------------------------
// Putting a snapshot in place
// ---------------------------------------------------------------------------------------

/// The paths that have to do with a snapshot: the directory that holds it, the file itself,
/// the file that is written first, and the copy of the last one.
#[derive(Debug, Clone, PartialEq, Eq)]
pub struct SnapshotPaths {
    pub parent: Option<String>,
    pub current: String,
    pub temporary: String,
    pub backup: String,
}

/// The paths of a snapshot over character sequences.
pub ghost struct SnapshotPathsView {
    pub parent: Option<Seq<char>>,
    pub current: Seq<char>,
    pub temporary: Seq<char>,
    pub backup: Seq<char>,
}

impl View for SnapshotPaths {
    type V = SnapshotPathsView;

    open spec fn view(&self) -> SnapshotPathsView {
        SnapshotPathsView {
            parent: crate::option_view(self.parent),
            current: self.current@,
            temporary: self.temporary@,
            backup: self.backup@,
        }
    }
}

/// The step that creates the directory of a file, where the path names one.
pub open spec fn directory_steps(parent: Option<Seq<char>>, action: Seq<char>) -> Seq<
    FileStepView,
> {
    match parent {
        None => Seq::empty(),
        Some(path) => seq![
            FileStepView { operation: FileOperationView::CreateDirectory, path, action, skip: 0 },
        ],
    }
}

/// The steps that put a snapshot in place: it is written to a temporary file, synchronised
/// and read back; the old one is copied, where there is one; and only at the end the new one
/// takes its name.
pub open spec fn save_steps(
    paths: SnapshotPathsView,
    snapshot: SnapshotView,
    hash: u64,
) -> Seq<FileStepView> {
    let (current, temporary, backup) = (paths.current, paths.temporary, paths.backup);
    directory_steps(paths.parent, "create snapshot directory"@) + seq![
        FileStepView {
            operation: FileOperationView::SerializeSnapshot(snapshot),
            path: current,
            action: "serialize snapshot"@,
            skip: 0,
        },
        FileStepView {
            operation: FileOperationView::CreateFile,
            path: temporary,
            action: "create temporary snapshot"@,
            skip: 0,
        },
        FileStepView {
            operation: FileOperationView::WriteDocument,
            path: temporary,
            action: "write temporary snapshot"@,
            skip: 0,
        },
        FileStepView {
            operation: FileOperationView::Flush,
            path: temporary,
            action: "flush temporary snapshot"@,
            skip: 0,
        },
        FileStepView {
            operation: FileOperationView::SyncAll,
            path: temporary,
            action: "sync temporary snapshot"@,
            skip: 0,
        },
        FileStepView {
            operation: FileOperationView::CheckSnapshot {
                last_seq: snapshot.last_seq,
                checksum: hash,
            },
            path: temporary,
            action: "verify temporary snapshot"@,
            skip: 0,
        },
        FileStepView {
            operation: FileOperationView::FindFile,
            path: current,
            action: "find snapshot"@,
            skip: 2,
        },
        FileStepView {
            operation: FileOperationView::CopyFrom(current),
            path: backup,
            action: "backup snapshot"@,
            skip: 0,
        },
        FileStepView {
            operation: FileOperationView::SyncFile,
            path: backup,
            action: "sync snapshot backup"@,
            skip: 0,
        },
        FileStepView {
            operation: FileOperationView::RenameFrom(temporary),
            path: current,
            action: "replace snapshot"@,
            skip: 0,
        },
    ]
}

/// The script that puts a snapshot in place.
#[must_use]
pub fn save_script(paths: &SnapshotPaths, snapshot: SnapshotFile, hash: u64) -> (script: FileScript)
    ensures
        script@ == (ScriptView { steps: save_steps(paths@, snapshot@, hash), at: 0 }),
{
    let last_seq: u64 = snapshot.last_seq;
    let mut steps: Vec<FileStep> = Vec::new();
    match &paths.parent {
        None => {},
        Some(parent) => {
            steps.push(
                plain_step(FileOperation::CreateDirectory, parent, "create snapshot directory"),
            );
        },
    }
    steps.push(
        plain_step(
            FileOperation::SerializeSnapshot(snapshot),
            &paths.current,
            "serialize snapshot",
        ),
    );
    steps.push(
        plain_step(FileOperation::CreateFile, &paths.temporary, "create temporary snapshot"),
    );
    steps.push(
        plain_step(FileOperation::WriteDocument, &paths.temporary, "write temporary snapshot"),
    );
    steps.push(plain_step(FileOperation::Flush, &paths.temporary, "flush temporary snapshot"));
    steps.push(plain_step(FileOperation::SyncAll, &paths.temporary, "sync temporary snapshot"));
    steps.push(
        plain_step(
            FileOperation::CheckSnapshot { last_seq, checksum: hash },
            &paths.temporary,
            "verify temporary snapshot",
        ),
    );
    steps.push(
        FileStep {
            operation: FileOperation::FindFile,
            path: paths.current.clone(),
            action: "find snapshot",
            skip: 2,
        },
    );
    steps.push(
        plain_step(
            FileOperation::CopyFrom(paths.current.clone()),
            &paths.backup,
            "backup snapshot",
        ),
    );
    steps.push(plain_step(FileOperation::SyncFile, &paths.backup, "sync snapshot backup"));
    steps.push(
        plain_step(
            FileOperation::RenameFrom(paths.temporary.clone()),
            &paths.current,
            "replace snapshot",
        ),
    );
    assert(step_views(steps@) =~= save_steps(paths@, snapshot@, hash));
    FileScript::new(steps)
}

/// A snapshot that cannot be written leaves the old one alone: up to the last step no step
/// touches the file in place, and the last one gives it the file that was checked. The check
/// is not passed over, and it comes before the last step. The paths must differ.
pub proof fn law_old_snapshot_stays_until_the_end(
    paths: SnapshotPathsView,
    snapshot: SnapshotView,
    hash: u64,
    files: Files,
    done: int,
)
    requires
        paths.temporary != paths.current,
        paths.backup != paths.current,
        0 <= done < save_steps(paths, snapshot, hash).len(),
    ensures
        ({
            let steps = save_steps(paths, snapshot, hash);
            let stopped = after_steps(files, steps.take(done));
            &&& stopped.contents.contains_key(paths.current) == files.contents.contains_key(
                paths.current,
            )
            &&& files.contents.contains_key(paths.current) ==> stopped.contents[paths.current]
                == files.contents[paths.current]
            &&& steps.last().operation == FileOperationView::RenameFrom(paths.temporary)
            &&& steps.last().path == paths.current
            &&& steps[steps.len() - 5].operation == (FileOperationView::CheckSnapshot {
                last_seq: snapshot.last_seq,
                checksum: hash,
            })
            &&& steps[steps.len() - 5].path == paths.temporary
            &&& forall|i: int| 0 <= i <= steps.len() - 5 ==> (#[trigger] steps[i]).skip == 0
        }),
{
    let steps = save_steps(paths, snapshot, hash);
    let part = steps.take(done);
    assert forall|i: int| 0 <= i < part.len() implies leaves_alone(
        #[trigger] part[i],
        paths.current,
    ) by {
        assert(part[i] == steps[i]);
    }
    law_untouched_files_stay(files, part, paths.current);
}

/// Before it is checked, the new snapshot stands in the temporary file, and no other file has
/// changed.
proof fn lemma_written_snapshot(
    paths: SnapshotPathsView,
    snapshot: SnapshotView,
    hash: u64,
    files: Files,
)
    ensures
        ({
            let steps = save_steps(paths, snapshot, hash);
            let written = after_steps(files, steps.take(steps.len() - 5));
            &&& written.contents == files.contents.insert(
                paths.temporary,
                FileContent::Document(snapshot),
            )
            &&& written.size_of == files.size_of
        }),
{
    let steps = save_steps(paths, snapshot, hash);
    let first = steps.len() - 10;
    assert(steps.take(0) =~= Seq::empty());
    if first == 1 {
        lemma_after_steps(files, steps, 0);
    }
    lemma_after_steps(files, steps, first);
    lemma_after_steps(files, steps, first + 1);
    lemma_after_steps(files, steps, first + 2);
    lemma_after_steps(files, steps, first + 3);
    lemma_after_steps(files, steps, first + 4);
    assert(after_steps(files, steps.take(first + 5)).contents =~= files.contents.insert(
        paths.temporary,
        FileContent::Document(snapshot),
    ));
}

/// When the steps were done, the file in place holds the snapshot, and the copy holds the one
/// that was there before; without one before, no copy is made. The paths must differ.
pub proof fn law_saved_snapshot_is_in_place(
    paths: SnapshotPathsView,
    snapshot: SnapshotView,
    hash: u64,
    files: Files,
)
    requires
        paths.temporary != paths.current,
        paths.backup != paths.current,
        paths.backup != paths.temporary,
    ensures
        ({
            let steps = save_steps(paths, snapshot, hash);
            let n = steps.len() as int;
            let found = files.contents.contains_key(paths.current);
            let after = if found {
                after_steps(files, steps)
            } else {
                after_steps(files, steps.take(n - 3).push(steps.last()))
            };
            &&& after.contents.contains_key(paths.current)
            &&& after.contents[paths.current] == FileContent::Document(snapshot)
            &&& found ==> after.contents.contains_key(paths.backup)
                && after.contents[paths.backup] == files.contents[paths.current]
            &&& !found ==> after.contents.contains_key(paths.backup)
                == files.contents.contains_key(paths.backup)
        }),
{
    let steps = save_steps(paths, snapshot, hash);
    let n = steps.len() as int;
    lemma_written_snapshot(paths, snapshot, hash, files);
    lemma_after_steps(files, steps, n - 5);
    lemma_after_steps(files, steps, n - 4);
    lemma_after_steps(files, steps, n - 3);
    lemma_after_steps(files, steps, n - 2);
    lemma_after_steps(files, steps, n - 1);
    assert(steps.take(n) =~= steps);
    let short = steps.take(n - 3).push(steps.last());
    assert(short.drop_last() =~= steps.take(n - 3));
    assert(short.last() == steps.last());
}

/// A script that is resumed with what is reported of each step, on files where nothing fails,
/// performs all steps; where there is no old snapshot, all but those that copy it. A document
/// that is larger than what a start accepts ends the script at the check, with the old
/// snapshot still in place. The paths must differ, and the snapshot must be the one of its
/// checksum.
pub proof fn law_save_script_runs(
    paths: SnapshotPathsView,
    snapshot: SnapshotView,
    hash: u64,
    files: Files,
)
    requires
        paths.temporary != paths.current,
        paths.backup != paths.current,
        paths.backup != paths.temporary,
        as_written(snapshot, snapshot.last_seq, hash),
    ensures
        ({
            let steps = save_steps(paths, snapshot, hash);
            let n = steps.len() as int;
            let (after, script, result) = ran(files, ScriptView { steps, at: 0 }, None);
            if (files.size_of)(snapshot) > MAX_SNAPSHOT_BYTES {
                &&& after == after_steps(files, steps.take(n - 5))
                &&& script == (ScriptView { steps, at: (n - 5) as nat })
                &&& result == Err::<(), _>(
                    snapshot_error(paths.temporary, "snapshot exceeds the maximum size"@),
                )
            } else {
                &&& after == after_steps(
                    files,
                    if files.contents.contains_key(paths.current) {
                        steps
                    } else {
                        steps.take(n - 3).push(steps.last())
                    },
                )
                &&& script == (ScriptView { steps, at: n as nat })
                &&& result is Ok
            }
        }),
{
    let steps = save_steps(paths, snapshot, hash);
    let n = steps.len() as int;
    let written = after_steps(files, steps.take(n - 5));
    lemma_written_snapshot(paths, snapshot, hash, files);
    assert forall|i: int| 0 <= i < n - 5 implies {
        let before = after_steps(files, #[trigger] steps.take(i));
        let script = ScriptView { steps, at: i as nat };
        &&& !(reported(before, steps[i]) is NotNeeded)
        &&& script_after(script, reported(before, steps[i])) == Ok::<_, PersistenceErrorView>(
            ScriptView { steps, at: (i + 1) as nat },
        )
    } by {
        let operation = steps[i].operation;
        assert(!(operation is CreateNewFile || operation is FindFile
            || operation is CheckSnapshot));
    }
    lemma_ran_in_order(files, steps, (n - 5) as nat);
    lemma_after_steps(files, steps, n - 5);
    lemma_after_steps(files, steps, n - 4);
    lemma_after_steps(files, steps, n - 3);
    lemma_after_steps(files, steps, n - 2);
    lemma_after_steps(files, steps, n - 1);
    assert(steps.take(n) =~= steps);
    if (files.size_of)(snapshot) <= MAX_SNAPSHOT_BYTES {
        assert(ran(written, ScriptView { steps, at: (n - 5) as nat }, None) == ran(
            written,
            ScriptView { steps, at: (n - 4) as nat },
            None,
        ));
        let short = steps.take(n - 3).push(steps.last());
        assert(short.drop_last() =~= steps.take(n - 3));
        let copied = after_step(written, steps[n - 3]);
        if files.contents.contains_key(paths.current) {
            assert(ran(written, ScriptView { steps, at: (n - 4) as nat }, None) == ran(
                written,
                ScriptView { steps, at: (n - 3) as nat },
                None,
            ));
            assert(ran(written, ScriptView { steps, at: (n - 3) as nat }, None) == ran(
                copied,
                ScriptView { steps, at: (n - 2) as nat },
                None,
            ));
            assert(ran(copied, ScriptView { steps, at: (n - 2) as nat }, None) == ran(
                copied,
                ScriptView { steps, at: (n - 1) as nat },
                None,
            ));
            assert(ran(copied, ScriptView { steps, at: (n - 1) as nat }, None) == ran(
                after_step(copied, steps[n - 1]),
                ScriptView { steps, at: n as nat },
                None,
            ));
        } else {
            assert(ran(written, ScriptView { steps, at: (n - 4) as nat }, None) == ran(
                written,
                ScriptView { steps, at: (n - 1) as nat },
                None,
            ));
            assert(ran(written, ScriptView { steps, at: (n - 1) as nat }, None) == ran(
                after_step(written, steps[n - 1]),
                ScriptView { steps, at: n as nat },
                None,
            ));
        }
    }
}

// ---------------------------------------------------------------------------------------
// Laws
// ---------------------------------------------------------------------------------------

/// A snapshot gives back what it was taken of: the data and the sequence number. It also
/// passes the check before it is put in place.
pub proof fn law_snapshot_round_trip(contents: Contents, last_seq: u64)
    requires
        contents.dom().finite(),
    ensures
        loaded(snapshot_of(contents, last_seq)) == Ok::<_, Seq<char>>((contents, last_seq)),
        as_written(
            snapshot_of(contents, last_seq),
            last_seq,
            snapshot_checksum(SNAPSHOT_VERSION, last_seq, sorted_entries(contents)),
        ),
{
    lemma_entries_of_map(contents);
    law_parse_of_hex(snapshot_checksum(SNAPSHOT_VERSION, last_seq, sorted_entries(contents)));
}

/// A snapshot in which one byte of the data or of the sequence number was changed is
/// refused.
pub proof fn law_changed_snapshot_is_refused(
    contents: Contents,
    last_seq: u64,
    changed: SnapshotView,
    at: int,
    byte: u8,
)
    requires
        ({
            let before = canonical_bytes(SNAPSHOT_VERSION, last_seq, sorted_entries(contents));
            &&& 0 <= at < before.len()
            &&& before[at] != byte
            &&& canonical_bytes(
                changed.version,
                changed.last_seq,
                sorted_entries(contents_of(changed.entries)),
            ) == before.update(at, byte)
        }),
        changed.checksum == snapshot_of(contents, last_seq).checksum,
    ensures
        loaded(changed) is Err,
{
    let before = canonical_bytes(SNAPSHOT_VERSION, last_seq, sorted_entries(contents));
    law_checksum_notices_a_changed_byte(before, at, byte);
    law_parse_of_hex(checksum(before));
}

/// A snapshot is loaded only where it is one of this program and version, and its checksum is
/// that of its data. What is loaded are its entries, up to its sequence number.
pub proof fn law_only_own_snapshots_are_loaded(path: Seq<char>, snapshot: SnapshotView)
    ensures
        loaded_document(path, Ok(snapshot)) matches Ok((contents, last_seq)) ==> {
            &&& snapshot.magic == "RUST_KV_SNAPSHOT"@
            &&& snapshot.version == 1
            &&& contents == contents_of(snapshot.entries)
            &&& last_seq == snapshot.last_seq
            &&& parsed(snapshot.checksum, 16, u64::MAX as nat) == Some(
                checksum(canonical_bytes(1, last_seq, sorted_entries(contents))) as nat,
            )
        },
        loaded_document(path, Ok(snapshot)) is Ok <==> loaded(snapshot) is Ok,
        loaded_document(path, Ok(snapshot)) matches Err(error) ==> (error
            matches PersistenceErrorView::Corrupt { path: named, .. } && named == path),
{
}

/// A file without a document is an error that gives the cause, never an empty store.
pub proof fn law_unreadable_snapshots_are_errors(path: Seq<char>, cause: Seq<char>)
    ensures
        loaded_document(path, Err(cause)) matches Err(
            PersistenceErrorView::Corrupt { path: named, reason, .. },
        ) && named == path && cause.is_suffix_of(reason),
{
    let reason = "invalid JSON: "@ + cause;
    assert(reason.skip(reason.len() - cause.len()) =~= cause);
}

/// A snapshot is loaded just where there is a file of at most sixty-four mebibytes. That there
/// is none is no error, and whatever else is found is one.
pub proof fn law_which_files_are_loaded(path: Seq<char>, metadata: SnapshotMetadata)
    ensures
        inspected(path, metadata) == Ok::<_, PersistenceErrorView>(true) <==> (metadata
            matches SnapshotMetadata::Found { is_file, len } && is_file && len <= 64 * 1024
            * 1024),
        inspected(path, metadata) == Ok::<_, PersistenceErrorView>(false) <==> metadata is Missing,
        metadata matches SnapshotMetadata::Unreadable(cause) ==> (inspected(path, metadata)
            matches Err(PersistenceErrorView::Io { path: named, source, .. }) && named == path
            && source == cause@),
{
}

/// A snapshot that was read back is accepted just where its file is not too large and it has
/// the marks, the version, the sequence number and the checksum of the one that was written.
pub proof fn law_only_what_was_written_is_accepted(
    path: Seq<char>,
    len: u64,
    document: Result<SnapshotView, Seq<char>>,
    last_seq: u64,
    hash: u64,
)
    ensures
        checked_document(path, len, document, last_seq, hash) is Ok <==> {
            &&& len <= 64 * 1024 * 1024
            &&& document is Ok
            &&& document->Ok_0.magic == "RUST_KV_SNAPSHOT"@
            &&& document->Ok_0.version == 1
            &&& document->Ok_0.last_seq == last_seq
            &&& parsed(document->Ok_0.checksum, 16, u64::MAX as nat) == Some(hash as nat)
        },
        checked_document(path, len, document, last_seq, hash) matches Err(error) ==> (error
            matches PersistenceErrorView::Corrupt { path: named, .. } && named == path),
{
}

/// The number of values that a width in bytes can hold.
pub open spec fn capacity(width: nat) -> nat
    decreases width,
{
    if width == 0 {
        1
    } else {
        256 * capacity((width - 1) as nat)
    }
}

proof fn lemma_little_endian_len(n: nat, width: nat)
    ensures
        little_endian(n, width).len() == width,
    decreases width,
{
    if width > 0 {
        lemma_little_endian_len(n / 256, (width - 1) as nat);
    }
}

proof fn lemma_little_endian_injective(a: nat, b: nat, width: nat)
    requires
        a < capacity(width),
        b < capacity(width),
        little_endian(a, width) == little_endian(b, width),
    ensures
        a == b,
    decreases width,
{
    if width > 0 {
        let (x, y) = (little_endian(a, width), little_endian(b, width));
        let shorter = (width - 1) as nat;
        assert(x[0] == (a % 256) as u8 && y[0] == (b % 256) as u8);
        assert(x.skip(1) =~= little_endian(a / 256, shorter));
        assert(y.skip(1) =~= little_endian(b / 256, shorter));
        lemma_little_endian_injective(a / 256, b / 256, shorter);
    }
}

/// Whether the number of bytes of a text can be written in front of it.
pub open spec fn length_fits(text: Seq<char>) -> bool {
    encode_utf8(text).len() <= u64::MAX
}

proof fn lemma_framed_parts(a: Seq<char>, b: Seq<char>, x: Seq<u8>, y: Seq<u8>)
    requires
        length_fits(a),
        length_fits(b),
        framed(a) + x == framed(b) + y,
    ensures
        a == b,
        x == y,
{
    let (p, q) = (encode_utf8(a), encode_utf8(b));
    let (s, t) = (framed(a) + x, framed(b) + y);
    lemma_little_endian_len(p.len(), 8);
    lemma_little_endian_len(q.len(), 8);
    assert(s.take(8) =~= little_endian(p.len(), 8));
    assert(t.take(8) =~= little_endian(q.len(), 8));
    assert(capacity(8) == 0x1_0000_0000_0000_0000) by {
        reveal_with_fuel(capacity, 9);
    }
    lemma_little_endian_injective(p.len(), q.len(), 8);
    let end = (8 + p.len()) as int;
    assert(s.subrange(8, end) =~= p);
    assert(t.subrange(8, end) =~= q);
    lemma_encode_injective(a, b);
    assert(s.skip(end) =~= x);
    assert(t.skip(end) =~= y);
}

proof fn lemma_entries_from_the_front(entries: Seq<EntryView>)
    requires
        entries.len() > 0,
    ensures
        entries_bytes(entries) == framed(entries[0].0) + (framed(entries[0].1) + entries_bytes(
            entries.drop_first(),
        )),
    decreases entries.len(),
{
    let rest = entries.drop_first();
    if entries.len() == 1 {
        assert(entries.drop_last() =~= Seq::empty());
        assert(rest =~= Seq::empty());
        assert(entries_bytes(entries) =~= framed(entries[0].0) + (framed(entries[0].1)
            + entries_bytes(rest)));
    } else {
        let front = entries.drop_last();
        lemma_entries_from_the_front(front);
        assert(front.drop_first() =~= rest.drop_last());
        assert(rest.last() == entries.last());
        assert(entries_bytes(entries) =~= framed(entries[0].0) + (framed(entries[0].1)
            + entries_bytes(rest)));
    }
}

proof fn lemma_entries_differ(a: Seq<EntryView>, b: Seq<EntryView>)
    requires
        entries_bytes(a) == entries_bytes(b),
        forall|i: int|
            0 <= i < a.len() ==> length_fits((#[trigger] a[i]).0) && length_fits(a[i].1),
        forall|i: int|
            0 <= i < b.len() ==> length_fits((#[trigger] b[i]).0) && length_fits(b[i].1),
    ensures
        a == b,
    decreases a.len(),
{
    if a.len() > 0 {
        lemma_entries_from_the_front(a);
        lemma_little_endian_len(encode_utf8(a[0].0).len(), 8);
    }
    if b.len() > 0 {
        lemma_entries_from_the_front(b);
        lemma_little_endian_len(encode_utf8(b[0].0).len(), 8);
    }
    if a.len() == 0 || b.len() == 0 {
        assert(a =~= b);
    } else {
        let (rest_a, rest_b) = (a.drop_first(), b.drop_first());
        lemma_framed_parts(
            a[0].0,
            b[0].0,
            framed(a[0].1) + entries_bytes(rest_a),
            framed(b[0].1) + entries_bytes(rest_b),
        );
        lemma_framed_parts(a[0].1, b[0].1, entries_bytes(rest_a), entries_bytes(rest_b));
        assert forall|i: int| 0 <= i < rest_a.len() implies length_fits((#[trigger] rest_a[i]).0)
            && length_fits(rest_a[i].1) by {
            assert(rest_a[i] == a[i + 1]);
        }
        assert forall|i: int| 0 <= i < rest_b.len() implies length_fits((#[trigger] rest_b[i]).0)
            && length_fits(rest_b[i].1) by {
            assert(rest_b[i] == b[i + 1]);
        }
        lemma_entries_differ(rest_a, rest_b);
        assert(a =~= seq![a[0]] + rest_a);
        assert(b =~= seq![b[0]] + rest_b);
    }
}

/// The checksum is taken over all that a snapshot holds: different versions, sequence numbers,
/// keys or values make different bytes. The texts must have a length that can be written.
pub proof fn law_checked_bytes_hold_everything(
    version: u16,
    last_seq: u64,
    entries: Seq<EntryView>,
    other_version: u16,
    other_seq: u64,
    other: Seq<EntryView>,
)
    requires
        forall|i: int|
            0 <= i < entries.len() ==> length_fits((#[trigger] entries[i]).0) && length_fits(
                entries[i].1,
            ),
        forall|i: int|
            0 <= i < other.len() ==> length_fits((#[trigger] other[i]).0) && length_fits(
                other[i].1,
            ),
        canonical_bytes(version, last_seq, entries) == canonical_bytes(
            other_version,
            other_seq,
            other,
        ),
    ensures
        version == other_version,
        last_seq == other_seq,
        entries == other,
{
    let magic = encode_utf8("RUST_KV_SNAPSHOT"@);
    let m = magic.len() as int;
    let s = canonical_bytes(version, last_seq, entries);
    let t = canonical_bytes(other_version, other_seq, other);
    lemma_little_endian_len(version as nat, 2);
    lemma_little_endian_len(other_version as nat, 2);
    lemma_little_endian_len(last_seq as nat, 8);
    lemma_little_endian_len(other_seq as nat, 8);
    assert(s.subrange(m, m + 2) =~= little_endian(version as nat, 2));
    assert(t.subrange(m, m + 2) =~= little_endian(other_version as nat, 2));
    assert(s.subrange(m + 2, m + 10) =~= little_endian(last_seq as nat, 8));
    assert(t.subrange(m + 2, m + 10) =~= little_endian(other_seq as nat, 8));
    assert(s.skip(m + 10) =~= entries_bytes(entries));
    assert(t.skip(m + 10) =~= entries_bytes(other));
    assert(capacity(8) == 0x1_0000_0000_0000_0000 && capacity(2) == 65536) by {
        reveal_with_fuel(capacity, 9);
    }
    lemma_little_endian_injective(version as nat, other_version as nat, 2);
    lemma_little_endian_injective(last_seq as nat, other_seq as nat, 8);
    lemma_entries_differ(entries, other);
}

/// What is written for a snapshot, and the copy of the old one, is synchronised before the file
/// takes another name and before the script comes to its end; the document is flushed before.
pub proof fn law_written_snapshots_are_synchronised(
    paths: SnapshotPathsView,
    snapshot: SnapshotView,
    hash: u64,
)
    requires
        paths.backup != paths.temporary,
    ensures
        made_durable(save_steps(paths, snapshot, hash)),
        flushed_before_sync(save_steps(paths, snapshot, hash)),
{
    let steps = save_steps(paths, snapshot, hash);
    let n = steps.len() as int;
    assert(syncs(steps[n - 6], paths.temporary));
    assert(syncs(steps[n - 2], paths.backup));
    assert(flushes(steps[n - 7], paths.temporary));
    assert forall|i: int| 0 <= i < n && writes(#[trigger] steps[i]) implies durable_at(
        steps,
        i,
    ) by {
        if i == n - 8 {
            assert(synchronised_at(steps, i, n - 6));
        } else {
            assert(i == n - 3);
            assert(synchronised_at(steps, i, n - 2));
        }
    }
}

/// A step that checks a snapshot comes to the result of the check of its document, with the
/// same error.
pub proof fn law_the_step_makes_the_check(
    step: FileStepView,
    len: u64,
    snapshot: SnapshotView,
    cause: Seq<char>,
)
    requires
        step.operation is CheckSnapshot,
    ensures
        ({
            let (last_seq, hash) = (step.operation->last_seq, step.operation->checksum);
            let read = step_result(
                step,
                FileEventView::Document { len, document: DocumentReadView::Snapshot(snapshot) },
            );
            let unread = step_result(
                step,
                FileEventView::Document { len, document: DocumentReadView::Invalid(cause) },
            );
            let checked = checked_document(step.path, len, Ok(snapshot), last_seq, hash);
            let refused = checked_document(step.path, len, Err(cause), last_seq, hash);
            &&& read is Ok <==> checked is Ok
            &&& read is Err ==> read->Err_0 == checked->Err_0
            &&& unread is Err && refused is Err && unread->Err_0 == refused->Err_0
        }),
{
}

/// A directory that a path names is created before anything is written.
pub proof fn law_the_directory_comes_first(
    paths: SnapshotPathsView,
    snapshot: SnapshotView,
    hash: u64,
)
    ensures
        ({
            let steps = save_steps(paths, snapshot, hash);
            &&& paths.parent matches Some(parent) ==> steps[0].operation is CreateDirectory
                && steps[0].path == parent && steps.len() == 11
            &&& paths.parent is None ==> steps.len() == 10 && forall|i: int|
                0 <= i < steps.len() ==> !((#[trigger] steps[i]).operation is CreateDirectory)
        }),
{
}

} // verus!
