//! Work on files as a list of steps.
//!
//! What is durable depends on the order in which files are written, synchronised and put in
//! place. A script lists the steps; whoever owns the files performs them one by one and
//! reports how each went. The first step that fails ends the script.

use vstd::prelude::*;
use vstd::utf8::encode_utf8;

use super::error::{PersistenceError, PersistenceErrorView};
use super::snapshot::{
    as_written, snapshot_error, validate_temporary_snapshot, SnapshotFile, SnapshotView,
    MAX_SNAPSHOT_BYTES,
};

verus! {

/// What is done with the path of a step.
#[derive(Debug, Clone, PartialEq, Eq)]
pub enum FileOperation {
    /// Create the directory and those above it, where they are missing.
    CreateDirectory,
    /// Create the file; where it exists, that is not needed.
    CreateNewFile,
    /// Create the file, or empty it.
    CreateFile,
    /// Write a text to the file that is open.
    WriteText(String),
    /// Turn a snapshot into the bytes of a document.
    SerializeSnapshot(SnapshotFile),
    /// Write the bytes of the document to the file that is open.
    WriteDocument,
    /// Flush the file that is open.
    Flush,
    /// Synchronise the data of the file that is open.
    SyncData,
    /// Synchronise the data and the metadata of the file that is open.
    SyncAll,
    /// Open the file and synchronise its data and its metadata.
    SyncFile,
    /// Read the snapshot that stands in the file.
    CheckSnapshot { last_seq: u64, checksum: u64 },
    /// Look whether the file exists; where it does not, what follows is not needed.
    FindFile,
    /// Make the file a copy of another one.
    CopyFrom(String),
    /// Give another file this name.
    RenameFrom(String),
    /// Open the file for appending; it stays open when it is given another name.
    OpenForAppend,
}

/// One step: an operation, the path it is done with, what to call it when it fails, and how
/// many steps are passed over where it is not needed.
#[derive(Debug, Clone, PartialEq, Eq)]
pub struct FileStep {
    pub operation: FileOperation,
    pub path: String,
    pub action: &'static str,
    pub skip: usize,
}

/// How a step went.
#[derive(Debug, Clone, PartialEq, Eq)]
pub enum FileEvent {
    /// It was done.
    Done,
    /// It was not needed.
    NotNeeded,
    /// It failed, with the cause.
    Failed(String),
    /// The document that was read, or why it cannot be read as one, and the number of bytes
    /// of its file.
    Document { len: u64, document: DocumentRead },
}

/// A document that was read, or the reason why there is none.
#[derive(Debug, Clone, PartialEq, Eq)]
pub enum DocumentRead {
    Snapshot(SnapshotFile),
    Invalid(String),
}

/// An operation over character sequences.
pub ghost enum FileOperationView {
    CreateDirectory,
    CreateNewFile,
    CreateFile,
    WriteText(Seq<char>),
    SerializeSnapshot(SnapshotView),
    WriteDocument,
    Flush,
    SyncData,
    SyncAll,
    SyncFile,
    CheckSnapshot { last_seq: u64, checksum: u64 },
    FindFile,
    CopyFrom(Seq<char>),
    RenameFrom(Seq<char>),
    OpenForAppend,
}

/// A step over character sequences.
pub ghost struct FileStepView {
    pub operation: FileOperationView,
    pub path: Seq<char>,
    pub action: Seq<char>,
    pub skip: usize,
}

/// An event over character sequences.
pub ghost enum FileEventView {
    Done,
    NotNeeded,
    Failed(Seq<char>),
    Document { len: u64, document: DocumentReadView },
}

/// A document that was read over character sequences.
pub ghost enum DocumentReadView {
    Snapshot(SnapshotView),
    Invalid(Seq<char>),
}

impl View for FileOperation {
    type V = FileOperationView;

    open spec fn view(&self) -> FileOperationView {
        match self {
            FileOperation::CreateDirectory => FileOperationView::CreateDirectory,
            FileOperation::CreateNewFile => FileOperationView::CreateNewFile,
            FileOperation::CreateFile => FileOperationView::CreateFile,
            FileOperation::WriteText(text) => FileOperationView::WriteText(text@),
            FileOperation::SerializeSnapshot(snapshot) => FileOperationView::SerializeSnapshot(
                snapshot@,
            ),
            FileOperation::WriteDocument => FileOperationView::WriteDocument,
            FileOperation::Flush => FileOperationView::Flush,
            FileOperation::SyncData => FileOperationView::SyncData,
            FileOperation::SyncAll => FileOperationView::SyncAll,
            FileOperation::SyncFile => FileOperationView::SyncFile,
            FileOperation::CheckSnapshot { last_seq, checksum } => {
                FileOperationView::CheckSnapshot { last_seq: *last_seq, checksum: *checksum }
            },
            FileOperation::FindFile => FileOperationView::FindFile,
            FileOperation::CopyFrom(path) => FileOperationView::CopyFrom(path@),
            FileOperation::RenameFrom(path) => FileOperationView::RenameFrom(path@),
            FileOperation::OpenForAppend => FileOperationView::OpenForAppend,
        }
    }
}

impl View for FileStep {
    type V = FileStepView;

    open spec fn view(&self) -> FileStepView {
        FileStepView {
            operation: self.operation@,
            path: self.path@,
            action: self.action@,
            skip: self.skip,
        }
    }
}

impl View for DocumentRead {
    type V = DocumentReadView;

    open spec fn view(&self) -> DocumentReadView {
        match self {
            DocumentRead::Snapshot(snapshot) => DocumentReadView::Snapshot(snapshot@),
            DocumentRead::Invalid(cause) => DocumentReadView::Invalid(cause@),
        }
    }
}

impl View for FileEvent {
    type V = FileEventView;

    open spec fn view(&self) -> FileEventView {
        match self {
            FileEvent::Done => FileEventView::Done,
            FileEvent::NotNeeded => FileEventView::NotNeeded,
            FileEvent::Failed(cause) => FileEventView::Failed(cause@),
            FileEvent::Document { len, document } => FileEventView::Document {
                len: *len,
                document: document@,
            },
        }
    }
}

/// The steps of a script over character sequences.
pub open spec fn step_views(steps: Seq<FileStep>) -> Seq<FileStepView> {
    Seq::new(steps.len(), |i: int| steps[i]@)
}

/// The path whose content a step may change.
pub open spec fn changed_path(step: FileStepView) -> Option<Seq<char>> {
    match step.operation {
        FileOperationView::CreateNewFile => Some(step.path),
        FileOperationView::CreateFile => Some(step.path),
        FileOperationView::WriteText(_) => Some(step.path),
        FileOperationView::WriteDocument => Some(step.path),
        FileOperationView::CopyFrom(_) => Some(step.path),
        FileOperationView::RenameFrom(_) => Some(step.path),
        _ => None,
    }
}

/// A script: its steps, and the place of the one that comes next.
pub ghost struct ScriptView {
    pub steps: Seq<FileStepView>,
    pub at: nat,
}

/// The error for a step that failed.
pub open spec fn step_error(step: FileStepView, cause: Seq<char>) -> PersistenceErrorView {
    if step.operation is SerializeSnapshot {
        snapshot_error(step.path, "serialize snapshot: "@ + cause)
    } else {
        PersistenceErrorView::Io { action: step.action, path: step.path, source: cause }
    }
}

/// The result of a step: how many steps the script goes on, or the error that ends it. A
/// snapshot that is checked must have been read back as it was written, from a file that is
/// not larger than what a start accepts.
pub open spec fn step_result(step: FileStepView, event: FileEventView) -> Result<
    nat,
    PersistenceErrorView,
> {
    match event {
        FileEventView::Failed(cause) => Err(step_error(step, cause)),
        _ => match step.operation {
            FileOperationView::CheckSnapshot { last_seq, checksum } => match event {
                FileEventView::Document { len, document } => if len > MAX_SNAPSHOT_BYTES {
                    Err(snapshot_error(step.path, "snapshot exceeds the maximum size"@))
                } else {
                    match document {
                        DocumentReadView::Snapshot(snapshot) => if as_written(
                            snapshot,
                            last_seq,
                            checksum,
                        ) {
                            Ok(1)
                        } else {
                            Err(
                                snapshot_error(
                                    step.path,
                                    "temporary snapshot verification failed"@,
                                ),
                            )
                        },
                        DocumentReadView::Invalid(cause) => Err(
                            snapshot_error(
                                step.path,
                                "temporary snapshot JSON is invalid: "@ + cause,
                            ),
                        ),
                    }
                },
                _ => Err(snapshot_error(step.path, "temporary snapshot verification failed"@)),
            },
            _ => if event is NotNeeded {
                Ok(1 + step.skip as nat)
            } else {
                Ok(1)
            },
        },
    }
}

/// The steps that are still to be performed.
#[derive(Debug)]
pub struct FileScript {
    steps: Vec<FileStep>,
    at: usize,
}

impl View for FileScript {
    type V = ScriptView;

    closed spec fn view(&self) -> ScriptView {
        ScriptView { steps: step_views(self.steps@), at: self.at as nat }
    }
}

fn check_step(step: &FileStep, event: FileEvent) -> (result: Result<usize, PersistenceError>)
    ensures
        match step_result(step@, event@) {
            Ok(count) => result is Ok && (if count <= usize::MAX {
                result->Ok_0 == count
            } else {
                result->Ok_0 == usize::MAX
            }),
            Err(error) => result is Err && result->Err_0@ == error,
        },
{
    let event = match event {
        FileEvent::Failed(cause) => {
            return match &step.operation {
                FileOperation::SerializeSnapshot(_) => {
                    let mut reason = "serialize snapshot: ".to_owned();
                    reason.append(cause.as_str());
                    Err(
                        PersistenceError::Corrupt {
                            path: step.path.clone(),
                            line: 0,
                            offset: 0,
                            reason,
                        },
                    )
                },
                _ => Err(PersistenceError::io(step.action, step.path.clone(), cause)),
            };
        },
        other => other,
    };
    match &step.operation {
        FileOperation::CheckSnapshot { last_seq, checksum } => {
            let checked = match event {
                FileEvent::Document { len, document } => {
                    let document = match document {
                        DocumentRead::Snapshot(snapshot) => Ok(snapshot),
                        DocumentRead::Invalid(cause) => Err(cause),
                    };
                    validate_temporary_snapshot(
                        step.path.as_str(),
                        len,
                        document,
                        *last_seq,
                        *checksum,
                    )
                },
                _ => Err(
                    PersistenceError::Corrupt {
                        path: step.path.clone(),
                        line: 0,
                        offset: 0,
                        reason: "temporary snapshot verification failed".to_owned(),
                    },
                ),
            };
            match checked {
                Ok(()) => Ok(1),
                Err(error) => Err(error),
            }
        },
        _ => match event {
            FileEvent::NotNeeded => Ok(step.skip.saturating_add(1)),
            _ => Ok(1),
        },
    }
}

/// Where a script goes on after an event, or the error that ends it. A script that is
/// finished stays so.
pub open spec fn script_after(script: ScriptView, event: FileEventView) -> Result<
    ScriptView,
    PersistenceErrorView,
> {
    if script.at >= script.steps.len() {
        Ok(script)
    } else {
        match step_result(script.steps[script.at as int], event) {
            Err(error) => Err(error),
            Ok(count) => Ok(
                ScriptView {
                    at: if script.at + count <= script.steps.len() {
                        script.at + count
                    } else {
                        script.steps.len()
                    },
                    ..script
                },
            ),
        }
    }
}

/// The step that comes next; none, where all are done.
pub open spec fn next_step(script: ScriptView) -> Option<FileStepView> {
    if script.at < script.steps.len() {
        Some(script.steps[script.at as int])
    } else {
        None
    }
}

impl FileScript {
    #[verifier::type_invariant]
    spec fn well_formed(self) -> bool {
        self.at <= self.steps@.len()
    }

    /// A script with the given steps.
    #[must_use]
    pub fn new(steps: Vec<FileStep>) -> (script: FileScript)
        ensures
            script@ == (ScriptView { steps: step_views(steps@), at: 0 }),
    {
        FileScript { steps, at: 0 }
    }

    /// The step that comes next; none, where all are done.
    #[must_use]
    pub fn step(&self) -> (step: Option<&FileStep>)
        ensures
            crate::option_view(step) == next_step(self@),
    {
        if self.at < self.steps.len() {
            Some(&self.steps[self.at])
        } else {
            None
        }
    }

    /// Goes on after a step. Where the step failed, the script stays where it is.
    pub fn resume(&mut self, event: FileEvent) -> (result: Result<(), PersistenceError>)
        ensures
            match script_after(old(self)@, event@) {
                Ok(next) => result is Ok && final(self)@ == next,
                Err(error) => result is Err && result->Err_0@ == error && final(self)@ == old(
                    self,
                )@,
            },
    {
        proof {
            use_type_invariant(&*self);
        }
        if self.at >= self.steps.len() {
            return Ok(());
        }
        match check_step(&self.steps[self.at], event) {
            Err(error) => Err(error),
            Ok(count) => {
                let left: usize = self.steps.len() - self.at;
                let next: usize = if count <= left {
                    self.at + count
                } else {
                    self.steps.len()
                };
                self.at = next;
                Ok(())
            },
        }
    }
}

/// A step that is always needed.
pub(crate) fn plain_step(operation: FileOperation, path: &String, action: &'static str) -> (step:
    FileStep)
    ensures
        step@ == (FileStepView { operation: operation@, path: path@, action: action@, skip: 0 }),
{
    FileStep { operation, path: path.clone(), action, skip: 0 }
}

/// A step that fails ends its script with an error; one that is done leads to the next step.
pub proof fn law_steps_come_in_order(script: ScriptView, event: FileEventView)
    requires
        script.at < script.steps.len(),
    ensures
        event is Failed ==> script_after(script, event) is Err,
        event is Done && !(script.steps[script.at as int].operation is CheckSnapshot)
            ==> script_after(script, event) == Ok::<_, PersistenceErrorView>(
            ScriptView { at: script.at + 1, ..script },
        ),
        script_after(script, event) is Ok ==> script_after(script, event)->Ok_0.at > script.at,
{
}

/// A checked snapshot is the one that was written: no event leads past the check but the
/// document of that sequence number and checksum, in a file that a start accepts by its size.
pub proof fn law_the_check_cannot_be_passed_over(script: ScriptView, event: FileEventView)
    requires
        script.at < script.steps.len(),
        script.steps[script.at as int].operation is CheckSnapshot,
        script_after(script, event) is Ok,
    ensures
        event matches FileEventView::Document {
            len,
            document: DocumentReadView::Snapshot(snapshot),
        } && len <= MAX_SNAPSHOT_BYTES && as_written(
            snapshot,
            script.steps[script.at as int].operation->last_seq,
            script.steps[script.at as int].operation->checksum,
        ),
{
}

/// A step that is not needed is passed over with those that depend on it, and the script that
/// is finished stays so.
pub proof fn law_steps_that_are_not_needed(script: ScriptView, event: FileEventView)
    ensures
        script.at < script.steps.len() && event is NotNeeded && !(
        script.steps[script.at as int].operation is CheckSnapshot) ==> {
            let next = script.at + 1 + script.steps[script.at as int].skip;
            let result = script_after(script, event);
            &&& result is Ok
            &&& result->Ok_0.steps == script.steps
            &&& next <= script.steps.len() ==> result->Ok_0.at == next
            &&& next > script.steps.len() ==> result->Ok_0.at == script.steps.len()
        },
        script.at >= script.steps.len() ==> script_after(script, event) == Ok::<
            _,
            PersistenceErrorView,
        >(script),
{
}

/// The error of a step that failed names the step, its path and the cause.
pub proof fn law_failed_steps_are_named(step: FileStepView, cause: Seq<char>)
    ensures
        step_result(step, FileEventView::Failed(cause)) is Err,
        !(step.operation is SerializeSnapshot) ==> step_result(step, FileEventView::Failed(cause))
            == Err::<nat, _>(
            PersistenceErrorView::Io { action: step.action, path: step.path, source: cause },
        ),
        step.operation is SerializeSnapshot ==> (step_result(
            step,
            FileEventView::Failed(cause),
        )->Err_0 matches PersistenceErrorView::Corrupt { path, reason, .. } && path == step.path
            && cause.is_suffix_of(reason)),
{
    let reason = "serialize snapshot: "@ + cause;
    assert(reason.skip(reason.len() - cause.len()) =~= cause);
}

/// Whether a step writes what must not be lost.
pub open spec fn writes(step: FileStepView) -> bool {
    step.operation is WriteText || step.operation is WriteDocument || step.operation is CopyFrom
}

/// Whether a step synchronises a file.
pub open spec fn syncs(step: FileStepView, path: Seq<char>) -> bool {
    step.path == path && (step.operation is SyncData || step.operation is SyncAll || step.operation
        is SyncFile)
}

/// Whether a step flushes a file.
pub open spec fn flushes(step: FileStepView, path: Seq<char>) -> bool {
    step.path == path && step.operation is Flush
}

/// Whether a step synchronises what another one before it wrote, with no new name for the file
/// between them.
pub open spec fn synchronised_at(steps: Seq<FileStepView>, written: int, at: int) -> bool {
    &&& written < at < steps.len()
    &&& syncs(steps[at], steps[written].path)
    &&& forall|k: int|
        written < k < at ==> (#[trigger] steps[k]).operation != FileOperationView::RenameFrom(
            steps[written].path,
        )
}

/// Whether what a step wrote is synchronised later.
pub open spec fn durable_at(steps: Seq<FileStepView>, written: int) -> bool {
    exists|at: int| #[trigger] synchronised_at(steps, written, at)
}

/// Whether all that the steps write is synchronised by them.
pub open spec fn made_durable(steps: Seq<FileStepView>) -> bool {
    forall|i: int| 0 <= i < steps.len() && writes(#[trigger] steps[i]) ==> durable_at(steps, i)
}

/// Whether each file that is written is flushed before it is synchronised.
pub open spec fn flushed_before_sync(steps: Seq<FileStepView>) -> bool {
    forall|i: int, j: int|
        0 <= i < j < steps.len() && ((#[trigger] steps[i]).operation is WriteText
            || steps[i].operation is WriteDocument) && syncs(#[trigger] steps[j], steps[i].path)
            ==> exists|k: int| i < k < j && flushes(#[trigger] steps[k], steps[i].path)
}

/// A script hands out its steps one after the other, from the first to the last: after as many
/// steps as were done, the next one is the one at that place.
pub proof fn law_steps_are_handed_out_in_order(steps: Seq<FileStepView>, done: nat)
    ensures
        done < steps.len() ==> next_step(ScriptView { steps, at: done }) == Some(
            steps[done as int],
        ),
        done >= steps.len() ==> next_step(ScriptView { steps, at: done }) is None,
        done < steps.len() && !(steps[done as int].operation is CheckSnapshot) ==> script_after(
            ScriptView { steps, at: done },
            FileEventView::Done,
        ) == Ok::<_, PersistenceErrorView>(ScriptView { steps, at: done + 1 }),
{
}

// ---------------------------------------------------------------------------------------
// What steps do to files
// ---------------------------------------------------------------------------------------

/// What a file holds: bytes, or the document of a snapshot.
pub ghost enum FileContent {
    Bytes(Seq<u8>),
    Document(SnapshotView),
}

/// The files by their paths, the document that was made last, and the number of bytes that
/// the document of a snapshot has.
pub ghost struct Files {
    pub contents: Map<Seq<char>, FileContent>,
    pub document: Option<SnapshotView>,
    pub size_of: spec_fn(SnapshotView) -> u64,
}

/// The bytes of a file. A file that is missing or holds a document has none.
pub open spec fn bytes_of(files: Files, path: Seq<char>) -> Seq<u8> {
    if files.contents.contains_key(path) {
        match files.contents[path] {
            FileContent::Bytes(bytes) => bytes,
            FileContent::Document(_) => Seq::empty(),
        }
    } else {
        Seq::empty()
    }
}

/// The files after a step was done.
pub open spec fn after_step(files: Files, step: FileStepView) -> Files {
    let contents = files.contents;
    match step.operation {
        FileOperationView::CreateNewFile | FileOperationView::CreateFile => Files {
            contents: contents.insert(step.path, FileContent::Bytes(Seq::empty())),
            ..files
        },
        FileOperationView::WriteText(text) => Files {
            contents: contents.insert(
                step.path,
                FileContent::Bytes(bytes_of(files, step.path) + encode_utf8(text)),
            ),
            ..files
        },
        FileOperationView::SerializeSnapshot(snapshot) => Files {
            document: Some(snapshot),
            ..files
        },
        FileOperationView::WriteDocument => Files {
            contents: contents.insert(step.path, FileContent::Document(files.document->0)),
            ..files
        },
        FileOperationView::CopyFrom(from) => Files {
            contents: contents.insert(step.path, contents[from]),
            ..files
        },
        FileOperationView::RenameFrom(from) => Files {
            contents: contents.insert(step.path, contents[from]).remove(from),
            ..files
        },
        _ => files,
    }
}

/// The files after steps were done one after the other.
pub open spec fn after_steps(files: Files, steps: Seq<FileStepView>) -> Files
    decreases steps.len(),
{
    if steps.len() == 0 {
        files
    } else {
        after_step(after_steps(files, steps.drop_last()), steps.last())
    }
}

/// One more step.
pub proof fn lemma_after_steps(files: Files, steps: Seq<FileStepView>, done: int)
    requires
        0 <= done < steps.len(),
    ensures
        after_steps(files, steps.take(done + 1)) == after_step(
            after_steps(files, steps.take(done)),
            steps[done],
        ),
{
    let longer = steps.take(done + 1);
    assert(longer.drop_last() =~= steps.take(done));
    assert(longer.last() == steps[done]);
}

/// Steps do not change how large documents are.
pub proof fn lemma_sizes_stay(files: Files, steps: Seq<FileStepView>)
    ensures
        after_steps(files, steps).size_of == files.size_of,
    decreases steps.len(),
{
    if steps.len() > 0 {
        lemma_sizes_stay(files, steps.drop_last());
    }
}

/// Whether a step leaves the file of a path alone: it neither changes it nor gives it
/// another name.
pub open spec fn leaves_alone(step: FileStepView, path: Seq<char>) -> bool {
    changed_path(step) != Some(path) && step.operation != FileOperationView::RenameFrom(path)
}

/// Steps that leave a file alone do not change what it holds.
pub proof fn law_untouched_files_stay(files: Files, steps: Seq<FileStepView>, path: Seq<char>)
    requires
        forall|i: int| 0 <= i < steps.len() ==> leaves_alone(#[trigger] steps[i], path),
    ensures
        after_steps(files, steps).contents.contains_key(path) == files.contents.contains_key(path),
        files.contents.contains_key(path) ==> after_steps(files, steps).contents[path]
            == files.contents[path],
    decreases steps.len(),
{
    if steps.len() > 0 {
        let before = steps.drop_last();
        assert forall|i: int| 0 <= i < before.len() implies leaves_alone(
            #[trigger] before[i],
            path,
        ) by {
            assert(before[i] == steps[i]);
        }
        law_untouched_files_stay(files, before, path);
        assert(leaves_alone(steps[steps.len() - 1], path));
    }
}

// ---------------------------------------------------------------------------------------
// Runs
// ---------------------------------------------------------------------------------------

/// What is reported of a step on files where nothing fails: a file is created only where it
/// is missing, it is found where it exists, and a check hands back the document of the file.
pub open spec fn reported(files: Files, step: FileStepView) -> FileEventView {
    let exists = files.contents.contains_key(step.path);
    match step.operation {
        FileOperationView::CreateNewFile => if exists {
            FileEventView::NotNeeded
        } else {
            FileEventView::Done
        },
        FileOperationView::FindFile => if exists {
            FileEventView::Done
        } else {
            FileEventView::NotNeeded
        },
        FileOperationView::CheckSnapshot { .. } => if !exists {
            FileEventView::Failed(Seq::empty())
        } else {
            match files.contents[step.path] {
                FileContent::Document(snapshot) => FileEventView::Document {
                    len: (files.size_of)(snapshot),
                    document: DocumentReadView::Snapshot(snapshot),
                },
                FileContent::Bytes(bytes) => FileEventView::Document {
                    len: bytes.len() as u64,
                    document: DocumentReadView::Invalid(Seq::empty()),
                },
            }
        },
        _ => FileEventView::Done,
    }
}

/// The files after a step was attempted: a step that is not needed changes nothing.
pub open spec fn after_attempt(files: Files, step: FileStepView) -> Files {
    if reported(files, step) is NotNeeded {
        files
    } else {
        after_step(files, step)
    }
}

/// A step that fails: its place in the script, the cause, and what it leaves of the file that
/// it works on.
pub ghost struct Failure {
    pub at: nat,
    pub cause: Seq<char>,
    pub left: Option<FileContent>,
}

/// The files after a step failed. The file that it works on may be left in any state; a file
/// that could not be renamed keeps its name.
pub open spec fn after_failure(
    files: Files,
    step: FileStepView,
    left: Option<FileContent>,
) -> Files {
    match changed_path(step) {
        None => files,
        Some(path) => if step.operation is RenameFrom {
            files
        } else {
            match left {
                Some(content) => Files { contents: files.contents.insert(path, content), ..files },
                None => Files { contents: files.contents.remove(path), ..files },
            }
        },
    }
}

/// Where a script ends when it is resumed with what is reported of each step, of which one may
/// fail: the files, the script, and the error that ended it, where there is one.
pub open spec fn ran(files: Files, script: ScriptView, failure: Option<Failure>) -> (
    Files,
    ScriptView,
    Result<(), PersistenceErrorView>,
)
    decreases script.steps.len() - script.at,
{
    if script.at >= script.steps.len() {
        (files, script, Ok(()))
    } else {
        let step = script.steps[script.at as int];
        let fails = failure is Some && failure->0.at == script.at;
        let (after, event) = if fails {
            (
                after_failure(files, step, failure->0.left),
                FileEventView::Failed(failure->0.cause),
            )
        } else {
            (after_attempt(files, step), reported(files, step))
        };
        match script_after(script, event) {
            Err(error) => (after, script, Err(error)),
            Ok(next) => ran(after, next, failure),
        }
    }
}

/// Whether a file is the same in two states of the files: missing in both, or with the same
/// content.
pub open spec fn same_file(before: Files, after: Files, path: Seq<char>) -> bool {
    &&& after.contents.contains_key(path) == before.contents.contains_key(path)
    &&& before.contents.contains_key(path) ==> after.contents[path] == before.contents[path]
}

/// A script that ends with an error leaves a file as it was, whichever step failed, where no
/// step touches the file but a last one that gives it the content of another file.
pub proof fn law_failed_script_leaves_alone(
    files: Files,
    script: ScriptView,
    failure: Option<Failure>,
    path: Seq<char>,
)
    requires
        forall|i: int|
            script.at <= i < script.steps.len() ==> leaves_alone(#[trigger] script.steps[i], path)
                || (i == script.steps.len() - 1 && script.steps[i].operation is RenameFrom),
        ran(files, script, failure).2 is Err,
    ensures
        same_file(files, ran(files, script, failure).0, path),
    decreases script.steps.len() - script.at,
{
    if script.at < script.steps.len() {
        let step = script.steps[script.at as int];
        if !(failure is Some && failure->0.at == script.at) {
            law_steps_come_in_order(script, reported(files, step));
            match script_after(script, reported(files, step)) {
                Err(_) => {},
                Ok(next) => {
                    law_failed_script_leaves_alone(
                        after_attempt(files, step),
                        next,
                        failure,
                        path,
                    );
                },
            }
        }
    }
}

/// Runs do not change how large documents are.
pub proof fn lemma_ran_sizes(files: Files, script: ScriptView, failure: Option<Failure>)
    ensures
        ran(files, script, failure).0.size_of == files.size_of,
    decreases script.steps.len() - script.at,
{
    if script.at < script.steps.len() {
        let step = script.steps[script.at as int];
        if !(failure is Some && failure->0.at == script.at) {
            law_steps_come_in_order(script, reported(files, step));
            match script_after(script, reported(files, step)) {
                Err(_) => {},
                Ok(next) => {
                    lemma_ran_sizes(after_attempt(files, step), next, failure);
                },
            }
        }
    }
}

/// A script that comes to its end was resumed as if nothing could fail.
pub proof fn lemma_ran_to_the_end(files: Files, script: ScriptView, failure: Option<Failure>)
    requires
        ran(files, script, failure).2 is Ok,
    ensures
        ran(files, script, failure) == ran(files, script, None),
    decreases script.steps.len() - script.at,
{
    if script.at < script.steps.len() {
        let step = script.steps[script.at as int];
        law_steps_come_in_order(script, reported(files, step));
        let next = script_after(script, reported(files, step))->Ok_0;
        lemma_ran_to_the_end(after_attempt(files, step), next, failure);
    }
}

/// Steps that are all done are performed one after the other.
pub proof fn lemma_ran_in_order(files: Files, steps: Seq<FileStepView>, done: nat)
    requires
        done <= steps.len(),
        forall|i: int|
            0 <= i < done ==> {
                let before = after_steps(files, #[trigger] steps.take(i));
                let script = ScriptView { steps, at: i as nat };
                &&& !(reported(before, steps[i]) is NotNeeded)
                &&& script_after(script, reported(before, steps[i])) == Ok::<
                    _,
                    PersistenceErrorView,
                >(ScriptView { steps, at: (i + 1) as nat })
            },
    ensures
        ran(files, ScriptView { steps, at: 0 }, None) == ran(
            after_steps(files, steps.take(done as int)),
            ScriptView { steps, at: done },
            None,
        ),
    decreases done,
{
    if done == 0 {
        assert(steps.take(0) =~= Seq::empty());
    } else {
        let last = done - 1;
        lemma_ran_in_order(files, steps, last as nat);
        lemma_after_steps(files, steps, last);
        let before = after_steps(files, steps.take(last));
        assert(after_attempt(before, steps[last]) == after_steps(files, steps.take(done as int)));
    }
}

} // verus!
