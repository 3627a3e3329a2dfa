//! Keeps the data in memory and the files in step.
//!
//! A mutation is checked, then logged and synchronised, and only then applied in memory. A
//! checkpoint writes a snapshot first and compacts the log after that. The engine decides
//! what is done in which order; whoever owns the files performs each action and reports how
//! it went.

use vstd::prelude::*;
use vstd::utf8::encode_utf8;

use crate::domain::{
    answer, applied, is_mutation_view, validation, Command, CommandView, DomainError,
    DomainErrorView, Reply, ReplyView, Store, StoreStatus,
};
use crate::persistence::format::{header_text, record_text};
use crate::persistence::script::{
    after_steps, bytes_of, law_failed_script_leaves_alone, law_untouched_files_stay, leaves_alone,
    lemma_after_steps, lemma_ran_in_order, lemma_ran_sizes, lemma_ran_to_the_end, lemma_sizes_stay,
    ran, Failure, FileContent, FileScript, FileStepView, Files, ScriptView,
};
use crate::persistence::snapshot::{
    as_written, law_old_snapshot_stays_until_the_end, law_save_script_runs,
    law_saved_snapshot_is_in_place, law_snapshot_round_trip, loaded, save_script, save_steps,
    snapshot_checksum, snapshot_error, snapshot_of, SnapshotPaths, SnapshotPathsView, SnapshotView,
    MAX_SNAPSHOT_BYTES, SNAPSHOT_VERSION,
};
use crate::persistence::wal::{
    after_append, append_plan, append_script, append_steps, compact_script, compact_steps,
    damage_error, law_append_then_recover, law_appended_record_is_at_the_end,
    law_compacted_log_recovers, law_covered_log_changes_nothing,
    law_old_log_stays_until_it_is_replaced, law_torn_append_is_refused, lemma_recovered_bound,
    lemma_recovered_finite, record_fits, recovered, Damage, WalView,
};
use crate::persistence::{
    LoadedSnapshot, PersistenceError, PersistenceErrorView, SnapshotFile, SnapshotRepository, Wal,
};
use crate::result_view;
use crate::text_map::{lemma_contents_keys, sorted_entries, Contents};

verus! {

// ---------------------------------------------------------------------------------------
// Errors
// ---------------------------------------------------------------------------------------

/// Why the engine refused a command or a checkpoint.
#[derive(Debug, Clone, PartialEq, Eq)]
pub enum EngineError {
    Domain(DomainError),
    Persistence(PersistenceError),
}

/// An engine error over character sequences.
pub ghost enum EngineErrorView {
    Domain(DomainErrorView),
    Persistence(PersistenceErrorView),
}

impl View for EngineError {
    type V = EngineErrorView;

    open spec fn view(&self) -> EngineErrorView {
        match self {
            EngineError::Domain(error) => EngineErrorView::Domain(error@),
            EngineError::Persistence(error) => EngineErrorView::Persistence(error@),
        }
    }
}

impl EngineErrorView {
    /// The text that describes the error.
    pub open spec fn text(self) -> Seq<char> {
        match self {
            EngineErrorView::Domain(error) => error.text(),
            EngineErrorView::Persistence(error) => error.text(),
        }
    }
}

impl EngineError {
    /// The text that describes the error.
    #[must_use]
    pub fn message(&self) -> (text: String)
        ensures
            text@ == self@.text(),
    {
        match self {
            EngineError::Domain(error) => error.message(),
            EngineError::Persistence(error) => error.message(),
        }
    }
}

// ---------------------------------------------------------------------------------------
// Actions, events and results
// ---------------------------------------------------------------------------------------

/// What is to be done with the files.
#[derive(Debug, PartialEq, Eq)]
pub enum DiskAction {
    /// Append a record to the log, flush it and synchronise it.
    AppendLog { record: String },
    /// Write a snapshot to a temporary file, check it, keep a copy of the old one and put
    /// the new one in its place.
    ReplaceSnapshot { snapshot: SnapshotFile, checksum: u64 },
    /// Write a new log to a temporary file, open it and put it in the place of the old one.
    ReplaceLog { header: String },
}

/// How an action went.
#[derive(Debug, PartialEq, Eq)]
pub enum DiskEvent {
    /// It was done.
    Done,
    /// It failed; a file that was to be replaced is still in place.
    Failed(PersistenceError),
}

/// What a checkpoint is made for.
#[derive(Debug, PartialEq, Eq)]
pub enum Purpose {
    Checkpoint,
    AutoCheckpoint { reply: Reply },
    Clear { cleared: usize },
}

/// What goes on when an action was performed.
#[derive(Debug, PartialEq, Eq)]
pub enum Pending {
    Append { command: Command, threshold: Option<u64> },
    SaveSnapshot { purpose: Purpose },
    CompactLog { purpose: Purpose },
}

/// What a command with an automatic checkpoint led to. A checkpoint that failed does not
/// take back a mutation that was logged, so its result stands apart.
#[derive(Debug, PartialEq, Eq)]
pub struct ExecutionOutcome {
    /// The reply to the command.
    pub reply: Reply,
    /// Whether a checkpoint was made, and how that went.
    pub auto_checkpoint: Option<Result<(), EngineError>>,
}

/// The result of a call.
#[derive(Debug, PartialEq, Eq)]
pub enum Completion {
    Executed(Result<Reply, EngineError>),
    ExecutedWithCheckpoint(Result<ExecutionOutcome, EngineError>),
    Checkpointed(Result<(), EngineError>),
    Cleared(Result<usize, EngineError>),
}

/// The next step of a call: an action to perform, or the result.
#[derive(Debug, PartialEq, Eq)]
pub enum Step {
    Perform(DiskAction, Pending),
    Finished(Completion),
}

/// A disk action over character sequences.
pub ghost enum DiskActionView {
    AppendLog { record: Seq<char> },
    ReplaceSnapshot { snapshot: SnapshotView, checksum: u64 },
    ReplaceLog { header: Seq<char> },
}

/// A disk event over character sequences.
pub ghost enum DiskEventView {
    Done,
    Failed(PersistenceErrorView),
}

/// The purpose of a checkpoint over character sequences.
pub ghost enum PurposeView {
    Checkpoint,
    AutoCheckpoint { reply: ReplyView },
    Clear { cleared: usize },
}

/// A pending call over character sequences.
pub ghost enum PendingView {
    Append { command: CommandView, threshold: Option<u64> },
    SaveSnapshot { purpose: PurposeView },
    CompactLog { purpose: PurposeView },
}

/// An execution outcome over character sequences.
pub ghost struct ExecutionOutcomeView {
    pub reply: ReplyView,
    pub auto_checkpoint: Option<Result<(), EngineErrorView>>,
}

/// A completion over character sequences.
pub ghost enum CompletionView {
    Executed(Result<ReplyView, EngineErrorView>),
    ExecutedWithCheckpoint(Result<ExecutionOutcomeView, EngineErrorView>),
    Checkpointed(Result<(), EngineErrorView>),
    Cleared(Result<usize, EngineErrorView>),
}

/// A step over character sequences.
pub ghost enum StepView {
    Perform(DiskActionView, PendingView),
    Finished(CompletionView),
}

impl View for DiskAction {
    type V = DiskActionView;

    open spec fn view(&self) -> DiskActionView {
        match self {
            DiskAction::AppendLog { record } => DiskActionView::AppendLog { record: record@ },
            DiskAction::ReplaceSnapshot { snapshot, checksum } => DiskActionView::ReplaceSnapshot {
                snapshot: snapshot@,
                checksum: *checksum,
            },
            DiskAction::ReplaceLog { header } => DiskActionView::ReplaceLog { header: header@ },
        }
    }
}

impl View for DiskEvent {
    type V = DiskEventView;

    open spec fn view(&self) -> DiskEventView {
        match self {
            DiskEvent::Done => DiskEventView::Done,
            DiskEvent::Failed(error) => DiskEventView::Failed(error@),
        }
    }
}

impl View for Purpose {
    type V = PurposeView;

    open spec fn view(&self) -> PurposeView {
        match self {
            Purpose::Checkpoint => PurposeView::Checkpoint,
            Purpose::AutoCheckpoint { reply } => PurposeView::AutoCheckpoint { reply: reply@ },
            Purpose::Clear { cleared } => PurposeView::Clear { cleared: *cleared },
        }
    }
}

impl View for Pending {
    type V = PendingView;

    open spec fn view(&self) -> PendingView {
        match self {
            Pending::Append { command, threshold } => PendingView::Append {
                command: command@,
                threshold: *threshold,
            },
            Pending::SaveSnapshot { purpose } => PendingView::SaveSnapshot { purpose: purpose@ },
            Pending::CompactLog { purpose } => PendingView::CompactLog { purpose: purpose@ },
        }
    }
}

impl View for ExecutionOutcome {
    type V = ExecutionOutcomeView;

    open spec fn view(&self) -> ExecutionOutcomeView {
        ExecutionOutcomeView {
            reply: self.reply@,
            auto_checkpoint: match self.auto_checkpoint {
                Some(result) => Some(result_view(result)),
                None => None,
            },
        }
    }
}

impl View for Completion {
    type V = CompletionView;

    open spec fn view(&self) -> CompletionView {
        match self {
            Completion::Executed(result) => CompletionView::Executed(result_view(*result)),
            Completion::ExecutedWithCheckpoint(result) => CompletionView::ExecutedWithCheckpoint(
                result_view(*result),
            ),
            Completion::Checkpointed(result) => CompletionView::Checkpointed(result_view(*result)),
            Completion::Cleared(result) => CompletionView::Cleared(result_view(*result)),
        }
    }
}

impl View for Step {
    type V = StepView;

    open spec fn view(&self) -> StepView {
        match self {
            Step::Perform(action, pending) => StepView::Perform(action@, pending@),
            Step::Finished(completion) => StepView::Finished(completion@),
        }
    }
}

// ---------------------------------------------------------------------------------------
// What the engine does
// ---------------------------------------------------------------------------------------

/// The state of the engine.
pub ghost struct EngineView {
    pub contents: Contents,
    pub wal: WalView,
    pub snapshot_path: Seq<char>,
    pub writes: u64,
}

/// A command that failed.
pub open spec fn execution_failed(
    threshold: Option<u64>,
    error: EngineErrorView,
) -> CompletionView {
    match threshold {
        None => CompletionView::Executed(Err(error)),
        Some(_) => CompletionView::ExecutedWithCheckpoint(Err(error)),
    }
}

/// The first step of a checkpoint: the snapshot of all data.
pub open spec fn checkpoint_step(engine: EngineView, purpose: PurposeView) -> StepView {
    let last_seq = (engine.wal.next_seq - 1) as u64;
    StepView::Perform(
        DiskActionView::ReplaceSnapshot {
            snapshot: snapshot_of(engine.contents, last_seq),
            checksum: snapshot_checksum(
                SNAPSHOT_VERSION,
                last_seq,
                sorted_entries(engine.contents),
            ),
        },
        PendingView::SaveSnapshot { purpose },
    )
}

/// The result of a checkpoint for its purpose.
pub open spec fn checkpoint_result(
    purpose: PurposeView,
    result: Result<(), EngineErrorView>,
) -> CompletionView {
    match purpose {
        PurposeView::Checkpoint => CompletionView::Checkpointed(result),
        PurposeView::AutoCheckpoint { reply } => CompletionView::ExecutedWithCheckpoint(
            Ok(ExecutionOutcomeView { reply, auto_checkpoint: Some(result) }),
        ),
        PurposeView::Clear { cleared } => CompletionView::Cleared(
            match result {
                Ok(_) => Ok(cleared),
                Err(error) => Err(error),
            },
        ),
    }
}

/// The step after a command succeeded: a checkpoint, where the threshold is reached. A
/// threshold of zero switches automatic checkpoints off.
pub open spec fn replied_step(
    engine: EngineView,
    reply: ReplyView,
    threshold: Option<u64>,
) -> StepView {
    match threshold {
        None => StepView::Finished(CompletionView::Executed(Ok(reply))),
        Some(limit) => if limit > 0 && engine.writes >= limit {
            checkpoint_step(engine, PurposeView::AutoCheckpoint { reply })
        } else {
            StepView::Finished(
                CompletionView::ExecutedWithCheckpoint(
                    Ok(ExecutionOutcomeView { reply, auto_checkpoint: None }),
                ),
            )
        },
    }
}

/// The first step of a command. A mutation that may be executed is logged first; nothing in
/// memory changes yet.
pub open spec fn execute_step(
    engine: EngineView,
    command: CommandView,
    threshold: Option<u64>,
) -> StepView {
    if is_mutation_view(command) {
        match validation(engine.contents, command) {
            Err(error) => StepView::Finished(
                execution_failed(threshold, EngineErrorView::Domain(error)),
            ),
            Ok(_) => match append_plan(engine.wal, command) {
                Err(error) => StepView::Finished(
                    execution_failed(threshold, EngineErrorView::Persistence(error)),
                ),
                Ok(record) => StepView::Perform(
                    DiskActionView::AppendLog { record },
                    PendingView::Append { command, threshold },
                ),
            },
        }
    } else {
        match answer(engine.contents, command) {
            Err(error) => StepView::Finished(
                execution_failed(threshold, EngineErrorView::Domain(error)),
            ),
            Ok(reply) => replied_step(engine, reply, threshold),
        }
    }
}

/// The first step of a command without an automatic checkpoint.
pub open spec fn plain_step(engine: EngineView, command: CommandView) -> StepView {
    execute_step(engine, command, None)
}

/// The engine after its data was emptied.
pub open spec fn emptied(engine: EngineView) -> EngineView {
    EngineView { contents: Contents::empty(), ..engine }
}

/// The engine after the log can no longer be relied on.
pub open spec fn log_failed(engine: EngineView) -> EngineView {
    EngineView { wal: WalView { failed: true, ..engine.wal }, ..engine }
}

/// The engine and the step after a record was written: the mutation is applied in memory.
pub open spec fn logged(
    engine: EngineView,
    command: CommandView,
    threshold: Option<u64>,
) -> (EngineView, StepView) {
    let (wal, appended) = after_append(engine.wal);
    let noted = EngineView { wal, ..engine };
    match appended {
        Err(error) => (
            noted,
            StepView::Finished(execution_failed(threshold, EngineErrorView::Persistence(error))),
        ),
        Ok(_) => match answer(engine.contents, command) {
            Err(error) => (
                noted,
                StepView::Finished(execution_failed(threshold, EngineErrorView::Domain(error))),
            ),
            Ok(reply) => {
                let next = EngineView {
                    contents: applied(engine.contents, command),
                    writes: if engine.writes < u64::MAX {
                        (engine.writes + 1) as u64
                    } else {
                        engine.writes
                    },
                    ..noted
                };
                (next, replied_step(next, reply, threshold))
            },
        },
    }
}

/// The engine and the next step after an action was performed or failed.
pub open spec fn resumed(engine: EngineView, pending: PendingView, event: DiskEventView) -> (
    EngineView,
    StepView,
) {
    match pending {
        PendingView::Append { command, threshold } => match event {
            DiskEventView::Done => logged(engine, command, threshold),
            DiskEventView::Failed(error) => (
                log_failed(engine),
                StepView::Finished(
                    execution_failed(threshold, EngineErrorView::Persistence(error)),
                ),
            ),
        },
        PendingView::SaveSnapshot { purpose } => match event {
            DiskEventView::Done => (
                engine,
                StepView::Perform(
                    DiskActionView::ReplaceLog {
                        header: header_text((engine.wal.next_seq - 1) as u64),
                    },
                    PendingView::CompactLog { purpose },
                ),
            ),
            DiskEventView::Failed(error) => (
                engine,
                StepView::Finished(
                    checkpoint_result(purpose, Err(EngineErrorView::Persistence(error))),
                ),
            ),
        },
        PendingView::CompactLog { purpose } => match event {
            DiskEventView::Done => (
                EngineView { writes: 0, ..engine },
                StepView::Finished(checkpoint_result(purpose, Ok(()))),
            ),
            DiskEventView::Failed(error) => (
                engine,
                StepView::Finished(
                    checkpoint_result(purpose, Err(EngineErrorView::Persistence(error))),
                ),
            ),
        },
    }
}

/// The data and the sequence number with which the log is replayed.
pub open spec fn replay_start(snapshot: Option<LoadedSnapshot>) -> (Contents, u64) {
    match snapshot {
        Some(snapshot) => (snapshot.store@, snapshot.last_seq),
        None => (Contents::empty(), 0),
    }
}

/// The engine that a start gives: the log is replayed over the data of the snapshot, and the
/// records beyond the snapshot count towards the next checkpoint.
pub open spec fn opened(
    start: (Contents, u64),
    log: Seq<u8>,
    log_path: Seq<char>,
    snapshot_path: Seq<char>,
) -> Result<EngineView, Damage> {
    match recovered(log, start.0, start.1) {
        Ok((contents, next_seq)) => Ok(
            EngineView {
                contents,
                wal: WalView { path: log_path, next_seq, failed: false },
                snapshot_path,
                writes: (next_seq - 1 - start.1) as u64,
            },
        ),
        Err(damage) => Err(damage),
    }
}

/// The data in memory, the log and the snapshots.
#[derive(Debug)]
pub struct Engine {
    store: Store,
    wal: Wal,
    snapshots: SnapshotRepository,
    writes_since_checkpoint: u64,
}

impl View for Engine {
    type V = EngineView;

    closed spec fn view(&self) -> EngineView {
        EngineView {
            contents: self.store@,
            wal: self.wal@,
            snapshot_path: self.snapshots@,
            writes: self.writes_since_checkpoint,
        }
    }
}

fn failed_completion(threshold: Option<u64>, error: EngineError) -> (completion: Completion)
    ensures
        completion@ == execution_failed(threshold, error@),
{
    match threshold {
        None => Completion::Executed(Err(error)),
        Some(_) => Completion::ExecutedWithCheckpoint(Err(error)),
    }
}

fn checkpoint_completion(purpose: Purpose, result: Result<(), EngineError>) -> (completion:
    Completion)
    ensures
        completion@ == checkpoint_result(purpose@, result_view(result)),
{
    match purpose {
        Purpose::Checkpoint => Completion::Checkpointed(result),
        Purpose::AutoCheckpoint { reply } => Completion::ExecutedWithCheckpoint(
            Ok(ExecutionOutcome { reply, auto_checkpoint: Some(result) }),
        ),
        Purpose::Clear { cleared } => match result {
            Ok(()) => Completion::Cleared(Ok(cleared)),
            Err(error) => Completion::Cleared(Err(error)),
        },
    }
}

/// Whether a command changes what is stored when it succeeds.
pub fn is_mutation(command: &Command) -> (yes: bool)
    ensures
        yes == is_mutation_view(command@),
{
    match command {
        Command::SetValue { .. } => true,
        Command::Update { .. } => true,
        Command::Delete { .. } => true,
        _ => false,
    }
}

impl Engine {
    /// Opens the engine on the snapshot, where there is one, and the bytes of the log. The
    /// records that the log holds beyond the snapshot count towards the next checkpoint.
    pub fn open(
        snapshots: SnapshotRepository,
        snapshot: Option<LoadedSnapshot>,
        wal_path: String,
        log: &[u8],
    ) -> (result: Result<Engine, EngineError>)
        ensures
            match opened(replay_start(snapshot), log@, wal_path@, snapshots@) {
                Ok(engine) => result is Ok && result->Ok_0@ == engine,
                Err(damage) => result is Err && result->Err_0@ == EngineErrorView::Persistence(
                    damage_error(wal_path@, damage),
                ),
            },
    {
        let (store, snapshot_seq) = match snapshot {
            Some(snapshot) => (snapshot.store, snapshot.last_seq),
            None => (Store::new(), 0),
        };
        match Wal::open_with_store(wal_path, log, store, snapshot_seq) {
            Ok((wal, store)) => {
                let writes_since_checkpoint: u64 = wal.last_seq() - snapshot_seq;
                Ok(Engine { store, wal, snapshots, writes_since_checkpoint })
            },
            Err(error) => Err(EngineError::Persistence(error)),
        }
    }

    /// Executes a command.
    pub fn execute(&mut self, command: Command) -> (step: Step)
        ensures
            step@ == plain_step(old(self)@, command@),
            final(self)@ == old(self)@,
    {
        self.begin(command, None)
    }

    /// Executes a command, and makes a checkpoint where the number of mutations since the
    /// last one has reached the threshold. Zero switches automatic checkpoints off.
    pub fn execute_with_auto_checkpoint(
        &mut self,
        command: Command,
        checkpoint_after_writes: u64,
    ) -> (step: Step)
        ensures
            step@ == execute_step(old(self)@, command@, Some(checkpoint_after_writes)),
            final(self)@ == old(self)@,
    {
        self.begin(command, Some(checkpoint_after_writes))
    }

    /// Makes a checkpoint: a snapshot of all data, then a compacted log.
    pub fn checkpoint(&mut self) -> (step: Step)
        ensures
            step@ == checkpoint_step(old(self)@, PurposeView::Checkpoint),
            final(self)@ == old(self)@,
    {
        self.save_snapshot(Purpose::Checkpoint)
    }

    /// Removes all data and makes a checkpoint of that. The sequence numbers go on: snapshot
    /// and log cannot be replaced in one step, and numbers that start anew could leave the
    /// two at odds.
    pub fn clear(&mut self) -> (step: Step)
        ensures
            final(self)@ == emptied(old(self)@),
            step@ == checkpoint_step(
                emptied(old(self)@),
                PurposeView::Clear { cleared: old(self)@.contents.len() as usize },
            ),
            old(self)@.contents.len() <= usize::MAX,
    {
        let cleared: usize = self.store.clear();
        self.save_snapshot(Purpose::Clear { cleared })
    }

    /// Goes on when an action was performed or failed.
    pub fn resume(&mut self, pending: Pending, event: DiskEvent) -> (step: Step)
        ensures
            (final(self)@, step@) == resumed(old(self)@, pending@, event@),
    {
        match pending {
            Pending::Append { command, threshold } => match event {
                DiskEvent::Done => self.apply_logged(command, threshold),
                DiskEvent::Failed(error) => {
                    self.wal.mark_failed();
                    Step::Finished(failed_completion(threshold, EngineError::Persistence(error)))
                },
            },
            Pending::SaveSnapshot { purpose } => match event {
                DiskEvent::Done => Step::Perform(
                    DiskAction::ReplaceLog { header: self.wal.compact() },
                    Pending::CompactLog { purpose },
                ),
                DiskEvent::Failed(error) => Step::Finished(
                    checkpoint_completion(purpose, Err(EngineError::Persistence(error))),
                ),
            },
            Pending::CompactLog { purpose } => match event {
                DiskEvent::Done => {
                    self.writes_since_checkpoint = 0;
                    Step::Finished(checkpoint_completion(purpose, Ok(())))
                },
                DiskEvent::Failed(error) => Step::Finished(
                    checkpoint_completion(purpose, Err(EngineError::Persistence(error))),
                ),
            },
        }
    }

    /// The status of the data.
    #[must_use]
    pub fn status(&self) -> (status: StoreStatus)
        ensures
            status.key_count == self@.contents.len(),
    {
        self.store.status()
    }

    /// The number of mutations since the last checkpoint.
    #[must_use]
    pub fn writes_since_checkpoint(&self) -> (writes: u64)
        ensures
            writes == self@.writes,
    {
        self.writes_since_checkpoint
    }

    fn begin(&mut self, command: Command, threshold: Option<u64>) -> (step: Step)
        ensures
            step@ == execute_step(old(self)@, command@, threshold),
            final(self)@ == old(self)@,
    {
        if is_mutation(&command) {
            match self.store.validate(&command) {
                Ok(()) => {},
                Err(error) => {
                    return Step::Finished(
                        failed_completion(threshold, EngineError::Domain(error)),
                    );
                },
            }
            match self.wal.append(&command) {
                Ok(record) => Step::Perform(
                    DiskAction::AppendLog { record },
                    Pending::Append { command, threshold },
                ),
                Err(error) => Step::Finished(
                    failed_completion(threshold, EngineError::Persistence(error)),
                ),
            }
        } else {
            match self.store.execute(command) {
                Ok(reply) => self.replied(reply, threshold),
                Err(error) => Step::Finished(
                    failed_completion(threshold, EngineError::Domain(error)),
                ),
            }
        }
    }

    fn apply_logged(&mut self, command: Command, threshold: Option<u64>) -> (step: Step)
        ensures
            (final(self)@, step@) == logged(old(self)@, command@, threshold),
    {
        match self.wal.appended() {
            Ok(_) => {},
            Err(error) => {
                return Step::Finished(
                    failed_completion(threshold, EngineError::Persistence(error)),
                );
            },
        }
        match self.store.execute(command) {
            Ok(reply) => {
                if self.writes_since_checkpoint < u64::MAX {
                    self.writes_since_checkpoint = self.writes_since_checkpoint + 1;
                }
                self.replied(reply, threshold)
            },
            Err(error) => Step::Finished(failed_completion(threshold, EngineError::Domain(error))),
        }
    }

    fn replied(&self, reply: Reply, threshold: Option<u64>) -> (step: Step)
        ensures
            step@ == replied_step(self@, reply@, threshold),
    {
        match threshold {
            None => Step::Finished(Completion::Executed(Ok(reply))),
            Some(limit) => if limit > 0 && self.writes_since_checkpoint >= limit {
                self.save_snapshot(Purpose::AutoCheckpoint { reply })
            } else {
                Step::Finished(
                    Completion::ExecutedWithCheckpoint(
                        Ok(ExecutionOutcome { reply, auto_checkpoint: None }),
                    ),
                )
            },
        }
    }

    fn save_snapshot(&self, purpose: Purpose) -> (step: Step)
        ensures
            step@ == checkpoint_step(self@, purpose@),
    {
        let (snapshot, checksum) = self.snapshots.save(&self.store, self.wal.last_seq());
        Step::Perform(
            DiskAction::ReplaceSnapshot { snapshot, checksum },
            Pending::SaveSnapshot { purpose },
        )
    }
}

// ---------------------------------------------------------------------------------------
// Carrying out actions
// ---------------------------------------------------------------------------------------

/// The paths of the files of a data directory.
#[derive(Debug, Clone, PartialEq, Eq)]
pub struct DataPaths {
    pub log: String,
    pub log_temporary: String,
    pub snapshot: SnapshotPaths,
}

/// The paths of a data directory over character sequences.
pub ghost struct DataPathsView {
    pub log: Seq<char>,
    pub log_temporary: Seq<char>,
    pub snapshot: SnapshotPathsView,
}

impl View for DataPaths {
    type V = DataPathsView;

    open spec fn view(&self) -> DataPathsView {
        DataPathsView {
            log: self.log@,
            log_temporary: self.log_temporary@,
            snapshot: self.snapshot@,
        }
    }
}

/// The steps on files that carry out an action.
pub open spec fn action_steps(paths: DataPathsView, action: DiskActionView) -> Seq<FileStepView> {
    match action {
        DiskActionView::AppendLog { record } => append_steps(paths.log, record),
        DiskActionView::ReplaceSnapshot { snapshot, checksum } => save_steps(
            paths.snapshot,
            snapshot,
            checksum,
        ),
        DiskActionView::ReplaceLog { header } => compact_steps(
            paths.log,
            paths.log_temporary,
            header,
        ),
    }
}

/// The script that carries out an action.
#[must_use]
pub fn action_script(paths: &DataPaths, action: DiskAction) -> (script: FileScript)
    ensures
        script@ == (ScriptView { steps: action_steps(paths@, action@), at: 0 }),
{
    match action {
        DiskAction::AppendLog { record } => append_script(&paths.log, record),
        DiskAction::ReplaceSnapshot { snapshot, checksum } => save_script(
            &paths.snapshot,
            snapshot,
            checksum,
        ),
        DiskAction::ReplaceLog { header } => compact_script(
            &paths.log,
            &paths.log_temporary,
            header,
        ),
    }
}

/// What the engine is told of a script that was performed.
pub open spec fn script_event(result: Result<(), PersistenceErrorView>) -> DiskEventView {
    match result {
        Ok(_) => DiskEventView::Done,
        Err(error) => DiskEventView::Failed(error),
    }
}

/// What the engine is told of a script that was performed.
#[must_use]
pub fn event_of_script(result: Result<(), PersistenceError>) -> (event: DiskEvent)
    ensures
        event@ == script_event(result_view(result)),
{
    match result {
        Ok(()) => DiskEvent::Done,
        Err(error) => DiskEvent::Failed(error),
    }
}

// ---------------------------------------------------------------------------------------
// Laws
// ---------------------------------------------------------------------------------------

/// The two files: the snapshot, where there is one, and the bytes of the log; and the number
/// of bytes that the document of a snapshot has.
pub ghost struct Disk {
    pub snapshot: Option<SnapshotView>,
    pub log: Seq<u8>,
    pub size_of: spec_fn(SnapshotView) -> u64,
}

/// The files after an action was performed.
pub open spec fn performed(disk: Disk, action: DiskActionView) -> Disk {
    match action {
        DiskActionView::AppendLog { record } => Disk {
            log: disk.log + encode_utf8(record),
            ..disk
        },
        DiskActionView::ReplaceSnapshot { snapshot, checksum } => Disk {
            snapshot: Some(snapshot),
            ..disk
        },
        DiskActionView::ReplaceLog { header } => Disk { log: encode_utf8(header), ..disk },
    }
}

/// Whether a start accepts the document of a snapshot by its size.
pub open spec fn document_fits(disk: Disk, snapshot: SnapshotView) -> bool {
    (disk.size_of)(snapshot) <= MAX_SNAPSHOT_BYTES
}

/// The data and the sequence number that a restart reads from the snapshot; nothing, where
/// the snapshot is refused for its size or its content.
pub open spec fn snapshot_start(disk: Disk) -> Option<(Contents, u64)> {
    match disk.snapshot {
        None => Some((Contents::empty(), 0u64)),
        Some(snapshot) => if !document_fits(disk, snapshot) {
            None
        } else {
            match loaded(snapshot) {
                Ok(start) => Some(start),
                Err(_) => None,
            }
        },
    }
}

/// The engine that a restart gives; nothing, where the files are refused.
pub open spec fn restarted(
    disk: Disk,
    log_path: Seq<char>,
    snapshot_path: Seq<char>,
) -> Option<EngineView> {
    match snapshot_start(disk) {
        None => None,
        Some(start) => match opened(start, disk.log, log_path, snapshot_path) {
            Ok(engine) => Some(engine),
            Err(_) => None,
        },
    }
}

/// The engine that a restart on the paths of an engine gives.
pub open spec fn successor(engine: EngineView, disk: Disk) -> Option<EngineView> {
    restarted(disk, engine.wal.path, engine.snapshot_path)
}

/// Whether a restart would find the data that the engine holds, and go on with the same
/// sequence number.
pub open spec fn data_in_step(engine: EngineView, disk: Disk) -> bool {
    &&& successor(engine, disk) is Some
    &&& successor(engine, disk)->0.contents == engine.contents
    &&& successor(engine, disk)->0.wal.next_seq == engine.wal.next_seq
    &&& engine.contents.dom().finite()
}

/// Whether a restart would find all that the engine holds: the data, and the number of
/// mutations since the snapshot.
pub open spec fn in_step(engine: EngineView, disk: Disk) -> bool {
    &&& data_in_step(engine, disk)
    &&& engine.writes == engine.wal.next_seq - 1 - (snapshot_start(disk)->0).1
}

/// An engine that was opened on the files is in step with them.
pub proof fn law_opened_engine_is_in_step(
    disk: Disk,
    log_path: Seq<char>,
    snapshot_path: Seq<char>,
)
    requires
        restarted(disk, log_path, snapshot_path) is Some,
    ensures
        in_step(restarted(disk, log_path, snapshot_path)->0, disk),
{
    let start = snapshot_start(disk)->0;
    match disk.snapshot {
        None => {},
        Some(snapshot) => {
            lemma_contents_keys(snapshot.entries, Seq::empty());
        },
    }
    lemma_recovered_finite(disk.log, start.0, start.1);
    lemma_recovered_bound(disk.log, start.0, start.1);
}

/// A restart gives back the engine as it was, with the number of mutations since the last
/// checkpoint. Only that a write to the log failed is not known any more.
pub proof fn law_restart_gives_the_engine_back(engine: EngineView, disk: Disk)
    requires
        in_step(engine, disk),
    ensures
        successor(engine, disk) == Some(
            EngineView { wal: WalView { failed: false, ..engine.wal }, ..engine },
        ),
{
}

/// A first start, with an empty log and no snapshot, is in step with an empty engine.
pub proof fn law_first_start(engine: EngineView, disk: Disk)
    requires
        disk.snapshot is None,
        disk.log == encode_utf8(header_text(0)),
        engine.contents == Contents::empty(),
        engine.wal.next_seq == 1,
        engine.writes == 0,
    ensures
        in_step(engine, disk),
{
    law_compacted_log_recovers(Contents::empty(), 0);
}

/// A mutation that was acknowledged survives a restart: when its record was written, the
/// files and the engine hold the data after the mutation, and count it. The next sequence
/// number must exist.
pub proof fn law_mutation_survives_restart(
    engine: EngineView,
    disk: Disk,
    command: CommandView,
    threshold: Option<u64>,
)
    requires
        data_in_step(engine, disk),
        is_mutation_view(command),
        execute_step(engine, command, threshold) is Perform,
        engine.wal.next_seq < u64::MAX,
    ensures
        ({
            let (action, pending) = (
                execute_step(engine, command, threshold)->Perform_0,
                execute_step(engine, command, threshold)->Perform_1,
            );
            let (next, step) = resumed(engine, pending, DiskEventView::Done);
            &&& data_in_step(next, performed(disk, action))
            &&& in_step(engine, disk) ==> in_step(next, performed(disk, action))
            &&& next.contents == applied(engine.contents, command)
        }),
{
    let start = snapshot_start(disk)->0;
    law_append_then_recover(disk.log, start.0, start.1, engine.wal, command);
}

/// A mutation whose record recovery would not accept is refused before anything is written:
/// it is answered with an error, and no action is asked for.
pub proof fn law_oversized_mutation_is_refused(
    engine: EngineView,
    command: CommandView,
    threshold: Option<u64>,
)
    requires
        is_mutation_view(command),
        validation(engine.contents, command) is Ok,
        !engine.wal.failed,
    ensures
        execute_step(engine, command, threshold) is Perform <==> record_fits(
            engine.wal.next_seq,
            command,
        ),
        !record_fits(engine.wal.next_seq, command) ==> execute_step(engine, command, threshold)
            == StepView::Finished(
            execution_failed(
                threshold,
                EngineErrorView::Persistence(
                    PersistenceErrorView::Corrupt {
                        path: engine.wal.path,
                        line: 0,
                        offset: 0,
                        reason: "record exceeds the maximum size"@,
                    },
                ),
            ),
        ),
{
}

/// A checkpoint loses nothing, wherever the program stops: before it, between its two
/// actions and after it a restart finds the data that the engine holds. After it the count
/// of mutations is in step too.
///
/// The document must not be larger than what a start accepts: a larger one is never put in
/// place.
pub proof fn law_checkpoint_loses_nothing(engine: EngineView, disk: Disk, purpose: PurposeView)
    requires
        data_in_step(engine, disk),
        document_fits(disk, snapshot_of(engine.contents, (engine.wal.next_seq - 1) as u64)),
    ensures
        ({
            let (first, pending) = (
                checkpoint_step(engine, purpose)->Perform_0,
                checkpoint_step(engine, purpose)->Perform_1,
            );
            let (_, second_step) = resumed(engine, pending, DiskEventView::Done);
            let (second, last) = (second_step->Perform_0, second_step->Perform_1);
            let (next, end) = resumed(engine, last, DiskEventView::Done);
            &&& data_in_step(engine, performed(disk, first))
            &&& second_step is Perform
            &&& in_step(next, performed(performed(disk, first), second))
            &&& next == (EngineView { writes: 0, ..engine })
            &&& end == StepView::Finished(checkpoint_result(purpose, Ok(())))
        }),
{
    let start = snapshot_start(disk)->0;
    let last_seq = (engine.wal.next_seq - 1) as u64;
    lemma_recovered_bound(disk.log, start.0, start.1);
    law_snapshot_round_trip(engine.contents, last_seq);
    law_covered_log_changes_nothing(disk.log, start.0, start.1, engine.contents);
    law_compacted_log_recovers(engine.contents, last_seq);
}

/// Clearing lasts: once its snapshot is in place a restart finds no data, before and after
/// the log is compacted, and the sequence numbers go on.
///
/// The document must not be larger than what a start accepts: a larger one is never put in
/// place.
pub proof fn law_clear_lasts(engine: EngineView, disk: Disk, cleared: usize)
    requires
        data_in_step(engine, disk),
        document_fits(disk, snapshot_of(Contents::empty(), (engine.wal.next_seq - 1) as u64)),
    ensures
        ({
            let empty = emptied(engine);
            let (first, pending) = (
                checkpoint_step(empty, PurposeView::Clear { cleared })->Perform_0,
                checkpoint_step(empty, PurposeView::Clear { cleared })->Perform_1,
            );
            let (_, second_step) = resumed(empty, pending, DiskEventView::Done);
            let (second, last) = (second_step->Perform_0, second_step->Perform_1);
            let (next, end) = resumed(empty, last, DiskEventView::Done);
            &&& data_in_step(empty, performed(disk, first))
            &&& in_step(next, performed(performed(disk, first), second))
            &&& next.contents == Contents::empty()
            &&& next.wal == engine.wal
            &&& end == StepView::Finished(CompletionView::Cleared(Ok(cleared)))
        }),
{
    let start = snapshot_start(disk)->0;
    let last_seq = (engine.wal.next_seq - 1) as u64;
    let empty = Contents::empty();
    lemma_recovered_bound(disk.log, start.0, start.1);
    law_snapshot_round_trip(empty, last_seq);
    law_covered_log_changes_nothing(disk.log, start.0, start.1, empty);
    law_compacted_log_recovers(empty, last_seq);
}

/// A mutation that is refused is never logged, and a command that only reads is answered
/// without a log record: both leave the files alone unless a checkpoint is due.
pub proof fn law_only_valid_mutations_are_logged(
    engine: EngineView,
    command: CommandView,
    threshold: Option<u64>,
)
    ensures
        validation(engine.contents, command) is Err ==> execute_step(engine, command, threshold)
            == StepView::Finished(
            execution_failed(
                threshold,
                EngineErrorView::Domain(validation(engine.contents, command)->Err_0),
            ),
        ),
        !is_mutation_view(command) && threshold is None ==> execute_step(
            engine,
            command,
            threshold,
        ) is Finished,
        execute_step(engine, command, threshold) matches StepView::Perform(
            DiskActionView::AppendLog { record },
            pending,
        ) ==> is_mutation_view(command) && validation(engine.contents, command) is Ok && record
            == record_text(engine.wal.next_seq, command) && record_fits(
            engine.wal.next_seq,
            command,
        ),
{
}

/// The data in memory changes only when the record of the mutation was written: a failed
/// write, or any other event, leaves it as it was.
pub proof fn law_memory_follows_the_log(
    engine: EngineView,
    pending: PendingView,
    event: DiskEventView,
)
    ensures
        resumed(engine, pending, event).0.contents != engine.contents ==> pending is Append
            && event is Done,
        resumed(engine, pending, event).0.wal.next_seq >= engine.wal.next_seq,
{
}

/// After a write to the log failed, the engine refuses every mutation, whatever happens in
/// between; reading goes on.
pub proof fn law_failed_log_refuses_mutations(
    engine: EngineView,
    pending: PendingView,
    event: DiskEventView,
    command: CommandView,
    threshold: Option<u64>,
)
    requires
        engine.wal.failed,
    ensures
        resumed(engine, pending, event).0.wal.failed,
        is_mutation_view(command) ==> execute_step(engine, command, threshold) is Finished,
        is_mutation_view(command) && validation(engine.contents, command) is Ok ==> execute_step(
            engine,
            command,
            threshold,
        ) == StepView::Finished(
            execution_failed(
                threshold,
                EngineErrorView::Persistence(
                    PersistenceErrorView::Unavailable { path: engine.wal.path },
                ),
            ),
        ),
        !is_mutation_view(command) && answer(engine.contents, command) is Ok ==> execute_step(
            engine,
            command,
            None,
        ) == StepView::Finished(
            CompletionView::Executed(Ok(answer(engine.contents, command)->Ok_0)),
        ),
{
}

/// An automatic checkpoint that fails does not take back the command: the reply is handed
/// out, and the error beside it.
pub proof fn law_failed_checkpoint_keeps_the_reply(
    engine: EngineView,
    reply: ReplyView,
    error: PersistenceErrorView,
)
    ensures
        ({
            let purpose = PurposeView::AutoCheckpoint { reply };
            let outcome = ExecutionOutcomeView {
                reply,
                auto_checkpoint: Some(Err(EngineErrorView::Persistence(error))),
            };
            let kept = StepView::Finished(CompletionView::ExecutedWithCheckpoint(Ok(outcome)));
            let (saving, compacting) = (
                PendingView::SaveSnapshot { purpose },
                PendingView::CompactLog { purpose },
            );
            &&& resumed(engine, saving, DiskEventView::Failed(error)).1 == kept
            &&& resumed(engine, compacting, DiskEventView::Failed(error)).1 == kept
            &&& resumed(engine, saving, DiskEventView::Failed(error)).0.contents
                == engine.contents
        }),
{
}

/// The paths of a data directory are all different.
pub open spec fn distinct_paths(paths: DataPathsView) -> bool {
    &&& paths.log_temporary != paths.log
    &&& paths.snapshot.current != paths.log
    &&& paths.snapshot.temporary != paths.log
    &&& paths.snapshot.backup != paths.log
    &&& paths.snapshot.current != paths.log_temporary
    &&& paths.snapshot.temporary != paths.snapshot.current
    &&& paths.snapshot.backup != paths.snapshot.current
    &&& paths.snapshot.backup != paths.snapshot.temporary
}

/// Whether files hold a log and a snapshot.
pub open spec fn files_hold(files: Files, paths: DataPathsView, disk: Disk) -> bool {
    &&& files.size_of == disk.size_of
    &&& files.contents.contains_key(paths.log)
    &&& files.contents[paths.log] == FileContent::Bytes(disk.log)
    &&& match disk.snapshot {
        None => !files.contents.contains_key(paths.snapshot.current),
        Some(snapshot) => files.contents.contains_key(paths.snapshot.current)
            && files.contents[paths.snapshot.current] == FileContent::Document(snapshot),
    }
}

/// The steps of an action that are performed on files: those that make a copy of the old
/// snapshot are passed over where there is none.
pub open spec fn performed_steps(
    files: Files,
    paths: DataPathsView,
    action: DiskActionView,
) -> Seq<FileStepView> {
    let steps = action_steps(paths, action);
    if action is ReplaceSnapshot && !files.contents.contains_key(paths.snapshot.current) {
        steps.take(steps.len() - 3).push(steps.last())
    } else {
        steps
    }
}

/// The steps of an action do what the action says: they lead from files that hold a log and
/// a snapshot to files that hold what the action makes of them.
pub proof fn law_steps_carry_out_the_action(
    files: Files,
    paths: DataPathsView,
    disk: Disk,
    action: DiskActionView,
)
    requires
        distinct_paths(paths),
        files_hold(files, paths, disk),
    ensures
        files_hold(
            after_steps(files, performed_steps(files, paths, action)),
            paths,
            performed(disk, action),
        ),
{
    let steps = performed_steps(files, paths, action);
    lemma_sizes_stay(files, steps);
    match action {
        DiskActionView::AppendLog { record } => {
            law_appended_record_is_at_the_end(paths.log, record, files);
            assert forall|i: int| 0 <= i < steps.len() implies leaves_alone(
                #[trigger] steps[i],
                paths.snapshot.current,
            ) by {}
            law_untouched_files_stay(files, steps, paths.snapshot.current);
            lemma_last_writer(files, paths.log, record);
        },
        DiskActionView::ReplaceSnapshot { snapshot, checksum } => {
            law_saved_snapshot_is_in_place(paths.snapshot, snapshot, checksum, files);
            assert forall|i: int| 0 <= i < steps.len() implies leaves_alone(
                #[trigger] steps[i],
                paths.log,
            ) by {}
            law_untouched_files_stay(files, steps, paths.log);
        },
        DiskActionView::ReplaceLog { header } => {
            law_old_log_stays_until_it_is_replaced(
                paths.log,
                paths.log_temporary,
                header,
                files,
                5,
            );
            assert(steps.take(5) =~= steps);
            assert forall|i: int| 0 <= i < steps.len() implies leaves_alone(
                #[trigger] steps[i],
                paths.snapshot.current,
            ) by {}
            law_untouched_files_stay(files, steps, paths.snapshot.current);
        },
    }
}

proof fn lemma_last_writer(files: Files, path: Seq<char>, record: Seq<char>)
    ensures
        after_steps(files, append_steps(path, record)).contents.contains_key(path),
        after_steps(files, append_steps(path, record)).contents[path] is Bytes,
{
    let steps = append_steps(path, record);
    assert(steps.take(0) =~= Seq::empty());
    lemma_after_steps(files, steps, 0);
    lemma_after_steps(files, steps, 1);
    lemma_after_steps(files, steps, 2);
    assert(steps.take(3) =~= steps);
}

/// A script that is resumed with what is reported of each step, on files where nothing
/// fails, performs just the steps of its action, and the engine is told that the action was
/// done. A snapshot must be the one of its checksum, and not larger than what a start accepts.
pub proof fn law_script_performs_the_action(
    files: Files,
    paths: DataPathsView,
    disk: Disk,
    action: DiskActionView,
)
    requires
        distinct_paths(paths),
        files_hold(files, paths, disk),
        action matches DiskActionView::ReplaceSnapshot { snapshot, checksum } ==> as_written(
            snapshot,
            snapshot.last_seq,
            checksum,
        ) && document_fits(disk, snapshot),
    ensures
        ({
            let steps = action_steps(paths, action);
            let (after, script, result) = ran(files, ScriptView { steps, at: 0 }, None);
            &&& after == after_steps(files, performed_steps(files, paths, action))
            &&& files_hold(after, paths, performed(disk, action))
            &&& script == (ScriptView { steps, at: steps.len() })
            &&& result is Ok
            &&& script_event(result) is Done
        }),
{
    let steps = action_steps(paths, action);
    law_steps_carry_out_the_action(files, paths, disk, action);
    match action {
        DiskActionView::ReplaceSnapshot { snapshot, checksum } => {
            law_save_script_runs(paths.snapshot, snapshot, checksum, files);
        },
        _ => {
            lemma_ran_in_order(files, steps, steps.len());
            assert(steps.take(steps.len() as int) =~= steps);
        },
    }
}

/// A snapshot whose document is larger than what a start accepts is never put in place: its
/// script fails at the check, the engine is told so, and the files hold the old log and the
/// old snapshot. The snapshot must be the one of its checksum.
pub proof fn law_oversized_snapshot_is_refused(
    files: Files,
    paths: DataPathsView,
    disk: Disk,
    snapshot: SnapshotView,
    checksum: u64,
)
    requires
        distinct_paths(paths),
        files_hold(files, paths, disk),
        as_written(snapshot, snapshot.last_seq, checksum),
        !document_fits(disk, snapshot),
    ensures
        ({
            let action = DiskActionView::ReplaceSnapshot { snapshot, checksum };
            let steps = action_steps(paths, action);
            let (after, script, result) = ran(files, ScriptView { steps, at: 0 }, None);
            &&& files_hold(after, paths, disk)
            &&& script_event(result) == DiskEventView::Failed(
                snapshot_error(paths.snapshot.temporary, "snapshot exceeds the maximum size"@),
            )
        }),
{
    let steps = save_steps(paths.snapshot, snapshot, checksum);
    let part = steps.take(steps.len() - 5);
    law_save_script_runs(paths.snapshot, snapshot, checksum, files);
    law_old_snapshot_stays_until_the_end(
        paths.snapshot,
        snapshot,
        checksum,
        files,
        steps.len() - 5,
    );
    lemma_sizes_stay(files, part);
    assert forall|i: int| 0 <= i < part.len() implies leaves_alone(
        #[trigger] part[i],
        paths.log,
    ) by {
        assert(part[i] == steps[i]);
    }
    law_untouched_files_stay(files, part, paths.log);
}

/// The snapshot of a checkpoint loses nothing, however large it is: when its script was run
/// on files where nothing fails, a restart finds the data that the engine holds. Where the
/// document fits, the log comes next; where it does not, the checkpoint ends with an error
/// and the engine is as it was.
pub proof fn law_saving_loses_nothing(
    files: Files,
    paths: DataPathsView,
    disk: Disk,
    engine: EngineView,
    purpose: PurposeView,
)
    requires
        distinct_paths(paths),
        files_hold(files, paths, disk),
        data_in_step(engine, disk),
    ensures
        ({
            let (action, pending) = (
                checkpoint_step(engine, purpose)->Perform_0,
                checkpoint_step(engine, purpose)->Perform_1,
            );
            let steps = action_steps(paths, action);
            let (after, script, result) = ran(files, ScriptView { steps, at: 0 }, None);
            let (next, step) = resumed(engine, pending, script_event(result));
            let last_seq = (engine.wal.next_seq - 1) as u64;
            let fits = document_fits(disk, snapshot_of(engine.contents, last_seq));
            let found = if fits {
                performed(disk, action)
            } else {
                disk
            };
            &&& files_hold(after, paths, found)
            &&& data_in_step(next, found)
            &&& next == engine
            &&& fits ==> step is Perform
            &&& !fits ==> step == StepView::Finished(
                checkpoint_result(
                    purpose,
                    Err(
                        EngineErrorView::Persistence(
                            snapshot_error(
                                paths.snapshot.temporary,
                                "snapshot exceeds the maximum size"@,
                            ),
                        ),
                    ),
                ),
            )
        }),
{
    let last_seq = (engine.wal.next_seq - 1) as u64;
    let snapshot = snapshot_of(engine.contents, last_seq);
    let checksum = snapshot_checksum(
        SNAPSHOT_VERSION,
        last_seq,
        sorted_entries(engine.contents),
    );
    law_snapshot_round_trip(engine.contents, last_seq);
    if document_fits(disk, snapshot) {
        law_checkpoint_loses_nothing(engine, disk, purpose);
        law_script_performs_the_action(
            files,
            paths,
            disk,
            DiskActionView::ReplaceSnapshot { snapshot, checksum },
        );
    } else {
        law_oversized_snapshot_is_refused(files, paths, disk, snapshot, checksum);
    }
}

/// Where the program stops while a record is written, a restart finds the data before the
/// mutation, or the data after it, or refuses the log; it never finds anything else. The
/// next sequence number must exist.
pub proof fn law_interrupted_append(
    engine: EngineView,
    disk: Disk,
    command: CommandView,
    written: int,
)
    requires
        data_in_step(engine, disk),
        validation(engine.contents, command) is Ok,
        append_plan(engine.wal, command) is Ok,
        engine.wal.next_seq < u64::MAX,
        0 <= written <= encode_utf8(record_text(engine.wal.next_seq, command)).len(),
    ensures
        ({
            let record = encode_utf8(record_text(engine.wal.next_seq, command));
            let found = successor(
                engine,
                Disk { log: disk.log + record.take(written), ..disk },
            );
            ||| {
                &&& written == 0
                &&& found is Some
                &&& found->0.contents == engine.contents
                &&& found->0.wal.next_seq == engine.wal.next_seq
            }
            ||| found is None && 0 < written < record.len()
            ||| {
                &&& written == record.len()
                &&& found is Some
                &&& found->0.contents == applied(engine.contents, command)
                &&& found->0.wal.next_seq == engine.wal.next_seq + 1
            }
        }),
{
    let start = snapshot_start(disk)->0;
    let record = encode_utf8(record_text(engine.wal.next_seq, command));
    if written == 0 {
        assert(disk.log + record.take(0) =~= disk.log);
    } else if written < record.len() {
        law_torn_append_is_refused(
            disk.log,
            start.0,
            start.1,
            engine.wal.next_seq,
            command,
            written,
        );
    } else {
        assert(record.take(written) =~= record);
        law_append_then_recover(disk.log, start.0, start.1, engine.wal, command);
    }
}

/// A checkpoint that fails changes nothing in the engine.
pub proof fn law_failed_checkpoint_changes_nothing(
    engine: EngineView,
    purpose: PurposeView,
    error: PersistenceErrorView,
)
    ensures
        resumed(
            engine,
            PendingView::SaveSnapshot { purpose },
            DiskEventView::Failed(error),
        ).0 == engine,
        resumed(
            engine,
            PendingView::CompactLog { purpose },
            DiskEventView::Failed(error),
        ).0 == engine,
{
}

/// What was written is read back: once the record of a SET was written, a GET of its key gives
/// the value, and so does a GET after a restart. GET of any other key is answered as before.
/// The next sequence number must exist.
pub proof fn law_written_values_are_read_back(
    engine: EngineView,
    disk: Disk,
    key: Seq<char>,
    value: Seq<char>,
    other: Seq<char>,
)
    requires
        data_in_step(engine, disk),
        execute_step(engine, CommandView::SetValue { key, value }, None) is Perform,
        other != key,
        engine.wal.next_seq < u64::MAX,
    ensures
        ({
            let set = CommandView::SetValue { key, value };
            let get = CommandView::Get { key };
            let get_other = CommandView::Get { key: other };
            let step = execute_step(engine, set, None);
            let (next, reply) = resumed(engine, step->Perform_1, DiskEventView::Done);
            let after = performed(disk, step->Perform_0);
            let found = successor(engine, after)->0.contents;
            let read = StepView::Finished(CompletionView::Executed(Ok(ReplyView::Value(value))));
            &&& reply is Finished
            &&& execute_step(next, get, None) == read
            &&& execute_step(next, get_other, None) == execute_step(engine, get_other, None)
            &&& successor(engine, after) is Some
            &&& answer(found, get) == Ok::<_, DomainErrorView>(ReplyView::Value(value))
            &&& answer(found, get_other) == answer(engine.contents, get_other)
        }),
{
    law_mutation_survives_restart(
        engine,
        disk,
        CommandView::SetValue { key, value },
        None,
    );
}

/// An automatic checkpoint that failed is tried again, whichever of its actions failed: the
/// number of mutations that led to it still stands, so that the next command that succeeds
/// leads to a checkpoint too.
pub proof fn law_failed_checkpoint_is_tried_again(
    engine: EngineView,
    purpose: PurposeView,
    error: PersistenceErrorView,
    limit: u64,
    reply: ReplyView,
)
    requires
        limit > 0,
        engine.writes >= limit,
    ensures
        ({
            let failed = DiskEventView::Failed(error);
            let unsaved = resumed(engine, PendingView::SaveSnapshot { purpose }, failed).0;
            let uncut = resumed(engine, PendingView::CompactLog { purpose }, failed).0;
            let again = PurposeView::AutoCheckpoint { reply };
            &&& replied_step(unsaved, reply, Some(limit)) == checkpoint_step(unsaved, again)
            &&& replied_step(uncut, reply, Some(limit)) == checkpoint_step(uncut, again)
        }),
{
}

/// Only mutations that succeed count towards an automatic checkpoint, each once; a
/// checkpoint that succeeds starts the count anew.
pub proof fn law_checkpoints_follow_mutations(
    engine: EngineView,
    command: CommandView,
    threshold: Option<u64>,
    purpose: PurposeView,
)
    requires
        validation(engine.contents, command) is Ok,
        engine.wal.next_seq < u64::MAX,
        engine.writes < u64::MAX,
    ensures
        logged(engine, command, threshold).0.writes == engine.writes + 1,
        resumed(
            engine,
            PendingView::CompactLog { purpose },
            DiskEventView::Done,
        ).0.writes == 0,
{
}

// ---------------------------------------------------------------------------------------
// Calls on files
// ---------------------------------------------------------------------------------------

/// What files hold: the bytes of the log, and the document of the snapshot, where there is
/// one.
pub open spec fn disk_of(files: Files, paths: DataPathsView) -> Disk {
    let current = paths.snapshot.current;
    Disk {
        snapshot: if !files.contents.contains_key(current) {
            None
        } else {
            match files.contents[current] {
                FileContent::Document(snapshot) => Some(snapshot),
                FileContent::Bytes(_) => None,
            }
        },
        log: bytes_of(files, paths.log),
        size_of: files.size_of,
    }
}

/// Files that hold a log and a snapshot hold just those.
proof fn lemma_disk_of_files(files: Files, paths: DataPathsView, disk: Disk)
    requires
        files_hold(files, paths, disk),
    ensures
        disk_of(files, paths) == disk,
{
}

/// The steps of one call on files that fail, one at most for each action.
pub ghost struct Failures {
    pub append: Option<Failure>,
    pub snapshot: Option<Failure>,
    pub log: Option<Failure>,
}

/// The step that fails when an action is carried out.
pub open spec fn failure_of(failures: Failures, action: DiskActionView) -> Option<Failure> {
    match action {
        DiskActionView::AppendLog { .. } => failures.append,
        DiskActionView::ReplaceSnapshot { .. } => failures.snapshot,
        DiskActionView::ReplaceLog { .. } => failures.log,
    }
}

/// How many actions a call may still ask for.
pub open spec fn actions_left(step: StepView) -> nat {
    match step {
        StepView::Finished(_) => 0,
        StepView::Perform(_, PendingView::CompactLog { .. }) => 1,
        StepView::Perform(_, PendingView::SaveSnapshot { .. }) => 2,
        StepView::Perform(_, PendingView::Append { .. }) => 3,
    }
}

/// The files, the engine and the result when a call was carried out: the script of each
/// action is run, and the engine goes on with what it is told of that.
pub open spec fn carried_out(
    files: Files,
    paths: DataPathsView,
    engine: EngineView,
    step: StepView,
    failures: Failures,
) -> (Files, EngineView, CompletionView)
    decreases actions_left(step),
{
    match step {
        StepView::Finished(completion) => (files, engine, completion),
        StepView::Perform(action, pending) => {
            let script = ScriptView { steps: action_steps(paths, action), at: 0 };
            let (after, _, result) = ran(files, script, failure_of(failures, action));
            let (next, next_step) = resumed(engine, pending, script_event(result));
            carried_out(after, paths, next, next_step, failures)
        },
    }
}

/// A script of a checkpoint that ends with an error leaves the log and the snapshot as they
/// were; one that comes to its end has carried out its action.
proof fn lemma_checkpoint_script(
    files: Files,
    paths: DataPathsView,
    disk: Disk,
    action: DiskActionView,
    failure: Option<Failure>,
)
    requires
        distinct_paths(paths),
        files_hold(files, paths, disk),
        !(action is AppendLog),
        action matches DiskActionView::ReplaceSnapshot { snapshot, checksum } ==> as_written(
            snapshot,
            snapshot.last_seq,
            checksum,
        ),
    ensures
        ({
            let script = ScriptView { steps: action_steps(paths, action), at: 0 };
            let (after, _, result) = ran(files, script, failure);
            let fits = action matches DiskActionView::ReplaceSnapshot { snapshot, checksum }
                ==> document_fits(disk, snapshot);
            &&& result is Err ==> files_hold(after, paths, disk)
            &&& result is Ok ==> files_hold(after, paths, performed(disk, action)) && fits
            &&& failure is None && fits ==> result is Ok
        }),
{
    let script = ScriptView { steps: action_steps(paths, action), at: 0 };
    let steps = script.steps;
    lemma_ran_sizes(files, script, failure);
    match action {
        DiskActionView::ReplaceSnapshot { snapshot, checksum } => {
            if document_fits(disk, snapshot) {
                law_script_performs_the_action(files, paths, disk, action);
            } else {
                law_oversized_snapshot_is_refused(files, paths, disk, snapshot, checksum);
            }
        },
        _ => {
            law_script_performs_the_action(files, paths, disk, action);
        },
    }
    if ran(files, script, failure).2 is Ok {
        lemma_ran_to_the_end(files, script, failure);
    } else {
        law_failed_script_leaves_alone(files, script, failure, paths.log);
        law_failed_script_leaves_alone(files, script, failure, paths.snapshot.current);
    }
}

/// A checkpoint that is carried out on files ends in one of three ways: it was made, its
/// snapshot was not put in place, or its log was not. Hands back what the files then hold, and
/// the result.
proof fn lemma_checkpoint_on_files(
    files: Files,
    paths: DataPathsView,
    disk: Disk,
    engine: EngineView,
    purpose: PurposeView,
    failures: Failures,
) -> (outcome: (Disk, Result<(), EngineErrorView>))
    requires
        distinct_paths(paths),
        files_hold(files, paths, disk),
        engine.contents.dom().finite(),
    ensures
        ({
            let step = checkpoint_step(engine, purpose);
            let (after, next, completion) = carried_out(files, paths, engine, step, failures);
            let last_seq = (engine.wal.next_seq - 1) as u64;
            let saved = performed(disk, step->Perform_0);
            let fits = document_fits(disk, snapshot_of(engine.contents, last_seq));
            let (found, result) = outcome;
            &&& files_hold(after, paths, found)
            &&& completion == checkpoint_result(purpose, result)
            &&& result is Ok ==> fits && next == (EngineView { writes: 0, ..engine }) && found
                == performed(saved, DiskActionView::ReplaceLog { header: header_text(last_seq) })
            &&& result is Err ==> result->Err_0 is Persistence && next == engine && (found == disk
                || (found == saved && fits))
            &&& result is Err && failures.snapshot is None && fits ==> found == saved
            &&& failures.snapshot is None && failures.log is None && fits ==> result is Ok
        }),
{
    let step = checkpoint_step(engine, purpose);
    let last_seq = (engine.wal.next_seq - 1) as u64;
    let action = step->Perform_0;
    let script = ScriptView { steps: action_steps(paths, action), at: 0 };
    law_snapshot_round_trip(engine.contents, last_seq);
    lemma_checkpoint_script(files, paths, disk, action, failures.snapshot);
    let (after, _, result) = ran(files, script, failures.snapshot);
    let (next, next_step) = resumed(engine, step->Perform_1, script_event(result));
    assert(carried_out(files, paths, engine, step, failures) == carried_out(
        after,
        paths,
        next,
        next_step,
        failures,
    ));
    match result {
        Err(error) => (disk, Err(EngineErrorView::Persistence(error))),
        Ok(_) => {
            let saved = performed(disk, action);
            let second = next_step->Perform_0;
            let second_script = ScriptView { steps: action_steps(paths, second), at: 0 };
            lemma_checkpoint_script(after, paths, saved, second, failures.log);
            let (end_files, _, end_result) = ran(after, second_script, failures.log);
            let (last, last_step) = resumed(next, next_step->Perform_1, script_event(end_result));
            assert(carried_out(after, paths, next, next_step, failures) == carried_out(
                end_files,
                paths,
                last,
                last_step,
                failures,
            ));
            match end_result {
                Err(error) => (saved, Err(EngineErrorView::Persistence(error))),
                Ok(_) => (performed(saved, second), Ok(())),
            }
        },
    }
}

/// A checkpoint that is answered with an error leaves the log as it was, whichever of its
/// steps failed, and the engine too; a restart finds the data that the engine holds. One that
/// succeeds leaves a log of its header alone, and the count of mutations is in step. It does
/// succeed where no step fails and the files accept its document. Hands back the result.
pub proof fn law_failed_checkpoint_keeps_the_log(
    files: Files,
    paths: DataPathsView,
    disk: Disk,
    engine: EngineView,
    purpose: PurposeView,
    failures: Failures,
) -> (result: Result<(), EngineErrorView>)
    requires
        distinct_paths(paths),
        files_hold(files, paths, disk),
        data_in_step(engine, disk),
    ensures
        ({
            let step = checkpoint_step(engine, purpose);
            let (after, next, completion) = carried_out(files, paths, engine, step, failures);
            let found = disk_of(after, paths);
            &&& completion == checkpoint_result(purpose, result)
            &&& files_hold(after, paths, found)
            &&& data_in_step(next, found)
            &&& result is Err ==> found.log == disk.log && next == engine
            &&& result is Ok ==> found.log == encode_utf8(
                header_text((engine.wal.next_seq - 1) as u64),
            ) && in_step(next, found) && next == (EngineView { writes: 0, ..engine })
            &&& failures.snapshot is None && failures.log is None && document_fits(
                disk,
                snapshot_of(engine.contents, (engine.wal.next_seq - 1) as u64),
            ) ==> result is Ok
        }),
{
    let (found, result) = lemma_checkpoint_on_files(
        files,
        paths,
        disk,
        engine,
        purpose,
        failures,
    );
    let step = checkpoint_step(engine, purpose);
    let after = carried_out(files, paths, engine, step, failures).0;
    lemma_disk_of_files(after, paths, found);
    if document_fits(
        disk,
        snapshot_of(engine.contents, (engine.wal.next_seq - 1) as u64),
    ) {
        law_checkpoint_loses_nothing(engine, disk, purpose);
    }
    result
}

/// When a mutation was logged on files without an error, the files hold its record, and the
/// call goes on with the engine that has applied it.
proof fn lemma_mutation_on_files(
    files: Files,
    paths: DataPathsView,
    disk: Disk,
    engine: EngineView,
    command: CommandView,
    threshold: Option<u64>,
    failures: Failures,
)
    requires
        distinct_paths(paths),
        files_hold(files, paths, disk),
        data_in_step(engine, disk),
        is_mutation_view(command),
        execute_step(engine, command, threshold) is Perform,
    ensures
        ({
            let step = execute_step(engine, command, threshold);
            let (action, pending) = (step->Perform_0, step->Perform_1);
            let script = ScriptView { steps: action_steps(paths, action), at: 0 };
            let (after, _, result) = ran(files, script, failures.append);
            let logged_disk = performed(disk, action);
            let (next, next_step) = resumed(engine, pending, script_event(result));
            &&& carried_out(files, paths, engine, step, failures) == carried_out(
                after,
                paths,
                next,
                next_step,
                failures,
            )
            &&& failures.append is None ==> result is Ok
            &&& result is Ok ==> files_hold(after, paths, logged_disk)
            &&& result is Ok && engine.wal.next_seq < u64::MAX ==> data_in_step(next, logged_disk)
        }),
{
    let step = execute_step(engine, command, threshold);
    let action = step->Perform_0;
    let script = ScriptView { steps: action_steps(paths, action), at: 0 };
    law_script_performs_the_action(files, paths, disk, action);
    if ran(files, script, failures.append).2 is Ok {
        lemma_ran_to_the_end(files, script, failures.append);
    }
    if engine.wal.next_seq < u64::MAX {
        law_mutation_survives_restart(engine, disk, command, threshold);
    }
}

/// An automatic checkpoint that fails keeps all that the command did, whichever step of the
/// checkpoint failed: the reply and the engine are those of the command without a checkpoint,
/// the log holds every record, that of this command too, and a restart finds the data. The
/// number of mutations stays at the threshold or above it, so that the next command that
/// succeeds tries again.
pub proof fn law_failed_automatic_checkpoint(
    files: Files,
    paths: DataPathsView,
    disk: Disk,
    engine: EngineView,
    command: CommandView,
    limit: u64,
    failures: Failures,
)
    requires
        distinct_paths(paths),
        files_hold(files, paths, disk),
        data_in_step(engine, disk),
    ensures
        ({
            let (after, next, completion) = carried_out(
                files,
                paths,
                engine,
                execute_step(engine, command, Some(limit)),
                failures,
            );
            let (plain_files, plain, plain_completion) = carried_out(
                files,
                paths,
                engine,
                execute_step(engine, command, None),
                failures,
            );
            let found = disk_of(after, paths);
            completion matches CompletionView::ExecutedWithCheckpoint(Ok(outcome))
                ==> (outcome.auto_checkpoint matches Some(Err(_)) ==> {
                &&& plain_completion == CompletionView::Executed(Ok(outcome.reply))
                &&& next == plain
                &&& found.log == disk_of(plain_files, paths).log
                &&& found.log == if is_mutation_view(command) {
                    disk.log + encode_utf8(record_text(engine.wal.next_seq, command))
                } else {
                    disk.log
                }
                &&& next.contents == if is_mutation_view(command) {
                    applied(engine.contents, command)
                } else {
                    engine.contents
                }
                &&& data_in_step(next, found)
                &&& 0 < limit <= next.writes
            })
        }),
{
    let step = execute_step(engine, command, Some(limit));
    if is_mutation_view(command) {
        if step is Perform {
            lemma_mutation_on_files(files, paths, disk, engine, command, Some(limit), failures);
            lemma_mutation_on_files(files, paths, disk, engine, command, None, failures);
            let action = step->Perform_0;
            let script = ScriptView { steps: action_steps(paths, action), at: 0 };
            let (after, _, result) = ran(files, script, failures.append);
            let (next, next_step) = resumed(engine, step->Perform_1, script_event(result));
            if next_step is Perform {
                let reply = answer(engine.contents, command)->Ok_0;
                let logged_disk = performed(disk, action);
                lemma_disk_of_files(after, paths, logged_disk);
                let _ = law_failed_checkpoint_keeps_the_log(
                    after,
                    paths,
                    logged_disk,
                    next,
                    PurposeView::AutoCheckpoint { reply },
                    failures,
                );
            }
        }
    } else if step is Perform {
        let reply = answer(engine.contents, command)->Ok_0;
        lemma_disk_of_files(files, paths, disk);
        let _ = law_failed_checkpoint_keeps_the_log(
            files,
            paths,
            disk,
            engine,
            PurposeView::AutoCheckpoint { reply },
            failures,
        );
    }
}

/// The result of a command within the result of its call, with or without a checkpoint.
pub open spec fn command_result(completion: CompletionView) -> Option<
    Result<ReplyView, EngineErrorView>,
> {
    match completion {
        CompletionView::Executed(result) => Some(result),
        CompletionView::ExecutedWithCheckpoint(Ok(outcome)) => Some(Ok(outcome.reply)),
        CompletionView::ExecutedWithCheckpoint(Err(error)) => Some(Err(error)),
        _ => None,
    }
}

/// The checkpoint within the result of a call of a command, where one was made.
pub open spec fn command_checkpoint(completion: CompletionView) -> Option<
    Result<(), EngineErrorView>,
> {
    match completion {
        CompletionView::ExecutedWithCheckpoint(Ok(outcome)) => outcome.auto_checkpoint,
        _ => None,
    }
}

/// A command that the rules allow does to the data what it is for and is answered
/// accordingly, whether or not a checkpoint follows, and whether or not that succeeds. One
/// that they refuse changes nothing and is answered with their error. For a mutation, its
/// record must be writable.
pub proof fn law_commands_are_carried_out(
    files: Files,
    paths: DataPathsView,
    engine: EngineView,
    command: CommandView,
    threshold: Option<u64>,
    failures: Failures,
)
    requires
        distinct_paths(paths),
        files_in_step(files, paths, engine),
        is_mutation_view(command) ==> {
            &&& !engine.wal.failed
            &&& engine.wal.next_seq < u64::MAX
            &&& failures.append is None
            &&& record_fits(engine.wal.next_seq, command)
        },
    ensures
        ({
            let step = execute_step(engine, command, threshold);
            let (after, next, completion) = carried_out(files, paths, engine, step, failures);
            &&& files_in_step(after, paths, next)
            &&& command_result(completion) == Some(
                match answer(engine.contents, command) {
                    Ok(reply) => Ok(reply),
                    Err(error) => Err(EngineErrorView::Domain(error)),
                },
            )
            &&& next.contents == applied(engine.contents, command)
            &&& next.wal.next_seq == engine.wal.next_seq + if is_mutation_view(command)
                && validation(engine.contents, command) is Ok {
                1int
            } else {
                0
            }
            &&& threshold is None || threshold->0 == 0 ==> command_checkpoint(completion) is None
            &&& threshold is Some <==> completion is ExecutedWithCheckpoint
        }),
{
    let disk = disk_of(files, paths);
    let step = execute_step(engine, command, threshold);
    if step is Perform {
        let reply = answer(engine.contents, command)->Ok_0;
        let purpose = PurposeView::AutoCheckpoint { reply };
        if is_mutation_view(command) {
            lemma_mutation_on_files(files, paths, disk, engine, command, threshold, failures);
            let action = step->Perform_0;
            let script = ScriptView { steps: action_steps(paths, action), at: 0 };
            let (after, _, result) = ran(files, script, failures.append);
            let (next, next_step) = resumed(engine, step->Perform_1, script_event(result));
            let logged_disk = performed(disk, action);
            lemma_disk_of_files(after, paths, logged_disk);
            if next_step is Perform {
                let _ = law_failed_checkpoint_keeps_the_log(
                    after,
                    paths,
                    logged_disk,
                    next,
                    purpose,
                    failures,
                );
            }
        } else {
            let _ = law_failed_checkpoint_keeps_the_log(
                files,
                paths,
                disk,
                engine,
                purpose,
                failures,
            );
        }
    }
}

/// A checkpoint follows a command that succeeds exactly where the threshold is not zero and
/// the mutations since the last one have reached it; a command that fails leads to none.
pub proof fn law_checkpoint_at_the_threshold(
    engine: EngineView,
    reply: ReplyView,
    limit: u64,
    command: CommandView,
)
    ensures
        replied_step(engine, reply, Some(limit)) is Perform <==> 0 < limit <= engine.writes,
        replied_step(engine, reply, Some(limit)) is Finished ==> replied_step(
            engine,
            reply,
            Some(limit),
        ) == StepView::Finished(
            CompletionView::ExecutedWithCheckpoint(
                Ok(ExecutionOutcomeView { reply, auto_checkpoint: None }),
            ),
        ),
        replied_step(engine, reply, None) == StepView::Finished(
            CompletionView::Executed(Ok(reply)),
        ),
        answer(engine.contents, command) is Err ==> execute_step(
            engine,
            command,
            Some(limit),
        ) is Finished,
        execute_step(engine, command, Some(limit)) matches StepView::Perform(action, _)
            ==> !(action is ReplaceLog) && (action is AppendLog <==> is_mutation_view(command)),
{
}

/// A checkpoint hands its result to whom it was made for: SAVE learns how it went, a CLEAR
/// learns how many keys there were, and a command keeps its reply beside it.
pub proof fn law_checkpoint_results(
    reply: ReplyView,
    cleared: usize,
    result: Result<(), EngineErrorView>,
)
    ensures
        checkpoint_result(PurposeView::Checkpoint, result) == CompletionView::Checkpointed(result),
        command_result(checkpoint_result(PurposeView::AutoCheckpoint { reply }, result)) == Some(
            Ok::<_, EngineErrorView>(reply),
        ),
        command_checkpoint(checkpoint_result(PurposeView::AutoCheckpoint { reply }, result))
            == Some(result),
        result is Ok ==> checkpoint_result(PurposeView::Clear { cleared }, result)
            == CompletionView::Cleared(Ok(cleared)),
        result is Err ==> checkpoint_result(PurposeView::Clear { cleared }, result)
            == CompletionView::Cleared(Err(result->Err_0)),
{
}

/// A command that cannot be logged is answered with the error of the log, in the form in
/// which its call is answered.
pub proof fn law_failed_writes_are_reported(
    engine: EngineView,
    command: CommandView,
    threshold: Option<u64>,
    error: PersistenceErrorView,
)
    ensures
        ({
            let pending = PendingView::Append { command, threshold };
            let (next, step) = resumed(engine, pending, DiskEventView::Failed(error));
            &&& step is Finished
            &&& command_result(step->Finished_0) == Some(
                Err::<ReplyView, _>(EngineErrorView::Persistence(error)),
            )
            &&& step->Finished_0 is ExecutedWithCheckpoint <==> threshold is Some
            &&& next.wal.failed
            &&& next.contents == engine.contents
            &&& next.writes == engine.writes
        }),
{
}

/// A checkpoint keeps the data, and files that are in step stay so. Where no step fails and the
/// files accept its document, it succeeds, and the mutations are counted from zero again; one
/// that fails leaves the engine as it was. Hands back the result, which is the one that is
/// reported.
pub proof fn law_checkpoints_are_carried_out(
    files: Files,
    paths: DataPathsView,
    engine: EngineView,
    purpose: PurposeView,
    failures: Failures,
) -> (result: Result<(), EngineErrorView>)
    requires
        distinct_paths(paths),
        files_in_step(files, paths, engine),
    ensures
        ({
            let step = checkpoint_step(engine, purpose);
            let (after, next, completion) = carried_out(files, paths, engine, step, failures);
            &&& completion == checkpoint_result(purpose, result)
            &&& files_in_step(after, paths, next)
            &&& result is Err ==> next == engine
            &&& result is Ok ==> next == (EngineView { writes: 0, ..engine })
            &&& failures.snapshot is None && failures.log is None && document_fits(
                disk_of(files, paths),
                snapshot_of(engine.contents, (engine.wal.next_seq - 1) as u64),
            ) ==> result is Ok
        }),
{
    law_failed_checkpoint_keeps_the_log(
        files,
        paths,
        disk_of(files, paths),
        engine,
        purpose,
        failures,
    )
}

/// A clear whose steps all succeed, on files that accept an empty document, says how many keys
/// there were and leaves none.
pub proof fn law_clears_are_carried_out(
    files: Files,
    paths: DataPathsView,
    engine: EngineView,
    cleared: usize,
    failures: Failures,
)
    requires
        distinct_paths(paths),
        files_in_step(files, paths, engine),
        failures.snapshot is None,
        failures.log is None,
        empty_document_fits(files),
    ensures
        ({
            let empty = emptied(engine);
            let step = checkpoint_step(empty, PurposeView::Clear { cleared });
            let (after, next, completion) = carried_out(files, paths, empty, step, failures);
            &&& completion == CompletionView::Cleared(Ok(cleared))
            &&& files_in_step(after, paths, next)
            &&& next.contents == Contents::empty()
            &&& next.writes == 0
            &&& next.wal == engine.wal
        }),
{
    let disk = disk_of(files, paths);
    let purpose = PurposeView::Clear { cleared };
    let last_seq = (engine.wal.next_seq - 1) as u64;
    assert(document_fits(disk, snapshot_of(Contents::empty(), last_seq)));
    lemma_clear_keeps_step(files, paths, engine, cleared, failures);
    let (_, result) = lemma_checkpoint_on_files(
        files,
        paths,
        disk,
        emptied(engine),
        purpose,
        failures,
    );
    assert(result is Ok);
}

/// A command without an automatic checkpoint does what it is for and is answered with its
/// result alone, and the mutations go on being counted. For a mutation, its record must be
/// writable.
pub proof fn law_plain_commands_make_no_checkpoint(
    files: Files,
    paths: DataPathsView,
    engine: EngineView,
    command: CommandView,
    failures: Failures,
)
    requires
        distinct_paths(paths),
        files_in_step(files, paths, engine),
        is_mutation_view(command) ==> {
            &&& !engine.wal.failed
            &&& engine.wal.next_seq < u64::MAX
            &&& failures.append is None
            &&& record_fits(engine.wal.next_seq, command)
        },
    ensures
        ({
            let step = plain_step(engine, command);
            let (after, next, completion) = carried_out(files, paths, engine, step, failures);
            &&& files_in_step(after, paths, next)
            &&& next.contents == applied(engine.contents, command)
            &&& completion == CompletionView::Executed(
                match answer(engine.contents, command) {
                    Ok(reply) => Ok(reply),
                    Err(error) => Err(EngineErrorView::Domain(error)),
                },
            )
        }),
{
    law_commands_are_carried_out(files, paths, engine, command, None, failures);
}

/// A start begins with what the snapshot holds, up to its sequence number; without a snapshot
/// with nothing. That is what a restart on the files begins with.
pub proof fn law_start_begins_with_the_snapshot(disk: Disk, snapshot: LoadedSnapshot)
    ensures
        disk.snapshot is None ==> snapshot_start(disk) == Some(replay_start(None)),
        disk.snapshot matches Some(document) ==> (document_fits(disk, document) && loaded(document)
            == Ok::<_, Seq<char>>((snapshot.store@, snapshot.last_seq)) ==> snapshot_start(disk)
            == Some(replay_start(Some(snapshot)))),
        replay_start(Some(snapshot)) == (snapshot.store@, snapshot.last_seq),
{
}

/// The engine is told that an action was done where its script came to its end, and else the
/// error with which it ended.
pub proof fn law_the_engine_is_told_how_it_went(error: PersistenceErrorView)
    ensures
        script_event(Ok(())) is Done,
        script_event(Err(error)) == DiskEventView::Failed(error),
{
}

/// An error of the engine reads as that of the layer it comes from.
pub proof fn law_engine_errors_read_like_their_cause(
    refused: DomainErrorView,
    failed: PersistenceErrorView,
)
    ensures
        EngineErrorView::Domain(refused).text() == refused.text(),
        EngineErrorView::Persistence(failed).text() == failed.text(),
{
}

// ---------------------------------------------------------------------------------------
// Sequences of calls
// ---------------------------------------------------------------------------------------

/// A call of the engine, or a restart of the program.
pub ghost enum Call {
    Execute { command: CommandView, threshold: Option<u64> },
    Checkpoint,
    Clear,
    Restart,
}

/// The files and the engine after a call.
pub open spec fn after_call(
    files: Files,
    paths: DataPathsView,
    engine: EngineView,
    call: Call,
    failures: Failures,
) -> (Files, EngineView) {
    let (begun, step) = match call {
        Call::Execute { command, threshold } => (
            engine,
            execute_step(engine, command, threshold),
        ),
        Call::Clear => (
            emptied(engine),
            checkpoint_step(
                emptied(engine),
                PurposeView::Clear { cleared: engine.contents.len() as usize },
            ),
        ),
        _ => (engine, checkpoint_step(engine, PurposeView::Checkpoint)),
    };
    if call is Restart {
        (
            files,
            restarted(disk_of(files, paths), paths.log, paths.snapshot.current)->0,
        )
    } else {
        let (after, next, _) = carried_out(files, paths, begun, step, failures);
        (after, next)
    }
}

/// The files and the engine after calls, each with the steps that fail in it.
pub open spec fn after_calls(
    files: Files,
    paths: DataPathsView,
    engine: EngineView,
    calls: Seq<(Call, Failures)>,
) -> (Files, EngineView)
    decreases calls.len(),
{
    if calls.len() == 0 {
        (files, engine)
    } else {
        let (before, current) = after_calls(files, paths, engine, calls.drop_last());
        after_call(before, paths, current, calls.last().0, calls.last().1)
    }
}

/// Whether a call leaves no mutation half done: no record is written only in part, and the
/// data is not removed from memory alone. A checkpoint may fail in any way.
pub open spec fn done_or_undone(call: Call, failures: Failures) -> bool {
    match call {
        Call::Execute { .. } => failures.append is None,
        Call::Clear => failures.snapshot is None,
        _ => true,
    }
}

/// Whether files hold a log and a snapshot from which a restart finds the data of the engine.
pub open spec fn files_in_step(files: Files, paths: DataPathsView, engine: EngineView) -> bool {
    &&& files_hold(files, paths, disk_of(files, paths))
    &&& data_in_step(engine, disk_of(files, paths))
}

/// Whether a start accepts the document of a store without data, whatever its sequence number
/// is.
pub open spec fn empty_document_fits(files: Files) -> bool {
    forall|last_seq: u64|
        (files.size_of)(#[trigger] snapshot_of(Contents::empty(), last_seq)) <= MAX_SNAPSHOT_BYTES
}

proof fn lemma_carried_out_sizes(
    files: Files,
    paths: DataPathsView,
    engine: EngineView,
    step: StepView,
    failures: Failures,
)
    ensures
        carried_out(files, paths, engine, step, failures).0.size_of == files.size_of,
    decreases actions_left(step),
{
    match step {
        StepView::Finished(_) => {},
        StepView::Perform(action, pending) => {
            let script = ScriptView { steps: action_steps(paths, action), at: 0 };
            let failure = failure_of(failures, action);
            lemma_ran_sizes(files, script, failure);
            let (after, _, result) = ran(files, script, failure);
            let (next, next_step) = resumed(engine, pending, script_event(result));
            lemma_carried_out_sizes(after, paths, next, next_step, failures);
        },
    }
}

proof fn lemma_execute_keeps_step(
    files: Files,
    paths: DataPathsView,
    engine: EngineView,
    command: CommandView,
    threshold: Option<u64>,
    failures: Failures,
)
    requires
        distinct_paths(paths),
        files_in_step(files, paths, engine),
        engine.wal.next_seq < u64::MAX,
        failures.append is None,
    ensures
        ({
            let step = execute_step(engine, command, threshold);
            let (after, next, _) = carried_out(files, paths, engine, step, failures);
            &&& files_in_step(after, paths, next)
            &&& next.wal.next_seq <= engine.wal.next_seq + 1
        }),
{
    let disk = disk_of(files, paths);
    let step = execute_step(engine, command, threshold);
    if step is Perform {
        let reply = answer(engine.contents, command)->Ok_0;
        let purpose = PurposeView::AutoCheckpoint { reply };
        if is_mutation_view(command) {
            lemma_mutation_on_files(files, paths, disk, engine, command, threshold, failures);
            let action = step->Perform_0;
            let script = ScriptView { steps: action_steps(paths, action), at: 0 };
            let (after, _, result) = ran(files, script, failures.append);
            let (next, next_step) = resumed(engine, step->Perform_1, script_event(result));
            let logged_disk = performed(disk, action);
            lemma_disk_of_files(after, paths, logged_disk);
            if next_step is Perform {
                let _ = law_failed_checkpoint_keeps_the_log(
                    after,
                    paths,
                    logged_disk,
                    next,
                    purpose,
                    failures,
                );
            }
        } else {
            let _ = law_failed_checkpoint_keeps_the_log(
                files,
                paths,
                disk,
                engine,
                purpose,
                failures,
            );
        }
    }
}

proof fn lemma_clear_keeps_step(
    files: Files,
    paths: DataPathsView,
    engine: EngineView,
    cleared: usize,
    failures: Failures,
)
    requires
        distinct_paths(paths),
        files_in_step(files, paths, engine),
        empty_document_fits(files),
        failures.snapshot is None,
    ensures
        ({
            let empty = emptied(engine);
            let step = checkpoint_step(empty, PurposeView::Clear { cleared });
            let (after, next, _) = carried_out(files, paths, empty, step, failures);
            &&& files_in_step(after, paths, next)
            &&& next.wal.next_seq == engine.wal.next_seq
        }),
{
    let disk = disk_of(files, paths);
    let empty = emptied(engine);
    let purpose = PurposeView::Clear { cleared };
    let last_seq = (engine.wal.next_seq - 1) as u64;
    assert(document_fits(disk, snapshot_of(Contents::empty(), last_seq)));
    law_clear_lasts(engine, disk, cleared);
    let (found, _) = lemma_checkpoint_on_files(files, paths, disk, empty, purpose, failures);
    let after = carried_out(
        files,
        paths,
        empty,
        checkpoint_step(empty, purpose),
        failures,
    ).0;
    lemma_disk_of_files(after, paths, found);
}

/// A restart finds all data after any sequence of commands, checkpoints, clears and restarts:
/// from files in step, each call leads to files in step, also where a checkpoint failed at any
/// of its steps.
///
/// No record may be written only in part: a restart refuses such a log. The snapshot of a
/// clear must be put in place: else a restart finds the data from before the clear. And the
/// sequence numbers must suffice.
pub proof fn law_calls_lose_nothing(
    files: Files,
    paths: DataPathsView,
    engine: EngineView,
    calls: Seq<(Call, Failures)>,
)
    requires
        distinct_paths(paths),
        files_in_step(files, paths, engine),
        empty_document_fits(files),
        engine.wal.next_seq + calls.len() <= u64::MAX,
        forall|i: int| 0 <= i < calls.len() ==> done_or_undone((#[trigger] calls[i]).0, calls[i].1),
    ensures
        ({
            let (after, next) = after_calls(files, paths, engine, calls);
            &&& files_in_step(after, paths, next)
            &&& next.wal.next_seq <= engine.wal.next_seq + calls.len()
            &&& after.size_of == files.size_of
        }),
    decreases calls.len(),
{
    if calls.len() > 0 {
        let front = calls.drop_last();
        assert forall|i: int| 0 <= i < front.len() implies done_or_undone(
            (#[trigger] front[i]).0,
            front[i].1,
        ) by {
            assert(front[i] == calls[i]);
        }
        law_calls_lose_nothing(files, paths, engine, front);
        let (before, current) = after_calls(files, paths, engine, front);
        let (call, failures) = calls.last();
        assert(done_or_undone(calls[calls.len() - 1].0, calls[calls.len() - 1].1));
        let disk = disk_of(before, paths);
        match call {
            Call::Execute { command, threshold } => {
                let step = execute_step(current, command, threshold);
                lemma_execute_keeps_step(before, paths, current, command, threshold, failures);
                lemma_carried_out_sizes(before, paths, current, step, failures);
            },
            Call::Checkpoint => {
                let purpose = PurposeView::Checkpoint;
                let step = checkpoint_step(current, purpose);
                let _ = law_failed_checkpoint_keeps_the_log(
                    before,
                    paths,
                    disk,
                    current,
                    purpose,
                    failures,
                );
                lemma_carried_out_sizes(before, paths, current, step, failures);
            },
            Call::Clear => {
                let empty = emptied(current);
                let cleared = current.contents.len() as usize;
                let step = checkpoint_step(empty, PurposeView::Clear { cleared });
                lemma_clear_keeps_step(before, paths, current, cleared, failures);
                lemma_carried_out_sizes(before, paths, empty, step, failures);
            },
            Call::Restart => {
                law_opened_engine_is_in_step(disk, paths.log, paths.snapshot.current);
            },
        }
    }
}

} // verus!
