//! What the server answers, counts and logs.
//!
//! Each connection has a session. The session turns the frames of a client into responses
//! and into work for the engine, which all connections share.

use vstd::prelude::*;
use vstd::utf8::{decode_utf8_encode_utf8, encode_utf8};

use crate::domain::{
    answer, applied, is_mutation_view, law_reading_shows_what_is_stored, Command, CommandView,
    DomainErrorView, ReplyView, SetOutcomeView,
};
use crate::engine::{
    action_steps, carried_out, checkpoint_step, command_checkpoint, command_result, disk_of,
    distinct_paths, document_fits, emptied, empty_document_fits, execute_step, files_in_step,
    law_checkpoints_are_carried_out, law_clears_are_carried_out, law_commands_are_carried_out,
    law_failed_writes_are_reported, resumed, script_event, Completion, CompletionView,
    DataPathsView, Engine, EngineError, EngineErrorView, EngineView, ExecutionOutcome,
    ExecutionOutcomeView, Failures, PendingView, PurposeView, Step, StepView,
};
use crate::metrics::{
    with_checkpoint, with_command, with_command_failure, with_response, MetricsSnapshot,
    ServerMetrics,
};
use crate::number::{
    decimal, decimal_text, law_decimal_form, law_parse_of_decimal, lemma_decimal_digits, parsed,
};
use crate::persistence::format::logged_parts;
use crate::persistence::script::{ran, Files, ScriptView};
use crate::persistence::snapshot::snapshot_of;
use crate::persistence::wal::{law_which_records_fit, record_fits};
use crate::persistence::{PersistenceError, PersistenceErrorView};
use crate::protocol::{
    decoded_frame, error_fields, format_error, format_reply, format_server_status, frame_body,
    law_error_says_why, law_names_lead_to_their_requests, law_reply_is_one_line,
    law_requests_take_their_arguments, law_response_says_what_was_done, law_status_is_one_line,
    parse_request, reply_fields, request_of_words, response, status_fields, unescaped,
    ProtocolError, ProtocolErrorView, Request, RequestView,
};
use crate::result_view;
use crate::text::{
    chars_of, join, law_join_of_split, law_split_of_join, lemma_encode_ascii, lemma_encode_concat,
    lemma_encode_len, lemma_join_parts_len, lemma_split_append, lemma_split_none,
    lemma_split_not_empty, lemma_words_len, same_text, split, split_text, text_of, upper, views,
    words,
};
use crate::text_map::{sorted_keys, Contents};

verus! {

// ---------------------------------------------------------------------------------------
// Configuration and errors
// ---------------------------------------------------------------------------------------

/// After how many mutations a checkpoint is made, unless the configuration says otherwise.
pub const DEFAULT_CHECKPOINT_AFTER_WRITES: u64 = 1_000;

/// The configuration of the server.
#[derive(Debug, Clone, PartialEq, Eq)]
pub struct ServerConfig {
    pub address: String,
    pub data_dir: String,
    /// After how many mutations a checkpoint is made; zero switches that off.
    pub checkpoint_after_writes: u64,
}

/// A configuration over character sequences.
pub ghost struct ServerConfigView {
    pub address: Seq<char>,
    pub data_dir: Seq<char>,
    pub checkpoint_after_writes: u64,
}

impl View for ServerConfig {
    type V = ServerConfigView;

    open spec fn view(&self) -> ServerConfigView {
        ServerConfigView {
            address: self.address@,
            data_dir: self.data_dir@,
            checkpoint_after_writes: self.checkpoint_after_writes,
        }
    }
}

/// The configuration without any option.
pub open spec fn default_config() -> ServerConfigView {
    ServerConfigView {
        address: "127.0.0.1:7878"@,
        data_dir: "data"@,
        checkpoint_after_writes: DEFAULT_CHECKPOINT_AFTER_WRITES,
    }
}

impl Default for ServerConfig {
    fn default() -> (config: ServerConfig)
        ensures
            config@ == default_config(),
    {
        ServerConfig {
            address: "127.0.0.1:7878".to_owned(),
            data_dir: "data".to_owned(),
            checkpoint_after_writes: DEFAULT_CHECKPOINT_AFTER_WRITES,
        }
    }
}

/// Why the server stopped. The cause of a failed operation is held as text.
#[derive(Debug, Clone, PartialEq, Eq)]
pub enum ServerError {
    Io { action: &'static str, source: String },
    Engine(EngineError),
}

/// A server error over character sequences.
pub ghost enum ServerErrorView {
    Io { action: Seq<char>, source: Seq<char> },
    Engine(EngineErrorView),
}

impl View for ServerError {
    type V = ServerErrorView;

    open spec fn view(&self) -> ServerErrorView {
        match self {
            ServerError::Io { action, source } => ServerErrorView::Io {
                action: action@,
                source: source@,
            },
            ServerError::Engine(error) => ServerErrorView::Engine(error@),
        }
    }
}

impl ServerErrorView {
    /// The text that describes the error.
    pub open spec fn text(self) -> Seq<char> {
        match self {
            ServerErrorView::Io { action, source } => action + "失败："@ + source,
            ServerErrorView::Engine(error) => "存储引擎错误："@ + error.text(),
        }
    }
}

impl ServerError {
    /// The text that describes the error.
    #[must_use]
    pub fn message(&self) -> (text: String)
        ensures
            text@ == self@.text(),
    {
        match self {
            ServerError::Io { action, source } => {
                let mut text = (*action).to_owned();
                text.append("失败：");
                text.append(source.as_str());
                text
            },
            ServerError::Engine(error) => {
                let mut text = "存储引擎错误：".to_owned();
                text.append(error.message().as_str());
                text
            },
        }
    }
}

// ---------------------------------------------------------------------------------------
// The session of a client
// ---------------------------------------------------------------------------------------

/// Work for the engine.
#[derive(Debug, PartialEq, Eq)]
pub enum Work {
    /// Report the status of the server.
    Status,
    /// Execute a command, with an automatic checkpoint.
    Execute(Command),
    /// Make a checkpoint.
    Save,
    /// Remove all data.
    Clear,
}

/// How a request is answered: at once, or with the result of work.
#[derive(Debug, PartialEq, Eq)]
pub enum Plan {
    Answer(String),
    Do(Work),
}

/// What follows from a frame.
#[derive(Debug, PartialEq, Eq)]
pub enum FrameStep {
    /// The client has gone.
    Closed,
    /// The bytes of the connection make no frame any more: answer and close it.
    Broken { response: String },
    /// The line is no request: answer it and go on.
    Invalid { response: String },
    /// Answer a request, and close the connection after that where it says so.
    Planned { operation: String, plan: Plan, close: bool },
}

/// Work over character sequences.
pub ghost enum WorkView {
    Status,
    Execute(CommandView),
    Save,
    Clear,
}

/// A plan over character sequences.
pub ghost enum PlanView {
    Answer(Seq<char>),
    Do(WorkView),
}

/// The step after a frame over character sequences.
pub ghost enum FrameStepView {
    Closed,
    Broken { response: Seq<char> },
    Invalid { response: Seq<char> },
    Planned { operation: Seq<char>, plan: PlanView, close: bool },
}

impl View for Work {
    type V = WorkView;

    open spec fn view(&self) -> WorkView {
        match self {
            Work::Status => WorkView::Status,
            Work::Execute(command) => WorkView::Execute(command@),
            Work::Save => WorkView::Save,
            Work::Clear => WorkView::Clear,
        }
    }
}

impl View for Plan {
    type V = PlanView;

    open spec fn view(&self) -> PlanView {
        match self {
            Plan::Answer(text) => PlanView::Answer(text@),
            Plan::Do(work) => PlanView::Do(work@),
        }
    }
}

impl View for FrameStep {
    type V = FrameStepView;

    open spec fn view(&self) -> FrameStepView {
        match self {
            FrameStep::Closed => FrameStepView::Closed,
            FrameStep::Broken { response } => FrameStepView::Broken { response: response@ },
            FrameStep::Invalid { response } => FrameStepView::Invalid { response: response@ },
            FrameStep::Planned { operation, plan, close } => FrameStepView::Planned {
                operation: operation@,
                plan: plan@,
                close: *close,
            },
        }
    }
}

/// A summary of a request for the log of the server, without the value, which may be long.
pub open spec fn request_summary(request: RequestView) -> Seq<char> {
    match request {
        RequestView::Execute(CommandView::SetValue { key, value }) => "SET key="@ + key,
        RequestView::Execute(CommandView::Update { key, value }) => "UPDATE key="@ + key,
        RequestView::Execute(CommandView::Get { key }) => "GET key="@ + key,
        RequestView::Execute(CommandView::Delete { key }) => "DELETE key="@ + key,
        RequestView::Execute(CommandView::Keys) => "KEYS"@,
        RequestView::Execute(CommandView::Status) => "STATUS"@,
        RequestView::Save => "SAVE"@,
        RequestView::Clear => "CLEAR"@,
        RequestView::Yes => "YES"@,
        RequestView::No => "NO"@,
        RequestView::Quit => "QUIT"@,
    }
}

/// Whether a removal of all data waits for its confirmation in a new session.
pub open spec fn waits_at_first() -> bool {
    false
}

/// Whether a removal of all data waits for its confirmation, after a request. Any request
/// but a new CLEAR ends the wait.
pub open spec fn waits_after(request: RequestView) -> bool {
    request is Clear
}

/// How a request is answered. All data is removed only where the request before it was a
/// CLEAR and this one confirms it.
pub open spec fn plan_of(waits: bool, request: RequestView) -> PlanView {
    match request {
        RequestView::Execute(CommandView::Status) => PlanView::Do(WorkView::Status),
        RequestView::Execute(command) => PlanView::Do(WorkView::Execute(command)),
        RequestView::Save => PlanView::Do(WorkView::Save),
        RequestView::Clear => PlanView::Answer(response(seq!["OK"@, "CONFIRM_REQUIRED"@])),
        RequestView::Yes => if waits {
            PlanView::Do(WorkView::Clear)
        } else {
            PlanView::Answer(
                response(error_fields("INVALID_COMMAND"@, "没有等待确认的操作"@)),
            )
        },
        RequestView::No => if waits {
            PlanView::Answer(response(seq!["OK"@, "CLEAR_CANCELLED"@]))
        } else {
            PlanView::Answer(
                response(error_fields("INVALID_COMMAND"@, "没有等待确认的操作"@)),
            )
        },
        RequestView::Quit => PlanView::Answer(response(seq!["OK"@, "BYE"@])),
    }
}

/// The number of bytes of a line and its line break.
pub open spec fn frame_bytes(line: Seq<char>) -> u64 {
    (encode_utf8(line).len() as u64).wrapping_add(1)
}

/// The step after a frame, whether a confirmation is waited for, and the counters.
pub open spec fn frame_step(
    waits: bool,
    frame: Result<Option<Seq<char>>, ProtocolErrorView>,
    metrics: MetricsSnapshot,
) -> (FrameStepView, bool, MetricsSnapshot) {
    match frame {
        Ok(None) => (FrameStepView::Closed, waits, metrics),
        Err(error) => (
            FrameStepView::Broken { response: response(error_fields("PROTOCOL"@, error.text())) },
            waits,
            with_command_failure(with_command(metrics, 0)),
        ),
        Ok(Some(line)) => {
            let counted = with_command(metrics, frame_bytes(line));
            match request_of_words(words(line)) {
                Err(error) => (
                    FrameStepView::Invalid {
                        response: response(error_fields("INVALID_COMMAND"@, error.text())),
                    },
                    waits,
                    with_command_failure(counted),
                ),
                Ok(request) => (
                    FrameStepView::Planned {
                        operation: request_summary(request),
                        plan: plan_of(waits, request),
                        close: request is Quit,
                    },
                    waits_after(request),
                    counted,
                ),
            }
        },
    }
}

/// The view of a frame.
pub open spec fn frame_view(frame: Result<Option<String>, ProtocolError>) -> Result<
    Option<Seq<char>>,
    ProtocolErrorView,
> {
    match frame {
        Ok(line) => Ok(crate::option_view(line)),
        Err(error) => Err(error@),
    }
}

/// The state of one connection: whether a removal of all data waits for its confirmation.
#[derive(Debug)]
pub struct Session {
    clear_waits: bool,
}

impl View for Session {
    type V = bool;

    closed spec fn view(&self) -> bool {
        self.clear_waits
    }
}

fn answer_two(first: &str, second: &str) -> (text: String)
    ensures
        text@ == response(seq![first@, second@]),
{
    let mut text = first.to_owned();
    text.push('\t');
    text.append(second);
    proof {
        let fields = seq![first@, second@];
        assert(fields.drop_last() =~= seq![first@]);
        assert(response(fields) == crate::text::join(fields.drop_last(), seq!['\t']) + seq!['\t']
            + second@);
        assert(text@ =~= response(fields));
    }
    text
}

fn keyed(name: &str, key: &String) -> (text: String)
    ensures
        text@ == name@ + key@,
{
    let mut text = name.to_owned();
    text.append(key.as_str());
    text
}

/// A summary of a request for the log of the server.
#[must_use]
pub fn describe_request(request: &Request) -> (text: String)
    ensures
        text@ == request_summary(request@),
{
    match request {
        Request::Execute(Command::SetValue { key, .. }) => keyed("SET key=", key),
        Request::Execute(Command::Update { key, .. }) => keyed("UPDATE key=", key),
        Request::Execute(Command::Get { key }) => keyed("GET key=", key),
        Request::Execute(Command::Delete { key }) => keyed("DELETE key=", key),
        Request::Execute(Command::Keys) => "KEYS".to_owned(),
        Request::Execute(Command::Status) => "STATUS".to_owned(),
        Request::Save => "SAVE".to_owned(),
        Request::Clear => "CLEAR".to_owned(),
        Request::Yes => "YES".to_owned(),
        Request::No => "NO".to_owned(),
        Request::Quit => "QUIT".to_owned(),
    }
}

impl Default for Session {
    fn default() -> (session: Session)
        ensures
            session@ == waits_at_first(),
            !session@,
    {
        Session::new()
    }
}

impl Session {
    /// The session of a new connection.
    #[must_use]
    pub fn new() -> (session: Session)
        ensures
            session@ == waits_at_first(),
            !session@,
    {
        Session { clear_waits: false }
    }

    /// Decides how a request is answered.
    pub fn plan(&mut self, request: Request) -> (plan: Plan)
        ensures
            plan@ == plan_of(old(self)@, request@),
            final(self)@ == waits_after(request@),
    {
        let waited: bool = self.clear_waits;
        self.clear_waits = false;
        match request {
            Request::Execute(Command::Status) => Plan::Do(Work::Status),
            Request::Execute(command) => Plan::Do(Work::Execute(command)),
            Request::Save => Plan::Do(Work::Save),
            Request::Clear => {
                self.clear_waits = true;
                Plan::Answer(answer_two("OK", "CONFIRM_REQUIRED"))
            },
            Request::Yes => if waited {
                Plan::Do(Work::Clear)
            } else {
                Plan::Answer(format_error("INVALID_COMMAND", "没有等待确认的操作"))
            },
            Request::No => if waited {
                Plan::Answer(answer_two("OK", "CLEAR_CANCELLED"))
            } else {
                Plan::Answer(format_error("INVALID_COMMAND", "没有等待确认的操作"))
            },
            Request::Quit => Plan::Answer(answer_two("OK", "BYE")),
        }
    }

    /// Takes the next frame of the connection and counts it.
    pub fn accept(
        &mut self,
        frame: Result<Option<String>, ProtocolError>,
        metrics: &mut ServerMetrics,
    ) -> (step: FrameStep)
        ensures
            (step@, final(self)@, final(metrics)@) == frame_step(
                old(self)@,
                frame_view(frame),
                old(metrics)@,
            ),
    {
        let line = match frame {
            Ok(Some(line)) => line,
            Ok(None) => {
                return FrameStep::Closed;
            },
            Err(error) => {
                metrics.record_command(0);
                metrics.record_command_failure();
                return FrameStep::Broken {
                    response: format_error("PROTOCOL", error.message().as_str()),
                };
            },
        };
        metrics.record_command((line.as_str().as_bytes().len() as u64).wrapping_add(1));
        match parse_request(line.as_str()) {
            Ok(request) => {
                let operation = describe_request(&request);
                let close: bool = match request {
                    Request::Quit => true,
                    _ => false,
                };
                let plan = self.plan(request);
                FrameStep::Planned { operation, plan, close }
            },
            Err(error) => {
                metrics.record_command_failure();
                FrameStep::Invalid {
                    response: format_error("INVALID_COMMAND", error.message().as_str()),
                }
            },
        }
    }
}

/// All data is removed only by two requests in a row, a CLEAR and its confirmation; no other
/// request does so, whatever the session waits for.
pub proof fn law_clear_takes_a_confirmation(waits: bool, first: RequestView, second: RequestView)
    ensures
        plan_of(false, first) != PlanView::Do(WorkView::Clear),
        plan_of(waits_after(first), second) == PlanView::Do(WorkView::Clear) <==> first is Clear
            && second is Yes,
        plan_of(waits, first) == PlanView::Do(WorkView::Clear) ==> first is Yes && waits
            && !waits_after(first),
{
}

/// The first request of a session never removes the data.
pub proof fn law_first_request_keeps_the_data(request: RequestView)
    ensures
        plan_of(waits_at_first(), request) != PlanView::Do(WorkView::Clear),
{
}

/// A mutation that fits in a frame fits in the log: the server refuses none for its size,
/// whatever its sequence number is.
pub proof fn law_requested_mutations_fit_in_the_log(
    bytes: Seq<u8>,
    line: Seq<char>,
    command: CommandView,
    seq: u64,
)
    requires
        decoded_frame(bytes) == Ok::<_, ProtocolErrorView>(Some(line)),
        request_of_words(words(line)) == Ok::<_, ProtocolErrorView>(RequestView::Execute(command)),
        is_mutation_view(command),
    ensures
        record_fits(seq, command),
{
    let parts = words(line);
    let sep = seq![' '];
    decode_utf8_encode_utf8(frame_body(bytes));
    lemma_encode_len(line);
    lemma_words_len(line);
    lemma_join_parts_len(parts, sep, 2);
    assert(parts.take(2).drop_last() =~= seq![parts[0]]);
    let (_, key, value) = logged_parts(command);
    reveal_strlit("");
    lemma_encode_len(key);
    lemma_encode_len(value);
    law_which_records_fit(seq, command);
}

/// A line that is no request is answered with an error and leaves the connection and the
/// wait for a confirmation as they were; bytes that make no frame end the connection.
pub proof fn law_invalid_lines_do_not_end_a_session(
    waits: bool,
    line: Seq<char>,
    metrics: MetricsSnapshot,
)
    requires
        request_of_words(words(line)) is Err,
    ensures
        frame_step(waits, Ok(Some(line)), metrics).0 is Invalid,
        frame_step(waits, Ok(Some(line)), metrics).1 == waits,
{
}

// ---------------------------------------------------------------------------------------
// Responses to work
// ---------------------------------------------------------------------------------------

/// The response for an error of the engine.
pub open spec fn engine_error_response(error: EngineErrorView) -> Seq<char> {
    match error {
        EngineErrorView::Domain(error) => response(error_fields("DOMAIN"@, error.text())),
        EngineErrorView::Persistence(error) => response(
            error_fields("PERSISTENCE"@, error.text()),
        ),
    }
}

/// The response to a command that was executed, and the counters. A checkpoint that failed
/// is counted and shows as a warning; the command has succeeded all the same.
pub open spec fn executed_response(
    result: Result<ExecutionOutcomeView, EngineErrorView>,
    metrics: MetricsSnapshot,
) -> (Seq<char>, MetricsSnapshot) {
    match result {
        Err(error) => (engine_error_response(error), metrics),
        Ok(outcome) => match outcome.auto_checkpoint {
            None => (response(reply_fields(outcome.reply)), metrics),
            Some(Ok(_)) => (response(reply_fields(outcome.reply)), with_checkpoint(metrics, true)),
            Some(Err(_)) => (
                response(reply_fields(outcome.reply)) + "\tWARNING=AUTO_CHECKPOINT_FAILED"@,
                with_checkpoint(metrics, false),
            ),
        },
    }
}

/// The response to a SAVE, and the counters.
pub open spec fn saved_response(
    result: Result<(), EngineErrorView>,
    metrics: MetricsSnapshot,
) -> (Seq<char>, MetricsSnapshot) {
    match result {
        Ok(_) => (response(seq!["OK"@, "SNAPSHOT_SAVED"@]), with_checkpoint(metrics, true)),
        Err(error) => (
            response(error_fields("PERSISTENCE"@, error.text())),
            with_checkpoint(metrics, false),
        ),
    }
}

/// The response to a confirmed CLEAR, and the counters.
pub open spec fn cleared_response(
    result: Result<usize, EngineErrorView>,
    metrics: MetricsSnapshot,
) -> (Seq<char>, MetricsSnapshot) {
    match result {
        Ok(cleared) => (
            response(seq!["OK"@, "CLEARED"@, decimal(cleared as nat)]),
            with_checkpoint(metrics, true),
        ),
        Err(error) => (
            response(error_fields("PERSISTENCE"@, error.text())),
            with_checkpoint(metrics, false),
        ),
    }
}

/// The response to a STATUS. The size of the log is what the file system said of it.
pub open spec fn reported_status(
    engine: EngineView,
    wal_bytes: Result<u64, PersistenceErrorView>,
    checkpoint_after_writes: u64,
    metrics: MetricsSnapshot,
) -> Seq<char> {
    match wal_bytes {
        Err(error) => response(error_fields("PERSISTENCE"@, error.text())),
        Ok(wal_bytes) => response(
            status_fields(
                engine.contents.len(),
                wal_bytes as nat,
                engine.writes as nat,
                checkpoint_after_writes as nat,
                metrics,
            ),
        ),
    }
}

/// Whether a response reports an error.
pub open spec fn reports_error(text: Seq<char>) -> bool {
    text.len() >= 4 && text.take(4) == "ERR\t"@
}

/// The response where another connection failed while it held what all connections share.
pub open spec fn poisoned_response(message: Seq<char>) -> Seq<char> {
    response(error_fields("INTERNAL"@, message))
}

/// The counters after a response was made: one that reports an error counts as a failure.
pub open spec fn with_outcome(metrics: MetricsSnapshot, text: Seq<char>) -> MetricsSnapshot {
    if reports_error(text) {
        with_command_failure(metrics)
    } else {
        metrics
    }
}

/// The counters after a response was sent.
pub open spec fn with_sent(metrics: MetricsSnapshot, text: Seq<char>) -> MetricsSnapshot {
    with_response(metrics, frame_bytes(text))
}

/// The response to a command that was executed.
pub fn execution_response(
    result: Result<ExecutionOutcome, EngineError>,
    metrics: &mut ServerMetrics,
) -> (text: String)
    ensures
        (text@, final(metrics)@) == executed_response(result_view(result), old(metrics)@),
{
    match result {
        Ok(outcome) => {
            let mut text = format_reply(outcome.reply);
            match outcome.auto_checkpoint {
                None => {},
                Some(Ok(())) => {
                    metrics.record_checkpoint(true);
                },
                Some(Err(_)) => {
                    metrics.record_checkpoint(false);
                    text.append("\tWARNING=AUTO_CHECKPOINT_FAILED");
                },
            }
            text
        },
        Err(EngineError::Domain(error)) => format_error("DOMAIN", error.message().as_str()),
        Err(EngineError::Persistence(error)) => {
            format_error("PERSISTENCE", error.message().as_str())
        },
    }
}

/// The response to a SAVE.
pub fn save_response(result: Result<(), EngineError>, metrics: &mut ServerMetrics) -> (text: String)
    ensures
        (text@, final(metrics)@) == saved_response(result_view(result), old(metrics)@),
{
    match result {
        Ok(()) => {
            metrics.record_checkpoint(true);
            answer_two("OK", "SNAPSHOT_SAVED")
        },
        Err(error) => {
            metrics.record_checkpoint(false);
            format_error("PERSISTENCE", error.message().as_str())
        },
    }
}

/// The response to a confirmed CLEAR.
pub fn clear_response(result: Result<usize, EngineError>, metrics: &mut ServerMetrics) -> (text:
    String)
    ensures
        (text@, final(metrics)@) == cleared_response(result_view(result), old(metrics)@),
{
    match result {
        Ok(cleared) => {
            metrics.record_checkpoint(true);
            let mut text = answer_two("OK", "CLEARED");
            text.push('\t');
            text.append(decimal_text(cleared as u128).as_str());
            proof {
                let fields = seq!["OK"@, "CLEARED"@, decimal(cleared as nat)];
                assert(fields.drop_last() =~= seq!["OK"@, "CLEARED"@]);
                assert(text@ =~= response(fields));
            }
            text
        },
        Err(error) => {
            metrics.record_checkpoint(false);
            format_error("PERSISTENCE", error.message().as_str())
        },
    }
}

/// The response to a STATUS.
pub fn status_response(
    engine: &Engine,
    wal_bytes: Result<u64, PersistenceError>,
    checkpoint_after_writes: u64,
    metrics: &MetricsSnapshot,
) -> (text: String)
    ensures
        text@ == reported_status(
            engine@,
            result_view(wal_bytes),
            checkpoint_after_writes,
            *metrics,
        ),
{
    match wal_bytes {
        Ok(wal_bytes) => format_server_status(
            engine.status().key_count,
            wal_bytes,
            engine.writes_since_checkpoint(),
            checkpoint_after_writes,
            metrics,
        ),
        Err(error) => format_error("PERSISTENCE", error.message().as_str()),
    }
}

/// The first step of work, and the engine after it. A status is no work of the engine.
pub open spec fn work_step(engine: EngineView, work: WorkView, checkpoint_after_writes: u64) -> (
    EngineView,
    Option<StepView>,
) {
    match work {
        WorkView::Status => (engine, None),
        WorkView::Execute(command) => (
            engine,
            Some(execute_step(engine, command, Some(checkpoint_after_writes))),
        ),
        WorkView::Save => (engine, Some(checkpoint_step(engine, PurposeView::Checkpoint))),
        WorkView::Clear => (
            emptied(engine),
            Some(
                checkpoint_step(
                    emptied(engine),
                    PurposeView::Clear { cleared: engine.contents.len() as usize },
                ),
            ),
        ),
    }
}

/// The response to work that is done, and the counters.
pub open spec fn completed_response(
    completion: CompletionView,
    metrics: MetricsSnapshot,
) -> (Seq<char>, MetricsSnapshot) {
    match completion {
        CompletionView::Executed(Ok(reply)) => (response(reply_fields(reply)), metrics),
        CompletionView::Executed(Err(error)) => (engine_error_response(error), metrics),
        CompletionView::ExecutedWithCheckpoint(result) => executed_response(result, metrics),
        CompletionView::Checkpointed(result) => saved_response(result, metrics),
        CompletionView::Cleared(result) => cleared_response(result, metrics),
    }
}

/// Begins work with the engine. For a status there is none to begin.
pub fn begin_work(engine: &mut Engine, work: Work, checkpoint_after_writes: u64) -> (step: Option<
    Step,
>)
    ensures
        (final(engine)@, crate::option_view(step)) == work_step(
            old(engine)@,
            work@,
            checkpoint_after_writes,
        ),
{
    match work {
        Work::Status => None,
        Work::Execute(command) => Some(
            engine.execute_with_auto_checkpoint(command, checkpoint_after_writes),
        ),
        Work::Save => Some(engine.checkpoint()),
        Work::Clear => Some(engine.clear()),
    }
}

/// The response to work that is done.
pub fn completion_response(completion: Completion, metrics: &mut ServerMetrics) -> (text: String)
    ensures
        (text@, final(metrics)@) == completed_response(completion@, old(metrics)@),
{
    match completion {
        Completion::Executed(Ok(reply)) => format_reply(reply),
        Completion::Executed(Err(error)) => execution_response(Err(error), metrics),
        Completion::ExecutedWithCheckpoint(result) => execution_response(result, metrics),
        Completion::Checkpointed(result) => save_response(result, metrics),
        Completion::Cleared(result) => clear_response(result, metrics),
    }
}

/// The response where another connection failed while it worked with the engine. Whether log
/// and memory still agree is not known, so the engine is not used any more.
#[must_use]
pub fn poisoned_engine_response() -> (text: String)
    ensures
        text@ == poisoned_response("共享存储引擎锁已中毒，请重启服务器并执行数据恢复"@),
{
    format_error("INTERNAL", "共享存储引擎锁已中毒，请重启服务器并执行数据恢复")
}

/// Whether a response reports an error.
#[must_use]
pub fn is_error(text: &str) -> (yes: bool)
    ensures
        yes == reports_error(text@),
{
    let chars = chars_of(text);
    if chars.len() < 4 {
        return false;
    }
    let head = text_of(&chars, 0, 4);
    assert(head@ =~= text@.take(4));
    same_text(head.as_str(), "ERR\t")
}

/// Counts a request as failed where its response reports an error.
pub fn count_response(text: &str, metrics: &mut ServerMetrics)
    ensures
        final(metrics)@ == with_outcome(old(metrics)@, text@),
{
    if is_error(text) {
        metrics.record_command_failure();
    }
}

/// Counts the bytes of a response that was sent.
pub fn count_sent(text: &str, metrics: &mut ServerMetrics)
    ensures
        final(metrics)@ == with_sent(old(metrics)@, text@),
{
    metrics.record_response((text.as_bytes().len() as u64).wrapping_add(1));
}

/// A command that failed is answered with a response that counts as an error; one that
/// succeeded is not, even where its checkpoint failed.
pub proof fn law_error_responses_report_errors(
    result: Result<ExecutionOutcomeView, EngineErrorView>,
    metrics: MetricsSnapshot,
)
    ensures
        reports_error(executed_response(result, metrics).0) <==> result is Err,
{
    let text = executed_response(result, metrics).0;
    reveal_strlit("ERR\t");
    reveal_strlit("ERR");
    match result {
        Err(error) => {
            let (code, message) = match error {
                EngineErrorView::Domain(error) => ("DOMAIN"@, error.text()),
                EngineErrorView::Persistence(error) => ("PERSISTENCE"@, error.text()),
            };
            let fields = error_fields(code, message);
            let two = fields.drop_last();
            assert(two.drop_last() =~= seq!["ERR"@]);
            assert(response(two.drop_last()) == "ERR"@);
            assert(response(two) == response(two.drop_last()) + seq!['\t'] + two.last());
            assert(text == response(two) + seq!['\t'] + fields.last());
            assert(text.take(4) =~= "ERR\t"@);
        },
        Ok(outcome) => {
            let fields = reply_fields(outcome.reply);
            reveal_strlit("OK");
            reveal_strlit("VALUE");
            reveal_strlit("KEYS");
            reveal_strlit("STATUS");
            lemma_response_begins(fields);
            assert(text[0] == fields[0][0]);
            assert(fields[0][0] != 'E');
            if text.len() >= 4 {
                assert(text.take(4)[0] == text[0]);
                assert("ERR\t"@[0] == 'E');
            }
        },
    }
}

proof fn lemma_response_begins(fields: Seq<Seq<char>>)
    requires
        fields.len() > 0,
        fields[0].len() > 0,
    ensures
        response(fields).len() > 0,
        response(fields)[0] == fields[0][0],
    decreases fields.len(),
{
    if fields.len() > 1 {
        let before = fields.drop_last();
        assert(before[0] == fields[0]);
        lemma_response_begins(before);
        assert(response(fields) == response(before) + seq!['\t'] + fields.last());
    }
}

// ---------------------------------------------------------------------------------------
// What a client can rely on
// ---------------------------------------------------------------------------------------

/// What a client asks for is what is planned: a command other than STATUS is executed as it
/// was given, a STATUS is reported, a SAVE makes a checkpoint, a confirmed CLEAR removes the
/// data, and nothing else makes work.
pub proof fn law_plans_are_as_asked(waits: bool, command: CommandView, request: RequestView)
    ensures
        !(command is Status) ==> plan_of(waits, RequestView::Execute(command)) == PlanView::Do(
            WorkView::Execute(command),
        ),
        plan_of(waits, RequestView::Execute(CommandView::Status)) == PlanView::Do(WorkView::Status),
        plan_of(waits, request) == PlanView::Do(WorkView::Execute(command)) <==> request
            == RequestView::Execute(command) && !(command is Status),
        plan_of(waits, request) == PlanView::Do(WorkView::Status) <==> request
            == RequestView::Execute(CommandView::Status),
        plan_of(waits, request) == PlanView::Do(WorkView::Save) <==> request is Save,
        plan_of(waits, request) == PlanView::Do(WorkView::Clear) <==> request is Yes && waits,
        plan_of(waits, request) is Answer <==> request is Clear || request is No || request is Quit
            || (request is Yes && !waits),
{
}

proof fn lemma_two_fields(first: Seq<char>, second: Seq<char>)
    requires
        !first.contains('\t'),
        !second.contains('\t'),
    ensures
        split(response(seq![first, second]), '\t') == seq![first, second],
{
    let fields = seq![first, second];
    assert forall|i: int| 0 <= i < fields.len() implies !(#[trigger] fields[i]).contains('\t') by {}
    law_split_of_join(fields, '\t');
}

/// A response whose first field is ERR, with another behind it, reports an error.
pub proof fn lemma_reports_error(text: Seq<char>)
    requires
        split(text, '\t').len() > 1,
        split(text, '\t')[0] == "ERR"@,
    ensures
        reports_error(text),
{
    let fields = split(text, '\t');
    reveal_strlit("ERR");
    reveal_strlit("ERR\t");
    law_join_of_split(text, '\t');
    lemma_response_begins_with(fields);
    assert(text.take(4) =~= "ERR\t"@);
}

proof fn lemma_response_begins_with(fields: Seq<Seq<char>>)
    requires
        fields.len() > 1,
    ensures
        response(fields).len() > fields[0].len(),
        response(fields).take(fields[0].len() as int) == fields[0],
        response(fields)[fields[0].len() as int] == '\t',
    decreases fields.len(),
{
    let before = fields.drop_last();
    let text = response(fields);
    let at = fields[0].len() as int;
    assert(text == response(before) + seq!['\t'] + fields.last());
    if before.len() > 1 {
        lemma_response_begins_with(before);
        assert(text.take(at) =~= response(before).take(at));
    } else {
        assert(response(before) == fields[0]);
        assert(text.take(at) =~= fields[0]);
    }
}

/// What is answered without work: a CLEAR asks for its confirmation, a NO calls it off, a QUIT
/// is taken leave of, and a confirmation or refusal that nobody waits for is an error.
pub proof fn law_answers_without_work(waits: bool, request: RequestView)
    requires
        plan_of(waits, request) is Answer,
    ensures
        ({
            let text = plan_of(waits, request)->Answer_0;
            let fields = split(text, '\t');
            &&& request is Clear ==> fields == seq!["OK"@, "CONFIRM_REQUIRED"@]
            &&& request is Quit ==> fields == seq!["OK"@, "BYE"@]
            &&& request is No && waits ==> fields == seq!["OK"@, "CLEAR_CANCELLED"@]
            &&& (request is No || request is Yes) && !waits ==> {
                &&& reports_error(text)
                &&& fields.len() == 3
                &&& fields[0] == "ERR"@
                &&& unescaped(fields[1]) == "INVALID_COMMAND"@
                &&& unescaped(fields[2]) == "没有等待确认的操作"@
            }
        }),
{
    reveal_strlit("OK");
    reveal_strlit("CONFIRM_REQUIRED");
    reveal_strlit("BYE");
    reveal_strlit("CLEAR_CANCELLED");
    match request {
        RequestView::Clear => {
            lemma_two_fields("OK"@, "CONFIRM_REQUIRED"@);
        },
        RequestView::Quit => {
            lemma_two_fields("OK"@, "BYE"@);
        },
        RequestView::No => {
            if waits {
                lemma_two_fields("OK"@, "CLEAR_CANCELLED"@);
            } else {
                law_error_says_why("INVALID_COMMAND"@, "没有等待确认的操作"@);
                lemma_reports_error(plan_of(waits, request)->Answer_0);
            }
        },
        _ => {
            law_error_says_why("INVALID_COMMAND"@, "没有等待确认的操作"@);
            lemma_reports_error(plan_of(waits, request)->Answer_0);
        },
    }
}

/// The bytes that are counted for a line are those of its frame, with the line break.
pub proof fn law_frames_are_counted_whole(line: Seq<char>)
    requires
        encode_utf8(line).len() < u64::MAX,
    ensures
        frame_bytes(line) == encode_utf8(line.push('\n')).len(),
{
    lemma_encode_concat(line, seq!['\n']);
    lemma_encode_ascii('\n');
    assert(line + seq!['\n'] =~= line.push('\n'));
}

/// What follows from a frame. A line that is a request is planned, and counted as a command
/// with its bytes; only a QUIT closes the connection, and only a CLEAR lets the session wait.
/// A line that is no request, and bytes that make no frame, are counted as a command that
/// failed and answered with why; the latter have no line to count. Where the client has gone,
/// nothing is counted.
pub proof fn law_what_follows_from_a_frame(
    waits: bool,
    line: Seq<char>,
    error: ProtocolErrorView,
    metrics: MetricsSnapshot,
)
    ensures
        ({
            let (step, waiting, counted) = frame_step(waits, Ok(Some(line)), metrics);
            let came_in = with_command(metrics, frame_bytes(line));
            match request_of_words(words(line)) {
                Ok(request) => {
                    &&& step is Planned
                    &&& step->plan == plan_of(waits, request)
                    &&& step->operation == request_summary(request)
                    &&& step->close <==> request is Quit
                    &&& waiting <==> request is Clear
                    &&& counted == came_in
                },
                Err(reason) => {
                    let fields = split(step->Invalid_response, '\t');
                    &&& step is Invalid
                    &&& fields.len() == 3
                    &&& fields[0] == "ERR"@
                    &&& unescaped(fields[1]) == "INVALID_COMMAND"@
                    &&& unescaped(fields[2]) == reason.text()
                    &&& waiting == waits
                    &&& counted == with_command_failure(came_in)
                },
            }
        }),
        ({
            let (step, waiting, counted) = frame_step(waits, Err(error), metrics);
            let fields = split(step->Broken_response, '\t');
            &&& step is Broken
            &&& fields.len() == 3
            &&& fields[0] == "ERR"@
            &&& unescaped(fields[1]) == "PROTOCOL"@
            &&& unescaped(fields[2]) == error.text()
            &&& waiting == waits
            &&& counted == with_command_failure(with_command(metrics, 0))
        }),
        frame_step(waits, Ok(None), metrics) == (FrameStepView::Closed, waits, metrics),
{
    law_error_says_why("PROTOCOL"@, error.text());
    match request_of_words(words(line)) {
        Ok(_) => {},
        Err(reason) => {
            law_error_says_why("INVALID_COMMAND"@, reason.text());
        },
    }
}

/// The fields that a response adds where the checkpoint after a command failed.
pub open spec fn checkpoint_warning(checkpoint: Option<Result<(), EngineErrorView>>) -> Seq<
    Seq<char>,
> {
    if checkpoint is Some && checkpoint->0 is Err {
        seq!["WARNING=AUTO_CHECKPOINT_FAILED"@]
    } else {
        Seq::empty()
    }
}

proof fn lemma_warned(reply: ReplyView)
    ensures
        split(
            response(reply_fields(reply)) + "\tWARNING=AUTO_CHECKPOINT_FAILED"@,
            '\t',
        ) == reply_fields(reply) + seq!["WARNING=AUTO_CHECKPOINT_FAILED"@],
{
    let text = response(reply_fields(reply));
    reveal_strlit("\tWARNING=AUTO_CHECKPOINT_FAILED");
    reveal_strlit("WARNING=AUTO_CHECKPOINT_FAILED");
    law_reply_is_one_line(reply);
    lemma_split_append(text, '\t', "WARNING=AUTO_CHECKPOINT_FAILED"@);
    assert(text + "\tWARNING=AUTO_CHECKPOINT_FAILED"@ =~= text.push('\t')
        + "WARNING=AUTO_CHECKPOINT_FAILED"@);
    assert(reply_fields(reply).push("WARNING=AUTO_CHECKPOINT_FAILED"@) =~= reply_fields(reply)
        + seq!["WARNING=AUTO_CHECKPOINT_FAILED"@]);
}

/// The response to a command says its result: the reply where it succeeded, with a warning
/// behind it where just the checkpoint failed; else the error, with its kind and its text.
/// A checkpoint is counted, and whether it failed.
pub proof fn law_response_says_the_result(completion: CompletionView, metrics: MetricsSnapshot)
    ensures
        ({
            let (text, counted) = completed_response(completion, metrics);
            let fields = split(text, '\t');
            let checkpoint = command_checkpoint(completion);
            &&& command_result(completion) matches Some(Ok(reply)) ==> {
                &&& fields == split(response(reply_fields(reply)), '\t') + checkpoint_warning(
                    checkpoint,
                )
                &&& !reports_error(text)
            }
            &&& command_result(completion) matches Some(Err(error)) ==> {
                &&& fields.len() == 3
                &&& fields[0] == "ERR"@
                &&& error matches EngineErrorView::Domain(why) ==> unescaped(fields[1])
                    == "DOMAIN"@ && unescaped(fields[2]) == why.text()
                &&& error matches EngineErrorView::Persistence(why) ==> unescaped(fields[1])
                    == "PERSISTENCE"@ && unescaped(fields[2]) == why.text()
                &&& reports_error(text)
            }
            &&& command_result(completion) is Some ==> counted == if checkpoint is Some {
                with_checkpoint(metrics, checkpoint->0 is Ok)
            } else {
                metrics
            }
        }),
{
    let (text, _) = completed_response(completion, metrics);
    match command_result(completion) {
        Some(Ok(reply)) => {
            law_reply_is_one_line(reply);
            lemma_warned(reply);
            assert(reply_fields(reply) + Seq::<Seq<char>>::empty() =~= reply_fields(reply));
            let outcome = ExecutionOutcomeView {
                reply,
                auto_checkpoint: command_checkpoint(completion),
            };
            law_error_responses_report_errors(Ok(outcome), metrics);
        },
        Some(Err(error)) => {
            match error {
                EngineErrorView::Domain(why) => law_error_says_why("DOMAIN"@, why.text()),
                EngineErrorView::Persistence(why) => law_error_says_why(
                    "PERSISTENCE"@,
                    why.text(),
                ),
            }
            lemma_reports_error(text);
        },
        None => {},
    }
}

/// The response to a SAVE says whether the snapshot was saved, and the one to a CLEAR how many
/// keys were removed, or that it failed and why. Both are counted as checkpoints.
pub proof fn law_response_to_a_checkpoint(
    saved: Result<(), EngineErrorView>,
    cleared: Result<usize, EngineErrorView>,
    metrics: MetricsSnapshot,
)
    ensures
        ({
            let (text, counted) = completed_response(CompletionView::Checkpointed(saved), metrics);
            let fields = split(text, '\t');
            &&& saved is Ok ==> fields == seq!["OK"@, "SNAPSHOT_SAVED"@]
            &&& saved matches Err(error) ==> {
                &&& reports_error(text)
                &&& fields.len() == 3
                &&& unescaped(fields[1]) == "PERSISTENCE"@
                &&& unescaped(fields[2]) == error.text()
            }
            &&& counted == with_checkpoint(metrics, saved is Ok)
        }),
        ({
            let (text, counted) = completed_response(CompletionView::Cleared(cleared), metrics);
            let fields = split(text, '\t');
            &&& cleared matches Ok(count) ==> {
                &&& fields.len() == 3
                &&& fields[0] == "OK"@
                &&& fields[1] == "CLEARED"@
                &&& parsed(fields[2], 10, usize::MAX as nat) == Some(count as nat)
            }
            &&& cleared matches Err(error) ==> {
                &&& reports_error(text)
                &&& fields.len() == 3
                &&& unescaped(fields[1]) == "PERSISTENCE"@
                &&& unescaped(fields[2]) == error.text()
            }
            &&& counted == with_checkpoint(metrics, cleared is Ok)
        }),
{
    reveal_strlit("OK");
    reveal_strlit("SNAPSHOT_SAVED");
    reveal_strlit("CLEARED");
    match saved {
        Ok(_) => lemma_two_fields("OK"@, "SNAPSHOT_SAVED"@),
        Err(error) => {
            law_error_says_why("PERSISTENCE"@, error.text());
            lemma_reports_error(completed_response(CompletionView::Checkpointed(saved), metrics).0);
        },
    }
    match cleared {
        Ok(count) => {
            let fields = seq!["OK"@, "CLEARED"@, decimal(count as nat)];
            lemma_decimal_digits(count as nat);
            assert forall|i: int| 0 <= i < fields.len() implies !(#[trigger] fields[i]).contains(
                '\t',
            ) by {}
            law_split_of_join(fields, '\t');
            law_parse_of_decimal(count as nat, usize::MAX as nat);
        },
        Err(error) => {
            law_error_says_why("PERSISTENCE"@, error.text());
            lemma_reports_error(completed_response(CompletionView::Cleared(cleared), metrics).0);
        },
    }
}

/// A status tells the number of keys, the size of the log, the mutations since the last
/// checkpoint and the threshold of this server; where the size of the log cannot be had, why.
pub proof fn law_status_tells_of_the_server(
    engine: EngineView,
    wal_bytes: Result<u64, PersistenceErrorView>,
    limit: u64,
    metrics: MetricsSnapshot,
)
    ensures
        ({
            let text = reported_status(engine, wal_bytes, limit, metrics);
            let fields = split(text, '\t');
            &&& wal_bytes matches Ok(size) ==> {
                &&& fields.len() == 16
                &&& fields[0] == "STATUS"@
                &&& fields[1] == "running"@
                &&& fields[2] == "keys="@ + decimal(engine.contents.len())
                &&& fields[10] == "writes_since_checkpoint="@ + decimal(engine.writes as nat)
                &&& fields[11] == "checkpoint_after_writes="@ + decimal(limit as nat)
                &&& fields[14] == "wal_bytes="@ + decimal(size as nat)
            }
            &&& wal_bytes matches Err(error) ==> {
                &&& reports_error(text)
                &&& fields.len() == 3
                &&& unescaped(fields[1]) == "PERSISTENCE"@
                &&& unescaped(fields[2]) == error.text()
            }
        }),
{
    match wal_bytes {
        Ok(size) => law_status_is_one_line(
            engine.contents.len(),
            size as nat,
            engine.writes as nat,
            limit as nat,
            metrics,
        ),
        Err(error) => {
            law_error_says_why("PERSISTENCE"@, error.text());
            lemma_reports_error(reported_status(engine, wal_bytes, limit, metrics));
        },
    }
}

/// The server makes a checkpoint by itself at its threshold: after a command that only reads,
/// just where the mutations have reached it, and for a mutation the threshold is kept until the
/// record is written. Each command keeps the engine as it is until then.
pub proof fn law_work_keeps_to_the_threshold(
    engine: EngineView,
    command: CommandView,
    limit: u64,
)
    requires
        answer(engine.contents, command) is Ok,
    ensures
        ({
            let (begun, step) = work_step(engine, WorkView::Execute(command), limit);
            &&& begun == engine
            &&& step is Some
            &&& !is_mutation_view(command) ==> (step->0 is Perform <==> 0 < limit <= engine.writes)
            &&& is_mutation_view(command) ==> (step->0 matches StepView::Perform(_, pending)
                ==> pending == PendingView::Append { command, threshold: Some(limit) })
        }),
        work_step(engine, WorkView::Status, limit) == (engine, None::<StepView>),
{
}

/// A server with the session of one client.
pub ghost struct ServerView {
    pub files: Files,
    pub paths: DataPathsView,
    pub engine: EngineView,
    pub waits: bool,
    pub checkpoint_after_writes: u64,
    pub metrics: MetricsSnapshot,
}

/// The server after a request, and the response: the request is planned, the work is carried
/// out on the files, and its result is answered. The size of the log is what the file system
/// says of it.
#[verifier::opaque]
pub open spec fn served(
    server: ServerView,
    request: RequestView,
    failures: Failures,
    wal_bytes: Result<u64, PersistenceErrorView>,
) -> (ServerView, Seq<char>) {
    let heard = ServerView { waits: waits_after(request), ..server };
    match plan_of(server.waits, request) {
        PlanView::Answer(text) => (heard, text),
        PlanView::Do(work) => {
            let limit = server.checkpoint_after_writes;
            let (begun, step) = work_step(server.engine, work, limit);
            match step {
                None => (
                    ServerView { engine: begun, ..heard },
                    reported_status(begun, wal_bytes, limit, server.metrics),
                ),
                Some(step) => {
                    let (files, engine, completion) = carried_out(
                        server.files,
                        server.paths,
                        begun,
                        step,
                        failures,
                    );
                    let (text, metrics) = completed_response(completion, server.metrics);
                    (ServerView { files, engine, metrics, ..heard }, text)
                },
            }
        },
    }
}

/// Whether a server is in order: a restart would find its data.
#[verifier::opaque]
pub open spec fn in_order(server: ServerView) -> bool {
    distinct_paths(server.paths) && files_in_step(server.files, server.paths, server.engine)
}

/// Whether a mutation can be written to the log.
pub open spec fn writable(server: ServerView, command: CommandView, failures: Failures) -> bool {
    &&& !server.engine.wal.failed
    &&& server.engine.wal.next_seq < u64::MAX
    &&& failures.append is None
    &&& record_fits(server.engine.wal.next_seq, command)
}

/// A command that a client sends is carried out and answered: the data is what the command
/// makes of it, the response begins with what the command gives back, and the server stays in
/// order.
pub proof fn law_commands_are_served(
    server: ServerView,
    command: CommandView,
    failures: Failures,
    wal_bytes: Result<u64, PersistenceErrorView>,
)
    requires
        in_order(server),
        !(command is Status),
        is_mutation_view(command) ==> writable(server, command, failures),
    ensures
        ({
            let (after, text) = served(server, RequestView::Execute(command), failures, wal_bytes);
            let fields = split(text, '\t');
            &&& in_order(after)
            &&& after.engine.contents == applied(server.engine.contents, command)
            &&& !after.waits
            &&& answer(server.engine.contents, command) matches Ok(reply) ==> {
                let said = split(response(reply_fields(reply)), '\t');
                &&& !reports_error(text)
                &&& fields.take(said.len() as int) == said
                &&& said.len() <= fields.len() <= said.len() + 1
            }
            &&& answer(server.engine.contents, command) matches Err(error) ==> {
                &&& reports_error(text)
                &&& fields.len() == 3
                &&& unescaped(fields[1]) == "DOMAIN"@
                &&& unescaped(fields[2]) == error.text()
            }
        }),
{
    reveal(served);
    reveal(in_order);
    let limit = Some(server.checkpoint_after_writes);
    law_commands_are_carried_out(
        server.files,
        server.paths,
        server.engine,
        command,
        limit,
        failures,
    );
    let step = execute_step(server.engine, command, limit);
    let completion = carried_out(server.files, server.paths, server.engine, step, failures).2;
    law_response_says_the_result(completion, server.metrics);
    match answer(server.engine.contents, command) {
        Ok(reply) => {
            let said = split(response(reply_fields(reply)), '\t');
            let all = said + checkpoint_warning(command_checkpoint(completion));
            assert(all.take(said.len() as int) =~= said);
        },
        Err(_) => {},
    }
}

/// After a DELETE of a stored key, the data is the old data without that key, and the response
/// is OK, DELETED and the value that was removed.
pub proof fn law_delete_is_served(
    server: ServerView,
    key: Seq<char>,
    failures: Failures,
    wal_bytes: Result<u64, PersistenceErrorView>,
)
    requires
        in_order(server),
        key.len() > 0,
        server.engine.contents.contains_key(key),
        writable(server, CommandView::Delete { key }, failures),
    ensures
        ({
            let contents = server.engine.contents;
            let request = RequestView::Execute(CommandView::Delete { key });
            let (after, text) = served(server, request, failures, wal_bytes);
            let fields = split(text, '\t');
            &&& in_order(after)
            &&& after.engine.contents == contents.remove(key)
            &&& !reports_error(text)
            &&& fields.len() >= 3
            &&& fields[0] == "OK"@
            &&& fields[1] == "DELETED"@
            &&& unescaped(fields[2]) == contents[key]
        }),
{
    let command = CommandView::Delete { key };
    law_commands_are_served(server, command, failures, wal_bytes);
    lemma_first_fields(
        split(served(server, RequestView::Execute(command), failures, wal_bytes).1, '\t'),
        answer(server.engine.contents, command)->Ok_0,
    );
}

proof fn lemma_first_fields(fields: Seq<Seq<char>>, reply: ReplyView)
    requires
        ({
            let said = split(response(reply_fields(reply)), '\t');
            fields.len() >= said.len() && fields.take(said.len() as int) == said
        }),
    ensures
        ({
            let said = split(response(reply_fields(reply)), '\t');
            &&& said == reply_fields(reply)
            &&& forall|i: int| 0 <= i < said.len() ==> #[trigger] fields[i] == said[i]
        }),
        match reply {
            ReplyView::SetValue(SetOutcomeView::Created) => fields.len() >= 2 && fields[0]
                == "OK"@ && fields[1] == "CREATED"@,
            ReplyView::SetValue(SetOutcomeView::Overwritten { old_value }) => fields.len() >= 3
                && fields[0] == "OK"@ && fields[1] == "OVERWRITTEN"@ && unescaped(fields[2])
                == old_value,
            ReplyView::Updated { old_value } => fields.len() >= 3 && fields[0] == "OK"@ && fields[1]
                == "UPDATED"@ && unescaped(fields[2]) == old_value,
            ReplyView::Value(value) => fields.len() >= 2 && fields[0] == "VALUE"@ && unescaped(
                fields[1],
            ) == value,
            ReplyView::Deleted { value } => fields.len() >= 3 && fields[0] == "OK"@ && fields[1]
                == "DELETED"@ && unescaped(fields[2]) == value,
            ReplyView::Keys(keys) => {
                &&& fields.len() >= keys.len() + 2
                &&& fields[0] == "KEYS"@
                &&& parsed(fields[1], 10, keys.len()) == Some(keys.len())
                &&& forall|i: int|
                    0 <= i < keys.len() ==> unescaped(fields[i + 2]) == #[trigger] keys[i]
            },
            _ => true,
        },
{
    law_response_says_what_was_done(reply);
    law_reply_is_one_line(reply);
    let said = split(response(reply_fields(reply)), '\t');
    let shown = fields.take(said.len() as int);
    assert forall|i: int| 0 <= i < said.len() implies #[trigger] fields[i] == said[i] by {
        assert(shown[i] == fields[i]);
    }
}

/// After a SET, the key has the value and all other keys are as they were; the response says
/// whether the key is new, and else which value it had.
pub proof fn law_set_is_served(
    server: ServerView,
    key: Seq<char>,
    value: Seq<char>,
    failures: Failures,
    wal_bytes: Result<u64, PersistenceErrorView>,
)
    requires
        in_order(server),
        key.len() > 0,
        writable(server, CommandView::SetValue { key, value }, failures),
    ensures
        ({
            let contents = server.engine.contents;
            let request = RequestView::Execute(CommandView::SetValue { key, value });
            let (after, text) = served(server, request, failures, wal_bytes);
            let fields = split(text, '\t');
            &&& in_order(after)
            &&& after.engine.contents == contents.insert(key, value)
            &&& !reports_error(text)
            &&& fields.len() >= 2
            &&& fields[0] == "OK"@
            &&& !contents.contains_key(key) ==> fields[1] == "CREATED"@
            &&& contents.contains_key(key) ==> fields.len() >= 3 && fields[1] == "OVERWRITTEN"@
                && unescaped(fields[2]) == contents[key]
        }),
{
    let command = CommandView::SetValue { key, value };
    law_commands_are_served(server, command, failures, wal_bytes);
    lemma_first_fields(
        split(served(server, RequestView::Execute(command), failures, wal_bytes).1, '\t'),
        answer(server.engine.contents, command)->Ok_0,
    );
}

/// After an UPDATE of a stored key, the key has the value, and the response holds the value
/// that it had. An UPDATE, GET or DELETE of a key that is not stored changes nothing and is
/// answered with an error that names the key.
pub proof fn law_update_is_served(
    server: ServerView,
    key: Seq<char>,
    value: Seq<char>,
    failures: Failures,
    wal_bytes: Result<u64, PersistenceErrorView>,
)
    requires
        in_order(server),
        key.len() > 0,
        writable(server, CommandView::Update { key, value }, failures),
    ensures
        ({
            let contents = server.engine.contents;
            let request = RequestView::Execute(CommandView::Update { key, value });
            let (after, text) = served(server, request, failures, wal_bytes);
            let fields = split(text, '\t');
            &&& in_order(after)
            &&& contents.contains_key(key) ==> {
                &&& after.engine.contents == contents.insert(key, value)
                &&& !reports_error(text)
                &&& fields.len() >= 3
                &&& fields[0] == "OK"@
                &&& fields[1] == "UPDATED"@
                &&& unescaped(fields[2]) == contents[key]
            }
            &&& !contents.contains_key(key) ==> {
                &&& after.engine.contents == contents
                &&& reports_error(text)
                &&& fields.len() == 3
                &&& unescaped(fields[1]) == "DOMAIN"@
                &&& unescaped(fields[2]) == DomainErrorView::NotFound { key }.text()
            }
        }),
{
    let command = CommandView::Update { key, value };
    law_commands_are_served(server, command, failures, wal_bytes);
    if server.engine.contents.contains_key(key) {
        lemma_first_fields(
            split(served(server, RequestView::Execute(command), failures, wal_bytes).1, '\t'),
            answer(server.engine.contents, command)->Ok_0,
        );
    }
}

/// A GET changes no data and is answered with the value of the key, or with an error that names
/// a key that is not stored.
pub proof fn law_get_is_served(
    server: ServerView,
    key: Seq<char>,
    failures: Failures,
    wal_bytes: Result<u64, PersistenceErrorView>,
)
    requires
        in_order(server),
        key.len() > 0,
    ensures
        ({
            let contents = server.engine.contents;
            let request = RequestView::Execute(CommandView::Get { key });
            let (after, text) = served(server, request, failures, wal_bytes);
            let fields = split(text, '\t');
            &&& in_order(after)
            &&& after.engine.contents == contents
            &&& contents.contains_key(key) ==> {
                &&& !reports_error(text)
                &&& fields.len() >= 2
                &&& fields[0] == "VALUE"@
                &&& unescaped(fields[1]) == contents[key]
            }
            &&& !contents.contains_key(key) ==> {
                &&& reports_error(text)
                &&& fields.len() == 3
                &&& unescaped(fields[1]) == "DOMAIN"@
                &&& unescaped(fields[2]) == DomainErrorView::NotFound { key }.text()
            }
        }),
{
    let command = CommandView::Get { key };
    law_commands_are_served(server, command, failures, wal_bytes);
    if server.engine.contents.contains_key(key) {
        lemma_first_fields(
            split(served(server, RequestView::Execute(command), failures, wal_bytes).1, '\t'),
            answer(server.engine.contents, command)->Ok_0,
        );
    }
}

/// KEYS changes no data and lists the stored keys, all of them and no other.
pub proof fn law_keys_are_served(
    server: ServerView,
    key: Seq<char>,
    failures: Failures,
    wal_bytes: Result<u64, PersistenceErrorView>,
)
    requires
        in_order(server),
    ensures
        ({
            let contents = server.engine.contents;
            let request = RequestView::Execute(CommandView::Keys);
            let (after, text) = served(server, request, failures, wal_bytes);
            let fields = split(text, '\t');
            &&& in_order(after)
            &&& after.engine.contents == contents
            &&& !reports_error(text)
            &&& fields.len() >= 2 + contents.len()
            &&& fields[0] == "KEYS"@
            &&& parsed(fields[1], 10, contents.len()) == Some(contents.len())
            &&& contents.contains_key(key) <==> exists|i: int|
                2 <= i < 2 + contents.len() && unescaped(#[trigger] fields[i]) == key
        }),
{
    let contents = server.engine.contents;
    let command = CommandView::Keys;
    law_commands_are_served(server, command, failures, wal_bytes);
    let fields = split(served(server, RequestView::Execute(command), failures, wal_bytes).1, '\t');
    lemma_first_fields(fields, answer(contents, command)->Ok_0);
    assert(contents.dom().finite()) by {
        reveal(in_order);
    }
    law_reading_shows_what_is_stored(contents, key);
    let keys = sorted_keys(contents);
    if contents.contains_key(key) {
        let at = choose|i: int| 0 <= i < keys.len() && keys[i] == key;
        assert(unescaped(fields[at + 2]) == keys[at]);
        assert(2 <= at + 2 < 2 + contents.len() && unescaped(fields[at + 2]) == key);
    }
    if exists|i: int| 2 <= i < 2 + contents.len() && unescaped(#[trigger] fields[i]) == key {
        let at = choose|i: int|
            2 <= i < 2 + contents.len() && unescaped(#[trigger] fields[i]) == key;
        assert(unescaped(fields[at - 2 + 2]) == keys[at - 2]);
        assert(keys.contains(key));
    }
}

/// A CLEAR alone, a NO, a QUIT and a confirmation that nobody waits for leave data, files and
/// counters as they are, and so does a STATUS.
pub proof fn law_other_requests_change_nothing(
    server: ServerView,
    request: RequestView,
    failures: Failures,
    wal_bytes: Result<u64, PersistenceErrorView>,
)
    requires
        request is Clear || request is No || request is Quit || (request is Yes && !server.waits)
            || request == RequestView::Execute(CommandView::Status),
    ensures
        ({
            let (after, text) = served(server, request, failures, wal_bytes);
            &&& after.engine == server.engine
            &&& after.files == server.files
            &&& after.metrics == server.metrics
            &&& after.waits <==> request is Clear
            &&& request is Execute ==> text == reported_status(
                server.engine,
                wal_bytes,
                server.checkpoint_after_writes,
                server.metrics,
            )
        }),
{
    reveal(served);
}

/// A SAVE keeps the data, and is answered that the snapshot was saved, or that it failed and
/// why. It does not fail where no step fails and the files accept the document. Hands back the
/// result.
pub proof fn law_save_is_served(
    server: ServerView,
    failures: Failures,
    wal_bytes: Result<u64, PersistenceErrorView>,
) -> (result: Result<(), EngineErrorView>)
    requires
        in_order(server),
    ensures
        ({
            let (after, text) = served(server, RequestView::Save, failures, wal_bytes);
            let fields = split(text, '\t');
            &&& in_order(after)
            &&& after.engine.contents == server.engine.contents
            &&& result is Ok ==> fields == seq!["OK"@, "SNAPSHOT_SAVED"@] && after.engine.writes
                == 0
            &&& result matches Err(error) ==> {
                &&& reports_error(text)
                &&& fields.len() == 3
                &&& unescaped(fields[1]) == "PERSISTENCE"@
                &&& unescaped(fields[2]) == error.text()
                &&& after.engine == server.engine
            }
            &&& after.metrics == with_checkpoint(server.metrics, result is Ok)
            &&& failures.snapshot is None && failures.log is None && document_fits(
                disk_of(server.files, server.paths),
                snapshot_of(server.engine.contents, (server.engine.wal.next_seq - 1) as u64),
            ) ==> result is Ok
        }),
{
    reveal(served);
    reveal(in_order);
    let result = law_checkpoints_are_carried_out(
        server.files,
        server.paths,
        server.engine,
        PurposeView::Checkpoint,
        failures,
    );
    law_response_to_a_checkpoint(result, Ok(0), server.metrics);
    result
}

/// A CLEAR and its confirmation leave no data, and the answer tells how many keys there were,
/// where each step succeeded.
pub proof fn law_clear_is_served(
    server: ServerView,
    failures: Failures,
    wal_bytes: Result<u64, PersistenceErrorView>,
)
    requires
        in_order(server),
        failures.snapshot is None,
        failures.log is None,
        empty_document_fits(server.files),
        server.engine.contents.len() <= usize::MAX,
    ensures
        ({
            let (asked, _) = served(server, RequestView::Clear, failures, wal_bytes);
            let (after, text) = served(asked, RequestView::Yes, failures, wal_bytes);
            let fields = split(text, '\t');
            &&& in_order(after)
            &&& after.engine.contents == Contents::empty()
            &&& !after.waits
            &&& fields.len() == 3
            &&& fields[0] == "OK"@
            &&& fields[1] == "CLEARED"@
            &&& parsed(fields[2], 10, usize::MAX as nat) == Some(server.engine.contents.len())
            &&& after.metrics == with_checkpoint(server.metrics, true)
        }),
{
    reveal(served);
    reveal(in_order);
    let cleared = server.engine.contents.len() as usize;
    law_clears_are_carried_out(server.files, server.paths, server.engine, cleared, failures);
    law_response_to_a_checkpoint(Ok(()), Ok(cleared), server.metrics);
}

/// A failure is counted for each error response and for no reply, and each response counts with
/// the bytes of its frame, as long as the counters do not overflow.
pub proof fn law_responses_are_counted(
    metrics: MetricsSnapshot,
    code: Seq<char>,
    message: Seq<char>,
    reply: ReplyView,
    text: Seq<char>,
)
    requires
        metrics.commands_failed < u64::MAX,
        encode_utf8(text).len() < u64::MAX,
        metrics.bytes_sent + encode_utf8(text.push('\n')).len() <= u64::MAX,
    ensures
        with_outcome(metrics, response(error_fields(code, message))) == (MetricsSnapshot {
            commands_failed: (metrics.commands_failed + 1) as u64,
            ..metrics
        }),
        with_outcome(metrics, response(reply_fields(reply))) == metrics,
        with_sent(metrics, text) == (MetricsSnapshot {
            bytes_sent: (metrics.bytes_sent + encode_utf8(text.push('\n')).len()) as u64,
            ..metrics
        }),
{
    law_error_says_why(code, message);
    lemma_reports_error(response(error_fields(code, message)));
    let outcome = ExecutionOutcomeView { reply, auto_checkpoint: None };
    law_error_responses_report_errors(Ok(outcome), metrics);
    law_frames_are_counted_whole(text);
}

/// Where what all connections share cannot be used any more, that is an internal error.
pub proof fn law_poisoned_state_is_an_error(message: Seq<char>)
    ensures
        ({
            let text = poisoned_response(message);
            let fields = split(text, '\t');
            &&& reports_error(text)
            &&& fields.len() == 3
            &&& unescaped(fields[1]) == "INTERNAL"@
            &&& unescaped(fields[2]) == message
        }),
{
    law_error_says_why("INTERNAL"@, message);
    lemma_reports_error(poisoned_response(message));
}

/// What reports an error is a response whose first field is ERR and which has another field.
pub proof fn law_what_reports_an_error(text: Seq<char>)
    ensures
        reports_error(text) <==> split(text, '\t').len() > 1 && split(text, '\t')[0] == "ERR"@,
{
    if split(text, '\t').len() > 1 && split(text, '\t')[0] == "ERR"@ {
        lemma_reports_error(text);
    }
    if reports_error(text) {
        reveal_strlit("ERR");
        reveal_strlit("ERR\t");
        let rest = text.skip(4);
        assert(text =~= text.take(4) + rest);
        assert(text.take(4) =~= "ERR"@.push('\t'));
        lemma_split_in_front("ERR"@, rest);
        assert(text =~= "ERR"@.push('\t') + rest);
    }
}

proof fn lemma_split_in_front(field: Seq<char>, rest: Seq<char>)
    requires
        !field.contains('\t'),
    ensures
        split(field.push('\t') + rest, '\t') == seq![field] + split(rest, '\t'),
    decreases rest.len(),
{
    let whole = field.push('\t') + rest;
    if rest.len() == 0 {
        lemma_split_none(field, '\t');
        assert(whole =~= field.push('\t'));
        assert(whole.drop_last() =~= field);
        assert(split(whole, '\t') =~= seq![field] + split(rest, '\t'));
    } else {
        let shorter = rest.drop_last();
        lemma_split_in_front(field, shorter);
        lemma_split_not_empty(shorter, '\t');
        assert(whole.drop_last() =~= field.push('\t') + shorter);
        assert(split(whole, '\t') =~= seq![field] + split(rest, '\t'));
    }
}

/// A mutation whose record could not be written is answered with the error of the log, and
/// leaves the data as it was; no other mutation is taken after it.
pub proof fn law_failed_writes_are_answered(
    server: ServerView,
    command: CommandView,
    failures: Failures,
    wal_bytes: Result<u64, PersistenceErrorView>,
    error: PersistenceErrorView,
)
    requires
        is_mutation_view(command),
        ({
            let step = execute_step(
                server.engine,
                command,
                Some(server.checkpoint_after_writes),
            );
            &&& step is Perform
            &&& ran(
                server.files,
                ScriptView { steps: action_steps(server.paths, step->Perform_0), at: 0 },
                failures.append,
            ).2 == Err::<(), _>(error)
        }),
    ensures
        ({
            let (after, text) = served(server, RequestView::Execute(command), failures, wal_bytes);
            let fields = split(text, '\t');
            &&& after.engine.contents == server.engine.contents
            &&& after.engine.wal.failed
            &&& reports_error(text)
            &&& fields.len() == 3
            &&& unescaped(fields[1]) == "PERSISTENCE"@
            &&& unescaped(fields[2]) == error.text()
        }),
{
    reveal(served);
    let limit = Some(server.checkpoint_after_writes);
    let step = execute_step(server.engine, command, limit);
    let script = ScriptView { steps: action_steps(server.paths, step->Perform_0), at: 0 };
    let (files, _, result) = ran(server.files, script, failures.append);
    let (next, next_step) = resumed(server.engine, step->Perform_1, script_event(result));
    law_failed_writes_are_reported(server.engine, command, limit, error);
    let (_, _, completion) = carried_out(
        server.files,
        server.paths,
        server.engine,
        step,
        failures,
    );
    assert(carried_out(server.files, server.paths, server.engine, step, failures) == carried_out(
        files,
        server.paths,
        next,
        next_step,
        failures,
    ));
    assert(next_step is Finished);
    law_response_says_the_result(completion, server.metrics);
}

// ---------------------------------------------------------------------------------------
// The log of the server
// ---------------------------------------------------------------------------------------

/// The largest number of characters of a line that the log shows.
pub const MAX_LOG_CHARS: usize = 80;

/// The field at a place, or a text for a field that is missing.
pub open spec fn field_or(fields: Seq<Seq<char>>, at: int, missing: Seq<char>) -> Seq<char> {
    if at < fields.len() {
        fields[at]
    } else {
        missing
    }
}

/// A response in short: whether it succeeded.
pub open spec fn response_summary(text: Seq<char>) -> Seq<char> {
    let fields = split(text, '\t');
    if fields[0] == "ERR"@ {
        "失败("@ + field_or(fields, 1, "UNKNOWN"@) + ")"@
    } else if fields[0] == "OK"@ {
        "成功("@ + field_or(fields, 1, "OK"@) + ")"@
    } else if fields[0] == "VALUE"@ {
        "成功(已返回值)"@
    } else if fields[0] == "KEYS"@ {
        "成功(返回 "@ + field_or(fields, 1, "?"@) + " 个键)"@
    } else if fields[0] == "STATUS"@ {
        "成功(已返回状态)"@
    } else {
        "已响应"@
    }
}

/// The beginning of a line, with a mark where something was left out.
pub open spec fn log_excerpt(line: Seq<char>) -> Seq<char> {
    if line.len() <= MAX_LOG_CHARS {
        line
    } else {
        line.take(MAX_LOG_CHARS as int).push('…')
    }
}

/// The time that an operation took, in whole milliseconds.
pub open spec fn latency_text(micros: nat) -> Seq<char> {
    if micros < 1000 {
        "<1 ms"@
    } else {
        decimal(micros / 1000) + " ms"@
    }
}

/// The line of the log for an operation.
pub open spec fn operation_line(
    peer: Seq<char>,
    operation: Seq<char>,
    text: Seq<char>,
    micros: nat,
) -> Seq<char> {
    "[实时反馈] 客户端="@ + peer + " | 操作="@ + operation + " | 结果="@ + response_summary(text)
        + " | 耗时="@ + latency_text(micros)
}

fn in_brackets(open: &str, fields: &Vec<String>, missing: &str, close: &str) -> (text: String)
    ensures
        text@ == open@ + field_or(views(fields@), 1, missing@) + close@,
{
    let mut text = open.to_owned();
    if fields.len() > 1 {
        text.append(fields[1].as_str());
    } else {
        text.append(missing);
    }
    text.append(close);
    text
}

/// A response in short, so that a long one does not fill the log.
#[must_use]
pub fn summarize_response(text: &str) -> (summary: String)
    ensures
        summary@ == response_summary(text@),
{
    let fields = split_text(text, '\t');
    proof {
        crate::text::lemma_split_not_empty(text@, '\t');
        assert(views(fields@)[0] == fields@[0]@);
    }
    let kind = fields[0].as_str();
    if same_text(kind, "ERR") {
        in_brackets("失败(", &fields, "UNKNOWN", ")")
    } else if same_text(kind, "OK") {
        in_brackets("成功(", &fields, "OK", ")")
    } else if same_text(kind, "VALUE") {
        "成功(已返回值)".to_owned()
    } else if same_text(kind, "KEYS") {
        in_brackets("成功(返回 ", &fields, "?", " 个键)")
    } else if same_text(kind, "STATUS") {
        "成功(已返回状态)".to_owned()
    } else {
        "已响应".to_owned()
    }
}

/// The beginning of a line for the log.
#[must_use]
pub fn truncate_for_log(line: &str) -> (excerpt: String)
    ensures
        excerpt@ == log_excerpt(line@),
{
    let chars = chars_of(line);
    if chars.len() <= MAX_LOG_CHARS {
        return line.to_owned();
    }
    let mut excerpt = text_of(&chars, 0, MAX_LOG_CHARS);
    excerpt.push('…');
    assert(excerpt@ =~= log_excerpt(line@));
    excerpt
}

/// The line of the log for an operation.
#[must_use]
pub fn operation_log(peer: &str, operation: &str, text: &str, micros: u128) -> (line: String)
    ensures
        line@ == operation_line(peer@, operation@, text@, micros as nat),
{
    let mut line = "[实时反馈] 客户端=".to_owned();
    line.append(peer);
    line.append(" | 操作=");
    line.append(operation);
    line.append(" | 结果=");
    line.append(summarize_response(text).as_str());
    line.append(" | 耗时=");
    if micros < 1000 {
        line.append("<1 ms");
    } else {
        let mut latency = decimal_text(micros / 1000);
        latency.append(" ms");
        line.append(latency.as_str());
    }
    line
}

/// The log names a request by its command and its key, so that the request is known from them
/// but for its value, which is not shown.
pub proof fn law_log_names_the_request(request: RequestView, other_value: Seq<char>)
    ensures
        ({
            let summary = request_summary(request);
            match request {
                RequestView::Execute(CommandView::SetValue { key, value }) => {
                    let at = summary.len() - key.len() - 5;
                    &&& at > 0
                    &&& summary.skip(at) == " key="@ + key
                    &&& request_of_words(seq![summary.take(at), key, value]) == Ok::<
                        _,
                        ProtocolErrorView,
                    >(request)
                    &&& request_summary(
                        RequestView::Execute(CommandView::SetValue { key, value: other_value }),
                    ) == summary
                },
                RequestView::Execute(CommandView::Update { key, value }) => {
                    let at = summary.len() - key.len() - 5;
                    &&& at > 0
                    &&& summary.skip(at) == " key="@ + key
                    &&& request_of_words(seq![summary.take(at), key, value]) == Ok::<
                        _,
                        ProtocolErrorView,
                    >(request)
                    &&& request_summary(
                        RequestView::Execute(CommandView::Update { key, value: other_value }),
                    ) == summary
                },
                RequestView::Execute(CommandView::Get { key }) => {
                    let at = summary.len() - key.len() - 5;
                    &&& at > 0
                    &&& summary.skip(at) == " key="@ + key
                    &&& request_of_words(seq![summary.take(at), key]) == Ok::<
                        _,
                        ProtocolErrorView,
                    >(request)
                },
                RequestView::Execute(CommandView::Delete { key }) => {
                    let at = summary.len() - key.len() - 5;
                    &&& at > 0
                    &&& summary.skip(at) == " key="@ + key
                    &&& request_of_words(seq![summary.take(at), key]) == Ok::<
                        _,
                        ProtocolErrorView,
                    >(request)
                },
                _ => request_of_words(seq![summary]) == Ok::<_, ProtocolErrorView>(request),
            }
        }),
{
    let summary = request_summary(request);
    reveal_strlit(" key=");
    match request {
        RequestView::Execute(CommandView::SetValue { key, value }) => {
            reveal_strlit("SET key=");
            reveal_strlit("SET");
            assert(summary =~= "SET"@ + " key="@ + key);
            lemma_keyed_summary(summary, "SET"@, key);
            lemma_request_named("SET"@, seq![key, value]);
            lemma_value_of_one_word("SET"@, key, value);
        },
        RequestView::Execute(CommandView::Update { key, value }) => {
            reveal_strlit("UPDATE key=");
            reveal_strlit("UPDATE");
            assert(summary =~= "UPDATE"@ + " key="@ + key);
            lemma_keyed_summary(summary, "UPDATE"@, key);
            lemma_request_named("UPDATE"@, seq![key, value]);
            lemma_value_of_one_word("UPDATE"@, key, value);
        },
        RequestView::Execute(CommandView::Get { key }) => {
            reveal_strlit("GET key=");
            reveal_strlit("GET");
            assert(summary =~= "GET"@ + " key="@ + key);
            lemma_keyed_summary(summary, "GET"@, key);
            lemma_request_named("GET"@, seq![key]);
        },
        RequestView::Execute(CommandView::Delete { key }) => {
            reveal_strlit("DELETE key=");
            reveal_strlit("DELETE");
            assert(summary =~= "DELETE"@ + " key="@ + key);
            lemma_keyed_summary(summary, "DELETE"@, key);
            lemma_request_named("DELETE"@, seq![key]);
        },
        _ => {
            reveal_strlit("KEYS");
            reveal_strlit("STATUS");
            reveal_strlit("SAVE");
            reveal_strlit("CLEAR");
            reveal_strlit("YES");
            reveal_strlit("NO");
            reveal_strlit("QUIT");
            lemma_request_named(summary, Seq::empty());
            assert(seq![summary] + Seq::<Seq<char>>::empty() =~= seq![summary]);
        },
    }
}

proof fn lemma_keyed_summary(summary: Seq<char>, name: Seq<char>, key: Seq<char>)
    requires
        summary == name + " key="@ + key,
    ensures
        summary.take(name.len() as int) == name,
        summary.skip(name.len() as int) == " key="@ + key,
        summary.len() == name.len() + 5 + key.len(),
{
    reveal_strlit(" key=");
    assert(summary.take(name.len() as int) =~= name);
    assert(summary.skip(name.len() as int) =~= " key="@ + key);
}

proof fn lemma_value_of_one_word(name: Seq<char>, key: Seq<char>, value: Seq<char>)
    ensures
        join(seq![name, key, value].skip(2), seq![' ']) == value,
        seq![name] + seq![key, value] == seq![name, key, value],
{
    assert(seq![name, key, value].skip(2) =~= seq![value]);
    assert(seq![name] + seq![key, value] =~= seq![name, key, value]);
}

/// A request that is written with its name in upper case is read as the request of that name.
proof fn lemma_request_named(name: Seq<char>, arguments: Seq<Seq<char>>)
    requires
        forall|i: int| 0 <= i < name.len() ==> 'A' <= #[trigger] name[i] <= 'Z',
    ensures
        ({
            let parts = seq![name] + arguments;
            let result = request_of_words(parts);
            let n = arguments.len();
            &&& upper(parts[0]) == name
            &&& name == "SET"@ && n == 2 ==> result == Ok::<_, ProtocolErrorView>(
                RequestView::Execute(
                    CommandView::SetValue { key: arguments[0], value: arguments[1] },
                ),
            )
            &&& name == "UPDATE"@ && n == 2 ==> result == Ok::<_, ProtocolErrorView>(
                RequestView::Execute(
                    CommandView::Update { key: arguments[0], value: arguments[1] },
                ),
            )
            &&& name == "GET"@ && n == 1 ==> result == Ok::<_, ProtocolErrorView>(
                RequestView::Execute(CommandView::Get { key: arguments[0] }),
            ) && parts == seq![name, arguments[0]]
            &&& name == "DELETE"@ && n == 1 ==> result == Ok::<_, ProtocolErrorView>(
                RequestView::Execute(CommandView::Delete { key: arguments[0] }),
            ) && parts == seq![name, arguments[0]]
            &&& name == "KEYS"@ && n == 0 ==> result == Ok::<_, ProtocolErrorView>(
                RequestView::Execute(CommandView::Keys),
            )
            &&& name == "STATUS"@ && n == 0 ==> result == Ok::<_, ProtocolErrorView>(
                RequestView::Execute(CommandView::Status),
            )
            &&& name == "SAVE"@ && n == 0 ==> result == Ok::<_, ProtocolErrorView>(
                RequestView::Save,
            )
            &&& name == "CLEAR"@ && n == 0 ==> result == Ok::<_, ProtocolErrorView>(
                RequestView::Clear,
            )
            &&& name == "YES"@ && n == 0 ==> result == Ok::<_, ProtocolErrorView>(RequestView::Yes)
            &&& name == "NO"@ && n == 0 ==> result == Ok::<_, ProtocolErrorView>(RequestView::No)
            &&& name == "QUIT"@ && n == 0 ==> result == Ok::<_, ProtocolErrorView>(
                RequestView::Quit,
            )
        }),
{
    let parts = seq![name] + arguments;
    assert(upper(name) =~= name);
    law_requests_take_their_arguments(parts);
    if request_of_words(parts) is Ok {
        law_names_lead_to_their_requests(parts);
    }
    if arguments.len() == 2 {
        lemma_value_of_one_word(name, arguments[0], arguments[1]);
        assert(parts =~= seq![name, arguments[0], arguments[1]]);
    } else if arguments.len() == 1 {
        assert(parts =~= seq![name, arguments[0]]);
    }
}

/// A summary tells success and failure apart by the first field of the response, and shows the
/// second field of a result and of a list of keys, but never a value.
pub proof fn law_summaries_tell_success(text: Seq<char>, other: Seq<char>)
    ensures
        ({
            let fields = split(text, '\t');
            let summary = response_summary(text);
            let ok = fields[0] == "OK"@ || fields[0] == "VALUE"@ || fields[0] == "KEYS"@
                || fields[0] == "STATUS"@;
            &&& fields[0] == "ERR"@ <==> summary.take(2) == "失败"@
            &&& ok <==> summary.take(2) == "成功"@
            &&& fields.len() > 1 && (fields[0] == "ERR"@ || fields[0] == "OK"@)
                ==> summary.subrange(3, 3int + fields[1].len()) == fields[1] && summary.len()
                == fields[1].len() + 4
            &&& fields.len() > 1 && fields[0] == "KEYS"@ ==> summary.subrange(
                6,
                6int + fields[1].len(),
            ) == fields[1]
            &&& (fields[0] == "VALUE"@ || fields[0] == "STATUS"@) && split(other, '\t')[0]
                == fields[0] ==> response_summary(other) == summary
            &&& fields == seq!["ERR"@] ==> summary == "失败(UNKNOWN)"@
            &&& fields == seq!["OK"@] ==> summary == "成功(OK)"@
            &&& fields == seq!["KEYS"@] ==> summary == "成功(返回 ? 个键)"@
            &&& !ok && fields[0] != "ERR"@ ==> summary == "已响应"@
        }),
{
    let fields = split(text, '\t');
    let summary = response_summary(text);
    reveal_strlit("ERR");
    reveal_strlit("OK");
    reveal_strlit("VALUE");
    reveal_strlit("KEYS");
    reveal_strlit("STATUS");
    reveal_strlit("失败(");
    reveal_strlit("成功(");
    reveal_strlit(")");
    reveal_strlit("成功(已返回值)");
    reveal_strlit("成功(返回 ");
    reveal_strlit(" 个键)");
    reveal_strlit("成功(已返回状态)");
    reveal_strlit("已响应");
    reveal_strlit("UNKNOWN");
    reveal_strlit("?");
    reveal_strlit("失败(UNKNOWN)");
    reveal_strlit("成功(OK)");
    reveal_strlit("成功(返回 ? 个键)");
    assert("失败("@ + "UNKNOWN"@ + ")"@ =~= "失败(UNKNOWN)"@);
    assert("成功("@ + "OK"@ + ")"@ =~= "成功(OK)"@);
    assert("成功(返回 "@ + "?"@ + " 个键)"@ =~= "成功(返回 ? 个键)"@);
    reveal_strlit("失败");
    reveal_strlit("成功");
    assert("ERR"@[0] == 'E' && "OK"@[0] == 'O' && "VALUE"@[0] == 'V' && "KEYS"@[0] == 'K');
    assert("STATUS"@[0] == 'S');
    assert("失败"@[0] != "成功"@[0]);
    assert("已响应"@[0] != "成功"@[0] && "已响应"@[0] != "失败"@[0]);
    if fields[0] == "ERR"@ {
        assert(summary.take(2) =~= "失败"@);
        assert(summary.take(2)[0] == '失');
        if fields.len() > 1 {
            assert(summary.subrange(3, 3int + fields[1].len()) =~= fields[1]);
        }
    } else if fields[0] == "OK"@ || fields[0] == "VALUE"@ || fields[0] == "KEYS"@ || fields[0]
        == "STATUS"@ {
        assert(summary.take(2) =~= "成功"@);
        if fields.len() > 1 && fields[0] == "OK"@ {
            assert(summary.subrange(3, 3int + fields[1].len()) =~= fields[1]);
        }
        if fields.len() > 1 && fields[0] == "KEYS"@ {
            assert(summary.subrange(6, 6int + fields[1].len()) =~= fields[1]);
        }
    } else {
        assert(summary.take(2)[0] == summary[0]);
    }
}

/// The log shows a line up to eighty characters as it is; of a longer one it shows these, and a
/// mark behind them.
pub proof fn law_excerpts_are_beginnings(line: Seq<char>)
    ensures
        ({
            let shown = log_excerpt(line);
            &&& line.len() <= 80 ==> shown == line
            &&& line.len() > 80 ==> {
                &&& shown.len() == 81
                &&& shown.drop_last() == line.take(80)
                &&& shown.last() == '…'
            }
        }),
{
    if line.len() > 80 {
        assert(log_excerpt(line).drop_last() =~= line.take(80));
    }
}

/// A latency is shown in the whole milliseconds that have passed, and as less than one where
/// none has.
pub proof fn law_latencies_are_in_milliseconds(micros: nat)
    ensures
        ({
            let text = latency_text(micros);
            let at = text.len() - 3;
            &&& at > 0 && text.skip(at) == " ms"@
            &&& micros < 1000 ==> text.take(at) == "<1"@
            &&& micros >= 1000 ==> {
                let shown = parsed(text.take(at), 10, micros);
                shown is Some && shown->0 * 1000 <= micros < shown->0 * 1000 + 1000
            }
        }),
{
    let text = latency_text(micros);
    let at = text.len() - 3;
    reveal_strlit("<1 ms");
    reveal_strlit(" ms");
    reveal_strlit("<1");
    law_parse_of_decimal(micros / 1000, micros);
    law_decimal_form(micros / 1000);
    assert(text.skip(at) =~= " ms"@);
    if micros < 1000 {
        assert(text.take(at) =~= "<1"@);
    } else {
        assert(text.take(at) =~= decimal(micros / 1000));
    }
}

/// The line of an operation holds the client, the operation, the summary of the response and
/// the latency, each behind its name and in this order.
pub proof fn law_operations_are_logged_in_full(
    peer: Seq<char>,
    operation: Seq<char>,
    text: Seq<char>,
    micros: nat,
)
    ensures
        ({
            let line = operation_line(peer, operation, text, micros);
            let result = response_summary(text);
            let first = 11int + peer.len();
            let second = first + 6 + operation.len();
            let third = second + 6 + result.len();
            &&& line.take(11) == "[实时反馈] 客户端="@
            &&& line.subrange(11, first) == peer
            &&& line.subrange(first, first + 6) == " | 操作="@
            &&& line.subrange(first + 6, second) == operation
            &&& line.subrange(second, second + 6) == " | 结果="@
            &&& line.subrange(second + 6, third) == result
            &&& line.subrange(third, third + 6) == " | 耗时="@
            &&& line.skip(third + 6) == latency_text(micros)
        }),
{
    let line = operation_line(peer, operation, text, micros);
    let result = response_summary(text);
    reveal_strlit("[实时反馈] 客户端=");
    reveal_strlit(" | 操作=");
    reveal_strlit(" | 结果=");
    reveal_strlit(" | 耗时=");
    let first = 11int + peer.len();
    let second = first + 6 + operation.len();
    let third = second + 6 + result.len();
    assert(line.take(11) =~= "[实时反馈] 客户端="@);
    assert(line.subrange(11, first) =~= peer);
    assert(line.subrange(first, first + 6) =~= " | 操作="@);
    assert(line.subrange(first + 6, second) =~= operation);
    assert(line.subrange(second, second + 6) =~= " | 结果="@);
    assert(line.subrange(second + 6, third) =~= result);
    assert(line.subrange(third, third + 6) =~= " | 耗时="@);
    assert(line.skip(third + 6) =~= latency_text(micros));
}

/// What stopped the server is told with what was being done, and with the cause.
pub proof fn law_server_errors_tell_the_cause(error: ServerErrorView)
    ensures
        error matches ServerErrorView::Io { action, source } ==> action.is_prefix_of(error.text())
            && source.is_suffix_of(error.text()),
        error matches ServerErrorView::Engine(cause) ==> cause.text().is_suffix_of(error.text()),
{
    let text = error.text();
    match error {
        ServerErrorView::Io { action, source } => {
            assert(text.take(action.len() as int) =~= action);
            assert(text.skip(text.len() - source.len()) =~= source);
        },
        ServerErrorView::Engine(cause) => {
            assert(text.skip(text.len() - cause.text().len()) =~= cause.text());
        },
    }
}

} // verus!
