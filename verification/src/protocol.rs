//! The line protocol that client and server share.
//!
//! Every request and every response ends with a line break. The protocol frames, parses and
//! formats; it does not touch the engine.

use vstd::prelude::*;
use vstd::utf8::{decode_utf8, decode_utf8_encode_utf8, encode_scalar, encode_utf8, valid_utf8};

use crate::domain::{Command, CommandView, Reply, ReplyView, SetOutcome, SetOutcomeView};
use crate::lines::{
    copy_bytes, law_line_ends_at_its_break, lemma_line_len, lemma_line_len_append, line_end,
    line_len,
};
use crate::metrics::MetricsSnapshot;
use crate::number::{
    all_digits, decimal, decimal_text, law_parse_of_decimal, lemma_decimal_digits, parsed,
};
use crate::text::{
    chars_of, decode_text, is_white_space, join, join_texts, law_split_of_join, law_words_of_join,
    lemma_decode_of_encode, lemma_encode_ascii, lemma_encode_concat, lemma_encode_len,
    lemma_encode_scalar_low_byte, lemma_low_byte_occurs, lemma_words_shape, same_text, split,
    split_words, to_upper, upper, views, words,
};
use crate::{option_view, result_view};

verus! {

/// The largest number of bytes of a frame, its line break included.
pub const MAX_FRAME_BYTES: usize = 64 * 1024;

/// What a client can ask of the server.
#[derive(Debug, Clone, PartialEq, Eq)]
pub enum Request {
    Execute(Command),
    Save,
    /// Asks to remove all data; that is only done after a confirmation.
    Clear,
    /// Confirms that all data is to be removed.
    Yes,
    /// Declines to remove all data.
    No,
    Quit,
}

/// A request over character sequences.
pub ghost enum RequestView {
    Execute(CommandView),
    Save,
    Clear,
    Yes,
    No,
    Quit,
}

impl View for Request {
    type V = RequestView;

    open spec fn view(&self) -> RequestView {
        match self {
            Request::Execute(command) => RequestView::Execute(command@),
            Request::Save => RequestView::Save,
            Request::Clear => RequestView::Clear,
            Request::Yes => RequestView::Yes,
            Request::No => RequestView::No,
            Request::Quit => RequestView::Quit,
        }
    }
}

/// Why a frame or a request was refused. The cause of a failed read is held as text.
#[derive(Debug, Clone, PartialEq, Eq)]
pub enum ProtocolError {
    Io(String),
    EmptyCommand,
    UnknownCommand(String),
    MissingArgument(&'static str),
    ExtraArguments,
    FrameTooLarge,
    TruncatedFrame,
    InvalidUtf8,
}

/// A protocol error over character sequences.
pub ghost enum ProtocolErrorView {
    Io(Seq<char>),
    EmptyCommand,
    UnknownCommand(Seq<char>),
    MissingArgument(Seq<char>),
    ExtraArguments,
    FrameTooLarge,
    TruncatedFrame,
    InvalidUtf8,
}

impl View for ProtocolError {
    type V = ProtocolErrorView;

    open spec fn view(&self) -> ProtocolErrorView {
        match self {
            ProtocolError::Io(cause) => ProtocolErrorView::Io(cause@),
            ProtocolError::EmptyCommand => ProtocolErrorView::EmptyCommand,
            ProtocolError::UnknownCommand(name) => ProtocolErrorView::UnknownCommand(name@),
            ProtocolError::MissingArgument(name) => ProtocolErrorView::MissingArgument(name@),
            ProtocolError::ExtraArguments => ProtocolErrorView::ExtraArguments,
            ProtocolError::FrameTooLarge => ProtocolErrorView::FrameTooLarge,
            ProtocolError::TruncatedFrame => ProtocolErrorView::TruncatedFrame,
            ProtocolError::InvalidUtf8 => ProtocolErrorView::InvalidUtf8,
        }
    }
}

impl ProtocolErrorView {
    /// The text that describes the error.
    pub open spec fn text(self) -> Seq<char> {
        match self {
            ProtocolErrorView::Io(cause) => "读取网络帧失败："@ + cause,
            ProtocolErrorView::EmptyCommand => "命令不能为空"@,
            ProtocolErrorView::UnknownCommand(name) => "未知命令："@ + name,
            ProtocolErrorView::MissingArgument(name) => "缺少参数："@ + name,
            ProtocolErrorView::ExtraArguments => "参数过多"@,
            ProtocolErrorView::FrameTooLarge => "请求超过 64 KiB 限制"@,
            ProtocolErrorView::TruncatedFrame => "连接在完整命令到达前关闭"@,
            ProtocolErrorView::InvalidUtf8 => "请求不是合法 UTF-8"@,
        }
    }
}

fn two_texts(first: &str, second: &str) -> (text: String)
    ensures
        text@ == first@ + second@,
{
    let mut text = first.to_owned();
    text.append(second);
    text
}

impl ProtocolError {
    /// The text that describes the error.
    #[must_use]
    pub fn message(&self) -> (text: String)
        ensures
            text@ == self@.text(),
    {
        match self {
            ProtocolError::Io(cause) => two_texts("读取网络帧失败：", cause.as_str()),
            ProtocolError::EmptyCommand => "命令不能为空".to_owned(),
            ProtocolError::UnknownCommand(name) => two_texts("未知命令：", name.as_str()),
            ProtocolError::MissingArgument(name) => two_texts("缺少参数：", name),
            ProtocolError::ExtraArguments => "参数过多".to_owned(),
            ProtocolError::FrameTooLarge => "请求超过 64 KiB 限制".to_owned(),
            ProtocolError::TruncatedFrame => "连接在完整命令到达前关闭".to_owned(),
            ProtocolError::InvalidUtf8 => "请求不是合法 UTF-8".to_owned(),
        }
    }
}

// ---------------------------------------------------------------------------------------
// Frames
// ---------------------------------------------------------------------------------------

/// A frame without its line break, and without the carriage return before it.
pub open spec fn frame_body(bytes: Seq<u8>) -> Seq<u8> {
    let line = bytes.drop_last();
    if line.len() > 0 && line.last() == 0x0d {
        line.drop_last()
    } else {
        line
    }
}

/// What the bytes of a frame say. No bytes mean that the connection has ended.
pub open spec fn decoded_frame(bytes: Seq<u8>) -> Result<Option<Seq<char>>, ProtocolErrorView> {
    if bytes.len() == 0 {
        Ok(None)
    } else if bytes.len() > MAX_FRAME_BYTES {
        Err(ProtocolErrorView::FrameTooLarge)
    } else if bytes.last() != 0x0a {
        Err(ProtocolErrorView::TruncatedFrame)
    } else if !valid_utf8(frame_body(bytes)) {
        Err(ProtocolErrorView::InvalidUtf8)
    } else {
        Ok(Some(decode_utf8(frame_body(bytes))))
    }
}

/// The number of bytes that are read for the next frame: up to the line break, or one byte
/// more than a frame may have.
pub open spec fn frame_len(rest: Seq<u8>) -> nat {
    if line_len(rest) <= MAX_FRAME_BYTES {
        line_len(rest)
    } else {
        (MAX_FRAME_BYTES + 1) as nat
    }
}

/// The frame of an input that begins at a position, and the position behind it.
pub open spec fn next_frame(input: Seq<u8>, position: nat) -> (
    Result<Option<Seq<char>>, ProtocolErrorView>,
    nat,
) {
    let rest = input.skip(position as int);
    let len = frame_len(rest);
    (decoded_frame(rest.take(len as int)), position + len)
}

/// Reads a frame from its bytes.
pub fn decode_frame(bytes: Vec<u8>) -> (result: Result<Option<String>, ProtocolError>)
    ensures
        match result {
            Ok(line) => decoded_frame(bytes@) == Ok::<_, ProtocolErrorView>(option_view(line)),
            Err(error) => decoded_frame(bytes@) == Err::<Option<Seq<char>>, _>(error@),
        },
{
    if bytes.len() == 0 {
        return Ok(None);
    }
    if bytes.len() > MAX_FRAME_BYTES {
        return Err(ProtocolError::FrameTooLarge);
    }
    if bytes[bytes.len() - 1] != 0x0a {
        return Err(ProtocolError::TruncatedFrame);
    }
    let mut end: usize = bytes.len() - 1;
    if end > 0 && bytes[end - 1] == 0x0d {
        end = end - 1;
    }
    let body = copy_bytes(bytes.as_slice(), 0, end);
    proof {
        let line = bytes@.drop_last();
        assert(line.len() > 0 ==> line.last() == bytes@[line.len() - 1]);
        assert(body@ =~= frame_body(bytes@));
    }
    match decode_text(body) {
        Some(line) => Ok(Some(line)),
        None => Err(ProtocolError::InvalidUtf8),
    }
}

/// Reads the next frame of an input, and moves the position behind it.
///
/// A stream of bytes has no message bounds, so that a frame is what ends with a line break,
/// however the bytes came in.
pub fn read_frame(input: &[u8], position: &mut usize) -> (result: Result<
    Option<String>,
    ProtocolError,
>)
    requires
        *old(position) <= input@.len(),
    ensures
        ({
            let (frame, end) = next_frame(input@, *old(position) as nat);
            &&& *final(position) == end
            &&& *final(position) <= input@.len()
            &&& match result {
                Ok(line) => frame == Ok::<_, ProtocolErrorView>(option_view(line)),
                Err(error) => frame == Err::<Option<Seq<char>>, _>(error@),
            }
        }),
{
    let from: usize = *position;
    let mut end: usize = line_end(input, from);
    if end - from > MAX_FRAME_BYTES {
        end = from + MAX_FRAME_BYTES + 1;
    }
    let frame = copy_bytes(input, from, end);
    assert(frame@ =~= input@.skip(from as int).take(frame_len(input@.skip(from as int)) as int));
    *position = end;
    decode_frame(frame)
}

/// A line with its line break.
#[must_use]
pub fn terminate_frame(line: &str) -> (frame: String)
    ensures
        frame@ == line@.push('\n'),
{
    let mut frame = line.to_owned();
    frame.push('\n');
    frame
}

// ---------------------------------------------------------------------------------------
// Requests
// ---------------------------------------------------------------------------------------

/// The request that words make.
pub open spec fn request_of_words(parts: Seq<Seq<char>>) -> Result<RequestView, ProtocolErrorView> {
    if parts.len() == 0 {
        Err(ProtocolErrorView::EmptyCommand)
    } else {
        let name = upper(parts[0]);
        if name == "SET"@ || name == "UPDATE"@ {
            if parts.len() == 1 {
                Err(ProtocolErrorView::MissingArgument("key"@))
            } else if parts.len() == 2 {
                Err(ProtocolErrorView::MissingArgument("value"@))
            } else {
                let key = parts[1];
                let value = join(parts.skip(2), seq![' ']);
                if name == "SET"@ {
                    Ok(RequestView::Execute(CommandView::SetValue { key, value }))
                } else {
                    Ok(RequestView::Execute(CommandView::Update { key, value }))
                }
            }
        } else if name == "GET"@ || name == "DELETE"@ {
            if parts.len() == 1 {
                Err(ProtocolErrorView::MissingArgument("key"@))
            } else if parts.len() > 2 {
                Err(ProtocolErrorView::ExtraArguments)
            } else if name == "GET"@ {
                Ok(RequestView::Execute(CommandView::Get { key: parts[1] }))
            } else {
                Ok(RequestView::Execute(CommandView::Delete { key: parts[1] }))
            }
        } else {
            match word_request(name) {
                None => Err(ProtocolErrorView::UnknownCommand(name)),
                Some(request) => if parts.len() > 1 {
                    Err(ProtocolErrorView::ExtraArguments)
                } else {
                    Ok(request)
                },
            }
        }
    }
}

/// The request that consists of one word.
pub open spec fn word_request(name: Seq<char>) -> Option<RequestView> {
    if name == "KEYS"@ {
        Some(RequestView::Execute(CommandView::Keys))
    } else if name == "STATUS"@ {
        Some(RequestView::Execute(CommandView::Status))
    } else if name == "SAVE"@ {
        Some(RequestView::Save)
    } else if name == "CLEAR"@ {
        Some(RequestView::Clear)
    } else if name == "YES"@ {
        Some(RequestView::Yes)
    } else if name == "NO"@ {
        Some(RequestView::No)
    } else if name == "QUIT"@ || name == "EXIT"@ {
        Some(RequestView::Quit)
    } else {
        None
    }
}

fn request_of_word(name: &str) -> (request: Option<Request>)
    ensures
        option_view(request) == word_request(name@),
{
    if same_text(name, "KEYS") {
        Some(Request::Execute(Command::Keys))
    } else if same_text(name, "STATUS") {
        Some(Request::Execute(Command::Status))
    } else if same_text(name, "SAVE") {
        Some(Request::Save)
    } else if same_text(name, "CLEAR") {
        Some(Request::Clear)
    } else if same_text(name, "YES") {
        Some(Request::Yes)
    } else if same_text(name, "NO") {
        Some(Request::No)
    } else if same_text(name, "QUIT") || same_text(name, "EXIT") {
        Some(Request::Quit)
    } else {
        None
    }
}

/// The words from the given place on.
fn words_from(parts: &Vec<String>, from: usize) -> (rest: Vec<String>)
    requires
        from <= parts@.len(),
    ensures
        views(rest@) == views(parts@).skip(from as int),
{
    let mut rest: Vec<String> = Vec::new();
    let mut i: usize = from;
    assert(views(rest@) =~= views(parts@).subrange(from as int, from as int));
    while i < parts.len()
        invariant
            from <= i <= parts@.len(),
            views(rest@) == views(parts@).subrange(from as int, i as int),
        decreases parts@.len() - i,
    {
        let ghost before = rest@;
        rest.push(parts[i].clone());
        proof {
            let all = views(parts@);
            assert(views(rest@) =~= views(before).push(all[i as int]));
            assert(all.subrange(from as int, i + 1) =~= all.subrange(from as int, i as int).push(
                all[i as int],
            ));
        }
        i += 1;
    }
    assert(views(rest@) =~= views(parts@).skip(from as int));
    rest
}

/// The word at a place, or the error that it is missing.
fn required_part(parts: &Vec<String>, at: usize, name: &'static str) -> (result: Result<
    String,
    ProtocolError,
>)
    ensures
        result_view(result) == (if at < parts@.len() {
            Ok::<Seq<char>, ProtocolErrorView>(parts@[at as int]@)
        } else {
            Err(ProtocolErrorView::MissingArgument(name@))
        }),
{
    if at < parts.len() {
        Ok(parts[at].clone())
    } else {
        Err(ProtocolError::MissingArgument(name))
    }
}

/// That there are no more words than the given number.
fn ensure_no_extra_parts(parts: &Vec<String>, expected: usize) -> (result: Result<
    (),
    ProtocolError,
>)
    ensures
        result_view(result) == (if parts@.len() > expected {
            Err::<(), ProtocolErrorView>(ProtocolErrorView::ExtraArguments)
        } else {
            Ok(())
        }),
{
    if parts.len() > expected {
        Err(ProtocolError::ExtraArguments)
    } else {
        Ok(())
    }
}

/// Reads a request. A key holds no white space; a value may hold single blanks.
pub fn parse_request(line: &str) -> (result: Result<Request, ProtocolError>)
    ensures
        result_view(result) == request_of_words(words(line@)),
{
    let parts = split_words(line);
    assert(forall|i: int| 0 <= i < parts@.len() ==> #[trigger] parts@[i]@ == views(parts@)[i]);
    if parts.len() == 0 {
        return Err(ProtocolError::EmptyCommand);
    }
    let name = to_upper(parts[0].as_str());
    if same_text(name.as_str(), "SET") || same_text(name.as_str(), "UPDATE") {
        let key = match required_part(&parts, 1, "key") {
            Ok(key) => key,
            Err(error) => {
                return Err(error);
            },
        };
        let value_parts = words_from(&parts, 2);
        if value_parts.len() == 0 {
            return Err(ProtocolError::MissingArgument("value"));
        }
        let value = join_texts(&value_parts, " ");
        proof {
            reveal_strlit(" ");
            assert(" "@ =~= seq![' ']);
        }
        if same_text(name.as_str(), "SET") {
            Ok(Request::Execute(Command::SetValue { key, value }))
        } else {
            Ok(Request::Execute(Command::Update { key, value }))
        }
    } else if same_text(name.as_str(), "GET") || same_text(name.as_str(), "DELETE") {
        let key = match required_part(&parts, 1, "key") {
            Ok(key) => key,
            Err(error) => {
                return Err(error);
            },
        };
        match ensure_no_extra_parts(&parts, 2) {
            Ok(()) => {},
            Err(error) => {
                return Err(error);
            },
        }
        if same_text(name.as_str(), "GET") {
            Ok(Request::Execute(Command::Get { key }))
        } else {
            Ok(Request::Execute(Command::Delete { key }))
        }
    } else {
        match request_of_word(name.as_str()) {
            None => Err(ProtocolError::UnknownCommand(name)),
            Some(request) => match ensure_no_extra_parts(&parts, 1) {
                Ok(()) => Ok(request),
                Err(error) => Err(error),
            },
        }
    }
}

// ---------------------------------------------------------------------------------------
// Responses
// ---------------------------------------------------------------------------------------

/// A character as it stands in a field of a response.
pub open spec fn escaped_char(c: char) -> Seq<char> {
    if c == '\\' {
        seq!['\\', '\\']
    } else if c == '\t' {
        seq!['\\', 't']
    } else if c == '\r' {
        seq!['\\', 'r']
    } else if c == '\n' {
        seq!['\\', 'n']
    } else {
        seq![c]
    }
}

/// A text as it stands in a field of a response: without tabs and line breaks.
pub open spec fn escaped(s: Seq<char>) -> Seq<char>
    decreases s.len(),
{
    if s.len() == 0 {
        Seq::empty()
    } else {
        escaped(s.drop_last()) + escaped_char(s.last())
    }
}

/// Texts as they stand in the fields of a response.
pub open spec fn all_escaped(texts: Seq<Seq<char>>) -> Seq<Seq<char>> {
    texts.map_values(|text: Seq<char>| escaped(text))
}

/// The fields of the response to a command.
pub open spec fn reply_fields(reply: ReplyView) -> Seq<Seq<char>> {
    match reply {
        ReplyView::SetValue(SetOutcomeView::Created) => seq!["OK"@, "CREATED"@],
        ReplyView::SetValue(SetOutcomeView::Overwritten { old_value }) => seq![
            "OK"@,
            "OVERWRITTEN"@,
            escaped(old_value),
        ],
        ReplyView::Updated { old_value } => seq!["OK"@, "UPDATED"@, escaped(old_value)],
        ReplyView::Value(value) => seq!["VALUE"@, escaped(value)],
        ReplyView::Deleted { value } => seq!["OK"@, "DELETED"@, escaped(value)],
        ReplyView::Keys(keys) => seq!["KEYS"@, decimal(keys.len())] + all_escaped(keys),
        ReplyView::Status { key_count } => seq![
            "STATUS"@,
            "running"@,
            "keys="@ + decimal(key_count),
        ],
    }
}

/// A response with the given fields.
pub open spec fn response(fields: Seq<Seq<char>>) -> Seq<char> {
    join(fields, seq!['\t'])
}

/// The fields of an error response.
pub open spec fn error_fields(code: Seq<char>, message: Seq<char>) -> Seq<Seq<char>> {
    seq!["ERR"@, escaped(code), escaped(message)]
}

/// The number of commands that did not fail.
pub open spec fn succeeded(metrics: MetricsSnapshot) -> nat {
    if metrics.commands_total >= metrics.commands_failed {
        (metrics.commands_total - metrics.commands_failed) as nat
    } else {
        0
    }
}

/// The fields of the status response of the server.
pub open spec fn status_fields(
    key_count: nat,
    wal_bytes: nat,
    writes_since_checkpoint: nat,
    checkpoint_after_writes: nat,
    metrics: MetricsSnapshot,
) -> Seq<Seq<char>> {
    seq![
        "STATUS"@,
        "running"@,
        "keys="@ + decimal(key_count),
        "active_clients="@ + decimal(metrics.active_clients as nat),
        "total_connections="@ + decimal(metrics.total_connections as nat),
        "commands_total="@ + decimal(metrics.commands_total as nat),
        "commands_succeeded="@ + decimal(succeeded(metrics)),
        "commands_failed="@ + decimal(metrics.commands_failed as nat),
        "checkpoint_attempts="@ + decimal(metrics.checkpoint_attempts as nat),
        "checkpoint_failures="@ + decimal(metrics.checkpoint_failures as nat),
        "writes_since_checkpoint="@ + decimal(writes_since_checkpoint),
        "checkpoint_after_writes="@ + decimal(checkpoint_after_writes),
        "bytes_received="@ + decimal(metrics.bytes_received as nat),
        "bytes_sent="@ + decimal(metrics.bytes_sent as nat),
        "wal_bytes="@ + decimal(wal_bytes),
        "uptime_seconds="@ + decimal(metrics.uptime_seconds as nat),
    ]
}

/// A text as it stands in a field of a response.
pub fn escape_field(value: &str) -> (out: String)
    ensures
        out@ == escaped(value@),
{
    let chars = chars_of(value);
    let mut out = String::new();
    let mut i: usize = 0;
    while i < chars.len()
        invariant
            i <= chars@.len(),
            out@ == escaped(chars@.take(i as int)),
        decreases chars@.len() - i,
    {
        let c: char = chars[i];
        proof {
            assert(chars@.take(i + 1).drop_last() =~= chars@.take(i as int));
        }
        if c == '\\' {
            out.push('\\');
            out.push('\\');
        } else if c == '\t' {
            out.push('\\');
            out.push('t');
        } else if c == '\r' {
            out.push('\\');
            out.push('r');
        } else if c == '\n' {
            out.push('\\');
            out.push('n');
        } else {
            out.push(c);
        }
        assert(out@ =~= escaped(chars@.take(i as int)) + escaped_char(c));
        i += 1;
    }
    assert(chars@.take(i as int) =~= chars@);
    out
}

fn respond(fields: &Vec<String>) -> (text: String)
    ensures
        text@ == response(views(fields@)),
{
    proof {
        reveal_strlit("\t");
        assert("\t"@ =~= seq!['\t']);
    }
    join_texts(fields, "\t")
}

fn two_fields(first: &str, second: String) -> (text: String)
    ensures
        text@ == response(seq![first@, second@]),
{
    let mut fields: Vec<String> = Vec::new();
    fields.push(first.to_owned());
    fields.push(second);
    assert(views(fields@) =~= seq![first@, second@]);
    respond(&fields)
}

fn three_fields(first: &str, second: &str, third: String) -> (text: String)
    ensures
        text@ == response(seq![first@, second@, third@]),
{
    let mut fields: Vec<String> = Vec::new();
    fields.push(first.to_owned());
    fields.push(second.to_owned());
    fields.push(third);
    assert(views(fields@) =~= seq![first@, second@, third@]);
    respond(&fields)
}

fn counted(name: &str, count: u64) -> (field: String)
    ensures
        field@ == name@ + decimal(count as nat),
{
    two_texts(name, decimal_text(count as u128).as_str())
}

fn format_keys(keys: &Vec<String>) -> (text: String)
    ensures
        text@ == response(reply_fields(ReplyView::Keys(views(keys@)))),
{
    let mut fields: Vec<String> = Vec::new();
    fields.push("KEYS".to_owned());
    fields.push(decimal_text(keys.len() as u128));
    let ghost head = seq!["KEYS"@, decimal(keys@.len())];
    let ghost all = all_escaped(views(keys@));
    let mut i: usize = 0;
    assert(views(fields@) =~= head + all.take(0));
    while i < keys.len()
        invariant
            i <= keys@.len(),
            all == all_escaped(views(keys@)),
            views(fields@) == head + all.take(i as int),
        decreases keys@.len() - i,
    {
        let ghost before = fields@;
        fields.push(escape_field(keys[i].as_str()));
        proof {
            assert(all[i as int] == escaped(views(keys@)[i as int]));
            assert(views(fields@) =~= views(before).push(all[i as int]));
            assert(head + all.take(i + 1) =~= (head + all.take(i as int)).push(all[i as int]));
        }
        i += 1;
    }
    assert(all.take(i as int) =~= all);
    respond(&fields)
}

/// The response to a command: one line, whatever the reply holds.
#[must_use]
pub fn format_reply(reply: Reply) -> (text: String)
    ensures
        text@ == response(reply_fields(reply@)),
{
    match reply {
        Reply::SetValue(SetOutcome::Created) => two_fields("OK", "CREATED".to_owned()),
        Reply::SetValue(SetOutcome::Overwritten { old_value }) => three_fields(
            "OK",
            "OVERWRITTEN",
            escape_field(old_value.as_str()),
        ),
        Reply::Updated { old_value } => three_fields(
            "OK",
            "UPDATED",
            escape_field(old_value.as_str()),
        ),
        Reply::Value(value) => two_fields("VALUE", escape_field(value.as_str())),
        Reply::Deleted { value } => three_fields("OK", "DELETED", escape_field(value.as_str())),
        Reply::Keys(keys) => format_keys(&keys),
        Reply::Status(status) => three_fields(
            "STATUS",
            "running",
            counted("keys=", status.key_count as u64),
        ),
    }
}

/// An error response.
#[must_use]
pub fn format_error(code: &str, message: &str) -> (text: String)
    ensures
        text@ == response(error_fields(code@, message@)),
{
    three_fields("ERR", escape_field(code).as_str(), escape_field(message))
}

/// The status response of the server. Its fields are pairs of a name and a value, which
/// clients and scripts can tell apart.
#[must_use]
pub fn format_server_status(
    key_count: usize,
    wal_bytes: u64,
    writes_since_checkpoint: u64,
    checkpoint_after_writes: u64,
    metrics: &MetricsSnapshot,
) -> (text: String)
    ensures
        text@ == response(
            status_fields(
                key_count as nat,
                wal_bytes as nat,
                writes_since_checkpoint as nat,
                checkpoint_after_writes as nat,
                *metrics,
            ),
        ),
{
    let commands_succeeded: u64 = if metrics.commands_total >= metrics.commands_failed {
        metrics.commands_total - metrics.commands_failed
    } else {
        0
    };
    let mut fields: Vec<String> = Vec::new();
    fields.push("STATUS".to_owned());
    fields.push("running".to_owned());
    fields.push(counted("keys=", key_count as u64));
    fields.push(counted("active_clients=", metrics.active_clients as u64));
    fields.push(counted("total_connections=", metrics.total_connections));
    fields.push(counted("commands_total=", metrics.commands_total));
    fields.push(counted("commands_succeeded=", commands_succeeded));
    fields.push(counted("commands_failed=", metrics.commands_failed));
    fields.push(counted("checkpoint_attempts=", metrics.checkpoint_attempts));
    fields.push(counted("checkpoint_failures=", metrics.checkpoint_failures));
    fields.push(counted("writes_since_checkpoint=", writes_since_checkpoint));
    fields.push(counted("checkpoint_after_writes=", checkpoint_after_writes));
    fields.push(counted("bytes_received=", metrics.bytes_received));
    fields.push(counted("bytes_sent=", metrics.bytes_sent));
    fields.push(counted("wal_bytes=", wal_bytes));
    fields.push(counted("uptime_seconds=", metrics.uptime_seconds));
    assert(views(fields@) =~= status_fields(
        key_count as nat,
        wal_bytes as nat,
        writes_since_checkpoint as nat,
        checkpoint_after_writes as nat,
        *metrics,
    ));
    respond(&fields)
}

// ---------------------------------------------------------------------------------------
// Laws
// ---------------------------------------------------------------------------------------

/// Whether a text can stand in a field: it holds no tab and no line break.
pub open spec fn plain(field: Seq<char>) -> bool {
    forall|i: int|
        0 <= i < field.len() ==> #[trigger] field[i] != '\t' && field[i] != '\r' && field[i]
            != '\n'
}

/// Whether a text is one line.
pub open spec fn one_line(text: Seq<char>) -> bool {
    forall|i: int| 0 <= i < text.len() ==> #[trigger] text[i] != '\r' && text[i] != '\n'
}

/// The text that a field of a response stands for.
pub open spec fn unescaped(field: Seq<char>) -> Seq<char>
    decreases field.len(),
{
    if field.len() == 0 {
        Seq::empty()
    } else if field[0] == '\\' && field.len() >= 2 {
        let c = if field[1] == 't' {
            '\t'
        } else if field[1] == 'r' {
            '\r'
        } else if field[1] == 'n' {
            '\n'
        } else {
            field[1]
        };
        seq![c] + unescaped(field.skip(2))
    } else {
        seq![field[0]] + unescaped(field.drop_first())
    }
}

/// A text in a field of a response holds no tab and no line break.
pub proof fn law_escaped_text_is_plain(text: Seq<char>)
    ensures
        plain(escaped(text)),
    decreases text.len(),
{
    if text.len() > 0 {
        law_escaped_text_is_plain(text.drop_last());
        let head = escaped(text.drop_last());
        let tail = escaped_char(text.last());
        assert forall|i: int| 0 <= i < escaped(text).len() implies #[trigger] escaped(text)[i]
            != '\t' && escaped(text)[i] != '\r' && escaped(text)[i] != '\n' by {
            if i < head.len() {
                assert(escaped(text)[i] == head[i]);
            } else {
                assert(escaped(text)[i] == tail[i - head.len()]);
            }
        }
    }
}

proof fn lemma_escaped_front(text: Seq<char>)
    requires
        text.len() > 0,
    ensures
        escaped(text) == escaped_char(text[0]) + escaped(text.drop_first()),
    decreases text.len(),
{
    let rest = text.drop_first();
    if text.len() == 1 {
        assert(text.drop_last() =~= Seq::empty());
        assert(rest =~= Seq::empty());
        assert(escaped(text) =~= escaped_char(text[0]) + escaped(rest));
    } else {
        let front = text.drop_last();
        lemma_escaped_front(front);
        assert(front.drop_first() =~= rest.drop_last());
        assert(escaped(text) =~= escaped_char(text[0]) + escaped(rest));
    }
}

/// A text in a field of a response can be read back.
pub proof fn law_escape_round_trip(text: Seq<char>)
    ensures
        unescaped(escaped(text)) == text,
    decreases text.len(),
{
    if text.len() > 0 {
        let rest = text.drop_first();
        law_escape_round_trip(rest);
        lemma_escaped_front(text);
        let field = escaped(text);
        if escaped_char(text[0]).len() == 2 {
            assert(field.skip(2) =~= escaped(rest));
        } else {
            assert(field.drop_first() =~= escaped(rest));
        }
        assert(unescaped(field) =~= text);
    }
}

proof fn lemma_plain_fields(fields: Seq<Seq<char>>)
    requires
        forall|i: int| 0 <= i < fields.len() ==> plain(#[trigger] fields[i]),
    ensures
        one_line(response(fields)),
    decreases fields.len(),
{
    if fields.len() == 1 {
        assert(plain(fields[0]));
    } else if fields.len() > 1 {
        let before = fields.drop_last();
        assert forall|i: int| 0 <= i < before.len() implies plain(#[trigger] before[i]) by {
            assert(before[i] == fields[i]);
        }
        lemma_plain_fields(before);
        let head = response(before);
        let last = fields[fields.len() - 1];
        assert(plain(last));
        let whole = response(fields);
        assert(whole == head + seq!['\t'] + last);
        assert forall|i: int| 0 <= i < whole.len() implies #[trigger] whole[i] != '\r' && whole[i]
            != '\n' by {
            if i < head.len() {
                assert(whole[i] == head[i]);
            } else if i == head.len() {
                assert(whole[i] == '\t');
            } else {
                assert(whole[i] == last[i - head.len() - 1]);
            }
        }
    }
}

proof fn lemma_plain_decimal(n: nat)
    ensures
        plain(decimal(n)),
{
    lemma_decimal_digits(n);
    assert forall|i: int| 0 <= i < decimal(n).len() implies #[trigger] decimal(n)[i] != '\t'
        && decimal(n)[i] != '\r' && decimal(n)[i] != '\n' by {
        assert(all_digits(decimal(n)));
    }
}

proof fn lemma_reply_fields_plain(reply: ReplyView)
    ensures
        forall|i: int| 0 <= i < reply_fields(reply).len() ==> plain(
            #[trigger] reply_fields(reply)[i],
        ),
        reply_fields(reply).len() >= 2,
{
    reveal_strlit("OK");
    reveal_strlit("CREATED");
    reveal_strlit("OVERWRITTEN");
    reveal_strlit("UPDATED");
    reveal_strlit("VALUE");
    reveal_strlit("DELETED");
    reveal_strlit("KEYS");
    reveal_strlit("STATUS");
    reveal_strlit("running");
    reveal_strlit("keys=");
    let fields = reply_fields(reply);
    match reply {
        ReplyView::SetValue(SetOutcomeView::Created) => {},
        ReplyView::SetValue(SetOutcomeView::Overwritten { old_value }) => {
            law_escaped_text_is_plain(old_value);
        },
        ReplyView::Updated { old_value } => {
            law_escaped_text_is_plain(old_value);
        },
        ReplyView::Value(value) => {
            law_escaped_text_is_plain(value);
        },
        ReplyView::Deleted { value } => {
            law_escaped_text_is_plain(value);
        },
        ReplyView::Keys(keys) => {
            lemma_plain_decimal(keys.len());
            assert forall|i: int| 0 <= i < fields.len() implies plain(#[trigger] fields[i]) by {
                if i >= 2 {
                    assert(fields[i] == escaped(keys[i - 2]));
                    law_escaped_text_is_plain(keys[i - 2]);
                }
            }
        },
        ReplyView::Status { key_count } => {
            lemma_plain_decimal(key_count);
            let field = "keys="@ + decimal(key_count);
            assert forall|i: int| 0 <= i < field.len() implies #[trigger] field[i] != '\t'
                && field[i] != '\r' && field[i] != '\n' by {
                if i >= 5 {
                    assert(field[i] == decimal(key_count)[i - 5]);
                }
            }
        },
    }
}

/// What a reply holds cannot break the protocol: the response is one line, and splitting it
/// at its tabs gives back its fields. A key or a value is read back from its field by
/// undoing the escapes.
pub proof fn law_reply_is_one_line(reply: ReplyView)
    ensures
        one_line(response(reply_fields(reply))),
        split(response(reply_fields(reply)), '\t') == reply_fields(reply),
{
    let fields = reply_fields(reply);
    lemma_reply_fields_plain(reply);
    lemma_plain_fields(fields);
    assert forall|i: int| 0 <= i < fields.len() implies !(#[trigger] fields[i]).contains('\t') by {
        assert(plain(fields[i]));
    }
    law_split_of_join(fields, '\t');
}

/// An error response is one line with three fields, whatever the code and the message are.
pub proof fn law_error_is_one_line(code: Seq<char>, message: Seq<char>)
    ensures
        one_line(response(error_fields(code, message))),
        split(response(error_fields(code, message)), '\t') == error_fields(code, message),
{
    reveal_strlit("ERR");
    let fields = error_fields(code, message);
    law_escaped_text_is_plain(code);
    law_escaped_text_is_plain(message);
    assert forall|i: int| 0 <= i < fields.len() implies plain(#[trigger] fields[i]) by {}
    lemma_plain_fields(fields);
    assert forall|i: int| 0 <= i < fields.len() implies !(#[trigger] fields[i]).contains('\t') by {
        assert(plain(fields[i]));
    }
    law_split_of_join(fields, '\t');
}

/// The status response of the server is one line, and splitting it at its tabs gives back its
/// fields.
pub proof fn law_status_is_one_line(
    key_count: nat,
    wal_bytes: nat,
    writes_since_checkpoint: nat,
    checkpoint_after_writes: nat,
    metrics: MetricsSnapshot,
)
    ensures
        ({
            let fields = status_fields(
                key_count,
                wal_bytes,
                writes_since_checkpoint,
                checkpoint_after_writes,
                metrics,
            );
            &&& one_line(response(fields))
            &&& split(response(fields), '\t') == fields
        }),
{
    let fields = status_fields(
        key_count,
        wal_bytes,
        writes_since_checkpoint,
        checkpoint_after_writes,
        metrics,
    );
    reveal_strlit("STATUS");
    reveal_strlit("running");
    reveal_strlit("keys=");
    reveal_strlit("active_clients=");
    reveal_strlit("total_connections=");
    reveal_strlit("commands_total=");
    reveal_strlit("commands_succeeded=");
    reveal_strlit("commands_failed=");
    reveal_strlit("checkpoint_attempts=");
    reveal_strlit("checkpoint_failures=");
    reveal_strlit("writes_since_checkpoint=");
    reveal_strlit("checkpoint_after_writes=");
    reveal_strlit("bytes_received=");
    reveal_strlit("bytes_sent=");
    reveal_strlit("wal_bytes=");
    reveal_strlit("uptime_seconds=");
    lemma_plain_count("keys="@, key_count);
    lemma_plain_count("active_clients="@, metrics.active_clients as nat);
    lemma_plain_count("total_connections="@, metrics.total_connections as nat);
    lemma_plain_count("commands_total="@, metrics.commands_total as nat);
    lemma_plain_count("commands_succeeded="@, succeeded(metrics));
    lemma_plain_count("commands_failed="@, metrics.commands_failed as nat);
    lemma_plain_count("checkpoint_attempts="@, metrics.checkpoint_attempts as nat);
    lemma_plain_count("checkpoint_failures="@, metrics.checkpoint_failures as nat);
    lemma_plain_count("writes_since_checkpoint="@, writes_since_checkpoint);
    lemma_plain_count("checkpoint_after_writes="@, checkpoint_after_writes);
    lemma_plain_count("bytes_received="@, metrics.bytes_received as nat);
    lemma_plain_count("bytes_sent="@, metrics.bytes_sent as nat);
    lemma_plain_count("wal_bytes="@, wal_bytes);
    lemma_plain_count("uptime_seconds="@, metrics.uptime_seconds as nat);
    assert forall|i: int| 0 <= i < fields.len() implies plain(#[trigger] fields[i]) by {}
    lemma_plain_fields(fields);
    assert forall|i: int| 0 <= i < fields.len() implies !(#[trigger] fields[i]).contains('\t') by {
        assert(plain(fields[i]));
    }
    law_split_of_join(fields, '\t');
}

proof fn lemma_plain_count(name: Seq<char>, count: nat)
    requires
        plain(name),
    ensures
        plain(name + decimal(count)),
{
    lemma_plain_decimal(count);
    let field = name + decimal(count);
    assert forall|i: int| 0 <= i < field.len() implies #[trigger] field[i] != '\t' && field[i]
        != '\r' && field[i] != '\n' by {
        if i < name.len() {
            assert(field[i] == name[i]);
        } else {
            assert(field[i] == decimal(count)[i - name.len()]);
        }
    }
}

/// A frame gives back the line that was sent, and what follows it stays for the next frame.
///
/// The line is one that a frame can carry: it holds no line break, does not end with a
/// carriage return, and fits.
pub proof fn law_frame_round_trip(line: Seq<char>, more: Seq<u8>)
    requires
        !line.contains('\n'),
        line.len() > 0 ==> line.last() != '\r',
        encode_utf8(line).len() < MAX_FRAME_BYTES,
    ensures
        ({
            let frame = encode_utf8(line.push('\n'));
            let input = frame + more;
            &&& frame_len(input) == frame.len()
            &&& input.take(frame_len(input) as int) == frame
            &&& input.skip(frame_len(input) as int) == more
            &&& decoded_frame(frame) == Ok::<_, ProtocolErrorView>(Some(line))
        }),
{
    let body = encode_utf8(line);
    let frame = encode_utf8(line.push('\n'));
    lemma_encode_concat(line, seq!['\n']);
    lemma_encode_ascii('\n');
    assert(line + seq!['\n'] =~= line.push('\n'));
    assert(frame =~= body.push(0x0a));
    lemma_low_byte_occurs(line, 0x0a);
    assert forall|i: int| 0 <= i < frame.len() - 1 implies #[trigger] frame[i] != 0x0a by {
        assert(body[i] == frame[i]);
        assert(body.contains(body[i]));
    }
    lemma_line_len(frame, frame.len() as int);
    lemma_line_len_append(frame, more);
    let input = frame + more;
    assert(input.take(frame.len() as int) =~= frame);
    assert(input.skip(frame.len() as int) =~= more);
    assert(frame.drop_last() =~= body);
    if line.len() > 0 {
        let front = line.drop_last();
        let last = seq![line.last()];
        lemma_encode_concat(front, last);
        assert(front + last =~= line);
        assert(last[0] != '\r');
        assert(!last.contains(0x0du8 as char));
        lemma_low_byte_occurs(last, 0x0d);
        if body.len() > 0 && body.last() == 0x0d {
            let tail = encode_utf8(last);
            if tail.len() > 0 {
                assert(body.last() == tail[tail.len() - 1]);
                assert(tail.contains(tail[tail.len() - 1]));
            } else {
                lemma_decode_of_encode(last);
                assert(tail =~= encode_utf8(Seq::<char>::empty()));
                lemma_decode_of_encode(Seq::empty());
            }
        }
    } else {
        assert(body =~= Seq::<u8>::empty());
    }
    assert(frame_body(frame) == body);
    lemma_decode_of_encode(line);
}

/// Frames are read one after the other: behind any bytes, a line that was sent is read as it
/// was sent, and the next frame begins behind its line break. At the end of the input there is
/// no frame.
pub proof fn law_frames_are_read_in_turn(before: Seq<u8>, line: Seq<char>, more: Seq<u8>)
    requires
        !line.contains('\n'),
        line.len() > 0 ==> line.last() != '\r',
        encode_utf8(line).len() < MAX_FRAME_BYTES,
    ensures
        ({
            let frame = encode_utf8(line.push('\n'));
            next_frame(before + frame + more, before.len()) == (
                Ok::<_, ProtocolErrorView>(Some(line)),
                before.len() + frame.len(),
            )
        }),
        next_frame(before, before.len()) == (
            Ok::<_, ProtocolErrorView>(None::<Seq<char>>),
            before.len(),
        ),
{
    let frame = encode_utf8(line.push('\n'));
    law_frame_round_trip(line, more);
    assert((before + frame + more).skip(before.len() as int) =~= frame + more);
    let rest = before.skip(before.len() as int);
    assert(rest.take(frame_len(rest) as int).len() == 0);
}

/// A request is read back from its words: a SET or an UPDATE whose key is a word and whose
/// value is words with single blanks between them, and a GET or a DELETE of a word.
pub proof fn law_request_round_trip(key: Seq<char>, value_words: Seq<Seq<char>>)
    requires
        words(key) == seq![key],
        words(join(value_words, seq![' '])) == value_words,
        value_words.len() > 0,
    ensures
        ({
            let value = join(value_words, seq![' ']);
            &&& request_of_words(
                words(join(seq!["SET"@, key] + value_words, seq![' '])),
            ) == Ok::<_, ProtocolErrorView>(
                RequestView::Execute(CommandView::SetValue { key, value }),
            )
            &&& request_of_words(
                words(join(seq!["UPDATE"@, key] + value_words, seq![' '])),
            ) == Ok::<_, ProtocolErrorView>(
                RequestView::Execute(CommandView::Update { key, value }),
            )
            &&& request_of_words(words(join(seq!["GET"@, key], seq![' ']))) == Ok::<
                _,
                ProtocolErrorView,
            >(RequestView::Execute(CommandView::Get { key }))
            &&& request_of_words(words(join(seq!["DELETE"@, key], seq![' ']))) == Ok::<
                _,
                ProtocolErrorView,
            >(RequestView::Execute(CommandView::Delete { key }))
        }),
{
    reveal_strlit("SET");
    reveal_strlit("GET");
    reveal_strlit("DELETE");
    reveal_strlit("UPDATE");
    lemma_words_of_command("SET"@, key, value_words);
    lemma_words_of_command("UPDATE"@, key, value_words);
    assert((seq!["SET"@, key] + value_words).skip(2) =~= value_words);
    assert((seq!["UPDATE"@, key] + value_words).skip(2) =~= value_words);
    assert(upper("SET"@) =~= "SET"@);
    assert(upper("UPDATE"@) =~= "UPDATE"@);
    assert("UPDATE"@ != "SET"@) by {
        assert("UPDATE"@.len() != "SET"@.len());
    }
    let none = Seq::<Seq<char>>::empty();
    assert(words(join(none, seq![' '])) =~= none);
    lemma_words_of_command("GET"@, key, none);
    assert(seq!["GET"@, key] + none =~= seq!["GET"@, key]);
    assert(upper("GET"@) =~= "GET"@);
    assert("GET"@ != "SET"@ && "GET"@ != "UPDATE"@) by {
        assert("GET"@[0] != "SET"@[0] && "GET"@.len() != "UPDATE"@.len());
    }
    lemma_words_of_command("DELETE"@, key, none);
    assert(seq!["DELETE"@, key] + none =~= seq!["DELETE"@, key]);
    assert(upper("DELETE"@) =~= "DELETE"@);
    assert("DELETE"@ != "SET"@ && "DELETE"@ != "UPDATE"@ && "DELETE"@ != "GET"@) by {
        assert("DELETE"@[0] != "UPDATE"@[0]);
    }
}

proof fn lemma_words_of_command(name: Seq<char>, key: Seq<char>, value_words: Seq<Seq<char>>)
    requires
        name.len() > 0,
        forall|i: int| 0 <= i < name.len() ==> !is_white_space(#[trigger] name[i]),
        words(key) == seq![key],
        words(join(value_words, seq![' '])) == value_words,
    ensures
        words(join(seq![name, key] + value_words, seq![' '])) == seq![name, key] + value_words,
{
    lemma_words_shape(key);
    assert(words(key)[0] == key);
    let value = join(value_words, seq![' ']);
    lemma_words_shape(value);
    let parts = seq![name, key] + value_words;
    assert forall|i: int| 0 <= i < parts.len() implies (#[trigger] parts[i]).len() > 0 by {
        if i >= 2 {
            assert(parts[i] == words(value)[i - 2]);
        }
    }
    assert forall|i: int, j: int|
        0 <= i < parts.len() && 0 <= j < parts[i].len() implies !is_white_space(
        #[trigger] parts[i][j],
    ) by {
        if i == 1 {
            assert(!is_white_space(words(key)[0][j]));
        } else if i >= 2 {
            assert(!is_white_space(words(value)[i - 2][j]));
        }
    }
    law_words_of_join(parts);
}

/// The key of a command.
pub open spec fn key_of(command: CommandView) -> Option<Seq<char>> {
    match command {
        CommandView::SetValue { key, value } => Some(key),
        CommandView::Update { key, value } => Some(key),
        CommandView::Get { key } => Some(key),
        CommandView::Delete { key } => Some(key),
        _ => None,
    }
}

/// A key that came in with a request is not empty and holds no white space.
pub proof fn law_requested_keys_are_words(line: Seq<char>)
    ensures
        request_of_words(words(line)) matches Ok(RequestView::Execute(command)) ==> (key_of(
            command,
        ) matches Some(key) ==> key.len() > 0 && forall|i: int|
            0 <= i < key.len() ==> !is_white_space(#[trigger] key[i])),
{
    lemma_words_shape(line);
    let parts = words(line);
    if parts.len() > 1 {
        assert(parts[1].len() > 0);
        assert forall|i: int| 0 <= i < parts[1].len() implies !is_white_space(
            #[trigger] parts[1][i],
        ) by {
            assert(!is_white_space(words(line)[1][i]));
        }
    }
}

/// Lower and upper case do not matter in the name of a command.
pub proof fn law_command_names_ignore_case(parts: Seq<Seq<char>>, name: Seq<char>)
    requires
        parts.len() > 0,
        upper(name) == upper(parts[0]),
    ensures
        request_of_words(parts.update(0, name)) == request_of_words(parts),
{
    let other = parts.update(0, name);
    if parts.len() > 2 {
        assert(other.skip(2) =~= parts.skip(2));
    }
}

/// Whether a command name stands alone, without an argument.
pub open spec fn stands_alone(name: Seq<char>) -> bool {
    ||| name == "KEYS"@
    ||| name == "STATUS"@
    ||| name == "SAVE"@
    ||| name == "CLEAR"@
    ||| name == "YES"@
    ||| name == "NO"@
    ||| name == "QUIT"@
    ||| name == "EXIT"@
}

/// The names of all commands.
pub open spec fn command_names() -> Seq<Seq<char>> {
    seq![
        "SET"@,
        "UPDATE"@,
        "GET"@,
        "DELETE"@,
        "KEYS"@,
        "STATUS"@,
        "SAVE"@,
        "CLEAR"@,
        "YES"@,
        "NO"@,
        "QUIT"@,
        "EXIT"@,
    ]
}

/// No two commands have the same name.
pub proof fn lemma_command_names()
    ensures
        forall|i: int, j: int|
            0 <= i < j < 12 ==> #[trigger] command_names()[i] != #[trigger] command_names()[j],
{
    reveal_strlit("SET");
    reveal_strlit("UPDATE");
    reveal_strlit("GET");
    reveal_strlit("DELETE");
    reveal_strlit("KEYS");
    reveal_strlit("STATUS");
    reveal_strlit("SAVE");
    reveal_strlit("CLEAR");
    reveal_strlit("YES");
    reveal_strlit("NO");
    reveal_strlit("QUIT");
    reveal_strlit("EXIT");
    let names = command_names();
    assert forall|i: int, j: int| 0 <= i < j < 12 implies #[trigger] names[i]
        != #[trigger] names[j] by {
        if names[i] == names[j] {
            assert(names[i].len() == names[j].len());
            assert(names[i][0] == names[j][0]);
        }
    }
}

/// No name of a command with arguments stands alone, and no two of them are the same.
pub proof fn lemma_names_with_arguments()
    ensures
        !stands_alone("SET"@),
        !stands_alone("UPDATE"@),
        !stands_alone("GET"@),
        !stands_alone("DELETE"@),
        "SET"@ != "UPDATE"@,
        "SET"@ != "GET"@,
        "SET"@ != "DELETE"@,
        "UPDATE"@ != "GET"@,
        "UPDATE"@ != "DELETE"@,
        "GET"@ != "DELETE"@,
{
    lemma_command_names();
    let names = command_names();
    assert forall|i: int| 0 <= i < 4 implies !stands_alone(#[trigger] names[i]) by {
        assert(names[i] != names[4] && names[i] != names[5] && names[i] != names[6]);
        assert(names[i] != names[7] && names[i] != names[8] && names[i] != names[9]);
        assert(names[i] != names[10] && names[i] != names[11]);
    }
    assert(!stands_alone(names[0]) && !stands_alone(names[1]) && !stands_alone(names[2])
        && !stands_alone(names[3]));
    assert(names[0] != names[1] && names[0] != names[2] && names[0] != names[3]);
    assert(names[2] != names[3] && names[1] != names[2] && names[1] != names[3]);
}

/// A command with a key takes just its arguments: SET and UPDATE a key and a value of one word
/// or more, GET and DELETE a key. All others take none. What is missing or too much is said,
/// and so is a name that is not known.
pub proof fn law_requests_take_their_arguments(parts: Seq<Seq<char>>)
    requires
        parts.len() > 0,
    ensures
        ({
            let name = upper(parts[0]);
            let result = request_of_words(parts);
            let writes = name == "SET"@ || name == "UPDATE"@;
            let looks_up = name == "GET"@ || name == "DELETE"@;
            &&& result is Ok <==> (writes && parts.len() >= 3) || (looks_up && parts.len() == 2)
                || (stands_alone(name) && parts.len() == 1)
            &&& (writes || looks_up) && parts.len() == 1 ==> result == Err::<RequestView, _>(
                ProtocolErrorView::MissingArgument("key"@),
            )
            &&& writes && parts.len() == 2 ==> result == Err::<RequestView, _>(
                ProtocolErrorView::MissingArgument("value"@),
            )
            &&& (looks_up && parts.len() > 2) || (stands_alone(name) && parts.len() > 1) ==> result
                == Err::<RequestView, _>(ProtocolErrorView::ExtraArguments)
            &&& !writes && !looks_up && !stands_alone(name) ==> result == Err::<RequestView, _>(
                ProtocolErrorView::UnknownCommand(name),
            )
        }),
        request_of_words(Seq::empty()) == Err::<RequestView, _>(ProtocolErrorView::EmptyCommand),
{
    lemma_names_with_arguments();
}

/// Each name leads to its own request, in lower or upper case, with the key and the value that
/// follow it.
pub proof fn law_names_lead_to_their_requests(parts: Seq<Seq<char>>)
    requires
        parts.len() > 0,
        request_of_words(parts) is Ok,
    ensures
        ({
            let name = upper(parts[0]);
            let request = request_of_words(parts)->Ok_0;
            let value = join(parts.skip(2), seq![' ']);
            &&& name == "SET"@ <==> request is Execute && request->Execute_0 is SetValue
            &&& name == "UPDATE"@ <==> request is Execute && request->Execute_0 is Update
            &&& name == "GET"@ <==> request is Execute && request->Execute_0 is Get
            &&& name == "DELETE"@ <==> request is Execute && request->Execute_0 is Delete
            &&& name == "KEYS"@ <==> request == RequestView::Execute(CommandView::Keys)
            &&& name == "STATUS"@ <==> request == RequestView::Execute(CommandView::Status)
            &&& name == "SAVE"@ <==> request is Save
            &&& name == "CLEAR"@ <==> request is Clear
            &&& name == "YES"@ <==> request is Yes
            &&& name == "NO"@ <==> request is No
            &&& name == "QUIT"@ || name == "EXIT"@ <==> request is Quit
            &&& request matches RequestView::Execute(command) ==> {
                &&& key_of(command) is Some <==> parts.len() >= 2
                &&& key_of(command) is Some ==> key_of(command)->0 == parts[1]
                &&& command matches CommandView::SetValue { key, value: set } ==> set == value
                &&& command matches CommandView::Update { key, value: set } ==> set == value
            }
        }),
{
    lemma_names_with_arguments();
    lemma_command_names();
    let names = command_names();
    assert(names[4] != names[5] && names[4] != names[6] && names[4] != names[7] && names[4]
        != names[8] && names[4] != names[9] && names[4] != names[10] && names[4] != names[11]);
    assert(names[5] != names[6] && names[5] != names[7] && names[5] != names[8] && names[5]
        != names[9] && names[5] != names[10] && names[5] != names[11]);
    assert(names[6] != names[7] && names[6] != names[8] && names[6] != names[9] && names[6]
        != names[10] && names[6] != names[11]);
    assert(names[7] != names[8] && names[7] != names[9] && names[7] != names[10] && names[7]
        != names[11]);
    assert(names[8] != names[9] && names[8] != names[10] && names[8] != names[11]);
    assert(names[9] != names[10] && names[9] != names[11]);
}

/// A request to quit is one word.
pub proof fn lemma_quit_takes_no_argument(parts: Seq<Seq<char>>)
    requires
        request_of_words(parts) is Ok,
        request_of_words(parts)->Ok_0 is Quit,
    ensures
        parts.len() == 1,
{
}

/// A text without a backslash, a tab or a line break stands in a field as it is, and the parts
/// of a text are escaped one after the other.
pub proof fn law_ordinary_text_is_not_escaped(text: Seq<char>, more: Seq<char>)
    ensures
        plain(text) && !text.contains('\\') ==> escaped(text) == text,
        escaped(text + more) == escaped(text) + escaped(more),
    decreases text.len(), more.len(),
{
    if more.len() > 0 {
        law_ordinary_text_is_not_escaped(text, more.drop_last());
        assert((text + more).drop_last() =~= text + more.drop_last());
        assert(escaped(text + more) =~= escaped(text) + escaped(more));
    } else {
        assert(text + more =~= text);
        assert(escaped(text) + escaped(more) =~= escaped(text));
        if text.len() > 0 && plain(text) && !text.contains('\\') {
            let front = text.drop_last();
            assert forall|i: int| 0 <= i < front.len() implies #[trigger] front[i] != '\t'
                && front[i] != '\r' && front[i] != '\n' && front[i] != '\\' by {
                assert(text[i] == front[i]);
            }
            law_ordinary_text_is_not_escaped(front, more);
            assert(text[text.len() - 1] != '\\' && text[text.len() - 1] != '\t');
            assert(front + seq![text.last()] =~= text);
        } else if text.len() == 0 {
            assert(escaped(text) =~= text);
        }
    }
}

/// A response says what was done: which command succeeded, and the value, the keys or the
/// number that the reply holds, each read back from its field.
pub proof fn law_response_says_what_was_done(reply: ReplyView)
    ensures
        ({
            let fields = split(response(reply_fields(reply)), '\t');
            match reply {
                ReplyView::SetValue(SetOutcomeView::Created) => fields == seq!["OK"@, "CREATED"@],
                ReplyView::SetValue(SetOutcomeView::Overwritten { old_value }) => {
                    &&& fields.len() == 3
                    &&& fields[0] == "OK"@
                    &&& fields[1] == "OVERWRITTEN"@
                    &&& unescaped(fields[2]) == old_value
                },
                ReplyView::Updated { old_value } => {
                    &&& fields.len() == 3
                    &&& fields[0] == "OK"@
                    &&& fields[1] == "UPDATED"@
                    &&& unescaped(fields[2]) == old_value
                },
                ReplyView::Value(value) => {
                    &&& fields.len() == 2
                    &&& fields[0] == "VALUE"@
                    &&& unescaped(fields[1]) == value
                },
                ReplyView::Deleted { value } => {
                    &&& fields.len() == 3
                    &&& fields[0] == "OK"@
                    &&& fields[1] == "DELETED"@
                    &&& unescaped(fields[2]) == value
                },
                ReplyView::Keys(keys) => {
                    &&& fields.len() == keys.len() + 2
                    &&& fields[0] == "KEYS"@
                    &&& parsed(fields[1], 10, keys.len()) == Some(keys.len())
                    &&& forall|i: int|
                        0 <= i < keys.len() ==> unescaped(fields[i + 2]) == #[trigger] keys[i]
                },
                ReplyView::Status { key_count } => {
                    &&& fields.len() == 3
                    &&& fields[0] == "STATUS"@
                    &&& fields[1] == "running"@
                    &&& fields[2].take(5) == "keys="@
                    &&& parsed(fields[2].skip(5), 10, key_count) == Some(key_count)
                },
            }
        }),
{
    let fields = reply_fields(reply);
    law_reply_is_one_line(reply);
    match reply {
        ReplyView::SetValue(SetOutcomeView::Created) => {},
        ReplyView::SetValue(SetOutcomeView::Overwritten { old_value }) => {
            law_escape_round_trip(old_value);
        },
        ReplyView::Updated { old_value } => {
            law_escape_round_trip(old_value);
        },
        ReplyView::Value(value) => {
            law_escape_round_trip(value);
        },
        ReplyView::Deleted { value } => {
            law_escape_round_trip(value);
        },
        ReplyView::Keys(keys) => {
            law_parse_of_decimal(keys.len(), keys.len());
            assert forall|i: int| 0 <= i < keys.len() implies unescaped(fields[i + 2])
                == #[trigger] keys[i] by {
                assert(fields[i + 2] == escaped(keys[i]));
                law_escape_round_trip(keys[i]);
            }
        },
        ReplyView::Status { key_count } => {
            reveal_strlit("keys=");
            law_parse_of_decimal(key_count, key_count);
            assert(fields[2].take(5) =~= "keys="@);
            assert(fields[2].skip(5) =~= decimal(key_count));
        },
    }
}

/// An error response holds its code and its message, each read back from its field.
pub proof fn law_error_says_why(code: Seq<char>, message: Seq<char>)
    ensures
        ({
            let fields = split(response(error_fields(code, message)), '\t');
            &&& fields.len() == 3
            &&& fields[0] == "ERR"@
            &&& unescaped(fields[1]) == code
            &&& unescaped(fields[2]) == message
        }),
{
    law_error_is_one_line(code, message);
    law_escape_round_trip(code);
    law_escape_round_trip(message);
}

/// An error is known by its text: two different errors never read the same, but for the cause
/// of a failed read, which stands in the text as it is.
pub proof fn law_errors_are_known_by_their_text(a: ProtocolErrorView, b: ProtocolErrorView)
    ensures
        a.text() == b.text() ==> a == b,
        a matches ProtocolErrorView::Io(cause) ==> cause.is_suffix_of(a.text()),
        a matches ProtocolErrorView::UnknownCommand(name) ==> name.is_suffix_of(a.text()),
        a matches ProtocolErrorView::MissingArgument(name) ==> name.is_suffix_of(a.text()),
{
    reveal_strlit("读取网络帧失败：");
    reveal_strlit("命令不能为空");
    reveal_strlit("未知命令：");
    reveal_strlit("缺少参数：");
    reveal_strlit("参数过多");
    reveal_strlit("请求超过 64 KiB 限制");
    reveal_strlit("连接在完整命令到达前关闭");
    reveal_strlit("请求不是合法 UTF-8");
    lemma_text_has_end(a);
    lemma_text_has_end(b);
    if a.text() == b.text() {
        assert(a.text()[0] == b.text()[0]);
        assert(a.text()[2] == b.text()[2]);
        match (a, b) {
            (ProtocolErrorView::Io(x), ProtocolErrorView::Io(y)) => {
                assert(x =~= a.text().skip(8));
                assert(y =~= b.text().skip(8));
            },
            (ProtocolErrorView::UnknownCommand(x), ProtocolErrorView::UnknownCommand(y)) => {
                assert(x =~= a.text().skip(5));
                assert(y =~= b.text().skip(5));
            },
            (ProtocolErrorView::MissingArgument(x), ProtocolErrorView::MissingArgument(y)) => {
                assert(x =~= a.text().skip(5));
                assert(y =~= b.text().skip(5));
            },
            _ => {},
        }
    }
}

proof fn lemma_text_has_end(error: ProtocolErrorView)
    ensures
        error matches ProtocolErrorView::Io(cause) ==> cause.is_suffix_of(error.text()),
        error matches ProtocolErrorView::UnknownCommand(name) ==> name.is_suffix_of(error.text()),
        error matches ProtocolErrorView::MissingArgument(name) ==> name.is_suffix_of(error.text()),
{
    let text = error.text();
    match error {
        ProtocolErrorView::Io(cause) => {
            assert(text.skip(text.len() - cause.len()) =~= cause);
        },
        ProtocolErrorView::UnknownCommand(name) => {
            assert(text.skip(text.len() - name.len()) =~= name);
        },
        ProtocolErrorView::MissingArgument(name) => {
            assert(text.skip(text.len() - name.len()) =~= name);
        },
        _ => {},
    }
}

/// What the bytes of a frame are: no bytes mean the end of the connection, more than 64 KiB
/// are refused, a frame without a line break was cut off, and a line is handed out just where
/// the bytes are its encoding with a line break, or a carriage return and a line break, behind
/// it.
pub proof fn law_frames_are_told_apart(bytes: Seq<u8>)
    ensures
        decoded_frame(bytes) == Ok::<_, ProtocolErrorView>(None::<Seq<char>>) <==> bytes.len() == 0,
        decoded_frame(bytes) == Err::<Option<Seq<char>>, _>(ProtocolErrorView::FrameTooLarge)
            <==> bytes.len() > 64 * 1024,
        decoded_frame(bytes) == Err::<Option<Seq<char>>, _>(ProtocolErrorView::TruncatedFrame)
            <==> 0 < bytes.len() <= 64 * 1024 && bytes.last() != 0x0a,
        decoded_frame(bytes) matches Ok(Some(line)) ==> bytes == encode_utf8(line) + seq![0x0au8]
            || bytes == encode_utf8(line) + seq![0x0du8, 0x0au8],
        decoded_frame(bytes) matches Err(error) ==> error is FrameTooLarge || error
            is TruncatedFrame || error is InvalidUtf8,
        decoded_frame(bytes) == Err::<Option<Seq<char>>, _>(ProtocolErrorView::InvalidUtf8)
            ==> !valid_utf8(bytes),
{
    if bytes.len() > 0 && bytes.len() <= MAX_FRAME_BYTES && bytes.last() == 0x0a {
        let body = frame_body(bytes);
        if valid_utf8(body) {
            decode_utf8_encode_utf8(body);
            assert(bytes =~= body + seq![0x0au8] || bytes =~= body + seq![0x0du8, 0x0au8]);
        } else if valid_utf8(bytes) {
            lemma_valid_without_ascii_end(bytes);
            let line = bytes.drop_last();
            if line.len() > 0 && line.last() == 0x0d {
                lemma_valid_without_ascii_end(line);
            }
        }
    }
}

proof fn lemma_valid_without_ascii_end(bytes: Seq<u8>)
    requires
        bytes.len() > 0,
        bytes.last() < 0x80,
        valid_utf8(bytes),
    ensures
        valid_utf8(bytes.drop_last()),
{
    let text = decode_utf8(bytes);
    decode_utf8_encode_utf8(bytes);
    if text.len() == 0 {
        assert(encode_utf8(text) =~= Seq::<u8>::empty());
    } else {
        let front = text.drop_last();
        let last = text.last();
        lemma_encode_concat(front, seq![last]);
        assert(front + seq![last] =~= text);
        let tail = encode_utf8(seq![last]);
        assert(seq![last].drop_first() =~= Seq::empty());
        assert(encode_utf8(Seq::<char>::empty()) =~= Seq::<u8>::empty());
        assert(tail =~= encode_scalar(last as u32)) by {
            assert(seq![last][0] == last);
        }
        lemma_encode_len(seq![last]);
        assert(tail[tail.len() - 1] == bytes.last());
        lemma_encode_scalar_low_byte(last, tail.len() - 1);
        assert(bytes.drop_last() =~= encode_utf8(front));
        lemma_decode_of_encode(front);
    }
}

/// A carriage return before the line break does not belong to the line.
pub proof fn law_carriage_return_is_left_out(line: Seq<char>)
    requires
        encode_utf8(line).len() + 2 <= MAX_FRAME_BYTES,
    ensures
        decoded_frame(encode_utf8(line) + seq![0x0du8, 0x0au8]) == Ok::<_, ProtocolErrorView>(
            Some(line),
        ),
{
    let bytes = encode_utf8(line) + seq![0x0du8, 0x0au8];
    assert(bytes.drop_last().last() == 0x0d);
    assert(frame_body(bytes) =~= encode_utf8(line));
    lemma_decode_of_encode(line);
}

/// The bytes that are read for a frame are those up to the next line break, with it, or all
/// where there is none; never more than one byte beyond what a frame may have.
pub proof fn law_frame_ends_at_its_break(rest: Seq<u8>)
    ensures
        ({
            let len = frame_len(rest) as int;
            &&& len <= rest.len()
            &&& len <= MAX_FRAME_BYTES + 1
            &&& rest.len() > 0 ==> len > 0
            &&& forall|i: int| 0 <= i < len - 1 ==> #[trigger] rest[i] != 0x0a
            &&& len < rest.len() && len <= MAX_FRAME_BYTES ==> rest[len - 1] == 0x0a
        }),
{
    law_line_ends_at_its_break(rest);
}

/// Every command has succeeded or failed.
pub proof fn law_succeeded_and_failed_add_up(metrics: MetricsSnapshot)
    requires
        metrics.commands_failed <= metrics.commands_total,
    ensures
        succeeded(metrics) + metrics.commands_failed == metrics.commands_total,
{
}

} // verus!
