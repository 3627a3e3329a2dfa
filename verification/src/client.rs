//! What the client sends, and how it shows what comes back.

use vstd::prelude::*;
use vstd::utf8::encode_utf8;

use crate::metrics::MetricsSnapshot;
use crate::number::{
    decimal, decimal_text, law_padded_decimal, law_parse_of_decimal, padded_decimal,
    padded_decimal_text, parse_number_text, parsed,
};
use crate::protocol::{
    decoded_frame, law_frame_round_trip, law_names_lead_to_their_requests, law_status_is_one_line,
    request_of_words, response, status_fields, succeeded, terminate_frame, ProtocolError,
    ProtocolErrorView, MAX_FRAME_BYTES,
};
use crate::result_view;
use crate::server::frame_view;
use crate::text::{
    chars_of, join, join_texts, law_trimming_keeps_the_words, law_trimming_takes_white_space,
    law_words_are_found, lemma_only_word, lemma_split_not_empty, lemma_word_of_letters,
    same_ignoring_case, same_text, split, split_text, text_of, trim_text, trimmed, upper, views,
    words,
};

verus! {

/// Why a request of the client failed. The cause of a failed operation is held as text.
#[derive(Debug, Clone, PartialEq, Eq)]
pub enum ClientError {
    Io { action: &'static str, source: String },
    Protocol(ProtocolError),
    ConnectionClosed,
    InvalidCommand(String),
}

/// A client error over character sequences.
pub ghost enum ClientErrorView {
    Io { action: Seq<char>, source: Seq<char> },
    Protocol(ProtocolErrorView),
    ConnectionClosed,
    InvalidCommand(Seq<char>),
}

impl View for ClientError {
    type V = ClientErrorView;

    open spec fn view(&self) -> ClientErrorView {
        match self {
            ClientError::Io { action, source } => ClientErrorView::Io {
                action: action@,
                source: source@,
            },
            ClientError::Protocol(error) => ClientErrorView::Protocol(error@),
            ClientError::ConnectionClosed => ClientErrorView::ConnectionClosed,
            ClientError::InvalidCommand(reason) => ClientErrorView::InvalidCommand(reason@),
        }
    }
}

impl ClientErrorView {
    /// The text that describes the error.
    pub open spec fn text(self) -> Seq<char> {
        match self {
            ClientErrorView::Io { action, source } => action + "失败："@ + source,
            ClientErrorView::Protocol(error) => "服务器响应格式错误："@ + error.text(),
            ClientErrorView::ConnectionClosed => "服务器在返回响应前关闭了连接"@,
            ClientErrorView::InvalidCommand(reason) => "命令无效："@ + reason,
        }
    }
}

impl ClientError {
    /// The text that describes the error.
    #[must_use]
    pub fn message(&self) -> (text: String)
        ensures
            text@ == self@.text(),
    {
        match self {
            ClientError::Io { action, source } => {
                let mut text = (*action).to_owned();
                text.append("失败：");
                text.append(source.as_str());
                text
            },
            ClientError::Protocol(error) => {
                let mut text = "服务器响应格式错误：".to_owned();
                text.append(error.message().as_str());
                text
            },
            ClientError::ConnectionClosed => "服务器在返回响应前关闭了连接".to_owned(),
            ClientError::InvalidCommand(reason) => {
                let mut text = "命令无效：".to_owned();
                text.append(reason.as_str());
                text
            },
        }
    }
}

// ---------------------------------------------------------------------------------------
// Requests and responses
// ---------------------------------------------------------------------------------------

/// The frame for a command: it must be one line and fit into a frame.
pub open spec fn request_frame_of(command: Seq<char>) -> Result<Seq<char>, ClientErrorView> {
    if command.contains('\n') || command.contains('\r') {
        Err(ClientErrorView::InvalidCommand("一条命令中不能包含换行符"@))
    } else if encode_utf8(command).len() + 1 > MAX_FRAME_BYTES {
        Err(ClientErrorView::InvalidCommand("命令超过 64 KiB 限制"@))
    } else {
        Ok(command.push('\n'))
    }
}

/// The frame to send for a command.
pub fn request_frame(command: &str) -> (result: Result<String, ClientError>)
    ensures
        result_view(result) == request_frame_of(command@),
{
    let chars = chars_of(command);
    let mut i: usize = 0;
    while i < chars.len()
        invariant
            i <= chars@.len(),
            chars@ == command@,
            forall|k: int| 0 <= k < i ==> #[trigger] chars@[k] != '\n' && chars@[k] != '\r',
        decreases chars@.len() - i,
    {
        if chars[i] == '\n' || chars[i] == '\r' {
            assert(command@.contains(chars@[i as int]));
            return Err(ClientError::InvalidCommand("一条命令中不能包含换行符".to_owned()));
        }
        i += 1;
    }
    if command.as_bytes().len() >= MAX_FRAME_BYTES {
        return Err(ClientError::InvalidCommand("命令超过 64 KiB 限制".to_owned()));
    }
    Ok(terminate_frame(command))
}

/// The response that a frame of the server holds.
pub open spec fn received(frame: Result<Option<Seq<char>>, ProtocolErrorView>) -> Result<
    Seq<char>,
    ClientErrorView,
> {
    match frame {
        Err(error) => Err(ClientErrorView::Protocol(error)),
        Ok(None) => Err(ClientErrorView::ConnectionClosed),
        Ok(Some(line)) => Ok(line),
    }
}

/// The response that the next frame of the server holds.
pub fn response_of_frame(frame: Result<Option<String>, ProtocolError>) -> (result: Result<
    String,
    ClientError,
>)
    ensures
        result_view(result) == received(frame_view(frame)),
{
    match frame {
        Err(error) => Err(ClientError::Protocol(error)),
        Ok(None) => Err(ClientError::ConnectionClosed),
        Ok(Some(line)) => Ok(line),
    }
}

/// What an input line of the interactive client asks for.
#[derive(Debug, PartialEq, Eq)]
pub enum ReplAction {
    /// Show the help; nothing is sent.
    Help,
    /// There is no command in the line.
    Nothing,
    /// Send a command, and leave after the response where it says so.
    Send { command: String, quit: bool },
}

/// A client action over character sequences.
pub ghost enum ReplActionView {
    Help,
    Nothing,
    Send { command: Seq<char>, quit: bool },
}

impl View for ReplAction {
    type V = ReplActionView;

    open spec fn view(&self) -> ReplActionView {
        match self {
            ReplAction::Help => ReplActionView::Help,
            ReplAction::Nothing => ReplActionView::Nothing,
            ReplAction::Send { command, quit } => ReplActionView::Send {
                command: command@,
                quit: *quit,
            },
        }
    }
}

/// What an input line of the interactive client asks for.
pub open spec fn repl_action_of(input: Seq<char>) -> ReplActionView {
    let command = trimmed(input);
    if upper(command) == upper("HELP"@) {
        ReplActionView::Help
    } else if command.len() == 0 {
        ReplActionView::Nothing
    } else {
        ReplActionView::Send {
            command,
            quit: upper(command) == upper("QUIT"@) || upper(command) == upper("EXIT"@),
        }
    }
}

/// What an input line of the interactive client asks for.
#[must_use]
pub fn repl_action(input: &str) -> (action: ReplAction)
    ensures
        action@ == repl_action_of(input@),
{
    let command = trim_text(input);
    if same_ignoring_case(command.as_str(), "HELP") {
        ReplAction::Help
    } else if command.as_str().is_empty() {
        ReplAction::Nothing
    } else {
        let quit: bool = same_ignoring_case(command.as_str(), "QUIT") || same_ignoring_case(
            command.as_str(),
            "EXIT",
        );
        ReplAction::Send { command, quit }
    }
}

/// A frame that the client sends is read by the server as the command that was given.
pub proof fn law_sent_command_arrives(command: Seq<char>)
    requires
        request_frame_of(command) is Ok,
    ensures
        decoded_frame(encode_utf8(request_frame_of(command)->Ok_0)) == Ok::<
            _,
            ProtocolErrorView,
        >(Some(command)),
{
    if command.len() > 0 {
        assert(command.contains(command.last()));
    }
    law_frame_round_trip(command, Seq::empty());
}

/// Which commands are sent: those of one line that fit into a frame with their line break. The
/// others are refused, and the reason says which of the two it is.
pub proof fn law_which_commands_are_sent(command: Seq<char>)
    ensures
        ({
            let breaks = exists|i: int|
                0 <= i < command.len() && (#[trigger] command[i] == '\n' || command[i] == '\r');
            let result = request_frame_of(command);
            &&& result is Ok <==> !breaks && encode_utf8(command).len() + 1 <= 64 * 1024
            &&& breaks ==> result == Err::<Seq<char>, _>(
                ClientErrorView::InvalidCommand("一条命令中不能包含换行符"@),
            )
            &&& !breaks && encode_utf8(command).len() + 1 > 64 * 1024 ==> result == Err::<
                Seq<char>,
                _,
            >(ClientErrorView::InvalidCommand("命令超过 64 KiB 限制"@))
            &&& result is Ok ==> result->Ok_0.len() == command.len() + 1 && result->Ok_0.last()
                == '\n' && result->Ok_0.drop_last() == command
        }),
{
    if request_frame_of(command) is Ok {
        assert(command.push('\n').drop_last() =~= command);
        assert forall|i: int| 0 <= i < command.len() implies #[trigger] command[i] != '\n'
            && command[i] != '\r' by {
            assert(command.contains(command[i]));
        }
    }
    if exists|i: int|
        0 <= i < command.len() && (#[trigger] command[i] == '\n' || command[i] == '\r') {
        let at = choose|i: int|
            0 <= i < command.len() && (#[trigger] command[i] == '\n' || command[i] == '\r');
        assert(command.contains(command[at]));
    } else if command.contains('\n') || command.contains('\r') {
        let at = choose|i: int|
            0 <= i < command.len() && (#[trigger] command[i] == '\n' || command[i] == '\r');
        assert(false);
    }
}

/// A response that the server sends is received as it was sent; a connection that ends before
/// it, and bytes that make no frame, are told apart.
pub proof fn law_sent_response_is_received(line: Seq<char>, error: ProtocolErrorView)
    ensures
        request_frame_of(line) is Ok ==> received(
            decoded_frame(encode_utf8(line.push('\n'))),
        ) == Ok::<_, ClientErrorView>(line),
        received(Ok(Some(line))) == Ok::<_, ClientErrorView>(line),
        received(decoded_frame(Seq::empty())) == Err::<Seq<char>, _>(
            ClientErrorView::ConnectionClosed,
        ),
        received(Err(error)) == Err::<Seq<char>, _>(ClientErrorView::Protocol(error)),
{
    if request_frame_of(line) is Ok {
        law_sent_command_arrives(line);
    }
}

/// An input line is sent as it is, without the white space around it, so that the server reads
/// it as if it had got the whole line. The client leaves just where the server will take leave
/// too. A line without a word asks for nothing, and HELP, in any case, is not sent.
pub proof fn law_input_reaches_the_server(input: Seq<char>)
    ensures
        ({
            let action = repl_action_of(input);
            &&& action is Help <==> upper(trimmed(input)) == "HELP"@
            &&& action is Nothing <==> words(input).len() == 0
            &&& action matches ReplActionView::Send { command, quit } ==> {
                &&& command == trimmed(input)
                &&& words(command) == words(input)
                &&& quit <==> request_of_words(words(input)) is Ok && request_of_words(
                    words(input),
                )->Ok_0 is Quit
            }
        }),
{
    let command = trimmed(input);
    law_trimming_keeps_the_words(input);
    law_words_are_found(input);
    let _ = law_trimming_takes_white_space(input);
    reveal_strlit("HELP");
    reveal_strlit("QUIT");
    reveal_strlit("EXIT");
    assert(upper("HELP"@) =~= "HELP"@);
    assert(upper("QUIT"@) =~= "QUIT"@);
    assert(upper("EXIT"@) =~= "EXIT"@);
    let parts = words(input);
    if upper(command) == "QUIT"@ {
        lemma_word_of_letters(command, "QUIT"@);
        crate::protocol::law_requests_take_their_arguments(parts);
        law_names_lead_to_their_requests(parts);
    } else if upper(command) == "EXIT"@ {
        lemma_word_of_letters(command, "EXIT"@);
        crate::protocol::law_requests_take_their_arguments(parts);
        law_names_lead_to_their_requests(parts);
    } else if upper(command) == "HELP"@ {
        assert(command.len() == 4);
    } else if request_of_words(parts) is Ok && request_of_words(parts)->Ok_0 is Quit {
        law_names_lead_to_their_requests(parts);
        crate::protocol::law_requests_take_their_arguments(parts);
        crate::protocol::lemma_quit_takes_no_argument(parts);
        lemma_only_word(command);
    }
}

// ---------------------------------------------------------------------------------------
// Numbers for the eye
// ---------------------------------------------------------------------------------------

/// The nearest whole number of units; of two that are equally near, the even one.
pub open spec fn nearest(n: nat, unit: nat) -> nat {
    let (whole, part) = (n / unit, n % unit);
    if 2 * part > unit || (2 * part == unit && whole % 2 == 1) {
        whole + 1
    } else {
        whole
    }
}

/// The weight of the lowest of the 53 leading binary digits of a number.
pub open spec fn leading_unit(n: nat) -> nat
    decreases n,
{
    if n < 0x20_0000_0000_0000 {
        1
    } else {
        2 * leading_unit(n / 2)
    }
}

/// A number rounded to its 53 leading binary digits.
pub open spec fn leading_digits(n: nat) -> nat {
    nearest(n, leading_unit(n)) * leading_unit(n)
}

/// A number of units with two decimal places. The number is taken with 53 binary digits.
pub open spec fn hundredths_text(n: nat, unit: nat) -> Seq<char> {
    let hundredths = nearest(leading_digits(n) * 100, unit);
    decimal(hundredths / 100) + "."@ + padded_decimal(hundredths % 100, 2)
}

/// A number of bytes for the eye.
pub open spec fn bytes_text(bytes: nat) -> Seq<char> {
    if bytes < 1024 {
        decimal(bytes) + " B"@
    } else if bytes < 1024 * 1024 {
        hundredths_text(bytes, 1024) + " KiB（"@ + decimal(bytes) + " B）"@
    } else {
        hundredths_text(bytes, 1024 * 1024) + " MiB（"@ + decimal(bytes) + " B）"@
    }
}

/// A number of seconds for the eye.
pub open spec fn duration_text(total: nat) -> Seq<char> {
    let (hours, minutes, seconds) = (total / 3600, total % 3600 / 60, total % 60);
    if hours > 0 {
        decimal(hours) + " 小时 "@ + decimal(minutes) + " 分 "@ + decimal(seconds) + " 秒"@
    } else if minutes > 0 {
        decimal(minutes) + " 分 "@ + decimal(seconds) + " 秒"@
    } else {
        decimal(seconds) + " 秒"@
    }
}

/// A field that holds a number of bytes; other text is shown as it is.
pub open spec fn shown_bytes(raw: Seq<char>) -> Seq<char> {
    match parsed(raw, 10, u64::MAX as nat) {
        Some(bytes) => bytes_text(bytes),
        None => raw,
    }
}

/// A field that holds a number of seconds; other text is shown as it is.
pub open spec fn shown_duration(raw: Seq<char>) -> Seq<char> {
    match parsed(raw, 10, u64::MAX as nat) {
        Some(seconds) => duration_text(seconds),
        None => raw,
    }
}

fn nearest_units(n: u128, unit: u128) -> (count: u128)
    requires
        0 < unit <= 0x1_0000_0000_0000_0000,
        n < u128::MAX,
    ensures
        count == nearest(n as nat, unit as nat),
{
    let whole: u128 = n / unit;
    let part: u128 = n % unit;
    if 2 * part > unit || (2 * part == unit && whole % 2 == 1) {
        assert(whole <= n) by (nonlinear_arith)
            requires
                whole == n / unit,
                unit > 0,
        ;
        whole + 1
    } else {
        whole
    }
}

fn unit_of_leading_digits(n: u64) -> (unit: u64)
    ensures
        unit == leading_unit(n as nat),
        0 < unit <= 4096,
        unit > 1 ==> unit * 0x10_0000_0000_0000 <= n,
        n < 0x20_0000_0000_0000 * unit,
    decreases n,
{
    if n < 0x20_0000_0000_0000 {
        1
    } else {
        let half: u64 = unit_of_leading_digits(n / 2);
        2 * half
    }
}

/// A number rounded to its 53 leading binary digits.
pub fn leading_digits_of(n: u64) -> (rounded: u128)
    ensures
        rounded == leading_digits(n as nat),
        rounded <= n + 4096,
{
    let lowest: u64 = unit_of_leading_digits(n);
    let count: u128 = nearest_units(n as u128, lowest as u128);
    assert(count * lowest <= n + lowest) by (nonlinear_arith)
        requires
            count <= n / lowest + 1,
            lowest > 0,
    ;
    count * (lowest as u128)
}

fn hundredths_message(n: u64, unit: u64) -> (text: String)
    requires
        unit > 0,
    ensures
        text@ == hundredths_text(n as nat, unit as nat),
{
    let rounded: u128 = leading_digits_of(n);
    let hundredths: u128 = nearest_units(rounded * 100, unit as u128);
    let mut text = decimal_text(hundredths / 100);
    text.append(".");
    text.append(padded_decimal_text(hundredths % 100, 2).as_str());
    text
}

/// A number of bytes for the eye.
#[must_use]
pub fn format_bytes(raw: &str) -> (text: String)
    ensures
        text@ == shown_bytes(raw@),
{
    let bytes: u64 = match parse_number_text(raw, 10, u64::MAX) {
        Some(bytes) => bytes,
        None => {
            return raw.to_owned();
        },
    };
    let digits = decimal_text(bytes as u128);
    if bytes < 1024 {
        let mut text = digits;
        text.append(" B");
        text
    } else if bytes < 1024 * 1024 {
        let mut text = hundredths_message(bytes, 1024);
        text.append(" KiB（");
        text.append(digits.as_str());
        text.append(" B）");
        text
    } else {
        let mut text = hundredths_message(bytes, 1024 * 1024);
        text.append(" MiB（");
        text.append(digits.as_str());
        text.append(" B）");
        text
    }
}

/// A number of seconds for the eye.
#[must_use]
pub fn format_duration(raw: &str) -> (text: String)
    ensures
        text@ == shown_duration(raw@),
{
    let total_seconds: u64 = match parse_number_text(raw, 10, u64::MAX) {
        Some(seconds) => seconds,
        None => {
            return raw.to_owned();
        },
    };
    let hours: u64 = total_seconds / 3600;
    let minutes: u64 = total_seconds % 3600 / 60;
    let seconds: u64 = total_seconds % 60;
    if hours > 0 {
        let mut text = decimal_text(hours as u128);
        text.append(" 小时 ");
        text.append(decimal_text(minutes as u128).as_str());
        text.append(" 分 ");
        text.append(decimal_text(seconds as u128).as_str());
        text.append(" 秒");
        text
    } else if minutes > 0 {
        let mut text = decimal_text(minutes as u128);
        text.append(" 分 ");
        text.append(decimal_text(seconds as u128).as_str());
        text.append(" 秒");
        text
    } else {
        let mut text = decimal_text(seconds as u128);
        text.append(" 秒");
        text
    }
}

/// The parts of a duration make up the whole, and none of them is larger than it may be.
pub proof fn law_duration_parts_add_up(total: nat)
    ensures
        3600 * (total / 3600) + 60 * (total % 3600 / 60) + total % 60 == total,
        total % 3600 / 60 < 60,
        total % 60 < 60,
{
}

/// Rounding is off by no more than half a unit, and between two numbers that are equally near
/// the even one is taken.
pub proof fn law_rounded_to_the_nearest(n: nat, unit: nat)
    requires
        unit > 0,
    ensures
        ({
            let count = nearest(n, unit);
            &&& 2 * n <= 2 * count * unit + unit
            &&& 2 * count * unit <= 2 * n + unit
            &&& 2 * n == 2 * count * unit + unit || 2 * count * unit == 2 * n + unit ==> count % 2
                == 0
        }),
{
    let (whole, part) = (n / unit, n % unit);
    vstd::arithmetic::div_mod::lemma_fundamental_div_mod(n as int, unit as int);
    assert(n == whole * unit + part) by (nonlinear_arith)
        requires
            n == unit * whole + part,
    ;
    assert(2 * whole * unit == 2 * (whole * unit)) by (nonlinear_arith);
    assert(2 * (whole + 1) * unit == 2 * (whole * unit) + 2 * unit) by (nonlinear_arith);
}

/// A number below the limit of the leading digits stays as it is; a larger one is off by no
/// more than half of the weight of its lowest leading digit, of which there are enough.
pub proof fn law_leading_digits_are_near(n: nat)
    ensures
        n < 0x20_0000_0000_0000 ==> leading_digits(n) == n,
        ({
            let unit = leading_unit(n);
            &&& unit > 0
            &&& 2 * n <= 2 * leading_digits(n) + unit
            &&& 2 * leading_digits(n) <= 2 * n + unit
            &&& unit > 1 ==> 0x10_0000_0000_0000 * unit <= n
            &&& n < 0x20_0000_0000_0000 * unit
        }),
{
    lemma_leading_unit(n);
    let unit = leading_unit(n);
    law_rounded_to_the_nearest(n, unit);
    let count = nearest(n, unit);
    assert(2 * count * unit == 2 * (count * unit)) by (nonlinear_arith);
    if n < 0x20_0000_0000_0000 {
        assert(n / 1 == n && n % 1 == 0);
        assert(n * 1 == n);
    }
}

proof fn lemma_leading_unit(n: nat)
    ensures
        leading_unit(n) > 0,
        leading_unit(n) > 1 ==> 0x10_0000_0000_0000 * leading_unit(n) <= n,
        n < 0x20_0000_0000_0000 * leading_unit(n),
    decreases n,
{
    if n >= 0x20_0000_0000_0000 {
        lemma_leading_unit(n / 2);
    }
}

/// A number of units is shown with its two decimal places, and the hundredths that are read
/// off, the point left out, are the nearest to the number, as far as its leading digits go.
pub proof fn law_hundredths_are_read_back(n: nat, unit: nat) -> (hundredths: nat)
    requires
        unit > 0,
    ensures
        ({
            let text = hundredths_text(n, unit);
            let at = text.len() - 3;
            &&& text.len() >= 4
            &&& text[at] == '.'
            &&& parsed(text.take(at), 10, hundredths) == Some(hundredths / 100)
            &&& parsed(text.skip(at + 1), 10, hundredths) == Some(hundredths % 100)
            &&& 200 * leading_digits(n) <= 2 * hundredths * unit + unit
            &&& 2 * hundredths * unit <= 200 * leading_digits(n) + unit
        }),
{
    let hundredths = nearest(leading_digits(n) * 100, unit);
    law_rounded_to_the_nearest(leading_digits(n) * 100, unit);
    let (whole, part) = (hundredths / 100, hundredths % 100);
    let text = hundredths_text(n, unit);
    law_parse_of_decimal(whole, hundredths);
    law_padded_decimal(part, 2);
    lemma_two_digits(part);
    reveal_strlit(".");
    let at = text.len() - 3;
    assert(text == decimal(whole) + "."@ + padded_decimal(part, 2));
    assert(text.take(at) =~= decimal(whole));
    assert(text.skip(at + 1) =~= padded_decimal(part, 2));
    crate::number::law_what_is_a_number(padded_decimal(part, 2), 10, part, hundredths);
    crate::number::law_decimal_form(whole);
    hundredths
}

proof fn lemma_two_digits(n: nat)
    requires
        n < 100,
    ensures
        padded_decimal(n, 2).len() == 2,
{
    law_padded_decimal(n, 2);
    if n >= 10 {
        crate::number::law_decimal_form(n / 10);
        assert(decimal(n) == decimal(n / 10) + seq![crate::number::digit_char(n % 10)]);
    } else {
        crate::number::law_decimal_form(n);
    }
}

/// A number of bytes is shown exactly, up to a kibibyte as it is, and above that behind its
/// kibibytes or, from a mebibyte on, its mebibytes. Text that is no number is shown as it is.
pub proof fn law_bytes_are_shown_exactly(n: nat, raw: Seq<char>)
    requires
        n <= u64::MAX,
    ensures
        ({
            let shown = shown_bytes(decimal(n));
            let kib = hundredths_text(n, 1024) + " KiB（"@;
            let mib = hundredths_text(n, 1024 * 1024) + " MiB（"@;
            &&& n < 1024 ==> shown == decimal(n) + " B"@
            &&& n >= 1024 ==> (decimal(n) + " B）"@).is_suffix_of(shown)
            &&& 1024 <= n < 1024 * 1024 ==> kib.is_prefix_of(shown) && shown.len() == kib.len() + (
            decimal(n) + " B）"@).len()
            &&& 1024 * 1024 <= n ==> mib.is_prefix_of(shown) && shown.len() == mib.len() + (decimal(
                n,
            ) + " B）"@).len()
        }),
        parsed(raw, 10, u64::MAX as nat) is None ==> shown_bytes(raw) == raw && shown_duration(raw)
            == raw,
        parsed(raw, 10, u64::MAX as nat) == Some(n) ==> shown_bytes(raw) == shown_bytes(decimal(n))
            && shown_duration(raw) == shown_duration(decimal(n)),
{
    law_parse_of_decimal(n, u64::MAX as nat);
    let shown = shown_bytes(decimal(n));
    let tail = decimal(n) + " B）"@;
    if n >= 1024 {
        assert(shown.skip(shown.len() - tail.len()) =~= tail);
        let head = if n < 1024 * 1024 {
            hundredths_text(n, 1024) + " KiB（"@
        } else {
            hundredths_text(n, 1024 * 1024) + " MiB（"@
        };
        assert(shown =~= head + tail);
        assert(shown.take(head.len() as int) =~= head);
    }
}

/// A duration is shown by its hours, minutes and seconds, from the first of them that is not
/// zero on.
pub proof fn law_durations_are_shown_by_their_parts(hours: nat, minutes: nat, seconds: nat)
    requires
        minutes < 60,
        seconds < 60,
        3600 * hours + 60 * minutes + seconds <= u64::MAX,
    ensures
        ({
            let shown = shown_duration(decimal(3600 * hours + 60 * minutes + seconds));
            let short = decimal(seconds) + " 秒"@;
            let longer = decimal(minutes) + " 分 "@ + short;
            &&& hours > 0 ==> shown == decimal(hours) + " 小时 "@ + longer
            &&& hours == 0 && minutes > 0 ==> shown == longer
            &&& hours == 0 && minutes == 0 ==> shown == short
        }),
{
    let total = 3600 * hours + 60 * minutes + seconds;
    law_parse_of_decimal(total, u64::MAX as nat);
    assert(total / 3600 == hours && total % 3600 / 60 == minutes && total % 60 == seconds);
    let shown = duration_text(total);
    let longer = decimal(minutes) + " 分 "@ + (decimal(seconds) + " 秒"@);
    if hours > 0 {
        assert(shown =~= decimal(hours) + " 小时 "@ + longer);
    } else if minutes > 0 {
        assert(shown =~= longer);
    }
}

// ---------------------------------------------------------------------------------------
// Showing a response
// ---------------------------------------------------------------------------------------

/// The place of the first occurrence of a character; the length, where it does not occur.
pub open spec fn first_place(s: Seq<char>, c: char) -> nat
    decreases s.len(),
{
    if s.len() == 0 || s[0] == c {
        0
    } else {
        1 + first_place(s.drop_first(), c)
    }
}

/// The value of a field that gives the name a value: what stands behind its first equals
/// sign.
pub open spec fn field_value(field: Seq<char>, name: Seq<char>) -> Option<Seq<char>> {
    let at = first_place(field, '=') as int;
    if at < field.len() && field.take(at) == name {
        Some(field.skip(at + 1))
    } else {
        None
    }
}

/// The value of a name among fields: the last one counts; a name without a value is shown
/// as unknown.
pub open spec fn named_value(fields: Seq<Seq<char>>, name: Seq<char>) -> Seq<char>
    decreases fields.len(),
{
    if fields.len() == 0 {
        "未知"@
    } else {
        match field_value(fields.last(), name) {
            Some(value) => value,
            None => named_value(fields.drop_last(), name),
        }
    }
}

/// The lines that show the status of the server.
pub open spec fn status_lines(state: Seq<char>, fields: Seq<Seq<char>>) -> Seq<Seq<char>> {
    let shown_state = if state == "running"@ {
        "正常运行"@
    } else {
        state
    };
    let threshold = named_value(fields, "checkpoint_after_writes"@);
    let shown_threshold = if threshold == "0"@ {
        "已关闭"@
    } else {
        threshold + " 次写入"@
    };
    seq![
        "========== 服务器状态 =========="@,
        "[运行]"@,
        "  状态："@ + shown_state,
        "  已运行："@ + shown_duration(named_value(fields, "uptime_seconds"@)),
        "[数据与持久化]"@,
        "  键数量："@ + named_value(fields, "keys"@),
        "  WAL 大小："@ + shown_bytes(named_value(fields, "wal_bytes"@)),
        "  快照后写入："@ + named_value(fields, "writes_since_checkpoint"@) + " 次"@,
        "  自动快照阈值："@ + shown_threshold,
        "  快照尝试 / 失败："@ + named_value(fields, "checkpoint_attempts"@) + " / "@
            + named_value(fields, "checkpoint_failures"@),
        "[连接]"@,
        "  当前客户端："@ + named_value(fields, "active_clients"@),
        "  累计连接："@ + named_value(fields, "total_connections"@),
        "[命令]"@,
        "  总计 / 成功 / 失败："@ + named_value(fields, "commands_total"@) + " / "@ + named_value(
            fields,
            "commands_succeeded"@,
        ) + " / "@ + named_value(fields, "commands_failed"@),
        "[网络流量]"@,
        "  接收："@ + shown_bytes(named_value(fields, "bytes_received"@)),
        "  发送："@ + shown_bytes(named_value(fields, "bytes_sent"@)),
        "================================"@,
    ]
}

/// How a response is shown: the status in groups, any other response with blanks in the
/// place of its tabs.
pub open spec fn shown_response(response: Seq<char>) -> Seq<char> {
    let parts = split(response, '\t');
    if parts[0] == "STATUS"@ && parts.len() >= 2 {
        join(status_lines(parts[1], parts.skip(2)), "\n"@)
    } else {
        join(parts, "  "@)
    }
}

fn value_in_field(field: &str, name: &str) -> (value: Option<String>)
    ensures
        crate::option_view(value) == field_value(field@, name@),
{
    let chars = chars_of(field);
    let mut at: usize = 0;
    assert(chars@.skip(0) =~= chars@);
    while at < chars.len() && chars[at] != '='
        invariant
            at <= chars@.len(),
            chars@ == field@,
            first_place(field@, '=') == at + first_place(chars@.skip(at as int), '='),
        decreases chars@.len() - at,
    {
        assert(chars@.skip(at as int).drop_first() =~= chars@.skip(at + 1));
        at += 1;
    }
    if at == chars.len() {
        return None;
    }
    let key = text_of(&chars, 0, at);
    assert(key@ =~= field@.take(at as int));
    if same_text(key.as_str(), name) {
        let value = text_of(&chars, at + 1, chars.len());
        assert(value@ =~= field@.skip(at + 1));
        Some(value)
    } else {
        None
    }
}

fn value_of(parts: &Vec<String>, name: &str) -> (value: String)
    requires
        parts@.len() >= 2,
    ensures
        value@ == named_value(views(parts@).skip(2), name@),
{
    let ghost fields = views(parts@).skip(2);
    let mut i: usize = parts.len();
    assert(fields.take(fields.len() as int) =~= fields);
    while i > 2
        invariant
            2 <= i <= parts@.len(),
            fields == views(parts@).skip(2),
            named_value(fields, name@) == named_value(fields.take(i - 2), name@),
        decreases i,
    {
        i -= 1;
        proof {
            let shorter = fields.take(i - 1);
            assert(shorter.drop_last() =~= fields.take(i - 2));
            assert(shorter.last() == parts@[i as int]@);
        }
        match value_in_field(parts[i].as_str(), name) {
            Some(value) => {
                return value;
            },
            None => {},
        }
    }
    "未知".to_owned()
}

fn labelled(label: &str, value: String, unit: &str) -> (line: String)
    ensures
        line@ == label@ + value@ + unit@,
{
    let mut line = label.to_owned();
    line.append(value.as_str());
    line.append(unit);
    line
}

fn shown_line(label: &str, value: String) -> (line: String)
    ensures
        line@ == label@ + value@,
{
    let mut line = label.to_owned();
    line.append(value.as_str());
    line
}

/// The status of the server in groups; nothing, where the response is no status.
#[must_use]
pub fn format_status_for_display(response: &str) -> (text: Option<String>)
    ensures
        ({
            let parts = split(response@, '\t');
            if parts[0] == "STATUS"@ && parts.len() >= 2 {
                crate::option_view(text) == Some(
                    join(status_lines(parts[1], parts.skip(2)), "\n"@),
                )
            } else {
                text is None
            }
        }),
{
    let parts = split_text(response, '\t');
    proof {
        crate::text::lemma_split_not_empty(response@, '\t');
        assert(views(parts@)[0] == parts@[0]@);
    }
    if !same_text(parts[0].as_str(), "STATUS") || parts.len() < 2 {
        return None;
    }
    assert(views(parts@)[1] == parts@[1]@);
    let state = if same_text(parts[1].as_str(), "running") {
        "正常运行".to_owned()
    } else {
        parts[1].clone()
    };
    let threshold = value_of(&parts, "checkpoint_after_writes");
    let shown_threshold = if same_text(threshold.as_str(), "0") {
        "已关闭".to_owned()
    } else {
        let mut text = threshold;
        text.append(" 次写入");
        text
    };
    let mut lines: Vec<String> = Vec::new();
    lines.push("========== 服务器状态 ==========".to_owned());
    lines.push("[运行]".to_owned());
    lines.push(shown_line("  状态：", state));
    lines.push(
        shown_line("  已运行：", format_duration(value_of(&parts, "uptime_seconds").as_str())),
    );
    lines.push("[数据与持久化]".to_owned());
    lines.push(shown_line("  键数量：", value_of(&parts, "keys")));
    lines.push(
        shown_line("  WAL 大小：", format_bytes(value_of(&parts, "wal_bytes").as_str())),
    );
    lines.push(labelled("  快照后写入：", value_of(&parts, "writes_since_checkpoint"), " 次"));
    lines.push(shown_line("  自动快照阈值：", shown_threshold));
    let mut checkpoints = labelled(
        "  快照尝试 / 失败：",
        value_of(&parts, "checkpoint_attempts"),
        " / ",
    );
    checkpoints.append(value_of(&parts, "checkpoint_failures").as_str());
    lines.push(checkpoints);
    lines.push("[连接]".to_owned());
    lines.push(shown_line("  当前客户端：", value_of(&parts, "active_clients")));
    lines.push(shown_line("  累计连接：", value_of(&parts, "total_connections")));
    lines.push("[命令]".to_owned());
    let mut commands = labelled(
        "  总计 / 成功 / 失败：",
        value_of(&parts, "commands_total"),
        " / ",
    );
    commands.append(value_of(&parts, "commands_succeeded").as_str());
    commands.append(" / ");
    commands.append(value_of(&parts, "commands_failed").as_str());
    lines.push(commands);
    lines.push("[网络流量]".to_owned());
    lines.push(
        shown_line("  接收：", format_bytes(value_of(&parts, "bytes_received").as_str())),
    );
    lines.push(shown_line("  发送：", format_bytes(value_of(&parts, "bytes_sent").as_str())));
    lines.push("================================".to_owned());
    assert(views(lines@) =~= status_lines(
        split(response@, '\t')[1],
        split(response@, '\t').skip(2),
    ));
    Some(join_texts(&lines, "\n"))
}

/// How a response is shown on a terminal.
#[must_use]
pub fn format_response_for_display(response: &str) -> (text: String)
    ensures
        text@ == shown_response(response@),
{
    match format_status_for_display(response) {
        Some(text) => text,
        None => join_texts(&split_text(response, '\t'), "  "),
    }
}

proof fn lemma_first_place(name: Seq<char>, value: Seq<char>, c: char)
    requires
        !name.contains(c),
    ensures
        first_place(name + seq![c] + value, c) == name.len(),
    decreases name.len(),
{
    let whole = name + seq![c] + value;
    if name.len() > 0 {
        let rest = name.drop_first();
        assert forall|i: int| 0 <= i < rest.len() implies rest[i] != c by {
            assert(name[i + 1] != c);
        }
        lemma_first_place(rest, value, c);
        assert(name[0] != c);
        assert(whole.drop_first() =~= rest + seq![c] + value);
    }
}

/// A text with two blanks in the place of each tab, character by character.
pub open spec fn blanks_for_tabs(s: Seq<char>) -> Seq<char>
    decreases s.len(),
{
    if s.len() == 0 {
        Seq::empty()
    } else if s.last() == '\t' {
        blanks_for_tabs(s.drop_last()).push(' ').push(' ')
    } else {
        blanks_for_tabs(s.drop_last()).push(s.last())
    }
}

proof fn lemma_joined_with_blanks(s: Seq<char>)
    ensures
        join(split(s, '\t'), "  "@) == blanks_for_tabs(s),
    decreases s.len(),
{
    reveal_strlit("  ");
    let sep = "  "@;
    if s.len() > 0 {
        let front = s.drop_last();
        lemma_joined_with_blanks(front);
        lemma_split_not_empty(front, '\t');
        let before = split(front, '\t');
        let now = split(s, '\t');
        if s.last() == '\t' {
            assert(now.drop_last() =~= before);
            assert(join(now, sep) == join(before, sep) + sep + Seq::<char>::empty());
            assert(join(now, sep) =~= blanks_for_tabs(s));
        } else {
            assert(now.drop_last() =~= before.drop_last());
            assert(now.last() =~= before.last().push(s.last()));
            if before.len() == 1 {
                assert(join(now, sep) =~= blanks_for_tabs(s));
            } else {
                assert(join(now, sep) == join(now.drop_last(), sep) + sep + now.last());
                assert(join(before, sep) == join(before.drop_last(), sep) + sep + before.last());
                assert(join(now, sep) =~= join(before, sep).push(s.last()));
            }
        }
    } else {
        assert(split(s, '\t').len() == 1);
        assert(join(split(s, '\t'), sep) =~= Seq::<char>::empty());
    }
}

/// A response that is no status is shown in full: every field of it, in order, with two blanks
/// in the place of each tab and every other character as it is.
pub proof fn law_response_is_shown_in_full(response: Seq<char>)
    requires
        split(response, '\t')[0] != "STATUS"@ || split(response, '\t').len() < 2,
    ensures
        shown_response(response) == blanks_for_tabs(response),
{
    lemma_joined_with_blanks(response);
}

/// A response without a tab is shown as it is, and what follows a tab is shown behind two
/// blanks.
pub proof fn law_fields_are_shown_apart(before: Seq<char>, after: Seq<char>)
    ensures
        !before.contains('\t') ==> blanks_for_tabs(before) == before,
        blanks_for_tabs(before + seq!['\t'] + after) == blanks_for_tabs(before) + seq![' ', ' ']
            + blanks_for_tabs(after),
    decreases before.len(), after.len(),
{
    let whole = before + seq!['\t'] + after;
    if after.len() > 0 {
        law_fields_are_shown_apart(before, after.drop_last());
        assert(whole.drop_last() =~= before + seq!['\t'] + after.drop_last());
        assert(blanks_for_tabs(whole) =~= blanks_for_tabs(before) + seq![' ', ' ']
            + blanks_for_tabs(after));
    } else {
        assert(whole =~= before.push('\t'));
        assert(whole.drop_last() =~= before);
        assert(blanks_for_tabs(whole) =~= blanks_for_tabs(before) + seq![' ', ' ']
            + blanks_for_tabs(after));
        if before.len() > 0 && !before.contains('\t') {
            let front = before.drop_last();
            assert forall|i: int| 0 <= i < front.len() implies front[i] != '\t' by {
                assert(before[i] == front[i]);
            }
            law_fields_are_shown_apart(front, after);
            assert(before.contains(before.last()));
            assert(front.push(before.last()) =~= before);
        } else if before.len() == 0 {
            assert(blanks_for_tabs(before) =~= before);
        }
    }
}

/// The value that a field gives a name counts, also where an earlier field gave it another; a
/// field of another name does not matter, and a name without a field is unknown.
pub proof fn law_later_field_counts(
    fields: Seq<Seq<char>>,
    name: Seq<char>,
    value: Seq<char>,
    other: Seq<char>,
)
    requires
        !name.contains('='),
    ensures
        named_value(fields.push(name + seq!['='] + value), name) == value,
        other != name ==> named_value(fields.push(name + seq!['='] + value), other) == named_value(
            fields,
            other,
        ),
        !value.contains('=') ==> named_value(fields.push(value), name) == named_value(fields, name),
        named_value(Seq::empty(), name) == "未知"@,
{
    let field = name + seq!['='] + value;
    lemma_first_place(name, value, '=');
    assert(field.take(name.len() as int) =~= name);
    assert(field.skip(name.len() as int + 1) =~= value);
    assert(fields.push(field).drop_last() =~= fields);
    assert(fields.push(value).drop_last() =~= fields);
    if !value.contains('=') {
        lemma_no_place(value, '=');
    }
}

proof fn lemma_no_place(s: Seq<char>, c: char)
    requires
        !s.contains(c),
    ensures
        first_place(s, c) == s.len(),
    decreases s.len(),
{
    if s.len() > 0 {
        let rest = s.drop_first();
        assert(s.contains(s[0]));
        assert forall|i: int| 0 <= i < rest.len() implies rest[i] != c by {
            assert(s.contains(s[i + 1]));
        }
        lemma_no_place(rest, c);
    }
}

/// A value is found under its name: among fields that give different names their values,
/// each name leads to its own value, whatever the value holds.
pub proof fn law_named_value_is_found(
    names: Seq<Seq<char>>,
    values: Seq<Seq<char>>,
    fields: Seq<Seq<char>>,
    at: int,
)
    requires
        names.len() == values.len() == fields.len(),
        forall|i: int| 0 <= i < names.len() ==> !(#[trigger] names[i]).contains('='),
        forall|i: int, j: int|
            0 <= i < j < names.len() ==> #[trigger] names[i] != #[trigger] names[j],
        forall|i: int|
            0 <= i < fields.len() ==> #[trigger] fields[i] == names[i] + seq!['='] + values[i],
        0 <= at < names.len(),
    ensures
        named_value(fields, names[at]) == values[at],
    decreases names.len(),
{
    let last = names.len() - 1;
    let (name, value) = (names[last], values[last]);
    assert(fields[last] == name + seq!['='] + value);
    lemma_first_place(name, value, '=');
    assert(fields[last].take(name.len() as int) =~= name);
    assert(fields[last].skip(name.len() as int + 1) =~= value);
    if at < last {
        let (n, v, f) = (names.drop_last(), values.drop_last(), fields.drop_last());
        assert forall|i: int| 0 <= i < n.len() implies !(#[trigger] n[i]).contains('=') by {
            assert(n[i] == names[i]);
        }
        assert forall|i: int, j: int| 0 <= i < j < n.len() implies #[trigger] n[i]
            != #[trigger] n[j] by {
            assert(n[i] == names[i] && n[j] == names[j]);
        }
        assert forall|i: int| 0 <= i < f.len() implies #[trigger] f[i] == n[i] + seq!['=']
            + v[i] by {
            assert(f[i] == fields[i] && n[i] == names[i] && v[i] == values[i]);
        }
        law_named_value_is_found(n, v, f, at);
        assert(names[at] != names[last]);
    }
}

/// The names of the fields of a status, in their order.
spec fn status_names() -> Seq<Seq<char>> {
    seq![
        "keys"@,
        "active_clients"@,
        "total_connections"@,
        "commands_total"@,
        "commands_succeeded"@,
        "commands_failed"@,
        "checkpoint_attempts"@,
        "checkpoint_failures"@,
        "writes_since_checkpoint"@,
        "checkpoint_after_writes"@,
        "bytes_received"@,
        "bytes_sent"@,
        "wal_bytes"@,
        "uptime_seconds"@,
    ]
}

proof fn lemma_status_names()
    ensures
        forall|i: int| 0 <= i < 14 ==> !(#[trigger] status_names()[i]).contains('='),
        forall|i: int, j: int|
            0 <= i < j < 14 ==> #[trigger] status_names()[i] != #[trigger] status_names()[j],
{
    reveal_strlit("keys");
    reveal_strlit("active_clients");
    reveal_strlit("total_connections");
    reveal_strlit("commands_total");
    reveal_strlit("commands_succeeded");
    reveal_strlit("commands_failed");
    reveal_strlit("checkpoint_attempts");
    reveal_strlit("checkpoint_failures");
    reveal_strlit("writes_since_checkpoint");
    reveal_strlit("checkpoint_after_writes");
    reveal_strlit("bytes_received");
    reveal_strlit("bytes_sent");
    reveal_strlit("wal_bytes");
    reveal_strlit("uptime_seconds");
    let names = status_names();
    assert forall|i: int| 0 <= i < 14 implies !(#[trigger] names[i]).contains('=') by {}
    assert forall|i: int, j: int| 0 <= i < j < 14 implies #[trigger] names[i]
        != #[trigger] names[j] by {
        if names[i] == names[j] {
            assert(names[i].len() == names[j].len());
            assert(names[i][0] == names[j][0]);
            assert(names[i].len() == 19 ==> names[i][11] == names[j][11]);
        }
    }
}

/// The client finds in the status of the server what the server put there, each number under
/// its name.
pub proof fn law_status_is_read_back(
    key_count: nat,
    wal_bytes: nat,
    writes_since_checkpoint: nat,
    checkpoint_after_writes: nat,
    metrics: MetricsSnapshot,
)
    ensures
        ({
            let sent = response(
                status_fields(
                    key_count,
                    wal_bytes,
                    writes_since_checkpoint,
                    checkpoint_after_writes,
                    metrics,
                ),
            );
            let fields = split(sent, '\t').skip(2);
            &&& split(sent, '\t')[0] == "STATUS"@
            &&& split(sent, '\t')[1] == "running"@
            &&& named_value(fields, "keys"@) == decimal(key_count)
            &&& named_value(fields, "active_clients"@) == decimal(metrics.active_clients as nat)
            &&& named_value(fields, "total_connections"@) == decimal(metrics.total_connections as nat)
            &&& named_value(fields, "commands_total"@) == decimal(metrics.commands_total as nat)
            &&& named_value(fields, "commands_succeeded"@) == decimal(succeeded(metrics))
            &&& named_value(fields, "commands_failed"@) == decimal(metrics.commands_failed as nat)
            &&& named_value(fields, "checkpoint_attempts"@) == decimal(metrics.checkpoint_attempts as nat)
            &&& named_value(fields, "checkpoint_failures"@) == decimal(metrics.checkpoint_failures as nat)
            &&& named_value(fields, "writes_since_checkpoint"@) == decimal(writes_since_checkpoint)
            &&& named_value(fields, "checkpoint_after_writes"@) == decimal(checkpoint_after_writes)
            &&& named_value(fields, "bytes_received"@) == decimal(metrics.bytes_received as nat)
            &&& named_value(fields, "bytes_sent"@) == decimal(metrics.bytes_sent as nat)
            &&& named_value(fields, "wal_bytes"@) == decimal(wal_bytes)
            &&& named_value(fields, "uptime_seconds"@) == decimal(metrics.uptime_seconds as nat)
        }),
{
    let all = status_fields(
        key_count,
        wal_bytes,
        writes_since_checkpoint,
        checkpoint_after_writes,
        metrics,
    );
    law_status_is_one_line(
        key_count,
        wal_bytes,
        writes_since_checkpoint,
        checkpoint_after_writes,
        metrics,
    );
    let fields = all.skip(2);
    let names = status_names();
    let values = seq![
        decimal(key_count),
        decimal(metrics.active_clients as nat),
        decimal(metrics.total_connections as nat),
        decimal(metrics.commands_total as nat),
        decimal(succeeded(metrics)),
        decimal(metrics.commands_failed as nat),
        decimal(metrics.checkpoint_attempts as nat),
        decimal(metrics.checkpoint_failures as nat),
        decimal(writes_since_checkpoint),
        decimal(checkpoint_after_writes),
        decimal(metrics.bytes_received as nat),
        decimal(metrics.bytes_sent as nat),
        decimal(wal_bytes),
        decimal(metrics.uptime_seconds as nat),
    ];
    lemma_status_names();
    reveal_strlit("keys");
    reveal_strlit("keys=");
    reveal_strlit("active_clients");
    reveal_strlit("active_clients=");
    reveal_strlit("total_connections");
    reveal_strlit("total_connections=");
    reveal_strlit("commands_total");
    reveal_strlit("commands_total=");
    reveal_strlit("commands_succeeded");
    reveal_strlit("commands_succeeded=");
    reveal_strlit("commands_failed");
    reveal_strlit("commands_failed=");
    reveal_strlit("checkpoint_attempts");
    reveal_strlit("checkpoint_attempts=");
    reveal_strlit("checkpoint_failures");
    reveal_strlit("checkpoint_failures=");
    reveal_strlit("writes_since_checkpoint");
    reveal_strlit("writes_since_checkpoint=");
    reveal_strlit("checkpoint_after_writes");
    reveal_strlit("checkpoint_after_writes=");
    reveal_strlit("bytes_received");
    reveal_strlit("bytes_received=");
    reveal_strlit("bytes_sent");
    reveal_strlit("bytes_sent=");
    reveal_strlit("wal_bytes");
    reveal_strlit("wal_bytes=");
    reveal_strlit("uptime_seconds");
    reveal_strlit("uptime_seconds=");
    assert(fields[0] =~= names[0] + seq!['='] + values[0]);
    assert(fields[1] =~= names[1] + seq!['='] + values[1]);
    assert(fields[2] =~= names[2] + seq!['='] + values[2]);
    assert(fields[3] =~= names[3] + seq!['='] + values[3]);
    assert(fields[4] =~= names[4] + seq!['='] + values[4]);
    assert(fields[5] =~= names[5] + seq!['='] + values[5]);
    assert(fields[6] =~= names[6] + seq!['='] + values[6]);
    assert(fields[7] =~= names[7] + seq!['='] + values[7]);
    assert(fields[8] =~= names[8] + seq!['='] + values[8]);
    assert(fields[9] =~= names[9] + seq!['='] + values[9]);
    assert(fields[10] =~= names[10] + seq!['='] + values[10]);
    assert(fields[11] =~= names[11] + seq!['='] + values[11]);
    assert(fields[12] =~= names[12] + seq!['='] + values[12]);
    assert(fields[13] =~= names[13] + seq!['='] + values[13]);
    law_named_value_is_found(names, values, fields, 0);
    law_named_value_is_found(names, values, fields, 1);
    law_named_value_is_found(names, values, fields, 2);
    law_named_value_is_found(names, values, fields, 3);
    law_named_value_is_found(names, values, fields, 4);
    law_named_value_is_found(names, values, fields, 5);
    law_named_value_is_found(names, values, fields, 6);
    law_named_value_is_found(names, values, fields, 7);
    law_named_value_is_found(names, values, fields, 8);
    law_named_value_is_found(names, values, fields, 9);
    law_named_value_is_found(names, values, fields, 10);
    law_named_value_is_found(names, values, fields, 11);
    law_named_value_is_found(names, values, fields, 12);
    law_named_value_is_found(names, values, fields, 13);
}

/// The status that the server sends is shown with each of its numbers behind its label: sizes
/// and times for the eye, the others as they are. A threshold of zero is shown as switched off.
pub proof fn law_status_is_shown(
    key_count: nat,
    wal_bytes: nat,
    writes_since_checkpoint: nat,
    checkpoint_after_writes: nat,
    metrics: MetricsSnapshot,
)
    requires
        wal_bytes <= u64::MAX,
    ensures
        ({
            let sent = response(
                status_fields(
                    key_count,
                    wal_bytes,
                    writes_since_checkpoint,
                    checkpoint_after_writes,
                    metrics,
                ),
            );
            let lines = status_lines(split(sent, '\t')[1], split(sent, '\t').skip(2));
            &&& shown_response(sent) == join(lines, "\n"@)
            &&& lines.len() == 19
            &&& lines[0] == "========== 服务器状态 =========="@
            &&& lines[1] == "[运行]"@
            &&& lines[4] == "[数据与持久化]"@
            &&& lines[10] == "[连接]"@
            &&& lines[13] == "[命令]"@
            &&& lines[15] == "[网络流量]"@
            &&& lines[18] == "================================"@
            &&& lines[2] == "  状态："@ + "正常运行"@
            &&& lines[3] == "  已运行："@ + duration_text(metrics.uptime_seconds as nat)
            &&& lines[5] == "  键数量："@ + decimal(key_count)
            &&& lines[6] == "  WAL 大小："@ + bytes_text(wal_bytes)
            &&& lines[7] == "  快照后写入："@ + decimal(writes_since_checkpoint) + " 次"@
            &&& lines[8] == if checkpoint_after_writes == 0 {
                "  自动快照阈值："@ + "已关闭"@
            } else {
                "  自动快照阈值："@ + (decimal(checkpoint_after_writes) + " 次写入"@)
            }
            &&& lines[9] == "  快照尝试 / 失败："@ + decimal(metrics.checkpoint_attempts as nat)
                + " / "@ + decimal(metrics.checkpoint_failures as nat)
            &&& lines[11] == "  当前客户端："@ + decimal(metrics.active_clients as nat)
            &&& lines[12] == "  累计连接："@ + decimal(metrics.total_connections as nat)
            &&& lines[14] == "  总计 / 成功 / 失败："@ + decimal(metrics.commands_total as nat)
                + " / "@ + decimal(succeeded(metrics)) + " / "@ + decimal(
                metrics.commands_failed as nat,
            )
            &&& lines[16] == "  接收："@ + bytes_text(metrics.bytes_received as nat)
            &&& lines[17] == "  发送："@ + bytes_text(metrics.bytes_sent as nat)
        }),
{
    law_status_is_read_back(
        key_count,
        wal_bytes,
        writes_since_checkpoint,
        checkpoint_after_writes,
        metrics,
    );
    law_status_is_one_line(
        key_count,
        wal_bytes,
        writes_since_checkpoint,
        checkpoint_after_writes,
        metrics,
    );
    let max = u64::MAX as nat;
    law_parse_of_decimal(wal_bytes, max);
    law_parse_of_decimal(metrics.uptime_seconds as nat, max);
    law_parse_of_decimal(metrics.bytes_received as nat, max);
    law_parse_of_decimal(metrics.bytes_sent as nat, max);
    reveal_strlit("0");
    if checkpoint_after_writes == 0 {
        assert(decimal(0) =~= "0"@);
    } else {
        crate::number::law_decimal_form(checkpoint_after_writes);
        assert("0"@[0] == '0');
    }
}

/// A server that is in another state shows it as it is, and what a status leaves out is shown
/// as unknown.
pub proof fn law_other_states_are_shown(state: Seq<char>)
    ensures
        state != "running"@ ==> status_lines(state, Seq::empty())[2] == "  状态："@ + state,
        status_lines(state, Seq::empty())[5] == "  键数量："@ + "未知"@,
{
}

/// What went wrong is told with what was being done, and with the cause.
pub proof fn law_client_errors_tell_the_cause(error: ClientErrorView)
    ensures
        error matches ClientErrorView::Io { action, source } ==> action.is_prefix_of(error.text())
            && source.is_suffix_of(error.text()),
        error matches ClientErrorView::Protocol(cause) ==> cause.text().is_suffix_of(error.text()),
        error matches ClientErrorView::InvalidCommand(reason) ==> reason.is_suffix_of(
            error.text(),
        ),
{
    let text = error.text();
    match error {
        ClientErrorView::Io { action, source } => {
            assert(text.take(action.len() as int) =~= action);
            assert(text.skip(text.len() - source.len()) =~= source);
        },
        ClientErrorView::Protocol(cause) => {
            assert(text.skip(text.len() - cause.text().len()) =~= cause.text());
        },
        ClientErrorView::InvalidCommand(reason) => {
            assert(text.skip(text.len() - reason.len()) =~= reason);
        },
        _ => {},
    }
}

} // verus!
