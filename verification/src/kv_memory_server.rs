//! The server that only keeps its data in memory.
//!
//! It has no log, no snapshot, no counters and no output for each request, so that a
//! measurement shows the cost of memory alone.

use vstd::prelude::*;

use crate::domain::{
    answer, applied, law_reading_shows_what_is_stored, Command, CommandView, Reply, ReplyView,
};
use crate::kv_client::address_of;
use crate::number::{decimal, parsed, push_decimal};
use crate::protocol::{
    error_fields, format_error, format_reply, key_of, law_error_says_why,
    law_response_says_what_was_done, parse_request, reply_fields, request_of_words, response,
    unescaped, ProtocolError, ProtocolErrorView, Request, RequestView,
};
use crate::result_view;
use crate::server::{frame_view, lemma_reports_error, poisoned_response, reports_error};
use crate::text::{join, law_split_of_join, lemma_split_none, split, views, words};
use crate::text_map::{sorted_keys, Contents, TextMap};

verus! {

/// What the data is after a request.
pub open spec fn after_request(contents: Contents, request: RequestView) -> Contents {
    match request {
        RequestView::Execute(CommandView::SetValue { key, value }) => contents.insert(key, value),
        RequestView::Execute(CommandView::Update { key, value }) => if contents.contains_key(key) {
            contents.insert(key, value)
        } else {
            contents
        },
        RequestView::Execute(CommandView::Delete { key }) => contents.remove(key),
        _ => contents,
    }
}

/// The response to a command on one key: the given one, or that the key is missing.
pub open spec fn if_found(contents: Contents, key: Seq<char>, found: Seq<char>) -> Seq<char> {
    if contents.contains_key(key) {
        found
    } else {
        response(error_fields("NOT_FOUND"@, key))
    }
}

/// The response to a request.
pub open spec fn response_to(contents: Contents, request: RequestView) -> Seq<char> {
    match request {
        RequestView::Execute(CommandView::SetValue { key, value }) => "OK"@,
        RequestView::Execute(CommandView::Update { key, value }) => if_found(
            contents,
            key,
            "OK"@,
        ),
        RequestView::Execute(CommandView::Get { key }) => if_found(
            contents,
            key,
            response(reply_fields(ReplyView::Value(contents[key]))),
        ),
        RequestView::Execute(CommandView::Delete { key }) => if_found(contents, key, "OK"@),
        RequestView::Execute(CommandView::Keys) => response(
            reply_fields(ReplyView::Keys(sorted_keys(contents))),
        ),
        RequestView::Execute(CommandView::Status) => "STATUS\trunning\tkeys="@ + decimal(
            contents.len(),
        ),
        RequestView::Save => response(error_fields("UNSUPPORTED"@, "纯内存实验模式不支持 SAVE"@)),
        RequestView::Clear | RequestView::Yes | RequestView::No => response(
            error_fields("UNSUPPORTED"@, "纯内存实验模式不支持 CLEAR"@),
        ),
        RequestView::Quit => "OK\tBYE"@,
    }
}

/// Executes a request.
pub fn execute_request(request: Request, store: &mut TextMap) -> (text: String)
    ensures
        text@ == response_to(old(store)@, request@),
        final(store)@ == after_request(old(store)@, request@),
{
    match request {
        Request::Execute(Command::SetValue { key, value }) => {
            let _ = store.insert(key, value);
            "OK".to_owned()
        },
        Request::Execute(Command::Update { key, value }) => {
            if store.contains_key(key.as_str()) {
                let _ = store.insert(key, value);
                "OK".to_owned()
            } else {
                format_error("NOT_FOUND", key.as_str())
            }
        },
        Request::Execute(Command::Get { key }) => match store.get(key.as_str()) {
            Some(value) => format_reply(Reply::Value(value.clone())),
            None => format_error("NOT_FOUND", key.as_str()),
        },
        Request::Execute(Command::Delete { key }) => match store.remove(key.as_str()) {
            Some(_) => "OK".to_owned(),
            None => format_error("NOT_FOUND", key.as_str()),
        },
        Request::Execute(Command::Keys) => format_reply(Reply::Keys(store.keys())),
        Request::Execute(Command::Status) => {
            let mut text = "STATUS\trunning\tkeys=".to_owned();
            push_decimal(&mut text, store.len() as u128);
            text
        },
        Request::Save => format_error("UNSUPPORTED", "纯内存实验模式不支持 SAVE"),
        Request::Clear => format_error("UNSUPPORTED", "纯内存实验模式不支持 CLEAR"),
        Request::Yes => format_error("UNSUPPORTED", "纯内存实验模式不支持 CLEAR"),
        Request::No => format_error("UNSUPPORTED", "纯内存实验模式不支持 CLEAR"),
        Request::Quit => "OK\tBYE".to_owned(),
    }
}

/// The response where another connection failed while it worked with the data.
#[must_use]
pub fn poisoned_store_response() -> (text: String)
    ensures
        text@ == poisoned_response("共享内存锁已中毒"@),
{
    format_error("INTERNAL", "共享内存锁已中毒")
}

/// How a frame is answered.
#[derive(Debug, PartialEq, Eq)]
pub enum FrameAnswer {
    /// The client has gone.
    Closed,
    /// Send a response, and close the connection after that where it says so.
    Respond { response: String, close: bool },
    /// Execute a request and send its response, and close the connection after that where
    /// it says so.
    Execute { request: Request, close: bool },
}

/// The answer to a frame over character sequences.
pub ghost enum FrameAnswerView {
    Closed,
    Respond { response: Seq<char>, close: bool },
    Execute { request: RequestView, close: bool },
}

impl View for FrameAnswer {
    type V = FrameAnswerView;

    open spec fn view(&self) -> FrameAnswerView {
        match self {
            FrameAnswer::Closed => FrameAnswerView::Closed,
            FrameAnswer::Respond { response, close } => FrameAnswerView::Respond {
                response: response@,
                close: *close,
            },
            FrameAnswer::Execute { request, close } => FrameAnswerView::Execute {
                request: request@,
                close: *close,
            },
        }
    }
}

/// How a frame is answered: a broken frame ends the connection, a line that is no request
/// does not.
pub open spec fn frame_answer(
    frame: Result<Option<Seq<char>>, ProtocolErrorView>,
) -> FrameAnswerView {
    match frame {
        Ok(None) => FrameAnswerView::Closed,
        Err(error) => FrameAnswerView::Respond {
            response: response(error_fields("PROTOCOL"@, error.text())),
            close: true,
        },
        Ok(Some(line)) => match request_of_words(words(line)) {
            Err(error) => FrameAnswerView::Respond {
                response: response(error_fields("INVALID_COMMAND"@, error.text())),
                close: false,
            },
            Ok(request) => FrameAnswerView::Execute { request, close: request is Quit },
        },
    }
}

/// Decides how a frame is answered.
pub fn answer_frame(frame: Result<Option<String>, ProtocolError>) -> (answer: FrameAnswer)
    ensures
        answer@ == frame_answer(frame_view(frame)),
{
    match frame {
        Ok(None) => FrameAnswer::Closed,
        Err(error) => FrameAnswer::Respond {
            response: format_error("PROTOCOL", error.message().as_str()),
            close: true,
        },
        Ok(Some(line)) => match parse_request(line.as_str()) {
            Err(error) => FrameAnswer::Respond {
                response: format_error("INVALID_COMMAND", error.message().as_str()),
                close: false,
            },
            Ok(request) => {
                let close: bool = match request {
                    Request::Quit => true,
                    _ => false,
                };
                FrameAnswer::Execute { request, close }
            },
        },
    }
}

/// Reads the arguments of the program.
pub fn parse_address(args: Vec<String>) -> (result: Result<String, String>)
    ensures
        result_view(result) == address_of(views(args@)),
{
    crate::kv_client::parse_args(args)
}

/// Writing a key that exists keeps the number of keys; a new key adds one.
pub proof fn law_overwriting_does_not_grow(contents: Contents, key: Seq<char>, value: Seq<char>)
    requires
        contents.dom().finite(),
    ensures
        ({
            let set = RequestView::Execute(CommandView::SetValue { key, value });
            after_request(contents, set).len() == if contents.contains_key(key) {
                contents.len()
            } else {
                contents.len() + 1
            }
        }),
{
    let after = contents.insert(key, value);
    if contents.contains_key(key) {
        assert(after.dom() =~= contents.dom());
    } else {
        assert(after.dom() =~= contents.dom().insert(key));
    }
}

/// The request for the value of a key.
pub open spec fn get_request(key: Seq<char>) -> RequestView {
    RequestView::Execute(CommandView::Get { key })
}

/// After a SET of a key, whether or not the key existed, GET of that key answers the value
/// just set, and GET of any other key is answered as before. After an UPDATE, it is the same
/// for a key that is stored; else nothing has changed. After a DELETE, the key is not found.
pub proof fn law_what_get_answers_after_a_write(
    contents: Contents,
    key: Seq<char>,
    value: Seq<char>,
    other: Seq<char>,
)
    ensures
        ({
            let set = RequestView::Execute(CommandView::SetValue { key, value });
            let fields = split(
                response_to(after_request(contents, set), get_request(key)),
                '\t',
            );
            &&& fields.len() == 2
            &&& fields[0] == "VALUE"@
            &&& unescaped(fields[1]) == value
            &&& other != key ==> response_to(after_request(contents, set), get_request(other))
                == response_to(contents, get_request(other))
        }),
        ({
            let update = RequestView::Execute(CommandView::Update { key, value });
            let fields = split(
                response_to(after_request(contents, update), get_request(key)),
                '\t',
            );
            &&& contents.contains_key(key) ==> fields.len() == 2 && fields[0] == "VALUE"@
                && unescaped(fields[1]) == value
            &&& !contents.contains_key(key) ==> after_request(contents, update) == contents
            &&& other != key ==> response_to(after_request(contents, update), get_request(other))
                == response_to(contents, get_request(other))
        }),
        ({
            let delete = RequestView::Execute(CommandView::Delete { key });
            let fields = split(
                response_to(after_request(contents, delete), get_request(key)),
                '\t',
            );
            &&& fields.len() == 3
            &&& fields[0] == "ERR"@
            &&& unescaped(fields[1]) == "NOT_FOUND"@
            &&& unescaped(fields[2]) == key
            &&& other != key ==> response_to(after_request(contents, delete), get_request(other))
                == response_to(contents, get_request(other))
        }),
{
    law_response_says_what_was_done(ReplyView::Value(value));
    law_error_says_why("NOT_FOUND"@, key);
}

/// How the commands on a key are answered: SET always with OK, UPDATE and DELETE just where the
/// key is stored, GET with the value of the key; else the key was not found, and the answer
/// names it.
pub proof fn law_answers_on_a_key(contents: Contents, key: Seq<char>, value: Seq<char>)
    ensures
        ({
            let set = response_to(
                contents,
                RequestView::Execute(CommandView::SetValue { key, value }),
            );
            let update = response_to(
                contents,
                RequestView::Execute(CommandView::Update { key, value }),
            );
            let delete = response_to(contents, RequestView::Execute(CommandView::Delete { key }));
            let get = response_to(contents, get_request(key));
            let fields = split(get, '\t');
            &&& split(set, '\t') == seq!["OK"@]
            &&& contents.contains_key(key) ==> {
                &&& update == set
                &&& delete == set
                &&& fields.len() == 2
                &&& fields[0] == "VALUE"@
                &&& unescaped(fields[1]) == contents[key]
            }
            &&& !contents.contains_key(key) ==> {
                &&& update == get
                &&& delete == get
                &&& reports_error(get)
                &&& fields.len() == 3
                &&& unescaped(fields[1]) == "NOT_FOUND"@
                &&& unescaped(fields[2]) == key
            }
        }),
{
    reveal_strlit("OK");
    lemma_split_none("OK"@, '\t');
    law_response_says_what_was_done(ReplyView::Value(contents[key]));
    law_error_says_why("NOT_FOUND"@, key);
    if !contents.contains_key(key) {
        lemma_reports_error(response_to(contents, get_request(key)));
    }
}

/// The data after a command is what the store of the persistent server holds after it, and a
/// command is answered with an error just where that store refuses it; an empty key aside,
/// which no request can hold.
pub proof fn law_memory_follows_the_same_rules(contents: Contents, command: CommandView)
    requires
        key_of(command) matches Some(key) ==> key.len() > 0,
    ensures
        after_request(contents, RequestView::Execute(command)) == applied(contents, command),
        reports_error(response_to(contents, RequestView::Execute(command))) <==> answer(
            contents,
            command,
        ) is Err,
{
    let text = response_to(contents, RequestView::Execute(command));
    reveal_strlit("ERR\t");
    reveal_strlit("OK");
    match command {
        CommandView::Delete { key } => {
            if !contents.contains_key(key) {
                assert(contents.remove(key) =~= contents);
            }
            law_answers_on_a_key(contents, key, key);
        },
        CommandView::SetValue { key, value } => {
            law_answers_on_a_key(contents, key, value);
        },
        CommandView::Update { key, value } => {
            law_answers_on_a_key(contents, key, value);
        },
        CommandView::Get { key } => {
            law_answers_on_a_key(contents, key, key);
            if contents.contains_key(key) {
                lemma_no_error(ReplyView::Value(contents[key]));
            }
        },
        CommandView::Keys => {
            lemma_no_error(ReplyView::Keys(sorted_keys(contents)));
        },
        CommandView::Status => {
            reveal_strlit("STATUS\trunning\tkeys=");
            assert(text[0] == 'S');
            if reports_error(text) {
                assert(text.take(4)[0] == text[0]);
            }
        },
    }
}

proof fn lemma_no_error(reply: ReplyView)
    ensures
        !reports_error(response(reply_fields(reply))),
{
    let outcome = crate::engine::ExecutionOutcomeView { reply, auto_checkpoint: None };
    crate::server::law_error_responses_report_errors(Ok(outcome), crate::metrics::no_metrics());
}

/// KEYS lists the stored keys, all of them and no other, and STATUS counts them, in the form
/// of the persistent server. Neither changes the data.
pub proof fn law_listing_in_memory(contents: Contents, key: Seq<char>)
    requires
        contents.dom().finite(),
    ensures
        ({
            let request = RequestView::Execute(CommandView::Keys);
            let fields = split(response_to(contents, request), '\t');
            &&& after_request(contents, request) == contents
            &&& fields.len() == 2 + contents.len()
            &&& fields[0] == "KEYS"@
            &&& parsed(fields[1], 10, contents.len()) == Some(contents.len())
            &&& contents.contains_key(key) <==> exists|i: int|
                2 <= i < fields.len() && unescaped(#[trigger] fields[i]) == key
        }),
        ({
            let request = RequestView::Execute(CommandView::Status);
            let fields = split(response_to(contents, request), '\t');
            &&& after_request(contents, request) == contents
            &&& fields.len() == 3
            &&& fields[0] == "STATUS"@
            &&& fields[1] == "running"@
            &&& fields[2].take(5) == "keys="@
            &&& parsed(fields[2].skip(5), 10, contents.len()) == Some(contents.len())
        }),
{
    let keys = sorted_keys(contents);
    let fields = split(response(reply_fields(ReplyView::Keys(keys))), '\t');
    law_response_says_what_was_done(ReplyView::Keys(keys));
    law_reading_shows_what_is_stored(contents, key);
    if contents.contains_key(key) {
        let at = choose|i: int| 0 <= i < keys.len() && keys[i] == key;
        assert(unescaped(fields[at + 2]) == keys[at]);
    }
    if exists|i: int| 2 <= i < fields.len() && unescaped(#[trigger] fields[i]) == key {
        let at = choose|i: int| 2 <= i < fields.len() && unescaped(#[trigger] fields[i]) == key;
        assert(unescaped(fields[at - 2 + 2]) == keys[at - 2]);
        assert(keys.contains(key));
    }
    let reply = ReplyView::Status { key_count: contents.len() };
    law_response_says_what_was_done(reply);
    let three = reply_fields(reply);
    reveal_strlit("STATUS");
    reveal_strlit("running");
    reveal_strlit("keys=");
    reveal_strlit("STATUS\trunning\tkeys=");
    let two = three.drop_last();
    assert(two.drop_last() =~= seq!["STATUS"@]);
    assert(response(two.drop_last()) == "STATUS"@);
    assert(response(two) == response(two.drop_last()) + seq!['\t'] + two.last());
    assert(response(three) == response(two) + seq!['\t'] + three.last());
    assert("STATUS\trunning\tkeys="@ + decimal(contents.len()) =~= response(three));
}

/// What this server does not do is refused and changes nothing; a QUIT is taken leave of.
pub proof fn law_unsupported_requests_change_nothing(contents: Contents, request: RequestView)
    requires
        !(request is Execute),
    ensures
        after_request(contents, request) == contents,
        request is Quit ==> split(response_to(contents, request), '\t') == seq!["OK"@, "BYE"@],
        !(request is Quit) ==> ({
            let text = response_to(contents, request);
            let fields = split(text, '\t');
            &&& reports_error(text)
            &&& fields.len() == 3
            &&& unescaped(fields[1]) == "UNSUPPORTED"@
            &&& request is Save ==> unescaped(fields[2]) == "纯内存实验模式不支持 SAVE"@
            &&& !(request is Save) ==> unescaped(fields[2]) == "纯内存实验模式不支持 CLEAR"@
        }),
{
    let text = response_to(contents, request);
    if request is Quit {
        reveal_strlit("OK");
        reveal_strlit("BYE");
        reveal_strlit("OK\tBYE");
        let fields = seq!["OK"@, "BYE"@];
        assert forall|i: int| 0 <= i < fields.len() implies !(#[trigger] fields[i]).contains(
            '\t',
        ) by {}
        law_split_of_join(fields, '\t');
        assert(fields.drop_last() =~= seq!["OK"@]);
        assert(join(fields.drop_last(), seq!['\t']) == "OK"@);
        assert(text =~= join(fields, seq!['\t']));
    } else {
        law_error_says_why("UNSUPPORTED"@, "纯内存实验模式不支持 SAVE"@);
        law_error_says_why("UNSUPPORTED"@, "纯内存实验模式不支持 CLEAR"@);
        lemma_reports_error(text);
    }
}

/// A line that is a request is executed as that request, and only a QUIT closes the connection
/// after it. A line that is no request is answered with why, and the connection stays; bytes
/// that make no frame are answered with why and end it.
pub proof fn law_what_follows_from_a_frame_in_memory(line: Seq<char>, error: ProtocolErrorView)
    ensures
        frame_answer(Ok(None)) is Closed,
        request_of_words(words(line)) matches Ok(request) ==> frame_answer(Ok(Some(line))) == (
        FrameAnswerView::Execute { request, close: request is Quit }),
        request_of_words(words(line)) matches Err(reason) ==> ({
            let answer = frame_answer(Ok(Some(line)));
            let fields = split(answer->response, '\t');
            &&& answer is Respond
            &&& !answer->Respond_close
            &&& fields.len() == 3
            &&& fields[0] == "ERR"@
            &&& unescaped(fields[1]) == "INVALID_COMMAND"@
            &&& unescaped(fields[2]) == reason.text()
        }),
        ({
            let answer = frame_answer(Err(error));
            let fields = split(answer->response, '\t');
            &&& answer is Respond
            &&& answer->Respond_close
            &&& fields.len() == 3
            &&& fields[0] == "ERR"@
            &&& unescaped(fields[1]) == "PROTOCOL"@
            &&& unescaped(fields[2]) == error.text()
        }),
{
    law_error_says_why("PROTOCOL"@, error.text());
    match request_of_words(words(line)) {
        Ok(_) => {},
        Err(reason) => {
            law_error_says_why("INVALID_COMMAND"@, reason.text());
        },
    }
}

} // verus!
