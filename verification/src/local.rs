//! The local command line: the engine without a server.
//!
//! It reads the same commands as the server.

use vstd::prelude::*;

use crate::domain::{
    answer, applied, Command, CommandView, DomainError, DomainErrorView, Reply, ReplyView,
    SetOutcome, SetOutcomeView,
};
use crate::engine::{EngineError, EngineErrorView};
use crate::number::{decimal, law_parse_of_decimal, parsed, push_decimal};
use crate::protocol::{parse_request, request_of_words, Request, RequestView};
use crate::result_view;
use crate::text::{
    join, join_texts, law_trimming_keeps_the_words, lemma_word_of_letters, same_ignoring_case,
    same_text, trim_text, trimmed, upper, views, words,
};
use crate::text_map::Contents;

verus! {

/// What an input line asks for.
#[derive(Debug, PartialEq, Eq)]
pub enum LocalCommand {
    Domain(Command),
    Save,
    Help,
    Exit,
}

/// A local command over character sequences.
pub ghost enum LocalCommandView {
    Domain(CommandView),
    Save,
    Help,
    Exit,
}

impl View for LocalCommand {
    type V = LocalCommandView;

    open spec fn view(&self) -> LocalCommandView {
        match self {
            LocalCommand::Domain(command) => LocalCommandView::Domain(command@),
            LocalCommand::Save => LocalCommandView::Save,
            LocalCommand::Help => LocalCommandView::Help,
            LocalCommand::Exit => LocalCommandView::Exit,
        }
    }
}

/// The data directory that optional arguments name.
pub open spec fn data_dir_of(args: Seq<Seq<char>>) -> Result<Seq<char>, Seq<char>> {
    if args.len() == 0 {
        Ok("data"@)
    } else if args.len() == 2 && args[0] == "--data-dir"@ {
        Ok(args[1])
    } else {
        Err("用法：kv_storage_rust [--data-dir PATH]"@)
    }
}

/// Reads the arguments of the program.
pub fn parse_data_dir(args: Vec<String>) -> (result: Result<String, String>)
    ensures
        result_view(result) == data_dir_of(views(args@)),
{
    assert(forall|i: int| 0 <= i < args@.len() ==> #[trigger] views(args@)[i] == args@[i]@);
    if args.len() == 0 {
        Ok("data".to_owned())
    } else if args.len() == 2 && same_text(args[0].as_str(), "--data-dir") {
        Ok(args[1].clone())
    } else {
        Err("用法：kv_storage_rust [--data-dir PATH]".to_owned())
    }
}

/// What an input line asks for. To remove all data is for the server only.
pub open spec fn local_command_of(input: Seq<char>) -> Result<LocalCommandView, Seq<char>> {
    let line = trimmed(input);
    if upper(line) == upper("HELP"@) {
        Ok(LocalCommandView::Help)
    } else {
        match request_of_words(words(line)) {
            Err(error) => Err(error.text()),
            Ok(RequestView::Execute(command)) => Ok(LocalCommandView::Domain(command)),
            Ok(RequestView::Save) => Ok(LocalCommandView::Save),
            Ok(RequestView::Quit) => Ok(LocalCommandView::Exit),
            Ok(_) => Err("本地模式不支持 CLEAR"@),
        }
    }
}

/// Reads an input line.
pub fn parse_local_command(input: &str) -> (result: Result<LocalCommand, String>)
    ensures
        result_view(result) == local_command_of(input@),
{
    let line = trim_text(input);
    if same_ignoring_case(line.as_str(), "HELP") {
        return Ok(LocalCommand::Help);
    }
    match parse_request(line.as_str()) {
        Err(error) => Err(error.message()),
        Ok(Request::Execute(command)) => Ok(LocalCommand::Domain(command)),
        Ok(Request::Save) => Ok(LocalCommand::Save),
        Ok(Request::Quit) => Ok(LocalCommand::Exit),
        Ok(_) => Err("本地模式不支持 CLEAR".to_owned()),
    }
}

// ---------------------------------------------------------------------------------------
// Output
// ---------------------------------------------------------------------------------------

/// The lines that show a reply.
pub open spec fn reply_lines(reply: ReplyView) -> Seq<Seq<char>> {
    match reply {
        ReplyView::SetValue(SetOutcomeView::Created) => seq!["OK CREATED"@],
        ReplyView::SetValue(SetOutcomeView::Overwritten { old_value }) => seq![
            "OK OVERWRITTEN old="@ + old_value,
        ],
        ReplyView::Updated { old_value } => seq!["OK UPDATED old="@ + old_value],
        ReplyView::Value(value) => seq!["VALUE "@ + value],
        ReplyView::Deleted { value } => seq!["OK DELETED value="@ + value],
        ReplyView::Keys(keys) => seq!["KEYS "@ + decimal(keys.len())] + keys.map_values(
            |key: Seq<char>| "  "@ + key,
        ),
        ReplyView::Status { key_count } => seq!["STATUS running keys="@ + decimal(key_count)],
    }
}

/// The line that shows a domain error.
pub open spec fn domain_error_line(error: DomainErrorView) -> Seq<char> {
    match error {
        DomainErrorView::EmptyKey => "ERR EMPTY_KEY key 不能为空"@,
        DomainErrorView::NotFound { key } => "ERR NOT_FOUND "@ + key,
    }
}

/// The text that shows the result of a command.
pub open spec fn shown_result(result: Result<ReplyView, EngineErrorView>) -> Seq<char> {
    match result {
        Ok(reply) => join(reply_lines(reply), "\n"@),
        Err(EngineErrorView::Domain(error)) => domain_error_line(error),
        Err(EngineErrorView::Persistence(error)) => "ERR PERSISTENCE "@ + error.text(),
    }
}

/// The line that shows the result of a checkpoint.
pub open spec fn shown_save(result: Result<(), EngineErrorView>) -> Seq<char> {
    match result {
        Ok(_) => "OK SNAPSHOT_SAVED"@,
        Err(error) => "ERR SNAPSHOT "@ + error.text(),
    }
}

fn labelled(label: &str, text: &str) -> (line: String)
    ensures
        line@ == label@ + text@,
{
    let mut line = label.to_owned();
    line.append(text);
    line
}

fn format_keys(keys: &Vec<String>) -> (text: String)
    ensures
        text@ == join(reply_lines(ReplyView::Keys(views(keys@))), "\n"@),
{
    let mut first = "KEYS ".to_owned();
    push_decimal(&mut first, keys.len() as u128);
    let mut lines: Vec<String> = Vec::new();
    lines.push(first);
    let ghost all = reply_lines(ReplyView::Keys(views(keys@)));
    let mut i: usize = 0;
    assert(views(lines@) =~= all.take(1));
    while i < keys.len()
        invariant
            i <= keys@.len(),
            all == reply_lines(ReplyView::Keys(views(keys@))),
            views(lines@) == all.take(i + 1),
        decreases keys@.len() - i,
    {
        let ghost before = lines@;
        lines.push(labelled("  ", keys[i].as_str()));
        proof {
            assert(all[i + 1] == "  "@ + views(keys@)[i as int]);
            assert(views(lines@) =~= views(before).push(all[i + 1]));
            assert(all.take(i + 2) =~= all.take(i + 1).push(all[i + 1]));
        }
        i += 1;
    }
    assert(all.take(i + 1) =~= all);
    join_texts(&lines, "\n")
}

/// The text that shows a reply.
#[must_use]
pub fn format_local_reply(reply: &Reply) -> (text: String)
    ensures
        text@ == join(reply_lines(reply@), "\n"@),
{
    match reply {
        Reply::SetValue(SetOutcome::Created) => "OK CREATED".to_owned(),
        Reply::SetValue(SetOutcome::Overwritten { old_value }) => labelled(
            "OK OVERWRITTEN old=",
            old_value.as_str(),
        ),
        Reply::Updated { old_value } => labelled("OK UPDATED old=", old_value.as_str()),
        Reply::Value(value) => labelled("VALUE ", value.as_str()),
        Reply::Deleted { value } => labelled("OK DELETED value=", value.as_str()),
        Reply::Keys(keys) => format_keys(keys),
        Reply::Status(status) => {
            let mut line = "STATUS running keys=".to_owned();
            push_decimal(&mut line, status.key_count as u128);
            line
        },
    }
}

/// The text that shows the result of a command.
#[must_use]
pub fn format_result(result: &Result<Reply, EngineError>) -> (text: String)
    ensures
        text@ == shown_result(result_view(*result)),
{
    match result {
        Ok(reply) => format_local_reply(reply),
        Err(EngineError::Domain(DomainError::EmptyKey)) => "ERR EMPTY_KEY key 不能为空".to_owned(),
        Err(EngineError::Domain(DomainError::NotFound { key })) => labelled(
            "ERR NOT_FOUND ",
            key.as_str(),
        ),
        Err(EngineError::Persistence(error)) => labelled(
            "ERR PERSISTENCE ",
            error.message().as_str(),
        ),
    }
}

/// The line that shows the result of a checkpoint.
#[must_use]
pub fn format_save(result: &Result<(), EngineError>) -> (text: String)
    ensures
        text@ == shown_save(result_view(*result)),
{
    match result {
        Ok(()) => "OK SNAPSHOT_SAVED".to_owned(),
        Err(error) => labelled("ERR SNAPSHOT ", error.message().as_str()),
    }
}

// ---------------------------------------------------------------------------------------
// Laws
// ---------------------------------------------------------------------------------------

/// A line at the prompt is read as the server reads it: what is a command there is the same
/// command here, what asks for a checkpoint or to quit does so here, and what is no request is
/// refused with the same text. Only HELP, in any case, is read here alone, and CLEAR and its
/// confirmation there alone.
pub proof fn law_the_prompt_reads_as_the_server(input: Seq<char>, command: CommandView)
    ensures
        ({
            let request = request_of_words(words(input));
            let local = local_command_of(input);
            let help = upper(trimmed(input)) == "HELP"@;
            &&& help <==> local == Ok::<_, Seq<char>>(LocalCommandView::Help)
            &&& !help && (request matches Ok(RequestView::Execute(given)) && given == command)
                ==> local == Ok::<_, Seq<char>>(LocalCommandView::Domain(command))
            &&& local == Ok::<_, Seq<char>>(LocalCommandView::Domain(command)) ==> request is Ok
                && request->Ok_0 == RequestView::Execute(command)
            &&& local == Ok::<_, Seq<char>>(LocalCommandView::Save) <==> request is Ok
                && request->Ok_0 is Save
            &&& local == Ok::<_, Seq<char>>(LocalCommandView::Exit) <==> request is Ok
                && request->Ok_0 is Quit
            &&& !help ==> (request matches Err(error) ==> local == Err::<LocalCommandView, _>(
                error.text(),
            ))
            &&& request is Ok && (request->Ok_0 is Clear || request->Ok_0 is Yes
                || request->Ok_0 is No) ==> local == Err::<LocalCommandView, _>(
                "本地模式不支持 CLEAR"@,
            )
        }),
{
    let line = trimmed(input);
    law_trimming_keeps_the_words(input);
    reveal_strlit("HELP");
    assert(upper("HELP"@) =~= "HELP"@);
    if upper(line) == "HELP"@ {
        lemma_word_of_letters(line, "HELP"@);
        lemma_help_is_no_request(words(input));
    }
}

proof fn lemma_help_is_no_request(parts: Seq<Seq<char>>)
    requires
        parts.len() == 1,
        upper(parts[0]) == "HELP"@,
    ensures
        request_of_words(parts) is Err,
{
    reveal_strlit("HELP");
    reveal_strlit("SET");
    reveal_strlit("UPDATE");
    reveal_strlit("GET");
    reveal_strlit("DELETE");
    reveal_strlit("KEYS");
    reveal_strlit("STATUS");
    reveal_strlit("SAVE");
    reveal_strlit("CLEAR");
    reveal_strlit("YES");
    reveal_strlit("NO");
    reveal_strlit("QUIT");
    reveal_strlit("EXIT");
    let name = "HELP"@;
    assert(name[0] == 'H');
    assert("KEYS"@[0] != 'H' && "SAVE"@[0] != 'H' && "QUIT"@[0] != 'H' && "EXIT"@[0] != 'H');
    assert(name.len() != "SET"@.len() && name.len() != "UPDATE"@.len());
    assert(name.len() != "GET"@.len() && name.len() != "DELETE"@.len());
    assert(name.len() != "STATUS"@.len() && name.len() != "CLEAR"@.len());
    assert(name.len() != "YES"@.len() && name.len() != "NO"@.len());
}

/// An UPDATE at the prompt is an update: of a key that is not stored it fails, shows that and
/// leaves the store as it was, and of a stored key it gives the key the value.
pub proof fn law_update_at_the_prompt(
    input: Seq<char>,
    key: Seq<char>,
    value: Seq<char>,
    contents: Contents,
)
    requires
        request_of_words(words(input)) matches Ok(RequestView::Execute(given)) && given
            == (CommandView::Update { key, value }),
        upper(trimmed(input)) != "HELP"@,
        key.len() > 0,
    ensures
        ({
            let local = local_command_of(input);
            &&& local matches Ok(LocalCommandView::Domain(command)) && {
                let result = answer(contents, command);
                let after = applied(contents, command);
                &&& !contents.contains_key(key) ==> {
                    &&& result == Err::<ReplyView, _>(DomainErrorView::NotFound { key })
                    &&& after == contents
                    &&& shown_result(
                        Err(EngineErrorView::Domain(DomainErrorView::NotFound { key })),
                    ) == "ERR NOT_FOUND "@ + key
                }
                &&& contents.contains_key(key) ==> {
                    &&& result == Ok::<_, DomainErrorView>(
                        ReplyView::Updated { old_value: contents[key] },
                    )
                    &&& after == contents.insert(key, value)
                }
            }
        }),
{
    law_the_prompt_reads_as_the_server(input, CommandView::Update { key, value });
}

/// What is shown of a reply tells what was done, and the value, the number or the keys that it
/// holds, each as it is.
pub proof fn law_shown_replies_tell_all(reply: ReplyView)
    ensures
        ({
            let shown = shown_result(Ok(reply));
            let lines = reply_lines(reply);
            &&& shown == join(lines, "\n"@)
            &&& match reply {
                ReplyView::SetValue(SetOutcomeView::Created) => shown == "OK CREATED"@,
                ReplyView::SetValue(SetOutcomeView::Overwritten { old_value }) => {
                    &&& shown.take(19) == "OK OVERWRITTEN old="@
                    &&& shown.skip(19) == old_value
                },
                ReplyView::Updated { old_value } => {
                    &&& shown.take(15) == "OK UPDATED old="@
                    &&& shown.skip(15) == old_value
                },
                ReplyView::Value(value) => {
                    &&& shown.take(6) == "VALUE "@
                    &&& shown.skip(6) == value
                },
                ReplyView::Deleted { value } => {
                    &&& shown.take(17) == "OK DELETED value="@
                    &&& shown.skip(17) == value
                },
                ReplyView::Keys(keys) => {
                    &&& lines.len() == keys.len() + 1
                    &&& lines[0].take(5) == "KEYS "@
                    &&& parsed(lines[0].skip(5), 10, keys.len()) == Some(keys.len())
                    &&& forall|i: int|
                        0 <= i < keys.len() ==> lines[i + 1].skip(2) == #[trigger] keys[i]
                },
                ReplyView::Status { key_count } => {
                    &&& shown.take(20) == "STATUS running keys="@
                    &&& parsed(shown.skip(20), 10, key_count) == Some(key_count)
                },
            }
        }),
{
    let shown = shown_result(Ok(reply));
    let lines = reply_lines(reply);
    match reply {
        ReplyView::SetValue(SetOutcomeView::Created) => {},
        ReplyView::SetValue(SetOutcomeView::Overwritten { old_value }) => {
            reveal_strlit("OK OVERWRITTEN old=");
            assert(shown.take(19) =~= "OK OVERWRITTEN old="@);
            assert(shown.skip(19) =~= old_value);
        },
        ReplyView::Updated { old_value } => {
            reveal_strlit("OK UPDATED old=");
            assert(shown.take(15) =~= "OK UPDATED old="@);
            assert(shown.skip(15) =~= old_value);
        },
        ReplyView::Value(value) => {
            reveal_strlit("VALUE ");
            assert(shown.take(6) =~= "VALUE "@);
            assert(shown.skip(6) =~= value);
        },
        ReplyView::Deleted { value } => {
            reveal_strlit("OK DELETED value=");
            assert(shown.take(17) =~= "OK DELETED value="@);
            assert(shown.skip(17) =~= value);
        },
        ReplyView::Keys(keys) => {
            reveal_strlit("KEYS ");
            reveal_strlit("  ");
            law_parse_of_decimal(keys.len(), keys.len());
            assert(lines[0].take(5) =~= "KEYS "@);
            assert(lines[0].skip(5) =~= decimal(keys.len()));
            assert forall|i: int| 0 <= i < keys.len() implies lines[i + 1].skip(2)
                == #[trigger] keys[i] by {
                assert(lines[i + 1] == "  "@ + keys[i]);
                assert(lines[i + 1].skip(2) =~= keys[i]);
            }
        },
        ReplyView::Status { key_count } => {
            reveal_strlit("STATUS running keys=");
            law_parse_of_decimal(key_count, key_count);
            assert(shown.take(20) =~= "STATUS running keys="@);
            assert(shown.skip(20) =~= decimal(key_count));
        },
    }
}

/// What is shown of a result begins with ERR just where it is an error, and an error is shown
/// with its key or its text. So is a checkpoint.
pub proof fn law_shown_errors_tell_why(
    result: Result<ReplyView, EngineErrorView>,
    saved: Result<(), EngineErrorView>,
)
    ensures
        ({
            let shown = shown_result(result);
            &&& result is Err <==> shown.len() > 4 && shown.take(4) == "ERR "@
            &&& result matches Err(EngineErrorView::Domain(DomainErrorView::NotFound { key }))
                ==> shown.take(14) == "ERR NOT_FOUND "@ && shown.skip(14) == key
            &&& result matches Err(EngineErrorView::Domain(DomainErrorView::EmptyKey)) ==> shown
                == "ERR EMPTY_KEY key 不能为空"@
            &&& result matches Err(EngineErrorView::Persistence(error)) ==> shown.take(16)
                == "ERR PERSISTENCE "@ && shown.skip(16) == error.text()
        }),
        saved is Ok ==> shown_save(saved) == "OK SNAPSHOT_SAVED"@,
        saved matches Err(error) ==> shown_save(saved).take(13) == "ERR SNAPSHOT "@ && shown_save(
            saved,
        ).skip(13) == error.text(),
{
    let shown = shown_result(result);
    reveal_strlit("ERR ");
    reveal_strlit("ERR NOT_FOUND ");
    reveal_strlit("ERR EMPTY_KEY key 不能为空");
    reveal_strlit("ERR PERSISTENCE ");
    reveal_strlit("ERR SNAPSHOT ");
    match result {
        Err(error) => {
            assert(shown.take(4) =~= "ERR "@);
            match error {
                EngineErrorView::Domain(DomainErrorView::NotFound { key }) => {
                    assert(shown.take(14) =~= "ERR NOT_FOUND "@);
                    assert(shown.skip(14) =~= key);
                },
                EngineErrorView::Domain(DomainErrorView::EmptyKey) => {},
                EngineErrorView::Persistence(why) => {
                    assert(shown.take(16) =~= "ERR PERSISTENCE "@);
                    assert(shown.skip(16) =~= why.text());
                },
            }
        },
        Ok(reply) => {
            law_shown_replies_tell_all(reply);
            reveal_strlit("OK CREATED");
            reveal_strlit("OK OVERWRITTEN old=");
            reveal_strlit("OK UPDATED old=");
            reveal_strlit("VALUE ");
            reveal_strlit("OK DELETED value=");
            reveal_strlit("KEYS ");
            reveal_strlit("STATUS running keys=");
            let lines = reply_lines(reply);
            assert(lines[0][0] != 'E');
            lemma_join_begins(lines, "\n"@);
            if shown.len() > 4 && shown.take(4) == "ERR "@ {
                assert(shown.take(4)[0] == shown[0]);
            }
        },
    }
    match saved {
        Ok(_) => {},
        Err(error) => {
            assert(shown_save(saved).take(13) =~= "ERR SNAPSHOT "@);
            assert(shown_save(saved).skip(13) =~= error.text());
        },
    }
}

proof fn lemma_join_begins(parts: Seq<Seq<char>>, sep: Seq<char>)
    requires
        parts.len() > 0,
        parts[0].len() > 0,
    ensures
        join(parts, sep).len() > 0,
        join(parts, sep)[0] == parts[0][0],
    decreases parts.len(),
{
    if parts.len() > 1 {
        assert(parts.drop_last()[0] == parts[0]);
        lemma_join_begins(parts.drop_last(), sep);
    }
}

/// The data directory is the one that the only option names; without an option it is `data`,
/// and anything else is refused.
pub proof fn law_data_dir_is_the_given_one(args: Seq<Seq<char>>, dir: Seq<char>)
    ensures
        data_dir_of(seq!["--data-dir"@, dir]) == Ok::<_, Seq<char>>(dir),
        data_dir_of(Seq::empty()) == Ok::<_, Seq<char>>("data"@),
        data_dir_of(args) is Ok ==> args.len() == 0 || args == seq!["--data-dir"@, args[1]],
        data_dir_of(args) matches Err(usage) ==> usage == "用法：kv_storage_rust [--data-dir PATH]"@,
{
    if args.len() == 2 && args[0] == "--data-dir"@ {
        assert(args =~= seq!["--data-dir"@, args[1]]);
    }
}

} // verus!
