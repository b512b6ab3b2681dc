//! The helper process that runs commands as another user.
//!
//! The helper is spoken to in lines of JSON. Every command carries a token
//! that was given to the helper when it was launched.

use vstd::prelude::*;

use crate::assoc::lookup;
use crate::json::{
    escaped, escaped_text, in_key_order, json_models, json_text, member_of, quoted, JsonObject, JsonValue,
    JsonView,
};
use crate::json_text::{parse_json, read_json};
use crate::sessions::error::{SessionError, SessionFault};
use crate::sessions::runner::{ActionState, CancelMethod};
use crate::text::{chars_of, decimal, push_decimal, text_of, text_views};

verus! {

/// The largest number of bytes of a line from the helper.
pub const MAX_RESPONSE_LINE_LENGTH: usize = 131_072;

/// The number of characters of a token.
pub const AUTH_TOKEN_LEN: usize = 22;

/// The character of a token that a random byte stands for: the lower six bits
/// choose among the letters, the digits, the hyphen and the underscore.
pub open spec fn token_char(byte: u8) -> char {
    let i = byte as nat % 64;
    if i < 26 {
        (65 + i) as char
    } else if i < 52 {
        (71 + i) as char
    } else if i < 62 {
        (i - 4) as char
    } else if i == 62 {
        '-'
    } else {
        '_'
    }
}

/// Whether a character may stand in a token.
pub open spec fn is_token_char(c: char) -> bool {
    'A' <= c <= 'Z' || 'a' <= c <= 'z' || '0' <= c <= '9' || c == '-' || c == '_'
}

/// The token that random bytes stand for.
pub open spec fn token_text(bytes: Seq<u8>) -> Seq<char> {
    Seq::new(bytes.len(), |i: int| token_char(bytes[i]))
}

/// Whether a text consists of characters of a token.
pub open spec fn is_token_text(text: Seq<char>) -> bool {
    forall|i: int| 0 <= i < text.len() ==> is_token_char(#[trigger] text[i])
}

/// Renders random bytes as a token.
pub fn render_token(bytes: &[u8]) -> (r: String)
    ensures
        r@ == token_text(bytes@),
        is_token_text(r@),
{
    let mut out = String::new();
    let mut i: usize = 0;
    while i < bytes.len()
        invariant
            i <= bytes@.len(),
            out@ == token_text(bytes@).take(i as int),
            is_token_text(out@),
        decreases bytes@.len() - i,
    {
        let index: u8 = bytes[i] % 64;
        let c = if index < 26 {
            (65 + index) as char
        } else if index < 52 {
            (71 + index) as char
        } else if index < 62 {
            (index - 4) as char
        } else if index == 62 {
            '-'
        } else {
            '_'
        };
        proof {
            assert(token_text(bytes@).take(i + 1) =~= token_text(bytes@).take(i as int).push(c));
        }
        out.push(c);
        i = i + 1;
    }
    assert(token_text(bytes@).take(i as int) =~= token_text(bytes@));
    out
}

/// The error of the random number generator of the operating system.
#[verifier::external_type_specification]
#[verifier::external_body]
pub struct ExRandomError(getrandom::Error);

/// `getrandom::fill` writes random bytes over a buffer. Which bytes they are,
/// and whether the operating system gives any, is not known before.
#[verifier::external_body]
fn fill_random(buffer: &mut Vec<u8>) -> (r: Result<(), getrandom::Error>)
    ensures
        final(buffer)@.len() == old(buffer)@.len(),
{
    getrandom::fill(buffer.as_mut_slice())
}

/// The text of a `getrandom::Error`. What the operating system says is not
/// known before.
#[verifier::external_body]
fn random_error_text(e: &getrandom::Error) -> (r: String) {
    format!("{e}")
}

/// Generates a token from random bytes of the operating system.
pub fn generate_auth_token() -> (r: Result<String, SessionError>)
    ensures
        match r {
            Ok(token) => token@.len() == AUTH_TOKEN_LEN && is_token_text(token@),
            Err(SessionError::HelperCommunication(message)) => exists|reason: Seq<char>|
                message@ == #[trigger] ("Failed to generate auth token: "@ + reason),
            Err(_) => false,
        },
{
    let mut raw: Vec<u8> = Vec::new();
    raw.resize(AUTH_TOKEN_LEN, 0);
    match fill_random(&mut raw) {
        Ok(()) => Ok(render_token(raw.as_slice())),
        Err(e) => {
            let reason = random_error_text(&e);
            let message = "Failed to generate auth token: ".to_owned().concat(reason.as_str());
            assert(message@ == "Failed to generate auth token: "@ + reason@);
            Err(SessionError::HelperCommunication(message))
        },
    }
}

/// What it takes for a command to be another with a token: the token is set
/// and every other member stays.
pub open spec fn carries_token(cmd: JsonView, token: Seq<char>, with_token: JsonView) -> bool {
    match (cmd, with_token) {
        (JsonView::Object(before), JsonView::Object(after)) => {
            &&& in_key_order(after)
            &&& forall|k: Seq<char>| #[trigger]
                lookup(after, k) == (if k == "token"@ {
                    Some(JsonView::Text(token))
                } else {
                    lookup(before, k)
                })
        },
        _ => false,
    }
}

/// The error of a command that is no object.
pub open spec fn not_an_object(cmd: JsonView) -> SessionFault {
    SessionFault::HelperCommunication("helper command must be a JSON object, got: "@ + json_text(cmd))
}

/// A command with the token, which replaces one that the command may have.
pub fn augment_with_token(cmd: &JsonValue, auth_token: &str) -> (r: Result<JsonValue, SessionError>)
    ensures
        match r {
            Ok(with_token) => carries_token(cmd@, auth_token@, with_token@),
            Err(e) => !(cmd@ is Object) && e@ == not_an_object(cmd@),
        },
{
    match cmd {
        JsonValue::Object(object) => {
            let mut with_token = object.clone();
            with_token.insert("token".to_owned(), JsonValue::Text(auth_token.to_owned()));
            Ok(JsonValue::Object(with_token))
        },
        _ => Err(
            SessionError::HelperCommunication(
                "helper command must be a JSON object, got: ".to_owned().concat(
                    cmd.to_string().as_str(),
                ),
            ),
        ),
    }
}

/// The line that hands a command to the helper.
pub fn command_line(cmd: &JsonValue, auth_token: &str) -> (r: Result<String, SessionError>)
    ensures
        match r {
            Ok(line) => exists|payload: JsonView|
                carries_token(cmd@, auth_token@, payload) && line@ == #[trigger] json_text(payload).push(
                    '\n',
                ),
            Err(e) => !(cmd@ is Object) && e@ == not_an_object(cmd@),
        },
{
    match augment_with_token(cmd, auth_token) {
        Ok(payload) => {
            let mut line = payload.to_string();
            line.push('\n');
            assert(line@ == json_text(payload@).push('\n'));
            Ok(line)
        },
        Err(e) => Err(e),
    }
}

/// The command that ends the helper.
pub fn shutdown_command() -> (r: JsonValue)
    ensures
        r@ matches JsonView::Object(entries) && in_key_order(entries) && forall|k: Seq<char>| #[trigger]
            lookup(entries, k) == (if k == "shutdown"@ {
                Some(JsonView::Bool(true))
            } else {
                None
            }),
{
    let mut object = JsonObject::new();
    object.insert("shutdown".to_owned(), JsonValue::Bool(true));
    JsonValue::Object(object)
}

/// The arguments with which the helper is launched as a user.
pub fn launch_args(user: &str, helper_path: &str, auth_token: &str) -> (r: Vec<String>)
    ensures
        text_views(r@) == seq!["-u"@, user@, "-i"@, helper_path@, "--auth-token"@, auth_token@],
{
    let mut args: Vec<String> = Vec::new();
    args.push("-u".to_owned());
    args.push(user.to_owned());
    args.push("-i".to_owned());
    args.push(helper_path.to_owned());
    args.push("--auth-token".to_owned());
    args.push(auth_token.to_owned());
    assert(text_views(args@) =~= seq![
        "-u"@,
        user@,
        "-i"@,
        helper_path@,
        "--auth-token"@,
        auth_token@,
    ]);
    args
}

/// The launch of the helper as errors show it, without the token.
pub fn redacted_launch(user: &str, helper_path: &str) -> (r: String)
    ensures
        r@ == "sudo -u "@ + user@ + " -i "@ + helper_path@ + " --auth-token <redacted>"@,
{
    "sudo -u ".to_owned().concat(user).concat(" -i ").concat(helper_path).concat(
        " --auth-token <redacted>",
    )
}

/// The arguments with which the helper is launched on Windows, where the user
/// is no part of them.
pub fn windows_launch_args(helper_path: &str, auth_token: &str) -> (r: Vec<String>)
    ensures
        text_views(r@) == seq![helper_path@, "--auth-token"@, auth_token@],
{
    let mut args: Vec<String> = Vec::new();
    args.push(helper_path.to_owned());
    args.push("--auth-token".to_owned());
    args.push(auth_token.to_owned());
    assert(text_views(args@) =~= seq![helper_path@, "--auth-token"@, auth_token@]);
    args
}

/// The launch of the helper on Windows as errors show it, without the token.
pub fn redacted_windows_launch(helper_path: &str) -> (r: String)
    ensures
        r@ == "spawn_as_user_with_stdin "@ + helper_path@ + " --auth-token <redacted>"@,
{
    "spawn_as_user_with_stdin ".to_owned().concat(helper_path).concat(" --auth-token <redacted>")
}

/// The grace period of a cancelation in whole seconds.
pub open spec fn grace_seconds(method: CancelMethod) -> nat {
    match method {
        CancelMethod::Terminate => 0,
        CancelMethod::NotifyThenTerminate { terminate_delay } => terminate_delay.secs as nat,
    }
}

/// The line that cancels the running command: at once without a grace period.
pub open spec fn cancel_text(token: Seq<char>, method: CancelMethod) -> Seq<char> {
    let start = "{\"token\":\""@ + token;
    if grace_seconds(method) == 0 {
        start + "\",\"cancel\":\"TERMINATE\"}\n"@
    } else {
        start + "\",\"cancel\":\"NOTIFY_THEN_TERMINATE\",\"notifyPeriodInSeconds\":"@ + decimal(
            grace_seconds(method),
        ) + "}\n"@
    }
}

/// The line that cancels the running command.
pub fn cancel_command(auth_token: &str, method: &CancelMethod) -> (r: String)
    ensures
        r@ == cancel_text(auth_token@, *method),
{
    let grace: u64 = match method {
        CancelMethod::Terminate => 0,
        CancelMethod::NotifyThenTerminate { terminate_delay } => terminate_delay.as_secs(),
    };
    let mut out = "{\"token\":\"".to_owned();
    out.append(auth_token);
    if grace == 0 {
        out.append("\",\"cancel\":\"TERMINATE\"}\n");
    } else {
        out.append("\",\"cancel\":\"NOTIFY_THEN_TERMINATE\",\"notifyPeriodInSeconds\":");
        push_decimal(&mut out, grace);
        out.append("}\n");
    }
    out
}

/// A token needs no escaping in a JSON string.
pub proof fn tokens_need_no_escaping(token: Seq<char>)
    requires
        is_token_text(token),
    ensures
        quoted(token) == seq!['"'] + token + seq!['"'],
    decreases token.len(),
{
    lemma_token_escaped(token);
}

proof fn lemma_token_escaped(token: Seq<char>)
    requires
        is_token_text(token),
    ensures
        escaped_text(token) == token,
    decreases token.len(),
{
    if token.len() > 0 {
        assert(is_token_char(token[token.len() - 1]));
        lemma_token_escaped(token.drop_last());
        assert(escaped(token.last()) =~= seq![token.last()]);
        assert(token.drop_last() + seq![token.last()] =~= token);
    } else {
        assert(escaped_text(token) =~= token);
    }
}

/// An environment variable: with a value, or to be unset.
#[derive(Debug)]
pub struct EnvVar {
    pub name: String,
    pub value: Option<String>,
}

/// The value that a variable is set to; the last entry counts.
pub open spec fn env_value(vars: Seq<EnvVar>, name: Seq<char>) -> Option<JsonView>
    decreases vars.len(),
{
    if vars.len() == 0 {
        None
    } else {
        match vars.last().value {
            Some(value) if vars.last().name@ == name => Some(JsonView::Text(value@)),
            _ => env_value(vars.drop_last(), name),
        }
    }
}

/// Whether an object holds the variables that are set and no others.
pub open spec fn holds_env(env: JsonView, vars: Seq<EnvVar>) -> bool {
    env matches JsonView::Object(entries) && in_key_order(entries) && forall|k: Seq<char>| #[trigger]
        lookup(entries, k) == env_value(vars, k)
}

fn env_object(vars: &Vec<EnvVar>) -> (r: JsonValue)
    ensures
        holds_env(r@, vars@),
{
    let mut object = JsonObject::new();
    let mut i: usize = 0;
    proof {
        assert(vars@.take(0) =~= seq![]);
    }
    while i < vars.len()
        invariant
            i <= vars@.len(),
            in_key_order(object@),
            forall|k: Seq<char>| #[trigger]
                lookup(object@, k) == env_value(vars@.take(i as int), k),
        decreases vars@.len() - i,
    {
        proof {
            assert(vars@.take(i + 1).drop_last() =~= vars@.take(i as int));
            assert(vars@.take(i + 1).last() == vars@[i as int]);
        }
        match &vars[i].value {
            Some(value) => object.insert(vars[i].name.clone(), JsonValue::Text(value.clone())),
            None => {},
        }
        i = i + 1;
    }
    assert(vars@.take(i as int) =~= vars@);
    JsonValue::Object(object)
}

/// Texts as JSON.
pub open spec fn text_array(texts: Seq<Seq<char>>) -> JsonView {
    JsonView::Array(Seq::new(texts.len(), |i: int| JsonView::Text(texts[i])))
}

fn args_array(args: &Vec<String>) -> (r: JsonValue)
    requires
        args@.len() > 0,
    ensures
        r@ == text_array(text_views(args@).skip(1)),
{
    let mut values: Vec<JsonValue> = Vec::new();
    let ghost texts = text_views(args@).skip(1);
    let mut i: usize = 1;
    while i < args.len()
        invariant
            1 <= i <= args@.len(),
            texts == text_views(args@).skip(1),
            values@.len() == i - 1,
            forall|j: int| 0 <= j < i - 1 ==> #[trigger] values@[j]@ == JsonView::Text(texts[j]),
        decreases args@.len() - i,
    {
        values.push(JsonValue::Text(args[i].clone()));
        i = i + 1;
    }
    let r = JsonValue::Array(values);
    proof {
        let expected = Seq::new(texts.len(), |i: int| JsonView::Text(texts[i]));
        assert forall|j: int| 0 <= j < texts.len() implies json_models(values@)[j] == expected[j] by {
            assert(json_models(values@)[j] == values@[j]@);
        }
        assert(json_models(values@) =~= expected);
    }
    r
}

/// Whether an object is the command that runs a process: its arguments, the
/// directory it runs in, and the variables that are set.
pub open spec fn runs_process(
    cmd: JsonView,
    args: Seq<Seq<char>>,
    vars: Seq<EnvVar>,
    cwd: Option<Seq<char>>,
) -> bool {
    cmd matches JsonView::Object(entries) && {
        &&& in_key_order(entries)
        &&& lookup(entries, "env"@) matches Some(env) && holds_env(env, vars)
        &&& forall|k: Seq<char>|
            k != "env"@ ==> #[trigger] lookup(entries, k) == (if k == "command"@ {
                Some(JsonView::Text(args[0]))
            } else if k == "args"@ {
                Some(text_array(args.skip(1)))
            } else if k == "cwd"@ {
                Some(
                    match cwd {
                        Some(path) => JsonView::Text(path),
                        None => JsonView::Null,
                    },
                )
            } else {
                None
            })
    }
}

/// The command that runs a process.
pub fn run_command(args: &Vec<String>, vars: &Vec<EnvVar>, cwd: &Option<String>) -> (r: JsonValue)
    requires
        args@.len() > 0,
    ensures
        runs_process(
            r@,
            text_views(args@),
            vars@,
            match cwd {
                Some(path) => Some(path@),
                None => None,
            },
        ),
{
    proof {
        reveal_strlit("command");
        reveal_strlit("args");
        reveal_strlit("env");
        reveal_strlit("cwd");
        assert("command"@.len() == 7 && "args"@.len() == 4 && "env"@.len() == 3 && "cwd"@.len() == 3);
        assert("env"@[0] == 'e' && "cwd"@[0] == 'c');
    }
    let mut object = JsonObject::new();
    object.insert("command".to_owned(), JsonValue::Text(args[0].clone()));
    object.insert("args".to_owned(), args_array(args));
    object.insert("env".to_owned(), env_object(vars));
    let directory = match cwd {
        Some(path) => JsonValue::Text(path.clone()),
        None => JsonValue::Null,
    };
    object.insert("cwd".to_owned(), directory);
    JsonValue::Object(object)
}

/// What reading a line from the helper came to.
#[derive(Clone, Copy, Debug, PartialEq, Eq, Structural)]
pub enum LineRead {
    /// The helper closed its output.
    End,
    /// The line goes on beyond the limit.
    TooLong,
    /// A whole line, or the rest of the output.
    Line,
}

/// Tells what a read of at most `MAX_RESPONSE_LINE_LENGTH` bytes came to, from
/// the number of bytes and whether they end in a line break.
pub fn classify_read(bytes: usize, ends_line: bool) -> (r: LineRead)
    ensures
        r == (if bytes == 0 {
            LineRead::End
        } else if bytes == MAX_RESPONSE_LINE_LENGTH && !ends_line {
            LineRead::TooLong
        } else {
            LineRead::Line
        }),
{
    if bytes == 0 {
        LineRead::End
    } else if bytes == MAX_RESPONSE_LINE_LENGTH && !ends_line {
        LineRead::TooLong
    } else {
        LineRead::Line
    }
}

/// The error of a line beyond the limit.
pub fn line_too_long() -> (e: SessionError)
    ensures
        e@ == SessionFault::HelperCommunication("response line exceeds 131072 byte limit"@),
{
    SessionError::HelperCommunication("response line exceeds 131072 byte limit".to_owned())
}

/// Whether a character is white space in the sense of Unicode.
pub open spec fn is_white_space(c: char) -> bool {
    let code = c as u32;
    ||| 0x9 <= code <= 0xd
    ||| code == 0x20 || code == 0x85 || code == 0xa0 || code == 0x1680
    ||| 0x2000 <= code <= 0x200a
    ||| code == 0x2028 || code == 0x2029 || code == 0x202f || code == 0x205f || code == 0x3000
}

/// A text without the white space at its end.
pub open spec fn trimmed_end(text: Seq<char>) -> Seq<char>
    decreases text.len(),
{
    if text.len() > 0 && is_white_space(text.last()) {
        trimmed_end(text.drop_last())
    } else {
        text
    }
}

fn trim_end(text: &str) -> (r: String)
    ensures
        r@ == trimmed_end(text@),
{
    let chars = chars_of(text);
    let mut end: usize = chars.len();
    assert(text@.take(end as int) =~= text@);
    while end > 0
        invariant_except_break
            trimmed_end(text@) == trimmed_end(text@.take(end as int)),
        invariant
            end <= chars@.len(),
            chars@ == text@,
        ensures
            trimmed_end(text@) == text@.take(end as int),
        decreases end,
    {
        let code: u32 = chars[end - 1] as u32;
        let ghost kept = text@.take(end as int);
        let white = (0x9 <= code && code <= 0xd) || code == 0x20 || code == 0x85 || code == 0xa0
            || code == 0x1680 || (0x2000 <= code && code <= 0x200a) || code == 0x2028 || code
            == 0x2029 || code == 0x202f || code == 0x205f || code == 0x3000;
        assert(white == is_white_space(kept.last()));
        if !white {
            break;
        }
        assert(kept.drop_last() =~= text@.take(end - 1));
        end = end - 1;
    }
    text_of(&chars, 0, end)
}

/// Reads the response on a line. What `serde_json` says of a text that is no
/// JSON is part of the error.
pub fn parse_response(line: &str) -> (r: Result<JsonValue, SessionError>)
    ensures
        match r {
            Ok(value) => read_json(trimmed_end(line@)) == Some(value@),
            Err(e) => read_json(trimmed_end(line@)) is None && exists|reason: Seq<char>|
                e@ == SessionFault::HelperCommunication(#[trigger] ("parse error: "@ + reason)),
        },
{
    match parse_json(trim_end(line).as_str()) {
        Ok(value) => Ok(value),
        Err(reason) => Err(
            SessionError::HelperCommunication("parse error: ".to_owned().concat(reason.as_str())),
        ),
    }
}

/// What the helper is asked to run, as far as decisions depend on it.
#[derive(Debug)]
pub struct HelperSettings {
    /// The command, for errors.
    pub command: String,
    /// Whether cancel commands can be sent while the command runs.
    pub can_send_cancel: bool,
    /// Whether the output is kept.
    pub collect_stdout: bool,
}

/// What is known of a command that the helper runs.
#[derive(Debug)]
pub struct HelperRun {
    pub timed_out: bool,
    pub saw_fail: bool,
    pub cancel_sent: bool,
    pub stdout: String,
}

/// What happens while the helper runs a command.
#[derive(Debug)]
pub enum HelperEvent {
    /// The helper closed its output.
    Closed,
    /// A response could not be read.
    Unreadable(SessionError),
    /// A response. `canceled` tells whether the action was canceled by then,
    /// over either channel.
    Response { value: JsonValue, canceled: bool },
    /// A line of output was filtered: the text to show, and whether it
    /// reports a failure.
    LineFiltered { display: String, fail: bool },
    /// The action is canceled.
    CancelRequested,
    /// The time of the action is over.
    TimedOut,
}

/// The result of a command.
#[derive(Debug)]
pub struct SubprocessResult {
    pub state: ActionState,
    pub exit_code: Option<i32>,
    pub stdout: String,
}

/// What is to be done next.
#[derive(Debug)]
pub enum HelperAction {
    /// Wait for the next event.
    Wait,
    /// Log that the command started as this process.
    LogPid(i64),
    /// Filter this line of output and report it.
    FilterLine(String),
    /// Send the cancel command.
    SendCancel,
    /// The command ended.
    Finish(SubprocessResult),
    /// The command cannot be run to its end.
    Fail(SessionError),
}

/// The model of a step's outcome.
#[verifier::ext_equal]
pub enum ActionView {
    Wait,
    LogPid(int),
    FilterLine(Seq<char>),
    SendCancel,
    Finish { state: ActionState, exit_code: Option<i32>, stdout: Seq<char> },
    Fail(SessionFault),
}

impl View for HelperAction {
    type V = ActionView;

    open spec fn view(&self) -> ActionView {
        match self {
            HelperAction::Wait => ActionView::Wait,
            HelperAction::LogPid(pid) => ActionView::LogPid(*pid as int),
            HelperAction::FilterLine(line) => ActionView::FilterLine(line@),
            HelperAction::SendCancel => ActionView::SendCancel,
            HelperAction::Finish(result) => ActionView::Finish {
                state: result.state,
                exit_code: result.exit_code,
                stdout: result.stdout@,
            },
            HelperAction::Fail(e) => ActionView::Fail(e@),
        }
    }
}

/// The model of a run.
#[verifier::ext_equal]
pub struct RunView {
    pub timed_out: bool,
    pub saw_fail: bool,
    pub cancel_sent: bool,
    pub stdout: Seq<char>,
}

impl View for HelperRun {
    type V = RunView;

    open spec fn view(&self) -> RunView {
        RunView {
            timed_out: self.timed_out,
            saw_fail: self.saw_fail,
            cancel_sent: self.cancel_sent,
            stdout: self.stdout@,
        }
    }
}

/// The state in which a command ended: a cancelation counts before a timeout,
/// a timeout before a reported failure, and that before the exit code.
pub open spec fn end_state(canceled: bool, run: RunView, exit_code: i32) -> ActionState {
    if canceled {
        ActionState::Canceled
    } else if run.timed_out {
        ActionState::Timeout
    } else if run.saw_fail {
        ActionState::Failed
    } else if exit_code == 0 {
        ActionState::Success
    } else {
        ActionState::Failed
    }
}

/// What a response asks for.
pub open spec fn response_action(
    run: RunView,
    command: Seq<char>,
    value: JsonView,
    canceled: bool,
) -> ActionView {
    match (
        member_of(value, "pid"@),
        member_of(value, "out"@),
        member_of(value, "exited"@),
        member_of(value, "error"@),
    ) {
        (Some(JsonView::Int(pid)), _, _, _) => ActionView::LogPid(pid),
        (_, Some(JsonView::Text(line)), _, _) => ActionView::FilterLine(line),
        (_, _, Some(JsonView::Int(code)), _) => ActionView::Finish {
            state: end_state(canceled, run, code as i32),
            exit_code: Some(code as i32),
            stdout: run.stdout,
        },
        (_, _, _, Some(JsonView::Text(message))) => ActionView::Fail(
            SessionFault::SubprocessStart { command, source: message },
        ),
        _ => ActionView::Fail(
            SessionFault::HelperCommunication("Unexpected helper response: "@ + json_text(value)),
        ),
    }
}

/// The run after an event, and what is to be done.
pub open spec fn next_step(
    run: RunView,
    command: Seq<char>,
    can_send_cancel: bool,
    collect_stdout: bool,
    event: HelperEvent,
) -> (RunView, ActionView) {
    match event {
        HelperEvent::Closed => (
            run,
            ActionView::Fail(
                SessionFault::HelperCommunication("Helper process closed stdout unexpectedly"@),
            ),
        ),
        HelperEvent::Unreadable(e) => (run, ActionView::Fail(e@)),
        HelperEvent::Response { value, canceled } => (
            run,
            response_action(run, command, value@, canceled),
        ),
        HelperEvent::LineFiltered { display, fail } => (
            RunView {
                saw_fail: run.saw_fail || fail,
                stdout: if collect_stdout {
                    (run.stdout + display@).push('\n')
                } else {
                    run.stdout
                },
                ..run
            },
            ActionView::Wait,
        ),
        HelperEvent::CancelRequested => if run.cancel_sent {
            (run, ActionView::Wait)
        } else {
            (
                RunView { cancel_sent: true, ..run },
                if can_send_cancel {
                    ActionView::SendCancel
                } else {
                    ActionView::Wait
                },
            )
        },
        HelperEvent::TimedOut => if run.timed_out {
            (run, ActionView::Wait)
        } else if can_send_cancel {
            (RunView { timed_out: true, cancel_sent: true, ..run }, ActionView::SendCancel)
        } else {
            (RunView { timed_out: true, ..run }, ActionView::Wait)
        },
    }
}

fn final_state(canceled: bool, run: &HelperRun, exit_code: i32) -> (r: ActionState)
    ensures
        r == end_state(canceled, run@, exit_code),
{
    if canceled {
        ActionState::Canceled
    } else if run.timed_out {
        ActionState::Timeout
    } else if run.saw_fail {
        ActionState::Failed
    } else if exit_code == 0 {
        ActionState::Success
    } else {
        ActionState::Failed
    }
}

impl HelperRun {
    /// A command that was just handed to the helper.
    pub fn new() -> (r: HelperRun)
        ensures
            r@ == (RunView {
                timed_out: false,
                saw_fail: false,
                cancel_sent: false,
                stdout: Seq::<char>::empty(),
            }),
    {
        HelperRun { timed_out: false, saw_fail: false, cancel_sent: false, stdout: String::new() }
    }

    fn respond(&self, settings: &HelperSettings, value: &JsonValue, canceled: bool) -> (r: HelperAction)
        ensures
            r@ == response_action(self@, settings.command@, value@, canceled),
    {
        if let Some(pid) = value.get_i64("pid") {
            return HelperAction::LogPid(pid);
        }
        if let Some(line) = value.get_str("out") {
            return HelperAction::FilterLine(line.to_owned());
        }
        if let Some(code) = value.get_i64("exited") {
            let exit_code: i32 = #[verifier::truncate]
            (code as i32);
            return HelperAction::Finish(
                SubprocessResult {
                    state: final_state(canceled, self, exit_code),
                    exit_code: Some(exit_code),
                    stdout: self.stdout.clone(),
                },
            );
        }
        if let Some(message) = value.get_str("error") {
            return HelperAction::Fail(
                SessionError::SubprocessStart {
                    command: settings.command.clone(),
                    source: message.to_owned(),
                },
            );
        }
        HelperAction::Fail(
            SessionError::HelperCommunication(
                "Unexpected helper response: ".to_owned().concat(value.to_string().as_str()),
            ),
        )
    }

    /// Takes an event and tells what is to be done.
    pub fn step(&mut self, settings: &HelperSettings, event: HelperEvent) -> (r: HelperAction)
        ensures
            (final(self)@, r@) == next_step(
                old(self)@,
                settings.command@,
                settings.can_send_cancel,
                settings.collect_stdout,
                event,
            ),
    {
        match event {
            HelperEvent::Closed => HelperAction::Fail(
                SessionError::HelperCommunication(
                    "Helper process closed stdout unexpectedly".to_owned(),
                ),
            ),
            HelperEvent::Unreadable(e) => HelperAction::Fail(e),
            HelperEvent::Response { value, canceled } => self.respond(settings, &value, canceled),
            HelperEvent::LineFiltered { display, fail } => {
                if fail {
                    self.saw_fail = true;
                }
                if settings.collect_stdout {
                    self.stdout.append(display.as_str());
                    self.stdout.push('\n');
                }
                HelperAction::Wait
            },
            HelperEvent::CancelRequested => {
                if self.cancel_sent {
                    return HelperAction::Wait;
                }
                self.cancel_sent = true;
                if settings.can_send_cancel {
                    HelperAction::SendCancel
                } else {
                    HelperAction::Wait
                }
            },
            HelperEvent::TimedOut => {
                if self.timed_out {
                    return HelperAction::Wait;
                }
                self.timed_out = true;
                if settings.can_send_cancel {
                    self.cancel_sent = true;
                    HelperAction::SendCancel
                } else {
                    HelperAction::Wait
                }
            },
        }
    }
}

/// Whether a line of output is logged: it was let through, and the level of
/// the log is at most that of information.
pub fn logs_output(pass_through: bool, min_log_level: u32) -> (r: bool)
    ensures
        r == (pass_through && min_log_level <= 20),
{
    pass_through && min_log_level <= 20
}

/// A canceled action ends as canceled, whatever the command reports.
pub proof fn canceled_actions_end_canceled(run: RunView, exit_code: i32)
    ensures
        end_state(true, run, exit_code) == ActionState::Canceled,
{
}

/// An action succeeds only if it was not canceled, did not time out, reported
/// no failure and exited with zero.
pub proof fn success_needs_everything(canceled: bool, run: RunView, exit_code: i32)
    ensures
        (end_state(canceled, run, exit_code) == ActionState::Success) == (!canceled && !run.timed_out
            && !run.saw_fail && exit_code == 0),
{
}

/// What was noticed of a run stays noticed, output only grows, and once a
/// cancel command was sent no further request sends another.
pub proof fn runs_only_progress(
    run: RunView,
    command: Seq<char>,
    can_send_cancel: bool,
    collect_stdout: bool,
    event: HelperEvent,
)
    ensures
        ({
            let (after, action) = next_step(run, command, can_send_cancel, collect_stdout, event);
            &&& run.timed_out ==> after.timed_out
            &&& run.saw_fail ==> after.saw_fail
            &&& run.cancel_sent ==> after.cancel_sent
            &&& run.stdout.is_prefix_of(after.stdout)
            &&& action is SendCancel ==> can_send_cancel && after.cancel_sent
            &&& run.cancel_sent && event is CancelRequested ==> !(action is SendCancel)
        }),
{
    let (after, action) = next_step(run, command, can_send_cancel, collect_stdout, event);
    assert(run.stdout =~= after.stdout.take(run.stdout.len() as int));
}

} // verus!
