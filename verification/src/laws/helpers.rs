//! What is said to the helper process and what its answers come to.

use vstd::prelude::*;

use crate::json::{entries_text, json_text, member_of, quoted, JsonView};
use crate::laws::documents::containers_are_written_in_order;
use crate::sessions::error::SessionFault;
use crate::sessions::helper::{
    cancel_text, carries_token, end_state, env_value, is_token_text, is_white_space, next_step,
    response_action, runs_process, token_char, tokens_need_no_escaping, trimmed_end, ActionView, EnvVar,
    HelperEvent, RunView,
};
use crate::sessions::runner::{ActionState, CancelMethod};
use crate::text::int_text;

verus! {

/// A token is made of the 64 letters, digits, hyphen and underscore, and two
/// bytes give the same character exactly if they agree in their lower six bits.
pub proof fn tokens_keep_six_bits(a: u8, b: u8)
    ensures
        ({
            let c = token_char(a) as int;
            48 <= c <= 57 || 65 <= c <= 90 || 97 <= c <= 122 || c == 45 || c == 95
        }),
        token_char(a) == token_char(b) <==> a % 64 == b % 64,
{
}

/// A text is one of tokens exactly if all its characters are letters, digits,
/// hyphens and underscores of ASCII.
pub proof fn token_texts_are_plain(text: Seq<char>)
    ensures
        is_token_text(text) <==> forall|i: int|
            0 <= i < text.len() ==> {
                let c = (#[trigger] text[i]) as int;
                48 <= c <= 57 || 65 <= c <= 90 || 97 <= c <= 122 || c == 45 || c == 95
            },
{
}

/// Whether a character is one that Unicode has as white space.
pub open spec fn is_blank(c: char) -> bool {
    let code = c as int;
    ||| 9 <= code <= 13
    ||| code == 32
    ||| code == 0x85
    ||| code == 0xa0
    ||| code == 0x1680
    ||| 0x2000 <= code <= 0x200a
    ||| code == 0x2028
    ||| code == 0x2029
    ||| code == 0x202f
    ||| code == 0x205f
    ||| code == 0x3000
}

proof fn lemma_blanks(c: char)
    ensures
        is_blank(c) == is_white_space(c),
{
}

/// A text without the white space at its end is the start of the text, does not
/// end in white space, and nothing but white space follows it.
pub proof fn trimming_removes_trailing_blanks(text: Seq<char>)
    ensures
        ({
            let r = trimmed_end(text);
            &&& r.len() <= text.len()
            &&& r == text.take(r.len() as int)
            &&& r.len() > 0 ==> !is_blank(r.last())
            &&& forall|i: int| r.len() <= i < text.len() ==> is_blank(#[trigger] text[i])
        }),
    decreases text.len(),
{
    let r = trimmed_end(text);
    if text.len() > 0 {
        lemma_blanks(text.last());
    }
    if text.len() > 0 && is_blank(text.last()) {
        let rest = text.drop_last();
        trimming_removes_trailing_blanks(rest);
        assert(rest.take(r.len() as int) =~= text.take(r.len() as int));
        assert forall|i: int| r.len() <= i < text.len() implies is_blank(#[trigger] text[i]) by {
            if i < rest.len() {
                assert(rest[i] == text[i]);
            }
        }
    } else {
        assert(text.take(text.len() as int) =~= text);
    }
}

/// A variable has the value of the last entry that sets it, and none where no
/// entry does.
pub proof fn last_settings_count(vars: Seq<EnvVar>, name: Seq<char>, i: int)
    ensures
        0 <= i < vars.len() && vars[i].name@ == name && vars[i].value is Some && (forall|j: int|
            i < j < vars.len() ==> (#[trigger] vars[j]).name@ != name || vars[j].value is None)
            ==> env_value(vars, name) == Some(JsonView::Text(vars[i].value->0@)),
        (forall|j: int|
            0 <= j < vars.len() ==> (#[trigger] vars[j]).name@ != name || vars[j].value is None)
            ==> env_value(vars, name) is None,
    decreases vars.len(),
{
    if vars.len() > 0 {
        let rest = vars.drop_last();
        last_settings_count(rest, name, i);
        assert(vars[vars.len() - 1] == vars.last());
        if 0 <= i < vars.len() - 1 && vars[i].name@ == name && vars[i].value is Some && (forall|j: int|
            i < j < vars.len() ==> (#[trigger] vars[j]).name@ != name || vars[j].value is None) {
            assert(rest[i] == vars[i]);
            assert forall|j: int| i < j < rest.len() implies (#[trigger] rest[j]).name@ != name
                || rest[j].value is None by {
                assert(rest[j] == vars[j]);
            }
        }
        if forall|j: int|
            0 <= j < vars.len() ==> (#[trigger] vars[j]).name@ != name || vars[j].value is None {
            assert forall|j: int| 0 <= j < rest.len() implies (#[trigger] rest[j]).name@ != name
                || rest[j].value is None by {
                assert(rest[j] == vars[j]);
            }
        }
    }
}

/// The command that runs a process holds its program, its further arguments in
/// order, its directory or null, the variables that are set, and nothing else.
pub proof fn commands_hold_their_process(
    cmd: JsonView,
    args: Seq<Seq<char>>,
    vars: Seq<EnvVar>,
    cwd: Option<Seq<char>>,
    i: int,
    key: Seq<char>,
)
    requires
        args.len() > 0,
        runs_process(cmd, args, vars, cwd),
    ensures
        member_of(cmd, "command"@) == Some(JsonView::Text(args[0])),
        member_of(cmd, "args"@) matches Some(JsonView::Array(rest)) && rest.len() == args.len() - 1 && (1 <= i
            < args.len() ==> rest[i - 1] == JsonView::Text(args[i])),
        member_of(cmd, "cwd"@) == Some(
            match cwd {
                Some(path) => JsonView::Text(path),
                None => JsonView::Null,
            },
        ),
        member_of(cmd, "env"@) matches Some(env) && member_of(env, key) == env_value(vars, key),
        key != "command"@ && key != "args"@ && key != "cwd"@ && key != "env"@ ==> member_of(cmd, key) is None,
{
    reveal_strlit("command");
    reveal_strlit("args");
    reveal_strlit("cwd");
    reveal_strlit("env");
    assert("command"@.len() == 7 && "args"@.len() == 4 && "cwd"@.len() == 3 && "env"@.len() == 3);
    assert("cwd"@[0] == 'c' && "env"@[0] == 'e');
}

/// A command with a token holds that token and all its other members.
pub proof fn commands_keep_their_members(cmd: JsonView, token: Seq<char>, with_token: JsonView, key: Seq<char>)
    requires
        carries_token(cmd, token, with_token),
    ensures
        cmd is Object && with_token is Object,
        member_of(with_token, "token"@) == Some(JsonView::Text(token)),
        key != "token"@ ==> member_of(with_token, key) == member_of(cmd, key),
{
}

/// An action ends as canceled exactly if it was canceled; as timed out exactly
/// if it timed out and was not canceled; as a success exactly if neither
/// happened, no failure was reported and the exit code is zero; and as a failure
/// otherwise.
pub proof fn actions_end_by_what_happened(canceled: bool, run: RunView, exit_code: i32)
    ensures
        ({
            let end = end_state(canceled, run, exit_code);
            let clean = !canceled && !run.timed_out && !run.saw_fail && exit_code == 0;
            &&& end == ActionState::Canceled <==> canceled
            &&& end == ActionState::Timeout <==> run.timed_out && !canceled
            &&& end == ActionState::Success <==> clean
            &&& end == ActionState::Failed <==> !canceled && !run.timed_out && !clean
        }),
{
}

/// An event changes of a run what it is about and nothing else: a timeout that
/// it timed out, a filtered line the output and whether a failure was reported,
/// and any request to cancel that the helper was told, the first of them alone.
pub proof fn events_change_what_they_are_about(
    run: RunView,
    command: Seq<char>,
    can_cancel: bool,
    collect: bool,
    event: HelperEvent,
)
    ensures
        ({
            let (after, action) = next_step(run, command, can_cancel, collect, event);
            &&& after.timed_out == (run.timed_out || event is TimedOut)
            &&& after.saw_fail == (run.saw_fail || (event matches HelperEvent::LineFiltered {
                display: _,
                fail,
            } && fail))
            &&& after.cancel_sent == (run.cancel_sent || event is CancelRequested || event is TimedOut
                && !run.timed_out && can_cancel)
            &&& after.stdout == match event {
                HelperEvent::LineFiltered { display, fail: _ } => if collect {
                    run.stdout + display@ + seq!['\n']
                } else {
                    run.stdout
                },
                _ => run.stdout,
            }
            &&& action is SendCancel <==> can_cancel && (event is CancelRequested && !run.cancel_sent
                || event is TimedOut && !run.timed_out)
            &&& event is LineFiltered || event is CancelRequested || event is TimedOut ==> action is Wait
                || action is SendCancel
            &&& event is Closed ==> action == ActionView::Fail(
                SessionFault::HelperCommunication("Helper process closed stdout unexpectedly"@),
            )
            &&& event matches HelperEvent::Unreadable(e) ==> action == ActionView::Fail(e@)
        }),
{
    if let HelperEvent::LineFiltered { display, fail: _ } = event {
        assert((run.stdout + display@).push('\n') =~= run.stdout + display@ + seq!['\n']);
    }
}

/// A response with a process id tells of the start of the command; one without
/// it and with output gives that output; one with neither and with an exit code
/// ends the command with that code and the output so far; and one with an error
/// alone fails it. Any other response is a failure of the helper.
pub proof fn responses_are_read_in_order(
    run: RunView,
    command: Seq<char>,
    value: JsonView,
    canceled: bool,
)
    ensures
        ({
            let action = response_action(run, command, value, canceled);
            let has_pid = member_of(value, "pid"@) matches Some(JsonView::Int(_));
            let has_out = member_of(value, "out"@) matches Some(JsonView::Text(_));
            let has_exit = member_of(value, "exited"@) matches Some(JsonView::Int(_));
            let has_error = member_of(value, "error"@) matches Some(JsonView::Text(_));
            &&& action is LogPid <==> has_pid
            &&& action is FilterLine <==> has_out && !has_pid
            &&& action is Finish <==> has_exit && !has_pid && !has_out
            &&& action is Fail <==> !has_pid && !has_out && !has_exit
            &&& member_of(value, "pid"@) matches Some(JsonView::Int(pid)) ==> action
                == ActionView::LogPid(pid)
            &&& !has_pid ==> (member_of(value, "out"@) matches Some(JsonView::Text(line)) ==> action
                == ActionView::FilterLine(line))
            &&& action matches ActionView::Finish { state: _, exit_code, stdout } ==> stdout == run.stdout
                && (member_of(value, "exited"@) matches Some(JsonView::Int(code)) && (i32::MIN <= code
                <= i32::MAX ==> exit_code is Some && exit_code->0 as int == code))
            &&& !has_pid && !has_out && !has_exit ==> (member_of(value, "error"@) matches Some(
                JsonView::Text(message),
            ) ==> action == ActionView::Fail(
                SessionFault::SubprocessStart { command, source: message },
            ))
            &&& !has_pid && !has_out && !has_exit && !has_error ==> action == ActionView::Fail(
                SessionFault::HelperCommunication("Unexpected helper response: "@ + json_text(value)),
            )
        }),
{
}

/// The line that cancels a command is a JSON object with the token, the mode
/// and, where the command is notified, the whole seconds of its grace period. A
/// grace period of less than a second is none.
pub proof fn cancel_lines_are_json(token: Seq<char>, method: CancelMethod)
    requires
        is_token_text(token),
    ensures
        ({
            let seconds: int = match method {
                CancelMethod::Terminate => 0,
                CancelMethod::NotifyThenTerminate { terminate_delay } => terminate_delay.secs as int,
            };
            let mode = if seconds == 0 {
                "TERMINATE"@
            } else {
                "NOTIFY_THEN_TERMINATE"@
            };
            let members = seq![("token"@, JsonView::Text(token)), ("cancel"@, JsonView::Text(mode))];
            let all = if seconds == 0 {
                members
            } else {
                members.push(("notifyPeriodInSeconds"@, JsonView::Int(seconds)))
            };
            cancel_text(token, method) == seq!['{'] + entries_text(all) + seq!['}', '\n']
        }),
{
    let seconds: int = match method {
        CancelMethod::Terminate => 0,
        CancelMethod::NotifyThenTerminate { terminate_delay } => terminate_delay.secs as int,
    };
    let mode = if seconds == 0 {
        "TERMINATE"@
    } else {
        "NOTIFY_THEN_TERMINATE"@
    };
    lemma_token_literal();
    tokens_need_no_escaping(token);
    let (none, one, two, three) = lemma_cancel_members(token, mode, seconds);
    assert(two =~= seq![("token"@, JsonView::Text(token)), ("cancel"@, JsonView::Text(mode))]);
    let (name, cancel) = (in_quotes("token"@), in_quotes("cancel"@));
    if seconds == 0 {
        lemma_terminate_literal();
        lemma_regroup_terminate(name, token, cancel, in_quotes(mode));
    } else {
        lemma_notify_literal();
        let digits = int_text(seconds);
        assert(digits == crate::text::decimal(seconds as nat));
        lemma_regroup_notify(
            name,
            token,
            cancel,
            in_quotes(mode),
            in_quotes("notifyPeriodInSeconds"@),
            digits,
        );
    }
}

proof fn lemma_regroup_terminate(name: Seq<char>, token: Seq<char>, cancel: Seq<char>, mode: Seq<char>)
    ensures
        (seq!['{'] + name + seq![':', '"']) + token + (seq!['"', ','] + cancel + seq![':'] + mode + seq![
            '}',
            '\n',
        ]) == seq!['{'] + (name + seq![':'] + in_quotes(token) + seq![','] + cancel + seq![':'] + mode)
            + seq!['}', '\n'],
{
    assert((seq!['{'] + name + seq![':', '"']) + token + (seq!['"', ','] + cancel + seq![':'] + mode + seq![
        '}',
        '\n',
    ]) =~= seq!['{'] + (name + seq![':'] + in_quotes(token) + seq![','] + cancel + seq![':'] + mode)
        + seq!['}', '\n']);
}

proof fn lemma_regroup_notify(
    name: Seq<char>,
    token: Seq<char>,
    cancel: Seq<char>,
    mode: Seq<char>,
    period: Seq<char>,
    digits: Seq<char>,
)
    ensures
        (seq!['{'] + name + seq![':', '"']) + token + (seq!['"', ','] + cancel + seq![':'] + mode + seq![',']
            + period + seq![':']) + digits + seq!['}', '\n'] == seq!['{'] + ((name + seq![':'] + in_quotes(
            token,
        ) + seq![','] + cancel + seq![':'] + mode) + seq![','] + period + seq![':'] + digits) + seq![
            '}',
            '\n',
        ],
{
    let head = (seq!['{'] + name + seq![':', '"']) + token;
    let quoted_head = seq!['{'] + (name + seq![':'] + in_quotes(token));
    assert(head + seq!['"'] =~= quoted_head);
    let middle = cancel + seq![':'] + mode + seq![','] + period + seq![':'];
    assert(head + (seq!['"', ','] + cancel + seq![':'] + mode + seq![','] + period + seq![':']) =~= (head
        + seq!['"']) + (seq![','] + middle));
    let tail = digits + seq!['}', '\n'];
    assert(seq!['{'] + ((name + seq![':'] + in_quotes(token) + seq![','] + cancel + seq![':'] + mode) + seq![
        ',',
    ] + period + seq![':'] + digits) + seq!['}', '\n'] =~= quoted_head + (seq![','] + middle) + tail);
    assert((quoted_head + (seq![','] + middle)) + digits + seq!['}', '\n'] =~= quoted_head + (seq![',']
        + middle) + tail);
}

/// A text in quotes.
spec fn in_quotes(text: Seq<char>) -> Seq<char> {
    seq!['"'] + text + seq!['"']
}

proof fn lemma_token_literal()
    ensures
        "{\"token\":\""@ == seq!['{'] + in_quotes("token"@) + seq![':', '"'],
{
    reveal_strlit("token");
    reveal_strlit("{\"token\":\"");
    assert("{\"token\":\""@ =~= seq!['{'] + in_quotes("token"@) + seq![':', '"']);
}

proof fn lemma_terminate_literal()
    ensures
        "\",\"cancel\":\"TERMINATE\"}\n"@ == seq!['"', ','] + in_quotes("cancel"@) + seq![':'] + in_quotes(
            "TERMINATE"@,
        ) + seq!['}', '\n'],
{
    reveal_strlit("cancel");
    reveal_strlit("TERMINATE");
    reveal_strlit("\",\"cancel\":\"TERMINATE\"}\n");
    assert("\",\"cancel\":\"TERMINATE\"}\n"@ =~= seq!['"', ','] + in_quotes("cancel"@) + seq![':']
        + in_quotes("TERMINATE"@) + seq!['}', '\n']);
}

proof fn lemma_notify_literal()
    ensures
        "\",\"cancel\":\"NOTIFY_THEN_TERMINATE\",\"notifyPeriodInSeconds\":"@ == seq!['"', ','] + in_quotes(
            "cancel"@,
        ) + seq![':'] + in_quotes("NOTIFY_THEN_TERMINATE"@) + seq![','] + in_quotes(
            "notifyPeriodInSeconds"@,
        ) + seq![':'],
        "}\n"@ == seq!['}', '\n'],
{
    reveal_strlit("cancel");
    reveal_strlit("NOTIFY_THEN_TERMINATE");
    reveal_strlit("notifyPeriodInSeconds");
    reveal_strlit("\",\"cancel\":\"NOTIFY_THEN_TERMINATE\",\"notifyPeriodInSeconds\":");
    reveal_strlit("}\n");
    assert("}\n"@ =~= seq!['}', '\n']);
    assert("\",\"cancel\":\"NOTIFY_THEN_TERMINATE\",\"notifyPeriodInSeconds\":"@ =~= seq!['"', ',']
        + in_quotes("cancel"@) + seq![':'] + in_quotes("NOTIFY_THEN_TERMINATE"@) + seq![','] + in_quotes(
        "notifyPeriodInSeconds"@,
    ) + seq![':']);
}

/// The names of the members and modes need no escapes.
proof fn lemma_plain_names(mode: Seq<char>)
    requires
        mode == "TERMINATE"@ || mode == "NOTIFY_THEN_TERMINATE"@,
    ensures
        quoted("token"@) == in_quotes("token"@),
        quoted("cancel"@) == in_quotes("cancel"@),
        quoted("notifyPeriodInSeconds"@) == in_quotes("notifyPeriodInSeconds"@),
        quoted(mode) == in_quotes(mode),
{
    reveal_strlit("token");
    reveal_strlit("cancel");
    reveal_strlit("TERMINATE");
    reveal_strlit("NOTIFY_THEN_TERMINATE");
    reveal_strlit("notifyPeriodInSeconds");
    tokens_need_no_escaping("token"@);
    tokens_need_no_escaping("cancel"@);
    tokens_need_no_escaping("notifyPeriodInSeconds"@);
    tokens_need_no_escaping(mode);
}

proof fn lemma_cancel_members(token: Seq<char>, mode: Seq<char>, seconds: int) -> (r: (
    Seq<(Seq<char>, JsonView)>,
    Seq<(Seq<char>, JsonView)>,
    Seq<(Seq<char>, JsonView)>,
    Seq<(Seq<char>, JsonView)>,
))
    requires
        is_token_text(token),
        mode == "TERMINATE"@ || mode == "NOTIFY_THEN_TERMINATE"@,
    ensures
        r.0.len() == 0,
        r.1 == r.0.push(("token"@, JsonView::Text(token))),
        r.2 == r.1.push(("cancel"@, JsonView::Text(mode))),
        r.3 == r.2.push(("notifyPeriodInSeconds"@, JsonView::Int(seconds))),
        entries_text(r.2) == in_quotes("token"@) + seq![':'] + in_quotes(token) + seq![','] + in_quotes(
            "cancel"@,
        ) + seq![':'] + in_quotes(mode),
        entries_text(r.3) == entries_text(r.2) + seq![','] + in_quotes("notifyPeriodInSeconds"@) + seq![':']
            + int_text(seconds),
{
    let none = Seq::<(Seq<char>, JsonView)>::empty();
    let one = none.push(("token"@, JsonView::Text(token)));
    let two = one.push(("cancel"@, JsonView::Text(mode)));
    let three = two.push(("notifyPeriodInSeconds"@, JsonView::Int(seconds)));
    lemma_plain_names(mode);
    tokens_need_no_escaping(token);
    containers_are_written_in_order(seq![], none, "token"@, JsonView::Text(token));
    containers_are_written_in_order(seq![], one, "cancel"@, JsonView::Text(mode));
    containers_are_written_in_order(seq![], two, "notifyPeriodInSeconds"@, JsonView::Int(seconds));
    (none, one, two, three)
}

} // verus!
