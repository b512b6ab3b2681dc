//! The protocol of the helper process.

use openjd::json::{JsonObject, JsonValue};
use openjd::sessions::duration::Duration;
use openjd::sessions::error::SessionError;
use openjd::sessions::helper::{
    augment_with_token, cancel_command, classify_read, command_line, generate_auth_token,
    launch_args, line_too_long, logs_output, parse_response, redacted_launch, redacted_windows_launch,
    render_token, run_command, shutdown_command, windows_launch_args, EnvVar, HelperAction, HelperEvent, HelperRun, HelperSettings, LineRead,
    AUTH_TOKEN_LEN, MAX_RESPONSE_LINE_LENGTH,
};
use openjd::sessions::runner::{ActionState, CancelMethod};

const AUTH_TOKEN_ALPHABET: &[u8; 64] =
    b"ABCDEFGHIJKLMNOPQRSTUVWXYZabcdefghijklmnopqrstuvwxyz0123456789-_";

fn object(members: Vec<(&str, JsonValue)>) -> JsonValue {
    let mut o = JsonObject::new();
    for (k, v) in members {
        o.insert(k.to_string(), v);
    }
    JsonValue::Object(o)
}

fn text(s: &str) -> JsonValue {
    JsonValue::Text(s.to_string())
}

fn settings(can_send_cancel: bool) -> HelperSettings {
    HelperSettings { command: "echo".into(), can_send_cancel, collect_stdout: true }
}

fn exited(code: i64, canceled: bool) -> HelperEvent {
    HelperEvent::Response { value: object(vec![("exited", JsonValue::Int(code))]), canceled }
}

fn end_of(run: &mut HelperRun, code: i64, canceled: bool) -> ActionState {
    match run.step(&settings(true), exited(code, canceled)) {
        HelperAction::Finish(result) => {
            assert_eq!(result.exit_code, Some(code as i32));
            result.state
        }
        other => panic!("unexpected: {other:?}"),
    }
}

#[test]
fn responses_are_read_from_their_line() {
    assert_eq!(parse_response("{\"pid\": 77}\n").unwrap(), object(vec![("pid", JsonValue::Int(77))]));
    assert_eq!(parse_response("{\"out\":\"a \"} \t\r\n").unwrap(), object(vec![("out", text("a "))]));
    // White space at the end is any of Unicode's.
    for c in ['\u{b}', '\u{85}', '\u{a0}', '\u{1680}', '\u{2009}', '\u{2028}', '\u{202f}', '\u{3000}'] {
        assert_eq!(parse_response(&format!("null{c}\n")).unwrap(), JsonValue::Null);
        assert!(parse_response(&format!("{c}x")).is_err());
    }
    for line in ["", "\n", "{\n", "hello\n", "null\u{200b}"] {
        let reason = serde_json::from_str::<serde_json::Value>(line.trim_end()).unwrap_err();
        match parse_response(line) {
            Err(SessionError::HelperCommunication(message)) => {
                assert_eq!(message, format!("parse error: {reason}"));
            }
            other => panic!("unexpected: {other:?}"),
        }
    }
}

#[test]
fn token_is_22_chars_from_url_safe_alphabet() {
    for _ in 0..100 {
        let t = generate_auth_token().unwrap();
        assert_eq!(t.len(), AUTH_TOKEN_LEN, "token should be {AUTH_TOKEN_LEN} chars");
        assert!(t.is_ascii(), "token must be ASCII");
        for c in t.bytes() {
            assert!(
                AUTH_TOKEN_ALPHABET.contains(&c),
                "token contains non-alphabet byte: {c:#x}",
            );
        }
    }
}

#[test]
fn generated_tokens_differ() {
    // This could collide, but with a probability that is astronomically small.
    let a = generate_auth_token().unwrap();
    let b = generate_auth_token().unwrap();
    assert_ne!(a, b);
}

#[test]
fn tokens_render_the_lower_six_bits() {
    let bytes: Vec<u8> = (0..=255).collect();
    let expected: String =
        bytes.iter().map(|b| AUTH_TOKEN_ALPHABET[(b & 0x3f) as usize] as char).collect();
    assert_eq!(render_token(&bytes), expected);
}

#[test]
fn augment_with_token_inserts_token() {
    let cmd = object(vec![
        ("command", text("echo")),
        ("args", JsonValue::Array(vec![text("hi")])),
    ]);
    let out = augment_with_token(&cmd, "T-O-K-E-N").unwrap();
    assert_eq!(out.get("token").and_then(|v| v.as_str()), Some("T-O-K-E-N"),);
    assert_eq!(out.get("command").and_then(|v| v.as_str()), Some("echo"));
}

#[test]
fn augment_rejects_non_object() {
    let err = augment_with_token(&text("shutdown"), "tok").unwrap_err();
    assert!(err.to_string().contains("must be a JSON object"));
}

#[test]
fn augment_overrides_caller_supplied_token() {
    let cmd = object(vec![("token", text("bad")), ("command", text("x"))]);
    let out = augment_with_token(&cmd, "good").unwrap();
    assert_eq!(
        out.get("token").and_then(|v| v.as_str()),
        Some("good"),
        "augment_with_token must not let the caller override the token",
    );
}

#[test]
fn commands_are_lines_of_json() {
    assert_eq!(
        command_line(&shutdown_command(), "tok").unwrap(),
        "{\"shutdown\":true,\"token\":\"tok\"}\n"
    );
    let args = vec!["echo".to_string(), "a \"b\"".to_string()];
    let vars = vec![EnvVar { name: "X".into(), value: Some("1\n".into()) }];
    let cmd = run_command(&args, &vars, &Some("/tmp".to_string()));
    assert_eq!(
        cmd.to_string(),
        "{\"args\":[\"a \\\"b\\\"\"],\"command\":\"echo\",\"cwd\":\"/tmp\",\"env\":{\"X\":\"1\\n\"}}"
    );
    assert!(matches!(
        command_line(&JsonValue::Null, "tok"),
        Err(SessionError::HelperCommunication(_))
    ));
}

#[test]
fn cancel_commands() {
    assert_eq!(
        cancel_command("tok", &CancelMethod::Terminate),
        "{\"token\":\"tok\",\"cancel\":\"TERMINATE\"}\n"
    );
    let notify = |secs| CancelMethod::NotifyThenTerminate {
        terminate_delay: Duration::from_secs(secs),
    };
    assert_eq!(
        cancel_command("tok", &notify(0)),
        "{\"token\":\"tok\",\"cancel\":\"TERMINATE\"}\n"
    );
    assert_eq!(
        cancel_command("tok", &notify(30)),
        "{\"token\":\"tok\",\"cancel\":\"NOTIFY_THEN_TERMINATE\",\"notifyPeriodInSeconds\":30}\n"
    );
}

#[test]
fn launches_show_no_token() {
    assert_eq!(
        launch_args("user", "/helper", "tok"),
        vec!["-u", "user", "-i", "/helper", "--auth-token", "tok"]
    );
    let shown = redacted_launch("user", "/helper");
    assert_eq!(shown, "sudo -u user -i /helper --auth-token <redacted>");
    assert_eq!(windows_launch_args("h.exe", "tok"), vec!["h.exe", "--auth-token", "tok"]);
    assert_eq!(
        redacted_windows_launch("h.exe"),
        "spawn_as_user_with_stdin h.exe --auth-token <redacted>"
    );
}

#[test]
fn lines_that_are_too_long_are_refused() {
    assert!(matches!(classify_read(0, false), LineRead::End));
    assert!(matches!(classify_read(10, true), LineRead::Line));
    assert!(matches!(
        classify_read(MAX_RESPONSE_LINE_LENGTH, false),
        LineRead::TooLong
    ));
    assert!(line_too_long().to_string().contains("131072"));
}

#[test]
fn a_run_reports_what_it_sees() {
    let mut run = HelperRun::new();
    let s = settings(true);
    let pid = HelperEvent::Response {
        value: object(vec![("pid", JsonValue::Int(77))]),
        canceled: false,
    };
    assert!(matches!(run.step(&s, pid), HelperAction::LogPid(77)));
    let out = HelperEvent::Response { value: object(vec![("out", text("hello"))]), canceled: false };
    match run.step(&s, out) {
        HelperAction::FilterLine(line) => assert_eq!(line, "hello"),
        other => panic!("unexpected: {other:?}"),
    }
    let filtered = HelperEvent::LineFiltered { display: "hello".into(), fail: false };
    assert!(matches!(run.step(&s, filtered), HelperAction::Wait));
    match run.step(&s, exited(0, false)) {
        HelperAction::Finish(result) => {
            assert_eq!(result.state, ActionState::Success);
            assert_eq!(result.stdout, "hello\n");
        }
        other => panic!("unexpected: {other:?}"),
    }
}

#[test]
fn what_ended_a_run_is_ranked() {
    assert_eq!(end_of(&mut HelperRun::new(), 0, false), ActionState::Success);
    assert_eq!(end_of(&mut HelperRun::new(), 3, false), ActionState::Failed);
    let mut failing = HelperRun::new();
    failing.step(
        &settings(true),
        HelperEvent::LineFiltered { display: String::new(), fail: true },
    );
    assert_eq!(end_of(&mut failing, 0, false), ActionState::Failed);
    let mut late = HelperRun::new();
    late.step(&settings(true), HelperEvent::TimedOut);
    assert_eq!(end_of(&mut late, 0, false), ActionState::Timeout);
    // A canceled action is canceled, even where the child exits with zero.
    assert_eq!(end_of(&mut late, 0, true), ActionState::Canceled);
}

#[test]
fn a_cancel_command_is_sent_once() {
    let mut run = HelperRun::new();
    assert!(matches!(
        run.step(&settings(true), HelperEvent::CancelRequested),
        HelperAction::SendCancel
    ));
    assert!(matches!(
        run.step(&settings(true), HelperEvent::CancelRequested),
        HelperAction::Wait
    ));
    let mut silent = HelperRun::new();
    assert!(matches!(
        silent.step(&settings(false), HelperEvent::CancelRequested),
        HelperAction::Wait
    ));
    assert!(silent.cancel_sent);
    let mut late = HelperRun::new();
    assert!(matches!(late.step(&settings(true), HelperEvent::TimedOut), HelperAction::SendCancel));
    assert!(matches!(late.step(&settings(true), HelperEvent::TimedOut), HelperAction::Wait));
}

#[test]
fn token_cancel_writes_to_helper_and_maps_to_canceled() {
    // The token is the only cancel signal: the child reports success.
    let s = settings(true);
    let mut run = HelperRun::new();
    let pid = HelperEvent::Response {
        value: object(vec![("pid", JsonValue::Int(4242))]),
        canceled: false,
    };
    assert!(matches!(run.step(&s, pid), HelperAction::LogPid(4242)));
    assert!(matches!(run.step(&s, HelperEvent::CancelRequested), HelperAction::SendCancel));
    let written = cancel_command("AUTHTOKENxxxxxxxxxxxxx", &CancelMethod::Terminate);
    let parsed: serde_json::Value = written
        .lines()
        .next()
        .map(|l| serde_json::from_str(l).unwrap())
        .expect("a cancel command must be written to the helper");
    assert_eq!(parsed["cancel"].as_str(), Some("TERMINATE"));
    assert_eq!(
        parsed["token"].as_str(),
        Some("AUTHTOKENxxxxxxxxxxxxx"),
        "the cancel command must carry the helper's auth token",
    );
    assert_eq!(
        end_of(&mut run, 0, true),
        ActionState::Canceled,
        "a token-only external cancel must map the action state to Canceled",
    );
}

#[test]
fn fired_token_maps_exit_zero_to_canceled_without_writer() {
    // The token was fired before the child exits, and there is no writer.
    let s = settings(false);
    match HelperRun::new().step(&s, exited(0, true)) {
        HelperAction::Finish(result) => assert_eq!(result.state, ActionState::Canceled),
        other => panic!("unexpected: {other:?}"),
    }
}

#[test]
fn broken_helpers_fail_the_run() {
    let s = settings(true);
    match HelperRun::new().step(&s, HelperEvent::Closed) {
        HelperAction::Fail(e) => assert_eq!(
            e.to_string(),
            "Helper communication error: Helper process closed stdout unexpectedly"
        ),
        other => panic!("unexpected: {other:?}"),
    }
    let error = HelperEvent::Response { value: object(vec![("error", text("no"))]), canceled: false };
    assert!(matches!(
        HelperRun::new().step(&s, error),
        HelperAction::Fail(SessionError::SubprocessStart { .. })
    ));
    let strange = HelperEvent::Response { value: JsonValue::Array(vec![]), canceled: false };
    match HelperRun::new().step(&s, strange) {
        HelperAction::Fail(e) => {
            assert!(e.to_string().contains("Unexpected helper response: []"))
        }
        other => panic!("unexpected: {other:?}"),
    }
    let unreadable = HelperEvent::Unreadable(SessionError::Runtime("x".into()));
    assert!(matches!(
        HelperRun::new().step(&s, unreadable),
        HelperAction::Fail(SessionError::Runtime(_))
    ));
}

#[test]
fn output_is_logged_up_to_information() {
    assert!(logs_output(true, 20));
    assert!(!logs_output(true, 21));
    assert!(!logs_output(false, 0));
}
