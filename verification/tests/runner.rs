//! Runners of actions.

use openjd::format_string::FormatString;
use openjd::sessions::duration::Duration;
use openjd::sessions::error::SessionError;
use openjd::sessions::runner::{
    arguments_of_values, cancel_method_for_action, cancelation_of_mode, notify_period_seconds,
    resolve_action_args, resolve_action_timeout, timeout_duration,
    resolve_effective_cancelation, resolve_notify_period_seconds, state_from_action, Action,
    ActionState, CancelMethod, CancelationMode, EffectiveCancelation, ScriptRunnerBase,
    ScriptRunnerState,
};
use openjd::symbol_table::SymbolTable;
use openjd::types::ExprType;
use openjd::value::ExprValue;

fn fs(s: &str) -> FormatString {
    FormatString::new(s).unwrap()
}

fn action(command: &str, args: &[&str]) -> Action {
    Action {
        command: fs(command),
        args: Some(args.iter().map(|a| fs(a)).collect()),
        timeout: None,
        cancelation: None,
    }
}

#[test]
fn script_runner_state_display() {
    assert_eq!(ScriptRunnerState::Ready.to_string(), "Ready");
    assert_eq!(ScriptRunnerState::Running.to_string(), "Running");
    assert_eq!(ScriptRunnerState::Canceling.to_string(), "Canceling");
    assert_eq!(ScriptRunnerState::Canceled.to_string(), "Canceled");
    assert_eq!(ScriptRunnerState::Timeout.to_string(), "Timeout");
    assert_eq!(ScriptRunnerState::Failed.to_string(), "Failed");
    assert_eq!(ScriptRunnerState::Success.to_string(), "Success");
}

#[test]
fn cancel_method_display() {
    assert_eq!(CancelMethod::Terminate.to_string(), "Terminate");
    assert_eq!(
        CancelMethod::NotifyThenTerminate {
            terminate_delay: Duration::from_secs(30)
        }
        .to_string(),
        "NotifyThenTerminate(30s)"
    );
}

#[test]
fn notify_period_resolves_literal_and_bounds() {
    let symtab = SymbolTable::default();
    // Values in range resolve.
    assert_eq!(
        resolve_notify_period_seconds(Some(&fs("45")), &symtab).unwrap(),
        Some(45)
    );
    // An omitted field is None.
    assert_eq!(resolve_notify_period_seconds(None, &symtab).unwrap(), None);
    // The cap applies to resolved values just as it does to literals.
    let err = resolve_notify_period_seconds(Some(&fs("9999")), &symtab).unwrap_err();
    assert!(
        err.to_string().contains("must not exceed 600"),
        "expected cap error; got: {}",
        err.to_string()
    );
    // Values that are not positive are rejected.
    assert!(resolve_notify_period_seconds(Some(&fs("0")), &symtab).is_err());
}

#[test]
fn notify_period_whole_field_null_is_none() {
    let mut symtab = SymbolTable::default();
    symtab.set("X", ExprValue::Null).expect("symtab");
    assert_eq!(
        resolve_notify_period_seconds(Some(&fs("{{X}}")), &symtab).unwrap(),
        None
    );
}

#[test]
fn notify_period_takes_integers_and_texts() {
    let mut symtab = SymbolTable::default();
    symtab.set("I", ExprValue::Int(600)).unwrap();
    symtab.set_string("S", "12").unwrap();
    symtab.set("B", ExprValue::Bool(true)).unwrap();
    symtab.set("Big", ExprValue::Int(601)).unwrap();
    assert_eq!(resolve_notify_period_seconds(Some(&fs("{{I}}")), &symtab).unwrap(), Some(600));
    assert_eq!(resolve_notify_period_seconds(Some(&fs("{{S}}")), &symtab).unwrap(), Some(12));
    assert!(resolve_notify_period_seconds(Some(&fs("{{B}}")), &symtab).is_err());
    assert!(resolve_notify_period_seconds(Some(&fs("{{Big}}")), &symtab).is_err());
    assert!(resolve_notify_period_seconds(Some(&fs("{{Missing}}")), &symtab).is_err());
    assert!(resolve_notify_period_seconds(Some(&fs("-3")), &symtab).is_err());
}

#[test]
fn resolved_values_decide() {
    let reason = |e: SessionError| match e {
        SessionError::FormatString { context, reason } => format!("{context}: {reason}"),
        other => panic!("unexpected: {other:?}"),
    };
    let string = |s: &str| ExprValue::String(s.into());
    let seconds = |v: &ExprValue| notify_period_seconds(v).map_err(reason);
    assert_eq!(seconds(&ExprValue::Null), Ok(None));
    assert_eq!(seconds(&ExprValue::Int(600)), Ok(Some(600)));
    assert_eq!(seconds(&string("1")), Ok(Some(1)));
    assert_eq!(
        seconds(&ExprValue::Int(0)),
        Err("notifyPeriodInSeconds: notifyPeriodInSeconds must be positive, got '0'".into())
    );
    assert_eq!(
        seconds(&string("601")),
        Err("notifyPeriodInSeconds: notifyPeriodInSeconds must not exceed 600, got '601'".into())
    );
    assert_eq!(
        seconds(&string("x")),
        Err("notifyPeriodInSeconds: notifyPeriodInSeconds must be a positive integer, got 'x'".into())
    );
    assert!(seconds(&ExprValue::Bool(true)).is_err());

    let mode = |m: &ExprValue, p: Option<&ExprValue>| cancelation_of_mode(m, p).map_err(reason);
    let period = ExprValue::Int(5);
    assert_eq!(mode(&ExprValue::Null, Some(&string("x"))), Ok(EffectiveCancelation::Undeclared));
    assert_eq!(mode(&string("TERMINATE"), None), Ok(EffectiveCancelation::Terminate));
    assert_eq!(
        mode(&string("TERMINATE"), Some(&ExprValue::Null)),
        Ok(EffectiveCancelation::Terminate)
    );
    assert_eq!(
        mode(&string("TERMINATE"), Some(&period)),
        Err("cancelation mode: mode resolved to TERMINATE, which does not accept \
             notifyPeriodInSeconds"
            .into())
    );
    assert_eq!(
        mode(&string("NOTIFY_THEN_TERMINATE"), Some(&period)),
        Ok(EffectiveCancelation::NotifyThenTerminate { notify_period_seconds: Some(5) })
    );
    assert_eq!(
        mode(&string("NOTIFY_THEN_TERMINATE"), None),
        Ok(EffectiveCancelation::NotifyThenTerminate { notify_period_seconds: None })
    );
    assert!(mode(&string("NOTIFY_THEN_TERMINATE"), Some(&string("x"))).is_err());
    assert!(mode(&string("KILL"), None).is_err());
    assert!(mode(&ExprValue::Int(1), None).is_err());

    let default = Some(Duration::from_secs(9));
    let timeout = |v: &ExprValue| timeout_duration(v, default).map_err(reason);
    assert_eq!(timeout(&ExprValue::Null), Ok(default));
    assert_eq!(timeout(&ExprValue::Int(3)), Ok(Some(Duration::from_secs(3))));
    assert_eq!(
        timeout(&string("18446744073709551615")),
        Ok(Some(Duration::from_secs(u64::MAX)))
    );
    assert_eq!(
        timeout(&string("0")),
        Err("timeout: timeout must be a positive integer, got '0'".into())
    );
    assert!(timeout(&ExprValue::Int(-1)).is_err());

    let list = ExprValue::List {
        elements: vec![ExprValue::Int(1), string("b")],
        elem_type: ExprType::String,
    };
    assert_eq!(
        arguments_of_values("run".into(), &vec![string("a"), ExprValue::Null, list, ExprValue::Bool(true)]),
        vec!["run", "a", "1", "b", "true"]
    );
    assert_eq!(arguments_of_values("run".into(), &vec![]), vec!["run"]);
}

#[test]
fn states_of_actions_become_states_of_runners() {
    assert_eq!(state_from_action(ActionState::Success), ScriptRunnerState::Success);
    assert_eq!(state_from_action(ActionState::Canceled), ScriptRunnerState::Canceled);
    assert_eq!(state_from_action(ActionState::Timeout), ScriptRunnerState::Timeout);
    assert_eq!(state_from_action(ActionState::Failed), ScriptRunnerState::Failed);
    assert_eq!(state_from_action(ActionState::Running), ScriptRunnerState::Failed);
}

#[test]
fn cancelation_modes_resolve() {
    let mut symtab = SymbolTable::default();
    symtab.set_string("Mode", "NOTIFY_THEN_TERMINATE").unwrap();
    symtab.set_string("Kill", "TERMINATE").unwrap();
    symtab.set("None", ExprValue::Null).unwrap();
    symtab.set_string("Bad", "WHATEVER").unwrap();
    let deferred = |mode: &str, period: Option<&str>| {
        Some(CancelationMode::DeferredMode {
            mode: fs(mode),
            notify_period_in_seconds: period.map(fs),
        })
    };
    assert_eq!(
        resolve_effective_cancelation(&None, &symtab).unwrap(),
        EffectiveCancelation::Undeclared
    );
    assert_eq!(
        resolve_effective_cancelation(&Some(CancelationMode::Terminate), &symtab).unwrap(),
        EffectiveCancelation::Terminate
    );
    assert_eq!(
        resolve_effective_cancelation(
            &Some(CancelationMode::NotifyThenTerminate {
                notify_period_in_seconds: Some(fs("7"))
            }),
            &symtab
        )
        .unwrap(),
        EffectiveCancelation::NotifyThenTerminate { notify_period_seconds: Some(7) }
    );
    assert_eq!(
        resolve_effective_cancelation(&deferred("{{Mode}}", Some("9")), &symtab).unwrap(),
        EffectiveCancelation::NotifyThenTerminate { notify_period_seconds: Some(9) }
    );
    assert_eq!(
        resolve_effective_cancelation(&deferred("{{Kill}}", None), &symtab).unwrap(),
        EffectiveCancelation::Terminate
    );
    assert_eq!(
        resolve_effective_cancelation(&deferred("{{None}}", None), &symtab).unwrap(),
        EffectiveCancelation::Undeclared
    );
    assert!(resolve_effective_cancelation(&deferred("{{Bad}}", None), &symtab).is_err());
    // A null mode drops the period with the rest, whatever it holds.
    assert_eq!(
        resolve_effective_cancelation(&deferred("{{None}}", Some("soon")), &symtab).unwrap(),
        EffectiveCancelation::Undeclared
    );
    // A mode that kills at once admits a null period, and no other.
    assert_eq!(
        resolve_effective_cancelation(&deferred("{{Kill}}", Some("{{None}}")), &symtab).unwrap(),
        EffectiveCancelation::Terminate
    );
    let refused = resolve_effective_cancelation(&deferred("{{Kill}}", Some("9")), &symtab);
    assert!(refused.unwrap_err().to_string().contains("does not accept notifyPeriodInSeconds"));
}

#[test]
fn cancel_methods_take_the_default_period() {
    let symtab = SymbolTable::default();
    let default = Duration::from_secs(120);
    assert_eq!(
        cancel_method_for_action(&None, &symtab, default).unwrap(),
        CancelMethod::Terminate
    );
    assert_eq!(
        cancel_method_for_action(
            &Some(CancelationMode::NotifyThenTerminate { notify_period_in_seconds: None }),
            &symtab,
            default
        )
        .unwrap(),
        CancelMethod::NotifyThenTerminate { terminate_delay: default }
    );
    // A period that is stated is the one that is enforced.
    let period = fs("45");
    let seen = resolve_notify_period_seconds(Some(&period), &symtab).unwrap().unwrap();
    assert_eq!(
        cancel_method_for_action(
            &Some(CancelationMode::NotifyThenTerminate { notify_period_in_seconds: Some(period) }),
            &symtab,
            default
        )
        .unwrap(),
        CancelMethod::NotifyThenTerminate { terminate_delay: Duration::from_secs(seen as u64) }
    );
}

#[test]
fn timeouts_resolve() {
    let mut symtab = SymbolTable::default();
    symtab.set("T", ExprValue::Int(5)).unwrap();
    symtab.set("N", ExprValue::Null).unwrap();
    let default = Some(Duration::from_secs(99));
    let mut a = action("run", &[]);
    assert_eq!(resolve_action_timeout(&a, &symtab, default).unwrap(), default);
    a.timeout = Some(fs("{{T}}"));
    assert_eq!(
        resolve_action_timeout(&a, &symtab, default).unwrap(),
        Some(Duration::from_secs(5))
    );
    a.timeout = Some(fs("30"));
    assert_eq!(
        resolve_action_timeout(&a, &symtab, default).unwrap(),
        Some(Duration::from_secs(30))
    );
    a.timeout = Some(fs("{{N}}"));
    assert_eq!(resolve_action_timeout(&a, &symtab, default).unwrap(), default);
    for refused in ["soon", "0", "-5", "{{0}}", "{{true}}"] {
        a.timeout = Some(fs(refused));
        assert!(matches!(
            resolve_action_timeout(&a, &symtab, default),
            Err(SessionError::FormatString { .. })
        ));
    }
}

#[test]
fn arguments_resolve_drop_null_and_spread_lists() {
    let mut symtab = SymbolTable::default();
    symtab.set("N", ExprValue::Null).unwrap();
    symtab
        .set(
            "L",
            ExprValue::List {
                elements: vec![ExprValue::Int(1), ExprValue::String("two".into())],
                elem_type: ExprType::String,
            },
        )
        .unwrap();
    symtab.set("I", ExprValue::Int(-4)).unwrap();
    let a = action("echo", &["plain", "{{N}}", "{{L}}", "x{{I}}y"]);
    assert_eq!(
        resolve_action_args(&a, &symtab).unwrap(),
        vec!["echo", "plain", "1", "two", "x-4y"]
    );
}

#[test]
fn runners_follow_their_action() {
    let symtab = SymbolTable::default();
    let mut runner = ScriptRunnerBase::new("s-1", "/work".into(), "/files".into());
    assert_eq!(runner.state, ScriptRunnerState::Ready);
    let prepared = runner
        .begin_action(&action("echo", &["hi"]), &symtab, None, Duration::from_secs(10))
        .unwrap();
    assert_eq!(prepared.args, vec!["echo", "hi"]);
    assert_eq!(prepared.timeout, None);
    assert_eq!(prepared.cancel_method, CancelMethod::Terminate);
    assert_eq!(runner.state, ScriptRunnerState::Running);
    runner.end_action(ActionState::Timeout);
    assert_eq!(runner.state, ScriptRunnerState::Timeout);
    assert!(runner
        .begin_action(&action("{{Missing}}", &[]), &symtab, None, Duration::from_secs(10))
        .is_err());
}
