//! Resolving an action before it runs, and the states of its runner.

use vstd::prelude::*;

use crate::comparison::value_type;
use crate::display::{display_text, error_text};
use crate::error::ErrorView;
use crate::format_string::{resolved, resolved_text, FormatString, SegmentView};
use crate::sessions::duration::Duration;
use crate::sessions::error::{session_outcome, SessionError, SessionFault};
use crate::symbol_table::SymbolTable;
use crate::text::{
    decimal, int_text, integer_value, parse_i64, parse_u64, push_decimal, push_int, text_views,
};
use crate::types::type_text;
use crate::value::{models, ExprValue, ValueView};

verus! {

/// How a running action is canceled.
#[derive(Clone, Copy, Debug, PartialEq, Eq, Structural)]
pub enum CancelMethod {
    /// It is killed at once.
    Terminate,
    /// It is notified, and killed after a grace period.
    NotifyThenTerminate { terminate_delay: Duration },
}

impl CancelMethod {
    pub open spec fn text(self) -> Seq<char> {
        match self {
            CancelMethod::Terminate => "Terminate"@,
            CancelMethod::NotifyThenTerminate { terminate_delay } => "NotifyThenTerminate("@ + decimal(
                terminate_delay.secs as nat,
            ) + "s)"@,
        }
    }

    pub fn to_string(&self) -> (r: String)
        ensures
            r@ == self.text(),
    {
        match self {
            CancelMethod::Terminate => "Terminate".to_owned(),
            CancelMethod::NotifyThenTerminate { terminate_delay } => {
                let mut out = "NotifyThenTerminate(".to_owned();
                push_decimal(&mut out, terminate_delay.as_secs());
                out.append("s)");
                out
            },
        }
    }
}

/// The state of a script runner.
#[derive(Clone, Copy, Debug, PartialEq, Eq, Structural)]
pub enum ScriptRunnerState {
    Ready,
    Running,
    Canceling,
    Canceled,
    Timeout,
    Failed,
    Success,
}

impl ScriptRunnerState {
    pub open spec fn text(self) -> Seq<char> {
        match self {
            ScriptRunnerState::Ready => "Ready"@,
            ScriptRunnerState::Running => "Running"@,
            ScriptRunnerState::Canceling => "Canceling"@,
            ScriptRunnerState::Canceled => "Canceled"@,
            ScriptRunnerState::Timeout => "Timeout"@,
            ScriptRunnerState::Failed => "Failed"@,
            ScriptRunnerState::Success => "Success"@,
        }
    }

    pub fn to_string(&self) -> (r: String)
        ensures
            r@ == self.text(),
    {
        match self {
            ScriptRunnerState::Ready => "Ready".to_owned(),
            ScriptRunnerState::Running => "Running".to_owned(),
            ScriptRunnerState::Canceling => "Canceling".to_owned(),
            ScriptRunnerState::Canceled => "Canceled".to_owned(),
            ScriptRunnerState::Timeout => "Timeout".to_owned(),
            ScriptRunnerState::Failed => "Failed".to_owned(),
            ScriptRunnerState::Success => "Success".to_owned(),
        }
    }
}

/// The state of an action.
#[derive(Clone, Copy, Debug, PartialEq, Eq, Structural)]
pub enum ActionState {
    Running,
    Canceled,
    Timeout,
    Failed,
    Success,
}

/// The state of a runner whose action ended.
pub fn state_from_action(state: ActionState) -> (r: ScriptRunnerState)
    ensures
        r == (match state {
            ActionState::Success => ScriptRunnerState::Success,
            ActionState::Canceled => ScriptRunnerState::Canceled,
            ActionState::Timeout => ScriptRunnerState::Timeout,
            _ => ScriptRunnerState::Failed,
        }),
{
    match state {
        ActionState::Success => ScriptRunnerState::Success,
        ActionState::Canceled => ScriptRunnerState::Canceled,
        ActionState::Timeout => ScriptRunnerState::Timeout,
        _ => ScriptRunnerState::Failed,
    }
}

/// How an action declares that it is canceled.
#[derive(Debug)]
pub enum CancelationMode {
    Terminate,
    NotifyThenTerminate { notify_period_in_seconds: Option<FormatString> },
    /// The mode is a format string itself.
    DeferredMode { mode: FormatString, notify_period_in_seconds: Option<FormatString> },
}

/// An action as a template declares it.
#[derive(Debug)]
pub struct Action {
    pub command: FormatString,
    pub args: Option<Vec<FormatString>>,
    pub timeout: Option<FormatString>,
    pub cancelation: Option<CancelationMode>,
}

/// How an action is canceled once its format strings are resolved.
#[derive(Clone, Copy, Debug, PartialEq, Eq, Structural)]
pub enum EffectiveCancelation {
    /// Nothing is declared, or the mode resolved to null.
    Undeclared,
    Terminate,
    /// Without a period, the default of the kind of action applies.
    NotifyThenTerminate { notify_period_seconds: Option<i64> },
}

/// The symbols of a table.
pub type Symbols = Seq<(Seq<char>, ValueView)>;

/// The error of a format string in a place of an action.
pub open spec fn format_fault(context: Seq<char>, reason: Seq<char>) -> SessionFault {
    SessionFault::FormatString { context, reason }
}

fn format_error(context: &str, reason: String) -> (e: SessionError)
    ensures
        e@ == format_fault(context@, reason@),
{
    SessionError::FormatString { context: context.to_owned(), reason }
}

/// A value as an error describes it: its type and its text.
pub open spec fn described(v: ValueView) -> Seq<char> {
    type_text(value_type(v)) + "("@ + display_text(v) + ")"@
}

fn describe(v: &ExprValue) -> (r: String)
    ensures
        r@ == described(v@),
{
    v.expr_type().name().concat("(").concat(v.to_display_string().as_str()).concat(")")
}

pub open spec fn optional_view(f: Option<FormatString>) -> Option<Seq<SegmentView>> {
    match f {
        Some(f) => Some(f@),
        None => None,
    }
}

/// The place of the notify period in messages.
pub open spec fn period_context() -> Seq<char> {
    "notifyPeriodInSeconds"@
}

/// A notify period within its bounds: from 1 to 600 seconds.
pub open spec fn bounded_period(n: int) -> Result<Option<i64>, SessionFault> {
    if n <= 0 {
        Err(
            format_fault(
                period_context(),
                "notifyPeriodInSeconds must be positive, got '"@ + int_text(n) + "'"@,
            ),
        )
    } else if n > 600 {
        Err(
            format_fault(
                period_context(),
                "notifyPeriodInSeconds must not exceed 600, got '"@ + int_text(n) + "'"@,
            ),
        )
    } else {
        Ok(Some(n as i64))
    }
}

/// The integer of 64 bits that a text spells.
pub open spec fn text_as_i64(text: Seq<char>) -> Option<int> {
    match integer_value(text) {
        Some(n) => if i64::MIN <= n <= i64::MAX {
            Some(n)
        } else {
            None
        },
        None => None,
    }
}

/// The notify period that a value stands for: none for null.
pub open spec fn period_of(v: ValueView) -> Result<Option<i64>, SessionFault> {
    let message = "notifyPeriodInSeconds must be a positive integer, got "@;
    match v {
        ValueView::Null => Ok(None),
        ValueView::Int(n) => bounded_period(n),
        ValueView::Text(text) => match text_as_i64(text) {
            Some(n) => bounded_period(n),
            None => Err(format_fault(period_context(), message + "'"@ + text + "'"@)),
        },
        other => Err(format_fault(period_context(), message + described(other))),
    }
}

/// A notify period resolved: none where the field is omitted or null.
pub open spec fn notify_period(period: Option<Seq<SegmentView>>, symbols: Symbols) -> Result<
    Option<i64>,
    SessionFault,
> {
    match period {
        None => Ok(None),
        Some(segments) => match resolved(segments, symbols) {
            Err(e) => Err(format_fault(period_context(), error_text(e))),
            Ok(v) => period_of(v),
        },
    }
}

fn bound_period(n: i64) -> (r: Result<Option<i64>, SessionError>)
    ensures
        session_outcome(r) == bounded_period(n as int),
{
    if n <= 0 {
        let mut reason = "notifyPeriodInSeconds must be positive, got '".to_owned();
        push_int(&mut reason, n);
        reason.append("'");
        return Err(format_error("notifyPeriodInSeconds", reason));
    }
    if n > 600 {
        let mut reason = "notifyPeriodInSeconds must not exceed 600, got '".to_owned();
        push_int(&mut reason, n);
        reason.append("'");
        return Err(format_error("notifyPeriodInSeconds", reason));
    }
    Ok(Some(n))
}

/// The number of seconds of a notify period that resolved to a value.
pub fn notify_period_seconds(value: &ExprValue) -> (r: Result<Option<i64>, SessionError>)
    ensures
        session_outcome(r) == period_of(value@),
{
    match value {
        ExprValue::Null => Ok(None),
        ExprValue::Int(n) => bound_period(*n),
        ExprValue::String(text) => match parse_i64(text.as_str()) {
            Some(n) => bound_period(n),
            None => {
                let reason = "notifyPeriodInSeconds must be a positive integer, got ".to_owned().concat(
                    "'",
                ).concat(text.as_str()).concat("'");
                Err(format_error("notifyPeriodInSeconds", reason))
            },
        },
        _ => {
            let reason = "notifyPeriodInSeconds must be a positive integer, got ".to_owned().concat(
                describe(value).as_str(),
            );
            Err(format_error("notifyPeriodInSeconds", reason))
        },
    }
}

/// Resolves a notify period to a number of seconds.
pub fn resolve_notify_period_seconds(period: Option<&FormatString>, symtab: &SymbolTable) -> (r: Result<
    Option<i64>,
    SessionError,
>)
    ensures
        session_outcome(r) == notify_period(
            match period {
                Some(f) => Some(f@),
                None => None,
            },
            symtab@,
        ),
{
    let format = match period {
        Some(format) => format,
        None => return Ok(None),
    };
    match format.resolve_with(symtab) {
        Ok(value) => notify_period_seconds(&value),
        Err(e) => Err(format_error("notifyPeriodInSeconds", e.to_string())),
    }
}

/// The cancelation of an action whose mode resolved to a value, with what its
/// period came to. A null mode drops the whole declaration; a mode that kills
/// at once admits no period.
pub open spec fn mode_cancelation(
    mode: ValueView,
    period: Result<Option<i64>, SessionFault>,
) -> Result<EffectiveCancelation, SessionFault> {
    match mode {
        ValueView::Null => Ok(EffectiveCancelation::Undeclared),
        ValueView::Text(text) => if text == "TERMINATE"@ {
            match period {
                Err(fault) => Err(fault),
                Ok(Some(_)) => Err(
                    format_fault(
                        "cancelation mode"@,
                        "mode resolved to TERMINATE, which does not accept notifyPeriodInSeconds"@,
                    ),
                ),
                Ok(None) => Ok(EffectiveCancelation::Terminate),
            }
        } else if text == "NOTIFY_THEN_TERMINATE"@ {
            notified(period)
        } else {
            Err(unknown_mode(mode))
        },
        _ => Err(unknown_mode(mode)),
    }
}

pub open spec fn unknown_mode(mode: ValueView) -> SessionFault {
    format_fault(
        "cancelation mode"@,
        "must resolve to TERMINATE, NOTIFY_THEN_TERMINATE, or null; got "@ + described(mode),
    )
}

/// Notification with a period that may be missing.
pub open spec fn notified(period: Result<Option<i64>, SessionFault>) -> Result<
    EffectiveCancelation,
    SessionFault,
> {
    match period {
        Ok(notify_period_seconds) => Ok(
            EffectiveCancelation::NotifyThenTerminate { notify_period_seconds },
        ),
        Err(fault) => Err(fault),
    }
}

/// The cancelation of an action with every format string resolved.
pub open spec fn effective_cancelation(cancelation: Option<CancelationMode>, symbols: Symbols) -> Result<
    EffectiveCancelation,
    SessionFault,
> {
    match cancelation {
        None => Ok(EffectiveCancelation::Undeclared),
        Some(CancelationMode::Terminate) => Ok(EffectiveCancelation::Terminate),
        Some(CancelationMode::NotifyThenTerminate { notify_period_in_seconds }) => notified(
            notify_period(optional_view(notify_period_in_seconds), symbols),
        ),
        Some(CancelationMode::DeferredMode { mode, notify_period_in_seconds }) => match resolved(
            mode@,
            symbols,
        ) {
            Ok(value) => mode_cancelation(
                value,
                notify_period(optional_view(notify_period_in_seconds), symbols),
            ),
            Err(e) => Err(format_fault("cancelation mode"@, error_text(e))),
        },
    }
}

fn as_optional(f: &Option<FormatString>) -> (r: Option<&FormatString>)
    ensures
        match r {
            Some(g) => optional_view(*f) == Some(g@),
            None => optional_view(*f) is None,
        },
{
    match f {
        Some(f) => Some(f),
        None => None,
    }
}

/// The cancelation of a mode that resolved to a value, with what its period
/// came to.
fn decide_mode(mode: &ExprValue, period: Result<Option<i64>, SessionError>) -> (r: Result<
    EffectiveCancelation,
    SessionError,
>)
    ensures
        session_outcome(r) == mode_cancelation(mode@, session_outcome(period)),
{
    match mode {
        ExprValue::Null => return Ok(EffectiveCancelation::Undeclared),
        ExprValue::String(text) => {
            if text.eq(&"TERMINATE".to_owned()) {
                return match period {
                    Err(e) => Err(e),
                    Ok(Some(_)) => Err(
                        format_error(
                            "cancelation mode",
                            "mode resolved to TERMINATE, which does not accept notifyPeriodInSeconds".to_owned(),
                        ),
                    ),
                    Ok(None) => Ok(EffectiveCancelation::Terminate),
                };
            }
            if text.eq(&"NOTIFY_THEN_TERMINATE".to_owned()) {
                return match period {
                    Ok(notify_period_seconds) => Ok(
                        EffectiveCancelation::NotifyThenTerminate { notify_period_seconds },
                    ),
                    Err(e) => Err(e),
                };
            }
        },
        _ => {},
    }
    let reason = "must resolve to TERMINATE, NOTIFY_THEN_TERMINATE, or null; got ".to_owned().concat(
        describe(mode).as_str(),
    );
    Err(format_error("cancelation mode", reason))
}

/// The notify period that an optional value stands for.
pub open spec fn optional_period(period: Option<ValueView>) -> Result<Option<i64>, SessionFault> {
    match period {
        Some(v) => period_of(v),
        None => Ok(None),
    }
}

/// Decides how an action is canceled whose mode resolved to a value, and whose
/// period did where it has one.
pub fn cancelation_of_mode(mode: &ExprValue, period: Option<&ExprValue>) -> (r: Result<
    EffectiveCancelation,
    SessionError,
>)
    ensures
        session_outcome(r) == mode_cancelation(
            mode@,
            optional_period(
                match period {
                    Some(v) => Some(v@),
                    None => None,
                },
            ),
        ),
{
    match period {
        Some(v) => decide_mode(mode, notify_period_seconds(v)),
        None => decide_mode(mode, Ok(None)),
    }
}

/// Resolves how an action is canceled.
pub fn resolve_effective_cancelation(
    cancelation: &Option<CancelationMode>,
    symtab: &SymbolTable,
) -> (r: Result<EffectiveCancelation, SessionError>)
    ensures
        session_outcome(r) == effective_cancelation(*cancelation, symtab@),
{
    match cancelation {
        None => Ok(EffectiveCancelation::Undeclared),
        Some(CancelationMode::Terminate) => Ok(EffectiveCancelation::Terminate),
        Some(CancelationMode::NotifyThenTerminate { notify_period_in_seconds }) => {
            match resolve_notify_period_seconds(as_optional(notify_period_in_seconds), symtab) {
                Ok(notify_period_seconds) => Ok(
                    EffectiveCancelation::NotifyThenTerminate { notify_period_seconds },
                ),
                Err(e) => Err(e),
            }
        },
        Some(CancelationMode::DeferredMode { mode, notify_period_in_seconds }) => {
            match mode.resolve_with(symtab) {
                Ok(value) => decide_mode(
                    &value,
                    resolve_notify_period_seconds(as_optional(notify_period_in_seconds), symtab),
                ),
                Err(e) => Err(format_error("cancelation mode", e.to_string())),
            }
        },
    }
}

/// The method that a resolved cancelation asks for.
pub open spec fn cancel_method(effective: EffectiveCancelation, default_period: Duration) -> CancelMethod {
    match effective {
        EffectiveCancelation::NotifyThenTerminate { notify_period_seconds } => {
            CancelMethod::NotifyThenTerminate {
                terminate_delay: match notify_period_seconds {
                    Some(n) => Duration { secs: n as u64, nanos: 0 },
                    None => default_period,
                },
            }
        },
        _ => CancelMethod::Terminate,
    }
}

/// A resolved notify period lies between 1 and 600 seconds.
pub proof fn notify_periods_are_bounded(period: Option<Seq<SegmentView>>, symbols: Symbols)
    ensures
        notify_period(period, symbols) matches Ok(Some(n)) ==> 1 <= n <= 600,
{
}

/// A mode that resolves to null drops the whole declaration, and a mode that
/// resolves to the name of another acts as that one with the same period.
pub proof fn deferred_modes_act_as_resolved(
    mode: FormatString,
    period: Option<FormatString>,
    symbols: Symbols,
)
    ensures
        ({
            let deferred = effective_cancelation(
                Some(CancelationMode::DeferredMode { mode, notify_period_in_seconds: period }),
                symbols,
            );
            &&& resolved(mode@, symbols) == Ok::<_, ErrorView>(ValueView::Null) ==> deferred
                == effective_cancelation(None, symbols)
            &&& resolved(mode@, symbols) == Ok::<_, ErrorView>(
                ValueView::Text("NOTIFY_THEN_TERMINATE"@),
            ) ==> deferred == effective_cancelation(
                Some(CancelationMode::NotifyThenTerminate { notify_period_in_seconds: period }),
                symbols,
            )
            &&& resolved(mode@, symbols) == Ok::<_, ErrorView>(ValueView::Text("TERMINATE"@))
                && notify_period(optional_view(period), symbols) == Ok::<Option<i64>, SessionFault>(None)
                ==> deferred == effective_cancelation(Some(CancelationMode::Terminate), symbols)
        }),
{
    reveal_strlit("TERMINATE");
    reveal_strlit("NOTIFY_THEN_TERMINATE");
    assert("TERMINATE"@.len() != "NOTIFY_THEN_TERMINATE"@.len());
}

/// The period that a declaration resolves to is the period that is enforced;
/// the default applies where the period is omitted or null.
pub proof fn resolved_periods_are_enforced(
    period: Option<FormatString>,
    symbols: Symbols,
    default_period: Duration,
)
    requires
        notify_period(optional_view(period), symbols) is Ok,
    ensures
        effective_cancelation(
            Some(CancelationMode::NotifyThenTerminate { notify_period_in_seconds: period }),
            symbols,
        ) matches Ok(effective) && cancel_method(effective, default_period)
            == (CancelMethod::NotifyThenTerminate {
            terminate_delay: match notify_period(optional_view(period), symbols)->Ok_0 {
                Some(n) => Duration { secs: n as u64, nanos: 0 },
                None => default_period,
            },
        }),
{
}

/// Determines how an action is canceled.
pub fn cancel_method_for_action(
    cancelation: &Option<CancelationMode>,
    symtab: &SymbolTable,
    default_notify_period: Duration,
) -> (r: Result<CancelMethod, SessionError>)
    ensures
        session_outcome(r) == (match effective_cancelation(*cancelation, symtab@) {
            Ok(effective) => Ok(cancel_method(effective, default_notify_period)),
            Err(fault) => Err(fault),
        }),
{
    match resolve_effective_cancelation(cancelation, symtab) {
        Ok(EffectiveCancelation::NotifyThenTerminate { notify_period_seconds }) => {
            let terminate_delay = match notify_period_seconds {
                Some(n) => Duration::from_secs(n as u64),
                None => default_notify_period,
            };
            Ok(CancelMethod::NotifyThenTerminate { terminate_delay })
        },
        Ok(_) => Ok(CancelMethod::Terminate),
        Err(e) => Err(e),
    }
}

/// The positive number of seconds that a text spells.
pub open spec fn text_as_timeout(text: Seq<char>) -> Option<u64> {
    match integer_value(text) {
        Some(n) => if text[0] != '-' && 0 < n <= u64::MAX {
            Some(n as u64)
        } else {
            None
        },
        None => None,
    }
}

/// The timeout that a value stands for: the default for null.
pub open spec fn timeout_of(v: ValueView, default: Option<Duration>) -> Result<
    Option<Duration>,
    SessionFault,
> {
    let message = "timeout must be a positive integer, got "@;
    match v {
        ValueView::Null => Ok(default),
        ValueView::Int(n) => if n > 0 {
            Ok(Some(Duration { secs: n as u64, nanos: 0 }))
        } else {
            Err(format_fault("timeout"@, message + described(v)))
        },
        ValueView::Text(text) => match text_as_timeout(text) {
            Some(secs) => Ok(Some(Duration { secs, nanos: 0 })),
            None => Err(format_fault("timeout"@, message + "'"@ + text + "'"@)),
        },
        other => Err(format_fault("timeout"@, message + described(other))),
    }
}

/// A timeout resolved: the default where the field is omitted or null.
pub open spec fn action_timeout(
    timeout: Option<Seq<SegmentView>>,
    symbols: Symbols,
    default: Option<Duration>,
) -> Result<Option<Duration>, SessionFault> {
    match timeout {
        None => Ok(default),
        Some(segments) => match resolved(segments, symbols) {
            Err(e) => Err(format_fault("timeout"@, error_text(e))),
            Ok(v) => timeout_of(v, default),
        },
    }
}

/// A timeout that resolves to null counts as omitted, and one that resolves to
/// a number is positive.
pub proof fn timeouts_are_positive_or_default(
    timeout: Seq<SegmentView>,
    symbols: Symbols,
    default: Option<Duration>,
)
    requires
        resolved(timeout, symbols) matches Ok(ValueView::Int(n)) ==> i64::MIN <= n <= i64::MAX,
    ensures
        resolved(timeout, symbols) == Ok::<_, ErrorView>(ValueView::Null) ==> action_timeout(
            Some(timeout),
            symbols,
            default,
        ) == action_timeout(None, symbols, default),
        action_timeout(Some(timeout), symbols, None) matches Ok(Some(d)) ==> d.secs > 0 && d.nanos == 0,
{
}

/// The timeout of an action whose timeout resolved to a value.
pub fn timeout_duration(value: &ExprValue, default: Option<Duration>) -> (r: Result<
    Option<Duration>,
    SessionError,
>)
    ensures
        session_outcome(r) == timeout_of(value@, default),
{
    match value {
        ExprValue::Null => return Ok(default),
        ExprValue::Int(n) => if *n > 0 {
            return Ok(Some(Duration::from_secs(*n as u64)));
        },
        ExprValue::String(text) => {
            return match parse_u64(text.as_str()) {
                Some(secs) if secs > 0 => Ok(Some(Duration::from_secs(secs))),
                _ => {
                    let reason = "timeout must be a positive integer, got ".to_owned().concat(
                        "'",
                    ).concat(text.as_str()).concat("'");
                    Err(format_error("timeout", reason))
                },
            };
        },
        _ => {},
    }
    let reason = "timeout must be a positive integer, got ".to_owned().concat(
        describe(value).as_str(),
    );
    Err(format_error("timeout", reason))
}

/// Resolves the timeout of an action.
pub fn resolve_action_timeout(action: &Action, symtab: &SymbolTable, default: Option<Duration>) -> (r: Result<
    Option<Duration>,
    SessionError,
>)
    ensures
        session_outcome(r) == action_timeout(optional_view(action.timeout), symtab@, default),
{
    let format = match &action.timeout {
        Some(format) => format,
        None => return Ok(default),
    };
    match format.resolve_with(symtab) {
        Ok(value) => timeout_duration(&value, default),
        Err(e) => Err(format_error("timeout", e.to_string())),
    }
}

/// The texts of values.
pub open spec fn display_texts(values: Seq<ValueView>) -> Seq<Seq<char>> {
    Seq::new(values.len(), |i: int| display_text(values[i]))
}

/// The arguments that a value stands for: none for null, one for each element
/// of a list, otherwise one.
pub open spec fn value_args(v: ValueView) -> Seq<Seq<char>> {
    match v {
        ValueView::Null => seq![],
        ValueView::List { elements, elem_type } => display_texts(elements),
        _ => seq![display_text(v)],
    }
}

/// The arguments that a format string stands for.
pub open spec fn format_args(segments: Seq<SegmentView>, symbols: Symbols) -> Result<
    Seq<Seq<char>>,
    SessionFault,
> {
    match resolved(segments, symbols) {
        Ok(v) => Ok(value_args(v)),
        Err(_) => match resolved_text(segments, symbols) {
            Ok(text) => Ok(seq![text]),
            Err(e) => Err(format_fault("argument"@, error_text(e))),
        },
    }
}

/// The arguments that format strings stand for, in order.
pub open spec fn all_args(formats: Seq<FormatString>, symbols: Symbols) -> Result<
    Seq<Seq<char>>,
    SessionFault,
>
    decreases formats.len(),
{
    if formats.len() == 0 {
        Ok(seq![])
    } else {
        match all_args(formats.drop_last(), symbols) {
            Ok(before) => match format_args(formats.last()@, symbols) {
                Ok(args) => Ok(before + args),
                Err(fault) => Err(fault),
            },
            Err(fault) => Err(fault),
        }
    }
}

/// The command and the arguments of an action.
pub open spec fn action_args(action: Action, symbols: Symbols) -> Result<Seq<Seq<char>>, SessionFault> {
    match resolved_text(action.command@, symbols) {
        Err(e) => Err(format_fault("command"@, error_text(e))),
        Ok(command) => match action.args {
            None => Ok(seq![command]),
            Some(formats) => match all_args(formats@, symbols) {
                Ok(args) => Ok(seq![command] + args),
                Err(fault) => Err(fault),
            },
        },
    }
}

/// The views of arguments, or the fault.
pub open spec fn args_outcome(r: Result<Vec<String>, SessionError>) -> Result<
    Seq<Seq<char>>,
    SessionFault,
> {
    match r {
        Ok(args) => Ok(text_views(args@)),
        Err(e) => Err(e@),
    }
}

proof fn lemma_text_views_push(texts: Seq<String>, text: String)
    ensures
        text_views(texts.push(text)) == text_views(texts).push(text@),
{
    assert(text_views(texts.push(text)) =~= text_views(texts).push(text@));
}

fn push_value_args(args: &mut Vec<String>, value: &ExprValue)
    ensures
        text_views(final(args)@) == text_views(old(args)@) + value_args(value@),
{
    let ghost start = text_views(args@);
    match value {
        ExprValue::Null => {
            assert(start + seq![] =~= start);
        },
        ExprValue::List { elements, elem_type } => {
            let ghost views = models(elements@);
            let mut i: usize = 0;
            assert(start + display_texts(views).take(0) =~= start);
            while i < elements.len()
                invariant
                    i <= elements@.len(),
                    views == models(elements@),
                    text_views(args@) == start + display_texts(views).take(i as int),
                decreases elements@.len() - i,
            {
                let text = elements[i].to_display_string();
                proof {
                    lemma_text_views_push(args@, text);
                    assert(views[i as int] == elements@[i as int]@);
                    assert(display_texts(views).take(i + 1) =~= display_texts(views).take(
                        i as int,
                    ).push(text@));
                }
                args.push(text);
                i = i + 1;
            }
            assert(display_texts(views).take(i as int) =~= display_texts(views));
        },
        _ => {
            let text = value.to_display_string();
            proof {
                lemma_text_views_push(args@, text);
                assert(start.push(text@) =~= start + seq![text@]);
            }
            args.push(text);
        },
    }
}

/// The arguments that values stand for, in order.
pub open spec fn all_value_args(values: Seq<ValueView>) -> Seq<Seq<char>>
    decreases values.len(),
{
    if values.len() == 0 {
        seq![]
    } else {
        all_value_args(values.drop_last()) + value_args(values.last())
    }
}

/// The argument list of an action whose command resolved to a text and whose
/// arguments resolved to values.
pub fn arguments_of_values(command: String, values: &Vec<ExprValue>) -> (r: Vec<String>)
    ensures
        text_views(r@) == seq![command@] + all_value_args(models(values@)),
{
    let ghost views = models(values@);
    let ghost first = seq![command@];
    let mut args: Vec<String> = Vec::new();
    args.push(command);
    let mut i: usize = 0;
    proof {
        assert(text_views(args@) =~= first);
        assert(views.take(0) =~= seq![]);
        assert(first + all_value_args(views.take(0)) =~= first);
    }
    while i < values.len()
        invariant
            i <= values@.len(),
            views == models(values@),
            text_views(args@) == first + all_value_args(views.take(i as int)),
        decreases values@.len() - i,
    {
        proof {
            assert(views[i as int] == values@[i as int]@);
            assert(views.take(i + 1).drop_last() =~= views.take(i as int));
            let before = all_value_args(views.take(i as int));
            let more = value_args(views[i as int]);
            assert(first + before + more =~= first + (before + more));
        }
        push_value_args(&mut args, &values[i]);
        i = i + 1;
    }
    assert(views.take(i as int) =~= views);
    args
}

/// Where every argument resolves to a value, the arguments are those of the
/// values.
pub proof fn resolved_arguments_are_those_of_their_values(
    formats: Seq<FormatString>,
    values: Seq<ValueView>,
    symbols: Symbols,
)
    requires
        formats.len() == values.len(),
        forall|i: int|
            0 <= i < formats.len() ==> resolved((#[trigger] formats[i])@, symbols) == Ok::<
                ValueView,
                ErrorView,
            >(values[i]),
    ensures
        all_args(formats, symbols) == Ok::<_, SessionFault>(all_value_args(values)),
    decreases formats.len(),
{
    if formats.len() > 0 {
        resolved_arguments_are_those_of_their_values(
            formats.drop_last(),
            values.drop_last(),
            symbols,
        );
        assert(resolved(formats.last()@, symbols) == Ok::<ValueView, ErrorView>(values.last()));
    }
}

/// Null arguments are left out and lists are flattened: the arguments of two
/// lists of format strings are those of the one followed by those of the other.
pub proof fn arguments_follow_their_order(
    first: Seq<FormatString>,
    second: Seq<FormatString>,
    symbols: Symbols,
)
    requires
        all_args(first, symbols) is Ok,
        all_args(second, symbols) is Ok,
    ensures
        all_args(first + second, symbols) == Ok::<_, SessionFault>(
            all_args(first, symbols)->Ok_0 + all_args(second, symbols)->Ok_0,
        ),
        value_args(ValueView::Null).len() == 0,
    decreases second.len(),
{
    if second.len() == 0 {
        assert(first + second =~= first);
        assert(all_args(first, symbols)->Ok_0 + seq![] =~= all_args(first, symbols)->Ok_0);
    } else {
        arguments_follow_their_order(first, second.drop_last(), symbols);
        assert((first + second).drop_last() =~= first + second.drop_last());
        let before = all_args(first, symbols)->Ok_0;
        let middle = all_args(second.drop_last(), symbols)->Ok_0;
        let last = format_args(second.last()@, symbols)->Ok_0;
        assert(before + middle + last =~= before + (middle + last));
    }
}

/// A fault of leading format strings is the fault of all.
proof fn lemma_args_fault_stays(formats: Seq<FormatString>, i: int, symbols: Symbols)
    requires
        0 <= i <= formats.len(),
        all_args(formats.take(i), symbols) is Err,
    ensures
        all_args(formats, symbols) == all_args(formats.take(i), symbols),
    decreases formats.len() - i,
{
    if i == formats.len() {
        assert(formats.take(i) =~= formats);
    } else {
        assert(formats.take(i + 1).drop_last() =~= formats.take(i));
        lemma_args_fault_stays(formats, i + 1, symbols);
    }
}

/// Appends the arguments that format strings stand for.
fn push_args(args: &mut Vec<String>, formats: &Vec<FormatString>, symtab: &SymbolTable) -> (r: Result<
    (),
    SessionError,
>)
    ensures
        match r {
            Ok(()) => all_args(formats@, symtab@) matches Ok(more) && text_views(final(args)@)
                == text_views(old(args)@) + more,
            Err(e) => all_args(formats@, symtab@) == Err::<Seq<Seq<char>>, _>(e@),
        },
{
    let ghost start = text_views(args@);
    let ghost mut done: Seq<Seq<char>> = seq![];
    let mut i: usize = 0;
    proof {
        assert(formats@.take(0) =~= seq![]);
        assert(start + done =~= start);
    }
    while i < formats.len()
        invariant
            i <= formats@.len(),
            all_args(formats@.take(i as int), symtab@) == Ok::<_, SessionFault>(done),
            text_views(args@) == start + done,
        decreases formats@.len() - i,
    {
        let ghost more = format_args(formats@[i as int]@, symtab@);
        proof {
            assert(formats@.take(i + 1).drop_last() =~= formats@.take(i as int));
            if more is Err {
                lemma_args_fault_stays(formats@, i + 1, symtab@);
            }
        }
        match formats[i].resolve_with(symtab) {
            Ok(value) => push_value_args(args, &value),
            Err(_) => match formats[i].resolve_string_with(symtab) {
                Ok(text) => {
                    proof {
                        lemma_text_views_push(args@, text);
                    }
                    args.push(text);
                },
                Err(e) => return Err(format_error("argument", e.to_string())),
            },
        }
        proof {
            assert(start + done + more->Ok_0 =~= start + (done + more->Ok_0));
            assert(text_views(args@) =~= start + (done + more->Ok_0));
            done = done + more->Ok_0;
        }
        i = i + 1;
    }
    assert(formats@.take(i as int) =~= formats@);
    Ok(())
}

/// Resolves the command and the arguments of an action.
pub fn resolve_action_args(action: &Action, symtab: &SymbolTable) -> (r: Result<
    Vec<String>,
    SessionError,
>)
    ensures
        args_outcome(r) == action_args(*action, symtab@),
{
    let command = match action.command.resolve_string_with(symtab) {
        Ok(command) => command,
        Err(e) => return Err(format_error("command", e.to_string())),
    };
    let mut args: Vec<String> = Vec::new();
    proof {
        lemma_text_views_push(args@, command);
        assert(text_views(args@) =~= seq![]);
    }
    args.push(command);
    assert(text_views(args@) =~= seq![command@]);
    if let Some(formats) = &action.args {
        match push_args(&mut args, formats, symtab) {
            Ok(()) => {},
            Err(e) => return Err(e),
        }
    }
    Ok(args)
}

/// What a subprocess is started with.
#[derive(Debug)]
pub struct PreparedAction {
    pub args: Vec<String>,
    pub timeout: Option<Duration>,
    pub cancel_method: CancelMethod,
}

/// What the runners of environments and of steps have in common.
#[derive(Debug)]
pub struct ScriptRunnerBase {
    pub state: ScriptRunnerState,
    pub session_id: String,
    pub working_directory: String,
    pub files_directory: String,
    pub helpers_directory: Option<String>,
    pub redactions_enabled: bool,
    pub initial_redacted_values: Vec<String>,
    pub debug_collect_stdout: bool,
    pub echo_openjd_directives: bool,
}

impl ScriptRunnerBase {
    /// A runner that is ready.
    pub fn new(session_id: &str, working_directory: String, files_directory: String) -> (r: Self)
        ensures
            r.state == ScriptRunnerState::Ready,
            r.session_id@ == session_id@,
            r.working_directory == working_directory,
            r.files_directory == files_directory,
            r.helpers_directory is None,
            !r.redactions_enabled,
            r.initial_redacted_values@.len() == 0,
            !r.debug_collect_stdout,
            r.echo_openjd_directives,
    {
        ScriptRunnerBase {
            state: ScriptRunnerState::Ready,
            session_id: session_id.to_owned(),
            working_directory,
            files_directory,
            helpers_directory: None,
            redactions_enabled: false,
            initial_redacted_values: Vec::new(),
            debug_collect_stdout: false,
            echo_openjd_directives: true,
        }
    }

    /// Starts an action: the runner is running, and the arguments, the timeout
    /// and the cancel method are resolved in this order.
    pub fn begin_action(
        &mut self,
        action: &Action,
        symtab: &SymbolTable,
        default_timeout: Option<Duration>,
        default_cancel_period: Duration,
    ) -> (r: Result<PreparedAction, SessionError>)
        ensures
            *final(self) == (ScriptRunnerBase { state: ScriptRunnerState::Running, ..*old(self) }),
            match (
                action_args(*action, symtab@),
                action_timeout(optional_view(action.timeout), symtab@, default_timeout),
                effective_cancelation(action.cancelation, symtab@),
            ) {
                (Err(fault), _, _) => r matches Err(e) && e@ == fault,
                (Ok(_), Err(fault), _) => r matches Err(e) && e@ == fault,
                (Ok(_), Ok(_), Err(fault)) => r matches Err(e) && e@ == fault,
                (Ok(args), Ok(timeout), Ok(effective)) => r matches Ok(prepared) && {
                    &&& text_views(prepared.args@) == args
                    &&& prepared.timeout == timeout
                    &&& prepared.cancel_method == cancel_method(effective, default_cancel_period)
                },
            },
    {
        self.state = ScriptRunnerState::Running;
        let args = match resolve_action_args(action, symtab) {
            Ok(args) => args,
            Err(e) => return Err(e),
        };
        let timeout = match resolve_action_timeout(action, symtab, default_timeout) {
            Ok(timeout) => timeout,
            Err(e) => return Err(e),
        };
        let cancel_method = match cancel_method_for_action(
            &action.cancelation,
            symtab,
            default_cancel_period,
        ) {
            Ok(method) => method,
            Err(e) => return Err(e),
        };
        Ok(PreparedAction { args, timeout, cancel_method })
    }

    /// Takes over the state in which an action ended.
    pub fn end_action(&mut self, state: ActionState)
        ensures
            *final(self) == (ScriptRunnerBase {
                state: match state {
                    ActionState::Success => ScriptRunnerState::Success,
                    ActionState::Canceled => ScriptRunnerState::Canceled,
                    ActionState::Timeout => ScriptRunnerState::Timeout,
                    _ => ScriptRunnerState::Failed,
                },
                ..*old(self)
            }),
    {
        self.state = state_from_action(state);
    }
}

} // verus!
