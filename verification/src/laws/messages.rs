//! What errors and states say.

use vstd::prelude::*;

use crate::differential::equivalence::{type_detail, value_detail};
use crate::display::{display_text, error_text};
use crate::error::ErrorView;
use crate::format_string::{
    fault_message, resolved, resolved_text, FormatFault, FormatString, SegmentView,
};
use crate::hash::ChunkError;
use crate::manifest::{fault_text, ManifestFault};
use crate::model::types::{EffectiveLimits, ModelExtension, TemplateSpecificationVersion};
use crate::sessions::duration::Duration;
use crate::sessions::error::{session_fault_text, SessionFault};
use crate::sessions::runner::{
    action_args, action_timeout, all_value_args, described, effective_cancelation, format_args,
    mode_cancelation, notify_period, period_of, timeout_of, Action, CancelMethod, CancelationMode,
    EffectiveCancelation, ScriptRunnerState,
};
use crate::symbol_table::collision_text;
use crate::text::{decimal, int_text, integer_value};
use crate::value::ValueView;

verus! {

/// An expression error says what failed: the operation that divided by zero,
/// the variable or function that is not known, the limit that was exceeded, or
/// the message that it was made with.
pub proof fn expression_errors_say_what_failed(e: ErrorView)
    ensures
        match e {
            ErrorView::IntegerOverflow => error_text(e) == "Integer overflow"@,
            ErrorView::DivisionByZero(operation) => error_text(e) == operation + " by zero"@,
            ErrorView::UndefinedVariable(name) => error_text(e) == "Undefined variable: '"@ + name + "'"@,
            ErrorView::UnknownFunction(name) => error_text(e) == "Unknown function: '"@ + name + "'"@,
            ErrorView::OperationLimitExceeded => error_text(e) == "Operation limit exceeded"@,
            ErrorView::MemoryLimitExceeded => error_text(e) == "Memory limit exceeded"@,
            ErrorView::ParseError(message) => error_text(e) == message,
            ErrorView::UnsupportedSyntax(message) => error_text(e) == message,
            ErrorView::IndexOutOfBounds(message) => error_text(e) == message,
            ErrorView::TypeError(message) => error_text(e) == message,
            ErrorView::FloatError(message) => error_text(e) == message,
            ErrorView::Other(message) => error_text(e) == message,
        },
{
}

/// An error of a session says what could not be resolved or started, or why the
/// helper cannot be spoken to.
pub proof fn session_errors_say_what_failed(fault: SessionFault)
    ensures
        match fault {
            SessionFault::FormatString { context, reason } => session_fault_text(fault)
                == "Failed to resolve "@ + context + ": "@ + reason,
            SessionFault::HelperCommunication(message) => session_fault_text(fault)
                == "Helper communication error: "@ + message,
            SessionFault::SubprocessStart { command, source } => session_fault_text(fault)
                == "Failed to start '"@ + command + "': "@ + source,
            SessionFault::Runtime(message) => session_fault_text(fault) == message,
        },
{
}

/// An error of a manifest names the chunk size or the path at fault.
pub proof fn manifest_errors_name_their_fault(fault: ManifestFault)
    ensures
        match fault {
            ManifestFault::InvalidChunkSize(size) => fault_text(fault)
                == "Manifest validation error: invalid fileChunkSizeBytes: got "@ + int_text(size)
                + ", must be -1 (WHOLE_FILE_CHUNK_SIZE) or a positive integer"@,
            ManifestFault::DuplicatePath(path) => fault_text(fault)
                == "Manifest validation error: duplicate path: "@ + path,
            ManifestFault::NotAbsolute(path) => fault_text(fault)
                == "Manifest validation error: expected absolute path, got: "@ + path,
            ManifestFault::NotRelative(path) => fault_text(fault)
                == "Manifest validation error: expected relative path, got: "@ + path,
        },
{
    reveal_strlit("Manifest validation error: ");
    match fault {
        ManifestFault::InvalidChunkSize(size) => {
            reveal_strlit("invalid fileChunkSizeBytes: got ");
            reveal_strlit("Manifest validation error: invalid fileChunkSizeBytes: got ");
            assert("Manifest validation error: "@ + "invalid fileChunkSizeBytes: got "@
                =~= "Manifest validation error: invalid fileChunkSizeBytes: got "@);
            assert(fault_text(fault) =~= "Manifest validation error: "@ + "invalid fileChunkSizeBytes: got "@
                + int_text(size) + ", must be -1 (WHOLE_FILE_CHUNK_SIZE) or a positive integer"@);
        },
        ManifestFault::DuplicatePath(path) => {
            reveal_strlit("duplicate path: ");
            reveal_strlit("Manifest validation error: duplicate path: ");
            assert("Manifest validation error: "@ + "duplicate path: "@
                =~= "Manifest validation error: duplicate path: "@);
            assert(fault_text(fault) =~= "Manifest validation error: "@ + "duplicate path: "@ + path);
        },
        ManifestFault::NotAbsolute(path) => {
            reveal_strlit("expected absolute path, got: ");
            reveal_strlit("Manifest validation error: expected absolute path, got: ");
            assert("Manifest validation error: "@ + "expected absolute path, got: "@
                =~= "Manifest validation error: expected absolute path, got: "@);
            assert(fault_text(fault) =~= "Manifest validation error: "@ + "expected absolute path, got: "@
                + path);
        },
        ManifestFault::NotRelative(path) => {
            reveal_strlit("expected relative path, got: ");
            reveal_strlit("Manifest validation error: expected relative path, got: ");
            assert("Manifest validation error: "@ + "expected relative path, got: "@
                =~= "Manifest validation error: expected relative path, got: "@);
            assert(fault_text(fault) =~= "Manifest validation error: "@ + "expected relative path, got: "@
                + path);
        },
    }
}

/// An error of a format string names what stands between its braces, or the
/// limit that it exceeds.
pub proof fn format_errors_name_their_fault(fault: FormatFault)
    ensures
        match fault {
            FormatFault::TooLong => fault_message(fault)
                == "format string exceeds the maximum length of 1048576 bytes"@,
            FormatFault::TooManySegments => fault_message(fault)
                == "format string has more than 1000 interpolation segments"@,
            FormatFault::Unclosed => fault_message(fault) == "format string has braces that are not closed"@,
            FormatFault::Unsupported(text) => fault_message(fault) == "unsupported expression: '"@ + text
                + "'"@,
        },
{
}

/// An error of chunks names the file and both its sizes.
pub proof fn chunk_errors_name_their_file(e: ChunkError)
    ensures
        match e {
            ChunkError::ZeroChunkSize => e.text() == "hash_file_chunked requires chunk_size > 0"@,
            ChunkError::SizeMismatch { path, expected, actual } => e.text() == "file size mismatch for "@
                + path@ + ": expected "@ + decimal(expected as nat) + ", found "@ + decimal(actual as nat),
        },
{
}

/// A value that is refused is described by the name of its type and its text in
/// parentheses.
pub proof fn refused_values_are_described(v: ValueView)
    ensures
        v matches ValueView::Int(i) ==> described(v) == "int"@ + "("@ + int_text(i) + ")"@,
        v matches ValueView::Text(text) ==> described(v) == "string"@ + "("@ + text + ")"@,
        v is Bool ==> described(v) == "bool"@ + "("@ + display_text(v) + ")"@,
        v is Null ==> described(v) == "nulltype"@ + "("@ + "null"@ + ")"@,
        v is Float ==> described(v) == "float"@ + "("@ + display_text(v) + ")"@,
        v is Path ==> described(v) == "path"@ + "("@ + display_text(v) + ")"@,
        v is Range ==> described(v) == "range_expr"@ + "("@ + display_text(v) + ")"@,
{
}

/// What does not resolve is named: the command, an argument, the timeout, the
/// period of a notification or the mode of canceling.
pub proof fn unresolved_settings_are_named(
    segments: Seq<SegmentView>,
    symbols: Seq<(Seq<char>, ValueView)>,
    default: Option<Duration>,
    mode: FormatString,
    period: Option<FormatString>,
)
    ensures
        resolved(segments, symbols) matches Err(e) ==> {
            &&& action_timeout(Some(segments), symbols, default) == Err::<Option<Duration>, SessionFault>(
                SessionFault::FormatString { context: "timeout"@, reason: error_text(e) },
            )
            &&& notify_period(Some(segments), symbols) == Err::<Option<i64>, SessionFault>(
                SessionFault::FormatString { context: "notifyPeriodInSeconds"@, reason: error_text(e) },
            )
        },
        resolved(segments, symbols) is Err ==> (resolved_text(segments, symbols) matches Err(e)
            ==> format_args(segments, symbols) == Err::<Seq<Seq<char>>, SessionFault>(
            SessionFault::FormatString { context: "argument"@, reason: error_text(e) },
        )),
        resolved(mode@, symbols) matches Err(e) ==> effective_cancelation(
            Some(CancelationMode::DeferredMode { mode, notify_period_in_seconds: period }),
            symbols,
        ) == Err::<EffectiveCancelation, SessionFault>(
            SessionFault::FormatString { context: "cancelation mode"@, reason: error_text(e) },
        ),
{
}

/// A command that does not resolve is named.
pub proof fn unresolved_commands_are_named(action: Action, symbols: Seq<(Seq<char>, ValueView)>)
    ensures
        resolved_text(action.command@, symbols) matches Err(e) ==> action_args(action, symbols) == Err::<
            Seq<Seq<char>>,
            SessionFault,
        >(SessionFault::FormatString { context: "command"@, reason: error_text(e) }),
{
}

/// A timeout, a period or a mode of the wrong value is refused with that value.
pub proof fn wrong_settings_are_described(v: ValueView, default: Option<Duration>, n: int, text: Seq<char>)
    ensures
        v is Bool || v is Float || v is Path || v is Range || v is List || (v matches ValueView::Int(i) && i
            <= 0) ==> timeout_of(v, default) == Err::<Option<Duration>, SessionFault>(
            SessionFault::FormatString {
                context: "timeout"@,
                reason: "timeout must be a positive integer, got "@ + described(v),
            },
        ),
        integer_value(text) is None ==> timeout_of(ValueView::Text(text), default) == Err::<
            Option<Duration>,
            SessionFault,
        >(
            SessionFault::FormatString {
                context: "timeout"@,
                reason: "timeout must be a positive integer, got "@ + "'"@ + text + "'"@,
            },
        ),
        v is Bool || v is Float || v is Path || v is Range || v is List ==> period_of(v) == Err::<
            Option<i64>,
            SessionFault,
        >(
            SessionFault::FormatString {
                context: "notifyPeriodInSeconds"@,
                reason: "notifyPeriodInSeconds must be a positive integer, got "@ + described(v),
            },
        ),
        integer_value(text) is None ==> period_of(ValueView::Text(text)) == Err::<Option<i64>, SessionFault>(
            SessionFault::FormatString {
                context: "notifyPeriodInSeconds"@,
                reason: "notifyPeriodInSeconds must be a positive integer, got "@ + "'"@ + text + "'"@,
            },
        ),
        n <= 0 ==> period_of(ValueView::Int(n)) == Err::<Option<i64>, SessionFault>(
            SessionFault::FormatString {
                context: "notifyPeriodInSeconds"@,
                reason: "notifyPeriodInSeconds must be positive, got '"@ + int_text(n) + "'"@,
            },
        ),
        n > 600 ==> period_of(ValueView::Int(n)) == Err::<Option<i64>, SessionFault>(
            SessionFault::FormatString {
                context: "notifyPeriodInSeconds"@,
                reason: "notifyPeriodInSeconds must not exceed 600, got '"@ + int_text(n) + "'"@,
            },
        ),
        i64::MIN <= n <= i64::MAX ==> (integer_value(text) == Some(n) ==> period_of(ValueView::Text(text))
            == period_of(ValueView::Int(n))),
        v is Bool || v is Float || v is Path || v is Range || v is List || v is Int ==> mode_cancelation(
            v,
            Ok(None),
        ) == Err::<EffectiveCancelation, SessionFault>(
            SessionFault::FormatString {
                context: "cancelation mode"@,
                reason: "must resolve to TERMINATE, NOTIFY_THEN_TERMINATE, or null; got "@ + described(v),
            },
        ),
{
}

/// The arguments of values follow one another: those of a list are its elements,
/// null has none, and any other value is one.
pub proof fn arguments_follow_their_values(values: Seq<ValueView>, next: ValueView)
    ensures
        all_value_args(Seq::<ValueView>::empty()) == Seq::<Seq<char>>::empty(),
        match next {
            ValueView::Null => all_value_args(values.push(next)) == all_value_args(values),
            ValueView::List { elements, elem_type: _ } => {
                let (before, after) = (all_value_args(values), all_value_args(values.push(next)));
                &&& after.len() == before.len() + elements.len()
                &&& after.take(before.len() as int) == before
                &&& forall|i: int|
                    0 <= i < elements.len() ==> after[before.len() + i] == display_text(#[trigger] elements[i])
            },
            _ => all_value_args(values.push(next)) == all_value_args(values).push(display_text(next)),
        },
{
    assert(values.push(next).drop_last() =~= values);
    assert(values.push(next).last() == next);
    let before = all_value_args(values);
    assert(before + Seq::<Seq<char>>::empty() =~= before);
    assert(before + seq![display_text(next)] =~= before.push(display_text(next)));
    if let ValueView::List { elements, elem_type: _ } = next {
        let after = all_value_args(values.push(next));
        assert(after.take(before.len() as int) =~= before);
    }
}

/// Extensions and kinds of templates are known by their names alone.
pub proof fn extensions_are_known_by_name(text: Seq<char>)
    ensures
        ModelExtension::named("EXPR"@) == Some(ModelExtension::Expr),
        ModelExtension::named("TASK_CHUNKING"@) == Some(ModelExtension::TaskChunking),
        ModelExtension::named("FEATURE_BUNDLE_1"@) == Some(ModelExtension::FeatureBundle1),
        ModelExtension::named("WRAP_ACTIONS"@) == Some(ModelExtension::WrapActions),
        ModelExtension::named(text) is Some ==> text == "EXPR"@ || text == "TASK_CHUNKING"@ || text
            == "FEATURE_BUNDLE_1"@ || text == "WRAP_ACTIONS"@,
        TemplateSpecificationVersion::named("jobtemplate-2023-09"@) == Some(
            TemplateSpecificationVersion::JobTemplate2023_09,
        ),
        TemplateSpecificationVersion::named("environment-2023-09"@) == Some(
            TemplateSpecificationVersion::Environment2023_09,
        ),
        TemplateSpecificationVersion::named(text) is Some ==> text == "jobtemplate-2023-09"@ || text
            == "environment-2023-09"@,
{
    reveal_strlit("EXPR");
    reveal_strlit("TASK_CHUNKING");
    reveal_strlit("FEATURE_BUNDLE_1");
    reveal_strlit("WRAP_ACTIONS");
    reveal_strlit("jobtemplate-2023-09");
    reveal_strlit("environment-2023-09");
    assert("EXPR"@[0] == 'E' && "TASK_CHUNKING"@[0] == 'T' && "FEATURE_BUNDLE_1"@[0] == 'F'
        && "WRAP_ACTIONS"@[0] == 'W');
    assert("jobtemplate-2023-09"@[0] == 'j' && "environment-2023-09"@[0] == 'e');
}

/// Without limits no text is too long and no list too large.
pub proof fn unlimited_templates_have_the_largest_limits(n: usize)
    ensures
        ({
            let limits = EffectiveLimits::none();
            &&& n <= limits.max_job_name_len
            &&& n <= limits.max_description_len
            &&& n <= limits.max_param_count
            &&& n <= limits.max_env_template_param_count
            &&& n <= limits.max_identifier_len
            &&& n <= limits.max_step_name_len
            &&& n <= limits.max_env_name_len
        }),
{
}

/// The states of a runner and the methods of canceling are written by name, the
/// grace period of a notified one in whole seconds.
pub proof fn states_are_written_by_name(state: ScriptRunnerState, method: CancelMethod)
    ensures
        state.text() == match state {
            ScriptRunnerState::Ready => "Ready"@,
            ScriptRunnerState::Running => "Running"@,
            ScriptRunnerState::Canceling => "Canceling"@,
            ScriptRunnerState::Canceled => "Canceled"@,
            ScriptRunnerState::Timeout => "Timeout"@,
            ScriptRunnerState::Failed => "Failed"@,
            ScriptRunnerState::Success => "Success"@,
        },
        match method {
            CancelMethod::Terminate => method.text() == "Terminate"@,
            CancelMethod::NotifyThenTerminate { terminate_delay } => method.text()
                == "NotifyThenTerminate("@ + decimal(terminate_delay.secs as nat) + "s)"@,
        },
{
}

/// A mismatch names both sides, this one first.
pub proof fn mismatches_name_both_sides(rust: Seq<char>, python: Seq<char>)
    ensures
        type_detail(rust, python) == "type: rust="@ + rust + " python="@ + python,
        value_detail(rust, python) == "value: rust="@ + rust + " python="@ + python,
{
}

/// A collision of names names both.
pub proof fn collisions_name_both_symbols(name: Seq<char>, existing: Seq<char>)
    ensures
        collision_text(name, existing) == "Cannot set '"@ + name + "': it conflicts with '"@ + existing
            + "'"@,
{
}

} // verus!
