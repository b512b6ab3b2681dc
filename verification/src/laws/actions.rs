//! What the fields of an action come to.

use vstd::prelude::*;

use crate::display::display_text;
use crate::error::ErrorView;
use crate::format_string::{resolved, resolved_text, FormatString, SegmentView};
use crate::sessions::duration::Duration;
use crate::sessions::error::SessionFault;
use crate::sessions::runner::{
    action_args, action_timeout, all_args, cancel_method, effective_cancelation, format_args, notify_period,
    optional_view, period_of, timeout_of, value_args, Action, CancelMethod, CancelationMode,
    EffectiveCancelation, Symbols,
};
use crate::text::{decimal, integer_value};
use crate::value::ValueView;

verus! {

/// A timeout that resolves to a positive integer, or to a text that spells it,
/// is exactly so many seconds, and no other integer or text is a timeout. One
/// that is omitted or null is the default.
pub proof fn timeouts_are_exact(
    timeout: Seq<SegmentView>,
    symbols: Symbols,
    default: Option<Duration>,
)
    ensures
        action_timeout(None, symbols, default) == Ok::<Option<Duration>, SessionFault>(default),
        match resolved(timeout, symbols) {
            Ok(ValueView::Int(n)) => {
                &&& 0 < n <= u64::MAX ==> (action_timeout(Some(timeout), symbols, default) matches Ok(
                    Some(d),
                ) && d.secs == n && d.nanos == 0)
                &&& n <= 0 ==> action_timeout(Some(timeout), symbols, default) is Err
            },
            Ok(ValueView::Text(text)) => match action_timeout(Some(timeout), symbols, default) {
                Ok(Some(d)) => integer_value(text) == Some(d.secs as int) && d.secs > 0 && d.nanos == 0,
                Ok(None) => false,
                Err(fault) => {
                    &&& fault matches SessionFault::FormatString { context, reason } && context
                        == "timeout"@
                    &&& integer_value(text) matches Some(n) ==> n <= 0 || n > u64::MAX || text[0] == '-'
                },
            },
            Ok(ValueView::Null) => action_timeout(Some(timeout), symbols, default) == Ok::<
                Option<Duration>,
                SessionFault,
            >(default),
            _ => action_timeout(Some(timeout), symbols, default) is Err,
        },
{
}

/// A text of decimal digits is a timeout of so many seconds.
pub proof fn spelled_timeouts_are_exact(n: nat, default: Option<Duration>)
    requires
        0 < n <= u64::MAX,
    ensures
        timeout_of(ValueView::Text(decimal(n)), default) matches Ok(Some(d)) && d.secs == n && d.nanos
            == 0,
{
    crate::text::lemma_decimal_reads_back(n);
    crate::text::integers_read_back(n as int);
}

/// A notify period that resolves to an integer from 1 to 600, or to a text that
/// spells it, is exactly so many seconds, and no other integer or text is a
/// period. One that is omitted or null is none.
pub proof fn periods_are_exact(period: Seq<SegmentView>, symbols: Symbols)
    ensures
        notify_period(None, symbols) == Ok::<Option<i64>, SessionFault>(None),
        match resolved(period, symbols) {
            Ok(ValueView::Int(n)) => {
                &&& 1 <= n <= 600 ==> (notify_period(Some(period), symbols) matches Ok(Some(s)) && s == n)
                &&& n < 1 || n > 600 ==> notify_period(Some(period), symbols) is Err
            },
            Ok(ValueView::Text(text)) => match integer_value(text) {
                Some(n) => if 1 <= n <= 600 {
                    notify_period(Some(period), symbols) matches Ok(Some(s)) && s == n
                } else {
                    notify_period(Some(period), symbols) is Err
                },
                None => notify_period(Some(period), symbols) is Err,
            },
            Ok(ValueView::Null) => notify_period(Some(period), symbols) == Ok::<
                Option<i64>,
                SessionFault,
            >(None),
            _ => notify_period(Some(period), symbols) is Err,
        },
{
}

/// A text of decimal digits is a period of so many seconds.
pub proof fn spelled_periods_are_exact(n: nat)
    requires
        1 <= n <= 600,
    ensures
        period_of(ValueView::Text(decimal(n))) matches Ok(Some(s)) && s == n,
{
    crate::text::integers_read_back(n as int);
}

/// An action whose declared period resolves to `n` is notified, and killed `n`
/// seconds later; without a period the default applies. An action without a
/// declaration, or with one to terminate, is killed at once.
pub proof fn cancel_methods_follow_their_declaration(
    period: Option<FormatString>,
    symbols: Symbols,
    default: Duration,
    n: int,
)
    requires
        period matches Some(f) ==> resolved(f@, symbols) == Ok::<ValueView, ErrorView>(ValueView::Int(n))
            && 1 <= n <= 600,
    ensures
        effective_cancelation(
            Some(CancelationMode::NotifyThenTerminate { notify_period_in_seconds: period }),
            symbols,
        ) matches Ok(effective) && (cancel_method(effective, default)
            matches CancelMethod::NotifyThenTerminate { terminate_delay } && if period is Some {
            terminate_delay.secs == n && terminate_delay.nanos == 0
        } else {
            terminate_delay == default
        }),
        effective_cancelation(None, symbols) matches Ok(effective) && cancel_method(effective, default)
            == CancelMethod::Terminate,
        effective_cancelation(Some(CancelationMode::Terminate), symbols) matches Ok(effective)
            && cancel_method(effective, default) == CancelMethod::Terminate,
{
}

/// A mode that resolves to the name of a mode acts as that mode: one to
/// terminate admits no period, and any other value is an error.
pub proof fn deferred_modes_are_decided_by_their_value(
    mode: FormatString,
    period: Option<FormatString>,
    symbols: Symbols,
)
    ensures
        ({
            let decided = effective_cancelation(
                Some(CancelationMode::DeferredMode { mode, notify_period_in_seconds: period }),
                symbols,
            );
            let seconds = notify_period(optional_view(period), symbols);
            match resolved(mode@, symbols) {
                Ok(ValueView::Null) => decided == Ok::<EffectiveCancelation, SessionFault>(
                    EffectiveCancelation::Undeclared,
                ),
                Ok(ValueView::Text(text)) => {
                    &&& text == "TERMINATE"@ ==> (decided == Ok::<EffectiveCancelation, SessionFault>(
                        EffectiveCancelation::Terminate,
                    ) <==> seconds == Ok::<Option<i64>, SessionFault>(None)) && (decided is Ok
                        <==> seconds == Ok::<Option<i64>, SessionFault>(None))
                    &&& text == "NOTIFY_THEN_TERMINATE"@ ==> match seconds {
                        Ok(s) => decided matches Ok(EffectiveCancelation::NotifyThenTerminate {
                            notify_period_seconds,
                        }) && notify_period_seconds == s,
                        Err(fault) => decided == Err::<EffectiveCancelation, SessionFault>(fault),
                    }
                    &&& text != "TERMINATE"@ && text != "NOTIFY_THEN_TERMINATE"@ ==> decided is Err
                },
                _ => decided is Err,
            }
        }),
{
    reveal_strlit("TERMINATE");
    reveal_strlit("NOTIFY_THEN_TERMINATE");
    assert("TERMINATE"@.len() != "NOTIFY_THEN_TERMINATE"@.len());
}

/// The arguments of an action start with its command. A value that is null adds
/// none, a list adds the text of each element in order, and any other value
/// adds its text.
pub proof fn arguments_are_texts_of_values(v: ValueView)
    ensures
        v is Null ==> value_args(v).len() == 0,
        v matches ValueView::List { elements, elem_type: _ } ==> value_args(v).len() == elements.len()
            && forall|i: int|
            0 <= i < elements.len() ==> #[trigger] value_args(v)[i] == display_text(elements[i]),
        !(v is Null) && !(v is List) ==> value_args(v).len() == 1 && value_args(v)[0] == display_text(v),
{
}

/// The command of an action is its first argument, and the arguments of each
/// format string follow in order.
pub proof fn commands_come_first(action: Action, symbols: Symbols)
    ensures
        action_args(action, symbols) matches Ok(args) ==> args.len() > 0 && resolved_text(
            action.command@,
            symbols,
        ) == Ok::<Seq<char>, ErrorView>(args[0]),
        resolved_text(action.command@, symbols) is Err ==> action_args(action, symbols) is Err,
        action.args matches Some(formats) ==> formats@.len() == 1 ==> (format_args(
            formats@[0]@,
            symbols,
        ) matches Ok(more) ==> action_args(action, symbols) matches Ok(args) ==> args.skip(1) == more),
{
    if let Some(formats) = action.args {
        if formats@.len() == 1 {
            reveal_with_fuel(all_args, 2);
            assert(formats@.drop_last() =~= seq![]);
            assert(formats@.last() == formats@[0]);
            if let Ok(more) = format_args(formats@[0]@, symbols) {
                assert(Seq::<Seq<char>>::empty() + more =~= more);
                if let Ok(args) = action_args(action, symbols) {
                    assert(args.skip(1) =~= more);
                }
            }
        }
    }
}

} // verus!
