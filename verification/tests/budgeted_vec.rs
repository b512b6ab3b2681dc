//! Lists within a memory budget.

use openjd::budgeted_vec::{project_bytes, BudgetedVec};
use openjd::context::MeteredContext;
use openjd::error::ExpressionErrorKind;
use openjd::types::PathFormat;
use openjd::value::ExprValue;
use std::mem::size_of;

fn limited(bytes: usize) -> MeteredContext {
    MeteredContext::new(PathFormat::Posix, 1000, bytes)
}

/// The number of bytes that a push checks: the least limit that admits it.
fn checked_by_push(pushed: i64, value: &ExprValue, candidates: &[usize]) -> Vec<usize> {
    let mut exact = Vec::new();
    for &bytes in candidates {
        let admitted = |limit: usize| {
            let mut values = BudgetedVec::new();
            for i in 0..pushed {
                values.push(&mut limited(usize::MAX), ExprValue::Int(i)).unwrap();
            }
            values.push(&mut limited(limit), value.clone()).is_ok()
        };
        if admitted(bytes) && !admitted(bytes - 1) {
            exact.push(bytes);
        }
    }
    exact
}

#[test]
fn checks_exact_capacity_before_allocation() {
    let bytes = 3 * size_of::<ExprValue>();
    let values = BudgetedVec::with_capacity(&mut limited(bytes), 3).unwrap();

    assert_eq!(values.into_vec().capacity(), 3);
    assert!(BudgetedVec::with_capacity(&mut limited(bytes - 1), 3).is_err());
}

#[test]
fn push_checks_projected_doubling_and_value_heap() {
    let bytes = 4 * size_of::<ExprValue>() + 3;
    let value = ExprValue::String("abc".to_owned());

    assert_eq!(checked_by_push(0, &value, &[bytes]), vec![bytes]);
}

#[test]
fn push_checks_doubled_capacity_before_fifth_value() {
    let slot = size_of::<ExprValue>();
    let checks: Vec<usize> = (0..5)
        .flat_map(|pushed| checked_by_push(pushed, &ExprValue::Int(pushed), &[4 * slot, 8 * slot]))
        .collect();

    assert_eq!(
        checks,
        vec![
            4 * size_of::<ExprValue>(),
            4 * size_of::<ExprValue>(),
            4 * size_of::<ExprValue>(),
            4 * size_of::<ExprValue>(),
            8 * size_of::<ExprValue>(),
        ]
    );
}

#[test]
fn a_refused_value_is_not_added() {
    let slot = size_of::<ExprValue>();
    let mut ctx = MeteredContext::new(PathFormat::Posix, 1000, 4 * slot);
    let mut values = BudgetedVec::new();
    for value in 0..4 {
        values.push(&mut ctx, ExprValue::Int(value)).unwrap();
    }
    let err = values.push(&mut ctx, ExprValue::Int(4)).unwrap_err();
    assert!(matches!(err.kind(), ExpressionErrorKind::MemoryLimitExceeded));
    // A refusal leaves no trace: the next push is checked for the same bytes.
    let mut exact = limited(8 * slot);
    let mut again = BudgetedVec::new();
    for value in 0..4 {
        again.push(&mut exact, ExprValue::Int(value)).unwrap();
    }
    assert!(again.push(&mut limited(8 * slot - 1), ExprValue::String("abc".into())).is_err());
    again.push(&mut exact, ExprValue::Int(4)).unwrap();
    assert_eq!(again.into_vec().len(), 5);
    assert_eq!(values.into_vec().len(), 4);
    assert!(BudgetedVec::with_capacity(&mut ctx, 5).is_err());
}

#[test]
fn projections_saturate() {
    let slot = size_of::<ExprValue>();
    assert_eq!(project_bytes(slot, 0, 0), 4 * slot);
    assert_eq!(project_bytes(5 * slot, 4, 4), 8 * slot);
    assert_eq!(project_bytes(3 * slot, 2, 7), 7 * slot);
    assert_eq!(project_bytes(usize::MAX - 1, 3, 100), usize::MAX);
}
