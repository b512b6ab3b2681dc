//! What an evaluation is charged for.

use vstd::prelude::*;

use crate::error::{error_of, ErrorView, ExpressionError, ExpressionErrorKind};
use crate::types::PathFormat;

verus! {

/// The environment of an evaluation: it counts the work done and refuses what
/// exceeds its limits.
pub trait EvalContext: Sized {
    spec fn format(&self) -> PathFormat;

    /// The error with which `n` more operations are refused.
    spec fn ops_error(&self, n: nat) -> Option<ErrorView>;

    /// The context after `n` more operations were requested.
    spec fn after_ops(&self, n: nat) -> Self;

    /// The error with which work on a text of `len` bytes is refused.
    spec fn string_error(&self, len: nat) -> Option<ErrorView>;

    /// The context after work on a text of `len` bytes was requested.
    spec fn after_string(&self, len: nat) -> Self;

    /// The error with which a value of `bytes` bytes is refused.
    spec fn memory_error(&self, bytes: nat) -> Option<ErrorView>;

    /// The format of paths that do not state their own.
    fn path_format(&self) -> (r: PathFormat)
        ensures
            r == self.format(),
    ;

    fn count_op(&mut self) -> (r: Result<(), ExpressionError>)
        ensures
            *final(self) == old(self).after_ops(1),
            error_of(r) == old(self).ops_error(1),
    ;

    fn count_ops(&mut self, n: usize) -> (r: Result<(), ExpressionError>)
        ensures
            *final(self) == old(self).after_ops(n as nat),
            error_of(r) == old(self).ops_error(n as nat),
    ;

    fn count_string_ops(&mut self, len: usize) -> (r: Result<(), ExpressionError>)
        ensures
            *final(self) == old(self).after_string(len as nat),
            error_of(r) == old(self).string_error(len as nat),
    ;

    fn check_memory(&self, bytes: usize) -> (r: Result<(), ExpressionError>)
        ensures
            error_of(r) == self.memory_error(bytes as nat),
    ;
}

/// The context and the first error after `n` operations counted one by one.
pub open spec fn each_op<C: EvalContext>(ctx: C, n: nat) -> (C, Option<ErrorView>)
    decreases n,
{
    if n == 0 {
        (ctx, None)
    } else {
        let before = each_op(ctx, (n - 1) as nat);
        if before.1 is Some {
            before
        } else {
            (before.0.after_ops(1), before.0.ops_error(1))
        }
    }
}

/// Bytes of text that cost one operation.
pub const STRING_BYTES_PER_OPERATION: usize = 256;

/// A context with a limit on operations and on the size of a value.
#[derive(Clone, Copy, Debug, PartialEq, Eq, Structural)]
pub struct MeteredContext {
    pub path_format: PathFormat,
    pub operations: usize,
    pub operation_limit: usize,
    pub memory_limit: usize,
}

impl MeteredContext {
    pub fn new(path_format: PathFormat, operation_limit: usize, memory_limit: usize) -> (r: Self)
        ensures
            r == (MeteredContext { path_format, operations: 0, operation_limit, memory_limit }),
    {
        MeteredContext { path_format, operations: 0, operation_limit, memory_limit }
    }

    /// The operations counted after `n` more; the count stops at its largest
    /// value.
    pub open spec fn charged(self, n: nat) -> usize {
        if self.operations + n > usize::MAX {
            usize::MAX
        } else {
            (self.operations + n) as usize
        }
    }
}

/// The operations that work on a text of `len` bytes costs.
pub open spec fn string_cost(len: nat) -> nat {
    len / (STRING_BYTES_PER_OPERATION as nat) + 1
}

impl EvalContext for MeteredContext {
    open spec fn format(&self) -> PathFormat {
        self.path_format
    }

    open spec fn ops_error(&self, n: nat) -> Option<ErrorView> {
        if self.operations + n > self.operation_limit {
            Some(ErrorView::OperationLimitExceeded)
        } else {
            None
        }
    }

    open spec fn after_ops(&self, n: nat) -> Self {
        MeteredContext { operations: self.charged(n), ..*self }
    }

    open spec fn string_error(&self, len: nat) -> Option<ErrorView> {
        self.ops_error(string_cost(len))
    }

    open spec fn after_string(&self, len: nat) -> Self {
        self.after_ops(string_cost(len))
    }

    open spec fn memory_error(&self, bytes: nat) -> Option<ErrorView> {
        if bytes > self.memory_limit {
            Some(ErrorView::MemoryLimitExceeded)
        } else {
            None
        }
    }

    fn path_format(&self) -> (r: PathFormat) {
        self.path_format
    }

    fn count_op(&mut self) -> (r: Result<(), ExpressionError>) {
        self.count_ops(1)
    }

    fn count_ops(&mut self, n: usize) -> (r: Result<(), ExpressionError>) {
        let refused = n > self.operation_limit || self.operations > self.operation_limit - n;
        self.operations = self.operations.saturating_add(n);
        if refused {
            Err(ExpressionError { kind: ExpressionErrorKind::OperationLimitExceeded })
        } else {
            Ok(())
        }
    }

    fn count_string_ops(&mut self, len: usize) -> (r: Result<(), ExpressionError>) {
        self.count_ops(len / STRING_BYTES_PER_OPERATION + 1)
    }

    fn check_memory(&self, bytes: usize) -> (r: Result<(), ExpressionError>) {
        if bytes > self.memory_limit {
            Err(ExpressionError { kind: ExpressionErrorKind::MemoryLimitExceeded })
        } else {
            Ok(())
        }
    }
}

} // verus!
