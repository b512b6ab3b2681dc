//! Lists that grow within a memory budget.

use vstd::prelude::*;

use crate::context::{EvalContext, MeteredContext};
use crate::error::{error_of, ExpressionError};
use crate::range_expr::saturated;
use crate::value::{
    heap_bytes, lemma_models_push, list_bytes, models, slot_bytes, ExprValue, ValueView,
};

verus! {

/// `Vec::capacity` of the standard library: the number of elements that fit
/// before the vector allocates again, those in it among them. How many more the
/// allocator decides.
#[verifier::external_body]
fn vec_capacity(values: &Vec<ExprValue>) -> (r: usize)
    ensures
        r >= values@.len(),
{
    values.capacity()
}

/// The capacity after one more element: a full vector doubles, to four at
/// least.
pub open spec fn projected_capacity(len: nat, capacity: nat) -> nat {
    if len != capacity {
        capacity
    } else if 2 * capacity < 4 {
        4
    } else {
        saturated(2 * capacity)
    }
}

/// The memory that a vector of `len` elements and `capacity` will take with
/// one more element, where all the elements then take `value_bytes`: those
/// bytes, and the slots that stay free.
pub open spec fn projected_bytes(value_bytes: nat, len: nat, capacity: nat) -> nat {
    let after = projected_capacity(len, capacity);
    let slack = if after > len + 1 {
        (after - (len + 1)) as nat
    } else {
        0
    };
    saturated(value_bytes + saturated(slack * slot_bytes()))
}

/// Computes the memory of a vector with one more element.
pub fn project_bytes(value_bytes: usize, len: usize, capacity: usize) -> (r: usize)
    ensures
        r == projected_bytes(value_bytes as nat, len as nat, capacity as nat),
{
    let after: usize = if len != capacity {
        capacity
    } else if capacity < 2 {
        4
    } else {
        capacity.saturating_add(capacity)
    };
    let slack: usize = if after > len {
        after - len - 1
    } else {
        0
    };
    let free: usize = match slack.checked_mul(core::mem::size_of::<ExprValue>()) {
        Some(bytes) => bytes,
        None => usize::MAX,
    };
    value_bytes.saturating_add(free)
}

/// A vector of values that checks the memory it will take before it grows.
#[derive(Debug)]
pub struct BudgetedVec {
    values: Vec<ExprValue>,
    value_bytes: usize,
}

impl View for BudgetedVec {
    type V = Seq<ValueView>;

    closed spec fn view(&self) -> Seq<ValueView> {
        models(self.values@)
    }
}

/// The bytes of a list with one more element.
proof fn lemma_list_bytes_push(elements: Seq<ValueView>, element: ValueView)
    ensures
        list_bytes(elements.push(element)) == list_bytes(elements) + slot_bytes() + heap_bytes(element),
{
    assert(elements.push(element).drop_last() =~= elements);
}

impl BudgetedVec {
    #[verifier::type_invariant]
    spec fn counted(self) -> bool {
        self.value_bytes == saturated(list_bytes(models(self.values@)))
    }

    /// An empty vector that grows as needed.
    pub fn new() -> (r: BudgetedVec)
        ensures
            r@ == Seq::<ValueView>::empty(),
    {
        proof {
            assert(models(Seq::<ExprValue>::empty()) =~= seq![]);
        }
        BudgetedVec { values: Vec::new(), value_bytes: 0 }
    }

    /// An empty vector with room for `capacity` values, after a check of the
    /// memory that they take.
    pub fn with_capacity<C: EvalContext>(ctx: &mut C, capacity: usize) -> (r: Result<
        BudgetedVec,
        ExpressionError,
    >)
        ensures
            *final(ctx) == *old(ctx),
            error_of(r) == old(ctx).memory_error(saturated(capacity as nat * slot_bytes())),
            r matches Ok(v) ==> v@ == Seq::<ValueView>::empty(),
    {
        let bytes: usize = match capacity.checked_mul(core::mem::size_of::<ExprValue>()) {
            Some(bytes) => bytes,
            None => usize::MAX,
        };
        match ctx.check_memory(bytes) {
            Ok(()) => {},
            Err(e) => return Err(e),
        }
        proof {
            assert(models(Seq::<ExprValue>::empty()) =~= seq![]);
        }
        Ok(BudgetedVec { values: Vec::with_capacity(capacity), value_bytes: 0 })
    }

    /// Appends a value after a check of the memory that the vector will take.
    /// The vector is left as it was where the check fails.
    pub fn push<C: EvalContext>(&mut self, ctx: &mut C, value: ExprValue) -> (r: Result<
        (),
        ExpressionError,
    >)
        ensures
            *final(ctx) == *old(ctx),
            exists|capacity: usize|
                capacity >= old(self)@.len() && error_of(r) == old(ctx).memory_error(
                    #[trigger] projected_bytes(
                        saturated(list_bytes(old(self)@.push(value@))),
                        old(self)@.len(),
                        capacity as nat,
                    ),
                ),
            final(self)@ == (if r is Ok {
                old(self)@.push(value@)
            } else {
                old(self)@
            }),
            r is Err ==> *final(self) == *old(self),
    {
        proof {
            use_type_invariant(&*self);
            lemma_list_bytes_push(self@, value@);
            lemma_models_push(self.values@, value);
        }
        let value_bytes: usize = self.value_bytes.saturating_add(value.memory_size());
        let capacity: usize = vec_capacity(&self.values);
        let projected: usize = project_bytes(value_bytes, self.values.len(), capacity);
        assert(projected == projected_bytes(
            saturated(list_bytes(old(self)@.push(value@))),
            old(self)@.len(),
            capacity as nat,
        ));
        match ctx.check_memory(projected) {
            Ok(()) => {},
            Err(e) => return Err(e),
        }
        let mut taken = BudgetedVec::new();
        std::mem::swap(&mut taken, self);
        let mut values = taken.values;
        values.push(value);
        *self = BudgetedVec { values, value_bytes };
        Ok(())
    }

    /// The collected values.
    pub fn into_vec(self) -> (r: Vec<ExprValue>)
        ensures
            models(r@) == self@,
    {
        self.values
    }
}

/// A vector that a metered context let grow takes no more memory than the
/// context allows, with the slots that stay free or without.
pub proof fn admitted_vectors_fit_the_budget(
    ctx: MeteredContext,
    elements: Seq<ValueView>,
    len: nat,
    capacity: nat,
)
    requires
        ctx.memory_error(projected_bytes(saturated(list_bytes(elements)), len, capacity)) is None,
    ensures
        projected_bytes(saturated(list_bytes(elements)), len, capacity) <= ctx.memory_limit,
        saturated(list_bytes(elements)) <= ctx.memory_limit,
{
}

} // verus!
