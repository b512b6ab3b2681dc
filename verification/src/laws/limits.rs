//! What evaluation may cost.

use vstd::prelude::*;

use crate::context::{each_op, EvalContext, MeteredContext};
use crate::error::ErrorView;
use crate::value::{heap_bytes, list_bytes, slot_bytes, ValueView};

verus! {

/// Operations are refused exactly if they would bring the count above the
/// limit, and are counted either way, up to the largest count. Nothing else of
/// the context changes.
pub proof fn operations_are_limited(ctx: MeteredContext, n: nat)
    ensures
        ctx.ops_error(n) == Some(ErrorView::OperationLimitExceeded) <==> ctx.operations + n
            > ctx.operation_limit,
        ctx.ops_error(n) is None <==> ctx.operations + n <= ctx.operation_limit,
        ctx.operations + n <= usize::MAX ==> ctx.after_ops(n).operations == ctx.operations + n,
        ctx.operations + n > usize::MAX ==> ctx.after_ops(n).operations == usize::MAX,
        ctx.after_ops(n).operation_limit == ctx.operation_limit,
        ctx.after_ops(n).memory_limit == ctx.memory_limit,
        ctx.after_ops(n).path_format == ctx.path_format,
{
}

/// Work on a text costs one operation and one more for every 256 whole bytes.
pub proof fn texts_cost_by_their_bytes(ctx: MeteredContext, len: nat, cost: nat)
    requires
        256 * (cost - 1) <= len < 256 * cost,
    ensures
        ctx.string_error(len) == ctx.ops_error(cost),
        ctx.after_string(len) == ctx.after_ops(cost),
{
    assert(len / 256 == cost - 1) by {
        vstd::arithmetic::div_mod::lemma_fundamental_div_mod_converse(
            len as int,
            256,
            cost - 1,
            len - 256 * (cost - 1),
        );
    }
}

/// A value is refused exactly if it takes more bytes than the limit.
pub proof fn memory_is_limited(ctx: MeteredContext, bytes: nat)
    ensures
        ctx.memory_error(bytes) == Some(ErrorView::MemoryLimitExceeded) <==> bytes > ctx.memory_limit,
        ctx.memory_error(bytes) is None <==> bytes <= ctx.memory_limit,
{
}

/// Operations counted one by one are refused exactly if they would be refused
/// at once.
pub proof fn operations_add_up(ctx: MeteredContext, n: nat)
    requires
        ctx.operations + n <= usize::MAX,
        ctx.operations <= ctx.operation_limit,
    ensures
        each_op(ctx, n).1 is None <==> ctx.operations + n <= ctx.operation_limit,
        each_op(ctx, n).1 is None ==> each_op(ctx, n).0 == ctx.after_ops(n),
    decreases n,
{
    if n > 0 {
        operations_add_up(ctx, (n - 1) as nat);
    }
}

/// A list takes the bytes of its slots and what each element points to: a text
/// its bytes in UTF-8, an integer nothing more.
pub proof fn lists_take_the_bytes_of_their_elements(elements: Seq<ValueView>, v: ValueView)
    ensures
        list_bytes(Seq::<ValueView>::empty()) == 0,
        match v {
            ValueView::Text(text) => list_bytes(elements.push(v)) == list_bytes(elements) + slot_bytes()
                + vstd::utf8::encode_utf8(text).len(),
            ValueView::Path { value, format: _ } => list_bytes(elements.push(v)) == list_bytes(elements)
                + slot_bytes() + vstd::utf8::encode_utf8(value).len(),
            ValueView::List { elements: inner, elem_type: _ } => list_bytes(elements.push(v))
                == list_bytes(elements) + slot_bytes() + list_bytes(inner),
            ValueView::Float { number: _, text: Some(text) } => list_bytes(elements.push(v))
                == list_bytes(elements) + slot_bytes() + vstd::utf8::encode_utf8(text).len(),
            ValueView::Range(_) => true,
            _ => list_bytes(elements.push(v)) == list_bytes(elements) + slot_bytes(),
        },
{
    assert(elements.push(v).drop_last() =~= elements);
    assert(elements.push(v).last() == v);
    reveal_with_fuel(list_bytes, 2);
    reveal_with_fuel(heap_bytes, 2);
    assert(list_bytes(elements.push(v)) == list_bytes(elements) + slot_bytes() + heap_bytes(v));
}

} // verus!
