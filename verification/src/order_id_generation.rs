//! Order ids from a counter, with the counter's bits reversed so that
//! consecutive ids spread over the id space.
use vstd::prelude::*;
use crate::order_book_types::{new_order_id_type, OrderId};

verus! {

/// The bits of `v` in reverse order, by swapping ever larger blocks.
pub open spec fn reverse_bits_spec(v0: u128) -> u128 {
    let v1 = ((v0 & 0x55555555555555555555555555555555) << 1u128) | ((v0 >> 1u128)
        & 0x55555555555555555555555555555555);
    let v2 = ((v1 & 0x33333333333333333333333333333333) << 2u128) | ((v1 >> 2u128)
        & 0x33333333333333333333333333333333);
    let v3 = ((v2 & 0x0f0f0f0f0f0f0f0f0f0f0f0f0f0f0f0f) << 4u128) | ((v2 >> 4u128)
        & 0x0f0f0f0f0f0f0f0f0f0f0f0f0f0f0f0f);
    let v4 = ((v3 & 0x00ff00ff00ff00ff00ff00ff00ff00ff) << 8u128) | ((v3 >> 8u128)
        & 0x00ff00ff00ff00ff00ff00ff00ff00ff);
    let v5 = ((v4 & 0x0000ffff0000ffff0000ffff0000ffff) << 16u128) | ((v4 >> 16u128)
        & 0x0000ffff0000ffff0000ffff0000ffff);
    let v6 = ((v5 & 0x00000000ffffffff00000000ffffffff) << 32u128) | ((v5 >> 32u128)
        & 0x00000000ffffffff00000000ffffffff);
    (v6 << 64u128) | (v6 >> 64u128)
}

/// The id of the order numbered `counter`.
pub fn next_order_id(counter: u128) -> (r: OrderId)
    ensures
        r.order_id == reverse_bits_spec(counter),
{
    new_order_id_type(reverse_bits(counter))
}

pub fn reverse_bits(value: u128) -> (r: u128)
    ensures
        r == reverse_bits_spec(value),
{
    let mut v = value;
    v = ((v & 0x55555555555555555555555555555555) << 1) | ((v >> 1)
        & 0x55555555555555555555555555555555);
    v = ((v & 0x33333333333333333333333333333333) << 2) | ((v >> 2)
        & 0x33333333333333333333333333333333);
    v = ((v & 0x0f0f0f0f0f0f0f0f0f0f0f0f0f0f0f0f) << 4) | ((v >> 4)
        & 0x0f0f0f0f0f0f0f0f0f0f0f0f0f0f0f0f);
    v = ((v & 0x00ff00ff00ff00ff00ff00ff00ff00ff) << 8) | ((v >> 8)
        & 0x00ff00ff00ff00ff00ff00ff00ff00ff);
    v = ((v & 0x0000ffff0000ffff0000ffff0000ffff) << 16) | ((v >> 16)
        & 0x0000ffff0000ffff0000ffff0000ffff);
    v = ((v & 0x00000000ffffffff00000000ffffffff) << 32) | ((v >> 32)
        & 0x00000000ffffffff00000000ffffffff);
    v = (v << 64) | (v >> 64);
    v
}

/// Reversing the bits twice gives the value back, so distinct counters give
/// distinct order ids.
pub proof fn lemma_reverse_bits_involution(x: u128)
    ensures
        reverse_bits_spec(reverse_bits_spec(x)) == x,
{
    assert(reverse_bits_spec(reverse_bits_spec(x)) == x) by (bit_vector);
}

/// Distinct counters give distinct order ids.
pub proof fn lemma_next_order_id_injective(a: u128, b: u128)
    requires
        a != b,
    ensures
        reverse_bits_spec(a) != reverse_bits_spec(b),
{
    lemma_reverse_bits_involution(a);
    lemma_reverse_bits_involution(b);
}

} // verus!
