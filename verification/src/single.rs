//! Single-precision numbers by their bits: how they compare.

use vstd::prelude::*;

verus! {

/// The bits of 0.0.
pub const ZERO: u32 = 0;

/// The bits of 1.0.
pub const ONE: u32 = 0x3F80_0000;

/// The bits of the negative infinity.
pub const NEG_INFINITY: u32 = 0xFF80_0000;

/// The bit of the sign.
pub const SIGN: u32 = 0x8000_0000;

/// The bits of the positive infinity: what is larger and positive is not a
/// number.
pub const INFINITY: u32 = 0x7F80_0000;

/// The bits without the sign.
pub open spec fn magnitude(b: u32) -> int {
    if b < SIGN {
        b as int
    } else {
        b - SIGN
    }
}

/// Whether bits are not those of a number.
pub open spec fn is_nan(b: u32) -> bool {
    magnitude(b) > INFINITY
}

/// The place of a number among all numbers. Both zeros have the same place.
pub open spec fn place(b: u32) -> int {
    if b < SIGN {
        magnitude(b)
    } else {
        -magnitude(b)
    }
}

/// Whether `a < b` as numbers. This does not hold of what is not a number.
pub open spec fn less(a: u32, b: u32) -> bool {
    !is_nan(a) && !is_nan(b) && place(a) < place(b)
}

/// Whether `a <= b` as numbers. This does not hold of what is not a number.
pub open spec fn at_most(a: u32, b: u32) -> bool {
    !is_nan(a) && !is_nan(b) && place(a) <= place(b)
}

/// The place of bits in the total order of all bits: -0.0 stands before 0.0, and
/// what is not a number stands at the ends.
pub open spec fn total_place(b: u32) -> int {
    if b < SIGN {
        b as int
    } else {
        -magnitude(b) - 1
    }
}

fn signed_place(b: u32) -> (p: i64)
    ensures
        p == place(b),
{
    if b < SIGN {
        b as i64
    } else {
        -((b - SIGN) as i64)
    }
}

/// The bits without the sign.
pub fn magnitude_of(b: u32) -> (m: u32)
    ensures
        m == magnitude(b),
{
    if b < SIGN {
        b
    } else {
        b - SIGN
    }
}

/// Whether bits are not those of a number.
pub fn not_a_number(b: u32) -> (r: bool)
    ensures
        r == is_nan(b),
{
    if b < SIGN {
        b > INFINITY
    } else {
        b - SIGN > INFINITY
    }
}

/// Whether `a < b` as numbers.
pub fn is_less(a: u32, b: u32) -> (r: bool)
    ensures
        r == less(a, b),
{
    !not_a_number(a) && !not_a_number(b) && signed_place(a) < signed_place(b)
}

/// Whether `a <= b` as numbers.
pub fn is_at_most(a: u32, b: u32) -> (r: bool)
    ensures
        r == at_most(a, b),
{
    !not_a_number(a) && !not_a_number(b) && signed_place(a) <= signed_place(b)
}

/// The place of bits in the total order.
pub fn total_rank(b: u32) -> (p: i64)
    ensures
        p == total_place(b),
{
    if b < SIGN {
        b as i64
    } else {
        -((b - SIGN) as i64) - 1
    }
}

/// In the total order no two bit patterns share a place.
pub proof fn law_total_order_tells_bits_apart(a: u32, b: u32)
    ensures
        total_place(a) == total_place(b) <==> a == b,
{
}

/// Numbers that compare are in the total order, too.
pub proof fn law_total_order_extends_less(a: u32, b: u32)
    ensures
        less(a, b) ==> total_place(a) < total_place(b),
{
}

/// Numbers are ordered as their bits are, where they have no sign, and the other way round
/// where they have one; those with a sign are the smaller ones, and both zeros are equal.
/// What is not a number is in no order.
pub proof fn law_bits_order_numbers(a: u32, b: u32)
    requires
        a <= 0x7F80_0000,
        b <= 0x7F80_0000,
    ensures
        less(a, b) <==> a < b,
        less((a + 0x8000_0000) as u32, (b + 0x8000_0000) as u32) <==> b < a,
        less((a + 0x8000_0000) as u32, b) <==> a != 0 || b != 0,
        !less(a, (b + 0x8000_0000) as u32),
        at_most(a, b) <==> !less(b, a),
        at_most((a + 0x8000_0000) as u32, b),
        magnitude(a) == magnitude((a + 0x8000_0000) as u32),
        !is_nan(a) && !is_nan((a + 0x8000_0000) as u32),
{
}

/// What is not a number is neither smaller nor larger than anything.
pub proof fn law_no_number_is_in_no_order(a: u32, b: u32)
    requires
        0x7F80_0000 < a < 0x8000_0000 || 0xFF80_0000 < a,
    ensures
        is_nan(a),
        !less(a, b) && !less(b, a),
        !at_most(a, b) && !at_most(b, a),
{
}

} // verus!
