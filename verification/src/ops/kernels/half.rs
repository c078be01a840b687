//! Half-precision numbers on devices that do not have them.

use vstd::prelude::*;

use crate::calc::{computes, make, math, Calc, Math, TWO};
use crate::single::ONE;

verus! {

/// The bits of 1024.0.
pub const MANTISSAS: u32 = 0x4480_0000;

/// The bits of 15.0, the bias of the exponent.
pub const BIAS: u32 = 0x4170_0000;

/// The bits of -14.0, the exponent of numbers below the normal ones.
pub const LEAST_EXPONENT: u32 = 0xC160_0000;

/// The number that half-precision bits stand for, from their sign, exponent and
/// mantissa. Infinities and what is not a number are not told apart from other numbers.
pub open spec fn half_number(m: Math, h: u16) -> u32 {
    let sign = h as int / 32768;
    let exponent = h as int / 1024 % 32;
    let mantissa = h as int % 1024;
    let factor = m(Calc::Sub(ONE, m(Calc::Mul(TWO, m(Calc::OfCount(sign as usize))))));
    let fraction = m(Calc::Div(m(Calc::OfCount(mantissa as usize)), MANTISSAS));
    if exponent == 0 {
        m(Calc::Mul(m(Calc::Mul(factor, fraction)), m(Calc::Pow(TWO, LEAST_EXPONENT))))
    } else {
        m(
            Calc::Mul(
                m(Calc::Mul(factor, m(Calc::Add(ONE, fraction)))),
                m(Calc::Pow(TWO, m(Calc::Sub(m(Calc::OfCount(exponent as usize)), BIAS)))),
            ),
        )
    }
}

/// The number that two bytes stand for as a half-precision number, the low byte first.
pub fn f16_to_f32<F: Fn(Calc) -> u32>(lo: u8, hi: u8, calc: &F) -> (r: u32)
    requires
        computes(*calc),
    ensures
        r == half_number(math(*calc), (lo + 256 * hi) as u16),
{
    let bits: u16 = lo as u16 + 256 * hi as u16;
    let sign: u32 = make(calc, Calc::OfCount((bits / 32768) as usize));
    let doubled: u32 = make(calc, Calc::Mul(TWO, sign));
    let factor: u32 = make(calc, Calc::Sub(ONE, doubled));
    let mantissa: u32 = make(calc, Calc::OfCount((bits % 1024) as usize));
    let fraction: u32 = make(calc, Calc::Div(mantissa, MANTISSAS));
    let exponent: u16 = bits / 1024 % 32;
    if exponent == 0 {
        let small: u32 = make(calc, Calc::Mul(factor, fraction));
        let power: u32 = make(calc, Calc::Pow(TWO, LEAST_EXPONENT));
        make(calc, Calc::Mul(small, power))
    } else {
        let whole: u32 = make(calc, Calc::Add(ONE, fraction));
        let signed: u32 = make(calc, Calc::Mul(factor, whole));
        let biased: u32 = make(calc, Calc::OfCount(exponent as usize));
        let shift: u32 = make(calc, Calc::Sub(biased, BIAS));
        let power: u32 = make(calc, Calc::Pow(TWO, shift));
        make(calc, Calc::Mul(signed, power))
    }
}

} // verus!
