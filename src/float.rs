//! Floating-point work, supplied by the program that embeds the evaluator.
//!
//! The library holds a float as the bit pattern of an IEEE 754 binary64
//! number and never computes with it itself: every operation on floats goes
//! through an implementation of `FloatArith`, so nothing is promised about
//! the bits that come back.

use crate::integer::Int;
use vstd::prelude::*;

verus! {

/// One-argument float functions.
#[derive(Debug, Copy, Clone, PartialEq, Eq, Structural)]
pub enum FloatUnary {
    Sqrt,
    Exp,
    Ln,
    Sin,
    Cos,
    Tan,
    Asin,
    Acos,
    Atan,
}

/// Two-argument float functions; `Log` takes the value, then the base.
#[derive(Debug, Copy, Clone, PartialEq, Eq, Structural)]
pub enum FloatBinary {
    Add,
    Sub,
    Mul,
    Div,
    Rem,
    Pow,
    Log,
}

/// Float operations on binary64 bit patterns.
pub trait FloatArith {
    /// The float that `s` denotes, in the standard decimal/exponent syntax.
    fn parse(&self, s: &str) -> Option<u64>;

    /// The float nearest to `i`, or `None` where it has none.
    fn from_int(&self, i: &Int) -> Option<u64>;

    /// `x` cast to an integer, saturating at the bounds of `i64`.
    fn to_i64(&self, x: u64) -> i64;

    fn unary(&self, op: FloatUnary, x: u64) -> u64;

    fn binary(&self, op: FloatBinary, x: u64, y: u64) -> u64;

    /// The shortest decimal text that reads back as `x`.
    fn render(&self, x: u64) -> String;
}

/// Whether the bits are those of `0.0` or `-0.0`.
pub open spec fn is_float_zero(x: u64) -> bool {
    x == 0 || x == 0x8000_0000_0000_0000
}

} // verus!
