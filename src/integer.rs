//! Arbitrary-precision integers held as a sign and base 2^32 limbs, with
//! their arithmetic, comparison and decimal text done by `num-bigint`.

use num::bigint::{BigInt, Sign};
use num::ToPrimitive;
use vstd::prelude::*;

verus! {

/// Value of little-endian base 2^32 limbs.
pub open spec fn limbs_value(s: Seq<u32>) -> nat
    decreases s.len(),
{
    if s.len() == 0 {
        0
    } else {
        s[0] as nat + 0x1_0000_0000 * limbs_value(s.drop_first())
    }
}

pub open spec fn is_digit(c: char) -> bool {
    '0' <= c && c <= '9'
}

pub open spec fn digit_value(c: char) -> int {
    (c as u32) as int - 48
}

pub open spec fn digit_char(d: nat) -> char {
    if d == 0 { '0' }
    else if d == 1 { '1' }
    else if d == 2 { '2' }
    else if d == 3 { '3' }
    else if d == 4 { '4' }
    else if d == 5 { '5' }
    else if d == 6 { '6' }
    else if d == 7 { '7' }
    else if d == 8 { '8' }
    else { '9' }
}

/// Value of a run of decimal digits, where `_` separators are skipped.
pub open spec fn digits_value(s: Seq<char>) -> int
    decreases s.len(),
{
    if s.len() == 0 {
        0
    } else if s.last() == '_' {
        digits_value(s.drop_last())
    } else {
        digits_value(s.drop_last()) * 10 + digit_value(s.last())
    }
}

/// A digit followed by digits and `_` separators.
pub open spec fn is_digit_run(s: Seq<char>) -> bool {
    &&& s.len() > 0
    &&& is_digit(s[0])
    &&& forall|i: int| 0 <= i < s.len() ==> is_digit(#[trigger] s[i]) || s[i] == '_'
}

/// The integer that a base-10 literal denotes: an optional sign, then a
/// digit run.
pub open spec fn int_literal(s: Seq<char>) -> Option<int> {
    if s.len() > 0 && s[0] == '-' {
        if is_digit_run(s.drop_first()) { Some(-digits_value(s.drop_first())) } else { None }
    } else if s.len() > 0 && s[0] == '+' {
        if is_digit_run(s.drop_first()) { Some(digits_value(s.drop_first())) } else { None }
    } else if is_digit_run(s) {
        Some(digits_value(s))
    } else {
        None
    }
}

/// Decimal digits of a natural number, most significant first.
pub open spec fn decimal(n: nat) -> Seq<char>
    decreases n,
{
    if n < 10 {
        seq![digit_char(n)]
    } else {
        decimal(n / 10).push(digit_char(n % 10))
    }
}

/// Decimal text of an integer, with a leading `-` when it is negative.
pub open spec fn int_text(v: int) -> Seq<char> {
    if v < 0 {
        seq!['-'] + decimal((-v) as nat)
    } else {
        decimal(v as nat)
    }
}

pub(crate) proof fn lemma_decimal_digits(n: nat)
    ensures
        is_digit_run(decimal(n)),
        digits_value(decimal(n)) == n,
        decimal(n)[0] != '-' && decimal(n)[0] != '+',
    decreases n,
{
    if n >= 10 {
        lemma_decimal_digits(n / 10);
        let s = decimal(n);
        assert(s.drop_last() == decimal(n / 10));
        assert forall|i: int| 0 <= i < s.len() implies is_digit(#[trigger] s[i]) || s[i] == '_' by {
            if i < s.len() - 1 {
                assert(s[i] == decimal(n / 10)[i]);
            }
        }
    }
    let s = decimal(n);
    let d = if n < 10 { n } else { n % 10 };
    assert(digit_value(digit_char(d)) == d);
    assert(is_digit(digit_char(d)));
    assert(s.last() == digit_char(d));
    assert(s.last() != '_');
    assert(digits_value(s) == digits_value(s.drop_last()) * 10 + digit_value(s.last()));
    if n < 10 {
        assert(s.drop_last().len() == 0);
    } else {
        assert(s.drop_last() == decimal(n / 10));
        assert(n == (n / 10) * 10 + n % 10);
    }
}

/// Integer literals read back what their decimal text says.
pub proof fn lemma_int_text_round_trip(v: int)
    ensures
        int_literal(int_text(v)) == Some(v),
{
    if v < 0 {
        lemma_decimal_digits((-v) as nat);
        assert((seq!['-'] + decimal((-v) as nat)).drop_first() == decimal((-v) as nat));
    } else {
        lemma_decimal_digits(v as nat);
    }
}

/// An integer of any size: a sign and the little-endian base 2^32 limbs of
/// its magnitude.
#[derive(Debug, PartialEq, Eq)]
pub struct Int {
    neg: bool,
    mag: Vec<u32>,
}

impl View for Int {
    type V = int;

    closed spec fn view(&self) -> int {
        if self.neg {
            -(limbs_value(self.mag@) as int)
        } else {
            limbs_value(self.mag@) as int
        }
    }
}

impl Int {
    /// The integer `n`.
    pub fn from_u64(n: u64) -> (r: Int)
        ensures
            r@ == n as int,
    {
        let mut mag: Vec<u32> = Vec::new();
        if n != 0 {
            let lo = (n % 0x1_0000_0000) as u32;
            let hi = (n / 0x1_0000_0000) as u32;
            mag.push(lo);
            if hi != 0 {
                mag.push(hi);
            }
            proof {
                let s = mag@;
                assert(s.drop_first().len() == 0 || s.drop_first() == seq![hi]);
                if hi != 0 {
                    let t = s.drop_first();
                    assert(t.drop_first().len() == 0);
                    assert(limbs_value(t.drop_first()) == 0);
                    assert(limbs_value(t) == hi as nat);
                } else {
                    assert(limbs_value(s.drop_first()) == 0);
                }
                assert(n == lo + 0x1_0000_0000 * hi);
            }
        }
        Int { neg: false, mag }
    }

    /// The integer `n`.
    pub fn from_i64(n: i64) -> (r: Int)
        ensures
            r@ == n as int,
    {
        if n < 0 {
            let m: u64 = ((-(n + 1)) as u64) + 1;
            let r = Int::from_u64(m);
            Int { neg: true, mag: r.mag }
        } else {
            Int::from_u64(n as u64)
        }
    }

    /// Whether the integer is zero.
    pub fn is_zero(&self) -> (r: bool)
        ensures
            r == (self@ == 0),
    {
        let mut i: usize = 0;
        while i < self.mag.len()
            invariant
                i <= self.mag@.len(),
                forall|j: int| 0 <= j < i ==> self.mag@[j] == 0,
            decreases self.mag@.len() - i,
        {
            if self.mag[i] != 0 {
                proof {
                    lemma_limbs_zero(self.mag@);
                }
                return false;
            }
            i += 1;
        }
        proof {
            lemma_limbs_zero(self.mag@);
        }
        true
    }

    /// Whether the integer is below zero.
    pub fn is_negative(&self) -> (r: bool)
        ensures
            r == (self@ < 0),
    {
        let z = self.is_zero();
        self.neg && !z
    }

    /// Whether the sign bit is set, and the little-endian base 2^32 limbs of
    /// the magnitude.
    pub fn sign_and_limbs(&self) -> (r: (bool, &Vec<u32>))
        ensures
            self@ == if r.0 { -(limbs_value(r.1@) as int) } else { limbs_value(r.1@) as int },
    {
        (self.neg, &self.mag)
    }

    /// A copy of the integer.
    pub fn copy(&self) -> (r: Int)
        ensures
            r@ == self@,
    {
        let mut mag: Vec<u32> = Vec::new();
        let mut i: usize = 0;
        while i < self.mag.len()
            invariant
                i <= self.mag@.len(),
                mag@ == self.mag@.take(i as int),
            decreases self.mag@.len() - i,
        {
            mag.push(self.mag[i]);
            i += 1;
            proof {
                assert(mag@ == self.mag@.take(i as int));
            }
        }
        proof {
            assert(mag@ == self.mag@);
        }
        Int { neg: self.neg, mag }
    }
}

proof fn lemma_limbs_zero(s: Seq<u32>)
    ensures
        (limbs_value(s) == 0) == (forall|j: int| 0 <= j < s.len() ==> s[j] == 0),
    decreases s.len(),
{
    if s.len() > 0 {
        lemma_limbs_zero(s.drop_first());
        if forall|j: int| 0 <= j < s.len() ==> s[j] == 0 {
            assert forall|j: int| 0 <= j < s.drop_first().len() implies s.drop_first()[j] == 0 by {
                assert(s.drop_first()[j] == s[j + 1]);
            }
        }
        if limbs_value(s) == 0 {
            assert forall|j: int| 0 <= j < s.len() implies s[j] == 0 by {
                if j > 0 {
                    assert(s.drop_first()[j - 1] == s[j]);
                }
            }
        }
    }
}

/// Relies on num-bigint's `Add` for `BigInt`: the exact sum.
#[verifier::external_body]
pub(crate) fn int_add(a: &Int, b: &Int) -> (r: Int)
    ensures
        r@ == a@ + b@,
{
    let x = BigInt::from_slice(if a.neg { Sign::Minus } else { Sign::Plus }, &a.mag);
    let y = BigInt::from_slice(if b.neg { Sign::Minus } else { Sign::Plus }, &b.mag);
    let (sign, mag) = (x + y).to_u32_digits();
    Int { neg: matches!(sign, Sign::Minus), mag }
}

/// Relies on num-bigint's `Sub` for `BigInt`: the exact difference.
#[verifier::external_body]
pub(crate) fn int_sub(a: &Int, b: &Int) -> (r: Int)
    ensures
        r@ == a@ - b@,
{
    let x = BigInt::from_slice(if a.neg { Sign::Minus } else { Sign::Plus }, &a.mag);
    let y = BigInt::from_slice(if b.neg { Sign::Minus } else { Sign::Plus }, &b.mag);
    let (sign, mag) = (x - y).to_u32_digits();
    Int { neg: matches!(sign, Sign::Minus), mag }
}

/// Relies on num-bigint's `Mul` for `BigInt`: the exact product.
#[verifier::external_body]
pub(crate) fn int_mul(a: &Int, b: &Int) -> (r: Int)
    ensures
        r@ == a@ * b@,
{
    let x = BigInt::from_slice(if a.neg { Sign::Minus } else { Sign::Plus }, &a.mag);
    let y = BigInt::from_slice(if b.neg { Sign::Minus } else { Sign::Plus }, &b.mag);
    let (sign, mag) = (x * y).to_u32_digits();
    Int { neg: matches!(sign, Sign::Minus), mag }
}

/// Relies on num-bigint's `Ord` for `BigInt`, which orders by value:
/// -1, 0 or 1 as `a` is below, equal to or above `b`.
#[verifier::external_body]
pub(crate) fn int_cmp(a: &Int, b: &Int) -> (r: i8)
    ensures
        r == -1 <==> a@ < b@,
        r == 0 <==> a@ == b@,
        r == 1 <==> a@ > b@,
{
    let x = BigInt::from_slice(if a.neg { Sign::Minus } else { Sign::Plus }, &a.mag);
    let y = BigInt::from_slice(if b.neg { Sign::Minus } else { Sign::Plus }, &b.mag);
    match x.cmp(&y) {
        std::cmp::Ordering::Less => -1,
        std::cmp::Ordering::Equal => 0,
        std::cmp::Ordering::Greater => 1,
    }
}

/// Relies on num-traits' `ToPrimitive::to_i64` for `BigInt`: `Some` exactly
/// when the value fits in an `i64`.
#[verifier::external_body]
pub(crate) fn int_to_i64(a: &Int) -> (r: Option<i64>)
    ensures
        r == (if i64::MIN <= a@ <= i64::MAX { Some(a@ as i64) } else { None::<i64> }),
{
    BigInt::from_slice(if a.neg { Sign::Minus } else { Sign::Plus }, &a.mag).to_i64()
}

/// Relies on `BigInt::parse_bytes` with radix 10, which takes an optional
/// `-` or `+`, then a digit followed by digits and `_` separators.
#[verifier::external_body]
pub(crate) fn int_parse(s: &str) -> (r: Option<Int>)
    ensures
        r is Some <==> int_literal(s@) is Some,
        r matches Some(v) ==> v@ == int_literal(s@)->0,
{
    match BigInt::parse_bytes(s.as_bytes(), 10) {
        Some(x) => {
            let (sign, mag) = x.to_u32_digits();
            Some(Int { neg: matches!(sign, Sign::Minus), mag })
        },
        None => None,
    }
}

/// Relies on num-bigint's `Display` for `BigInt`: the decimal digits, after
/// a `-` when the value is negative.
#[verifier::external_body]
pub(crate) fn int_to_text(a: &Int) -> (r: String)
    ensures
        r@ == int_text(a@),
{
    BigInt::from_slice(if a.neg { Sign::Minus } else { Sign::Plus }, &a.mag).to_string()
}

} // verus!
