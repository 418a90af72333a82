//! How near the decimals of this library come to what they stand for, in whole
//! steps of `10^-12`.
use vstd::prelude::*;

#[allow(unused_imports)]
use crate::fixed::{abs_of, boundless, cut, isqrt_of, lemma_isqrt_exists, ten_to, Fixed, UNIT};
#[allow(unused_imports)]
use crate::number::Real;

verus! {

/// Does `q` come nearest to `a / b` from the side of zero?
pub open spec fn nearest_below(q: int, a: int, b: int) -> bool {
    &&& abs_of(q) * abs_of(b) <= abs_of(a)
    &&& abs_of(a) < (abs_of(q) + 1) * abs_of(b)
    &&& q > 0 ==> (a > 0) == (b > 0)
    &&& q < 0 ==> (a > 0) != (b > 0)
}

proof fn lemma_cut(a: int, b: int)
    requires
        b != 0,
    ensures
        nearest_below(cut(a, b), a, b),
{
    let (x, d) = (abs_of(a), abs_of(b));
    vstd::arithmetic::div_mod::lemma_fundamental_div_mod(x, d);
    vstd::arithmetic::div_mod::lemma_mod_bound(x, d);
    let q = x / d;
    assert(q >= 0) by {
        vstd::arithmetic::div_mod::lemma_div_pos_is_pos(x, d);
    }
    assert(q * d == d * q && (q + 1) * d == d * q + d) by (nonlinear_arith);
}

/// Sums and differences of finite numbers are exact, where they are finite.
pub proof fn lemma_exact_sums(a: Fixed, b: Fixed)
    requires
        !boundless(a@),
        !boundless(b@),
    ensures
        !boundless(a@ + b@) ==> a.plus_spec(b)@ == a@ + b@,
        !boundless(a@ - b@) ==> a.minus_spec(b)@ == a@ - b@,
        a.magnitude_spec()@ == abs_of(a@),
        a.below_spec(b) <==> a@ < b@,
        a.at_most_spec(b) <==> a@ <= b@,
        a.negative_spec() <==> a@ < 0,
{
    Fixed::lemma_of(a@ + b@);
    Fixed::lemma_of(a@ - b@);
    Fixed::lemma_of(abs_of(a@));
}

/// A product is less than a step from the product of the numbers, towards zero.
pub proof fn lemma_product_near(a: Fixed, b: Fixed)
    requires
        !boundless(a@),
        !boundless(b@),
        !boundless(a.times_spec(b)@),
    ensures
        nearest_below(a.times_spec(b)@, a@ * b@, 1_000_000_000_000),
{
    lemma_cut(a@ * b@, 1_000_000_000_000);
    Fixed::lemma_of(cut(a@ * b@, UNIT as int));
}

/// A quotient is less than a step from the quotient of the numbers, towards
/// zero.
pub proof fn lemma_quotient_near(a: Fixed, b: Fixed)
    requires
        !boundless(a@),
        !boundless(b@),
        b@ != 0,
        !boundless(a.over_spec(b)@),
    ensures
        nearest_below(a.over_spec(b)@, a@ * 1_000_000_000_000, b@),
{
    lemma_cut(a@ * 1_000_000_000_000, b@);
    Fixed::lemma_of(cut(a@ * UNIT, b@));
}

/// So is a ratio of whole numbers.
pub proof fn lemma_ratio_near(num: i64, den: i64)
    requires
        den > 0,
        !boundless(Fixed::ratio_spec(num, den)@),
    ensures
        nearest_below(Fixed::ratio_spec(num, den)@, num * 1_000_000_000_000, den as int),
{
    lemma_cut(num * 1_000_000_000_000, den as int);
    Fixed::lemma_of(cut(num * UNIT, den as int));
}

/// A root is the largest number whose square is no more than what it is the
/// root of.
pub proof fn lemma_root_near(a: Fixed)
    requires
        0 <= a@,
        !boundless(a@),
        !boundless(a.root_spec()@),
    ensures
        ({
            let r = a.root_spec()@;
            &&& r >= 0
            &&& r * r <= a@ * 1_000_000_000_000
            &&& a@ * 1_000_000_000_000 < (r + 1) * (r + 1)
        }),
{
    if a@ > 0 {
        lemma_isqrt_exists(a@ * UNIT);
        Fixed::lemma_of(isqrt_of(a@ * UNIT));
    } else {
        Fixed::lemma_of(0);
    }
}

/// A number that is not below zero is rounded down.
pub proof fn lemma_floor_below(a: Fixed)
    requires
        0 <= a@,
        a@ / 1_000_000_000_000 <= usize::MAX,
    ensures
        a.floor_spec() * 1_000_000_000_000 <= a@ < (a.floor_spec() + 1) * 1_000_000_000_000,
{
}

proof fn lemma_tens(a: int, b: int)
    requires
        0 <= a,
        0 <= b,
    ensures
        ten_to(a) * ten_to(b) == ten_to(a + b),
        ten_to(a) > 0,
    decreases a,
{
    if a > 0 {
        lemma_tens(a - 1, b);
        let (x, y) = (ten_to(a - 1), ten_to(b));
        assert((10 * x) * y == 10 * (x * y)) by (nonlinear_arith);
    } else {
        assert(1 * ten_to(b) == ten_to(b));
    }
}

/// A decimal with up to twelve digits behind the point is read exactly, one with
/// more is cut off.
pub proof fn lemma_decimal_read(mantissa: i128, scale: u32)
    requires
        !boundless(Fixed::from_decimal_spec(mantissa, scale)@),
        scale <= 28,
    ensures
        ({
            let x = Fixed::from_decimal_spec(mantissa, scale)@;
            &&& scale <= 12 ==> x * ten_to(scale as int) == mantissa * 1_000_000_000_000
            &&& scale > 12 ==> nearest_below(x, mantissa as int, ten_to(scale - 12))
        }),
{
    if scale <= 12 {
        let s = scale as int;
        lemma_tens(12 - s, s);
        reveal_with_fuel(ten_to, 13);
        assert(ten_to(12) == 1_000_000_000_000);
        Fixed::lemma_of(mantissa * ten_to(12 - s));
        let (m, x, y) = (mantissa as int, ten_to(12 - s), ten_to(s));
        assert((m * x) * y == m * (x * y)) by (nonlinear_arith);
    } else {
        lemma_tens(scale - 12, 0);
        lemma_cut(mantissa as int, ten_to(scale - 12));
        Fixed::lemma_of(cut(mantissa as int, ten_to(scale - 12)));
    }
}

} // verus!
