//! The numbers that prices, quantities, factors and predictions are made of.
//!
//! Everything in this library that is not a count, an id or a time is computed
//! over a type `T: Real`. The contracts speak of the operations of that type
//! by name and in the order in which they are carried out, so they hold of
//! rounded arithmetic as they stand. Only laws that rounding keeps are taken
//! for granted: each type proves them of itself.
use vstd::prelude::*;

verus! {

/// Decimals that a [`Real`] can be made from: at most 96 bits of digits, and
/// at most 28 of the digits behind the point.
pub open spec fn is_decimal(mantissa: int, scale: int) -> bool {
    &&& -0x1_0000_0000_0000_0000_0000_0000 < mantissa < 0x1_0000_0000_0000_0000_0000_0000
    &&& 0 <= scale <= 28
}

/// A number type with an order and the arithmetic that the signal needs.
///
/// Each operation is a function of its arguments, named by the `_spec`
/// function beside it. A type with a value that stands for "no number"
/// answers `false` to every comparison with it.
pub trait Real: Sized + Copy {
    /// The number for `num / den`, as the type rounds it.
    spec fn ratio_spec(num: i64, den: i64) -> Self;

    spec fn plus_spec(self, rhs: Self) -> Self;

    spec fn minus_spec(self, rhs: Self) -> Self;

    spec fn times_spec(self, rhs: Self) -> Self;

    spec fn over_spec(self, rhs: Self) -> Self;

    /// The square root.
    spec fn root_spec(self) -> Self;

    /// The absolute value.
    spec fn magnitude_spec(self) -> Self;

    /// Is the sign negative (the sign of a zero counts)?
    spec fn negative_spec(self) -> bool;

    /// The number rounded down, held between zero and the largest `usize`.
    spec fn floor_spec(self) -> usize;

    /// Is the first number less than the second?
    spec fn below_spec(self, rhs: Self) -> bool;

    /// Is the first number less than or equal to the second?
    spec fn at_most_spec(self, rhs: Self) -> bool;

    /// The place of the number in the total order of all values of the type.
    spec fn rank_spec(self) -> i128;

    /// A number beyond every finite one.
    spec fn infinity_spec() -> Self;

    /// The number that the decimal `mantissa / 10^scale` stands for.
    spec fn from_decimal_spec(mantissa: i128, scale: u32) -> Self;

    /// The number as it is printed.
    spec fn text_spec(self) -> String;

    /// The number as JSON has it: `null` where it is not finite.
    spec fn json_spec(self) -> String;

    /// Of two values that are numbers, the first is at most the second unless
    /// the second is below it.
    proof fn law_order(a: Self, b: Self)
        requires
            a.at_most_spec(a),
            b.at_most_spec(b),
        ensures
            a.at_most_spec(b) <==> !b.below_spec(a),
    ;

    /// Small whole numbers have their order, and are finite.
    proof fn law_whole(m: i64, n: i64)
        requires
            -1_000_000 <= m <= 1_000_000,
            -1_000_000 <= n <= 1_000_000,
        ensures
            Self::ratio_spec(m, 1).at_most_spec(Self::ratio_spec(n, 1)) <==> m <= n,
            Self::ratio_spec(m, 1).below_spec(Self::ratio_spec(n, 1)) <==> m < n,
            Self::ratio_spec(m, 1).below_spec(Self::infinity_spec()),
    ;

    /// A quotient of small whole numbers that comes out whole is exact.
    proof fn law_whole_quotient(n: i64, d: i64)
        requires
            -1_000 <= n <= 1_000,
            1 <= d <= 1_000,
        ensures
            Self::ratio_spec((n * d) as i64, 1).over_spec(Self::ratio_spec(d, 1))
                == Self::ratio_spec(n, 1),
    ;

    /// A quotient by a finite number above zero keeps the order.
    proof fn law_quotient_order(a: Self, b: Self, c: Self)
        requires
            a.at_most_spec(b),
            Self::ratio_spec(0, 1).below_spec(c),
            c.below_spec(Self::infinity_spec()),
        ensures
            a.over_spec(c).at_most_spec(b.over_spec(c)),
    ;

    /// A finite number divided by a number above zero gives a number.
    proof fn law_quotient_number(a: Self, b: Self)
        requires
            a.magnitude_spec().below_spec(Self::infinity_spec()),
            Self::ratio_spec(0, 1).below_spec(b),
        ensures
            a.over_spec(b).at_most_spec(a.over_spec(b)),
    ;

    /// A root is not below zero.
    proof fn law_root(a: Self)
        requires
            Self::ratio_spec(0, 1).at_most_spec(a),
        ensures
            Self::ratio_spec(0, 1).at_most_spec(a.root_spec()),
    ;

    /// A number that is not below zero and one above zero have a sum above zero.
    proof fn law_sum_above_zero(a: Self, b: Self)
        requires
            Self::ratio_spec(0, 1).at_most_spec(a),
            Self::ratio_spec(0, 1).below_spec(b),
        ensures
            Self::ratio_spec(0, 1).below_spec(a.plus_spec(b)),
    ;

    /// `10^-12` is above zero.
    proof fn law_eps()
        ensures
            Self::ratio_spec(0, 1).below_spec(Self::ratio_spec(1, 1_000_000_000_000)),
    ;

    /// A finite number less itself is zero.
    proof fn law_no_difference(a: Self)
        requires
            a.magnitude_spec().below_spec(Self::infinity_spec()),
        ensures
            a.minus_spec(a) == Self::ratio_spec(0, 1),
    ;

    fn ratio(num: i64, den: i64) -> (r: Self)
        requires
            den > 0,
        ensures
            r == Self::ratio_spec(num, den),
    ;

    fn plus(self, rhs: Self) -> (r: Self)
        ensures
            r == self.plus_spec(rhs),
    ;

    fn minus(self, rhs: Self) -> (r: Self)
        ensures
            r == self.minus_spec(rhs),
    ;

    fn times(self, rhs: Self) -> (r: Self)
        ensures
            r == self.times_spec(rhs),
    ;

    fn over(self, rhs: Self) -> (r: Self)
        ensures
            r == self.over_spec(rhs),
    ;

    fn root(self) -> (r: Self)
        ensures
            r == self.root_spec(),
    ;

    fn magnitude(self) -> (r: Self)
        ensures
            r == self.magnitude_spec(),
    ;

    fn negative(self) -> (r: bool)
        ensures
            r == self.negative_spec(),
    ;

    fn floor(self) -> (r: usize)
        ensures
            r == self.floor_spec(),
    ;

    fn below(self, rhs: Self) -> (r: bool)
        ensures
            r == self.below_spec(rhs),
    ;

    fn at_most(self, rhs: Self) -> (r: bool)
        ensures
            r == self.at_most_spec(rhs),
    ;

    fn rank(self) -> (r: i128)
        ensures
            r == self.rank_spec(),
    ;

    fn infinity() -> (r: Self)
        ensures
            r == Self::infinity_spec(),
    ;

    fn from_decimal(mantissa: i128, scale: u32) -> (r: Self)
        requires
            is_decimal(mantissa as int, scale as int),
        ensures
            r == Self::from_decimal_spec(mantissa, scale),
    ;

    fn text(self) -> (r: String)
        ensures
            r@ == self.text_spec()@,
    ;

    fn json(self) -> (r: String)
        ensures
            r@ == self.json_spec()@,
    ;
}

pub open spec fn zero_spec<T: Real>() -> T {
    T::ratio_spec(0, 1)
}

pub open spec fn one_spec<T: Real>() -> T {
    T::ratio_spec(1, 1)
}

/// The smallest distance that the factors tell from zero: `10^-12`.
pub open spec fn eps_spec<T: Real>() -> T {
    T::ratio_spec(1, 1_000_000_000_000)
}

pub open spec fn count_spec<T: Real>(n: int) -> T {
    T::ratio_spec(n as i64, 1)
}

pub fn zero<T: Real>() -> (r: T)
    ensures
        r == zero_spec::<T>(),
{
    T::ratio(0, 1)
}

pub fn one<T: Real>() -> (r: T)
    ensures
        r == one_spec::<T>(),
{
    T::ratio(1, 1)
}

pub fn eps<T: Real>() -> (r: T)
    ensures
        r == eps_spec::<T>(),
{
    T::ratio(1, 1_000_000_000_000)
}

/// The number `n`.
pub fn count<T: Real>(n: i64) -> (r: T)
    ensures
        r == count_spec::<T>(n as int),
{
    T::ratio(n, 1)
}

/// A value that is not at most itself is no number.
pub open spec fn missing_spec<T: Real>(x: T) -> bool {
    !x.at_most_spec(x)
}

pub open spec fn same_spec<T: Real>(a: T, b: T) -> bool {
    a.at_most_spec(b) && b.at_most_spec(a)
}

/// Are the two numbers equal?
pub fn same<T: Real>(a: T, b: T) -> (r: bool)
    ensures
        r == same_spec(a, b),
{
    a.at_most(b) && b.at_most(a)
}

pub open spec fn larger_spec<T: Real>(a: T, b: T) -> T {
    if missing_spec(a) || (!missing_spec(b) && a.below_spec(b)) {
        b
    } else {
        a
    }
}

/// The larger of the two; the other one where one is no number.
pub fn larger<T: Real>(a: T, b: T) -> (r: T)
    ensures
        r == larger_spec(a, b),
{
    if !a.at_most(a) || (b.at_most(b) && a.below(b)) {
        b
    } else {
        a
    }
}

pub open spec fn smaller_spec<T: Real>(a: T, b: T) -> T {
    if missing_spec(a) || (!missing_spec(b) && b.below_spec(a)) {
        b
    } else {
        a
    }
}

/// The smaller of the two; the other one where one is no number.
pub fn smaller<T: Real>(a: T, b: T) -> (r: T)
    ensures
        r == smaller_spec(a, b),
{
    if !a.at_most(a) || (b.at_most(b) && b.below(a)) {
        b
    } else {
        a
    }
}

pub open spec fn within_spec<T: Real>(x: T, lo: T, hi: T) -> T {
    if x.below_spec(lo) {
        lo
    } else if hi.below_spec(x) {
        hi
    } else {
        x
    }
}

/// `x`, or the bound that it lies beyond.
pub fn within<T: Real>(x: T, lo: T, hi: T) -> (r: T)
    ensures
        r == within_spec(x, lo, hi),
{
    if x.below(lo) {
        lo
    } else if hi.below(x) {
        hi
    } else {
        x
    }
}

pub open spec fn finite_spec<T: Real>(x: T) -> bool {
    x.magnitude_spec().below_spec(T::infinity_spec())
}

/// Is `x` a number and not beyond all numbers?
pub fn finite<T: Real>(x: T) -> (r: bool)
    ensures
        r == finite_spec(x),
{
    x.magnitude().below(T::infinity())
}

pub open spec fn same_sign_spec<T: Real>(a: T, b: T) -> bool {
    &&& !missing_spec(a)
    &&& !missing_spec(b)
    &&& a.negative_spec() == b.negative_spec()
}

/// Do the two numbers have the same sign?
pub fn same_sign<T: Real>(a: T, b: T) -> (r: bool)
    ensures
        r == same_sign_spec(a, b),
{
    a.at_most(a) && b.at_most(b) && a.negative() == b.negative()
}

/// `init + s[0] + s[1] + ..`, added from the left.
pub open spec fn accumulate<T: Real>(init: T, s: Seq<T>) -> T
    decreases s.len(),
{
    if s.len() == 0 {
        init
    } else {
        accumulate(init, s.drop_last()).plus_spec(s.last())
    }
}

/// `s[0] + s[1] + ..`, added from the left.
pub open spec fn total_spec<T: Real>(s: Seq<T>) -> T {
    accumulate(s[0], s.skip(1))
}

/// One more term.
pub proof fn lemma_accumulate_step<T: Real>(init: T, s: Seq<T>, i: int)
    requires
        0 <= i < s.len(),
    ensures
        accumulate(init, s.take(i + 1)) == accumulate(init, s.take(i)).plus_spec(s[i]),
{
    assert(s.take(i + 1).drop_last() =~= s.take(i));
    assert(s.take(i + 1).last() == s[i]);
}

/// The sum of the first `n` numbers of `s`, added from the left.
pub fn total<T: Real>(s: &[T], n: usize) -> (r: T)
    requires
        1 <= n <= s@.len(),
    ensures
        r == total_spec(s@.take(n as int)),
{
    let ghost rest = s@.take(n as int).skip(1);
    let mut sum = s[0];
    let mut i: usize = 1;
    assert(rest.take(0) =~= Seq::<T>::empty());
    while i < n
        invariant
            1 <= i <= n <= s@.len(),
            rest == s@.take(n as int).skip(1),
            sum == accumulate(s@[0], rest.take(i - 1)),
        decreases n - i,
    {
        proof {
            lemma_accumulate_step(s@[0], rest, i - 1);
        }
        sum = sum.plus(s[i]);
        i = i + 1;
    }
    assert(rest.take(n - 1) =~= rest);
    sum
}

} // verus!
