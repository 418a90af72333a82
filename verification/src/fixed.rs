//! Exact numbers: decimals with twelve digits behind the point.
#[allow(unused_imports)]
use vstd::arithmetic::div_mod::{
    lemma_div_is_ordered, lemma_div_multiples_vanish, lemma_div_pos_is_pos,
};
use vstd::prelude::*;
use vstd::string::StringExecFns;

use crate::number::Real;
use crate::text::{push_integer, push_padded};
#[allow(unused_imports)]
use crate::text::{integer_text, padded_digits};
#[allow(unused_imports)]
use crate::number::is_decimal;

verus! {

/// Steps of a [`Fixed`] in the number one.
pub const UNIT: i128 = 1_000_000_000_000;

/// The bound on the steps of a [`Fixed`]. A result beyond it is held there,
/// and stands for a number that is not finite. Arithmetic on such a number
/// gives one that is not finite either, except that a finite number divided by
/// it is zero.
pub const LIMIT: i128 = 1_000_000_000_000_000_000_000_000;

/// A number held as a whole count of `10^-12` steps. Sums and differences of
/// finite numbers are exact; products, quotients and roots are cut off towards
/// zero.
#[derive(Clone, Copy, Debug, PartialEq, Eq)]
pub struct Fixed {
    steps: i128,
}

/// `x`, held at the bounds.
pub open spec fn held(x: int) -> int {
    if x > LIMIT {
        LIMIT as int
    } else if x < -LIMIT {
        -LIMIT
    } else {
        x
    }
}

/// Do that many steps stand for a number that is not finite?
pub open spec fn boundless(x: int) -> bool {
    x >= LIMIT || x <= -LIMIT
}

/// The bound on one side.
pub open spec fn bound_of(negative: bool) -> int {
    if negative {
        -LIMIT
    } else {
        LIMIT as int
    }
}

/// `a / b`, cut off towards zero.
pub open spec fn cut(a: int, b: int) -> int {
    if (a >= 0) == (b >= 0) {
        abs_of(a) / abs_of(b)
    } else {
        -(abs_of(a) / abs_of(b))
    }
}

pub open spec fn abs_of(x: int) -> int {
    if x >= 0 {
        x
    } else {
        -x
    }
}

/// `r` is the whole part of the square root of `v`.
pub open spec fn is_isqrt(v: int, r: int) -> bool {
    &&& r >= 0
    &&& r * r <= v
    &&& v < (r + 1) * (r + 1)
}

/// The whole part of the square root of `v`.
pub open spec fn isqrt_of(v: int) -> int {
    choose|r: int| is_isqrt(v, r)
}

/// `10^n`.
pub open spec fn ten_to(n: int) -> int
    decreases n,
{
    if n <= 0 {
        1
    } else {
        10 * ten_to(n - 1)
    }
}

/// A finite number in decimal notation, with all digits behind the point.
pub open spec fn decimal_text(steps: int) -> Seq<char> {
    (if steps < 0 {
        "-"@
    } else {
        ""@
    }) + integer_text(abs_of(steps) / (UNIT as int)) + "."@ + padded_digits(
        (abs_of(steps) % (UNIT as int)) as nat,
        12,
    )
}

/// A number as it is printed.
pub open spec fn fixed_text(steps: int) -> Seq<char> {
    if steps >= LIMIT {
        "inf"@
    } else if steps <= -LIMIT {
        "-inf"@
    } else {
        decimal_text(steps)
    }
}

/// A number as JSON has it.
pub open spec fn fixed_json(steps: int) -> Seq<char> {
    if boundless(steps) {
        "null"@
    } else {
        decimal_text(steps)
    }
}

/// There is only one whole part of a square root.
proof fn lemma_isqrt_unique(v: int, r: int, s: int)
    requires
        is_isqrt(v, r),
        is_isqrt(v, s),
    ensures
        r == s,
{
    if r < s {
        assert((r + 1) * (r + 1) <= s * s) by (nonlinear_arith)
            requires
                0 <= r < s,
        ;
    }
    if s < r {
        assert((s + 1) * (s + 1) <= r * r) by (nonlinear_arith)
            requires
                0 <= s < r,
        ;
    }
}

/// There is a whole part of a square root.
pub proof fn lemma_isqrt_exists(v: int)
    requires
        v >= 0,
    ensures
        is_isqrt(v, isqrt_of(v)),
    decreases v,
{
    if v == 0 {
        assert(is_isqrt(0, 0));
    } else {
        lemma_isqrt_exists(v - 1);
        let r = isqrt_of(v - 1);
        if v < (r + 1) * (r + 1) {
            assert(is_isqrt(v, r));
        } else {
            assert((r + 1) * (r + 1) <= v && v < (r + 2) * (r + 2)) by (nonlinear_arith)
                requires
                    r >= 0,
                    v - 1 < (r + 1) * (r + 1),
                    v >= (r + 1) * (r + 1),
            ;
            assert(is_isqrt(v, r + 1));
        }
    }
}

fn size_of(x: i128) -> (r: u128)
    requires
        -LIMIT <= x <= LIMIT,
    ensures
        r == abs_of(x as int),
{
    if x >= 0 {
        x as u128
    } else {
        (-x) as u128
    }
}

/// The whole part of a square root, by bisection.
fn isqrt(v: u128) -> (r: u128)
    requires
        v <= UNIT * LIMIT,
    ensures
        is_isqrt(v as int, r as int),
{
    let mut lo: u128 = 0;
    let mut hi: u128 = 1_000_000_000_000_000_001;
    assert(hi * hi > UNIT * LIMIT) by (nonlinear_arith)
        requires
            hi == 1_000_000_000_000_000_001,
            UNIT == 1_000_000_000_000,
            LIMIT == 1_000_000_000_000_000_000_000_000,
    ;
    while hi - lo > 1
        invariant
            0 <= lo < hi <= 1_000_000_000_000_000_001,
            lo * lo <= v,
            v < hi * hi,
        decreases hi - lo,
    {
        let mid: u128 = lo + (hi - lo) / 2;
        assert(mid * mid <= 1_000_000_000_000_000_001 * 1_000_000_000_000_000_001)
            by (nonlinear_arith)
            requires
                0 <= mid <= 1_000_000_000_000_000_001,
        ;
        if mid * mid <= v {
            lo = mid;
        } else {
            hi = mid;
        }
    }
    assert(hi == lo + 1);
    lo
}

impl Fixed {
    #[verifier::type_invariant]
    spec fn in_bounds(self) -> bool {
        -LIMIT <= self.steps <= LIMIT
    }

    /// The number in steps of `10^-12`.
    pub closed spec fn view(&self) -> int {
        self.steps as int
    }

    /// The number with that many steps.
    pub closed spec fn of(steps: int) -> Self {
        Fixed { steps: held(steps) as i128 }
    }

    /// A number made of steps has them, held at the bounds.
    pub broadcast proof fn lemma_of(steps: int)
        ensures
            (#[trigger] Fixed::of(steps))@ == held(steps),
    {
    }

    /// A number is told by its steps alone.
    pub proof fn lemma_same(a: Fixed, b: Fixed)
        requires
            a@ == b@,
        ensures
            a == b,
    {
    }

    /// The steps of a number.
    pub fn steps(self) -> (r: i128)
        ensures
            r == self@,
    {
        self.steps
    }

    /// The number with `steps` steps, held at the bounds.
    pub fn from_steps(steps: i128) -> (r: Self)
        ensures
            r == Fixed::of(steps as int),
    {
        if steps > LIMIT {
            Fixed { steps: LIMIT }
        } else if steps < -LIMIT {
            Fixed { steps: -LIMIT }
        } else {
            Fixed { steps }
        }
    }

    /// Does the number stand for one that is not finite?
    fn is_boundless(self) -> (r: bool)
        ensures
            r == boundless(self@),
    {
        self.steps >= LIMIT || self.steps <= -LIMIT
    }

    /// A finite number in decimal notation.
    fn decimal(self) -> (r: String)
        requires
            !boundless(self@),
        ensures
            r@ == decimal_text(self@),
    {
        let size: u128 = size_of(self.steps);
        let mut out = if self.steps < 0 {
            "-".to_string()
        } else {
            "".to_string()
        };
        push_integer(&mut out, (size / (UNIT as u128)) as i64);
        out.append(".");
        push_padded(&mut out, (size % (UNIT as u128)) as u64, 12);
        out
    }

    /// A magnitude and a sign, put together again.
    fn signed(size: u128, negative: bool) -> (r: Self)
        ensures
            r == Fixed::of(
                if negative {
                    -(size as int)
                } else {
                    size as int
                },
            ),
    {
        let kept: i128 = if size > LIMIT as u128 {
            LIMIT
        } else {
            size as i128
        };
        if negative {
            Fixed { steps: -kept }
        } else {
            Fixed { steps: kept }
        }
    }
}

impl Real for Fixed {
    open spec fn ratio_spec(num: i64, den: i64) -> Self {
        Fixed::of(cut(num * UNIT, den as int))
    }

    open spec fn plus_spec(self, rhs: Self) -> Self {
        if boundless(self@) {
            Fixed::of(self@)
        } else if boundless(rhs@) {
            Fixed::of(rhs@)
        } else {
            Fixed::of(self@ + rhs@)
        }
    }

    open spec fn minus_spec(self, rhs: Self) -> Self {
        if boundless(self@) {
            Fixed::of(self@)
        } else if boundless(rhs@) {
            Fixed::of(-rhs@)
        } else {
            Fixed::of(self@ - rhs@)
        }
    }

    open spec fn times_spec(self, rhs: Self) -> Self {
        if boundless(self@) || boundless(rhs@) {
            Fixed::of(bound_of((self@ < 0) != (rhs@ < 0)))
        } else {
            Fixed::of(cut(self@ * rhs@, UNIT as int))
        }
    }

    /// A quotient by zero has no bound but the sign of the dividend.
    open spec fn over_spec(self, rhs: Self) -> Self {
        if boundless(self@) {
            Fixed::of(bound_of((self@ < 0) != (rhs@ < 0)))
        } else if boundless(rhs@) {
            Fixed::of(0)
        } else if rhs@ == 0 {
            if self@ == 0 {
                Fixed::of(0)
            } else if self@ > 0 {
                Fixed::of(LIMIT as int)
            } else {
                Fixed::of(-LIMIT)
            }
        } else {
            Fixed::of(cut(self@ * UNIT, rhs@))
        }
    }

    /// The root of a number below zero is taken to be zero.
    open spec fn root_spec(self) -> Self {
        if self@ <= 0 {
            Fixed::of(0)
        } else if boundless(self@) {
            Fixed::of(LIMIT as int)
        } else {
            Fixed::of(isqrt_of(self@ * UNIT))
        }
    }

    open spec fn magnitude_spec(self) -> Self {
        Fixed::of(abs_of(self@))
    }

    open spec fn negative_spec(self) -> bool {
        self@ < 0
    }

    open spec fn floor_spec(self) -> usize {
        if self@ <= 0 {
            0
        } else if self@ / (UNIT as int) > usize::MAX {
            usize::MAX
        } else {
            (self@ / (UNIT as int)) as usize
        }
    }

    open spec fn below_spec(self, rhs: Self) -> bool {
        self@ < rhs@
    }

    open spec fn at_most_spec(self, rhs: Self) -> bool {
        self@ <= rhs@
    }

    open spec fn rank_spec(self) -> i128 {
        self@ as i128
    }

    open spec fn infinity_spec() -> Self {
        Fixed::of(LIMIT as int)
    }

    open spec fn from_decimal_spec(mantissa: i128, scale: u32) -> Self {
        if scale <= 12 {
            Fixed::of(mantissa * ten_to(12 - scale))
        } else {
            Fixed::of(cut(mantissa as int, ten_to(scale - 12)))
        }
    }

    open spec fn text_spec(self) -> String {
        choose|s: String| s@ == fixed_text(self@)
    }

    open spec fn json_spec(self) -> String {
        choose|s: String| s@ == fixed_json(self@)
    }

    proof fn law_order(a: Self, b: Self) {
    }

    proof fn law_whole(m: i64, n: i64) {
        lemma_small(m as int);
        lemma_small(n as int);
        assert(m * UNIT <= n * UNIT <==> m <= n) by (nonlinear_arith)
            requires
                UNIT > 0,
        ;
        assert(m * UNIT < n * UNIT <==> m < n) by (nonlinear_arith)
            requires
                UNIT > 0,
        ;
        Fixed::lemma_of(LIMIT as int);
    }

    proof fn law_whole_quotient(n: i64, d: i64) {
        assert(-1_000_000 <= n * d <= 1_000_000) by (nonlinear_arith)
            requires
                -1_000 <= n <= 1_000,
                1 <= d <= 1_000,
        ;
        lemma_small(n * d);
        lemma_small(d as int);
        lemma_small(n as int);
        let a = (n * d) * UNIT;
        let b = d * UNIT;
        assert(0 < b && abs_of(a * UNIT) == (abs_of(n as int) * UNIT) * b && (a * UNIT >= 0) == (n
            >= 0)) by (nonlinear_arith)
            requires
                a == (n * d) * UNIT,
                b == d * UNIT,
                1 <= d,
                UNIT > 0,
        ;
        lemma_div_multiples_vanish(abs_of(n as int) * UNIT, b);
        assert((abs_of(n as int) * UNIT) * b == b * (abs_of(n as int) * UNIT)) by (nonlinear_arith);
        assert(cut(a * UNIT, b) == n * UNIT);
    }

    proof fn law_quotient_order(a: Self, b: Self, c: Self) {
        Fixed::lemma_of(LIMIT as int);
        lemma_small(0);
        Fixed::lemma_of(bound_of((a@ < 0) != (c@ < 0)));
        Fixed::lemma_of(bound_of((b@ < 0) != (c@ < 0)));
        Fixed::lemma_of(cut(a@ * UNIT, c@));
        Fixed::lemma_of(cut(b@ * UNIT, c@));
        lemma_cut_ordered(a@ * UNIT, b@ * UNIT, c@);
    }

    proof fn law_quotient_number(a: Self, b: Self) {
    }

    proof fn law_root(a: Self) {
        lemma_small(0);
        Fixed::lemma_of(0);
        Fixed::lemma_of(LIMIT as int);
        Fixed::lemma_of(isqrt_of(a@ * UNIT));
        if 0 < a@ < LIMIT {
            lemma_isqrt_exists(a@ * UNIT);
        }
    }

    proof fn law_sum_above_zero(a: Self, b: Self) {
        lemma_small(0);
        Fixed::lemma_of(a@);
        Fixed::lemma_of(b@);
        Fixed::lemma_of(a@ + b@);
    }

    proof fn law_eps() {
        lemma_small(0);
        assert(1 * UNIT == 1_000_000_000_000);
        assert(cut(1 * UNIT, 1_000_000_000_000) == 1);
        Fixed::lemma_of(1);
    }

    proof fn law_no_difference(a: Self) {
        Fixed::lemma_of(LIMIT as int);
        Fixed::lemma_of(abs_of(a@));
        lemma_small(0);
    }

    fn ratio(num: i64, den: i64) -> (r: Self) {
        let size: u128 = if num >= 0 {
            num as u128
        } else {
            (-(num as i128)) as u128
        };
        assert(abs_of(num * UNIT) == size * UNIT) by (nonlinear_arith)
            requires
                size == abs_of(num as int),
                UNIT > 0,
        ;
        assert((num * UNIT >= 0) == (num >= 0)) by (nonlinear_arith)
            requires
                UNIT > 0,
        ;
        Fixed::signed(size * (UNIT as u128) / (den as u128), num < 0)
    }

    fn plus(self, rhs: Self) -> (r: Self) {
        proof {
            use_type_invariant(&self);
            use_type_invariant(&rhs);
        }
        if self.is_boundless() {
            self
        } else if rhs.is_boundless() {
            rhs
        } else {
            Fixed::from_steps(self.steps + rhs.steps)
        }
    }

    fn minus(self, rhs: Self) -> (r: Self) {
        proof {
            use_type_invariant(&self);
            use_type_invariant(&rhs);
        }
        if self.is_boundless() {
            self
        } else if rhs.is_boundless() {
            Fixed { steps: -rhs.steps }
        } else {
            Fixed::from_steps(self.steps - rhs.steps)
        }
    }

    fn times(self, rhs: Self) -> (r: Self) {
        proof {
            use_type_invariant(&self);
            use_type_invariant(&rhs);
        }
        let negative: bool = (self.steps < 0) != (rhs.steps < 0);
        if self.is_boundless() || rhs.is_boundless() {
            return Fixed::signed(LIMIT as u128, negative);
        }
        let a: u128 = size_of(self.steps);
        let b: u128 = size_of(rhs.steps);
        let ghost product = self@ * rhs@;
        proof {
            assert(abs_of(product) == a * b && (product != 0 ==> (product < 0) == negative) && (
            product == 0 ==> a * b == 0)) by (nonlinear_arith)
                requires
                    product == self@ * rhs@,
                    a == abs_of(self@),
                    b == abs_of(rhs@),
                    negative == ((self@ < 0) != (rhs@ < 0)),
            ;
            assert(0int / (UNIT as int) == 0);
        }
        match a.checked_mul(b) {
            Some(p) => Fixed::signed(p / (UNIT as u128), negative),
            None => {
                proof {
                    assert(UNIT * LIMIT <= u128::MAX) by (nonlinear_arith)
                        requires
                            UNIT == 1_000_000_000_000,
                            LIMIT == 1_000_000_000_000_000_000_000_000,
                    ;
                    lemma_div_is_ordered(UNIT * LIMIT, a * b, UNIT as int);
                    assert((UNIT * LIMIT) / (UNIT as int) == LIMIT) by (nonlinear_arith)
                        requires
                            UNIT == 1_000_000_000_000,
                            LIMIT == 1_000_000_000_000_000_000_000_000,
                    ;
                }
                Fixed::signed(LIMIT as u128, negative)
            },
        }
    }

    fn over(self, rhs: Self) -> (r: Self) {
        proof {
            use_type_invariant(&self);
            use_type_invariant(&rhs);
        }
        let negative: bool = (self.steps < 0) != (rhs.steps < 0);
        if self.is_boundless() {
            Fixed::signed(LIMIT as u128, negative)
        } else if rhs.is_boundless() {
            Fixed { steps: 0 }
        } else if rhs.steps == 0 {
            if self.steps == 0 {
                Fixed { steps: 0 }
            } else if self.steps > 0 {
                Fixed { steps: LIMIT }
            } else {
                Fixed { steps: -LIMIT }
            }
        } else {
            let a: u128 = size_of(self.steps);
            let b: u128 = size_of(rhs.steps);
            assert(abs_of(self@ * UNIT) == a * UNIT && a * UNIT <= LIMIT * UNIT) by (nonlinear_arith)
                requires
                    a == abs_of(self@),
                    0 <= a <= LIMIT,
                    UNIT > 0,
            ;
            assert((self@ * UNIT >= 0) == (self@ >= 0)) by (nonlinear_arith)
                requires
                    UNIT > 0,
            ;
            assert(a == 0 ==> (a * UNIT) / (b as int) == 0);
            Fixed::signed(a * (UNIT as u128) / b, negative)
        }
    }

    fn root(self) -> (r: Self) {
        proof {
            use_type_invariant(&self);
        }
        if self.steps <= 0 {
            Fixed { steps: 0 }
        } else if self.is_boundless() {
            self
        } else {
            assert(0 <= self@ * UNIT <= UNIT * LIMIT) by (nonlinear_arith)
                requires
                    0 <= self@ <= LIMIT,
                    UNIT == 1_000_000_000_000,
            ;
            let r: u128 = isqrt((self.steps as u128) * (UNIT as u128));
            proof {
                lemma_isqrt_unique(self@ * UNIT, isqrt_of(self@ * UNIT), r as int);
            }
            Fixed::signed(r, false)
        }
    }

    fn magnitude(self) -> (r: Self) {
        proof {
            use_type_invariant(&self);
        }
        Fixed::signed(size_of(self.steps), false)
    }

    fn negative(self) -> (r: bool) {
        self.steps < 0
    }

    fn floor(self) -> (r: usize) {
        proof {
            use_type_invariant(&self);
        }
        if self.steps <= 0 {
            0
        } else {
            let whole: u128 = (self.steps as u128) / (UNIT as u128);
            if whole > usize::MAX as u128 {
                usize::MAX
            } else {
                whole as usize
            }
        }
    }

    fn below(self, rhs: Self) -> (r: bool) {
        self.steps < rhs.steps
    }

    fn at_most(self, rhs: Self) -> (r: bool) {
        self.steps <= rhs.steps
    }

    fn rank(self) -> (r: i128) {
        self.steps
    }

    fn infinity() -> (r: Self) {
        Fixed { steps: LIMIT }
    }

    fn from_decimal(mantissa: i128, scale: u32) -> (r: Self) {
        let negative: bool = mantissa < 0;
        let size: u128 = if negative {
            (-mantissa) as u128
        } else {
            mantissa as u128
        };
        if scale <= 12 {
            let p: u128 = power_of_ten(12 - scale);
            assert(abs_of(mantissa * p) == size * p && (mantissa * p < 0) == (negative && p > 0))
                by (nonlinear_arith)
                requires
                    size == abs_of(mantissa as int),
                    negative == (mantissa < 0),
                    p >= 0,
            ;
            match size.checked_mul(p) {
                Some(steps) => Fixed::signed(steps, negative),
                None => Fixed::signed(LIMIT as u128, negative),
            }
        } else {
            let p: u128 = power_of_ten(scale - 12);
            assert(0int / (p as int) == 0);
            Fixed::signed(size / p, negative)
        }
    }

    fn text(self) -> (r: String) {
        if self.steps >= LIMIT {
            "inf".to_string()
        } else if self.steps <= -LIMIT {
            "-inf".to_string()
        } else {
            self.decimal()
        }
    }

    fn json(self) -> (r: String) {
        if self.is_boundless() {
            "null".to_string()
        } else {
            self.decimal()
        }
    }
}

/// A whole number in range has its steps.
proof fn lemma_small(n: int)
    requires
        -1_000_000 <= n <= 1_000_000,
    ensures
        cut(n * UNIT, 1) == n * UNIT,
        Fixed::of(cut(n * UNIT, 1))@ == n * UNIT,
        -LIMIT < n * UNIT < LIMIT,
{
    assert(-LIMIT < n * UNIT < LIMIT) by (nonlinear_arith)
        requires
            -1_000_000 <= n <= 1_000_000,
            UNIT == 1_000_000_000_000,
            LIMIT == 1_000_000_000_000_000_000_000_000,
    ;
    let x = n * UNIT;
    assert(abs_of(1) == 1);
    assert(abs_of(x) / 1 == abs_of(x));
    Fixed::lemma_of(cut(x, 1));
}

/// Cutting off keeps the order.
proof fn lemma_cut_ordered(a: int, b: int, c: int)
    requires
        a <= b,
        c > 0,
    ensures
        cut(a, c) <= cut(b, c),
{
    if a >= 0 {
        lemma_div_is_ordered(a, b, c);
    } else if b < 0 {
        lemma_div_is_ordered(-b, -a, c);
    } else {
        lemma_div_pos_is_pos(-a, c);
        lemma_div_pos_is_pos(b, c);
    }
}

/// `10^n`.
fn power_of_ten(n: u32) -> (r: u128)
    requires
        n <= 16,
    ensures
        r == ten_to(n as int),
        1 <= r <= 10_000_000_000_000_000,
{
    let mut p: u128 = 1;
    let mut i: u32 = 0;
    proof {
        reveal_with_fuel(ten_to, 17);
    }
    while i < n
        invariant
            i <= n <= 16,
            p == ten_to(i as int),
            1 <= p,
            ten_to(16) == 10_000_000_000_000_000,
            p * ten_to(16 - i) == ten_to(16),
            forall|k: int| 0 <= k <= 16 ==> #[trigger] ten_to(k) >= 1,
        decreases n - i,
    {
        assert(p * ten_to(16 - i) == (p * 10) * ten_to(16 - (i + 1))) by (nonlinear_arith)
            requires
                ten_to(16 - i) == 10 * ten_to(16 - (i + 1)),
        ;
        assert(p * 10 <= (p * 10) * ten_to(16 - (i + 1))) by (nonlinear_arith)
            requires
                ten_to(16 - (i + 1)) >= 1,
                p >= 1,
        ;
        p = p * 10;
        i = i + 1;
    }
    assert(p <= p * ten_to(16 - i)) by (nonlinear_arith)
        requires
            ten_to(16 - i) >= 1,
            p >= 1,
    ;
    p
}

} // verus!
