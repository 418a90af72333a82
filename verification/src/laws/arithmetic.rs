//! Products and squares of real numbers.
use vstd::prelude::*;

#[allow(unused_imports)]
use crate::reals::lemma_quotient_is;

verus! {

pub proof fn lemma_spread_out(c: real, x: real, y: real)
    ensures
        c * (x + y) == c * x + c * y,
        c * (x - y) == c * x - c * y,
        (x + y) * c == x * c + y * c,
{
    assert(c * (x + y) == c * x + c * y) by (nonlinear_arith);
    assert(c * (x - y) == c * x - c * y) by (nonlinear_arith);
    assert((x + y) * c == x * c + y * c) by (nonlinear_arith);
}

pub proof fn lemma_times_zero(x: real)
    ensures
        x * (0 as real) == 0 as real,
        (0 as real) * x == 0 as real,
{
    assert(x * (0 as real) == 0 as real) by (nonlinear_arith);
    assert((0 as real) * x == 0 as real) by (nonlinear_arith);
}

pub proof fn lemma_times_one(x: real)
    ensures
        x * (1 as real) == x,
        (1 as real) * x == x,
{
    assert(x * (1 as real) == x) by (nonlinear_arith);
    assert((1 as real) * x == x) by (nonlinear_arith);
}

pub proof fn lemma_swap(x: real, y: real)
    ensures
        x * y == y * x,
        x * (-y) == -(x * y),
{
    assert(x * y == y * x) by (nonlinear_arith);
    assert(x * (-y) == -(x * y)) by (nonlinear_arith);
}

pub proof fn lemma_regroup(x: real, y: real, z: real)
    ensures
        (x * y) * z == x * (y * z),
        x * (y * z) == y * (x * z),
{
    assert((x * y) * z == x * (y * z)) by (nonlinear_arith);
    assert(x * (y * z) == y * (x * z)) by (nonlinear_arith);
}

/// The square of a product.
pub proof fn lemma_product_squared(x: real, y: real)
    ensures
        (x * y) * (x * y) == (x * x) * (y * y),
{
    lemma_regroup(x, y, x * y);
    lemma_regroup(y, x, y);
    lemma_regroup(x, x, y * y);
}

/// The square of a sum.
pub proof fn lemma_sum_squared(x: real, y: real)
    ensures
        (x + y) * (x + y) == x * x + 2 as real * (x * y) + y * y,
{
    lemma_spread_out(x + y, x, y);
    lemma_spread_out(x, x, y);
    lemma_spread_out(y, x, y);
    lemma_swap(x, y);
}

pub proof fn lemma_not_zero(x: real, y: real)
    requires
        x != 0 as real,
        y != 0 as real,
    ensures
        x * y != 0 as real,
{
    if x * y == 0 as real {
        lemma_quotient_is(0 as real, y, x);
        lemma_times_zero(y);
        lemma_quotient_is(0 as real, y, 0 as real);
    }
}

/// A product with a number above zero keeps the sign.
pub proof fn lemma_product_sign(r: real, d: real)
    requires
        d > 0 as real,
    ensures
        r * d < 0 as real <==> r < 0 as real,
        r * d > 0 as real <==> r > 0 as real,
{
    if r > 0 as real {
        assert(r * d > 0 as real) by (nonlinear_arith)
            requires
                r > 0 as real,
                d > 0 as real,
        ;
    } else if r < 0 as real {
        assert(r * d < 0 as real) by (nonlinear_arith)
            requires
                r < 0 as real,
                d > 0 as real,
        ;
    } else {
        lemma_times_zero(d);
    }
}

pub proof fn lemma_square_not_negative(x: real)
    ensures
        x * x >= 0 as real,
        x != 0 as real ==> x * x > 0 as real,
{
    if x > 0 as real {
        lemma_product_sign(x, x);
    } else if x < 0 as real {
        lemma_product_sign(x, -x);
        lemma_swap(x, x);
    } else {
        lemma_times_zero(x);
    }
}

pub proof fn lemma_cancel(x: real, y: real, k: real)
    requires
        k != 0 as real,
        x * k == y * k,
    ensures
        x == y,
{
    lemma_quotient_is(y * k, k, x);
    lemma_quotient_is(y * k, k, y);
}

/// Numbers with the same square differ in the sign at most.
pub proof fn lemma_same_square(x: real, y: real)
    requires
        x * x == y * y,
    ensures
        x == y || x == -y,
{
    lemma_spread_out(x - y, x, y);
    lemma_swap(x - y, x);
    lemma_swap(x - y, y);
    lemma_spread_out(x, x, y);
    lemma_spread_out(y, x, y);
    lemma_swap(x, y);
    assert((x - y) * (x + y) == x * x - y * y);
    if x - y != 0 as real && x + y != 0 as real {
        lemma_not_zero(x - y, x + y);
    }
}

/// One more number to `n` numbers with the sum `s` and the squares `q`: `n` times
/// the squares stay as large as the square of the sum.
pub proof fn lemma_spread_step(n: real, s: real, q: real, y: real)
    requires
        n >= 0 as real,
        n * q - s * s >= 0 as real,
        n == 0 as real ==> s == 0 as real && q == 0 as real,
    ensures
        (n + 1 as real) * (q + y * y) - (s + y) * (s + y) >= 0 as real,
{
    let yy = y * y;
    let e = n * yy + q - 2 as real * (s * y);
    lemma_spread_out(q + yy, n, 1 as real);
    lemma_spread_out(n, q, yy);
    lemma_times_one(q + yy);
    lemma_sum_squared(s, y);
    assert((n + 1 as real) * (q + yy) - (s + y) * (s + y) == (n * q - s * s) + e);
    if n == 0 as real {
        lemma_times_zero(yy);
        lemma_times_zero(y);
    } else {
        let d = n * y - s;
        lemma_square_not_negative(d);
        lemma_sum_squared(n * y, -s);
        lemma_product_squared(n, y);
        lemma_swap(n * y, s);
        lemma_swap(-s, s);
        lemma_swap(s, -s);
        lemma_regroup(n, n, yy);
        lemma_regroup(n, y, s);
        lemma_swap(y, s);
        let sy = s * y;
        lemma_spread_out(n, n * yy + q, 2 as real * sy);
        lemma_spread_out(n, n * yy, q);
        lemma_regroup(n, 2 as real, sy);
        assert(n * e == d * d + (n * q - s * s));
        if e < 0 as real {
            lemma_product_sign(e, n);
            lemma_swap(e, n);
        }
    }
}

} // verus!
