//! Numbers read as real numbers, and sums of real numbers.
use vstd::prelude::*;

#[allow(unused_imports)]
use crate::number::{accumulate, count_spec, eps_spec, one_spec, total_spec, zero_spec, Real};

verus! {

/// Reads the numbers of a type as real numbers.
pub type Reading<T> = spec_fn(T) -> real;

/// The size of a real number.
pub open spec fn size(x: real) -> real {
    if x < 0 as real {
        -x
    } else {
        x
    }
}

/// `num / den` as a real number.
pub open spec fn fraction(num: int, den: int) -> real {
    num as real / den as real
}

/// Does the type compute exactly, when its numbers are read like this? Each
/// operation gives what the operation on real numbers gives, and comparisons
/// are those of real numbers. The real numbers themselves do, with a number that
/// is large enough in the place of the infinite one.
#[verifier::opaque]
pub open spec fn exact<T: Real>(v: Reading<T>) -> bool {
    &&& forall|num: i64, den: i64|
        den > 0 ==> v(#[trigger] T::ratio_spec(num, den)) == fraction(num as int, den as int)
    &&& forall|a: T, b: T| v(#[trigger] a.plus_spec(b)) == v(a) + v(b)
    &&& forall|a: T, b: T| v(#[trigger] a.minus_spec(b)) == v(a) - v(b)
    &&& forall|a: T, b: T| v(#[trigger] a.times_spec(b)) == v(a) * v(b)
    &&& forall|a: T, b: T|
        v(b) != 0 as real ==> v(#[trigger] a.over_spec(b)) == v(a) / v(b)
    &&& forall|a: T|
        v(a) >= 0 as real ==> v(#[trigger] a.root_spec()) >= 0 as real && v(a.root_spec()) * v(
            a.root_spec(),
        ) == v(a)
    &&& forall|a: T| v(#[trigger] a.magnitude_spec()) == size(v(a))
    &&& forall|a: T| #[trigger] a.negative_spec() <==> v(a) < 0 as real
    &&& forall|a: T, b: T| #[trigger] a.below_spec(b) <==> v(a) < v(b)
    &&& forall|a: T, b: T| #[trigger] a.at_most_spec(b) <==> v(a) <= v(b)
    &&& forall|a: T|
        0 as real <= v(a) < usize::MAX as real ==> (#[trigger] a.floor_spec()) as real <= v(a)
            && v(a) < a.floor_spec() as real + 1 as real
}

/// Do numbers that read as the same real number not differ?
#[verifier::opaque]
pub open spec fn faithful<T>(v: Reading<T>) -> bool {
    forall|a: T, b: T| #[trigger] v(a) == #[trigger] v(b) ==> a == b
}

pub proof fn lemma_same_number<T>(v: Reading<T>, a: T, b: T)
    requires
        faithful(v),
        v(a) == v(b),
    ensures
        a == b,
{
    reveal(faithful);
}

pub proof fn lemma_ratio<T: Real>(v: Reading<T>, num: i64, den: i64)
    requires
        exact(v),
        den > 0,
    ensures
        v(T::ratio_spec(num, den)) == fraction(num as int, den as int),
{
    reveal(exact);
}

pub proof fn lemma_ops<T: Real>(v: Reading<T>, a: T, b: T)
    requires
        exact(v),
    ensures
        v(a.plus_spec(b)) == v(a) + v(b),
        v(a.minus_spec(b)) == v(a) - v(b),
        v(a.times_spec(b)) == v(a) * v(b),
        v(b) != 0 as real ==> v(a.over_spec(b)) == v(a) / v(b),
        v(a.magnitude_spec()) == size(v(a)),
        a.below_spec(b) <==> v(a) < v(b),
        a.at_most_spec(b) <==> v(a) <= v(b),
{
    reveal(exact);
}

/// A root is not below zero and gives the number when multiplied by itself.
pub proof fn lemma_root<T: Real>(v: Reading<T>, a: T)
    requires
        exact(v),
        v(a) >= 0 as real,
    ensures
        v(a.root_spec()) >= 0 as real,
        v(a.root_spec()) * v(a.root_spec()) == v(a),
{
    reveal(exact);
}

/// A number that is not below zero is rounded down.
pub proof fn lemma_floor<T: Real>(v: Reading<T>, a: T)
    requires
        exact(v),
        0 as real <= v(a),
        v(a) < usize::MAX as real,
    ensures
        a.floor_spec() as real <= v(a),
        v(a) < a.floor_spec() as real + 1 as real,
{
    reveal(exact);
}

/// The sign.
pub proof fn lemma_sign<T: Real>(v: Reading<T>, a: T)
    requires
        exact(v),
    ensures
        a.negative_spec() <==> v(a) < 0 as real,
{
    reveal(exact);
}

/// A quotient times the divisor is the dividend.
pub proof fn lemma_divide(x: real, y: real)
    requires
        y != 0 as real,
    ensures
        (x / y) * y == x,
{
    assert((x / y) * y == x) by (nonlinear_arith)
        requires
            y != 0 as real,
    ;
}

/// Zero, one and the smallest distance.
pub proof fn lemma_constants<T: Real>(v: Reading<T>)
    requires
        exact(v),
    ensures
        v(zero_spec::<T>()) == 0 as real,
        v(one_spec::<T>()) == 1 as real,
        v(eps_spec::<T>()) == fraction(1, 1_000_000_000_000),
        v(eps_spec::<T>()) > 0 as real,
{
    lemma_ratio(v, 0, 1);
    lemma_ratio(v, 1, 1);
    lemma_ratio(v, 1, 1_000_000_000_000);
    assert(fraction(0, 1) == 0 as real) by (nonlinear_arith);
    assert(fraction(1, 1) == 1 as real) by (nonlinear_arith);
    assert(fraction(1, 1_000_000_000_000) > 0 as real) by (nonlinear_arith);
}

/// A count reads as itself.
pub proof fn lemma_count<T: Real>(v: Reading<T>, n: int)
    requires
        exact(v),
        0 <= n <= i64::MAX,
    ensures
        v(count_spec::<T>(n)) == n as real,
{
    lemma_ratio(v, n as i64, 1);
    assert(fraction(n, 1) == n as real) by (nonlinear_arith);
}

/// What gives the dividend when it is multiplied by the divisor is the quotient.
pub proof fn lemma_quotient_is(x: real, y: real, q: real)
    requires
        y != 0 as real,
        q * y == x,
    ensures
        x / y == q,
{
    assert(x / y == q) by (nonlinear_arith)
        requires
            y != 0 as real,
            q * y == x,
    ;
}

/// `f(0) + f(1) + .. + f(n - 1)`.
pub open spec fn big_sum(f: spec_fn(int) -> real, n: int) -> real
    decreases n,
{
    if n <= 0 {
        0 as real
    } else {
        big_sum(f, n - 1) + f(n - 1)
    }
}

/// Sums of the same terms are the same.
pub proof fn lemma_sum_same(f: spec_fn(int) -> real, g: spec_fn(int) -> real, n: int)
    requires
        forall|i: int| 0 <= i < n ==> #[trigger] f(i) == g(i),
    ensures
        big_sum(f, n) == big_sum(g, n),
    decreases n,
{
    if n > 0 {
        lemma_sum_same(f, g, n - 1);
        assert(f(n - 1) == g(n - 1));
    }
}

/// A sum of sums.
pub proof fn lemma_sum_plus(
    f: spec_fn(int) -> real,
    g: spec_fn(int) -> real,
    h: spec_fn(int) -> real,
    n: int,
)
    requires
        forall|i: int| 0 <= i < n ==> #[trigger] h(i) == f(i) + g(i),
    ensures
        big_sum(h, n) == big_sum(f, n) + big_sum(g, n),
    decreases n,
{
    if n > 0 {
        lemma_sum_plus(f, g, h, n - 1);
        assert(h(n - 1) == f(n - 1) + g(n - 1));
    }
}

/// A sum of differences.
pub proof fn lemma_sum_minus(
    f: spec_fn(int) -> real,
    g: spec_fn(int) -> real,
    h: spec_fn(int) -> real,
    n: int,
)
    requires
        forall|i: int| 0 <= i < n ==> #[trigger] h(i) == f(i) - g(i),
    ensures
        big_sum(h, n) == big_sum(f, n) - big_sum(g, n),
    decreases n,
{
    if n > 0 {
        lemma_sum_minus(f, g, h, n - 1);
        assert(h(n - 1) == f(n - 1) - g(n - 1));
    }
}

/// A sum of multiples.
pub proof fn lemma_sum_scaled(c: real, f: spec_fn(int) -> real, h: spec_fn(int) -> real, n: int)
    requires
        forall|i: int| 0 <= i < n ==> #[trigger] h(i) == c * f(i),
    ensures
        big_sum(h, n) == c * big_sum(f, n),
    decreases n,
{
    if n > 0 {
        lemma_sum_scaled(c, f, h, n - 1);
        assert(h(n - 1) == c * f(n - 1));
        let a = big_sum(f, n - 1);
        let b = f(n - 1);
        assert(c * a + c * b == c * (a + b)) by (nonlinear_arith);
    } else {
        assert(c * (0 as real) == 0 as real) by (nonlinear_arith);
    }
}

/// A sum with one term.
pub proof fn lemma_sum_single(f: spec_fn(int) -> real, n: int, k: int)
    requires
        0 <= k < n,
        forall|i: int| 0 <= i < n && i != k ==> #[trigger] f(i) == 0 as real,
    ensures
        big_sum(f, n) == f(k),
    decreases n,
{
    if k == n - 1 {
        lemma_sum_zero(f, n - 1);
    } else {
        lemma_sum_single(f, n - 1, k);
        assert(f(n - 1) == 0 as real);
    }
}

/// A sum of zeros.
pub proof fn lemma_sum_zero(f: spec_fn(int) -> real, n: int)
    requires
        forall|i: int| 0 <= i < n ==> #[trigger] f(i) == 0 as real,
    ensures
        big_sum(f, n) == 0 as real,
    decreases n,
{
    if n > 0 {
        lemma_sum_zero(f, n - 1);
        assert(f(n - 1) == 0 as real);
    }
}

/// A sum of numbers that are not below zero.
pub proof fn lemma_sum_not_negative(f: spec_fn(int) -> real, n: int)
    requires
        forall|i: int| 0 <= i < n ==> #[trigger] f(i) >= 0 as real,
    ensures
        big_sum(f, n) >= 0 as real,
    decreases n,
{
    if n > 0 {
        lemma_sum_not_negative(f, n - 1);
        assert(f(n - 1) >= 0 as real);
    }
}

/// Row `i` of a table.
pub open spec fn row_of(f: spec_fn(int, int) -> real, i: int) -> spec_fn(int) -> real {
    |j: int| f(i, j)
}

/// Column `j` of a table.
pub open spec fn column_of(f: spec_fn(int, int) -> real, j: int) -> spec_fn(int) -> real {
    |i: int| f(i, j)
}

/// A table is summed up by rows or by columns.
pub proof fn lemma_sum_swap(f: spec_fn(int, int) -> real, m: int, n: int)
    requires
        0 <= m,
    ensures
        big_sum(|i: int| big_sum(row_of(f, i), n), m) == big_sum(
            |j: int| big_sum(column_of(f, j), m),
            n,
        ),
    decreases m,
{
    let by_row = |i: int| big_sum(row_of(f, i), n);
    let by_column = |j: int| big_sum(column_of(f, j), m);
    if m == 0 {
        lemma_sum_zero(by_column, n);
    } else {
        lemma_sum_swap(f, m - 1, n);
        let less = |j: int| big_sum(column_of(f, j), m - 1);
        lemma_sum_plus(less, row_of(f, m - 1), by_column, n);
        let shorter = |i: int| big_sum(row_of(f, i), n);
        assert(big_sum(by_row, m) == big_sum(shorter, m - 1) + by_row(m - 1));
    }
}

/// What a list of numbers reads as.
pub open spec fn read<T>(v: Reading<T>, s: Seq<T>) -> spec_fn(int) -> real {
    |i: int| v(s[i])
}

/// Numbers that are added up read as the sum of what they read as.
pub proof fn lemma_accumulate<T: Real>(v: Reading<T>, init: T, s: Seq<T>)
    requires
        exact(v),
    ensures
        v(accumulate(init, s)) == v(init) + big_sum(read(v, s), s.len() as int),
    decreases s.len(),
{
    if s.len() > 0 {
        let front = s.drop_last();
        lemma_accumulate(v, init, front);
        lemma_ops(v, accumulate(init, front), s.last());
        lemma_sum_same(read(v, front), read(v, s), front.len() as int);
    }
}

/// Numbers that are added up from the first on.
pub proof fn lemma_total<T: Real>(v: Reading<T>, s: Seq<T>)
    requires
        exact(v),
        s.len() >= 1,
    ensures
        v(total_spec(s)) == big_sum(read(v, s), s.len() as int),
{
    lemma_accumulate(v, s[0], s.skip(1));
    lemma_sum_front(read(v, s), read(v, s.skip(1)), s.len() - 1);
}

/// The first term of a sum set apart.
proof fn lemma_sum_front(f: spec_fn(int) -> real, g: spec_fn(int) -> real, n: int)
    requires
        n >= 0,
        forall|i: int| 0 <= i < n ==> #[trigger] g(i) == f(i + 1),
    ensures
        big_sum(f, n + 1) == f(0) + big_sum(g, n),
    decreases n,
{
    if n > 0 {
        lemma_sum_front(f, g, n - 1);
        assert(g(n - 1) == f(n));
    } else {
        assert(big_sum(f, 0) == 0 as real);
    }
}

} // verus!
