//! What a ridge fit with coefficients not below zero is: stationarity of the
//! penalised squares, over the samples themselves.
use vstd::prelude::*;

#[allow(unused_imports)]
use crate::algebra::{dot, is_field, lemma_solution_solves, lemma_solution_unique, pivots_hold};
#[allow(unused_imports)]
use crate::number::{accumulate, count_spec, one_spec, zero_spec, Real};
#[allow(unused_imports)]
use crate::reals::{
    big_sum, column_of, exact, faithful, lemma_accumulate, lemma_constants, lemma_count,
    lemma_divide, lemma_ops, lemma_quotient_is, lemma_ratio, lemma_same_number, lemma_sum_minus,
    lemma_sum_plus, lemma_sum_same, lemma_sum_scaled, lemma_sum_single, lemma_sum_swap, fraction,
    read, row_of, Reading,
};
#[allow(unused_imports)]
use crate::ridge::{
    chosen, dropped, scattered, some_dropped, still_active, tiny_spec, Samples, ROUNDS,
};
#[allow(unused_imports)]
use crate::types::FEATURE_COUNT;

verus! {

/// How many samples have both factors and an outcome.
pub open spec fn used<T>(s: Samples<T>) -> int {
    if s.xs.len() <= s.ys.len() {
        s.xs.len() as int
    } else {
        s.ys.len() as int
    }
}

/// The mean of factor `k`.
pub open spec fn mean_x<T: Real>(v: Reading<T>, s: Samples<T>, k: int) -> real {
    big_sum(|i: int| v(s.xs[i]@[k]), used(s)) / s.xs.len() as real
}

/// The mean outcome.
pub open spec fn mean_y<T: Real>(v: Reading<T>, s: Samples<T>) -> real {
    big_sum(|i: int| v(s.ys[i]), used(s)) / s.xs.len() as real
}

/// Factor `k` of sample `i`, less its mean.
pub open spec fn off_x<T: Real>(v: Reading<T>, s: Samples<T>, i: int, k: int) -> real {
    v(s.xs[i]@[k]) - mean_x(v, s, k)
}

/// The outcome of sample `i`, less its mean.
pub open spec fn off_y<T: Real>(v: Reading<T>, s: Samples<T>, i: int) -> real {
    v(s.ys[i]) - mean_y(v, s)
}

/// What coefficients make of sample `i`: the sum over all factors.
pub open spec fn explained<T: Real>(
    v: Reading<T>,
    s: Samples<T>,
    beta: Seq<T>,
    i: int,
) -> real {
    big_sum(|j: int| v(beta[j]) * off_x(v, s, i, j), FEATURE_COUNT as int)
}

/// How factor `k` goes with what the coefficients leave unexplained.
pub open spec fn remainder<T: Real>(v: Reading<T>, s: Samples<T>, beta: Seq<T>, k: int) -> real {
    big_sum(
        |i: int| off_x(v, s, i, k) * (off_y(v, s, i) - explained(v, s, beta, i)),
        used(s),
    )
}

/// The squares of what is left unexplained, and of the distance from the prior
/// times `lambda`, do not change to the first order with coefficient `k`.
pub open spec fn stationary<T: Real>(
    v: Reading<T>,
    s: Samples<T>,
    prior: Seq<T>,
    lambda: T,
    beta: Seq<T>,
    k: int,
) -> bool {
    remainder(v, s, beta, k) == v(lambda) * (v(beta[k]) - v(prior[k]))
}

/// Is no pivot taken for zero, whichever coefficients are in use?
pub open spec fn solvable<T: Real>(s: Samples<T>, prior: Seq<T>, lambda: T) -> bool {
    forall|active: Seq<bool>|
        active.len() == FEATURE_COUNT ==> pivots_hold(
            #[trigger] s.moments().equations(prior, lambda, active),
            chosen(active).len() as int,
        )
}

/// Numbers that are read exactly and do not differ where they read the same
/// obey the laws of a field.
pub proof fn lemma_exact_is_field<T: Real>(v: Reading<T>)
    requires
        exact(v),
        faithful(v),
    ensures
        is_field::<T>(),
{
    lemma_constants(v);
    let z = zero_spec::<T>();
    assert forall|a: T, b: T| #[trigger] a.plus_spec(b) == b.plus_spec(a) by {
        lemma_ops(v, a, b);
        lemma_ops(v, b, a);
        lemma_same_number(v, a.plus_spec(b), b.plus_spec(a));
    }
    assert forall|a: T, b: T, c: T| #[trigger] a.plus_spec(b).plus_spec(c) == a.plus_spec(
        b.plus_spec(c),
    ) by {
        lemma_ops(v, a, b);
        lemma_ops(v, a.plus_spec(b), c);
        lemma_ops(v, b, c);
        lemma_ops(v, a, b.plus_spec(c));
        lemma_same_number(v, a.plus_spec(b).plus_spec(c), a.plus_spec(b.plus_spec(c)));
    }
    assert forall|a: T| #[trigger] a.plus_spec(zero_spec()) == a by {
        lemma_ops(v, a, z);
        lemma_same_number(v, a.plus_spec(z), a);
    }
    assert forall|a: T, b: T| #[trigger] a.minus_spec(b).plus_spec(b) == a by {
        lemma_ops(v, a, b);
        lemma_ops(v, a.minus_spec(b), b);
        lemma_same_number(v, a.minus_spec(b).plus_spec(b), a);
    }
    assert forall|a: T, b: T| #[trigger] a.plus_spec(b).minus_spec(b) == a by {
        lemma_ops(v, a, b);
        lemma_ops(v, a.plus_spec(b), b);
        lemma_same_number(v, a.plus_spec(b).minus_spec(b), a);
    }
    assert forall|a: T, b: T| #[trigger] a.times_spec(b) == b.times_spec(a) by {
        lemma_ops(v, a, b);
        lemma_ops(v, b, a);
        let (x, y) = (v(a), v(b));
        assert(x * y == y * x) by (nonlinear_arith);
        lemma_same_number(v, a.times_spec(b), b.times_spec(a));
    }
    assert forall|a: T, b: T, c: T| #[trigger] a.times_spec(b).times_spec(c) == a.times_spec(
        b.times_spec(c),
    ) by {
        lemma_ops(v, a, b);
        lemma_ops(v, a.times_spec(b), c);
        lemma_ops(v, b, c);
        lemma_ops(v, a, b.times_spec(c));
        let (x, y, w) = (v(a), v(b), v(c));
        assert((x * y) * w == x * (y * w)) by (nonlinear_arith);
        lemma_same_number(v, a.times_spec(b).times_spec(c), a.times_spec(b.times_spec(c)));
    }
    assert forall|a: T, b: T, c: T| #[trigger] a.times_spec(b.plus_spec(c)) == a.times_spec(
        b,
    ).plus_spec(a.times_spec(c)) by {
        lemma_ops(v, b, c);
        lemma_ops(v, a, b.plus_spec(c));
        lemma_ops(v, a, b);
        lemma_ops(v, a, c);
        lemma_ops(v, a.times_spec(b), a.times_spec(c));
        let (x, y, w) = (v(a), v(b), v(c));
        assert(x * (y + w) == x * y + x * w) by (nonlinear_arith);
        lemma_same_number(
            v,
            a.times_spec(b.plus_spec(c)),
            a.times_spec(b).plus_spec(a.times_spec(c)),
        );
    }
    assert forall|a: T| #[trigger] a.times_spec(one_spec()) == a by {
        lemma_ops(v, a, one_spec());
        let x = v(a);
        assert(x * (1 as real) == x) by (nonlinear_arith);
        lemma_same_number(v, a.times_spec(one_spec()), a);
    }
    assert forall|a: T, b: T| b != zero_spec::<T>() implies #[trigger] a.over_spec(b).times_spec(
        b,
    ) == a by {
        if v(b) == 0 as real {
            lemma_same_number(v, b, z);
        }
        lemma_ops(v, a, b);
        lemma_ops(v, a.over_spec(b), b);
        lemma_divide(v(a), v(b));
        lemma_same_number(v, a.over_spec(b).times_spec(b), a);
    }
    assert forall|a: T, b: T| b != zero_spec::<T>() implies #[trigger] a.times_spec(b).over_spec(
        b,
    ) == a by {
        if v(b) == 0 as real {
            lemma_same_number(v, b, z);
        }
        lemma_ops(v, a, b);
        lemma_ops(v, a.times_spec(b), b);
        lemma_quotient_is(v(a) * v(b), v(b), v(a));
        lemma_same_number(v, a.times_spec(b).over_spec(b), a);
    }
    lemma_ops(v, z, z);
    lemma_ratio(v, 1, 1_000_000_000_000_000);
    assert(fraction(1, 1_000_000_000_000_000) > 0 as real) by (nonlinear_arith);
    lemma_ops(v, z.magnitude_spec(), tiny_spec());
    reveal(is_field);
}

/// The means and the centred values.
proof fn lemma_centred<T: Real>(v: Reading<T>, s: Samples<T>, i: int, k: int)
    requires
        exact(v),
        1 <= s.xs.len() <= i64::MAX,
        0 <= k < FEATURE_COUNT,
    ensures
        v(s.x_off(i, k)) == off_x(v, s, i, k),
        v(s.y_off(i)) == off_y(v, s, i),
{
    lemma_constants(v);
    lemma_count(v, s.xs.len() as int);
    let n = count_spec::<T>(s.xs.len() as int);
    lemma_accumulate(v, zero_spec(), s.factor(k));
    lemma_sum_same(read(v, s.factor(k)), |i: int| v(s.xs[i]@[k]), used(s));
    lemma_ops(v, accumulate(zero_spec(), s.factor(k)), n);
    let ys = s.ys.take(s.pairs() as int);
    lemma_accumulate(v, zero_spec(), ys);
    lemma_sum_same(read(v, ys), |i: int| v(s.ys[i]), used(s));
    lemma_ops(v, accumulate(zero_spec(), ys), n);
    lemma_ops(v, s.xs[i]@[k], s.x_mean(k));
    lemma_ops(v, s.ys[i], s.y_mean());
}

/// The moments as sums over the samples.
proof fn lemma_moments<T: Real>(v: Reading<T>, s: Samples<T>, k: int, j: int)
    requires
        exact(v),
        1 <= s.xs.len() <= i64::MAX,
        0 <= k < FEATURE_COUNT,
        0 <= j < FEATURE_COUNT,
    ensures
        v(s.moments().xtx[k][j]) == big_sum(
            |i: int| off_x(v, s, i, k) * off_x(v, s, i, j),
            used(s),
        ),
        v(s.moments().xty[k]) == big_sum(
            |i: int| off_x(v, s, i, k) * off_y(v, s, i),
            used(s),
        ),
{
    lemma_constants(v);
    lemma_accumulate(v, zero_spec(), s.cross(k, j));
    let f = |i: int| off_x(v, s, i, k) * off_x(v, s, i, j);
    assert forall|i: int| 0 <= i < used(s) implies #[trigger] read(v, s.cross(k, j))(i) == f(i) by {
        lemma_centred(v, s, i, k);
        lemma_centred(v, s, i, j);
        lemma_ops(v, s.x_off(i, k), s.x_off(i, j));
    }
    lemma_sum_same(read(v, s.cross(k, j)), f, used(s));
    lemma_accumulate(v, zero_spec(), s.with_outcome(k));
    let g = |i: int| off_x(v, s, i, k) * off_y(v, s, i);
    assert forall|i: int| 0 <= i < used(s) implies #[trigger] read(v, s.with_outcome(k))(i) == g(
        i,
    ) by {
        lemma_centred(v, s, i, k);
        lemma_ops(v, s.x_off(i, k), s.y_off(i));
    }
    lemma_sum_same(read(v, s.with_outcome(k)), g, used(s));
}

/// The terms on the left-hand side of the equation for factor `k`.
spec fn drawn_terms<T: Real>(
    v: Reading<T>,
    s: Samples<T>,
    lambda: T,
    beta: Seq<T>,
    k: int,
) -> spec_fn(int) -> real {
    |j: int|
        (v(s.moments().xtx[k][j]) + if k == j {
            v(lambda)
        } else {
            0 as real
        }) * v(beta[j])
}

/// The left-hand side of the equation for factor `k`.
spec fn drawn<T: Real>(v: Reading<T>, s: Samples<T>, lambda: T, beta: Seq<T>, k: int) -> real {
    big_sum(drawn_terms(v, s, lambda, beta, k), FEATURE_COUNT as int)
}

/// The equation for factor `k` says that the fit is stationary in it.
proof fn lemma_equation_is_stationary<T: Real>(
    v: Reading<T>,
    s: Samples<T>,
    prior: Seq<T>,
    lambda: T,
    beta: Seq<T>,
    k: int,
)
    requires
        exact(v),
        1 <= s.xs.len() <= i64::MAX,
        0 <= k < FEATURE_COUNT,
    ensures
        stationary(v, s, prior, lambda, beta, k) <==> drawn(v, s, lambda, beta, k) == v(
            s.moments().xty[k],
        ) + v(lambda) * v(prior[k]),
{
    let n = used(s);
    let c = FEATURE_COUNT as int;
    let table = |i: int, j: int| off_x(v, s, i, k) * (v(beta[j]) * off_x(v, s, i, j));
    let by_sample = |i: int| off_x(v, s, i, k) * explained(v, s, beta, i);
    let pure = |j: int| v(s.moments().xtx[k][j]) * v(beta[j]);
    let penalty = |j: int|
        (if k == j {
            v(lambda)
        } else {
            0 as real
        }) * v(beta[j]);
    let all = drawn_terms(v, s, lambda, beta, k);
    // by factors: the penalty apart
    assert forall|j: int| 0 <= j < c implies #[trigger] all(j) == pure(j) + penalty(j) by {
        let (a, b, d) = (v(s.moments().xtx[k][j]), v(beta[j]), if k == j {
            v(lambda)
        } else {
            0 as real
        });
        assert((a + d) * b == a * b + d * b) by (nonlinear_arith);
    }
    lemma_sum_plus(pure, penalty, all, c);
    assert forall|j: int| 0 <= j < c && j != k implies #[trigger] penalty(j) == 0 as real by {
        let b = v(beta[j]);
        assert((0 as real) * b == 0 as real) by (nonlinear_arith);
    }
    lemma_sum_single(penalty, c, k);
    // by samples: the sum over the factors is what the coefficients make of each
    assert forall|i: int| 0 <= i < n implies #[trigger] by_sample(i) == big_sum(
        row_of(table, i),
        c,
    ) by {
        lemma_sum_scaled(
            off_x(v, s, i, k),
            |j: int| v(beta[j]) * off_x(v, s, i, j),
            row_of(table, i),
            c,
        );
    }
    let rows = |i: int| big_sum(row_of(table, i), c);
    lemma_sum_same(by_sample, rows, n);
    lemma_sum_swap(table, n, c);
    let columns = |j: int| big_sum(column_of(table, j), n);
    assert forall|j: int| 0 <= j < c implies #[trigger] columns(j) == pure(j) by {
        lemma_moments(v, s, k, j);
        let f = |i: int| off_x(v, s, i, k) * off_x(v, s, i, j);
        let b = v(beta[j]);
        assert forall|i: int| 0 <= i < n implies #[trigger] column_of(table, j)(i) == b * f(i) by {
            let (p, q) = (off_x(v, s, i, k), off_x(v, s, i, j));
            assert(p * (b * q) == b * (p * q)) by (nonlinear_arith);
        }
        lemma_sum_scaled(b, f, column_of(table, j), n);
        let t = big_sum(f, n);
        assert(b * t == t * b) by (nonlinear_arith);
    }
    lemma_sum_same(columns, pure, c);
    // the rest is what is left unexplained
    lemma_moments(v, s, k, k);
    let with_y = |i: int| off_x(v, s, i, k) * off_y(v, s, i);
    let rest = |i: int| off_x(v, s, i, k) * (off_y(v, s, i) - explained(v, s, beta, i));
    assert forall|i: int| 0 <= i < n implies #[trigger] rest(i) == with_y(i) - by_sample(i) by {
        let (p, q, r) = (off_x(v, s, i, k), off_y(v, s, i), explained(v, s, beta, i));
        assert(p * (q - r) == p * q - p * r) by (nonlinear_arith);
    }
    lemma_sum_minus(with_y, by_sample, rest, n);
    let (l, b, p) = (v(lambda), v(beta[k]), v(prior[k]));
    assert(l * (b - p) == l * b - l * p) by (nonlinear_arith);
}

/// The sum of a row with the unknowns.
proof fn lemma_dot_read<T: Real>(v: Reading<T>, row: Seq<T>, x: Seq<T>, n: int)
    requires
        exact(v),
        0 <= n,
    ensures
        v(dot(row, x, n)) == big_sum(|q: int| v(row[q]) * v(x[q]), n),
    decreases n,
{
    lemma_constants(v);
    if n > 0 {
        lemma_dot_read(v, row, x, n - 1);
        lemma_ops(v, row[n - 1], x[n - 1]);
        lemma_ops(v, dot(row, x, n - 1), row[n - 1].times_spec(x[n - 1]));
    }
}

/// The places in use among the first ones stand first.
proof fn lemma_chosen_prefix(active: Seq<bool>, n: int)
    requires
        0 <= n <= active.len() <= FEATURE_COUNT,
    ensures
        chosen(active.take(n)).len() <= chosen(active).len(),
        forall|q: int|
            0 <= q < chosen(active.take(n)).len() ==> #[trigger] chosen(active)[q] == chosen(
                active.take(n),
            )[q],
        forall|q: int|
            0 <= q < chosen(active).len() ==> 0 <= #[trigger] chosen(active)[q] < active.len()
                && active[chosen(active)[q] as int],
    decreases active.len(),
{
    if active.len() > 0 {
        let front = active.drop_last();
        if n == active.len() {
            assert(active.take(n) =~= active);
            lemma_chosen_prefix(front, front.len() as int);
        } else {
            assert(front.take(n) =~= active.take(n));
            lemma_chosen_prefix(front, n);
        }
        assert forall|q: int| 0 <= q < chosen(active).len() implies 0 <= #[trigger] chosen(
            active,
        )[q] < active.len() && active[chosen(active)[q] as int] by {
            if q < chosen(front).len() {
                assert(chosen(active)[q] == chosen(front)[q]);
                assert(front[chosen(front)[q] as int] == active[chosen(front)[q] as int]);
            }
        }
    }
}

/// A place in use is found where as many as come before it stand before it.
proof fn lemma_chosen_at(active: Seq<bool>, k: int)
    requires
        0 <= k < active.len() <= FEATURE_COUNT,
        active[k],
    ensures
        chosen(active.take(k)).len() < chosen(active).len(),
        chosen(active)[chosen(active.take(k)).len() as int] == k,
{
    lemma_chosen_prefix(active, k + 1);
    assert(active.take(k + 1).drop_last() =~= active.take(k));
    assert(active.take(k + 1).last() == active[k]);
    let q = chosen(active.take(k)).len() as int;
    assert(chosen(active)[q] == chosen(active.take(k + 1))[q]);
}

/// A sum over the places in use is a sum over all places, where the others
/// count for nothing.
proof fn lemma_sum_chosen(
    active: Seq<bool>,
    g: spec_fn(int) -> real,
    f: spec_fn(int) -> real,
    n: int,
)
    requires
        0 <= n <= active.len() <= FEATURE_COUNT,
        forall|j: int|
            0 <= j < n ==> #[trigger] f(j) == if active[j] {
                g(chosen(active.take(j)).len() as int)
            } else {
                0 as real
            },
    ensures
        big_sum(g, chosen(active.take(n)).len() as int) == big_sum(f, n),
    decreases n,
{
    if n > 0 {
        lemma_sum_chosen(active, g, f, n - 1);
        assert(active.take(n).drop_last() =~= active.take(n - 1));
        assert(active.take(n).last() == active[n - 1]);
        assert(f(n - 1) == if active[n - 1] {
            g(chosen(active.take(n - 1)).len() as int)
        } else {
            0 as real
        });
    } else {
        assert(active.take(0) =~= Seq::<bool>::empty());
    }
}

/// Coefficients that solve the equations for those in use satisfy the equation
/// of each factor in use, with the sum over all factors.
proof fn lemma_row_read<T: Real>(
    v: Reading<T>,
    s: Samples<T>,
    prior: Seq<T>,
    lambda: T,
    active: Seq<bool>,
    sol: Seq<T>,
    k: int,
)
    requires
        exact(v),
        active.len() == FEATURE_COUNT,
        0 <= k < FEATURE_COUNT,
        active[k],
    ensures
        ({
            let e = s.moments().equations(prior, lambda, active);
            let p = chosen(active.take(k)).len() as int;
            &&& 0 <= p < e.b.len()
            &&& v(dot(e.a[p], sol, e.b.len() as int)) == drawn(
                v,
                s,
                lambda,
                scattered(active, sol),
                k,
            )
            &&& v(e.b[p]) == v(s.moments().xty[k]) + v(lambda) * v(prior[k])
        }),
{
    lemma_constants(v);
    let m = s.moments();
    let e = m.equations(prior, lambda, active);
    let idx = chosen(active);
    let p = chosen(active.take(k)).len() as int;
    let len = idx.len() as int;
    lemma_chosen_at(active, k);
    lemma_chosen_prefix(active, active.len() as int);
    lemma_dot_read(v, e.a[p], sol, len);
    let beta = scattered(active, sol);
    let g = |q: int| v(e.a[p][q]) * v(sol[q]);
    let f = drawn_terms(v, s, lambda, beta, k);
    assert forall|j: int| 0 <= j < FEATURE_COUNT implies #[trigger] f(j) == if active[j] {
        g(chosen(active.take(j)).len() as int)
    } else {
        0 as real
    } by {
        if active[j] {
            lemma_chosen_at(active, j);
            let q = chosen(active.take(j)).len() as int;
            assert(idx[q] == j);
            assert(idx[p] == k);
            assert(p == q <==> k == j);
            lemma_ops(v, m.xtx[k][j], lambda);
            assert(beta[j] == sol[q]);
        } else {
            let a = v(m.xtx[k][j]) + if k == j {
                v(lambda)
            } else {
                0 as real
            };
            assert(beta[j] == zero_spec::<T>());
            assert(a * (0 as real) == 0 as real) by (nonlinear_arith);
        }
    }
    assert(active.take(active.len() as int) =~= active);
    lemma_sum_chosen(active, g, f, active.len() as int);
    lemma_ops(v, lambda, prior[k]);
    lemma_ops(v, m.xty[k], lambda.times_spec(prior[k]));
}

/// Fewer coefficients are in use once one was dropped.
proof fn lemma_fewer<T: Real>(active: Seq<bool>, beta: Seq<T>)
    requires
        active.len() <= FEATURE_COUNT,
    ensures
        chosen(still_active(active, beta)).len() <= chosen(active).len(),
        some_dropped(active, beta) ==> chosen(still_active(active, beta)).len() < chosen(
            active,
        ).len(),
    decreases active.len(),
{
    if active.len() > 0 {
        let front = active.drop_last();
        let next = still_active(active, beta);
        lemma_fewer(front, beta);
        assert(next.drop_last() =~= still_active(front, beta)) by {
            assert forall|k: int| 0 <= k < front.len() implies next[k] == still_active(
                front,
                beta,
            )[k] by {
                assert(dropped(active, beta, k) == dropped(front, beta, k));
            }
        }
        let last = active.len() - 1;
        if some_dropped(active, beta) && !dropped(active, beta, last) {
            let k = choose|k: int| 0 <= k < active.len() && #[trigger] dropped(active, beta, k);
            assert(dropped(front, beta, k));
        }
    }
}

/// Are these coefficients solved for with just these in use, none of them below
/// zero, and the others zero?
pub open spec fn settles<T: Real>(
    v: Reading<T>,
    s: Samples<T>,
    prior: Seq<T>,
    lambda: T,
    beta: Seq<T>,
    in_use: Seq<bool>,
) -> bool {
    &&& in_use.len() == FEATURE_COUNT
    &&& beta.len() == FEATURE_COUNT
    &&& forall|k: int|
        0 <= k < FEATURE_COUNT ==> {
            &&& v(#[trigger] beta[k]) >= 0 as real
            &&& in_use[k] ==> stationary(v, s, prior, lambda, beta, k)
            &&& !in_use[k] ==> v(beta[k]) == 0 as real
        }
}

proof fn lemma_fitted<T: Real>(
    v: Reading<T>,
    s: Samples<T>,
    prior: Seq<T>,
    lambda: T,
    active: Seq<bool>,
    rounds: int,
) -> (in_use: Seq<bool>)
    requires
        exact(v),
        faithful(v),
        1 <= s.xs.len() <= i64::MAX,
        solvable(s, prior, lambda),
        active.len() == FEATURE_COUNT,
        chosen(active).len() < rounds,
    ensures
        settles(
            v,
            s,
            prior,
            lambda,
            s.moments().fitted(prior, lambda, active, rounds),
            in_use,
        ),
        !some_dropped(active, s.moments().solved(prior, lambda, active)) ==> in_use == active,
    decreases rounds,
{
    lemma_constants(v);
    lemma_exact_is_field(v);
    let m = s.moments();
    let beta = m.solved(prior, lambda, active);
    if !some_dropped(active, beta) {
        let e = m.equations(prior, lambda, active);
        let n = chosen(active).len() as int;
        lemma_solution_solves(e, n);
        let fitted = m.fitted(prior, lambda, active, rounds);
        assert(fitted =~= beta) by {
            assert forall|k: int| 0 <= k < FEATURE_COUNT implies fitted[k] == beta[k] by {
                assert(!dropped(active, beta, k));
            }
        }
        assert forall|k: int| 0 <= k < FEATURE_COUNT implies {
            &&& v(#[trigger] fitted[k]) >= 0 as real
            &&& active[k] ==> stationary(v, s, prior, lambda, fitted, k)
            &&& !active[k] ==> v(fitted[k]) == 0 as real
        } by {
            assert(!dropped(active, beta, k));
            lemma_ops(v, beta[k], zero_spec::<T>());
            if active[k] {
                lemma_row_read(v, s, prior, lambda, active, e.solution(), k);
                let p = chosen(active.take(k)).len() as int;
                assert(dot(e.a[p], e.solution(), e.b.len() as int) == e.b[p]);
                lemma_equation_is_stationary(v, s, prior, lambda, fitted, k);
            }
        }
        active
    } else {
        lemma_fewer(active, beta);
        assert(rounds > 1);
        lemma_fitted(v, s, prior, lambda, still_active(active, beta), rounds - 1)
    }
}

/// All in use.
pub open spec fn all_of(n: nat) -> Seq<bool> {
    Seq::new(n, |k: int| true)
}

proof fn lemma_all_chosen(n: nat)
    requires
        n <= FEATURE_COUNT,
    ensures
        chosen(all_of(n)).len() == n,
        forall|q: int|
            0 <= q < n ==> #[trigger] chosen(all_of(n))[q] == q,
    decreases n,
{
    if n > 0 {
        let m = (n - 1) as nat;
        assert(all_of(n).drop_last() =~= all_of(m));
        lemma_all_chosen(m);
    }
}

/// Are all coefficients that are solved for at first not below zero?
pub open spec fn none_dropped<T: Real>(s: Samples<T>, prior: Seq<T>, lambda: T) -> bool {
    let all = all_of(FEATURE_COUNT as nat);
    !some_dropped(all, s.moments().solved(prior, lambda, all))
}

/// A fit is stationary in every factor in use, and the coefficients of the
/// others are zero. No coefficient is below zero, so the fit is stationary in
/// every factor whose coefficient is above zero. Where none is dropped, it is
/// stationary in all.
pub proof fn lemma_fit_is_stationary<T: Real>(
    v: Reading<T>,
    s: Samples<T>,
    prior: Seq<T>,
    lambda: T,
) -> (in_use: Seq<bool>)
    requires
        exact(v),
        faithful(v),
        1 <= s.xs.len() <= i64::MAX,
        solvable(s, prior, lambda),
    ensures
        settles(v, s, prior, lambda, s.beta(prior, lambda), in_use),
        forall|k: int|
            0 <= k < FEATURE_COUNT && v(#[trigger] s.beta(prior, lambda)[k]) > 0 as real
                ==> stationary(v, s, prior, lambda, s.beta(prior, lambda), k),
        none_dropped(s, prior, lambda) ==> forall|k: int|
            0 <= k < FEATURE_COUNT ==> in_use[k] && #[trigger] stationary(
                v,
                s,
                prior,
                lambda,
                s.beta(prior, lambda),
                k,
            ),
{
    lemma_constants(v);
    let all = all_of(FEATURE_COUNT as nat);
    lemma_all_chosen(FEATURE_COUNT as nat);
    assert(all =~= Seq::new(FEATURE_COUNT as nat, |k: int| true));
    let fitted = s.moments().fitted(prior, lambda, all, ROUNDS as int);
    let in_use = lemma_fitted(v, s, prior, lambda, all, ROUNDS as int);
    let beta = s.beta(prior, lambda);
    assert(beta =~= fitted) by {
        assert forall|k: int| 0 <= k < FEATURE_COUNT implies beta[k] == fitted[k] by {
            assert(v(fitted[k]) >= 0 as real);
            lemma_ops(v, fitted[k], fitted[k]);
            lemma_ops(v, zero_spec::<T>(), zero_spec::<T>());
            lemma_ops(v, fitted[k], zero_spec::<T>());
        }
    }
    in_use
}

/// Coefficients that are not below zero and in which the fit is stationary in
/// every factor are the ones that come out.
pub proof fn lemma_fit_is_found<T: Real>(
    v: Reading<T>,
    s: Samples<T>,
    prior: Seq<T>,
    lambda: T,
    b: Seq<T>,
)
    requires
        exact(v),
        faithful(v),
        1 <= s.xs.len() <= i64::MAX,
        solvable(s, prior, lambda),
        b.len() == FEATURE_COUNT,
        forall|k: int|
            0 <= k < FEATURE_COUNT ==> v(#[trigger] b[k]) >= 0 as real && stationary(
                v,
                s,
                prior,
                lambda,
                b,
                k,
            ),
    ensures
        s.beta(prior, lambda) == b,
{
    lemma_constants(v);
    lemma_exact_is_field(v);
    let all = all_of(FEATURE_COUNT as nat);
    lemma_all_chosen(FEATURE_COUNT as nat);
    let m = s.moments();
    let e = m.equations(prior, lambda, all);
    let n = FEATURE_COUNT as int;
    let spread = scattered(all, b);
    assert(spread =~= b) by {
        assert forall|k: int| 0 <= k < n implies spread[k] == b[k] by {
            assert(all.take(k) =~= all_of(k as nat));
            lemma_all_chosen(k as nat);
        }
    }
    assert forall|p: int| 0 <= p < e.b.len() implies dot(
        #[trigger] e.a[p],
        b,
        e.b.len() as int,
    ) == e.b[p] by {
        assert(all.take(p) =~= all_of(p as nat));
        lemma_all_chosen(p as nat);
        lemma_row_read(v, s, prior, lambda, all, b, p);
        assert(v(b[p]) >= 0 as real);
        lemma_equation_is_stationary(v, s, prior, lambda, b, p);
        lemma_same_number(v, dot(e.a[p], b, e.b.len() as int), e.b[p]);
    }
    lemma_solution_unique(e, n, b);
    let solved = m.solved(prior, lambda, all);
    assert(solved =~= b);
    assert forall|k: int| 0 <= k < n implies !#[trigger] dropped(all, solved, k) by {
        lemma_ops(v, b[k], zero_spec::<T>());
        assert(v(b[k]) >= 0 as real);
    }
    assert(all =~= Seq::new(FEATURE_COUNT as nat, |k: int| true));
    let beta = s.beta(prior, lambda);
    assert forall|k: int| 0 <= k < n implies beta[k] == b[k] by {
        assert(!dropped(all, solved, k));
        assert(v(b[k]) >= 0 as real);
        lemma_ops(v, b[k], b[k]);
        lemma_ops(v, zero_spec::<T>(), zero_spec::<T>());
        lemma_ops(v, b[k], zero_spec::<T>());
    }
    assert(beta =~= b);
}

/// What is chosen is found where as many as come before it stand before it.
proof fn lemma_chosen_place(active: Seq<bool>, p: int)
    requires
        active.len() <= FEATURE_COUNT,
        0 <= p < chosen(active).len(),
    ensures
        0 <= chosen(active)[p] < active.len(),
        active[chosen(active)[p] as int],
        chosen(active.take(chosen(active)[p] as int)).len() == p,
    decreases active.len(),
{
    let front = active.drop_last();
    let k = chosen(active)[p] as int;
    if p < chosen(front).len() {
        lemma_chosen_place(front, p);
        assert(front.take(k) =~= active.take(k));
        assert(front[k] == active[k]);
    } else {
        assert(active.take(k) =~= front);
    }
}

/// Coefficients that are stationary in every factor in use, and zero for the
/// others, are the ones that are solved for.
proof fn lemma_solved_is<T: Real>(
    v: Reading<T>,
    s: Samples<T>,
    prior: Seq<T>,
    lambda: T,
    active: Seq<bool>,
    b: Seq<T>,
)
    requires
        exact(v),
        faithful(v),
        1 <= s.xs.len() <= i64::MAX,
        solvable(s, prior, lambda),
        active.len() == FEATURE_COUNT,
        b.len() == FEATURE_COUNT,
        forall|k: int|
            0 <= k < FEATURE_COUNT ==> if #[trigger] active[k] {
                stationary(v, s, prior, lambda, b, k)
            } else {
                v(b[k]) == 0 as real
            },
    ensures
        s.moments().solved(prior, lambda, active) == b,
{
    lemma_constants(v);
    lemma_exact_is_field(v);
    let m = s.moments();
    let e = m.equations(prior, lambda, active);
    let idx = chosen(active);
    let n = idx.len() as int;
    let compact = Seq::new(idx.len(), |q: int| b[idx[q] as int]);
    let spread = scattered(active, compact);
    assert(spread =~= b) by {
        assert forall|k: int| 0 <= k < FEATURE_COUNT implies spread[k] == b[k] by {
            if active[k] {
                lemma_chosen_at(active, k);
            } else {
                lemma_same_number(v, b[k], zero_spec::<T>());
            }
        }
    }
    assert forall|p: int| 0 <= p < e.b.len() implies dot(
        #[trigger] e.a[p],
        compact,
        e.b.len() as int,
    ) == e.b[p] by {
        lemma_chosen_place(active, p);
        let k = idx[p] as int;
        assert(active[k]);
        lemma_row_read(v, s, prior, lambda, active, compact, k);
        lemma_equation_is_stationary(v, s, prior, lambda, b, k);
        lemma_same_number(v, dot(e.a[p], compact, e.b.len() as int), e.b[p]);
    }
    lemma_solution_unique(e, n, compact);
}

/// Has no round before `r` brought coefficient `k` below zero?
pub open spec fn kept_until<T>(v: Reading<T>, rounds: Seq<Seq<T>>, r: int, k: int) -> bool {
    forall|q: int| 0 <= q < r ==> v(#[trigger] rounds[q][k]) >= 0 as real
}

/// Is round `r` stationary in every factor that was kept until then, and zero
/// for the others?
pub open spec fn is_round<T: Real>(
    v: Reading<T>,
    s: Samples<T>,
    prior: Seq<T>,
    lambda: T,
    rounds: Seq<Seq<T>>,
    r: int,
) -> bool {
    &&& rounds[r].len() == FEATURE_COUNT
    &&& forall|k: int|
        0 <= k < FEATURE_COUNT ==> if #[trigger] kept_until(v, rounds, r, k) {
            stationary(v, s, prior, lambda, rounds[r], k)
        } else {
            v(rounds[r][k]) == 0 as real
        }
}

/// Does round `r` bring a coefficient below zero?
pub open spec fn goes_below<T>(v: Reading<T>, rounds: Seq<Seq<T>>, r: int) -> bool {
    exists|k: int| 0 <= k < FEATURE_COUNT && v(#[trigger] rounds[r][k]) < 0 as real
}

proof fn lemma_from_round<T: Real>(
    v: Reading<T>,
    s: Samples<T>,
    prior: Seq<T>,
    lambda: T,
    rounds: Seq<Seq<T>>,
    r: int,
)
    requires
        exact(v),
        faithful(v),
        1 <= s.xs.len() <= i64::MAX,
        solvable(s, prior, lambda),
        0 <= r < rounds.len() <= ROUNDS,
        forall|q: int|
            0 <= q < rounds.len() ==> #[trigger] is_round(v, s, prior, lambda, rounds, q),
        forall|q: int| 0 <= q < rounds.len() - 1 ==> #[trigger] goes_below(v, rounds, q),
        !goes_below(v, rounds, rounds.len() - 1),
    ensures
        s.moments().fitted(
            prior,
            lambda,
            Seq::new(FEATURE_COUNT as nat, |k: int| kept_until(v, rounds, r, k)),
            ROUNDS - r,
        ) == rounds.last(),
    decreases rounds.len() - r,
{
    lemma_constants(v);
    let active = Seq::new(FEATURE_COUNT as nat, |k: int| kept_until(v, rounds, r, k));
    let b = rounds[r];
    assert(is_round(v, s, prior, lambda, rounds, r));
    assert forall|k: int| 0 <= k < FEATURE_COUNT implies if #[trigger] active[k] {
        stationary(v, s, prior, lambda, b, k)
    } else {
        v(b[k]) == 0 as real
    } by {
        assert(active[k] == kept_until(v, rounds, r, k));
    }
    lemma_solved_is(v, s, prior, lambda, active, b);
    assert forall|k: int| 0 <= k < FEATURE_COUNT implies #[trigger] dropped(active, b, k) == (
    active[k] && v(b[k]) < 0 as real) by {
        lemma_ops(v, b[k], zero_spec::<T>());
    }
    let m = s.moments();
    if r == rounds.len() - 1 {
        assert forall|k: int| 0 <= k < FEATURE_COUNT implies !#[trigger] dropped(active, b, k) by {
            if v(b[k]) < 0 as real {
                assert(v(rounds[r][k]) < 0 as real);
            }
        }
        assert(m.fitted(prior, lambda, active, ROUNDS - r) =~= b);
    } else {
        assert(goes_below(v, rounds, r));
        let k = choose|k: int| 0 <= k < FEATURE_COUNT && v(#[trigger] rounds[r][k]) < 0 as real;
        assert(active[k]);
        assert(dropped(active, b, k));
        let next = Seq::new(FEATURE_COUNT as nat, |k: int| kept_until(v, rounds, r + 1, k));
        assert(still_active(active, b) =~= next) by {
            assert forall|k: int| 0 <= k < FEATURE_COUNT implies still_active(active, b)[k]
                == next[k] by {
                assert(dropped(active, b, k) == (active[k] && v(b[k]) < 0 as real));
                if kept_until(v, rounds, r + 1, k) {
                    assert(v(rounds[r][k]) >= 0 as real);
                    assert(kept_until(v, rounds, r, k));
                }
            }
        }
        lemma_from_round(v, s, prior, lambda, rounds, r + 1);
    }
}

/// The fit goes in rounds: all factors are solved for, those whose coefficients
/// come out below zero are left out, the others are solved for again, and so on
/// until none is below zero. That round comes out, and nothing else.
pub proof fn lemma_fit_by_rounds<T: Real>(
    v: Reading<T>,
    s: Samples<T>,
    prior: Seq<T>,
    lambda: T,
    rounds: Seq<Seq<T>>,
)
    requires
        exact(v),
        faithful(v),
        1 <= s.xs.len() <= i64::MAX,
        solvable(s, prior, lambda),
        1 <= rounds.len() <= ROUNDS,
        forall|q: int|
            0 <= q < rounds.len() ==> #[trigger] is_round(v, s, prior, lambda, rounds, q),
        forall|q: int| 0 <= q < rounds.len() - 1 ==> #[trigger] goes_below(v, rounds, q),
        !goes_below(v, rounds, rounds.len() - 1),
    ensures
        s.beta(prior, lambda) == rounds.last(),
{
    lemma_constants(v);
    lemma_from_round(v, s, prior, lambda, rounds, 0);
    let all = Seq::new(FEATURE_COUNT as nat, |k: int| true);
    assert(all =~= Seq::new(FEATURE_COUNT as nat, |k: int| kept_until(v, rounds, 0, k)));
    let b = rounds.last();
    assert(is_round(v, s, prior, lambda, rounds, rounds.len() - 1));
    let beta = s.beta(prior, lambda);
    assert forall|k: int| 0 <= k < FEATURE_COUNT implies beta[k] == b[k] by {
        assert(!(v(rounds[rounds.len() - 1][k]) < 0 as real));
        lemma_ops(v, b[k], b[k]);
        lemma_ops(v, zero_spec::<T>(), zero_spec::<T>());
        lemma_ops(v, b[k], zero_spec::<T>());
    }
    assert(beta =~= b);
}

} // verus!
