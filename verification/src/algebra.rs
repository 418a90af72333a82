//! What holds of fits and of elimination where numbers obey the laws of a field.
use vstd::prelude::*;

#[allow(unused_imports)]
use crate::number::{accumulate, one_spec, zero_spec, Real};
#[allow(unused_imports)]
use crate::ridge::{
    chosen, pivot_spec, reduced, scaled_spec, tiny_spec, Equations, Moments, Samples,
};
#[allow(unused_imports)]
use crate::types::products;

verus! {

/// Do sums, differences, products and quotients of the type obey the laws of a
/// field, and is zero smaller than the smallest pivot?
#[verifier::opaque]
pub open spec fn is_field<T: Real>() -> bool {
    &&& forall|a: T, b: T| #[trigger] a.plus_spec(b) == b.plus_spec(a)
    &&& forall|a: T, b: T, c: T|
        #[trigger] a.plus_spec(b).plus_spec(c) == a.plus_spec(b.plus_spec(c))
    &&& forall|a: T| #[trigger] a.plus_spec(zero_spec()) == a
    &&& forall|a: T, b: T| #[trigger] a.minus_spec(b).plus_spec(b) == a
    &&& forall|a: T, b: T| #[trigger] a.plus_spec(b).minus_spec(b) == a
    &&& forall|a: T, b: T| #[trigger] a.times_spec(b) == b.times_spec(a)
    &&& forall|a: T, b: T, c: T|
        #[trigger] a.times_spec(b).times_spec(c) == a.times_spec(b.times_spec(c))
    &&& forall|a: T, b: T, c: T|
        #[trigger] a.times_spec(b.plus_spec(c)) == a.times_spec(b).plus_spec(a.times_spec(c))
    &&& forall|a: T| #[trigger] a.times_spec(one_spec()) == a
    &&& forall|a: T, b: T|
        b != zero_spec::<T>() ==> #[trigger] a.over_spec(b).times_spec(b) == a
    &&& forall|a: T, b: T|
        b != zero_spec::<T>() ==> #[trigger] a.times_spec(b).over_spec(b) == a
    &&& zero_spec::<T>().magnitude_spec().below_spec(tiny_spec())
}

proof fn lemma_plus<T: Real>(a: T, b: T, c: T)
    requires
        is_field::<T>(),
    ensures
        a.plus_spec(b) == b.plus_spec(a),
        a.plus_spec(b).plus_spec(c) == a.plus_spec(b.plus_spec(c)),
        a.plus_spec(zero_spec()) == a,
{
    reveal(is_field);
}

proof fn lemma_minus<T: Real>(a: T, b: T)
    requires
        is_field::<T>(),
    ensures
        a.minus_spec(b).plus_spec(b) == a,
        a.plus_spec(b).minus_spec(b) == a,
{
    reveal(is_field);
}

proof fn lemma_times<T: Real>(a: T, b: T, c: T)
    requires
        is_field::<T>(),
    ensures
        a.times_spec(b) == b.times_spec(a),
        a.times_spec(b).times_spec(c) == a.times_spec(b.times_spec(c)),
        a.times_spec(b.plus_spec(c)) == a.times_spec(b).plus_spec(a.times_spec(c)),
        a.times_spec(one_spec()) == a,
{
    reveal(is_field);
}

proof fn lemma_over<T: Real>(a: T, b: T)
    requires
        is_field::<T>(),
        b != zero_spec::<T>(),
    ensures
        a.over_spec(b).times_spec(b) == a,
        a.times_spec(b).over_spec(b) == a,
{
    reveal(is_field);
}

/// A number less itself is zero.
proof fn lemma_less_itself<T: Real>(a: T)
    requires
        is_field::<T>(),
    ensures
        a.minus_spec(a) == zero_spec::<T>(),
{
    lemma_plus(a, zero_spec(), a);
    lemma_minus(zero_spec::<T>(), a);
}

/// A product with zero is zero.
proof fn lemma_times_zero<T: Real>(a: T)
    requires
        is_field::<T>(),
    ensures
        a.times_spec(zero_spec()) == zero_spec::<T>(),
        zero_spec::<T>().times_spec(a) == zero_spec::<T>(),
{
    let z = zero_spec::<T>();
    let x = a.times_spec(z);
    lemma_plus(z, z, z);
    lemma_times(a, z, z);
    assert(x == x.plus_spec(x));
    lemma_minus(x, x);
    lemma_less_itself(x);
}

/// A number divided by itself is one.
proof fn lemma_over_itself<T: Real>(a: T)
    requires
        is_field::<T>(),
        a != zero_spec::<T>(),
    ensures
        a.over_spec(a) == one_spec::<T>(),
{
    lemma_times(a, one_spec(), a);
    lemma_over(one_spec::<T>(), a);
}

/// The sum of the first `n` products of a row with the unknowns.
pub open spec fn dot<T: Real>(row: Seq<T>, x: Seq<T>, n: int) -> T
    decreases n,
{
    if n <= 0 {
        zero_spec()
    } else {
        dot(row, x, n - 1).plus_spec(row[n - 1].times_spec(x[n - 1]))
    }
}

/// Do these values solve the equations?
pub open spec fn solves<T: Real>(e: Equations<T>, x: Seq<T>) -> bool {
    forall|r: int|
        0 <= r < e.b.len() ==> dot(#[trigger] e.a[r], x, e.b.len() as int) == e.b[r]
}

/// A scaled row has a scaled sum.
proof fn lemma_dot_scaled<T: Real>(row: Seq<T>, q: Seq<T>, d: T, x: Seq<T>, n: int)
    requires
        is_field::<T>(),
        forall|c: int| 0 <= c < n ==> (#[trigger] q[c]).times_spec(d) == row[c],
    ensures
        dot(q, x, n).times_spec(d) == dot(row, x, n),
    decreases n,
{
    if n <= 0 {
        lemma_times_zero(d);
    } else {
        lemma_dot_scaled(row, q, d, x, n - 1);
        let s = dot(q, x, n - 1);
        let a = q[n - 1];
        let v = x[n - 1];
        assert(a.times_spec(d) == row[n - 1]);
        lemma_times(d, s, a.times_spec(v));
        lemma_times(s, d, d);
        lemma_times(a.times_spec(v), d, d);
        lemma_times(s.plus_spec(a.times_spec(v)), d, d);
        lemma_times(a, v, d);
        lemma_times(v, d, d);
        lemma_times(a, d, v);
    }
}

/// A row less a multiple of another has such a sum.
proof fn lemma_dot_cleared<T: Real>(
    row: Seq<T>,
    r: Seq<T>,
    f: T,
    p: Seq<T>,
    x: Seq<T>,
    n: int,
)
    requires
        is_field::<T>(),
        forall|c: int|
            0 <= c < n ==> (#[trigger] r[c]).plus_spec(f.times_spec(p[c])) == row[c],
    ensures
        dot(r, x, n).plus_spec(f.times_spec(dot(p, x, n))) == dot(row, x, n),
    decreases n,
{
    if n <= 0 {
        lemma_times_zero(f);
        lemma_plus(zero_spec::<T>(), zero_spec(), zero_spec());
    } else {
        lemma_dot_cleared(row, r, f, p, x, n - 1);
        let d = dot(r, x, n - 1);
        let s = dot(p, x, n - 1);
        let a = r[n - 1];
        let b = p[n - 1];
        let v = x[n - 1];
        assert(a.plus_spec(f.times_spec(b)) == row[n - 1]);
        let av = a.times_spec(v);
        let fs = f.times_spec(s);
        let fbv = f.times_spec(b.times_spec(v));
        lemma_times(f, s, b.times_spec(v));
        assert(dot(r, x, n).plus_spec(f.times_spec(dot(p, x, n))) == d.plus_spec(av).plus_spec(
            fs.plus_spec(fbv),
        ));
        lemma_regroup(d, av, fs, fbv);
        lemma_times(f, b, v);
        lemma_times(v, a, f.times_spec(b));
        lemma_times(a, v, v);
        lemma_times(f.times_spec(b), v, v);
        lemma_times(a.plus_spec(f.times_spec(b)), v, v);
    }
}

/// `(a + b) + (c + d)` is `(a + c) + (b + d)`.
proof fn lemma_regroup<T: Real>(a: T, b: T, c: T, d: T)
    requires
        is_field::<T>(),
    ensures
        a.plus_spec(b).plus_spec(c.plus_spec(d)) == a.plus_spec(c).plus_spec(b.plus_spec(d)),
{
    lemma_plus(a, b, c.plus_spec(d));
    lemma_plus(b, c, d);
    lemma_plus(c, b, d);
    lemma_plus(a, c, b.plus_spec(d));
}

/// The entry of the unit matrix.
pub open spec fn unit<T: Real>(r: int, c: int) -> T {
    if r == c {
        one_spec()
    } else {
        zero_spec()
    }
}

/// Are the first `k` columns those of the unit matrix?
pub open spec fn eliminated<T: Real>(e: Equations<T>, k: int) -> bool {
    forall|r: int, c: int|
        0 <= r < e.b.len() && 0 <= c < k ==> #[trigger] e.a[r][c] == unit::<T>(r, c)
}

/// A row of the unit matrix picks its unknown.
proof fn lemma_dot_unit<T: Real>(row: Seq<T>, x: Seq<T>, r: int, n: int)
    requires
        is_field::<T>(),
        forall|c: int| 0 <= c < n ==> #[trigger] row[c] == unit::<T>(r, c),
        0 <= r,
    ensures
        dot(row, x, n) == (if r < n {
            x[r]
        } else {
            zero_spec()
        }),
    decreases n,
{
    if n > 0 {
        lemma_dot_unit(row, x, r, n - 1);
        assert(row[n - 1] == unit::<T>(r, n - 1));
        let v = x[n - 1];
        lemma_times_zero(v);
        lemma_times(one_spec::<T>(), v, v);
        lemma_times(v, one_spec(), v);
        lemma_plus(zero_spec::<T>(), v, v);
        lemma_plus(v, zero_spec(), v);
        lemma_plus(x[r], zero_spec(), v);
        lemma_plus(zero_spec::<T>(), zero_spec(), v);
    }
}

/// The pivot of unknown `i`.
pub open spec fn pivot_of<T: Real>(e: Equations<T>, i: int) -> T {
    e.exchanged(i, pivot_spec(e.a, i, e.b.len() as int)).a[i][i]
}

/// Exchanging two equations changes neither the columns that are done nor what
/// solves the equations.
proof fn lemma_exchanged<T: Real>(e: Equations<T>, i: int, p: int, n: int)
    requires
        e.square(n),
        eliminated(e, i),
        0 <= i <= p < n,
    ensures
        e.exchanged(i, p).square(n),
        eliminated(e.exchanged(i, p), i),
        forall|x: Seq<T>| #[trigger] solves(e.exchanged(i, p), x) ==> solves(e, x),
{
    let g = e.exchanged(i, p);
    assert forall|r: int| 0 <= r < n implies (#[trigger] g.a[r]).len() == n by {
        assert(e.a[i].len() == n && e.a[p].len() == n && e.a[r].len() == n);
    }
    assert forall|r: int, c: int| 0 <= r < n && 0 <= c < i implies #[trigger] g.a[r][c] == unit::<
        T,
    >(r, c) by {
        assert(e.a[i][c] == unit::<T>(i, c));
        assert(e.a[p][c] == unit::<T>(p, c));
        assert(e.a[r][c] == unit::<T>(r, c));
    }
    assert forall|x: Seq<T>| #[trigger] solves(g, x) implies solves(e, x) by {
        assert forall|r: int| 0 <= r < e.b.len() implies dot(#[trigger] e.a[r], x, n) == e.b[r] by {
            assert(dot(g.a[i], x, n) == g.b[i]);
            assert(dot(g.a[p], x, n) == g.b[p]);
            assert(dot(g.a[r], x, n) == g.b[r]);
        }
    }
}

/// Clearing a column makes it one of the unit matrix, keeps those that are
/// done, and adds no solution.
#[verifier::spinoff_prover]
proof fn lemma_cleared<T: Real>(e: Equations<T>, i: int, n: int)
    requires
        is_field::<T>(),
        e.square(n),
        eliminated(e, i),
        0 <= i < n,
        e.a[i][i] != zero_spec::<T>(),
    ensures
        e.cleared(i).square(n),
        eliminated(e.cleared(i), i + 1),
        forall|x: Seq<T>| #[trigger] solves(e.cleared(i), x) ==> solves(e, x),
{
    let g = e.cleared(i);
    let d = e.a[i][i];
    let q = scaled_spec(e.a[i], d, i);
    let rhs = e.b[i].over_spec(d);
    assert(e.a[i].len() == n);
    assert forall|r: int| 0 <= r < n implies (#[trigger] g.a[r]).len() == n by {
        assert(e.a[r].len() == n);
    }
    assert forall|c: int| 0 <= c < n implies (#[trigger] q[c]).times_spec(d) == e.a[i][c] by {
        lemma_over(e.a[i][c], d);
        if c < i {
            assert(e.a[i][c] == unit::<T>(i, c));
            lemma_times_zero(d);
        }
    }
    lemma_over_itself(d);
    assert forall|r: int, c: int| 0 <= r < n && 0 <= c < n && r != i implies (
    #[trigger] g.a[r][c]).plus_spec(e.a[r][i].times_spec(q[c])) == e.a[r][c] by {
        assert(e.a[r].len() == n);
        if c < i {
            assert(e.a[i][c] == unit::<T>(i, c));
            lemma_times_zero(e.a[r][i]);
            lemma_plus(e.a[r][c], zero_spec(), zero_spec());
        } else {
            lemma_minus(e.a[r][c], e.a[r][i].times_spec(q[c]));
        }
    }
    assert forall|r: int, c: int| 0 <= r < n && 0 <= c < i + 1 implies #[trigger] g.a[r][c]
        == unit::<T>(r, c) by {
        assert(e.a[r].len() == n);
        if c < i {
            assert(e.a[r][c] == unit::<T>(r, c));
        } else if r != i {
            lemma_times(e.a[r][i], one_spec(), one_spec());
            lemma_less_itself(e.a[r][i]);
        }
    }
    assert forall|x: Seq<T>| #[trigger] solves(g, x) implies solves(e, x) by {
        assert forall|r: int| 0 <= r < e.b.len() implies dot(#[trigger] e.a[r], x, n) == e.b[r] by {
            assert(g.a[i] == q);
            assert(dot(g.a[i], x, n) == rhs);
            if r == i {
                lemma_dot_scaled(e.a[i], q, d, x, n);
                lemma_over(e.b[i], d);
            } else {
                let f = e.a[r][i];
                assert(dot(g.a[r], x, n) == g.b[r]);
                lemma_dot_cleared(e.a[r], g.a[r], f, q, x, n);
                lemma_minus(e.b[r], f.times_spec(rhs));
            }
        }
    }
}

/// Are the first `k` pivots large enough to divide by?
pub open spec fn pivots_hold<T: Real>(e: Equations<T>, k: int) -> bool {
    forall|i: int|
        0 <= i < k ==> !pivot_of(#[trigger] e.steps(i), i).magnitude_spec().below_spec(tiny_spec())
}

proof fn lemma_steps<T: Real>(e: Equations<T>, k: int, n: int)
    requires
        is_field::<T>(),
        e.square(n),
        0 <= k <= n,
        pivots_hold(e, k),
    ensures
        e.steps(k).square(n),
        eliminated(e.steps(k), k),
        forall|x: Seq<T>| #[trigger] solves(e.steps(k), x) ==> solves(e, x),
    decreases k,
{
    if k > 0 {
        let i = k - 1;
        lemma_steps(e, i, n);
        let g = e.steps(i);
        let p = pivot_spec(g.a, i, n);
        crate::ridge::lemma_pivot(g.a, i, n);
        lemma_exchanged(g, i, p, n);
        let h = g.exchanged(i, p);
        assert(!pivot_of(e.steps(i), i).magnitude_spec().below_spec(tiny_spec()));
        assert(h.a[i][i] != zero_spec::<T>()) by {
            reveal(is_field);
        }
        lemma_cleared(h, i, n);
        assert(e.steps(k) == h.cleared(i));
        assert forall|x: Seq<T>| #[trigger] solves(e.steps(k), x) implies solves(e, x) by {
            assert(solves(h, x));
            assert(solves(g, x));
        }
    }
}

/// Elimination solves the equations, where numbers obey the laws of a field and
/// no pivot is taken for zero.
pub proof fn lemma_solution_solves<T: Real>(e: Equations<T>, n: int)
    requires
        is_field::<T>(),
        e.square(n),
        n >= 0,
        pivots_hold(e, n),
    ensures
        solves(e, e.solution()),
{
    lemma_steps(e, n, n);
    let g = e.steps(n);
    assert forall|r: int| 0 <= r < g.b.len() implies dot(#[trigger] g.a[r], g.b, n) == g.b[r] by {
        assert forall|c: int| 0 <= c < n implies #[trigger] g.a[r][c] == unit::<T>(r, c) by {}
        lemma_dot_unit(g.a[r], g.b, r, n);
    }
    assert(solves(g, g.b));
}

/// What solves the equations solves them after an exchange.
proof fn lemma_exchanged_keeps<T: Real>(e: Equations<T>, i: int, p: int, n: int, x: Seq<T>)
    requires
        e.square(n),
        0 <= i <= p < n,
        solves(e, x),
    ensures
        solves(e.exchanged(i, p), x),
{
    let g = e.exchanged(i, p);
    assert forall|r: int| 0 <= r < g.b.len() implies dot(#[trigger] g.a[r], x, n) == g.b[r] by {
        assert(dot(e.a[i], x, n) == e.b[i]);
        assert(dot(e.a[p], x, n) == e.b[p]);
        assert(dot(e.a[r], x, n) == e.b[r]);
    }
}

/// What solves the equations solves them after a column was cleared.
#[verifier::spinoff_prover]
proof fn lemma_cleared_keeps<T: Real>(e: Equations<T>, i: int, n: int, x: Seq<T>)
    requires
        is_field::<T>(),
        e.square(n),
        eliminated(e, i),
        0 <= i < n,
        e.a[i][i] != zero_spec::<T>(),
        solves(e, x),
    ensures
        solves(e.cleared(i), x),
{
    let g = e.cleared(i);
    let d = e.a[i][i];
    let q = scaled_spec(e.a[i], d, i);
    let rhs = e.b[i].over_spec(d);
    assert(e.a[i].len() == n);
    assert forall|c: int| 0 <= c < n implies (#[trigger] q[c]).times_spec(d) == e.a[i][c] by {
        lemma_over(e.a[i][c], d);
        if c < i {
            assert(e.a[i][c] == unit::<T>(i, c));
            lemma_times_zero(d);
        }
    }
    lemma_dot_scaled(e.a[i], q, d, x, n);
    assert(dot(e.a[i], x, n) == e.b[i]);
    lemma_over(dot(q, x, n), d);
    assert(dot(q, x, n) == rhs);
    assert forall|r: int| 0 <= r < g.b.len() implies dot(#[trigger] g.a[r], x, n) == g.b[r] by {
        assert(e.a[r].len() == n);
        if r != i {
            let f = e.a[r][i];
            assert forall|c: int| 0 <= c < n implies (#[trigger] g.a[r][c]).plus_spec(
                f.times_spec(q[c]),
            ) == e.a[r][c] by {
                if c < i {
                    assert(e.a[i][c] == unit::<T>(i, c));
                    lemma_times_zero(f);
                    lemma_plus(e.a[r][c], zero_spec(), zero_spec());
                } else {
                    lemma_minus(e.a[r][c], f.times_spec(q[c]));
                }
            }
            lemma_dot_cleared(e.a[r], g.a[r], f, q, x, n);
            assert(dot(e.a[r], x, n) == e.b[r]);
            lemma_minus(dot(g.a[r], x, n), f.times_spec(rhs));
        }
    }
}

proof fn lemma_steps_keep<T: Real>(e: Equations<T>, k: int, n: int, x: Seq<T>)
    requires
        is_field::<T>(),
        e.square(n),
        0 <= k <= n,
        pivots_hold(e, k),
        solves(e, x),
    ensures
        solves(e.steps(k), x),
    decreases k,
{
    if k > 0 {
        let i = k - 1;
        lemma_steps_keep(e, i, n, x);
        lemma_steps(e, i, n);
        let g = e.steps(i);
        let p = pivot_spec(g.a, i, n);
        crate::ridge::lemma_pivot(g.a, i, n);
        lemma_exchanged(g, i, p, n);
        lemma_exchanged_keeps(g, i, p, n, x);
        let h = g.exchanged(i, p);
        assert(!pivot_of(e.steps(i), i).magnitude_spec().below_spec(tiny_spec()));
        assert(h.a[i][i] != zero_spec::<T>()) by {
            reveal(is_field);
        }
        lemma_cleared_keeps(h, i, n, x);
        assert(e.steps(k) == h.cleared(i));
    }
}

/// Nothing but the solution solves the equations.
pub proof fn lemma_solution_unique<T: Real>(e: Equations<T>, n: int, x: Seq<T>)
    requires
        is_field::<T>(),
        e.square(n),
        n >= 0,
        pivots_hold(e, n),
        x.len() == n,
        solves(e, x),
    ensures
        x == e.solution(),
{
    lemma_steps(e, n, n);
    lemma_steps_keep(e, n, n, x);
    let g = e.steps(n);
    assert forall|r: int| 0 <= r < n implies x[r] == g.b[r] by {
        assert(dot(g.a[r], x, n) == g.b[r]);
        assert forall|c: int| 0 <= c < n implies #[trigger] g.a[r][c] == unit::<T>(r, c) by {}
        lemma_dot_unit(g.a[r], x, r, n);
    }
    assert(x =~= e.solution());
}

/// The coefficients of a ridge fit that are in use solve its equations.
pub proof fn lemma_ridge_solves<T: Real>(
    m: Moments<T>,
    prior: Seq<T>,
    lambda: T,
    active: Seq<bool>,
)
    requires
        is_field::<T>(),
        pivots_hold(m.equations(prior, lambda, active), chosen(active).len() as int),
    ensures
        solves(
            m.equations(prior, lambda, active),
            m.equations(prior, lambda, active).solution(),
        ),
{
    lemma_solution_solves(m.equations(prior, lambda, active), chosen(active).len() as int);
}

/// What is added at the end may as well be added at the start.
proof fn lemma_accumulate_shift<T: Real>(init: T, s: Seq<T>, x: T)
    requires
        is_field::<T>(),
    ensures
        accumulate(init, s).plus_spec(x) == accumulate(init.plus_spec(x), s),
    decreases s.len(),
{
    if s.len() > 0 {
        let a = accumulate(init, s.drop_last());
        lemma_accumulate_shift(init, s.drop_last(), x);
        lemma_plus(a, s.last(), x);
        lemma_plus(s.last(), x, x);
        lemma_plus(a, x, s.last());
    }
}

/// Numbers taken off and added again leave what was there.
proof fn lemma_put_back<T: Real>(init: T, s: Seq<T>)
    requires
        is_field::<T>(),
    ensures
        accumulate(reduced(init, s), s) == init,
    decreases s.len(),
{
    if s.len() > 0 {
        let front = s.drop_last();
        let r = reduced(init, front);
        lemma_put_back(init, front);
        lemma_accumulate_shift(r.minus_spec(s.last()), front, s.last());
        lemma_minus(r, s.last());
    }
}

/// A fit passes through the mean point, whatever its coefficients: at the mean
/// factors it predicts the mean outcome.
pub proof fn lemma_mean_point<T: Real>(s: Samples<T>, beta: Seq<T>)
    requires
        is_field::<T>(),
    ensures
        accumulate(s.intercept(beta), products(beta, s.x_means())) == s.y_mean(),
{
    lemma_put_back(s.y_mean(), products(beta, s.x_means()));
}

} // verus!
