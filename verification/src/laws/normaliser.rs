//! What the moving mean and the moving variance are, and how a factor is
//! normalised by them.
use vstd::prelude::*;

#[allow(unused_imports)]
use crate::number::{eps_spec, larger_spec, one_spec, within_spec, zero_spec, Real};
#[allow(unused_imports)]
use crate::reals::{exact, fraction, lemma_divide, lemma_ops, lemma_ratio, Reading};
#[allow(unused_imports)]
use crate::signal::ewma::{deviations, scored, EwmaState};
#[allow(unused_imports)]
use crate::types::FEATURE_COUNT;

verus! {

/// The mean after an update is the weighted average of the mean before it and
/// the new value, which gets the share `alpha`.
pub proof fn lemma_mean_is_average<T: Real>(
    v: Reading<T>,
    s: EwmaState<T>,
    raw: Seq<T>,
    dt: u64,
    alpha: T,
    k: int,
)
    requires
        exact(v),
        s.initialized,
        0 <= k < FEATURE_COUNT,
    ensures
        v(s.next(raw, dt, alpha).mean[k]) == (1 as real - v(alpha)) * v(s.mean[k]) + v(alpha) * v(
            raw[k],
        ),
{
    let m = s.mean[k];
    let x = raw[k];
    let d = x.minus_spec(m);
    lemma_ops(v, x, m);
    lemma_ops(v, alpha, d);
    lemma_ops(v, m, alpha.times_spec(d));
    let (vm, vx, va) = (v(m), v(x), v(alpha));
    assert(vm + va * (vx - vm) == (1 as real - va) * vm + va * vx) by (nonlinear_arith);
}

/// Where the new value gets no share the mean stays, and where it gets the
/// whole share it becomes the mean.
pub proof fn lemma_mean_at_the_ends<T: Real>(
    v: Reading<T>,
    s: EwmaState<T>,
    raw: Seq<T>,
    dt: u64,
    alpha: T,
    k: int,
)
    requires
        exact(v),
        s.initialized,
        0 <= k < FEATURE_COUNT,
    ensures
        v(alpha) == 0 as real ==> v(s.next(raw, dt, alpha).mean[k]) == v(s.mean[k]),
        v(alpha) == 1 as real ==> v(s.next(raw, dt, alpha).mean[k]) == v(raw[k]),
{
    lemma_mean_is_average(v, s, raw, dt, alpha, k);
    let (vm, vx, va) = (v(s.mean[k]), v(raw[k]), v(alpha));
    assert(va == 0 as real ==> (1 as real - va) * vm + va * vx == vm) by (nonlinear_arith);
    assert(va == 1 as real ==> (1 as real - va) * vm + va * vx == vx) by (nonlinear_arith);
}

/// The first values become the mean, and have no variance.
pub proof fn lemma_first_mean<T: Real>(v: Reading<T>, raw: Seq<T>, dt: u64, alpha: T, k: int)
    requires
        exact(v),
        0 <= k < FEATURE_COUNT,
    ensures
        EwmaState::<T>::blank().next(raw, dt, alpha).initialized,
        EwmaState::<T>::blank().next(raw, dt, alpha).mean[k] == raw[k],
        v(EwmaState::<T>::blank().next(raw, dt, alpha).var[k]) == 0 as real,
{
    lemma_ratio(v, 0, 1);
    assert(fraction(0, 1) == 0 as real) by (nonlinear_arith);
}

/// The variance after an update: the variance before it loses the share, and
/// the distance of the new value from the mean before it comes in squared.
pub proof fn lemma_variance<T: Real>(
    v: Reading<T>,
    s: EwmaState<T>,
    raw: Seq<T>,
    dt: u64,
    alpha: T,
    k: int,
)
    requires
        exact(v),
        s.initialized,
        0 <= k < FEATURE_COUNT,
    ensures
        ({
            let rest = 1 as real - v(alpha);
            let off = v(raw[k]) - v(s.mean[k]);
            v(s.next(raw, dt, alpha).var[k]) == rest * v(s.var[k]) + v(alpha) * (rest * off) * (rest
                * off)
        }),
        0 as real <= v(alpha) <= 1 as real && v(s.var[k]) >= 0 as real ==> v(
            s.next(raw, dt, alpha).var[k],
        ) >= 0 as real,
{
    let m = s.mean[k];
    let x = raw[k];
    let w = s.var[k];
    let next_m = m.plus_spec(alpha.times_spec(x.minus_spec(m)));
    let d = x.minus_spec(m);
    let d2 = x.minus_spec(next_m);
    lemma_mean_is_average(v, s, raw, dt, alpha, k);
    lemma_ops(v, x, m);
    lemma_ops(v, alpha, d);
    lemma_ops(v, m, alpha.times_spec(d));
    lemma_ops(v, x, next_m);
    lemma_ops(v, alpha.times_spec(d), d2);
    lemma_ops(v, w, alpha.times_spec(d).times_spec(d2));
    lemma_ratio(v, 1, 1);
    assert(fraction(1, 1) == 1 as real) by (nonlinear_arith);
    lemma_ops(v, one_spec::<T>(), alpha);
    let grown = w.plus_spec(alpha.times_spec(d).times_spec(d2));
    lemma_ops(v, one_spec::<T>().minus_spec(alpha), grown);
    let (vm, vx, va, vw) = (v(m), v(x), v(alpha), v(w));
    let off = vx - vm;
    let rest = 1 as real - va;
    assert(vx - (vm + va * off) == rest * off) by (nonlinear_arith)
        requires
            off == vx - vm,
            rest == 1 as real - va,
    ;
    assert(v(next_m) == vm + va * off);
    assert(v(d2) == rest * off);
    assert(rest * (vw + (va * off) * (rest * off)) == rest * vw + va * (rest * off) * (rest * off))
        by (nonlinear_arith);
    if 0 as real <= va <= 1 as real && vw >= 0 as real {
        let q = rest * off;
        assert(rest * vw + va * q * q >= 0 as real) by (nonlinear_arith)
            requires
                va >= 0 as real,
                rest >= 0 as real,
                vw >= 0 as real,
        ;
    }
}

/// Is `x` the factor at distance `off` from its mean, in units of three
/// deviations and a little more, held between minus one and one?
pub open spec fn is_normalised(x: real, off: real, deviation: real) -> bool {
    let unit = 3 as real * (deviation + fraction(1, 1_000_000_000_000));
    if off >= unit {
        x == 1 as real
    } else if off <= -unit {
        x == -(1 as real)
    } else {
        x * unit == off
    }
}

/// Is this the root of the variance, or zero where that is below zero?
pub open spec fn is_deviation(r: real, variance: real) -> bool {
    r >= 0 as real && r * r == if variance > (0 as real) {
        variance
    } else {
        0 as real
    }
}

proof fn lemma_scored<T: Real>(v: Reading<T>, raw: T, mean: T, var: T, r: real)
    requires
        exact(v),
        is_deviation(r, v(var)),
    ensures
        is_normalised(v(scored(raw, mean, var)), v(raw) - v(mean), r),
{
    let zero = zero_spec::<T>();
    lemma_ratio(v, 0, 1);
    assert(fraction(0, 1) == 0 as real) by (nonlinear_arith);
    let kept = larger_spec(var, zero);
    lemma_ops(v, var, var);
    lemma_ops(v, zero, zero);
    lemma_ops(v, var, zero);
    assert(v(kept) == if v(var) > (0 as real) {
        v(var)
    } else {
        0 as real
    });
    let root = kept.root_spec();
    assert(v(root) >= 0 as real && v(root) * v(root) == v(kept)) by {
        reveal(exact);
    }
    let vr = v(root);
    assert(vr == r) by (nonlinear_arith)
        requires
            vr >= 0 as real,
            r >= 0 as real,
            vr * vr == r * r,
    ;
    let e = fraction(1, 1_000_000_000_000);
    lemma_ratio(v, 1, 1_000_000_000_000);
    assert(e > 0 as real) by (nonlinear_arith)
        requires
            e == fraction(1, 1_000_000_000_000),
    ;
    lemma_ops(v, root, eps_spec::<T>());
    lemma_ops(v, raw, mean);
    let off = v(raw) - v(mean);
    let den = r + e;
    lemma_ops(v, raw.minus_spec(mean), root.plus_spec(eps_spec::<T>()));
    let z = deviations(raw, mean, var);
    assert(v(z) == off / den);
    lemma_divide(off, den);
    let lo = T::ratio_spec((-3) as i64, 1);
    let hi = T::ratio_spec(3, 1);
    lemma_ratio(v, (-3) as i64, 1);
    lemma_ratio(v, 3, 1);
    assert(fraction(-3, 1) == -(3 as real) && fraction(3, 1) == 3 as real) by (nonlinear_arith);
    lemma_ops(v, z, lo);
    lemma_ops(v, hi, z);
    let x = within_spec(z, lo, hi);
    lemma_ops(v, x, hi);
    let q = v(x) / (3 as real);
    lemma_divide(v(x), 3 as real);
    let vz = v(z);
    let vx = v(x);
    let unit = 3 as real * den;
    assert(off >= unit ==> q == 1 as real) by (nonlinear_arith)
        requires
            vz * den == off,
            den > 0 as real,
            unit == 3 as real * den,
            vx == (if vz < -(3 as real) {
                -(3 as real)
            } else if vz > (3 as real) {
                3 as real
            } else {
                vz
            }),
            q * (3 as real) == vx,
    ;
    assert(off <= -unit ==> q == -(1 as real)) by (nonlinear_arith)
        requires
            vz * den == off,
            den > 0 as real,
            unit == 3 as real * den,
            vx == (if vz < -(3 as real) {
                -(3 as real)
            } else if vz > (3 as real) {
                3 as real
            } else {
                vz
            }),
            q * (3 as real) == vx,
    ;
    assert(-unit < off < unit ==> q * unit == off) by (nonlinear_arith)
        requires
            vz * den == off,
            den > 0 as real,
            unit == 3 as real * den,
            vx == (if vz < -(3 as real) {
                -(3 as real)
            } else if vz > (3 as real) {
                3 as real
            } else {
                vz
            }),
            q * (3 as real) == vx,
    ;
}

/// A factor is normalised by the mean and the variance that are held.
pub proof fn lemma_normalised<T: Real>(
    v: Reading<T>,
    s: EwmaState<T>,
    raw: Seq<T>,
    k: int,
    deviation: real,
)
    requires
        exact(v),
        s.initialized,
        0 <= k < FEATURE_COUNT,
        is_deviation(deviation, v(s.var[k])),
    ensures
        is_normalised(v(s.normalized(raw)[k]), v(raw[k]) - v(s.mean[k]), deviation),
{
    lemma_scored(v, raw[k], s.mean[k], s.var[k], deviation);
}

/// What comes out of an update is normalised by the mean and the variance
/// after it.
pub proof fn lemma_output_normalised<T: Real>(
    v: Reading<T>,
    s: EwmaState<T>,
    raw: Seq<T>,
    dt: u64,
    alpha: T,
    k: int,
    deviation: real,
)
    requires
        exact(v),
        s.initialized,
        0 <= k < FEATURE_COUNT,
        is_deviation(deviation, v(s.next(raw, dt, alpha).var[k])),
    ensures
        is_normalised(
            v(s.output(raw, dt, alpha)[k]),
            v(raw[k]) - v(s.next(raw, dt, alpha).mean[k]),
            deviation,
        ),
{
    lemma_normalised(v, s.next(raw, dt, alpha), raw, k, deviation);
}

} // verus!
