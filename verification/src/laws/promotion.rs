//! What it takes to put a model to use, in real numbers.
use vstd::prelude::*;

#[allow(unused_imports)]
use crate::number::{eps_spec, finite_spec, larger_spec, zero_spec, Real};
#[allow(unused_imports)]
use crate::reals::{exact, fraction, lemma_constants, lemma_divide, lemma_ops, lemma_ratio, Reading};
#[allow(unused_imports)]
use crate::storage::HorizonMetrics;
#[allow(unused_imports)]
use crate::trainer::{
    gain_of, ic_drop, mean_rmse, promote_spec, unfit, worse, PromoteReason, PromoteRules,
};

verus! {

/// Do all horizons have an error?
pub open spec fn has_errors<T>(m: Seq<HorizonMetrics<T>>) -> bool {
    &&& m.len() == 3
    &&& m[0].rmse is Some
    &&& m[1].rmse is Some
    &&& m[2].rmse is Some
}

/// The errors of the three horizons together.
pub open spec fn error_sum<T>(v: Reading<T>, m: Seq<HorizonMetrics<T>>) -> real {
    v(m[0].rmse->0) + v(m[1].rmse->0) + v(m[2].rmse->0)
}

/// By how little a gain may fall short.
pub open spec fn slack() -> real {
    fraction(1, 1_000_000_000_000_000)
}

/// The mean error is a third of the errors together.
pub proof fn lemma_mean_error<T: Real>(v: Reading<T>, m: Seq<HorizonMetrics<T>>)
    requires
        exact(v),
        has_errors(m),
    ensures
        v(mean_rmse(m)) * (3 as real) == error_sum(v, m),
{
    lemma_constants(v);
    let (a, b, c) = (m[0].rmse->0, m[1].rmse->0, m[2].rmse->0);
    let z = zero_spec::<T>();
    lemma_ops(v, z, a);
    lemma_ops(v, z.plus_spec(a), b);
    lemma_ops(v, z.plus_spec(a).plus_spec(b), c);
    let sum = z.plus_spec(a).plus_spec(b).plus_spec(c);
    lemma_ratio(v, 3, 1);
    assert(fraction(3, 1) == 3 as real) by (nonlinear_arith);
    lemma_ops(v, sum, T::ratio_spec(3, 1));
    lemma_divide(v(sum), 3 as real);
}

/// The mean error does not depend on the order of the horizons.
pub proof fn lemma_mean_error_in_any_order<T: Real>(
    v: Reading<T>,
    m: Seq<HorizonMetrics<T>>,
    other: Seq<HorizonMetrics<T>>,
    i: int,
    j: int,
    k: int,
)
    requires
        exact(v),
        has_errors(m),
        0 <= i < 3,
        0 <= j < 3,
        0 <= k < 3,
        i != j && j != k && i != k,
        other == seq![m[i], m[j], m[k]],
    ensures
        v(mean_rmse(other)) == v(mean_rmse(m)),
{
    assert(has_errors(other));
    lemma_mean_error(v, m);
    lemma_mean_error(v, other);
}

/// A larger error of any one horizon is a larger mean error.
pub proof fn lemma_mean_error_counts_each<T: Real>(
    v: Reading<T>,
    m: Seq<HorizonMetrics<T>>,
    other: Seq<HorizonMetrics<T>>,
    k: int,
)
    requires
        exact(v),
        has_errors(m),
        has_errors(other),
        0 <= k < 3,
        forall|i: int| 0 <= i < 3 && i != k ==> (#[trigger] m[i]).rmse == other[i].rmse,
        v(m[k].rmse->0) < v(other[k].rmse->0),
    ensures
        v(mean_rmse(m)) < v(mean_rmse(other)),
{
    lemma_mean_error(v, m);
    lemma_mean_error(v, other);
    assert(k != 0 ==> m[0].rmse == other[0].rmse);
    assert(k != 1 ==> m[1].rmse == other[1].rmse);
    assert(k != 2 ==> m[2].rmse == other[2].rmse);
}

proof fn lemma_gain<T: Real>(
    v: Reading<T>,
    current: Seq<HorizonMetrics<T>>,
    candidate: Seq<HorizonMetrics<T>>,
)
    requires
        exact(v),
        has_errors(current),
        has_errors(candidate),
    ensures
        ({
            let (cur, cand) = (error_sum(v, current), error_sum(v, candidate));
            let gain = v(gain_of(current, candidate));
            &&& cur >= 3 as real * fraction(1, 1_000_000_000_000) ==> gain * cur == cur - cand
            &&& cur < 3 as real * fraction(1, 1_000_000_000_000) ==> gain * (3 as real * fraction(
                1,
                1_000_000_000_000,
            )) == cur - cand
        }),
{
    lemma_mean_error(v, current);
    lemma_mean_error(v, candidate);
    lemma_constants(v);
    let (cur, cand) = (mean_rmse(current), mean_rmse(candidate));
    let e = eps_spec::<T>();
    lemma_ops(v, cur, cur);
    lemma_ops(v, e, e);
    lemma_ops(v, cur, e);
    lemma_ops(v, cur, cand);
    let base = larger_spec(cur, e);
    lemma_ops(v, cur.minus_spec(cand), base);
    let (d, b) = (v(cur) - v(cand), v(base));
    lemma_divide(d, b);
    let g = v(gain_of(current, candidate));
    assert(g * (b * (3 as real)) == (g * b) * (3 as real) && g * (3 as real * b) == (g * b) * (
    3 as real)) by (nonlinear_arith);
    let (x, y) = (v(cur), v(cand));
    let (sx, sy) = (error_sum(v, current), error_sum(v, candidate));
    assert((x - y) * (3 as real) == x * (3 as real) - y * (3 as real)) by (nonlinear_arith);
    assert((g * b) * (3 as real) == sx - sy);
    let f = fraction(1, 1_000_000_000_000);
    assert(x < f <==> sx < 3 as real * f) by (nonlinear_arith)
        requires
            sx == x * (3 as real),
    ;
}

/// A model that is put to use has at most `1 - improve + 10^-15` times the
/// errors of the current one, over all three horizons together.
pub proof fn lemma_promoted_saves<T: Real>(
    v: Reading<T>,
    current: Seq<HorizonMetrics<T>>,
    candidate: Seq<HorizonMetrics<T>>,
    rules: PromoteRules<T>,
)
    requires
        exact(v),
        has_errors(current),
        has_errors(candidate),
        promote_spec(current, candidate, rules).0,
        error_sum(v, current) >= 3 as real * fraction(1, 1_000_000_000_000) || (error_sum(v, current)
            > 0 as real && v(rules.rmse_improve) >= slack()),
    ensures
        error_sum(v, candidate) <= (1 as real - v(rules.rmse_improve) + slack()) * error_sum(
            v,
            current,
        ),
{
    lemma_gain(v, current, candidate);
    lemma_ratio(v, 1, 1_000_000_000_000_000);
    let gain = gain_of(current, candidate);
    let s = T::ratio_spec(1, 1_000_000_000_000_000);
    lemma_ops(v, gain, s);
    lemma_ops(v, gain.plus_spec(s), rules.rmse_improve);
    let (g, i, e) = (v(gain), v(rules.rmse_improve), slack());
    let (cur, cand) = (error_sum(v, current), error_sum(v, candidate));
    let least = 3 as real * fraction(1, 1_000_000_000_000);
    assert(least > 0 as real) by (nonlinear_arith)
        requires
            least == 3 as real * fraction(1, 1_000_000_000_000),
    ;
    let need = i - e;
    assert(g >= need);
    if cur >= least {
        assert(g * cur >= need * cur) by (nonlinear_arith)
            requires
                g >= need,
                cur > 0 as real,
        ;
    } else {
        assert(g * least >= need * cur) by (nonlinear_arith)
            requires
                g >= need,
                need >= 0 as real,
                least > cur,
                cur > 0 as real,
        {
            assert(g * least >= need * least);
            assert(need * least >= need * cur);
        }
    }
    assert((1 as real - i + e) * cur == cur - (i - e) * cur) by (nonlinear_arith);
}

/// Does the candidate stand every test but that of its errors?
pub open spec fn eligible<T: Real>(
    v: Reading<T>,
    current: Seq<HorizonMetrics<T>>,
    candidate: Seq<HorizonMetrics<T>>,
    rules: PromoteRules<T>,
) -> bool {
    forall|k: int|
        0 <= k < 3 ==> {
            &&& (#[trigger] candidate[k]).n_valid as usize >= rules.min_samples
            &&& v(candidate[k].coverage) >= v(rules.min_coverage)
            &&& candidate[k].rmse is Some
            &&& candidate[k].ic is Some
            &&& v(rules.max_ic_drop) >= score(v, current[k]) - score(v, candidate[k])
        }
}

/// The correlation, zero where there is none.
pub open spec fn score<T>(v: Reading<T>, m: HorizonMetrics<T>) -> real {
    match m.ic {
        Some(x) => v(x),
        None => 0 as real,
    }
}

proof fn lemma_eligible_at<T: Real>(
    v: Reading<T>,
    current: HorizonMetrics<T>,
    candidate: HorizonMetrics<T>,
    place: usize,
    rules: PromoteRules<T>,
)
    requires
        exact(v),
    ensures
        (unfit(candidate, place, rules) is None && worse(current, candidate, place, rules) is None)
            <==> {
            &&& candidate.n_valid as usize >= rules.min_samples
            &&& v(candidate.coverage) >= v(rules.min_coverage)
            &&& candidate.rmse is Some
            &&& candidate.ic is Some
            &&& v(rules.max_ic_drop) >= score(v, current) - score(v, candidate)
        },
{
    lemma_constants(v);
    lemma_ops(v, candidate.coverage, rules.min_coverage);
    let a = crate::storage::or_zero(current.ic);
    let b = crate::storage::or_zero(candidate.ic);
    lemma_ops(v, a, b);
    lemma_ops(v, rules.max_ic_drop, a.minus_spec(b));
}

/// A model is put to use exactly where every horizon has enough samples and
/// coverage and does not lose too much correlation, and the errors together are
/// small enough.
pub proof fn lemma_promoted_exactly<T: Real>(
    v: Reading<T>,
    current: Seq<HorizonMetrics<T>>,
    candidate: Seq<HorizonMetrics<T>>,
    rules: PromoteRules<T>,
)
    requires
        exact(v),
        has_errors(current),
        candidate.len() == 3,
        finite_spec(mean_rmse(current)),
        finite_spec(mean_rmse(candidate)),
        error_sum(v, current) >= 3 as real * fraction(1, 1_000_000_000_000),
    ensures
        promote_spec(current, candidate, rules).0 <==> eligible(v, current, candidate, rules)
            && error_sum(v, candidate) <= (1 as real - v(rules.rmse_improve) + slack()) * error_sum(
            v,
            current,
        ),
{
    lemma_eligible_at(v, current[0], candidate[0], 0, rules);
    lemma_eligible_at(v, current[1], candidate[1], 1, rules);
    lemma_eligible_at(v, current[2], candidate[2], 2, rules);
    if promote_spec(current, candidate, rules).0 {
        assert(has_errors(candidate));
        lemma_promoted_saves(v, current, candidate, rules);
    } else if eligible(v, current, candidate, rules) {
        assert(candidate[0].rmse is Some && candidate[1].rmse is Some && candidate[2].rmse is Some);
        lemma_gain(v, current, candidate);
        lemma_ratio(v, 1, 1_000_000_000_000_000);
        let gain = gain_of(current, candidate);
        let s = T::ratio_spec(1, 1_000_000_000_000_000);
        lemma_ops(v, gain, s);
        lemma_ops(v, gain.plus_spec(s), rules.rmse_improve);
        let (g, i, e) = (v(gain), v(rules.rmse_improve), slack());
        let (cur, cand) = (error_sum(v, current), error_sum(v, candidate));
        let least = 3 as real * fraction(1, 1_000_000_000_000);
        assert(least > 0 as real) by (nonlinear_arith)
            requires
                least == 3 as real * fraction(1, 1_000_000_000_000),
        ;
        let need = i - e;
        assert(g < need);
        assert(g * cur < need * cur) by (nonlinear_arith)
            requires
                g < need,
                cur > 0 as real,
        ;
        assert((1 as real - i + e) * cur == cur - (i - e) * cur) by (nonlinear_arith);
    }
}

/// A candidate with the same scores as the current model is not held back for
/// its correlation, where a drop of zero is allowed.
pub proof fn lemma_same_scores_are_no_drop<T: Real>(
    v: Reading<T>,
    current: Seq<HorizonMetrics<T>>,
    candidate: Seq<HorizonMetrics<T>>,
    rules: PromoteRules<T>,
)
    requires
        exact(v),
        candidate.len() == 3,
        v(rules.max_ic_drop) >= 0 as real,
        forall|k: int| 0 <= k < 3 ==> (#[trigger] current[k]).ic == candidate[k].ic,
    ensures
        !(promote_spec(current, candidate, rules).1 is IcDrop),
{
    lemma_constants(v);
    assert forall|k: int| 0 <= k < 3 implies !rules.max_ic_drop.below_spec(
        #[trigger] ic_drop(current[k], candidate[k]),
    ) by {
        assert(current[k].ic == candidate[k].ic);
        let a = crate::storage::or_zero(current[k].ic);
        lemma_ops(v, a, a);
        lemma_ops(v, rules.max_ic_drop, a.minus_spec(a));
    }
    assert(!rules.max_ic_drop.below_spec(ic_drop(current[0], candidate[0])));
    assert(!rules.max_ic_drop.below_spec(ic_drop(current[1], candidate[1])));
    assert(!rules.max_ic_drop.below_spec(ic_drop(current[2], candidate[2])));
}

/// The reason that is given tells what stood in the way, or what was gained.
pub proof fn lemma_reason<T: Real>(
    v: Reading<T>,
    current: Seq<HorizonMetrics<T>>,
    candidate: Seq<HorizonMetrics<T>>,
    rules: PromoteRules<T>,
)
    requires
        exact(v),
        has_errors(current),
        candidate.len() == 3,
        error_sum(v, current) >= 3 as real * fraction(1, 1_000_000_000_000),
    ensures
        match promote_spec(current, candidate, rules).1 {
            PromoteReason::TooFewSamples { place, n_valid } => {
                &&& place < 3
                &&& n_valid == candidate[place as int].n_valid
                &&& (n_valid as usize) < rules.min_samples
            },
            PromoteReason::LowCoverage { place, coverage, min_coverage } => {
                &&& place < 3
                &&& coverage == candidate[place as int].coverage
                &&& min_coverage == rules.min_coverage
                &&& v(coverage) < v(min_coverage)
            },
            PromoteReason::NoScores { place } => {
                &&& place < 3
                &&& candidate[place as int].rmse is None || candidate[place as int].ic is None
            },
            PromoteReason::IcDrop { place, drop, max_drop } => {
                &&& place < 3
                &&& v(drop) == score(v, current[place as int]) - score(v, candidate[place as int])
                &&& max_drop == rules.max_ic_drop
                &&& v(drop) > v(max_drop)
            },
            PromoteReason::NotFinite => true,
            PromoteReason::TooLittleGain { gain, needed } => {
                &&& v(gain) * error_sum(v, current) == error_sum(v, current) - error_sum(
                    v,
                    candidate,
                )
                &&& needed == rules.rmse_improve
                &&& v(gain) + slack() < v(needed)
            },
            PromoteReason::Improved { gain } => {
                &&& v(gain) * error_sum(v, current) == error_sum(v, current) - error_sum(
                    v,
                    candidate,
                )
                &&& v(gain) + slack() >= v(rules.rmse_improve)
            },
        },
        promote_spec(current, candidate, rules).0 <==> promote_spec(
            current,
            candidate,
            rules,
        ).1 is Improved,
{
    lemma_reason_at(v, current[0], candidate[0], rules);
    lemma_reason_at(v, current[1], candidate[1], rules);
    lemma_reason_at(v, current[2], candidate[2], rules);
    if candidate[0].rmse is Some && candidate[1].rmse is Some && candidate[2].rmse is Some {
        lemma_gain(v, current, candidate);
        lemma_ratio(v, 1, 1_000_000_000_000_000);
        let gain = gain_of(current, candidate);
        let s = T::ratio_spec(1, 1_000_000_000_000_000);
        lemma_ops(v, gain, s);
        lemma_ops(v, gain.plus_spec(s), rules.rmse_improve);
    }
}

proof fn lemma_reason_at<T: Real>(
    v: Reading<T>,
    current: HorizonMetrics<T>,
    candidate: HorizonMetrics<T>,
    rules: PromoteRules<T>,
)
    requires
        exact(v),
    ensures
        candidate.coverage.below_spec(rules.min_coverage) <==> v(candidate.coverage) < v(
            rules.min_coverage,
        ),
        v(ic_drop(current, candidate)) == score(v, current) - score(v, candidate),
        rules.max_ic_drop.below_spec(ic_drop(current, candidate)) <==> v(rules.max_ic_drop) < v(
            ic_drop(current, candidate),
        ),
{
    lemma_constants(v);
    lemma_ops(v, candidate.coverage, rules.min_coverage);
    let a = crate::storage::or_zero(current.ic);
    let b = crate::storage::or_zero(candidate.ic);
    lemma_ops(v, a, b);
    lemma_ops(v, rules.max_ic_drop, a.minus_spec(b));
}

} // verus!
