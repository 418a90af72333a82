//! Factors, normalised by a moving mean and variance.
use vstd::prelude::*;

use crate::clock::MILLISECOND;
use crate::number::{eps, larger, one, within, zero, Real};
#[allow(unused_imports)]
use crate::number::{
    eps_spec, finite_spec, larger_spec, missing_spec, one_spec, within_spec, zero_spec,
};
use crate::types::FEATURE_COUNT;

verus! {

/// The time in which the weight of a value falls to `1/e`.
pub const TAU: u64 = 120_000_000_000;

/// The moving mean and variance of each factor.
#[derive(Clone, Copy, Debug)]
pub struct EwmaNorm<T> {
    mean: [T; FEATURE_COUNT],
    var: [T; FEATURE_COUNT],
    initialized: bool,
    accumulated: u64,
}

/// What an [`EwmaNorm`] holds.
#[verifier::ext_equal]
pub struct EwmaState<T> {
    pub mean: Seq<T>,
    pub var: Seq<T>,
    pub initialized: bool,
    pub accumulated: u64,
}

impl<T: Real> View for EwmaNorm<T> {
    type V = EwmaState<T>;

    closed spec fn view(&self) -> EwmaState<T> {
        EwmaState {
            mean: self.mean@,
            var: self.var@,
            initialized: self.initialized,
            accumulated: self.accumulated,
        }
    }
}

/// Zero for every factor.
pub open spec fn zeros<T: Real>() -> Seq<T> {
    Seq::new(FEATURE_COUNT as nat, |i: int| zero_spec::<T>())
}

/// No time at all counts as a millisecond.
pub open spec fn step_spec(dt: u64) -> u64 {
    if dt == 0 {
        MILLISECOND
    } else {
        dt
    }
}

/// The span that an update after `dt` counts for: the share `alpha` that the
/// new value gets is `1 - e^(-step / TAU)`.
pub fn step_of(dt: u64) -> (r: u64)
    ensures
        r == step_spec(dt),
{
    if dt == 0 {
        MILLISECOND
    } else {
        dt
    }
}

/// A factor in deviations from the mean.
pub open spec fn deviations<T: Real>(raw: T, mean: T, var: T) -> T {
    let sigma = larger_spec(var, zero_spec()).root_spec();
    raw.minus_spec(mean).over_spec(sigma.plus_spec(eps_spec()))
}

/// A factor in units of three deviations, cut off at one.
pub open spec fn scored<T: Real>(raw: T, mean: T, var: T) -> T {
    within_spec(
        deviations(raw, mean, var),
        T::ratio_spec((-3) as i64, 1),
        T::ratio_spec(3, 1),
    ).over_spec(T::ratio_spec(3, 1))
}

/// The mean after a value that gets the share `alpha`.
pub open spec fn next_mean<T: Real>(mean: T, raw: T, alpha: T) -> T {
    mean.plus_spec(alpha.times_spec(raw.minus_spec(mean)))
}

/// The variance after a value that gets the share `alpha`.
pub open spec fn next_var<T: Real>(mean: T, var: T, raw: T, alpha: T) -> T {
    let delta = raw.minus_spec(mean);
    let delta2 = raw.minus_spec(next_mean(mean, raw, alpha));
    one_spec::<T>().minus_spec(alpha).times_spec(
        var.plus_spec(alpha.times_spec(delta).times_spec(delta2)),
    )
}

impl<T: Real> EwmaState<T> {
    pub open spec fn blank() -> Self {
        EwmaState { mean: zeros(), var: zeros(), initialized: false, accumulated: 0 }
    }

    /// The first values become the mean; later ones move it.
    pub open spec fn next(self, raw: Seq<T>, dt: u64, alpha: T) -> Self {
        if !self.initialized {
            EwmaState { mean: raw, var: zeros(), initialized: true, accumulated: 0 }
        } else {
            EwmaState {
                mean: Seq::new(
                    FEATURE_COUNT as nat,
                    |i: int| next_mean(self.mean[i], raw[i], alpha),
                ),
                var: Seq::new(
                    FEATURE_COUNT as nat,
                    |i: int| next_var(self.mean[i], self.var[i], raw[i], alpha),
                ),
                initialized: true,
                accumulated: if self.accumulated + step_spec(dt) > u64::MAX {
                    u64::MAX
                } else {
                    (self.accumulated + step_spec(dt)) as u64
                },
            }
        }
    }

    pub open spec fn normalized(self, raw: Seq<T>) -> Seq<T> {
        if !self.initialized {
            zeros()
        } else {
            Seq::new(
                FEATURE_COUNT as nat,
                |i: int| scored(raw[i], self.mean[i], self.var[i]),
            )
        }
    }

    /// The factors that come out of an update: none at the first one.
    pub open spec fn output(self, raw: Seq<T>, dt: u64, alpha: T) -> Seq<T> {
        if !self.initialized {
            zeros()
        } else {
            self.next(raw, dt, alpha).normalized(raw)
        }
    }
}

impl<T: Real> Default for EwmaNorm<T> {
    fn default() -> (r: Self)
        ensures
            r@ == EwmaState::<T>::blank(),
    {
        Self::new()
    }
}

impl<T: Real> EwmaNorm<T> {
    pub fn new() -> (r: Self)
        ensures
            r@ == EwmaState::<T>::blank(),
    {
        let z = [zero::<T>(); FEATURE_COUNT];
        assert(z@ =~= zeros::<T>());
        EwmaNorm { mean: z, var: z, initialized: false, accumulated: 0 }
    }

    /// Forgets all values.
    pub fn reset(&mut self)
        ensures
            final(self)@ == EwmaState::<T>::blank(),
    {
        *self = Self::new();
    }

    /// The time that has gone into the mean.
    pub fn accumulated(&self) -> (r: u64)
        ensures
            r == self@.accumulated,
    {
        self.accumulated
    }

    /// Takes in the factors `dt` after the last ones; they get the share
    /// `alpha`. Returns them normalised.
    pub fn update(&mut self, raw: &[T; FEATURE_COUNT], dt: u64, alpha: T) -> (r: [T; FEATURE_COUNT])
        ensures
            final(self)@ == old(self)@.next(raw@, dt, alpha),
            r@ == old(self)@.output(raw@, dt, alpha),
    {
        if !self.initialized {
            let z = [zero::<T>(); FEATURE_COUNT];
            assert(z@ =~= zeros::<T>());
            self.mean = *raw;
            self.var = z;
            self.initialized = true;
            self.accumulated = 0;
            return z;
        }
        let ghost was = self@;
        let mut i: usize = 0;
        while i < FEATURE_COUNT
            invariant
                0 <= i <= FEATURE_COUNT,
                was.initialized,
                self@.initialized,
                self@.accumulated == was.accumulated,
                was.mean.len() == FEATURE_COUNT,
                was.var.len() == FEATURE_COUNT,
                forall|k: int|
                    0 <= k < i ==> (#[trigger] self.mean@[k]) == next_mean(was.mean[k], raw@[k], alpha),
                forall|k: int|
                    0 <= k < i ==> (#[trigger] self.var@[k]) == next_var(
                        was.mean[k],
                        was.var[k],
                        raw@[k],
                        alpha,
                    ),
                forall|k: int|
                    i <= k < FEATURE_COUNT ==> (#[trigger] self.mean@[k]) == was.mean[k],
                forall|k: int| i <= k < FEATURE_COUNT ==> (#[trigger] self.var@[k]) == was.var[k],
            decreases FEATURE_COUNT - i,
        {
            let delta = raw[i].minus(self.mean[i]);
            self.mean[i] = self.mean[i].plus(alpha.times(delta));
            let delta2 = raw[i].minus(self.mean[i]);
            self.var[i] = one::<T>().minus(alpha).times(
                self.var[i].plus(alpha.times(delta).times(delta2)),
            );
            i = i + 1;
        }
        self.accumulated = self.accumulated.saturating_add(step_of(dt));
        assert(self@ =~= was.next(raw@, dt, alpha));
        self.normalize(raw)
    }

    /// The factors in units of three deviations from the mean, cut off at one.
    pub fn normalize(&self, raw: &[T; FEATURE_COUNT]) -> (r: [T; FEATURE_COUNT])
        ensures
            r@ == self@.normalized(raw@),
    {
        let mut x = [zero::<T>(); FEATURE_COUNT];
        if !self.initialized {
            assert(x@ =~= zeros::<T>());
            return x;
        }
        let mut i: usize = 0;
        while i < FEATURE_COUNT
            invariant
                0 <= i <= FEATURE_COUNT,
                forall|k: int|
                    0 <= k < i ==> (#[trigger] x@[k]) == scored(raw@[k], self@.mean[k], self@.var[k]),
            decreases FEATURE_COUNT - i,
        {
            let sigma = larger(self.var[i], zero::<T>()).root();
            let z = raw[i].minus(self.mean[i]).over(sigma.plus(eps::<T>()));
            x[i] = within(z, T::ratio(-3, 1), T::ratio(3, 1)).over(T::ratio(3, 1));
            i = i + 1;
        }
        assert(x@ =~= self@.normalized(raw@));
        x
    }
}

/// One call of [`EwmaNorm::update`].
pub struct Update<T> {
    pub raw: Seq<T>,
    pub dt: u64,
    pub alpha: T,
}

/// The time that updates count for: the first one counts for none.
pub open spec fn time_counted<T>(updates: Seq<Update<T>>) -> int
    decreases updates.len(),
{
    if updates.len() <= 1 {
        0
    } else {
        time_counted(updates.drop_last()) + step_spec(updates.last().dt)
    }
}

impl<T: Real> EwmaState<T> {
    /// What is held after updates, one after another, from nothing.
    pub open spec fn run(updates: Seq<Update<T>>) -> Self
        decreases updates.len(),
    {
        if updates.len() == 0 {
            Self::blank()
        } else {
            let u = updates.last();
            Self::run(updates.drop_last()).next(u.raw, u.dt, u.alpha)
        }
    }

    /// The first update gives zeros, and counts for no time, however long ago
    /// anything was.
    pub proof fn lemma_first_update(raw: Seq<T>, dt: u64, alpha: T)
        ensures
            Self::blank().output(raw, dt, alpha) == zeros::<T>(),
            Self::blank().next(raw, dt, alpha).accumulated == 0,
    {
    }

    /// The time that has gone into the mean is what all updates but the first
    /// one count for, held at the largest span.
    pub proof fn lemma_time_counted(updates: Seq<Update<T>>)
        ensures
            Self::run(updates).initialized == (updates.len() > 0),
            Self::run(updates).accumulated == (if time_counted(updates) > u64::MAX {
                u64::MAX as int
            } else {
                time_counted(updates)
            }),
            time_counted(updates) >= 0,
        decreases updates.len(),
    {
        if updates.len() > 0 {
            Self::lemma_time_counted(updates.drop_last());
        }
    }

    /// After the first update every factor comes out between minus one and
    /// one, as long as its distance from the mean is finite.
    pub proof fn lemma_output_bounded(self, raw: Seq<T>, dt: u64, alpha: T, k: int)
        requires
            0 <= k < FEATURE_COUNT,
            self.initialized,
            finite_spec(raw[k].minus_spec(self.next(raw, dt, alpha).mean[k])),
        ensures
            between(
                self.output(raw, dt, alpha)[k],
                T::ratio_spec((-1) as i64, 1),
                T::ratio_spec(1, 1),
            ),
    {
        let next = self.next(raw, dt, alpha);
        lemma_deviations(raw[k], next.mean[k], next.var[k]);
        lemma_scored_bounded(raw[k], next.mean[k], next.var[k]);
    }

    /// The first update gives numbers between minus one and one as well.
    pub proof fn lemma_first_bounded(raw: Seq<T>, dt: u64, alpha: T, k: int)
        requires
            0 <= k < FEATURE_COUNT,
        ensures
            between(
                Self::blank().output(raw, dt, alpha)[k],
                T::ratio_spec((-1) as i64, 1),
                T::ratio_spec(1, 1),
            ),
    {
        T::law_whole((-1) as i64, 0);
        T::law_whole(0, 1);
    }
}

pub open spec fn between<T: Real>(x: T, lo: T, hi: T) -> bool {
    lo.at_most_spec(x) && x.at_most_spec(hi)
}

/// A factor in deviations from the mean is a number, whatever the variance.
proof fn lemma_deviations<T: Real>(raw: T, mean: T, var: T)
    requires
        finite_spec(raw.minus_spec(mean)),
    ensures
        !missing_spec(deviations(raw, mean, var)),
{
    let kept = larger_spec(var, zero_spec());
    T::law_whole(0, 0);
    T::law_order(zero_spec(), kept);
    T::law_root(kept);
    T::law_eps();
    T::law_sum_above_zero(kept.root_spec(), eps_spec());
    T::law_quotient_number(raw.minus_spec(mean), kept.root_spec().plus_spec(eps_spec()));
}

/// A normalised factor lies between minus one and one, where it is a number of
/// deviations at all.
pub proof fn lemma_scored_bounded<T: Real>(raw: T, mean: T, var: T)
    requires
        !missing_spec(deviations(raw, mean, var)),
    ensures
        between(
            scored(raw, mean, var),
            T::ratio_spec((-1) as i64, 1),
            T::ratio_spec(1, 1),
        ),
{
    let z = deviations(raw, mean, var);
    let lo = T::ratio_spec((-3) as i64, 1);
    let hi = T::ratio_spec(3, 1);
    let x = within_spec(z, lo, hi);
    T::law_whole((-3) as i64, (-3) as i64);
    T::law_whole((-3) as i64, 3);
    T::law_whole(3, 3);
    T::law_whole(0, 3);
    T::law_order(lo, z);
    T::law_order(z, hi);
    T::law_quotient_order(lo, x, hi);
    T::law_quotient_order(x, hi, hi);
    T::law_whole_quotient((-1) as i64, 3);
    T::law_whole_quotient(1, 3);
}

} // verus!
