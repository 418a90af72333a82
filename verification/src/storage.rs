//! What is stored, and what is read out of it.
use vstd::prelude::*;

use crate::eval::CompletedSample;
#[allow(unused_imports)]
use crate::eval::CompletedView;
use crate::number::{count, larger, same, same_sign, zero, Real};
#[allow(unused_imports)]
use crate::number::{accumulate, count_spec, larger_spec, same_sign_spec, same_spec, zero_spec};
use crate::text::same_text;
use crate::types::{FittedModel, Horizon, HorizonParams, ModelStatus, FEATURE_COUNT};

verus! {

/// A request to store something.
#[derive(Debug)]
pub enum WriteCmd<T> {
    Sample(CompletedSample<T>),
    Model(FittedModel<T>),
    Cleanup { retain_days: i64 },
}

/// A sample as it is read back.
#[derive(Debug)]
pub struct SampleRow<T> {
    pub ts_ms: i64,
    pub mid: T,
    pub tick_size: T,
    pub factors: [T; FEATURE_COUNT],
    pub model_version: String,
    pub feature_version: String,
    pub pred: [Option<T>; 3],
    pub actual: [Option<T>; 3],
    pub quality: String,
}

impl<T: Real> Clone for SampleRow<T> {
    fn clone(&self) -> (r: Self)
        ensures
            r == *self,
    {
        SampleRow {
            ts_ms: self.ts_ms,
            mid: self.mid,
            tick_size: self.tick_size,
            factors: self.factors,
            model_version: self.model_version.clone(),
            feature_version: self.feature_version.clone(),
            pred: self.pred,
            actual: self.actual,
            quality: self.quality.clone(),
        }
    }
}

/// How well the predictions of one horizon did.
#[derive(Debug)]
pub struct HorizonMetrics<T> {
    pub horizon: String,
    pub n_total: i64,
    pub n_valid: i64,
    pub coverage: T,
    pub ic: Option<T>,
    pub mae: Option<T>,
    pub rmse: Option<T>,
    pub dir_hits: i64,
    pub dir_n: i64,
    pub dir_acc: Option<T>,
    pub buckets: Vec<BucketMean<T>>,
}

impl<T: Real> HorizonMetrics<T> {
    /// Do both say the same?
    pub open spec fn same_as(self, other: Self) -> bool {
        &&& self.horizon == other.horizon
        &&& self.n_total == other.n_total
        &&& self.n_valid == other.n_valid
        &&& self.coverage == other.coverage
        &&& self.ic == other.ic
        &&& self.mae == other.mae
        &&& self.rmse == other.rmse
        &&& self.dir_hits == other.dir_hits
        &&& self.dir_n == other.dir_n
        &&& self.dir_acc == other.dir_acc
        &&& self.buckets@ == other.buckets@
    }
}

impl<T: Real> Clone for HorizonMetrics<T> {
    fn clone(&self) -> (r: Self)
        ensures
            r.same_as(*self),
    {
        let mut buckets: Vec<BucketMean<T>> = Vec::new();
        for i in 0..self.buckets.len()
            invariant
                buckets@ == self.buckets@.take(i as int),
        {
            assert(self.buckets@.take(i + 1) =~= self.buckets@.take(i as int).push(
                self.buckets@[i as int],
            ));
            buckets.push(self.buckets[i]);
        }
        assert(self.buckets@.take(self.buckets@.len() as int) =~= self.buckets@);
        HorizonMetrics {
            horizon: self.horizon.clone(),
            n_total: self.n_total,
            n_valid: self.n_valid,
            coverage: self.coverage,
            ic: self.ic,
            mae: self.mae,
            rmse: self.rmse,
            dir_hits: self.dir_hits,
            dir_n: self.dir_n,
            dir_acc: self.dir_acc,
            buckets,
        }
    }
}

impl<T: Real> Default for HorizonMetrics<T> {
    fn default() -> (r: Self)
        ensures
            r.horizon@ == ""@,
            r.n_total == 0,
            r.n_valid == 0,
            r.coverage == zero_spec::<T>(),
            r.ic is None,
            r.mae is None,
            r.rmse is None,
            r.dir_hits == 0,
            r.dir_n == 0,
            r.dir_acc is None,
            r.buckets@.len() == 0,
    {
        HorizonMetrics {
            horizon: "".to_string(),
            n_total: 0,
            n_valid: 0,
            coverage: zero(),
            ic: None,
            mae: None,
            rmse: None,
            dir_hits: 0,
            dir_n: 0,
            dir_acc: None,
            buckets: Vec::new(),
        }
    }
}

/// What came, on average, of predictions between `lo` and `hi`.
#[derive(Clone, Copy, Debug)]
pub struct BucketMean<T> {
    pub lo: T,
    pub hi: T,
    pub mean_actual: T,
    pub n: i64,
}

/// The sums that the metrics are made from.
#[derive(Clone, Copy, Debug)]
pub struct MetricAcc<T> {
    pub n_total: i64,
    pub n_valid: i64,
    pub sum_p: T,
    pub sum_a: T,
    pub sum_pp: T,
    pub sum_aa: T,
    pub sum_pa: T,
    pub sum_abs: T,
    pub sum_sq: T,
    pub dir_hits: i64,
    pub dir_n: i64,
}

/// Does the prediction say a direction, and did the price move at all?
pub open spec fn directional<T: Real>(p: T, a: T, dir_thresh: T) -> bool {
    !same_spec(a, zero_spec()) && dir_thresh.at_most_spec(p.magnitude_spec())
}

/// The correlation of predictions `p` and outcomes `a`, from their sums. There
/// is none of fewer than two, and none where one of them does not vary.
pub open spec fn pearson_spec<T: Real>(
    n: i64,
    sum_p: T,
    sum_a: T,
    sum_pp: T,
    sum_aa: T,
    sum_pa: T,
) -> Option<T> {
    let k = count_spec::<T>(n as int);
    let num = k.times_spec(sum_pa).minus_spec(sum_p.times_spec(sum_a));
    let var_p = larger_spec(k.times_spec(sum_pp).minus_spec(sum_p.times_spec(sum_p)), zero_spec());
    let var_a = larger_spec(k.times_spec(sum_aa).minus_spec(sum_a.times_spec(sum_a)), zero_spec());
    let den = var_p.times_spec(var_a).root_spec();
    if n < 2 || same_spec(den, zero_spec()) {
        None
    } else {
        Some(num.over_spec(den))
    }
}

impl<T: Real> MetricAcc<T> {
    pub open spec fn blank() -> Self {
        MetricAcc {
            n_total: 0,
            n_valid: 0,
            sum_p: zero_spec(),
            sum_a: zero_spec(),
            sum_pp: zero_spec(),
            sum_aa: zero_spec(),
            sum_pa: zero_spec(),
            sum_abs: zero_spec(),
            sum_sq: zero_spec(),
            dir_hits: 0,
            dir_n: 0,
        }
    }

    /// Hits are among the directional ones, these among the valid ones, and
    /// these among all.
    pub open spec fn wf(self) -> bool {
        0 <= self.dir_hits <= self.dir_n <= self.n_valid <= self.n_total
    }

    /// One more prediction and what came of it. It is valid where both are there.
    pub open spec fn added(self, pred: Option<T>, actual: Option<T>, dir_thresh: T) -> Self {
        let n_total = (self.n_total + 1) as i64;
        match (pred, actual) {
            (Some(p), Some(a)) => MetricAcc {
                n_total,
                n_valid: (self.n_valid + 1) as i64,
                sum_p: self.sum_p.plus_spec(p),
                sum_a: self.sum_a.plus_spec(a),
                sum_pp: self.sum_pp.plus_spec(p.times_spec(p)),
                sum_aa: self.sum_aa.plus_spec(a.times_spec(a)),
                sum_pa: self.sum_pa.plus_spec(p.times_spec(a)),
                sum_abs: self.sum_abs.plus_spec(p.minus_spec(a).magnitude_spec()),
                sum_sq: self.sum_sq.plus_spec(p.minus_spec(a).times_spec(p.minus_spec(a))),
                dir_hits: if directional(p, a, dir_thresh) && same_sign_spec(p, a) {
                    (self.dir_hits + 1) as i64
                } else {
                    self.dir_hits
                },
                dir_n: if directional(p, a, dir_thresh) {
                    (self.dir_n + 1) as i64
                } else {
                    self.dir_n
                },
            },
            _ => MetricAcc { n_total, ..self },
        }
    }

    /// Predictions and what came of them, one after another.
    pub open spec fn over(pairs: Seq<(Option<T>, Option<T>)>, dir_thresh: T) -> Self
        decreases pairs.len(),
    {
        if pairs.len() == 0 {
            Self::blank()
        } else {
            Self::over(pairs.drop_last(), dir_thresh).added(
                pairs.last().0,
                pairs.last().1,
                dir_thresh,
            )
        }
    }

    pub open spec fn coverage_spec(self) -> T {
        if self.n_total == 0 {
            zero_spec()
        } else {
            count_spec::<T>(self.n_valid as int).over_spec(count_spec(self.n_total as int))
        }
    }

    pub open spec fn ic_spec(self) -> Option<T> {
        pearson_spec(
            self.n_valid,
            self.sum_p,
            self.sum_a,
            self.sum_pp,
            self.sum_aa,
            self.sum_pa,
        )
    }

    pub open spec fn mae_spec(self) -> Option<T> {
        if self.n_valid == 0 {
            None
        } else {
            Some(self.sum_abs.over_spec(count_spec(self.n_valid as int)))
        }
    }

    pub open spec fn rmse_spec(self) -> Option<T> {
        if self.n_valid == 0 {
            None
        } else {
            Some(self.sum_sq.over_spec(count_spec(self.n_valid as int)).root_spec())
        }
    }

    pub open spec fn dir_acc_spec(self) -> Option<T> {
        if self.dir_n == 0 {
            None
        } else {
            Some(count_spec::<T>(self.dir_hits as int).over_spec(count_spec(self.dir_n as int)))
        }
    }

    /// The counts stay in order, however many predictions come.
    pub proof fn lemma_over_wf(pairs: Seq<(Option<T>, Option<T>)>, dir_thresh: T)
        requires
            pairs.len() <= i64::MAX,
        ensures
            Self::over(pairs, dir_thresh).wf(),
            Self::over(pairs, dir_thresh).n_total == pairs.len(),
        decreases pairs.len(),
    {
        if pairs.len() > 0 {
            Self::lemma_over_wf(pairs.drop_last(), dir_thresh);
        }
    }

    /// Adds a prediction and what came of it.
    pub fn add(&mut self, pred: Option<T>, actual: Option<T>, dir_thresh: T)
        requires
            old(self).n_total < i64::MAX,
            old(self).n_valid < i64::MAX,
            old(self).dir_n < i64::MAX,
            old(self).dir_hits < i64::MAX,
        ensures
            *final(self) == old(self).added(pred, actual, dir_thresh),
    {
        self.n_total = self.n_total + 1;
        if let (Some(p), Some(a)) = (pred, actual) {
            self.n_valid = self.n_valid + 1;
            self.sum_p = self.sum_p.plus(p);
            self.sum_a = self.sum_a.plus(a);
            self.sum_pp = self.sum_pp.plus(p.times(p));
            self.sum_aa = self.sum_aa.plus(a.times(a));
            self.sum_pa = self.sum_pa.plus(p.times(a));
            self.sum_abs = self.sum_abs.plus(p.minus(a).magnitude());
            self.sum_sq = self.sum_sq.plus(p.minus(a).times(p.minus(a)));
            if !same(a, zero()) && dir_thresh.at_most(p.magnitude()) {
                self.dir_n = self.dir_n + 1;
                if same_sign(p, a) {
                    self.dir_hits = self.dir_hits + 1;
                }
            }
        }
    }

    /// The part of the predictions that are valid.
    pub fn coverage(&self) -> (r: T)
        ensures
            r == self.coverage_spec(),
    {
        if self.n_total == 0 {
            zero()
        } else {
            count::<T>(self.n_valid).over(count(self.n_total))
        }
    }

    /// The correlation of predictions and outcomes.
    pub fn pearson_ic(&self) -> (r: Option<T>)
        ensures
            r == self.ic_spec(),
    {
        pearson(self.n_valid, self.sum_p, self.sum_a, self.sum_pp, self.sum_aa, self.sum_pa)
    }

    /// The mean error.
    pub fn mae(&self) -> (r: Option<T>)
        ensures
            r == self.mae_spec(),
    {
        if self.n_valid == 0 {
            None
        } else {
            Some(self.sum_abs.over(count(self.n_valid)))
        }
    }

    /// The root of the mean squared error.
    pub fn rmse(&self) -> (r: Option<T>)
        ensures
            r == self.rmse_spec(),
    {
        if self.n_valid == 0 {
            None
        } else {
            Some(self.sum_sq.over(count(self.n_valid)).root())
        }
    }

    /// The part of the directional predictions that had the sign right.
    pub fn dir_acc(&self) -> (r: Option<T>)
        ensures
            r == self.dir_acc_spec(),
    {
        if self.dir_n == 0 {
            None
        } else {
            Some(count::<T>(self.dir_hits).over(count(self.dir_n)))
        }
    }

    pub fn to_metrics(&self, horizon: Horizon) -> (r: HorizonMetrics<T>)
        ensures
            r.sums_up(*self, horizon),
            r.buckets@.len() == 0,
    {
        HorizonMetrics {
            horizon: horizon.as_str().to_string(),
            n_total: self.n_total,
            n_valid: self.n_valid,
            coverage: self.coverage(),
            ic: self.pearson_ic(),
            mae: self.mae(),
            rmse: self.rmse(),
            dir_hits: self.dir_hits,
            dir_n: self.dir_n,
            dir_acc: self.dir_acc(),
            buckets: Vec::new(),
        }
    }
}

impl<T: Real> Default for MetricAcc<T> {
    fn default() -> (r: Self)
        ensures
            r == MetricAcc::<T>::blank(),
    {
        MetricAcc {
            n_total: 0,
            n_valid: 0,
            sum_p: zero(),
            sum_a: zero(),
            sum_pp: zero(),
            sum_aa: zero(),
            sum_pa: zero(),
            sum_abs: zero(),
            sum_sq: zero(),
            dir_hits: 0,
            dir_n: 0,
        }
    }
}

impl<T: Real> HorizonMetrics<T> {
    /// Are these the metrics, but for the buckets, of what was summed up?
    pub open spec fn sums_up(self, acc: MetricAcc<T>, h: Horizon) -> bool {
        &&& self.horizon@ == h.name()
        &&& self.n_total == acc.n_total
        &&& self.n_valid == acc.n_valid
        &&& self.coverage == acc.coverage_spec()
        &&& self.ic == acc.ic_spec()
        &&& self.mae == acc.mae_spec()
        &&& self.rmse == acc.rmse_spec()
        &&& self.dir_hits == acc.dir_hits
        &&& self.dir_n == acc.dir_n
        &&& self.dir_acc == acc.dir_acc_spec()
    }
}

pub fn pearson<T: Real>(n: i64, sum_p: T, sum_a: T, sum_pp: T, sum_aa: T, sum_pa: T) -> (r: Option<T>)
    ensures
        r == pearson_spec(n, sum_p, sum_a, sum_pp, sum_aa, sum_pa),
{
    if n < 2 {
        return None;
    }
    let k = count::<T>(n);
    let num = k.times(sum_pa).minus(sum_p.times(sum_a));
    let var_p = larger(k.times(sum_pp).minus(sum_p.times(sum_p)), zero());
    let var_a = larger(k.times(sum_aa).minus(sum_a.times(sum_a)), zero());
    let den = var_p.times(var_a).root();
    if same(den, zero()) {
        None
    } else {
        Some(num.over(den))
    }
}

/// Did the prediction have the sign right? Nothing can be said where the price
/// did not move or the prediction is below the threshold.
pub open spec fn hit_spec<T: Real>(pred: T, actual: T, thresh: T) -> Option<bool> {
    if same_spec(actual, zero_spec()) || pred.magnitude_spec().below_spec(thresh) {
        None
    } else {
        Some(same_sign_spec(pred, actual))
    }
}

pub fn directional_hit<T: Real>(pred: T, actual: T, thresh: T) -> (r: Option<bool>)
    ensures
        r == hit_spec(pred, actual, thresh),
{
    if same(actual, zero()) || pred.magnitude().below(thresh) {
        None
    } else {
        Some(same_sign(pred, actual))
    }
}

/// How many buckets there are.
pub const BUCKETS: usize = 5;

/// The edges between the buckets.
pub open spec fn edge_spec<T: Real>(i: int) -> T {
    if i <= 0 {
        zero_spec::<T>().minus_spec(T::infinity_spec())
    } else if i == 1 {
        T::ratio_spec((-1) as i64, 2)
    } else if i == 2 {
        T::ratio_spec((-1) as i64, 10)
    } else if i == 3 {
        T::ratio_spec(1, 10)
    } else if i == 4 {
        T::ratio_spec(1, 2)
    } else {
        T::infinity_spec()
    }
}

fn edge<T: Real>(i: usize) -> (r: T)
    ensures
        r == edge_spec::<T>(i as int),
{
    if i == 0 {
        zero::<T>().minus(T::infinity())
    } else if i == 1 {
        T::ratio(-1, 2)
    } else if i == 2 {
        T::ratio(-1, 10)
    } else if i == 3 {
        T::ratio(1, 10)
    } else if i == 4 {
        T::ratio(1, 2)
    } else {
        T::infinity()
    }
}

/// Does `p` lie between the edges of bucket `i`?
pub open spec fn in_bucket<T: Real>(p: T, i: int) -> bool {
    edge_spec::<T>(i).at_most_spec(p) && p.below_spec(edge_spec::<T>(i + 1))
}

/// The first bucket from `i` on that `p` lies in, or else the last one.
pub open spec fn bucket_from<T: Real>(p: T, i: int) -> int
    decreases BUCKETS - i,
{
    if i >= BUCKETS {
        BUCKETS - 1
    } else if in_bucket(p, i) {
        i
    } else {
        bucket_from(p, i + 1)
    }
}

fn bucket_of<T: Real>(p: T) -> (r: usize)
    ensures
        r == bucket_from(p, 0),
        r < BUCKETS,
{
    let mut i: usize = 0;
    while i < BUCKETS
        invariant
            0 <= i <= BUCKETS,
            bucket_from(p, 0) == bucket_from(p, i as int),
        decreases BUCKETS - i,
    {
        if edge::<T>(i).at_most(p) && p.below(edge::<T>(i + 1)) {
            return i;
        }
        i = i + 1;
    }
    BUCKETS - 1
}

/// The outcomes of the predictions in bucket `b`.
pub open spec fn outcomes<T: Real>(pairs: Seq<(T, T)>, b: int) -> Seq<T>
    decreases pairs.len(),
{
    if pairs.len() == 0 {
        Seq::empty()
    } else {
        let rest = outcomes(pairs.drop_last(), b);
        if bucket_from(pairs.last().0, 0) == b {
            rest.push(pairs.last().1)
        } else {
            rest
        }
    }
}

/// The mean outcome in bucket `b`. The outer edges are shown as a thousand million.
pub open spec fn bucket_mean<T: Real>(pairs: Seq<(T, T)>, b: int) -> BucketMean<T> {
    let own = outcomes(pairs, b);
    BucketMean {
        lo: if b == 0 {
            T::ratio_spec((-1_000_000_000) as i64, 1)
        } else {
            edge_spec(b)
        },
        hi: if b == BUCKETS - 1 {
            T::ratio_spec(1_000_000_000, 1)
        } else {
            edge_spec(b + 1)
        },
        mean_actual: accumulate(zero_spec(), own).over_spec(count_spec(own.len() as int)),
        n: own.len() as i64,
    }
}

/// The means of the first `k` buckets, without the empty ones.
pub open spec fn means_up_to<T: Real>(pairs: Seq<(T, T)>, k: int) -> Seq<BucketMean<T>>
    decreases k,
{
    if k <= 0 {
        Seq::empty()
    } else {
        let rest = means_up_to(pairs, k - 1);
        if outcomes(pairs, k - 1).len() > 0 {
            rest.push(bucket_mean(pairs, k - 1))
        } else {
            rest
        }
    }
}

/// Every prediction is in one bucket.
pub proof fn lemma_buckets_partition<T: Real>(pairs: Seq<(T, T)>)
    ensures
        outcomes(pairs, 0).len() + outcomes(pairs, 1).len() + outcomes(pairs, 2).len() + outcomes(
            pairs,
            3,
        ).len() + outcomes(pairs, 4).len() == pairs.len(),
    decreases pairs.len(),
{
    if pairs.len() > 0 {
        lemma_buckets_partition(pairs.drop_last());
        reveal_with_fuel(bucket_from, 6);
    }
}

proof fn lemma_outcomes_len<T: Real>(pairs: Seq<(T, T)>, b: int)
    ensures
        outcomes(pairs, b).len() <= pairs.len(),
    decreases pairs.len(),
{
    if pairs.len() > 0 {
        lemma_outcomes_len(pairs.drop_last(), b);
    }
}

/// The mean outcome in each bucket of predictions that is not empty.
pub fn bucket_means<T: Real>(pairs: &[(T, T)]) -> (r: Vec<BucketMean<T>>)
    requires
        pairs@.len() <= i64::MAX,
    ensures
        r@ == means_up_to(pairs@, BUCKETS as int),
{
    let mut sums = [zero::<T>(); BUCKETS];
    let mut ns = [0i64; BUCKETS];
    let mut i: usize = 0;
    assert(pairs@.take(0) =~= Seq::<(T, T)>::empty());
    while i < pairs.len()
        invariant
            0 <= i <= pairs@.len() <= i64::MAX,
            forall|b: int|
                0 <= b < BUCKETS ==> (#[trigger] sums@[b]) == accumulate(
                    zero_spec(),
                    outcomes(pairs@.take(i as int), b),
                ),
            forall|b: int|
                0 <= b < BUCKETS ==> (#[trigger] ns@[b]) == outcomes(
                    pairs@.take(i as int),
                    b,
                ).len(),
        decreases pairs@.len() - i,
    {
        let (p, a) = pairs[i];
        let b: usize = bucket_of(p);
        proof {
            let before = pairs@.take(i as int);
            let after = pairs@.take(i + 1);
            assert(after.drop_last() =~= before);
            assert(after.last() == pairs@[i as int]);
            lemma_outcomes_len(before, b as int);
            assert(ns@[b as int] < i64::MAX);
            assert forall|k: int| 0 <= k < BUCKETS implies #[trigger] outcomes(after, k) == (if k
                == b {
                outcomes(before, k).push(a)
            } else {
                outcomes(before, k)
            }) by {}
            assert(outcomes(before, b as int).push(a).drop_last() =~= outcomes(before, b as int));
        }
        sums[b] = sums[b].plus(a);
        ns[b] = ns[b] + 1;
        i = i + 1;
    }
    assert(pairs@.take(i as int) =~= pairs@);
    let mut out: Vec<BucketMean<T>> = Vec::new();
    let mut k: usize = 0;
    while k < BUCKETS
        invariant
            0 <= k <= BUCKETS,
            pairs@.len() <= i64::MAX,
            out@ == means_up_to(pairs@, k as int),
            forall|b: int|
                0 <= b < BUCKETS ==> (#[trigger] sums@[b]) == accumulate(
                    zero_spec(),
                    outcomes(pairs@, b),
                ),
            forall|b: int| 0 <= b < BUCKETS ==> (#[trigger] ns@[b]) == outcomes(pairs@, b).len(),
        decreases BUCKETS - k,
    {
        if ns[k] > 0 {
            out.push(
                BucketMean {
                    lo: if k == 0 {
                        T::ratio(-1_000_000_000, 1)
                    } else {
                        edge(k)
                    },
                    hi: if k == BUCKETS - 1 {
                        T::ratio(1_000_000_000, 1)
                    } else {
                        edge(k + 1)
                    },
                    mean_actual: sums[k].over(count(ns[k])),
                    n: ns[k],
                },
            );
        }
        k = k + 1;
    }
    out
}

/// The predictions and outcomes of a stored sample, one for each horizon.
#[derive(Clone, Copy, Debug)]
pub struct Outcome<T> {
    pub pred: [Option<T>; 3],
    pub actual: [Option<T>; 3],
}

/// The predictions and outcomes of one horizon.
pub open spec fn column<T>(rows: Seq<Outcome<T>>, h: Horizon) -> Seq<(Option<T>, Option<T>)> {
    rows.map_values(|o: Outcome<T>| (o.pred@[h.index_spec()], o.actual@[h.index_spec()]))
}

/// The pairs of which both are there.
pub open spec fn valid_pairs<T>(pairs: Seq<(Option<T>, Option<T>)>) -> Seq<(T, T)>
    decreases pairs.len(),
{
    if pairs.len() == 0 {
        Seq::empty()
    } else {
        let rest = valid_pairs(pairs.drop_last());
        match pairs.last() {
            (Some(p), Some(a)) => rest.push((p, a)),
            _ => rest,
        }
    }
}

proof fn lemma_valid_len<T>(pairs: Seq<(Option<T>, Option<T>)>)
    ensures
        valid_pairs(pairs).len() <= pairs.len(),
    decreases pairs.len(),
{
    if pairs.len() > 0 {
        lemma_valid_len(pairs.drop_last());
    }
}

/// Are these the metrics of one horizon, buckets and all?
pub open spec fn measures<T: Real>(
    m: HorizonMetrics<T>,
    pairs: Seq<(Option<T>, Option<T>)>,
    h: Horizon,
    dir_thresh: T,
) -> bool {
    &&& m.sums_up(MetricAcc::over(pairs, dir_thresh), h)
    &&& m.buckets@ == means_up_to(valid_pairs(pairs), BUCKETS as int)
}

fn horizon_metrics<T: Real>(rows: &[Outcome<T>], h: Horizon, dir_thresh: T) -> (r: HorizonMetrics<T>)
    requires
        rows@.len() <= i64::MAX,
    ensures
        measures(r, column(rows@, h), h, dir_thresh),
{
    let idx: usize = h.index();
    let ghost pairs = column(rows@, h);
    let mut acc: MetricAcc<T> = MetricAcc::default();
    let mut both: Vec<(T, T)> = Vec::new();
    let mut i: usize = 0;
    assert(pairs.take(0) =~= Seq::<(Option<T>, Option<T>)>::empty());
    while i < rows.len()
        invariant
            0 <= i <= rows@.len() <= i64::MAX,
            idx == h.index_spec(),
            idx < 3,
            pairs == column(rows@, h),
            acc == MetricAcc::over(pairs.take(i as int), dir_thresh),
            both@ == valid_pairs(pairs.take(i as int)),
        decreases rows@.len() - i,
    {
        proof {
            assert(pairs.take(i + 1).drop_last() =~= pairs.take(i as int));
            assert(pairs.take(i + 1).last() == pairs[i as int]);
            MetricAcc::<T>::lemma_over_wf(pairs.take(i as int), dir_thresh);
        }
        let pred = rows[i].pred[idx];
        let actual = rows[i].actual[idx];
        acc.add(pred, actual, dir_thresh);
        if let (Some(p), Some(a)) = (pred, actual) {
            both.push((p, a));
        }
        i = i + 1;
    }
    proof {
        assert(pairs.take(i as int) =~= pairs);
        lemma_valid_len(pairs);
    }
    let mut m = acc.to_metrics(h);
    m.buckets = bucket_means(both.as_slice());
    m
}

/// The metrics of stored samples, one for each horizon.
pub fn query_metrics<T: Real>(rows: &[Outcome<T>], dir_thresh: T) -> (r: [HorizonMetrics<T>; 3])
    requires
        rows@.len() <= i64::MAX,
    ensures
        forall|h: Horizon|
            measures(#[trigger] r@[h.index_spec()], column(rows@, h), h, dir_thresh),
{
    [
        horizon_metrics(rows, Horizon::H10, dir_thresh),
        horizon_metrics(rows, Horizon::H25, dir_thresh),
        horizon_metrics(rows, Horizon::H50, dir_thresh),
    ]
}

/// The place of point `i` among `len` rows that are thinned out to `max` points.
pub open spec fn thinned_index<T: Real>(len: int, max: int, i: int) -> int {
    let step = count_spec::<T>(len).over_spec(count_spec(max));
    let at = count_spec::<T>(i).times_spec(step).floor_spec() as int;
    if at < len - 1 {
        at
    } else {
        len - 1
    }
}

/// At most `max_points` rows, evenly spread; all rows where there is no limit.
pub open spec fn downsampled<T: Real>(rows: Seq<SampleRow<T>>, max_points: int) -> Seq<SampleRow<T>> {
    if rows.len() <= max_points || max_points == 0 {
        rows
    } else {
        Seq::new(
            max_points as nat,
            |i: int| rows[thinned_index::<T>(rows.len() as int, max_points, i)],
        )
    }
}

/// Never more rows are left than were asked for.
pub proof fn lemma_downsampled_len<T: Real>(rows: Seq<SampleRow<T>>, max_points: int)
    requires
        max_points > 0,
    ensures
        downsampled(rows, max_points).len() <= max_points,
{
}

pub fn downsample<T: Real>(rows: Vec<SampleRow<T>>, max_points: usize) -> (r: Vec<SampleRow<T>>)
    requires
        rows@.len() <= i64::MAX,
    ensures
        r@ == downsampled(rows@, max_points as int),
{
    if rows.len() <= max_points || max_points == 0 {
        return rows;
    }
    let len: usize = rows.len();
    let step = count::<T>(len as i64).over(count(max_points as i64));
    let mut out: Vec<SampleRow<T>> = Vec::new();
    let mut i: usize = 0;
    while i < max_points
        invariant
            0 <= i <= max_points < len,
            len == rows@.len(),
            rows@.len() <= i64::MAX,
            step == count_spec::<T>(len as int).over_spec(count_spec(max_points as int)),
            out@.len() == i,
            forall|k: int|
                0 <= k < i ==> (#[trigger] out@[k]) == downsampled(rows@, max_points as int)[k],
        decreases max_points - i,
    {
        let at: usize = count::<T>(i as i64).times(step).floor();
        let idx: usize = if at < len - 1 {
            at
        } else {
            len - 1
        };
        out.push(rows[idx].clone());
        i = i + 1;
    }
    assert(out@ =~= downsampled(rows@, max_points as int));
    out
}

/// The numbers of a list, in order, filled up with zeros.
pub open spec fn padded<T: Real>(v: Seq<T>) -> Seq<T> {
    Seq::new(
        FEATURE_COUNT as nat,
        |i: int|
            if i < v.len() {
                v[i]
            } else {
                zero_spec()
            },
    )
}

/// The factors in a stored list, which is empty where it could not be read.
pub fn parse_factors<T: Real>(v: &[T]) -> (r: [T; FEATURE_COUNT])
    ensures
        r@ == padded(v@),
{
    let mut out = [zero::<T>(); FEATURE_COUNT];
    let mut i: usize = 0;
    while i < FEATURE_COUNT && i < v.len()
        invariant
            0 <= i <= FEATURE_COUNT,
            i <= v@.len(),
            forall|k: int| 0 <= k < i ==> (#[trigger] out@[k]) == v@[k],
            forall|k: int| i <= k < FEATURE_COUNT ==> (#[trigger] out@[k]) == zero_spec::<T>(),
        decreases FEATURE_COUNT - i,
    {
        out[i] = v[i];
        i = i + 1;
    }
    assert(out@ =~= padded(v@));
    out
}

/// The stored coefficients of one horizon, each where it is a number.
#[derive(Debug)]
pub struct StoredParams<T> {
    pub intercept: Option<T>,
    pub beta: Vec<Option<T>>,
}

/// The number, or zero where there is none.
pub open spec fn or_zero<T: Real>(x: Option<T>) -> T {
    match x {
        Some(v) => v,
        None => zero_spec(),
    }
}

/// The coefficients that are read back: zero for each that is no number or
/// is not there.
pub open spec fn parse_params_spec<T: Real>(s: StoredParams<T>) -> (T, Seq<T>) {
    (or_zero(s.intercept), padded(s.beta@.map_values(|x: Option<T>| or_zero(x))))
}

pub fn parse_params<T: Real>(s: &StoredParams<T>) -> (r: HorizonParams<T>)
    ensures
        (r.intercept, r.beta@) == parse_params_spec(*s),
{
    let intercept = match s.intercept {
        Some(v) => v,
        None => zero(),
    };
    let mut beta = [zero::<T>(); FEATURE_COUNT];
    let mut i: usize = 0;
    while i < FEATURE_COUNT && i < s.beta.len()
        invariant
            0 <= i <= FEATURE_COUNT,
            i <= s.beta@.len(),
            forall|k: int| 0 <= k < i ==> (#[trigger] beta@[k]) == or_zero(s.beta@[k]),
            forall|k: int| i <= k < FEATURE_COUNT ==> (#[trigger] beta@[k]) == zero_spec::<T>(),
        decreases FEATURE_COUNT - i,
    {
        beta[i] = match s.beta[i] {
            Some(v) => v,
            None => zero(),
        };
        i = i + 1;
    }
    assert(beta@ =~= parse_params_spec(*s).1);
    HorizonParams { intercept, beta }
}

/// Coefficients that are stored in full are read back as they were.
pub proof fn lemma_params_read_back<T: Real>(p: HorizonParams<T>, s: StoredParams<T>)
    requires
        s.intercept == Some(p.intercept),
        s.beta@ == p.beta@.map_values(|b: T| Some(b)),
    ensures
        parse_params_spec(s) == (p.intercept, p.beta@),
{
    assert(parse_params_spec(s).1 =~= p.beta@);
}

/// A model as it is stored.
#[derive(Debug)]
pub struct ModelRow<T> {
    pub version: String,
    pub status: String,
    pub feature_version: String,
    pub h10: StoredParams<T>,
    pub h25: StoredParams<T>,
    pub h50: StoredParams<T>,
    pub train_start_ms: Option<i64>,
    pub train_end_ms: Option<i64>,
    pub valid_start_ms: Option<i64>,
    pub valid_end_ms: Option<i64>,
    pub train_params_json: String,
    pub metrics_json: String,
    pub created_at_ms: i64,
    pub activated_at_ms: Option<i64>,
    pub depth_granularity_note: String,
}

/// The status that a text stands for; an unknown one is provisional.
pub open spec fn status_read(s: Seq<char>) -> ModelStatus {
    if s == ModelStatus::Active.name() {
        ModelStatus::Active
    } else if s == ModelStatus::Rejected.name() {
        ModelStatus::Rejected
    } else {
        ModelStatus::Provisional
    }
}

impl<T: Real> ModelRow<T> {
    /// Is this the model in the row?
    pub open spec fn holds(self, m: FittedModel<T>) -> bool {
        &&& m.version == self.version
        &&& m.status == status_read(self.status@)
        &&& m.feature_version == self.feature_version
        &&& (m.h10.intercept, m.h10.beta@) == parse_params_spec(self.h10)
        &&& (m.h25.intercept, m.h25.beta@) == parse_params_spec(self.h25)
        &&& (m.h50.intercept, m.h50.beta@) == parse_params_spec(self.h50)
        &&& m.train_start_ms == self.train_start_ms
        &&& m.train_end_ms == self.train_end_ms
        &&& m.valid_start_ms == self.valid_start_ms
        &&& m.valid_end_ms == self.valid_end_ms
        &&& m.train_params_json == self.train_params_json
        &&& m.metrics_json == self.metrics_json
        &&& m.created_at_ms == self.created_at_ms
        &&& m.activated_at_ms == self.activated_at_ms
        &&& m.depth_granularity_note == self.depth_granularity_note
    }

    pub fn into_model(self) -> (r: FittedModel<T>)
        ensures
            self.holds(r),
    {
        let status = match ModelStatus::parse(self.status.as_str()) {
            Some(s) => s,
            None => ModelStatus::Provisional,
        };
        proof {
            let read = status_read(self.status@);
            if self.status@ == status.name() && self.status@ == read.name() {
                ModelStatus::lemma_names_differ(status, read);
            }
        }
        FittedModel {
            version: self.version,
            status,
            feature_version: self.feature_version,
            h10: parse_params(&self.h10),
            h25: parse_params(&self.h25),
            h50: parse_params(&self.h50),
            train_start_ms: self.train_start_ms,
            train_end_ms: self.train_end_ms,
            valid_start_ms: self.valid_start_ms,
            valid_end_ms: self.valid_end_ms,
            train_params_json: self.train_params_json,
            metrics_json: self.metrics_json,
            created_at_ms: self.created_at_ms,
            activated_at_ms: self.activated_at_ms,
            depth_granularity_note: self.depth_granularity_note,
        }
    }
}

/// Can a model be taken up again?
pub open spec fn can_serve(status: Seq<char>) -> bool {
    status == ModelStatus::Active.name() || status == ModelStatus::Provisional.name()
}

/// When a model was put to use, or else made.
pub open spec fn in_use_since<T>(row: ModelRow<T>) -> i64 {
    match row.activated_at_ms {
        Some(t) => t,
        None => row.created_at_ms,
    }
}

/// Is `a` to be taken up rather than `b`? An active model comes before a
/// provisional one, and then the one that was put to use later.
pub open spec fn preferred<T>(a: ModelRow<T>, b: ModelRow<T>) -> bool {
    let active_a = a.status@ == ModelStatus::Active.name();
    let active_b = b.status@ == ModelStatus::Active.name();
    if active_a != active_b {
        active_a
    } else {
        in_use_since(a) > in_use_since(b)
    }
}

/// Is row `i` the one to take up: the first of those that no other row is
/// preferred to?
pub open spec fn is_last_active<T>(rows: Seq<ModelRow<T>>, i: int) -> bool {
    &&& 0 <= i < rows.len()
    &&& can_serve(rows[i].status@)
    &&& forall|j: int|
        0 <= j < rows.len() && can_serve((#[trigger] rows[j]).status@) ==> !preferred(
            rows[j],
            rows[i],
        ) && (j < i ==> preferred(rows[i], rows[j]))
}

/// The model to take up again, if there is one: the active model that was put
/// to use last, or else such a provisional one.
pub fn last_active<T: Real>(rows: &[ModelRow<T>]) -> (r: Option<usize>)
    ensures
        match r {
            Some(i) => is_last_active(rows@, i as int),
            None => forall|j: int|
                0 <= j < rows@.len() ==> !can_serve((#[trigger] rows@[j]).status@),
        },
{
    let mut best: Option<usize> = None;
    let mut i: usize = 0;
    while i < rows.len()
        invariant
            0 <= i <= rows@.len(),
            match best {
                Some(b) => b < i && is_last_active(rows@.take(i as int), b as int),
                None => forall|j: int|
                    0 <= j < i ==> !can_serve((#[trigger] rows@[j]).status@),
            },
        decreases rows@.len() - i,
    {
        let ghost before = rows@.take(i as int);
        let ghost after = rows@.take(i + 1);
        proof {
            assert forall|j: int| 0 <= j < i implies (#[trigger] after[j]) == before[j] by {}
            assert(after[i as int] == rows@[i as int]);
        }
        if serves(&rows[i]) {
            match best {
                None => {
                    proof {
                        assert forall|j: int|
                            0 <= j < after.len() && can_serve(
                                (#[trigger] after[j]).status@,
                            ) implies j == i by {
                            if j < i {
                                assert(!can_serve(rows@[j].status@));
                            }
                        }
                    }
                    best = Some(i);
                },
                Some(b) => {
                    if comes_before(&rows[i], &rows[b]) {
                        proof {
                            assert forall|j: int|
                                0 <= j < after.len() && can_serve(
                                    (#[trigger] after[j]).status@,
                                ) implies !preferred(after[j], after[i as int]) && (j < i
                                ==> preferred(after[i as int], after[j])) by {
                                if j < i {
                                    assert(!preferred(before[j], before[b as int]));
                                    assert(before[b as int] == rows@[b as int]);
                                }
                            }
                        }
                        best = Some(i);
                    } else {
                        proof {
                            assert forall|j: int|
                                0 <= j < after.len() && can_serve(
                                    (#[trigger] after[j]).status@,
                                ) implies !preferred(after[j], after[b as int]) && (j < b
                                ==> preferred(after[b as int], after[j])) by {
                                if j < i {
                                    assert(!preferred(before[j], before[b as int]));
                                }
                            }
                        }
                    }
                },
            }
        } else {
            proof {
                if let Some(b) = best {
                    assert forall|j: int|
                        0 <= j < after.len() && can_serve(
                            (#[trigger] after[j]).status@,
                        ) implies !preferred(after[j], after[b as int]) && (j < b ==> preferred(
                        after[b as int],
                        after[j],
                    )) by {
                        assert(j < i);
                        assert(!preferred(before[j], before[b as int]));
                    }
                }
            }
        }
        i = i + 1;
    }
    assert(rows@.take(i as int) =~= rows@);
    best
}

fn serves<T: Real>(row: &ModelRow<T>) -> (r: bool)
    ensures
        r == can_serve(row.status@),
{
    same_text(row.status.as_str(), "active") || same_text(row.status.as_str(), "provisional")
}

fn comes_before<T: Real>(a: &ModelRow<T>, b: &ModelRow<T>) -> (r: bool)
    ensures
        r == preferred(*a, *b),
{
    let active_a: bool = same_text(a.status.as_str(), "active");
    let active_b: bool = same_text(b.status.as_str(), "active");
    if active_a != active_b {
        return active_a;
    }
    let since_a: i64 = match a.activated_at_ms {
        Some(t) => t,
        None => a.created_at_ms,
    };
    let since_b: i64 = match b.activated_at_ms {
        Some(t) => t,
        None => b.created_at_ms,
    };
    since_a > since_b
}

/// Can a model be trained with this sample? It is new enough, made with these
/// factors, of good data, and has all its labels.
pub open spec fn is_train_sample<T>(
    row: SampleRow<T>,
    since_ms: i64,
    feature_version: Seq<char>,
) -> bool {
    &&& row.ts_ms >= since_ms
    &&& row.feature_version@ == feature_version
    &&& row.actual@[0] is Some
    &&& row.actual@[1] is Some
    &&& row.actual@[2] is Some
    &&& row.quality@ == "ok"@
}

/// The samples that a model can be trained with, in order.
pub fn train_samples<T: Real>(
    rows: Vec<SampleRow<T>>,
    since_ms: i64,
    feature_version: &str,
) -> (r: Vec<SampleRow<T>>)
    ensures
        r@ == rows@.filter(|row: SampleRow<T>| is_train_sample(row, since_ms, feature_version@)),
{
    let ghost wanted = |row: SampleRow<T>| is_train_sample(row, since_ms, feature_version@);
    let ghost all = rows@;
    let mut rest = rows;
    let mut i: usize = 0;
    let ghost mut done: int = 0;
    proof {
        assert(all.take(0) =~= Seq::<SampleRow<T>>::empty());
        reveal(Seq::filter);
        assert(rest@ =~= all.take(0).filter(wanted) + all.skip(0));
    }
    while i < rest.len()
        invariant
            0 <= done <= all.len(),
            0 <= i <= rest@.len(),
            wanted == (|row: SampleRow<T>| is_train_sample(row, since_ms, feature_version@)),
            i == all.take(done).filter(wanted).len(),
            rest@ == all.take(done).filter(wanted) + all.skip(done),
            rest@.len() == i + (all.len() - done),
        decreases rest@.len() - i,
    {
        let ghost before = rest@;
        proof {
            assert(before[i as int] == all.skip(done)[0]);
            assert(all.take(done + 1).drop_last() =~= all.take(done));
            assert(all.take(done + 1).last() == all[done]);
            reveal(Seq::filter);
        }
        let row = &rest[i];
        let keep: bool = row.ts_ms >= since_ms && same_text(
            row.feature_version.as_str(),
            feature_version,
        ) && row.actual[0].is_some() && row.actual[1].is_some() && row.actual[2].is_some()
            && same_text(row.quality.as_str(), "ok");
        if keep {
            i = i + 1;
            assert(rest@ =~= all.take(done + 1).filter(wanted) + all.skip(done + 1));
        } else {
            rest.remove(i);
            assert(rest@ =~= all.take(done + 1).filter(wanted) + all.skip(done + 1));
        }
        proof {
            done = done + 1;
        }
    }
    proof {
        assert(all.take(done) =~= all);
        assert(rest@ =~= all.filter(wanted));
    }
    rest
}

/// The start of the minute that a moment belongs to, counted towards zero.
pub open spec fn minute_spec(ts_ms: i64) -> i64 {
    if ts_ms >= 0 {
        (ts_ms / 60_000 * 60_000) as i64
    } else {
        (-((-ts_ms) / 60_000 * 60_000)) as i64
    }
}

pub fn minute_of(ts_ms: i64) -> (r: i64)
    ensures
        r == minute_spec(ts_ms),
{
    if ts_ms >= 0 {
        ts_ms / 60_000 * 60_000
    } else {
        let size: u64 = (-(ts_ms as i128)) as u64;
        -((size / 60_000 * 60_000) as i64)
    }
}

/// What a sample adds to the sums of its minute, for one horizon.
#[derive(Debug)]
pub struct MinuteRow<T> {
    pub minute_ms: i64,
    pub model_version: String,
    pub horizon: &'static str,
    pub acc: MetricAcc<T>,
}

impl<T: Real> MinuteRow<T> {
    /// Is this what the sample adds for the horizon?
    pub open spec fn adds(self, s: CompletedView<T>, h: Horizon, dir_thresh: T) -> bool {
        &&& self.minute_ms == minute_spec(s.ts_ms)
        &&& self.model_version@ == s.model_version
        &&& self.horizon@ == h.name()
        &&& self.acc == MetricAcc::blank().added(
            s.pred[h.index_spec()],
            s.actual[h.index_spec()],
            dir_thresh,
        )
    }
}

fn minute_row<T: Real>(s: &CompletedSample<T>, h: Horizon, dir_thresh: T) -> (r: MinuteRow<T>)
    ensures
        r.adds(s@, h, dir_thresh),
{
    let i: usize = h.index();
    let mut acc: MetricAcc<T> = MetricAcc::default();
    acc.add(s.pred[i], s.actual[i], dir_thresh);
    MinuteRow {
        minute_ms: minute_of(s.ts_ms),
        model_version: s.model_version.clone(),
        horizon: h.as_str(),
        acc,
    }
}

/// What a sample adds to the sums of its minute, for each horizon.
pub fn minute_rows<T: Real>(s: &CompletedSample<T>, dir_thresh: T) -> (r: [MinuteRow<T>; 3])
    ensures
        forall|h: Horizon| (#[trigger] r@[h.index_spec()]).adds(s@, h, dir_thresh),
{
    [
        minute_row(s, Horizon::H10, dir_thresh),
        minute_row(s, Horizon::H25, dir_thresh),
        minute_row(s, Horizon::H50, dir_thresh),
    ]
}

/// Milliseconds in a day.
pub const DAY_MS: i64 = 86_400_000;

/// Samples from before this time are deleted, once their minute is summed up.
/// There is no such time where it lies out of range.
pub fn cleanup_cutoff(now_ms: i64, retain_days: i64) -> (r: Option<i64>)
    ensures
        r == (if i64::MIN <= now_ms - retain_days * DAY_MS <= i64::MAX {
            Some((now_ms - retain_days * DAY_MS) as i64)
        } else {
            None
        }),
{
    let span: i128 = retain_days as i128 * 86_400_000;
    let at: i128 = now_ms as i128 - span;
    if at >= i64::MIN as i128 && at <= i64::MAX as i128 {
        Some(at as i64)
    } else {
        None
    }
}

} // verus!
