//! What is read back out of what was stored.
use vstd::prelude::*;

#[allow(unused_imports)]
use crate::eval::CompletedView;
#[allow(unused_imports)]
use crate::laws::arithmetic::{
    lemma_product_sign, lemma_regroup, lemma_spread_out, lemma_swap, lemma_times_one,
    lemma_times_zero,
};
#[allow(unused_imports)]
use crate::laws::training::place;
#[allow(unused_imports)]
use crate::number::{count_spec, zero_spec, Real};
#[allow(unused_imports)]
use crate::reals::{
    exact, lemma_constants, lemma_count, lemma_divide, lemma_floor, lemma_ops, size, Reading,
};
#[allow(unused_imports)]
use crate::storage::{
    column, downsampled, is_last_active, is_train_sample, minute_spec, padded, parse_params_spec,
    status_read, thinned_index, MinuteRow, ModelRow, Outcome, SampleRow, StoredParams, DAY_MS,
};
#[allow(unused_imports)]
use crate::types::{FittedModel, Horizon, HorizonParams, ModelStatus};

verus! {

/// Rows that are thinned out are evenly spread: point `i` of `max` stands where
/// `i / max` of all rows are passed.
pub proof fn lemma_evenly_spread<T: Real>(
    v: Reading<T>,
    rows: Seq<SampleRow<T>>,
    max: int,
    i: int,
) -> (at: int)
    requires
        exact(v),
        0 < max < rows.len() <= i64::MAX,
        rows.len() <= usize::MAX,
        0 <= i < max,
    ensures
        0 <= at < rows.len(),
        max * at <= i * rows.len() < max * (at + 1),
        downsampled(rows, max).len() == max,
        downsampled(rows, max)[i] == rows[at],
{
    let len = rows.len() as int;
    lemma_count(v, len);
    lemma_count(v, max);
    lemma_count(v, i);
    let step = count_spec::<T>(len).over_spec(count_spec(max));
    lemma_ops(v, count_spec::<T>(len), count_spec::<T>(max));
    lemma_divide(len as real, max as real);
    let x = count_spec::<T>(i).times_spec(step);
    lemma_ops(v, count_spec::<T>(i), step);
    let (r, s) = (v(x), v(step));
    let (rl, rm, ri) = (len as real, max as real, i as real);
    lemma_regroup(ri, s, rm);
    assert(r * rm == ri * rl);
    lemma_whole_product(i, len);
    lemma_whole_product(max, len);
    assert(0 <= i * len < max * len) by (nonlinear_arith)
        requires
            0 <= i < max,
            len > 0,
    ;
    if r < 0 as real {
        lemma_product_sign(r, rm);
    }
    if r >= rl {
        lemma_swap(rm, rl);
        lemma_spread_out(rm, r, rl);
        lemma_swap(rm, r);
        lemma_product_sign(r - rl, rm);
        lemma_swap(r - rl, rm);
        if r == rl {
            assert(r * rm == rm * rl);
        }
    }
    lemma_floor(v, x);
    let at = thinned_index::<T>(len, max, i);
    let fl = x.floor_spec() as int;
    assert(fl <= len - 1);
    assert(at == fl);
    let ra = at as real;
    lemma_whole_product(at, max);
    lemma_whole_product(at + 1, max);
    assert((at + 1) as real == ra + 1 as real);
    lemma_spread_out(rm, r, ra);
    lemma_swap(rm, r);
    lemma_swap(rm, ra);
    lemma_swap(rm, r - ra);
    if r > ra {
        lemma_product_sign(r - ra, rm);
    }
    let rb = ra + 1 as real;
    lemma_spread_out(rm, rb, r);
    lemma_swap(rm, rb);
    lemma_swap(rm, rb - r);
    lemma_product_sign(rb - r, rm);
    assert(at * max == max * at && (at + 1) * max == max * (at + 1)) by (nonlinear_arith);
    assert((at * max) as real <= (i * len) as real);
    assert(((at + 1) * max) as real > (i * len) as real);
    at
}

/// A product of whole numbers is the same among real numbers.
proof fn lemma_whole_product(a: int, b: int)
    requires
        a >= 0,
    ensures
        (a * b) as real == a as real * b as real,
    decreases a,
{
    let rb = b as real;
    if a == 0 {
        lemma_times_zero(rb);
    } else {
        lemma_whole_product(a - 1, b);
        assert(a * b == (a - 1) * b + b) by (nonlinear_arith);
        lemma_spread_out(rb, (a - 1) as real, 1 as real);
        lemma_times_one(rb);
        assert(a as real == (a - 1) as real + 1 as real);
    }
}

/// A minute is the whole number of minutes next to a moment on the side of
/// zero, and less than a minute away from it.
pub proof fn lemma_minute(ts_ms: i64)
    ensures
        minute_spec(ts_ms) % 60_000 == 0,
        ts_ms >= 0 ==> 0 <= ts_ms - minute_spec(ts_ms) < 60_000,
        ts_ms < 0 ==> 0 <= minute_spec(ts_ms) - ts_ms < 60_000,
        ts_ms >= 0 ==> minute_spec(ts_ms) >= 0,
        ts_ms < 0 ==> minute_spec(ts_ms) <= 0,
{
    let t = if ts_ms >= 0 {
        ts_ms as int
    } else {
        -ts_ms
    };
    let q = t / 60_000;
    assert(0 <= t - q * 60_000 < 60_000);
    assert((q * 60_000) % 60_000 == 0);
    assert((-(q * 60_000)) % 60_000 == 0);
}

/// A day has that many milliseconds.
pub proof fn lemma_day()
    ensures
        DAY_MS == 24 * 60 * 60 * 1000,
{
}

/// The model that is taken up is not a rejected one. It is active if any model
/// is, and of those in the same state none was put to use later.
pub proof fn lemma_taken_up<T>(rows: Seq<ModelRow<T>>, i: int, j: int)
    requires
        is_last_active(rows, i),
        0 <= j < rows.len(),
    ensures
        rows[i].status@ == "active"@ || rows[i].status@ == "provisional"@,
        rows[j].status@ == "active"@ ==> rows[i].status@ == "active"@,
        rows[j].status@ == rows[i].status@ ==> time_of(rows[j]) <= time_of(rows[i]),
        rows[j].status@ == rows[i].status@ && j < i ==> time_of(rows[j]) < time_of(rows[i]),
{
}

/// When a model was put to use, or else made.
pub open spec fn time_of<T>(row: ModelRow<T>) -> int {
    if row.activated_at_ms is Some {
        row.activated_at_ms->0 as int
    } else {
        row.created_at_ms as int
    }
}

/// Do stored coefficients hold these?
pub open spec fn stores_params<T: Real>(s: StoredParams<T>, p: HorizonParams<T>) -> bool {
    &&& s.intercept == Some(p.intercept)
    &&& s.beta@.len() == 17
    &&& forall|k: int| 0 <= k < 17 ==> #[trigger] s.beta@[k] == Some(p.beta@[k])
}

/// Does the row hold the model, with all its numbers?
pub open spec fn stores<T: Real>(row: ModelRow<T>, m: FittedModel<T>) -> bool {
    &&& row.version == m.version
    &&& row.status@ == m.status.name()
    &&& row.feature_version == m.feature_version
    &&& stores_params(row.h10, m.h10)
    &&& stores_params(row.h25, m.h25)
    &&& stores_params(row.h50, m.h50)
    &&& row.train_start_ms == m.train_start_ms
    &&& row.train_end_ms == m.train_end_ms
    &&& row.valid_start_ms == m.valid_start_ms
    &&& row.valid_end_ms == m.valid_end_ms
    &&& row.train_params_json == m.train_params_json
    &&& row.metrics_json == m.metrics_json
    &&& row.created_at_ms == m.created_at_ms
    &&& row.activated_at_ms == m.activated_at_ms
    &&& row.depth_granularity_note == m.depth_granularity_note
}

/// A model that was stored is read back as it was.
pub proof fn lemma_model_read_back<T: Real>(
    row: ModelRow<T>,
    m: FittedModel<T>,
    back: FittedModel<T>,
)
    requires
        stores(row, m),
        row.holds(back),
    ensures
        back == m,
{
    lemma_params_back(row.h10, m.h10, back.h10);
    lemma_params_back(row.h25, m.h25, back.h25);
    lemma_params_back(row.h50, m.h50, back.h50);
    ModelStatus::lemma_names_differ(status_read(row.status@), m.status);
}

proof fn lemma_params_back<T: Real>(
    s: StoredParams<T>,
    p: HorizonParams<T>,
    back: HorizonParams<T>,
)
    requires
        stores_params(s, p),
        (back.intercept, back.beta@) == parse_params_spec(s),
    ensures
        back == p,
{
    assert forall|k: int| 0 <= k < 17 implies back.beta@[k] == p.beta@[k] by {
        assert(s.beta@[k] == Some(p.beta@[k]));
    }
    assert(back.beta@ =~= p.beta@);
    assert(back.beta =~= p.beta);
}

/// A list of factors is read back as it was; one that is too short is filled up
/// with zeros.
pub proof fn lemma_factors_read_back<T: Real>(v: Reading<T>, s: Seq<T>, k: int)
    requires
        exact(v),
        0 <= k < 17,
    ensures
        padded(s).len() == 17,
        k < s.len() ==> padded(s)[k] == s[k],
        k >= s.len() ==> v(padded(s)[k]) == 0 as real,
{
    lemma_constants(v);
}

/// The metrics of a horizon are made from the predictions and outcomes of that
/// horizon, row by row.
pub proof fn lemma_column<T>(rows: Seq<Outcome<T>>, h: Horizon, i: int)
    requires
        0 <= i < rows.len(),
    ensures
        column(rows, h).len() == rows.len(),
        column(rows, h)[i] == (rows[i].pred@[place(h)], rows[i].actual@[place(h)]),
{
}

/// What a sample adds to its minute: one prediction, and one valid one if its
/// outcome is there.
pub proof fn lemma_minute_row<T: Real>(
    v: Reading<T>,
    row: MinuteRow<T>,
    s: CompletedView<T>,
    h: Horizon,
    thresh: T,
)
    requires
        exact(v),
        row.adds(s, h, thresh),
    ensures
        row.acc.n_total == 1,
        row.minute_ms % 60_000 == 0,
        match (s.pred[place(h)], s.actual[place(h)]) {
            (Some(p), Some(a)) => {
                &&& row.acc.n_valid == 1
                &&& v(row.acc.sum_p) == v(p)
                &&& v(row.acc.sum_a) == v(a)
                &&& v(row.acc.sum_pp) == v(p) * v(p)
                &&& v(row.acc.sum_aa) == v(a) * v(a)
                &&& v(row.acc.sum_pa) == v(p) * v(a)
                &&& v(row.acc.sum_abs) == size(v(p) - v(a))
                &&& v(row.acc.sum_sq) == (v(p) - v(a)) * (v(p) - v(a))
            },
            _ => row.acc.n_valid == 0 && row.acc.dir_n == 0,
        },
{
    lemma_constants(v);
    lemma_minute(s.ts_ms);
    if let (Some(p), Some(a)) = (s.pred[place(h)], s.actual[place(h)]) {
        let z = zero_spec::<T>();
        let d = p.minus_spec(a);
        lemma_ops(v, p, a);
        lemma_ops(v, p, p);
        lemma_ops(v, a, a);
        lemma_ops(v, d, d);
        lemma_ops(v, z, p);
        lemma_ops(v, z, a);
        lemma_ops(v, z, p.times_spec(p));
        lemma_ops(v, z, a.times_spec(a));
        lemma_ops(v, z, p.times_spec(a));
        lemma_ops(v, z, d.magnitude_spec());
        lemma_ops(v, z, d.times_spec(d));
    }
}

/// A model is trained with just those samples that are new enough, of good data,
/// made with the same factors, and have the labels of all horizons.
pub proof fn lemma_train_sample<T>(row: SampleRow<T>, since_ms: i64, version: Seq<char>)
    ensures
        is_train_sample(row, since_ms, version) <==> since_ms <= row.ts_ms && row.quality@ == "ok"@
            && row.feature_version@ == version && forall|h: Horizon|
            (#[trigger] row.actual@[place(h)]) is Some,
{
    if forall|h: Horizon| (#[trigger] row.actual@[place(h)]) is Some {
        assert(row.actual@[place(Horizon::H10)] is Some);
        assert(row.actual@[place(Horizon::H25)] is Some);
        assert(row.actual@[place(Horizon::H50)] is Some);
    }
}

} // verus!
