//! Phases, horizons, qualities and the fitted model.
use vstd::prelude::*;

use crate::number::{total, zero, Real};
#[allow(unused_imports)]
use crate::number::{accumulate, lemma_accumulate_step, total_spec, zero_spec};
use crate::text::same_text;

verus! {

/// How many factors there are.
pub const FEATURE_COUNT: usize = 17;

/// The set of factors that samples and models are made with.
pub const FEATURE_VERSION: &'static str = "factors_1_17_trade_flow_v2";

/// How far ahead the predictions look, in milliseconds.
pub const HORIZONS_MS: [u64; 3] = [10, 25, 50];

pub const DEPTH_GRANULARITY_MS: u32 = 20;

pub const DEPTH_GRANULARITY_NOTE: &'static str =
    "Gate futures.obu 50-level stream pushes ~20ms batches; 10ms order-flow factors are not true 10ms event-time.";

/// The run phase of the whole process.
#[derive(Clone, Copy, Debug, PartialEq, Eq, Structural)]
pub enum RunPhase {
    Warming,
    Running,
    Degraded,
}

impl RunPhase {
    pub open spec fn name(self) -> Seq<char> {
        match self {
            RunPhase::Warming => "warming"@,
            RunPhase::Running => "running"@,
            RunPhase::Degraded => "degraded"@,
        }
    }

    pub fn as_str(self) -> (r: &'static str)
        ensures
            r@ == self.name(),
    {
        match self {
            RunPhase::Warming => "warming",
            RunPhase::Running => "running",
            RunPhase::Degraded => "degraded",
        }
    }
}

/// What has been decided about a model.
#[derive(Clone, Copy, Debug, PartialEq, Eq, Structural)]
pub enum ModelStatus {
    Provisional,
    Active,
    Rejected,
}

impl ModelStatus {
    pub open spec fn name(self) -> Seq<char> {
        match self {
            ModelStatus::Provisional => "provisional"@,
            ModelStatus::Active => "active"@,
            ModelStatus::Rejected => "rejected"@,
        }
    }

    pub fn as_str(self) -> (r: &'static str)
        ensures
            r@ == self.name(),
    {
        match self {
            ModelStatus::Provisional => "provisional",
            ModelStatus::Active => "active",
            ModelStatus::Rejected => "rejected",
        }
    }

    /// The status of that name.
    pub fn parse(s: &str) -> (r: Option<Self>)
        ensures
            r matches Some(status) ==> s@ == status.name(),
            r is None ==> forall|status: ModelStatus| s@ != #[trigger] status.name(),
    {
        if same_text(s, "provisional") {
            Some(ModelStatus::Provisional)
        } else if same_text(s, "active") {
            Some(ModelStatus::Active)
        } else if same_text(s, "rejected") {
            Some(ModelStatus::Rejected)
        } else {
            None
        }
    }

    /// No two statuses share a name, so a name that is written is read back
    /// as the status that it was written for.
    pub proof fn lemma_names_differ(a: ModelStatus, b: ModelStatus)
        requires
            a.name() == b.name(),
        ensures
            a == b,
    {
        reveal_strlit("provisional");
        reveal_strlit("active");
        reveal_strlit("rejected");
        assert("provisional"@[0] == 'p');
        assert("active"@[0] == 'a');
        assert("rejected"@[0] == 'r');
    }
}

/// How far ahead a prediction looks.
#[derive(Clone, Copy, Debug, PartialEq, Eq, Structural)]
pub enum Horizon {
    H10,
    H25,
    H50,
}

impl Horizon {
    /// The horizons, shortest first.
    pub open spec fn all_spec() -> Seq<Horizon> {
        seq![Horizon::H10, Horizon::H25, Horizon::H50]
    }

    pub open spec fn name(self) -> Seq<char> {
        match self {
            Horizon::H10 => "10ms"@,
            Horizon::H25 => "25ms"@,
            Horizon::H50 => "50ms"@,
        }
    }

    /// The texts that stand for a horizon.
    pub open spec fn named_by(self, s: Seq<char>) -> bool {
        match self {
            Horizon::H10 => s == "10ms"@ || s == "10"@ || s == "h10"@,
            Horizon::H25 => s == "25ms"@ || s == "25"@ || s == "h25"@,
            Horizon::H50 => s == "50ms"@ || s == "50"@ || s == "h50"@,
        }
    }

    pub open spec fn ms_spec(self) -> int {
        match self {
            Horizon::H10 => 10,
            Horizon::H25 => 25,
            Horizon::H50 => 50,
        }
    }

    pub open spec fn index_spec(self) -> int {
        match self {
            Horizon::H10 => 0,
            Horizon::H25 => 1,
            Horizon::H50 => 2,
        }
    }

    pub fn all() -> (r: [Horizon; 3])
        ensures
            r@ == Horizon::all_spec(),
    {
        [Horizon::H10, Horizon::H25, Horizon::H50]
    }

    pub fn as_str(self) -> (r: &'static str)
        ensures
            r@ == self.name(),
    {
        match self {
            Horizon::H10 => "10ms",
            Horizon::H25 => "25ms",
            Horizon::H50 => "50ms",
        }
    }

    pub fn ms(self) -> (r: u64)
        ensures
            r == self.ms_spec(),
    {
        match self {
            Horizon::H10 => 10,
            Horizon::H25 => 25,
            Horizon::H50 => 50,
        }
    }

    pub fn index(self) -> (r: usize)
        ensures
            r == self.index_spec(),
            r < 3,
    {
        match self {
            Horizon::H10 => 0,
            Horizon::H25 => 1,
            Horizon::H50 => 2,
        }
    }

    pub fn parse(s: &str) -> (r: Option<Self>)
        ensures
            r matches Some(h) ==> h.named_by(s@),
            r is None ==> forall|h: Horizon| !(#[trigger] h.named_by(s@)),
    {
        if same_text(s, "10ms") || same_text(s, "10") || same_text(s, "h10") {
            Some(Horizon::H10)
        } else if same_text(s, "25ms") || same_text(s, "25") || same_text(s, "h25") {
            Some(Horizon::H25)
        } else if same_text(s, "50ms") || same_text(s, "50") || same_text(s, "h50") {
            Some(Horizon::H50)
        } else {
            None
        }
    }

    /// The name of a horizon stands for it.
    pub proof fn lemma_name_stands(h: Horizon)
        ensures
            h.named_by(h.name()),
    {
    }

    /// No text stands for two horizons, so what is written is read back.
    pub proof fn lemma_names_differ(a: Horizon, b: Horizon, s: Seq<char>)
        requires
            a.named_by(s),
            b.named_by(s),
        ensures
            a == b,
    {
        reveal_strlit("10ms");
        reveal_strlit("10");
        reveal_strlit("h10");
        reveal_strlit("25ms");
        reveal_strlit("25");
        reveal_strlit("h25");
        reveal_strlit("50ms");
        reveal_strlit("50");
        reveal_strlit("h50");
        assert("10ms"@[0] == '1' && "10"@[0] == '1' && "h10"@[0] == 'h' && "h10"@[1] == '1');
        assert("25ms"@[0] == '2' && "25"@[0] == '2' && "h25"@[0] == 'h' && "h25"@[1] == '2');
        assert("50ms"@[0] == '5' && "50"@[0] == '5' && "h50"@[0] == 'h' && "h50"@[1] == '5');
    }
}

/// How far the data behind a snapshot can be relied on.
#[derive(Clone, Copy, Debug, PartialEq, Eq, Structural)]
pub enum DataQuality {
    Good,
    Warming,
    IncompleteBook,
    Stale,
    NoTickSize,
}

impl DataQuality {
    pub open spec fn name(self) -> Seq<char> {
        match self {
            DataQuality::Good => "ok"@,
            DataQuality::Warming => "warming"@,
            DataQuality::IncompleteBook => "incomplete_book"@,
            DataQuality::Stale => "stale"@,
            DataQuality::NoTickSize => "no_tick_size"@,
        }
    }

    pub fn as_str(self) -> (r: &'static str)
        ensures
            r@ == self.name(),
    {
        match self {
            DataQuality::Good => "ok",
            DataQuality::Warming => "warming",
            DataQuality::IncompleteBook => "incomplete_book",
            DataQuality::Stale => "stale",
            DataQuality::NoTickSize => "no_tick_size",
        }
    }

    pub fn allows_valid_sample(self) -> (r: bool)
        ensures
            r == (self == DataQuality::Good),
    {
        match self {
            DataQuality::Good => true,
            _ => false,
        }
    }
}

/// The linear predictor of one horizon.
#[derive(Clone, Copy, Debug)]
pub struct HorizonParams<T> {
    pub intercept: T,
    pub beta: [T; FEATURE_COUNT],
}

/// `a[i] * b[i]` for each `i`.
pub open spec fn products<T: Real>(a: Seq<T>, b: Seq<T>) -> Seq<T> {
    Seq::new(a.len(), |i: int| a[i].times_spec(b[i]))
}

/// The coefficients as shares of their sum, or all zero where the sum is not above zero.
pub open spec fn shares<T: Real>(beta: Seq<T>) -> Seq<T> {
    let scale = total_spec(beta);
    Seq::new(
        beta.len(),
        |i: int|
            if zero_spec::<T>().below_spec(scale) {
                beta[i].over_spec(scale)
            } else {
                zero_spec()
            },
    )
}

impl<T: Real> HorizonParams<T> {
    pub open spec fn predict_spec(self, x: Seq<T>) -> T {
        accumulate(self.intercept, products(self.beta@, x))
    }

    /// The sum of the coefficients, and each coefficient as a share of it.
    pub fn scale_and_weights(&self) -> (r: (T, [T; FEATURE_COUNT]))
        ensures
            r.0 == total_spec(self.beta@),
            r.1@ == shares(self.beta@),
    {
        let scale = total(&self.beta, FEATURE_COUNT);
        assert(self.beta@.take(FEATURE_COUNT as int) =~= self.beta@);
        let mut weights = [zero::<T>(); FEATURE_COUNT];
        if zero::<T>().below(scale) {
            let mut i: usize = 0;
            while i < FEATURE_COUNT
                invariant
                    0 <= i <= FEATURE_COUNT,
                    forall|k: int|
                        0 <= k < i ==> (#[trigger] weights@[k]) == self.beta@[k].over_spec(scale),
                decreases FEATURE_COUNT - i,
            {
                weights[i] = self.beta[i].over(scale);
                i = i + 1;
            }
        }
        assert(weights@ =~= shares(self.beta@));
        (scale, weights)
    }

    /// The intercept plus each coefficient times its factor.
    pub fn predict(&self, x: &[T; FEATURE_COUNT]) -> (r: T)
        ensures
            r == self.predict_spec(x@),
    {
        let mut s = self.intercept;
        let mut i: usize = 0;
        let ghost terms = products(self.beta@, x@);
        assert(terms.take(0) =~= Seq::<T>::empty());
        while i < FEATURE_COUNT
            invariant
                0 <= i <= FEATURE_COUNT,
                terms == products(self.beta@, x@),
                s == accumulate(self.intercept, terms.take(i as int)),
            decreases FEATURE_COUNT - i,
        {
            proof {
                lemma_accumulate_step(self.intercept, terms, i as int);
            }
            s = s.plus(self.beta[i].times(x[i]));
            i = i + 1;
        }
        assert(terms.take(FEATURE_COUNT as int) =~= terms);
        s
    }
}

/// A model: one predictor for each horizon, and where it came from.
#[derive(Debug)]
pub struct FittedModel<T> {
    pub version: String,
    pub status: ModelStatus,
    pub feature_version: String,
    pub h10: HorizonParams<T>,
    pub h25: HorizonParams<T>,
    pub h50: HorizonParams<T>,
    pub train_start_ms: Option<i64>,
    pub train_end_ms: Option<i64>,
    pub valid_start_ms: Option<i64>,
    pub valid_end_ms: Option<i64>,
    pub train_params_json: String,
    pub metrics_json: String,
    pub created_at_ms: i64,
    pub activated_at_ms: Option<i64>,
    pub depth_granularity_note: String,
}

impl<T: Real> Clone for FittedModel<T> {
    fn clone(&self) -> (r: Self)
        ensures
            r == *self,
    {
        FittedModel {
            version: self.version.clone(),
            status: self.status,
            feature_version: self.feature_version.clone(),
            h10: self.h10,
            h25: self.h25,
            h50: self.h50,
            train_start_ms: self.train_start_ms,
            train_end_ms: self.train_end_ms,
            valid_start_ms: self.valid_start_ms,
            valid_end_ms: self.valid_end_ms,
            train_params_json: self.train_params_json.clone(),
            metrics_json: self.metrics_json.clone(),
            created_at_ms: self.created_at_ms,
            activated_at_ms: self.activated_at_ms,
            depth_granularity_note: self.depth_granularity_note.clone(),
        }
    }
}

impl<T: Real> FittedModel<T> {
    pub open spec fn params_spec(self, h: Horizon) -> HorizonParams<T> {
        match h {
            Horizon::H10 => self.h10,
            Horizon::H25 => self.h25,
            Horizon::H50 => self.h50,
        }
    }

    /// One prediction for each horizon, shortest first.
    pub open spec fn predict_all_spec(self, x: Seq<T>) -> Seq<T> {
        Horizon::all_spec().map_values(|h: Horizon| self.params_spec(h).predict_spec(x))
    }

    pub fn params(&self, h: Horizon) -> (r: &HorizonParams<T>)
        ensures
            *r == self.params_spec(h),
    {
        match h {
            Horizon::H10 => &self.h10,
            Horizon::H25 => &self.h25,
            Horizon::H50 => &self.h50,
        }
    }

    pub fn predict_all(&self, x: &[T; FEATURE_COUNT]) -> (r: [T; 3])
        ensures
            r@ == self.predict_all_spec(x@),
    {
        let r = [self.h10.predict(x), self.h25.predict(x), self.h50.predict(x)];
        assert(r@ =~= self.predict_all_spec(x@));
        r
    }
}

} // verus!
