//! What can be asked for over the web.
use vstd::prelude::*;

use crate::number::Real;
use crate::storage::SampleRow;
use crate::text::is_text;
use crate::types::Horizon;

verus! {

/// How far back samples are shown, in milliseconds: five minutes.
pub const SHOWN_MS: i64 = 300_000;

/// How many samples are shown where nothing is said.
pub const SHOWN_SAMPLES: usize = 600;

/// How many samples are shown at most.
pub const MOST_SAMPLES: usize = 2000;

/// A request for samples.
#[derive(Debug)]
pub struct SamplesQ {
    pub from_ms: Option<i64>,
    pub to_ms: Option<i64>,
    pub horizon: Option<String>,
    pub limit: Option<usize>,
}

/// Which samples to show.
#[derive(Clone, Copy, Debug)]
pub struct SamplesRange {
    pub from_ms: i64,
    pub to_ms: i64,
    pub horizon: Horizon,
    pub limit: usize,
}

impl SamplesQ {
    /// The end that is asked for, or else now.
    pub open spec fn end(self, now_ms: i64) -> i64 {
        match self.to_ms {
            Some(t) => t,
            None => now_ms,
        }
    }

    /// Is this the horizon that is asked for, or else 25 ms?
    pub open spec fn asks_for(self, h: Horizon) -> bool {
        match self.horizon {
            Some(s) => h.named_by(s@) || (h == Horizon::H25 && forall|g: Horizon|
                !(#[trigger] g.named_by(s@))),
            None => h == Horizon::H25,
        }
    }

    /// Fills in what was not said: up to now, the last five minutes, 25 ms,
    /// and 600 samples. Never more than 2000 are shown.
    pub fn resolve(&self, now_ms: i64) -> (r: SamplesRange)
        requires
            self.end(now_ms) >= i64::MIN + SHOWN_MS,
        ensures
            r.to_ms == self.end(now_ms),
            r.from_ms == (match self.from_ms {
                Some(t) => t as int,
                None => self.end(now_ms) - SHOWN_MS,
            }),
            self.asks_for(r.horizon),
            r.limit == (match self.limit {
                Some(n) => if n <= MOST_SAMPLES {
                    n
                } else {
                    MOST_SAMPLES
                },
                None => SHOWN_SAMPLES,
            }),
    {
        let to_ms: i64 = match self.to_ms {
            Some(t) => t,
            None => now_ms,
        };
        let from_ms: i64 = match self.from_ms {
            Some(t) => t,
            None => to_ms - SHOWN_MS,
        };
        let limit: usize = match self.limit {
            Some(n) => if n <= MOST_SAMPLES {
                n
            } else {
                MOST_SAMPLES
            },
            None => SHOWN_SAMPLES,
        };
        let horizon = match &self.horizon {
            Some(s) => match Horizon::parse(s.as_str()) {
                Some(h) => h,
                None => Horizon::H25,
            },
            None => Horizon::H25,
        };
        SamplesRange { from_ms, to_ms, horizon, limit }
    }
}

/// A sample as it is shown for one horizon.
#[derive(Debug)]
pub struct SamplePoint<T> {
    pub ts_ms: i64,
    pub mid: T,
    pub tick_size: T,
    pub pred: Option<T>,
    pub actual: Option<T>,
    pub quality: String,
    pub model_version: String,
    pub horizon: &'static str,
}

/// The sample as it is shown for one horizon.
pub fn point_of<T: Real>(row: &SampleRow<T>, h: Horizon) -> (r: SamplePoint<T>)
    ensures
        r.ts_ms == row.ts_ms,
        r.mid == row.mid,
        r.tick_size == row.tick_size,
        r.pred == row.pred@[h.index_spec()],
        r.actual == row.actual@[h.index_spec()],
        r.quality@ == row.quality@,
        r.model_version@ == row.model_version@,
        r.horizon@ == h.name(),
{
    let i: usize = h.index();
    SamplePoint {
        ts_ms: row.ts_ms,
        mid: row.mid,
        tick_size: row.tick_size,
        pred: row.pred[i],
        actual: row.actual[i],
        quality: row.quality.clone(),
        model_version: row.model_version.clone(),
        horizon: h.as_str(),
    }
}

/// A span of time that metrics are shown for.
#[derive(Clone, Copy, Debug, PartialEq, Eq, Structural)]
pub enum MetricWindow {
    Hour,
    Day,
    Week,
}

impl MetricWindow {
    pub open spec fn name(self) -> Seq<char> {
        match self {
            MetricWindow::Hour => "1h"@,
            MetricWindow::Day => "24h"@,
            MetricWindow::Week => "7d"@,
        }
    }

    pub open spec fn ms_spec(self) -> i64 {
        match self {
            MetricWindow::Hour => 3_600_000,
            MetricWindow::Day => 86_400_000,
            MetricWindow::Week => 604_800_000,
        }
    }

    pub fn as_str(self) -> (r: &'static str)
        ensures
            r@ == self.name(),
    {
        match self {
            MetricWindow::Hour => "1h",
            MetricWindow::Day => "24h",
            MetricWindow::Week => "7d",
        }
    }

    /// The length in milliseconds.
    pub fn ms(self) -> (r: i64)
        ensures
            r == self.ms_spec(),
    {
        match self {
            MetricWindow::Hour => 3_600_000,
            MetricWindow::Day => 86_400_000,
            MetricWindow::Week => 604_800_000,
        }
    }
}

/// The spans that are asked for: one by its name, or else all.
pub open spec fn windows_spec(asked: Option<String>) -> Seq<MetricWindow> {
    match asked {
        Some(s) => if s@ == MetricWindow::Hour.name() {
            seq![MetricWindow::Hour]
        } else if s@ == MetricWindow::Day.name() {
            seq![MetricWindow::Day]
        } else if s@ == MetricWindow::Week.name() {
            seq![MetricWindow::Week]
        } else {
            seq![MetricWindow::Hour, MetricWindow::Day, MetricWindow::Week]
        },
        None => seq![MetricWindow::Hour, MetricWindow::Day, MetricWindow::Week],
    }
}

pub fn metric_windows(asked: &Option<String>) -> (r: Vec<MetricWindow>)
    ensures
        r@ == windows_spec(*asked),
{
    let mut out: Vec<MetricWindow> = Vec::new();
    if is_text(asked, "1h") {
        out.push(MetricWindow::Hour);
    } else if is_text(asked, "24h") {
        out.push(MetricWindow::Day);
    } else if is_text(asked, "7d") {
        out.push(MetricWindow::Week);
    } else {
        out.push(MetricWindow::Hour);
        out.push(MetricWindow::Day);
        out.push(MetricWindow::Week);
    }
    assert(out@ =~= windows_spec(*asked));
    out
}

} // verus!
