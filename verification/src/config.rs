//! What can be set from outside.
use vstd::prelude::*;

use crate::number::{one, Real};
#[allow(unused_imports)]
use crate::number::one_spec;
use crate::text::same_text;

verus! {

/// The settings. Spans of time are in nanoseconds.
#[derive(Debug)]
pub struct Config<T> {
    pub symbol_display: String,
    pub symbol_gate: String,
    pub db_path: String,
    pub http_bind: String,
    pub sample_period: u64,
    pub retain_days: i64,
    pub first_train_after: u64,
    pub train_period: u64,
    pub train_window: u64,
    pub ridge_lambda: T,
    pub promote_rmse_improve: T,
    pub promote_max_ic_drop: T,
    pub directional_pred_threshold: T,
    pub min_train_samples: usize,
    pub min_coverage: T,
    pub warm_period: u64,
    pub live_publish_period: u64,
    pub rest_base: String,
    pub ws_url: String,
    pub disable_market: bool,
}

impl<T: Real> Clone for Config<T> {
    fn clone(&self) -> (r: Self)
        ensures
            r == *self,
    {
        Config {
            symbol_display: self.symbol_display.clone(),
            symbol_gate: self.symbol_gate.clone(),
            db_path: self.db_path.clone(),
            http_bind: self.http_bind.clone(),
            sample_period: self.sample_period,
            retain_days: self.retain_days,
            first_train_after: self.first_train_after,
            train_period: self.train_period,
            train_window: self.train_window,
            ridge_lambda: self.ridge_lambda,
            promote_rmse_improve: self.promote_rmse_improve,
            promote_max_ic_drop: self.promote_max_ic_drop,
            directional_pred_threshold: self.directional_pred_threshold,
            min_train_samples: self.min_train_samples,
            min_coverage: self.min_coverage,
            warm_period: self.warm_period,
            live_publish_period: self.live_publish_period,
            rest_base: self.rest_base.clone(),
            ws_url: self.ws_url.clone(),
            disable_market: self.disable_market,
        }
    }
}

/// What was given in place of the defaults, each where it was given.
#[derive(Debug)]
pub struct Overrides<T> {
    pub bind: Option<String>,
    pub db: Option<String>,
    pub symbol: Option<String>,
    pub disable_market: Option<String>,
    pub ridge_lambda: Option<T>,
    pub warm: Option<u64>,
    pub first_train: Option<u64>,
    pub train_period: Option<u64>,
    pub rest_base: Option<String>,
    pub ws_url: Option<String>,
}

/// The characters of the given text, or else these.
pub open spec fn text_or(given: Option<String>, otherwise: Seq<char>) -> Seq<char> {
    match given {
        Some(s) => s@,
        None => otherwise,
    }
}

/// The given value, or else this one.
pub open spec fn value_or<A>(given: Option<A>, otherwise: A) -> A {
    match given {
        Some(v) => v,
        None => otherwise,
    }
}

/// Every `-` becomes a `_`.
pub open spec fn gate_spec(symbol: Seq<char>) -> Seq<char> {
    symbol.map_values(
        |c: char|
            if c == '-' {
                '_'
            } else {
                c
            },
    )
}

/// The name that the exchange has for a contract.
pub fn display_to_gate(symbol: &str) -> (r: String)
    ensures
        r@ == gate_spec(symbol@),
{
    let n: usize = symbol.unicode_len();
    let mut out = "".to_string();
    let mut i: usize = 0;
    proof {
        reveal_strlit("");
        assert(out@ =~= gate_spec(symbol@).take(0));
    }
    while i < n
        invariant
            0 <= i <= n,
            n == symbol@.len(),
            out@ == gate_spec(symbol@).take(i as int),
        decreases n - i,
    {
        let c = symbol.get_char(i);
        out.push(
            if c == '-' {
                '_'
            } else {
                c
            },
        );
        assert(gate_spec(symbol@).take(i + 1) =~= gate_spec(symbol@).take(i as int).push(
            gate_spec(symbol@)[i as int],
        ));
        i = i + 1;
    }
    assert(gate_spec(symbol@).take(n as int) =~= gate_spec(symbol@));
    out
}

/// Is this the letter, large or small?
pub open spec fn is_letter(c: char, small: char, large: char) -> bool {
    c == small || c == large
}

/// `1`, or `true` in letters of either size.
pub open spec fn is_on_spec(v: Seq<char>) -> bool {
    v == "1"@ || {
        &&& v.len() == 4
        &&& is_letter(v[0], 't', 'T')
        &&& is_letter(v[1], 'r', 'R')
        &&& is_letter(v[2], 'u', 'U')
        &&& is_letter(v[3], 'e', 'E')
    }
}

/// Does the text switch something on?
pub fn is_on(v: &str) -> (r: bool)
    ensures
        r == is_on_spec(v@),
{
    if same_text(v, "1") {
        return true;
    }
    if v.unicode_len() != 4 {
        return false;
    }
    let a = v.get_char(0);
    let b = v.get_char(1);
    let c = v.get_char(2);
    let d = v.get_char(3);
    (a == 't' || a == 'T') && (b == 'r' || b == 'R') && (c == 'u' || c == 'U') && (d == 'e' || d
        == 'E')
}

impl<T: Real> Config<T> {
    /// The settings where nothing is given.
    pub open spec fn is_default(self) -> bool {
        &&& self.symbol_display@ == "BTC-USDT"@
        &&& self.symbol_gate@ == "BTC_USDT"@
        &&& self.db_path@ == "trend_mm.db"@
        &&& self.http_bind@ == "127.0.0.1:8080"@
        &&& self.sample_period == 1_000_000_000
        &&& self.retain_days == 30
        &&& self.first_train_after == 24 * 3600 * 1_000_000_000
        &&& self.train_period == 6 * 3600 * 1_000_000_000
        &&& self.train_window == 7 * 24 * 3600 * 1_000_000_000
        &&& self.ridge_lambda == one_spec::<T>()
        &&& self.promote_rmse_improve == T::ratio_spec(1, 100)
        &&& self.promote_max_ic_drop == T::ratio_spec(1, 100)
        &&& self.directional_pred_threshold == T::ratio_spec(1, 20)
        &&& self.min_train_samples == 100
        &&& self.min_coverage == T::ratio_spec(1, 2)
        &&& self.warm_period == 120 * 1_000_000_000
        &&& self.live_publish_period == 100 * 1_000_000
        &&& self.rest_base@ == "https://api.gateio.ws/api/v4"@
        &&& self.ws_url@ == "wss://fx-ws.gateio.ws/v4/ws/usdt"@
        &&& !self.disable_market
    }

    /// The settings `base` with what was given in place of the defaults.
    pub open spec fn is_overlaid(self, base: Self, o: Overrides<T>) -> bool {
        &&& self.symbol_display@ == text_or(o.symbol, base.symbol_display@)
        &&& self.symbol_gate@ == (match o.symbol {
            Some(s) => gate_spec(s@),
            None => base.symbol_gate@,
        })
        &&& self.db_path@ == text_or(o.db, base.db_path@)
        &&& self.http_bind@ == text_or(o.bind, base.http_bind@)
        &&& self.sample_period == base.sample_period
        &&& self.retain_days == base.retain_days
        &&& self.first_train_after == value_or(o.first_train, base.first_train_after)
        &&& self.train_period == value_or(o.train_period, base.train_period)
        &&& self.train_window == base.train_window
        &&& self.ridge_lambda == value_or(o.ridge_lambda, base.ridge_lambda)
        &&& self.promote_rmse_improve == base.promote_rmse_improve
        &&& self.promote_max_ic_drop == base.promote_max_ic_drop
        &&& self.directional_pred_threshold == base.directional_pred_threshold
        &&& self.min_train_samples == base.min_train_samples
        &&& self.min_coverage == base.min_coverage
        &&& self.warm_period == value_or(o.warm, base.warm_period)
        &&& self.live_publish_period == base.live_publish_period
        &&& self.rest_base@ == text_or(o.rest_base, base.rest_base@)
        &&& self.ws_url@ == text_or(o.ws_url, base.ws_url@)
        &&& self.disable_market == (match o.disable_market {
            Some(v) => is_on_spec(v@),
            None => base.disable_market,
        })
    }

    /// Puts what was given in the place of what stands in `self`.
    pub fn overlaid(self, o: Overrides<T>) -> (r: Self)
        ensures
            r.is_overlaid(self, o),
    {
        let mut cfg = self;
        if let Some(v) = o.bind {
            cfg.http_bind = v;
        }
        if let Some(v) = o.db {
            cfg.db_path = v;
        }
        if let Some(v) = o.symbol {
            cfg.symbol_gate = display_to_gate(v.as_str());
            cfg.symbol_display = v;
        }
        if let Some(v) = o.disable_market {
            cfg.disable_market = is_on(v.as_str());
        }
        if let Some(v) = o.ridge_lambda {
            cfg.ridge_lambda = v;
        }
        if let Some(v) = o.warm {
            cfg.warm_period = v;
        }
        if let Some(v) = o.first_train {
            cfg.first_train_after = v;
        }
        if let Some(v) = o.train_period {
            cfg.train_period = v;
        }
        if let Some(v) = o.rest_base {
            cfg.rest_base = v;
        }
        if let Some(v) = o.ws_url {
            cfg.ws_url = v;
        }
        cfg
    }
}

impl<T: Real> Default for Config<T> {
    fn default() -> (r: Self)
        ensures
            r.is_default(),
    {
        Config {
            symbol_display: "BTC-USDT".to_string(),
            symbol_gate: "BTC_USDT".to_string(),
            db_path: "trend_mm.db".to_string(),
            http_bind: "127.0.0.1:8080".to_string(),
            sample_period: 1_000_000_000,
            retain_days: 30,
            first_train_after: 24 * 3600 * 1_000_000_000,
            train_period: 6 * 3600 * 1_000_000_000,
            train_window: 7 * 24 * 3600 * 1_000_000_000,
            ridge_lambda: one(),
            promote_rmse_improve: T::ratio(1, 100),
            promote_max_ic_drop: T::ratio(1, 100),
            directional_pred_threshold: T::ratio(1, 20),
            min_train_samples: 100,
            min_coverage: T::ratio(1, 2),
            warm_period: 120 * 1_000_000_000,
            live_publish_period: 100 * 1_000_000,
            rest_base: "https://api.gateio.ws/api/v4".to_string(),
            ws_url: "wss://fx-ws.gateio.ws/v4/ws/usdt".to_string(),
            disable_market: false,
        }
    }
}

} // verus!
