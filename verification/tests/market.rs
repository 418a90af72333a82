use rust_decimal::prelude::ToPrimitive;
use serde_json::Value;
use trend_mm::config::Config;
use trend_mm::fixed::{Fixed, UNIT};
use trend_mm::market::book::{parse_tick_size, BookApply, Level, LocalBook, Top10, MODEL_LEVELS};
use trend_mm::market::flow::{Aggressor, MatchedFlow, PendingTrade, PublicTrade, TradeDeduper};
use trend_mm::market::gate::{
    after_session, contract_url, gap_event, obu_topic, opening_event, parse_ws_text,
    resubscription, subscriptions, Incoming, MarketEvent, ObuResult, Session, SessionAction,
    StopReason, TradeRow, TradeRows, WsEnvelope, WsResult,
};
use trend_mm::number::Real;
use trend_mm::signal::engine::SignalEngine;
use trend_mm::signal::ewma::TAU;
use trend_mm::signal::model::{cold_start_model, cold_start_model_at};
use trend_mm::types::{DataQuality, ModelStatus};

const MS: u64 = 1_000_000;

#[derive(Clone, Copy, Debug, PartialEq)]
struct F(f64);

impl Real for F {
    fn ratio_spec(num: i64, den: i64) -> F {
        F::ratio(num, den)
    }
    fn plus_spec(self, r: F) -> F {
        self.plus(r)
    }
    fn minus_spec(self, r: F) -> F {
        self.minus(r)
    }
    fn times_spec(self, r: F) -> F {
        self.times(r)
    }
    fn over_spec(self, r: F) -> F {
        self.over(r)
    }
    fn root_spec(self) -> F {
        self.root()
    }
    fn magnitude_spec(self) -> F {
        self.magnitude()
    }
    fn negative_spec(self) -> bool {
        self.negative()
    }
    fn floor_spec(self) -> usize {
        self.floor()
    }
    fn below_spec(self, r: F) -> bool {
        self.below(r)
    }
    fn at_most_spec(self, r: F) -> bool {
        self.at_most(r)
    }
    fn rank_spec(self) -> i128 {
        self.rank()
    }
    fn infinity_spec() -> F {
        F::infinity()
    }
    fn from_decimal_spec(m: i128, s: u32) -> F {
        F::from_decimal(m, s)
    }
    fn text_spec(self) -> String {
        self.text()
    }
    fn json_spec(self) -> String {
        self.json()
    }
    fn law_order(_a: F, _b: F) {}
    fn law_whole(_m: i64, _n: i64) {}
    fn law_whole_quotient(_n: i64, _d: i64) {}
    fn law_quotient_order(_a: F, _b: F, _c: F) {}
    fn law_quotient_number(_a: F, _b: F) {}
    fn law_root(_a: F) {}
    fn law_sum_above_zero(_a: F, _b: F) {}
    fn law_eps() {}
    fn law_no_difference(_a: F) {}
    fn text(self) -> String {
        format!("{}", self.0)
    }
    fn json(self) -> String {
        serde_json::Value::from(self.0).to_string()
    }
    fn ratio(num: i64, den: i64) -> F {
        F(num as f64 / den as f64)
    }
    fn plus(self, r: F) -> F {
        F(self.0 + r.0)
    }
    fn minus(self, r: F) -> F {
        F(self.0 - r.0)
    }
    fn times(self, r: F) -> F {
        F(self.0 * r.0)
    }
    fn over(self, r: F) -> F {
        F(self.0 / r.0)
    }
    fn root(self) -> F {
        F(self.0.sqrt())
    }
    fn magnitude(self) -> F {
        F(self.0.abs())
    }
    fn negative(self) -> bool {
        self.0.is_sign_negative()
    }
    fn floor(self) -> usize {
        self.0.floor() as usize
    }
    fn below(self, r: F) -> bool {
        self.0 < r.0
    }
    fn at_most(self, r: F) -> bool {
        self.0 <= r.0
    }
    fn rank(self) -> i128 {
        let b = self.0.to_bits() as i64;
        (b ^ (((b >> 63) as u64) >> 1) as i64) as i128
    }
    fn infinity() -> F {
        F(f64::INFINITY)
    }
    fn from_decimal(m: i128, s: u32) -> F {
        F(rust_decimal::Decimal::from_i128_with_scale(m, s).to_f64().unwrap())
    }
}

fn pairs(v: &[(f64, f64)]) -> Vec<(F, F)> {
    v.iter().map(|(p, q)| (F(*p), F(*q))).collect()
}

fn lvl(n: i32, px0: f64, step: f64, bid: bool) -> Vec<(F, F)> {
    (0..n)
        .map(|i| {
            let px = if bid { px0 - step * i as f64 } else { px0 + step * i as f64 };
            (F(px), F(1.0 + i as f64))
        })
        .collect()
}

#[test]
fn snapshot_builds_50_and_top10() {
    let mut book = LocalBook::new();
    let bids = lvl(50, 100.0, 0.1, true);
    let asks = lvl(50, 100.1, 0.1, false);
    assert_eq!(book.apply_snapshot(&bids, &asks, 10), BookApply::Replaced);
    assert_eq!(book.bids().len(), 50);
    assert_eq!(book.asks().len(), 50);
    let top = book.top10().expect("top10");
    assert!((top.bids[0].price.0 - 100.0).abs() < 1e-9);
    assert!((top.asks[0].price.0 - 100.1).abs() < 1e-9);
    assert_eq!(top.bids.len(), 10);
    assert!(book.is_valid());
}

#[test]
fn incremental_applies_u_u() {
    let mut book = LocalBook::new();
    book.apply_snapshot(&lvl(10, 100.0, 0.1, true), &lvl(10, 100.1, 0.1, false), 5);
    let r = book.apply_incremental(
        &pairs(&[(100.0, 9.0)]),
        &pairs(&[(100.1, 0.0), (100.15, 3.0)]),
        6,
        8,
    );
    assert_eq!(r, BookApply::Applied);
    assert_eq!(book.last_u(), Some(8));
    let top = book.top10().unwrap();
    assert!((top.bids[0].qty.0 - 9.0).abs() < 1e-9);
    assert!((top.asks[0].price.0 - 100.15).abs() < 1e-9);
}

#[test]
fn duplicate_snapshot_replaces() {
    let mut book = LocalBook::new();
    book.apply_snapshot(&[(F(100.0), F(1.0)); 10], &[(F(101.0), F(1.0)); 10], 1);
    book.apply_snapshot(&lvl(10, 200.0, 0.1, true), &lvl(10, 200.1, 0.1, false), 99);
    let top = book.top10().unwrap();
    assert!((top.bids[0].price.0 - 200.0).abs() < 1e-9);
    assert_eq!(book.last_u(), Some(99));
}

#[test]
fn sequence_gap_discards() {
    let mut book = LocalBook::new();
    book.apply_snapshot(&lvl(10, 100.0, 0.1, true), &lvl(10, 100.1, 0.1, false), 10);
    let r = book.apply_incremental(&pairs(&[(100.0, 2.0)]), &[], 12, 12);
    assert_eq!(r, BookApply::Gap);
    assert!(!book.is_valid());
    assert!(book.top10().is_none());
    assert!(book.last_u().is_none());
}

#[test]
fn book_without_snapshot_ignores_updates() {
    let mut book: LocalBook<F> = LocalBook::new();
    assert_eq!(book.apply_incremental(&pairs(&[(1.0, 1.0)]), &[], 1, 1), BookApply::Ignored);
    assert!(book.bids().is_empty());
    assert!(book.mid().is_none());
}

#[test]
fn snapshot_sorts_both_sides_and_drops_empty_levels() {
    let mut book = LocalBook::new();
    book.apply_snapshot(
        &pairs(&[(99.0, 1.0), (101.0, 2.0), (100.0, 0.0)]),
        &pairs(&[(103.0, 1.0), (102.0, 2.0)]),
        1,
    );
    assert_eq!(book.bids(), &[Level::new(F(101.0), F(2.0)), Level::new(F(99.0), F(1.0))]);
    assert_eq!(book.asks(), &[Level::new(F(102.0), F(2.0)), Level::new(F(103.0), F(1.0))]);
    assert!(!book.is_valid(), "two levels are not enough");
    book.apply_incremental(&pairs(&[(99.0, 0.0), (98.0, 0.0)]), &[], 2, 2);
    assert_eq!(book.bids(), &[Level::new(F(101.0), F(2.0))]);
}

#[test]
fn book_keeps_fifty_levels() {
    let mut book = LocalBook::new();
    book.apply_snapshot(&lvl(60, 100.0, 0.1, true), &lvl(60, 100.1, 0.1, false), 1);
    assert_eq!(book.bids().len(), 50);
    book.apply_incremental(&pairs(&[(100.05, 1.0)]), &[], 2, 2);
    assert_eq!(book.bids().len(), 50);
    assert_eq!(book.bids()[0].price, F(100.05));
    assert!((book.mid().unwrap().0 - 100.075).abs() < 1e-9);
    book.discard();
    assert!(!book.top_complete());
}

#[test]
fn tick_size_is_a_positive_decimal() {
    assert_eq!(parse_tick_size::<F>("0.1"), Some(F(0.1)));
    assert_eq!(parse_tick_size::<F>("0.05"), Some(F(0.05)));
    assert_eq!(parse_tick_size::<F>("0"), None);
    assert_eq!(parse_tick_size::<F>("-0.1"), None);
    assert_eq!(parse_tick_size::<F>("tick"), None);
    assert_eq!(parse_tick_size::<Fixed>("0.25").unwrap().steps(), UNIT / 4);
    assert!(parse_tick_size::<Fixed>("0.0000000000001").is_none());
}

fn flat_top(bid_px: f64, ask_px: f64, bid_qty: f64, ask_qty: f64) -> Top10<F> {
    let mut bids = [Level::new(F(0.0), F(0.0)); MODEL_LEVELS];
    let mut asks = [Level::new(F(0.0), F(0.0)); MODEL_LEVELS];
    for i in 0..MODEL_LEVELS {
        bids[i] = Level::new(F(bid_px - i as f64 * 0.1), F(bid_qty));
        asks[i] = Level::new(F(ask_px + i as f64 * 0.1), F(ask_qty));
    }
    Top10 { bids, asks }
}

#[test]
fn trade_dedup_sign_and_internal() {
    let mut d = TradeDeduper::new();
    let buy = PublicTrade { id: 1, price: F(100.0), size: F(3.0), is_internal: false };
    let sell = PublicTrade { id: 2, price: F(100.0), size: F(-2.0), is_internal: false };
    let internal = PublicTrade { id: 3, price: F(100.0), size: F(4.0), is_internal: true };
    assert_eq!(d.accept(&buy), Some((Aggressor::Buy, F(3.0))));
    assert_eq!(d.accept(&buy), None);
    assert_eq!(d.accept(&sell), Some((Aggressor::Sell, F(2.0))));
    assert_eq!(d.accept(&internal), None);
    assert_eq!(Aggressor::from_size_sign(F(1.0)), Some(Aggressor::Buy));
    assert_eq!(Aggressor::from_size_sign(F(-1.0)), Some(Aggressor::Sell));
}

#[test]
fn cleared_deduper_lets_a_trade_through_again() {
    let mut d = TradeDeduper::new();
    let t = PublicTrade { id: 9, price: F(1.0), size: F(1.0), is_internal: false };
    assert!(d.accept(&t).is_some());
    assert!(d.accept(&t).is_none());
    d.clear();
    assert!(d.accept(&t).is_some());
    let sizeless = PublicTrade { id: 10, price: F(1.0), size: F(0.0), is_internal: false };
    assert!(d.accept(&sizeless).is_none());
    assert_eq!(Aggressor::from_size_sign(F(0.0)), None);
}

#[test]
fn match_prefers_trade_from_decrease_leftover_is_cancel() {
    let before = flat_top(100.0, 100.1, 10.0, 10.0);
    let mut after = before;
    after.bids[0].qty = F(4.0);
    let trades = [PendingTrade { price: F(100.0), qty: F(3.0), aggressor: Aggressor::Sell }];
    let (flow, left) = MatchedFlow::from_delta_and_trades(&before, &after, &trades);
    assert!(left.is_empty());
    assert!((flow.exec_bid[0].0 - 3.0).abs() < 1e-9);
    assert!((flow.cancel_bid[0].0 - 3.0).abs() < 1e-9);
    assert_eq!(flow.exec_ask[0], F(0.0));
    assert_eq!(flow.add_bid[0], F(0.0));
}

#[test]
fn unmatched_trade_qty_stays_pending_not_forced_exec() {
    let before = flat_top(100.0, 100.1, 10.0, 10.0);
    let mut after = before;
    after.bids[0].qty = F(8.0);
    let trades = [PendingTrade { price: F(100.0), qty: F(5.0), aggressor: Aggressor::Sell }];
    let (flow, left) = MatchedFlow::from_delta_and_trades(&before, &after, &trades);
    assert_eq!(left.len(), 1);
    assert!((left[0].qty.0 - 3.0).abs() < 1e-9);
    assert!((flow.exec_bid[0].0 - 2.0).abs() < 1e-9);
    assert_eq!(flow.cancel_bid[0], F(0.0));
}

#[test]
fn add_is_increase() {
    let before = flat_top(100.0, 100.1, 10.0, 10.0);
    let mut after = before;
    after.asks[0].qty = F(15.0);
    let (flow, _) = MatchedFlow::from_delta_and_trades(&before, &after, &[]);
    assert!((flow.add_ask[0].0 - 5.0).abs() < 1e-9);
    assert_eq!(flow.cancel_ask[0], F(0.0));
}

fn fixed_top(bid_qty: i128) -> Top10<Fixed> {
    let level = |price: i128, qty: i128| {
        Level::new(Fixed::from_steps(price * UNIT), Fixed::from_steps(qty * UNIT))
    };
    let mut bids = [level(0, 0); MODEL_LEVELS];
    let mut asks = [level(0, 0); MODEL_LEVELS];
    for i in 0..MODEL_LEVELS {
        bids[i] = level(100 - i as i128, bid_qty);
        asks[i] = level(101 + i as i128, 10);
    }
    Top10 { bids, asks }
}

#[test]
fn executed_and_cancelled_make_up_the_decrease() {
    let before = fixed_top(10);
    let mut after = fixed_top(10);
    after.bids[0].qty = Fixed::from_steps(3 * UNIT);
    after.bids[1].qty = Fixed::from_steps(9 * UNIT);
    let sell = |price: i128, qty: i128| PendingTrade {
        price: Fixed::from_steps(price * UNIT),
        qty: Fixed::from_steps(qty * UNIT),
        aggressor: Aggressor::Sell,
    };
    let trades = [sell(100, 4), sell(99, 6), sell(100, 2)];
    let (flow, left) = MatchedFlow::from_delta_and_trades(&before, &after, &trades);
    assert_eq!(flow.exec_bid[0].steps(), 6 * UNIT);
    assert_eq!(flow.cancel_bid[0].steps(), UNIT);
    assert_eq!(flow.exec_bid[1].steps(), UNIT);
    assert_eq!(flow.cancel_bid[1].steps(), 0);
    assert_eq!(flow.n_exec_bid[0], 2);
    assert_eq!(left.len(), 1);
    assert_eq!(left[0].qty.steps(), 5 * UNIT);
}

#[test]
fn what_is_left_over_follows_the_trades_and_balances() {
    let before = fixed_top(10);
    let mut after = fixed_top(10);
    after.bids[0].qty = Fixed::from_steps(5 * UNIT);
    after.asks[1].qty = Fixed::from_steps(8 * UNIT);
    let trade = |price: i128, steps: i128, aggressor: Aggressor| PendingTrade {
        price: Fixed::from_steps(price * UNIT),
        qty: Fixed::from_steps(steps),
        aggressor,
    };
    let trades = [
        trade(100, 3 * UNIT, Aggressor::Sell),
        trade(50, UNIT, Aggressor::Sell),
        trade(102, 4 * UNIT, Aggressor::Buy),
        trade(100, 2 * UNIT + 1, Aggressor::Sell),
        trade(100, 7, Aggressor::Sell),
    ];
    let (flow, left) = MatchedFlow::from_delta_and_trades(&before, &after, &trades);
    let seen: Vec<(i128, i128, Aggressor)> =
        left.iter().map(|t| (t.price.steps() / UNIT, t.qty.steps(), t.aggressor)).collect();
    assert_eq!(
        seen,
        [
            (50, UNIT, Aggressor::Sell),
            (102, 2 * UNIT, Aggressor::Buy),
            (100, 7, Aggressor::Sell)
        ]
    );
    let sold: i128 = flow.exec_bid.iter().map(|q| q.steps()).sum();
    // all but the one step that is next to nothing
    assert_eq!(6 * UNIT + 8 - sold - (UNIT + 7), 1);
    let bought: i128 = flow.exec_ask.iter().map(|q| q.steps()).sum();
    assert_eq!(4 * UNIT - bought, 2 * UNIT);
}

#[test]
fn trade_off_the_book_is_shown_at_the_nearest_level() {
    let top = flat_top(100.0, 100.1, 10.0, 10.0);
    let t = PendingTrade { price: F(99.74), qty: F(2.0), aggressor: Aggressor::Sell };
    let flow = MatchedFlow::from_trade(&top, &t);
    assert_eq!(flow.exec_bid[3], F(2.0));
    assert_eq!(flow.n_exec_bid[3], 1);
    assert_eq!(flow.exec_bid[0], F(0.0));
}

#[test]
fn trade_at_an_unlisted_price_takes_nothing_from_the_book() {
    let before = flat_top(100.0, 100.1, 10.0, 10.0);
    let mut after = before;
    after.bids[0].qty = F(4.0);
    let trade = PendingTrade { price: F(100.05), qty: F(3.0), aggressor: Aggressor::Sell };
    let (flow, left) = MatchedFlow::from_delta_and_trades(&before, &after, &[trade]);
    assert_eq!(flow.exec_bid, [F(0.0); MODEL_LEVELS]);
    assert_eq!(flow.n_exec_bid, [0; MODEL_LEVELS]);
    assert_eq!(flow.cancel_bid[0], F(6.0));
    assert_eq!(left.len(), 1);
    assert_eq!((left[0].price, left[0].qty), (F(100.05), F(3.0)));
    assert_eq!(left[0].aggressor, Aggressor::Sell);
    let mut cancels = MatchedFlow::from_book_delta(&before, &after);
    assert!(!cancels.exclude_trade_from_cancels(&before, &trade));
    assert_eq!(cancels.cancel_bid[0], F(6.0));
    let buy = PendingTrade { price: F(100.05), qty: F(3.0), aggressor: Aggressor::Buy };
    assert!(!cancels.exclude_trade_from_cancels(&before, &buy));
}

#[test]
fn copied_deduper_remembers_on_its_own() {
    let trade = |id: u64| PublicTrade { id, price: F(1.0), size: F(1.0), is_internal: false };
    let mut d = TradeDeduper::new();
    for id in 0..40 {
        assert!(d.accept(&trade(id)).is_some());
    }
    let mut copy = d.clone();
    for id in 0..40 {
        assert!(copy.accept(&trade(id)).is_none());
    }
    assert!(copy.accept(&trade(40)).is_some());
    assert!(d.accept(&trade(40)).is_some());
}

#[test]
fn additions_are_taken_out_and_cancels_explained() {
    let before = flat_top(100.0, 100.1, 10.0, 10.0);
    let mut after = before;
    after.bids[0].qty = F(4.0);
    after.asks[0].qty = F(12.0);
    let mut flow = MatchedFlow::from_book_delta(&before, &after);
    let additions = flow.take_additions();
    assert!(additions.has_additions() && !additions.has_cancels());
    assert_eq!(additions.add_ask[0], F(2.0));
    assert!(!flow.has_additions() && flow.has_cancels());
    let trade = PendingTrade { price: F(100.0), qty: F(6.0), aggressor: Aggressor::Sell };
    assert!(flow.exclude_trade_from_cancels(&before, &trade));
    assert_eq!(flow.cancel_bid[0], F(0.0));
    assert_eq!(flow.n_cancel_bid[0], 0);
    assert!(!flow.has_cancels());
    assert!(!flow.exclude_trade_from_cancels(&before, &trade));
}

fn number(v: &Value) -> Option<F> {
    match v {
        Value::String(s) => s.parse().ok().map(F),
        Value::Number(n) => n.as_f64().map(F),
        _ => None,
    }
}

fn text_number(v: &Value) -> Option<F> {
    v.as_str()?.parse().ok().map(F)
}

fn rows(v: Option<&Value>) -> Vec<(Option<F>, Option<F>)> {
    v.and_then(|x| x.as_array())
        .map(|a| a.iter().map(|r| (text_number(&r[0]), text_number(&r[1]))).collect())
        .unwrap_or_default()
}

fn trade_row(v: &Value) -> Option<TradeRow<F>> {
    Some(TradeRow {
        id: v.get("id")?.as_u64()?,
        price: text_number(v.get("price")?),
        size: number(v.get("size")?),
        is_internal: v.get("is_internal").and_then(|x| x.as_bool()).unwrap_or(false),
    })
}

fn read(text: &str) -> Vec<MarketEvent<F>> {
    let parsed: Option<Value> = serde_json::from_str(text).ok();
    let env = parsed.map(|v| WsEnvelope {
        channel: v.get("channel").and_then(|x| x.as_str()).map(|s| s.to_string()),
        event: v.get("event").and_then(|x| x.as_str()).map(|s| s.to_string()),
        result: v.get("result").map(|r| WsResult {
            obu: r.as_object().map(|_| ObuResult {
                t: r.get("t").and_then(|x| x.as_i64()),
                full: r.get("full").and_then(|x| x.as_bool()),
                b: rows(r.get("b")),
                a: rows(r.get("a")),
                start_u: r.get("U").and_then(|x| x.as_u64()),
                end_u: r.get("u").and_then(|x| x.as_u64()),
            }),
            trades: match r.as_array() {
                Some(list) => TradeRows::Many(list.iter().map(trade_row).collect()),
                None => TradeRows::Single(trade_row(r)),
            },
        }),
    });
    parse_ws_text(&env)
}

#[test]
fn parse_snapshot_and_incremental() {
    let snap = r#"{"channel":"futures.obu","event":"update","result":{"t":1,"full":true,"s":"ob.BTC_USDT.50","u":10,"b":[["100.0","1"],["99.9","2"]],"a":[["100.1","3"]]}}"#;
    match &read(snap)[..] {
        [MarketEvent::DepthSnapshot { u, bids, asks, .. }] => {
            assert_eq!(*u, 10);
            assert_eq!(bids[0], (F(100.0), F(1.0)));
            assert_eq!(asks[0], (F(100.1), F(3.0)));
        }
        other => panic!("{other:?}"),
    }
    let inc = r#"{"channel":"futures.obu","event":"update","result":{"t":2,"s":"ob.BTC_USDT.50","U":11,"u":12,"b":[["100.0","0"]],"a":[]}}"#;
    match &read(inc)[..] {
        [MarketEvent::DepthIncremental { start_u, end_u, bids, .. }] => {
            assert_eq!(*start_u, 11);
            assert_eq!(*end_u, 12);
            assert_eq!(bids[0], (F(100.0), F(0.0)));
        }
        other => panic!("{other:?}"),
    }
}

#[test]
fn parse_trade_internal_and_size_sign() {
    let t = r#"{"channel":"futures.trades","event":"update","result":[{"id":7,"price":"100.1","size":"-2.5","contract":"BTC_USDT","is_internal":true}]}"#;
    match &read(t)[..] {
        [MarketEvent::Trade(tr)] => {
            assert_eq!(tr.id, 7);
            assert_eq!(tr.size, F(-2.5));
            assert!(tr.is_internal);
        }
        other => panic!("{other:?}"),
    }
}

#[test]
fn parse_trade_array_emits_every_row() {
    let t = r#"{"channel":"futures.trades","event":"update","result":[
            {"id":1,"price":"100.0","size":"1.5","contract":"BTC_USDT"},
            {"id":2,"price":"100.1","size":"-2","contract":"BTC_USDT"},
            {"id":3,"price":"100.0","size":"4","contract":"BTC_USDT","is_internal":true}
        ]}"#;
    let evs = read(t);
    assert_eq!(evs.len(), 3, "must not drop trades from a multi-row update");
    match &evs[..] {
        [MarketEvent::Trade(a), MarketEvent::Trade(b), MarketEvent::Trade(c)] => {
            assert_eq!(a.id, 1);
            assert_eq!(a.size, F(1.5));
            assert!(!a.is_internal);
            assert_eq!(b.id, 2);
            assert_eq!(b.size, F(-2.0));
            assert_eq!(c.id, 3);
            assert!(c.is_internal);
        }
        other => panic!("{other:?}"),
    }
}

#[test]
fn messages_without_an_update_give_no_events() {
    assert!(read("not json").is_empty());
    assert!(read(r#"{"channel":"futures.obu","event":"subscribe","result":{"u":1,"full":true}}"#).is_empty());
    assert!(read(r#"{"channel":"futures.pong","event":"update","result":{}}"#).is_empty());
    assert!(read(r#"{"channel":"futures.obu","event":"update"}"#).is_empty());
    assert!(read(r#"{"channel":"futures.obu","event":"update","result":{"full":true}}"#).is_empty());
    assert!(read(r#"{"channel":"futures.obu","event":"update","result":{"u":4}}"#).is_empty());
    let bad_rows = r#"{"channel":"futures.obu","event":"update","result":{"full":true,"u":4,"b":[["x","1"],["2","3"]]}}"#;
    match &read(bad_rows)[..] {
        [MarketEvent::DepthSnapshot { bids, exch_time_ms, .. }] => {
            assert_eq!(bids, &vec![(F(2.0), F(3.0))]);
            assert_eq!(*exch_time_ms, 0);
        }
        other => panic!("{other:?}"),
    }
    let single = r#"{"channel":"futures.trades","event":"update","result":{"id":5,"price":"1.5","size":2}}"#;
    match &read(single)[..] {
        [MarketEvent::Trade(t)] => assert_eq!((t.id, t.price, t.size), (5, F(1.5), F(2.0))),
        other => panic!("{other:?}"),
    }
    assert!(read(r#"{"channel":"futures.trades","event":"update","result":[{"id":5,"price":"1.5","size":null}]}"#).is_empty());
}

fn snapshot_event(u: u64) -> MarketEvent<F> {
    MarketEvent::DepthSnapshot {
        bids: lvl(10, 100.0, 0.1, true),
        asks: lvl(10, 100.1, 0.1, false),
        u,
        exch_time_ms: 0,
    }
}

fn incremental_event(start_u: u64, end_u: u64) -> MarketEvent<F> {
    MarketEvent::DepthIncremental {
        bids: pairs(&[(100.0, 4.0)]),
        asks: vec![],
        start_u,
        end_u,
        exch_time_ms: 0,
    }
}

#[test]
fn session_holds_back_the_update_that_leaves_a_gap() {
    let mut s: Session<F> = Session::new(0);
    let forwarded = s.on_events(vec![snapshot_event(1), incremental_event(2, 2)]);
    assert_eq!(forwarded.len(), 2);
    assert!(!s.take_resubscription());
    let trade = MarketEvent::Trade(PublicTrade {
        id: 1,
        price: F(1.0),
        size: F(1.0),
        is_internal: false,
    });
    let forwarded = s.on_events(vec![incremental_event(5, 5), trade]);
    assert!(matches!(&forwarded[..], [MarketEvent::Trade(_)]));
    assert!(s.take_resubscription());
    assert!(!s.take_resubscription());
    assert!(matches!(gap_event::<F>(), MarketEvent::Disconnected(m) if m == "order book sequence gap"));
}

#[test]
fn session_ends_when_silent_closed_or_broken() {
    let s: Session<F> = Session::new(0);
    assert!(matches!(s.on_ping(30_000 * MS), SessionAction::Ping));
    assert!(matches!(
        s.on_ping(30_000 * MS + 1),
        SessionAction::Stop(StopReason::IdleTimeout)
    ));
    let mut s: Session<F> = Session::new(0);
    assert!(matches!(s.on_incoming(20_000 * MS, Incoming::Ping), SessionAction::Pong));
    assert!(matches!(s.on_ping(50_000 * MS), SessionAction::Ping));
    assert!(matches!(s.on_incoming(1, Incoming::Other), SessionAction::Nothing));
    match s.on_incoming(2, Incoming::Text(vec![snapshot_event(3)])) {
        SessionAction::Forward(evs) => assert_eq!(evs.len(), 1),
        other => panic!("{other:?}"),
    }
    let ends = [
        (Incoming::Close, StopReason::CloseFrame, "ws close frame"),
        (Incoming::Failed, StopReason::BadFrame, "ws frame"),
        (Incoming::Ended, StopReason::Closed, "ws closed"),
        (Incoming::TimedOut, StopReason::ReadTimeout, "websocket read timeout"),
    ];
    for (incoming, reason, text) in ends {
        match s.on_incoming(3, incoming) {
            SessionAction::Stop(r) => assert_eq!(r, reason),
            other => panic!("{other:?}"),
        }
        assert_eq!(reason.as_str(), text);
    }
    assert_eq!(StopReason::IdleTimeout.as_str(), "websocket idle timeout");
}

#[test]
fn waits_between_sessions_double_up_to_half_a_minute() {
    let second = 1_000 * MS;
    assert_eq!(after_session(second, false), (second, 2 * second));
    assert_eq!(after_session(16 * second, false), (16 * second, 30 * second));
    assert_eq!(after_session(30 * second, false), (30 * second, 30 * second));
    assert_eq!(after_session(30 * second, true), (second, 2 * second));
}

#[test]
fn session_requests_name_the_contract() {
    assert_eq!(obu_topic("BTC_USDT"), "ob.BTC_USDT.50");
    let (book, trades) = subscriptions("BTC_USDT");
    assert_eq!((&book.channel[..], &book.event[..], &book.payload[..]), ("futures.obu", "subscribe", "ob.BTC_USDT.50"));
    assert_eq!((&trades.channel[..], &trades.event[..], &trades.payload[..]), ("futures.trades", "subscribe", "BTC_USDT"));
    let (leave, again) = resubscription("ETH_USDT");
    assert_eq!((&leave.event[..], &leave.payload[..]), ("unsubscribe", "ob.ETH_USDT.50"));
    assert_eq!((&again.event[..], &again.payload[..]), ("subscribe", "ob.ETH_USDT.50"));
    assert_eq!(contract_url("https://x/v4", "BTC_USDT"), "https://x/v4/futures/usdt/contracts/BTC_USDT");
    assert!(matches!(opening_event(Ok(F(0.1))), (MarketEvent::TickSize(F(_)), true)));
    let failed: (MarketEvent<F>, bool) = opening_event(Err("http 500".to_string()));
    assert!(matches!(failed, (MarketEvent::TickSizeFailed(m), false) if m == "http 500"));
}

fn decays() -> [F; MODEL_LEVELS] {
    let mut d = [F(0.0); MODEL_LEVELS];
    for i in 0..MODEL_LEVELS {
        d[i] = F((-0.35 * i as f64).exp());
    }
    d
}

fn share(step: u64) -> F {
    F(1.0 - (-(step as f64 / 1e9) / (TAU as f64 / 1e9)).exp())
}

fn cfg() -> Config<F> {
    let mut c: Config<F> = Config::default();
    c.warm_period = 50 * MS;
    c
}

fn engine() -> SignalEngine<F> {
    SignalEngine::new(cfg(), cold_start_model(), &decays())
}

fn apply(e: &mut SignalEngine<F>, ev: MarketEvent<F>, now: u64) -> bool {
    let alpha = share(e.step_for(&ev, now));
    e.apply(ev, now, alpha)
}

fn full_book(bid1: f64, ask1: f64, bq: f64, aq: f64) -> MarketEvent<F> {
    MarketEvent::DepthSnapshot {
        bids: (0..50).map(|i| (F(bid1 - i as f64 * 0.1), F(bq))).collect(),
        asks: (0..50).map(|i| (F(ask1 + i as f64 * 0.1), F(aq))).collect(),
        u: 1,
        exch_time_ms: 0,
    }
}

fn trade(id: u64, price: f64, size: f64) -> MarketEvent<F> {
    MarketEvent::Trade(PublicTrade { id, price: F(price), size: F(size), is_internal: false })
}

fn update(bids: &[(f64, f64)], u: u64) -> MarketEvent<F> {
    MarketEvent::DepthIncremental {
        bids: pairs(bids),
        asks: vec![],
        start_u: u,
        end_u: u,
        exch_time_ms: 0,
    }
}

const NOW: u64 = 1_000_000 * MS;

#[test]
fn warming_refuses_valid_samples_until_ready() {
    let mut e = engine();
    assert_eq!(e.quality(NOW), DataQuality::NoTickSize);
    assert!(!e.quality(NOW).allows_valid_sample());
    apply(&mut e, MarketEvent::TickSize(F(0.1)), NOW);
    apply(&mut e, full_book(100.0, 100.1, 5.0, 5.0), NOW);
    assert_eq!(e.quality(NOW), DataQuality::Warming);
    apply(&mut e, MarketEvent::Disconnected("gap".into()), NOW);
    assert!(!e.quality(NOW).allows_valid_sample());
    assert_eq!(e.model().status, ModelStatus::Provisional);
    for v in e.snapshot(NOW).factors {
        assert!((-1.0..=1.0).contains(&v.0));
    }
}

#[test]
fn reconnect_and_gap_clear_windows() {
    let mut e = engine();
    apply(&mut e, MarketEvent::TickSize(F(0.1)), NOW);
    apply(&mut e, full_book(100.0, 100.1, 5.0, 5.0), NOW);
    apply(&mut e, trade(1, 100.0, -1.0), NOW);
    let gap = apply(&mut e, update(&[(100.0, 4.0)], 3), NOW + 5 * MS);
    assert!(gap);
    assert!(!e.quality(NOW + 5 * MS).allows_valid_sample());
    assert!(e.events().is_empty());
}

#[test]
fn trade_is_immediate_and_matching_decrease_is_not_double_counted() {
    let mut e = engine();
    apply(&mut e, MarketEvent::TickSize(F(0.1)), NOW);
    apply(&mut e, full_book(100.0, 100.1, 10.0, 10.0), NOW);
    apply(&mut e, trade(11, 100.0, -3.0), NOW + MS);
    assert_eq!(e.pending().len(), 1);
    assert_eq!(e.events().len(), 1, "public trade must affect factors immediately");
    assert!((e.events()[0].flow.exec_bid[0].0 - 3.0).abs() < 1e-9);
    apply(&mut e, update(&[(100.0, 4.0)], 2), NOW + 2 * MS);
    assert!(e.pending().is_empty());
    assert_eq!(e.events().len(), 1);
    assert!((e.pending_book().unwrap().flow.cancel_bid[0].0 - 3.0).abs() < 1e-9);
    apply(&mut e, update(&[], 3), NOW + 22 * MS);
    assert!((e.events().back().unwrap().flow.cancel_bid[0].0 - 3.0).abs() < 1e-9);
}

#[test]
fn trade_larger_than_net_decrease_keeps_full_execution() {
    let mut e = engine();
    apply(&mut e, MarketEvent::TickSize(F(0.1)), NOW);
    apply(&mut e, full_book(100.0, 100.1, 10.0, 10.0), NOW);
    apply(&mut e, trade(21, 100.0, -5.0), NOW + MS);
    apply(&mut e, update(&[(100.0, 8.0)], 2), NOW + 2 * MS);
    assert!(e.pending().is_empty());
    assert!((e.events()[0].flow.exec_bid[0].0 - 5.0).abs() < 1e-9);
    assert_eq!(e.pending_book().unwrap().flow.cancel_bid[0], F(0.0));
    apply(&mut e, update(&[(100.0, 3.0)], 3), NOW + 3 * MS);
    assert!((e.pending_book().unwrap().flow.cancel_bid[0].0 - 5.0).abs() < 1e-9);
}

#[test]
fn trade_arriving_after_book_update_reclassifies_the_decrease() {
    let mut e = engine();
    apply(&mut e, MarketEvent::TickSize(F(0.1)), NOW);
    apply(&mut e, full_book(100.0, 100.1, 10.0, 10.0), NOW);
    apply(&mut e, update(&[(100.0, 4.0)], 2), NOW + MS);
    assert!((e.pending_book().unwrap().flow.cancel_bid[0].0 - 6.0).abs() < 1e-9);
    apply(&mut e, trade(30, 100.0, -3.0), NOW + 2 * MS);
    assert!((e.events().back().unwrap().flow.exec_bid[0].0 - 3.0).abs() < 1e-9);
    assert!((e.pending_book().unwrap().flow.cancel_bid[0].0 - 3.0).abs() < 1e-9);
}

fn exact_engine() -> SignalEngine<Fixed> {
    let cfg: Config<Fixed> = Config::default();
    let decays = [Fixed::from_steps(UNIT); MODEL_LEVELS];
    let mut e = SignalEngine::new(cfg, cold_start_model_at(0, 0), &decays);
    let number = |tenths: i128| Fixed::from_steps(tenths * UNIT / 10);
    let share = Fixed::from_steps(UNIT / 100);
    e.apply(MarketEvent::TickSize(number(1)), NOW, share);
    e.apply(
        MarketEvent::DepthSnapshot {
            bids: (0..20).map(|i| (number(1000 - i), number(100))).collect(),
            asks: (0..20).map(|i| (number(1001 + i), number(100))).collect(),
            u: 1,
            exch_time_ms: 0,
        },
        NOW,
        share,
    );
    e
}

fn lower_bid(to: i128, u: u64) -> MarketEvent<Fixed> {
    MarketEvent::DepthIncremental {
        bids: vec![(Fixed::from_steps(100 * UNIT), Fixed::from_steps(to * UNIT))],
        asks: vec![],
        start_u: u,
        end_u: u,
        exch_time_ms: 0,
    }
}

fn exact_sell(qty: i128) -> MarketEvent<Fixed> {
    MarketEvent::Trade(PublicTrade {
        id: 7,
        price: Fixed::from_steps(100 * UNIT),
        size: Fixed::from_steps(-qty * UNIT),
        is_internal: false,
    })
}

fn booked(e: &SignalEngine<Fixed>) -> (i128, i128) {
    let open = e.pending_book().unwrap().flow;
    let executed: i128 = e.events().iter().map(|x| x.flow.exec_bid[0].steps()).sum();
    let cancelled: i128 = e.events().iter().map(|x| x.flow.cancel_bid[0].steps()).sum();
    (
        (executed + open.exec_bid[0].steps()) / UNIT,
        (cancelled + open.cancel_bid[0].steps()) / UNIT,
    )
}

#[test]
fn trade_and_book_change_end_the_same_in_either_order() {
    let share = Fixed::from_steps(UNIT / 100);
    for (q, d) in [(3i128, 6i128), (6, 6), (1, 9), (5, 2)] {
        let mut e = exact_engine();
        e.apply(exact_sell(q), NOW + MS, share);
        e.apply(lower_bid(10 - d, 2), NOW + 2 * MS, share);
        assert_eq!(booked(&e), (q, d - q.min(d)), "trade first: {q} of {d}");
        assert!(e.pending().is_empty());
        let mut e = exact_engine();
        e.apply(lower_bid(10 - d, 2), NOW + MS, share);
        e.apply(exact_sell(q), NOW + 2 * MS, share);
        assert_eq!(booked(&e), (q, d - q.min(d)), "book first: {q} of {d}");
    }
}

#[test]
fn rounded_numbers_end_the_same_in_either_order_too() {
    for (q, d) in [(3.0, 6.0), (0.1, 0.3), (5.0, 2.0)] {
        let start = || {
            let mut e = engine();
            apply(&mut e, MarketEvent::TickSize(F(0.1)), NOW);
            apply(&mut e, full_book(100.0, 100.1, 10.0, 10.0), NOW);
            e
        };
        let lost = 10.0 - (10.0 - d);
        let left = if q <= lost { lost - q } else { 0.0 };
        let mut e = start();
        apply(&mut e, trade(30, 100.0, -q), NOW + MS);
        apply(&mut e, update(&[(100.0, 10.0 - d)], 2), NOW + 2 * MS);
        assert_eq!(e.events()[0].flow.exec_bid[0], F(q));
        assert_eq!(e.pending_book().unwrap().flow.cancel_bid[0], F(left));
        let mut e = start();
        apply(&mut e, update(&[(100.0, 10.0 - d)], 2), NOW + MS);
        apply(&mut e, trade(30, 100.0, -q), NOW + 2 * MS);
        assert_eq!(e.events().back().unwrap().flow.exec_bid[0], F(q));
        assert_eq!(e.pending_book().unwrap().flow.cancel_bid[0], F(left));
    }
}

#[test]
fn what_a_trade_has_over_is_not_taken_from_a_later_decrease() {
    let share = Fixed::from_steps(UNIT / 100);
    let mut e = exact_engine();
    e.apply(exact_sell(5), NOW + MS, share);
    e.apply(lower_bid(8, 2), NOW + 2 * MS, share);
    assert_eq!(booked(&e), (5, 0));
    e.apply(lower_bid(4, 3), NOW + 3 * MS, share);
    assert_eq!(booked(&e), (5, 4));
}

#[test]
fn book_keeps_quantities_above_zero_and_prices_apart() {
    let n = |x: i128| Fixed::from_steps(x * UNIT);
    let mut book: LocalBook<Fixed> = LocalBook::new();
    book.apply_snapshot(&[(n(9), n(1)), (n(8), n(0)), (n(7), n(2))], &[(n(10), n(-1))], 1);
    assert_eq!((book.bids().len(), book.asks().len()), (2, 0));
    let updates = [(n(9), n(3)), (n(6), n(1)), (n(6), n(4)), (n(7), n(0)), (n(5), n(0))];
    assert_eq!(book.apply_incremental(&updates, &[], 2, 2), BookApply::Applied);
    let seen: Vec<(i128, i128)> =
        book.bids().iter().map(|l| (l.price.steps() / UNIT, l.qty.steps() / UNIT)).collect();
    assert_eq!(seen, [(9, 3), (6, 4)]);
}

#[test]
fn multi_level_buy_sweep_immediately_sets_trade_factors() {
    let mut e = engine();
    apply(&mut e, MarketEvent::TickSize(F(0.1)), NOW);
    apply(&mut e, full_book(100.0, 100.1, 10.0, 10.0), NOW);
    for (id, price, size) in [(31u64, 100.1, 8.0), (32, 100.2, 12.0), (33, 100.3, 20.0)] {
        apply(&mut e, trade(id, price, size), NOW + (id - 30) * MS);
    }
    let executed: f64 = e
        .events()
        .iter()
        .flat_map(|event| event.flow.exec_ask)
        .map(|q| q.0)
        .sum();
    assert!((executed - 40.0).abs() < 1e-9);
    let raw = e.snapshot(NOW + 3 * MS).raw;
    assert!(raw[11].0 > 0.99, "10ms trade imbalance must see the sweep");
    assert!(raw[12].0 > 0.99, "50ms trade imbalance must see the sweep");
}

#[test]
fn engine_becomes_good_and_then_stale() {
    let mut e = engine();
    assert!(e.tick_size().is_none());
    apply(&mut e, MarketEvent::TickSize(F(0.1)), NOW);
    assert_eq!(e.tick_size(), Some(F(0.1)));
    assert_eq!(e.quality(NOW), DataQuality::IncompleteBook);
    apply(&mut e, full_book(100.0, 100.1, 10.0, 10.0), NOW);
    let mut at = NOW;
    for u in 2..6 {
        at += 20 * MS;
        assert!(!apply(&mut e, update(&[(100.0, 10.0 + u as f64)], u), at));
    }
    assert_eq!(e.quality(at), DataQuality::Good);
    assert_eq!(e.quality(at + 2_000 * MS), DataQuality::Good);
    assert_eq!(e.quality(at + 2_000 * MS + 1), DataQuality::Stale);
    let late = at + 2_001 * MS;
    apply(&mut e, update(&[(100.0, 9.0)], 6), late);
    assert_eq!(e.quality(late), DataQuality::Warming);
    assert!(e.events().is_empty());
    let snap = e.snapshot(late);
    assert!((snap.mid.unwrap().0 - 100.05).abs() < 1e-9);
    assert_eq!(snap.event_at, late);
    apply(&mut e, MarketEvent::TickSizeFailed("x".into()), late);
    assert_eq!(e.quality(late), DataQuality::NoTickSize);
    assert!(e.snapshot(late).mid.is_none());
}

#[test]
fn old_events_leave_the_window() {
    let mut e = engine();
    apply(&mut e, MarketEvent::TickSize(F(0.1)), NOW);
    apply(&mut e, full_book(100.0, 100.1, 10.0, 10.0), NOW);
    apply(&mut e, trade(1, 100.0, -1.0), NOW);
    apply(&mut e, trade(2, 100.0, -1.0), NOW + 70 * MS);
    assert_eq!(e.events().len(), 2);
    apply(&mut e, trade(3, 100.0, -1.0), NOW + 71 * MS);
    assert_eq!(e.events().len(), 2);
    assert_eq!(e.events()[0].at, NOW + 70 * MS);
    apply(&mut e, trade(3, 100.0, -1.0), NOW + 72 * MS);
    assert_eq!(e.events().len(), 2, "a repeated trade does not count");
    let internal = PublicTrade { id: 4, price: F(100.0), size: F(5.0), is_internal: true };
    apply(&mut e, MarketEvent::Trade(internal), NOW + 73 * MS);
    assert_eq!(e.events().len(), 2, "an internal trade does not count");
}

#[test]
fn another_model_predicts_at_once() {
    let mut e = engine();
    apply(&mut e, MarketEvent::TickSize(F(0.1)), NOW);
    apply(&mut e, full_book(100.0, 100.1, 10.0, 10.0), NOW);
    let mut m = cold_start_model_at::<F>(1, 2);
    m.version = "trained-7".into();
    m.h10.intercept = F(0.25);
    e.set_model(m, NOW, share(MS));
    assert_eq!(e.model().version, "trained-7");
    let snap = e.snapshot(NOW);
    assert_eq!(snap.model_version, "trained-7");
    assert_eq!(snap.preds[0], F(0.25));
    assert_eq!(snap.preds[1], F(0.0));
}

#[test]
fn forced_warmth_ends_the_warming() {
    let mut e = engine();
    apply(&mut e, MarketEvent::TickSize(F(0.1)), NOW);
    apply(&mut e, full_book(100.0, 100.1, 10.0, 10.0), NOW);
    e.force_warmed_for_test(share(MS), share(10_000 * MS));
    assert_eq!(e.quality(NOW), DataQuality::Good);
    e.enter_warming();
    assert_eq!(e.quality(NOW), DataQuality::IncompleteBook);
}
