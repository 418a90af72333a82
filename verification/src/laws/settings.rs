//! What settings mean.
use vstd::prelude::*;

#[allow(unused_imports)]
use crate::config::{gate_spec, Config};
#[allow(unused_imports)]
use crate::trainer::{activated, Schedule};
#[allow(unused_imports)]
use crate::types::{FittedModel, Horizon, ModelStatus};
#[allow(unused_imports)]
use crate::web::SamplesQ;

verus! {

/// The exchange writes a contract without dashes, with an underscore in the place
/// of each, and otherwise the same.
pub proof fn lemma_contract_name(symbol: Seq<char>, i: int)
    requires
        0 <= i < symbol.len(),
    ensures
        gate_spec(symbol).len() == symbol.len(),
        gate_spec(symbol)[i] != '-',
        symbol[i] == '-' ==> gate_spec(symbol)[i] == '_',
        symbol[i] != '-' ==> gate_spec(symbol)[i] == symbol[i],
        gate_spec(gate_spec(symbol)) == gate_spec(symbol),
{
    assert(gate_spec(gate_spec(symbol)) =~= gate_spec(symbol));
}

/// The schedule counts the whole milliseconds of the settings.
pub proof fn lemma_schedule<T>(cfg: Config<T>)
    ensures
        ({
            let s = Schedule::of(cfg);
            &&& 0 <= cfg.first_train_after - s.first_ms * 1_000_000 < 1_000_000
            &&& 0 <= cfg.train_period - s.period_ms * 1_000_000 < 1_000_000
            &&& 0 <= cfg.train_window - s.window_ms * 1_000_000 < 1_000_000
        }),
{
}

/// A model that is put to use is active from that time on, and otherwise stays
/// as it was.
pub proof fn lemma_activated<T>(m: FittedModel<T>, at_ms: i64)
    ensures
        ({
            let a = activated(m, at_ms);
            &&& a.status == ModelStatus::Active
            &&& a.activated_at_ms == Some(at_ms)
            &&& a.h10 == m.h10
            &&& a.h25 == m.h25
            &&& a.h50 == m.h50
            &&& a.version == m.version
            &&& a.created_at_ms == m.created_at_ms
            &&& a == (FittedModel { status: a.status, activated_at_ms: a.activated_at_ms, ..m })
        }),
{
}

/// No two horizons go by the same name, so just one is asked for.
pub proof fn lemma_one_horizon(q: SamplesQ, g: Horizon, h: Horizon)
    requires
        q.asks_for(g),
        q.asks_for(h),
    ensures
        g == h,
        q.horizon matches Some(s) ==> (h.named_by(s@) || h == Horizon::H25),
        q.horizon is None ==> h == Horizon::H25,
{
    reveal_strlit("10ms");
    reveal_strlit("25ms");
    reveal_strlit("50ms");
    reveal_strlit("10");
    reveal_strlit("25");
    reveal_strlit("50");
    reveal_strlit("h10");
    reveal_strlit("h25");
    reveal_strlit("h50");
    assert("10ms"@[0] == '1' && "25ms"@[0] == '2' && "50ms"@[0] == '5');
    assert("10"@[0] == '1' && "25"@[0] == '2' && "50"@[0] == '5');
    assert("h10"@[1] == '1' && "h25"@[1] == '2' && "h50"@[1] == '5');
    assert("h10"@.len() == 3 && "h25"@.len() == 3 && "h50"@.len() == 3);
    assert("10ms"@.len() == 4 && "25ms"@.len() == 4 && "50ms"@.len() == 4);
    assert("10"@.len() == 2 && "25"@.len() == 2 && "50"@.len() == 2);
}

} // verus!
