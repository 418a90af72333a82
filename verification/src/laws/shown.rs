//! What is shown of a run.
use vstd::prelude::*;

#[allow(unused_imports)]
use crate::live::LiveView;
#[allow(unused_imports)]
use crate::number::Real;
#[allow(unused_imports)]
use crate::web::{windows_spec, MetricWindow};

verus! {

/// The age of the data is counted in whole milliseconds that have passed.
pub proof fn lemma_data_age<T: Real>(s: LiveView<T>, now: u64)
    ensures
        s.last_event is None <==> s.data_age(now) is None,
        s.last_event matches Some(t) ==> t <= now ==> {
            let age = s.data_age(now)->0;
            age * 1_000_000 <= now - t && now - t < (age + 1) * 1_000_000
        },
        s.last_event matches Some(t) ==> now < t ==> s.data_age(now) == Some(0u64),
{
}

/// A day has twenty-four hours, and a week seven days.
pub proof fn lemma_window_lengths()
    ensures
        MetricWindow::Hour.ms_spec() == 60 * 60 * 1000,
        MetricWindow::Day.ms_spec() == 24 * MetricWindow::Hour.ms_spec(),
        MetricWindow::Week.ms_spec() == 7 * MetricWindow::Day.ms_spec(),
{
}

/// A span that is asked for by its name is shown alone; else all are shown,
/// each once, the shortest first.
pub proof fn lemma_windows_shown(asked: Option<String>, w: MetricWindow)
    ensures
        ({
            let shown = windows_spec(asked);
            &&& asked is Some && asked->0@ == w.name() ==> shown == seq![w]
            &&& (forall|u: MetricWindow| asked is Some ==> asked->0@ != #[trigger] u.name())
                ==> shown.len() == 3
            &&& forall|i: int, j: int|
                0 <= i < j < shown.len() ==> shown[i].ms_spec() < shown[j].ms_spec()
            &&& shown.len() == 1 || shown.len() == 3
        }),
{
    reveal_strlit("1h");
    reveal_strlit("24h");
    reveal_strlit("7d");
    assert("1h"@[0] == '1');
    assert("24h"@[0] == '2');
    assert("7d"@[0] == '7');
    if let Some(s) = asked {
        if s@ != MetricWindow::Hour.name() && s@ != MetricWindow::Day.name() && s@
            != MetricWindow::Week.name() {
            assert(windows_spec(asked).len() == 3);
        }
    }
}

} // verus!
