use vstd::prelude::*;
use vstd::arithmetic::div_mod::lemma_fundamental_div_mod;

use crate::decimal::{lemma_pow10_bound, pow10, Decimal, MAX_SCALE};
use crate::rounding::{lemma_units_of_bound, numeral_units, unit_bound, units_of};
use crate::obslog::{LogView, ObservationLog};
use crate::KfError;

verus! {

/// Number of ticks of length `dt` in a run of length `sim`: `floor(sim / dt)`, none for a
/// run that is not positive.
pub open spec fn tick_count(sim: int, dt: int) -> int {
    if sim <= 0 {
        0
    } else {
        sim / dt
    }
}

/// An update is due when the time since the last one, `since` ticks, has reached the span.
pub open spec fn update_due(since: int, dt: int, span: int) -> bool {
    since * dt >= span
}

/// An observation at `time` may be applied at tick `tick` when it is no further than
/// `dt / 10` from the tick's time.
pub open spec fn on_time(time: int, tick: int, dt: int) -> bool {
    let d = time - tick * dt;
    10 * (if d < 0 { -d } else { d }) <= dt
}

/// What the run does in one tick: it predicts, then applies the observation
/// `update` names, if any, then writes the state at time `index * dt`.
#[derive(Debug, Clone, Copy, PartialEq, Eq, Structural)]
pub struct TickPlan {
    pub index: u128,
    pub update: Option<usize>,
}

/// The driving loop's state, in units of `10^-MAX_SCALE`: the tick length, the
/// span between updates, the run's length and its number of ticks, the
/// observations' times, the next tick, the ticks since the last update, and the
/// next observation to apply.
pub struct ScheduleView {
    pub dt: int,
    pub span: int,
    pub sim: int,
    pub total: int,
    pub times: Seq<int>,
    pub tick: int,
    pub since: int,
    pub next: int,
}

/// One tick of the driving loop: the plan for it, or the error that ends the run,
/// and the state after it. A finished run plans nothing more.
pub open spec fn step_of(s: ScheduleView) -> (Result<Option<TickPlan>, KfError>, ScheduleView) {
    if s.tick >= s.total {
        (Ok(None), s)
    } else if !update_due(s.since, s.dt, s.span) {
        (
            Ok(Some(TickPlan { index: s.tick as u128, update: None })),
            ScheduleView { tick: s.tick + 1, since: s.since + 1, ..s },
        )
    } else if s.next >= s.times.len() {
        (Err(KfError::OutOfObservations), s)
    } else if !on_time(s.times[s.next], s.tick, s.dt) {
        (Err(KfError::ObservationTimingMismatch), s)
    } else {
        (
            Ok(Some(TickPlan { index: s.tick as u128, update: Some(s.next as usize) })),
            ScheduleView { tick: s.tick + 1, since: 1, next: s.next + 1, ..s },
        )
    }
}

/// The schedule of a run over a log with ticks of length `dt`, before its first
/// tick. The log's times are taken in units of `10^-MAX_SCALE`, truncated
/// toward zero and held within `unit_bound()`.
pub open spec fn schedule_of(log: LogView, dt: Decimal) -> ScheduleView {
    ScheduleView {
        dt: dt.units(),
        span: units_of(log.observation_span),
        sim: units_of(log.simulation_time_length),
        total: tick_count(units_of(log.simulation_time_length), dt.units()),
        times: log.records.map_values(|o: (Seq<char>, Seq<Seq<char>>)| units_of(o.0)),
        tick: 0,
        since: 0,
        next: 0,
    }
}

/// The states that a run passes through.
pub open spec fn view_wf(s: ScheduleView) -> bool {
    &&& 0 < s.dt <= unit_bound()
    &&& -unit_bound() <= s.span <= unit_bound()
    &&& -unit_bound() <= s.sim <= unit_bound()
    &&& s.total == tick_count(s.sim, s.dt)
    &&& forall|i: int| 0 <= i < s.times.len() ==> -unit_bound() <= #[trigger] s.times[i] <= unit_bound()
    &&& 0 <= s.since <= s.tick <= s.total
    &&& 0 <= s.next <= s.times.len()
}

/// Decides, tick by tick, when the filter applies which observation.
#[derive(Clone)]
pub struct Schedule {
    dt: i128,
    span: i128,
    sim: i128,
    total: u128,
    times: Vec<i128>,
    tick: u128,
    since: u128,
    next: usize,
}

impl Schedule {
    pub closed spec fn view(&self) -> ScheduleView {
        ScheduleView {
            dt: self.dt as int,
            span: self.span as int,
            sim: self.sim as int,
            total: self.total as int,
            times: self.times@.map_values(|t: i128| t as int),
            tick: self.tick as int,
            since: self.since as int,
            next: self.next as int,
        }
    }

    pub open spec fn wf(&self) -> bool {
        view_wf(self.view())
    }

    /// The schedule of a run over `log` with ticks of length `dt`, before its first tick.
    pub fn new(log: &ObservationLog, dt: Decimal) -> (r: Schedule)
        requires
            log.wf(),
            dt.wf(),
            dt.units() > 0,
        ensures
            r.view() == schedule_of(log.view(), dt),
            r.wf(),
    {
        let ghost lv = log.view();
        proof {
            lemma_units_bound(dt);
            lemma_units_of_bound(lv.observation_span);
            lemma_units_of_bound(lv.simulation_time_length);
        }
        let dtu = dt.to_units();
        let span = numeral_units(log.observation_span.as_str());
        let sim = numeral_units(log.simulation_time_length.as_str());
        let total: u128 = if sim <= 0 {
            0
        } else {
            (sim / dtu) as u128
        };
        let mut times: Vec<i128> = Vec::new();
        let mut i: usize = 0;
        while i < log.records.len()
            invariant
                lv == log.view(),
                log.wf(),
                i <= log.records.len(),
                times@.len() == i,
                forall|j: int| 0 <= j < i ==> #[trigger] times@[j] == units_of(lv.records[j].0),
                forall|j: int| 0 <= j < i ==> -unit_bound() <= #[trigger] times@[j] <= unit_bound(),
            decreases log.records.len() - i,
        {
            assert(lv.records[i as int].0 == log.records[i as int].time@);
            proof {
                lemma_units_of_bound(lv.records[i as int].0);
            }
            let t = numeral_units(log.records[i].time.as_str());
            times.push(t);
            i = i + 1;
        }
        let r = Schedule { dt: dtu, span, sim, total, times, tick: 0, since: 0, next: 0 };
        proof {
            assert(r.view().times =~= lv.records.map_values(|o: (Seq<char>, Seq<Seq<char>>)| units_of(o.0)));
            assert forall|j: int| 0 <= j < r.view().times.len() implies -unit_bound() <= #[trigger] r.view().times[j] <= unit_bound() by {
                assert(r.view().times[j] == times@[j]);
            }
            if sim > 0 {
                lemma_fundamental_div_mod(sim as int, dtu as int);
                assert((sim / dtu) * dtu <= sim) by (nonlinear_arith)
                    requires
                        sim == dtu * (sim / dtu) + sim % dtu,
                        0 <= sim % dtu,
                ;
                assert(sim / dtu <= sim) by (nonlinear_arith)
                    requires
                        sim > 0,
                        dtu > 0,
                        (sim / dtu) * dtu <= sim,
                ;
            }
        }
        r
    }

    /// Number of ticks in the run.
    pub fn total_ticks(&self) -> (r: u128)
        ensures
            r == self.view().total,
    {
        self.total
    }

    /// Plans the next tick, or says why the run must stop; `Ok(None)` once every tick is planned.
    pub fn next_tick(&mut self) -> (r: Result<Option<TickPlan>, KfError>)
        requires
            old(self).wf(),
        ensures
            final(self).wf(),
            (r, final(self).view()) == step_of(old(self).view()),
    {
        let ghost s = self.view();
        if self.tick >= self.total {
            return Ok(None);
        }
        proof {
            lemma_tick_time_bound(s);
        }
        let acc: i128 = self.since as i128 * self.dt;
        if acc < self.span {
            self.tick = self.tick + 1;
            self.since = self.since + 1;
            proof {
                assert(self.view().times =~= s.times);
            }
            return Ok(Some(TickPlan { index: self.tick - 1, update: None }));
        }
        if self.next >= self.times.len() {
            return Err(KfError::OutOfObservations);
        }
        proof {
            lemma_unit_bound_small();
            assert(-unit_bound() <= s.times[s.next] <= unit_bound());
            assert(s.times[s.next] == self.times@[self.next as int]);
        }
        let now: i128 = self.tick as i128 * self.dt;
        let d: i128 = self.times[self.next] - now;
        let a: i128 = if d < 0 {
            -d
        } else {
            d
        };
        proof {
            assert(s.times[s.next] == self.times@[self.next as int]);
            lemma_tenth(a as int, self.dt as int);
        }
        if a > self.dt / 10 {
            return Err(KfError::ObservationTimingMismatch);
        }
        let used = self.next;
        self.tick = self.tick + 1;
        self.since = 1;
        self.next = self.next + 1;
        proof {
            assert(self.view().times =~= s.times);
        }
        Ok(Some(TickPlan { index: self.tick - 1, update: Some(used) }))
    }
}

/// A well-formed `Decimal` is within `unit_bound()`, which is under `2^125`.
proof fn lemma_units_bound(d: Decimal)
    requires
        d.wf(),
    ensures
        -unit_bound() <= d.units() <= unit_bound(),
        unit_bound() < 0x2000_0000_0000_0000_0000_0000_0000_0000,
{
    lemma_unit_bound_small();
    lemma_pow10_bound((MAX_SCALE - d.scale) as nat);
    let p = pow10((MAX_SCALE - d.scale) as nat);
    assert(d.mantissa * p <= u64::MAX as int * 1_000_000_000_000_000_000int) by (nonlinear_arith)
        requires
            d.mantissa <= u64::MAX,
            0 <= p <= 1_000_000_000_000_000_000int,
    ;
    assert(d.mantissa * p >= 0) by (nonlinear_arith)
        requires
            d.mantissa >= 0,
            p >= 0,
    ;
}

/// `unit_bound()` is under `2^125`.
proof fn lemma_unit_bound_small()
    ensures
        unit_bound() < 0x2000_0000_0000_0000_0000_0000_0000_0000,
{
    lemma_pow10_bound(MAX_SCALE as nat);
}

/// Before the last tick, the time since the last update and the tick's own time
/// both lie within the run, so within `unit_bound()`.
proof fn lemma_tick_time_bound(s: ScheduleView)
    requires
        view_wf(s),
        s.tick < s.total,
    ensures
        0 <= s.since * s.dt <= s.tick * s.dt <= s.sim <= unit_bound(),
{
    assert(s.sim > 0);
    lemma_fundamental_div_mod(s.sim, s.dt);
    assert(s.since * s.dt <= s.tick * s.dt <= s.total * s.dt) by (nonlinear_arith)
        requires
            0 <= s.since <= s.tick <= s.total,
            s.dt > 0,
    ;
    assert(s.total * s.dt <= s.sim) by (nonlinear_arith)
        requires
            s.total == s.sim / s.dt,
            s.sim == s.dt * (s.sim / s.dt) + s.sim % s.dt,
            0 <= s.sim % s.dt,
    ;
    assert(0 <= s.since * s.dt) by (nonlinear_arith)
        requires
            0 <= s.since,
            s.dt > 0,
    ;
}

/// For a non-negative `a`, `10 * a > dt` exactly when `a` exceeds `dt / 10` rounded down.
proof fn lemma_tenth(a: int, dt: int)
    requires
        a >= 0,
        dt > 0,
    ensures
        (10 * a > dt) == (a > dt / 10),
{
    lemma_fundamental_div_mod(dt, 10);
}

/// A run whose span between updates is longer than the run itself never applies
/// an observation: every tick only predicts.
pub proof fn lemma_no_update_when_span_exceeds_run(s: ScheduleView)
    requires
        view_wf(s),
        s.span > s.sim,
    ensures
        step_of(s).0 matches Ok(Some(p)) ==> p.update is None,
        step_of(s).0 is Ok,
        view_wf(step_of(s).1),
        step_of(s).1.span > step_of(s).1.sim,
{
    if s.tick < s.total {
        lemma_tick_time_bound(s);
    }
}

/// The observation that a tick's outcome applies, if any.
pub open spec fn applied(r: Result<Option<TickPlan>, KfError>) -> Option<usize> {
    match r {
        Ok(Some(p)) => p.update,
        _ => None,
    }
}

/// Observations are applied in log order, each at most once: a tick that
/// updates uses the next unused observation, which exists, and moves past it;
/// any other step leaves the next observation where it was.
pub proof fn lemma_updates_in_order(s: ScheduleView)
    requires
        view_wf(s),
    ensures
        applied(step_of(s).0) is Some ==> applied(step_of(s).0) == Some(s.next as usize)
            && s.next < s.times.len() && step_of(s).1.next == s.next + 1,
        applied(step_of(s).0) is None ==> step_of(s).1.next == s.next,
        view_wf(step_of(s).1),
{
}

} // verus!
