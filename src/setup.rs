use vstd::prelude::*;

use crate::decimal::{is_numeral, lemma_pow10_bound, numeral_fits, parse_decimal, pow10, Decimal, MAX_SCALE};
use crate::model::{check_dimensions, check_observations, consistent, Dims, ModelShapes};
use crate::obslog::{log_of_lines, LogView, ObservationLog};
use crate::schedule::{schedule_of, Schedule, ScheduleView};
use crate::KfError;

verus! {

/// The sizes that a model's shapes name: `n` from the state, `m` from `G`'s
/// columns, `k` from `H`'s rows.
pub open spec fn dims_of(s: ModelShapes) -> Dims {
    Dims { n: s.x_len, m: s.g.cols, k: s.h.rows }
}

/// Everything a run is set up from, checked in this order: the model's shapes,
/// the log's lines, the length of each observation, and the tick length.
pub open spec fn setup_of(s: ModelShapes, lines: Seq<Seq<char>>, dt: Seq<char>) -> Result<
    (Dims, LogView, ScheduleView),
    KfError,
> {
    if !consistent(s, dims_of(s)) {
        Err(KfError::DimensionMismatch)
    } else {
        match log_of_lines(lines) {
            Err(e) => Err(e),
            Ok(l) => if !(forall|i: int|
                0 <= i < l.records.len() ==> (#[trigger] l.records[i]).1.len() == s.h.rows) {
                Err(KfError::DimensionMismatch)
            } else if !(is_numeral(dt) && numeral_fits(dt) && Decimal::of_numeral(dt).units() > 0) {
                Err(KfError::InvalidTickLength)
            } else {
                Ok((dims_of(s), l, schedule_of(l, Decimal::of_numeral(dt))))
            },
        }
    }
}

/// A run ready to start: the model's sizes, the observation log and the schedule.
pub struct Setup {
    pub dims: Dims,
    pub log: ObservationLog,
    pub schedule: Schedule,
}

/// Checks a model's shapes, reads the observation log from its lines and plans
/// the run with ticks of length `dt`.
pub fn prepare(shapes: ModelShapes, lines: &Vec<String>, dt: &str) -> (r: Result<Setup, KfError>)
    ensures
        match r {
            Ok(u) => setup_of(shapes, lines.deep_view(), dt@) == Ok::<
                (Dims, LogView, ScheduleView),
                KfError,
            >((u.dims, u.log.view(), u.schedule.view())) && u.schedule.wf(),
            Err(e) => setup_of(shapes, lines.deep_view(), dt@) == Err::<
                (Dims, LogView, ScheduleView),
                KfError,
            >(e),
        },
{
    let dims = match check_dimensions(shapes) {
        Ok(d) => d,
        Err(e) => return Err(e),
    };
    let log = match ObservationLog::parse(lines) {
        Ok(l) => l,
        Err(e) => return Err(e),
    };
    let ghost lv = log.view();
    assert forall|i: int| 0 <= i < lv.records.len() implies (#[trigger] lv.records[i]).1.len()
        == log.records@[i].values@.len() by {
        assert(lv.records[i].1 == log.records@[i].values.deep_view());
    }
    match check_observations(&log, dims.k) {
        Ok(()) => {},
        Err(e) => {
            proof {
                let i = choose|i: int|
                    !(0 <= i < log.records@.len() ==> (#[trigger] log.records@[i]).values@.len()
                        == dims.k);
                assert(lv.records[i].1 == log.records@[i].values.deep_view());
            }
            return Err(e);
        },
    }
    let step = match parse_decimal(dt) {
        Some(d) => d,
        None => return Err(KfError::InvalidTickLength),
    };
    proof {
        lemma_units_positive(step);
    }
    if step.negative || step.mantissa == 0 {
        return Err(KfError::InvalidTickLength);
    }
    let schedule = Schedule::new(&log, step);
    Ok(Setup { dims, log, schedule })
}

/// A value is positive exactly when it is not negated and its mantissa is not zero.
pub proof fn lemma_units_positive(d: Decimal)
    ensures
        d.units() > 0 <==> !d.negative && d.mantissa > 0,
{
    let p = pow10((MAX_SCALE - d.scale) as nat);
    lemma_pow10_bound((MAX_SCALE - d.scale) as nat);
    assert(d.mantissa > 0 ==> d.mantissa * p > 0) by (nonlinear_arith)
        requires
            p >= 1,
    ;
    assert(d.mantissa == 0 ==> d.mantissa * p == 0) by (nonlinear_arith);
}

/// Setting a run up is deterministic: the same shapes, lines and tick length
/// always give the same sizes, log and schedule, or the same error.
pub proof fn lemma_setup_deterministic(
    s: ModelShapes,
    lines: Seq<Seq<char>>,
    dt: Seq<char>,
    first: Result<(Dims, LogView, ScheduleView), KfError>,
    second: Result<(Dims, LogView, ScheduleView), KfError>,
)
    requires
        first == setup_of(s, lines, dt),
        second == setup_of(s, lines, dt),
    ensures
        first == second,
{
}

} // verus!
