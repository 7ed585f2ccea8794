use aoi_chaos::decimal::{is_numeral_text, parse_decimal, Decimal};
use aoi_chaos::model::{check_dimensions, check_observations, Dims, ModelShapes, Shape};
use aoi_chaos::obslog::{parse_line, parse_words, LogLine, ObservationLog};
use aoi_chaos::rounding::{numeral_units, UNIT_BOUND};
use aoi_chaos::schedule::{Schedule, TickPlan};
use aoi_chaos::setup::prepare;
use aoi_chaos::KfError;

fn dec(negative: bool, mantissa: u64, scale: u32) -> Decimal {
    Decimal { negative, mantissa, scale }
}

fn lines(text: &[&str]) -> Vec<String> {
    text.iter().map(|l| l.to_string()).collect()
}

fn schedule_of(text: &[&str], dt: &str) -> Schedule {
    let log = ObservationLog::parse(&lines(text)).unwrap();
    Schedule::new(&log, parse_decimal(dt).unwrap())
}

fn run_all(s: &mut Schedule) -> (Vec<TickPlan>, Option<KfError>) {
    let mut plans = Vec::new();
    loop {
        match s.next_tick() {
            Ok(Some(p)) => plans.push(p),
            Ok(None) => return (plans, None),
            Err(e) => return (plans, Some(e)),
        }
    }
}

fn shape(rows: usize, cols: usize) -> Shape {
    Shape { rows, cols }
}

#[test]
fn decimal_numerals() {
    assert_eq!(parse_decimal("-12.5"), Some(dec(true, 125, 1)));
    assert_eq!(parse_decimal("+3"), Some(dec(false, 3, 0)));
    assert_eq!(parse_decimal(".25"), Some(dec(false, 25, 2)));
    assert_eq!(parse_decimal("7."), Some(dec(false, 7, 0)));
    assert_eq!(parse_decimal("0.01"), Some(dec(false, 1, 2)));
    assert_eq!(parse_decimal("18446744073709551615"), Some(dec(false, u64::MAX, 0)));
    assert_eq!(parse_decimal("0.000000000000000001"), Some(dec(false, 1, 18)));
}

#[test]
fn decimal_exponents() {
    assert_eq!(parse_decimal("1.5e-3"), Some(dec(false, 15, 4)));
    assert_eq!(parse_decimal("2E3"), Some(dec(false, 2000, 0)));
    assert_eq!(parse_decimal("1e+2"), Some(dec(false, 100, 0)));
    assert_eq!(parse_decimal("-0.5e1"), Some(dec(true, 5, 0)));
    assert_eq!(parse_decimal("0e20"), Some(dec(false, 0, 0)));
    assert_eq!(parse_decimal("1e-18"), Some(dec(false, 1, 18)));
    assert_eq!(parse_decimal("1e"), None);
    assert_eq!(parse_decimal("e5"), None);
    assert_eq!(parse_decimal("1e5.0"), None);
    assert_eq!(parse_decimal("1e--2"), None);
    assert_eq!(parse_decimal("1e2-"), None);
    assert_eq!(parse_decimal("1e1001"), None);
    assert_eq!(parse_decimal("1e-19"), None);
    assert_eq!(parse_decimal("100e-20"), None);
    assert_eq!(parse_decimal("1e20"), None);
}

#[test]
fn decimal_rejections() {
    assert_eq!(parse_decimal(""), None);
    assert_eq!(parse_decimal("-"), None);
    assert_eq!(parse_decimal("."), None);
    assert_eq!(parse_decimal("1.2.3"), None);
    assert_eq!(parse_decimal("abc"), None);
    assert_eq!(parse_decimal("1-2"), None);
    assert_eq!(parse_decimal("18446744073709551616"), None);
    assert_eq!(parse_decimal("0.0000000000000000001"), None);
}

#[test]
fn decimal_units() {
    assert_eq!(dec(false, 1, 2).to_units(), 10_000_000_000_000_000);
    assert_eq!(dec(true, 125, 1).to_units(), -12_500_000_000_000_000_000);
    assert_eq!(dec(false, 0, 0).to_units(), 0);
    assert_eq!(dec(false, u64::MAX, 0).to_units(), u64::MAX as i128 * 1_000_000_000_000_000_000);
}

#[test]
fn line_keys_and_records() {
    match parse_line("time_span 0.1") {
        Ok(LogLine::TimeSpan(d)) => assert_eq!(d, "0.1"),
        _ => panic!("expected a span"),
    }
    match parse_line("simulation_time   10") {
        Ok(LogLine::SimulationTime(d)) => assert_eq!(d, "10"),
        _ => panic!("expected a run length"),
    }
    match parse_line(" 0.5 1.5\t-2 ") {
        Ok(LogLine::Record(o)) => {
            assert_eq!(o.time, "0.5");
            assert_eq!(o.values, vec!["1.5".to_string(), "-2".to_string()]);
        },
        _ => panic!("expected a record"),
    }
    match parse_words(&lines(&["3"])) {
        Ok(LogLine::Record(o)) => {
            assert_eq!(o.time, "3");
            assert!(o.values.is_empty());
        },
        _ => panic!("expected a record"),
    }
}

#[test]
fn line_errors() {
    assert!(matches!(parse_line(""), Err(KfError::ParseError)));
    assert!(matches!(parse_line("time_span"), Err(KfError::ParseError)));
    assert!(matches!(parse_line("simulation_time x"), Err(KfError::ParseError)));
    assert!(matches!(parse_line("0.1 1 two"), Err(KfError::ParseError)));
    assert!(matches!(parse_line("time 1"), Err(KfError::ParseError)));
    assert!(matches!(parse_line("time_span 0.1 junk"), Err(KfError::ParseError)));
    assert!(matches!(parse_line("simulation_time 1 x"), Err(KfError::ParseError)));
    assert!(matches!(parse_line("time_span x 1"), Err(KfError::ParseError)));
}

#[test]
fn log_in_file_order() {
    let log = ObservationLog::parse(&lines(&[
        "time_span 0.1",
        "0.1 1 2",
        "simulation_time 1",
        "0.2 3 4",
        "time_span 0.2",
    ]))
    .unwrap();
    assert_eq!(log.observation_span, "0.2");
    assert_eq!(log.simulation_time_length, "1");
    assert_eq!(log.records.len(), 2);
    assert_eq!(log.records[0].time, "0.1");
    assert_eq!(log.records[1].values, vec!["3".to_string(), "4".to_string()]);
}

#[test]
fn log_defaults_and_errors() {
    let log = ObservationLog::parse(&Vec::new()).unwrap();
    assert!(log.records.is_empty());
    assert_eq!(log.observation_span, "0");
    assert_eq!(log.simulation_time_length, "0");
    assert!(matches!(
        ObservationLog::parse(&lines(&["time_span 0.1", "0.1 1e"])),
        Err(KfError::ParseError)
    ));
}

#[test]
fn parse_twice_same_log() {
    let text = lines(&["time_span 0.01", "simulation_time 0.05", "0.01 1.5", "0.02 -2"]);
    let a = ObservationLog::parse(&text).unwrap();
    let b = ObservationLog::parse(&text).unwrap();
    assert_eq!(a.observation_span, b.observation_span);
    assert_eq!(a.simulation_time_length, b.simulation_time_length);
    assert_eq!(a.records.len(), b.records.len());
    for (x, y) in a.records.iter().zip(b.records.iter()) {
        assert_eq!(x.time, y.time);
        assert_eq!(x.values, y.values);
    }
}

#[test]
fn dimensions_consistent() {
    let s = ModelShapes {
        x_len: 2,
        v: shape(2, 2),
        f: shape(2, 2),
        g: shape(2, 3),
        h: shape(1, 2),
        q: shape(3, 3),
        r: shape(1, 1),
    };
    assert_eq!(check_dimensions(s), Ok(Dims { n: 2, m: 3, k: 1 }));
}

#[test]
fn dimensions_mismatch() {
    let good = ModelShapes {
        x_len: 2,
        v: shape(2, 2),
        f: shape(2, 2),
        g: shape(2, 1),
        h: shape(1, 2),
        q: shape(1, 1),
        r: shape(1, 1),
    };
    assert!(check_dimensions(good).is_ok());
    assert_eq!(check_dimensions(ModelShapes { x_len: 3, ..good }), Err(KfError::DimensionMismatch));
    assert_eq!(check_dimensions(ModelShapes { f: shape(2, 1), ..good }), Err(KfError::DimensionMismatch));
    assert_eq!(check_dimensions(ModelShapes { q: shape(2, 2), ..good }), Err(KfError::DimensionMismatch));
    assert_eq!(check_dimensions(ModelShapes { r: shape(2, 2), ..good }), Err(KfError::DimensionMismatch));
    assert_eq!(check_dimensions(ModelShapes { h: shape(1, 3), ..good }), Err(KfError::DimensionMismatch));
}

#[test]
fn observation_lengths() {
    let log = ObservationLog::parse(&lines(&["0.1 1 2", "0.2 3 4"])).unwrap();
    assert_eq!(check_observations(&log, 2), Ok(()));
    assert_eq!(check_observations(&log, 1), Err(KfError::DimensionMismatch));
    let uneven = ObservationLog::parse(&lines(&["0.1 1 2", "0.2 3"])).unwrap();
    assert_eq!(check_observations(&uneven, 2), Err(KfError::DimensionMismatch));
}

#[test]
fn tick_count_is_floor() {
    let s = schedule_of(&["time_span 1", "simulation_time 0.055"], "0.01");
    assert_eq!(s.total_ticks(), 5);
    let s = schedule_of(&["time_span 1", "simulation_time -1"], "0.01");
    assert_eq!(s.total_ticks(), 0);
    let s = schedule_of(&["time_span 1", "simulation_time 1"], "0.25");
    assert_eq!(s.total_ticks(), 4);
}

#[test]
fn no_update_when_span_exceeds_run() {
    let mut s = schedule_of(&["time_span 10", "simulation_time 0.05"], "0.01");
    let (plans, err) = run_all(&mut s);
    assert_eq!(err, None);
    assert_eq!(plans.len(), 5);
    for (i, p) in plans.iter().enumerate() {
        assert_eq!(*p, TickPlan { index: i as u128, update: None });
    }
}

#[test]
fn single_update_at_start() {
    let mut s = schedule_of(&["time_span 0", "simulation_time 0.01", "0 5"], "0.01");
    let (plans, err) = run_all(&mut s);
    assert_eq!(err, None);
    assert_eq!(plans, vec![TickPlan { index: 0, update: Some(0) }]);
}

#[test]
fn updates_every_span() {
    let mut s = schedule_of(
        &["time_span 0.02", "simulation_time 0.05", "0.02 1", "0.04 2"],
        "0.01",
    );
    let (plans, err) = run_all(&mut s);
    assert_eq!(err, None);
    let updates: Vec<Option<usize>> = plans.iter().map(|p| p.update).collect();
    assert_eq!(updates, vec![None, None, Some(0), None, Some(1)]);
    assert_eq!(s.next_tick(), Ok(None));
}

#[test]
fn timing_within_tolerance() {
    let mut s = schedule_of(&["time_span 0.01", "simulation_time 0.02", "0.0105 1"], "0.01");
    let (plans, err) = run_all(&mut s);
    assert_eq!(err, None);
    assert_eq!(plans[1].update, Some(0));
}

#[test]
fn timing_violation() {
    let mut s = schedule_of(&["time_span 0.01", "simulation_time 0.02", "0.012 1"], "0.01");
    let (plans, err) = run_all(&mut s);
    assert_eq!(err, Some(KfError::ObservationTimingMismatch));
    assert_eq!(plans.len(), 1);
    let mut s = schedule_of(&["time_span 0.01", "simulation_time 0.02", "0.0089 1"], "0.01");
    assert_eq!(run_all(&mut s).1, Some(KfError::ObservationTimingMismatch));
}

#[test]
fn exhaustion() {
    let mut s = schedule_of(
        &["time_span 0.01", "simulation_time 0.05", "0.01 1", "0.02 2"],
        "0.01",
    );
    let (plans, err) = run_all(&mut s);
    assert_eq!(err, Some(KfError::OutOfObservations));
    assert_eq!(plans.len(), 3);
    assert_eq!(plans[1].update, Some(0));
    assert_eq!(plans[2].update, Some(1));
}

#[test]
fn numerals_of_any_size() {
    assert!(is_numeral_text("1e-19"));
    assert!(is_numeral_text("0.0012345678901234567"));
    assert!(is_numeral_text("1e20"));
    assert!(is_numeral_text("0e2000"));
    assert!(is_numeral_text("-.5E+3"));
    assert!(!is_numeral_text("1e"));
    assert!(!is_numeral_text("inf"));
    assert!(!is_numeral_text("--1"));
    match parse_line("0 1e-19 0.0012345678901234567 1e400") {
        Ok(LogLine::Record(o)) => {
            assert_eq!(o.time, "0");
            assert_eq!(o.values.len(), 3);
            assert_eq!(o.values[2], "1e400");
        },
        _ => panic!("expected a record"),
    }
    match parse_line("time_span 1e-19") {
        Ok(LogLine::TimeSpan(d)) => assert_eq!(d, "1e-19"),
        _ => panic!("expected a span"),
    }
}

#[test]
fn times_truncated_to_units() {
    assert_eq!(numeral_units("0.01"), 10_000_000_000_000_000);
    assert_eq!(numeral_units("-1.5e-3"), -1_500_000_000_000_000);
    assert_eq!(numeral_units("0.10000000000000000555"), 100_000_000_000_000_005);
    assert_eq!(numeral_units("-0.10000000000000000555"), -100_000_000_000_000_005);
    assert_eq!(numeral_units("1e-19"), 0);
    assert_eq!(numeral_units("12345e-20"), 123);
    assert_eq!(numeral_units("0e99999999999999999999"), 0);
    assert_eq!(numeral_units("1e99999999999999999999"), UNIT_BOUND as i128);
    assert_eq!(numeral_units("-1e20"), -(UNIT_BOUND as i128));
    assert_eq!(numeral_units("7e-99999999999999999999"), 0);
    assert_eq!(numeral_units("123456789012345678901234567890"), UNIT_BOUND as i128);
}

#[test]
fn times_of_any_size_schedule() {
    let log = ObservationLog::parse(&lines(&["time_span 0.01", "simulation_time 0.02", "0.01000000000000000001 1"])).unwrap();
    let mut s = Schedule::new(&log, dec(false, 1, 2));
    let (plans, err) = run_all(&mut s);
    assert_eq!(err, None);
    assert_eq!(plans[1].update, Some(0));
    let log = ObservationLog::parse(&lines(&["time_span 1e-3", "simulation_time 5e-2", "1E-2 1"])).unwrap();
    assert_eq!(Schedule::new(&log, dec(false, 1, 2)).total_ticks(), 5);
    let log = ObservationLog::parse(&lines(&["time_span 0", "simulation_time 0.01", "1e30 1"])).unwrap();
    let mut s = Schedule::new(&log, dec(false, 1, 2));
    assert_eq!(run_all(&mut s).1, Some(KfError::ObservationTimingMismatch));
}

fn one_d() -> ModelShapes {
    ModelShapes {
        x_len: 1,
        v: shape(1, 1),
        f: shape(1, 1),
        g: shape(1, 1),
        h: shape(1, 1),
        q: shape(1, 1),
        r: shape(1, 1),
    }
}

#[test]
fn prepare_a_run() {
    let text = lines(&["time_span 0", "simulation_time 0.01", "0 5"]);
    let mut setup = prepare(one_d(), &text, "0.01").unwrap();
    assert_eq!(setup.dims, Dims { n: 1, m: 1, k: 1 });
    assert_eq!(setup.log.records.len(), 1);
    assert_eq!(setup.schedule.next_tick(), Ok(Some(TickPlan { index: 0, update: Some(0) })));
    assert_eq!(setup.schedule.next_tick(), Ok(None));
}

#[test]
fn prepare_errors() {
    let text = lines(&["time_span 0", "simulation_time 0.01", "0 5"]);
    let bad = ModelShapes { r: shape(2, 2), ..one_d() };
    assert!(matches!(prepare(bad, &text, "0.01"), Err(KfError::DimensionMismatch)));
    let two = lines(&["time_span 0", "simulation_time 0.01", "0 5 6"]);
    assert!(matches!(prepare(one_d(), &two, "0.01"), Err(KfError::DimensionMismatch)));
    assert!(matches!(prepare(one_d(), &lines(&["0 x"]), "0.01"), Err(KfError::ParseError)));
    assert!(matches!(prepare(one_d(), &text, "0"), Err(KfError::InvalidTickLength)));
    assert!(matches!(prepare(one_d(), &text, "-0.01"), Err(KfError::InvalidTickLength)));
    assert!(matches!(prepare(one_d(), &text, "NaN"), Err(KfError::InvalidTickLength)));
    assert!(matches!(prepare(one_d(), &text, "1e-19"), Err(KfError::InvalidTickLength)));
    let tiny = lines(&["time_span 0", "simulation_time 0.01", "1e-30 5"]);
    assert!(prepare(one_d(), &tiny, "0.01").is_ok());
}

#[test]
fn prepare_twice_same_outcome() {
    let text = lines(&["time_span 0.01", "simulation_time 0.03", "0.01 1", "0.02 2"]);
    let mut a = prepare(one_d(), &text, "0.01").unwrap();
    let mut b = prepare(one_d(), &text, "0.01").unwrap();
    assert_eq!(a.dims, b.dims);
    assert_eq!(a.log.observation_span, b.log.observation_span);
    assert_eq!(a.log.records.len(), b.log.records.len());
    loop {
        let x = a.schedule.next_tick();
        assert_eq!(x, b.schedule.next_tick());
        if x != Ok(None) {
            continue;
        }
        break;
    }
}

#[test]
fn key_lines_ignore_extra_numerals() {
    match parse_line("time_span 1 2") {
        Ok(LogLine::TimeSpan(d)) => assert_eq!(d, "1"),
        _ => panic!("expected a span"),
    }
    match parse_line("simulation_time 3 4e1") {
        Ok(LogLine::SimulationTime(d)) => assert_eq!(d, "3"),
        _ => panic!("expected a run length"),
    }
    let log = ObservationLog::parse(&lines(&["time_span 1 2", "0.5 7", "simulation_time 3 4", "time_span 5 6"])).unwrap();
    assert_eq!(log.observation_span, "5");
    assert_eq!(log.simulation_time_length, "3");
    assert_eq!(log.records.len(), 1);
}

#[test]
fn schedule_copy_runs_afresh() {
    let s = schedule_of(&["time_span 0.02", "simulation_time 0.03", "0.02 1"], "0.01");
    let mut first = s.clone();
    let mut second = s.clone();
    assert_eq!(run_all(&mut first), run_all(&mut second));
    assert_eq!(run_all(&mut s.clone()).0.len(), 3);
}
