use sirun::config::{iteration_child_config, Config};
use sirun::error::HarnessError;
use sirun::iterate::push_iteration;
use sirun::metrics::{MetricValue, Metrics};
use sirun::num::Decimal;
use sirun::report::encode_fixed_metrics;
use sirun::run::{collect_run_metrics, Rusage};

fn num_of(m: &Metrics, name: &[u8]) -> Decimal {
    match m.get(name) {
        Some(MetricValue::Num(d)) => *d,
        _ => panic!("expected a numeric metric"),
    }
}

fn sample_run() -> Metrics {
    let delta = Rusage { user_time_us: 300, system_time_us: 200, max_res_size: 100 };
    collect_run_metrics(1000, delta, b"").unwrap()
}

#[test]
fn encoded_report_lists_the_five_metrics() {
    let out = encode_fixed_metrics(&sample_run()).unwrap();
    let expected = b"max.res.size:100|g\nuser.time:300|g\nsystem.time:200|g\n\
wall.time:1000|g\ncpu.pct.wall.time:50.0000|g\n";
    assert_eq!(out, expected);
}

#[test]
fn encode_fails_without_all_five() {
    let mut m = Metrics::new();
    m.insert(b"wall.time".to_vec(), MetricValue::Num(Decimal { mantissa: 1, scale: 0 }));
    assert_eq!(encode_fixed_metrics(&m), Err(HarnessError::MalformedTelemetry));
}

#[test]
fn encode_fails_on_non_numeric_fixed_metric() {
    let mut m = sample_run();
    m.insert(b"user.time".to_vec(), MetricValue::Text(b"oops".to_vec()));
    assert_eq!(encode_fixed_metrics(&m), Err(HarnessError::MalformedTelemetry));
}

#[test]
fn child_report_round_trips_into_one_record() {
    // What a child sends is exactly what the parent's drain reads back.
    let report = encode_fixed_metrics(&sample_run()).unwrap();
    let mut iterations: Vec<Metrics> = Vec::new();
    push_iteration(&mut iterations, &report).unwrap();
    assert_eq!(iterations.len(), 1);
    let rec = &iterations[0];
    assert_eq!(rec.len(), 5);
    assert_eq!(num_of(rec, b"max.res.size"), Decimal { mantissa: 100, scale: 0 });
    assert_eq!(num_of(rec, b"user.time"), Decimal { mantissa: 300, scale: 0 });
    assert_eq!(num_of(rec, b"system.time"), Decimal { mantissa: 200, scale: 0 });
    assert_eq!(num_of(rec, b"wall.time"), Decimal { mantissa: 1000, scale: 0 });
    assert_eq!(num_of(rec, b"cpu.pct.wall.time"), Decimal { mantissa: 500000, scale: 4 });
}

#[test]
fn n_iterations_give_n_records() {
    let report = encode_fixed_metrics(&sample_run()).unwrap();
    let mut iterations: Vec<Metrics> = Vec::new();
    for _ in 0..4 {
        push_iteration(&mut iterations, &report).unwrap();
    }
    assert_eq!(iterations.len(), 4);
    for rec in &iterations {
        assert_eq!(rec.len(), 5);
    }
}

#[test]
fn bad_child_report_is_fatal_and_appends_nothing() {
    let mut iterations: Vec<Metrics> = Vec::new();
    let r = push_iteration(&mut iterations, b"wall.time:oops|g\n");
    assert_eq!(r, Err(HarnessError::MalformedTelemetry));
    assert_eq!(iterations.len(), 0);
}

#[test]
fn child_config_forces_profiler_off() {
    let c = Config {
        run: vec![b"true".to_vec()],
        setup: None,
        env: Vec::new(),
        iterations: 3,
        timeout: Some(10),
        cachegrind: true,
        name: Some(b"bench".to_vec()),
        variant: None,
    };
    let child = iteration_child_config(c);
    assert!(!child.cachegrind);
    assert_eq!(child.iterations, 3);
    assert_eq!(child.run, vec![b"true".to_vec()]);
}

#[test]
fn config_without_run_is_rejected() {
    let c = Config {
        run: Vec::new(),
        setup: None,
        env: Vec::new(),
        iterations: 1,
        timeout: None,
        cachegrind: false,
        name: None,
        variant: None,
    };
    assert_eq!(c.validate(), Err(HarnessError::ConfigError));
}

#[test]
fn config_with_zero_iterations_is_rejected() {
    let c = Config {
        run: vec![b"true".to_vec()],
        setup: None,
        env: Vec::new(),
        iterations: 0,
        timeout: None,
        cachegrind: false,
        name: None,
        variant: None,
    };
    assert_eq!(c.validate(), Err(HarnessError::ConfigError));
}
