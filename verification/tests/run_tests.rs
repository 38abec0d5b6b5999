use sirun::error::HarnessError;
use sirun::exit::{classify_exit, timeout_message, ExitOutcome};
use sirun::metrics::{MetricValue, Metrics};
use sirun::num::Decimal;
use sirun::run::{collect_run_metrics, rusage_delta, Rusage};
use sirun::setup::{setup_step, SetupAction};

fn num_of(m: &Metrics, name: &[u8]) -> Decimal {
    match m.get(name) {
        Some(MetricValue::Num(d)) => *d,
        _ => panic!("expected a numeric metric"),
    }
}

#[test]
fn single_run_has_five_nonnegative_metrics() {
    let delta = Rusage { user_time_us: 300, system_time_us: 200, max_res_size: 2048 };
    let m = collect_run_metrics(1000, delta, b"").unwrap();
    for name in [
        b"max.res.size".as_slice(),
        b"user.time".as_slice(),
        b"system.time".as_slice(),
        b"wall.time".as_slice(),
        b"cpu.pct.wall.time".as_slice(),
    ] {
        let d = num_of(&m, name);
        assert!(d.mantissa >= 0);
    }
    assert_eq!(num_of(&m, b"wall.time"), Decimal { mantissa: 1000, scale: 0 });
    assert_eq!(num_of(&m, b"max.res.size"), Decimal { mantissa: 2048, scale: 0 });
    assert_eq!(num_of(&m, b"user.time"), Decimal { mantissa: 300, scale: 0 });
    assert_eq!(num_of(&m, b"system.time"), Decimal { mantissa: 200, scale: 0 });
    // (300 + 200) * 100 / 1000 = 50 percent, kept with four fraction digits.
    assert_eq!(num_of(&m, b"cpu.pct.wall.time"), Decimal { mantissa: 500000, scale: 4 });
}

#[test]
fn run_merges_custom_telemetry() {
    let delta = Rusage { user_time_us: 1, system_time_us: 1, max_res_size: 1 };
    let m = collect_run_metrics(10, delta, b"foo:42.5|g\n").unwrap();
    assert_eq!(m.len(), 6);
    assert_eq!(num_of(&m, b"foo"), Decimal { mantissa: 425, scale: 1 });
}

#[test]
fn run_fails_on_bad_telemetry() {
    let delta = Rusage { user_time_us: 1, system_time_us: 1, max_res_size: 1 };
    let r = collect_run_metrics(10, delta, b"bad:notanumber|g");
    assert!(matches!(r, Err(HarnessError::MalformedTelemetry)));
}

#[test]
fn delta_is_fieldwise() {
    let before = Rusage { user_time_us: 100, system_time_us: 40, max_res_size: 1000 };
    let after = Rusage { user_time_us: 400, system_time_us: 240, max_res_size: 3048 };
    let d = rusage_delta(&before, &after);
    assert_eq!(d, Rusage { user_time_us: 300, system_time_us: 200, max_res_size: 2048 });
}

#[test]
fn exit_zero_succeeds() {
    assert_eq!(classify_exit(0), ExitOutcome::Success);
}

#[test]
fn exit_in_fatal_range_aborts_with_same_code() {
    assert_eq!(classify_exit(1), ExitOutcome::Fatal(1));
    assert_eq!(classify_exit(77), ExitOutcome::Fatal(77));
    assert_eq!(classify_exit(128), ExitOutcome::Fatal(128));
}

#[test]
fn signal_range_exit_is_nonfatal() {
    assert_eq!(classify_exit(137), ExitOutcome::NonFatal);
    assert_eq!(classify_exit(129), ExitOutcome::NonFatal);
}

#[test]
fn setup_retries_then_succeeds() {
    // Three failures, then success: the run completes normally.
    let mut attempts: u8 = 0;
    for _ in 0..3 {
        match setup_step(attempts, 1) {
            SetupAction::Retry(a) => attempts = a,
            other => panic!("expected a retry, got {:?}", other),
        }
    }
    assert_eq!(attempts, 3);
    assert_eq!(setup_step(attempts, 0), SetupAction::Done);
}

#[test]
fn setup_gives_up_after_hundred_failures() {
    let mut attempts: u8 = 0;
    for i in 0..100 {
        match setup_step(attempts, 1) {
            SetupAction::Retry(a) => attempts = a,
            SetupAction::Abort => {
                // The hundredth consecutive failure is fatal.
                assert_eq!(i, 99);
                return;
            },
            SetupAction::Done => panic!("setup cannot succeed on a failure"),
        }
    }
    panic!("the cap was never reached");
}

#[test]
fn timeout_diagnostic_is_exact() {
    assert_eq!(timeout_message(30), b"Timeout of 30 seconds exceeded.");
}
