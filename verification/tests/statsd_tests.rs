use sirun::error::HarnessError;
use sirun::metrics::{MetricValue, Metrics};
use sirun::num::Decimal;
use sirun::statsd::apply_telemetry;

fn num_of(m: &Metrics, name: &[u8]) -> Decimal {
    match m.get(name) {
        Some(MetricValue::Num(d)) => *d,
        _ => panic!("expected a numeric metric"),
    }
}

#[test]
fn gauge_line_yields_value() {
    let mut m = Metrics::new();
    apply_telemetry(&mut m, b"foo:42.5|g\n").unwrap();
    assert_eq!(num_of(&m, b"foo"), Decimal { mantissa: 425, scale: 1 });
}

#[test]
fn bad_value_is_fatal() {
    let mut m = Metrics::new();
    let r = apply_telemetry(&mut m, b"bad:notanumber|g");
    assert_eq!(r, Err(HarnessError::MalformedTelemetry));
}

#[test]
fn junk_lines_are_skipped() {
    let mut m = Metrics::new();
    apply_telemetry(&mut m, b"a:1|c\njunk\nb:2|c").unwrap();
    assert_eq!(m.len(), 2);
    assert_eq!(num_of(&m, b"a"), Decimal { mantissa: 1, scale: 0 });
    assert_eq!(num_of(&m, b"b"), Decimal { mantissa: 2, scale: 0 });
}

#[test]
fn empty_buffer_yields_nothing() {
    let mut m = Metrics::new();
    apply_telemetry(&mut m, b"").unwrap();
    assert_eq!(m.len(), 0);
}

#[test]
fn later_line_overwrites_earlier() {
    let mut m = Metrics::new();
    apply_telemetry(&mut m, b"x:1|g\nx:2|g\n").unwrap();
    assert_eq!(m.len(), 1);
    assert_eq!(num_of(&m, b"x"), Decimal { mantissa: 2, scale: 0 });
}

#[test]
fn suffix_after_pipe_is_ignored() {
    let mut m = Metrics::new();
    apply_telemetry(&mut m, b"a:3|whatever|junk\n").unwrap();
    assert_eq!(num_of(&m, b"a"), Decimal { mantissa: 3, scale: 0 });
}

#[test]
fn extra_colon_fields_keep_second() {
    let mut m = Metrics::new();
    apply_telemetry(&mut m, b"a:7:9|c\n").unwrap();
    assert_eq!(num_of(&m, b"a"), Decimal { mantissa: 7, scale: 0 });
}

#[test]
fn negative_and_signed_values_parse() {
    let mut m = Metrics::new();
    apply_telemetry(&mut m, b"n:-0.5|g\np:+4.25|g\n").unwrap();
    assert_eq!(num_of(&m, b"n"), Decimal { mantissa: -5, scale: 1 });
    assert_eq!(num_of(&m, b"p"), Decimal { mantissa: 425, scale: 2 });
}

#[test]
fn crlf_lines_parse() {
    let mut m = Metrics::new();
    apply_telemetry(&mut m, b"a:1|c\r\nb:2|c\r\n").unwrap();
    assert_eq!(m.len(), 2);
    assert_eq!(num_of(&m, b"b"), Decimal { mantissa: 2, scale: 0 });
}

#[test]
fn line_without_colon_is_skipped() {
    let mut m = Metrics::new();
    apply_telemetry(&mut m, b"no-colon-here|g\n").unwrap();
    assert_eq!(m.len(), 0);
}
