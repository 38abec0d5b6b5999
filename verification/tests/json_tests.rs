use sirun::buffer::TelemetryBuffer;
use sirun::json::render_json;
use sirun::metrics::{MetricValue, Metrics};
use sirun::num::Decimal;
use sirun::report::attach_meta;

#[test]
fn one_number_object() {
    let mut m = Metrics::new();
    m.insert(b"a".to_vec(), MetricValue::Num(Decimal { mantissa: 1, scale: 0 }));
    assert_eq!(render_json(&m), b"{\"a\":1}");
}

#[test]
fn numbers_keep_their_fraction_digits() {
    let mut m = Metrics::new();
    m.insert(b"wall.time".to_vec(), MetricValue::Num(Decimal { mantissa: 425, scale: 1 }));
    m.insert(b"pct".to_vec(), MetricValue::Num(Decimal { mantissa: -5, scale: 2 }));
    assert_eq!(render_json(&m), b"{\"wall.time\":42.5,\"pct\":-0.05}");
}

#[test]
fn strings_are_escaped() {
    let mut m = Metrics::new();
    m.insert(b"name".to_vec(), MetricValue::Text(b"a\"b\\c\nd".to_vec()));
    assert_eq!(render_json(&m), b"{\"name\":\"a\\\"b\\\\c\\u000ad\"}");
}

#[test]
fn empty_object() {
    let m = Metrics::new();
    assert_eq!(render_json(&m), b"{}");
}

#[test]
fn iteration_records_become_an_array() {
    let mut r1 = Metrics::new();
    r1.insert(b"wall.time".to_vec(), MetricValue::Num(Decimal { mantissa: 10, scale: 0 }));
    let mut r2 = Metrics::new();
    r2.insert(b"wall.time".to_vec(), MetricValue::Num(Decimal { mantissa: 20, scale: 0 }));
    let mut m = Metrics::new();
    m.insert(b"iterations".to_vec(), MetricValue::Arr(vec![r1, r2]));
    assert_eq!(
        render_json(&m),
        b"{\"iterations\":[{\"wall.time\":10},{\"wall.time\":20}]}"
    );
}

#[test]
fn insertion_overwrites_without_reordering() {
    let mut m = Metrics::new();
    m.insert(b"a".to_vec(), MetricValue::Num(Decimal { mantissa: 1, scale: 0 }));
    m.insert(b"b".to_vec(), MetricValue::Num(Decimal { mantissa: 2, scale: 0 }));
    m.insert(b"a".to_vec(), MetricValue::Num(Decimal { mantissa: 3, scale: 0 }));
    assert_eq!(render_json(&m), b"{\"a\":3,\"b\":2}");
}

#[test]
fn metadata_is_attached_in_order() {
    let mut m = Metrics::new();
    m.insert(b"x".to_vec(), MetricValue::Num(Decimal { mantissa: 9, scale: 0 }));
    attach_meta(
        &mut m,
        Some(b"abc123".to_vec()),
        Some(b"bench".to_vec()),
        None,
    );
    assert_eq!(
        render_json(&m),
        b"{\"x\":9,\"version\":\"abc123\",\"name\":\"bench\"}"
    );
}

#[test]
fn buffer_accumulates_and_drains_once() {
    let mut buf = TelemetryBuffer::new();
    buf.append(b"a:1|c\n");
    buf.append(b"b:2|c\n");
    let first = buf.drain();
    assert_eq!(first, b"a:1|c\nb:2|c\n");
    let second = buf.drain();
    assert!(second.is_empty());
}
