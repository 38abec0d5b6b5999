//! The iteration child's self-report: the five fixed metrics of its run,
//! re-encoded as wire-protocol lines and sent to the parent. Encoding then
//! parsing yields exactly those five entries back
//! (`lemma_report_round_trip`), which is why a parent sees one complete
//! five-metric record per child.

use vstd::prelude::*;

use crate::bytes::{append_bytes, bytes_of, str_bytes};
use crate::error::HarnessError;
use crate::metrics::{MetricValue, Metrics};
use crate::num::{dec_text, fmt_decimal, lemma_dec_text_bytes, lemma_parse_fmt_decimal, Decimal};
use crate::num::is_digit;
use crate::statsd::{
    line_fields, line_insert, line_name, line_skipped, line_value, split_on, strip_cr,
    telemetry_fold, telemetry_ok,
};
use crate::bytes::{find_byte, lemma_find_byte_at, lemma_find_byte_none};

verus! {

/// One wire line of the report: `name:value|g` and a newline.
pub open spec fn report_line(name: Seq<u8>, d: Decimal) -> Seq<u8> {
    name + seq![58u8] + dec_text(d) + seq![124u8, 103u8, 10u8]
}

/// The body of such a line, as line splitting sees it.
pub open spec fn report_line_body(name: Seq<u8>, d: Decimal) -> Seq<u8> {
    name + seq![58u8] + dec_text(d) + seq![124u8, 103u8]
}

/// All five fixed run metrics are present and numeric.
pub open spec fn five_numeric(m: Metrics) -> bool {
    &&& m.contains_name(bytes_of("max.res.size"@)) && m.value_of(bytes_of("max.res.size"@)) is Num
    &&& m.contains_name(bytes_of("user.time"@)) && m.value_of(bytes_of("user.time"@)) is Num
    &&& m.contains_name(bytes_of("system.time"@)) && m.value_of(bytes_of("system.time"@)) is Num
    &&& m.contains_name(bytes_of("wall.time"@)) && m.value_of(bytes_of("wall.time"@)) is Num
    &&& m.contains_name(bytes_of("cpu.pct.wall.time"@)) && m.value_of(
        bytes_of("cpu.pct.wall.time"@),
    ) is Num
}

pub open spec fn metric_num(m: Metrics, name: Seq<u8>) -> Decimal {
    m.value_of(name)->Num_0
}

/// The whole report: the five fixed metrics, one line each.
pub open spec fn report_bytes(m: Metrics) -> Seq<u8> {
    report_line(bytes_of("max.res.size"@), metric_num(m, bytes_of("max.res.size"@))) + report_line(
        bytes_of("user.time"@),
        metric_num(m, bytes_of("user.time"@)),
    ) + report_line(bytes_of("system.time"@), metric_num(m, bytes_of("system.time"@)))
        + report_line(bytes_of("wall.time"@), metric_num(m, bytes_of("wall.time"@))) + report_line(
        bytes_of("cpu.pct.wall.time"@),
        metric_num(m, bytes_of("cpu.pct.wall.time"@)),
    )
}

/// Fetch a metric that must be numeric; anything else is fatal.
fn numeric_value(m: &Metrics, name: &[u8]) -> (r: Result<Decimal, HarnessError>)
    requires
        m.wf(),
    ensures
        match r {
            Ok(d) => m.contains_name(name@) && m.value_of(name@) == MetricValue::Num(d),
            Err(e) => {
                &&& e == HarnessError::MalformedTelemetry
                &&& !(m.contains_name(name@) && m.value_of(name@) is Num)
            },
        },
{
    match m.get(name) {
        Some(MetricValue::Num(d)) => Ok(*d),
        Some(_) => Err(HarnessError::MalformedTelemetry),
        None => Err(HarnessError::MalformedTelemetry),
    }
}

/// Append one `name:value|g` line.
fn append_report_line(out: &mut Vec<u8>, name: &[u8], d: Decimal)
    ensures
        final(out)@ == old(out)@ + report_line(name@, d),
{
    let ghost pre = out@;
    append_bytes(out, name);
    out.push(58);
    let text = fmt_decimal(d);
    append_bytes(out, text.as_slice());
    out.push(124);
    out.push(103);
    out.push(10);
    proof {
        assert(out@ =~= pre + report_line(name@, d));
    }
}

/// Encode the five fixed metrics of a finished run as wire-protocol lines,
/// exactly per `report_bytes`; a missing or non-numeric fixed metric is
/// fatal.
pub fn encode_fixed_metrics(m: &Metrics) -> (r: Result<Vec<u8>, HarnessError>)
    requires
        m.wf(),
    ensures
        match r {
            Ok(v) => five_numeric(*m) && v@ == report_bytes(*m),
            Err(e) => e == HarnessError::MalformedTelemetry && !five_numeric(*m),
        },
{
    proof {
        reveal_strlit("max.res.size");
        reveal_strlit("user.time");
        reveal_strlit("system.time");
        reveal_strlit("wall.time");
        reveal_strlit("cpu.pct.wall.time");
        assert(vstd::string::is_ascii("max.res.size"));
        assert(vstd::string::is_ascii("user.time"));
        assert(vstd::string::is_ascii("system.time"));
        assert(vstd::string::is_ascii("wall.time"));
        assert(vstd::string::is_ascii("cpu.pct.wall.time"));
    }
    let n1 = str_bytes("max.res.size");
    let n2 = str_bytes("user.time");
    let n3 = str_bytes("system.time");
    let n4 = str_bytes("wall.time");
    let n5 = str_bytes("cpu.pct.wall.time");
    let d1 = match numeric_value(m, n1.as_slice()) {
        Ok(d) => d,
        Err(e) => {
            return Err(e);
        },
    };
    let d2 = match numeric_value(m, n2.as_slice()) {
        Ok(d) => d,
        Err(e) => {
            return Err(e);
        },
    };
    let d3 = match numeric_value(m, n3.as_slice()) {
        Ok(d) => d,
        Err(e) => {
            return Err(e);
        },
    };
    let d4 = match numeric_value(m, n4.as_slice()) {
        Ok(d) => d,
        Err(e) => {
            return Err(e);
        },
    };
    let d5 = match numeric_value(m, n5.as_slice()) {
        Ok(d) => d,
        Err(e) => {
            return Err(e);
        },
    };
    let mut out: Vec<u8> = Vec::new();
    append_report_line(&mut out, n1.as_slice(), d1);
    append_report_line(&mut out, n2.as_slice(), d2);
    append_report_line(&mut out, n3.as_slice(), d3);
    append_report_line(&mut out, n4.as_slice(), d4);
    append_report_line(&mut out, n5.as_slice(), d5);
    proof {
        assert(out@ =~= report_bytes(*m));
    }
    Ok(out)
}

/// A measured run's metrics can always be re-encoded as a child report:
/// every value a telemetry line inserts is itself a number, so the five
/// fixed names stay present and numeric through any merge.
pub proof fn lemma_run_metrics_reportable(
    m: Metrics,
    wall_us: u64,
    delta: crate::run::Rusage,
    lines: Seq<Seq<u8>>,
)
    requires
        m.as_map() == telemetry_fold(crate::run::base_run_map(wall_us, delta), lines),
    ensures
        five_numeric(m),
{
    let base = crate::run::base_run_map(wall_us, delta);
    let k1 = bytes_of("max.res.size"@);
    let k2 = bytes_of("user.time"@);
    let k3 = bytes_of("system.time"@);
    let k4 = bytes_of("wall.time"@);
    let k5 = bytes_of("cpu.pct.wall.time"@);
    crate::run::lemma_fold_keeps_numeric(base, lines, k1);
    crate::run::lemma_fold_keeps_numeric(base, lines, k2);
    crate::run::lemma_fold_keeps_numeric(base, lines, k3);
    crate::run::lemma_fold_keeps_numeric(base, lines, k4);
    crate::run::lemma_fold_keeps_numeric(base, lines, k5);
}

/// The report's trailing metadata: the optional build version, name and
/// variant, inserted in that order where present.
pub open spec fn with_meta(
    m: Map<Seq<u8>, MetricValue>,
    version: Option<Vec<u8>>,
    name: Option<Vec<u8>>,
    variant: Option<Vec<u8>>,
) -> Map<Seq<u8>, MetricValue> {
    let m1 = match version {
        Some(v) => m.insert(bytes_of("version"@), MetricValue::Text(v)),
        None => m,
    };
    let m2 = match name {
        Some(v) => m1.insert(bytes_of("name"@), MetricValue::Text(v)),
        None => m1,
    };
    match variant {
        Some(v) => m2.insert(bytes_of("variant"@), MetricValue::Text(v)),
        None => m2,
    }
}

/// Attach the optional build version, benchmark name and variant.
pub fn attach_meta(
    metrics: &mut Metrics,
    version: Option<Vec<u8>>,
    name: Option<Vec<u8>>,
    variant: Option<Vec<u8>>,
)
    requires
        old(metrics).wf(),
    ensures
        final(metrics).wf(),
        final(metrics).as_map() == with_meta(old(metrics).as_map(), version, name, variant),
{
    proof {
        reveal_strlit("version");
        reveal_strlit("name");
        reveal_strlit("variant");
        assert(vstd::string::is_ascii("version"));
        assert(vstd::string::is_ascii("name"));
        assert(vstd::string::is_ascii("variant"));
    }
    match version {
        Some(v) => {
            metrics.insert(str_bytes("version"), MetricValue::Text(v));
        },
        None => {},
    }
    match name {
        Some(v) => {
            metrics.insert(str_bytes("name"), MetricValue::Text(v));
        },
        None => {},
    }
    match variant {
        Some(v) => {
            metrics.insert(str_bytes("variant"), MetricValue::Text(v));
        },
        None => {},
    }
}

/// A name with none of the wire protocol's delimiter bytes in it.
pub open spec fn clean_name(s: Seq<u8>) -> bool {
    forall|i: int|
        0 <= i < s.len() ==> (#[trigger] s[i]) != 58u8 && s[i] != 124u8 && s[i] != 10u8 && s[i]
            != 13u8
}

/// A report line's body parses back to its name and value, and holds no
/// newline.
proof fn lemma_line_parse(name: Seq<u8>, d: Decimal)
    requires
        clean_name(name),
    ensures
        !line_skipped(report_line_body(name, d)),
        line_name(report_line_body(name, d)) == name,
        line_value(report_line_body(name, d)) == Some(d),
        forall|i: int|
            0 <= i < report_line_body(name, d).len() ==> (#[trigger] report_line_body(name, d)[i])
                != 10u8,
{
    let dt = dec_text(d);
    let body = report_line_body(name, d);
    lemma_dec_text_bytes(d);
    let pp = name.len() + 1 + dt.len();
    assert(body.len() == pp + 2);
    assert(body[pp as int] == 124u8);
    assert(body[pp as int + 1] == 103u8);
    assert forall|i: int| 0 <= i < pp implies body[i] != 124u8 && body[i] != 10u8 by {
        if i < name.len() {
            assert(body[i] == name[i]);
        } else if i == name.len() {
            assert(body[i] == 58u8);
        } else {
            assert(body[i] == dt[i - name.len() - 1]);
        }
    }
    assert(body.last() == 103u8);
    assert(strip_cr(body) == body);
    lemma_find_byte_at(body, 124u8, pp as int);
    let head = body.subrange(0, pp as int);
    assert(head =~= name + seq![58u8] + dt);
    assert(head[name.len() as int] == 58u8);
    assert forall|i: int| 0 <= i < name.len() implies head[i] != 58u8 by {
        assert(head[i] == name[i]);
    }
    lemma_find_byte_at(head, 58u8, name.len() as int);
    let tail = head.subrange(name.len() as int + 1, head.len() as int);
    assert(tail =~= dt);
    assert forall|i: int| 0 <= i < tail.len() implies tail[i] != 58u8 by {
        assert(tail[i] == dt[i]);
        assert(dt[i] == 45u8 || dt[i] == 46u8 || is_digit(dt[i]));
    }
    lemma_find_byte_none(tail, 58u8);
    assert(split_on(tail, 58u8) == seq![tail]);
    assert(line_fields(body) == seq![head.subrange(0, name.len() as int)] + seq![tail]);
    assert(head.subrange(0, name.len() as int) =~= name);
    assert(line_fields(body).len() == 2);
    assert(line_fields(body)[0] == name);
    assert(line_fields(body)[1] == dt);
    lemma_parse_fmt_decimal(d);
    assert forall|i: int| 0 <= i < body.len() implies (#[trigger] body[i]) != 10u8 by {
        if i == pp {
        } else if i == pp + 1 {
        } else {
            assert(body[i] != 10u8);
        }
    }
}

/// Splitting at the first newline peels one clean line off the front.
proof fn lemma_split_prefix(body: Seq<u8>, rest: Seq<u8>)
    requires
        forall|i: int| 0 <= i < body.len() ==> (#[trigger] body[i]) != 10u8,
    ensures
        split_on(body + seq![10u8] + rest, 10u8) == seq![body] + split_on(rest, 10u8),
{
    let s = body + seq![10u8] + rest;
    assert(s[body.len() as int] == 10u8);
    assert forall|i: int| 0 <= i < body.len() implies s[i] != 10u8 by {
        assert(s[i] == body[i]);
    }
    lemma_find_byte_at(s, 10u8, body.len() as int);
    assert(s.subrange(0, body.len() as int) =~= body);
    assert(s.subrange(body.len() as int + 1, s.len() as int) =~= rest);
}

/// An empty line is skipped.
proof fn lemma_empty_line_skipped()
    ensures
        line_skipped(Seq::<u8>::empty()),
{
    let e = Seq::<u8>::empty();
    assert(strip_cr(e) == e);
    assert(find_byte(e, 124u8) == -1);
    assert(find_byte(e, 58u8) == -1);
    assert(split_on(e, 58u8) == seq![e]);
    assert(line_fields(e).len() == 1);
}

/// Parsing an encoded report from nothing yields exactly the five fixed
/// entries, with the very values the report was encoded from: a parent that
/// drains one child's report sees one complete five-metric record.
#[verifier::rlimit(80)]
pub proof fn lemma_report_round_trip(m: Metrics)
    requires
        five_numeric(m),
    ensures
        telemetry_ok(split_on(report_bytes(m), 10u8)),
        telemetry_fold(Map::<Seq<u8>, MetricValue>::empty(), split_on(report_bytes(m), 10u8))
            =~= Map::<Seq<u8>, MetricValue>::empty().insert(
            bytes_of("max.res.size"@),
            m.value_of(bytes_of("max.res.size"@)),
        ).insert(bytes_of("user.time"@), m.value_of(bytes_of("user.time"@))).insert(
            bytes_of("system.time"@),
            m.value_of(bytes_of("system.time"@)),
        ).insert(bytes_of("wall.time"@), m.value_of(bytes_of("wall.time"@))).insert(
            bytes_of("cpu.pct.wall.time"@),
            m.value_of(bytes_of("cpu.pct.wall.time"@)),
        ),
{
    reveal_strlit("max.res.size");
    reveal_strlit("user.time");
    reveal_strlit("system.time");
    reveal_strlit("wall.time");
    reveal_strlit("cpu.pct.wall.time");
    let k1 = bytes_of("max.res.size"@);
    let k2 = bytes_of("user.time"@);
    let k3 = bytes_of("system.time"@);
    let k4 = bytes_of("wall.time"@);
    let k5 = bytes_of("cpu.pct.wall.time"@);
    assert(clean_name(k1));
    assert(clean_name(k2));
    assert(clean_name(k3));
    assert(clean_name(k4));
    assert(clean_name(k5));
    let v1 = metric_num(m, k1);
    let v2 = metric_num(m, k2);
    let v3 = metric_num(m, k3);
    let v4 = metric_num(m, k4);
    let v5 = metric_num(m, k5);
    let b1 = report_line_body(k1, v1);
    let b2 = report_line_body(k2, v2);
    let b3 = report_line_body(k3, v3);
    let b4 = report_line_body(k4, v4);
    let b5 = report_line_body(k5, v5);
    lemma_line_parse(k1, v1);
    lemma_line_parse(k2, v2);
    lemma_line_parse(k3, v3);
    lemma_line_parse(k4, v4);
    lemma_line_parse(k5, v5);
    let e = Seq::<u8>::empty();
    let r5 = e;
    let r4 = b5 + seq![10u8] + r5;
    let r3 = b4 + seq![10u8] + r4;
    let r2 = b3 + seq![10u8] + r3;
    let r1 = b2 + seq![10u8] + r2;
    assert(report_bytes(m) =~= b1 + seq![10u8] + r1);
    assert(r4 =~= b5 + seq![10u8] + e);
    lemma_split_prefix(b1, r1);
    lemma_split_prefix(b2, r2);
    lemma_split_prefix(b3, r3);
    lemma_split_prefix(b4, r4);
    lemma_split_prefix(b5, r5);
    assert(find_byte(e, 10u8) == -1);
    assert(split_on(e, 10u8) == seq![e]);
    let lines = split_on(report_bytes(m), 10u8);
    assert(lines =~= seq![b1, b2, b3, b4, b5, e]);
    lemma_empty_line_skipped();
    // Walk the six lines, peeling one per step.
    let l1 = seq![b1, b2, b3, b4, b5, e];
    let l2 = seq![b2, b3, b4, b5, e];
    let l3 = seq![b3, b4, b5, e];
    let l4 = seq![b4, b5, e];
    let l5 = seq![b5, e];
    let l6 = seq![e];
    assert(l1.drop_first() =~= l2);
    assert(l2.drop_first() =~= l3);
    assert(l3.drop_first() =~= l4);
    assert(l4.drop_first() =~= l5);
    assert(l5.drop_first() =~= l6);
    assert(l6.drop_first() =~= Seq::<Seq<u8>>::empty());
    assert(telemetry_ok(Seq::<Seq<u8>>::empty()));
    assert(telemetry_ok(l6));
    assert(telemetry_ok(l5));
    assert(telemetry_ok(l4));
    assert(telemetry_ok(l3));
    assert(telemetry_ok(l2));
    assert(telemetry_ok(l1));
    let m0 = Map::<Seq<u8>, MetricValue>::empty();
    let m1 = m0.insert(k1, MetricValue::Num(v1));
    let m2 = m1.insert(k2, MetricValue::Num(v2));
    let m3 = m2.insert(k3, MetricValue::Num(v3));
    let m4 = m3.insert(k4, MetricValue::Num(v4));
    let m5 = m4.insert(k5, MetricValue::Num(v5));
    assert(line_insert(m0, b1) == m1);
    assert(line_insert(m1, b2) == m2);
    assert(line_insert(m2, b3) == m3);
    assert(line_insert(m3, b4) == m4);
    assert(line_insert(m4, b5) == m5);
    assert(line_insert(m5, e) == m5);
    assert(telemetry_fold(m5, Seq::<Seq<u8>>::empty()) == m5);
    assert(telemetry_fold(m0, l1) == telemetry_fold(m1, l2));
    assert(telemetry_fold(m1, l2) == telemetry_fold(m2, l3));
    assert(telemetry_fold(m2, l3) == telemetry_fold(m3, l4));
    assert(telemetry_fold(m3, l4) == telemetry_fold(m4, l5));
    assert(telemetry_fold(m4, l5) == telemetry_fold(m5, l6));
    assert(telemetry_fold(m5, l6) == m5);
    assert(telemetry_fold(m0, l1) == m5);
    assert(MetricValue::Num(v1) == m.value_of(k1));
    assert(MetricValue::Num(v2) == m.value_of(k2));
    assert(MetricValue::Num(v3) == m.value_of(k3));
    assert(MetricValue::Num(v4) == m.value_of(k4));
    assert(MetricValue::Num(v5) == m.value_of(k5));
}

} // verus!
