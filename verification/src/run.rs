//! One measured run: the resource-usage snapshot and its delta, the five
//! fixed kernel metrics, and the merge of the telemetry the measured command
//! sent. Times are microseconds; the peak resident size is in kilobytes.

use vstd::prelude::*;

use crate::bytes::{bytes_of, str_bytes};
use crate::error::HarnessError;
use crate::metrics::{MetricValue, Metrics};
use crate::num::Decimal;
use crate::statsd::{apply_telemetry, split_on, telemetry_fold, telemetry_ok};

verus! {

/// An OS resource-usage snapshot: CPU times in microseconds, peak resident
/// size in kilobytes. Counters only grow while a process runs.
#[derive(Clone, Copy, Debug, PartialEq, Eq, Structural)]
pub struct Rusage {
    pub user_time_us: u64,
    pub system_time_us: u64,
    pub max_res_size: u64,
}

/// Field-wise `after - before`.
pub fn rusage_delta(before: &Rusage, after: &Rusage) -> (d: Rusage)
    requires
        before.user_time_us <= after.user_time_us,
        before.system_time_us <= after.system_time_us,
        before.max_res_size <= after.max_res_size,
    ensures
        d.user_time_us == after.user_time_us - before.user_time_us,
        d.system_time_us == after.system_time_us - before.system_time_us,
        d.max_res_size == after.max_res_size - before.max_res_size,
{
    Rusage {
        user_time_us: after.user_time_us - before.user_time_us,
        system_time_us: after.system_time_us - before.system_time_us,
        max_res_size: after.max_res_size - before.max_res_size,
    }
}

/// CPU percentage of wall time, as a mantissa with four fraction digits:
/// `(user + system) * 100 / wall`, so the mantissa is `(user + system) *
/// 10^6 / wall`.
pub open spec fn cpu_pct_mantissa(user_us: int, system_us: int, wall_us: int) -> int {
    (user_us + system_us) * 1000000 / wall_us
}

/// The bound under which the percentage mantissa fits an `i64`.
pub const CPU_TIME_US_MAX: u64 = 9223372036854;

/// The five fixed metrics of a measured run, before telemetry is merged.
pub open spec fn base_run_map(wall_us: u64, delta: Rusage) -> Map<Seq<u8>, MetricValue> {
    Map::<Seq<u8>, MetricValue>::empty().insert(
        bytes_of("wall.time"@),
        MetricValue::Num(Decimal { mantissa: wall_us as i64, scale: 0u32 }),
    ).insert(
        bytes_of("max.res.size"@),
        MetricValue::Num(Decimal { mantissa: delta.max_res_size as i64, scale: 0u32 }),
    ).insert(
        bytes_of("user.time"@),
        MetricValue::Num(Decimal { mantissa: delta.user_time_us as i64, scale: 0u32 }),
    ).insert(
        bytes_of("system.time"@),
        MetricValue::Num(Decimal { mantissa: delta.system_time_us as i64, scale: 0u32 }),
    ).insert(
        bytes_of("cpu.pct.wall.time"@),
        MetricValue::Num(
            Decimal {
                mantissa: cpu_pct_mantissa(
                    delta.user_time_us as int,
                    delta.system_time_us as int,
                    wall_us as int,
                ) as i64,
                scale: 4u32,
            },
        ),
    )
}

/// Assemble the metrics of one measured run: the five fixed kernel metrics,
/// then every telemetry line the command sent, later lines winning. Fails
/// exactly when some telemetry value does not parse.
pub fn collect_run_metrics(wall_us: u64, delta: Rusage, telemetry: &[u8]) -> (r: Result<
    Metrics,
    HarnessError,
>)
    requires
        1 <= wall_us <= i64::MAX,
        delta.user_time_us + delta.system_time_us <= CPU_TIME_US_MAX,
        delta.max_res_size <= i64::MAX,
    ensures
        match r {
            Ok(m) => {
                &&& m.wf()
                &&& telemetry_ok(split_on(telemetry@, 10u8))
                &&& m.as_map() == telemetry_fold(
                    base_run_map(wall_us, delta),
                    split_on(telemetry@, 10u8),
                )
            },
            Err(e) => {
                &&& e == HarnessError::MalformedTelemetry
                &&& !telemetry_ok(split_on(telemetry@, 10u8))
            },
        },
{
    let mut m = Metrics::new();
    proof {
        reveal_strlit("wall.time");
        reveal_strlit("max.res.size");
        reveal_strlit("user.time");
        reveal_strlit("system.time");
        reveal_strlit("cpu.pct.wall.time");
        assert(vstd::string::is_ascii("wall.time"));
        assert(vstd::string::is_ascii("max.res.size"));
        assert(vstd::string::is_ascii("user.time"));
        assert(vstd::string::is_ascii("system.time"));
        assert(vstd::string::is_ascii("cpu.pct.wall.time"));
    }
    m.insert(str_bytes("wall.time"), MetricValue::Num(Decimal::whole(wall_us as i64)));
    m.insert(str_bytes("max.res.size"), MetricValue::Num(Decimal::whole(delta.max_res_size as i64)));
    m.insert(str_bytes("user.time"), MetricValue::Num(Decimal::whole(delta.user_time_us as i64)));
    m.insert(
        str_bytes("system.time"),
        MetricValue::Num(Decimal::whole(delta.system_time_us as i64)),
    );
    let total_us: u128 = delta.user_time_us as u128 + delta.system_time_us as u128;
    let scaled: u128 = total_us * 1000000;
    let pct_mantissa: u128 = scaled / (wall_us as u128);
    proof {
        assert(pct_mantissa <= scaled) by (nonlinear_arith)
            requires
                wall_us >= 1,
                pct_mantissa == scaled / (wall_us as u128),
        ;
        assert(scaled <= 9223372036854000000);
    }
    m.insert(
        str_bytes("cpu.pct.wall.time"),
        MetricValue::Num(Decimal { mantissa: pct_mantissa as i64, scale: 4 }),
    );
    proof {
        assert(m.as_map() =~= base_run_map(wall_us, delta));
    }
    match apply_telemetry(&mut m, telemetry) {
        Ok(()) => Ok(m),
        Err(e) => Err(e),
    }
}

/// A fixed metric stays present and numeric through any telemetry merge:
/// every value a telemetry line inserts is itself a number.
pub proof fn lemma_fold_keeps_numeric(
    m: Map<Seq<u8>, MetricValue>,
    lines: Seq<Seq<u8>>,
    k: Seq<u8>,
)
    requires
        m.contains_key(k),
        m[k] is Num,
    ensures
        telemetry_fold(m, lines).contains_key(k),
        telemetry_fold(m, lines)[k] is Num,
    decreases lines.len(),
{
    if lines.len() > 0 {
        lemma_fold_keeps_numeric(crate::statsd::line_insert(m, lines[0]), lines.drop_first(), k);
    }
}

/// A fixed metric of a run is a non-negative number in the final merge,
/// provided no telemetry line set that name to a negative value.
pub proof fn lemma_fold_keeps_nonnegative(
    m: Map<Seq<u8>, MetricValue>,
    lines: Seq<Seq<u8>>,
    k: Seq<u8>,
)
    requires
        m.contains_key(k),
        m[k] is Num,
        m[k]->Num_0.mantissa >= 0,
        forall|i: int|
            0 <= i < lines.len() ==> crate::statsd::line_skipped(#[trigger] lines[i])
                || crate::statsd::line_name(lines[i]) != k || (crate::statsd::line_value(lines[i])
                matches Some(d) && d.mantissa >= 0),
    ensures
        telemetry_fold(m, lines).contains_key(k),
        telemetry_fold(m, lines)[k] is Num,
        telemetry_fold(m, lines)[k]->Num_0.mantissa >= 0,
    decreases lines.len(),
{
    if lines.len() > 0 {
        let m1 = crate::statsd::line_insert(m, lines[0]);
        assert(lines[0] == lines[0]);
        assert forall|i: int| 0 <= i < lines.drop_first().len() implies crate::statsd::line_skipped(
            #[trigger] lines.drop_first()[i],
        ) || crate::statsd::line_name(lines.drop_first()[i]) != k || (crate::statsd::line_value(
            lines.drop_first()[i],
        ) matches Some(d) && d.mantissa >= 0) by {
            assert(lines.drop_first()[i] == lines[i + 1]);
        }
        lemma_fold_keeps_nonnegative(m1, lines.drop_first(), k);
    }
}

/// Each of the five fixed run metrics is present and non-negative after the
/// telemetry merge, as long as no telemetry line set that very name to a
/// negative value.
pub proof fn lemma_run_metrics_nonnegative(wall_us: u64, delta: Rusage, lines: Seq<Seq<u8>>, k: Seq<u8>)
    requires
        1 <= wall_us <= i64::MAX,
        delta.user_time_us + delta.system_time_us <= CPU_TIME_US_MAX,
        delta.max_res_size <= i64::MAX,
        k == bytes_of("wall.time"@) || k == bytes_of("max.res.size"@) || k == bytes_of("user.time"@)
            || k == bytes_of("system.time"@) || k == bytes_of("cpu.pct.wall.time"@),
        forall|i: int|
            0 <= i < lines.len() ==> crate::statsd::line_skipped(#[trigger] lines[i])
                || crate::statsd::line_name(lines[i]) != k || (crate::statsd::line_value(lines[i])
                matches Some(d) && d.mantissa >= 0),
    ensures
        telemetry_fold(base_run_map(wall_us, delta), lines).contains_key(k),
        telemetry_fold(base_run_map(wall_us, delta), lines)[k] is Num,
        telemetry_fold(base_run_map(wall_us, delta), lines)[k]->Num_0.mantissa >= 0,
{
    let m = base_run_map(wall_us, delta);
    assert(m.contains_key(k) && m[k] is Num && m[k]->Num_0.mantissa >= 0) by {
        assert(cpu_pct_mantissa(
            delta.user_time_us as int,
            delta.system_time_us as int,
            wall_us as int,
        ) >= 0) by (nonlinear_arith)
            requires
                wall_us >= 1,
                delta.user_time_us >= 0,
                delta.system_time_us >= 0,
        ;
    }
    lemma_fold_keeps_nonnegative(m, lines, k);
}

} // verus!
