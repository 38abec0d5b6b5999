//! The telemetry wire protocol: newline-separated lines `name:value|type`.
//! Everything after the first `|` is ignored; a line with fewer than two
//! colon-separated fields before it is silently skipped; the value field must
//! parse as a decimal numeral, and a value that does not parse is fatal for
//! the whole measurement.

use vstd::prelude::*;

use crate::bytes::{find_byte, find_byte_range, range_vec};
use crate::error::HarnessError;
use crate::metrics::{MetricValue, Metrics};
use crate::num::{parse_dec, parse_decimal, Decimal};

verus! {

/// Split on a separator byte; a trailing separator yields a final empty part.
pub open spec fn split_on(s: Seq<u8>, sep: u8) -> Seq<Seq<u8>>
    decreases s.len(),
{
    let i = find_byte(s, sep);
    if 0 <= i < s.len() {
        seq![s.subrange(0, i)] + split_on(s.subrange(i + 1, s.len() as int), sep)
    } else {
        seq![s]
    }
}

/// Drop one trailing carriage return, as line splitting does.
pub open spec fn strip_cr(l: Seq<u8>) -> Seq<u8> {
    if l.len() > 0 && l.last() == 13u8 {
        l.drop_last()
    } else {
        l
    }
}

/// The colon-separated fields before the first `|` of a line.
pub open spec fn line_fields(line: Seq<u8>) -> Seq<Seq<u8>> {
    let l = strip_cr(line);
    let p = find_byte(l, 124u8);
    let head = if p == -1 {
        l
    } else {
        l.subrange(0, p)
    };
    split_on(head, 58u8)
}

/// A line with fewer than two fields is silently skipped.
pub open spec fn line_skipped(line: Seq<u8>) -> bool {
    line_fields(line).len() < 2
}

pub open spec fn line_name(line: Seq<u8>) -> Seq<u8> {
    line_fields(line)[0]
}

pub open spec fn line_value(line: Seq<u8>) -> Option<Decimal> {
    parse_dec(line_fields(line)[1])
}

/// What one line does to the metrics mapping.
pub open spec fn line_insert(
    m: Map<Seq<u8>, MetricValue>,
    line: Seq<u8>,
) -> Map<Seq<u8>, MetricValue> {
    if line_skipped(line) {
        m
    } else {
        match line_value(line) {
            Some(d) => m.insert(line_name(line), MetricValue::Num(d)),
            None => m,
        }
    }
}

/// Every line is either skipped or carries a well-formed value.
pub open spec fn telemetry_ok(lines: Seq<Seq<u8>>) -> bool
    decreases lines.len(),
{
    if lines.len() == 0 {
        true
    } else {
        (line_skipped(lines[0]) || line_value(lines[0]) is Some) && telemetry_ok(
            lines.drop_first(),
        )
    }
}

/// The metrics mapping after all lines, first to last, later lines winning.
pub open spec fn telemetry_fold(
    m: Map<Seq<u8>, MetricValue>,
    lines: Seq<Seq<u8>>,
) -> Map<Seq<u8>, MetricValue>
    decreases lines.len(),
{
    if lines.len() == 0 {
        m
    } else {
        telemetry_fold(line_insert(m, lines[0]), lines.drop_first())
    }
}

/// Apply one telemetry line to the metrics; `false` means a malformed value.
fn apply_line(metrics: &mut Metrics, line: &[u8]) -> (r: bool)
    requires
        old(metrics).wf(),
    ensures
        final(metrics).wf(),
        r == (line_skipped(line@) || line_value(line@) is Some),
        r ==> final(metrics).as_map() == line_insert(old(metrics).as_map(), line@),
{
    let mut hi = line.len();
    if hi > 0 && line[hi - 1] == 13 {
        hi -= 1;
    }
    let ghost l = strip_cr(line@);
    proof {
        assert(l =~= line@.subrange(0, hi as int));
    }
    let p: usize = match find_byte_range(line, 0, hi, 124) {
        Some(q) => q,
        None => hi,
    };
    let ghost head: Seq<u8> = if find_byte(l, 124u8) == -1 {
        l
    } else {
        l.subrange(0, find_byte(l, 124u8))
    };
    proof {
        assert(head =~= line@.subrange(0, p as int));
    }
    let c1: usize = match find_byte_range(line, 0, p, 58) {
        Some(c) => c,
        None => {
            proof {
                assert(find_byte(head, 58u8) == -1) by {
                    assert(head =~= line@.subrange(0, p as int));
                }
                assert(line_fields(line@).len() == 1);
            }
            return true;
        },
    };
    proof {
        assert(find_byte(head, 58u8) == c1);
        assert(line_fields(line@) == seq![head.subrange(0, c1 as int)] + split_on(
            head.subrange(c1 + 1, head.len() as int),
            58u8,
        ));
        assert(line_fields(line@).len() >= 2);
        assert(line_name(line@) == head.subrange(0, c1 as int));
        assert(line_name(line@) =~= line@.subrange(0, c1 as int));
    }
    let ghost tail = head.subrange(c1 + 1, head.len() as int);
    proof {
        assert(tail =~= line@.subrange(c1 + 1, p as int));
    }
    let vend: usize = match find_byte_range(line, c1 + 1, p, 58) {
        Some(c2) => c2,
        None => p,
    };
    proof {
        let ft = find_byte(tail, 58u8);
        if ft == -1 {
            assert(split_on(tail, 58u8) == seq![tail]);
            assert(line_fields(line@)[1] == tail);
        } else {
            assert(ft == vend - (c1 + 1));
            assert(split_on(tail, 58u8)[0] == tail.subrange(0, ft));
            assert(line_fields(line@)[1] == tail.subrange(0, ft));
        }
        assert(line_fields(line@)[1] =~= line@.subrange(c1 + 1, vend as int));
    }
    let value_bytes = range_vec(line, c1 + 1, vend);
    match parse_decimal(value_bytes.as_slice()) {
        Some(d) => {
            let name = range_vec(line, 0, c1);
            proof {
                assert(line_value(line@) == Some(d));
                assert(name@ == line_name(line@));
            }
            metrics.insert(name, MetricValue::Num(d));
            true
        },
        None => {
            proof {
                assert(line_value(line@) is None);
                assert(!line_skipped(line@));
            }
            false
        },
    }
}

/// Parse a whole telemetry buffer into the metrics, line by line, exactly
/// per `telemetry_fold`; a malformed value fails the whole measurement.
pub fn apply_telemetry(metrics: &mut Metrics, data: &[u8]) -> (r: Result<(), HarnessError>)
    requires
        old(metrics).wf(),
    ensures
        final(metrics).wf(),
        (r is Ok) == telemetry_ok(split_on(data@, 10u8)),
        r is Ok ==> final(metrics).as_map() == telemetry_fold(
            old(metrics).as_map(),
            split_on(data@, 10u8),
        ),
        r is Err ==> r == Err::<(), HarnessError>(HarnessError::MalformedTelemetry),
{
    let ghost m0 = metrics.as_map();
    let ghost all = split_on(data@, 10u8);
    let len = data.len();
    let mut li: usize = 0;
    proof {
        assert(data@.subrange(0, len as int) =~= data@);
    }
    loop
        invariant
            metrics.wf(),
            li <= len,
            len == data@.len(),
            m0 == old(metrics).as_map(),
            all == split_on(data@, 10u8),
            telemetry_ok(all) == telemetry_ok(split_on(data@.subrange(li as int, len as int), 10u8)),
            telemetry_fold(m0, all) == telemetry_fold(
                metrics.as_map(),
                split_on(data@.subrange(li as int, len as int), 10u8),
            ),
        decreases len - li,
    {
        let ghost suffix = data@.subrange(li as int, len as int);
        let ghost mcur = metrics.as_map();
        match find_byte_range(data, li, len, 10) {
            Some(p) => {
                let line = range_vec(data, li, p);
                let ghost rest = data@.subrange(p + 1, len as int);
                proof {
                    assert(find_byte(suffix, 10u8) == p - li);
                    assert(suffix.subrange(0, p - li) =~= line@);
                    assert(suffix.subrange(p - li + 1, suffix.len() as int) =~= rest);
                    assert(split_on(suffix, 10u8) == seq![line@] + split_on(rest, 10u8));
                    assert((seq![line@] + split_on(rest, 10u8)).drop_first() =~= split_on(
                        rest,
                        10u8,
                    ));
                }
                let ok = apply_line(metrics, line.as_slice());
                if !ok {
                    proof {
                        assert(!telemetry_ok(split_on(suffix, 10u8)));
                    }
                    return Err(HarnessError::MalformedTelemetry);
                }
                proof {
                    assert(telemetry_ok(split_on(suffix, 10u8)) == telemetry_ok(
                        split_on(rest, 10u8),
                    ));
                    assert(metrics.as_map() == line_insert(mcur, line@));
                    assert(telemetry_fold(mcur, split_on(suffix, 10u8)) == telemetry_fold(
                        metrics.as_map(),
                        split_on(rest, 10u8),
                    ));
                }
                li = p + 1;
            },
            None => {
                let line = range_vec(data, li, len);
                proof {
                    assert(find_byte(suffix, 10u8) == -1);
                    assert(suffix =~= line@);
                    assert(split_on(suffix, 10u8) == seq![line@]);
                    assert(seq![line@].drop_first() =~= Seq::<Seq<u8>>::empty());
                }
                let ok = apply_line(metrics, line.as_slice());
                if !ok {
                    proof {
                        assert(!telemetry_ok(split_on(suffix, 10u8)));
                    }
                    return Err(HarnessError::MalformedTelemetry);
                }
                proof {
                    assert(telemetry_ok(Seq::<Seq<u8>>::empty()));
                    assert(telemetry_ok(split_on(suffix, 10u8)));
                    assert(metrics.as_map() == line_insert(mcur, line@));
                    assert(telemetry_fold(line_insert(mcur, line@), Seq::<Seq<u8>>::empty())
                        == line_insert(mcur, line@));
                    assert(telemetry_fold(mcur, split_on(suffix, 10u8)) == metrics.as_map());
                    assert(metrics.as_map() == telemetry_fold(m0, all));
                }
                return Ok(());
            },
        }
    }
}

} // verus!
