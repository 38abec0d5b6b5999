//! JSON emission: the one serialization of the metrics model, written once
//! a top-level run is complete. One rule per variant of the closed sum type:
//! text becomes an escaped string, a number its decimal numeral, and the
//! iteration records an array of objects; an object lists its entries in
//! insertion order.

use vstd::prelude::*;

use crate::metrics::{MetricValue, Metrics};
use crate::num::{dec_text, fmt_decimal};

verus! {

/// A hexadecimal digit, lower case.
pub open spec fn hex_digit(n: u8) -> u8 {
    if n < 10 {
        (48 + n) as u8
    } else {
        (87 + n) as u8
    }
}

/// How one byte of a string appears inside a JSON string literal: quote and
/// backslash are escaped, control bytes become `\u00..`, all else stands.
pub open spec fn json_escape_byte(b: u8) -> Seq<u8> {
    if b == 34 {
        seq![92u8, 34u8]
    } else if b == 92 {
        seq![92u8, 92u8]
    } else if b < 32 {
        seq![92u8, 117u8, 48u8, 48u8, hex_digit(b / 16), hex_digit(b % 16)]
    } else {
        seq![b]
    }
}

pub open spec fn json_escape(s: Seq<u8>) -> Seq<u8>
    decreases s.len(),
{
    if s.len() == 0 {
        Seq::empty()
    } else {
        json_escape_byte(s[0]) + json_escape(s.drop_first())
    }
}

/// The text of one metric value.
pub open spec fn json_of_value(v: MetricValue) -> Seq<u8>
    decreases v, 0int,
{
    match v {
        MetricValue::Text(s) => seq![34u8] + json_escape(s@) + seq![34u8],
        MetricValue::Num(d) => dec_text(d),
        MetricValue::Arr(ms) => seq![91u8] + json_of_records(ms@, 0) + seq![93u8],
    }
}

/// The comma-separated records from index `i` on.
pub open spec fn json_of_records(ms: Seq<Metrics>, i: int) -> Seq<u8>
    decreases ms, ms.len() - i,
{
    if i < 0 || i >= ms.len() {
        Seq::empty()
    } else if i + 1 < ms.len() {
        json_of_metrics(ms[i]) + seq![44u8] + json_of_records(ms, i + 1)
    } else {
        json_of_metrics(ms[i])
    }
}

/// The text of one metrics object.
pub open spec fn json_of_metrics(m: Metrics) -> Seq<u8>
    decreases m, 0int,
{
    seq![123u8] + json_of_entries(m.entries@, 0) + seq![125u8]
}

/// The comma-separated `"name":value` entries from index `i` on.
pub open spec fn json_of_entries(es: Seq<(Vec<u8>, MetricValue)>, i: int) -> Seq<u8>
    decreases es, es.len() - i,
{
    if i < 0 || i >= es.len() {
        Seq::empty()
    } else if i + 1 < es.len() {
        json_of_entry(es[i]) + seq![44u8] + json_of_entries(es, i + 1)
    } else {
        json_of_entry(es[i])
    }
}

pub open spec fn json_of_entry(e: (Vec<u8>, MetricValue)) -> Seq<u8>
    decreases e, 0int,
{
    seq![34u8] + json_escape(e.0@) + seq![34u8, 58u8] + json_of_value(e.1)
}

fn hex_digit_exec(n: u8) -> (r: u8)
    requires
        n < 16,
    ensures
        r == hex_digit(n),
{
    if n < 10 {
        48 + n
    } else {
        87 + n
    }
}

proof fn lemma_json_escape_concat(a: Seq<u8>, b: Seq<u8>)
    ensures
        json_escape(a + b) == json_escape(a) + json_escape(b),
    decreases a.len(),
{
    if a.len() == 0 {
        assert(a + b =~= b);
        assert(json_escape(a) + json_escape(b) =~= json_escape(b));
    } else {
        assert((a + b).drop_first() =~= a.drop_first() + b);
        assert((a + b)[0] == a[0]);
        lemma_json_escape_concat(a.drop_first(), b);
        assert(json_escape_byte(a[0]) + (json_escape(a.drop_first()) + json_escape(b))
            =~= (json_escape_byte(a[0]) + json_escape(a.drop_first())) + json_escape(b));
    }
}

/// Append the escaped form of `s`.
fn append_escaped(out: &mut Vec<u8>, s: &[u8])
    ensures
        final(out)@ == old(out)@ + json_escape(s@),
{
    let ghost pre = out@;
    let mut i: usize = 0;
    while i < s.len()
        invariant
            i <= s@.len(),
            out@ == pre + json_escape(s@.subrange(0, i as int)),
        decreases s@.len() - i,
    {
        let b = s[i];
        proof {
            let done = s@.subrange(0, i as int);
            assert(s@.subrange(0, i + 1) =~= done + seq![b]);
            lemma_json_escape_concat(done, seq![b]);
            assert(seq![b].drop_first() =~= Seq::<u8>::empty());
            assert(json_escape(Seq::<u8>::empty()) == Seq::<u8>::empty());
            assert(json_escape(seq![b]) =~= json_escape_byte(b));
        }
        if b == 34 {
            out.push(92);
            out.push(34);
        } else if b == 92 {
            out.push(92);
            out.push(92);
        } else if b < 32 {
            out.push(92);
            out.push(117);
            out.push(48);
            out.push(48);
            out.push(hex_digit_exec(b / 16));
            out.push(hex_digit_exec(b % 16));
        } else {
            out.push(b);
        }
        proof {
            assert(out@ =~= pre + json_escape(s@.subrange(0, i + 1)));
        }
        i += 1;
    }
    proof {
        assert(s@.subrange(0, s@.len() as int) =~= s@);
    }
}

/// Append one value's text.
fn append_value(out: &mut Vec<u8>, v: &MetricValue)
    ensures
        final(out)@ == old(out)@ + json_of_value(*v),
    decreases *v, 0int,
{
    let ghost pre = out@;
    match v {
        MetricValue::Text(s) => {
            out.push(34);
            append_escaped(out, s.as_slice());
            out.push(34);
            proof {
                assert(out@ =~= pre + json_of_value(*v));
            }
        },
        MetricValue::Num(d) => {
            let text = fmt_decimal(*d);
            crate::bytes::append_bytes(out, text.as_slice());
        },
        MetricValue::Arr(ms) => {
            out.push(91);
            append_records(out, ms, 0);
            out.push(93);
            proof {
                assert(out@ =~= pre + json_of_value(*v));
            }
        },
    }
}

/// Append the records from index `i` on, comma-separated.
fn append_records(out: &mut Vec<u8>, ms: &Vec<Metrics>, i: usize)
    requires
        i <= ms@.len(),
    ensures
        final(out)@ == old(out)@ + json_of_records(ms@, i as int),
    decreases ms@, ms@.len() - i,
{
    if i < ms.len() {
        append_metrics(out, &ms[i]);
        if i + 1 < ms.len() {
            out.push(44);
            append_records(out, ms, i + 1);
            proof {
                assert(out@ =~= old(out)@ + json_of_records(ms@, i as int));
            }
        }
    }
}

/// Append one metrics object.
pub fn append_metrics(out: &mut Vec<u8>, m: &Metrics)
    ensures
        final(out)@ == old(out)@ + json_of_metrics(*m),
    decreases *m, 0int,
{
    let ghost pre = out@;
    out.push(123);
    append_entries(out, &m.entries, 0);
    out.push(125);
    proof {
        assert(out@ =~= pre + json_of_metrics(*m));
    }
}

/// Append the entries from index `i` on, comma-separated.
fn append_entries(out: &mut Vec<u8>, es: &Vec<(Vec<u8>, MetricValue)>, i: usize)
    requires
        i <= es@.len(),
    ensures
        final(out)@ == old(out)@ + json_of_entries(es@, i as int),
    decreases es@, es@.len() - i,
{
    if i < es.len() {
        let ghost pre = out@;
        out.push(34);
        append_escaped(out, es[i].0.as_slice());
        out.push(34);
        out.push(58);
        append_value(out, &es[i].1);
        proof {
            assert(out@ =~= pre + json_of_entry(es@[i as int]));
        }
        if i + 1 < es.len() {
            out.push(44);
            append_entries(out, es, i + 1);
            proof {
                assert(out@ =~= old(out)@ + json_of_entries(es@, i as int));
            }
        }
    }
}

/// The one JSON document of a top-level run.
pub fn render_json(m: &Metrics) -> (out: Vec<u8>)
    ensures
        out@ == json_of_metrics(*m),
{
    let mut out: Vec<u8> = Vec::new();
    append_metrics(&mut out, m);
    proof {
        assert(out@ =~= json_of_metrics(*m));
    }
    out
}

} // verus!
