//! Exact decimal numbers. A metric value on the wire and in the report is a
//! decimal numeral; the library keeps it as an integer mantissa and a scale
//! (the count of fraction digits), so `mantissa / 10^scale` is the number.
//! `parse_decimal` reads the numeral grammar `[+-] digits [. digits]` and
//! `fmt_decimal` prints it back; printing then parsing returns the value
//! unchanged (`lemma_parse_fmt_decimal`).

use vstd::prelude::*;

use crate::bytes::{find_byte, lemma_find_byte_at, lemma_find_byte_none};
use crate::bytes::find_byte_from;

verus! {

/// A decimal number with value `mantissa / 10^scale`.
#[derive(Clone, Copy, Debug, PartialEq, Eq, Structural)]
pub struct Decimal {
    pub mantissa: i64,
    pub scale: u32,
}

impl Decimal {
    /// The integer `n`, as a decimal with no fraction digits.
    pub fn whole(n: i64) -> (d: Decimal)
        ensures
            d == (Decimal { mantissa: n, scale: 0u32 }),
    {
        Decimal { mantissa: n, scale: 0 }
    }
}

pub open spec fn is_digit(b: u8) -> bool {
    48 <= b <= 57
}

pub open spec fn all_digits(s: Seq<u8>) -> bool {
    forall|i: int| 0 <= i < s.len() ==> is_digit(#[trigger] s[i])
}

/// The value of a digit string, most significant digit first.
pub open spec fn digits_val(s: Seq<u8>) -> int
    decreases s.len(),
{
    if s.len() == 0 {
        0
    } else {
        digits_val(s.drop_last()) * 10 + (s.last() - 48)
    }
}

/// The numeral grammar: an optional sign, then digits with at most one dot,
/// with at least one digit on each side of the dot; the digits must fit the
/// mantissa. Anything else is not a number.
pub open spec fn parse_dec(s: Seq<u8>) -> Option<Decimal> {
    let neg = s.len() > 0 && s[0] == 45u8;
    let body = if s.len() > 0 && (s[0] == 45u8 || s[0] == 43u8) {
        s.drop_first()
    } else {
        s
    };
    let dot = find_byte(body, 46u8);
    let digits = if dot == -1 {
        body
    } else {
        body.subrange(0, dot) + body.subrange(dot + 1, body.len() as int)
    };
    let scale = if dot == -1 {
        0int
    } else {
        body.len() - dot - 1
    };
    let mag = digits_val(digits);
    if digits.len() == 0 || !all_digits(digits) {
        None
    } else if dot == 0 || (dot != -1 && dot == body.len() - 1) {
        None
    } else if scale > u32::MAX {
        None
    } else if neg && mag > -(i64::MIN as int) {
        None
    } else if !neg && mag > i64::MAX {
        None
    } else {
        Some(Decimal { mantissa: (if neg { -mag } else { mag }) as i64, scale: scale as u32 })
    }
}

pub proof fn lemma_digits_val_push(s: Seq<u8>, b: u8)
    ensures
        digits_val(s.push(b)) == digits_val(s) * 10 + (b - 48),
{
    assert(s.push(b).drop_last() =~= s);
    assert(s.push(b).last() == b);
}

/// Parse a byte string as a decimal numeral, exactly per `parse_dec`.
pub fn parse_decimal(s: &[u8]) -> (r: Option<Decimal>)
    ensures
        r == parse_dec(s@),
{
    let len = s.len();
    let mut start: usize = 0;
    let mut neg = false;
    if len > 0 && (s[0] == 45 || s[0] == 43) {
        start = 1;
        neg = s[0] == 45;
    }
    let ghost body: Seq<u8> = if s@.len() > 0 && (s@[0] == 45u8 || s@[0] == 43u8) {
        s@.drop_first()
    } else {
        s@
    };
    proof {
        assert(body =~= s@.subrange(start as int, len as int));
    }
    if len == start {
        proof {
            assert(find_byte(body, 46u8) == -1);
        }
        return None;
    }
    let dot_opt = find_byte_from(s, start, 46);
    let ghost dot: int = match dot_opt {
        Some(p) => p - start,
        None => -1,
    };
    proof {
        assert(find_byte(body, 46u8) == dot);
    }
    if let Some(p) = dot_opt {
        if p == start {
            return None;
        }
        if p == len - 1 {
            return None;
        }
    }
    let ghost digits: Seq<u8> = if dot == -1 {
        body
    } else {
        body.subrange(0, dot) + body.subrange(dot + 1, body.len() as int)
    };
    let dot_pos: usize = match dot_opt {
        Some(p) => p,
        None => len,
    };
    proof {
        if dot != -1 {
            assert(digits.len() == body.len() - 1);
        }
    }

    let mut mag: u128 = 0;
    let mut over = false;
    let mut k: usize = start;
    while k < len
        invariant
            start <= k <= len,
            len == s@.len(),
            start <= 1,
            neg == (s@.len() > 0 && s@[0] == 45u8),
            (start == 1) == (s@.len() > 0 && (s@[0] == 45u8 || s@[0] == 43u8)),
            body == (if s@.len() > 0 && (s@[0] == 45u8 || s@[0] == 43u8) {
                s@.drop_first()
            } else {
                s@
            }),
            body == s@.subrange(start as int, len as int),
            find_byte(body, 46u8) == dot,
            dot == -1 ==> dot_pos == len && digits == body,
            dot != -1 ==> {
                &&& dot_pos < len
                &&& dot == dot_pos - start
                &&& 0 < dot < body.len() - 1
                &&& digits == body.subrange(0, dot) + body.subrange(dot + 1, body.len() as int)
            },
            forall|j: int| start <= j < k && j != dot_pos ==> is_digit(#[trigger] s@[j]),
            !over ==> mag == digits_val(digits.subrange(0, digit_count(k as int, start as int, dot_pos as int)))
                && mag <= 0x8000000000000000u128,
            over ==> digits_val(digits.subrange(0, digit_count(k as int, start as int, dot_pos as int)))
                > 0x8000000000000000,
        decreases len - k,
    {
        let ghost dc = digit_count(k as int, start as int, dot_pos as int);
        if k == dot_pos {
            proof {
                assert(digit_count(k + 1, start as int, dot_pos as int) == dc);
            }
            k += 1;
            continue;
        }
        let b = s[k];
        proof {
            assert(0 <= dc < digits.len()) by {
                if dot != -1 {
                    if k < dot_pos {
                        assert(dc == k - start);
                    } else {
                        assert(dc == k - start - 1);
                    }
                }
            }
            assert(digits[dc] == s@[k as int]) by {
                if dot == -1 {
                    assert(digits[dc] == body[k - start]);
                } else if k < dot_pos {
                    assert(digits[dc] == body.subrange(0, dot)[dc]);
                } else {
                    assert(dc - dot >= 0);
                    assert(digits[dc] == body.subrange(dot + 1, body.len() as int)[dc - dot]);
                }
            }
        }
        if b < 48 || b > 57 {
            proof {
                assert(!is_digit(digits[dc]));
                assert(!all_digits(digits));
            }
            return None;
        }
        proof {
            assert(digits.subrange(0, dc + 1) =~= digits.subrange(0, dc).push(digits[dc]));
            lemma_digits_val_push(digits.subrange(0, dc), b);
            assert(digit_count(k + 1, start as int, dot_pos as int) == dc + 1);
        }
        if !over {
            let next: u128 = mag * 10 + ((b - 48) as u128);
            if next > 0x8000000000000000 {
                over = true;
            } else {
                mag = next;
            }
        } else {
            proof {
                let old_val = digits_val(digits.subrange(0, dc));
                assert(digits_val(digits.subrange(0, dc + 1)) == old_val * 10 + (b - 48));
                assert(old_val * 10 > 0x8000000000000000) by {
                    assert(old_val > 0x8000000000000000);
                }
            }
        }
        k += 1;
    }
    let ghost dc_end = digit_count(len as int, start as int, dot_pos as int);
    proof {
        assert(dc_end == digits.len());
        assert(digits.subrange(0, digits.len() as int) =~= digits);
        assert(all_digits(digits)) by {
            assert forall|i: int| 0 <= i < digits.len() implies is_digit(#[trigger] digits[i]) by {
                if dot == -1 {
                    assert(digits[i] == s@[start + i]);
                } else if i < dot {
                    assert(digits[i] == body.subrange(0, dot)[i]);
                    assert(digits[i] == s@[start + i]);
                } else {
                    assert(digits[i] == body.subrange(dot + 1, body.len() as int)[i - dot]);
                    assert(digits[i] == s@[start + i + 1]);
                }
            }
        }
        assert(digits.len() > 0);
    }
    if over {
        proof {
            assert(digits_val(digits) > 0x8000000000000000);
        }
        return None;
    }
    let scale: u32 = if dot_pos == len {
        0
    } else {
        let sc = len - dot_pos - 1;
        if sc > 0xffffffff {
            return None;
        }
        sc as u32
    };
    proof {
        if dot != -1 {
            assert(body.len() - dot - 1 == len - dot_pos - 1);
        }
    }
    if neg {
        let m: i128 = -(mag as i128);
        proof {
            assert(i64::MIN <= m <= 0);
        }
        Some(Decimal { mantissa: m as i64, scale })
    } else {
        if mag > 0x7fffffffffffffff {
            return None;
        }
        Some(Decimal { mantissa: mag as i64, scale })
    }
}

/// How many digit positions lie in `[start, k)` once the dot is skipped.
pub open spec fn digit_count(k: int, start: int, dot_pos: int) -> int {
    if k <= dot_pos {
        k - start
    } else {
        k - start - 1
    }
}

pub open spec fn rev_seq(s: Seq<u8>) -> Seq<u8> {
    Seq::new(s.len(), |i: int| s[s.len() - 1 - i])
}

/// The decimal digits of `n`, least significant first.
pub open spec fn u64_digits_rev(n: nat) -> Seq<u8>
    decreases n,
{
    if n < 10 {
        seq![(48 + n) as u8]
    } else {
        seq![(48 + n % 10) as u8] + u64_digits_rev(n / 10)
    }
}

/// The canonical decimal digits of `n`, most significant first.
pub open spec fn dec_digits(n: nat) -> Seq<u8> {
    rev_seq(u64_digits_rev(n))
}

pub open spec fn zero_digits(n: nat) -> Seq<u8> {
    Seq::new(n, |i: int| 48u8)
}

pub open spec fn abs_mantissa(d: Decimal) -> nat {
    if d.mantissa < 0 {
        (-(d.mantissa as int)) as nat
    } else {
        d.mantissa as nat
    }
}

/// The canonical text of a decimal: sign, integer digits, and, when the
/// scale is positive, a dot followed by exactly `scale` fraction digits.
pub open spec fn dec_text(d: Decimal) -> Seq<u8> {
    let ds = dec_digits(abs_mantissa(d));
    let padded = if ds.len() > d.scale {
        ds
    } else {
        zero_digits((d.scale + 1 - ds.len()) as nat) + ds
    };
    let body = if d.scale == 0 {
        padded
    } else {
        padded.subrange(0, padded.len() - d.scale) + seq![46u8] + padded.subrange(
            padded.len() - d.scale,
            padded.len() as int,
        )
    };
    if d.mantissa < 0 {
        seq![45u8] + body
    } else {
        body
    }
}

proof fn lemma_rev_concat(a: Seq<u8>, b: Seq<u8>)
    ensures
        rev_seq(a + b) =~= rev_seq(b) + rev_seq(a),
{
    assert forall|i: int| 0 <= i < a.len() + b.len() implies rev_seq(a + b)[i] == (rev_seq(b)
        + rev_seq(a))[i] by {
        assert(rev_seq(a + b)[i] == (a + b)[a.len() + b.len() - 1 - i]);
    }
}

/// The canonical digits of `n` are digits, at least one, and read back as `n`.
pub proof fn lemma_dec_digits_val(n: nat)
    ensures
        dec_digits(n).len() >= 1,
        all_digits(dec_digits(n)),
        digits_val(dec_digits(n)) == n,
    decreases n,
{
    if n < 10 {
        let s = dec_digits(n);
        assert(s =~= seq![(48 + n) as u8]);
        assert(s.drop_last() =~= Seq::<u8>::empty());
        assert(digits_val(Seq::<u8>::empty()) == 0);
        assert(s.last() == (48 + n) as u8);
        assert(digits_val(s) == (48 + n) - 48);
    } else {
        lemma_dec_digits_val(n / 10);
        let d0 = (48 + n % 10) as u8;
        lemma_rev_concat(seq![d0], u64_digits_rev(n / 10));
        assert(rev_seq(seq![d0]) =~= seq![d0]);
        assert(dec_digits(n) =~= dec_digits(n / 10) + seq![d0]);
        assert(dec_digits(n) =~= dec_digits(n / 10).push(d0));
        lemma_digits_val_push(dec_digits(n / 10), d0);
        assert(digits_val(dec_digits(n)) == (n / 10) * 10 + (n % 10));
        assert(all_digits(dec_digits(n))) by {
            assert forall|i: int| 0 <= i < dec_digits(n).len() implies is_digit(
                #[trigger] dec_digits(n)[i],
            ) by {
                if i < dec_digits(n / 10).len() {
                    assert(dec_digits(n)[i] == dec_digits(n / 10)[i]);
                }
            }
        }
    }
}

proof fn lemma_zeros_prefix_val(k: nat, t: Seq<u8>)
    ensures
        digits_val(zero_digits(k) + t) == digits_val(t),
    decreases t.len(),
{
    if t.len() == 0 {
        assert(zero_digits(k) + t =~= zero_digits(k));
        lemma_zeros_val(k);
    } else {
        assert((zero_digits(k) + t).drop_last() =~= zero_digits(k) + t.drop_last());
        assert((zero_digits(k) + t).last() == t.last());
        lemma_zeros_prefix_val(k, t.drop_last());
    }
}

proof fn lemma_zeros_val(k: nat)
    ensures
        digits_val(zero_digits(k)) == 0,
    decreases k,
{
    if k > 0 {
        assert(zero_digits(k).drop_last() =~= zero_digits((k - 1) as nat));
        assert(zero_digits(k).last() == 48u8);
        lemma_zeros_val((k - 1) as nat);
    }
}

/// A digit string's value is never negative.
pub proof fn lemma_digits_val_nonneg(s: Seq<u8>)
    requires
        all_digits(s),
    ensures
        digits_val(s) >= 0,
    decreases s.len(),
{
    if s.len() > 0 {
        assert(all_digits(s.drop_last())) by {
            assert forall|i: int| 0 <= i < s.drop_last().len() implies is_digit(
                #[trigger] s.drop_last()[i],
            ) by {
                assert(s.drop_last()[i] == s[i]);
            }
        }
        lemma_digits_val_nonneg(s.drop_last());
        assert(is_digit(s.last()));
    }
}

/// Every byte of a printed decimal is a sign, a dot, or a digit.
pub proof fn lemma_dec_text_bytes(d: Decimal)
    ensures
        forall|i: int|
            0 <= i < dec_text(d).len() ==> (dec_text(d)[i] == 45u8 || dec_text(d)[i] == 46u8
                || is_digit(#[trigger] dec_text(d)[i])),
{
    let mag = abs_mantissa(d);
    let ds = dec_digits(mag);
    lemma_dec_digits_val(mag);
    let padded: Seq<u8> = if ds.len() > d.scale {
        ds
    } else {
        zero_digits((d.scale + 1 - ds.len()) as nat) + ds
    };
    assert(all_digits(padded)) by {
        if ds.len() <= d.scale {
            let k = (d.scale + 1 - ds.len()) as nat;
            assert forall|i: int| 0 <= i < padded.len() implies is_digit(#[trigger] padded[i]) by {
                if i >= k {
                    assert(padded[i] == ds[i - k]);
                }
            }
        }
    }
    let body: Seq<u8> = if d.scale == 0 {
        padded
    } else {
        padded.subrange(0, padded.len() - d.scale) + seq![46u8] + padded.subrange(
            padded.len() - d.scale,
            padded.len() as int,
        )
    };
    assert forall|i: int|
        0 <= i < body.len() implies (body[i] == 46u8 || is_digit(#[trigger] body[i])) by {
        if d.scale != 0 {
            let cut = padded.len() - d.scale;
            if i < cut {
                assert(body[i] == padded.subrange(0, cut as int)[i]);
                assert(body[i] == padded[i]);
            } else if i > cut {
                assert(body[i] == padded.subrange(cut as int, padded.len() as int)[i - cut - 1]);
                assert(body[i] == padded[i - 1]);
            }
        }
    }
    assert forall|i: int|
        0 <= i < dec_text(d).len() implies (dec_text(d)[i] == 45u8 || dec_text(d)[i] == 46u8
        || is_digit(#[trigger] dec_text(d)[i])) by {
        if d.mantissa < 0 {
            assert(dec_text(d) == seq![45u8] + body);
            if i > 0 {
                assert(dec_text(d)[i] == body[i - 1]);
            }
        } else {
            assert(dec_text(d) == body);
        }
    }
}

/// Printing a decimal and parsing the text gives the decimal back.
pub proof fn lemma_parse_fmt_decimal(d: Decimal)
    ensures
        parse_dec(dec_text(d)) == Some(d),
{
    let mag = abs_mantissa(d);
    let ds = dec_digits(mag);
    lemma_dec_digits_val(mag);
    let padded: Seq<u8> = if ds.len() > d.scale {
        ds
    } else {
        zero_digits((d.scale + 1 - ds.len()) as nat) + ds
    };
    assert(digits_val(padded) == mag && all_digits(padded) && padded.len() > d.scale) by {
        if ds.len() <= d.scale {
            let k = (d.scale + 1 - ds.len()) as nat;
            lemma_zeros_prefix_val(k, ds);
            assert forall|i: int| 0 <= i < padded.len() implies is_digit(#[trigger] padded[i]) by {
                if i >= k {
                    assert(padded[i] == ds[i - k]);
                }
            }
        }
    }
    let body: Seq<u8> = if d.scale == 0 {
        padded
    } else {
        padded.subrange(0, padded.len() - d.scale) + seq![46u8] + padded.subrange(
            padded.len() - d.scale,
            padded.len() as int,
        )
    };
    let s = dec_text(d);
    let neg = d.mantissa < 0;
    assert(body.len() > 0);
    assert(body[0] == padded[0]) by {
        if d.scale != 0 {
            let cut = padded.len() - d.scale;
            assert(body[0] == padded.subrange(0, cut)[0]);
        }
    }
    assert(is_digit(body[0]));
    if neg {
        assert(s == seq![45u8] + body);
        assert(s[0] == 45u8);
        assert(s.drop_first() =~= body);
    } else {
        assert(s == body);
        assert(s[0] != 45u8 && s[0] != 43u8);
    }
    // In both cases the spec's sign-stripped body is exactly `body`.
    if d.scale == 0 {
        lemma_find_byte_none(body, 46u8);
        assert(digits_val(body) == mag);
        if neg {
            assert(mag <= -(i64::MIN as int));
            assert((if true { -(mag as int) } else { mag as int }) as i64 == d.mantissa);
        } else {
            assert(mag <= i64::MAX);
        }
        assert(parse_dec(s) == Some(d));
    } else {
        let cut = padded.len() - d.scale;
        let a = padded.subrange(0, cut as int);
        let b2 = padded.subrange(cut as int, padded.len() as int);
        assert(0 < cut < body.len() - 1);
        assert(body[cut as int] == 46u8) by {
            assert(body[cut as int] == (a + seq![46u8])[cut as int]);
        }
        assert forall|i: int| 0 <= i < cut implies body[i] != 46u8 by {
            assert(body[i] == a[i]);
            assert(is_digit(padded[i]));
        }
        lemma_find_byte_at(body, 46u8, cut as int);
        let digits = body.subrange(0, cut as int) + body.subrange(cut + 1, body.len() as int);
        assert(body.subrange(0, cut as int) =~= a);
        assert(body.subrange(cut + 1, body.len() as int) =~= b2);
        assert(digits =~= a + b2);
        assert(a + b2 =~= padded);
        assert(digits_val(digits) == mag);
        assert(all_digits(digits));
        assert(body.len() - cut - 1 == d.scale);
        if neg {
            assert(mag <= -(i64::MIN as int));
        } else {
            assert(mag <= i64::MAX);
        }
        assert(parse_dec(s) == Some(d));
    }
}

/// Print `n` as canonical decimal digits.
pub fn fmt_u64(n: u64) -> (v: Vec<u8>)
    ensures
        v@ == dec_digits(n as nat),
{
    let mut rev: Vec<u8> = Vec::new();
    let mut m: u64 = n;
    while m >= 10
        invariant
            u64_digits_rev(n as nat) == rev@ + u64_digits_rev(m as nat),
        decreases m,
    {
        let d = (m % 10) as u8;
        proof {
            assert(u64_digits_rev(m as nat) == seq![(48 + (m as nat) % 10) as u8]
                + u64_digits_rev((m as nat) / 10));
            assert(rev@.push((48 + (m as nat) % 10) as u8) + u64_digits_rev((m as nat) / 10)
                =~= rev@ + u64_digits_rev(m as nat));
        }
        rev.push(48 + d);
        m = m / 10;
    }
    proof {
        assert(u64_digits_rev(m as nat) == seq![(48 + (m as nat)) as u8]);
        assert(rev@.push((48 + (m as nat)) as u8) =~= rev@ + u64_digits_rev(m as nat));
    }
    rev.push(48 + (m as u8));
    let ghost full = rev@;
    let mut out: Vec<u8> = Vec::new();
    let mut j: usize = rev.len();
    while j > 0
        invariant
            j <= full.len(),
            full == rev@,
            out@ =~= Seq::new((full.len() - j) as nat, |i: int| full[full.len() - 1 - i]),
        decreases j,
    {
        j -= 1;
        out.push(rev[j]);
        proof {
            assert(out@ =~= Seq::new((full.len() - j) as nat, |i: int| full[full.len() - 1 - i]));
        }
    }
    proof {
        assert(out@ =~= rev_seq(full));
        assert(full == u64_digits_rev(n as nat));
    }
    out
}

/// Print a decimal exactly per `dec_text`.
pub fn fmt_decimal(d: Decimal) -> (v: Vec<u8>)
    ensures
        v@ == dec_text(d),
{
    let mag: u64 = if d.mantissa < 0 {
        proof {
            assert(0 <= -(d.mantissa as i128) <= u64::MAX);
        }
        (-(d.mantissa as i128)) as u64
    } else {
        d.mantissa as u64
    };
    proof {
        assert(mag as nat == abs_mantissa(d));
    }
    let ds = fmt_u64(mag);
    let scale = d.scale as usize;
    let mut padded: Vec<u8>;
    if ds.len() > scale {
        padded = ds;
    } else {
        let ghost zn = (d.scale + 1 - ds@.len()) as nat;
        padded = Vec::new();
        let total = scale - (ds.len() - 1);
        let mut z: usize = 0;
        while z < total
            invariant
                z <= total,
                total == zn,
                padded@ =~= zero_digits(z as nat),
            decreases total - z,
        {
            padded.push(48);
            proof {
                assert(padded@ =~= zero_digits((z + 1) as nat));
            }
            z += 1;
        }
        let ghost zpart = padded@;
        let mut t: usize = 0;
        while t < ds.len()
            invariant
                t <= ds@.len(),
                zpart == zero_digits(zn),
                padded@ =~= zpart + ds@.subrange(0, t as int),
            decreases ds@.len() - t,
        {
            padded.push(ds[t]);
            proof {
                assert(padded@ =~= zpart + ds@.subrange(0, t + 1));
            }
            t += 1;
        }
        proof {
            assert(ds@.subrange(0, ds@.len() as int) =~= ds@);
            assert(padded@ =~= zero_digits(zn) + ds@);
        }
    }
    let ghost pad = padded@;
    let mut out: Vec<u8> = Vec::new();
    if d.mantissa < 0 {
        out.push(45);
    }
    let ghost sign = out@;
    if d.scale == 0 {
        let mut t: usize = 0;
        while t < padded.len()
            invariant
                t <= pad.len(),
                pad == padded@,
                out@ =~= sign + pad.subrange(0, t as int),
            decreases pad.len() - t,
        {
            out.push(padded[t]);
            proof {
                assert(out@ =~= sign + pad.subrange(0, t + 1));
            }
            t += 1;
        }
        proof {
            assert(pad.subrange(0, pad.len() as int) =~= pad);
            if d.mantissa < 0 {
                assert(out@ =~= seq![45u8] + pad);
            }
        }
        out
    } else {
        let cut = padded.len() - scale;
        proof {
            assert(pad.len() > d.scale);
        }
        let mut t: usize = 0;
        while t < cut
            invariant
                t <= cut <= pad.len(),
                pad == padded@,
                cut == pad.len() - d.scale,
                out@ =~= sign + pad.subrange(0, t as int),
            decreases cut - t,
        {
            out.push(padded[t]);
            proof {
                assert(out@ =~= sign + pad.subrange(0, t + 1));
            }
            t += 1;
        }
        out.push(46);
        let ghost head = out@;
        proof {
            assert(head =~= sign + pad.subrange(0, cut as int) + seq![46u8]);
        }
        let mut t2: usize = cut;
        while t2 < padded.len()
            invariant
                cut <= t2 <= pad.len(),
                pad == padded@,
                cut == pad.len() - d.scale,
                head == sign + pad.subrange(0, cut as int) + seq![46u8],
                out@ =~= head + pad.subrange(cut as int, t2 as int),
            decreases pad.len() - t2,
        {
            out.push(padded[t2]);
            proof {
                assert(out@ =~= head + pad.subrange(cut as int, t2 + 1));
            }
            t2 += 1;
        }
        proof {
            let body = pad.subrange(0, cut as int) + seq![46u8] + pad.subrange(
                cut as int,
                pad.len() as int,
            );
            assert(out@ =~= sign + body);
            if d.mantissa < 0 {
                assert(out@ =~= seq![45u8] + body);
            } else {
                assert(out@ =~= body);
            }
        }
        out
    }
}

} // verus!
