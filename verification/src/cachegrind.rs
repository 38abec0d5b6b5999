//! The profiler path: the measured command is wrapped by an
//! instruction-counting tool with fixed cache geometry, and the tool's
//! diagnostic stream is scanned for instruction-reference lines. Each such
//! line's trailing numeric token, thousands separators stripped, is summed
//! over all matches; no match, a bad token, or a zero total is fatal.

use vstd::prelude::*;

use crate::bytes::{bytes_of, copy_bytes, find_byte, str_bytes};
use crate::error::HarnessError;
use crate::num::{all_digits, digits_val, is_digit, lemma_digits_val_nonneg, lemma_digits_val_push};
use crate::statsd::{split_on, strip_cr};

verus! {

/// `hay` holds `needle` as a contiguous run.
pub open spec fn contains_sub(hay: Seq<u8>, needle: Seq<u8>) -> bool {
    exists|i: int|
        0 <= i <= hay.len() - needle.len() && #[trigger] hay.subrange(i, i + needle.len() as int)
            == needle
}

pub open spec fn is_space(b: u8) -> bool {
    b == 32 || (9 <= b <= 13)
}

/// The string with trailing whitespace removed.
pub open spec fn strip_trailing_ws(s: Seq<u8>) -> Seq<u8>
    decreases s.len(),
{
    if s.len() > 0 && is_space(s.last()) {
        strip_trailing_ws(s.drop_last())
    } else {
        s
    }
}

/// The maximal whitespace-free suffix.
pub open spec fn token_suffix(s: Seq<u8>) -> Seq<u8>
    decreases s.len(),
{
    if s.len() == 0 || is_space(s.last()) {
        Seq::empty()
    } else {
        token_suffix(s.drop_last()).push(s.last())
    }
}

/// The last whitespace-separated token of a line.
pub open spec fn last_token(s: Seq<u8>) -> Seq<u8> {
    token_suffix(strip_trailing_ws(s))
}

/// The string with every comma removed.
pub open spec fn strip_commas(s: Seq<u8>) -> Seq<u8>
    decreases s.len(),
{
    if s.len() == 0 {
        Seq::empty()
    } else if s.last() == 44u8 {
        strip_commas(s.drop_last())
    } else {
        strip_commas(s.drop_last()).push(s.last())
    }
}

/// The marker of an instruction-reference line.
pub open spec fn instr_marker() -> Seq<u8> {
    bytes_of("I   refs:"@)
}

pub open spec fn cg_matches(line: Seq<u8>) -> bool {
    contains_sub(strip_cr(line), instr_marker())
}

/// The count a matching line carries: its last token, commas stripped, read
/// as a number; `None` when that is empty, not all digits, or too large.
pub open spec fn cg_count(line: Seq<u8>) -> Option<int> {
    let t = strip_commas(last_token(strip_cr(line)));
    if t.len() == 0 || !all_digits(t) {
        None
    } else if digits_val(t) > u64::MAX {
        None
    } else {
        Some(digits_val(t))
    }
}

/// The instruction total of the diagnostic lines; `None` when any matching
/// line's token is bad.
pub open spec fn cg_sum(lines: Seq<Seq<u8>>) -> Option<int>
    decreases lines.len(),
{
    if lines.len() == 0 {
        Some(0)
    } else {
        let rest = cg_sum(lines.drop_first());
        if !cg_matches(lines[0]) {
            rest
        } else {
            match (cg_count(lines[0]), rest) {
                (Some(v), Some(r)) => Some(v + r),
                _ => None,
            }
        }
    }
}

/// A well-formed, non-zero instruction total that fits the counter.
pub open spec fn cg_ok(lines: Seq<Seq<u8>>) -> bool {
    match cg_sum(lines) {
        Some(v) => 0 < v <= u64::MAX,
        None => false,
    }
}

proof fn lemma_cg_sum_nonneg(lines: Seq<Seq<u8>>)
    ensures
        cg_sum(lines) matches Some(v) ==> v >= 0,
    decreases lines.len(),
{
    if lines.len() > 0 {
        lemma_cg_sum_nonneg(lines.drop_first());
        if cg_matches(lines[0]) {
            if cg_count(lines[0]) is Some {
                let t = strip_commas(last_token(strip_cr(lines[0])));
                lemma_digits_val_nonneg(t);
            }
        }
    }
}

/// Does `hay[lo..hi)` contain `needle`?
fn contains_sub_exec(hay: &[u8], lo: usize, hi: usize, needle: &[u8]) -> (r: bool)
    requires
        lo <= hi <= hay@.len(),
    ensures
        r == contains_sub(hay@.subrange(lo as int, hi as int), needle@),
{
    let ghost h = hay@.subrange(lo as int, hi as int);
    let n = needle.len();
    if n > hi - lo {
        proof {
            assert(!contains_sub(h, needle@));
        }
        return false;
    }
    let mut i: usize = lo;
    while i <= hi - n
        invariant
            lo <= i,
            i <= hi - n + 1,
            n == needle@.len(),
            n <= hi - lo,
            lo <= hi <= hay@.len(),
            h == hay@.subrange(lo as int, hi as int),
            forall|j: int|
                0 <= j < i - lo ==> #[trigger] h.subrange(j, j + needle@.len() as int) != needle@,
        decreases hi - i,
    {
        let mut k: usize = 0;
        let mut hit = true;
        while k < n
            invariant
                i + n <= hi <= hay@.len(),
                n == needle@.len(),
                k <= n,
                lo <= i,
                h == hay@.subrange(lo as int, hi as int),
                hit ==> forall|q: int| 0 <= q < k ==> hay@[i + q] == needle@[q],
                !hit ==> exists|q: int| 0 <= q < k && hay@[i + q] != needle@[q],
            decreases n - k,
        {
            if hay[i + k] != needle[k] {
                hit = false;
            }
            k += 1;
        }
        if hit {
            proof {
                assert(h.subrange(i - lo, i - lo + needle@.len() as int) =~= needle@) by {
                    assert forall|q: int| 0 <= q < needle@.len() implies h.subrange(
                        i - lo,
                        i - lo + needle@.len() as int,
                    )[q] == needle@[q] by {
                        assert(h[i - lo + q] == hay@[i + q]);
                    }
                }
            }
            return true;
        }
        proof {
            let q = choose|q: int| 0 <= q < n && hay@[i + q] != needle@[q];
            assert(h.subrange(i - lo, i - lo + needle@.len() as int)[q] == hay@[i + q]);
            assert(h.subrange(i - lo, i - lo + needle@.len() as int) != needle@);
        }
        i += 1;
    }
    proof {
        if contains_sub(h, needle@) {
            let w = choose|w: int|
                0 <= w <= h.len() - needle@.len() && #[trigger] h.subrange(
                    w,
                    w + needle@.len() as int,
                ) == needle@;
            assert(h.subrange(w, w + needle@.len() as int) != needle@);
        }
    }
    false
}

/// What one diagnostic line contributes.
enum LineCount {
    /// Not an instruction-reference line.
    NoMatch,
    /// An instruction-reference line with this count.
    Count(u64),
    /// An instruction-reference line whose token does not parse.
    Bad,
}

/// Classify one diagnostic line and read its count.
fn cg_line(line: &[u8]) -> (r: LineCount)
    ensures
        !cg_matches(line@) ==> r is NoMatch,
        cg_matches(line@) ==> match r {
            LineCount::NoMatch => false,
            LineCount::Count(v) => cg_count(line@) == Some(v as int),
            LineCount::Bad => cg_count(line@) is None,
        },
{
    let mut hi = line.len();
    if hi > 0 && line[hi - 1] == 13 {
        hi -= 1;
    }
    let ghost l = strip_cr(line@);
    proof {
        assert(l =~= line@.subrange(0, hi as int));
    }
    proof {
        reveal_strlit("I   refs:");
        assert(vstd::string::is_ascii("I   refs:"));
    }
    let marker = str_bytes("I   refs:");
    if !contains_sub_exec(line, 0, hi, marker.as_slice()) {
        return LineCount::NoMatch;
    }
    // Trailing whitespace off.
    let mut e: usize = hi;
    while e > 0 && is_space_exec(line[e - 1])
        invariant
            e <= hi <= line@.len(),
            l == strip_cr(line@),
            l =~= line@.subrange(0, hi as int),
            strip_trailing_ws(l) == strip_trailing_ws(line@.subrange(0, e as int)),
        decreases e,
    {
        proof {
            let cur = line@.subrange(0, e as int);
            assert(cur.drop_last() =~= line@.subrange(0, e - 1));
            assert(is_space(cur.last()));
        }
        e -= 1;
    }
    proof {
        let cur = line@.subrange(0, e as int);
        if e > 0 {
            assert(!is_space(cur.last()));
        }
        assert(strip_trailing_ws(cur) == cur);
        assert(strip_trailing_ws(l) == line@.subrange(0, e as int));
    }
    let ghost stripped = strip_trailing_ws(l);
    // The maximal whitespace-free suffix of what is left.
    let mut t: usize = e;
    while t > 0 && !is_space_exec(line[t - 1])
        invariant
            t <= e <= line@.len(),
            stripped == strip_trailing_ws(l),
            stripped =~= line@.subrange(0, e as int),
            token_suffix(stripped) =~= token_suffix(line@.subrange(0, t as int)) + line@.subrange(
                t as int,
                e as int,
            ),
        decreases t,
    {
        proof {
            let cur = line@.subrange(0, t as int);
            assert(cur.drop_last() =~= line@.subrange(0, t - 1));
            assert(!is_space(cur.last()));
            assert(token_suffix(cur) == token_suffix(line@.subrange(0, t - 1)).push(
                line@[t - 1],
            ));
            assert(token_suffix(line@.subrange(0, t - 1)).push(line@[t - 1]) + line@.subrange(
                t as int,
                e as int,
            ) =~= token_suffix(line@.subrange(0, t - 1)) + line@.subrange(t - 1, e as int));
        }
        t -= 1;
    }
    proof {
        let cur = line@.subrange(0, t as int);
        assert(token_suffix(cur) == Seq::<u8>::empty());
        assert(last_token(l) =~= line@.subrange(t as int, e as int));
    }
    let ghost tok = last_token(l);
    // Commas out, digits in.
    let mut acc: u128 = 0;
    let mut over = false;
    let mut any = false;
    proof {
        assert(cg_matches(line@));
    }
    let mut k: usize = t;
    while k < e
        invariant
            t <= k <= e <= line@.len(),
            l == strip_cr(line@),
            cg_matches(line@),
            tok == last_token(l),
            tok =~= line@.subrange(t as int, e as int),
            any == (strip_commas(line@.subrange(t as int, k as int)).len() > 0),
            all_digits(strip_commas(line@.subrange(t as int, k as int))),
            !over ==> acc == digits_val(strip_commas(line@.subrange(t as int, k as int))) && acc
                <= u64::MAX,
            over ==> digits_val(strip_commas(line@.subrange(t as int, k as int))) > u64::MAX,
        decreases e - k,
    {
        let b = line[k];
        let ghost pre = strip_commas(line@.subrange(t as int, k as int));
        proof {
            assert(line@.subrange(t as int, k + 1).drop_last() =~= line@.subrange(
                t as int,
                k as int,
            ));
            assert(line@.subrange(t as int, k + 1).last() == line@[k as int]);
        }
        if b == 44 {
            proof {
                assert(strip_commas(line@.subrange(t as int, k + 1)) == pre);
            }
        } else if b >= 48 && b <= 57 {
            proof {
                assert(strip_commas(line@.subrange(t as int, k + 1)) == pre.push(b));
                lemma_digits_val_push(pre, b);
                assert(all_digits(pre.push(b))) by {
                    assert forall|q: int| 0 <= q < pre.push(b).len() implies is_digit(
                        #[trigger] pre.push(b)[q],
                    ) by {
                        if q < pre.len() {
                            assert(pre.push(b)[q] == pre[q]);
                        }
                    }
                }
                if over {
                    lemma_digits_val_nonneg(pre);
                }
            }
            if !over {
                let next: u128 = acc * 10 + ((b - 48) as u128);
                if next > 0xffffffffffffffff {
                    over = true;
                } else {
                    acc = next;
                }
            }
            any = true;
        } else {
            proof {
                assert(strip_commas(line@.subrange(t as int, k + 1)) == pre.push(b));
                let full = strip_commas(tok);
                lemma_strip_commas_concat(line@.subrange(t as int, k + 1), line@.subrange(
                    k + 1,
                    e as int,
                ));
                assert(line@.subrange(t as int, k + 1) + line@.subrange(k + 1, e as int) =~= tok);
                assert(full == pre.push(b) + strip_commas(line@.subrange(k + 1, e as int)));
                assert(full[pre.len() as int] == b);
                assert(!is_digit(b));
                assert(!all_digits(full));
                assert(cg_count(line@) is None);
            }
            return LineCount::Bad;
        }
        k += 1;
    }
    proof {
        assert(line@.subrange(t as int, e as int) =~= tok);
        assert(strip_commas(tok) == strip_commas(line@.subrange(t as int, e as int)));
    }
    if !any {
        proof {
            assert(strip_commas(tok).len() == 0);
            assert(cg_count(line@) is None);
        }
        return LineCount::Bad;
    }
    if over {
        proof {
            assert(digits_val(strip_commas(tok)) > u64::MAX);
            assert(cg_count(line@) is None);
        }
        return LineCount::Bad;
    }
    proof {
        assert(cg_count(line@) == Some(acc as int));
    }
    LineCount::Count(acc as u64)
}

fn is_space_exec(b: u8) -> (r: bool)
    ensures
        r == is_space(b),
{
    b == 32 || (b >= 9 && b <= 13)
}

proof fn lemma_strip_commas_concat(a: Seq<u8>, b: Seq<u8>)
    ensures
        strip_commas(a + b) == strip_commas(a) + strip_commas(b),
    decreases b.len(),
{
    if b.len() == 0 {
        assert(a + b =~= a);
        assert(strip_commas(a) + strip_commas(b) =~= strip_commas(a));
    } else {
        assert((a + b).drop_last() =~= a + b.drop_last());
        assert((a + b).last() == b.last());
        lemma_strip_commas_concat(a, b.drop_last());
        if b.last() == 44u8 {
            assert(strip_commas(b) == strip_commas(b.drop_last()));
        } else {
            assert(strip_commas(b) == strip_commas(b.drop_last()).push(b.last()));
            assert(strip_commas(a) + strip_commas(b.drop_last()).push(b.last()) =~= (strip_commas(
                a,
            ) + strip_commas(b.drop_last())).push(b.last()));
        }
    }
}

/// Scan the profiler's diagnostic output and sum the instruction references
/// of every matching line, exactly per `cg_sum`; no match, a bad token, an
/// overflowing total, and a zero total are all fatal.
pub fn parse_instructions(stderr: &[u8]) -> (r: Result<u64, HarnessError>)
    ensures
        (r is Ok) == cg_ok(split_on(stderr@, 10u8)),
        match r {
            Ok(n) => cg_sum(split_on(stderr@, 10u8)) == Some(n as int) && n > 0,
            Err(e) => e == HarnessError::MalformedTelemetry,
        },
{
    let ghost all = split_on(stderr@, 10u8);
    let len = stderr.len();
    let mut li: usize = 0;
    let mut acc: u64 = 0;
    proof {
        assert(stderr@.subrange(0, len as int) =~= stderr@);
    }
    loop
        invariant_except_break
            (match cg_sum(split_on(stderr@.subrange(li as int, len as int), 10u8)) {
                Some(v) => cg_sum(all) == Some(acc + v),
                None => cg_sum(all) is None,
            }),
        invariant
            li <= len,
            len == stderr@.len(),
            all == split_on(stderr@, 10u8),
        ensures
            cg_sum(all) == Some(acc as int),
        decreases len - li,
    {
        let ghost suffix = stderr@.subrange(li as int, len as int);
        let ghost gsuf = split_on(suffix, 10u8);
        match crate::bytes::find_byte_range(stderr, li, len, 10) {
            Some(p) => {
                let line = crate::bytes::range_vec(stderr, li, p);
                let ghost rest = split_on(stderr@.subrange(p + 1, len as int), 10u8);
                proof {
                    assert(find_byte(suffix, 10u8) == p - li);
                    assert(suffix.subrange(0, p - li) =~= line@);
                    assert(suffix.subrange(p - li + 1, suffix.len() as int) =~= stderr@.subrange(
                        p + 1,
                        len as int,
                    ));
                    assert(gsuf == seq![line@] + rest);
                    assert(gsuf.drop_first() =~= rest);
                    lemma_cg_sum_nonneg(rest);
                }
                match cg_line(line.as_slice()) {
                    LineCount::NoMatch => {
                        proof {
                            assert(cg_sum(gsuf) == cg_sum(rest));
                        }
                    },
                    LineCount::Bad => {
                        proof {
                            assert(cg_sum(gsuf) is None);
                        }
                        return Err(HarnessError::MalformedTelemetry);
                    },
                    LineCount::Count(v) => {
                        proof {
                            assert(cg_matches(line@));
                            assert(cg_count(line@) == Some(v as int));
                            assert(cg_sum(gsuf) == (match cg_sum(rest) {
                                Some(rv) => Some(v + rv),
                                None => None::<int>,
                            }));
                        }
                        if v > u64::MAX - acc {
                            proof {
                                assert(cg_sum(all) matches Some(w) ==> w > u64::MAX);
                            }
                            return Err(HarnessError::MalformedTelemetry);
                        }
                        acc = acc + v;
                    },
                }
                li = p + 1;
            },
            None => {
                let line = crate::bytes::range_vec(stderr, li, len);
                proof {
                    assert(find_byte(suffix, 10u8) == -1);
                    assert(suffix =~= line@);
                    assert(gsuf == seq![line@]);
                    assert(gsuf.drop_first() =~= Seq::<Seq<u8>>::empty());
                    assert(cg_sum(Seq::<Seq<u8>>::empty()) == Some(0int));
                }
                match cg_line(line.as_slice()) {
                    LineCount::NoMatch => {
                        proof {
                            assert(cg_sum(gsuf) == Some(0int));
                        }
                    },
                    LineCount::Bad => {
                        proof {
                            assert(cg_sum(gsuf) is None);
                        }
                        return Err(HarnessError::MalformedTelemetry);
                    },
                    LineCount::Count(v) => {
                        proof {
                            assert(cg_sum(gsuf) == Some(v as int));
                        }
                        if v > u64::MAX - acc {
                            proof {
                                assert(cg_sum(all) matches Some(w) ==> w > u64::MAX);
                            }
                            return Err(HarnessError::MalformedTelemetry);
                        }
                        acc = acc + v;
                    },
                }
                proof {
                    assert(cg_sum(all) == Some(acc as int));
                }
                break;
            },
        }
    }
    if acc == 0 {
        return Err(HarnessError::MalformedTelemetry);
    }
    Ok(acc)
}


/// The profiler invocation: the fixed flags, then the measured command.
pub fn cachegrind_args(run: &Vec<Vec<u8>>) -> (args: Vec<Vec<u8>>)
    ensures
        args@.len() == 5 + run@.len(),
        args@[0]@ == bytes_of("--tool=cachegrind"@),
        args@[1]@ == bytes_of("--trace-children=yes"@),
        args@[2]@ == bytes_of("--I1=32768,8,64"@),
        args@[3]@ == bytes_of("--D1=32768,8,64"@),
        args@[4]@ == bytes_of("--LL=8388608,16,64"@),
        forall|i: int| 0 <= i < run@.len() ==> args@[5 + i]@ == run@[i]@,
{
    proof {
        reveal_strlit("--tool=cachegrind");
        reveal_strlit("--trace-children=yes");
        reveal_strlit("--I1=32768,8,64");
        reveal_strlit("--D1=32768,8,64");
        reveal_strlit("--LL=8388608,16,64");
        assert(vstd::string::is_ascii("--tool=cachegrind"));
        assert(vstd::string::is_ascii("--trace-children=yes"));
        assert(vstd::string::is_ascii("--I1=32768,8,64"));
        assert(vstd::string::is_ascii("--D1=32768,8,64"));
        assert(vstd::string::is_ascii("--LL=8388608,16,64"));
    }
    let mut args: Vec<Vec<u8>> = Vec::new();
    args.push(str_bytes("--tool=cachegrind"));
    args.push(str_bytes("--trace-children=yes"));
    args.push(str_bytes("--I1=32768,8,64"));
    args.push(str_bytes("--D1=32768,8,64"));
    args.push(str_bytes("--LL=8388608,16,64"));
    let mut i: usize = 0;
    while i < run.len()
        invariant
            i <= run@.len(),
            args@.len() == 5 + i,
            args@[0]@ == bytes_of("--tool=cachegrind"@),
            args@[1]@ == bytes_of("--trace-children=yes"@),
            args@[2]@ == bytes_of("--I1=32768,8,64"@),
            args@[3]@ == bytes_of("--D1=32768,8,64"@),
            args@[4]@ == bytes_of("--LL=8388608,16,64"@),
            forall|j: int| 0 <= j < i ==> args@[5 + j]@ == run@[j]@,
        decreases run@.len() - i,
    {
        args.push(copy_bytes(run[i].as_slice()));
        i += 1;
    }
    args
}

} // verus!
