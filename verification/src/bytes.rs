//! Byte-level helpers shared by the parsers: searching for a separator,
//! slicing a range out of a buffer, and turning ASCII string literals into
//! byte sequences for use as metric names.

use vstd::prelude::*;

verus! {

/// The bytes of a character sequence, assuming every character is ASCII.
pub open spec fn bytes_of(s: Seq<char>) -> Seq<u8> {
    Seq::new(s.len(), |i: int| s[i] as u8)
}

/// First index of `b` in `s`, or -1 when `b` does not occur.
pub open spec fn find_byte(s: Seq<u8>, b: u8) -> int
    decreases s.len(),
{
    if s.len() == 0 {
        -1
    } else if s[0] == b {
        0
    } else if find_byte(s.drop_first(), b) == -1 {
        -1
    } else {
        find_byte(s.drop_first(), b) + 1
    }
}

pub proof fn lemma_find_byte(s: Seq<u8>, b: u8)
    ensures
        find_byte(s, b) == -1 ==> forall|i: int| 0 <= i < s.len() ==> s[i] != b,
        find_byte(s, b) != -1 ==> {
            &&& 0 <= find_byte(s, b) < s.len()
            &&& s[find_byte(s, b)] == b
            &&& forall|i: int| 0 <= i < find_byte(s, b) ==> s[i] != b
        },
    decreases s.len(),
{
    if s.len() > 0 && s[0] != b {
        lemma_find_byte(s.drop_first(), b);
        let r = find_byte(s.drop_first(), b);
        if r != -1 {
            assert forall|i: int| 0 <= i < r + 1 implies s[i] != b by {
                if i > 0 {
                    assert(s.drop_first()[i - 1] != b);
                }
            }
        } else {
            assert forall|i: int| 0 <= i < s.len() implies s[i] != b by {
                if i > 0 {
                    assert(s.drop_first()[i - 1] != b);
                }
            }
        }
    }
}

pub proof fn lemma_find_byte_at(s: Seq<u8>, b: u8, p: int)
    requires
        0 <= p < s.len(),
        s[p] == b,
        forall|i: int| 0 <= i < p ==> s[i] != b,
    ensures
        find_byte(s, b) == p,
{
    lemma_find_byte(s, b);
    let r = find_byte(s, b);
    if r == -1 {
        assert(s[p] == b);
        assert(false);
    } else if r < p {
        assert(s[r] != b);
        assert(false);
    } else if r > p {
        assert(s[p] != b);
        assert(false);
    }
}

pub proof fn lemma_find_byte_none(s: Seq<u8>, b: u8)
    requires
        forall|i: int| 0 <= i < s.len() ==> s[i] != b,
    ensures
        find_byte(s, b) == -1,
{
    lemma_find_byte(s, b);
    let r = find_byte(s, b);
    if r != -1 {
        assert(s[r] != b);
        assert(false);
    }
}


/// Search `s` for `b` starting at `from`; the result mirrors `find_byte`
/// on the suffix `s@.subrange(from, s@.len())`.
pub fn find_byte_from(s: &[u8], from: usize, b: u8) -> (r: Option<usize>)
    requires
        from <= s@.len(),
    ensures
        match r {
            Some(p) => {
                &&& from <= p < s@.len()
                &&& s@[p as int] == b
                &&& forall|i: int| from <= i < p ==> s@[i] != b
                &&& find_byte(s@.subrange(from as int, s@.len() as int), b) == p - from
            },
            None => {
                &&& forall|i: int| from <= i < s@.len() ==> s@[i] != b
                &&& find_byte(s@.subrange(from as int, s@.len() as int), b) == -1
            },
        },
{
    let ghost suf = s@.subrange(from as int, s@.len() as int);
    let mut i: usize = from;
    while i < s.len()
        invariant
            from <= i <= s@.len(),
            forall|j: int| from <= j < i ==> s@[j] != b,
            suf == s@.subrange(from as int, s@.len() as int),
        decreases s@.len() - i,
    {
        if s[i] == b {
            proof {
                lemma_find_byte(suf, b);
                assert(suf[i - from] == s@[i as int]);
                let r = find_byte(suf, b);
                if r == -1 {
                    assert(suf[i - from] == b);
                    assert(false);
                } else if r < i - from {
                    assert(suf[r] == b);
                    assert(s@[from + r] == suf[r]);
                    assert(false);
                } else if r > i - from {
                    assert(suf[i - from] != b);
                    assert(false);
                }
            }
            return Some(i);
        }
        i += 1;
    }
    proof {
        lemma_find_byte(suf, b);
        let r = find_byte(suf, b);
        if r != -1 {
            assert(suf[r] == b);
            assert(s@[from + r] == suf[r]);
            assert(false);
        }
    }
    None
}

/// Search `s[lo..hi)` for `b`; the result mirrors `find_byte` on
/// `s@.subrange(lo, hi)`.
pub fn find_byte_range(s: &[u8], lo: usize, hi: usize, b: u8) -> (r: Option<usize>)
    requires
        lo <= hi <= s@.len(),
    ensures
        match r {
            Some(p) => {
                &&& lo <= p < hi
                &&& s@[p as int] == b
                &&& forall|i: int| lo <= i < p ==> s@[i] != b
                &&& find_byte(s@.subrange(lo as int, hi as int), b) == p - lo
            },
            None => {
                &&& forall|i: int| lo <= i < hi ==> s@[i] != b
                &&& find_byte(s@.subrange(lo as int, hi as int), b) == -1
            },
        },
{
    let ghost suf = s@.subrange(lo as int, hi as int);
    let mut i: usize = lo;
    while i < hi
        invariant
            lo <= i <= hi <= s@.len(),
            forall|j: int| lo <= j < i ==> s@[j] != b,
            suf == s@.subrange(lo as int, hi as int),
        decreases hi - i,
    {
        if s[i] == b {
            proof {
                lemma_find_byte(suf, b);
                assert(suf[i - lo] == s@[i as int]);
                let r = find_byte(suf, b);
                if r == -1 {
                    assert(suf[i - lo] == b);
                    assert(false);
                } else if r < i - lo {
                    assert(suf[r] == b);
                    assert(s@[lo + r] == suf[r]);
                    assert(false);
                } else if r > i - lo {
                    assert(suf[i - lo] != b);
                    assert(false);
                }
            }
            return Some(i);
        }
        i += 1;
    }
    proof {
        lemma_find_byte(suf, b);
        let r = find_byte(suf, b);
        if r != -1 {
            assert(suf[r] == b);
            assert(s@[lo + r] == suf[r]);
            assert(false);
        }
    }
    None
}

/// Copy of `s[i..j]` as a fresh vector.
pub fn range_vec(s: &[u8], i: usize, j: usize) -> (v: Vec<u8>)
    requires
        i <= j <= s@.len(),
    ensures
        v@ == s@.subrange(i as int, j as int),
{
    let mut v: Vec<u8> = Vec::new();
    let mut k: usize = i;
    while k < j
        invariant
            i <= k <= j <= s@.len(),
            v@ == s@.subrange(i as int, k as int),
        decreases j - k,
    {
        v.push(s[k]);
        proof {
            assert(v@ =~= s@.subrange(i as int, k + 1));
        }
        k += 1;
    }
    v
}

/// True exactly when the two byte strings hold the same bytes.
pub fn bytes_eq(a: &[u8], b: &[u8]) -> (r: bool)
    ensures
        r == (a@ == b@),
{
    if a.len() != b.len() {
        proof {
            assert(a@ != b@);
        }
        return false;
    }
    let mut i: usize = 0;
    while i < a.len()
        invariant
            i <= a@.len(),
            a@.len() == b@.len(),
            forall|j: int| 0 <= j < i ==> a@[j] == b@[j],
        decreases a@.len() - i,
    {
        if a[i] != b[i] {
            return false;
        }
        i += 1;
    }
    proof {
        assert(a@ =~= b@);
    }
    true
}

/// A fresh copy of a byte string.
pub fn copy_bytes(s: &[u8]) -> (v: Vec<u8>)
    ensures
        v@ == s@,
{
    let v = range_vec(s, 0, s.len());
    proof {
        assert(s@.subrange(0, s@.len() as int) =~= s@);
    }
    v
}

/// Append all of `src` to `dst`.
pub fn append_bytes(dst: &mut Vec<u8>, src: &[u8])
    ensures
        final(dst)@ == old(dst)@ + src@,
{
    let ghost pre = dst@;
    let mut k: usize = 0;
    while k < src.len()
        invariant
            k <= src@.len(),
            dst@ == pre + src@.subrange(0, k as int),
        decreases src@.len() - k,
    {
        dst.push(src[k]);
        proof {
            assert(dst@ =~= pre + src@.subrange(0, k + 1));
        }
        k += 1;
    }
    proof {
        assert(dst@ =~= pre + src@);
    }
}

/// The bytes of an ASCII string, as a fresh vector.
pub fn str_bytes(s: &str) -> (v: Vec<u8>)
    requires
        vstd::string::is_ascii(s),
    ensures
        v@ == bytes_of(s@),
{
    broadcast use vstd::string::is_ascii_spec_bytes;

    let b = s.as_bytes();
    let mut v: Vec<u8> = Vec::new();
    let mut k: usize = 0;
    proof {
        assert(b@ =~= bytes_of(s@));
    }
    while k < b.len()
        invariant
            k <= b@.len(),
            b@ == bytes_of(s@),
            v@ == b@.subrange(0, k as int),
        decreases b@.len() - k,
    {
        v.push(b[k]);
        proof {
            assert(v@ =~= b@.subrange(0, k + 1));
        }
        k += 1;
    }
    proof {
        assert(v@ =~= bytes_of(s@));
    }
    v
}

} // verus!
