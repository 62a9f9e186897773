//! Byte-level helpers for the codec: locating the first CRLF in a buffer
//! and reading decimal numbers out of digit bytes.

use vstd::prelude::*;

verus! {

use vstd::slice::slice_subrange;
use vstd::arithmetic::div_mod::lemma_fundamental_div_mod;
use vstd::arithmetic::div_mod::lemma_mod_bound;
use crate::resp::ParseError;

/// The carriage-return byte.
pub const CR: u8 = 13;

/// The line-feed byte.
pub const LF: u8 = 10;

/// Position of the first CRLF pair in `s`, or `None` when `s` holds no
/// such pair.
pub open spec fn find_crlf(s: Seq<u8>) -> Option<int>
    decreases s.len(),
{
    if s.len() < 2 {
        None
    } else if s[0] == CR && s[1] == LF {
        Some(0)
    } else {
        match find_crlf(s.skip(1)) {
            Some(i) => Some(i + 1),
            None => None,
        }
    }
}

/// `find_crlf` names the position of a CRLF pair that no CRLF pair
/// precedes, and answers `None` exactly when the sequence holds no pair.
pub proof fn lemma_find_crlf(s: Seq<u8>)
    ensures
        match find_crlf(s) {
            Some(i) => 0 <= i && i + 2 <= s.len() && s[i] == CR && s[i + 1] == LF
                && (forall|j: int| 0 <= j < i ==> !(#[trigger] s[j] == CR && s[j + 1] == LF)),
            None => forall|j: int|
                0 <= j && j + 1 < s.len() ==> !(#[trigger] s[j] == CR && s[j + 1] == LF),
        },
    decreases s.len(),
{
    if s.len() < 2 {
    } else if s[0] == CR && s[1] == LF {
    } else {
        lemma_find_crlf(s.skip(1));
        let t = s.skip(1);
        match find_crlf(t) {
            Some(i) => {
                assert forall|j: int| 0 <= j < i + 1 implies !(#[trigger] s[j] == CR && s[j + 1]
                    == LF) by {
                    if j > 0 {
                        assert(t[j - 1] == s[j]);
                        assert(t[j] == s[j + 1]);
                    }
                }
            }
            None => {
                assert forall|j: int| 0 <= j && j + 1 < s.len() implies !(#[trigger] s[j] == CR
                    && s[j + 1] == LF) by {
                    if j > 0 {
                        assert(t[j - 1] == s[j]);
                        assert(t[j] == s[j + 1]);
                    }
                }
            }
        }
    }
}

/// Whether `b` is an ASCII decimal digit.
pub open spec fn is_digit(b: u8) -> bool {
    48 <= b <= 57
}

/// Whether every byte of `s` is an ASCII decimal digit.
pub open spec fn all_digits(s: Seq<u8>) -> bool {
    forall|i: int| 0 <= i < s.len() ==> is_digit(#[trigger] s[i])
}

/// The number denoted by a sequence of decimal digit bytes, most
/// significant digit first.
pub open spec fn digits_val(s: Seq<u8>) -> int
    decreases s.len(),
{
    if s.len() == 0 {
        0
    } else {
        digits_val(s.drop_last()) * 10 + (s.last() - 48)
    }
}

/// A digit string denotes a non-negative number.
pub proof fn lemma_digits_val_nonneg(s: Seq<u8>)
    requires
        all_digits(s),
    ensures
        digits_val(s) >= 0,
    decreases s.len(),
{
    if s.len() > 0 {
        assert(all_digits(s.drop_last()));
        lemma_digits_val_nonneg(s.drop_last());
    }
}

/// Extending a digit prefix never shrinks the number it denotes.
pub proof fn lemma_digits_val_extend(s: Seq<u8>, i: int, j: int)
    requires
        all_digits(s),
        0 <= i <= j <= s.len(),
    ensures
        digits_val(s.subrange(0, i)) <= digits_val(s.subrange(0, j)),
    decreases j - i,
{
    if i < j {
        lemma_digits_val_extend(s, i, j - 1);
        let a = s.subrange(0, j - 1);
        let b = s.subrange(0, j);
        assert(b.drop_last() =~= a);
        assert(all_digits(a));
        lemma_digits_val_nonneg(a);
        assert(digits_val(b) == digits_val(a) * 10 + (s[j - 1] - 48));
    }
}

/// The decimal digit bytes of a non-negative number, most significant
/// digit first.
pub open spec fn dec_digits(n: int) -> Seq<u8>
    decreases n,
{
    if n <= 9 {
        seq![(48 + n) as u8]
    } else {
        dec_digits(n / 10).push((48 + n % 10) as u8)
    }
}

/// The decimal numeral of a signed number: a `-` sign when negative,
/// then the digits of its magnitude.
pub open spec fn i64_digits(v: int) -> Seq<u8> {
    if v < 0 {
        seq![45u8] + dec_digits(-v)
    } else {
        dec_digits(v)
    }
}

/// `dec_digits` produces at least one byte, all of them digits.
pub proof fn lemma_dec_digits_are_digits(n: int)
    requires
        n >= 0,
    ensures
        all_digits(dec_digits(n)),
        dec_digits(n).len() >= 1,
    decreases n,
{
    if n > 9 {
        lemma_dec_digits_are_digits(n / 10);
        let s = dec_digits(n);
        assert forall|i: int| 0 <= i < s.len() implies is_digit(#[trigger] s[i]) by {
            if i < s.len() - 1 {
                assert(s[i] == dec_digits(n / 10)[i]);
            }
        }
    }
}

/// The digits of `n` denote `n`.
pub proof fn lemma_dec_digits_val(n: int)
    requires
        n >= 0,
    ensures
        digits_val(dec_digits(n)) == n,
    decreases n,
{
    if n <= 9 {
        let s = dec_digits(n);
        assert(s.drop_last() =~= Seq::<u8>::empty());
        assert(digits_val(s) == digits_val(s.drop_last()) * 10 + (s.last() - 48));
    } else {
        lemma_dec_digits_val(n / 10);
        lemma_mod_bound(n, 10);
        let s = dec_digits(n);
        assert(s.drop_last() =~= dec_digits(n / 10));
        assert(s.last() == (48 + n % 10) as u8);
        assert(digits_val(s) == digits_val(s.drop_last()) * 10 + (s.last() - 48));
        lemma_fundamental_div_mod(n, 10);
    }
}

/// Reading the numeral of `v` back gives `v`.
pub proof fn lemma_parse_i64_digits(v: int)
    requires
        i64::MIN <= v <= i64::MAX,
    ensures
        spec_parse_i64(i64_digits(v)) == Some(v),
{
    if v < 0 {
        let s = seq![45u8] + dec_digits(-v);
        lemma_dec_digits_are_digits(-v);
        lemma_dec_digits_val(-v);
        assert(s.skip(1) =~= dec_digits(-v));
        assert(s[0] == 45);
    } else {
        lemma_dec_digits_are_digits(v);
        lemma_dec_digits_val(v);
        let s = dec_digits(v);
        assert(is_digit(s[0]));
    }
}

/// In `d + CRLF + r`, when no CRLF pair sits inside `d`, the first CRLF
/// pair of the whole sequence is exactly the appended one.
pub proof fn lemma_find_crlf_concat(d: Seq<u8>, r: Seq<u8>)
    requires
        forall|j: int| 0 <= j && j + 1 < d.len() ==> !(#[trigger] d[j] == CR && d[j + 1] == LF),
    ensures
        find_crlf(d + seq![CR, LF] + r) == Some(d.len() as int),
    decreases d.len(),
{
    let s = d + seq![CR, LF] + r;
    if d.len() == 0 {
        assert(s[0] == CR && s[1] == LF);
    } else {
        assert forall|j: int| 0 <= j && j + 1 < d.skip(1).len() implies !(#[trigger] d.skip(
            1,
        )[j] == CR && d.skip(1)[j + 1] == LF) by {
            assert(d.skip(1)[j] == d[j + 1]);
            assert(d.skip(1)[j + 1] == d[j + 2]);
        }
        lemma_find_crlf_concat(d.skip(1), r);
        assert(s.skip(1) =~= d.skip(1) + seq![CR, LF] + r);
        if d.len() == 1 {
            assert(s[1] == CR);
            assert(!(s[0] == CR && s[1] == LF));
        } else {
            assert(s[0] == d[0] && s[1] == d[1]);
        }
    }
}

/// The value of a signed decimal numeral: an optional `+` or `-` sign,
/// then one or more digits, denoting a number in the signed 64-bit range.
pub open spec fn spec_parse_i64(s: Seq<u8>) -> Option<int> {
    let neg = s.len() > 0 && s[0] == 45;
    let ds = if s.len() > 0 && (s[0] == 43 || s[0] == 45) {
        s.skip(1)
    } else {
        s
    };
    if ds.len() > 0 && all_digits(ds) {
        let v = if neg {
            -digits_val(ds)
        } else {
            digits_val(ds)
        };
        if i64::MIN <= v <= i64::MAX {
            Some(v)
        } else {
            None
        }
    } else {
        None
    }
}

/// The value of an unsigned decimal numeral: one or more digits, no sign,
/// denoting a number in the unsigned 64-bit range.
pub open spec fn spec_parse_u64(s: Seq<u8>) -> Option<int> {
    if s.len() > 0 && all_digits(s) && digits_val(s) <= u64::MAX {
        Some(digits_val(s))
    } else {
        None
    }
}

/// Reads `s` as an unsigned decimal number of at most `limit`.
pub fn parse_digits_limited(s: &[u8], limit: u64) -> (r: Result<u64, ParseError>)
    ensures
        match r {
            Ok(v) => s@.len() > 0 && all_digits(s@) && v == digits_val(s@) && v <= limit,
            Err(_) => s@.len() == 0 || !all_digits(s@) || digits_val(s@) > limit,
        },
{
    if s.len() == 0 {
        return Err(ParseError);
    }
    let mut mag: u64 = 0;
    let mut k: usize = 0;
    while k < s.len()
        invariant
            0 <= k <= s@.len(),
            forall|t: int| 0 <= t < k ==> is_digit(#[trigger] s@[t]),
            mag == digits_val(s@.subrange(0, k as int)),
            mag <= limit,
        decreases s@.len() - k,
    {
        let b = s[k];
        if !(48 <= b && b <= 57) {
            assert(!all_digits(s@));
            return Err(ParseError);
        }
        let d = (b - 48) as u64;
        proof {
            let pre = s@.subrange(0, k as int);
            let cur = s@.subrange(0, k as int + 1);
            assert(cur.drop_last() =~= pre);
            assert(cur.last() == s@[k as int]);
            assert(digits_val(cur) == mag * 10 + d);
            lemma_fundamental_div_mod(limit as int, 10);
        }
        if mag > limit / 10 || (mag == limit / 10 && d > limit % 10) {
            proof {
                assert(mag * 10 + d > limit);
                if all_digits(s@) {
                    lemma_digits_val_extend(s@, k as int + 1, s@.len() as int);
                    assert(s@.subrange(0, s@.len() as int) =~= s@);
                }
            }
            return Err(ParseError);
        }
        assert(mag * 10 + d <= limit);
        mag = mag * 10 + d;
        k = k + 1;
    }
    proof {
        assert(s@.subrange(0, k as int) =~= s@);
    }
    Ok(mag)
}

/// Reads an optionally signed decimal numeral as a signed 64-bit number,
/// exactly as [`spec_parse_i64`] describes.
pub fn parse_int(buffer: &[u8]) -> (r: Result<i64, ParseError>)
    ensures
        match spec_parse_i64(buffer@) {
            Some(v) => r is Ok && r.unwrap() == v,
            None => r is Err,
        },
{
    if buffer.len() == 0 {
        return Err(ParseError);
    }
    let b0 = buffer[0];
    let neg = b0 == 45;
    let start: usize = if b0 == 43 || b0 == 45 {
        1
    } else {
        0
    };
    let digits = slice_subrange(buffer, start, buffer.len());
    proof {
        if start == 1 {
            assert(digits@ =~= buffer@.skip(1));
        } else {
            assert(digits@ =~= buffer@);
        }
        if all_digits(digits@) {
            lemma_digits_val_nonneg(digits@);
        }
    }
    let limit: u64 = if neg {
        0x8000_0000_0000_0000
    } else {
        0x7FFF_FFFF_FFFF_FFFF
    };
    match parse_digits_limited(digits, limit) {
        Ok(mag) => {
            if neg {
                if mag == 0x8000_0000_0000_0000 {
                    Ok(i64::MIN)
                } else {
                    Ok(-(mag as i64))
                }
            } else {
                Ok(mag as i64)
            }
        }
        Err(e) => Err(e),
    }
}

/// Reads the numeric header line that follows a one-byte frame prefix:
/// the digits between `buffer[1]` and the first CRLF, returned together
/// with the full header length (prefix + digits + CRLF).
pub fn split_at_crlf(buffer: &[u8]) -> (r: Result<(i64, usize), ParseError>)
    requires
        buffer@.len() >= 1,
    ensures
        match find_crlf(buffer@.skip(1)) {
            Some(i) => match spec_parse_i64(buffer@.subrange(1, 1 + i)) {
                Some(v) => r is Ok && r.unwrap().0 == v && r.unwrap().1 == i + 3,
                None => r is Err,
            },
            None => r is Err,
        },
{
    let tail = slice_subrange(buffer, 1, buffer.len());
    proof {
        assert(tail@ =~= buffer@.skip(1));
        lemma_find_crlf(tail@);
    }
    match read_until_crlf(tail) {
        Some((line, len)) => {
            proof {
                if find_crlf(tail@) is Some {
                    let i = find_crlf(tail@).unwrap();
                    assert(line@ =~= buffer@.subrange(1, 1 + i));
                }
            }
            match parse_int(line) {
                Ok(v) => Ok((v, len + 1)),
                Err(e) => Err(e),
            }
        }
        None => Err(ParseError),
    }
}

/// Scans for the first CRLF pair; on success hands back the bytes before
/// it and the count of bytes up to and including the pair.
pub fn read_until_crlf(buffer: &[u8]) -> (r: Option<(&[u8], usize)>)
    ensures
        match find_crlf(buffer@) {
            Some(i) => r is Some && r.unwrap().0@ == buffer@.subrange(0, i) && r.unwrap().1 == i
                + 2,
            None => r is None,
        },
{
    let mut i: usize = 1;
    while i < buffer.len()
        invariant
            1 <= i,
            forall|j: int|
                0 <= j && j + 1 < i ==> !(#[trigger] buffer@[j] == CR && buffer@[j + 1] == LF),
        decreases buffer@.len() - i,
    {
        if buffer[i - 1] == CR && buffer[i] == LF {
            let line = slice_subrange(buffer, 0, i - 1);
            proof {
                lemma_find_crlf(buffer@);
            }
            return Some((line, i + 1));
        }
        i = i + 1;
    }
    proof {
        lemma_find_crlf(buffer@);
    }
    None
}

/// ASCII lower-casing of one byte: `A` through `Z` move to `a` through
/// `z`; every other byte stays.
pub open spec fn lower_byte(b: u8) -> u8 {
    if 65 <= b <= 90 {
        (b + 32) as u8
    } else {
        b
    }
}

/// ASCII lower-casing, byte by byte.
pub open spec fn ascii_lower(s: Seq<u8>) -> Seq<u8> {
    Seq::new(s.len(), |i: int| lower_byte(s[i]))
}

/// Lower-cases a byte string, ASCII letter by ASCII letter.
pub fn to_lower(s: &[u8]) -> (r: Vec<u8>)
    ensures
        r@ == ascii_lower(s@),
{
    let mut out: Vec<u8> = Vec::new();
    let mut i: usize = 0;
    while i < s.len()
        invariant
            0 <= i <= s@.len(),
            out@.len() == i,
            forall|j: int| 0 <= j < i ==> (#[trigger] out@[j]) == lower_byte(s@[j]),
        decreases s@.len() - i,
    {
        let b: u8 = s[i];
        if 65 <= b && b <= 90 {
            out.push(b + 32);
        } else {
            out.push(b);
        }
        i = i + 1;
    }
    proof {
        assert(out@ =~= ascii_lower(s@));
    }
    out
}

/// Appends every byte of `s` to `out`.
pub fn push_all(out: &mut Vec<u8>, s: &[u8])
    ensures
        final(out)@ == old(out)@ + s@,
{
    let mut k: usize = 0;
    while k < s.len()
        invariant
            0 <= k <= s@.len(),
            out@ == old(out)@ + s@.subrange(0, k as int),
        decreases s@.len() - k,
    {
        out.push(s[k]);
        proof {
            assert(old(out)@ + s@.subrange(0, k as int + 1) =~= (old(out)@ + s@.subrange(
                0,
                k as int,
            )).push(s@[k as int]));
        }
        k = k + 1;
    }
    proof {
        assert(s@.subrange(0, k as int) =~= s@);
    }
}

/// Compares two byte strings for equality, byte by byte.
pub fn bytes_eq(a: &[u8], b: &[u8]) -> (r: bool)
    ensures
        r == (a@ == b@),
{
    if a.len() != b.len() {
        return false;
    }
    let mut i: usize = 0;
    while i < a.len()
        invariant
            0 <= i <= a@.len(),
            a@.len() == b@.len(),
            forall|j: int| 0 <= j < i ==> a@[j] == b@[j],
        decreases a@.len() - i,
    {
        if a[i] != b[i] {
            return false;
        }
        i = i + 1;
    }
    proof {
        assert(a@ =~= b@);
    }
    true
}

} // verus!
