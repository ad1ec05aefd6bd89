//! Byte-string helpers shared by the codec and the command layer:
//! equality, ASCII case folding, and decimal digit strings.

use vstd::prelude::*;
use vstd::string::StringSliceAdditionalSpecFns;

verus! {

/// The decimal digit bytes of `n`, most significant first.
pub open spec fn dec_rep(n: nat) -> Seq<u8>
    decreases n,
{
    if n < 10 {
        seq![(48 + n) as u8]
    } else {
        dec_rep(n / 10).push((48 + n % 10) as u8)
    }
}

pub open spec fn is_digit(b: u8) -> bool {
    48 <= b <= 57
}

pub open spec fn all_digits(s: Seq<u8>) -> bool {
    forall|i: int| 0 <= i < s.len() ==> is_digit(s[i])
}

/// Numeric value of a digit string, read in base ten.
pub open spec fn dec_val(s: Seq<u8>) -> int
    decreases s.len(),
{
    if s.len() == 0 {
        0
    } else {
        dec_val(s.drop_last()) * 10 + s.last() - 48
    }
}

/// What a decimal field of the wire protocol denotes: a `u64`, if the
/// bytes are one or more digits whose value fits.
pub open spec fn parse_dec(s: Seq<u8>) -> Option<u64> {
    if s.len() >= 1 && all_digits(s) && dec_val(s) <= u64::MAX {
        Some(dec_val(s) as u64)
    } else {
        None
    }
}

pub proof fn lemma_dec_rep_digits(n: nat)
    ensures
        dec_rep(n).len() >= 1,
        all_digits(dec_rep(n)),
    decreases n,
{
    if n >= 10 {
        lemma_dec_rep_digits(n / 10);
    }
}

pub proof fn lemma_dec_rep_val(n: nat)
    ensures
        dec_val(dec_rep(n)) == n,
    decreases n,
{
    if n < 10 {
        let s = dec_rep(n);
        assert(s =~= seq![(48 + n) as u8]);
        assert(s.drop_last() =~= Seq::<u8>::empty());
        assert(dec_val(s) == dec_val(s.drop_last()) * 10 + s.last() - 48);
        assert(dec_val(s) == n);
    } else {
        lemma_dec_rep_val(n / 10);
        let s = dec_rep(n);
        assert(s.drop_last() =~= dec_rep(n / 10));
        assert(dec_val(s) == dec_val(dec_rep(n / 10)) * 10 + (48 + n % 10) - 48);
        assert(n / 10 * 10 + n % 10 == n) by {
            vstd::arithmetic::div_mod::lemma_fundamental_div_mod(n as int, 10);
        }
    }
}

/// Along an all-digit string, the value of a prefix never exceeds the
/// value of a longer prefix.
pub proof fn lemma_dec_val_prefix_le(s: Seq<u8>, i: int, j: int)
    requires
        all_digits(s),
        0 <= i <= j <= s.len(),
    ensures
        dec_val(s.take(i)) <= dec_val(s.take(j)),
    decreases j - i,
{
    if i < j {
        lemma_dec_val_prefix_le(s, i, j - 1);
        let t = s.take(j);
        assert(t.drop_last() =~= s.take(j - 1));
        assert(dec_val(s.take(j - 1)) >= 0) by {
            lemma_dec_val_nonneg(s.take(j - 1));
        }
        assert(dec_val(t) == dec_val(s.take(j - 1)) * 10 + s[j - 1] - 48);
    }
}

pub proof fn lemma_dec_val_nonneg(s: Seq<u8>)
    requires
        all_digits(s),
    ensures
        dec_val(s) >= 0,
    decreases s.len(),
{
    if s.len() > 0 {
        assert(all_digits(s.drop_last()));
        lemma_dec_val_nonneg(s.drop_last());
    }
}

/// Appends the decimal digits of `n` to `out`.
pub fn push_dec(out: &mut Vec<u8>, n: u64)
    ensures
        final(out)@ == old(out)@ + dec_rep(n as nat),
    decreases n,
{
    if n < 10 {
        out.push((48 + n) as u8);
        assert(out@ =~= old(out)@ + dec_rep(n as nat));
    } else {
        let ghost pre = out@;
        push_dec(out, n / 10);
        out.push((48 + (n % 10) as u8) as u8);
        assert(out@ =~= pre + dec_rep(n as nat));
    }
}

/// Reads `buf[start .. end]` as a decimal `u64`; `None` on an empty
/// field, a non-digit byte, or a value over `u64::MAX`.
pub fn parse_decimal(buf: &Vec<u8>, start: usize, end: usize) -> (r: Option<u64>)
    requires
        start <= end <= buf@.len(),
    ensures
        r == parse_dec(buf@.subrange(start as int, end as int)),
{
    let ghost s = buf@.subrange(start as int, end as int);
    if start == end {
        return None;
    }
    let mut val: u64 = 0;
    let mut i: usize = start;
    while i < end
        invariant
            start <= i <= end <= buf@.len(),
            s == buf@.subrange(start as int, end as int),
            all_digits(s.take(i - start)),
            val == dec_val(s.take(i - start)),
        decreases end - i,
    {
        let b = buf[i];
        assert(b == s[i - start]);
        if b < 48 || b > 57 {
            assert(!is_digit(s[i - start]));
            assert(parse_dec(s) is None);
            return None;
        }
        let d: u64 = (b - 48) as u64;
        let ghost t = s.take(i - start + 1);
        assert(t.drop_last() =~= s.take(i - start));
        assert(t.last() == b);
        if val > u64::MAX / 10 || 10 * val > u64::MAX - d {
            proof {
                assert(dec_val(t) > u64::MAX);
                if all_digits(s) {
                    lemma_dec_val_prefix_le(s, i - start + 1, s.len() as int);
                    assert(s.take(s.len() as int) =~= s);
                    assert(dec_val(s) > u64::MAX);
                }
            }
            return None;
        }
        val = 10 * val + d;
        i = i + 1;
    }
    assert(s.take(s.len() as int) =~= s);
    assert(all_digits(s) && dec_val(s) == val);
    Some(val)
}

/// The UTF-8 bytes of a string slice, as an owned byte string.
pub fn str_bytes(src: &str) -> (r: Vec<u8>)
    ensures
        r@ == src.spec_bytes(),
{
    let bytes = src.as_bytes();
    let mut copy: Vec<u8> = Vec::new();
    let mut i: usize = 0;
    while i < bytes.len()
        invariant
            i <= bytes@.len(),
            copy@ == bytes@.take(i as int),
        decreases bytes@.len() - i,
    {
        copy.push(bytes[i]);
        proof {
            assert(copy@ =~= bytes@.take(i + 1));
        }
        i = i + 1;
    }
    proof {
        assert(copy@ =~= bytes@);
    }
    copy
}

/// Reads a command-line expiry argument: decimal milliseconds.
pub fn duration_from_ms_str(src: &str) -> (r: Result<u64, ()>)
    ensures
        match r {
            Ok(ms) => parse_dec(src.spec_bytes()) == Some(ms),
            Err(_) => parse_dec(src.spec_bytes()) is None,
        },
{
    let copy = str_bytes(src);
    proof {
        assert(copy@.subrange(0, copy@.len() as int) =~= copy@);
    }
    match parse_decimal(&copy, 0, copy.len()) {
        Some(ms) => Ok(ms),
        None => Err(()),
    }
}

/// True when the two byte strings hold the same bytes.
pub fn bytes_eq(a: &Vec<u8>, b: &Vec<u8>) -> (r: bool)
    ensures
        r == (a@ == b@),
{
    if a.len() != b.len() {
        return false;
    }
    let mut i: usize = 0;
    while i < a.len()
        invariant
            0 <= i <= a@.len(),
            a@.len() == b@.len(),
            forall|j: int| 0 <= j < i ==> a@[j] == b@[j],
        decreases a@.len() - i,
    {
        if a[i] != b[i] {
            return false;
        }
        i = i + 1;
    }
    proof {
        assert(a@ =~= b@);
    }
    true
}

/// Appends all of `s` to `out`.
pub fn push_all(out: &mut Vec<u8>, s: &Vec<u8>)
    ensures
        final(out)@ == old(out)@ + s@,
{
    let mut i: usize = 0;
    while i < s.len()
        invariant
            0 <= i <= s@.len(),
            out@ == old(out)@ + s@.take(i as int),
        decreases s@.len() - i,
    {
        out.push(s[i]);
        assert(out@ =~= old(out)@ + s@.take(i + 1));
        i = i + 1;
    }
    assert(out@ =~= old(out)@ + s@);
}

/// A fresh copy of `buf[start .. end]`.
pub fn copy_range(buf: &Vec<u8>, start: usize, end: usize) -> (r: Vec<u8>)
    requires
        start <= end <= buf@.len(),
    ensures
        r@ == buf@.subrange(start as int, end as int),
{
    let mut out: Vec<u8> = Vec::new();
    let mut i: usize = start;
    while i < end
        invariant
            start <= i <= end <= buf@.len(),
            out@ == buf@.subrange(start as int, i as int),
        decreases end - i,
    {
        out.push(buf[i]);
        assert(out@ =~= buf@.subrange(start as int, i + 1));
        i = i + 1;
    }
    out
}

/// A fresh copy of a byte string.
pub fn dup(v: &Vec<u8>) -> (r: Vec<u8>)
    ensures
        r@ == v@,
{
    let r = copy_range(v, 0, v.len());
    proof {
        assert(r@ =~= v@);
    }
    r
}

pub open spec fn lower_byte(b: u8) -> u8 {
    if 65 <= b <= 90 {
        (b + 32) as u8
    } else {
        b
    }
}

pub open spec fn lower_seq(s: Seq<u8>) -> Seq<u8> {
    s.map(|i: int, b: u8| lower_byte(b))
}

/// The ASCII-lowercase copy of `s`; bytes outside `A`..`Z` are kept.
pub fn to_lower(s: &Vec<u8>) -> (r: Vec<u8>)
    ensures
        r@ == lower_seq(s@),
{
    let mut out: Vec<u8> = Vec::new();
    let mut i: usize = 0;
    while i < s.len()
        invariant
            0 <= i <= s@.len(),
            out@.len() == i,
            forall|j: int| 0 <= j < i ==> out@[j] == lower_byte(s@[j]),
        decreases s@.len() - i,
    {
        let b = s[i];
        if 65 <= b && b <= 90 {
            out.push((b + 32) as u8);
        } else {
            out.push(b);
        }
        i = i + 1;
    }
    proof {
        assert(out@ =~= lower_seq(s@));
    }
    out
}

} // verus!
