//! ASCII decimal numbers, as used in file names and in the small records
//! that hold a file id or a sequence number.

use vstd::prelude::*;

verus! {

/// `b` is an ASCII digit.
pub open spec fn is_digit(b: u8) -> bool {
    48 <= b <= 57
}

/// The ASCII decimal digits of `n`, without leading zeros.
pub open spec fn decimal(n: nat) -> Seq<u8>
    decreases n,
{
    if n < 10 {
        seq![(48 + n) as u8]
    } else {
        decimal(n / 10).push((48 + n % 10) as u8)
    }
}

/// The number that the digits of `s` spell.
pub open spec fn digits_value(s: Seq<u8>) -> nat
    decreases s.len(),
{
    if s.len() == 0 {
        0
    } else {
        digits_value(s.drop_last()) * 10 + (s.last() - 48) as nat
    }
}

/// What `parse_decimal` answers: the value of a non-empty run of digits that
/// fits a `u64`.
pub open spec fn decimal_parse(s: Seq<u8>) -> Option<u64> {
    if s.len() > 0 && (forall|i: int| 0 <= i < s.len() ==> is_digit(#[trigger] s[i]))
        && digits_value(s) <= u64::MAX {
        Some(digits_value(s) as u64)
    } else {
        None
    }
}

/// `decimal(n)` padded on the left with '0' up to `width` bytes.
pub open spec fn zero_padded(n: nat, width: nat) -> Seq<u8> {
    if decimal(n).len() < width {
        Seq::new((width - decimal(n).len()) as nat, |i: int| 48u8) + decimal(n)
    } else {
        decimal(n)
    }
}

proof fn lemma_decimal_digits(n: nat)
    ensures
        decimal(n).len() >= 1,
        forall|i: int| 0 <= i < decimal(n).len() ==> is_digit(#[trigger] decimal(n)[i]),
        digits_value(decimal(n)) == n,
    decreases n,
{
    if n < 10 {
        assert(decimal(n).drop_last() =~= Seq::<u8>::empty());
        assert(digits_value(Seq::<u8>::empty()) == 0);
        assert(decimal(n).last() == (48 + n) as u8);
    } else {
        lemma_decimal_digits(n / 10);
        assert(decimal(n).drop_last() =~= decimal(n / 10));
        assert(decimal(n).last() == (48 + n % 10) as u8);
        assert(n == (n / 10) * 10 + n % 10) by (nonlinear_arith);
    }
}

/// Digits written for `n` are read back as `n`.
pub proof fn lemma_decimal_round_trip(n: u64)
    ensures
        decimal_parse(decimal(n as nat)) == Some(n),
{
    lemma_decimal_digits(n as nat);
}

proof fn lemma_leading_zeros(z: nat, s: Seq<u8>)
    ensures
        digits_value(Seq::new(z, |i: int| 48u8) + s) == digits_value(s),
    decreases s.len(),
{
    let zs = Seq::new(z, |i: int| 48u8);
    if s.len() == 0 {
        assert(zs + s =~= zs);
        lemma_zeros_value(z);
    } else {
        assert((zs + s).drop_last() =~= zs + s.drop_last());
        lemma_leading_zeros(z, s.drop_last());
    }
}

proof fn lemma_zeros_value(z: nat)
    ensures
        digits_value(Seq::new(z, |i: int| 48u8)) == 0,
    decreases z,
{
    if z > 0 {
        assert(Seq::new(z, |i: int| 48u8).drop_last() =~= Seq::new((z - 1) as nat, |i: int| 48u8));
        lemma_zeros_value((z - 1) as nat);
    }
}

/// Zero-padded digits are read back as the number they pad.
pub proof fn lemma_zero_padded_round_trip(n: u64, width: nat)
    ensures
        decimal_parse(zero_padded(n as nat, width)) == Some(n),
{
    lemma_decimal_digits(n as nat);
    let d = decimal(n as nat);
    if d.len() < width {
        let z = (width - d.len()) as nat;
        lemma_leading_zeros(z, d);
        let s = Seq::new(z, |i: int| 48u8) + d;
        assert forall|i: int| 0 <= i < s.len() implies is_digit(#[trigger] s[i]) by {
            if i >= z {
                assert(s[i] == d[i - z]);
            }
        }
    }
}

/// Appends the decimal digits of `n` to `out`.
pub fn push_decimal(n: u64, out: &mut Vec<u8>)
    ensures
        final(out)@ == old(out)@ + decimal(n as nat),
    decreases n,
{
    if n >= 10 {
        push_decimal(n / 10, out);
    }
    out.push((48 + n % 10) as u8);
    proof {
        if n >= 10 {
            assert(decimal(n as nat) == decimal((n / 10) as nat).push((48 + n % 10) as u8));
        }
    }
    assert(out@ =~= old(out)@ + decimal(n as nat));
}

/// The decimal digits of `n`, left-padded with '0' to `width` bytes.
pub fn zero_padded_decimal(n: u64, width: usize) -> (r: Vec<u8>)
    ensures
        r@ == zero_padded(n as nat, width as nat),
{
    let mut digits: Vec<u8> = Vec::new();
    push_decimal(n, &mut digits);
    assert(digits@ =~= decimal(n as nat));
    if digits.len() >= width {
        return digits;
    }
    let pad = width - digits.len();
    let mut r: Vec<u8> = Vec::new();
    let mut i: usize = 0;
    while i < pad
        invariant
            i <= pad,
            r@ == Seq::new(i as nat, |j: int| 48u8),
        decreases pad - i,
    {
        r.push(48u8);
        i = i + 1;
        assert(r@ =~= Seq::new(i as nat, |j: int| 48u8));
    }
    crate::log_record::append_bytes(&mut r, digits.as_slice());
    r
}

/// Reads a non-empty run of ASCII digits as a `u64`.
pub fn parse_decimal(s: &[u8]) -> (r: Option<u64>)
    ensures
        r == decimal_parse(s@),
{
    if s.len() == 0 {
        return None;
    }
    let mut v: u64 = 0;
    let mut i: usize = 0;
    while i < s.len()
        invariant
            i <= s@.len(),
            forall|j: int| 0 <= j < i ==> is_digit(#[trigger] s@[j]),
            v == digits_value(s@.take(i as int)),
        decreases s@.len() - i,
    {
        let b = s[i];
        assert(s@.take(i + 1).drop_last() =~= s@.take(i as int));
        if b < 48 || b > 57 {
            return None;
        }
        let d = (b - 48) as u64;
        if v > (u64::MAX - d) / 10 {
            proof {
                assert(v * 10 + d > u64::MAX) by (nonlinear_arith)
                    requires
                        v > (u64::MAX - d) / 10,
                        d <= 9,
                ;
                lemma_prefix_value_le(s@, i + 1);
                assert(s@.take(s@.len() as int) =~= s@);
            }
            return None;
        }
        v = v * 10 + d;
        i = i + 1;
    }
    assert(s@.take(s@.len() as int) =~= s@);
    Some(v)
}

proof fn lemma_prefix_value_le(s: Seq<u8>, i: int)
    requires
        0 <= i <= s.len(),
    ensures
        digits_value(s.take(i)) <= digits_value(s),
    decreases s.len() - i,
{
    if i < s.len() {
        lemma_prefix_value_le(s, i + 1);
        assert(s.take(i + 1).drop_last() =~= s.take(i));
        assert(s.take(s.len() as int) =~= s);
    } else {
        assert(s.take(i) =~= s);
    }
}

} // verus!
