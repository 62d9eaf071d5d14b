//! Base-128 variable-length integers, as used for lengths, sequence numbers
//! and record positions in the log.

use vstd::prelude::*;

verus! {

/// The longest varint this library reads: ten groups of seven bits cover a
/// `u64`.
pub const MAX_VARINT_LEN: usize = 10;

/// Base-128 encoding of `n`: seven bits per byte, least significant group
/// first, with the high bit set on every byte but the last.
pub open spec fn varint(n: nat) -> Seq<u8>
    decreases n,
{
    if n < 128 {
        seq![n as u8]
    } else {
        seq![(n % 128 + 128) as u8] + varint(n / 128)
    }
}

/// The value of the seven-bit groups of `s`, least significant first.
pub open spec fn varint_value(s: Seq<u8>) -> nat
    decreases s.len(),
{
    if s.len() == 0 {
        0
    } else {
        (s[0] % 128) as nat + 128 * varint_value(s.drop_first())
    }
}

/// Number of bytes up to and including the first one without its high bit,
/// or 0 when every byte of `s` has it.
pub open spec fn varint_len(s: Seq<u8>) -> nat
    decreases s.len(),
{
    if s.len() == 0 {
        0
    } else if s[0] < 128 {
        1
    } else {
        let r = varint_len(s.drop_first());
        if r == 0 {
            0
        } else {
            r + 1
        }
    }
}

/// The varint at the start of `s` as `(value, bytes used)`: none when it is
/// unterminated within `MAX_VARINT_LEN` bytes or does not fit a `u64`.
pub open spec fn varint_decode(s: Seq<u8>) -> Option<(nat, nat)> {
    let k = varint_len(s);
    if 0 < k <= MAX_VARINT_LEN && varint_value(s.take(k as int)) <= u64::MAX {
        Some((varint_value(s.take(k as int)), k))
    } else {
        None
    }
}

pub open spec fn pow128(j: nat) -> nat
    decreases j,
{
    if j == 0 {
        1
    } else {
        128 * pow128((j - 1) as nat)
    }
}

proof fn lemma_varint_len_bound(n: nat, j: nat)
    requires
        j >= 1,
        n < pow128(j),
    ensures
        varint(n).len() <= j,
    decreases n,
{
    if n >= 128 {
        let p = pow128((j - 1) as nat);
        if j == 1 {
            assert(pow128(1) == 128) by {
                reveal_with_fuel(pow128, 2);
            }
        } else {
            assert(n / 128 < p) by (nonlinear_arith)
                requires
                    n < 128 * p,
            ;
            lemma_varint_len_bound(n / 128, (j - 1) as nat);
        }
    }
}

/// Facts about `varint(n)`: it is not empty, its last byte alone lacks the
/// high bit, and its groups add up to `n`.
pub proof fn lemma_varint_shape(n: nat)
    ensures
        varint(n).len() >= 1,
        varint_value(varint(n)) == n,
        forall|rest: Seq<u8>| #[trigger] varint_len(varint(n) + rest) == varint(n).len(),
    decreases n,
{
    if n < 128 {
        assert forall|rest: Seq<u8>| #[trigger] varint_len(varint(n) + rest) == varint(
            n,
        ).len() by {
            assert((varint(n) + rest)[0] == n as u8);
        }
        assert(varint(n).drop_first() =~= Seq::<u8>::empty());
        assert(varint_value(Seq::<u8>::empty()) == 0);
    } else {
        let b = (n % 128 + 128) as u8;
        lemma_varint_shape(n / 128);
        assert(varint(n) == seq![b] + varint(n / 128));
        assert(varint(n).drop_first() =~= varint(n / 128));
        assert(b >= 128);
        assert forall|rest: Seq<u8>| #[trigger] varint_len(varint(n) + rest) == varint(
            n,
        ).len() by {
            let s = varint(n) + rest;
            assert(s[0] == b);
            assert(s.drop_first() =~= varint(n / 128) + rest);
            assert(varint_len(varint(n / 128) + rest) == varint(n / 128).len());
        }
        assert(b % 128 == n % 128);
        assert(n == n % 128 + 128 * (n / 128)) by (nonlinear_arith);
    }
}

/// A varint written for a `u64` is read back whole, whatever follows it.
pub proof fn lemma_varint_round_trip(n: u64, rest: Seq<u8>)
    ensures
        varint(n as nat).len() <= MAX_VARINT_LEN,
        varint_decode(varint(n as nat) + rest) == Some((n as nat, varint(n as nat).len())),
{
    lemma_varint_shape(n as nat);
    assert(pow128(10) == 1180591620717411303424) by {
        reveal_with_fuel(pow128, 11);
    }
    lemma_varint_len_bound(n as nat, 10);
    let s = varint(n as nat) + rest;
    assert(s.take(varint(n as nat).len() as int) =~= varint(n as nat));
}

/// A length that fits a `u32` takes at most five bytes.
pub proof fn lemma_varint_len_u32(n: nat)
    requires
        n <= u32::MAX,
    ensures
        1 <= varint(n).len() <= 5,
{
    assert(pow128(5) == 34359738368) by {
        reveal_with_fuel(pow128, 6);
    }
    lemma_varint_len_bound(n, 5);
    lemma_varint_shape(n);
}

/// A varint cut short after `j` of its bytes and followed by a zero byte
/// reads as a varint of `j + 1` bytes whose value is at most `n`.
pub proof fn lemma_varint_truncated(n: nat, j: nat, rest: Seq<u8>)
    requires
        j < varint(n).len(),
        rest.len() >= 1,
        rest[0] == 0,
    ensures
        varint_len(varint(n).take(j as int) + rest) == j + 1,
        varint_value((varint(n).take(j as int) + rest).take(j + 1 as int)) <= n,
    decreases n,
{
    let s = varint(n).take(j as int) + rest;
    if j == 0 {
        assert(s =~= rest);
        assert(s.take(1).drop_first() =~= Seq::<u8>::empty());
        assert(varint_value(Seq::<u8>::empty()) == 0);
    } else {
        lemma_varint_shape(n);
        if n < 128 {
            assert(varint(n).len() == 1);
        }
        let b = (n % 128 + 128) as u8;
        assert(varint(n) == seq![b] + varint(n / 128));
        lemma_varint_truncated(n / 128, (j - 1) as nat, rest);
        let t = varint(n / 128).take(j - 1) + rest;
        assert(s[0] == b);
        assert(s.drop_first() =~= t);
        assert(s.take(j + 1 as int).drop_first() =~= t.take(j as int));
        assert(s.take(j + 1 as int)[0] == b);
        let vt = varint_value(t.take(j as int));
        assert(vt <= n / 128);
        assert((b % 128) as nat + 128 * vt <= n) by (nonlinear_arith)
            requires
                vt <= n / 128,
                b % 128 == n % 128,
        ;
    }
}

/// A decoded varint takes at least one byte and no more than the input.
pub proof fn lemma_varint_decode_len(s: Seq<u8>, v: nat, k: nat)
    requires
        varint_decode(s) == Some((v, k)),
    ensures
        1 <= k <= s.len(),
        k <= MAX_VARINT_LEN,
{
    lemma_varint_len_take(s, k);
}

/// Appends the varint of `n` to `out`.
pub fn encode_varint(n: u64, out: &mut Vec<u8>)
    ensures
        final(out)@ == old(out)@ + varint(n as nat),
{
    let ghost start = out@;
    let mut v: u64 = n;
    while v >= 128
        invariant
            out@ + varint(v as nat) == start + varint(n as nat),
        decreases v,
    {
        let b: u8 = (v % 128 + 128) as u8;
        assert(varint(v as nat) == seq![b] + varint((v / 128) as nat));
        out.push(b);
        assert(out@ + varint((v / 128) as nat) =~= start + varint(n as nat));
        v = v / 128;
    }
    out.push(v as u8);
    assert(varint(v as nat) == seq![v as u8]);
    assert(out@ =~= start + varint(n as nat));
}

/// Number of bytes in the varint of `n`.
pub fn varint_size(n: u64) -> (r: usize)
    ensures
        r == varint(n as nat).len(),
        1 <= r <= MAX_VARINT_LEN,
{
    proof {
        lemma_varint_round_trip(n, Seq::empty());
        lemma_varint_shape(n as nat);
    }
    let mut v: u64 = n;
    let mut r: usize = 1;
    while v >= 128
        invariant
            r + varint(v as nat).len() == varint(n as nat).len() + 1,
            varint(n as nat).len() <= MAX_VARINT_LEN,
            r >= 1,
        decreases v,
    {
        proof {
            lemma_varint_shape((v / 128) as nat);
        }
        v = v / 128;
        r = r + 1;
    }
    r
}

proof fn lemma_varint_len_take(s: Seq<u8>, k: nat)
    requires
        varint_len(s) == k,
        k > 0,
    ensures
        k <= s.len(),
        s[k - 1] < 128,
        forall|i: int| 0 <= i < k - 1 ==> s[i] >= 128,
    decreases s.len(),
{
    if s[0] >= 128 {
        lemma_varint_len_take(s.drop_first(), (k - 1) as nat);
        assert forall|i: int| 0 <= i < k - 1 implies s[i] >= 128 by {
            if i > 0 {
                assert(s[i] == s.drop_first()[i - 1]);
            }
        }
    }
}

proof fn lemma_varint_len_none(s: Seq<u8>, j: int)
    requires
        0 <= j <= s.len(),
        forall|i: int| 0 <= i < j ==> s[i] >= 128,
    ensures
        varint_len(s) == 0 || varint_len(s) > j,
    decreases s.len(),
{
    if j > 0 {
        assert forall|i: int| 0 <= i < j - 1 implies s.drop_first()[i] >= 128 by {
            assert(s.drop_first()[i] == s[i + 1]);
        }
        lemma_varint_len_none(s.drop_first(), j - 1);
    }
}

proof fn lemma_varint_len_found(s: Seq<u8>, j: int)
    requires
        0 <= j < s.len(),
        s[j] < 128,
        forall|i: int| 0 <= i < j ==> s[i] >= 128,
    ensures
        varint_len(s) == j + 1,
    decreases s.len(),
{
    if j > 0 {
        assert forall|i: int| 0 <= i < j - 1 implies s.drop_first()[i] >= 128 by {
            assert(s.drop_first()[i] == s[i + 1]);
        }
        lemma_varint_len_found(s.drop_first(), j - 1);
    }
}

proof fn lemma_varint_value_step(s: Seq<u8>, i: int, k: int)
    requires
        0 <= i < k <= s.len(),
    ensures
        varint_value(s.subrange(i, k)) == (s[i] % 128) as nat + 128 * varint_value(
            s.subrange(i + 1, k),
        ),
{
    assert(s.subrange(i, k).drop_first() =~= s.subrange(i + 1, k));
}

proof fn lemma_varint_value_suffix(s: Seq<u8>, i: int, k: int)
    requires
        0 <= i <= k <= s.len(),
    ensures
        varint_value(s.subrange(i, k)) <= varint_value(s.subrange(0, k)),
    decreases i,
{
    if i > 0 {
        lemma_varint_value_step(s, i - 1, k);
        lemma_varint_value_suffix(s, i - 1, k);
    }
}

/// Reads the varint that starts at `buf[start]`.
pub fn decode_varint(buf: &[u8], start: usize) -> (r: Option<(u64, usize)>)
    requires
        start <= buf@.len(),
    ensures
        match r {
            Some((v, k)) => varint_decode(buf@.subrange(start as int, buf@.len() as int)) == Some(
                (v as nat, k as nat),
            ),
            None => varint_decode(buf@.subrange(start as int, buf@.len() as int)) is None,
        },
{
    let ghost s = buf@.subrange(start as int, buf@.len() as int);
    let total = buf.len();
    let n = total - start;
    let limit: usize = if n < MAX_VARINT_LEN {
        n
    } else {
        MAX_VARINT_LEN
    };
    // find the terminating byte
    let mut j: usize = 0;
    while j < limit && buf[start + j] >= 128
        invariant
            start <= buf@.len(),
            total == buf@.len(),
            limit <= n,
            n == buf@.len() - start,
            limit <= MAX_VARINT_LEN,
            j <= limit,
            s == buf@.subrange(start as int, buf@.len() as int),
            forall|i: int| 0 <= i < j ==> s[i] >= 128,
        decreases limit - j,
    {
        j = j + 1;
    }
    if j == limit {
        proof {
            lemma_varint_len_none(s, j as int);
            if varint_len(s) > 0 {
                lemma_varint_len_take(s, varint_len(s));
            }
        }
        return None;
    }
    proof {
        lemma_varint_len_found(s, j as int);
    }
    let k: usize = j + 1;
    assert(s.take(k as int) =~= s.subrange(0, k as int));
    // sum the groups, most significant first
    let mut v: u128 = 0;
    let mut i: usize = k;
    assert(s.subrange(k as int, k as int) =~= Seq::<u8>::empty());
    while i > 0
        invariant
            start <= buf@.len(),
            total == buf@.len(),
            k <= n,
            0 < k <= MAX_VARINT_LEN,
            varint_len(s) == k,
            s.take(k as int) =~= s.subrange(0, k as int),
            n == buf@.len() - start,
            i <= k,
            s == buf@.subrange(start as int, buf@.len() as int),
            v == varint_value(s.subrange(i as int, k as int)),
            v <= u64::MAX,
        decreases i,
    {
        let b = buf[start + i - 1];
        proof {
            lemma_varint_value_step(s, i - 1, k as int);
        }
        let next: u128 = (b % 128) as u128 + 128 * v;
        if next > u64::MAX as u128 {
            proof {
                assert(s[i - 1] == b);
                lemma_varint_value_suffix(s, i - 1, k as int);
                assert(varint_value(s.take(k as int)) > u64::MAX);
            }
            return None;
        }
        v = next;
        i = i - 1;
    }
    assert(s.subrange(0, k as int) =~= s.take(k as int));
    Some((v as u64, k))
}

} // verus!
