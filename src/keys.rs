//! The order of keys: lexicographic over bytes, a shorter key before every
//! longer key that it starts.

use vstd::prelude::*;

verus! {

/// `a` sorts strictly before `b`.
pub open spec fn key_lt(a: Seq<u8>, b: Seq<u8>) -> bool
    decreases a.len(),
{
    if a.len() == 0 {
        b.len() > 0
    } else if b.len() == 0 {
        false
    } else if a[0] != b[0] {
        a[0] < b[0]
    } else {
        key_lt(a.drop_first(), b.drop_first())
    }
}

/// `a` begins with the bytes of `p`.
pub open spec fn has_prefix(a: Seq<u8>, p: Seq<u8>) -> bool {
    p.len() <= a.len() && a.take(p.len() as int) == p
}

pub proof fn lemma_key_lt_irreflexive(a: Seq<u8>)
    ensures
        !key_lt(a, a),
    decreases a.len(),
{
    if a.len() > 0 {
        lemma_key_lt_irreflexive(a.drop_first());
    }
}

pub proof fn lemma_key_lt_asymmetric(a: Seq<u8>, b: Seq<u8>)
    requires
        key_lt(a, b),
    ensures
        !key_lt(b, a),
    decreases a.len(),
{
    if a.len() > 0 && b.len() > 0 && a[0] == b[0] {
        lemma_key_lt_asymmetric(a.drop_first(), b.drop_first());
    }
}

pub proof fn lemma_key_lt_total(a: Seq<u8>, b: Seq<u8>)
    ensures
        a == b || key_lt(a, b) || key_lt(b, a),
    decreases a.len(),
{
    if a.len() > 0 && b.len() > 0 && a[0] == b[0] {
        lemma_key_lt_total(a.drop_first(), b.drop_first());
        if a.drop_first() == b.drop_first() {
            assert(a =~= seq![a[0]] + a.drop_first());
            assert(b =~= seq![b[0]] + b.drop_first());
        }
    } else if a.len() == 0 && b.len() == 0 {
        assert(a =~= b);
    }
}

pub proof fn lemma_key_lt_transitive(a: Seq<u8>, b: Seq<u8>, c: Seq<u8>)
    requires
        key_lt(a, b),
        key_lt(b, c),
    ensures
        key_lt(a, c),
    decreases a.len(),
{
    if a.len() > 0 && b.len() > 0 && c.len() > 0 && a[0] == b[0] && b[0] == c[0] {
        lemma_key_lt_transitive(a.drop_first(), b.drop_first(), c.drop_first());
    }
}

/// Everything about the order that proofs over sorted keys use.
pub proof fn lemma_key_order()
    ensures
        forall|a: Seq<u8>| !#[trigger] key_lt(a, a),
        forall|a: Seq<u8>, b: Seq<u8>| #[trigger] key_lt(a, b) ==> !key_lt(b, a),
        forall|a: Seq<u8>, b: Seq<u8>| a != b ==> #[trigger] key_lt(a, b) || #[trigger] key_lt(b, a),
        forall|a: Seq<u8>, b: Seq<u8>, c: Seq<u8>|
            #[trigger] key_lt(a, b) && #[trigger] key_lt(b, c) ==> key_lt(a, c),
{
    assert forall|a: Seq<u8>| !#[trigger] key_lt(a, a) by {
        lemma_key_lt_irreflexive(a);
    }
    assert forall|a: Seq<u8>, b: Seq<u8>| #[trigger] key_lt(a, b) implies !key_lt(b, a) by {
        lemma_key_lt_asymmetric(a, b);
    }
    assert forall|a: Seq<u8>, b: Seq<u8>| a != b implies #[trigger] key_lt(a, b) || #[trigger] key_lt(
        b,
        a,
    ) by {
        lemma_key_lt_total(a, b);
    }
    assert forall|a: Seq<u8>, b: Seq<u8>, c: Seq<u8>|
        #[trigger] key_lt(a, b) && #[trigger] key_lt(b, c) implies key_lt(a, c) by {
        lemma_key_lt_transitive(a, b, c);
    }
}

/// Three-way comparison: negative, zero or positive as `a` sorts before,
/// equal to or after `b`.
pub fn compare_keys(a: &[u8], b: &[u8]) -> (r: i8)
    ensures
        r < 0 <==> key_lt(a@, b@),
        r == 0 <==> a@ == b@,
        r > 0 <==> key_lt(b@, a@),
{
    proof {
        lemma_key_order();
    }
    let mut i: usize = 0;
    assert(a@.skip(0) =~= a@);
    assert(b@.skip(0) =~= b@);
    while i < a.len() && i < b.len() && a[i] == b[i]
        invariant
            i <= a@.len(),
            i <= b@.len(),
            a@.take(i as int) == b@.take(i as int),
            key_lt(a@, b@) == key_lt(a@.skip(i as int), b@.skip(i as int)),
            (a@ == b@) == (a@.skip(i as int) == b@.skip(i as int)),
        decreases a@.len() - i,
    {
        proof {
            let sa = a@.skip(i as int);
            let sb = b@.skip(i as int);
            assert(sa.drop_first() =~= a@.skip(i + 1));
            assert(sb.drop_first() =~= b@.skip(i + 1));
            assert(a@.take(i + 1) =~= a@.take(i as int).push(a@[i as int]));
            assert(b@.take(i + 1) =~= b@.take(i as int).push(b@[i as int]));
            if sa.drop_first() == sb.drop_first() {
                assert(sa =~= seq![sa[0]] + sa.drop_first());
                assert(sb =~= seq![sb[0]] + sb.drop_first());
            }
        }
        i = i + 1;
    }
    proof {
        assert(a@ =~= a@.take(i as int) + a@.skip(i as int));
        assert(b@ =~= b@.take(i as int) + b@.skip(i as int));
    }
    if i < a.len() && i < b.len() {
        if a[i] < b[i] {
            -1
        } else {
            1
        }
    } else if a.len() == b.len() {
        proof {
            assert(a@.skip(i as int) =~= b@.skip(i as int));
        }
        0
    } else if i == a.len() {
        -1
    } else {
        1
    }
}

/// Whether `key` begins with `prefix`.
pub fn starts_with(key: &[u8], prefix: &[u8]) -> (r: bool)
    ensures
        r == has_prefix(key@, prefix@),
{
    if prefix.len() > key.len() {
        return false;
    }
    let mut i: usize = 0;
    while i < prefix.len()
        invariant
            prefix@.len() <= key@.len(),
            i <= prefix@.len(),
            key@.take(i as int) == prefix@.take(i as int),
        decreases prefix@.len() - i,
    {
        if key[i] != prefix[i] {
            assert(key@.take(prefix@.len() as int)[i as int] != prefix@[i as int]);
            return false;
        }
        i = i + 1;
        assert(key@.take(i as int) =~= prefix@.take(i as int));
    }
    assert(prefix@.take(i as int) =~= prefix@);
    true
}

} // verus!
