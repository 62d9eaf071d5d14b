//! Keys as stored on disk: the record's transaction sequence number as a
//! varint, followed by the key itself.

use vstd::prelude::*;

use crate::log_record::append_bytes;
use crate::varint::{decode_varint, encode_varint, lemma_varint_decode_len, lemma_varint_round_trip, varint, varint_decode};

verus! {

/// Sequence number of records written outside any write batch.
pub const NON_TRANSACTION_SEQ_NUMBER: u64 = 0;

/// The stored form of `key` under sequence number `seq`.
pub open spec fn seq_key(key: Seq<u8>, seq: nat) -> Seq<u8> {
    varint(seq) + key
}

/// The sequence number and key that a stored key holds.
pub open spec fn seq_key_parse(stored: Seq<u8>) -> Option<(u64, Seq<u8>)> {
    match varint_decode(stored) {
        None => None,
        Some((s, n)) => Some((s as u64, stored.subrange(n as int, stored.len() as int))),
    }
}

/// A stored key splits back into the sequence number and key it was made
/// of.
pub proof fn lemma_seq_key_round_trip(key: Seq<u8>, seq: u64)
    ensures
        seq_key_parse(seq_key(key, seq as nat)) == Some((seq, key)),
        varint(seq as nat).len() <= 10,
{
    lemma_varint_round_trip(seq, key);
    let s = seq_key(key, seq as nat);
    assert(s.subrange(varint(seq as nat).len() as int, s.len() as int) =~= key);
}

/// `key` prefixed with the varint of `sequence_number`.
pub fn get_record_sequence_number_with_key(key: &[u8], sequence_number: u64) -> (r: Vec<u8>)
    ensures
        r@ == seq_key(key@, sequence_number as nat),
{
    let mut buf: Vec<u8> = Vec::new();
    encode_varint(sequence_number, &mut buf);
    append_bytes(&mut buf, key);
    assert(buf@ =~= seq_key(key@, sequence_number as nat));
    buf
}

/// Splits a stored key into its sequence number and the key.
pub fn parse_record_sequence_number_with_key(stored: &[u8]) -> (r: Option<(u64, Vec<u8>)>)
    ensures
        match r {
            None => seq_key_parse(stored@) is None,
            Some((s, k)) => seq_key_parse(stored@) == Some((s, k@)),
        },
{
    assert(stored@.subrange(0, stored@.len() as int) =~= stored@);
    match decode_varint(stored, 0) {
        None => None,
        Some((s, n)) => {
            proof {
                lemma_varint_decode_len(stored@, s as nat, n as nat);
            }
            let k = crate::log_record::copy_range(stored, n, stored.len());
            Some((s, k))
        },
    }
}

} // verus!
