//! Log records and their on-disk encoding:
//!
//! ```text
//! +------+---------+-----------+-----+-------+--------+
//! | type | key_len | value_len | key | value | crc32  |
//! +------+---------+-----------+-----+-------+--------+
//!   1 B    varint    varint      k B   v B     4 B BE
//! ```
//!
//! The CRC covers every byte before it.

use vstd::prelude::*;

use crate::varint::{encode_varint, decode_varint, varint, varint_decode, lemma_varint_round_trip};

verus! {

/// The CRC-32 (IEEE polynomial) of a byte sequence.
pub uninterp spec fn crc32_of(data: Seq<u8>) -> u32;

/// Relies on `crc32fast::hash`: the CRC-32 (IEEE) of `data`, which depends on
/// the bytes alone.
#[verifier::external_body]
fn checksum(data: &[u8]) -> (r: u32)
    ensures
        r == crc32_of(data@),
{
    crc32fast::hash(data)
}

/// Longest key a record can carry: on disk a key has a sequence number of
/// up to ten bytes in front of it, and that stored key's length must fit a
/// `u32`.
pub const MAX_KEY_LEN: usize = 4294967285;

/// Longest value a record can carry: its length must fit a `u32`.
pub const MAX_VALUE_LEN: usize = 4294967295;

/// Where a record starts: a data file and a byte offset in it.
#[derive(Copy, Clone, Debug, PartialEq, Eq, Structural)]
pub struct LogRecordPos {
    pub file_id: u32,
    pub offset: u64,
}

/// The kind of a record, stored as one byte.
#[derive(Copy, Clone, Debug, PartialEq, Eq, Structural)]
pub enum LogRecordType {
    Normal,
    Deleted,
    TxnFinished,
}

/// The kind that a stored byte stands for, if any.
pub open spec fn record_type_of(b: u8) -> Option<LogRecordType> {
    if b == 1 {
        Some(LogRecordType::Normal)
    } else if b == 2 {
        Some(LogRecordType::Deleted)
    } else if b == 3 {
        Some(LogRecordType::TxnFinished)
    } else {
        None
    }
}

impl LogRecordType {
    /// The byte that stands for this kind on disk.
    pub open spec fn byte(self) -> u8 {
        match self {
            LogRecordType::Normal => 1,
            LogRecordType::Deleted => 2,
            LogRecordType::TxnFinished => 3,
        }
    }

    pub fn to_byte(self) -> (r: u8)
        ensures
            r == self.byte(),
            record_type_of(r) == Some(self),
    {
        match self {
            LogRecordType::Normal => 1,
            LogRecordType::Deleted => 2,
            LogRecordType::TxnFinished => 3,
        }
    }

    /// The kind for a stored byte; any byte but 1, 2 and 3 is refused.
    pub fn from_byte(b: u8) -> (r: Option<LogRecordType>)
        ensures
            r == record_type_of(b),
    {
        if b == 1 {
            Some(LogRecordType::Normal)
        } else if b == 2 {
            Some(LogRecordType::Deleted)
        } else if b == 3 {
            Some(LogRecordType::TxnFinished)
        } else {
            None
        }
    }
}

/// One unit of the log.
#[derive(Debug)]
pub struct LogRecord {
    pub key: Vec<u8>,
    pub value: Vec<u8>,
    pub rec_type: LogRecordType,
}

/// A record read from a data file, with the number of bytes it takes there.
#[derive(Debug)]
pub struct ReadLogRecord {
    pub record: LogRecord,
    pub size: u64,
}

/// A record of an unfinished transaction, held back until its end marker.
#[derive(Debug)]
pub struct TransactionRecord {
    pub record: LogRecord,
    pub position: LogRecordPos,
}

/// The bytes that the checksum covers: type, both lengths, key and value.
pub open spec fn record_body(ty: LogRecordType, key: Seq<u8>, value: Seq<u8>) -> Seq<u8> {
    seq![ty.byte()] + varint(key.len()) + varint(value.len()) + key + value
}

/// Most bytes a record header can take: the type byte and two lengths that
/// fit a `u32`.
pub fn max_log_record_header_size() -> (r: usize)
    ensures
        r == 1 + 2 * varint(u32::MAX as nat).len(),
        r <= 11,
{
    proof {
        crate::varint::lemma_varint_len_u32(u32::MAX as nat);
    }
    1 + 2 * crate::varint::varint_size(u32::MAX as u64)
}

/// Big-endian bytes of a `u32`.
pub open spec fn u32_be_bytes(x: u32) -> Seq<u8> {
    seq![(x >> 24u32) as u8, (x >> 16u32) as u8, (x >> 8u32) as u8, x as u8]
}

/// The `u32` whose big-endian bytes open `b`.
pub open spec fn u32_from_be(b: Seq<u8>) -> u32 {
    ((b[0] as u32) << 24u32) | ((b[1] as u32) << 16u32) | ((b[2] as u32) << 8u32) | (b[3] as u32)
}

/// The full encoding of a record: its body followed by the body's CRC.
pub open spec fn record_bytes(ty: LogRecordType, key: Seq<u8>, value: Seq<u8>) -> Seq<u8> {
    record_body(ty, key, value) + u32_be_bytes(crc32_of(record_body(ty, key, value)))
}

/// Size of the header of a record: type byte and both lengths.
pub open spec fn header_len(key_len: nat, value_len: nat) -> nat {
    1 + varint(key_len).len() + varint(value_len).len()
}

pub proof fn lemma_u32_be_round_trip(x: u32)
    ensures
        u32_from_be(u32_be_bytes(x)) == x,
{
    let b0 = (x >> 24u32) as u8;
    let b1 = (x >> 16u32) as u8;
    let b2 = (x >> 8u32) as u8;
    let b3 = x as u8;
    assert(((b0 as u32) << 24u32) | ((b1 as u32) << 16u32) | ((b2 as u32) << 8u32) | (b3 as u32)
        == x) by (bit_vector)
        requires
            b0 == (x >> 24u32) as u8,
            b1 == (x >> 16u32) as u8,
            b2 == (x >> 8u32) as u8,
            b3 == x as u8,
    ;
}

/// Appends the bytes of `src` to `out`.
pub fn append_bytes(out: &mut Vec<u8>, src: &[u8])
    ensures
        final(out)@ == old(out)@ + src@,
{
    let ghost start = out@;
    let mut i: usize = 0;
    while i < src.len()
        invariant
            i <= src@.len(),
            out@ == start + src@.take(i as int),
        decreases src@.len() - i,
    {
        out.push(src[i]);
        i = i + 1;
        assert(out@ =~= start + src@.take(i as int));
    }
    assert(src@.take(i as int) =~= src@);
}

/// Copies `src[from..to]` into a new vector.
pub fn copy_range(src: &[u8], from: usize, to: usize) -> (r: Vec<u8>)
    requires
        from <= to <= src@.len(),
    ensures
        r@ == src@.subrange(from as int, to as int),
{
    let mut r: Vec<u8> = Vec::new();
    let mut i: usize = from;
    while i < to
        invariant
            from <= i <= to,
            to <= src@.len(),
            r@ == src@.subrange(from as int, i as int),
        decreases to - i,
    {
        r.push(src[i]);
        i = i + 1;
        assert(r@ =~= src@.subrange(from as int, i as int));
    }
    r
}

/// Reads the big-endian `u32` at `b[at..at + 4]`.
pub fn read_u32_be(b: &[u8], at: usize) -> (r: u32)
    requires
        at + 4 <= b@.len(),
    ensures
        r == u32_from_be(b@.subrange(at as int, at + 4)),
{
    let b0 = b[at] as u32;
    let b1 = b[at + 1] as u32;
    let b2 = b[at + 2] as u32;
    let b3 = b[at + 3] as u32;
    (b0 << 24u32) | (b1 << 16u32) | (b2 << 8u32) | b3
}

impl LogRecordPos {
    /// Bytes of a position: the varint of the file id, then that of the
    /// offset.
    pub open spec fn spec_encode(self) -> Seq<u8> {
        varint(self.file_id as nat) + varint(self.offset as nat)
    }

    pub fn encode(&self) -> (r: Vec<u8>)
        ensures
            r@ == self.spec_encode(),
    {
        let mut buf: Vec<u8> = Vec::new();
        encode_varint(self.file_id as u64, &mut buf);
        encode_varint(self.offset, &mut buf);
        assert(buf@ =~= self.spec_encode());
        buf
    }
}

/// The position that `b` encodes: two varints, the first no larger than a
/// `u32`, and nothing after them.
pub open spec fn pos_decode(b: Seq<u8>) -> Option<LogRecordPos> {
    match varint_decode(b) {
        None => None,
        Some((f, n)) => match varint_decode(b.subrange(n as int, b.len() as int)) {
            None => None,
            Some((o, m)) => if f <= u32::MAX && n + m == b.len() {
                Some(LogRecordPos { file_id: f as u32, offset: o as u64 })
            } else {
                None
            },
        },
    }
}

/// Reads a position written by `LogRecordPos::encode`.
pub fn decode_log_record_pos(buf: &[u8]) -> (r: Option<LogRecordPos>)
    ensures
        r == pos_decode(buf@),
{
    assert(buf@.subrange(0, buf@.len() as int) =~= buf@);
    let (f, n) = match decode_varint(buf, 0) {
        None => return None,
        Some(p) => p,
    };
    proof {
        crate::varint::lemma_varint_decode_len(buf@, f as nat, n as nat);
    }
    let (o, m) = match decode_varint(buf, n) {
        None => return None,
        Some(p) => p,
    };
    proof {
        crate::varint::lemma_varint_decode_len(buf@.subrange(n as int, buf@.len() as int), o as nat, m as nat);
    }
    if f <= u32::MAX as u64 && n + m == buf.len() {
        Some(LogRecordPos { file_id: f as u32, offset: o })
    } else {
        None
    }
}

/// A position's bytes decode back to it.
pub proof fn lemma_pos_round_trip(p: LogRecordPos)
    ensures
        pos_decode(p.spec_encode()) == Some(p),
{
    let a = varint(p.file_id as nat);
    let b = varint(p.offset as nat);
    lemma_varint_round_trip(p.file_id as u64, b);
    lemma_varint_round_trip(p.offset, Seq::empty());
    assert((a + b).subrange(a.len() as int, (a + b).len() as int) =~= b + Seq::<u8>::empty());
}

impl LogRecord {
    /// The bytes of this record on disk.
    pub open spec fn spec_bytes(&self) -> Seq<u8> {
        record_bytes(self.rec_type, self.key@, self.value@)
    }

    /// Encodes the record for the log.
    pub fn encode(&self) -> (r: Vec<u8>)
        ensures
            r@ == self.spec_bytes(),
    {
        self.encode_and_get_crc().0
    }

    /// The CRC of the record's type, lengths, key and value.
    pub fn get_crc(&self) -> (r: u32)
        ensures
            r == crc32_of(record_body(self.rec_type, self.key@, self.value@)),
    {
        self.encode_and_get_crc().1
    }

    fn encode_and_get_crc(&self) -> (r: (Vec<u8>, u32))
        ensures
            r.0@ == self.spec_bytes(),
            r.1 == crc32_of(record_body(self.rec_type, self.key@, self.value@)),
    {
        let mut buf: Vec<u8> = Vec::new();
        buf.push(self.rec_type.to_byte());
        encode_varint(self.key.len() as u64, &mut buf);
        encode_varint(self.value.len() as u64, &mut buf);
        append_bytes(&mut buf, self.key.as_slice());
        append_bytes(&mut buf, self.value.as_slice());
        assert(buf@ =~= record_body(self.rec_type, self.key@, self.value@));
        let crc = checksum(buf.as_slice());
        buf.push((crc >> 24u32) as u8);
        buf.push((crc >> 16u32) as u8);
        buf.push((crc >> 8u32) as u8);
        buf.push(crc as u8);
        assert(buf@ =~= self.spec_bytes());
        (buf, crc)
    }

    /// Number of bytes of the encoded record.
    pub fn encoded_length(&self) -> (r: u64)
        requires
            self.key@.len() + self.value@.len() + 25 <= u64::MAX,
        ensures
            r == self.spec_bytes().len(),
    {
        let k = self.key.len() as u64;
        let v = self.value.len() as u64;
        let h = 1 + crate::varint::varint_size(k) + crate::varint::varint_size(v);
        h as u64 + k + v + 4
    }
}

} // verus!
