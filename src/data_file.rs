//! Reading records back out of a data file, and the names and small
//! records of the files that make up a store's directory.

use vstd::prelude::*;

use crate::decimal::{decimal_parse, parse_decimal, zero_padded, zero_padded_decimal};
use crate::errors::Errors;
use crate::log_record::{
    copy_range, crc32_of, header_len, lemma_u32_be_round_trip, read_u32_be, record_body,
    record_bytes, record_type_of, u32_be_bytes, u32_from_be, LogRecord, LogRecordType,
    ReadLogRecord,
};
use crate::varint::{decode_varint, lemma_varint_decode_len, lemma_varint_round_trip, varint, varint_decode};

verus! {

/// Suffix of the name of every data file.
pub const DATA_FILE_NAME_SUFFIX: &'static str = ".data";

/// Name of the hint file that a merge writes.
pub const HINT_FILE_NAME: &'static str = "hint-index";

/// Name of the file that marks a finished merge.
pub const MERGE_FINISHED_FILE_NAME: &'static str = "merge-finished";

/// Name of the file that keeps the sequence number across a clean close.
pub const SEQUENCE_NUMBER_FILE_NAME: &'static str = "sequence.number.file";

/// Digits in the number of a data file's name.
pub const DATA_FILE_ID_WIDTH: usize = 9;

/// Most bytes a record header takes: the type byte and two lengths of at
/// most five bytes each.
pub const MAX_HEADER_SIZE: usize = 11;

/// Key of the record in the merge-finished file.
pub const MERGE_FINISHED_KEY: &'static str = "merge.finished";

/// Key of the record in the sequence-number file.
pub const SEQUENCE_NUMBER_KEY: &'static str = "sequence.number";

/// The header of a record: its type byte, both lengths and its own size.
#[derive(Copy, Clone, Debug, PartialEq, Eq, Structural)]
pub struct RecordHeader {
    pub rec_type: u8,
    pub key_len: usize,
    pub value_len: usize,
    pub header_size: usize,
}

/// What a header buffer holds as `(type byte, key length, value length,
/// header size)`. Two zero lengths mark the end of the written part of a
/// file: a header read past the end is filled with zeros.
pub open spec fn header_parse(buf: Seq<u8>) -> Result<(u8, nat, nat, nat), Errors> {
    if buf.len() == 0 {
        Err(Errors::ReadDataFileEof)
    } else {
        match varint_decode(buf.drop_first()) {
            None => Err(Errors::InvalidLogRecordCrc),
            Some((k, n1)) => match varint_decode(buf.subrange(1 + n1 as int, buf.len() as int)) {
                None => Err(Errors::InvalidLogRecordCrc),
                Some((v, n2)) => if k == 0 && v == 0 {
                    Err(Errors::ReadDataFileEof)
                } else if k > u32::MAX || v > u32::MAX {
                    Err(Errors::InvalidLogRecordCrc)
                } else {
                    Ok((buf[0], k, v, 1 + n1 + n2))
                },
            },
        }
    }
}

/// What the bytes after a header hold: key, value and CRC. A bad type byte
/// or a checksum that does not match the rest is an integrity error.
pub open spec fn record_parse(type_byte: u8, key_len: nat, value_len: nat, body: Seq<u8>) -> Result<
    (LogRecordType, Seq<u8>, Seq<u8>),
    Errors,
> {
    if body.len() != key_len + value_len + 4 {
        Err(Errors::InvalidLogRecordCrc)
    } else {
        match record_type_of(type_byte) {
            None => Err(Errors::InvalidLogRecordCrc),
            Some(ty) => {
                let key = body.take(key_len as int);
                let value = body.subrange(key_len as int, key_len + value_len as int);
                let stored = u32_from_be(body.subrange(key_len + value_len as int, body.len() as int));
                if crc32_of(record_body(ty, key, value)) == stored {
                    Ok((ty, key, value))
                } else {
                    Err(Errors::InvalidLogRecordCrc)
                }
            },
        }
    }
}

/// The `MAX_HEADER_SIZE` bytes of `file` at `off`, zeros past its end.
pub open spec fn header_window(file: Seq<u8>, off: nat) -> Seq<u8> {
    Seq::new(MAX_HEADER_SIZE as nat, |i: int| if off + i < file.len() { file[off + i] } else { 0u8 })
}

/// The record that starts at `off` in `file`, with the bytes it takes. A
/// record whose bytes run past the end of the file is a torn write and ends
/// the file, as does a header of two zero lengths.
#[verifier::opaque]
pub open spec fn record_at(file: Seq<u8>, off: nat) -> Result<(LogRecordType, Seq<u8>, Seq<u8>, nat), Errors> {
    match header_parse(header_window(file, off)) {
        Err(e) => Err(e),
        Ok((t, k, v, h)) => if off + h + k + v + 4 > file.len() {
            Err(Errors::ReadDataFileEof)
        } else {
            match record_parse(t, k, v, file.subrange(off + h as int, off + h + k + v + 4 as int)) {
                Err(e) => Err(e),
                Ok((ty, key, value)) => Ok((ty, key, value, h + k + v + 4)),
            }
        },
    }
}

/// The header of a record whose header bytes stand at `off` of a file is
/// read back there, whatever follows it.
pub proof fn lemma_header_at(file: Seq<u8>, off: nat, ty: LogRecordType, key: Seq<u8>, value: Seq<u8>)
    requires
        key.len() <= u32::MAX,
        value.len() <= u32::MAX,
        key.len() + value.len() > 0,
        off + header_len(key.len(), value.len()) <= file.len(),
        forall|i: int| 0 <= i < header_len(key.len(), value.len()) ==> #[trigger] file[off + i] == record_bytes(ty, key, value)[i],
    ensures
        header_parse(header_window(file, off)) == Ok::<(u8, nat, nat, nat), Errors>(
            (ty.byte(), key.len(), value.len(), header_len(key.len(), value.len())),
        ),
        header_len(key.len(), value.len()) <= MAX_HEADER_SIZE,
        record_bytes(ty, key, value).len() == header_len(key.len(), value.len()) + key.len() + value.len() + 4,
{
    let b = record_bytes(ty, key, value);
    let kl = key.len();
    let vl = value.len();
    let l1 = varint(kl).len();
    let l2 = varint(vl).len();
    crate::varint::lemma_varint_len_u32(kl);
    crate::varint::lemma_varint_len_u32(vl);
    let h = 1 + l1 + l2;
    let w = header_window(file, off);
    assert forall|i: int| 0 <= i < h implies #[trigger] w[i] == b[i] by {
        assert(w[i] == file[off + i]);
    }
    let r1 = w.subrange(1 + l1 as int, w.len() as int);
    assert(w.drop_first() =~= varint(kl) + r1) by {
        assert forall|i: int| 0 <= i < l1 implies w.drop_first()[i] == varint(kl)[i] by {
            assert(w[1 + i] == b[1 + i]);
        }
    }
    lemma_varint_round_trip(kl as u64, r1);
    let r2 = w.subrange(1 + l1 + l2 as int, w.len() as int);
    assert(r1 =~= varint(vl) + r2) by {
        assert forall|i: int| 0 <= i < l2 implies r1[i] == varint(vl)[i] by {
            assert(w[1 + l1 + i] == b[1 + l1 + i]);
        }
    }
    lemma_varint_round_trip(vl as u64, r2);
    assert(w.subrange(1 + l1 as int, w.len() as int) == r1);
    assert(w[0] == b[0]);
}

/// A record written at `off` of a file is read back whole there.
pub proof fn lemma_record_at(file: Seq<u8>, off: nat, ty: LogRecordType, key: Seq<u8>, value: Seq<u8>)
    requires
        key.len() <= u32::MAX,
        value.len() <= u32::MAX,
        key.len() + value.len() > 0,
        off + record_bytes(ty, key, value).len() <= file.len(),
        file.subrange(off as int, off + record_bytes(ty, key, value).len() as int) == record_bytes(ty, key, value),
    ensures
        record_at(file, off) == Ok::<(LogRecordType, Seq<u8>, Seq<u8>, nat), Errors>(
            (ty, key, value, record_bytes(ty, key, value).len()),
        ),
        record_bytes(ty, key, value).len() == header_len(key.len(), value.len()) + key.len() + value.len() + 4,
{
    let b = record_bytes(ty, key, value);
    let kl = key.len();
    let vl = value.len();
    crate::varint::lemma_varint_len_u32(kl);
    crate::varint::lemma_varint_len_u32(vl);
    let h = header_len(kl, vl);
    assert forall|i: int| 0 <= i < b.len() implies #[trigger] file[off + i] == b[i] by {
        assert(file.subrange(off as int, off + b.len() as int)[i] == file[off + i]);
    }
    lemma_header_at(file, off, ty, key, value);
    let crc = crc32_of(record_body(ty, key, value));
    reveal(record_at);
    let body = file.subrange(off + h as int, off + h + kl + vl + 4 as int);
    assert(body =~= b.subrange(h as int, b.len() as int));
    assert(body.take(kl as int) =~= key);
    assert(body.subrange(kl as int, kl + vl as int) =~= value);
    assert(body.subrange(kl + vl as int, body.len() as int) =~= u32_be_bytes(crc));
    lemma_u32_be_round_trip(crc);
}

/// The header window of a record cut short inside its header: every byte
/// the cut left, then zeros.
proof fn lemma_torn_header(file: Seq<u8>, off: nat, ty: LogRecordType, key: Seq<u8>, value: Seq<u8>, cut: nat)
    requires
        key.len() <= u32::MAX,
        value.len() <= u32::MAX,
        0 < cut < header_len(key.len(), value.len()),
        file.len() == off + cut,
        forall|i: int| 0 <= i < cut ==> #[trigger] file[off + i] == record_bytes(ty, key, value)[i],
    ensures
        match header_parse(header_window(file, off)) {
            Ok((t, k, v, hh)) => hh > cut,
            Err(e) => e == Errors::ReadDataFileEof,
        },
{
    let b = record_bytes(ty, key, value);
    let kl = key.len();
    let vl = value.len();
    crate::varint::lemma_varint_len_u32(kl);
    crate::varint::lemma_varint_len_u32(vl);
    let l1 = varint(kl).len();
    let w = header_window(file, off);
    if cut <= l1 {
        let rest = w.subrange(cut as int, w.len() as int);
        assert(w.drop_first() =~= varint(kl).take(cut - 1) + rest) by {
            assert forall|i: int| 0 <= i < cut - 1 implies w.drop_first()[i] == varint(kl)[i] by {
                assert(w[1 + i] == b[1 + i]);
            }
        }
        assert(rest[0] == 0);
        crate::varint::lemma_varint_truncated(kl, (cut - 1) as nat, rest);
        let d1 = w.drop_first();
        let k2 = crate::varint::varint_value(d1.take(cut as int));
        assert(crate::varint::varint_decode(d1) == Some((k2, cut)));
        let r2 = w.subrange(1 + cut as int, w.len() as int);
        assert(r2[0] == 0);
        assert(r2.take(1).drop_first() =~= Seq::<u8>::empty());
        assert(crate::varint::varint_value(Seq::<u8>::empty()) == 0);
        assert(crate::varint::varint_decode(r2) == Some((0nat, 1nat)));
    } else {
        let r1 = w.subrange(1 + l1 as int, w.len() as int);
        assert(w.drop_first() =~= varint(kl) + r1) by {
            assert forall|i: int| 0 <= i < l1 implies w.drop_first()[i] == varint(kl)[i] by {
                assert(w[1 + i] == b[1 + i]);
            }
        }
        lemma_varint_round_trip(kl as u64, r1);
        let j = (cut - 1 - l1) as nat;
        let rest = w.subrange(cut as int, w.len() as int);
        assert(r1 =~= varint(vl).take(j as int) + rest) by {
            assert forall|i: int| 0 <= i < j implies r1[i] == varint(vl)[i] by {
                assert(w[1 + l1 + i] == b[1 + l1 + i]);
            }
        }
        assert(rest[0] == 0);
        crate::varint::lemma_varint_truncated(vl, j, rest);
        let v2 = crate::varint::varint_value(r1.take(j + 1 as int));
        assert(crate::varint::varint_decode(r1) == Some((v2, j + 1)));
    }
}

/// A record cut short, as a crash in the middle of an append leaves it,
/// ends the file: it is not read as corrupt.
pub proof fn lemma_torn_record_ends_file(
    file: Seq<u8>,
    off: nat,
    ty: LogRecordType,
    key: Seq<u8>,
    value: Seq<u8>,
    cut: nat,
)
    requires
        key.len() <= u32::MAX,
        value.len() <= u32::MAX,
        key.len() + value.len() > 0,
        0 < cut < record_bytes(ty, key, value).len(),
        file.len() == off + cut,
        file.subrange(off as int, file.len() as int) == record_bytes(ty, key, value).take(cut as int),
    ensures
        record_at(file, off) == Err::<(LogRecordType, Seq<u8>, Seq<u8>, nat), Errors>(Errors::ReadDataFileEof),
{
    let b = record_bytes(ty, key, value);
    assert forall|i: int| 0 <= i < cut implies #[trigger] file[off + i] == b[i] by {
        assert(file.subrange(off as int, file.len() as int)[i] == file[off + i]);
    }
    if cut >= header_len(key.len(), value.len()) {
        lemma_header_at(file, off, ty, key, value);
    } else {
        lemma_torn_header(file, off, ty, key, value, cut);
    }
    reveal(record_at);
}

/// Reads a record header from `buf`, the bytes at a record's offset (zeros
/// past the end of the file).
pub fn parse_record_header(buf: &[u8]) -> (r: Result<RecordHeader, Errors>)
    ensures
        match r {
            Ok(h) => header_parse(buf@) == Ok::<(u8, nat, nat, nat), Errors>(
                (h.rec_type, h.key_len as nat, h.value_len as nat, h.header_size as nat),
            ) && h.header_size <= buf@.len(),
            Err(e) => header_parse(buf@) == Err::<(u8, nat, nat, nat), Errors>(e),
        },
{
    if buf.len() == 0 {
        return Err(Errors::ReadDataFileEof);
    }
    assert(buf@.subrange(1, buf@.len() as int) =~= buf@.drop_first());
    let (k, n1) = match decode_varint(buf, 1) {
        None => return Err(Errors::InvalidLogRecordCrc),
        Some(p) => p,
    };
    proof {
        lemma_varint_decode_len(buf@.drop_first(), k as nat, n1 as nat);
    }
    let (v, n2) = match decode_varint(buf, 1 + n1) {
        None => return Err(Errors::InvalidLogRecordCrc),
        Some(p) => p,
    };
    proof {
        lemma_varint_decode_len(buf@.subrange(1 + n1, buf@.len() as int), v as nat, n2 as nat);
    }
    if k == 0 && v == 0 {
        return Err(Errors::ReadDataFileEof);
    }
    if k > u32::MAX as u64 || v > u32::MAX as u64 {
        return Err(Errors::InvalidLogRecordCrc);
    }
    Ok(RecordHeader { rec_type: buf[0], key_len: k as usize, value_len: v as usize, header_size: 1 + n1 + n2 })
}

/// Reads the key, value and CRC that follow `header` from `body`, and checks
/// the CRC.
pub fn parse_record(header: &RecordHeader, body: &[u8]) -> (r: Result<ReadLogRecord, Errors>)
    requires
        header.key_len <= u32::MAX,
        header.value_len <= u32::MAX,
        header.header_size <= MAX_HEADER_SIZE,
    ensures
        match r {
            Ok(rr) => record_parse(header.rec_type, header.key_len as nat, header.value_len as nat, body@) == Ok::<(LogRecordType, Seq<u8>, Seq<u8>), Errors>(
                (rr.record.rec_type, rr.record.key@, rr.record.value@),
            ) && rr.size == header.header_size + header.key_len + header.value_len + 4,
            Err(e) => record_parse(header.rec_type, header.key_len as nat, header.value_len as nat, body@)
                == Err::<(LogRecordType, Seq<u8>, Seq<u8>), Errors>(e),
        },
{
    let kl = header.key_len;
    let vl = header.value_len;
    if body.len() < 4 || body.len() - 4 < kl || body.len() - 4 - kl != vl {
        return Err(Errors::InvalidLogRecordCrc);
    }
    let ty = match LogRecordType::from_byte(header.rec_type) {
        None => return Err(Errors::InvalidLogRecordCrc),
        Some(t) => t,
    };
    let key = copy_range(body, 0, kl);
    let value = copy_range(body, kl, kl + vl);
    let stored = read_u32_be(body, kl + vl);
    let record = LogRecord { key, value, rec_type: ty };
    assert(body@.take(kl as int) =~= body@.subrange(0, kl as int));
    if record.get_crc() != stored {
        return Err(Errors::InvalidLogRecordCrc);
    }
    let size = header.header_size as u64 + kl as u64 + vl as u64 + 4;
    Ok(ReadLogRecord { record, size })
}

/// The record at `offset` of a whole data file held in memory.
pub fn read_record_at(file: &[u8], offset: u64) -> (r: Result<ReadLogRecord, Errors>)
    ensures
        match r {
            Ok(rr) => record_at(file@, offset as nat) == Ok::<(LogRecordType, Seq<u8>, Seq<u8>, nat), Errors>(
                (rr.record.rec_type, rr.record.key@, rr.record.value@, rr.size as nat),
            ),
            Err(e) => record_at(file@, offset as nat) == Err::<
                (LogRecordType, Seq<u8>, Seq<u8>, nat),
                Errors,
            >(e),
        },
{
    reveal(record_at);
    let len = file.len();
    let mut window: Vec<u8> = Vec::new();
    let mut i: usize = 0;
    while i < MAX_HEADER_SIZE
        invariant
            len == file@.len(),
            i <= MAX_HEADER_SIZE,
            window@.len() == i,
            forall|j: int| 0 <= j < i ==> #[trigger] window@[j] == header_window(file@, offset as nat)[j],
        decreases MAX_HEADER_SIZE - i,
    {
        let b: u8 = if offset < len as u64 && (i as u64) < len as u64 - offset {
            file[(offset + i as u64) as usize]
        } else {
            0
        };
        window.push(b);
        i = i + 1;
    }
    assert(window@ =~= header_window(file@, offset as nat));
    let h = parse_record_header(window.as_slice())?;
    let total: u64 = h.header_size as u64 + h.key_len as u64 + h.value_len as u64 + 4;
    if offset > len as u64 || total > len as u64 - offset {
        return Err(Errors::ReadDataFileEof);
    }
    let start = (offset + h.header_size as u64) as usize;
    let end = (offset + total) as usize;
    let body = vstd::slice::slice_subrange(file, start, end);
    parse_record(&h, body)
}

} // verus!

verus! {

/// ".data" as bytes.
pub open spec fn data_suffix() -> Seq<u8> {
    seq![46u8, 100u8, 97u8, 116u8, 97u8]
}

/// The name of data file `file_id`: its id in nine zero-padded digits, then
/// ".data".
pub open spec fn data_file_name_spec(file_id: u32) -> Seq<u8> {
    zero_padded(file_id as nat, DATA_FILE_ID_WIDTH as nat) + data_suffix()
}

/// The name of data file `file_id`, as bytes.
pub fn create_data_file_name(file_id: u32) -> (r: Vec<u8>)
    ensures
        r@ == data_file_name_spec(file_id),
{
    let mut r = zero_padded_decimal(file_id as u64, DATA_FILE_ID_WIDTH);
    let suffix = vec![46u8, 100u8, 97u8, 116u8, 97u8];
    assert(suffix@ =~= data_suffix());
    crate::log_record::append_bytes(&mut r, suffix.as_slice());
    r
}

/// Index of the first '.' in `name`, or its length.
pub open spec fn first_dot(name: Seq<u8>) -> int
    decreases name.len(),
{
    if name.len() == 0 {
        0
    } else if name[0] == 46 {
        0
    } else {
        1 + first_dot(name.drop_first())
    }
}

/// What a directory entry named `name` is: not a data file, the data file
/// whose id is the number before the first '.', or a data file name whose
/// number cannot be read.
pub open spec fn data_file_id_of(name: Seq<u8>) -> Result<Option<u32>, Errors> {
    if name.len() < 5 || name.skip(name.len() - 5) != data_suffix() {
        Ok(None)
    } else {
        match decimal_parse(name.take(first_dot(name))) {
            Some(n) => if n <= u32::MAX {
                Ok(Some(n as u32))
            } else {
                Err(Errors::FailedToParseFileId)
            },
            None => Err(Errors::FailedToParseFileId),
        }
    }
}

/// Reads the id of a data file from a directory entry's name.
pub fn parse_data_file_name(name: &[u8]) -> (r: Result<Option<u32>, Errors>)
    ensures
        r == data_file_id_of(name@),
{
    let n = name.len();
    if n < 5 {
        return Ok(None);
    }
    let suffix = vec![46u8, 100u8, 97u8, 116u8, 97u8];
    assert(suffix@ =~= data_suffix());
    let tail = vstd::slice::slice_subrange(name, n - 5, n);
    if crate::keys::compare_keys(tail, suffix.as_slice()) != 0 {
        return Ok(None);
    }
    let mut i: usize = 0;
    assert(name@.skip(0) =~= name@);
    while i < n && name[i] != 46
        invariant
            n == name@.len(),
            i <= n,
            first_dot(name@) == i + first_dot(name@.skip(i as int)),
        decreases n - i,
    {
        assert(name@.skip(i as int).drop_first() =~= name@.skip(i + 1));
        i = i + 1;
    }
    assert(first_dot(name@) == i) by {
        if i < n {
            assert(name@.skip(i as int)[0] == name@[i as int]);
        } else {
            assert(name@.skip(i as int).len() == 0);
        }
    }
    let stem = vstd::slice::slice_subrange(name, 0, i);
    assert(stem@ =~= name@.take(i as int));
    match parse_decimal(stem) {
        Some(v) => if v <= u32::MAX as u64 {
            Ok(Some(v as u32))
        } else {
            Err(Errors::FailedToParseFileId)
        },
        None => Err(Errors::FailedToParseFileId),
    }
}

/// The id written into a data file's name is read back from it.
pub proof fn lemma_data_file_name_round_trip(file_id: u32)
    ensures
        data_file_id_of(data_file_name_spec(file_id)) == Ok::<Option<u32>, Errors>(Some(file_id)),
{
    let d = zero_padded(file_id as nat, DATA_FILE_ID_WIDTH as nat);
    let name = d + data_suffix();
    crate::decimal::lemma_zero_padded_round_trip(file_id as u64, DATA_FILE_ID_WIDTH as nat);
    assert(name.skip(name.len() - 5) =~= data_suffix());
    lemma_no_dot_in_digits(d, data_suffix());
    assert(name.take(d.len() as int) =~= d);
}

proof fn lemma_no_dot_in_digits(d: Seq<u8>, rest: Seq<u8>)
    requires
        forall|i: int| 0 <= i < d.len() ==> crate::decimal::is_digit(#[trigger] d[i]),
        rest.len() > 0,
        rest[0] == 46,
    ensures
        first_dot(d + rest) == d.len(),
    decreases d.len(),
{
    if d.len() == 0 {
        assert((d + rest)[0] == 46);
    } else {
        assert((d + rest)[0] == d[0]);
        assert(crate::decimal::is_digit(d[0]));
        assert((d + rest).drop_first() =~= d.drop_first() + rest);
        assert forall|i: int| 0 <= i < d.drop_first().len() implies crate::decimal::is_digit(#[trigger] d.drop_first()[i]) by {
            assert(d.drop_first()[i] == d[i + 1]);
        }
        lemma_no_dot_in_digits(d.drop_first(), rest);
    }
}

/// Sorts file ids in ascending order.
pub fn sort_file_ids(ids: Vec<u32>) -> (r: Vec<u32>)
    ensures
        r@.to_multiset() == ids@.to_multiset(),
        forall|i: int, j: int| 0 <= i < j < r@.len() ==> r@[i] <= r@[j],
{
    let mut r: Vec<u32> = Vec::new();
    let mut i: usize = 0;
    assert(ids@.take(0) =~= r@);
    while i < ids.len()
        invariant
            i <= ids@.len(),
            r@.to_multiset() == ids@.take(i as int).to_multiset(),
            forall|a: int, b: int| 0 <= a < b < r@.len() ==> r@[a] <= r@[b],
        decreases ids@.len() - i,
    {
        let x = ids[i];
        let mut j: usize = 0;
        while j < r.len() && r[j] <= x
            invariant
                j <= r@.len(),
                forall|a: int| 0 <= a < j ==> r@[a] <= x,
            decreases r@.len() - j,
        {
            j = j + 1;
        }
        let ghost before = r@;
        r.insert(j, x);
        proof {
            assert(ids@.take(i + 1) =~= ids@.take(i as int).push(x));
            vstd::seq_lib::lemma_multiset_commutative(ids@.take(i as int), seq![x]);
            assert(r@ =~= before.take(j as int) + seq![x] + before.skip(j as int));
            assert(before =~= before.take(j as int) + before.skip(j as int));
            vstd::seq_lib::lemma_multiset_commutative(before.take(j as int), seq![x]);
            vstd::seq_lib::lemma_multiset_commutative(before.take(j as int) + seq![x], before.skip(j as int));
            vstd::seq_lib::lemma_multiset_commutative(before.take(j as int), before.skip(j as int));
            assert((before.take(j as int) + seq![x]).to_multiset() == before.take(j as int).to_multiset().add(seq![x].to_multiset()));
            assert(ids@.take(i as int).push(x) =~= ids@.take(i as int) + seq![x]);
        }
        i = i + 1;
    }
    assert(ids@.take(ids@.len() as int) =~= ids@);
    r
}

} // verus!
