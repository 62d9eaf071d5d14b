//! Compaction: picking the live records of frozen data files, and the hint
//! and marker records that a merge leaves for the next startup.

use vstd::prelude::*;

use crate::data_file::{read_record_at, record_at};
use crate::decimal::{decimal, decimal_parse, parse_decimal, push_decimal};
use crate::errors::Errors;
use crate::index::{clone_bytes, Indexer};
use crate::log_record::{
    decode_log_record_pos, pos_decode, record_bytes, LogRecord, LogRecordPos, LogRecordType,
};
use crate::seq_key::{get_record_sequence_number_with_key, parse_record_sequence_number_with_key, seq_key, seq_key_parse};

verus! {

/// What one step of a merge over a frozen file finds at an offset.
pub enum MergeStep {
    /// The file's records end here.
    End,
    /// A record that the index no longer points to; the next record starts
    /// at `next`.
    Stale { next: u64 },
    /// A live record: its key, the record to write into the merged files
    /// (keyed with sequence number 0), and where the next record starts.
    Live { next: u64, key: Vec<u8>, record: LogRecord },
}

/// The record at `pos` is the one the index holds for `key`.
pub open spec fn is_live(m: Map<Seq<u8>, LogRecordPos>, key: Seq<u8>, pos: LogRecordPos) -> bool {
    m.contains_key(key) && m[key] == pos
}

/// Reads the record at `offset` of frozen file `file_id` and tells whether
/// the live index still points to it. A live record is handed back re-keyed
/// with sequence number 0: its transaction is already resolved.
pub fn merge_step<I: Indexer>(index: &I, file_id: u32, data: &[u8], offset: u64) -> (r: Result<MergeStep, Errors>)
    requires
        index.wf(),
    ensures
        match record_at(data@, offset as nat) {
            Err(e) => if e == Errors::ReadDataFileEof {
                r matches Ok(MergeStep::End)
            } else {
                r == Err::<MergeStep, Errors>(e)
            },
            Ok((ty, k, v, size)) => match seq_key_parse(k) {
                None => r == Err::<MergeStep, Errors>(Errors::InvalidLogRecordCrc),
                Some((_, key)) => if is_live(index.index_map(), key, LogRecordPos { file_id, offset }) {
                    r matches Ok(MergeStep::Live { next, key: live_key, record }) && next == offset + size
                        && live_key@ == key && record.key@ == seq_key(key, 0) && record.value@ == v
                        && record.rec_type == ty
                } else {
                    r matches Ok(MergeStep::Stale { next }) && next == offset + size
                },
            },
        },
{
    let rr = match read_record_at(data, offset) {
        Err(e) => {
            if e == Errors::ReadDataFileEof {
                return Ok(MergeStep::End);
            }
            return Err(e);
        },
        Ok(rr) => rr,
    };
    proof {
        crate::recovery::lemma_record_at_size(data@, offset as nat);
    }
    let len = data.len();
    assert(offset + rr.size <= len);
    let next = offset + rr.size;
    let (_, key) = match parse_record_sequence_number_with_key(rr.record.key.as_slice()) {
        None => return Err(Errors::InvalidLogRecordCrc),
        Some(p) => p,
    };
    let pos = LogRecordPos { file_id, offset };
    match index.get(clone_bytes(&key)) {
        Some(p) => {
            if p.file_id == file_id && p.offset == offset {
                let record = LogRecord {
                    key: get_record_sequence_number_with_key(key.as_slice(), 0),
                    value: rr.record.value,
                    rec_type: rr.record.rec_type,
                };
                return Ok(MergeStep::Live { next, key, record });
            }
            Ok(MergeStep::Stale { next })
        },
        None => Ok(MergeStep::Stale { next }),
    }
}

/// The hint record for `key`: its value is the encoded position of the
/// key's record in the merged files.
pub fn encode_hint_record(key: Vec<u8>, pos: LogRecordPos) -> (r: Vec<u8>)
    ensures
        r@ == record_bytes(LogRecordType::Normal, key@, pos.spec_encode()),
{
    let record = LogRecord { key, value: pos.encode(), rec_type: LogRecordType::Normal };
    record.encode()
}

/// Loading a hint file from `off` on into an index: every record maps its
/// key to the position its value encodes.
pub open spec fn replay_hints(m: Map<Seq<u8>, LogRecordPos>, data: Seq<u8>, off: nat) -> Result<Map<Seq<u8>, LogRecordPos>, Errors>
    decreases data.len() - off,
{
    match record_at(data, off) {
        Err(e) => if e == Errors::ReadDataFileEof {
            Ok(m)
        } else {
            Err(e)
        },
        Ok((ty, k, v, size)) => if size > 0 && off + size <= data.len() {
            match pos_decode(v) {
                None => Err(Errors::InvalidLogRecordCrc),
                Some(p) => replay_hints(m.insert(k, p), data, off + size),
            }
        } else {
            Err(Errors::InvalidLogRecordCrc)
        },
    }
}

/// Loads the records of a hint file, whose bytes are `data`, into `index`.
pub fn load_index_from_hint_file<I: Indexer>(index: &mut I, data: &[u8]) -> (r: Result<(), Errors>)
    requires
        old(index).wf(),
    ensures
        final(index).wf(),
        match replay_hints(old(index).index_map(), data@, 0) {
            Ok(m) => r is Ok && final(index).index_map() == m,
            Err(e) => r == Err::<(), Errors>(e),
        },
{
    let ghost goal = replay_hints(old(index).index_map(), data@, 0);
    let len = data.len();
    let mut offset: u64 = 0;
    loop
        invariant
            len == data@.len(),
            goal == replay_hints(old(index).index_map(), data@, 0),
            index.wf(),
            offset <= data@.len(),
            goal == replay_hints(index.index_map(), data@, offset as nat),
        decreases data@.len() - offset,
    {
        let rr = match read_record_at(data, offset) {
            Err(e) => {
                if e == Errors::ReadDataFileEof {
                    return Ok(());
                }
                return Err(e);
            },
            Ok(rr) => rr,
        };
        proof {
            crate::recovery::lemma_record_at_size(data@, offset as nat);
        }
        let pos = match decode_log_record_pos(rr.record.value.as_slice()) {
            None => return Err(Errors::InvalidLogRecordCrc),
            Some(p) => p,
        };
        assert(offset + rr.size <= len);
        offset = offset + rr.size;
        index.put(rr.record.key, pos);
    }
}

/// The id of the first file a merge leaves alone: one past the last file
/// it merges.
pub fn non_merge_file_id(merged: &Vec<u32>) -> (r: Option<u32>)
    ensures
        merged@.len() == 0 ==> r is None,
        merged@.len() > 0 ==> r == (if merged@.last() == u32::MAX {
            None
        } else {
            Some((merged@.last() + 1) as u32)
        }),
{
    if merged.len() == 0 {
        return None;
    }
    let last = merged[merged.len() - 1];
    if last == u32::MAX {
        None
    } else {
        Some(last + 1)
    }
}

/// The key of the record in the merge-finished file: "merge.finished".
pub open spec fn merge_finished_key() -> Seq<u8> {
    seq![109u8, 101u8, 114u8, 103u8, 101u8, 46u8, 102u8, 105u8, 110u8, 105u8, 115u8, 104u8, 101u8, 100u8]
}

/// The key of the record in the sequence-number file: "sequence.number".
pub open spec fn sequence_number_key() -> Seq<u8> {
    seq![115u8, 101u8, 113u8, 117u8, 101u8, 110u8, 99u8, 101u8, 46u8, 110u8, 117u8, 109u8, 98u8, 101u8, 114u8]
}

/// The record that marks a finished merge: the id of the first file it
/// left alone, in decimal.
pub fn encode_merge_finished_record(non_merge_file_id: u32) -> (r: Vec<u8>)
    ensures
        r@ == record_bytes(LogRecordType::Normal, merge_finished_key(), decimal(non_merge_file_id as nat)),
{
    let key = vec![109u8, 101u8, 114u8, 103u8, 101u8, 46u8, 102u8, 105u8, 110u8, 105u8, 115u8, 104u8, 101u8, 100u8];
    assert(key@ =~= merge_finished_key());
    let mut value: Vec<u8> = Vec::new();
    push_decimal(non_merge_file_id as u64, &mut value);
    assert(value@ =~= decimal(non_merge_file_id as nat));
    LogRecord { key, value, rec_type: LogRecordType::Normal }.encode()
}

/// The file id that a merge-finished record's value holds.
pub fn parse_merge_finished_value(value: &[u8]) -> (r: Result<u32, Errors>)
    ensures
        match decimal_parse(value@) {
            Some(n) => if n <= u32::MAX {
                r == Ok::<u32, Errors>(n as u32)
            } else {
                r == Err::<u32, Errors>(Errors::FailedToParseFileId)
            },
            None => r == Err::<u32, Errors>(Errors::FailedToParseFileId),
        },
{
    match parse_decimal(value) {
        Some(n) => if n <= u32::MAX as u64 {
            Ok(n as u32)
        } else {
            Err(Errors::FailedToParseFileId)
        },
        None => Err(Errors::FailedToParseFileId),
    }
}

/// The record that keeps the sequence number across a clean close.
pub fn encode_sequence_number_record(sequence_number: u64) -> (r: Vec<u8>)
    ensures
        r@ == record_bytes(LogRecordType::Normal, sequence_number_key(), decimal(sequence_number as nat)),
{
    let key = vec![115u8, 101u8, 113u8, 117u8, 101u8, 110u8, 99u8, 101u8, 46u8, 110u8, 117u8, 109u8, 98u8, 101u8, 114u8];
    assert(key@ =~= sequence_number_key());
    let mut value: Vec<u8> = Vec::new();
    push_decimal(sequence_number, &mut value);
    assert(value@ =~= decimal(sequence_number as nat));
    LogRecord { key, value, rec_type: LogRecordType::Normal }.encode()
}

/// The sequence number that a sequence-number record's value holds.
pub fn parse_sequence_number_value(value: &[u8]) -> (r: Option<u64>)
    ensures
        r == decimal_parse(value@),
{
    parse_decimal(value)
}

/// The file id written into a merge-finished record is read back.
pub proof fn lemma_merge_finished_round_trip(id: u32)
    ensures
        decimal_parse(decimal(id as nat)) == Some(id as u64),
{
    crate::decimal::lemma_decimal_round_trip(id as u64);
}

} // verus!

verus! {

/// A merge keeps what a key reads: loading the hint that a merge wrote for
/// a live key maps the key to the position of its rewritten record, and
/// goes on after the hint.
pub proof fn lemma_hint_record_replay(m: Map<Seq<u8>, LogRecordPos>, data: Seq<u8>, off: nat, key: Seq<u8>, pos: LogRecordPos)
    requires
        key.len() > 0,
        key.len() <= u32::MAX,
        off + record_bytes(LogRecordType::Normal, key, pos.spec_encode()).len() <= data.len(),
        data.subrange(off as int, off + record_bytes(LogRecordType::Normal, key, pos.spec_encode()).len() as int)
            == record_bytes(LogRecordType::Normal, key, pos.spec_encode()),
    ensures
        replay_hints(m, data, off) == replay_hints(
            m.insert(key, pos),
            data,
            off + record_bytes(LogRecordType::Normal, key, pos.spec_encode()).len(),
        ),
{
    crate::varint::lemma_varint_len_u32(pos.file_id as nat);
    crate::varint::lemma_varint_round_trip(pos.offset, Seq::empty());
    crate::log_record::lemma_pos_round_trip(pos);
    crate::data_file::lemma_record_at(data, off, LogRecordType::Normal, key, pos.spec_encode());
    crate::recovery::lemma_record_at_size(data, off);
}

} // verus!

verus! {

/// Whether a merge's hint replaces what a persistent index holds for the
/// hint's key: only when the index points into a file the merge rewrote. A
/// key written or deleted after the merge began keeps what the index says.
pub fn hint_applies(current: Option<LogRecordPos>, unmerged_file_id: u32) -> (r: bool)
    ensures
        r == (current is Some && current->Some_0.file_id < unmerged_file_id),
{
    match current {
        Some(p) => p.file_id < unmerged_file_id,
        None => false,
    }
}

} // verus!
