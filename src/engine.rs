//! The decisions of the storage engine. The engine that owns the files asks
//! this core what to write and where, performs the I/O, and then tells the
//! core that it is done; the core keeps the index, the write position of the
//! active file and the transaction sequence counter.

use vstd::prelude::*;

use crate::data_file::{record_at, lemma_record_at};
use crate::errors::Errors;
use crate::index::Indexer;
use crate::log_record::{record_bytes, LogRecord, LogRecordPos, LogRecordType, MAX_KEY_LEN, MAX_VALUE_LEN};
use crate::options::Options;
use crate::seq_key::{
    get_record_sequence_number_with_key, lemma_seq_key_round_trip, seq_key, seq_key_parse,
    NON_TRANSACTION_SEQ_NUMBER,
};
use crate::varint::varint;

verus! {

/// Where and how one encoded record is appended.
#[derive(Copy, Clone, Debug, PartialEq, Eq, Structural)]
pub struct AppendPlan {
    /// Flush the active file, freeze it and open `file_id` as the new
    /// active file before writing.
    pub rotate: bool,
    /// The file the record goes to.
    pub file_id: u32,
    /// The offset the record starts at.
    pub offset: u64,
    /// The write offset of the file once the record is written.
    pub end_offset: u64,
    /// Flush the file after writing.
    pub sync: bool,
}

/// The record bytes to append for a put or a delete, and where they go.
pub struct WritePlan {
    pub bytes: Vec<u8>,
    pub append: AppendPlan,
}

/// How the next record of `len` bytes is appended, given the active file,
/// its write offset, the bytes written since the last flush and the
/// options; none when the file id or the offset would overflow.
pub open spec fn append_plan(
    active_file_id: u32,
    write_offset: u64,
    bytes_write: u64,
    data_file_size: u64,
    sync_write: bool,
    bytes_per_sync: u64,
    len: u64,
) -> Option<AppendPlan> {
    let rotate = write_offset + len > data_file_size;
    let file_id: int = if rotate {
        active_file_id + 1
    } else {
        active_file_id as int
    };
    let offset: int = if rotate {
        0
    } else {
        write_offset as int
    };
    if file_id > u32::MAX || offset + len > u64::MAX {
        None
    } else {
        Some(
            AppendPlan {
                rotate,
                file_id: file_id as u32,
                offset: offset as u64,
                end_offset: (offset + len) as u64,
                sync: sync_write || (bytes_per_sync > 0 && bytes_write + len >= bytes_per_sync),
            },
        )
    }
}

/// Computes `append_plan`.
pub fn next_append(
    active_file_id: u32,
    write_offset: u64,
    bytes_write: u64,
    data_file_size: u64,
    sync_write: bool,
    bytes_per_sync: u64,
    len: u64,
) -> (r: Option<AppendPlan>)
    ensures
        r == append_plan(active_file_id, write_offset, bytes_write, data_file_size, sync_write, bytes_per_sync, len),
{
    let rotate = write_offset as u128 + len as u128 > data_file_size as u128;
    if rotate && active_file_id == u32::MAX {
        return None;
    }
    let file_id = if rotate {
        active_file_id + 1
    } else {
        active_file_id
    };
    let offset: u64 = if rotate {
        0
    } else {
        write_offset
    };
    if len > u64::MAX - offset {
        return None;
    }
    let sync = sync_write || (bytes_per_sync > 0 && bytes_write as u128 + len as u128 >= bytes_per_sync as u128);
    Some(AppendPlan { rotate, file_id, offset, end_offset: offset + len, sync })
}

/// The bytes written since the last flush, once `plan` is carried out.
pub open spec fn bytes_write_after(bytes_write: u64, plan: AppendPlan) -> u64 {
    if plan.sync {
        0
    } else {
        vstd::math::min(bytes_write + plan.end_offset - plan.offset, u64::MAX as int) as u64
    }
}

/// What a lookup of `key` in an index answers.
pub open spec fn lookup_result(m: Map<Seq<u8>, LogRecordPos>, key: Seq<u8>) -> Result<LogRecordPos, Errors> {
    if key.len() == 0 {
        Err(Errors::KeyIsEmpty)
    } else if !m.contains_key(key) {
        Err(Errors::KeyNotFound)
    } else {
        Ok(m[key])
    }
}

/// The value that a record read for a lookup stands for.
pub open spec fn value_result(ty: LogRecordType, value: Seq<u8>) -> Result<Seq<u8>, Errors> {
    if ty == LogRecordType::Deleted {
        Err(Errors::KeyNotFound)
    } else {
        Ok(value)
    }
}

/// The state that the engine's decisions rest on.
pub struct EngineCore<I: Indexer> {
    /// Maps each live key to its latest record.
    pub index: I,
    /// Id of the file appended to.
    pub active_file_id: u32,
    /// Where the next record goes in the active file.
    pub write_offset: u64,
    /// Bytes appended since the last flush.
    pub bytes_write: u64,
    /// The sequence number that the next write batch takes.
    pub sequence_number: u64,
    /// Size past which the active file is rotated.
    pub data_file_size: u64,
    /// Flush after every write.
    pub sync_write: bool,
    /// Flush once this many bytes were appended; 0 disables it.
    pub bytes_per_sync: u64,
}

impl<I: Indexer> EngineCore<I> {
    pub open spec fn wf(&self) -> bool {
        self.index.wf()
    }

    /// How this core appends a record of `len` bytes.
    pub open spec fn plan_for(&self, len: u64) -> Option<AppendPlan> {
        append_plan(
            self.active_file_id,
            self.write_offset,
            self.bytes_write,
            self.data_file_size,
            self.sync_write,
            self.bytes_per_sync,
            len,
        )
    }

    /// A core over `index`, appending to `active_file_id` at `write_offset`,
    /// with the next batch taking `sequence_number`.
    pub fn new(index: I, options: &Options, active_file_id: u32, write_offset: u64, sequence_number: u64) -> (r: Self)
        requires
            index.wf(),
        ensures
            r.wf(),
            r.index == index,
            r.active_file_id == active_file_id,
            r.write_offset == write_offset,
            r.bytes_write == 0,
            r.sequence_number == sequence_number,
            r.data_file_size == options.data_file_size,
            r.sync_write == options.sync_write,
            r.bytes_per_sync == options.bytes_per_sync as u64,
    {
        EngineCore {
            index,
            active_file_id,
            write_offset,
            bytes_write: 0,
            sequence_number,
            data_file_size: options.data_file_size,
            sync_write: options.sync_write,
            bytes_per_sync: options.bytes_per_sync as u64,
        }
    }

    /// Decides where a record of `len` bytes goes: rotate when the active
    /// file would grow past the data file size, flush when asked to or when
    /// enough bytes were written since the last flush.
    pub fn plan_append(&self, len: u64) -> (r: Result<AppendPlan, Errors>)
        ensures
            match self.plan_for(len) {
                Some(p) => r == Ok::<AppendPlan, Errors>(p),
                None => r == Err::<AppendPlan, Errors>(Errors::WriteToDataFileError),
            },
    {
        match next_append(
            self.active_file_id,
            self.write_offset,
            self.bytes_write,
            self.data_file_size,
            self.sync_write,
            self.bytes_per_sync,
            len,
        ) {
            Some(p) => Ok(p),
            None => Err(Errors::WriteToDataFileError),
        }
    }

    /// Records that the bytes of `plan` were appended: the planned file is
    /// active, its write offset is the plan's end, and the count of bytes
    /// since the last flush restarts when the plan flushed.
    pub fn apply_append(&mut self, plan: &AppendPlan)
        requires
            old(self).wf(),
            plan.offset <= plan.end_offset,
        ensures
            final(self).wf(),
            final(self).index == old(self).index,
            final(self).active_file_id == plan.file_id,
            final(self).write_offset == plan.end_offset,
            final(self).bytes_write == bytes_write_after(old(self).bytes_write, *plan),
            final(self).sequence_number == old(self).sequence_number,
            final(self).data_file_size == old(self).data_file_size,
            final(self).sync_write == old(self).sync_write,
            final(self).bytes_per_sync == old(self).bytes_per_sync,
    {
        let len = plan.end_offset - plan.offset;
        self.active_file_id = plan.file_id;
        self.write_offset = plan.end_offset;
        if plan.sync {
            self.bytes_write = 0;
        } else if self.bytes_write > u64::MAX - len {
            self.bytes_write = u64::MAX;
        } else {
            self.bytes_write = self.bytes_write + len;
        }
    }

    /// Freezes the active file and makes the next id the active file, empty,
    /// as a merge does before it picks the files to merge.
    pub fn rotate(&mut self) -> (r: Result<u32, Errors>)
        requires
            old(self).wf(),
        ensures
            final(self).wf(),
            match r {
                Ok(id) => old(self).active_file_id < u32::MAX && id == old(self).active_file_id + 1
                    && final(self).active_file_id == id && final(self).write_offset == 0
                    && final(self).index == old(self).index
                    && final(self).bytes_write == old(self).bytes_write
                    && final(self).sequence_number == old(self).sequence_number,
                Err(e) => old(self).active_file_id == u32::MAX && e == Errors::WriteToDataFileError
                    && *final(self) == *old(self),
            },
    {
        if self.active_file_id == u32::MAX {
            return Err(Errors::WriteToDataFileError);
        }
        self.active_file_id = self.active_file_id + 1;
        self.write_offset = 0;
        Ok(self.active_file_id)
    }

    /// Where the latest record of `key` is.
    pub fn lookup(&self, key: &[u8]) -> (r: Result<LogRecordPos, Errors>)
        requires
            self.wf(),
        ensures
            r == lookup_result(self.index.index_map(), key@),
    {
        if key.len() == 0 {
            return Err(Errors::KeyIsEmpty);
        }
        match self.index.get(crate::log_record::copy_range(key, 0, key.len())) {
            None => {
                assert(key@.subrange(0, key@.len() as int) =~= key@);
                Err(Errors::KeyNotFound)
            },
            Some(p) => {
                assert(key@.subrange(0, key@.len() as int) =~= key@);
                Ok(p)
            },
        }
    }

    /// Plans a put: the record to append and where it goes. An empty key is
    /// refused.
    pub fn plan_put(&self, key: &[u8], value: &[u8]) -> (r: Result<WritePlan, Errors>)
        requires
            key@.len() <= MAX_KEY_LEN,
            value@.len() <= MAX_VALUE_LEN,
        ensures
            key@.len() == 0 ==> r == Err::<WritePlan, Errors>(Errors::KeyIsEmpty),
            key@.len() > 0 ==> match r {
                Ok(w) => w.bytes@ == record_bytes(LogRecordType::Normal, seq_key(key@, 0), value@)
                    && self.plan_for(w.bytes@.len() as u64) == Some(w.append),
                Err(e) => e == Errors::WriteToDataFileError
                    && self.plan_for(record_bytes(LogRecordType::Normal, seq_key(key@, 0), value@).len() as u64) is None,
            },
    {
        if key.len() == 0 {
            return Err(Errors::KeyIsEmpty);
        }
        let record = LogRecord {
            key: get_record_sequence_number_with_key(key, NON_TRANSACTION_SEQ_NUMBER),
            value: crate::log_record::copy_range(value, 0, value.len()),
            rec_type: LogRecordType::Normal,
        };
        assert(value@.subrange(0, value@.len() as int) =~= value@);
        let bytes = record.encode();
        let append = self.plan_append(bytes.len() as u64)?;
        Ok(WritePlan { bytes, append })
    }

    /// Records a planned put as done: the key now maps to where its record
    /// went.
    pub fn finish_put(&mut self, key: Vec<u8>, plan: &AppendPlan) -> (r: LogRecordPos)
        requires
            old(self).wf(),
            plan.offset <= plan.end_offset,
        ensures
            final(self).wf(),
            r == (LogRecordPos { file_id: plan.file_id, offset: plan.offset }),
            final(self).index.index_map() == old(self).index.index_map().insert(key@, r),
            final(self).active_file_id == plan.file_id,
            final(self).write_offset == plan.end_offset,
            final(self).sequence_number == old(self).sequence_number,
    {
        self.apply_append(plan);
        let pos = LogRecordPos { file_id: plan.file_id, offset: plan.offset };
        self.index.put(key, pos);
        pos
    }

    /// Plans a delete: the tombstone to append and where it goes. An empty
    /// key, or one the index does not hold, is refused.
    pub fn plan_delete(&self, key: &[u8]) -> (r: Result<WritePlan, Errors>)
        requires
            self.wf(),
            key@.len() <= MAX_KEY_LEN,
        ensures
            key@.len() == 0 ==> r == Err::<WritePlan, Errors>(Errors::KeyIsEmpty),
            key@.len() > 0 && !self.index.index_map().contains_key(key@) ==> r == Err::<WritePlan, Errors>(
                Errors::KeyNotFound,
            ),
            key@.len() > 0 && self.index.index_map().contains_key(key@) ==> match r {
                Ok(w) => w.bytes@ == record_bytes(LogRecordType::Deleted, seq_key(key@, 0), Seq::empty())
                    && self.plan_for(w.bytes@.len() as u64) == Some(w.append),
                Err(e) => e == Errors::WriteToDataFileError
                    && self.plan_for(record_bytes(LogRecordType::Deleted, seq_key(key@, 0), Seq::empty()).len() as u64) is None,
            },
    {
        let _ = self.lookup(key)?;
        let record = LogRecord {
            key: get_record_sequence_number_with_key(key, NON_TRANSACTION_SEQ_NUMBER),
            value: Vec::new(),
            rec_type: LogRecordType::Deleted,
        };
        assert(record.value@ =~= Seq::<u8>::empty());
        let bytes = record.encode();
        let append = self.plan_append(bytes.len() as u64)?;
        Ok(WritePlan { bytes, append })
    }

    /// Records a planned delete as done: the key leaves the index.
    pub fn finish_delete(&mut self, key: Vec<u8>, plan: &AppendPlan)
        requires
            old(self).wf(),
            plan.offset <= plan.end_offset,
        ensures
            final(self).wf(),
            final(self).index.index_map() == old(self).index.index_map().remove(key@),
            final(self).active_file_id == plan.file_id,
            final(self).write_offset == plan.end_offset,
            final(self).sequence_number == old(self).sequence_number,
    {
        self.apply_append(plan);
        self.index.delete(key);
    }
}

/// The value of a record read for a lookup: a tombstone means the key is
/// gone.
pub fn value_of(record: LogRecord) -> (r: Result<Vec<u8>, Errors>)
    ensures
        match r {
            Ok(v) => value_result(record.rec_type, record.value@) == Ok::<Seq<u8>, Errors>(v@),
            Err(e) => value_result(record.rec_type, record.value@) == Err::<Seq<u8>, Errors>(e),
        },
{
    if record.rec_type == LogRecordType::Deleted {
        return Err(Errors::KeyNotFound);
    }
    Ok(record.value)
}

} // verus!

verus! {

/// What a put under a non-empty key writes is what a later get returns:
/// the index maps the key to where the record went, and the record read
/// back there is a live record of that key holding the value.
pub proof fn lemma_put_then_get(
    m: Map<Seq<u8>, LogRecordPos>,
    key: Seq<u8>,
    value: Seq<u8>,
    pos: LogRecordPos,
    file: Seq<u8>,
)
    requires
        key.len() > 0,
        key.len() < u32::MAX,
        value.len() <= u32::MAX,
        pos.offset + record_bytes(LogRecordType::Normal, seq_key(key, 0), value).len() <= file.len(),
        file.subrange(
            pos.offset as int,
            pos.offset + record_bytes(LogRecordType::Normal, seq_key(key, 0), value).len(),
        ) == record_bytes(LogRecordType::Normal, seq_key(key, 0), value),
    ensures
        lookup_result(m.insert(key, pos), key) == Ok::<LogRecordPos, Errors>(pos),
        record_at(file, pos.offset as nat) == Ok::<(LogRecordType, Seq<u8>, Seq<u8>, nat), Errors>(
            (
                LogRecordType::Normal,
                seq_key(key, 0),
                value,
                record_bytes(LogRecordType::Normal, seq_key(key, 0), value).len(),
            ),
        ),
        seq_key_parse(seq_key(key, 0)) == Some((0u64, key)),
        value_result(LogRecordType::Normal, value) == Ok::<Seq<u8>, Errors>(value),
{
    lemma_seq_key_round_trip(key, 0);
    assert(varint(0) == seq![0u8]);
    lemma_record_at(file, pos.offset as nat, LogRecordType::Normal, seq_key(key, 0), value);
}

/// An empty value is stored and read back as empty.
pub proof fn lemma_empty_value_round_trip(key: Seq<u8>, pos: LogRecordPos, file: Seq<u8>)
    requires
        key.len() > 0,
        key.len() < u32::MAX,
        pos.offset + record_bytes(LogRecordType::Normal, seq_key(key, 0), Seq::empty()).len() <= file.len(),
        file.subrange(
            pos.offset as int,
            pos.offset + record_bytes(LogRecordType::Normal, seq_key(key, 0), Seq::empty()).len(),
        ) == record_bytes(LogRecordType::Normal, seq_key(key, 0), Seq::empty()),
    ensures
        record_at(file, pos.offset as nat) matches Ok((ty, k, v, _)) && ty == LogRecordType::Normal && v.len() == 0
            && value_result(ty, v) == Ok::<Seq<u8>, Errors>(Seq::empty()),
{
    lemma_put_then_get(Map::empty(), key, Seq::empty(), pos, file);
}

/// Of two puts of one key, a get sees the second.
pub proof fn lemma_last_write_wins(m: Map<Seq<u8>, LogRecordPos>, key: Seq<u8>, first: LogRecordPos, second: LogRecordPos)
    requires
        key.len() > 0,
    ensures
        lookup_result(m.insert(key, first).insert(key, second), key) == Ok::<LogRecordPos, Errors>(second),
{
}

/// After a put and a delete of one key, a get finds nothing.
pub proof fn lemma_delete_then_get(m: Map<Seq<u8>, LogRecordPos>, key: Seq<u8>, pos: LogRecordPos)
    requires
        key.len() > 0,
    ensures
        lookup_result(m.insert(key, pos).remove(key), key) == Err::<LogRecordPos, Errors>(Errors::KeyNotFound),
{
}

} // verus!
