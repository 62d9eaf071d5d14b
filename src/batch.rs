//! Write batches: puts and deletes staged in memory and committed to the
//! log as one transaction, under one sequence number and closed by a
//! transaction-finished record.

use vstd::prelude::*;

use crate::engine::{EngineCore, WritePlan, AppendPlan, append_plan};
use crate::errors::Errors;
use crate::index::{clone_bytes, Indexer};
use crate::keys::compare_keys;
use crate::log_record::{record_bytes, LogRecord, LogRecordPos, LogRecordType, MAX_KEY_LEN, MAX_VALUE_LEN};
use crate::options::{IndexType, WriteBatchOptions};
use crate::seq_key::{get_record_sequence_number_with_key, seq_key};

verus! {

/// The key of the record that closes a transaction: "txn-fin".
pub open spec fn txn_fin_key() -> Seq<u8> {
    seq![116u8, 120u8, 110u8, 45u8, 102u8, 105u8, 110u8]
}

fn txn_fin_key_bytes() -> (r: Vec<u8>)
    ensures
        r@ == txn_fin_key(),
{
    let r = vec![116u8, 120u8, 110u8, 45u8, 102u8, 105u8, 110u8];
    assert(r@ =~= txn_fin_key());
    r
}

/// What `new_write_batch` answers: a store on a persistent index that was
/// opened on existing data without its sequence-number file cannot tell
/// which sequence numbers are taken.
pub open spec fn write_batch_allowed(index_type: IndexType, sequence_number_file_exists: bool, is_first_load: bool) -> bool {
    sequence_number_file_exists || index_type != IndexType::BPlusTree || is_first_load
}

/// The staged records of a batch as `(key, kind, value)`.
pub open spec fn staged_view(v: Seq<LogRecord>) -> Seq<(Seq<u8>, LogRecordType, Seq<u8>)> {
    v.map_values(|r: LogRecord| (r.key@, r.rec_type, r.value@))
}

/// A batch of staged writes.
pub struct WriteBatch {
    pending_writes: Vec<LogRecord>,
    options: WriteBatchOptions,
}

impl WriteBatch {
    /// The staged records, one per key, in the order their keys were first
    /// staged.
    pub closed spec fn staged(&self) -> Seq<(Seq<u8>, LogRecordType, Seq<u8>)> {
        staged_view(self.pending_writes@)
    }

    pub closed spec fn batch_options(&self) -> WriteBatchOptions {
        self.options
    }

    /// Each key is staged once, and every staged key and value fits a record.
    pub open spec fn wf(&self) -> bool {
        &&& forall|i: int, j: int| 0 <= i < j < self.staged().len() ==> #[trigger] self.staged()[i].0 != #[trigger] self.staged()[j].0
        &&& forall|i: int| 0 <= i < self.staged().len() ==> #[trigger] self.staged()[i].0.len() <= MAX_KEY_LEN
            && self.staged()[i].2.len() <= MAX_VALUE_LEN
    }

    /// What is staged for `key`, if anything.
    pub open spec fn staged_for(&self, key: Seq<u8>) -> Option<(LogRecordType, Seq<u8>)> {
        if exists|i: int| 0 <= i < self.staged().len() && self.staged()[i].0 == key {
            let i = choose|i: int| 0 <= i < self.staged().len() && self.staged()[i].0 == key;
            Some((self.staged()[i].1, self.staged()[i].2))
        } else {
            None
        }
    }

    /// An empty batch.
    pub fn new(options: WriteBatchOptions) -> (r: Self)
        ensures
            r.wf(),
            r.staged().len() == 0,
            r.batch_options() == options,
    {
        let r = WriteBatch { pending_writes: Vec::new(), options };
        assert(r.staged() =~= Seq::<(Seq<u8>, LogRecordType, Seq<u8>)>::empty());
        r
    }

    /// Number of staged records.
    pub fn len(&self) -> (r: usize)
        ensures
            r == self.staged().len(),
    {
        self.pending_writes.len()
    }

    /// The staged keys and kinds, in order.
    pub fn staged_records(&self) -> (r: Vec<(Vec<u8>, LogRecordType)>)
        ensures
            r@.len() == self.staged().len(),
            forall|i: int| 0 <= i < r@.len() ==> (#[trigger] r@[i]).0@ == self.staged()[i].0 && r@[i].1
                == self.staged()[i].1,
    {
        let mut r: Vec<(Vec<u8>, LogRecordType)> = Vec::new();
        let mut i: usize = 0;
        while i < self.pending_writes.len()
            invariant
                i <= self.pending_writes@.len(),
                r@.len() == i,
                forall|j: int| 0 <= j < i ==> (#[trigger] r@[j]).0@ == self.staged()[j].0 && r@[j].1 == self.staged()[j].1,
            decreases self.pending_writes@.len() - i,
        {
            let rec = &self.pending_writes[i];
            r.push((clone_bytes(&rec.key), rec.rec_type));
            i = i + 1;
        }
        r
    }

    /// Where `key` stands among the staged records, if it is there.
    fn find(&self, key: &[u8]) -> (r: Option<usize>)
        requires
            self.wf(),
        ensures
            match r {
                Some(i) => i < self.staged().len() && self.staged()[i as int].0 == key@,
                None => forall|i: int| 0 <= i < self.staged().len() ==> #[trigger] self.staged()[i].0 != key@,
            },
    {
        let mut i: usize = 0;
        while i < self.pending_writes.len()
            invariant
                i <= self.staged().len(),
                self.staged().len() == self.pending_writes@.len(),
                forall|j: int| 0 <= j < i ==> #[trigger] self.staged()[j].0 != key@,
            decreases self.pending_writes@.len() - i,
        {
            if compare_keys(self.pending_writes[i].key.as_slice(), key) == 0 {
                return Some(i);
            }
            i = i + 1;
        }
        None
    }

    /// Stages `record` under its key, replacing what was staged for it.
    fn stage(&mut self, record: LogRecord)
        requires
            old(self).wf(),
            record.key@.len() <= MAX_KEY_LEN,
            record.value@.len() <= MAX_VALUE_LEN,
        ensures
            final(self).wf(),
            final(self).batch_options() == old(self).batch_options(),
            forall|k: Seq<u8>| #[trigger] final(self).staged_for(k) == if k == record.key@ {
                Some((record.rec_type, record.value@))
            } else {
                old(self).staged_for(k)
            },
    {
        let ghost s = self.staged();
        let ghost key = record.key@;
        let ghost entry = (record.key@, record.rec_type, record.value@);
        match self.find(record.key.as_slice()) {
            Some(i) => {
                self.pending_writes.remove(i);
                self.pending_writes.insert(i, record);
                proof {
                    let t = self.staged();
                    assert(t =~= s.update(i as int, entry));
                    assert forall|k: Seq<u8>| #[trigger] self.staged_for(k) == if k == key {
                        Some((entry.1, entry.2))
                    } else {
                        old(self).staged_for(k)
                    } by {
                        if k == key {
                            assert(t[i as int].0 == k);
                            let j = choose|j: int| 0 <= j < t.len() && t[j].0 == k;
                            assert(j == i);
                        } else if exists|j: int| 0 <= j < s.len() && s[j].0 == k {
                            let j = choose|j: int| 0 <= j < s.len() && s[j].0 == k;
                            assert(t[j] == s[j]);
                            let j2 = choose|j2: int| 0 <= j2 < t.len() && t[j2].0 == k;
                            assert(j2 != i);
                            assert(t[j2] == s[j2]);
                        } else {
                            assert forall|j: int| 0 <= j < t.len() implies t[j].0 != k by {
                                if j != i {
                                    assert(t[j] == s[j]);
                                }
                            }
                        }
                    }
                }
            },
            None => {
                self.pending_writes.push(record);
                proof {
                    let t = self.staged();
                    assert(t =~= s.push(entry));
                    assert forall|k: Seq<u8>| #[trigger] self.staged_for(k) == if k == key {
                        Some((entry.1, entry.2))
                    } else {
                        old(self).staged_for(k)
                    } by {
                        let n = s.len() as int;
                        if k == key {
                            assert(t[n].0 == k);
                            let j = choose|j: int| 0 <= j < t.len() && t[j].0 == k;
                            if j < n {
                                assert(t[j] == s[j]);
                            }
                        } else if exists|j: int| 0 <= j < s.len() && s[j].0 == k {
                            let j = choose|j: int| 0 <= j < s.len() && s[j].0 == k;
                            assert(t[j] == s[j]);
                            let j2 = choose|j2: int| 0 <= j2 < t.len() && t[j2].0 == k;
                            assert(j2 != n);
                            assert(t[j2] == s[j2]);
                        } else {
                            assert forall|j: int| 0 <= j < t.len() implies t[j].0 != k by {
                                if j < n {
                                    assert(t[j] == s[j]);
                                }
                            }
                        }
                    }
                }
            },
        }
    }

    /// Drops what was staged for `key`.
    fn unstage(&mut self, key: &[u8])
        requires
            old(self).wf(),
        ensures
            final(self).wf(),
            final(self).batch_options() == old(self).batch_options(),
            forall|k: Seq<u8>| #[trigger] final(self).staged_for(k) == if k == key@ {
                None
            } else {
                old(self).staged_for(k)
            },
    {
        let ghost s = self.staged();
        match self.find(key) {
            None => {},
            Some(i) => {
                self.pending_writes.remove(i);
                proof {
                    let t = self.staged();
                    assert(t =~= s.remove(i as int));
                    assert forall|k: Seq<u8>| #[trigger] self.staged_for(k) == if k == key@ {
                        None
                    } else {
                        old(self).staged_for(k)
                    } by {
                        if exists|j: int| 0 <= j < t.len() && t[j].0 == k {
                            let j = choose|j: int| 0 <= j < t.len() && t[j].0 == k;
                            let j0 = if j < i { j } else { j + 1 };
                            assert(t[j] == s[j0]);
                            assert(k != key@);
                            let j2 = choose|j2: int| 0 <= j2 < s.len() && s[j2].0 == k;
                            assert(j2 == j0);
                        } else if k != key@ && exists|j: int| 0 <= j < s.len() && s[j].0 == k {
                            let j = choose|j: int| 0 <= j < s.len() && s[j].0 == k;
                            assert(j != i);
                            let j1 = if j < i { j } else { j - 1 };
                            assert(t[j1] == s[j]);
                        }
                    }
                }
            },
        }
    }

    /// Stages a put of `value` under `key`; an empty key is refused.
    pub fn put(&mut self, key: Vec<u8>, value: Vec<u8>) -> (r: Result<(), Errors>)
        requires
            old(self).wf(),
            key@.len() <= MAX_KEY_LEN,
            value@.len() <= MAX_VALUE_LEN,
        ensures
            final(self).wf(),
            final(self).batch_options() == old(self).batch_options(),
            key@.len() == 0 ==> r == Err::<(), Errors>(Errors::KeyIsEmpty) && final(self).staged() == old(self).staged(),
            key@.len() > 0 ==> r is Ok && forall|k: Seq<u8>| #[trigger] final(self).staged_for(k) == if k == key@ {
                Some((LogRecordType::Normal, value@))
            } else {
                old(self).staged_for(k)
            },
    {
        if key.len() == 0 {
            return Err(Errors::KeyIsEmpty);
        }
        self.stage(LogRecord { key, value, rec_type: LogRecordType::Normal });
        Ok(())
    }

    /// Stages a delete of `key`. A key the store does not hold is only
    /// dropped from the batch; an empty key is refused.
    pub fn delete<I: Indexer>(&mut self, key: Vec<u8>, core: &EngineCore<I>) -> (r: Result<(), Errors>)
        requires
            old(self).wf(),
            key@.len() <= MAX_KEY_LEN,
            core.wf(),
        ensures
            final(self).wf(),
            final(self).batch_options() == old(self).batch_options(),
            key@.len() == 0 ==> r == Err::<(), Errors>(Errors::KeyIsEmpty) && final(self).staged() == old(self).staged(),
            key@.len() > 0 ==> r is Ok && forall|k: Seq<u8>| #[trigger] final(self).staged_for(k) == if k != key@ {
                old(self).staged_for(k)
            } else if core.index.index_map().contains_key(key@) {
                Some((LogRecordType::Deleted, Seq::<u8>::empty()))
            } else {
                None
            },
    {
        if key.len() == 0 {
            return Err(Errors::KeyIsEmpty);
        }
        if core.index.get(clone_bytes(&key)).is_none() {
            self.unstage(key.as_slice());
            return Ok(());
        }
        let record = LogRecord { key, value: Vec::new(), rec_type: LogRecordType::Deleted };
        assert(record.value@ =~= Seq::<u8>::empty());
        self.stage(record);
        Ok(())
    }
}

/// A new batch, unless the store cannot take one (see
/// `write_batch_allowed`).
pub fn new_write_batch(
    options: WriteBatchOptions,
    index_type: IndexType,
    sequence_number_file_exists: bool,
    is_first_load: bool,
) -> (r: Result<WriteBatch, Errors>)
    ensures
        match r {
            Ok(b) => write_batch_allowed(index_type, sequence_number_file_exists, is_first_load) && b.wf()
                && b.staged().len() == 0 && b.batch_options() == options,
            Err(e) => !write_batch_allowed(index_type, sequence_number_file_exists, is_first_load)
                && e == Errors::UnableToUseWriteBatch,
        },
{
    if !sequence_number_file_exists && index_type == IndexType::BPlusTree && !is_first_load {
        return Err(Errors::UnableToUseWriteBatch);
    }
    Ok(WriteBatch::new(options))
}

} // verus!

verus! {

/// The records a commit writes, where they go, and whether to flush after.
pub struct CommitPlan {
    /// The sequence number that the batch's records carry.
    pub sequence_number: u64,
    /// The staged records in order, then the transaction-finished record.
    pub writes: Vec<WritePlan>,
    /// Flush the active file once all records are written.
    pub sync: bool,
}

/// The bytes of the `i`-th record that a commit under `seq` writes: the
/// staged records re-keyed with `seq`, then the record that closes the
/// transaction.
pub open spec fn commit_record_bytes(staged: Seq<(Seq<u8>, LogRecordType, Seq<u8>)>, seq: u64, i: int) -> Seq<u8> {
    if i < staged.len() {
        record_bytes(staged[i].1, seq_key(staged[i].0, seq as nat), staged[i].2)
    } else {
        record_bytes(LogRecordType::TxnFinished, seq_key(txn_fin_key(), seq as nat), Seq::empty())
    }
}

/// The append plans of a run of writes.
pub open spec fn plans_of(writes: Seq<WritePlan>) -> Seq<AppendPlan> {
    writes.map_values(|w: WritePlan| w.append)
}

/// Active file, write offset and bytes since the last flush once the first
/// `i` plans are carried out from `(active, offset, bytes_write)`.
pub open spec fn state_at(active: u32, offset: u64, bytes_write: u64, plans: Seq<AppendPlan>, i: int) -> (u32, u64, u64)
    decreases i,
{
    if i <= 0 {
        (active, offset, bytes_write)
    } else {
        let p = plans[i - 1];
        (p.file_id, p.end_offset, crate::engine::bytes_write_after(state_at(active, offset, bytes_write, plans, i - 1).2, p))
    }
}

/// Each write of the run is planned from the state that the writes before
/// it leave.
pub open spec fn plans_chain<I: Indexer>(core: &EngineCore<I>, writes: Seq<WritePlan>) -> bool {
    forall|i: int| 0 <= i < writes.len() ==> {
        let st = #[trigger] state_at(core.active_file_id, core.write_offset, core.bytes_write, plans_of(writes), i);
        append_plan(st.0, st.1, st.2, core.data_file_size, core.sync_write, core.bytes_per_sync, writes[i].bytes@.len() as u64)
            == Some(writes[i].append)
    }
}

/// The index once a committed batch is applied: each staged put maps its
/// key to where its record went, each staged delete removes its key.
pub open spec fn apply_batch(
    m: Map<Seq<u8>, LogRecordPos>,
    staged: Seq<(Seq<u8>, LogRecordType, Seq<u8>)>,
    plans: Seq<AppendPlan>,
) -> Map<Seq<u8>, LogRecordPos>
    decreases staged.len(),
{
    if staged.len() == 0 {
        m
    } else {
        let n = staged.len() - 1;
        let m2 = apply_batch(m, staged.drop_last(), plans);
        match staged[n].1 {
            LogRecordType::Normal => m2.insert(staged[n].0, LogRecordPos { file_id: plans[n].file_id, offset: plans[n].offset }),
            LogRecordType::Deleted => m2.remove(staged[n].0),
            LogRecordType::TxnFinished => m2,
        }
    }
}

impl WriteBatch {
    /// Plans the commit of the batch: nothing for an empty batch, an error
    /// for one larger than its options allow, else every staged record under
    /// the core's sequence number and the record that closes the
    /// transaction.
    pub fn plan_commit<I: Indexer>(&self, core: &EngineCore<I>) -> (r: Result<CommitPlan, Errors>)
        requires
            self.wf(),
        ensures
            self.staged().len() == 0 ==> (r matches Ok(p) && p.writes@.len() == 0),
            self.staged().len() > self.batch_options().max_batch_size ==> r == Err::<CommitPlan, Errors>(
                Errors::BatchSizeExceeded,
            ),
            match r {
                Ok(p) => self.staged().len() == 0 || (
                    p.sequence_number == core.sequence_number
                    && p.sync == self.batch_options().sync_write
                    && p.writes@.len() == self.staged().len() + 1
                    && (forall|i: int| 0 <= i < p.writes@.len() ==> #[trigger] p.writes@[i].bytes@
                        == commit_record_bytes(self.staged(), p.sequence_number, i))
                    && plans_chain(core, p.writes@)),
                Err(e) => (e == Errors::BatchSizeExceeded && self.staged().len() > self.batch_options().max_batch_size)
                    || e == Errors::WriteToDataFileError,
            },
            r == Err::<CommitPlan, Errors>(Errors::WriteToDataFileError) ==> exists|w: Seq<WritePlan>|
                {
                    let st = #[trigger] state_at(core.active_file_id, core.write_offset, core.bytes_write, plans_of(w), w.len() as int);
                    &&& w.len() <= self.staged().len()
                    &&& plans_chain(core, w)
                    &&& append_plan(
                        st.0,
                        st.1,
                        st.2,
                        core.data_file_size,
                        core.sync_write,
                        core.bytes_per_sync,
                        commit_record_bytes(self.staged(), core.sequence_number, w.len() as int).len() as u64,
                    ) is None
                },
    {
        let n = self.pending_writes.len();
        if n == 0 {
            return Ok(CommitPlan { sequence_number: core.sequence_number, writes: Vec::new(), sync: self.options.sync_write });
        }
        if n > self.options.max_batch_size {
            return Err(Errors::BatchSizeExceeded);
        }
        let seq = core.sequence_number;
        let mut writes: Vec<WritePlan> = Vec::new();
        let mut active = core.active_file_id;
        let mut offset = core.write_offset;
        let mut bytes_write = core.bytes_write;
        let mut i: u128 = 0;
        while i <= n as u128
            invariant
                n == self.staged().len(),
                seq == core.sequence_number,
                0 < n <= self.batch_options().max_batch_size,
                i <= n + 1,
                writes@.len() == i,
                (active, offset, bytes_write) == state_at(core.active_file_id, core.write_offset, core.bytes_write, plans_of(writes@), i as int),
                forall|j: int| 0 <= j < i ==> #[trigger] writes@[j].bytes@ == commit_record_bytes(self.staged(), seq, j),
                plans_chain(core, writes@),
            decreases n + 1 - i,
        {
            let record = if i < n as u128 {
                let staged = &self.pending_writes[i as usize];
                assert(self.staged()[i as int] == (staged.key@, staged.rec_type, staged.value@));
                LogRecord {
                    key: get_record_sequence_number_with_key(staged.key.as_slice(), seq),
                    value: clone_bytes(&staged.value),
                    rec_type: staged.rec_type,
                }
            } else {
                let fin = LogRecord {
                    key: get_record_sequence_number_with_key(txn_fin_key_bytes().as_slice(), seq),
                    value: Vec::new(),
                    rec_type: LogRecordType::TxnFinished,
                };
                assert(fin.value@ =~= Seq::<u8>::empty());
                fin
            };
            let bytes = record.encode();
            assert(bytes@ == commit_record_bytes(self.staged(), seq, i as int));
            let append = match crate::engine::next_append(
                active,
                offset,
                bytes_write,
                core.data_file_size,
                core.sync_write,
                core.bytes_per_sync,
                bytes.len() as u64,
            ) {
                Some(p) => p,
                None => {
                    proof {
                        let w = writes@;
                        let st = state_at(core.active_file_id, core.write_offset, core.bytes_write, plans_of(w), w.len() as int);
                        assert(st == (active, offset, bytes_write));
                        assert(w.len() == i);
                        assert(w.len() <= self.staged().len());
                        assert(bytes@ == commit_record_bytes(self.staged(), seq, i as int));
                        assert(seq == core.sequence_number);
                        assert(w.len() as int == i as int);
                        assert(append_plan(active, offset, bytes_write, core.data_file_size, core.sync_write, core.bytes_per_sync, bytes@.len() as u64) is None);
                        assert(append_plan(
                            st.0,
                            st.1,
                            st.2,
                            core.data_file_size,
                            core.sync_write,
                            core.bytes_per_sync,
                            commit_record_bytes(self.staged(), core.sequence_number, w.len() as int).len() as u64,
                        ) is None);
                    }
                    return Err(Errors::WriteToDataFileError);
                },
            };
            let ghost before = writes@;
            writes.push(WritePlan { bytes, append });
            proof {
                let ps = plans_of(writes@);
                assert(plans_of(before) =~= ps.take(i as int));
                assert forall|j: int| 0 <= j <= i implies #[trigger] state_at(core.active_file_id, core.write_offset, core.bytes_write, ps, j)
                    == state_at(core.active_file_id, core.write_offset, core.bytes_write, plans_of(before), j) by {
                    lemma_state_at_prefix(core.active_file_id, core.write_offset, core.bytes_write, ps, i as int, j);
                }
                assert forall|j: int| 0 <= j < writes@.len() implies #[trigger] writes@[j].bytes@ == commit_record_bytes(self.staged(), seq, j) by {
                    if j < i {
                        assert(writes@[j] == before[j]);
                    }
                }
                assert forall|j: int| 0 <= j < writes@.len() implies {
                    let st = #[trigger] state_at(core.active_file_id, core.write_offset, core.bytes_write, plans_of(writes@), j);
                    append_plan(st.0, st.1, st.2, core.data_file_size, core.sync_write, core.bytes_per_sync, writes@[j].bytes@.len() as u64)
                        == Some(writes@[j].append)
                } by {
                    if j < i {
                        assert(writes@[j] == before[j]);
                        let st0 = state_at(core.active_file_id, core.write_offset, core.bytes_write, plans_of(before), j);
                        assert(append_plan(st0.0, st0.1, st0.2, core.data_file_size, core.sync_write, core.bytes_per_sync, before[j].bytes@.len() as u64)
                            == Some(before[j].append));
                    }
                }
            }
            let ghost st_i = state_at(core.active_file_id, core.write_offset, core.bytes_write, plans_of(writes@), i as int);
            assert(st_i == (active, offset, bytes_write));
            bytes_write = if append.sync {
                0
            } else if bytes_write > u64::MAX - (append.end_offset - append.offset) {
                u64::MAX
            } else {
                bytes_write + (append.end_offset - append.offset)
            };
            active = append.file_id;
            offset = append.end_offset;
            i = i + 1;
            proof {
                let ps = plans_of(writes@);
                assert(ps[i - 1] == append);
                assert(state_at(core.active_file_id, core.write_offset, core.bytes_write, ps, i as int) == (
                    append.file_id,
                    append.end_offset,
                    crate::engine::bytes_write_after(st_i.2, append),
                ));
            }
        }
        Ok(CommitPlan { sequence_number: seq, writes, sync: self.options.sync_write })
    }
}

proof fn lemma_state_at_prefix(active: u32, offset: u64, bytes_write: u64, plans: Seq<AppendPlan>, n: int, j: int)
    requires
        0 <= j <= n <= plans.len(),
    ensures
        state_at(active, offset, bytes_write, plans, j) == state_at(active, offset, bytes_write, plans.take(n), j),
    decreases j,
{
    if j > 0 {
        lemma_state_at_prefix(active, offset, bytes_write, plans, n, j - 1);
    }
}

} // verus!

verus! {

/// A commit plan fits a batch of `n` staged records: one write per record
/// and one to close the transaction, each ending no earlier than it starts,
/// and a sequence number that can still be incremented.
pub open spec fn plan_fits(plan: &CommitPlan, n: nat) -> bool {
    &&& plan.writes@.len() == n + 1
    &&& plan.sequence_number < u64::MAX
    &&& forall|j: int| 0 <= j < plan.writes@.len() ==> #[trigger] plan.writes@[j].append.offset <= plan.writes@[j].append.end_offset
}

impl WriteBatch {
    /// Records a planned commit as done, once all of its records are
    /// written: the whole batch reaches the index in this one step, the
    /// sequence counter moves past the batch's number, and the batch is
    /// emptied. A plan that does not fit the batch changes nothing.
    pub fn finish_commit<I: Indexer>(&mut self, core: &mut EngineCore<I>, plan: &CommitPlan) -> (r: Result<(), Errors>)
        requires
            old(self).wf(),
            old(core).wf(),
        ensures
            final(core).wf(),
            final(self).wf(),
            old(self).staged().len() == 0 ==> r is Ok && *final(core) == *old(core) && final(self).staged() == old(self).staged(),
            old(self).staged().len() > 0 && !plan_fits(plan, old(self).staged().len()) ==> r == Err::<(), Errors>(
                Errors::FailedToUpdateIndex,
            ) && *final(core) == *old(core) && final(self).staged() == old(self).staged(),
            old(self).staged().len() > 0 && plan_fits(plan, old(self).staged().len()) ==> {
                &&& r is Ok
                &&& final(core).index.index_map() == apply_batch(
                    old(core).index.index_map(),
                    old(self).staged(),
                    plans_of(plan.writes@),
                )
                &&& final(core).sequence_number == plan.sequence_number + 1
                &&& (final(core).active_file_id, final(core).write_offset, final(core).bytes_write) == state_at(
                    old(core).active_file_id,
                    old(core).write_offset,
                    old(core).bytes_write,
                    plans_of(plan.writes@),
                    plan.writes@.len() as int,
                )
                &&& final(core).data_file_size == old(core).data_file_size
                &&& final(core).sync_write == old(core).sync_write
                &&& final(core).bytes_per_sync == old(core).bytes_per_sync
                &&& final(self).staged().len() == 0
            },
    {
        let n = self.pending_writes.len();
        if n == 0 {
            return Ok(());
        }
        let m = plan.writes.len();
        if m == 0 || m - 1 != n || plan.sequence_number == u64::MAX {
            return Err(Errors::FailedToUpdateIndex);
        }
        let mut j: usize = 0;
        while j < m
            invariant
                m == plan.writes@.len(),
                j <= m,
                n == old(self).staged().len(),
                n > 0,
                *core == *old(core),
                core.wf(),
                self.wf(),
                self.staged() == old(self).staged(),
                forall|k: int| 0 <= k < j ==> #[trigger] plan.writes@[k].append.offset <= plan.writes@[k].append.end_offset,
            decreases m - j,
        {
            if plan.writes[j].append.offset > plan.writes[j].append.end_offset {
                return Err(Errors::FailedToUpdateIndex);
            }
            j = j + 1;
        }
        let ghost ps = plans_of(plan.writes@);
        let ghost c0 = *core;
        let mut j: usize = 0;
        while j < m
            invariant
                m == plan.writes@.len(),
                ps == plans_of(plan.writes@),
                plan_fits(plan, n as nat),
                j <= m,
                core.wf(),
                core.index == c0.index,
                core.sequence_number == c0.sequence_number,
                core.data_file_size == c0.data_file_size,
                core.sync_write == c0.sync_write,
                core.bytes_per_sync == c0.bytes_per_sync,
                (core.active_file_id, core.write_offset, core.bytes_write) == state_at(
                    c0.active_file_id,
                    c0.write_offset,
                    c0.bytes_write,
                    ps,
                    j as int,
                ),
            decreases m - j,
        {
            assert(ps[j as int] == plan.writes@[j as int].append);
            core.apply_append(&plan.writes[j].append);
            j = j + 1;
        }
        let ghost staged = self.staged();
        let ghost m0 = c0.index.index_map();
        let mut i: usize = 0;
        while i < n
            invariant
                n == self.pending_writes@.len(),
                staged == self.staged(),
                m == plan.writes@.len(),
                m == n + 1,
                ps == plans_of(plan.writes@),
                i <= n,
                core.wf(),
                core.index.index_map() == apply_batch(m0, staged.take(i as int), ps),
                core.sequence_number == c0.sequence_number,
                core.data_file_size == c0.data_file_size,
                core.sync_write == c0.sync_write,
                core.bytes_per_sync == c0.bytes_per_sync,
                (core.active_file_id, core.write_offset, core.bytes_write) == state_at(
                    c0.active_file_id,
                    c0.write_offset,
                    c0.bytes_write,
                    ps,
                    m as int,
                ),
            decreases n - i,
        {
            let record = &self.pending_writes[i];
            assert(staged[i as int] == (record.key@, record.rec_type, record.value@));
            assert(staged.take(i + 1).drop_last() =~= staged.take(i as int));
            assert(ps[i as int] == plan.writes@[i as int].append);
            match record.rec_type {
                LogRecordType::Normal => {
                    let pos = LogRecordPos { file_id: plan.writes[i].append.file_id, offset: plan.writes[i].append.offset };
                    core.index.put(clone_bytes(&record.key), pos);
                },
                LogRecordType::Deleted => {
                    core.index.delete(clone_bytes(&record.key));
                },
                LogRecordType::TxnFinished => {},
            }
            i = i + 1;
        }
        assert(staged.take(n as int) =~= staged);
        core.sequence_number = plan.sequence_number + 1;
        self.pending_writes = Vec::new();
        assert(self.staged() =~= Seq::<(Seq<u8>, LogRecordType, Seq<u8>)>::empty());
        Ok(())
    }
}

} // verus!
