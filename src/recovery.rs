//! Rebuilding the index from the log at startup.
//!
//! Records written outside a batch (sequence number 0) reach the index at
//! once. Records of a batch are held back, grouped by sequence number, until
//! the batch's transaction-finished record is read; a batch whose closing
//! record never made it to disk never reaches the index.

use vstd::prelude::*;

use crate::data_file::{read_record_at, record_at};
use crate::errors::Errors;
use crate::index::{clone_bytes, Indexer};
use crate::log_record::{LogRecord, LogRecordPos, LogRecordType, TransactionRecord};
use crate::seq_key::{parse_record_sequence_number_with_key, seq_key_parse};

verus! {

/// A held-back record: its key, its kind and where it is.
pub type TxnEntry = (Seq<u8>, LogRecordType, LogRecordPos);

/// The pending transactions: for each sequence number met without its
/// closing record yet, the records of that batch in log order.
pub type PendingGroups = Seq<(u64, Seq<TxnEntry>)>;

/// The index, the pending transactions and the largest sequence number met.
pub type ReplayState = (Map<Seq<u8>, LogRecordPos>, PendingGroups, u64);

/// The index once one record of kind `ty` for `key` at `pos` is applied.
pub open spec fn apply_entry(m: Map<Seq<u8>, LogRecordPos>, key: Seq<u8>, ty: LogRecordType, pos: LogRecordPos) -> Map<
    Seq<u8>,
    LogRecordPos,
> {
    match ty {
        LogRecordType::Normal => m.insert(key, pos),
        LogRecordType::Deleted => m.remove(key),
        LogRecordType::TxnFinished => m,
    }
}

/// The index once a run of records is applied in order.
pub open spec fn apply_entries(m: Map<Seq<u8>, LogRecordPos>, es: Seq<TxnEntry>) -> Map<Seq<u8>, LogRecordPos>
    decreases es.len(),
{
    if es.len() == 0 {
        m
    } else {
        apply_entry(apply_entries(m, es.drop_last()), es.last().0, es.last().1, es.last().2)
    }
}

/// Where the group of sequence number `seq` stands, if there is one.
pub open spec fn find_group(g: PendingGroups, seq: u64) -> Option<int> {
    if exists|i: int| 0 <= i < g.len() && g[i].0 == seq {
        Some(choose|i: int| 0 <= i < g.len() && g[i].0 == seq)
    } else {
        None
    }
}

/// Each sequence number has at most one group.
pub open spec fn groups_unique(g: PendingGroups) -> bool {
    forall|i: int, j: int| 0 <= i < j < g.len() ==> #[trigger] g[i].0 != #[trigger] g[j].0
}

/// One record read during recovery, of kind `ty`, with stored key
/// `stored_key`, at `pos`.
pub open spec fn replay_step(st: ReplayState, ty: LogRecordType, stored_key: Seq<u8>, pos: LogRecordPos) -> Result<
    ReplayState,
    Errors,
> {
    match seq_key_parse(stored_key) {
        None => Err(Errors::InvalidLogRecordCrc),
        Some((seq, key)) => {
            let max = if seq > st.2 {
                seq
            } else {
                st.2
            };
            if seq == 0 {
                Ok((apply_entry(st.0, key, ty, pos), st.1, max))
            } else if ty == LogRecordType::TxnFinished {
                match find_group(st.1, seq) {
                    None => Ok((st.0, st.1, max)),
                    Some(i) => Ok((apply_entries(st.0, st.1[i].1), st.1.remove(i), max)),
                }
            } else {
                match find_group(st.1, seq) {
                    None => Ok((st.0, st.1.push((seq, seq![(key, ty, pos)])), max)),
                    Some(i) => Ok((st.0, st.1.update(i, (seq, st.1[i].1.push((key, ty, pos)))), max)),
                }
            }
        },
    }
}

/// Recovery over the records of data file `file_id` from `off` on: the
/// state it leaves and the offset where the file's records end.
pub open spec fn replay_file(st: ReplayState, data: Seq<u8>, file_id: u32, off: nat) -> Result<(ReplayState, nat), Errors>
    decreases data.len() - off,
{
    match record_at(data, off) {
        Err(e) => if e == Errors::ReadDataFileEof {
            Ok((st, off))
        } else {
            Err(e)
        },
        Ok((ty, k, v, size)) => if size > 0 && off + size <= data.len() && off <= u64::MAX {
            match replay_step(st, ty, k, LogRecordPos { file_id, offset: off as u64 }) {
                Err(e) => Err(e),
                Ok(st2) => replay_file(st2, data, file_id, off + size),
            }
        } else {
            Err(Errors::InvalidLogRecordCrc)
        },
    }
}

/// Whether recovery scans data file `file_id`: the files that a finished
/// merge rewrote are covered by its hint file instead.
pub fn needs_scan(file_id: u32, unmerged_file_id: Option<u32>) -> (r: bool)
    ensures
        r == match unmerged_file_id {
            Some(u) => file_id >= u,
            None => true,
        },
{
    match unmerged_file_id {
        Some(u) => file_id >= u,
        None => true,
    }
}

/// A record read in full ends inside its file and takes at least one byte.
pub proof fn lemma_record_at_size(data: Seq<u8>, off: nat)
    requires
        record_at(data, off) is Ok,
    ensures
        record_at(data, off)->Ok_0.3 > 0,
        off + record_at(data, off)->Ok_0.3 <= data.len(),
{
    reveal(record_at);
}

/// The transactions that recovery holds back, and the largest sequence
/// number it has met.
pub struct Recovery {
    groups: Vec<(u64, Vec<TransactionRecord>)>,
    max_seq: u64,
}

/// The held-back records of a group.
pub open spec fn entries_of(v: Seq<TransactionRecord>) -> Seq<TxnEntry> {
    v.map_values(|t: TransactionRecord| (t.record.key@, t.record.rec_type, t.position))
}

impl Recovery {
    pub closed spec fn pending(&self) -> PendingGroups {
        self.groups@.map_values(|g: (u64, Vec<TransactionRecord>)| (g.0, entries_of(g.1@)))
    }

    pub closed spec fn max_sequence(&self) -> u64 {
        self.max_seq
    }

    pub open spec fn wf(&self) -> bool {
        groups_unique(self.pending())
    }

    /// Nothing held back, no sequence number met.
    pub fn new() -> (r: Self)
        ensures
            r.wf(),
            r.pending().len() == 0,
            r.max_sequence() == 0,
    {
        let r = Recovery { groups: Vec::new(), max_seq: 0 };
        assert(r.pending() =~= Seq::<(u64, Seq<TxnEntry>)>::empty());
        r
    }

    /// The sequence number that the next write batch takes: one past the
    /// largest met, and at least 1.
    pub fn next_sequence_number(&self) -> (r: u64)
        ensures
            r == (if self.max_sequence() == u64::MAX {
                u64::MAX
            } else {
                (self.max_sequence() + 1) as u64
            }),
            r >= 1,
    {
        if self.max_seq == u64::MAX {
            u64::MAX
        } else {
            self.max_seq + 1
        }
    }

    fn find(&self, seq: u64) -> (r: Option<usize>)
        requires
            self.wf(),
        ensures
            match r {
                None => find_group(self.pending(), seq) is None,
                Some(i) => find_group(self.pending(), seq) == Some(i as int) && i < self.groups@.len(),
            },
    {
        let ghost g = self.pending();
        let mut i: usize = 0;
        while i < self.groups.len()
            invariant
                g == self.pending(),
                groups_unique(g),
                g.len() == self.groups@.len(),
                i <= g.len(),
                forall|j: int| 0 <= j < i ==> #[trigger] g[j].0 != seq,
            decreases g.len() - i,
        {
            assert(g[i as int].0 == self.groups@[i as int].0);
            if self.groups[i].0 == seq {
                proof {
                    let c = choose|j: int| 0 <= j < g.len() && g[j].0 == seq;
                    if c != i {
                        if c < i {
                        } else {
                            assert(g[i as int].0 != g[c].0);
                        }
                    }
                }
                return Some(i);
            }
            i = i + 1;
        }
        None
    }

    /// Applies the held-back records of group `i` to `index` and drops the
    /// group.
    fn finish_group<I: Indexer>(&mut self, index: &mut I, i: usize)
        requires
            old(self).wf(),
            old(index).wf(),
            i < old(self).pending().len(),
        ensures
            final(self).wf(),
            final(index).wf(),
            final(self).max_sequence() == old(self).max_sequence(),
            final(self).pending() == old(self).pending().remove(i as int),
            final(index).index_map() == apply_entries(old(index).index_map(), old(self).pending()[i as int].1),
    {
        let ghost g = self.pending();
        let ghost m0 = index.index_map();
        let group = self.groups.remove(i);
        assert(self.pending() =~= g.remove(i as int));
        assert(entries_of(group.1@) == g[i as int].1);
        let ghost es = entries_of(group.1@);
        let records = group.1;
        let mut j: usize = 0;
        while j < records.len()
            invariant
                es == entries_of(records@),
                j <= records@.len(),
                index.wf(),
                index.index_map() == apply_entries(m0, es.take(j as int)),
            decreases records@.len() - j,
        {
            let t = &records[j];
            assert(es.take(j + 1).drop_last() =~= es.take(j as int));
            assert(es[j as int] == (t.record.key@, t.record.rec_type, t.position));
            match t.record.rec_type {
                LogRecordType::Normal => {
                    index.put(clone_bytes(&t.record.key), t.position);
                },
                LogRecordType::Deleted => {
                    index.delete(clone_bytes(&t.record.key));
                },
                LogRecordType::TxnFinished => {},
            }
            j = j + 1;
        }
        assert(es.take(records@.len() as int) =~= es);
        proof {
            let p = self.pending();
            assert forall|a: int, b: int| 0 <= a < b < p.len() implies #[trigger] p[a].0 != #[trigger] p[b].0 by {
                let a0 = if a < i { a } else { a + 1 };
                let b0 = if b < i { b } else { b + 1 };
                assert(p[a] == g[a0] && p[b] == g[b0]);
            }
        }
    }

    /// Holds back a record of the batch with sequence number `seq`.
    fn hold(&mut self, seq: u64, t: TransactionRecord)
        requires
            old(self).wf(),
        ensures
            final(self).wf(),
            final(self).max_sequence() == old(self).max_sequence(),
            final(self).pending() == match find_group(old(self).pending(), seq) {
                None => old(self).pending().push((seq, seq![(t.record.key@, t.record.rec_type, t.position)])),
                Some(i) => old(self).pending().update(
                    i,
                    (seq, old(self).pending()[i].1.push((t.record.key@, t.record.rec_type, t.position))),
                ),
            },
    {
        let ghost g = self.pending();
        let ghost e = (t.record.key@, t.record.rec_type, t.position);
        match self.find(seq) {
            None => {
                let mut v: Vec<TransactionRecord> = Vec::new();
                v.push(t);
                self.groups.push((seq, v));
                proof {
                    assert(entries_of(self.groups@[g.len() as int].1@) =~= seq![e]);
                    assert(self.pending() =~= g.push((seq, seq![e])));
                    let p = self.pending();
                    assert forall|a: int, b: int| 0 <= a < b < p.len() implies #[trigger] p[a].0 != #[trigger] p[b].0 by {
                        if b == g.len() {
                            assert(p[a] == g[a]);
                        } else {
                            assert(p[a] == g[a] && p[b] == g[b]);
                        }
                    }
                }
            },
            Some(i) => {
                let mut group = self.groups.remove(i);
                let ghost old_entries = entries_of(group.1@);
                group.1.push(t);
                assert(entries_of(group.1@) =~= old_entries.push(e));
                self.groups.insert(i, group);
                proof {
                    assert(self.pending() =~= g.update(i as int, (seq, g[i as int].1.push(e))));
                    let p = self.pending();
                    assert forall|a: int, b: int| 0 <= a < b < p.len() implies #[trigger] p[a].0 != #[trigger] p[b].0 by {
                        assert(p[a].0 == g[a].0 && p[b].0 == g[b].0);
                    }
                }
            },
        }
    }

    /// The state that the replay functions speak of.
    pub open spec fn state<I: Indexer>(&self, index: &I) -> ReplayState {
        (index.index_map(), self.pending(), self.max_sequence())
    }

    /// Applies one record read at `pos`, as `replay_step` says.
    fn step<I: Indexer>(&mut self, index: &mut I, record: LogRecord, pos: LogRecordPos) -> (r: Result<(), Errors>)
        requires
            old(self).wf(),
            old(index).wf(),
        ensures
            final(self).wf(),
            final(index).wf(),
            match replay_step(old(self).state(old(index)), record.rec_type, record.key@, pos) {
                Ok(st) => r is Ok && final(self).state(final(index)) == st,
                Err(e) => r == Err::<(), Errors>(e),
            },
    {
        let (seq, key) = match parse_record_sequence_number_with_key(record.key.as_slice()) {
            None => return Err(Errors::InvalidLogRecordCrc),
            Some(p) => p,
        };
        if seq > self.max_seq {
            self.max_seq = seq;
        }
        if seq == 0 {
            match record.rec_type {
                LogRecordType::Normal => {
                    index.put(key, pos);
                },
                LogRecordType::Deleted => {
                    index.delete(key);
                },
                LogRecordType::TxnFinished => {},
            }
        } else if record.rec_type == LogRecordType::TxnFinished {
            match self.find(seq) {
                None => {},
                Some(i) => {
                    self.finish_group(index, i);
                },
            }
        } else {
            let t = TransactionRecord { record: LogRecord { key, value: record.value, rec_type: record.rec_type }, position: pos };
            self.hold(seq, t);
        }
        Ok(())
    }

    /// Recovers the records of data file `file_id`, whose bytes are `data`,
    /// into `index`; answers the offset where the file's records end.
    pub fn load_file<I: Indexer>(&mut self, index: &mut I, file_id: u32, data: &[u8]) -> (r: Result<u64, Errors>)
        requires
            old(self).wf(),
            old(index).wf(),
        ensures
            final(self).wf(),
            final(index).wf(),
            match replay_file(old(self).state(old(index)), data@, file_id, 0) {
                Ok((st, end)) => r == Ok::<u64, Errors>(end as u64) && final(self).state(final(index)) == st,
                Err(e) => r == Err::<u64, Errors>(e),
            },
    {
        let ghost goal = replay_file(old(self).state(old(index)), data@, file_id, 0);
        let len = data.len();
        let mut offset: u64 = 0;
        loop
            invariant
                len == data@.len(),
                goal == replay_file(old(self).state(old(index)), data@, file_id, 0),
                self.wf(),
                index.wf(),
                offset <= data@.len(),
                goal == replay_file(self.state(index), data@, file_id, offset as nat),
            decreases data@.len() - offset,
        {
            let read = read_record_at(data, offset);
            let ghost cur = self.state(index);
            match read {
                Err(e) => {
                    assert(record_at(data@, offset as nat) == Err::<(LogRecordType, Seq<u8>, Seq<u8>, nat), Errors>(e));
                    if e == Errors::ReadDataFileEof {
                        assert(goal == Ok::<(ReplayState, nat), Errors>((cur, offset as nat)));
                        return Ok(offset);
                    }
                    assert(goal == Err::<(ReplayState, nat), Errors>(e));
                    return Err(e);
                },
                Ok(rr) => {
                    proof {
                        lemma_record_at_size(data@, offset as nat);
                    }
                    let size = rr.size;
                    let pos = LogRecordPos { file_id, offset };
                    let ghost ty = rr.record.rec_type;
                    let ghost k = rr.record.key@;
                    match self.step(index, rr.record, pos) {
                        Err(e) => {
                            assert(replay_step(cur, ty, k, pos) == Err::<ReplayState, Errors>(e));
                            assert(goal == Err::<(ReplayState, nat), Errors>(e));
                            return Err(e);
                        },
                        Ok(()) => {},
                    }
                    assert(offset + size <= len);
                    offset = offset + size;
                },
            }
        }
    }
}

} // verus!

verus! {

/// A record of a batch whose closing record has not been read does not
/// reach the index: recovery only holds it back.
pub proof fn lemma_unfinished_batch_invisible(st: ReplayState, ty: LogRecordType, stored_key: Seq<u8>, pos: LogRecordPos)
    requires
        seq_key_parse(stored_key) is Some,
        seq_key_parse(stored_key)->Some_0.0 > 0,
        ty != LogRecordType::TxnFinished,
    ensures
        replay_step(st, ty, stored_key, pos) is Ok,
        replay_step(st, ty, stored_key, pos)->Ok_0.0 == st.0,
{
}

/// The largest sequence number met never goes down, and covers every
/// record read, so a reopened store numbers its next batch above every
/// batch in the log.
pub proof fn lemma_replay_step_max_sequence(st: ReplayState, ty: LogRecordType, stored_key: Seq<u8>, pos: LogRecordPos)
    requires
        replay_step(st, ty, stored_key, pos) is Ok,
    ensures
        replay_step(st, ty, stored_key, pos)->Ok_0.2 >= st.2,
        replay_step(st, ty, stored_key, pos)->Ok_0.2 >= seq_key_parse(stored_key)->Some_0.0,
{
}

/// Recovery over a file that ends in a torn record keeps what came before
/// it and stops there without an error.
pub proof fn lemma_replay_stops_at_torn_record(
    st: ReplayState,
    file: Seq<u8>,
    file_id: u32,
    off: nat,
    ty: LogRecordType,
    key: Seq<u8>,
    value: Seq<u8>,
    cut: nat,
)
    requires
        key.len() <= u32::MAX,
        value.len() <= u32::MAX,
        key.len() + value.len() > 0,
        0 < cut < crate::log_record::record_bytes(ty, key, value).len(),
        file.len() == off + cut,
        file.subrange(off as int, file.len() as int) == crate::log_record::record_bytes(ty, key, value).take(cut as int),
    ensures
        replay_file(st, file, file_id, off) == Ok::<(ReplayState, nat), Errors>((st, off)),
{
    crate::data_file::lemma_torn_record_ends_file(file, off, ty, key, value, cut);
}

} // verus!

verus! {

/// What a put wrote survives a restart: recovery, reading the put's record
/// where it was written, maps the key to that record and goes on after it.
pub proof fn lemma_replay_put_record(st: ReplayState, file: Seq<u8>, file_id: u32, off: nat, key: Seq<u8>, value: Seq<u8>)
    requires
        key.len() > 0,
        key.len() < u32::MAX,
        value.len() <= u32::MAX,
        off <= u64::MAX,
        off + crate::log_record::record_bytes(LogRecordType::Normal, crate::seq_key::seq_key(key, 0), value).len() <= file.len(),
        file.subrange(
            off as int,
            off + crate::log_record::record_bytes(LogRecordType::Normal, crate::seq_key::seq_key(key, 0), value).len() as int,
        ) == crate::log_record::record_bytes(LogRecordType::Normal, crate::seq_key::seq_key(key, 0), value),
    ensures
        replay_file(st, file, file_id, off) == replay_file(
            (st.0.insert(key, LogRecordPos { file_id, offset: off as u64 }), st.1, st.2),
            file,
            file_id,
            off + crate::log_record::record_bytes(LogRecordType::Normal, crate::seq_key::seq_key(key, 0), value).len(),
        ),
{
    let pos = LogRecordPos { file_id, offset: off as u64 };
    crate::engine::lemma_put_then_get(st.0, key, value, pos, file);
}

} // verus!

verus! {

/// Once a batch's closing record is read, all of its held-back records
/// reach the index together, in log order, and the batch is no longer
/// pending.
pub proof fn lemma_finished_batch_applies_all(st: ReplayState, stored_key: Seq<u8>, pos: LogRecordPos, i: int)
    requires
        groups_unique(st.1),
        seq_key_parse(stored_key) is Some,
        seq_key_parse(stored_key)->Some_0.0 > 0,
        0 <= i < st.1.len(),
        st.1[i].0 == seq_key_parse(stored_key)->Some_0.0,
    ensures
        replay_step(st, LogRecordType::TxnFinished, stored_key, pos) is Ok,
        replay_step(st, LogRecordType::TxnFinished, stored_key, pos)->Ok_0.0 == apply_entries(st.0, st.1[i].1),
        replay_step(st, LogRecordType::TxnFinished, stored_key, pos)->Ok_0.1 == st.1.remove(i),
{
    let seq = seq_key_parse(stored_key)->Some_0.0;
    let c = choose|j: int| 0 <= j < st.1.len() && st.1[j].0 == seq;
    if c != i {
        if c < i {
            assert(st.1[c].0 != st.1[i].0);
        } else {
            assert(st.1[i].0 != st.1[c].0);
        }
    }
}

} // verus!

verus! {

/// Over a whole file, recovery's largest sequence number met never goes
/// down; with `lemma_replay_step_max_sequence` this puts the next batch's
/// number above every batch the file holds.
pub proof fn lemma_replay_file_max_sequence(st: ReplayState, data: Seq<u8>, file_id: u32, off: nat)
    requires
        replay_file(st, data, file_id, off) is Ok,
    ensures
        replay_file(st, data, file_id, off)->Ok_0.0.2 >= st.2,
    decreases data.len() - off,
{
    match record_at(data, off) {
        Err(e) => {},
        Ok((ty, k, v, size)) => {
            if size > 0 && off + size <= data.len() && off <= u64::MAX {
                let st2 = replay_step(st, ty, k, LogRecordPos { file_id, offset: off as u64 })->Ok_0;
                lemma_replay_step_max_sequence(st, ty, k, LogRecordPos { file_id, offset: off as u64 });
                lemma_replay_file_max_sequence(st2, data, file_id, off + size);
            }
        },
    }
}

} // verus!

verus! {

/// A record as written: its kind, stored key and value.
pub type WrittenRecord = (LogRecordType, Seq<u8>, Seq<u8>);

/// The bytes of records written one after another.
pub open spec fn log_bytes(recs: Seq<WrittenRecord>) -> Seq<u8>
    decreases recs.len(),
{
    if recs.len() == 0 {
        Seq::empty()
    } else {
        crate::log_record::record_bytes(recs[0].0, recs[0].1, recs[0].2) + log_bytes(recs.drop_first())
    }
}

/// Every record fits the format, and its stored key carries a sequence
/// number, as the engine writes them.
pub open spec fn records_well_formed(recs: Seq<WrittenRecord>) -> bool {
    forall|i: int| 0 <= i < recs.len() ==> {
        &&& (#[trigger] recs[i]).1.len() <= u32::MAX
        &&& recs[i].2.len() <= u32::MAX
        &&& recs[i].1.len() + recs[i].2.len() > 0
        &&& seq_key_parse(recs[i].1) is Some
    }
}

/// Recovery over records written from `off` on, each at the offset where
/// the one before it ends.
pub open spec fn replay_records(st: ReplayState, recs: Seq<WrittenRecord>, file_id: u32, off: nat) -> Result<(ReplayState, nat), Errors>
    decreases recs.len(),
{
    if recs.len() == 0 {
        Ok((st, off))
    } else {
        match replay_step(st, recs[0].0, recs[0].1, LogRecordPos { file_id, offset: off as u64 }) {
            Err(e) => Err(e),
            Ok(st2) => replay_records(
                st2,
                recs.drop_first(),
                file_id,
                off + crate::log_record::record_bytes(recs[0].0, recs[0].1, recs[0].2).len(),
            ),
        }
    }
}

/// The tail after the last whole record: nothing, or a record cut short by
/// a crash.
pub open spec fn torn_or_empty(tail: Seq<u8>) -> bool {
    tail.len() == 0 || exists|ty: LogRecordType, key: Seq<u8>, value: Seq<u8>, cut: nat|
        key.len() <= u32::MAX && value.len() <= u32::MAX && key.len() + value.len() > 0 && 0 < cut
            < crate::log_record::record_bytes(ty, key, value).len() && tail == #[trigger] crate::log_record::record_bytes(
            ty,
            key,
            value,
        ).take(cut as int)
}

proof fn lemma_record_at_end(file: Seq<u8>)
    ensures
        record_at(file, file.len()) == Err::<(LogRecordType, Seq<u8>, Seq<u8>, nat), Errors>(Errors::ReadDataFileEof),
{
    reveal(record_at);
    let w = crate::data_file::header_window(file, file.len());
    assert(w.drop_first()[0] == 0);
    assert(w.drop_first().take(1).drop_first() =~= Seq::<u8>::empty());
    assert(crate::varint::varint_value(Seq::<u8>::empty()) == 0);
    assert(crate::varint::varint_decode(w.drop_first()) == Some((0nat, 1nat)));
    let r = w.subrange(2, w.len() as int);
    assert(r[0] == 0);
    assert(r.take(1).drop_first() =~= Seq::<u8>::empty());
    assert(crate::varint::varint_decode(r) == Some((0nat, 1nat)));
}

/// A log of whole records, ending in nothing or in a record that a crash
/// cut short, is recovered without error: exactly as its whole records,
/// the torn one left out.
pub proof fn lemma_crashed_log_replays(st: ReplayState, file: Seq<u8>, file_id: u32, off: nat, recs: Seq<WrittenRecord>, tail: Seq<u8>)
    requires
        records_well_formed(recs),
        torn_or_empty(tail),
        off <= file.len(),
        file.len() <= u64::MAX,
        file.subrange(off as int, file.len() as int) == log_bytes(recs) + tail,
    ensures
        replay_file(st, file, file_id, off) == replay_records(st, recs, file_id, off),
        replay_records(st, recs, file_id, off) is Ok,
    decreases recs.len(),
{
    if recs.len() == 0 {
        assert(log_bytes(recs) + tail =~= tail);
        if tail.len() == 0 {
            lemma_record_at_end(file);
        } else {
            let (ty, key, value, cut) = choose|ty: LogRecordType, key: Seq<u8>, value: Seq<u8>, cut: nat|
                key.len() <= u32::MAX && value.len() <= u32::MAX && key.len() + value.len() > 0 && 0 < cut
                    < crate::log_record::record_bytes(ty, key, value).len() && tail == #[trigger] crate::log_record::record_bytes(
                    ty,
                    key,
                    value,
                ).take(cut as int);
            crate::data_file::lemma_torn_record_ends_file(file, off, ty, key, value, cut);
        }
    } else {
        let r0 = recs[0];
        let b = crate::log_record::record_bytes(r0.0, r0.1, r0.2);
        let rest = recs.drop_first();
        assert(records_well_formed(rest)) by {
            assert forall|i: int| 0 <= i < rest.len() implies {
                &&& (#[trigger] rest[i]).1.len() <= u32::MAX
                &&& rest[i].2.len() <= u32::MAX
                &&& rest[i].1.len() + rest[i].2.len() > 0
                &&& seq_key_parse(rest[i].1) is Some
            } by {
                assert(rest[i] == recs[i + 1]);
            }
        }
        let whole = log_bytes(recs) + tail;
        assert(whole =~= b + (log_bytes(rest) + tail));
        assert(file.subrange(off as int, off + b.len() as int) =~= b) by {
            assert forall|i: int| 0 <= i < b.len() implies file.subrange(off as int, off + b.len() as int)[i] == b[i] by {
                assert(file.subrange(off as int, file.len() as int)[i] == file[off + i]);
                assert(whole[i] == b[i]);
            }
        }
        assert(recs[0] == r0);
        crate::data_file::lemma_record_at(file, off, r0.0, r0.1, r0.2);
        lemma_record_at_size(file, off);
        assert(file.subrange(off + b.len() as int, file.len() as int) =~= log_bytes(rest) + tail) by {
            assert forall|i: int| 0 <= i < file.len() - off - b.len() implies file.subrange(off + b.len() as int, file.len() as int)[i]
                == (log_bytes(rest) + tail)[i] by {
                assert(file.subrange(off as int, file.len() as int)[b.len() + i] == file[off + b.len() + i]);
                assert(whole[b.len() + i] == (log_bytes(rest) + tail)[i]);
            }
        }
        let pos = LogRecordPos { file_id, offset: off as u64 };
        let st2 = replay_step(st, r0.0, r0.1, pos)->Ok_0;
        lemma_crashed_log_replays(st2, file, file_id, off + b.len(), rest, tail);
    }
}

} // verus!
