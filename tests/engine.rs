use std::collections::BTreeMap;

use bitcask::batch::{new_write_batch, WriteBatch};
use bitcask::data_file::read_record_at;
use bitcask::engine::{value_of, AppendPlan, EngineCore};
use bitcask::errors::Errors;
use bitcask::index::{BTree, Indexer};
use bitcask::log_record::{LogRecord, LogRecordPos, LogRecordType};
use bitcask::merge::{
    encode_hint_record, hint_applies, encode_merge_finished_record, load_index_from_hint_file, merge_step,
    non_merge_file_id, parse_merge_finished_value, MergeStep,
};
use bitcask::options::{check_options, IndexType, Options, WriteBatchOptions};
use bitcask::recovery::{needs_scan, Recovery};
use bitcask::skiplist::SkipList;

/// Data files kept in memory, standing in for the directory of a store.
#[derive(Default)]
struct Disk {
    files: BTreeMap<u32, Vec<u8>>,
}

impl Disk {
    fn append(&mut self, plan: &AppendPlan, bytes: &[u8]) {
        let file = self.files.entry(plan.file_id).or_default();
        assert_eq!(file.len() as u64, plan.offset);
        file.extend_from_slice(bytes);
    }
}

fn options(data_file_size: u64) -> Options {
    Options { dir_path: "db".to_string(), data_file_size, ..Default::default() }
}

fn open_empty<I: Indexer>(index: I, opts: &Options, disk: &mut Disk) -> EngineCore<I> {
    disk.files.insert(0, Vec::new());
    EngineCore::new(index, opts, 0, 0, 1)
}

fn put<I: Indexer>(core: &mut EngineCore<I>, disk: &mut Disk, key: &[u8], value: &[u8]) -> Result<(), Errors> {
    let plan = core.plan_put(key, value)?;
    disk.append(&plan.append, &plan.bytes);
    core.finish_put(key.to_vec(), &plan.append);
    Ok(())
}

fn get<I: Indexer>(core: &EngineCore<I>, disk: &Disk, key: &[u8]) -> Result<Vec<u8>, Errors> {
    let pos = core.lookup(key)?;
    let file = disk.files.get(&pos.file_id).ok_or(Errors::DataFileNotFound)?;
    let rr = read_record_at(file, pos.offset)?;
    value_of(rr.record)
}

fn delete<I: Indexer>(core: &mut EngineCore<I>, disk: &mut Disk, key: &[u8]) -> Result<(), Errors> {
    let plan = core.plan_delete(key)?;
    disk.append(&plan.append, &plan.bytes);
    core.finish_delete(key.to_vec(), &plan.append);
    Ok(())
}

fn commit<I: Indexer>(core: &mut EngineCore<I>, disk: &mut Disk, batch: &mut WriteBatch) -> Result<(), Errors> {
    let plan = batch.plan_commit(core)?;
    for w in &plan.writes {
        disk.append(&w.append, &w.bytes);
    }
    batch.finish_commit(core, &plan)
}

fn reopen(disk: &Disk, opts: &Options) -> EngineCore<BTree> {
    let mut index = BTree::new();
    let mut recovery = Recovery::new();
    let mut active = 0;
    let mut end = 0;
    for (id, data) in &disk.files {
        end = recovery.load_file(&mut index, *id, data).expect("recovery");
        active = *id;
    }
    EngineCore::new(index, opts, active, end, recovery.next_sequence_number())
}

#[test]
fn basic_put_get_delete() {
    let opts = options(1 << 20);
    let mut disk = Disk::default();
    let mut core = open_empty(BTree::new(), &opts, &mut disk);
    put(&mut core, &mut disk, b"k1", b"v1").unwrap();
    put(&mut core, &mut disk, b"k2", b"v2").unwrap();
    assert_eq!(get(&core, &disk, b"k1"), Ok(b"v1".to_vec()));
    delete(&mut core, &mut disk, b"k1").unwrap();
    assert_eq!(get(&core, &disk, b"k1"), Err(Errors::KeyNotFound));
    assert_eq!(get(&core, &disk, b"k2"), Ok(b"v2".to_vec()));
}

#[test]
fn put_rules_on_keys_and_values() {
    let opts = options(1 << 20);
    let mut disk = Disk::default();
    let mut core = open_empty(SkipList::new(), &opts, &mut disk);
    assert_eq!(put(&mut core, &mut disk, b"", b"v"), Err(Errors::KeyIsEmpty));
    put(&mut core, &mut disk, b"k", b"").unwrap();
    assert_eq!(get(&core, &disk, b"k"), Ok(Vec::new()));
    put(&mut core, &mut disk, b"k", b"v1").unwrap();
    put(&mut core, &mut disk, b"k", b"v2").unwrap();
    assert_eq!(get(&core, &disk, b"k"), Ok(b"v2".to_vec()));
    assert_eq!(get(&core, &disk, b""), Err(Errors::KeyIsEmpty));
    assert_eq!(get(&core, &disk, b"missing"), Err(Errors::KeyNotFound));
    assert_eq!(delete(&mut core, &mut disk, b"missing"), Err(Errors::KeyNotFound));
    assert_eq!(delete(&mut core, &mut disk, b""), Err(Errors::KeyIsEmpty));
}

#[test]
fn rotation_splits_the_log() {
    let opts = options(4096);
    let mut disk = Disk::default();
    let mut core = open_empty(BTree::new(), &opts, &mut disk);
    let value = vec![b'x'; 85];
    for i in 0..100 {
        let key = format!("key_{:03}", i);
        put(&mut core, &mut disk, key.as_bytes(), &value).unwrap();
    }
    assert!(disk.files.values().all(|f| f.len() <= 4096));
    assert_eq!(disk.files.len(), (100 * 100 + 4095) / 4096);
    assert_eq!(core.active_file_id, 2);
    for i in 0..100 {
        let key = format!("key_{:03}", i);
        assert_eq!(get(&core, &disk, key.as_bytes()), Ok(value.clone()));
    }
}

#[test]
fn sync_policy() {
    let mut opts = options(1 << 20);
    opts.bytes_per_sync = 100;
    let disk_core = EngineCore::new(BTree::new(), &opts, 0, 0, 1);
    let plan = disk_core.plan_append(60).unwrap();
    assert!(!plan.sync && !plan.rotate);
    let mut core = disk_core;
    core.apply_append(&plan);
    assert_eq!(core.bytes_write, 60);
    let plan = core.plan_append(40).unwrap();
    assert!(plan.sync);
    core.apply_append(&plan);
    assert_eq!(core.bytes_write, 0);
    assert_eq!(core.write_offset, 100);
    opts.sync_write = true;
    let always = EngineCore::new(BTree::new(), &opts, 3, 10, 1);
    let plan = always.plan_append(1).unwrap();
    assert_eq!(plan, AppendPlan { rotate: false, file_id: 3, offset: 10, end_offset: 11, sync: true });
}

#[test]
fn write_batch_is_atomic() {
    let opts = options(1 << 20);
    let mut disk = Disk::default();
    let mut core = open_empty(BTree::new(), &opts, &mut disk);
    let mut batch = new_write_batch(WriteBatchOptions::default(), IndexType::BTree, false, true).unwrap();
    assert_eq!(batch.put(b"k1".to_vec(), b"v1".to_vec()), Ok(()));
    assert_eq!(batch.put(b"k2".to_vec(), b"v2".to_vec()), Ok(()));
    assert_eq!(get(&core, &disk, b"k1"), Err(Errors::KeyNotFound));
    commit(&mut core, &mut disk, &mut batch).unwrap();
    assert_eq!(get(&core, &disk, b"k1"), Ok(b"v1".to_vec()));
    assert_eq!(get(&core, &disk, b"k2"), Ok(b"v2".to_vec()));
    assert_eq!(core.sequence_number, 2);
    assert_eq!(batch.len(), 0);
    commit(&mut core, &mut disk, &mut batch).unwrap();
    assert_eq!(core.sequence_number, 2);
}

#[test]
fn write_batch_deletes_and_limits() {
    let opts = options(1 << 20);
    let mut disk = Disk::default();
    let mut core = open_empty(BTree::new(), &opts, &mut disk);
    put(&mut core, &mut disk, b"a", b"1").unwrap();
    let mut batch = WriteBatch::new(WriteBatchOptions { max_batch_size: 2, sync_write: false });
    assert_eq!(batch.put(Vec::new(), b"v".to_vec()), Err(Errors::KeyIsEmpty));
    batch.put(b"b".to_vec(), b"2".to_vec()).unwrap();
    batch.delete(b"b".to_vec(), &core).unwrap();
    assert_eq!(batch.len(), 0);
    batch.delete(b"a".to_vec(), &core).unwrap();
    batch.put(b"c".to_vec(), b"3".to_vec()).unwrap();
    batch.put(b"d".to_vec(), b"4".to_vec()).unwrap();
    assert_eq!(batch.plan_commit(&core).err(), Some(Errors::BatchSizeExceeded));
    let mut batch = WriteBatch::new(WriteBatchOptions::default());
    batch.delete(b"a".to_vec(), &core).unwrap();
    batch.put(b"c".to_vec(), b"3".to_vec()).unwrap();
    commit(&mut core, &mut disk, &mut batch).unwrap();
    assert_eq!(get(&core, &disk, b"a"), Err(Errors::KeyNotFound));
    assert_eq!(get(&core, &disk, b"c"), Ok(b"3".to_vec()));
    assert_eq!(
        new_write_batch(WriteBatchOptions::default(), IndexType::BPlusTree, false, false).err(),
        Some(Errors::UnableToUseWriteBatch)
    );
    assert!(new_write_batch(WriteBatchOptions::default(), IndexType::BPlusTree, true, false).is_ok());
}

#[test]
fn reopen_recovers_sequence_and_values() {
    let opts = options(1 << 20);
    let mut disk = Disk::default();
    let mut core = open_empty(BTree::new(), &opts, &mut disk);
    for (k, v) in [(b"k1", b"v1"), (b"k2", b"v2")] {
        let mut batch = WriteBatch::new(WriteBatchOptions::default());
        batch.put(k.to_vec(), v.to_vec()).unwrap();
        commit(&mut core, &mut disk, &mut batch).unwrap();
    }
    put(&mut core, &mut disk, b"k3", b"v3").unwrap();
    let mut core = reopen(&disk, &opts);
    assert!(core.sequence_number >= 3);
    let mut batch = WriteBatch::new(WriteBatchOptions::default());
    batch.put(b"k4".to_vec(), b"v4".to_vec()).unwrap();
    let plan = batch.plan_commit(&core).unwrap();
    assert_eq!(plan.sequence_number, 3);
    assert_eq!(get(&core, &disk, b"k1"), Ok(b"v1".to_vec()));
    assert_eq!(get(&core, &disk, b"k3"), Ok(b"v3".to_vec()));
    let end = disk.files[&0].len() as u64;
    assert_eq!(core.write_offset, end);
    commit(&mut core, &mut disk, &mut batch).unwrap();
    assert_eq!(get(&core, &disk, b"k4"), Ok(b"v4".to_vec()));
}

#[test]
fn unfinished_batch_is_not_recovered() {
    let opts = options(1 << 20);
    let mut disk = Disk::default();
    let mut core = open_empty(BTree::new(), &opts, &mut disk);
    put(&mut core, &mut disk, b"a", b"1").unwrap();
    let mut batch = WriteBatch::new(WriteBatchOptions::default());
    batch.put(b"b".to_vec(), b"2".to_vec()).unwrap();
    batch.put(b"a".to_vec(), b"3".to_vec()).unwrap();
    let plan = batch.plan_commit(&core).unwrap();
    // the process stops before the closing record reaches the file
    for w in &plan.writes[..plan.writes.len() - 1] {
        disk.append(&w.append, &w.bytes);
    }
    let last = &plan.writes[plan.writes.len() - 1];
    let torn = &last.bytes[..last.bytes.len() - 2];
    disk.files.get_mut(&0).unwrap().extend_from_slice(torn);
    let core = reopen(&disk, &opts);
    assert_eq!(get(&core, &disk, b"a"), Ok(b"1".to_vec()));
    assert_eq!(get(&core, &disk, b"b"), Err(Errors::KeyNotFound));
}

#[test]
fn corrupt_record_fails_recovery() {
    let opts = options(1 << 20);
    let mut disk = Disk::default();
    let mut core = open_empty(BTree::new(), &opts, &mut disk);
    put(&mut core, &mut disk, b"a", b"1").unwrap();
    put(&mut core, &mut disk, b"b", b"2").unwrap();
    disk.files.get_mut(&0).unwrap()[4] ^= 0xff;
    let mut index = BTree::new();
    let mut recovery = Recovery::new();
    assert_eq!(recovery.load_file(&mut index, 0, &disk.files[&0]), Err(Errors::InvalidLogRecordCrc));
}

#[test]
fn merge_keeps_only_live_records() {
    let opts = options(1 << 20);
    let mut disk = Disk::default();
    let mut core = open_empty(BTree::new(), &opts, &mut disk);
    for i in 0..1000 {
        put(&mut core, &mut disk, b"k", i.to_string().as_bytes()).unwrap();
    }
    let data = disk.files[&0].clone();
    let mut offset = 0;
    let mut live = Vec::new();
    loop {
        match merge_step(&core.index, 0, &data, offset).unwrap() {
            MergeStep::End => break,
            MergeStep::Stale { next } => offset = next,
            MergeStep::Live { next, key, record } => {
                live.push((key, record));
                offset = next;
            },
        }
    }
    assert_eq!(live.len(), 1);
    assert_eq!(live[0].0, b"k".to_vec());
    assert_eq!(live[0].1.value, b"999".to_vec());
    assert_eq!(live[0].1.key, vec![0, b'k']);
    let rewritten = live[0].1.encode();
    assert!(rewritten.len() < 20);
    assert!(data.len() > 10 * rewritten.len());
}

#[test]
fn hint_file_loads_positions() {
    let mut hints = encode_hint_record(b"a".to_vec(), LogRecordPos { file_id: 0, offset: 0 });
    hints.extend(encode_hint_record(b"b".to_vec(), LogRecordPos { file_id: 1, offset: 77 }));
    let mut index = BTree::new();
    load_index_from_hint_file(&mut index, &hints).unwrap();
    assert_eq!(index.get(b"b".to_vec()), Some(LogRecordPos { file_id: 1, offset: 77 }));
    assert_eq!(index.list_keys().len(), 2);
    let bad = LogRecord { key: b"c".to_vec(), value: vec![0x80], rec_type: LogRecordType::Normal }.encode();
    assert_eq!(load_index_from_hint_file(&mut index, &bad), Err(Errors::InvalidLogRecordCrc));
}

#[test]
fn merge_finished_marker() {
    assert_eq!(non_merge_file_id(&vec![0, 1, 4]), Some(5));
    assert_eq!(non_merge_file_id(&vec![]), None);
    let bytes = encode_merge_finished_record(17);
    let rr = read_record_at(&bytes, 0).unwrap();
    assert_eq!(rr.record.key, b"merge.finished".to_vec());
    assert_eq!(parse_merge_finished_value(&rr.record.value), Ok(17));
    assert_eq!(parse_merge_finished_value(b"x"), Err(Errors::FailedToParseFileId));
}

#[test]
fn options_are_checked() {
    let mut opts = options(0);
    assert_eq!(check_options(&opts), Err(Errors::DataFileSizeIsTooSmall));
    opts.data_file_size = 10;
    assert_eq!(check_options(&opts), Ok(()));
    opts.dir_path = String::new();
    assert_eq!(check_options(&opts), Err(Errors::DirPathIsEmpty));
}

#[test]
fn merge_and_recovery_rules() {
    assert!(hint_applies(Some(LogRecordPos { file_id: 2, offset: 0 }), 3));
    assert!(!hint_applies(Some(LogRecordPos { file_id: 3, offset: 0 }), 3));
    assert!(!hint_applies(None, 3));
    assert!(needs_scan(5, None));
    assert!(needs_scan(3, Some(3)));
    assert!(!needs_scan(2, Some(3)));
}

#[test]
fn rotation_before_merge() {
    let opts = options(1 << 20);
    let mut core = EngineCore::new(BTree::new(), &opts, 4, 100, 1);
    assert_eq!(core.rotate(), Ok(5));
    assert_eq!((core.active_file_id, core.write_offset), (5, 0));
    let mut last = EngineCore::new(BTree::new(), &opts, u32::MAX, 0, 1);
    assert_eq!(last.rotate(), Err(Errors::WriteToDataFileError));
}

#[test]
fn staged_records_keep_first_order() {
    let mut batch = WriteBatch::new(WriteBatchOptions::default());
    batch.put(b"x".to_vec(), b"1".to_vec()).unwrap();
    batch.put(b"y".to_vec(), b"2".to_vec()).unwrap();
    batch.put(b"x".to_vec(), b"3".to_vec()).unwrap();
    let staged = batch.staged_records();
    assert_eq!(staged, vec![(b"x".to_vec(), LogRecordType::Normal), (b"y".to_vec(), LogRecordType::Normal)]);
}

#[test]
fn header_size_limit() {
    assert_eq!(bitcask::log_record::max_log_record_header_size(), 11);
}

#[test]
fn batch_at_its_size_bound_commits() {
    let opts = options(1 << 20);
    let mut disk = Disk::default();
    let mut core = open_empty(BTree::new(), &opts, &mut disk);
    let mut batch = WriteBatch::new(WriteBatchOptions { max_batch_size: 2, sync_write: true });
    batch.put(b"a".to_vec(), b"1".to_vec()).unwrap();
    batch.put(b"b".to_vec(), b"2".to_vec()).unwrap();
    let plan = batch.plan_commit(&core).ok().expect("a batch within its bound is planned");
    assert_eq!(plan.writes.len(), 3);
    assert!(plan.sync);
    for w in &plan.writes {
        disk.append(&w.append, &w.bytes);
    }
    batch.finish_commit(&mut core, &plan).unwrap();
    assert_eq!(get(&core, &disk, b"b"), Ok(b"2".to_vec()));
}
