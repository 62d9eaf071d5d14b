//! An index kept in a concurrent skip list.

use vstd::prelude::*;

use crossbeam_skiplist::SkipMap;

use crate::index::{
    clone_bytes, entries_view, holds_map, lemma_holds_map_len, seek_index, snapshot, snapshot_next,
    sorted_by, Entry, IndexIterator, Indexer,
};
use crate::keys::key_lt;
use crate::log_record::LogRecordPos;
use crate::options::IteratorOptions;

verus! {

#[verifier::external_type_specification]
#[verifier::external_body]
#[verifier::reject_recursive_types(K)]
#[verifier::reject_recursive_types(V)]
pub struct ExSkipMap<K, V>(SkipMap<K, V>);

/// A skip map from keys to positions.
pub type PositionMap = SkipMap<Vec<u8>, LogRecordPos>;

/// The keys and positions that a skip map holds.
pub uninterp spec fn skip_map_contents(m: PositionMap) -> Map<Seq<u8>, LogRecordPos>;

/// Relies on `SkipMap::new`: a new map is empty.
#[verifier::external_body]
fn skip_map_new() -> (r: PositionMap)
    ensures
        skip_map_contents(r) == crate::index::empty_index_map(),
{
    SkipMap::new()
}

/// Relies on `SkipMap::insert`: an entry with the same key is removed
/// before the new one goes in.
#[verifier::external_body]
fn skip_map_insert(m: &mut PositionMap, key: Vec<u8>, pos: LogRecordPos)
    ensures
        skip_map_contents(*final(m)) == skip_map_contents(*old(m)).insert(key@, pos),
{
    m.insert(key, pos);
}

/// Relies on `SkipMap::get`: the entry of the key, if there is one.
#[verifier::external_body]
fn skip_map_get(m: &PositionMap, key: &Vec<u8>) -> (r: Option<LogRecordPos>)
    ensures
        r == (if skip_map_contents(*m).contains_key(key@) {
            Some(skip_map_contents(*m)[key@])
        } else {
            None
        }),
{
    m.get(key).map(|e| *e.value())
}

/// Relies on `SkipMap::remove`: removes the entry of the key and returns
/// it, or returns none when there is no such entry.
#[verifier::external_body]
fn skip_map_remove(m: &mut PositionMap, key: &Vec<u8>) -> (r: bool)
    ensures
        r == skip_map_contents(*old(m)).contains_key(key@),
        skip_map_contents(*final(m)) == skip_map_contents(*old(m)).remove(key@),
{
    m.remove(key).is_some()
}

/// Relies on `SkipMap::iter`: every entry once, in ascending order of the
/// keys (`Vec<u8>` compares its bytes lexicographically).
#[verifier::external_body]
fn skip_map_entries(m: &PositionMap) -> (r: Vec<Entry>)
    ensures
        sorted_by(entries_view(r@), false),
        holds_map(entries_view(r@), skip_map_contents(*m)),
{
    m.iter().map(|e| (e.key().clone(), *e.value())).collect()
}

/// A skip-list index.
pub struct SkipList {
    skip_list: PositionMap,
}

impl SkipList {
    pub fn new() -> (r: Self)
        ensures
            r.wf(),
            r.index_map() == crate::index::empty_index_map(),
    {
        SkipList { skip_list: skip_map_new() }
    }

    /// An iterator over a snapshot of the index, in the order and with the
    /// prefix that `options` ask for.
    pub fn iterator(&self, options: IteratorOptions) -> (r: SkipListIterator)
        requires
            self.wf(),
        ensures
            r.cursor() == 0,
            r.is_reverse() == options.reverse,
            r.key_prefix() == options.prefix@,
            holds_map(r.entries(), self.index_map()),
            sorted_by(r.entries(), options.reverse),
    {
        let items = snapshot(self.entries(), options.reverse);
        SkipListIterator { items, idx: 0, options }
    }
}

impl Indexer for SkipList {
    closed spec fn index_map(&self) -> Map<Seq<u8>, LogRecordPos> {
        skip_map_contents(self.skip_list)
    }

    closed spec fn wf(&self) -> bool {
        true
    }

    fn put(&mut self, key: Vec<u8>, pos: LogRecordPos) -> (r: bool) {
        skip_map_insert(&mut self.skip_list, key, pos);
        true
    }

    fn get(&self, key: Vec<u8>) -> (r: Option<LogRecordPos>) {
        skip_map_get(&self.skip_list, &key)
    }

    fn delete(&mut self, key: Vec<u8>) -> (r: bool) {
        skip_map_remove(&mut self.skip_list, &key)
    }

    fn entries(&self) -> (r: Vec<Entry>) {
        skip_map_entries(&self.skip_list)
    }

    fn list_keys(&self) -> (r: Vec<Vec<u8>>) {
        let items = self.entries();
        let ghost s = entries_view(items@);
        proof {
            lemma_holds_map_len(s, self.index_map());
        }
        let mut r: Vec<Vec<u8>> = Vec::new();
        let mut i: usize = 0;
        while i < items.len()
            invariant
                s == entries_view(items@),
                i <= items@.len(),
                r@.len() == i,
                forall|j: int| 0 <= j < i ==> (#[trigger] r@[j])@ == s[j].0,
            decreases items@.len() - i,
        {
            r.push(clone_bytes(&items[i].0));
            i = i + 1;
        }
        assert forall|a: int, b: int| 0 <= a < b < r@.len() implies key_lt(#[trigger] r@[a]@, #[trigger] r@[b]@) by {
            assert(crate::index::ordered(s[a].0, s[b].0, false));
        }
        r
    }
}

/// A snapshot of a skip-list index, taken when the iterator is made.
pub struct SkipListIterator {
    items: Vec<Entry>,
    idx: usize,
    options: IteratorOptions,
}

impl IndexIterator for SkipListIterator {
    closed spec fn entries(&self) -> Seq<(Seq<u8>, LogRecordPos)> {
        entries_view(self.items@)
    }

    closed spec fn cursor(&self) -> int {
        self.idx as int
    }

    closed spec fn is_reverse(&self) -> bool {
        self.options.reverse
    }

    closed spec fn key_prefix(&self) -> Seq<u8> {
        self.options.prefix@
    }

    fn rewind(&mut self) {
        self.idx = 0;
    }

    fn seek(&mut self, key: Vec<u8>) {
        self.idx = seek_index(&self.items, key.as_slice(), self.options.reverse);
    }

    fn next(&mut self) -> (r: Option<Entry>) {
        let (r, idx) = snapshot_next(&self.items, self.idx, &self.options.prefix);
        self.idx = idx;
        r
    }
}

} // verus!

verus! {

/// The index a store runs on, chosen by its options. A store on the
/// persistent B+tree keeps an ordered copy in memory; the tree on disk is
/// written beside it.
pub enum AnyIndex {
    BTree(crate::index::BTree),
    SkipList(SkipList),
}

/// A new, empty index of the kind `index_type` asks for.
pub fn new_indexer(index_type: crate::options::IndexType) -> (r: AnyIndex)
    ensures
        r.wf(),
        r.index_map() == crate::index::empty_index_map(),
        index_type == crate::options::IndexType::SkipList <==> r is SkipList,
{
    match index_type {
        crate::options::IndexType::SkipList => AnyIndex::SkipList(SkipList::new()),
        _ => AnyIndex::BTree(crate::index::BTree::new()),
    }
}

impl Indexer for AnyIndex {
    open spec fn index_map(&self) -> Map<Seq<u8>, LogRecordPos> {
        match self {
            AnyIndex::BTree(i) => i.index_map(),
            AnyIndex::SkipList(i) => i.index_map(),
        }
    }

    open spec fn wf(&self) -> bool {
        match self {
            AnyIndex::BTree(i) => i.wf(),
            AnyIndex::SkipList(i) => i.wf(),
        }
    }

    fn put(&mut self, key: Vec<u8>, pos: LogRecordPos) -> (r: bool) {
        match self {
            AnyIndex::BTree(i) => i.put(key, pos),
            AnyIndex::SkipList(i) => i.put(key, pos),
        }
    }

    fn get(&self, key: Vec<u8>) -> (r: Option<LogRecordPos>) {
        match self {
            AnyIndex::BTree(i) => i.get(key),
            AnyIndex::SkipList(i) => i.get(key),
        }
    }

    fn delete(&mut self, key: Vec<u8>) -> (r: bool) {
        match self {
            AnyIndex::BTree(i) => i.delete(key),
            AnyIndex::SkipList(i) => i.delete(key),
        }
    }

    fn entries(&self) -> (r: Vec<Entry>) {
        match self {
            AnyIndex::BTree(i) => i.entries(),
            AnyIndex::SkipList(i) => i.entries(),
        }
    }

    fn list_keys(&self) -> (r: Vec<Vec<u8>>) {
        match self {
            AnyIndex::BTree(i) => i.list_keys(),
            AnyIndex::SkipList(i) => i.list_keys(),
        }
    }
}

} // verus!
