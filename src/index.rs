//! The in-memory indexes from keys to record positions, and the snapshot
//! iterators over them.

use vstd::prelude::*;

use crate::keys::{compare_keys, has_prefix, key_lt, lemma_key_order, starts_with};
use crate::log_record::LogRecordPos;
use crate::options::IteratorOptions;

verus! {

/// One index entry: a key and the position of its latest record.
pub type Entry = (Vec<u8>, LogRecordPos);

/// The entries of `v` as key bytes and positions.
pub open spec fn entries_view(v: Seq<Entry>) -> Seq<(Seq<u8>, LogRecordPos)> {
    v.map_values(|e: Entry| (e.0@, e.1))
}

/// The map of an index that holds nothing.
pub open spec fn empty_index_map() -> Map<Seq<u8>, LogRecordPos> {
    Map::empty()
}

/// `a` comes before `b` in ascending order, or in descending order when
/// `reverse` is set.
pub open spec fn ordered(a: Seq<u8>, b: Seq<u8>, reverse: bool) -> bool {
    if reverse {
        key_lt(b, a)
    } else {
        key_lt(a, b)
    }
}

/// The keys of `s` stand in strictly ascending (or, with `reverse`,
/// descending) order.
pub open spec fn sorted_by(s: Seq<(Seq<u8>, LogRecordPos)>, reverse: bool) -> bool {
    forall|i: int, j: int| 0 <= i < j < s.len() ==> ordered(#[trigger] s[i].0, #[trigger] s[j].0, reverse)
}

/// The map that a sequence of entries holds.
pub open spec fn holds_map(s: Seq<(Seq<u8>, LogRecordPos)>, m: Map<Seq<u8>, LogRecordPos>) -> bool {
    &&& forall|i: int| 0 <= i < s.len() ==> #[trigger] m.contains_key(s[i].0) && m[s[i].0] == s[i].1
    &&& forall|k: Seq<u8>| #[trigger] m.contains_key(k) ==> exists|i: int| 0 <= i < s.len() && s[i].0 == k
}

/// `i` is where a seek for `key` lands in `s`: every entry before it comes
/// before `key`, no entry from it on does.
pub open spec fn is_seek_index(s: Seq<(Seq<u8>, LogRecordPos)>, key: Seq<u8>, reverse: bool, i: int) -> bool {
    &&& 0 <= i <= s.len()
    &&& forall|j: int| 0 <= j < i ==> ordered(#[trigger] s[j].0, key, reverse)
    &&& forall|j: int| i <= j < s.len() ==> !ordered(#[trigger] s[j].0, key, reverse)
}

/// The first index from `from` on whose key begins with `prefix`, or the
/// length of `s`.
pub open spec fn first_match(s: Seq<(Seq<u8>, LogRecordPos)>, from: int, prefix: Seq<u8>) -> int
    decreases s.len() - from,
{
    if from >= s.len() {
        s.len() as int
    } else if from < 0 {
        first_match(s, 0, prefix)
    } else if has_prefix(s[from].0, prefix) {
        from
    } else {
        first_match(s, from + 1, prefix)
    }
}

/// Which entry the next step of an iterator at `idx` yields, if any.
pub open spec fn next_index(s: Seq<(Seq<u8>, LogRecordPos)>, idx: int, prefix: Seq<u8>) -> Option<int> {
    if idx >= s.len() || first_match(s, idx, prefix) >= s.len() {
        None
    } else {
        Some(first_match(s, idx, prefix))
    }
}

/// Where an iterator at `idx` stands after its next step.
pub open spec fn index_after_next(s: Seq<(Seq<u8>, LogRecordPos)>, idx: int, prefix: Seq<u8>) -> int {
    if idx >= s.len() {
        idx
    } else if first_match(s, idx, prefix) >= s.len() {
        s.len() as int
    } else {
        first_match(s, idx, prefix) + 1
    }
}

pub proof fn lemma_first_match(s: Seq<(Seq<u8>, LogRecordPos)>, from: int, prefix: Seq<u8>)
    requires
        0 <= from <= s.len(),
    ensures
        from <= first_match(s, from, prefix) <= s.len(),
        first_match(s, from, prefix) < s.len() ==> has_prefix(
            s[first_match(s, from, prefix)].0,
            prefix,
        ),
        forall|j: int| from <= j < first_match(s, from, prefix) ==> !has_prefix(#[trigger] s[j].0, prefix),
    decreases s.len() - from,
{
    if from < s.len() && !has_prefix(s[from].0, prefix) {
        lemma_first_match(s, from + 1, prefix);
    }
}

/// A copy of a byte vector.
pub fn clone_bytes(v: &Vec<u8>) -> (r: Vec<u8>)
    ensures
        r@ == v@,
{
    vstd::slice::slice_to_vec(v.as_slice())
}

/// Where a seek for `key` lands in `items`, by binary search.
pub fn seek_index(items: &Vec<Entry>, key: &[u8], reverse: bool) -> (r: usize)
    requires
        sorted_by(entries_view(items@), reverse),
    ensures
        is_seek_index(entries_view(items@), key@, reverse, r as int),
{
    proof {
        lemma_key_order();
    }
    let ghost s = entries_view(items@);
    let mut lo: usize = 0;
    let mut hi: usize = items.len();
    while lo < hi
        invariant
            s == entries_view(items@),
            sorted_by(s, reverse),
            0 <= lo <= hi <= items@.len(),
            forall|j: int| 0 <= j < lo ==> ordered(#[trigger] s[j].0, key@, reverse),
            forall|j: int| hi <= j < s.len() ==> !ordered(#[trigger] s[j].0, key@, reverse),
        decreases hi - lo,
    {
        let mid = lo + (hi - lo) / 2;
        let c = compare_keys(items[mid].0.as_slice(), key);
        let before = if reverse {
            c > 0
        } else {
            c < 0
        };
        assert(s[mid as int].0 == items@[mid as int].0@);
        if before {
            assert forall|j: int| 0 <= j <= mid implies ordered(#[trigger] s[j].0, key@, reverse) by {
                if j < mid {
                    assert(ordered(s[j].0, s[mid as int].0, reverse));
                    if reverse {
                        crate::keys::lemma_key_lt_transitive(key@, s[mid as int].0, s[j].0);
                    } else {
                        crate::keys::lemma_key_lt_transitive(s[j].0, s[mid as int].0, key@);
                    }
                }
            }
            lo = mid + 1;
        } else {
            assert forall|j: int| mid <= j < s.len() implies !ordered(#[trigger] s[j].0, key@, reverse) by {
                if j > mid {
                    assert(ordered(s[mid as int].0, s[j].0, reverse));
                    if ordered(s[j].0, key@, reverse) {
                        if reverse {
                            crate::keys::lemma_key_lt_transitive(key@, s[j].0, s[mid as int].0);
                        } else {
                            crate::keys::lemma_key_lt_transitive(s[mid as int].0, s[j].0, key@);
                        }
                    }
                }
            }
            hi = mid;
        }
    }
    lo
}

/// The state of a snapshot iterator: its entries, its cursor and its
/// options.
pub trait IndexIterator {
    spec fn entries(&self) -> Seq<(Seq<u8>, LogRecordPos)>;

    spec fn cursor(&self) -> int;

    spec fn is_reverse(&self) -> bool;

    spec fn key_prefix(&self) -> Seq<u8>;

    /// Goes back to the first entry.
    fn rewind(&mut self)
        requires
            sorted_by(old(self).entries(), old(self).is_reverse()),
        ensures
            sorted_by(final(self).entries(), final(self).is_reverse()),
            final(self).entries() == old(self).entries(),
            final(self).is_reverse() == old(self).is_reverse(),
            final(self).key_prefix() == old(self).key_prefix(),
            final(self).cursor() == 0,
    ;

    /// Goes to the first entry at or after `key` in the iterator's order.
    fn seek(&mut self, key: Vec<u8>)
        requires
            sorted_by(old(self).entries(), old(self).is_reverse()),
        ensures
            sorted_by(final(self).entries(), final(self).is_reverse()),
            final(self).entries() == old(self).entries(),
            final(self).is_reverse() == old(self).is_reverse(),
            final(self).key_prefix() == old(self).key_prefix(),
            is_seek_index(old(self).entries(), key@, old(self).is_reverse(), final(self).cursor()),
    ;

    /// Yields the next entry whose key begins with the prefix.
    fn next(&mut self) -> (r: Option<Entry>)
        requires
            sorted_by(old(self).entries(), old(self).is_reverse()),
        ensures
            sorted_by(final(self).entries(), final(self).is_reverse()),
            final(self).entries() == old(self).entries(),
            final(self).is_reverse() == old(self).is_reverse(),
            final(self).key_prefix() == old(self).key_prefix(),
            final(self).cursor() == index_after_next(old(self).entries(), old(self).cursor(), old(self).key_prefix()),
            match next_index(old(self).entries(), old(self).cursor(), old(self).key_prefix()) {
                None => r is None,
                Some(j) => r is Some && (r->Some_0.0@, r->Some_0.1) == old(self).entries()[j],
            },
            r is Some ==> has_prefix(r->Some_0.0@, old(self).key_prefix()),
    ;
}

/// The entry that the next step from `idx` yields, and where it leaves the
/// cursor.
pub(crate) fn snapshot_next(items: &Vec<Entry>, idx: usize, prefix: &Vec<u8>) -> (r: (Option<Entry>, usize))
    ensures
        r.1 == index_after_next(entries_view(items@), idx as int, prefix@),
        match next_index(entries_view(items@), idx as int, prefix@) {
            None => r.0 is None,
            Some(j) => r.0 is Some && (r.0->Some_0.0@, r.0->Some_0.1) == entries_view(items@)[j],
        },
        r.0 is Some ==> has_prefix(r.0->Some_0.0@, prefix@),
{
    let ghost s = entries_view(items@);
    if idx >= items.len() {
        return (None, idx);
    }
    proof {
        lemma_first_match(s, idx as int, prefix@);
    }
    let mut i: usize = idx;
    while i < items.len()
        invariant
            s == entries_view(items@),
            idx <= i <= items@.len(),
            first_match(s, idx as int, prefix@) == first_match(s, i as int, prefix@),
        decreases items@.len() - i,
    {
        assert(s[i as int].0 == items@[i as int].0@);
        if starts_with(items[i].0.as_slice(), prefix.as_slice()) {
            let key = clone_bytes(&items[i].0);
            return (Some((key, items[i].1)), i + 1);
        }
        i = i + 1;
    }
    (None, items.len())
}

/// A snapshot of an ordered index, taken when the iterator is made.
pub struct BTreeIterator {
    items: Vec<Entry>,
    idx: usize,
    options: IteratorOptions,
}

impl IndexIterator for BTreeIterator {
    closed spec fn entries(&self) -> Seq<(Seq<u8>, LogRecordPos)> {
        entries_view(self.items@)
    }

    closed spec fn cursor(&self) -> int {
        self.idx as int
    }

    closed spec fn is_reverse(&self) -> bool {
        self.options.reverse
    }

    closed spec fn key_prefix(&self) -> Seq<u8> {
        self.options.prefix@
    }

    fn rewind(&mut self) {
        self.idx = 0;
    }

    fn seek(&mut self, key: Vec<u8>) {
        self.idx = seek_index(&self.items, key.as_slice(), self.options.reverse);
    }

    fn next(&mut self) -> (r: Option<Entry>) {
        let (r, idx) = snapshot_next(&self.items, self.idx, &self.options.prefix);
        self.idx = idx;
        r
    }
}

} // verus!

verus! {

/// A map from keys to the positions of their latest records.
pub trait Indexer {
    /// What the index maps each key to.
    spec fn index_map(&self) -> Map<Seq<u8>, LogRecordPos>;

    spec fn wf(&self) -> bool;

    /// Maps `key` to `pos`, replacing any earlier position.
    fn put(&mut self, key: Vec<u8>, pos: LogRecordPos) -> (r: bool)
        requires
            old(self).wf(),
        ensures
            r,
            final(self).wf(),
            final(self).index_map() == old(self).index_map().insert(key@, pos),
    ;

    /// The position of `key`, if the index holds it.
    fn get(&self, key: Vec<u8>) -> (r: Option<LogRecordPos>)
        requires
            self.wf(),
        ensures
            r == (if self.index_map().contains_key(key@) {
                Some(self.index_map()[key@])
            } else {
                None
            }),
    ;

    /// Removes `key`; tells whether the index held it.
    fn delete(&mut self, key: Vec<u8>) -> (r: bool)
        requires
            old(self).wf(),
        ensures
            final(self).wf(),
            r == old(self).index_map().contains_key(key@),
            final(self).index_map() == old(self).index_map().remove(key@),
    ;

    /// Every entry, in ascending key order.
    fn entries(&self) -> (r: Vec<Entry>)
        requires
            self.wf(),
        ensures
            sorted_by(entries_view(r@), false),
            holds_map(entries_view(r@), self.index_map()),
    ;

    /// Every key, in ascending order.
    fn list_keys(&self) -> (r: Vec<Vec<u8>>)
        requires
            self.wf(),
        ensures
            r@.len() == self.index_map().len(),
            forall|i: int| 0 <= i < r@.len() ==> self.index_map().contains_key(#[trigger] r@[i]@),
            forall|i: int, j: int| 0 <= i < j < r@.len() ==> key_lt(#[trigger] r@[i]@, #[trigger] r@[j]@),
    ;
}

/// The keys of a sorted, duplicate-free run of entries are as many as the
/// keys of the map they hold.
pub proof fn lemma_holds_map_len(s: Seq<(Seq<u8>, LogRecordPos)>, m: Map<Seq<u8>, LogRecordPos>)
    requires
        sorted_by(s, false),
        holds_map(s, m),
    ensures
        m.dom().finite(),
        m.len() == s.len(),
    decreases s.len(),
{
    lemma_key_order();
    if s.len() == 0 {
        assert(m.dom() =~= Set::<Seq<u8>>::empty());
    } else {
        let last = s.len() - 1;
        let t = s.take(last);
        let k = s[last].0;
        let m2 = m.remove(k);
        assert forall|i: int| 0 <= i < t.len() implies #[trigger] m2.contains_key(t[i].0) && m2[t[i].0]
            == t[i].1 by {
            assert(t[i] == s[i]);
            assert(ordered(s[i].0, s[last].0, false));
        }
        assert forall|k2: Seq<u8>| #[trigger] m2.contains_key(k2) implies exists|i: int|
            0 <= i < t.len() && t[i].0 == k2 by {
            let i = choose|i: int| 0 <= i < s.len() && s[i].0 == k2;
            assert(i != last);
            assert(t[i] == s[i]);
        }
        assert(sorted_by(t, false)) by {
            assert forall|i: int, j: int| 0 <= i < j < t.len() implies ordered(#[trigger] t[i].0, #[trigger] t[j].0, false) by {
                assert(t[i] == s[i] && t[j] == s[j]);
            }
        }
        lemma_holds_map_len(t, m2);
        assert(m.dom() =~= m2.dom().insert(k));
    }
}

/// An ordered in-memory index: entries kept sorted by key in a vector.
pub struct BTree {
    items: Vec<Entry>,
    map: Ghost<Map<Seq<u8>, LogRecordPos>>,
}

impl BTree {
    pub fn new() -> (r: Self)
        ensures
            r.wf(),
            r.index_map() == empty_index_map(),
    {
        BTree { items: Vec::new(), map: Ghost(Map::empty()) }
    }

    /// An iterator over a snapshot of the index, in the order and with the
    /// prefix that `options` ask for.
    pub fn iterator(&self, options: IteratorOptions) -> (r: BTreeIterator)
        requires
            self.wf(),
        ensures
            r.cursor() == 0,
            r.is_reverse() == options.reverse,
            r.key_prefix() == options.prefix@,
            holds_map(r.entries(), self.index_map()),
            sorted_by(r.entries(), options.reverse),
    {
        let items = snapshot(self.entries(), options.reverse);
        BTreeIterator { items, idx: 0, options }
    }
}

/// The entries in ascending order, or reversed.
pub(crate) fn snapshot(items: Vec<Entry>, reverse: bool) -> (r: Vec<Entry>)
    requires
        sorted_by(entries_view(items@), false),
    ensures
        sorted_by(entries_view(r@), reverse),
        entries_view(r@).to_set() == entries_view(items@).to_set(),
        forall|m: Map<Seq<u8>, LogRecordPos>| holds_map(entries_view(items@), m) ==> #[trigger] holds_map(entries_view(r@), m),
{
    if !reverse {
        return items;
    }
    let ghost s = entries_view(items@);
    let mut items = items;
    let mut r: Vec<Entry> = Vec::new();
    let ghost n = items@.len();
    while items.len() > 0
        invariant
            n == s.len(),
            items@.len() <= n,
            entries_view(items@) == s.take(items@.len() as int),
            r@.len() + items@.len() == n,
            entries_view(r@).len() == r@.len(),
            forall|i: int| 0 <= i < r@.len() ==> #[trigger] entries_view(r@)[i] == s[n - 1 - i],
        decreases items@.len(),
    {
        let ghost len = items@.len();
        assert(entries_view(items@)[len - 1] == s[len - 1]);
        let e = items.pop().unwrap();
        assert((e.0@, e.1) == s[len - 1]);
        let ghost before = r@;
        r.push(e);
        assert forall|i: int| 0 <= i < before.len() implies #[trigger] entries_view(r@)[i] == entries_view(before)[i] by {
            assert(r@[i] == before[i]);
        }
        assert(entries_view(r@)[r@.len() - 1] == (e.0@, e.1));
        assert(entries_view(items@) =~= s.take(items@.len() as int));
    }
    let ghost t = entries_view(r@);
    assert forall|i: int, j: int| 0 <= i < j < t.len() implies ordered(#[trigger] t[i].0, #[trigger] t[j].0, true) by {
        assert(t[i] == s[n - 1 - i] && t[j] == s[n - 1 - j]);
    }
    assert forall|x| #[trigger] s.contains(x) <==> t.contains(x) by {
        if s.contains(x) {
            let i = choose|i: int| 0 <= i < s.len() && s[i] == x;
            assert(t[n - 1 - i] == x);
        }
        if t.contains(x) {
            let i = choose|i: int| 0 <= i < t.len() && t[i] == x;
            assert(s[n - 1 - i] == x);
        }
    }
    assert(t.to_set() =~= s.to_set());
    assert forall|m: Map<Seq<u8>, LogRecordPos>| holds_map(s, m) implies #[trigger] holds_map(t, m) by {
        assert forall|i: int| 0 <= i < t.len() implies #[trigger] m.contains_key(t[i].0) && m[t[i].0] == t[i].1 by {
            assert(t[i] == s[n - 1 - i]);
        }
        assert forall|k: Seq<u8>| #[trigger] m.contains_key(k) implies exists|i: int| 0 <= i < t.len() && t[i].0 == k by {
            let i = choose|i: int| 0 <= i < s.len() && s[i].0 == k;
            assert(t[n - 1 - i] == s[i]);
        }
    }
    r
}

impl Indexer for BTree {
    closed spec fn index_map(&self) -> Map<Seq<u8>, LogRecordPos> {
        self.map@
    }

    closed spec fn wf(&self) -> bool {
        sorted_by(entries_view(self.items@), false) && holds_map(entries_view(self.items@), self.map@)
    }

    #[verifier::rlimit(40)]
    fn put(&mut self, key: Vec<u8>, pos: LogRecordPos) -> (r: bool) {
        proof {
            lemma_key_order();
        }
        let ghost s = entries_view(self.items@);
        let i = seek_index(&self.items, key.as_slice(), false);
        let found = i < self.items.len() && compare_keys(self.items[i].0.as_slice(), key.as_slice()) == 0;
        let ghost k = key@;
        if found {
            self.items.remove(i);
        }
        self.items.insert(i, (key, pos));
        self.map = Ghost(self.map@.insert(k, pos));
        proof {
            let t = entries_view(self.items@);
            assert(t[i as int] == (k, pos));
            if found {
                assert(s[i as int].0 == k);
                assert forall|j: int| 0 <= j < t.len() && j != i implies #[trigger] t[j] == s[j] by {}
            } else {
                assert forall|j: int| 0 <= j < t.len() implies #[trigger] t[j] == (if j < i {
                    s[j]
                } else if j == i {
                    (k, pos)
                } else {
                    s[j - 1]
                }) by {}
                assert forall|j: int| i <= j < s.len() implies key_lt(k, #[trigger] s[j].0) by {
                    assert(!key_lt(s[j].0, k));
                    if j == i {
                        assert(s[j].0 != k);
                    } else {
                        assert(ordered(s[i as int].0, s[j].0, false));
                        assert(!key_lt(s[i as int].0, k));
                        assert(s[i as int].0 != k);
                    }
                }
            }
            assert(sorted_by(t, false)) by {
                assert forall|a: int, b: int| 0 <= a < b < t.len() implies ordered(#[trigger] t[a].0, #[trigger] t[b].0, false) by {
                    if found {
                        if a != i && b != i {
                            assert(ordered(s[a].0, s[b].0, false));
                        } else if a == i {
                            assert(ordered(s[a].0, s[b].0, false));
                        } else {
                            assert(ordered(s[a].0, s[b].0, false));
                        }
                    } else {
                        if b < i {
                            assert(ordered(s[a].0, s[b].0, false));
                        } else if b == i {
                        } else if a < i {
                            assert(key_lt(k, s[b - 1].0));
                        } else if a == i {
                        } else {
                            assert(ordered(s[a - 1].0, s[b - 1].0, false));
                        }
                    }
                }
            }
            let m = self.map@;
            assert forall|j: int| 0 <= j < t.len() implies #[trigger] m.contains_key(t[j].0) && m[t[j].0] == t[j].1 by {
                if j != i {
                    if found {
                        assert(t[j] == s[j]);
                        assert(s[j].0 != k) by {
                            if j < i {
                                assert(ordered(s[j].0, s[i as int].0, false));
                            } else {
                                assert(ordered(s[i as int].0, s[j].0, false));
                            }
                        }
                    } else if j < i {
                        assert(t[j] == s[j]);
                        assert(key_lt(s[j].0, k));
                        assert(s[j].0 != k);
                        assert(old(self).map@.contains_key(s[j].0));
                    } else {
                        assert(t[j] == s[j - 1]);
                        assert(key_lt(k, s[j - 1].0));
                        assert(s[j - 1].0 != k);
                        assert(old(self).map@.contains_key(s[j - 1].0));
                    }
                }
            }
            assert forall|k2: Seq<u8>| #[trigger] m.contains_key(k2) implies exists|j: int| 0 <= j < t.len() && t[j].0 == k2 by {
                if k2 == k {
                    assert(t[i as int].0 == k2);
                } else {
                    assert(old(self).map@.contains_key(k2));
                    let j = choose|j: int| 0 <= j < s.len() && s[j].0 == k2;
                    if found {
                        assert(t[j] == s[j]);
                    } else if j < i {
                        assert(t[j] == s[j]);
                    } else {
                        assert(t[j + 1] == s[j]);
                    }
                }
            }
        }
        true
    }

    fn get(&self, key: Vec<u8>) -> (r: Option<LogRecordPos>) {
        proof {
            lemma_key_order();
        }
        let ghost s = entries_view(self.items@);
        let i = seek_index(&self.items, key.as_slice(), false);
        if i < self.items.len() && compare_keys(self.items[i].0.as_slice(), key.as_slice()) == 0 {
            assert(s[i as int].0 == key@);
            Some(self.items[i].1)
        } else {
            proof {
                if self.map@.contains_key(key@) {
                    let j = choose|j: int| 0 <= j < s.len() && s[j].0 == key@;
                    if j > i {
                        assert(ordered(s[i as int].0, s[j].0, false));
                        assert(s[i as int].0 != key@);
                    }
                }
            }
            None
        }
    }

    fn delete(&mut self, key: Vec<u8>) -> (r: bool) {
        proof {
            lemma_key_order();
        }
        let ghost s = entries_view(self.items@);
        let i = seek_index(&self.items, key.as_slice(), false);
        if i < self.items.len() && compare_keys(self.items[i].0.as_slice(), key.as_slice()) == 0 {
            assert(s[i as int].0 == key@);
            assert(self.map@.contains_key(s[i as int].0));
            self.items.remove(i);
            self.map = Ghost(self.map@.remove(key@));
            proof {
                let t = entries_view(self.items@);
                assert forall|j: int| 0 <= j < t.len() implies #[trigger] t[j] == (if j < i {
                    s[j]
                } else {
                    s[j + 1]
                }) by {}
                assert(sorted_by(t, false)) by {
                    assert forall|a: int, b: int| 0 <= a < b < t.len() implies ordered(#[trigger] t[a].0, #[trigger] t[b].0, false) by {
                        if a < i && b >= i {
                            assert(ordered(s[a].0, s[b + 1].0, false));
                        } else if a < i {
                            assert(ordered(s[a].0, s[b].0, false));
                        } else {
                            assert(ordered(s[a + 1].0, s[b + 1].0, false));
                        }
                    }
                }
                let m = self.map@;
                assert forall|j: int| 0 <= j < t.len() implies #[trigger] m.contains_key(t[j].0) && m[t[j].0] == t[j].1 by {
                    if j < i {
                        assert(ordered(s[j].0, s[i as int].0, false));
                    } else {
                        assert(ordered(s[i as int].0, s[j + 1].0, false));
                    }
                }
                assert forall|k2: Seq<u8>| #[trigger] m.contains_key(k2) implies exists|j: int| 0 <= j < t.len() && t[j].0 == k2 by {
                    let j = choose|j: int| 0 <= j < s.len() && s[j].0 == k2;
                    if j < i {
                        assert(t[j] == s[j]);
                    } else {
                        assert(j != i);
                        assert(t[j - 1] == s[j]);
                    }
                }
            }
            true
        } else {
            proof {
                if self.map@.contains_key(key@) {
                    let j = choose|j: int| 0 <= j < s.len() && s[j].0 == key@;
                    if j > i {
                        assert(ordered(s[i as int].0, s[j].0, false));
                        assert(s[i as int].0 != key@);
                    }
                }
                assert(self.map@.remove(key@) =~= self.map@);
            }
            false
        }
    }

    fn entries(&self) -> (r: Vec<Entry>) {
        let mut r: Vec<Entry> = Vec::new();
        let mut i: usize = 0;
        while i < self.items.len()
            invariant
                i <= self.items@.len(),
                r@.len() == i,
                entries_view(r@) == entries_view(self.items@).take(i as int),
            decreases self.items@.len() - i,
        {
            let key = clone_bytes(&self.items[i].0);
            let e: Entry = (key, self.items[i].1);
            assert(e.0@ == self.items@[i as int].0@);
            r.push(e);
            assert(r@[i as int] == e);
            assert(entries_view(r@)[i as int] == (e.0@, e.1));
            i = i + 1;
            assert(entries_view(r@) =~= entries_view(self.items@).take(i as int));
        }
        assert(entries_view(self.items@).take(i as int) =~= entries_view(self.items@));
        r
    }

    fn list_keys(&self) -> (r: Vec<Vec<u8>>) {
        let ghost s = entries_view(self.items@);
        proof {
            lemma_holds_map_len(s, self.map@);
        }
        let mut r: Vec<Vec<u8>> = Vec::new();
        let mut i: usize = 0;
        while i < self.items.len()
            invariant
                s == entries_view(self.items@),
                i <= self.items@.len(),
                r@.len() == i,
                forall|j: int| 0 <= j < i ==> (#[trigger] r@[j])@ == s[j].0,
            decreases self.items@.len() - i,
        {
            r.push(clone_bytes(&self.items[i].0));
            i = i + 1;
        }
        assert forall|a: int, b: int| 0 <= a < b < r@.len() implies key_lt(#[trigger] r@[a]@, #[trigger] r@[b]@) by {
            assert(ordered(s[a].0, s[b].0, false));
        }
        r
    }
}

} // verus!

verus! {

/// Walking a descending snapshot, each step yields a key that sorts before
/// the one the step before it yielded.
pub proof fn lemma_reverse_iteration_descends(s: Seq<(Seq<u8>, LogRecordPos)>, idx: int, prefix: Seq<u8>)
    requires
        sorted_by(s, true),
        0 <= idx,
        next_index(s, idx, prefix) is Some,
        next_index(s, index_after_next(s, idx, prefix), prefix) is Some,
    ensures
        key_lt(
            s[next_index(s, index_after_next(s, idx, prefix), prefix)->Some_0].0,
            s[next_index(s, idx, prefix)->Some_0].0,
        ),
{
    lemma_first_match(s, idx, prefix);
    let j1 = first_match(s, idx, prefix);
    lemma_first_match(s, j1 + 1, prefix);
    let j2 = first_match(s, j1 + 1, prefix);
    assert(ordered(s[j1].0, s[j2].0, true));
}

/// Walking an ascending snapshot, each step yields a key that sorts after
/// the one the step before it yielded.
pub proof fn lemma_forward_iteration_ascends(s: Seq<(Seq<u8>, LogRecordPos)>, idx: int, prefix: Seq<u8>)
    requires
        sorted_by(s, false),
        0 <= idx,
        next_index(s, idx, prefix) is Some,
        next_index(s, index_after_next(s, idx, prefix), prefix) is Some,
    ensures
        key_lt(
            s[next_index(s, idx, prefix)->Some_0].0,
            s[next_index(s, index_after_next(s, idx, prefix), prefix)->Some_0].0,
        ),
{
    lemma_first_match(s, idx, prefix);
    let j1 = first_match(s, idx, prefix);
    lemma_first_match(s, j1 + 1, prefix);
    let j2 = first_match(s, j1 + 1, prefix);
    assert(ordered(s[j1].0, s[j2].0, false));
}

/// Every entry an iterator yields begins with its prefix.
pub proof fn lemma_iteration_honors_prefix(s: Seq<(Seq<u8>, LogRecordPos)>, idx: int, prefix: Seq<u8>)
    requires
        0 <= idx,
        next_index(s, idx, prefix) is Some,
    ensures
        has_prefix(s[next_index(s, idx, prefix)->Some_0].0, prefix),
{
    lemma_first_match(s, idx, prefix);
}

} // verus!
