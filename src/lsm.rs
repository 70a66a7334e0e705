use vstd::prelude::*;
use bson::Document;
use crate::conf::{MAX_TABLES_PER_LEVEL, MEMTABLE_MAX_SIZE};
use crate::error::StorageError;
use crate::key::Key;
use crate::level::{first_wins, handle_ids, handle_metas, table_metas, key_set, table_path, CompactResult, Level};
use crate::memtable::MemTable;
use crate::record::{Record, Value};
use crate::sstable::{SSTable, SSTableHandle};

verus! {

/// What a read shows of a stored value: the document, or nothing for a
/// tombstone or a missing key.
pub open spec fn visible(v: Option<Value<Document>>) -> Option<Document> {
    match v {
        Some(Value::Data(d)) => Some(d),
        _ => None,
    }
}

/// The document of a stored value; nothing for a tombstone.
pub fn document_of(v: Value<Document>) -> (r: Option<Document>)
    ensures
        r == visible(Some(v)),
{
    match v {
        Value::Data(d) => Some(d),
        Value::Tombstone => None,
    }
}

/// The metadata of a tree.
pub struct LSMTreeMeta {
    /// The tree's unique id.
    pub id: Key,
    /// The tree's name.
    pub name: String,
    /// The tree's directory.
    pub path: String,
}

/// A log-structured merge tree: a memtable, a memtable being flushed, and
/// levels of sorted tables on disk.
pub struct LSMTree {
    /// The tree's unique id.
    pub id: Key,
    /// The tree's name.
    pub name: String,
    /// The buffer that takes writes.
    pub memtable: MemTable,
    /// A buffer being flushed to disk: it stays readable and takes no writes.
    pub frozen_memtable: Option<MemTable>,
    /// The on-disk levels; the one at position `i` is level `i + 1`.
    pub levels: Vec<Level>,
    /// The tree's directory.
    pub path: String,
}

impl LSMTree {
    /// The buffers are well formed, and each level is, numbered by position.
    pub open spec fn wf(&self) -> bool {
        &&& self.memtable.wf()
        &&& (self.frozen_memtable matches Some(f) ==> f.wf())
        &&& self.levels@.len() <= usize::MAX / MEMTABLE_MAX_SIZE
        &&& forall|i: int|
            0 <= i < self.levels@.len() ==> (#[trigger] self.levels@[i]).wf() && self.levels@[i].meta.level
                == i + 1
    }

    /// The value held under `id` by the buffers: the memtable's, or else the
    /// frozen memtable's.
    pub open spec fn buffered(&self, id: u128) -> Option<Value<Document>> {
        match self.memtable.value_of(id) {
            Some(v) => Some(v),
            None => match self.frozen_memtable {
                Some(f) => f.value_of(id),
                None => None,
            },
        }
    }

    /// What a read of `id` returns when the levels' first hit is `on_disk`.
    pub open spec fn read(&self, id: u128, on_disk: Option<Value<Document>>) -> Option<Document> {
        match self.buffered(id) {
            Some(v) => visible(Some(v)),
            None => visible(on_disk),
        }
    }

    /// Whether `after` is `self` with value `v` written to key `id`: the
    /// memtable holds `v` under `id`, the buffers hold what they held under
    /// every other key, and the frozen memtable and the levels are unchanged.
    pub open spec fn written(&self, after: LSMTree, id: u128, v: Value<Document>) -> bool {
        &&& after.memtable.value_of(id) == Some(v)
        &&& forall|other: u128| other != id ==> #[trigger] after.memtable.value_of(other) == self.memtable.value_of(other)
        &&& forall|other: u128| other != id ==> #[trigger] after.buffered(other) == self.buffered(other)
        &&& after.frozen_memtable == self.frozen_memtable
        &&& after.levels == self.levels
    }

    /// A tree named `name` in directory `path`, with a fresh id, an empty
    /// memtable and no level.
    pub fn new(name: &str, path: &str) -> (r: LSMTree)
        ensures
            r.wf(),
            r.name@ == name@,
            r.path@ == path@,
            r.memtable.records@.len() == 0,
            r.memtable.max_records == MEMTABLE_MAX_SIZE,
            r.frozen_memtable is None,
            r.levels@.len() == 0,
    {
        LSMTree {
            id: Key::generate(),
            name: name.to_owned(),
            memtable: MemTable::new(),
            frozen_memtable: None,
            levels: Vec::new(),
            path: path.to_owned(),
        }
    }

    /// Puts document `doc` under `key`.
    pub fn set(&mut self, key: &Key, doc: Document)
        requires
            old(self).wf(),
            key.wf(),
        ensures
            final(self).wf(),
            old(self).written(*final(self), key.id, Value::Data(doc)),
    {
        self.memtable.set(key, doc);
    }

    /// Deletes `key`: a tombstone hides what lies under it.
    pub fn del(&mut self, key: &Key)
        requires
            old(self).wf(),
            key.wf(),
        ensures
            final(self).wf(),
            old(self).written(*final(self), key.id, Value::<Document>::Tombstone),
    {
        self.memtable.del(key);
    }

    /// The value the buffers hold under `key`, tombstone or not: the
    /// memtable's, or else the frozen memtable's. Nothing means the levels
    /// are to be searched.
    pub fn get_buffered(&self, key: &Key) -> (r: Option<Value<Document>>)
        requires
            self.wf(),
        ensures
            r == self.buffered(key.id),
    {
        match self.memtable.get(key) {
            Some(v) => Some(v),
            None => match &self.frozen_memtable {
                Some(f) => f.get(key),
                None => None,
            },
        }
    }

    /// Reads `key`: the memtable, then the frozen memtable, then `on_disk`,
    /// the first record the levels hold under the key (level 1 first, each
    /// level newest table first). The first source holding the key decides;
    /// a tombstone reads as nothing.
    pub fn get(&self, key: &Key, on_disk: Option<Record>) -> (r: Option<Document>)
        requires
            self.wf(),
        ensures
            r == self.read(key.id, match on_disk { Some(rec) => Some(rec.value), None => None }),
    {
        match self.get_buffered(key) {
            Some(v) => document_of(v),
            None => match on_disk {
                Some(rec) => document_of(rec.value),
                None => None,
            },
        }
    }

    /// Appends an empty level numbered after the last one.
    pub fn add_level(&mut self) -> (r: Result<(), StorageError>)
        requires
            old(self).wf(),
        ensures
            final(self).wf(),
            final(self).memtable == old(self).memtable,
            final(self).frozen_memtable == old(self).frozen_memtable,
            match r {
                Ok(_) => {
                    &&& old(self).levels@.len() < usize::MAX / MEMTABLE_MAX_SIZE
                    &&& final(self).levels@.len() == old(self).levels@.len() + 1
                    &&& final(self).levels@.subrange(0, old(self).levels@.len() as int) == old(self).levels@
                    &&& final(self).levels@.last().tables@.len() == 0
                    &&& final(self).levels@.last().max_tables == MAX_TABLES_PER_LEVEL
                    &&& final(self).levels@.last().records_per_table == MEMTABLE_MAX_SIZE * (old(self).levels@.len() + 1)
                    &&& final(self).levels@.last().bloom_covers()
                },
                Err(e) => {
                    &&& old(self).levels@.len() == usize::MAX / MEMTABLE_MAX_SIZE
                    &&& e == StorageError::StateViolation
                    &&& final(self).levels == old(self).levels
                },
            },
    {
        if self.levels.len() >= usize::MAX / MEMTABLE_MAX_SIZE {
            return Err(StorageError::StateViolation);
        }
        let level = Level::new(self.path.as_str(), self.levels.len() + 1, Vec::new());
        let ghost before = self.levels@;
        self.levels.push(level);
        proof {
            assert(self.levels@.subrange(0, before.len() as int) =~= before);
            assert forall|i: int| 0 <= i < self.levels@.len() implies (#[trigger] self.levels@[i]).wf()
                && self.levels@[i].meta.level == i + 1 by {
                if i < before.len() {
                    assert(self.levels@[i] == before[i]);
                }
            }
        }
        Ok(())
    }

    /// The memtable phase of compaction. When `force` is set or the memtable
    /// is full: freezes it (a fresh memtable takes writes), makes sure level 1
    /// exists, and returns the frozen records as a table to be stored in
    /// level 1. Fails while another flush is pending, and on an empty
    /// memtable.
    pub fn compact_memtable(&mut self, force: bool) -> (r: Result<Option<SSTable>, StorageError>)
        requires
            old(self).wf(),
        ensures
            final(self).wf(),
            match r {
                Ok(Some(t)) => {
                    &&& force || old(self).memtable.records@.len() >= old(self).memtable.max_records
                    &&& old(self).frozen_memtable is None
                    &&& old(self).memtable.records@.len() > 0
                    &&& t.wf()
                    &&& t.records@ == old(self).memtable.records@
                    &&& final(self).frozen_memtable == Some(old(self).memtable)
                    &&& final(self).memtable.records@.len() == 0
                    &&& final(self).memtable.max_records == MEMTABLE_MAX_SIZE
                    &&& old(self).levels@.len() >= 1 ==> final(self).levels == old(self).levels
                    &&& old(self).levels@.len() == 0 ==> final(self).levels@.len() == 1
                        && final(self).levels@[0].tables@.len() == 0
                },
                Ok(None) => {
                    &&& !(force || old(self).memtable.records@.len() >= old(self).memtable.max_records)
                    &&& final(self).memtable == old(self).memtable
                    &&& final(self).frozen_memtable == old(self).frozen_memtable
                    &&& final(self).levels == old(self).levels
                },
                Err(e) => {
                    &&& force || old(self).memtable.records@.len() >= old(self).memtable.max_records
                    &&& (old(self).frozen_memtable is Some && e == StorageError::StateViolation
                        || old(self).frozen_memtable is None && old(self).memtable.records@.len() == 0
                            && e == StorageError::EmptyInput)
                    &&& final(self).memtable == old(self).memtable
                    &&& final(self).frozen_memtable == old(self).frozen_memtable
                    &&& final(self).levels == old(self).levels
                },
            },
    {
        if !(force || self.memtable.is_full()) {
            return Ok(None);
        }
        if self.frozen_memtable.is_some() {
            return Err(StorageError::StateViolation);
        }
        if self.memtable.size() == 0 {
            return Err(StorageError::EmptyInput);
        }
        let table = match self.memtable.flush() {
            Ok(t) => t,
            Err(e) => {
                return Err(e);
            },
        };
        if self.levels.len() == 0 {
            let created = self.add_level();
            proof {
                assert(created is Ok);
            }
        }
        let mut frozen = MemTable::new();
        std::mem::swap(&mut frozen, &mut self.memtable);
        self.frozen_memtable = Some(frozen);
        Ok(Some(table))
    }

    /// Ends a flush: stores the table made from the frozen memtable in
    /// level 1 and drops the frozen memtable. Returns the table's handle.
    /// Fails when no flush is pending or there is no level.
    pub fn install_flushed(&mut self, table: &SSTable) -> (r: Result<SSTableHandle, StorageError>)
        requires
            old(self).wf(),
            table.wf(),
        ensures
            final(self).wf(),
            final(self).memtable == old(self).memtable,
            final(self).levels@.len() == old(self).levels@.len(),
            r is Ok <==> (old(self).frozen_memtable is Some && old(self).levels@.len() > 0),
            r is Ok ==> final(self).frozen_memtable is None,
            r is Ok ==> forall|i: int| 1 <= i < final(self).levels@.len() ==> #[trigger] final(self).levels@[i] == old(self).levels@[i],
            r matches Ok(h) ==> h.meta == table.meta && exists|p: int| 0 <= p <= old(self).levels@[0].tables@.len()
                && final(self).levels@[0].tables@ == old(self).levels@[0].tables@.insert(p, h),
            r matches Err(e) ==> e == StorageError::StateViolation,
            r is Err ==> final(self).frozen_memtable == old(self).frozen_memtable && final(self).levels == old(self).levels,
    {
        if self.frozen_memtable.is_none() || self.levels.len() == 0 {
            return Err(StorageError::StateViolation);
        }
        let ghost before = self.levels@;
        let mut level = self.levels.remove(0);
        proof {
            assert(level == before[0]);
        }
        let h = level.add_sstable(table);
        let ghost lv = level;
        self.levels.insert(0, level);
        self.frozen_memtable = None;
        proof {
            assert(self.levels@[0] == lv);
            assert(self.levels@.len() == before.len());
            let p = choose|p: int| 0 <= p <= before[0].tables@.len() && lv.tables@ == before[0].tables@.insert(p, h);
            assert(self.levels@[0].tables@ == before[0].tables@.insert(p, h));
            assert(old(self).levels@ == before);
            assert(exists|q: int| 0 <= q <= old(self).levels@[0].tables@.len()
                && self.levels@[0].tables@ == old(self).levels@[0].tables@.insert(q, h));
            assert forall|i: int| 1 <= i < self.levels@.len() implies #[trigger] self.levels@[i] == before[i] by {
                assert(self.levels@[i] == before.remove(0)[i - 1]);
            }
            assert forall|i: int| 0 <= i < self.levels@.len() implies (#[trigger] self.levels@[i]).wf()
                && self.levels@[i].meta.level == i + 1 by {
                if i > 0 {
                    assert(self.levels@[i] == before[i]);
                }
            }
        }
        Ok(h)
    }

    /// The level phase of compaction for level `n`: when it is full, merges
    /// its tables, as read from disk one per handle in scan order, and makes
    /// sure level `n + 1` exists to take the result. Nothing when it is not
    /// full. Fails when there is no level `n`, or when the
    /// tables are not the level's.
    pub fn compact_level(&mut self, n: usize, tables: &Vec<SSTable>) -> (r: Result<Option<CompactResult>, StorageError>)
        requires
            old(self).wf(),
            forall|i: int| 0 <= i < tables@.len() ==> (#[trigger] tables@[i]).wf(),
        ensures
            final(self).wf(),
            final(self).memtable == old(self).memtable,
            final(self).frozen_memtable == old(self).frozen_memtable,
            match r {
                Ok(Some(c)) => {
                    &&& 1 <= n <= old(self).levels@.len()
                    &&& old(self).levels@[n - 1].tables@.len() >= old(self).levels@[n - 1].max_tables
                    &&& c.new_table.wf()
                    &&& first_wins(c.new_table.records@, tables@)
                    &&& c.old_table_ids@ == handle_ids(old(self).levels@[n - 1].tables@)
                    &&& n < old(self).levels@.len() ==> final(self).levels == old(self).levels
                    &&& n == old(self).levels@.len() ==> final(self).levels@.len() == n + 1
                        && final(self).levels@.subrange(0, n as int) == old(self).levels@
                        && final(self).levels@[n as int].tables@.len() == 0
                        && final(self).levels@[n as int].max_tables == MAX_TABLES_PER_LEVEL
                },
                Ok(None) => {
                    &&& 1 <= n <= old(self).levels@.len()
                    &&& old(self).levels@[n - 1].tables@.len() < old(self).levels@[n - 1].max_tables
                    &&& final(self).levels == old(self).levels
                },
                Err(e) => {
                    &&& e == StorageError::StateViolation
                    &&& (n == 0 || n > old(self).levels@.len() || old(self).levels@[n - 1].tables@.len() == 0
                        || handle_metas(old(self).levels@[n - 1].tables@) != table_metas(tables@)
                        || n == old(self).levels@.len() && n >= usize::MAX / MEMTABLE_MAX_SIZE)
                    &&& final(self).levels == old(self).levels
                },
            },
    {
        if n == 0 || n > self.levels.len() {
            return Err(StorageError::StateViolation);
        }
        if !self.levels[n - 1].is_full() {
            return Ok(None);
        }
        let c = match self.levels[n - 1].compact_tables(tables) {
            Ok(c) => c,
            Err(e) => {
                return Err(e);
            },
        };
        if n == self.levels.len() {
            match self.add_level() {
                Ok(_) => {},
                Err(e) => {
                    return Err(e);
                },
            }
        }
        Ok(Some(c))
    }

    /// Ends the compaction of level `n`: stores the merged table in level
    /// `n + 1`, which must exist, and drops the merged tables from level `n`.
    /// Returns the dropped handles, whose files are to be deleted.
    pub fn install_compacted(&mut self, n: usize, result: &CompactResult) -> (r: Result<Vec<SSTableHandle>, StorageError>)
        requires
            old(self).wf(),
            result.new_table.wf(),
        ensures
            final(self).wf(),
            final(self).memtable == old(self).memtable,
            final(self).frozen_memtable == old(self).frozen_memtable,
            final(self).levels@.len() == old(self).levels@.len(),
            match r {
                Ok(removed) => {
                    &&& 1 <= n < old(self).levels@.len()
                    &&& exists|h: SSTableHandle, p: int| 0 <= p <= old(self).levels@[n as int].tables@.len()
                        && final(self).levels@[n as int].tables@ == old(self).levels@[n as int].tables@.insert(p, h)
                        && h.meta == result.new_table.meta && h.active
                        && h.path@ == table_path(old(self).levels@[n as int].path@, result.new_table.meta.table_id)
                    &&& final(self).levels@[n as int].table_keys@[result.new_table.meta.table_id]
                        == key_set(result.new_table.records@)
                    &&& final(self).levels@[n as int].bloom_filter.items()
                        == old(self).levels@[n as int].bloom_filter.items().union(key_set(result.new_table.records@))
                    &&& final(self).levels@[n - 1].tables@ == old(self).levels@[n - 1].tables@.filter(
                        |h: SSTableHandle| !result.old_table_ids@.contains(h.meta.table_id),
                    )
                    &&& removed@ == old(self).levels@[n - 1].tables@.filter(
                        |h: SSTableHandle| result.old_table_ids@.contains(h.meta.table_id),
                    )
                    &&& result.old_table_ids@ == handle_ids(old(self).levels@[n - 1].tables@)
                        ==> final(self).levels@[n - 1].tables@.len() == 0
                    &&& final(self).levels@[n - 1].max_tables == old(self).levels@[n - 1].max_tables
                    &&& final(self).levels@[n as int].max_tables == old(self).levels@[n as int].max_tables
                    &&& forall|i: int|
                        0 <= i < final(self).levels@.len() && i != n && i != n - 1
                            ==> #[trigger] final(self).levels@[i] == old(self).levels@[i]
                },
                Err(e) => {
                    &&& (n == 0 || n >= old(self).levels@.len())
                    &&& e == StorageError::StateViolation
                    &&& final(self).levels == old(self).levels
                },
            },
    {
        if n == 0 || n >= self.levels.len() {
            return Err(StorageError::StateViolation);
        }
        let ghost before = self.levels@;
        let mut next = self.levels.remove(n);
        proof {
            assert(next == before[n as int]);
        }
        let h = next.add_sstable(&result.new_table);
        let ghost nx = next;
        self.levels.insert(n, next);
        let ghost mid = self.levels@;
        proof {
            assert(mid[n as int] == nx);
            assert forall|i: int| 0 <= i < mid.len() && i != n implies #[trigger] mid[i] == before[i] by {
                if i < n {
                    assert(mid[i] == before.remove(n as int)[i]);
                } else {
                    assert(mid[i] == before.remove(n as int)[i - 1]);
                }
            }
        }
        let mut this = self.levels.remove(n - 1);
        let removed = this.clear(&result.old_table_ids);
        proof {
            if result.old_table_ids@ == handle_ids(before[n - 1].tables@) {
                lemma_filter_all_listed(before[n - 1].tables@, result.old_table_ids@);
            }
        }
        self.levels.insert(n - 1, this);
        proof {
            assert forall|i: int| 0 <= i < self.levels@.len() && i != n - 1 implies #[trigger] self.levels@[i] == mid[i] by {
                if i < n - 1 {
                    assert(self.levels@[i] == mid.remove(n - 1)[i]);
                } else {
                    assert(self.levels@[i] == mid.remove(n - 1)[i - 1]);
                }
            }
            assert forall|i: int| 0 <= i < self.levels@.len() implies (#[trigger] self.levels@[i]).wf()
                && self.levels@[i].meta.level == i + 1 by {
                if i != n - 1 && i != n {
                    assert(self.levels@[i] == before[i]);
                }
            }
            assert(self.levels@[n as int] == mid[n as int]);
            let p = choose|p: int| 0 <= p <= before[n as int].tables@.len()
                && nx.tables@ == before[n as int].tables@.insert(p, h);
            assert(self.levels@[n as int].tables@ == before[n as int].tables@.insert(p, h));
        }
        Ok(removed)
    }
}

/// Dropping the handles of every listed id leaves none.
proof fn lemma_filter_all_listed(hs: Seq<SSTableHandle>, ids: Seq<Key>)
    requires
        ids == handle_ids(hs),
    ensures
        hs.filter(|h: SSTableHandle| !ids.contains(h.meta.table_id)).len() == 0,
{
    assert forall|i: int| 0 <= i < hs.len() implies ids.contains(#[trigger] hs[i].meta.table_id) by {
        assert(ids[i] == hs[i].meta.table_id);
    }
    lemma_filter_none(hs, ids);
}

proof fn lemma_filter_none(hs: Seq<SSTableHandle>, ids: Seq<Key>)
    requires
        forall|i: int| 0 <= i < hs.len() ==> ids.contains(#[trigger] hs[i].meta.table_id),
    ensures
        hs.filter(|h: SSTableHandle| !ids.contains(h.meta.table_id)).len() == 0,
    decreases hs.len(),
{
    reveal(Seq::filter);
    if hs.len() > 0 {
        let d = hs.drop_last();
        assert forall|i: int| 0 <= i < d.len() implies ids.contains(#[trigger] d[i].meta.table_id) by {
            assert(d[i] == hs[i]);
        }
        lemma_filter_none(d, ids);
        assert(ids.contains(hs[hs.len() - 1].meta.table_id));
    }
}

} // verus!
