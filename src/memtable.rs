use vstd::prelude::*;
use bson::Document;
use crate::conf::MEMTABLE_MAX_SIZE;
use crate::error::StorageError;
use crate::key::{now_millis, Key};
use crate::record::{Record, Value};
use crate::sstable::{copy_records, has_key, search_by_key, sorted_by_key, SSTable, SSTableMeta};

verus! {

/// The value that `s` holds under key `id`, if any.
pub open spec fn lookup(s: Seq<Record>, id: u128) -> Option<Value<Document>> {
    if has_key(s, id) {
        Some(s[choose|i: int| 0 <= i < s.len() && s[i].key.id == id].value)
    } else {
        None
    }
}

/// In a key-ascending sequence, the record at a position holding `id` gives
/// the value under `id`.
pub proof fn lemma_lookup_at(s: Seq<Record>, i: int)
    requires
        sorted_by_key(s),
        0 <= i < s.len(),
    ensures
        lookup(s, s[i].key.id) == Some(s[i].value),
{
    let id = s[i].key.id;
    assert(has_key(s, id));
    let j = choose|j: int| 0 <= j < s.len() && s[j].key.id == id;
    if i < j {
        assert(s[i].key.id < s[j].key.id);
    } else if j < i {
        assert(s[j].key.id < s[i].key.id);
    }
}

/// The in-memory buffer of the tree: records by ascending key, one per key.
#[derive(Debug, Clone)]
pub struct MemTable {
    /// The records, by strictly ascending key.
    pub records: Vec<Record>,
    /// The number of records at which the buffer is full.
    pub max_records: usize,
}

impl MemTable {
    /// The records strictly ascend by key.
    pub open spec fn wf(&self) -> bool {
        sorted_by_key(self.records@)
    }

    /// The value held under `id`, if any.
    pub open spec fn value_of(&self, id: u128) -> Option<Value<Document>> {
        lookup(self.records@, id)
    }

    /// An empty buffer holding up to the configured number of records.
    pub fn new() -> (r: MemTable)
        ensures
            r.wf(),
            r.records@.len() == 0,
            r.max_records == MEMTABLE_MAX_SIZE,
    {
        MemTable { records: Vec::new(), max_records: MEMTABLE_MAX_SIZE }
    }

    /// Puts `value` under `key`, replacing what was there.
    pub fn insert(&mut self, key: &Key, value: Value<Document>)
        requires
            old(self).wf(),
            key.wf(),
        ensures
            final(self).wf(),
            final(self).max_records == old(self).max_records,
            final(self).value_of(key.id) == Some(value),
            forall|id: u128| id != key.id ==> #[trigger] final(self).value_of(id) == old(self).value_of(id),
            final(self).records@.len() == old(self).records@.len() + if has_key(old(self).records@, key.id) { 0int } else { 1int },
    {
        let ghost s = self.records@;
        let rec = Record { key: *key, value };
        let (found, idx) = match search_by_key(&self.records, key) {
            Ok(i) => (true, i),
            Err(i) => (false, i),
        };
        if found {
            self.records.set(idx, rec);
            proof {
                let t = self.records@;
                assert(t == s.update(idx as int, rec));
                assert(sorted_by_key(t)) by {
                    assert forall|i: int, j: int| 0 <= i < j < t.len() implies t[i].key.id < t[j].key.id by {
                        assert(s[i].key.id < s[j].key.id);
                    }
                }
                lemma_lookup_at(t, idx as int);
                assert(has_key(s, key.id));
                assert forall|id: u128| id != key.id implies #[trigger] lookup(t, id) == lookup(s, id) by {
                    assert forall|r: Record| r.key.id == id implies (s.contains(r) <==> t.contains(r)) by {
                        if s.contains(r) {
                            let p = choose|p: int| 0 <= p < s.len() && s[p] == r;
                            assert(t[p] == r);
                        }
                        if t.contains(r) {
                            let p = choose|p: int| 0 <= p < t.len() && t[p] == r;
                            assert(s[p] == r);
                        }
                    }
                    lemma_lookup_same(s, t, id);
                }
            }
        } else {
            self.records.insert(idx, rec);
            proof {
                let t = self.records@;
                assert(t == s.insert(idx as int, rec));
                assert(sorted_by_key(t)) by {
                    assert forall|i: int, j: int| 0 <= i < j < t.len() implies t[i].key.id < t[j].key.id by {
                        if j < idx {
                            assert(s[i].key.id < s[j].key.id);
                        } else if j == idx {
                        } else if i < idx {
                            assert(s[j - 1].key.id > key.id);
                        } else if i == idx {
                            assert(s[j - 1].key.id > key.id);
                        } else {
                            assert(s[i - 1].key.id < s[j - 1].key.id);
                        }
                    }
                }
                lemma_lookup_at(t, idx as int);
                assert(!has_key(s, key.id)) by {
                    if has_key(s, key.id) {
                        let i = choose|i: int| 0 <= i < s.len() && s[i].key.id == key.id;
                        if i < idx {
                        } else {
                        }
                    }
                }
                assert forall|id: u128| id != key.id implies #[trigger] lookup(t, id) == lookup(s, id) by {
                    assert forall|r: Record| r.key.id == id implies (s.contains(r) <==> t.contains(r)) by {
                        if s.contains(r) {
                            let p = choose|p: int| 0 <= p < s.len() && s[p] == r;
                            if p < idx {
                                assert(t[p] == r);
                            } else {
                                assert(t[p + 1] == r);
                            }
                        }
                        if t.contains(r) {
                            let p = choose|p: int| 0 <= p < t.len() && t[p] == r;
                            if p < idx {
                                assert(s[p] == r);
                            } else {
                                assert(s[p - 1] == r);
                            }
                        }
                    }
                    lemma_lookup_same(s, t, id);
                }
            }
        }
    }

    /// Puts document `doc` under `key`.
    pub fn set(&mut self, key: &Key, doc: Document)
        requires
            old(self).wf(),
            key.wf(),
        ensures
            final(self).wf(),
            final(self).max_records == old(self).max_records,
            final(self).value_of(key.id) == Some(Value::Data(doc)),
            forall|id: u128| id != key.id ==> #[trigger] final(self).value_of(id) == old(self).value_of(id),
    {
        self.insert(key, Value::Data(doc));
    }

    /// Puts a tombstone under `key`; the key stays, so the deletion reaches
    /// the tables it is merged into.
    pub fn del(&mut self, key: &Key)
        requires
            old(self).wf(),
            key.wf(),
        ensures
            final(self).wf(),
            final(self).max_records == old(self).max_records,
            final(self).value_of(key.id) == Some(Value::<Document>::Tombstone),
            forall|id: u128| id != key.id ==> #[trigger] final(self).value_of(id) == old(self).value_of(id),
    {
        self.insert(key, Value::Tombstone);
    }

    /// The value held under `key`, tombstone or not.
    pub fn get(&self, key: &Key) -> (r: Option<Value<Document>>)
        requires
            self.wf(),
        ensures
            r == self.value_of(key.id),
    {
        match search_by_key(&self.records, key) {
            Ok(idx) => {
                proof {
                    lemma_lookup_at(self.records@, idx as int);
                }
                Some(self.records[idx].value.duplicate())
            },
            Err(_) => None,
        }
    }

    /// Whether some value, tombstone or not, is held under `key`.
    pub fn contains_key(&self, key: &Key) -> (r: bool)
        requires
            self.wf(),
        ensures
            r == self.value_of(key.id) is Some,
    {
        match search_by_key(&self.records, key) {
            Ok(idx) => {
                proof {
                    lemma_lookup_at(self.records@, idx as int);
                }
                true
            },
            Err(_) => false,
        }
    }

    /// A table holding the buffer's records by ascending key, under a fresh
    /// id and made now. Fails on an empty buffer.
    pub fn flush(&self) -> (r: Result<SSTable, StorageError>)
        requires
            self.wf(),
        ensures
            match r {
                Ok(t) => {
                    &&& self.records@.len() > 0
                    &&& t.wf()
                    &&& t.records@ == self.records@
                    &&& t.meta.table_id.wf()
                },
                Err(e) => self.records@.len() == 0 && e == StorageError::EmptyInput,
            },
    {
        let records = copy_records(&self.records);
        if records.len() == 0 {
            return Err(StorageError::EmptyInput);
        }
        let min_key = records[0].key;
        let max_key = records[records.len() - 1].key;
        let num_records = records.len();
        let meta = SSTableMeta {
            table_id: Key::generate(),
            created_at: now_millis(),
            min_key,
            max_key,
            num_records,
        };
        Ok(SSTable { meta, records })
    }

    /// Drops every record.
    pub fn clear(&mut self)
        ensures
            final(self).wf(),
            final(self).records@.len() == 0,
            final(self).max_records == old(self).max_records,
    {
        self.records.clear();
    }

    /// The number of keys held.
    pub fn size(&self) -> (r: usize)
        ensures
            r == self.records@.len(),
    {
        self.records.len()
    }

    /// Whether the buffer holds at least its maximum number of records.
    pub fn is_full(&self) -> (r: bool)
        ensures
            r == (self.records@.len() >= self.max_records),
    {
        self.size() >= self.max_records
    }
}

/// Two sequences, key-ascending, that hold the same records under keys other
/// than the one changed, hold the same value under `id`.
proof fn lemma_lookup_same(s: Seq<Record>, t: Seq<Record>, id: u128)
    requires
        sorted_by_key(s),
        sorted_by_key(t),
        forall|r: Record| r.key.id == id ==> (s.contains(r) <==> t.contains(r)),
    ensures
        lookup(s, id) == lookup(t, id),
{
    if has_key(s, id) {
        let i = choose|i: int| 0 <= i < s.len() && s[i].key.id == id;
        lemma_lookup_at(s, i);
        assert(s.contains(s[i]));
        assert(t.contains(s[i]));
        let j = choose|j: int| 0 <= j < t.len() && t[j] == s[i];
        lemma_lookup_at(t, j);
    } else if has_key(t, id) {
        let j = choose|j: int| 0 <= j < t.len() && t[j].key.id == id;
        assert(t.contains(t[j]));
        assert(s.contains(t[j]));
    }
}

} // verus!
