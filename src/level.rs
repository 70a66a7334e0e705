use vstd::prelude::*;
use crate::conf::{LEVEL_META_FILE, MAX_TABLES_PER_LEVEL, MEMTABLE_MAX_SIZE, TABLE_FILE_EXT};
use crate::error::StorageError;
use crate::key::{key_bytes, now_millis, Key};
use crate::membership::BloomMembership;
use crate::record::Record;
use crate::sstable::{copy_records, has_key, hex_of, join_path, joined_path, object_id_hex, path_with_extension, with_extension, merge_records, merged_from, sorted_by_key, SSTable, SSTableHandle, SSTableMeta};

verus! {

/// Where the table with id `id` is stored in the level directory `dir`: a
/// file named after the id's hex digits, with the table extension.
pub open spec fn table_path(dir: Seq<char>, id: Key) -> Seq<char> {
    path_with_extension(joined_path(dir, hex_of(key_bytes(id))), TABLE_FILE_EXT@)
}

/// The ids of a sequence of handles, in order.
pub open spec fn handle_ids(hs: Seq<SSTableHandle>) -> Seq<Key> {
    hs.map_values(|h: SSTableHandle| h.meta.table_id)
}

/// The metadata of a sequence of handles, in order.
pub open spec fn handle_metas(hs: Seq<SSTableHandle>) -> Seq<SSTableMeta> {
    hs.map_values(|h: SSTableHandle| h.meta)
}

/// The metadata of a sequence of tables, in order.
pub open spec fn table_metas(ts: Seq<SSTable>) -> Seq<SSTableMeta> {
    ts.map_values(|t: SSTable| t.meta)
}

/// Whether the tables are ordered newest first.
pub open spec fn tables_newest_first(ts: Seq<SSTable>) -> bool {
    forall|i: int, j: int| 0 <= i < j < ts.len() ==> ts[i].meta.created_at >= ts[j].meta.created_at
}

/// Whether the handles are ordered newest first.
pub open spec fn newest_first(hs: Seq<SSTableHandle>) -> bool {
    forall|i: int, j: int| 0 <= i < j < hs.len() ==> hs[i].meta.created_at >= hs[j].meta.created_at
}

/// The keys that a record sequence holds.
pub open spec fn key_set(s: Seq<Record>) -> Set<u128> {
    Set::new(|id: u128| has_key(s, id))
}

/// The keys held by the tables `ts`.
pub open spec fn keys_of_tables(ts: Seq<SSTable>) -> Set<u128> {
    Set::new(|id: u128| exists|u: int| 0 <= u < ts.len() && #[trigger] has_key(ts[u].records@, id))
}

/// Whether `merged` holds, for every key of the first `n` tables of `ts`, the
/// record of the first of them that has the key, and nothing else.
pub open spec fn first_wins_upto(merged: Seq<Record>, ts: Seq<SSTable>, n: int) -> bool {
    &&& sorted_by_key(merged)
    &&& forall|id: u128|
        has_key(merged, id) <==> exists|u: int| 0 <= u < n && #[trigger] has_key(ts[u].records@, id)
    &&& forall|r: Record|
        #[trigger] merged.contains(r) ==> exists|t: int|
            0 <= t < n && ts[t].records@.contains(r) && forall|u: int|
                0 <= u < t ==> !has_key(#[trigger] ts[u].records@, r.key.id)
}

/// Whether `merged` holds, for every key of the tables `ts`, the record of the
/// first table in `ts` that has the key, and nothing else.
pub open spec fn first_wins(merged: Seq<Record>, ts: Seq<SSTable>) -> bool {
    first_wins_upto(merged, ts, ts.len() as int)
}

/// Where the metadata of the level in directory `path` is stored; a path
/// made of text always has one.
pub fn format_meta_path(path: &str) -> (r: Option<String>)
    ensures
        r matches Some(p) && p@ == joined_path(path@, LEVEL_META_FILE@),
{
    Some(join_path(path, LEVEL_META_FILE))
}

/// The metadata of a level.
#[derive(Debug, Clone, PartialEq)]
pub struct LevelMeta {
    /// The level's unique id.
    pub id: Key,
    /// When the level was made, in milliseconds since the epoch.
    pub created_at: i64,
    /// The level number; the first on-disk level is 1.
    pub level: usize,
    /// The number of tables in the level.
    pub num_tables: usize,
    /// The ids of the level's tables, in scan order.
    pub table_ids: Vec<Key>,
}

impl LevelMeta {
    /// Metadata under a fresh id, made now.
    pub fn new(level: usize, num_tables: usize, table_ids: Vec<Key>) -> (r: LevelMeta)
        ensures
            r.id.wf(),
            r.level == level,
            r.num_tables == num_tables,
            r.table_ids@ == table_ids@,
    {
        LevelMeta { id: Key::generate(), created_at: now_millis(), level, num_tables, table_ids }
    }
}

/// What compacting a level gives: the merged table, and the ids of the
/// tables it replaces.
pub struct CompactResult {
    /// The table merged from all of the level's tables.
    pub new_table: SSTable,
    /// The ids of the tables that were merged.
    pub old_table_ids: Vec<Key>,
}

/// An on-disk level of the tree: handles on its tables, newest first, with
/// metadata and a bloom membership structure over their keys.
pub struct Level {
    /// The metadata of the level.
    pub meta: LevelMeta,
    /// The handles on the level's tables, newest first.
    pub tables: Vec<SSTableHandle>,
    /// An approximate set of the keys of the level's tables.
    pub bloom_filter: BloomMembership,
    /// The level's directory.
    pub path: String,
    /// The number of tables at which the level is full.
    pub max_tables: usize,
    /// The number of records per table intended for this level.
    pub records_per_table: usize,
    /// The keys that each table holds, by table id, as far as known; a table
    /// of unknown content may hold any key.
    pub table_keys: Ghost<Map<Key, Set<u128>>>,
}

impl Level {
    /// The metadata lists the handles' ids in order and their number, the
    /// handles are newest first, and the content of each is accounted for.
    pub open spec fn wf(&self) -> bool {
        &&& self.meta.table_ids@ == handle_ids(self.tables@)
        &&& self.meta.num_tables == self.tables@.len()
        &&& newest_first(self.tables@)
        &&& self.bloom_filter.wf()
        &&& forall|i: int|
            0 <= i < self.tables@.len() ==> self.table_keys@.dom().contains(
                #[trigger] self.tables@[i].meta.table_id,
            )
    }

    /// The keys that table `i` of the level may hold.
    pub open spec fn keys_of(&self, i: int) -> Set<u128> {
        self.table_keys@[self.tables@[i].meta.table_id]
    }

    /// Every key that a table of the level may hold is in the bloom structure.
    pub open spec fn bloom_covers(&self) -> bool {
        forall|i: int, id: u128|
            0 <= i < self.tables@.len() && #[trigger] self.keys_of(i).contains(id)
                ==> self.bloom_filter.items().contains(id)
    }

    /// Whether each of the first `n` tables of `ts` has an active handle
    /// carrying its metadata, stored in the level's directory under its id.
    #[verifier::opaque]
    pub open spec fn handles_cover(&self, ts: Seq<SSTable>, n: int) -> bool {
        forall|q: int|
            0 <= q < n ==> exists|j: int|
                0 <= j < self.tables@.len() && #[trigger] self.tables@[j].meta == (#[trigger] ts[q]).meta
                    && self.tables@[j].active && self.tables@[j].path@ == table_path(
                    self.path@,
                    ts[q].meta.table_id,
                )
    }

    /// Whether every handle is active and carries the metadata of one of the
    /// first `n` tables of `ts`.
    #[verifier::opaque]
    pub open spec fn handles_from(&self, ts: Seq<SSTable>, n: int) -> bool {
        forall|j: int|
            0 <= j < self.tables@.len() ==> (#[trigger] self.tables@[j]).active && exists|q: int|
                0 <= q < n && self.tables@[j].meta == (#[trigger] ts[q]).meta
    }

    /// Whether the level's handles are one active handle per table among the
    /// first `n` of `ts`, carrying its metadata and stored in the level's
    /// directory under the table's id.
    pub open spec fn handles_hold(&self, ts: Seq<SSTable>, n: int) -> bool {
        &&& self.tables@.len() == n
        &&& self.handles_cover(ts, n)
        &&& self.handles_from(ts, n)
    }

    /// Whether the keys known for each table id among the first `n` of `ts`
    /// are those of the last of these tables with that id.
    #[verifier::opaque]
    pub open spec fn keys_hold(&self, ts: Seq<SSTable>, n: int) -> bool {
        forall|q: int|
            0 <= q < n && (forall|r: int| q < r < n ==> ts[r].meta.table_id != ts[q].meta.table_id)
                ==> self.table_keys@[(#[trigger] ts[q]).meta.table_id] == key_set(ts[q].records@)
    }

    /// Whether the level holds the first `n` tables of `ts` and nothing else:
    /// its handles are theirs, its bloom structure holds exactly their keys,
    /// and the keys known for their ids are theirs.
    pub open spec fn holds_tables_upto(&self, ts: Seq<SSTable>, n: int) -> bool {
        &&& self.handles_hold(ts, n)
        &&& self.bloom_filter.items() == keys_of_tables(ts.subrange(0, n))
        &&& self.keys_hold(ts, n)
    }

    /// Whether the level holds the tables `ts` and nothing else.
    pub open spec fn holds_tables(&self, ts: Seq<SSTable>) -> bool {
        self.holds_tables_upto(ts, ts.len() as int)
    }

    /// A level numbered `level_number` under directory `parent_path`, holding
    /// the given handles ordered newest first (their order kept where it is
    /// already so), with a fresh id. Nothing of the
    /// tables' content is known yet: until the bloom structure is rebuilt, a
    /// level with tables counts each as holding any key.
    pub fn new(parent_path: &str, level_number: usize, tables: Vec<SSTableHandle>) -> (r: Level)
        requires
            level_number <= usize::MAX / MEMTABLE_MAX_SIZE,
        ensures
            r.wf(),
            r.tables@.len() == tables@.len(),
            forall|i: int| 0 <= i < tables@.len() ==> r.tables@.contains(#[trigger] tables@[i]),
            forall|j: int| 0 <= j < r.tables@.len() ==> tables@.contains(#[trigger] r.tables@[j]),
            newest_first(tables@) ==> r.tables@ == tables@,
            r.meta.level == level_number,
            r.meta.id.wf(),
            r.max_tables == MAX_TABLES_PER_LEVEL,
            r.records_per_table == MEMTABLE_MAX_SIZE * level_number,
            tables@.len() == 0 ==> r.bloom_covers(),
            r.bloom_filter.items() == Set::<u128>::empty(),
            r.path@ == joined_path(parent_path@, hex_of(key_bytes(r.meta.id))),
    {
        let tables = sort_newest_first(tables);
        let ids = collect_ids(&tables);
        let meta = LevelMeta::new(level_number, tables.len(), ids);
        let path = join_path(parent_path, object_id_hex(meta.id.to_bytes()).as_str());
        let ghost keys = Map::new(|k: Key| true, |k: Key| Set::<u128>::full());
        Level {
            meta,
            tables,
            bloom_filter: BloomMembership::new(),
            path,
            max_tables: MAX_TABLES_PER_LEVEL,
            records_per_table: MEMTABLE_MAX_SIZE * level_number,
            table_keys: Ghost(keys),
        }
    }

    /// Where the table with id `id` is stored: in the level's directory, named
    /// after the id.
    pub fn format_table_path(&self, id: &Key) -> (r: String)
        requires
            id.wf(),
        ensures
            r@ == table_path(self.path@, *id),
    {
        proof {
            reveal_strlit("bson");
        }
        let name = object_id_hex(id.to_bytes());
        let path = join_path(self.path.as_str(), name.as_str());
        with_extension(path.as_str(), TABLE_FILE_EXT)
    }

    /// Whether the level's bloom structure rules `key` out: then, where the
    /// structure covers the tables, no table of the level holds it.
    pub fn doesnt_contain(&self, key: &Key) -> (r: bool)
        requires
            self.wf(),
        ensures
            r == !self.bloom_filter.answers().contains(key.id),
            self.bloom_filter.items().contains(key.id) ==> !r,
            r && self.bloom_covers() ==> forall|i: int|
                0 <= i < self.tables@.len() ==> !(#[trigger] self.keys_of(i)).contains(key.id),
    {
        !self.bloom_filter.contains(key.id)
    }

    /// Whether the level holds at least its maximum number of tables.
    pub fn is_full(&self) -> (r: bool)
        ensures
            r == (self.tables@.len() >= self.max_tables),
    {
        self.tables.len() >= self.max_tables
    }

    /// Makes the metadata list the handles' ids and their number.
    pub fn update_table_ids(&mut self)
        ensures
            final(self).meta.table_ids@ == handle_ids(final(self).tables@),
            final(self).meta.num_tables == final(self).tables@.len(),
            final(self).meta.id == old(self).meta.id,
            final(self).meta.level == old(self).meta.level,
            final(self).meta.created_at == old(self).meta.created_at,
            final(self).tables == old(self).tables,
            final(self).bloom_filter == old(self).bloom_filter,
            final(self).table_keys == old(self).table_keys,
            final(self).path == old(self).path,
            final(self).max_tables == old(self).max_tables,
            final(self).records_per_table == old(self).records_per_table,
    {
        self.meta.table_ids = collect_ids(&self.tables);
        self.meta.num_tables = self.tables.len();
    }

    /// Adds a table to the level: a handle on it, placed before the first
    /// table no newer than it, and its keys in the bloom structure. Returns
    /// the handle, whose path is where the table is to be stored.
    pub fn add_sstable(&mut self, table: &SSTable) -> (h: SSTableHandle)
        requires
            old(self).wf(),
            table.wf(),
        ensures
            final(self).wf(),
            h.meta == table.meta,
            h.active,
            h.path@ == table_path(old(self).path@, table.meta.table_id),
            exists|p: int| 0 <= p <= old(self).tables@.len()
                && final(self).tables@ == old(self).tables@.insert(p, h),
            final(self).table_keys@[table.meta.table_id] == key_set(table.records@),
            final(self).bloom_filter.items() == old(self).bloom_filter.items().union(key_set(table.records@)),
            old(self).bloom_covers() ==> final(self).bloom_covers(),
            forall|k: Key| k != table.meta.table_id ==> #[trigger] final(self).table_keys@.dom().contains(k)
                == old(self).table_keys@.dom().contains(k) && final(self).table_keys@[k] == old(self).table_keys@[k],
            final(self).meta.id == old(self).meta.id,
            final(self).meta.created_at == old(self).meta.created_at,
            final(self).meta.level == old(self).meta.level,
            final(self).path == old(self).path,
            final(self).max_tables == old(self).max_tables,
            final(self).records_per_table == old(self).records_per_table,
    {
        self.add_table_at(table, false)
    }

    /// Adds a table to the level, placed before the first handle older than
    /// it, or with `after_equals` before the first handle strictly older.
    fn add_table_at(&mut self, table: &SSTable, after_equals: bool) -> (h: SSTableHandle)
        requires
            old(self).wf(),
            table.wf(),
        ensures
            final(self).wf(),
            h.meta == table.meta,
            h.active,
            h.path@ == table_path(old(self).path@, table.meta.table_id),
            exists|p: int| 0 <= p <= old(self).tables@.len()
                && final(self).tables@ == old(self).tables@.insert(p, h),
            final(self).table_keys@[table.meta.table_id] == key_set(table.records@),
            final(self).bloom_filter.items() == old(self).bloom_filter.items().union(key_set(table.records@)),
            old(self).bloom_covers() ==> final(self).bloom_covers(),
            forall|k: Key| k != table.meta.table_id ==> #[trigger] final(self).table_keys@.dom().contains(k)
                == old(self).table_keys@.dom().contains(k) && final(self).table_keys@[k] == old(self).table_keys@[k],
            final(self).meta.id == old(self).meta.id,
            final(self).meta.created_at == old(self).meta.created_at,
            final(self).meta.level == old(self).meta.level,
            final(self).path == old(self).path,
            final(self).max_tables == old(self).max_tables,
            final(self).records_per_table == old(self).records_per_table,
            after_equals && (forall|k: int| 0 <= k < old(self).tables@.len() ==> old(self).tables@[k].meta.created_at
                >= table.meta.created_at) ==> final(self).tables@ == old(self).tables@.push(h),
    {
        let path = self.format_table_path(&table.meta.table_id);
        let handle = SSTableHandle::new(table.meta, path.as_str());
        let h = handle.clone_handle();
        let ghost old_tables = self.tables@;
        let p = insert_newest_first(&mut self.tables, handle, after_equals);
        proof {
            if p == old_tables.len() {
                assert(old_tables.insert(p as int, h) =~= old_tables.push(h));
            }
        }
        self.table_keys = Ghost(self.table_keys@.insert(table.meta.table_id, key_set(table.records@)));
        add_keys(&mut self.bloom_filter, &table.records);
        let ghost mid_tables = self.tables@;
        self.update_table_ids();
        proof {
            let t = self.tables@;
            assert(t == mid_tables);
            assert(t == old_tables.insert(p as int, h));
            assert(t.len() == old_tables.len() + 1);
            assert forall|k: int| 0 <= k < t.len() implies self.table_keys@.dom().contains(
                #[trigger] t[k].meta.table_id,
            ) by {
                if k < p {
                    assert(t[k] == old_tables[k]);
                } else if k > p {
                    assert(t[k] == old_tables[k - 1]);
                }
            }
            if old(self).bloom_covers() {
                assert forall|k: int, id: u128|
                    0 <= k < t.len() && #[trigger] self.keys_of(k).contains(id)
                        implies self.bloom_filter.items().contains(id) by {
                    if t[k].meta.table_id == table.meta.table_id {
                    } else if k < p {
                        assert(t[k] == old_tables[k]);
                        assert(old(self).keys_of(k).contains(id));
                    } else {
                        assert(t[k] == old_tables[k - 1]);
                        assert(old(self).keys_of(k - 1).contains(id));
                    }
                }
            }
        }
        h
    }

    /// Drops the handles whose ids are listed, keeping the others in order,
    /// and makes the metadata follow. Returns the dropped handles, whose files
    /// are to be deleted. The bloom structure is left as it is: it still
    /// covers the remaining tables.
    pub fn clear(&mut self, ids: &Vec<Key>) -> (removed: Vec<SSTableHandle>)
        requires
            old(self).wf(),
        ensures
            final(self).wf(),
            final(self).tables@ == old(self).tables@.filter(|h: SSTableHandle| !ids@.contains(h.meta.table_id)),
            removed@ == old(self).tables@.filter(|h: SSTableHandle| ids@.contains(h.meta.table_id)),
            final(self).bloom_filter == old(self).bloom_filter,
            final(self).table_keys == old(self).table_keys,
            old(self).bloom_covers() ==> final(self).bloom_covers(),
            final(self).meta.id == old(self).meta.id,
            final(self).meta.level == old(self).meta.level,
            final(self).path == old(self).path,
            final(self).max_tables == old(self).max_tables,
            final(self).records_per_table == old(self).records_per_table,
    {
        let ghost keep = |h: SSTableHandle| !ids@.contains(h.meta.table_id);
        let ghost drop = |h: SSTableHandle| ids@.contains(h.meta.table_id);
        let ghost old_tables = self.tables@;
        let mut kept: Vec<SSTableHandle> = Vec::new();
        let mut removed: Vec<SSTableHandle> = Vec::new();
        let mut i: usize = 0;
        while i < self.tables.len()
            invariant
                0 <= i <= old_tables.len(),
                self.tables@ == old_tables,
                self.wf(),
                keep == |h: SSTableHandle| !ids@.contains(h.meta.table_id),
                drop == |h: SSTableHandle| ids@.contains(h.meta.table_id),
                kept@ == old_tables.subrange(0, i as int).filter(keep),
                removed@ == old_tables.subrange(0, i as int).filter(drop),
                newest_first(kept@),
                forall|k: int, j: int|
                    0 <= k < kept@.len() && i <= j < old_tables.len() ==> kept@[k].meta.created_at
                        >= old_tables[j].meta.created_at,
                forall|k: int|
                    0 <= k < kept@.len() ==> exists|j: int| 0 <= j < i && old_tables[j] == #[trigger] kept@[k],
            decreases old_tables.len() - i,
        {
            let h = self.tables[i].clone_handle();
            let ghost prefix = old_tables.subrange(0, i + 1);
            proof {
                assert(prefix.drop_last() =~= old_tables.subrange(0, i as int));
                assert(prefix.last() == old_tables[i as int]);
            }
            proof {
                assert(h == old_tables[i as int]);
                let sub = old_tables.subrange(0, i as int);
                assert(prefix =~= sub.push(h));
                sub.lemma_filter_push(h, drop);
                sub.lemma_filter_push(h, keep);
            }
            if holds_id(ids, h.meta.table_id) {
                proof {
                    assert(drop(h));
                    assert(!keep(h));

                    assert(prefix.filter(drop) == old_tables.subrange(0, i as int).filter(drop).push(h));
                    assert(prefix.filter(keep) == old_tables.subrange(0, i as int).filter(keep));
                }
                removed.push(h);
            } else {
                proof {
                    assert(!drop(h));
                    assert(keep(h));

                    assert(prefix.filter(drop) == old_tables.subrange(0, i as int).filter(drop));
                    assert(prefix.filter(keep) == old_tables.subrange(0, i as int).filter(keep).push(h));
                }
                let ghost before = kept@;
                kept.push(h);
                proof {
                    assert forall|k: int| 0 <= k < kept@.len() implies exists|j: int|
                        0 <= j < i + 1 && old_tables[j] == #[trigger] kept@[k] by {
                        if k < before.len() {
                            assert(kept@[k] == before[k]);
                        } else {
                            assert(old_tables[i as int] == kept@[k]);
                        }
                    }
                }
            }
            proof {
                assert forall|k: int, j: int|
                    0 <= k < kept@.len() && i + 1 <= j < old_tables.len() implies kept@[k].meta.created_at
                        >= old_tables[j].meta.created_at by {
                    let jj = choose|jj: int| 0 <= jj < i + 1 && old_tables[jj] == kept@[k];
                    if jj < j {
                        assert(old_tables[jj].meta.created_at >= old_tables[j].meta.created_at);
                    }
                }
            }
            i = i + 1;
        }
        proof {
            assert(old_tables.subrange(0, old_tables.len() as int) =~= old_tables);
        }
        let ghost kept_v = kept@;
        self.tables = kept;
        self.update_table_ids();
        proof {
            assert forall|k: int| 0 <= k < self.tables@.len() implies self.table_keys@.dom().contains(
                #[trigger] self.tables@[k].meta.table_id,
            ) by {
                assert(self.tables@[k] == kept_v[k]);
                let j = choose|j: int| 0 <= j < old_tables.len() && old_tables[j] == kept_v[k];
                assert(old(self).tables@[j].meta.table_id == self.tables@[k].meta.table_id);
            }
            if old(self).bloom_covers() {
                assert forall|k: int, id: u128|
                    0 <= k < self.tables@.len() && #[trigger] self.keys_of(k).contains(id)
                        implies self.bloom_filter.items().contains(id) by {
                    assert(self.tables@[k] == kept_v[k]);
                    let j = choose|j: int| 0 <= j < old_tables.len() && old_tables[j] == kept_v[k];
                    assert(old(self).keys_of(j).contains(id));
                }
            }
        }
        removed
    }

    /// Drops every handle, empties the metadata's table list and the bloom
    /// structure. Returns the dropped handles, whose files are to be deleted.
    pub fn clear_all(&mut self) -> (removed: Vec<SSTableHandle>)
        requires
            old(self).wf(),
        ensures
            final(self).wf(),
            final(self).bloom_covers(),
            final(self).tables@.len() == 0,
            removed@ == old(self).tables@,
            final(self).bloom_filter.items() == Set::<u128>::empty(),
            final(self).meta.id == old(self).meta.id,
            final(self).meta.created_at == old(self).meta.created_at,
            final(self).meta.level == old(self).meta.level,
            final(self).path == old(self).path,
            final(self).max_tables == old(self).max_tables,
            final(self).records_per_table == old(self).records_per_table,
    {
        let mut removed: Vec<SSTableHandle> = Vec::new();
        std::mem::swap(&mut removed, &mut self.tables);
        self.bloom_filter = BloomMembership::new();
        self.update_table_ids();
        proof {
            assert(newest_first(self.tables@));
        }
        removed
    }

    /// A bloom structure holding every key of the given tables, which are the
    /// level's tables as read from disk.
    pub fn get_bloom_filter(&self, tables: &Vec<SSTable>) -> (r: BloomMembership)
        ensures
            r.wf(),
            r.items() == keys_of_tables(tables@),
    {
        let mut bf = BloomMembership::new();
        let mut i: usize = 0;
        while i < tables.len()
            invariant
                0 <= i <= tables@.len(),
                bf.wf(),
                bf.items() == keys_of_tables(tables@.subrange(0, i as int)),
            decreases tables@.len() - i,
        {
            let ghost before = bf.items();
            add_keys(&mut bf, &tables[i].records);
            proof {
                let a = tables@.subrange(0, i + 1);
                let b = tables@.subrange(0, i as int);
                assert forall|id: u128| keys_of_tables(a).contains(id) <==> (keys_of_tables(b).contains(id)
                    || key_set(tables@[i as int].records@).contains(id)) by {
                    if keys_of_tables(a).contains(id) {
                        let u = choose|u: int| 0 <= u < a.len() && #[trigger] has_key(a[u].records@, id);
                        if u < i {
                            assert(b[u] == a[u]);
                        }
                    }
                    if keys_of_tables(b).contains(id) {
                        let u = choose|u: int| 0 <= u < b.len() && #[trigger] has_key(b[u].records@, id);
                        assert(b[u] == a[u]);
                    }
                    if key_set(tables@[i as int].records@).contains(id) {
                        assert(a[i as int] == tables@[i as int]);
                    }
                }
                assert(bf.items() =~= keys_of_tables(a));
            }
            i = i + 1;
        }
        proof {
            assert(tables@.subrange(0, tables@.len() as int) =~= tables@);
        }
        bf
    }

    /// Rebuilds the bloom structure from the level's tables as read from
    /// disk, one per handle and in the same order; fails, changing nothing,
    /// when their ids do not match the handles'.
    pub fn reload_bloom(&mut self, tables: &Vec<SSTable>) -> (r: Result<(), StorageError>)
        requires
            old(self).wf(),
        ensures
            final(self).wf(),
            final(self).tables == old(self).tables,
            final(self).meta == old(self).meta,
            final(self).path == old(self).path,
            final(self).max_tables == old(self).max_tables,
            final(self).records_per_table == old(self).records_per_table,
            match r {
                Ok(_) => {
                    &&& handle_metas(old(self).tables@) == table_metas(tables@)
                    &&& final(self).bloom_covers()
                    &&& final(self).bloom_filter.items() == keys_of_tables(tables@)
                },
                Err(e) => {
                    &&& handle_metas(old(self).tables@) != table_metas(tables@)
                    &&& e == StorageError::StateViolation
                    &&& final(self).bloom_filter == old(self).bloom_filter
                    &&& final(self).table_keys == old(self).table_keys
                },
            },
    {
        if !self.matches_tables(tables) {
            return Err(StorageError::StateViolation);
        }
        self.bloom_filter = self.get_bloom_filter(tables);
        let ghost ts = tables@;
        let ghost hs = self.tables@;
        let ghost keys = Map::new(
            |k: Key| true,
            |k: Key|
                if exists|j: int| 0 <= j < ts.len() && ts[j].meta.table_id == k {
                    key_set(ts[choose|j: int| 0 <= j < ts.len() && ts[j].meta.table_id == k].records@)
                } else {
                    Set::<u128>::full()
                },
        );
        self.table_keys = Ghost(keys);
        proof {
            assert forall|i: int, id: u128|
                0 <= i < hs.len() && #[trigger] self.keys_of(i).contains(id)
                    implies self.bloom_filter.items().contains(id) by {
                let m = table_metas(ts);
                assert(handle_metas(hs) == m);
                assert(handle_metas(hs).len() == hs.len());
                assert(m.len() == ts.len());
                assert(handle_metas(hs)[i] == hs[i].meta);
                assert(m[i] == ts[i].meta);
                assert(ts[i].meta.table_id == hs[i].meta.table_id);
                let k = hs[i].meta.table_id;
                assert(exists|j: int| 0 <= j < ts.len() && ts[j].meta.table_id == k);
                let j = choose|j: int| 0 <= j < ts.len() && ts[j].meta.table_id == k;
                assert(self.keys_of(i) == key_set(ts[j].records@));
                assert(has_key(ts[j].records@, id));
                assert(keys_of_tables(ts).contains(id));
            }
        }
        Ok(())
    }

    /// Rebuilds the handles from the tables that the metadata lists, as read
    /// from disk in the metadata's order: one handle per table, newest first,
    /// and the bloom structure over their keys. Fails, changing nothing, when
    /// the tables' ids are not the metadata's.
    pub fn reload_handles(&mut self, tables: &Vec<SSTable>) -> (r: Result<(), StorageError>)
        requires
            old(self).wf(),
            forall|i: int| 0 <= i < tables@.len() ==> (#[trigger] tables@[i]).wf(),
        ensures
            final(self).wf(),
            final(self).meta.id == old(self).meta.id,
            final(self).meta.level == old(self).meta.level,
            final(self).path == old(self).path,
            final(self).max_tables == old(self).max_tables,
            final(self).records_per_table == old(self).records_per_table,
            match r {
                Ok(_) => {
                    &&& old(self).meta.table_ids@ == tables@.map_values(|t: SSTable| t.meta.table_id)
                    &&& final(self).holds_tables(tables@)
                    &&& final(self).bloom_covers()
                    &&& final(self).meta.created_at == old(self).meta.created_at
                    &&& tables_newest_first(tables@) ==> final(self).meta.table_ids@ == old(self).meta.table_ids@
                },
                Err(e) => {
                    &&& old(self).meta.table_ids@ != tables@.map_values(|t: SSTable| t.meta.table_id)
                    &&& e == StorageError::StateViolation
                    &&& final(self).tables == old(self).tables
                    &&& final(self).bloom_filter == old(self).bloom_filter
                },
            },
    {
        if !ids_match(&self.meta.table_ids, tables) {
            return Err(StorageError::StateViolation);
        }
        self.clear_all();
        self.add_all(tables);
        Ok(())
    }

    /// A level restored from its metadata, under directory `parent_path`,
    /// from the tables the metadata lists as read from disk in its order.
    /// Fails when the tables' ids are not the metadata's.
    pub fn restore(parent_path: &str, meta: LevelMeta, tables: &Vec<SSTable>) -> (r: Result<Level, StorageError>)
        requires
            meta.level <= usize::MAX / MEMTABLE_MAX_SIZE,
            meta.id.wf(),
            forall|i: int| 0 <= i < tables@.len() ==> (#[trigger] tables@[i]).wf(),
        ensures
            match r {
                Ok(l) => {
                    &&& meta.table_ids@ == tables@.map_values(|t: SSTable| t.meta.table_id)
                    &&& l.wf()
                    &&& l.bloom_covers()
                    &&& l.holds_tables(tables@)
                    &&& l.meta.id == meta.id
                    &&& l.meta.created_at == meta.created_at
                    &&& tables_newest_first(tables@) ==> l.meta.table_ids@ == meta.table_ids@
                    &&& l.meta.level == meta.level
                    &&& l.max_tables == MAX_TABLES_PER_LEVEL
                    &&& l.records_per_table == MEMTABLE_MAX_SIZE * meta.level
                    &&& l.path@ == joined_path(parent_path@, hex_of(key_bytes(meta.id)))
                },
                Err(e) => {
                    &&& meta.table_ids@ != tables@.map_values(|t: SSTable| t.meta.table_id)
                    &&& e == StorageError::StateViolation
                },
            },
    {
        if !ids_match(&meta.table_ids, tables) {
            return Err(StorageError::StateViolation);
        }
        let path = join_path(parent_path, object_id_hex(meta.id.to_bytes()).as_str());
        let level_number = meta.level;
        let mut level = Level {
            meta: LevelMeta { id: meta.id, created_at: meta.created_at, level: meta.level, num_tables: 0, table_ids: Vec::new() },
            tables: Vec::new(),
            bloom_filter: BloomMembership::new(),
            path,
            max_tables: MAX_TABLES_PER_LEVEL,
            records_per_table: MEMTABLE_MAX_SIZE * level_number,
            table_keys: Ghost(Map::empty()),
        };
        proof {
            assert(handle_ids(level.tables@) =~= Seq::<Key>::empty());
        }
        level.add_all(tables);
        Ok(level)
    }

    /// Whether, when `ts` is newest first, the first `n` handles carry the
    /// metadata of the first `n` tables in order.
    pub open spec fn order_kept(&self, ts: Seq<SSTable>, n: int) -> bool {
        tables_newest_first(ts) ==> forall|k: int| 0 <= k < n ==> #[trigger] self.tables@[k].meta == ts[k].meta
    }

    /// Adds table `i` of `tables` to a level holding the ones before it.
    fn add_next(&mut self, tables: &Vec<SSTable>, i: usize)
        requires
            0 <= i < tables@.len(),
            tables@[i as int].wf(),
            old(self).wf(),
            old(self).bloom_covers(),
            old(self).holds_tables_upto(tables@, i as int),
            old(self).tables@.len() == i,
            old(self).order_kept(tables@, i as int),
        ensures
            final(self).wf(),
            final(self).bloom_covers(),
            final(self).holds_tables_upto(tables@, i + 1),
            final(self).tables@.len() == i + 1,
            final(self).order_kept(tables@, i + 1),
            final(self).meta.id == old(self).meta.id,
            final(self).meta.created_at == old(self).meta.created_at,
            final(self).meta.level == old(self).meta.level,
            final(self).path == old(self).path,
            final(self).max_tables == old(self).max_tables,
            final(self).records_per_table == old(self).records_per_table,
    {
        let ghost before = *self;
        proof {
            if tables_newest_first(tables@) {
                lemma_older_than_all(before.tables@, tables@, i as int);
            }
        }
        let h = self.add_table_at(&tables[i], true);
        proof {
            lemma_holds_step(before, *self, tables@, i as int, h);
            if tables_newest_first(tables@) {
                lemma_order_step(before.tables@, self.tables@, tables@, i as int, h);
            }
        }
    }

    /// Adds the tables, one after the other, to a level that holds none.
    fn add_all(&mut self, tables: &Vec<SSTable>)
        requires
            old(self).wf(),
            old(self).tables@.len() == 0,
            old(self).bloom_filter.items() == Set::<u128>::empty(),
            forall|i: int| 0 <= i < tables@.len() ==> (#[trigger] tables@[i]).wf(),
        ensures
            final(self).wf(),
            final(self).bloom_covers(),
            final(self).holds_tables(tables@),
            tables_newest_first(tables@) ==> handle_ids(final(self).tables@) == tables@.map_values(
                |t: SSTable| t.meta.table_id,
            ),
            final(self).meta.id == old(self).meta.id,
            final(self).meta.created_at == old(self).meta.created_at,
            final(self).meta.level == old(self).meta.level,
            final(self).path == old(self).path,
            final(self).max_tables == old(self).max_tables,
            final(self).records_per_table == old(self).records_per_table,
    {
        proof {
            assert(keys_of_tables(tables@.subrange(0, 0)) =~= Set::<u128>::empty());
            reveal(Level::handles_cover);
            reveal(Level::handles_from);
            reveal(Level::keys_hold);
        }
        let mut i: usize = 0;
        while i < tables.len()
            invariant
                0 <= i <= tables@.len(),
                forall|j: int| 0 <= j < tables@.len() ==> (#[trigger] tables@[j]).wf(),
                self.wf(),
                self.bloom_covers(),
                self.holds_tables_upto(tables@, i as int),
                self.tables@.len() == i,
                self.order_kept(tables@, i as int),
                self.meta.id == old(self).meta.id,
                self.meta.created_at == old(self).meta.created_at,
                self.meta.level == old(self).meta.level,
                self.path == old(self).path,
                self.max_tables == old(self).max_tables,
                self.records_per_table == old(self).records_per_table,
            decreases tables@.len() - i,
        {
            self.add_next(tables, i);
            i = i + 1;
        }
        proof {
            assert(tables@.subrange(0, tables@.len() as int) =~= tables@);
            if tables_newest_first(tables@) {
                assert(handle_ids(self.tables@) =~= tables@.map_values(|t: SSTable| t.meta.table_id));
            }
        }
    }

    /// Whether `tables` are, by metadata, the level's tables in order.
    fn matches_tables(&self, tables: &Vec<SSTable>) -> (r: bool)
        ensures
            r == (handle_metas(self.tables@) == table_metas(tables@)),
    {
        let ghost want = handle_metas(self.tables@);
        let ghost have = table_metas(tables@);
        if tables.len() != self.tables.len() {
            proof {
                assert(want.len() != have.len());
            }
            return false;
        }
        let mut i: usize = 0;
        while i < tables.len()
            invariant
                0 <= i <= tables@.len(),
                tables@.len() == self.tables@.len(),
                want == handle_metas(self.tables@),
                have == table_metas(tables@),
                forall|j: int| 0 <= j < i ==> want[j] == have[j],
            decreases tables@.len() - i,
        {
            if tables[i].meta != self.tables[i].meta {
                proof {
                    assert(want[i as int] != have[i as int]);
                }
                return false;
            }
            i = i + 1;
        }
        proof {
            assert(want =~= have);
        }
        true
    }

    /// The positions of the handles to read, in scan order, to look `key` up:
    /// the active handles whose key range holds `key`; none when the bloom
    /// structure rules the key out.
    pub fn tables_to_search(&self, key: &Key) -> (r: Vec<usize>)
        requires
            self.wf(),
        ensures
            !self.bloom_filter.answers().contains(key.id) ==> r@.len() == 0,
            forall|p: int|
                0 <= p < r@.len() ==> #[trigger] r@[p] < self.tables@.len() && self.tables@[r@[p] as int].active
                    && self.tables@[r@[p] as int].meta.in_range(*key),
            forall|p: int, q: int| 0 <= p < q < r@.len() ==> r@[p] < r@[q],
            r@.len() > 0 ==> forall|i: int|
                0 <= i < self.tables@.len() && #[trigger] self.tables@[i].active
                    && self.tables@[i].meta.in_range(*key) ==> r@.contains(i as usize),
            r@.len() == 0 && self.bloom_covers() ==> forall|i: int|
                0 <= i < self.tables@.len() && #[trigger] self.tables@[i].active
                    && self.tables@[i].meta.in_range(*key) ==> !self.keys_of(i).contains(key.id),
    {
        let mut r: Vec<usize> = Vec::new();
        if self.doesnt_contain(key) {
            return r;
        }
        let mut i: usize = 0;
        while i < self.tables.len()
            invariant
                0 <= i <= self.tables@.len(),
                forall|p: int|
                    0 <= p < r@.len() ==> #[trigger] r@[p] < i && self.tables@[r@[p] as int].active
                        && self.tables@[r@[p] as int].meta.in_range(*key),
                forall|p: int, q: int| 0 <= p < q < r@.len() ==> r@[p] < r@[q],
                forall|j: int|
                    0 <= j < i && #[trigger] self.tables@[j].active && self.tables@[j].meta.in_range(*key)
                        ==> r@.contains(j as usize),
            decreases self.tables@.len() - i,
        {
            if self.tables[i].active && self.tables[i].meta.key_in_range(key) {
                let ghost before = r@;
                r.push(i);
                proof {
                    assert forall|j: int|
                        0 <= j < i + 1 && #[trigger] self.tables@[j].active && self.tables@[j].meta.in_range(*key)
                            implies r@.contains(j as usize) by {
                        if j < i {
                            let p = choose|p: int| 0 <= p < before.len() && before[p] == j as usize;
                            assert(r@[p] == j as usize);
                        } else {
                            assert(r@[before.len() as int] == i);
                        }
                    }
                }
            }
            i = i + 1;
        }
        r
    }

    /// Merges the level's tables, as read from disk one per handle and in
    /// scan order, into one table under a fresh id: of the records with one
    /// key, the one of the first table in scan order, the newest, is kept.
    /// Fails when the level has no table, or when the tables' ids do not
    /// match the handles'.
    pub fn compact_tables(&self, tables: &Vec<SSTable>) -> (r: Result<CompactResult, StorageError>)
        requires
            forall|i: int| 0 <= i < tables@.len() ==> (#[trigger] tables@[i]).wf(),
        ensures
            match r {
                Ok(c) => {
                    &&& self.tables@.len() > 0
                    &&& handle_metas(self.tables@) == table_metas(tables@)
                    &&& c.new_table.wf()
                    &&& first_wins(c.new_table.records@, tables@)
                    &&& c.old_table_ids@ == handle_ids(self.tables@)
                },
                Err(e) => {
                    &&& (self.tables@.len() == 0 || handle_metas(self.tables@) != table_metas(tables@))
                    &&& e == StorageError::StateViolation
                },
            },
    {
        if self.tables.len() == 0 || !self.matches_tables(tables) {
            return Err(StorageError::StateViolation);
        }
        proof {
            assert(handle_metas(self.tables@).len() == tables@.len());
        }
        let mut acc = copy_records(&tables[0].records);
        proof {
            let ts = tables@;
            assert forall|id: u128| has_key(acc@, id) <==> exists|u: int| 0 <= u < 1 && #[trigger] has_key(ts[u].records@, id) by {
                if has_key(acc@, id) {
                    assert(has_key(ts[0].records@, id));
                }
            }
            assert forall|rec: Record| #[trigger] acc@.contains(rec) implies exists|t: int|
                0 <= t < 1 && ts[t].records@.contains(rec) && forall|u: int|
                    0 <= u < t ==> !has_key(#[trigger] ts[u].records@, rec.key.id) by {
                assert(ts[0].records@.contains(rec));
            }
        }
        let mut k: usize = 1;
        while k < tables.len()
            invariant
                1 <= k <= tables@.len(),
                forall|i: int| 0 <= i < tables@.len() ==> (#[trigger] tables@[i]).wf(),
                first_wins_upto(acc@, tables@, k as int),
                acc@.len() > 0,
            decreases tables@.len() - k,
        {
            let merged = merge_records(&acc, &tables[k].records);
            proof {
                lemma_first_wins_step(acc@, tables@, k as int, merged@);
            }
            acc = merged;
            k = k + 1;
        }
        let old_table_ids = collect_ids(&self.tables);
        match SSTable::new(acc) {
            Ok(new_table) => Ok(CompactResult { new_table, old_table_ids }),
            Err(e) => Err(e),
        }
    }
}

/// Puts `h` before the first handle older than it, or, with
/// `after_equals`, before the first handle strictly older than it; handles
/// kept newest first stay so. Returns the position.
fn insert_newest_first(hs: &mut Vec<SSTableHandle>, h: SSTableHandle, after_equals: bool) -> (p: usize)
    ensures
        p <= old(hs)@.len(),
        final(hs)@ == old(hs)@.insert(p as int, h),
        newest_first(old(hs)@) ==> newest_first(final(hs)@),
        after_equals && (forall|k: int| 0 <= k < old(hs)@.len() ==> old(hs)@[k].meta.created_at >= h.meta.created_at)
            ==> p == old(hs)@.len(),
{
    let ghost before = hs@;
    let c = h.meta.created_at;
    let mut p: usize = 0;
    while p < hs.len() && (hs[p].meta.created_at > c || (after_equals && hs[p].meta.created_at == c))
        invariant
            0 <= p <= hs@.len(),
            hs@ == before,
            forall|i: int| 0 <= i < p ==> hs@[i].meta.created_at >= c,
            after_equals && (forall|k: int| 0 <= k < hs@.len() ==> hs@[k].meta.created_at >= c)
                ==> forall|i: int| 0 <= i < p ==> hs@[i].meta.created_at >= c,
        decreases hs@.len() - p,
    {
        p = p + 1;
    }
    hs.insert(p, h);
    proof {
        let t = hs@;
        if newest_first(before) {
            assert forall|i: int, j: int| 0 <= i < j < t.len() implies t[i].meta.created_at
                >= t[j].meta.created_at by {
                if j < p {
                    assert(t[i] == before[i] && t[j] == before[j]);
                } else if j == p {
                    assert(t[i] == before[i]);
                } else if i < p {
                    assert(t[i] == before[i] && t[j] == before[j - 1]);
                    assert(before[i].meta.created_at >= before[j - 1].meta.created_at);
                } else if i == p {
                    assert(t[j] == before[j - 1]);
                    assert(before[p as int].meta.created_at <= c);
                    assert(before[p as int].meta.created_at >= before[j - 1].meta.created_at);
                } else {
                    assert(t[i] == before[i - 1] && t[j] == before[j - 1]);
                    assert(before[i - 1].meta.created_at >= before[j - 1].meta.created_at);
                }
            }
        }
    }
    p
}

/// The handles ordered newest first; handles of equal age keep their order.
fn sort_newest_first(hs: Vec<SSTableHandle>) -> (r: Vec<SSTableHandle>)
    ensures
        newest_first(r@),
        r@.len() == hs@.len(),
        forall|i: int| 0 <= i < hs@.len() ==> r@.contains(#[trigger] hs@[i]),
        forall|j: int| 0 <= j < r@.len() ==> hs@.contains(#[trigger] r@[j]),
        newest_first(hs@) ==> r@ == hs@,
{
    let mut out: Vec<SSTableHandle> = Vec::new();
    let mut i: usize = 0;
    while i < hs.len()
        invariant
            0 <= i <= hs@.len(),
            out@.len() == i,
            newest_first(out@),
            forall|q: int| 0 <= q < i ==> out@.contains(#[trigger] hs@[q]),
            forall|j: int| 0 <= j < out@.len() ==> exists|q: int| 0 <= q < i && hs@[q] == #[trigger] out@[j],
            newest_first(hs@) ==> out@ == hs@.subrange(0, i as int),
        decreases hs@.len() - i,
    {
        let ghost before = out@;
        let x = hs[i].clone_handle();
        proof {
            if newest_first(hs@) {
                assert forall|k: int| 0 <= k < before.len() implies before[k].meta.created_at >= x.meta.created_at by {
                    assert(before[k] == hs@[k]);
                }
            }
        }
        let p = insert_newest_first(&mut out, x, true);
        proof {
            let t = out@;
            assert forall|q: int| 0 <= q < i + 1 implies t.contains(#[trigger] hs@[q]) by {
                if q == i {
                    assert(t[p as int] == hs@[q]);
                } else {
                    let j = choose|j: int| 0 <= j < before.len() && before[j] == hs@[q];
                    if j < p {
                        assert(t[j] == hs@[q]);
                    } else {
                        assert(t[j + 1] == hs@[q]);
                    }
                }
            }
            assert forall|j: int| 0 <= j < t.len() implies exists|q: int| 0 <= q < i + 1 && hs@[q] == #[trigger] t[j] by {
                if j < p {
                    assert(t[j] == before[j]);
                    let q = choose|q: int| 0 <= q < i && hs@[q] == before[j];
                } else if j == p {
                    assert(hs@[i as int] == t[j]);
                } else {
                    assert(t[j] == before[j - 1]);
                    let q = choose|q: int| 0 <= q < i && hs@[q] == before[j - 1];
                }
            }
            if newest_first(hs@) {
                assert(t =~= hs@.subrange(0, i + 1));
            }
        }
        i = i + 1;
    }
    proof {
        assert(hs@.subrange(0, hs@.len() as int) =~= hs@);
        assert forall|j: int| 0 <= j < out@.len() implies hs@.contains(#[trigger] out@[j]) by {
            let q = choose|q: int| 0 <= q < hs@.len() && hs@[q] == out@[j];
        }
    }
    out
}

/// Adds the keys of the records to the bloom structure.
fn add_keys(bf: &mut BloomMembership, records: &Vec<Record>)
    requires
        old(bf).wf(),
    ensures
        final(bf).wf(),
        final(bf).items() == old(bf).items().union(key_set(records@)),
{
    let ghost old_items = bf.items();
    let mut i: usize = 0;
    proof {
        assert(key_set(records@.subrange(0, 0)) =~= Set::<u128>::empty());
        assert(old_items.union(Set::<u128>::empty()) =~= old_items);
    }
    while i < records.len()
        invariant
            0 <= i <= records@.len(),
            bf.wf(),
            bf.items() == old_items.union(key_set(records@.subrange(0, i as int))),
        decreases records@.len() - i,
    {
        bf.insert(records[i].key.id);
        proof {
            lemma_key_set_step(records@, i as int);
            assert(bf.items() =~= old_items.union(key_set(records@.subrange(0, i + 1))));
        }
        i = i + 1;
    }
    proof {
        assert(records@.subrange(0, records@.len() as int) =~= records@);
    }
}

/// The keys of a prefix one longer hold one more key.
proof fn lemma_key_set_step(s: Seq<Record>, i: int)
    requires
        0 <= i < s.len(),
    ensures
        key_set(s.subrange(0, i + 1)) == key_set(s.subrange(0, i)).insert(s[i].key.id),
{
    let a = s.subrange(0, i + 1);
    let b = s.subrange(0, i);
    assert forall|id: u128| has_key(a, id) <==> has_key(b, id) || id == s[i].key.id by {
        if has_key(a, id) {
            let q = choose|q: int| 0 <= q < a.len() && a[q].key.id == id;
            if q < i {
                assert(b[q].key.id == id);
            }
        }
        if has_key(b, id) {
            let q = choose|q: int| 0 <= q < b.len() && b[q].key.id == id;
            assert(a[q].key.id == id);
        }
        if id == s[i].key.id {
            assert(a[i].key.id == id);
        }
    }
    assert(key_set(a) =~= key_set(b).insert(s[i].key.id));
}

/// A key held by a record of a sequence is a key of it.
proof fn lemma_contains_has_key(s: Seq<Record>, r: Record)
    requires
        s.contains(r),
    ensures
        has_key(s, r.key.id),
{
    let p = choose|p: int| 0 <= p < s.len() && s[p] == r;
    assert(s[p].key.id == r.key.id);
}

/// Merging the next table, as the older side, into the result of the first
/// `k` tables gives the result of the first `k + 1`.
proof fn lemma_first_wins_step(acc: Seq<Record>, ts: Seq<SSTable>, k: int, merged: Seq<Record>)
    requires
        0 <= k < ts.len(),
        first_wins_upto(acc, ts, k),
        merged_from(merged, acc, ts[k].records@),
    ensures
        first_wins_upto(merged, ts, k + 1),
{
    let t = ts[k].records@;
    assert forall|id: u128|
        has_key(merged, id) <==> exists|u: int| 0 <= u < k + 1 && #[trigger] has_key(ts[u].records@, id) by {
        if has_key(merged, id) {
            let p = choose|p: int| 0 <= p < merged.len() && merged[p].key.id == id;
            assert(merged.contains(merged[p]));
            if acc.contains(merged[p]) {
                lemma_contains_has_key(acc, merged[p]);
            } else {
                lemma_contains_has_key(t, merged[p]);
                assert(has_key(ts[k].records@, id));
            }
        }
        if exists|u: int| 0 <= u < k + 1 && #[trigger] has_key(ts[u].records@, id) {
            let u = choose|u: int| 0 <= u < k + 1 && #[trigger] has_key(ts[u].records@, id);
            if u < k {
                assert(has_key(acc, id));
                let p = choose|p: int| 0 <= p < acc.len() && acc[p].key.id == id;
                assert(acc.contains(acc[p]));
                assert(merged.contains(acc[p]));
                lemma_contains_has_key(merged, acc[p]);
            } else if has_key(acc, id) {
                let p = choose|p: int| 0 <= p < acc.len() && acc[p].key.id == id;
                assert(acc.contains(acc[p]));
                assert(merged.contains(acc[p]));
                lemma_contains_has_key(merged, acc[p]);
            } else {
                let q = choose|q: int| 0 <= q < t.len() && t[q].key.id == id;
                assert(t.contains(t[q]));
                assert(merged.contains(t[q]));
                lemma_contains_has_key(merged, t[q]);
            }
        }
    }
    assert forall|r: Record| #[trigger] merged.contains(r) implies exists|w: int|
        0 <= w < k + 1 && ts[w].records@.contains(r) && forall|u: int|
            0 <= u < w ==> !has_key(#[trigger] ts[u].records@, r.key.id) by {
        if acc.contains(r) {
            let w = choose|w: int|
                0 <= w < k && ts[w].records@.contains(r) && forall|u: int|
                    0 <= u < w ==> !has_key(#[trigger] ts[u].records@, r.key.id);
            assert(0 <= w < k + 1);
        } else {
            assert(t.contains(r) && !has_key(acc, r.key.id));
            assert forall|u: int| 0 <= u < k implies !has_key(#[trigger] ts[u].records@, r.key.id) by {
                if has_key(ts[u].records@, r.key.id) {
                    assert(exists|v: int| 0 <= v < k && #[trigger] has_key(ts[v].records@, r.key.id));
                }
            }
        }
    }
}

/// Adding table `i` of `ts` to a level holding the tables before it makes it
/// hold the tables up to `i`.
proof fn lemma_holds_step(before: Level, after: Level, ts: Seq<SSTable>, i: int, h: SSTableHandle)
    requires
        0 <= i < ts.len(),
        before.holds_tables_upto(ts, i),
        h.meta == ts[i].meta,
        h.active,
        h.path@ == table_path(before.path@, ts[i].meta.table_id),
        after.path == before.path,
        exists|p: int| 0 <= p <= before.tables@.len() && after.tables@ == before.tables@.insert(p, h),
        after.table_keys@[ts[i].meta.table_id] == key_set(ts[i].records@),
        forall|k: Key| k != ts[i].meta.table_id ==> #[trigger] after.table_keys@.dom().contains(k)
            == before.table_keys@.dom().contains(k) && after.table_keys@[k] == before.table_keys@[k],
        after.bloom_filter.items() == before.bloom_filter.items().union(key_set(ts[i].records@)),
    ensures
        after.holds_tables_upto(ts, i + 1),
{
    let p = choose|p: int| 0 <= p <= before.tables@.len() && after.tables@ == before.tables@.insert(p, h);
    lemma_handles_step(before, after, ts, i, h, p);
    lemma_keys_of_tables_step(ts, i);
    lemma_keys_step(before, after, ts, i);
}

/// The keys known after adding table `i`.
proof fn lemma_keys_step(before: Level, after: Level, ts: Seq<SSTable>, i: int)
    requires
        0 <= i < ts.len(),
        before.keys_hold(ts, i),
        after.table_keys@[ts[i].meta.table_id] == key_set(ts[i].records@),
        forall|k: Key| k != ts[i].meta.table_id ==> #[trigger] after.table_keys@.dom().contains(k)
            == before.table_keys@.dom().contains(k) && after.table_keys@[k] == before.table_keys@[k],
    ensures
        after.keys_hold(ts, i + 1),
{
    reveal(Level::keys_hold);
    assert forall|q: int|
        0 <= q < i + 1 && (forall|r: int| q < r < i + 1 ==> ts[r].meta.table_id != ts[q].meta.table_id)
            implies after.table_keys@[(#[trigger] ts[q]).meta.table_id] == key_set(ts[q].records@) by {
        if q < i {
            let k = ts[q].meta.table_id;
            assert(ts[i].meta.table_id != k);
            assert(forall|r: int| q < r < i ==> ts[r].meta.table_id != ts[q].meta.table_id);
            assert(after.table_keys@.dom().contains(k) == before.table_keys@.dom().contains(k));
            assert(before.table_keys@[k] == key_set(ts[q].records@));
        }
    }
}

/// In tables kept newest first, table `i` is no newer than the handles on
/// the tables before it.
proof fn lemma_older_than_all(hs: Seq<SSTableHandle>, ts: Seq<SSTable>, i: int)
    requires
        0 <= i < ts.len(),
        tables_newest_first(ts),
        hs.len() == i,
        forall|k: int| 0 <= k < i ==> #[trigger] hs[k].meta == ts[k].meta,
    ensures
        forall|k: int| 0 <= k < hs.len() ==> hs[k].meta.created_at >= ts[i].meta.created_at,
{
    assert forall|k: int| 0 <= k < hs.len() implies hs[k].meta.created_at >= ts[i].meta.created_at by {
        assert(hs[k].meta == ts[k].meta);
    }
}

/// Appending the handle on table `i` keeps the handles in the tables' order.
proof fn lemma_order_step(hs: Seq<SSTableHandle>, after: Seq<SSTableHandle>, ts: Seq<SSTable>, i: int, h: SSTableHandle)
    requires
        0 <= i < ts.len(),
        hs.len() == i,
        forall|k: int| 0 <= k < i ==> #[trigger] hs[k].meta == ts[k].meta,
        after == hs.push(h),
        h.meta == ts[i].meta,
    ensures
        forall|k: int| 0 <= k < i + 1 ==> #[trigger] after[k].meta == ts[k].meta,
{
    assert forall|k: int| 0 <= k < i + 1 implies #[trigger] after[k].meta == ts[k].meta by {
        if k < i {
            assert(after[k] == hs[k]);
        }
    }
}

/// The handles of the level after adding table `i` at position `p`.
proof fn lemma_handles_step(before: Level, after: Level, ts: Seq<SSTable>, i: int, h: SSTableHandle, p: int)
    requires
        0 <= i < ts.len(),
        0 <= p <= before.tables@.len(),
        after.tables@ == before.tables@.insert(p, h),
        before.handles_hold(ts, i),
        h.meta == ts[i].meta,
        h.active,
        h.path@ == table_path(before.path@, ts[i].meta.table_id),
        after.path == before.path,
    ensures
        after.handles_hold(ts, i + 1),
{
    lemma_cover_step(before, after, ts, i, h, p);
    lemma_from_step(before, after, ts, i, h, p);
}

proof fn lemma_cover_step(before: Level, after: Level, ts: Seq<SSTable>, i: int, h: SSTableHandle, p: int)
    requires
        0 <= i < ts.len(),
        0 <= p <= before.tables@.len(),
        after.tables@ == before.tables@.insert(p, h),
        before.handles_cover(ts, i),
        h.meta == ts[i].meta,
        h.active,
        h.path@ == table_path(before.path@, ts[i].meta.table_id),
        after.path == before.path,
    ensures
        after.handles_cover(ts, i + 1),
{
    reveal(Level::handles_cover);
    let b = before.tables@;
    let t = after.tables@;
    assert forall|q: int| 0 <= q < i + 1 implies exists|j: int|
        0 <= j < t.len() && #[trigger] t[j].meta == (#[trigger] ts[q]).meta && t[j].active && t[j].path@
            == table_path(after.path@, ts[q].meta.table_id) by {
        if q == i {
            assert(t[p] == h);
        } else {
            let j = choose|j: int|
                0 <= j < b.len() && #[trigger] b[j].meta == ts[q].meta && b[j].active && b[j].path@
                    == table_path(before.path@, ts[q].meta.table_id);
            if j < p {
                assert(t[j] == b[j]);
            } else {
                assert(t[j + 1] == b[j]);
            }
        }
    }
}

proof fn lemma_from_step(before: Level, after: Level, ts: Seq<SSTable>, i: int, h: SSTableHandle, p: int)
    requires
        0 <= i < ts.len(),
        0 <= p <= before.tables@.len(),
        after.tables@ == before.tables@.insert(p, h),
        before.handles_from(ts, i),
        h.meta == ts[i].meta,
        h.active,
    ensures
        after.handles_from(ts, i + 1),
{
    reveal(Level::handles_from);
    let b = before.tables@;
    let t = after.tables@;
    assert forall|j: int| 0 <= j < t.len() implies (#[trigger] t[j]).active && exists|q: int|
        0 <= q < i + 1 && t[j].meta == (#[trigger] ts[q]).meta by {
        if j == p {
            assert(t[j].meta == ts[i].meta);
        } else {
            let jj = if j < p { j } else { j - 1 };
            assert(t[j] == b[jj]);
            assert(b[jj].active);
            let q = choose|q: int| 0 <= q < i && b[jj].meta == (#[trigger] ts[q]).meta;
            assert(t[j].meta == ts[q].meta);
        }
    }
}

/// The keys of the first `i + 1` tables are those of the first `i` and of
/// table `i`.
proof fn lemma_keys_of_tables_step(ts: Seq<SSTable>, i: int)
    requires
        0 <= i < ts.len(),
    ensures
        keys_of_tables(ts.subrange(0, i + 1)) == keys_of_tables(ts.subrange(0, i)).union(key_set(ts[i].records@)),
{
    let a = ts.subrange(0, i + 1);
    let c = ts.subrange(0, i);
    assert forall|id: u128| keys_of_tables(a).contains(id) <==> (keys_of_tables(c).contains(id)
        || key_set(ts[i].records@).contains(id)) by {
        if keys_of_tables(a).contains(id) {
            let u = choose|u: int| 0 <= u < a.len() && #[trigger] has_key(a[u].records@, id);
            if u < i {
                assert(c[u] == a[u]);
            }
        }
        if keys_of_tables(c).contains(id) {
            let u = choose|u: int| 0 <= u < c.len() && #[trigger] has_key(c[u].records@, id);
            assert(c[u] == a[u]);
        }
        if key_set(ts[i].records@).contains(id) {
            assert(a[i] == ts[i]);
        }
    }
    assert(keys_of_tables(a) =~= keys_of_tables(c).union(key_set(ts[i].records@)));
}

/// Whether `ids` holds `id`.
fn holds_id(ids: &Vec<Key>, id: Key) -> (r: bool)
    ensures
        r == ids@.contains(id),
{
    let mut i: usize = 0;
    while i < ids.len()
        invariant
            0 <= i <= ids@.len(),
            forall|j: int| 0 <= j < i ==> ids@[j] != id,
        decreases ids@.len() - i,
    {
        if ids[i] == id {
            proof {
                assert(ids@[i as int] == id);
            }
            return true;
        }
        i = i + 1;
    }
    false
}

/// Whether `ids` are, in order, the ids of `tables`.
fn ids_match(ids: &Vec<Key>, tables: &Vec<SSTable>) -> (r: bool)
    ensures
        r == (ids@ == tables@.map_values(|t: SSTable| t.meta.table_id)),
{
    let ghost have = tables@.map_values(|t: SSTable| t.meta.table_id);
    if ids.len() != tables.len() {
        proof {
            assert(ids@.len() != have.len());
        }
        return false;
    }
    let mut i: usize = 0;
    while i < tables.len()
        invariant
            0 <= i <= tables@.len(),
            ids@.len() == tables@.len(),
            have == tables@.map_values(|t: SSTable| t.meta.table_id),
            forall|j: int| 0 <= j < i ==> ids@[j] == have[j],
        decreases tables@.len() - i,
    {
        if ids[i] != tables[i].meta.table_id {
            proof {
                assert(ids@[i as int] != have[i as int]);
            }
            return false;
        }
        i = i + 1;
    }
    proof {
        assert(ids@ =~= have);
    }
    true
}

/// The ids of the handles, in order.
fn collect_ids(hs: &Vec<SSTableHandle>) -> (r: Vec<Key>)
    ensures
        r@ == handle_ids(hs@),
{
    let mut ids: Vec<Key> = Vec::new();
    let mut i: usize = 0;
    while i < hs.len()
        invariant
            0 <= i <= hs@.len(),
            ids@ == handle_ids(hs@.subrange(0, i as int)),
        decreases hs@.len() - i,
    {
        ids.push(hs[i].meta.table_id);
        proof {
            assert(handle_ids(hs@.subrange(0, i + 1)) =~= handle_ids(hs@.subrange(0, i as int)).push(hs@[i as int].meta.table_id));
        }
        i = i + 1;
    }
    proof {
        assert(hs@.subrange(0, hs@.len() as int) =~= hs@);
    }
    ids
}

} // verus!
