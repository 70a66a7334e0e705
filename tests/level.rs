use bdb_storage::conf::{LEVEL_META_FILE, MAX_TABLES_PER_LEVEL, MEMTABLE_MAX_SIZE};
use bdb_storage::error::StorageError;
use bdb_storage::key::Key;
use bdb_storage::level::{format_meta_path, Level, LevelMeta};
use bdb_storage::record::{Record, Value};
use bdb_storage::sstable::SSTable;
use bson::oid::ObjectId;
use bson::Document;

fn named(name: &str) -> Document {
    let mut d = Document::new();
    d.insert("name", name);
    d
}

fn text(s: &str) -> Document {
    let mut d = Document::new();
    d.insert("v", s);
    d
}

fn rec(n: u128, s: &str) -> Record {
    Record { key: Key { id: n }, value: Value::Data(text(s)) }
}

fn table_at(records: Vec<Record>, created_at: i64) -> SSTable {
    let mut t = SSTable::new(records).unwrap();
    t.meta.created_at = created_at;
    t
}

#[test]
fn create_level() {
    let level = Level::new("/tmp", 1, vec![]);
    let hex = ObjectId::from_bytes(level.meta.id.to_bytes()).to_hex();
    assert_eq!(level.path, format!("/tmp/{}", hex));
    assert_eq!(level.meta.level, 1);
    assert_eq!(level.meta.num_tables, 0);
    assert!(level.meta.table_ids.is_empty());
    assert_eq!(level.max_tables, MAX_TABLES_PER_LEVEL);
    assert_eq!(level.records_per_table, MEMTABLE_MAX_SIZE);
    assert_eq!(Level::new("/tmp", 3, vec![]).records_per_table, 3 * MEMTABLE_MAX_SIZE);
    assert_eq!(format_meta_path(&level.path), Some(format!("/tmp/{}/{}", hex, LEVEL_META_FILE)));
}

#[test]
fn level_get_bloom_filter() {
    let mut level = Level::new("/tmp", 1, vec![]);
    let id = Key::generate();
    let table = SSTable::new(vec![
        Record { key: id, value: Value::Data(named("John")) },
        Record::new_data(named("Jane")),
    ])
    .unwrap();
    level.add_sstable(&table);
    let bloom_filter = level.get_bloom_filter(&vec![table.clone()]);
    assert!(bloom_filter.contains(id.id));
    assert!(!bloom_filter.contains(Key::generate().id));
}

#[test]
fn doesnt_contain() {
    let mut level = Level::new("/tmp", 1, vec![]);
    let key = Key::generate();
    assert!(level.doesnt_contain(&key));

    let rec = Record { key, value: Value::Data(text("world")) };
    let table = SSTable::new(vec![rec.clone()]).unwrap();
    let table_bloom_filter = table.get_bloom_filter().unwrap();
    assert!(table_bloom_filter.contains(key.id));
    assert!(level.doesnt_contain(&key));

    level.add_sstable(&table);
    let order = level.tables_to_search(&key);
    assert_eq!(order, vec![0]);
    let val = table.get(&key);
    assert!(val.is_some());
    let val = val.unwrap();
    assert_eq!(val.key, key);
    assert_eq!(val.value, Value::Data(text("world")));
    assert!(!level.doesnt_contain(&key));
}

#[test]
fn add_sstable() {
    let mut level = Level::new("/tmp", 1, vec![]);
    let table = SSTable::new(vec![Record::new_data(named("John")), Record::new_data(named("Jane"))]).unwrap();
    let handle = level.add_sstable(&table);
    assert!(level.meta.table_ids.contains(&table.meta.table_id));
    assert_eq!(level.meta.num_tables, 1);
    assert_eq!(handle.meta, table.meta);
    assert!(handle.active);
    let hex = ObjectId::from_bytes(table.meta.table_id.to_bytes()).to_hex();
    assert_eq!(handle.path, format!("{}/{}.bson", level.path, hex));
    assert_eq!(level.format_table_path(&table.meta.table_id), handle.path);
}

#[test]
fn is_full() {
    let mut level = Level::new("/tmp", 1, vec![]);
    for i in 0..MAX_TABLES_PER_LEVEL {
        let table = SSTable::new(vec![Record::new_tombstone()]).unwrap();
        level.add_sstable(&table);
        if i == MAX_TABLES_PER_LEVEL - 1 {
            assert!(level.is_full());
        } else {
            assert!(!level.is_full());
        }
    }
}

#[test]
fn handles_are_kept_newest_first() {
    let mut level = Level::new("/tmp", 1, vec![]);
    let t1 = table_at(vec![rec(1, "a")], 100);
    let t2 = table_at(vec![rec(2, "b")], 300);
    let t3 = table_at(vec![rec(3, "c")], 200);
    level.add_sstable(&t1);
    level.add_sstable(&t2);
    level.add_sstable(&t3);
    let ids: Vec<Key> = level.tables.iter().map(|h| h.meta.table_id).collect();
    assert_eq!(ids, vec![t2.meta.table_id, t3.meta.table_id, t1.meta.table_id]);
    assert_eq!(level.meta.table_ids, ids);
    assert_eq!(level.meta.num_tables, 3);
}

#[test]
fn search_skips_tables_out_of_range() {
    let mut level = Level::new("/tmp", 1, vec![]);
    let older = table_at(vec![rec(10, "a"), rec(20, "b")], 100);
    let newer = table_at(vec![rec(15, "c"), rec(40, "d")], 200);
    level.add_sstable(&older);
    level.add_sstable(&newer);
    assert_eq!(level.tables_to_search(&Key { id: 40 }), vec![0]);
    assert_eq!(level.tables_to_search(&Key { id: 15 }), vec![0, 1]);
    assert_eq!(level.tables_to_search(&Key { id: 20 }), vec![0, 1]);
    assert_eq!(level.tables_to_search(&Key { id: 10 }), vec![1]);
    assert_eq!(level.tables_to_search(&Key { id: 50 }), Vec::<usize>::new());
    assert_eq!(level.tables_to_search(&Key { id: 5 }), Vec::<usize>::new());
    level.tables[0].deactivate();
    assert_eq!(level.tables_to_search(&Key { id: 20 }), vec![1]);
}

#[test]
fn bloom_rejection_short_circuits() {
    let mut level = Level::new("/tmp", 1, vec![]);
    let k1 = Key::generate();
    let k2 = Key::generate();
    let t = SSTable::new(vec![
        Record { key: Key { id: k1.id - 1 }, value: Value::Tombstone },
        Record { key: k1, value: Value::Data(text("one")) },
        Record { key: Key { id: k2.id + 1 }, value: Value::Tombstone },
    ])
    .unwrap();
    level.add_sstable(&t);
    assert!(t.meta.key_in_range(&k2));
    assert!(level.doesnt_contain(&k2));
    assert_eq!(level.tables_to_search(&k2), Vec::<usize>::new());
    assert_eq!(level.tables_to_search(&k1), vec![0]);
}

#[test]
fn compact_tables_prefers_newest() {
    let mut level = Level::new("/tmp", 1, vec![]);
    let oldest = table_at(vec![rec(1, "a1"), rec(2, "a2"), rec(3, "a3")], 100);
    let middle = table_at(vec![rec(2, "b2"), rec(4, "b4")], 200);
    let newest = table_at(vec![rec(3, "c3"), rec(4, "c4"), rec(5, "c5")], 300);
    level.add_sstable(&oldest);
    level.add_sstable(&middle);
    level.add_sstable(&newest);
    let read = vec![newest.clone(), middle.clone(), oldest.clone()];
    let c = level.compact_tables(&read).ok().unwrap();
    assert_eq!(c.new_table.records, vec![rec(1, "a1"), rec(2, "b2"), rec(3, "c3"), rec(4, "c4"), rec(5, "c5")]);
    assert_eq!(c.old_table_ids, vec![newest.meta.table_id, middle.meta.table_id, oldest.meta.table_id]);
    // Tables that are not the level's, in its order, are refused.
    let wrong = vec![oldest.clone(), middle.clone(), newest.clone()];
    assert_eq!(level.compact_tables(&wrong).err(), Some(StorageError::StateViolation));
}

#[test]
fn compact_empty_level_fails() {
    let level = Level::new("/tmp", 1, vec![]);
    assert_eq!(level.compact_tables(&vec![]).err(), Some(StorageError::StateViolation));
}

#[test]
fn clear_drops_listed_tables() {
    let mut level = Level::new("/tmp", 2, vec![]);
    let t1 = table_at(vec![rec(1, "a")], 100);
    let t2 = table_at(vec![rec(2, "b")], 200);
    let t3 = table_at(vec![rec(3, "c")], 300);
    level.add_sstable(&t1);
    level.add_sstable(&t2);
    level.add_sstable(&t3);
    let removed = level.clear(&vec![t2.meta.table_id]);
    assert_eq!(removed.len(), 1);
    assert_eq!(removed[0].meta.table_id, t2.meta.table_id);
    assert_eq!(level.meta.table_ids, vec![t3.meta.table_id, t1.meta.table_id]);
    assert_eq!(level.meta.num_tables, 2);
    let removed = level.clear_all();
    assert_eq!(removed.len(), 2);
    assert!(level.tables.is_empty());
    assert!(level.meta.table_ids.is_empty());
    assert!(level.doesnt_contain(&Key { id: 1 }));
}

#[test]
fn reload_rebuilds_handles_and_bloom() {
    let t1 = table_at(vec![rec(1, "a")], 100);
    let t2 = table_at(vec![rec(2, "b")], 200);
    let meta = LevelMeta::new(1, 2, vec![t1.meta.table_id, t2.meta.table_id]);
    let mut level = Level::restore("/tmp", meta.clone(), &vec![t1.clone(), t2.clone()]).unwrap();
    assert_eq!(level.meta.id, meta.id);
    assert_eq!(level.meta.table_ids, vec![t2.meta.table_id, t1.meta.table_id]);
    assert!(!level.doesnt_contain(&Key { id: 1 }));
    assert!(!level.doesnt_contain(&Key { id: 2 }));
    assert_eq!(Level::restore("/tmp", meta, &vec![t2.clone()]).err(), Some(StorageError::StateViolation));
    let listed = level.meta.table_ids.clone();
    let bad = level.reload_handles(&vec![t1.clone(), t2.clone()]);
    assert_eq!(bad, Err(StorageError::StateViolation));
    assert_eq!(level.meta.table_ids, listed);
    assert_eq!(level.reload_handles(&vec![t2.clone(), t1.clone()]), Ok(()));
    assert_eq!(level.reload_bloom(&vec![t2.clone(), t1.clone()]), Ok(()));
    assert_eq!(level.reload_bloom(&vec![t1.clone()]), Err(StorageError::StateViolation));
}

#[test]
fn new_level_orders_given_handles() {
    let t1 = table_at(vec![rec(1, "a")], 100);
    let t2 = table_at(vec![rec(2, "b")], 300);
    let t3 = table_at(vec![rec(3, "c")], 200);
    let hs = vec![t1.get_handle("/tmp"), t2.get_handle("/tmp"), t3.get_handle("/tmp")];
    let level = Level::new("/tmp", 1, hs);
    let ids: Vec<Key> = level.tables.iter().map(|h| h.meta.table_id).collect();
    assert_eq!(ids, vec![t2.meta.table_id, t3.meta.table_id, t1.meta.table_id]);
    assert_eq!(level.meta.table_ids, ids);
    assert_eq!(level.meta.num_tables, 3);
}

#[test]
fn restored_level_holds_its_tables() {
    let t1 = table_at(vec![rec(1, "a"), rec(4, "d")], 100);
    let t2 = table_at(vec![rec(2, "b")], 200);
    let meta = LevelMeta::new(2, 2, vec![t1.meta.table_id, t2.meta.table_id]);
    let level = Level::restore("/tmp", meta.clone(), &vec![t1.clone(), t2.clone()]).unwrap();
    assert_eq!(level.meta.created_at, meta.created_at);
    assert!(level.tables.iter().all(|h| h.active));
    assert_eq!(level.tables[1].meta, t1.meta);
    assert_eq!(level.tables[1].path, level.format_table_path(&t1.meta.table_id));
    assert!(level.tables[1].path.ends_with(".bson"));
    for k in [1u128, 2, 4] {
        assert!(!level.doesnt_contain(&Key { id: k }));
    }
}

#[test]
fn restore_keeps_stored_order_among_equal_times() {
    let t1 = table_at(vec![rec(1, "new")], 5_000);
    let t2 = table_at(vec![rec(1, "old")], 5_000);
    let meta = LevelMeta::new(1, 2, vec![t1.meta.table_id, t2.meta.table_id]);
    let level = Level::restore("/tmp", meta.clone(), &vec![t1.clone(), t2.clone()]).unwrap();
    assert_eq!(level.meta.table_ids, meta.table_ids);
    assert_eq!(level.tables_to_search(&Key { id: 1 }), vec![0, 1]);
    assert_eq!(level.tables[0].meta, t1.meta);
}

#[test]
fn compact_refuses_tables_with_other_metadata() {
    let mut level = Level::new("/tmp", 1, vec![]);
    let t = table_at(vec![rec(1, "a")], 100);
    level.add_sstable(&t);
    let mut altered = t.clone();
    altered.meta.created_at = 999;
    assert_eq!(level.compact_tables(&vec![altered]).err(), Some(StorageError::StateViolation));
    assert!(level.compact_tables(&vec![t]).is_ok());
}

#[test]
fn bloom_answers_match_doesnt_contain() {
    let mut level = Level::new("/tmp", 1, vec![]);
    let t = table_at(vec![rec(10, "a"), rec(20, "b")], 100);
    level.add_sstable(&t);
    for k in [10u128, 20, 30, 40] {
        assert_eq!(level.doesnt_contain(&Key { id: k }), !level.bloom_filter.contains(k));
    }
    assert!(level.bloom_filter.contains(10));
    assert!(level.bloom_filter.contains(20));
}
