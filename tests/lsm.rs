use bdb_storage::error::StorageError;
use bdb_storage::key::Key;
use bdb_storage::lsm::{document_of, LSMTree};
use bdb_storage::record::{Record, Value};
use bdb_storage::sstable::SSTable;
use bson::Document;

fn doc_a(n: i32) -> Document {
    let mut d = Document::new();
    d.insert("a", n);
    d
}

/// What the levels hold under `key`: the first hit, level 1 first, each level
/// in its scan order, among the given tables (one list per level, in the
/// level's handle order).
fn from_levels(tree: &LSMTree, stored: &Vec<Vec<SSTable>>, key: &Key) -> Option<Record> {
    for (i, level) in tree.levels.iter().enumerate() {
        for j in level.tables_to_search(key) {
            if let Some(r) = stored[i][j].get(key) {
                return Some(r);
            }
        }
    }
    None
}

#[test]
fn single_write_round_trip() {
    let mut tree = LSMTree::new("e1", "/tmp/e1");
    let k1 = Key::generate();
    let k2 = Key::generate();
    tree.set(&k1, doc_a(1));
    assert_eq!(tree.get(&k1, None), Some(doc_a(1)));
    assert_eq!(tree.get(&k2, None), None);
}

#[test]
fn tombstone_hides_prior_data() {
    let mut tree = LSMTree::new("e2", "/tmp/e2");
    let k1 = Key::generate();
    tree.set(&k1, doc_a(1));
    tree.del(&k1);
    assert_eq!(tree.get(&k1, None), None);
    // The tombstone also hides what the levels hold.
    let below = Record { key: k1, value: Value::Data(doc_a(7)) };
    assert_eq!(tree.get(&k1, Some(below)), None);
    tree.set(&k1, doc_a(2));
    assert_eq!(tree.get(&k1, None), Some(doc_a(2)));
}

#[test]
fn memtable_flush() {
    let mut tree = LSMTree::new("e3", "/tmp/e3");
    tree.memtable.max_records = 3;
    let keys = vec![Key::generate(), Key::generate(), Key::generate()];
    for (i, k) in keys.iter().enumerate() {
        tree.set(k, doc_a(i as i32));
    }
    let table = tree.compact_memtable(true).unwrap().unwrap();
    assert!(tree.frozen_memtable.is_some());
    assert_eq!(tree.memtable.size(), 0);
    // While the flush is pending the frozen memtable still answers reads.
    assert_eq!(tree.get(&keys[0], None), Some(doc_a(0)));
    assert_eq!(tree.compact_memtable(true).unwrap_err(), StorageError::StateViolation);
    tree.install_flushed(&table).unwrap();
    assert!(tree.frozen_memtable.is_none());
    assert_eq!(tree.levels.len(), 1);
    assert_eq!(tree.levels[0].tables.len(), 1);
    assert_eq!(tree.levels[0].tables[0].meta.num_records, 3);
    let stored = vec![vec![table]];
    for (i, k) in keys.iter().enumerate() {
        let on_disk = from_levels(&tree, &stored, k);
        assert_eq!(tree.get(k, on_disk), Some(doc_a(i as i32)));
    }
}

#[test]
fn memtable_phase_waits_until_full() {
    let mut tree = LSMTree::new("e4", "/tmp/e4");
    tree.set(&Key::generate(), doc_a(1));
    assert!(tree.compact_memtable(false).unwrap().is_none());
    assert_eq!(tree.memtable.size(), 1);
    assert!(tree.levels.is_empty());
    let mut empty = LSMTree::new("e5", "/tmp/e5");
    assert_eq!(empty.compact_memtable(true).unwrap_err(), StorageError::EmptyInput);
    assert!(empty.frozen_memtable.is_none());
    assert!(empty.levels.is_empty());
    assert_eq!(empty.install_flushed(&SSTable::new(vec![Record::new_tombstone()]).unwrap()).unwrap_err(), StorageError::StateViolation);
}

#[test]
fn level_compaction() {
    let mut tree = LSMTree::new("e6", "/tmp/e6");
    tree.memtable.max_records = 2;
    let k1 = Key::generate();
    let k2 = Key::generate();
    let k3 = Key::generate();

    tree.set(&k1, doc_a(1));
    tree.set(&k2, doc_a(2));
    let first = tree.compact_memtable(false).unwrap().unwrap();
    tree.install_flushed(&first).unwrap();
    tree.levels[0].max_tables = 2;

    tree.set(&k2, doc_a(20));
    tree.set(&k3, doc_a(3));
    assert!(!tree.memtable.is_full());
    tree.memtable.max_records = 2;
    let mut second = tree.compact_memtable(false).unwrap().unwrap();
    second.meta.created_at = first.meta.created_at + 1;
    tree.install_flushed(&second).unwrap();
    assert!(tree.levels[0].is_full());

    let read = vec![second.clone(), first.clone()];
    assert_eq!(tree.compact_level(0, &read).err(), Some(StorageError::StateViolation));
    assert_eq!(tree.compact_level(2, &read).err(), Some(StorageError::StateViolation));
    let c = tree.compact_level(1, &read).unwrap().unwrap();
    assert_eq!(tree.levels.len(), 2);
    assert_eq!(tree.install_compacted(0, &c).unwrap_err(), StorageError::StateViolation);
    assert_eq!(tree.install_compacted(2, &c).unwrap_err(), StorageError::StateViolation);
    let removed = tree.install_compacted(1, &c).unwrap();
    assert_eq!(removed.len(), 2);
    assert!(tree.levels[0].tables.is_empty());
    assert_eq!(tree.levels[1].tables.len(), 1);
    assert_eq!(tree.levels[1].meta.level, 2);
    assert_eq!(
        c.new_table.records,
        vec![
            Record { key: k1, value: Value::Data(doc_a(1)) },
            Record { key: k2, value: Value::Data(doc_a(20)) },
            Record { key: k3, value: Value::Data(doc_a(3)) },
        ]
    );
    let stored = vec![vec![], vec![c.new_table.clone()]];
    assert_eq!(tree.get(&k2, from_levels(&tree, &stored, &k2)), Some(doc_a(20)));
    assert_eq!(tree.compact_level(1, &vec![]).unwrap().is_none(), true);
}

#[test]
fn document_of_values() {
    assert_eq!(document_of(Value::Data(doc_a(5))), Some(doc_a(5)));
    assert_eq!(document_of(Value::Tombstone), None);
}
