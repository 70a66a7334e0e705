use bdb_storage::conf::MEMTABLE_MAX_SIZE;
use bdb_storage::error::StorageError;
use bdb_storage::key::Key;
use bdb_storage::memtable::MemTable;
use bdb_storage::record::{Record, Value};
use bson::oid::ObjectId;
use bson::Document;

fn sample_doc() -> Document {
    let mut d = Document::new();
    d.insert("msg", "Hello, World!");
    d.insert("num", 42);
    d.insert("skyIsBlue", true);
    d
}

fn text(s: &str) -> Document {
    let mut d = Document::new();
    d.insert("v", s);
    d
}

#[test]
fn set_and_get() {
    let k = Key::from_bytes(ObjectId::new().bytes());
    let v = sample_doc();
    let exp = Some(Value::Data(v.clone()));
    let mut mt = MemTable::new();
    mt.set(&k, v);
    assert!(mt.contains_key(&k), "Key doesn't exist in the btree");
    let res = mt.get(&k);
    assert_eq!(res, exp);
}

#[test]
fn set_del_get() {
    let k = Key::from_bytes(ObjectId::new().bytes());
    let v = sample_doc();
    let mut mt = MemTable::new();
    mt.set(&k, v);
    assert!(mt.contains_key(&k), "Key doesn't exist in the btree");
    mt.del(&k);
    assert!(mt.contains_key(&k), "Key should still exist in the btree after 'deletion'");
    let res = mt.get(&k);
    let exp = Some(Value::<Document>::Tombstone);
    assert_eq!(res, exp, "Expecting a present tombstone");
}

#[test]
fn overwrite_keeps_one_entry() {
    let mut mt = MemTable::new();
    let k = Key { id: 7 };
    mt.set(&k, text("a"));
    mt.set(&k, text("b"));
    assert_eq!(mt.size(), 1);
    assert_eq!(mt.get(&k), Some(Value::Data(text("b"))));
    assert_eq!(mt.get(&Key { id: 8 }), None);
}

#[test]
fn flush_emits_ascending_records() {
    let mut mt = MemTable::new();
    mt.set(&Key { id: 30 }, text("c"));
    mt.set(&Key { id: 10 }, text("a"));
    mt.del(&Key { id: 20 });
    let t = mt.flush().unwrap();
    assert_eq!(
        t.records,
        vec![
            Record { key: Key { id: 10 }, value: Value::Data(text("a")) },
            Record { key: Key { id: 20 }, value: Value::Tombstone },
            Record { key: Key { id: 30 }, value: Value::Data(text("c")) },
        ]
    );
    assert_eq!(t.meta.min_key, Key { id: 10 });
    assert_eq!(t.meta.max_key, Key { id: 30 });
    assert_eq!(t.meta.num_records, 3);
}

#[test]
fn flush_of_empty_memtable_fails() {
    let mt = MemTable::new();
    assert_eq!(mt.flush().unwrap_err(), StorageError::EmptyInput);
}

#[test]
fn memtable_fills_and_clears() {
    let mut mt = MemTable::new();
    assert_eq!(mt.max_records, MEMTABLE_MAX_SIZE);
    mt.max_records = 3;
    mt.set(&Key { id: 1 }, text("a"));
    mt.set(&Key { id: 2 }, text("b"));
    assert!(!mt.is_full());
    mt.del(&Key { id: 3 });
    assert!(mt.is_full());
    assert_eq!(mt.size(), 3);
    mt.clear();
    assert_eq!(mt.size(), 0);
    assert!(!mt.is_full());
    assert_eq!(mt.get(&Key { id: 1 }), None);
}
