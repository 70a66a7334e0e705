use bdb_storage::error::StorageError;
use bdb_storage::key::Key;
use bdb_storage::record::{Record, Value};
use bdb_storage::sstable::{merge_records, SSTable, SSTableHandle, SSTableMeta};
use bson::oid::ObjectId;
use bson::Document;

fn doc_msg_num(msg: &str, num: i32) -> Document {
    let mut d = Document::new();
    d.insert("msg", msg);
    d.insert("num", num);
    d
}

fn text(s: &str) -> Document {
    let mut d = Document::new();
    d.insert("v", s);
    d
}

fn fresh_key() -> Key {
    Key::from_bytes(ObjectId::new().bytes())
}

fn key_of(n: u128) -> Key {
    Key { id: n }
}

fn rec(n: u128, s: &str) -> Record {
    Record { key: key_of(n), value: Value::Data(text(s)) }
}

#[test]
fn sstablemeta_key_in_range() {
    let oid1 = fresh_key();
    let oid2 = fresh_key();
    let oid3 = fresh_key();
    assert!(oid1 < oid2, "Expected object ids out of order");
    assert!(oid2 < oid3, "Expected object ids out of order");

    let meta = SSTableMeta { table_id: fresh_key(), created_at: 0, min_key: oid1, max_key: oid3, num_records: 0 };
    assert!(meta.key_in_range(&oid1), "Expected oid1 to be in range");
    assert!(meta.key_in_range(&oid2), "Expected oid2 to be in range");
    assert!(meta.key_in_range(&oid3), "Expected oid3 to be in range");

    let meta = SSTableMeta { table_id: fresh_key(), created_at: 0, min_key: oid1, max_key: oid2, num_records: 0 };
    assert!(meta.key_in_range(&oid1), "Expected oid1 to be in range");
    assert!(meta.key_in_range(&oid2), "Expected oid2 to be in range");
    assert!(!meta.key_in_range(&oid3), "Expected oid3 to be out of range");

    let meta = SSTableMeta { table_id: fresh_key(), created_at: 0, min_key: oid2, max_key: oid3, num_records: 0 };
    assert!(!meta.key_in_range(&oid1), "Expected oid1 to be out of range");
    assert!(meta.key_in_range(&oid2), "Expected oid2 to be in range");
    assert!(meta.key_in_range(&oid3), "Expected oid3 to be in range");
}

#[test]
fn sstable_get_bloom_filter() {
    let id_in = fresh_key();
    let id_out_made_first = fresh_key();
    let sstable = SSTable::new(vec![
        Record { key: id_in, value: Value::Data(doc_msg_num("Hello, World", 42)) },
        Record { key: fresh_key(), value: Value::Data(doc_msg_num("What's up", 0)) },
        Record { key: fresh_key(), value: Value::Tombstone },
    ])
    .unwrap();
    let id_out = fresh_key();
    let bf = sstable.get_bloom_filter().unwrap();
    assert!(bf.contains(id_in.id), "Expected id_in to be in bloom filter");
    assert!(!bf.contains(id_out.id), "Expected id_out to not be in bloom filter");
    assert!(!bf.contains(id_out_made_first.id), "Expected id_out to not be in bloom filter");
}

#[test]
fn new_table_metadata() {
    let t = SSTable::new(vec![rec(1, "a"), rec(5, "b"), rec(9, "c")]).unwrap();
    assert_eq!(t.meta.min_key, key_of(1));
    assert_eq!(t.meta.max_key, key_of(9));
    assert_eq!(t.meta.num_records, 3);
    assert_eq!(t.meta.created_at, t.meta.table_id.timestamp_millis());
    assert_eq!(t.records.len(), 3);
}

#[test]
fn new_table_of_nothing_fails() {
    assert_eq!(SSTable::new(vec![]).unwrap_err(), StorageError::EmptyInput);
}

#[test]
fn table_get_finds_tombstones() {
    let t = SSTable::new(vec![rec(1, "a"), Record { key: key_of(4), value: Value::Tombstone }, rec(7, "c")]).unwrap();
    assert_eq!(t.get(&key_of(4)), Some(Record { key: key_of(4), value: Value::Tombstone }));
    assert_eq!(t.get(&key_of(7)), Some(rec(7, "c")));
    assert_eq!(t.get(&key_of(5)), None);
    assert_eq!(t.get(&key_of(0)), None);
    assert_eq!(t.get(&key_of(8)), None);
}

#[test]
fn table_get_range() {
    let t = SSTable::new(vec![rec(1, "a"), rec(3, "b"), rec(5, "c"), rec(7, "d")]).unwrap();
    assert_eq!(t.get_range(&key_of(3), &key_of(5)), vec![rec(3, "b"), rec(5, "c")]);
    assert_eq!(t.get_range(&key_of(3), &key_of(6)), vec![rec(3, "b"), rec(5, "c")]);
    assert_eq!(t.get_range(&key_of(1), &key_of(100)), vec![rec(1, "a"), rec(3, "b"), rec(5, "c"), rec(7, "d")]);
    assert_eq!(t.get_range(&key_of(7), &key_of(7)), vec![rec(7, "d")]);
    // A lower bound that is not a key of the table gives nothing.
    assert_eq!(t.get_range(&key_of(2), &key_of(7)), Vec::<Record>::new());
}

#[test]
fn merge_keeps_newer_record() {
    let k = fresh_key();
    let k2 = fresh_key();
    let mut b = SSTable::new(vec![
        Record { key: k, value: Value::Data(text("old")) },
        Record { key: k2, value: Value::Data(text("x")) },
    ])
    .unwrap();
    let mut a = SSTable::new(vec![Record { key: k, value: Value::Data(text("new")) }]).unwrap();
    b.meta.created_at = 1_000;
    a.meta.created_at = 2_000;
    let expected = vec![
        Record { key: k, value: Value::Data(text("new")) },
        Record { key: k2, value: Value::Data(text("x")) },
    ];
    assert_eq!(a.merge(&b).unwrap().records, expected);
    assert_eq!(b.merge(&a).unwrap().records, expected);
}

#[test]
fn merge_on_equal_times_prefers_argument() {
    let a = SSTable::new(vec![rec(1, "self")]).unwrap();
    let mut b = SSTable::new(vec![rec(1, "other"), rec(2, "y")]).unwrap();
    b.meta.created_at = a.meta.created_at;
    let m = a.merge(&b).unwrap();
    assert_eq!(m.records, vec![rec(1, "other"), rec(2, "y")]);
    assert_eq!(m.meta.num_records, 2);
    assert_eq!(m.meta.min_key, key_of(1));
    assert_eq!(m.meta.max_key, key_of(2));
}

#[test]
fn merge_interleaves_and_keeps_tombstones() {
    let newer = vec![rec(2, "n2"), Record { key: key_of(4), value: Value::Tombstone }, rec(9, "n9")];
    let older = vec![rec(1, "o1"), rec(4, "o4"), rec(5, "o5")];
    let m = merge_records(&newer, &older);
    assert_eq!(
        m,
        vec![rec(1, "o1"), rec(2, "n2"), Record { key: key_of(4), value: Value::Tombstone }, rec(5, "o5"), rec(9, "n9")]
    );
    assert_eq!(merge_records(&vec![], &older), older);
    assert_eq!(merge_records(&newer, &vec![]), newer);
}

#[test]
fn merge_is_associative_on_records() {
    let a = vec![rec(1, "a1"), rec(2, "a2"), rec(3, "a3")];
    let b = vec![rec(2, "b2"), rec(4, "b4")];
    let c = vec![rec(3, "c3"), rec(4, "c4"), rec(5, "c5")];
    let left = merge_records(&c, &merge_records(&b, &a));
    let right = merge_records(&merge_records(&c, &b), &a);
    assert_eq!(left, right);
    assert_eq!(left, vec![rec(1, "a1"), rec(2, "b2"), rec(3, "c3"), rec(4, "c4"), rec(5, "c5")]);
}

#[test]
fn handle_activation() {
    let t = SSTable::new(vec![rec(1, "a")]).unwrap();
    let mut h = SSTableHandle::new(t.meta, "/tmp/t.bson");
    assert!(h.active);
    assert_eq!(h.path, "/tmp/t.bson");
    h.deactivate();
    assert!(!h.active);
    h.activate();
    assert!(h.active);
    assert_eq!(h.meta, t.meta);
}

#[test]
fn handle_path_is_named_after_table_id() {
    let t = SSTable::new(vec![rec(1, "a")]).unwrap();
    let h = t.get_handle("/tmp");
    let hex = ObjectId::from_bytes(t.meta.table_id.to_bytes()).to_hex();
    assert_eq!(h.path, format!("/tmp/{}", hex));
    assert_eq!(h.meta, t.meta);
    assert!(h.active);
}

#[test]
fn table_validity() {
    let t = SSTable::new(vec![rec(1, "a"), rec(2, "b")]).unwrap();
    assert!(t.is_valid());
    let mut unordered = t.clone();
    unordered.records.swap(0, 1);
    assert!(!unordered.is_valid());
    let mut miscounted = t.clone();
    miscounted.meta.num_records = 5;
    assert!(!miscounted.is_valid());
}
