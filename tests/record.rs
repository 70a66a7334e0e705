use bdb_storage::key::Key;
use bdb_storage::record::{Record, Value};
use bdb_storage::sstable::{search_by_key, SSTable};
use bson::oid::ObjectId;
use bson::Document;

fn doc_msg_num(msg: &str, num: i32) -> Document {
    let mut d = Document::new();
    d.insert("msg", msg);
    d.insert("num", num);
    d
}

fn fresh_key() -> Key {
    Key::from_bytes(ObjectId::new().bytes())
}

#[test]
fn record_equality_basic() {
    let r1 = Record { key: fresh_key(), value: Value::Data(doc_msg_num("Hello, World", 42)) };
    let r2 = Record { key: fresh_key(), value: Value::Data(doc_msg_num("What's up", 0)) };
    assert_ne!(r1, r2, "Different records, shouldn't match");
}

#[test]
fn record_equality_cloned() {
    let r1 = Record { key: fresh_key(), value: Value::Data(doc_msg_num("Hello, World", 42)) };
    let r2 = Record { key: r1.key, value: r1.value.clone() };
    assert_eq!(r1, r2, "Records with cloned values, should match");
}

#[test]
fn record_equality_tombstone() {
    let r1 = Record { key: fresh_key(), value: Value::Data(doc_msg_num("What's up", 0)) };
    let r2 = Record { key: r1.key, value: Value::Tombstone };
    assert_ne!(r1, r2, "Same key but different values, shouldn't match");
    let r3 = Record { key: r1.key, value: Value::Tombstone };
    assert_eq!(r2, r3, "Same key and same (tombstone) values, should match");
}

#[test]
fn record_ordering() {
    let oid1 = ObjectId::parse_str("649cbc250a24a2522fc95f74").expect("Couldn't parse ObjectId");
    let oid2 = ObjectId::parse_str("649cbc31f7ad863f0880dc04").expect("Couldn't parse ObjectId");
    assert!(oid1 < oid2, "oid1 should be less than oid2");
    let k1 = Key::from_bytes(oid1.bytes());
    let k2 = Key::from_bytes(oid2.bytes());
    assert!(k1 < k2, "oid1 should be less than oid2");

    let d1 = k1.timestamp_millis();
    let d2 = k2.timestamp_millis();
    assert!(d1 < d2, "d1 should be less than d2");
    assert_eq!(d1, oid1.timestamp().timestamp_millis());
    assert_eq!(d2, oid2.timestamp().timestamp_millis());

    let r1 = Record { key: k1, value: Value::Data(doc_msg_num("Hello, World", 42)) };
    let r2 = Record { key: k2, value: Value::Tombstone };
    assert!(r1 < r2, "r1 should be less than r2");
}

#[test]
fn search_for_record() {
    let r1 = Record { key: fresh_key(), value: Value::Data(doc_msg_num("Hello, World", 123)) };
    let r2 = Record { key: fresh_key(), value: Value::Data(doc_msg_num("Hello, World", 456)) };
    let r3 = Record { key: fresh_key(), value: Value::Data(doc_msg_num("Hello, World", 789)) };
    let records = vec![r1.clone(), r2.clone(), r3.clone()];

    let p1 = search_by_key(&records, &r1.key);
    let p2 = search_by_key(&records, &r2.key);
    let p3 = search_by_key(&records, &r3.key);
    assert_eq!(p1, Ok(0), "r1 should be at position 0");
    assert_eq!(p2, Ok(1), "r2 should be at position 1");
    assert_eq!(p3, Ok(2), "r3 should be at position 2");

    // A key made after the others belongs at the end.
    let p4 = search_by_key(&records, &fresh_key());
    assert_eq!(p4, Err(3), "r4 should be at position 2");

    let table = SSTable::new(records).unwrap();
    assert_eq!(table.get_index(&r2.key), Some(1));
}

#[test]
fn key_bytes_round_trip() {
    let oid = ObjectId::parse_str("649cbc250a24a2522fc95f74").unwrap();
    let k = Key::from_bytes(oid.bytes());
    assert_eq!(k.id, 0x649cbc250a24a2522fc95f74u128);
    assert_eq!(k.to_bytes(), oid.bytes());
    assert_eq!(k.timestamp_millis(), 0x649cbc25i64 * 1000);
}

#[test]
fn generated_keys_ascend() {
    let a = Key::generate();
    let b = Key::generate();
    assert!(a < b);
    assert!(a.id < (1u128 << 96));
}

#[test]
fn record_constructors() {
    let t = Record::new_tombstone();
    assert_eq!(t.value, Value::Tombstone);
    let d = Record::new_data(doc_msg_num("x", 1));
    assert_eq!(d.value, Value::Data(doc_msg_num("x", 1)));
    assert!(t.key < d.key);
    let e = Record::default();
    assert_eq!(e.value, Value::Data(Document::new()));
}
