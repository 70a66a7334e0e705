use vstd::prelude::*;
use bson::Document;
use core::cmp::Ordering;
use crate::key::Key;

verus! {

#[verifier::external_type_specification]
#[verifier::external_body]
pub struct ExDocument(bson::Document);

/// Relies on `Clone for bson::Document`: the copy holds the same document.
#[verifier::external_body]
fn clone_document(d: &Document) -> (r: Document)
    ensures
        r == *d,
{
    d.clone()
}

/// Relies on `bson::Document::new`: a document with no fields.
#[verifier::external_body]
fn empty_document() -> (r: Document) {
    Document::new()
}

/// A stored value: a document, or a tombstone that marks the key as deleted.
#[derive(Debug, Clone, PartialEq)]
pub enum Value<T> {
    /// A document.
    Data(T),
    /// A tombstone: the key was deleted.
    Tombstone,
}

impl Value<Document> {
    /// A copy of the value.
    pub fn duplicate(&self) -> (r: Value<Document>)
        ensures
            r == *self,
    {
        match self {
            Value::Data(d) => Value::Data(clone_document(d)),
            Value::Tombstone => Value::Tombstone,
        }
    }
}

/// A keyed value, as stored in a sorted table.
#[derive(Debug, Clone, PartialEq)]
pub struct Record {
    /// The record's key.
    pub key: Key,
    /// The record's value.
    pub value: Value<Document>,
}

impl Record {
    /// A record with a fresh key and the given value.
    pub fn new(value: Value<Document>) -> (r: Record)
        ensures
            r.value == value,
            r.key.wf(),
    {
        Record { key: Key::generate(), value }
    }

    /// A tombstone record with a fresh key.
    pub fn new_tombstone() -> (r: Record)
        ensures
            r.value == Value::<Document>::Tombstone,
            r.key.wf(),
    {
        Record::new(Value::Tombstone)
    }

    /// A record holding `doc` under a fresh key.
    pub fn new_data(doc: Document) -> (r: Record)
        ensures
            r.value == Value::Data(doc),
            r.key.wf(),
    {
        Record::new(Value::Data(doc))
    }

    /// A copy of the record.
    pub fn duplicate(&self) -> (r: Record)
        ensures
            r == *self,
    {
        Record { key: self.key, value: self.value.duplicate() }
    }
}

impl Default for Record {
    /// A record holding an empty document under a fresh key.
    fn default() -> (r: Record)
        ensures
            r.value is Data,
            r.key.wf(),
    {
        Record::new_data(empty_document())
    }
}

/// How two keys compare.
pub open spec fn key_ordering(a: Key, b: Key) -> Ordering {
    if a.id < b.id {
        Ordering::Less
    } else if a.id == b.id {
        Ordering::Equal
    } else {
        Ordering::Greater
    }
}

/// Compares two keys by their big-endian bytes.
pub fn compare_keys(a: &Key, b: &Key) -> (r: Ordering)
    ensures
        r == key_ordering(*a, *b),
{
    if a.id < b.id {
        Ordering::Less
    } else if a.id == b.id {
        Ordering::Equal
    } else {
        Ordering::Greater
    }
}

impl PartialOrd for Record {
    /// Records are ordered by key alone.
    fn partial_cmp(&self, other: &Record) -> (r: Option<Ordering>)
        ensures
            r == Some(key_ordering(self.key, other.key)),
    {
        Some(compare_keys(&self.key, &other.key))
    }
}

impl vstd::std_specs::cmp::PartialOrdSpecImpl for Record {
    open spec fn obeys_partial_cmp_spec() -> bool {
        false
    }

    open spec fn partial_cmp_spec(&self, other: &Record) -> Option<Ordering> {
        Some(key_ordering(self.key, other.key))
    }
}

} // verus!
