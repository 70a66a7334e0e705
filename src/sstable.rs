use vstd::prelude::*;
use crate::error::StorageError;
use crate::key::{key_bytes, Key};
use crate::membership::BloomMembership;
use crate::record::Record;

verus! {

/// Whether the keys of `s` strictly ascend.
pub open spec fn sorted_by_key(s: Seq<Record>) -> bool {
    forall|i: int, j: int| 0 <= i < j < s.len() ==> s[i].key.id < s[j].key.id
}

/// Whether some record of `s` has the key `id`.
pub open spec fn has_key(s: Seq<Record>, id: u128) -> bool {
    exists|i: int| 0 <= i < s.len() && s[i].key.id == id
}

/// Whether `merged` is the key-ascending merge of `newer` and `older` in which,
/// of two records with one key, the one of `newer` is kept.
pub open spec fn merged_from(merged: Seq<Record>, newer: Seq<Record>, older: Seq<Record>) -> bool {
    &&& sorted_by_key(merged)
    &&& forall|r: Record|
        merged.contains(r) <==> (newer.contains(r) || (older.contains(r) && !has_key(
            newer,
            r.key.id,
        )))
}

/// Whether `out` is the run of records of `s` from position `start` on that
/// ends before the first key above `max`.
pub open spec fn range_at(s: Seq<Record>, start: int, max: u128, out: Seq<Record>) -> bool {
    &&& start + out.len() <= s.len()
    &&& out == s.subrange(start, start + out.len())
    &&& (start + out.len() == s.len() || s[start + out.len()].key.id > max)
    &&& forall|p: int| 0 <= p < out.len() ==> #[trigger] out[p].key.id <= max
}

/// The lowercase hex digit of a value below 16.
pub open spec fn hex_digit(n: u8) -> char {
    if n < 10 {
        (n + 48) as char
    } else {
        (n + 87) as char
    }
}

/// Two lowercase hex digits per byte, most significant first.
pub open spec fn hex_of(s: Seq<u8>) -> Seq<char>
    decreases s.len(),
{
    if s.len() == 0 {
        Seq::empty()
    } else {
        hex_of(s.drop_last()) + seq![hex_digit(s.last() / 16), hex_digit(s.last() % 16)]
    }
}

/// Relies on `bson::oid::ObjectId::to_hex`: the id's bytes as lowercase hex.
#[verifier::external_body]
pub(crate) fn object_id_hex(id: [u8; 12]) -> (r: String)
    ensures
        r@ == hex_of(id@),
{
    bson::oid::ObjectId::from_bytes(id).to_hex()
}

/// The path of entry `name` in directory `dir`.
pub uninterp spec fn joined_path(dir: Seq<char>, name: Seq<char>) -> Seq<char>;

/// Relies on `std::path::Path::join`: the path of entry `name` in directory
/// `dir`, which depends on the two texts alone.
#[verifier::external_body]
pub(crate) fn join_path(dir: &str, name: &str) -> (r: String)
    ensures
        r@ == joined_path(dir@, name@),
{
    std::path::Path::new(dir).join(name).to_string_lossy().into_owned()
}

/// The path `path` with its extension set to `ext`.
pub uninterp spec fn path_with_extension(path: Seq<char>, ext: Seq<char>) -> Seq<char>;

/// Relies on `std::path::Path::with_extension`: the path with its extension
/// set, which depends on the two texts alone. It panics on an extension that
/// holds a path separator.
#[verifier::external_body]
pub(crate) fn with_extension(path: &str, ext: &str) -> (r: String)
    requires
        forall|i: int| 0 <= i < ext@.len() ==> ext@[i] != '/',
    ensures
        r@ == path_with_extension(path@, ext@),
{
    std::path::Path::new(path).with_extension(ext).to_string_lossy().into_owned()
}

/// The metadata of a sorted table.
#[derive(Debug, Clone, Copy, PartialEq, Eq, Structural)]
pub struct SSTableMeta {
    /// The table's unique id.
    pub table_id: Key,
    /// When the table was made, in milliseconds since the epoch.
    pub created_at: i64,
    /// The smallest key of the table.
    pub min_key: Key,
    /// The largest key of the table.
    pub max_key: Key,
    /// The number of records of the table.
    pub num_records: usize,
}

impl SSTableMeta {
    /// Whether `key` lies between the table's smallest and largest key.
    pub open spec fn in_range(&self, key: Key) -> bool {
        self.min_key.id <= key.id && key.id <= self.max_key.id
    }

    /// Whether `key` lies between the table's smallest and largest key, both included.
    pub fn key_in_range(&self, key: &Key) -> (r: bool)
        ensures
            r == self.in_range(*key),
    {
        self.min_key.id <= key.id && key.id <= self.max_key.id
    }
}

/// A handle on a sorted table stored on disk.
#[derive(Debug, Clone, PartialEq)]
pub struct SSTableHandle {
    /// The metadata of the table.
    pub meta: SSTableMeta,
    /// Where the table is stored.
    pub path: String,
    /// Whether reads consider the table.
    pub active: bool,
}

impl SSTableHandle {
    /// An active handle on the table with metadata `meta` stored at `path`.
    pub fn new(meta: SSTableMeta, path: &str) -> (r: SSTableHandle)
        ensures
            r.meta == meta,
            r.path@ == path@,
            r.active,
    {
        SSTableHandle { meta, path: path.to_owned(), active: true }
    }

    /// A copy of the handle.
    pub fn clone_handle(&self) -> (r: SSTableHandle)
        ensures
            r == *self,
    {
        SSTableHandle { meta: self.meta, path: self.path.clone(), active: self.active }
    }

    /// Lets reads consider the table.
    pub fn activate(&mut self)
        ensures
            final(self).active,
            final(self).meta == old(self).meta,
            final(self).path == old(self).path,
    {
        self.active = true;
    }

    /// Hides the table from reads; the file stays.
    pub fn deactivate(&mut self)
        ensures
            !final(self).active,
            final(self).meta == old(self).meta,
            final(self).path == old(self).path,
    {
        self.active = false;
    }
}

/// An immutable, key-ordered batch of records with its metadata.
#[derive(Debug, Clone, PartialEq)]
pub struct SSTable {
    /// The metadata of the table.
    pub meta: SSTableMeta,
    /// The records, by ascending key.
    pub records: Vec<Record>,
}

impl SSTable {
    /// The records are not empty and strictly ascend by key, and the
    /// metadata agrees with them.
    pub open spec fn wf(&self) -> bool {
        &&& self.records@.len() > 0
        &&& sorted_by_key(self.records@)
        &&& self.meta.min_key == self.records@[0].key
        &&& self.meta.max_key == self.records@.last().key
        &&& self.meta.num_records == self.records@.len()
        &&& self.meta.table_id.wf()
    }

    /// An active handle on this table stored in directory `parent_path`,
    /// in a file named after the table's id.
    pub fn get_handle(&self, parent_path: &str) -> (r: SSTableHandle)
        requires
            self.meta.table_id.wf(),
        ensures
            r.meta == self.meta,
            r.active,
            r.path@ == joined_path(parent_path@, hex_of(key_bytes(self.meta.table_id))),
    {
        let name = object_id_hex(self.meta.table_id.to_bytes());
        let path = join_path(parent_path, name.as_str());
        SSTableHandle::new(self.meta, path.as_str())
    }

    /// Whether the table is well formed: records not empty and strictly
    /// ascending, metadata agreeing with them, a 96-bit id.
    pub fn is_valid(&self) -> (r: bool)
        ensures
            r == self.wf(),
    {
        let n = self.records.len();
        n > 0 && keys_ascending(&self.records) && self.meta.min_key == self.records[0].key
            && self.meta.max_key == self.records[n - 1].key && self.meta.num_records == n
            && self.meta.table_id.id < 0x1_0000_0000_0000_0000_0000_0000
    }

    /// A table holding `records` under a fresh id; it was made at the time
    /// that the id holds. Fails on no records.
    pub fn new(records: Vec<Record>) -> (r: Result<SSTable, StorageError>)
        requires
            sorted_by_key(records@),
        ensures
            match r {
                Ok(t) => {
                    &&& records@.len() > 0
                    &&& t.wf()
                    &&& t.records@ == records@
                    &&& t.meta.table_id.wf()
                    &&& t.meta.created_at == t.meta.table_id.seconds() * 1000
                },
                Err(e) => records@.len() == 0 && e == StorageError::EmptyInput,
            },
    {
        let id = Key::generate();
        let created_at = id.timestamp_millis();
        if records.len() == 0 {
            return Err(StorageError::EmptyInput);
        }
        let min_key = records[0].key;
        let max_key = records[records.len() - 1].key;
        let num_records = records.len();
        Ok(SSTable {
            meta: SSTableMeta { table_id: id, created_at, min_key, max_key, num_records },
            records,
        })
    }

    /// The position of the record with key `key`, if there is one.
    pub fn get_index(&self, key: &Key) -> (r: Option<usize>)
        requires
            sorted_by_key(self.records@),
        ensures
            match r {
                Some(i) => i < self.records@.len() && self.records@[i as int].key == *key,
                None => !has_key(self.records@, key.id),
            },
    {
        match search_by_key(&self.records, key) {
            Ok(i) => Some(i),
            Err(_) => None,
        }
    }

    /// The record with key `key`, tombstone or not, if there is one.
    pub fn get(&self, key: &Key) -> (r: Option<Record>)
        requires
            sorted_by_key(self.records@),
        ensures
            match r {
                Some(rec) => self.records@.contains(rec) && rec.key == *key,
                None => !has_key(self.records@, key.id),
            },
    {
        match self.get_index(key) {
            Some(i) => Some(self.records[i].duplicate()),
            None => None,
        }
    }

    /// The records from the one with key `min_key` on, while their keys are at
    /// most `max_key`; none when no record has key `min_key`.
    pub fn get_range(&self, min_key: &Key, max_key: &Key) -> (r: Vec<Record>)
        requires
            sorted_by_key(self.records@),
        ensures
            !has_key(self.records@, min_key.id) ==> r@.len() == 0,
            has_key(self.records@, min_key.id) ==> exists|s: int|
                0 <= s < self.records@.len() && #[trigger] self.records@[s].key == *min_key
                    && range_at(self.records@, s, max_key.id, r@),
    {
        let min_i = match self.get_index(min_key) {
            Some(i) => i,
            None => {
                return Vec::new();
            },
        };
        let mut records: Vec<Record> = Vec::new();
        let mut i: usize = min_i;
        while i < self.records.len() && self.records[i].key.id <= max_key.id
            invariant
                min_i <= i <= self.records@.len(),
                self.records@[min_i as int].key == *min_key,
                records@ == self.records@.subrange(min_i as int, i as int),
                forall|p: int| 0 <= p < records@.len() ==> #[trigger] records@[p].key.id <= max_key.id,
            decreases self.records@.len() - i,
        {
            records.push(self.records[i].duplicate());
            proof {
                assert(records@ =~= self.records@.subrange(min_i as int, i + 1));
            }
            i = i + 1;
        }
        proof {
            assert(range_at(self.records@, min_i as int, max_key.id, records@));
        }
        records
    }

    /// A table under a fresh id holding the records of both tables by
    /// ascending key; of two records with one key, the one of the newer table
    /// is kept. The newer table is `self` when it was made strictly later than
    /// `other`, `other` otherwise.
    pub fn merge(&self, other: &SSTable) -> (r: Result<SSTable, StorageError>)
        requires
            self.wf(),
            other.wf(),
        ensures
            match r {
                Ok(t) => {
                    &&& t.wf()
                    &&& t.meta.table_id.wf()
                    &&& t.meta.created_at == t.meta.table_id.seconds() * 1000
                    &&& if self.meta.created_at > other.meta.created_at {
                        merged_from(t.records@, self.records@, other.records@)
                    } else {
                        merged_from(t.records@, other.records@, self.records@)
                    }
                },
                Err(_) => false,
            },
    {
        let (newer, older) = if self.meta.created_at > other.meta.created_at {
            (self, other)
        } else {
            (other, self)
        };
        let records = merge_records(&newer.records, &older.records);
        SSTable::new(records)
    }

    /// A bloom membership structure holding every key of the table.
    pub fn get_bloom_filter(&self) -> (r: Result<BloomMembership, StorageError>)
        ensures
            match r {
                Ok(b) => b.wf() && forall|id: u128| #[trigger] b.items().contains(id) <==> has_key(self.records@, id),
                Err(_) => false,
            },
    {
        let mut bf = BloomMembership::new();
        let mut i: usize = 0;
        while i < self.records.len()
            invariant
                0 <= i <= self.records@.len(),
                bf.wf(),
                forall|id: u128|
                    #[trigger] bf.items().contains(id) <==> exists|p: int|
                        0 <= p < i && self.records@[p].key.id == id,
            decreases self.records@.len() - i,
        {
            bf.insert(self.records[i].key.id);
            proof {
                assert forall|id: u128| #[trigger] bf.items().contains(id) <==> exists|p: int|
                    0 <= p < i + 1 && self.records@[p].key.id == id by {
                    if id == self.records@[i as int].key.id {
                        assert(0 <= i < i + 1 && self.records@[i as int].key.id == id);
                    }
                }
            }
            i = i + 1;
        }
        Ok(bf)
    }
}

/// Binary search by key: the position of the record with key `key`, or
/// else the position where such a record would be inserted.
pub fn search_by_key(records: &Vec<Record>, key: &Key) -> (r: Result<usize, usize>)
    requires
        sorted_by_key(records@),
    ensures
        match r {
            Ok(i) => i < records@.len() && records@[i as int].key == *key,
            Err(i) => {
                &&& i <= records@.len()
                &&& forall|j: int| 0 <= j < i ==> records@[j].key.id < key.id
                &&& forall|j: int| i <= j < records@.len() ==> records@[j].key.id > key.id
            },
        },
        r is Err ==> !has_key(records@, key.id),
{
    let mut lo: usize = 0;
    let mut hi: usize = records.len();
    while lo < hi
        invariant
            0 <= lo <= hi <= records@.len(),
            sorted_by_key(records@),
            forall|i: int| 0 <= i < lo ==> records@[i].key.id < key.id,
            forall|i: int| hi <= i < records@.len() ==> records@[i].key.id > key.id,
        decreases hi - lo,
    {
        let mid = lo + (hi - lo) / 2;
        let k = records[mid].key.id;
        if k < key.id {
            lo = mid + 1;
        } else if k > key.id {
            hi = mid;
        } else {
            return Ok(mid);
        }
    }
    proof {
        assert(!has_key(records@, key.id)) by {
            if has_key(records@, key.id) {
                let i = choose|i: int| 0 <= i < records@.len() && records@[i].key.id == key.id;
                if i < lo {
                } else {
                }
            }
        }
    }
    Err(lo)
}

/// Whether the keys of the records strictly ascend.
pub fn keys_ascending(records: &Vec<Record>) -> (r: bool)
    ensures
        r == sorted_by_key(records@),
{
    let mut i: usize = 1;
    if records.len() == 0 {
        return true;
    }
    while i < records.len()
        invariant
            1 <= i <= records@.len(),
            forall|a: int, b: int| 0 <= a < b < i ==> records@[a].key.id < records@[b].key.id,
        decreases records@.len() - i,
    {
        if records[i - 1].key.id >= records[i].key.id {
            proof {
                assert(!sorted_by_key(records@)) by {
                    assert(records@[i - 1].key.id >= records@[i as int].key.id);
                }
            }
            return false;
        }
        proof {
            assert forall|a: int, b: int| 0 <= a < b < i + 1 implies records@[a].key.id < records@[b].key.id by {
                if b == i && a < i - 1 {
                    assert(records@[a].key.id < records@[i - 1].key.id);
                }
            }
        }
        i = i + 1;
    }
    true
}

/// A copy of the records.
pub fn copy_records(v: &Vec<Record>) -> (r: Vec<Record>)
    ensures
        r@ == v@,
{
    let mut out: Vec<Record> = Vec::new();
    let mut i: usize = 0;
    while i < v.len()
        invariant
            0 <= i <= v@.len(),
            out@ == v@.subrange(0, i as int),
        decreases v@.len() - i,
    {
        out.push(v[i].duplicate());
        proof {
            assert(out@ =~= v@.subrange(0, i + 1));
        }
        i = i + 1;
    }
    proof {
        assert(out@ =~= v@);
    }
    out
}

/// The key-ascending merge of two key-ascending sequences; of two records
/// with one key, the one of `newer` is kept.
pub fn merge_records(newer: &Vec<Record>, older: &Vec<Record>) -> (r: Vec<Record>)
    requires
        sorted_by_key(newer@),
        sorted_by_key(older@),
    ensures
        merged_from(r@, newer@, older@),
        newer@.len() > 0 ==> r@.len() > 0,
        older@.len() > 0 ==> r@.len() > 0,
{
    let ghost n = newer@;
    let ghost o = older@;
    let mut res: Vec<Record> = Vec::new();
    let mut i: usize = 0;
    let mut j: usize = 0;
    while i < newer.len() || j < older.len()
        invariant
            0 <= i <= n.len(),
            0 <= j <= o.len(),
            n == newer@,
            o == older@,
            sorted_by_key(n),
            sorted_by_key(o),
            sorted_by_key(res@),
            (i > 0 || j > 0) ==> res@.len() > 0,
            forall|p: int|
                0 <= p < res@.len() ==> (i < n.len() ==> #[trigger] res@[p].key.id < n[i as int].key.id),
            forall|p: int|
                0 <= p < res@.len() ==> (j < o.len() ==> #[trigger] res@[p].key.id < o[j as int].key.id),
            forall|r: Record|
                #[trigger] res@.contains(r) ==> (n.contains(r) || (o.contains(r) && !has_key(n, r.key.id))),
            forall|a: int| 0 <= a < i ==> res@.contains(#[trigger] n[a]),
            forall|b: int| 0 <= b < j ==> (has_key(n, (#[trigger] o[b]).key.id) || res@.contains(o[b])),
        decreases n.len() + o.len() - i - j,
    {
        let ghost old_res = res@;
        let take_newer = j == older.len() || (i < newer.len() && newer[i].key.id <= older[j].key.id);
        if take_newer {
            let same = j < older.len() && newer[i].key.id == older[j].key.id;
            res.push(newer[i].duplicate());
            proof {
                lemma_push_contains(old_res, n[i as int]);
                assert(n.contains(n[i as int]));
                assert forall|a: int| 0 <= a < i + 1 implies res@.contains(#[trigger] n[a]) by {
                    if a < i {
                        assert(old_res.contains(n[a]));
                    }
                }
                if same {
                    assert(has_key(n, o[j as int].key.id));
                }
            }
            i = i + 1;
            if same {
                j = j + 1;
            }
        } else {
            res.push(older[j].duplicate());
            proof {
                lemma_push_contains(old_res, o[j as int]);
                assert(o.contains(o[j as int]));
                assert(!has_key(n, o[j as int].key.id)) by {
                    if has_key(n, o[j as int].key.id) {
                        let a = choose|a: int| 0 <= a < n.len() && n[a].key.id == o[j as int].key.id;
                        if a < i {
                            assert(old_res.contains(n[a]));
                            let p = choose|p: int| 0 <= p < old_res.len() && old_res[p] == n[a];
                            assert(old_res[p].key.id < o[j as int].key.id);
                        } else {
                            assert(n[i as int].key.id <= n[a].key.id);
                        }
                    }
                }
                assert forall|b: int| 0 <= b < j + 1 implies (has_key(n, (#[trigger] o[b]).key.id)
                    || res@.contains(o[b])) by {
                    if b < j {
                        if !has_key(n, o[b].key.id) {
                            assert(old_res.contains(o[b]));
                        }
                    }
                }
            }
            j = j + 1;
        }
    }
    proof {
        assert forall|r: Record|
            res@.contains(r) <==> (n.contains(r) || (o.contains(r) && !has_key(n, r.key.id))) by {
            if n.contains(r) {
                let a = choose|a: int| 0 <= a < n.len() && n[a] == r;
                assert(res@.contains(n[a]));
            }
            if o.contains(r) && !has_key(n, r.key.id) {
                let b = choose|b: int| 0 <= b < o.len() && o[b] == r;
                assert(has_key(n, o[b].key.id) || res@.contains(o[b]));
            }
        }
    }
    res
}

/// What pushing `x` does to membership.
proof fn lemma_push_contains(s: Seq<Record>, x: Record)
    ensures
        forall|r: Record| #[trigger] s.push(x).contains(r) <==> (s.contains(r) || r == x),
{
    assert forall|r: Record| #[trigger] s.push(x).contains(r) <==> (s.contains(r) || r == x) by {
        if s.contains(r) {
            let p = choose|p: int| 0 <= p < s.len() && s[p] == r;
            assert(s.push(x)[p] == r);
        }
        if r == x {
            assert(s.push(x)[s.len() as int] == r);
        }
        if s.push(x).contains(r) {
            let p = choose|p: int| 0 <= p < s.len() + 1 && s.push(x)[p] == r;
            if p < s.len() {
                assert(s[p] == r);
            }
        }
    }
}

} // verus!
