use vstd::prelude::*;
use bson::Document;
use crate::conf::MAX_TABLES_PER_LEVEL;
use crate::level::{handle_ids, CompactResult};
use crate::lsm::LSMTree;
use crate::sstable::SSTableHandle;
use crate::record::{Record, Value};
use crate::sstable::{has_key, merged_from, sorted_by_key};

verus! {

/// The keys of a merge are the keys of both sides.
pub proof fn lemma_merged_keys(m: Seq<Record>, newer: Seq<Record>, older: Seq<Record>, id: u128)
    requires
        merged_from(m, newer, older),
    ensures
        has_key(m, id) <==> has_key(newer, id) || has_key(older, id),
{
    if has_key(m, id) {
        let p = choose|p: int| 0 <= p < m.len() && m[p].key.id == id;
        assert(m.contains(m[p]));
        if newer.contains(m[p]) {
            let q = choose|q: int| 0 <= q < newer.len() && newer[q] == m[p];
            assert(newer[q].key.id == id);
        } else {
            let q = choose|q: int| 0 <= q < older.len() && older[q] == m[p];
            assert(older[q].key.id == id);
        }
    }
    if has_key(newer, id) {
        let q = choose|q: int| 0 <= q < newer.len() && newer[q].key.id == id;
        assert(newer.contains(newer[q]));
        assert(m.contains(newer[q]));
        let p = choose|p: int| 0 <= p < m.len() && m[p] == newer[q];
        assert(m[p].key.id == id);
    } else if has_key(older, id) {
        let q = choose|q: int| 0 <= q < older.len() && older[q].key.id == id;
        assert(older.contains(older[q]));
        assert(m.contains(older[q]));
        let p = choose|p: int| 0 <= p < m.len() && m[p] == older[q];
        assert(m[p].key.id == id);
    }
}

/// Merging is associative under newest-wins: for tables `a`, `b`, `c`, each
/// newer than the one before, merging `a` with `b` and then the result with
/// `c` holds the same records as merging `b` with `c` and then `a` with the
/// result: for every key, the record of the newest table that has it.
pub proof fn merge_associative(
    a: Seq<Record>,
    b: Seq<Record>,
    c: Seq<Record>,
    ab: Seq<Record>,
    ab_c: Seq<Record>,
    bc: Seq<Record>,
    a_bc: Seq<Record>,
)
    requires
        sorted_by_key(a),
        sorted_by_key(b),
        sorted_by_key(c),
        merged_from(ab, b, a),
        merged_from(ab_c, c, ab),
        merged_from(bc, c, b),
        merged_from(a_bc, bc, a),
    ensures
        forall|r: Record| ab_c.contains(r) <==> a_bc.contains(r),
        forall|r: Record|
            #[trigger] ab_c.contains(r) <==> (c.contains(r) || (b.contains(r) && !has_key(c, r.key.id)) || (
            a.contains(r) && !has_key(b, r.key.id) && !has_key(c, r.key.id))),
{
    assert forall|r: Record|
        #[trigger] ab_c.contains(r) <==> (c.contains(r) || (b.contains(r) && !has_key(c, r.key.id)) || (
        a.contains(r) && !has_key(b, r.key.id) && !has_key(c, r.key.id))) by {
        lemma_merged_keys(ab, b, a, r.key.id);
    }
    assert forall|r: Record| ab_c.contains(r) <==> a_bc.contains(r) by {
        lemma_merged_keys(bc, c, b, r.key.id);
        lemma_merged_keys(ab, b, a, r.key.id);
    }
}

/// A read of a key returns the last value written to it: right after a
/// write of `v` to `id`, reading `id` shows `v` (nothing for a tombstone),
/// whatever the levels hold.
pub proof fn last_write_wins(t0: LSMTree, t1: LSMTree, id: u128, v: Value<Document>)
    requires
        t0.written(t1, id, v),
    ensures
        forall|on_disk: Option<Value<Document>>| #[trigger] t1.read(id, on_disk) == crate::lsm::visible(Some(v)),
{
}

/// A write to another key leaves what a read of `id` returns unchanged.
pub proof fn other_writes_keep(t0: LSMTree, t1: LSMTree, id: u128, other: u128, v: Value<Document>)
    requires
        t0.written(t1, other, v),
        other != id,
    ensures
        forall|on_disk: Option<Value<Document>>| #[trigger] t1.read(id, on_disk) == t0.read(id, on_disk),
{
    assert(t1.buffered(id) == t0.buffered(id));
}

/// A deletion hides an earlier write: after `set(k, d)` then `del(k)`, a
/// read of `k` returns nothing.
pub proof fn delete_hides_set(t0: LSMTree, t1: LSMTree, t2: LSMTree, id: u128, d: Document)
    requires
        t0.written(t1, id, Value::Data(d)),
        t1.written(t2, id, Value::Tombstone),
    ensures
        forall|on_disk: Option<Value<Document>>| #[trigger] t2.read(id, on_disk) == None::<Document>,
{
}

/// A write revives a deleted key: after `del(k)` then `set(k, d)`, a read
/// of `k` returns `d`.
pub proof fn set_revives_deleted(t0: LSMTree, t1: LSMTree, t2: LSMTree, id: u128, d: Document)
    requires
        t0.written(t1, id, Value::Tombstone),
        t1.written(t2, id, Value::Data(d)),
    ensures
        forall|on_disk: Option<Value<Document>>| #[trigger] t2.read(id, on_disk) == Some(d),
{
}

/// Whether `after` is `before` with its full level `n` compacted: level `n`
/// left with no table, and the merged table added to level `n + 1`, which is
/// made when absent. The other levels keep their tables, and every level
/// keeps its maximum.
pub open spec fn level_compacted(before: LSMTree, after: LSMTree, n: int) -> bool {
    let len = before.levels@.len() as int;
    &&& 1 <= n <= len
    &&& before.levels@[n - 1].tables@.len() >= before.levels@[n - 1].max_tables
    &&& after.levels@.len() == if n == len { len + 1 } else { len }
    &&& after.levels@[n - 1].tables@.len() == 0
    &&& after.levels@[n - 1].max_tables == before.levels@[n - 1].max_tables
    &&& n < len ==> after.levels@[n].tables@.len() == before.levels@[n].tables@.len() + 1
        && after.levels@[n].max_tables == before.levels@[n].max_tables
    &&& n == len ==> after.levels@[n].tables@.len() == 1 && after.levels@[n].max_tables
        == MAX_TABLES_PER_LEVEL
    &&& forall|i: int|
        0 <= i < len && i != n - 1 && i != n ==> (#[trigger] after.levels@[i]).tables@.len()
            == before.levels@[i].tables@.len() && after.levels@[i].max_tables == before.levels@[i].max_tables
}

/// A call of `compact_level(n, ..)` that returns `Ok(Some(c))`, taking `t0`
/// to `t1`, followed by `install_compacted(n, &c)` that returns `Ok`, taking
/// `t1` to `t2`, compacts level `n`: the premises are what those two calls
/// ensure.
pub proof fn compaction_step(t0: LSMTree, t1: LSMTree, t2: LSMTree, n: int, c: CompactResult)
    requires
        1 <= n <= t0.levels@.len(),
        t0.levels@[n - 1].tables@.len() >= t0.levels@[n - 1].max_tables,
        c.old_table_ids@ == handle_ids(t0.levels@[n - 1].tables@),
        n < t0.levels@.len() ==> t1.levels == t0.levels,
        n == t0.levels@.len() ==> t1.levels@.len() == n + 1 && t1.levels@.subrange(0, n) == t0.levels@
            && t1.levels@[n].tables@.len() == 0 && t1.levels@[n].max_tables == MAX_TABLES_PER_LEVEL,
        t2.levels@.len() == t1.levels@.len(),
        1 <= n < t1.levels@.len(),
        exists|h: SSTableHandle, p: int| 0 <= p <= t1.levels@[n].tables@.len()
            && t2.levels@[n].tables@ == t1.levels@[n].tables@.insert(p, h),
        c.old_table_ids@ == handle_ids(t1.levels@[n - 1].tables@) ==> t2.levels@[n - 1].tables@.len() == 0,
        t2.levels@[n - 1].max_tables == t1.levels@[n - 1].max_tables,
        t2.levels@[n].max_tables == t1.levels@[n].max_tables,
        forall|i: int|
            0 <= i < t2.levels@.len() && i != n && i != n - 1 ==> #[trigger] t2.levels@[i] == t1.levels@[i],
    ensures
        level_compacted(t0, t2, n),
{
    if n == t0.levels@.len() {
        assert(t1.levels@[n - 1] == t1.levels@.subrange(0, n)[n - 1]);
        assert forall|i: int| 0 <= i < t0.levels@.len() && i != n - 1 && i != n implies (#[trigger] t2.levels@[i]).tables@.len()
            == t0.levels@[i].tables@.len() && t2.levels@[i].max_tables == t0.levels@[i].max_tables by {
            assert(t1.levels@[i] == t1.levels@.subrange(0, n)[i]);
        }
    }
    let (h, p) = choose|h: SSTableHandle, p: int| 0 <= p <= t1.levels@[n].tables@.len()
        && t2.levels@[n].tables@ == t1.levels@[n].tables@.insert(p, h);
    assert(t2.levels@[n].tables@.len() == t1.levels@[n].tables@.len() + 1);
}

/// Whether every level of `t` but level `k + 1` holds fewer tables than its
/// maximum, that one at most its maximum, and every maximum is positive.
pub open spec fn below_max_but(t: LSMTree, k: int) -> bool {
    forall|i: int|
        0 <= i < t.levels@.len() ==> 0 < (#[trigger] t.levels@[i]).max_tables && (if i == k {
            t.levels@[i].tables@.len() <= t.levels@[i].max_tables
        } else {
            t.levels@[i].tables@.len() < t.levels@[i].max_tables
        })
}

/// After a compaction cycle no level holds as many tables as its maximum.
/// `states` are the trees the level phase passes through: the first is the
/// tree after the memtable phase, in which only level 1 may have reached its
/// maximum; each next one has the next level compacted, which was full; the
/// phase stops at the first level that is not full.
pub proof fn compaction_cycle_bounds(states: Seq<LSMTree>)
    requires
        states.len() >= 1,
        below_max_but(states[0], 0),
        forall|k: int| 0 <= k < states.len() - 1 ==> level_compacted(#[trigger] states[k], states[k + 1], k + 1),
        states.len() - 1 < states.last().levels@.len() ==> states.last().levels@[states.len() - 1].tables@.len()
            < states.last().levels@[states.len() - 1].max_tables,
    ensures
        forall|i: int|
            0 <= i < states.last().levels@.len() ==> (#[trigger] states.last().levels@[i]).tables@.len()
                < states.last().levels@[i].max_tables,
{
    lemma_cycle_prefix(states, states.len() - 1);
}

proof fn lemma_cycle_prefix(states: Seq<LSMTree>, k: int)
    requires
        0 <= k < states.len(),
        below_max_but(states[0], 0),
        forall|j: int| 0 <= j < states.len() - 1 ==> level_compacted(#[trigger] states[j], states[j + 1], j + 1),
    ensures
        below_max_but(states[k], k),
    decreases k,
{
    if k > 0 {
        lemma_cycle_prefix(states, k - 1);
        let b = states[k - 1];
        let a = states[k];
        assert(level_compacted(b, a, k));
        assert forall|i: int| 0 <= i < a.levels@.len() implies 0 < (#[trigger] a.levels@[i]).max_tables && (if i == k {
            a.levels@[i].tables@.len() <= a.levels@[i].max_tables
        } else {
            a.levels@[i].tables@.len() < a.levels@[i].max_tables
        }) by {
            if i == k - 1 {
                assert(0 < b.levels@[i].max_tables);
            } else if i == k {
                if k < b.levels@.len() {
                    assert(b.levels@[i].tables@.len() < b.levels@[i].max_tables);
                }
            } else {
                assert(b.levels@[i].tables@.len() < b.levels@[i].max_tables);
            }
        }
    }
}

} // verus!
