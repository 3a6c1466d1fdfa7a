//! What a reader makes of records, byte by byte.

use vstd::prelude::*;

use crate::node::{has_bit, FlagV, NodeV};
use crate::reader::{
    readable, record_mask, record_node, record_reference, record_slots, NodeRecords, RecordTable,
    Records, StorageRecordTable, StorageRecords,
};
use crate::store::Stored;

verus! {

/// The low and the high byte of a mask hold its bits, the lowest first.
proof fn lemma_mask_bits(v: Seq<u8>, i: u8)
    requires
        v.len() >= 3,
        i < 8,
    ensures
        has_bit(record_mask(v), i as int) <==> (v[1] >> i) & 1u8 == 1u8,
        has_bit(record_mask(v), 8 + i) <==> (v[2] >> i) & 1u8 == 1u8,
{
    let a = v[1];
    let b = v[2];
    let m = (a + 256 * b) as u16;
    let k = i as u16;
    let l = (8 + i) as u16;
    assert((m >> k) & 1u16 == 1u16 <==> (a >> i) & 1u8 == 1u8) by (bit_vector)
        requires
            m == (a + 256 * b) as u16,
            k == i as u16,
            i < 8,
    ;
    assert((m >> l) & 1u16 == 1u16 <==> (b >> i) & 1u8 == 1u8) by (bit_vector)
        requires
            m == (a + 256 * b) as u16,
            l == (8 + i) as u16,
            i < 8,
    ;
}

/// The slots of a branch, one by one.
proof fn lemma_record_slot(records: Records, path: Seq<u8>, v: Seq<u8>, n: nat, i: int)
    requires
        n <= 17,
        0 <= i < n,
        record_slots(records, path, v, n) is Some,
    ensures
        ({
            let s = record_slots(records, path, v, n)->0;
            let child = path.push(i as u8);
            &&& s.len() == n
            &&& s[i] is Some <==> i < 16 && has_bit(record_mask(v), i)
            &&& s[i] is Some ==> records.contains_key(child) && record_reference(
                records[child],
            ) is Some && s[i] == Some(NodeV::Hash(record_reference(records[child])->0))
        }),
    decreases n,
{
    let k = (n - 1) as nat;
    let s = record_slots(records, path, v, k)->0;
    if k == 0 {
        assert(s.len() == 0);
    } else {
        lemma_record_slot(records, path, v, k, 0);
    }
    if i < k {
        lemma_record_slot(records, path, v, k, i);
    }
}

/// A branch has 17 slots. Bits 0 to 7 of the second byte of its record say which of the first
/// eight slots hold a child, and those of the third byte say so of the next eight. The last slot
/// is empty.
pub proof fn law_branch_slots(records: Records, path: Seq<u8>, v: Seq<u8>, i: u8)
    requires
        v.len() >= 3,
        v[0] == 0,
        record_node(records, path, v) is Some,
        i < 8,
    ensures
        ({
            let node = record_node(records, path, v)->0;
            &&& node is Full
            &&& node->Full_0.len() == 17
            &&& node->Full_0[i as int] is Some <==> (v[1] >> i) & 1u8 == 1u8
            &&& node->Full_0[8 + i] is Some <==> (v[2] >> i) & 1u8 == 1u8
            &&& node->Full_0[16] is None
            &&& node->Full_1 == FlagV { rlp: None, dirty: false }
        }),
{
    lemma_record_slot(records, path, v, 17, i as int);
    lemma_record_slot(records, path, v, 17, 8 + i);
    lemma_record_slot(records, path, v, 17, 16);
    lemma_mask_bits(v, i);
}

/// A child is referred to by what its own record holds: after the mask where it is a branch, and
/// after the path, with a length of its own, where it is a short node.
pub proof fn law_branch_child(records: Records, path: Seq<u8>, v: Seq<u8>, i: u8)
    requires
        v.len() >= 3,
        v[0] == 0,
        record_node(records, path, v) is Some,
        i < 16,
        record_node(records, path, v)->0->Full_0[i as int] is Some,
    ensures
        ({
            let slot = record_node(records, path, v)->0->Full_0[i as int];
            let w = records[path.push(i)];
            let k = w[1] as int;
            &&& records.contains_key(path.push(i))
            &&& w.len() > 0 && (w[0] == 0 || w[0] == 1)
            &&& w[0] == 0 ==> slot == Some(NodeV::Hash(w.subrange(3, w.len() as int)))
            &&& w[0] == 1 ==> 3 + k + w[2 + k] <= w.len() && slot == Some(
                NodeV::Hash(w.subrange(3 + k, 3 + k + w[2 + k])),
            )
        }),
{
    lemma_record_slot(records, path, v, 17, i as int);
}

/// A branch can be read where each child that its record says it has can be referred to.
pub proof fn law_branch_is_read(records: Records, path: Seq<u8>, v: Seq<u8>)
    requires
        v.len() >= 3,
        v[0] == 0,
        forall|i: u8|
            #![trigger path.push(i)]
            i < 16 && (if i < 8 {
                (v[1] >> i) & 1u8 == 1u8
            } else {
                (v[2] >> ((i - 8) as u8)) & 1u8 == 1u8
            }) ==> records.contains_key(path.push(i)) && names_itself(records[path.push(i)]),
    ensures
        record_node(records, path, v) is Some,
{
    lemma_slots_read(records, path, v, 17);
}

/// The record holds a reference to its own node, of 33 bytes at most.
pub open spec fn names_itself(w: Seq<u8>) -> bool {
    let k = w[1] as int;
    ||| w.len() >= 3 && w[0] == 0 && w.len() <= 36
    ||| w.len() > 1 && w[0] == 1 && 2 + k < w.len() && 3 + k + w[2 + k] <= w.len() && w[2 + k] <= 33
}

/// The first slots can be read where their children can be referred to.
proof fn lemma_slots_read(records: Records, path: Seq<u8>, v: Seq<u8>, n: nat)
    requires
        n <= 17,
        v.len() >= 3,
        forall|i: u8|
            #![trigger path.push(i)]
            i < 16 && (if i < 8 {
                (v[1] >> i) & 1u8 == 1u8
            } else {
                (v[2] >> ((i - 8) as u8)) & 1u8 == 1u8
            }) ==> records.contains_key(path.push(i)) && names_itself(records[path.push(i)]),
    ensures
        record_slots(records, path, v, n) is Some,
    decreases n,
{
    if n > 0 {
        let i = n - 1;
        lemma_slots_read(records, path, v, i as nat);
        if i < 8 {
            lemma_mask_bits(v, i as u8);
        } else if i < 16 {
            lemma_mask_bits(v, (i - 8) as u8);
        }
        let child = path.push(i as u8);
        if i < 16 && has_bit(record_mask(v), i) {
            let w = records[child];
            assert(records.contains_key(child) && names_itself(w));
            if w[0] == 1 && w.len() > 1 && 2 + w[1] < w.len() {
                assert(record_reference(w) is Some);
            } else {
                assert(w.subrange(3, w.len() as int).len() <= 33);
                assert(record_reference(w) is Some);
            }
        }
    }
}

/// A leaf is read back with its path and its value: the record holds the length of the path, the
/// path, the length of a reference, the reference, the byte 2 and the value.
pub proof fn law_leaf_is_read(
    records: Records,
    at: Seq<u8>,
    path: Seq<u8>,
    reference: Seq<u8>,
    value: Seq<u8>,
)
    requires
        path.len() <= 64,
        forall|i: int| 0 <= i < path.len() ==> #[trigger] path[i] < 16,
        reference.len() <= 255,
    ensures
        record_node(
            records,
            at,
            seq![1u8, path.len() as u8] + path + seq![reference.len() as u8] + reference
                + seq![2u8] + value,
        ) == Some(
            NodeV::Short(path, Box::new(NodeV::Value(value)), FlagV { rlp: None, dirty: false }),
        ),
{
    let k = path.len() as int;
    let v = seq![1u8, path.len() as u8] + path + seq![reference.len() as u8] + reference
        + seq![2u8] + value;
    assert(v[0] == 1 && v[1] == k);
    assert(v[2 + k] == reference.len());
    let end = 3 + k + v[2 + k];
    assert(v[end] == 2);
    assert(v.subrange(2, 2 + k) =~= path);
    assert(path.map_values(|x: u8| x % 16) =~= path);
    assert(v.skip(end + 1) =~= value);
}

/// An extension is read with its path and the reference that the record of the branch at its end
/// holds after the mask.
pub proof fn law_extension_is_read(
    records: Records,
    at: Seq<u8>,
    path: Seq<u8>,
    reference: Seq<u8>,
    low: u8,
    high: u8,
    next: Seq<u8>,
)
    requires
        path.len() <= 64,
        forall|i: int| 0 <= i < path.len() ==> #[trigger] path[i] < 16,
        reference.len() <= 255,
        next.len() <= 33,
        records.contains_key(at + path),
        records[at + path] == seq![0u8, low, high] + next,
    ensures
        record_node(
            records,
            at,
            seq![1u8, path.len() as u8] + path + seq![reference.len() as u8] + reference
                + seq![3u8],
        ) == Some(
            NodeV::Short(path, Box::new(NodeV::Hash(next)), FlagV { rlp: None, dirty: false }),
        ),
{
    let k = path.len() as int;
    let v = seq![1u8, path.len() as u8] + path + seq![reference.len() as u8] + reference
        + seq![3u8];
    let w = seq![0u8, low, high] + next;
    assert(v[0] == 1 && v[1] == k);
    assert(v[2 + k] == reference.len());
    let end = 3 + k + v[2 + k];
    assert(v[end] == 3);
    assert(v.subrange(2, 2 + k) =~= path);
    assert(path.map_values(|x: u8| x % 16) =~= path);
    assert(w.subrange(3, w.len() as int) =~= next);
}

/// Records that are empty, or begin with a byte other than 0 and 1, make no node.
pub proof fn law_other_records(records: Records, path: Seq<u8>, v: Seq<u8>)
    requires
        v.len() == 0 || v[0] > 1,
    ensures
        record_node(records, path, v) is None,
{
}

/// What the cache holds is read from the cache. What it does not hold is put together from the
/// records, where there is one that makes a node.
pub proof fn law_cache_comes_first(cache: Stored, records: Records, path: Seq<u8>)
    ensures
        cache.contains_key(path) ==> readable(cache, records).contains_key(path) && readable(
            cache,
            records,
        )[path] == cache[path],
        !cache.contains_key(path) && records.contains_key(path) ==> (readable(
            cache,
            records,
        ).contains_key(path) <==> record_node(records, path, records[path]) is Some),
        !cache.contains_key(path) && records.contains_key(path) && record_node(
            records,
            path,
            records[path],
        ) is Some ==> Some(readable(cache, records)[path]) == record_node(
            records,
            path,
            records[path],
        ),
        !cache.contains_key(path) && !records.contains_key(path) ==> !readable(
            cache,
            records,
        ).contains_key(path),
{
}

/// Records in memory are what they hold, under the same paths, and for each account its own.
pub proof fn law_records_in_memory(
    table: RecordTable,
    storages: StorageRecordTable,
    address: Seq<u8>,
    path: Seq<u8>,
)
    ensures
        table.records().contains_key(path) <==> table.entries@.contains_key(path),
        table.entries@.contains_key(path) ==> table.records()[path] == table.entries@[path]@,
        storages.accounts@.contains_key(address) ==> storages.storage_records(address)
            == storages.accounts@[address].records(),
        !storages.accounts@.contains_key(address) ==> storages.storage_records(address) == Map::<
            Seq<u8>,
            Seq<u8>,
        >::empty(),
{
}

/// A record of a branch makes no node where it is too short for its mask, or where it says that
/// there is a child of which there is no record.
pub proof fn law_no_branch(records: Records, path: Seq<u8>, v: Seq<u8>, i: u8)
    requires
        v.len() > 0,
        v[0] == 0,
        v.len() < 3 || (i < 8 && (v[1] >> i) & 1u8 == 1u8 && !records.contains_key(path.push(i)))
            || (i < 8 && (v[2] >> i) & 1u8 == 1u8 && !records.contains_key(
            path.push((8 + i) as u8),
        )),
    ensures
        record_node(records, path, v) is None,
{
    if v.len() >= 3 && record_node(records, path, v) is Some {
        lemma_mask_bits(v, i);
        lemma_record_slot(records, path, v, 17, i as int);
        lemma_record_slot(records, path, v, 17, 8 + i);
    }
}

/// A record of a short node makes no node where it ends before its path, its reference or its kind
/// does, where its path is longer than 64 half-bytes, where its kind is neither a value nor a
/// reference, or where it is an extension and there is no record of a branch at its end.
pub proof fn law_no_short_node(records: Records, path: Seq<u8>, v: Seq<u8>)
    requires
        v.len() > 0,
        v[0] == 1,
        ({
            let k = v[1] as int;
            let at = 3 + k + v[2 + k];
            let next = path + v.subrange(2, 2 + k).map_values(|x: u8| x % 16);
            ||| v.len() < 2
            ||| k > 64
            ||| v.len() <= 2 + k
            ||| v.len() <= at
            ||| v[at] != 2 && v[at] != 3
            ||| v[at] == 3 && !records.contains_key(next)
            ||| v[at] == 3 && records.contains_key(next) && (records[next].len() < 3
                || records[next][0] != 0 || records[next].len() > 36)
        }),
    ensures
        record_node(records, path, v) is None,
{
    let k = v[1] as int;
    let at = 3 + k + v[2 + k];
    let next = path + v.subrange(2, 2 + k).map_values(|x: u8| x % 16);
    if v.len() >= 2 && k <= 64 && v.len() > 2 + k && v.len() > at && v[at] == 3
        && records.contains_key(next) {
        let w = records[next];
        if w.len() > 36 {
            assert(w.subrange(3, w.len() as int).len() > 33);
        }
    }
}

} // verus!
