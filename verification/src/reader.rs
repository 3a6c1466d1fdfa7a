//! Readers that put trie nodes together from stored records. A record holds the reference to its
//! own node, so that a branch is read together with the records of its children.

use vstd::prelude::*;
use vstd::slice::{slice_subrange, slice_to_vec};

use crate::bytes::{at_most, lemma_lex_total, lemma_lex_trans, lex_le, ByteSeq};
use crate::errors::DatabaseError;
use crate::memory::NodeStore;
use crate::nibbles::Nibbles;
use crate::node::{has_bit, slots_view, FlagV, Node, NodeFlag, NodeV};
use crate::reader_laws::law_branch_slots;
use crate::rlp::{RlpNode, B256};
use crate::store::{Stored, TrieReader};
use crate::stored::{NodeType, StorageNodeEntry};
use crate::vec_map::{has_entry, MapKey, VecMap};

verus! {

/// Records by path.
pub type Records = Map<Seq<u8>, Seq<u8>>;

/// `b` from `start` up to, and without, `end`, where it goes that far.
pub open spec fn within_bytes(b: Seq<u8>, start: int, end: int) -> Option<Seq<u8>> {
    if 0 <= start <= end <= b.len() {
        Some(b.subrange(start, end))
    } else {
        None
    }
}

/// Bytes that can be a reference.
pub open spec fn as_reference(b: Option<Seq<u8>>) -> Option<Seq<u8>> {
    match b {
        Some(r) => if r.len() <= 33 {
            Some(r)
        } else {
            None
        },
        None => None,
    }
}

/// The reference to the branch with record `v`.
pub open spec fn branch_reference(v: Seq<u8>) -> Option<Seq<u8>> {
    if v.len() > 0 && v[0] == 0 {
        as_reference(within_bytes(v, 3, v.len() as int))
    } else {
        None
    }
}

/// The reference to the node with record `v`.
pub open spec fn record_reference(v: Seq<u8>) -> Option<Seq<u8>> {
    if v.len() > 1 && v[0] == 1 && 2 + v[1] < v.len() {
        let k = v[1] as int;
        as_reference(within_bytes(v, 3 + k, 3 + k + v[2 + k]))
    } else {
        branch_reference(v)
    }
}

/// Which children the record of a branch says there are.
pub open spec fn record_mask(v: Seq<u8>) -> u16 {
    (v[1] + 256 * v[2]) as u16
}

/// The first `n` slots of the branch with record `v` at `path`.
pub open spec fn record_slots(records: Records, path: Seq<u8>, v: Seq<u8>, n: nat) -> Option<
    Seq<Option<NodeV>>,
>
    decreases n,
{
    if n == 0 {
        Some(Seq::empty())
    } else {
        let i = n - 1;
        let child = path.push(i as u8);
        match record_slots(records, path, v, i as nat) {
            Some(s) => if i == 16 || !has_bit(record_mask(v), i) {
                Some(s.push(None))
            } else if records.contains_key(child) {
                match record_reference(records[child]) {
                    Some(r) => Some(s.push(Some(NodeV::Hash(r)))),
                    None => None,
                }
            } else {
                None
            },
            None => None,
        }
    }
}

/// The short node with record `v` at `path`.
pub open spec fn record_short(records: Records, path: Seq<u8>, v: Seq<u8>) -> Option<NodeV> {
    let f = FlagV { rlp: None, dirty: false };
    let k = v[1] as int;
    if v.len() < 2 || k > 64 || 2 + k >= v.len() {
        None
    } else {
        let at = 3 + k + v[2 + k];
        let key = v.subrange(2, 2 + k).map_values(|x: u8| x % 16);
        let next = path + key;
        if at >= v.len() {
            None
        } else if v[at] == 3 {
            if records.contains_key(next) {
                match branch_reference(records[next]) {
                    Some(r) => Some(NodeV::Short(key, Box::new(NodeV::Hash(r)), f)),
                    None => None,
                }
            } else {
                None
            }
        } else if v[at] == 2 {
            Some(NodeV::Short(key, Box::new(NodeV::Value(v.skip(at + 1))), f))
        } else {
            None
        }
    }
}

/// The node with record `v` at `path`, put together from the records around it.
pub open spec fn record_node(records: Records, path: Seq<u8>, v: Seq<u8>) -> Option<NodeV> {
    if v.len() == 0 {
        None
    } else if v[0] == 0 {
        if v.len() < 3 {
            None
        } else {
            match record_slots(records, path, v, 17) {
                Some(s) => Some(NodeV::Full(s, FlagV { rlp: None, dirty: false })),
                None => None,
            }
        }
    } else if v[0] == 1 {
        record_short(records, path, v)
    } else {
        None
    }
}

/// A table of records.
pub trait NodeRecords {
    /// The records.
    spec fn records(&self) -> Records;

    /// What is read is what [`NodeRecords::records`] says.
    spec fn faithful(&self) -> bool;

    /// Reads do not fail.
    spec fn reliable(&self) -> bool;

    /// The record at `path`.
    fn record(&self, path: &Nibbles) -> (r: Result<Option<Vec<u8>>, DatabaseError>)
        ensures
            self.faithful() ==> (r matches Ok(Some(v)) ==> self.records().contains_key(path@) && v@
                == self.records()[path@]),
            self.faithful() ==> (r matches Ok(None) ==> !self.records().contains_key(path@)),
            self.reliable() ==> r is Ok,
    ;
}

/// The reference to the branch with record `value`.
fn parse_short_next_node(value: &[u8]) -> (r: Option<Node>)
    ensures
        match r {
            Some(n) => n@ is Hash && branch_reference(value@) == Some(n@->Hash_0),
            None => branch_reference(value@) is None,
        },
{
    if value.len() < 3 || value[0] != NodeType::FullNode.to_u8() {
        return None;
    }
    match RlpNode::from_raw(slice_subrange(value, 3, value.len())) {
        Some(rlp) => Some(Node::HashNode(rlp)),
        None => None,
    }
}

/// The reference to the node with record `value`.
fn parse_branch_child_node(value: &[u8]) -> (r: Option<Node>)
    ensures
        match r {
            Some(n) => n@ is Hash && record_reference(value@) == Some(n@->Hash_0),
            None => record_reference(value@) is None,
        },
{
    if value.len() > 1 && value[0] == NodeType::ShortNode.to_u8() && 2 + (value[1] as usize)
        < value.len() {
        let key_len = value[1] as usize;
        let rlp_len = value[2 + key_len] as usize;
        if rlp_len > value.len() - 3 - key_len {
            return None;
        }
        match RlpNode::from_raw(slice_subrange(value, 3 + key_len, 3 + key_len + rlp_len)) {
            Some(rlp) => Some(Node::HashNode(rlp)),
            None => None,
        }
    } else {
        parse_short_next_node(value)
    }
}

/// Whether bit `i` of `mask` is set.
fn is_bit_set(mask: u16, i: u8) -> (r: bool)
    requires
        i < 16,
    ensures
        r == has_bit(mask, i as int),
{
    (mask >> (i as u16)) & 1u16 == 1u16
}

/// Where a node is put together from the record `v` at `path`, a further read failed: that of a
/// child whose bit is set, after those before it had been read, or that of the end of an
/// extension. `failed` says of which paths a read failed, and `found` what was read.
pub open spec fn lookup_failed(
    path: Seq<u8>,
    v: Seq<u8>,
    failed: spec_fn(Seq<u8>) -> bool,
    found: spec_fn(Seq<u8>, Seq<u8>) -> bool,
) -> bool {
    if v.len() >= 3 && v[0] == 0 {
        exists|i: int|
            {
                &&& 0 <= i < 16
                &&& #[trigger] has_bit(record_mask(v), i)
                &&& failed(path.push(i as u8))
                &&& forall|j: int|
                    0 <= j < i && #[trigger] has_bit(record_mask(v), j) ==> exists|w: Seq<u8>|
                        #[trigger] found(path.push(j as u8), w)
            }
    } else {
        let k = v[1] as int;
        let at = 3 + k + v[2 + k];
        &&& v.len() >= 2 && v[0] == 1 && k <= 64 && 2 + k < v.len() && at < v.len() && v[at] == 3
        &&& failed(path + v.subrange(2, 2 + k).map_values(|x: u8| x % 16))
    }
}

/// The node at `path` could not be had: the read of its record failed, or a further one.
pub open spec fn node_failed(
    path: Seq<u8>,
    failed: spec_fn(Seq<u8>) -> bool,
    found: spec_fn(Seq<u8>, Seq<u8>) -> bool,
) -> bool {
    failed(path) || exists|v: Seq<u8>| #[trigger]
        found(path, v) && lookup_failed(path, v, failed, found)
}

/// What fails by one account of the reads fails by a wider one.
proof fn lemma_failed_wider(
    path: Seq<u8>,
    failed: spec_fn(Seq<u8>) -> bool,
    found: spec_fn(Seq<u8>, Seq<u8>) -> bool,
    failed2: spec_fn(Seq<u8>) -> bool,
    found2: spec_fn(Seq<u8>, Seq<u8>) -> bool,
)
    requires
        node_failed(path, failed, found),
        forall|p: Seq<u8>| #[trigger] failed(p) ==> failed2(p),
        forall|p: Seq<u8>, v: Seq<u8>| #[trigger] found(p, v) ==> found2(p, v),
    ensures
        node_failed(path, failed2, found2),
{
    if !failed(path) {
        let v = choose|v: Seq<u8>| #[trigger]
            found(path, v) && lookup_failed(path, v, failed, found);
        assert(found2(path, v));
        if v.len() >= 3 && v[0] == 0 {
            let i = choose|i: int|
                {
                    &&& 0 <= i < 16
                    &&& #[trigger] has_bit(record_mask(v), i)
                    &&& failed(path.push(i as u8))
                    &&& forall|j: int|
                        0 <= j < i && #[trigger] has_bit(record_mask(v), j) ==> exists|w: Seq<u8>|
                            #[trigger] found(path.push(j as u8), w)
                };
            assert(has_bit(record_mask(v), i) && failed2(path.push(i as u8)));
            assert forall|j: int| 0 <= j < i && #[trigger] has_bit(record_mask(v), j) implies exists|
                w: Seq<u8>,
            | #[trigger] found2(path.push(j as u8), w) by {
                let w = choose|w: Seq<u8>| #[trigger] found(path.push(j as u8), w);
                assert(found2(path.push(j as u8), w));
            }
        }
        assert(lookup_failed(path, v, failed2, found2));
    }
}

/// The read of a record may give the error `e`.
pub open spec fn record_error<T: NodeRecords>(table: T, e: DatabaseError) -> spec_fn(
    Seq<u8>,
) -> bool {
    |p: Seq<u8>|
        exists|q: Nibbles|
            q@ == p && #[trigger] call_ensures(
                T::record,
                (&table, &q),
                Err::<Option<Vec<u8>>, DatabaseError>(e),
            )
}

/// The read of a record may give `v`.
pub open spec fn record_found<T: NodeRecords>(table: T) -> spec_fn(Seq<u8>, Seq<u8>) -> bool {
    |p: Seq<u8>, v: Seq<u8>|
        exists|q: Nibbles, w: Vec<u8>|
            q@ == p && w@ == v && #[trigger] call_ensures(
                T::record,
                (&table, &q),
                Ok::<Option<Vec<u8>>, DatabaseError>(Some(w)),
            )
}

/// `e` came of a further read for the node with record `v` at `path`.
pub open spec fn record_failed<T: NodeRecords>(
    table: T,
    path: Seq<u8>,
    v: Seq<u8>,
    e: DatabaseError,
) -> bool {
    lookup_failed(path, v, record_error(table, e), record_found(table))
}

/// `e` came of a read for the node at `path`.
pub open spec fn node_read_failed<T: NodeRecords>(
    table: T,
    path: Seq<u8>,
    e: DatabaseError,
) -> bool {
    node_failed(path, record_error(table, e), record_found(table))
}

/// The node with record `value` at `path`. A record that does not make a node, with those that it
/// needs, is an error.
pub fn parse_nested_trie_node<T: NodeRecords>(
    path: &Nibbles,
    value: &[u8],
    table: &T,
) -> (r: Result<Node, DatabaseError>)
    ensures
        table.faithful() ==> (r matches Ok(n) ==> record_node(table.records(), path@, value@)
            == Some(n@)),
        table.faithful() && table.reliable() ==> (r is Ok <==> record_node(
            table.records(),
            path@,
            value@,
        ) is Some),
        table.reliable() && r is Err ==> r->Err_0 is Decode,
        r matches Err(e) ==> e is Decode || record_failed(*table, path@, value@, e),
        table.faithful() ==> (r matches Err(e) ==> record_node(
            table.records(),
            path@,
            value@,
        ) is None || record_failed(*table, path@, value@, e)),
        table.faithful() && value@.len() > 0 && value@[0] == 0 ==> (r matches Ok(n) ==> {
            &&& value@.len() >= 3
            &&& n@ is Full
            &&& n@->Full_0.len() == 17
            &&& n@->Full_0[16] is None
            &&& forall|i: u8|
                i < 8 ==> (n@->Full_0[i as int] is Some <==> #[trigger] (value@[1] >> i) & 1u8
                    == 1u8)
            &&& forall|i: u8|
                i < 8 ==> (n@->Full_0[8 + i] is Some <==> #[trigger] (value@[2] >> i) & 1u8 == 1u8)
        }),
{
    let ghost records = table.records();
    if value.len() == 0 {
        return Err(DatabaseError::Decode);
    }
    match NodeType::from_u8(value[0]) {
        Some(NodeType::FullNode) => {
            if value.len() < 3 {
                return Err(DatabaseError::Decode);
            }
            let mask: u16 = value[1] as u16 + 256 * (value[2] as u16);
            let mut children: Vec<Option<Box<Node>>> = Vec::with_capacity(17);
            assert(slots_view(children@) =~= Seq::<Option<NodeV>>::empty());
            let mut i: u8 = 0;
            while i < 16
                invariant
                    i <= 16,
                    value@.len() >= 3,
                    value@[0] == 0,
                    mask == record_mask(value@),
                    records == table.records(),
                    forall|j: int|
                        0 <= j < i && #[trigger] has_bit(mask, j) ==> exists|w: Seq<u8>|
                            #[trigger] record_found(*table)(path@.push(j as u8), w),
                    table.faithful() ==> record_slots(records, path@, value@, i as nat) == Some(
                        slots_view(children@),
                    ),
                decreases 16 - i,
            {
                let ghost before = slots_view(children@);
                if is_bit_set(mask, i) {
                    let child_path = path.child(i);
                    let child_value = match table.record(&child_path) {
                        Ok(Some(child_value)) => child_value,
                        Ok(None) => {
                            proof {
                                if table.faithful() {
                                    lemma_no_record_slots(
                                        records,
                                        path@,
                                        value@,
                                        (i + 1) as nat,
                                        17,
                                    );
                                }
                            }
                            return Err(DatabaseError::Decode);
                        },
                        Err(e) => {
                            proof {
                                assert(record_error(*table, e)(path@.push(i)));
                                assert(has_bit(record_mask(value@), i as int));
                            }
                            return Err(e);
                        },
                    };
                    assert(record_found(*table)(path@.push(i), child_value@));
                    match parse_branch_child_node(child_value.as_slice()) {
                        Some(node) => {
                            let ghost n = node@;
                            children.push(Some(Box::new(node)));
                            assert(slots_view(children@) =~= before.push(Some(n)));
                        },
                        None => {
                            proof {
                                if table.faithful() {
                                    lemma_no_record_slots(
                                        records,
                                        path@,
                                        value@,
                                        (i + 1) as nat,
                                        17,
                                    );
                                }
                            }
                            return Err(DatabaseError::Decode);
                        },
                    }
                } else {
                    children.push(None);
                    assert(slots_view(children@) =~= before.push(None));
                }
                i += 1;
            }
            let ghost before = slots_view(children@);
            children.push(None);
            assert(slots_view(children@) =~= before.push(None));
            let node = Node::FullNode { children, flags: NodeFlag::new(None) };
            proof {
                if table.faithful() {
                    assert(record_node(records, path@, value@) == Some(node@));
                    law_branch_slots(records, path@, value@, 0);
                    assert forall|i: u8| i < 8 implies (node@->Full_0[i as int] is Some
                        <==> #[trigger] (value@[1] >> i) & 1u8 == 1u8) by {
                        law_branch_slots(records, path@, value@, i);
                    }
                    assert forall|i: u8| i < 8 implies (node@->Full_0[8 + i] is Some
                        <==> #[trigger] (value@[2] >> i) & 1u8 == 1u8) by {
                        law_branch_slots(records, path@, value@, i);
                    }
                }
            }
            Ok(node)
        },
        Some(NodeType::ShortNode) => {
            if value.len() < 2 {
                return Err(DatabaseError::Decode);
            }
            let key_len = value[1] as usize;
            if key_len > 64 || 2 + key_len >= value.len() {
                return Err(DatabaseError::Decode);
            }
            let key = Nibbles::from_nibbles_unchecked(slice_subrange(value, 2, 2 + key_len));
            let rlp_len = value[2 + key_len] as usize;
            if rlp_len >= value.len() - 3 - key_len {
                return Err(DatabaseError::Decode);
            }
            let at = 3 + key_len + rlp_len;
            match NodeType::from_u8(value[at]) {
                Some(NodeType::HashNode) => {
                    let next_path = path.join(&key);
                    let next_value = match table.record(&next_path) {
                        Ok(Some(next_value)) => next_value,
                        Ok(None) => return Err(DatabaseError::Decode),
                        Err(e) => {
                            assert(record_error(*table, e)(next_path@));
                            return Err(e);
                        },
                    };
                    match parse_short_next_node(next_value.as_slice()) {
                        Some(next) => Ok(
                            Node::ShortNode {
                                key,
                                value: Box::new(next),
                                flags: NodeFlag::new(None),
                            },
                        ),
                        None => Err(DatabaseError::Decode),
                    }
                },
                Some(NodeType::ValueNode) => {
                    let rest = slice_to_vec(slice_subrange(value, at + 1, value.len()));
                    assert(rest@ =~= value@.skip(at + 1));
                    let end = Node::ValueNode(rest);
                    assert(end@ == NodeV::Value(rest@));
                    Ok(
                        Node::ShortNode {
                            key,
                            value: Box::new(end),
                            flags: NodeFlag::new(None),
                        },
                    )
                },
                _ => Err(DatabaseError::Decode),
            }
        },
        _ => Err(DatabaseError::Decode),
    }
}

/// Where some slots cannot be put together, more cannot be either.
proof fn lemma_no_record_slots(records: Records, path: Seq<u8>, v: Seq<u8>, n: nat, m: nat)
    requires
        n <= m,
        record_slots(records, path, v, n) is None,
    ensures
        record_slots(records, path, v, m) is None,
    decreases m,
{
    if n < m {
        lemma_no_record_slots(records, path, v, n, (m - 1) as nat);
    }
}

/// Whether `path` is `parent` and then `child`.
pub fn check_branch_path(parent: &Nibbles, child: u8, path: &Nibbles) -> (r: bool)
    requires
        child < 16,
    ensures
        r == (path@ == parent@.push(child)),
{
    parent.child(child).same(path)
}

/// Nodes that need not be put together from records.
pub trait NodeCache {
    /// The nodes.
    spec fn cached_nodes(&self) -> Stored;

    /// The node at `path`.
    fn cached_node(&self, path: &Nibbles) -> (r: Option<Node>)
        ensures
            r is Some <==> self.cached_nodes().contains_key(path@),
            r matches Some(n) ==> n@ == self.cached_nodes()[path@],
    ;
}

impl NodeCache for NodeStore {
    open spec fn cached_nodes(&self) -> Stored {
        self@
    }

    fn cached_node(&self, path: &Nibbles) -> (r: Option<Node>) {
        self.get(path)
    }
}

/// The nodes of a cache that may be missing.
pub open spec fn cache_nodes<C: NodeCache>(cache: Option<C>) -> Stored {
    match cache {
        Some(c) => c.cached_nodes(),
        None => Map::empty(),
    }
}

/// The nodes that can be read: those of the cache, and where it has none those of the records.
pub open spec fn readable(cache: Stored, records: Records) -> Stored {
    Map::new(
        |p: Seq<u8>|
            cache.contains_key(p) || records.contains_key(p) && record_node(
                records,
                p,
                records[p],
            ) is Some,
        |p: Seq<u8>|
            if cache.contains_key(p) {
                cache[p]
            } else {
                record_node(records, p, records[p])->0
            },
    )
}

/// Every record makes a node, with those that it needs.
pub open spec fn records_sound(records: Records) -> bool {
    forall|p: Seq<u8>| #[trigger]
        records.contains_key(p) ==> record_node(records, p, records[p]) is Some
}

/// The record at `path` makes no node.
pub open spec fn malformed_at(records: Records, path: Seq<u8>) -> bool {
    records.contains_key(path) && record_node(records, path, records[path]) is None
}

/// The node at `path`, from the cache or from the records.
fn read_node<T: NodeRecords, C: NodeCache>(
    table: &T,
    cache: &Option<C>,
    path: &Nibbles,
) -> (r: Result<Option<Node>, DatabaseError>)
    ensures
        cache_nodes(*cache).contains_key(path@) ==> (r matches Ok(Some(n)) && n@ == cache_nodes(
            *cache,
        )[path@]),
        r matches Err(e) ==> e is Decode || node_read_failed(*table, path@, e),
        table.faithful() ==> (r matches Err(e) ==> malformed_at(table.records(), path@)
            || node_read_failed(*table, path@, e)),
        table.faithful() ==> (r matches Ok(Some(n)) ==> readable(
            cache_nodes(*cache),
            table.records(),
        ).contains_key(path@) && n@ == readable(cache_nodes(*cache), table.records())[path@]),
        table.faithful() ==> (r matches Ok(None) ==> !readable(
            cache_nodes(*cache),
            table.records(),
        ).contains_key(path@)),
        table.faithful() && table.reliable() && records_sound(table.records()) ==> r is Ok,
{
    if let Some(cache) = cache {
        let node = cache.cached_node(path);
        if node.is_some() {
            return Ok(node);
        }
    }
    let value = match table.record(path) {
        Ok(Some(value)) => value,
        Ok(None) => return Ok(None),
        Err(e) => {
            assert(record_error(*table, e)(path@));
            return Err(e);
        },
    };
    assert(record_found(*table)(path@, value@));
    match parse_nested_trie_node(path, value.as_slice(), table) {
        Ok(node) => Ok(Some(node)),
        Err(e) => Err(e),
    }
}

/// Reads the nodes of the account trie.
pub struct AccountTrieReader<T: NodeRecords, C: NodeCache> {
    records: T,
    cache: Option<C>,
}

impl<T: NodeRecords, C: NodeCache> AccountTrieReader<T, C> {
    /// The records.
    pub closed spec fn table(&self) -> T {
        self.records
    }

    /// The cache.
    pub closed spec fn cache(&self) -> Option<C> {
        self.cache
    }

    /// Reads from `cache` and `records`.
    pub fn new(records: T, cache: Option<C>) -> (r: AccountTrieReader<T, C>)
        ensures
            r.table() == records,
            r.cache() == cache,
    {
        AccountTrieReader { records, cache }
    }
}

impl<T: NodeRecords, C: NodeCache> TrieReader for AccountTrieReader<T, C> {
    open spec fn nodes(&self) -> Stored {
        readable(cache_nodes(self.cache()), self.table().records())
    }

    open spec fn faithful(&self) -> bool {
        self.table().faithful()
    }

    open spec fn reliable(&self) -> bool {
        self.table().faithful() && self.table().reliable() && records_sound(self.table().records())
    }

    fn read(&self, path: &Nibbles) -> (r: Result<Option<Node>, DatabaseError>)
        ensures
            cache_nodes(self.cache()).contains_key(path@) ==> (r matches Ok(Some(n)) && n@
                == cache_nodes(self.cache())[path@]),
            r matches Err(e) ==> e is Decode || node_read_failed(self.table(), path@, e),
            self.faithful() ==> (r matches Err(e) ==> malformed_at(self.table().records(), path@)
                || node_read_failed(self.table(), path@, e)),
    {
        read_node(&self.records, &self.cache, path)
    }
}

/// A table of the records of all storage tries, in the order of the paths for each account.
pub trait StorageRecords {
    /// The records by hashed address.
    spec fn storage_records(&self, hashed_address: ByteSeq) -> Records;

    /// What is read is what [`StorageRecords::storage_records`] says.
    spec fn faithful(&self) -> bool;

    /// Reads do not fail.
    spec fn reliable(&self) -> bool;

    /// The first record of an account at or after `path`.
    fn seek_by_key_subkey(&self, hashed_address: &B256, path: &Nibbles) -> (r: Result<
        Option<StorageNodeEntry>,
        DatabaseError,
    >)
        ensures
            self.faithful() ==> (r matches Ok(Some(e)) ==> first_from(
                self.storage_records(hashed_address@),
                path@,
                e.path@,
                e.node@,
            )),
            self.faithful() ==> (r matches Ok(None) ==> forall|q: Seq<u8>| #[trigger]
                self.storage_records(hashed_address@).contains_key(q) ==> !lex_le(path@, q)),
            self.reliable() ==> r is Ok,
    ;
}

/// `p` with value `v` is the first of `records` at or after `from`.
pub open spec fn first_from(records: Records, from: Seq<u8>, p: Seq<u8>, v: Seq<u8>) -> bool {
    &&& records.contains_key(p)
    &&& records[p] == v
    &&& lex_le(from, p)
    &&& forall|q: Seq<u8>| #[trigger] records.contains_key(q) && lex_le(from, q) ==> lex_le(p, q)
}

/// The records of one storage trie.
pub struct AccountRecords<S: StorageRecords> {
    table: S,
    hashed_address: B256,
}

impl<S: StorageRecords> AccountRecords<S> {
    /// All records.
    pub closed spec fn all(&self) -> S {
        self.table
    }

    /// The account.
    pub closed spec fn account(&self) -> B256 {
        self.hashed_address
    }

    /// The hashed address of the account.
    pub open spec fn address(&self) -> Seq<u8> {
        self.account()@
    }
}

/// The seek for a record of an account may give the error `e`.
pub open spec fn seek_error<S: StorageRecords>(
    table: S,
    account: B256,
    e: DatabaseError,
) -> spec_fn(Seq<u8>) -> bool {
    |p: Seq<u8>|
        exists|q: Nibbles|
            q@ == p && #[trigger] call_ensures(
                S::seek_by_key_subkey,
                (&table, &account, &q),
                Err::<Option<StorageNodeEntry>, DatabaseError>(e),
            )
}

/// The seek for a record of an account may give `v` under the path asked for.
pub open spec fn seek_found<S: StorageRecords>(table: S, account: B256) -> spec_fn(
    Seq<u8>,
    Seq<u8>,
) -> bool {
    |p: Seq<u8>, v: Seq<u8>|
        exists|q: Nibbles, entry: StorageNodeEntry|
            q@ == p && entry.path@ == p && entry.node@ == v && #[trigger] call_ensures(
                S::seek_by_key_subkey,
                (&table, &account, &q),
                Ok::<Option<StorageNodeEntry>, DatabaseError>(Some(entry)),
            )
}

/// `e` came of a seek for the node of an account at `path`.
pub open spec fn seek_failed<S: StorageRecords>(
    table: S,
    account: B256,
    path: Seq<u8>,
    e: DatabaseError,
) -> bool {
    node_failed(path, seek_error(table, account, e), seek_found(table, account))
}

impl<S: StorageRecords> NodeRecords for AccountRecords<S> {
    open spec fn records(&self) -> Records {
        self.all().storage_records(self.address())
    }

    open spec fn faithful(&self) -> bool {
        self.all().faithful()
    }

    open spec fn reliable(&self) -> bool {
        self.all().reliable()
    }

    fn record(&self, path: &Nibbles) -> (r: Result<Option<Vec<u8>>, DatabaseError>)
        ensures
            r matches Err(e) ==> call_ensures(
                S::seek_by_key_subkey,
                (&self.all(), &self.account(), path),
                Err::<Option<StorageNodeEntry>, DatabaseError>(e),
            ),
            r matches Ok(Some(v)) ==> seek_found(self.all(), self.account())(path@, v@),
    {
        proof {
            lemma_lex_total(path@, path@);
        }
        match self.table.seek_by_key_subkey(&self.hashed_address, path) {
            Ok(Some(entry)) => {
                proof {
                    lemma_lex_total(entry.path@, path@);
                }
                if entry.path.same(path) {
                    Ok(Some(entry.node))
                } else {
                    Ok(None)
                }
            },
            Ok(None) => Ok(None),
            Err(e) => Err(e),
        }
    }
}

/// Reads the nodes of one storage trie.
pub struct StorageTrieReader<S: StorageRecords, C: NodeCache> {
    records: AccountRecords<S>,
    cache: Option<C>,
}

impl<S: StorageRecords, C: NodeCache> StorageTrieReader<S, C> {
    /// The records.
    pub closed spec fn table(&self) -> AccountRecords<S> {
        self.records
    }

    /// The cache of the account's nodes.
    pub closed spec fn cache(&self) -> Option<C> {
        self.cache
    }

    /// Reads the nodes of an account from `cache` and `table`.
    pub fn new(table: S, hashed_address: B256, cache: Option<C>) -> (r: StorageTrieReader<S, C>)
        ensures
            r.table().all() == table,
            r.table().account() == hashed_address,
            r.cache() == cache,
    {
        StorageTrieReader { records: AccountRecords { table, hashed_address }, cache }
    }
}

impl<S: StorageRecords, C: NodeCache> TrieReader for StorageTrieReader<S, C> {
    open spec fn nodes(&self) -> Stored {
        readable(cache_nodes(self.cache()), self.table().records())
    }

    open spec fn faithful(&self) -> bool {
        self.table().faithful()
    }

    open spec fn reliable(&self) -> bool {
        self.table().faithful() && self.table().reliable() && records_sound(self.table().records())
    }

    fn read(&self, path: &Nibbles) -> (r: Result<Option<Node>, DatabaseError>)
        ensures
            cache_nodes(self.cache()).contains_key(path@) ==> (r matches Ok(Some(n)) && n@
                == cache_nodes(self.cache())[path@]),
            r matches Err(e) ==> e is Decode || seek_failed(
                self.table().all(),
                self.table().account(),
                path@,
                e,
            ),
            self.faithful() ==> (r matches Err(e) ==> malformed_at(self.table().records(), path@)
                || seek_failed(self.table().all(), self.table().account(), path@, e)),
    {
        let r = read_node(&self.records, &self.cache, path);
        proof {
            if r is Err && node_read_failed(self.records, path@, r->Err_0) {
                let e = r->Err_0;
                let table = self.records;
                let failed2 = seek_error(table.all(), table.account(), e);
                let found2 = seek_found(table.all(), table.account());
                assert forall|p: Seq<u8>| #[trigger] record_error(table, e)(p) implies failed2(p) by {
                    let q = choose|q: Nibbles|
                        q@ == p && #[trigger] call_ensures(
                            AccountRecords::<S>::record,
                            (&table, &q),
                            Err::<Option<Vec<u8>>, DatabaseError>(e),
                        );
                    assert(call_ensures(
                        S::seek_by_key_subkey,
                        (&table.all(), &table.account(), &q),
                        Err::<Option<StorageNodeEntry>, DatabaseError>(e),
                    ));
                }
                assert forall|p: Seq<u8>, v: Seq<u8>| #[trigger]
                    record_found(table)(p, v) implies found2(p, v) by {
                    let (q, w) = choose|q: Nibbles, w: Vec<u8>|
                        q@ == p && w@ == v && #[trigger] call_ensures(
                            AccountRecords::<S>::record,
                            (&table, &q),
                            Ok::<Option<Vec<u8>>, DatabaseError>(Some(w)),
                        );
                    assert(found2(q@, w@));
                }
                lemma_failed_wider(
                    path@,
                    record_error(table, e),
                    record_found(table),
                    failed2,
                    found2,
                );
            }
        }
        r
    }
}

/// Records in memory.
#[derive(Debug, PartialEq, Eq)]
pub struct RecordTable {
    /// The records by path.
    pub entries: VecMap<Nibbles, Vec<u8>>,
}

/// The views of records.
pub open spec fn record_views(m: Map<Seq<u8>, Vec<u8>>) -> Records {
    m.map_values(|v: Vec<u8>| v@)
}

impl NodeRecords for RecordTable {
    open spec fn records(&self) -> Records {
        record_views(self.entries@)
    }

    open spec fn faithful(&self) -> bool {
        true
    }

    open spec fn reliable(&self) -> bool {
        true
    }

    fn record(&self, path: &Nibbles) -> (r: Result<Option<Vec<u8>>, DatabaseError>) {
        match self.entries.get(path) {
            Some(v) => Ok(Some(slice_to_vec(v.as_slice()))),
            None => Ok(None),
        }
    }
}

/// Records of storage tries in memory.
#[derive(Debug, PartialEq, Eq)]
pub struct StorageRecordTable {
    /// The records by hashed address and path.
    pub accounts: VecMap<B256, RecordTable>,
}

impl StorageRecords for StorageRecordTable {
    open spec fn storage_records(&self, hashed_address: Seq<u8>) -> Records {
        if self.accounts@.contains_key(hashed_address) {
            self.accounts@[hashed_address].records()
        } else {
            Map::empty()
        }
    }

    open spec fn faithful(&self) -> bool {
        true
    }

    open spec fn reliable(&self) -> bool {
        true
    }

    fn seek_by_key_subkey(&self, hashed_address: &B256, path: &Nibbles) -> (r: Result<
        Option<StorageNodeEntry>,
        DatabaseError,
    >) {
        let table = match self.accounts.get(hashed_address) {
            Some(table) => table,
            None => return Ok(None),
        };
        let ghost records = table.records();
        let n = table.entries.len();
        let ghost listing = table.entries.listing();
        let mut best: Option<usize> = None;
        let mut i: usize = 0;
        while i < n
            invariant
                i <= n,
                n == listing.len(),
                listing == table.entries.listing(),
                best matches Some(b) ==> b < i && lex_le(path@, listing[b as int].0@),
                forall|j: int|
                    0 <= j < i && lex_le(path@, (#[trigger] listing[j]).0@) ==> best is Some
                        && lex_le(listing[best->0 as int].0@, listing[j].0@),
            decreases n - i,
        {
            let (p, _) = table.entries.entry(i);
            proof {
                lemma_lex_total(p@, p@);
            }
            if at_most(path.as_slice(), p.as_slice()) {
                match best {
                    Some(b) => {
                        let (q, _) = table.entries.entry(b);
                        proof {
                            lemma_lex_total(p@, q@);
                        }
                        if at_most(p.as_slice(), q.as_slice()) {
                            proof {
                                assert forall|j: int|
                                    0 <= j < i && lex_le(
                                        path@,
                                        (#[trigger] listing[j]).0@,
                                    ) implies lex_le(p@, listing[j].0@) by {
                                    lemma_lex_trans(p@, q@, listing[j].0@);
                                }
                            }
                            best = Some(i);
                        }
                    },
                    None => {
                        best = Some(i);
                    },
                }
            }
            i += 1;
        }
        proof {
            assert forall|q: Seq<u8>| #[trigger] records.contains_key(q) implies exists|j: int|
                0 <= j < listing.len() && (#[trigger] listing[j]).0@ == q by {
                assert(has_entry(listing, q));
                let j = choose|j: int| 0 <= j < listing.len() && (#[trigger] listing[j]).0.key() == q;
                assert(listing[j].0@ == q);
            }
        }
        match best {
            Some(b) => {
                let (p, v) = table.entries.entry(b);
                proof {
                    assert forall|q: Seq<u8>| #[trigger]
                        records.contains_key(q) && lex_le(path@, q) implies lex_le(p@, q) by {
                        let j = choose|j: int|
                            0 <= j < listing.len() && (#[trigger] listing[j]).0@ == q;
                        assert(listing[j].0@ == q);
                    }
                }
                Ok(Some(StorageNodeEntry { path: p.copied(), node: slice_to_vec(v.as_slice()) }))
            },
            None => {
                proof {
                    assert forall|q: Seq<u8>| #[trigger] records.contains_key(q) implies !lex_le(
                        path@,
                        q,
                    ) by {
                        let j = choose|j: int|
                            0 <= j < listing.len() && (#[trigger] listing[j]).0@ == q;
                        assert(listing[j].0@ == q);
                    }
                }
                Ok(None)
            },
        }
    }
}

} // verus!
