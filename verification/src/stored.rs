//! The bytes of a stored node.

use vstd::pervasive::unreached;
use vstd::prelude::*;
use vstd::slice::{slice_subrange, slice_to_vec};

use crate::bytes::append_slice;
use crate::nibbles::{all_nibbles, Nibbles};
use crate::node::{cleared, flat, slot_view, slots_view, FlagV, Node, NodeFlag, NodeV};
use crate::rlp::RlpNode;

verus! {

/// A stored node: a version byte, a type byte, and what the type calls for.
pub type StoredNode = Vec<u8>;

/// The types of nodes.
#[derive(Debug, Clone, Copy, PartialEq, Eq, Structural)]
pub enum NodeType {
    /// A branch.
    FullNode,
    /// An extension or a leaf.
    ShortNode,
    /// A value.
    ValueNode,
    /// A reference.
    HashNode,
}

impl NodeType {
    /// The byte of a type.
    pub open spec fn byte(self) -> u8 {
        match self {
            NodeType::FullNode => 0,
            NodeType::ShortNode => 1,
            NodeType::ValueNode => 2,
            NodeType::HashNode => 3,
        }
    }

    /// The byte of a type.
    pub fn to_u8(self) -> (r: u8)
        ensures
            r == self.byte(),
            self == NodeType::FullNode ==> r == 0,
            self == NodeType::ShortNode ==> r == 1,
            self == NodeType::ValueNode ==> r == 2,
            self == NodeType::HashNode ==> r == 3,
    {
        match self {
            NodeType::FullNode => 0,
            NodeType::ShortNode => 1,
            NodeType::ValueNode => 2,
            NodeType::HashNode => 3,
        }
    }

    /// The type with byte `v`.
    pub fn from_u8(v: u8) -> (r: Option<NodeType>)
        ensures
            r is Some <==> v < 4,
            r matches Some(t) ==> t.byte() == v,
    {
        match v {
            0 => Some(NodeType::FullNode),
            1 => Some(NodeType::ShortNode),
            2 => Some(NodeType::ValueNode),
            3 => Some(NodeType::HashNode),
            _ => None,
        }
    }
}

/// A byte string after its length. The length is kept in one byte, so that it is only right for
/// strings of fewer than 256 bytes.
pub open spec fn counted(s: Seq<u8>) -> Seq<u8> {
    seq![(s.len() % 256) as u8] + s
}

/// The first `n` slots of a branch.
pub open spec fn slots_bytes(ch: Seq<Option<NodeV>>, n: nat) -> Seq<u8>
    decreases n,
{
    if n == 0 {
        Seq::empty()
    } else {
        slots_bytes(ch, (n - 1) as nat) + match ch[n - 1] {
            Some(c) => seq![1u8] + counted(c->Hash_0),
            None => seq![0u8],
        }
    }
}

/// A value or a reference: its type and its bytes.
pub open spec fn end_bytes(n: NodeV) -> Seq<u8> {
    match n {
        NodeV::Hash(r) => seq![3u8] + counted(r),
        NodeV::Value(v) => seq![2u8] + counted(v),
        _ => Seq::empty(),
    }
}

/// The bytes of a node that holds no other node.
pub open spec fn stored_bytes(n: NodeV) -> Seq<u8> {
    seq![0u8] + match n {
        NodeV::Full(ch, _) => seq![0u8] + slots_bytes(ch, ch.len()),
        NodeV::Short(key, next, _) => seq![1u8] + counted(key) + end_bytes(*next),
        _ => end_bytes(n),
    }
}

/// The byte string after the length at position `i`, and the position after it.
pub open spec fn counted_at(b: Seq<u8>, i: int) -> Option<(Seq<u8>, int)> {
    if 0 <= i < b.len() && i + 1 + b[i] <= b.len() {
        Some((b.subrange(i + 1, i + 1 + b[i]), i + 1 + b[i]))
    } else {
        None
    }
}

/// The reference after the length at position `i`, and the position after it.
pub open spec fn reference_at(b: Seq<u8>, i: int) -> Option<(Seq<u8>, int)> {
    match counted_at(b, i) {
        Some((r, j)) => if r.len() <= 33 {
            Some((r, j))
        } else {
            None
        },
        None => None,
    }
}

/// The `n` slots from position `i` on, and the position after them.
pub open spec fn slots_at(b: Seq<u8>, i: int, n: nat) -> Option<(Seq<Option<NodeV>>, int)>
    decreases n,
{
    if n == 0 {
        Some((Seq::empty(), i))
    } else {
        match slots_at(b, i, (n - 1) as nat) {
            Some((s, j)) => if j >= b.len() {
                None
            } else if b[j] == 1 {
                match reference_at(b, j + 1) {
                    Some((r, k)) => Some((s.push(Some(NodeV::Hash(r))), k)),
                    None => None,
                }
            } else {
                Some((s.push(None), j + 1))
            },
            None => None,
        }
    }
}

/// The value or reference with its type at position `i`.
pub open spec fn end_at(b: Seq<u8>, i: int) -> Option<NodeV> {
    if i >= b.len() {
        None
    } else if b[i] == 3 {
        match reference_at(b, i + 1) {
            Some((r, _)) => Some(NodeV::Hash(r)),
            None => None,
        }
    } else if b[i] == 2 {
        match counted_at(b, i + 1) {
            Some((v, _)) => Some(NodeV::Value(v)),
            None => None,
        }
    } else {
        None
    }
}

/// The node that `b` stores. Bytes after it are left alone.
pub open spec fn stored_node(b: Seq<u8>) -> Option<NodeV> {
    let f = FlagV { rlp: None, dirty: false };
    if b.len() < 2 || b[0] != 0 {
        None
    } else if b[1] == 0 {
        match slots_at(b, 2, 17) {
            Some((ch, _)) => Some(NodeV::Full(ch, f)),
            None => None,
        }
    } else if b[1] == 1 {
        match counted_at(b, 2) {
            Some((key, i)) => if key.len() <= 64 {
                match end_at(b, i) {
                    Some(n) => Some(
                        NodeV::Short(key.map_values(|x: u8| x % 16), Box::new(n), f),
                    ),
                    None => None,
                }
            } else {
                None
            },
            None => None,
        }
    } else {
        end_at(b, 1)
    }
}

/// Appends a byte string after its length.
fn put_counted(out: &mut Vec<u8>, s: &[u8])
    ensures
        final(out)@ == old(out)@ + counted(s@),
{
    let n: usize = s.len() % 256;
    out.push(n as u8);
    append_slice(out, s);
    assert(out@ =~= old(out)@ + counted(s@));
}

/// Appends a value or a reference.
fn put_end(out: &mut Vec<u8>, n: &Node)
    requires
        n@ is Hash || n@ is Value,
    ensures
        final(out)@ == old(out)@ + end_bytes(n@),
{
    match n {
        Node::HashNode(rlp) => {
            out.push(NodeType::HashNode.to_u8());
            put_counted(out, rlp.as_slice());
        },
        Node::ValueNode(value) => {
            out.push(NodeType::ValueNode.to_u8());
            put_counted(out, value.as_slice());
        },
        _ => unreached(),
    }
    assert(out@ =~= old(out)@ + end_bytes(n@));
}

/// The byte string after the length at position `i`, and the position after it.
fn get_counted(b: &[u8], i: usize) -> (r: Option<(&[u8], usize)>)
    ensures
        match r {
            Some((s, j)) => counted_at(b@, i as int) == Some((s@, j as int)),
            None => counted_at(b@, i as int) is None,
        },
{
    if i >= b.len() {
        return None;
    }
    let n = b[i] as usize;
    if n > b.len() - i - 1 {
        return None;
    }
    Some((slice_subrange(b, i + 1, i + 1 + n), i + 1 + n))
}

/// The reference after the length at position `i`, and the position after it.
fn get_reference(b: &[u8], i: usize) -> (r: Option<(RlpNode, usize)>)
    ensures
        match r {
            Some((s, j)) => reference_at(b@, i as int) == Some((s@, j as int)),
            None => reference_at(b@, i as int) is None,
        },
{
    match get_counted(b, i) {
        Some((s, j)) => match RlpNode::from_raw(s) {
            Some(rlp) => Some((rlp, j)),
            None => None,
        },
        None => None,
    }
}

/// The value or reference with its type at position `i`.
fn get_end(b: &[u8], i: usize) -> (r: Option<Node>)
    requires
        i < usize::MAX,
    ensures
        match r {
            Some(n) => end_at(b@, i as int) == Some(n@),
            None => end_at(b@, i as int) is None,
        },
{
    if i >= b.len() {
        return None;
    }
    match NodeType::from_u8(b[i]) {
        Some(NodeType::HashNode) => match get_reference(b, i + 1) {
            Some((rlp, _)) => Some(Node::HashNode(rlp)),
            None => None,
        },
        Some(NodeType::ValueNode) => match get_counted(b, i + 1) {
            Some((value, _)) => Some(Node::ValueNode(slice_to_vec(value))),
            None => None,
        },
        _ => None,
    }
}

impl Node {
    /// The bytes of the node. Only a node that holds no other node can be stored.
    pub fn into_stored(self) -> (r: StoredNode)
        requires
            flat(self@),
        ensures
            r@ == stored_bytes(self@),
    {
        let mut buf: Vec<u8> = Vec::with_capacity(320);
        buf.push(0);
        match &self {
            Node::FullNode { children, flags: _ } => {
                buf.push(NodeType::FullNode.to_u8());
                let ghost ch = slots_view(children@);
                let ghost head = buf@;
                let mut i: usize = 0;
                while i < children.len()
                    invariant
                        i <= children@.len(),
                        ch == slots_view(children@),
                        forall|j: int|
                            0 <= j < ch.len() ==> (#[trigger] ch[j] matches Some(c) ==> c is Hash),
                        buf@ == head + slots_bytes(ch, i as nat),
                    decreases children@.len() - i,
                {
                    assert(ch[i as int] == slot_view(children@[i as int]));
                    let ghost before = buf@;
                    match &children[i] {
                        Some(child) => {
                            buf.push(1);
                            match &**child {
                                Node::HashNode(rlp) => put_counted(&mut buf, rlp.as_slice()),
                                _ => unreached(),
                            }
                        },
                        None => buf.push(0),
                    }
                    assert(buf@ =~= head + slots_bytes(ch, (i + 1) as nat));
                    i += 1;
                }
                assert(buf@ =~= stored_bytes(self@));
            },
            Node::ShortNode { key, value, flags: _ } => {
                buf.push(NodeType::ShortNode.to_u8());
                put_counted(&mut buf, key.as_slice());
                put_end(&mut buf, value);
                assert(buf@ =~= stored_bytes(self@));
            },
            other => {
                put_end(&mut buf, other);
                assert(buf@ =~= stored_bytes(self@));
            },
        }
        buf
    }

    /// The node that `value` stores, where it stores one.
    pub fn try_from_stored(value: &[u8]) -> (r: Option<Node>)
        ensures
            match r {
                Some(n) => stored_node(value@) == Some(n@),
                None => stored_node(value@) is None,
            },
    {
        if value.len() < 2 || value[0] != 0 {
            return None;
        }
        match NodeType::from_u8(value[1]) {
            Some(NodeType::FullNode) => {
                let mut children: Vec<Option<Box<Node>>> = Vec::with_capacity(17);
                let mut i: usize = 2;
                let mut n: usize = 0;
                assert(slots_view(children@) =~= Seq::<Option<NodeV>>::empty());
                while n < 17
                    invariant
                        n <= 17,
                        i <= value@.len(),
                        value@.len() >= 2,
                        value@[0] == 0,
                        value@[1] == 0,
                        slots_at(value@, 2, n as nat) == Some((slots_view(children@), i as int)),
                    decreases 17 - n,
                {
                    let ghost before = slots_view(children@);
                    if i >= value.len() {
                        proof {
                            lemma_no_slots(value@, 2, (n + 1) as nat, 17);
                        }
                        return None;
                    }
                    let marker = value[i];
                    i += 1;
                    if marker == 1 {
                        match get_reference(value, i) {
                            Some((rlp, next)) => {
                                i = next;
                                let ghost r = rlp@;
                                children.push(Some(Box::new(Node::HashNode(rlp))));
                                assert(slots_view(children@) =~= before.push(Some(NodeV::Hash(r))));
                            },
                            None => {
                                proof {
                                    lemma_no_slots(value@, 2, (n + 1) as nat, 17);
                                }
                                return None;
                            },
                        }
                    } else {
                        children.push(None);
                        assert(slots_view(children@) =~= before.push(None));
                    }
                    n += 1;
                }
                Some(Node::FullNode { children, flags: NodeFlag::new(None) })
            },
            Some(NodeType::ShortNode) => match get_counted(value, 2) {
                Some((key_bytes, i)) => {
                    if key_bytes.len() > 64 || i >= value.len() {
                        return None;
                    }
                    let key = Nibbles::from_nibbles_unchecked(key_bytes);
                    match get_end(value, i) {
                        Some(next) => Some(
                            Node::ShortNode {
                                key,
                                value: Box::new(next),
                                flags: NodeFlag::new(None),
                            },
                        ),
                        None => None,
                    }
                },
                None => None,
            },
            _ => get_end(value, 1),
        }
    }

    /// The node that `value` stores.
    pub fn from_stored(value: StoredNode) -> (r: Node)
        requires
            stored_node(value@) is Some,
        ensures
            Some(r@) == stored_node(value@),
    {
        Node::try_from_stored(value.as_slice()).unwrap()
    }
}

/// A stored node of a storage trie together with its path, by which it is found among the nodes
/// of one account.
#[derive(Debug, PartialEq, Eq)]
pub struct StorageNodeEntry {
    /// The path.
    pub path: Nibbles,
    /// The node.
    pub node: StoredNode,
}

impl StorageNodeEntry {
    /// The entry for a node.
    pub fn new(path: Nibbles, node: Node) -> (r: StorageNodeEntry)
        requires
            flat(node@),
        ensures
            r.path@ == path@,
            r.node@ == stored_bytes(node@),
    {
        StorageNodeEntry { path, node: node.into_stored() }
    }

    /// The entry for a node that stays where it is.
    pub fn create(path: &Nibbles, node: &Node) -> (r: StorageNodeEntry)
        requires
            flat(node@),
        ensures
            r.path@ == path@,
            r.node@ == stored_bytes(node@),
    {
        StorageNodeEntry::new(path.copied(), node.clone())
    }
}

/// Where some slots cannot be read, more cannot be read either.
proof fn lemma_no_slots(b: Seq<u8>, i: int, n: nat, m: nat)
    requires
        n <= m,
        slots_at(b, i, n) is None,
    ensures
        slots_at(b, i, m) is None,
    decreases m,
{
    if n < m {
        lemma_no_slots(b, i, n, (m - 1) as nat);
    }
}

/// `n` can be stored and read back: it holds no other node, a branch has 17 slots, references
/// are no longer than an encoded hash, and paths and values are not too long.
pub open spec fn storable_node(n: NodeV) -> bool {
    &&& flat(n)
    &&& match n {
        NodeV::Full(ch, _) => ch.len() == 17 && forall|i: int|
            0 <= i < ch.len() ==> (#[trigger] ch[i] matches Some(c) ==> c->Hash_0.len() <= 33),
        NodeV::Short(key, next, _) => key.len() <= 64 && all_nibbles(key) && storable_end(*next),
        _ => storable_end(n),
    }
}

/// A value or a reference that is not too long.
pub open spec fn storable_end(n: NodeV) -> bool {
    match n {
        NodeV::Hash(r) => r.len() <= 33,
        NodeV::Value(v) => v.len() <= 255,
        _ => false,
    }
}

/// A byte string that was written after its length is read back.
proof fn lemma_counted(head: Seq<u8>, s: Seq<u8>, tail: Seq<u8>)
    requires
        s.len() <= 255,
    ensures
        counted_at(head + counted(s) + tail, head.len() as int) == Some(
            (s, (head.len() + counted(s).len()) as int),
        ),
{
    let b = head + counted(s) + tail;
    let i = head.len() as int;
    assert(b[i] == s.len());
    assert(b.subrange(i + 1, i + 1 + s.len()) =~= s);
}

/// A value or a reference that was written is read back.
proof fn lemma_end(head: Seq<u8>, n: NodeV)
    requires
        storable_end(n),
    ensures
        end_at(head + end_bytes(n), head.len() as int) == Some(n),
{
    let b = head + end_bytes(n);
    match n {
        NodeV::Hash(r) => {
            lemma_counted(head.push(3), r, Seq::empty());
            assert(b =~= head.push(3) + counted(r) + Seq::<u8>::empty());
        },
        NodeV::Value(v) => {
            lemma_counted(head.push(2), v, Seq::empty());
            assert(b =~= head.push(2) + counted(v) + Seq::<u8>::empty());
        },
        _ => {},
    }
}

/// The slots of a branch that were written are read back.
proof fn lemma_slots(head: Seq<u8>, ch: Seq<Option<NodeV>>, n: nat, m: nat)
    requires
        n <= m <= ch.len(),
        forall|i: int|
            0 <= i < ch.len() ==> (#[trigger] ch[i] matches Some(c) ==> c is Hash
                && c->Hash_0.len() <= 33),
    ensures
        slots_at(head + slots_bytes(ch, m), head.len() as int, n) == Some(
            (ch.take(n as int), (head.len() + slots_bytes(ch, n).len()) as int),
        ),
        slots_bytes(ch, n).len() <= slots_bytes(ch, m).len(),
        slots_bytes(ch, m).take(slots_bytes(ch, n).len() as int) == slots_bytes(ch, n),
    decreases m, n,
{
    lemma_slots_prefix(ch, n, m);
    if n == 0 {
        assert(ch.take(0) =~= Seq::empty());
    } else {
        let k = (n - 1) as nat;
        lemma_slots(head, ch, k, m);
        lemma_slots_prefix(ch, k, m);
        let b = head + slots_bytes(ch, m);
        let done = head + slots_bytes(ch, k);
        let j = done.len() as int;
        let upto = head + slots_bytes(ch, n);
        assert(upto =~= b.take(upto.len() as int));
        assert(ch.take(n as int) =~= ch.take(k as int).push(ch[k as int]));
        match ch[k as int] {
            Some(c) => {
                let r = c->Hash_0;
                let rest = b.skip(upto.len() as int);
                lemma_counted(done.push(1), r, rest);
                assert(upto =~= done.push(1) + counted(r));
                assert(b =~= upto + rest);
                assert(b[j] == upto[j]);
                assert(b[j] == 1);
            },
            None => {
                assert(upto =~= done.push(0));
                assert(b[j] == upto[j]);
            },
        }
    }
}

/// The first slots come first.
proof fn lemma_slots_prefix(ch: Seq<Option<NodeV>>, n: nat, m: nat)
    requires
        n <= m,
    ensures
        slots_bytes(ch, n).len() <= slots_bytes(ch, m).len(),
        slots_bytes(ch, m).take(slots_bytes(ch, n).len() as int) == slots_bytes(ch, n),
    decreases m,
{
    if n == m {
        assert(slots_bytes(ch, m).take(slots_bytes(ch, m).len() as int) =~= slots_bytes(ch, m));
    } else {
        lemma_slots_prefix(ch, n, (m - 1) as nat);
        let a = slots_bytes(ch, n);
        let b = slots_bytes(ch, (m - 1) as nat);
        let c = slots_bytes(ch, m);
        assert(c.take(a.len() as int) =~= b.take(a.len() as int));
    }
}

/// What stands for a slot of a branch: 0 where it is free, and otherwise 1, the length of the
/// reference and the reference.
pub open spec fn slot_item(slot: Option<NodeV>) -> Seq<u8> {
    match slot {
        Some(NodeV::Hash(r)) => seq![1u8, (r.len() % 256) as u8] + r,
        _ => seq![0u8],
    }
}

/// Slots one after the other.
proof fn lemma_slot_items(ch: Seq<Option<NodeV>>, n: nat)
    requires
        n <= ch.len(),
        forall|i: int| 0 <= i < ch.len() ==> (#[trigger] ch[i] matches Some(c) ==> c is Hash),
    ensures
        slots_bytes(ch, n) == Seq::new(n, |i: int| slot_item(ch[i])).flatten(),
    decreases n,
{
    let items = Seq::new(n, |i: int| slot_item(ch[i]));
    if n > 0 {
        let m = (n - 1) as nat;
        let before = Seq::new(m, |i: int| slot_item(ch[i]));
        lemma_slot_items(ch, m);
        let item = slot_item(ch[m as int]);
        assert(items =~= before.push(item));
        before.lemma_flatten_push(item);
        match ch[m as int] {
            Some(c) => {
                let r = c->Hash_0;
                assert(seq![1u8] + counted(r) =~= seq![1u8, (r.len() % 256) as u8] + r);
            },
            None => {},
        }
        assert(slots_bytes(ch, n) =~= slots_bytes(ch, m) + item);
    } else {
        assert(items =~= Seq::empty());
    }
}

/// A branch is stored as two zero bytes and all of its slots, one after the other.
pub proof fn law_stored_branch(ch: Seq<Option<NodeV>>, flag: FlagV)
    requires
        forall|i: int| 0 <= i < ch.len() ==> (#[trigger] ch[i] matches Some(c) ==> c is Hash),
    ensures
        stored_bytes(NodeV::Full(ch, flag)) == seq![0u8, 0u8] + Seq::new(
            ch.len(),
            |i: int| slot_item(ch[i]),
        ).flatten(),
{
    lemma_slot_items(ch, ch.len());
    assert(stored_bytes(NodeV::Full(ch, flag)) =~= seq![0u8, 0u8] + slots_bytes(ch, ch.len()));
}

/// A leaf is stored as the bytes 0 and 1, the length of its path, the path, the byte 2, the length
/// of its value and the value. An extension has the byte 3 and its reference in place of the
/// last three.
pub proof fn law_stored_short(key: Seq<u8>, end: Seq<u8>, flag: FlagV)
    requires
        key.len() < 256,
        end.len() < 256,
    ensures
        stored_bytes(NodeV::Short(key, Box::new(NodeV::Value(end)), flag)) == seq![
            0u8,
            1u8,
            key.len() as u8,
        ] + key + seq![2u8, end.len() as u8] + end,
        stored_bytes(NodeV::Short(key, Box::new(NodeV::Hash(end)), flag)) == seq![
            0u8,
            1u8,
            key.len() as u8,
        ] + key + seq![3u8, end.len() as u8] + end,
{
    assert(stored_bytes(NodeV::Short(key, Box::new(NodeV::Value(end)), flag)) =~= seq![
        0u8,
        1u8,
        key.len() as u8,
    ] + key + seq![2u8, end.len() as u8] + end);
    assert(stored_bytes(NodeV::Short(key, Box::new(NodeV::Hash(end)), flag)) =~= seq![
        0u8,
        1u8,
        key.len() as u8,
    ] + key + seq![3u8, end.len() as u8] + end);
}

/// A value or a reference by itself is stored as the byte 0, its type, its length and its bytes.
pub proof fn law_stored_end(end: Seq<u8>)
    requires
        end.len() < 256,
    ensures
        stored_bytes(NodeV::Value(end)) == seq![0u8, 2u8, end.len() as u8] + end,
        stored_bytes(NodeV::Hash(end)) == seq![0u8, 3u8, end.len() as u8] + end,
{
    assert(stored_bytes(NodeV::Value(end)) =~= seq![0u8, 2u8, end.len() as u8] + end);
    assert(stored_bytes(NodeV::Hash(end)) =~= seq![0u8, 3u8, end.len() as u8] + end);
}

/// Bytes that do not begin with the version, or end before their type, store no node.
pub proof fn law_no_stored_node(b: Seq<u8>)
    requires
        b.len() < 2 || b[0] != 0 || b[1] > 3,
    ensures
        stored_node(b) is None,
{
}

/// Reading a stored node gives back what was stored, but for the flag.
pub proof fn law_stored_round_trip(n: NodeV)
    requires
        storable_node(n),
    ensures
        stored_node(stored_bytes(n)) == Some(cleared(n)),
{
    let b = stored_bytes(n);
    match n {
        NodeV::Full(ch, _) => {
            let head = seq![0u8, 0u8];
            assert(b =~= head + slots_bytes(ch, 17));
            lemma_slots(head, ch, 17, 17);
            assert(ch.take(17) =~= ch);
        },
        NodeV::Short(key, next, _) => {
            let head = seq![0u8, 1u8];
            assert(b =~= head + counted(key) + end_bytes(*next));
            lemma_counted(head, key, end_bytes(*next));
            lemma_end(head + counted(key), *next);
            assert(key.map_values(|x: u8| x % 16) =~= key);
        },
        _ => {
            lemma_end(seq![0u8], n);
            assert(b[1] == 2 || b[1] == 3);
        },
    }
}

/// The slots that are read depend on the bytes up to their end alone.
proof fn lemma_slots_with_tail(b: Seq<u8>, tail: Seq<u8>, i: int, n: nat)
    requires
        0 <= i,
        slots_at(b, i, n) is Some,
        (slots_at(b, i, n)->0).1 <= b.len(),
    ensures
        slots_at(b + tail, i, n) == slots_at(b, i, n),
    decreases n,
{
    let c = b + tail;
    if n > 0 {
        let m = (n - 1) as nat;
        let (s, j) = slots_at(b, i, m)->0;
        lemma_slots_from(b, i, m);
        assert(j < b.len());
        lemma_slots_with_tail(b, tail, i, m);
        assert(c[j] == b[j]);
        if b[j] == 1 {
            let (r, k) = reference_at(b, j + 1)->0;
            assert(j + 1 < b.len() && k <= b.len());
            assert(c[j + 1] == b[j + 1]);
            assert(c.subrange(j + 2, k) =~= b.subrange(j + 2, k));
        }
    }
}

/// Slots are read from the position given on.
proof fn lemma_slots_from(b: Seq<u8>, i: int, n: nat)
    requires
        slots_at(b, i, n) is Some,
    ensures
        i <= (slots_at(b, i, n)->0).1,
        (slots_at(b, i, n)->0).0.len() == n,
    decreases n,
{
    if n > 0 {
        lemma_slots_from(b, i, (n - 1) as nat);
    }
}

/// Bytes after a stored node do not matter.
pub proof fn law_bytes_after_a_stored_node(n: NodeV, tail: Seq<u8>)
    requires
        storable_node(n),
    ensures
        stored_node(stored_bytes(n) + tail) == Some(cleared(n)),
{
    law_stored_round_trip(n);
    let b = stored_bytes(n);
    let c = b + tail;
    assert(c[0] == b[0] && c[1] == b[1]);
    match n {
        NodeV::Full(ch, _) => {
            let head = seq![0u8, 0u8];
            assert(b =~= head + slots_bytes(ch, 17));
            lemma_slots(head, ch, 17, 17);
            lemma_slots_with_tail(b, tail, 2, 17);
        },
        NodeV::Short(key, next, _) => {
            let head = seq![0u8, 1u8];
            assert(b =~= head + counted(key) + end_bytes(*next));
            assert(c =~= head + counted(key) + (end_bytes(*next) + tail));
            lemma_counted(head, key, end_bytes(*next) + tail);
            lemma_end_with_tail(head + counted(key), *next, tail);
            assert(c =~= head + counted(key) + end_bytes(*next) + tail);
            assert(key.map_values(|x: u8| x % 16) =~= key);
        },
        _ => {
            lemma_end_with_tail(seq![0u8], n, tail);
            assert(c =~= seq![0u8] + end_bytes(n) + tail);
            assert(b[1] == 2 || b[1] == 3);
        },
    }
}

/// A value or a reference that was written is read back, whatever follows it.
proof fn lemma_end_with_tail(head: Seq<u8>, n: NodeV, tail: Seq<u8>)
    requires
        storable_end(n),
    ensures
        end_at(head + end_bytes(n) + tail, head.len() as int) == Some(n),
{
    let b = head + end_bytes(n) + tail;
    match n {
        NodeV::Hash(r) => {
            lemma_counted(head.push(3), r, tail);
            assert(b =~= head.push(3) + counted(r) + tail);
        },
        NodeV::Value(v) => {
            lemma_counted(head.push(2), v, tail);
            assert(b =~= head.push(2) + counted(v) + tail);
        },
        _ => {},
    }
}

/// A node that was stored cut off before its end is no node.
pub proof fn law_cut_off_short_node(key: Seq<u8>, end: Seq<u8>, kind: u8, m: int)
    requires
        key.len() <= 64,
        end.len() < 256,
        0 <= m < 3 + key.len() + 2 + end.len(),
    ensures
        stored_node(
            (seq![0u8, 1u8, key.len() as u8] + key + seq![kind, end.len() as u8] + end).take(m),
        ) is None,
{
    let whole = seq![0u8, 1u8, key.len() as u8] + key + seq![kind, end.len() as u8] + end;
    let b = whole.take(m);
    let k = key.len() as int;
    if m > 3 + k {
        assert(b[0] == 0 && b[1] == 1 && b[2] == k);
        assert(b[3 + k] == kind);
        if m > 4 + k {
            assert(b[4 + k] == end.len());
        }
    } else if m > 2 {
        assert(b[0] == 0 && b[1] == 1 && b[2] == k);
    } else if m == 2 {
        assert(b[0] == 0 && b[1] == 1);
    }
}

/// The slots of a branch are read one after the other: the byte 1 is followed by a reference with
/// its length, and any other byte stands for a free slot.
pub proof fn law_slots_are_read(b: Seq<u8>, i: int, n: nat)
    requires
        slots_at(b, i, n) is Some,
    ensures
        ({
            let (before, j) = slots_at(b, i, n)->0;
            let next = slots_at(b, i, n + 1);
            &&& j >= b.len() ==> next is None
            &&& 0 <= j < b.len() && b[j] != 1 ==> next == Some((before.push(None), j + 1))
            &&& 0 <= j && j + 1 < b.len() && b[j] == 1 && b[j + 1] <= 33 && j + 2 + b[j + 1]
                <= b.len() ==> next == Some(
                (
                    before.push(Some(NodeV::Hash(b.subrange(j + 2, j + 2 + b[j + 1])))),
                    j + 2 + b[j + 1],
                ),
            )
            &&& 0 <= j < b.len() && b[j] == 1 && (j + 1 >= b.len() || b[j + 1] > 33 || j + 2
                + b[j + 1] > b.len()) ==> next is None
        }),
{
}

} // verus!
