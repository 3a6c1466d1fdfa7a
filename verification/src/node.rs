//! The nodes of a nested trie: a node holds its children directly, or by reference where they
//! have not been loaded.

use vstd::pervasive::unreached;
use vstd::prelude::*;
use vstd::slice::slice_to_vec;

use crate::bytes::append_slice;
use crate::nibbles::{all_nibbles, Nibbles};
use crate::rlp::{
    compact_path, encode_path_leaf, hash_of_reference, lemma_header_len, length_of_length,
    put_header, put_string, reference_to, referenced_hash, rlp_list, rlp_string, string_length,
    RlpNode, B256,
};

verus! {

/// Remembers how a node is referred to, and whether the node has changed. It is not stored with
/// the node.
#[derive(Debug, PartialEq, Eq)]
pub struct NodeFlag {
    /// How parents refer to the node, where that has been computed.
    pub rlp: Option<RlpNode>,
    /// Whether the node has changed.
    pub dirty: bool,
}

/// A node of the trie.
#[derive(Debug, PartialEq, Eq)]
pub enum Node {
    /// A branch.
    FullNode {
        /// One slot for every half-byte, and a last one that stays empty.
        children: Vec<Option<Box<Node>>>,
        /// The remembered reference and the mark of change.
        flags: NodeFlag,
    },
    /// An extension, or a leaf where `value` is a [`Node::ValueNode`].
    ShortNode {
        /// The shared path of an extension, or the end of a leaf's key.
        key: Nibbles,
        /// The next node, or the value of a leaf.
        value: Box<Node>,
        /// The remembered reference and the mark of change.
        flags: NodeFlag,
    },
    /// The value of a leaf.
    ValueNode(Vec<u8>),
    /// A reference to a node that has not been loaded.
    HashNode(RlpNode),
}

/// The mathematical view of a [`Node`].
pub ghost enum NodeV {
    /// Of [`Node::FullNode`].
    Full(Seq<Option<NodeV>>, FlagV),
    /// Of [`Node::ShortNode`].
    Short(Seq<u8>, Box<NodeV>, FlagV),
    /// Of [`Node::ValueNode`].
    Value(Seq<u8>),
    /// Of [`Node::HashNode`].
    Hash(Seq<u8>),
}

/// The mathematical view of a [`NodeFlag`].
pub ghost struct FlagV {
    /// The remembered reference.
    pub rlp: Option<Seq<u8>>,
    /// The mark of change.
    pub dirty: bool,
}

/// The view of a reference that may be missing.
pub open spec fn reference_view(rlp: Option<RlpNode>) -> Option<Seq<u8>> {
    match rlp {
        Some(r) => Some(r@),
        None => None,
    }
}

impl View for NodeFlag {
    type V = FlagV;

    open spec fn view(&self) -> FlagV {
        FlagV { rlp: reference_view(self.rlp), dirty: self.dirty }
    }
}

impl NodeFlag {
    /// The flag of an unchanged node.
    pub fn new(rlp: Option<RlpNode>) -> (r: NodeFlag)
        ensures
            r@ == (FlagV { rlp: reference_view(rlp), dirty: false }),
    {
        NodeFlag { rlp, dirty: false }
    }

    /// The flag of a changed node.
    pub fn dirty_node() -> (r: NodeFlag)
        ensures
            r@ == (FlagV { rlp: None, dirty: true }),
    {
        NodeFlag { rlp: None, dirty: true }
    }

    /// Notes a change, and forgets the reference that it made stale.
    pub fn mark_dirty(&mut self)
        ensures
            final(self)@ == (FlagV { rlp: None, dirty: true }),
    {
        self.rlp = None;
        self.dirty = true;
    }

    /// Forgets both the reference and the change.
    pub fn reset(&mut self)
        ensures
            final(self)@ == (FlagV { rlp: None, dirty: false }),
    {
        self.rlp = None;
        self.dirty = false;
    }

    /// An equal flag.
    pub fn copied(&self) -> (r: NodeFlag)
        ensures
            r@ == self@,
    {
        let rlp = match &self.rlp {
            Some(rlp) => Some(rlp.copied()),
            None => None,
        };
        NodeFlag { rlp, dirty: self.dirty }
    }
}

/// `n` holds no other node directly: the children of a branch are references, and a short node
/// ends in a value or a reference.
pub open spec fn flat(n: NodeV) -> bool {
    match n {
        NodeV::Full(ch, _) => forall|i: int|
            0 <= i < ch.len() ==> (#[trigger] ch[i] matches Some(c) ==> c is Hash),
        NodeV::Short(_, v, _) => *v is Hash || *v is Value,
        _ => true,
    }
}

/// The reference that `n` carries.
pub open spec fn cached(n: NodeV) -> Option<Seq<u8>> {
    match n {
        NodeV::Full(_, f) => f.rlp,
        NodeV::Short(_, _, f) => f.rlp,
        NodeV::Value(_) => None,
        NodeV::Hash(r) => Some(r),
    }
}

/// Whether `n` counts as changed.
pub open spec fn is_dirty(n: NodeV) -> bool {
    match n {
        NodeV::Full(_, f) => f.dirty,
        NodeV::Short(_, _, f) => f.dirty,
        NodeV::Value(_) => true,
        NodeV::Hash(_) => false,
    }
}

/// `n` with its own flag cleared.
pub open spec fn cleared(n: NodeV) -> NodeV {
    let f = FlagV { rlp: None, dirty: false };
    match n {
        NodeV::Full(ch, _) => NodeV::Full(ch, f),
        NodeV::Short(k, v, _) => NodeV::Short(k, v, f),
        _ => n,
    }
}

/// The items of a branch one after the other.
pub open spec fn slots_payload(ch: Seq<Option<NodeV>>, n: nat) -> Seq<u8>
    decreases ch, n,
{
    if n == 0 || n > ch.len() {
        Seq::empty()
    } else {
        slots_payload(ch, (n - 1) as nat) + match ch[n - 1] {
            Some(c) => node_reference(c),
            None => seq![0x80u8],
        }
    }
}

/// The encoding of a branch or a short node.
pub open spec fn node_rlp(n: NodeV) -> Seq<u8>
    decreases n, 0nat,
{
    match n {
        NodeV::Full(ch, _) => rlp_list(slots_payload(ch, ch.len())),
        NodeV::Short(key, v, _) => match *v {
            NodeV::Value(value) => rlp_list(
                rlp_string(compact_path(key, true)) + rlp_string(value),
            ),
            _ => rlp_list(rlp_string(compact_path(key, false)) + node_reference(*v)),
        },
        _ => Seq::empty(),
    }
}

/// How a parent refers to `n`: by the reference that `n` carries, or that of its encoding.
pub open spec fn node_reference(n: NodeV) -> Seq<u8>
    decreases n, 1nat,
{
    match cached(n) {
        Some(r) => r,
        None => reference_to(node_rlp(n)),
    }
}

/// A reference to `n` can be computed: where none is remembered, no value stands in a branch
/// or alone, no path is longer than 64 half-bytes, and no value is too long to be measured.
pub open spec fn hashable(n: NodeV) -> bool
    decreases n,
{
    cached(n) is Some || match n {
        NodeV::Full(ch, _) => slots_hashable(ch),
        NodeV::Short(key, v, _) => key.len() <= 64 && match *v {
            NodeV::Value(value) => value.len() <= usize::MAX - 64,
            _ => hashable(*v),
        },
        _ => false,
    }
}

/// `n` with the references remembered that its own reference depends on.
pub open spec fn filled(n: NodeV) -> NodeV
    decreases n,
{
    if cached(n) is Some {
        n
    } else {
        match n {
            NodeV::Full(ch, f) => NodeV::Full(
                slots_filled(ch),
                FlagV { rlp: Some(node_reference(n)), dirty: f.dirty },
            ),
            NodeV::Short(key, v, f) => NodeV::Short(
                key,
                Box::new(filled(*v)),
                FlagV { rlp: Some(node_reference(n)), dirty: f.dirty },
            ),
            _ => n,
        }
    }
}

/// [`filled`] of every slot.
pub open spec fn slots_filled(ch: Seq<Option<NodeV>>) -> Seq<Option<NodeV>>
    decreases ch,
{
    Seq::new(
        ch.len(),
        |i: int|
            if 0 <= i < ch.len() {
                match ch[i] {
                    Some(c) => Some(filled(c)),
                    None => None,
                }
            } else {
                None
            },
    )
}

/// [`hashable`] for every slot of a branch.
pub open spec fn slots_hashable(ch: Seq<Option<NodeV>>) -> bool
    decreases ch,
{
    &&& ch.len() == 17
    &&& forall|i: int|
        0 <= i < ch.len() ==> match #[trigger] ch[i] {
            Some(c) => hashable(c),
            None => true,
        }
}

/// The views of a branch's slots.
pub open spec fn slots_view(children: Seq<Option<Box<Node>>>) -> Seq<Option<NodeV>>
    decreases children,
{
    Seq::new(
        children.len(),
        |i: int|
            if 0 <= i < children.len() {
                match children[i] {
                    Some(c) => Some(c.view()),
                    None => None,
                }
            } else {
                None
            },
    )
}

/// The view of a slot.
pub open spec fn slot_view(child: Option<Box<Node>>) -> Option<NodeV> {
    match child {
        Some(c) => Some(c.view()),
        None => None,
    }
}

impl Node {
    /// The mathematical view.
    pub open spec fn view(&self) -> NodeV
        decreases self,
    {
        match self {
            Node::FullNode { children, flags } => NodeV::Full(slots_view(children@), flags@),
            Node::ShortNode { key, value, flags } => NodeV::Short(
                key@,
                Box::new(value.view()),
                flags@,
            ),
            Node::ValueNode(v) => NodeV::Value(v@),
            Node::HashNode(r) => NodeV::Hash(r@),
        }
    }

    /// The reference that the node carries.
    pub fn cached_rlp(&self) -> (r: Option<&RlpNode>)
        ensures
            r is Some <==> cached(self@) is Some,
            r matches Some(n) ==> cached(self@) == Some(n@),
    {
        match self {
            Node::FullNode { children: _, flags } => flags.rlp.as_ref(),
            Node::ShortNode { key: _, value: _, flags } => flags.rlp.as_ref(),
            Node::ValueNode(_) => None,
            Node::HashNode(rlp) => Some(rlp),
        }
    }

    /// Whether the node counts as changed.
    pub fn dirty(&self) -> (r: bool)
        ensures
            r == is_dirty(self@),
    {
        match self {
            Node::FullNode { children: _, flags } => flags.dirty,
            Node::ShortNode { key: _, value: _, flags } => flags.dirty,
            Node::ValueNode(_) => true,
            Node::HashNode(_) => false,
        }
    }

    /// The node with its own flag cleared.
    pub fn reset(self) -> (r: Node)
        ensures
            r@ == cleared(self@),
    {
        match self {
            Node::FullNode { children, flags: _ } => Node::FullNode {
                children,
                flags: NodeFlag::new(None),
            },
            Node::ShortNode { key, value, flags: _ } => Node::ShortNode {
                key,
                value,
                flags: NodeFlag::new(None),
            },
            other => other,
        }
    }
}

/// A node whose reference can be computed remembers it once it is [`filled`].
pub proof fn lemma_filled_reference(n: NodeV)
    requires
        hashable(n),
    ensures
        cached(filled(n)) == Some(node_reference(n)),
        node_reference(filled(n)) == node_reference(n),
{
}

/// One more item of a branch.
proof fn lemma_payload_step(ch: Seq<Option<NodeV>>, n: nat)
    requires
        n < ch.len(),
    ensures
        slots_payload(ch, n + 1) == slots_payload(ch, n) + match ch[n as int] {
            Some(c) => node_reference(c),
            None => seq![0x80u8],
        },
{
}

impl Node {
    /// Computes how a parent refers to the node and remembers it, here and in every child that
    /// it depends on. `buf` is scratch space; it is left with the node's encoding where that had
    /// to be written.
    #[verifier::rlimit(60)]
    pub fn build_hash(&mut self, buf: &mut Vec<u8>) -> (r: RlpNode)
        requires
            hashable(old(self)@),
        ensures
            final(self)@ == filled(old(self)@),
            r@ == node_reference(old(self)@),
            final(buf)@ == if cached(old(self)@) is Some {
                old(buf)@
            } else {
                node_rlp(old(self)@)
            },
        decreases old(self)@, 1nat,
    {
        match self {
            Node::FullNode { children, flags } => {
                match &flags.rlp {
                    Some(rlp) => rlp.copied(),
                    None => {
                        let ghost ch = slots_view(children@);
                        let ghost n = NodeV::Full(ch, flags@);
                        assert(old(self)@ == n);
                        assert(slots_hashable(ch));
                        assert(node_rlp(n) == rlp_list(slots_payload(ch, 17)));
                        let payload_length = branch_node_rlp_length(children, buf);
                        buf.clear();
                        put_header(true, payload_length, buf);
                        put_children(children, Ghost(ch), buf);
                        assert(buf@ =~= node_rlp(n));
                        let rlp = RlpNode::from_rlp(buf.as_slice());
                        let r = rlp.copied();
                        flags.rlp = Some(rlp);
                        r
                    },
                }
            },
            Node::ShortNode { key, value, flags } => {
                match &flags.rlp {
                    Some(rlp) => rlp.copied(),
                    None => {
                        proof {
                            use_type_invariant(&*key);
                        }
                        let ghost next = value@;
                        let leaf = matches!(**value, Node::ValueNode(_));
                        let payload_length = if let Node::ValueNode(value) = &**value {
                            assert(next == NodeV::Value(value@));
                            leaf_node_rlp_length(key, value.as_slice())
                        } else {
                            extension_node_rlp_length(key, value, buf)
                        };
                        buf.clear();
                        put_header(true, payload_length, buf);
                        put_string(encode_path_leaf(key.as_slice(), leaf).as_slice(), buf);
                        if let Node::ValueNode(value) = &**value {
                            put_string(value.as_slice(), buf);
                        } else {
                            proof {
                                lemma_filled_reference(next);
                            }
                            append_slice(buf, value.cached_rlp().unwrap().as_slice());
                        }
                        assert(buf@ =~= node_rlp(old(self)@));
                        let rlp = RlpNode::from_rlp(buf.as_slice());
                        let r = rlp.copied();
                        flags.rlp = Some(rlp);
                        assert(value@ == filled(next));
                        r
                    },
                }
            },
            Node::HashNode(rlp) => rlp.copied(),
            Node::ValueNode(_) => unreached(),
        }
    }
}

impl Node {
    /// The hash behind the reference that the node carries.
    pub fn hash(&self) -> (r: B256)
        requires
            cached(self@) is Some,
        ensures
            referenced_hash(cached(self@)->0, r),
    {
        hash_of_reference(self.cached_rlp().unwrap())
    }

    /// An equal node. Only a node that holds no other node can be copied.
    pub fn clone(&self) -> (r: Node)
        requires
            flat(self@),
        ensures
            r@ == self@,
        decreases self@,
    {
        match self {
            Node::FullNode { children, flags } => {
                let mut copies: Vec<Option<Box<Node>>> = Vec::with_capacity(children.len());
                let mut i: usize = 0;
                while i < children.len()
                    invariant
                        i <= children@.len(),
                        copies@.len() == i,
                        flat(NodeV::Full(slots_view(children@), flags@)),
                        forall|j: int|
                            0 <= j < i ==> slot_view(#[trigger] copies@[j]) == slot_view(
                                children@[j],
                            ),
                    decreases children@.len() - i,
                {
                    assert(slots_view(children@)[i as int] == slot_view(children@[i as int]));
                    let copy = match &children[i] {
                        Some(child) => match &**child {
                            Node::HashNode(rlp) => Some(Box::new(Node::HashNode(rlp.copied()))),
                            _ => None,
                        },
                        None => None,
                    };
                    copies.push(copy);
                    i += 1;
                }
                assert(slots_view(copies@) =~= slots_view(children@));
                Node::FullNode { children: copies, flags: flags.copied() }
            },
            Node::ShortNode { key, value, flags } => Node::ShortNode {
                key: key.copied(),
                value: Box::new((**value).clone()),
                flags: flags.copied(),
            },
            Node::ValueNode(value) => Node::ValueNode(slice_to_vec(value.as_slice())),
            Node::HashNode(rlp) => Node::HashNode(rlp.copied()),
        }
    }
}

/// Which children a branch has, and the hashes of those that are references.
#[derive(Debug, PartialEq, Eq)]
pub struct BranchNodeCompact {
    /// One bit for every child.
    pub state_mask: u16,
    /// One bit for every child that is held directly.
    pub tree_mask: u16,
    /// One bit for every child that is a reference.
    pub hash_mask: u16,
    /// The hashes behind the references, in the order of their slots.
    pub hashes: Vec<B256>,
    /// Always missing here.
    pub root_hash: Option<B256>,
}

/// Bit `i` of `mask` is set.
pub open spec fn has_bit(mask: u16, i: int) -> bool {
    (mask >> (i as u16)) & 1u16 == 1u16
}

/// The references among the first `n` slots.
pub open spec fn references(ch: Seq<Option<NodeV>>, n: nat) -> Seq<Seq<u8>>
    decreases n,
{
    if n == 0 {
        Seq::empty()
    } else {
        let rest = references(ch, (n - 1) as nat);
        match ch[n - 1] {
            Some(NodeV::Hash(r)) => rest.push(r),
            _ => rest,
        }
    }
}

/// `mask` with bit `i` set.
fn set_bit(mask: u16, i: u16) -> (r: u16)
    requires
        i < 16,
    ensures
        forall|j: int|
            0 <= j < 16 ==> #[trigger] has_bit(r, j) == (j == i || has_bit(mask, j)),
{
    let r: u16 = mask | (1u16 << i);
    assert forall|j: int| 0 <= j < 16 implies #[trigger] has_bit(r, j) == (j == i || has_bit(
        mask,
        j,
    )) by {
        let k = j as u16;
        assert(((mask | (1u16 << i)) >> k) & 1u16 == 1u16 <==> (k == i || (mask >> k) & 1u16
            == 1u16)) by (bit_vector)
            requires
                i < 16,
                k < 16,
        ;
    }
    r
}

impl BranchNodeCompact {
    /// What the masks and hashes say of a branch with slots `ch`.
    pub open spec fn describes(&self, ch: Seq<Option<NodeV>>) -> bool {
        &&& forall|i: int| 0 <= i < 16 ==> #[trigger] has_bit(self.state_mask, i) == (ch[i] is Some)
        &&& forall|i: int|
            0 <= i < 16 ==> #[trigger] has_bit(self.hash_mask, i) == (ch[i] is Some
                && ch[i]->0 is Hash)
        &&& forall|i: int|
            0 <= i < 16 ==> #[trigger] has_bit(self.tree_mask, i) == (ch[i] is Some
                && !(ch[i]->0 is Hash))
        &&& self.hashes@.len() == references(ch, 16).len()
        &&& forall|i: int|
            0 <= i < self.hashes@.len() ==> referenced_hash(
                references(ch, 16)[i],
                #[trigger] self.hashes@[i],
            )
        &&& self.root_hash is None
    }
}

impl Node {
    /// Summarizes the slots of a branch. The last slot has to be empty.
    pub fn convert_node_compact(children: &Vec<Option<Box<Node>>>) -> (r: BranchNodeCompact)
        requires
            children@.len() == 17,
            children@[16] is None,
        ensures
            r.describes(slots_view(children@)),
    {
        let ghost ch = slots_view(children@);
        let mut state_mask: u16 = 0;
        let mut tree_mask: u16 = 0;
        let mut hash_mask: u16 = 0;
        let mut hashes: Vec<B256> = Vec::new();
        assert forall|j: int| 0 <= j < 16 implies !#[trigger] has_bit(0u16, j) by {
            let k = j as u16;
            assert((0u16 >> k) & 1u16 != 1u16) by (bit_vector);
        }
        let mut i: usize = 0;
        while i < 16
            invariant
                i <= 16,
                children@.len() == 17,
                ch == slots_view(children@),
                forall|j: int|
                    0 <= j < 16 ==> #[trigger] has_bit(state_mask, j) == (j < i && ch[j] is Some),
                forall|j: int|
                    0 <= j < 16 ==> #[trigger] has_bit(hash_mask, j) == (j < i && ch[j] is Some
                        && ch[j]->0 is Hash),
                forall|j: int|
                    0 <= j < 16 ==> #[trigger] has_bit(tree_mask, j) == (j < i && ch[j] is Some
                        && !(ch[j]->0 is Hash)),
                hashes@.len() == references(ch, i as nat).len(),
                forall|j: int|
                    0 <= j < hashes@.len() ==> referenced_hash(
                        references(ch, i as nat)[j],
                        #[trigger] hashes@[j],
                    ),
            decreases 16 - i,
        {
            assert(ch[i as int] == slot_view(children@[i as int]));
            if let Some(child) = &children[i] {
                state_mask = set_bit(state_mask, i as u16);
                match &**child {
                    Node::HashNode(rlp) => {
                        hash_mask = set_bit(hash_mask, i as u16);
                        hashes.push(hash_of_reference(rlp));
                    },
                    _ => {
                        tree_mask = set_bit(tree_mask, i as u16);
                    },
                }
            }
            i += 1;
        }
        BranchNodeCompact { state_mask, tree_mask, hash_mask, hashes, root_hash: None }
    }

    /// [`Node::convert_node_compact`] of a branch.
    pub fn branch_node_compact(&self) -> (r: BranchNodeCompact)
        requires
            self matches Node::FullNode { children, .. } && children@.len() == 17
                && children@[16] is None,
        ensures
            self@ matches NodeV::Full(ch, _) && r.describes(ch),
    {
        match self {
            Node::FullNode { children, .. } => Node::convert_node_compact(children),
            _ => unreached(),
        }
    }
}

/// Appends the items of a branch to `buf`. Every child remembers its reference.
fn put_children(children: &Vec<Option<Box<Node>>>, ch: Ghost<Seq<Option<NodeV>>>, buf: &mut Vec<u8>)
    requires
        slots_hashable(ch@),
        slots_view(children@) == slots_filled(ch@),
    ensures
        final(buf)@ == old(buf)@ + slots_payload(ch@, 17),
{
    assert(slots_view(children@).len() == ch@.len());
    let ghost start = buf@;
    let mut i: usize = 0;
    while i < children.len()
        invariant
            i <= 17,
            children@.len() == 17,
            slots_hashable(ch@),
            slots_view(children@) == slots_filled(ch@),
            buf@ == start + slots_payload(ch@, i as nat),
        decreases 17 - i,
    {
        assert(slots_view(children@)[i as int] == slot_view(children@[i as int]));
        match &children[i] {
            Some(child) => {
                proof {
                    lemma_filled_reference(ch@[i as int]->0);
                }
                append_slice(buf, child.cached_rlp().unwrap().as_slice());
            },
            None => {
                buf.push(0x80);
            },
        }
        i += 1;
    }
}

/// A path in compact form is half as long, with a byte for the flag and, unless that is all of
/// it, a byte of prefix.
proof fn lemma_compact_path_len(path: Seq<u8>, leaf: bool)
    requires
        path.len() <= 64,
        all_nibbles(path),
    ensures
        rlp_string(compact_path(path, leaf)).len() == path.len() / 2 + 1 + (if path.len() < 2 {
            0int
        } else {
            1
        }),
{
}

/// The length of an extension's items. Computes the reference to the next node.
fn extension_node_rlp_length(
    shared_nibbles: &Nibbles,
    next_node: &mut Box<Node>,
    buf: &mut Vec<u8>,
) -> (r: usize)
    requires
        shared_nibbles@.len() <= 64,
        hashable(old(next_node)@),
    ensures
        final(next_node)@ == filled(old(next_node)@),
        r == rlp_string(compact_path(shared_nibbles@, false)).len() + node_reference(
            old(next_node)@,
        ).len(),
    decreases old(next_node)@, 2nat,
{
    proof {
        use_type_invariant(shared_nibbles);
        lemma_compact_path_len(shared_nibbles@, false);
    }
    let mut encoded_key_len: usize = shared_nibbles.len() / 2 + 1;
    if encoded_key_len != 1 {
        encoded_key_len += length_of_length(encoded_key_len);
    }
    let known = match next_node.cached_rlp() {
        Some(rlp) => Some(rlp.len()),
        None => None,
    };
    let len = match known {
        Some(len) => len,
        None => next_node.build_hash(buf).len(),
    };
    encoded_key_len + len
}

/// The length of a leaf's items.
fn leaf_node_rlp_length(key_end: &Nibbles, value: &[u8]) -> (r: usize)
    requires
        key_end@.len() <= 64,
        value@.len() <= usize::MAX - 64,
    ensures
        r == rlp_string(compact_path(key_end@, true)).len() + rlp_string(value@).len(),
{
    proof {
        use_type_invariant(key_end);
        lemma_compact_path_len(key_end@, true);
        lemma_header_len(value@.len());
    }
    let mut encoded_key_len: usize = key_end.len() / 2 + 1;
    if encoded_key_len != 1 {
        encoded_key_len += length_of_length(encoded_key_len);
    }
    encoded_key_len + string_length(value)
}

/// The length of a branch's items. Computes the references to its children.
fn branch_node_rlp_length(children: &mut Vec<Option<Box<Node>>>, buf: &mut Vec<u8>) -> (r: usize)
    requires
        slots_hashable(slots_view(old(children)@)),
    ensures
        slots_view(final(children)@) == slots_filled(slots_view(old(children)@)),
        r == slots_payload(slots_view(old(children)@), 17).len(),
    decreases slots_view(old(children)@), 0nat,
{
    let ghost before = children@;
    let ghost ch = slots_view(before);
    let mut payload_length: usize = 0;
    let mut i: usize = 0;
    while i < children.len()
        invariant
            i <= 17,
            children@.len() == 17,
            before.len() == 17,
            ch == slots_view(before),
            before == old(children)@,
            payload_length == slots_payload(ch, i as nat).len(),
            payload_length <= 33 * i,
            forall|j: int| i <= j < 17 ==> #[trigger] children@[j] == before[j],
            slots_hashable(ch),
            forall|j: int| 0 <= j < i ==> slot_view(#[trigger] children@[j]) == slots_filled(ch)[j],
        decreases 17 - i,
    {
        proof {
            lemma_payload_step(ch, i as nat);
        }
        assert(ch[i as int] == slot_view(before[i as int]));
        let child = children[i].take();
        match child {
            Some(mut node) => {
                assert(decreases_to!(ch => ch[i as int]));
                let known = match node.cached_rlp() {
                    Some(rlp) => Some(rlp.len()),
                    None => None,
                };
                let len = match known {
                    Some(len) => len,
                    None => node.build_hash(buf).len(),
                };
                payload_length += len;
                children[i] = Some(node);
            },
            None => {
                payload_length += 1;
            },
        }
        i += 1;
    }
    assert(slots_view(children@) =~= slots_filled(ch));
    payload_length
}

} // verus!
