//! How the nodes of the state trie are encoded, referred to, stored and written.

use vstd::prelude::*;

use crate::nibbles::{all_nibbles, starts_with, Nibbles};
use crate::node::{
    cached, cleared, filled, has_bit, is_dirty, node_reference, node_rlp, references,
    slots_filled, slots_payload, slots_view, BranchNodeCompact, FlagV, Node, NodeFlag, NodeV,
};
use crate::output::written;
use crate::rlp::{compact_path, keccak, referenced_hash, rlp_list, rlp_string, RlpNode};
use crate::state::change_view;
use crate::store::{lemma_subtree_below, lemma_subtree_slot, root_subtree, store_of, Stored};
use crate::tree::{
    canonical, contents, fork_payload, lemma_get_path, lemma_root_determined, root_hash, state_root,
    tree_get, tree_reference, tree_rlp, Tree,
};
use crate::trie::{changed, listed, without};

verus! {

/// A leaf is encoded as a list of its path, in the compact form of a leaf, and its value. An
/// extension is encoded as a list of its path, in the other compact form, and the reference to
/// what follows.
pub proof fn law_path_encoding(p: Seq<u8>, c: Tree)
    ensures
        c matches Tree::Leaf(v) ==> tree_rlp(Tree::Path(p, Box::new(c))) == rlp_list(
            rlp_string(compact_path(p, true)) + rlp_string(v),
        ),
        !(c is Leaf) ==> tree_rlp(Tree::Path(p, Box::new(c))) == rlp_list(
            rlp_string(compact_path(p, false)) + tree_reference(c),
        ),
{
}

/// What a subtree is referred to by: its encoding where that has fewer than 32 bytes, and
/// otherwise the byte `0xa0` and the hash of the encoding.
pub proof fn law_tree_reference(t: Tree)
    ensures
        tree_rlp(t).len() < 32 ==> tree_reference(t) == tree_rlp(t),
        tree_rlp(t).len() >= 32 ==> tree_reference(t) == seq![0xa0u8] + keccak(tree_rlp(t))@,
{
}

/// The items of a fork, one by one.
proof fn lemma_fork_items(ch: Seq<Option<Tree>>, n: nat)
    requires
        n <= ch.len(),
    ensures
        fork_payload(ch, n) == Seq::new(
            n,
            |i: int|
                match ch[i] {
                    Some(c) => tree_reference(c),
                    None => seq![0x80u8],
                },
        ).flatten(),
    decreases n,
{
    let items = Seq::new(
        n,
        |i: int|
            match ch[i] {
                Some(c) => tree_reference(c),
                None => seq![0x80u8],
            },
    );
    if n > 0 {
        let m = (n - 1) as nat;
        lemma_fork_items(ch, m);
        let before = Seq::new(
            m,
            |i: int|
                match ch[i] {
                    Some(c) => tree_reference(c),
                    None => seq![0x80u8],
                },
        );
        assert(items =~= before.push(items[m as int]));
        before.lemma_flatten_push(items[m as int]);
    } else {
        assert(items =~= Seq::empty());
    }
}

/// A fork is encoded as a list with an item for each of its slots: the reference to a subtree, or
/// the byte `0x80` where there is none.
pub proof fn law_fork_encoding(ch: Seq<Option<Tree>>)
    ensures
        tree_rlp(Tree::Fork(ch)) == rlp_list(
            Seq::new(
                ch.len(),
                |i: int|
                    match ch[i] {
                        Some(c) => tree_reference(c),
                        None => seq![0x80u8],
                    },
            ).flatten(),
        ),
{
    lemma_fork_items(ch, ch.len());
}

/// The root hash is the hash of the topmost node's encoding, whatever its length.
pub proof fn law_root_hash(t: Tree)
    requires
        canonical(t),
    ensures
        root_hash(Some(t)) == keccak(tree_rlp(t)),
        state_root(contents(Some(t))) == keccak(tree_rlp(t)),
{
    lemma_root_determined(Some(t));
}

/// The root hash of a single key is that of a leaf with the key for its path.
pub proof fn law_root_of_one_key(key: Seq<u8>, value: Seq<u8>)
    requires
        key.len() > 0,
        all_nibbles(key),
    ensures
        state_root(Map::<Seq<u8>, Seq<u8>>::empty().insert(key, value)) == keccak(
            rlp_list(rlp_string(compact_path(key, true)) + rlp_string(value)),
        ),
{
    let leaf = Tree::Leaf(value);
    let t = Tree::Path(key, Box::new(leaf));
    let m = Map::<Seq<u8>, Seq<u8>>::empty().insert(key, value);
    assert(canonical(leaf));
    assert(canonical(t));
    assert forall|k: Seq<u8>| #[trigger]
        contents(Some(t)).contains_key(k) == m.contains_key(k) && (contents(Some(t)).contains_key(k)
            ==> contents(Some(t))[k] == m[k]) by {
        if k == key {
            lemma_get_path(key, leaf, Seq::empty());
            assert(key + Seq::<u8>::empty() =~= key);
        } else if starts_with(k, key) {
            let rest = k.skip(key.len() as int);
            if rest.len() == 0 {
                assert(k =~= k.take(key.len() as int));
            }
            assert(tree_get(leaf, rest) is None);
        }
    }
    assert(contents(Some(t)) =~= m);
    lemma_root_determined(Some(t));
}

/// A node in memory is encoded as the part of the trie that it stands for: a leaf by its path and
/// its value, an extension by its path and the reference to the next node.
pub proof fn law_short_node_encoding(key: Seq<u8>, next: NodeV, flag: FlagV)
    ensures
        next matches NodeV::Value(v) ==> node_rlp(NodeV::Short(key, Box::new(next), flag))
            == rlp_list(rlp_string(compact_path(key, true)) + rlp_string(v)),
        !(next is Value) ==> node_rlp(NodeV::Short(key, Box::new(next), flag)) == rlp_list(
            rlp_string(compact_path(key, false)) + node_reference(next),
        ),
{
}

/// The items of a branch, one by one.
proof fn lemma_branch_items(ch: Seq<Option<NodeV>>, n: nat)
    requires
        n <= ch.len(),
    ensures
        slots_payload(ch, n) == Seq::new(
            n,
            |i: int|
                match ch[i] {
                    Some(c) => node_reference(c),
                    None => seq![0x80u8],
                },
        ).flatten(),
    decreases n,
{
    let items = Seq::new(
        n,
        |i: int|
            match ch[i] {
                Some(c) => node_reference(c),
                None => seq![0x80u8],
            },
    );
    if n > 0 {
        let m = (n - 1) as nat;
        lemma_branch_items(ch, m);
        let before = Seq::new(
            m,
            |i: int|
                match ch[i] {
                    Some(c) => node_reference(c),
                    None => seq![0x80u8],
                },
        );
        assert(items =~= before.push(items[m as int]));
        before.lemma_flatten_push(items[m as int]);
    } else {
        assert(items =~= Seq::empty());
    }
}

/// A branch in memory is encoded as a list with an item for each of its slots.
pub proof fn law_branch_encoding(ch: Seq<Option<NodeV>>, flag: FlagV)
    ensures
        node_rlp(NodeV::Full(ch, flag)) == rlp_list(
            Seq::new(
                ch.len(),
                |i: int|
                    match ch[i] {
                        Some(c) => node_reference(c),
                        None => seq![0x80u8],
                    },
            ).flatten(),
        ),
{
    lemma_branch_items(ch, ch.len());
}

/// A reference that a node remembers is taken. Where it remembers none, a node is referred to by
/// its encoding where that has fewer than 32 bytes, and otherwise by its hash. A reference stands
/// for itself.
pub proof fn law_node_reference(
    ch: Seq<Option<NodeV>>,
    key: Seq<u8>,
    next: NodeV,
    flag: FlagV,
    r: Seq<u8>,
)
    ensures
        node_reference(NodeV::Hash(r)) == r,
        flag.rlp matches Some(rlp) ==> node_reference(NodeV::Full(ch, flag)) == rlp
            && node_reference(NodeV::Short(key, Box::new(next), flag)) == rlp,
        ({
            let branch = NodeV::Full(ch, flag);
            let short = NodeV::Short(key, Box::new(next), flag);
            flag.rlp is None ==> {
                &&& node_rlp(branch).len() < 32 ==> node_reference(branch) == node_rlp(branch)
                &&& node_rlp(branch).len() >= 32 ==> node_reference(branch) == seq![0xa0u8]
                    + keccak(node_rlp(branch))@
                &&& node_rlp(short).len() < 32 ==> node_reference(short) == node_rlp(short)
                &&& node_rlp(short).len() >= 32 ==> node_reference(short) == seq![0xa0u8]
                    + keccak(node_rlp(short))@
            }
        }),
{
}

/// Branches and short nodes carry what their flag says. A reference carries itself and counts as
/// unchanged, and a value carries nothing and counts as changed. Clearing touches the flag alone.
pub proof fn law_flags(ch: Seq<Option<NodeV>>, key: Seq<u8>, next: NodeV, flag: FlagV, b: Seq<u8>)
    ensures
        cached(NodeV::Full(ch, flag)) == flag.rlp,
        cached(NodeV::Short(key, Box::new(next), flag)) == flag.rlp,
        cached(NodeV::Value(b)) is None,
        cached(NodeV::Hash(b)) == Some(b),
        is_dirty(NodeV::Full(ch, flag)) == flag.dirty,
        is_dirty(NodeV::Short(key, Box::new(next), flag)) == flag.dirty,
        is_dirty(NodeV::Value(b)),
        !is_dirty(NodeV::Hash(b)),
        cleared(NodeV::Full(ch, flag)) == NodeV::Full(ch, FlagV { rlp: None, dirty: false }),
        cleared(NodeV::Short(key, Box::new(next), flag)) == NodeV::Short(
            key,
            Box::new(next),
            FlagV { rlp: None, dirty: false },
        ),
        cleared(NodeV::Value(b)) == NodeV::Value(b),
        cleared(NodeV::Hash(b)) == NodeV::Hash(b),
{
}

/// Computing references changes nothing of a node but that it remembers them: the paths, the marks
/// of change and the slots in use stay, and the node is encoded and referred to as before.
pub proof fn law_filled(ch: Seq<Option<NodeV>>, key: Seq<u8>, next: NodeV, flag: FlagV, i: int)
    requires
        flag.rlp is None,
    ensures
        ({
            let branch = NodeV::Full(ch, flag);
            &&& filled(branch) is Full
            &&& filled(branch)->Full_1 == FlagV {
                rlp: Some(node_reference(branch)),
                dirty: flag.dirty,
            }
            &&& filled(branch)->Full_0.len() == ch.len()
            &&& 0 <= i < ch.len() ==> filled(branch)->Full_0[i] == match ch[i] {
                Some(c) => Some(filled(c)),
                None => None,
            }
        }),
        ({
            let short = NodeV::Short(key, Box::new(next), flag);
            filled(short) == NodeV::Short(
                key,
                Box::new(filled(next)),
                FlagV { rlp: Some(node_reference(short)), dirty: flag.dirty },
            )
        }),
        cached(next) is Some ==> filled(next) == next,
        next is Value ==> filled(next) == next,
{
    reveal_with_fuel(filled, 2);
    reveal_with_fuel(slots_filled, 2);
    let branch = NodeV::Full(ch, flag);
    assert(filled(branch)->Full_0 == slots_filled(ch));
}

/// Where the references among the first slots stand.
proof fn lemma_references(ch: Seq<Option<NodeV>>, i: nat, n: nat)
    requires
        i < n <= ch.len(),
        ch[i as int] is Some,
        ch[i as int]->0 is Hash,
    ensures
        references(ch, i).len() < references(ch, n).len(),
        references(ch, n)[references(ch, i).len() as int] == ch[i as int]->0->Hash_0,
    decreases n,
{
    if i + 1 < n {
        lemma_references(ch, i, (n - 1) as nat);
    }
}

/// The summary of a branch tells of each of the 16 slots whether it is in use and whether it is a
/// reference or held directly, one bit to a slot. The hash behind every reference is in it, in the
/// order of the slots.
pub proof fn law_branch_summary(r: BranchNodeCompact, ch: Seq<Option<NodeV>>, i: u16, j: u16)
    requires
        r.describes(ch),
        ch.len() == 17,
        i < j < 16,
    ensures
        (r.state_mask >> i) & 1u16 == 1u16 <==> ch[i as int] is Some,
        (r.hash_mask >> i) & 1u16 == 1u16 <==> ch[i as int] is Some && ch[i as int]->0 is Hash,
        (r.tree_mask >> i) & 1u16 == 1u16 <==> ch[i as int] is Some && !(ch[i as int]->0 is Hash),
        (r.state_mask >> j) & 1u16 == 1u16 <==> ch[j as int] is Some,
        (r.hash_mask >> j) & 1u16 == 1u16 <==> ch[j as int] is Some && ch[j as int]->0 is Hash,
        (r.tree_mask >> j) & 1u16 == 1u16 <==> ch[j as int] is Some && !(ch[j as int]->0 is Hash),
        ch[i as int] is Some && ch[i as int]->0 is Hash ==> exists|k: int|
            0 <= k < r.hashes@.len() && referenced_hash(
                ch[i as int]->0->Hash_0,
                #[trigger] r.hashes@[k],
            ),
        ch[j as int] is Some && ch[j as int]->0 is Hash ==> exists|k: int|
            0 <= k < r.hashes@.len() && referenced_hash(
                ch[j as int]->0->Hash_0,
                #[trigger] r.hashes@[k],
            ),
        ch[i as int] is Some && ch[i as int]->0 is Hash && ch[j as int] is Some
            && ch[j as int]->0 is Hash ==> exists|k: int, l: int|
            0 <= k < l < r.hashes@.len() && referenced_hash(
                ch[i as int]->0->Hash_0,
                #[trigger] r.hashes@[k],
            ) && referenced_hash(ch[j as int]->0->Hash_0, #[trigger] r.hashes@[l]),
        r.root_hash is None,
{
    assert(has_bit(r.state_mask, i as int) == (ch[i as int] is Some));
    assert(has_bit(r.state_mask, j as int) == (ch[j as int] is Some));
    assert(has_bit(r.hash_mask, i as int) == (ch[i as int] is Some && ch[i as int]->0 is Hash));
    assert(has_bit(r.hash_mask, j as int) == (ch[j as int] is Some && ch[j as int]->0 is Hash));
    assert(has_bit(r.tree_mask, i as int) == (ch[i as int] is Some && !(ch[i as int]->0 is Hash)));
    assert(has_bit(r.tree_mask, j as int) == (ch[j as int] is Some && !(ch[j as int]->0 is Hash)));
    let k = references(ch, i as nat).len() as int;
    let l = references(ch, j as nat).len() as int;
    if ch[i as int] is Some && ch[i as int]->0 is Hash {
        lemma_references(ch, i as nat, 16);
        lemma_references(ch, i as nat, j as nat);
        assert(referenced_hash(references(ch, 16)[k], r.hashes@[k]));
    }
    if ch[j as int] is Some && ch[j as int]->0 is Hash {
        lemma_references(ch, j as nat, 16);
        assert(referenced_hash(references(ch, 16)[l], r.hashes@[l]));
    }
}

/// The topmost node is stored under the empty path: with the reference to each subtree in the slot
/// of a fork, and with the value, or the reference to what follows, after a stretch of path.
pub proof fn law_stored_top(ch: Seq<Option<Tree>>, p: Seq<u8>, c: Tree, i: int)
    requires
        0 <= i < ch.len(),
    ensures
        ({
            let top = store_of(Some(Tree::Fork(ch)))[Seq::<u8>::empty()];
            &&& store_of(Some(Tree::Fork(ch))).contains_key(Seq::<u8>::empty())
            &&& top is Full
            &&& top->Full_0.len() == ch.len()
            &&& top->Full_0[i] == match ch[i] {
                Some(c) => Some(NodeV::Hash(tree_reference(c))),
                None => None,
            }
            &&& top->Full_1 == FlagV { rlp: None, dirty: false }
        }),
        ({
            let t = Tree::Path(p, Box::new(c));
            let top = store_of(Some(t))[Seq::<u8>::empty()];
            &&& store_of(Some(t)).contains_key(Seq::<u8>::empty())
            &&& c matches Tree::Leaf(v) ==> top == NodeV::Short(
                p,
                Box::new(NodeV::Value(v)),
                FlagV { rlp: None, dirty: false },
            )
            &&& !(c is Leaf) ==> top == NodeV::Short(
                p,
                Box::new(NodeV::Hash(tree_reference(c))),
                FlagV { rlp: None, dirty: false },
            )
        }),
        store_of(None) == Map::<Seq<u8>, NodeV>::empty(),
{
    let e = Seq::<u8>::empty();
    assert(root_subtree(Some(Tree::Fork(ch)), e) == Some(Tree::Fork(ch)));
    let t = Tree::Path(p, Box::new(c));
    assert(root_subtree(Some(t), e) == Some(t));
    assert(store_of(None) =~= Map::<Seq<u8>, NodeV>::empty());
}

/// The nodes below a fork are stored under the half-byte of their slot and the path that they have
/// in the subtree. Those below a stretch of path are stored under it and their path from there.
pub proof fn law_stored_below(ch: Seq<Option<Tree>>, i: u8, p: Seq<u8>, c: Tree, q: Seq<u8>)
    requires
        i < ch.len(),
        p.len() > 0,
    ensures
        ({
            let all = store_of(Some(Tree::Fork(ch)));
            let part = store_of(ch[i as int]);
            &&& all.contains_key(seq![i] + q) == part.contains_key(q)
            &&& part.contains_key(q) ==> all[seq![i] + q] == part[q]
        }),
        ({
            let all = store_of(Some(Tree::Path(p, Box::new(c))));
            let part = store_of(Some(c));
            &&& all.contains_key(p + q) == part.contains_key(q)
            &&& part.contains_key(q) ==> all[p + q] == part[q]
        }),
        q.len() > 0 && !starts_with(q, p) ==> !store_of(
            Some(Tree::Path(p, Box::new(c))),
        ).contains_key(q),
{
    lemma_subtree_slot(ch, i, q);
    lemma_subtree_below(p, c, q);
}

/// Removed paths are gone, and every other node stays as it is.
pub proof fn law_removed_paths(s: Stored, paths: Seq<Nibbles>, p: Seq<u8>)
    ensures
        (exists|i: int| 0 <= i < paths.len() && (#[trigger] paths[i])@ == p) ==> !without(
            s,
            paths,
        ).contains_key(p),
        (forall|i: int| 0 <= i < paths.len() ==> (#[trigger] paths[i])@ != p) ==> without(
            s,
            paths,
        ).contains_key(p) == s.contains_key(p),
        without(s, paths).contains_key(p) ==> without(s, paths)[p] == s[p],
{
    if exists|i: int| 0 <= i < paths.len() && (#[trigger] paths[i])@ == p {
        assert(listed(paths, p));
    }
}

/// Every node that is written is stored under its path, the last one where there are several, and
/// what is not written stays as it is.
pub proof fn law_written_nodes(s: Stored, updates: Seq<(Nibbles, Node)>, p: Seq<u8>, i: int)
    ensures
        0 <= i < updates.len() && updates[i].0@ == p && (forall|j: int|
            i < j < updates.len() ==> (#[trigger] updates[j]).0@ != p) ==> written(
            s,
            updates,
        ).contains_key(p) && written(s, updates)[p] == updates[i].1@,
        (forall|j: int| 0 <= j < updates.len() ==> (#[trigger] updates[j]).0@ != p) ==> written(
            s,
            updates,
        ).contains_key(p) == s.contains_key(p) && (s.contains_key(p) ==> written(s, updates)[p]
            == s[p]),
    decreases updates.len(),
{
    if updates.len() > 0 {
        let rest = updates.drop_last();
        let n = updates.len() - 1;
        law_written_nodes(s, rest, p, i);
        if (forall|j: int| 0 <= j < updates.len() ==> (#[trigger] updates[j]).0@ != p) {
            assert(updates[n].0@ != p);
            assert forall|j: int| 0 <= j < rest.len() implies (#[trigger] rest[j]).0@ != p by {
                assert(updates[j].0@ != p);
            }
        }
        if 0 <= i < n && updates[i].0@ == p && (forall|j: int|
            i < j < updates.len() ==> (#[trigger] updates[j]).0@ != p) {
            assert(updates[n].0@ != p);
            assert forall|j: int| i < j < rest.len() implies (#[trigger] rest[j]).0@ != p by {
                assert(updates[j].0@ != p);
            }
            assert(rest[i] == updates[i]);
        }
    }
}

/// A batch of changes makes all of them, in their order: a value is put in place, and a key without
/// a value is taken out.
pub proof fn law_changes_in_order(
    m: Map<Seq<u8>, Seq<u8>>,
    changes: Seq<(Nibbles, Option<Node>)>,
    key: Nibbles,
    value: Node,
)
    requires
        value@ is Value,
    ensures
        changed(m, Seq::empty()) == m,
        changed(m, changes.push((key, Some(value)))) == changed(m, changes).insert(
            key@,
            value@->Value_0,
        ),
        changed(m, changes.push((key, None))) == changed(m, changes).remove(key@),
{
    assert(changes.push((key, Some(value))).drop_last() =~= changes);
    assert(changes.push((key, None)).drop_last() =~= changes);
}

/// A node in memory is what it holds: the slots of a branch one by one, the path and the next node
/// of a short node, a value, or a reference, with the reference that it remembers and its mark.
pub proof fn law_node_views(
    children: Vec<Option<Box<Node>>>,
    key: Nibbles,
    value: Box<Node>,
    flags: NodeFlag,
    bytes: Vec<u8>,
    rlp: RlpNode,
    i: int,
)
    ensures
        ({
            let branch = (Node::FullNode { children, flags })@;
            &&& branch is Full
            &&& branch->Full_0.len() == children@.len()
            &&& 0 <= i < children@.len() ==> branch->Full_0[i] == match children@[i] {
                Some(c) => Some(c@),
                None => None,
            }
            &&& branch->Full_1 == flags@
        }),
        (Node::ShortNode { key, value, flags })@ == NodeV::Short(key@, Box::new(value@), flags@),
        Node::ValueNode(bytes)@ == NodeV::Value(bytes@),
        Node::HashNode(rlp)@ == NodeV::Hash(rlp@),
        flags@.dirty == flags.dirty,
        flags@.rlp == match flags.rlp {
            Some(r) => Some(r@),
            None => None,
        },
{
    reveal_with_fuel(Node::view, 2);
    let branch = Node::FullNode { children, flags };
    assert(branch@ == NodeV::Full(slots_view(children@), flags@));
    assert(slots_view(children@).len() == children@.len());
}

/// A change sets the value of its node, or takes the key out where it has none.
pub proof fn law_change_views(value: Node)
    requires
        value@ is Value,
    ensures
        change_view(Some(value)) == Some(value@->Value_0),
        change_view(None) is None,
{
}

} // verus!
