//! What a changed trie leaves to be written: the nodes that are new or different, and the paths
//! at which there is no node any more.

use vstd::pervasive::unreached;
use vstd::prelude::*;

use crate::nibbles::{starts_with, Nibbles};
use crate::node::{
    cached, cleared, filled, flat, hashable, is_dirty, node_reference, node_rlp, slot_view,
    slots_filled, slots_hashable, slots_payload, slots_view, FlagV, Node, NodeFlag, NodeV,
};
use crate::rlp::RlpNode;
use crate::store::{
    collapsed, flag_right, held, lemma_subtree_below, lemma_subtree_slot, root_subtree, storable,
    store_of, subtree_at, Stored,
};
use crate::tree::{canonical, encodable, fork_payload, tree_reference, tree_rlp, Tree};

verus! {

/// The nodes to write and the paths to remove. Removal comes first.
#[derive(Debug, PartialEq, Eq)]
pub struct TrieOutput {
    /// The nodes that are new or different, by path.
    pub update_nodes: Vec<(Nibbles, Node)>,
    /// The paths at which there is no node any more.
    pub removed_nodes: Vec<Nibbles>,
}

impl TrieOutput {
    /// Whether there is nothing to write or remove.
    pub fn is_empty(&self) -> (r: bool)
        ensures
            r == (self.update_nodes@.len() == 0 && self.removed_nodes@.len() == 0),
    {
        self.update_nodes.len() == 0 && self.removed_nodes.len() == 0
    }
}

/// A trie that can be encoded can be stored.
pub proof fn lemma_encodable_storable(t: Tree)
    requires
        encodable(t),
    ensures
        storable(t),
    decreases t,
{
    match t {
        Tree::Leaf(_) => {},
        Tree::Path(_, c) => {
            if !(*c is Leaf) {
                lemma_encodable_storable(*c);
            }
        },
        Tree::Fork(ch) => {
            assert forall|i: int| 0 <= i < ch.len() implies match #[trigger] ch[i] {
                Some(c) => storable(c),
                None => true,
            } by {
                if let Some(c) = ch[i] {
                    lemma_encodable_storable(c);
                }
            }
        },
    }
}

/// The items of a branch are those of the fork that it stands for.
proof fn lemma_same_payload(slots: Seq<Option<NodeV>>, ch: Seq<Option<Tree>>, n: nat)
    requires
        slots.len() == ch.len(),
        n <= ch.len(),
        forall|i: int|
            0 <= i < ch.len() ==> match #[trigger] ch[i] {
                Some(c) => slots[i] is Some && node_reference(slots[i]->0) == tree_reference(c),
                None => slots[i] is None,
            },
    ensures
        slots_payload(slots, n) == fork_payload(ch, n),
    decreases n,
{
    if n > 0 {
        lemma_same_payload(slots, ch, (n - 1) as nat);
        assert(ch[n - 1] is Some || ch[n - 1] is None);
    }
}

/// A node is referred to as the trie is that it stands for, before and after the references are
/// remembered.
pub proof fn lemma_held_reference(s: Stored, path: Seq<u8>, n: NodeV, t: Tree)
    requires
        held(s, path, n, t),
        canonical(t),
        encodable(t),
    ensures
        hashable(n),
        node_reference(n) == tree_reference(t),
        held(s, path, filled(n), t),
    decreases t,
{
    match n {
        NodeV::Hash(_) => {},
        NodeV::Value(_) => {},
        NodeV::Short(key, next, f) => {
            let c = *t->Path_1;
            if let NodeV::Value(v) = *next {
                assert(held(s, path + key, *next, c));
                assert(c == Tree::Leaf(v));
                assert(filled(*next) == *next);
                assert(tree_rlp(t) == node_rlp(n));
            } else {
                if c is Leaf {
                    assert(held(s, path + key, *next, c));
                }
                lemma_held_reference(s, path + key, *next, c);
                assert(tree_rlp(t) == node_rlp(n));
            }
            assert(node_reference(n) == tree_reference(t));
        },
        NodeV::Full(slots, f) => {
            let ch = t->Fork_0;
            assert forall|i: int| 0 <= i < ch.len() implies match #[trigger] ch[i] {
                Some(c) => slots[i] is Some && node_reference(slots[i]->0) == tree_reference(c)
                    && hashable(slots[i]->0) && held(
                    s,
                    path.push(i as u8),
                    filled(slots[i]->0),
                    c,
                ),
                None => slots[i] is None,
            } by {
                if let Some(c) = ch[i] {
                    lemma_held_reference(s, path.push(i as u8), slots[i]->0, c);
                }
            }
            assert(slots_hashable(slots)) by {
                assert forall|i: int| 0 <= i < slots.len() implies match #[trigger] slots[i] {
                    Some(c) => hashable(c),
                    None => true,
                } by {
                    assert(ch[i] is Some || ch[i] is None);
                }
            }
            lemma_same_payload(slots, ch, 17);
            assert(tree_rlp(t) == node_rlp(n));
            assert(node_reference(n) == tree_reference(t));
            if cached(n) is None {
                let filled_slots = slots_filled(slots);
                assert forall|i: int| 0 <= i < ch.len() implies match #[trigger] ch[i] {
                    Some(c) => filled_slots[i] is Some && held(
                        s,
                        path.push(i as u8),
                        filled_slots[i]->0,
                        c,
                    ),
                    None => filled_slots[i] is None,
                } by {}
            }
        },
    }
}

/// A stored node is referred to as the trie at its path is.
proof fn lemma_collapsed_reference(t: Tree)
    requires
        canonical(t),
        encodable(t),
    ensures
        hashable(collapsed(t)),
        node_reference(collapsed(t)) == tree_reference(t),
        cleared(filled(collapsed(t))) == collapsed(t),
{
    let n = collapsed(t);
    match t {
        Tree::Leaf(_) => {},
        Tree::Path(k, c) => {
            let next = *n->Short_1;
            assert(filled(next) == next);
            assert(!(*c is Leaf) ==> hashable(next));
            assert(hashable(n));
            assert(tree_rlp(t) == node_rlp(n)) by {
                if !(*c is Leaf) {
                    assert(node_reference(next) == tree_reference(*c));
                }
            }
        },
        Tree::Fork(ch) => {
            let slots = n->Full_0;
            assert forall|i: int| 0 <= i < ch.len() implies match #[trigger] ch[i] {
                Some(c) => slots[i] is Some && node_reference(slots[i]->0) == tree_reference(c)
                    && hashable(slots[i]->0),
                None => slots[i] is None,
            } by {}
            assert(slots_hashable(slots)) by {
                assert forall|i: int| 0 <= i < slots.len() implies match #[trigger] slots[i] {
                    Some(c) => hashable(c),
                    None => true,
                } by {
                    assert(ch[i] is Some || ch[i] is None);
                }
            }
            lemma_same_payload(slots, ch, 17);
            assert(tree_rlp(t) == node_rlp(n));
            assert(slots_filled(slots) =~= slots);
        },
    }
}

/// `s` after `updates` have been written one after the other.
pub open spec fn written(s: Stored, updates: Seq<(Nibbles, Node)>) -> Stored
    decreases updates.len(),
{
    if updates.len() == 0 {
        s
    } else {
        written(s, updates.drop_last()).insert(updates.last().0@, updates.last().1@)
    }
}

/// The updated nodes hold no other nodes.
pub open spec fn flat_updates(updates: Seq<(Nibbles, Node)>) -> bool {
    forall|i: int| 0 <= i < updates.len() ==> flat((#[trigger] updates[i]).1@)
}

/// There is an update for `p`.
pub open spec fn updated(updates: Seq<(Nibbles, Node)>, p: Seq<u8>) -> bool {
    exists|i: int| 0 <= i < updates.len() && (#[trigger] updates[i]).0@ == p
}

/// `n` is the node at `p` of the trie `t`, whose topmost node is at `path`.
pub open spec fn right_update(p: Seq<u8>, n: NodeV, path: Seq<u8>, t: Tree) -> bool {
    let q = p.skip(path.len() as int);
    starts_with(p, path) && subtree_at(t, q) is Some && n == collapsed(subtree_at(t, q)->0)
}

/// The loaded node of `n` at `q`, a path that goes on from `n`.
pub open spec fn node_at(n: NodeV, q: Seq<u8>) -> Option<NodeV>
    decreases n,
{
    if q.len() == 0 {
        Some(n)
    } else {
        match n {
            NodeV::Full(ch, _) => if q[0] < ch.len() && ch[q[0] as int] is Some {
                node_at(ch[q[0] as int]->0, q.skip(1))
            } else {
                None
            },
            NodeV::Short(k, v, _) => if starts_with(q, k) {
                node_at(*v, q.skip(k.len() as int))
            } else {
                None
            },
            _ => None,
        }
    }
}

/// A branch or short node is loaded at `q` below `n`, and counts as changed.
pub open spec fn changed_at(n: NodeV, q: Seq<u8>) -> bool {
    node_at(n, q) matches Some(x) && (x is Full || x is Short) && is_dirty(x)
}

/// The updates from position `from` on are for changed nodes at and below `n`, the node at `path`.
pub open spec fn only_changed(
    updates: Seq<(Nibbles, Node)>,
    from: int,
    path: Seq<u8>,
    n: NodeV,
) -> bool {
    forall|i: int|
        from <= i < updates.len() ==> starts_with((#[trigger] updates[i]).0@, path) && changed_at(
            n,
            updates[i].0@.skip(path.len() as int),
        )
}

/// There is an update for every changed node at and below `n`, the node at `path`.
pub open spec fn every_changed(updates: Seq<(Nibbles, Node)>, path: Seq<u8>, n: NodeV) -> bool {
    forall|q: Seq<u8>| #[trigger] changed_at(n, q) ==> updated(updates, path + q)
}

/// Updates for what is below a slot of a branch are updates for what is below the branch.
proof fn lemma_changed_slot(
    a: Seq<(Nibbles, Node)>,
    b: Seq<(Nibbles, Node)>,
    from: int,
    path: Seq<u8>,
    n: NodeV,
    i: u8,
)
    requires
        n is Full,
        i < n->Full_0.len(),
        n->Full_0[i as int] is Some,
        0 <= from <= a.len() <= b.len(),
        forall|j: int| 0 <= j < a.len() ==> #[trigger] b[j] == a[j],
        only_changed(a, from, path, n),
        only_changed(b, a.len() as int, path.push(i), n->Full_0[i as int]->0),
    ensures
        only_changed(b, from, path, n),
{
    let at = path.push(i);
    let m = path.len() as int;
    assert forall|j: int| from <= j < b.len() implies starts_with((#[trigger] b[j]).0@, path)
        && changed_at(n, b[j].0@.skip(m)) by {
        let p = b[j].0@;
        if j < a.len() {
            assert(starts_with(a[j].0@, path));
        } else {
            assert(p.take(m) =~= p.take(m + 1).take(m));
            assert(path =~= at.take(m));
            assert(p.take(m + 1)[m] == i);
            assert(p.skip(m).skip(1) =~= p.skip(m + 1));
        }
    }
}

/// Updates for what a short node ends in are updates for what is below the short node.
proof fn lemma_changed_end(updates: Seq<(Nibbles, Node)>, from: int, path: Seq<u8>, n: NodeV)
    requires
        n is Short,
        n->Short_0.len() > 0,
        only_changed(updates, from, path + n->Short_0, *n->Short_1),
    ensures
        only_changed(updates, from, path, n),
{
    let k = n->Short_0;
    let at = path + k;
    let m = path.len() as int;
    let l = at.len() as int;
    assert forall|j: int|
        from <= j < updates.len() implies starts_with((#[trigger] updates[j]).0@, path)
        && changed_at(n, updates[j].0@.skip(m)) by {
        let p = updates[j].0@;
        assert(p.take(m) =~= p.take(l).take(m));
        assert(path =~= at.take(m));
        assert(p.skip(m).take(k.len() as int) =~= p.take(l).skip(m));
        assert(at.skip(m) =~= k);
        assert(p.skip(m).skip(k.len() as int) =~= p.skip(l));
    }
}

/// The updates from position `from` on are all nodes of `t`.
pub open spec fn right_updates(
    updates: Seq<(Nibbles, Node)>,
    from: int,
    path: Seq<u8>,
    t: Tree,
) -> bool {
    forall|i: int|
        from <= i < updates.len() ==> right_update(
            (#[trigger] updates[i]).0@,
            updates[i].1@,
            path,
            t,
        )
}

/// The nodes of a trie, as they are stored, hold no other nodes.
pub proof fn lemma_right_flat(updates: Seq<(Nibbles, Node)>, path: Seq<u8>, t: Tree)
    requires
        right_updates(updates, 0, path, t),
    ensures
        flat_updates(updates),
{
    assert forall|i: int| 0 <= i < updates.len() implies flat((#[trigger] updates[i]).1@) by {
        assert(right_update(updates[i].0@, updates[i].1@, path, t));
    }
}

/// Every node of `t` is in the store or among the updates.
pub open spec fn complete_updates(
    s: Stored,
    updates: Seq<(Nibbles, Node)>,
    path: Seq<u8>,
    t: Tree,
) -> bool {
    forall|q: Seq<u8>| #[trigger]
        subtree_at(t, q) is Some ==> updated(updates, path + q) || s.contains_key(path + q) && s[path
            + q] == collapsed(subtree_at(t, q)->0)
}

/// What [`written`] holds for one path: the last update, or what was there.
proof fn lemma_written(s: Stored, updates: Seq<(Nibbles, Node)>, p: Seq<u8>)
    ensures
        updated(updates, p) ==> exists|i: int|
            0 <= i < updates.len() && (#[trigger] updates[i]).0@ == p && written(
                s,
                updates,
            ).contains_key(p) && written(s, updates)[p] == updates[i].1@,
        !updated(updates, p) ==> (written(s, updates).contains_key(p) == s.contains_key(p)) && (
        s.contains_key(p) ==> written(s, updates)[p] == s[p]),
    decreases updates.len(),
{
    if updates.len() > 0 {
        let rest = updates.drop_last();
        let n = updates.len() - 1;
        lemma_written(s, rest, p);
        if updates.last().0@ == p {
            assert(updates[n].0@ == p);
        } else {
            if updated(updates, p) {
                let i = choose|i: int| 0 <= i < updates.len() && (#[trigger] updates[i]).0@ == p;
                assert(rest[i].0@ == p);
                let j = choose|j: int|
                    0 <= j < rest.len() && (#[trigger] rest[j]).0@ == p && written(
                        s,
                        rest,
                    ).contains_key(p) && written(s, rest)[p] == rest[j].1@;
                assert(updates[j].0@ == p);
            } else if updated(rest, p) {
                let j = choose|j: int| 0 <= j < rest.len() && (#[trigger] rest[j]).0@ == p;
                assert(updates[j].0@ == p);
            }
        }
    }
}

/// Right and complete updates turn a store that holds no other paths into the store of the trie.
pub proof fn lemma_written_store(s: Stored, updates: Seq<(Nibbles, Node)>, t: Tree)
    requires
        right_updates(updates, 0, Seq::empty(), t),
        complete_updates(s, updates, Seq::empty(), t),
        forall|p: Seq<u8>| #[trigger] s.contains_key(p) ==> subtree_at(t, p) is Some,
    ensures
        written(s, updates) == store_of(Some(t)),
{
    let w = written(s, updates);
    let target = store_of(Some(t));
    assert forall|p: Seq<u8>| #[trigger]
        w.contains_key(p) == target.contains_key(p) && (w.contains_key(p) ==> w[p]
            == target[p]) by {
        lemma_written(s, updates, p);
        assert(Seq::<u8>::empty() + p =~= p);
        assert(p.skip(0) =~= p);
        assert(target.contains_key(p) == (root_subtree(Some(t), p) is Some));
        if updated(updates, p) {
            let i = choose|i: int|
                0 <= i < updates.len() && (#[trigger] updates[i]).0@ == p && w.contains_key(p)
                    && w[p] == updates[i].1@;
            assert(right_update(updates[i].0@, updates[i].1@, Seq::empty(), t));
        } else if subtree_at(t, p) is Some {
            assert(s.contains_key(p));
        }
    }
    assert(w =~= target);
}

/// Updates for a subtree are updates for the trie.
proof fn lemma_right_slot(p: Seq<u8>, n: NodeV, path: Seq<u8>, ch: Seq<Option<Tree>>, i: u8)
    requires
        i < ch.len(),
        ch[i as int] is Some,
        right_update(p, n, path.push(i), ch[i as int]->0),
    ensures
        right_update(p, n, path, Tree::Fork(ch)),
{
    let at = path.push(i);
    let q = p.skip(at.len() as int);
    lemma_subtree_slot(ch, i, q);
    assert(p.take(path.len() as int) =~= p.take(at.len() as int).take(path.len() as int));
    assert(at.take(path.len() as int) =~= path);
    assert(p[path.len() as int] == p.take(at.len() as int)[path.len() as int]);
    assert(p.skip(path.len() as int) =~= seq![i] + q);
}

/// Updates for what follows a stretch of path are updates for the trie.
proof fn lemma_right_below(p: Seq<u8>, n: NodeV, path: Seq<u8>, k: Seq<u8>, c: Tree)
    requires
        k.len() > 0,
        right_update(p, n, path + k, c),
    ensures
        right_update(p, n, path, Tree::Path(k, Box::new(c))),
{
    let at = path + k;
    let q = p.skip(at.len() as int);
    lemma_subtree_below(k, c, q);
    assert(p.take(path.len() as int) =~= p.take(at.len() as int).take(path.len() as int));
    assert(at.take(path.len() as int) =~= path);
    assert(p.skip(path.len() as int) =~= p.take(at.len() as int).skip(path.len() as int) + q);
    assert(at.skip(path.len() as int) =~= k);
}

/// The reference to a stored node, which is left as it is stored.
fn reference_of(
    node: Node,
    known: Option<RlpNode>,
    buf: &mut Vec<u8>,
    Ghost(t): Ghost<Tree>,
) -> (r: (RlpNode, Node))
    requires
        canonical(t),
        encodable(t),
        node@ == collapsed(t),
        known matches Some(k) ==> k@ == tree_reference(t),
    ensures
        r.0@ == tree_reference(t),
        r.1@ == node@,
{
    proof {
        lemma_collapsed_reference(t);
    }
    match known {
        Some(known) => (known, node),
        None => {
            let mut node = node;
            let reference = node.build_hash(buf);
            (reference, node.reset())
        },
    }
}

/// Lists in `out` the changed nodes at and below `node`, the node at `path`, and gives the
/// reference to it.
pub(crate) fn collect(
    node: Node,
    path: &Nibbles,
    out: &mut Vec<(Nibbles, Node)>,
    buf: &mut Vec<u8>,
    Ghost(s): Ghost<Stored>,
    Ghost(t): Ghost<Tree>,
) -> (r: RlpNode)
    requires
        canonical(t),
        encodable(t),
        held(s, path@, node@, t),
    ensures
        r@ == tree_reference(t),
        old(out)@.len() <= final(out)@.len(),
        forall|i: int| 0 <= i < old(out)@.len() ==> #[trigger] final(out)@[i] == old(out)@[i],
        right_updates(final(out)@, old(out)@.len() as int, path@, t),
        complete_updates(s, final(out)@, path@, t),
        only_changed(final(out)@, old(out)@.len() as int, path@, node@),
        every_changed(final(out)@, path@, node@),
    decreases t,
{
    let ghost before = out@;
    let ghost nv = node@;
    match node {
        Node::HashNode(rlp) => rlp,
        Node::ValueNode(_) => unreached(),
        Node::ShortNode { key, value, flags } => {
            let ghost c = *t->Path_1;
            let ghost k = key@;
            let ghost next = value@;
            let next_node = match *value {
                Node::ValueNode(v) => Node::ValueNode(v),
                other => {
                    assert(!(c is Leaf)) by {
                        assert(held(s, path@ + k, next, c));
                    }
                    let reference = collect(other, &path.join(&key), out, buf, Ghost(s), Ghost(c));
                    Node::HashNode(reference)
                },
            };
            let ghost mid = out@;
            let ghost slots = next_node@;
            let stored_node = Node::ShortNode {
                key,
                value: Box::new(next_node),
                flags: NodeFlag::new(None),
            };
            proof {
                assert(held(s, path@ + k, next, c));
                assert(stored_node@ == collapsed(t));
                assert(right_updates(mid, before.len() as int, path@, t)) by {
                    assert forall|i: int| before.len() <= i < mid.len() implies right_update(
                        (#[trigger] mid[i]).0@,
                        mid[i].1@,
                        path@,
                        t,
                    ) by {
                        lemma_right_below(mid[i].0@, mid[i].1@, path@, k, c);
                    }
                }
            }
            let (reference, stored_node) = reference_of(stored_node, flags.rlp, buf, Ghost(t));
            if flags.dirty {
                out.push((path.copied(), stored_node));
            }
            proof {
                lemma_own_update(s, mid, out@, before.len() as int, path@, flags@, t);
                if mid.len() > before.len() {
                    lemma_changed_end(mid, before.len() as int, path@, nv);
                }
                lemma_own_changed(mid, out@, before.len() as int, path@, nv);
                assert forall|q: Seq<u8>| #[trigger] changed_at(nv, q) implies updated(
                    out@,
                    path@ + q,
                ) by {
                    if q.len() == 0 {
                        assert(path@ + q =~= path@);
                    } else {
                        let r = q.skip(k.len() as int);
                        assert(changed_at(next, r));
                        assert(q =~= k + r);
                        assert((path@ + k) + r =~= path@ + q);
                        lemma_updated_stays(mid, out@, path@ + q);
                    }
                }
                assert forall|q: Seq<u8>| #[trigger] subtree_at(t, q) is Some implies updated(
                    out@,
                    path@ + q,
                ) || s.contains_key(path@ + q) && s[path@ + q] == collapsed(
                    subtree_at(t, q)->0,
                ) by {
                    if q.len() == 0 {
                        assert(path@ + q =~= path@);
                    } else {
                        let r = q.skip(k.len() as int);
                        assert(subtree_at(c, r) is Some);
                        assert(q =~= k + r);
                        assert((path@ + k) + r =~= path@ + q);
                        if updated(mid, path@ + q) {
                            lemma_updated_stays(mid, out@, path@ + q);
                        }
                    }
                }
            }
            reference
        },
        Node::FullNode { mut children, flags } => {
            let ghost ch = t->Fork_0;
            let ghost slots = slots_view(children@);
            let ghost all = children@;
            let mut kept: Vec<Option<Box<Node>>> = Vec::with_capacity(17);
            let mut i: usize = 0;
            while i < 17
                invariant
                    i <= 17,
                    canonical(t),
                    encodable(t),
                    t == Tree::Fork(ch),
                    ch.len() == 17,
                    all.len() == 17,
                    children@.len() == 17,
                    slots == slots_view(all),
                    kept@.len() == i,
                    forall|j: int| i <= j < 17 ==> #[trigger] children@[j] == all[j],
                    forall|j: int|
                        0 <= j < 17 ==> match #[trigger] ch[j] {
                            Some(c) => slots[j] is Some && held(
                                s,
                                path@.push(j as u8),
                                slots[j]->0,
                                c,
                            ),
                            None => slots[j] is None,
                        },
                    forall|j: int|
                        0 <= j < i ==> slot_view(#[trigger] kept@[j]) == match ch[j] {
                            Some(c) => Some(NodeV::Hash(tree_reference(c))),
                            None => None,
                        },
                    before.len() <= out@.len(),
                    forall|j: int| 0 <= j < before.len() ==> #[trigger] out@[j] == before[j],
                    right_updates(out@, before.len() as int, path@, t),
                    nv is Full,
                    nv->Full_0 == slots,
                    only_changed(out@, before.len() as int, path@, nv),
                    forall|j: int|
                        0 <= j < i ==> ((#[trigger] slots[j]) is Some ==> every_changed(
                            out@,
                            path@.push(j as u8),
                            slots[j]->0,
                        )),
                    forall|j: int|
                        0 <= j < i ==> (#[trigger] ch[j] matches Some(c) ==> complete_updates(
                            s,
                            out@,
                            path@.push(j as u8),
                            c,
                        )),
                decreases 17 - i,
            {
                let ghost mid = out@;
                assert(slots[i as int] == slot_view(all[i as int]));
                assert(ch[i as int] is Some || ch[i as int] is None);
                match children[i].take() {
                    Some(child) => {
                        let ghost c = ch[i as int]->0;
                        assert(ch[16] is None);
                        assert(encodable(c));
                        assert(decreases_to!(t => ch));
                        assert(decreases_to!(ch => ch[i as int]));
                        let reference = collect(
                            *child,
                            &path.child(i as u8),
                            out,
                            buf,
                            Ghost(s),
                            Ghost(c),
                        );
                        kept.push(Some(Box::new(Node::HashNode(reference))));
                        proof {
                            lemma_slot_updates(s, mid, out@, before.len() as int, path@, ch, i as u8);
                            lemma_changed_slot(mid, out@, before.len() as int, path@, nv, i as u8);
                            assert forall|j: int|
                                0 <= j < i && (#[trigger] slots[j]) is Some implies every_changed(
                                out@,
                                path@.push(j as u8),
                                slots[j]->0,
                            ) by {
                                let at = path@.push(j as u8);
                                assert(every_changed(mid, at, slots[j]->0));
                                assert forall|q: Seq<u8>| #[trigger]
                                    changed_at(slots[j]->0, q) implies updated(out@, at + q) by {
                                    lemma_updated_stays(mid, out@, at + q);
                                }
                            }
                        }
                    },
                    None => {
                        kept.push(None);
                    },
                }
                i += 1;
            }
            let ghost mid = out@;
            assert(slots_view(kept@) =~= collapsed(t)->Full_0);
            let stored_node = Node::FullNode { children: kept, flags: NodeFlag::new(None) };
            let (reference, stored_node) = reference_of(stored_node, flags.rlp, buf, Ghost(t));
            if flags.dirty {
                out.push((path.copied(), stored_node));
            }
            proof {
                lemma_own_update(s, mid, out@, before.len() as int, path@, flags@, t);
                lemma_own_changed(mid, out@, before.len() as int, path@, nv);
                assert forall|q: Seq<u8>| #[trigger] changed_at(nv, q) implies updated(
                    out@,
                    path@ + q,
                ) by {
                    if q.len() == 0 {
                        assert(path@ + q =~= path@);
                    } else {
                        let r = q.skip(1);
                        assert(slots[q[0] as int] is Some);
                        assert(changed_at(slots[q[0] as int]->0, r));
                        assert(path@.push(q[0]) + r =~= path@ + q);
                        lemma_updated_stays(mid, out@, path@ + q);
                    }
                }
                assert forall|q: Seq<u8>| #[trigger] subtree_at(t, q) is Some implies updated(
                    out@,
                    path@ + q,
                ) || s.contains_key(path@ + q) && s[path@ + q] == collapsed(
                    subtree_at(t, q)->0,
                ) by {
                    if q.len() == 0 {
                        assert(path@ + q =~= path@);
                    } else {
                        let r = q.skip(1);
                        let c = ch[q[0] as int]->0;
                        assert(ch[q[0] as int] is Some);
                        assert(subtree_at(c, r) is Some);
                        assert(path@.push(q[0]) + r =~= path@ + q);
                        assert(complete_updates(s, mid, path@.push(q[0]), c));
                        if updated(mid, path@ + q) {
                            lemma_updated_stays(mid, out@, path@ + q);
                        }
                    }
                }
            }
            reference
        },
    }
}

/// The update that a changed node adds for itself is one for a changed node.
proof fn lemma_own_changed(
    a: Seq<(Nibbles, Node)>,
    b: Seq<(Nibbles, Node)>,
    from: int,
    path: Seq<u8>,
    n: NodeV,
)
    requires
        n is Full || n is Short,
        0 <= from <= a.len() <= b.len(),
        only_changed(a, from, path, n),
        forall|j: int| 0 <= j < a.len() ==> #[trigger] b[j] == a[j],
        if is_dirty(n) {
            b.len() == a.len() + 1 && b.last().0@ == path
        } else {
            b == a
        },
    ensures
        only_changed(b, from, path, n),
        is_dirty(n) ==> updated(b, path),
{
    let m = path.len() as int;
    assert forall|j: int| from <= j < b.len() implies starts_with((#[trigger] b[j]).0@, path)
        && changed_at(n, b[j].0@.skip(m)) by {
        if j < a.len() {
            assert(starts_with(a[j].0@, path));
        } else {
            assert(path.take(m) =~= path);
            assert(path.skip(m) =~= Seq::<u8>::empty());
        }
    }
    if is_dirty(n) {
        assert(b[b.len() - 1].0@ == path);
    }
}

/// Updates stay when more follow.
proof fn lemma_updated_stays(a: Seq<(Nibbles, Node)>, b: Seq<(Nibbles, Node)>, p: Seq<u8>)
    requires
        a.len() <= b.len(),
        forall|i: int| 0 <= i < a.len() ==> #[trigger] b[i] == a[i],
        updated(a, p),
    ensures
        updated(b, p),
{
    let i = choose|i: int| 0 <= i < a.len() && (#[trigger] a[i]).0@ == p;
    assert(b[i].0@ == p);
}

/// The updates that a subtree adds.
proof fn lemma_slot_updates(
    s: Stored,
    a: Seq<(Nibbles, Node)>,
    b: Seq<(Nibbles, Node)>,
    from: int,
    path: Seq<u8>,
    ch: Seq<Option<Tree>>,
    i: u8,
)
    requires
        i < ch.len(),
        ch.len() == 17,
        ch[i as int] is Some,
        0 <= from <= a.len() <= b.len(),
        forall|j: int| 0 <= j < a.len() ==> #[trigger] b[j] == a[j],
        right_updates(a, from, path, Tree::Fork(ch)),
        right_updates(b, a.len() as int, path.push(i), ch[i as int]->0),
        forall|j: int|
            0 <= j < i ==> (#[trigger] ch[j] matches Some(c) ==> complete_updates(
                s,
                a,
                path.push(j as u8),
                c,
            )),
    ensures
        right_updates(b, from, path, Tree::Fork(ch)),
        forall|j: int|
            0 <= j < i ==> (#[trigger] ch[j] matches Some(c) ==> complete_updates(
                s,
                b,
                path.push(j as u8),
                c,
            )),
{
    assert forall|j: int| from <= j < b.len() implies right_update(
        (#[trigger] b[j]).0@,
        b[j].1@,
        path,
        Tree::Fork(ch),
    ) by {
        if j < a.len() {
            assert(b[j] == a[j]);
            assert(right_update(a[j].0@, a[j].1@, path, Tree::Fork(ch)));
        } else {
            lemma_right_slot(b[j].0@, b[j].1@, path, ch, i);
        }
    }
    assert forall|j: int| 0 <= j < i implies (#[trigger] ch[j] matches Some(c)
        ==> complete_updates(s, b, path.push(j as u8), c)) by {
        if let Some(c) = ch[j] {
            let at = path.push(j as u8);
            assert forall|q: Seq<u8>| #[trigger] subtree_at(c, q) is Some implies updated(b, at + q)
                || s.contains_key(at + q) && s[at + q] == collapsed(subtree_at(c, q)->0) by {
                if updated(a, at + q) {
                    lemma_updated_stays(a, b, at + q);
                }
            }
        }
    }
}

/// The update that a changed node adds for itself.
proof fn lemma_own_update(
    s: Stored,
    a: Seq<(Nibbles, Node)>,
    b: Seq<(Nibbles, Node)>,
    from: int,
    path: Seq<u8>,
    f: FlagV,
    t: Tree,
)
    requires
        !(t is Leaf),
        0 <= from <= a.len() <= b.len(),
        flag_right(s, path, f, t),
        right_updates(a, from, path, t),
        forall|j: int| 0 <= j < a.len() ==> #[trigger] b[j] == a[j],
        if f.dirty {
            b.len() == a.len() + 1 && b.last().0@ == path && b.last().1@ == collapsed(t)
        } else {
            b == a
        },
    ensures
        right_updates(b, from, path, t),
        updated(b, path) || s.contains_key(path) && s[path] == collapsed(t),
{
    assert forall|j: int| from <= j < b.len() implies right_update(
        (#[trigger] b[j]).0@,
        b[j].1@,
        path,
        t,
    ) by {
        if j < a.len() {
            assert(right_update(a[j].0@, a[j].1@, path, t));
        } else {
            assert(path.take(path.len() as int) =~= path);
            assert(path.skip(path.len() as int) =~= Seq::<u8>::empty());
        }
    }
    if f.dirty {
        assert(b[b.len() - 1].0@ == path);
    }
}

} // verus!
