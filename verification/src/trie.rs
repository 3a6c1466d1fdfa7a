//! A trie that loads its nodes as it needs them.

use vstd::prelude::*;

use crate::errors::DatabaseError;
use crate::nibbles::{all_nibbles, lemma_shared_len_props, starts_with, Nibbles};
use crate::node::{
    filled, flat, lemma_filled_reference, slot_view, slots_view, FlagV, Node, NodeFlag, NodeV,
};
use crate::output::{
    collect, every_changed, flat_updates, lemma_held_reference, lemma_right_flat,
    lemma_written_store, only_changed, written, TrieOutput,
};
use crate::rlp::{lemma_referenced_hash, B256};
use crate::store::{
    covers, held, held_root, lemma_held_frame, lemma_load, lemma_loaded_unique, lemma_store_of,
    read_failed, root_subtree, storable_root, store_of, subtree_at, Stored, TrieReader, TrieWriter,
};
use crate::tree::{
    canonical, canonical_root, contents, encodable, graft, inserted, key_fits, keys_of_length,
    lemma_collapse, lemma_contents_key, lemma_fits_leaf, lemma_fits_path, lemma_fits_slot,
    lemma_fixed_length_fits, lemma_graft_get, lemma_has_key, lemma_insert_below, lemma_insert_slot,
    lemma_insert_split, lemma_remove_below, lemma_remove_slot, lemma_root_determined,
    lemma_starts_through, prepend, removed, root_get, state_root, tree_get, tree_rlp, two_slots,
    Tree, EMPTY_ROOT_HASH,
};

verus! {

/// Every node of `s` is also in `s2`.
pub open spec fn within(s: Stored, s2: Stored) -> bool {
    forall|p: Seq<u8>| #[trigger] s.contains_key(p) ==> s2.contains_key(p) && s2[p] == s[p]
}

/// Every path of a node of `t` is one of `t2`.
pub open spec fn grows(t: Option<Tree>, t2: Tree) -> bool {
    forall|q: Seq<u8>| #[trigger] root_subtree(t, q) is Some ==> subtree_at(t2, q) is Some
}

/// The flag of a node that has just been made or changed.
pub open spec fn fresh() -> FlagV {
    FlagV { rlp: None, dirty: true }
}

/// `x` is `n` or stands somewhere below it.
pub open spec fn part_of(x: NodeV, n: NodeV) -> bool
    decreases n,
{
    x == n || match n {
        NodeV::Full(ch, _) => exists|i: int|
            0 <= i < ch.len() && (#[trigger] ch[i]) is Some && part_of(x, ch[i]->0),
        NodeV::Short(_, v, _) => part_of(x, *v),
        _ => false,
    }
}

/// `x` stands somewhere below `n`.
pub open spec fn below(x: NodeV, n: NodeV) -> bool {
    match n {
        NodeV::Full(ch, _) => exists|i: int|
            0 <= i < ch.len() && (#[trigger] ch[i]) is Some && part_of(x, ch[i]->0),
        NodeV::Short(_, v, _) => part_of(x, *v),
        _ => false,
    }
}

/// The nodes that a change may leave as they are: those below `before`, the node that was
/// there, and those of the store.
pub open spec fn kept(before: Option<NodeV>, s: Stored) -> spec_fn(NodeV) -> bool {
    |x: NodeV|
        (before is Some && below(x, before->0)) || (flat(x) && exists|p: Seq<u8>| #[trigger]
            s.contains_key(p) && s[p] == x)
}

/// The topmost node of `n` is marked as made or changed.
pub open spec fn fresh_top(n: NodeV) -> bool {
    match n {
        NodeV::Full(_, f) => f == fresh(),
        NodeV::Short(_, _, f) => f == fresh(),
        _ => true,
    }
}

/// Whatever stands in `n` is left as it was, as `keep` says, or is marked as made or changed.
pub open spec fn made(n: NodeV, keep: spec_fn(NodeV) -> bool) -> bool
    decreases n,
{
    keep(n) || fresh_top(n) && match n {
        NodeV::Full(ch, _) => forall|i: int|
            0 <= i < ch.len() && (#[trigger] ch[i]) is Some ==> made(ch[i]->0, keep),
        NodeV::Short(_, v, _) => made(*v, keep),
        _ => true,
    }
}

/// Leaving more as it was.
proof fn lemma_made_wider(
    n: NodeV,
    keep: spec_fn(NodeV) -> bool,
    keep2: spec_fn(NodeV) -> bool,
)
    requires
        made(n, keep),
        forall|x: NodeV| #[trigger] keep(x) ==> made(x, keep2),
    ensures
        made(n, keep2),
    decreases n,
{
    if !keep(n) {
        match n {
            NodeV::Full(ch, _) => {
                assert forall|i: int| 0 <= i < ch.len() && (#[trigger] ch[i]) is Some implies made(
                    ch[i]->0,
                    keep2,
                ) by {
                    lemma_made_wider(ch[i]->0, keep, keep2);
                }
            },
            NodeV::Short(_, v, _) => {
                lemma_made_wider(*v, keep, keep2);
            },
            _ => {},
        }
    }
}

/// What is made of a child is made of its parent.
proof fn lemma_made_above(n: NodeV, child: Option<NodeV>, parent: NodeV, s: Stored)
    requires
        made(n, kept(child, s)),
        child matches Some(c) ==> match parent {
            NodeV::Full(ch, _) => exists|i: int| 0 <= i < ch.len() && #[trigger] ch[i] == Some(c),
            NodeV::Short(_, v, _) => *v == c,
            _ => false,
        },
    ensures
        made(n, kept(Some(parent), s)),
{
    let keep = kept(child, s);
    let keep2 = kept(Some(parent), s);
    assert forall|x: NodeV| #[trigger] keep(x) implies made(x, keep2) by {
        if child is Some && below(x, child->0) {
            assert(part_of(x, child->0));
            if let NodeV::Full(ch, _) = parent {
                let i = choose|i: int| 0 <= i < ch.len() && #[trigger] ch[i] == Some(child->0);
                assert(ch[i] is Some && part_of(x, ch[i]->0));
            }
            assert(below(x, parent));
        }
        assert(keep2(x));
    }
    lemma_made_wider(n, keep, keep2);
}

/// What is made of a node that holds no other leaves nothing of it as it was.
proof fn lemma_made_loaded(n: NodeV, loaded: NodeV, before: Option<NodeV>, s: Stored)
    requires
        made(n, kept(Some(loaded), s)),
        flat(loaded),
    ensures
        made(n, kept(before, s)),
{
    let keep = kept(Some(loaded), s);
    let keep2 = kept(before, s);
    assert forall|x: NodeV| #[trigger] keep(x) implies made(x, keep2) by {
        if below(x, loaded) {
            assert(x is Hash || x is Value) by {
                match loaded {
                    NodeV::Full(ch, _) => {
                        let i = choose|i: int|
                            0 <= i < ch.len() && (#[trigger] ch[i]) is Some && part_of(x, ch[i]->0);
                        assert(ch[i]->0 is Hash);
                    },
                    _ => {},
                }
            }
        } else {
            assert(keep2(x));
        }
    }
    lemma_made_wider(n, keep, keep2);
}

/// Where a short node is made, or is left as it was, so is what it ends in.
proof fn lemma_made_end(n: NodeV, before: Option<NodeV>, s: Stored)
    requires
        made(n, kept(before, s)),
        n is Short,
    ensures
        made(*n->Short_1, kept(before, s)),
{
    let keep = kept(before, s);
    let v = *n->Short_1;
    if keep(n) {
        if before is Some && below(n, before->0) {
            let b = before->0;
            match b {
                NodeV::Full(ch, _) => {
                    let i = choose|i: int|
                        0 <= i < ch.len() && (#[trigger] ch[i]) is Some && part_of(n, ch[i]->0);
                    lemma_part_end(n, ch[i]->0);
                    assert(ch[i] is Some && part_of(v, ch[i]->0));
                },
                NodeV::Short(_, w, _) => {
                    lemma_part_end(n, *w);
                },
                _ => {},
            }
            assert(below(v, b));
            assert(keep(v));
        }
    }
}

/// What a short node ends in is a part of what the short node is a part of.
proof fn lemma_part_end(x: NodeV, n: NodeV)
    requires
        part_of(x, n),
        x is Short,
    ensures
        part_of(*x->Short_1, n),
    decreases n,
{
    let v = *x->Short_1;
    if x == n {
        assert(part_of(v, v));
    } else {
        match n {
            NodeV::Full(ch, _) => {
                let i = choose|i: int|
                    0 <= i < ch.len() && (#[trigger] ch[i]) is Some && part_of(x, ch[i]->0);
                lemma_part_end(x, ch[i]->0);
                assert(ch[i] is Some && part_of(v, ch[i]->0));
            },
            NodeV::Short(_, w, _) => {
                lemma_part_end(x, *w);
            },
            _ => {},
        }
    }
}

/// A branch whose slots are made of those that it had, or left as they were.
proof fn lemma_made_slots(n2: NodeV, n: NodeV, index: int, s: Stored)
    requires
        n is Full,
        n2 is Full,
        n2->Full_1 == fresh(),
        0 <= index < n->Full_0.len(),
        n2->Full_0.len() == n->Full_0.len(),
        forall|i: int|
            0 <= i < n->Full_0.len() && i != index ==> #[trigger] n2->Full_0[i] == n->Full_0[i]
                || n2->Full_0[i] is None,
        n2->Full_0[index] matches Some(c) ==> made(c, kept(n->Full_0[index], s)),
    ensures
        made(n2, kept(Some(n), s)),
{
    let ch = n->Full_0;
    let ch2 = n2->Full_0;
    let keep = kept(Some(n), s);
    assert forall|i: int| 0 <= i < ch2.len() && (#[trigger] ch2[i]) is Some implies made(
        ch2[i]->0,
        keep,
    ) by {
        if i == index {
            lemma_made_above(ch2[i]->0, ch[i], n, s);
        } else {
            assert(ch[i] is Some && part_of(ch[i]->0, ch[i]->0));
            assert(keep(ch2[i]->0));
        }
    }
}

/// Two of the slots of a branch are in use.
pub open spec fn two_children(ch: Seq<Option<NodeV>>) -> bool {
    exists|i: int, j: int|
        0 <= i < j < ch.len() && (#[trigger] ch[i]) is Some && (#[trigger] ch[j]) is Some
}

/// In `n`, the node at `path`, no short node ends in another, be it there or to be read from
/// `nodes`, and every branch has two children at least.
pub open spec fn tidy(nodes: Stored, path: Seq<u8>, n: NodeV) -> bool
    decreases n,
{
    match n {
        NodeV::Full(ch, _) => {
            &&& two_children(ch)
            &&& forall|i: int|
                0 <= i < ch.len() && (#[trigger] ch[i]) is Some ==> tidy(
                    nodes,
                    path.push(i as u8),
                    ch[i]->0,
                )
        },
        NodeV::Short(k, v, _) => {
            &&& k.len() > 0
            &&& !(*v is Short)
            &&& *v is Hash ==> nodes.contains_key(path + k) && !(nodes[path + k] is Short)
            &&& tidy(nodes, path + k, *v)
        },
        _ => true,
    }
}

/// What stands for a trie of canonical shape is tidy.
pub proof fn law_canonical_nodes(s: Stored, nodes: Stored, path: Seq<u8>, n: NodeV, t: Tree)
    requires
        within(s, nodes),
        held(s, path, n, t),
        canonical(t),
    ensures
        tidy(nodes, path, n),
    decreases n,
{
    match n {
        NodeV::Full(slots, _) => {
            let ch = t->Fork_0;
            let (a, b) = choose|a: int, b: int|
                0 <= a < b < 16 && #[trigger] ch[a] is Some && #[trigger] ch[b] is Some;
            assert(slots.len() == 17);
            assert(slots[a] is Some && slots[b] is Some);
            assert forall|i: int| 0 <= i < slots.len() && (#[trigger] slots[i]) is Some implies tidy(
                nodes,
                path.push(i as u8),
                slots[i]->0,
            ) by {
                assert(ch[i] is Some);
                law_canonical_nodes(s, nodes, path.push(i as u8), slots[i]->0, ch[i]->0);
            }
        },
        NodeV::Short(k, v, _) => {
            let c = *t->Path_1;
            assert(held(s, path + k, *v, c));
            assert(*v is Short ==> c is Path);
            if *v is Hash {
                lemma_load(s, path + k, c);
            }
            law_canonical_nodes(s, nodes, path + k, *v, c);
        },
        _ => {},
    }
}

/// The view of a node that may be missing.
pub open spec fn node_view(n: Option<Node>) -> Option<NodeV> {
    match n {
        Some(n) => Some(n@),
        None => None,
    }
}

/// `value` at the end of `key`: alone where `key` is empty, and otherwise below a short node.
fn grafted(key: Nibbles, value: Node) -> (r: Node)
    ensures
        r@ == if key@.len() == 0 {
            value@
        } else {
            NodeV::Short(key@, Box::new(value@), fresh())
        },
{
    if key.is_empty() {
        value
    } else {
        Node::ShortNode { key, value: Box::new(value), flags: NodeFlag::dirty_node() }
    }
}

/// What [`grafted`] stands for.
proof fn lemma_held_graft(s: Stored, path: Seq<u8>, key: Seq<u8>, n: NodeV, t: Tree)
    requires
        held(s, path + key, n, t),
    ensures
        held(
            s,
            path,
            if key.len() == 0 {
                n
            } else {
                NodeV::Short(key, Box::new(n), fresh())
            },
            graft(key, t),
        ),
{
    if key.len() == 0 {
        assert(path + key =~= path);
    }
}

/// A branch with two children.
fn forked(i: u8, a: Node, j: u8, b: Node) -> (r: Node)
    requires
        i < 16,
        j < 16,
        i != j,
    ensures
        r@ is Full,
        r@->Full_1 == fresh(),
        r@->Full_0 == Seq::new(17, |k: int| None::<NodeV>).update(i as int, Some(a@)).update(
            j as int,
            Some(b@),
        ),
{
    let mut children: Vec<Option<Box<Node>>> = Vec::with_capacity(17);
    let mut k: usize = 0;
    while k < 17
        invariant
            k <= 17,
            children@.len() == k,
            forall|l: int| 0 <= l < k ==> #[trigger] children@[l] is None,
        decreases 17 - k,
    {
        children.push(None);
        k += 1;
    }
    children[i as usize] = Some(Box::new(a));
    children[j as usize] = Some(Box::new(b));
    proof {
        assert(slots_view(children@) =~= Seq::new(17, |k: int| None::<NodeV>).update(
            i as int,
            Some(a@),
        ).update(j as int, Some(b@)));
    }
    Node::FullNode { children, flags: NodeFlag::dirty_node() }
}

/// The paths of a fork's nodes stay when one slot grows.
proof fn lemma_grows_slot(ch: Seq<Option<Tree>>, i: u8, c2: Tree)
    requires
        i < ch.len(),
        grows(ch[i as int], c2),
    ensures
        grows(Some(Tree::Fork(ch)), Tree::Fork(ch.update(i as int, Some(c2)))),
{
    let t = Tree::Fork(ch);
    let t2 = Tree::Fork(ch.update(i as int, Some(c2)));
    assert forall|q: Seq<u8>| #[trigger] root_subtree(Some(t), q) is Some implies subtree_at(t2, q)
        is Some by {
        if q.len() > 0 && q[0] == i {
            assert(root_subtree(ch[i as int], q.skip(1)) is Some);
            assert(subtree_at(c2, q.skip(1)) is Some);
        }
    }
}

/// The paths of the nodes stay when what follows a stretch of path grows.
proof fn lemma_grows_below(p: Seq<u8>, c: Tree, c2: Tree)
    requires
        grows(Some(c), c2),
    ensures
        grows(Some(Tree::Path(p, Box::new(c))), Tree::Path(p, Box::new(c2))),
{
    let t = Tree::Path(p, Box::new(c));
    let t2 = Tree::Path(p, Box::new(c2));
    assert forall|q: Seq<u8>| #[trigger] root_subtree(Some(t), q) is Some implies subtree_at(t2, q)
        is Some by {
        if q.len() > 0 {
            assert(root_subtree(Some(c), q.skip(p.len() as int)) is Some);
        }
    }
}

/// A node below a grafted path keeps its path.
proof fn lemma_graft_subtree(k: Seq<u8>, c: Tree, q: Seq<u8>)
    requires
        starts_with(q, k),
        subtree_at(c, q.skip(k.len() as int)) is Some,
    ensures
        subtree_at(graft(k, c), q) is Some,
{
    if k.len() == 0 {
        assert(q.skip(0) =~= q);
    }
}

/// The paths of the nodes stay when a stretch of path is split.
proof fn lemma_grows_split(p: Seq<u8>, c: Tree, key: Seq<u8>, v: Seq<u8>, m: int)
    requires
        all_nibbles(p),
        all_nibbles(key),
        0 <= m < p.len(),
        m < key.len(),
        key.take(m) == p.take(m),
        key[m] != p[m],
    ensures
        grows(
            Some(Tree::Path(p, Box::new(c))),
            graft(
                key.take(m),
                Tree::Fork(
                    two_slots(
                        p[m] as int,
                        graft(p.skip(m + 1), c),
                        key[m] as int,
                        graft(key.skip(m + 1), Tree::Leaf(v)),
                    ),
                ),
            ),
        ),
{
    let t = Tree::Path(p, Box::new(c));
    let a = graft(p.skip(m + 1), c);
    let ch = two_slots(p[m] as int, a, key[m] as int, graft(key.skip(m + 1), Tree::Leaf(v)));
    let t2 = graft(key.take(m), Tree::Fork(ch));
    assert(ch[p[m] as int] == Some(a));
    assert forall|q: Seq<u8>| #[trigger] root_subtree(Some(t), q) is Some implies subtree_at(t2, q)
        is Some by {
        if q.len() > 0 {
            lemma_starts_through(q, p, m);
            let r = q.skip(m);
            let rest = r.skip(1);
            assert(rest.skip(p.skip(m + 1).len() as int) =~= q.skip(p.len() as int));
            lemma_graft_subtree(p.skip(m + 1), c, rest);
            assert(r[0] == p[m]);
            assert(subtree_at(Tree::Fork(ch), r) == subtree_at(a, rest));
            lemma_graft_subtree(key.take(m), Tree::Fork(ch), q);
        }
    }
}

/// `p` is one of `paths`.
pub open spec fn listed(paths: Seq<Nibbles>, p: Seq<u8>) -> bool {
    exists|i: int| 0 <= i < paths.len() && (#[trigger] paths[i])@ == p
}

/// `s` without the nodes at `paths`.
pub open spec fn without(s: Stored, paths: Seq<Nibbles>) -> Stored {
    Map::new(|p: Seq<u8>| s.contains_key(p) && !listed(paths, p), |p: Seq<u8>| s[p])
}

/// `paths2` is `paths`, and more paths that start with `prefix`.
pub open spec fn extended(paths: Seq<Nibbles>, paths2: Seq<Nibbles>, prefix: Seq<u8>) -> bool {
    &&& paths.len() <= paths2.len()
    &&& forall|i: int| 0 <= i < paths.len() ==> #[trigger] paths2[i] == paths[i]
    &&& forall|i: int|
        paths.len() <= i < paths2.len() ==> starts_with((#[trigger] paths2[i])@, prefix)
}

/// Every path of a node of `t`, which is at `prefix`, is one of `t2` or among `paths`.
pub open spec fn accounted(
    t: Option<Tree>,
    t2: Option<Tree>,
    prefix: Seq<u8>,
    paths: Seq<Nibbles>,
) -> bool {
    forall|q: Seq<u8>| #[trigger]
        root_subtree(t, q) is Some ==> root_subtree(t2, q) is Some || listed(paths, prefix + q)
}

/// More listed paths below `prefix` leave the store alone below any path that parts from it.
proof fn lemma_apart(
    s: Stored,
    paths: Seq<Nibbles>,
    paths2: Seq<Nibbles>,
    prefix: Seq<u8>,
    path: Seq<u8>,
)
    requires
        extended(paths, paths2, prefix),
        !starts_with(path, prefix),
        !starts_with(prefix, path),
    ensures
        covers(without(s, paths), without(s, paths2), path),
{
    let a = without(s, paths);
    let b = without(s, paths2);
    assert forall|p: Seq<u8>| #[trigger]
        a.contains_key(p) && starts_with(p, path) implies b.contains_key(p) && b[p] == a[p] by {
        if listed(paths2, p) {
            let i = choose|i: int| 0 <= i < paths2.len() && (#[trigger] paths2[i])@ == p;
            if i < paths.len() {
                assert(paths[i]@ == p);
            } else if prefix.len() <= path.len() {
                assert(path.take(prefix.len() as int) =~= p.take(path.len() as int).take(
                    prefix.len() as int,
                ));
                assert(path.take(prefix.len() as int) =~= p.take(prefix.len() as int));
            } else {
                assert(prefix.take(path.len() as int) =~= p.take(prefix.len() as int).take(
                    path.len() as int,
                ));
                assert(prefix.take(path.len() as int) =~= p.take(path.len() as int));
            }
        }
    }
}

/// A listed path leaves the store alone below any longer path.
proof fn lemma_above(s: Stored, paths: Seq<Nibbles>, gone: Nibbles, path: Seq<u8>)
    requires
        gone@.len() < path.len(),
    ensures
        covers(without(s, paths), without(s, paths.push(gone)), path),
{
    let a = without(s, paths);
    let b = without(s, paths.push(gone));
    assert forall|p: Seq<u8>| #[trigger]
        a.contains_key(p) && starts_with(p, path) implies b.contains_key(p) && b[p] == a[p] by {
        if listed(paths.push(gone), p) {
            let i = choose|i: int|
                0 <= i < paths.push(gone).len() && (#[trigger] paths.push(gone)[i])@ == p;
            if i < paths.len() {
                assert(paths[i]@ == p);
            }
        }
    }
}

/// Listed paths stay listed.
proof fn lemma_listed_stays(paths: Seq<Nibbles>, paths2: Seq<Nibbles>, prefix: Seq<u8>, p: Seq<u8>)
    requires
        extended(paths, paths2, prefix),
        listed(paths, p),
    ensures
        listed(paths2, p),
{
    let i = choose|i: int| 0 <= i < paths.len() && (#[trigger] paths[i])@ == p;
    assert(paths2[i]@ == p);
}

/// A list that grew below a longer prefix, and then by one path, grew below a shorter one.
proof fn lemma_extended(
    paths: Seq<Nibbles>,
    paths2: Seq<Nibbles>,
    below: Seq<u8>,
    prefix: Seq<u8>,
)
    requires
        extended(paths, paths2, below),
        starts_with(below, prefix),
    ensures
        extended(paths, paths2, prefix),
{
    assert forall|i: int| paths.len() <= i < paths2.len() implies starts_with(
        (#[trigger] paths2[i])@,
        prefix,
    ) by {
        let p = paths2[i]@;
        assert(p.take(prefix.len() as int) =~= p.take(below.len() as int).take(
            prefix.len() as int,
        ));
    }
}

/// The position of the only child, -1 where there is none, or -2 where there are several.
fn single_child(children: &Vec<Option<Box<Node>>>) -> (pos: i32)
    requires
        children@.len() == 17,
    ensures
        pos == -1 ==> forall|i: int| 0 <= i < 17 ==> #[trigger] children@[i] is None,
        pos == -2 ==> exists|i: int, j: int|
            0 <= i < j < 17 && #[trigger] children@[i] is Some && #[trigger] children@[j] is Some,
        pos >= 0 ==> pos < 17 && children@[pos as int] is Some && forall|i: int|
            0 <= i < 17 && i != pos ==> #[trigger] children@[i] is None,
        pos >= -2,
{
    let mut pos: i32 = -1;
    let mut i: usize = 0;
    while i < 17
        invariant
            i <= 17,
            children@.len() == 17,
            pos == -1 ==> forall|j: int| 0 <= j < i ==> #[trigger] children@[j] is None,
            pos >= 0 ==> pos < i && children@[pos as int] is Some && forall|j: int|
                0 <= j < i && j != pos ==> #[trigger] children@[j] is None,
            pos >= -1,
        decreases 17 - i,
    {
        if children[i].is_some() {
            if pos == -1 {
                pos = i as i32;
            } else {
                assert(children@[pos as int] is Some && children@[i as int] is Some);
                return -2;
            }
        }
        i += 1;
    }
    pos
}

proof fn lemma_accounted_slot(
    ch: Seq<Option<Tree>>,
    i: u8,
    c2: Option<Tree>,
    prefix: Seq<u8>,
    paths: Seq<Nibbles>,
)
    requires
        i < ch.len(),
        accounted(ch[i as int], c2, prefix.push(i), paths),
    ensures
        accounted(
            Some(Tree::Fork(ch)),
            Some(Tree::Fork(ch.update(i as int, c2))),
            prefix,
            paths,
        ),
{
    let t = Some(Tree::Fork(ch));
    let t2 = Some(Tree::Fork(ch.update(i as int, c2)));
    assert forall|q: Seq<u8>| #[trigger] root_subtree(t, q) is Some implies root_subtree(t2, q)
        is Some || listed(paths, prefix + q) by {
        if q.len() > 0 && q[0] == i {
            assert(root_subtree(ch[i as int], q.skip(1)) is Some);
            assert(prefix.push(i) + q.skip(1) =~= prefix + q);
        }
    }
}

proof fn lemma_accounted_single(
    ch: Seq<Option<Tree>>,
    i: u8,
    c: Tree,
    prefix: Seq<u8>,
    paths: Seq<Nibbles>,
)
    requires
        i < ch.len(),
        ch[i as int] == Some(c),
        forall|j: int| 0 <= j < ch.len() && j != i ==> #[trigger] ch[j] is None,
    ensures
        accounted(Some(Tree::Fork(ch)), Some(Tree::Path(seq![i], Box::new(c))), prefix, paths),
{
    let t = Some(Tree::Fork(ch));
    let t2 = Some(Tree::Path(seq![i], Box::new(c)));
    assert forall|q: Seq<u8>| #[trigger] root_subtree(t, q) is Some implies root_subtree(t2, q)
        is Some || listed(paths, prefix + q) by {
        if q.len() > 0 {
            assert(q[0] == i);
            assert(q.take(1) =~= seq![i]);
            assert(starts_with(q, seq![i]));
            assert(subtree_at(t2->0, q) == subtree_at(c, q.skip(1)));
        }
    }
}

proof fn lemma_accounted_below(
    p: Seq<u8>,
    c: Tree,
    c2: Tree,
    prefix: Seq<u8>,
    paths: Seq<Nibbles>,
)
    requires
        accounted(Some(c), Some(c2), prefix + p, paths),
    ensures
        accounted(
            Some(Tree::Path(p, Box::new(c))),
            Some(Tree::Path(p, Box::new(c2))),
            prefix,
            paths,
        ),
{
    let t = Some(Tree::Path(p, Box::new(c)));
    let t2 = Some(Tree::Path(p, Box::new(c2)));
    assert forall|q: Seq<u8>| #[trigger] root_subtree(t, q) is Some implies root_subtree(t2, q)
        is Some || listed(paths, prefix + q) by {
        if q.len() > 0 {
            let r = q.skip(p.len() as int);
            assert(root_subtree(Some(c), r) is Some);
            assert(q =~= p + r);
            assert((prefix + p) + r =~= prefix + q);
        }
    }
}

proof fn lemma_accounted_prepend(p: Seq<u8>, c: Tree, prefix: Seq<u8>, paths: Seq<Nibbles>)
    requires
        c is Path ==> listed(paths, prefix + p),
    ensures
        accounted(Some(Tree::Path(p, Box::new(c))), Some(prepend(p, c)), prefix, paths),
{
    let t = Some(Tree::Path(p, Box::new(c)));
    let t2 = Some(prepend(p, c));
    assert forall|q: Seq<u8>| #[trigger] root_subtree(t, q) is Some implies root_subtree(t2, q)
        is Some || listed(paths, prefix + q) by {
        if q.len() > 0 {
            if let Tree::Path(k, d) = c {
                let r = q.skip(p.len() as int);
                if r.len() == 0 {
                    assert(q.take(q.len() as int) =~= q);
                    assert(q =~= p);
                } else {
                    assert(subtree_at(c, r) is Some);
                    assert(starts_with(r, k));
                    assert(q.take((p + k).len() as int) =~= q.take(p.len() as int) + r.take(
                        k.len() as int,
                    ));
                    assert(q.skip((p + k).len() as int) =~= r.skip(k.len() as int));
                    assert(subtree_at(t2->0, q) == subtree_at(*d, r.skip(k.len() as int)));
                }
            }
        }
    }
}

proof fn lemma_accounted_trans(
    t: Option<Tree>,
    t1: Option<Tree>,
    t2: Option<Tree>,
    prefix: Seq<u8>,
    paths: Seq<Nibbles>,
    paths2: Seq<Nibbles>,
    below: Seq<u8>,
)
    requires
        accounted(t, t1, prefix, paths),
        accounted(t1, t2, prefix, paths2),
        extended(paths, paths2, below),
    ensures
        accounted(t, t2, prefix, paths2),
{
    assert forall|q: Seq<u8>| #[trigger] root_subtree(t, q) is Some implies root_subtree(t2, q)
        is Some || listed(paths2, prefix + q) by {
        if root_subtree(t1, q) is None {
            lemma_listed_stays(paths, paths2, below, prefix + q);
        }
    }
}

/// `child`, the node at `prefix` and then `key`, below a short node with path `key`. Where the
/// child is a short node itself the two become one, and the path of the child is listed in
/// `gone`.
fn prepended(
    prefix: &Nibbles,
    key: Nibbles,
    child: Node,
    gone: &mut Vec<Nibbles>,
    Ghost(s): Ghost<Stored>,
    Ghost(c): Ghost<Tree>,
) -> (r: Node)
    requires
        key@.len() > 0,
        canonical(c),
        !(child@ is Hash),
        held(without(s, old(gone)@), prefix@ + key@, child@, c),
    ensures
        held(without(s, final(gone)@), prefix@, r@, prepend(key@, c)),
        extended(old(gone)@, final(gone)@, prefix@ + key@),
        c is Path ==> listed(final(gone)@, prefix@ + key@),
        !(r@ is Hash),
        r@ == match child@ {
            NodeV::Short(k, v, _) => NodeV::Short(key@ + k, v, fresh()),
            _ => NodeV::Short(key@, Box::new(child@), fresh()),
        },
{
    let ghost before = gone@;
    proof {
        assert(starts_with(prefix@ + key@, prefix@ + key@)) by {
            let x = prefix@ + key@;
            assert(x.take(x.len() as int) =~= x);
        }
    }
    match child {
        Node::ShortNode { key: child_key, value: child_value, flags: _ } => {
            let path = prefix.join(&key);
            let ghost at = path@ + child_key@;
            proof {
                lemma_above(s, before, path, at);
                lemma_held_frame(
                    without(s, before),
                    without(s, before.push(path)),
                    at,
                    child_value@,
                    *c->Path_1,
                );
                assert(prefix@ + (key@ + child_key@) =~= at);
                assert(before.push(path)[before.len() as int]@ == path@);
            }
            gone.push(path);
            Node::ShortNode {
                key: key.join(&child_key),
                value: child_value,
                flags: NodeFlag::dirty_node(),
            }
        },
        other => {
            Node::ShortNode { key, value: Box::new(other), flags: NodeFlag::dirty_node() }
        },
    }
}

/// The other slots of a branch stand for what they stood for.
proof fn lemma_slots_apart(
    s: Stored,
    paths: Seq<Nibbles>,
    paths2: Seq<Nibbles>,
    prefix: Seq<u8>,
    index: u8,
    slots: Seq<Option<NodeV>>,
    ch: Seq<Option<Tree>>,
)
    requires
        ch.len() == 17,
        extended(paths, paths2, prefix.push(index)),
        forall|i: int|
            0 <= i < ch.len() ==> match #[trigger] ch[i] {
                Some(c) => slots[i] is Some && held(
                    without(s, paths),
                    prefix.push(i as u8),
                    slots[i]->0,
                    c,
                ),
                None => slots[i] is None,
            },
    ensures
        forall|i: int|
            0 <= i < ch.len() && i != index ==> match #[trigger] ch[i] {
                Some(c) => slots[i] is Some && held(
                    without(s, paths2),
                    prefix.push(i as u8),
                    slots[i]->0,
                    c,
                ),
                None => slots[i] is None,
            },
{
    assert forall|i: int| 0 <= i < ch.len() && i != index implies match #[trigger] ch[i] {
        Some(c) => slots[i] is Some && held(
            without(s, paths2),
            prefix.push(i as u8),
            slots[i]->0,
            c,
        ),
        None => slots[i] is None,
    } by {
        if let Some(c) = ch[i] {
            let a = prefix.push(i as u8);
            let b = prefix.push(index);
            let n = prefix.len() as int;
            assert(a[n] != b[n]);
            assert(a.take(n + 1) =~= a);
            assert(b.take(n + 1) =~= b);
            lemma_apart(s, paths, paths2, b, a);
            lemma_held_frame(without(s, paths), without(s, paths2), a, slots[i]->0, c);
        }
    }
}

/// A fork keeps its shape when one subtree is replaced by another.
proof fn lemma_canonical_update(ch: Seq<Option<Tree>>, index: int, c2: Tree)
    requires
        canonical(Tree::Fork(ch)),
        0 <= index < 16,
        canonical(c2),
    ensures
        canonical(Tree::Fork(ch.update(index, Some(c2)))),
{
    let ch2 = ch.update(index, Some(c2));
    let (a, b) = choose|a: int, b: int|
        0 <= a < b < 16 && #[trigger] ch[a] is Some && #[trigger] ch[b] is Some;
    assert(ch2[a] is Some && ch2[b] is Some);
}

/// A fork that loses one of its subtrees has another.
proof fn lemma_some_left(ch: Seq<Option<Tree>>, index: int)
    requires
        canonical(Tree::Fork(ch)),
        0 <= index < 16,
    ensures
        exists|i: int| 0 <= i < 16 && #[trigger] ch.update(index, None)[i] is Some,
{
    let ch2 = ch.update(index, None);
    let (a, b) = choose|a: int, b: int|
        0 <= a < b < 16 && #[trigger] ch[a] is Some && #[trigger] ch[b] is Some;
    if a == index {
        assert(ch2[b] is Some);
    } else {
        assert(ch2[a] is Some);
    }
}

/// A fork that keeps two of its subtrees keeps its shape.
proof fn lemma_canonical_without(ch: Seq<Option<Tree>>, index: int)
    requires
        canonical(Tree::Fork(ch)),
        0 <= index < 16,
        exists|i: int, j: int|
            0 <= i < j < 17 && #[trigger] ch.update(index, None)[i] is Some
                && #[trigger] ch.update(index, None)[j] is Some,
    ensures
        canonical(Tree::Fork(ch.update(index, None))),
{
    let ch2 = ch.update(index, None);
    let (a, b) = choose|i: int, j: int|
        0 <= i < j < 17 && #[trigger] ch.update(index, None)[i] is Some
            && #[trigger] ch.update(index, None)[j] is Some;
    assert(ch2[a] is Some && ch2[b] is Some);
    assert(ch2[16] is None);
}

/// A key that ends with a stretch of path is that of a value, the only one there.
proof fn lemma_whole_match(p: Seq<u8>, c: Tree, key: Seq<u8>)
    requires
        canonical(Tree::Path(p, Box::new(c))),
        key_fits(Some(Tree::Path(p, Box::new(c))), key),
        all_nibbles(key),
        key == p,
    ensures
        c is Leaf,
        tree_get(Tree::Path(p, Box::new(c)), key) is Some,
        removed(Some(Tree::Path(p, Box::new(c))), None, key),
{
    let t = Tree::Path(p, Box::new(c));
    lemma_fits_path(p, c, key);
    assert(key.take(p.len() as int) =~= key);
    let rest = key.skip(p.len() as int);
    assert(rest =~= Seq::<u8>::empty());
    let k = lemma_has_key(c);
    assert(root_get(Some(c), k) is Some);
    if k != rest {
        assert(k.take(0) =~= rest);
        assert(starts_with(k, rest));
    }
    assert(c is Leaf);
    assert forall|k: Seq<u8>| #[trigger]
        root_get(None, k) == if k == key {
            None::<Seq<u8>>
        } else {
            root_get(Some(t), k)
        } by {
        lemma_graft_get(p, c, k);
        if starts_with(k, p) && k.len() == p.len() {
            assert(k.take(k.len() as int) =~= k);
        }
    }
}

/// A trie whose nodes are read as they are needed.
pub struct Trie<R: TrieReader, W: TrieWriter> {
    root: Option<Node>,
    reader: R,
    writer: W,
    removed: Vec<Nibbles>,
    tree: Ghost<Option<Tree>>,
}

/// The topmost node `n` stands for `t`, and `s` holds no paths but those of the nodes of `t`.
pub open spec fn rooted(s: Stored, n: Option<NodeV>, t: Option<Tree>) -> bool {
    &&& canonical_root(t)
    &&& held_root(s, Seq::empty(), n, t)
    &&& forall|p: Seq<u8>| #[trigger] s.contains_key(p) ==> root_subtree(t, p) is Some
}

/// The node of `s` at `p`, where there is one.
pub open spec fn node_stored(s: Stored, p: Seq<u8>) -> Option<NodeV> {
    if s.contains_key(p) {
        Some(s[p])
    } else {
        None
    }
}

/// A trie that can be encoded, or is empty.
pub open spec fn encodable_root(t: Option<Tree>) -> bool {
    t matches Some(t) ==> encodable(t)
}

/// What a batch of changes makes of the contents of a trie: a value is put in place, and a key
/// without a value is taken out.
pub open spec fn changed(
    m: Map<Seq<u8>, Seq<u8>>,
    changes: Seq<(Nibbles, Option<Node>)>,
) -> Map<Seq<u8>, Seq<u8>>
    decreases changes.len(),
{
    if changes.len() == 0 {
        m
    } else {
        let rest = changed(m, changes.drop_last());
        match changes.last().1 {
            Some(v) => rest.insert(changes.last().0@, v@->Value_0),
            None => rest.remove(changes.last().0@),
        }
    }
}

/// `n` half-bytes for every key of `m`.
pub open spec fn model_keys_of_length(m: Map<Seq<u8>, Seq<u8>>, n: nat) -> bool {
    forall|k: Seq<u8>| #[trigger] m.contains_key(k) ==> k.len() == n
}

/// A key of the length that all keys have fits.
proof fn lemma_model_fits(t: Option<Tree>, key: Seq<u8>)
    requires
        model_keys_of_length(contents(t), key.len()),
    ensures
        key_fits(t, key),
{
    assert(keys_of_length(t, key.len())) by {
        assert forall|k: Seq<u8>| #[trigger] root_get(t, k) is Some implies k.len() == key.len() by {
            lemma_contents_key(t, k);
        }
    }
    lemma_fixed_length_fits(t, key);
}

/// The contents after an insertion.
pub proof fn lemma_inserted_contents(t: Option<Tree>, t2: Tree, key: Seq<u8>, v: Seq<u8>)
    requires
        inserted(t, t2, key, v),
    ensures
        contents(Some(t2)) == contents(t).insert(key, v),
{
    assert forall|k: Seq<u8>| #[trigger]
        contents(Some(t2)).contains_key(k) == contents(t).insert(key, v).contains_key(k) && (
        contents(Some(t2)).contains_key(k) ==> contents(Some(t2))[k] == contents(t).insert(
            key,
            v,
        )[k]) by {
        lemma_contents_key(t, k);
        lemma_contents_key(Some(t2), k);
        assert(tree_get(t2, k) == root_get(Some(t2), k));
    }
    assert(contents(Some(t2)) =~= contents(t).insert(key, v));
}

/// The contents after a removal.
pub proof fn lemma_removed_contents(t: Option<Tree>, t2: Option<Tree>, key: Seq<u8>)
    requires
        removed(t, t2, key),
    ensures
        contents(t2) == contents(t).remove(key),
{
    assert forall|k: Seq<u8>| #[trigger]
        contents(t2).contains_key(k) == contents(t).remove(key).contains_key(k) && (contents(
            t2,
        ).contains_key(k) ==> contents(t2)[k] == contents(t).remove(key)[k]) by {
        lemma_contents_key(t, k);
        lemma_contents_key(t2, k);
        assert(root_get(t2, k) is Some || root_get(t2, k) is None);
    }
    assert(contents(t2) =~= contents(t).remove(key));
}

impl<R: TrieReader, W: TrieWriter> Trie<R, W> {
    /// The trie that this stands for.
    pub closed spec fn tree(&self) -> Option<Tree> {
        self.tree@
    }

    /// The topmost node, and what of the trie is loaded below it.
    pub closed spec fn top(&self) -> Option<NodeV> {
        node_view(self.root)
    }

    /// Where nodes are read.
    pub closed spec fn source(&self) -> R {
        self.reader
    }

    /// What the trie maps its keys to.
    pub open spec fn model(&self) -> Map<Seq<u8>, Seq<u8>> {
        contents(self.tree())
    }

    /// The loaded nodes, together with those that can be read, make up the trie.
    pub closed spec fn valid(&self) -> bool {
        &&& self.reader.faithful()
        &&& rooted(
            without(self.reader.nodes(), self.removed@),
            node_view(self.root),
            self.tree@,
        )
    }

    /// A valid trie has the shape that tries have, and so have its loaded nodes.
    pub proof fn lemma_valid(&self)
        requires
            self.valid(),
        ensures
            canonical_root(self.tree()),
            self.top() matches Some(n) ==> tidy(self.source().nodes(), Seq::empty(), n),
    {
        if let Some(n) = self.top() {
            law_canonical_nodes(
                without(self.reader.nodes(), self.removed@),
                self.reader.nodes(),
                Seq::empty(),
                n,
                self.tree@->0,
            );
        }
    }

    /// A trie with `root` as its topmost node. Other nodes are read from `reader`.
    pub fn new(root: Option<Node>, reader: R, writer: W) -> (r: Trie<R, W>)
        requires
            reader.faithful(),
            exists|t: Option<Tree>| #[trigger] rooted(reader.nodes(), node_view(root), t),
        ensures
            r.valid(),
            r.source() == reader,
            r.top() == node_view(root),
            rooted(reader.nodes(), node_view(root), r.tree()),
    {
        let ghost t = choose|t: Option<Tree>| #[trigger] rooted(reader.nodes(), node_view(root), t);
        let ghost none: Seq<Nibbles> = Seq::empty();
        proof {
            assert(without(reader.nodes(), none) =~= reader.nodes());
        }
        Trie { root, reader, writer, removed: Vec::new(), tree: Ghost(t) }
    }

    /// The trie whose nodes `reader` holds. Reads its topmost node.
    pub fn open(reader: R, writer: W) -> (r: Result<Trie<R, W>, DatabaseError>)
        requires
            reader.faithful(),
            exists|t: Option<Tree>| #[trigger] storable_root(t) && reader.nodes() == store_of(t),
        ensures
            reader.reliable() ==> r is Ok,
            r matches Err(e) ==> read_failed(reader, e),
            r matches Ok(trie) ==> trie.valid() && trie.source() == reader && storable_root(
                trie.tree(),
            ) && reader.nodes() == store_of(trie.tree()) && trie.top() == node_stored(
                reader.nodes(),
                Seq::empty(),
            ),
    {
        let ghost t = choose|t: Option<Tree>| #[trigger]
            storable_root(t) && reader.nodes() == store_of(t);
        let path = Nibbles::new();
        let root = match reader.read(&path) {
            Ok(root) => root,
            Err(e) => return Err(e),
        };
        proof {
            let s = reader.nodes();
            assert(s.contains_key(path@) == (root_subtree(t, path@) is Some));
            if let Some(tree) = t {
                lemma_store_of(tree);
                lemma_load(s, path@, tree);
            }
            assert(rooted(s, node_view(root), t)) by {
                assert forall|p: Seq<u8>| #[trigger] s.contains_key(p) implies root_subtree(t, p)
                    is Some by {}
            }
            assert forall|u: Option<Tree>| #[trigger] rooted(s, node_view(root), u) implies u == t by {
                if let Some(tree) = t {
                    lemma_loaded_unique(s, path@, tree, u->0);
                }
            }
        }
        Ok(Trie::new(root, reader, writer))
    }

    /// Puts `value` in place at `key`. A failed read leaves the trie without its nodes.
    pub fn insert(&mut self, key: Nibbles, value: Node) -> (r: Result<(), DatabaseError>)
        requires
            old(self).valid(),
            key_fits(old(self).tree(), key@),
            value@ is Value,
        ensures
            old(self).source().reliable() ==> r is Ok,
            r matches Err(e) ==> read_failed(old(self).source(), e) && final(self).top() is None,
            final(self).source() == old(self).source(),
            r is Ok ==> {
                &&& final(self).valid()
                &&& final(self).model() == old(self).model().insert(key@, value@->Value_0)
                &&& final(self).top() is Some
                &&& fresh_top(final(self).top()->0)
                &&& made(final(self).top()->0, kept(old(self).top(), Map::empty()))
                &&& tidy(final(self).source().nodes(), Seq::empty(), final(self).top()->0)
            },
    {
        let ghost s = without(self.reader.nodes(), self.removed@);
        let ghost t = self.tree@;
        let root = self.root.take();
        let (_, new_root, t_new) = match self.insert_inner(
            root,
            Nibbles::new(),
            key,
            value,
            Ghost(s),
            Ghost(t),
        ) {
            Ok(r) => r,
            Err(e) => return Err(e),
        };
        proof {
            lemma_inserted_contents(t, t_new@, key@, value@->Value_0);
        }
        self.root = Some(new_root);
        self.tree = Ghost(Some(t_new@));
        proof {
            self.lemma_valid();
        }
        Ok(())
    }

    /// Takes `key` out. A failed read leaves the trie without its nodes.
    pub fn delete(&mut self, key: Nibbles) -> (r: Result<(), DatabaseError>)
        requires
            old(self).valid(),
            key_fits(old(self).tree(), key@),
        ensures
            old(self).source().reliable() ==> r is Ok,
            r matches Err(e) ==> read_failed(old(self).source(), e) && final(self).top() is None,
            final(self).source() == old(self).source(),
            r is Ok ==> {
                &&& final(self).valid()
                &&& final(self).model() == old(self).model().remove(key@)
                &&& !old(self).model().contains_key(key@) ==> final(self).top() == old(self).top()
                &&& old(self).model().contains_key(key@) ==> (final(self).top() matches Some(n)
                    ==> fresh_top(n) && made(n, kept(old(self).top(), old(self).source().nodes())))
                &&& final(self).top() matches Some(n) ==> tidy(
                    final(self).source().nodes(),
                    Seq::empty(),
                    n,
                )
            },
    {
        let ghost t = self.tree@;
        let root = self.root.take();
        let mut gone: Vec<Nibbles> = Vec::new();
        std::mem::swap(&mut gone, &mut self.removed);
        let ghost before = gone@;
        let (_, new_root, t_new) = match self.delete_inner(
            root,
            Nibbles::new(),
            key,
            &mut gone,
            Ghost(t),
        ) {
            Ok(r) => r,
            Err(e) => return Err(e),
        };
        proof {
            lemma_removed_contents(t, t_new@, key@);
            let s = without(self.reader.nodes(), gone@);
            assert forall|p: Seq<u8>| #[trigger] s.contains_key(p) implies root_subtree(t_new@, p)
                is Some by {
                if listed(before, p) {
                    lemma_listed_stays(before, gone@, Seq::empty(), p);
                }
                assert(without(self.reader.nodes(), before).contains_key(p));
                assert(root_subtree(t, p) is Some);
                assert(Seq::<u8>::empty() + p =~= p);
            }
        }
        self.removed = gone;
        self.root = new_root;
        self.tree = t_new;
        proof {
            lemma_contents_key(t, key@);
            self.lemma_valid();
        }
        Ok(())
    }

    /// Makes a batch of changes, one after the other. A key without a value is taken out. All
    /// keys have `n` half-bytes.
    pub fn update(&mut self, changes: Vec<(Nibbles, Option<Node>)>, n: usize) -> (r: Result<
        (),
        DatabaseError,
    >)
        requires
            old(self).valid(),
            model_keys_of_length(old(self).model(), n as nat),
            forall|i: int|
                0 <= i < changes@.len() ==> {
                    &&& (#[trigger] changes@[i]).0@.len() == n
                    &&& changes@[i].1 matches Some(v) ==> v@ is Value
                },
        ensures
            old(self).source().reliable() ==> r is Ok,
            r matches Err(e) ==> read_failed(old(self).source(), e) && final(self).top() is None,
            final(self).source() == old(self).source(),
            r is Ok ==> {
                &&& final(self).valid()
                &&& final(self).model() == changed(old(self).model(), changes@)
                &&& model_keys_of_length(final(self).model(), n as nat)
            },
    {
        let ghost all = changes@;
        let mut changes = changes;
        let mut i: usize = 0;
        assert(all.take(0) =~= Seq::empty());
        while i < changes.len()
            invariant
                i <= all.len(),
                changes@.len() == all.len(),
                forall|j: int| i <= j < all.len() ==> #[trigger] changes@[j] == all[j],
                forall|j: int|
                    0 <= j < all.len() ==> {
                        &&& (#[trigger] all[j]).0@.len() == n
                        &&& all[j].1 matches Some(v) ==> v@ is Value
                    },
                self.valid(),
                self.source() == old(self).source(),
                self.model() == changed(old(self).model(), all.take(i as int)),
                model_keys_of_length(self.model(), n as nat),
            decreases all.len() - i,
        {
            assert(changes@[i as int] == all[i as int]);
            let ghost m = self.model();
            proof {
                assert(all.take(i + 1).drop_last() =~= all.take(i as int));
                assert(all.take(i + 1).last() == all[i as int]);
            }
            let key = changes[i].0.copied();
            proof {
                lemma_model_fits(self.tree(), key@);
            }
            let done = match changes[i].1.take() {
                Some(value) => self.insert(key, value),
                None => self.delete(key),
            };
            match done {
                Ok(()) => {},
                Err(e) => return Err(e),
            }
            i += 1;
        }
        assert(all.take(i as int) =~= all);
        Ok(())
    }

    /// The root hash.
    pub fn hash(&mut self) -> (r: B256)
        requires
            old(self).valid(),
            encodable_root(old(self).tree()),
        ensures
            r == state_root(old(self).model()),
            final(self).valid(),
            final(self).tree() == old(self).tree(),
            final(self).source() == old(self).source(),
            final(self).top() == match old(self).top() {
                Some(n) => Some(filled(n)),
                None => None,
            },
    {
        proof {
            lemma_root_determined(self.tree@);
        }
        let ghost s = without(self.reader.nodes(), self.removed@);
        let ghost t = self.tree@;
        match self.root.take() {
            Some(mut root) => {
                proof {
                    lemma_held_reference(s, Seq::empty(), root@, t->0);
                    lemma_filled_reference(root@);
                }
                let mut buf: Vec<u8> = Vec::new();
                root.build_hash(&mut buf);
                let hash = root.hash();
                proof {
                    lemma_referenced_hash(tree_rlp(t->0), hash);
                }
                self.root = Some(root);
                hash
            },
            None => EMPTY_ROOT_HASH,
        }
    }

    /// What has to be written for the store to be that of this trie: the changed nodes, and no
    /// others.
    pub fn take_output(self) -> (r: TrieOutput)
        requires
            self.valid(),
            encodable_root(self.tree()),
        ensures
            written(
                without(self.source().nodes(), r.removed_nodes@),
                r.update_nodes@,
            ) == store_of(self.tree()),
            flat_updates(r.update_nodes@),
            self.top() is None ==> r.update_nodes@.len() == 0,
            self.top() matches Some(n) ==> only_changed(r.update_nodes@, 0, Seq::empty(), n)
                && every_changed(r.update_nodes@, Seq::empty(), n),
    {
        let ghost s = without(self.reader.nodes(), self.removed@);
        let ghost t = self.tree@;
        let mut update_nodes: Vec<(Nibbles, Node)> = Vec::new();
        match self.root {
            Some(root) => {
                let mut buf: Vec<u8> = Vec::new();
                collect(
                    root,
                    &Nibbles::new(),
                    &mut update_nodes,
                    &mut buf,
                    Ghost(s),
                    Ghost(t->0),
                );
                proof {
                    assert forall|p: Seq<u8>| #[trigger] s.contains_key(p) implies subtree_at(
                        t->0,
                        p,
                    ) is Some by {
                        assert(root_subtree(t, p) is Some);
                    }
                    lemma_written_store(s, update_nodes@, t->0);
                    lemma_right_flat(update_nodes@, Seq::empty(), t->0);
                }
            },
            None => {
                proof {
                    assert(s =~= store_of(t)) by {
                        assert forall|p: Seq<u8>| !#[trigger] s.contains_key(p) by {
                            if s.contains_key(p) {
                                assert(root_subtree(t, p) is Some);
                            }
                        }
                    }
                }
            },
        }
        TrieOutput { update_nodes, removed_nodes: self.removed }
    }
}

impl<R: TrieReader, W: TrieWriter> Trie<R, W> {
    /// Inserts `value` at `key` below `node`, the node at `prefix`.
    fn insert_inner(
        &self,
        node: Option<Node>,
        prefix: Nibbles,
        key: Nibbles,
        value: Node,
        Ghost(s): Ghost<Stored>,
        Ghost(t): Ghost<Option<Tree>>,
    ) -> (r: Result<(bool, Node, Ghost<Tree>), DatabaseError>)
        requires
            self.reader.faithful(),
            within(s, self.reader.nodes()),
            canonical_root(t),
            held_root(s, prefix@, node_view(node), t),
            key_fits(t, key@),
            value@ is Value,
        ensures
            self.reader.reliable() ==> r is Ok,
            r matches Err(e) ==> read_failed(self.reader, e),
            r matches Ok((dirty, n2, t2)) ==> {
                &&& dirty
                &&& canonical(t2@)
                &&& inserted(t, t2@, key@, value@->Value_0)
                &&& held(s, prefix@, n2@, t2@)
                &&& grows(t, t2@)
                &&& fresh_top(n2@)
                &&& made(n2@, kept(node_view(node), Map::empty()))
                &&& (t matches Some(Tree::Fork(_)) ==> t2@ is Fork)
                &&& (t matches Some(Tree::Leaf(_)) ==> t2@ is Leaf)
            },
        decreases key@.len(), (if node_view(node) matches Some(NodeV::Hash(_)) { 1nat } else { 0nat }),
    {
        let ghost v = value@->Value_0;
        if key.is_empty() {
            assert(t is None || t->0 is Leaf) by {
                Self::lemma_empty_key(t, key@);
            }
            let ghost t2 = Tree::Leaf(v);
            assert forall|k: Seq<u8>| #[trigger]
                tree_get(t2, k) == if k == key@ {
                    Some(v)
                } else {
                    root_get(t, k)
                } by {
                if k.len() == 0 {
                    assert(k =~= key@);
                }
            }
            return Ok((true, value, Ghost(t2)));
        }
        proof {
            use_type_invariant(&key);
        }
        match node {
            Some(Node::FullNode { mut children, mut flags }) => {
                let ghost ch = t->0->Fork_0;
                let ghost slots = slots_view(children@);
                proof {
                    lemma_fits_slot(ch, key@);
                }
                let first = key.at(0);
                let index = first as usize;
                assert(slots[index as int] == slot_view(children@[index as int]));
                let child = match children[index].take() {
                    Some(child) => Some(*child),
                    None => None,
                };
                let rest = key.slice(1, key.len());
                assert(rest@ =~= key@.skip(1));
                let (dirty, new_node, t_new) = match self.insert_inner(
                    child,
                    prefix.child(first),
                    rest,
                    value,
                    Ghost(s),
                    Ghost(ch[index as int]),
                ) {
                    Ok(r) => r,
                    Err(e) => return Err(e),
                };
                let ghost new_view = new_node@;
                children[index] = Some(Box::new(new_node));
                if dirty {
                    flags.mark_dirty();
                }
                let ghost ch2 = ch.update(index as int, Some(t_new@));
                let ghost t2 = Tree::Fork(ch2);
                proof {
                    lemma_insert_slot(ch, t_new@, key@, v);
                    lemma_grows_slot(ch, first, t_new@);
                    assert(slots_view(children@) =~= slots.update(index as int, Some(new_view)));
                    lemma_made_slots(
                        NodeV::Full(slots_view(children@), fresh()),
                        node_view(node)->0,
                        index as int,
                        Map::empty(),
                    );
                    assert forall|i: int| 0 <= i < ch2.len() implies match #[trigger] ch2[i] {
                        Some(c) => slots_view(children@)[i] is Some && held(
                            s,
                            prefix@.push(i as u8),
                            slots_view(children@)[i]->0,
                            c,
                        ),
                        None => slots_view(children@)[i] is None,
                    } by {
                        if i != index {
                            assert(ch2[i] == ch[i]);
                        }
                    }
                }
                Ok((dirty, Node::FullNode { children, flags }, Ghost(t2)))
            },
            Some(Node::ShortNode { key: node_key, value: node_value, mut flags }) => {
                let ghost p = t->0->Path_0;
                let ghost c = *t->0->Path_1;
                proof {
                    use_type_invariant(&node_key);
                    lemma_shared_len_props(key@, node_key@);
                    lemma_fits_path(p, c, key@);
                }
                let matchlen = key.common_prefix_length(&node_key);
                if matchlen == node_key.len() {
                    proof {
                        assert(node_key@.take(matchlen as int) =~= node_key@);
                        assert(starts_with(key@, p));
                    }
                    let rest = key.slice(matchlen, key.len());
                    assert(rest@ =~= key@.skip(matchlen as int));
                    let (dirty, new_node, t_new) = match self.insert_inner(
                        Some(*node_value),
                        prefix.join(&key.slice(0, matchlen)),
                        rest,
                        value,
                        Ghost(s),
                        Ghost(Some(c)),
                    ) {
                        Ok(r) => r,
                        Err(e) => return Err(e),
                    };
                    if dirty {
                        flags.mark_dirty();
                    }
                    let ghost t2 = Tree::Path(p, Box::new(t_new@));
                    proof {
                        lemma_insert_below(p, c, t_new@, key@, v);
                        lemma_grows_below(p, c, t_new@);
                        lemma_made_above(
                            new_node@,
                            Some(node_value@),
                            node_view(node)->0,
                            Map::empty(),
                        );
                    }
                    return Ok(
                        (
                            dirty,
                            Node::ShortNode { key: node_key, value: Box::new(new_node), flags },
                            Ghost(t2),
                        ),
                    );
                }
                proof {
                    if matchlen == key@.len() {
                        assert(key@.take(matchlen as int) =~= key@);
                        assert(starts_with(p, key@));
                    }
                }
                // The paths part after `matchlen` half-bytes: fork there.
                let extension_path = node_key.slice(matchlen + 1, node_key.len());
                let key_rest = key.slice(matchlen + 1, key.len());
                let head = key.slice(0, matchlen);
                let ghost m = matchlen as int;
                let ghost fork_at = prefix@ + head@;
                let ghost old_at = fork_at.push(p[m]);
                let ghost new_at = fork_at.push(key@[m]);
                let ghost old_next = node_value@;
                let ghost a = graft(p.skip(m + 1), c);
                let ghost b = graft(key@.skip(m + 1), Tree::Leaf(v));
                let extension_node = grafted(extension_path, *node_value);
                let new_node = grafted(key_rest, value);
                proof {
                    assert(extension_path@ =~= p.skip(m + 1));
                    assert(key_rest@ =~= key@.skip(m + 1));
                    assert(head@ =~= key@.take(m));
                    assert(p =~= p.take(m).push(p[m]) + p.skip(m + 1));
                    assert(old_at + extension_path@ =~= prefix@ + p);
                    lemma_held_graft(s, old_at, extension_path@, old_next, c);
                    assert(held(s, new_at + key_rest@, value@, Tree::Leaf(v)));
                    lemma_held_graft(s, new_at, key_rest@, value@, Tree::Leaf(v));
                }
                let branch = forked(node_key.at(matchlen), extension_node, key.at(matchlen), new_node);
                let ghost ch = two_slots(p[m] as int, a, key@[m] as int, b);
                let ghost t2 = graft(key@.take(m), Tree::Fork(ch));
                proof {
                    lemma_insert_split(p, c, key@, v, m);
                    lemma_grows_split(p, c, key@, v, m);
                    assert forall|i: int| 0 <= i < ch.len() implies match #[trigger] ch[i] {
                        Some(d) => branch@->Full_0[i] is Some && held(
                            s,
                            fork_at.push(i as u8),
                            branch@->Full_0[i]->0,
                            d,
                        ),
                        None => branch@->Full_0[i] is None,
                    } by {}
                    assert(held(s, fork_at, branch@, Tree::Fork(ch)));
                    lemma_held_graft(s, prefix@, head@, branch@, Tree::Fork(ch));
                    let keep = kept(node_view(node), Map::empty());
                    assert(part_of(old_next, old_next));
                    assert(below(old_next, node_view(node)->0));
                    assert(keep(old_next));
                    assert(made(old_next, keep));
                    assert(made(value@, keep));
                    assert(made(extension_node@, keep));
                    assert(made(new_node@, keep));
                    assert(made(branch@, keep));
                }
                Ok((true, grafted(head, branch), Ghost(t2)))
            },
            Some(Node::HashNode(rlp)) => {
                proof {
                    lemma_load(s, prefix@, t->0);
                }
                let real_node = match self.reader.read(&prefix) {
                    Ok(real_node) => real_node,
                    Err(e) => return Err(e),
                };
                let (dirty, new_node, t_new) = match self.insert_inner(
                    real_node,
                    prefix,
                    key,
                    value,
                    Ghost(s),
                    Ghost(t),
                ) {
                    Ok(r) => r,
                    Err(e) => return Err(e),
                };
                proof {
                    lemma_made_loaded(
                        new_node@,
                        node_view(real_node)->0,
                        node_view(node),
                        Map::empty(),
                    );
                }
                if dirty {
                    Ok((true, new_node, t_new))
                } else {
                    Ok((false, Node::HashNode(rlp), Ghost(t->0)))
                }
            },
            Some(Node::ValueNode(old_value)) => {
                proof {
                    lemma_fits_leaf(old_value@, key@);
                }
                Ok((true, value, Ghost(Tree::Leaf(v))))
            },
            None => {
                let ghost t2 = Tree::Path(key@, Box::new(Tree::Leaf(v)));
                proof {
                    assert(canonical(Tree::Leaf(v)));
                    assert forall|k: Seq<u8>| #[trigger]
                        tree_get(t2, k) == if k == key@ {
                            Some(v)
                        } else {
                            root_get(t, k)
                        } by {
                        lemma_graft_get(key@, Tree::Leaf(v), k);
                        assert(key@.take(key@.len() as int) =~= key@);
                        if starts_with(k, key@) && k.len() == key@.len() {
                            assert(k.take(k.len() as int) =~= k);
                        }
                    }
                    assert(held(s, prefix@ + key@, value@, Tree::Leaf(v)));
                    assert(made(value@, kept(node_view(node), Map::empty())));
                }
                Ok((true, grafted(key, value), Ghost(t2)))
            },
        }
    }

    /// Loads `node`, the node at `path`, where it is only a reference.
    fn resolve(
        &self,
        node: Node,
        path: &Nibbles,
        Ghost(s): Ghost<Stored>,
        Ghost(t): Ghost<Tree>,
    ) -> (r: Result<Node, DatabaseError>)
        requires
            self.reader.faithful(),
            within(s, self.reader.nodes()),
            canonical(t),
            held(s, path@, node@, t),
        ensures
            self.reader.reliable() ==> r is Ok,
            r matches Err(e) ==> read_failed(self.reader, e),
            r matches Ok(n) ==> !(n@ is Hash) && held(s, path@, n@, t),
            r matches Ok(n) ==> n@ == node@ || flat(n@) && self.reader.nodes().contains_key(path@)
                && self.reader.nodes()[path@] == n@,
    {
        match node {
            Node::HashNode(_) => {
                proof {
                    lemma_load(s, path@, t);
                }
                match self.reader.read(path) {
                    Ok(loaded) => Ok(loaded.unwrap()),
                    Err(e) => Err(e),
                }
            },
            other => Ok(other),
        }
    }

    /// Deletes `key` below `node`, the node at `prefix`. Lists in `gone` the paths at which there
    /// is no node any more.
    #[verifier::rlimit(40)]
    fn delete_inner(
        &self,
        node: Option<Node>,
        prefix: Nibbles,
        key: Nibbles,
        gone: &mut Vec<Nibbles>,
        Ghost(t): Ghost<Option<Tree>>,
    ) -> (r: Result<(bool, Option<Node>, Ghost<Option<Tree>>), DatabaseError>)
        requires
            self.reader.faithful(),
            canonical_root(t),
            held_root(without(self.reader.nodes(), old(gone)@), prefix@, node_view(node), t),
            key_fits(t, key@),
        ensures
            self.reader.reliable() ==> r is Ok,
            r matches Err(e) ==> read_failed(self.reader, e),
            r matches Ok((dirty, n2, t2)) ==> {
                &&& dirty == (root_get(t, key@) is Some)
                &&& canonical_root(t2@)
                &&& removed(t, t2@, key@)
                &&& !dirty ==> t2@ == t && node_view(n2) == node_view(node) && final(gone)@ == old(
                    gone,
                )@
                &&& extended(old(gone)@, final(gone)@, prefix@)
                &&& held_root(
                    without(self.reader.nodes(), final(gone)@),
                    prefix@,
                    node_view(n2),
                    t2@,
                )
                &&& accounted(t, t2@, prefix@, final(gone)@)
                &&& dirty ==> !(node_view(n2) matches Some(NodeV::Hash(_)))
                &&& dirty ==> (n2 matches Some(n) ==> fresh_top(n@) && made(
                    n@,
                    kept(node_view(node), self.reader.nodes()),
                ))
                &&& t matches Some(Tree::Fork(_)) ==> t2@ is Some
                &&& n2 matches Some(n) ==> tidy(self.reader.nodes(), prefix@, n@)
            },
        decreases key@.len(), (if node_view(node) matches Some(NodeV::Hash(_)) { 1nat } else { 0nat }),
    {
        let ghost nodes = self.reader.nodes();
        let ghost before = gone@;
        proof {
            use_type_invariant(&key);
            assert(prefix@.take(prefix@.len() as int) =~= prefix@);
        }
        match node {
            Some(Node::FullNode { mut children, flags }) => {
                let ghost ch = t->0->Fork_0;
                let ghost slots = slots_view(children@);
                proof {
                    lemma_fits_slot(ch, key@);
                }
                let first = key.at(0);
                let index = first as usize;
                let ghost at = prefix@.push(first);
                assert(slots[index as int] == slot_view(children@[index as int]));
                let child = match children[index].take() {
                    Some(child) => Some(*child),
                    None => None,
                };
                let rest = key.slice(1, key.len());
                assert(rest@ =~= key@.skip(1));
                let (dirty, new_node, t_new) = match self.delete_inner(
                    child,
                    prefix.child(first),
                    rest,
                    gone,
                    Ghost(ch[index as int]),
                ) {
                    Ok(r) => r,
                    Err(e) => return Err(e),
                };
                let ghost new_view = node_view(new_node);
                let ghost mid = gone@;
                children[index] = match new_node {
                    Some(n) => Some(Box::new(n)),
                    None => None,
                };
                let ghost ch2 = ch.update(index as int, t_new@);
                let ghost slots2 = slots_view(children@);
                proof {
                    assert(slots2 =~= slots.update(index as int, new_view));
                    lemma_remove_slot(ch, t_new@, key@);
                    assert(at.take(prefix@.len() as int) =~= prefix@);
                    lemma_extended(before, mid, at, prefix@);
                    lemma_accounted_slot(ch, first, t_new@, prefix@, mid);
                    lemma_slots_apart(nodes, before, mid, prefix@, first, slots, ch);
                }
                if !dirty {
                    proof {
                        assert(slots2 =~= slots);
                        assert(ch2 =~= ch);
                        law_canonical_nodes(
                            without(nodes, gone@),
                            nodes,
                            prefix@,
                            node_view(node)->0,
                            t->0,
                        );
                    }
                    return Ok((false, Some(Node::FullNode { children, flags }), Ghost(t)));
                }
                if children[index].is_some() {
                    proof {
                        lemma_canonical_update(ch, index as int, t_new@->0);
                        lemma_made_slots(
                            NodeV::Full(slots2, fresh()),
                            node_view(node)->0,
                            index as int,
                            nodes,
                        );
                        law_canonical_nodes(
                            without(nodes, gone@),
                            nodes,
                            prefix@,
                            NodeV::Full(slots2, fresh()),
                            Tree::Fork(ch2),
                        );
                    }
                    return Ok(
                        (
                            true,
                            Some(Node::FullNode { children, flags: NodeFlag::dirty_node() }),
                            Ghost(Some(Tree::Fork(ch2))),
                        ),
                    );
                }
                // One child went. Where a single one is left the branch becomes a short node.
                let pos = single_child(&children);
                proof {
                    lemma_some_left(ch, index as int);
                    assert forall|i: int| 0 <= i < 17 implies (#[trigger] children@[i] is Some) == (
                    ch2[i] is Some) by {
                        assert(slots2[i] == slot_view(children@[i]));
                        if i != index {
                            assert(ch2[i] == ch[i]);
                        }
                    }
                }
                if pos >= 0 {
                    let nibble = pos as u8;
                    let position = pos as usize;
                    let ghost c = ch2[position as int]->0;
                    assert forall|j: int| 0 <= j < 17 && j != pos implies #[trigger] ch2[j]
                        is None by {
                        assert(children@[j] is None);
                    }
                    let single = *children[position].take().unwrap();
                    let ghost single_view = single@;
                    proof {
                        assert(ch[position as int] == Some(c));
                        assert(slots2[position as int] == Some(single@));
                        assert(prefix@.push(nibble) =~= prefix@ + seq![nibble]);
                    }
                    let child_path = prefix.child(nibble);
                    let loaded = match self.resolve(
                        single,
                        &child_path,
                        Ghost(without(nodes, mid)),
                        Ghost(c),
                    ) {
                        Ok(n) => n,
                        Err(e) => return Err(e),
                    };
                    let short_key = Nibbles::new().child(nibble);
                    assert(short_key@ =~= seq![nibble]);
                    let n2 = prepended(&prefix, short_key, loaded, gone, Ghost(nodes), Ghost(c));
                    let ghost t2 = Some(prepend(seq![nibble], c));
                    proof {
                        let keep = kept(node_view(node), nodes);
                        if loaded@ == single_view {
                            assert(slots[position as int] is Some && part_of(
                                single_view,
                                slots[position as int]->0,
                            ));
                        }
                        assert(keep(loaded@));
                        assert(made(loaded@, keep));
                        if loaded@ is Short {
                            lemma_made_end(loaded@, node_view(node), nodes);
                        }
                        let step = Some(Tree::Path(seq![nibble], Box::new(c)));
                        lemma_collapse(ch2, nibble, c);
                        lemma_accounted_single(ch2, nibble, c, prefix@, mid);
                        lemma_accounted_trans(
                            t,
                            Some(Tree::Fork(ch2)),
                            step,
                            prefix@,
                            mid,
                            mid,
                            prefix@,
                        );
                        lemma_accounted_prepend(seq![nibble], c, prefix@, gone@);
                        lemma_accounted_trans(
                            t,
                            step,
                            t2,
                            prefix@,
                            mid,
                            gone@,
                            prefix@ + seq![nibble],
                        );
                        assert((prefix@ + seq![nibble]).take(prefix@.len() as int) =~= prefix@);
                        lemma_extended(mid, gone@, prefix@ + seq![nibble], prefix@);
                        assert forall|k: Seq<u8>| #[trigger]
                            root_get(t2, k) == if k == key@ {
                                None::<Seq<u8>>
                            } else {
                                root_get(t, k)
                            } by {
                            assert(tree_get(t2->0, k) == tree_get(Tree::Fork(ch2), k));
                            assert(root_get(Some(Tree::Fork(ch2)), k) == tree_get(
                                Tree::Fork(ch2),
                                k,
                            ));
                        }
                    }
                    proof {
                        law_canonical_nodes(without(nodes, gone@), nodes, prefix@, n2@, t2->0);
                    }
                    Ok((true, Some(n2), Ghost(t2)))
                } else {
                    proof {
                        if pos == -1 {
                            let i = choose|i: int|
                                0 <= i < 16 && #[trigger] ch.update(index as int, None)[i] is Some;
                            assert(children@[i] is None);
                        }
                        let (a, b) = choose|i: int, j: int|
                            0 <= i < j < 17 && #[trigger] children@[i] is Some
                                && #[trigger] children@[j] is Some;
                        assert(ch.update(index as int, None)[a] is Some && ch.update(
                            index as int,
                            None,
                        )[b] is Some);
                        lemma_canonical_without(ch, index as int);
                        lemma_made_slots(
                            NodeV::Full(slots2, fresh()),
                            node_view(node)->0,
                            index as int,
                            nodes,
                        );
                        law_canonical_nodes(
                            without(nodes, gone@),
                            nodes,
                            prefix@,
                            NodeV::Full(slots2, fresh()),
                            Tree::Fork(ch2),
                        );
                    }
                    Ok(
                        (
                            true,
                            Some(Node::FullNode { children, flags: NodeFlag::dirty_node() }),
                            Ghost(Some(Tree::Fork(ch2))),
                        ),
                    )
                }
            },
            Some(Node::ShortNode { key: node_key, value: node_value, flags }) => {
                let ghost p = t->0->Path_0;
                let ghost c = *t->0->Path_1;
                proof {
                    use_type_invariant(&node_key);
                    lemma_shared_len_props(key@, node_key@);
                    lemma_fits_path(p, c, key@);
                }
                let matchlen = key.common_prefix_length(&node_key);
                if matchlen < node_key.len() {
                    proof {
                        if root_get(t, key@) is Some {
                            assert(starts_with(key@, p));
                            assert(key@.take(p.len() as int)[matchlen as int] == p[matchlen as int]);
                        }
                        law_canonical_nodes(
                            without(nodes, gone@),
                            nodes,
                            prefix@,
                            node_view(node)->0,
                            t->0,
                        );
                    }
                    return Ok(
                        (
                            false,
                            Some(Node::ShortNode { key: node_key, value: node_value, flags }),
                            Ghost(t),
                        ),
                    );
                }
                proof {
                    assert(node_key@.take(matchlen as int) =~= node_key@);
                    assert(starts_with(key@, p));
                }
                if matchlen == key.len() {
                    proof {
                        assert(key@.take(matchlen as int) =~= key@);
                        lemma_whole_match(p, c, key@);
                        assert(before.push(prefix)[before.len() as int]@ == prefix@);
                        assert forall|q: Seq<u8>| #[trigger] root_subtree(t, q) is Some implies listed(
                            before.push(prefix),
                            prefix@ + q,
                        ) by {
                            assert(subtree_at(c, q.skip(p.len() as int)) is None);
                            assert(q.len() == 0);
                            assert(prefix@ + q =~= prefix@);
                        }
                    }
                    gone.push(prefix);
                    return Ok((true, None, Ghost(None)));
                }
                let rest = key.slice(matchlen, key.len());
                assert(rest@ =~= key@.skip(matchlen as int));
                let below = prefix.join(&key.slice(0, matchlen));
                proof {
                    assert(key@.take(matchlen as int) =~= p);
                    assert(below@ =~= prefix@ + p);
                    assert((prefix@ + p).take(prefix@.len() as int) =~= prefix@);
                    if c is Leaf {
                        lemma_fits_leaf(c->Leaf_0, rest@);
                    }
                }
                let (dirty, new_node, t_new) = match self.delete_inner(
                    Some(*node_value),
                    below,
                    rest,
                    gone,
                    Ghost(Some(c)),
                ) {
                    Ok(r) => r,
                    Err(e) => return Err(e),
                };
                let ghost mid = gone@;
                let new_node = new_node.unwrap();
                proof {
                    lemma_extended(before, mid, prefix@ + p, prefix@);
                    lemma_remove_below(p, c, t_new@->0, key@);
                }
                if !dirty {
                    proof {
                        law_canonical_nodes(
                            without(nodes, gone@),
                            nodes,
                            prefix@,
                            node_view(node)->0,
                            t->0,
                        );
                    }
                    return Ok(
                        (
                            false,
                            Some(Node::ShortNode { key: node_key, value: Box::new(new_node), flags }),
                            Ghost(t),
                        ),
                    );
                }
                let n2 = prepended(
                    &prefix,
                    node_key,
                    new_node,
                    gone,
                    Ghost(nodes),
                    Ghost(t_new@->0),
                );
                let ghost t2 = Some(prepend(p, t_new@->0));
                proof {
                    lemma_made_above(new_node@, Some(node_value@), node_view(node)->0, nodes);
                    if new_node@ is Short {
                        lemma_made_end(new_node@, node_view(node), nodes);
                    }
                    lemma_extended(mid, gone@, prefix@ + p, prefix@);
                    lemma_accounted_below(p, c, t_new@->0, prefix@, mid);
                    lemma_accounted_prepend(p, t_new@->0, prefix@, gone@);
                    lemma_accounted_trans(
                        t,
                        Some(Tree::Path(p, Box::new(t_new@->0))),
                        t2,
                        prefix@,
                        mid,
                        gone@,
                        prefix@,
                    );
                    law_canonical_nodes(without(nodes, gone@), nodes, prefix@, n2@, t2->0);
                }
                Ok((true, Some(n2), Ghost(t2)))
            },
            Some(Node::ValueNode(value)) => {
                proof {
                    lemma_fits_leaf(value@, key@);
                    assert forall|k: Seq<u8>| #[trigger]
                        root_get(None, k) == if k == key@ {
                            None::<Seq<u8>>
                        } else {
                            root_get(t, k)
                        } by {
                        if k.len() == 0 {
                            assert(k =~= key@);
                        }
                    }
                }
                Ok((true, None, Ghost(None)))
            },
            Some(Node::HashNode(rlp)) => {
                proof {
                    lemma_load(without(nodes, before), prefix@, t->0);
                }
                let real_node = match self.reader.read(&prefix) {
                    Ok(real_node) => real_node,
                    Err(e) => return Err(e),
                };
                let (dirty, new_node, t_new) = match self.delete_inner(
                    real_node,
                    prefix,
                    key,
                    gone,
                    Ghost(t),
                ) {
                    Ok(r) => r,
                    Err(e) => return Err(e),
                };
                proof {
                    if dirty && new_node is Some {
                        lemma_made_loaded(
                            node_view(new_node)->0,
                            node_view(real_node)->0,
                            node_view(node),
                            nodes,
                        );
                    }
                }
                if dirty {
                    Ok((true, new_node, t_new))
                } else {
                    Ok((false, Some(Node::HashNode(rlp)), Ghost(t)))
                }
            },
            None => Ok((false, None, Ghost(None))),
        }
    }

    /// Only an empty trie, or one that is a value, takes the empty key.
    proof fn lemma_empty_key(t: Option<Tree>, key: Seq<u8>)
        requires
            canonical_root(t),
            key_fits(t, key),
            key.len() == 0,
        ensures
            t is None || t->0 is Leaf,
    {
        if let Some(tree) = t {
            let k = lemma_has_key(tree);
            assert(root_get(t, k) is Some);
            if k != key {
                assert(k.take(0) =~= key);
                assert(starts_with(k, key));
            }
            match tree {
                Tree::Leaf(_) => {},
                Tree::Path(p, _) => {
                    assert(tree_get(tree, key) is None);
                },
                Tree::Fork(_) => {},
            }
        }
    }
}

} // verus!
