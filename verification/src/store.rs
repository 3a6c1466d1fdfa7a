//! How a trie is spread over stored nodes, and how a partly loaded trie relates to the store.

use vstd::prelude::*;

use crate::errors::DatabaseError;
use crate::nibbles::{starts_with, Nibbles};
use crate::node::{FlagV, Node, NodeV};
use crate::tree::{canonical, canonical_root, tree_reference, Tree};

verus! {

/// Stored nodes by path.
pub type Stored = Map<Seq<u8>, NodeV>;

/// The subtree of `t` whose topmost node has path `p`. A bare value has no path of its own.
pub open spec fn subtree_at(t: Tree, p: Seq<u8>) -> Option<Tree>
    decreases t,
{
    if t is Leaf {
        None
    } else if p.len() == 0 {
        Some(t)
    } else {
        match t {
            Tree::Leaf(_) => None,
            Tree::Path(k, c) => if starts_with(p, k) {
                subtree_at(*c, p.skip(k.len() as int))
            } else {
                None
            },
            Tree::Fork(ch) => if (p[0] as int) < ch.len() {
                match ch[p[0] as int] {
                    Some(c) => subtree_at(c, p.skip(1)),
                    None => None,
                }
            } else {
                None
            },
        }
    }
}

/// [`subtree_at`] of a trie that may be empty.
pub open spec fn root_subtree(t: Option<Tree>, p: Seq<u8>) -> Option<Tree> {
    match t {
        Some(t) => subtree_at(t, p),
        None => None,
    }
}

/// The topmost node of `t` as it is stored: with references in place of its children.
pub open spec fn collapsed(t: Tree) -> NodeV {
    let f = FlagV { rlp: None, dirty: false };
    match t {
        Tree::Leaf(v) => NodeV::Value(v),
        Tree::Path(k, c) => NodeV::Short(
            k,
            Box::new(
                match *c {
                    Tree::Leaf(v) => NodeV::Value(v),
                    _ => NodeV::Hash(tree_reference(*c)),
                },
            ),
            f,
        ),
        Tree::Fork(ch) => NodeV::Full(
            Seq::new(
                ch.len(),
                |i: int|
                    match ch[i] {
                        Some(c) => Some(NodeV::Hash(tree_reference(c))),
                        None => None,
                    },
            ),
            f,
        ),
    }
}

/// The nodes that a store of `t` holds.
pub open spec fn store_of(t: Option<Tree>) -> Stored {
    Map::new(
        |p: Seq<u8>| root_subtree(t, p) is Some,
        |p: Seq<u8>| collapsed(root_subtree(t, p)->0),
    )
}

/// No value stands directly in a fork, or alone.
pub open spec fn storable(t: Tree) -> bool
    decreases t,
{
    match t {
        Tree::Leaf(_) => false,
        Tree::Path(_, c) => *c is Leaf || storable(*c),
        Tree::Fork(ch) => forall|i: int|
            0 <= i < ch.len() ==> match #[trigger] ch[i] {
                Some(c) => storable(c),
                None => true,
            },
    }
}

/// `s` holds every node of `t`, whose topmost node has path `path`.
pub open spec fn stored(s: Stored, path: Seq<u8>, t: Tree) -> bool {
    forall|q: Seq<u8>| #[trigger]
        subtree_at(t, q) is Some ==> s.contains_key(path + q) && s[path + q] == collapsed(
            subtree_at(t, q)->0,
        )
}

/// What a node's flag says is right: a remembered reference is that of `t`, and a node without
/// change is in the store as it is.
pub open spec fn flag_right(s: Stored, path: Seq<u8>, f: FlagV, t: Tree) -> bool {
    &&& f.rlp matches Some(r) ==> r == tree_reference(t)
    &&& !f.dirty ==> s.contains_key(path) && s[path] == collapsed(t)
}

/// The node `n` at `path` stands for the trie `t`, where what is not loaded is in `s`.
pub open spec fn held(s: Stored, path: Seq<u8>, n: NodeV, t: Tree) -> bool
    decreases t,
{
    match n {
        NodeV::Hash(r) => storable(t) && r == tree_reference(t) && stored(s, path, t),
        NodeV::Value(v) => t == Tree::Leaf(v),
        NodeV::Short(key, next, f) => match t {
            Tree::Path(p, c) => key == p && flag_right(s, path, f, t) && held(
                s,
                path + p,
                *next,
                *c,
            ),
            _ => false,
        },
        NodeV::Full(ch, f) => match t {
            Tree::Fork(tc) => ch.len() == tc.len() && flag_right(s, path, f, t) && forall|i: int|
                0 <= i < tc.len() ==> match #[trigger] tc[i] {
                    Some(c) => ch[i] is Some && held(s, path.push(i as u8), ch[i]->0, c),
                    None => ch[i] is None,
                },
            _ => false,
        },
    }
}

/// [`held`] of a trie that may be empty.
pub open spec fn held_root(s: Stored, path: Seq<u8>, n: Option<NodeV>, t: Option<Tree>) -> bool {
    match t {
        Some(t) => n is Some && held(s, path, n->0, t),
        None => n is None,
    }
}

/// Two stores agree on every path that starts with `path`, as far as the first goes.
pub open spec fn covers(s: Stored, s2: Stored, path: Seq<u8>) -> bool {
    forall|p: Seq<u8>| #[trigger]
        s.contains_key(p) && starts_with(p, path) ==> s2.contains_key(p) && s2[p] == s[p]
}

/// What a node at `path` stands for depends on the store below `path` alone.
pub proof fn lemma_held_frame(s: Stored, s2: Stored, path: Seq<u8>, n: NodeV, t: Tree)
    requires
        held(s, path, n, t),
        covers(s, s2, path),
    ensures
        held(s2, path, n, t),
    decreases t,
{
    assert(path.take(path.len() as int) =~= path);
    match n {
        NodeV::Hash(r) => {
            assert forall|q: Seq<u8>| #[trigger] subtree_at(t, q) is Some implies s2.contains_key(
                path + q,
            ) && s2[path + q] == collapsed(subtree_at(t, q)->0) by {
                assert((path + q).take(path.len() as int) =~= path);
                assert(s.contains_key(path + q));
            }
        },
        NodeV::Value(_) => {},
        NodeV::Short(key, next, f) => {
            let p = t->Path_0;
            assert((path + p).take(path.len() as int) =~= path);
            lemma_covers_below(s, s2, path, path + p);
            lemma_held_frame(s, s2, path + p, *next, *t->Path_1);
            assert(starts_with(path, path));
        },
        NodeV::Full(ch, f) => {
            let tc = t->Fork_0;
            assert(starts_with(path, path));
            assert forall|i: int| 0 <= i < tc.len() implies match #[trigger] tc[i] {
                Some(c) => ch[i] is Some && held(s2, path.push(i as u8), ch[i]->0, c),
                None => ch[i] is None,
            } by {
                if let Some(c) = tc[i] {
                    assert(path.push(i as u8).take(path.len() as int) =~= path);
                    lemma_covers_below(s, s2, path, path.push(i as u8));
                    lemma_held_frame(s, s2, path.push(i as u8), ch[i]->0, c);
                }
            }
        },
    }
}

/// Agreement below a path includes agreement below its continuations.
pub proof fn lemma_covers_below(s: Stored, s2: Stored, path: Seq<u8>, below: Seq<u8>)
    requires
        covers(s, s2, path),
        starts_with(below, path),
    ensures
        covers(s, s2, below),
{
    assert forall|p: Seq<u8>| #[trigger]
        s.contains_key(p) && starts_with(p, below) implies s2.contains_key(p) && s2[p] == s[p] by {
        assert(p.take(path.len() as int) =~= p.take(below.len() as int).take(path.len() as int));
    }
}

/// The subtrees below a fork are those of its slots.
pub proof fn lemma_subtree_slot(ch: Seq<Option<Tree>>, i: u8, q: Seq<u8>)
    requires
        i < ch.len(),
    ensures
        subtree_at(Tree::Fork(ch), seq![i] + q) == root_subtree(ch[i as int], q),
{
    assert((seq![i] + q).skip(1) =~= q);
}

/// The subtrees below a stretch of path are those of what follows it.
pub proof fn lemma_subtree_below(k: Seq<u8>, c: Tree, q: Seq<u8>)
    requires
        k.len() > 0,
    ensures
        subtree_at(Tree::Path(k, Box::new(c)), k + q) == subtree_at(c, q),
{
    assert((k + q).skip(k.len() as int) =~= q);
    assert((k + q).take(k.len() as int) =~= k);
}

/// What follows a stretch of path in a stored trie is stored.
proof fn lemma_stored_below(s: Stored, path: Seq<u8>, k: Seq<u8>, c: Tree)
    requires
        k.len() > 0,
        stored(s, path, Tree::Path(k, Box::new(c))),
    ensures
        stored(s, path + k, c),
{
    let t = Tree::Path(k, Box::new(c));
    assert forall|q: Seq<u8>| #[trigger] subtree_at(c, q) is Some implies s.contains_key(
        (path + k) + q,
    ) && s[(path + k) + q] == collapsed(subtree_at(c, q)->0) by {
        lemma_subtree_below(k, c, q);
        assert(path + (k + q) =~= (path + k) + q);
        assert(subtree_at(t, k + q) is Some);
    }
}

/// The subtrees of a stored fork are stored.
proof fn lemma_stored_slot(s: Stored, path: Seq<u8>, ch: Seq<Option<Tree>>, i: u8)
    requires
        i < ch.len(),
        ch[i as int] is Some,
        stored(s, path, Tree::Fork(ch)),
    ensures
        stored(s, path.push(i), ch[i as int]->0),
{
    let t = Tree::Fork(ch);
    let c = ch[i as int]->0;
    let at = path.push(i);
    assert forall|q: Seq<u8>| #[trigger] subtree_at(c, q) is Some implies s.contains_key(at + q)
        && s[at + q] == collapsed(subtree_at(c, q)->0) by {
        lemma_subtree_slot(ch, i, q);
        assert(path + (seq![i] + q) =~= at + q);
        assert(subtree_at(t, seq![i] + q) is Some);
    }
}

/// A stored node stands for the subtree at its path.
pub proof fn lemma_load(s: Stored, path: Seq<u8>, t: Tree)
    requires
        canonical(t),
        storable(t),
        stored(s, path, t),
    ensures
        s.contains_key(path),
        s[path] == collapsed(t),
        held(s, path, collapsed(t), t),
{
    let e = Seq::<u8>::empty();
    assert(subtree_at(t, e) is Some);
    assert(path + e =~= path);
    match t {
        Tree::Leaf(_) => {},
        Tree::Path(k, c) => {
            if let Tree::Leaf(v) = *c {
                assert(held(s, path + k, NodeV::Value(v), *c));
            } else {
                lemma_stored_below(s, path, k, *c);
                assert(held(s, path + k, NodeV::Hash(tree_reference(*c)), *c));
            }
        },
        Tree::Fork(ch) => {
            let n = collapsed(t);
            assert forall|i: int| 0 <= i < ch.len() implies match #[trigger] ch[i] {
                Some(c) => n->Full_0[i] is Some && held(s, path.push(i as u8), n->Full_0[i]->0, c),
                None => n->Full_0[i] is None,
            } by {
                if let Some(c) = ch[i] {
                    lemma_stored_slot(s, path, ch, i as u8);
                    assert(held(s, path.push(i as u8), NodeV::Hash(tree_reference(c)), c));
                }
            }
        },
    }
}

/// Stored nodes determine the trie that they make up.
pub proof fn lemma_stored_unique(s: Stored, path: Seq<u8>, t: Tree, u: Tree)
    requires
        canonical(t),
        storable(t),
        stored(s, path, t),
        canonical(u),
        storable(u),
        stored(s, path, u),
    ensures
        t == u,
    decreases t,
{
    lemma_load(s, path, t);
    lemma_load(s, path, u);
    match (t, u) {
        (Tree::Path(k, c), Tree::Path(l, d)) => {
            if !(*c is Leaf) && !(*d is Leaf) {
                lemma_stored_below(s, path, k, *c);
                lemma_stored_below(s, path, l, *d);
                lemma_stored_unique(s, path + k, *c, *d);
            }
        },
        (Tree::Fork(ch), Tree::Fork(dh)) => {
            let slots = collapsed(t)->Full_0;
            assert(slots == collapsed(u)->Full_0);
            assert forall|i: int| 0 <= i < 17 implies #[trigger] ch[i] == dh[i] by {
                assert(slots[i] is Some == ch[i] is Some);
                assert(collapsed(u)->Full_0[i] is Some == dh[i] is Some);
                if ch[i] is Some {
                    lemma_stored_slot(s, path, ch, i as u8);
                    lemma_stored_slot(s, path, dh, i as u8);
                    lemma_stored_unique(s, path.push(i as u8), ch[i]->0, dh[i]->0);
                }
            }
            assert(ch =~= dh);
        },
        _ => {},
    }
}

/// A stored node stands for no other trie than that at its path.
pub proof fn lemma_loaded_unique(s: Stored, path: Seq<u8>, t: Tree, u: Tree)
    requires
        canonical(t),
        storable(t),
        stored(s, path, t),
        canonical(u),
        held(s, path, collapsed(t), u),
    ensures
        t == u,
{
    match t {
        Tree::Leaf(_) => {},
        Tree::Path(k, c) => {
            let d = *u->Path_1;
            assert(held(s, path + k, *collapsed(t)->Short_1, d));
            if !(*c is Leaf) {
                lemma_stored_below(s, path, k, *c);
                lemma_stored_unique(s, path + k, *c, d);
            }
        },
        Tree::Fork(ch) => {
            let dh = u->Fork_0;
            assert forall|i: int| 0 <= i < 17 implies #[trigger] ch[i] == dh[i] by {
                assert(collapsed(t)->Full_0[i] is Some == ch[i] is Some);
                assert(dh[i] is Some || dh[i] is None);
                if ch[i] is Some {
                    lemma_stored_slot(s, path, ch, i as u8);
                    assert(held(s, path.push(i as u8), collapsed(t)->Full_0[i]->0, dh[i]->0));
                    lemma_stored_unique(s, path.push(i as u8), ch[i]->0, dh[i]->0);
                }
            }
            assert(ch =~= dh);
        },
    }
}

/// A trie that has the right shape and can be stored, or is empty.
pub open spec fn storable_root(t: Option<Tree>) -> bool {
    canonical_root(t) && (t matches Some(t) ==> storable(t))
}

/// The store of a trie holds every node of it.
pub proof fn lemma_store_of(t: Tree)
    ensures
        stored(store_of(Some(t)), Seq::empty(), t),
{
    assert forall|q: Seq<u8>| #[trigger] subtree_at(t, q) is Some implies store_of(
        Some(t),
    ).contains_key(Seq::<u8>::empty() + q) && store_of(Some(t))[Seq::<u8>::empty() + q]
        == collapsed(subtree_at(t, q)->0) by {
        assert(Seq::<u8>::empty() + q =~= q);
        assert(root_subtree(Some(t), q) is Some);
    }
}

/// A store determines the trie that it is the store of.
pub proof fn lemma_store_unique(t: Option<Tree>, u: Option<Tree>)
    requires
        storable_root(t),
        storable_root(u),
        store_of(t) == store_of(u),
    ensures
        t == u,
{
    let e = Seq::<u8>::empty();
    assert(store_of(t).contains_key(e) == (root_subtree(t, e) is Some));
    assert(store_of(u).contains_key(e) == (root_subtree(u, e) is Some));
    if let (Some(a), Some(b)) = (t, u) {
        lemma_store_of(a);
        lemma_store_of(b);
        lemma_stored_unique(store_of(t), e, a, b);
    }
}

/// A source of stored nodes.
pub trait TrieReader {
    /// The nodes that can be read.
    spec fn nodes(&self) -> Stored;

    /// What is read is what [`TrieReader::nodes`] says.
    spec fn faithful(&self) -> bool;

    /// Reads do not fail.
    spec fn reliable(&self) -> bool;

    /// The node stored at `path`, or nothing where there is none.
    fn read(&self, path: &Nibbles) -> (r: Result<Option<Node>, DatabaseError>)
        ensures
            self.faithful() ==> (r matches Ok(Some(n)) ==> self.nodes().contains_key(path@) && n@
                == self.nodes()[path@]),
            self.faithful() ==> (r matches Ok(None) ==> !self.nodes().contains_key(path@)),
            self.reliable() ==> r is Ok,
    ;
}

/// `e` came of a read of `reader`.
pub open spec fn read_failed<R: TrieReader>(reader: R, e: DatabaseError) -> bool {
    exists|p: Nibbles| #[trigger]
        call_ensures(R::read, (&reader, &p), Err::<Option<Node>, DatabaseError>(e))
}

/// A sink for changed nodes.
pub trait TrieWriter {
    /// Writes `node` at `path`.
    fn write(&self, path: &Nibbles, node: &Node);
}

} // verus!
