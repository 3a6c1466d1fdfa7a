//! A store of trie nodes in memory.

use vstd::prelude::*;

use crate::errors::DatabaseError;
use crate::nibbles::Nibbles;
use crate::node::{flat, Node, NodeV};
use crate::output::{flat_updates, written};
use crate::store::{Stored, TrieReader, TrieWriter};
use crate::trie::{listed, without};
use crate::vec_map::VecMap;

verus! {

/// Nodes by path.
#[derive(Debug, PartialEq, Eq)]
pub struct NodeStore {
    nodes: VecMap<Nibbles, Node>,
}

/// The views of the nodes in a map.
pub open spec fn node_views(m: Map<Seq<u8>, Node>) -> Stored {
    m.map_values(|n: Node| n@)
}

impl View for NodeStore {
    type V = Stored;

    closed spec fn view(&self) -> Stored {
        node_views(self.nodes@)
    }
}

impl NodeStore {
    /// A stored node holds no other node.
    #[verifier::type_invariant]
    spec fn flat_nodes(self) -> bool {
        forall|p: Seq<u8>| #[trigger] self.nodes@.contains_key(p) ==> flat(self.nodes@[p]@)
    }

    /// A store without nodes.
    pub fn new() -> (r: NodeStore)
        ensures
            r@ == Map::<Seq<u8>, NodeV>::empty(),
    {
        let nodes: VecMap<Nibbles, Node> = VecMap::new();
        let r = NodeStore { nodes };
        assert(r@ =~= Map::<Seq<u8>, NodeV>::empty());
        r
    }

    /// Whether there are no nodes.
    pub fn is_empty(&self) -> (r: bool)
        ensures
            r == (self@ == Map::<Seq<u8>, NodeV>::empty()),
    {
        proof {
            if self.nodes@ == Map::<Seq<u8>, Node>::empty() {
                assert(self@ =~= Map::<Seq<u8>, NodeV>::empty());
            } else if self@ == Map::<Seq<u8>, NodeV>::empty() {
                assert forall|p: Seq<u8>| !#[trigger] self.nodes@.contains_key(p) by {
                    assert(!self@.contains_key(p));
                }
                assert(self.nodes@ =~= Map::<Seq<u8>, Node>::empty());
            }
        }
        self.nodes.is_empty()
    }

    /// The node at `path`.
    pub fn get(&self, path: &Nibbles) -> (r: Option<Node>)
        ensures
            r is Some <==> self@.contains_key(path@),
            r matches Some(n) ==> n@ == self@[path@],
    {
        proof {
            use_type_invariant(self);
        }
        match self.nodes.get(path) {
            Some(node) => Some(node.clone()),
            None => None,
        }
    }

    /// Removes nodes and then writes nodes.
    pub fn apply(&mut self, removed_nodes: &Vec<Nibbles>, update_nodes: Vec<(Nibbles, Node)>)
        requires
            flat_updates(update_nodes@),
        ensures
            final(self)@ == written(without(old(self)@, removed_nodes@), update_nodes@),
    {
        proof {
            use_type_invariant(&*self);
        }
        let mut nodes: VecMap<Nibbles, Node> = VecMap::new();
        std::mem::swap(&mut nodes, &mut self.nodes);
        let ghost start = node_views(nodes@);
        let ghost none: Seq<Nibbles> = removed_nodes@.take(0);
        assert(without(start, none) =~= start);
        let mut i: usize = 0;
        while i < removed_nodes.len()
            invariant
                i <= removed_nodes@.len(),
                node_views(nodes@) == without(start, removed_nodes@.take(i as int)),
                forall|p: Seq<u8>| #[trigger] nodes@.contains_key(p) ==> flat(nodes@[p]@),
            decreases removed_nodes@.len() - i,
        {
            let ghost before = nodes@;
            nodes.remove(&removed_nodes[i]);
            proof {
                let path = removed_nodes@[i as int]@;
                assert(node_views(nodes@) =~= node_views(before).remove(path));
                lemma_without_step(start, removed_nodes@, i as int);
            }
            i += 1;
        }
        assert(removed_nodes@.take(i as int) =~= removed_nodes@);
        let ghost base = node_views(nodes@);
        let ghost all = update_nodes@;
        assert(all.take(0) =~= Seq::empty());
        let ghost mut k: int = 0;
        for entry in it: update_nodes
            invariant
                k == it.index(),
                it.seq() == all,
                node_views(nodes@) == written(base, all.take(k)),
                forall|p: Seq<u8>| #[trigger] nodes@.contains_key(p) ==> flat(nodes@[p]@),
                flat_updates(all),
        {
            let ghost before = nodes@;
            let (path, node) = entry;
            nodes.insert(path, node);
            proof {
                assert(all.take(k + 1).drop_last() =~= all.take(k));
                assert(all.take(k + 1).last() == all[k]);
                assert(node_views(nodes@) =~= node_views(before).insert(path@, node@));
            }
            proof {
                k = k + 1;
            }
        }
        assert(all.take(k) =~= all);
        self.nodes = nodes;
    }
}

/// One more path to leave out.
proof fn lemma_without_step(s: Stored, paths: Seq<Nibbles>, i: int)
    requires
        0 <= i < paths.len(),
    ensures
        without(s, paths.take(i + 1)) == without(s, paths.take(i)).remove(paths[i]@),
{
    let a = without(s, paths.take(i + 1));
    let b = without(s, paths.take(i)).remove(paths[i]@);
    assert forall|p: Seq<u8>| listed(paths.take(i + 1), p) == (p == paths[i]@ || #[trigger] listed(
        paths.take(i),
        p,
    )) by {
        if p == paths[i]@ {
            assert(paths.take(i + 1)[i]@ == p);
        }
        if listed(paths.take(i), p) {
            let j = choose|j: int| 0 <= j < i && (#[trigger] paths.take(i)[j])@ == p;
            assert(paths.take(i + 1)[j]@ == p);
        }
        if listed(paths.take(i + 1), p) {
            let j = choose|j: int| 0 <= j < i + 1 && (#[trigger] paths.take(i + 1)[j])@ == p;
            if j < i {
                assert(paths.take(i)[j]@ == p);
            }
        }
    }
    assert(a =~= b);
}

/// Reads the nodes of a [`NodeStore`] that may be missing.
pub struct StoreReader<'a> {
    /// The store.
    pub store: Option<&'a NodeStore>,
}

impl<'a> TrieReader for StoreReader<'a> {
    open spec fn nodes(&self) -> Stored {
        match self.store {
            Some(store) => store@,
            None => Map::empty(),
        }
    }

    open spec fn faithful(&self) -> bool {
        true
    }

    open spec fn reliable(&self) -> bool {
        true
    }

    fn read(&self, path: &Nibbles) -> (r: Result<Option<Node>, DatabaseError>) {
        match self.store {
            Some(store) => Ok(store.get(path)),
            None => Ok(None),
        }
    }
}

/// Drops what is written to it.
pub struct NoWriter;

impl TrieWriter for NoWriter {
    fn write(&self, path: &Nibbles, node: &Node) {
    }
}

} // verus!
