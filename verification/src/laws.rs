//! Laws of the state trie that relate several operations.

use vstd::prelude::*;

use crate::nibbles::Nibbles;
use crate::node::{Node, NodeV};
use crate::state::{change_view, lemma_changed_overlay, overlay};
use crate::state_db::lemma_nothing_stored;
use crate::store::store_of;
use crate::tree::{
    canonical_root, contents, lemma_contents_unique, root_hash, state_root, Tree, EMPTY_ROOT_HASH,
};
use crate::trie::changed;
use crate::vec_map::{distinct, entries_map, has_entry, lemma_entry, MapKey};

verus! {

/// Tries with the same contents have the same root hash, however they came about.
pub proof fn law_contents_determine_root(t: Option<Tree>, u: Option<Tree>)
    requires
        canonical_root(t),
        canonical_root(u),
        contents(t) == contents(u),
    ensures
        root_hash(t) == root_hash(u),
{
    lemma_contents_unique(t, u);
}

/// The order of two insertions does not matter.
pub proof fn law_insertion_order(
    m: Map<Seq<u8>, Seq<u8>>,
    a: Seq<u8>,
    x: Seq<u8>,
    b: Seq<u8>,
    y: Seq<u8>,
)
    requires
        a != b,
    ensures
        state_root(m.insert(a, x).insert(b, y)) == state_root(m.insert(b, y).insert(a, x)),
{
    assert(m.insert(a, x).insert(b, y) =~= m.insert(b, y).insert(a, x));
}

/// Deleting a new key gives back the root hash from before it was inserted.
pub proof fn law_deletion_undoes_insertion(m: Map<Seq<u8>, Seq<u8>>, k: Seq<u8>, v: Seq<u8>)
    requires
        !m.contains_key(k),
    ensures
        state_root(m.insert(k, v).remove(k)) == state_root(m),
{
    assert(m.insert(k, v).remove(k) =~= m);
}

/// Inserting what is there changes nothing.
pub proof fn law_insertion_of_the_same(m: Map<Seq<u8>, Seq<u8>>, k: Seq<u8>)
    requires
        m.contains_key(k),
    ensures
        state_root(m.insert(k, m[k])) == state_root(m),
{
    assert(m.insert(k, m[k]) =~= m);
}

/// Nothing is left of a trie whose keys have all been deleted: it has the root hash of an empty
/// trie, and no node is stored for it.
pub proof fn law_nothing_left(t: Option<Tree>)
    requires
        canonical_root(t),
        contents(t) == Map::<Seq<u8>, Seq<u8>>::empty(),
    ensures
        t is None,
        root_hash(t) == EMPTY_ROOT_HASH,
        store_of(t) == Map::<Seq<u8>, NodeV>::empty(),
{
    assert(contents(None) =~= Map::<Seq<u8>, Seq<u8>>::empty());
    lemma_contents_unique(t, None);
    lemma_nothing_stored();
}

/// Two rounds of changes come to the same root hash as one round of both, in which the later
/// change of a key counts.
pub proof fn law_rounds_add_up(
    m: Map<Seq<u8>, Seq<u8>>,
    first: Map<Seq<u8>, Option<Seq<u8>>>,
    second: Map<Seq<u8>, Option<Seq<u8>>>,
)
    ensures
        state_root(overlay(overlay(m, first), second)) == state_root(
            overlay(m, first.union_prefer_right(second)),
        ),
{
    assert(overlay(overlay(m, first), second) =~= overlay(m, first.union_prefer_right(second)));
}

/// The order in which changes to different keys are made does not matter, so they can be made in
/// batches, such as one for each first half-byte.
pub proof fn law_order_of_changes(
    m: Map<Seq<u8>, Seq<u8>>,
    a: Seq<(Nibbles, Option<Node>)>,
    b: Seq<(Nibbles, Option<Node>)>,
)
    requires
        distinct(a),
        distinct(b),
        entries_map(a) == entries_map(b),
    ensures
        changed(m, a) == changed(m, b),
        state_root(changed(m, a)) == state_root(changed(m, b)),
{
    let c = Map::new(
        |k: Seq<u8>| has_entry(a, k),
        |k: Seq<u8>| change_view(entries_map(a)[k]),
    );
    assert forall|k: Seq<u8>| #[trigger] c.contains_key(k) == has_entry(b, k) by {
        assert(entries_map(a).contains_key(k) == has_entry(a, k));
        assert(entries_map(b).contains_key(k) == has_entry(b, k));
    }
    assert forall|i: int| 0 <= i < a.len() implies c[(#[trigger] a[i]).0@] == change_view(
        a[i].1,
    ) by {
        lemma_entry(a, i);
        assert(has_entry(a, a[i].0.key()));
    }
    assert forall|i: int| 0 <= i < b.len() implies c[(#[trigger] b[i]).0@] == change_view(
        b[i].1,
    ) by {
        lemma_entry(b, i);
        assert(entries_map(a).contains_key(b[i].0.key()));
    }
    lemma_changed_overlay(m, a, c);
    lemma_changed_overlay(m, b, c);
}

} // verus!
