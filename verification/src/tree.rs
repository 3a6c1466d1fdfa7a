//! The mathematical model of a state trie: which keys it holds, which shape it has, and which
//! root hash commits to it.

use vstd::prelude::*;

use crate::nibbles::{all_nibbles, lemma_shared_after, shared_len, starts_with};
use crate::rlp::{compact_path, keccak, reference_to, rlp_list, rlp_string, B256};

verus! {

/// A trie with every node in view.
pub ghost enum Tree {
    /// A value at the end of its key.
    Leaf(Seq<u8>),
    /// A stretch of path with a single continuation.
    Path(Seq<u8>, Box<Tree>),
    /// A fork: one optional subtree for every half-byte, and a last slot that stays empty.
    Fork(Seq<Option<Tree>>),
}

/// The root hash of a trie without keys.
pub const EMPTY_ROOT_HASH: [u8; 32] = [
    0x56,
    0xe8,
    0x1f,
    0x17,
    0x1b,
    0xcc,
    0x55,
    0xa6,
    0xff,
    0x83,
    0x45,
    0xe6,
    0x92,
    0xc0,
    0xf8,
    0x6e,
    0x5b,
    0x48,
    0xe0,
    0x1b,
    0x99,
    0x6c,
    0xad,
    0xc0,
    0x01,
    0x62,
    0x2f,
    0xb5,
    0xe3,
    0x63,
    0xb4,
    0x21,
];

/// The value of `key` in `t`.
pub open spec fn tree_get(t: Tree, key: Seq<u8>) -> Option<Seq<u8>>
    decreases t,
{
    match t {
        Tree::Leaf(v) => if key.len() == 0 {
            Some(v)
        } else {
            None
        },
        Tree::Path(p, c) => if starts_with(key, p) {
            tree_get(*c, key.skip(p.len() as int))
        } else {
            None
        },
        Tree::Fork(ch) => if key.len() > 0 && (key[0] as int) < ch.len() {
            match ch[key[0] as int] {
                Some(c) => tree_get(c, key.skip(1)),
                None => None,
            }
        } else {
            None
        },
    }
}

/// The value of `key` in a trie that may be empty.
pub open spec fn root_get(t: Option<Tree>, key: Seq<u8>) -> Option<Seq<u8>> {
    match t {
        Some(t) => tree_get(t, key),
        None => None,
    }
}

/// What a trie maps its keys to.
pub open spec fn contents(t: Option<Tree>) -> Map<Seq<u8>, Seq<u8>> {
    Map::new(|k: Seq<u8>| root_get(t, k) is Some, |k: Seq<u8>| root_get(t, k)->0)
}

/// The shape that a trie always has: a stretch of path is not empty and is never followed by
/// another, and a fork has at least two continuations.
pub open spec fn canonical(t: Tree) -> bool
    decreases t,
{
    match t {
        Tree::Leaf(_) => true,
        Tree::Path(p, c) => p.len() > 0 && all_nibbles(p) && !(*c is Path) && canonical(*c),
        Tree::Fork(ch) => {
            &&& ch.len() == 17
            &&& ch[16] is None
            &&& exists|i: int, j: int|
                0 <= i < j < 16 && #[trigger] ch[i] is Some && #[trigger] ch[j] is Some
            &&& forall|i: int|
                0 <= i < 17 ==> match #[trigger] ch[i] {
                    Some(c) => canonical(c),
                    None => true,
                }
        },
    }
}

/// [`canonical`] of a trie that may be empty.
pub open spec fn canonical_root(t: Option<Tree>) -> bool {
    t matches Some(t) ==> canonical(t)
}

/// Neither of two different keys may start with the other. `key` keeps to that with the keys
/// in `t`.
pub open spec fn key_fits(t: Option<Tree>, key: Seq<u8>) -> bool {
    forall|k: Seq<u8>| #[trigger]
        root_get(t, k) is Some && k != key ==> !starts_with(k, key) && !starts_with(key, k)
}

/// The items of a fork one after the other: a reference for every subtree, and an empty string
/// for every free slot.
pub open spec fn fork_payload(ch: Seq<Option<Tree>>, n: nat) -> Seq<u8>
    decreases ch, n,
{
    if n == 0 || n > ch.len() {
        Seq::empty()
    } else {
        fork_payload(ch, (n - 1) as nat) + match ch[n - 1] {
            Some(c) => tree_reference(c),
            None => seq![0x80u8],
        }
    }
}

/// The encoding of the topmost node of `t`. A bare leaf has none.
pub open spec fn tree_rlp(t: Tree) -> Seq<u8>
    decreases t, 0nat,
{
    match t {
        Tree::Leaf(_) => Seq::empty(),
        Tree::Path(p, c) => match *c {
            Tree::Leaf(v) => rlp_list(rlp_string(compact_path(p, true)) + rlp_string(v)),
            _ => rlp_list(rlp_string(compact_path(p, false)) + tree_reference(*c)),
        },
        Tree::Fork(ch) => rlp_list(fork_payload(ch, ch.len())),
    }
}

/// How a parent refers to `t`.
pub open spec fn tree_reference(t: Tree) -> Seq<u8>
    decreases t, 1nat,
{
    reference_to(tree_rlp(t))
}

/// The hash that commits to a whole trie.
pub open spec fn root_hash(t: Option<Tree>) -> B256 {
    match t {
        Some(t) => keccak(tree_rlp(t)),
        None => EMPTY_ROOT_HASH,
    }
}

/// The encoding is defined for all of `t`: no value stands directly in a fork or at the root,
/// no stretch of path is longer than 64 half-bytes, and no value is too long to be measured.
pub open spec fn encodable(t: Tree) -> bool
    decreases t,
{
    match t {
        Tree::Leaf(_) => false,
        Tree::Path(p, c) => p.len() <= 64 && match *c {
            Tree::Leaf(v) => v.len() <= usize::MAX - 64,
            _ => encodable(*c),
        },
        Tree::Fork(ch) => forall|i: int|
            0 <= i < ch.len() ==> match #[trigger] ch[i] {
                Some(c) => encodable(c),
                None => true,
            },
    }
}

/// `t2` holds what `t` holds, with `v` as the value of `key`.
pub open spec fn inserted(t: Option<Tree>, t2: Tree, key: Seq<u8>, v: Seq<u8>) -> bool {
    forall|k: Seq<u8>| #[trigger]
        tree_get(t2, k) == if k == key {
            Some(v)
        } else {
            root_get(t, k)
        }
}

/// `t2` holds what `t` holds, without `key`.
pub open spec fn removed(t: Option<Tree>, t2: Option<Tree>, key: Seq<u8>) -> bool {
    forall|k: Seq<u8>| #[trigger]
        root_get(t2, k) == if k == key {
            None::<Seq<u8>>
        } else {
            root_get(t, k)
        }
}

/// `c` below a stretch of path that may be empty.
pub open spec fn graft(p: Seq<u8>, c: Tree) -> Tree {
    if p.len() == 0 {
        c
    } else {
        Tree::Path(p, Box::new(c))
    }
}

/// `c` below the stretch of path `p`, where `c` may start with a stretch of path itself.
pub open spec fn prepend(p: Seq<u8>, c: Tree) -> Tree {
    match c {
        Tree::Path(q, d) => Tree::Path(p + q, d),
        _ => Tree::Path(p, Box::new(c)),
    }
}

/// A fork's slots with `a` at `i`, `b` at `j` and nothing else.
pub open spec fn two_slots(i: int, a: Tree, j: int, b: Tree) -> Seq<Option<Tree>> {
    Seq::new(17, |k: int| None::<Tree>).update(i, Some(a)).update(j, Some(b))
}

pub proof fn lemma_get_fork(ch: Seq<Option<Tree>>, i: u8, k: Seq<u8>)
    requires
        i < ch.len(),
    ensures
        tree_get(Tree::Fork(ch), seq![i] + k) == root_get(ch[i as int], k),
{
    assert((seq![i] + k).skip(1) =~= k);
}

pub proof fn lemma_get_path(p: Seq<u8>, c: Tree, k: Seq<u8>)
    ensures
        tree_get(Tree::Path(p, Box::new(c)), p + k) == tree_get(c, k),
{
    assert((p + k).take(p.len() as int) =~= p);
    assert((p + k).skip(p.len() as int) =~= k);
}

/// A trie in canonical shape holds at least one key. In a fork that key is not empty.
pub proof fn lemma_has_key(t: Tree) -> (k: Seq<u8>)
    requires
        canonical(t),
    ensures
        tree_get(t, k) is Some,
        !(t is Leaf) ==> k.len() > 0,
    decreases t,
{
    match t {
        Tree::Leaf(_) => Seq::empty(),
        Tree::Path(p, c) => {
            let k = lemma_has_key(*c);
            lemma_get_path(p, *c, k);
            p + k
        },
        Tree::Fork(ch) => {
            let i = choose|i: int| 0 <= i < 16 && #[trigger] ch[i] is Some;
            let k = lemma_has_key(ch[i]->0);
            lemma_get_fork(ch, i as u8, k);
            seq![i as u8] + k
        },
    }
}

/// A key of a fork's slot, as a key of the fork.
proof fn lemma_slot_key(ch: Seq<Option<Tree>>, i: int) -> (k: Seq<u8>)
    requires
        canonical(Tree::Fork(ch)),
        0 <= i < 17,
        ch[i] is Some,
    ensures
        tree_get(Tree::Fork(ch), k) is Some,
        k.len() > 0,
        k[0] == i,
{
    let c = ch[i]->0;
    assert(canonical(c));
    let k = lemma_has_key(c);
    lemma_get_fork(ch, i as u8, k);
    seq![i as u8] + k
}

/// Two tries in canonical shape that hold the same keys with the same values are the same trie.
pub proof fn lemma_unique(a: Tree, b: Tree)
    requires
        canonical(a),
        canonical(b),
        forall|k: Seq<u8>| #[trigger] tree_get(a, k) == tree_get(b, k),
    ensures
        a == b,
    decreases a,
{
    let empty = Seq::<u8>::empty();
    assert(tree_get(a, empty) == tree_get(b, empty));
    match a {
        Tree::Leaf(_) => {},
        Tree::Path(p, c) => match b {
            Tree::Leaf(_) => {},
            Tree::Path(q, d) => {
                lemma_unique_path(p, *c, q, *d);
                lemma_unique_path(q, *d, p, *c);
                assert(p.take(p.len() as int) =~= p);
                assert(q.take(q.len() as int) =~= q);
                assert(p == q);
                assert forall|k: Seq<u8>| #[trigger] tree_get(*c, k) == tree_get(*d, k) by {
                    lemma_get_path(p, *c, k);
                    lemma_get_path(p, *d, k);
                    assert(tree_get(a, p + k) == tree_get(b, p + k));
                }
                lemma_unique(*c, *d);
            },
            Tree::Fork(ch) => {
                let k = lemma_fork_is_no_path(ch, p, *c);
                assert(tree_get(a, k) == tree_get(b, k));
            },
        },
        Tree::Fork(ch) => match b {
            Tree::Leaf(_) => {},
            Tree::Path(q, d) => {
                let k = lemma_fork_is_no_path(ch, q, *d);
                assert(tree_get(a, k) == tree_get(b, k));
            },
            Tree::Fork(dh) => {
                assert forall|i: int| 0 <= i < 17 implies ch[i] == dh[i] by {
                    if ch[i] is Some {
                        let k = lemma_slot_key(ch, i);
                        assert(tree_get(a, k) == tree_get(b, k));
                    }
                    if dh[i] is Some {
                        let k = lemma_slot_key(dh, i);
                        assert(tree_get(a, k) == tree_get(b, k));
                    }
                    if ch[i] is Some {
                        let c = ch[i]->0;
                        let d = dh[i]->0;
                        assert(canonical(c));
                        assert(canonical(d));
                        assert forall|k: Seq<u8>| #[trigger] tree_get(c, k) == tree_get(d, k) by {
                            lemma_get_fork(ch, i as u8, k);
                            lemma_get_fork(dh, i as u8, k);
                            assert(tree_get(a, seq![i as u8] + k) == tree_get(
                                b,
                                seq![i as u8] + k,
                            ));
                        }
                        lemma_unique(c, d);
                    }
                }
                assert(ch =~= dh);
            },
        },
    }
}

/// A fork holds keys with different first half-bytes, a stretch of path does not: a key on which
/// the two differ.
proof fn lemma_fork_is_no_path(ch: Seq<Option<Tree>>, p: Seq<u8>, c: Tree) -> (k: Seq<u8>)
    requires
        canonical(Tree::Fork(ch)),
        p.len() > 0,
    ensures
        tree_get(Tree::Fork(ch), k) != tree_get(Tree::Path(p, Box::new(c)), k),
{
    let (i, j) = choose|i: int, j: int|
        0 <= i < j < 16 && #[trigger] ch[i] is Some && #[trigger] ch[j] is Some;
    let k1 = lemma_slot_key(ch, i);
    let k2 = lemma_slot_key(ch, j);
    assert(k1.len() >= p.len() ==> k1.take(p.len() as int)[0] == k1[0]);
    assert(k2.len() >= p.len() ==> k2.take(p.len() as int)[0] == k2[0]);
    if tree_get(Tree::Path(p, Box::new(c)), k1) is None {
        k1
    } else {
        k2
    }
}

/// Of two stretches of path with the same keys, the second starts with the first.
proof fn lemma_unique_path(p: Seq<u8>, c: Tree, q: Seq<u8>, d: Tree)
    requires
        canonical(Tree::Path(p, Box::new(c))),
        canonical(Tree::Path(q, Box::new(d))),
        forall|k: Seq<u8>|
            #[trigger] tree_get(Tree::Path(p, Box::new(c)), k) == tree_get(
                Tree::Path(q, Box::new(d)),
                k,
            ),
    ensures
        starts_with(q, p),
{
    let a = Tree::Path(p, Box::new(c));
    let b = Tree::Path(q, Box::new(d));
    let k = lemma_has_key(a);
    assert(tree_get(a, k) == tree_get(b, k));
    if p.len() <= q.len() {
        assert(q.take(p.len() as int) =~= k.take(p.len() as int)) by {
            assert(k.take(q.len() as int) == q);
        }
    } else {
        // `d` would hold only keys that go on with the rest of `p`.
        let n = q.len() as int;
        assert(canonical(d));
        match d {
            Tree::Leaf(_) => {
                lemma_get_path(q, d, Seq::empty());
                assert(q + Seq::<u8>::empty() =~= q);
                assert(tree_get(a, q) == tree_get(b, q));
            },
            Tree::Path(_, _) => {},
            Tree::Fork(ch) => {
                let (i, j) = choose|i: int, j: int|
                    0 <= i < j < 16 && #[trigger] ch[i] is Some && #[trigger] ch[j] is Some;
                let k1 = lemma_slot_key(ch, i);
                let k2 = lemma_slot_key(ch, j);
                lemma_get_path(q, d, k1);
                lemma_get_path(q, d, k2);
                assert(tree_get(a, q + k1) == tree_get(b, q + k1));
                assert(tree_get(a, q + k2) == tree_get(b, q + k2));
                assert((q + k1).take(p.len() as int)[n] == k1[0]);
                assert((q + k2).take(p.len() as int)[n] == k2[0]);
            },
        }
    }
}

/// A key that fits a fork goes on into one of its slots, and fits what is there.
pub proof fn lemma_fits_slot(ch: Seq<Option<Tree>>, key: Seq<u8>)
    requires
        canonical(Tree::Fork(ch)),
        key_fits(Some(Tree::Fork(ch)), key),
        all_nibbles(key),
    ensures
        key.len() > 0,
        key_fits(ch[key[0] as int], key.skip(1)),
        all_nibbles(key.skip(1)),
{
    let t = Tree::Fork(ch);
    let k0 = lemma_has_key(t);
    assert(root_get(Some(t), k0) is Some);
    if key.len() == 0 {
        assert(k0.take(0) =~= key);
        assert(starts_with(k0, key));
    }
    let i = key[0];
    assert(key =~= seq![i] + key.skip(1));
    assert forall|k: Seq<u8>| #[trigger]
        root_get(ch[i as int], k) is Some && k != key.skip(1) implies !starts_with(k, key.skip(1))
        && !starts_with(key.skip(1), k) by {
        let full = seq![i] + k;
        lemma_get_fork(ch, i, k);
        assert(root_get(Some(t), full) is Some);
        assert(full.skip(1) =~= k);
        assert(full != key);
        if starts_with(k, key.skip(1)) {
            assert(full.take(key.len() as int) =~= seq![i] + k.take(key.skip(1).len() as int));
            assert(starts_with(full, key));
        }
        if starts_with(key.skip(1), k) {
            assert(key.take(full.len() as int) =~= seq![i] + key.skip(1).take(k.len() as int));
            assert(starts_with(key, full));
        }
    }
}

/// A key that fits a stretch of path and goes along all of it fits what follows. One that leaves
/// the stretch does so before it ends.
pub proof fn lemma_fits_path(p: Seq<u8>, c: Tree, key: Seq<u8>)
    requires
        canonical(Tree::Path(p, Box::new(c))),
        key_fits(Some(Tree::Path(p, Box::new(c))), key),
        all_nibbles(key),
    ensures
        starts_with(key, p) ==> key_fits(Some(c), key.skip(p.len() as int)) && all_nibbles(
            key.skip(p.len() as int),
        ),
        starts_with(p, key) ==> p == key,
{
    let t = Tree::Path(p, Box::new(c));
    let n = p.len() as int;
    if starts_with(key, p) {
        let rest = key.skip(n);
        assert(key =~= p + rest);
        assert forall|k: Seq<u8>| #[trigger]
            root_get(Some(c), k) is Some && k != rest implies !starts_with(k, rest)
            && !starts_with(rest, k) by {
            let full = p + k;
            lemma_get_path(p, c, k);
            assert(root_get(Some(t), full) is Some);
            assert(full.skip(n) =~= k);
            assert(full != key);
            if starts_with(k, rest) {
                assert(full.take(key.len() as int) =~= p + k.take(rest.len() as int));
                assert(starts_with(full, key));
            }
            if starts_with(rest, k) {
                assert(key.take(full.len() as int) =~= p + rest.take(k.len() as int));
                assert(starts_with(key, full));
            }
        }
    }
    if starts_with(p, key) {
        let k = lemma_has_key(t);
        assert(root_get(Some(t), k) is Some);
        assert(k.take(n) == p);
        assert(k.take(key.len() as int) =~= p.take(key.len() as int));
        assert(starts_with(k, key));
        assert(k == key);
    }
}

/// A key that fits a bare value is the empty key.
pub proof fn lemma_fits_leaf(v: Seq<u8>, key: Seq<u8>)
    requires
        key_fits(Some(Tree::Leaf(v)), key),
    ensures
        key.len() == 0,
{
    let e = Seq::<u8>::empty();
    assert(root_get(Some(Tree::Leaf(v)), e) is Some);
    if key != e {
        assert(key.take(0) =~= e);
        assert(starts_with(key, e));
    }
}

/// Insertion into one slot of a fork.
pub proof fn lemma_insert_slot(ch: Seq<Option<Tree>>, c2: Tree, key: Seq<u8>, v: Seq<u8>)
    requires
        canonical(Tree::Fork(ch)),
        key.len() > 0,
        key[0] < 16,
        canonical(c2),
        inserted(ch[key[0] as int], c2, key.skip(1), v),
    ensures
        canonical(Tree::Fork(ch.update(key[0] as int, Some(c2)))),
        inserted(
            Some(Tree::Fork(ch)),
            Tree::Fork(ch.update(key[0] as int, Some(c2))),
            key,
            v,
        ),
{
    let i = key[0];
    let ch2 = ch.update(i as int, Some(c2));
    let t = Tree::Fork(ch);
    let t2 = Tree::Fork(ch2);
    let (a, b) = choose|a: int, b: int|
        0 <= a < b < 16 && #[trigger] ch[a] is Some && #[trigger] ch[b] is Some;
    assert(ch2[a] is Some && ch2[b] is Some);
    assert forall|k: Seq<u8>| #[trigger]
        tree_get(t2, k) == if k == key {
            Some(v)
        } else {
            root_get(Some(t), k)
        } by {
        if k.len() > 0 && k[0] == i {
            assert(k =~= seq![i] + k.skip(1));
            assert(key =~= seq![i] + key.skip(1));
            assert(tree_get(c2, k.skip(1)) == if k.skip(1) == key.skip(1) {
                Some(v)
            } else {
                root_get(ch[i as int], k.skip(1))
            });
        }
    }
}

/// Insertion below a stretch of path.
pub proof fn lemma_insert_below(p: Seq<u8>, c: Tree, c2: Tree, key: Seq<u8>, v: Seq<u8>)
    requires
        starts_with(key, p),
        inserted(Some(c), c2, key.skip(p.len() as int), v),
    ensures
        inserted(
            Some(Tree::Path(p, Box::new(c))),
            Tree::Path(p, Box::new(c2)),
            key,
            v,
        ),
{
    let n = p.len() as int;
    let t = Tree::Path(p, Box::new(c));
    let t2 = Tree::Path(p, Box::new(c2));
    assert forall|k: Seq<u8>| #[trigger]
        tree_get(t2, k) == if k == key {
            Some(v)
        } else {
            root_get(Some(t), k)
        } by {
        if starts_with(k, p) {
            assert(k =~= p + k.skip(n));
            assert(key =~= p + key.skip(n));
            assert(tree_get(c2, k.skip(n)) == if k.skip(n) == key.skip(n) {
                Some(v)
            } else {
                root_get(Some(c), k.skip(n))
            });
        }
    }
}

/// Insertion of a key that leaves a stretch of path after `m` half-bytes.
pub proof fn lemma_insert_split(p: Seq<u8>, c: Tree, key: Seq<u8>, v: Seq<u8>, m: int)
    requires
        canonical(Tree::Path(p, Box::new(c))),
        all_nibbles(key),
        0 <= m < p.len(),
        m < key.len(),
        key.take(m) == p.take(m),
        key[m] != p[m],
    ensures
        ({
            let fork = Tree::Fork(
                two_slots(
                    p[m] as int,
                    graft(p.skip(m + 1), c),
                    key[m] as int,
                    graft(key.skip(m + 1), Tree::Leaf(v)),
                ),
            );
            let t2 = graft(key.take(m), fork);
            canonical(t2) && inserted(Some(Tree::Path(p, Box::new(c))), t2, key, v)
        }),
{
    let t = Tree::Path(p, Box::new(c));
    let i = p[m];
    let j = key[m];
    let a = graft(p.skip(m + 1), c);
    let b = graft(key.skip(m + 1), Tree::Leaf(v));
    let ch = two_slots(i as int, a, j as int, b);
    let fork = Tree::Fork(ch);
    let t2 = graft(key.take(m), fork);
    assert(canonical(Tree::Leaf(v)));
    assert(all_nibbles(p.skip(m + 1)));
    assert(all_nibbles(key.skip(m + 1)));
    assert(canonical(a));
    assert(canonical(b));
    assert(ch[i as int] == Some(a));
    assert(ch[j as int] == Some(b));
    if i < j {
        assert(ch[i as int] is Some && ch[j as int] is Some);
    } else {
        assert(ch[j as int] is Some && ch[i as int] is Some);
    }
    assert(canonical(fork));
    assert(canonical(t2));
    assert forall|k: Seq<u8>| #[trigger]
        tree_get(t2, k) == if k == key {
            Some(v)
        } else {
            root_get(Some(t), k)
        } by {
        lemma_split_get(p, c, key, v, m, k);
    }
}

/// What [`graft`] holds.
pub proof fn lemma_graft_get(p: Seq<u8>, c: Tree, k: Seq<u8>)
    ensures
        tree_get(graft(p, c), k) == if starts_with(k, p) {
            tree_get(c, k.skip(p.len() as int))
        } else {
            None
        },
{
    if p.len() == 0 {
        assert(k.take(0) =~= p);
        assert(k.skip(0) =~= k);
    } else {
        assert(tree_get(Tree::Path(p, Box::new(c)), k) == if starts_with(k, p) {
            tree_get(c, k.skip(p.len() as int))
        } else {
            None
        });
    }
}

/// What the trie of [`lemma_insert_split`] holds for one key.
proof fn lemma_split_get(p: Seq<u8>, c: Tree, key: Seq<u8>, v: Seq<u8>, m: int, k: Seq<u8>)
    requires
        all_nibbles(p),
        all_nibbles(key),
        0 <= m < p.len(),
        m < key.len(),
        key.take(m) == p.take(m),
        key[m] != p[m],
    ensures
        ({
            let fork = Tree::Fork(
                two_slots(
                    p[m] as int,
                    graft(p.skip(m + 1), c),
                    key[m] as int,
                    graft(key.skip(m + 1), Tree::Leaf(v)),
                ),
            );
            tree_get(graft(key.take(m), fork), k) == if k == key {
                Some(v)
            } else {
                tree_get(graft(p, c), k)
            }
        }),
{
    let i = p[m];
    let j = key[m];
    let head = key.take(m);
    let a = graft(p.skip(m + 1), c);
    let b = graft(key.skip(m + 1), Tree::Leaf(v));
    let ch = two_slots(i as int, a, j as int, b);
    let fork = Tree::Fork(ch);
    let r = k.skip(m);
    let s = r.skip(1);
    assert(ch[i as int] == Some(a));
    assert(ch[j as int] == Some(b));
    lemma_graft_get(head, fork, k);
    lemma_graft_get(p, c, k);
    lemma_graft_get(p.skip(m + 1), c, s);
    lemma_graft_get(key.skip(m + 1), Tree::Leaf(v), s);
    lemma_starts_through(k, p, m);
    lemma_starts_through(k, key, m);
    assert(k == key <==> starts_with(k, key) && k.skip(key.len() as int).len() == 0) by {
        assert(key.take(key.len() as int) =~= key);
        assert(k.take(k.len() as int) =~= k);
    }
    if starts_with(k, head) && k.len() > m {
        assert(r[0] == k[m]);
        assert(tree_get(fork, r) == match ch[r[0] as int] {
            Some(d) if (r[0] as int) < 17 => tree_get(d, s),
            _ => None,
        });
        if k.len() >= p.len() {
            assert(s.skip(p.skip(m + 1).len() as int) =~= k.skip(p.len() as int));
        }
        if k.len() >= key.len() {
            assert(s.skip(key.skip(m + 1).len() as int) =~= k.skip(key.len() as int));
        }
    }
}

/// A sequence starts with `p` where it starts with the first `m` elements of `p`, goes on with
/// the next one, and after that with the rest.
pub proof fn lemma_starts_through(k: Seq<u8>, p: Seq<u8>, m: int)
    requires
        0 <= m < p.len(),
    ensures
        starts_with(k, p) <==> starts_with(k, p.take(m)) && k.len() > m && k[m] == p[m]
            && starts_with(k.skip(m).skip(1), p.skip(m + 1)),
{
    let s = k.skip(m).skip(1);
    let q = p.skip(m + 1);
    if starts_with(k, p) {
        assert(k.take(p.len() as int)[m] == k[m]);
        assert(k.take(m) =~= k.take(p.len() as int).take(m));
        assert(s.take(q.len() as int) =~= k.take(p.len() as int).skip(m + 1));
    }
    if starts_with(k, p.take(m)) && k.len() > m && k[m] == p[m] && starts_with(s, q) {
        assert(k.take(p.len() as int) =~= k.take(m) + seq![k[m]] + s.take(q.len() as int));
        assert(p =~= p.take(m) + seq![p[m]] + q);
    }
}

/// Removal from one slot of a fork that keeps something in the slot.
pub proof fn lemma_remove_slot(ch: Seq<Option<Tree>>, c2: Option<Tree>, key: Seq<u8>)
    requires
        canonical(Tree::Fork(ch)),
        key.len() > 0,
        key[0] < 16,
        removed(ch[key[0] as int], c2, key.skip(1)),
    ensures
        removed(
            Some(Tree::Fork(ch)),
            Some(Tree::Fork(ch.update(key[0] as int, c2))),
            key,
        ),
        root_get(Some(Tree::Fork(ch)), key) == root_get(ch[key[0] as int], key.skip(1)),
{
    let i = key[0];
    let ch2 = ch.update(i as int, c2);
    let t = Tree::Fork(ch);
    let t2 = Tree::Fork(ch2);
    assert forall|k: Seq<u8>| #[trigger]
        root_get(Some(t2), k) == if k == key {
            None::<Seq<u8>>
        } else {
            root_get(Some(t), k)
        } by {
        if k.len() > 0 && k[0] == i {
            assert(k =~= seq![i] + k.skip(1));
            assert(key =~= seq![i] + key.skip(1));
            assert(root_get(c2, k.skip(1)) == if k.skip(1) == key.skip(1) {
                None::<Seq<u8>>
            } else {
                root_get(ch[i as int], k.skip(1))
            });
        }
    }
}

/// A fork with a single slot in use holds what the stretch of path holds that replaces it.
pub proof fn lemma_collapse(ch: Seq<Option<Tree>>, i: u8, c: Tree)
    requires
        ch.len() == 17,
        i < 16,
        ch[i as int] == Some(c),
        canonical(c),
        forall|j: int| 0 <= j < 17 && j != i ==> #[trigger] ch[j] is None,
    ensures
        canonical(prepend(seq![i], c)),
        forall|k: Seq<u8>| #[trigger]
            tree_get(prepend(seq![i], c), k) == tree_get(Tree::Fork(ch), k),
{
    assert forall|k: Seq<u8>| #[trigger]
        tree_get(prepend(seq![i], c), k) == tree_get(Tree::Fork(ch), k) by {
        lemma_prepend_get(seq![i], c, k);
        lemma_graft_get(seq![i], c, k);
        if k.len() > 0 {
            assert(k.take(1) =~= seq![k[0]]);
            assert(seq![i][0] == i);
        }
    }
}

/// What [`prepend`] holds.
pub proof fn lemma_prepend_get(p: Seq<u8>, c: Tree, k: Seq<u8>)
    ensures
        tree_get(prepend(p, c), k) == tree_get(Tree::Path(p, Box::new(c)), k),
{
    reveal_with_fuel(tree_get, 3);
    if let Tree::Path(q, d) = c {
        let n = p.len() as int;
        if starts_with(k, p + q) {
            assert(k.take(n) =~= (p + q).take(n));
            assert((p + q).take(n) =~= p);
            assert(k.skip(n).take(q.len() as int) =~= k.take((p + q).len() as int).skip(n));
            assert((p + q).skip(n) =~= q);
            assert(k.skip((p + q).len() as int) =~= k.skip(n).skip(q.len() as int));
        } else if starts_with(k, p) && starts_with(k.skip(n), q) {
            assert(k.take((p + q).len() as int) =~= k.take(n) + k.skip(n).take(q.len() as int));
        }
    }
}

/// Removal below a stretch of path.
pub proof fn lemma_remove_below(p: Seq<u8>, c: Tree, c2: Tree, key: Seq<u8>)
    requires
        canonical(Tree::Path(p, Box::new(c))),
        canonical(c2),
        starts_with(key, p),
        removed(Some(c), Some(c2), key.skip(p.len() as int)),
    ensures
        canonical(prepend(p, c2)),
        removed(Some(Tree::Path(p, Box::new(c))), Some(prepend(p, c2)), key),
        root_get(Some(Tree::Path(p, Box::new(c))), key) == root_get(
            Some(c),
            key.skip(p.len() as int),
        ),
{
    let n = p.len() as int;
    let t = Tree::Path(p, Box::new(c));
    let t2 = prepend(p, c2);
    assert forall|k: Seq<u8>| #[trigger]
        root_get(Some(t2), k) == if k == key {
            None::<Seq<u8>>
        } else {
            root_get(Some(t), k)
        } by {
        lemma_prepend_get(p, c2, k);
        if starts_with(k, p) {
            assert(k =~= p + k.skip(n));
            assert(key =~= p + key.skip(n));
            assert(root_get(Some(c2), k.skip(n)) == if k.skip(n) == key.skip(n) {
                None::<Seq<u8>>
            } else {
                root_get(Some(c), k.skip(n))
            });
        }
    }
}

/// The trie of the shape that tries have which holds `m`.
pub open spec fn tree_for(m: Map<Seq<u8>, Seq<u8>>) -> Option<Tree> {
    choose|t: Option<Tree>| canonical_root(t) && #[trigger] contents(t) == m
}

/// The root hash of the trie that holds `m`.
pub open spec fn state_root(m: Map<Seq<u8>, Seq<u8>>) -> B256 {
    root_hash(tree_for(m))
}

/// What a trie holds determines the trie, and with it the root hash.
pub proof fn lemma_root_determined(t: Option<Tree>)
    requires
        canonical_root(t),
    ensures
        tree_for(contents(t)) == t,
        state_root(contents(t)) == root_hash(t),
{
    let m = contents(t);
    let u = tree_for(m);
    assert(canonical_root(u) && contents(u) == m);
    lemma_contents_unique(t, u);
}

/// What [`contents`] says of one key.
pub proof fn lemma_contents_key(t: Option<Tree>, k: Seq<u8>)
    ensures
        contents(t).contains_key(k) == (root_get(t, k) is Some),
        contents(t).contains_key(k) ==> contents(t)[k] == root_get(t, k)->0,
{
}

/// Two tries that hold the same are the same.
pub proof fn lemma_contents_unique(t: Option<Tree>, u: Option<Tree>)
    requires
        canonical_root(t),
        canonical_root(u),
        contents(t) == contents(u),
    ensures
        t == u,
{
    assert forall|k: Seq<u8>| #[trigger] root_get(t, k) == root_get(u, k) by {
        lemma_contents_key(t, k);
        lemma_contents_key(u, k);
    }
    match (t, u) {
        (Some(a), Some(b)) => {
            assert forall|k: Seq<u8>| #[trigger] tree_get(a, k) == tree_get(b, k) by {
                assert(root_get(t, k) == root_get(u, k));
            }
            lemma_unique(a, b);
        },
        (Some(a), None) => {
            let k = lemma_has_key(a);
            assert(root_get(t, k) is Some);
        },
        (None, Some(b)) => {
            let k = lemma_has_key(b);
            assert(root_get(t, k) == root_get(u, k));
        },
        (None, None) => {},
    }
}

/// Every key of `t` has `n` half-bytes.
pub open spec fn keys_of_length(t: Option<Tree>, n: nat) -> bool {
    forall|k: Seq<u8>| #[trigger] root_get(t, k) is Some ==> k.len() == n
}

/// A key of the length that all keys have fits.
pub proof fn lemma_fixed_length_fits(t: Option<Tree>, key: Seq<u8>)
    requires
        keys_of_length(t, key.len()),
    ensures
        key_fits(t, key),
{
    assert forall|k: Seq<u8>| #[trigger]
        root_get(t, k) is Some && k != key implies !starts_with(k, key) && !starts_with(key, k) by {
        assert(k.take(k.len() as int) =~= k);
        assert(key.take(key.len() as int) =~= key);
    }
}

/// The keys of `t` have `n` half-bytes each, no two of them differ in the last one alone, and no
/// value is too long to be measured.
pub open spec fn keys_apart(t: Tree, n: nat) -> bool {
    &&& forall|k: Seq<u8>| #[trigger]
        tree_get(t, k) is Some ==> k.len() == n && tree_get(t, k)->0.len() <= usize::MAX - 64
    &&& forall|k: Seq<u8>, l: Seq<u8>| #[trigger]
        tree_get(t, k) is Some && #[trigger] tree_get(t, l) is Some && k != l ==> shared_len(k, l)
            + 1 < n
}

/// A trie can be encoded where its keys have the same length and are [`keys_apart`].
pub proof fn lemma_encodable(t: Tree, n: nat)
    requires
        canonical(t),
        1 <= n <= 64,
        keys_apart(t, n),
    ensures
        encodable(t),
    decreases t,
{
    match t {
        Tree::Leaf(v) => {
            assert(tree_get(t, Seq::empty()) is Some);
        },
        Tree::Path(p, c) => {
            let k0 = lemma_has_key(*c);
            lemma_get_path(p, *c, k0);
            if let Tree::Leaf(v) = *c {
                assert(tree_get(*c, Seq::empty()) is Some);
                lemma_get_path(p, *c, Seq::empty());
                assert(tree_get(t, p + Seq::<u8>::empty()) == Some(v));
            } else {
                let m = (n - p.len()) as nat;
                assert forall|k: Seq<u8>| #[trigger] tree_get(*c, k) is Some implies k.len() == m
                    && tree_get(*c, k)->0.len() <= usize::MAX - 64 by {
                    lemma_get_path(p, *c, k);
                    assert(tree_get(t, p + k) is Some);
                }
                assert forall|k: Seq<u8>, l: Seq<u8>| #[trigger]
                    tree_get(*c, k) is Some && #[trigger] tree_get(*c, l) is Some && k
                        != l implies shared_len(k, l) + 1 < m by {
                    lemma_get_path(p, *c, k);
                    lemma_get_path(p, *c, l);
                    lemma_shared_after(p, k, l);
                    assert((p + k).skip(p.len() as int) =~= k);
                    assert((p + l).skip(p.len() as int) =~= l);
                    assert(tree_get(t, p + k) is Some && tree_get(t, p + l) is Some);
                }
                if m == 0 {
                    lemma_only_empty_key(*c);
                }
                lemma_encodable(*c, m);
            }
        },
        Tree::Fork(ch) => {
            let (a, b) = choose|a: int, b: int|
                0 <= a < b < 16 && #[trigger] ch[a] is Some && #[trigger] ch[b] is Some;
            let ka = lemma_has_key(ch[a]->0);
            let kb = lemma_has_key(ch[b]->0);
            lemma_get_fork(ch, a as u8, ka);
            lemma_get_fork(ch, b as u8, kb);
            let la = seq![a as u8] + ka;
            let lb = seq![b as u8] + kb;
            assert(la[0] != lb[0]);
            assert(tree_get(t, la) is Some && tree_get(t, lb) is Some);
            let m = (n - 1) as nat;
            assert forall|i: int| 0 <= i < ch.len() implies match #[trigger] ch[i] {
                Some(c) => encodable(c),
                None => true,
            } by {
                if let Some(c) = ch[i] {
                    let p = seq![i as u8];
                    assert forall|k: Seq<u8>| #[trigger] tree_get(c, k) is Some implies k.len() == m
                        && tree_get(c, k)->0.len() <= usize::MAX - 64 by {
                        lemma_get_fork(ch, i as u8, k);
                        assert(tree_get(t, p + k) is Some);
                    }
                    assert forall|k: Seq<u8>, l: Seq<u8>| #[trigger]
                        tree_get(c, k) is Some && #[trigger] tree_get(c, l) is Some && k
                            != l implies shared_len(k, l) + 1 < m by {
                        lemma_get_fork(ch, i as u8, k);
                        lemma_get_fork(ch, i as u8, l);
                        lemma_shared_after(p, k, l);
                        assert((p + k).skip(1) =~= k);
                        assert((p + l).skip(1) =~= l);
                        assert(tree_get(t, p + k) is Some && tree_get(t, p + l) is Some);
                    }
                    lemma_encodable(c, m);
                }
            }
        },
    }
}

/// A trie whose keys are all empty is a value.
proof fn lemma_only_empty_key(t: Tree)
    requires
        canonical(t),
        forall|k: Seq<u8>| #[trigger] tree_get(t, k) is Some ==> k.len() == 0,
    ensures
        t is Leaf,
{
    let k = lemma_has_key(t);
    assert(tree_get(t, k) is Some);
}

/// The keys of `m` have 64 half-bytes each, no two of them differ in the last one alone, and no
/// value is too long to be measured.
pub open spec fn spread(m: Map<Seq<u8>, Seq<u8>>) -> bool {
    &&& forall|k: Seq<u8>| #[trigger]
        m.contains_key(k) ==> k.len() == 64 && m[k].len() <= usize::MAX - 64
    &&& forall|k: Seq<u8>, l: Seq<u8>| #[trigger]
        m.contains_key(k) && #[trigger] m.contains_key(l) && k != l ==> shared_len(k, l) < 63
}

/// A trie with contents that are [`spread`] can be encoded.
pub proof fn lemma_spread_encodable(t: Tree)
    requires
        canonical(t),
        spread(contents(Some(t))),
    ensures
        encodable(t),
{
    let m = contents(Some(t));
    assert forall|k: Seq<u8>| #[trigger] tree_get(t, k) is Some implies m.contains_key(k) && m[k]
        == tree_get(t, k)->0 by {
        lemma_contents_key(Some(t), k);
    }
    assert(keys_apart(t, 64));
    lemma_encodable(t, 64);
}

} // verus!
