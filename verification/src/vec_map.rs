//! A small map that keeps its entries in the order in which their keys first came.

use vstd::prelude::*;

use crate::bytes::ByteSeq;
use crate::nibbles::Nibbles;

verus! {

/// A type whose values can be told apart by a byte string.
pub trait MapKey {
    /// The byte string.
    spec fn key(&self) -> ByteSeq;

    /// Whether two values have the same byte string.
    fn same_key(&self, other: &Self) -> (r: bool)
        ensures
            r == (self.key() == other.key()),
    ;
}

impl MapKey for Nibbles {
    open spec fn key(&self) -> Seq<u8> {
        self@
    }

    fn same_key(&self, other: &Self) -> (r: bool) {
        self.same(other)
    }
}

impl<const N: usize> MapKey for [u8; N] {
    open spec fn key(&self) -> Seq<u8> {
        self@
    }

    fn same_key(&self, other: &Self) -> (r: bool) {
        let mut i: usize = 0;
        while i < N
            invariant
                i <= N,
                forall|j: int| 0 <= j < i ==> self@[j] == #[trigger] other@[j],
            decreases N - i,
        {
            if self[i] != other[i] {
                return false;
            }
            i += 1;
        }
        assert(self@ =~= other@);
        true
    }
}

/// No two entries have the same key.
pub open spec fn distinct<K: MapKey, V>(entries: Seq<(K, V)>) -> bool {
    forall|i: int, j: int|
        0 <= i < j < entries.len() ==> (#[trigger] entries[i]).0.key() != (
        #[trigger] entries[j]).0.key()
}

/// One of the entries has key `k`.
pub open spec fn has_entry<K: MapKey, V>(entries: Seq<(K, V)>, k: Seq<u8>) -> bool {
    exists|i: int| 0 <= i < entries.len() && (#[trigger] entries[i]).0.key() == k
}

/// The position of an entry with key `k`.
pub open spec fn entry_of<K: MapKey, V>(entries: Seq<(K, V)>, k: Seq<u8>) -> int {
    choose|i: int| 0 <= i < entries.len() && (#[trigger] entries[i]).0.key() == k
}

/// The map that a list of entries stands for.
pub open spec fn entries_map<K: MapKey, V>(entries: Seq<(K, V)>) -> Map<Seq<u8>, V> {
    Map::new(|k: Seq<u8>| has_entry(entries, k), |k: Seq<u8>| entries[entry_of(entries, k)].1)
}

/// An entry is found under its key.
pub proof fn lemma_entry<K: MapKey, V>(entries: Seq<(K, V)>, i: int)
    requires
        distinct(entries),
        0 <= i < entries.len(),
    ensures
        entries_map(entries).contains_key(entries[i].0.key()),
        entries_map(entries)[entries[i].0.key()] == entries[i].1,
{
    let k = entries[i].0.key();
    assert(has_entry(entries, k));
    let j = entry_of(entries, k);
    assert(0 <= j < entries.len() && entries[j].0.key() == k);
    if i < j {
        assert(entries[i].0.key() != entries[j].0.key());
    } else if j < i {
        assert(entries[j].0.key() != entries[i].0.key());
    }
}

/// Two maps are equal where they agree on every key.
proof fn lemma_same_map<V>(a: Map<Seq<u8>, V>, b: Map<Seq<u8>, V>)
    requires
        forall|k: Seq<u8>| #[trigger]
            a.contains_key(k) == b.contains_key(k) && (a.contains_key(k) ==> a[k] == b[k]),
    ensures
        a == b,
{
    assert(a =~= b);
}

/// A new value for a key that is there.
proof fn lemma_updated<K: MapKey, V>(entries: Seq<(K, V)>, i: int, e: (K, V))
    requires
        distinct(entries),
        0 <= i < entries.len(),
        entries[i].0.key() == e.0.key(),
    ensures
        distinct(entries.update(i, e)),
        entries_map(entries.update(i, e)) == entries_map(entries).insert(e.0.key(), e.1),
{
    let after = entries.update(i, e);
    assert(distinct(after));
    let a = entries_map(after);
    let b = entries_map(entries).insert(e.0.key(), e.1);
    assert forall|k: Seq<u8>| #[trigger]
        a.contains_key(k) == b.contains_key(k) && (a.contains_key(k) ==> a[k] == b[k]) by {
        if has_entry(after, k) {
            let j = entry_of(after, k);
            assert(0 <= j < after.len() && after[j].0.key() == k);
            assert(entries[j].0.key() == k);
            lemma_entry(entries, j);
            lemma_entry(after, j);
            if j != i && k == e.0.key() {
                lemma_entry(after, i);
                assert(after[i].0.key() == after[j].0.key());
            }
        }
        if has_entry(entries, k) {
            let j = entry_of(entries, k);
            assert(0 <= j < entries.len() && entries[j].0.key() == k);
            assert(after[j].0.key() == k);
        }
        if k == e.0.key() {
            assert(after[i].0.key() == k);
        }
    }
    lemma_same_map(a, b);
}

/// An entry for a key that is not there.
proof fn lemma_pushed<K: MapKey, V>(entries: Seq<(K, V)>, e: (K, V))
    requires
        distinct(entries),
        !has_entry(entries, e.0.key()),
    ensures
        distinct(entries.push(e)),
        entries_map(entries.push(e)) == entries_map(entries).insert(e.0.key(), e.1),
{
    let after = entries.push(e);
    let n = entries.len() as int;
    assert(distinct(after));
    let a = entries_map(after);
    let b = entries_map(entries).insert(e.0.key(), e.1);
    assert forall|k: Seq<u8>| #[trigger]
        a.contains_key(k) == b.contains_key(k) && (a.contains_key(k) ==> a[k] == b[k]) by {
        if has_entry(after, k) {
            let j = entry_of(after, k);
            assert(0 <= j < after.len() && after[j].0.key() == k);
            lemma_entry(after, j);
            if j < n {
                assert(entries[j].0.key() == k);
                lemma_entry(entries, j);
            }
        }
        if has_entry(entries, k) {
            let j = entry_of(entries, k);
            assert(0 <= j < entries.len() && entries[j].0.key() == k);
            assert(after[j].0.key() == k);
        }
        if k == e.0.key() {
            assert(after[n].0.key() == k);
        }
    }
    lemma_same_map(a, b);
}

/// The map of the first entries grows with the next one.
pub proof fn lemma_next_entry<K: MapKey, V>(entries: Seq<(K, V)>, i: int)
    requires
        distinct(entries),
        0 <= i < entries.len(),
    ensures
        !has_entry(entries.take(i), entries[i].0.key()),
        distinct(entries.take(i)),
        entries_map(entries.take(i + 1)) == entries_map(entries.take(i)).insert(
            entries[i].0.key(),
            entries[i].1,
        ),
{
    let first = entries.take(i);
    let e = entries[i];
    assert(distinct(first)) by {
        assert forall|a: int, b: int| 0 <= a < b < first.len() implies (
        #[trigger] first[a]).0.key() != (#[trigger] first[b]).0.key() by {
            assert(entries[a].0.key() != entries[b].0.key());
        }
    }
    if has_entry(first, e.0.key()) {
        let j = choose|j: int| 0 <= j < first.len() && (#[trigger] first[j]).0.key() == e.0.key();
        assert(entries[j].0.key() != entries[i].0.key());
    }
    assert(entries.take(i + 1) =~= first.push(e));
    lemma_pushed(first, e);
}

/// An entry that is taken out.
proof fn lemma_taken<K: MapKey, V>(entries: Seq<(K, V)>, i: int)
    requires
        distinct(entries),
        0 <= i < entries.len(),
    ensures
        distinct(entries.remove(i)),
        entries_map(entries.remove(i)) == entries_map(entries).remove(entries[i].0.key()),
{
    let after = entries.remove(i);
    assert(distinct(after));
    let a = entries_map(after);
    let b = entries_map(entries).remove(entries[i].0.key());
    assert forall|k: Seq<u8>| #[trigger]
        a.contains_key(k) == b.contains_key(k) && (a.contains_key(k) ==> a[k] == b[k]) by {
        if has_entry(after, k) {
            let j = entry_of(after, k);
            assert(0 <= j < after.len() && after[j].0.key() == k);
            lemma_entry(after, j);
            let l = if j < i {
                j
            } else {
                j + 1
            };
            assert(entries[l] == after[j]);
            lemma_entry(entries, l);
        }
        if has_entry(entries, k) && k != entries[i].0.key() {
            let j = entry_of(entries, k);
            assert(0 <= j < entries.len() && entries[j].0.key() == k);
            let l = if j < i {
                j
            } else {
                j - 1
            };
            assert(after[l].0.key() == k);
        }
    }
    lemma_same_map(a, b);
}

/// A map from keys to values. It stands for a map from the keys' byte strings.
#[derive(Debug, PartialEq, Eq)]
pub struct VecMap<K: MapKey, V> {
    entries: Vec<(K, V)>,
}

impl<K: MapKey, V> View for VecMap<K, V> {
    type V = Map<Seq<u8>, V>;

    closed spec fn view(&self) -> Map<Seq<u8>, V> {
        entries_map(self.entries@)
    }
}

impl<K: MapKey, V> VecMap<K, V> {
    #[verifier::type_invariant]
    spec fn no_key_twice(self) -> bool {
        distinct(self.entries@)
    }

    /// The entries in their order.
    pub closed spec fn listing(&self) -> Seq<(K, V)> {
        self.entries@
    }

    /// A map without entries.
    pub fn new() -> (r: VecMap<K, V>)
        ensures
            r@ == Map::<Seq<u8>, V>::empty(),
            r.listing() == Seq::<(K, V)>::empty(),
    {
        let entries: Vec<(K, V)> = Vec::new();
        let r = VecMap { entries };
        assert(r@ =~= Map::<Seq<u8>, V>::empty());
        r
    }

    /// The number of entries.
    pub fn len(&self) -> (r: usize)
        ensures
            r == self.listing().len(),
            distinct(self.listing()),
            self@ == entries_map(self.listing()),
            r == 0 <==> self@ == Map::<Seq<u8>, V>::empty(),
    {
        proof {
            use_type_invariant(self);
            if self.entries@.len() == 0 {
                assert(self@ =~= Map::<Seq<u8>, V>::empty());
            } else {
                lemma_entry(self.entries@, 0);
            }
        }
        self.entries.len()
    }

    /// Whether there are no entries.
    pub fn is_empty(&self) -> (r: bool)
        ensures
            r == (self@ == Map::<Seq<u8>, V>::empty()),
    {
        self.len() == 0
    }

    /// The entry at position `i`.
    pub fn entry(&self, i: usize) -> (r: (&K, &V))
        requires
            i < self.listing().len(),
        ensures
            *r.0 == self.listing()[i as int].0,
            *r.1 == self.listing()[i as int].1,
            self@.contains_key(r.0.key()),
            self@[r.0.key()] == *r.1,
    {
        proof {
            use_type_invariant(self);
            lemma_entry(self.entries@, i as int);
        }
        (&self.entries[i].0, &self.entries[i].1)
    }

    /// The entries.
    pub fn into_entries(self) -> (r: Vec<(K, V)>)
        ensures
            r@ == self.listing(),
            distinct(r@),
            self@ == entries_map(r@),
    {
        proof {
            use_type_invariant(&self);
        }
        self.entries
    }

    /// The position of `key`.
    fn find(&self, key: &K) -> (r: Option<usize>)
        ensures
            r matches Some(i) ==> i < self.entries@.len() && self.entries@[i as int].0.key()
                == key.key(),
            r is None ==> !has_entry(self.entries@, key.key()),
    {
        let mut i: usize = 0;
        while i < self.entries.len()
            invariant
                i <= self.entries@.len(),
                forall|j: int| 0 <= j < i ==> (#[trigger] self.entries@[j]).0.key() != key.key(),
            decreases self.entries@.len() - i,
        {
            if self.entries[i].0.same_key(key) {
                return Some(i);
            }
            i += 1;
        }
        None
    }

    /// The value of `key`.
    pub fn get(&self, key: &K) -> (r: Option<&V>)
        ensures
            r is Some <==> self@.contains_key(key.key()),
            r matches Some(v) ==> *v == self@[key.key()],
    {
        match self.find(key) {
            Some(i) => {
                proof {
                    use_type_invariant(self);
                    lemma_entry(self.entries@, i as int);
                }
                Some(&self.entries[i].1)
            },
            None => None,
        }
    }

    /// Whether `key` has a value.
    pub fn contains_key(&self, key: &K) -> (r: bool)
        ensures
            r == self@.contains_key(key.key()),
    {
        self.get(key).is_some()
    }

    /// Sets the value of `key`, and gives the one that it had.
    pub fn insert(&mut self, key: K, value: V) -> (r: Option<V>)
        ensures
            final(self)@ == old(self)@.insert(key.key(), value),
            r is Some <==> old(self)@.contains_key(key.key()),
            r matches Some(v) ==> v == old(self)@[key.key()],
    {
        proof {
            use_type_invariant(&*self);
        }
        let found = self.find(&key);
        let mut entries: Vec<(K, V)> = Vec::new();
        std::mem::swap(&mut entries, &mut self.entries);
        let ghost before = entries@;
        match found {
            Some(i) => {
                proof {
                    lemma_entry(before, i as int);
                }
                let old_entry = entries.remove(i);
                entries.insert(i, (key, value));
                proof {
                    assert(entries@ =~= before.update(i as int, (key, value)));
                    lemma_updated(before, i as int, (key, value));
                }
                self.entries = entries;
                Some(old_entry.1)
            },
            None => {
                entries.push((key, value));
                proof {
                    lemma_pushed(before, (key, value));
                }
                self.entries = entries;
                None
            },
        }
    }

    /// Puts the entries of `other` in place.
    pub fn extend(&mut self, other: VecMap<K, V>)
        ensures
            final(self)@ == old(self)@.union_prefer_right(other@),
    {
        let ghost start = self@;
        let entries = other.into_entries();
        let ghost all = entries@;
        let ghost mut k: int = 0;
        proof {
            assert(all.take(0) =~= Seq::empty());
            assert(start.union_prefer_right(entries_map(all.take(0))) =~= start);
        }
        for entry in it: entries
            invariant
                k == it.index(),
                it.seq() == all,
                distinct(all),
                self@ == start.union_prefer_right(entries_map(all.take(k))),
        {
            let (key, value) = entry;
            self.insert(key, value);
            proof {
                lemma_next_entry(all, k);
                assert(self@ =~= start.union_prefer_right(entries_map(all.take(k + 1))));
                k = k + 1;
            }
        }
        assert(all.take(k) =~= all);
    }

    /// Takes `key` out, and gives the value that it had.
    pub fn remove(&mut self, key: &K) -> (r: Option<V>)
        ensures
            final(self)@ == old(self)@.remove(key.key()),
            r is Some <==> old(self)@.contains_key(key.key()),
            r matches Some(v) ==> v == old(self)@[key.key()],
    {
        proof {
            use_type_invariant(&*self);
        }
        match self.find(key) {
            Some(i) => {
                let mut entries: Vec<(K, V)> = Vec::new();
                std::mem::swap(&mut entries, &mut self.entries);
                let ghost before = entries@;
                proof {
                    lemma_entry(before, i as int);
                }
                let old_entry = entries.remove(i);
                proof {
                    lemma_taken(before, i as int);
                }
                self.entries = entries;
                Some(old_entry.1)
            },
            None => {
                assert(self@.remove(key.key()) =~= self@);
                None
            },
        }
    }
}

/// A path is found by its half-bytes, and a word by its bytes, all of them.
pub proof fn law_keys<const N: usize>(path: Nibbles, other: Nibbles, a: [u8; N], b: [u8; N])
    ensures
        path.key() == other.key() <==> path@ == other@,
        a.key() == b.key() <==> a@ == b@,
{
}

} // verus!
