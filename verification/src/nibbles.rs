//! Paths of half-bytes, the keys of the state trie.

use vstd::prelude::*;
use vstd::slice::{slice_subrange, slice_to_vec};

verus! {

/// Every element of `s` is a half-byte.
pub open spec fn all_nibbles(s: Seq<u8>) -> bool {
    forall|i: int| 0 <= i < s.len() ==> #[trigger] s[i] < 16
}

/// `a` is an initial part of `b`, possibly all of it.
pub open spec fn starts_with(b: Seq<u8>, a: Seq<u8>) -> bool {
    a.len() <= b.len() && b.take(a.len() as int) == a
}

/// How many leading elements `a` and `b` share.
pub open spec fn shared_len(a: Seq<u8>, b: Seq<u8>) -> nat
    decreases a.len(),
{
    if a.len() == 0 || b.len() == 0 || a[0] != b[0] {
        0
    } else {
        1 + shared_len(a.skip(1), b.skip(1))
    }
}

/// The half-bytes of `bytes`, the high one of each byte first.
pub open spec fn unpacked(bytes: Seq<u8>) -> Seq<u8> {
    Seq::new(
        2 * bytes.len(),
        |i: int| if i % 2 == 0 { bytes[i / 2] / 16 } else { bytes[i / 2] % 16 },
    )
}

/// The bytes whose half-bytes are `path`.
pub open spec fn packed(path: Seq<u8>) -> Seq<u8> {
    Seq::new(path.len() / 2, |i: int| (path[2 * i] * 16 + path[2 * i + 1]) as u8)
}

/// `path` is that of a 32-byte word.
pub open spec fn is_word_path(path: Seq<u8>) -> bool {
    path.len() == 64 && all_nibbles(path)
}

/// The path of a byte string tells the string.
pub proof fn lemma_packed_unpacked(bytes: Seq<u8>)
    ensures
        packed(unpacked(bytes)) == bytes,
        all_nibbles(unpacked(bytes)),
{
    assert forall|i: int| 0 <= i < bytes.len() implies #[trigger] packed(unpacked(bytes))[i]
        == bytes[i] by {
        assert(unpacked(bytes)[2 * i] == bytes[i] / 16);
        assert(unpacked(bytes)[2 * i + 1] == bytes[i] % 16);
    }
    assert(packed(unpacked(bytes)) =~= bytes);
}

/// A path of even length is that of its bytes.
pub proof fn lemma_unpacked_packed(path: Seq<u8>)
    requires
        all_nibbles(path),
        path.len() % 2 == 0,
    ensures
        unpacked(packed(path)) == path,
{
    assert forall|i: int| 0 <= i < path.len() implies #[trigger] unpacked(packed(path))[i]
        == path[i] by {
        let j = i / 2;
        assert(packed(path)[j] == path[2 * j] * 16 + path[2 * j + 1]);
    }
    assert(unpacked(packed(path)) =~= path);
}

/// The characteristic property of [`shared_len`].
pub proof fn lemma_shared_len(a: Seq<u8>, b: Seq<u8>, n: nat)
    requires
        n <= a.len(),
        n <= b.len(),
        a.take(n as int) == b.take(n as int),
        n == a.len() || n == b.len() || a[n as int] != b[n as int],
    ensures
        shared_len(a, b) == n,
    decreases a.len(),
{
    if n > 0 {
        assert(a.take(n as int)[0] == a[0] && b.take(n as int)[0] == b[0]);
        let m = (n - 1) as nat;
        assert(a.skip(1).take(m as int) =~= a.take(n as int).skip(1));
        assert(b.skip(1).take(m as int) =~= b.take(n as int).skip(1));
        lemma_shared_len(a.skip(1), b.skip(1), m);
    }
}

/// What [`shared_len`] says of the two sequences.
pub proof fn lemma_shared_len_props(a: Seq<u8>, b: Seq<u8>)
    ensures
        shared_len(a, b) <= a.len(),
        shared_len(a, b) <= b.len(),
        a.take(shared_len(a, b) as int) == b.take(shared_len(a, b) as int),
        shared_len(a, b) < a.len() && shared_len(a, b) < b.len() ==> a[shared_len(a, b) as int]
            != b[shared_len(a, b) as int],
    decreases a.len(),
{
    let n = shared_len(a, b);
    if a.len() == 0 || b.len() == 0 || a[0] != b[0] {
        assert(a.take(0) =~= b.take(0));
    } else {
        lemma_shared_len_props(a.skip(1), b.skip(1));
        let m = shared_len(a.skip(1), b.skip(1));
        assert(a.take(n as int) =~= seq![a[0]] + a.skip(1).take(m as int));
        assert(b.take(n as int) =~= seq![b[0]] + b.skip(1).take(m as int));
    }
}

/// A common start adds its length to what is shared.
pub proof fn lemma_shared_after(p: Seq<u8>, a: Seq<u8>, b: Seq<u8>)
    ensures
        shared_len(p + a, p + b) == p.len() + shared_len(a, b),
    decreases p.len(),
{
    if p.len() == 0 {
        assert(p + a =~= a);
        assert(p + b =~= b);
    } else {
        lemma_shared_after(p.skip(1), a, b);
        assert((p + a).skip(1) =~= p.skip(1) + a);
        assert((p + b).skip(1) =~= p.skip(1) + b);
    }
}

/// Calls `nybbles::Nibbles::unpack` and lists what it holds: two half-bytes for every input
/// byte, the high one first. It accepts at most 32 bytes.
#[verifier::external_body]
fn nybbles_unpack(bytes: &[u8]) -> (r: Vec<u8>)
    requires
        bytes@.len() <= 32,
    ensures
        r@ == unpacked(bytes@),
{
    nybbles::Nibbles::unpack(bytes).to_vec()
}

/// A sequence of half-bytes.
#[derive(Debug, PartialEq, Eq)]
pub struct Nibbles {
    nibbles: Vec<u8>,
}

impl View for Nibbles {
    type V = Seq<u8>;

    closed spec fn view(&self) -> Seq<u8> {
        self.nibbles@
    }
}

impl Nibbles {
    /// The elements of a path are half-bytes.
    #[verifier::type_invariant]
    pub open spec fn half_bytes(self) -> bool {
        all_nibbles(self@)
    }

    /// The empty path.
    pub fn new() -> (r: Nibbles)
        ensures
            r@ == Seq::<u8>::empty(),
    {
        Nibbles { nibbles: Vec::new() }
    }

    /// Keeps the low half of every byte.
    pub fn from_nibbles_unchecked(bytes: &[u8]) -> (r: Nibbles)
        ensures
            r@ == bytes@.map_values(|b: u8| b % 16),
            all_nibbles(bytes@) ==> r@ == bytes@,
    {
        let mut nibbles: Vec<u8> = Vec::with_capacity(bytes.len());
        let mut i: usize = 0;
        while i < bytes.len()
            invariant
                i <= bytes@.len(),
                nibbles@ =~= bytes@.take(i as int).map_values(|b: u8| b % 16),
            decreases bytes@.len() - i,
        {
            nibbles.push(bytes[i] % 16);
            i += 1;
        }
        assert(bytes@.take(i as int) =~= bytes@);
        Nibbles { nibbles }
    }

    /// The half-bytes of `bytes`, the high one of each byte first.
    pub fn unpack(bytes: &[u8]) -> (r: Nibbles)
        requires
            bytes@.len() <= 32,
        ensures
            r@ == unpacked(bytes@),
    {
        let nibbles = nybbles_unpack(bytes);
        Nibbles { nibbles }
    }

    /// The number of half-bytes.
    pub fn len(&self) -> (r: usize)
        ensures
            r == self@.len(),
    {
        self.nibbles.len()
    }

    /// Whether the path has no half-byte.
    pub fn is_empty(&self) -> (r: bool)
        ensures
            r == (self@.len() == 0),
    {
        self.nibbles.len() == 0
    }

    /// The half-byte at position `i`.
    pub fn at(&self, i: usize) -> (r: u8)
        requires
            i < self@.len(),
        ensures
            r == self@[i as int],
            r < 16,
    {
        proof {
            use_type_invariant(self);
        }
        self.nibbles[i]
    }

    /// The half-bytes as bytes.
    pub fn as_slice(&self) -> (r: &[u8])
        ensures
            r@ == self@,
    {
        self.nibbles.as_slice()
    }

    /// The part of the path from `start` up to, and without, `end`.
    pub fn slice(&self, start: usize, end: usize) -> (r: Nibbles)
        requires
            start <= end <= self@.len(),
        ensures
            r@ == self@.subrange(start as int, end as int),
    {
        proof {
            use_type_invariant(self);
        }
        Nibbles { nibbles: slice_to_vec(slice_subrange(self.nibbles.as_slice(), start, end)) }
    }

    /// An equal path.
    pub fn copied(&self) -> (r: Nibbles)
        ensures
            r@ == self@,
    {
        proof {
            use_type_invariant(self);
        }
        Nibbles { nibbles: slice_to_vec(self.nibbles.as_slice()) }
    }

    /// This path, followed by one half-byte.
    pub fn child(&self, nibble: u8) -> (r: Nibbles)
        requires
            nibble < 16,
        ensures
            r@ == self@.push(nibble),
    {
        proof {
            use_type_invariant(self);
        }
        let mut nibbles = slice_to_vec(self.nibbles.as_slice());
        nibbles.push(nibble);
        Nibbles { nibbles }
    }

    /// This path, followed by `other`.
    pub fn join(&self, other: &Nibbles) -> (r: Nibbles)
        ensures
            r@ == self@ + other@,
    {
        proof {
            use_type_invariant(self);
            use_type_invariant(other);
        }
        let mut nibbles = slice_to_vec(self.nibbles.as_slice());
        let mut tail = slice_to_vec(other.nibbles.as_slice());
        nibbles.append(&mut tail);
        Nibbles { nibbles }
    }

    /// How many leading half-bytes the two paths share.
    pub fn common_prefix_length(&self, other: &Nibbles) -> (r: usize)
        ensures
            r == shared_len(self@, other@),
            r <= self@.len(),
            r <= other@.len(),
            self@.take(r as int) == other@.take(r as int),
            r < self@.len() && r < other@.len() ==> self@[r as int] != other@[r as int],
    {
        let mut n: usize = 0;
        while n < self.nibbles.len() && n < other.nibbles.len() && self.nibbles[n]
            == other.nibbles[n]
            invariant
                n <= self.nibbles@.len(),
                n <= other.nibbles@.len(),
                self.nibbles@.take(n as int) =~= other.nibbles@.take(n as int),
            decreases self.nibbles@.len() - n,
        {
            n += 1;
        }
        proof {
            lemma_shared_len(self@, other@, n as nat);
        }
        n
    }

    /// Whether the two paths are the same.
    pub fn same(&self, other: &Nibbles) -> (r: bool)
        ensures
            r == (self@ == other@),
    {
        let n = self.common_prefix_length(other);
        proof {
            lemma_shared_len_props(self@, other@);
            assert(self@.take(self@.len() as int) =~= self@);
            assert(other@.take(other@.len() as int) =~= other@);
            if self@ == other@ {
                lemma_shared_len(self@, other@, self@.len());
            }
        }
        n == self.nibbles.len() && n == other.nibbles.len()
    }
}

} // verus!
