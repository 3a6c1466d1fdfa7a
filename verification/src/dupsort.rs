//! Keys of tables that hold several entries under one key.
//!
//! Such a table stores an entry under its key and its subkey together: a byte with the length of
//! the key, the key, and the subkey. The entries of a key are then next to each other, in the
//! order of their subkeys.

use vstd::prelude::*;
use vstd::slice::slice_subrange;
use vstd::slice::slice_to_vec;

use crate::bytes::{append_slice, lex_le};
use crate::errors::DatabaseError;

verus! {

/// The longest key that the length byte can tell.
pub const MAX_KEY_LEN: usize = 255;

/// What the stored keys of all entries under `key` begin with.
pub open spec fn key_prefix(key: Seq<u8>) -> Seq<u8> {
    seq![key.len() as u8] + key
}

/// The stored key of the entry under `key` and `subkey`.
pub open spec fn composite(key: Seq<u8>, subkey: Seq<u8>) -> Seq<u8> {
    key_prefix(key) + subkey
}

/// A stored key has as many bytes as its first byte asks for.
pub open spec fn well_keyed(stored: Seq<u8>) -> bool {
    stored.len() > 0 && stored.len() >= 1 + stored[0]
}

/// The key in a stored key.
pub open spec fn main_key(stored: Seq<u8>) -> Seq<u8> {
    stored.subrange(1, 1 + stored[0])
}

/// The subkey in a stored key.
pub open spec fn sub_key(stored: Seq<u8>) -> Seq<u8> {
    stored.skip(1 + stored[0])
}

/// The stored key of the entry under `key` and `subkey`.
pub fn encode_dupsort_key(key: &[u8], subkey: &[u8]) -> (r: Vec<u8>)
    requires
        key@.len() <= MAX_KEY_LEN,
    ensures
        r@ == composite(key@, subkey@),
{
    let mut composite_key = encode_key_prefix(key);
    append_slice(&mut composite_key, subkey);
    composite_key
}

/// What the stored keys of all entries under `key` begin with.
pub fn encode_key_prefix(key: &[u8]) -> (r: Vec<u8>)
    requires
        key@.len() <= MAX_KEY_LEN,
    ensures
        r@ == key_prefix(key@),
{
    let mut prefix: Vec<u8> = Vec::new();
    prefix.push(key.len() as u8);
    append_slice(&mut prefix, key);
    assert(prefix@ =~= key_prefix(key@));
    prefix
}

/// The key and the subkey in a stored key.
pub fn decode_dupsort_key(composite_key: &[u8]) -> (r: Result<(Vec<u8>, Vec<u8>), DatabaseError>)
    ensures
        match r {
            Ok((key, subkey)) => well_keyed(composite_key@) && key@ == main_key(composite_key@)
                && subkey@ == sub_key(composite_key@),
            Err(e) => !well_keyed(composite_key@) && e is Decode,
        },
{
    if composite_key.len() == 0 {
        return Err(DatabaseError::Decode);
    }
    let key_len = composite_key[0] as usize;
    if composite_key.len() - 1 < key_len {
        return Err(DatabaseError::Decode);
    }
    let key = slice_to_vec(slice_subrange(composite_key, 1, 1 + key_len));
    let subkey = slice_to_vec(slice_subrange(composite_key, 1 + key_len, composite_key.len()));
    assert(subkey@ =~= sub_key(composite_key@));
    Ok((key, subkey))
}

/// A stored key gives back the key and the subkey that it was made of.
pub proof fn law_dupsort_round_trip(key: Seq<u8>, subkey: Seq<u8>)
    requires
        key.len() <= MAX_KEY_LEN,
    ensures
        well_keyed(composite(key, subkey)),
        main_key(composite(key, subkey)) == key,
        sub_key(composite(key, subkey)) == subkey,
{
    assert(main_key(composite(key, subkey)) =~= key);
    assert(sub_key(composite(key, subkey)) =~= subkey);
}

/// The key and the subkey in a stored key make the same stored key again.
pub proof fn law_stored_key_restored(stored: Seq<u8>)
    requires
        well_keyed(stored),
    ensures
        main_key(stored).len() <= MAX_KEY_LEN,
        composite(main_key(stored), sub_key(stored)) == stored,
{
    assert(composite(main_key(stored), sub_key(stored)) =~= stored);
}

/// What begins alike is ordered as what follows.
proof fn lemma_lex_common(p: Seq<u8>, a: Seq<u8>, b: Seq<u8>)
    ensures
        lex_le(p + a, p + b) == lex_le(a, b),
    decreases p.len(),
{
    if p.len() == 0 {
        assert(p + a =~= a);
        assert(p + b =~= b);
    } else {
        lemma_lex_common(p.skip(1), a, b);
        assert((p + a).skip(1) =~= p.skip(1) + a);
        assert((p + b).skip(1) =~= p.skip(1) + b);
    }
}

/// What lies between a byte string and one of its continuations is a continuation of it too.
proof fn lemma_lex_between(p: Seq<u8>, c: Seq<u8>, x: Seq<u8>)
    requires
        lex_le(p, c),
        lex_le(c, p + x),
    ensures
        p.len() <= c.len(),
        c.take(p.len() as int) == p,
    decreases p.len(),
{
    if p.len() == 0 {
        assert(c.take(0) =~= p);
    } else {
        assert((p + x).skip(1) =~= p.skip(1) + x);
        lemma_lex_between(p.skip(1), c.skip(1), x);
        assert forall|i: int| 0 <= i < p.len() implies c[i] == p[i] by {
            if i > 0 {
                assert(c.skip(1).take(p.len() - 1)[i - 1] == p.skip(1)[i - 1]);
            }
        }
        assert(c.take(p.len() as int) =~= p);
    }
}

/// The entries of one key are in the order of their subkeys.
pub proof fn law_duplicates_in_order(key: Seq<u8>, a: Seq<u8>, b: Seq<u8>)
    ensures
        lex_le(composite(key, a), composite(key, b)) == lex_le(a, b),
{
    lemma_lex_common(key_prefix(key), a, b);
}

/// The entries of one key are next to each other: whatever is stored at or after the prefix of a
/// key, and at or before an entry of that key, is an entry of that key.
pub proof fn law_duplicates_adjacent(key: Seq<u8>, stored: Seq<u8>, subkey: Seq<u8>)
    requires
        key.len() <= MAX_KEY_LEN,
        lex_le(key_prefix(key), stored),
        lex_le(stored, composite(key, subkey)),
    ensures
        well_keyed(stored),
        main_key(stored) == key,
{
    let p = key_prefix(key);
    lemma_lex_between(p, stored, subkey);
    assert forall|i: int| 0 <= i < p.len() implies stored[i] == p[i] by {
        assert(stored.take(p.len() as int)[i] == p[i]);
    }
    assert(stored[0] == p[0]);
    assert(main_key(stored) =~= key);
}

/// A stored key is the length of the key in one byte, the key and the subkey, and all stored keys
/// of a key begin with the first two. What is read of one is laid out the same way.
pub proof fn law_stored_key_layout(key: Seq<u8>, subkey: Seq<u8>, stored: Seq<u8>)
    ensures
        composite(key, subkey) == seq![key.len() as u8] + key + subkey,
        key_prefix(key) == seq![key.len() as u8] + key,
        well_keyed(stored) <==> stored.len() > 0 && stored.len() >= 1 + stored[0],
        well_keyed(stored) ==> main_key(stored).len() == stored[0],
        well_keyed(stored) ==> stored == seq![stored[0]] + main_key(stored) + sub_key(stored),
{
    if well_keyed(stored) {
        assert(stored =~= seq![stored[0]] + main_key(stored) + sub_key(stored));
    }
}

} // verus!
