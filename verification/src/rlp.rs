//! Recursive length prefix encoding of trie nodes and accounts, and their Keccak hashes.

use alloy_rlp::Encodable;
use vstd::arithmetic::power::{lemma_pow0, lemma_pow1, lemma_pow_adds, pow};
use vstd::prelude::*;
use vstd::slice::slice_to_vec;

use crate::nibbles::all_nibbles;

verus! {

/// A 32-byte word, such as a hash.
pub type B256 = [u8; 32];

/// A 256-bit number in big-endian bytes.
pub type U256 = [u8; 32];

/// Zero.
pub const ZERO_WORD: [u8; 32] = [
    0,
    0,
    0,
    0,
    0,
    0,
    0,
    0,
    0,
    0,
    0,
    0,
    0,
    0,
    0,
    0,
    0,
    0,
    0,
    0,
    0,
    0,
    0,
    0,
    0,
    0,
    0,
    0,
    0,
    0,
    0,
    0,
];

/// The Keccak-256 hash of `data`.
pub uninterp spec fn keccak(data: Seq<u8>) -> [u8; 32];

/// `n` in big-endian base 256, without leading zeros. Zero has no digits.
pub open spec fn be_digits(n: nat) -> Seq<u8>
    decreases n,
{
    if n == 0 {
        Seq::empty()
    } else {
        be_digits(n / 256).push((n % 256) as u8)
    }
}

/// `bytes` without its leading zeros.
pub open spec fn without_leading_zeros(bytes: Seq<u8>) -> Seq<u8>
    decreases bytes.len(),
{
    if bytes.len() > 0 && bytes[0] == 0 {
        without_leading_zeros(bytes.skip(1))
    } else {
        bytes
    }
}

/// The prefix of an item with `len` bytes of payload.
pub open spec fn rlp_header(list: bool, len: nat) -> Seq<u8> {
    let base: int = if list { 0xc0 } else { 0x80 };
    if len < 56 {
        seq![(base + len) as u8]
    } else {
        seq![(base + 55 + be_digits(len).len()) as u8] + be_digits(len)
    }
}

/// A byte string as an item.
pub open spec fn rlp_string(bytes: Seq<u8>) -> Seq<u8> {
    if bytes.len() == 1 && bytes[0] < 0x80 {
        bytes
    } else {
        rlp_header(false, bytes.len()) + bytes
    }
}

/// A list item around `payload`, the items of the list one after the other.
pub open spec fn rlp_list(payload: Seq<u8>) -> Seq<u8> {
    rlp_header(true, payload.len()) + payload
}

/// A path in compact form: a flag byte that tells leaves from extensions and odd from even
/// lengths and holds the first half-byte of an odd path, then two half-bytes to a byte.
pub open spec fn compact_path(path: Seq<u8>, leaf: bool) -> Seq<u8> {
    let flag: int = if leaf { 0x20 } else { 0 };
    let odd: int = path.len() as int % 2;
    seq![(if odd == 1 { flag + 0x10 + path[0] } else { flag }) as u8] + Seq::new(
        path.len() / 2,
        |i: int| (path[2 * i + odd] * 16 + path[2 * i + odd + 1]) as u8,
    )
}

/// How a parent refers to a node with encoding `rlp`: by the encoding itself where that is
/// short, and otherwise by the encoded hash.
pub open spec fn reference_to(rlp: Seq<u8>) -> Seq<u8> {
    if rlp.len() < 32 {
        rlp
    } else {
        seq![0xa0u8] + keccak(rlp)@
    }
}

/// The encoding of an account in the account trie.
pub open spec fn rlp_account(nonce: u64, balance: Seq<u8>, root: Seq<u8>, code: Seq<u8>) -> Seq<
    u8,
> {
    rlp_list(
        rlp_string(be_digits(nonce as nat)) + rlp_string(without_leading_zeros(balance))
            + rlp_string(root) + rlp_string(code),
    )
}

/// A number of `k` base-256 digits at most has at most `k` of them in [`be_digits`].
proof fn lemma_be_digits_len(n: nat, k: nat)
    requires
        n < pow(256, k),
    ensures
        be_digits(n).len() <= k,
    decreases k,
{
    if n > 0 {
        if k == 0 {
            lemma_pow0(256);
        } else {
            lemma_pow1(256);
            lemma_pow_adds(256, 1, (k - 1) as nat);
            lemma_be_digits_len(n / 256, (k - 1) as nat);
        }
    }
}

/// The prefix of an item that fits in memory is at most nine bytes long.
pub proof fn lemma_header_len(len: nat)
    requires
        len <= usize::MAX,
    ensures
        rlp_header(false, len).len() <= 9,
{
    assert(pow(256, 8) == 0x1_0000_0000_0000_0000) by {
        reveal(pow);
        reveal_with_fuel(pow, 9);
    }
    lemma_be_digits_len(len, 8);
}

/// Taking leading zeros away makes nothing longer.
pub proof fn lemma_stripped_len(bytes: Seq<u8>)
    ensures
        without_leading_zeros(bytes).len() <= bytes.len(),
    decreases bytes.len(),
{
    if bytes.len() > 0 && bytes[0] == 0 {
        lemma_stripped_len(bytes.skip(1));
    }
}

/// The encoding of an account is short.
pub proof fn lemma_account_len(nonce: u64, balance: Seq<u8>, root: Seq<u8>, code: Seq<u8>)
    requires
        balance.len() == 32,
        root.len() == 32,
        code.len() == 32,
    ensures
        rlp_account(nonce, balance, root, code).len() <= 128,
{
    lemma_stripped_len(balance);
    assert(pow(256, 8) == 0x1_0000_0000_0000_0000) by {
        reveal(pow);
        reveal_with_fuel(pow, 9);
    }
    lemma_be_digits_len(nonce as nat, 8);
    let payload = rlp_string(be_digits(nonce as nat)) + rlp_string(without_leading_zeros(balance))
        + rlp_string(root) + rlp_string(code);
    lemma_header_len(payload.len());
}

/// Numbers with the same digits are the same.
proof fn lemma_be_digits_injective(a: nat, b: nat)
    requires
        be_digits(a) == be_digits(b),
    ensures
        a == b,
    decreases a,
{
    if a > 0 && b > 0 {
        let x = be_digits(a / 256);
        let y = be_digits(b / 256);
        assert(x.push((a % 256) as u8).drop_last() =~= x);
        assert(y.push((b % 256) as u8).drop_last() =~= y);
        assert(x.push((a % 256) as u8).last() == y.push((b % 256) as u8).last());
        assert(a % 256 == b % 256);
        lemma_be_digits_injective(a / 256, b / 256);
        assert(a == 256 * (a / 256) + a % 256);
        assert(b == 256 * (b / 256) + b % 256);
    } else if a > 0 {
        assert(be_digits(a) == be_digits(a / 256).push((a % 256) as u8));
    } else if b > 0 {
        assert(be_digits(b) == be_digits(b / 256).push((b % 256) as u8));
    }
}

/// Words of the same length that are the same but for leading zeros are the same.
proof fn lemma_stripped_injective(a: Seq<u8>, b: Seq<u8>)
    requires
        a.len() == b.len(),
        without_leading_zeros(a) == without_leading_zeros(b),
    ensures
        a == b,
    decreases a.len(),
{
    if a.len() > 0 {
        lemma_stripped_len(a.skip(1));
        lemma_stripped_len(b.skip(1));
        if a[0] == 0 && b[0] == 0 {
            lemma_stripped_injective(a.skip(1), b.skip(1));
            assert(a =~= seq![0u8] + a.skip(1));
            assert(b =~= seq![0u8] + b.skip(1));
        }
    } else {
        assert(a =~= b);
    }
}

/// A short string item can be told from what follows it.
proof fn lemma_string_prefix(a: Seq<u8>, x: Seq<u8>, b: Seq<u8>, y: Seq<u8>)
    requires
        a.len() < 56,
        b.len() < 56,
        rlp_string(a) + x == rlp_string(b) + y,
    ensures
        a == b,
        x == y,
{
    let whole = rlp_string(a) + x;
    let other = rlp_string(b) + y;
    assert(whole[0] == rlp_string(a)[0]);
    assert(other[0] == rlp_string(b)[0]);
    assert(a.len() == b.len());
    assert(rlp_string(a).len() == rlp_string(b).len());
    let n = rlp_string(a).len() as int;
    assert(rlp_string(a) =~= whole.take(n));
    assert(rlp_string(b) =~= other.take(n));
    assert(x =~= whole.skip(n));
    assert(y =~= other.skip(n));
    if a.len() == 1 && a[0] < 0x80 {
        assert(rlp_string(a) == a);
        assert(a =~= b);
    } else {
        assert(a =~= rlp_string(a).skip(1));
        assert(b =~= rlp_string(b).skip(1));
    }
}

/// A list of 56 bytes or more and fewer than 256 has two bytes of prefix.
proof fn lemma_list_payload(payload: Seq<u8>)
    requires
        56 <= payload.len() < 256,
    ensures
        rlp_list(payload).skip(2) == payload,
{
    reveal_with_fuel(be_digits, 3);
    assert(rlp_header(true, payload.len()).len() == 2);
    assert(payload =~= rlp_list(payload).skip(2));
}

/// Encodings of accounts tell everything that goes into them: where two are the same, so are the
/// nonces, the balances, the storage roots and the code hashes.
pub proof fn law_account_encoding(
    nonce: u64,
    balance: Seq<u8>,
    root: Seq<u8>,
    code: Seq<u8>,
    other_nonce: u64,
    other_balance: Seq<u8>,
    other_root: Seq<u8>,
    other_code: Seq<u8>,
)
    requires
        balance.len() == 32,
        root.len() == 32,
        code.len() == 32,
        other_balance.len() == 32,
        other_root.len() == 32,
        other_code.len() == 32,
        rlp_account(nonce, balance, root, code) == rlp_account(
            other_nonce,
            other_balance,
            other_root,
            other_code,
        ),
    ensures
        nonce == other_nonce,
        balance == other_balance,
        root == other_root,
        code == other_code,
{
    lemma_stripped_len(balance);
    lemma_stripped_len(other_balance);
    assert(pow(256, 8) == 0x1_0000_0000_0000_0000) by {
        reveal(pow);
        reveal_with_fuel(pow, 9);
    }
    lemma_be_digits_len(nonce as nat, 8);
    lemma_be_digits_len(other_nonce as nat, 8);
    let n1 = be_digits(nonce as nat);
    let n2 = be_digits(other_nonce as nat);
    let b1 = without_leading_zeros(balance);
    let b2 = without_leading_zeros(other_balance);
    let p1 = rlp_string(n1) + rlp_string(b1) + rlp_string(root) + rlp_string(code);
    let p2 = rlp_string(n2) + rlp_string(b2) + rlp_string(other_root) + rlp_string(other_code);
    assert(p1.len() < 256 && p2.len() < 256);
    assert(p1.len() >= 56 && p2.len() >= 56);
    lemma_list_payload(p1);
    lemma_list_payload(p2);
    let x1 = rlp_string(b1) + (rlp_string(root) + rlp_string(code));
    let x2 = rlp_string(b2) + (rlp_string(other_root) + rlp_string(other_code));
    assert(p1 =~= rlp_string(n1) + x1);
    assert(p2 =~= rlp_string(n2) + x2);
    lemma_string_prefix(n1, x1, n2, x2);
    lemma_be_digits_injective(nonce as nat, other_nonce as nat);
    lemma_string_prefix(
        b1,
        rlp_string(root) + rlp_string(code),
        b2,
        rlp_string(other_root) + rlp_string(other_code),
    );
    lemma_stripped_injective(balance, other_balance);
    lemma_string_prefix(root, rlp_string(code), other_root, rlp_string(other_code));
    assert(rlp_string(code) =~= rlp_string(code) + Seq::<u8>::empty());
    assert(rlp_string(other_code) =~= rlp_string(other_code) + Seq::<u8>::empty());
    lemma_string_prefix(code, Seq::empty(), other_code, Seq::empty());
}

/// Calls `alloy_primitives::keccak256`. Its result is named [`keccak`].
#[verifier::external_body]
pub(crate) fn keccak256(data: &[u8]) -> (r: B256)
    ensures
        r == keccak(data@),
{
    alloy_primitives::keccak256(data).0
}

/// Calls `alloy_rlp::Header::encode`, which appends the prefix of an item to `out`.
#[verifier::external_body]
pub(crate) fn put_header(list: bool, payload_length: usize, out: &mut Vec<u8>)
    ensures
        final(out)@ == old(out)@ + rlp_header(list, payload_length as nat),
{
    alloy_rlp::Header { list, payload_length }.encode(out);
}

/// Calls `alloy_rlp::Encodable::encode` of a byte slice, which appends the slice as a string
/// item to `out`.
#[verifier::external_body]
pub(crate) fn put_string(bytes: &[u8], out: &mut Vec<u8>)
    ensures
        final(out)@ == old(out)@ + rlp_string(bytes@),
{
    bytes.encode(out);
}

/// Calls `alloy_rlp::Encodable::length` of a byte slice, the length of the slice as a string
/// item. The sum of the slice and the longest prefix has to fit.
#[verifier::external_body]
pub(crate) fn string_length(bytes: &[u8]) -> (r: usize)
    requires
        bytes@.len() + 9 <= usize::MAX,
    ensures
        r == rlp_string(bytes@).len(),
{
    bytes.length()
}

/// Calls `alloy_rlp::length_of_length`, the length of an item's prefix.
#[verifier::external_body]
pub(crate) fn length_of_length(payload_length: usize) -> (r: usize)
    ensures
        r == rlp_header(false, payload_length as nat).len(),
{
    alloy_rlp::length_of_length(payload_length)
}

/// Calls `alloy_trie::nodes::encode_path_leaf`, which packs a path of at most 64 half-bytes.
#[verifier::external_body]
pub(crate) fn encode_path_leaf(path: &[u8], is_leaf: bool) -> (r: Vec<u8>)
    requires
        path@.len() <= 64,
        all_nibbles(path@),
    ensures
        r@ == compact_path(path@, is_leaf),
{
    alloy_trie::nodes::encode_path_leaf(&nybbles::Nibbles::from_nibbles(path), is_leaf).to_vec()
}

/// Calls `alloy_trie::nodes::RlpNode::from_rlp`, which keeps an encoding of fewer than 32 bytes
/// and turns a longer one into its encoded hash.
#[verifier::external_body]
fn rlp_node_from_rlp(rlp: &[u8]) -> (r: Vec<u8>)
    ensures
        r@ == reference_to(rlp@),
{
    alloy_trie::nodes::RlpNode::from_rlp(rlp).to_vec()
}

/// Calls `alloy_rlp::encode_fixed_size` of an `alloy_primitives::U256`, which writes the number
/// as a string item of its bytes without leading zeros.
#[verifier::external_body]
pub(crate) fn encode_fixed_size(value: &U256) -> (r: Vec<u8>)
    ensures
        r@ == rlp_string(without_leading_zeros(value@)),
{
    alloy_rlp::encode_fixed_size(&alloy_primitives::U256::from_be_bytes(*value)).to_vec()
}

/// Calls `alloy_rlp::encode` of an `alloy_trie::TrieAccount`: the list of nonce, balance,
/// storage root and code hash.
#[verifier::external_body]
pub(crate) fn encode_account(nonce: u64, balance: &U256, root: &B256, code: &B256) -> (r: Vec<u8>)
    ensures
        r@ == rlp_account(nonce, balance@, root@, code@),
{
    let balance = alloy_primitives::U256::from_be_bytes(*balance);
    alloy_rlp::encode(alloy_trie::TrieAccount::new(nonce, balance, (*root).into(), (*code).into()))
}

/// How a node is referred to: its encoding, or the encoded hash of a long one.
#[derive(Debug, PartialEq, Eq)]
pub struct RlpNode {
    bytes: Vec<u8>,
}

impl View for RlpNode {
    type V = Seq<u8>;

    closed spec fn view(&self) -> Seq<u8> {
        self.bytes@
    }
}

impl RlpNode {
    /// A reference has at most the size of an encoded hash.
    #[verifier::type_invariant]
    pub open spec fn bounded(self) -> bool {
        self@.len() <= 33
    }

    /// The reference that consists of `data`, or nothing where that is too long.
    pub fn from_raw(data: &[u8]) -> (r: Option<RlpNode>)
        ensures
            r is Some <==> data@.len() <= 33,
            r matches Some(n) ==> n@ == data@,
    {
        if data.len() > 33 {
            None
        } else {
            Some(RlpNode { bytes: slice_to_vec(data) })
        }
    }

    /// The reference to the node with encoding `rlp`.
    pub fn from_rlp(rlp: &[u8]) -> (r: RlpNode)
        ensures
            r@ == reference_to(rlp@),
    {
        let bytes = rlp_node_from_rlp(rlp);
        RlpNode { bytes }
    }

    /// The bytes of the reference.
    pub fn as_slice(&self) -> (r: &[u8])
        ensures
            r@ == self@,
    {
        self.bytes.as_slice()
    }

    /// The number of bytes.
    pub fn len(&self) -> (r: usize)
        ensures
            r == self@.len(),
            r <= 33,
    {
        proof {
            use_type_invariant(self);
        }
        self.bytes.len()
    }

    /// An equal reference.
    pub fn copied(&self) -> (r: RlpNode)
        ensures
            r@ == self@,
    {
        proof {
            use_type_invariant(self);
        }
        RlpNode { bytes: slice_to_vec(self.bytes.as_slice()) }
    }

    /// The hash that the reference holds, where it has the size of an encoded hash.
    pub fn as_hash(&self) -> (r: Option<B256>)
        ensures
            r is Some <==> self@.len() == 33,
            r matches Some(h) ==> h@ == self@.skip(1),
    {
        if self.bytes.len() == 33 {
            let mut hash: [u8; 32] = [0u8; 32];
            let mut i: usize = 0;
            while i < 32
                invariant
                    i <= 32,
                    self.bytes@.len() == 33,
                    forall|j: int| 0 <= j < i ==> #[trigger] hash@[j] == self.bytes@[j + 1],
                decreases 32 - i,
            {
                hash[i] = self.bytes[i + 1];
                i += 1;
            }
            assert(hash@ =~= self@.skip(1));
            Some(hash)
        } else {
            None
        }
    }
}

/// The hash behind a reference: the hash that it holds, or that of the encoding that it is.
pub open spec fn referenced_hash(reference: Seq<u8>, h: B256) -> bool {
    if reference.len() == 33 {
        h@ == reference.skip(1)
    } else {
        h == keccak(reference)
    }
}

/// The hash behind the reference to an encoding is the hash of the encoding.
pub proof fn lemma_referenced_hash(rlp: Seq<u8>, h: B256)
    requires
        referenced_hash(reference_to(rlp), h),
    ensures
        h == keccak(rlp),
{
    if rlp.len() >= 32 {
        assert((seq![0xa0u8] + keccak(rlp)@).skip(1) =~= keccak(rlp)@);
        assert(h =~= keccak(rlp));
    }
}

/// The hash behind `node`.
pub fn hash_of_reference(node: &RlpNode) -> (h: B256)
    ensures
        referenced_hash(node@, h),
{
    match node.as_hash() {
        Some(h) => h,
        None => keccak256(node.as_slice()),
    }
}

} // verus!
