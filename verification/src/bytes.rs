//! Small helpers on byte strings.

use vstd::prelude::*;

verus! {

/// A mathematical byte string.
pub type ByteSeq = Seq<u8>;

/// Appends `data` to `out`.
pub fn append_slice(out: &mut Vec<u8>, data: &[u8])
    ensures
        final(out)@ == old(out)@ + data@,
{
    out.extend_from_slice(data);
    assert(out@ =~= old(out)@ + data@);
}

/// `a` comes before `b` in the order of byte strings, or is the same.
pub open spec fn lex_le(a: Seq<u8>, b: Seq<u8>) -> bool
    decreases a.len(),
{
    if a.len() == 0 {
        true
    } else if b.len() == 0 {
        false
    } else if a[0] != b[0] {
        a[0] < b[0]
    } else {
        lex_le(a.skip(1), b.skip(1))
    }
}

/// `a` comes before `b` in the order of byte strings.
pub open spec fn lex_lt(a: Seq<u8>, b: Seq<u8>) -> bool {
    lex_le(a, b) && a != b
}

/// The order of byte strings is total and tells different strings apart.
pub proof fn lemma_lex_total(a: Seq<u8>, b: Seq<u8>)
    ensures
        lex_le(a, b) || lex_le(b, a),
        lex_le(a, b) && lex_le(b, a) ==> a == b,
        a == b ==> lex_le(a, b),
    decreases a.len(),
{
    if a.len() > 0 && b.len() > 0 {
        lemma_lex_total(a.skip(1), b.skip(1));
        if a[0] == b[0] && a.skip(1) == b.skip(1) {
            assert(a =~= seq![a[0]] + a.skip(1));
            assert(b =~= seq![b[0]] + b.skip(1));
        }
    } else if a.len() == 0 && b.len() == 0 {
        assert(a =~= b);
    }
}

/// The order of byte strings is transitive.
pub proof fn lemma_lex_trans(a: Seq<u8>, b: Seq<u8>, c: Seq<u8>)
    requires
        lex_le(a, b),
        lex_le(b, c),
    ensures
        lex_le(a, c),
    decreases a.len(),
{
    if a.len() > 0 && b.len() > 0 && c.len() > 0 && a[0] == b[0] && b[0] == c[0] {
        lemma_lex_trans(a.skip(1), b.skip(1), c.skip(1));
    }
}

/// A byte string comes before its continuations.
pub proof fn lemma_lex_prefix(a: Seq<u8>, b: Seq<u8>)
    ensures
        lex_le(a, a + b),
    decreases a.len(),
{
    if a.len() > 0 {
        lemma_lex_prefix(a.skip(1), b);
        assert((a + b).skip(1) =~= a.skip(1) + b);
    }
}

/// Byte strings are ordered by the first byte in which they differ, and one comes before its
/// continuations.
pub proof fn law_byte_order(a: Seq<u8>, b: Seq<u8>)
    ensures
        lex_le(a, b) <==> (a.len() <= b.len() && b.take(a.len() as int) == a) || exists|i: int|
            0 <= i < a.len() && i < b.len() && #[trigger] a[i] < b[i] && a.take(i) == b.take(i),
    decreases a.len(),
{
    if a.len() == 0 {
        assert(b.take(0) =~= a);
    } else if b.len() > 0 {
        let x = a.skip(1);
        let y = b.skip(1);
        law_byte_order(x, y);
        if a[0] == b[0] {
            if x.len() <= y.len() && y.take(x.len() as int) == x {
                assert forall|k: int| 0 <= k < a.len() implies a[k] == b[k] by {
                    if k > 0 {
                        assert(y.take(x.len() as int)[k - 1] == x[k - 1]);
                    }
                }
                assert(b.take(a.len() as int) =~= a);
            }
            if a.len() <= b.len() && b.take(a.len() as int) == a {
                assert forall|k: int| 0 <= k < x.len() implies x[k] == y[k] by {
                    assert(b.take(a.len() as int)[k + 1] == a[k + 1]);
                }
                assert(y.take(x.len() as int) =~= x);
            }
            if exists|i: int|
                0 <= i < x.len() && i < y.len() && #[trigger] x[i] < y[i] && x.take(i) == y.take(
                    i,
                ) {
                let i = choose|i: int|
                    0 <= i < x.len() && i < y.len() && #[trigger] x[i] < y[i] && x.take(i)
                        == y.take(i);
                assert forall|k: int| 0 <= k < i + 1 implies a[k] == b[k] by {
                    if k > 0 {
                        assert(x.take(i)[k - 1] == y.take(i)[k - 1]);
                    }
                }
                assert(a.take(i + 1) =~= b.take(i + 1));
                assert(a[i + 1] < b[i + 1]);
            }
            if exists|i: int|
                0 <= i < a.len() && i < b.len() && #[trigger] a[i] < b[i] && a.take(i) == b.take(
                    i,
                ) {
                let i = choose|i: int|
                    0 <= i < a.len() && i < b.len() && #[trigger] a[i] < b[i] && a.take(i)
                        == b.take(i);
                assert forall|k: int| 0 <= k < i - 1 implies x[k] == y[k] by {
                    assert(a.take(i)[k + 1] == b.take(i)[k + 1]);
                }
                assert(x.take(i - 1) =~= y.take(i - 1));
                assert(x[i - 1] < y[i - 1]);
            }
        } else {
            if a.len() <= b.len() && b.take(a.len() as int) == a {
                assert(b.take(a.len() as int)[0] == a[0]);
            }
            if a[0] < b[0] {
                assert(a.take(0) =~= b.take(0));
            }
            assert forall|i: int|
                0 <= i < a.len() && i < b.len() && #[trigger] a[i] < b[i] && a.take(i) == b.take(
                    i,
                ) implies a[0] < b[0] by {
                if i > 0 {
                    assert(a.take(i)[0] == b.take(i)[0]);
                }
            }
        }
    }
}

/// Whether `a` comes before `b` in the order of byte strings, or is the same.
pub fn at_most(a: &[u8], b: &[u8]) -> (r: bool)
    ensures
        r == lex_le(a@, b@),
{
    let mut i: usize = 0;
    assert(a@.skip(0) =~= a@);
    assert(b@.skip(0) =~= b@);
    while i < a.len() && i < b.len() && a[i] == b[i]
        invariant
            i <= a@.len(),
            i <= b@.len(),
            lex_le(a@.skip(i as int), b@.skip(i as int)) == lex_le(a@, b@),
        decreases a@.len() - i,
    {
        assert(a@.skip(i as int).skip(1) =~= a@.skip(i + 1));
        assert(b@.skip(i as int).skip(1) =~= b@.skip(i + 1));
        i += 1;
    }
    if i == a.len() {
        true
    } else if i == b.len() {
        false
    } else {
        a[i] < b[i]
    }
}

/// Whether two byte strings are the same.
pub fn same_bytes(a: &[u8], b: &[u8]) -> (r: bool)
    ensures
        r == (a@ == b@),
{
    proof {
        lemma_lex_total(a@, b@);
    }
    at_most(a, b) && at_most(b, a)
}

} // verus!
