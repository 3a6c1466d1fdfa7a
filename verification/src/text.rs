//! Reading plain text: splitting, trimming and numbers.

use vstd::prelude::*;
use vstd::slice::{slice_subrange, slice_to_vec};

verus! {

/// A mathematical text.
pub type CharSeq = Seq<char>;

/// The characters that count as white space.
pub open spec fn is_blank(c: char) -> bool {
    let n = c as u32;
    ||| 0x9 <= n <= 0xd
    ||| n == 0x20
    ||| n == 0x85
    ||| n == 0xa0
    ||| n == 0x1680
    ||| 0x2000 <= n <= 0x200a
    ||| n == 0x2028
    ||| n == 0x2029
    ||| n == 0x202f
    ||| n == 0x205f
    ||| n == 0x3000
}

/// `s` without white space at its ends.
pub open spec fn trimmed(s: Seq<char>) -> Seq<char>
    decreases s.len(),
{
    if s.len() > 0 && is_blank(s[0]) {
        trimmed(s.skip(1))
    } else if s.len() > 0 && is_blank(s.last()) {
        trimmed(s.drop_last())
    } else {
        s
    }
}

/// The position of the first `c` in `s`, or its length.
pub open spec fn first_of(s: Seq<char>, c: char) -> nat
    decreases s.len(),
{
    if s.len() == 0 || s[0] == c {
        0
    } else {
        1 + first_of(s.skip(1), c)
    }
}

/// The pieces of `s` between occurrences of `c`. There is always at least one.
pub open spec fn pieces(s: Seq<char>, c: char) -> Seq<Seq<char>>
    decreases s.len(),
{
    let n = first_of(s, c);
    if n >= s.len() {
        seq![s]
    } else {
        seq![s.take(n as int)] + pieces(s.skip(n as int + 1), c)
    }
}

/// `s` starts with `p`.
pub open spec fn text_starts(s: Seq<char>, p: Seq<char>) -> bool {
    p.len() <= s.len() && s.take(p.len() as int) == p
}

/// `p` occurs in `s`.
pub open spec fn text_contains(s: Seq<char>, p: Seq<char>) -> bool {
    exists|i: int| 0 <= i <= s.len() && #[trigger] text_starts(s.skip(i), p)
}

/// Every character is a decimal digit.
pub open spec fn all_digits(s: Seq<char>) -> bool {
    forall|i: int| 0 <= i < s.len() ==> '0' <= #[trigger] s[i] <= '9'
}

/// The value of decimal digits.
pub open spec fn decimal(s: Seq<char>) -> nat
    decreases s.len(),
{
    if s.len() == 0 {
        0
    } else {
        decimal(s.drop_last()) * 10 + (s.last() as u32 - '0' as u32) as nat
    }
}

/// The digits of a number: `s` without a leading plus sign.
pub open spec fn unsigned_digits(s: Seq<char>) -> Seq<char> {
    if s.len() > 0 && s[0] == '+' {
        s.skip(1)
    } else {
        s
    }
}

/// The number up to `max` that `s` is: an optional plus sign and at least one digit.
pub open spec fn number(s: Seq<char>, max: nat) -> Option<nat> {
    let d = unsigned_digits(s);
    if d.len() > 0 && all_digits(d) && decimal(d) <= max {
        Some(decimal(d))
    } else {
        None
    }
}

/// The characters of `s`.
pub fn chars_of(s: &str) -> (r: Vec<char>)
    ensures
        r@ == s@,
{
    let mut r: Vec<char> = Vec::new();
    for c in it: s.chars()
        invariant
            it.seq() == s@,
            r@ == s@.take(it.index() as int),
    {
        r.push(c);
    }
    assert(s@.take(s@.len() as int) =~= s@);
    r
}

/// Whether `c` is white space.
fn blank(c: char) -> (r: bool)
    ensures
        r == is_blank(c),
{
    let n: u32 = c as u32;
    (0x9 <= n && n <= 0xd) || n == 0x20 || n == 0x85 || n == 0xa0 || n == 0x1680 || (0x2000 <= n
        && n <= 0x200a) || n == 0x2028 || n == 0x2029 || n == 0x202f || n == 0x205f || n == 0x3000
}

/// The characters from `start` up to, and without, `end`.
fn part(s: &[char], start: usize, end: usize) -> (r: Vec<char>)
    requires
        start <= end <= s@.len(),
    ensures
        r@ == s@.subrange(start as int, end as int),
{
    slice_to_vec(slice_subrange(s, start, end))
}

/// `s` without white space at its ends.
pub fn trim(s: &[char]) -> (r: Vec<char>)
    ensures
        r@ == trimmed(s@),
{
    let mut start: usize = 0;
    let mut end: usize = s.len();
    assert(s@.subrange(0, s@.len() as int) =~= s@);
    while start < end && blank(s[start])
        invariant
            start <= end <= s@.len(),
            trimmed(s@.subrange(start as int, end as int)) == trimmed(s@),
        decreases end - start,
    {
        let ghost rest = s@.subrange(start as int, end as int);
        assert(rest.skip(1) =~= s@.subrange(start + 1, end as int));
        start += 1;
    }
    while start < end && blank(s[end - 1])
        invariant
            start <= end <= s@.len(),
            start < end ==> !is_blank(s@[start as int]),
            trimmed(s@.subrange(start as int, end as int)) == trimmed(s@),
        decreases end - start,
    {
        let ghost rest = s@.subrange(start as int, end as int);
        assert(rest.drop_last() =~= s@.subrange(start as int, end - 1));
        assert(rest[0] == s@[start as int]);
        end -= 1;
    }
    let ghost rest = s@.subrange(start as int, end as int);
    assert(start < end ==> rest[0] == s@[start as int] && rest.last() == s@[end - 1]);
    part(s, start, end)
}

/// What [`first_of`] says of the characters before it.
proof fn lemma_first_of(s: Seq<char>, c: char, n: nat)
    requires
        n <= s.len(),
        forall|i: int| 0 <= i < n ==> #[trigger] s[i] != c,
        n == s.len() || s[n as int] == c,
    ensures
        first_of(s, c) == n,
    decreases n,
{
    if n > 0 {
        assert(s[0] != c);
        lemma_first_of(s.skip(1), c, (n - 1) as nat);
    }
}

/// The position of the first `c` in `s`, or its length.
pub fn find(s: &[char], c: char) -> (r: usize)
    ensures
        r == first_of(s@, c),
        r <= s@.len(),
{
    let mut i: usize = 0;
    while i < s.len() && s[i] != c
        invariant
            i <= s@.len(),
            forall|j: int| 0 <= j < i ==> #[trigger] s@[j] != c,
        decreases s@.len() - i,
    {
        i += 1;
    }
    proof {
        lemma_first_of(s@, c, i as nat);
    }
    i
}

/// The views of pieces of text.
pub open spec fn views(v: Seq<Vec<char>>) -> Seq<Seq<char>> {
    v.map_values(|p: Vec<char>| p@)
}

/// The pieces of `s` between occurrences of `c`.
pub fn split(s: &[char], c: char) -> (r: Vec<Vec<char>>)
    ensures
        views(r@) == pieces(s@, c),
        r@.len() == pieces(s@, c).len(),
        forall|i: int| 0 <= i < r@.len() ==> (#[trigger] r@[i])@ == pieces(s@, c)[i],
{
    let mut r: Vec<Vec<char>> = Vec::new();
    let mut start: usize = 0;
    let mut i: usize = 0;
    assert(s@.skip(0) =~= s@);
    assert(views(r@) + pieces(s@, c) =~= pieces(s@, c));
    while i < s.len()
        invariant
            start <= i <= s@.len(),
            forall|j: int| start <= j < i ==> #[trigger] s@[j] != c,
            views(r@) + pieces(s@.skip(start as int), c) == pieces(s@, c),
        decreases s@.len() - i,
    {
        if s[i] == c {
            let ghost rest = s@.skip(start as int);
            let ghost before = r@;
            let piece = part(s, start, i);
            proof {
                lemma_first_of(rest, c, (i - start) as nat);
                assert(piece@ =~= rest.take(i - start));
                assert(rest.skip(i - start + 1) =~= s@.skip(i + 1));
            }
            r.push(piece);
            proof {
                assert(views(r@) =~= views(before).push(piece@));
                assert(views(before) + (seq![piece@] + pieces(s@.skip(i + 1), c)) =~= views(r@)
                    + pieces(s@.skip(i + 1), c));
            }
            start = i + 1;
        }
        i += 1;
    }
    let ghost rest = s@.skip(start as int);
    let ghost before = r@;
    let piece = part(s, start, i);
    proof {
        lemma_first_of(rest, c, rest.len());
        assert(piece@ =~= rest);
    }
    r.push(piece);
    assert(views(r@) =~= views(before) + seq![rest]);
    assert forall|i: int| 0 <= i < r@.len() implies (#[trigger] r@[i])@ == pieces(s@, c)[i] by {
        assert(views(r@)[i] == r@[i]@);
    }
    r
}

/// Whether `s` has `p` at position `at`.
fn matches_at(s: &[char], p: &[char], at: usize) -> (r: bool)
    requires
        at <= s@.len(),
    ensures
        r == text_starts(s@.skip(at as int), p@),
{
    let n = s.len();
    if p.len() > n - at {
        return false;
    }
    let mut i: usize = 0;
    while i < p.len()
        invariant
            i <= p@.len(),
            at + p@.len() <= n,
            n == s@.len(),
            forall|j: int| 0 <= j < i ==> s@[at + j] == #[trigger] p@[j],
        decreases p@.len() - i,
    {
        if s[at + i] != p[i] {
            assert(s@.skip(at as int).take(p@.len() as int)[i as int] == s@[at + i]);
            return false;
        }
        i += 1;
    }
    assert(s@.skip(at as int).take(p@.len() as int) =~= p@);
    true
}

/// Whether `s` starts with `p`.
pub fn starts(s: &[char], p: &[char]) -> (r: bool)
    ensures
        r == text_starts(s@, p@),
{
    assert(s@.skip(0) =~= s@);
    matches_at(s, p, 0)
}

/// Whether `p` occurs in `s`.
pub fn contains(s: &[char], p: &[char]) -> (r: bool)
    ensures
        r == text_contains(s@, p@),
{
    let mut i: usize = 0;
    loop
        invariant
            i <= s@.len(),
            forall|j: int| 0 <= j < i ==> !#[trigger] text_starts(s@.skip(j), p@),
        decreases s@.len() - i,
    {
        if matches_at(s, p, i) {
            return true;
        }
        if i == s.len() {
            return false;
        }
        i += 1;
    }
}

/// Whether two texts are the same.
pub fn same_text(a: &[char], b: &[char]) -> (r: bool)
    ensures
        r == (a@ == b@),
{
    proof {
        assert(a@.take(a@.len() as int) =~= a@);
        assert(b@.take(b@.len() as int) =~= b@);
    }
    a.len() == b.len() && starts(a, b)
}

/// More digits do not make a number smaller.
proof fn lemma_decimal_grows(s: Seq<char>, n: int)
    requires
        all_digits(s),
        0 <= n <= s.len(),
    ensures
        decimal(s.take(n)) <= decimal(s),
    decreases s.len(),
{
    if n == s.len() {
        assert(s.take(n) =~= s);
    } else {
        lemma_decimal_grows(s.drop_last(), n);
        assert(s.drop_last().take(n) =~= s.take(n));
    }
}

/// The number that `s` is, where it is one that fits.
pub fn parse_u64(s: &[char]) -> (r: Option<u64>)
    ensures
        match r {
            Some(n) => number(s@, u64::MAX as nat) == Some(n as nat),
            None => number(s@, u64::MAX as nat) is None,
        },
{
    let start: usize = if s.len() > 0 && s[0] == '+' {
        1
    } else {
        0
    };
    let ghost d = unsigned_digits(s@);
    assert(d =~= s@.skip(start as int));
    if start == s.len() {
        return None;
    }
    let mut n: u64 = 0;
    let mut i: usize = start;
    assert(d.take(0) =~= Seq::empty());
    while i < s.len()
        invariant
            start <= i <= s@.len(),
            start < s@.len(),
            d == s@.skip(start as int),
            d == unsigned_digits(s@),
            all_digits(d.take(i - start)),
            n == decimal(d.take(i - start)),
        decreases s@.len() - i,
    {
        let c = s[i];
        let ghost k = i - start;
        assert(d[k] == c);
        if c < '0' || c > '9' {
            return None;
        }
        let digit: u64 = (c as u32 - '0' as u32) as u64;
        proof {
            assert(d.take(k + 1).drop_last() =~= d.take(k));
            assert(d.take(k + 1).last() == c);
            assert(decimal(d.take(k + 1)) == n * 10 + digit);
            assert(all_digits(d.take(k + 1)));
            if all_digits(d) {
                lemma_decimal_grows(d, k + 1);
            }
        }
        if n > (u64::MAX - digit) / 10 {
            return None;
        }
        n = n * 10 + digit;
        i += 1;
    }
    assert(d.take(i - start) =~= d);
    Some(n)
}

} // verus!
