//! Tables of an ordered key-value store.

use vstd::prelude::*;
use vstd::relations::total_ordering;
use vstd::slice::slice_to_vec;

use crate::bytes::{at_most, lemma_lex_total, lemma_lex_trans, lex_le, lex_lt, same_bytes};

verus! {

/// A key and its value.
pub type Row = (Seq<u8>, Seq<u8>);

/// Rows one after the other.
pub type RowList = Seq<Row>;

/// The rows of a table.
pub type Rows = Map<Seq<u8>, Seq<u8>>;

/// The direction in which a table is walked.
#[derive(Debug, Clone, Copy, PartialEq, Eq, Structural)]
pub enum Direction {
    /// Towards greater keys.
    Forward,
    /// Towards smaller keys.
    Reverse,
}

/// Where a walk starts, and in which direction it goes.
#[derive(Debug, Clone, Copy)]
pub enum IteratorMode<'a> {
    /// At the first row, forward.
    Start,
    /// At the last row, in reverse.
    End,
    /// At a key, or at the next one in the direction.
    From(&'a [u8], Direction),
}

impl<'a> IteratorMode<'a> {
    /// The direction of the walk.
    pub open spec fn direction(self) -> Direction {
        match self {
            IteratorMode::Start => Direction::Forward,
            IteratorMode::End => Direction::Reverse,
            IteratorMode::From(_, d) => d,
        }
    }

    /// The key at which the walk starts.
    pub open spec fn start(self) -> Option<Seq<u8>> {
        match self {
            IteratorMode::From(key, _) => Some(key@),
            _ => None,
        }
    }
}

/// A walk from `start` in a direction comes to `key`.
pub open spec fn reaches(d: Direction, start: Option<Seq<u8>>, key: Seq<u8>) -> bool {
    match start {
        None => true,
        Some(start) => match d {
            Direction::Forward => lex_le(start, key),
            Direction::Reverse => lex_le(key, start),
        },
    }
}

/// `a` comes before `b` in the direction.
pub open spec fn precedes(d: Direction, a: Seq<u8>, b: Seq<u8>) -> bool {
    match d {
        Direction::Forward => lex_lt(a, b),
        Direction::Reverse => lex_lt(b, a),
    }
}

/// The rows come in the order of the direction.
pub open spec fn ordered(d: Direction, list: Seq<Row>) -> bool {
    forall|i: int, j: int|
        0 <= i < j < list.len() ==> precedes(d, (#[trigger] list[i]).0, (#[trigger] list[j]).0)
}

/// The key is in the list.
pub open spec fn has_key(list: Seq<Row>, key: Seq<u8>) -> bool {
    exists|i: int| 0 <= i < list.len() && (#[trigger] list[i]).0 == key
}

/// `list` is what a walk gives: the rows that it reaches, each once and in order.
pub open spec fn walked(rows: Rows, d: Direction, start: Option<Seq<u8>>, list: Seq<Row>) -> bool {
    &&& ordered(d, list)
    &&& forall|i: int|
        0 <= i < list.len() ==> rows.contains_key((#[trigger] list[i]).0) && rows[list[i].0]
            == list[i].1 && reaches(d, start, list[i].0)
    &&& forall|k: Seq<u8>| #[trigger]
        rows.contains_key(k) && reaches(d, start, k) ==> has_key(list, k)
}

/// What a walk gives.
pub open spec fn walk_of(rows: Rows, d: Direction, start: Option<Seq<u8>>) -> Seq<Row> {
    choose|list: Seq<Row>| walked(rows, d, start, list)
}

/// The order of keys in a direction is that of a list without repetitions.
pub proof fn lemma_precedes_once(d: Direction, a: Seq<u8>, b: Seq<u8>)
    ensures
        !(precedes(d, a, b) && precedes(d, b, a)),
        a != b ==> precedes(d, a, b) || precedes(d, b, a),
{
    lemma_lex_total(a, b);
}

/// Two ordered lists of the same rows are the same list.
proof fn lemma_ordered_unique(d: Direction, a: Seq<Row>, b: Seq<Row>)
    requires
        ordered(d, a),
        ordered(d, b),
        forall|i: int| 0 <= i < a.len() ==> b.contains(#[trigger] a[i]),
        forall|i: int| 0 <= i < b.len() ==> a.contains(#[trigger] b[i]),
    ensures
        a == b,
    decreases a.len(),
{
    if a.len() == 0 {
        if b.len() > 0 {
            assert(a.contains(b[0]));
        }
        assert(a =~= b);
    } else {
        assert(b.contains(a[0]));
        assert(a.contains(b[0]));
        let i = choose|i: int| 0 <= i < b.len() && b[i] == a[0];
        let j = choose|j: int| 0 <= j < a.len() && a[j] == b[0];
        lemma_precedes_once(d, a[0].0, b[0].0);
        assert(a[0] == b[0]) by {
            if i > 0 && j > 0 {
                assert(precedes(d, b[0].0, b[i].0));
                assert(precedes(d, a[0].0, a[j].0));
            }
        }
        let x = a.skip(1);
        let y = b.skip(1);
        assert forall|k: int| 0 <= k < x.len() implies y.contains(#[trigger] x[k]) by {
            assert(x[k] == a[k + 1]);
            assert(b.contains(a[k + 1]));
            let m = choose|m: int| 0 <= m < b.len() && b[m] == a[k + 1];
            if m == 0 {
                assert(precedes(d, a[0].0, a[k + 1].0));
            }
            assert(y[m - 1] == x[k]);
        }
        assert forall|k: int| 0 <= k < y.len() implies x.contains(#[trigger] y[k]) by {
            assert(y[k] == b[k + 1]);
            assert(a.contains(b[k + 1]));
            let m = choose|m: int| 0 <= m < a.len() && a[m] == b[k + 1];
            if m == 0 {
                assert(precedes(d, b[0].0, b[k + 1].0));
            }
            assert(x[m - 1] == y[k]);
        }
        assert forall|p: int, q: int| 0 <= p < q < x.len() implies precedes(
            d,
            (#[trigger] x[p]).0,
            (#[trigger] x[q]).0,
        ) by {
            assert(x[p] == a[p + 1] && x[q] == a[q + 1]);
        }
        assert forall|p: int, q: int| 0 <= p < q < y.len() implies precedes(
            d,
            (#[trigger] y[p]).0,
            (#[trigger] y[q]).0,
        ) by {
            assert(y[p] == b[p + 1] && y[q] == b[q + 1]);
        }
        lemma_ordered_unique(d, x, y);
        assert(a =~= seq![a[0]] + x);
        assert(b =~= seq![b[0]] + y);
    }
}

/// There is one list that a walk gives.
pub proof fn lemma_walk_unique(
    rows: Rows,
    d: Direction,
    start: Option<Seq<u8>>,
    list: Seq<Row>,
)
    requires
        walked(rows, d, start, list),
    ensures
        list == walk_of(rows, d, start),
        walked(rows, d, start, walk_of(rows, d, start)),
{
    let other = walk_of(rows, d, start);
    lemma_walked_within(rows, d, start, list, other);
    lemma_walked_within(rows, d, start, other, list);
    lemma_ordered_unique(d, list, other);
}

/// What one walk gives, the same walk gives again.
proof fn lemma_walked_within(
    rows: Rows,
    d: Direction,
    start: Option<Seq<u8>>,
    a: Seq<Row>,
    b: Seq<Row>,
)
    requires
        walked(rows, d, start, a),
        walked(rows, d, start, b),
    ensures
        forall|i: int| 0 <= i < a.len() ==> b.contains(#[trigger] a[i]),
{
    assert forall|i: int| 0 <= i < a.len() implies b.contains(#[trigger] a[i]) by {
        assert(rows.contains_key(a[i].0) && reaches(d, start, a[i].0));
        assert(has_key(b, a[i].0));
        let j = choose|j: int| 0 <= j < b.len() && (#[trigger] b[j]).0 == a[i].0;
        assert(b[j] == a[i]);
    }
}

/// The order of keys in a direction, with a key at or before itself.
spec fn not_after(d: Direction) -> spec_fn(Seq<u8>, Seq<u8>) -> bool {
    |a: Seq<u8>, b: Seq<u8>| a == b || precedes(d, a, b)
}

/// The order of keys in a direction is total.
proof fn lemma_not_after(d: Direction)
    ensures
        total_ordering(not_after(d)),
{
    let r = not_after(d);
    assert forall|a: Seq<u8>, b: Seq<u8>| #[trigger] r(a, b) && #[trigger] r(b, a) implies a
        == b by {
        lemma_lex_total(a, b);
    }
    assert forall|a: Seq<u8>, b: Seq<u8>, c: Seq<u8>| #[trigger]
        r(a, b) && #[trigger] r(b, c) implies r(a, c) by {
        if a != b && b != c {
            match d {
                Direction::Forward => lemma_lex_trans(a, b, c),
                Direction::Reverse => lemma_lex_trans(c, b, a),
            }
        }
    }
    assert forall|a: Seq<u8>, b: Seq<u8>| #[trigger] r(a, b) || #[trigger] r(b, a) by {
        lemma_lex_total(a, b);
    }
}

/// Finitely many rows can be listed in order.
proof fn lemma_rows_listed(rows: Rows, d: Direction, keys: Set<Seq<u8>>) -> (list: Seq<Row>)
    requires
        keys.finite(),
    ensures
        ordered(d, list),
        forall|i: int|
            0 <= i < list.len() ==> keys.contains((#[trigger] list[i]).0) && list[i].1
                == rows[list[i].0],
        forall|k: Seq<u8>| #[trigger] keys.contains(k) ==> has_key(list, k),
    decreases keys.len(),
{
    if keys.len() == 0 {
        Seq::empty()
    } else {
        let r = not_after(d);
        lemma_not_after(d);
        keys.find_unique_minimal_ensures(r);
        let least = keys.find_unique_minimal(r);
        let rest = lemma_rows_listed(rows, d, keys.remove(least));
        let list = seq![(least, rows[least])] + rest;
        assert forall|i: int, j: int| 0 <= i < j < list.len() implies precedes(
            d,
            (#[trigger] list[i]).0,
            (#[trigger] list[j]).0,
        ) by {
            assert(list[j] == rest[j - 1]);
            let k = rest[j - 1].0;
            assert(keys.remove(least).contains(k));
            if i == 0 {
                assert(r(least, k) || r(k, least));
            } else {
                assert(list[i] == rest[i - 1]);
            }
        }
        assert forall|i: int| 0 <= i < list.len() implies keys.contains((#[trigger] list[i]).0)
            && list[i].1 == rows[list[i].0] by {
            if i > 0 {
                assert(list[i] == rest[i - 1]);
                assert(keys.remove(least).contains(rest[i - 1].0));
            }
        }
        assert forall|k: Seq<u8>| #[trigger] keys.contains(k) implies has_key(list, k) by {
            if k == least {
                assert(list[0].0 == k);
            } else {
                assert(keys.remove(least).contains(k));
                assert(has_key(rest, k));
                let j = choose|j: int| 0 <= j < rest.len() && (#[trigger] rest[j]).0 == k;
                assert(list[j + 1].0 == k);
            }
        }
        list
    }
}

/// A table with finitely many rows can be walked.
pub proof fn lemma_walk_exists(rows: Rows, d: Direction, start: Option<Seq<u8>>)
    requires
        rows.dom().finite(),
    ensures
        walked(rows, d, start, walk_of(rows, d, start)),
{
    let keys = rows.dom().filter(|k: Seq<u8>| reaches(d, start, k));
    let list = lemma_rows_listed(rows, d, keys);
    assert forall|i: int| 0 <= i < list.len() implies rows.contains_key((#[trigger] list[i]).0)
        && rows[list[i].0] == list[i].1 && reaches(d, start, list[i].0) by {
        assert(keys.contains(list[i].0));
    }
    assert forall|k: Seq<u8>| #[trigger]
        rows.contains_key(k) && reaches(d, start, k) implies has_key(list, k) by {
        assert(keys.contains(k));
    }
    lemma_walk_unique(rows, d, start, list);
}

/// Why a table could not be used.
#[derive(Debug, PartialEq, Eq)]
pub enum EngineError {
    /// The table does not exist.
    TableMissing,
    /// The engine failed, with this message.
    Failed(String),
}

/// A table that can be read, walked and written.
pub trait Engine {
    /// A walk that has begun. It does not see later writes.
    type Iter;

    /// The rows of the table.
    spec fn rows(&self) -> Rows;

    /// The table does not exist.
    spec fn absent(&self) -> bool;

    /// Nothing fails.
    spec fn reliable(&self) -> bool;

    /// The rows that a walk has yet to give.
    spec fn left(it: &Self::Iter) -> RowList;

    /// The walk does not fail.
    spec fn steady(it: &Self::Iter) -> bool;

    /// Begins a walk.
    fn iterator(&self, mode: IteratorMode) -> (r: Result<Self::Iter, EngineError>)
        ensures
            r matches Ok(it) ==> walked(
                self.rows(),
                mode.direction(),
                mode.start(),
                Self::left(&it),
            ),
            self.reliable() ==> r is Ok && Self::steady(&r->Ok_0),
            self.absent() <==> r matches Err(EngineError::TableMissing),
    ;

    /// The next row of a walk. Nothing comes where the walk is over or fails.
    fn advance(it: &mut Self::Iter) -> (r: Option<(Vec<u8>, Vec<u8>)>)
        ensures
            r matches Some(row) ==> Self::left(old(it)).len() > 0 && Self::left(old(it))[0] == (
                row.0@,
                row.1@,
            ) && Self::left(final(it)) == Self::left(old(it)).skip(1),
            r is None ==> Self::left(final(it)).len() == 0,
            r is None && Self::steady(old(it)) ==> Self::left(old(it)).len() == 0,
            Self::steady(final(it)) == Self::steady(old(it)),
    ;

    /// The value of a key.
    fn get(&self, key: &[u8]) -> (r: Result<Option<Vec<u8>>, EngineError>)
        ensures
            r matches Ok(Some(v)) ==> self.rows().contains_key(key@) && v@ == self.rows()[key@],
            r matches Ok(None) ==> !self.rows().contains_key(key@),
            self.reliable() ==> r is Ok,
            self.absent() <==> r matches Err(EngineError::TableMissing),
    ;

    /// Sets the value of a key.
    fn put(&mut self, key: &[u8], value: &[u8]) -> (r: Result<(), EngineError>)
        ensures
            r is Ok ==> final(self).rows() == old(self).rows().insert(key@, value@),
            r is Err ==> final(self).rows() == old(self).rows(),
            old(self).reliable() ==> r is Ok,
            old(self).absent() <==> r matches Err(EngineError::TableMissing),
            final(self).reliable() == old(self).reliable(),
            final(self).absent() == old(self).absent(),
    ;

    /// Takes a key out.
    fn delete(&mut self, key: &[u8]) -> (r: Result<(), EngineError>)
        ensures
            r is Ok ==> final(self).rows() == old(self).rows().remove(key@),
            r is Err ==> final(self).rows() == old(self).rows(),
            old(self).reliable() ==> r is Ok,
            old(self).absent() <==> r matches Err(EngineError::TableMissing),
            final(self).reliable() == old(self).reliable(),
            final(self).absent() == old(self).absent(),
    ;
}

/// The views of rows.
pub open spec fn row_views(list: Seq<(Vec<u8>, Vec<u8>)>) -> Seq<Row> {
    list.map_values(|r: (Vec<u8>, Vec<u8>)| (r.0@, r.1@))
}

/// The rows of a list.
pub open spec fn listed_rows(list: Seq<Row>) -> Rows {
    Map::new(
        |k: Seq<u8>| has_key(list, k),
        |k: Seq<u8>| list[choose|i: int| 0 <= i < list.len() && (#[trigger] list[i]).0 == k].1,
    )
}

/// A row of an ordered list is found under its key.
pub proof fn lemma_listed_row(list: Seq<Row>, i: int)
    requires
        ordered(Direction::Forward, list),
        0 <= i < list.len(),
    ensures
        listed_rows(list).contains_key(list[i].0),
        listed_rows(list)[list[i].0] == list[i].1,
{
    let k = list[i].0;
    let j = choose|j: int| 0 <= j < list.len() && (#[trigger] list[j]).0 == k;
    assert(has_key(list, k));
    if i < j {
        assert(precedes(Direction::Forward, list[i].0, list[j].0));
    } else if j < i {
        assert(precedes(Direction::Forward, list[j].0, list[i].0));
    }
}

/// A table in memory.
#[derive(Debug, PartialEq, Eq)]
pub struct MemoryTable {
    list: Vec<(Vec<u8>, Vec<u8>)>,
}

/// A walk over a table in memory.
#[derive(Debug, PartialEq, Eq)]
pub struct MemoryIter {
    list: Vec<(Vec<u8>, Vec<u8>)>,
    next: usize,
}

impl MemoryIter {
    #[verifier::type_invariant]
    spec fn in_bounds(self) -> bool {
        self.next <= self.list@.len()
    }
}

impl MemoryTable {
    #[verifier::type_invariant]
    spec fn in_order(self) -> bool {
        ordered(Direction::Forward, row_views(self.list@))
    }

    /// A table without rows.
    pub fn new() -> (r: MemoryTable)
        ensures
            r.rows() == Map::<Seq<u8>, Seq<u8>>::empty(),
    {
        let list: Vec<(Vec<u8>, Vec<u8>)> = Vec::new();
        let r = MemoryTable { list };
        assert(r.rows() =~= Map::<Seq<u8>, Seq<u8>>::empty());
        r
    }

    /// The position of the first row at or after `key`.
    fn position(&self, key: &[u8]) -> (r: usize)
        ensures
            r <= self.list@.len(),
            forall|i: int| 0 <= i < r ==> lex_lt((#[trigger] self.list@[i]).0@, key@),
            r < self.list@.len() ==> lex_le(key@, self.list@[r as int].0@),
    {
        let mut i: usize = 0;
        while i < self.list.len()
            invariant
                i <= self.list@.len(),
                forall|j: int| 0 <= j < i ==> lex_lt((#[trigger] self.list@[j]).0@, key@),
            decreases self.list@.len() - i,
        {
            if at_most(key, self.list[i].0.as_slice()) {
                return i;
            }
            proof {
                lemma_lex_total(key@, self.list@[i as int].0@);
            }
            i += 1;
        }
        i
    }

    /// The rows from a place on.
    fn rows_from(&self, start: usize) -> (r: Vec<(Vec<u8>, Vec<u8>)>)
        requires
            start <= self.list@.len(),
        ensures
            row_views(r@) == row_views(self.list@).skip(start as int),
    {
        let mut list: Vec<(Vec<u8>, Vec<u8>)> = Vec::new();
        let mut i: usize = start;
        while i < self.list.len()
            invariant
                start <= i <= self.list@.len(),
                list@.len() == i - start,
                forall|j: int|
                    0 <= j < list@.len() ==> (#[trigger] list@[j]).0@ == self.list@[start + j].0@
                        && list@[j].1@ == self.list@[start + j].1@,
            decreases self.list@.len() - i,
        {
            list.push(copied_row(&self.list[i]));
            i += 1;
        }
        assert(row_views(list@) =~= row_views(self.list@).skip(start as int));
        list
    }

    /// The rows up to a place, the last one first.
    fn rows_back(&self, end: usize) -> (r: Vec<(Vec<u8>, Vec<u8>)>)
        requires
            end <= self.list@.len(),
        ensures
            row_views(r@) == row_views(self.list@).take(end as int).reverse(),
    {
        let mut list: Vec<(Vec<u8>, Vec<u8>)> = Vec::new();
        let mut i: usize = end;
        while i > 0
            invariant
                i <= end <= self.list@.len(),
                list@.len() == end - i,
                forall|j: int|
                    0 <= j < list@.len() ==> (#[trigger] list@[j]).0@ == self.list@[end - 1 - j].0@
                        && list@[j].1@ == self.list@[end - 1 - j].1@,
            decreases i,
        {
            i -= 1;
            list.push(copied_row(&self.list[i]));
        }
        assert(row_views(list@) =~= row_views(self.list@).take(end as int).reverse());
        list
    }

    /// Takes out the rows from `from` on and before `to`.
    pub fn delete_range(&mut self, from: &[u8], to: &[u8])
        ensures
            final(self).rows() == old(self).rows().remove_keys(key_range(from@, to@)),
    {
        proof {
            use_type_invariant(&*self);
        }
        let p = self.position(from);
        let mut list: Vec<(Vec<u8>, Vec<u8>)> = Vec::new();
        std::mem::swap(&mut list, &mut self.list);
        let ghost rows = listed_rows(row_views(list@));
        let ghost mut cut: Set<Seq<u8>> = Set::empty();
        assert(rows =~= rows.remove_keys(cut));
        while p < list.len() && !at_most(to, list[p].0.as_slice())
            invariant
                p <= list@.len(),
                ordered(Direction::Forward, row_views(list@)),
                forall|i: int| 0 <= i < p ==> lex_lt((#[trigger] list@[i]).0@, from@),
                p < list@.len() ==> lex_le(from@, list@[p as int].0@),
                listed_rows(row_views(list@)) == rows.remove_keys(cut),
                cut.subset_of(key_range(from@, to@)),
            decreases list@.len(),
        {
            let ghost before = row_views(list@);
            let ghost key = before[p as int].0;
            proof {
                lemma_row_cut(before, p as int);
                lemma_lex_total(to@, key);
                if p + 1 < before.len() {
                    assert(precedes(Direction::Forward, key, before[p + 1].0));
                    lemma_lex_trans(from@, key, before[p + 1].0);
                }
            }
            list.remove(p);
            proof {
                assert(row_views(list@) =~= before.remove(p as int));
                assert(rows.remove_keys(cut).remove(key) =~= rows.remove_keys(cut.insert(key)));
                cut = cut.insert(key);
            }
        }
        proof {
            let left = row_views(list@);
            assert forall|k: Seq<u8>| #[trigger]
                listed_rows(left).contains_key(k) implies !key_range(from@, to@).contains(k) by {
                assert(has_key(left, k));
                let j = choose|j: int| 0 <= j < left.len() && (#[trigger] left[j]).0 == k;
                if j < p {
                    assert(lex_lt(list@[j].0@, from@));
                    lemma_lex_total(k, from@);
                } else {
                    if j > p {
                        assert(precedes(Direction::Forward, left[p as int].0, left[j].0));
                        lemma_lex_trans(to@, left[p as int].0, k);
                    }
                    lemma_lex_total(k, to@);
                }
            }
            assert(listed_rows(left) =~= rows.remove_keys(key_range(from@, to@)));
        }
        self.list = list;
    }
}

/// The keys from `from` on and before `to`.
pub open spec fn key_range(from: Seq<u8>, to: Seq<u8>) -> Set<Seq<u8>> {
    Set::new(|k: Seq<u8>| lex_le(from, k) && lex_lt(k, to))
}

/// Before the place of a key no key is at or after it.
proof fn lemma_smaller(list: Seq<Row>, p: int, key: Seq<u8>)
    requires
        0 <= p <= list.len(),
        forall|i: int| 0 <= i < p ==> lex_lt((#[trigger] list[i]).0, key),
    ensures
        forall|i: int| 0 <= i < p ==> !lex_le(key, (#[trigger] list[i]).0),
{
    assert forall|i: int| 0 <= i < p implies !lex_le(key, (#[trigger] list[i]).0) by {
        lemma_lex_total(key, list[i].0);
    }
}

/// Up to its place, and with the row that has it, the keys are at or before a key.
proof fn lemma_up_to(list: Seq<Row>, p: int, end: int, key: Seq<u8>)
    requires
        ordered(Direction::Forward, list),
        0 <= p <= end <= list.len(),
        forall|i: int| 0 <= i < p ==> lex_lt((#[trigger] list[i]).0, key),
        p < list.len() ==> lex_le(key, list[p].0),
        end == if p < list.len() && list[p].0 == key {
            p + 1
        } else {
            p
        },
    ensures
        forall|i: int| 0 <= i < end ==> lex_le((#[trigger] list[i]).0, key),
        forall|i: int| end <= i < list.len() ==> !lex_le((#[trigger] list[i]).0, key),
{
    assert forall|i: int| 0 <= i < end implies lex_le((#[trigger] list[i]).0, key) by {
        lemma_lex_total(list[i].0, key);
    }
    assert forall|i: int| end <= i < list.len() implies !lex_le((#[trigger] list[i]).0, key) by {
        if i > p {
            assert(precedes(Direction::Forward, list[p].0, list[i].0));
            lemma_lex_trans(key, list[p].0, list[i].0);
            lemma_lex_total(list[p].0, list[i].0);
        }
        lemma_lex_total(list[i].0, key);
        lemma_lex_total(list[p].0, key);
    }
}

/// A copy of a row.
fn copied_row(row: &(Vec<u8>, Vec<u8>)) -> (r: (Vec<u8>, Vec<u8>))
    ensures
        r.0@ == row.0@,
        r.1@ == row.1@,
{
    (slice_to_vec(row.0.as_slice()), slice_to_vec(row.1.as_slice()))
}

/// A row in its place: the rows before it have smaller keys, and those after it greater ones.
proof fn lemma_row_placed(list: Seq<Row>, p: int, row: Row)
    requires
        ordered(Direction::Forward, list),
        0 <= p <= list.len(),
        forall|i: int| 0 <= i < p ==> lex_lt((#[trigger] list[i]).0, row.0),
        forall|i: int| p <= i < list.len() ==> lex_lt(row.0, (#[trigger] list[i]).0),
    ensures
        ordered(Direction::Forward, list.insert(p, row)),
        listed_rows(list.insert(p, row)) == listed_rows(list).insert(row.0, row.1),
{
    let after = list.insert(p, row);
    assert forall|i: int, j: int| 0 <= i < j < after.len() implies precedes(
        Direction::Forward,
        (#[trigger] after[i]).0,
        (#[trigger] after[j]).0,
    ) by {
        if i < p && j < p {
            assert(after[i] == list[i] && after[j] == list[j]);
        } else if i < p && j == p {
            assert(after[i] == list[i]);
        } else if i < p {
            assert(after[i] == list[i] && after[j] == list[j - 1]);
        } else if i == p {
            assert(after[j] == list[j - 1]);
        } else {
            assert(after[i] == list[i - 1] && after[j] == list[j - 1]);
        }
    }
    let a = listed_rows(after);
    let b = listed_rows(list).insert(row.0, row.1);
    assert forall|k: Seq<u8>| #[trigger]
        a.contains_key(k) == b.contains_key(k) && (a.contains_key(k) ==> a[k] == b[k]) by {
        if has_key(after, k) {
            let j = choose|j: int| 0 <= j < after.len() && (#[trigger] after[j]).0 == k;
            lemma_listed_row(after, j);
            if j < p {
                assert(after[j] == list[j]);
                lemma_listed_row(list, j);
            } else if j > p {
                assert(after[j] == list[j - 1]);
                lemma_listed_row(list, j - 1);
            }
        }
        if has_key(list, k) {
            let j = choose|j: int| 0 <= j < list.len() && (#[trigger] list[j]).0 == k;
            if j < p {
                assert(after[j].0 == k);
            } else {
                assert(after[j + 1].0 == k);
            }
        }
        assert(after[p].0 == row.0);
    }
    assert(a =~= b);
}

/// A row that is taken out.
proof fn lemma_row_cut(list: Seq<Row>, p: int)
    requires
        ordered(Direction::Forward, list),
        0 <= p < list.len(),
    ensures
        ordered(Direction::Forward, list.remove(p)),
        listed_rows(list.remove(p)) == listed_rows(list).remove(list[p].0),
        forall|i: int| 0 <= i < p ==> lex_lt((#[trigger] list.remove(p)[i]).0, list[p].0),
        forall|i: int|
            p <= i < list.len() - 1 ==> lex_lt(list[p].0, (#[trigger] list.remove(p)[i]).0),
{
    let after = list.remove(p);
    assert forall|i: int, j: int| 0 <= i < j < after.len() implies precedes(
        Direction::Forward,
        (#[trigger] after[i]).0,
        (#[trigger] after[j]).0,
    ) by {
        let x = if i < p {
            i
        } else {
            i + 1
        };
        let y = if j < p {
            j
        } else {
            j + 1
        };
        assert(after[i] == list[x] && after[j] == list[y]);
    }
    assert forall|i: int| 0 <= i < p implies lex_lt((#[trigger] after[i]).0, list[p].0) by {
        assert(precedes(Direction::Forward, list[i].0, list[p].0));
    }
    assert forall|i: int| p <= i < list.len() - 1 implies lex_lt(
        list[p].0,
        (#[trigger] after[i]).0,
    ) by {
        assert(precedes(Direction::Forward, list[p].0, list[i + 1].0));
    }
    let a = listed_rows(after);
    let b = listed_rows(list).remove(list[p].0);
    assert forall|k: Seq<u8>| #[trigger]
        a.contains_key(k) == b.contains_key(k) && (a.contains_key(k) ==> a[k] == b[k]) by {
        if has_key(after, k) {
            let j = choose|j: int| 0 <= j < after.len() && (#[trigger] after[j]).0 == k;
            lemma_listed_row(after, j);
            let x = if j < p {
                j
            } else {
                j + 1
            };
            assert(after[j] == list[x]);
            lemma_listed_row(list, x);
        }
        if has_key(list, k) && k != list[p].0 {
            let j = choose|j: int| 0 <= j < list.len() && (#[trigger] list[j]).0 == k;
            let x = if j < p {
                j
            } else {
                j - 1
            };
            assert(after[x].0 == k);
        }
    }
    assert(a =~= b);
}

impl Engine for MemoryTable {
    type Iter = MemoryIter;

    closed spec fn rows(&self) -> Rows {
        listed_rows(row_views(self.list@))
    }

    open spec fn absent(&self) -> bool {
        false
    }

    open spec fn reliable(&self) -> bool {
        true
    }

    closed spec fn left(it: &MemoryIter) -> Seq<Row> {
        row_views(it.list@).skip(it.next as int)
    }

    open spec fn steady(it: &MemoryIter) -> bool {
        true
    }

    fn iterator(&self, mode: IteratorMode) -> (r: Result<MemoryIter, EngineError>) {
        proof {
            use_type_invariant(self);
        }
        let ghost all = row_views(self.list@);
        let list = match mode {
            IteratorMode::Start => {
                proof {
                    lemma_walked_forward(all, None, 0);
                }
                self.rows_from(0)
            },
            IteratorMode::End => {
                proof {
                    lemma_walked_reverse(all, None, all.len() as int);
                }
                self.rows_back(self.list.len())
            },
            IteratorMode::From(key, Direction::Forward) => {
                let start = self.position(key);
                proof {
                    lemma_smaller(all, start as int, key@);
                    lemma_walked_forward(all, Some(key@), start as int);
                }
                self.rows_from(start)
            },
            IteratorMode::From(key, Direction::Reverse) => {
                let p = self.position(key);
                let end = if p < self.list.len() && same_bytes(self.list[p].0.as_slice(), key) {
                    p + 1
                } else {
                    p
                };
                proof {
                    lemma_up_to(all, p as int, end as int, key@);
                    lemma_walked_reverse(all, Some(key@), end as int);
                }
                self.rows_back(end)
            },
        };
        assert(row_views(list@).skip(0) =~= row_views(list@));
        Ok(MemoryIter { list, next: 0 })
    }

    fn advance(it: &mut MemoryIter) -> (r: Option<(Vec<u8>, Vec<u8>)>) {
        proof {
            use_type_invariant(&*it);
        }
        let ghost left = Self::left(it);
        if it.next < it.list.len() {
            let row = copied_row(&it.list[it.next]);
            it.next = it.next + 1;
            assert(Self::left(it) =~= left.skip(1));
            Some(row)
        } else {
            None
        }
    }

    fn get(&self, key: &[u8]) -> (r: Result<Option<Vec<u8>>, EngineError>) {
        proof {
            use_type_invariant(self);
        }
        let ghost all = row_views(self.list@);
        let p = self.position(key);
        if p < self.list.len() && same_bytes(self.list[p].0.as_slice(), key) {
            proof {
                lemma_listed_row(all, p as int);
            }
            Ok(Some(slice_to_vec(self.list[p].1.as_slice())))
        } else {
            proof {
                lemma_absent(all, p as int, key@);
            }
            Ok(None)
        }
    }

    fn put(&mut self, key: &[u8], value: &[u8]) -> (r: Result<(), EngineError>) {
        proof {
            use_type_invariant(&*self);
        }
        let p = self.position(key);
        let mut list: Vec<(Vec<u8>, Vec<u8>)> = Vec::new();
        std::mem::swap(&mut list, &mut self.list);
        let ghost start = row_views(list@);
        let ghost rows = listed_rows(start);
        if p < list.len() && same_bytes(list[p].0.as_slice(), key) {
            list.remove(p);
            proof {
                lemma_row_cut(start, p as int);
                assert(row_views(list@) =~= start.remove(p as int));
            }
        } else {
            proof {
                lemma_greater(start, p as int, key@);
            }
        }
        let ghost mid = row_views(list@);
        list.insert(p, (slice_to_vec(key), slice_to_vec(value)));
        proof {
            lemma_row_placed(mid, p as int, (key@, value@));
            assert(row_views(list@) =~= mid.insert(p as int, (key@, value@)));
            assert(listed_rows(row_views(list@)) =~= rows.insert(key@, value@));
        }
        self.list = list;
        Ok(())
    }

    fn delete(&mut self, key: &[u8]) -> (r: Result<(), EngineError>) {
        proof {
            use_type_invariant(&*self);
        }
        let p = self.position(key);
        if p < self.list.len() && same_bytes(self.list[p].0.as_slice(), key) {
            let mut list: Vec<(Vec<u8>, Vec<u8>)> = Vec::new();
            std::mem::swap(&mut list, &mut self.list);
            let ghost start = row_views(list@);
            list.remove(p);
            proof {
                lemma_row_cut(start, p as int);
                assert(row_views(list@) =~= start.remove(p as int));
            }
            self.list = list;
        } else {
            proof {
                lemma_absent(row_views(self.list@), p as int, key@);
                assert(self.rows().remove(key@) =~= self.rows());
            }
        }
        Ok(())
    }
}

/// The rows from the place of a key on have greater keys, unless the first has that key.
proof fn lemma_greater(list: Seq<Row>, p: int, key: Seq<u8>)
    requires
        ordered(Direction::Forward, list),
        0 <= p <= list.len(),
        p < list.len() ==> lex_lt(key, list[p].0),
    ensures
        forall|i: int| p <= i < list.len() ==> lex_lt(key, (#[trigger] list[i]).0),
{
    assert forall|i: int| p <= i < list.len() implies lex_lt(key, (#[trigger] list[i]).0) by {
        if i > p {
            assert(precedes(Direction::Forward, list[p].0, list[i].0));
            lemma_lex_trans(key, list[p].0, list[i].0);
            lemma_lex_total(key, list[p].0);
        }
    }
}

/// A key that is not at its place is not in the list.
proof fn lemma_absent(list: Seq<Row>, p: int, key: Seq<u8>)
    requires
        ordered(Direction::Forward, list),
        0 <= p <= list.len(),
        forall|i: int| 0 <= i < p ==> lex_lt((#[trigger] list[i]).0, key),
        p < list.len() ==> lex_le(key, list[p].0) && list[p].0 != key,
    ensures
        !listed_rows(list).contains_key(key),
{
    lemma_greater(list, p, key);
    if has_key(list, key) {
        let j = choose|j: int| 0 <= j < list.len() && (#[trigger] list[j]).0 == key;
        if j < p {
            assert(lex_lt(list[j].0, key));
        } else {
            assert(lex_lt(key, list[j].0));
        }
    }
}

/// The rows from a place on are what a forward walk from there gives.
proof fn lemma_walked_forward(all: Seq<Row>, from: Option<Seq<u8>>, start: int)
    requires
        ordered(Direction::Forward, all),
        0 <= start <= all.len(),
        forall|i: int| 0 <= i < start ==> !reaches(Direction::Forward, from, (#[trigger] all[i]).0),
        start < all.len() ==> reaches(Direction::Forward, from, all[start].0),
    ensures
        walked(listed_rows(all), Direction::Forward, from, all.skip(start)),
{
    let list = all.skip(start);
    let rows = listed_rows(all);
    assert forall|i: int, j: int| 0 <= i < j < list.len() implies precedes(
        Direction::Forward,
        (#[trigger] list[i]).0,
        (#[trigger] list[j]).0,
    ) by {
        assert(list[i] == all[start + i] && list[j] == all[start + j]);
    }
    assert forall|i: int| 0 <= i < list.len() implies rows.contains_key((#[trigger] list[i]).0)
        && rows[list[i].0] == list[i].1 && reaches(Direction::Forward, from, list[i].0) by {
        assert(list[i] == all[start + i]);
        lemma_listed_row(all, start + i);
        if i > 0 {
            assert(precedes(Direction::Forward, all[start].0, all[start + i].0));
            if let Some(key) = from {
                lemma_lex_trans(key, all[start].0, all[start + i].0);
            }
        }
    }
    assert forall|k: Seq<u8>| #[trigger]
        rows.contains_key(k) && reaches(Direction::Forward, from, k) implies has_key(list, k) by {
        let j = choose|j: int| 0 <= j < all.len() && (#[trigger] all[j]).0 == k;
        assert(has_key(all, k));
        assert(j >= start);
        assert(list[j - start].0 == k);
    }
}

/// The rows up to a place, backwards, are what a reverse walk from there gives.
proof fn lemma_walked_reverse(all: Seq<Row>, from: Option<Seq<u8>>, end: int)
    requires
        ordered(Direction::Forward, all),
        0 <= end <= all.len(),
        forall|i: int| 0 <= i < end ==> reaches(Direction::Reverse, from, (#[trigger] all[i]).0),
        forall|i: int|
            end <= i < all.len() ==> !reaches(Direction::Reverse, from, (#[trigger] all[i]).0),
    ensures
        walked(listed_rows(all), Direction::Reverse, from, all.take(end).reverse()),
{
    let list = all.take(end).reverse();
    let rows = listed_rows(all);
    assert forall|i: int, j: int| 0 <= i < j < list.len() implies precedes(
        Direction::Reverse,
        (#[trigger] list[i]).0,
        (#[trigger] list[j]).0,
    ) by {
        assert(list[i] == all[end - 1 - i] && list[j] == all[end - 1 - j]);
        assert(precedes(Direction::Forward, all[end - 1 - j].0, all[end - 1 - i].0));
    }
    assert forall|i: int| 0 <= i < list.len() implies rows.contains_key((#[trigger] list[i]).0)
        && rows[list[i].0] == list[i].1 && reaches(Direction::Reverse, from, list[i].0) by {
        assert(list[i] == all[end - 1 - i]);
        lemma_listed_row(all, end - 1 - i);
    }
    assert forall|k: Seq<u8>| #[trigger]
        rows.contains_key(k) && reaches(Direction::Reverse, from, k) implies has_key(list, k) by {
        let j = choose|j: int| 0 <= j < all.len() && (#[trigger] all[j]).0 == k;
        assert(has_key(all, k));
        assert(j < end);
        assert(list[end - 1 - j].0 == k);
    }
}

} // verus!
