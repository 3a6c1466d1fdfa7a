//! What holds of walks with a cursor.

use vstd::prelude::*;

use crate::bytes::{lemma_lex_total, lemma_lex_trans, lex_le, lex_lt};
use crate::cursor::{answered, as_answer, only_of, passed, value_of, CursorState, KeyBound};
use crate::dupsort::{main_key, well_keyed};
use crate::engine::{
    has_key, lemma_walk_exists, precedes, reaches, walk_of, walked, Direction, IteratorMode,
    Row, Rows,
};
use crate::errors::DatabaseError;

verus! {

/// `row` is the first row in a direction among those whose keys are in `keys`, where there is
/// one.
pub open spec fn first_of(d: Direction, rows: Rows, keys: Set<Seq<u8>>, row: Option<Row>) -> bool {
    match row {
        Some((key, value)) => {
            &&& rows.contains_key(key) && rows[key] == value
            &&& keys.contains(key)
            &&& forall|k: Seq<u8>| #[trigger]
                rows.contains_key(k) && keys.contains(k) ==> k == key || precedes(d, key, k)
        },
        None => forall|k: Seq<u8>| #[trigger] rows.contains_key(k) ==> !keys.contains(k),
    }
}

/// The keys at or after `key`.
pub open spec fn from_key(key: Seq<u8>) -> Set<Seq<u8>> {
    Set::new(|k: Seq<u8>| lex_le(key, k))
}

/// The keys after `key`.
pub open spec fn after_key(key: Seq<u8>) -> Set<Seq<u8>> {
    Set::new(|k: Seq<u8>| lex_lt(key, k))
}

/// The keys before `key`.
pub open spec fn before_key(key: Seq<u8>) -> Set<Seq<u8>> {
    Set::new(|k: Seq<u8>| lex_lt(k, key))
}

/// The stored keys at or after that of an entry that are none of the entry's key.
pub open spec fn other_keys(stored: Seq<u8>) -> Set<Seq<u8>> {
    Set::new(
        |k: Seq<u8>|
            lex_le(stored, k) && !(well_keyed(k) && main_key(k) == main_key(stored)),
    )
}

/// The cursor is at the row with number `i` of a walk forward from `start`, and the walk goes on
/// behind it.
pub open spec fn walking_at(state: CursorState, start: Option<Seq<u8>>, i: int) -> bool {
    let list = walk_of(state.rows, Direction::Forward, start);
    &&& 0 <= i < list.len()
    &&& state.walking(Direction::Forward)
    &&& state.left == Some(list.skip(i + 1))
    &&& state.current == Some(list[i].0)
}

/// The row at a place of a walk is the first one among those from there on.
proof fn lemma_walk_row(
    rows: Rows,
    d: Direction,
    start: Option<Seq<u8>>,
    keys: Set<Seq<u8>>,
    n: int,
)
    requires
        walked(rows, d, start, walk_of(rows, d, start)),
        0 <= n,
        forall|i: int|
            0 <= i < walk_of(rows, d, start).len() && i <= n ==> keys.contains(
                (#[trigger] walk_of(rows, d, start)[i]).0,
            ) == (i == n),
        forall|k: Seq<u8>| #[trigger] keys.contains(k) ==> reaches(d, start, k),
    ensures
        first_of(
            d,
            rows,
            keys,
            if n < walk_of(rows, d, start).len() {
                Some(walk_of(rows, d, start)[n])
            } else {
                None
            },
        ),
{
    let list = walk_of(rows, d, start);
    assert forall|k: Seq<u8>| #[trigger] rows.contains_key(k) && keys.contains(k) implies n
        < list.len() && (k == list[n].0 || precedes(d, list[n].0, k)) by {
        assert(has_key(list, k));
        let j = choose|j: int| 0 <= j < list.len() && (#[trigger] list[j]).0 == k;
        assert(keys.contains(list[j].0));
        if j > n {
            assert(precedes(d, list[n].0, list[j].0));
        }
    }
    if n < list.len() {
        assert(keys.contains(list[n].0));
        assert(rows.contains_key(list[n].0));
    }
}

/// A search by key finds the first row at or after the key.
pub proof fn law_seek(state: CursorState, key: Seq<u8>)
    requires
        state.rows.dom().finite(),
    ensures
        first_of(Direction::Forward, state.rows, from_key(key), state.to_key(key).1),
{
    lemma_walk_exists(state.rows, Direction::Forward, Some(key));
    lemma_walk_row(state.rows, Direction::Forward, Some(key), from_key(key), 0);
}

/// The first row has the smallest key.
pub proof fn law_first(state: CursorState)
    requires
        state.rows.dom().finite(),
    ensures
        first_of(Direction::Forward, state.rows, Set::full(), state.to_first().1),
{
    lemma_walk_exists(state.rows, Direction::Forward, None);
    lemma_walk_row(state.rows, Direction::Forward, None, Set::full(), 0);
}

/// The last row has the greatest key.
pub proof fn law_last(state: CursorState)
    requires
        state.rows.dom().finite(),
    ensures
        first_of(Direction::Reverse, state.rows, Set::full(), state.to_last().1),
{
    lemma_walk_exists(state.rows, Direction::Reverse, None);
    lemma_walk_row(state.rows, Direction::Reverse, None, Set::full(), 0);
}

/// Behind an exact search the next row is the first one after the key, whether the key was found
/// or not.
pub proof fn law_next_after_exact(state: CursorState, key: Seq<u8>)
    requires
        state.rows.dom().finite(),
    ensures
        first_of(
            Direction::Forward,
            state.rows,
            after_key(key),
            state.to_exact(key).0.to_next().1,
        ),
{
    let d = Direction::Forward;
    let list = walk_of(state.rows, d, Some(key));
    lemma_walk_exists(state.rows, d, Some(key));
    let n: int = if list.len() > 0 && list[0].0 == key {
        1
    } else {
        0
    };
    assert forall|i: int| 0 <= i < list.len() implies after_key(key).contains(
        (#[trigger] list[i]).0,
    ) == (i >= n) by {
        assert(reaches(d, Some(key), list[i].0));
        if i > 0 {
            assert(precedes(d, list[0].0, list[i].0));
            assert(reaches(d, Some(key), list[0].0));
            lemma_lex_total(list[0].0, list[i].0);
            lemma_lex_total(list[0].0, key);
        }
    }
    lemma_walk_row(state.rows, d, Some(key), after_key(key), n);
    if n == 1 && list.len() > 1 {
        assert(list.skip(1)[0] == list[1]);
    }
}

/// A search by key, or one for the first row, begins a walk at its first row.
pub proof fn law_walk_begins(state: CursorState, key: Seq<u8>)
    ensures
        state.to_key(key).1 is Some ==> walking_at(state.to_key(key).0, Some(key), 0),
        state.to_first().1 is Some ==> walking_at(state.to_first().0, None, 0),
{
}

/// A walk goes on row by row: `next` gives the row behind the one that the cursor is at, and
/// after the last one nothing.
pub proof fn law_walk_goes_on(state: CursorState, start: Option<Seq<u8>>, i: int)
    requires
        state.rows.dom().finite(),
        walking_at(state, start, i),
    ensures
        ({
            let list = walk_of(state.rows, Direction::Forward, start);
            let step = state.to_next();
            &&& step.1 == if i + 1 < list.len() {
                Some(list[i + 1])
            } else {
                None
            }
            &&& step.1 is Some ==> walking_at(step.0, start, i + 1)
            &&& step.1 is Some ==> lex_lt(state.current->0, (step.1->0).0)
        }),
{
    let list = walk_of(state.rows, Direction::Forward, start);
    lemma_walk_exists(state.rows, Direction::Forward, start);
    if i + 1 < list.len() {
        assert(list.skip(i + 1)[0] == list[i + 1]);
        assert(precedes(Direction::Forward, list[i].0, list[i + 1].0));
        assert(list.skip(i + 1).skip(1) =~= list.skip(i + 2));
    }
}

/// A walk that turns round gives the row that it is at again, and then the row before it.
pub proof fn law_turning_round(state: CursorState)
    requires
        state.rows.dom().finite(),
        !state.walking(Direction::Reverse),
        state.current is Some,
        state.rows.contains_key(state.current->0),
    ensures
        ({
            let key = state.current->0;
            let back = state.to_prev();
            &&& back.1 == Some((key, state.rows[key]))
            &&& first_of(
                Direction::Reverse,
                state.rows,
                before_key(key),
                back.0.to_prev().1,
            )
        }),
{
    let d = Direction::Reverse;
    let key = state.current->0;
    let list = walk_of(state.rows, d, Some(key));
    lemma_walk_exists(state.rows, d, Some(key));
    lemma_lex_total(key, key);
    assert(has_key(list, key));
    let j = choose|j: int| 0 <= j < list.len() && (#[trigger] list[j]).0 == key;
    if j > 0 {
        assert(precedes(d, list[0].0, list[j].0));
        assert(reaches(d, Some(key), list[0].0));
        lemma_lex_total(list[0].0, key);
    }
    assert forall|i: int| 0 <= i < list.len() implies before_key(key).contains(
        (#[trigger] list[i]).0,
    ) == (i >= 1) by {
        if i > 0 {
            assert(precedes(d, list[0].0, list[i].0));
        }
    }
    lemma_walk_row(state.rows, d, Some(key), before_key(key), 1);
    if list.len() > 1 {
        assert(list.skip(1)[0] == list[1]);
    }
}

/// How many entries of a key a walk passes over.
proof fn lemma_passed(list: Seq<Row>, key: Seq<u8>) -> (n: int)
    ensures
        0 <= n <= list.len(),
        passed(list, key).1 == if n < list.len() {
            Some(list[n])
        } else {
            None
        },
        forall|i: int|
            0 <= i < n ==> well_keyed((#[trigger] list[i]).0) && main_key(list[i].0) == key,
        n < list.len() ==> !(well_keyed(list[n].0) && main_key(list[n].0) == key),
    decreases list.len(),
{
    if list.len() > 0 && well_keyed(list[0].0) && main_key(list[0].0) == key {
        let rest = list.skip(1);
        let m = lemma_passed(rest, key);
        assert forall|i: int| 0 <= i < m + 1 implies well_keyed((#[trigger] list[i]).0) && main_key(
            list[i].0,
        ) == key by {
            if i > 0 {
                assert(rest[i - 1] == list[i]);
            }
        }
        if m < rest.len() {
            assert(rest[m] == list[m + 1]);
        }
        m + 1
    } else {
        0
    }
}

/// A step to another key gives the first row behind the current one that is no entry of its key.
pub proof fn law_other_key(state: CursorState, start: Option<Seq<u8>>, i: int)
    requires
        state.rows.dom().finite(),
        walking_at(state, start, i),
        well_keyed(state.current->0),
    ensures
        first_of(
            Direction::Forward,
            state.rows,
            other_keys(state.current->0),
            state.to_other_key().1,
        ),
{
    let key = state.current->0;
    let d = Direction::Forward;
    let list = walk_of(state.rows, d, start);
    lemma_walk_exists(state.rows, d, start);
    let tail = list.skip(i + 1);
    let n = lemma_passed(tail, main_key(key));
    let m = i + 1 + n;
    assert forall|j: int| 0 <= j < list.len() && j <= m implies other_keys(key).contains(
        (#[trigger] list[j]).0,
    ) == (j == m) by {
        if j < i {
            assert(precedes(d, list[j].0, list[i].0));
            lemma_lex_total(list[j].0, list[i].0);
        } else if j > i {
            assert(precedes(d, list[i].0, list[j].0));
            assert(tail[j - i - 1] == list[j]);
        }
    }
    assert(reaches(d, start, list[i].0));
    assert forall|k: Seq<u8>| #[trigger] other_keys(key).contains(k) implies reaches(d, start, k) by {
        if start is Some {
            lemma_lex_trans(start->0, key, k);
        }
    }
    lemma_walk_row(state.rows, d, start, other_keys(key), m);
    if m < list.len() {
        assert(tail[n] == list[m]);
    }
}

/// After the search for the last row `next` goes towards smaller keys.
pub proof fn law_next_after_last(state: CursorState)
    requires
        state.rows.dom().finite(),
        state.to_last().1 is Some,
    ensures
        first_of(
            Direction::Reverse,
            state.rows,
            before_key((state.to_last().1->0).0),
            state.to_last().0.to_next().1,
        ),
{
    let d = Direction::Reverse;
    let list = walk_of(state.rows, d, None);
    lemma_walk_exists(state.rows, d, None);
    let key = list[0].0;
    assert forall|i: int| 0 <= i < list.len() && i <= 1 implies before_key(key).contains(
        (#[trigger] list[i]).0,
    ) == (i == 1) by {
        lemma_lex_total(key, key);
        if i > 0 {
            assert(precedes(d, list[0].0, list[i].0));
        }
    }
    lemma_walk_row(state.rows, d, None, before_key(key), 1);
    if list.len() > 1 {
        assert(list.skip(1)[0] == list[1]);
        assert(precedes(d, list[0].0, list[1].0));
        lemma_lex_total(list[0].0, list[1].0);
    }
}

/// An exact search finds what was written last under the key, and every other row as it was.
pub proof fn law_written_is_found(
    state: CursorState,
    key: Seq<u8>,
    value: Seq<u8>,
    other: Seq<u8>,
)
    ensures
        state.written(key, value).to_exact(key).1 == Some((key, value)),
        other != key ==> state.written(key, value).to_exact(other).1 == state.to_exact(other).1,
{
}

/// What was deleted is found no more, and every other row is as it was.
pub proof fn law_deleted_is_gone(state: CursorState, other: Seq<u8>)
    requires
        state.current is Some,
    ensures
        state.without_current().to_exact(state.current->0).1 is None,
        other != state.current->0 ==> state.without_current().to_exact(other).1
            == state.to_exact(other).1,
{
}

/// After the duplicates were deleted no entry has their key, and every other entry is as it was.
pub proof fn law_duplicates_are_gone(state: CursorState, stored: Seq<u8>)
    requires
        state.current is Some,
        well_keyed(stored),
    ensures
        ({
            let after = state.without_duplicates();
            if main_key(stored) == main_key(state.current->0) {
                after.to_exact(stored).1 is None
            } else {
                after.to_exact(stored).1 == state.to_exact(stored).1
            }
        }),
{
}

/// The keys at or before `key`.
pub open spec fn up_to_key(key: Seq<u8>) -> Set<Seq<u8>> {
    Set::new(|k: Seq<u8>| lex_le(k, key))
}

/// From a key, and without a walk forward under way, `next` gives the first row after the key,
/// whether there is a row with the key or not.
pub proof fn law_next_from_a_key(state: CursorState)
    requires
        state.rows.dom().finite(),
        !state.walking(Direction::Forward),
        state.current is Some,
    ensures
        first_of(
            Direction::Forward,
            state.rows,
            after_key(state.current->0),
            state.to_next().1,
        ),
{
    law_next_after_exact(state, state.current->0);
}

/// From a key, and without a walk backward under way, `prev` gives the first row at or before the
/// key, whether there is a row with the key or not.
pub proof fn law_prev_from_a_key(state: CursorState)
    requires
        state.rows.dom().finite(),
        !state.walking(Direction::Reverse),
        state.current is Some,
    ensures
        first_of(
            Direction::Reverse,
            state.rows,
            up_to_key(state.current->0),
            state.to_prev().1,
        ),
{
    let key = state.current->0;
    lemma_walk_exists(state.rows, Direction::Reverse, Some(key));
    lemma_walk_row(state.rows, Direction::Reverse, Some(key), up_to_key(key), 0);
}

/// The cursor is at the row with number `i` of a walk backward from `start`, and the walk goes on
/// behind it.
pub open spec fn walking_back_at(state: CursorState, start: Option<Seq<u8>>, i: int) -> bool {
    let list = walk_of(state.rows, Direction::Reverse, start);
    &&& 0 <= i < list.len()
    &&& state.walking(Direction::Reverse)
    &&& state.left == Some(list.skip(i + 1))
    &&& state.current == Some(list[i].0)
}

/// A walk backward goes on row by row: `prev` gives the row before the one that the cursor is at,
/// and before the first one nothing.
pub proof fn law_walk_back_goes_on(state: CursorState, start: Option<Seq<u8>>, i: int)
    requires
        state.rows.dom().finite(),
        walking_back_at(state, start, i),
    ensures
        ({
            let list = walk_of(state.rows, Direction::Reverse, start);
            let step = state.to_prev();
            &&& step.1 == if i + 1 < list.len() {
                Some(list[i + 1])
            } else {
                None
            }
            &&& step.1 is Some ==> walking_back_at(step.0, start, i + 1)
            &&& step.1 is Some ==> lex_lt((step.1->0).0, state.current->0)
        }),
{
    let list = walk_of(state.rows, Direction::Reverse, start);
    lemma_walk_exists(state.rows, Direction::Reverse, start);
    if i + 1 < list.len() {
        assert(list.skip(i + 1)[0] == list[i + 1]);
        assert(precedes(Direction::Reverse, list[i].0, list[i + 1].0));
        assert(list.skip(i + 1).skip(1) =~= list.skip(i + 2));
    }
}

/// A walk backward begins with a step from a key.
pub proof fn law_walk_back_begins(state: CursorState)
    requires
        !state.walking(Direction::Reverse),
        state.current is Some,
    ensures
        state.to_prev().1 is Some ==> walking_back_at(state.to_prev().0, state.current, 0),
{
}

/// No step changes the table, and after each the cursor is at the row that it gave, or nowhere.
pub proof fn law_cursor_is_at_the_row(state: CursorState, key: Seq<u8>)
    ensures
        state.to_first().0.rows == state.rows,
        state.to_last().0.rows == state.rows,
        state.to_key(key).0.rows == state.rows,
        state.to_exact(key).0.rows == state.rows,
        state.to_next().0.rows == state.rows,
        state.to_prev().0.rows == state.rows,
        state.to_other_key().0.rows == state.rows,
        state.to_first().1 matches Some(row) ==> state.to_first().0.current == Some(row.0),
        state.to_last().1 matches Some(row) ==> state.to_last().0.current == Some(row.0),
        state.to_key(key).1 matches Some(row) ==> state.to_key(key).0.current == Some(row.0),
        state.to_next().1 matches Some(row) ==> state.to_next().0.current == Some(row.0),
        state.to_prev().1 matches Some(row) ==> state.to_prev().0.current == Some(row.0),
        state.to_other_key().1 matches Some(row) ==> state.to_other_key().0.current == Some(row.0),
        state.to_first().1 is None ==> state.to_first().0.current is None,
        state.to_last().1 is None ==> state.to_last().0.current is None,
        state.to_key(key).1 is None ==> state.to_key(key).0.current is None,
        state.to_exact(key).0.current == Some(key),
{
}

/// A cursor that is nowhere, and has no walk under way, goes nowhere.
pub proof fn law_from_nowhere(state: CursorState)
    requires
        state.current is None,
    ensures
        !state.walking(Direction::Forward) ==> state.to_next() == (state, None::<Row>),
        !state.walking(Direction::Reverse) ==> state.to_prev() == (state, None::<Row>),
        state.row_here() is None,
{
}

/// The row that the cursor is at is the one with its key, as the table has it. So is the row that
/// an exact search finds.
pub proof fn law_row_here(state: CursorState, key: Seq<u8>)
    ensures
        state.current == Some(key) && state.rows.contains_key(key) ==> state.row_here() == Some(
            (key, state.rows[key]),
        ),
        state.current == Some(key) && !state.rows.contains_key(key) ==> state.row_here() is None,
        state.rows.contains_key(key) ==> state.to_exact(key).1 == Some((key, state.rows[key])),
        !state.rows.contains_key(key) ==> state.to_exact(key).1 is None,
{
}

/// A write sets the row with that key and no other, and the cursor is then at it. A deletion takes
/// the row that the cursor is at and no other, and the cursor is then nowhere; from nowhere it
/// takes none. Neither stops a walk.
pub proof fn law_writes_with_a_cursor(
    state: CursorState,
    key: Seq<u8>,
    value: Seq<u8>,
    other: Seq<u8>,
)
    ensures
        ({
            let after = state.written(key, value);
            &&& after.rows.contains_key(key) && after.rows[key] == value
            &&& other != key ==> after.rows.contains_key(other) == state.rows.contains_key(other)
            &&& other != key && state.rows.contains_key(other) ==> after.rows[other]
                == state.rows[other]
            &&& after.current == Some(key)
            &&& after.left == state.left
            &&& after.direction == state.direction
        }),
        ({
            let after = state.without_current();
            &&& after.current is None
            &&& after.left == state.left
            &&& after.direction == state.direction
            &&& state.current is None ==> after.rows == state.rows
            &&& state.current matches Some(here) ==> {
                &&& !after.rows.contains_key(here)
                &&& other != here ==> after.rows.contains_key(other) == state.rows.contains_key(
                    other,
                )
                &&& other != here && state.rows.contains_key(other) ==> after.rows[other]
                    == state.rows[other]
            }
        }),
{
}

/// The duplicates that go are the rows with the main key of the one that the cursor is at, and no
/// others.
pub proof fn law_only_duplicates_go(state: CursorState, stored: Seq<u8>)
    requires
        state.current is Some,
        state.rows.contains_key(stored),
    ensures
        ({
            let after = state.without_duplicates();
            &&& well_keyed(stored) && main_key(stored) == main_key(state.current->0)
                ==> !after.rows.contains_key(stored)
            &&& !well_keyed(stored) || main_key(stored) != main_key(state.current->0)
                ==> after.rows.contains_key(stored) && after.rows[stored] == state.rows[stored]
            &&& after.current is None
            &&& after.left == state.left
        }),
{
}

/// A row is answered as it is. In a table with subkeys the answer has the main key alone, and a
/// stored key that cannot be read is an error. Where there is no row there is no answer.
pub proof fn law_answers(
    r: Result<Option<(Vec<u8>, Vec<u8>)>, DatabaseError>,
    dupsort: bool,
    stored: Seq<u8>,
    value: Seq<u8>,
)
    ensures
        answered(r, dupsort, None) ==> r == Ok::<Option<(Vec<u8>, Vec<u8>)>, DatabaseError>(None),
        answered(r, false, Some((stored, value))) ==> (r matches Ok(Some(entry)) && entry.0@
            == stored && entry.1@ == value),
        answered(r, true, Some((stored, value))) && stored.len() > 0 && stored.len() >= 1
            + stored[0] ==> (r matches Ok(Some(entry)) && entry.0@ == stored.subrange(
            1,
            1 + stored[0],
        ) && entry.1@ == value),
        answered(r, true, Some((stored, value))) && !(stored.len() > 0 && stored.len() >= 1
            + stored[0]) ==> (r matches Err(DatabaseError::Decode)),
{
}

/// A row counts as a duplicate where it has the main key, or where its stored key cannot be read.
pub proof fn law_only_of(stored: Seq<u8>, value: Seq<u8>, key: Seq<u8>)
    ensures
        only_of(None, key) is None,
        well_keyed(stored) && main_key(stored) == key ==> only_of(Some((stored, value)), key)
            == Some((stored, value)),
        well_keyed(stored) && main_key(stored) != key ==> only_of(
            Some((stored, value)),
            key,
        ) is None,
        !well_keyed(stored) ==> only_of(Some((stored, value)), key) == Some((stored, value)),
{
}

/// An answer without its key is the value of the same row, and so is one at the start of a walk.
pub proof fn law_values_of_answers(key: Vec<u8>, value: Vec<u8>, e: DatabaseError)
    ensures
        value_of(Ok(Some((key, value)))) == Ok::<Option<Vec<u8>>, DatabaseError>(Some(value)),
        value_of(Ok(None)) == Ok::<Option<Vec<u8>>, DatabaseError>(None),
        value_of(Err(e)) == Err::<Option<Vec<u8>>, DatabaseError>(e),
        as_answer(Some(Ok((key, value)))) == Ok::<Option<(Vec<u8>, Vec<u8>)>, DatabaseError>(
            Some((key, value)),
        ),
        as_answer(None) == Ok::<Option<(Vec<u8>, Vec<u8>)>, DatabaseError>(None),
        as_answer(Some(Err(e))) == Err::<Option<(Vec<u8>, Vec<u8>)>, DatabaseError>(e),
{
}

/// Both kinds of bounds have their key, and an open end has none.
pub proof fn law_bounds(key: &[u8])
    ensures
        KeyBound::Included(key).key() == Some(key@),
        KeyBound::Excluded(key).key() == Some(key@),
        KeyBound::Unbounded.key() is None,
{
}

/// A walk from the start goes forward over all rows, one from the end goes backward over all rows,
/// and one from a key goes the way that is asked for.
pub proof fn law_walk_modes(key: &[u8], d: Direction)
    ensures
        IteratorMode::Start.direction() == Direction::Forward,
        IteratorMode::Start.start() is None,
        IteratorMode::End.direction() == Direction::Reverse,
        IteratorMode::End.start() is None,
        IteratorMode::From(key, d).direction() == d,
        IteratorMode::From(key, d).start() == Some(key@),
{
}

/// A walk forward gives the rows at and after its start, a walk backward those at and before it,
/// and without a start either gives all rows. Each comes once, and the keys ascend or descend.
pub proof fn law_walks(
    rows: Rows,
    start: Option<Seq<u8>>,
    list: Seq<Row>,
    key: Seq<u8>,
    i: int,
    j: int,
)
    ensures
        walked(rows, Direction::Forward, start, list) ==> {
            &&& rows.contains_key(key) && (start matches Some(from) ==> lex_le(from, key))
                ==> exists|k: int| 0 <= k < list.len() && #[trigger] list[k] == (key, rows[key])
            &&& 0 <= i < list.len() ==> rows.contains_key(list[i].0) && rows[list[i].0]
                == list[i].1 && (start matches Some(from) ==> lex_le(from, list[i].0))
            &&& 0 <= i < j < list.len() ==> lex_le(list[i].0, list[j].0) && list[i].0 != list[j].0
        },
        walked(rows, Direction::Reverse, start, list) ==> {
            &&& rows.contains_key(key) && (start matches Some(from) ==> lex_le(key, from))
                ==> exists|k: int| 0 <= k < list.len() && #[trigger] list[k] == (key, rows[key])
            &&& 0 <= i < list.len() ==> rows.contains_key(list[i].0) && rows[list[i].0]
                == list[i].1 && (start matches Some(from) ==> lex_le(list[i].0, from))
            &&& 0 <= i < j < list.len() ==> lex_le(list[j].0, list[i].0) && list[i].0 != list[j].0
        },
{
    if walked(rows, Direction::Forward, start, list) {
        lemma_walk_has(rows, Direction::Forward, start, list, key);
        if 0 <= i < j < list.len() {
            assert(precedes(Direction::Forward, list[i].0, list[j].0));
        }
    }
    if walked(rows, Direction::Reverse, start, list) {
        lemma_walk_has(rows, Direction::Reverse, start, list, key);
        if 0 <= i < j < list.len() {
            assert(precedes(Direction::Reverse, list[i].0, list[j].0));
        }
    }
}

/// A row that a walk comes to is in its list.
proof fn lemma_walk_has(
    rows: Rows,
    d: Direction,
    start: Option<Seq<u8>>,
    list: Seq<Row>,
    key: Seq<u8>,
)
    requires
        walked(rows, d, start, list),
    ensures
        rows.contains_key(key) && reaches(d, start, key) ==> exists|k: int|
            0 <= k < list.len() && #[trigger] list[k] == (key, rows[key]),
{
    if rows.contains_key(key) && reaches(d, start, key) {
        assert(has_key(list, key));
        let k = choose|k: int| 0 <= k < list.len() && (#[trigger] list[k]).0 == key;
        assert(rows[list[k].0] == list[k].1);
        assert(list[k] == (key, rows[key]));
    }
}

} // verus!
