//! Cursors over tables.

use std::marker::PhantomData;
use vstd::prelude::*;
use vstd::slice::slice_to_vec;

use crate::bytes::{lemma_lex_prefix, lemma_lex_total, lex_le, same_bytes};
use crate::database::{cf_missing, cf_not_found, engine_error, read_error, write_error};
use crate::dupsort::{
    composite, decode_dupsort_key, encode_dupsort_key, encode_key_prefix, key_prefix,
    law_duplicates_adjacent, law_stored_key_restored, main_key, sub_key, well_keyed, MAX_KEY_LEN,
};
use crate::engine::{
    has_key, lemma_walk_unique, precedes, reaches, walk_of, walked, Direction, Engine, EngineError,
    IteratorMode, Row, Rows,
};
use crate::errors::{DatabaseError, DatabaseWriteOperation};
use crate::transaction::{TransactionKind, RW};

verus! {

/// The model of a cursor.
pub struct CursorState {
    /// The rows of the table.
    pub rows: Rows,
    /// What the walk under way has yet to give.
    pub left: Option<Seq<Row>>,
    /// The direction of the walk.
    pub direction: Direction,
    /// The stored key that the cursor is at.
    pub current: Option<Seq<u8>>,
}

/// A walk moves on: the row that it gives, where there is one, and what is left of it. A first
/// row with the key `current` is passed over.
pub open spec fn pulled(left: Seq<Row>, current: Option<Seq<u8>>) -> (Seq<Row>, Option<Row>) {
    if left.len() == 0 {
        (left, None)
    } else if current == Some(left[0].0) {
        pulled_head(left.skip(1))
    } else {
        pulled_head(left)
    }
}

/// A walk gives its first row.
pub open spec fn pulled_head(left: Seq<Row>) -> (Seq<Row>, Option<Row>) {
    if left.len() == 0 {
        (left, None)
    } else {
        (left.skip(1), Some(left[0]))
    }
}

/// A walk passes over the entries of a key and gives the first row that is none.
pub open spec fn passed(left: Seq<Row>, key: Seq<u8>) -> (Seq<Row>, Option<Row>)
    decreases left.len(),
{
    if left.len() > 0 && well_keyed(left[0].0) && main_key(left[0].0) == key {
        passed(left.skip(1), key)
    } else {
        pulled_head(left)
    }
}

impl CursorState {
    /// The cursor after a walk in `direction` has given a row, with what is left of the walk.
    pub open spec fn at(self, direction: Direction, step: (Seq<Row>, Option<Row>)) -> (
        CursorState,
        Option<Row>,
    ) {
        (
            CursorState {
                rows: self.rows,
                left: Some(step.0),
                direction,
                current: match step.1 {
                    Some(row) => Some(row.0),
                    None => None,
                },
            },
            step.1,
        )
    }

    /// The cursor goes to the first row.
    pub open spec fn to_first(self) -> (CursorState, Option<Row>) {
        self.at(Direction::Forward, pulled_head(walk_of(self.rows, Direction::Forward, None)))
    }

    /// The cursor goes to the last row. A walk from there with `next` goes towards smaller keys.
    pub open spec fn to_last(self) -> (CursorState, Option<Row>) {
        self.at(Direction::Forward, pulled_head(walk_of(self.rows, Direction::Reverse, None)))
    }

    /// The cursor goes to the first row at or after `key`.
    pub open spec fn to_key(self, key: Seq<u8>) -> (CursorState, Option<Row>) {
        self.at(Direction::Forward, pulled_head(walk_of(self.rows, Direction::Forward, Some(key))))
    }

    /// The cursor is at `key`, whether there is such a row or not.
    pub open spec fn to_exact(self, key: Seq<u8>) -> (CursorState, Option<Row>) {
        let state = CursorState {
            rows: self.rows,
            left: None,
            direction: Direction::Forward,
            current: Some(key),
        };
        (state, state.row_here())
    }

    /// The row that the cursor is at.
    pub open spec fn row_here(self) -> Option<Row> {
        match self.current {
            Some(key) => if self.rows.contains_key(key) {
                Some((key, self.rows[key]))
            } else {
                None
            },
            None => None,
        }
    }

    /// A walk in `direction` is under way.
    pub open spec fn walking(self, direction: Direction) -> bool {
        self.left is Some && self.direction == direction
    }

    /// The cursor goes forward.
    pub open spec fn to_next(self) -> (CursorState, Option<Row>) {
        if self.walking(Direction::Forward) {
            self.at(Direction::Forward, pulled(self.left->0, self.current))
        } else if self.current is Some {
            self.at(
                Direction::Forward,
                pulled(walk_of(self.rows, Direction::Forward, self.current), self.current),
            )
        } else {
            (self, None)
        }
    }

    /// The cursor goes backward. A walk that turns round gives the row that it is at again.
    pub open spec fn to_prev(self) -> (CursorState, Option<Row>) {
        if self.walking(Direction::Reverse) {
            self.at(Direction::Reverse, pulled_head(self.left->0))
        } else if self.current is Some {
            self.at(
                Direction::Reverse,
                pulled_head(walk_of(self.rows, Direction::Reverse, self.current)),
            )
        } else {
            (self, None)
        }
    }

    /// The cursor goes forward to another key, by the walk under way.
    pub open spec fn to_other_key(self) -> (CursorState, Option<Row>) {
        if self.walking(Direction::Forward) {
            self.at(Direction::Forward, passed(self.left->0, main_key(self.current->0)))
        } else {
            (self, None)
        }
    }

    /// The table with an entry written, and the cursor at it.
    pub open spec fn written(self, key: Seq<u8>, value: Seq<u8>) -> CursorState {
        CursorState { rows: self.rows.insert(key, value), current: Some(key), ..self }
    }

    /// The table without the entry that the cursor is at.
    pub open spec fn without_current(self) -> CursorState {
        match self.current {
            Some(key) => CursorState { rows: self.rows.remove(key), current: None, ..self },
            None => self,
        }
    }

    /// The row under a stored key is an entry with the key of the one that the cursor is at.
    pub open spec fn duplicate(self, stored: Seq<u8>) -> bool {
        &&& self.rows.contains_key(stored)
        &&& self.current is Some
        &&& well_keyed(stored)
        &&& main_key(stored) == main_key(self.current->0)
    }

    /// The table without the entries that have the key of the one that the cursor is at.
    pub open spec fn without_duplicates(self) -> CursorState {
        CursorState {
            rows: self.rows.remove_keys(Set::new(|k: Seq<u8>| self.duplicate(k))),
            current: None,
            ..self
        }
    }

    /// Nothing but entries with the key of the one that the cursor is at is missing in `after`.
    pub open spec fn only_duplicates_lost(self, after: Rows) -> bool {
        &&& after.submap_of(self.rows)
        &&& forall|k: Seq<u8>| #[trigger]
            self.rows.contains_key(k) && !after.contains_key(k) ==> self.duplicate(k)
    }

    /// All stored keys can be read.
    pub open spec fn well_keyed(self) -> bool {
        &&& self.current matches Some(key) ==> well_keyed(key)
        &&& forall|k: Seq<u8>| #[trigger] self.rows.contains_key(k) ==> well_keyed(k)
    }

    /// The walk has come to its end.
    pub open spec fn ended(self) -> CursorState {
        CursorState { left: Some(Seq::empty()), current: None, ..self }
    }

    /// The cursor is at no row.
    pub open spec fn nowhere(self) -> CursorState {
        CursorState { current: None, ..self }
    }
}

/// What a cursor answers for a row: the row, with the key alone where the table stores it with a
/// subkey.
pub open spec fn answered(
    r: Result<Option<(Vec<u8>, Vec<u8>)>, DatabaseError>,
    dupsort: bool,
    row: Option<Row>,
) -> bool {
    match row {
        None => r matches Ok(None),
        Some(row) => if !dupsort {
            r matches Ok(Some(entry)) && (entry.0@, entry.1@) == row
        } else if well_keyed(row.0) {
            r matches Ok(Some(entry)) && entry.0@ == main_key(row.0) && entry.1@ == row.1
        } else {
            r matches Err(DatabaseError::Decode)
        },
    }
}

/// A row, unless it is an entry with another key.
pub open spec fn only_of(row: Option<Row>, key: Seq<u8>) -> Option<Row> {
    match row {
        Some(found) => if well_keyed(found.0) && main_key(found.0) != key {
            None
        } else {
            row
        },
        None => None,
    }
}

/// A cursor's answer without the key.
pub open spec fn value_of(r: Result<Option<(Vec<u8>, Vec<u8>)>, DatabaseError>) -> Result<
    Option<Vec<u8>>,
    DatabaseError,
> {
    match r {
        Ok(Some(entry)) => Ok(Some(entry.1)),
        Ok(None) => Ok(None),
        Err(e) => Err(e),
    }
}

/// A cursor's answer as the start of a walk over entries.
pub open spec fn as_answer(start: Option<Result<(Vec<u8>, Vec<u8>), DatabaseError>>) -> Result<
    Option<(Vec<u8>, Vec<u8>)>,
    DatabaseError,
> {
    match start {
        None => Ok(None),
        Some(Ok(entry)) => Ok(Some(entry)),
        Some(Err(e)) => Err(e),
    }
}

/// The message is that of a read of the table that failed: the begin of a walk, or the search for
/// a value.
pub open spec fn engine_read_failed<E: Engine>(engine: E, message: Seq<char>) -> bool {
    ||| exists|mode: IteratorMode, m: String|
        m@ == message && #[trigger] call_ensures(
            E::iterator,
            (&engine, mode),
            Err::<E::Iter, EngineError>(EngineError::Failed(m)),
        )
    ||| exists|key: &[u8], m: String|
        m@ == message && #[trigger] call_ensures(
            E::get,
            (&engine, key),
            Err::<Option<Vec<u8>>, EngineError>(EngineError::Failed(m)),
        )
}

/// A cursor over a table.
pub struct Cursor<K: TransactionKind, E: Engine> {
    engine: E,
    table_name: String,
    dupsort: bool,
    iter: Option<E::Iter>,
    direction: Direction,
    current_key: Option<Vec<u8>>,
    mode: PhantomData<K>,
}

impl<K: TransactionKind, E: Engine> Cursor<K, E> {
    /// The model.
    pub closed spec fn state(&self) -> CursorState {
        CursorState {
            rows: self.engine.rows(),
            left: match self.iter {
                Some(it) => Some(E::left(&it)),
                None => None,
            },
            direction: self.direction,
            current: match self.current_key {
                Some(key) => Some(key@),
                None => None,
            },
        }
    }

    /// The table.
    pub closed spec fn engine(&self) -> E {
        self.engine
    }

    /// The name of the table.
    pub closed spec fn table_name(&self) -> Seq<char> {
        self.table_name@
    }

    /// Whether the table stores keys with subkeys.
    pub closed spec fn dupsort(&self) -> bool {
        self.dupsort
    }

    /// Neither the table nor the walk under way fails.
    pub closed spec fn reliable(&self) -> bool {
        self.engine.reliable() && (self.iter matches Some(it) ==> E::steady(&it))
    }

    /// What no operation changes.
    pub open spec fn same_table(&self, before: &Self) -> bool {
        &&& self.table_name() == before.table_name()
        &&& self.dupsort() == before.dupsort()
        &&& self.engine().absent() == before.engine().absent()
        &&& before.reliable() ==> self.reliable()
    }

    /// The table could not be read.
    pub open spec fn unreadable(&self, e: DatabaseError) -> bool {
        if self.engine().absent() {
            e matches DatabaseError::Open(info) && engine_error(
                info,
                cf_missing(self.table_name()),
            )
        } else {
            e matches DatabaseError::Read(info) && info.code == -1 && engine_read_failed(
                self.engine(),
                info.message@,
            )
        }
    }

    /// The table could not be written, in an operation on `key`.
    pub open spec fn unwritable(
        &self,
        e: DatabaseError,
        operation: DatabaseWriteOperation,
        key: Seq<u8>,
    ) -> bool {
        if self.engine().absent() {
            e matches DatabaseError::Open(info) && engine_error(
                info,
                cf_missing(self.table_name()),
            )
        } else {
            e matches DatabaseError::Write(w) && w.info.code == -1 && w.operation == operation
                && w.table_name@ == self.table_name() && w.key@ == key
        }
    }

    /// The cursor has taken a step and answers with the row. A walk that fails may end early.
    pub open spec fn moved(
        &self,
        before: &Self,
        step: (CursorState, Option<Row>),
        r: Result<Option<(Vec<u8>, Vec<u8>)>, DatabaseError>,
    ) -> bool {
        &&& self.same_table(before)
        &&& self.engine() == before.engine()
        &&& if before.reliable() || r != Ok::<Option<(Vec<u8>, Vec<u8>)>, DatabaseError>(None) {
            self.state() == step.0 && answered(r, before.dupsort(), step.1)
        } else {
            self.state() == step.0.ended() || self.state() == step.0
        }
    }

    /// The cursor has moved, or it could not begin a walk, which leaves it as `failed`.
    pub open spec fn stepped(
        &self,
        before: &Self,
        step: (CursorState, Option<Row>),
        failed: CursorState,
        r: Result<Option<(Vec<u8>, Vec<u8>)>, DatabaseError>,
    ) -> bool {
        ||| self.moved(before, step, r)
        ||| self.same_table(before) && self.engine() == before.engine() && !before.reliable()
            && r is Err && before.unreadable(
            r->Err_0,
        ) && self.state() == failed
    }

    /// A cursor that is at no row.
    pub fn new(engine: E, table_name: &str, dupsort: bool) -> (r: Self)
        ensures
            r.engine() == engine,
            r.table_name() == table_name@,
            r.dupsort() == dupsort,
            r.reliable() == engine.reliable(),
            r.state() == (CursorState {
                rows: engine.rows(),
                left: None,
                direction: Direction::Forward,
                current: None,
            }),
    {
        Cursor {
            engine,
            table_name: table_name.to_owned(),
            dupsort,
            iter: None,
            direction: Direction::Forward,
            current_key: None,
            mode: PhantomData,
        }
    }

    /// The table, without the cursor.
    pub fn into_engine(self) -> (r: E)
        ensures
            r == self.engine(),
            r.rows() == self.state().rows,
    {
        self.engine
    }

    /// What is answered for a failed read.
    fn read_failure(&self, e: EngineError) -> (r: DatabaseError)
        requires
            self.engine.absent() <==> e is TableMissing,
            e matches EngineError::Failed(m) ==> engine_read_failed(self.engine, m@),
        ensures
            self.unreadable(r),
    {
        match e {
            EngineError::TableMissing => cf_not_found(self.table_name.as_str()),
            EngineError::Failed(message) => read_error(message.as_str()),
        }
    }

    /// What is answered for a failed write.
    fn write_failure(&self, e: EngineError, operation: DatabaseWriteOperation, key: &[u8]) -> (r:
        DatabaseError)
        requires
            self.engine.absent() <==> e is TableMissing,
        ensures
            self.unwritable(r, operation, key@),
            e matches EngineError::Failed(m) ==> (r matches DatabaseError::Write(w)
                && w.info.message@ == m@),
    {
        match e {
            EngineError::TableMissing => cf_not_found(self.table_name.as_str()),
            EngineError::Failed(message) => write_error(
                self.table_name.as_str(),
                message.as_str(),
                operation,
                key,
            ),
        }
    }

    /// What is answered for a row.
    fn decode_key_value(&self, key: Vec<u8>, value: Vec<u8>) -> (r: Result<
        Option<(Vec<u8>, Vec<u8>)>,
        DatabaseError,
    >)
        ensures
            answered(r, self.dupsort(), Some((key@, value@))),
    {
        if self.dupsort {
            match decode_dupsort_key(key.as_slice()) {
                Ok((main_key, _)) => Ok(Some((main_key, value))),
                Err(e) => Err(e),
            }
        } else {
            Ok(Some((key, value)))
        }
    }

    /// Begins a walk.
    fn create_iterator(&mut self, mode: IteratorMode, direction: Direction) -> (r: Result<
        (),
        DatabaseError,
    >)
        ensures
            final(self).same_table(old(self)),
            final(self).engine() == old(self).engine(),
            match r {
                Ok(_) => final(self).state() == (CursorState {
                    left: Some(walk_of(old(self).state().rows, mode.direction(), mode.start())),
                    direction,
                    ..old(self).state()
                }),
                Err(e) => final(self).state() == old(self).state() && old(self).unreadable(e)
                    && !old(self).reliable(),
            },
            old(self).engine().absent() ==> r is Err,
    {
        match self.engine.iterator(mode) {
            Ok(it) => {
                proof {
                    lemma_walk_unique(
                        self.engine.rows(),
                        mode.direction(),
                        mode.start(),
                        E::left(&it),
                    );
                }
                self.iter = Some(it);
                self.direction = direction;
                Ok(())
            },
            Err(e) => Err(self.read_failure(e)),
        }
    }

    /// Moves the walk under way on, past a first row with the key that the cursor is at.
    fn pull(&mut self) -> (r: Result<Option<(Vec<u8>, Vec<u8>)>, DatabaseError>)
        requires
            old(self).state().left is Some,
        ensures
            ({
                let state = old(self).state();
                final(self).moved(
                    old(self),
                    state.at(state.direction, pulled(state.left->0, state.current)),
                    r,
                )
            }),
    {
        let ghost state = self.state();
        let ghost step = state.at(state.direction, pulled(state.left->0, state.current));
        let row = match self.iter.take() {
            None => None,
            Some(mut it) => {
                let first = E::advance(&mut it);
                let row = match first {
                    None => None,
                    Some(row) => {
                        let again = match &self.current_key {
                            Some(key) => same_bytes(key.as_slice(), row.0.as_slice()),
                            None => false,
                        };
                        if again {
                            E::advance(&mut it)
                        } else {
                            Some(row)
                        }
                    },
                };
                if row.is_none() {
                    assert(E::left(&it) =~= Seq::empty());
                }
                self.iter = Some(it);
                row
            },
        };
        match row {
            None => {
                self.current_key = None;
                assert(self.state() == step.0.ended());
                assert(old(self).reliable() ==> step.0.left->0 =~= Seq::empty());
                Ok(None)
            },
            Some((key, value)) => {
                self.current_key = Some(slice_to_vec(key.as_slice()));
                assert(self.state() == step.0);
                self.decode_key_value(key, value)
            },
        }
    }

    /// The first entry.
    pub fn first(&mut self) -> (r: Result<Option<(Vec<u8>, Vec<u8>)>, DatabaseError>)
        ensures
            final(self).stepped(
                old(self),
                old(self).state().to_first(),
                old(self).state(),
                r,
            ),
            old(self).engine().absent() ==> r is Err,
    {
        match self.create_iterator(IteratorMode::Start, Direction::Forward) {
            Ok(_) => {
                self.current_key = None;
                self.pull()
            },
            Err(e) => Err(e),
        }
    }

    /// The entry with exactly this stored key. A walk from there goes on behind it.
    pub fn seek_exact(&mut self, key: &[u8]) -> (r: Result<
        Option<(Vec<u8>, Vec<u8>)>,
        DatabaseError,
    >)
        ensures
            final(self).same_table(old(self)),
            final(self).engine() == old(self).engine(),
            ({
                let step = old(self).state().to_exact(key@);
                if old(self).engine().absent() {
                    &&& r is Err
                    &&& old(self).unreadable(r->Err_0)
                    &&& final(self).state() == (CursorState {
                        current: old(self).state().current,
                        ..step.0
                    })
                } else {
                    &&& final(self).state() == step.0
                    &&& answered(r, old(self).dupsort(), step.1) || (!old(self).reliable()
                        && r is Err && old(self).unreadable(r->Err_0))
                }
            }),
    {
        self.iter = None;
        self.direction = Direction::Forward;
        match self.engine.get(key) {
            Ok(found) => {
                self.current_key = Some(slice_to_vec(key));
                match found {
                    Some(value) => self.decode_key_value(slice_to_vec(key), value),
                    None => Ok(None),
                }
            },
            Err(e) => {
                match e {
                    EngineError::TableMissing => {},
                    EngineError::Failed(_) => {
                        self.current_key = Some(slice_to_vec(key));
                    },
                }
                Err(self.read_failure(e))
            },
        }
    }

    /// The first entry whose stored key is at or after `key`.
    pub fn seek(&mut self, key: &[u8]) -> (r: Result<Option<(Vec<u8>, Vec<u8>)>, DatabaseError>)
        ensures
            final(self).stepped(
                old(self),
                old(self).state().to_key(key@),
                old(self).state().nowhere(),
                r,
            ),
            old(self).engine().absent() ==> r is Err,
    {
        self.current_key = None;
        match self.create_iterator(
            IteratorMode::From(key, Direction::Forward),
            Direction::Forward,
        ) {
            Ok(_) => self.pull(),
            Err(e) => Err(e),
        }
    }

    /// The next entry.
    pub fn next(&mut self) -> (r: Result<Option<(Vec<u8>, Vec<u8>)>, DatabaseError>)
        ensures
            final(self).stepped(old(self), old(self).state().to_next(), old(self).state(), r),
            old(self).engine().absent() && old(self).state().current is Some && !old(
                self,
            ).state().walking(Direction::Forward) ==> r is Err,
    {
        let walking = match self.direction {
            Direction::Forward => self.iter.is_some(),
            Direction::Reverse => false,
        };
        if walking {
            return self.pull();
        }
        let start = match &self.current_key {
            None => {
                return Ok(None);
            },
            Some(key) => slice_to_vec(key.as_slice()),
        };
        match self.create_iterator(
            IteratorMode::From(start.as_slice(), Direction::Forward),
            Direction::Forward,
        ) {
            Ok(_) => self.pull(),
            Err(e) => Err(e),
        }
    }

    /// The previous entry. A cursor that turns round gives the entry that it is at again.
    pub fn prev(&mut self) -> (r: Result<Option<(Vec<u8>, Vec<u8>)>, DatabaseError>)
        ensures
            final(self).stepped(old(self), old(self).state().to_prev(), old(self).state(), r),
            old(self).engine().absent() && old(self).state().current is Some && !old(
                self,
            ).state().walking(Direction::Reverse) ==> r is Err,
    {
        let walking = match self.direction {
            Direction::Forward => false,
            Direction::Reverse => self.iter.is_some(),
        };
        if !walking {
            let start = match &self.current_key {
                None => {
                    return Ok(None);
                },
                Some(key) => slice_to_vec(key.as_slice()),
            };
            match self.create_iterator(
                IteratorMode::From(start.as_slice(), Direction::Reverse),
                Direction::Reverse,
            ) {
                Ok(_) => {},
                Err(e) => {
                    return Err(e);
                },
            }
        }
        self.current_key = None;
        self.pull()
    }

    /// The last entry. From there `next` goes towards smaller keys.
    pub fn last(&mut self) -> (r: Result<Option<(Vec<u8>, Vec<u8>)>, DatabaseError>)
        ensures
            final(self).stepped(old(self), old(self).state().to_last(), old(self).state(), r),
            old(self).engine().absent() ==> r is Err,
    {
        match self.create_iterator(IteratorMode::End, Direction::Forward) {
            Ok(_) => {
                self.current_key = None;
                self.pull()
            },
            Err(e) => Err(e),
        }
    }

    /// The entry that the cursor is at, as the table has it now.
    pub fn current(&mut self) -> (r: Result<Option<(Vec<u8>, Vec<u8>)>, DatabaseError>)
        ensures
            final(self).same_table(old(self)),
            final(self).engine() == old(self).engine(),
            final(self).state() == old(self).state(),
            answered(r, old(self).dupsort(), old(self).state().row_here()) || (!old(
                self,
            ).reliable() && r is Err && old(self).unreadable(r->Err_0)),
            old(self).engine().absent() && old(self).state().current is Some ==> r is Err && old(
                self,
            ).unreadable(r->Err_0),
    {
        match &self.current_key {
            None => Ok(None),
            Some(key) => match self.engine.get(key.as_slice()) {
                Ok(Some(value)) => self.decode_key_value(slice_to_vec(key.as_slice()), value),
                Ok(None) => Ok(None),
                Err(e) => Err(self.read_failure(e)),
            },
        }
    }

    /// Where a walk over the entries from `start_key` on, or from the first, starts.
    pub fn walk(&mut self, start_key: Option<&[u8]>) -> (r: Option<
        Result<(Vec<u8>, Vec<u8>), DatabaseError>,
    >)
        ensures
            match start_key {
                Some(key) => final(self).stepped(
                    old(self),
                    old(self).state().to_key(key@),
                    old(self).state().nowhere(),
                    as_answer(r),
                ),
                None => final(self).stepped(
                    old(self),
                    old(self).state().to_first(),
                    old(self).state(),
                    as_answer(r),
                ),
            },
            old(self).engine().absent() ==> as_answer(r) is Err,
    {
        match start_key {
            Some(key) => transposed(self.seek(key)),
            None => transposed(self.first()),
        }
    }

    /// Where a walk over a range of entries starts, and where it ends. Either bound of the range
    /// belongs to it.
    pub fn walk_range<'a>(&mut self, start_bound: KeyBound, end_bound: KeyBound<'a>) -> (r: (
        Option<Result<(Vec<u8>, Vec<u8>), DatabaseError>>,
        KeyBound<'a>,
    ))
        ensures
            match start_bound.key() {
                Some(key) => final(self).stepped(
                    old(self),
                    old(self).state().to_key(key),
                    old(self).state().nowhere(),
                    as_answer(r.0),
                ),
                None => final(self).stepped(
                    old(self),
                    old(self).state().to_first(),
                    old(self).state(),
                    as_answer(r.0),
                ),
            },
            old(self).engine().absent() ==> as_answer(r.0) is Err,
            r.1 == match end_bound {
                KeyBound::Included(key) => KeyBound::Included(key),
                KeyBound::Excluded(key) => KeyBound::Included(key),
                KeyBound::Unbounded => KeyBound::Unbounded,
            },
    {
        let start = match start_bound {
            KeyBound::Included(key) | KeyBound::Excluded(key) => self.walk(Some(key)),
            KeyBound::Unbounded => self.walk(None),
        };
        let end = match end_bound {
            KeyBound::Included(key) | KeyBound::Excluded(key) => KeyBound::Included(key),
            KeyBound::Unbounded => KeyBound::Unbounded,
        };
        (start, end)
    }

    /// Where a walk backward from `start_key`, or from the last entry, starts. From a key it
    /// starts at the first entry at or after it.
    pub fn walk_back(&mut self, start_key: Option<&[u8]>) -> (r: Result<
        Option<Result<(Vec<u8>, Vec<u8>), DatabaseError>>,
        DatabaseError,
    >)
        ensures
            match start_key {
                Some(key) => {
                    let step = old(self).state().to_key(key@);
                    let failed = old(self).state().nowhere();
                    match r {
                        Ok(start) => exists|found: Option<(Vec<u8>, Vec<u8>)>| #[trigger]
                            final(self).stepped(old(self), step, failed, Ok(found)) && (answered(
                                as_answer(start),
                                old(self).dupsort(),
                                final(self).state().row_here(),
                            ) || !old(self).reliable() && as_answer(start) is Err && old(
                                self,
                            ).unreadable(as_answer(start)->Err_0)),
                        Err(e) => final(self).stepped(old(self), step, failed, Err(e)),
                    }
                },
                None => r is Ok && final(self).stepped(
                    old(self),
                    old(self).state().to_last(),
                    old(self).state(),
                    as_answer(r->Ok_0),
                ),
            },
            old(self).engine().absent() ==> r is Err || as_answer(r->Ok_0) is Err,
    {
        match start_key {
            Some(key) => match self.seek(key) {
                Ok(found) => {
                    let start = transposed(self.current());
                    assert(self.stepped(
                        old(self),
                        old(self).state().to_key(key@),
                        old(self).state().nowhere(),
                        Ok(found),
                    ));
                    Ok(start)
                },
                Err(e) => Err(e),
            },
            None => Ok(transposed(self.last())),
        }
    }
}

impl<K: TransactionKind, E: Engine> Cursor<K, E> {
    /// The next entry, where it has the key of the one that the cursor is at. The cursor moves on
    /// in any case.
    pub fn next_dup(&mut self) -> (r: Result<Option<(Vec<u8>, Vec<u8>)>, DatabaseError>)
        requires
            old(self).dupsort(),
        ensures
            match old(self).state().current {
                None => r == Ok::<Option<(Vec<u8>, Vec<u8>)>, DatabaseError>(None)
                    && final(self).same_table(old(self)) && final(self).state() == old(
                    self,
                ).state(),
                Some(stored) => if well_keyed(stored) {
                    let step = old(self).state().to_next();
                    final(self).stepped(
                        old(self),
                        (step.0, only_of(step.1, main_key(stored))),
                        old(self).state(),
                        r,
                    )
                } else {
                    r == Err::<Option<(Vec<u8>, Vec<u8>)>, DatabaseError>(DatabaseError::Decode)
                        && final(self).same_table(old(self)) && final(self).state() == old(
                        self,
                    ).state()
                },
            },
    {
        let current_main_key = match &self.current_key {
            None => {
                return Ok(None);
            },
            Some(key) => match decode_dupsort_key(key.as_slice()) {
                Ok((main, _)) => main,
                Err(e) => {
                    return Err(e);
                },
            },
        };
        match self.next() {
            Ok(Some((key, value))) => if same_bytes(key.as_slice(), current_main_key.as_slice()) {
                Ok(Some((key, value)))
            } else {
                Ok(None)
            },
            Ok(None) => Ok(None),
            Err(e) => Err(e),
        }
    }

    /// The next entry with another key. From no entry, the first one. Without a walk forward
    /// under way there is none.
    pub fn next_no_dup(&mut self) -> (r: Result<Option<(Vec<u8>, Vec<u8>)>, DatabaseError>)
        requires
            old(self).dupsort(),
        ensures
            match old(self).state().current {
                None => final(self).stepped(
                    old(self),
                    old(self).state().to_first(),
                    old(self).state(),
                    r,
                ),
                Some(stored) => if well_keyed(stored) {
                    final(self).moved(old(self), old(self).state().to_other_key(), r)
                } else {
                    r == Err::<Option<(Vec<u8>, Vec<u8>)>, DatabaseError>(DatabaseError::Decode)
                        && final(self).same_table(old(self)) && final(self).state() == old(
                        self,
                    ).state()
                },
            },
            old(self).engine().absent() && old(self).state().current is None ==> r is Err,
    {
        let current_main_key = match &self.current_key {
            None => {
                return self.first();
            },
            Some(key) => match decode_dupsort_key(key.as_slice()) {
                Ok((main, _)) => main,
                Err(e) => {
                    return Err(e);
                },
            },
        };
        match self.direction {
            Direction::Forward => {},
            Direction::Reverse => {
                return Ok(None);
            },
        }
        let mut it = match self.iter.take() {
            None => {
                return Ok(None);
            },
            Some(it) => it,
        };
        let ghost left = E::left(&it);
        let ghost step = passed(left, current_main_key@);
        loop
            invariant
                old(self).state().current is Some,
                well_keyed(old(self).state().current->0),
                old(self).reliable() ==> E::steady(&it),
                step == passed(E::left(&it), current_main_key@),
                self.dupsort,
                self.engine == old(self).engine,
                self.table_name == old(self).table_name,
                self.dupsort == old(self).dupsort,
                self.direction == Direction::Forward,
                old(self).state().to_other_key() == old(self).state().at(Direction::Forward, step),
                old(self).reliable() ==> self.engine.reliable(),
            decreases E::left(&it).len(),
        {
            let row = E::advance(&mut it);
            match row {
                None => {
                    assert(E::left(&it) =~= Seq::empty());
                    self.iter = Some(it);
                    self.current_key = None;
                    assert(old(self).reliable() ==> step.0 =~= Seq::empty());
                    return Ok(None);
                },
                Some((key, value)) => {
                    let found = match decode_dupsort_key(key.as_slice()) {
                        Ok((main, _)) => !same_bytes(main.as_slice(), current_main_key.as_slice()),
                        Err(_) => true,
                    };
                    if found {
                        self.iter = Some(it);
                        self.current_key = Some(slice_to_vec(key.as_slice()));
                        return self.decode_key_value(key, value);
                    }
                },
            }
        }
    }

    /// The value of the next entry, where it has the key of the one that the cursor is at.
    pub fn next_dup_val(&mut self) -> (r: Result<Option<Vec<u8>>, DatabaseError>)
        requires
            old(self).dupsort(),
        ensures
            match old(self).state().current {
                None => r == Ok::<Option<Vec<u8>>, DatabaseError>(None) && final(self).same_table(
                    old(self),
                ) && final(self).state() == old(self).state(),
                Some(stored) => if well_keyed(stored) {
                    let step = old(self).state().to_next();
                    exists|full: Result<Option<(Vec<u8>, Vec<u8>)>, DatabaseError>| #[trigger]
                        final(self).stepped(
                            old(self),
                            (step.0, only_of(step.1, main_key(stored))),
                            old(self).state(),
                            full,
                        ) && r == value_of(full)
                } else {
                    r == Err::<Option<Vec<u8>>, DatabaseError>(DatabaseError::Decode)
                        && final(self).same_table(old(self)) && final(self).state() == old(
                        self,
                    ).state()
                },
            },
    {
        let full = self.next_dup();
        without_key(full)
    }

    /// The value of the first entry at or after that under `key` and `subkey`.
    pub fn seek_by_key_subkey(&mut self, key: &[u8], subkey: &[u8]) -> (r: Result<
        Option<Vec<u8>>,
        DatabaseError,
    >)
        requires
            old(self).dupsort(),
            key@.len() <= MAX_KEY_LEN,
        ensures
            exists|full: Result<Option<(Vec<u8>, Vec<u8>)>, DatabaseError>| #[trigger]
                final(self).stepped(
                    old(self),
                    old(self).state().to_key(composite(key@, subkey@)),
                    old(self).state().nowhere(),
                    full,
                ) && r == value_of(full),
            old(self).engine().absent() ==> r is Err,
    {
        let composite_key = encode_dupsort_key(key, subkey);
        let full = self.seek(composite_key.as_slice());
        without_key(full)
    }

    /// Where a walk over the entries of a key starts: at the entry under the subkey or the next
    /// one, at the first entry of the key, or at the first entry of the table. An entry that was
    /// found by a subkey is given with the key that was asked for.
    pub fn walk_dup(&mut self, key: Option<&[u8]>, subkey: Option<&[u8]>) -> (r: Option<
        Result<(Vec<u8>, Vec<u8>), DatabaseError>,
    >)
        requires
            old(self).dupsort(),
            key matches Some(k) ==> k@.len() <= MAX_KEY_LEN,
        ensures
            match (key, subkey) {
                (Some(k), Some(sub)) => exists|
                    full: Result<Option<(Vec<u8>, Vec<u8>)>, DatabaseError>,
                | #[trigger]
                    final(self).stepped(
                        old(self),
                        old(self).state().to_key(composite(k@, sub@)),
                        old(self).state().nowhere(),
                        full,
                    ) && value_of(as_answer(r)) == value_of(full),
                (Some(k), None) => final(self).stepped(
                    old(self),
                    old(self).state().to_key(key_prefix(k@)),
                    old(self).state().nowhere(),
                    as_answer(r),
                ),
                (None, _) => final(self).stepped(
                    old(self),
                    old(self).state().to_first(),
                    old(self).state(),
                    as_answer(r),
                ),
            },
            key is Some && subkey is Some ==> (as_answer(r) matches Ok(Some(entry)) ==> entry.0@
                == key->0@),
            old(self).engine().absent() ==> as_answer(r) is Err,
    {
        match (key, subkey) {
            (Some(k), Some(sub)) => match self.seek_by_key_subkey(k, sub) {
                Ok(Some(value)) => Some(Ok((slice_to_vec(k), value))),
                Ok(None) => None,
                Err(e) => Some(Err(e)),
            },
            (Some(k), None) => {
                let prefix = encode_key_prefix(k);
                transposed(self.seek(prefix.as_slice()))
            },
            (None, _) => transposed(self.first()),
        }
    }

    /// The stored keys of the entries under a key, as far as the walk over them does not fail.
    fn duplicates_of(&self, main: &[u8]) -> (r: Result<Vec<Vec<u8>>, DatabaseError>)
        requires
            self.state().current is Some,
            well_keyed(self.state().current->0),
            main@ == main_key(self.state().current->0),
        ensures
            match r {
                Ok(keys) => {
                    &&& forall|i: int|
                        0 <= i < keys@.len() ==> self.state().duplicate((#[trigger] keys@[i])@)
                    &&& self.reliable() ==> forall|k: Seq<u8>| #[trigger]
                        self.state().duplicate(k) ==> listed_keys(keys@).contains(k)
                },
                Err(e) => if e is Decode {
                    !self.state().well_keyed()
                } else {
                    !self.reliable() && self.unreadable(e)
                },
            },
            self.engine().absent() ==> r is Err && r->Err_0 !is Decode,
    {
        let prefix = encode_key_prefix(main);
        let mut it = match self.engine.iterator(
            IteratorMode::From(prefix.as_slice(), Direction::Forward),
        ) {
            Ok(it) => it,
            Err(e) => {
                return Err(self.read_failure(e));
            },
        };
        let ghost rows = self.engine.rows();
        let ghost list = E::left(&it);
        let mut keys: Vec<Vec<u8>> = Vec::new();
        loop
            invariant_except_break
                E::left(&it) == list.skip(keys@.len() as int),
            invariant
                rows == self.engine.rows(),
                rows == self.state().rows,
                self.state().current is Some,
                main@ == main_key(self.state().current->0),
                main@.len() <= MAX_KEY_LEN,
                prefix@ == key_prefix(main@),
                walked(rows, Direction::Forward, Some(prefix@), list),
                keys@.len() <= list.len(),
                self.reliable() ==> E::steady(&it),
                forall|i: int|
                    0 <= i < keys@.len() ==> (#[trigger] keys@[i])@ == list[i].0
                        && self.state().duplicate(keys@[i]@),
                !self.engine().absent(),
            ensures
                self.reliable() && keys@.len() < list.len() ==> !self.state().duplicate(
                    list[keys@.len() as int].0,
                ),
            decreases list.len() - keys@.len(),
        {
            let row = E::advance(&mut it);
            match row {
                None => {
                    break;
                },
                Some((key, _)) => {
                    let ghost n = keys@.len() as int;
                    assert(list.skip(n)[0] == list[n]);
                    assert(rows.contains_key(list[n].0));
                    match decode_dupsort_key(key.as_slice()) {
                        Ok((found, _)) => {
                            if !same_bytes(found.as_slice(), main) {
                                break;
                            }
                        },
                        Err(e) => {
                            return Err(e);
                        },
                    }
                    keys.push(key);
                    assert(list.skip(n).skip(1) =~= list.skip(n + 1));
                },
            }
        }
        proof {
            if self.reliable() {
                assert forall|k: Seq<u8>| #[trigger] self.state().duplicate(k) implies listed_keys(
                    keys@,
                ).contains(k) by {
                    law_stored_key_restored(k);
                    lemma_lex_prefix(prefix@, sub_key(k));
                    assert(has_key(list, k));
                    let i = choose|i: int| 0 <= i < list.len() && (#[trigger] list[i]).0 == k;
                    let n = keys@.len() as int;
                    if i >= n {
                        let stored = list[n].0;
                        assert(lex_le(stored, k)) by {
                            if n < i {
                                assert(precedes(Direction::Forward, list[n].0, list[i].0));
                            }
                            lemma_lex_total(stored, k);
                        }
                        assert(reaches(Direction::Forward, Some(prefix@), list[n].0));
                        law_duplicates_adjacent(main@, stored, sub_key(k));
                        assert(self.state().duplicate(stored));
                    } else {
                        assert(keys@[i]@ == k);
                    }
                }
            }
        }
        Ok(keys)
    }
}

impl<E: Engine> Cursor<RW, E> {
    /// Writes an entry, whether there is one with its key or not. The cursor is then at it.
    pub fn upsert(&mut self, key: &[u8], value: &[u8]) -> (r: Result<(), DatabaseError>)
        ensures
            final(self).same_table(old(self)),
            match r {
                Ok(_) => final(self).state() == old(self).state().written(key@, value@),
                Err(e) => final(self).state() == old(self).state() && !old(self).reliable() && old(
                    self,
                ).unwritable(e, DatabaseWriteOperation::Put, key@),
            },
            old(self).engine().absent() ==> r is Err,
    {
        match self.engine.put(key, value) {
            Ok(_) => {
                self.current_key = Some(slice_to_vec(key));
                Ok(())
            },
            Err(e) => Err(self.write_failure(e, DatabaseWriteOperation::Put, key)),
        }
    }

    /// Writes an entry, as `upsert` does.
    pub fn insert(&mut self, key: &[u8], value: &[u8]) -> (r: Result<(), DatabaseError>)
        ensures
            final(self).same_table(old(self)),
            match r {
                Ok(_) => final(self).state() == old(self).state().written(key@, value@),
                Err(e) => final(self).state() == old(self).state() && !old(self).reliable() && old(
                    self,
                ).unwritable(e, DatabaseWriteOperation::Put, key@),
            },
            old(self).engine().absent() ==> r is Err,
    {
        self.upsert(key, value)
    }

    /// Writes an entry, as `upsert` does.
    pub fn append(&mut self, key: &[u8], value: &[u8]) -> (r: Result<(), DatabaseError>)
        ensures
            final(self).same_table(old(self)),
            match r {
                Ok(_) => final(self).state() == old(self).state().written(key@, value@),
                Err(e) => final(self).state() == old(self).state() && !old(self).reliable() && old(
                    self,
                ).unwritable(e, DatabaseWriteOperation::Put, key@),
            },
            old(self).engine().absent() ==> r is Err,
    {
        self.upsert(key, value)
    }

    /// Deletes the entry that the cursor is at. The cursor is then at no entry.
    pub fn delete_current(&mut self) -> (r: Result<(), DatabaseError>)
        ensures
            final(self).same_table(old(self)),
            match r {
                Ok(_) => final(self).state() == old(self).state().without_current(),
                Err(e) => final(self).state() == old(self).state() && !old(self).reliable() && old(
                    self,
                ).state().current is Some && old(self).unwritable(
                    e,
                    DatabaseWriteOperation::Put,
                    old(self).state().current->0,
                ),
            },
            old(self).engine().absent() && old(self).state().current is Some ==> r is Err,
    {
        match self.current_key.take() {
            None => Ok(()),
            Some(key) => match self.engine.delete(key.as_slice()) {
                Ok(_) => Ok(()),
                Err(e) => {
                    let failure = self.write_failure(
                        e,
                        DatabaseWriteOperation::Put,
                        key.as_slice(),
                    );
                    self.current_key = Some(key);
                    Err(failure)
                },
            },
        }
    }

    /// Deletes all entries with the key of the entry that the cursor is at. The cursor is then at
    /// no entry. A stored key that cannot be read stops the search for them, and nothing is
    /// deleted.
    pub fn delete_current_duplicates(&mut self) -> (r: Result<(), DatabaseError>)
        ensures
            final(self).same_table(old(self)),
            ({
                let before = old(self).state();
                let after = final(self).state();
                match r {
                    Ok(_) => {
                        &&& after == (CursorState { rows: after.rows, ..before.nowhere() })
                        &&& before.only_duplicates_lost(after.rows)
                        &&& old(self).reliable() ==> after == before.without_duplicates()
                    },
                    Err(e) => {
                        &&& after == (CursorState { rows: after.rows, ..before })
                        &&& before.only_duplicates_lost(after.rows)
                        &&& e is Decode ==> after.rows == before.rows && !before.well_keyed()
                        &&& e !is Decode ==> !old(self).reliable() && (old(self).unreadable(e) || (
                        e is Write && old(self).unwritable(
                            e,
                            DatabaseWriteOperation::Put,
                            (e->Write_0).key@,
                        ) && before.duplicate((e->Write_0).key@)))
                    },
                }
            }),
            old(self).engine().absent() && old(self).state().current is Some ==> r is Err,
    {
        let main = match &self.current_key {
            None => {
                assert(self.state().without_duplicates().rows =~= self.state().rows);
                return Ok(());
            },
            Some(key) => match decode_dupsort_key(key.as_slice()) {
                Ok((main, _)) => main,
                Err(e) => {
                    return Err(e);
                },
            },
        };
        let keys_to_delete = match self.duplicates_of(main.as_slice()) {
            Ok(keys) => keys,
            Err(e) => {
                return Err(e);
            },
        };
        let ghost before = self.state();
        let mut i: usize = 0;
        while i < keys_to_delete.len()
            invariant
                i <= keys_to_delete@.len(),
                self.same_table(old(self)),
                before == old(self).state(),
                before.current is Some,
                well_keyed(before.current->0),
                main@ == main_key(before.current->0),
                forall|j: int|
                    0 <= j < keys_to_delete@.len() ==> before.duplicate(
                        (#[trigger] keys_to_delete@[j])@,
                    ),
                self.state() == (CursorState { rows: self.state().rows, ..before }),
                self.state().rows == before.rows.remove_keys(
                    listed_keys(keys_to_delete@.take(i as int)),
                ),
            decreases keys_to_delete@.len() - i,
        {
            let ghost done = listed_keys(keys_to_delete@.take(i as int));
            let key = keys_to_delete[i].as_slice();
            proof {
                lemma_lost(before, keys_to_delete@, i as int);
            }
            match self.engine.delete(key) {
                Ok(_) => {},
                Err(e) => {
                    return Err(self.write_failure(e, DatabaseWriteOperation::Put, key));
                },
            }
            proof {
                lemma_listed_next(keys_to_delete@, i as int);
                assert(self.state().rows =~= before.rows.remove_keys(
                    listed_keys(keys_to_delete@.take(i + 1)),
                ));
            }
            i += 1;
        }
        proof {
            lemma_lost(before, keys_to_delete@, i as int);
            assert(keys_to_delete@.take(i as int) =~= keys_to_delete@);
            if old(self).reliable() {
                assert(self.state().rows =~= before.without_duplicates().rows);
            }
        }
        self.current_key = None;
        Ok(())
    }

    /// Adds an entry under a key, with the value as the subkey. The cursor is then at it.
    pub fn append_dup(&mut self, key: &[u8], value: &[u8]) -> (r: Result<(), DatabaseError>)
        requires
            key@.len() <= MAX_KEY_LEN,
        ensures
            final(self).same_table(old(self)),
            match r {
                Ok(_) => final(self).state() == old(self).state().written(
                    composite(key@, value@),
                    value@,
                ),
                Err(e) => final(self).state() == old(self).state() && !old(self).reliable() && old(
                    self,
                ).unwritable(
                    e,
                    DatabaseWriteOperation::CursorAppendDup,
                    composite(key@, value@),
                ),
            },
            old(self).engine().absent() ==> r is Err,
    {
        let composite_key = encode_dupsort_key(key, value);
        match self.engine.put(composite_key.as_slice(), value) {
            Ok(_) => {
                self.current_key = Some(composite_key);
                Ok(())
            },
            Err(e) => Err(
                self.write_failure(
                    e,
                    DatabaseWriteOperation::CursorAppendDup,
                    composite_key.as_slice(),
                ),
            ),
        }
    }
}

/// The stored keys of a list.
pub open spec fn listed_keys(keys: Seq<Vec<u8>>) -> Set<Seq<u8>> {
    Set::new(|k: Seq<u8>| exists|i: int| 0 <= i < keys.len() && (#[trigger] keys[i])@ == k)
}

/// One more key of a list.
proof fn lemma_listed_next(keys: Seq<Vec<u8>>, i: int)
    requires
        0 <= i < keys.len(),
    ensures
        listed_keys(keys.take(i + 1)) == listed_keys(keys.take(i)).insert(keys[i]@),
{
    let a = keys.take(i);
    let b = keys.take(i + 1);
    assert forall|k: Seq<u8>|
        listed_keys(b).contains(k) == listed_keys(a).insert(keys[i]@).contains(k) by {
        if listed_keys(b).contains(k) {
            let j = choose|j: int| 0 <= j < b.len() && (#[trigger] b[j])@ == k;
            if j < i {
                assert(a[j]@ == k);
            }
        }
        if listed_keys(a).contains(k) {
            let j = choose|j: int| 0 <= j < a.len() && (#[trigger] a[j])@ == k;
            assert(b[j]@ == k);
        }
        assert(b[i] == keys[i]);
    }
    assert(listed_keys(b) =~= listed_keys(a).insert(keys[i]@));
}

/// Where the keys of a list are those of duplicates, no other entry is lost with them.
proof fn lemma_lost(before: CursorState, keys: Seq<Vec<u8>>, i: int)
    requires
        0 <= i <= keys.len(),
        forall|j: int| 0 <= j < keys.len() ==> before.duplicate((#[trigger] keys[j])@),
    ensures
        before.only_duplicates_lost(before.rows.remove_keys(listed_keys(keys.take(i)))),
{
    let a = keys.take(i);
    assert forall|k: Seq<u8>| listed_keys(a).contains(k) implies before.duplicate(k) by {
        let j = choose|j: int| 0 <= j < a.len() && (#[trigger] a[j])@ == k;
        assert(keys[j]@ == k);
    }
}

/// An end of a range of keys.
#[derive(Debug, Clone, Copy, PartialEq, Eq)]
pub enum KeyBound<'a> {
    /// The key belongs to the range.
    Included(&'a [u8]),
    /// The key does not belong to the range.
    Excluded(&'a [u8]),
    /// The range has no end there.
    Unbounded,
}

impl<'a> KeyBound<'a> {
    /// The key at the end of the range.
    pub open spec fn key(self) -> Option<Seq<u8>> {
        match self {
            KeyBound::Included(key) => Some(key@),
            KeyBound::Excluded(key) => Some(key@),
            KeyBound::Unbounded => None,
        }
    }
}

/// An answer as the start of a walk over entries.
fn transposed(r: Result<Option<(Vec<u8>, Vec<u8>)>, DatabaseError>) -> (s: Option<
    Result<(Vec<u8>, Vec<u8>), DatabaseError>,
>)
    ensures
        as_answer(s) == r,
{
    match r {
        Ok(Some(entry)) => Some(Ok(entry)),
        Ok(None) => None,
        Err(e) => Some(Err(e)),
    }
}

/// An answer without the key.
fn without_key(r: Result<Option<(Vec<u8>, Vec<u8>)>, DatabaseError>) -> (v: Result<
    Option<Vec<u8>>,
    DatabaseError,
>)
    ensures
        v == value_of(r),
{
    match r {
        Ok(Some((_, value))) => Ok(Some(value)),
        Ok(None) => Ok(None),
        Err(e) => Err(e),
    }
}

} // verus!
