//! Transactions over the databases of the state, of the account trie and of the storage tries.

use std::marker::PhantomData;
use vstd::prelude::*;
use vstd::slice::slice_to_vec;

use crate::batch::{
    all_applied, applied, greatest_key, op_views, smallest_key, BatchOp, Database, OpV, TableRows,
};
use crate::bytes::lemma_lex_total;
use crate::database::{cf_missing, cf_not_found, commit_error, engine_error, read_error};
use crate::engine::Rows;
use crate::errors::DatabaseError;
use crate::text::{chars_of, number, parse_u64, same_text};
use crate::transaction::{TransactionKind, RW};

verus! {

/// Which database a table lies in.
#[derive(Debug, Clone, Copy, PartialEq, Eq, Structural)]
pub enum Place {
    /// That of the state.
    State,
    /// That of the account trie.
    Account,
    /// That of the storage tries.
    Storage,
}

/// The database of a table.
pub open spec fn place_of(table: Seq<char>) -> Place {
    if table == "AccountsTrieV2"@ {
        Place::Account
    } else if table == "StoragesTrieV2"@ {
        Place::Storage
    } else {
        Place::State
    }
}

/// The database of a table.
pub fn place_for(table: &str) -> (r: Place)
    ensures
        r == place_of(table@),
        r == Place::Account <==> table@ == "AccountsTrieV2"@,
        r == Place::Storage <==> table@ == "StoragesTrieV2"@,
{
    proof {
        law_places(table@);
    }

    let name = chars_of(table);
    let accounts = chars_of("AccountsTrieV2");
    let storages = chars_of("StoragesTrieV2");
    if same_text(name.as_slice(), accounts.as_slice()) {
        Place::Account
    } else if same_text(name.as_slice(), storages.as_slice()) {
        Place::Storage
    } else {
        Place::State
    }
}

/// The table of the account trie lies in the database of the account trie, that of the storage
/// tries in the database of the storage tries, and every other one in that of the state.
pub proof fn law_places(table: Seq<char>)
    ensures
        place_of("AccountsTrieV2"@) == Place::Account,
        place_of("StoragesTrieV2"@) == Place::Storage,
        table != "AccountsTrieV2"@ && table != "StoragesTrieV2"@ ==> place_of(table)
            == Place::State,
        place_of(table) == Place::Account ==> table == "AccountsTrieV2"@,
        place_of(table) == Place::Storage ==> table == "StoragesTrieV2"@,
{
    reveal_strlit("AccountsTrieV2");
    reveal_strlit("StoragesTrieV2");
    assert("AccountsTrieV2"@[0] != "StoragesTrieV2"@[0]);
}

/// There is no such table.
pub open spec fn no_table(e: DatabaseError, table: Seq<char>) -> bool {
    e matches DatabaseError::Open(info) && engine_error(info, cf_missing(table))
}

/// The number of entries that an estimate tells: none where there is no estimate.
pub open spec fn counted(
    estimate: Result<Option<String>, String>,
    r: Result<usize, DatabaseError>,
) -> bool {
    match estimate {
        Ok(Some(text)) => match number(text@, usize::MAX as nat) {
            Some(n) => r matches Ok(count) && count == n,
            None => r matches Err(DatabaseError::Read(info)) && engine_error(
                info,
                "Failed to parse estimated number of keys"@,
            ),
        },
        Ok(None) => r matches Ok(count) && count == 0,
        Err(message) => r matches Err(DatabaseError::Read(info)) && engine_error(info, message@),
    }
}

/// An estimate that is a number is told as it is, and one that is missing as none. One that is no
/// number, and a failed read, are failed reads.
pub proof fn law_estimates(
    estimate: Result<Option<String>, String>,
    r: Result<usize, DatabaseError>,
    n: usize,
)
    requires
        counted(estimate, r),
    ensures
        estimate matches Ok(Some(text)) ==> number(text@, usize::MAX as nat) == Some(n as nat)
            ==> r == Ok::<usize, DatabaseError>(n),
        estimate matches Ok(Some(text)) ==> number(text@, usize::MAX as nat) is None ==> (
        r matches Err(DatabaseError::Read(info)) && info.message@
            == "Failed to parse estimated number of keys"@ && info.code == -1),
        estimate matches Ok(None) ==> r == Ok::<usize, DatabaseError>(0),
        estimate matches Err(message) ==> (r matches Err(DatabaseError::Read(info)) && info.message@
            == message@ && info.code == -1),
{
}

/// The number of entries that an estimate tells.
pub fn entries_of(estimate: Result<Option<String>, String>) -> (r: Result<usize, DatabaseError>)
    ensures
        counted(estimate, r),
        estimate == Ok::<Option<String>, String>(None) ==> r == Ok::<usize, DatabaseError>(0),
        estimate matches Ok(Some(text)) ==> (number(text@, usize::MAX as nat) matches Some(n) ==> r
            == Ok::<usize, DatabaseError>(n as usize)),
        estimate matches Ok(Some(text)) ==> (number(text@, usize::MAX as nat) is None ==> (
        r matches Err(DatabaseError::Read(info)) && info.message@
            == "Failed to parse estimated number of keys"@)),
        estimate matches Err(message) ==> (r matches Err(DatabaseError::Read(info)) && info.message@
            == message@),
{
    match estimate {
        Ok(Some(text)) => {
            let digits = chars_of(text.as_str());
            match parse_u64(digits.as_slice()) {
                Some(n) if n <= usize::MAX as u64 => Ok(n as usize),
                _ => Err(read_error("Failed to parse estimated number of keys")),
            }
        },
        Ok(None) => Ok(0),
        Err(message) => Err(read_error(message.as_str())),
    }
}

/// A transaction. What it writes is kept in one batch for each database until it is committed,
/// and what it reads is what was committed before.
pub struct Tx<K: TransactionKind, D: Database> {
    state_db: D,
    account_db: D,
    storage_db: D,
    state_batch: Vec<BatchOp>,
    account_batch: Vec<BatchOp>,
    storage_batch: Vec<BatchOp>,
    mode: PhantomData<K>,
}

impl<K: TransactionKind, D: Database> Tx<K, D> {
    /// A database.
    pub closed spec fn db(&self, place: Place) -> D {
        match place {
            Place::State => self.state_db,
            Place::Account => self.account_db,
            Place::Storage => self.storage_db,
        }
    }

    /// The tables of a database.
    pub open spec fn tables(&self, place: Place) -> TableRows {
        self.db(place).tables()
    }

    /// The writes to a database that wait for the commit.
    pub closed spec fn batch(&self, place: Place) -> Seq<OpV> {
        match place {
            Place::State => op_views(self.state_batch@),
            Place::Account => op_views(self.account_batch@),
            Place::Storage => op_views(self.storage_batch@),
        }
    }

    /// The tables of a database with the waiting writes.
    pub open spec fn committed(&self, place: Place) -> TableRows {
        all_applied(self.tables(place), self.batch(place))
    }

    /// No database fails.
    pub closed spec fn reliable(&self) -> bool {
        self.state_db.reliable() && self.account_db.reliable() && self.storage_db.reliable()
    }

    /// There is such a table.
    pub open spec fn has_table(&self, table: Seq<char>) -> bool {
        self.tables(place_of(table)).contains_key(table)
    }

    /// The rows of a table.
    pub open spec fn rows(&self, table: Seq<char>) -> Rows {
        self.tables(place_of(table))[table]
    }

    /// The databases are the same, and the waiting writes are the same but for those to `place`,
    /// which are `batch`.
    pub open spec fn batched(&self, before: &Self, place: Place, batch: Seq<OpV>) -> bool {
        &&& forall|p: Place| #[trigger] self.db(p) == before.db(p)
        &&& forall|p: Place| #[trigger] self.tables(p) == before.tables(p)
        &&& forall|p: Place|
            #[trigger] self.batch(p) == if p == place {
                batch
            } else {
                before.batch(p)
            }
        &&& self.reliable() == before.reliable()
    }

    /// A transaction that has written nothing.
    pub fn new(state_db: D, account_db: D, storage_db: D) -> (r: Self)
        ensures
            r.db(Place::State) == state_db,
            r.db(Place::Account) == account_db,
            r.db(Place::Storage) == storage_db,
            r.tables(Place::State) == state_db.tables(),
            r.tables(Place::Account) == account_db.tables(),
            r.tables(Place::Storage) == storage_db.tables(),
            forall|p: Place| #[trigger] r.batch(p) == Seq::<OpV>::empty(),
            r.reliable() == (state_db.reliable() && account_db.reliable()
                && storage_db.reliable()),
    {
        let r = Tx {
            state_db,
            account_db,
            storage_db,
            state_batch: Vec::new(),
            account_batch: Vec::new(),
            storage_batch: Vec::new(),
            mode: PhantomData,
        };
        assert(op_views(r.state_batch@) =~= Seq::<OpV>::empty());
        assert(op_views(r.account_batch@) =~= Seq::<OpV>::empty());
        assert(op_views(r.storage_batch@) =~= Seq::<OpV>::empty());
        r
    }

    /// The database of a table.
    fn db_for_table(&self, table: &str) -> (r: &D)
        ensures
            *r == self.db(place_of(table@)),
            r.tables() == self.tables(place_of(table@)),
            self.reliable() ==> r.reliable(),
    {
        match place_for(table) {
            Place::State => &self.state_db,
            Place::Account => &self.account_db,
            Place::Storage => &self.storage_db,
        }
    }

    /// Adds a write to the batch of its table.
    fn push(&mut self, table: &str, op: BatchOp)
        ensures
            final(self).batched(
                old(self),
                place_of(table@),
                old(self).batch(place_of(table@)).push(op@),
            ),
    {
        match place_for(table) {
            Place::State => {
                self.state_batch.push(op);
                assert(op_views(self.state_batch@) =~= old(self).batch(Place::State).push(op@));
            },
            Place::Account => {
                self.account_batch.push(op);
                assert(op_views(self.account_batch@) =~= old(self).batch(Place::Account).push(
                    op@,
                ));
            },
            Place::Storage => {
                self.storage_batch.push(op);
                assert(op_views(self.storage_batch@) =~= old(self).batch(Place::Storage).push(
                    op@,
                ));
            },
        }
    }

    /// About how many entries a table has.
    pub fn table_entries(&self, name: &str) -> (r: Result<usize, DatabaseError>)
        ensures
            if self.has_table(name@) {
                exists|estimate: Result<Option<String>, String>| #[trigger]
                    call_ensures(D::estimate, (&self.db(place_of(name@)), name), estimate)
                        && counted(estimate, r)
            } else {
                r matches Err(e) && no_table(e, name@)
            },
    {
        let db = self.db_for_table(name);
        if !db.has_table(name) {
            return Err(cf_not_found(name));
        }
        let estimate = db.estimate(name);
        entries_of(estimate)
    }

    /// About how many entries a table has, as `table_entries` does.
    pub fn entries(&self, name: &str) -> (r: Result<usize, DatabaseError>)
        ensures
            if self.has_table(name@) {
                exists|estimate: Result<Option<String>, String>| #[trigger]
                    call_ensures(D::estimate, (&self.db(place_of(name@)), name), estimate)
                        && counted(estimate, r)
            } else {
                r matches Err(e) && no_table(e, name@)
            },
    {
        self.table_entries(name)
    }

    /// The value of a key.
    pub fn get(&self, table: &str, key: &[u8]) -> (r: Result<Option<Vec<u8>>, DatabaseError>)
        ensures
            match r {
                Ok(Some(value)) => self.has_table(table@) && self.rows(table@).contains_key(key@)
                    && value@ == self.rows(table@)[key@],
                Ok(None) => self.has_table(table@) && !self.rows(table@).contains_key(key@),
                Err(e) => if self.has_table(table@) {
                    !self.reliable() && exists|message: String| #[trigger]
                        call_ensures(
                            D::get,
                            (&self.db(place_of(table@)), table, key),
                            Err::<Option<Vec<u8>>, String>(message),
                        ) && (e matches DatabaseError::Read(info) && engine_error(info, message@))
                } else {
                    no_table(e, table@)
                },
            },
    {
        let db = self.db_for_table(table);
        if !db.has_table(table) {
            return Err(cf_not_found(table));
        }
        match db.get(table, key) {
            Ok(found) => Ok(found),
            Err(message) => Err(read_error(message.as_str())),
        }
    }

    /// Writes the batches: those of the tries first, and that of the state only after them.
    pub fn commit(&mut self) -> (r: Result<bool, DatabaseError>)
        ensures
            final(self).reliable() == old(self).reliable(),
            forall|p: Place|
                #[trigger] final(self).tables(p) == old(self).tables(p) || final(self).tables(p)
                    == old(self).committed(p),
            match r {
                Ok(done) => {
                    &&& done
                    &&& forall|p: Place| #[trigger] final(self).tables(p) == old(self).committed(p)
                    &&& forall|p: Place| #[trigger] final(self).batch(p) == Seq::<OpV>::empty()
                },
                Err(e) => {
                    &&& !old(self).reliable()
                    &&& exists|p: Place| #[trigger]
                        old(self).batch(p).len() > 0 && write_failed(
                            old(self).db(p),
                            old(self).batch(p),
                            e,
                        )
                    &&& final(self).tables(Place::State) == old(self).tables(Place::State)
                },
            },
            forall|p: Place| #[trigger]
                old(self).batch(p).len() == 0 ==> final(self).db(p) == old(self).db(p),
            (forall|p: Place| #[trigger] old(self).batch(p).len() == 0) ==> r is Ok,
    {
        let mut account_batch: Vec<BatchOp> = Vec::new();
        let mut storage_batch: Vec<BatchOp> = Vec::new();
        let mut state_batch: Vec<BatchOp> = Vec::new();
        std::mem::swap(&mut account_batch, &mut self.account_batch);
        std::mem::swap(&mut storage_batch, &mut self.storage_batch);
        let account = written(&mut self.account_db, account_batch);
        let storage = written(&mut self.storage_db, storage_batch);
        match account {
            Ok(_) => {},
            Err(e) => {
                assert(old(self).batch(Place::Account).len() > 0);
                return Err(e);
            },
        }
        match storage {
            Ok(_) => {},
            Err(e) => {
                assert(old(self).batch(Place::Storage).len() > 0);
                return Err(e);
            },
        }
        std::mem::swap(&mut state_batch, &mut self.state_batch);
        match written(&mut self.state_db, state_batch) {
            Ok(_) => {},
            Err(e) => {
                assert(old(self).batch(Place::State).len() > 0);
                return Err(e);
            },
        }
        assert(op_views(self.state_batch@) =~= Seq::<OpV>::empty());
        assert(op_views(self.account_batch@) =~= Seq::<OpV>::empty());
        assert(op_views(self.storage_batch@) =~= Seq::<OpV>::empty());
        Ok(true)
    }

    /// Gives the waiting writes up. The databases are as they were.
    pub fn abort(self) -> (r: (D, D, D))
        ensures
            r.0 == self.db(Place::State),
            r.1 == self.db(Place::Account),
            r.2 == self.db(Place::Storage),
    {
        (self.state_db, self.account_db, self.storage_db)
    }
}

/// `e` tells that the write of a batch failed, and what the failure was.
pub open spec fn write_failed<D: Database>(db: D, ops: Seq<OpV>, e: DatabaseError) -> bool {
    e matches DatabaseError::Commit(info) && info.code == -1 && db.write_fails(ops, info.message@)
}

/// Writes a batch to a database. An empty batch is not written.
fn written<D: Database>(db: &mut D, batch: Vec<BatchOp>) -> (r: Result<(), DatabaseError>)
    ensures
        final(db).reliable() == old(db).reliable(),
        match r {
            Ok(_) => final(db).tables() == all_applied(old(db).tables(), op_views(batch@)),
            Err(e) => final(db).tables() == old(db).tables() && !old(db).reliable()
                && write_failed(*old(db), op_views(batch@), e),
        },
        batch@.len() == 0 ==> r is Ok && *final(db) == *old(db),
{
    if batch.len() == 0 {
        return Ok(());
    }
    match db.write(batch) {
        Ok(_) => Ok(()),
        Err(message) => Err(commit_error(message.as_str())),
    }
}

impl<D: Database> Tx<RW, D> {
    /// Sets the value of a key, when the transaction is committed.
    pub fn put(&mut self, table: &str, key: &[u8], value: &[u8]) -> (r: Result<(), DatabaseError>)
        ensures
            match r {
                Ok(_) => old(self).has_table(table@) && final(self).batched(
                    old(self),
                    place_of(table@),
                    old(self).batch(place_of(table@)).push(
                        OpV::Put { table: table@, key: key@, value: value@ },
                    ),
                ),
                Err(e) => !old(self).has_table(table@) && no_table(e, table@) && *final(self)
                    == *old(self),
            },
    {
        if !self.db_for_table(table).has_table(table) {
            return Err(cf_not_found(table));
        }
        self.push(
            table,
            BatchOp::Put {
                table: table.to_owned(),
                key: slice_to_vec(key),
                value: slice_to_vec(value),
            },
        );
        Ok(())
    }

    /// Takes a key out, when the transaction is committed. The answer does not tell whether the
    /// key is there.
    pub fn delete(&mut self, table: &str, key: &[u8]) -> (r: Result<bool, DatabaseError>)
        ensures
            match r {
                Ok(done) => done && old(self).has_table(table@) && final(self).batched(
                    old(self),
                    place_of(table@),
                    old(self).batch(place_of(table@)).push(
                        OpV::Delete { table: table@, key: key@ },
                    ),
                ),
                Err(e) => !old(self).has_table(table@) && no_table(e, table@) && *final(self)
                    == *old(self),
            },
    {
        if !self.db_for_table(table).has_table(table) {
            return Err(cf_not_found(table));
        }
        self.push(table, BatchOp::Delete { table: table.to_owned(), key: slice_to_vec(key) });
        Ok(true)
    }

    /// Takes all rows of a table out, when the transaction is committed: those from the first
    /// key on and before the last one, and the last one. A table that seems empty is left alone.
    pub fn clear(&mut self, table: &str) -> (r: Result<(), DatabaseError>)
        ensures
            match r {
                Ok(_) => {
                    &&& old(self).has_table(table@)
                    &&& *final(self) == *old(self) && (old(self).reliable() ==> old(self).rows(
                        table@,
                    ) == Map::<Seq<u8>, Seq<u8>>::empty()) || exists|
                        first: Seq<u8>,
                        last: Seq<u8>,
                    |
                        smallest_key(old(self).rows(table@), first) && greatest_key(
                            old(self).rows(table@),
                            last,
                        ) && #[trigger] final(self).batched(
                            old(self),
                            place_of(table@),
                            old(self).batch(place_of(table@)) + clearing(table@, first, last),
                        )
                },
                Err(e) => !old(self).has_table(table@) && no_table(e, table@) && *final(self)
                    == *old(self),
            },
    {
        let db = self.db_for_table(table);
        if !db.has_table(table) {
            return Err(cf_not_found(table));
        }
        let first = match db.first_key(table) {
            Some(key) => key,
            None => {
                return Ok(());
            },
        };
        let last = match db.last_key(table) {
            Some(key) => key,
            None => {
                return Ok(());
            },
        };
        let ghost first_view = first@;
        let ghost last_view = last@;
        let end = slice_to_vec(last.as_slice());
        self.push(table, BatchOp::DeleteRange { table: table.to_owned(), from: first, to: last });
        let ghost middle = *self;
        self.push(table, BatchOp::Delete { table: table.to_owned(), key: end });
        proof {
            let p = place_of(table@);
            let ops = old(self).batch(p) + clearing(table@, first_view, last_view);
            assert(self.batch(p) =~= ops);
            assert forall|q: Place| #[trigger] self.batch(q) == if q == p {
                ops
            } else {
                old(self).batch(q)
            } by {
                assert(middle.batch(q) == middle.batch(q));
            }
            assert forall|q: Place| #[trigger] self.db(q) == old(self).db(q) by {
                assert(middle.db(q) == old(self).db(q));
            }
            assert forall|q: Place| #[trigger] self.tables(q) == old(self).tables(q) by {
                assert(middle.tables(q) == old(self).tables(q));
            }
            assert(self.batched(old(self), p, ops));
        }
        Ok(())
    }
}

/// A failed commit is told as one, with the words of the database. A table that is missing is told
/// by its name.
pub proof fn law_failures_of_transactions<D: Database>(
    db: D,
    ops: Seq<OpV>,
    e: DatabaseError,
    missing: DatabaseError,
    table: Seq<char>,
)
    requires
        write_failed(db, ops, e),
        no_table(missing, table),
    ensures
        e matches DatabaseError::Commit(info) && info.code == -1 && db.write_fails(
            ops,
            info.message@,
        ),
        missing matches DatabaseError::Open(info) && info.code == -1 && info.message@
            == "Column family '"@ + table + "' not found"@,
{
}

/// The writes that clear a table.
pub open spec fn clearing(table: Seq<char>, first: Seq<u8>, last: Seq<u8>) -> Seq<OpV> {
    seq![OpV::DeleteRange { table, from: first, to: last }, OpV::Delete { table, key: last }]
}

/// The writes that clear a table leave it without rows, and all other tables as they were.
pub proof fn law_clearing(tables: TableRows, table: Seq<char>, first: Seq<u8>, last: Seq<u8>)
    requires
        tables.contains_key(table),
        smallest_key(tables[table], first),
        greatest_key(tables[table], last),
    ensures
        all_applied(tables, clearing(table, first, last)) == tables.insert(table, Map::empty()),
{
    let ops = clearing(table, first, last);
    let range = ops[0];
    let end = ops[1];
    assert(ops.drop_last() =~= seq![range]);
    assert(seq![range].drop_last() =~= Seq::<OpV>::empty());
    assert(all_applied(tables, Seq::<OpV>::empty()) == tables);
    assert(all_applied(tables, seq![range]) == applied(tables, range));
    let rows = end.on_rows(range.on_rows(tables[table]));
    assert forall|k: Seq<u8>| !(#[trigger] rows.contains_key(k)) by {
        if tables[table].contains_key(k) {
            lemma_lex_total(k, last);
        }
    }
    assert(rows =~= Map::<Seq<u8>, Seq<u8>>::empty());
    assert(all_applied(tables, ops) =~= tables.insert(table, Map::empty()));
}

/// What waits in a transaction is committed as a batch of writes, one after the other: the tables
/// after a commit are those before it with every write made.
pub proof fn law_waiting_writes<K: TransactionKind, D: Database>(tx: Tx<K, D>, place: Place)
    ensures
        tx.committed(place) == all_applied(tx.db(place).tables(), tx.batch(place)),
        tx.batch(place).len() == 0 ==> tx.committed(place) == tx.db(place).tables(),
{
}

/// After a write is committed the key has its value, and after a deletion it has none.
pub proof fn law_last_write_counts(
    tables: TableRows,
    ops: Seq<OpV>,
    table: Seq<char>,
    key: Seq<u8>,
    value: Seq<u8>,
)
    requires
        tables.contains_key(table),
    ensures
        ({
            let put = all_applied(tables, ops.push(OpV::Put { table, key, value }));
            put.contains_key(table) && put[table].contains_key(key) && put[table][key] == value
        }),
        ({
            let deleted = all_applied(tables, ops.push(OpV::Delete { table, key }));
            deleted.contains_key(table) && !deleted[table].contains_key(key)
        }),
{
    let put = ops.push(OpV::Put { table, key, value });
    let deleted = ops.push(OpV::Delete { table, key });
    assert(put.drop_last() =~= ops);
    assert(deleted.drop_last() =~= ops);
    lemma_same_tables(tables, ops);
}

/// What was committed is read by any later transaction over the same databases: where `after` is
/// `before` after a commit that wrote `value` last, a transaction `later` over the databases of
/// `after` finds it.
pub proof fn law_committed_is_read<K: TransactionKind, L: TransactionKind, D: Database>(
    before: Tx<K, D>,
    after: Tx<K, D>,
    later: Tx<L, D>,
    ops: Seq<OpV>,
    table: Seq<char>,
    key: Seq<u8>,
    value: Seq<u8>,
)
    requires
        before.has_table(table),
        before.batch(place_of(table)) == ops.push(OpV::Put { table, key, value }),
        after.tables(place_of(table)) == before.committed(place_of(table)),
        later.db(place_of(table)) == after.db(place_of(table)),
    ensures
        later.has_table(table),
        later.rows(table).contains_key(key),
        later.rows(table)[key] == value,
{
    law_last_write_counts(before.tables(place_of(table)), ops, table, key, value);
}

/// A batch neither adds tables nor takes any away.
proof fn lemma_same_tables(tables: TableRows, ops: Seq<OpV>)
    ensures
        all_applied(tables, ops).dom() == tables.dom(),
    decreases ops.len(),
{
    if ops.len() > 0 {
        lemma_same_tables(tables, ops.drop_last());
        assert(all_applied(tables, ops).dom() =~= tables.dom());
    }
}

/// A write that waits changes neither the databases nor what waits for another one.
pub proof fn law_a_write_waits<K: TransactionKind, D: Database>(
    before: Tx<K, D>,
    after: Tx<K, D>,
    place: Place,
    ops: Seq<OpV>,
    other: Place,
)
    requires
        after.batched(&before, place, ops),
    ensures
        after.batch(place) == ops,
        other != place ==> after.batch(other) == before.batch(other),
        after.db(other) == before.db(other),
        after.tables(other) == before.tables(other),
        after.reliable() == before.reliable(),
{
    assert(after.batch(place) == after.batch(place));
    assert(after.batch(other) == after.batch(other));
    assert(after.tables(other) == before.tables(other));
    assert(after.db(other) == before.db(other));
}

} // verus!
