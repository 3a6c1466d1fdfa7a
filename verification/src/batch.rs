//! Databases of several tables, and batches of writes to them.

use vstd::prelude::*;

use crate::bytes::{lemma_lex_total, lex_le};
use crate::engine::{has_key, key_range, precedes, reaches, Engine, IteratorMode, MemoryTable, Rows};
use crate::text::{chars_of, same_text, CharSeq};

verus! {

/// A write to a table.
#[derive(Debug, PartialEq, Eq)]
pub enum BatchOp {
    /// Sets the value of a key.
    Put {
        /// The table.
        table: String,
        /// The key.
        key: Vec<u8>,
        /// The value.
        value: Vec<u8>,
    },
    /// Takes a key out.
    Delete {
        /// The table.
        table: String,
        /// The key.
        key: Vec<u8>,
    },
    /// Takes the keys from one on and before another out.
    DeleteRange {
        /// The table.
        table: String,
        /// The first key.
        from: Vec<u8>,
        /// The key behind the last one.
        to: Vec<u8>,
    },
}

/// The model of a write.
pub enum OpV {
    /// Sets the value of a key.
    Put {
        /// The table.
        table: Seq<char>,
        /// The key.
        key: Seq<u8>,
        /// The value.
        value: Seq<u8>,
    },
    /// Takes a key out.
    Delete {
        /// The table.
        table: Seq<char>,
        /// The key.
        key: Seq<u8>,
    },
    /// Takes a range of keys out.
    DeleteRange {
        /// The table.
        table: Seq<char>,
        /// The first key.
        from: Seq<u8>,
        /// The key behind the last one.
        to: Seq<u8>,
    },
}

impl View for BatchOp {
    type V = OpV;

    open spec fn view(&self) -> OpV {
        match self {
            BatchOp::Put { table, key, value } => OpV::Put {
                table: table@,
                key: key@,
                value: value@,
            },
            BatchOp::Delete { table, key } => OpV::Delete { table: table@, key: key@ },
            BatchOp::DeleteRange { table, from, to } => OpV::DeleteRange {
                table: table@,
                from: from@,
                to: to@,
            },
        }
    }
}

impl OpV {
    /// The table.
    pub open spec fn table(self) -> Seq<char> {
        match self {
            OpV::Put { table, .. } => table,
            OpV::Delete { table, .. } => table,
            OpV::DeleteRange { table, .. } => table,
        }
    }

    /// The rows of the table after the write.
    pub open spec fn on_rows(self, rows: Rows) -> Rows {
        match self {
            OpV::Put { key, value, .. } => rows.insert(key, value),
            OpV::Delete { key, .. } => rows.remove(key),
            OpV::DeleteRange { from, to, .. } => rows.remove_keys(key_range(from, to)),
        }
    }
}

/// The models of writes, one after the other.
pub type OpList = Seq<OpV>;

/// Tables by name.
pub type TableRows = Map<Seq<char>, Rows>;

/// The tables after a write. One to a table that does not exist changes nothing.
pub open spec fn applied(tables: TableRows, op: OpV) -> TableRows {
    if tables.contains_key(op.table()) {
        tables.insert(op.table(), op.on_rows(tables[op.table()]))
    } else {
        tables
    }
}

/// The tables after a batch of writes, one after the other.
pub open spec fn all_applied(tables: TableRows, ops: Seq<OpV>) -> TableRows
    decreases ops.len(),
{
    if ops.len() == 0 {
        tables
    } else {
        applied(all_applied(tables, ops.drop_last()), ops.last())
    }
}

/// A write of a value sets that key of that table, and leaves every other key and table alone.
pub proof fn law_put(
    tables: TableRows,
    table: Seq<char>,
    key: Seq<u8>,
    value: Seq<u8>,
    other_table: Seq<char>,
    other_key: Seq<u8>,
)
    requires
        tables.contains_key(table),
    ensures
        ({
            let after = applied(tables, OpV::Put { table, key, value });
            &&& after.contains_key(table)
            &&& after[table].contains_key(key) && after[table][key] == value
            &&& other_key != key ==> after[table].contains_key(other_key)
                == tables[table].contains_key(other_key)
            &&& other_key != key && tables[table].contains_key(other_key)
                ==> after[table][other_key] == tables[table][other_key]
            &&& other_table != table ==> after.contains_key(other_table) == tables.contains_key(
                other_table,
            )
            &&& other_table != table && tables.contains_key(other_table) ==> after[other_table]
                == tables[other_table]
        }),
{
}

/// A deletion takes that key of that table out, and leaves every other key and table alone.
pub proof fn law_delete(
    tables: TableRows,
    table: Seq<char>,
    key: Seq<u8>,
    other_table: Seq<char>,
    other_key: Seq<u8>,
)
    requires
        tables.contains_key(table),
    ensures
        ({
            let after = applied(tables, OpV::Delete { table, key });
            &&& after.contains_key(table)
            &&& !after[table].contains_key(key)
            &&& other_key != key ==> after[table].contains_key(other_key)
                == tables[table].contains_key(other_key)
            &&& other_key != key && tables[table].contains_key(other_key)
                ==> after[table][other_key] == tables[table][other_key]
            &&& other_table != table ==> after.contains_key(other_table) == tables.contains_key(
                other_table,
            )
            &&& other_table != table && tables.contains_key(other_table) ==> after[other_table]
                == tables[other_table]
        }),
{
}

/// A deletion of a range takes the keys from its start on and before its end out of that table, and
/// leaves every other key and table alone.
pub proof fn law_delete_range(
    tables: TableRows,
    table: Seq<char>,
    from: Seq<u8>,
    to: Seq<u8>,
    key: Seq<u8>,
    other_table: Seq<char>,
)
    requires
        tables.contains_key(table),
    ensures
        ({
            let after = applied(tables, OpV::DeleteRange { table, from, to });
            let within = lex_le(from, key) && lex_le(key, to) && key != to;
            &&& after.contains_key(table)
            &&& within ==> !after[table].contains_key(key)
            &&& !within ==> after[table].contains_key(key) == tables[table].contains_key(key)
            &&& !within && tables[table].contains_key(key) ==> after[table][key]
                == tables[table][key]
            &&& other_table != table ==> after.contains_key(other_table) == tables.contains_key(
                other_table,
            )
            &&& other_table != table && tables.contains_key(other_table) ==> after[other_table]
                == tables[other_table]
        }),
{
}

/// A write is what it says: its table, its keys and its value.
pub proof fn law_writes(table: String, key: Vec<u8>, value: Vec<u8>)
    ensures
        (BatchOp::Put { table, key, value })@ == (OpV::Put {
            table: table@,
            key: key@,
            value: value@,
        }),
        (BatchOp::Delete { table, key })@ == (OpV::Delete { table: table@, key: key@ }),
        (BatchOp::DeleteRange { table, from: key, to: value })@ == (OpV::DeleteRange {
            table: table@,
            from: key@,
            to: value@,
        }),
{
}

/// A list of writes is its writes, one by one and in order.
pub proof fn law_lists_of_writes(ops: Seq<BatchOp>, i: int)
    ensures
        op_views(ops).len() == ops.len(),
        0 <= i < ops.len() ==> op_views(ops)[i] == ops[i]@,
{
}

/// A batch makes all of its writes, in their order. A write to a table that does not exist makes
/// no change.
pub proof fn law_batch_in_order(tables: TableRows, ops: Seq<OpV>, op: OpV)
    ensures
        all_applied(tables, Seq::empty()) == tables,
        all_applied(tables, ops.push(op)) == applied(all_applied(tables, ops), op),
        !tables.contains_key(op.table()) ==> applied(tables, op) == tables,
{
    assert(ops.push(op).drop_last() =~= ops);
}

/// The models of writes.
pub open spec fn op_views(ops: Seq<BatchOp>) -> Seq<OpV> {
    ops.map_values(|op: BatchOp| op@)
}

/// `key` is the smallest key of the rows.
pub open spec fn smallest_key(rows: Rows, key: Seq<u8>) -> bool {
    rows.contains_key(key) && forall|k: Seq<u8>| #[trigger] rows.contains_key(k) ==> lex_le(key, k)
}

/// `key` is the greatest key of the rows.
pub open spec fn greatest_key(rows: Rows, key: Seq<u8>) -> bool {
    rows.contains_key(key) && forall|k: Seq<u8>| #[trigger] rows.contains_key(k) ==> lex_le(k, key)
}

/// A database of several tables.
pub trait Database {
    /// The tables.
    spec fn tables(&self) -> TableRows;

    /// Nothing fails.
    spec fn reliable(&self) -> bool;

    /// Writing these may fail with this message.
    spec fn write_fails(&self, ops: OpList, message: CharSeq) -> bool;

    /// Whether there is a table of this name.
    fn has_table(&self, table: &str) -> (r: bool)
        ensures
            r == self.tables().contains_key(table@),
    ;

    /// The value of a key in a table. A failure is told in words.
    fn get(&self, table: &str, key: &[u8]) -> (r: Result<Option<Vec<u8>>, String>)
        requires
            self.tables().contains_key(table@),
        ensures
            r matches Ok(Some(v)) ==> self.tables()[table@].contains_key(key@) && v@
                == self.tables()[table@][key@],
            r matches Ok(None) ==> !self.tables()[table@].contains_key(key@),
            self.reliable() ==> r is Ok,
    ;

    /// The smallest key of a table. There is none where the table is empty or a read fails.
    fn first_key(&self, table: &str) -> (r: Option<Vec<u8>>)
        requires
            self.tables().contains_key(table@),
        ensures
            r matches Some(key) ==> smallest_key(self.tables()[table@], key@),
            r is None && self.reliable() ==> self.tables()[table@] == Map::<
                Seq<u8>,
                Seq<u8>,
            >::empty(),
    ;

    /// The greatest key of a table. There is none where the table is empty or a read fails.
    fn last_key(&self, table: &str) -> (r: Option<Vec<u8>>)
        requires
            self.tables().contains_key(table@),
        ensures
            r matches Some(key) ==> greatest_key(self.tables()[table@], key@),
            r is None && self.reliable() ==> self.tables()[table@] == Map::<
                Seq<u8>,
                Seq<u8>,
            >::empty(),
    ;

    /// About how many keys a table has, in decimal digits, where that is known.
    fn estimate(&self, table: &str) -> (r: Result<Option<String>, String>)
        requires
            self.tables().contains_key(table@),
        ensures
            self.reliable() ==> r is Ok,
    ;

    /// Writes a batch, all of it or nothing. A failure is told in words.
    fn write(&mut self, batch: Vec<BatchOp>) -> (r: Result<(), String>)
        ensures
            r is Ok ==> final(self).tables() == all_applied(old(self).tables(), op_views(batch@)),
            r matches Err(message) ==> final(self).tables() == old(self).tables() && old(
                self,
            ).write_fails(op_views(batch@), message@),
            old(self).reliable() ==> r is Ok,
            final(self).reliable() == old(self).reliable(),
    ;
}

/// A database in memory.
#[derive(Debug, PartialEq, Eq)]
pub struct MemoryDatabase {
    list: Vec<(String, MemoryTable)>,
    estimate: Option<String>,
}

/// The place of the first table of a name, or the number of tables where there is none.
spec fn place(list: Seq<(String, MemoryTable)>, name: Seq<char>) -> int
    decreases list.len(),
{
    if list.len() == 0 {
        0
    } else if list[0].0@ == name {
        0
    } else {
        1 + place(list.skip(1), name)
    }
}

/// No table before the place of a name has it.
proof fn lemma_place(list: Seq<(String, MemoryTable)>, name: Seq<char>)
    ensures
        0 <= place(list, name) <= list.len(),
        place(list, name) < list.len() ==> list[place(list, name)].0@ == name,
        forall|i: int| 0 <= i < place(list, name) ==> (#[trigger] list[i]).0@ != name,
    decreases list.len(),
{
    if list.len() > 0 && list[0].0@ != name {
        let rest = list.skip(1);
        lemma_place(rest, name);
        assert forall|i: int| 0 <= i < place(list, name) implies (#[trigger] list[i]).0@
            != name by {
            if i > 0 {
                assert(rest[i - 1] == list[i]);
            }
        }
    }
}

/// The place of a name is the first one that has it.
proof fn lemma_place_first(list: Seq<(String, MemoryTable)>, name: Seq<char>, i: int)
    requires
        0 <= i <= list.len(),
        i < list.len() ==> list[i].0@ == name,
        forall|j: int| 0 <= j < i ==> (#[trigger] list[j]).0@ != name,
    ensures
        place(list, name) == i,
{
    lemma_place(list, name);
    let p = place(list, name);
    if p < i {
        assert(list[p].0@ != name);
    } else if i < p {
        assert(list[i].0@ != name);
    }
}

/// The tables of a list, by name.
spec fn named(list: Seq<(String, MemoryTable)>) -> TableRows {
    Map::new(
        |n: Seq<char>| place(list, n) < list.len(),
        |n: Seq<char>| list[place(list, n)].1.rows(),
    )
}

/// A table of a list is replaced by another one of the same name.
proof fn lemma_replaced(list: Seq<(String, MemoryTable)>, i: int, entry: (String, MemoryTable))
    requires
        0 <= i < list.len(),
        i == place(list, entry.0@),
    ensures
        named(list.update(i, entry)) == named(list).insert(entry.0@, entry.1.rows()),
        named(list).contains_key(entry.0@),
{
    let name = entry.0@;
    let after = list.update(i, entry);
    lemma_place(list, name);
    assert forall|n: Seq<char>| #[trigger] place(after, n) == place(list, n) by {
        lemma_place(list, n);
        let p = place(list, n);
        assert forall|j: int| 0 <= j < p implies (#[trigger] after[j]).0@ != n by {
            assert(list[j].0@ != n);
        }
        lemma_place_first(after, n, p);
    }
    assert forall|n: Seq<char>| #[trigger]
        named(after).contains_key(n) && n != name implies named(after)[n] == named(list)[n] by {
        lemma_place(list, n);
    }
    assert(named(after) =~= named(list).insert(name, entry.1.rows()));
}

/// A table of another name is added to a list.
proof fn lemma_added(list: Seq<(String, MemoryTable)>, entry: (String, MemoryTable))
    requires
        place(list, entry.0@) == list.len(),
    ensures
        named(list.push(entry)) == named(list).insert(entry.0@, entry.1.rows()),
{
    let name = entry.0@;
    let after = list.push(entry);
    assert forall|n: Seq<char>| #[trigger]
        place(after, n) == if n != name && place(list, n) == list.len() {
            after.len() as int
        } else {
            place(list, n)
        } by {
        lemma_place(list, n);
        let p = if n != name && place(list, n) == list.len() {
            after.len() as int
        } else {
            place(list, n)
        };
        assert forall|j: int| 0 <= j < p implies (#[trigger] after[j]).0@ != n by {
            if j < list.len() {
                assert(list[j].0@ != n);
            }
        }
        lemma_place_first(after, n, p);
    }
    assert forall|n: Seq<char>| n != name implies #[trigger] named(after).contains_key(n)
        == named(list).contains_key(n) by {
        lemma_place(list, n);
    }
    assert forall|n: Seq<char>| #[trigger]
        named(after).contains_key(n) && n != name implies named(after)[n] == named(list)[n] by {
        lemma_place(list, n);
    }
    assert(named(after) =~= named(list).insert(name, entry.1.rows()));
}

/// The view of a text that may be missing.
pub open spec fn text_view(text: Option<String>) -> Option<Seq<char>> {
    match text {
        Some(text) => Some(text@),
        None => None,
    }
}

impl MemoryDatabase {
    /// The estimate of the number of keys that is given for every table.
    pub closed spec fn estimated(&self) -> Option<Seq<char>> {
        text_view(self.estimate)
    }

    /// A database without tables, which gives this estimate of the number of keys in a table.
    pub fn new(estimate: Option<String>) -> (r: MemoryDatabase)
        ensures
            r.tables() == Map::<Seq<char>, Rows>::empty(),
            r.estimated() == text_view(estimate),
    {
        let list: Vec<(String, MemoryTable)> = Vec::new();
        let r = MemoryDatabase { list, estimate };
        proof {
            assert forall|n: Seq<char>| !(#[trigger] r.tables().contains_key(n)) by {
                lemma_place(r.list@, n);
            }
            assert(r.tables() =~= Map::<Seq<char>, Rows>::empty());
        }
        r
    }

    /// The place of a table, or the number of tables where there is none of this name.
    fn find(&self, name: &str) -> (r: usize)
        ensures
            r == place(self.list@, name@),
            r <= self.list@.len(),
    {
        let wanted = chars_of(name);
        let mut i: usize = 0;
        while i < self.list.len()
            invariant
                i <= self.list@.len(),
                wanted@ == name@,
                forall|j: int| 0 <= j < i ==> (#[trigger] self.list@[j]).0@ != name@,
            decreases self.list@.len() - i,
        {
            let here = chars_of(self.list[i].0.as_str());
            if same_text(here.as_slice(), wanted.as_slice()) {
                proof {
                    lemma_place_first(self.list@, name@, i as int);
                }
                return i;
            }
            i += 1;
        }
        proof {
            lemma_place_first(self.list@, name@, i as int);
        }
        i
    }

    /// Adds an empty table, unless there is one of this name.
    pub fn create_table(&mut self, name: &str)
        ensures
            final(self).tables() == if old(self).tables().contains_key(name@) {
                old(self).tables()
            } else {
                old(self).tables().insert(name@, Map::empty())
            },
            final(self).estimated() == old(self).estimated(),
    {
        if self.find(name) < self.list.len() {
            return;
        }
        let entry = (name.to_owned(), MemoryTable::new());
        proof {
            lemma_added(self.list@, entry);
        }
        self.list.push(entry);
    }

    /// Does one write.
    fn apply(&mut self, op: &BatchOp)
        ensures
            final(self).tables() == applied(old(self).tables(), op@),
            final(self).estimated() == old(self).estimated(),
    {
        let name = match op {
            BatchOp::Put { table, .. } => table.as_str(),
            BatchOp::Delete { table, .. } => table.as_str(),
            BatchOp::DeleteRange { table, .. } => table.as_str(),
        };
        let i = self.find(name);
        if i == self.list.len() {
            return;
        }
        let ghost before = self.list@;
        let (own_name, mut table) = self.list.remove(i);
        match op {
            BatchOp::Put { key, value, .. } => {
                let _ = table.put(key.as_slice(), value.as_slice());
            },
            BatchOp::Delete { key, .. } => {
                let _ = table.delete(key.as_slice());
            },
            BatchOp::DeleteRange { from, to, .. } => {
                table.delete_range(from.as_slice(), to.as_slice());
            },
        }
        proof {
            lemma_place(before, name@);
            lemma_replaced(before, i as int, (own_name, table));
        }
        self.list.insert(i, (own_name, table));
        assert(self.list@ =~= before.update(i as int, (own_name, table)));
    }
}

/// The key of the row that a walk over a table gives first.
fn walk_key(table: &MemoryTable, mode: IteratorMode) -> (r: Option<Vec<u8>>)
    ensures
        match r {
            Some(key) => table.rows().contains_key(key@) && forall|k: Seq<u8>| #[trigger]
                table.rows().contains_key(k) && reaches(mode.direction(), mode.start(), k)
                    ==> k == key@ || precedes(mode.direction(), key@, k),
            None => forall|k: Seq<u8>| #[trigger]
                table.rows().contains_key(k) ==> !reaches(mode.direction(), mode.start(), k),
        },
{
    match table.iterator(mode) {
        Ok(mut it) => {
            let ghost list = MemoryTable::left(&it);
            proof {
                assert forall|k: Seq<u8>| #[trigger]
                    table.rows().contains_key(k) && reaches(
                        mode.direction(),
                        mode.start(),
                        k,
                    ) implies list.len() > 0 && (k == list[0].0 || precedes(
                    mode.direction(),
                    list[0].0,
                    k,
                )) by {
                    assert(has_key(list, k));
                    let j = choose|j: int| 0 <= j < list.len() && (#[trigger] list[j]).0 == k;
                    if j > 0 {
                        assert(precedes(mode.direction(), list[0].0, list[j].0));
                    }
                }
            }
            match MemoryTable::advance(&mut it) {
                Some((key, _)) => Some(key),
                None => None,
            }
        },
        Err(_) => None,
    }
}

impl Database for MemoryDatabase {
    closed spec fn tables(&self) -> TableRows {
        named(self.list@)
    }

    open spec fn reliable(&self) -> bool {
        true
    }

    open spec fn write_fails(&self, ops: OpList, message: CharSeq) -> bool {
        false
    }

    fn has_table(&self, table: &str) -> (r: bool) {
        self.find(table) < self.list.len()
    }

    fn get(&self, table: &str, key: &[u8]) -> (r: Result<Option<Vec<u8>>, String>) {
        let i = self.find(table);
        match self.list[i].1.get(key) {
            Ok(found) => Ok(found),
            Err(_) => Ok(None),
        }
    }

    fn first_key(&self, table: &str) -> (r: Option<Vec<u8>>) {
        let i = self.find(table);
        let r = walk_key(&self.list[i].1, IteratorMode::Start);
        proof {
            let rows = self.tables()[table@];
            if r is Some {
                lemma_lex_total(r->0@, r->0@);
            } else {
                assert(rows =~= Map::<Seq<u8>, Seq<u8>>::empty());
            }
        }
        r
    }

    fn last_key(&self, table: &str) -> (r: Option<Vec<u8>>) {
        let i = self.find(table);
        let r = walk_key(&self.list[i].1, IteratorMode::End);
        proof {
            let rows = self.tables()[table@];
            if r is Some {
                lemma_lex_total(r->0@, r->0@);
            } else {
                assert(rows =~= Map::<Seq<u8>, Seq<u8>>::empty());
            }
        }
        r
    }

    fn estimate(&self, _table: &str) -> (r: Result<Option<String>, String>)
        ensures
            r is Ok,
            text_view(r->Ok_0) == self.estimated(),
    {
        match &self.estimate {
            Some(text) => Ok(Some(text.as_str().to_owned())),
            None => Ok(None),
        }
    }

    fn write(&mut self, batch: Vec<BatchOp>) -> (r: Result<(), String>)
        ensures
            final(self).estimated() == old(self).estimated(),
    {
        let mut i: usize = 0;
        let ghost ops = op_views(batch@);
        let ghost before = self.tables();
        while i < batch.len()
            invariant
                i <= batch@.len(),
                ops == op_views(batch@),
                self.tables() == all_applied(before, ops.take(i as int)),
                self.estimated() == old(self).estimated(),
            decreases batch@.len() - i,
        {
            self.apply(&batch[i]);
            assert(ops.take(i + 1).drop_last() =~= ops.take(i as int));
            i += 1;
        }
        assert(ops.take(i as int) =~= ops);
        Ok(())
    }
}

/// The smallest key of some rows is one of them, and none comes before it. The greatest is one of
/// them, and none comes after it.
pub proof fn law_outermost_keys(rows: Rows, least: Seq<u8>, greatest: Seq<u8>, key: Seq<u8>)
    requires
        smallest_key(rows, least),
        greatest_key(rows, greatest),
        rows.contains_key(key),
    ensures
        rows.contains_key(least),
        rows.contains_key(greatest),
        lex_le(least, key),
        lex_le(key, greatest),
{
}

} // verus!
