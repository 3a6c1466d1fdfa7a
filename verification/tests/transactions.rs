use gravity_state::batch::{BatchOp, Database, MemoryDatabase, OpList, TableRows};
use gravity_state::errors::DatabaseError;
use gravity_state::text::CharSeq;
use gravity_state::transaction::{RO, RW};
use gravity_state::tx::{entries_of, place_for, Place, Tx};

fn database(tables: &[&str]) -> MemoryDatabase {
    let mut db = MemoryDatabase::new(None);
    for table in tables {
        db.create_table(table);
    }
    db
}

fn tx() -> Tx<RW, MemoryDatabase> {
    Tx::new(
        database(&["Headers", "Accounts"]),
        database(&["AccountsTrieV2"]),
        database(&["StoragesTrieV2"]),
    )
}

fn put(table: &str, key: &[u8], value: &[u8]) -> BatchOp {
    BatchOp::Put { table: table.to_string(), key: key.to_vec(), value: value.to_vec() }
}

/// A database that takes no writes, with one table.
struct Full {
    table: &'static str,
}

impl Database for Full {
    fn tables(&self) -> TableRows {
        unreachable!()
    }

    fn reliable(&self) -> bool {
        unreachable!()
    }

    fn write_fails(&self, _ops: OpList, _message: CharSeq) -> bool {
        unreachable!()
    }

    fn has_table(&self, table: &str) -> bool {
        table == self.table
    }

    fn get(&self, _table: &str, _key: &[u8]) -> Result<Option<Vec<u8>>, String> {
        Err("torn".to_string())
    }

    fn first_key(&self, _table: &str) -> Option<Vec<u8>> {
        None
    }

    fn last_key(&self, _table: &str) -> Option<Vec<u8>> {
        None
    }

    fn estimate(&self, _table: &str) -> Result<Option<String>, String> {
        Err("torn".to_string())
    }

    fn write(&mut self, _batch: Vec<BatchOp>) -> Result<(), String> {
        Err(format!("no space for {}", self.table))
    }
}

#[test]
fn tables_lie_in_their_databases() {
    assert_eq!(place_for("AccountsTrieV2"), Place::Account);
    assert_eq!(place_for("StoragesTrieV2"), Place::Storage);
    assert_eq!(place_for("AccountsTrie"), Place::State);
    assert_eq!(place_for(""), Place::State);
}

#[test]
fn writes_are_seen_after_the_commit() {
    let mut tx = tx();
    tx.put("Headers", b"h", b"1").unwrap();
    tx.put("AccountsTrieV2", b"a", b"2").unwrap();
    tx.put("StoragesTrieV2", b"s", b"3").unwrap();
    assert_eq!(tx.get("Headers", b"h"), Ok(None));
    assert_eq!(tx.commit(), Ok(true));
    assert_eq!(tx.get("Headers", b"h"), Ok(Some(b"1".to_vec())));
    assert_eq!(tx.get("AccountsTrieV2", b"a"), Ok(Some(b"2".to_vec())));
    assert_eq!(tx.get("StoragesTrieV2", b"s"), Ok(Some(b"3".to_vec())));
    assert_eq!(tx.get("Accounts", b"h"), Ok(None));
    assert_eq!(tx.delete("Headers", b"h"), Ok(true));
    assert_eq!(tx.delete("Headers", b"never"), Ok(true));
    assert_eq!(tx.commit(), Ok(true));
    assert_eq!(tx.get("Headers", b"h"), Ok(None));
}

#[test]
fn aborted_writes_are_lost() {
    let mut tx = tx();
    tx.put("Headers", b"h", b"1").unwrap();
    let (state, account, storage) = tx.abort();
    let tx: Tx<RW, MemoryDatabase> = Tx::new(state, account, storage);
    assert_eq!(tx.get("Headers", b"h"), Ok(None));
}

#[test]
fn cleared_table_is_empty() {
    let mut tx = tx();
    for key in [b"a", b"m", b"z"] {
        tx.put("Headers", key, b"1").unwrap();
        tx.put("Accounts", key, b"2").unwrap();
    }
    tx.commit().unwrap();
    tx.clear("Headers").unwrap();
    tx.commit().unwrap();
    for key in [b"a", b"m", b"z"] {
        assert_eq!(tx.get("Headers", key), Ok(None));
        assert_eq!(tx.get("Accounts", key), Ok(Some(b"2".to_vec())));
    }
    assert_eq!(tx.clear("Headers"), Ok(()));
    assert_eq!(tx.commit(), Ok(true));
}

#[test]
fn clearing_reaches_no_waiting_writes_outside_the_stored_keys() {
    let mut tx = tx();
    tx.put("Headers", b"m", b"1").unwrap();
    tx.commit().unwrap();
    tx.put("Headers", b"z", b"2").unwrap();
    tx.clear("Headers").unwrap();
    tx.commit().unwrap();
    assert_eq!(tx.get("Headers", b"m"), Ok(None));
    assert_eq!(tx.get("Headers", b"z"), Ok(Some(b"2".to_vec())));
}

#[test]
fn missing_tables_are_told_by_name() {
    let mut tx = tx();
    let told = |e: DatabaseError| {
        matches!(e, DatabaseError::Open(info)
            if info.message == "Column family 'Nowhere' not found" && info.code == -1)
    };
    assert!(told(tx.get("Nowhere", b"k").unwrap_err()));
    assert!(told(tx.put("Nowhere", b"k", b"v").unwrap_err()));
    assert!(told(tx.delete("Nowhere", b"k").unwrap_err()));
    assert!(told(tx.clear("Nowhere").unwrap_err()));
    assert!(told(tx.table_entries("Nowhere").unwrap_err()));
    assert!(told(tx.entries("Nowhere").unwrap_err()));
}

#[test]
fn estimates_are_read_as_numbers() {
    assert_eq!(entries_of(Ok(Some("42".to_string()))), Ok(42));
    assert_eq!(entries_of(Ok(Some("+7".to_string()))), Ok(7));
    assert_eq!(entries_of(Ok(None)), Ok(0));
    for text in ["", "-1", " 1", "18446744073709551616", "x"] {
        assert!(matches!(
            entries_of(Ok(Some(text.to_string()))),
            Err(DatabaseError::Read(info))
                if info.message == "Failed to parse estimated number of keys" && info.code == -1
        ));
    }
    assert!(matches!(
        entries_of(Err("io".to_string())),
        Err(DatabaseError::Read(info)) if info.message == "io"
    ));
    let mut state = MemoryDatabase::new(Some("12".to_string()));
    state.create_table("Headers");
    let tx: Tx<RW, MemoryDatabase> = Tx::new(state, database(&[]), database(&[]));
    assert_eq!(tx.entries("Headers"), Ok(12));
}

#[test]
fn failed_commit_is_told() {
    let mut tx: Tx<RW, Full> = Tx::new(
        Full { table: "Headers" },
        Full { table: "AccountsTrieV2" },
        Full { table: "StoragesTrieV2" },
    );
    assert_eq!(tx.commit(), Ok(true));
    tx.put("Headers", b"k", b"v").unwrap();
    let message = |r: Result<bool, DatabaseError>| match r {
        Err(DatabaseError::Commit(info)) => (info.message, info.code),
        other => panic!("{:?}", other),
    };
    assert_eq!(message(tx.commit()), ("no space for Headers".to_string(), -1));
    tx.put("Headers", b"k", b"v").unwrap();
    tx.put("StoragesTrieV2", b"k", b"v").unwrap();
    tx.put("AccountsTrieV2", b"k", b"v").unwrap();
    assert_eq!(message(tx.commit()), ("no space for AccountsTrieV2".to_string(), -1));
    assert!(matches!(tx.get("Headers", b"k"), Err(DatabaseError::Read(_))));
}

#[test]
fn nothing_is_written_where_nothing_waits() {
    let mut tx: Tx<RW, Full> = Tx::new(
        Full { table: "Headers" },
        Full { table: "AccountsTrieV2" },
        Full { table: "StoragesTrieV2" },
    );
    assert_eq!(tx.commit(), Ok(true));
    tx.put("StoragesTrieV2", b"k", b"v").unwrap();
    assert!(matches!(
        tx.commit(),
        Err(DatabaseError::Commit(info)) if info.message == "no space for StoragesTrieV2"
    ));
    assert!(matches!(
        tx.get("Headers", b"k"),
        Err(DatabaseError::Read(info)) if info.message == "torn"
    ));
}

#[test]
fn committed_writes_are_read_by_later_transactions() {
    let mut writer = tx();
    writer.put("Headers", b"h", b"1").unwrap();
    writer.put("StoragesTrieV2", b"s", b"2").unwrap();
    writer.commit().unwrap();
    let (state, account, storage) = writer.abort();
    let reader: Tx<RO, MemoryDatabase> = Tx::new(state, account, storage);
    assert_eq!(reader.get("Headers", b"h"), Ok(Some(b"1".to_vec())));
    assert_eq!(reader.get("StoragesTrieV2", b"s"), Ok(Some(b"2".to_vec())));
    assert_eq!(reader.get("AccountsTrieV2", b"s"), Ok(None));
}

#[test]
fn batches_are_applied_in_order() {
    let mut db = database(&["T"]);
    db.write(vec![
        put("T", b"a", b"1"),
        put("T", b"a", b"2"),
        put("T", b"b", b"3"),
        BatchOp::Delete { table: "T".to_string(), key: b"b".to_vec() },
        put("T", b"c", b"4"),
        BatchOp::DeleteRange { table: "T".to_string(), from: b"b".to_vec(), to: b"c".to_vec() },
        put("Nowhere", b"a", b"5"),
    ])
    .unwrap();
    assert_eq!(db.get("T", b"a"), Ok(Some(b"2".to_vec())));
    assert_eq!(db.get("T", b"b"), Ok(None));
    assert_eq!(db.get("T", b"c"), Ok(Some(b"4".to_vec())));
    assert_eq!(db.first_key("T"), Some(b"a".to_vec()));
    assert_eq!(db.last_key("T"), Some(b"c".to_vec()));
    assert!(!db.has_table("Nowhere"));
}
