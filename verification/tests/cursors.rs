use gravity_state::cursor::{Cursor, KeyBound};
use gravity_state::dupsort::{decode_dupsort_key, encode_dupsort_key, encode_key_prefix};
use gravity_state::engine::{Engine, EngineError, IteratorMode, MemoryTable, RowList, Rows};
use gravity_state::errors::{DatabaseError, DatabaseWriteOperation};
use gravity_state::transaction::{TransactionKind, RO, RW};

type Entry = (Vec<u8>, Vec<u8>);

fn table(rows: &[(&[u8], &[u8])]) -> MemoryTable {
    let mut table = MemoryTable::new();
    for (key, value) in rows {
        table.put(key, value).unwrap();
    }
    table
}

fn entry(key: &[u8], value: &[u8]) -> Result<Option<Entry>, DatabaseError> {
    Ok(Some((key.to_vec(), value.to_vec())))
}

fn plain() -> Cursor<RW, MemoryTable> {
    Cursor::new(table(&[(b"a", b"1"), (b"c", b"3"), (b"b", b"2"), (b"ba", b"4")]), "T", false)
}

fn dups() -> Cursor<RW, MemoryTable> {
    let mut cursor = Cursor::new(MemoryTable::new(), "D", true);
    for (key, value) in [(b"k1", b"y"), (b"k1", b"x"), (b"k2", b"z"), (b"k0", b"w")] {
        cursor.append_dup(key, value).unwrap();
    }
    cursor
}

/// A table that does not exist.
struct NoTable;

impl Engine for NoTable {
    type Iter = ();

    fn rows(&self) -> Rows {
        unreachable!()
    }

    fn absent(&self) -> bool {
        unreachable!()
    }

    fn reliable(&self) -> bool {
        unreachable!()
    }

    fn left(_it: &()) -> RowList {
        unreachable!()
    }

    fn steady(_it: &()) -> bool {
        unreachable!()
    }

    fn iterator(&self, _mode: IteratorMode) -> Result<(), EngineError> {
        Err(EngineError::TableMissing)
    }

    fn advance(_it: &mut ()) -> Option<Entry> {
        None
    }

    fn get(&self, _key: &[u8]) -> Result<Option<Vec<u8>>, EngineError> {
        Err(EngineError::TableMissing)
    }

    fn put(&mut self, _key: &[u8], _value: &[u8]) -> Result<(), EngineError> {
        Err(EngineError::TableMissing)
    }

    fn delete(&mut self, _key: &[u8]) -> Result<(), EngineError> {
        Err(EngineError::TableMissing)
    }
}

/// A table that cannot be used.
struct Broken;

impl Engine for Broken {
    type Iter = ();

    fn rows(&self) -> Rows {
        unreachable!()
    }

    fn absent(&self) -> bool {
        unreachable!()
    }

    fn reliable(&self) -> bool {
        unreachable!()
    }

    fn left(_it: &()) -> RowList {
        unreachable!()
    }

    fn steady(_it: &()) -> bool {
        unreachable!()
    }

    fn iterator(&self, _mode: IteratorMode) -> Result<(), EngineError> {
        Err(EngineError::Failed("io".to_string()))
    }

    fn advance(_it: &mut ()) -> Option<Entry> {
        None
    }

    fn get(&self, _key: &[u8]) -> Result<Option<Vec<u8>>, EngineError> {
        Err(EngineError::Failed("io".to_string()))
    }

    fn put(&mut self, _key: &[u8], _value: &[u8]) -> Result<(), EngineError> {
        Err(EngineError::Failed("io".to_string()))
    }

    fn delete(&mut self, _key: &[u8]) -> Result<(), EngineError> {
        Err(EngineError::Failed("io".to_string()))
    }
}

#[test]
fn kinds_of_transactions() {
    assert!(!RO::IS_READ_WRITE);
    assert!(RW::IS_READ_WRITE);
}

#[test]
fn stored_keys_round_trip() {
    let stored = encode_dupsort_key(b"key", b"sub");
    assert_eq!(stored, b"\x03keysub");
    assert_eq!(encode_key_prefix(b"key"), b"\x03key");
    assert_eq!(decode_dupsort_key(&stored), Ok((b"key".to_vec(), b"sub".to_vec())));
    assert_eq!(decode_dupsort_key(b"\x00"), Ok((Vec::new(), Vec::new())));
    assert_eq!(decode_dupsort_key(b""), Err(DatabaseError::Decode));
    assert_eq!(decode_dupsort_key(b"\x04key"), Err(DatabaseError::Decode));
    let long = vec![7u8; 255];
    assert_eq!(decode_dupsort_key(&encode_dupsort_key(&long, b"s")), Ok((long, b"s".to_vec())));
}

#[test]
fn tables_are_ordered() {
    let table = table(&[(b"b", b"2"), (b"a", b"1"), (b"ab", b"3"), (b"a", b"4")]);
    let mut it = table.iterator(IteratorMode::Start).unwrap();
    assert_eq!(MemoryTable::advance(&mut it), Some((b"a".to_vec(), b"4".to_vec())));
    assert_eq!(MemoryTable::advance(&mut it), Some((b"ab".to_vec(), b"3".to_vec())));
    assert_eq!(MemoryTable::advance(&mut it), Some((b"b".to_vec(), b"2".to_vec())));
    assert_eq!(MemoryTable::advance(&mut it), None);
    assert_eq!(table.get(b"ab"), Ok(Some(b"3".to_vec())));
    assert_eq!(table.get(b"abc"), Ok(None));
}

#[test]
fn ranges_are_deleted_without_their_end() {
    let mut table = table(&[(b"a", b"1"), (b"b", b"2"), (b"bb", b"3"), (b"c", b"4")]);
    table.delete_range(b"b", b"c");
    assert_eq!(table.get(b"a"), Ok(Some(b"1".to_vec())));
    assert_eq!(table.get(b"b"), Ok(None));
    assert_eq!(table.get(b"bb"), Ok(None));
    assert_eq!(table.get(b"c"), Ok(Some(b"4".to_vec())));
}

#[test]
fn walk_gives_every_row_in_order() {
    let mut cursor = plain();
    assert_eq!(cursor.first(), entry(b"a", b"1"));
    assert_eq!(cursor.next(), entry(b"b", b"2"));
    assert_eq!(cursor.next(), entry(b"ba", b"4"));
    assert_eq!(cursor.next(), entry(b"c", b"3"));
    assert_eq!(cursor.next(), Ok(None));
    assert_eq!(cursor.next(), Ok(None));
}

#[test]
fn seek_finds_the_first_row_from_a_key_on() {
    let mut cursor = plain();
    assert_eq!(cursor.seek(b"b"), entry(b"b", b"2"));
    assert_eq!(cursor.next(), entry(b"ba", b"4"));
    assert_eq!(cursor.seek(b"bb"), entry(b"c", b"3"));
    assert_eq!(cursor.seek(b"d"), Ok(None));
    assert_eq!(cursor.current(), Ok(None));
}

#[test]
fn exact_seek_goes_on_behind_the_key() {
    let mut cursor = plain();
    assert_eq!(cursor.seek_exact(b"b"), entry(b"b", b"2"));
    assert_eq!(cursor.current(), entry(b"b", b"2"));
    assert_eq!(cursor.next(), entry(b"ba", b"4"));
    assert_eq!(cursor.seek_exact(b"az"), Ok(None));
    assert_eq!(cursor.next(), entry(b"b", b"2"));
}

#[test]
fn turning_round_gives_the_row_again() {
    let mut cursor = plain();
    cursor.seek(b"ba").unwrap();
    assert_eq!(cursor.prev(), entry(b"ba", b"4"));
    assert_eq!(cursor.prev(), entry(b"b", b"2"));
    assert_eq!(cursor.prev(), entry(b"a", b"1"));
    assert_eq!(cursor.prev(), Ok(None));
    cursor.seek(b"b").unwrap();
    cursor.prev().unwrap();
    assert_eq!(cursor.next(), entry(b"ba", b"4"));
}

#[test]
fn next_from_the_last_row_goes_down() {
    let mut cursor = plain();
    assert_eq!(cursor.last(), entry(b"c", b"3"));
    assert_eq!(cursor.next(), entry(b"ba", b"4"));
    assert_eq!(cursor.next(), entry(b"b", b"2"));
    cursor.last().unwrap();
    assert_eq!(cursor.prev(), entry(b"c", b"3"));
    assert_eq!(cursor.prev(), entry(b"ba", b"4"));
}

#[test]
fn new_cursor_is_nowhere() {
    let mut cursor = plain();
    assert_eq!(cursor.current(), Ok(None));
    assert_eq!(cursor.next(), Ok(None));
    assert_eq!(cursor.prev(), Ok(None));
    assert_eq!(cursor.delete_current(), Ok(()));
}

#[test]
fn walks_start_where_they_are_asked_to() {
    let mut cursor = plain();
    assert_eq!(cursor.walk(Some(b"b")), Some(Ok((b"b".to_vec(), b"2".to_vec()))));
    assert_eq!(cursor.walk(None), Some(Ok((b"a".to_vec(), b"1".to_vec()))));
    assert_eq!(cursor.walk(Some(b"x")), None);
    let (start, end) = cursor.walk_range(KeyBound::Excluded(b"b"), KeyBound::Excluded(b"c"));
    assert_eq!(start, Some(Ok((b"b".to_vec(), b"2".to_vec()))));
    assert_eq!(end, KeyBound::Included(b"c"));
    let (start, end) = cursor.walk_range(KeyBound::Unbounded, KeyBound::Unbounded);
    assert_eq!(start, Some(Ok((b"a".to_vec(), b"1".to_vec()))));
    assert_eq!(end, KeyBound::Unbounded);
    let (_, end) = cursor.walk_range(KeyBound::Included(b"a"), KeyBound::Included(b"b"));
    assert_eq!(end, KeyBound::Included(b"b"));
    assert_eq!(cursor.walk_back(None), Ok(Some(Ok((b"c".to_vec(), b"3".to_vec())))));
    assert_eq!(cursor.walk_back(Some(b"bb")), Ok(Some(Ok((b"c".to_vec(), b"3".to_vec())))));
    assert_eq!(cursor.walk_back(Some(b"x")), Ok(None));
}

#[test]
fn written_rows_are_found() {
    let mut cursor = plain();
    cursor.upsert(b"bz", b"5").unwrap();
    assert_eq!(cursor.current(), entry(b"bz", b"5"));
    assert_eq!(cursor.next(), entry(b"c", b"3"));
    cursor.insert(b"a", b"9").unwrap();
    cursor.append(b"d", b"8").unwrap();
    assert_eq!(cursor.seek_exact(b"a"), entry(b"a", b"9"));
    assert_eq!(cursor.seek_exact(b"d"), entry(b"d", b"8"));
    cursor.delete_current().unwrap();
    assert_eq!(cursor.seek_exact(b"d"), Ok(None));
    assert_eq!(cursor.seek_exact(b"c"), entry(b"c", b"3"));
    assert_eq!(cursor.into_engine().get(b"bz"), Ok(Some(b"5".to_vec())));
}

#[test]
fn duplicates_come_in_the_order_of_their_subkeys() {
    let mut cursor = dups();
    assert_eq!(cursor.first(), entry(b"k0", b"w"));
    assert_eq!(cursor.next(), entry(b"k1", b"x"));
    assert_eq!(cursor.next_dup(), entry(b"k1", b"y"));
    assert_eq!(cursor.next_dup(), Ok(None));
    assert_eq!(cursor.current(), entry(b"k2", b"z"));
    assert_eq!(cursor.next_dup_val(), Ok(None));
}

#[test]
fn duplicates_are_passed_over() {
    let mut cursor = dups();
    cursor.first().unwrap();
    assert_eq!(cursor.next_no_dup(), entry(b"k1", b"x"));
    assert_eq!(cursor.next_no_dup(), entry(b"k2", b"z"));
    assert_eq!(cursor.next_no_dup(), Ok(None));
    assert_eq!(cursor.next_no_dup(), entry(b"k0", b"w"));
    let stored = encode_dupsort_key(b"k1", b"x");
    cursor.seek_exact(&stored).unwrap();
    assert_eq!(cursor.next_no_dup(), Ok(None));
    cursor.seek(&stored).unwrap();
    cursor.prev().unwrap();
    assert_eq!(cursor.next_no_dup(), Ok(None));
}

#[test]
fn seek_by_key_and_subkey() {
    let mut cursor = dups();
    assert_eq!(cursor.seek_by_key_subkey(b"k1", b"x"), Ok(Some(b"x".to_vec())));
    assert_eq!(cursor.next_dup_val(), Ok(Some(b"y".to_vec())));
    assert_eq!(cursor.seek_by_key_subkey(b"k1", b"xx"), Ok(Some(b"y".to_vec())));
    assert_eq!(cursor.seek_by_key_subkey(b"k1", b"yy"), Ok(Some(b"z".to_vec())));
    assert_eq!(cursor.seek_by_key_subkey(b"k3", b""), Ok(None));
}

#[test]
fn walks_over_duplicates_start_at_their_key() {
    let mut cursor = dups();
    assert_eq!(cursor.walk_dup(Some(b"k1"), None), Some(Ok((b"k1".to_vec(), b"x".to_vec()))));
    assert_eq!(
        cursor.walk_dup(Some(b"k1"), Some(b"y")),
        Some(Ok((b"k1".to_vec(), b"y".to_vec())))
    );
    assert_eq!(cursor.walk_dup(None, Some(b"y")), Some(Ok((b"k0".to_vec(), b"w".to_vec()))));
    assert_eq!(cursor.walk_dup(None, None), Some(Ok((b"k0".to_vec(), b"w".to_vec()))));
    assert_eq!(cursor.walk_dup(Some(b"k9"), None), None);
}

#[test]
fn all_duplicates_of_a_key_are_deleted() {
    let mut cursor = dups();
    cursor.seek_by_key_subkey(b"k1", b"y").unwrap();
    assert_eq!(cursor.delete_current_duplicates(), Ok(()));
    assert_eq!(cursor.current(), Ok(None));
    assert_eq!(cursor.first(), entry(b"k0", b"w"));
    assert_eq!(cursor.next(), entry(b"k2", b"z"));
    assert_eq!(cursor.next(), Ok(None));
}

#[test]
fn unreadable_stored_keys_are_told() {
    let mut cursor: Cursor<RW, MemoryTable> =
        Cursor::new(table(&[(b"\x09x", b"1"), (b"\x01a", b"2")]), "D", true);
    assert_eq!(cursor.first(), entry(b"a", b"2"));
    assert_eq!(cursor.next(), Err(DatabaseError::Decode));
    assert_eq!(cursor.next_dup(), Err(DatabaseError::Decode));
    assert_eq!(cursor.next_no_dup(), Err(DatabaseError::Decode));
    assert_eq!(cursor.delete_current_duplicates(), Err(DatabaseError::Decode));
    assert_eq!(cursor.walk(Some(b"\x05")), Some(Err(DatabaseError::Decode)));
    assert_eq!(cursor.walk_back(Some(b"\x05")), Err(DatabaseError::Decode));
}

#[test]
fn missing_table_is_told_by_name() {
    let mut cursor: Cursor<RW, NoTable> = Cursor::new(NoTable, "Missing", false);
    let told = |e: &DatabaseError| {
        matches!(e, DatabaseError::Open(info)
            if info.message == "Column family 'Missing' not found" && info.code == -1)
    };
    assert!(told(&cursor.first().unwrap_err()));
    assert!(told(&cursor.last().unwrap_err()));
    assert!(told(&cursor.seek(b"a").unwrap_err()));
    assert!(told(&cursor.seek_exact(b"a").unwrap_err()));
    assert_eq!(cursor.current(), Ok(None));
    assert!(told(&cursor.upsert(b"a", b"1").unwrap_err()));
    assert!(told(&cursor.append_dup(b"a", b"1").unwrap_err()));
}

#[test]
fn failures_are_told_with_their_operation() {
    let mut cursor: Cursor<RW, Broken> = Cursor::new(Broken, "B", false);
    match cursor.seek(b"a").unwrap_err() {
        DatabaseError::Read(info) => assert_eq!((info.message.as_str(), info.code), ("io", -1)),
        other => panic!("{:?}", other),
    }
    assert!(matches!(cursor.walk_back(Some(b"a")), Err(DatabaseError::Read(_))));
    assert!(matches!(cursor.walk_back(None), Ok(Some(Err(DatabaseError::Read(_))))));
    let (start, _) = cursor.walk_range(KeyBound::Excluded(b"a"), KeyBound::Unbounded);
    assert!(matches!(start, Some(Err(DatabaseError::Read(_)))));
    match cursor.upsert(b"a", b"1").unwrap_err() {
        DatabaseError::Write(e) => {
            assert_eq!(e.operation, DatabaseWriteOperation::Put);
            assert_eq!(e.table_name, "B");
            assert_eq!(e.key, b"a");
            assert_eq!(e.info.message, "io");
        }
        other => panic!("{:?}", other),
    }
    match cursor.append_dup(b"a", b"1").unwrap_err() {
        DatabaseError::Write(e) => {
            assert_eq!(e.operation, DatabaseWriteOperation::CursorAppendDup);
            assert_eq!(e.key, b"\x01a1");
        }
        other => panic!("{:?}", other),
    }
    cursor.seek_exact(b"k").unwrap_err();
    match cursor.delete_current().unwrap_err() {
        DatabaseError::Write(e) => assert_eq!(e.key, b"k"),
        other => panic!("{:?}", other),
    }
}
