use gravity_state::database::{
    can_report, cf_not_found, commit_error, delete_error, histogram_metrics, open_error,
    read_error, to_error_info, write_error, ClientVersion, DatabaseArguments, DatabaseEnv,
    DatabaseEnvKind, EngineProperties, LogLevel, Metric, TableSet, Tables,
};
use gravity_state::errors::{DatabaseError, DatabaseWriteOperation};
use gravity_state::text::CharSeq;
use gravity_state::stall::{checked_stall_micros, parse_stall_micros_from_cfstats};

fn version() -> ClientVersion {
    ClientVersion {
        version: "1".to_string(),
        git_sha: "2".to_string(),
        build_timestamp: "3".to_string(),
    }
}

fn properties() -> EngineProperties {
    EngineProperties {
        actual_delayed_write_rate: None,
        is_write_stopped: None,
        cfstats: Vec::new(),
        cur_size_all_mem_tables: None,
        num_running_compactions: None,
        num_running_flushes: None,
    }
}

const STATS: &str = "** Compaction Stats [default] **\nLevel    Files   Size     ...\n\
Stall(count): level0_slowdown: 5, level0_numfiles: 0, ...\n\
Stall(us): level0_slowdown: 1234567, level0_numfiles: 0, ...\n";

/// One table more.
struct More;

impl TableSet for More {
    fn named(_name: CharSeq) -> bool {
        unreachable!()
    }

    fn tables() -> Vec<String> {
        vec!["Headers".to_string(), "AccountsTrieV2".to_string()]
    }
}

#[test]
fn tables_are_created_by_name() {
    let mut env = DatabaseEnv::new(DatabaseEnvKind::RW);
    assert!(env.has_table("AccountsTrieV2"));
    assert!(env.has_table("StorageChangeSets"));
    assert!(!env.has_table("Headers"));
    assert_eq!(env.create_tables_for::<More>(), Ok(()));
    assert!(env.has_table("Headers"));
    assert!(env.has_table("AccountsTrieV2"));
    assert!(!env.has_table(""));
    assert_eq!(Tables::tables().len(), 6);
}

#[test]
fn kinds_of_environments() {
    assert!(DatabaseEnvKind::RW.is_rw());
    assert!(!DatabaseEnvKind::RO.is_rw());
    assert!(DatabaseEnv::new(DatabaseEnvKind::RO).is_read_only());
    let mut env = DatabaseEnv::new(DatabaseEnvKind::RW);
    assert!(!env.is_read_only());
    assert_eq!(env.create_tables(), Ok(()));
    assert_eq!(env.create_tables_for::<Tables>(), Ok(()));
    assert_eq!(env.record_client_version(version()), Ok(()));
}

#[test]
fn arguments_are_built_step_by_step() {
    let arguments = DatabaseArguments::new(version());
    assert_eq!(arguments.client_version(), &version());
    assert_eq!((arguments.log_level, arguments.max_size), (None, None));
    let arguments = DatabaseArguments::new(version())
        .with_log_level(Some(LogLevel::Debug))
        .with_geometry_max_size(Some(7));
    assert_eq!((arguments.log_level, arguments.max_size), (Some(LogLevel::Debug), Some(7)));
    let arguments = arguments.log_level(None).max_size(Some(8));
    assert_eq!((arguments.log_level, arguments.max_size), (None, Some(8)));
    let arguments = DatabaseArguments::default();
    assert_eq!(arguments.client_version().version, "");
}

#[test]
fn errors_of_the_engine_have_no_code() {
    let info = to_error_info("io");
    assert_eq!((info.message.as_str(), info.code), ("io", -1));
    assert!(matches!(read_error("r"), DatabaseError::Read(i) if i.message == "r"));
    assert!(matches!(delete_error("d"), DatabaseError::Delete(i) if i.message == "d"));
    assert!(matches!(commit_error("c"), DatabaseError::Commit(i) if i.message == "c"));
    assert!(matches!(
        open_error("o"),
        DatabaseError::Other(text) if text == "Failed to open RocksDB: o"
    ));
    assert!(matches!(
        cf_not_found("T"),
        DatabaseError::Open(i) if i.message == "Column family 'T' not found" && i.code == -1
    ));
    match write_error("T", "w", DatabaseWriteOperation::Put, b"k") {
        DatabaseError::Write(e) => {
            assert_eq!(e.info.message, "w");
            assert_eq!(e.table_name, "T");
            assert_eq!(e.key, b"k");
            assert_eq!(e.operation, DatabaseWriteOperation::Put);
        }
        other => panic!("{:?}", other),
    }
}

#[test]
fn stall_times_are_found_in_statistics() {
    let stalls = parse_stall_micros_from_cfstats(STATS);
    assert_eq!(stalls.level0_slowdown, Some(1234567));
    assert_eq!(stalls.level0_numfiles, Some(0));
    assert_eq!(stalls.pending_compaction_bytes, None);
    assert_eq!(stalls.total, Some(1234567));
    assert_eq!(checked_stall_micros(STATS), Some(stalls));
}

#[test]
fn stall_times_by_other_names() {
    let stalls = parse_stall_micros_from_cfstats(
        "x\n  Stall(us): level0_numfiles_limit: 2 , pending_compaction_bytes_limit:3,other: 9\n",
    );
    assert_eq!(stalls.level0_slowdown, None);
    assert_eq!(stalls.level0_numfiles, Some(2));
    assert_eq!(stalls.pending_compaction_bytes, Some(3));
    assert_eq!(stalls.total, Some(5));
}

#[test]
fn later_stall_lines_replace_earlier_ones() {
    let stalls = parse_stall_micros_from_cfstats(
        "Stall(us): level0_slowdown: 4\nStall(us): level0_slowdown: 0, level0_numfiles: x\n",
    );
    assert_eq!(stalls.level0_slowdown, Some(0));
    assert_eq!(stalls.level0_numfiles, None);
    assert_eq!(stalls.total, Some(4));
}

#[test]
fn no_stall_line_no_times() {
    let stalls = parse_stall_micros_from_cfstats("Stall(count): level0_slowdown: 4");
    assert_eq!(stalls.total, None);
    assert_eq!(stalls.level0_slowdown, None);
}

#[test]
fn stall_times_that_do_not_add_up() {
    let text = "Stall(us): level0_slowdown: 18446744073709551615, level0_numfiles: 1";
    assert_eq!(checked_stall_micros(text), None);
}

#[test]
fn metrics_are_numbers_with_labels() {
    let mut reported = properties();
    reported.actual_delayed_write_rate = Some("12".to_string());
    reported.is_write_stopped = Some("x".to_string());
    reported.cfstats = vec![("T".to_string(), Some(STATS.to_string())), ("U".to_string(), None)];
    reported.num_running_flushes = Some("3".to_string());
    assert!(can_report(&reported));
    let stall = |kind: &str, value: u64| Metric {
        name: "rocksdb.cfstats.stall_micros".to_string(),
        value,
        labels: vec![
            ("cf".to_string(), "T".to_string()),
            ("type".to_string(), kind.to_string()),
        ],
    };
    let plain = |name: &str, value: u64| Metric {
        name: name.to_string(),
        value,
        labels: Vec::new(),
    };
    assert_eq!(
        histogram_metrics(&reported),
        vec![
            plain("rocksdb.actual_delayed_write_rate", 12),
            stall("total", 1234567),
            stall("level0_slowdown", 1234567),
            stall("level0_numfiles", 0),
            plain("rocksdb.num_running_flushes", 3),
        ]
    );
    assert_eq!(histogram_metrics(&properties()), Vec::new());
}

#[test]
fn metrics_that_cannot_be_reported() {
    let mut overflowing = properties();
    let text = "Stall(us): level0_slowdown: 18446744073709551615, level0_numfiles: 1";
    overflowing.cfstats = vec![("T".to_string(), Some(text.to_string()))];
    assert!(!can_report(&overflowing));
}

#[test]
fn other_lines_do_not_count_as_stalls() {
    let with = "Uptime: 3\nStall(us): level0_slowdown: 7\nCompactions: 9";
    let without = "Stall(us): level0_slowdown: 7";
    let stalls = parse_stall_micros_from_cfstats(with);
    assert_eq!(stalls, parse_stall_micros_from_cfstats(without));
    assert_eq!(stalls.total, Some(7));
}
