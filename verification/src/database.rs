//! The database environment: its kind and arguments, its metrics and its errors.

use vstd::prelude::*;
use vstd::slice::slice_to_vec;
use vstd::string::StringExecFns;

use crate::errors::{DatabaseError, DatabaseErrorInfo, DatabaseWriteError, DatabaseWriteOperation};
use crate::stall::{checked_stall_micros, parse_stall_micros_from_cfstats, stalls, stalls_fit};
use crate::text::{chars_of, number, parse_u64, same_text, CharSeq};

verus! {

/// Whether a database can be written.
#[derive(Debug, Clone, Copy, PartialEq, Eq, Structural)]
pub enum DatabaseEnvKind {
    /// It can be read and written.
    RW,
    /// It can only be read.
    RO,
}

impl DatabaseEnvKind {
    /// Whether the database can be written.
    pub fn is_rw(self) -> (r: bool)
        ensures
            r == (self == DatabaseEnvKind::RW),
    {
        matches!(self, DatabaseEnvKind::RW)
    }
}

/// How much is logged.
#[derive(Debug, Clone, Copy, PartialEq, Eq, Structural)]
pub enum LogLevel {
    /// Conditions that end the process.
    Fatal,
    /// Errors.
    Error,
    /// Warnings.
    Warn,
    /// Normal but significant conditions.
    Notice,
    /// Verbose information.
    Verbose,
    /// Information for debugging.
    Debug,
    /// The steps of a call.
    Trace,
    /// Everything.
    Extra,
}

/// The version of the client that writes a database.
#[derive(Debug, PartialEq, Eq)]
pub struct ClientVersion {
    /// The version.
    pub version: String,
    /// The commit that it was built from.
    pub git_sha: String,
    /// When it was built.
    pub build_timestamp: String,
}

impl ClientVersion {
    /// No version.
    pub open spec fn blank(&self) -> bool {
        self.version@.len() == 0 && self.git_sha@.len() == 0 && self.build_timestamp@.len() == 0
    }
}

impl Default for ClientVersion {
    fn default() -> (r: ClientVersion)
        ensures
            r.blank(),
    {
        ClientVersion {
            version: String::new(),
            git_sha: String::new(),
            build_timestamp: String::new(),
        }
    }
}

/// The arguments that a database is opened with.
#[derive(Debug, PartialEq, Eq)]
pub struct DatabaseArguments {
    /// The version of the client.
    pub client_version: ClientVersion,
    /// How much is logged.
    pub log_level: Option<LogLevel>,
    /// The largest size of the database.
    pub max_size: Option<usize>,
}

impl DatabaseArguments {
    /// The arguments of a client, with everything else left open.
    pub fn new(client_version: ClientVersion) -> (r: DatabaseArguments)
        ensures
            r == (DatabaseArguments { client_version, log_level: None, max_size: None }),
    {
        DatabaseArguments { client_version, log_level: None, max_size: None }
    }

    /// Sets how much is logged.
    pub fn log_level(self, log_level: Option<LogLevel>) -> (r: DatabaseArguments)
        ensures
            r == (DatabaseArguments { log_level, ..self }),
    {
        DatabaseArguments {
            client_version: self.client_version,
            log_level,
            max_size: self.max_size,
        }
    }

    /// Sets how much is logged.
    pub fn with_log_level(self, log_level: Option<LogLevel>) -> (r: DatabaseArguments)
        ensures
            r == (DatabaseArguments { log_level, ..self }),
    {
        self.log_level(log_level)
    }

    /// Sets the largest size of the database.
    pub fn max_size(self, max_size: Option<usize>) -> (r: DatabaseArguments)
        ensures
            r == (DatabaseArguments { max_size, ..self }),
    {
        DatabaseArguments {
            client_version: self.client_version,
            log_level: self.log_level,
            max_size,
        }
    }

    /// Sets the largest size of the database.
    pub fn with_geometry_max_size(self, max_size: Option<usize>) -> (r: DatabaseArguments)
        ensures
            r == (DatabaseArguments { max_size, ..self }),
    {
        self.max_size(max_size)
    }

    /// The version of the client.
    pub fn client_version(&self) -> (r: &ClientVersion)
        ensures
            *r == self.client_version,
    {
        &self.client_version
    }
}

impl Default for DatabaseArguments {
    fn default() -> (r: DatabaseArguments)
        ensures
            r.client_version.blank(),
            r.log_level is None,
            r.max_size is None,
    {
        DatabaseArguments::new(ClientVersion::default())
    }
}

/// What the engine says of itself, where it says anything.
#[derive(Debug, PartialEq, Eq)]
pub struct EngineProperties {
    /// `rocksdb.actual-delayed-write-rate`.
    pub actual_delayed_write_rate: Option<String>,
    /// `rocksdb.is-write-stopped`.
    pub is_write_stopped: Option<String>,
    /// `rocksdb.cfstats` of every table, by name. A table without a column family has none.
    pub cfstats: Vec<(String, Option<String>)>,
    /// `rocksdb.cur-size-all-mem-tables`.
    pub cur_size_all_mem_tables: Option<String>,
    /// `rocksdb.num-running-compactions`.
    pub num_running_compactions: Option<String>,
    /// `rocksdb.num-running-flushes`.
    pub num_running_flushes: Option<String>,
}

/// One number to report.
#[derive(Debug, PartialEq, Eq)]
pub struct Metric {
    /// The name of the metric.
    pub name: String,
    /// The number.
    pub value: u64,
    /// The labels, as keys and values.
    pub labels: Vec<(String, String)>,
}

/// The mathematical view of a [`Metric`].
pub ghost struct MetricV {
    /// The name.
    pub name: Seq<char>,
    /// The number.
    pub value: u64,
    /// The labels.
    pub labels: Seq<(Seq<char>, Seq<char>)>,
}

impl View for Metric {
    type V = MetricV;

    open spec fn view(&self) -> MetricV {
        MetricV {
            name: self.name@,
            value: self.value,
            labels: self.labels@.map_values(|l: (String, String)| (l.0@, l.1@)),
        }
    }
}

/// A metric is what it holds: its name, its number and each of its labels.
pub proof fn law_metric_views(metric: Metric, i: int)
    ensures
        metric@.name == metric.name@,
        metric@.value == metric.value,
        metric@.labels.len() == metric.labels@.len(),
        0 <= i < metric.labels@.len() ==> metric@.labels[i] == (
            metric.labels@[i].0@,
            metric.labels@[i].1@,
        ),
{
}

/// The views of metrics.
pub open spec fn metric_views(metrics: Seq<Metric>) -> Seq<MetricV> {
    metrics.map_values(|m: Metric| m@)
}

/// The metric made of a property, where that is a number.
pub open spec fn property_metric(name: Seq<char>, property: Option<String>) -> Seq<MetricV> {
    match property {
        Some(text) => match number(text@, u64::MAX as nat) {
            Some(n) => seq![MetricV { name, value: n as u64, labels: Seq::empty() }],
            None => Seq::empty(),
        },
        None => Seq::empty(),
    }
}

/// The metric made of one kind of stall time of a table.
pub open spec fn stall_metric(table: Seq<char>, kind: Seq<char>, micros: Option<u64>) -> Seq<
    MetricV,
> {
    match micros {
        Some(value) => seq![
            MetricV {
                name: "rocksdb.cfstats.stall_micros"@,
                value,
                labels: seq![("cf"@, table), ("type"@, kind)],
            },
        ],
        None => Seq::empty(),
    }
}

/// The metrics made of the statistics of a table.
pub open spec fn table_metrics(table: Seq<char>, cfstats: Option<String>) -> Seq<MetricV> {
    match cfstats {
        Some(text) => {
            let s = stalls(text@);
            stall_metric(table, "total"@, s.total) + stall_metric(
                table,
                "level0_slowdown"@,
                s.level0_slowdown,
            ) + stall_metric(table, "level0_numfiles"@, s.level0_numfiles) + stall_metric(
                table,
                "pending_compaction_bytes"@,
                s.pending_compaction_bytes,
            )
        },
        None => Seq::empty(),
    }
}

/// The metrics made of the statistics of all tables.
pub open spec fn all_table_metrics(cfstats: Seq<(String, Option<String>)>) -> Seq<MetricV>
    decreases cfstats.len(),
{
    if cfstats.len() == 0 {
        Seq::empty()
    } else {
        all_table_metrics(cfstats.drop_last()) + table_metrics(cfstats.last().0@, cfstats.last().1)
    }
}

/// All metrics made of what the engine says.
pub open spec fn engine_metrics(p: EngineProperties) -> Seq<MetricV> {
    property_metric("rocksdb.actual_delayed_write_rate"@, p.actual_delayed_write_rate)
        + property_metric("rocksdb.is_write_stopped"@, p.is_write_stopped) + all_table_metrics(
        p.cfstats@,
    ) + property_metric("rocksdb.cur_size_all_mem_tables"@, p.cur_size_all_mem_tables)
        + property_metric("rocksdb.num_running_compactions"@, p.num_running_compactions)
        + property_metric("rocksdb.num_running_flushes"@, p.num_running_flushes)
}

/// No sum of stall times of any table is too large.
pub open spec fn metrics_fit(p: EngineProperties) -> bool {
    forall|i: int|
        0 <= i < p.cfstats@.len() ==> ((#[trigger] p.cfstats@[i]).1 matches Some(text)
            ==> stalls_fit(text@))
}

/// Appends the metric made of a property.
fn push_property(metrics: &mut Vec<Metric>, name: &str, property: &Option<String>)
    ensures
        metric_views(final(metrics)@) == metric_views(old(metrics)@) + property_metric(
            name@,
            *property,
        ),
{
    let ghost before = metrics@;
    if let Some(text) = property {
        if let Some(value) = parse_u64(chars_of(text.as_str()).as_slice()) {
            let metric = Metric { name: name.to_owned(), value, labels: Vec::new() };
            assert(metric@.labels =~= Seq::empty());
            metrics.push(metric);
        }
    }
    assert(metric_views(metrics@) =~= metric_views(before) + property_metric(name@, *property));
}

/// Appends the metric made of one kind of stall time.
fn push_stall(metrics: &mut Vec<Metric>, table: &String, kind: &str, micros: Option<u64>)
    ensures
        metric_views(final(metrics)@) == metric_views(old(metrics)@) + stall_metric(
            table@,
            kind@,
            micros,
        ),
{
    let ghost before = metrics@;
    if let Some(value) = micros {
        let mut labels: Vec<(String, String)> = Vec::new();
        labels.push(("cf".to_owned(), table.clone()));
        labels.push(("type".to_owned(), kind.to_owned()));
        let metric = Metric { name: "rocksdb.cfstats.stall_micros".to_owned(), value, labels };
        assert(metric@.labels =~= seq![("cf"@, table@), ("type"@, kind@)]);
        metrics.push(metric);
    }
    assert(metric_views(metrics@) =~= metric_views(before) + stall_metric(table@, kind@, micros));
}

/// Appends the metrics made of the statistics of a table.
fn push_table(metrics: &mut Vec<Metric>, table: &String, cfstats: &Option<String>)
    requires
        cfstats matches Some(text) ==> stalls_fit(text@),
    ensures
        metric_views(final(metrics)@) == metric_views(old(metrics)@) + table_metrics(
            table@,
            *cfstats,
        ),
{
    let ghost before = metric_views(metrics@);
    if let Some(text) = cfstats {
        let s = parse_stall_micros_from_cfstats(text.as_str());
        push_stall(metrics, table, "total", s.total);
        push_stall(metrics, table, "level0_slowdown", s.level0_slowdown);
        push_stall(metrics, table, "level0_numfiles", s.level0_numfiles);
        push_stall(metrics, table, "pending_compaction_bytes", s.pending_compaction_bytes);
    }
    assert(metric_views(metrics@) =~= before + table_metrics(table@, *cfstats));
}

/// The metrics made of what the engine says.
pub fn histogram_metrics(properties: &EngineProperties) -> (r: Vec<Metric>)
    requires
        metrics_fit(*properties),
    ensures
        metric_views(r@) == engine_metrics(*properties),
        r@.len() == engine_metrics(*properties).len(),
        forall|i: int|
            0 <= i < r@.len() ==> (#[trigger] r@[i]).name@ == engine_metrics(*properties)[i].name
                && r@[i].value == engine_metrics(*properties)[i].value && r@[i].labels@.len()
                == engine_metrics(*properties)[i].labels.len(),
{
    let mut metrics: Vec<Metric> = Vec::new();
    push_property(
        &mut metrics,
        "rocksdb.actual_delayed_write_rate",
        &properties.actual_delayed_write_rate,
    );
    push_property(&mut metrics, "rocksdb.is_write_stopped", &properties.is_write_stopped);
    let ghost start = metric_views(metrics@);
    let ghost tables = properties.cfstats@;
    let mut i: usize = 0;
    assert(tables.take(0) =~= Seq::empty());
    assert(start + all_table_metrics(tables.take(0)) =~= start);
    while i < properties.cfstats.len()
        invariant
            i <= tables.len(),
            tables == properties.cfstats@,
            metrics_fit(*properties),
            metric_views(metrics@) == start + all_table_metrics(tables.take(i as int)),
        decreases tables.len() - i,
    {
        proof {
            assert(tables.take(i + 1).drop_last() =~= tables.take(i as int));
            assert(tables.take(i + 1).last() == tables[i as int]);
        }
        let ghost before = metric_views(metrics@);
        push_table(&mut metrics, &properties.cfstats[i].0, &properties.cfstats[i].1);
        assert(metric_views(metrics@) =~= start + all_table_metrics(tables.take(i + 1)));
        i += 1;
    }
    assert(tables.take(i as int) =~= tables);
    push_property(
        &mut metrics,
        "rocksdb.cur_size_all_mem_tables",
        &properties.cur_size_all_mem_tables,
    );
    push_property(
        &mut metrics,
        "rocksdb.num_running_compactions",
        &properties.num_running_compactions,
    );
    push_property(&mut metrics, "rocksdb.num_running_flushes", &properties.num_running_flushes);
    assert(metric_views(metrics@) =~= engine_metrics(*properties));
    assert forall|i: int| 0 <= i < metrics@.len() implies (#[trigger] metrics@[i]).name@
        == engine_metrics(*properties)[i].name && metrics@[i].value == engine_metrics(
        *properties,
    )[i].value && metrics@[i].labels@.len() == engine_metrics(*properties)[i].labels.len() by {
        assert(metric_views(metrics@)[i] == metrics@[i]@);
    }
    metrics
}

/// Whether the metrics made of what the engine says can be computed.
pub fn can_report(properties: &EngineProperties) -> (r: bool)
    ensures
        r == metrics_fit(*properties),
{
    let mut i: usize = 0;
    while i < properties.cfstats.len()
        invariant
            i <= properties.cfstats@.len(),
            forall|j: int|
                0 <= j < i ==> ((#[trigger] properties.cfstats@[j]).1 matches Some(text)
                    ==> stalls_fit(text@)),
        decreases properties.cfstats@.len() - i,
    {
        if let Some(text) = &properties.cfstats[i].1 {
            if checked_stall_micros(text.as_str()).is_none() {
                assert(properties.cfstats@[i as int].1 is Some);
                return false;
            }
        }
        i += 1;
    }
    true
}

/// One more name.
proof fn lemma_named_push(list: Seq<String>, last: String, name: Seq<char>)
    ensures
        is_named(list.push(last), name) == (is_named(list, name) || last@ == name),
{
    let longer = list.push(last);
    if is_named(list, name) {
        let i = choose|i: int| 0 <= i < list.len() && (#[trigger] list[i])@ == name;
        assert(longer[i]@ == name);
    }
    if last@ == name {
        assert(longer[list.len() as int]@ == name);
    }
    if is_named(longer, name) {
        let i = choose|i: int| 0 <= i < longer.len() && (#[trigger] longer[i])@ == name;
        if i < list.len() {
            assert(list[i]@ == name);
        }
    }
}

/// `name` is one of `list`.
pub open spec fn is_named(list: Seq<String>, name: Seq<char>) -> bool {
    exists|i: int| 0 <= i < list.len() && (#[trigger] list[i])@ == name
}

/// A set of tables.
pub trait TableSet {
    /// Whether the set has a table of that name.
    spec fn named(name: CharSeq) -> bool;

    /// The names of the tables.
    fn tables() -> (r: Vec<String>)
        ensures
            forall|name: Seq<char>| #[trigger] is_named(r@, name) == Self::named(name),
    ;
}

/// The tables that hold the state and its tries.
#[derive(Debug)]
pub struct Tables;

impl TableSet for Tables {
    open spec fn named(name: CharSeq) -> bool {
        ||| name == "AccountsTrieV2"@
        ||| name == "StoragesTrieV2"@
        ||| name == "HashedAccounts"@
        ||| name == "HashedStorages"@
        ||| name == "AccountChangeSets"@
        ||| name == "StorageChangeSets"@
    }

    fn tables() -> (r: Vec<String>) {
        let mut r: Vec<String> = Vec::new();
        r.push("AccountsTrieV2".to_string());
        r.push("StoragesTrieV2".to_string());
        r.push("HashedAccounts".to_string());
        r.push("HashedStorages".to_string());
        r.push("AccountChangeSets".to_string());
        r.push("StorageChangeSets".to_string());
        proof {
            assert(r@[0]@ == "AccountsTrieV2"@);
            assert(r@[1]@ == "StoragesTrieV2"@);
            assert(r@[2]@ == "HashedAccounts"@);
            assert(r@[3]@ == "HashedStorages"@);
            assert(r@[4]@ == "AccountChangeSets"@);
            assert(r@[5]@ == "StorageChangeSets"@);
            assert(r@.len() == 6);
        }
        r
    }
}

/// A database has these tables and no others from the start.
pub proof fn law_tables(name: Seq<char>)
    ensures
        Tables::named(name) <==> name == "AccountsTrieV2"@ || name == "StoragesTrieV2"@ || name
            == "HashedAccounts"@ || name == "HashedStorages"@ || name == "AccountChangeSets"@
            || name == "StorageChangeSets"@,
{
}

/// An open database.
#[derive(Debug)]
pub struct DatabaseEnv {
    kind: DatabaseEnvKind,
    tables: Vec<String>,
}

impl DatabaseEnv {
    /// Whether the database can be written.
    pub closed spec fn kind(&self) -> DatabaseEnvKind {
        self.kind
    }

    /// Whether the database has a table.
    pub closed spec fn has(&self, name: Seq<char>) -> bool {
        is_named(self.tables@, name)
    }

    /// An open database of the given kind, with the tables that every database has.
    pub fn new(kind: DatabaseEnvKind) -> (r: DatabaseEnv)
        ensures
            r.kind() == kind,
            forall|name: Seq<char>| #[trigger] r.has(name) == Tables::named(name),
    {
        DatabaseEnv { kind, tables: Tables::tables() }
    }

    /// Whether the database can only be read.
    pub fn is_read_only(&self) -> (r: bool)
        ensures
            r == (self.kind() == DatabaseEnvKind::RO),
    {
        matches!(self.kind, DatabaseEnvKind::RO)
    }

    /// Whether the database has a table.
    pub fn has_table(&self, name: &str) -> (r: bool)
        ensures
            r == self.has(name@),
    {
        let wanted = chars_of(name);
        let mut i: usize = 0;
        while i < self.tables.len()
            invariant
                i <= self.tables@.len(),
                wanted@ == name@,
                forall|j: int| 0 <= j < i ==> (#[trigger] self.tables@[j])@ != name@,
            decreases self.tables@.len() - i,
        {
            let known = chars_of(self.tables[i].as_str());
            if same_text(known.as_slice(), wanted.as_slice()) {
                assert(self.tables@[i as int]@ == name@);
                return true;
            }
            i += 1;
        }
        false
    }

    /// Creates the tables that every database has. Those that are there stay as they are.
    pub fn create_tables(&mut self) -> (r: Result<(), DatabaseError>)
        ensures
            r is Ok,
            final(self).kind() == old(self).kind(),
            forall|name: Seq<char>| #[trigger]
                final(self).has(name) == (old(self).has(name) || Tables::named(name)),
    {
        self.create_tables_for::<Tables>()
    }

    /// Creates the tables of a set. Those that are there stay as they are.
    pub fn create_tables_for<TS: TableSet>(&mut self) -> (r: Result<(), DatabaseError>)
        ensures
            r is Ok,
            final(self).kind() == old(self).kind(),
            forall|name: Seq<char>| #[trigger]
                final(self).has(name) == (old(self).has(name) || TS::named(name)),
    {
        let wanted = TS::tables();
        let mut i: usize = 0;
        proof {
            assert(wanted@.take(0) =~= Seq::empty());
        }
        while i < wanted.len()
            invariant
                i <= wanted@.len(),
                self.kind() == old(self).kind(),
                forall|name: Seq<char>| #[trigger]
                    self.has(name) == (old(self).has(name) || is_named(
                        wanted@.take(i as int),
                        name,
                    )),
            decreases wanted@.len() - i,
        {
            let ghost before = *self;
            let name = wanted[i].as_str();
            if !self.has_table(name) {
                let copy = name.to_string();
                self.tables.push(copy);
            }
            proof {
                assert forall|other: Seq<char>| #[trigger]
                    self.has(other) == (old(self).has(other) || is_named(
                        wanted@.take(i + 1),
                        other,
                    )) by {
                    lemma_named_push(wanted@.take(i as int), wanted@[i as int], other);
                    assert(wanted@.take(i + 1) =~= wanted@.take(i as int).push(wanted@[i as int]));
                    assert(before.has(other) == (old(self).has(other) || is_named(
                        wanted@.take(i as int),
                        other,
                    )));
                    if self.tables@.len() != before.tables@.len() {
                        lemma_named_push(before.tables@, self.tables@.last(), other);
                        assert(self.tables@ =~= before.tables@.push(self.tables@.last()));
                    }
                }
            }
            i += 1;
        }
        assert(wanted@.take(i as int) =~= wanted@);
        Ok(())
    }

    /// Takes note of the client's version. The engine keeps none.
    pub fn record_client_version(&self, _version: ClientVersion) -> (r: Result<(), DatabaseError>)
        ensures
            r is Ok,
    {
        Ok(())
    }
}

/// An engine error with the given message, which has no code of its own.
pub open spec fn engine_error(info: DatabaseErrorInfo, message: Seq<char>) -> bool {
    info.message@ == message && info.code == -1
}

/// What the engine reported.
pub fn to_error_info(message: &str) -> (r: DatabaseErrorInfo)
    ensures
        engine_error(r, message@),
        r.message@ == message@,
        r.code == -1,
{
    DatabaseErrorInfo { message: message.to_owned(), code: -1 }
}

/// The database could not be opened.
pub fn open_error(message: &str) -> (r: DatabaseError)
    ensures
        r matches DatabaseError::Other(text) && text@ == "Failed to open RocksDB: "@ + message@,
{
    DatabaseError::Other("Failed to open RocksDB: ".to_owned().concat(message))
}

/// A read failed.
pub fn read_error(message: &str) -> (r: DatabaseError)
    ensures
        r matches DatabaseError::Read(info) && engine_error(info, message@) && info.message@
            == message@ && info.code == -1,
{
    DatabaseError::Read(to_error_info(message))
}

/// A deletion failed.
pub fn delete_error(message: &str) -> (r: DatabaseError)
    ensures
        r matches DatabaseError::Delete(info) && engine_error(info, message@) && info.message@
            == message@ && info.code == -1,
{
    DatabaseError::Delete(to_error_info(message))
}

/// A commit failed.
pub fn commit_error(message: &str) -> (r: DatabaseError)
    ensures
        r matches DatabaseError::Commit(info) && engine_error(info, message@) && info.message@
            == message@ && info.code == -1,
{
    DatabaseError::Commit(to_error_info(message))
}

/// A write failed.
pub fn write_error(
    table_name: &str,
    message: &str,
    operation: DatabaseWriteOperation,
    key: &[u8],
) -> (r: DatabaseError)
    ensures
        r matches DatabaseError::Write(e) && engine_error(e.info, message@) && e.operation
            == operation && e.table_name@ == table_name@ && e.key@ == key@,
{
    DatabaseError::Write(
        Box::new(
            DatabaseWriteError {
                info: to_error_info(message),
                operation,
                table_name: table_name.to_owned(),
                key: slice_to_vec(key),
            },
        ),
    )
}

/// The message that there is no column family for a table.
pub open spec fn cf_missing(table_name: Seq<char>) -> Seq<char> {
    "Column family '"@ + table_name + "' not found"@
}

/// An error of the engine has the message that was given, and no code of its own. That of a
/// missing column family names the table.
pub proof fn law_engine_errors(info: DatabaseErrorInfo, message: Seq<char>, table: Seq<char>)
    ensures
        engine_error(info, message) <==> info.message@ == message && info.code == -1,
        engine_error(info, cf_missing(table)) <==> info.message@ == "Column family '"@ + table
            + "' not found"@ && info.code == -1,
{
}

/// There is no column family for a table.
pub fn cf_not_found(table_name: &str) -> (r: DatabaseError)
    ensures
        r matches DatabaseError::Open(info) && engine_error(info, cf_missing(table_name@)),
        r matches DatabaseError::Open(info) && info.message@ == "Column family '"@ + table_name@
            + "' not found"@ && info.code == -1,
{
    let message = "Column family '".to_owned().concat(table_name).concat("' not found");
    DatabaseError::Open(DatabaseErrorInfo { message, code: -1 })
}

} // verus!
