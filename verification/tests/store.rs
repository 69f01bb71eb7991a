use chargelog::database::{Database, DatabaseError, StoreStep};
use chargelog::records::{Record, Table};

fn tbl(charge_point: &str, property: &str) -> Table {
    Table { charge_point: String::from(charge_point), property: String::from(property) }
}

fn rec(timestamp: &str, value: &str) -> Record {
    Record { timestamp: String::from(timestamp), value: String::from(value) }
}

/// A log file simulated in memory: the lines handed to `attach` (without
/// line breaks) and the exact byte content.
struct FakeFile {
    lines: Vec<String>,
    content: String,
}

impl FakeFile {
    fn new() -> FakeFile {
        FakeFile { lines: Vec::new(), content: String::new() }
    }

    fn append(&mut self, chunk: &str) {
        assert!(chunk.ends_with('\n'));
        self.content.push_str(chunk);
        self.lines.push(String::from(&chunk[..chunk.len() - 1]));
    }
}

/// Drives one `store` call to completion against a fake file, performing the
/// appends the library asks for.
fn drive_store(db: &mut Database, file: &mut FakeFile, table: &Table, record: Record) -> bool {
    let mut appended = false;
    match db.store(table, record.clone()) {
        StoreStep::NeedsRecovery => {
            let r = db.attach(table.clone(), file.lines.clone());
            if let Some(header) = r.expect("attach failed") {
                file.append(&header);
            }
            match db.store(table, record) {
                StoreStep::NeedsRecovery => panic!("still unattached after attach"),
                StoreStep::Skip => {}
                StoreStep::Append(chunk) => {
                    file.append(&chunk);
                    appended = true;
                }
            }
        }
        StoreStep::Skip => {}
        StoreStep::Append(chunk) => {
            file.append(&chunk);
            appended = true;
        }
    }
    appended
}

#[test]
fn open_rejects_non_directory() {
    let r = Database::open(String::from("./missing"), false);
    assert!(matches!(r, Err(DatabaseError::NotADirectory)));
}

#[test]
fn open_on_directory_starts_empty() {
    let db = Database::open(String::from("./data"), true).expect("open failed");
    assert!(!db.is_attached(&tbl("cp1", "mode")));
}

#[test]
fn table_path_joins_fields() {
    assert_eq!(tbl("cp1", "mode").path(), "cp1/mode");
    let db = Database::open(String::from("./data"), true).expect("open failed");
    assert_eq!(db.file_path(&tbl("cp1", "mode")), "./data/cp1/mode");
}

#[test]
fn concrete_scenario() {
    let mut db = Database::open(String::from("./data"), true).expect("open failed");
    let t = tbl("cp1", "mode");
    assert_eq!(db.file_path(&t), "./data/cp1/mode");
    let mut file = FakeFile::new();

    assert!(drive_store(&mut db, &mut file, &t, rec("2024-01-01T00:00:00Z", "Fast")));
    assert_eq!(file.content, "timestamp,value\n2024-01-01T00:00:00Z,Fast\n");

    assert!(!drive_store(&mut db, &mut file, &t, rec("2024-01-01T00:00:00Z", "Fast")));
    assert_eq!(file.content, "timestamp,value\n2024-01-01T00:00:00Z,Fast\n");

    assert!(drive_store(&mut db, &mut file, &t, rec("2024-01-01T00:01:00Z", "Solar")));
    assert_eq!(file.lines.len(), 3);
    assert_eq!(file.lines[2], "2024-01-01T00:01:00Z,Solar");
}

#[test]
fn dedup_appends_once() {
    let mut db = Database::open(String::from("./data"), true).expect("open failed");
    let t = tbl("cp1", "power");
    let mut file = FakeFile::new();
    assert!(drive_store(&mut db, &mut file, &t, rec("t1", "11")));
    assert!(!drive_store(&mut db, &mut file, &t, rec("t1", "11")));
    // header plus exactly one data row
    assert_eq!(file.lines, vec![String::from("timestamp,value"), String::from("t1,11")]);
}

#[test]
fn dedup_needs_both_fields_equal() {
    // a new timestamp with an unchanged value is a different record
    let mut db = Database::open(String::from("./data"), true).expect("open failed");
    let t = tbl("cp1", "power");
    let mut file = FakeFile::new();
    assert!(drive_store(&mut db, &mut file, &t, rec("t1", "11")));
    assert!(drive_store(&mut db, &mut file, &t, rec("t2", "11")));
    assert_eq!(file.lines.len(), 3);
}

#[test]
fn change_detection_appends_in_order() {
    let mut db = Database::open(String::from("./data"), true).expect("open failed");
    let t = tbl("cp1", "mode");
    let mut file = FakeFile::new();
    assert!(drive_store(&mut db, &mut file, &t, rec("t1", "Fast")));
    assert!(drive_store(&mut db, &mut file, &t, rec("t2", "Solar")));
    assert_eq!(
        file.lines,
        vec![
            String::from("timestamp,value"),
            String::from("t1,Fast"),
            String::from("t2,Solar"),
        ]
    );
}

#[test]
fn restart_recovery() {
    let mut file = FakeFile::new();
    {
        let mut db = Database::open(String::from("./data"), true).expect("open failed");
        let t = tbl("cp1", "mode");
        assert!(drive_store(&mut db, &mut file, &t, rec("t1", "A")));
        assert!(!drive_store(&mut db, &mut file, &t, rec("t1", "A")));
        assert!(drive_store(&mut db, &mut file, &t, rec("t2", "B")));
    }
    assert_eq!(
        file.lines,
        vec![String::from("timestamp,value"), String::from("t1,A"), String::from("t2,B")]
    );

    // a fresh store over the same root must not re-emit the last record
    let mut db = Database::open(String::from("./data"), true).expect("open failed");
    let t = tbl("cp1", "mode");
    assert!(!drive_store(&mut db, &mut file, &t, rec("t2", "B")));
    assert!(drive_store(&mut db, &mut file, &t, rec("t3", "C")));
    assert_eq!(
        file.lines,
        vec![
            String::from("timestamp,value"),
            String::from("t1,A"),
            String::from("t2,B"),
            String::from("t3,C"),
        ]
    );
}

#[test]
fn header_is_written_first_and_only_once() {
    let mut db = Database::open(String::from("./data"), true).expect("open failed");
    let t = tbl("cp1", "mode");
    let header = db
        .attach(t.clone(), Vec::new())
        .expect("attach failed")
        .expect("no header for an empty file");
    assert_eq!(header, "timestamp,value\n");

    // an existing non-empty file gets no second header
    let mut db2 = Database::open(String::from("./data"), true).expect("open failed");
    let lines = vec![String::from("timestamp,value")];
    assert_eq!(db2.attach(t.clone(), lines).expect("attach failed"), None);
}

#[test]
fn header_is_never_parsed_as_data() {
    // the first line matches the data format; recovery must still skip it
    let mut db = Database::open(String::from("./data"), true).expect("open failed");
    let t = tbl("cp1", "mode");
    let lines = vec![String::from("t0,X")];
    assert_eq!(db.attach(t.clone(), lines).expect("attach failed"), None);
    // nothing was recovered, so even the record spelled like that first
    // line is appended
    match db.store(&t, rec("t0", "X")) {
        StoreStep::Append(chunk) => assert_eq!(chunk, "t0,X\n"),
        step => panic!("expected an append, got {:?}", step),
    }
}

#[test]
fn unparseable_header_is_tolerated() {
    let mut db = Database::open(String::from("./data"), true).expect("open failed");
    let t = tbl("cp1", "mode");
    let lines = vec![String::from("no comma here"), String::from("t1,V")];
    assert_eq!(db.attach(t.clone(), lines).expect("attach failed"), None);
    assert_eq!(db.store(&t, rec("t1", "V")), StoreStep::Skip);
}

#[test]
fn malformed_data_row_is_an_error() {
    let mut db = Database::open(String::from("./data"), true).expect("open failed");
    let t = tbl("cp1", "mode");
    let lines = vec![String::from("timestamp,value"), String::from("t1,a,b")];
    assert_eq!(db.attach(t.clone(), lines), Err(DatabaseError::MalformedLog));
    // the handle was discarded: the table is still unattached
    assert!(!db.is_attached(&t));

    let lines = vec![String::from("timestamp,value"), String::from("no comma")];
    assert_eq!(db.attach(t.clone(), lines), Err(DatabaseError::MalformedLog));
}

#[test]
fn later_rows_win_recovery() {
    let mut db = Database::open(String::from("./data"), true).expect("open failed");
    let t = tbl("cp1", "mode");
    let lines = vec![
        String::from("timestamp,value"),
        String::from("t1,A"),
        String::from("t2,B"),
        String::from("t3,A"),
    ];
    assert_eq!(db.attach(t.clone(), lines).expect("attach failed"), None);
    assert_eq!(db.store(&t, rec("t3", "A")), StoreStep::Skip);
}

#[test]
fn isolation_across_tables() {
    let mut db = Database::open(String::from("./data"), true).expect("open failed");
    let t1 = tbl("entity1", "propX");
    let t2 = tbl("entity1", "propY");
    let t3 = tbl("entity2", "propX");
    let mut f1 = FakeFile::new();
    let mut f2 = FakeFile::new();
    let mut f3 = FakeFile::new();

    assert!(drive_store(&mut db, &mut f1, &t1, rec("t1", "A")));
    assert!(drive_store(&mut db, &mut f2, &t2, rec("t1", "A")));
    assert!(drive_store(&mut db, &mut f3, &t3, rec("t1", "A")));

    // writing to t1 touches neither t2's file nor its cached state
    assert!(drive_store(&mut db, &mut f1, &t1, rec("t2", "B")));
    assert_eq!(f2.lines, vec![String::from("timestamp,value"), String::from("t1,A")]);
    assert_eq!(f3.lines, vec![String::from("timestamp,value"), String::from("t1,A")]);
    assert!(!drive_store(&mut db, &mut f2, &t2, rec("t1", "A")));
    assert!(!drive_store(&mut db, &mut f3, &t3, rec("t1", "A")));
}

#[test]
fn discard_forces_recovery() {
    let mut db = Database::open(String::from("./data"), true).expect("open failed");
    let t = tbl("cp1", "mode");
    let mut file = FakeFile::new();
    assert!(drive_store(&mut db, &mut file, &t, rec("t1", "A")));
    assert!(db.is_attached(&t));
    db.discard(&t);
    assert!(!db.is_attached(&t));
    assert!(matches!(db.store(&t, rec("t1", "A")), StoreStep::NeedsRecovery));
    // recovery from the real file restores the dedup state
    assert!(!drive_store(&mut db, &mut file, &t, rec("t1", "A")));
}
