use retia_core::sqlite::{SqliteTuning, SQLITE_BUSY_TIMEOUT_MS};
use sqlite::{Connection, ConnectionThreadSafe, State};

/// Opens a connection and runs every statement of `tuning` on it.
fn open_connection(path: &std::path::Path, tuning: &SqliteTuning) -> ConnectionThreadSafe {
    let conn = Connection::open_thread_safe(path).unwrap();
    for pragma in tuning.pragmas() {
        let mut statement = conn.prepare(&pragma).unwrap();
        while statement.next().unwrap() != State::Done {}
    }
    conn
}

fn int_pragma(conn: &ConnectionThreadSafe, name: &str) -> i64 {
    let mut s = conn.prepare(format!("PRAGMA {name};")).unwrap();
    assert!(matches!(s.next().unwrap(), State::Row), "{name} returned no row");
    s.read::<i64, _>(0).unwrap()
}

fn journal_mode(conn: &ConnectionThreadSafe) -> String {
    let mut jm = conn.prepare("PRAGMA journal_mode;").unwrap();
    assert!(matches!(jm.next().unwrap(), State::Row));
    jm.read::<String, _>(0).unwrap()
}

#[test]
fn opened_connection_has_busy_timeout() {
    let dir = tempfile::tempdir().unwrap();
    let path = dir.path().join("busy_timeout.db");
    let conn = open_connection(&path, &SqliteTuning::baseline());
    let mut statement = conn.prepare("PRAGMA busy_timeout;").unwrap();
    assert!(matches!(statement.next().unwrap(), State::Row));
    assert_eq!(
        statement.read::<i64, _>(0).unwrap(),
        i64::from(SQLITE_BUSY_TIMEOUT_MS)
    );
}

#[test]
fn rotating_profile_pragmas_applied() {
    let dir = tempfile::tempdir().unwrap();
    let path = dir.path().join("rotating.db");
    let conn = open_connection(&path, &SqliteTuning::rotating());
    // Materialize the file so page_size is locked in at the configured value.
    conn.execute("create table t(x);").unwrap();

    assert_eq!(journal_mode(&conn), "wal");
    assert_eq!(int_pragma(&conn, "page_size"), 16_384);
    assert_eq!(int_pragma(&conn, "synchronous"), 1); // NORMAL
    assert_eq!(int_pragma(&conn, "cache_size"), -262_144);
    assert_eq!(int_pragma(&conn, "mmap_size"), 256 * 1024 * 1024);
    assert_eq!(int_pragma(&conn, "busy_timeout"), i64::from(SQLITE_BUSY_TIMEOUT_MS));
}

#[test]
fn flash_profile_pragmas_applied() {
    let dir = tempfile::tempdir().unwrap();
    let path = dir.path().join("flash.db");
    let conn = open_connection(&path, &SqliteTuning::flash());
    conn.execute("create table t(x);").unwrap();

    assert_eq!(journal_mode(&conn), "wal");
    assert_eq!(int_pragma(&conn, "synchronous"), 1); // NORMAL
    assert_eq!(int_pragma(&conn, "cache_size"), -131_072);
    assert_eq!(int_pragma(&conn, "mmap_size"), 256 * 1024 * 1024);
    assert_eq!(int_pragma(&conn, "busy_timeout"), i64::from(SQLITE_BUSY_TIMEOUT_MS));
}
