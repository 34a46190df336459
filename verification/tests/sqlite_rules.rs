use retia_core::sqlite::{
    check_sqlite_path, range_count_from_row, select_tuning, CommitStep, SqliteTuning,
    StorageError, TxState, SQLITE_BUSY_TIMEOUT_MS,
};

#[test]
fn baseline_profile_only_sets_busy_timeout() {
    let t = SqliteTuning::baseline();
    assert_eq!(t.pragmas(), vec!["PRAGMA busy_timeout = 5000;".to_string()]);
    assert_eq!(SQLITE_BUSY_TIMEOUT_MS, 5000);
}

#[test]
fn rotating_profile_pragmas_in_order() {
    let t = SqliteTuning::rotating();
    assert_eq!(
        t.pragmas(),
        vec![
            "PRAGMA page_size = 16384;",
            "PRAGMA journal_mode = WAL;",
            "PRAGMA synchronous = NORMAL;",
            "PRAGMA mmap_size = 268435456;",
            "PRAGMA cache_size = -262144;",
            "PRAGMA temp_store = MEMORY;",
            "PRAGMA wal_autocheckpoint = 10000;",
            "PRAGMA busy_timeout = 5000;",
        ]
    );
}

#[test]
fn flash_profile_pragmas_in_order() {
    let t = SqliteTuning::flash();
    assert_eq!(
        t.pragmas(),
        vec![
            "PRAGMA journal_mode = WAL;",
            "PRAGMA synchronous = NORMAL;",
            "PRAGMA mmap_size = 268435456;",
            "PRAGMA cache_size = -131072;",
            "PRAGMA temp_store = MEMORY;",
            "PRAGMA busy_timeout = 5000;",
        ]
    );
}

#[test]
fn pragma_numbers_at_the_extremes() {
    let t = SqliteTuning {
        page_size: Some(0),
        journal_mode: None,
        synchronous: None,
        mmap_size: Some(i64::MIN),
        cache_size: Some(i64::MAX),
        temp_store: None,
        wal_autocheckpoint: Some(u32::MAX),
        busy_timeout_ms: 0,
    };
    assert_eq!(
        t.pragmas(),
        vec![
            "PRAGMA page_size = 0;",
            "PRAGMA mmap_size = -9223372036854775808;",
            "PRAGMA cache_size = 9223372036854775807;",
            "PRAGMA wal_autocheckpoint = 4294967295;",
            "PRAGMA busy_timeout = 0;",
        ]
    );
}

#[test]
fn profile_selection() {
    assert_eq!(select_tuning(true, true, false).page_size, Some(16384));
    assert_eq!(select_tuning(true, true, true).page_size, Some(16384));
    assert_eq!(select_tuning(true, false, true).cache_size, Some(-131072));
    assert_eq!(select_tuning(false, true, true).pragmas().len(), 1);
    assert_eq!(select_tuning(true, false, false).pragmas().len(), 1);
}

#[test]
fn empty_path_is_refused() {
    assert_eq!(check_sqlite_path(""), Err(StorageError::EmptyPath));
    assert_eq!(check_sqlite_path("db.sqlite"), Ok(()));
    assert_eq!(StorageError::EmptyPath.message(), "empty path for sqlite storage");
}

#[test]
fn write_transaction_commits_once() {
    let mut tx = TxState::begin(true);
    assert!(tx.needs_begin_statement());
    assert_eq!(tx.commit_step(), CommitStep::RunCommit);
    assert!(tx.rollback_on_drop());
    tx.record_commit();
    assert_eq!(tx.commit_step(), CommitStep::AlreadyCommitted);
    assert!(!tx.rollback_on_drop());
    assert_eq!(StorageError::MultipleCommits.message(), "multiple commits");
}

#[test]
fn read_transaction_has_nothing_to_commit() {
    let tx = TxState::begin(false);
    assert!(!tx.needs_begin_statement());
    assert_eq!(tx.commit_step(), CommitStep::Nothing);
    assert!(!tx.rollback_on_drop());
}

#[test]
fn range_count_answers() {
    assert_eq!(range_count_from_row(Some(42)), Ok(42));
    assert_eq!(range_count_from_row(Some(0)), Ok(0));
    assert_eq!(range_count_from_row(None), Err(StorageError::RangeCountNoRows));
    assert_eq!(
        StorageError::RangeCountNoRows.message(),
        "range count query returned no rows"
    );
}
