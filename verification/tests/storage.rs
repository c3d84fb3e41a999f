use orifude::storage::paths::{AppPaths, PathError};
use orifude::storage::{
    StorageError, StorageFootprint, MAIN_FILE_LIMIT, MAX_PAGE_COUNT, MAX_SQLITE_SECTOR_BYTES, PAGE_SIZE,
    RECORD_FRAMING_BYTES, TRANSIENT_SIDECAR_LIMIT,
};

#[test]
fn sqlite_capacity_and_permission_codes_keep_typed_recovery_paths() {
    let full = rusqlite::Error::SqliteFailure(rusqlite::ffi::Error::new(rusqlite::ffi::SQLITE_FULL), None);
    let read_only =
        rusqlite::Error::SqliteFailure(rusqlite::ffi::Error::new(rusqlite::ffi::SQLITE_READONLY), None);
    assert!(matches!(StorageError::from_sqlite(full), StorageError::Full));
    assert!(matches!(StorageError::from_sqlite(read_only), StorageError::ReadOnly));
}

#[test]
fn rollback_journal_budget_covers_one_record_per_database_page() {
    assert_eq!(RECORD_FRAMING_BYTES, 8);
    assert_eq!(MAX_SQLITE_SECTOR_BYTES, 64 * 1024);
    let largest_journal = MAX_PAGE_COUNT * (PAGE_SIZE + RECORD_FRAMING_BYTES) + MAX_SQLITE_SECTOR_BYTES;
    assert_eq!(MAIN_FILE_LIMIT, MAX_PAGE_COUNT * PAGE_SIZE);
    assert!(largest_journal <= TRANSIENT_SIDECAR_LIMIT);
}

#[test]
fn sqlite_busy_and_corrupt_codes_keep_their_kinds() {
    let busy = rusqlite::Error::SqliteFailure(rusqlite::ffi::Error::new(rusqlite::ffi::SQLITE_BUSY), None);
    assert!(matches!(StorageError::from_sqlite(busy), StorageError::Locked));
    let corrupt = rusqlite::Error::SqliteFailure(rusqlite::ffi::Error::new(rusqlite::ffi::SQLITE_CORRUPT), None);
    assert!(matches!(StorageError::from_sqlite(corrupt), StorageError::Corrupt));
}

#[test]
fn footprints_are_checked_against_both_limits() {
    let within = StorageFootprint { main: MAIN_FILE_LIMIT, journal: 1, wal: 0, shared_memory: 0 };
    assert!(within.within_limits());
    let main_over = StorageFootprint { main: MAIN_FILE_LIMIT + 1, journal: 0, wal: 0, shared_memory: 0 };
    assert!(!main_over.within_limits());
    let sidecars_over = StorageFootprint { main: 0, journal: u64::MAX, wal: u64::MAX, shared_memory: 0 };
    assert!(!sidecars_over.within_limits());
}

#[test]
fn data_files_live_under_the_data_directory() {
    let paths = AppPaths::injected("/home/a/.local/share/orifude".to_owned(), "/c".to_owned(), "/k/".to_owned());
    assert_eq!(paths.data(), "/home/a/.local/share/orifude");
    assert_eq!(paths.config(), "/c");
    assert_eq!(paths.cache(), "/k/");
    assert_eq!(paths.database(), "/home/a/.local/share/orifude/orifude.sqlite3");
    assert_eq!(paths.lock(), "/home/a/.local/share/orifude/orifude.lock");
    assert_eq!(paths.managed_packs(), "/home/a/.local/share/orifude/packs");
    assert_eq!(paths.pack_staging(), "/home/a/.local/share/orifude/pack-staging");
    let trailing = AppPaths::injected("/d/".to_owned(), String::new(), String::new());
    assert_eq!(trailing.database(), "/d/orifude.sqlite3");
    assert_eq!(PathError.message(), "the operating system user directories are unavailable");
}
