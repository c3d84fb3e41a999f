//! Storage bounds, typed storage errors, and the decisions of durable progress.

use vstd::prelude::*;
use vstd::string::{StringExecFns, StringSliceAdditionalSpecFns};
use vstd::utf8::encode_utf8;

use crate::packs::{PackError, PackErrorView};

pub mod paths;
pub mod progress;
pub mod registry;
pub mod replay;
pub mod settings;


verus! {

pub const SCHEMA_VERSION: u32 = 3;
pub const PAGE_SIZE: u64 = 4096;
pub const MAIN_FILE_LIMIT: u64 = 134217728;
pub const MAX_PAGE_COUNT: u64 = MAIN_FILE_LIMIT / PAGE_SIZE;
pub const NONESSENTIAL_RESERVE: u64 = 16777216;
pub const RESERVE_PAGES: u64 = NONESSENTIAL_RESERVE / PAGE_SIZE;
pub const TRANSIENT_SIDECAR_LIMIT: u64 = 138412032;
pub const RECENT_REPLAYS: i64 = 20;
pub const PRUNE_BATCH: i64 = 256;
pub const MAX_INSTALLED_PACKS_DB: u64 = 32;
pub const MAX_DATABASE_VALUE_BYTES: i32 = 1048576;
pub const PROGRESS_PAGE_SIZE: usize = 128;

/// The bytes of one rollback-journal record beyond its page.
pub const RECORD_FRAMING_BYTES: u64 = 8;

/// The largest sector SQLite pads a journal header to.
pub const MAX_SQLITE_SECTOR_BYTES: u64 = 65536;

/// The database holds whole pages up to its file limit, and a rollback journal
/// with one framed record per page and one padded header fits the sidecar budget.
pub proof fn lemma_journal_budget()
    ensures
        MAIN_FILE_LIMIT == MAX_PAGE_COUNT * PAGE_SIZE,
        MAX_PAGE_COUNT * (PAGE_SIZE + RECORD_FRAMING_BYTES) + MAX_SQLITE_SECTOR_BYTES <= TRANSIENT_SIDECAR_LIMIT,
        RESERVE_PAGES * PAGE_SIZE == NONESSENTIAL_RESERVE,
{
}

/// The current sizes of the database file and its sidecars.
#[derive(Clone, Copy, Debug, PartialEq, Eq)]
pub struct StorageFootprint {
    pub main: u64,
    pub journal: u64,
    pub wal: u64,
    pub shared_memory: u64,
}

pub open spec fn saturating(n: int) -> u64 {
    if n > u64::MAX {
        u64::MAX
    } else {
        n as u64
    }
}

impl StorageFootprint {
    /// The sidecar bytes, saturating at the largest value.
    pub fn sidecars(self) -> (r: u64)
        ensures
            r == saturating(self.journal + self.wal + self.shared_memory),
    {
        self.journal.saturating_add(self.wal).saturating_add(self.shared_memory)
    }

    /// Whether the files stay within the database and sidecar limits.
    pub fn within_limits(self) -> (r: bool)
        ensures
            r == (self.main <= MAIN_FILE_LIMIT && saturating(self.journal + self.wal + self.shared_memory)
                <= TRANSIENT_SIDECAR_LIMIT),
    {
        self.main <= MAIN_FILE_LIMIT && self.sidecars() <= TRANSIENT_SIDECAR_LIMIT
    }
}

/// The SQLite policy that an open connection reports.
#[derive(Clone, Debug, PartialEq, Eq)]
pub struct SqlitePolicy {
    pub page_size: u64,
    pub max_page_count: u64,
    pub journal_mode: String,
    pub cache_spill: bool,
}

/// `rusqlite::Error`, carried through storage errors as an opaque cause.
#[verifier::external_type_specification]
#[verifier::external_body]
pub struct ExSqliteError(rusqlite::Error);

/// Why a storage operation failed.
#[derive(Debug)]
pub enum StorageError {
    Io(std::io::Error),
    Sqlite(rusqlite::Error),
    Locked,
    Full,
    ReadOnly,
    Corrupt,
    UnsupportedSchema { found: u32, supported: u32 },
    UnsupportedPageSize { found: u64, required: u64 },
    ResourceLimit,
    InvalidSettings,
    InvalidCompletion,
    ReplayData,
    Pack(PackError),
    PackConflict,
    PackFingerprint,
    PackCleanup,
}

/// What a storage error says, without its operating-system or database cause.
#[derive(PartialEq, Eq, Structural)]
pub enum StorageErrorKind {
    Io,
    Sqlite,
    Locked,
    Full,
    ReadOnly,
    Corrupt,
    UnsupportedSchema { found: u32, supported: u32 },
    UnsupportedPageSize { found: u64, required: u64 },
    ResourceLimit,
    InvalidSettings,
    InvalidCompletion,
    ReplayData,
    Pack,
    PackConflict,
    PackFingerprint,
    PackCleanup,
}

/// The kinds of operating-system failure that storage tells apart.
#[derive(Clone, Copy, PartialEq, Eq, Structural)]
pub enum IoFailure {
    PermissionDenied,
    ReadOnlyFilesystem,
    StorageFull,
    FileTooLarge,
    Other,
}

/// The SQLite result codes that storage tells apart.
#[derive(Clone, Copy, PartialEq, Eq, Structural)]
pub enum SqliteCode {
    DatabaseBusy,
    DatabaseLocked,
    FileLockingProtocolFailed,
    DiskFull,
    ReadOnly,
    PermissionDenied,
    CannotOpen,
    DatabaseCorrupt,
    NotADatabase,
    TooBig,
    Other,
}

/// How a database failure reads: a result code, a value that did not convert, or something else.
#[derive(Clone, Copy, PartialEq, Eq, Structural)]
pub enum SqliteFailure {
    Code(SqliteCode),
    Conversion,
    Other,
}

/// `std::io::Error::kind`, by the kinds storage tells apart. An I/O error is
/// opaque here, so no clause ties the result to the error: the classification
/// of an I/O failure rests on this body alone.
#[verifier::external_body]
fn io_failure(error: &std::io::Error) -> (r: IoFailure) {
    match error.kind() {
        std::io::ErrorKind::PermissionDenied => IoFailure::PermissionDenied,
        std::io::ErrorKind::ReadOnlyFilesystem => IoFailure::ReadOnlyFilesystem,
        std::io::ErrorKind::StorageFull => IoFailure::StorageFull,
        std::io::ErrorKind::FileTooLarge => IoFailure::FileTooLarge,
        _ => IoFailure::Other,
    }
}

/// `rusqlite::ffi::ErrorCode`, the primary result code of a SQLite failure, carried opaquely.
#[verifier::external_type_specification]
#[verifier::external_body]
pub struct ExSqliteErrorCode(rusqlite::ffi::ErrorCode);

/// The variant of a `rusqlite::Error` that storage looks at: a SQLite failure
/// with its primary result code, one of the four value conversion failures, or
/// another variant.
pub enum SqliteErrorShape {
    Code(rusqlite::ffi::ErrorCode),
    FromSqlConversionFailure,
    IntegralValueOutOfRange,
    Utf8Error,
    InvalidColumnType,
    Other,
}

/// The variant of a `rusqlite::Error`, one arm per variant that storage tells
/// apart. The error is opaque here, so no clause ties the result to it.
#[verifier::external_body]
fn sqlite_shape(error: &rusqlite::Error) -> (r: SqliteErrorShape) {
    match error {
        rusqlite::Error::SqliteFailure(failure, _) => SqliteErrorShape::Code(failure.code),
        rusqlite::Error::FromSqlConversionFailure(..) => SqliteErrorShape::FromSqlConversionFailure,
        rusqlite::Error::IntegralValueOutOfRange(..) => SqliteErrorShape::IntegralValueOutOfRange,
        rusqlite::Error::Utf8Error(..) => SqliteErrorShape::Utf8Error,
        rusqlite::Error::InvalidColumnType(..) => SqliteErrorShape::InvalidColumnType,
        _ => SqliteErrorShape::Other,
    }
}

/// The variant of a `rusqlite::ffi::ErrorCode`, by the codes storage tells apart.
/// The code is opaque here, so no clause ties the result to it.
#[verifier::external_body]
fn sqlite_code(code: rusqlite::ffi::ErrorCode) -> (r: SqliteCode) {
    match code {
        rusqlite::ffi::ErrorCode::DatabaseBusy => SqliteCode::DatabaseBusy,
        rusqlite::ffi::ErrorCode::DatabaseLocked => SqliteCode::DatabaseLocked,
        rusqlite::ffi::ErrorCode::FileLockingProtocolFailed => SqliteCode::FileLockingProtocolFailed,
        rusqlite::ffi::ErrorCode::DiskFull => SqliteCode::DiskFull,
        rusqlite::ffi::ErrorCode::ReadOnly => SqliteCode::ReadOnly,
        rusqlite::ffi::ErrorCode::PermissionDenied => SqliteCode::PermissionDenied,
        rusqlite::ffi::ErrorCode::CannotOpen => SqliteCode::CannotOpen,
        rusqlite::ffi::ErrorCode::DatabaseCorrupt => SqliteCode::DatabaseCorrupt,
        rusqlite::ffi::ErrorCode::NotADatabase => SqliteCode::NotADatabase,
        rusqlite::ffi::ErrorCode::TooBig => SqliteCode::TooBig,
        _ => SqliteCode::Other,
    }
}

/// How a database failure reads, from the variant of its error: its result
/// code for a SQLite failure, and a conversion failure for a stored value that
/// did not convert to the type read.
fn sqlite_failure(error: &rusqlite::Error) -> (r: SqliteFailure) {
    match sqlite_shape(error) {
        SqliteErrorShape::Code(code) => SqliteFailure::Code(sqlite_code(code)),
        SqliteErrorShape::FromSqlConversionFailure => SqliteFailure::Conversion,
        SqliteErrorShape::IntegralValueOutOfRange => SqliteFailure::Conversion,
        SqliteErrorShape::Utf8Error => SqliteFailure::Conversion,
        SqliteErrorShape::InvalidColumnType => SqliteFailure::Conversion,
        SqliteErrorShape::Other => SqliteFailure::Other,
    }
}

/// How an operating-system failure is reported.
pub open spec fn io_error_kind(failure: IoFailure) -> StorageErrorKind {
    match failure {
        IoFailure::PermissionDenied | IoFailure::ReadOnlyFilesystem => StorageErrorKind::ReadOnly,
        IoFailure::StorageFull | IoFailure::FileTooLarge => StorageErrorKind::Full,
        IoFailure::Other => StorageErrorKind::Io,
    }
}

/// How a database failure is reported.
pub open spec fn sqlite_error_kind(failure: SqliteFailure) -> StorageErrorKind {
    match failure {
        SqliteFailure::Code(code) => match code {
            SqliteCode::DatabaseBusy | SqliteCode::DatabaseLocked | SqliteCode::FileLockingProtocolFailed =>
                StorageErrorKind::Locked,
            SqliteCode::DiskFull => StorageErrorKind::Full,
            SqliteCode::ReadOnly | SqliteCode::PermissionDenied | SqliteCode::CannotOpen => StorageErrorKind::ReadOnly,
            SqliteCode::DatabaseCorrupt | SqliteCode::NotADatabase => StorageErrorKind::Corrupt,
            SqliteCode::TooBig => StorageErrorKind::ResourceLimit,
            SqliteCode::Other => StorageErrorKind::Sqlite,
        },
        SqliteFailure::Conversion => StorageErrorKind::Corrupt,
        SqliteFailure::Other => StorageErrorKind::Sqlite,
    }
}

impl StorageError {
    pub open spec fn kind(&self) -> StorageErrorKind {
        match self {
            StorageError::Io(_) => StorageErrorKind::Io,
            StorageError::Sqlite(_) => StorageErrorKind::Sqlite,
            StorageError::Locked => StorageErrorKind::Locked,
            StorageError::Full => StorageErrorKind::Full,
            StorageError::ReadOnly => StorageErrorKind::ReadOnly,
            StorageError::Corrupt => StorageErrorKind::Corrupt,
            StorageError::UnsupportedSchema { found, supported } => StorageErrorKind::UnsupportedSchema {
                found: *found,
                supported: *supported,
            },
            StorageError::UnsupportedPageSize { found, required } => StorageErrorKind::UnsupportedPageSize {
                found: *found,
                required: *required,
            },
            StorageError::ResourceLimit => StorageErrorKind::ResourceLimit,
            StorageError::InvalidSettings => StorageErrorKind::InvalidSettings,
            StorageError::InvalidCompletion => StorageErrorKind::InvalidCompletion,
            StorageError::ReplayData => StorageErrorKind::ReplayData,
            StorageError::Pack(_) => StorageErrorKind::Pack,
            StorageError::PackConflict => StorageErrorKind::PackConflict,
            StorageError::PackFingerprint => StorageErrorKind::PackFingerprint,
            StorageError::PackCleanup => StorageErrorKind::PackCleanup,
        }
    }

    /// Classifies an operating-system failure.
    pub fn classify_io(failure: IoFailure, error: std::io::Error) -> (r: Self)
        ensures
            r.kind() == io_error_kind(failure),
    {
        match failure {
            IoFailure::PermissionDenied | IoFailure::ReadOnlyFilesystem => StorageError::ReadOnly,
            IoFailure::StorageFull | IoFailure::FileTooLarge => StorageError::Full,
            IoFailure::Other => StorageError::Io(error),
        }
    }

    /// Classifies a database failure.
    pub fn classify_sqlite(failure: SqliteFailure, error: rusqlite::Error) -> (r: Self)
        ensures
            r.kind() == sqlite_error_kind(failure),
    {
        match failure {
            SqliteFailure::Code(code) => match code {
                SqliteCode::DatabaseBusy | SqliteCode::DatabaseLocked | SqliteCode::FileLockingProtocolFailed =>
                    StorageError::Locked,
                SqliteCode::DiskFull => StorageError::Full,
                SqliteCode::ReadOnly | SqliteCode::PermissionDenied | SqliteCode::CannotOpen => StorageError::ReadOnly,
                SqliteCode::DatabaseCorrupt | SqliteCode::NotADatabase => StorageError::Corrupt,
                SqliteCode::TooBig => StorageError::ResourceLimit,
                SqliteCode::Other => StorageError::Sqlite(error),
            },
            SqliteFailure::Conversion => StorageError::Corrupt,
            SqliteFailure::Other => StorageError::Sqlite(error),
        }
    }

    /// An operating-system failure, with read-only and full storage told apart.
    pub fn from_io(error: std::io::Error) -> (r: Self)
        ensures
            r.kind() is Io || r.kind() is ReadOnly || r.kind() is Full,
    {
        let failure = io_failure(&error);
        StorageError::classify_io(failure, error)
    }

    /// A database failure, with lock, capacity, permission, and corruption failures told apart.
    pub fn from_sqlite(error: rusqlite::Error) -> (r: Self)
        ensures
            r.kind() is Sqlite || r.kind() is Locked || r.kind() is Full || r.kind() is ReadOnly || r.kind() is Corrupt
                || r.kind() is ResourceLimit,
    {
        let failure = sqlite_failure(&error);
        StorageError::classify_sqlite(failure, error)
    }

    /// The error as a sentence for players.
    pub fn message(&self) -> (r: String)
        ensures
            r@ == storage_error_text(self.kind()),
    {
        match self {
            StorageError::Io(_) => String::from_str("local storage I/O failed"),
            StorageError::Sqlite(_) => String::from_str("the local database operation failed"),
            StorageError::Locked => String::from_str("another Orifude process owns the local database"),
            StorageError::Full => String::from_str("local storage is full or its hard limit was reached"),
            StorageError::ReadOnly => String::from_str("the local storage path is read-only"),
            StorageError::Corrupt => String::from_str("the local database is corrupt; keep it for recovery"),
            StorageError::UnsupportedSchema { found, supported } => {
                let mut text = String::from_str("database schema ");
                crate::text::push_decimal(&mut text, *found as u64);
                text.append(" is newer than supported schema ");
                crate::text::push_decimal(&mut text, *supported as u64);
                text
            },
            StorageError::UnsupportedPageSize { found, required } => {
                let mut text = String::from_str("database page size ");
                crate::text::push_decimal(&mut text, *found);
                text.append(" does not match required size ");
                crate::text::push_decimal(&mut text, *required);
                text
            },
            StorageError::ResourceLimit => String::from_str("a local storage resource bound was reached"),
            StorageError::InvalidSettings => String::from_str("the requested settings are invalid"),
            StorageError::InvalidCompletion => String::from_str(
                "only a valid successful replay can be saved as a completion",
            ),
            StorageError::ReplayData => String::from_str("saved replay data is invalid or incompatible"),
            StorageError::Pack(_) => String::from_str("the puzzle pack was not accepted"),
            StorageError::PackConflict => String::from_str("an installed pack already uses this pack identity"),
            StorageError::PackFingerprint => String::from_str(
                "installed pack content does not match its recorded fingerprint",
            ),
            StorageError::PackCleanup => String::from_str("pack state changed, but managed-file cleanup needs a retry"),
        }
    }
}

pub open spec fn storage_error_text(kind: StorageErrorKind) -> Seq<char> {
    match kind {
        StorageErrorKind::Io => "local storage I/O failed"@,
        StorageErrorKind::Sqlite => "the local database operation failed"@,
        StorageErrorKind::Locked => "another Orifude process owns the local database"@,
        StorageErrorKind::Full => "local storage is full or its hard limit was reached"@,
        StorageErrorKind::ReadOnly => "the local storage path is read-only"@,
        StorageErrorKind::Corrupt => "the local database is corrupt; keep it for recovery"@,
        StorageErrorKind::UnsupportedSchema { found, supported } => "database schema "@ + crate::text::decimal(
            found as nat,
        ) + " is newer than supported schema "@ + crate::text::decimal(supported as nat),
        StorageErrorKind::UnsupportedPageSize { found, required } => "database page size "@ + crate::text::decimal(
            found as nat,
        ) + " does not match required size "@ + crate::text::decimal(required as nat),
        StorageErrorKind::ResourceLimit => "a local storage resource bound was reached"@,
        StorageErrorKind::InvalidSettings => "the requested settings are invalid"@,
        StorageErrorKind::InvalidCompletion => "only a valid successful replay can be saved as a completion"@,
        StorageErrorKind::ReplayData => "saved replay data is invalid or incompatible"@,
        StorageErrorKind::Pack => "the puzzle pack was not accepted"@,
        StorageErrorKind::PackConflict => "an installed pack already uses this pack identity"@,
        StorageErrorKind::PackFingerprint => "installed pack content does not match its recorded fingerprint"@,
        StorageErrorKind::PackCleanup => "pack state changed, but managed-file cleanup needs a retry"@,
    }
}

impl From<PackError> for StorageError {
    fn from(source: PackError) -> (r: Self) {
        StorageError::Pack(source)
    }
}

impl vstd::std_specs::convert::FromSpecImpl<PackError> for StorageError {
    open spec fn obeys_from_spec() -> bool {
        true
    }

    open spec fn from_spec(v: PackError) -> Self {
        StorageError::Pack(v)
    }
}

// ---------------------------------------------------------------------------
// Checked conversions and stored names
// ---------------------------------------------------------------------------

pub fn u64_to_i64(value: u64) -> (r: Result<i64, StorageError>)
    ensures
        value <= i64::MAX ==> r == Ok::<i64, StorageError>(value as i64),
        value > i64::MAX ==> (r matches Err(e) && e.kind() == StorageErrorKind::ResourceLimit),
{
    if value > i64::MAX as u64 {
        return Err(StorageError::ResourceLimit);
    }
    Ok(value as i64)
}

pub fn i64_to_u64(value: i64) -> (r: Result<u64, StorageError>)
    ensures
        value >= 0 ==> r == Ok::<u64, StorageError>(value as u64),
        value < 0 ==> (r matches Err(e) && e.kind() == StorageErrorKind::Corrupt),
{
    if value < 0 {
        return Err(StorageError::Corrupt);
    }
    Ok(value as u64)
}

/// Sixty-four lowercase hexadecimal digits.
pub open spec fn fingerprint_name(b: Seq<u8>) -> bool {
    b.len() == 64 && forall|i: int| 0 <= i < 64 ==> (48 <= #[trigger] b[i] <= 57 || 97 <= b[i] <= 102)
}

pub fn is_fingerprint_name(value: &str) -> (r: bool)
    ensures
        r == fingerprint_name(value.spec_bytes()),
{
    let bytes = value.as_bytes();
    if bytes.len() != 64 {
        return false;
    }
    let mut i: usize = 0;
    while i < 64
        invariant
            bytes@.len() == 64,
            bytes@ == value.spec_bytes(),
            i <= 64,
            forall|j: int| 0 <= j < i ==> (48 <= #[trigger] bytes@[j] <= 57 || 97 <= bytes@[j] <= 102),
        decreases 64 - i,
    {
        let byte = bytes[i];
        if !((48 <= byte && byte <= 57) || (97 <= byte && byte <= 102)) {
            return false;
        }
        i = i + 1;
    }
    true
}

/// Pack identities the game keeps for its own papers.
pub open spec fn reserved_pack_id(id: Seq<char>) -> bool {
    id == "orifude-lesson"@ || id == "orifude-journey"@ || id == "orifude-daily"@ || id == "orifude-endless"@
}

pub fn is_reserved_pack_id(id: &str) -> (r: bool)
    ensures
        r == reserved_pack_id(id@),
{
    crate::packs::format::same_text(id, "orifude-lesson") || crate::packs::format::same_text(id, "orifude-journey")
        || crate::packs::format::same_text(id, "orifude-daily") || crate::packs::format::same_text(
        id,
        "orifude-endless",
    )
}

// ---------------------------------------------------------------------------
// Database checks
// ---------------------------------------------------------------------------

/// Accepts a database schema version this build can read.
pub fn check_schema_version(version: u32) -> (r: Result<u32, StorageError>)
    ensures
        version <= SCHEMA_VERSION ==> r == Ok::<u32, StorageError>(version),
        version > SCHEMA_VERSION ==> (r matches Err(e) && e.kind() == (StorageErrorKind::UnsupportedSchema {
            found: version,
            supported: SCHEMA_VERSION,
        })),
{
    if version > SCHEMA_VERSION {
        return Err(StorageError::UnsupportedSchema { found: version, supported: SCHEMA_VERSION });
    }
    Ok(version)
}

/// Accepts only the fixed database page size.
pub fn check_page_size(page_size: i64) -> (r: Result<(), StorageError>)
    ensures
        page_size == 4096 ==> r is Ok,
        page_size < 0 ==> (r matches Err(e) && e.kind() == StorageErrorKind::Corrupt),
        page_size >= 0 && page_size != 4096 ==> (r matches Err(e) && e.kind() == (
        StorageErrorKind::UnsupportedPageSize { found: page_size as u64, required: PAGE_SIZE })),
{
    if page_size != 4096 {
        let found = i64_to_u64(page_size)?;
        return Err(StorageError::UnsupportedPageSize { found, required: PAGE_SIZE });
    }
    Ok(())
}

/// Whether a journal mode reads `delete`, ignoring ASCII case.
pub fn is_delete_journal(mode: &str) -> (r: bool)
    ensures
        r == (crate::packs::format::lower_bytes(mode.spec_bytes()) == encode_utf8("delete"@)),
{
    let lowered = crate::packs::archive::ascii_lowercase(mode.as_bytes());
    match crate::packs::files::compare_bytes(lowered.as_slice(), "delete".as_bytes()) {
        crate::packs::files::ByteOrder::Equal => true,
        _ => false,
    }
}

/// The results of the startup integrity queries, in order.
pub fn check_database(
    quick_check_ok: bool,
    max_pages: i64,
    metadata_rows: i64,
    metadata_total: i64,
    settings_rows: i64,
    foreign_key_failure: bool,
) -> (r: Result<(), StorageError>)
    ensures
        !quick_check_ok ==> (r matches Err(e) && e.kind() == StorageErrorKind::Corrupt),
        quick_check_ok && max_pages != 32768 ==> (r matches Err(e) && e.kind() == StorageErrorKind::Full),
        quick_check_ok && max_pages == 32768 ==> (r is Ok <==> (metadata_rows == 3 && metadata_total == 3
            && settings_rows == 1 && !foreign_key_failure)),
        quick_check_ok && max_pages == 32768 && r is Err ==> (r matches Err(e) && e.kind() == StorageErrorKind::Corrupt),
{
    if !quick_check_ok {
        return Err(StorageError::Corrupt);
    }
    if max_pages != 32768 {
        return Err(StorageError::Full);
    }
    if metadata_rows != 3 || metadata_total != 3 || settings_rows != 1 || foreign_key_failure {
        return Err(StorageError::Corrupt);
    }
    Ok(())
}

} // verus!
