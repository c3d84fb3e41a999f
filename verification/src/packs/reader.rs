//! Reading the files of a ZIP archive held in memory.

use std::io::{Read, Seek};
use std::sync::atomic::{AtomicBool, Ordering};
use std::sync::Arc;

use vstd::prelude::*;

use super::archive::{
    archive_file_outcome, check_archive_size, check_opened_archive, footer_at, is_schema_directory, last_footer, lowered,
    preflight, preflight_catalog, remaining_bytes, special_directory_mode, without_slash, Catalog, PackIntake,
    END_HEADER_BYTES,
};
use super::files::PackFiles;
use super::path::{declared_limit, relative_path_error};
use super::{one_issue, PackError, PackErrorView, MAX_ARCHIVE_BYTES};
use vstd::utf8::encode_utf8;

verus! {

// ---------------------------------------------------------------------------
// Outside types
// ---------------------------------------------------------------------------

/// `std::io::Cursor`, a reading position over bytes, carried opaquely.
#[verifier::external_type_specification]
#[verifier::external_body]
#[verifier::reject_recursive_types(T)]
pub struct ExCursor<T>(std::io::Cursor<T>);

/// `std::io::SeekFrom`, a seek request, carried opaquely.
#[verifier::external_type_specification]
#[verifier::external_body]
pub struct ExSeekFrom(std::io::SeekFrom);

/// `zip::ZipArchive`, an opened archive, carried opaquely.
#[verifier::external_type_specification]
#[verifier::external_body]
#[verifier::reject_recursive_types(R)]
pub struct ExZipArchive<R>(zip::ZipArchive<R>);

/// `zip::CompressionMethod`, carried opaquely.
#[verifier::external_type_specification]
#[verifier::external_body]
pub struct ExCompressionMethod(zip::CompressionMethod);

// ---------------------------------------------------------------------------
// The reader the archive is opened on
// ---------------------------------------------------------------------------

/// Whether the byte at `position` lies before the checked catalog or in the
/// last two bytes of its end record, which give the length of a comment.
pub open spec fn hidden_position(position: int, catalog_start: int, footer: int) -> bool {
    position < catalog_start || position >= footer + END_HEADER_BYTES - 2
}

/// Hides, while the archive's catalog is parsed, every byte just read that
/// lies outside the checked catalog and its end record; once files are read,
/// the bytes stay as they are.
pub fn hide_outside_catalog(
    output: &mut [u8],
    count: usize,
    start: u64,
    catalog_start: usize,
    footer: usize,
    reading_files: bool,
)
    ensures
        final(output)@.len() == old(output)@.len(),
        forall|i: int|
            0 <= i < old(output)@.len() ==> #[trigger] final(output)@[i] == if !reading_files && i < count
                && hidden_position(start + i, catalog_start as int, footer as int) {
                0u8
            } else {
                old(output)@[i]
            },
{
    if reading_files {
        return;
    }
    let bound = if count < output.len() {
        count
    } else {
        output.len()
    };
    let mut i: usize = 0;
    while i < bound
        invariant
            bound <= output@.len(),
            bound <= count,
            i <= bound,
            output@.len() == old(output)@.len(),
            !reading_files,
            forall|j: int|
                0 <= j < output@.len() ==> #[trigger] output@[j] == if j < i && hidden_position(
                    start + j,
                    catalog_start as int,
                    footer as int,
                ) {
                    0u8
                } else {
                    old(output)@[j]
                },
        decreases bound - i,
    {
        let position = start as u128 + i as u128;
        if position < catalog_start as u128 || position + 2 >= footer as u128 + 22 {
            output[i] = 0;
        }
        i = i + 1;
    }
}

/// The bytes of an archive up to its end record, read through a cursor.
pub struct ArchiveReader {
    cursor: std::io::Cursor<Vec<u8>>,
    catalog_start: usize,
    footer: usize,
    reading_files: Arc<AtomicBool>,
}

impl std::io::Read for ArchiveReader {
    /// Reads through the cursor, then hides what the catalog parse must not see.
    #[verifier::external_body]
    fn read(&mut self, output: &mut [u8]) -> std::io::Result<usize> {
        let start = self.cursor.position();
        let count = self.cursor.read(output)?;
        let reading_files = self.reading_files.load(Ordering::Acquire);
        hide_outside_catalog(output, count, start, self.catalog_start, self.footer, reading_files);
        Ok(count)
    }
}

impl std::io::Seek for ArchiveReader {
    /// Seeks the cursor.
    #[verifier::external_body]
    fn seek(&mut self, position: std::io::SeekFrom) -> std::io::Result<u64> {
        self.cursor.seek(position)
    }
}

// ---------------------------------------------------------------------------
// What the ZIP reader finds
// ---------------------------------------------------------------------------

/// How an entry is compressed, by the methods the library tells apart.
#[derive(Clone, Copy, Debug, PartialEq, Eq, Structural)]
pub enum ZipCompression {
    Stored,
    Deflated,
    Other,
}

/// One entry of an opened archive, as the ZIP reader describes it.
pub struct ZipEntryInfo {
    pub name: String,
    pub is_dir: bool,
    pub is_symlink: bool,
    pub unix_mode: Option<u32>,
    pub compression: ZipCompression,
    pub enclosed: bool,
    pub size: u64,
}

/// The plain contents of an entry description.
pub struct ZipEntryView {
    pub name: Seq<char>,
    pub is_dir: bool,
    pub is_symlink: bool,
    pub unix_mode: Option<u32>,
    pub compression: ZipCompression,
    pub enclosed: bool,
    pub size: u64,
}

impl ZipEntryInfo {
    pub open spec fn view(&self) -> ZipEntryView {
        ZipEntryView {
            name: self.name@,
            is_dir: self.is_dir,
            is_symlink: self.is_symlink,
            unix_mode: self.unix_mode,
            compression: self.compression,
            enclosed: self.enclosed,
            size: self.size,
        }
    }
}

/// What `zip::ZipArchive::with_config`, with the archive offset fixed at zero,
/// finds in the archive `bytes` read up to its end record at `footer` with the
/// catalog at `start` shown alone: its entry count, where its catalog starts,
/// and its offset; nothing when it refuses the archive.
pub uninterp spec fn zip_opened(bytes: Seq<u8>, start: usize, footer: usize) -> Option<(usize, u64, u64)>;

/// What `zip::ZipArchive::by_index` tells of entry `index` of that archive:
/// its name, kind, permissions, compression method, whether its path stays
/// inside the archive, and its size; nothing when it cannot read the entry.
pub uninterp spec fn zip_entry_info(bytes: Seq<u8>, start: usize, footer: usize, index: usize) -> Option<
    ZipEntryView,
>;

/// What reading entry `index` of that archive gives, stopping after `limit`
/// bytes; nothing when the entry cannot be read.
pub uninterp spec fn zip_entry_contents(
    bytes: Seq<u8>,
    start: usize,
    footer: usize,
    index: usize,
    limit: u64,
) -> Option<Seq<u8>>;

/// An archive opened for reading its files, with the bytes and catalog it was
/// opened on.
pub struct OpenArchive {
    archive: zip::ZipArchive<ArchiveReader>,
    source: Ghost<(Seq<u8>, usize, usize)>,
}

impl OpenArchive {
    pub closed spec fn source(&self) -> (Seq<u8>, usize, usize) {
        self.source@
    }
}

/// `zip::ZipArchive::with_config` with the archive offset fixed at zero, on
/// the bytes up to the end record, read through a reader that shows only the
/// checked catalog while the catalog is parsed and the original bytes after;
/// with the entry count, catalog start and offset it reports. Claims these are
/// the named result of opening those bytes.
#[verifier::external_body]
fn open_archive(bytes: &[u8], catalog: &Catalog) -> (r: Option<(OpenArchive, usize, u64, u64)>)
    requires
        catalog.footer + END_HEADER_BYTES <= bytes@.len(),
    ensures
        match zip_opened(bytes@, catalog.start, catalog.footer) {
            None => r is None,
            Some(found) => r matches Some((a, n, d, o)) && a.source() == (bytes@, catalog.start, catalog.footer)
                && (n, d, o) == found,
        },
{
    let reading_files = Arc::new(AtomicBool::new(false));
    let cursor = std::io::Cursor::new(bytes[..catalog.footer + END_HEADER_BYTES].to_vec());
    let reader = ArchiveReader { cursor, catalog_start: catalog.start, footer: catalog.footer, reading_files: reading_files.clone() };
    let config = zip::read::Config { archive_offset: zip::read::ArchiveOffset::Known(0) };
    let archive = zip::ZipArchive::with_config(config, reader).ok()?;
    reading_files.store(true, Ordering::Release);
    let found = (archive.len(), archive.central_directory_start(), archive.offset());
    Some((OpenArchive { archive, source: Ghost((bytes@, catalog.start, catalog.footer)) }, found.0, found.1, found.2))
}

/// `zip::CompressionMethod`, by the methods the library tells apart.
#[verifier::external_body]
fn compression_of(method: zip::CompressionMethod) -> (r: ZipCompression) {
    match method {
        zip::CompressionMethod::Stored => ZipCompression::Stored,
        zip::CompressionMethod::Deflated => ZipCompression::Deflated,
        _ => ZipCompression::Other,
    }
}

/// `zip::ZipArchive::by_index` on an opened archive, with the entry's name,
/// kind, permissions, compression method, enclosed path and size. Claims the
/// result is the named description of that entry.
#[verifier::external_body]
fn entry_info(archive: &mut OpenArchive, index: usize) -> (r: Option<ZipEntryInfo>)
    ensures
        final(archive).source() == old(archive).source(),
        ({
            let (bytes, start, footer) = old(archive).source();
            match r {
                Some(info) => zip_entry_info(bytes, start, footer, index) == Some(info.view()),
                None => zip_entry_info(bytes, start, footer, index) is None,
            }
        }),
{
    let entry = archive.archive.by_index(index).ok()?;
    let name = entry.name().ok()?.into_owned();
    let compression = compression_of(entry.compression());
    let enclosed = entry.enclosed_name().is_some();
    Some(ZipEntryInfo { name, is_dir: entry.is_dir(), is_symlink: entry.is_symlink(), unix_mode: entry.unix_mode(), compression, enclosed, size: entry.size() })
}

/// Reads entry `index` of an opened archive, stopping after `limit` bytes.
/// Claims the bytes are the named contents of that entry.
#[verifier::external_body]
fn entry_contents(archive: &mut OpenArchive, index: usize, limit: u64) -> (r: Option<Vec<u8>>)
    ensures
        final(archive).source() == old(archive).source(),
        ({
            let (bytes, start, footer) = old(archive).source();
            match r {
                Some(contents) => zip_entry_contents(bytes, start, footer, index, limit) == Some(contents@),
                None => zip_entry_contents(bytes, start, footer, index, limit) is None,
            }
        }),
{
    let entry = archive.archive.by_index(index).ok()?;
    let mut contents = Vec::new();
    entry.take(limit).read_to_end(&mut contents).ok()?;
    Some(contents)
}

// ---------------------------------------------------------------------------
// Reading the files of an archive
// ---------------------------------------------------------------------------

/// Whether the library accepts an entry compressed this way.
pub open spec fn compression_accepted(c: ZipCompression) -> bool {
    c is Stored || c is Deflated
}

/// Accepts stored and deflated entries only.
pub fn accepts_compression(c: ZipCompression) -> (r: bool)
    ensures
        r == compression_accepted(c),
{
    match c {
        ZipCompression::Stored => true,
        ZipCompression::Deflated => true,
        ZipCompression::Other => false,
    }
}

/// What the intake of an archive holds after some of its entries: the
/// lowercase paths seen, the files kept, and how many bytes were extracted.
pub struct IntakeState {
    pub folded: Seq<Seq<u8>>,
    pub files: Map<Seq<u8>, Seq<u8>>,
    pub extracted: u64,
}

/// A directory entry: refused when its path is not portable, when it is a link
/// or a special directory, when its path repeats one seen up to case, or when
/// it is not a directory the schema declares.
pub open spec fn directory_step(s: IntakeState, name: Seq<char>, is_symlink: bool, mode: Option<u32>) -> Result<
    IntakeState,
    PackErrorView,
> {
    let d = without_slash(name);
    match relative_path_error(d) {
        Some(e) => Err(one_issue(e.0, e.1)),
        None => if is_symlink || special_directory_mode(mode) {
            Err(one_issue(d, "archive entry type is not accepted"@))
        } else if s.folded.contains(lowered(d)) {
            Err(one_issue(d, "path duplicates another path by case"@))
        } else if !is_schema_directory(d) {
            Err(one_issue(d, "directory is not declared by the schema"@))
        } else {
            Ok(IntakeState { folded: s.folded.push(lowered(d)), ..s })
        },
    }
}

/// Keeping the bytes read from an admitted file: refused when its path is not
/// declared, or when the bytes exceed its limit or the extraction bound.
pub open spec fn accept_step(s: IntakeState, name: Seq<char>, contents: Seq<u8>) -> Result<IntakeState, PackErrorView> {
    match declared_limit(encode_utf8(name)) {
        None => Err(one_issue(name, "file is not declared by the schema"@)),
        Some(limit) => if contents.len() > limit || contents.len() > remaining_bytes(s.extracted) {
            Err(one_issue(name, "extracted size exceeds the limit"@))
        } else {
            Ok(
                IntakeState {
                    files: s.files.insert(encode_utf8(name), contents),
                    extracted: (s.extracted + contents.len()) as u64,
                    ..s
                },
            )
        },
    }
}

/// A file entry: admitted by the archive rules, then read up to its bound and kept.
pub open spec fn file_step(
    source: (Seq<u8>, usize, usize),
    index: usize,
    s: IntakeState,
    info: ZipEntryView,
) -> Result<IntakeState, PackErrorView> {
    match archive_file_outcome(
        s.folded,
        s.files.dom().len(),
        s.extracted,
        info.name,
        info.enclosed,
        info.is_symlink,
        info.unix_mode,
        compression_accepted(info.compression),
        info.size,
    ) {
        Err(v) => Err(v),
        Ok(limit) => match zip_entry_contents(source.0, source.1, source.2, index, limit) {
            None => Err(PackErrorView::Archive),
            Some(contents) => accept_step(
                IntakeState { folded: s.folded.push(lowered(info.name)), ..s },
                info.name,
                contents,
            ),
        },
    }
}

/// Entry `index` of the archive, as the ZIP reader describes it.
pub open spec fn entry_step(source: (Seq<u8>, usize, usize), index: usize, s: IntakeState) -> Result<
    IntakeState,
    PackErrorView,
> {
    match zip_entry_info(source.0, source.1, source.2, index) {
        None => Err(PackErrorView::Archive),
        Some(info) => if info.is_dir {
            directory_step(s, info.name, info.is_symlink, info.unix_mode)
        } else {
            file_step(source, index, s, info)
        },
    }
}

/// The intake after the first `k` entries, or why it stopped.
pub open spec fn intake_run(source: (Seq<u8>, usize, usize), k: nat) -> Result<IntakeState, PackErrorView>
    decreases k,
{
    if k == 0 {
        Ok(IntakeState { folded: Seq::empty(), files: Map::empty(), extracted: 0 })
    } else {
        match intake_run(source, (k - 1) as nat) {
            Err(e) => Err(e),
            Ok(s) => entry_step(source, (k - 1) as usize, s),
        }
    }
}

/// The files an archive holds, or why it is refused: its size, then the
/// catalog check, then the ZIP reader must find that same catalog, and then
/// each entry in turn.
pub open spec fn archive_read(b: Seq<u8>) -> Result<Map<Seq<u8>, Seq<u8>>, PackErrorView> {
    if b.len() > MAX_ARCHIVE_BYTES {
        Err(one_issue("archive"@, "compressed size exceeds the limit"@))
    } else {
        match preflight(b) {
            Err(v) => Err(v),
            Ok((start, footer, entries)) => match zip_opened(b, start as usize, footer as usize) {
                None => Err(PackErrorView::Archive),
                Some((n, d, o)) => if n != entries || d != start || o != 0 {
                    Err(PackErrorView::Archive)
                } else {
                    match intake_run((b, start as usize, footer as usize), entries as nat) {
                        Err(v) => Err(v),
                        Ok(s) => Ok(s.files),
                    }
                },
            },
        }
    }
}

/// A refused intake stays refused.
proof fn lemma_intake_stops(source: (Seq<u8>, usize, usize), k: nat, n: nat)
    requires
        k <= n,
        intake_run(source, k) is Err,
    ensures
        intake_run(source, n) == intake_run(source, k),
    decreases n - k,
{
    if k < n {
        lemma_intake_stops(source, k, (n - 1) as nat);
    }
}

/// The end record that the search finds is a whole record within the bytes.
proof fn lemma_last_footer(b: Seq<u8>, o: int)
    ensures
        last_footer(b, o) matches Some(x) ==> footer_at(b, x),
    decreases o + 1,
{
    if o >= 0 && !footer_at(b, o) && o >= super::archive::search_start(b.len() as int) {
        lemma_last_footer(b, o - 1);
    }
}

/// Reads the files of bounded ZIP bytes: the size bound, the catalog check, the
/// ZIP reader on that catalog, and every entry by the archive rules.
pub fn read_archive_files(bytes: &[u8]) -> (r: Result<PackFiles, PackError>)
    ensures
        match archive_read(bytes@) {
            Ok(files) => r matches Ok(f) && f@ == files && f.wf(),
            Err(v) => r matches Err(e) && e.view() == v,
        },
{
    check_archive_size(bytes.len())?;
    let catalog = preflight_catalog(bytes)?;
    proof {
        lemma_last_footer(bytes@, bytes@.len() - 22);
    }
    let (mut archive, count, directory_start, offset) = match open_archive(bytes, &catalog) {
        Some(opened) => opened,
        None => return Err(PackError::Archive),
    };
    check_opened_archive(&catalog, count, directory_start, offset)?;
    let ghost source = (bytes@, catalog.start, catalog.footer);
    let mut intake = PackIntake::new();
    let mut index: usize = 0;
    while index < count
        invariant
            archive.source() == source,
            index <= count,
            intake.wf(),
            archive_read(bytes@) == match intake_run(source, count as nat) {
                Err(v) => Err::<Map<Seq<u8>, Seq<u8>>, PackErrorView>(v),
                Ok(s) => Ok(s.files),
            },
            intake_run(source, index as nat) matches Ok(s) && intake.folded_view() == s.folded
                && intake.files_value()@ == s.files && intake.extracted_value() == s.extracted,
        decreases count - index,
    {
        let ghost s = intake_run(source, index as nat)->Ok_0;
        proof {
            intake.lemma_file_count();
        }
        let info = match entry_info(&mut archive, index) {
            Some(info) => info,
            None => {
                proof {
                    lemma_intake_stops(source, (index + 1) as nat, count as nat);
                }
                return Err(PackError::Archive);
            },
        };
        if info.is_dir {
            match intake.admit_archive_directory(info.name.as_str(), info.is_symlink, info.unix_mode) {
                Ok(()) => {},
                Err(e) => {
                    proof {
                        lemma_intake_stops(source, (index + 1) as nat, count as nat);
                    }
                    return Err(e);
                },
            }
            index = index + 1;
            continue;
        }
        let accepted = accepts_compression(info.compression);
        let read_limit = match intake.admit_archive_file(
            info.name.as_str(),
            info.enclosed,
            info.is_symlink,
            info.unix_mode,
            accepted,
            info.size,
        ) {
            Ok(limit) => limit,
            Err(e) => {
                proof {
                    lemma_intake_stops(source, (index + 1) as nat, count as nat);
                }
                return Err(e);
            },
        };
        let contents = match entry_contents(&mut archive, index, read_limit) {
            Some(contents) => contents,
            None => {
                proof {
                    lemma_intake_stops(source, (index + 1) as nat, count as nat);
                }
                return Err(PackError::Archive);
            },
        };
        match intake.accept_archive_file(info.name, contents) {
            Ok(()) => {},
            Err(e) => {
                proof {
                    lemma_intake_stops(source, (index + 1) as nat, count as nat);
                }
                return Err(e);
            },
        }
        index = index + 1;
    }
    let files = intake.finish();
    Ok(files)
}

} // verus!
