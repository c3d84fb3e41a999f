//! The bounded ZIP catalog of a pack archive, and the admission of its entries.

use vstd::prelude::*;
use vstd::string::StringSliceAdditionalSpecFns;
use vstd::utf8::{encode_utf8, valid_utf8};

use super::format::{lower_bytes, utf8_text};
use super::path::{declared_limit, relative_path_error};
use super::{
    content_limit, one_issue, validate_relative_path, PackError, PackErrorView, PackFiles, MAX_EXTRACTED_BYTES,
    MAX_FILES,
};

verus! {

pub const MAX_ARCHIVE_ENTRIES: usize = 258;
pub const END_HEADER_BYTES: usize = 22;
pub const CENTRAL_HEADER_BYTES: usize = 46;

/// The little-endian 16-bit value at `o`.
pub open spec fn le16(b: Seq<u8>, o: int) -> int {
    b[o] + 256 * b[o + 1]
}

/// The little-endian 32-bit value at `o`.
pub open spec fn le32(b: Seq<u8>, o: int) -> int {
    b[o] + 256 * b[o + 1] + 65536 * b[o + 2] + 16777216 * b[o + 3]
}

pub fn read_u16(bytes: &[u8], offset: usize) -> (r: u16)
    requires
        offset + 2 <= bytes@.len(),
    ensures
        r as int == le16(bytes@, offset as int),
{
    bytes[offset] as u16 + 256 * (bytes[offset + 1] as u16)
}

pub fn read_u32(bytes: &[u8], offset: usize) -> (r: u32)
    requires
        offset + 4 <= bytes@.len(),
    ensures
        r as int == le32(bytes@, offset as int),
{
    bytes[offset] as u32 + 256 * (bytes[offset + 1] as u32) + 65536 * (bytes[offset + 2] as u32) + 16777216 * (
    bytes[offset + 3] as u32)
}

/// `PK\x05\x06` at `o`.
pub open spec fn end_signature_at(b: Seq<u8>, o: int) -> bool {
    0 <= o && o + 4 <= b.len() && b[o] == 80 && b[o + 1] == 75 && b[o + 2] == 5 && b[o + 3] == 6
}

/// `PK\x01\x02` at `o`.
pub open spec fn central_signature_at(b: Seq<u8>, o: int) -> bool {
    0 <= o && o + 4 <= b.len() && b[o] == 80 && b[o + 1] == 75 && b[o + 2] == 1 && b[o + 3] == 2
}

/// An end record at `o` whose comment reaches exactly the end of the bytes.
pub open spec fn footer_at(b: Seq<u8>, o: int) -> bool {
    o + 22 <= b.len() && end_signature_at(b, o) && o + 22 + le16(b, o + 20) == b.len()
}

/// The lowest offset at which an end record may start.
pub open spec fn search_start(len: int) -> int {
    if len > 22 + 65535 {
        len - (22 + 65535)
    } else {
        0
    }
}

/// The last footer at or before `o` and at or after the search start, if any.
pub open spec fn last_footer(b: Seq<u8>, o: int) -> Option<int>
    decreases o + 1,
{
    if o < search_start(b.len() as int) || o < 0 {
        None
    } else if footer_at(b, o) {
        Some(o)
    } else {
        last_footer(b, o - 1)
    }
}

/// The located central directory of an archive.
#[derive(Clone, Copy, Debug, PartialEq, Eq)]
pub struct Catalog {
    pub start: usize,
    pub footer: usize,
    pub entries: usize,
}

/// The end record at `o` describes a bounded single-disk catalog that ends where the record starts.
pub open spec fn footer_bounded(b: Seq<u8>, o: int) -> bool {
    &&& le16(b, o + 4) == 0
    &&& le16(b, o + 6) == 0
    &&& le16(b, o + 8) == le16(b, o + 10)
    &&& le16(b, o + 10) != 0
    &&& le16(b, o + 10) <= 258
    &&& le32(b, o + 16) + le32(b, o + 12) == o
}

/// Whether `PK\x05\x06` occurs anywhere in `d`.
pub open spec fn has_end_signature(d: Seq<u8>) -> bool {
    exists|i: int| #[trigger] end_signature_at(d, i)
}

/// The name field of the central header at `pos`, without a trailing `/`.
pub open spec fn entry_path(name: Seq<u8>) -> Seq<u8> {
    if name.len() > 0 && name.last() == 47 {
        name.drop_last()
    } else {
        name
    }
}

/// Walks `k` central headers from `pos`, with the lowercased names seen so far.
pub open spec fn catalog_walk(d: Seq<u8>, pos: int, k: int, names: Seq<Seq<u8>>) -> Result<(), PackErrorView>
    decreases k,
{
    if k <= 0 {
        if pos == d.len() {
            Ok(())
        } else {
            Err(one_issue("archive"@, "catalog size or entry count is inconsistent"@))
        }
    } else if pos + 46 > d.len() {
        Err(PackErrorView::Archive)
    } else if !central_signature_at(d, pos) || le16(d, pos + 34) != 0 {
        Err(PackErrorView::Archive)
    } else {
        let name_end = pos + 46 + le16(d, pos + 28);
        let entry_end = name_end + le16(d, pos + 30) + le16(d, pos + 32);
        if name_end > d.len() || !valid_utf8(d.subrange(pos + 46, name_end)) {
            Err(PackErrorView::Archive)
        } else {
            let path = entry_path(d.subrange(pos + 46, name_end));
            let text = vstd::utf8::decode_utf8(path);
            match relative_path_error(text) {
                Some(e) => Err(one_issue(e.0, e.1)),
                None => if names.contains(lower_bytes(path)) {
                    Err(one_issue(text, "path duplicates another path by case"@))
                } else if entry_end > d.len() {
                    Err(PackErrorView::Archive)
                } else {
                    catalog_walk(d, entry_end, k - 1, names.push(lower_bytes(path)))
                },
            }
        }
    }
}

/// The catalog that the preflight check finds, or why the archive is refused.
pub open spec fn preflight(b: Seq<u8>) -> Result<(int, int, int), PackErrorView> {
    if b.len() < 22 {
        Err(PackErrorView::Archive)
    } else {
        match last_footer(b, b.len() - 22) {
            None => Err(PackErrorView::Archive),
            Some(o) => if !footer_bounded(b, o) {
                Err(one_issue("archive"@, "archive entry table exceeds its supported bounds"@))
            } else {
                let start = le32(b, o + 16);
                let d = b.subrange(start, o);
                if has_end_signature(d) {
                    Err(one_issue("archive"@, "catalog contains an embedded footer"@))
                } else {
                    match catalog_walk(d, 0, le16(b, o + 10), Seq::empty()) {
                        Err(e) => Err(e),
                        Ok(()) => Ok((start, o, le16(b, o + 10))),
                    }
                }
            },
        }
    }
}

} // verus!

verus! {

fn end_signature(bytes: &[u8], offset: usize) -> (r: bool)
    requires
        offset + 4 <= bytes@.len(),
    ensures
        r == end_signature_at(bytes@, offset as int),
{
    bytes[offset] == 80 && bytes[offset + 1] == 75 && bytes[offset + 2] == 5 && bytes[offset + 3] == 6
}

pub fn ascii_lowercase(bytes: &[u8]) -> (r: Vec<u8>)
    ensures
        r@ == lower_bytes(bytes@),
{
    let mut out: Vec<u8> = Vec::new();
    let mut i: usize = 0;
    while i < bytes.len()
        invariant
            i <= bytes@.len(),
            out@ == lower_bytes(bytes@.subrange(0, i as int)),
        decreases bytes@.len() - i,
    {
        let x = bytes[i];
        out.push(if 65 <= x && x <= 90 { x + 32 } else { x });
        assert(out@ =~= lower_bytes(bytes@.subrange(0, i + 1)));
        i = i + 1;
    }
    assert(bytes@.subrange(0, bytes@.len() as int) =~= bytes@);
    out
}

/// Whether `key` is among `seen`.
fn seen_before(seen: &Vec<Vec<u8>>, key: &[u8]) -> (r: bool)
    ensures
        r == seen@.map_values(|v: Vec<u8>| v@).contains(key@),
{
    let ghost s = seen@.map_values(|v: Vec<u8>| v@);
    let mut i: usize = 0;
    while i < seen.len()
        invariant
            s == seen@.map_values(|v: Vec<u8>| v@),
            i <= seen@.len(),
            forall|j: int| 0 <= j < i ==> #[trigger] s[j] != key@,
        decreases seen@.len() - i,
    {
        match super::files::compare_bytes(seen[i].as_slice(), key) {
            super::files::ByteOrder::Equal => {
                assert(s[i as int] == key@);
                return true;
            },
            _ => {},
        }
        i = i + 1;
    }
    false
}

fn validate_catalog_entries(bytes: &[u8], catalog: &Catalog) -> (r: Result<(), PackError>)
    requires
        catalog.start <= catalog.footer <= bytes@.len(),
    ensures
        ({
            let d = bytes@.subrange(catalog.start as int, catalog.footer as int);
            &&& has_end_signature(d) ==> (r matches Err(e) && e.view() == one_issue(
                "archive"@,
                "catalog contains an embedded footer"@,
            ))
            &&& !has_end_signature(d) ==> match catalog_walk(d, 0, catalog.entries as int, Seq::empty()) {
                Ok(()) => r is Ok,
                Err(v) => r matches Err(e) && e.view() == v,
            }
        }),
{
    let directory = vstd::slice::slice_subrange(bytes, catalog.start, catalog.footer);
    let ghost d = directory@;
    let mut i: usize = 0;
    while i <= directory.len() && directory.len() - i >= 4
        invariant
            d == directory@,
            d == bytes@.subrange(catalog.start as int, catalog.footer as int),
            i <= directory@.len(),
            forall|j: int| 0 <= j < i ==> !end_signature_at(d, j),
        decreases directory@.len() - i,
    {
        if end_signature(directory, i) {
            return Err(PackError::one("archive", "catalog contains an embedded footer"));
        }
        i = i + 1;
    }
    proof {
        assert forall|j: int| !#[trigger] end_signature_at(d, j) by {
            if 0 <= j && j < i {
            }
        }
    }
    let mut names: Vec<Vec<u8>> = Vec::new();
    let mut pos: usize = 0;
    let mut k: usize = catalog.entries;
    assert(names@.map_values(|v: Vec<u8>| v@) =~= Seq::<Seq<u8>>::empty());
    while k > 0
        invariant
            d == directory@,
            d == bytes@.subrange(catalog.start as int, catalog.footer as int),
            !has_end_signature(d),
            pos <= d.len(),
            catalog_walk(d, 0, catalog.entries as int, Seq::empty()) == catalog_walk(
                d,
                pos as int,
                k as int,
                names@.map_values(|v: Vec<u8>| v@),
            ),
        decreases k,
    {
        if directory.len() - pos < CENTRAL_HEADER_BYTES {
            return Err(PackError::Archive);
        }
        if !(directory[pos] == 80 && directory[pos + 1] == 75 && directory[pos + 2] == 1 && directory[pos + 3] == 2)
            || read_u16(directory, pos + 34) != 0 {
            return Err(PackError::Archive);
        }
        let name_length = read_u16(directory, pos + 28) as usize;
        if directory.len() - pos - CENTRAL_HEADER_BYTES < name_length {
            return Err(PackError::Archive);
        }
        let name_end = pos + CENTRAL_HEADER_BYTES + name_length;
        let name_bytes = vstd::slice::slice_subrange(directory, pos + CENTRAL_HEADER_BYTES, name_end);
        let name = match utf8_text(name_bytes) {
            Some(name) => name,
            None => {
                return Err(PackError::Archive);
            },
        };
        let n = name_bytes.len();
        let path_bytes = if n > 0 && name_bytes[n - 1] == 47 {
            vstd::slice::slice_subrange(name_bytes, 0, n - 1)
        } else {
            name_bytes
        };
        proof {
            assert(path_bytes@ == entry_path(name_bytes@)) by {
                if n > 0 && name_bytes@[n - 1] == 47 {
                    assert(name_bytes@.subrange(0, n - 1) =~= name_bytes@.drop_last());
                }
            }
            assert(valid_utf8(name_bytes@));
            if n > 0 && name_bytes@[n - 1] == 47 {
                vstd::utf8::is_char_boundary_iff_not_is_continuation_byte(name_bytes@, n - 1);
                assert(!vstd::utf8::is_continuation_byte(name_bytes@[n - 1]));
                vstd::utf8::valid_utf8_split(name_bytes@, n - 1);
            }
        }
        let path = match utf8_text(path_bytes) {
            Some(path) => path,
            None => {
                return Err(PackError::Archive);
            },
        };
        proof {
            broadcast use vstd::utf8::encode_utf8_decode_utf8;

            assert(vstd::utf8::decode_utf8(encode_utf8(path@)) == path@);
        }
        validate_relative_path(path)?;
        let folded = ascii_lowercase(path_bytes);
        if seen_before(&names, folded.as_slice()) {
            return Err(PackError::one(path, "path duplicates another path by case"));
        }
        let trailing = read_u16(directory, pos + 30) as usize + read_u16(directory, pos + 32) as usize;
        if directory.len() - name_end < trailing {
            return Err(PackError::Archive);
        }
        let entry_end = name_end + trailing;
        let ghost before = names@.map_values(|v: Vec<u8>| v@);
        names.push(folded);
        assert(names@.map_values(|v: Vec<u8>| v@) =~= before.push(lower_bytes(path_bytes@)));
        pos = entry_end;
        k = k - 1;
    }
    if pos != directory.len() {
        return Err(PackError::one("archive", "catalog size or entry count is inconsistent"));
    }
    Ok(())
}

/// Finds the single end record that closes the archive and checks its catalog.
pub fn preflight_catalog(bytes: &[u8]) -> (r: Result<Catalog, PackError>)
    ensures
        match preflight(bytes@) {
            Ok((start, footer, entries)) => r matches Ok(c) && c.start == start && c.footer == footer && c.entries
                == entries,
            Err(v) => r matches Err(e) && e.view() == v,
        },
{
    let n = bytes.len();
    if n < END_HEADER_BYTES {
        return Err(PackError::Archive);
    }
    let start = if n > END_HEADER_BYTES + 65535 {
        n - (END_HEADER_BYTES + 65535)
    } else {
        0
    };
    let mut offset = n - END_HEADER_BYTES;
    let mut searching = true;
    while searching
        invariant
            n == bytes@.len(),
            n >= 22,
            start == search_start(n as int),
            start <= offset <= n - 22,
            searching ==> last_footer(bytes@, n - 22) == last_footer(bytes@, offset as int),
            !searching ==> last_footer(bytes@, n - 22) is None,
        decreases offset + if searching { 1int } else { 0int },
    {
        if end_signature(bytes, offset) && read_u16(bytes, offset + 20) as usize == n - offset - END_HEADER_BYTES {
            let disk = read_u16(bytes, offset + 4);
            let central_disk = read_u16(bytes, offset + 6);
            let disk_entries = read_u16(bytes, offset + 8);
            let total_entries = read_u16(bytes, offset + 10);
            let central_bytes = read_u32(bytes, offset + 12) as usize;
            let central_offset = read_u32(bytes, offset + 16) as usize;
            if disk != 0 || central_disk != 0 || disk_entries != total_entries || total_entries == 0
                || total_entries as usize > MAX_ARCHIVE_ENTRIES || central_offset > offset || central_bytes
                != offset - central_offset {
                return Err(PackError::one("archive", "archive entry table exceeds its supported bounds"));
            }
            let catalog = Catalog { start: central_offset, footer: offset, entries: total_entries as usize };
            validate_catalog_entries(bytes, &catalog)?;
            return Ok(catalog);
        }
        if offset == start {
            proof {
                assert(last_footer(bytes@, offset - 1) is None);
            }
            searching = false;
        } else {
            offset = offset - 1;
        }
    }
    Err(PackError::Archive)
}

} // verus!

verus! {

// ---------------------------------------------------------------------------
// Entry admission
// ---------------------------------------------------------------------------

/// A Unix file mode that is neither unknown nor a regular file.
pub open spec fn special_mode(mode: Option<u32>) -> bool {
    mode matches Some(m) && (m & 0o170000) != 0 && (m & 0o170000) != 0o100000
}

/// A Unix file mode that is neither unknown nor a directory.
pub open spec fn special_directory_mode(mode: Option<u32>) -> bool {
    mode matches Some(m) && (m & 0o170000) != 0 && (m & 0o170000) != 0o040000
}

pub fn is_special(mode: Option<u32>) -> (r: bool)
    ensures
        r == special_mode(mode),
{
    match mode {
        Some(m) => {
            let kind = m & 0o170000;
            kind != 0 && kind != 0o100000
        },
        None => false,
    }
}

pub fn is_special_directory(mode: Option<u32>) -> (r: bool)
    ensures
        r == special_directory_mode(mode),
{
    match mode {
        Some(m) => {
            let kind = m & 0o170000;
            kind != 0 && kind != 0o040000
        },
        None => false,
    }
}

/// The text of a directory entry's name without its trailing `/`.
pub open spec fn without_slash(s: Seq<char>) -> Seq<char> {
    vstd::utf8::decode_utf8(entry_path(encode_utf8(s)))
}

pub open spec fn remaining_bytes(extracted: u64) -> int {
    if extracted < 16777216 {
        16777216 - extracted
    } else {
        0
    }
}

/// What admitting an archive file entry gives: its read bound, or why it is refused.
pub open spec fn archive_file_outcome(
    folded: Seq<Seq<u8>>,
    count: nat,
    extracted: u64,
    name: Seq<char>,
    enclosed: bool,
    is_symlink: bool,
    mode: Option<u32>,
    compression_accepted: bool,
    size: u64,
) -> Result<u64, PackErrorView> {
    match relative_path_error(name) {
        Some(e) => Err(one_issue(e.0, e.1)),
        None => if !enclosed || is_symlink || special_mode(mode) {
            Err(one_issue(name, "archive entry type is not accepted"@))
        } else if !compression_accepted {
            Err(one_issue(name, "compression method is not accepted"@))
        } else if folded.contains(lowered(name)) {
            Err(one_issue(name, "path duplicates another path by case"@))
        } else if count >= 256 {
            Err(one_issue("archive"@, "file count exceeds the limit"@))
        } else {
            match declared_limit(encode_utf8(name)) {
                None => Err(one_issue(name, "file is not declared by the schema"@)),
                Some(limit) => if size > limit {
                    Err(one_issue(name, "file size exceeds its limit"@))
                } else if limit < remaining_bytes(extracted) {
                    Ok((limit + 1) as u64)
                } else {
                    Ok((remaining_bytes(extracted) + 1) as u64)
                },
            }
        },
    }
}

/// Whether admitting the entry records its lowercase path.
pub open spec fn archive_file_remembered(
    folded: Seq<Seq<u8>>,
    name: Seq<char>,
    enclosed: bool,
    is_symlink: bool,
    mode: Option<u32>,
    compression_accepted: bool,
) -> bool {
    relative_path_error(name) is None && enclosed && !is_symlink && !special_mode(mode) && compression_accepted
        && !folded.contains(lowered(name))
}

pub open spec fn is_schema_directory(s: Seq<char>) -> bool {
    s == "puzzles"@ || s == "notes"@
}

/// Files gathered from an archive or a directory, with every path seen so far.
pub struct PackIntake {
    files: PackFiles,
    folded: Vec<Vec<u8>>,
    extracted: u64,
}

pub open spec fn lowered(s: Seq<char>) -> Seq<u8> {
    lower_bytes(encode_utf8(s))
}

impl PackIntake {
    pub closed spec fn files_value(&self) -> PackFiles {
        self.files
    }

    pub closed spec fn folded_view(&self) -> Seq<Seq<u8>> {
        self.folded@.map_values(|v: Vec<u8>| v@)
    }

    pub closed spec fn extracted_value(&self) -> u64 {
        self.extracted
    }

    pub closed spec fn wf(&self) -> bool {
        self.files.wf()
    }

    /// The files kept so far number as many as their paths.
    pub proof fn lemma_file_count(&self)
        requires
            self.wf(),
        ensures
            self.files_value().pairs().len() == self.files_value()@.dom().len(),
    {
        self.files.lemma_count();
    }

    pub fn new() -> (r: Self)
        ensures
            r.wf(),
            r.files_value().pairs().len() == 0,
            r.folded_view().len() == 0,
            r.extracted_value() == 0,
    {
        let r = PackIntake { files: PackFiles::new(), folded: Vec::new(), extracted: 0 };
        assert(r.folded_view() =~= Seq::<Seq<u8>>::empty());
        r
    }

    /// Remembers a path by its lowercase form; false when one like it was seen.
    fn remember(&mut self, path: &str) -> (r: bool)
        ensures
            r == !old(self).folded_view().contains(lowered(path@)),
            final(self).folded_view() == if r {
                old(self).folded_view().push(lowered(path@))
            } else {
                old(self).folded_view()
            },
            final(self).files_value() == old(self).files_value(),
            final(self).extracted_value() == old(self).extracted_value(),
    {
        let folded = ascii_lowercase(path.as_bytes());
        if seen_before(&self.folded, folded.as_slice()) {
            return false;
        }
        let ghost before = self.folded_view();
        self.folded.push(folded);
        assert(self.folded_view() =~= before.push(lowered(path@)));
        true
    }

    /// Admits a directory entry of an archive.
    pub fn admit_archive_directory(&mut self, name: &str, is_symlink: bool, unix_mode: Option<u32>) -> (r: Result<
        (),
        PackError,
    >)
        ensures
            ({
                let d = without_slash(name@);
                let seen = old(self).folded_view().contains(lowered(d));
                &&& relative_path_error(d) matches Some(e) ==> (r matches Err(x) && x.view() == one_issue(e.0, e.1))
                &&& relative_path_error(d) is None && (is_symlink || special_directory_mode(unix_mode)) ==> (r matches Err(
                    x,
                ) && x.view() == one_issue(d, "archive entry type is not accepted"@))
                &&& relative_path_error(d) is None && !(is_symlink || special_directory_mode(unix_mode)) ==> {
                    &&& seen ==> (r matches Err(x) && x.view() == one_issue(d, "path duplicates another path by case"@))
                    &&& !seen && !is_schema_directory(d) ==> (r matches Err(x) && x.view() == one_issue(
                        d,
                        "directory is not declared by the schema"@,
                    ))
                    &&& !seen && is_schema_directory(d) ==> r is Ok && final(self).folded_view() == old(
                        self,
                    ).folded_view().push(lowered(d))
                }
                &&& final(self).files_value() == old(self).files_value()
                &&& final(self).extracted_value() == old(self).extracted_value()
            }),
            old(self).wf() ==> final(self).wf(),
    {
        let directory = strip_slash(name);
        validate_relative_path(directory)?;
        if is_symlink || is_special_directory(unix_mode) {
            return Err(PackError::one(directory, "archive entry type is not accepted"));
        }
        if !self.remember(directory) {
            return Err(PackError::one(directory, "path duplicates another path by case"));
        }
        if !(super::format::same_text(directory, "puzzles") || super::format::same_text(directory, "notes")) {
            return Err(PackError::one(directory, "directory is not declared by the schema"));
        }
        Ok(())
    }

    /// Admits a file entry of an archive and returns how many bytes to read from it.
    pub fn admit_archive_file(
        &mut self,
        name: &str,
        enclosed: bool,
        is_symlink: bool,
        unix_mode: Option<u32>,
        compression_accepted: bool,
        size: u64,
    ) -> (r: Result<u64, PackError>)
        requires
            old(self).wf(),
        ensures
            final(self).wf(),
            final(self).files_value() == old(self).files_value(),
            final(self).extracted_value() == old(self).extracted_value(),
            match archive_file_outcome(
                old(self).folded_view(),
                old(self).files_value().pairs().len(),
                old(self).extracted_value(),
                name@,
                enclosed,
                is_symlink,
                unix_mode,
                compression_accepted,
                size,
            ) {
                Ok(n) => r == Ok::<u64, PackError>(n),
                Err(v) => r matches Err(e) && e.view() == v,
            },
            final(self).folded_view() == if archive_file_remembered(
                old(self).folded_view(),
                name@,
                enclosed,
                is_symlink,
                unix_mode,
                compression_accepted,
            ) {
                old(self).folded_view().push(lowered(name@))
            } else {
                old(self).folded_view()
            },
    {
        validate_relative_path(name)?;
        if !enclosed || is_symlink || is_special(unix_mode) {
            return Err(PackError::one(name, "archive entry type is not accepted"));
        }
        if !compression_accepted {
            return Err(PackError::one(name, "compression method is not accepted"));
        }
        if !self.remember(name) {
            return Err(PackError::one(name, "path duplicates another path by case"));
        }
        if self.files.len() >= MAX_FILES {
            return Err(PackError::one("archive", "file count exceeds the limit"));
        }
        let limit = content_limit(name)?;
        if size > limit {
            return Err(PackError::one(name, "file size exceeds its limit"));
        }
        let remaining = if self.extracted < MAX_EXTRACTED_BYTES {
            MAX_EXTRACTED_BYTES - self.extracted
        } else {
            0
        };
        let bounded = if limit < remaining {
            limit
        } else {
            remaining
        };
        Ok(bounded + 1)
    }
}

fn strip_slash(name: &str) -> (r: &str)
    ensures
        r@ == without_slash(name@),
{
    broadcast use vstd::utf8::encode_utf8_decode_utf8;

    let bytes = name.as_bytes();
    let n = bytes.len();
    proof {
        vstd::utf8::encode_utf8_valid_utf8(name@);
        assert(vstd::utf8::decode_utf8(encode_utf8(name@)) == name@);
    }
    if n > 0 && bytes[n - 1] == 47 {
        proof {
            vstd::utf8::is_char_boundary_iff_not_is_continuation_byte(bytes@, n - 1);
            vstd::utf8::valid_utf8_split(bytes@, n - 1);
            assert(bytes@.subrange(0, n - 1) =~= bytes@.drop_last());
        }
        let head = vstd::slice::slice_subrange(bytes, 0, n - 1);
        match utf8_text(head) {
            Some(text) => {
                proof {
                    assert(vstd::utf8::decode_utf8(encode_utf8(text@)) == text@);
                }
                text
            },
            None => name,
        }
    } else {
        name
    }
}

} // verus!

verus! {

impl PackIntake {
    /// Stores the bytes read from an admitted archive file.
    pub fn accept_archive_file(&mut self, name: String, contents: Vec<u8>) -> (r: Result<(), PackError>)
        requires
            old(self).wf(),
        ensures
            final(self).wf(),
            final(self).folded_view() == old(self).folded_view(),
            match declared_limit(encode_utf8(name@)) {
                None => r matches Err(e) && e.view() == one_issue(name@, "file is not declared by the schema"@)
                    && *final(self) == *old(self),
                Some(limit) => if contents@.len() > limit || contents@.len() > remaining_bytes(
                    old(self).extracted_value(),
                ) {
                    r matches Err(e) && e.view() == one_issue(name@, "extracted size exceeds the limit"@)
                } else {
                    &&& r is Ok
                    &&& final(self).extracted_value() == old(self).extracted_value() + contents@.len()
                    &&& final(self).files_value()@ == old(self).files_value()@.insert(
                        encode_utf8(name@),
                        contents@,
                    )
                },
            },
    {
        let limit = content_limit(name.as_str())?;
        let remaining = if self.extracted < MAX_EXTRACTED_BYTES {
            MAX_EXTRACTED_BYTES - self.extracted
        } else {
            0
        };
        let length = contents.len() as u64;
        if length > limit || length > remaining {
            return Err(PackError::one(name.as_str(), "extracted size exceeds the limit"));
        }
        self.extracted = self.extracted + length;
        self.files.insert(name, contents);
        Ok(())
    }

    /// Admits a regular file found while walking a directory, and returns its size limit.
    pub fn admit_walk_file(&mut self, relative: &str, is_file: bool) -> (r: Result<u64, PackError>)
        requires
            old(self).wf(),
        ensures
            final(self).wf(),
            final(self).files_value() == old(self).files_value(),
            final(self).extracted_value() == old(self).extracted_value(),
            !is_file ==> (r matches Err(e) && e.view() == one_issue(relative@, "special files are not accepted"@)),
            is_file && old(self).files_value().pairs().len() >= 256 ==> (r matches Err(e) && e.view() == one_issue(
                "pack"@,
                "file count exceeds the limit"@,
            )),
            is_file && old(self).files_value().pairs().len() < 256 ==> {
                &&& old(self).folded_view().contains(lowered(relative@)) ==> (r matches Err(e) && e.view()
                    == one_issue(relative@, "path duplicates another path by case"@))
                &&& !old(self).folded_view().contains(lowered(relative@)) ==> final(self).folded_view() == old(
                    self,
                ).folded_view().push(lowered(relative@)) && match declared_limit(relative.spec_bytes()) {
                    Some(limit) => r == Ok::<u64, PackError>(limit),
                    None => r matches Err(e) && e.view() == one_issue(
                        relative@,
                        "file is not declared by the schema"@,
                    ),
                }
            },
    {
        if !is_file {
            return Err(PackError::one(relative, "special files are not accepted"));
        }
        if self.files.len() >= MAX_FILES {
            return Err(PackError::one("pack", "file count exceeds the limit"));
        }
        if !self.remember(relative) {
            return Err(PackError::one(relative, "path duplicates another path by case"));
        }
        content_limit(relative)
    }

    /// Stores a file read while walking a directory.
    pub fn accept_walk_file(&mut self, relative: String, bytes: Vec<u8>)
        requires
            old(self).wf(),
        ensures
            final(self).wf(),
            final(self).folded_view() == old(self).folded_view(),
            final(self).extracted_value() == old(self).extracted_value(),
            final(self).files_value()@ == old(self).files_value()@.insert(encode_utf8(relative@), bytes@),
    {
        self.files.insert(relative, bytes);
    }

    /// The files gathered so far.
    pub fn finish(self) -> (r: PackFiles)
        requires
            self.wf(),
        ensures
            r == self.files_value(),
            r.wf(),
    {
        self.files
    }
}

/// Checks a directory-walk entry's path and refuses links.
pub fn check_walk_entry(relative: &str, is_symlink: bool) -> (r: Result<(), PackError>)
    ensures
        relative_path_error(relative@) matches Some(e) ==> (r matches Err(x) && x.view() == one_issue(e.0, e.1)),
        relative_path_error(relative@) is None ==> (is_symlink <==> r is Err),
        relative_path_error(relative@) is None && is_symlink ==> (r matches Err(x) && x.view() == one_issue(
            relative@,
            "links are not accepted"@,
        )),
{
    validate_relative_path(relative)?;
    if is_symlink {
        return Err(PackError::one(relative, "links are not accepted"));
    }
    Ok(())
}

/// Admits a subdirectory found while walking, and returns its depth.
pub fn admit_walk_directory(relative: &str, depth: usize) -> (r: Result<usize, PackError>)
    ensures
        !is_schema_directory(relative@) ==> (r matches Err(e) && e.view() == one_issue(
            relative@,
            "directory is not declared by the schema"@,
        )),
        is_schema_directory(relative@) && depth + 1 >= 4 ==> (r matches Err(e) && (e.view() == one_issue(
            relative@,
            "directory depth exceeds the limit"@,
        ) || (depth == usize::MAX && e.view() == one_issue("path"@, "directory depth exceeds the limit"@)))),
        is_schema_directory(relative@) && depth + 1 < 4 ==> r == Ok::<usize, PackError>((depth + 1) as usize),
{
    if !(super::format::same_text(relative, "puzzles") || super::format::same_text(relative, "notes")) {
        return Err(PackError::one(relative, "directory is not declared by the schema"));
    }
    let child_depth = match depth.checked_add(1) {
        Some(child) => child,
        None => {
            return Err(PackError::one("path", "directory depth exceeds the limit"));
        },
    };
    if child_depth >= super::MAX_PATH_DEPTH {
        return Err(PackError::one(relative, "directory depth exceeds the limit"));
    }
    Ok(child_depth)
}

/// Checks the size of a file that was read against its limit.
pub fn check_read_size(length: u64, limit: u64) -> (r: Result<(), PackError>)
    ensures
        r is Ok <==> length <= limit,
        r matches Err(e) ==> e.view() == one_issue("file"@, "file size exceeds its limit"@),
{
    if length > limit {
        return Err(PackError::one("file", "file size exceeds its limit"));
    }
    Ok(())
}

/// Refuses compressed archives above the archive bound.
pub fn check_archive_size(length: usize) -> (r: Result<(), PackError>)
    ensures
        r is Ok <==> length <= super::MAX_ARCHIVE_BYTES,
        r matches Err(e) ==> e.view() == one_issue("archive"@, "compressed size exceeds the limit"@),
{
    if length > super::MAX_ARCHIVE_BYTES {
        return Err(PackError::one("archive", "compressed size exceeds the limit"));
    }
    Ok(())
}

/// Checks that the ZIP reader found the same catalog as the preflight check.
pub fn check_opened_archive(catalog: &Catalog, entries: usize, central_directory_start: u64, offset: u64) -> (r:
    Result<(), PackError>)
    ensures
        r is Ok <==> (entries == catalog.entries && central_directory_start == catalog.start && offset == 0),
        r matches Err(e) ==> e.view() == PackErrorView::Archive,
{
    if entries != catalog.entries || central_directory_start != catalog.start as u64 || offset != 0 {
        return Err(PackError::Archive);
    }
    Ok(())
}

} // verus!
