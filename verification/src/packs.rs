//! Bounded community puzzle-pack validation.

use sha2::Digest;
use sha2::Sha256;
use vstd::prelude::*;
use vstd::string::{StringExecFns, StringSliceAdditionalSpecFns};
use vstd::utf8::{decode_utf8, encode_utf8, valid_utf8};

use format::{
    content_matches, document_metadata, issue, metadata_issues, puzzle_issues, texts, Issues, PackDocument,
    PackMetadata, PuzzleContent, PuzzleDocument,
};

pub mod files;
pub mod format;
pub mod path;
pub mod archive;
pub mod reader;

pub use files::{PackFile, PackFiles};
pub use path::{content_limit, validate_relative_path};

verus! {

pub const CURRENT_PACK_FORMAT_VERSION: u16 = 1;
pub const MAX_PUZZLE_BYTES: u64 = 65536;
pub const MAX_METADATA_BYTES: u64 = 32768;
pub const MAX_NOTE_BYTES: u64 = 16384;
pub const MAX_PUZZLES: usize = 128;
pub const MAX_FILES: usize = 256;
pub const MAX_ARCHIVE_BYTES: usize = 8388608;
pub const MAX_EXTRACTED_BYTES: u64 = 16777216;
pub const MAX_MANAGED_BYTES: u64 = 536870912;
pub const MAX_INSTALLED_PACKS: usize = 32;
pub const MAX_PATH_DEPTH: usize = 4;
pub const MAX_COMPONENT_BYTES: usize = 80;
pub const MAX_RELATIVE_PATH_BYTES: usize = 128;
pub const MAX_VALIDATION_ISSUES: usize = 32;

// ---------------------------------------------------------------------------
// Diagnostic text
// ---------------------------------------------------------------------------

/// A Unicode control character (general category Cc).
pub open spec fn is_control(c: char) -> bool {
    (c as u32) < 0x20 || (0x7f <= (c as u32) && (c as u32) < 0xa0)
}

pub open spec fn has_control(s: Seq<char>) -> bool {
    exists|i: int| 0 <= i < s.len() && is_control(#[trigger] s[i])
}

/// The text with each control character replaced by `?`.
pub open spec fn sanitized(s: Seq<char>) -> Seq<char> {
    s.map_values(|c: char| if is_control(c) { '?' } else { c })
}

pub fn char_is_control(c: char) -> (r: bool)
    ensures
        r == is_control(c),
{
    let code = c as u32;
    code < 0x20 || (0x7f <= code && code < 0xa0)
}

/// `String::push`: the text grows by one character.
#[verifier::external_body]
pub(crate) fn push_char(text: &mut String, c: char)
    ensures
        final(text)@ == old(text)@.push(c),
{
    text.push(c);
}

/// Whether any character of the text is a control character.
pub fn contains_control(text: &str) -> (r: bool)
    ensures
        r == has_control(text@),
{
    broadcast use vstd::string::group_string_axioms;

    let mut found = false;
    for c in it: text.chars()
        invariant
            it.seq() == text@,
            found == exists|i: int| 0 <= i < it.index() && is_control(#[trigger] text@[i]),
    {
        assert(c == text@[it.index() as int]);
        if char_is_control(c) {
            found = true;
        }
    }
    found
}

/// Replaces control characters so that diagnostics cannot steer a terminal.
pub fn safe_diagnostic_text(text: &str) -> (r: String)
    ensures
        r@ == sanitized(text@),
{
    broadcast use vstd::string::group_string_axioms;

    let mut result = String::new();
    for c in it: text.chars()
        invariant
            it.seq() == text@,
            result@ == sanitized(text@.subrange(0, it.index() as int)),
    {
        assert(c == text@[it.index() as int]);
        if char_is_control(c) {
            push_char(&mut result, '?');
        } else {
            push_char(&mut result, c);
        }
        assert(sanitized(text@.subrange(0, it.index() + 1)) =~= sanitized(
            text@.subrange(0, it.index() as int),
        ).push(if is_control(c) { '?' } else { c }));
    }
    assert(text@.subrange(0, text@.len() as int) =~= text@);
    result
}

// ---------------------------------------------------------------------------
// Issues and errors
// ---------------------------------------------------------------------------

/// One located validation problem, safe to print.
#[derive(Debug)]
pub struct PackIssue {
    location: String,
    problem: String,
}

impl PackIssue {
    pub closed spec fn view(&self) -> (Seq<char>, Seq<char>) {
        (self.location@, self.problem@)
    }

    pub fn new(location: &str, problem: &str) -> (r: Self)
        ensures
            r.view() == (sanitized(location@), sanitized(problem@)),
    {
        PackIssue { location: safe_diagnostic_text(location), problem: safe_diagnostic_text(problem) }
    }

    pub fn location(&self) -> (r: &str)
        ensures
            r@ == self.view().0,
    {
        self.location.as_str()
    }

    pub fn problem(&self) -> (r: &str)
        ensures
            r@ == self.view().1,
    {
        self.problem.as_str()
    }

    pub fn duplicate(&self) -> (r: Self)
        ensures
            r.view() == self.view(),
    {
        PackIssue { location: self.location.clone(), problem: self.problem.clone() }
    }
}

/// `std::io::Error`, carried through pack and storage errors as an opaque cause.
#[verifier::external_type_specification]
#[verifier::external_body]
pub struct ExIoError(std::io::Error);

/// Why a pack was refused.
#[derive(Debug)]
pub enum PackError {
    Io(std::io::Error),
    Invalid { issues: Vec<PackIssue> },
    Archive,
    SourceType,
}

/// What a pack error says, without its operating-system cause.
pub enum PackErrorView {
    Io,
    Invalid(Seq<(Seq<char>, Seq<char>)>),
    Archive,
    SourceType,
}

pub open spec fn issue_views(issues: Seq<PackIssue>) -> Seq<(Seq<char>, Seq<char>)> {
    issues.map_values(|i: PackIssue| i.view())
}

/// The error of one issue at `location`.
pub open spec fn one_issue(location: Seq<char>, problem: Seq<char>) -> PackErrorView {
    PackErrorView::Invalid(seq![(sanitized(location), sanitized(problem))])
}

impl PackError {
    pub open spec fn view(&self) -> PackErrorView {
        match self {
            PackError::Io(_) => PackErrorView::Io,
            PackError::Invalid { issues } => PackErrorView::Invalid(issue_views(issues@)),
            PackError::Archive => PackErrorView::Archive,
            PackError::SourceType => PackErrorView::SourceType,
        }
    }

    pub fn one(location: &str, problem: &str) -> (r: Self)
        ensures
            r.view() == one_issue(location@, problem@),
    {
        let issue = PackIssue::new(location, problem);
        let issues = vec![issue];
        assert(issue_views(issues@) =~= seq![(sanitized(location@), sanitized(problem@))]);
        PackError::Invalid { issues }
    }

    /// The validation issues, empty for other errors.
    pub fn issues(&self) -> (r: &[PackIssue])
        ensures
            self.view() matches PackErrorView::Invalid(v) ==> issue_views(r@) == v,
            !(self.view() is Invalid) ==> r@.len() == 0,
    {
        match self {
            PackError::Invalid { issues } => issues.as_slice(),
            _ => &[],
        }
    }

    /// The error as a sentence for players and authors.
    pub fn message(&self) -> (r: String)
        ensures
            r@ == pack_error_text(self.view()),
    {
        match self {
            PackError::Io(_) => String::from_str("puzzle-pack I/O failed"),
            PackError::Invalid { issues } => {
                let mut text = String::from_str("puzzle pack failed validation with ");
                crate::text::push_decimal(&mut text, issues.len() as u64);
                text.append(" issue(s)");
                assert(text@ =~= pack_error_text(self.view()));
                text
            },
            PackError::Archive => String::from_str("puzzle-pack archive is invalid or unsupported"),
            PackError::SourceType => String::from_str("puzzle-pack source is not a directory or ZIP archive"),
        }
    }
}

pub open spec fn pack_error_text(e: PackErrorView) -> Seq<char> {
    match e {
        PackErrorView::Io => "puzzle-pack I/O failed"@,
        PackErrorView::Invalid(issues) => "puzzle pack failed validation with "@ + crate::text::decimal(
            issues.len(),
        ) + " issue(s)"@,
        PackErrorView::Archive => "puzzle-pack archive is invalid or unsupported"@,
        PackErrorView::SourceType => "puzzle-pack source is not a directory or ZIP archive"@,
    }
}

/// Issues grow one at a time up to the validation bound; later ones are dropped.
pub open spec fn capped_push(
    issues: Seq<(Seq<char>, Seq<char>)>,
    issue: (Seq<char>, Seq<char>),
) -> Seq<(Seq<char>, Seq<char>)> {
    if issues.len() < 32 {
        issues.push(issue)
    } else {
        issues
    }
}

pub fn push_issue(issues: &mut Vec<PackIssue>, issue: PackIssue)
    ensures
        issue_views(final(issues)@) == capped_push(issue_views(old(issues)@), issue.view()),
{
    if issues.len() < MAX_VALIDATION_ISSUES {
        let ghost before = issues@;
        issues.push(issue);
        assert(issue_views(issues@) =~= issue_views(before).push(issue.view()));
    }
}

/// Records one issue at a fixed location, within the validation bound.
pub fn record_issue(issues: &mut Vec<PackIssue>, location: &str, problem: &str)
    ensures
        issue_views(final(issues)@) == capped_push(
            issue_views(old(issues)@),
            (sanitized(location@), sanitized(problem@)),
        ),
{
    if issues.len() < MAX_VALIDATION_ISSUES {
        push_issue(issues, PackIssue::new(location, problem));
    }
}

/// Each issue of `source`, pushed in turn.
pub open spec fn capped_extend(
    issues: Seq<(Seq<char>, Seq<char>)>,
    source: Seq<(Seq<char>, Seq<char>)>,
) -> Seq<(Seq<char>, Seq<char>)>
    decreases source.len(),
{
    if source.len() == 0 {
        issues
    } else {
        capped_push(capped_extend(issues, source.drop_last()), source.last())
    }
}

pub fn append_issues(target: &mut Vec<PackIssue>, source: Vec<PackIssue>)
    ensures
        issue_views(final(target)@) == capped_extend(issue_views(old(target)@), issue_views(source@)),
{
    let ghost start = issue_views(target@);
    let ghost all = issue_views(source@);
    let mut i: usize = 0;
    while i < source.len()
        invariant
            i <= source@.len(),
            all == issue_views(source@),
            issue_views(target@) == capped_extend(start, all.subrange(0, i as int)),
        decreases source@.len() - i,
    {
        push_issue(target, source[i].duplicate());
        assert(all.subrange(0, i + 1).drop_last() =~= all.subrange(0, i as int));
        i = i + 1;
    }
    assert(all.subrange(0, source@.len() as int) =~= all);
}

// ---------------------------------------------------------------------------
// Fingerprints
// ---------------------------------------------------------------------------

pub open spec fn hex_digit(d: u8) -> char {
    crate::text::digit_char(d as int)
}

/// Two lowercase hexadecimal digits per byte.
pub open spec fn hex_text(bytes: Seq<u8>) -> Seq<char>
    decreases bytes.len(),
{
    if bytes.len() == 0 {
        Seq::empty()
    } else {
        hex_text(bytes.drop_last()) + seq![hex_digit(bytes.last() / 16), hex_digit(bytes.last() % 16)]
    }
}

pub fn fingerprint_hex(fingerprint: [u8; 32]) -> (r: String)
    ensures
        r@ == hex_text(fingerprint@),
{
    let mut result = String::new();
    let mut i: usize = 0;
    while i < 32
        invariant
            i <= 32,
            fingerprint@.len() == 32,
            result@ == hex_text(fingerprint@.subrange(0, i as int)),
        decreases 32 - i,
    {
        let byte = fingerprint[i];
        result.append(crate::text::digit_str(byte / 16));
        result.append(crate::text::digit_str(byte % 16));
        assert(fingerprint@.subrange(0, i + 1).drop_last() =~= fingerprint@.subrange(0, i as int));
        assert(result@ =~= hex_text(fingerprint@.subrange(0, i + 1)));
        i = i + 1;
    }
    assert(fingerprint@.subrange(0, 32) =~= fingerprint@);
    result
}

} // verus!

verus! {

// ---------------------------------------------------------------------------
// Content fingerprints
// ---------------------------------------------------------------------------

/// The SHA-256 digest of a message.
pub uninterp spec fn sha256(message: Seq<u8>) -> Seq<u8>;

/// `sha2::Sha256::digest`: the digest is a function of the message bytes alone.
#[verifier::external_body]
fn sha256_digest(message: &[u8]) -> (r: [u8; 32])
    ensures
        r@ == sha256(message@),
{
    Sha256::digest(message).into()
}

/// Eight big-endian bytes.
pub open spec fn be_u64(n: int) -> Seq<u8> {
    seq![
        ((n / 0x100_0000_0000_0000) % 256) as u8,
        ((n / 0x1_0000_0000_0000) % 256) as u8,
        ((n / 0x100_0000_0000) % 256) as u8,
        ((n / 0x1_0000_0000) % 256) as u8,
        ((n / 0x100_0000) % 256) as u8,
        ((n / 0x1_0000) % 256) as u8,
        ((n / 0x100) % 256) as u8,
        (n % 256) as u8,
    ]
}

/// The bytes a content fingerprint hashes: a domain tag, the format version,
/// and each file's path and contents with their lengths, in path order.
pub open spec fn fingerprint_message(version: u16, p: Seq<(Seq<u8>, Seq<u8>)>) -> Seq<u8>
    decreases p.len(),
{
    if p.len() == 0 {
        encode_utf8("orifude-pack\0"@) + seq![(version / 256) as u8, (version % 256) as u8]
    } else {
        fingerprint_message(version, p.drop_last()) + be_u64(p.last().0.len() as int) + p.last().0 + be_u64(
            p.last().1.len() as int,
        ) + p.last().1
    }
}

fn push_bytes(out: &mut Vec<u8>, bytes: &[u8])
    ensures
        final(out)@ == old(out)@ + bytes@,
{
    let mut i: usize = 0;
    while i < bytes.len()
        invariant
            i <= bytes@.len(),
            out@ == old(out)@ + bytes@.subrange(0, i as int),
        decreases bytes@.len() - i,
    {
        out.push(bytes[i]);
        assert(out@ =~= old(out)@ + bytes@.subrange(0, i + 1));
        i = i + 1;
    }
    assert(bytes@.subrange(0, bytes@.len() as int) =~= bytes@);
}

fn push_be_u64(out: &mut Vec<u8>, n: u64)
    ensures
        final(out)@ == old(out)@ + be_u64(n as int),
{
    out.push((n / 0x100_0000_0000_0000) as u8);
    out.push(((n / 0x1_0000_0000_0000) % 256) as u8);
    out.push(((n / 0x100_0000_0000) % 256) as u8);
    out.push(((n / 0x1_0000_0000) % 256) as u8);
    out.push(((n / 0x100_0000) % 256) as u8);
    out.push(((n / 0x1_0000) % 256) as u8);
    out.push(((n / 0x100) % 256) as u8);
    out.push((n % 256) as u8);
    assert(final(out)@ =~= old(out)@ + be_u64(n as int));
}

/// The fingerprint of a pack's exact content.
pub fn content_fingerprint(format_version: u16, files: &PackFiles) -> (r: [u8; 32])
    ensures
        r@ == sha256(fingerprint_message(format_version, files.pairs())),
{
    let ghost p = files.pairs();
    let mut message: Vec<u8> = Vec::new();
    push_bytes(&mut message, "orifude-pack\0".as_bytes());
    message.push((format_version / 256) as u8);
    message.push((format_version % 256) as u8);
    assert(message@ =~= fingerprint_message(format_version, p.subrange(0, 0)));
    let mut i: usize = 0;
    while i < files.len()
        invariant
            p == files.pairs(),
            i <= p.len(),
            message@ == fingerprint_message(format_version, p.subrange(0, i as int)),
        decreases p.len() - i,
    {
        let path = files.path_at(i).as_bytes();
        let bytes = files.bytes_at(i);
        push_be_u64(&mut message, path.len() as u64);
        push_bytes(&mut message, path);
        push_be_u64(&mut message, bytes.len() as u64);
        push_bytes(&mut message, bytes);
        assert(p.subrange(0, i + 1).drop_last() =~= p.subrange(0, i as int));
        i = i + 1;
    }
    assert(p.subrange(0, p.len() as int) =~= p);
    sha256_digest(message.as_slice())
}

} // verus!

verus! {

// ---------------------------------------------------------------------------
// Whole packs
// ---------------------------------------------------------------------------

/// The parsed documents of a pack's files: `pack.toml`'s fields, and for each
/// file in path order the puzzle fields its text holds, if it holds them.
pub struct PackDocuments {
    pub metadata: Option<PackDocument>,
    pub puzzles: Vec<Option<PuzzleDocument>>,
}

pub open spec fn total_bytes(p: Seq<(Seq<u8>, Seq<u8>)>) -> int
    decreases p.len(),
{
    if p.len() == 0 {
        0
    } else {
        total_bytes(p.drop_last()) + p.last().1.len()
    }
}

pub open spec fn metadata_key() -> Seq<u8> {
    encode_utf8("pack.toml"@)
}

/// Why a set of files cannot hold a pack, before any document is read.
pub open spec fn files_error(files: PackFiles) -> Option<PackErrorView> {
    if files.pairs().len() == 0 {
        Some(one_issue("pack"@, "pack has no files"@))
    } else if total_bytes(files.pairs()) > 16777216 {
        Some(one_issue("pack"@, "extracted size exceeds the limit"@))
    } else if !files@.contains_key(metadata_key()) {
        Some(one_issue("pack.toml"@, "required metadata is missing"@))
    } else {
        None
    }
}

/// The metadata document, or why `pack.toml` is refused.
pub open spec fn metadata_stage(files: PackFiles, docs: PackDocuments) -> Result<PackDocument, PackErrorView> {
    let bytes = files@[metadata_key()];
    if bytes.len() > 32768 {
        Err(one_issue("pack.toml"@, "metadata size exceeds the limit"@))
    } else if !valid_utf8(bytes) {
        Err(one_issue("pack.toml"@, "metadata is not valid UTF-8"@))
    } else {
        match docs.metadata {
            None => Err(one_issue("pack.toml"@, "metadata TOML is invalid"@)),
            Some(doc) => if metadata_issues(doc).len() > 0 {
                Err(PackErrorView::Invalid(metadata_issues(doc)))
            } else {
                Ok(doc)
            },
        }
    }
}

pub open spec fn puzzle_path(id: Seq<char>) -> Seq<char> {
    "puzzles/"@ + id + ".toml"@
}

/// The puzzle document parsed from the file stored under `key`.
pub open spec fn document_for(files: PackFiles, docs: PackDocuments, key: Seq<u8>) -> Option<PuzzleDocument> {
    let i = files::key_index(files.pairs(), key);
    if 0 <= i < docs.puzzles@.len() {
        docs.puzzles@[i]
    } else {
        None
    }
}

/// The issues of one declared puzzle file.
pub open spec fn puzzle_file_issues(
    bytes: Seq<u8>,
    doc: Option<PuzzleDocument>,
    pack: Seq<char>,
    id: Seq<char>,
) -> Issues {
    if bytes.len() > 65536 {
        seq![issue("puzzle"@, "puzzle size exceeds the limit"@)]
    } else if !valid_utf8(bytes) {
        seq![issue("puzzle"@, "puzzle is not valid UTF-8"@)]
    } else {
        match doc {
            None => seq![issue("puzzle"@, "puzzle TOML is invalid"@)],
            Some(d) => puzzle_issues(pack, id, d),
        }
    }
}

pub open spec fn declared_issues(
    issues: Issues,
    files: PackFiles,
    docs: PackDocuments,
    pack: Seq<char>,
    ids: Seq<Seq<char>>,
    k: int,
) -> Issues
    decreases k,
{
    if k <= 0 {
        issues
    } else {
        let earlier = declared_issues(issues, files, docs, pack, ids, k - 1);
        let path = puzzle_path(ids[k - 1]);
        let key = encode_utf8(path);
        if !files@.contains_key(key) {
            capped_push(earlier, issue(path, "declared puzzle is missing"@))
        } else {
            capped_extend(earlier, puzzle_file_issues(files@[key], document_for(files, docs, key), pack, ids[k - 1]))
        }
    }
}

/// What is wrong with a file that is not `pack.toml`, given the declared puzzle IDs.
pub open spec fn other_file_problem(path: Seq<u8>, bytes: Seq<u8>, declared: Seq<Seq<char>>) -> Option<Seq<char>> {
    let j = path::first_index_of(path, 47);
    let filename = path.subrange(j + 1, path.len() as int);
    let dot = path::last_index_of(filename, 46);
    let stem = if dot < 0 {
        filename
    } else {
        filename.subrange(0, dot)
    };
    let extension = if dot < 0 {
        Seq::empty()
    } else {
        filename.subrange(dot + 1, filename.len() as int)
    };
    let directory = path.subrange(0, j);
    let notes = directory == encode_utf8("notes"@);
    let allowed = ((directory == encode_utf8("puzzles"@) && extension == encode_utf8("toml"@)) || (notes
        && extension == encode_utf8("txt"@))) && exists|d: int|
        0 <= d < declared.len() && encode_utf8(#[trigger] declared[d]) == stem;
    if j >= path.len() || !allowed {
        Some("file is not declared by the schema"@)
    } else if notes && !valid_utf8(bytes) {
        Some("note is not valid UTF-8"@)
    } else if notes && has_control(decode_utf8(bytes)) {
        Some("note contains a control character"@)
    } else {
        None
    }
}

pub open spec fn other_issues(
    issues: Issues,
    files: PackFiles,
    declared: Seq<Seq<char>>,
    k: int,
) -> Issues
    decreases k,
{
    if k <= 0 {
        issues
    } else {
        let earlier = other_issues(issues, files, declared, k - 1);
        let (path, bytes) = files.pairs()[k - 1];
        if path == metadata_key() {
            earlier
        } else {
            match other_file_problem(path, bytes, declared) {
                Some(m) => capped_push(earlier, issue(files.paths()[k - 1], m)),
                None => earlier,
            }
        }
    }
}

/// Every content issue of a pack whose metadata is valid.
pub open spec fn pack_issues(files: PackFiles, docs: PackDocuments, doc: PackDocument) -> Issues {
    let ids = texts(doc.puzzles@);
    other_issues(
        declared_issues(Seq::empty(), files, docs, doc.id@, ids, ids.len() as int),
        files,
        ids,
        files.pairs().len() as int,
    )
}

/// A pack that passed every bound and rule, with its exact files and fingerprint.
pub struct ValidatedPack {
    metadata: PackMetadata,
    puzzles: Vec<PuzzleContent>,
    files: PackFiles,
    fingerprint: [u8; 32],
    extracted_bytes: u64,
}

impl ValidatedPack {
    /// Every puzzle of a validated pack satisfies the puzzle invariant.
    #[verifier::type_invariant]
    spec fn puzzles_valid(&self) -> bool {
        forall|k: int| 0 <= k < self.puzzles@.len() ==> (#[trigger] self.puzzles@[k]).puzzle_value().wf()
    }

    pub closed spec fn metadata_value(&self) -> PackMetadata {
        self.metadata
    }

    pub closed spec fn puzzles_value(&self) -> Seq<PuzzleContent> {
        self.puzzles@
    }

    pub closed spec fn files_value(&self) -> PackFiles {
        self.files
    }

    pub closed spec fn fingerprint_value(&self) -> Seq<u8> {
        self.fingerprint@
    }

    pub closed spec fn extracted_value(&self) -> u64 {
        self.extracted_bytes
    }

    pub fn metadata(&self) -> (r: &PackMetadata)
        ensures
            *r == self.metadata_value(),
    {
        &self.metadata
    }

    pub fn puzzles(&self) -> (r: &[PuzzleContent])
        ensures
            r@ == self.puzzles_value(),
            forall|k: int| 0 <= k < r@.len() ==> (#[trigger] r@[k]).puzzle_value().wf(),
    {
        proof {
            use_type_invariant(self);
        }
        self.puzzles.as_slice()
    }

    pub fn files(&self) -> (r: &PackFiles)
        ensures
            *r == self.files_value(),
    {
        &self.files
    }

    pub fn fingerprint(&self) -> (r: [u8; 32])
        ensures
            r@ == self.fingerprint_value(),
    {
        self.fingerprint
    }

    pub fn fingerprint_hex(&self) -> (r: String)
        ensures
            r@ == hex_text(self.fingerprint_value()),
    {
        fingerprint_hex(self.fingerprint)
    }

    pub fn extracted_bytes(&self) -> (r: u64)
        ensures
            r == self.extracted_value(),
    {
        self.extracted_bytes
    }
}

/// What a validated pack holds, given the metadata document it was read from.
pub open spec fn validated_matches(v: ValidatedPack, files: PackFiles, docs: PackDocuments, doc: PackDocument) -> bool {
    let ids = texts(doc.puzzles@);
    &&& v.metadata_value().view() == document_metadata(doc)
    &&& v.files_value() == files
    &&& v.extracted_value() == total_bytes(files.pairs())
    &&& v.fingerprint_value() == sha256(fingerprint_message(doc.format_version, files.pairs()))
    &&& v.puzzles_value().len() == ids.len()
    &&& forall|k: int|
        0 <= k < ids.len() ==> #[trigger] document_for(files, docs, encode_utf8(puzzle_path(ids[k]))) is Some
            && content_matches(
            v.puzzles_value()[k],
            doc.id@,
            document_for(files, docs, encode_utf8(puzzle_path(ids[k])))->Some_0,
        )
}

/// A pack's fingerprint is a function of its files and its format version: two
/// validations of the same files under the same format version agree on it.
pub proof fn lemma_fingerprint_of_files(
    a: ValidatedPack,
    b: ValidatedPack,
    files: PackFiles,
    docs_a: PackDocuments,
    docs_b: PackDocuments,
    doc_a: PackDocument,
    doc_b: PackDocument,
)
    requires
        validated_matches(a, files, docs_a, doc_a),
        validated_matches(b, files, docs_b, doc_b),
        doc_a.format_version == doc_b.format_version,
    ensures
        a.fingerprint_value() == b.fingerprint_value(),
        a.files_value() == b.files_value(),
{
}

} // verus!

verus! {

/// Validates a complete set of pack files and their parsed documents.
pub fn validate_files(files: PackFiles, docs: PackDocuments) -> (r: Result<ValidatedPack, PackError>)
    requires
        files.wf(),
    ensures
        files_error(files) matches Some(e) ==> (r matches Err(x) && x.view() == e),
        files_error(files) is None && metadata_stage(files, docs) is Err ==> (r matches Err(x) && x.view()
            == metadata_stage(files, docs)->Err_0),
        files_error(files) is None && metadata_stage(files, docs) is Ok ==> {
            let doc = metadata_stage(files, docs)->Ok_0;
            &&& pack_issues(files, docs, doc).len() > 0 ==> (r matches Err(x) && x.view() == PackErrorView::Invalid(
                pack_issues(files, docs, doc),
            ))
            &&& pack_issues(files, docs, doc).len() == 0 ==> (r matches Ok(v) && validated_matches(
                v,
                files,
                docs,
                doc,
            ))
        },
{
    if files.is_empty() {
        return Err(PackError::one("pack", "pack has no files"));
    }
    let ghost p = files.pairs();
    let mut extracted: u64 = 0;
    let mut i: usize = 0;
    while i < files.len()
        invariant
            p == files.pairs(),
            i <= p.len(),
            extracted == total_bytes(p.subrange(0, i as int)),
            extracted <= MAX_EXTRACTED_BYTES,
        decreases p.len() - i,
    {
        let size = files.bytes_at(i).len() as u64;
        assert(p.subrange(0, i + 1).drop_last() =~= p.subrange(0, i as int));
        proof {
            lemma_total_bytes_prefix(p, i as int + 1);
        }
        if size > MAX_EXTRACTED_BYTES || extracted > MAX_EXTRACTED_BYTES - size {
            proof {
                lemma_total_bytes_prefix_le(p, i as int + 1);
            }
            return Err(PackError::one("pack", "extracted size exceeds the limit"));
        }
        extracted = extracted + size;
        i = i + 1;
    }
    assert(p.subrange(0, p.len() as int) =~= p);
    let metadata_bytes = match files.get("pack.toml") {
        Some(bytes) => bytes,
        None => {
            return Err(PackError::one("pack.toml", "required metadata is missing"));
        },
    };
    match format::document_text(
        metadata_bytes,
        MAX_METADATA_BYTES,
        "pack.toml",
        "metadata size exceeds the limit",
        "metadata is not valid UTF-8",
    ) {
        Ok(_) => {},
        Err(error) => {
            return Err(error);
        },
    }
    let document = match docs.metadata {
        Some(document) => document,
        None => {
            return Err(PackError::one("pack.toml", "metadata TOML is invalid"));
        },
    };
    let ghost doc = document;
    let metadata = format::metadata_from_document(document)?;
    let ghost ids = texts(doc.puzzles@);
    let mut issues: Vec<PackIssue> = Vec::new();
    let mut puzzles: Vec<PuzzleContent> = Vec::new();
    let mut k: usize = 0;
    while k < metadata.puzzle_ids().len()
        invariant
            files.wf(),
            metadata.view() == document_metadata(doc),
            ids == texts(doc.puzzles@),
            ids == metadata.view().puzzle_ids,
            k <= ids.len(),
            issue_views(issues@) == declared_issues(Seq::empty(), files, docs, doc.id@, ids, k as int),
            forall|q: int| 0 <= q < puzzles@.len() ==> (#[trigger] puzzles@[q]).puzzle_value().wf(),
            issues@.len() == 0 ==> puzzles@.len() == k && forall|q: int|
                0 <= q < k ==> #[trigger] document_for(files, docs, encode_utf8(puzzle_path(ids[q]))) is Some
                    && content_matches(
                    puzzles@[q],
                    doc.id@,
                    document_for(files, docs, encode_utf8(puzzle_path(ids[q])))->Some_0,
                ),
        decreases ids.len() - k,
    {
        let puzzle_id = metadata.puzzle_ids()[k].as_str();
        assert(puzzle_id@ == ids[k as int]);
        let mut path = String::from_str("puzzles/");
        path.append(puzzle_id);
        path.append(".toml");
        assert(path@ =~= puzzle_path(ids[k as int]));
        let ghost key = encode_utf8(path@);
        let ghost earlier = issue_views(issues@);
        match files.find(path.as_str()) {
            None => {
                push_issue(&mut issues, PackIssue::new(path.as_str(), "declared puzzle is missing"));
                assert(issue_views(issues@).len() > 0);
            },
            Some(index) => {
                let bytes = files.bytes_at(index);
                match format::document_text(
                    bytes,
                    MAX_PUZZLE_BYTES,
                    "puzzle",
                    "puzzle size exceeds the limit",
                    "puzzle is not valid UTF-8",
                ) {
                    Err(error) => {
                        append_error_issues(&mut issues, error);
                        proof {
                            lemma_capped_extend_len(earlier, error.view()->Invalid_0);
                        }
                        assert(issue_views(issues@).len() > 0);
                    },
                    Ok(_) => {
                        let parsed = if index < docs.puzzles.len() {
                            &docs.puzzles[index]
                        } else {
                            &None
                        };
                        assert(*parsed == document_for(files, docs, key));
                        match parsed {
                            None => {
                                let error = PackError::one("puzzle", "puzzle TOML is invalid");
                                append_error_issues(&mut issues, error);
                                proof {
                                    lemma_capped_extend_len(earlier, error.view()->Invalid_0);
                                }
                                assert(issue_views(issues@).len() > 0);
                            },
                            Some(puzzle_doc) => match format::puzzle_from_document(
                                metadata.id(),
                                puzzle_id,
                                puzzle_doc,
                            ) {
                                Ok(content) => {
                                    proof {
                                        assert(key == encode_utf8(puzzle_path(ids[k as int])));
                                        assert(document_for(files, docs, key) == Some(*puzzle_doc));
                                        assert(content_matches(content, doc.id@, *puzzle_doc));
                                        assert(puzzle_issues(doc.id@, ids[k as int], *puzzle_doc).len() == 0);
                                        lemma_capped_extend_len(earlier, Seq::empty());
                                        assert(issue_views(issues@) == earlier);
                                    }
                                    let ghost before = puzzles@;
                                    puzzles.push(content);
                                    proof {
                                        if issues@.len() == 0 {
                                            assert forall|q: int| 0 <= q < k + 1 implies #[trigger] document_for(
                                                files,
                                                docs,
                                                encode_utf8(puzzle_path(ids[q])),
                                            ) is Some && content_matches(
                                                puzzles@[q],
                                                doc.id@,
                                                document_for(files, docs, encode_utf8(puzzle_path(ids[q])))->Some_0,
                                            ) by {
                                                if q < k {
                                                    assert(puzzles@[q] == before[q]);
                                                }
                                            }
                                        }
                                    }
                                },
                                Err(error) => {
                                    append_error_issues(&mut issues, error);
                                    proof {
                                        if error.view() is Invalid {
                                            lemma_capped_extend_len(earlier, error.view()->Invalid_0);
                                        }
                                    }
                                    assert(issue_views(issues@).len() > 0);
                                },
                            },
                        }
                    },
                }
            },
        }
        proof {
            if files@.contains_key(key) {
                lemma_capped_extend_len(
                    earlier,
                    puzzle_file_issues(files@[key], document_for(files, docs, key), doc.id@, ids[k as int]),
                );
            }
        }
        k = k + 1;
    }
    let ghost after_declared = issue_views(issues@);
    let mut i: usize = 0;
    while i < files.len()
        invariant
            files.wf(),
            p == files.pairs(),
            ids == texts(doc.puzzles@),
            ids == metadata.view().puzzle_ids,
            i <= p.len(),
            issue_views(issues@) == other_issues(after_declared, files, ids, i as int),
            forall|q: int| 0 <= q < puzzles@.len() ==> (#[trigger] puzzles@[q]).puzzle_value().wf(),
        decreases p.len() - i,
    {
        let path = files.path_at(i);
        let bytes = files.bytes_at(i);
        let is_metadata = format::same_text(path, "pack.toml");
        proof {
            broadcast use vstd::utf8::encode_utf8_decode_utf8;

            files.lemma_paths();
            if is_metadata {
                assert(p[i as int].0 == metadata_key());
            }
            if p[i as int].0 == metadata_key() {
                assert(decode_utf8(encode_utf8(path@)) == decode_utf8(encode_utf8("pack.toml"@)));
            }
        }
        if !is_metadata {
            match other_file_problem_at(path, bytes, metadata.puzzle_ids()) {
                Some(problem) => {
                    push_issue(&mut issues, PackIssue::new(path, problem));
                },
                None => {},
            }
        }
        i = i + 1;
    }
    proof {
        lemma_other_issues_len(after_declared, files, ids, p.len() as int);
    }
    if issues.len() > 0 {
        return Err(PackError::Invalid { issues });
    }
    if puzzles.len() != metadata.puzzle_ids().len() {
        return Err(PackError::one("pack", "not every declared puzzle was loaded"));
    }
    let fingerprint = content_fingerprint(metadata.format_version(), &files);
    Ok(ValidatedPack { metadata, puzzles, files, fingerprint, extracted_bytes: extracted })
}

fn append_error_issues(issues: &mut Vec<PackIssue>, error: PackError)
    ensures
        error.view() matches PackErrorView::Invalid(v) ==> issue_views(final(issues)@) == capped_extend(
            issue_views(old(issues)@),
            v,
        ),
        !(error.view() is Invalid) ==> final(issues)@ == old(issues)@,
{
    match error {
        PackError::Invalid { issues: source } => append_issues(issues, source),
        _ => {},
    }
}

proof fn lemma_total_bytes_prefix(p: Seq<(Seq<u8>, Seq<u8>)>, i: int)
    requires
        0 < i <= p.len(),
    ensures
        total_bytes(p.subrange(0, i)) == total_bytes(p.subrange(0, i - 1)) + p[i - 1].1.len(),
{
    assert(p.subrange(0, i).drop_last() =~= p.subrange(0, i - 1));
}

proof fn lemma_total_bytes_prefix_le(p: Seq<(Seq<u8>, Seq<u8>)>, i: int)
    requires
        0 <= i <= p.len(),
    ensures
        total_bytes(p.subrange(0, i)) <= total_bytes(p),
    decreases p.len() - i,
{
    if i < p.len() {
        lemma_total_bytes_prefix_le(p, i + 1);
        lemma_total_bytes_prefix(p, i + 1);
    } else {
        assert(p.subrange(0, i) =~= p);
    }
}

proof fn lemma_other_issues_len(issues: Issues, files: PackFiles, declared: Seq<Seq<char>>, k: int)
    ensures
        other_issues(issues, files, declared, k).len() >= issues.len(),
    decreases k,
{
    if k > 0 {
        lemma_other_issues_len(issues, files, declared, k - 1);
    }
}

proof fn lemma_capped_extend_len(a: Issues, b: Issues)
    ensures
        capped_extend(a, b).len() >= a.len(),
        b.len() > 0 ==> capped_extend(a, b).len() > 0,
        b.len() == 0 ==> capped_extend(a, b) == a,
    decreases b.len(),
{
    if b.len() > 0 {
        lemma_capped_extend_len(a, b.drop_last());
    }
}

} // verus!

verus! {

fn other_file_problem_at(path: &str, bytes: &[u8], declared: &[String]) -> (r: Option<&'static str>)
    ensures
        match r {
            Some(m) => other_file_problem(path.spec_bytes(), bytes@, texts(declared@)) == Some(m@),
            None => other_file_problem(path.spec_bytes(), bytes@, texts(declared@)) is None,
        },
{
    broadcast use vstd::utf8::encode_utf8_decode_utf8;

    let b = path.as_bytes();
    let n = b.len();
    let ghost pb = path.spec_bytes();
    let j = path::find_byte(b, 0, n, 47);
    proof {
        assert(b@.subrange(0, n as int) =~= b@);
    }
    if j == n {
        return Some("file is not declared by the schema");
    }
    let ghost filename = pb.subrange(j + 1, n as int);
    let mut k = n;
    while k > j + 1 && b[k - 1] != 46
        invariant
            j + 1 <= k <= n == b@.len(),
            forall|q: int| k <= q < n ==> b@[q] != 46,
        decreases k,
    {
        k = k - 1;
    }
    let has_dot = k > j + 1;
    let (stem_end, ext_start) = if has_dot {
        (k - 1, k)
    } else {
        (n, n)
    };
    proof {
        let m = if k == j + 1 { -1 } else { k - 1 - (j + 1) };
        assert forall|q: int| m < q < filename.len() implies filename[q] != 46 by {
            assert(filename[q] == b@[j + 1 + q]);
        }
        path::lemma_last_index_of(filename, 46, m);
        if has_dot {
            assert(filename.subrange(0, m) =~= b@.subrange(j + 1, stem_end as int));
            assert(filename.subrange(m + 1, filename.len() as int) =~= b@.subrange(ext_start as int, n as int));
        } else {
            assert(filename =~= b@.subrange(j + 1, stem_end as int));
            assert(b@.subrange(ext_start as int, n as int) =~= Seq::<u8>::empty());
        }
    }
    let puzzles_dir = path::range_equals(b, 0, j, "puzzles".as_bytes());
    let notes_dir = path::range_equals(b, 0, j, "notes".as_bytes());
    let toml = path::range_equals(b, ext_start, n, "toml".as_bytes());
    let txt = path::range_equals(b, ext_start, n, "txt".as_bytes());
    let mut declared_stem = false;
    let mut d: usize = 0;
    while d < declared.len() && !declared_stem
        invariant
            d <= declared@.len(),
            j + 1 <= stem_end <= n == b@.len(),
            !declared_stem ==> forall|q: int| 0 <= q < d ==> encode_utf8(#[trigger] texts(declared@)[q])
                != b@.subrange(j + 1, stem_end as int),
            declared_stem ==> exists|q: int| 0 <= q < declared@.len() && encode_utf8(#[trigger] texts(declared@)[q])
                == b@.subrange(j + 1, stem_end as int),
        decreases declared@.len() - d + if declared_stem { 0int } else { 1int },
    {
        let same = path::range_equals(b, j + 1, stem_end, declared[d].as_str().as_bytes());
        proof {
            assert(texts(declared@)[d as int] == declared@[d as int]@);
        }
        if same {
            declared_stem = true;
        } else {
            d = d + 1;
        }
    }
    let allowed = ((puzzles_dir && toml) || (notes_dir && txt)) && declared_stem;
    if !allowed {
        return Some("file is not declared by the schema");
    }
    if notes_dir {
        match format::utf8_text(bytes) {
            None => {
                return Some("note is not valid UTF-8");
            },
            Some(note) => {
                proof {
                    assert(vstd::utf8::decode_utf8(encode_utf8(note@)) == note@);
                }
                if contains_control(note) {
                    return Some("note contains a control character");
                }
            },
        }
    }
    None
}

} // verus!
