//! Pack metadata and puzzle documents, and the rules they must meet.

use vstd::prelude::*;
use vstd::string::{StrSliceExecFns, StringExecFns, StringSliceAdditionalSpecFns};
use vstd::utf8::{encode_utf8, is_ascii_chars, valid_utf8};

use crate::domain::paper::{
    coordinate_le, coordinate_of, lemma_coordinate_of, BrushRule, CellId, Coordinate, Dimensions, Fold, FoldCount,
    FoldDirection, LineStroke, PaperAction, StrokeCount, MAX_ACTIONS,
};
use crate::domain::replay::{compatibility_error, lemma_run_same_rules, run, Replay, ReplayMetadata};
use crate::domain::puzzle::{
    built_view, copy_vec, id_error, puzzle_error, validate_id, IdentityPart, Puzzle, PuzzleIdentity, PuzzleSpec,
    PuzzleSpecView, PuzzleView,
};
use crate::domain::score::Par;

use super::{
    capped_push, contains_control, issue_views, record_issue, sanitized, has_control, PackError, PackErrorView,
    PackIssue, MAX_VALIDATION_ISSUES,
};

verus! {

pub const MAX_TITLE_SCALARS: usize = 80;
pub const MAX_DESCRIPTION_SCALARS: usize = 512;
pub const MAX_AUTHORS: usize = 16;
pub const MAX_AUTHOR_SCALARS: usize = 80;
pub const MAX_TUTORIAL_CUES: usize = 16;
pub const MAX_TUTORIAL_SCALARS: usize = 512;
pub const MAX_LICENSE_BYTES: usize = 128;

pub type Issues = Seq<(Seq<char>, Seq<char>)>;

/// One issue at a location, as a pack issue holds it.
pub open spec fn issue(location: Seq<char>, problem: Seq<char>) -> (Seq<char>, Seq<char>) {
    (sanitized(location), sanitized(problem))
}

// ---------------------------------------------------------------------------
// Text checks
// ---------------------------------------------------------------------------

/// `str::from_utf8`: the bytes as text when they are valid UTF-8.
#[verifier::external_body]
pub(crate) fn utf8_text(bytes: &[u8]) -> (r: Option<&str>)
    ensures
        r is Some <==> valid_utf8(bytes@),
        r matches Some(text) ==> text.spec_bytes() == bytes@,
{
    std::str::from_utf8(bytes).ok()
}

/// Whether the SPDX license-expression parser accepts the text.
pub uninterp spec fn spdx_accepts(text: Seq<char>) -> bool;

/// `spdx::Expression::parse` in its strict mode: the outcome depends on the text alone.
#[verifier::external_body]
fn spdx_expression_parses(text: &str) -> (r: bool)
    ensures
        r == spdx_accepts(text@),
{
    spdx::Expression::parse(text).is_ok()
}

/// Display text: nonempty, at most `max` scalars, and no control character.
pub open spec fn display_issues(issues: Issues, value: Seq<char>, max: nat, location: Seq<char>) -> Issues {
    if issues.len() == 32 {
        issues
    } else {
        let a = if value.len() == 0 || value.len() > max {
            capped_push(issues, issue(location, "display text length is outside the limit"@))
        } else {
            issues
        };
        if has_control(value) {
            capped_push(a, issue(location, "display text contains a control character"@))
        } else {
            a
        }
    }
}

fn validate_display(value: &str, max_scalars: usize, location: &str, issues: &mut Vec<PackIssue>)
    ensures
        issue_views(final(issues)@) == display_issues(
            issue_views(old(issues)@),
            value@,
            max_scalars as nat,
            location@,
        ),
{
    if issues.len() == MAX_VALIDATION_ISSUES {
        return;
    }
    let count = value.unicode_len();
    if count == 0 || count > max_scalars {
        record_issue(issues, location, "display text length is outside the limit");
    }
    if contains_control(value) {
        record_issue(issues, location, "display text contains a control character");
    }
}

/// A license: bounded ASCII text that the SPDX parser accepts.
pub open spec fn license_bad(value: Seq<char>) -> bool {
    value.len() == 0 || encode_utf8(value).len() > 128 || !is_ascii_chars(value) || !spdx_accepts(value)
}

pub open spec fn license_issues(issues: Issues, value: Seq<char>, location: Seq<char>) -> Issues {
    if license_bad(value) {
        capped_push(issues, issue(location, "license is not a valid bounded SPDX expression"@))
    } else {
        issues
    }
}

/// Whether a license is bounded ASCII text that the SPDX parser accepts.
pub fn license_accepted(value: &str) -> (r: bool)
    ensures
        r == !license_bad(value@),
{
    !(value.is_empty() || value.as_bytes().len() > MAX_LICENSE_BYTES || !value.is_ascii() || !spdx_expression_parses(
        value,
    ))
}

fn validate_license(value: &str, location: &str, issues: &mut Vec<PackIssue>)
    ensures
        issue_views(final(issues)@) == license_issues(issue_views(old(issues)@), value@, location@),
{
    if !license_accepted(value) {
        record_issue(issues, location, "license is not a valid bounded SPDX expression");
    }
}

/// Checks the size and encoding of a document before it is parsed.
pub fn document_text<'a>(
    bytes: &'a [u8],
    limit: u64,
    location: &str,
    size_problem: &str,
    encoding_problem: &str,
) -> (r: Result<&'a str, PackError>)
    ensures
        bytes@.len() > limit ==> (r matches Err(e) && e.view() == super::one_issue(location@, size_problem@)),
        bytes@.len() <= limit && !valid_utf8(bytes@) ==> (r matches Err(e) && e.view() == super::one_issue(
            location@,
            encoding_problem@,
        )),
        bytes@.len() <= limit && valid_utf8(bytes@) ==> (r matches Ok(text) && text.spec_bytes() == bytes@),
{
    if bytes.len() as u64 > limit {
        return Err(PackError::one(location, size_problem));
    }
    match utf8_text(bytes) {
        Some(text) => Ok(text),
        None => Err(PackError::one(location, encoding_problem)),
    }
}

// ---------------------------------------------------------------------------
// Pack metadata
// ---------------------------------------------------------------------------

/// The fields of `pack.toml`.
pub struct PackDocument {
    pub format_version: u16,
    pub id: String,
    pub title: String,
    pub description: Option<String>,
    pub authors: Vec<String>,
    pub license: String,
    pub puzzles: Vec<String>,
}

pub open spec fn texts(v: Seq<String>) -> Seq<Seq<char>> {
    v.map_values(|s: String| s@)
}

pub open spec fn text_option(v: Option<String>) -> Option<Seq<char>> {
    match v {
        Some(s) => Some(s@),
        None => None,
    }
}

pub open spec fn author_issues(issues: Issues, authors: Seq<Seq<char>>, k: int) -> Issues
    decreases k,
{
    if k <= 0 {
        issues
    } else {
        display_issues(author_issues(issues, authors, k - 1), authors[k - 1], 80, "pack.authors"@)
    }
}

/// The ASCII lowercase form of UTF-8 bytes; other bytes are unchanged.
pub open spec fn lower_bytes(b: Seq<u8>) -> Seq<u8> {
    b.map_values(|x: u8| if 65 <= x <= 90 { (x + 32) as u8 } else { x })
}

/// Whether the puzzle ID at `k` repeats an earlier one, ignoring ASCII case.
pub open spec fn repeats_earlier(ids: Seq<Seq<char>>, k: int) -> bool {
    exists|j: int| 0 <= j < k && lower_bytes(encode_utf8(#[trigger] ids[j])) == lower_bytes(encode_utf8(ids[k]))
}

pub open spec fn puzzle_id_issues(issues: Issues, pack: Seq<char>, ids: Seq<Seq<char>>, k: int) -> Issues
    decreases k,
{
    if k <= 0 {
        issues
    } else {
        let earlier = puzzle_id_issues(issues, pack, ids, k - 1);
        let a = if id_error(encode_utf8(pack)) is Some || id_error(encode_utf8(ids[k - 1])) is Some {
            capped_push(earlier, issue("pack.puzzles"@, "puzzle ID is invalid"@))
        } else {
            earlier
        };
        if repeats_earlier(ids, k - 1) {
            capped_push(a, issue("pack.puzzles"@, "puzzle ID is duplicated"@))
        } else {
            a
        }
    }
}

pub open spec fn min(a: int, b: int) -> int {
    if a < b {
        a
    } else {
        b
    }
}

/// The issues of a metadata document's version, identity, title, description, and author count.
pub open spec fn metadata_head_issues(doc: PackDocument) -> Issues {
    let i1 = if doc.format_version != 1 {
        capped_push(Seq::empty(), issue("pack.toml"@, "pack format version is unsupported"@))
    } else {
        Seq::empty()
    };
    let i2 = if id_error(encode_utf8(doc.id@)) is Some {
        capped_push(i1, issue("pack.id"@, "pack ID is invalid"@))
    } else {
        i1
    };
    let i3 = display_issues(i2, doc.title@, 80, "pack.title"@);
    let i4 = match doc.description {
        Some(d) => display_issues(i3, d@, 512, "pack.description"@),
        None => i3,
    };
    if doc.authors@.len() > 16 {
        capped_push(i4, issue("pack.authors"@, "author count exceeds the limit"@))
    } else {
        i4
    }
}

/// Then the issues of the authors, the license, and the puzzle count.
pub open spec fn metadata_middle_issues(doc: PackDocument) -> Issues {
    let i6 = author_issues(metadata_head_issues(doc), texts(doc.authors@), min(doc.authors@.len() as int, 32));
    let i7 = license_issues(i6, doc.license@, "pack.license"@);
    if doc.puzzles@.len() == 0 || doc.puzzles@.len() > 128 {
        capped_push(i7, issue("pack.puzzles"@, "puzzle count is outside the limit"@))
    } else {
        i7
    }
}

/// Every issue of a metadata document, in the order they are found.
pub open spec fn metadata_issues(doc: PackDocument) -> Issues {
    puzzle_id_issues(metadata_middle_issues(doc), doc.id@, texts(doc.puzzles@), min(doc.puzzles@.len() as int, 128))
}

/// Validated pack metadata.
pub struct PackMetadata {
    format_version: u16,
    id: String,
    title: String,
    description: Option<String>,
    authors: Vec<String>,
    license: String,
    puzzle_ids: Vec<String>,
}

pub struct PackMetadataView {
    pub format_version: u16,
    pub id: Seq<char>,
    pub title: Seq<char>,
    pub description: Option<Seq<char>>,
    pub authors: Seq<Seq<char>>,
    pub license: Seq<char>,
    pub puzzle_ids: Seq<Seq<char>>,
}

pub open spec fn document_metadata(doc: PackDocument) -> PackMetadataView {
    PackMetadataView {
        format_version: doc.format_version,
        id: doc.id@,
        title: doc.title@,
        description: text_option(doc.description),
        authors: texts(doc.authors@),
        license: doc.license@,
        puzzle_ids: texts(doc.puzzles@),
    }
}

impl PackMetadata {
    pub closed spec fn view(&self) -> PackMetadataView {
        PackMetadataView {
            format_version: self.format_version,
            id: self.id@,
            title: self.title@,
            description: text_option(self.description),
            authors: texts(self.authors@),
            license: self.license@,
            puzzle_ids: texts(self.puzzle_ids@),
        }
    }

    pub fn format_version(&self) -> (r: u16)
        ensures
            r == self.view().format_version,
    {
        self.format_version
    }

    pub fn id(&self) -> (r: &str)
        ensures
            r@ == self.view().id,
    {
        self.id.as_str()
    }

    pub fn title(&self) -> (r: &str)
        ensures
            r@ == self.view().title,
    {
        self.title.as_str()
    }

    pub fn description(&self) -> (r: Option<&str>)
        ensures
            match r {
                Some(d) => self.view().description == Some(d@),
                None => self.view().description is None,
            },
    {
        match &self.description {
            Some(d) => Some(d.as_str()),
            None => None,
        }
    }

    pub fn authors(&self) -> (r: &[String])
        ensures
            texts(r@) == self.view().authors,
    {
        self.authors.as_slice()
    }

    pub fn license(&self) -> (r: &str)
        ensures
            r@ == self.view().license,
    {
        self.license.as_str()
    }

    pub fn puzzle_ids(&self) -> (r: &[String])
        ensures
            texts(r@) == self.view().puzzle_ids,
    {
        self.puzzle_ids.as_slice()
    }
}

fn ascii_lower(x: u8) -> (r: u8)
    ensures
        r == (if 65 <= x <= 90 { (x + 32) as u8 } else { x }),
{
    if 65 <= x && x <= 90 {
        x + 32
    } else {
        x
    }
}

/// Whether two texts are equal once ASCII letters are lowercased.
fn same_ignoring_ascii_case(a: &str, b: &str) -> (r: bool)
    ensures
        r == (lower_bytes(a.spec_bytes()) == lower_bytes(b.spec_bytes())),
{
    let x = a.as_bytes();
    let y = b.as_bytes();
    let ghost xa = a.spec_bytes();
    let ghost yb = b.spec_bytes();
    if x.len() != y.len() {
        proof {
            assert(lower_bytes(x@).len() != lower_bytes(y@).len());
        }
        return false;
    }
    let mut i: usize = 0;
    while i < x.len()
        invariant
            x@.len() == y@.len(),
            x@ == xa,
            y@ == yb,
            xa == a.spec_bytes(),
            yb == b.spec_bytes(),
            i <= x@.len(),
            forall|k: int| 0 <= k < i ==> #[trigger] lower_bytes(x@)[k] == lower_bytes(y@)[k],
        decreases x@.len() - i,
    {
        if ascii_lower(x[i]) != ascii_lower(y[i]) {
            proof {
                assert(lower_bytes(xa)[i as int] != lower_bytes(yb)[i as int]);
                assert(lower_bytes(xa) != lower_bytes(yb));
            }
            return false;
        }
        i = i + 1;
    }
    assert(lower_bytes(x@) =~= lower_bytes(y@));
    true
}

/// Applies the metadata rules to a parsed `pack.toml`.
pub fn metadata_from_document(doc: PackDocument) -> (r: Result<PackMetadata, PackError>)
    ensures
        metadata_issues(doc).len() == 0 ==> (r matches Ok(m) && m.view() == document_metadata(doc)),
        metadata_issues(doc).len() > 0 ==> (r matches Err(e) && e.view() == PackErrorView::Invalid(
            metadata_issues(doc),
        )),
{
    let ghost d = doc;
    let mut issues: Vec<PackIssue> = Vec::new();
    if doc.format_version != 1 {
        record_issue(&mut issues, "pack.toml", "pack format version is unsupported");
    }
    if validate_id(doc.id.as_str(), IdentityPart::Pack).is_err() {
        record_issue(&mut issues, "pack.id", "pack ID is invalid");
    }
    validate_display(doc.title.as_str(), MAX_TITLE_SCALARS, "pack.title", &mut issues);
    match &doc.description {
        Some(description) => validate_display(
            description.as_str(),
            MAX_DESCRIPTION_SCALARS,
            "pack.description",
            &mut issues,
        ),
        None => {},
    }
    if doc.authors.len() > MAX_AUTHORS {
        record_issue(&mut issues, "pack.authors", "author count exceeds the limit");
    }
    let ghost before_authors = issue_views(issues@);
    assert(before_authors == metadata_head_issues(d));
    let author_limit = if doc.authors.len() < MAX_VALIDATION_ISSUES {
        doc.authors.len()
    } else {
        MAX_VALIDATION_ISSUES
    };
    let mut k: usize = 0;
    while k < author_limit
        invariant
            author_limit <= doc.authors@.len(),
            k <= author_limit,
            issue_views(issues@) == author_issues(before_authors, texts(doc.authors@), k as int),
            author_limit == min(doc.authors@.len() as int, 32),
        decreases author_limit - k,
    {
        validate_display(doc.authors[k].as_str(), MAX_AUTHOR_SCALARS, "pack.authors", &mut issues);
        k = k + 1;
    }
    validate_license(doc.license.as_str(), "pack.license", &mut issues);
    if doc.puzzles.len() == 0 || doc.puzzles.len() > super::MAX_PUZZLES {
        record_issue(&mut issues, "pack.puzzles", "puzzle count is outside the limit");
    }
    let ghost before_ids = issue_views(issues@);
    assert(before_ids == metadata_middle_issues(d));
    let ghost ids = texts(doc.puzzles@);
    let pack_valid = validate_id(doc.id.as_str(), IdentityPart::Pack).is_ok();
    let id_limit = if doc.puzzles.len() < super::MAX_PUZZLES {
        doc.puzzles.len()
    } else {
        super::MAX_PUZZLES
    };
    let mut k: usize = 0;
    while k < id_limit
        invariant
            id_limit <= doc.puzzles@.len(),
            ids == texts(doc.puzzles@),
            pack_valid == (id_error(encode_utf8(doc.id@)) is None),
            k <= id_limit,
            issue_views(issues@) == puzzle_id_issues(before_ids, doc.id@, ids, k as int),
            id_limit == min(doc.puzzles@.len() as int, 128),
        decreases id_limit - k,
    {
        let puzzle_id = doc.puzzles[k].as_str();
        if !pack_valid || validate_id(puzzle_id, IdentityPart::Puzzle).is_err() {
            record_issue(&mut issues, "pack.puzzles", "puzzle ID is invalid");
        }
        let mut j: usize = 0;
        let mut repeated = false;
        while j < k && !repeated
            invariant
                k < doc.puzzles@.len(),
                ids == texts(doc.puzzles@),
                puzzle_id@ == doc.puzzles@[k as int]@,
                j <= k,
                !repeated ==> forall|q: int| 0 <= q < j ==> lower_bytes(encode_utf8(#[trigger] ids[q]))
                    != lower_bytes(encode_utf8(ids[k as int])),
                repeated ==> repeats_earlier(ids, k as int),
            decreases k - j + if repeated { 0int } else { 1int },
        {
            let same = same_ignoring_ascii_case(doc.puzzles[j].as_str(), puzzle_id);
            proof {
                assert(ids[j as int] == doc.puzzles@[j as int]@);
                assert(ids[k as int] == doc.puzzles@[k as int]@);
            }
            if same {
                repeated = true;
            } else {
                j = j + 1;
            }
        }
        if repeated {
            record_issue(&mut issues, "pack.puzzles", "puzzle ID is duplicated");
        }
        k = k + 1;
    }
    if issues.len() > 0 {
        return Err(PackError::Invalid { issues });
    }
    let metadata = PackMetadata {
        format_version: doc.format_version,
        id: doc.id,
        title: doc.title,
        description: doc.description,
        authors: doc.authors,
        license: doc.license,
        puzzle_ids: doc.puzzles,
    };
    Ok(metadata)
}

} // verus!

verus! {

// ---------------------------------------------------------------------------
// Puzzle documents
// ---------------------------------------------------------------------------

pub struct FoldDocument {
    pub direction: FoldDirection,
    pub crease: u8,
}

pub struct ParDocument {
    pub folds: u8,
    pub strokes: u8,
}

pub enum ActionDocument {
    Fold { direction: FoldDirection, crease: u8 },
    Dot { row: u8, column: u8 },
    Line { start_row: u8, start_column: u8, end_row: u8, end_column: u8 },
}

/// The fields of one `puzzles/<id>.toml`.
pub struct PuzzleDocument {
    pub format_version: u16,
    pub id: String,
    pub title: String,
    pub description: Option<String>,
    pub width: u8,
    pub height: u8,
    pub target: Vec<String>,
    pub folds: Vec<FoldDocument>,
    pub brushes: Vec<BrushRule>,
    pub fold_budget: u8,
    pub stroke_budget: u8,
    pub par: Option<ParDocument>,
    pub tutorial_cues: Vec<String>,
    pub author: Option<String>,
    pub license: Option<String>,
    pub solution: Option<Vec<ActionDocument>>,
}

pub open spec fn cue_issues(issues: Issues, cues: Seq<Seq<char>>, k: int) -> Issues
    decreases k,
{
    if k <= 0 {
        issues
    } else {
        display_issues(cue_issues(issues, cues, k - 1), cues[k - 1], 512, "puzzle.tutorial_cues"@)
    }
}

/// The issues of a puzzle's path identity and display text.
pub open spec fn puzzle_display_issues(expected: Seq<char>, doc: PuzzleDocument) -> Issues {
    let i1 = if doc.id@ != expected {
        capped_push(Seq::empty(), issue("puzzle.id"@, "puzzle ID does not match its declared path"@))
    } else {
        Seq::empty()
    };
    let i2 = display_issues(i1, doc.title@, 80, "puzzle.title"@);
    let i3 = match doc.description {
        Some(d) => display_issues(i2, d@, 512, "puzzle.description"@),
        None => i2,
    };
    let i4 = if doc.tutorial_cues@.len() > 16 {
        capped_push(i3, issue("puzzle.tutorial_cues"@, "tutorial cue count exceeds the limit"@))
    } else {
        i3
    };
    let i5 = cue_issues(i4, texts(doc.tutorial_cues@), min(doc.tutorial_cues@.len() as int, 32));
    let i6 = match doc.author {
        Some(a) => display_issues(i5, a@, 80, "puzzle.author"@),
        None => i5,
    };
    match doc.license {
        Some(l) => license_issues(i6, l@, "puzzle.license"@),
        None => i6,
    }
}

fn collect_puzzle_display_issues(expected_id: &str, doc: &PuzzleDocument, issues: &mut Vec<PackIssue>)
    requires
        old(issues)@.len() == 0,
    ensures
        issue_views(final(issues)@) == puzzle_display_issues(expected_id@, *doc),
{
    assert(issue_views(issues@) =~= Seq::<(Seq<char>, Seq<char>)>::empty());
    if !same_text(doc.id.as_str(), expected_id) {
        record_issue(issues, "puzzle.id", "puzzle ID does not match its declared path");
    }
    validate_display(doc.title.as_str(), MAX_TITLE_SCALARS, "puzzle.title", issues);
    match &doc.description {
        Some(description) => validate_display(
            description.as_str(),
            MAX_DESCRIPTION_SCALARS,
            "puzzle.description",
            issues,
        ),
        None => {},
    }
    if doc.tutorial_cues.len() > MAX_TUTORIAL_CUES {
        record_issue(issues, "puzzle.tutorial_cues", "tutorial cue count exceeds the limit");
    }
    let ghost before = issue_views(issues@);
    let limit = if doc.tutorial_cues.len() < MAX_VALIDATION_ISSUES {
        doc.tutorial_cues.len()
    } else {
        MAX_VALIDATION_ISSUES
    };
    let mut k: usize = 0;
    while k < limit
        invariant
            limit <= doc.tutorial_cues@.len(),
            limit == min(doc.tutorial_cues@.len() as int, 32),
            k <= limit,
            issue_views(issues@) == cue_issues(before, texts(doc.tutorial_cues@), k as int),
        decreases limit - k,
    {
        validate_display(doc.tutorial_cues[k].as_str(), MAX_TUTORIAL_SCALARS, "puzzle.tutorial_cues", issues);
        k = k + 1;
    }
    match &doc.author {
        Some(author) => validate_display(author.as_str(), MAX_AUTHOR_SCALARS, "puzzle.author", issues),
        None => {},
    }
    match &doc.license {
        Some(license) => validate_license(license.as_str(), "puzzle.license", issues),
        None => {},
    }
}

/// Whether two texts are equal.
pub fn same_text(a: &str, b: &str) -> (r: bool)
    ensures
        r == (a@ == b@),
{
    broadcast use vstd::utf8::encode_utf8_decode_utf8;

    let r = match super::files::compare_bytes(a.as_bytes(), b.as_bytes()) {
        super::files::ByteOrder::Equal => true,
        _ => false,
    };
    proof {
        if a@ == b@ {
            assert(a.spec_bytes() == b.spec_bytes());
        }
        if r {
            assert(vstd::utf8::decode_utf8(encode_utf8(a@)) == vstd::utf8::decode_utf8(encode_utf8(b@)));
        }
    }
    r
}

// ---------------------------------------------------------------------------
// Targets
// ---------------------------------------------------------------------------

pub open spec fn row_bad(row: Seq<char>, width: u8) -> bool {
    let b = encode_utf8(row);
    b.len() != width || exists|i: int| 0 <= i < b.len() && !(#[trigger] b[i] == 46u8 || b[i] == 35u8)
}

/// What is wrong with a target grid, if anything.
pub open spec fn target_problem(width: u8, height: u8, rows: Seq<Seq<char>>) -> Option<Seq<char>> {
    if rows.len() != height {
        Some("target grid height does not match the paper"@)
    } else if exists|r: int| 0 <= r < rows.len() && row_bad(#[trigger] rows[r], width) {
        Some("target grid must use one ASCII dot or hash per cell"@)
    } else {
        None
    }
}

/// The identities of the `#` cells of one row, left to right.
pub open spec fn row_ids(width: int, row: int, b: Seq<u8>, c: int) -> Seq<CellId>
    decreases c,
{
    if c <= 0 {
        Seq::empty()
    } else {
        row_ids(width, row, b, c - 1) + if b[c - 1] == 35 {
            seq![CellId::spec_of((row * width + c - 1) as u8)]
        } else {
            Seq::empty()
        }
    }
}

/// The identities of the `#` cells of the first `k` rows, in row-major order.
pub open spec fn grid_ids(width: int, rows: Seq<Seq<char>>, k: int) -> Seq<CellId>
    decreases k,
{
    if k <= 0 {
        Seq::empty()
    } else {
        grid_ids(width, rows, k - 1) + row_ids(width, k - 1, encode_utf8(rows[k - 1]), width)
    }
}

/// Whether some identity in `ids` has value `x`.
pub open spec fn holds_id(ids: Seq<CellId>, x: int) -> bool {
    exists|i: int| 0 <= i < ids.len() && #[trigger] ids[i].value() == x
}

proof fn lemma_holds_push(a: Seq<CellId>, b: Seq<CellId>, x: int)
    ensures
        holds_id(a + b, x) <==> holds_id(a, x) || holds_id(b, x),
{
    if holds_id(a + b, x) {
        let i = choose|i: int| 0 <= i < (a + b).len() && #[trigger] (a + b)[i].value() == x;
        if i < a.len() {
            assert(a[i] == (a + b)[i]);
        } else {
            assert(b[i - a.len()] == (a + b)[i]);
        }
    }
    if holds_id(a, x) {
        let i = choose|i: int| 0 <= i < a.len() && #[trigger] a[i].value() == x;
        assert((a + b)[i] == a[i]);
    }
    if holds_id(b, x) {
        let i = choose|i: int| 0 <= i < b.len() && #[trigger] b[i].value() == x;
        assert((a + b)[a.len() + i] == b[i]);
    }
}

/// The `#` cells of the first `n` characters of row `q`.
proof fn lemma_row_ids(width: int, q: int, b: Seq<u8>, n: int, x: int)
    requires
        1 <= width <= 12,
        0 <= q < 12,
        0 <= n <= width,
        n <= b.len(),
    ensures
        holds_id(row_ids(width, q, b, n), x) <==> (q * width <= x < q * width + n && b[x - q * width] == 35),
    decreases n,
{
    if n > 0 {
        lemma_row_ids(width, q, b, n - 1, x);
        let v = q * width + n - 1;
        assert(0 <= v < 144) by (nonlinear_arith)
            requires
                0 <= q < 12,
                1 <= n <= width <= 12,
                v == q * width + n - 1,
        ;
        CellId::lemma_spec_of(v as u8);
        let last = if b[n - 1] == 35 {
            seq![CellId::spec_of(v as u8)]
        } else {
            Seq::<CellId>::empty()
        };
        lemma_holds_push(row_ids(width, q, b, n - 1), last, x);
        if b[n - 1] == 35 {
            assert(holds_id(last, x) <==> x == v) by {
                if x == v {
                    assert(last[0].value() == x);
                }
            }
        } else {
            assert(!holds_id(last, x));
        }
    } else {
        assert(!holds_id(Seq::<CellId>::empty(), x));
    }
}

/// The `#` cells of the first `k` rows.
proof fn lemma_grid_ids(width: int, rows: Seq<Seq<char>>, k: int, x: int)
    requires
        1 <= width <= 12,
        0 <= k <= rows.len() <= 12,
        forall|q: int| 0 <= q < rows.len() ==> encode_utf8(#[trigger] rows[q]).len() == width,
    ensures
        holds_id(grid_ids(width, rows, k), x) <==> (0 <= x < k * width && encode_utf8(rows[x / width])[x % width]
            == 35),
    decreases k,
{
    if k > 0 {
        lemma_grid_ids(width, rows, k - 1, x);
        let q = k - 1;
        let b = encode_utf8(rows[q]);
        lemma_row_ids(width, q, b, width, x);
        lemma_holds_push(grid_ids(width, rows, k - 1), row_ids(width, q, b, width), x);
        if q * width <= x < q * width + width {
            assert(x / width == q && x % width == x - q * width) by (nonlinear_arith)
                requires
                    q * width <= x < q * width + width,
                    width >= 1,
            ;
        }
        assert(k * width == q * width + width) by (nonlinear_arith)
            requires
                q == k - 1,
        ;
    } else {
        assert(!holds_id(Seq::<CellId>::empty(), x));
    }
}

/// The target read from a valid grid holds cell `row * width + column`
/// exactly when character `column` of row `row` is `#`, and holds no cell
/// outside the grid.
pub proof fn lemma_grid_target(width: u8, height: u8, rows: Seq<Seq<char>>, x: int)
    requires
        4 <= width <= 12,
        4 <= height <= 12,
        target_problem(width, height, rows) is None,
    ensures
        holds_id(grid_ids(width as int, rows, rows.len() as int), x) <==> (0 <= x < height * width && encode_utf8(
            rows[x / width as int],
        )[x % width as int] == 35u8),
        forall|r: int, c: int|
            0 <= r < height && 0 <= c < width ==> (holds_id(
                grid_ids(width as int, rows, rows.len() as int),
                #[trigger] (r * width + c),
            ) <==> encode_utf8(rows[r])[c] == 35u8),
{
    assert forall|q: int| 0 <= q < rows.len() implies encode_utf8(#[trigger] rows[q]).len() == width by {
        assert(!row_bad(rows[q], width));
    }
    lemma_grid_ids(width as int, rows, rows.len() as int, x);
    assert forall|r: int, c: int| 0 <= r < height && 0 <= c < width implies (holds_id(
        grid_ids(width as int, rows, rows.len() as int),
        #[trigger] (r * width + c),
    ) <==> encode_utf8(rows[r])[c] == 35u8) by {
        let y = r * width + c;
        lemma_grid_ids(width as int, rows, rows.len() as int, y);
        assert(y / (width as int) == r && y % (width as int) == c && 0 <= y < height * width) by (nonlinear_arith)
            requires
                y == r * width + c,
                0 <= r < height,
                0 <= c < width,
                width >= 1,
        ;
    }
}

fn target_cells(dimensions: Dimensions, rows: &Vec<String>) -> (r: Result<Vec<CellId>, PackError>)
    requires
        dimensions.wf(),
    ensures
        target_problem(dimensions.w() as u8, dimensions.h() as u8, texts(rows@)) matches Some(m) ==> (r matches Err(
            e,
        ) && e.view() == super::one_issue("puzzle.target"@, m)),
        target_problem(dimensions.w() as u8, dimensions.h() as u8, texts(rows@)) is None ==> (r matches Ok(ids)
            && ids@ == grid_ids(dimensions.w(), texts(rows@), rows@.len() as int)),
{
    let ghost rs = texts(rows@);
    let width = dimensions.width().get();
    let height = dimensions.height().get();
    proof {
        dimensions.lemma_wf();
    }
    if rows.len() != height as usize {
        return Err(PackError::one("puzzle.target", "target grid height does not match the paper"));
    }
    let mut r: usize = 0;
    while r < rows.len()
        invariant
            rs == texts(rows@),
            rows@.len() == height,
            width as int == dimensions.w(),
            height as int == dimensions.h(),
            4 <= width <= 12,
            r <= rows@.len(),
            forall|q: int| 0 <= q < r ==> !row_bad(#[trigger] rs[q], width),
        decreases rows@.len() - r,
    {
        let b = rows[r].as_str().as_bytes();
        proof {
            assert(rs[r as int] == rows@[r as int]@);
            assert(b@ == encode_utf8(rs[r as int]));
        }
        if b.len() != width as usize {
            proof {
                assert(row_bad(rs[r as int], width));
            }
            return Err(PackError::one("puzzle.target", "target grid must use one ASCII dot or hash per cell"));
        }
        let mut c: usize = 0;
        while c < b.len()
            invariant
                c <= b@.len(),
                forall|i: int| 0 <= i < c ==> (#[trigger] b@[i] == 46u8 || b@[i] == 35u8),
                rs == texts(rows@),
                rows@.len() == height,
                width as int == dimensions.w(),
                height as int == dimensions.h(),
                r < rows@.len(),
                b@ == encode_utf8(rs[r as int]),
            decreases b@.len() - c,
        {
            if b[c] != 46 && b[c] != 35 {
                proof {
                    assert(!(b@[c as int] == 46u8 || b@[c as int] == 35u8));
                    assert(row_bad(rs[r as int], width));
                }
                return Err(PackError::one("puzzle.target", "target grid must use one ASCII dot or hash per cell"));
            }
            c = c + 1;
        }
        r = r + 1;
    }
    let mut target: Vec<CellId> = Vec::new();
    let mut r: usize = 0;
    while r < rows.len()
        invariant
            rs == texts(rows@),
            rows@.len() == height,
            width as int == dimensions.w(),
            height as int == dimensions.h(),
            dimensions.wf(),
            4 <= width <= 12,
            4 <= height <= 12,
            r <= rows@.len(),
            forall|q: int| 0 <= q < rows@.len() ==> !row_bad(#[trigger] rs[q], width),
            target@ == grid_ids(width as int, rs, r as int),
        decreases rows@.len() - r,
    {
        let b = rows[r].as_str().as_bytes();
        proof {
            assert(rs[r as int] == rows@[r as int]@);
            assert(!row_bad(rs[r as int], width));
        }
        let ghost start = target@;
        let mut c: usize = 0;
        while c < b.len()
            invariant
                b@.len() == width,
                width as int == dimensions.w(),
                height as int == dimensions.h(),
                dimensions.wf(),
                4 <= width <= 12,
                r < height,
                c <= b@.len(),
                target@ == start + row_ids(width as int, r as int, b@, c as int),
            decreases b@.len() - c,
        {
            if b[c] == 35 {
                let coordinate = match dimensions.coordinate(r as u8, c as u8) {
                    Ok(coordinate) => coordinate,
                    Err(_) => {
                        return Err(PackError::one("puzzle.target", "target cell is outside the paper"));
                    },
                };
                let id = match dimensions.cell_id(coordinate) {
                    Ok(id) => id,
                    Err(_) => {
                        return Err(PackError::one("puzzle.target", "target cell is invalid"));
                    },
                };
                proof {
                    assert(r * width + c < 144) by (nonlinear_arith)
                        requires
                            r < 12,
                            c < 12,
                            width <= 12,
                    ;
                    CellId::lemma_spec_of((r * width + c) as u8);
                    CellId::lemma_eq(id, CellId::spec_of((r * width + c) as u8));
                }
                target.push(id);
            }
            proof {
                assert(target@ =~= start + row_ids(width as int, r as int, b@, c + 1));
            }
            c = c + 1;
        }
        proof {
            assert(b@ == encode_utf8(rs[r as int]));
        }
        r = r + 1;
    }
    Ok(target)
}

} // verus!

verus! {

// ---------------------------------------------------------------------------
// Puzzle rules
// ---------------------------------------------------------------------------

pub open spec fn doc_folds(doc: PuzzleDocument) -> Seq<Fold> {
    doc.folds@.map_values(|f: FoldDocument| Fold::spec_of(f.direction, f.crease))
}

pub open spec fn par_valid(p: ParDocument) -> bool {
    p.folds <= 12 && p.strokes <= 8
}

pub open spec fn par_of(p: ParDocument) -> Par {
    Par::spec_of(FoldCount::spec_of(p.folds), StrokeCount::spec_of(p.strokes))
}

pub open spec fn doc_par(doc: PuzzleDocument) -> Option<Par> {
    match doc.par {
        Some(p) => Some(par_of(p)),
        None => None,
    }
}

pub open spec fn identity_ok(pack: Seq<char>, doc: PuzzleDocument) -> bool {
    id_error(encode_utf8(pack)) is None && id_error(encode_utf8(doc.id@)) is None
}

pub open spec fn dims_ok(doc: PuzzleDocument) -> bool {
    4 <= doc.width <= 12 && 4 <= doc.height <= 12
}

pub open spec fn par_bad(doc: PuzzleDocument) -> bool {
    doc.par matches Some(p) && !par_valid(p)
}

pub open spec fn doc_target(doc: PuzzleDocument) -> Seq<CellId> {
    grid_ids(doc.width as int, texts(doc.target@), doc.target@.len() as int)
}

/// The puzzle specification a document describes.
pub open spec fn assembled_spec(
    pack: Seq<char>,
    puzzle: Seq<char>,
    target: Seq<CellId>,
    doc: PuzzleDocument,
    par: Option<Par>,
) -> PuzzleSpecView {
    PuzzleSpecView {
        format_version: doc.format_version,
        pack,
        puzzle,
        width: doc.width,
        height: doc.height,
        target_cells: target,
        allowed_folds: doc_folds(doc),
        allowed_brushes: doc.brushes@,
        fold_budget: doc.fold_budget,
        stroke_budget: doc.stroke_budget,
        par,
    }
}

pub open spec fn document_spec(pack: Seq<char>, doc: PuzzleDocument) -> PuzzleSpecView {
    assembled_spec(pack, doc.id@, doc_target(doc), doc, doc_par(doc))
}

/// The issues of a puzzle's identity, size, target, and par.
pub open spec fn parts_issues(issues: Issues, pack: Seq<char>, doc: PuzzleDocument) -> Issues {
    let a = if !identity_ok(pack, doc) {
        capped_push(issues, issue("puzzle.id"@, "puzzle identity is invalid"@))
    } else {
        issues
    };
    let b = if !dims_ok(doc) {
        capped_push(a, issue("puzzle.dimensions"@, "puzzle dimensions are invalid"@))
    } else {
        a
    };
    let c = if dims_ok(doc) && target_problem(doc.width, doc.height, texts(doc.target@)) is Some {
        capped_push(b, issue("puzzle.target"@, target_problem(doc.width, doc.height, texts(doc.target@))->Some_0))
    } else {
        b
    };
    if par_bad(doc) {
        capped_push(c, issue("puzzle.par"@, "par score is invalid"@))
    } else {
        c
    }
}

pub open spec fn buildable(pack: Seq<char>, doc: PuzzleDocument) -> bool {
    &&& !par_bad(doc)
    &&& identity_ok(pack, doc)
    &&& dims_ok(doc)
    &&& target_problem(doc.width, doc.height, texts(doc.target@)) is None
}

pub open spec fn rules_issues(issues: Issues, pack: Seq<char>, doc: PuzzleDocument) -> Issues {
    if buildable(pack, doc) && puzzle_error(document_spec(pack, doc)) is Some {
        capped_push(issues, issue("puzzle.rules"@, "puzzle gameplay rules are invalid"@))
    } else {
        issues
    }
}

pub open spec fn puzzle_built(pack: Seq<char>, doc: PuzzleDocument) -> bool {
    buildable(pack, doc) && puzzle_error(document_spec(pack, doc)) is None
}

#[derive(Clone, Copy)]
pub enum ValidatedPar {
    Absent,
    Present(Par),
    Invalid,
}

pub open spec fn validated_par(doc: PuzzleDocument) -> ValidatedPar {
    match doc.par {
        None => ValidatedPar::Absent,
        Some(p) => if par_valid(p) {
            ValidatedPar::Present(par_of(p))
        } else {
            ValidatedPar::Invalid
        },
    }
}

fn validate_puzzle_parts(pack_id: &str, doc: &PuzzleDocument, issues: &mut Vec<PackIssue>) -> (r: (
    Option<PuzzleIdentity>,
    Option<Vec<CellId>>,
    ValidatedPar,
))
    ensures
        issue_views(final(issues)@) == parts_issues(issue_views(old(issues)@), pack_id@, *doc),
        r.0 is Some <==> identity_ok(pack_id@, *doc),
        r.0 matches Some(i) ==> i.pack_view() == pack_id@ && i.puzzle_view() == doc.id@,
        r.1 is Some <==> dims_ok(*doc) && target_problem(doc.width, doc.height, texts(doc.target@)) is None,
        r.1 matches Some(t) ==> t@ == doc_target(*doc),
        r.2 == validated_par(*doc),
{
    let identity = match PuzzleIdentity::new(pack_id, doc.id.as_str()) {
        Ok(identity) => Some(identity),
        Err(_) => {
            record_issue(issues, "puzzle.id", "puzzle identity is invalid");
            None
        },
    };
    let dimensions = match Dimensions::new(doc.width, doc.height) {
        Ok(dimensions) => Some(dimensions),
        Err(_) => {
            record_issue(issues, "puzzle.dimensions", "puzzle dimensions are invalid");
            None
        },
    };
    let target = match dimensions {
        Some(dimensions) => match target_cells(dimensions, &doc.target) {
            Ok(target) => Some(target),
            Err(error) => {
                match error {
                    PackError::Invalid { issues: target_issues } => {
                        let ghost before = issue_views(issues@);
                        let ghost one = issue(
                            "puzzle.target"@,
                            target_problem(doc.width, doc.height, texts(doc.target@))->Some_0,
                        );
                        proof {
                            assert(issue_views(target_issues@) == seq![one]);
                            assert(seq![one].drop_last() =~= Seq::<(Seq<char>, Seq<char>)>::empty());
                            assert(seq![one].last() == one);
                            assert(super::capped_extend(before, Seq::<(Seq<char>, Seq<char>)>::empty()) == before);
                            assert(super::capped_extend(before, seq![one]) == capped_push(before, one));
                        }
                        super::append_issues(issues, target_issues);
                        assert(issue_views(issues@) == capped_push(before, one));
                    },
                    _ => {
                        record_issue(issues, "puzzle.target", "target grid is invalid");
                    },
                }
                None
            },
        },
        None => None,
    };
    let par = match &doc.par {
        None => ValidatedPar::Absent,
        Some(par) => {
            let folds = FoldCount::new(par.folds);
            let strokes = StrokeCount::new(par.strokes);
            proof {
                FoldCount::lemma_spec_of(par.folds);
                StrokeCount::lemma_spec_of(par.strokes);
            }
            match (folds, strokes) {
                (Ok(folds), Ok(strokes)) => ValidatedPar::Present(Par::new(folds, strokes)),
                _ => {
                    record_issue(issues, "puzzle.par", "par score is invalid");
                    ValidatedPar::Invalid
                },
            }
        },
    };
    (identity, target, par)
}

fn doc_fold_rules(doc: &PuzzleDocument) -> (r: Vec<Fold>)
    ensures
        r@ == doc_folds(*doc),
{
    let mut folds: Vec<Fold> = Vec::new();
    let mut k: usize = 0;
    while k < doc.folds.len()
        invariant
            k <= doc.folds@.len(),
            folds@ == doc_folds(*doc).subrange(0, k as int),
        decreases doc.folds@.len() - k,
    {
        folds.push(Fold::new(doc.folds[k].direction, doc.folds[k].crease));
        assert(folds@ =~= doc_folds(*doc).subrange(0, k + 1));
        k = k + 1;
    }
    assert(doc_folds(*doc).subrange(0, doc.folds@.len() as int) =~= doc_folds(*doc));
    folds
}

fn build_puzzle(
    doc: &PuzzleDocument,
    identity: Option<PuzzleIdentity>,
    target: Option<Vec<CellId>>,
    par: ValidatedPar,
    issues: &mut Vec<PackIssue>,
) -> (r: Option<Puzzle>)
    ensures
        (par is Invalid || identity is None || target is None) ==> r is None && final(issues)@ == old(issues)@,
        !(par is Invalid || identity is None || target is None) ==> {
            let v = assembled_spec(
                identity->Some_0.pack_view(),
                identity->Some_0.puzzle_view(),
                target->Some_0@,
                *doc,
                match par {
                    ValidatedPar::Present(p) => Some(p),
                    _ => None,
                },
            );
            &&& (r is Some <==> puzzle_error(v) is None)
            &&& (r matches Some(p) ==> p.wf() && built_view(p.view(), v))
            &&& issue_views(final(issues)@) == if puzzle_error(v) is Some {
                capped_push(issue_views(old(issues)@), issue("puzzle.rules"@, "puzzle gameplay rules are invalid"@))
            } else {
                issue_views(old(issues)@)
            }
        },
{
    match par {
        ValidatedPar::Invalid => {
            return None;
        },
        _ => {},
    }
    let identity = match identity {
        Some(identity) => identity,
        None => {
            return None;
        },
    };
    let target = match target {
        Some(target) => target,
        None => {
            return None;
        },
    };
    let folds = doc_fold_rules(doc);
    let brushes = copy_vec(&doc.brushes);
    let mut spec = PuzzleSpec::new(identity, doc.width, doc.height)
        .with_format_version(doc.format_version)
        .with_target_cells(target)
        .with_allowed_folds(folds)
        .with_allowed_brushes(brushes)
        .with_budgets(doc.fold_budget, doc.stroke_budget);
    match par {
        ValidatedPar::Present(par) => {
            spec = spec.with_par(par);
        },
        _ => {},
    }
    match Puzzle::new(spec) {
        Ok(puzzle) => Some(puzzle),
        Err(_) => {
            record_issue(issues, "puzzle.rules", "puzzle gameplay rules are invalid");
            None
        },
    }
}

} // verus!

verus! {

// ---------------------------------------------------------------------------
// Author solutions
// ---------------------------------------------------------------------------

/// A line between two positions, endpoints in row-major order.
pub open spec fn line_of(start: Coordinate, end: Coordinate) -> LineStroke {
    if coordinate_le(start, end) {
        LineStroke::spec_of(start, end)
    } else {
        LineStroke::spec_of(end, start)
    }
}

pub open spec fn inside(width: u8, height: u8, row: u8, column: u8) -> bool {
    row < height && column < width
}

/// The action a solution entry names, if its positions are on the paper.
pub open spec fn convert_action(width: u8, height: u8, a: ActionDocument) -> Option<PaperAction> {
    match a {
        ActionDocument::Fold { direction, crease } => Some(PaperAction::Fold(Fold::spec_of(direction, crease))),
        ActionDocument::Dot { row, column } => if inside(width, height, row, column) {
            Some(PaperAction::Dot(coordinate_of(row as int, column as int)))
        } else {
            None
        },
        ActionDocument::Line { start_row, start_column, end_row, end_column } => if inside(
            width,
            height,
            start_row,
            start_column,
        ) && inside(width, height, end_row, end_column) {
            Some(
                PaperAction::Line(
                    line_of(
                        coordinate_of(start_row as int, start_column as int),
                        coordinate_of(end_row as int, end_column as int),
                    ),
                ),
            )
        } else {
            None
        },
    }
}

/// The first `k` solution entries as actions, if every one is on the paper.
pub open spec fn convert_actions(width: u8, height: u8, s: Seq<ActionDocument>, k: int) -> Option<Seq<PaperAction>>
    decreases k,
{
    if k <= 0 {
        Some(Seq::empty())
    } else {
        match (convert_actions(width, height, s, k - 1), convert_action(width, height, s[k - 1])) {
            (Some(p), Some(a)) => Some(p.push(a)),
            _ => None,
        }
    }
}

/// A puzzle that a document with valid rules builds; all such puzzles play alike.
pub open spec fn document_puzzle(pack: Seq<char>, doc: PuzzleDocument) -> PuzzleView {
    choose|p: PuzzleView| built_view(p, document_spec(pack, doc))
}

/// What is wrong with an author solution, if it has one.
pub open spec fn solution_problem(pack: Seq<char>, doc: PuzzleDocument) -> Option<Seq<char>> {
    if !puzzle_built(pack, doc) {
        None
    } else {
        match doc.solution {
            None => None,
            Some(actions) => if actions@.len() > 64 {
                Some("solution action count is outside the limit"@)
            } else {
                match convert_actions(doc.width, doc.height, actions@, actions@.len() as int) {
                    None => Some("solution coordinate is outside the paper"@),
                    Some(converted) => {
                        let p = document_puzzle(pack, doc);
                        match run(p, converted, converted.len() as int) {
                            Err(_) => Some("solution contains an illegal action"@),
                            Ok(m) => if m.state.ink == p.target.cells() {
                                None
                            } else {
                                Some("solution does not match the target exactly"@)
                            },
                        }
                    },
                }
            },
        }
    }
}

pub open spec fn solution_issues(issues: Issues, pack: Seq<char>, doc: PuzzleDocument) -> Issues {
    match solution_problem(pack, doc) {
        Some(m) => capped_push(issues, issue("puzzle.solution"@, m)),
        None => issues,
    }
}

/// The document carries a solution, and it replays to the target exactly.
pub open spec fn solution_accepted(pack: Seq<char>, doc: PuzzleDocument) -> bool {
    puzzle_built(pack, doc) && doc.solution is Some && solution_problem(pack, doc) is None
}

/// Every issue of a puzzle document, in the order they are found.
pub open spec fn puzzle_issues(pack: Seq<char>, expected: Seq<char>, doc: PuzzleDocument) -> Issues {
    solution_issues(
        rules_issues(parts_issues(puzzle_display_issues(expected, doc), pack, doc), pack, doc),
        pack,
        doc,
    )
}

pub(crate) fn convert_action_at(dimensions: Dimensions, a: &ActionDocument) -> (r: Option<PaperAction>)
    requires
        dimensions.wf(),
    ensures
        r == convert_action(dimensions.w() as u8, dimensions.h() as u8, *a),
{
    proof {
        dimensions.lemma_wf();
    }
    match a {
        ActionDocument::Fold { direction, crease } => Some(PaperAction::Fold(Fold::new(*direction, *crease))),
        ActionDocument::Dot { row, column } => match dimensions.coordinate(*row, *column) {
            Ok(c) => {
                proof {
                    lemma_coordinate_of(*row as int, *column as int);
                    Coordinate::lemma_eq(c, coordinate_of(*row as int, *column as int));
                }
                Some(PaperAction::Dot(c))
            },
            Err(_) => None,
        },
        ActionDocument::Line { start_row, start_column, end_row, end_column } => {
            let start = match dimensions.coordinate(*start_row, *start_column) {
                Ok(c) => c,
                Err(_) => {
                    return None;
                },
            };
            let end = match dimensions.coordinate(*end_row, *end_column) {
                Ok(c) => c,
                Err(_) => {
                    return None;
                },
            };
            proof {
                lemma_coordinate_of(*start_row as int, *start_column as int);
                lemma_coordinate_of(*end_row as int, *end_column as int);
                Coordinate::lemma_eq(start, coordinate_of(*start_row as int, *start_column as int));
                Coordinate::lemma_eq(end, coordinate_of(*end_row as int, *end_column as int));
            }
            Some(PaperAction::Line(LineStroke::new(start, end)))
        },
    }
}

fn validate_solution(
    puzzle: &Puzzle,
    pack: Ghost<Seq<char>>,
    doc: Ghost<PuzzleDocument>,
    document: Option<&Vec<ActionDocument>>,
    issues: &mut Vec<PackIssue>,
) -> (r: Option<Replay>)
    requires
        puzzle.wf(),
        puzzle_built(pack@, doc@),
        built_view(puzzle.view(), document_spec(pack@, doc@)),
        document == match doc@.solution {
            Some(s) => Some(&s),
            None => None::<&Vec<ActionDocument>>,
        },
    ensures
        issue_views(final(issues)@) == solution_issues(issue_views(old(issues)@), pack@, doc@),
        r is Some <==> solution_accepted(pack@, doc@),
        r matches Some(replay) ==> ({
            let actions = doc@.solution->Some_0@;
            &&& convert_actions(doc@.width, doc@.height, actions, actions.len() as int) == Some(
                replay.actions_view(),
            )
            &&& solves_exactly(puzzle, replay)
        }),
{
    let ghost pv = puzzle.view();
    let ghost chosen = document_puzzle(pack@, doc@);
    proof {
        assert(built_view(chosen, document_spec(pack@, doc@)));
        FoldCount::lemma_spec_of(0);
        StrokeCount::lemma_spec_of(0);
        assert(FoldCount::spec_of(pv.fold_budget.value()) == pv.fold_budget);
        assert(FoldCount::spec_of(chosen.fold_budget.value()) == chosen.fold_budget);
        assert(StrokeCount::spec_of(pv.stroke_budget.value()) == pv.stroke_budget);
        assert(StrokeCount::spec_of(chosen.stroke_budget.value()) == chosen.stroke_budget);
    }
    let actions = match document {
        Some(actions) => actions,
        None => {
            return None;
        },
    };
    if actions.len() > MAX_ACTIONS as usize {
        record_issue(issues, "puzzle.solution", "solution action count is outside the limit");
        return None;
    }
    let dimensions = puzzle.dimensions();
    proof {
        Dimensions::lemma_spec_of(doc@.width, doc@.height);
    }
    let mut converted: Vec<PaperAction> = Vec::new();
    let mut k: usize = 0;
    while k < actions.len()
        invariant
            puzzle_built(pack@, doc@),
            doc@.solution matches Some(s) && s@ == actions@,
            actions@.len() <= 64,
            issues@ == old(issues)@,
            dimensions.wf(),
            dimensions.w() == doc@.width,
            dimensions.h() == doc@.height,
            k <= actions@.len(),
            convert_actions(doc@.width, doc@.height, actions@, k as int) == Some(converted@),
        decreases actions@.len() - k,
    {
        match convert_action_at(dimensions, &actions[k]) {
            Some(action) => {
                converted.push(action);
            },
            None => {
                proof {
                    lemma_convert_fails(doc@.width, doc@.height, actions@, k as int + 1, actions@.len() as int);
                }
                record_issue(issues, "puzzle.solution", "solution coordinate is outside the paper");
                return None;
            },
        }
        k = k + 1;
    }
    proof {
        lemma_convert_len(doc@.width, doc@.height, actions@, actions@.len() as int);
    }
    let replay = match Replay::new(ReplayMetadata::current(puzzle), converted) {
        Ok(replay) => replay,
        Err(_) => {
            return None;
        },
    };
    proof {
        lemma_run_same_rules(pv, chosen, replay.actions_view(), replay.actions_view().len() as int);
    }
    match replay.execute(puzzle) {
        Ok(attempt) => {
            if attempt.result().is_success() {
                Some(replay)
            } else {
                record_issue(issues, "puzzle.solution", "solution does not match the target exactly");
                None
            }
        },
        Err(_) => {
            record_issue(issues, "puzzle.solution", "solution contains an illegal action");
            None
        },
    }
}

/// A replay that is compatible with the puzzle and leaves exactly its target inked.
pub open spec fn solves_exactly(puzzle: &Puzzle, replay: Replay) -> bool {
    &&& compatibility_error(replay.metadata_view(), puzzle.view(), puzzle.revision_view()) is None
    &&& run(puzzle.view(), replay.actions_view(), replay.actions_view().len() as int) matches Ok(m)
    &&& m.state.ink == puzzle.view().target.cells()
}

proof fn lemma_convert_len(width: u8, height: u8, s: Seq<ActionDocument>, k: int)
    requires
        0 <= k,
        convert_actions(width, height, s, k) is Some,
    ensures
        convert_actions(width, height, s, k)->Some_0.len() == k,
    decreases k,
{
    if k > 0 {
        lemma_convert_len(width, height, s, k - 1);
    }
}

proof fn lemma_convert_fails(width: u8, height: u8, s: Seq<ActionDocument>, k: int, n: int)
    requires
        1 <= k <= n,
        convert_actions(width, height, s, k) is None,
    ensures
        convert_actions(width, height, s, n) is None,
    decreases n - k,
{
    if k < n {
        lemma_convert_fails(width, height, s, k + 1, n);
    }
}

} // verus!

verus! {

// ---------------------------------------------------------------------------
// Puzzle content
// ---------------------------------------------------------------------------

/// A validated puzzle with its display text and optional checked solution.
pub struct PuzzleContent {
    puzzle: Puzzle,
    title: String,
    description: Option<String>,
    tutorial_cues: Vec<String>,
    author: Option<String>,
    license: Option<String>,
    solution: Option<Replay>,
}

impl PuzzleContent {
    pub closed spec fn puzzle_value(&self) -> Puzzle {
        self.puzzle
    }

    pub closed spec fn text_view(&self) -> (Seq<char>, Option<Seq<char>>, Seq<Seq<char>>, Option<Seq<char>>, Option<
        Seq<char>,
    >) {
        (
            self.title@,
            text_option(self.description),
            texts(self.tutorial_cues@),
            text_option(self.author),
            text_option(self.license),
        )
    }

    pub closed spec fn solution_value(&self) -> Option<Replay> {
        self.solution
    }

    /// A content's puzzle is valid, and its recorded solution, if any, leaves
    /// exactly the target inked.
    #[verifier::type_invariant]
    spec fn solution_solves(&self) -> bool {
        &&& self.puzzle.wf()
        &&& (self.solution matches Some(replay) ==> solves_exactly(&self.puzzle, replay))
    }

    /// Every content's puzzle is valid, and replaying its recorded solution on
    /// it succeeds and leaves exactly the target inked.
    pub fn lemma_solution_solves(&self)
        ensures
            self.puzzle_value().wf(),
            self.solution_value() matches Some(replay) ==> solves_exactly(&self.puzzle_value(), replay),
    {
        proof {
            use_type_invariant(self);
        }
    }

    pub fn puzzle(&self) -> (r: &Puzzle)
        ensures
            *r == self.puzzle_value(),
    {
        &self.puzzle
    }

    pub fn title(&self) -> (r: &str)
        ensures
            r@ == self.text_view().0,
    {
        self.title.as_str()
    }

    pub fn description(&self) -> (r: Option<&str>)
        ensures
            match r {
                Some(d) => self.text_view().1 == Some(d@),
                None => self.text_view().1 is None,
            },
    {
        match &self.description {
            Some(d) => Some(d.as_str()),
            None => None,
        }
    }

    pub fn tutorial_cues(&self) -> (r: &[String])
        ensures
            texts(r@) == self.text_view().2,
    {
        self.tutorial_cues.as_slice()
    }

    pub fn author(&self) -> (r: Option<&str>)
        ensures
            match r {
                Some(a) => self.text_view().3 == Some(a@),
                None => self.text_view().3 is None,
            },
    {
        match &self.author {
            Some(a) => Some(a.as_str()),
            None => None,
        }
    }

    pub fn license(&self) -> (r: Option<&str>)
        ensures
            match r {
                Some(l) => self.text_view().4 == Some(l@),
                None => self.text_view().4 is None,
            },
    {
        match &self.license {
            Some(l) => Some(l.as_str()),
            None => None,
        }
    }

    /// The author-supplied solution, after it has been replayed through the engine.
    pub fn solution(&self) -> (r: Option<&Replay>)
        ensures
            match r {
                Some(s) => self.solution_value() == Some(*s),
                None => self.solution_value() is None,
            },
    {
        match &self.solution {
            Some(s) => Some(s),
            None => None,
        }
    }
}

/// The content a valid puzzle document becomes.
pub open spec fn content_matches(c: PuzzleContent, pack: Seq<char>, doc: PuzzleDocument) -> bool {
    &&& c.puzzle_value().wf()
    &&& built_view(c.puzzle_value().view(), document_spec(pack, doc))
    &&& c.text_view() == (
        doc.title@,
        text_option(doc.description),
        texts(doc.tutorial_cues@),
        text_option(doc.author),
        text_option(doc.license),
    )
    &&& (c.solution_value() is Some <==> doc.solution is Some)
    &&& (c.solution_value() matches Some(replay) ==> {
        let actions = doc.solution->Some_0@;
        &&& convert_actions(doc.width, doc.height, actions, actions.len() as int) == Some(replay.actions_view())
        &&& solves_exactly(&c.puzzle_value(), replay)
    })
}

/// A puzzle document without issues gives content under the expected pack and
/// puzzle identity, and a solution it carries solves its puzzle exactly.
pub proof fn lemma_document_content(pack: Seq<char>, expected: Seq<char>, doc: PuzzleDocument, c: PuzzleContent)
    requires
        puzzle_issues(pack, expected, doc).len() == 0,
        content_matches(c, pack, doc),
    ensures
        c.puzzle_value().view().pack == pack,
        c.puzzle_value().view().puzzle == expected,
        c.solution_value() matches Some(replay) ==> solves_exactly(&c.puzzle_value(), replay),
{
    let i1 = puzzle_display_issues(expected, doc);
    let i2 = parts_issues(i1, pack, doc);
    let i3 = rules_issues(i2, pack, doc);
    assert(puzzle_issues(pack, expected, doc).len() >= i3.len());
    assert(i3.len() >= i2.len());
    assert(i2.len() >= i1.len()) by {
        reveal_with_fuel(parts_issues, 1);
    }
    if doc.id@ != expected {
        let j1 = capped_push(Seq::empty(), issue("puzzle.id"@, "puzzle ID does not match its declared path"@));
        let j2 = display_issues(j1, doc.title@, 80, "puzzle.title"@);
        let j3 = match doc.description {
            Some(d) => display_issues(j2, d@, 512, "puzzle.description"@),
            None => j2,
        };
        let j4 = if doc.tutorial_cues@.len() > 16 {
            capped_push(j3, issue("puzzle.tutorial_cues"@, "tutorial cue count exceeds the limit"@))
        } else {
            j3
        };
        let cues = texts(doc.tutorial_cues@);
        let k = min(doc.tutorial_cues@.len() as int, 32);
        let j5 = cue_issues(j4, cues, k);
        lemma_cue_issues_grow(j4, cues, k);
        let j6 = match doc.author {
            Some(a) => display_issues(j5, a@, 80, "puzzle.author"@),
            None => j5,
        };
        assert(j1.len() == 1);
        assert(j2.len() >= 1);
        assert(j3.len() >= 1);
        assert(j4.len() >= 1);
        assert(j6.len() >= 1);
        assert(i1.len() > 0);
    }
}

/// Collecting the issues of tutorial cues never drops one.
proof fn lemma_cue_issues_grow(issues: Issues, cues: Seq<Seq<char>>, k: int)
    ensures
        cue_issues(issues, cues, k).len() >= issues.len(),
    decreases k,
{
    if k > 0 {
        lemma_cue_issues_grow(issues, cues, k - 1);
    }
}

/// Applies the puzzle rules to a parsed puzzle document.
pub fn puzzle_from_document(pack_id: &str, expected_id: &str, doc: &PuzzleDocument) -> (r: Result<
    PuzzleContent,
    PackError,
>)
    ensures
        puzzle_issues(pack_id@, expected_id@, *doc).len() > 0 ==> (r matches Err(e) && e.view()
            == PackErrorView::Invalid(puzzle_issues(pack_id@, expected_id@, *doc))),
        puzzle_issues(pack_id@, expected_id@, *doc).len() == 0 ==> (r matches Ok(c) && content_matches(
            c,
            pack_id@,
            *doc,
        )),
{
    let ghost d = *doc;
    let mut issues: Vec<PackIssue> = Vec::new();
    collect_puzzle_display_issues(expected_id, doc, &mut issues);
    let (identity, target, par) = validate_puzzle_parts(pack_id, doc, &mut issues);
    proof {
        if !(par is Invalid || identity is None || target is None) {
            assert(assembled_spec(
                identity->Some_0.pack_view(),
                identity->Some_0.puzzle_view(),
                target->Some_0@,
                d,
                match par {
                    ValidatedPar::Present(p) => Some(p),
                    _ => None,
                },
            ) == document_spec(pack_id@, d));
        }
    }
    let puzzle = build_puzzle(doc, identity, target, par, &mut issues);
    let solution = match &puzzle {
        Some(puzzle) => {
            let document = match &doc.solution {
                Some(actions) => Some(actions),
                None => None,
            };
            validate_solution(puzzle, Ghost(pack_id@), Ghost(d), document, &mut issues)
        },
        None => None,
    };
    proof {
        assert(issue_views(issues@) == puzzle_issues(pack_id@, expected_id@, d));
    }
    if issues.len() > 0 {
        return Err(PackError::Invalid { issues });
    }
    let puzzle = match puzzle {
        Some(puzzle) => puzzle,
        None => {
            return Err(PackError::one("puzzle", "puzzle validation is incomplete"));
        },
    };
    Ok(
        PuzzleContent {
            puzzle,
            title: doc.title.clone(),
            description: copy_text_option(&doc.description),
            tutorial_cues: copy_texts(&doc.tutorial_cues),
            author: copy_text_option(&doc.author),
            license: copy_text_option(&doc.license),
            solution,
        },
    )
}

pub fn copy_text_option(v: &Option<String>) -> (r: Option<String>)
    ensures
        text_option(r) == text_option(*v),
{
    match v {
        Some(s) => Some(s.clone()),
        None => None,
    }
}

pub fn copy_texts(v: &Vec<String>) -> (r: Vec<String>)
    ensures
        texts(r@) == texts(v@),
{
    let mut out: Vec<String> = Vec::new();
    let mut k: usize = 0;
    while k < v.len()
        invariant
            k <= v@.len(),
            out@.len() == k,
            texts(out@) == texts(v@.subrange(0, k as int)),
        decreases v@.len() - k,
    {
        let ghost before = out@;
        let item = v[k].clone();
        assert(item@ == v@[k as int]@);
        out.push(item);
        assert(out@ == before.push(item));
        assert forall|i: int| 0 <= i < k + 1 implies #[trigger] texts(out@)[i] == texts(v@.subrange(0, k + 1))[i] by {
            if i < k {
                assert(texts(before)[i] == texts(v@.subrange(0, k as int))[i]);
            }
        }
        assert(texts(out@) =~= texts(v@.subrange(0, k + 1)));
        k = k + 1;
    }
    assert(v@.subrange(0, v@.len() as int) =~= v@);
    out
}

} // verus!
