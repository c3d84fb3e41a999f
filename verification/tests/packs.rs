use orifude::author::{pack_error_report, solve_report, verify_message};
use orifude::domain::paper::{BrushRule, FoldDirection};
use orifude::packs::files::PackFiles;
use orifude::packs::format::{ActionDocument, FoldDocument, PackDocument, ParDocument, PuzzleDocument};
use orifude::packs::{validate_files, PackDocuments, PackError, PackIssue};

fn pack_document(puzzles: &[&str]) -> PackDocument {
    PackDocument {
        format_version: 1,
        id: "sample-pack".to_owned(),
        title: "Sample pack".to_owned(),
        description: Some("A small pack.".to_owned()),
        authors: vec!["Ada".to_owned()],
        license: "MIT".to_owned(),
        puzzles: puzzles.iter().map(|id| (*id).to_owned()).collect(),
    }
}

fn puzzle_document(id: &str) -> PuzzleDocument {
    PuzzleDocument {
        format_version: 1,
        id: id.to_owned(),
        title: "Across".to_owned(),
        description: None,
        width: 4,
        height: 4,
        target: vec!["....".to_owned(), ".##.".to_owned(), "....".to_owned(), "....".to_owned()],
        folds: vec![FoldDocument { direction: FoldDirection::Right, crease: 2 }],
        brushes: vec![BrushRule::Dot],
        fold_budget: 1,
        stroke_budget: 1,
        par: Some(ParDocument { folds: 1, strokes: 1 }),
        tutorial_cues: vec![],
        author: None,
        license: None,
        solution: Some(vec![
            ActionDocument::Fold { direction: FoldDirection::Right, crease: 2 },
            ActionDocument::Dot { row: 1, column: 2 },
        ]),
    }
}

fn sample(puzzle: PuzzleDocument) -> (PackFiles, PackDocuments) {
    let mut files = PackFiles::new();
    files.insert("pack.toml".to_owned(), b"id = \"sample-pack\"\n".to_vec());
    files.insert("puzzles/across.toml".to_owned(), b"id = \"across\"\n".to_vec());
    let docs = PackDocuments { metadata: Some(pack_document(&["across"])), puzzles: vec![None, Some(puzzle)] };
    (files, docs)
}

#[test]
fn a_valid_pack_passes_with_its_fingerprint() {
    let (files, docs) = sample(puzzle_document("across"));
    let pack = validate_files(files, docs).expect("the sample pack is valid");
    assert_eq!(pack.metadata().id(), "sample-pack");
    assert_eq!(pack.puzzles().len(), 1);
    assert_eq!(pack.fingerprint_hex().len(), 64);
    assert!(pack.puzzles()[0].solution().is_some());
    let message = verify_message(&pack);
    assert!(message.starts_with("Verified 1 puzzle(s) in pack sample-pack ["));
    assert!(message.ends_with("].\n"));
}

#[test]
fn the_same_files_give_the_same_fingerprint() {
    let (files, docs) = sample(puzzle_document("across"));
    let first = validate_files(files, docs).unwrap().fingerprint();
    let (files, docs) = sample(puzzle_document("across"));
    let second = validate_files(files, docs).unwrap().fingerprint();
    assert_eq!(first, second);
    let mut other_files = PackFiles::new();
    other_files.insert("pack.toml".to_owned(), b"id = \"sample-pack\"\n# changed\n".to_vec());
    other_files.insert("puzzles/across.toml".to_owned(), b"id = \"across\"\n".to_vec());
    let docs = PackDocuments {
        metadata: Some(pack_document(&["across"])),
        puzzles: vec![None, Some(puzzle_document("across"))],
    };
    assert_ne!(validate_files(other_files, docs).unwrap().fingerprint(), first);
}

#[test]
fn a_pack_without_files_is_refused() {
    let Err(error) = validate_files(PackFiles::new(), PackDocuments { metadata: None, puzzles: vec![] }) else {
        panic!("an empty pack is invalid");
    };
    assert_eq!(error.issues().len(), 1);
    assert_eq!(error.issues()[0].location(), "pack");
    assert_eq!(error.issues()[0].problem(), "pack has no files");
}

#[test]
fn a_wrong_solution_is_reported_with_its_location() {
    let mut puzzle = puzzle_document("across");
    puzzle.solution = Some(vec![ActionDocument::Fold { direction: FoldDirection::Right, crease: 2 }]);
    let (files, docs) = sample(puzzle);
    let Err(error) = validate_files(files, docs) else {
        panic!("the solution does not reach the target");
    };
    assert!(!error.issues().is_empty());
    let report = pack_error_report(&error).expect("issues are reported");
    assert!(report.starts_with("error: puzzle pack failed validation with "));
    assert!(report.ends_with("\n"));
}

#[test]
fn a_missing_puzzle_file_is_an_issue() {
    let mut files = PackFiles::new();
    files.insert("pack.toml".to_owned(), b"id = \"sample-pack\"\n".to_vec());
    let docs = PackDocuments { metadata: Some(pack_document(&["across"])), puzzles: vec![None] };
    let Err(error) = validate_files(files, docs) else {
        panic!("the declared puzzle is missing");
    };
    assert!(error.issues().iter().any(|issue| issue.problem() == "declared puzzle is missing"));
}

#[test]
fn the_solve_report_lists_each_puzzle_as_toml() {
    let (files, docs) = sample(puzzle_document("across"));
    let pack = validate_files(files, docs).unwrap();
    let report = solve_report(&pack).expect("the sample pack is solvable");
    assert!(report.starts_with("pack = \"sample-pack\"\n\n[puzzle.across]\nfolds = 1\nstrokes = 1\nsolution = [\n"));
    assert!(report.ends_with("]\n"));
    assert!(report.contains("  { kind = \"fold\", direction = \"right\", crease = 2 },\n"));
    assert!(report.contains("  { kind = \"dot\", row = 1, column = "));
}

#[test]
fn issues_are_sanitized_and_errors_without_issues_have_no_report() {
    let issue = PackIssue::new("pack\u{1b}.toml", "bad\nvalue");
    assert_eq!(issue.location(), "pack?.toml");
    assert_eq!(issue.problem(), "bad?value");
    assert!(pack_error_report(&PackError::Archive).is_none());
    assert_eq!(PackError::Archive.message(), "puzzle-pack archive is invalid or unsupported");
    assert_eq!(
        PackError::SourceType.message(),
        "puzzle-pack source is not a directory or ZIP archive"
    );
    let one = PackError::one("pack.toml", "metadata TOML is invalid");
    assert_eq!(one.message(), "puzzle pack failed validation with 1 issue(s)");
    assert_eq!(
        pack_error_report(&one).unwrap(),
        "error: puzzle pack failed validation with 1 issue(s)\npack.toml: metadata TOML is invalid\n"
    );
}
