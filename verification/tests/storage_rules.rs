use orifude::domain::paper::{BrushRule, CellId, Column, Coordinate, Fold, FoldDirection, PaperAction, Row};
use orifude::domain::puzzle::{Puzzle, PuzzleIdentity, PuzzleSpec};
use orifude::domain::replay::{Replay, ReplayMetadata};
use orifude::content::lesson;
use orifude::storage::progress::{available_pages, completion_is_best, verified_completion, next_progress, progress_page, ExistingProgress, PuzzleProgress};
use orifude::storage::registry::{check_install_capacity, fingerprint_array};
use orifude::storage::replay::{check_replay_size, replay_document, replay_from_document, replay_text, ReplayActionDocument};
use orifude::storage::settings::{check_settings, ColorMode, GlyphMode, KeyBindings, Settings};
use orifude::storage::{
    check_database, check_page_size, check_schema_version, i64_to_u64, is_delete_journal, is_fingerprint_name,
    is_reserved_pack_id, u64_to_i64, StorageError, MAX_PAGE_COUNT,
};

fn at(row: u8, column: u8) -> Coordinate {
    Coordinate::new(Row::new(row).unwrap(), Column::new(column).unwrap())
}

fn across() -> Puzzle {
    Puzzle::new(
        PuzzleSpec::new(PuzzleIdentity::new("sample-pack", "across").unwrap(), 4, 4)
            .with_target_cells(vec![CellId::new(6).unwrap(), CellId::new(5).unwrap()])
            .with_allowed_folds(vec![Fold::new(FoldDirection::Right, 2)])
            .with_allowed_brushes(vec![BrushRule::Dot])
            .with_budgets(1, 1),
    )
    .unwrap()
}

#[test]
fn a_saved_replay_reads_back() {
    let puzzle = across();
    let actions = vec![PaperAction::Fold(Fold::new(FoldDirection::Right, 2)), PaperAction::Dot(at(1, 2))];
    let replay = Replay::new(ReplayMetadata::current(&puzzle), actions.clone()).unwrap();
    let document = replay_document(&puzzle, &replay);
    assert_eq!(document.puzzle.target, vec![(1, 1), (1, 2)]);
    assert!(matches!(document.actions[1], ReplayActionDocument::Dot { row: 1, column: 2 }));
    let decoded = replay_from_document(&document).expect("a saved replay decodes");
    assert_eq!(decoded.replay().actions(), actions.as_slice());
    assert_eq!(decoded.puzzle().identity().puzzle_id(), "across");
    assert_eq!(decoded.puzzle().target(), puzzle.target());
    assert_eq!(decoded.puzzle().allowed_folds(), puzzle.allowed_folds());
    assert!(decoded.replay().execute(decoded.puzzle()).unwrap().result().is_success());
}

#[test]
fn a_replay_that_does_not_solve_is_refused() {
    let puzzle = across();
    let replay = Replay::new(ReplayMetadata::current(&puzzle), vec![PaperAction::Dot(at(1, 2))]).unwrap();
    let document = replay_document(&puzzle, &replay);
    assert!(replay_from_document(&document).is_err());
    let mut wrong_version = replay_document(&puzzle, &replay);
    wrong_version.replay_format_version = 2;
    assert!(replay_from_document(&wrong_version).is_err());
}

#[test]
fn replay_bytes_are_bounded_text() {
    assert!(replay_text(b"actions = []").is_ok());
    assert!(replay_text(&[0xff, 0xfe]).is_err());
    assert!(replay_text(&vec![b'a'; 65537]).is_err());
    assert!(check_replay_size(65536).is_ok());
    assert!(check_replay_size(65537).is_err());
}

#[test]
fn better_scores_become_the_best() {
    let previous = Some(ExistingProgress { attempt_count: 3, best_folds: 2, best_strokes: 2, best_replay_id: 9 });
    assert!(completion_is_best(None, true, 5, 5));
    assert!(completion_is_best(previous, true, 1, 8));
    assert!(completion_is_best(previous, true, 2, 1));
    assert!(!completion_is_best(previous, true, 2, 2));
    assert!(!completion_is_best(previous, true, 3, 0));
    assert!(completion_is_best(previous, false, 9, 9));
    assert_eq!(next_progress(None, true, 1, 1, 4).unwrap(), (1, 1, 1, 4));
    assert_eq!(next_progress(previous, true, 1, 1, 10).unwrap(), (4, 1, 1, 10));
    assert_eq!(next_progress(previous, false, 3, 3, 10).unwrap(), (4, 2, 2, 9));
    let full = Some(ExistingProgress { attempt_count: u64::MAX, best_folds: 0, best_strokes: 0, best_replay_id: 1 });
    assert!(matches!(next_progress(full, true, 0, 0, 2), Err(StorageError::ResourceLimit)));
}

#[test]
fn pages_and_progress_are_bounded() {
    assert_eq!(available_pages(10, 4).unwrap(), MAX_PAGE_COUNT - 6);
    assert_eq!(available_pages(MAX_PAGE_COUNT as i64 + 5, 0).unwrap(), 0);
    assert!(matches!(available_pages(-1, 0), Err(StorageError::Corrupt)));
    let entry = |i: i64| PuzzleProgress {
        pack_id: "p".to_owned(),
        puzzle_id: format!("q{i}"),
        attempt_count: 1,
        best_folds: 0,
        best_strokes: 1,
        best_replay_id: i,
        updated_at_unix_seconds: i,
    };
    let page = progress_page((0..129).map(entry).collect());
    assert!(page.has_more);
    assert_eq!(page.entries.len(), 128);
    let short = progress_page((0..3).map(entry).collect());
    assert!(!short.has_more);
    assert_eq!(short.entries.len(), 3);
}

#[test]
fn install_capacity_and_registry_checks() {
    assert!(check_install_capacity(31, 0, 16 * 1024 * 1024).is_ok());
    assert!(matches!(check_install_capacity(32, 0, 1), Err(StorageError::ResourceLimit)));
    assert!(matches!(check_install_capacity(0, 512 * 1024 * 1024, 1), Err(StorageError::ResourceLimit)));
    assert!(matches!(check_install_capacity(0, u64::MAX, 1), Err(StorageError::ResourceLimit)));
    assert_eq!(fingerprint_array(&[7; 32]).unwrap(), [7; 32]);
    assert!(matches!(fingerprint_array(&[7; 31]), Err(StorageError::Corrupt)));
    assert!(is_fingerprint_name(&"0a".repeat(32)));
    assert!(!is_fingerprint_name(&"0A".repeat(32)));
    assert!(!is_fingerprint_name("abc"));
    assert!(is_reserved_pack_id("orifude-journey"));
    assert!(is_reserved_pack_id("orifude-endless"));
    assert!(!is_reserved_pack_id("community"));
}

#[test]
fn database_checks() {
    assert_eq!(check_schema_version(3).unwrap(), 3);
    assert!(matches!(check_schema_version(4), Err(StorageError::UnsupportedSchema { found: 4, supported: 3 })));
    assert!(check_page_size(4096).is_ok());
    assert!(matches!(check_page_size(1024), Err(StorageError::UnsupportedPageSize { found: 1024, required: 4096 })));
    assert!(is_delete_journal("DELETE"));
    assert!(is_delete_journal("delete"));
    assert!(!is_delete_journal("wal"));
    assert!(check_database(true, 32768, 3, 3, 1, false).is_ok());
    assert!(matches!(check_database(false, 32768, 3, 3, 1, false), Err(StorageError::Corrupt)));
    assert!(matches!(check_database(true, 100, 3, 3, 1, false), Err(StorageError::Full)));
    assert!(matches!(check_database(true, 32768, 3, 3, 1, true), Err(StorageError::Corrupt)));
    assert!(matches!(u64_to_i64(u64::MAX), Err(StorageError::ResourceLimit)));
    assert!(matches!(i64_to_u64(-1), Err(StorageError::Corrupt)));
    assert_eq!(i64_to_u64(5).unwrap(), 5);
}

#[test]
fn default_settings_are_valid_and_conflicts_are_refused() {
    let settings = Settings::default();
    assert_eq!(settings.color_mode, ColorMode::Auto);
    assert_eq!(settings.glyph_mode, GlyphMode::Unicode);
    assert!(settings.bindings.is_conflict_free());
    assert!(check_settings(settings).is_ok());
    let clashing = Settings { bindings: KeyBindings { brush: 'f', ..KeyBindings::default() }, ..Settings::default() };
    assert!(matches!(check_settings(clashing), Err(StorageError::InvalidSettings)));
    assert_eq!(GlyphMode::from_database("ascii").unwrap(), GlyphMode::Ascii);
    assert!(matches!(ColorMode::from_database("sepia"), Err(StorageError::Corrupt)));
    let values = KeyBindings::default().database_values();
    let texts: Vec<&str> = values.iter().map(String::as_str).collect();
    assert_eq!(KeyBindings::from_database(&texts).unwrap(), KeyBindings::default());
}

#[test]
fn storage_errors_read_as_sentences() {
    assert_eq!(StorageError::Locked.message(), "another Orifude process owns the local database");
    assert_eq!(
        StorageError::UnsupportedSchema { found: 4, supported: 3 }.message(),
        "database schema 4 is newer than supported schema 3"
    );
    let io = StorageError::from_io(std::io::Error::from(std::io::ErrorKind::PermissionDenied));
    assert!(matches!(io, StorageError::ReadOnly));
    let other = StorageError::from_io(std::io::Error::other("x"));
    assert!(matches!(other, StorageError::Io(_)));
}

#[test]
fn only_a_replay_that_solves_its_puzzle_is_a_completion() {
    let paper = lesson().expect("the lesson builds");
    let replay = Replay::new(ReplayMetadata::current(paper.puzzle()), paper.solution().to_vec()).unwrap();
    let score = verified_completion(paper.puzzle(), &replay).expect("the recorded replay solves the lesson");
    assert_eq!(score.folds().get(), 1);
    assert_eq!(score.strokes().get(), 1);
    let unfinished = Replay::new(ReplayMetadata::current(paper.puzzle()), paper.solution()[..1].to_vec()).unwrap();
    assert!(matches!(verified_completion(paper.puzzle(), &unfinished), Err(StorageError::InvalidCompletion)));
    let other = across();
    assert!(matches!(verified_completion(&other, &replay), Err(StorageError::InvalidCompletion)));
}
