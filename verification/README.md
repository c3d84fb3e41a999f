# Orifude

A quiet folding-paper puzzle game: fold a small sheet, brush ink through its
layers, and open it to match a target. This crate is the game's library, written
in Verus: every rule of the game is an executable function with a contract, and
Verus proves each body against its contract.

## Layout

- `src/domain` — the paper model (cells, stacks, folds, ink), puzzles and their
  validation, attempts with undo and reset, replays, scores, and the messages of
  every error.
- `src/solver.rs` — the bounded solver, which searches best-first by score,
  its visited-state table and frontier, and its action catalog.
- `src/generator.rs` — calendar dates, seeds, and seeded puzzle generation.
- `src/content.rs` — the lesson paper, the journey's chapters, and the endless
  generation policy.
- `src/packs` — community puzzle packs: portable paths, bounded ZIP catalogs,
  reading the files of a ZIP archive held in memory, directory walks, pack and
  puzzle documents, licenses, and fingerprints.
- `src/storage` — the storage policy: limits, progress and best results,
  settings and key bindings, the installed-pack registry, and saved replays.
- `src/cli.rs`, `src/report.rs`, `src/author.rs`, `src/error.rs` — the
  command-line answers, bounded error reports, and author command reports.
- `app/` — the program around the library: argument and stream handling, TOML
  parsing, reading files and directories, the SQLite database, and the user's
  directories.
- `tests/` — tests of the library through its public interface.

Outside crates are reached through a few trusted wrappers whose contracts state
what their documentation promises: `sha2` for fingerprints, `spdx` for license
expressions, `zip` for opening archives and reading their entries, `std::str::from_utf8`, `String::push`, and the error kinds of
`std::io` and `rusqlite`.
