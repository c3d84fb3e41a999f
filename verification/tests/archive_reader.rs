use std::io::{Cursor, Write};

use orifude::packs::reader::{accepts_compression, hide_outside_catalog, read_archive_files, ZipCompression};
use orifude::packs::{PackError, MAX_ARCHIVE_BYTES};
use zip::write::SimpleFileOptions;
use zip::{CompressionMethod, ZipWriter};

fn archive(entries: &[(&str, &[u8])], directories: &[&str], method: CompressionMethod) -> Vec<u8> {
    let mut writer = ZipWriter::new(Cursor::new(Vec::new()));
    let options = SimpleFileOptions::default().compression_method(method);
    for directory in directories {
        writer.add_directory(*directory, options).unwrap();
    }
    for (name, contents) in entries {
        writer.start_file(*name, options).unwrap();
        writer.write_all(contents).unwrap();
    }
    writer.finish().unwrap().into_inner()
}

#[test]
fn an_archive_gives_back_the_files_it_holds() {
    let bytes = archive(
        &[("pack.toml", b"id = \"sample\"\n"), ("puzzles/first.toml", b"title = \"First\"\n")],
        &["puzzles/"],
        CompressionMethod::Deflated,
    );
    let files = read_archive_files(&bytes).expect("a well-formed archive reads");
    assert_eq!(files.len(), 2);
    assert_eq!(files.path_at(0), "pack.toml");
    assert_eq!(files.bytes_at(0), b"id = \"sample\"\n");
    assert_eq!(files.path_at(1), "puzzles/first.toml");
    assert_eq!(files.bytes_at(1), b"title = \"First\"\n");
    let stored = archive(&[("pack.toml", b"id = 1\n")], &[], CompressionMethod::Stored);
    assert_eq!(read_archive_files(&stored).expect("stored entries read").bytes_at(0), b"id = 1\n");
}

#[test]
fn archives_are_refused_by_size_catalog_and_entry_rules() {
    let too_large = vec![0u8; MAX_ARCHIVE_BYTES + 1];
    match read_archive_files(&too_large) {
        Err(PackError::Invalid { issues }) => assert_eq!(issues[0].problem(), "compressed size exceeds the limit"),
        _ => panic!("expected the size error"),
    }
    assert!(matches!(read_archive_files(&[0u8; 40]), Err(PackError::Archive)));
    let undeclared = archive(&[("secrets.bin", b"x")], &[], CompressionMethod::Stored);
    match read_archive_files(&undeclared) {
        Err(PackError::Invalid { issues }) => assert_eq!(issues[0].problem(), "file is not declared by the schema"),
        _ => panic!("expected an undeclared file"),
    }
    let stray_directory = archive(&[], &["assets/"], CompressionMethod::Stored);
    match read_archive_files(&stray_directory) {
        Err(PackError::Invalid { issues }) => assert_eq!(issues[0].problem(), "directory is not declared by the schema"),
        _ => panic!("expected an undeclared directory"),
    }
}

#[test]
fn only_stored_and_deflated_entries_are_accepted() {
    assert!(accepts_compression(ZipCompression::Stored));
    assert!(accepts_compression(ZipCompression::Deflated));
    assert!(!accepts_compression(ZipCompression::Other));
}

#[test]
fn the_catalog_parse_sees_only_the_checked_catalog() {
    let mut bytes = [7u8; 8];
    hide_outside_catalog(&mut bytes, 6, 100, 102, 84, false);
    assert_eq!(bytes, [0, 0, 7, 7, 0, 0, 7, 7]);
    let mut kept = [7u8; 8];
    hide_outside_catalog(&mut kept, 8, 100, 102, 84, true);
    assert_eq!(kept, [7u8; 8]);
}
