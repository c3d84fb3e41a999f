use orifude::packs::archive::{ascii_lowercase, check_archive_size, preflight_catalog, read_u16, read_u32};
use orifude::packs::files::{compare_bytes, ByteOrder, PackFiles};
use orifude::packs::format::license_accepted;
use orifude::packs::path::{content_limit, validate_relative_path};
use orifude::packs::{fingerprint_hex, PackError};
use orifude::text::{push_decimal, push_hex, push_padded};

fn problem(error: PackError) -> (String, String) {
    let issue = &error.issues()[0];
    (issue.location().to_owned(), issue.problem().to_owned())
}

#[test]
fn relative_paths_must_be_portable() {
    assert!(validate_relative_path("puzzles/first.toml").is_ok());
    assert_eq!(
        problem(validate_relative_path("/etc/passwd").unwrap_err()),
        ("path".to_owned(), "path is not portable and relative".to_owned())
    );
    assert_eq!(problem(validate_relative_path("a\\b").unwrap_err()).1, "path is not portable and relative");
    assert_eq!(problem(validate_relative_path("puzzles/../x").unwrap_err()).1, "path component is not portable");
    assert_eq!(problem(validate_relative_path("notes/CON.txt").unwrap_err()).1, "path uses a reserved device name");
    assert_eq!(problem(validate_relative_path("a/b/c/d/e").unwrap_err()).1, "path depth exceeds the limit");
    assert_eq!(problem(validate_relative_path("notes/a b.md").unwrap_err()).1, "path contains a disallowed character");
}

#[test]
fn files_have_declared_limits() {
    assert_eq!(content_limit("pack.toml").unwrap(), 32 * 1024);
    assert_eq!(content_limit("puzzles/a.toml").unwrap(), 64 * 1024);
    assert_eq!(content_limit("notes/readme.txt").unwrap(), 16 * 1024);
    assert_eq!(
        problem(content_limit("script.sh").unwrap_err()),
        ("script.sh".to_owned(), "file is not declared by the schema".to_owned())
    );
}

#[test]
fn archives_need_one_end_record() {
    assert!(matches!(preflight_catalog(b"not a zip"), Err(_)));
    let mut empty = vec![0u8; 22];
    empty[..4].copy_from_slice(b"PK\x05\x06");
    let refused = preflight_catalog(&empty).err().expect("an archive needs at least one entry");
    assert_eq!(
        problem(refused),
        ("archive".to_owned(), "archive entry table exceeds its supported bounds".to_owned())
    );
    assert!(check_archive_size(8 * 1024 * 1024).is_ok());
    assert!(check_archive_size(8 * 1024 * 1024 + 1).is_err());
    assert_eq!(read_u16(&[0x34, 0x12], 0), 0x1234);
    assert_eq!(read_u32(&[0x78, 0x56, 0x34, 0x12], 0), 0x1234_5678);
    assert_eq!(ascii_lowercase(b"Pack.TOML"), b"pack.toml".to_vec());
}

#[test]
fn pack_files_stay_in_path_order() {
    let mut files = PackFiles::new();
    files.insert("puzzles/b.toml".to_owned(), vec![2]);
    files.insert("pack.toml".to_owned(), vec![1]);
    files.insert("puzzles/a.toml".to_owned(), vec![3]);
    files.insert("pack.toml".to_owned(), vec![4]);
    assert_eq!(files.len(), 3);
    assert_eq!(files.path_at(0), "pack.toml");
    assert_eq!(files.bytes_at(0), &[4]);
    assert_eq!(files.path_at(1), "puzzles/a.toml");
    assert_eq!(files.get("puzzles/b.toml"), Some(&[2u8][..]));
    assert!(files.get("missing").is_none());
    assert!(matches!(compare_bytes(b"a", b"b"), ByteOrder::Less));
    assert!(matches!(compare_bytes(b"ab", b"a"), ByteOrder::Greater));
}

#[test]
fn numbers_as_text() {
    let mut text = String::new();
    push_decimal(&mut text, 0);
    text.push(' ');
    push_decimal(&mut text, 18_446_744_073_709_551_615);
    text.push(' ');
    push_hex(&mut text, 0xbeef, 6);
    text.push(' ');
    push_padded(&mut text, 7, 3);
    assert_eq!(text, "0 18446744073709551615 00beef 007");
    let mut fingerprint = [0u8; 32];
    fingerprint[0] = 0xab;
    fingerprint[31] = 0x01;
    let hex = fingerprint_hex(fingerprint);
    assert_eq!(hex.len(), 64);
    assert!(hex.starts_with("ab00"));
    assert!(hex.ends_with("01"));
}

#[test]
fn fingerprints_hash_the_tagged_files() {
    let mut files = PackFiles::new();
    files.insert("pack.toml".to_owned(), b"x".to_vec());
    let fingerprint = orifude::packs::content_fingerprint(1, &files);
    assert_eq!(fingerprint_hex(fingerprint), "acac69848d563f5668d5a6a4cc7e895c76aa40eb35632af35640cf4e0f51344b");
}

#[test]
fn licenses_are_spdx_expressions() {
    assert!(license_accepted("MIT"));
    assert!(license_accepted("MIT OR Apache-2.0"));
    assert!(!license_accepted("not a license"));
    assert!(!license_accepted(""));
    assert!(!license_accepted("MIT\u{e9}"));
}
