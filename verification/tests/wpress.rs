//! WordPress migration archives.
use newtua_core::archive::{ArchiveReader, Confidence, EntryKind, FormatHandler, FormatId, OpenOptions, Source};
use newtua_core::datetime::{Stamp, Timestamp};
use newtua_core::error::Error;
use newtua_core::format::wpress::{
    decimal_field, join_raw, parse_header, scan, text_field, WpressHandler, HEADER_LEN, MTIME_OFF, PREFIX_OFF, SIZE_OFF,
};
use newtua_core::path_safety::raw_path_escapes;

#[test]
fn id_is_wpress() {
    assert_eq!(WpressHandler.id(), FormatId::Wpress);
}

#[test]
fn header_geometry_matches_the_reference() {
    assert_eq!(HEADER_LEN, 4377);
    assert_eq!(SIZE_OFF, 255);
    assert_eq!(MTIME_OFF, 269);
    assert_eq!(PREFIX_OFF, 281);
}

#[test]
fn probe_positive_by_extension_any_case() {
    assert_eq!(
        WpressHandler.probe(&[], Some("site.wpress")),
        Confidence::extension()
    );
    assert_eq!(
        WpressHandler.probe(&[], Some("SITE.WPRESS")),
        Confidence::extension()
    );
}

#[test]
fn probe_negative_without_the_extension() {
    assert_eq!(WpressHandler.probe(&[], Some("site.zip")), Confidence::none());
    assert_eq!(WpressHandler.probe(&[], Some("wpress")), Confidence::none());
    assert_eq!(WpressHandler.probe(&[], None), Confidence::none());
}

#[test]
fn text_field_reads_padded_and_full_fields() {
    assert_eq!(text_field(b"a.txt\0\0\0"), Some(b"a.txt".as_slice()));
    assert_eq!(text_field(b"abc"), Some(b"abc".as_slice()));
    assert_eq!(text_field(b"\0\0\0"), Some(b"".as_slice()));
    assert_eq!(text_field(b"a.txt\0X\0"), None);
}

#[test]
fn decimal_field_parses_and_rejects() {
    assert_eq!(decimal_field(b"15\0\0\0"), Some(Some(15)));
    assert_eq!(decimal_field(b"00000000000015"), Some(Some(15)));
    assert_eq!(decimal_field(b"15  \0"), Some(Some(15)));
    assert_eq!(decimal_field(b"\0\0\0"), Some(None));
    assert_eq!(decimal_field(b"NOTANUMBER\0"), None);
    assert_eq!(decimal_field(b"12x4\0"), None);
    assert_eq!(
        decimal_field(b"99999999999999"),
        Some(Some(99_999_999_999_999))
    );
}

#[test]
fn join_raw_builds_the_full_path() {
    assert_eq!(join_raw(b".", b"a.txt"), b"a.txt".to_vec());
    assert_eq!(join_raw(b"", b"a.txt"), b"a.txt".to_vec());
    assert_eq!(
        join_raw(b"wp-content", b"a.txt"),
        b"wp-content/a.txt".to_vec()
    );
    assert_eq!(join_raw(b"./sub", b"a.txt"), b"sub/a.txt".to_vec());
    assert_eq!(join_raw(b"sub/", b"a.txt"), b"sub/a.txt".to_vec());
    assert_eq!(join_raw(b"a/b/c", b"d.txt"), b"a/b/c/d.txt".to_vec());
}

#[test]
fn raw_path_escapes_catches_traversal() {
    assert!(!raw_path_escapes(b"wp-content/a.txt"));
    assert!(!raw_path_escapes(b"a..b/c.txt"));
    assert!(raw_path_escapes(b"../a.txt"));
    assert!(raw_path_escapes(b"a/../../b.txt"));
    assert!(raw_path_escapes(b"/etc/passwd"));
    assert!(raw_path_escapes(b"..\\a.txt"));
}

#[test]
fn parse_header_rejects_a_name_holding_a_separator() {
    let mut block = vec![0u8; HEADER_LEN];
    block[..7].copy_from_slice(b"a/b.txt");
    block[SIZE_OFF] = b'0';
    assert!(parse_header(&block).is_none());
}

fn record(name: &str, size: &str, mtime: &str, prefix: &str, body: &[u8]) -> Vec<u8> {
    let mut block = vec![0u8; HEADER_LEN];
    block[..name.len()].copy_from_slice(name.as_bytes());
    block[SIZE_OFF..SIZE_OFF + size.len()].copy_from_slice(size.as_bytes());
    block[MTIME_OFF..MTIME_OFF + mtime.len()].copy_from_slice(mtime.as_bytes());
    block[PREFIX_OFF..PREFIX_OFF + prefix.len()].copy_from_slice(prefix.as_bytes());
    block.extend_from_slice(body);
    block
}

fn two_records() -> Vec<u8> {
    let mut all = record("package.json", "2", "1700000000", ".", b"{}");
    all.extend(record("a.txt", "5", "", "wp-content", b"hello"));
    all.extend(vec![0u8; HEADER_LEN]);
    all
}

fn seekable(bytes: Vec<u8>) -> Source {
    Source::Seekable { inner: bytes, path: Some("site.wpress".to_string()) }
}

#[test]
fn scanned_bodies_follow_each_other() {
    let records = scan(&two_records()).unwrap();
    assert_eq!(records.len(), 2);
    assert_eq!(records[0].offset, HEADER_LEN as u64);
    assert_eq!(records[0].size, 2);
    assert_eq!(records[0].mtime, Some(1_700_000_000));
    assert_eq!(records[1].offset, records[0].offset + records[0].size + HEADER_LEN as u64);
    assert_eq!(records[1].path, b"wp-content/a.txt".to_vec());
    assert_eq!(records[1].mtime, None);
}

#[test]
fn opened_archive_lists_and_reads_its_files() {
    let reader = WpressHandler.open(seekable(two_records()), &OpenOptions::default()).unwrap();
    assert_eq!(reader.format(), FormatId::Wpress);
    let entries = reader.entries();
    assert_eq!(entries.len(), 2);
    assert_eq!(entries[0].path, "package.json");
    assert_eq!(entries[1].path, "wp-content/a.txt");
    assert_eq!(entries[0].modified, Some(Stamp::Instant(Timestamp { secs: 1_700_000_000, nanos: 0 })));
    assert!(matches!(entries[1].kind, EntryKind::File));
    assert_eq!(reader.read_entry(0).unwrap(), b"{}".to_vec());
    assert_eq!(reader.read_entry(1).unwrap(), b"hello".to_vec());
    assert!(matches!(reader.read_entry(2), Err(Error::InvalidIndex(2))));
    assert!(reader.verify_password().is_ok());
}

#[test]
fn damage_before_the_first_record_means_another_format() {
    assert!(matches!(scan(b"short"), Err(Error::UnknownFormat)));
    assert!(matches!(scan(&[]), Err(Error::UnknownFormat)));
    assert!(matches!(scan(&vec![0u8; HEADER_LEN]), Err(Error::UnknownFormat)));
    assert!(matches!(scan(&record("a", "nine", "", "", b"")), Err(Error::UnknownFormat)));
    assert!(matches!(scan(&record("a", "9", "", "", b"few")), Err(Error::UnknownFormat)));
}

#[test]
fn damage_after_the_first_record_is_corrupt() {
    let whole = record("a.txt", "5", "", "", b"hello");
    let mut cut = whole.clone();
    cut.extend_from_slice(b"tail");
    assert!(matches!(scan(&cut), Err(Error::Corrupt(m))
        if m == "wpress: truncated header at offset 4382 (4 bytes left)"));
    let mut bad = whole.clone();
    bad.extend(record("b.txt", "nine", "", "", b""));
    assert!(matches!(scan(&bad), Err(Error::Corrupt(m)) if m == "wpress: unparsable record header at offset 4382"));
    let mut long = whole;
    long.extend(record("b.txt", "9", "", "", b"few"));
    assert!(matches!(scan(&long), Err(Error::Corrupt(m))
        if m == "wpress: body of b.txt claims 9 bytes but only 3 remain"));
}

#[test]
fn zero_bytes_after_the_records_are_padding() {
    let mut all = record("a.txt", "5", "", "", b"hello");
    all.extend_from_slice(&[0u8; 17]);
    assert_eq!(scan(&all).unwrap().len(), 1);
}

#[test]
fn only_spaces_may_follow_decimal_digits() {
    assert_eq!(decimal_field(b"15\t\0"), None);
    assert_eq!(decimal_field(b"15  \0"), Some(Some(15)));
    assert_eq!(decimal_field(b" 15\0"), None);
}
