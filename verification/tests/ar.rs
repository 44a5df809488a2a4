//! Unix `ar` archives.
use newtua_core::archive::{ArchiveReader, Confidence, FormatHandler, FormatId, OpenOptions, Source};
use newtua_core::datetime::Timestamp;
use newtua_core::error::Error;
use newtua_core::format::ar::{check_long_names, parse_number, unix_secs_to_systime, ArHandler, ArReader};

fn at(secs: i128) -> Timestamp {
    Timestamp { secs, nanos: 0 }
}

#[test]
fn probe_detects_ar_magic() {
    assert_eq!(ArHandler.probe(b"!<arch>\n", None), Confidence::magic());
}

#[test]
fn ar_probe_rejects_other() {
    assert_eq!(ArHandler.probe(b"PK\x03\x04", None), Confidence::none());
}

#[test]
fn ar_probe_rejects_empty() {
    assert_eq!(ArHandler.probe(b"", None), Confidence::none());
}

#[test]
fn probe_rejects_short_prefix() {
    assert_eq!(ArHandler.probe(b"!<arch>", None), Confidence::none());
}

#[test]
fn ar_handler_id_is_ar() {
    assert_eq!(ArHandler.id(), FormatId::Ar);
}

#[test]
fn unix_secs_to_systime_epoch_and_value() {
    assert_eq!(unix_secs_to_systime(0), at(0));
    assert_eq!(
        unix_secs_to_systime(60),
        at(60)
    );
}

fn sample() -> Vec<u8> {
    let mut b = ar::Builder::new(Vec::new());
    for (name, body) in [("a.txt", &b"alpha"[..]), ("b.txt", &b"be"[..])] {
        let mut h = ar::Header::new(name.as_bytes().to_vec(), body.len() as u64);
        h.set_mode(0o100644);
        h.set_mtime(60);
        b.append(&h, body).unwrap();
    }
    b.into_inner().unwrap()
}

fn open(bytes: &[u8]) -> Result<ArReader, Error> {
    assert!(check_long_names(bytes));
    let src = Source::Seekable { inner: bytes.to_vec(), path: Some(String::from("/tmp/a.a")) };
    ArHandler.open(src, &OpenOptions::default())
}

#[test]
fn ar_members_are_listed_and_read() {
    let r = open(&sample()).unwrap();
    assert_eq!(r.format(), FormatId::Ar);
    assert_eq!(r.entries()[0].path, "a.txt");
    assert_eq!(r.entries()[0].mode, Some(0o644));
    assert_eq!(r.entries()[1].size, 2);
    assert_eq!(r.read_entry(0).unwrap(), b"alpha");
    assert_eq!(r.read_entry(1).unwrap(), b"be");
    assert!(matches!(r.read_entry(2), Err(Error::InvalidIndex(2))));
}

#[test]
fn damaged_header_is_corrupt() {
    let mut bytes = sample();
    bytes[8 + 48] = b'x';
    assert!(matches!(open(&bytes), Err(Error::Corrupt(_))));
}

#[test]
fn ar_streams_are_not_supported() {
    let src = Source::Stream { inner: sample(), path: None };
    assert!(matches!(ArHandler.open(src, &OpenOptions::default()), Err(Error::Unsupported { .. })));
}

#[test]
fn name_that_points_nowhere_is_told() {
    let mut bytes = b"!<arch>\n".to_vec();
    bytes.extend_from_slice(b"//              ");
    bytes.extend_from_slice(b"            0     0     0       4         `\nab/\n");
    let mut header = b"/99             0           0     0     644     0         `\n".to_vec();
    let mut dangling = bytes.clone();
    dangling.extend_from_slice(&header);
    assert!(!check_long_names(&dangling));
    header[1..3].copy_from_slice(b"0 ");
    bytes.extend_from_slice(&header);
    assert!(check_long_names(&bytes));
}

#[test]
fn numbers_of_a_header_are_decimal_and_padded() {
    assert_eq!(parse_number(b"42   "), Some(42));
    assert_eq!(parse_number(b"4x"), None);
    assert_eq!(parse_number(b""), parse_number(b"   "));
}
