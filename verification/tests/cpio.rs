//! cpio archives.
use newtua_core::archive::{ArchiveReader, Confidence, EntryKind, FormatHandler, FormatId, OpenOptions, Source};
use newtua_core::datetime::{Stamp, Timestamp};
use newtua_core::error::Error;
use newtua_core::format::cpio::{
    is_supported_magic, odc_field, parse_octal, scan_newc, scan_odc, CpioHandler, CpioReader, MAGIC_LEN, MAGIC_ODC,
    ODC_FILESIZE, ODC_HEADER_LEN, ODC_MODE,
    ODC_MTIME, ODC_NAMESIZE,
};

#[test]
fn id_is_cpio() {
    assert_eq!(CpioHandler.id(), FormatId::Cpio);
}

#[test]
fn probe_positive_newc() {
    let header = b"070701000000000000000000";
    assert_eq!(CpioHandler.probe(header, None), Confidence::magic());
}

#[test]
fn cpio_probe_negative_zip() {
    assert_eq!(CpioHandler.probe(b"PK\x03\x04", None), Confidence::none());
}

#[test]
fn probe_accepts_odc() {
    assert_eq!(CpioHandler.probe(b"070707...", None), Confidence::magic());
}

#[test]
fn probe_rejects_crc_variant() {
    assert_eq!(CpioHandler.probe(b"070702...", None), Confidence::none());
}

#[test]
fn cpio_probe_rejects_short_header() {
    assert_eq!(CpioHandler.probe(b"0707", None), Confidence::none());
    assert_eq!(CpioHandler.probe(b"", None), Confidence::none());
}

#[test]
fn parse_octal_reads_plain_digits() {
    assert_eq!(parse_octal(b"000765"), Some(0o765));
    assert_eq!(parse_octal(b"100644"), Some(0o100644));
    assert_eq!(parse_octal(b"00000000000"), Some(0));
}

#[test]
fn parse_octal_tolerates_space_and_nul_padding() {
    assert_eq!(parse_octal(b"  644 "), Some(0o644));
    assert_eq!(parse_octal(b"644\0\0\0"), Some(0o644));
}

#[test]
fn parse_octal_rejects_garbage_without_panicking() {
    assert_eq!(parse_octal(b"zzzzzz"), None);
    assert_eq!(parse_octal(b"000899"), None);
    assert_eq!(parse_octal(b"      "), None);
    assert_eq!(parse_octal(b""), None);
    assert_eq!(parse_octal(&[b'7'; 22]), None);
}

#[test]
fn odc_header_spans_match_a_ditto_record() {
    let header: &[u8] =
        b"0707070000000000000407550007650000000000040000001523323025500000200000000000";
    assert_eq!(header.len(), ODC_HEADER_LEN);
    assert_eq!(&header[..MAGIC_LEN], MAGIC_ODC);
    assert_eq!(odc_field(header, ODC_MODE, "mode").unwrap(), 0o040755);
    assert_eq!(
        odc_field(header, ODC_MTIME, "mtime").unwrap(),
        0o15233230255
    );
    assert_eq!(odc_field(header, ODC_NAMESIZE, "namesize").unwrap(), 2);
    assert_eq!(odc_field(header, ODC_FILESIZE, "filesize").unwrap(), 0);
}

#[test]
fn is_supported_magic_covers_newc_and_odc_only() {
    assert!(is_supported_magic(b"070701"));
    assert!(is_supported_magic(b"070707"));
    assert!(!is_supported_magic(b"070702"));
    assert!(!is_supported_magic(b"PK\x03\x04"));
}

fn open(bytes: &[u8]) -> Result<CpioReader, Error> {
    let src = Source::Seekable { inner: bytes.to_vec(), path: Some(String::from("/tmp/a.cpio")) };
    CpioHandler.open(src, &OpenOptions::default())
}

fn newc(crc: bool) -> Vec<u8> {
    let mut out = Vec::new();
    for (name, mode, body) in [("d", 0o40755u32, &b""[..]), ("d/f", 0o100644, &b"body"[..]), ("l", 0o120777, &b"d/f"[..])] {
        let b = cpio::newc::Builder::new(name).mode(mode).mtime(7);
        let mut w = if crc {
            b.write_crc(out, body.len() as u32, body.iter().map(|x| u32::from(*x)).sum())
        } else {
            b.write(out, body.len() as u32)
        };
        std::io::Write::write_all(&mut w, body).unwrap();
        out = w.finish().unwrap();
    }
    cpio::newc::trailer(out).unwrap()
}

fn odc(records: &[(&str, u32, &[u8])]) -> Vec<u8> {
    let mut out = Vec::new();
    for (name, mode, body) in records {
        let head = format!(
            "070707{:06o}{:06o}{:06o}{:06o}{:06o}{:06o}{:06o}{:011o}{:06o}{:011o}",
            0, 0, mode, 0, 0, 1, 0, 7, name.len() + 1, body.len()
        );
        out.extend_from_slice(head.as_bytes());
        out.extend_from_slice(name.as_bytes());
        out.push(0);
        out.extend_from_slice(body);
    }
    out
}

fn check(r: &CpioReader) {
    assert_eq!(r.format(), FormatId::Cpio);
    let e = r.entries();
    assert_eq!(e.len(), 3);
    assert!(e[0].is_dir());
    assert_eq!(e[1].path, "d/f");
    assert_eq!(e[1].size, 4);
    assert_eq!(e[1].modified, Some(Stamp::Instant(Timestamp { secs: 7, nanos: 0 })));
    assert!(matches!(&e[2].kind, EntryKind::Symlink { target } if target == "d/f"));
    assert_eq!(r.read_entry(1).unwrap(), b"body");
    assert!(matches!(r.read_entry(3), Err(Error::InvalidIndex(3))));
}

#[test]
fn records_of_the_new_kind_are_listed_and_read() {
    check(&open(&newc(false)).unwrap());
    check(&open(&newc(true)).unwrap());
}

#[test]
fn records_of_the_old_kind_are_listed_and_read() {
    let bytes = odc(&[
        ("d", 0o40755, b""),
        ("d/f", 0o100644, b"body"),
        ("l", 0o120777, b"d/f"),
        ("TRAILER!!!", 0, b""),
    ]);
    check(&open(&bytes).unwrap());
    let found = scan_odc(&bytes).unwrap();
    assert_eq!(found[1].name, b"d/f");
    assert_eq!(found[1].size, 4);
}

#[test]
fn broken_archives_are_corrupt() {
    assert!(matches!(open(b"07070"), Err(Error::Corrupt(_))));
    assert!(matches!(open(b"123456 no such mark"), Err(Error::Corrupt(_))));
    let mut bytes = newc(false);
    bytes.truncate(200);
    assert!(matches!(open(&bytes), Err(Error::Corrupt(_))));
    let mut bytes = odc(&[("f", 0o100644, b"body")]);
    bytes.truncate(79);
    assert!(matches!(open(&bytes), Err(Error::Corrupt(_))));
    bytes[18] = b'x';
    assert!(matches!(open(&bytes), Err(Error::Corrupt(_))));
}

#[test]
fn scan_of_the_new_kind_finds_the_bodies() {
    let bytes = newc(false);
    let found = scan_newc(&bytes).unwrap();
    assert_eq!(found.len(), 3);
    let f = &found[1];
    assert_eq!(&bytes[f.start..f.start + f.size as usize], b"body");
}

#[test]
fn only_padding_may_stand_around_octal_digits() {
    assert_eq!(parse_octal(b"644 zz"), None);
    assert_eq!(parse_octal(b"644 \0"), Some(0o644));
    assert_eq!(parse_octal(b" 644"), Some(0o644));
    assert_eq!(parse_octal(b"64 4"), None);
}
