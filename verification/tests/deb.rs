//! Debian packages.
use newtua_core::archive::{ArchiveReader, Confidence, FormatHandler, FormatId, OpenOptions, Source};
use newtua_core::decompress::Compressor;
use newtua_core::error::Error;
use newtua_core::format::ar::check_long_names;
use newtua_core::format::deb::{take_payload, DebHandler, DebOpening};

fn ar_with_first_member(name: &[u8]) -> Vec<u8> {
    let mut v = Vec::from(&b"!<arch>\n"[..]);
    let mut field = [b' '; 16];
    field[..name.len()].copy_from_slice(name);
    v.extend_from_slice(&field);
    v.extend_from_slice(&[b' '; 60 - 16]);
    v
}

#[test]
fn probe_detects_deb() {
    let h = ar_with_first_member(b"debian-binary");
    assert_eq!(DebHandler.probe(&h, None), Confidence::magic());
}

#[test]
fn probe_rejects_plain_ar() {
    let h = ar_with_first_member(b"hello.txt/");
    assert_eq!(DebHandler.probe(&h, None), Confidence::none());
}

#[test]
fn probe_rejects_non_ar() {
    assert_eq!(DebHandler.probe(b"PK\x03\x04....", None), Confidence::none());
}

#[test]
fn deb_probe_rejects_short_header() {
    assert_eq!(DebHandler.probe(b"!<arch>\n", None), Confidence::none());
}

#[test]
fn deb_handler_id_is_deb() {
    assert_eq!(DebHandler.id(), FormatId::Deb);
}

fn package(data_name: &str, data: &[u8]) -> Vec<u8> {
    let mut b = ar::Builder::new(Vec::new());
    for (name, body) in [("debian-binary", &b"2.0\n"[..]), ("control.tar.gz", &b""[..]), (data_name, data)] {
        let h = ar::Header::new(name.as_bytes().to_vec(), body.len() as u64);
        b.append(&h, body).unwrap();
    }
    b.into_inner().unwrap()
}

fn payload() -> Vec<u8> {
    let mut b = tar::Builder::new(Vec::new());
    let mut h = tar::Header::new_gnu();
    h.set_size(4);
    b.append_data(&mut h, "usr/x", &b"four"[..]).unwrap();
    b.into_inner().unwrap()
}

fn gz(data: &[u8]) -> Vec<u8> {
    let mut e = flate2::write::GzEncoder::new(Vec::new(), flate2::Compression::default());
    std::io::Write::write_all(&mut e, data).unwrap();
    e.finish().unwrap()
}

fn open(bytes: &[u8]) -> Result<DebOpening, Error> {
    assert!(check_long_names(bytes));
    let src = Source::Seekable { inner: bytes.to_vec(), path: Some(String::from("/tmp/a.deb")) };
    DebHandler.open(src, &OpenOptions::default())
}

#[test]
fn deb_payload_is_listed_and_read() {
    for bytes in [package("data.tar.gz", &gz(&payload())), package("data.tar", &payload())] {
        match open(&bytes).unwrap() {
            DebOpening::Reader(r) => {
                assert_eq!(r.format(), FormatId::Deb);
                assert_eq!(r.entries()[0].path, "usr/x");
                assert_eq!(r.read_entry(0).unwrap(), b"four");
            }
            DebOpening::Lzw(_) => panic!("not packed with LZW"),
        }
    }
}

#[test]
fn payload_is_found_by_name() {
    let p = take_payload(&package("data.tar.gz", &gz(&payload()))).unwrap();
    assert_eq!(p.bytes, gz(&payload()));
    assert_eq!(p.compressor, Some(Compressor::Gzip));
    let p = take_payload(&package("data.tar.lzma", b"whatever")).unwrap();
    assert_eq!(p.compressor, Some(Compressor::Lzma));
    let p = take_payload(&package("data.tar.Z", &[0x1f, 0x9d, 0x90])).unwrap();
    assert_eq!(p.compressor, Some(Compressor::Lzc));
}

#[test]
fn package_without_payload_is_corrupt() {
    assert!(matches!(open(&package("other", b"x")), Err(Error::Corrupt(_))));
}

#[test]
fn lzw_payload_is_handed_on() {
    match open(&package("data.tar.Z", &[0x1f, 0x9d, 0x90])).unwrap() {
        DebOpening::Lzw(bytes) => assert_eq!(bytes, [0x1f, 0x9d, 0x90]),
        DebOpening::Reader(_) => panic!("packed with LZW"),
    }
}

#[test]
fn packages_in_streams_are_not_supported() {
    let src = Source::Stream { inner: Vec::new(), path: None };
    assert!(matches!(DebHandler.open(src, &OpenOptions::default()), Err(Error::Unsupported { .. })));
}
