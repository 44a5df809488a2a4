//! RPM packages.
use newtua_core::archive::{ArchiveReader, Confidence, FormatHandler, FormatId, OpenOptions, Source};
use newtua_core::decompress::Compressor;
use newtua_core::error::Error;
use newtua_core::detect::TempBackedReader;
use newtua_core::format::cpio::CpioReader;
use newtua_core::format::rpm::{check_headers, map_payload_compressor, unpack, Package, RpmHandler, MAGIC};

#[test]
fn id_is_rpm() {
    assert_eq!(RpmHandler.id(), FormatId::Rpm);
}

#[test]
fn probe_positive_rpm_magic() {
    let header = &[0xED, 0xAB, 0xEE, 0xDB, 0x03, 0x00, 0x00, 0x01];
    assert_eq!(RpmHandler.probe(header, None), Confidence::magic());
}

#[test]
fn rpm_probe_negative_zip() {
    assert_eq!(RpmHandler.probe(b"PK\x03\x04....", None), Confidence::none());
}

#[test]
fn probe_negative_short() {
    assert_eq!(RpmHandler.probe(b"\xED\xAB", None), Confidence::none());
}

#[test]
fn map_compressor_gzip() {
    assert_eq!(
        map_payload_compressor("gzip").unwrap(),
        Some(Compressor::Gzip)
    );
}

#[test]
fn map_compressor_xz() {
    assert_eq!(map_payload_compressor("xz").unwrap(), Some(Compressor::Xz));
}

#[test]
fn map_compressor_zstd() {
    assert_eq!(
        map_payload_compressor("zstd").unwrap(),
        Some(Compressor::Zstd)
    );
}

#[test]
fn map_compressor_lzma() {
    assert_eq!(
        map_payload_compressor("lzma").unwrap(),
        Some(Compressor::Lzma)
    );
}

#[test]
fn map_compressor_bzip2() {
    assert_eq!(
        map_payload_compressor("bzip2").unwrap(),
        Some(Compressor::Bzip2)
    );
}

#[test]
fn map_compressor_none_empty() {
    assert_eq!(map_payload_compressor("").unwrap(), None);
    assert_eq!(map_payload_compressor("none").unwrap(), None);
}

#[test]
fn map_compressor_unknown_is_unsupported() {
    let result = map_payload_compressor("snappy");
    assert!(
        matches!(
            result,
            Err(Error::Unsupported { ref format, ref feature })
            if format == "rpm" && feature.contains("snappy")
        ),
        "expected Unsupported for 'snappy', got {:?}",
        result
    );
}

fn header(strings: &[(u32, &str)]) -> Vec<u8> {
    let mut store = Vec::new();
    let mut index = Vec::new();
    for (tag, s) in strings {
        for word in [*tag, 6, store.len() as u32, 1] {
            index.extend_from_slice(&word.to_be_bytes());
        }
        store.extend_from_slice(s.as_bytes());
        store.push(0);
    }
    let mut out = vec![0x8E, 0xAD, 0xE8, 1, 0, 0, 0, 0];
    out.extend_from_slice(&(strings.len() as u32).to_be_bytes());
    out.extend_from_slice(&(store.len() as u32).to_be_bytes());
    out.extend_from_slice(&index);
    out.extend_from_slice(&store);
    out
}

fn package(strings: &[(u32, &str)], payload: &[u8]) -> Vec<u8> {
    let mut out = vec![0u8; 96];
    out[..4].copy_from_slice(&MAGIC);
    out[4] = 3;
    out.extend_from_slice(&header(&[]));
    out.extend_from_slice(&header(strings));
    out.extend_from_slice(payload);
    out
}

fn cpio() -> Vec<u8> {
    let w = cpio::newc::Builder::new("bin/tool").mode(0o100755).write(Vec::new(), 4);
    let mut w = w;
    std::io::Write::write_all(&mut w, b"tool").unwrap();
    cpio::newc::trailer(w.finish().unwrap()).unwrap()
}

fn gz(data: &[u8]) -> Vec<u8> {
    let mut e = flate2::write::GzEncoder::new(Vec::new(), flate2::Compression::default());
    std::io::Write::write_all(&mut e, data).unwrap();
    e.finish().unwrap()
}

const FORMAT: u32 = 1124;
const COMPRESSOR: u32 = 1125;

fn open(bytes: &[u8]) -> Result<TempBackedReader<CpioReader>, Error> {
    assert!(check_headers(bytes));
    let src = Source::Seekable { inner: bytes.to_vec(), path: Some(String::from("/tmp/a.rpm")) };
    RpmHandler.open(src, &OpenOptions::default())
}

#[test]
fn rpm_payload_is_listed_and_read() {
    let r = open(&package(&[(FORMAT, "cpio"), (COMPRESSOR, "gzip")], &gz(&cpio()))).unwrap();
    assert_eq!(r.format(), FormatId::Rpm);
    assert_eq!(r.entries()[0].path, "bin/tool");
    assert_eq!(r.read_entry(0).unwrap(), b"tool");
    let r = open(&package(&[], &cpio())).unwrap();
    assert_eq!(r.read_entry(0).unwrap(), b"tool");
}

#[test]
fn other_payloads_are_not_supported() {
    let r = open(&package(&[(FORMAT, "drpm")], b""));
    assert!(matches!(r, Err(Error::Unsupported { .. })));
    let r = open(&package(&[(COMPRESSOR, "snappy")], b""));
    assert!(matches!(r, Err(Error::Unsupported { .. })));
    let src = Source::Stream { inner: Vec::new(), path: None };
    assert!(matches!(RpmHandler.open(src, &OpenOptions::default()), Err(Error::Unsupported { .. })));
    let src = Source::Seekable { inner: Vec::new(), path: None };
    assert!(matches!(RpmHandler.open(src, &OpenOptions::default()), Err(Error::Unsupported { .. })));
}

#[test]
fn file_that_is_no_package_is_corrupt() {
    assert!(matches!(open(b"short"), Err(Error::Corrupt(_))));
    let mut bytes = package(&[], b"");
    bytes[96] = 0;
    assert!(matches!(open(&bytes), Err(Error::Corrupt(_))));
}

#[test]
fn damaged_payload_is_an_input_failure() {
    let r = open(&package(&[(COMPRESSOR, "gzip")], b"no gzip"));
    assert!(matches!(r, Err(Error::Io(_))));
}

#[test]
fn unsound_headers_are_told() {
    let mut bytes = package(&[(FORMAT, "cpio")], b"");
    assert!(check_headers(&bytes));
    bytes[112 + 16 + 8] = 1;
    assert!(!check_headers(&bytes));
    let mut bytes = package(&[], b"");
    bytes[104..108].copy_from_slice(&[0xFF; 4]);
    assert!(!check_headers(&bytes));
    assert!(check_headers(b"anything else"));
}

#[test]
fn payload_is_unpacked_as_the_package_says() {
    let p = Package { payload_format: None, payload_compressor: Some(String::from("none")), payload: b"raw".to_vec() };
    assert_eq!(unpack(p).unwrap(), b"raw");
    let p = Package { payload_format: None, payload_compressor: Some(String::from("gzip")), payload: gz(b"raw") };
    assert_eq!(unpack(p).unwrap(), b"raw");
}
