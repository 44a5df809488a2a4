//! Chrome extensions.
use newtua_core::archive::{Confidence, FormatHandler, Source};
use newtua_core::error::Error;
use newtua_core::format::crx::{carve, crx_zip_offset, CrxHandler};

#[test]
fn probe_cr24_is_magic() {
    assert_eq!(
        CrxHandler.probe(b"Cr24\x03\x00\x00\x00", None),
        Confidence::magic()
    );
}

#[test]
fn probe_zip_is_none() {
    assert_eq!(CrxHandler.probe(b"PK\x03\x04", None), Confidence::none());
}

#[test]
fn offset_crx3() {
    let mut h = b"Cr24".to_vec();
    h.extend_from_slice(&3u32.to_le_bytes());
    h.extend_from_slice(&7u32.to_le_bytes());
    assert_eq!(crx_zip_offset(&h).unwrap(), 12 + 7);
}

#[test]
fn offset_crx2() {
    let mut h = b"Cr24".to_vec();
    h.extend_from_slice(&2u32.to_le_bytes());
    h.extend_from_slice(&12u32.to_le_bytes());
    h.extend_from_slice(&9u32.to_le_bytes());
    assert_eq!(crx_zip_offset(&h).unwrap(), 16 + 12 + 9);
}

#[test]
fn unknown_version_is_unsupported() {
    let mut h = b"Cr24".to_vec();
    h.extend_from_slice(&4u32.to_le_bytes());
    h.extend_from_slice(&0u32.to_le_bytes());
    assert!(matches!(crx_zip_offset(&h), Err(Error::Unsupported { .. })));
}

#[test]
fn short_header_is_corrupt() {
    assert!(matches!(
        crx_zip_offset(b"Cr24\x03\x00"),
        Err(Error::Corrupt(_))
    ));
}

#[test]
fn crx2_short_header_is_corrupt() {
    let mut h = b"Cr24".to_vec();
    h.extend_from_slice(&2u32.to_le_bytes());
    h.extend_from_slice(&[0u8, 0u8]);
    assert!(matches!(crx_zip_offset(&h), Err(Error::Corrupt(_))));
}

fn source(bytes: &[u8]) -> Source {
    Source::Seekable { inner: bytes.to_vec(), path: Some(String::from("/tmp/a.crx")) }
}

#[test]
fn zip_behind_the_header_is_carved() {
    let bytes = b"Cr24\x03\0\0\0\x02\0\0\0hhPK\x03\x04rest";
    assert_eq!(carve(bytes).unwrap(), b"PK\x03\x04rest");
    assert_eq!(CrxHandler.open(source(bytes)).unwrap(), b"PK\x03\x04rest");
    let bytes = b"Cr24\x02\0\0\0\x01\0\0\0\x01\0\0\0ksPK";
    assert_eq!(carve(bytes).unwrap(), b"PK");
}

#[test]
fn extension_that_ends_before_its_zip_is_corrupt() {
    assert!(matches!(carve(b"Cr24\x03\0\0\0\xFF\0\0\0hh"), Err(Error::Corrupt(_))));
    assert!(matches!(carve(b"Cr24"), Err(Error::Corrupt(_))));
    assert!(matches!(carve(b"PK\x03\x04 no extension"), Err(Error::Corrupt(_))));
    let src = Source::Stream { inner: Vec::new(), path: None };
    assert!(matches!(CrxHandler.open(src), Err(Error::Unsupported { .. })));
}
