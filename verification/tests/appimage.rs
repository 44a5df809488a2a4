//! AppImages.
use newtua_core::archive::{Confidence, FormatHandler, FormatId, Source};
use newtua_core::error::Error;
use newtua_core::format::appimage::{appimage_fs_offset, locate, read_at, AppImageHandler, Payload};

fn elf64_prefix(ai_type: u8) -> Vec<u8> {
    let mut h = vec![0u8; 128];
    h[0..4].copy_from_slice(b"\x7fELF");
    h[4] = 2;
    h[5] = 1;
    h[6] = 1;
    h[8] = b'A';
    h[9] = b'I';
    h[10] = ai_type;
    h[16..18].copy_from_slice(&2u16.to_le_bytes());
    h[18..20].copy_from_slice(&0x3eu16.to_le_bytes());
    h[20..24].copy_from_slice(&1u32.to_le_bytes());
    h[40..48].copy_from_slice(&64u64.to_le_bytes());
    h[52..54].copy_from_slice(&64u16.to_le_bytes());
    h[58..60].copy_from_slice(&64u16.to_le_bytes());
    h[60..62].copy_from_slice(&1u16.to_le_bytes());
    h
}

#[test]
fn fs_offset_is_128_for_standard_prefix() {
    let mut bytes = elf64_prefix(2);
    bytes.push(0xAA);
    let f: &[u8] = &bytes;
    assert_eq!(appimage_fs_offset(f).unwrap(), 128);
}

#[test]
fn fs_offset_rejects_non_elf() {
    let f: &[u8] = b"not an elf file at all, padding padding padding padding padding!!";
    let err = appimage_fs_offset(f).unwrap_err();
    assert!(matches!(err, Error::Corrupt(_)), "got {err:?}");
}

#[test]
fn fs_offset_rejects_offset_beyond_eof() {
    let mut bytes = elf64_prefix(2);
    bytes[60..62].copy_from_slice(&0xFFFFu16.to_le_bytes());
    let f: &[u8] = &bytes;
    let err = appimage_fs_offset(f).unwrap_err();
    assert!(matches!(err, Error::Corrupt(_)), "got {err:?}");
}

#[test]
fn read_at_short_read_returns_partial() {
    let f = b"abcdef";
    assert_eq!(read_at(f, 4, 100), b"ef");
    assert!(read_at(f, 999, 4).is_empty());
}

#[test]
fn id_is_appimage() {
    assert_eq!(AppImageHandler.id(), FormatId::AppImage);
}

#[test]
fn probe_type2_magic_is_magic() {
    assert_eq!(
        AppImageHandler.probe(b"\x7fELF\x02\x01\x01\x00AI\x02", None),
        Confidence::magic()
    );
}

#[test]
fn probe_type1_magic_is_magic() {
    assert_eq!(
        AppImageHandler.probe(b"\x7fELF\x02\x01\x01\x00AI\x01", None),
        Confidence::magic()
    );
}

#[test]
fn probe_appimage_extension_is_magic() {
    assert_eq!(
        AppImageHandler.probe(b"\x7fELF\x02\x01\x01\x00\x00\x00\x00", Some("Foo.AppImage")),
        Confidence::magic()
    );
}

#[test]
fn probe_plain_elf_without_ai_is_none() {
    assert_eq!(
        AppImageHandler.probe(b"\x7fELF\x02\x01\x01\x00\x00\x00\x00", Some("a.out")),
        Confidence::none()
    );
}

#[test]
fn probe_foreign_magic_is_none() {
    assert_eq!(
        AppImageHandler.probe(b"PK\x03\x04", Some("a.zip")),
        Confidence::none()
    );
}

#[test]
fn appimage_probe_no_name_no_magic_is_none() {
    assert_eq!(
        AppImageHandler.probe(b"\x00\x00\x00\x00", None),
        Confidence::none()
    );
}

#[test]
fn appimage_open_path_less_source_is_unsupported() {
    let src = Source::Stream {
        inner: Vec::new(),
        path: None,
    };
    let err = AppImageHandler
        .open(src)
        .err()
        .expect("path-less source must be unsupported");
    assert!(matches!(err, Error::Unsupported { .. }), "got {err:?}");
}

#[test]
fn file_system_behind_the_program_is_located() {
    let mut bytes = elf64_prefix(2);
    bytes.extend_from_slice(b"hsqs and more");
    assert!(matches!(locate(&bytes), Ok(Payload::Squashfs(128))));
    let mut bytes = elf64_prefix(1);
    bytes.resize(128 + 0x8001, 0);
    bytes.extend_from_slice(b"CD001....");
    match locate(&bytes).unwrap() {
        Payload::Iso(image) => assert_eq!(image, &bytes[128..]),
        other => panic!("unexpected {other:?}"),
    }
    let src = Source::Seekable { inner: bytes, path: Some(String::from("/tmp/a.AppImage")) };
    assert!(matches!(AppImageHandler.open(src), Ok(Payload::Iso(_))));
}

#[test]
fn program_without_a_file_system_is_corrupt() {
    let mut bytes = elf64_prefix(2);
    bytes.extend_from_slice(b"neither of them");
    assert!(matches!(locate(&bytes), Err(Error::Corrupt(_))));
}
