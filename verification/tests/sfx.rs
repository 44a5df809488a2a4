//! Self-extracting programs.
use newtua_core::archive::{Confidence, FormatHandler, FormatId, Source};
use newtua_core::error::Error;
use newtua_core::format::sfx::{
    carve, find_archive_magic, macho_overlay_offset, pe_overlay_offset, SfxHandler, MACHO_32_BE, MACHO_32_LE, MACHO_64_BE, MACHO_64_LE, MACHO_FAT,
};

#[test]
fn id_is_sfx() {
    assert_eq!(SfxHandler.id(), FormatId::Sfx);
}

#[test]
fn probe_mz_returns_fifty() {
    let header = b"MZ\x90\x00";
    let c = SfxHandler.probe(header, None);
    assert!(c > Confidence::none(), "expected > NONE, got {c:?}");
    assert!(c < Confidence::magic(), "expected < MAGIC, got {c:?}");
    assert_eq!(c, Confidence(50));
}

#[test]
fn probe_non_mz_returns_none() {
    let header = b"PK\x03\x04";
    let c = SfxHandler.probe(header, None);
    assert_eq!(c, Confidence::none());
}

#[test]
fn probe_every_macho_flavour_returns_fifty() {
    for magic in [MACHO_64_LE, MACHO_32_LE, MACHO_64_BE, MACHO_32_BE, MACHO_FAT] {
        let mut header = magic.to_vec();
        header.extend_from_slice(&[0u8; 28]);
        assert_eq!(
            SfxHandler.probe(&header, None),
            Confidence(50),
            "magic {magic:02X?} should be claimed as an executable wrapper"
        );
    }
}

#[test]
fn probe_fat64_magic_is_not_claimed() {
    let header = [0xCA, 0xFE, 0xBA, 0xBF, 0, 0, 0, 1];
    assert_eq!(SfxHandler.probe(&header, None), Confidence::none());
}

#[test]
fn macho_overlay_offset_of_garbage_is_zero() {
    assert_eq!(macho_overlay_offset(&[0xCF, 0xFA, 0xED, 0xFE, 0, 0, 0]), 0);
    assert_eq!(macho_overlay_offset(b""), 0);
}

#[test]
fn probe_empty_returns_none() {
    let c = SfxHandler.probe(b"", None);
    assert_eq!(c, Confidence::none());
}

fn program() -> Vec<u8> {
    let mut p = vec![0u8; 64];
    p[..2].copy_from_slice(b"MZ");
    p[0x3C] = 64;
    p.extend_from_slice(b"PE\0\0");
    let mut coff = vec![0u8; 20];
    coff[..2].copy_from_slice(&0x8664u16.to_le_bytes());
    coff[2] = 1;
    p.extend_from_slice(&coff);
    let mut section = vec![0u8; 40];
    section[..5].copy_from_slice(b".text");
    section[8] = 16;
    section[16..20].copy_from_slice(&16u32.to_le_bytes());
    section[20..24].copy_from_slice(&256u32.to_le_bytes());
    p.extend_from_slice(&section);
    p.resize(256, 0);
    p.extend_from_slice(b"PK\x03\x04 in the code");
    p.truncate(272);
    p
}

fn macho() -> Vec<u8> {
    let mut m = Vec::new();
    for word in [0xFEED_FACFu32, 0x0100_0007, 3, 2, 1, 72, 0, 0] {
        m.extend_from_slice(&word.to_le_bytes());
    }
    m.extend_from_slice(&0x19u32.to_le_bytes());
    m.extend_from_slice(&72u32.to_le_bytes());
    m.extend_from_slice(b"__TEXT\0\0\0\0\0\0\0\0\0\0");
    for word in [0u64, 0x1000, 0, 120] {
        m.extend_from_slice(&word.to_le_bytes());
    }
    m.extend_from_slice(&[0u8; 16]);
    m.resize(120, 0x90);
    m
}

#[test]
fn end_of_a_program_is_behind_its_last_section() {
    assert_eq!(pe_overlay_offset(&program()), 272);
    assert_eq!(pe_overlay_offset(b"MZ and nothing"), 0);
    assert_eq!(macho_overlay_offset(&macho()), 120);
}

#[test]
fn archive_behind_a_program_is_carved() {
    let mut bytes = program();
    bytes.extend_from_slice(b"junk7z\xBC\xAF\x27\x1Cthe rest");
    assert_eq!(carve(&bytes).unwrap(), b"7z\xBC\xAF\x27\x1Cthe rest");
    let src = Source::Seekable { inner: bytes, path: Some(String::from("/tmp/a.exe")) };
    assert_eq!(SfxHandler.open(src).unwrap(), b"7z\xBC\xAF\x27\x1Cthe rest");
    let mut bytes = macho();
    bytes.extend_from_slice(b"Rar!\x1a\x07\x00 tail");
    assert_eq!(carve(&bytes).unwrap(), b"Rar!\x1a\x07\x00 tail");
}

#[test]
fn program_without_an_archive_is_unknown() {
    assert!(matches!(carve(&program()), Err(Error::UnknownFormat)));
    let src = Source::Stream { inner: Vec::new(), path: None };
    assert!(matches!(SfxHandler.open(src), Err(Error::Unsupported { .. })));
    assert_eq!(find_archive_magic(b"....MSCF...."), Some(4));
    assert_eq!(find_archive_magic(b"........"), None);
}
