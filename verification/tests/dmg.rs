//! Apple disk images.
use newtua_core::archive::{Confidence, FormatHandler, FormatId, Source};
use base64::Engine;
use newtua_core::error::Error;
use newtua_core::format::dmg::{
    adc_decode, build_raw_image, decode_base64, decode_chunk, has_koly_trailer, parse_koly, parse_mish, parse_plist_blkx,
    read_koly, read_plist_bytes, DmgHandler, CHUNK_ENTRY_SIZE, ENTRY_ADC, ENTRY_BZIP2, ENTRY_IGNORE, ENTRY_LZFSE,
    ENTRY_LZMA, ENTRY_RAW, ENTRY_TERMINATOR, ENTRY_ZERO_FILL, ENTRY_ZLIB, MISH_CHUNKS_OFFSET,
};
use std::io::Write;

#[test]
fn id_is_dmg() {
    assert_eq!(DmgHandler.id(), FormatId::Dmg);
}

#[test]
fn probe_dmg_extension_is_magic() {
    assert_eq!(DmgHandler.probe(&[], Some("image.dmg")), Confidence::magic());
}

#[test]
fn probe_dmg_extension_case_insensitive() {
    assert_eq!(DmgHandler.probe(&[], Some("Image.DMG")), Confidence::magic());
}

#[test]
fn dmg_probe_other_extension_is_none() {
    assert_eq!(DmgHandler.probe(&[], Some("image.hfs")), Confidence::none());
}

#[test]
fn dmg_probe_no_name_is_none() {
    assert_eq!(DmgHandler.probe(&[], None), Confidence::none());
}

#[test]
fn dmg_open_path_less_source_is_unsupported() {
    let src = Source::Stream {
        inner: Vec::new(),
        path: None,
    };
    let err = DmgHandler
        .open(&src)
        .err()
        .expect("path-less source must be unsupported");
    assert!(matches!(err, Error::Unsupported { .. }), "got {err:?}");
}

fn synthetic_koly(data_fork_offset: u64, xml_offset: u64, xml_length: u64) -> [u8; 512] {
    let mut buf = [0u8; 512];
    buf[0x00..0x04].copy_from_slice(b"koly");
    buf[0x18..0x20].copy_from_slice(&data_fork_offset.to_be_bytes());
    buf[0xD8..0xE0].copy_from_slice(&xml_offset.to_be_bytes());
    buf[0xE0..0xE8].copy_from_slice(&xml_length.to_be_bytes());
    buf
}

#[test]
fn parse_koly_extracts_offsets() {
    let buf = synthetic_koly(0, 11379, 8264);
    let koly = parse_koly(&buf).expect("valid koly");
    assert_eq!(koly.data_fork_offset, 0);
    assert_eq!(koly.xml_offset, 11379);
    assert_eq!(koly.xml_length, 8264);
}

#[test]
fn parse_koly_nonzero_data_fork_offset() {
    let buf = synthetic_koly(4096, 20000, 500);
    let koly = parse_koly(&buf).expect("valid koly");
    assert_eq!(koly.data_fork_offset, 4096);
    assert_eq!(koly.xml_offset, 20000);
    assert_eq!(koly.xml_length, 500);
}

#[test]
fn parse_koly_rejects_bad_magic() {
    let mut buf = synthetic_koly(0, 0, 0);
    buf[0..4].copy_from_slice(b"NOPE");
    let err = parse_koly(&buf).expect_err("must error");
    assert!(matches!(err, Error::UnknownFormat), "got {err:?}");
}

#[test]
fn read_koly_rejects_short_file() {
    let err = read_koly(&[0u8; 100]).expect_err("must error");
    assert!(matches!(err, Error::UnknownFormat), "got {err:?}");
}

#[test]
fn read_koly_reads_trailer_from_end_of_file() {
    let mut f = vec![0xAAu8; 1000];
    let koly_bytes = synthetic_koly(0, 1000, 42);
    f.extend_from_slice(&koly_bytes);
    let koly = read_koly(&f).expect("valid koly");
    assert_eq!(koly.xml_offset, 1000);
    assert_eq!(koly.xml_length, 42);
}

#[test]
fn adc_decodes_literal_run() {
    let input = [0x84u8, b'h', b'e', b'l', b'l', b'o'];
    let out = adc_decode(&input, 5).expect("decode");
    assert_eq!(out, b"hello");
}

#[test]
fn adc_decodes_short_match() {
    let mut input = vec![0x81u8, b'A', b'B'];
    let n = 3u8;
    let offset: u16 = 1;
    let b = ((n - 3) << 2) | ((offset >> 8) as u8 & 0x03);
    input.push(b);
    input.push((offset & 0xFF) as u8);
    let out = adc_decode(&input, 5).expect("decode");
    assert_eq!(out, b"ABABA");
}

#[test]
fn adc_decodes_long_match() {
    let mut input = vec![0x81u8, b'A', b'B'];
    let n: u8 = 4;
    let offset: u16 = 1;
    let b = 0x40 | (n - 4);
    input.push(b);
    input.push((offset >> 8) as u8);
    input.push((offset & 0xFF) as u8);
    let out = adc_decode(&input, 6).expect("decode");
    assert_eq!(out, b"ABABAB");
}

#[test]
fn adc_overlapping_match_expands_pattern() {
    let mut input = vec![0x80u8, b'A'];
    let n = 3u8;
    let offset: u16 = 0;
    let b = ((n - 3) << 2) | ((offset >> 8) as u8 & 0x03);
    input.push(b);
    input.push((offset & 0xFF) as u8);
    let out = adc_decode(&input, 4).expect("decode");
    assert_eq!(out, b"AAAA");
}

#[test]
fn adc_rejects_back_reference_before_start() {
    let input = [0x00u8, 0x00u8];
    let err = adc_decode(&input, 3).expect_err("must error");
    assert!(matches!(err, Error::Corrupt(_)), "got {err:?}");
}

#[test]
fn adc_rejects_literal_run_past_output_bounds() {
    let input = [0x84u8, b'h', b'e', b'l', b'l', b'o'];
    let err = adc_decode(&input, 2).expect_err("must error");
    assert!(matches!(err, Error::Corrupt(_)), "got {err:?}");
}

fn synthetic_mish(
    sector_number: u64,
    sector_count: u64,
    data_offset: u64,
    chunks: &[(u32, u64, u64, u64, u64)],
) -> Vec<u8> {
    let mut buf = vec![0u8; MISH_CHUNKS_OFFSET + chunks.len() * CHUNK_ENTRY_SIZE];
    buf[0x00..0x04].copy_from_slice(b"mish");
    buf[0x04..0x08].copy_from_slice(&1u32.to_be_bytes());
    buf[0x08..0x10].copy_from_slice(&sector_number.to_be_bytes());
    buf[0x10..0x18].copy_from_slice(&sector_count.to_be_bytes());
    buf[0x18..0x20].copy_from_slice(&data_offset.to_be_bytes());
    buf[0xC8..0xCC]
        .copy_from_slice(&(chunks.len() as u32).to_be_bytes());
    for (i, &(entry_type, c_sector, c_count, c_off, c_len)) in chunks.iter().enumerate() {
        let off = MISH_CHUNKS_OFFSET + i * CHUNK_ENTRY_SIZE;
        buf[off..off + 4].copy_from_slice(&entry_type.to_be_bytes());
        buf[off + 8..off + 16].copy_from_slice(&c_sector.to_be_bytes());
        buf[off + 16..off + 24].copy_from_slice(&c_count.to_be_bytes());
        buf[off + 24..off + 32].copy_from_slice(&c_off.to_be_bytes());
        buf[off + 32..off + 40].copy_from_slice(&c_len.to_be_bytes());
    }
    buf
}

#[test]
fn parse_mish_extracts_header_and_chunks() {
    let bytes = synthetic_mish(
        40,
        3720,
        0,
        &[
            (0x80000005, 0, 2010, 6060, 5319),
            (0x00000000, 2010, 38, 0, 0),
            (0xFFFFFFFF, 2048, 0, 0, 0),
        ],
    );
    let mish = parse_mish(&bytes).expect("valid mish");
    assert_eq!(mish.sector_number, 40);
    assert_eq!(mish.sector_count, 3720);
    assert_eq!(mish.data_offset, 0);
    assert_eq!(mish.chunks.len(), 3);
    assert_eq!(mish.chunks[0].entry_type, 0x80000005);
    assert_eq!(mish.chunks[0].sector_count, 2010);
    assert_eq!(mish.chunks[0].compressed_offset, 6060);
    assert_eq!(mish.chunks[0].compressed_length, 5319);
    assert_eq!(mish.chunks[2].entry_type, 0xFFFFFFFF);
}

#[test]
fn parse_mish_rejects_bad_signature() {
    let mut bytes = synthetic_mish(0, 0, 0, &[]);
    bytes[0..4].copy_from_slice(b"NOPE");
    let err = parse_mish(&bytes).expect_err("must error");
    assert!(matches!(err, Error::Corrupt(_)), "got {err:?}");
}

#[test]
fn parse_mish_rejects_truncated_header() {
    let bytes = vec![0u8; 10];
    let err = parse_mish(&bytes).expect_err("must error");
    assert!(matches!(err, Error::Corrupt(_)), "got {err:?}");
}

#[test]
fn parse_mish_rejects_truncated_chunk_table() {
    let mut bytes = synthetic_mish(0, 0, 0, &[(0x1, 0, 1, 0, 512)]);
    bytes.truncate(bytes.len() - 5);
    let err = parse_mish(&bytes).expect_err("must error");
    assert!(matches!(err, Error::Corrupt(_)), "got {err:?}");
}

#[test]
fn decode_base64_known_vector() {
    assert_eq!(decode_base64("bWlzaA==").expect("decode"), b"mish");
}

#[test]
fn decode_base64_ignores_embedded_newlines() {
    assert_eq!(decode_base64("bWlz\naA==\n").expect("decode"), b"mish");
}

#[test]
fn decode_base64_rejects_invalid_input() {
    assert!(decode_base64("not valid base64!!!").is_err());
}

fn plist_with_one_blkx(cfname: &str, mish_b64: &str) -> Vec<u8> {
    format!(
        r#"<?xml version="1.0" encoding="UTF-8"?>
<plist version="1.0">
<dict>
<key>resource-fork</key>
<dict>
    <key>blkx</key>
    <array>
        <dict>
            <key>Attributes</key><string>0x0050</string>
            <key>CFName</key><string>{cfname}</string>
            <key>Data</key><data>{mish_b64}</data>
            <key>ID</key><string>-1</string>
        </dict>
    </array>
</dict>
</dict>
</plist>"#
    )
    .into_bytes()
}

#[test]
fn parse_plist_blkx_extracts_mish() {
    let mish = synthetic_mish(0, 1, 0, &[(0x1, 0, 1, 0, 512)]);
    let b64 = base64::engine::general_purpose::STANDARD.encode(&mish);
    let xml = plist_with_one_blkx("disk image (Apple_HFS : 4)", &b64);

    let entries = parse_plist_blkx(&xml).expect("parse plist");
    assert_eq!(entries.len(), 1);
    assert_eq!(entries[0], mish);
}

#[test]
fn parse_plist_blkx_rejects_missing_blkx() {
    let xml = br#"<?xml version="1.0"?><plist><dict><key>other</key><dict/></dict></plist>"#;
    let err = parse_plist_blkx(xml).expect_err("must error");
    assert!(matches!(err, Error::Corrupt(_)), "got {err:?}");
}

#[test]
fn parse_plist_blkx_rejects_malformed_xml() {
    let xml = b"<plist><dict>not closed";
    let err = parse_plist_blkx(xml).expect_err("must error");
    assert!(matches!(err, Error::Corrupt(_)), "got {err:?}");
}

#[test]
fn parse_plist_blkx_accepts_real_apple_doctype() {
    let mish = synthetic_mish(0, 1, 0, &[(0x1, 0, 1, 0, 512)]);
    let b64 = base64::engine::general_purpose::STANDARD.encode(&mish);
    let xml = format!(
        r#"<?xml version="1.0" encoding="UTF-8"?>
<!DOCTYPE plist PUBLIC "-//Apple//DTD PLIST 1.0//EN" "http://www.apple.com/DTDs/PropertyList-1.0.dtd">
<plist version="1.0">
<dict>
<key>resource-fork</key>
<dict>
    <key>blkx</key>
    <array>
        <dict>
            <key>CFName</key><string>disk image (Apple_HFS : 4)</string>
            <key>Data</key><data>{b64}</data>
        </dict>
    </array>
</dict>
</dict>
</plist>"#
    )
    .into_bytes();

    let entries = parse_plist_blkx(&xml).expect("parse plist with DOCTYPE");
    assert_eq!(entries.len(), 1);
    assert_eq!(entries[0], mish);
}

#[test]
fn decode_chunk_raw_copies_bytes() {
    let out = decode_chunk(ENTRY_RAW, b"hello dmg\n", 10).expect("decode");
    assert_eq!(out, b"hello dmg\n");
}

#[test]
fn decode_chunk_zlib_known_vector() {
    let mut enc = flate2::write::ZlibEncoder::new(Vec::new(), flate2::Compression::default());
    enc.write_all(b"hello dmg zlib chunk").unwrap();
    let comp = enc.finish().unwrap();
    let out = decode_chunk(ENTRY_ZLIB, &comp, 20).expect("decode");
    assert_eq!(out, b"hello dmg zlib chunk");
}

#[test]
fn decode_chunk_bzip2_known_vector() {
    let mut enc = bzip2::write::BzEncoder::new(Vec::new(), bzip2::Compression::default());
    enc.write_all(b"hello dmg bzip2 chunk").unwrap();
    let comp = enc.finish().unwrap();
    let out = decode_chunk(ENTRY_BZIP2, &comp, 21).expect("decode");
    assert_eq!(out, b"hello dmg bzip2 chunk");
}

#[test]
fn decode_chunk_xz_known_vector() {
    let mut enc = xz2::write::XzEncoder::new(Vec::new(), 6);
    enc.write_all(b"hello dmg xz chunk").unwrap();
    let comp = enc.finish().unwrap();
    let out = decode_chunk(ENTRY_LZMA, &comp, 18).expect("decode");
    assert_eq!(out, b"hello dmg xz chunk");
}

#[test]
fn decode_chunk_unknown_entry_type_is_corrupt() {
    let err = decode_chunk(0x1234_5678, b"", 0).expect_err("must error");
    assert!(matches!(err, Error::Corrupt(_)), "got {err:?}");
}

#[test]
fn decode_chunk_length_mismatch_is_corrupt() {
    let err = decode_chunk(ENTRY_RAW, b"abc", 10).expect_err("must error");
    assert!(matches!(err, Error::Corrupt(_)), "got {err:?}");
}

fn image_of(chunks: &[(u32, u64, u64, Vec<u8>)]) -> Vec<u8> {
    let mut data = vec![0xA5u8; 16];
    let mut table = Vec::new();
    for (kind, sector, count, bytes) in chunks {
        table.push((*kind, *sector, *count, data.len() as u64, bytes.len() as u64));
        data.extend_from_slice(bytes);
    }
    let total = chunks.iter().map(|c| c.1 + c.2).max().unwrap_or(0);
    let mish = synthetic_mish(0, total, 0, &table);
    let b64 = base64::engine::general_purpose::STANDARD.encode(mish);
    let plist = plist_with_one_blkx("whole", &b64);
    let koly = synthetic_koly(0, data.len() as u64, plist.len() as u64);
    data.extend_from_slice(&plist);
    data.extend_from_slice(&koly);
    data
}

fn sector(x: u8) -> Vec<u8> {
    vec![x; 512]
}

fn zlib(bytes: &[u8]) -> Vec<u8> {
    let mut e = flate2::write::ZlibEncoder::new(Vec::new(), flate2::Compression::default());
    e.write_all(bytes).unwrap();
    e.finish().unwrap()
}

fn lzfse(bytes: &[u8]) -> Vec<u8> {
    let mut out = Vec::new();
    lzfse_rust::encode_bytes(bytes, &mut out).unwrap();
    out
}

#[test]
fn a_raw_image_is_put_together_from_its_chunks() {
    let mut adc = vec![0x80 | 0x7F];
    adc.extend_from_slice(&vec![9u8; 128]);
    let adc: Vec<u8> = adc.iter().copied().cycle().take(4 * 129).collect();
    let image = image_of(&[
        (ENTRY_RAW, 0, 1, sector(1)),
        (ENTRY_ZERO_FILL, 1, 1, Vec::new()),
        (ENTRY_ZLIB, 2, 1, zlib(&sector(3))),
        (ENTRY_LZFSE, 3, 2, lzfse(&vec![4u8; 1024])),
        (ENTRY_ADC, 5, 1, adc),
        (ENTRY_IGNORE, 6, 1, Vec::new()),
        (ENTRY_TERMINATOR, 7, 0, Vec::new()),
    ]);
    assert!(has_koly_trailer(&image));
    let koly = read_koly(&image).unwrap();
    assert!(read_plist_bytes(&image, &koly).unwrap().starts_with(b"<?xml"));
    let raw = build_raw_image(&image, &koly).unwrap();
    assert_eq!(raw.len, 7 * 512);
    let bytes = raw.to_bytes();
    let firsts: Vec<u8> = bytes.chunks(512).map(|s| s[0]).collect();
    assert_eq!(firsts, vec![1, 0, 3, 4, 4, 9, 0]);
    assert!(bytes.chunks(512).all(|s| s.iter().all(|b| *b == s[0])));
}

#[test]
fn a_disk_image_must_come_from_a_file_and_have_a_trailer() {
    let image = image_of(&[(ENTRY_RAW, 0, 1, sector(1))]);
    let src = Source::Seekable { inner: image.clone(), path: Some("a.dmg".to_string()) };
    assert_eq!(DmgHandler.open(&src).unwrap().len, 512);
    let cut = Source::Seekable { inner: image[..image.len() - 1].to_vec(), path: Some("a.dmg".to_string()) };
    assert!(matches!(DmgHandler.open(&cut), Err(Error::UnknownFormat)));
    assert!(!has_koly_trailer(&image[..image.len() - 1]));
    assert!(!has_koly_trailer(b"koly"));
}

#[test]
fn chunks_outside_the_file_are_corrupt() {
    let mut image = image_of(&[(ENTRY_RAW, 0, 1, sector(1))]);
    let koly = read_koly(&image).unwrap();
    image.truncate(300);
    assert!(matches!(build_raw_image(&image, &koly), Err(Error::Corrupt(_))));
}

#[test]
fn a_chunk_may_not_be_lzfse_only_by_name() {
    assert!(matches!(decode_chunk(ENTRY_LZFSE, b"not lzfse", 512), Err(Error::Corrupt(_))));
}
