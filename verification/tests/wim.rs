//! Windows imaging files.
use newtua_core::archive::{ArchiveReader, Confidence, FormatHandler, FormatId, OpenOptions, Source};
use newtua_core::datetime::{filetime_to_systime, Timestamp};
use newtua_core::error::Error;
use newtua_core::format::wim::{
    build_dir_tree, check_chunk_size, decode_chunked_resource, decode_lzx_chunk, decode_one_chunk, decode_utf16le, decode_xpress_chunk,
    parse_dirent, parse_lookup_table, read_resource, security_block_len, Compressor, LookupEntry, ResourceHeader, WimHandler,
    WimHeader, DIRENTRY_FIXED_LEN, FILE_ATTRIBUTE_DIRECTORY, FLAG_COMPRESSED, FLAG_COMPRESS_LZMS, FLAG_COMPRESS_LZX,
    FLAG_COMPRESS_XPRESS, FLAG_HEADER_COMPRESSION, FLAG_METADATA, FLAG_SPANNED, HEADER_LEN, MAGIC,
};

fn at(secs: i128) -> Timestamp {
    Timestamp { secs, nanos: 0 }
}

fn header_bytes(flags: u32, chunk_size: u32, part_number: u16, total_parts: u16) -> Vec<u8> {
    let mut b = vec![0u8; HEADER_LEN];
    b[0..8].copy_from_slice(&MAGIC);
    b[8..12].copy_from_slice(&(HEADER_LEN as u32).to_le_bytes());
    b[12..16].copy_from_slice(&0x0001_0D00u32.to_le_bytes());
    b[16..20].copy_from_slice(&flags.to_le_bytes());
    b[20..24].copy_from_slice(&chunk_size.to_le_bytes());
    b[40..42].copy_from_slice(&part_number.to_le_bytes());
    b[42..44].copy_from_slice(&total_parts.to_le_bytes());
    b[44..48].copy_from_slice(&1u32.to_le_bytes());
    b
}

#[test]
fn header_parses_magic_and_chunk_size() {
    let b = header_bytes(FLAG_HEADER_COMPRESSION | FLAG_COMPRESS_XPRESS, 32768, 1, 1);
    let h = WimHeader::parse(&b).unwrap();
    assert_eq!(h.chunk_size, 32768);
    assert_eq!(h.compressor, Some(Compressor::Xpress));
    assert!(!h.spanned());
}

#[test]
fn header_rejects_bad_magic() {
    let mut b = header_bytes(0, 0, 1, 1);
    b[0] = b'X';
    let err = WimHeader::parse(&b).unwrap_err();
    assert!(matches!(err, Error::Corrupt(_)), "got {err:?}");
}

#[test]
fn header_rejects_truncated_input() {
    let err = WimHeader::parse(&[0u8; 32]).unwrap_err();
    assert!(matches!(err, Error::Corrupt(_)), "got {err:?}");
}

#[test]
fn header_no_compression_flag_is_uncompressed() {
    let b = header_bytes(0, 0, 1, 1);
    let h = WimHeader::parse(&b).unwrap();
    assert_eq!(h.compressor, None);
}

#[test]
fn header_detects_lzx_and_lzms() {
    let lzx = header_bytes(FLAG_HEADER_COMPRESSION | FLAG_COMPRESS_LZX, 32768, 1, 1);
    assert_eq!(
        WimHeader::parse(&lzx).unwrap().compressor,
        Some(Compressor::Lzx)
    );
    let lzms = header_bytes(FLAG_HEADER_COMPRESSION | FLAG_COMPRESS_LZMS, 32768, 1, 1);
    assert_eq!(
        WimHeader::parse(&lzms).unwrap().compressor,
        Some(Compressor::Lzms)
    );
}

#[test]
fn header_ambiguous_compression_flags_is_corrupt() {
    let b = header_bytes(
        FLAG_HEADER_COMPRESSION | FLAG_COMPRESS_XPRESS | FLAG_COMPRESS_LZX,
        32768,
        1,
        1,
    );
    let err = WimHeader::parse(&b).unwrap_err();
    assert!(matches!(err, Error::Corrupt(_)), "got {err:?}");
}

#[test]
fn header_spanned_via_flag_or_total_parts() {
    let by_flag = header_bytes(FLAG_SPANNED, 0, 1, 1);
    assert!(WimHeader::parse(&by_flag).unwrap().spanned());
    let by_count = header_bytes(0, 0, 1, 3);
    assert!(WimHeader::parse(&by_count).unwrap().spanned());
    let neither = header_bytes(0, 0, 1, 1);
    assert!(!WimHeader::parse(&neither).unwrap().spanned());
}

fn reshdr_bytes(size_on_disk: u64, flags: u8, offset: u64, original_size: u64) -> Vec<u8> {
    let raw = size_on_disk | ((flags as u64) << 56);
    let mut b = Vec::with_capacity(24);
    b.extend_from_slice(&raw.to_le_bytes());
    b.extend_from_slice(&offset.to_le_bytes());
    b.extend_from_slice(&original_size.to_le_bytes());
    b
}

#[test]
fn resource_header_parses_size_flags_offset_original_size() {
    let b = reshdr_bytes(1234, 0x04, 5000, 9999);
    let rh = ResourceHeader::parse(&b).unwrap();
    assert_eq!(rh.size_on_disk, 1234);
    assert_eq!(rh.flags, 0x04);
    assert_eq!(rh.offset, 5000);
    assert_eq!(rh.original_size, 9999);
    assert!(rh.is_compressed());
    assert!(!rh.is_metadata());
}

#[test]
fn resource_header_metadata_flag() {
    let b = reshdr_bytes(1, 0x02, 0, 1);
    let rh = ResourceHeader::parse(&b).unwrap();
    assert!(rh.is_metadata());
    assert!(!rh.is_compressed());
}

#[test]
fn resource_header_size_on_disk_ignores_flag_byte() {
    let raw: u64 = 0x0400_0000_0000_1234;
    let mut b = Vec::with_capacity(24);
    b.extend_from_slice(&raw.to_le_bytes());
    b.extend_from_slice(&0u64.to_le_bytes());
    b.extend_from_slice(&0u64.to_le_bytes());
    let rh = ResourceHeader::parse(&b).unwrap();
    assert_eq!(rh.size_on_disk, 0x1234);
    assert_eq!(rh.flags, 0x04);
}

#[test]
fn resource_header_rejects_truncated_input() {
    let err = ResourceHeader::parse(&[0u8; 10]).unwrap_err();
    assert!(matches!(err, Error::Corrupt(_)), "got {err:?}");
}

#[test]
fn lookup_table_parses_entries() {
    let mut bytes = Vec::new();
    bytes.extend_from_slice(&reshdr_bytes(100, 0x04, 1000, 200));
    bytes.extend_from_slice(&0u16.to_le_bytes());
    bytes.extend_from_slice(&1u32.to_le_bytes());
    bytes.extend_from_slice(&[0xAAu8; 20]);
    bytes.extend_from_slice(&reshdr_bytes(50, 0x02, 2000, 80));
    bytes.extend_from_slice(&0u16.to_le_bytes());
    bytes.extend_from_slice(&1u32.to_le_bytes());
    bytes.extend_from_slice(&[0xBBu8; 20]);

    let entries = parse_lookup_table(&bytes).unwrap();
    assert_eq!(entries.len(), 2);
    assert_eq!(entries[0].hash, [0xAAu8; 20]);
    assert!(!entries[0].resource.is_metadata());
    assert_eq!(entries[1].hash, [0xBBu8; 20]);
    assert!(entries[1].resource.is_metadata());
}

#[test]
fn lookup_table_rejects_size_not_multiple_of_50() {
    let err = parse_lookup_table(&[0u8; 49]).unwrap_err();
    assert!(matches!(err, Error::Corrupt(_)), "got {err:?}");
}

#[test]
fn lookup_table_empty_is_empty() {
    assert!(parse_lookup_table(&[]).unwrap().is_empty());
}

#[test]
fn id_is_wim() {
    assert_eq!(WimHandler.id(), FormatId::Wim);
}

#[test]
fn wim_probe_magic_is_magic() {
    assert_eq!(
        WimHandler.probe(&MAGIC, Some("install.bin")),
        Confidence::magic()
    );
}

#[test]
fn probe_wim_esd_swm_extensions_are_magic() {
    for name in ["install.wim", "IMAGE.ESD", "part.swm"] {
        assert_eq!(
            WimHandler.probe(b"\x00\x00\x00\x00", Some(name)),
            Confidence::magic(),
            "extension {name} should probe MAGIC"
        );
    }
}

#[test]
fn probe_foreign_magic_no_extension_is_none() {
    assert_eq!(
        WimHandler.probe(b"PK\x03\x04", Some("a.zip")),
        Confidence::none()
    );
}

#[test]
fn wim_probe_no_name_no_magic_is_none() {
    assert_eq!(
        WimHandler.probe(b"\x00\x00\x00\x00", None),
        Confidence::none()
    );
}

#[test]
fn decode_one_chunk_stored_when_sizes_match() {
    let data = b"not actually compressed".to_vec();
    let out = decode_one_chunk(&data, data.len(), Compressor::Xpress).unwrap();
    assert_eq!(out, data);
}

#[test]
fn decode_chunked_resource_single_chunk_stored() {
    let payload = b"hello wim\n".to_vec();
    let out =
        decode_chunked_resource(&payload, 32768, payload.len() as u64, Compressor::Xpress).unwrap();
    assert_eq!(out, payload);
}

#[test]
fn decode_chunked_resource_empty_is_empty() {
    let out = decode_chunked_resource(&[], 32768, 0, Compressor::Xpress).unwrap();
    assert!(out.is_empty());
}

#[test]
fn decode_chunked_resource_multi_chunk_stored() {
    let chunk0 = b"ABCD";
    let chunk1 = b"WXYZ";
    let mut raw = Vec::new();
    raw.extend_from_slice(&(chunk0.len() as u32).to_le_bytes());
    raw.extend_from_slice(chunk0);
    raw.extend_from_slice(chunk1);

    let out = decode_chunked_resource(&raw, 4, 8, Compressor::Xpress).unwrap();
    assert_eq!(out, b"ABCDWXYZ");
}

#[test]
fn decode_chunked_resource_last_chunk_shorter() {
    let chunk0 = b"ABCD";
    let chunk1 = b"XY";
    let mut raw = Vec::new();
    raw.extend_from_slice(&(chunk0.len() as u32).to_le_bytes());
    raw.extend_from_slice(chunk0);
    raw.extend_from_slice(chunk1);

    let out = decode_chunked_resource(&raw, 4, 6, Compressor::Xpress).unwrap();
    assert_eq!(out, b"ABCDXY");
}

#[test]
fn decode_chunked_resource_rejects_short_offset_table() {
    let raw = vec![0u8; 4];
    let err = decode_chunked_resource(&raw, 4, 12, Compressor::Xpress).unwrap_err();
    assert!(matches!(err, Error::Corrupt(_)), "got {err:?}");
}

#[test]
fn decode_chunked_resource_rejects_bad_offset_ordering() {
    let mut raw = Vec::new();
    raw.extend_from_slice(&1_000_000u32.to_le_bytes());
    raw.extend_from_slice(b"AB");
    let err = decode_chunked_resource(&raw, 4, 8, Compressor::Xpress).unwrap_err();
    assert!(matches!(err, Error::Corrupt(_)), "got {err:?}");
}

#[test]
fn decode_lzx_chunk_delegates_to_newtua_mscompress() {
    let word0 = 0b0110_0000_0000_0000u16;
    let word1 = 0b0011_0000_0000_0000u16;
    let mut input = word0.to_le_bytes().to_vec();
    input.extend_from_slice(&word1.to_le_bytes());
    input.extend_from_slice(&1u32.to_le_bytes());
    input.extend_from_slice(&1u32.to_le_bytes());
    input.extend_from_slice(&1u32.to_le_bytes());
    input.extend_from_slice(b"abc");

    let decoded = decode_lzx_chunk(&input, 3).unwrap();
    assert_eq!(decoded, b"abc");
}

#[test]
fn decode_lzx_chunk_maps_decoder_errors_to_corrupt() {
    let err = decode_lzx_chunk(&[], 2).unwrap_err();
    assert!(matches!(err, Error::Corrupt(_)), "got {err:?}");
}

#[test]
fn decode_one_chunk_lzx_delegates_to_newtua_mscompress() {
    let word0 = 0b0110_0000_0000_0000u16;
    let word1 = 0b0011_0000_0000_0000u16;
    let mut input = word0.to_le_bytes().to_vec();
    input.extend_from_slice(&word1.to_le_bytes());
    input.extend_from_slice(&1u32.to_le_bytes());
    input.extend_from_slice(&1u32.to_le_bytes());
    input.extend_from_slice(&1u32.to_le_bytes());
    input.extend_from_slice(b"abc");

    let decoded = decode_one_chunk(&input, 3, Compressor::Lzx).unwrap();
    assert_eq!(decoded, b"abc");
}

#[test]
fn decode_one_chunk_lzms_is_unsupported() {
    let err = decode_one_chunk(b"compressed-ish", 100, Compressor::Lzms).unwrap_err();
    match err {
        Error::Unsupported { format, feature } => {
            assert_eq!(format, "wim");
            assert!(feature.to_ascii_lowercase().contains("lzms"));
        }
        other => panic!("expected Unsupported, got {other:?}"),
    }
}

#[test]
fn decode_xpress_chunk_delegates_to_newtua_mscompress() {
    let mut lens = [0u8; 512];
    lens[0x41] = 1;
    lens[0x42] = 1;
    let mut packed = vec![0u8; 256];
    for k in 0..256 {
        packed[k] = (lens[2 * k] & 0x0F) | ((lens[2 * k + 1] & 0x0F) << 4);
    }
    packed.extend_from_slice(&[0x00, 0x40, 0x00, 0x00]);

    let decoded = decode_xpress_chunk(&packed, 2).unwrap();
    assert_eq!(decoded, b"AB");
}

#[test]
fn decode_xpress_chunk_maps_decoder_errors_to_corrupt() {
    let err = decode_xpress_chunk(&[], 2).unwrap_err();
    assert!(matches!(err, Error::Corrupt(_)), "got {err:?}");
}

#[test]
fn read_resource_uncompressed_reads_verbatim() {
    let backing = (b"XXXXhello wim\n".to_vec());
    let rh = ResourceHeader {
        size_on_disk: 10,
        flags: 0,
        offset: 4,
        original_size: 10,
    };
    let out = read_resource(&backing, 32768, None, &rh).unwrap();
    assert_eq!(out, b"hello wim\n");
}

#[test]
fn read_resource_compressed_without_header_compressor_is_corrupt() {
    let backing = (vec![0u8; 20]);
    let rh = ResourceHeader {
        size_on_disk: 20,
        flags: FLAG_COMPRESSED,
        offset: 0,
        original_size: 100,
    };
    let err = read_resource(&backing, 32768, None, &rh).unwrap_err();
    assert!(matches!(err, Error::Corrupt(_)), "got {err:?}");
}

#[test]
fn read_resource_short_read_is_corrupt() {
    let backing = (vec![0u8; 3]);
    let rh = ResourceHeader {
        size_on_disk: 10,
        flags: 0,
        offset: 0,
        original_size: 10,
    };
    let err = read_resource(&backing, 32768, None, &rh).unwrap_err();
    assert!(matches!(err, Error::Corrupt(_)), "got {err:?}");
}

#[test]
fn filetime_zero_is_none() {
    assert_eq!(filetime_to_systime(0), None);
}

#[test]
fn filetime_epoch_matches_unix_epoch() {
    assert_eq!(
        filetime_to_systime(116_444_736_000_000_000),
        Some(at(0))
    );
}

#[test]
fn filetime_one_second_after_epoch() {
    let ticks = 116_444_736_000_000_000 + 10_000_000;
    assert_eq!(
        filetime_to_systime(ticks),
        Some(at(1))
    );
}

#[test]
fn decode_utf16le_ascii() {
    let bytes: Vec<u8> = "a.txt".encode_utf16().flat_map(u16::to_le_bytes).collect();
    assert_eq!(decode_utf16le(&bytes).unwrap(), "a.txt");
}

#[test]
fn decode_utf16le_rejects_odd_length() {
    let err = decode_utf16le(&[0x61]).unwrap_err();
    assert!(matches!(err, Error::Corrupt(_)), "got {err:?}");
}

fn build_dentry(name: &str, is_dir: bool, subdir_offset: u64, hash: [u8; 20]) -> Vec<u8> {
    let name_utf16: Vec<u8> = name.encode_utf16().flat_map(u16::to_le_bytes).collect();
    let name_nbytes = name_utf16.len() as u16;
    let mut b = vec![0u8; DIRENTRY_FIXED_LEN];
    let attributes: u32 = if is_dir { FILE_ATTRIBUTE_DIRECTORY } else { 0 };
    b[8..12].copy_from_slice(&attributes.to_le_bytes());
    b[16..24].copy_from_slice(&subdir_offset.to_le_bytes());
    b[0x40..0x54].copy_from_slice(&hash);
    b[0x60..0x62].copy_from_slice(&0u16.to_le_bytes());
    b[0x62..0x64].copy_from_slice(&0u16.to_le_bytes());
    b[0x64..0x66].copy_from_slice(&name_nbytes.to_le_bytes());
    b.extend_from_slice(&name_utf16);
    if name_nbytes > 0 {
        b.extend_from_slice(&[0, 0]);
    }
    while b.len() % 8 != 0 {
        b.push(0);
    }
    let length = b.len() as u64;
    b[0..8].copy_from_slice(&length.to_le_bytes());
    b
}

fn patch_subdir_offset(dentry: &mut [u8], offset: u64) {
    dentry[16..24].copy_from_slice(&offset.to_le_bytes());
}

fn terminator() -> Vec<u8> {
    0u64.to_le_bytes().to_vec()
}

fn security_block(total_length: u32, num_entries: u32) -> Vec<u8> {
    let mut b = Vec::new();
    b.extend_from_slice(&total_length.to_le_bytes());
    b.extend_from_slice(&num_entries.to_le_bytes());
    while b.len() % 8 != 0 {
        b.push(0);
    }
    b
}

#[test]
fn security_block_len_rounds_up_to_8() {
    assert_eq!(security_block_len(&security_block(8, 0)).unwrap(), 8);
    let mut meta = security_block(20, 0);
    meta.resize(24, 0);
    assert_eq!(security_block_len(&meta).unwrap(), 24);
}

#[test]
fn security_block_len_zero_total_length_is_minimum_8() {
    let meta = security_block(0, 0);
    assert_eq!(security_block_len(&meta).unwrap(), 8);
}

#[test]
fn security_block_len_rejects_too_short_input() {
    let err = security_block_len(&[0u8; 4]).unwrap_err();
    assert!(matches!(err, Error::Corrupt(_)), "got {err:?}");
}

#[test]
fn parse_dirent_terminator_is_none() {
    assert!(parse_dirent(&terminator(), 0).unwrap().is_none());
}

#[test]
fn parse_dirent_reads_name_and_attributes() {
    let d = build_dentry("a.txt", false, 0, [0xAB; 20]);
    let (parsed, next) = parse_dirent(&d, 0).unwrap().unwrap();
    assert_eq!(parsed.name, "a.txt");
    assert!(!parsed.is_dir);
    assert_eq!(parsed.hash, [0xAB; 20]);
    assert_eq!(next, d.len());
}

#[test]
fn parse_dirent_dir_attribute_sets_is_dir() {
    let d = build_dentry("sub", true, 999, [0u8; 20]);
    let (parsed, _) = parse_dirent(&d, 0).unwrap().unwrap();
    assert!(parsed.is_dir);
    assert_eq!(parsed.subdir_offset, 999);
}

#[test]
fn parse_dirent_empty_name_root() {
    let d = build_dentry("", true, 8, [0u8; 20]);
    let (parsed, _) = parse_dirent(&d, 0).unwrap().unwrap();
    assert_eq!(parsed.name, "");
}

#[test]
fn parse_dirent_rejects_truncated_fixed_prefix() {
    let err = parse_dirent(&[0, 0, 0, 0, 0, 0, 0, 50], 0).unwrap_err();
    assert!(matches!(err, Error::Corrupt(_)), "got {err:?}");
}

fn build_metadata(children: &[u8]) -> Vec<u8> {
    let sec = security_block(8, 0);
    let mut root = build_dentry("", true, 0, [0u8; 20]);
    let children_offset = (sec.len() + root.len()) as u64;
    patch_subdir_offset(&mut root, children_offset);

    let mut meta = sec;
    meta.extend_from_slice(&root);
    meta.extend_from_slice(children);
    meta.extend_from_slice(&terminator());
    meta
}

#[test]
fn build_dir_tree_flat_files() {
    let hash_a = [0xAAu8; 20];
    let mut child_a = build_dentry("a.txt", false, 0, hash_a);
    child_a.extend_from_slice(&terminator());
    let meta = build_metadata(&child_a);

    let lookup = vec![LookupEntry {
        resource: ResourceHeader {
            size_on_disk: 5,
            flags: 0,
            offset: 1000,
            original_size: 10,
        },
        hash: hash_a,
    }];

    let (entries, bodies) = build_dir_tree(&meta, &lookup).unwrap();
    assert_eq!(entries.len(), 1);
    assert_eq!(entries[0].path, "a.txt");
    assert_eq!(entries[0].size, 10);
    assert!(!entries[0].is_dir());
    assert_eq!(bodies[0].unwrap().offset, 1000);
}

#[test]
fn build_dir_tree_nested_directory() {
    let hash_b = [0xBBu8; 20];
    let mut leaf = build_dentry("b.txt", false, 0, hash_b);
    leaf.extend_from_slice(&terminator());

    let mut sub_dir = build_dentry("sub", true, 0, [0u8; 20]);
    let sec = security_block(8, 0);
    let mut root = build_dentry("", true, 0, [0u8; 20]);
    let root_children_offset = (sec.len() + root.len()) as u64;
    patch_subdir_offset(&mut root, root_children_offset);

    let mut root_children = Vec::new();
    let sub_dir_offset_within_children = 0usize;
    let _ = sub_dir_offset_within_children;
    let sub_children_abs_offset =
        root_children_offset as usize + sub_dir.len() + terminator().len();
    patch_subdir_offset(&mut sub_dir, sub_children_abs_offset as u64);
    root_children.extend_from_slice(&sub_dir);
    root_children.extend_from_slice(&terminator());

    let mut meta = sec;
    meta.extend_from_slice(&root);
    meta.extend_from_slice(&root_children);
    meta.extend_from_slice(&leaf);
    meta.extend_from_slice(&terminator());

    let lookup = vec![LookupEntry {
        resource: ResourceHeader {
            size_on_disk: 7,
            flags: 0,
            offset: 2000,
            original_size: 7,
        },
        hash: hash_b,
    }];

    let (entries, bodies) = build_dir_tree(&meta, &lookup).unwrap();
    let paths: Vec<&str> = entries.iter().map(|e| e.path.as_str()).collect();
    assert!(paths.contains(&"sub"));
    assert!(paths.contains(&"sub/b.txt"));
    let sub_idx = entries
        .iter()
        .position(|e| e.path == "sub")
        .unwrap();
    assert!(entries[sub_idx].is_dir());
    assert!(bodies[sub_idx].is_none());
    let leaf_idx = entries
        .iter()
        .position(|e| e.path == "sub/b.txt")
        .unwrap();
    assert!(bodies[leaf_idx].is_some());
}

#[test]
fn build_dir_tree_zero_hash_is_empty_body() {
    let mut child = build_dentry("empty.txt", false, 0, [0u8; 20]);
    child.extend_from_slice(&terminator());
    let meta = build_metadata(&child);

    let (entries, bodies) = build_dir_tree(&meta, &[]).unwrap();
    assert_eq!(entries[0].size, 0);
    assert!(bodies[0].is_none());
}

#[test]
fn build_dir_tree_unknown_hash_is_corrupt() {
    let mut child = build_dentry("mystery.bin", false, 0, [0x77u8; 20]);
    child.extend_from_slice(&terminator());
    let meta = build_metadata(&child);

    let err = build_dir_tree(&meta, &[]).unwrap_err();
    assert!(matches!(err, Error::Corrupt(_)), "got {err:?}");
}

#[test]
fn build_dir_tree_root_only_no_children() {
    let meta = build_metadata(&[]);
    let (entries, bodies) = build_dir_tree(&meta, &[]).unwrap();
    assert!(entries.is_empty());
    assert!(bodies.is_empty());
}

#[test]
fn a_directory_that_contains_itself_is_corrupt() {
    let mut child = build_dentry("loop", true, 0, [0u8; 20]);
    let at = build_metadata(&[]).len() - terminator().len();
    patch_subdir_offset(&mut child, at as u64);
    child.extend_from_slice(&terminator());
    assert!(matches!(build_dir_tree(&build_metadata(&child), &[]), Err(Error::Corrupt(_))));
}

fn lookup_row(size_on_disk: u64, flags: u8, offset: u64, original_size: u64, hash: [u8; 20]) -> Vec<u8> {
    let mut row = reshdr_bytes(size_on_disk, flags, offset, original_size);
    row.extend_from_slice(&1u16.to_le_bytes());
    row.extend_from_slice(&1u32.to_le_bytes());
    row.extend_from_slice(&hash);
    row
}

fn image_with(flags: u32, body: &[u8], body_flags: u8, body_len: u64) -> Vec<u8> {
    let hash = [0xC3u8; 20];
    let mut child = build_dentry("a.txt", false, 0, hash);
    child.extend_from_slice(&terminator());
    let meta = build_metadata(&child);
    let mut table = lookup_row(meta.len() as u64, FLAG_METADATA, HEADER_LEN as u64, meta.len() as u64, [1u8; 20]);
    let body_at = (HEADER_LEN + meta.len()) as u64;
    table.extend(lookup_row(body.len() as u64, body_flags, body_at, body_len, hash));
    let mut image = header_bytes(flags, 32768, 1, 1);
    let table_at = body_at + body.len() as u64;
    image[48..72].copy_from_slice(&reshdr_bytes(table.len() as u64, 0, table_at, table.len() as u64));
    image.extend_from_slice(&meta);
    image.extend_from_slice(body);
    image.extend_from_slice(&table);
    image
}

fn open_image(image: Vec<u8>) -> Result<newtua_core::format::wim::WimReader, Error> {
    WimHandler.open(Source::Seekable { inner: image, path: None }, &OpenOptions::default())
}

#[test]
fn opened_image_lists_and_reads_its_files() {
    let reader = open_image(image_with(0, b"hello wim", 0, 9)).unwrap();
    assert_eq!(reader.format(), FormatId::Wim);
    assert_eq!(reader.entries().len(), 1);
    assert_eq!(reader.entries()[0].path, "a.txt");
    assert_eq!(reader.entries()[0].size, 9);
    assert_eq!(reader.read_entry(0).unwrap(), b"hello wim".to_vec());
    assert!(matches!(reader.read_entry(1), Err(Error::InvalidIndex(1))));
}

#[test]
fn a_chunk_that_is_stored_whole_is_read_as_it_is() {
    let image = image_with(FLAG_HEADER_COMPRESSION | FLAG_COMPRESS_XPRESS, b"hello wim", FLAG_COMPRESSED, 9);
    let reader = open_image(image).unwrap();
    assert_eq!(reader.read_entry(0).unwrap(), b"hello wim".to_vec());
}

#[test]
fn xpress_and_lzx_bodies_are_unpacked() {
    let mut packed = vec![0u8; 256];
    packed[0x20] = 1 << 4;
    packed[0x21] = 1;
    packed.extend_from_slice(&[0x00, 0x40, 0x00, 0x00]);
    let image = image_with(FLAG_HEADER_COMPRESSION | FLAG_COMPRESS_XPRESS, &packed, FLAG_COMPRESSED, 2);
    assert_eq!(open_image(image).unwrap().read_entry(0).unwrap(), b"AB".to_vec());

    let mut lzx = 0b0110_0000_0000_0000u16.to_le_bytes().to_vec();
    lzx.extend_from_slice(&0b0011_0000_0000_0000u16.to_le_bytes());
    lzx.extend_from_slice(&[1, 0, 0, 0, 1, 0, 0, 0, 1, 0, 0, 0]);
    lzx.extend_from_slice(b"abc");
    let image = image_with(FLAG_HEADER_COMPRESSION | FLAG_COMPRESS_LZX, &lzx, FLAG_COMPRESSED, 3);
    assert_eq!(open_image(image).unwrap().read_entry(0).unwrap(), b"abc".to_vec());
}

#[test]
fn parts_of_a_set_and_solid_images_are_not_supported() {
    let mut part = image_with(FLAG_SPANNED, b"x", 0, 1);
    part[40..42].copy_from_slice(&2u16.to_le_bytes());
    part[42..44].copy_from_slice(&3u16.to_le_bytes());
    assert!(matches!(open_image(part), Err(Error::Unsupported { format, feature })
        if format == "wim" && feature == "multi-volume WIM / .swm (part 2 of 3)"));
    let solid = image_with(FLAG_HEADER_COMPRESSION | FLAG_COMPRESS_LZMS, b"x", 0, 1);
    assert!(matches!(open_image(solid), Err(Error::Unsupported { feature, .. }) if feature == "LZMS compression (.esd) — see task 20d"));
    let stream = Source::Stream { inner: Vec::new(), path: None };
    assert!(matches!(WimHandler.open(stream, &OpenOptions::default()), Err(Error::Unsupported { .. })));
}

#[test]
fn an_image_without_a_catalog_is_corrupt() {
    let mut image = image_with(0, b"x", 0, 1);
    let table_at = image.len() - 100;
    image[table_at + 7] = 0;
    assert!(matches!(open_image(image), Err(Error::Corrupt(m))
        if m == "wim: no metadata resource found in the lookup table"));
    assert!(matches!(open_image(vec![0u8; 20]), Err(Error::Corrupt(_))));
}

#[test]
fn an_image_without_a_chunk_size_holds_only_stored_resources() {
    let mut stored = image_with(FLAG_HEADER_COMPRESSION | FLAG_COMPRESS_XPRESS, b"hello", 0, 5);
    stored[20..24].copy_from_slice(&[0; 4]);
    assert!(check_chunk_size(&stored));
    assert_eq!(open_image(stored).unwrap().read_entry(0).unwrap(), b"hello".to_vec());
    let mut packed = image_with(FLAG_HEADER_COMPRESSION | FLAG_COMPRESS_XPRESS, b"hello", FLAG_COMPRESSED, 9);
    assert!(check_chunk_size(&packed));
    packed[20..24].copy_from_slice(&[0; 4]);
    assert!(!check_chunk_size(&packed));
    assert!(check_chunk_size(b"no image"));
}

#[test]
fn permissions_captured_on_unix_are_restored() {
    let with_items = |items: &[u8]| {
        let mut child = build_dentry("a.txt", false, 0, [0u8; 20]);
        child.extend_from_slice(items);
        let length = child.len() as u64;
        child[0..8].copy_from_slice(&length.to_le_bytes());
        child.extend_from_slice(&terminator());
        build_dir_tree(&build_metadata(&child), &[]).unwrap().0[0].mode
    };
    let item = |tag: u32, words: &[u32]| {
        let mut b = tag.to_le_bytes().to_vec();
        b.extend_from_slice(&(4 * words.len() as u32).to_le_bytes());
        for w in words {
            b.extend_from_slice(&w.to_le_bytes());
        }
        while b.len() % 8 != 0 {
            b.push(0);
        }
        b
    };
    let unix = item(0x337D_D873, &[1000, 1000, 0o100750, 0]);
    assert_eq!(with_items(&unix), Some(0o750));
    let mut behind = item(1, &[7]);
    behind.extend_from_slice(&unix);
    assert_eq!(with_items(&behind), Some(0o750));
    assert_eq!(with_items(&item(1, &[7])), None);
    assert_eq!(with_items(&[]), None);
}

#[test]
fn stored_chunks_give_back_the_data_under_every_compressor() {
    let data: Vec<u8> = (0..=250).collect();
    let mut raw = Vec::new();
    for k in 1..4u32 {
        raw.extend_from_slice(&(k * 64).to_le_bytes());
    }
    raw.extend_from_slice(&data);
    for c in [Compressor::Xpress, Compressor::Lzx, Compressor::Lzms] {
        assert_eq!(decode_chunked_resource(&raw, 64, 251, c).unwrap(), data);
    }
}
