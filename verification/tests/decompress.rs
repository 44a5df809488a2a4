//! Decoding whole streams.
use newtua_core::decompress::{decode_lzip, decompressor, Compressor, LzipReader};
use std::io::Write;

fn gzip_bytes(data: &[u8]) -> Vec<u8> {
    let mut e = flate2::write::GzEncoder::new(Vec::new(), flate2::Compression::default());
    e.write_all(data).unwrap();
    e.finish().unwrap()
}

fn bzip2_bytes(data: &[u8]) -> Vec<u8> {
    let mut e = bzip2::write::BzEncoder::new(Vec::new(), bzip2::Compression::default());
    e.write_all(data).unwrap();
    e.finish().unwrap()
}

fn xz_bytes(data: &[u8]) -> Vec<u8> {
    let mut e = xz2::write::XzEncoder::new(Vec::new(), 6);
    e.write_all(data).unwrap();
    e.finish().unwrap()
}

const BROTLI_HELLO: &[u8] = &[
    0x1b, 0x43, 0x00, 0x80, 0xc5, 0x6e, 0x39, 0xad, 0x37, 0xaf, 0x24, 0x52, 0xea, 0x84, 0xe1,
    0x1f, 0x26, 0x72, 0xe0, 0xd0, 0x16, 0xe8, 0x3d, 0x30, 0x3c, 0x78, 0xc8, 0x5a, 0x3a, 0x89,
    0x49, 0xc8, 0xb1, 0xa3, 0xc3, 0xab, 0x44, 0xcb, 0x2f, 0x8a, 0x0d, 0xc8, 0x08, 0xa0, 0x23,
    0xe5, 0x7c, 0x30, 0xb5, 0x05, 0xd2, 0xf7, 0xaa, 0xc1, 0x18,
];

const BROTLI_HELLO_PLAIN: &[u8] =
    b"hello brotli payload \xe2\x80\x94 the quick brown fox jumps over the lazy dog";

const SNAPPY_HELLO: &[u8] = &[
    0xff, 0x06, 0x00, 0x00, 0x73, 0x4e, 0x61, 0x50, 0x70, 0x59, 0x01, 0x16, 0x00, 0x00, 0xe1,
    0xcb, 0xb1, 0xd2, 0x68, 0x65, 0x6c, 0x6c, 0x6f, 0x20, 0x66, 0x72, 0x6f, 0x6d, 0x20, 0x73,
    0x6e, 0x61, 0x70, 0x70, 0x79, 0x0a,
];

const SNAPPY_HELLO_PLAIN: &[u8] = b"hello from snappy\n";

const LZIP_HELLO: &[u8] = &[
    0x4c, 0x5a, 0x49, 0x50, 0x01, 0x0c, 0x00, 0x34, 0x19, 0x49, 0xee, 0x8d, 0xe9, 0x12, 0xe6,
    0x14, 0x0e, 0xbf, 0xb9, 0x78, 0xc2, 0x8e, 0x45, 0x9b, 0x29, 0x9b, 0xf6, 0xff, 0xff, 0x92,
    0xca, 0x00, 0x00, 0x69, 0x1c, 0x6d, 0x0f, 0x10, 0x00, 0x00, 0x00, 0x00, 0x00, 0x00, 0x00,
    0x35, 0x00, 0x00, 0x00, 0x00, 0x00, 0x00, 0x00,
];

const LZIP_HELLO_PLAIN: &[u8] = b"hello from lzip\n";

const LZIP_MULTI: &[u8] = &[
    0x4c, 0x5a, 0x49, 0x50, 0x01, 0x0c, 0x00, 0x36, 0x99, 0x49, 0xfd, 0xb6, 0xe2, 0x59, 0xc3,
    0x2b, 0x3d, 0x10, 0x73, 0x27, 0x5a, 0x63, 0xff, 0xff, 0xae, 0x0e, 0x00, 0x00, 0xdd, 0xf3,
    0x1d, 0x7f, 0x0b, 0x00, 0x00, 0x00, 0x00, 0x00, 0x00, 0x00, 0x30, 0x00, 0x00, 0x00, 0x00,
    0x00, 0x00, 0x00, 0x4c, 0x5a, 0x49, 0x50, 0x01, 0x0c, 0x00, 0x36, 0x99, 0x49, 0xfd, 0xb6,
    0xe2, 0x59, 0xc3, 0x39, 0x92, 0x60, 0x9c, 0x4f, 0xd1, 0x3f, 0x7f, 0xff, 0xc9, 0x5c, 0x00,
    0x00, 0x36, 0x53, 0x1d, 0x11, 0x0b, 0x00, 0x00, 0x00, 0x00, 0x00, 0x00, 0x00, 0x30, 0x00,
    0x00, 0x00, 0x00, 0x00, 0x00, 0x00,
];

const LZIP_MULTI_PLAIN: &[u8] = b"member one\nmember two\n";

#[test]
fn gzip_roundtrip() {
    let payload = b"hello newtua";
    let compressed = gzip_bytes(payload);
    let r = decompressor(Compressor::Gzip, &compressed);
    let out = r.unwrap();
    assert_eq!(out, payload);
}

#[test]
fn zstd_roundtrip() {
    let payload = b"hello zstd payload";
    let compressed = zstd::encode_all(&payload[..], 0).unwrap();
    let r = decompressor(Compressor::Zstd, &compressed);
    let out = r.unwrap();
    assert_eq!(out, payload);
}

#[test]
fn corrupt_zstd_errors_on_read() {
    let mut bytes = vec![0x28, 0xB5, 0x2F, 0xFD];
    bytes.extend_from_slice(&[0xFF; 32]);
    let r = decompressor(Compressor::Zstd, &bytes);
    assert!(r.is_err());
}

#[test]
fn zstd_multi_frame_reads_all_frames() {
    let mut compressed = zstd::encode_all(&b"frame-one"[..], 0).unwrap();
    compressed.extend_from_slice(&zstd::encode_all(&b"frame-two"[..], 0).unwrap());
    let r = decompressor(Compressor::Zstd, &compressed);
    let out = r.unwrap();
    assert_eq!(out, b"frame-oneframe-two");
}

#[test]
fn lzma_roundtrip() {
    let payload = b"hello lzma payload";
    let opts = xz2::stream::LzmaOptions::new_preset(6).unwrap();
    let stream = xz2::stream::Stream::new_lzma_encoder(&opts).unwrap();
    let mut enc = xz2::write::XzEncoder::new_stream(Vec::new(), stream);
    enc.write_all(payload).unwrap();
    let compressed = enc.finish().unwrap();
    let r = decompressor(Compressor::Lzma, &compressed);
    let out = r.unwrap();
    assert_eq!(out, payload);
}

#[test]
fn lz4_roundtrip() {
    let payload = b"hello lz4 payload";
    let mut enc = lz4_flex::frame::FrameEncoder::new(Vec::new());
    enc.write_all(payload).unwrap();
    let compressed = enc.finish().unwrap();
    let r = decompressor(Compressor::Lz4, &compressed);
    let out = r.unwrap();
    assert_eq!(out, payload);
}

#[test]
fn corrupt_lz4_errors_on_read() {
    let mut bytes = vec![0x04, 0x22, 0x4D, 0x18];
    bytes.extend_from_slice(&[0xFF; 32]);
    let r = decompressor(Compressor::Lz4, &bytes);
    assert!(r.is_err());
}

#[test]
fn brotli_decodes_known_stream() {
    let r = decompressor(Compressor::Brotli, BROTLI_HELLO);
    let out = r.unwrap();
    assert_eq!(out, BROTLI_HELLO_PLAIN);
}

#[test]
fn snappy_decodes_known_stream() {
    let r = decompressor(Compressor::Snappy, SNAPPY_HELLO);
    let out = r.unwrap();
    assert_eq!(out, SNAPPY_HELLO_PLAIN);
}

#[test]
fn lzip_decodes_known_stream() {
    let r = decompressor(Compressor::Lzip, LZIP_HELLO);
    let out = r.unwrap();
    assert_eq!(out, LZIP_HELLO_PLAIN);
}

#[test]
fn lzip_multi_member_reads_all_members() {
    let r = decompressor(Compressor::Lzip, LZIP_MULTI);
    let out = r.unwrap();
    assert_eq!(out, LZIP_MULTI_PLAIN);
}

#[test]
fn lzip_reads_across_a_one_byte_output_buffer() {
    let mut r = LzipReader::new(LZIP_MULTI.to_vec());
    let mut out = Vec::new();
    loop {
        let piece = r.read(1).unwrap();
        if piece.is_empty() {
            break;
        }
        out.push(piece[0]);
    }
    assert_eq!(out, LZIP_MULTI_PLAIN);
}

#[test]
fn truncated_lzip_errors_on_read() {
    let r = decompressor(Compressor::Lzip, &LZIP_HELLO[..20]);
    assert!(r.is_err());
}

#[test]
fn lzip_with_truncated_trailer_errors_on_read() {
    let r = decompressor(Compressor::Lzip, &LZIP_HELLO[..LZIP_HELLO.len() - 4]);
    assert!(r.is_err());
}

#[test]
fn lzip_with_lying_size_trailer_errors_on_read() {
    let mut bytes = LZIP_HELLO.to_vec();
    let n = bytes.len();
    bytes[n - 16] += 1; // first byte of the uncompressed-size field
    let r = decompressor(Compressor::Lzip, &bytes);
    assert!(r.is_err());
}

#[test]
fn lzip_keeps_erroring_after_the_first_failure() {
    let mut r = LzipReader::new(LZIP_HELLO[..20].to_vec());
    let mut saw_error = false;
    loop {
        match r.read(64) {
            Ok(v) if v.is_empty() => panic!("EOF after a failure instead of the error again"),
            Ok(_) => assert!(!saw_error, "produced data after a failure"),
            Err(_) => {
                if saw_error {
                    break;
                }
                saw_error = true;
            }
        }
    }
}

#[test]
fn lzip_with_bad_dictionary_exponent_errors_on_read() {
    let mut bytes = LZIP_HELLO.to_vec();
    bytes[5] = 0x1f; // exponent 31
    let r = decompressor(Compressor::Lzip, &bytes);
    assert!(r.is_err());
}

#[test]
fn corrupt_snappy_errors_on_read() {
    let mut bytes = SNAPPY_HELLO[..10].to_vec();
    bytes.extend_from_slice(&[0xFF; 32]);
    let r = decompressor(Compressor::Snappy, &bytes);
    assert!(r.is_err());
}

#[test]
fn corrupt_brotli_errors_on_read() {
    let truncated = &BROTLI_HELLO[..4];
    let r = decompressor(Compressor::Brotli, truncated);
    assert!(r.is_err());
}

#[test]
fn bzip2_roundtrip() {
    let payload = b"bzip payload";
    let mut e = bzip2::write::BzEncoder::new(Vec::new(), bzip2::Compression::default());
    e.write_all(payload).unwrap();
    let compressed = e.finish().unwrap();
    let r = decompressor(Compressor::Bzip2, &compressed);
    let out = r.unwrap();
    assert_eq!(out, payload);
}

#[test]
fn xz_roundtrip() {
    let payload = b"xz payload";
    let mut e = xz2::write::XzEncoder::new(Vec::new(), 6);
    e.write_all(payload).unwrap();
    let compressed = e.finish().unwrap();
    let r = decompressor(Compressor::Xz, &compressed);
    let out = r.unwrap();
    assert_eq!(out, payload);
}

#[test]
fn bzip2_multi_member_reads_all_members() {
    let mut compressed = bzip2_bytes(b"member one\n");
    compressed.extend_from_slice(&bzip2_bytes(b"member two\n"));
    compressed.extend_from_slice(&bzip2_bytes(b"member three\n"));
    let r = decompressor(Compressor::Bzip2, &compressed);
    let out = r.unwrap();
    assert_eq!(out, b"member one\nmember two\nmember three\n");
}

#[test]
fn bzip2_with_garbage_after_a_member_errors_on_read() {
    let mut compressed = bzip2_bytes(b"good member\n");
    compressed.extend_from_slice(&[0xFF; 64]);
    let r = decompressor(Compressor::Bzip2, &compressed);
    assert!(r.is_err());
}

#[test]
fn xz_multi_stream_reads_all_streams() {
    let mut compressed = xz_bytes(b"stream one\n");
    compressed.extend_from_slice(&xz_bytes(b"stream two\n"));
    let r = decompressor(Compressor::Xz, &compressed);
    let out = r.unwrap();
    assert_eq!(out, b"stream one\nstream two\n");
}

#[test]
fn xz_with_garbage_after_a_stream_errors_on_read() {
    let mut compressed = xz_bytes(b"good stream\n");
    compressed.extend_from_slice(&[0xFF; 64]);
    let r = decompressor(Compressor::Xz, &compressed);
    assert!(r.is_err());
}

#[test]
fn corrupt_gzip_errors_on_read() {
    let r = decompressor(Compressor::Gzip, &vec![0xFF; 32]);
    assert!(r.is_err());
}

#[test]
fn lzip_members_decode_alike_whole_and_in_pieces() {
    let mut r = LzipReader::new(LZIP_MULTI.to_vec());
    let mut out = Vec::new();
    loop {
        let piece = r.read(7).unwrap();
        if piece.is_empty() {
            break;
        }
        out.extend_from_slice(&piece);
    }
    assert_eq!(out, decode_lzip(LZIP_MULTI).unwrap());
}

#[test]
fn empty_lzip_file_decodes_to_nothing() {
    assert_eq!(decode_lzip(b"").unwrap(), b"");
}

#[test]
fn files_put_together_decode_to_both_contents() {
    let zstd_bytes = |data: &[u8]| zstd::stream::encode_all(data, 3).unwrap();
    for (kind, a, b) in [
        (Compressor::Gzip, gzip_bytes(b"one"), gzip_bytes(b"two")),
        (Compressor::Bzip2, bzip2_bytes(b"one"), bzip2_bytes(b"two")),
        (Compressor::Xz, xz_bytes(b"one"), xz_bytes(b"two")),
        (Compressor::Zstd, zstd_bytes(b"one"), zstd_bytes(b"two")),
        (Compressor::Lzip, LZIP_HELLO.to_vec(), LZIP_MULTI.to_vec()),
    ] {
        let mut both = decompressor(kind, &a).unwrap();
        both.extend(decompressor(kind, &b).unwrap());
        assert_eq!(decompressor(kind, &[a, b].concat()).unwrap(), both);
    }
}

#[test]
fn bare_lzma_does_not_follow_an_xz_stream() {
    let options = xz2::stream::LzmaOptions::new_preset(6).unwrap();
    let mut e = xz2::write::XzEncoder::new_stream(Vec::new(), xz2::stream::Stream::new_lzma_encoder(&options).unwrap());
    e.write_all(b"two").unwrap();
    let bare = e.finish().unwrap();
    assert_eq!(decompressor(Compressor::Xz, &bare).unwrap(), b"two");
    assert!(decompressor(Compressor::Xz, &[xz_bytes(b"one"), bare.clone()].concat()).is_err());
    assert!(decompressor(Compressor::Xz, &[bare, xz_bytes(b"one")].concat()).is_err());
}
