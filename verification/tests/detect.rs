//! Telling formats apart.
use newtua_core::archive::{
    ArchiveReader, BatchReader, Confidence, EntrySink, FormatHandler, FormatId, OpenOptions, ReadSeek, SeekTo, SinkStep,
};
use newtua_core::decompress::Compressor;
use newtua_core::detect::{
    choose_handler, copy_slice_exact, detect_compressor, detect_compressor_by_ext, is_cpio, is_first_volume, is_tar,
    open_single, open_unpacked, peek_from_start, plan, read_gz_mtime, registry, route, stem_without_compressor_ext,
    Handler, Opening, Plan, Route, TempBackedReader, Unpacked,
};
use newtua_core::error::Error;
use newtua_core::format::bundle::all_zip_bundles;
use newtua_core::format::hfsplus::OffsetReader;

fn reader(bytes: &[u8]) -> OffsetReader {
    OffsetReader::new(bytes.to_vec(), 0)
}

fn position(r: &mut OffsetReader) -> u64 {
    r.seek(SeekTo::Current(0)).unwrap()
}

#[test]
fn detects_each_compressor() {
    assert_eq!(
        detect_compressor(&[0x1f, 0x8b, 0x08]),
        Some(Compressor::Gzip)
    );
    assert_eq!(detect_compressor(b"BZh9"), Some(Compressor::Bzip2));
    assert_eq!(
        detect_compressor(&[0xFD, 0x37, 0x7A, 0x58, 0x5A, 0x00]),
        Some(Compressor::Xz)
    );
    assert_eq!(
        detect_compressor(&[0x28, 0xB5, 0x2F, 0xFD]),
        Some(Compressor::Zstd)
    );
    assert_eq!(detect_compressor(b"PK\x03\x04"), None);
}

#[test]
fn empty_header_returns_none() {
    assert_eq!(detect_compressor(&[]), None);
}

#[test]
fn is_cpio_matches_the_variants_cpio_handler_opens() {
    let mut newc = reader(b"070701000000");
    assert!(is_cpio(&mut newc).unwrap());
    assert_eq!(position(&mut newc), 0);
    let mut odc = reader(b"070707000000");
    assert!(is_cpio(&mut odc).unwrap());
    assert_eq!(position(&mut odc), 0);
    let mut crc = reader(b"070702000000");
    assert!(is_cpio(&mut crc).unwrap());
    assert_eq!(position(&mut crc), 0);
    let mut zip = reader(b"PK\x03\x04....");
    assert!(!is_cpio(&mut zip).unwrap());
    let mut tiny = reader(b"0707");
    assert!(!is_cpio(&mut tiny).unwrap());
}

#[test]
fn registry_has_expected_handlers() {
    assert_eq!(
        registry().len(),
        21 + 6 + 5 + 3 + 2 + 3 + all_zip_bundles().len() + 2
    );
}

#[test]
fn stem_strips_gz() {
    assert_eq!(
        stem_without_compressor_ext("/tmp/notes.txt.gz"),
        "notes.txt"
    );
}

#[test]
fn stem_strips_bz2() {
    assert_eq!(stem_without_compressor_ext("data.bz2"), "data");
}

#[test]
fn stem_strips_xz() {
    assert_eq!(
        stem_without_compressor_ext("/path/to/archive.tar.xz"),
        "archive.tar"
    );
}

#[test]
fn stem_strips_zst() {
    assert_eq!(
        stem_without_compressor_ext("/tmp/data.tar.zst"),
        "data.tar"
    );
    assert_eq!(
        stem_without_compressor_ext("notes.txt.zst"),
        "notes.txt"
    );
}

#[test]
fn detect_compressor_recognizes_dot_z() {
    assert_eq!(
        detect_compressor(&[0x1f, 0x9d, 0x90]),
        Some(Compressor::Lzc)
    );
}

#[test]
fn detect_compressor_recognizes_lz4() {
    assert_eq!(
        detect_compressor(&[0x04, 0x22, 0x4D, 0x18, 0x64]),
        Some(Compressor::Lz4)
    );
}

#[test]
fn stem_strips_lz4() {
    assert_eq!(
        stem_without_compressor_ext("/tmp/data.tar.lz4"),
        "data.tar"
    );
    assert_eq!(
        stem_without_compressor_ext("notes.txt.lz4"),
        "notes.txt"
    );
}

#[test]
fn stem_strips_dot_z() {
    assert_eq!(
        stem_without_compressor_ext("/tmp/archive.Z"),
        "archive"
    );
    assert_eq!(
        stem_without_compressor_ext("/tmp/data.tar.Z"),
        "data.tar"
    );
    assert_eq!(stem_without_compressor_ext("file.z"), "file.z");
}

#[test]
fn stem_no_compressor_ext_unchanged() {
    assert_eq!(
        stem_without_compressor_ext("file.zip"),
        "file.zip"
    );
}

#[test]
fn detect_compressor_by_ext_recognizes_br() {
    assert_eq!(
        detect_compressor_by_ext("data.br"),
        Some(Compressor::Brotli)
    );
    assert_eq!(
        detect_compressor_by_ext("archive.tar.br"),
        Some(Compressor::Brotli)
    );
    assert_eq!(detect_compressor_by_ext("data.txt"), None);
    assert_eq!(detect_compressor_by_ext("noext"), None);
}

#[test]
fn detect_compressor_by_ext_recognizes_lzma() {
    assert_eq!(
        detect_compressor_by_ext("data.lzma"),
        Some(Compressor::Lzma)
    );
    assert_eq!(
        detect_compressor_by_ext("archive.tar.lzma"),
        Some(Compressor::Lzma)
    );
    assert_eq!(detect_compressor_by_ext("data.lz"), None);
    assert_eq!(detect_compressor(b"LZIP\x01\x0c"), Some(Compressor::Lzip));
}

#[test]
fn detect_compressor_recognizes_lzip() {
    assert_eq!(detect_compressor(b"LZIP\x01\x0c"), Some(Compressor::Lzip));
    assert_eq!(detect_compressor(b"LZIP\x00\x0c"), None);
    assert_eq!(detect_compressor(b"LZIP\x02\x0c"), None);
    assert_eq!(detect_compressor(b"LZIP"), None);
}

#[test]
fn lzma_has_no_content_magic() {
    assert_eq!(
        detect_compressor(&[0x5d, 0x00, 0x00, 0x80, 0x00, 0xff]),
        None
    );
}

#[test]
fn brotli_has_no_content_magic() {
    assert_eq!(detect_compressor(&[0x0b, 0x00, 0x80]), None);
}

#[test]
fn detect_compressor_recognizes_snappy() {
    assert_eq!(
        detect_compressor(&[
            0xFF, 0x06, 0x00, 0x00, 0x73, 0x4E, 0x61, 0x50, 0x70, 0x59, 0x01
        ]),
        Some(Compressor::Snappy)
    );
    assert_eq!(detect_compressor(&[0xFF, 0x06, 0x00, 0x00]), None);
}

#[test]
fn stem_strips_sz() {
    assert_eq!(
        stem_without_compressor_ext("/tmp/data.tar.sz"),
        "data.tar"
    );
    assert_eq!(
        stem_without_compressor_ext("notes.txt.sz"),
        "notes.txt"
    );
}

#[test]
fn stem_strips_lz() {
    assert_eq!(
        stem_without_compressor_ext("/tmp/payload.tar.lz"),
        "payload.tar"
    );
    assert_eq!(
        stem_without_compressor_ext("hello.txt.lz"),
        "hello.txt"
    );
    assert_eq!(
        stem_without_compressor_ext("hello.txt.lzma"),
        "hello.txt"
    );
}

#[test]
fn stem_strips_lzma() {
    assert_eq!(
        stem_without_compressor_ext("/tmp/data.tar.lzma"),
        "data.tar"
    );
    assert_eq!(
        stem_without_compressor_ext("notes.txt.lzma"),
        "notes.txt"
    );
}

#[test]
fn stem_strips_br() {
    assert_eq!(
        stem_without_compressor_ext("/tmp/data.tar.br"),
        "data.tar"
    );
    assert_eq!(
        stem_without_compressor_ext("notes.txt.br"),
        "notes.txt"
    );
}

#[test]
fn copy_slice_exact_copies_the_whole_range() {
    let mut src = reader(b"0123456789");
    let out = copy_slice_exact(&mut src, 3, 4, "test").unwrap();
    assert_eq!(out, b"3456");
}

#[test]
fn copy_slice_exact_refuses_a_short_read() {
    let mut src = reader(b"0123456789");
    let err = copy_slice_exact(&mut src, 6, 8, "warc").unwrap_err();
    let msg = err.to_string();
    assert!(matches!(err, Error::Corrupt(_)), "expected Corrupt: {msg}");
    assert!(msg.contains("warc"), "message must name the source: {msg}");
    assert!(
        msg.contains("4 of 8 bytes"),
        "message must say how much arrived: {msg}"
    );
}

#[test]
fn suffixes_of_bundles_are_distinct() {
    let v = all_zip_bundles();
    for i in 0..v.len() {
        for j in 0..i {
            assert_ne!(v[i].0, v[j].0);
            assert_ne!(v[i].1, v[j].1);
        }
    }
}

#[test]
fn only_names_tell_compressors_without_a_mark() {
    for name in ["a.gz", "a.bz2", "a.xz", "a.zst", "a.lz4", "a.sz", "a.lz", "a.Z"] {
        assert_eq!(detect_compressor_by_ext(name), None);
    }
}

#[test]
fn stem_of_a_path_without_a_name_is_data() {
    assert_eq!(stem_without_compressor_ext("/"), "data");
    assert_eq!(stem_without_compressor_ext(".."), "data");
}

#[test]
fn gzip_time_is_read_from_its_header() {
    let mut h = vec![0x1f, 0x8b, 8, 0, 1, 2, 0, 0, 0, 3];
    let t = read_gz_mtime(&h).unwrap();
    assert_eq!((t.secs, t.nanos), (0x201, 0));
    h[4] = 0;
    h[5] = 0;
    assert!(read_gz_mtime(&h).is_none());
    assert!(read_gz_mtime(&h[..7]).is_none());
}

#[test]
fn peeking_goes_back_to_the_start() {
    let mut r = reader(b"abcdef");
    assert_eq!(peek_from_start(&mut r, 3).unwrap(), b"abc");
    assert_eq!(peek_from_start(&mut r, 100).unwrap(), b"abcdef");
    assert_eq!(position(&mut r), 0);
}

fn ustar() -> Vec<u8> {
    let mut block = vec![0u8; 512];
    block[..5].copy_from_slice(b"a.txt");
    block[100..107].copy_from_slice(b"0000644");
    block[108..115].copy_from_slice(b"0000000");
    block[116..123].copy_from_slice(b"0000000");
    block[124..135].copy_from_slice(b"00000000003");
    block[136..147].copy_from_slice(b"00000000005");
    block[156] = b'0';
    block[257..263].copy_from_slice(b"ustar\0");
    block[263..265].copy_from_slice(b"00");
    block[148..156].copy_from_slice(b"        ");
    let sum: u32 = block.iter().map(|&b| u32::from(b)).sum();
    let field = format!("{:06o}\0 ", sum);
    block[148..156].copy_from_slice(field.as_bytes());
    let mut tar = block;
    let mut body = b"xyz".to_vec();
    body.resize(512, 0);
    tar.extend_from_slice(&body);
    tar.extend_from_slice(&[0u8; 1024]);
    tar
}

#[test]
fn tar_is_known_by_its_mark() {
    let mut r = reader(&ustar());
    assert!(is_tar(&mut r).unwrap());
    assert_eq!(position(&mut r), 0);
    assert!(!is_tar(&mut reader(&[0u8; 263])).unwrap());
    assert!(!is_tar(&mut reader(b"ustar")).unwrap());
}

fn gz(data: &[u8]) -> Vec<u8> {
    let mut e = flate2::write::GzEncoder::new(Vec::new(), flate2::Compression::default());
    std::io::Write::write_all(&mut e, data).unwrap();
    e.finish().unwrap()
}

#[test]
fn compressed_tar_is_opened_as_tar() {
    let opts = OpenOptions::default();
    match open_single("/tmp/x.tar.gz", gz(&ustar()), &opts).unwrap() {
        Opening::Unpacked(Unpacked::Tar(r)) => {
            assert_eq!(r.format(), FormatId::Tar);
            assert_eq!(r.entries()[0].path, "a.txt");
            assert_eq!(r.read_entry(0).unwrap(), b"xyz");
            assert!(matches!(r.read_entry(1), Err(Error::InvalidIndex(1))));
            assert!(r.verify_password().is_ok());
        }
        other => panic!("unexpected {other:?}"),
    }
}

#[test]
fn compressed_file_is_one_entry() {
    let opts = OpenOptions::default();
    match open_single("/tmp/notes.txt.gz", gz(b"PK\x03\x04 not opened here"), &opts).unwrap() {
        Opening::Unpacked(Unpacked::Single(r)) => {
            assert_eq!(r.format(), FormatId::Raw);
            assert_eq!(r.entries().len(), 1);
            assert_eq!(r.entries()[0].path, "notes.txt");
            assert_eq!(r.entries()[0].size, 20);
            assert!(r.entries()[0].modified.is_none());
            assert_eq!(r.read_entry(0).unwrap(), b"PK\x03\x04 not opened here");
        }
        other => panic!("unexpected {other:?}"),
    }
}

#[test]
fn damaged_compressed_file_is_an_input_failure() {
    let mut bytes = gz(b"something");
    bytes.truncate(12);
    let r = open_single("x.gz", bytes, &OpenOptions::default());
    assert!(matches!(r, Err(Error::Io(_))), "got {r:?}");
}

#[test]
fn lzw_content_is_handed_on() {
    let r = open_single("x.Z", vec![0x1f, 0x9d, 0x90, 0], &OpenOptions::default());
    assert!(matches!(r, Ok(Opening::Lzw)));
    match open_unpacked("x.Z", &[0x1f, 0x9d], Compressor::Lzc, b"plain".to_vec(), &OpenOptions::default()) {
        Ok(Unpacked::Single(r)) => assert_eq!(r.entries()[0].path, "x"),
        other => panic!("unexpected {other:?}"),
    }
}

fn chosen(name: &str, bytes: &[u8]) -> FormatId {
    match route(Some(name), bytes).unwrap() {
        Route::Open(h) => h.id(),
        other => panic!("unexpected {other:?}"),
    }
}

#[test]
fn web_archives_come_before_compression() {
    assert_eq!(chosen("a.warc.gz", &[0x1f, 0x8b, 8, 0]), FormatId::Warc);
    assert_eq!(chosen("A.WARC", b"whatever"), FormatId::Warc);
}

#[test]
fn disk_images_are_known_by_name_and_trailer() {
    assert_eq!(chosen("a.dmg", b"BZh91AY"), FormatId::Dmg);
    let mut image = b"BZh91AY".to_vec();
    let mut trailer = vec![0u8; 512];
    trailer[..4].copy_from_slice(b"koly");
    image.extend_from_slice(&trailer);
    assert_eq!(chosen("a.iso", &image), FormatId::Dmg);
}

#[test]
fn bundles_come_before_zip() {
    assert_eq!(chosen("a.zip", b"PK\x03\x04...."), FormatId::Zip);
    assert_eq!(chosen("a.JAR", b"PK\x03\x04...."), FormatId::Jar);
    assert_eq!(chosen("a.conda", b"PK\x03\x04...."), FormatId::Conda);
}

#[test]
fn debian_packages_come_before_ar_archives() {
    assert_eq!(chosen("a", b"!<arch>\ndebian-binary   1"), FormatId::Deb);
    assert_eq!(chosen("a", b"!<arch>\nhello.txt/      1"), FormatId::Ar);
}

#[test]
fn deep_signatures_are_looked_at_last() {
    let mut iso = vec![0u8; 0x8010];
    iso[0x8001..0x8006].copy_from_slice(b"CD001");
    assert_eq!(chosen("noext", &iso), FormatId::Iso);
    let mut hfs = vec![0u8; 2048];
    hfs[1024..1026].copy_from_slice(b"H+");
    assert_eq!(chosen("noext", &hfs), FormatId::HfsPlus);
    assert!(matches!(route(Some("noext"), &[0u8; 2048]), Err(Error::UnknownFormat)));
    assert!(matches!(route(None, b""), Err(Error::UnknownFormat)));
}

#[test]
fn names_of_unmarked_compressors_count_in_any_case() {
    assert!(matches!(route(Some("A.BR"), b"xx"), Ok(Route::Unpack(Compressor::Brotli))));
    assert!(matches!(route(Some("a.tar.LZMA"), b"xx"), Ok(Route::Unpack(Compressor::Lzma))));
}

#[test]
fn first_of_the_surest_handlers_is_chosen() {
    let hs = registry();
    let i = choose_handler(&hs, b"MZ\x90\x00", Some("setup.exe")).unwrap();
    assert_eq!(hs[i].id(), FormatId::Sfx);
    assert_eq!(hs[i].probe(b"MZ\x90\x00", Some("setup.exe")), Confidence(50));
    assert!(choose_handler(&hs, b"", None).is_none());
}

#[test]
fn ids_of_the_registry_are_distinct() {
    let hs = registry();
    for i in 0..hs.len() {
        for j in 0..i {
            assert_ne!(hs[i].id(), hs[j].id());
        }
    }
    assert!(hs.iter().any(|h| matches!(h, Handler::Nsis)));
}

#[test]
fn volumes_are_joined_only_where_there_are_several() {
    assert!(is_first_volume("/tmp/ARCHIVE.ZIP.001"));
    assert!(!is_first_volume("/tmp/archive.zip.002"));
    assert_eq!(plan("a.001", 3, false), Plan::JoinVolumes);
    assert_eq!(plan("a.001", 1, false), Plan::Direct);
    assert_eq!(plan("a.zip", 0, true), Plan::JoinedZip);
    assert_eq!(plan("a.zip", 0, false), Plan::Direct);
}

struct Log(Vec<String>);

impl EntrySink for Log {
    fn begin(&mut self, idx: usize) -> Result<SinkStep, Error> {
        self.0.push(format!("begin {idx}"));
        Ok(if idx == 0 { SinkStep::Body } else { SinkStep::Stop })
    }

    fn write_body(&mut self, buf: &[u8]) -> Result<(), Error> {
        self.0.push(format!("body {}", buf.len()));
        Ok(())
    }

    fn end(&mut self, idx: usize, outcome: Result<(), Error>) -> Result<bool, Error> {
        self.0.push(format!("end {idx} {}", outcome.is_ok()));
        Ok(true)
    }
}

#[test]
fn wrapped_reader_passes_on_calls() {
    let opts = OpenOptions::default();
    let inner = match open_single("n.gz", gz(b"four"), &opts).unwrap() {
        Opening::Unpacked(Unpacked::Single(r)) => r,
        other => panic!("unexpected {other:?}"),
    };
    let wrapped = TempBackedReader::with_format(inner, FormatId::Deb);
    assert_eq!(wrapped.format(), FormatId::Deb);
    let mut log = Log(Vec::new());
    wrapped.read_entries(&[0, 0, 1], &mut log).unwrap();
    assert_eq!(
        log.0,
        vec!["begin 0", "body 4", "end 0 true", "begin 0", "body 4", "end 0 true", "begin 1"]
    );
}

#[test]
fn peeking_reads_from_the_start_wherever_the_reader_stands() {
    let mut r = reader(b"abcdef");
    r.seek(SeekTo::Start(3)).unwrap();
    assert_eq!(peek_from_start(&mut r, 3).unwrap(), b"abc");
    assert_eq!(position(&mut r), 0);
    let mut moved = reader(b"070701000000");
    moved.seek(SeekTo::Start(5)).unwrap();
    assert!(is_cpio(&mut moved).unwrap());
    assert_eq!(position(&mut moved), 0);
    moved.seek(SeekTo::End(0)).unwrap();
    assert!(!is_tar(&mut moved).unwrap());
    assert_eq!(position(&mut moved), 0);
}

#[test]
fn every_zip_based_container_is_told_from_a_zip_archive() {
    let handlers = registry();
    for (name, format) in [("a.war", FormatId::War), ("A.APPX", FormatId::Appx), ("a.xpi", FormatId::Xpi)] {
        let i = choose_handler(&handlers, b"PK\x03\x04", Some(name)).unwrap();
        assert!(matches!(&handlers[i], Handler::Bundle(b) if b.id() == format));
        assert!(!matches!(choose_handler(&handlers, b"Rar!", Some(name)).map(|k| &handlers[k]), Some(Handler::Bundle(_))));
    }
}

#[test]
fn a_brotli_file_is_one_entry() {
    let packed: &[u8] = &[0x0b, 0x02, 0x80, 0x68, 0x65, 0x6c, 0x6c, 0x6f, 0x03];
    let opts = OpenOptions::default();
    match open_single("/tmp/notes.txt.br", packed.to_vec(), &opts) {
        Ok(Opening::Unpacked(Unpacked::Single(r))) => {
            assert_eq!(r.format(), FormatId::Raw);
            assert_eq!(r.entries()[0].path, "notes.txt");
            assert_eq!(r.read_entry(0).unwrap(), b"hello");
        }
        _ => panic!("not one entry"),
    }
    assert!(matches!(open_single("/tmp/notes.txt.br", packed[..4].to_vec(), &opts), Err(Error::Io(_))));
}
