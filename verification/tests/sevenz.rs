//! 7-Zip archives.
use newtua_core::archive::{
    ArchiveReader, BatchReader, Confidence, EntrySink, FormatHandler, FormatId, OpenOptions, SinkStep, Source,
};
use newtua_core::encoding::decode_names;
use newtua_core::error::{Error, IoError, IoKind};
use newtua_core::format::sevenz::{map_7z_err, validate_7z_header, Failure, SevenZHandler, SevenZReader, SEVENZ_MAGIC};
use sevenz_rust2::encoder_options::AesEncoderOptions;
use sevenz_rust2::{ArchiveEntry, ArchiveWriter, EncoderMethod, Password};

#[test]
fn probe_detects_7z_magic() {
    assert_eq!(SevenZHandler.probe(&SEVENZ_MAGIC, None), Confidence::magic());
}

#[test]
fn sevenz_probe_rejects_other() {
    assert_eq!(SevenZHandler.probe(b"PK\x03\x04", None), Confidence::none());
}

#[test]
fn sevenz_handler_id_is_sevenz() {
    assert_eq!(SevenZHandler.id(), FormatId::SevenZ);
}

#[test]
fn symlink_target_honors_encoding_override() {
    let raw_target = vec![b'c', b'a', b'f', 0xE9];
    let decoded = decode_names(&[raw_target], Some("windows-1252"))
        .pop()
        .unwrap();
    assert_eq!(decoded, "café");
}

#[test]
fn empty_symlink_target_yields_empty_string() {
    let decoded = decode_names(&[Vec::new()], None).pop().unwrap();
    assert!(decoded.is_empty());
}

fn pack(files: &[(&str, &[u8])], password: Option<&str>) -> Vec<u8> {
    let mut w = ArchiveWriter::new(std::io::Cursor::new(Vec::new())).unwrap();
    if let Some(p) = password {
        let cipher = AesEncoderOptions::new(Password::new(p));
        w.set_content_methods(vec![cipher.into(), EncoderMethod::LZMA2.into()]);
    }
    for (name, body) in files {
        w.push_archive_entry(ArchiveEntry::new_file(name), Some(*body)).unwrap();
    }
    w.push_archive_entry::<&[u8]>(ArchiveEntry::new_directory("dir"), None).unwrap();
    w.finish().unwrap().into_inner()
}

fn open(bytes: &[u8], password: Option<&str>) -> Result<SevenZReader, Error> {
    let opts = OpenOptions { password: password.map(String::from), encoding_override: None };
    let src = Source::Seekable { inner: bytes.to_vec(), path: Some(String::from("/tmp/a.7z")) };
    SevenZHandler.open(src, &opts)
}

struct Bodies(Vec<(usize, Vec<u8>)>);

impl EntrySink for Bodies {
    fn begin(&mut self, idx: usize) -> Result<SinkStep, Error> {
        self.0.push((idx, Vec::new()));
        Ok(SinkStep::Body)
    }

    fn write_body(&mut self, buf: &[u8]) -> Result<(), Error> {
        self.0.last_mut().unwrap().1.extend_from_slice(buf);
        Ok(())
    }

    fn end(&mut self, _idx: usize, outcome: Result<(), Error>) -> Result<bool, Error> {
        outcome?;
        Ok(true)
    }
}

#[test]
fn files_are_listed_and_read() {
    let r = open(&pack(&[("a.txt", b"alpha"), ("b/c", b"gamma")], None), None).unwrap();
    assert_eq!(r.format(), FormatId::SevenZ);
    let names: Vec<&str> = r.entries().iter().map(|e| e.path.as_str()).collect();
    assert_eq!(names, ["a.txt", "b/c", "dir"]);
    assert!(r.entries()[2].is_dir());
    assert_eq!(r.entries()[1].size, 5);
    assert!(!r.entries()[0].is_encrypted);
    assert_eq!(r.read_entry(0).unwrap(), b"alpha");
    assert_eq!(r.read_entry(1).unwrap(), b"gamma");
    assert_eq!(r.read_entry(2).unwrap(), b"");
    assert!(matches!(r.read_entry(3), Err(Error::InvalidIndex(3))));
    assert!(r.verify_password().is_ok());
    let mut bodies = Bodies(Vec::new());
    r.read_entries(&[1, 0], &mut bodies).unwrap();
    bodies.0.sort();
    assert_eq!(bodies.0, vec![(0, b"alpha".to_vec()), (1, b"gamma".to_vec())]);
}

#[test]
fn encrypted_files_want_their_password() {
    let bytes = pack(&[("a.txt", b"a longer secret text")], Some("open"));
    let r = open(&bytes, Some("open")).unwrap();
    assert!(r.entries()[0].is_encrypted);
    assert_eq!(r.read_entry(0).unwrap(), b"a longer secret text");
    assert!(r.verify_password().is_ok());
    let r = open(&bytes, Some("shut")).unwrap();
    assert!(matches!(r.read_entry(0), Err(Error::WrongPassword)));
    assert!(matches!(r.verify_password(), Err(Error::WrongPassword)));
    match open(&bytes, None) {
        Err(e) => assert!(matches!(e, Error::Encrypted)),
        Ok(r) => {
            assert!(matches!(r.verify_password(), Err(Error::Encrypted)));
            assert!(matches!(r.read_entry(0), Err(Error::Encrypted)));
        }
    }
}

#[test]
fn damaged_start_is_corrupt() {
    let mut bytes = pack(&[("a.txt", b"alpha")], None);
    assert!(validate_7z_header(&bytes).is_ok());
    bytes[12] ^= 1;
    assert!(matches!(validate_7z_header(&bytes), Err(Error::Corrupt(_))));
    assert!(matches!(open(&bytes, None), Err(Error::Corrupt(_))));
    assert!(open(b"7z\xBC\xAF\x27\x1C", None).is_err());
}

#[test]
fn outside_failures_are_told_apart() {
    assert!(matches!(map_7z_err(Failure::PasswordRequired), Error::Encrypted));
    assert!(matches!(map_7z_err(Failure::MaybeBadPassword), Error::WrongPassword));
    let gone = IoError { kind: IoKind::NotFound, message: String::from("x") };
    assert!(matches!(map_7z_err(Failure::Io(gone)), Error::Io(_)));
    assert!(matches!(map_7z_err(Failure::Other(String::from("x"))), Error::Corrupt(_)));
}

#[test]
fn a_block_without_a_list_of_files_has_no_entries() {
    let crc = |bytes: &[u8]| {
        let mut c = flate2::Crc::new();
        c.update(bytes);
        c.sum().to_le_bytes()
    };
    let next: &[u8] = &[1, 4, 6, 0, 1, 9, 3, 0, 7, 11, 1, 0, 1, 1, 0, 12, 3, 0, 0, 0];
    let mut place = 3u64.to_le_bytes().to_vec();
    place.extend_from_slice(&(next.len() as u64).to_le_bytes());
    place.extend_from_slice(&crc(next));
    let mut bytes = SEVENZ_MAGIC.to_vec();
    bytes.extend_from_slice(&[0, 4]);
    bytes.extend_from_slice(&crc(&place));
    bytes.extend_from_slice(&place);
    bytes.extend_from_slice(b"abc");
    bytes.extend_from_slice(next);
    let r = open(&bytes, None).unwrap();
    assert!(r.entries().is_empty());
    let mut sink = Bodies(Vec::new());
    r.read_entries(&[], &mut sink).unwrap();
    assert!(sink.0.is_empty());
}

#[test]
fn a_pass_over_some_files_gives_what_single_reads_give() {
    let bytes = pack(&[("a", b"alpha"), ("b", b"beta"), ("c", b"gamma")], None);
    let r = open(&bytes, None).unwrap();
    let mut sink = Bodies(Vec::new());
    r.read_entries(&[0, 2], &mut sink).unwrap();
    assert_eq!(sink.0.len(), 2);
    for (i, body) in sink.0 {
        assert_eq!(body, r.read_entry(i).unwrap());
    }
}
