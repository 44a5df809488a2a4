//! Cabinets.
use newtua_core::archive::{
    ArchiveReader, BatchReader, Confidence, EntrySink, FormatHandler, FormatId, OpenOptions, SinkStep, Source,
};
use newtua_core::datetime::{dos_words_to_systime, Stamp};
use newtua_core::error::{Error, IoError, IoKind};
use newtua_core::format::cab::{CabFile, CabFolder, CabHandler, CabReader, FolderStream};

#[test]
fn probe_detects_mscf_magic() {
    assert_eq!(CabHandler.probe(b"MSCF\0\0\0\0", None), Confidence::magic());
}

#[test]
fn cab_probe_rejects_other() {
    assert_eq!(CabHandler.probe(b"PK\x03\x04", None), Confidence::none());
}

#[test]
fn cab_probe_rejects_empty() {
    assert_eq!(CabHandler.probe(b"", None), Confidence::none());
}

#[test]
fn cab_handler_id_is_cab() {
    assert_eq!(CabHandler.id(), FormatId::Cab);
}

fn file(name: &str, offset: u64, size: u64) -> CabFile {
    CabFile { name: name.as_bytes().to_vec(), name_is_utf8: false, date: 0x226c, time: 0x59ba, offset, size }
}

fn folder(files: Vec<CabFile>, bytes: &[u8], failure: Option<IoError>) -> CabFolder {
    CabFolder { files, stream: FolderStream::Unpacked { bytes: bytes.to_vec(), failure } }
}

fn hello() -> CabReader {
    let folders = vec![folder(vec![file("hi.txt", 0, 14)], b"Hello, world!\n", None)];
    let src = Source::Seekable { inner: b"MSCF".to_vec(), path: None };
    CabHandler.open(&src, Ok(folders), &OpenOptions::default()).unwrap()
}

#[test]
fn a_date_is_read_as_local_wall_clock_like_zip() {
    let ar = hello();
    let entries = ar.entries();
    assert_eq!(entries[0].modified, dos_words_to_systime(0x226c, 0x59ba).map(Stamp::WallClock));
    assert!(entries[0].modified.is_some());
}

#[test]
fn a_name_is_carried_as_the_bytes_the_cabinet_holds() {
    let ar = hello();
    let entries = ar.entries();
    assert_eq!(entries[0].path_raw, b"hi.txt");
    assert_eq!(entries[0].path, "hi.txt");
}

#[test]
fn a_body_is_the_files_part_of_its_folder() {
    let folders = vec![
        folder(vec![file("a", 0, 3), file("b", 3, 2)], b"xyzuv", None),
        folder(vec![file("dir\\c", 1, 1)], b"pq", None),
    ];
    let ar = CabReader::new(folders, &OpenOptions::default());
    assert_eq!(ar.format(), FormatId::Cab);
    assert_eq!(ar.read_entry(0).unwrap(), b"xyz");
    assert_eq!(ar.read_entry(1).unwrap(), b"uv");
    assert_eq!(ar.read_entry(2).unwrap(), b"q");
    assert_eq!(ar.entries()[2].path, "dir/c");
    assert!(matches!(ar.read_entry(3), Err(Error::InvalidIndex(3))));
}

fn bad() -> IoError {
    IoError { kind: IoKind::InvalidData, message: String::from("bad block") }
}

#[test]
fn a_broken_folder_fails_only_what_lies_past_the_break() {
    let folders = vec![folder(vec![file("a", 0, 3), file("b", 3, 4)], b"xyzuv", Some(bad()))];
    let ar = CabReader::new(folders, &OpenOptions::default());
    assert_eq!(ar.read_entry(0).unwrap(), b"xyz");
    assert!(matches!(ar.read_entry(1), Err(Error::Corrupt(_))));
}

#[test]
fn a_cabinet_that_cannot_be_parsed_is_corrupt() {
    let src = Source::Seekable { inner: Vec::new(), path: None };
    let r = CabHandler.open(&src, Err(bad()), &OpenOptions::default());
    assert!(matches!(r, Err(Error::Corrupt(_))));
    let src = Source::Stream { inner: Vec::new(), path: None };
    let r = CabHandler.open(&src, Ok(Vec::new()), &OpenOptions::default());
    assert!(matches!(r, Err(Error::Unsupported { .. })));
}

struct Order(Vec<usize>);

impl EntrySink for Order {
    fn begin(&mut self, idx: usize) -> Result<SinkStep, Error> {
        self.0.push(idx);
        Ok(SinkStep::Body)
    }

    fn write_body(&mut self, _buf: &[u8]) -> Result<(), Error> {
        Ok(())
    }

    fn end(&mut self, _idx: usize, outcome: Result<(), Error>) -> Result<bool, Error> {
        outcome?;
        Ok(true)
    }
}

#[test]
fn a_batch_goes_through_each_folder_once_in_order() {
    let folders = vec![
        folder(vec![file("a", 3, 2), file("b", 0, 3)], b"xyzuv", None),
        folder(vec![file("c", 0, 1)], b"p", None),
    ];
    let ar = CabReader::new(folders, &OpenOptions::default());
    let mut order = Order(Vec::new());
    ar.read_entries(&[2, 0, 1], &mut order).unwrap();
    assert_eq!(order.0, vec![1, 0, 2]);
}
