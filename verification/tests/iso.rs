//! ISO 9660 images.
use newtua_core::archive::{Confidence, FormatHandler, FormatId, Source};
use newtua_core::datetime::Timestamp;
use newtua_core::error::Error;
use newtua_core::format::iso::{
    has_iso_signature, offset_datetime_to_systime, Ask, IsoHandler, IsoWalk, Item, Record, RecordKind,
};

#[test]
fn id_is_iso() {
    assert_eq!(IsoHandler.id(), FormatId::Iso);
}

#[test]
fn probe_positive_iso_extension() {
    assert_eq!(
        IsoHandler.probe(&[], Some("disk.iso")),
        Confidence::extension()
    );
}

#[test]
fn probe_positive_iso_extension_uppercase() {
    assert_eq!(
        IsoHandler.probe(&[], Some("disk.ISO")),
        Confidence::extension()
    );
}

#[test]
fn probe_negative_zip_extension() {
    assert_eq!(IsoHandler.probe(&[], Some("disk.zip")), Confidence::none());
}

#[test]
fn iso_probe_negative_no_name() {
    assert_eq!(IsoHandler.probe(&[], None), Confidence::none());
}

#[test]
fn probe_negative_no_extension() {
    assert_eq!(IsoHandler.probe(&[], Some("isofile")), Confidence::none());
}

fn file(name: &str, handle: u64) -> Item {
    Item::Good(Record { name: String::from(name), kind: RecordKind::File { size: 3 }, mode: None, modified: 60, handle })
}

fn dir(name: &str, extent: u32, handle: u64) -> Item {
    Item::Good(Record { name: String::from(name), kind: RecordKind::Directory { extent }, mode: None, modified: 60, handle })
}

#[test]
fn walk_goes_through_the_directories() {
    let walk = IsoWalk::start(20);
    let (walk, ask) = walk.give(vec![file("a", 1), dir("d", 21, 7), file("z", 2)]);
    assert!(matches!(ask, Ask::List(7)));
    let (walk, ask) = walk.give(vec![file("b", 3)]);
    assert!(matches!(ask, Ask::Done));
    let (entries, files) = walk.into_parts();
    let names: Vec<&str> = entries.iter().map(|e| e.path.as_str()).collect();
    assert_eq!(names.len(), 4);
    assert!(names.contains(&"d/b"));
    assert_eq!(files.iter().filter(|f| f.is_some()).count(), 3);
}

#[test]
fn directory_is_walked_once() {
    let walk = IsoWalk::start(20);
    let (walk, ask) = walk.give(vec![dir("d", 20, 7), dir("e", 22, 8)]);
    assert!(matches!(ask, Ask::List(8)));
    let (_, ask) = walk.give(vec![dir("f", 20, 9), dir("g", 22, 10)]);
    assert!(matches!(ask, Ask::Done));
}

#[test]
fn bad_record_fails_the_walk() {
    let (_, ask) = IsoWalk::start(20).give(vec![Item::Bad(Error::Corrupt(String::from("bad")))]);
    assert!(matches!(ask, Ask::Fail(Error::Corrupt(_))));
}

#[test]
fn image_is_known_by_its_signature() {
    let mut image = vec![0u8; 0x8006];
    assert!(!has_iso_signature(&image));
    image[0x8001..0x8006].copy_from_slice(b"CD001");
    assert!(has_iso_signature(&image));
    let source = |inner: Vec<u8>| Source::Seekable { inner, path: Some(String::from("/tmp/a.iso")) };
    assert!(IsoHandler.check(&source(image)).is_ok());
    assert!(matches!(IsoHandler.check(&source(vec![0; 0x9000])), Err(Error::UnknownFormat)));
    assert!(matches!(IsoHandler.check(&source(Vec::new())), Err(Error::Io(_))));
    let src = Source::Stream { inner: Vec::new(), path: None };
    assert!(matches!(IsoHandler.check(&src), Err(Error::Unsupported { .. })));
}

#[test]
fn times_before_1970_are_none() {
    assert_eq!(offset_datetime_to_systime(-1), None);
    assert_eq!(offset_datetime_to_systime(9), Some(Timestamp { secs: 9, nanos: 0 }));
}
