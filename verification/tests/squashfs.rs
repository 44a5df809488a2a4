//! Squashfs images.
use newtua_core::archive::{ArchiveReader, Confidence, EntryKind, FormatHandler, FormatId, Source};
use newtua_core::datetime::{Stamp, Timestamp};
use newtua_core::error::{Error, IoError, IoKind};
use newtua_core::format::squashfs::{mtime_to_systime, open_squashfs, Node, NodeKind, SquashfsHandler};

#[test]
fn id_is_squashfs() {
    assert_eq!(SquashfsHandler.id(), FormatId::Squashfs);
}

#[test]
fn squashfs_probe_magic_is_magic() {
    assert_eq!(
        SquashfsHandler.probe(b"hsqs\x00\x00", Some("img.bin")),
        Confidence::magic()
    );
}

#[test]
fn probe_squashfs_extension_is_magic() {
    assert_eq!(
        SquashfsHandler.probe(b"\x00\x00\x00\x00", Some("disk.squashfs")),
        Confidence::magic()
    );
}

#[test]
fn probe_sfs_extension_is_magic() {
    assert_eq!(
        SquashfsHandler.probe(b"\x00\x00\x00\x00", Some("disk.SFS")),
        Confidence::magic()
    );
}

#[test]
fn probe_plain_zip_no_magic_is_none() {
    assert_eq!(
        SquashfsHandler.probe(b"PK\x03\x04", Some("a.zip")),
        Confidence::none()
    );
}

#[test]
fn squashfs_probe_no_name_no_magic_is_none() {
    assert_eq!(
        SquashfsHandler.probe(b"\x00\x00\x00\x00", None),
        Confidence::none()
    );
}

#[test]
fn squashfs_open_path_less_source_is_unsupported() {
    let src = Source::Stream {
        inner: Vec::new(),
        path: None,
    };
    let err = SquashfsHandler
        .open(&src, Ok(Vec::new()))
        .err()
        .expect("path-less source must be unsupported");
    assert!(matches!(err, Error::Unsupported { .. }), "got {err:?}");
}

fn node(fullpath: &str, kind: NodeKind) -> Node {
    Node { fullpath: String::from(fullpath), permissions: 0o755, mtime: 60, kind }
}

#[test]
fn nodes_become_entries() {
    let broken = IoError { kind: IoKind::InvalidData, message: String::from("bad block") };
    let nodes = vec![
        node("/", NodeKind::Dir),
        node("/bin", NodeKind::Dir),
        node("/bin/x", NodeKind::File { size: 2, body: Ok(b"ok".to_vec()) }),
        node("/dev/null", NodeKind::Special),
        node("/bad", NodeKind::File { size: 9, body: Err(broken) }),
        node("/l", NodeKind::Symlink { target: String::from("bin/x") }),
    ];
    let r = open_squashfs(Ok(nodes)).unwrap();
    assert_eq!(r.format(), FormatId::Squashfs);
    let names: Vec<&str> = r.entries().iter().map(|e| e.path.as_str()).collect();
    assert_eq!(names, ["bin", "bin/x", "bad", "l"]);
    assert_eq!(r.read_entry(1).unwrap(), b"ok");
    assert!(matches!(r.read_entry(2), Err(Error::Io(_))));
    assert!(matches!(&r.entries()[3].kind, EntryKind::Symlink { target } if target == "bin/x"));
    assert_eq!(r.entries()[0].mode, Some(0o755));
    assert_eq!(r.entries()[0].modified, Some(Stamp::Instant(Timestamp { secs: 60, nanos: 0 })));
}

#[test]
fn image_that_cannot_be_mounted_is_corrupt() {
    assert!(matches!(open_squashfs(Err(String::from("no"))), Err(Error::Corrupt(m)) if m == "squashfs: no"));
    assert_eq!(mtime_to_systime(0), None);
    assert_eq!(mtime_to_systime(5), Some(Timestamp { secs: 5, nanos: 0 }));
    let src = Source::Seekable { inner: Vec::new(), path: Some(String::from("/a/b")) };
    assert_eq!(SquashfsHandler.image_path(&src).unwrap(), "/a/b");
}
