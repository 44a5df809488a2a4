//! Tape archives.
use newtua_core::archive::{ArchiveReader, Confidence, EntryKind, FormatHandler, FormatId, OpenOptions, Source};
use newtua_core::datetime::{Stamp, Timestamp};
use newtua_core::error::Error;
use newtua_core::format::tar::{build_reader, check_sparse_sizes, Backing, TarHandler, TarRow};

#[test]
fn probe_detects_ustar_magic() {
    let mut header = vec![0u8; 263];
    header[257..262].copy_from_slice(b"ustar");
    assert_eq!(TarHandler.probe(&header, None), Confidence::magic());
}

#[test]
fn probe_rejects_random_bytes() {
    assert_eq!(TarHandler.probe(&[0u8; 263], None), Confidence::none());
}

fn entry(b: &mut tar::Builder<Vec<u8>>, kind: tar::EntryType, path: &str, link: Option<&str>, body: &[u8]) {
    let mut h = tar::Header::new_gnu();
    h.set_entry_type(kind);
    h.set_size(body.len() as u64);
    h.set_mode(0o100640);
    h.set_mtime(1_000);
    if let Some(l) = link {
        h.set_link_name(l).unwrap();
    }
    b.append_data(&mut h, path, body).unwrap();
}

fn sample() -> Vec<u8> {
    let mut b = tar::Builder::new(Vec::new());
    entry(&mut b, tar::EntryType::Directory, "d/", None, b"");
    entry(&mut b, tar::EntryType::Regular, "d/a.txt", None, b"alpha");
    entry(&mut b, tar::EntryType::Symlink, "l", Some("d/a.txt"), b"");
    b.into_inner().unwrap()
}

#[test]
fn tar_members_are_listed_and_read() {
    let src = Source::Seekable { inner: sample(), path: Some(String::from("/tmp/a.tar")) };
    let r = TarHandler.open(src, &OpenOptions::default()).unwrap();
    assert_eq!(r.format(), FormatId::Tar);
    let e = r.entries();
    assert_eq!(e.len(), 3);
    assert!(e[0].is_dir());
    assert_eq!(e[1].path, "d/a.txt");
    assert_eq!(e[1].path_raw, b"d/a.txt");
    assert_eq!(e[1].size, 5);
    assert_eq!(e[1].modified, Some(Stamp::Instant(Timestamp { secs: 1_000, nanos: 0 })));
    assert_eq!(e[1].mode.map(|m| m & 0o777), Some(0o640));
    assert!(matches!(&e[2].kind, EntryKind::Symlink { target } if target == "d/a.txt"));
    assert_eq!(r.read_entry(1).unwrap(), b"alpha");
    assert!(matches!(r.read_entry(3), Err(Error::InvalidIndex(3))));
}

#[test]
fn archives_read_the_same_from_a_file_and_from_a_stream() {
    let opts = OpenOptions::default();
    let file = TarHandler
        .open(Source::Seekable { inner: sample(), path: Some(String::from("/tmp/a.tar")) }, &opts)
        .unwrap();
    let stream = TarHandler.open(Source::Stream { inner: sample(), path: None }, &opts).unwrap();
    assert_eq!(file.read_entry(1).unwrap(), stream.read_entry(1).unwrap());
}

#[test]
fn rows_make_a_reader() {
    let row = |path: &str, offset, size| TarRow {
        path: path.as_bytes().to_vec(),
        size,
        offset,
        mtime: None,
        mode: None,
        is_symlink: false,
        is_dir: false,
        link: None,
    };
    let rows = vec![row("x", 1, 2), row("y", 3, 9)];
    let opts = OpenOptions::default();
    let r = build_reader(b"abcdef".to_vec(), Backing::Buffer, rows, &opts);
    assert_eq!(r.read_entry(0).unwrap(), b"bc");
    assert!(r.entries()[0].modified.is_none());
}

#[test]
fn a_sparse_member_too_large_to_be_counted_past_is_refused() {
    let mut h = tar::Header::new_gnu();
    h.set_entry_type(tar::EntryType::GNUSparse);
    h.set_path("hole").unwrap();
    h.set_size(u64::MAX - 1023);
    h.as_gnu_mut().unwrap().isextended = [1];
    h.set_cksum();
    let mut bytes = h.as_bytes().to_vec();
    bytes.extend_from_slice(&[0; 1024]);
    assert!(!check_sparse_sizes(&bytes));
    assert!(check_sparse_sizes(&sample()));
    let src = Source::Seekable { inner: bytes, path: Some(String::from("/tmp/a.tar")) };
    assert!(matches!(TarHandler.open(src, &OpenOptions::default()), Err(Error::Io(e)) if e.message == "size overflow"));
}
