//! Conda packages.
use newtua_core::archive::{ArchiveReader, Confidence, Entry, EntryKind, FormatHandler, FormatId, OpenOptions, Source};
use newtua_core::bytes::ends_with_ascii_ci;
use newtua_core::error::Error;
use newtua_core::format::conda::{open_conda, CondaHandler};
use newtua_core::format::stored::{Body, StoredReader};

#[test]
fn ends_with_ascii_ci_matches_suffix() {
    let suf = b".tar.zst";
    assert!(ends_with_ascii_ci(b"pkg-foo-1.0.tar.zst", suf));
    assert!(ends_with_ascii_ci(b"info-foo-1.0.tar.zst", suf));
    assert!(ends_with_ascii_ci(b"X.TAR.ZST", suf));
    assert!(!ends_with_ascii_ci(b"metadata.json", suf));
    assert!(!ends_with_ascii_ci(b"foo.tar", suf));
    assert!(!ends_with_ascii_ci(b"foo.zst", suf));
    assert!(!ends_with_ascii_ci(b"zst", suf));
}

#[test]
fn probe_pk_plus_conda_is_magic() {
    assert_eq!(
        CondaHandler.probe(b"PK\x03\x04xx", Some("pkg.conda")),
        Confidence::magic()
    );
}

#[test]
fn conda_probe_is_case_insensitive() {
    assert_eq!(
        CondaHandler.probe(b"PK\x03\x04xx", Some("PKG.CONDA")),
        Confidence::magic()
    );
}

#[test]
fn probe_pk_plain_zip_is_none() {
    assert_eq!(
        CondaHandler.probe(b"PK\x03\x04xx", Some("plain.zip")),
        Confidence::none()
    );
}

#[test]
fn probe_conda_without_pk_is_none() {
    assert_eq!(
        CondaHandler.probe(b"not-a-zip", Some("pkg.conda")),
        Confidence::none()
    );
}

#[test]
fn conda_probe_no_name_is_none() {
    assert_eq!(CondaHandler.probe(b"PK\x03\x04xx", None), Confidence::none());
}

fn tar_zst(files: &[(&str, &[u8])]) -> Vec<u8> {
    let mut b = tar::Builder::new(Vec::new());
    for (name, body) in files {
        let mut h = tar::Header::new_gnu();
        h.set_size(body.len() as u64);
        b.append_data(&mut h, name, *body).unwrap();
    }
    zstd::encode_all(&b.into_inner().unwrap()[..], 0).unwrap()
}

fn entry(path: &str) -> Entry {
    Entry {
        path_raw: path.as_bytes().to_vec(),
        path: String::from(path),
        kind: EntryKind::File,
        size: 0,
        mode: None,
        is_encrypted: false,
        modified: None,
        is_resource_fork: false,
    }
}

fn outer(members: Vec<(&str, Body)>) -> StoredReader {
    let mut entries = Vec::new();
    let mut bodies = Vec::new();
    for (name, body) in members {
        entries.push(entry(name));
        bodies.push(body);
    }
    StoredReader::new(FormatId::Zip, Vec::new(), entries, bodies)
}

#[test]
fn members_of_a_package_are_shown_as_one() {
    let zip = outer(vec![
        ("metadata.json", Body::Held(b"{}".to_vec())),
        ("pkg-a.tar.zst", Body::Held(tar_zst(&[("lib/a", b"A"), ("lib/b", b"BB")]))),
        ("info-a.TAR.ZST", Body::Held(tar_zst(&[("info/c", b"CCC")]))),
    ]);
    let r = open_conda(&zip, &OpenOptions::default()).unwrap();
    assert_eq!(r.format(), FormatId::Conda);
    let names: Vec<&str> = r.entries().iter().map(|e| e.path.as_str()).collect();
    assert_eq!(names, ["lib/a", "lib/b", "info/c"]);
    assert_eq!(r.read_entry(1).unwrap(), b"BB");
    assert_eq!(r.read_entry(2).unwrap(), b"CCC");
    assert!(matches!(r.read_entry(3), Err(Error::InvalidIndex(3))));
}

#[test]
fn package_without_members_is_corrupt() {
    let zip = outer(vec![("metadata.json", Body::Held(Vec::new()))]);
    assert!(matches!(open_conda(&zip, &OpenOptions::default()), Err(Error::Corrupt(_))));
}

#[test]
fn failure_of_a_member_is_kept() {
    let zip = outer(vec![("a.tar.zst", Body::Fails(Error::WrongPassword))]);
    assert!(matches!(open_conda(&zip, &OpenOptions::default()), Err(Error::WrongPassword)));
    let zip = outer(vec![("a.tar.zst", Body::Held(b"no zstd".to_vec()))]);
    assert!(matches!(open_conda(&zip, &OpenOptions::default()), Err(Error::Io(_))));
}

#[test]
fn failure_of_the_zip_is_kept() {
    let src = Source::Seekable { inner: Vec::new(), path: Some(String::from("/tmp/a.conda")) };
    let failed: Result<StoredReader, Error> = Err(Error::UnknownFormat);
    assert!(matches!(CondaHandler.open(&src, failed, &OpenOptions::default()), Err(Error::UnknownFormat)));
    let src = Source::Stream { inner: Vec::new(), path: None };
    let zip: Result<StoredReader, Error> = Ok(outer(Vec::new()));
    assert!(matches!(CondaHandler.open(&src, zip, &OpenOptions::default()), Err(Error::Unsupported { .. })));
}
