//! Opening a file with the handler of its format.
use newtua_core::archive::{ArchiveReader, FormatId, OpenOptions, Source};
use newtua_core::detect::Handler;
use newtua_core::error::Error;
use newtua_core::opener::{open_handler, Opened};

fn source(bytes: &[u8]) -> Source {
    Source::Seekable { inner: bytes.to_vec(), path: Some("dir/file".into()) }
}

fn tar_of(name: &str, body: &[u8]) -> Vec<u8> {
    let mut b = tar::Builder::new(Vec::new());
    let mut h = tar::Header::new_ustar();
    h.set_size(body.len() as u64);
    h.set_mode(0o644);
    h.set_cksum();
    b.append_data(&mut h, name, body).unwrap();
    b.into_inner().unwrap()
}

#[test]
fn tape_archive_is_opened_by_its_handler() {
    match open_handler(Handler::Tar, source(&tar_of("a", b"body")), &OpenOptions::default()) {
        Ok(Opened::Tar(r)) => {
            assert_eq!(r.format(), FormatId::Tar);
            assert_eq!(r.entries()[0].path, "a");
            assert_eq!(r.read_entry(0).unwrap(), b"body");
        }
        _ => panic!("no tape archive"),
    }
}

#[test]
fn old_format_is_opened_by_its_handler() {
    let mut bytes = vec![0x1A, 2];
    let mut name = b"X.TXT".to_vec();
    name.resize(13, 0);
    bytes.extend(name);
    bytes.extend(3u32.to_le_bytes());
    bytes.extend([0; 6]);
    bytes.extend(3u32.to_le_bytes());
    bytes.extend(b"abc\x1A\0");
    match open_handler(Handler::Arc, source(&bytes), &OpenOptions::default()) {
        Ok(Opened::Legacy(r)) => assert_eq!(r.entries()[0].path, "X.TXT"),
        _ => panic!("no ARC archive"),
    }
}

#[test]
fn failure_of_a_handler_is_handed_on() {
    for h in [Handler::Cpio, Handler::SevenZ, Handler::Lzx, Handler::Dmg, Handler::HfsPlus, Handler::PowerPacker] {
        assert!(open_handler(h, source(b"nothing of the kind"), &OpenOptions::default()).is_err());
    }
    let r = open_handler(Handler::Dmg, source(b"no image"), &OpenOptions::default());
    assert!(matches!(r, Err(Error::UnknownFormat)));
}

#[test]
fn file_that_a_decoder_does_not_come_back_from_is_not_handed_to_it() {
    let mut zoo = vec![0u8; 100];
    zoo[0x14..0x18].copy_from_slice(&[0xDC, 0xA7, 0xC4, 0xFD]);
    zoo[0x18] = 40;
    zoo[40..44].copy_from_slice(&[0xDC, 0xA7, 0xC4, 0xFD]);
    zoo[46] = 40;
    let r = open_handler(Handler::Zoo, source(&zoo), &OpenOptions::default());
    assert!(matches!(r, Ok(Opened::Unreadable)));
}

#[test]
fn what_takes_more_than_the_bytes_is_left_to_others() {
    for h in [Handler::Zip, Handler::Rar, Handler::Cab, Handler::Iso, Handler::Squashfs, Handler::Sfx] {
        assert!(matches!(open_handler(h, source(b"PK\x03\x04"), &OpenOptions::default()), Ok(Opened::Elsewhere)));
    }
}
