//! HFS+ volumes.
use newtua_core::archive::{ArchiveReader, Confidence, EntryKind, FormatHandler, FormatId, ReadSeek, SeekTo, Source};
use newtua_core::datetime::{Stamp, Timestamp};
use newtua_core::error::Error;
use newtua_core::format::dmg::{locate_hfsplus, open_volume};
use newtua_core::format::hfstree::check_volume;
use newtua_core::format::hfsplus::{
    has_hfsplus_signature, hfs_date_to_systime, open_hfsplus, open_hfsplus_reader, HfsPlusHandler, OffsetReader, HFS_EPOCH_TO_UNIX_EPOCH_SECS,
};

fn at(secs: i128) -> Timestamp {
    Timestamp { secs, nanos: 0 }
}

#[test]
fn id_is_hfsplus() {
    assert_eq!(HfsPlusHandler.id(), FormatId::HfsPlus);
}

#[test]
fn probe_hfs_extension_is_magic() {
    assert_eq!(
        HfsPlusHandler.probe(&[], Some("image.hfs")),
        Confidence::magic()
    );
}

#[test]
fn probe_hfsplus_extension_is_magic() {
    assert_eq!(
        HfsPlusHandler.probe(&[], Some("image.HFSPLUS")),
        Confidence::magic()
    );
}

#[test]
fn probe_hfsx_extension_is_magic() {
    assert_eq!(
        HfsPlusHandler.probe(&[], Some("image.hfsx")),
        Confidence::magic()
    );
}

#[test]
fn hfsplus_probe_other_extension_is_none() {
    assert_eq!(
        HfsPlusHandler.probe(&[], Some("image.dmg")),
        Confidence::none()
    );
}

#[test]
fn hfsplus_probe_no_name_is_none() {
    assert_eq!(HfsPlusHandler.probe(&[], None), Confidence::none());
}

#[test]
fn hfsplus_open_path_less_source_is_unsupported() {
    let src = Source::Stream {
        inner: Vec::new(),
        path: None,
    };
    let err = HfsPlusHandler
        .open(src)
        .err()
        .expect("path-less source must be unsupported");
    assert!(matches!(err, Error::Unsupported { .. }), "got {err:?}");
}

#[test]
fn hfs_date_zero_is_none() {
    assert_eq!(hfs_date_to_systime(0), None);
}

#[test]
fn hfs_date_just_below_unix_epoch_is_none() {
    assert_eq!(
        hfs_date_to_systime((HFS_EPOCH_TO_UNIX_EPOCH_SECS - 1) as u32),
        None
    );
}

#[test]
fn hfs_date_at_unix_epoch_is_some_epoch() {
    let t = hfs_date_to_systime(HFS_EPOCH_TO_UNIX_EPOCH_SECS as u32).expect("some");
    assert_eq!(t, at(0));
}

#[test]
fn hfs_date_one_day_after_unix_epoch() {
    let one_day = 86_400u64;
    let t = hfs_date_to_systime((HFS_EPOCH_TO_UNIX_EPOCH_SECS + one_day) as u32).expect("some");
    assert_eq!(t, at(i128::from(one_day)));
}

#[test]
fn offset_reader_reads_from_base() {
    let data = b"0123456789ABCDEF";
    let mut r = OffsetReader::new(data.to_vec(), 4);

    let buf = r.read(4);
    assert_eq!(buf, b"4567");
}

#[test]
fn offset_reader_seek_start_is_relative_to_base() {
    let data = b"0123456789ABCDEF";
    let mut r = OffsetReader::new(data.to_vec(), 4);

    r.seek(SeekTo::Start(2)).expect("seek");
    let buf = r.read(3);
    assert_eq!(buf, b"678");
}

#[test]
fn offset_reader_seek_current_and_end() {
    let data = b"0123456789ABCDEF";
    let mut r = OffsetReader::new(data.to_vec(), 4);

    r.seek(SeekTo::Current(3)).expect("seek current");
    let one = r.read(1);
    assert_eq!(one, b"7");

    let end = r.seek(SeekTo::End(0)).expect("seek end");
    assert_eq!(end, 12);
    assert!(r.read(1).is_empty());
}

#[test]
fn offset_reader_read_never_crosses_past_len() {
    let data = b"0123456789";
    let mut r = OffsetReader::new(data.to_vec(), 6);

    let buf = r.read(64);
    assert_eq!(buf, b"6789");
}

#[test]
fn offset_reader_zero_base_matches_plain_read() {
    let data = b"hello world";
    let mut r = OffsetReader::new(data.to_vec(), 0);

    let buf = r.read(64);
    assert_eq!(buf, data);
}

#[test]
fn open_hfsplus_reader_rejects_truncated_input() {
    let short = (vec![0u8; 600]);
    let err = open_hfsplus_reader(short).err().expect("must error");
    assert!(matches!(err, Error::UnknownFormat), "got {err:?}");
}

#[test]
fn open_hfsplus_reader_rejects_bad_signature() {
    let mut bytes = vec![0u8; 1024 + 2];
    bytes[1024..1026].copy_from_slice(&[0x00, 0x00]);
    let err = open_hfsplus_reader((bytes))
        .err()
        .expect("must error");
    assert!(matches!(err, Error::UnknownFormat), "got {err:?}");
}

#[test]
fn open_hfsplus_reader_rejects_legacy_hfs_bd_signature() {
    let mut bytes = vec![0u8; 1024 + 2];
    bytes[1024..1026].copy_from_slice(&[0x42, 0x44]);
    let err = open_hfsplus_reader((bytes))
        .err()
        .expect("must error");
    assert!(matches!(err, Error::UnknownFormat), "got {err:?}");
}

const BLOCK: usize = 4096;
const DATE: u32 = (HFS_EPOCH_TO_UNIX_EPOCH_SECS + 1_000_000_000) as u32;

fn fork(size: u64, block: u32) -> Vec<u8> {
    let mut f = size.to_be_bytes().to_vec();
    f.extend_from_slice(&[0; 4]);
    let blocks: u32 = if size == 0 { 0 } else { 1 };
    f.extend_from_slice(&blocks.to_be_bytes());
    f.extend_from_slice(&block.to_be_bytes());
    f.extend_from_slice(&blocks.to_be_bytes());
    f.resize(80, 0);
    f
}

fn catalog_key(parent: u32, name: &str) -> Vec<u8> {
    let units: Vec<u16> = name.encode_utf16().collect();
    let mut k = (6 + 2 * units.len() as u16).to_be_bytes().to_vec();
    k.extend_from_slice(&parent.to_be_bytes());
    k.extend_from_slice(&(units.len() as u16).to_be_bytes());
    for u in units {
        k.extend_from_slice(&u.to_be_bytes());
    }
    k
}

fn folder(parent: u32, name: &str, id: u32) -> Vec<u8> {
    let mut r = catalog_key(parent, name);
    let mut body = vec![0u8; 88];
    body[1] = 1;
    body[8..12].copy_from_slice(&id.to_be_bytes());
    body[16..20].copy_from_slice(&DATE.to_be_bytes());
    r.extend(body);
    r
}

fn file(parent: u32, name: &str, id: u32, mode: u16, size: u64, block: u32) -> Vec<u8> {
    let mut r = catalog_key(parent, name);
    let mut body = vec![0u8; 88];
    body[1] = 2;
    body[8..12].copy_from_slice(&id.to_be_bytes());
    body[16..20].copy_from_slice(&DATE.to_be_bytes());
    body[42..44].copy_from_slice(&mode.to_be_bytes());
    r.extend(body);
    r.extend(fork(size, block));
    r.extend(fork(0, 0));
    r
}

fn tree_header(root: u32) -> Vec<u8> {
    let mut node = vec![0u8; BLOCK];
    node[8] = 1;
    node[14..16].copy_from_slice(&1u16.to_be_bytes());
    node[16..20].copy_from_slice(&root.to_be_bytes());
    node[24..28].copy_from_slice(&root.to_be_bytes());
    node[32..34].copy_from_slice(&(BLOCK as u16).to_be_bytes());
    node
}

fn tree_leaf(records: &[Vec<u8>]) -> Vec<u8> {
    let mut node = vec![0u8; BLOCK];
    node[8] = 0xFF;
    node[9] = 1;
    node[10..12].copy_from_slice(&(records.len() as u16).to_be_bytes());
    let mut at = 14;
    for (i, r) in records.iter().chain([&Vec::new()]).enumerate() {
        let slot = BLOCK - 2 * (i + 1);
        node[slot..slot + 2].copy_from_slice(&(at as u16).to_be_bytes());
        node[at..at + r.len()].copy_from_slice(r);
        at += r.len();
    }
    node
}

fn volume() -> Vec<u8> {
    let mut v = vec![0u8; BLOCK * 7];
    v[1024..1028].copy_from_slice(&[0x48, 0x2B, 0, 4]);
    v[1024 + 40..1024 + 44].copy_from_slice(&(BLOCK as u32).to_be_bytes());
    v[1024 + 44..1024 + 48].copy_from_slice(&7u32.to_be_bytes());
    v[1024 + 192..1024 + 272].copy_from_slice(&fork(BLOCK as u64, 1));
    let mut catalog = fork(2 * BLOCK as u64, 2);
    catalog[15] = 2;
    catalog[23] = 2;
    v[1024 + 272..1024 + 352].copy_from_slice(&catalog);
    v[BLOCK..2 * BLOCK].copy_from_slice(&tree_header(0));
    v[2 * BLOCK..3 * BLOCK].copy_from_slice(&tree_header(1));
    let leaf = tree_leaf(&[
        folder(1, "Disk", 2),
        file(2, "a.txt", 16, 0o100644, 5, 4),
        folder(2, "dir", 17),
        file(2, "link", 18, 0o120777, 9, 5),
        file(17, "b.txt", 19, 0o100600, 4, 6),
    ]);
    v[3 * BLOCK..4 * BLOCK].copy_from_slice(&leaf);
    v[4 * BLOCK..4 * BLOCK + 5].copy_from_slice(b"hello");
    v[5 * BLOCK..5 * BLOCK + 9].copy_from_slice(b"dir/b.txt");
    v[6 * BLOCK..6 * BLOCK + 4].copy_from_slice(b"nest");
    v
}

#[test]
fn a_volume_lists_what_lies_in_its_catalog() {
    let src = Source::Seekable { inner: volume(), path: Some("disk.hfs".to_string()) };
    let reader = HfsPlusHandler.open(src).unwrap();
    assert_eq!(reader.format(), FormatId::HfsPlus);
    let paths: Vec<&str> = reader.entries().iter().map(|e| e.path.as_str()).collect();
    assert_eq!(paths, vec!["a.txt", "dir", "dir/b.txt", "link"]);
    let entries = reader.entries();
    assert!(matches!(entries[1].kind, EntryKind::Dir));
    assert!(matches!(&entries[3].kind, EntryKind::Symlink { target } if target == "dir/b.txt"));
    assert_eq!(entries[0].size, 5);
    assert_eq!(entries[0].modified, Some(Stamp::Instant(at(1_000_000_000))));
    assert_eq!(reader.read_entry(0).unwrap(), b"hello".to_vec());
    assert_eq!(reader.read_entry(1).unwrap(), Vec::<u8>::new());
    assert_eq!(reader.read_entry(2).unwrap(), b"nest".to_vec());
    assert!(matches!(reader.read_entry(4), Err(Error::InvalidIndex(4))));
}

#[test]
fn open_hfsplus_with_offset_matches_zero_offset() {
    let plain = volume();
    let mut padded = vec![0u8; 4096];
    padded.extend_from_slice(&plain);
    let plain_reader = open_hfsplus(&plain, 0).unwrap();
    let padded_reader = open_hfsplus(&padded, 4096).unwrap();
    assert_eq!(plain_reader.entries().len(), padded_reader.entries().len());
    for idx in 0..plain_reader.entries().len() {
        assert_eq!(plain_reader.entries()[idx].path, padded_reader.entries()[idx].path);
        assert_eq!(plain_reader.read_entry(idx).unwrap(), padded_reader.read_entry(idx).unwrap());
    }
}

#[test]
fn a_volume_is_known_by_its_signature() {
    assert!(has_hfsplus_signature(&volume()));
    assert!(!has_hfsplus_signature(&volume()[..1025]));
    assert!(!has_hfsplus_signature(&vec![0u8; 4096]));
    assert!(matches!(open_hfsplus_reader(vec![0u8; 4096]), Err(Error::UnknownFormat)));
    let mut broken = volume();
    broken[2 * BLOCK + 8] = 0;
    assert!(matches!(open_hfsplus_reader(broken), Err(Error::Corrupt(_))));
}

#[test]
fn a_volume_is_found_at_a_sector_of_an_image() {
    let mut image = vec![0u8; 1024];
    image.extend(volume());
    assert_eq!(locate_hfsplus(&image).unwrap(), 1024);
    let reader = open_volume(&image).unwrap();
    assert_eq!(reader.format(), FormatId::Dmg);
    assert_eq!(reader.read_entry(2).unwrap(), b"nest".to_vec());
    assert_eq!(open_hfsplus(&image, 1024).unwrap().entries().len(), 4);
    assert!(matches!(open_volume(&vec![0u8; 8192]), Err(Error::UnknownFormat)));
}

#[test]
fn a_signature_without_a_volume_behind_it_is_passed_over() {
    let mut image = vec![0u8; 2048];
    image[1024..1026].copy_from_slice(&[0x48, 0x2B]);
    image.extend(volume());
    assert_eq!(locate_hfsplus(&image).unwrap(), 2048);
}

#[test]
fn a_volume_that_leads_back_into_itself_is_corrupt() {
    let refused = |v: &[u8]| {
        assert!(!check_volume(v));
        matches!(open_hfsplus_reader(v.to_vec()), Err(Error::Corrupt(m))
            if m == "hfsplus: the trees of the volume cannot be gone through")
    };
    assert!(check_volume(&volume()));
    assert!(check_volume(&[]));
    let leaf = 3 * BLOCK;
    let mut next = volume();
    next[leaf..leaf + 4].copy_from_slice(&1u32.to_be_bytes());
    assert!(refused(&next));
    let mut index = volume();
    index[leaf + 8] = 0;
    index[leaf + 10..leaf + 12].copy_from_slice(&1u16.to_be_bytes());
    index[leaf + 14..leaf + 20].copy_from_slice(&[0, 0, 0, 0, 0, 1]);
    assert!(refused(&index));
    let mut own = volume();
    let records = tree_leaf(&[folder(1, "Disk", 2), folder(2, "dir", 17), folder(17, "again", 17)]);
    own[leaf..leaf + BLOCK].copy_from_slice(&records);
    assert!(refused(&own));
}

#[test]
fn counts_of_blocks_that_run_over_are_corrupt() {
    let mut blocks = volume();
    blocks[1024 + 40..1024 + 44].copy_from_slice(&0x8000_0001u32.to_be_bytes());
    assert!(!check_volume(&blocks));
    let mut sum = volume();
    let mut record = file(2, "a.txt", 16, 0o100644, 5, 4);
    let at = record.len() - 160;
    record[at + 20..at + 24].copy_from_slice(&[0xFF; 4]);
    record[at + 28..at + 32].copy_from_slice(&[0xFF; 4]);
    sum[3 * BLOCK..4 * BLOCK].copy_from_slice(&tree_leaf(&[folder(1, "Disk", 2), record]));
    assert!(!check_volume(&sum));
}

fn with_attribute(size: u64) -> Vec<u8> {
    let mut record = vec![0u8; 14];
    let name: Vec<u8> = "com.apple.decmpfs".encode_utf16().flat_map(u16::to_be_bytes).collect();
    record[0..2].copy_from_slice(&(12 + name.len() as u16).to_be_bytes());
    record[4..8].copy_from_slice(&16u32.to_be_bytes());
    record[12..14].copy_from_slice(&17u16.to_be_bytes());
    record.extend_from_slice(&name);
    record.extend_from_slice(&[0, 0, 0, 0x10, 0, 0, 0, 0, 0, 0, 0, 0, 0, 0, 0, 22]);
    record.extend_from_slice(&0x636D_7066u32.to_le_bytes());
    record.extend_from_slice(&1u32.to_le_bytes());
    record.extend_from_slice(&size.to_le_bytes());
    record.extend_from_slice(b"packed");
    let mut v = volume();
    let mut attributes = fork(2 * BLOCK as u64, 7);
    attributes[15] = 2;
    attributes[23] = 2;
    v[1024 + 352..1024 + 432].copy_from_slice(&attributes);
    v.extend(tree_header(1));
    v.extend(tree_leaf(&[record]));
    v
}

#[test]
fn a_compressed_file_has_a_size_that_the_volume_can_hold() {
    let reader = open_hfsplus_reader(with_attribute(6)).unwrap();
    assert_eq!(reader.entries()[0].size, 6);
    assert_eq!(reader.read_entry(0).unwrap(), b"packed");
    assert!(check_volume(&with_attribute(7)));
    assert!(!check_volume(&with_attribute(u64::MAX)));
    assert!(matches!(open_hfsplus_reader(with_attribute(1 << 60)), Err(Error::Corrupt(_))));
}
