//! APFS volumes.
use apfs_core::object::fletcher64_checksum;
use newtua_core::archive::{ArchiveReader, Confidence, Entry, EntryKind, FormatHandler, FormatId, Source};
use newtua_core::datetime::{Stamp, Timestamp};
use newtua_core::error::Error;
use newtua_core::format::apfs::{
    apfs_ns_to_systime, join_below, mount_first_volume, open_apfs, open_apfs_reader, walk_tree, ApfsHandler, APFS_MAGIC,
    MAX_APFS_DEPTH, MAX_APFS_ENTRIES, ROOT_DIR,
};

fn at(secs: i128) -> Timestamp {
    Timestamp { secs, nanos: 0 }
}

#[test]
fn id_is_apfs() {
    assert_eq!(ApfsHandler.id(), FormatId::Apfs);
}

fn header_with_nxsb_at_32() -> Vec<u8> {
    let mut h = vec![0u8; 40];
    h[32..36].copy_from_slice(&APFS_MAGIC);
    h
}

#[test]
fn probe_nxsb_magic_is_magic() {
    assert_eq!(
        ApfsHandler.probe(&header_with_nxsb_at_32(), Some("image.bin")),
        Confidence::magic()
    );
}

#[test]
fn probe_no_magic_other_name_is_none() {
    assert_eq!(
        ApfsHandler.probe(&[0u8; 40], Some("image.dmg")),
        Confidence::none()
    );
}

#[test]
fn probe_apfs_extension_without_magic_is_magic() {
    assert_eq!(
        ApfsHandler.probe(&[0u8; 40], Some("volume.apfs")),
        Confidence::magic()
    );
}

#[test]
fn probe_short_header_is_none_not_panic() {
    assert_eq!(ApfsHandler.probe(&[0u8; 10], Some("x")), Confidence::none());
    assert_eq!(ApfsHandler.probe(&[], None), Confidence::none());
}

#[test]
fn apfs_probe_no_name_no_magic_is_none() {
    assert_eq!(ApfsHandler.probe(&[0u8; 40], None), Confidence::none());
}

#[test]
fn apfs_open_path_less_source_is_unsupported() {
    let src = Source::Stream {
        inner: Vec::new(),
        path: None,
    };
    let err = ApfsHandler
        .open(src)
        .err()
        .expect("path-less source must be unsupported");
    assert!(matches!(err, Error::Unsupported { .. }), "got {err:?}");
}

#[test]
fn ns_to_systime_zero_is_none() {
    assert_eq!(apfs_ns_to_systime(0), None);
}

#[test]
fn ns_to_systime_known_value() {
    let t = apfs_ns_to_systime(1_000_000_000).expect("some");
    assert_eq!(t, at(1));
}

#[test]
fn open_apfs_reader_rejects_short_input() {
    let short = (vec![0u8; 20]);
    let err = open_apfs_reader(short).err().expect("must error");
    assert!(matches!(err, Error::UnknownFormat), "got {err:?}");
}

#[test]
fn open_apfs_reader_rejects_bad_magic() {
    let bytes = vec![0u8; 40];
    let err = open_apfs_reader((bytes))
        .err()
        .expect("must error");
    assert!(matches!(err, Error::UnknownFormat), "got {err:?}");
}

#[test]
fn open_apfs_reader_nxsb_magic_but_corrupt_body_is_corrupt_not_panic() {
    let bytes = header_with_nxsb_at_32();
    let err = open_apfs_reader((bytes))
        .err()
        .expect("must error");
    assert!(matches!(err, Error::Corrupt(_)), "got {err:?}");
}

const BLOCK: usize = 4096;

struct Image(Vec<u8>);

impl Image {
    fn put(&mut self, block: usize, at: usize, bytes: &[u8]) {
        let start = block * BLOCK + at;
        self.0[start..start + bytes.len()].copy_from_slice(bytes);
    }

    fn seal(&mut self, block: usize, kind: u32) {
        self.put(block, 16, &1u64.to_le_bytes());
        self.put(block, 24, &kind.to_le_bytes());
        let sum = fletcher64_checksum(&self.0[block * BLOCK..(block + 1) * BLOCK]);
        self.put(block, 0, &sum.to_le_bytes());
    }

    fn object_map(&mut self, head: usize, tree: usize, oid: u64, place: u64) {
        self.put(head, 48, &(tree as u64).to_le_bytes());
        self.seal(head, 0xb);
        self.put(tree, 32, &7u16.to_le_bytes());
        self.put(tree, 36, &1u32.to_le_bytes());
        self.put(tree, 42, &4u16.to_le_bytes());
        self.put(tree, 56, &[0, 0, 16, 0]);
        self.put(tree, 60, &oid.to_le_bytes());
        self.put(tree, 68, &1u64.to_le_bytes());
        let value = BLOCK - 40 - 16;
        self.put(tree, value + 4, &(BLOCK as u32).to_le_bytes());
        self.put(tree, value + 8, &place.to_le_bytes());
        self.seal(tree, 0xb);
    }

    fn leaf(&mut self, block: usize, records: &[(Vec<u8>, Vec<u8>)]) {
        self.put(block, 32, &3u16.to_le_bytes());
        self.put(block, 36, &(records.len() as u32).to_le_bytes());
        self.put(block, 42, &((records.len() * 8) as u16).to_le_bytes());
        let keys = 56 + records.len() * 8;
        let (mut k, mut v) = (0, 0);
        for (i, (key, value)) in records.iter().enumerate() {
            v += value.len();
            for (n, x) in [k, key.len(), v, value.len()].iter().enumerate() {
                self.put(block, 56 + i * 8 + n * 2, &(*x as u16).to_le_bytes());
            }
            self.put(block, keys + k, key);
            self.put(block, BLOCK - 40 - v, value);
            k += key.len();
        }
        self.seal(block, 0xe);
    }
}

fn key(kind: u64, oid: u64, rest: &[u8]) -> Vec<u8> {
    let mut k = ((kind << 60) | oid).to_le_bytes().to_vec();
    k.extend_from_slice(rest);
    k
}

fn inode(oid: u64, mode: u16, size: Option<u64>) -> (Vec<u8>, Vec<u8>) {
    let mut v = vec![0u8; 92];
    v[8..16].copy_from_slice(&oid.to_le_bytes());
    v[24..32].copy_from_slice(&1_700_000_000_500_000_000u64.to_le_bytes());
    v[80..82].copy_from_slice(&mode.to_le_bytes());
    if let Some(n) = size {
        v.extend_from_slice(&[1, 0, 8, 0, 8, 0, 8, 0]);
        v.extend_from_slice(&n.to_le_bytes());
    }
    (key(3, oid, &[]), v)
}

fn child(dir: u64, name: &str, oid: u64) -> (Vec<u8>, Vec<u8>) {
    let mut rest = (name.len() as u32 + 1).to_le_bytes().to_vec();
    rest.extend_from_slice(name.as_bytes());
    rest.push(0);
    let mut v = oid.to_le_bytes().to_vec();
    v.extend_from_slice(&[0; 10]);
    (key(9, dir, &rest), v)
}

fn extent(oid: u64, block: u64) -> (Vec<u8>, Vec<u8>) {
    let mut v = (BLOCK as u64).to_le_bytes().to_vec();
    v.extend_from_slice(&block.to_le_bytes());
    v.extend_from_slice(&[0; 8]);
    (key(8, oid, &[0; 8]), v)
}

fn link(oid: u64, target: &str) -> (Vec<u8>, Vec<u8>) {
    let name = b"com.apple.fs.symlink\0";
    let mut rest = (name.len() as u16).to_le_bytes().to_vec();
    rest.extend_from_slice(name);
    let mut v = 2u16.to_le_bytes().to_vec();
    v.extend_from_slice(&(target.len() as u16 + 1).to_le_bytes());
    v.extend_from_slice(target.as_bytes());
    v.push(0);
    (key(4, oid, &rest), v)
}

fn container() -> Vec<u8> {
    let mut image = Image(vec![0u8; BLOCK * 10]);
    for block in [0, 1] {
        image.put(block, 32, &APFS_MAGIC);
        image.put(block, 36, &(BLOCK as u32).to_le_bytes());
        image.put(block, 40, &10u64.to_le_bytes());
        image.put(block, 104, &1u32.to_le_bytes());
        image.put(block, 112, &1u64.to_le_bytes());
        image.put(block, 160, &2u64.to_le_bytes());
        image.put(block, 180, &1u32.to_le_bytes());
        image.put(block, 184, &1026u64.to_le_bytes());
        image.seal(block, 1);
    }
    image.object_map(2, 3, 1026, 4);
    image.put(4, 32, b"APSB");
    image.put(4, 128, &5u64.to_le_bytes());
    image.put(4, 136, &100u64.to_le_bytes());
    image.seal(4, 0xd);
    image.object_map(5, 6, 100, 7);
    image.leaf(
        7,
        &[
            inode(2, 0o040755, None),
            child(2, "a.txt", 16),
            child(2, "d", 17),
            child(2, "l", 18),
            inode(16, 0o100644, Some(5)),
            extent(16, 8),
            inode(17, 0o040700, None),
            child(17, "b.txt", 19),
            inode(18, 0o120777, None),
            link(18, "d/b.txt"),
            inode(19, 0o100600, Some(4)),
            extent(19, 9),
        ],
    );
    image.put(8, 0, b"hello");
    image.put(9, 0, b"nest");
    image.0
}

#[test]
fn a_volume_lists_what_lies_below_its_root() {
    let src = Source::Seekable { inner: container(), path: Some("image.apfs".to_string()) };
    let reader = ApfsHandler.open(src).unwrap();
    assert_eq!(reader.format(), FormatId::Apfs);
    let paths: Vec<&str> = reader.entries().iter().map(|e| e.path.as_str()).collect();
    assert_eq!(paths, vec!["a.txt", "d", "d/b.txt", "l"]);
    let entries = reader.entries();
    assert!(matches!(entries[0].kind, EntryKind::File));
    assert!(matches!(entries[1].kind, EntryKind::Dir));
    assert!(matches!(&entries[3].kind, EntryKind::Symlink { target } if target == "d/b.txt"));
    assert_eq!(entries[0].size, 5);
    assert_eq!(
        entries[0].modified,
        Some(Stamp::Instant(Timestamp { secs: 1_700_000_000, nanos: 500_000_000 }))
    );
    assert_eq!(reader.read_entry(0).unwrap(), b"hello".to_vec());
    assert_eq!(reader.read_entry(1).unwrap(), Vec::<u8>::new());
    assert_eq!(reader.read_entry(2).unwrap(), b"nest".to_vec());
    assert!(matches!(reader.read_entry(4), Err(Error::InvalidIndex(4))));
}

#[test]
fn a_volume_may_begin_inside_an_image() {
    let mut image = vec![0xEEu8; 512];
    image.extend(container());
    let reader = open_apfs(&image, 512).unwrap();
    assert_eq!(reader.entries().len(), 4);
    assert_eq!(reader.read_entry(2).unwrap(), b"nest".to_vec());
}

#[test]
fn open_apfs_with_offset_matches_zero_offset() {
    let plain = container();
    let mut padded = vec![0u8; 4096];
    padded.extend_from_slice(&plain);
    let plain_reader = open_apfs(&plain, 0).unwrap();
    let padded_reader = open_apfs(&padded, 4096).unwrap();
    assert_eq!(plain_reader.entries().len(), padded_reader.entries().len());
    for idx in 0..plain_reader.entries().len() {
        assert_eq!(plain_reader.entries()[idx].path, padded_reader.entries()[idx].path);
        assert_eq!(plain_reader.read_entry(idx).unwrap(), padded_reader.read_entry(idx).unwrap());
    }
}

#[test]
fn walk_tree_rejects_depth_beyond_cap() {
    let volume = mount_first_volume(container()).unwrap();
    let mut entries = Vec::new();
    let mut node_ids = Vec::new();
    let err = walk_tree(&volume, ROOT_DIR, "", MAX_APFS_DEPTH + 1, &mut entries, &mut node_ids)
        .expect_err("must reject depth beyond cap");
    assert!(matches!(err, Error::Corrupt(_)), "got {err:?}");
}

#[test]
fn walk_tree_rejects_entries_beyond_cap() {
    let volume = mount_first_volume(container()).unwrap();
    let mut entries: Vec<Entry> = (0..MAX_APFS_ENTRIES)
        .map(|_| Entry {
            path_raw: Vec::new(),
            path: String::new(),
            kind: EntryKind::File,
            size: 0,
            mode: None,
            is_encrypted: false,
            modified: None,
            is_resource_fork: false,
        })
        .collect();
    let mut node_ids = vec![0u64; MAX_APFS_ENTRIES];
    let err = walk_tree(&volume, ROOT_DIR, "", 0, &mut entries, &mut node_ids)
        .expect_err("must reject entry count beyond cap");
    assert!(matches!(err, Error::Corrupt(_)), "got {err:?}");
}

#[test]
fn damaged_containers_are_refused() {
    let mut bad = container();
    bad[40] ^= 1;
    assert!(matches!(mount_first_volume(bad), Err(Error::Corrupt(m)) if m.starts_with("apfs: ")));
    let mut none = container();
    none[4 * BLOCK + 32] = b'X';
    assert!(matches!(open_apfs_reader(none), Err(Error::Corrupt(_))));
    assert_eq!(mount_first_volume(container()).unwrap().block_size, BLOCK);
}

#[test]
fn the_root_has_no_name() {
    assert_eq!(join_below("", "a"), "a");
    assert_eq!(join_below("d", "a"), "d/a");
}

#[test]
fn checkpoints_without_numbers_are_refused() {
    let mut block = header_with_nxsb_at_32();
    block.resize(4096, 0);
    block[104..108].copy_from_slice(&2u32.to_le_bytes());
    block[112..120].copy_from_slice(&u64::MAX.to_le_bytes());
    assert!(matches!(open_apfs_reader(block), Err(Error::Corrupt(m)) if m == "apfs: checkpoint area out of range"));
}

#[test]
fn no_file_is_read_where_one_announces_too_much() {
    let mut bytes = container();
    let at = bytes.len();
    bytes.extend_from_slice(&0x636D_7066u32.to_le_bytes());
    bytes.extend_from_slice(&7u32.to_le_bytes());
    bytes.extend_from_slice(&100u64.to_le_bytes());
    let few = open_apfs_reader(bytes.clone()).unwrap();
    bytes[at + 8..at + 16].copy_from_slice(&u64::MAX.to_le_bytes());
    let many = open_apfs_reader(bytes).unwrap();
    assert_eq!(few.entries().len(), many.entries().len());
    for i in 0..few.entries().len() {
        match &few.entries()[i].kind {
            EntryKind::File => assert!(matches!(many.read_entry(i), Err(Error::Corrupt(_)))),
            _ => assert_eq!(many.read_entry(i).unwrap(), few.read_entry(i).unwrap()),
        }
    }
}
