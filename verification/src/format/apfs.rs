//! Apple File System containers.
use vstd::prelude::*;
use vstd::utf8;

use crate::archive;
use crate::bytes;
use crate::error;
use crate::format::hfstree;
use crate::paths;
use crate::text;
use crate::archive::{read_entries_one_by_one, BatchReader, EntrySink, KindView};
use crate::archive::{ArchiveReader, Confidence, Entry, EntryKind, EntryView, FormatHandler, FormatId, Source};
use crate::bytes::{copy_bytes, copy_range, found_at, le_u32, le_u64};
use crate::datetime::{Stamp, Timestamp};
use crate::error::{corrupt, unsupported, Error, ErrorView};
use crate::format::hfstree::check_packed_size;
use crate::paths::extension_is;
use crate::text::{copy_text, join2, same_text};

verus! {

/// How a container superblock is marked.
pub const APFS_MAGIC: [u8; 4] = [0x4E, 0x58, 0x53, 0x42];

/// Where the mark stands.
pub const APFS_MAGIC_OFFSET: usize = 32;

/// The bits of a mode that say what a file is.
pub const S_IFMT: u16 = 0xF000;

pub const S_IFDIR: u16 = 0x4000;

pub const S_IFLNK: u16 = 0xA000;

/// How deep directories may lie in each other.
pub const MAX_APFS_DEPTH: usize = 256;

/// How many entries a volume may have.
pub const MAX_APFS_ENTRIES: usize = 1_000_000;

/// The root directory.
pub const ROOT_DIR: u64 = 2;

/// Nanoseconds since 1970 as an instant; 0 means that no time was recorded.
pub open spec fn instant_of(ns: int) -> Option<Timestamp> {
    if ns == 0 {
        None
    } else {
        Some(Timestamp { secs: (ns / 1_000_000_000) as i128, nanos: (ns % 1_000_000_000) as u32 })
    }
}

/// Nanoseconds since 1970 as an instant.
pub fn apfs_ns_to_systime(ns: u64) -> (r: Option<Timestamp>)
    ensures
        r == instant_of(ns as int),
{
    if ns == 0 {
        None
    } else {
        Some(Timestamp { secs: (ns / 1_000_000_000) as i128, nanos: (ns % 1_000_000_000) as u32 })
    }
}

/// Where a container superblock counts the blocks of the area of checkpoints. In the
/// highest bit it says that the area is a tree.
pub const CHECKPOINT_BLOCKS: usize = 104;

/// Where it says which block is the first of them.
pub const CHECKPOINT_BASE: usize = 112;

/// The blocks of the area of checkpoints have numbers.
pub open spec fn checkpoints_fit(data: Seq<u8>) -> bool {
    data.len() >= CHECKPOINT_BASE + 8 && bytes::le32(data, CHECKPOINT_BLOCKS as int) < 0x8000_0000 ==> bytes::le64(
        data,
        CHECKPOINT_BASE as int,
    ) + bytes::le32(data, CHECKPOINT_BLOCKS as int) <= u64::MAX
}

fn check_checkpoints(data: &[u8]) -> (r: bool)
    ensures
        r == checkpoints_fit(data@),
{
    if data.len() < CHECKPOINT_BASE + 8 {
        return true;
    }
    let count: u32 = le_u32(data, CHECKPOINT_BLOCKS);
    count >= 0x8000_0000 || le_u64(data, CHECKPOINT_BASE) <= u64::MAX - count as u64
}

/// The kind of compression whose content is made room for at once.
pub const LZVN_IN_PLACE: u32 = 7;

/// What stands at `p` does not announce more content of that kind than the container
/// can hold.
pub open spec fn announces_little(data: Seq<u8>, p: int) -> bool {
    bytes::le32(data, p + 4) == LZVN_IN_PLACE ==> hfstree::packed_size_fits(data, p)
}

/// Nothing in a container announces too much.
pub open spec fn contents_fit(data: Seq<u8>) -> bool {
    forall|p: int| 0 <= p && p + 16 <= data.len() ==> #[trigger] announces_little(data, p)
}

fn check_contents(data: &[u8]) -> (r: bool)
    ensures
        r == contents_fit(data@),
{
    let mut p: usize = 0;
    while p < data.len() && data.len() - p >= 16
        invariant
            p <= data.len(),
            forall|q: int| 0 <= q < p && q + 16 <= data@.len() ==> #[trigger] announces_little(data@, q),
        decreases data.len() - p,
    {
        if le_u32(data, p + 4) == LZVN_IN_PLACE && !check_packed_size(data, p) {
            assert(!announces_little(data@, p as int));
            return false;
        }
        assert(announces_little(data@, p as int));
        p = p + 1;
    }
    true
}

/// What `apfs_core` finds in a container: the block size and where the volumes'
/// superblocks are, or the text of its failure.
pub uninterp spec fn container_layout(data: Seq<u8>) -> Result<(u32, Seq<u64>), Seq<char>>;

/// A layout as its model.
pub open spec fn layout_view(r: Result<(u32, Vec<u64>), String>) -> Result<(u32, Seq<u64>), Seq<char>> {
    match r {
        Ok((size, v)) => Ok((size, v@)),
        Err(m) => Err(m@),
    }
}

/// `apfs_core::ApfsContainer::open` and then `volume_superblock_addrs`: the block
/// size and the addresses depend on the bytes alone, as does the text that a
/// failure displays. It counts through the area of checkpoints, and so needs their
/// numbers to fit.
#[verifier::external_body]
fn read_container(data: &[u8]) -> (r: Result<(u32, Vec<u64>), String>)
    requires
        checkpoints_fit(data@),
    ensures
        layout_view(r) == container_layout(data@),
{
    let mut c = apfs_core::ApfsContainer::open(std::io::Cursor::new(data)).map_err(|e| e.to_string())?;
    let size = c.superblock().block_size;
    Ok((size, c.volume_superblock_addrs().map_err(|e| e.to_string())?))
}

/// The text of the failure with which `apfs_core::volume::ApfsVolume::parse`
/// refuses a block; `None` where it accepts it.
pub uninterp spec fn volume_refusal(block: Seq<u8>) -> Option<Seq<char>>;

/// `apfs_core::volume::ApfsVolume::parse`: whether it accepts the block depends on
/// its bytes alone.
#[verifier::external_body]
fn refusal(block: &[u8]) -> (r: Option<String>)
    ensures
        text::opt_string(r) == volume_refusal(block@),
{
    apfs_core::volume::ApfsVolume::parse(block).err().map(|e| e.to_string())
}

/// A mounted volume: the container's bytes, the volume's superblock and the
/// block size.
#[derive(Debug)]
pub struct Volume {
    pub data: Vec<u8>,
    pub block: Vec<u8>,
    pub block_size: usize,
}

/// A `Volume` with its bytes as sequences.
pub struct VolumeView {
    pub data: Seq<u8>,
    pub block: Seq<u8>,
    pub block_size: int,
}

impl View for Volume {
    type V = VolumeView;

    open spec fn view(&self) -> VolumeView {
        VolumeView { data: self.data@, block: self.block@, block_size: self.block_size as int }
    }
}

/// The children that `apfs_core::dir::list_dir` lists, each with its inode and
/// its name, or the text of its failure.
pub uninterp spec fn children_of(data: Seq<u8>, block: Seq<u8>, block_size: int, parent: u64) -> Result<
    Seq<(u64, Seq<char>)>,
    Seq<char>,
>;

/// Children as their models.
pub open spec fn children_view(r: Result<Vec<(u64, String)>, String>) -> Result<Seq<(u64, Seq<char>)>, Seq<char>> {
    match r {
        Ok(v) => Ok(v@.map_values(|c: (u64, String)| (c.0, c.1@))),
        Err(m) => Err(m@),
    }
}

/// `apfs_core::dir::list_dir` on the volume: the result depends on the container,
/// the volume's superblock, the block size and the directory alone.
#[verifier::external_body]
fn list_dir(v: &Volume, parent: u64) -> (r: Result<Vec<(u64, String)>, String>)
    ensures
        children_view(r) == children_of(v.data@, v.block@, v.block_size as int, parent),
{
    let volume = apfs_core::volume::ApfsVolume::parse(&v.block).map_err(|e| e.to_string())?;
    let mut source = std::io::Cursor::new(v.data.as_slice());
    let found = apfs_core::dir::list_dir(&mut source, &volume, parent, v.block_size).map_err(|e| e.to_string())?;
    Ok(found.into_iter().map(|d| (d.file_id, d.name)).collect())
}

/// What an inode says of a file.
#[derive(Debug, Clone, Copy, PartialEq, Eq, Structural)]
pub struct InodeRow {
    pub mode: u16,
    pub size: Option<u64>,
    pub mod_time: u64,
}

/// The inode that `apfs_core::dir::load_inode` loads, or the text of its failure.
pub uninterp spec fn inode_of(data: Seq<u8>, block: Seq<u8>, block_size: int, id: u64) -> Result<InodeRow, Seq<char>>;

/// An inode as its model.
pub open spec fn inode_view(r: Result<InodeRow, String>) -> Result<InodeRow, Seq<char>> {
    match r {
        Ok(i) => Ok(i),
        Err(m) => Err(m@),
    }
}

/// `apfs_core::dir::load_inode` on the volume: the result depends on the
/// container, the volume's superblock, the block size and the inode alone.
#[verifier::external_body]
fn load_inode(v: &Volume, id: u64) -> (r: Result<InodeRow, String>)
    ensures
        inode_view(r) == inode_of(v.data@, v.block@, v.block_size as int, id),
{
    let volume = apfs_core::volume::ApfsVolume::parse(&v.block).map_err(|e| e.to_string())?;
    let mut source = std::io::Cursor::new(v.data.as_slice());
    let i = apfs_core::dir::load_inode(&mut source, &volume, id, v.block_size).map_err(|e| e.to_string())?;
    Ok(InodeRow { mode: i.mode, size: i.size, mod_time: i.mod_time })
}

/// The target that `apfs_core::xattr::symlink_target` finds, if there is one, or
/// the text of its failure.
pub uninterp spec fn target_of(data: Seq<u8>, block: Seq<u8>, block_size: int, id: u64) -> Result<
    Option<Seq<char>>,
    Seq<char>,
>;

/// A target as its model.
pub open spec fn target_view(r: Result<Option<String>, String>) -> Result<Option<Seq<char>>, Seq<char>> {
    match r {
        Ok(t) => Ok(text::opt_string(t)),
        Err(m) => Err(m@),
    }
}

/// `apfs_core::xattr::symlink_target` on the volume: the result depends on the
/// container, the volume's superblock, the block size and the inode alone.
#[verifier::external_body]
fn symlink_target(v: &Volume, id: u64) -> (r: Result<Option<String>, String>)
    ensures
        target_view(r) == target_of(v.data@, v.block@, v.block_size as int, id),
{
    let volume = apfs_core::volume::ApfsVolume::parse(&v.block).map_err(|e| e.to_string())?;
    let mut source = std::io::Cursor::new(v.data.as_slice());
    apfs_core::xattr::symlink_target(&mut source, &volume, id, v.block_size).map_err(|e| e.to_string())
}

/// The content that `apfs_core::extent::read_data` reads of an inode, or the text
/// of the failure.
pub uninterp spec fn content_of(data: Seq<u8>, block: Seq<u8>, block_size: int, id: u64) -> Result<Seq<u8>, Seq<char>>;

/// A content as its model.
pub open spec fn content_view(r: Result<Vec<u8>, String>) -> Result<Seq<u8>, Seq<char>> {
    match r {
        Ok(v) => Ok(v@),
        Err(m) => Err(m@),
    }
}

/// `apfs_core::extent::read_data` for the inode that `apfs_core::dir::load_inode`
/// loads: the result depends on the container, the volume's superblock, the
/// block size and the inode alone. For content in LZVN that stands in an attribute it
/// makes room for what is announced there before it decodes any.
#[verifier::external_body]
fn read_data(v: &Volume, id: u64) -> (r: Result<Vec<u8>, String>)
    requires
        contents_fit(v.data@),
    ensures
        content_view(r) == content_of(v.data@, v.block@, v.block_size as int, id),
{
    let volume = apfs_core::volume::ApfsVolume::parse(&v.block).map_err(|e| e.to_string())?;
    let mut source = std::io::Cursor::new(v.data.as_slice());
    let i = apfs_core::dir::load_inode(&mut source, &volume, id, v.block_size).map_err(|e| e.to_string())?;
    apfs_core::extent::read_data(&mut source, &volume, &i, v.block_size).map_err(|e| e.to_string())
}

/// A failure of the file system as an error of this library.
pub open spec fn damaged(message: Seq<char>) -> ErrorView {
    ErrorView::Corrupt("apfs: "@ + message)
}

fn map_apfs_err(message: String) -> (r: Error)
    ensures
        r@ == damaged(message@),
{
    Error::Corrupt(join2("apfs: ", message.as_str()))
}

/// A name below a directory; the root has no name.
pub open spec fn below(prefix: Seq<char>, name: Seq<char>) -> Seq<char> {
    if prefix.len() == 0 { name } else { prefix + "/"@ + name }
}

/// A name below a directory; the root has no name.
pub fn join_below(prefix: &str, name: &str) -> (r: String)
    ensures
        r@ == below(prefix@, name@),
{
    if same_text(prefix, "") {
        proof {
            reveal_strlit("");
        }
        copy_text(name)
    } else {
        proof {
            reveal_strlit("");
            if prefix@.len() == 0 {
                assert(prefix@ =~= ""@);
            }
        }
        let t = join2(prefix, "/");
        join2(t.as_str(), name)
    }
}

/// What is collected on a walk: the entries, and the inode of each.
pub struct Found {
    pub entries: Seq<EntryView>,
    pub ids: Seq<u64>,
}

/// What a file is, going by its mode.
pub open spec fn kind_of(v: VolumeView, id: u64, mode: u16) -> Result<KindView, ErrorView> {
    if mode & S_IFMT == S_IFDIR {
        Ok(KindView::Dir)
    } else if mode & S_IFMT == S_IFLNK {
        match target_of(v.data, v.block, v.block_size, id) {
            Err(m) => Err(damaged(m)),
            Ok(Some(t)) => Ok(KindView::Symlink(t)),
            Ok(None) => Ok(KindView::Symlink(Seq::empty())),
        }
    } else {
        Ok(KindView::File)
    }
}

/// The entry of a file at a path.
pub open spec fn entry_of(v: VolumeView, id: u64, path: Seq<char>, inode: InodeRow) -> Result<EntryView, ErrorView> {
    match kind_of(v, id, inode.mode) {
        Err(e) => Err(e),
        Ok(kind) => Ok(
            EntryView {
                path_raw: utf8::encode_utf8(path),
                path,
                kind,
                size: if kind is File && inode.size is Some { inode.size->0 } else { 0 },
                mode: None,
                is_encrypted: false,
                modified: match instant_of(inode.mod_time as int) {
                    Some(t) => Some(Stamp::Instant(t)),
                    None => None,
                },
                is_resource_fork: false,
            },
        ),
    }
}

/// The walk through a directory and what lies below it.
pub open spec fn walked(v: VolumeView, dir: u64, prefix: Seq<char>, depth: int, found: Found) -> Result<Found, ErrorView>
    decreases MAX_APFS_DEPTH + 2 - depth, 1int, 0int,
{
    if depth < 0 || depth > MAX_APFS_DEPTH {
        Err(ErrorView::Corrupt("apfs: directory tree too deep"@))
    } else {
        match children_of(v.data, v.block, v.block_size, dir) {
            Err(m) => Err(damaged(m)),
            Ok(children) => walked_children(v, children, prefix, depth, found),
        }
    }
}

/// The walk through some children of a directory.
pub open spec fn walked_children(
    v: VolumeView,
    children: Seq<(u64, Seq<char>)>,
    prefix: Seq<char>,
    depth: int,
    found: Found,
) -> Result<Found, ErrorView>
    decreases MAX_APFS_DEPTH + 2 - depth, 0int, children.len() as int,
{
    if children.len() == 0 || depth < 0 || depth > MAX_APFS_DEPTH {
        Ok(found)
    } else if found.entries.len() >= MAX_APFS_ENTRIES {
        Err(ErrorView::Corrupt("apfs: too many entries"@))
    } else {
        let (id, name) = children[0];
        let path = below(prefix, name);
        match inode_of(v.data, v.block, v.block_size, id) {
            Err(m) => Err(damaged(m)),
            Ok(inode) => match entry_of(v, id, path, inode) {
                Err(e) => Err(e),
                Ok(entry) => {
                    let with = Found { entries: found.entries.push(entry), ids: found.ids.push(id) };
                    if entry.kind is Dir {
                        match walked(v, id, path, depth + 1, with) {
                            Err(e) => Err(e),
                            Ok(more) => walked_children(v, children.skip(1), prefix, depth, more),
                        }
                    } else {
                        walked_children(v, children.skip(1), prefix, depth, with)
                    }
                },
            },
        }
    }
}

/// A walk keeps what was found before it, in its place, finds an entry for each
/// inode and an inode for each entry, and never finds more than the most entries
/// that a volume may show.
pub proof fn walk_is_bounded(v: VolumeView, dir: u64, prefix: Seq<char>, depth: int, found: Found)
    requires
        found.entries.len() == found.ids.len(),
        found.entries.len() <= MAX_APFS_ENTRIES,
    ensures
        walked(v, dir, prefix, depth, found) matches Ok(more) ==> {
            &&& found.entries.is_prefix_of(more.entries)
            &&& found.ids.is_prefix_of(more.ids)
            &&& more.entries.len() == more.ids.len()
            &&& more.entries.len() <= MAX_APFS_ENTRIES
        },
    decreases MAX_APFS_DEPTH + 2 - depth, 1int, 0int,
{
    if 0 <= depth <= MAX_APFS_DEPTH {
        if let Ok(children) = children_of(v.data, v.block, v.block_size, dir) {
            children_are_bounded(v, children, prefix, depth, found);
        }
    }
}

/// A sequence is a prefix of itself with one more element, and of whatever that is
/// a prefix of.
pub proof fn prefix_grows<A>(s: Seq<A>, x: A, longer: Seq<A>)
    ensures
        s.is_prefix_of(s.push(x)),
        s.push(x).is_prefix_of(longer) ==> s.is_prefix_of(longer),
{
    assert(s =~= s.push(x).subrange(0, s.len() as int));
    if s.push(x).is_prefix_of(longer) {
        assert(s =~= longer.subrange(0, s.push(x).len() as int).subrange(0, s.len() as int));
        assert(s =~= longer.subrange(0, s.len() as int));
    }
}

/// A prefix of a prefix is a prefix of the whole.
pub proof fn prefixes_nest<A>(s: Seq<A>, part: Seq<A>, whole: Seq<A>)
    requires
        s.is_prefix_of(part),
        part.is_prefix_of(whole),
    ensures
        s.is_prefix_of(whole),
{
    assert(s =~= whole.subrange(0, part.len() as int).subrange(0, s.len() as int));
    assert(s =~= whole.subrange(0, s.len() as int));
}

proof fn children_are_bounded(v: VolumeView, children: Seq<(u64, Seq<char>)>, prefix: Seq<char>, depth: int, found: Found)
    requires
        found.entries.len() == found.ids.len(),
        found.entries.len() <= MAX_APFS_ENTRIES,
    ensures
        walked_children(v, children, prefix, depth, found) matches Ok(more) ==> {
            &&& found.entries.is_prefix_of(more.entries)
            &&& found.ids.is_prefix_of(more.ids)
            &&& more.entries.len() == more.ids.len()
            &&& more.entries.len() <= MAX_APFS_ENTRIES
        },
    decreases MAX_APFS_DEPTH + 2 - depth, 0int, children.len() as int,
{
    if children.len() > 0 && 0 <= depth <= MAX_APFS_DEPTH && found.entries.len() < MAX_APFS_ENTRIES {
        let (id, name) = children[0];
        let path = below(prefix, name);
        if let Ok(inode) = inode_of(v.data, v.block, v.block_size, id) {
            if let Ok(entry) = entry_of(v, id, path, inode) {
                let with = Found { entries: found.entries.push(entry), ids: found.ids.push(id) };
                if entry.kind is Dir {
                    walk_is_bounded(v, id, path, depth + 1, with);
                    if let Ok(more) = walked(v, id, path, depth + 1, with) {
                        children_are_bounded(v, children.skip(1), prefix, depth, more);
                        prefix_grows(found.entries, entry, more.entries);
                        prefix_grows(found.ids, id, more.ids);
                        if let Ok(all) = walked_children(v, children.skip(1), prefix, depth, more) {
                            prefixes_nest(found.entries, more.entries, all.entries);
                            prefixes_nest(found.ids, more.ids, all.ids);
                        }
                    }
                } else {
                    children_are_bounded(v, children.skip(1), prefix, depth, with);
                    if let Ok(all) = walked_children(v, children.skip(1), prefix, depth, with) {
                        prefix_grows(found.entries, entry, all.entries);
                        prefix_grows(found.ids, id, all.ids);
                    }
                }
            }
        }
    }
}

/// What two lists have collected.
pub open spec fn found_of(entries: Seq<Entry>, ids: Seq<u64>) -> Found {
    Found { entries: archive::views(entries), ids }
}

/// The entry of a file at a path.
fn make_entry(v: &Volume, id: u64, path: &str, inode: &InodeRow) -> (r: Result<Entry, Error>)
    ensures
        match r {
            Ok(e) => entry_of(v@, id, path@, *inode) == Ok::<EntryView, ErrorView>(e@),
            Err(e) => entry_of(v@, id, path@, *inode) == Err::<EntryView, ErrorView>(e@),
        },
{
    let ifmt: u16 = inode.mode & S_IFMT;
    let kind = if ifmt == S_IFDIR {
        EntryKind::Dir
    } else if ifmt == S_IFLNK {
        match symlink_target(v, id) {
            Err(m) => {
                return Err(map_apfs_err(m));
            },
            Ok(Some(target)) => EntryKind::Symlink { target },
            Ok(None) => {
                proof {
                    reveal_strlit("");
                    assert(""@ =~= Seq::<char>::empty());
                }
                EntryKind::Symlink { target: copy_text("") }
            },
        }
    } else {
        EntryKind::File
    };
    let size: u64 = match (&kind, inode.size) {
        (EntryKind::File, Some(n)) => n,
        _ => 0,
    };
    Ok(
        Entry {
            path_raw: copy_bytes(path.as_bytes()),
            path: copy_text(path),
            kind,
            size,
            mode: None,
            is_encrypted: false,
            modified: match apfs_ns_to_systime(inode.mod_time) {
                Some(t) => Some(Stamp::Instant(t)),
                None => None,
            },
            is_resource_fork: false,
        },
    )
}

/// Collect what lies in a directory and below it.
pub fn walk_tree(v: &Volume, dir: u64, prefix: &str, depth: usize, entries: &mut Vec<Entry>, ids: &mut Vec<u64>) -> (r: Result<
    (),
    Error,
>)
    requires
        old(entries).len() == old(ids).len(),
    ensures
        match walked(v@, dir, prefix@, depth as int, found_of(old(entries)@, old(ids)@)) {
            Ok(f) => r is Ok && found_of(final(entries)@, final(ids)@) == f,
            Err(e) => error::fails_with(r, e),
        },
        r is Ok ==> final(entries).len() == final(ids).len(),
    decreases MAX_APFS_DEPTH + 2 - depth,
{
    if depth > MAX_APFS_DEPTH {
        return Err(corrupt("apfs: directory tree too deep"));
    }
    let found = match list_dir(v, dir) {
        Err(m) => {
            return Err(map_apfs_err(m));
        },
        Ok(found) => found,
    };
    let ghost children = found@.map_values(|c: (u64, String)| (c.0, c.1@));
    let ghost whole = walked(v@, dir, prefix@, depth as int, found_of(entries@, ids@));
    let mut i: usize = 0;
    assert(children.skip(0) =~= children);
    while i < found.len()
        invariant
            i <= found.len(),
            depth <= MAX_APFS_DEPTH,
            entries.len() == ids.len(),
            children == found@.map_values(|c: (u64, String)| (c.0, c.1@)),
            whole == walked(v@, dir, prefix@, depth as int, found_of(old(entries)@, old(ids)@)),
            whole == walked_children(v@, children.skip(i as int), prefix@, depth as int, found_of(entries@, ids@)),
        decreases found.len() - i,
    {
        let ghost left = children.skip(i as int);
        let ghost so_far = found_of(entries@, ids@);
        proof {
            assert(left[0] == children[i as int]);
            assert(left.skip(1) =~= children.skip(i + 1));
            assert(archive::views(entries@).len() == entries.len());
        }
        if entries.len() >= MAX_APFS_ENTRIES {
            return Err(corrupt("apfs: too many entries"));
        }
        let id: u64 = found[i].0;
        let path = join_below(prefix, found[i].1.as_str());
        let inode = match load_inode(v, id) {
            Err(m) => {
                return Err(map_apfs_err(m));
            },
            Ok(inode) => inode,
        };
        let entry = match make_entry(v, id, path.as_str(), &inode) {
            Err(e) => {
                return Err(e);
            },
            Ok(entry) => entry,
        };
        let is_dir = entry.is_dir();
        let ghost shown = entry@;
        entries.push(entry);
        ids.push(id);
        proof {
            assert(archive::views(entries@) =~= so_far.entries.push(shown));
        }
        if is_dir {
            walk_tree(v, id, path.as_str(), depth + 1, entries, ids)?;
        }
        i = i + 1;
    }
    proof {
        assert(children.skip(i as int) =~= Seq::<(u64, Seq<char>)>::empty());
    }
    Ok(())
}

/// The first volume of a container, or why it cannot be mounted.
pub open spec fn mounted(data: Seq<u8>) -> Result<VolumeView, ErrorView> {
    if data.len() < APFS_MAGIC_OFFSET + 4 || !bytes::stands_at(data, APFS_MAGIC_OFFSET as int, APFS_MAGIC@) {
        Err(ErrorView::UnknownFormat)
    } else if !checkpoints_fit(data) {
        Err(damaged("checkpoint area out of range"@))
    } else {
        match container_layout(data) {
            Err(m) => Err(damaged(m)),
            Ok((block_size, addrs)) => if addrs.len() == 0 {
                Err(ErrorView::Corrupt("apfs: container has no volumes"@))
            } else {
                let start = addrs[0] * block_size;
                if start + block_size > data.len() {
                    Err(ErrorView::Corrupt("failed to fill whole buffer"@))
                } else {
                    let block = data.subrange(start, start + block_size);
                    match volume_refusal(block) {
                        Some(m) => Err(damaged(m)),
                        None => Ok(VolumeView { data, block, block_size: block_size as int }),
                    }
                }
            },
        }
    }
}

/// Mount the first volume of a container.
pub fn mount_first_volume(data: Vec<u8>) -> (r: Result<Volume, Error>)
    ensures
        match r {
            Ok(v) => mounted(data@) == Ok::<VolumeView, ErrorView>(v@),
            Err(e) => mounted(data@) == Err::<VolumeView, ErrorView>(e@),
        },
{
    if data.len() < APFS_MAGIC_OFFSET + 4 || !found_at(data.as_slice(), APFS_MAGIC_OFFSET, &APFS_MAGIC) {
        return Err(Error::UnknownFormat);
    }
    if !check_checkpoints(data.as_slice()) {
        return Err(map_apfs_err(copy_text("checkpoint area out of range")));
    }
    let (block_size, addrs) = match read_container(data.as_slice()) {
        Err(m) => {
            return Err(map_apfs_err(m));
        },
        Ok(layout) => layout,
    };
    if addrs.len() == 0 {
        return Err(corrupt("apfs: container has no volumes"));
    }
    let start: u128 = mul_wide(addrs[0], block_size);
    let size: u64 = data.len() as u64;
    if start > size as u128 || block_size as u64 > size - start as u64 {
        return Err(corrupt("failed to fill whole buffer"));
    }
    let from: usize = start as u64 as usize;
    let block = copy_range(data.as_slice(), from, from + block_size as usize);
    match refusal(block.as_slice()) {
        Some(m) => Err(map_apfs_err(m)),
        None => Ok(Volume { data, block, block_size: block_size as usize }),
    }
}

fn mul_wide(a: u64, b: u32) -> (r: u128)
    ensures
        r == a * b,
{
    assert(a * b <= 0xFFFF_FFFF_FFFF_FFFF * 0xFFFF_FFFF) by (nonlinear_arith)
        requires
            a <= 0xFFFF_FFFF_FFFF_FFFF,
            b <= 0xFFFF_FFFF,
    ;
    a as u128 * b as u128
}

/// The bodies of the entries of a volume.
pub open spec fn bodies_of(v: VolumeView, found: Found) -> Seq<Result<Seq<u8>, ErrorView>> {
    Seq::new(found.entries.len(), |i: int| body_of(v, found, i))
}

/// The body of an entry: only files have one. None is read where one of them announces
/// more than the container can hold.
pub open spec fn body_of(v: VolumeView, found: Found, i: int) -> Result<Seq<u8>, ErrorView> {
    if found.entries[i].kind is File && !contents_fit(v.data) {
        Err(damaged("a compressed file announces too much"@))
    } else if found.entries[i].kind is File {
        match content_of(v.data, v.block, v.block_size, found.ids[i]) {
            Ok(b) => Ok(b),
            Err(m) => Err(damaged(m)),
        }
    } else {
        Ok(Seq::empty())
    }
}

/// An opened volume.
#[derive(Debug)]
pub struct ApfsReader {
    volume: Volume,
    entries: Vec<Entry>,
    ids: Vec<u64>,
    fits: bool,
}

impl ApfsReader {
    #[verifier::type_invariant]
    spec fn wf(self) -> bool {
        &&& self.entries.len() == self.ids.len()
        &&& self.fits == contents_fit(self.volume.data@)
    }
}

impl ArchiveReader for ApfsReader {
    open spec fn spec_format(&self) -> FormatId {
        FormatId::Apfs
    }

    closed spec fn listing(&self) -> Seq<EntryView> {
        archive::views(self.entries@)
    }

    closed spec fn body(&self, idx: int) -> Result<Seq<u8>, ErrorView> {
        archive::body_at(bodies_of(self.volume@, found_of(self.entries@, self.ids@)), idx)
    }

    fn format(&self) -> (r: FormatId) {
        FormatId::Apfs
    }

    fn entries(&self) -> (r: &Vec<Entry>) {
        &self.entries
    }

    fn read_entry(&self, idx: usize) -> (r: Result<Vec<u8>, Error>) {
        proof {
            use_type_invariant(self);
        }
        if idx >= self.entries.len() {
            return Err(Error::InvalidIndex(idx));
        }
        proof {
            assert(archive::views(self.entries@)[idx as int] == self.entries@[idx as int]@);
        }
        match self.entries[idx].kind {
            EntryKind::File => {
                if !self.fits {
                    return Err(map_apfs_err(copy_text("a compressed file announces too much")));
                }
                match read_data(&self.volume, self.ids[idx]) {
                    Ok(b) => Ok(b),
                    Err(m) => Err(map_apfs_err(m)),
                }
            },
            _ => {
                let none: Vec<u8> = Vec::new();
                assert(none@ =~= Seq::<u8>::empty());
                Ok(none)
            },
        }
    }

    fn verify_password(&self) -> (r: Result<(), Error>) {
        Ok(())
    }
}

impl BatchReader for ApfsReader {
    fn read_entries<S: EntrySink>(&self, indices: &[usize], sink: &mut S) -> (r: Result<(), Error>) {
        read_entries_one_by_one(self, indices, sink)
    }
}

/// What a container shows: its first volume and what was found on it.
pub open spec fn opened(data: Seq<u8>) -> Result<(VolumeView, Found), ErrorView> {
    match mounted(data) {
        Err(e) => Err(e),
        Ok(v) => match walked(v, ROOT_DIR, Seq::empty(), 0, Found { entries: Seq::empty(), ids: Seq::empty() }) {
            Err(e) => Err(e),
            Ok(found) => Ok((v, found)),
        },
    }
}

/// Open the container that the bytes are.
pub fn open_apfs_reader(data: Vec<u8>) -> (r: Result<ApfsReader, Error>)
    ensures
        match opened(data@) {
            Err(e) => error::fails_with(r, e),
            Ok((v, found)) => r matches Ok(reader) && archive::presents(&reader, FormatId::Apfs, found.entries, bodies_of(v, found)),
        },
{
    let volume = match mount_first_volume(data) {
        Err(e) => {
            return Err(e);
        },
        Ok(v) => v,
    };
    let mut entries: Vec<Entry> = Vec::new();
    let mut ids: Vec<u64> = Vec::new();
    proof {
        reveal_strlit("");
        assert(""@ =~= Seq::<char>::empty());
        assert(archive::views(entries@) =~= Seq::<EntryView>::empty());
        assert(ids@ =~= Seq::<u64>::empty());
    }
    walk_tree(&volume, ROOT_DIR, "", 0, &mut entries, &mut ids)?;
    let fits = check_contents(volume.data.as_slice());
    Ok(ApfsReader { volume, entries, ids, fits })
}

/// What lies `offset` bytes into an image.
pub open spec fn tail_of(data: Seq<u8>, offset: int) -> Seq<u8> {
    if offset >= data.len() { Seq::empty() } else { data.skip(offset) }
}

/// Open the container that begins `offset` bytes into an image.
pub fn open_apfs(data: &[u8], offset: u64) -> (r: Result<ApfsReader, Error>)
    ensures
        match opened(tail_of(data@, offset as int)) {
            Err(e) => error::fails_with(r, e),
            Ok((v, found)) => r matches Ok(reader) && archive::presents(&reader, FormatId::Apfs, found.entries, bodies_of(v, found)),
        },
{
    let from: usize = if offset >= data.len() as u64 { data.len() } else { offset as usize };
    let part = copy_range(data, from, data.len());
    assert(part@ =~= tail_of(data@, offset as int));
    open_apfs_reader(part)
}

/// Reads Apple File System containers.
#[derive(Debug, Clone, Copy)]
pub struct ApfsHandler;

impl FormatHandler for ApfsHandler {
    open spec fn spec_id(&self) -> FormatId {
        FormatId::Apfs
    }

    open spec fn spec_probe(&self, header: Seq<u8>, name: Option<Seq<char>>) -> Confidence {
        archive::magic_when(bytes::stands_at(header, APFS_MAGIC_OFFSET as int, APFS_MAGIC@) || paths::has_extension(name, "apfs"@))
    }

    fn id(&self) -> (r: FormatId) {
        FormatId::Apfs
    }

    fn probe(&self, header: &[u8], name: Option<&str>) -> (r: Confidence) {
        Confidence::magic_if(found_at(header, APFS_MAGIC_OFFSET, &APFS_MAGIC) || extension_is(name, "apfs"))
    }
}

/// The outcome of opening a container.
pub open spec fn opens(r: Result<ApfsReader, Error>, src: Source) -> bool {
    if src.spec_path() is None {
        error::fails_with(
            r,
            ErrorView::Unsupported {
                format: "apfs"@,
                feature: "non-file source (apfs requires a file path)"@,
            },
        )
    } else {
        match opened(src.content()) {
            Err(e) => error::fails_with(r, e),
            Ok((v, found)) => r matches Ok(reader) && archive::presents(
                &reader,
                FormatId::Apfs,
                found.entries,
                bodies_of(v, found),
            ),
        }
    }
}

impl ApfsHandler {
    /// Open a container. It must come from a file.
    pub fn open(&self, src: Source) -> (r: Result<ApfsReader, Error>)
        ensures
            opens(r, src),
    {
        if src.file_path().is_none() {
            return Err(unsupported("apfs", "non-file source (apfs requires a file path)"));
        }
        open_apfs_reader(src.read_all())
    }
}

/// The mode of an inode says that it is a directory.
pub open spec fn is_folder(v: VolumeView, id: u64) -> bool {
    inode_of(v.data, v.block, v.block_size, id) matches Ok(n) && n.mode as int / 0x1000 == 4
}

/// `names` lead from these children to the inode `id`: the first of them is that of a child,
/// and the others lead on from its own children, if it is a directory.
pub open spec fn leads_to(v: VolumeView, children: Seq<(u64, Seq<char>)>, names: Seq<Seq<char>>, id: u64) -> bool
    decreases names.len(),
{
    names.len() > 0 && exists|k: int|
        0 <= k < children.len() && (#[trigger] children[k]).1 == names[0] && if names.len() == 1 {
            children[k].0 == id
        } else {
            is_folder(v, children[k].0) && match children_of(v.data, v.block, v.block_size, children[k].0) {
                Ok(below) => leads_to(v, below, names.skip(1), id),
                Err(_) => false,
            }
        }
}

/// Where one comes from `prefix` by going down through `names`.
pub open spec fn path_down(prefix: Seq<char>, names: Seq<Seq<char>>) -> Seq<char>
    decreases names.len(),
{
    if names.len() == 0 {
        prefix
    } else {
        let above = path_down(prefix, names.drop_last());
        if above.len() == 0 {
            names.last()
        } else {
            above + seq!['/'] + names.last()
        }
    }
}

proof fn slash_is_one_character()
    ensures
        "/"@ == seq!['/'],
{
    reveal_strlit("/");
    assert("/"@ =~= seq!['/']);
}

/// Going down through a name and then through others is going down through all of them.
pub proof fn path_down_begins(prefix: Seq<char>, name: Seq<char>, names: Seq<Seq<char>>)
    ensures
        path_down(below(prefix, name), names) == path_down(prefix, seq![name] + names),
        path_down(prefix, seq![name]) == below(prefix, name),
    decreases names.len(),
{
    slash_is_one_character();
    let all = seq![name] + names;
    let first = seq![name];
    assert(first.drop_last() =~= Seq::<Seq<char>>::empty());
    assert(path_down(prefix, first.drop_last()) == prefix);
    if names.len() == 0 {
        assert(all =~= first);
        assert(names =~= Seq::<Seq<char>>::empty());
    } else {
        path_down_begins(prefix, name, names.drop_last());
        assert(all.drop_last() =~= seq![name] + names.drop_last());
        assert(all.last() == names.last());
    }
}

/// The path from the top down through names that are pieces is the names with slashes
/// between them: cut at its slashes it gives the names back.
pub proof fn way_down_is_cut_into_names(names: Seq<Seq<char>>)
    requires
        names.len() > 0,
        forall|k: int| 0 <= k < names.len() ==> (#[trigger] names[k]).len() > 0 && !names[k].contains('/'),
    ensures
        text::split(path_down(Seq::empty(), names), '/') == names,
{
    way_down_is_joined(names);
    assert(text::free_of(names, '/'));
    text::split_undoes_join(names, '/');
}

proof fn way_down_is_joined(names: Seq<Seq<char>>)
    requires
        names.len() > 0,
        forall|k: int| 0 <= k < names.len() ==> (#[trigger] names[k]).len() > 0 && !names[k].contains('/'),
    ensures
        path_down(Seq::empty(), names) == text::join(names, '/'),
        path_down(Seq::empty(), names).len() > 0,
    decreases names.len(),
{
    let init = names.drop_last();
    assert(names[names.len() - 1].len() > 0);
    if names.len() == 1 {
        assert(init =~= Seq::<Seq<char>>::empty());
        assert(path_down(Seq::empty(), init) =~= Seq::<char>::empty());
    } else {
        assert forall|k: int| 0 <= k < init.len() implies (#[trigger] init[k]).len() > 0 && !init[k].contains('/') by {
            assert(init[k] == names[k]);
        }
        way_down_is_joined(init);
        let p = path_down(Seq::empty(), init);
        assert(p + seq!['/'] + names.last() =~= p.push('/') + names.last());
    }
}

/// What is listed for an inode: its path leads down to it, and the rest is what the inode
/// says. The upper four bits of the mode tell directories (4) and links (10) from files,
/// and the time is in nanoseconds.
pub open spec fn shows_inode(v: VolumeView, e: EntryView, path: Seq<char>, id: u64) -> bool {
    inode_of(v.data, v.block, v.block_size, id) matches Ok(n) && {
        let t = n.mode as int / 0x1000;
        &&& e.path == path
        &&& e.path_raw == utf8::encode_utf8(path)
        &&& t == 4 ==> e.kind == KindView::Dir
        &&& t == 10 ==> (e.kind matches KindView::Symlink(to) && (target_of(v.data, v.block, v.block_size, id) matches Ok(
            told,
        ) && (told == Some(to) || told is None && to.len() == 0)))
        &&& t != 4 && t != 10 ==> e.kind == KindView::File
        &&& e.size == if t == 4 || t == 10 || n.size is None { 0 } else { n.size->0 }
        &&& e.mode is None
        &&& !e.is_encrypted && !e.is_resource_fork
        &&& e.modified is None ==> n.mod_time == 0
        &&& e.modified matches Some(s) ==> (s matches Stamp::Instant(at) && n.mod_time != 0 && at.nanos < 1_000_000_000 && at.secs
            * 1_000_000_000 + at.nanos == n.mod_time)
    }
}

proof fn entry_shows_inode(v: VolumeView, id: u64, path: Seq<char>, n: InodeRow)
    requires
        inode_of(v.data, v.block, v.block_size, id) == Ok::<InodeRow, Seq<char>>(n),
        entry_of(v, id, path, n) is Ok,
    ensures
        shows_inode(v, entry_of(v, id, path, n)->Ok_0, path, id),
        (entry_of(v, id, path, n)->Ok_0.kind is Dir) == is_folder(v, id),
{
    let m = n.mode;
    assert((m & 0xF000 == 0x4000) == (m / 0x1000 == 4) && (m & 0xF000 == 0xA000) == (m / 0x1000 == 10)) by (bit_vector);
}

/// There is a way down from these children to what is found at `i`, and the directory that
/// it goes through last is found before, though not before `from`.
pub open spec fn comes_down(
    v: VolumeView,
    children: Seq<(u64, Seq<char>)>,
    prefix: Seq<char>,
    from: int,
    found: Found,
    i: int,
    names: Seq<Seq<char>>,
) -> bool {
    &&& leads_to(v, children, names, found.ids[i])
    &&& shows_inode(v, found.entries[i], path_down(prefix, names), found.ids[i])
    &&& names.len() > 1 ==> exists|h: int|
        from <= h < i && (#[trigger] found.entries[h]).kind is Dir && found.entries[h].path == path_down(
            prefix,
            names.drop_last(),
        )
}

/// There is a way down from these children to what is found at `i`.
pub open spec fn has_way(v: VolumeView, children: Seq<(u64, Seq<char>)>, prefix: Seq<char>, from: int, found: Found, i: int) -> bool {
    exists|names: Seq<Seq<char>>| #[trigger] comes_down(v, children, prefix, from, found, i, names)
}

proof fn first_comes_down(v: VolumeView, children: Seq<(u64, Seq<char>)>, prefix: Seq<char>, from: int, more: Found)
    requires
        children.len() > 0,
        0 <= from < more.entries.len() == more.ids.len(),
        more.ids[from] == children[0].0,
        shows_inode(v, more.entries[from], below(prefix, children[0].1), children[0].0),
    ensures
        has_way(v, children, prefix, from, more, from),
{
    let names = seq![children[0].1];
    path_down_begins(prefix, children[0].1, Seq::empty());
    assert(leads_to(v, children, names, children[0].0));
    assert(comes_down(v, children, prefix, from, more, from, names));
}

#[verifier::rlimit(40)]
proof fn below_comes_down(
    v: VolumeView,
    children: Seq<(u64, Seq<char>)>,
    inner: Seq<(u64, Seq<char>)>,
    prefix: Seq<char>,
    from: int,
    part: Found,
    more: Found,
    i: int,
)
    requires
        children.len() > 0,
        is_folder(v, children[0].0),
        children_of(v.data, v.block, v.block_size, children[0].0) == Ok::<Seq<(u64, Seq<char>)>, Seq<char>>(inner),
        0 <= from < i < part.entries.len() == part.ids.len(),
        part.entries.is_prefix_of(more.entries),
        part.ids.is_prefix_of(more.ids),
        part.entries[from].kind is Dir,
        part.entries[from].path == below(prefix, children[0].1),
        has_way(v, inner, below(prefix, children[0].1), from + 1, part, i),
    ensures
        has_way(v, children, prefix, from, more, i),
{
    let name = children[0].1;
    let path = below(prefix, name);
    let names = choose|names: Seq<Seq<char>>| #[trigger] comes_down(v, inner, path, from + 1, part, i, names);
    let all = seq![name] + names;
    assert(all.skip(1) =~= names);
    assert(more.ids[i] == part.ids[i]);
    assert(more.entries[i] == part.entries[i]);
    assert(leads_to(v, children, all, more.ids[i]));
    path_down_begins(prefix, name, names);
    path_down_begins(prefix, name, names.drop_last());
    assert(all.drop_last() =~= seq![name] + names.drop_last());
    if names.len() > 1 {
        let h = choose|h: int|
            from + 1 <= h < i && (#[trigger] part.entries[h]).kind is Dir && part.entries[h].path == path_down(
                path,
                names.drop_last(),
            );
        assert(more.entries[h] == part.entries[h]);
    } else {
        assert(all.drop_last() =~= seq![name]);
        assert(more.entries[from] == part.entries[from]);
    }
    assert(comes_down(v, children, prefix, from, more, i, all));
}

#[verifier::rlimit(40)]
proof fn rest_comes_down(v: VolumeView, children: Seq<(u64, Seq<char>)>, prefix: Seq<char>, from: int, later: int, more: Found, i: int)
    requires
        children.len() > 0,
        0 <= from <= later <= i < more.entries.len(),
        has_way(v, children.skip(1), prefix, later, more, i),
    ensures
        has_way(v, children, prefix, from, more, i),
{
    let rest = children.skip(1);
    let names = choose|names: Seq<Seq<char>>| #[trigger] comes_down(v, rest, prefix, later, more, i, names);
    let id = more.ids[i];
    let k = choose|k: int|
        0 <= k < rest.len() && (#[trigger] rest[k]).1 == names[0] && if names.len() == 1 {
            rest[k].0 == id
        } else {
            is_folder(v, rest[k].0) && match children_of(v.data, v.block, v.block_size, rest[k].0) {
                Ok(inner) => leads_to(v, inner, names.skip(1), id),
                Err(_) => false,
            }
        };
    assert(children[k + 1] == rest[k]);
    assert(leads_to(v, children, names, id));
    assert(comes_down(v, children, prefix, from, more, i, names));
}

/// Whatever is found of some children has a path that goes down through the names of the
/// directories that it lies in and ends with its own; and the directory around it is found
/// before it.
#[verifier::rlimit(40)]
pub proof fn found_paths_come_down(v: VolumeView, children: Seq<(u64, Seq<char>)>, prefix: Seq<char>, depth: int, found: Found)
    requires
        found.entries.len() == found.ids.len(),
    ensures
        walked_children(v, children, prefix, depth, found) matches Ok(more) ==> {
            &&& more.entries.len() == more.ids.len()
            &&& found.entries.is_prefix_of(more.entries)
            &&& found.ids.is_prefix_of(more.ids)
            &&& 0 <= depth <= MAX_APFS_DEPTH ==> forall|i: int|
                found.entries.len() <= i < more.entries.len() ==> #[trigger] has_way(
                    v,
                    children,
                    prefix,
                    found.entries.len() as int,
                    more,
                    i,
                )
        },
    decreases MAX_APFS_DEPTH + 2 - depth, children.len(),
{
    if children.len() > 0 && 0 <= depth <= MAX_APFS_DEPTH && walked_children(v, children, prefix, depth, found) is Ok {
        let more = walked_children(v, children, prefix, depth, found)->Ok_0;
        let (id, name) = children[0];
        let path = below(prefix, name);
        let n = inode_of(v.data, v.block, v.block_size, id)->Ok_0;
        let entry = entry_of(v, id, path, n)->Ok_0;
        let with = Found { entries: found.entries.push(entry), ids: found.ids.push(id) };
        let from = found.entries.len() as int;
        entry_shows_inode(v, id, path, n);
        let inner = children_of(v.data, v.block, v.block_size, id)->Ok_0;
        let part = if entry.kind is Dir { walked(v, id, path, depth + 1, with)->Ok_0 } else { with };
        if entry.kind is Dir {
            assert(walked(v, id, path, depth + 1, with) == walked_children(v, inner, path, depth + 1, with));
            found_paths_come_down(v, inner, path, depth + 1, with);
        }
        found_paths_come_down(v, children.skip(1), prefix, depth, part);
        assert(part.entries[from] == entry && part.ids[from] == id) by {
            assert(with.entries[from] == entry && with.ids[from] == id);
        }
        prefix_grows(found.entries, entry, part.entries);
        prefix_grows(found.ids, id, part.ids);
        prefixes_nest(found.entries, part.entries, more.entries);
        prefixes_nest(found.ids, part.ids, more.ids);
        assert(more.entries[from] == entry && more.ids[from] == id);
        assert forall|i: int| from <= i < more.entries.len() implies #[trigger] has_way(v, children, prefix, from, more, i) by {
            if i == from {
                first_comes_down(v, children, prefix, from, more);
            } else if i < part.entries.len() {
                assert(has_way(v, inner, path, from + 1, part, i));
                below_comes_down(v, children, inner, prefix, from, part, more, i);
            } else {
                assert(has_way(v, children.skip(1), prefix, part.entries.len() as int, more, i));
                rest_comes_down(v, children, prefix, from, part.entries.len() as int, more, i);
            }
        }
    }
}

/// Whatever a way leads down to is found, under the path of that way.
#[verifier::rlimit(40)]
pub proof fn ways_down_are_found(
    v: VolumeView,
    children: Seq<(u64, Seq<char>)>,
    prefix: Seq<char>,
    depth: int,
    found: Found,
    names: Seq<Seq<char>>,
    id: u64,
)
    requires
        found.entries.len() == found.ids.len(),
        0 <= depth <= MAX_APFS_DEPTH,
        walked_children(v, children, prefix, depth, found) is Ok,
        leads_to(v, children, names, id),
    ensures
        is_found(
            v,
            walked_children(v, children, prefix, depth, found)->Ok_0,
            found.entries.len() as int,
            path_down(prefix, names),
            id,
        ),
    decreases MAX_APFS_DEPTH + 2 - depth, children.len(),
{
    let more = walked_children(v, children, prefix, depth, found)->Ok_0;
    let k = choose|k: int|
        0 <= k < children.len() && (#[trigger] children[k]).1 == names[0] && if names.len() == 1 {
            children[k].0 == id
        } else {
            is_folder(v, children[k].0) && match children_of(v.data, v.block, v.block_size, children[k].0) {
                Ok(inner) => leads_to(v, inner, names.skip(1), id),
                Err(_) => false,
            }
        };
    let (first, name) = children[0];
    let path = below(prefix, name);
    let n = inode_of(v.data, v.block, v.block_size, first)->Ok_0;
    let entry = entry_of(v, first, path, n)->Ok_0;
    let with = Found { entries: found.entries.push(entry), ids: found.ids.push(first) };
    let from = found.entries.len() as int;
    entry_shows_inode(v, first, path, n);
    let inner = children_of(v.data, v.block, v.block_size, first)->Ok_0;
    let part = if entry.kind is Dir { walked(v, first, path, depth + 1, with)->Ok_0 } else { with };
    if entry.kind is Dir {
        assert(walked(v, first, path, depth + 1, with) == walked_children(v, inner, path, depth + 1, with));
        found_paths_come_down(v, inner, path, depth + 1, with);
    }
    found_paths_come_down(v, children.skip(1), prefix, depth, part);
    assert(part.entries[from] == entry && part.ids[from] == first) by {
        assert(with.entries[from] == entry && with.ids[from] == first);
    }
    if k == 0 {
        assert(names =~= seq![name] + names.skip(1));
        path_down_begins(prefix, name, names.skip(1));
        if names.len() == 1 {
            assert(names =~= seq![name]);
            assert(more.ids[from] == part.ids[from] && more.entries[from] == part.entries[from]);
        } else {
            assert(depth + 1 <= MAX_APFS_DEPTH);
            ways_down_are_found(v, inner, path, depth + 1, with, names.skip(1), id);
            let i = choose|i: int|
                with.entries.len() <= i < part.entries.len() && #[trigger] part.ids[i] == id && shows_inode(
                    v,
                    part.entries[i],
                    path_down(path, names.skip(1)),
                    id,
                );
            assert(more.ids[i] == part.ids[i] && more.entries[i] == part.entries[i]);
        }
    } else {
        assert(children.skip(1)[k - 1] == children[k]);
        assert(leads_to(v, children.skip(1), names, id));
        ways_down_are_found(v, children.skip(1), prefix, depth, part, names, id);
    }
}

/// Whatever a volume lists lies below its root, the inode 2, under the names that lead down
/// to it from there.
pub proof fn volume_paths_come_down(data: Seq<u8>, i: int)
    requires
        opened(data) matches Ok((_, found)) && 0 <= i < found.entries.len(),
    ensures
        opened(data) matches Ok((v, found)) && children_of(v.data, v.block, v.block_size, 2) matches Ok(top) && has_way(
            v,
            top,
            Seq::empty(),
            0,
            found,
            i,
        ),
{
    let v = mounted(data)->Ok_0;
    let top = children_of(v.data, v.block, v.block_size, 2)->Ok_0;
    let none = Found { entries: Seq::empty(), ids: Seq::empty() };
    assert(walked(v, 2, Seq::empty(), 0, none) == walked_children(v, top, Seq::empty(), 0, none));
    found_paths_come_down(v, top, Seq::empty(), 0, none);
}

/// The inode is found under this path, from `from` on.
pub open spec fn is_found(v: VolumeView, found: Found, from: int, path: Seq<char>, id: u64) -> bool {
    exists|i: int| from <= i < found.entries.len() && #[trigger] found.ids[i] == id && shows_inode(v, found.entries[i], path, id)
}

/// Whatever the names lead down to from the root of a volume, the inode 2, is listed under
/// them.
pub proof fn volume_lists_all_below_its_root(data: Seq<u8>, names: Seq<Seq<char>>, id: u64)
    requires
        opened(data) matches Ok((v, _)) && children_of(v.data, v.block, v.block_size, 2) matches Ok(top) && leads_to(
            v,
            top,
            names,
            id,
        ),
    ensures
        opened(data) matches Ok((v, found)) && is_found(v, found, 0, path_down(Seq::empty(), names), id),
{
    let v = mounted(data)->Ok_0;
    let top = children_of(v.data, v.block, v.block_size, 2)->Ok_0;
    let none = Found { entries: Seq::empty(), ids: Seq::empty() };
    assert(walked(v, 2, Seq::empty(), 0, none) == walked_children(v, top, Seq::empty(), 0, none));
    ways_down_are_found(v, top, Seq::empty(), 0, none, names, id);
}

/// What lies behind a place is the rest of the data, and nothing lies behind the end.
pub proof fn tails_begin_at_their_place(before: Seq<u8>, rest: Seq<u8>, more: int)
    requires
        more >= 0,
    ensures
        tail_of(before + rest, before.len() as int) == rest,
        tail_of(before, before.len() + more) == Seq::<u8>::empty(),
{
    if rest.len() > 0 {
        assert((before + rest).skip(before.len() as int) =~= rest);
    } else {
        assert(rest =~= Seq::<u8>::empty());
    }
}

/// The volume of a container is the first that it lists, in the block at the address given
/// for it.
pub proof fn volume_is_the_first_of_its_container(data: Seq<u8>, v: VolumeView)
    requires
        mounted(data) == Ok::<VolumeView, ErrorView>(v),
    ensures
        v.data == data,
        data.subrange(32, 36) == seq![0x4Eu8, 0x58, 0x53, 0x42],
        container_layout(data) matches Ok((size, addrs)) && addrs.len() > 0 && v.block_size == size && v.block.len() == size
            && forall|k: int| 0 <= k < size ==> #[trigger] v.block[k] == data[addrs[0] * size + k],
{
    assert(APFS_MAGIC@ =~= seq![0x4Eu8, 0x58, 0x53, 0x42]);
    let (size, addrs) = container_layout(data)->Ok_0;
    assert(0 <= addrs[0] * size) by (nonlinear_arith)
        requires
            0 <= addrs[0],
            0 <= size,
    ;
}

} // verus!
