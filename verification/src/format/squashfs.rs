//! SquashFS images. Another crate mounts an image; what it finds is given here.
use vstd::prelude::*;
use vstd::utf8;

use crate::archive;
use crate::bytes;
use crate::datetime;
use crate::error;
use crate::format::stored;
use crate::text;
use crate::archive::{Confidence, Entry, EntryKind, EntryView, FormatHandler, FormatId, KindView, Source};
use crate::bytes::{copy_bytes, starts_with};
use crate::datetime::{unix_secs_to_systime, Stamp, Timestamp};
use crate::error::{unsupported, Error, ErrorView, IoError};
use crate::format::stored::{Body, StoredReader};
use crate::text::{chars_of, copy_text, name_ends, string_of, strip_prefix};

verus! {

/// `hsqs`, the mark of an image.
pub const MAGIC: [u8; 4] = [0x68, 0x73, 0x71, 0x73];

/// What a node of an image is.
#[derive(Debug)]
pub enum NodeKind {
    /// A file, with what reading it gives.
    File { size: u64, body: Result<Vec<u8>, IoError> },
    Dir,
    Symlink { target: String },
    /// A device, pipe or socket.
    Special,
}

/// A node of an image.
#[derive(Debug)]
pub struct Node {
    /// The path from the root, with a slash before it.
    pub fullpath: String,
    pub permissions: u16,
    pub mtime: u32,
    pub kind: NodeKind,
}

/// Unix seconds as an instant; 0 means that no time was recorded.
pub fn mtime_to_systime(mtime: u32) -> (r: Option<Timestamp>)
    ensures
        r == if mtime == 0 { None } else { Some(datetime::at_second(mtime as int)) },
{
    unix_secs_to_systime(mtime as u64)
}

/// The path of a node from the root, without the slash before it.
pub open spec fn relative(fullpath: Seq<char>) -> Seq<char> {
    text::without_prefix(fullpath, "/"@)
}

/// A node that becomes an entry: not the root, and neither a device, a pipe nor
/// a socket.
pub open spec fn is_listed(node: Node) -> bool {
    relative(node.fullpath@).len() > 0 && !(node.kind is Special)
}

/// The nodes that become entries.
pub open spec fn listed(nodes: Seq<Node>) -> Seq<Node>
    decreases nodes.len(),
{
    if nodes.len() == 0 {
        Seq::empty()
    } else if is_listed(nodes.last()) {
        listed(nodes.drop_last()).push(nodes.last())
    } else {
        listed(nodes.drop_last())
    }
}

/// The entry of a node.
pub open spec fn entry_of(node: Node) -> EntryView {
    let path = relative(node.fullpath@);
    EntryView {
        path_raw: utf8::encode_utf8(path),
        path,
        kind: match node.kind {
            NodeKind::Dir => KindView::Dir,
            NodeKind::Symlink { target } => KindView::Symlink(target@),
            _ => KindView::File,
        },
        size: match node.kind {
            NodeKind::File { size, .. } => size,
            _ => 0,
        },
        mode: Some(node.permissions as u32),
        is_encrypted: false,
        modified: if node.mtime == 0 {
            None
        } else {
            Some(Stamp::Instant(datetime::at_second(node.mtime as int)))
        },
        is_resource_fork: false,
    }
}

/// The body of a node: nothing but for a file.
pub open spec fn body_of(node: Node) -> Result<Seq<u8>, ErrorView> {
    match node.kind {
        NodeKind::File { body, .. } => match body {
            Ok(b) => Ok(b@),
            Err(e) => Err(ErrorView::Io { kind: e.kind, message: e.message@ }),
        },
        _ => Ok(Seq::empty()),
    }
}

/// The listing of an image.
pub open spec fn listing_of(nodes: Seq<Node>) -> Seq<EntryView> {
    listed(nodes).map_values(|n: Node| entry_of(n))
}

/// The bodies of an image.
pub open spec fn bodies_of(nodes: Seq<Node>) -> Seq<Result<Seq<u8>, ErrorView>> {
    listed(nodes).map_values(|n: Node| body_of(n))
}

/// The outcome of opening an image: what a mount failure displays, or its nodes.
pub open spec fn opens_image(r: Result<StoredReader, Error>, mounted: Result<Vec<Node>, String>) -> bool {
    match mounted {
        Err(m) => error::fails_with(r, ErrorView::Corrupt("squashfs: "@ + m@)),
        Ok(nodes) => r matches Ok(reader) && archive::presents(&reader, FormatId::Squashfs, listing_of(nodes@), bodies_of(nodes@)),
    }
}

/// Make a reader of what mounting an image gave: its nodes, or the text of the
/// failure.
pub fn open_squashfs(mounted: Result<Vec<Node>, String>) -> (r: Result<StoredReader, Error>)
    ensures
        opens_image(r, mounted),
{
    let nodes = match mounted {
        Err(m) => {
            return Err(Error::Corrupt(crate::text::join2("squashfs: ", m.as_str())));
        },
        Ok(nodes) => nodes,
    };
    let ghost all = nodes@;
    let mut entries: Vec<Entry> = Vec::new();
    let mut bodies: Vec<Body> = Vec::new();
    let none: Vec<u8> = Vec::new();
    let mut i: usize = 0;
    proof {
        assert(all.take(0) =~= Seq::<Node>::empty());
        assert(archive::views(entries@) =~= listing_of(all.take(0)));
        assert(stored::bodies_in(none@, bodies@) =~= bodies_of(all.take(0)));
    }
    while i < nodes.len()
        invariant
            i <= nodes.len(),
            all == nodes@,
            none@.len() == 0,
            entries.len() == bodies.len(),
            archive::views(entries@) == listing_of(all.take(i as int)),
            stored::bodies_in(none@, bodies@) == bodies_of(all.take(i as int)),
            forall|k: int| 0 <= k < bodies.len() ==> (#[trigger] bodies@[k]) !is At,
        decreases nodes.len() - i,
    {
        let node = &nodes[i];
        let ghost old_entries = entries@;
        let ghost old_bodies = bodies@;
        proof {
            assert(all.take(i + 1).drop_last() =~= all.take(i as int));
            assert(all.take(i + 1).last() == *node);
        }
        let chars = chars_of(node.fullpath.as_str());
        let rel = strip_prefix(chars.as_slice(), "/");
        if rel.len() > 0 {
            let found: Option<(EntryKind, u64, Body)> = match &node.kind {
                NodeKind::File { size, body } => Some(
                    (
                        EntryKind::File,
                        *size,
                        match body {
                            Ok(b) => Body::Held(copy_bytes(b.as_slice())),
                            Err(e) => Body::Fails(
                                Error::Io(IoError { kind: e.kind, message: copy_text(e.message.as_str()) }),
                            ),
                        },
                    ),
                ),
                NodeKind::Dir => {
                    let v: Vec<u8> = Vec::new();
                    assert(v@ =~= Seq::<u8>::empty());
                    Some((EntryKind::Dir, 0, Body::Held(v)))
                },
                NodeKind::Symlink { target } => {
                    let v: Vec<u8> = Vec::new();
                    assert(v@ =~= Seq::<u8>::empty());
                    Some((EntryKind::Symlink { target: copy_text(target.as_str()) }, 0, Body::Held(v)))
                },
                NodeKind::Special => None,
            };
            if let Some((kind, size, body)) = found {
                let path = string_of(rel.as_slice());
                let entry = Entry {
                    path_raw: copy_bytes(path.as_str().as_bytes()),
                    path,
                    kind,
                    size,
                    mode: Some(node.permissions as u32),
                    is_encrypted: false,
                    modified: match mtime_to_systime(node.mtime) {
                        Some(t) => Some(Stamp::Instant(t)),
                        None => None,
                    },
                    is_resource_fork: false,
                };
                proof {
                    assert(is_listed(*node));
                    assert(entry@ == entry_of(*node));
                    assert(crate::format::stored::body_in(none@, body) == body_of(*node));
                }
                entries.push(entry);
                bodies.push(body);
                proof {
                    assert(archive::views(entries@) =~= archive::views(old_entries).push(entry@));
                    assert(stored::bodies_in(none@, bodies@) =~= stored::bodies_in(none@, old_bodies).push(body_of(*node)));
                    assert(listing_of(all.take(i + 1)) =~= listing_of(all.take(i as int)).push(entry_of(*node)));
                    assert(bodies_of(all.take(i + 1)) =~= bodies_of(all.take(i as int)).push(body_of(*node)));
                }
            }
        }
        i = i + 1;
    }
    proof {
        assert(all.take(i as int) =~= all);
    }
    Ok(StoredReader::new(FormatId::Squashfs, none, entries, bodies))
}

/// Reads SquashFS images.
#[derive(Debug, Clone, Copy)]
pub struct SquashfsHandler;

impl FormatHandler for SquashfsHandler {
    open spec fn spec_id(&self) -> FormatId {
        FormatId::Squashfs
    }

    open spec fn spec_probe(&self, header: Seq<u8>, name: Option<Seq<char>>) -> Confidence {
        archive::magic_when(
            bytes::stands_at(header, 0, MAGIC@) || text::name_has_suffix(name, ".squashfs"@) || text::name_has_suffix(name, ".sfs"@),
        )
    }

    fn id(&self) -> (r: FormatId) {
        FormatId::Squashfs
    }

    fn probe(&self, header: &[u8], name: Option<&str>) -> (r: Confidence) {
        Confidence::magic_if(starts_with(header, &MAGIC) || name_ends(name, ".squashfs") || name_ends(name, ".sfs"))
    }
}

impl SquashfsHandler {
    /// The path of the image to mount. An image is mounted from a file.
    pub fn image_path<'a>(&self, src: &'a Source) -> (r: Result<&'a str, Error>)
        ensures
            match src.spec_path() {
                Some(p) => r matches Ok(s) && s@ == p,
                None => error::fails_with(
                    r,
                    ErrorView::Unsupported {
                        format: "squashfs"@,
                        feature: "non-file source (squashfs requires a file path)"@,
                    },
                ),
            },
    {
        match src.file_path() {
            Some(p) => Ok(p),
            None => Err(unsupported("squashfs", "non-file source (squashfs requires a file path)")),
        }
    }

    /// Open an image that was mounted from the file of `src`.
    pub fn open(&self, src: &Source, mounted: Result<Vec<Node>, String>) -> (r: Result<StoredReader, Error>)
        ensures
            match src.spec_path() {
                Some(_) => opens_image(r, mounted),
                None => error::fails_with(
                    r,
                    ErrorView::Unsupported {
                        format: "squashfs"@,
                        feature: "non-file source (squashfs requires a file path)"@,
                    },
                ),
            },
    {
        match self.image_path(src) {
            Ok(_) => open_squashfs(mounted),
            Err(e) => Err(e),
        }
    }
}

/// What an image lists are its files, directories and links, in their order and without the
/// slash before their paths. The root has no path, and devices, pipes and sockets are left
/// out.
pub proof fn nodes_with_paths_are_listed(nodes: Seq<Node>, node: Node, path: Seq<char>)
    requires
        node.fullpath@ == seq!['/'] + path,
    ensures
        path.len() > 0 && !(node.kind is Special) ==> listing_of(nodes.push(node)) == listing_of(nodes).push(entry_of(node))
            && bodies_of(nodes.push(node)) == bodies_of(nodes).push(body_of(node)) && entry_of(node).path == path,
        path.len() == 0 || node.kind is Special ==> listing_of(nodes.push(node)) == listing_of(nodes),
        listing_of(Seq::empty()) == Seq::<EntryView>::empty(),
{
    reveal_strlit("/");
    assert(nodes.push(node).drop_last() =~= nodes);
    assert(node.fullpath@.take(1) =~= "/"@);
    assert(node.fullpath@.skip(1) =~= path);
    assert(listing_of(Seq::empty()) =~= Seq::<EntryView>::empty());
    if path.len() > 0 && !(node.kind is Special) {
        assert(listing_of(nodes.push(node)) =~= listing_of(nodes).push(entry_of(node)));
        assert(bodies_of(nodes.push(node)) =~= bodies_of(nodes).push(body_of(node)));
    }
}

/// A node has the permissions of its inode, and its time in seconds since 1970, none for 0.
pub proof fn nodes_keep_permissions_and_time(node: Node)
    ensures
        entry_of(node).mode == Some(node.permissions as u32),
        entry_of(node).modified is None ==> node.mtime == 0,
        entry_of(node).modified matches Some(s) ==> node.mtime != 0 && (s matches Stamp::Instant(t) && t.secs == node.mtime
            && t.nanos == 0),
{
}

/// A node is listed as what it is; only files have a size and a body, and only links a
/// target.
pub proof fn nodes_are_listed_as_they_are(node: Node)
    requires
        !(node.kind is Special),
    ensures
        (entry_of(node).kind is Dir) == (node.kind is Dir),
        (entry_of(node).kind is File) == (node.kind is File),
        node.kind matches NodeKind::Symlink { target } ==> entry_of(node).kind == KindView::Symlink(target@),
        node.kind matches NodeKind::File { size, .. } ==> entry_of(node).size == size,
        !(node.kind is File) ==> entry_of(node).size == 0 && body_of(node) == Ok::<Seq<u8>, ErrorView>(Seq::empty()),
        node.kind matches NodeKind::File { body, .. } ==> (body matches Ok(b) ==> body_of(node) == Ok::<Seq<u8>, ErrorView>(b@)),
{
}

} // verus!
