//! HFS+ and HFSX volumes.
use vstd::prelude::*;
use vstd::utf8;

use crate::archive;
use crate::bytes;
use crate::datetime;
use crate::encoding;
use crate::error;
use crate::format::apfs;
use crate::format::hfstree;
use crate::paths;
use crate::text;
use crate::archive::{read_entries_one_by_one, BatchReader, EntrySink, KindView};
use crate::archive::{ArchiveReader, Confidence, Entry, EntryKind, EntryView, FormatHandler, FormatId, ReadSeek, SeekTo};
use crate::archive::Source;
use crate::bytes::{be_u16, copy_bytes, copy_range};
use crate::datetime::{Stamp, Timestamp};
use crate::encoding::{is_utf8, text_lossy};
use crate::error::{unsupported, Error, ErrorView, IoError, IoKind};
use crate::format::hfstree::check_volume;
use crate::paths::extension_is;
use crate::text::{chars_of, copy_text, join2, string_of, strip_prefix};

verus! {

/// The signature of an HFS+ volume.
pub const HFS_PLUS_SIGNATURE: u16 = 0x482B;

/// The signature of an HFSX volume.
pub const HFSX_SIGNATURE: u16 = 0x4858;

/// Where the volume header begins.
pub const VOLUME_HEADER_OFFSET: usize = 1024;

/// The seconds from 1904-01-01 to 1970-01-01.
pub const HFS_EPOCH_TO_UNIX_EPOCH_SECS: u64 = 2_082_844_800;

/// Seconds since 1904 as an instant; there is none before 1970.
pub open spec fn instant_of(date: int) -> Option<Timestamp> {
    if date < HFS_EPOCH_TO_UNIX_EPOCH_SECS {
        None
    } else {
        Some(datetime::at_second(date - HFS_EPOCH_TO_UNIX_EPOCH_SECS))
    }
}

/// Seconds since 1904 as an instant.
pub fn hfs_date_to_systime(date: u32) -> (r: Option<Timestamp>)
    ensures
        r == instant_of(date as int),
{
    let secs: u64 = date as u64;
    if secs < HFS_EPOCH_TO_UNIX_EPOCH_SECS {
        None
    } else {
        Some(Timestamp { secs: (secs - HFS_EPOCH_TO_UNIX_EPOCH_SECS) as i128, nanos: 0 })
    }
}

/// Reads a part of an image that begins `base` bytes into it, as if it were the
/// whole.
#[derive(Debug)]
pub struct OffsetReader {
    data: Vec<u8>,
    base: usize,
    pos: u64,
}

impl OffsetReader {
    #[verifier::type_invariant]
    spec fn wf(self) -> bool {
        &&& self.base <= self.data.len()
        &&& self.pos <= i64::MAX
        &&& self.data.len() <= i64::MAX
    }

    /// Read from `base` on. Where the image is shorter there is nothing to read.
    pub fn new(data: Vec<u8>, base: u64) -> (r: OffsetReader)
        requires
            data.len() <= i64::MAX,
        ensures
            r.content() == apfs::tail_of(data@, base as int),
            r.position() == 0,
    {
        let from: usize = if base >= data.len() as u64 { data.len() } else { base as usize };
        let r = OffsetReader { data, base: from, pos: 0 };
        assert(r.content() =~= apfs::tail_of(data@, base as int));
        r
    }
}

impl ReadSeek for OffsetReader {
    closed spec fn content(&self) -> Seq<u8> {
        self.data@.skip(self.base as int)
    }

    closed spec fn position(&self) -> int {
        self.pos as int
    }

    fn read(&mut self, n: usize) -> (r: Vec<u8>) {
        proof {
            use_type_invariant(&*self);
        }
        let len: u64 = (self.data.len() - self.base) as u64;
        if self.pos >= len {
            let none: Vec<u8> = Vec::new();
            assert(none@ =~= Seq::<u8>::empty());
            return none;
        }
        let left: u64 = len - self.pos;
        let count: usize = if n as u64 <= left { n } else { left as usize };
        let from: usize = self.base + self.pos as usize;
        let r = copy_range(self.data.as_slice(), from, from + count);
        assert(r@ =~= self.content().subrange(self.pos as int, self.pos + count));
        self.pos = self.pos + count as u64;
        r
    }

    fn seek(&mut self, to: SeekTo) -> (r: Result<u64, Error>) {
        proof {
            use_type_invariant(&*self);
        }
        let len: i64 = (self.data.len() - self.base) as i64;
        let target: i128 = match to {
            SeekTo::Start(p) => if p <= i64::MAX as u64 {
                p as i128
            } else {
                -1
            },
            SeekTo::Current(d) => self.pos as i128 + d as i128,
            SeekTo::End(d) => len as i128 + d as i128,
        };
        if target < 0 || target > i64::MAX as i128 {
            return Err(
                Error::Io(
                    IoError { kind: IoKind::InvalidInput, message: copy_text("seek to a negative position") },
                ),
            );
        }
        self.pos = target as u64;
        Ok(self.pos)
    }
}

/// The kinds of item on a volume.
#[derive(Debug, Clone, Copy, PartialEq, Eq, Structural)]
pub enum ItemKind {
    Directory,
    File,
    Symlink,
}

/// An item of a volume.
#[derive(Debug)]
pub struct ItemRow {
    pub path: String,
    pub kind: ItemKind,
    pub size: u64,
    pub modify_date: u32,
}

/// An `ItemRow` with its path as a sequence of characters.
pub struct ItemView {
    pub path: Seq<char>,
    pub kind: ItemKind,
    pub size: u64,
    pub modify_date: u32,
}

impl View for ItemRow {
    type V = ItemView;

    open spec fn view(&self) -> ItemView {
        ItemView { path: self.path@, kind: self.kind, size: self.size, modify_date: self.modify_date }
    }
}

/// Items as their models, or the text of a failure.
pub open spec fn items_view(r: Result<Vec<ItemRow>, String>) -> Result<Seq<ItemView>, Seq<char>> {
    match r {
        Ok(v) => Ok(v@.map_values(|i: ItemRow| i@)),
        Err(m) => Err(m@),
    }
}

/// The items that `hfsplus::HfsVolume::walk` finds, or the text of the failure.
pub uninterp spec fn volume_items(data: Seq<u8>) -> Result<Seq<ItemView>, Seq<char>>;

/// `hfsplus::HfsVolume::open` and then `walk`: the items depend on the bytes
/// alone, as does the text that a failure displays. It follows the nodes, leaves and
/// folders of the catalog without remembering where it has been, and so comes back
/// only from a volume in which they come to an end.
#[verifier::external_body]
fn walk_volume(data: &[u8]) -> (r: Result<Vec<ItemRow>, String>)
    requires
        hfstree::volume_is_sound(data@),
    ensures
        items_view(r) == volume_items(data@),
{
    let mut volume = hfsplus::HfsVolume::open(std::io::Cursor::new(data)).map_err(|e| e.to_string())?;
    let items = volume.walk().map_err(|e| e.to_string())?;
    Ok(items.into_iter().map(|w| ItemRow {
        path: w.path,
        kind: match w.entry.kind {
            hfsplus::EntryKind::Directory => ItemKind::Directory,
            hfsplus::EntryKind::File => ItemKind::File,
            hfsplus::EntryKind::Symlink => ItemKind::Symlink,
        },
        size: w.entry.size,
        modify_date: w.entry.modify_date,
    }).collect())
}

/// Bytes as their model, or the text of a failure.
pub open spec fn bytes_view(r: Result<Vec<u8>, String>) -> Result<Seq<u8>, Seq<char>> {
    match r {
        Ok(v) => Ok(v@),
        Err(m) => Err(m@),
    }
}

/// What `hfsplus::HfsVolume::read_file` reads of a path, or the text of the
/// failure.
pub uninterp spec fn whole_file(data: Seq<u8>, path: Seq<char>) -> Result<Seq<u8>, Seq<char>>;

/// `hfsplus::HfsVolume::read_file` on the volume in the bytes: the result depends
/// on the bytes and the path alone. It searches the trees down from their roots, adds
/// up the blocks of a file, and goes on for as long as the tree of extents has more
/// of them: trees that come to an end, and counts that fit, let it come back.
#[verifier::external_body]
fn read_file(data: &[u8], path: &str) -> (r: Result<Vec<u8>, String>)
    requires
        hfstree::volume_is_sound(data@),
    ensures
        bytes_view(r) == whole_file(data@, path@),
{
    let mut volume = hfsplus::HfsVolume::open(std::io::Cursor::new(data)).map_err(|e| e.to_string())?;
    volume.read_file(path).map_err(|e| e.to_string())
}

/// What `hfsplus::HfsVolume::read_file_to` writes for a path, or the text of the
/// failure.
pub uninterp spec fn streamed_file(data: Seq<u8>, path: Seq<char>) -> Result<Seq<u8>, Seq<char>>;

/// `hfsplus::HfsVolume::read_file_to` on the volume in the bytes: what it writes
/// depends on the bytes and the path alone. It comes back where `read_file` does.
#[verifier::external_body]
fn read_file_to(data: &[u8], path: &str) -> (r: Result<Vec<u8>, String>)
    requires
        hfstree::volume_is_sound(data@),
    ensures
        bytes_view(r) == streamed_file(data@, path@),
{
    let mut volume = hfsplus::HfsVolume::open(std::io::Cursor::new(data)).map_err(|e| e.to_string())?;
    let mut out = Vec::new();
    volume.read_file_to(path, &mut out).map_err(|e| e.to_string())?;
    Ok(out)
}

/// A failure of the file system as an error of this library.
pub open spec fn damaged(message: Seq<char>) -> ErrorView {
    ErrorView::Corrupt("hfsplus: "@ + message)
}

fn map_hfs_err(message: String) -> (r: Error)
    ensures
        r@ == damaged(message@),
{
    Error::Corrupt(join2("hfsplus: ", message.as_str()))
}

/// The items but the root itself.
pub open spec fn named_items(items: Seq<ItemView>) -> Seq<ItemView>
    decreases items.len(),
{
    if items.len() == 0 {
        Seq::empty()
    } else if text::without_prefix(items.last().path, "/"@).len() > 0 {
        named_items(items.drop_last()).push(items.last())
    } else {
        named_items(items.drop_last())
    }
}

/// The target of a link: its content, where that is text.
pub open spec fn link_target(data: Seq<u8>, path: Seq<char>) -> Seq<char> {
    match whole_file(data, path) {
        Ok(b) if utf8::valid_utf8(b) => encoding::lossy(b),
        _ => Seq::empty(),
    }
}

/// The entry of an item.
pub open spec fn entry_of(data: Seq<u8>, item: ItemView) -> EntryView {
    let path = text::without_prefix(item.path, "/"@);
    EntryView {
        path_raw: utf8::encode_utf8(path),
        path,
        kind: match item.kind {
            ItemKind::Directory => KindView::Dir,
            ItemKind::File => KindView::File,
            ItemKind::Symlink => KindView::Symlink(link_target(data, item.path)),
        },
        size: if item.kind == ItemKind::File { item.size } else { 0 },
        mode: None,
        is_encrypted: false,
        modified: match instant_of(item.modify_date as int) {
            Some(t) => Some(Stamp::Instant(t)),
            None => None,
        },
        is_resource_fork: false,
    }
}

/// The listing of a volume.
pub open spec fn listing_of(data: Seq<u8>, items: Seq<ItemView>) -> Seq<EntryView> {
    named_items(items).map_values(|i: ItemView| entry_of(data, i))
}

/// The body of an item: only files have one.
pub open spec fn body_of(data: Seq<u8>, item: ItemView) -> Result<Seq<u8>, ErrorView> {
    if item.kind == ItemKind::File {
        match streamed_file(data, item.path) {
            Ok(b) => Ok(b),
            Err(m) => Err(damaged(m)),
        }
    } else {
        Ok(Seq::empty())
    }
}

/// The bodies of a volume.
pub open spec fn bodies_of(data: Seq<u8>, items: Seq<ItemView>) -> Seq<Result<Seq<u8>, ErrorView>> {
    named_items(items).map_values(|i: ItemView| body_of(data, i))
}

/// An opened volume.
#[derive(Debug)]
pub struct HfsPlusReader {
    data: Vec<u8>,
    entries: Vec<Entry>,
    items: Vec<ItemRow>,
}

impl HfsPlusReader {
    #[verifier::type_invariant]
    spec fn wf(self) -> bool {
        &&& self.entries.len() == self.items.len()
        &&& hfstree::volume_is_sound(self.data@)
    }
}

impl ArchiveReader for HfsPlusReader {
    open spec fn spec_format(&self) -> FormatId {
        FormatId::HfsPlus
    }

    closed spec fn listing(&self) -> Seq<EntryView> {
        archive::views(self.entries@)
    }

    closed spec fn body(&self, idx: int) -> Result<Seq<u8>, ErrorView> {
        if 0 <= idx < self.items.len() {
            body_of(self.data@, self.items@[idx]@)
        } else {
            Err(ErrorView::InvalidIndex(idx))
        }
    }

    fn format(&self) -> (r: FormatId) {
        FormatId::HfsPlus
    }

    fn entries(&self) -> (r: &Vec<Entry>) {
        &self.entries
    }

    fn read_entry(&self, idx: usize) -> (r: Result<Vec<u8>, Error>) {
        if idx >= self.items.len() {
            return Err(Error::InvalidIndex(idx));
        }
        proof {
            use_type_invariant(self);
        }
        let item = &self.items[idx];
        if item.kind == ItemKind::File {
            match read_file_to(self.data.as_slice(), item.path.as_str()) {
                Ok(b) => Ok(b),
                Err(m) => Err(map_hfs_err(m)),
            }
        } else {
            let none: Vec<u8> = Vec::new();
            assert(none@ =~= Seq::<u8>::empty());
            Ok(none)
        }
    }

    fn verify_password(&self) -> (r: Result<(), Error>) {
        Ok(())
    }
}

impl BatchReader for HfsPlusReader {
    fn read_entries<S: EntrySink>(&self, indices: &[usize], sink: &mut S) -> (r: Result<(), Error>) {
        read_entries_one_by_one(self, indices, sink)
    }
}

/// The items of a volume, or why it cannot be opened. One whose trees cannot be gone
/// through is damaged.
pub open spec fn opened(data: Seq<u8>) -> Result<Seq<ItemView>, ErrorView> {
    if data.len() < VOLUME_HEADER_OFFSET + 2 {
        Err(ErrorView::UnknownFormat)
    } else {
        let signature = bytes::be16(data, VOLUME_HEADER_OFFSET as int);
        if signature != HFS_PLUS_SIGNATURE && signature != HFSX_SIGNATURE {
            Err(ErrorView::UnknownFormat)
        } else if !hfstree::volume_is_sound(data) {
            Err(damaged("the trees of the volume cannot be gone through"@))
        } else {
            match volume_items(data) {
                Err(m) => Err(damaged(m)),
                Ok(items) => Ok(items),
            }
        }
    }
}

fn make_entry(data: &[u8], item: &ItemRow, path: &str) -> (r: Entry)
    requires
        path@ == text::without_prefix(item.path@, "/"@),
        hfstree::volume_is_sound(data@),
    ensures
        r@ == entry_of(data@, item@),
{
    let kind = match item.kind {
        ItemKind::Directory => EntryKind::Dir,
        ItemKind::File => EntryKind::File,
        ItemKind::Symlink => {
            proof {
                reveal_strlit("");
                assert(""@ =~= Seq::<char>::empty());
            }
            let target = match read_file(data, item.path.as_str()) {
                Ok(b) => if is_utf8(b.as_slice()) {
                    text_lossy(b.as_slice())
                } else {
                    copy_text("")
                },
                Err(_) => copy_text(""),
            };
            EntryKind::Symlink { target }
        },
    };
    Entry {
        path_raw: copy_bytes(path.as_bytes()),
        path: copy_text(path),
        kind,
        size: if item.kind == ItemKind::File { item.size } else { 0 },
        mode: None,
        is_encrypted: false,
        modified: match hfs_date_to_systime(item.modify_date) {
            Some(t) => Some(Stamp::Instant(t)),
            None => None,
        },
        is_resource_fork: false,
    }
}

/// Make a reader of the items of a volume.
fn build_reader(data: Vec<u8>, found: Vec<ItemRow>) -> (r: HfsPlusReader)
    requires
        hfstree::volume_is_sound(data@),
    ensures
        archive::presents(
            &r,
            FormatId::HfsPlus,
            listing_of(data@, found@.map_values(|i: ItemRow| i@)),
            bodies_of(data@, found@.map_values(|i: ItemRow| i@)),
        ),
{
    let ghost all = found@.map_values(|i: ItemRow| i@);
    let mut entries: Vec<Entry> = Vec::new();
    let mut items: Vec<ItemRow> = Vec::new();
    let mut k: usize = 0;
    proof {
        assert(all.take(0) =~= Seq::<ItemView>::empty());
        assert(archive::views(entries@) =~= listing_of(data@, all.take(0)));
    }
    while k < found.len()
        invariant
            k <= found.len(),
            hfstree::volume_is_sound(data@),
            all == found@.map_values(|i: ItemRow| i@),
            entries.len() == items.len(),
            archive::views(entries@) == listing_of(data@, all.take(k as int)),
            items@.map_values(|i: ItemRow| i@) =~= named_items(all.take(k as int)),
        decreases found.len() - k,
    {
        let item = &found[k];
        let ghost before = named_items(all.take(k as int));
        proof {
            assert(all[k as int] == item@);
            assert(all.take(k + 1).drop_last() =~= all.take(k as int));
            assert(all.take(k + 1).last() == item@);
        }
        let cs = chars_of(item.path.as_str());
        let rel = strip_prefix(cs.as_slice(), "/");
        if rel.len() > 0 {
            let path = string_of(rel.as_slice());
            let entry = make_entry(data.as_slice(), item, path.as_str());
            let ghost shown = archive::views(entries@);
            let ghost were = items@.map_values(|i: ItemRow| i@);
            let copy = ItemRow {
                path: copy_text(item.path.as_str()),
                kind: item.kind,
                size: item.size,
                modify_date: item.modify_date,
            };
            entries.push(entry);
            items.push(copy);
            proof {
                assert(named_items(all.take(k + 1)) == before.push(item@));
                assert(archive::views(entries@) =~= shown.push(entry@));
                assert(listing_of(data@, all.take(k + 1)) =~= shown.push(entry@));
                assert(items@.map_values(|i: ItemRow| i@) =~= were.push(item@));
            }
        }
        k = k + 1;
    }
    let r = HfsPlusReader { data, entries, items };
    proof {
        assert(all.take(k as int) =~= all);
        let bodies = bodies_of(data@, all);
        assert(bodies.len() == items.len());
        assert forall|idx: int| 0 <= idx implies #[trigger] r.body(idx) == archive::body_at(bodies, idx) by {
            if idx < items.len() {
                assert(items@.map_values(|i: ItemRow| i@)[idx] == items@[idx]@);
            }
        }
        assert(archive::views(entries@).len() == entries.len());
    }
    r
}

/// Open the volume that the bytes are.
pub fn open_hfsplus_reader(data: Vec<u8>) -> (r: Result<HfsPlusReader, Error>)
    ensures
        match opened(data@) {
            Err(e) => error::fails_with(r, e),
            Ok(items) => r matches Ok(reader) && archive::presents(
                &reader,
                FormatId::HfsPlus,
                listing_of(data@, items),
                bodies_of(data@, items),
            ),
        },
{
    if data.len() < VOLUME_HEADER_OFFSET + 2 {
        return Err(Error::UnknownFormat);
    }
    let signature: u16 = be_u16(data.as_slice(), VOLUME_HEADER_OFFSET);
    if signature != HFS_PLUS_SIGNATURE && signature != HFSX_SIGNATURE {
        return Err(Error::UnknownFormat);
    }
    if !check_volume(data.as_slice()) {
        return Err(map_hfs_err(copy_text("the trees of the volume cannot be gone through")));
    }
    match walk_volume(data.as_slice()) {
        Err(m) => Err(map_hfs_err(m)),
        Ok(found) => Ok(build_reader(data, found)),
    }
}

/// Open the volume that begins `offset` bytes into an image.
pub fn open_hfsplus(data: &[u8], offset: u64) -> (r: Result<HfsPlusReader, Error>)
    ensures
        match opened(apfs::tail_of(data@, offset as int)) {
            Err(e) => error::fails_with(r, e),
            Ok(items) => r matches Ok(reader) && archive::presents(
                &reader,
                FormatId::HfsPlus,
                listing_of(apfs::tail_of(data@, offset as int), items),
                bodies_of(apfs::tail_of(data@, offset as int), items),
            ),
        },
{
    let from: usize = if offset >= data.len() as u64 { data.len() } else { offset as usize };
    let part = copy_range(data, from, data.len());
    assert(part@ =~= apfs::tail_of(data@, offset as int));
    open_hfsplus_reader(part)
}

/// The signature of a volume stands where its header begins.
pub open spec fn is_signed(data: Seq<u8>) -> bool {
    data.len() >= VOLUME_HEADER_OFFSET + 2 && (bytes::be16(data, VOLUME_HEADER_OFFSET as int) == HFS_PLUS_SIGNATURE
        || bytes::be16(data, VOLUME_HEADER_OFFSET as int) == HFSX_SIGNATURE)
}

/// Whether the signature of a volume stands where its header begins.
pub fn has_hfsplus_signature(data: &[u8]) -> (r: bool)
    ensures
        r == is_signed(data@),
{
    if data.len() < VOLUME_HEADER_OFFSET + 2 {
        return false;
    }
    let signature: u16 = be_u16(data, VOLUME_HEADER_OFFSET);
    signature == HFS_PLUS_SIGNATURE || signature == HFSX_SIGNATURE
}

/// Reads HFS+ and HFSX volumes.
#[derive(Debug, Clone, Copy)]
pub struct HfsPlusHandler;

impl FormatHandler for HfsPlusHandler {
    open spec fn spec_id(&self) -> FormatId {
        FormatId::HfsPlus
    }

    /// The signature lies too deep to be seen: the name is as good.
    open spec fn spec_probe(&self, header: Seq<u8>, name: Option<Seq<char>>) -> Confidence {
        archive::magic_when(
            paths::has_extension(name, "hfs"@) || paths::has_extension(name, "hfsplus"@) || paths::has_extension(name, "hfsx"@),
        )
    }

    fn id(&self) -> (r: FormatId) {
        FormatId::HfsPlus
    }

    fn probe(&self, header: &[u8], name: Option<&str>) -> (r: Confidence) {
        Confidence::magic_if(
            extension_is(name, "hfs") || extension_is(name, "hfsplus") || extension_is(name, "hfsx"),
        )
    }
}

/// The outcome of opening a volume.
pub open spec fn opens(r: Result<HfsPlusReader, Error>, src: Source) -> bool {
    if src.spec_path() is None {
        error::fails_with(
            r,
            ErrorView::Unsupported {
                format: "hfsplus"@,
                feature: "non-file source (hfs+ requires a file path)"@,
            },
        )
    } else {
        match opened(src.content()) {
            Err(e) => error::fails_with(r, e),
            Ok(items) => r matches Ok(reader) && archive::presents(
                &reader,
                FormatId::HfsPlus,
                listing_of(src.content(), items),
                bodies_of(src.content(), items),
            ),
        }
    }
}

impl HfsPlusHandler {
    /// Open a volume. It must come from a file.
    pub fn open(&self, src: Source) -> (r: Result<HfsPlusReader, Error>)
        ensures
            opens(r, src),
    {
        if src.file_path().is_none() {
            return Err(unsupported("hfsplus", "non-file source (hfs+ requires a file path)"));
        }
        open_hfsplus_reader(src.read_all())
    }
}

/// Dates are counted in seconds from the first of January 1904, so many days before 1970
/// as the calendar has. One before 1970 is none.
pub proof fn dates_are_counted_from_1904(secs: int)
    requires
        i64::MIN <= secs <= i64::MAX,
    ensures
        match instant_of(secs - 86400 * datetime::day_number(1904, 1, 1)) {
            Some(t) => secs >= 0 && t.secs == secs && t.nanos == 0,
            None => secs < 0,
        },
{
    assert(datetime::day_number(1904, 1, 1) == -24107);
}

/// What a volume lists are its items with a name, in their order and without the slash
/// before their paths. The root has none.
pub proof fn items_with_names_are_listed(data: Seq<u8>, items: Seq<ItemView>, item: ItemView, path: Seq<char>)
    requires
        item.path == seq!['/'] + path,
    ensures
        path.len() > 0 ==> listing_of(data, items.push(item)) == listing_of(data, items).push(entry_of(data, item))
            && entry_of(data, item).path == path && bodies_of(data, items.push(item)) == bodies_of(data, items).push(
            body_of(data, item),
        ),
        path.len() == 0 ==> listing_of(data, items.push(item)) == listing_of(data, items),
        listing_of(data, Seq::empty()) == Seq::<EntryView>::empty(),
{
    reveal_strlit("/");
    assert(items.push(item).drop_last() =~= items);
    assert(item.path.take(1) =~= "/"@);
    assert(item.path.skip(1) =~= path);
    assert(listing_of(data, Seq::empty()) =~= Seq::<EntryView>::empty());
    if path.len() > 0 {
        assert(listing_of(data, items.push(item)) =~= listing_of(data, items).push(entry_of(data, item)));
        assert(bodies_of(data, items.push(item)) =~= bodies_of(data, items).push(body_of(data, item)));
    }
}

/// A volume is signed with `H+` or `HX` behind its first 1024 bytes.
pub proof fn volumes_are_signed_behind_their_boot_blocks(data: Seq<u8>)
    ensures
        is_signed(data) == (data.len() >= 1026 && data[1024] == 0x48 && (data[1025] == 0x2B || data[1025] == 0x58)),
{
}

/// An item is listed as what it is; only files have a size and a body, and only links a
/// target.
pub proof fn items_are_listed_as_they_are(data: Seq<u8>, item: ItemView)
    ensures
        (entry_of(data, item).kind is Dir) == (item.kind == ItemKind::Directory),
        (entry_of(data, item).kind is File) == (item.kind == ItemKind::File),
        item.kind == ItemKind::File ==> entry_of(data, item).size == item.size,
        item.kind != ItemKind::File ==> entry_of(data, item).size == 0 && body_of(data, item) == Ok::<Seq<u8>, ErrorView>(
            Seq::empty(),
        ),
        item.kind == ItemKind::File ==> (body_of(data, item) matches Ok(b) ==> streamed_file(data, item.path) == Ok::<
            Seq<u8>,
            Seq<char>,
        >(b)),
        item.kind == ItemKind::Symlink ==> (entry_of(data, item).kind matches KindView::Symlink(t) && (whole_file(
            data,
            item.path,
        ) matches Ok(b) ==> utf8::valid_utf8(b) ==> t == encoding::lossy(b))),
{
}

} // verus!
