//! ISO 9660 images: the walk through the directories of a mounted image.
use vstd::prelude::*;
use vstd::utf8;

use crate::archive;
use crate::bytes;
use crate::datetime;
use crate::error;
use crate::format::apfs;
use crate::paths;
use crate::text;
use crate::archive::{Confidence, Entry, EntryKind, EntryView, FormatHandler, FormatId, KindView};
use crate::archive::Source;
use crate::bytes::{copy_bytes, found_at};
use crate::datetime::{Stamp, Timestamp};
use crate::error::{corrupt, unsupported, Error, ErrorView, IoError, IoKind};
use crate::format::apfs::join_below;
use crate::paths::extension_is;
use crate::text::{copy_text, same_text};

verus! {

/// How deep directories may lie in each other.
pub const MAX_ISO_DEPTH: usize = 32;

/// The mark of a volume descriptor.
pub const CD001: [u8; 5] = [0x43, 0x44, 0x30, 0x30, 0x31];

/// Where the mark of the first volume descriptor stands.
pub const CD001_OFFSET: usize = 0x8001;

/// The image carries the mark of a volume descriptor.
pub open spec fn is_marked(data: Seq<u8>) -> bool {
    bytes::stands_at(data, CD001_OFFSET as int, CD001@)
}

/// Whether the image carries the mark of a volume descriptor.
pub fn has_iso_signature(data: &[u8]) -> (r: bool)
    ensures
        r == is_marked(data@),
{
    found_at(data, CD001_OFFSET, &CD001)
}

/// Seconds since 1970 as an instant; there is none before.
pub open spec fn instant_of(secs: int) -> Option<Timestamp> {
    if secs < 0 { None } else { Some(datetime::at_second(secs)) }
}

/// Seconds since 1970 as an instant.
pub fn offset_datetime_to_systime(secs: i64) -> (r: Option<Timestamp>)
    ensures
        r == instant_of(secs as int),
{
    if secs < 0 {
        None
    } else {
        Some(Timestamp { secs: secs as i128, nanos: 0 })
    }
}

/// What a directory record names.
#[derive(Debug)]
pub enum RecordKind {
    File { size: u64 },
    /// A directory, told from others by the place of its extent.
    Directory { extent: u32 },
    Symlink { target: Option<String> },
}

/// A directory record. `handle` tells whoever mounted the image which file or
/// directory it names.
#[derive(Debug)]
pub struct Record {
    pub name: String,
    pub kind: RecordKind,
    pub mode: Option<u32>,
    /// The time of the last change, in seconds since 1970.
    pub modified: i64,
    pub handle: u64,
}

/// A record, or why it cannot be read.
#[derive(Debug)]
pub enum Item {
    Good(Record),
    Bad(Error),
}

/// A `RecordKind` with its text as a sequence of characters.
pub enum RecordKindView {
    File(u64),
    Directory(u32),
    Symlink(Option<Seq<char>>),
}

/// A `Record` with its texts as sequences.
pub struct RecordView {
    pub name: Seq<char>,
    pub kind: RecordKindView,
    pub mode: Option<u32>,
    pub modified: i64,
    pub handle: u64,
}

/// An `Item` as its model.
pub enum ItemView {
    Good(RecordView),
    Bad(ErrorView),
}

impl View for Record {
    type V = RecordView;

    open spec fn view(&self) -> RecordView {
        RecordView {
            name: self.name@,
            kind: match self.kind {
                RecordKind::File { size } => RecordKindView::File(size),
                RecordKind::Directory { extent } => RecordKindView::Directory(extent),
                RecordKind::Symlink { target } => RecordKindView::Symlink(text::opt_string(target)),
            },
            mode: self.mode,
            modified: self.modified,
            handle: self.handle,
        }
    }
}

impl View for Item {
    type V = ItemView;

    open spec fn view(&self) -> ItemView {
        match *self {
            Item::Good(r) => ItemView::Good(r@),
            Item::Bad(e) => ItemView::Bad(e@),
        }
    }
}

/// The views of items.
pub open spec fn item_views(v: Seq<Item>) -> Seq<ItemView> {
    v.map_values(|i: Item| i@)
}

/// A name that stands for the directory itself or its parent.
pub open spec fn is_own_name(name: Seq<char>) -> bool {
    name.len() == 0 || name == "."@ || name == ".."@
}

fn own_name(name: &str) -> (r: bool)
    ensures
        r == is_own_name(name@),
{
    proof {
        reveal_strlit("");
        if name@.len() == 0 {
            assert(name@ =~= ""@);
        }
    }
    same_text(name, "") || same_text(name, ".") || same_text(name, "..")
}

/// The entry of a record at a path.
pub open spec fn entry_of(r: RecordView, path: Seq<char>) -> EntryView {
    EntryView {
        path_raw: utf8::encode_utf8(path),
        path,
        kind: match r.kind {
            RecordKindView::File(_) => KindView::File,
            RecordKindView::Directory(_) => KindView::Dir,
            RecordKindView::Symlink(Some(t)) => KindView::Symlink(t),
            RecordKindView::Symlink(None) => KindView::Symlink(Seq::empty()),
        },
        size: match r.kind {
            RecordKindView::File(n) => n,
            _ => 0,
        },
        mode: r.mode,
        is_encrypted: false,
        modified: match instant_of(r.modified as int) {
            Some(t) => Some(Stamp::Instant(t)),
            None => None,
        },
        is_resource_fork: false,
    }
}

/// What tells where the body of a record is: only files have one.
pub open spec fn body_handle(r: RecordView) -> Option<u64> {
    if r.kind is File { Some(r.handle) } else { None }
}

/// What a walk has collected: the extents of the directories that were entered,
/// the entries, and the handle of each entry's body.
#[verifier::ext_equal]
pub struct Found {
    pub visited: Seq<u32>,
    pub entries: Seq<EntryView>,
    pub files: Seq<Option<u64>>,
}

/// A record is listed.
pub open spec fn with_record(found: Found, r: RecordView, path: Seq<char>) -> Found {
    Found {
        visited: match r.kind {
            RecordKindView::Directory(x) if !found.visited.contains(x) => found.visited.push(x),
            _ => found.visited,
        },
        entries: found.entries.push(entry_of(r, path)),
        files: found.files.push(body_handle(r)),
    }
}

/// The record names a directory that was not entered yet.
pub open spec fn is_new_directory(found: Found, r: RecordView) -> bool {
    r.kind matches RecordKindView::Directory(x) && !found.visited.contains(x)
}

/// Directories lie too deep in each other.
pub open spec fn too_deep() -> ErrorView {
    ErrorView::Corrupt("iso: directory tree too deep"@)
}

/// The walk through the items of a directory and what lies below them, where
/// `lists` tells what each directory holds.
pub open spec fn walked(
    lists: spec_fn(u64) -> Seq<ItemView>,
    items: Seq<ItemView>,
    prefix: Seq<char>,
    depth: int,
    found: Found,
) -> Result<Found, ErrorView>
    decreases MAX_ISO_DEPTH + 1 - depth, items.len(),
{
    if items.len() == 0 {
        Ok(found)
    } else {
        match items[0] {
            ItemView::Bad(e) => Err(e),
            ItemView::Good(r) => if is_own_name(r.name) {
                walked(lists, items.skip(1), prefix, depth, found)
            } else {
                let path = apfs::below(prefix, r.name);
                let with = with_record(found, r, path);
                if is_new_directory(found, r) {
                    if depth < 0 || depth + 1 > MAX_ISO_DEPTH {
                        Err(too_deep())
                    } else {
                        match walked(lists, lists(r.handle), path, depth + 1, with) {
                            Err(e) => Err(e),
                            Ok(more) => walked(lists, items.skip(1), prefix, depth, more),
                        }
                    }
                } else {
                    walked(lists, items.skip(1), prefix, depth, with)
                }
            },
        }
    }
}

/// A walk enters no directory twice, keeps what was collected before it, in its
/// place, and collects a handle for each entry: so a walk through directories
/// that lead back into each other ends.
pub proof fn no_directory_is_entered_twice(
    lists: spec_fn(u64) -> Seq<ItemView>,
    items: Seq<ItemView>,
    prefix: Seq<char>,
    depth: int,
    found: Found,
)
    requires
        found.visited.no_duplicates(),
        found.entries.len() == found.files.len(),
    ensures
        walked(lists, items, prefix, depth, found) matches Ok(more) ==> {
            &&& more.visited.no_duplicates()
            &&& found.visited.is_prefix_of(more.visited)
            &&& found.entries.is_prefix_of(more.entries)
            &&& found.files.is_prefix_of(more.files)
            &&& more.entries.len() == more.files.len()
        },
    decreases MAX_ISO_DEPTH + 1 - depth, items.len(),
{
    if items.len() > 0 {
        if let ItemView::Good(r) = items[0] {
            if is_own_name(r.name) {
                no_directory_is_entered_twice(lists, items.skip(1), prefix, depth, found);
            } else {
                let path = apfs::below(prefix, r.name);
                let with = with_record(found, r, path);
                let entry = entry_of(r, path);
                let file = body_handle(r);
                assert(with.visited.no_duplicates());
                if is_new_directory(found, r) {
                    if 0 <= depth && depth + 1 <= MAX_ISO_DEPTH {
                        no_directory_is_entered_twice(lists, lists(r.handle), path, depth + 1, with);
                        if let Ok(more) = walked(lists, lists(r.handle), path, depth + 1, with) {
                            no_directory_is_entered_twice(lists, items.skip(1), prefix, depth, more);
                            apfs::prefix_grows(found.visited, r.kind->Directory_0, more.visited);
                            apfs::prefix_grows(found.entries, entry, more.entries);
                            apfs::prefix_grows(found.files, file, more.files);
                            if let Ok(all) = walked(lists, items.skip(1), prefix, depth, more) {
                                apfs::prefixes_nest(found.visited, more.visited, all.visited);
                                apfs::prefixes_nest(found.entries, more.entries, all.entries);
                                apfs::prefixes_nest(found.files, more.files, all.files);
                            }
                        }
                    }
                } else {
                    no_directory_is_entered_twice(lists, items.skip(1), prefix, depth, with);
                    if let Ok(all) = walked(lists, items.skip(1), prefix, depth, with) {
                        apfs::prefix_grows(found.entries, entry, all.entries);
                        apfs::prefix_grows(found.files, file, all.files);
                    }
                }
            }
        }
    }
}

/// A directory that is being walked through: what is left of it.
pub struct FrameView {
    pub prefix: Seq<char>,
    pub items: Seq<ItemView>,
}

/// A walk under way: the directories from the root to where it stands, and what
/// was collected.
pub struct WalkView {
    pub frames: Seq<FrameView>,
    pub found: Found,
}

/// What a walk needs next.
pub enum AskView {
    /// Nothing: it is over.
    Done,
    /// The items of a directory, which lies at this path.
    List(u64, Seq<char>),
    /// Nothing: it failed.
    Fail(ErrorView),
}

/// The directories with one item less in the last.
pub open spec fn one_less(frames: Seq<FrameView>) -> Seq<FrameView> {
    frames.drop_last().push(FrameView { prefix: frames.last().prefix, items: frames.last().items.skip(1) })
}

/// How far a walk gets by itself, and what it then needs.
pub open spec fn advanced(w: WalkView) -> (WalkView, AskView)
    decreases w.frames.len(), w.frames.last().items.len(),
{
    if w.frames.len() == 0 {
        (w, AskView::Done)
    } else {
        let top = w.frames.last();
        if top.items.len() == 0 {
            advanced(WalkView { frames: w.frames.drop_last(), ..w })
        } else {
            match top.items[0] {
                ItemView::Bad(e) => (w, AskView::Fail(e)),
                ItemView::Good(r) => if is_own_name(r.name) {
                    advanced(WalkView { frames: one_less(w.frames), ..w })
                } else {
                    let path = apfs::below(top.prefix, r.name);
                    let next = WalkView { frames: one_less(w.frames), found: with_record(w.found, r, path) };
                    if is_new_directory(w.found, r) {
                        if w.frames.len() > MAX_ISO_DEPTH {
                            (next, AskView::Fail(too_deep()))
                        } else {
                            (next, AskView::List(r.handle, path))
                        }
                    } else {
                        advanced(next)
                    }
                },
            }
        }
    }
}

/// What a walk under way comes to, where `lists` tells what each directory
/// holds.
pub open spec fn finished(
    lists: spec_fn(u64) -> Seq<ItemView>,
    frames: Seq<FrameView>,
    found: Found,
) -> Result<Found, ErrorView>
    decreases frames.len(),
{
    if frames.len() == 0 {
        Ok(found)
    } else {
        match walked(lists, frames.last().items, frames.last().prefix, frames.len() - 1, found) {
            Err(e) => Err(e),
            Ok(more) => finished(lists, frames.drop_last(), more),
        }
    }
}

/// A walk that is given, for each directory it asks for, what that directory
/// holds comes to what the walk through all directories comes to: advancing
/// keeps the outcome, and so does answering.
pub proof fn advancing_keeps_outcome(lists: spec_fn(u64) -> Seq<ItemView>, w: WalkView)
    requires
        w.frames.len() <= MAX_ISO_DEPTH + 1,
    ensures
        ({
            let (next, ask) = advanced(w);
            match ask {
                AskView::Done => finished(lists, w.frames, w.found) == Ok::<Found, ErrorView>(next.found),
                AskView::Fail(e) => finished(lists, w.frames, w.found) == Err::<Found, ErrorView>(e),
                AskView::List(dir, path) => next.frames.len() <= MAX_ISO_DEPTH && finished(lists, w.frames, w.found)
                    == finished(
                    lists,
                    next.frames.push(FrameView { prefix: path, items: lists(dir) }),
                    next.found,
                ),
            }
        }),
    decreases w.frames.len(), w.frames.last().items.len(),
{
    if w.frames.len() > 0 {
        let top = w.frames.last();
        if top.items.len() == 0 {
            advancing_keeps_outcome(lists, WalkView { frames: w.frames.drop_last(), ..w });
        } else {
            let less = one_less(w.frames);
            assert(less.drop_last() =~= w.frames.drop_last());
            match top.items[0] {
                ItemView::Bad(e) => {},
                ItemView::Good(r) => if is_own_name(r.name) {
                    advancing_keeps_outcome(lists, WalkView { frames: less, ..w });
                } else {
                    let path = apfs::below(top.prefix, r.name);
                    let next = WalkView { frames: less, found: with_record(w.found, r, path) };
                    if is_new_directory(w.found, r) {
                        if w.frames.len() <= MAX_ISO_DEPTH {
                            let deeper = less.push(FrameView { prefix: path, items: lists(r.handle) });
                            assert(deeper.drop_last() =~= less);
                            assert(deeper.last().items == lists(r.handle));
                            reveal_with_fuel(finished, 3);
                        }
                    } else {
                        advancing_keeps_outcome(lists, next);
                    }
                },
            }
        }
    }
}

/// A directory that is being walked through.
#[derive(Debug)]
struct Frame {
    prefix: String,
    items: Vec<Item>,
    next: usize,
}

impl Frame {
    spec fn shown(self) -> FrameView {
        FrameView { prefix: self.prefix@, items: item_views(self.items@).skip(self.next as int) }
    }
}

/// What a walk needs next.
#[derive(Debug)]
pub enum Ask {
    Done,
    /// The items of the directory with this handle.
    List(u64),
    Fail(Error),
}

/// A walk through the directories of an image. Whoever mounted the image answers
/// what it asks for.
#[derive(Debug)]
pub struct IsoWalk {
    frames: Vec<Frame>,
    visited: Vec<u32>,
    entries: Vec<Entry>,
    files: Vec<Option<u64>>,
    /// The path of the directory that was asked for.
    awaited: Option<String>,
}

impl IsoWalk {
    #[verifier::type_invariant]
    spec fn wf(self) -> bool {
        &&& self.entries.len() == self.files.len()
        &&& forall|i: int| 0 <= i < self.frames.len() ==> (#[trigger] self.frames@[i]).next <= self.frames@[i].items.len()
    }

    /// Where the walk stands.
    pub closed spec fn state(&self) -> WalkView {
        WalkView {
            frames: self.frames@.map_values(|f: Frame| f.shown()),
            found: Found { visited: self.visited@, entries: archive::views(self.entries@), files: self.files@ },
        }
    }

    /// The path of the directory that was asked for.
    pub closed spec fn asked(&self) -> Option<Seq<char>> {
        text::opt_string(self.awaited)
    }

    /// Begin at the root directory, whose extent is given. Its items are asked for.
    pub fn start(root_extent: u32) -> (r: IsoWalk)
        ensures
            r.state().frames.len() == 0,
            r.state().found == (Found { visited: seq![root_extent], entries: Seq::empty(), files: Seq::empty() }),
            r.asked() == Some(Seq::<char>::empty()),
    {
        let mut visited: Vec<u32> = Vec::new();
        visited.push(root_extent);
        proof {
            reveal_strlit("");
            assert(""@ =~= Seq::<char>::empty());
        }
        let r = IsoWalk {
            frames: Vec::new(),
            visited,
            entries: Vec::new(),
            files: Vec::new(),
            awaited: Some(copy_text("")),
        };
        proof {
            assert(r.state().found =~= Found {
                visited: seq![root_extent],
                entries: Seq::empty(),
                files: Seq::empty(),
            });
        }
        r
    }

    /// Answer with the items of the directory that was asked for, and go on as
    /// far as that gets.
    pub fn give(self, items: Vec<Item>) -> (r: (IsoWalk, Ask))
        requires
            self.asked() is Some,
        ensures
            ({
                let (next, ask) = advanced(
                    WalkView {
                        frames: self.state().frames.push(
                            FrameView { prefix: self.asked()->0, items: item_views(items@) },
                        ),
                        found: self.state().found,
                    },
                );
                &&& r.0.state() == next
                &&& match (ask, r.1) {
                    (AskView::Done, Ask::Done) => r.0.asked() is None,
                    (AskView::List(dir, path), Ask::List(d)) => d == dir && r.0.asked() == Some(path),
                    (AskView::Fail(e), Ask::Fail(x)) => x@ == e && r.0.asked() is None,
                    _ => false,
                }
            }),
    {
        proof {
            use_type_invariant(&self);
        }
        let ghost before = self.state();
        let IsoWalk { mut frames, visited, entries, files, awaited } = self;
        let prefix = match awaited {
            Some(p) => p,
            None => copy_text(""),
        };
        let ghost shown = frames@.map_values(|f: Frame| f.shown());
        let frame = Frame { prefix, items, next: 0 };
        frames.push(frame);
        proof {
            assert(item_views(items@).skip(0) =~= item_views(items@));
            assert(frames@.map_values(|f: Frame| f.shown()) =~= shown.push(frame.shown()));
        }
        advance(frames, visited, entries, files)
    }

    /// The entries of a walk that is over, and the handle of each body.
    pub fn into_parts(self) -> (r: (Vec<Entry>, Vec<Option<u64>>))
        ensures
            archive::views(r.0@) == self.state().found.entries,
            r.1@ == self.state().found.files,
            r.0.len() == r.1.len(),
    {
        proof {
            use_type_invariant(&self);
        }
        (self.entries, self.files)
    }
}

fn is_visited(visited: &Vec<u32>, extent: u32) -> (r: bool)
    ensures
        r == visited@.contains(extent),
{
    let mut i: usize = 0;
    while i < visited.len()
        invariant
            i <= visited.len(),
            forall|k: int| 0 <= k < i ==> visited@[k] != extent,
        decreases visited.len() - i,
    {
        if visited[i] == extent {
            assert(visited@[i as int] == extent);
            return true;
        }
        i = i + 1;
    }
    false
}

fn make_entry(r: &Record, path: &str) -> (e: Entry)
    ensures
        e@ == entry_of(r@, path@),
{
    let kind = match &r.kind {
        RecordKind::File { .. } => EntryKind::File,
        RecordKind::Directory { .. } => EntryKind::Dir,
        RecordKind::Symlink { target } => {
            proof {
                reveal_strlit("");
                assert(""@ =~= Seq::<char>::empty());
            }
            EntryKind::Symlink {
                target: match target {
                    Some(t) => copy_text(t.as_str()),
                    None => copy_text(""),
                },
            }
        },
    };
    Entry {
        path_raw: copy_bytes(path.as_bytes()),
        path: copy_text(path),
        kind,
        size: match r.kind {
            RecordKind::File { size } => size,
            _ => 0,
        },
        mode: r.mode,
        is_encrypted: false,
        modified: match offset_datetime_to_systime(r.modified) {
            Some(t) => Some(Stamp::Instant(t)),
            None => None,
        },
        is_resource_fork: false,
    }
}

/// The frames as their models.
spec fn shown_frames(frames: Seq<Frame>) -> Seq<FrameView> {
    frames.map_values(|f: Frame| f.shown())
}

/// The parts of a walk as its model.
spec fn walk_of(frames: Seq<Frame>, visited: Seq<u32>, entries: Seq<Entry>, files: Seq<Option<u64>>) -> WalkView {
    WalkView { frames: shown_frames(frames), found: Found { visited, entries: archive::views(entries), files } }
}

/// Every frame stands in its items or behind them.
spec fn in_bounds(frames: Seq<Frame>) -> bool {
    forall|i: int| 0 <= i < frames.len() ==> (#[trigger] frames[i]).next <= frames[i].items.len()
}

/// How much is left to look at.
spec fn work_left(frames: Seq<Frame>) -> int
    decreases frames.len(),
{
    if frames.len() == 0 {
        0
    } else {
        1 + frames.last().items.len() - frames.last().next + work_left(frames.drop_last())
    }
}

proof fn work_is_not_negative(frames: Seq<Frame>)
    requires
        in_bounds(frames),
    ensures
        work_left(frames) >= frames.len(),
    decreases frames.len(),
{
    if frames.len() > 0 {
        let rest = frames.drop_last();
        assert(in_bounds(rest)) by {
            assert forall|i: int| 0 <= i < rest.len() implies (#[trigger] rest[i]).next <= rest[i].items.len() by {
                assert(rest[i] == frames[i]);
            }
        }
        work_is_not_negative(rest);
        assert(frames[frames.len() - 1] == frames.last());
    }
}

/// Go on as far as the items at hand get.
fn advance(stack: Vec<Frame>, seen: Vec<u32>, listed: Vec<Entry>, bodies: Vec<Option<u64>>) -> (r: (IsoWalk, Ask))
    requires
        listed.len() == bodies.len(),
        in_bounds(stack@),
    ensures
        ({
            let (next, ask) = advanced(walk_of(stack@, seen@, listed@, bodies@));
            &&& r.0.state() == next
            &&& match (ask, r.1) {
                (AskView::Done, Ask::Done) => r.0.asked() is None,
                (AskView::List(dir, path), Ask::List(d)) => d == dir && r.0.asked() == Some(path),
                (AskView::Fail(e), Ask::Fail(x)) => x@ == e && r.0.asked() is None,
                _ => false,
            }
        }),
{
    let ghost whole = advanced(walk_of(stack@, seen@, listed@, bodies@));
    let mut frames = stack;
    let mut visited = seen;
    let mut entries = listed;
    let mut files = bodies;
    while frames.len() > 0
        invariant
            entries.len() == files.len(),
            in_bounds(frames@),
            whole == advanced(walk_of(stack@, seen@, listed@, bodies@)),
            whole == advanced(walk_of(frames@, visited@, entries@, files@)),
        decreases work_left(frames@),
    {
        let ghost were = frames@;
        let ghost w = walk_of(frames@, visited@, entries@, files@);
        let depth: usize = frames.len();
        proof {
            work_is_not_negative(were);
            assert(w.frames.len() == depth);
            assert(w.frames.last() == were.last().shown());
            assert(were[depth - 1].next <= were[depth - 1].items.len());
        }
        let mut top = match frames.pop() {
            Some(f) => f,
            None => {
                return (
                    IsoWalk { frames, visited, entries, files, awaited: None },
                    Ask::Done,
                );
            },
        };
        let ghost rest = frames@;
        proof {
            assert(rest =~= were.drop_last());
            assert(in_bounds(rest)) by {
                assert forall|i: int| 0 <= i < rest.len() implies (#[trigger] rest[i]).next <= rest[i].items.len() by {
                    assert(rest[i] == were[i]);
                }
            }
            work_is_not_negative(rest);
            assert(shown_frames(rest) =~= w.frames.drop_last());
        }
        if top.next >= top.items.len() {
            proof {
                assert(w.frames.last().items.len() == 0);
            }
            continue ;
        }
        let ghost items = top.shown().items;
        let at: usize = top.next;
        proof {
            assert(items[0] == top.items@[at as int]@);
            assert(items.len() > 0);
        }
        let ghost old_top = top;
        let mut path: Option<String> = None;
        let mut answer: Option<Ask> = None;
        match &top.items[at] {
            Item::Bad(e) => {
                let why = e.copy();
                frames.push(top);
                proof {
                    assert(frames@ =~= were);
                }
                return (
                    IsoWalk { frames, visited, entries, files, awaited: None },
                    Ask::Fail(why),
                );
            },
            Item::Good(r) => {
                if !own_name(r.name.as_str()) {
                    let full = join_below(top.prefix.as_str(), r.name.as_str());
                    let entry = make_entry(r, full.as_str());
                    let ghost shown = archive::views(entries@);
                    let ghost before = visited@;
                    entries.push(entry);
                    files.push(match r.kind {
                        RecordKind::File { .. } => Some(r.handle),
                        _ => None,
                    });
                    proof {
                        assert(archive::views(entries@) =~= shown.push(entry@));
                    }
                    if let RecordKind::Directory { extent } = r.kind {
                        if !is_visited(&visited, extent) {
                            visited.push(extent);
                            if depth > MAX_ISO_DEPTH {
                                answer = Some(Ask::Fail(corrupt("iso: directory tree too deep")));
                            } else {
                                answer = Some(Ask::List(r.handle));
                                path = Some(full);
                            }
                        }
                    }
                }
            },
        }
        top.next = at + 1;
        let ghost now = top;
        frames.push(top);
        proof {
            assert(now.shown().items =~= items.skip(1));
            assert(shown_frames(frames@) =~= one_less(w.frames));
            assert(frames@.drop_last() =~= rest);
            assert(frames@.last() == now);
            assert(in_bounds(frames@)) by {
                assert forall|i: int| 0 <= i < frames@.len() implies (#[trigger] frames@[i]).next
                    <= frames@[i].items.len() by {
                    if i < rest.len() {
                        assert(frames@[i] == rest[i]);
                    }
                }
            }
        }
        if let Some(ask) = answer {
            return (IsoWalk { frames, visited, entries, files, awaited: path }, ask);
        }
    }
    (IsoWalk { frames, visited, entries, files, awaited: None }, Ask::Done)
}

/// Why an image cannot be mounted; `None` where it can be tried.
pub open spec fn mount_fault(src: Source) -> Option<ErrorView> {
    match src {
        Source::Stream { .. } => Some(
            ErrorView::Unsupported { format: "iso"@, feature: "streaming (iso requires seek)"@ },
        ),
        Source::Seekable { inner, .. } => if inner@.len() < CD001_OFFSET + 5 {
            Some(ErrorView::Io { kind: IoKind::UnexpectedEof, message: "failed to fill whole buffer"@ })
        } else if !is_marked(inner@) {
            Some(ErrorView::UnknownFormat)
        } else {
            None
        },
    }
}

/// Reads ISO 9660 images.
#[derive(Debug, Clone, Copy)]
pub struct IsoHandler;

impl FormatHandler for IsoHandler {
    open spec fn spec_id(&self) -> FormatId {
        FormatId::Iso
    }

    /// The mark lies too deep to be seen: only the name tells.
    open spec fn spec_probe(&self, header: Seq<u8>, name: Option<Seq<char>>) -> Confidence {
        archive::extension_when(paths::has_extension(name, "iso"@))
    }

    fn id(&self) -> (r: FormatId) {
        FormatId::Iso
    }

    fn probe(&self, header: &[u8], name: Option<&str>) -> (r: Confidence) {
        Confidence::extension_if(extension_is(name, "iso"))
    }
}

impl IsoHandler {
    /// Check that an image can be mounted.
    pub fn check(&self, src: &Source) -> (r: Result<(), Error>)
        ensures
            match mount_fault(*src) {
                Some(e) => error::fails_with(r, e),
                None => r is Ok,
            },
    {
        match src {
            Source::Stream { .. } => Err(unsupported("iso", "streaming (iso requires seek)")),
            Source::Seekable { inner, .. } => if inner.len() < CD001_OFFSET + 5 {
                Err(
                    Error::Io(
                        IoError {
                            kind: IoKind::UnexpectedEof,
                            message: copy_text("failed to fill whole buffer"),
                        },
                    ),
                )
            } else if !has_iso_signature(inner.as_slice()) {
                Err(Error::UnknownFormat)
            } else {
                Ok(())
            },
        }
    }
}

/// What is listed for a record: its path leads down to it, and the rest is what the record
/// says.
pub open spec fn shows_record(e: EntryView, path: Seq<char>, r: RecordView) -> bool {
    &&& e.path == path
    &&& e.path_raw == utf8::encode_utf8(path)
    &&& match r.kind {
        RecordKindView::File(n) => e.kind == KindView::File && e.size == n,
        RecordKindView::Directory(_) => e.kind == KindView::Dir && e.size == 0,
        RecordKindView::Symlink(to) => e.size == 0 && (e.kind matches KindView::Symlink(t) && (to == Some(t) || to is None
            && t.len() == 0)),
    }
    &&& e.mode == r.mode
    &&& !e.is_encrypted && !e.is_resource_fork
    &&& e.modified is None ==> r.modified < 0
    &&& e.modified matches Some(s) ==> (s matches Stamp::Instant(at) && at.secs == r.modified && at.nanos == 0)
}

/// `names` lead from these items to the record `r`: the first of them is that of an item
/// that stands neither for the directory itself nor for the one above, and the others lead
/// on from its own items, if it is a directory.
pub open spec fn leads_to(lists: spec_fn(u64) -> Seq<ItemView>, items: Seq<ItemView>, names: Seq<Seq<char>>, r: RecordView) -> bool
    decreases names.len(),
{
    names.len() > 0 && exists|k: int|
        0 <= k < items.len() && match #[trigger] items[k] {
            ItemView::Good(e) => e.name == names[0] && e.name.len() > 0 && e.name != "."@ && e.name != ".."@ && if names.len()
                == 1 {
                r == e
            } else {
                e.kind is Directory && leads_to(lists, lists(e.handle), names.skip(1), r)
            },
            ItemView::Bad(_) => false,
        }
}

/// There is a way down from these items to what is found at `i`, and the directory that it
/// goes through last is found before, though not before `from`. A body is read by the
/// handle of the record, and only of a file.
pub open spec fn comes_down(
    lists: spec_fn(u64) -> Seq<ItemView>,
    items: Seq<ItemView>,
    prefix: Seq<char>,
    from: int,
    found: Found,
    i: int,
    names: Seq<Seq<char>>,
    r: RecordView,
) -> bool {
    &&& leads_to(lists, items, names, r)
    &&& shows_record(found.entries[i], apfs::path_down(prefix, names), r)
    &&& found.files[i] is Some == r.kind is File
    &&& r.kind is File ==> found.files[i] == Some(r.handle)
    &&& names.len() > 1 ==> exists|h: int|
        from <= h < i && (#[trigger] found.entries[h]).kind is Dir && found.entries[h].path == apfs::path_down(
            prefix,
            names.drop_last(),
        )
}

/// There is a way down from these items to what is found at `i`.
pub open spec fn has_way(
    lists: spec_fn(u64) -> Seq<ItemView>,
    items: Seq<ItemView>,
    prefix: Seq<char>,
    from: int,
    found: Found,
    i: int,
) -> bool {
    exists|names: Seq<Seq<char>>, r: RecordView|
        #[trigger] comes_down(lists, items, prefix, from, found, i, names, r)
}

proof fn first_comes_down(
    lists: spec_fn(u64) -> Seq<ItemView>,
    items: Seq<ItemView>,
    prefix: Seq<char>,
    from: int,
    more: Found,
    r: RecordView,
)
    requires
        items.len() > 0,
        items[0] == ItemView::Good(r),
        !is_own_name(r.name),
        0 <= from < more.entries.len() == more.files.len(),
        more.entries[from] == entry_of(r, apfs::below(prefix, r.name)),
        more.files[from] == body_handle(r),
    ensures
        has_way(lists, items, prefix, from, more, from),
{
    let names = seq![r.name];
    apfs::path_down_begins(prefix, r.name, Seq::empty());
    assert(leads_to(lists, items, names, r));
    assert(comes_down(lists, items, prefix, from, more, from, names, r));
}

#[verifier::rlimit(40)]
proof fn below_comes_down(
    lists: spec_fn(u64) -> Seq<ItemView>,
    items: Seq<ItemView>,
    prefix: Seq<char>,
    from: int,
    part: Found,
    more: Found,
    i: int,
    d: RecordView,
)
    requires
        items.len() > 0,
        items[0] == ItemView::Good(d),
        !is_own_name(d.name),
        d.kind is Directory,
        0 <= from < i < part.entries.len() == part.files.len(),
        part.entries.is_prefix_of(more.entries),
        part.files.is_prefix_of(more.files),
        part.entries[from] == entry_of(d, apfs::below(prefix, d.name)),
        has_way(lists, lists(d.handle), apfs::below(prefix, d.name), from + 1, part, i),
    ensures
        has_way(lists, items, prefix, from, more, i),
{
    let path = apfs::below(prefix, d.name);
    let inner = lists(d.handle);
    let (names, r) = choose|names: Seq<Seq<char>>, r: RecordView|
        #[trigger] comes_down(lists, inner, path, from + 1, part, i, names, r);
    let all = seq![d.name] + names;
    assert(all.skip(1) =~= names);
    assert(more.files[i] == part.files[i]);
    assert(more.entries[i] == part.entries[i]);
    assert(leads_to(lists, items, all, r));
    apfs::path_down_begins(prefix, d.name, names);
    apfs::path_down_begins(prefix, d.name, names.drop_last());
    assert(all.drop_last() =~= seq![d.name] + names.drop_last());
    if names.len() > 1 {
        let h = choose|h: int|
            from + 1 <= h < i && (#[trigger] part.entries[h]).kind is Dir && part.entries[h].path == apfs::path_down(
                path,
                names.drop_last(),
            );
        assert(more.entries[h] == part.entries[h]);
    } else {
        assert(all.drop_last() =~= seq![d.name]);
        assert(more.entries[from] == part.entries[from]);
    }
    assert(comes_down(lists, items, prefix, from, more, i, all, r));
}

#[verifier::rlimit(40)]
proof fn rest_comes_down(
    lists: spec_fn(u64) -> Seq<ItemView>,
    items: Seq<ItemView>,
    prefix: Seq<char>,
    from: int,
    later: int,
    more: Found,
    i: int,
)
    requires
        items.len() > 0,
        0 <= from <= later <= i < more.entries.len(),
        has_way(lists, items.skip(1), prefix, later, more, i),
    ensures
        has_way(lists, items, prefix, from, more, i),
{
    let rest = items.skip(1);
    let (names, r) = choose|names: Seq<Seq<char>>, r: RecordView|
        #[trigger] comes_down(lists, rest, prefix, later, more, i, names, r);
    let k = choose|k: int|
        0 <= k < rest.len() && match #[trigger] rest[k] {
            ItemView::Good(e) => e.name == names[0] && e.name.len() > 0 && e.name != "."@ && e.name != ".."@ && if names.len()
                == 1 {
                r == e
            } else {
                e.kind is Directory && leads_to(lists, lists(e.handle), names.skip(1), r)
            },
            ItemView::Bad(_) => false,
        };
    assert(items[k + 1] == rest[k]);
    assert(leads_to(lists, items, names, r));
    assert(comes_down(lists, items, prefix, from, more, i, names, r));
}

/// Whatever is found of some items has a path that goes down through the names of the
/// directories that it lies in and ends with its own; and the directory around it is found
/// before it.
#[verifier::rlimit(40)]
pub proof fn found_paths_come_down(
    lists: spec_fn(u64) -> Seq<ItemView>,
    items: Seq<ItemView>,
    prefix: Seq<char>,
    depth: int,
    found: Found,
)
    requires
        found.visited.no_duplicates(),
        found.entries.len() == found.files.len(),
    ensures
        walked(lists, items, prefix, depth, found) matches Ok(more) ==> forall|i: int|
            found.entries.len() <= i < more.entries.len() ==> #[trigger] has_way(
                lists,
                items,
                prefix,
                found.entries.len() as int,
                more,
                i,
            ),
    decreases MAX_ISO_DEPTH + 1 - depth, items.len(),
{
    let whole = walked(lists, items, prefix, depth, found);
    if items.len() > 0 && whole is Ok {
        let more = whole->Ok_0;
        let r = items[0]->Good_0;
        let rest = items.skip(1);
        let from = found.entries.len() as int;
        no_directory_is_entered_twice(lists, items, prefix, depth, found);
        if is_own_name(r.name) {
            found_paths_come_down(lists, rest, prefix, depth, found);
            assert forall|i: int| from <= i < more.entries.len() implies #[trigger] has_way(lists, items, prefix, from, more, i) by {
                assert(has_way(lists, rest, prefix, from, more, i));
                rest_comes_down(lists, items, prefix, from, from, more, i);
            }
        } else {
            let path = apfs::below(prefix, r.name);
            let with = with_record(found, r, path);
            assert(with.visited.no_duplicates());
            let entered = is_new_directory(found, r);
            let part = if entered { walked(lists, lists(r.handle), path, depth + 1, with)->Ok_0 } else { with };
            if entered {
                no_directory_is_entered_twice(lists, lists(r.handle), path, depth + 1, with);
                found_paths_come_down(lists, lists(r.handle), path, depth + 1, with);
            }
            no_directory_is_entered_twice(lists, rest, prefix, depth, part);
            found_paths_come_down(lists, rest, prefix, depth, part);
            assert(with.entries[from] == entry_of(r, path) && with.files[from] == body_handle(r));
            assert(part.entries[from] == with.entries[from] && part.files[from] == with.files[from]);
            assert(more.entries[from] == part.entries[from] && more.files[from] == part.files[from]);
            assert forall|i: int| from <= i < more.entries.len() implies #[trigger] has_way(lists, items, prefix, from, more, i) by {
                if i == from {
                    first_comes_down(lists, items, prefix, from, more, r);
                } else if i < part.entries.len() {
                    assert(has_way(lists, lists(r.handle), path, from + 1, part, i));
                    below_comes_down(lists, items, prefix, from, part, more, i, r);
                } else {
                    assert(has_way(lists, rest, prefix, part.entries.len() as int, more, i));
                    rest_comes_down(lists, items, prefix, from, part.entries.len() as int, more, i);
                }
            }
        }
    }
}

/// Each of these items, but for those that stand for the directory itself and the one
/// above, is found below `prefix`, from `from` on.
pub open spec fn are_listed(items: Seq<ItemView>, prefix: Seq<char>, from: int, found: Found) -> bool {
    forall|k: int|
        0 <= k < items.len() ==> match #[trigger] items[k] {
            ItemView::Good(r) => r.name.len() == 0 || r.name == "."@ || r.name == ".."@ || is_found(r, prefix, from, found),
            ItemView::Bad(_) => false,
        }
}

/// The record is found below `prefix`, from `from` on.
pub open spec fn is_found(r: RecordView, prefix: Seq<char>, from: int, found: Found) -> bool {
    exists|j: int|
        from <= j < found.entries.len() && shows_record(
            #[trigger] found.entries[j],
            apfs::path_down(prefix, seq![r.name]),
            r,
        )
}

/// A directory with this extent is found, and so is each of its items below it.
pub open spec fn is_gone_through(lists: spec_fn(u64) -> Seq<ItemView>, found: Found, extent: u32, i: int, r: RecordView) -> bool {
    &&& 0 <= i < found.entries.len()
    &&& r.kind == RecordKindView::Directory(extent)
    &&& shows_record(found.entries[i], found.entries[i].path, r)
    &&& are_listed(lists(r.handle), found.entries[i].path, i + 1, found)
}

/// A directory with this extent is gone through.
pub open spec fn is_entered(lists: spec_fn(u64) -> Seq<ItemView>, found: Found, extent: u32) -> bool {
    exists|i: int, r: RecordView| #[trigger] is_gone_through(lists, found, extent, i, r)
}

proof fn listed_stay(items: Seq<ItemView>, prefix: Seq<char>, from: int, part: Found, more: Found)
    requires
        are_listed(items, prefix, from, part),
        part.entries.is_prefix_of(more.entries),
        0 <= from,
    ensures
        are_listed(items, prefix, from, more),
{
    assert forall|k: int| 0 <= k < items.len() implies match #[trigger] items[k] {
        ItemView::Good(r) => r.name.len() == 0 || r.name == "."@ || r.name == ".."@ || is_found(r, prefix, from, more),
        ItemView::Bad(_) => false,
    } by {
        let r = items[k]->Good_0;
        if is_found(r, prefix, from, part) {
            let j = choose|j: int|
                from <= j < part.entries.len() && shows_record(
                    #[trigger] part.entries[j],
                    apfs::path_down(prefix, seq![r.name]),
                    r,
                );
            assert(more.entries[j] == part.entries[j]);
        }
    }
}

proof fn entered_stays(lists: spec_fn(u64) -> Seq<ItemView>, part: Found, more: Found, extent: u32)
    requires
        is_entered(lists, part, extent),
        part.entries.is_prefix_of(more.entries),
    ensures
        is_entered(lists, more, extent),
{
    let (i, r) = choose|i: int, r: RecordView| #[trigger] is_gone_through(lists, part, extent, i, r);
    assert(more.entries[i] == part.entries[i]);
    listed_stay(lists(r.handle), part.entries[i].path, i + 1, part, more);
    assert(is_gone_through(lists, more, extent, i, r));
}

/// Each item of a directory that is gone through is listed below it, and each directory
/// that is met is gone through, one of those with the same extent.
#[verifier::rlimit(40)]
pub proof fn directories_are_gone_through(
    lists: spec_fn(u64) -> Seq<ItemView>,
    items: Seq<ItemView>,
    prefix: Seq<char>,
    depth: int,
    found: Found,
)
    requires
        found.visited.no_duplicates(),
        found.entries.len() == found.files.len(),
    ensures
        walked(lists, items, prefix, depth, found) matches Ok(more) ==> {
            &&& are_listed(items, prefix, found.entries.len() as int, more)
            &&& forall|x: u32|
                more.visited.contains(x) && !found.visited.contains(x) ==> #[trigger] is_entered(lists, more, x)
            &&& forall|k: int|
                0 <= k < items.len() ==> (#[trigger] items[k] matches ItemView::Good(r) && (r.kind is Directory && r.name.len() > 0 && r.name != "."@ && r.name != ".."@ ==> more.visited.contains(
                    r.kind->Directory_0,
                )))
        },
    decreases MAX_ISO_DEPTH + 1 - depth, items.len(),
{
    let whole = walked(lists, items, prefix, depth, found);
    if items.len() > 0 && whole is Ok {
        let more = whole->Ok_0;
        let r = items[0]->Good_0;
        let rest = items.skip(1);
        let from = found.entries.len() as int;
        no_directory_is_entered_twice(lists, items, prefix, depth, found);
        if is_own_name(r.name) {
            directories_are_gone_through(lists, rest, prefix, depth, found);
            assert forall|k: int| 0 <= k < items.len() implies match #[trigger] items[k] {
                ItemView::Good(r) => r.name.len() == 0 || r.name == "."@ || r.name == ".."@ || is_found(r, prefix, from, more),
                ItemView::Bad(_) => false,
            } by {
                if k > 0 {
                    assert(rest[k - 1] == items[k]);
                }
            }
            assert forall|k: int| 0 <= k < items.len() implies (#[trigger] items[k] matches ItemView::Good(r) && (
            r.kind is Directory && r.name.len() > 0 && r.name != "."@ && r.name != ".."@ ==> more.visited.contains(
                    r.kind->Directory_0,
                ))) by {
                if k > 0 {
                    assert(rest[k - 1] == items[k]);
                }
            }
        } else {
            let path = apfs::below(prefix, r.name);
            let with = with_record(found, r, path);
            assert(with.visited.no_duplicates());
            let entered = is_new_directory(found, r);
            let part = if entered { walked(lists, lists(r.handle), path, depth + 1, with)->Ok_0 } else { with };
            apfs::path_down_begins(prefix, r.name, Seq::empty());
            assert(with.entries[from] == entry_of(r, path));
            if entered {
                no_directory_is_entered_twice(lists, lists(r.handle), path, depth + 1, with);
                directories_are_gone_through(lists, lists(r.handle), path, depth + 1, with);
                assert(part.entries[from] == with.entries[from]);
                let x = r.kind->Directory_0;
                assert(is_gone_through(lists, part, x, from, r));
                assert(with.visited == found.visited.push(x));
                assert(with.visited[found.visited.len() as int] == x);
            }
            no_directory_is_entered_twice(lists, rest, prefix, depth, part);
            directories_are_gone_through(lists, rest, prefix, depth, part);
            assert(part.entries[from] == with.entries[from]);
            assert(more.entries[from] == part.entries[from]);
            assert(shows_record(more.entries[from], apfs::path_down(prefix, seq![r.name]), r));
            assert(are_listed(items, prefix, from, more)) by {
                assert forall|k: int| 0 <= k < items.len() implies match #[trigger] items[k] {
                    ItemView::Good(r) => r.name.len() == 0 || r.name == "."@ || r.name == ".."@ || is_found(
                        r,
                        prefix,
                        from,
                        more,
                    ),
                    ItemView::Bad(_) => false,
                } by {
                    if k > 0 {
                        assert(rest[k - 1] == items[k]);
                        let q = items[k]->Good_0;
                        if is_found(q, prefix, part.entries.len() as int, more) {
                            let j = choose|j: int|
                                part.entries.len() <= j < more.entries.len() && shows_record(
                                    #[trigger] more.entries[j],
                                    apfs::path_down(prefix, seq![q.name]),
                                    q,
                                );
                            assert(from <= j);
                        }
                    }
                }
            }
            assert forall|x: u32| more.visited.contains(x) && !found.visited.contains(x) implies #[trigger] is_entered(
                lists,
                more,
                x,
            ) by {
                if part.visited.contains(x) {
                    if entered && x == r.kind->Directory_0 {
                        assert(is_entered(lists, part, x));
                    } else {
                        assert(!with.visited.contains(x)) by {
                            if with.visited.contains(x) {
                                let n = choose|n: int| 0 <= n < with.visited.len() && with.visited[n] == x;
                                if n < found.visited.len() {
                                    assert(found.visited[n] == x);
                                }
                            }
                        }
                        assert(is_entered(lists, part, x));
                    }
                    entered_stays(lists, part, more, x);
                }
            }
            assert forall|k: int| 0 <= k < items.len() implies (#[trigger] items[k] matches ItemView::Good(r) && (
            r.kind is Directory && r.name.len() > 0 && r.name != "."@ && r.name != ".."@ ==> more.visited.contains(
                    r.kind->Directory_0,
                ))) by {
                if k > 0 {
                    assert(rest[k - 1] == items[k]);
                } else if r.kind is Directory {
                    let x = r.kind->Directory_0;
                    assert(with.visited.contains(x));
                    let n = choose|n: int| 0 <= n < with.visited.len() && with.visited[n] == x;
                    assert(part.visited[n] == x);
                    assert(more.visited[n] == x);
                }
            }
        }
    }
}

} // verus!
