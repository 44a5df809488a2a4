//! Cabinets: files packed into folders, each folder one stream.
use vstd::prelude::*;

use crate::archive;
use crate::bytes;
use crate::datetime;
use crate::delivery;
use crate::encoding;
use crate::error;
use crate::text;
use crate::archive::{BatchReader, EntrySink, KindView, SinkEvent};
use crate::archive::{ArchiveReader, Confidence, Entry, EntryKind, EntryView, FormatHandler, FormatId, OpenOptions};
use crate::archive::Source;
use crate::bytes::{copy_bytes, copy_range, starts_with};
use crate::datetime::{dos_words_to_systime, Stamp};
use crate::delivery::{deliver, Delivery, DeliveryView, Task};
use crate::encoding::{decode_names, text_lossy};
use crate::error::{io_err_to_corrupt, unsupported, Error, ErrorView, IoError};
use crate::path_safety;
use crate::path_safety::raw_path_escapes;
use crate::text::{chars_of, copy_text, decimal_text, join2, string_of};

verus! {

/// How a cabinet begins.
pub const CAB_MAGIC: [u8; 4] = [0x4D, 0x53, 0x43, 0x46];

/// A file as the cabinet's headers describe it: its place is in the unpacked
/// stream of its folder.
#[derive(Debug)]
pub struct CabFile {
    pub name: Vec<u8>,
    pub name_is_utf8: bool,
    pub date: u16,
    pub time: u16,
    pub offset: u64,
    pub size: u64,
}

/// A `CabFile` with its name as a sequence.
pub struct CabFileView {
    pub name: Seq<u8>,
    pub name_is_utf8: bool,
    pub date: u16,
    pub time: u16,
    pub offset: u64,
    pub size: u64,
}

impl View for CabFile {
    type V = CabFileView;

    open spec fn view(&self) -> CabFileView {
        CabFileView {
            name: self.name@,
            name_is_utf8: self.name_is_utf8,
            date: self.date,
            time: self.time,
            offset: self.offset,
            size: self.size,
        }
    }
}

/// The unpacked stream of a folder.
#[derive(Debug)]
pub enum FolderStream {
    /// As far as it could be unpacked, and why not further.
    Unpacked { bytes: Vec<u8>, failure: Option<IoError> },
    /// It cannot be opened at all.
    Closed(IoError),
}

/// A folder: its files, and its stream.
#[derive(Debug)]
pub struct CabFolder {
    pub files: Vec<CabFile>,
    pub stream: FolderStream,
}

/// The files of the first `n` folders, each with the number of its folder.
pub open spec fn files_of(folders: Seq<CabFolder>, n: int) -> Seq<(int, CabFileView)>
    decreases n,
{
    if n <= 0 {
        Seq::empty()
    } else {
        files_of(folders, n - 1) + folders[n - 1].files@.map_values(|f: CabFile| (n - 1, f@))
    }
}

/// What can be read of a file in an unpacked stream, and why the rest cannot.
pub open spec fn piece_of(stream: FolderStream, folder: int, f: CabFileView) -> (Seq<u8>, Option<ErrorView>) {
    match stream {
        FolderStream::Closed(e) => (Seq::empty(), Some(error::io_error_view(e.kind, e.message@))),
        FolderStream::Unpacked { bytes, failure } => {
            let len = bytes@.len() as int;
            let from = if f.offset < len { f.offset as int } else { len };
            if f.offset + f.size <= len {
                (bytes@.subrange(from, from + f.size), None)
            } else {
                (
                    bytes@.skip(from),
                    match failure {
                        Some(e) => Some(error::io_error_view(e.kind, e.message@)),
                        None => if f.size == 0 {
                            None
                        } else {
                            Some(
                                ErrorView::Corrupt(
                                    "cab: entry ends early — "@ + text::decimal((len - from) as nat) + " of "@ + text::decimal(
                                        f.size as nat,
                                    ) + " bytes in folder "@ + text::decimal(folder as nat),
                                ),
                            )
                        },
                    },
                )
            }
        },
    }
}

fn copy_io(e: &IoError) -> (r: IoError)
    ensures
        r.kind == e.kind,
        r.message@ == e.message@,
{
    IoError { kind: e.kind, message: copy_text(e.message.as_str()) }
}

/// What can be read of a file in an unpacked stream.
fn copy_body(stream: &FolderStream, folder: usize, f: &CabFile) -> (r: (Vec<u8>, Option<Error>))
    ensures
        (r.0@, delivery::opt_error(r.1)) == piece_of(*stream, folder as int, f@),
{
    match stream {
        FolderStream::Closed(e) => {
            let none: Vec<u8> = Vec::new();
            assert(none@ =~= Seq::<u8>::empty());
            (none, Some(io_err_to_corrupt(copy_io(e))))
        },
        FolderStream::Unpacked { bytes, failure } => {
            let len: u64 = bytes.len() as u64;
            let from: usize = if f.offset < len { f.offset as usize } else { bytes.len() };
            if f.offset <= len && f.size <= len - f.offset {
                (copy_range(bytes.as_slice(), from, from + f.size as usize), None)
            } else {
                let part = copy_range(bytes.as_slice(), from, bytes.len());
                assert(part@ =~= bytes@.skip(from as int));
                let why = match failure {
                    Some(e) => Some(io_err_to_corrupt(copy_io(e))),
                    None => if f.size == 0 {
                        None
                    } else {
                        let a = decimal_text(part.len() as u64);
                        let b = decimal_text(f.size);
                        let c = decimal_text(folder as u64);
                        let t1 = join2("cab: entry ends early — ", a.as_str());
                        let t2 = join2(t1.as_str(), " of ");
                        let t3 = join2(t2.as_str(), b.as_str());
                        let t4 = join2(t3.as_str(), " bytes in folder ");
                        Some(Error::Corrupt(join2(t4.as_str(), c.as_str())))
                    },
                };
                (part, why)
            }
        },
    }
}

/// `s` with a slash for every backslash.
pub open spec fn with_slashes(s: Seq<char>) -> Seq<char> {
    s.map_values(|c: char| if c == '\\' { '/' } else { c })
}

fn turn_slashes(s: &str) -> (r: String)
    ensures
        r@ == with_slashes(s@),
{
    let cs = chars_of(s);
    let mut out: Vec<char> = Vec::new();
    let mut i: usize = 0;
    while i < cs.len()
        invariant
            i <= cs.len(),
            out.len() == i,
            forall|k: int| 0 <= k < i ==> out@[k] == if cs@[k] == '\\' { '/' } else { cs@[k] },
        decreases cs.len() - i,
    {
        out.push(if cs[i] == '\\' { '/' } else { cs[i] });
        i = i + 1;
    }
    assert(out@ =~= with_slashes(s@));
    string_of(out.as_slice())
}

/// The text of a name: as stored where the cabinet says that it is UTF-8 or
/// where it leads out of the cabinet, else as decoded.
pub open spec fn name_text(f: CabFileView, decoded: Seq<char>) -> Seq<char> {
    if f.name_is_utf8 || path_safety::path_escapes(f.name) { encoding::lossy(f.name) } else { decoded }
}

/// The entry of a file with its decoded name.
pub open spec fn entry_of(f: CabFileView, decoded: Seq<char>) -> EntryView {
    EntryView {
        path_raw: f.name,
        path: with_slashes(name_text(f, decoded)),
        kind: KindView::File,
        size: f.size,
        mode: None,
        is_encrypted: false,
        modified: match datetime::wall_clock(datetime::dos_civil(f.date, f.time)) {
            Some(c) => Some(Stamp::WallClock(c)),
            None => None,
        },
        is_resource_fork: false,
    }
}

/// The raw names of the files.
pub open spec fn names_of(files: Seq<(int, CabFileView)>) -> Seq<Seq<u8>> {
    files.map_values(|f: (int, CabFileView)| f.1.name)
}

/// The listing of a cabinet: the names are decoded in one encoding.
pub open spec fn listing_of(files: Seq<(int, CabFileView)>, label: Option<Seq<char>>) -> Seq<EntryView> {
    let names = encoding::decoded_names(names_of(files), label);
    Seq::new(files.len(), |i: int| entry_of(files[i].1, names[i]))
}

/// What reading a file gives.
pub open spec fn whole_of(piece: (Seq<u8>, Option<ErrorView>)) -> Result<Seq<u8>, ErrorView> {
    match piece.1 {
        Some(e) => Err(e),
        None => Ok(piece.0),
    }
}

/// The bodies of a cabinet.
pub open spec fn bodies_of(folders: Seq<CabFolder>, files: Seq<(int, CabFileView)>) -> Seq<Result<Seq<u8>, ErrorView>> {
    files.map_values(|f: (int, CabFileView)| whole_of(piece_of(folders[f.0].stream, f.0, f.1)))
}

/// A wanted file: its folder, its place in the folder's stream, and its entry.
pub type Wanted = (usize, u64, usize);

/// `a` comes before `b`, or they are the same.
pub open spec fn not_after(a: Wanted, b: Wanted) -> bool {
    a.0 < b.0 || (a.0 == b.0 && (a.1 < b.1 || (a.1 == b.1 && a.2 <= b.2)))
}

/// The list ascends.
pub open spec fn ascends(v: Seq<Wanted>) -> bool {
    forall|i: int, j: int| 0 <= i <= j < v.len() ==> not_after(#[trigger] v[i], #[trigger] v[j])
}

/// `slice::sort_unstable` on triples of integers: the same triples, in the order
/// of the first number, then the second, then the third.
#[verifier::external_body]
fn sort(v: &mut Vec<Wanted>)
    ensures
        final(v)@.to_multiset() == old(v)@.to_multiset(),
        ascends(final(v)@),
{
    v.sort_unstable();
}

/// An opened cabinet.
#[derive(Debug)]
pub struct CabReader {
    folders: Vec<CabFolder>,
    entries: Vec<Entry>,
    /// For each entry its folder, and its place among the folder's files.
    places: Vec<(usize, usize)>,
}

impl CabReader {
    #[verifier::type_invariant]
    spec fn wf(self) -> bool {
        &&& self.entries.len() == self.places.len()
        &&& forall|i: int|
            0 <= i < self.places.len() ==> (#[trigger] self.places@[i]).0 < self.folders.len() && self.places@[i].1
                < self.folders@[self.places@[i].0 as int].files.len()
    }

    /// The folders of the cabinet.
    pub closed spec fn contents(&self) -> Seq<CabFolder> {
        self.folders@
    }

    /// The files behind the entries, each with its folder.
    pub closed spec fn files(&self) -> Seq<(int, CabFileView)> {
        self.places@.map_values(
            |p: (usize, usize)| (p.0 as int, self.folders@[p.0 as int].files@[p.1 as int]@),
        )
    }

    /// Make a reader of the folders of a cabinet.
    pub fn new(folders: Vec<CabFolder>, opts: &OpenOptions) -> (r: CabReader)
        ensures
            r.contents() == folders@,
            r.files() == files_of(folders@, folders.len() as int),
            archive::presents(
                &r,
                FormatId::Cab,
                listing_of(files_of(folders@, folders.len() as int), text::opt_string(opts.encoding_override)),
                bodies_of(folders@, files_of(folders@, folders.len() as int)),
            ),
    {
        let ghost label = text::opt_string(opts.encoding_override);
        let ghost all = files_of(folders@, folders.len() as int);
        let (raw, places) = scan(&folders);
        let names = decode_names(raw.as_slice(), opts.label());
        let ghost want = listing_of(all, label);
        let mut entries: Vec<Entry> = Vec::new();
        let mut i: usize = 0;
        assert(encoding::raw_views(raw@) =~= names_of(all));
        while i < places.len()
            invariant
                i <= places.len(),
                all == files_of(folders@, folders.len() as int),
                want == listing_of(all, label),
                places.len() == all.len(),
                names.len() == places.len(),
                encoding::text_views(names@) == encoding::decoded_names(names_of(all), label),
                forall|k: int|
                    0 <= k < places.len() ==> (#[trigger] places@[k]).0 < folders.len() && places@[k].1
                        < folders@[places@[k].0 as int].files.len() && all[k] == (
                        places@[k].0 as int,
                        folders@[places@[k].0 as int].files@[places@[k].1 as int]@,
                    ),
                entries.len() == i,
                forall|k: int| 0 <= k < i ==> (#[trigger] entries@[k])@ == want[k],
            decreases places.len() - i,
        {
            let (d, k) = places[i];
            let file = &folders[d].files[k];
            proof {
                assert(all[i as int].1 == file@);
                assert(encoding::text_views(names@)[i as int] == names@[i as int]@);
            }
            let name = if file.name_is_utf8 || raw_path_escapes(file.name.as_slice()) {
                text_lossy(file.name.as_slice())
            } else {
                copy_text(names[i].as_str())
            };
            entries.push(
                Entry {
                    path_raw: copy_bytes(file.name.as_slice()),
                    path: turn_slashes(name.as_str()),
                    kind: EntryKind::File,
                    size: file.size,
                    mode: None,
                    is_encrypted: false,
                    modified: match dos_words_to_systime(file.date, file.time) {
                        Some(c) => Some(Stamp::WallClock(c)),
                        None => None,
                    },
                    is_resource_fork: false,
                },
            );
            i = i + 1;
        }
        proof {
            assert(archive::views(entries@) =~= want);
        }
        let r = CabReader { folders, entries, places };
        proof {
            assert(r.files() =~= all);
            let bodies = bodies_of(folders@, all);
            assert(bodies.len() == all.len());
        }
        r
    }
}

/// The raw names of all files, and where the files are.
fn scan(folders: &Vec<CabFolder>) -> (r: (Vec<Vec<u8>>, Vec<(usize, usize)>))
    ensures
        r.0.len() == r.1.len(),
        r.1.len() == files_of(folders@, folders.len() as int).len(),
        forall|k: int|
            0 <= k < r.1.len() ==> (#[trigger] r.1@[k]).0 < folders.len() && r.1@[k].1
                < folders@[r.1@[k].0 as int].files.len() && files_of(folders@, folders.len() as int)[k] == (
                r.1@[k].0 as int,
                folders@[r.1@[k].0 as int].files@[r.1@[k].1 as int]@,
            ),
        forall|k: int|
            0 <= k < r.0.len() ==> (#[trigger] r.0@[k])@ == files_of(folders@, folders.len() as int)[k].1.name,
{
    let mut raw: Vec<Vec<u8>> = Vec::new();
    let mut places: Vec<(usize, usize)> = Vec::new();
    let mut n: usize = 0;
    while n < folders.len()
        invariant
            n <= folders.len(),
            raw.len() == places.len(),
            places.len() == files_of(folders@, n as int).len(),
            forall|k: int|
                0 <= k < places.len() ==> (#[trigger] places@[k]).0 < folders.len() && places@[k].1
                    < folders@[places@[k].0 as int].files.len() && files_of(folders@, n as int)[k] == (
                    places@[k].0 as int,
                    folders@[places@[k].0 as int].files@[places@[k].1 as int]@,
                ),
            forall|k: int| 0 <= k < raw.len() ==> (#[trigger] raw@[k])@ == files_of(folders@, n as int)[k].1.name,
        decreases folders.len() - n,
    {
        let ghost before = files_of(folders@, n as int);
        let ghost now = files_of(folders@, n + 1);
        let files = &folders[n].files;
        let mut j: usize = 0;
        while j < files.len()
            invariant
                j <= files.len(),
                n < folders.len(),
                files@ == folders@[n as int].files@,
                before == files_of(folders@, n as int),
                now == files_of(folders@, n + 1),
                raw.len() == places.len(),
                places.len() == before.len() + j,
                forall|k: int|
                    0 <= k < places.len() ==> (#[trigger] places@[k]).0 < folders.len() && places@[k].1
                        < folders@[places@[k].0 as int].files.len() && now[k] == (
                        places@[k].0 as int,
                        folders@[places@[k].0 as int].files@[places@[k].1 as int]@,
                    ),
                forall|k: int| 0 <= k < raw.len() ==> (#[trigger] raw@[k])@ == now[k].1.name,
            decreases files.len() - j,
        {
            proof {
                assert(now[before.len() + j] == (n as int, files@[j as int]@));
            }
            raw.push(copy_bytes(files[j].name.as_slice()));
            places.push((n, j));
            j = j + 1;
        }
        n = n + 1;
    }
    (raw, places)
}

/// The delivery of a wanted file.
pub open spec fn delivery_of(folders: Seq<CabFolder>, files: Seq<(int, CabFileView)>, w: Wanted) -> DeliveryView {
    let f = files[w.2 as int];
    let piece = piece_of(folders[f.0].stream, f.0, f.1);
    DeliveryView { idx: w.2 as int, body: piece.0, failure: piece.1, drain: None }
}

/// What a pass over wanted files does.
pub open spec fn tasks_for(folders: Seq<CabFolder>, files: Seq<(int, CabFileView)>, wanted: Seq<Wanted>) -> Seq<Task> {
    wanted.map_values(|w: Wanted| Task::Entry(delivery_of(folders, files, w)))
}

/// The files that the indices want, in the order of the indices; up to the first
/// index that is out of range.
pub open spec fn wanted_of(files: Seq<(int, CabFileView)>, indices: Seq<usize>) -> Seq<Wanted> {
    indices.map_values(|i: usize| (files[i as int].0 as usize, files[i as int].1.offset, i))
}

/// The first index that is out of range, from `from` on.
pub open spec fn first_invalid(indices: Seq<usize>, len: int, from: int) -> Option<usize>
    decreases indices.len() - from,
{
    if from < 0 || from >= indices.len() {
        None
    } else if indices[from] >= len {
        Some(indices[from])
    } else {
        first_invalid(indices, len, from + 1)
    }
}

/// The calls and the result of a pass: the files are taken folder by folder, in
/// the order in which they are stored.
pub open spec fn passed(
    folders: Seq<CabFolder>,
    files: Seq<(int, CabFileView)>,
    indices: Seq<usize>,
    events: Seq<SinkEvent>,
    result: Result<(), ErrorView>,
) -> bool {
    match first_invalid(indices, files.len() as int, 0) {
        Some(i) => events.len() == 0 && result == Err::<(), ErrorView>(ErrorView::InvalidIndex(i as int)),
        None => exists|order: Seq<Wanted>|
            #[trigger] ascends(order) && order.to_multiset() == wanted_of(files, indices).to_multiset() && delivery::delivered(
                tasks_for(folders, files, order),
                events,
                result,
            ),
    }
}

impl ArchiveReader for CabReader {
    open spec fn spec_format(&self) -> FormatId {
        FormatId::Cab
    }

    closed spec fn listing(&self) -> Seq<EntryView> {
        archive::views(self.entries@)
    }

    closed spec fn body(&self, idx: int) -> Result<Seq<u8>, ErrorView> {
        archive::body_at(bodies_of(self.folders@, self.files()), idx)
    }

    fn format(&self) -> (r: FormatId) {
        FormatId::Cab
    }

    fn entries(&self) -> (r: &Vec<Entry>) {
        &self.entries
    }

    fn read_entry(&self, idx: usize) -> (r: Result<Vec<u8>, Error>) {
        proof {
            use_type_invariant(self);
        }
        if idx >= self.places.len() {
            return Err(Error::InvalidIndex(idx));
        }
        let (d, k) = self.places[idx];
        let folder = &self.folders[d];
        proof {
            assert(self.files()[idx as int] == (d as int, folder.files@[k as int]@));
        }
        let (bytes, why) = copy_body(&folder.stream, d, &folder.files[k]);
        match why {
            Some(e) => Err(e),
            None => Ok(bytes),
        }
    }

    fn verify_password(&self) -> (r: Result<(), Error>) {
        Ok(())
    }
}

impl BatchReader for CabReader {
    /// The pass goes folder by folder.
    open spec fn passes(&self, indices: Seq<usize>, events: Seq<SinkEvent>, result: Result<(), ErrorView>) -> bool {
        passed(self.contents(), self.files(), indices, events, result)
    }

    fn read_entries<S: EntrySink>(&self, indices: &[usize], sink: &mut S) -> (r: Result<(), Error>) {
        proof {
            use_type_invariant(self);
        }
        let ghost files = self.files();
        let ghost before = sink.history();
        let mut wanted: Vec<Wanted> = Vec::new();
        let mut i: usize = 0;
        proof {
            assert(files.len() == self.places.len());
        }
        while i < indices.len()
            invariant
                i <= indices.len(),
                files == self.files(),
                files.len() == self.places.len(),
                forall|k: int|
                    0 <= k < self.places.len() ==> (#[trigger] self.places@[k]).0 < self.folders.len()
                        && self.places@[k].1 < self.folders@[self.places@[k].0 as int].files.len(),
                wanted.len() == i,
                forall|k: int| 0 <= k < i ==> indices@[k] < files.len(),
                forall|k: int| 0 <= k < i ==> #[trigger] wanted@[k] == wanted_of(files, indices@)[k],
                first_invalid(indices@, files.len() as int, 0) == first_invalid(indices@, files.len() as int, i as int),
                sink.history() == before,
                before == old(sink).history(),
            decreases indices.len() - i,
        {
            let idx: usize = indices[i];
            if idx >= self.places.len() {
                proof {
                    assert(sink.history().skip(before.len() as int) =~= Seq::<SinkEvent>::empty());
                    assert(sink.history().take(before.len() as int) =~= before);
                }
                return Err(Error::InvalidIndex(idx));
            }
            let (d, k) = self.places[idx];
            proof {
                assert(files[idx as int] == (d as int, self.folders@[d as int].files@[k as int]@));
            }
            wanted.push((d, self.folders[d].files[k].offset, idx));
            i = i + 1;
        }
        assert(wanted@ =~= wanted_of(files, indices@));
        let ghost asked = wanted@;
        sort(&mut wanted);
        proof {
            assert forall|j: int| 0 <= j < wanted@.len() implies (#[trigger] wanted@[j]).2 < files.len() by {
                same_members(asked, wanted@, j);
            }
        }
        self.hand_out(&wanted, sink)
    }
}

/// A pass hands out each file with the body, or the failure, that reading it
/// alone gives.
pub proof fn pass_agrees_with_single_reads(folders: Seq<CabFolder>, files: Seq<(int, CabFileView)>, order: Seq<Wanted>, k: int)
    requires
        0 <= k < order.len(),
        order[k].2 < files.len(),
    ensures
        tasks_for(folders, files, order)[k] matches Task::Entry(d) && d.idx == order[k].2 && bodies_of(folders, files)[d.idx]
            == whole_of((d.body, d.failure)),
{
}

/// A pass serves every index that is wanted, and no other, in whatever order it
/// goes.
pub proof fn pass_serves_what_is_wanted(files: Seq<(int, CabFileView)>, indices: Seq<usize>, order: Seq<Wanted>, idx: usize)
    requires
        order.to_multiset() == wanted_of(files, indices).to_multiset(),
    ensures
        indices.contains(idx) <==> exists|k: int| 0 <= k < order.len() && (#[trigger] order[k]).2 == idx,
        order.len() == indices.len(),
{
    let wanted = wanted_of(files, indices);
    broadcast use vstd::seq_lib::group_to_multiset_ensures;

    assert(order.len() == order.to_multiset().len());
    assert(wanted.len() == wanted.to_multiset().len());
    if indices.contains(idx) {
        let j = choose|j: int| 0 <= j < indices.len() && indices[j] == idx;
        assert(wanted[j].2 == idx);
        same_members(order, wanted, j);
        let k = choose|k: int| 0 <= k < order.len() && order[k] == wanted[j];
        assert(order[k].2 == idx);
    }
    if exists|k: int| 0 <= k < order.len() && (#[trigger] order[k]).2 == idx {
        let k = choose|k: int| 0 <= k < order.len() && (#[trigger] order[k]).2 == idx;
        same_members(wanted, order, k);
        let j = choose|j: int| 0 <= j < wanted.len() && wanted[j] == order[k];
        assert(indices[j] == idx);
    }
}

/// Every member of a rearranged list is a member of the list.
proof fn same_members(a: Seq<Wanted>, b: Seq<Wanted>, j: int)
    requires
        a.to_multiset() == b.to_multiset(),
        0 <= j < b.len(),
    ensures
        exists|i: int| 0 <= i < a.len() && a[i] == b[j],
{
    broadcast use vstd::seq_lib::group_to_multiset_ensures;

    assert(b.contains(b[j]));
    assert(b.to_multiset().count(b[j]) > 0);
    assert(a.contains(b[j]));
}

impl CabReader {
    /// Hand the wanted files to the sink, in the order of the list.
    fn hand_out<S: EntrySink>(&self, wanted: &Vec<Wanted>, sink: &mut S) -> (r: Result<(), Error>)
        requires
            forall|j: int| 0 <= j < wanted.len() ==> (#[trigger] wanted@[j]).2 < self.files().len(),
        ensures
            final(sink).history().len() >= old(sink).history().len(),
            final(sink).history().take(old(sink).history().len() as int) == old(sink).history(),
            delivery::delivered(
                tasks_for(self.contents(), self.files(), wanted@),
                final(sink).history().skip(old(sink).history().len() as int),
                archive::outcome_view(r),
            ),
    {
        proof {
            use_type_invariant(self);
        }
        let ghost files = self.files();
        let ghost tasks = tasks_for(self.contents(), files, wanted@);
        let ghost before = sink.history();
        let ghost mut sofar = Seq::<SinkEvent>::empty();
        let mut i: usize = 0;
        proof {
            delivery::starts(tasks);
            assert(tasks.skip(0) =~= tasks);
            assert(before + sofar =~= before);
            assert(files.len() == self.places.len());
        }
        while i < wanted.len()
            invariant
                i <= wanted.len(),
                files == self.files(),
                files.len() == self.places.len(),
                tasks == tasks_for(self.contents(), files, wanted@),
                forall|k: int|
                    0 <= k < self.places.len() ==> (#[trigger] self.places@[k]).0 < self.folders.len()
                        && self.places@[k].1 < self.folders@[self.places@[k].0 as int].files.len(),
                forall|j: int| 0 <= j < wanted.len() ==> (#[trigger] wanted@[j]).2 < files.len(),
                before == old(sink).history(),
                sink.history() == before + sofar,
                delivery::leads_to(tasks, tasks.skip(i as int), sofar),
            decreases wanted.len() - i,
        {
            let ghost rest = tasks.skip(i as int);
            assert(wanted@[i as int].2 < files.len());
            let idx: usize = wanted[i].2;
            let (d, k) = self.places[idx];
            let folder = &self.folders[d];
            proof {
                assert(files[idx as int] == (d as int, folder.files@[k as int]@));
                assert(rest[0] == tasks[i as int]);
            }
            let (body, failure) = copy_body(&folder.stream, d, &folder.files[k]);
            let delivery = Delivery { idx, body, failure, drain: None };
            let ghost view = delivery@;
            let ghost now = sink.history();
            proof {
                assert(view == delivery_of(self.contents(), files, wanted@[i as int]));
            }
            let answer = deliver(delivery, sink);
            let ghost calls = sink.history().skip(now.len() as int);
            proof {
                assert(sink.history() =~= sink.history().take(now.len() as int) + calls);
                assert(sink.history() =~= before + (sofar + calls));
                assert(sink.history().take(before.len() as int) =~= before);
                assert(sink.history().skip(before.len() as int) =~= sofar + calls);
            }
            match answer {
                Err(e) => {
                    proof {
                        delivery::comes_to_end(tasks, rest, sofar, view, calls, Err(e@));
                    }
                    return Err(e);
                },
                Ok(false) => {
                    proof {
                        delivery::comes_to_end(tasks, rest, sofar, view, calls, Ok(()));
                    }
                    return Ok(());
                },
                Ok(true) => {
                    proof {
                        delivery::goes_on(tasks, rest, sofar, view, calls);
                        assert(rest.skip(1) =~= tasks.skip(i + 1));
                        sofar = sofar + calls;
                    }
                },
            }
            i = i + 1;
        }
        proof {
            let none = Seq::<SinkEvent>::empty();
            assert(tasks.skip(i as int) =~= Seq::<Task>::empty());
            assert(delivery::delivered(tasks.skip(i as int), none, Ok(())));
            assert(sofar + none =~= sofar);
            assert(sink.history().take(before.len() as int) =~= before);
            assert(sink.history().skip(before.len() as int) =~= sofar);
        }
        Ok(())
    }
}

/// Reads cabinets.
#[derive(Debug, Clone, Copy)]
pub struct CabHandler;

impl FormatHandler for CabHandler {
    open spec fn spec_id(&self) -> FormatId {
        FormatId::Cab
    }

    open spec fn spec_probe(&self, header: Seq<u8>, name: Option<Seq<char>>) -> Confidence {
        archive::magic_when(bytes::stands_at(header, 0, CAB_MAGIC@))
    }

    fn id(&self) -> (r: FormatId) {
        FormatId::Cab
    }

    fn probe(&self, header: &[u8], name: Option<&str>) -> (r: Confidence) {
        Confidence::magic_if(starts_with(header, &CAB_MAGIC))
    }
}

impl CabHandler {
    /// Open a cabinet whose folders were read from the source, or whose reading
    /// failed.
    pub fn open(&self, src: &Source, folders: Result<Vec<CabFolder>, IoError>, opts: &OpenOptions) -> (r: Result<
        CabReader,
        Error,
    >)
        ensures
            match (*src, folders) {
                (Source::Stream { .. }, _) => error::fails_with(
                    r,
                    ErrorView::Unsupported { format: "cab"@, feature: "streaming (cab requires seek)"@ },
                ),
                (Source::Seekable { .. }, Err(e)) => error::fails_with(r, error::io_error_view(e.kind, e.message@)),
                (Source::Seekable { .. }, Ok(v)) => r matches Ok(reader) && reader.contents() == v@ && archive::presents(
                    &reader,
                    FormatId::Cab,
                    listing_of(files_of(v@, v.len() as int), text::opt_string(opts.encoding_override)),
                    bodies_of(v@, files_of(v@, v.len() as int)),
                ),
            },
    {
        match src {
            Source::Stream { .. } => Err(unsupported("cab", "streaming (cab requires seek)")),
            Source::Seekable { .. } => match folders {
                Err(e) => Err(io_err_to_corrupt(e)),
                Ok(v) => Ok(CabReader::new(v, opts)),
            },
        }
    }
}

/// A file is cut out of what its folder unpacks to, where it says that it lies. One that
/// the folder is too short for is not read.
pub proof fn files_are_cut_out_of_their_folder(stream: FolderStream, folder: int, f: CabFileView, before: Seq<u8>, body: Seq<u8>, behind: Seq<u8>)
    requires
        stream matches FolderStream::Unpacked { bytes, .. } && bytes@ == before + body + behind,
        f.offset == before.len(),
    ensures
        f.size == body.len() ==> whole_of(piece_of(stream, folder, f)) == Ok::<Seq<u8>, ErrorView>(body),
        f.size > body.len() + behind.len() ==> whole_of(piece_of(stream, folder, f)) is Err && piece_of(stream, folder, f).0
            == body + behind,
{
    let all = before + body + behind;
    let n = before.len() as int;
    assert(all.subrange(n, n + body.len()) =~= body);
    assert(all.skip(n) =~= body + behind);
}

/// A cabinet lists the files of its first folder, then those of the next, each in the
/// order of the folder.
pub proof fn files_are_listed_folder_by_folder(folders: Seq<CabFolder>, n: int, i: int)
    requires
        0 < n <= folders.len(),
        0 <= i < folders[n - 1].files@.len(),
    ensures
        files_of(folders, 0) == Seq::<(int, CabFileView)>::empty(),
        files_of(folders, n).len() == files_of(folders, n - 1).len() + folders[n - 1].files@.len(),
        files_of(folders, n)[files_of(folders, n - 1).len() + i] == (n - 1, folders[n - 1].files@[i]@),
        files_of(folders, n).take(files_of(folders, n - 1).len() as int) == files_of(folders, n - 1),
{
    assert(files_of(folders, n).take(files_of(folders, n - 1).len() as int) =~= files_of(folders, n - 1));
}

/// The names of files are shown with slashes in place of backslashes, and otherwise as
/// they are.
pub proof fn backslashes_become_slashes(s: Seq<char>, k: int)
    requires
        0 <= k < s.len(),
    ensures
        with_slashes(s).len() == s.len(),
        !with_slashes(s).contains('\\'),
        with_slashes(s)[k] == '/' <==> (s[k] == '/' || s[k] == '\\'),
        s[k] != '\\' ==> with_slashes(s)[k] == s[k],
{
}

/// A file has the date and the time of day that its two words pack, as MS-DOS does.
pub proof fn times_are_packed_words(f: CabFileView, decoded: Seq<char>, year: int, month: int, day: int, hour: int, min: int, half: int)
    requires
        1980 <= year < 2108,
        1 <= month <= 12,
        1 <= day < 32,
        0 <= hour < 24,
        0 <= min < 60,
        0 <= half < 30,
        f.date == (year - 1980) * 512 + month * 32 + day,
        f.time == hour * 2048 + min * 32 + half,
    ensures
        entry_of(f, decoded).modified matches Some(Stamp::WallClock(c)) && c.year == year && c.month == month && c.day == day
            && c.hour == hour && c.min == min && c.sec == 2 * half,
{
    datetime::dos_words_read_back(year, month, day, hour, min, half);
}

/// A pass over files of which one is not there is refused for the first such one.
pub proof fn first_missing_file_is_named(indices: Seq<usize>, len: int, from: int, k: int)
    requires
        0 <= from <= k <= indices.len(),
        forall|j: int| from <= j < k ==> #[trigger] indices[j] < len,
    ensures
        k < indices.len() && indices[k] >= len ==> first_invalid(indices, len, from) == Some(indices[k]),
        k == indices.len() ==> first_invalid(indices, len, from) is None,
    decreases k - from,
{
    if from < k {
        assert(indices[from] < len);
        first_missing_file_is_named(indices, len, from + 1, k);
    }
}

} // verus!
