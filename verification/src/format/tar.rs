//! Tape archives.
use vstd::prelude::*;

use crate::archive;
use crate::bytes;
use crate::datetime;
use crate::encoding;
use crate::error;
use crate::text;
use crate::archive::{read_entries_one_by_one, BatchReader, EntrySink};
use crate::archive::{ArchiveReader, Confidence, Entry, EntryKind, EntryView, FormatHandler, FormatId, KindView};
use crate::archive::{OpenOptions, Source};
use crate::bytes::{copy_bytes, copy_range, found_at};
use crate::datetime::{Stamp, Timestamp};
use crate::encoding::decode_names;
use crate::error::{corrupt, io_err_to_corrupt, io_error, Error, ErrorView, IoError, IoKind};
use crate::text::{chars_of, copy_text, string_of, trim_end_char};

verus! {

/// Where the mark of a tape archive stands.
pub const MAGIC_OFFSET: usize = 257;

/// `ustar`, the mark of a tape archive.
pub const MAGIC: [u8; 5] = [0x75, 0x73, 0x74, 0x61, 0x72];

/// The bytes that are looked at for the mark.
pub const PEEK_LEN: usize = 263;

/// The beginning of a file shows a tape archive.
pub open spec fn shows_tar(header: Seq<u8>) -> bool {
    header.len() >= PEEK_LEN && bytes::stands_at(header, MAGIC_OFFSET as int, MAGIC@)
}

/// Whether the beginning of a file shows a tape archive.
pub fn has_tar_magic(header: &[u8]) -> (r: bool)
    ensures
        r == shows_tar(header@),
{
    header.len() >= PEEK_LEN && found_at(header, MAGIC_OFFSET, &MAGIC)
}

/// What is read of one member.
#[derive(Debug)]
pub struct TarRow {
    pub path: Vec<u8>,
    pub size: u64,
    /// Where the body begins.
    pub offset: u64,
    pub mtime: Option<u64>,
    pub mode: Option<u32>,
    pub is_symlink: bool,
    pub is_dir: bool,
    pub link: Option<Vec<u8>>,
}

/// A `TarRow` with its bytes as sequences.
pub struct RowView {
    pub path: Seq<u8>,
    pub size: u64,
    pub offset: u64,
    pub mtime: Option<u64>,
    pub mode: Option<u32>,
    pub is_symlink: bool,
    pub is_dir: bool,
    pub link: Option<Seq<u8>>,
}

impl View for TarRow {
    type V = RowView;

    open spec fn view(&self) -> RowView {
        RowView {
            path: self.path@,
            size: self.size,
            offset: self.offset,
            mtime: self.mtime,
            mode: self.mode,
            is_symlink: self.is_symlink,
            is_dir: self.is_dir,
            link: match self.link {
                Some(l) => Some(l@),
                None => None,
            },
        }
    }
}

/// The views of a list of members.
pub open spec fn row_views(rows: Seq<TarRow>) -> Seq<RowView> {
    rows.map_values(|r: TarRow| r@)
}

/// The members that were read, or the kind and text of the failure.
pub open spec fn rows_result(r: Result<Vec<TarRow>, IoError>) -> Result<Seq<RowView>, (IoKind, Seq<char>)> {
    match r {
        Ok(v) => Ok(row_views(v@)),
        Err(e) => Err((e.kind, e.message@)),
    }
}

/// The length of a header.
pub const BLOCK: usize = 512;

/// `ustar`, two blanks and a NUL: the mark of a header in the manner of GNU.
pub const GNU_MAGIC: [u8; 8] = [0x75, 0x73, 0x74, 0x61, 0x72, 0x20, 0x20, 0];

/// Block `i` can be the header of a sparse member whose list of parts goes on in
/// the blocks behind it.
pub open spec fn goes_on_sparse(data: Seq<u8>, i: int) -> bool {
    let at = i * BLOCK;
    0 <= i && at + BLOCK <= data.len() && data[at + 156] == 0x53 && bytes::stands_at(data, at + MAGIC_OFFSET, GNU_MAGIC@)
        && data[at + 482] == 1
}

/// The size in such a header is far from the largest number: it is written in
/// octal digits, or the highest of its eight bytes is small.
pub open spec fn size_is_moderate(data: Seq<u8>, i: int) -> bool {
    data[i * BLOCK + 124] < 0x80 || data[i * BLOCK + 128] < 0x10
}

/// `size=`.
pub const SIZE_KEY: [u8; 5] = [0x73, 0x69, 0x7A, 0x65, 0x3D];

/// The fewest characters of a number that comes near the largest one.
pub const LONG_NUMBER: usize = 18;

pub open spec fn is_number_byte(b: u8) -> bool {
    0x30 <= b <= 0x39 || b == 0x2B
}

/// A size of many characters is given at `i`.
pub open spec fn long_size_at(data: Seq<u8>, i: int) -> bool {
    &&& bytes::stands_at(data, i, SIZE_KEY@)
    &&& i + 5 + LONG_NUMBER <= data.len()
    &&& forall|k: int| 0 <= k < LONG_NUMBER ==> is_number_byte(#[trigger] data[i + 5 + k])
}

/// No place that is counted past a sparse member runs over the largest number: there
/// is no such member whose parts are listed in further blocks, or no size is so
/// large.
pub open spec fn sparse_sizes_fit(data: Seq<u8>) -> bool {
    ||| forall|i: int| !(#[trigger] goes_on_sparse(data, i))
    ||| (forall|i: int| #[trigger] goes_on_sparse(data, i) ==> size_is_moderate(data, i)) && (forall|i: int|
        !(#[trigger] long_size_at(data, i)))
}

fn block_goes_on_sparse(data: &[u8], at: usize, i: Ghost<int>) -> (r: bool)
    requires
        at + BLOCK <= data.len(),
        at == i@ * BLOCK,
        0 <= i@,
    ensures
        r == goes_on_sparse(data@, i@),
{
    data[at + 156] == 0x53 && found_at(data, at + MAGIC_OFFSET, &GNU_MAGIC) && data[at + 482] == 1
}

fn has_long_size_at(data: &[u8], i: usize) -> (r: bool)
    requires
        i < data.len(),
    ensures
        r == long_size_at(data@, i as int),
{
    if !found_at(data, i, &SIZE_KEY) || data.len() - i < 5 + LONG_NUMBER {
        return false;
    }
    let mut k: usize = 0;
    while k < LONG_NUMBER
        invariant
            k <= LONG_NUMBER,
            i + 5 + LONG_NUMBER <= data.len(),
            forall|j: int| 0 <= j < k ==> is_number_byte(#[trigger] data@[i + 5 + j]),
        decreases LONG_NUMBER - k,
    {
        let b: u8 = data[i + 5 + k];
        if !((0x30 <= b && b <= 0x39) || b == 0x2B) {
            assert(!is_number_byte(data@[i + 5 + k]));
            return false;
        }
        k = k + 1;
    }
    true
}

fn has_long_size(data: &[u8]) -> (r: bool)
    ensures
        r == exists|i: int| #[trigger] long_size_at(data@, i),
{
    let mut i: usize = 0;
    while i < data.len()
        invariant
            i <= data.len(),
            forall|j: int| 0 <= j < i ==> !(#[trigger] long_size_at(data@, j)),
        decreases data.len() - i,
    {
        if has_long_size_at(data, i) {
            assert(long_size_at(data@, i as int));
            return true;
        }
        i = i + 1;
    }
    assert forall|j: int| !(#[trigger] long_size_at(data@, j)) by {
        if long_size_at(data@, j) {
            assert(0 <= j < data@.len());
        }
    }
    false
}

/// Whether no place that is counted past a sparse member runs over the largest
/// number.
pub fn check_sparse_sizes(data: &[u8]) -> (r: bool)
    ensures
        r == sparse_sizes_fit(data@),
{
    let mut at: usize = 0;
    let mut any = false;
    let mut moderate = true;
    let ghost mut n: int = 0;
    while data.len() - at >= BLOCK
        invariant
            at == n * BLOCK,
            0 <= n,
            at <= data.len(),
            any == exists|i: int| 0 <= i < n && #[trigger] goes_on_sparse(data@, i),
            moderate == forall|i: int| 0 <= i < n && #[trigger] goes_on_sparse(data@, i) ==> size_is_moderate(data@, i),
        decreases data.len() - at,
    {
        let here = block_goes_on_sparse(data, at, Ghost(n));
        if here {
            any = true;
            if !(data[at + 124] < 0x80 || data[at + 128] < 0x10) {
                moderate = false;
            }
        }
        at = at + BLOCK;
        proof {
            n = n + 1;
            if here {
                assert(goes_on_sparse(data@, n - 1));
            }
        }
    }
    proof {
        assert forall|i: int| #[trigger] goes_on_sparse(data@, i) implies 0 <= i < n by {
            if i >= n {
                assert(i * BLOCK >= n * BLOCK);
            }
        }
    }
    if !any {
        return true;
    }
    moderate && !has_long_size(data)
}

/// What `tar::Archive::entries` yields on some bytes.
pub uninterp spec fn tar_rows(data: Seq<u8>) -> Result<Seq<RowView>, (IoKind, Seq<char>)>;

/// `tar::Archive::entries` over the bytes: of each member the raw path and link
/// name, the size, time, mode and type of its header and the place of its body,
/// in order, or the first failure. Counting past the parts of a sparse member of an
/// enormous size would overflow.
#[verifier::external_body]
fn list_members(data: &[u8]) -> (r: Result<Vec<TarRow>, IoError>)
    requires
        sparse_sizes_fit(data@),
    ensures
        rows_result(r) == tar_rows(data@),
{
    let mut archive = tar::Archive::new(data);
    let mut rows = Vec::new();
    for entry in archive.entries().map_err(io_error)? {
        let entry = entry.map_err(io_error)?;
        let h = entry.header();
        let size = h.size().map_err(io_error)?;
        let (is_symlink, is_dir) = (h.entry_type().is_symlink(), h.entry_type().is_dir());
        let link = entry.link_name_bytes().map(|c| c.into_owned());
        let (path, offset) = (entry.path_bytes().into_owned(), entry.raw_file_position());
        rows.push(TarRow { path, size, offset, mtime: h.mtime().ok(), mode: h.mode().ok(), is_symlink, is_dir, link });
    }
    Ok(rows)
}

/// The members of an archive. A sparse member so large that what follows it cannot be
/// counted is a failure.
pub open spec fn members(data: Seq<u8>) -> Result<Seq<RowView>, (IoKind, Seq<char>)> {
    if sparse_sizes_fit(data) { tar_rows(data) } else { Err((IoKind::Other, "size overflow"@)) }
}

/// List the members of an archive.
fn list_checked(data: &[u8]) -> (r: Result<Vec<TarRow>, IoError>)
    ensures
        rows_result(r) == members(data@),
{
    if check_sparse_sizes(data) {
        list_members(data)
    } else {
        Err(IoError { kind: IoKind::Other, message: copy_text("size overflow") })
    }
}

/// The raw paths of the members.
pub open spec fn raw_paths(rows: Seq<RowView>) -> Seq<Seq<u8>> {
    rows.map_values(|r: RowView| r.path)
}

/// The raw target of a symbolic link; nothing for any other member.
pub open spec fn raw_target(row: RowView) -> Seq<u8> {
    match row.link {
        Some(l) if row.is_symlink => l,
        _ => Seq::empty(),
    }
}

/// The raw targets of the members.
pub open spec fn raw_targets(rows: Seq<RowView>) -> Seq<Seq<u8>> {
    rows.map_values(|r: RowView| raw_target(r))
}

/// The entry of a member whose path and link target decode to these texts.
/// Slashes at the end of a path, as directories have one, are left out.
pub open spec fn entry_of(row: RowView, name: Seq<char>, target: Seq<char>) -> EntryView {
    EntryView {
        path_raw: row.path,
        path: text::without_trailing(name, '/'),
        kind: if row.is_symlink {
            KindView::Symlink(target)
        } else if row.is_dir {
            KindView::Dir
        } else {
            KindView::File
        },
        size: row.size,
        mode: row.mode,
        is_encrypted: false,
        modified: match row.mtime {
            Some(s) => Some(Stamp::Instant(datetime::at_second(s as int))),
            None => None,
        },
        is_resource_fork: false,
    }
}

/// The listing of an archive: all paths are decoded in one encoding, and so are
/// all link targets.
pub open spec fn listing_of(rows: Seq<RowView>, label: Option<Seq<char>>) -> Seq<EntryView> {
    let names = encoding::decoded_names(raw_paths(rows), label);
    let targets = encoding::decoded_names(raw_targets(rows), label);
    Seq::new(rows.len(), |i: int| entry_of(rows[i], names[i], targets[i]))
}

/// Make entries of the members.
pub fn build_entries(rows: &Vec<TarRow>, opts: &OpenOptions) -> (r: Vec<Entry>)
    ensures
        archive::views(r@) == listing_of(row_views(rows@), text::opt_string(opts.encoding_override)),
{
    let ghost all = row_views(rows@);
    let ghost label = text::opt_string(opts.encoding_override);
    let mut paths: Vec<Vec<u8>> = Vec::new();
    let mut links: Vec<Vec<u8>> = Vec::new();
    let mut i: usize = 0;
    while i < rows.len()
        invariant
            i <= rows.len(),
            all == row_views(rows@),
            paths.len() == i,
            links.len() == i,
            forall|k: int| 0 <= k < i ==> (#[trigger] paths@[k])@ == raw_paths(all)[k],
            forall|k: int| 0 <= k < i ==> (#[trigger] links@[k])@ == raw_targets(all)[k],
        decreases rows.len() - i,
    {
        let row = &rows[i];
        assert(all[i as int] == row@);
        paths.push(copy_bytes(row.path.as_slice()));
        let link: Vec<u8> = match &row.link {
            Some(l) => if row.is_symlink {
                copy_bytes(l.as_slice())
            } else {
                Vec::new()
            },
            None => Vec::new(),
        };
        assert(link@ =~= raw_target(row@));
        links.push(link);
        i = i + 1;
    }
    assert(encoding::raw_views(paths@) =~= raw_paths(all));
    assert(encoding::raw_views(links@) =~= raw_targets(all));
    let names = decode_names(paths.as_slice(), opts.label());
    let targets = decode_names(links.as_slice(), opts.label());
    let ghost want = listing_of(all, label);
    let mut entries: Vec<Entry> = Vec::new();
    let mut j: usize = 0;
    while j < rows.len()
        invariant
            j <= rows.len(),
            all == row_views(rows@),
            want == listing_of(all, label),
            encoding::text_views(names@) == encoding::decoded_names(raw_paths(all), label),
            encoding::text_views(targets@) == encoding::decoded_names(raw_targets(all), label),
            names.len() == rows.len(),
            targets.len() == rows.len(),
            entries.len() == j,
            forall|k: int| 0 <= k < j ==> (#[trigger] entries@[k])@ == want[k],
        decreases rows.len() - j,
    {
        let row = &rows[j];
        proof {
            assert(all[j as int] == row@);
            assert(encoding::text_views(names@)[j as int] == names@[j as int]@);
            assert(encoding::text_views(targets@)[j as int] == targets@[j as int]@);
        }
        let kind = if row.is_symlink {
            EntryKind::Symlink { target: crate::text::copy_text(targets[j].as_str()) }
        } else if row.is_dir {
            EntryKind::Dir
        } else {
            EntryKind::File
        };
        let chars = chars_of(names[j].as_str());
        let kept = trim_end_char(chars.as_slice(), '/');
        entries.push(
            Entry {
                path_raw: copy_bytes(row.path.as_slice()),
                path: string_of(kept.as_slice()),
                kind,
                size: row.size,
                mode: row.mode,
                is_encrypted: false,
                modified: match row.mtime {
                    Some(s) => Some(Stamp::Instant(Timestamp { secs: s as i128, nanos: 0 })),
                    None => None,
                },
                is_resource_fork: false,
            },
        );
        j = j + 1;
    }
    assert(archive::views(entries@) =~= want);
    entries
}

/// Where the body of an entry is looked for.
#[derive(Debug, Clone, Copy, PartialEq, Eq, Structural)]
pub enum Backing {
    /// In a file: a body that reaches past its end is cut there.
    File,
    /// In memory: a body that reaches past the end is damage.
    Buffer,
}

/// The body of a member in an archive's bytes.
pub open spec fn body_of(data: Seq<u8>, backing: Backing, offset: int, size: int) -> Result<Seq<u8>, ErrorView> {
    let len = data.len() as int;
    match backing {
        Backing::File => {
            let start = if offset < len { offset } else { len };
            let end = if offset + size < len { offset + size } else { len };
            Ok(data.subrange(start, end))
        },
        Backing::Buffer => if offset + size > u64::MAX {
            Err(ErrorView::Corrupt("tar entry size arithmetic overflow"@))
        } else if offset + size > len {
            Err(ErrorView::Corrupt("tar entry size exceeds archive data"@))
        } else {
            Ok(data.subrange(offset, offset + size))
        },
    }
}

/// The bodies of the members in an archive's bytes.
pub open spec fn bodies_of(data: Seq<u8>, backing: Backing, rows: Seq<RowView>) -> Seq<Result<Seq<u8>, ErrorView>> {
    rows.map_values(|r: RowView| body_of(data, backing, r.offset as int, r.size as int))
}

fn read_body(data: &[u8], backing: Backing, offset: u64, size: u64) -> (r: Result<Vec<u8>, Error>)
    ensures
        crate::archive::body_view(r) == body_of(data@, backing, offset as int, size as int),
{
    let len: u64 = data.len() as u64;
    match backing {
        Backing::File => {
            let start: u64 = if offset < len {
                offset
            } else {
                len
            };
            let end: u64 = if size < len - start {
                start + size
            } else {
                len
            };
            Ok(copy_range(data, start as usize, end as usize))
        },
        Backing::Buffer => {
            if size > u64::MAX - offset {
                return Err(corrupt("tar entry size arithmetic overflow"));
            }
            if offset + size > len {
                return Err(corrupt("tar entry size exceeds archive data"));
            }
            Ok(copy_range(data, offset as usize, (offset + size) as usize))
        },
    }
}

/// An opened tape archive.
#[derive(Debug)]
pub struct TarReader {
    data: Vec<u8>,
    backing: Backing,
    entries: Vec<Entry>,
    offsets: Vec<u64>,
}

impl TarReader {
    #[verifier::type_invariant]
    spec fn wf(self) -> bool {
        self.entries.len() == self.offsets.len()
    }

    /// The bodies of the entries.
    closed spec fn bodies(&self) -> Seq<Result<Seq<u8>, ErrorView>> {
        Seq::new(
            self.entries@.len(),
            |i: int| body_of(self.data@, self.backing, self.offsets@[i] as int, self.entries@[i].size as int),
        )
    }
}

impl ArchiveReader for TarReader {
    open spec fn spec_format(&self) -> FormatId {
        FormatId::Tar
    }

    closed spec fn listing(&self) -> Seq<EntryView> {
        archive::views(self.entries@)
    }

    closed spec fn body(&self, idx: int) -> Result<Seq<u8>, ErrorView> {
        archive::body_at(self.bodies(), idx)
    }

    fn format(&self) -> (r: FormatId) {
        FormatId::Tar
    }

    fn entries(&self) -> (r: &Vec<Entry>) {
        &self.entries
    }

    fn read_entry(&self, idx: usize) -> (r: Result<Vec<u8>, Error>) {
        proof {
            use_type_invariant(self);
        }
        if idx >= self.entries.len() {
            return Err(Error::InvalidIndex(idx));
        }
        read_body(self.data.as_slice(), self.backing, self.offsets[idx], self.entries[idx].size)
    }

    fn verify_password(&self) -> (r: Result<(), Error>) {
        Ok(())
    }
}

impl BatchReader for TarReader {
    fn read_entries<S: EntrySink>(&self, indices: &[usize], sink: &mut S) -> (r: Result<(), Error>) {
        read_entries_one_by_one(self, indices, sink)
    }
}

/// Make a reader of an archive's bytes and its members.
pub fn build_reader(data: Vec<u8>, backing: Backing, rows: Vec<TarRow>, opts: &OpenOptions) -> (r: TarReader)
    ensures
        archive::presents(
            &r,
            FormatId::Tar,
            listing_of(row_views(rows@), text::opt_string(opts.encoding_override)),
            bodies_of(data@, backing, row_views(rows@)),
        ),
{
    let ghost all = row_views(rows@);
    let ghost label = text::opt_string(opts.encoding_override);
    let entries = build_entries(&rows, opts);
    proof {
        assert(archive::views(entries@).len() == entries@.len());
    }
    let mut offsets: Vec<u64> = Vec::new();
    let mut i: usize = 0;
    while i < rows.len()
        invariant
            i <= rows.len(),
            offsets.len() == i,
            forall|k: int| 0 <= k < i ==> #[trigger] offsets@[k] == rows@[k].offset,
        decreases rows.len() - i,
    {
        offsets.push(rows[i].offset);
        i = i + 1;
    }
    let r = TarReader { data, backing, entries, offsets };
    proof {
        assert forall|k: int| 0 <= k < all.len() implies #[trigger] r.bodies()[k] == bodies_of(data@, backing, all)[k] by {
            assert(archive::views(entries@)[k] == entries@[k]@);
            assert(listing_of(all, label)[k].size == all[k].size);
        }
        assert(r.bodies() =~= bodies_of(data@, backing, all));
    }
    r
}

/// What an archive of these bytes shows, or why it cannot be read.
pub open spec fn opened(data: Seq<u8>, backing: Backing, label: Option<Seq<char>>) -> Result<
    (Seq<EntryView>, Seq<Result<Seq<u8>, ErrorView>>),
    ErrorView,
> {
    match members(data) {
        Err((kind, message)) => Err(error::io_error_view(kind, message)),
        Ok(rows) => Ok((listing_of(rows, label), bodies_of(data, backing, rows))),
    }
}

/// Where the bodies of an archive from this source are looked for: in the file,
/// if the source can be read at any place and has a path.
pub open spec fn backing_of(src: Source) -> Backing {
    if src is Seekable && src.spec_path() is Some {
        Backing::File
    } else {
        Backing::Buffer
    }
}

/// Reads tape archives.
#[derive(Debug, Clone, Copy)]
pub struct TarHandler;

impl FormatHandler for TarHandler {
    open spec fn spec_id(&self) -> FormatId {
        FormatId::Tar
    }

    open spec fn spec_probe(&self, header: Seq<u8>, name: Option<Seq<char>>) -> Confidence {
        archive::magic_when(shows_tar(header))
    }

    fn id(&self) -> (r: FormatId) {
        FormatId::Tar
    }

    fn probe(&self, header: &[u8], name: Option<&str>) -> (r: Confidence) {
        Confidence::magic_if(has_tar_magic(header))
    }
}

/// The outcome of opening an archive.
pub open spec fn opens(r: Result<TarReader, Error>, src: Source, opts: &OpenOptions) -> bool {
    match opened(src.content(), backing_of(src), text::opt_string(opts.encoding_override)) {
        Err(e) => error::fails_with(r, e),
        Ok(shown) => r matches Ok(reader) && archive::presents(&reader, FormatId::Tar, shown.0, shown.1),
    }
}

impl TarHandler {
    /// Open a tape archive.
    pub fn open(&self, src: Source, opts: &OpenOptions) -> (r: Result<TarReader, Error>)
        ensures
            opens(r, src, opts),
    {
        let backing = match &src {
            Source::Seekable { path: Some(_), .. } => Backing::File,
            _ => Backing::Buffer,
        };
        let data = src.read_all();
        match list_checked(data.as_slice()) {
            Err(e) => Err(io_err_to_corrupt(e)),
            Ok(rows) => Ok(build_reader(data, backing, rows, opts)),
        }
    }
}

/// Where the bytes of an archive are kept makes no difference to a body that
/// lies in them: whatever memory yields, a file yields too.
pub proof fn backings_agree(data: Seq<u8>, offset: int, size: int)
    requires
        0 <= offset,
        0 <= size,
        body_of(data, Backing::Buffer, offset, size) is Ok,
    ensures
        body_of(data, Backing::File, offset, size) == body_of(data, Backing::Buffer, offset, size),
{
}

/// A body that lies whole in the archive is read as it lies there, from a file and from
/// memory. Of one that reaches past the end a file gives what is left, and memory nothing.
pub proof fn bodies_are_read_where_they_lie(before: Seq<u8>, body: Seq<u8>, behind: Seq<u8>, more: int)
    requires
        before.len() + body.len() + behind.len() + more <= u64::MAX,
        more > 0,
    ensures
        body_of(before + body + behind, Backing::File, before.len() as int, body.len() as int) == Ok::<Seq<u8>, ErrorView>(body),
        body_of(before + body + behind, Backing::Buffer, before.len() as int, body.len() as int) == Ok::<Seq<u8>, ErrorView>(
            body,
        ),
        body_of(before + body, Backing::File, before.len() as int, body.len() + more) == Ok::<Seq<u8>, ErrorView>(body),
        body_of(before + body, Backing::Buffer, before.len() as int, body.len() + more) is Err,
{
    let all = before + body + behind;
    assert(all.subrange(before.len() as int, before.len() as int + body.len() as int) =~= body);
    let cut = before + body;
    assert(cut.subrange(before.len() as int, cut.len() as int) =~= body);
}

/// A member is listed under its name without slashes behind, as a link, a directory or a
/// file, with the size, the mode and the time of its header.
pub proof fn members_are_listed_as_they_are(row: RowView, core: Seq<char>, slashes: nat, target: Seq<char>)
    requires
        core.len() == 0 || core.last() != '/',
    ensures
        ({
            let e = entry_of(row, core + Seq::new(slashes, |k: int| '/'), target);
            &&& e.path == core
            &&& e.path_raw == row.path
            &&& row.is_symlink ==> e.kind == KindView::Symlink(target)
            &&& !row.is_symlink && row.is_dir ==> e.kind == KindView::Dir
            &&& !row.is_symlink && !row.is_dir ==> e.kind == KindView::File
            &&& e.size == row.size
            &&& e.mode == row.mode
            &&& row.mtime is None ==> e.modified is None
            &&& row.mtime matches Some(s) ==> (e.modified matches Some(Stamp::Instant(t)) && t.secs == s && t.nanos == 0)
        }),
{
    text::run_at_end_is_dropped(core, '/', slashes);
}

} // verus!
