//! 7z archives.
use sevenz_rust2::Error as SevenZError;
use vstd::prelude::*;
use vstd::utf8;

use crate::archive;
use crate::bytes;
use crate::datetime;
use crate::delivery;
use crate::encoding;
use crate::error;
use crate::text;
use crate::archive::KindView;
use crate::archive::{ArchiveReader, BatchReader, Confidence, Entry, EntryKind, EntrySink, EntryView, FormatHandler};
use crate::archive::{FormatId, OpenOptions, SinkEvent, Source};
use crate::bytes::{copy_bytes, le_u32, le_u64, same_bytes, starts_with, trim_end};
use crate::datetime::{filetime_to_systime, Stamp};
use crate::delivery::{deliver_all, Delivery};
use crate::delivery::{DeliveryView, Task};
use crate::encoding::decode_names;
use crate::error::{corrupt, io_error, unsupported, Error, ErrorView, IoError, IoKind};
use crate::text::{same_text, copy_text, decimal_text, join2};

verus! {

pub const SEVENZ_MAGIC: [u8; 6] = [0x37, 0x7A, 0xBC, 0xAF, 0x27, 0x1C];

/// The length of the signature header.
pub const SIGNATURE_LEN: usize = 32;

/// The longest link target that is taken from an archive.
pub const MAX_SYMLINK_TARGET: usize = 4096;

/// The id of the cipher, as coders name it.
pub const AES256_SHA256: [u8; 4] = [0x06, 0xF1, 0x07, 0x01];

/// What `flate2::Crc` makes of some bytes.
pub uninterp spec fn crc32(bytes: Seq<u8>) -> u32;

/// `flate2::Crc`: a fresh checksum, updated with the bytes, has a sum that
/// depends on the bytes alone.
#[verifier::external_body]
fn crc32_of(bytes: &[u8]) -> (r: u32)
    ensures
        r == crc32(bytes@),
{
    let mut crc = flate2::Crc::new();
    crc.update(bytes);
    crc.sum()
}

/// What is wrong with a signature header, if anything is: it must be whole, its
/// checksum must be right, and the header that it points to must lie in the file.
pub open spec fn signature_fault(data: Seq<u8>) -> Option<ErrorView> {
    if data.len() < SIGNATURE_LEN {
        Some(ErrorView::Corrupt("7z: truncated signature header"@))
    } else if crc32(data.subrange(12, 32)) != bytes::le32(data, 8) {
        Some(ErrorView::Corrupt("7z: bad start-header CRC"@))
    } else if SIGNATURE_LEN + bytes::le64(data, 12) + bytes::le64(data, 20) > data.len() {
        Some(ErrorView::Corrupt("7z: next-header region exceeds file size"@))
    } else {
        None
    }
}

/// Check the signature header of an archive.
pub fn validate_7z_header(data: &[u8]) -> (r: Result<(), Error>)
    ensures
        match signature_fault(data@) {
            None => r is Ok,
            Some(e) => error::fails_with(r, e),
        },
{
    if data.len() < SIGNATURE_LEN {
        return Err(corrupt("7z: truncated signature header"));
    }
    let covered: &[u8] = &data[12..32];
    assert(covered@ =~= data@.subrange(12, 32));
    if crc32_of(covered) != le_u32(data, 8) {
        return Err(corrupt("7z: bad start-header CRC"));
    }
    let next_off: u64 = le_u64(data, 12);
    let next_size: u64 = le_u64(data, 20);
    let room: u64 = (data.len() - SIGNATURE_LEN) as u64;
    if next_off > room || next_size > room - next_off {
        return Err(corrupt("7z: next-header region exceeds file size"));
    }
    Ok(())
}

/// A file as the header lists it.
#[derive(Debug)]
pub struct FileRow {
    pub name: String,
    pub has_stream: bool,
    pub is_directory: bool,
    pub size: u64,
    /// The attributes, if there are any.
    pub attributes: Option<u32>,
    /// The time of the last change in ticks of 100 ns, if there is one.
    pub modified: Option<u64>,
}

/// A `FileRow` with its name as a sequence of characters.
pub struct FileRowView {
    pub name: Seq<char>,
    pub has_stream: bool,
    pub is_directory: bool,
    pub size: u64,
    pub attributes: Option<u32>,
    pub modified: Option<u64>,
}

impl View for FileRow {
    type V = FileRowView;

    open spec fn view(&self) -> FileRowView {
        FileRowView {
            name: self.name@,
            has_stream: self.has_stream,
            is_directory: self.is_directory,
            size: self.size,
            attributes: self.attributes,
            modified: self.modified,
        }
    }
}

/// A block: `count` files from `first` on, packed as one stream.
#[derive(Debug)]
pub struct BlockRow {
    /// The ids of the methods that its coders use.
    pub methods: Vec<Vec<u8>>,
    pub first: Option<usize>,
    pub count: usize,
}

/// A `BlockRow` with its ids as sequences.
pub struct BlockRowView {
    pub methods: Seq<Seq<u8>>,
    pub first: Option<int>,
    pub count: int,
}

impl View for BlockRow {
    type V = BlockRowView;

    open spec fn view(&self) -> BlockRowView {
        BlockRowView {
            methods: self.methods@.map_values(|m: Vec<u8>| m@),
            first: match self.first {
                Some(f) => Some(f as int),
                None => None,
            },
            count: self.count as int,
        }
    }
}

/// The header of an archive.
#[derive(Debug)]
pub struct Header {
    pub files: Vec<FileRow>,
    pub blocks: Vec<BlockRow>,
    /// For each file the block it lies in, if it has a body.
    pub file_block: Vec<Option<usize>>,
}

/// A `Header` with its lists as sequences.
pub struct HeaderView {
    pub files: Seq<FileRowView>,
    pub blocks: Seq<BlockRowView>,
    pub file_block: Seq<Option<usize>>,
}

impl View for Header {
    type V = HeaderView;

    open spec fn view(&self) -> HeaderView {
        HeaderView {
            files: self.files@.map_values(|f: FileRow| f@),
            blocks: self.blocks@.map_values(|b: BlockRow| b@),
            file_block: self.file_block@,
        }
    }
}

/// The lists of a header fit each other.
pub open spec fn consistent(h: HeaderView) -> bool {
    &&& h.file_block.len() == h.files.len()
    &&& forall|b: int| 0 <= b < h.blocks.len() ==> 0 <= (#[trigger] h.blocks[b]).count
    &&& forall|b: int|
        0 <= b < h.blocks.len() ==> ((#[trigger] h.blocks[b]).first matches Some(first) ==> 0 <= first && first
            + h.blocks[b].count <= h.files.len())
    &&& forall|i: int| 0 <= i < h.file_block.len() ==> ((#[trigger] h.file_block[i]) matches Some(b) ==> b < h.blocks.len())
    &&& forall|i: int, j: int|
        #![trigger home(h, i), h.file_block[j]]
        0 <= i < h.files.len() ==> (home(h, i) matches Some(b) ==> (in_block(h.blocks[b], j) ==> h.file_block[j]
            == h.file_block[i]))
}

/// The block is where this file would lie.
pub open spec fn in_block(b: BlockRowView, idx: int) -> bool {
    b.first matches Some(first) && first <= idx < first + b.count
}

/// The failures of the unpacker that are told apart.
#[derive(Debug)]
pub enum Failure {
    PasswordRequired,
    MaybeBadPassword,
    Checksum,
    Io(IoError),
    Other(String),
}

/// A `Failure` with its texts as sequences of characters.
pub enum FailureView {
    PasswordRequired,
    MaybeBadPassword,
    Checksum,
    Io(IoKind, Seq<char>),
    Other(Seq<char>),
}

impl View for Failure {
    type V = FailureView;

    open spec fn view(&self) -> FailureView {
        match *self {
            Failure::PasswordRequired => FailureView::PasswordRequired,
            Failure::MaybeBadPassword => FailureView::MaybeBadPassword,
            Failure::Checksum => FailureView::Checksum,
            Failure::Io(e) => FailureView::Io(e.kind, e.message@),
            Failure::Other(m) => FailureView::Other(m@),
        }
    }
}

/// The unpacker's own error.
#[verifier::external_type_specification]
#[verifier::external_body]
pub struct ExSevenZError(SevenZError);

/// Tells the variants of `sevenz_rust2::Error` apart; what none of the others
/// takes is kept as its text. Nothing is claimed of the result.
#[verifier::external_body]
fn failure(e: SevenZError) -> (r: Failure) {
    match e {
        SevenZError::PasswordRequired => Failure::PasswordRequired,
        SevenZError::MaybeBadPassword(_) => Failure::MaybeBadPassword,
        SevenZError::ChecksumVerificationFailed => Failure::Checksum,
        SevenZError::Io(io, _) => Failure::Io(io_error(io)),
        other => Failure::Other(other.to_string()),
    }
}

/// How a failure of the unpacker is reported.
pub open spec fn failure_error(f: FailureView) -> ErrorView {
    match f {
        FailureView::PasswordRequired => ErrorView::Encrypted,
        FailureView::MaybeBadPassword => ErrorView::WrongPassword,
        FailureView::Checksum => ErrorView::WrongPassword,
        FailureView::Io(kind, message) => ErrorView::Io { kind, message },
        FailureView::Other(m) => ErrorView::Corrupt(m),
    }
}

/// A failure of the unpacker as an error of this library.
pub fn map_7z_err(f: Failure) -> (r: Error)
    ensures
        r@ == failure_error(f@),
{
    match f {
        Failure::PasswordRequired => Error::Encrypted,
        Failure::MaybeBadPassword => Error::WrongPassword,
        Failure::Checksum => Error::WrongPassword,
        Failure::Io(e) => Error::Io(e),
        Failure::Other(m) => Error::Corrupt(m),
    }
}

/// The files that `sevenz_rust2::Archive::read` finds in some bytes with a
/// password, and for each the block it lies in.
pub uninterp spec fn archive_files(data: Seq<u8>, password: Seq<char>) -> Result<
    (Seq<FileRowView>, Seq<Option<usize>>),
    FailureView,
>;

/// The blocks that `sevenz_rust2::Archive::read` finds in some bytes with a
/// password.
pub uninterp spec fn archive_blocks(data: Seq<u8>, password: Seq<char>) -> Result<Seq<BlockRowView>, FailureView>;

/// The header of an archive: its files and its blocks.
pub open spec fn archive_header(data: Seq<u8>, password: Seq<char>) -> Result<HeaderView, FailureView> {
    match archive_files(data, password) {
        Err(f) => Err(f),
        Ok((files, file_block)) => match archive_blocks(data, password) {
            Err(f) => Err(f),
            Ok(blocks) => Ok(HeaderView { files, blocks, file_block }),
        },
    }
}

/// The files of an archive as their model.
pub open spec fn files_result(r: Result<(Vec<FileRow>, Vec<Option<usize>>), Failure>) -> Result<
    (Seq<FileRowView>, Seq<Option<usize>>),
    FailureView,
> {
    match r {
        Ok((files, file_block)) => Ok((files@.map_values(|f: FileRow| f@), file_block@)),
        Err(f) => Err(f@),
    }
}

/// The blocks of an archive as their model.
pub open spec fn blocks_result(r: Result<Vec<BlockRow>, Failure>) -> Result<Seq<BlockRowView>, FailureView> {
    match r {
        Ok(blocks) => Ok(blocks@.map_values(|b: BlockRow| b@)),
        Err(f) => Err(f@),
    }
}

/// A parsed header as its model.
pub open spec fn header_result(r: Result<Header, Failure>) -> Result<HeaderView, FailureView> {
    match r {
        Ok(h) => Ok(h@),
        Err(f) => Err(f@),
    }
}

/// `sevenz_rust2::Archive::read`: the files, and the block of each, depend on the
/// bytes and the password alone, an empty password being none.
#[verifier::external_body]
fn read_files(data: &[u8], password: &str) -> (r: Result<(Vec<FileRow>, Vec<Option<usize>>), Failure>)
    ensures
        files_result(r) == archive_files(data@, password@),
{
    let (mut source, key) = (std::io::Cursor::new(data), sevenz_rust2::Password::new(password));
    let a = sevenz_rust2::Archive::read(&mut source, &key).map_err(failure)?;
    let files = a.files.iter().map(|f| FileRow {
        name: f.name.clone(),
        has_stream: f.has_stream,
        is_directory: f.is_directory,
        size: f.size,
        attributes: f.has_windows_attributes.then_some(f.windows_attributes),
        modified: f.has_last_modified_date.then_some(f.last_modified_date.into()),
    });
    Ok((files.collect(), a.stream_map.file_block_index.clone()))
}

/// `sevenz_rust2::Archive::read`: the blocks depend on the bytes and the password
/// alone, an empty password being none. They fit the files: no block reaches past
/// the last file, and the files of a block in which one is at home are all laid
/// to it. Where the archive has no list of files, no block has a first one.
#[verifier::external_body]
fn read_blocks(data: &[u8], password: &str) -> (r: Result<Vec<BlockRow>, Failure>)
    ensures
        blocks_result(r) == archive_blocks(data@, password@),
        r is Ok && archive_files(data@, password@) is Ok ==> consistent(
            HeaderView {
                files: archive_files(data@, password@)->Ok_0.0,
                blocks: blocks_result(r)->Ok_0,
                file_block: archive_files(data@, password@)->Ok_0.1,
            },
        ),
{
    let (mut source, key) = (std::io::Cursor::new(data), sevenz_rust2::Password::new(password));
    let a = sevenz_rust2::Archive::read(&mut source, &key).map_err(failure)?;
    Ok(a.blocks.iter().enumerate().map(|(b, block)| BlockRow {
        methods: block.coders.iter().map(|c| c.encoder_method_id().to_vec()).collect(),
        first: a.stream_map.block_first_file_index.get(b).copied(),
        count: sevenz_rust2::BlockDecoder::new(1, b, &a, &key, &mut source).entry_count(),
    }).collect())
}

/// Read the header of an archive.
fn read_archive(data: &[u8], password: &str) -> (r: Result<Header, Failure>)
    ensures
        header_result(r) == archive_header(data@, password@),
        r is Ok ==> consistent(r->Ok_0@),
{
    let (files, file_block) = match read_files(data, password) {
        Err(f) => {
            return Err(f);
        },
        Ok(found) => found,
    };
    match read_blocks(data, password) {
        Err(f) => Err(f),
        Ok(blocks) => Ok(Header { files, blocks, file_block }),
    }
}

/// What can be read of a body, and why the rest cannot.
pub type Unpacked = (Vec<u8>, Option<IoError>);

/// What reading the files of a block comes to, in their order.
pub open spec fn unpacked_view(r: Result<Vec<Unpacked>, Failure>) -> Result<
    Seq<(Seq<u8>, Option<(IoKind, Seq<char>)>)>,
    FailureView,
> {
    match r {
        Ok(v) => Ok(v@.map_values(|u: Unpacked| body_of(u))),
        Err(f) => Err(f@),
    }
}

/// One body as its model.
pub open spec fn body_of(u: Unpacked) -> (Seq<u8>, Option<(IoKind, Seq<char>)>) {
    (
        u.0@,
        match u.1 {
            Some(e) => Some((e.kind, e.message@)),
            None => None,
        },
    )
}

/// What `sevenz_rust2::BlockDecoder::for_each_entries` yields for a block.
pub uninterp spec fn block_bodies(data: Seq<u8>, password: Seq<char>, block: int) -> Result<
    Seq<(Seq<u8>, Option<(IoKind, Seq<char>)>)>,
    FailureView,
>;

/// `sevenz_rust2::BlockDecoder::for_each_entries`: one body for each file of the
/// block, each read to its end or to the first failure. The result depends on
/// the bytes, the password and the block alone. It panics on a block without
/// packed bytes, which no block is that a file is at home in.
#[verifier::external_body]
fn unpack_block(data: &[u8], password: &str, block: usize) -> (r: Result<Vec<Unpacked>, Failure>)
    requires
        archive_header(data@, password@) is Ok,
        exists|i: int|
            0 <= i < archive_header(data@, password@)->Ok_0.files.len() && #[trigger] home(
                archive_header(data@, password@)->Ok_0,
                i,
            ) == Some(block as int),
    ensures
        unpacked_view(r) == block_bodies(data@, password@, block as int),
        r is Ok ==> r->Ok_0@.len() == archive_header(data@, password@)->Ok_0.blocks[block as int].count,
{
    let (mut source, key) = (std::io::Cursor::new(data), sevenz_rust2::Password::new(password));
    let a = sevenz_rust2::Archive::read(&mut source, &key).map_err(failure)?;
    let mut out: Vec<Unpacked> = Vec::new();
    let decoder = sevenz_rust2::BlockDecoder::new(1, block, &a, &key, &mut source);
    decoder.for_each_entries(&mut |_, body| {
        let mut bytes = Vec::new();
        let end = body.read_to_end(&mut bytes);
        let _ = std::io::copy(body, &mut std::io::sink());
        out.push((bytes, end.err().map(io_error)));
        Ok(true)
    }).map_err(failure)?;
    Ok(out)
}

/// An archive: its bytes, the password it is opened with, and its header.
pub struct ArchiveView {
    pub data: Seq<u8>,
    pub password: Seq<char>,
    pub header: HeaderView,
}

/// How a body that nobody wants fails the pass: with a password at hand, the
/// password is suspected.
pub open spec fn drain_error(password: Seq<char>, e: (IoKind, Seq<char>)) -> ErrorView {
    if password.len() > 0 {
        ErrorView::WrongPassword
    } else {
        ErrorView::Io { kind: e.0, message: e.1 }
    }
}

/// The delivery of a file of a block.
pub open spec fn file_delivery(password: Seq<char>, idx: int, body: (Seq<u8>, Option<(IoKind, Seq<char>)>)) -> DeliveryView {
    DeliveryView {
        idx,
        body: body.0,
        failure: match body.1 {
            Some(e) => Some(ErrorView::Io { kind: e.0, message: e.1 }),
            None => None,
        },
        drain: match body.1 {
            Some(e) => Some(drain_error(password, e)),
            None => None,
        },
    }
}

/// One pass through a block whose files from `at` on have these bodies: the
/// wanted files are handed out, the others are passed over.
pub open spec fn block_tasks(
    password: Seq<char>,
    bodies: Seq<(Seq<u8>, Option<(IoKind, Seq<char>)>)>,
    at: int,
    wanted: Seq<usize>,
) -> Seq<Task>
    decreases bodies.len(),
{
    if bodies.len() == 0 || wanted.len() == 0 {
        Seq::empty()
    } else if wanted[0] != at {
        match bodies[0].1 {
            Some(e) => seq![Task::Fail(drain_error(password, e))],
            None => block_tasks(password, bodies.skip(1), at + 1, wanted),
        }
    } else {
        seq![Task::Entry(file_delivery(password, at, bodies[0]))] + block_tasks(
            password,
            bodies.skip(1),
            at + 1,
            wanted.skip(1),
        )
    }
}

/// How many of the indices, from the first on, lie in a range.
pub open spec fn run_length(indices: Seq<usize>, from: int, to: int) -> int
    decreases indices.len(),
{
    if indices.len() > 0 && from <= indices[0] < to {
        1 + run_length(indices.skip(1), from, to)
    } else {
        0
    }
}

/// A run is no longer than the list.
pub proof fn run_is_within(indices: Seq<usize>, from: int, to: int)
    ensures
        0 <= run_length(indices, from, to) <= indices.len(),
    decreases indices.len(),
{
    if indices.len() > 0 && from <= indices[0] < to {
        run_is_within(indices.skip(1), from, to);
    }
}

/// The block that holds a file, if one does.
pub open spec fn home(h: HeaderView, idx: int) -> Option<int> {
    match h.file_block[idx] {
        Some(b) if in_block(h.blocks[b as int], idx) => Some(b as int),
        _ => None,
    }
}

/// The delivery of a file without a body. A file that claims one fails.
pub open spec fn bodiless(h: HeaderView, idx: int) -> DeliveryView {
    DeliveryView {
        idx,
        body: Seq::empty(),
        failure: if h.files[idx].has_stream && h.files[idx].size > 0 {
            Some(
                ErrorView::Corrupt(
                    "7z: entry "@ + text::decimal(idx as nat) + " claims data but lies outside its block"@,
                ),
            )
        } else {
            None
        },
        drain: None,
    }
}

/// What a pass over `indices` does: block by block, each block unpacked once. A
/// block never holds other files than it lists.
pub open spec fn plan(a: ArchiveView, indices: Seq<usize>) -> Seq<Task>
    decreases indices.len(),
{
    if indices.len() == 0 {
        Seq::empty()
    } else {
        let idx = indices[0] as int;
        if idx >= a.header.files.len() {
            seq![Task::Fail(ErrorView::InvalidIndex(idx))]
        } else {
            match home(a.header, idx) {
                None => seq![Task::Entry(bodiless(a.header, idx))] + plan(a, indices.skip(1)),
                Some(b) => {
                    let first = a.header.blocks[b].first->0;
                    let n = run_length(indices, first, first + a.header.blocks[b].count);
                    match block_bodies(a.data, a.password, b) {
                        Err(f) => seq![Task::Fail(failure_error(f))],
                        Ok(bodies) => if 0 < n <= indices.len() && bodies.len() == a.header.blocks[b].count {
                            block_tasks(a.password, bodies, first, indices.take(n)) + plan(a, indices.skip(n))
                        } else {
                            seq![Task::Fail(ErrorView::Corrupt("7z: a block holds other files than it lists"@))]
                        },
                    }
                },
            }
        }
    }
}

/// The next part of a pass: prepared deliveries, the failure behind them, and
/// where the indices go on.
struct Part {
    deliveries: Vec<Delivery>,
    failure: Option<Error>,
    next: usize,
}

/// Prepare the wanted files of an unpacked block.
fn decode_block(password: &str, unpacked: Vec<Unpacked>, first: usize, wanted: &[usize]) -> (r: (Vec<Delivery>, Option<Error>))
    requires
        first + unpacked.len() <= usize::MAX,
    ensures
        delivery::tasks_of(r.0@, r.1) == block_tasks(password@, unpacked@.map_values(|u: Unpacked| body_of(u)), first as int, wanted@),
{
    let has_password = !same_text(password, "");
    proof {
        reveal_strlit("");
        assert(has_password == (password@.len() > 0)) by {
            if password@.len() == 0 {
                assert(password@ =~= ""@);
            }
        }
    }
    let ghost all = unpacked@.map_values(|u: Unpacked| body_of(u));
    let ghost whole = block_tasks(password@, all, first as int, wanted@);
    let mut out: Vec<Delivery> = Vec::new();
    let none: Option<Error> = None;
    let mut bodies = unpacked;
    let count: usize = bodies.len();
    let mut k: usize = 0;
    let mut next: usize = 0;
    proof {
        assert(all.skip(0) =~= all);
        assert(wanted@.skip(0) =~= wanted@);
        assert(delivery::tasks_of(out@, none) + whole =~= whole);
    }
    while k < count && next < wanted.len()
        invariant
            k <= count,
            next <= wanted.len(),
            count == all.len(),
            all == unpacked@.map_values(|u: Unpacked| body_of(u)),
            bodies.len() == count,
            first + count <= usize::MAX,
            none is None,
            has_password == (password@.len() > 0),
            forall|i: int| k <= i < count ==> body_of(#[trigger] bodies@[i]) == all[i],
            whole == block_tasks(password@, all, first as int, wanted@),
            whole == delivery::tasks_of(out@, none) + block_tasks(password@, all.skip(k as int), first + k, wanted@.skip(next as int)),
        decreases count - k,
    {
        let ghost rest = all.skip(k as int);
        let ghost left = wanted@.skip(next as int);
        let ghost before = out@;
        proof {
            assert(rest[0] == all[k as int]);
            assert(rest.skip(1) =~= all.skip(k + 1));
            assert(left[0] == wanted@[next as int]);
            assert(body_of(bodies@[k as int]) == all[k as int]);
        }
        let mut taken: Unpacked = (Vec::new(), None);
        bodies.set_and_swap(k, &mut taken);
        let (bytes, end) = taken;
        if wanted[next] != first + k {
            if let Some(e) = end {
                let ghost shown = (e.kind, e.message@);
                let why = if has_password { Error::WrongPassword } else { Error::Io(e) };
                proof {
                    assert(rest[0].1 == Some(shown));
                    assert(why@ == drain_error(password@, shown));
                    assert(block_tasks(password@, rest, first + k, left) == seq![Task::Fail(why@)]);
                    assert(delivery::tasks_of(before, none) + seq![Task::Fail(why@)] =~= delivery::tasks_of(out@, Some(why)));
                }
                return (out, Some(why));
            }
        } else {
            let (failure, drain) = match end {
                Some(e) => {
                    let io = Error::Io(e);
                    let d = if has_password { Error::WrongPassword } else { io.copy() };
                    (Some(io), Some(d))
                },
                None => (None, None),
            };
            let d = Delivery { idx: first + k, body: bytes, failure, drain };
            out.push(d);
            next = next + 1;
            proof {
                let t = Task::Entry(d@);
                assert(left.skip(1) =~= wanted@.skip(next as int));
                assert(d@ == file_delivery(password@, first + k, rest[0]));
                let tail = block_tasks(password@, rest.skip(1), first + k + 1, left.skip(1));
                assert(delivery::tasks_of(before, none) + (seq![t] + tail) =~= delivery::tasks_of(out@, none) + tail);
            }
        }
        k = k + 1;
    }
    proof {
        let tail = block_tasks(password@, all.skip(k as int), first + k, wanted@.skip(next as int));
        assert(tail =~= Seq::<Task>::empty());
        assert(delivery::tasks_of(out@, none) + tail =~= delivery::tasks_of(out@, none));
    }
    (out, none)
}

/// A pass through a block does something for the first file that is wanted.
proof fn first_is_served(
    password: Seq<char>,
    bodies: Seq<(Seq<u8>, Option<(IoKind, Seq<char>)>)>,
    at: int,
    wanted: Seq<usize>,
)
    requires
        wanted.len() > 0,
        at <= wanted[0] < at + bodies.len(),
    ensures
        block_tasks(password, bodies, at, wanted).len() > 0,
    decreases bodies.len(),
{
    if wanted[0] != at && bodies[0].1 is None {
        first_is_served(password, bodies.skip(1), at + 1, wanted);
    }
}

/// The next part of a pass: what `indices[i]` asks for, and what can be had
/// from the same block.
fn next_part(data: &[u8], password: &str, header: &Header, indices: &[usize], i: usize) -> (r: Part)
    requires
        archive_header(data@, password@) == Ok::<HeaderView, FailureView>(header@),
        consistent(header@),
        i < indices.len(),
    ensures
        i < r.next <= indices.len(),
        plan(ArchiveView { data: data@, password: password@, header: header@ }, indices@.skip(i as int))
            == delivery::tasks_of(r.deliveries@, r.failure) + plan(
            ArchiveView { data: data@, password: password@, header: header@ },
            indices@.skip(r.next as int),
        ),
        delivery::tasks_of(r.deliveries@, r.failure).len() > 0,
{
    let ghost a = ArchiveView { data: data@, password: password@, header: header@ };
    let ghost left = indices@.skip(i as int);
    let idx: usize = indices[i];
    let end: usize = indices.len();
    proof {
        assert(left[0] == idx);
        assert(indices@.skip(end as int) =~= Seq::<usize>::empty());
        assert(header@.files.len() == header.files.len());
    }
    if idx >= header.files.len() {
        let r = Part { deliveries: Vec::new(), failure: Some(Error::InvalidIndex(idx)), next: end };
        proof {
            assert(delivery::tasks_of(r.deliveries@, r.failure) + plan(a, indices@.skip(end as int)) =~= seq![
                Task::Fail(ErrorView::InvalidIndex(idx as int)),
            ]);
        }
        return r;
    }
    if let Some(b) = header.file_block[idx] {
        let block = &header.blocks[b];
        assert(header@.blocks[b as int] == block@);
        if let Some(first) = block.first {
            let last: usize = first + block.count;
            if first <= idx && idx < last {
                let mut j: usize = i;
                while j < indices.len() && first <= indices[j] && indices[j] < last
                    invariant
                        i <= j <= indices.len(),
                        run_length(indices@.skip(i as int), first as int, last as int) == j - i + run_length(
                            indices@.skip(j as int),
                            first as int,
                            last as int,
                        ),
                    decreases indices.len() - j,
                {
                    assert(indices@.skip(j as int).skip(1) =~= indices@.skip(j + 1));
                    j = j + 1;
                }
                let ghost n = run_length(left, first as int, last as int);
                proof {
                    if j < indices.len() {
                        assert(indices@.skip(j as int)[0] == indices@[j as int]);
                    }
                    assert(n == j - i);
                    assert(left.skip(n) =~= indices@.skip(j as int));
                    assert(home(header@, idx as int) == Some(b as int));
                }
                match unpack_block(data, password, b) {
                    Err(f) => {
                        let e = map_7z_err(f);
                        let r = Part { deliveries: Vec::new(), failure: Some(e), next: end };
                        proof {
                            assert(delivery::tasks_of(r.deliveries@, r.failure) + plan(a, indices@.skip(end as int)) =~= seq![
                                Task::Fail(e@),
                            ]);
                        }
                        return r;
                    },
                    Ok(bodies) => {
                        let wanted: &[usize] = &indices[i..j];
                        assert(wanted@ =~= left.take(n));
                        proof {
                            first_is_served(
                                password@,
                                bodies@.map_values(|u: Unpacked| body_of(u)),
                                first as int,
                                wanted@,
                            );
                        }
                        let (deliveries, failure) = decode_block(password, bodies, first, wanted);
                        return Part { deliveries, failure, next: j };
                    },
                }
            }
        }
    }
    let file = &header.files[idx];
    assert(header@.files[idx as int] == file@);
    let failure = if file.has_stream && file.size > 0 {
        let n = decimal_text(idx as u64);
        let t = join2("7z: entry ", n.as_str());
        Some(Error::Corrupt(join2(t.as_str(), " claims data but lies outside its block")))
    } else {
        None
    };
    let d = Delivery { idx, body: Vec::new(), failure, drain: None };
    let mut deliveries: Vec<Delivery> = Vec::new();
    deliveries.push(d);
    let r = Part { deliveries, failure: None, next: i + 1 };
    proof {
        assert(d.body@ =~= Seq::<u8>::empty());
        assert(d@ == bodiless(header@, idx as int));
        assert(home(header@, idx as int) is None);
        assert(left.skip(1) =~= indices@.skip(i + 1));
        assert(delivery::tasks_of(r.deliveries@, r.failure) =~= seq![Task::Entry(d@)]);
    }
    r
}

/// The bodies that a pass could be made to keep as link targets: whole ones
/// that are not too long, up to where the pass breaks off.
pub open spec fn targets_in(tasks: Seq<Task>) -> Map<int, Seq<u8>>
    decreases tasks.len(),
{
    if tasks.len() == 0 {
        Map::empty()
    } else {
        match tasks.last() {
            Task::Fail(_) => targets_in(tasks.drop_last()),
            Task::Entry(d) => if d.failure is None && d.body.len() <= MAX_SYMLINK_TARGET && reached(tasks.drop_last()) {
                targets_in(tasks.drop_last()).insert(d.idx, d.body)
            } else {
                targets_in(tasks.drop_last())
            },
        }
    }
}

/// A pass gets behind these tasks.
pub open spec fn reached(tasks: Seq<Task>) -> bool {
    forall|i: int| 0 <= i < tasks.len() ==> (#[trigger] tasks[i]) is Entry
}

/// The flag in the attributes that says that their upper half holds a Unix mode.
pub const UNIX_EXTENSION: u32 = 0x8000;

/// The Unix mode of a file, if it has one.
pub open spec fn unix_mode(f: FileRowView) -> Option<u32> {
    match f.attributes {
        Some(a) if a & UNIX_EXTENSION != 0 => Some(a >> 16),
        _ => None,
    }
}

/// The mode says that the file is a symbolic link, and the header does not say
/// that it is a directory.
pub open spec fn is_link(f: FileRowView) -> bool {
    !f.is_directory && match unix_mode(f) {
        Some(m) => m & 0o170000 == 0o120000,
        None => false,
    }
}

impl FileRow {
    fn mode(&self) -> (r: Option<u32>)
        ensures
            r == unix_mode(self@),
    {
        match self.attributes {
            Some(a) => if a & UNIX_EXTENSION != 0 {
                Some(a >> 16)
            } else {
                None
            },
            None => None,
        }
    }

    fn links(&self) -> (r: bool)
        ensures
            r == is_link(self@),
    {
        !self.is_directory && match self.mode() {
            Some(m) => m & 0o170000 == 0o120000,
            None => false,
        }
    }
}

/// The links among the first `n` files.
pub open spec fn links_before(files: Seq<FileRowView>, n: int) -> Seq<usize>
    decreases n,
{
    if n <= 0 {
        Seq::empty()
    } else if is_link(files[n - 1]) {
        links_before(files, n - 1).push((n - 1) as usize)
    } else {
        links_before(files, n - 1)
    }
}

/// The links of an archive.
fn link_indices(header: &Header) -> (r: Vec<usize>)
    ensures
        r@ == links_before(header@.files, header@.files.len() as int),
{
    let mut out: Vec<usize> = Vec::new();
    let mut i: usize = 0;
    while i < header.files.len()
        invariant
            i <= header.files.len(),
            out@ == links_before(header@.files, i as int),
        decreases header.files.len() - i,
    {
        assert(header@.files[i as int] == header.files@[i as int]@);
        if header.files[i].links() {
            out.push(i);
        }
        i = i + 1;
    }
    out
}

/// What is kept for a file, if anything is.
pub open spec fn kept(m: Map<int, Seq<u8>>, idx: int) -> Option<Seq<u8>> {
    if m.dom().contains(idx) { Some(m[idx]) } else { None }
}

/// The bodies that were kept, by file.
spec fn holds(got: Seq<Option<Vec<u8>>>, m: Map<int, Seq<u8>>) -> bool {
    forall|i: int| 0 <= i < got.len() ==> (match #[trigger] got[i] {
        Some(v) => Some(v@),
        None => None,
    }) == kept(m, i)
}

/// Behind a failure nothing more is kept.
proof fn nothing_after(tasks: Seq<Task>, more: Seq<Task>)
    requires
        !reached(tasks),
    ensures
        targets_in(tasks + more) == targets_in(tasks),
    decreases more.len(),
{
    if more.len() == 0 {
        assert(tasks + more =~= tasks);
    } else {
        nothing_after(tasks, more.drop_last());
        assert((tasks + more).drop_last() =~= tasks + more.drop_last());
        let i = choose|i: int| 0 <= i < tasks.len() && !((#[trigger] tasks[i]) is Entry);
        assert((tasks + more.drop_last())[i] == tasks[i]);
        assert(!reached(tasks + more.drop_last()));
    }
}

/// Keep the bodies of the links, as far as one pass over them gets.
fn gather_targets(data: &[u8], password: &str, header: &Header, links: &[usize]) -> (r: Vec<Option<Vec<u8>>>)
    requires
        archive_header(data@, password@) == Ok::<HeaderView, FailureView>(header@),
        consistent(header@),
    ensures
        r.len() == header@.files.len(),
        holds(
            r@,
            targets_in(plan(ArchiveView { data: data@, password: password@, header: header@ }, links@)),
        ),
{
    let ghost a = ArchiveView { data: data@, password: password@, header: header@ };
    let ghost tasks = plan(a, links@);
    let count: usize = header.files.len();
    let mut got: Vec<Option<Vec<u8>>> = Vec::new();
    let mut n: usize = 0;
    while n < count
        invariant
            n <= count,
            got.len() == n,
            forall|i: int| 0 <= i < n ==> #[trigger] got@[i] is None,
        decreases count - n,
    {
        got.push(None);
        n = n + 1;
    }
    let ghost mut done = Seq::<Task>::empty();
    let mut i: usize = 0;
    proof {
        assert(links@.skip(0) =~= links@);
        assert(done + tasks =~= tasks);
    }
    while i < links.len()
        invariant
            i <= links.len(),
            archive_header(data@, password@) == Ok::<HeaderView, FailureView>(header@),
            consistent(header@),
            a == (ArchiveView { data: data@, password: password@, header: header@ }),
            tasks == plan(a, links@),
            got.len() == count,
            count == header@.files.len(),
            reached(done),
            tasks == done + plan(a, links@.skip(i as int)),
            holds(got@, targets_in(done)),
        decreases links.len() - i,
    {
        let part = next_part(data, password, header, links, i);
        let Part { deliveries, failure, next } = part;
        let ghost ts = delivery::tasks_of(deliveries@, failure);
        let ghost more = plan(a, links@.skip(next as int));
        let ghost start = done;
        let total: usize = deliveries.len();
        let mut left = deliveries;
        let mut k: usize = 0;
        proof {
            assert(done + (ts + more) =~= (done + ts) + more);
            assert(start + ts.take(0) =~= done);
        }
        while k < total
            invariant
                k <= total,
                total == deliveries.len(),
                left.len() == total,
                got.len() == count,
                ts == delivery::tasks_of(deliveries@, failure),
                forall|q: int| k <= q < total ==> #[trigger] left@[q] == deliveries@[q],
                done == start + ts.take(k as int),
                reached(done),
                holds(got@, targets_in(done)),
            decreases total - k,
        {
            let mut d = Delivery { idx: 0, body: Vec::new(), failure: None, drain: None };
            left.set_and_swap(k, &mut d);
            let ghost view = d@;
            let ghost before = got@;
            proof {
                assert(ts[k as int] == Task::Entry(view));
            }
            if d.failure.is_none() && d.body.len() <= MAX_SYMLINK_TARGET && d.idx < got.len() {
                got.set(d.idx, Some(d.body));
            }
            proof {
                let now = done.push(Task::Entry(view));
                assert(now =~= start + ts.take(k + 1));
                assert(now.drop_last() =~= done);
                done = now;
            }
            k = k + 1;
        }
        if failure.is_some() {
            proof {
                let e = failure->0;
                let all = done.push(Task::Fail(e@));
                assert(all =~= start + ts);
                assert(all.drop_last() =~= done);
                assert(all.last() == Task::Fail(e@));
                assert(!reached(all)) by {
                    assert(all[done.len() as int] == Task::Fail(e@));
                }
                nothing_after(all, more);
            }
            return got;
        }
        proof {
            assert(done =~= start + ts);
        }
        i = next;
    }
    proof {
        assert(links@.skip(i as int) =~= Seq::<usize>::empty());
        assert(done + plan(a, links@.skip(i as int)) =~= done);
    }
    got
}

/// A block is packed under a cipher.
pub open spec fn ciphered(b: BlockRowView) -> bool {
    exists|i: int| 0 <= i < b.methods.len() && #[trigger] b.methods[i] == AES256_SHA256@
}

impl BlockRow {
    fn is_ciphered(&self) -> (r: bool)
        ensures
            r == ciphered(self@),
    {
        let mut i: usize = 0;
        while i < self.methods.len()
            invariant
                i <= self.methods.len(),
                forall|k: int| 0 <= k < i ==> self@.methods[k] != AES256_SHA256@,
            decreases self.methods.len() - i,
        {
            assert(self@.methods[i as int] == self.methods@[i as int]@);
            if same_bytes(self.methods[i].as_slice(), AES256_SHA256.as_slice()) {
                return true;
            }
            i = i + 1;
        }
        false
    }
}

/// The target of a link whose body is `raw`: decoded without the zero bytes at
/// its end. An empty one is none.
pub open spec fn target_text(raw: Seq<u8>, label: Option<Seq<char>>) -> Option<Seq<char>> {
    let s = encoding::decoded_names(seq![bytes::trimmed(raw, 0)], label)[0];
    if s.len() == 0 { None } else { Some(s) }
}

/// The target of a link whose body is `raw`.
fn decode_target(raw: &[u8], opts: &OpenOptions) -> (r: Option<String>)
    ensures
        text::opt_string(r) == target_text(raw@, text::opt_string(opts.encoding_override)),
{
    let mut cut = copy_bytes(raw);
    trim_end(&mut cut, 0);
    let mut one: Vec<Vec<u8>> = Vec::new();
    one.push(cut);
    assert(encoding::raw_views(one@) =~= seq![bytes::trimmed(raw@, 0)]);
    let names = decode_names(one.as_slice(), opts.label());
    assert(encoding::text_views(names@)[0] == names@[0]@);
    if same_text(names[0].as_str(), "") {
        proof {
            reveal_strlit("");
        }
        None
    } else {
        proof {
            reveal_strlit("");
            if names@[0]@.len() == 0 {
                assert(names@[0]@ =~= ""@);
            }
        }
        Some(copy_text(names[0].as_str()))
    }
}

/// The raw names of the files.
pub open spec fn raw_names(h: HeaderView) -> Seq<Seq<u8>> {
    h.files.map_values(|f: FileRowView| utf8::encode_utf8(f.name))
}

/// The bodies of the links, as far as one pass over them gets.
pub open spec fn link_bodies(a: ArchiveView) -> Map<int, Seq<u8>> {
    targets_in(plan(a, links_before(a.header.files, a.header.files.len() as int)))
}

/// What a file is. A link without a target is an ordinary file.
pub open spec fn kind_of(a: ArchiveView, label: Option<Seq<char>>, idx: int) -> KindView {
    let f = a.header.files[idx];
    if f.is_directory {
        KindView::Dir
    } else if is_link(f) {
        match kept(link_bodies(a), idx) {
            Some(raw) => match target_text(raw, label) {
                Some(t) => KindView::Symlink(t),
                None => KindView::File,
            },
            None => KindView::File,
        }
    } else {
        KindView::File
    }
}

/// The entry of a file with its decoded name.
pub open spec fn entry_of(a: ArchiveView, label: Option<Seq<char>>, name: Seq<char>, idx: int) -> EntryView {
    let f = a.header.files[idx];
    EntryView {
        path_raw: utf8::encode_utf8(f.name),
        path: name,
        kind: kind_of(a, label, idx),
        size: f.size,
        mode: match unix_mode(f) {
            Some(m) => Some(m & 0o7777),
            None => None,
        },
        is_encrypted: match a.header.file_block[idx] {
            Some(b) => ciphered(a.header.blocks[b as int]),
            None => false,
        },
        modified: match f.modified {
            Some(t) => match datetime::filetime_view(t as int) {
                Some(s) => Some(Stamp::Instant(s)),
                None => None,
            },
            None => None,
        },
        is_resource_fork: false,
    }
}

/// The listing of an archive: the names are decoded in one encoding.
pub open spec fn listing_of(a: ArchiveView, label: Option<Seq<char>>) -> Seq<EntryView> {
    let names = encoding::decoded_names(raw_names(a.header), label);
    Seq::new(a.header.files.len(), |i: int| entry_of(a, label, names[i], i))
}

/// What the first task of a pass hands out.
pub open spec fn first_body(tasks: Seq<Task>) -> Result<Seq<u8>, ErrorView> {
    match tasks[0] {
        Task::Fail(e) => Err(e),
        Task::Entry(d) => match d.failure {
            Some(e) => Err(e),
            None => Ok(d.body),
        },
    }
}

/// The body of a file: a pass for it alone.
pub open spec fn file_body(a: ArchiveView, idx: int) -> Result<Seq<u8>, ErrorView> {
    first_body(plan(a, seq![idx as usize]))
}

/// The bodies of an archive.
pub open spec fn bodies_of(a: ArchiveView) -> Seq<Result<Seq<u8>, ErrorView>> {
    Seq::new(a.header.files.len(), |i: int| file_body(a, i))
}

/// Whatever can be read alone comes out of a pass unchanged, whatever else is
/// wanted: a pass hands out no failure and no other body for it.
pub proof fn pass_agrees_with_single_reads(a: ArchiveView, indices: Seq<usize>, k: int)
    requires
        consistent(a.header),
        0 <= k < plan(a, indices).len(),
        plan(a, indices)[k] is Entry,
    ensures
        ({
            let d = plan(a, indices)[k]->Entry_0;
            file_body(a, d.idx) is Ok ==> d.failure is None && file_body(a, d.idx) == Ok::<Seq<u8>, ErrorView>(d.body)
        }),
    decreases indices.len(),
{
    let h = a.header;
    let d = plan(a, indices)[k]->Entry_0;
    let idx = indices[0] as int;
    match home(h, idx) {
        None => {
            if k == 0 {
                let only = seq![indices[0]];
                assert(idx < h.files.len());
                assert(plan(a, only) == seq![Task::Entry(bodiless(h, idx))] + plan(a, only.skip(1)));
                assert(plan(a, only)[0] == Task::Entry(bodiless(h, idx)));
            } else {
                pass_agrees_with_single_reads(a, indices.skip(1), k - 1);
            }
        },
        Some(b) => {
            let first = h.blocks[b].first->0;
            let end = first + h.blocks[b].count;
            let n = run_length(indices, first, end);
            run_is_within(indices, first, end);
            if block_bodies(a.data, a.password, b) is Ok && block_bodies(a.data, a.password, b)->Ok_0.len()
                == h.blocks[b].count {
                let bodies = block_bodies(a.data, a.password, b)->Ok_0;
                let tasks = block_tasks(a.password, bodies, first, indices.take(n));
                if k < tasks.len() {
                    entry_of_block(a.password, bodies, first, indices.take(n), k);
                    assert(tasks[k] == plan(a, indices)[k]);
                    one_of_block(a.password, bodies, first, d.idx as usize);
                    let only = seq![d.idx as usize];
                    assert(in_block(h.blocks[b], d.idx));
                    assert(h.file_block[d.idx] == h.file_block[idx]);
                    assert(home(h, d.idx) == Some(b));
                    assert(only.skip(1) =~= Seq::<usize>::empty());
                    assert(run_length(only, first, end) == 1) by {
                        reveal_with_fuel(run_length, 2);
                    }
                    assert(only.take(1) =~= only);
                    let alone = block_tasks(a.password, bodies, first, only);
                    assert(plan(a, only) =~= alone + plan(a, only.skip(1)));
                    assert(plan(a, only)[0] == alone[0]);
                } else {
                    assert(plan(a, indices)[k] == plan(a, indices.skip(n))[k - tasks.len()]);
                    pass_agrees_with_single_reads(a, indices.skip(n), k - tasks.len());
                }
            }
        },
    }
}

/// A pass through a block for files that can be read alone serves each of them and
/// nothing else.
proof fn intact_block_serves_each(
    password: Seq<char>,
    bodies: Seq<(Seq<u8>, Option<(IoKind, Seq<char>)>)>,
    at: int,
    wanted: Seq<usize>,
)
    requires
        forall|i: int, j: int| 0 <= i < j < wanted.len() ==> wanted[i] < wanted[j],
        forall|i: int| 0 <= i < wanted.len() ==> at <= #[trigger] wanted[i] < at + bodies.len(),
        forall|i: int, k: int|
            #![trigger wanted[i], bodies[k]]
            0 <= i < wanted.len() && 0 <= k <= wanted[i] - at ==> bodies[k].1 is None,
    ensures
        block_tasks(password, bodies, at, wanted) == wanted.map_values(
            |w: usize| Task::Entry(file_delivery(password, w as int, bodies[w - at])),
        ),
    decreases bodies.len(),
{
    let served = wanted.map_values(|w: usize| Task::Entry(file_delivery(password, w as int, bodies[w - at])));
    if wanted.len() == 0 {
        assert(served =~= Seq::<Task>::empty());
    } else {
        let rest = bodies.skip(1);
        assert(bodies[0].1 is None) by {
            assert(0 <= wanted[0] - at);
        }
        let left = if wanted[0] != at { wanted } else { wanted.skip(1) };
        assert forall|i: int| 0 <= i < left.len() implies at + 1 <= #[trigger] left[i] < at + 1 + rest.len() by {
            if wanted[0] == at {
                assert(left[i] == wanted[i + 1]);
            } else if i > 0 {
                assert(wanted[0] < wanted[i]);
            }
        }
        assert forall|i: int, k: int|
            #![trigger left[i], rest[k]]
            0 <= i < left.len() && 0 <= k <= left[i] - (at + 1) implies rest[k].1 is None by {
            let m = if wanted[0] == at { i + 1 } else { i };
            assert(left[i] == wanted[m]);
            assert(rest[k] == bodies[k + 1]);
        }
        intact_block_serves_each(password, rest, at + 1, left);
        let tail = left.map_values(|w: usize| Task::Entry(file_delivery(password, w as int, rest[w - (at + 1)])));
        assert forall|i: int| 0 <= i < left.len() implies tail[i] == Task::Entry(
            file_delivery(password, left[i] as int, bodies[left[i] - at]),
        ) by {
            assert(rest[left[i] - (at + 1)] == bodies[left[i] - at]);
        }
        if wanted[0] != at {
            assert(served =~= tail);
        } else {
            assert(served =~= seq![served[0]] + tail);
        }
    }
}

/// A file that can be read alone has only whole bodies before it in its block, and
/// a whole one itself.
proof fn readable_alone_is_whole(
    password: Seq<char>,
    bodies: Seq<(Seq<u8>, Option<(IoKind, Seq<char>)>)>,
    at: int,
    idx: usize,
    k: int,
)
    requires
        at <= idx < at + bodies.len(),
        0 <= k <= idx - at,
        first_body(block_tasks(password, bodies, at, seq![idx])) is Ok,
    ensures
        bodies[k].1 is None,
    decreases bodies.len(),
{
    let only = seq![idx];
    if idx == at {
        assert(block_tasks(password, bodies, at, only)[0] == Task::Entry(file_delivery(password, at, bodies[0])));
    } else if bodies[0].1 is None {
        if k > 0 {
            readable_alone_is_whole(password, bodies.skip(1), at + 1, idx, k - 1);
            assert(bodies.skip(1)[k - 1] == bodies[k]);
        }
    } else {
        assert(block_tasks(password, bodies, at, only)[0] is Fail);
    }
}

/// What a pass does for a file alone, in its block.
proof fn alone_in_block(a: ArchiveView, idx: usize, b: int)
    requires
        consistent(a.header),
        idx < a.header.files.len(),
        home(a.header, idx as int) == Some(b),
        block_bodies(a.data, a.password, b) matches Ok(bodies) && bodies.len() == a.header.blocks[b].count,
    ensures
        file_body(a, idx as int) == first_body(
            block_tasks(a.password, block_bodies(a.data, a.password, b)->Ok_0, a.header.blocks[b].first->0, seq![idx]),
        ),
{
    let only = seq![idx];
    let first = a.header.blocks[b].first->0;
    let end = first + a.header.blocks[b].count;
    let bodies = block_bodies(a.data, a.password, b)->Ok_0;
    one_of_block(a.password, bodies, first, idx);
    assert(only.skip(1) =~= Seq::<usize>::empty());
    assert(run_length(only, first, end) == 1) by {
        reveal_with_fuel(run_length, 2);
    }
    assert(only.take(1) =~= only);
    let alone = block_tasks(a.password, bodies, first, only);
    assert(plan(a, only) =~= alone + plan(a, only.skip(1)));
    assert(plan(a, only)[0] == alone[0]);
}

/// The first files of a run lie in its range.
proof fn run_lies_in_range(indices: Seq<usize>, from: int, to: int, i: int)
    requires
        0 <= i < run_length(indices, from, to),
    ensures
        i < indices.len(),
        from <= indices[i] < to,
    decreases indices.len(),
{
    run_is_within(indices, from, to);
    if i > 0 {
        run_lies_in_range(indices.skip(1), from, to, i - 1);
        assert(indices.skip(1)[i - 1] == indices[i]);
    }
}

/// A pass over files each of which can be read alone, asked for in their order,
/// hands out each of them once, in that order, with the body that reading it
/// alone gives, and does nothing else: whichever of them share a block.
pub proof fn intact_pass_serves_each(a: ArchiveView, indices: Seq<usize>)
    requires
        consistent(a.header),
        forall|i: int, j: int| 0 <= i < j < indices.len() ==> indices[i] < indices[j],
        forall|i: int| 0 <= i < indices.len() ==> #[trigger] indices[i] < a.header.files.len(),
        forall|i: int| 0 <= i < indices.len() ==> file_body(a, #[trigger] indices[i] as int) is Ok,
    ensures
        plan(a, indices).len() == indices.len(),
        forall|k: int|
            0 <= k < indices.len() ==> (#[trigger] plan(a, indices)[k] matches Task::Entry(d) && d.idx == indices[k]
                && d.failure is None && file_body(a, indices[k] as int) == Ok::<Seq<u8>, ErrorView>(d.body)),
    decreases indices.len(),
{
    if indices.len() > 0 {
        let h = a.header;
        let idx = indices[0] as int;
        let whole = plan(a, indices);
        match home(h, idx) {
            None => {
                let only = seq![indices[0]];
                assert(only.skip(1) =~= Seq::<usize>::empty());
                assert(plan(a, only) == seq![Task::Entry(bodiless(h, idx))] + plan(a, only.skip(1)));
                assert(plan(a, only)[0] == Task::Entry(bodiless(h, idx)));
                let left = indices.skip(1);
                assert forall|i: int| 0 <= i < left.len() implies #[trigger] left[i] < h.files.len() && file_body(a, left[i] as int) is Ok by {
                    assert(left[i] == indices[i + 1]);
                }
                intact_pass_serves_each(a, left);
                assert(whole == seq![Task::Entry(bodiless(h, idx))] + plan(a, left));
                assert forall|k: int| 0 <= k < indices.len() implies (#[trigger] whole[k] matches Task::Entry(d) && d.idx
                    == indices[k] && d.failure is None && file_body(a, indices[k] as int) == Ok::<Seq<u8>, ErrorView>(d.body)) by {
                    if k > 0 {
                        assert(left[k - 1] == indices[k]);
                        assert(whole[k] == plan(a, left)[k - 1]);
                    }
                }
            },
            Some(b) => {
                let first = h.blocks[b].first->0;
                let end = first + h.blocks[b].count;
                let n = run_length(indices, first, end);
                run_is_within(indices, first, end);
                run_is_within(indices.skip(1), first, end);
                assert(n >= 1);
                let only = seq![indices[0]];
                assert(only.skip(1) =~= Seq::<usize>::empty());
                assert(run_length(only, first, end) == 1) by {
                    reveal_with_fuel(run_length, 2);
                }
                let bodies = block_bodies(a.data, a.password, b)->Ok_0;
                if block_bodies(a.data, a.password, b) is Err {
                    assert(plan(a, only)[0] is Fail);
                }
                if bodies.len() != h.blocks[b].count {
                    assert(plan(a, only)[0] is Fail);
                }
                let wanted = indices.take(n);
                assert forall|i: int| 0 <= i < n implies first <= #[trigger] wanted[i] < end && home(h, wanted[i] as int)
                    == Some(b) by {
                    run_lies_in_range(indices, first, end, i);
                    assert(in_block(h.blocks[b], wanted[i] as int));
                    assert(h.file_block[wanted[i] as int] == h.file_block[idx]);
                }
                assert forall|i: int, k: int|
                    #![trigger wanted[i], bodies[k]]
                    0 <= i < wanted.len() && 0 <= k <= wanted[i] - first implies bodies[k].1 is None by {
                    assert(wanted[i] == indices[i]);
                    alone_in_block(a, wanted[i], b);
                    readable_alone_is_whole(a.password, bodies, first, wanted[i], k);
                }
                intact_block_serves_each(a.password, bodies, first, wanted);
                let tasks = block_tasks(a.password, bodies, first, wanted);
                let left = indices.skip(n);
                assert forall|i: int| 0 <= i < left.len() implies #[trigger] left[i] < h.files.len() && file_body(a, left[i] as int) is Ok by {
                    assert(left[i] == indices[i + n]);
                }
                intact_pass_serves_each(a, left);
                assert(whole == tasks + plan(a, left));
                assert forall|k: int| 0 <= k < indices.len() implies (#[trigger] whole[k] matches Task::Entry(d) && d.idx
                    == indices[k] && d.failure is None && file_body(a, indices[k] as int) == Ok::<Seq<u8>, ErrorView>(d.body)) by {
                    if k < n {
                        let w = wanted[k];
                        assert(w == indices[k]);
                        assert(whole[k] == tasks[k]);
                        assert(tasks[k] == Task::Entry(file_delivery(a.password, w as int, bodies[w - first])));
                        assert(bodies[w - first].1 is None);
                        alone_in_block(a, w, b);
                        one_of_block(a.password, bodies, first, w);
                    } else {
                        assert(left[k - n] == indices[k]);
                        assert(whole[k] == plan(a, left)[k - n]);
                    }
                }
            },
        }
    }
}

/// The attributes of a file hold a Unix mode in their upper half: bit 15 is set.
pub open spec fn has_unix_mode(f: FileRowView) -> bool {
    f.attributes matches Some(w) && (w as int) / 0x8000 % 2 == 1
}

/// The attributes say that the file is a symbolic link: the four bits above the
/// permissions of its Unix mode are those of one.
pub open spec fn says_link(f: FileRowView) -> bool {
    !f.is_directory && has_unix_mode(f) && (f.attributes->0 as int) / 0x10000000 == 10
}

proof fn bits_of_attributes(w: u32)
    by (bit_vector)
    ensures
        (w & 0x8000 != 0) == (w / 0x8000 % 2 == 1),
        (w >> 16) == w / 0x10000,
        ((w >> 16) & 0o7777) == w / 0x10000 % 0o10000,
        ((w >> 16) & 0o170000 == 0o120000) == (w / 0x10000000 == 10),
{
}

proof fn link_is_said(f: FileRowView)
    ensures
        is_link(f) == says_link(f),
        has_unix_mode(f) == (unix_mode(f) is Some),
        has_unix_mode(f) ==> unix_mode(f)->0 & 0o7777 == (f.attributes->0 as int) / 0x10000 % 0o10000,
{
    if let Some(w) = f.attributes {
        bits_of_attributes(w);
    }
}

/// A file whose attributes hold the Unix mode `s` in their upper half is listed with the
/// permissions of `s`, whatever else the lower half says. It is a directory where the
/// header says so, and no link unless `s` is the mode of one.
pub proof fn upper_half_is_the_unix_mode(a: ArchiveView, label: Option<Seq<char>>, i: int, s: u32, w: u32)
    requires
        0 <= i < a.header.files.len(),
        s < 0x10000,
        0x8000 <= w < 0x10000,
        a.header.files[i].attributes == Some((s * 0x10000 + w) as u32),
    ensures
        listing_of(a, label)[i].mode == Some(s & 0o7777),
        listing_of(a, label)[i].mode->0 == s % 0o10000,
        (listing_of(a, label)[i].kind == KindView::Dir) == a.header.files[i].is_directory,
        !a.header.files[i].is_directory && s & 0o170000 != 0o120000 ==> listing_of(a, label)[i].kind == KindView::File,
{
    let f = a.header.files[i];
    let all = (s * 0x10000 + w) as u32;
    assert(all >> 16 == s && all & 0x8000 != 0 && s & 0o7777 == s % 0o10000) by (bit_vector)
        requires
            all == s * 0x10000 + w,
            s < 0x10000,
            0x8000 <= w < 0x10000,
    ;
    assert(unix_mode(f) == Some(s));
}

/// A file whose attributes do not say that they hold a Unix mode has none, and is no
/// link.
pub proof fn no_mode_without_its_bit(a: ArchiveView, label: Option<Seq<char>>, i: int)
    requires
        0 <= i < a.header.files.len(),
        !has_unix_mode(a.header.files[i]),
    ensures
        listing_of(a, label)[i].mode is None,
        listing_of(a, label)[i].kind == if a.header.files[i].is_directory { KindView::Dir } else { KindView::File },
{
    link_is_said(a.header.files[i]);
}

proof fn link_is_among(files: Seq<FileRowView>, n: int) -> (at: Map<int, int>)
    requires
        0 <= n <= files.len() <= usize::MAX,
    ensures
        forall|k: int| 0 <= k < links_before(files, n).len() ==> #[trigger] links_before(files, n)[k] < n && is_link(files[links_before(files, n)[k] as int]),
        forall|j: int, k: int| 0 <= j < k < links_before(files, n).len() ==> links_before(files, n)[j] < links_before(files, n)[k],
        forall|i: int| 0 <= i < n && is_link(files[i]) ==> 0 <= #[trigger] at[i] < links_before(files, n).len() && links_before(files, n)[at[i]] == i,
    decreases n,
{
    if n == 0 {
        Map::empty()
    } else {
        let before = link_is_among(files, n - 1);
        if is_link(files[n - 1]) {
            let l = links_before(files, n - 1);
            let at = before.insert(n - 1, l.len() as int);
            assert(links_before(files, n) == l.push((n - 1) as usize));
            assert forall|i: int| 0 <= i < n && is_link(files[i]) implies 0 <= #[trigger] at[i] < links_before(files, n).len() && links_before(files, n)[at[i]] == i by {
                if i < n - 1 {
                    assert(at[i] == before[i]);
                }
            }
            at
        } else {
            before
        }
    }
}

proof fn target_is_kept(tasks: Seq<Task>, k: int)
    requires
        reached(tasks),
        0 <= k < tasks.len(),
        tasks[k]->Entry_0.failure is None,
        forall|j: int| k < j < tasks.len() ==> (#[trigger] tasks[j])->Entry_0.idx != tasks[k]->Entry_0.idx,
        forall|j: int| 0 <= j < k ==> (#[trigger] tasks[j])->Entry_0.idx != tasks[k]->Entry_0.idx,
    ensures
        kept(targets_in(tasks), tasks[k]->Entry_0.idx) == if tasks[k]->Entry_0.body.len() <= 4096 {
            Some(tasks[k]->Entry_0.body)
        } else {
            None
        },
    decreases tasks.len(),
{
    let init = tasks.drop_last();
    assert(tasks.last() is Entry);
    assert(reached(init)) by {
        assert forall|i: int| 0 <= i < init.len() implies (#[trigger] init[i]) is Entry by {
            assert(tasks[i] is Entry);
        }
    }
    if k < init.len() {
        assert(init[k] == tasks[k]);
        assert(tasks[tasks.len() - 1]->Entry_0.idx != tasks[k]->Entry_0.idx);
        target_is_kept(init, k);
    } else {
        no_target_of(init, tasks[k]->Entry_0.idx);
    }
}

proof fn no_target_of(tasks: Seq<Task>, idx: int)
    requires
        reached(tasks),
        forall|j: int| 0 <= j < tasks.len() ==> (#[trigger] tasks[j])->Entry_0.idx != idx,
    ensures
        !targets_in(tasks).dom().contains(idx),
    decreases tasks.len(),
{
    if tasks.len() > 0 {
        assert(tasks.last() is Entry);
        assert(tasks[tasks.len() - 1]->Entry_0.idx != idx);
        assert(reached(tasks.drop_last())) by {
            assert forall|i: int| 0 <= i < tasks.drop_last().len() implies (#[trigger] tasks.drop_last()[i]) is Entry by {
                assert(tasks[i] is Entry);
            }
        }
        no_target_of(tasks.drop_last(), idx);
    }
}

/// Where the body of each link can be read, a link leads to what its own body says,
/// without the zero bytes at its end. One whose body says nothing, or is longer than
/// 4096 bytes, is listed as a file.
#[verifier::rlimit(40)]
pub proof fn link_leads_to_its_body(a: ArchiveView, label: Option<Seq<char>>, i: int, core: Seq<u8>, zeros: nat)
    requires
        consistent(a.header),
        a.header.files.len() <= usize::MAX,
        0 <= i < a.header.files.len(),
        says_link(a.header.files[i]),
        forall|j: int|
            0 <= j < a.header.files.len() && says_link(#[trigger] a.header.files[j]) ==> file_body(a, j) is Ok,
        core.len() == 0 || core.last() != 0,
        file_body(a, i) == Ok::<Seq<u8>, ErrorView>(core + Seq::new(zeros, |k: int| 0u8)),
    ensures
        ({
            let target = encoding::decoded_names(seq![core], label)[0];
            listing_of(a, label)[i].kind == if core.len() + zeros <= 4096 && target.len() > 0 {
                KindView::Symlink(target)
            } else {
                KindView::File
            }
        }),
{
    let files = a.header.files;
    let n = files.len() as int;
    let links = links_before(files, n);
    let at = link_is_among(files, n);
    assert forall|k: int| 0 <= k < links.len() implies file_body(a, #[trigger] links[k] as int) is Ok by {
        link_is_said(files[links[k] as int]);
    }
    link_is_said(files[i]);
    intact_pass_serves_each(a, links);
    let tasks = plan(a, links);
    let k = at[i];
    assert(reached(tasks));
    assert(tasks[k]->Entry_0.idx == i);
    assert forall|j: int| 0 <= j < tasks.len() && j != k implies (#[trigger] tasks[j])->Entry_0.idx != i by {
        assert(tasks[j]->Entry_0.idx == links[j]);
        assert(links[k] == i);
        assert(links[j] != links[k]);
    }
    target_is_kept(tasks, k);
    bytes::run_is_trimmed(core, 0, zeros);
}

/// What a pass through a block hands out is a file of the block.
proof fn entry_of_block(
    password: Seq<char>,
    bodies: Seq<(Seq<u8>, Option<(IoKind, Seq<char>)>)>,
    at: int,
    wanted: Seq<usize>,
    k: int,
)
    requires
        0 <= k < block_tasks(password, bodies, at, wanted).len(),
        block_tasks(password, bodies, at, wanted)[k] is Entry,
    ensures
        ({
            let d = block_tasks(password, bodies, at, wanted)[k]->Entry_0;
            &&& at <= d.idx < at + bodies.len()
            &&& 0 <= d.idx <= usize::MAX
            &&& d == file_delivery(password, d.idx, bodies[d.idx - at])
        }),
    decreases bodies.len(),
{
    let rest = bodies.skip(1);
    if wanted[0] != at {
        if bodies[0].1 is None {
            entry_of_block(password, rest, at + 1, wanted, k);
        }
    } else if k > 0 {
        entry_of_block(password, rest, at + 1, wanted.skip(1), k - 1);
    }
}

/// A pass through a block for one of its files comes to that file, or fails
/// before.
proof fn one_of_block(
    password: Seq<char>,
    bodies: Seq<(Seq<u8>, Option<(IoKind, Seq<char>)>)>,
    at: int,
    idx: usize,
)
    requires
        at <= idx < at + bodies.len(),
    ensures
        ({
            let tasks = block_tasks(password, bodies, at, seq![idx]);
            &&& tasks.len() > 0
            &&& tasks[0] is Fail || tasks[0] == Task::Entry(file_delivery(password, idx as int, bodies[idx - at]))
        }),
    decreases bodies.len(),
{
    if idx != at && bodies[0].1 is None {
        one_of_block(password, bodies.skip(1), at + 1, idx);
    }
}

/// An opened 7z archive.
#[derive(Debug)]
pub struct SevenZReader {
    data: Vec<u8>,
    password: String,
    has_password: bool,
    header: Header,
    entries: Vec<Entry>,
}

impl SevenZReader {
    #[verifier::type_invariant]
    spec fn wf(self) -> bool {
        &&& archive_header(self.data@, self.password@) == Ok::<HeaderView, FailureView>(self.header@)
        &&& consistent(self.header@)
        &&& self.entries.len() == self.header.files.len()
    }

    /// The archive that is read.
    pub closed spec fn archive(&self) -> ArchiveView {
        ArchiveView { data: self.data@, password: self.password@, header: self.header@ }
    }

    /// A password was given.
    pub closed spec fn keyed(&self) -> bool {
        self.has_password
    }
}

/// The first encrypted entry, from `from` on.
pub open spec fn first_encrypted(listing: Seq<EntryView>, from: int) -> Option<int>
    decreases listing.len() - from,
{
    if from < 0 || from >= listing.len() {
        None
    } else if listing[from].is_encrypted {
        Some(from)
    } else {
        first_encrypted(listing, from + 1)
    }
}

impl ArchiveReader for SevenZReader {
    open spec fn spec_format(&self) -> FormatId {
        FormatId::SevenZ
    }

    closed spec fn listing(&self) -> Seq<EntryView> {
        archive::views(self.entries@)
    }

    closed spec fn body(&self, idx: int) -> Result<Seq<u8>, ErrorView> {
        if idx >= self.entries.len() {
            Err(ErrorView::InvalidIndex(idx))
        } else {
            file_body(self.archive(), idx)
        }
    }

    /// An archive with an encrypted entry needs a password, and the entry must
    /// come out whole under it.
    open spec fn unlocked(&self) -> Result<(), ErrorView> {
        match first_encrypted(self.listing(), 0) {
            None => Ok(()),
            Some(idx) => if !self.keyed() {
                Err(ErrorView::Encrypted)
            } else if self.body(idx) is Err {
                Err(ErrorView::WrongPassword)
            } else {
                Ok(())
            },
        }
    }

    fn format(&self) -> (r: FormatId) {
        FormatId::SevenZ
    }

    fn entries(&self) -> (r: &Vec<Entry>) {
        &self.entries
    }

    fn read_entry(&self, idx: usize) -> (r: Result<Vec<u8>, Error>) {
        proof {
            use_type_invariant(self);
        }
        if idx >= self.entries.len() {
            return Err(Error::InvalidIndex(idx));
        }
        let mut one: Vec<usize> = Vec::new();
        one.push(idx);
        let part = next_part(self.data.as_slice(), self.password.as_str(), &self.header, one.as_slice(), 0);
        let Part { mut deliveries, failure, next } = part;
        proof {
            let a = self.archive();
            let only = seq![idx];
            assert(one@.skip(0) =~= only);
            assert(one@.skip(next as int) =~= Seq::<usize>::empty());
            let ts = delivery::tasks_of(deliveries@, failure);
            assert(ts + plan(a, one@.skip(next as int)) =~= ts);
            assert(plan(a, only) == ts);
            if deliveries.len() > 0 {
                assert(ts[0] == Task::Entry(deliveries@[0]@));
            }
        }
        if deliveries.len() == 0 {
            return match failure {
                Some(e) => Err(e),
                None => Ok(Vec::new()),
            };
        }
        let mut d = Delivery { idx: 0, body: Vec::new(), failure: None, drain: None };
        deliveries.set_and_swap(0, &mut d);
        match d.failure {
            Some(e) => Err(e),
            None => Ok(d.body),
        }
    }

    fn verify_password(&self) -> (r: Result<(), Error>) {
        let mut i: usize = 0;
        proof {
            assert(self.listing() == archive::views(self.entries@));
        }
        while i < self.entries.len()
            invariant
                i <= self.entries.len(),
                self.listing() == archive::views(self.entries@),
                first_encrypted(self.listing(), 0) == first_encrypted(self.listing(), i as int),
            decreases self.entries.len() - i,
        {
            assert(self.listing()[i as int] == self.entries@[i as int]@);
            if self.entries[i].is_encrypted {
                if !self.has_password {
                    return Err(Error::Encrypted);
                }
                return match self.read_entry(i) {
                    Ok(_) => Ok(()),
                    Err(_) => Err(Error::WrongPassword),
                };
            }
            i = i + 1;
        }
        Ok(())
    }
}

/// What a trial of the password says: nothing is amiss where no entry is
/// encrypted; where one is, a missing password is asked for, and one that is
/// given is right or wrong.
pub proof fn trial_asks_for_password(reader: &SevenZReader)
    ensures
        ({
            let any = exists|i: int| 0 <= i < reader.listing().len() && (#[trigger] reader.listing()[i]).is_encrypted;
            &&& !any ==> reader.unlocked() is Ok
            &&& any && !reader.keyed() ==> reader.unlocked() == Err::<(), ErrorView>(ErrorView::Encrypted)
            &&& any && reader.keyed() ==> reader.unlocked() is Ok || reader.unlocked() == Err::<(), ErrorView>(
                ErrorView::WrongPassword,
            )
        }),
{
    first_encrypted_is_found(reader.listing(), 0);
}

proof fn first_encrypted_is_found(entries: Seq<EntryView>, from: int)
    requires
        0 <= from,
    ensures
        first_encrypted(entries, from) is Some <==> exists|i: int|
            from <= i < entries.len() && (#[trigger] entries[i]).is_encrypted,
    decreases entries.len() - from,
{
    if from < entries.len() && !entries[from].is_encrypted {
        first_encrypted_is_found(entries, from + 1);
    }
}

impl SevenZReader {
    /// Go through the archive and hand the wanted entries to a sink. A block is
    /// unpacked once for all that is wanted of it, and one of which nothing is
    /// wanted is left alone.
    pub fn walk<S: EntrySink>(&self, indices: &[usize], sink: &mut S) -> (r: Result<(), Error>)
        ensures
            final(sink).history().len() >= old(sink).history().len(),
            final(sink).history().take(old(sink).history().len() as int) == old(sink).history(),
            delivery::delivered(
                plan(self.archive(), indices@),
                final(sink).history().skip(old(sink).history().len() as int),
                archive::outcome_view(r),
            ),
    {
        proof {
            use_type_invariant(self);
        }
        let ghost a = self.archive();
        let ghost tasks = plan(a, indices@);
        let ghost before = sink.history();
        let ghost mut sofar = Seq::<SinkEvent>::empty();
        let mut i: usize = 0;
        proof {
            delivery::starts(tasks);
            assert(indices@.skip(0) =~= indices@);
            assert(before + sofar =~= before);
        }
        while i < indices.len()
            invariant
                i <= indices.len(),
                a == self.archive(),
                archive_header(self.data@, self.password@) == Ok::<HeaderView, FailureView>(self.header@),
                consistent(self.header@),
                tasks == plan(a, indices@),
                before == old(sink).history(),
                sink.history() == before + sofar,
                delivery::leads_to(tasks, plan(a, indices@.skip(i as int)), sofar),
            decreases indices.len() - i,
        {
            let part = next_part(self.data.as_slice(), self.password.as_str(), &self.header, indices, i);
            let Part { deliveries, failure, next } = part;
            let ghost ts = delivery::tasks_of(deliveries@, failure);
            let ghost more = plan(a, indices@.skip(next as int));
            let ghost now = sink.history();
            let answer = deliver_all(deliveries, failure, sink);
            let ghost calls = sink.history().skip(now.len() as int);
            proof {
                assert(sink.history() =~= sink.history().take(now.len() as int) + calls);
                assert(sink.history() =~= before + (sofar + calls));
                assert(sink.history().take(before.len() as int) =~= before);
                assert(sink.history().skip(before.len() as int) =~= sofar + calls);
                delivery::part_follows(tasks, ts, more, sofar, calls, delivery::verdict_view(answer));
            }
            match answer {
                Err(e) => {
                    return Err(e);
                },
                Ok(false) => {
                    return Ok(());
                },
                Ok(true) => {},
            }
            proof {
                sofar = sofar + calls;
            }
            i = next;
        }
        proof {
            let none = Seq::<SinkEvent>::empty();
            assert(indices@.skip(i as int) =~= Seq::<usize>::empty());
            assert(delivery::delivered(plan(a, indices@.skip(i as int)), none, Ok(())));
            assert(sofar + none =~= sofar);
            assert(sink.history().take(before.len() as int) =~= before);
            assert(sink.history().skip(before.len() as int) =~= sofar);
        }
        Ok(())
    }
}

impl BatchReader for SevenZReader {
    /// The pass goes block by block.
    open spec fn passes(&self, indices: Seq<usize>, events: Seq<SinkEvent>, result: Result<(), ErrorView>) -> bool {
        delivery::delivered(plan(self.archive(), indices), events, result)
    }

    fn read_entries<S: EntrySink>(&self, indices: &[usize], sink: &mut S) -> (r: Result<(), Error>) {
        self.walk(indices, sink)
    }
}

/// The password as the unpacker takes it: none is the empty one.
pub open spec fn key_text(password: Option<Seq<char>>) -> Seq<char> {
    match password {
        Some(p) => p,
        None => Seq::empty(),
    }
}

/// Why an archive cannot be opened, or the archive.
pub open spec fn opened(data: Seq<u8>, password: Option<Seq<char>>) -> Result<ArchiveView, ErrorView> {
    match signature_fault(data) {
        Some(e) => Err(e),
        None => match archive_header(data, key_text(password)) {
            Err(f) => Err(failure_error(f)),
            Ok(header) => Ok(ArchiveView { data, password: key_text(password), header }),
        },
    }
}

/// Make the entries of an archive.
fn build_entries(header: &Header, got: &Vec<Option<Vec<u8>>>, opts: &OpenOptions, a: Ghost<ArchiveView>) -> (r: Vec<Entry>)
    requires
        a@.header == header@,
        consistent(header@),
        got.len() == header.files.len(),
        holds(got@, link_bodies(a@)),
    ensures
        archive::views(r@) == listing_of(a@, text::opt_string(opts.encoding_override)),
        r.len() == header.files.len(),
{
    let ghost label = text::opt_string(opts.encoding_override);
    let ghost h = header@;
    let mut raw: Vec<Vec<u8>> = Vec::new();
    let mut i: usize = 0;
    while i < header.files.len()
        invariant
            i <= header.files.len(),
            h == header@,
            raw.len() == i,
            forall|k: int| 0 <= k < i ==> (#[trigger] raw@[k])@ == raw_names(h)[k],
        decreases header.files.len() - i,
    {
        assert(h.files[i as int] == header.files@[i as int]@);
        raw.push(copy_bytes(header.files[i].name.as_str().as_bytes()));
        i = i + 1;
    }
    assert(encoding::raw_views(raw@) =~= raw_names(h));
    let names = decode_names(raw.as_slice(), opts.label());
    let ghost want = listing_of(a@, label);
    let mut entries: Vec<Entry> = Vec::new();
    let mut j: usize = 0;
    while j < header.files.len()
        invariant
            j <= header.files.len(),
            h == header@,
            a@.header == h,
            consistent(h),
            label == text::opt_string(opts.encoding_override),
            want == listing_of(a@, label),
            got.len() == header.files.len(),
            holds(got@, link_bodies(a@)),
            encoding::text_views(names@) == encoding::decoded_names(raw_names(h), label),
            names.len() == header.files.len(),
            entries.len() == j,
            forall|k: int| 0 <= k < j ==> (#[trigger] entries@[k])@ == want[k],
        decreases header.files.len() - j,
    {
        let file = &header.files[j];
        proof {
            assert(h.files[j as int] == file@);
            assert(encoding::text_views(names@)[j as int] == names@[j as int]@);
            assert(kept(link_bodies(a@), j as int) == match got@[j as int] {
                Some(v) => Some(v@),
                None => None,
            });
        }
        let kind = if file.is_directory {
            EntryKind::Dir
        } else if file.links() {
            match &got[j] {
                Some(raw_target) => match decode_target(raw_target.as_slice(), opts) {
                    Some(target) => EntryKind::Symlink { target },
                    None => EntryKind::File,
                },
                None => EntryKind::File,
            }
        } else {
            EntryKind::File
        };
        let is_encrypted = match header.file_block[j] {
            Some(b) => {
                assert(h.blocks[b as int] == header.blocks@[b as int]@);
                header.blocks[b].is_ciphered()
            },
            None => false,
        };
        let modified = match file.modified {
            Some(t) => match filetime_to_systime(t) {
                Some(s) => Some(Stamp::Instant(s)),
                None => None,
            },
            None => None,
        };
        let entry = Entry {
            path_raw: copy_bytes(file.name.as_str().as_bytes()),
            path: copy_text(names[j].as_str()),
            kind,
            size: file.size,
            mode: match file.mode() {
                Some(m) => Some(m & 0o7777),
                None => None,
            },
            is_encrypted,
            modified,
            is_resource_fork: false,
        };
        proof {
            assert(entry@ == entry_of(a@, label, names@[j as int]@, j as int));
        }
        entries.push(entry);
        j = j + 1;
    }
    assert(archive::views(entries@) =~= want);
    entries
}

/// Reads 7z archives.
#[derive(Debug, Clone, Copy)]
pub struct SevenZHandler;

impl FormatHandler for SevenZHandler {
    open spec fn spec_id(&self) -> FormatId {
        FormatId::SevenZ
    }

    open spec fn spec_probe(&self, header: Seq<u8>, name: Option<Seq<char>>) -> Confidence {
        archive::magic_when(bytes::stands_at(header, 0, SEVENZ_MAGIC@))
    }

    fn id(&self) -> (r: FormatId) {
        FormatId::SevenZ
    }

    fn probe(&self, header: &[u8], name: Option<&str>) -> (r: Confidence) {
        Confidence::magic_if(starts_with(header, &SEVENZ_MAGIC))
    }
}

/// The outcome of opening an archive.
pub open spec fn opens(r: Result<SevenZReader, Error>, src: Source, opts: &OpenOptions) -> bool {
    match src {
        Source::Stream { .. } => error::fails_with(
            r,
            ErrorView::Unsupported { format: "7z"@, feature: "streaming (7z requires seek)"@ },
        ),
        Source::Seekable { inner, path } => if path is None {
            error::fails_with(
                r,
                ErrorView::Unsupported {
                    format: "7z"@,
                    feature: "in-memory source (7z on-demand extraction requires a file path)"@,
                },
            )
        } else {
            match opened(inner@, text::opt_string(opts.password)) {
                Err(e) => error::fails_with(r, e),
                Ok(a) => r matches Ok(reader) && consistent(a.header) && reader.archive() == a && reader.keyed() == (opts.password
                    is Some) && archive::presents(
                    &reader,
                    FormatId::SevenZ,
                    listing_of(a, text::opt_string(opts.encoding_override)),
                    bodies_of(a),
                ),
            }
        },
    }
}

impl SevenZHandler {
    /// Open a 7z archive. It must come from a file.
    pub fn open(&self, src: Source, opts: &OpenOptions) -> (r: Result<SevenZReader, Error>)
        ensures
            opens(r, src, opts),
    {
        let (data, path) = match src {
            Source::Stream { .. } => {
                return Err(unsupported("7z", "streaming (7z requires seek)"));
            },
            Source::Seekable { inner, path } => (inner, path),
        };
        if path.is_none() {
            return Err(
                unsupported("7z", "in-memory source (7z on-demand extraction requires a file path)"),
            );
        }
        validate_7z_header(data.as_slice())?;
        let has_password = opts.password.is_some();
        let password: String = match &opts.password {
            Some(p) => copy_text(p.as_str()),
            None => {
                proof {
                    reveal_strlit("");
                    assert(""@ =~= Seq::<char>::empty());
                }
                copy_text("")
            },
        };
        let header = match read_archive(data.as_slice(), password.as_str()) {
            Ok(h) => h,
            Err(f) => {
                return Err(map_7z_err(f));
            },
        };
        let links = link_indices(&header);
        let got = gather_targets(data.as_slice(), password.as_str(), &header, links.as_slice());
        let ghost a = ArchiveView { data: data@, password: password@, header: header@ };
        let entries = build_entries(&header, &got, opts, Ghost(a));
        let reader = SevenZReader { data, password, has_password, header, entries };
        proof {
            assert(entries.len() == bodies_of(a).len());
        }
        Ok(reader)
    }
}

/// The head of an archive is in order where its checksum is that of the twenty bytes behind
/// it, and the header that these tell of lies within the file, behind the 32 bytes of the
/// head.
pub proof fn heads_are_checked(data: Seq<u8>, crc: int, offset: int, size: int)
    requires
        data.len() >= 32,
        0 <= crc <= u32::MAX,
        0 <= offset <= u64::MAX,
        0 <= size <= u64::MAX,
        bytes::stands_at(data, 8, bytes::low_first(crc, 4)),
        bytes::stands_at(data, 12, bytes::low_first(offset, 8)),
        bytes::stands_at(data, 20, bytes::low_first(size, 8)),
    ensures
        (signature_fault(data) is None) == (crc == crc32(data.subrange(12, 32)) && 32 + offset + size <= data.len()),
        signature_fault(data.take(31)) is Some,
{
    bytes::standing_numbers_are_read(data, 8, crc);
    bytes::standing_numbers_are_read(data, 12, offset);
    bytes::standing_numbers_are_read(data, 20, size);
}

/// A file is listed with its name, its size and its time; as encrypted, if the methods of
/// its block include the cipher of the format.
#[verifier::rlimit(40)]
pub proof fn files_are_listed_as_they_are(a: ArchiveView, label: Option<Seq<char>>, i: int, secs: int, ticks: int)
    requires
        0 <= i < a.header.files.len(),
        0 <= ticks < 10_000_000,
        0 <= secs <= 0x1_0000_0000,
    ensures
        ({
            let f = a.header.files[i];
            let e = listing_of(a, label)[i];
            &&& e.path_raw == utf8::encode_utf8(f.name)
            &&& e.size == f.size
            &&& f.modified is None ==> e.modified is None
            &&& f.modified matches Some(t) ==> t == (secs - 86400 * datetime::day_number(1601, 1, 1)) * 10_000_000 + ticks ==> (
            e.modified matches Some(Stamp::Instant(at)) && at.secs == secs && at.nanos == 100 * ticks)
            &&& e.is_encrypted == (a.header.file_block[i] matches Some(b) && a.header.blocks[b as int].methods.contains(
                seq![6u8, 0xF1, 7, 1],
            ))
        }),
{
    datetime::filetime_counts_from_1601(secs, ticks);
    assert(AES256_SHA256@ =~= seq![6u8, 0xF1, 7, 1]);
    if let Some(b) = a.header.file_block[i] {
        let m = a.header.blocks[b as int].methods;
        if m.contains(AES256_SHA256@) {
            let k = choose|k: int| 0 <= k < m.len() && m[k] == AES256_SHA256@;
            assert(m[k] == AES256_SHA256@);
        }
    }
}

/// Failures that a password can help against are told as such: one is missing, or it does
/// not fit, as where a checksum is wrong. Others are what they are.
pub proof fn failures_tell_about_passwords(kind: IoKind, m: Seq<char>, password: Seq<char>)
    ensures
        failure_error(FailureView::PasswordRequired) == ErrorView::Encrypted,
        failure_error(FailureView::MaybeBadPassword) == ErrorView::WrongPassword,
        failure_error(FailureView::Checksum) == ErrorView::WrongPassword,
        failure_error(FailureView::Io(kind, m)) == (ErrorView::Io { kind, message: m }),
        failure_error(FailureView::Other(m)) == ErrorView::Corrupt(m),
        password.len() > 0 ==> drain_error(password, (kind, m)) == ErrorView::WrongPassword,
        password.len() == 0 ==> drain_error(password, (kind, m)) == (ErrorView::Io { kind, message: m }),
{
}

/// A file is read from its block: it is as many bodies behind the first as it is files
/// behind the first file of the block. A file before it that cannot be read stops it.
pub proof fn files_are_read_from_their_block(a: ArchiveView, i: usize, b: usize, first: int, k: int)
    requires
        consistent(a.header),
        0 <= i < a.header.files.len(),
        a.header.file_block[i as int] == Some(b),
        a.header.blocks[b as int].first == Some(first),
        first <= i < first + a.header.blocks[b as int].count,
        block_bodies(a.data, a.password, b as int) matches Ok(bodies) && bodies.len() == a.header.blocks[b as int].count,
    ensures
        ({
            let bodies = block_bodies(a.data, a.password, b as int)->Ok_0;
            &&& (forall|j: int| 0 <= j <= i - first ==> (#[trigger] bodies[j]).1 is None) ==> file_body(a, i as int) == Ok::<
                Seq<u8>,
                ErrorView,
            >(bodies[i - first].0)
            &&& 0 <= k <= i - first && bodies[k].1 is Some ==> file_body(a, i as int) is Err
        }),
{
    let h = a.header;
    let bodies = block_bodies(a.data, a.password, b as int)->Ok_0;
    let only = seq![i];
    let end = first + h.blocks[b as int].count;
    assert(in_block(h.blocks[b as int], i as int));
    assert(home(h, i as int) == Some(b as int));
    assert(only.skip(1) =~= Seq::<usize>::empty());
    assert(run_length(only, first, end) == 1) by {
        reveal_with_fuel(run_length, 2);
    }
    assert(only.take(1) =~= only);
    let tasks = block_tasks(a.password, bodies, first, only);
    assert(plan(a, only) =~= tasks + plan(a, only.skip(1)));
    first_task_of_block(a.password, bodies, first, i, k);
    assert(plan(a, only)[0] == tasks[0]);
}

proof fn first_task_of_block(
    password: Seq<char>,
    bodies: Seq<(Seq<u8>, Option<(IoKind, Seq<char>)>)>,
    at: int,
    idx: usize,
    k: int,
)
    requires
        at <= idx < at + bodies.len(),
    ensures
        ({
            let tasks = block_tasks(password, bodies, at, seq![idx]);
            &&& tasks.len() > 0
            &&& (forall|j: int| 0 <= j <= idx - at ==> (#[trigger] bodies[j]).1 is None) ==> (tasks[0] matches Task::Entry(d)
                && d.body == bodies[idx - at].0 && d.failure is None)
            &&& 0 <= k <= idx - at && bodies[k].1 is Some ==> (tasks[0] matches Task::Entry(d) ==> d.failure is Some)
        }),
    decreases bodies.len(),
{
    if idx != at && bodies[0].1 is None {
        let rest = bodies.skip(1);
        first_task_of_block(password, rest, at + 1, idx, k - 1);
        if forall|j: int| 0 <= j <= idx - at ==> (#[trigger] bodies[j]).1 is None {
            assert forall|j: int| 0 <= j <= idx - at - 1 implies (#[trigger] rest[j]).1 is None by {
                assert(bodies[j + 1].1 is None);
            }
        }
        if 0 < k <= idx - at {
            assert(rest[k - 1] == bodies[k]);
        }
    } else if idx != at {
        assert(bodies[0].1 is Some);
        assert(block_tasks(password, bodies, at, seq![idx])[0] is Fail);
    } else {
        assert(bodies[idx - at] == bodies[0]);
    }
}

/// A file that lies in no block has no bytes, and one that claims some all the same is not
/// read.
pub proof fn files_without_block_are_empty(a: ArchiveView, i: usize)
    requires
        0 <= i < a.header.files.len(),
        a.header.file_block[i as int] is None,
    ensures
        a.header.files[i as int].has_stream && a.header.files[i as int].size > 0 ==> file_body(a, i as int) is Err,
        !a.header.files[i as int].has_stream || a.header.files[i as int].size == 0 ==> file_body(a, i as int) == Ok::<
            Seq<u8>,
            ErrorView,
        >(Seq::empty()),
{
    let only = seq![i];
    assert(home(a.header, i as int) is None);
    assert(plan(a, only)[0] == Task::Entry(bodiless(a.header, i as int)));
}

} // verus!
