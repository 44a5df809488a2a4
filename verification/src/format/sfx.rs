//! Self-extractors: a program with an archive behind it.
use vstd::prelude::*;

use crate::archive;
use crate::bytes;
use crate::error;
use crate::archive::{Confidence, FormatHandler, FormatId, Source};
use crate::bytes::{copy_range, find, starts_with};
use crate::error::{unsupported, Error, ErrorView};

verus! {

/// `MZ`, how a Windows program begins.
pub const MZ_MAGIC: [u8; 2] = [0x4D, 0x5A];

/// How macOS programs begin: of 64 and 32 bits, in either byte order, and the
/// container of several programs. The container with 64-bit places is not among
/// them, for nothing here reads it.
pub const MACHO_64_LE: [u8; 4] = [0xCF, 0xFA, 0xED, 0xFE];
pub const MACHO_32_LE: [u8; 4] = [0xCE, 0xFA, 0xED, 0xFE];
pub const MACHO_64_BE: [u8; 4] = [0xFE, 0xED, 0xFA, 0xCF];
pub const MACHO_32_BE: [u8; 4] = [0xFE, 0xED, 0xFA, 0xCE];
pub const MACHO_FAT: [u8; 4] = [0xCA, 0xFE, 0xBA, 0xBE];

/// The bytes begin like a macOS program.
pub open spec fn shows_macho(header: Seq<u8>) -> bool {
    bytes::stands_at(header, 0, MACHO_64_LE@) || bytes::stands_at(header, 0, MACHO_32_LE@) || bytes::stands_at(header, 0, MACHO_64_BE@)
        || bytes::stands_at(header, 0, MACHO_32_BE@) || bytes::stands_at(header, 0, MACHO_FAT@)
}

/// Whether the bytes begin like a macOS program.
pub fn is_macho(header: &[u8]) -> (r: bool)
    ensures
        r == shows_macho(header@),
{
    starts_with(header, &MACHO_64_LE) || starts_with(header, &MACHO_32_LE) || starts_with(header, &MACHO_64_BE)
        || starts_with(header, &MACHO_32_BE) || starts_with(header, &MACHO_FAT)
}

/// The places and sizes of the sections that `goblin::pe::PE::parse` finds in a
/// file; nothing where it fails.
pub uninterp spec fn pe_sections(data: Seq<u8>) -> Option<Seq<(u32, u32)>>;

/// A list that may be missing, as its model.
pub open spec fn list_view<T>(v: Option<Vec<T>>) -> Option<Seq<T>> {
    match v {
        Some(v) => Some(v@),
        None => None,
    }
}

/// `goblin::pe::PE::parse`: where the raw data of each section begins, and how
/// long it is.
#[verifier::external_body]
fn parse_pe(data: &[u8]) -> (r: Option<Vec<(u32, u32)>>)
    ensures
        list_view(r) == pe_sections(data@),
{
    let pe = goblin::pe::PE::parse(data).ok()?;
    Some(pe.sections.iter().map(|s| (s.pointer_to_raw_data, s.size_of_raw_data)).collect())
}

/// The places and sizes of the segments, or of the programs of a container, that
/// `goblin::mach::Mach::parse` finds in a file; nothing where it fails.
pub uninterp spec fn macho_parts(data: Seq<u8>) -> Option<Seq<(u64, u64)>>;

/// `goblin::mach::Mach::parse`: where each segment begins in the file and how
/// long it is there or, in a container, each program that `arches` lists.
#[verifier::external_body]
fn parse_macho(data: &[u8]) -> (r: Option<Vec<(u64, u64)>>)
    ensures
        list_view(r) == macho_parts(data@),
{
    Some(match goblin::mach::Mach::parse(data).ok()? {
        goblin::mach::Mach::Binary(m) => m.segments.iter().map(|s| (s.fileoff, s.filesize)).collect(),
        goblin::mach::Mach::Fat(m) => m.arches().ok()?.iter().map(|a| (u64::from(a.offset), u64::from(a.size))).collect(),
    })
}

/// What `n` is as a place in memory: the last one, if it is too large.
pub open spec fn as_place(n: int) -> int {
    if n > usize::MAX { usize::MAX as int } else { n }
}

/// The furthest end of the parts; 0 where there are none.
pub open spec fn furthest(parts: Seq<(u64, u64)>) -> int
    decreases parts.len(),
{
    if parts.len() == 0 {
        0
    } else {
        let end = as_place(parts.last().0 + parts.last().1);
        let before = furthest(parts.drop_last());
        if end > before { end } else { before }
    }
}

fn furthest_end(parts: &Vec<(u64, u64)>) -> (r: usize)
    ensures
        r == furthest(parts@),
{
    let mut far: usize = 0;
    let mut i: usize = 0;
    assert(parts@.take(0) =~= Seq::<(u64, u64)>::empty());
    while i < parts.len()
        invariant
            i <= parts.len(),
            far == furthest(parts@.take(i as int)),
        decreases parts.len() - i,
    {
        proof {
            assert(parts@.take(i + 1).drop_last() =~= parts@.take(i as int));
            assert(parts@.take(i + 1).last() == parts@[i as int]);
        }
        let (at, size) = parts[i];
        let end: u128 = at as u128 + size as u128;
        let place: usize = if end > usize::MAX as u128 {
            usize::MAX
        } else {
            end as usize
        };
        if place > far {
            far = place;
        }
        i = i + 1;
    }
    assert(parts@.take(i as int) =~= parts@);
    far
}

/// The parts with their numbers widened.
pub open spec fn widened(parts: Seq<(u32, u32)>) -> Seq<(u64, u64)> {
    parts.map_values(|p: (u32, u32)| (p.0 as u64, p.1 as u64))
}

/// The place behind a Windows program in a file; 0 where it cannot be read.
pub open spec fn pe_end(data: Seq<u8>) -> int {
    match pe_sections(data) {
        Some(parts) => furthest(widened(parts)),
        None => 0,
    }
}

/// The place behind a Windows program.
pub fn pe_overlay_offset(bytes: &[u8]) -> (r: usize)
    ensures
        r == pe_end(bytes@),
{
    let parts = match parse_pe(bytes) {
        None => {
            return 0;
        },
        Some(parts) => parts,
    };
    let mut wide: Vec<(u64, u64)> = Vec::new();
    let mut i: usize = 0;
    while i < parts.len()
        invariant
            i <= parts.len(),
            wide@ == widened(parts@).take(i as int),
        decreases parts.len() - i,
    {
        wide.push((parts[i].0 as u64, parts[i].1 as u64));
        i = i + 1;
        assert(wide@ =~= widened(parts@).take(i as int));
    }
    assert(wide@ =~= widened(parts@));
    furthest_end(&wide)
}

/// The place behind a macOS program in a file; 0 where it cannot be read.
pub open spec fn macho_end(data: Seq<u8>) -> int {
    match macho_parts(data) {
        Some(parts) => furthest(parts),
        None => 0,
    }
}

/// The place behind a macOS program.
pub fn macho_overlay_offset(bytes: &[u8]) -> (r: usize)
    ensures
        r == macho_end(bytes@),
{
    match parse_macho(bytes) {
        None => 0,
        Some(parts) => furthest_end(&parts),
    }
}

/// How the archives begin that are looked for: zip, 7z, RAR and cabinets.
pub const ZIP_MAGIC: [u8; 4] = [0x50, 0x4B, 0x03, 0x04];
pub const SEVENZ_MAGIC: [u8; 6] = [0x37, 0x7A, 0xBC, 0xAF, 0x27, 0x1C];
pub const RAR_MAGIC: [u8; 6] = [0x52, 0x61, 0x72, 0x21, 0x1A, 0x07];
pub const CAB_MAGIC: [u8; 4] = [0x4D, 0x53, 0x43, 0x46];

/// An archive may begin at `i`.
pub open spec fn archive_at(s: Seq<u8>, i: int) -> bool {
    bytes::stands_at(s, i, ZIP_MAGIC@) || bytes::stands_at(s, i, SEVENZ_MAGIC@) || bytes::stands_at(s, i, RAR_MAGIC@) || bytes::stands_at(
        s,
        i,
        CAB_MAGIC@,
    )
}

fn earlier(a: Option<usize>, b: Option<usize>) -> (r: Option<usize>)
    ensures
        r == match (a, b) {
            (Some(x), Some(y)) => Some(if x < y { x } else { y }),
            (Some(x), None) => Some(x),
            (None, y) => y,
        },
{
    match (a, b) {
        (Some(x), Some(y)) => if x < y {
            Some(x)
        } else {
            Some(y)
        },
        (Some(x), None) => Some(x),
        (None, y) => y,
    }
}

/// The first place at which an archive may begin.
pub fn find_archive_magic(data: &[u8]) -> (r: Option<usize>)
    ensures
        match r {
            Some(i) => archive_at(data@, i as int) && forall|j: int| 0 <= j < i ==> !(#[trigger] archive_at(data@, j)),
            None => forall|j: int| 0 <= j ==> !(#[trigger] archive_at(data@, j)),
        },
{
    let a = find(data, &ZIP_MAGIC);
    let b = find(data, &SEVENZ_MAGIC);
    let c = find(data, &RAR_MAGIC);
    let d = find(data, &CAB_MAGIC);
    earlier(earlier(a, b), earlier(c, d))
}

/// The place from which on an archive is looked for in a self-extractor: behind
/// the program, or at the start where that cannot be read.
pub open spec fn floor_of(data: Seq<u8>) -> int {
    let end = if shows_macho(data) { macho_end(data) } else { pe_end(data) };
    if end < data.len() { end } else { data.len() as int }
}

/// The archive behind a program: what begins at the first place from the floor on
/// at which an archive may begin.
pub open spec fn is_carved(data: Seq<u8>, archive: Seq<u8>) -> bool {
    exists|i: int| #[trigger] carved_at(data, i, archive)
}

/// The archive begins at `i`, and none begins between the floor and there.
pub open spec fn carved_at(data: Seq<u8>, i: int, archive: Seq<u8>) -> bool {
    &&& floor_of(data) <= i <= data.len()
    &&& archive_at(data, i)
    &&& forall|j: int| floor_of(data) <= j < i ==> !(#[trigger] archive_at(data, j))
    &&& archive == data.skip(i)
}

/// No archive begins behind the program.
pub open spec fn carries_none(data: Seq<u8>) -> bool {
    forall|j: int| floor_of(data) <= j ==> !(#[trigger] archive_at(data, j))
}

proof fn in_the_tail(data: Seq<u8>, from: int, j: int)
    requires
        0 <= from <= data.len(),
        0 <= j,
    ensures
        archive_at(data.skip(from), j) == archive_at(data, from + j),
{
    shifted(data, from, j, ZIP_MAGIC@);
    shifted(data, from, j, SEVENZ_MAGIC@);
    shifted(data, from, j, RAR_MAGIC@);
    shifted(data, from, j, CAB_MAGIC@);
}

proof fn shifted(data: Seq<u8>, from: int, j: int, p: Seq<u8>)
    requires
        0 <= from <= data.len(),
        0 <= j,
    ensures
        bytes::stands_at(data.skip(from), j, p) == bytes::stands_at(data, from + j, p),
{
    if j + p.len() <= data.len() - from {
        assert(data.skip(from).subrange(j, j + p.len()) =~= data.subrange(from + j, from + j + p.len()));
    }
}

/// Take the archive out of a self-extractor.
pub fn carve(bytes: &[u8]) -> (r: Result<Vec<u8>, Error>)
    ensures
        match r {
            Ok(archive) => is_carved(bytes@, archive@),
            Err(e) => carries_none(bytes@) && e@ == ErrorView::UnknownFormat,
        },
{
    let end: usize = if is_macho(bytes) {
        macho_overlay_offset(bytes)
    } else {
        pe_overlay_offset(bytes)
    };
    let floor: usize = if end < bytes.len() {
        end
    } else {
        bytes.len()
    };
    let tail: &[u8] = &bytes[floor..bytes.len()];
    assert(tail@ =~= bytes@.skip(floor as int));
    match find_archive_magic(tail) {
        None => {
            assert forall|j: int| floor_of(bytes@) <= j implies !(#[trigger] archive_at(bytes@, j)) by {
                in_the_tail(bytes@, floor as int, j - floor);
            }
            Err(Error::UnknownFormat)
        },
        Some(rel) => {
            proof {
                in_the_tail(bytes@, floor as int, rel as int);
            }
            let at: usize = floor + rel;
            let archive = copy_range(bytes, at, bytes.len());
            proof {
                assert(archive@ =~= bytes@.skip(at as int));
                assert forall|j: int| floor_of(bytes@) <= j < at implies !(#[trigger] archive_at(bytes@, j)) by {
                    in_the_tail(bytes@, floor as int, j - floor);
                }
                assert(carved_at(bytes@, at as int, archive@));
            }
            Ok(archive)
        },
    }
}

/// A self-extractor carries one archive: what is taken out is the same every
/// time.
pub proof fn carving_is_unique(data: Seq<u8>, a: Seq<u8>, b: Seq<u8>)
    requires
        is_carved(data, a),
        is_carved(data, b),
    ensures
        a == b,
{
    let i = choose|i: int| #[trigger] carved_at(data, i, a);
    let j = choose|j: int| #[trigger] carved_at(data, j, b);
    assert(i == j) by {
        if i < j {
            assert(!archive_at(data, i));
        }
        if j < i {
            assert(!archive_at(data, j));
        }
    }
}

/// Reads self-extractors.
#[derive(Debug, Clone, Copy)]
pub struct SfxHandler;

impl FormatHandler for SfxHandler {
    open spec fn spec_id(&self) -> FormatId {
        FormatId::Sfx
    }

    /// Any program may be a self-extractor; an archive that begins the file is
    /// surer.
    open spec fn spec_probe(&self, header: Seq<u8>, name: Option<Seq<char>>) -> Confidence {
        archive::extension_when(bytes::stands_at(header, 0, MZ_MAGIC@) || shows_macho(header))
    }

    fn id(&self) -> (r: FormatId) {
        FormatId::Sfx
    }

    fn probe(&self, header: &[u8], name: Option<&str>) -> (r: Confidence) {
        Confidence::extension_if(starts_with(header, &MZ_MAGIC) || is_macho(header))
    }
}

/// Why a source cannot be opened as a self-extractor.
pub open spec fn source_fault(src: Source) -> Option<ErrorView> {
    if src is Stream {
        Some(ErrorView::Unsupported { format: "sfx"@, feature: "streaming (sfx requires seek)"@ })
    } else if src.spec_path() is None {
        Some(
            ErrorView::Unsupported {
                format: "sfx"@,
                feature: "seekable source without path (sfx needs a file path)"@,
            },
        )
    } else {
        None
    }
}

impl SfxHandler {
    /// Open a self-extractor: the archive in it, which is then to be opened as a
    /// file of its own.
    pub fn open(&self, src: Source) -> (r: Result<Vec<u8>, Error>)
        ensures
            match source_fault(src) {
                Some(e) => error::fails_with(r, e),
                None => match r {
                    Ok(archive) => is_carved(src.content(), archive@),
                    Err(e) => carries_none(src.content()) && e@ == ErrorView::UnknownFormat,
                },
            },
    {
        match src {
            Source::Stream { .. } => Err(unsupported("sfx", "streaming (sfx requires seek)")),
            Source::Seekable { path: None, .. } => Err(
                unsupported("sfx", "seekable source without path (sfx needs a file path)"),
            ),
            Source::Seekable { inner, path: Some(_) } => carve(inner.as_slice()),
        }
    }
}

/// A program ends where the part that reaches furthest does.
pub proof fn programs_end_with_their_furthest_part(parts: Seq<(u64, u64)>, k: int)
    requires
        0 <= k < parts.len(),
        forall|i: int| 0 <= i < parts.len() ==> (#[trigger] parts[i]).0 + parts[i].1 <= usize::MAX,
    ensures
        parts[k].0 + parts[k].1 <= furthest(parts),
        exists|i: int| 0 <= i < parts.len() && (#[trigger] parts[i]).0 + parts[i].1 == furthest(parts),
    decreases parts.len(),
{
    let init = parts.drop_last();
    let n = parts.len() as int;
    assert(parts[n - 1] == parts.last());
    if n > 1 {
        assert forall|i: int| 0 <= i < init.len() implies (#[trigger] init[i]).0 + init[i].1 <= usize::MAX by {
            assert(init[i] == parts[i]);
        }
        programs_end_with_their_furthest_part(init, if k < n - 1 { k } else { 0 });
        let i = choose|i: int| 0 <= i < init.len() && (#[trigger] init[i]).0 + init[i].1 == furthest(init);
        assert(parts[i] == init[i]);
        if k < n - 1 {
            assert(init[k] == parts[k]);
        }
    } else {
        assert(furthest(init) == 0);
    }
}

/// The archive in a program is a zip, 7z, rar or cabinet archive, known by its mark.
pub proof fn carried_archives_are_known_by_their_marks(stub: Seq<u8>, mark: Seq<u8>, rest: Seq<u8>)
    requires
        mark == seq![0x50u8, 0x4B, 3, 4] || mark == seq![0x37u8, 0x7A, 0xBC, 0xAF, 0x27, 0x1C] || mark == seq![
            0x52u8, 0x61, 0x72, 0x21, 0x1A, 7,
        ] || mark == seq![0x4Du8, 0x53, 0x43, 0x46],
        floor_of(stub + mark + rest) <= stub.len(),
        forall|j: int| floor_of(stub + mark + rest) <= j < stub.len() ==> !(#[trigger] archive_at(stub + mark + rest, j)),
    ensures
        is_carved(stub + mark + rest, mark + rest),
{
    let data = stub + mark + rest;
    let n = stub.len() as int;
    assert(ZIP_MAGIC@ =~= seq![0x50u8, 0x4B, 3, 4]);
    assert(SEVENZ_MAGIC@ =~= seq![0x37u8, 0x7A, 0xBC, 0xAF, 0x27, 0x1C]);
    assert(RAR_MAGIC@ =~= seq![0x52u8, 0x61, 0x72, 0x21, 0x1A, 7]);
    assert(CAB_MAGIC@ =~= seq![0x4Du8, 0x53, 0x43, 0x46]);
    assert(data.subrange(n, n + mark.len()) =~= mark);
    assert(data.skip(n) =~= mark + rest);
    assert(carved_at(data, n, mark + rest));
}

} // verus!
