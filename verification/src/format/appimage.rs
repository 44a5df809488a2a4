//! AppImages: a program with a file system behind it.
use vstd::prelude::*;

use crate::archive;
use crate::bytes;
use crate::error;
use crate::text;
use crate::archive::{Confidence, FormatHandler, FormatId, Source};
use crate::bytes::{be_u16, be_u32, be_u64, copy_range, found_at, le_u16, le_u32, le_u64, starts_with};
use crate::error::{corrupt, unsupported, Error, ErrorView};
use crate::text::{decimal_text, join2, name_ends};

verus! {

/// How a Linux program begins.
pub const ELF_MAGIC: [u8; 4] = [0x7F, 0x45, 0x4C, 0x46];

/// `hsqs`, the mark of a SquashFS image.
pub const SQUASHFS_MAGIC: [u8; 4] = [0x68, 0x73, 0x71, 0x73];

/// `CD001`, the mark of an ISO 9660 image.
pub const ISO_SIG: [u8; 5] = [0x43, 0x44, 0x30, 0x30, 0x31];

/// Where the mark of an ISO 9660 image stands.
pub const ISO_SIG_OFFSET: u64 = 0x8001;

/// The length of the header that is read.
pub const HEADER_LEN: usize = 64;

/// Up to `n` bytes from `offset` on.
pub open spec fn window(data: Seq<u8>, offset: int, n: int) -> Seq<u8> {
    let len = data.len() as int;
    let start = if offset < len { offset } else { len };
    let end = if offset + n < len { offset + n } else { len };
    data.subrange(start, if end < start { start } else { end })
}

/// Up to `n` bytes from `offset` on; fewer where the file ends before.
pub fn read_at(data: &[u8], offset: u64, n: usize) -> (r: Vec<u8>)
    ensures
        r@ == window(data@, offset as int, n as int),
{
    let len: u64 = data.len() as u64;
    let start: u64 = if offset < len {
        offset
    } else {
        len
    };
    let end: u64 = if n as u64 <= len - start {
        start + n as u64
    } else {
        len
    };
    copy_range(data, start as usize, end as usize)
}

/// The place and size of the section table that the header of a program tells:
/// where it begins, the size of an entry, and how many there are.
pub open spec fn section_table(h: Seq<u8>) -> (int, int, int) {
    let wide = h[4] == 2;
    let little = h[5] != 2;
    match (wide, little) {
        (true, true) => (bytes::le64(h, 0x28), bytes::le16(h, 0x3A), bytes::le16(h, 0x3C)),
        (true, false) => (bytes::be64(h, 0x28), bytes::be16(h, 0x3A), bytes::be16(h, 0x3C)),
        (false, true) => (bytes::le32(h, 0x20), bytes::le16(h, 0x2E), bytes::le16(h, 0x30)),
        (false, false) => (bytes::be32(h, 0x20), bytes::be16(h, 0x2E), bytes::be16(h, 0x30)),
    }
}

/// Where the file system of an AppImage begins: behind the section table.
pub open spec fn fs_offset(data: Seq<u8>) -> Result<int, ErrorView> {
    if data.len() < HEADER_LEN || !bytes::stands_at(data, 0, ELF_MAGIC@) {
        Err(ErrorView::Corrupt("appimage: not an ELF image"@))
    } else {
        let (at, size, count) = section_table(data.take(HEADER_LEN as int));
        let offset = at + size * count;
        if offset > u64::MAX {
            Err(ErrorView::Corrupt("appimage: section-table offset overflow"@))
        } else if offset == 0 || offset >= data.len() {
            Err(
                ErrorView::Corrupt(
                    "appimage: computed fs offset "@ + text::decimal(offset as nat) + " out of range (file is "@ + text::decimal(
                        data.len(),
                    ) + " bytes)"@,
                ),
            )
        } else {
            Ok(offset)
        }
    }
}

/// Where the file system of an AppImage begins.
pub fn appimage_fs_offset(data: &[u8]) -> (r: Result<u64, Error>)
    ensures
        match r {
            Ok(n) => fs_offset(data@) == Ok::<int, ErrorView>(n as int),
            Err(e) => fs_offset(data@) == Err::<int, ErrorView>(e@),
        },
{
    let head = read_at(data, 0, HEADER_LEN);
    if head.len() < HEADER_LEN || !starts_with(head.as_slice(), &ELF_MAGIC) {
        proof {
            if data@.len() >= HEADER_LEN {
                assert(head@ =~= data@.take(HEADER_LEN as int));
                assert(head@.subrange(0, 4) =~= data@.subrange(0, 4));
            }
        }
        return Err(corrupt("appimage: not an ELF image"));
    }
    proof {
        assert(head@ =~= data@.take(HEADER_LEN as int));
        assert(head@.subrange(0, 4) =~= data@.subrange(0, 4));
    }
    let h: &[u8] = head.as_slice();
    let wide = h[4] == 2;
    let little = h[5] != 2;
    let (at, size, count): (u64, u16, u16) = if wide {
        if little {
            (le_u64(h, 0x28), le_u16(h, 0x3A), le_u16(h, 0x3C))
        } else {
            (be_u64(h, 0x28), be_u16(h, 0x3A), be_u16(h, 0x3C))
        }
    } else {
        if little {
            (le_u32(h, 0x20) as u64, le_u16(h, 0x2E), le_u16(h, 0x30))
        } else {
            (be_u32(h, 0x20) as u64, be_u16(h, 0x2E), be_u16(h, 0x30))
        }
    };
    assert(size * count <= 0xFFFF * 0xFFFF) by (nonlinear_arith)
        requires
            0 <= size <= 0xFFFF,
            0 <= count <= 0xFFFF,
    ;
    let table: u64 = size as u64 * count as u64;
    if table > u64::MAX - at {
        return Err(corrupt("appimage: section-table offset overflow"));
    }
    let offset: u64 = at + table;
    let len: u64 = data.len() as u64;
    if offset == 0 || offset >= len {
        let a = decimal_text(offset);
        let b = decimal_text(len);
        let t1 = join2("appimage: computed fs offset ", a.as_str());
        let t2 = join2(t1.as_str(), " out of range (file is ");
        let t3 = join2(t2.as_str(), b.as_str());
        return Err(Error::Corrupt(join2(t3.as_str(), " bytes)")));
    }
    Ok(offset)
}

/// The file system of an AppImage.
#[derive(Debug)]
pub enum Payload {
    /// A SquashFS image, from this place of the file on.
    Squashfs(u64),
    /// An ISO 9660 image, to be opened as a file of its own.
    Iso(Vec<u8>),
}

/// A `Payload` as its model.
pub enum PayloadView {
    Squashfs(int),
    Iso(Seq<u8>),
}

impl View for Payload {
    type V = PayloadView;

    open spec fn view(&self) -> PayloadView {
        match *self {
            Payload::Squashfs(n) => PayloadView::Squashfs(n as int),
            Payload::Iso(v) => PayloadView::Iso(v@),
        }
    }
}

/// What the file system of an AppImage is: the marks in it tell, not the header.
pub open spec fn payload_of(data: Seq<u8>) -> Result<PayloadView, ErrorView> {
    match fs_offset(data) {
        Err(e) => Err(e),
        Ok(n) => if bytes::stands_at(data, n, SQUASHFS_MAGIC@) {
            Ok(PayloadView::Squashfs(n))
        } else if bytes::stands_at(data, n + ISO_SIG_OFFSET, ISO_SIG@) {
            Ok(PayloadView::Iso(data.skip(n)))
        } else {
            Err(ErrorView::Corrupt("appimage: no squashfs/iso filesystem at the computed offset"@))
        },
    }
}

/// Find the file system of an AppImage.
pub fn locate(data: &[u8]) -> (r: Result<Payload, Error>)
    ensures
        match r {
            Ok(p) => payload_of(data@) == Ok::<PayloadView, ErrorView>(p@),
            Err(e) => payload_of(data@) == Err::<PayloadView, ErrorView>(e@),
        },
{
    let offset: u64 = match appimage_fs_offset(data) {
        Err(e) => {
            return Err(e);
        },
        Ok(n) => n,
    };
    let len: usize = data.len();
    proof {
        file_system_lies_inside(data@);
    }
    let at: usize = offset as usize;
    if found_at(data, at, &SQUASHFS_MAGIC) {
        return Ok(Payload::Squashfs(offset));
    }
    if len - at > 0x8001 && found_at(data, at + 0x8001, &ISO_SIG) {
        let image = copy_range(data, at, len);
        assert(image@ =~= data@.skip(at as int));
        return Ok(Payload::Iso(image));
    }
    Err(corrupt("appimage: no squashfs/iso filesystem at the computed offset"))
}

/// The mark of an AppImage in the header of a program: `AI` and its sort.
pub open spec fn is_marked(header: Seq<u8>) -> bool {
    &&& bytes::stands_at(header, 0, ELF_MAGIC@)
    &&& header.len() >= 11
    &&& header[8] == 0x41 && header[9] == 0x49
    &&& header[10] == 1 || header[10] == 2
}

fn has_mark(header: &[u8]) -> (r: bool)
    ensures
        r == is_marked(header@),
{
    starts_with(header, &ELF_MAGIC) && header.len() >= 11 && header[8] == 0x41 && header[9] == 0x49 && (header[10] == 1
        || header[10] == 2)
}

/// Reads AppImages.
#[derive(Debug, Clone, Copy)]
pub struct AppImageHandler;

impl FormatHandler for AppImageHandler {
    open spec fn spec_id(&self) -> FormatId {
        FormatId::AppImage
    }

    open spec fn spec_probe(&self, header: Seq<u8>, name: Option<Seq<char>>) -> Confidence {
        archive::magic_when(is_marked(header) || text::name_has_suffix(name, ".appimage"@))
    }

    fn id(&self) -> (r: FormatId) {
        FormatId::AppImage
    }

    fn probe(&self, header: &[u8], name: Option<&str>) -> (r: Confidence) {
        Confidence::magic_if(has_mark(header) || name_ends(name, ".appimage"))
    }
}

impl AppImageHandler {
    /// Open an AppImage: the file system in it, which is then to be opened.
    pub fn open(&self, src: Source) -> (r: Result<Payload, Error>)
        ensures
            if src.spec_path() is None {
                error::fails_with(
                    r,
                    ErrorView::Unsupported {
                        format: "appimage"@,
                        feature: "non-file source (appimage requires a file path)"@,
                    },
                )
            } else {
                match r {
                    Ok(p) => payload_of(src.content()) == Ok::<PayloadView, ErrorView>(p@),
                    Err(e) => payload_of(src.content()) == Err::<PayloadView, ErrorView>(e@),
                }
            },
    {
        if src.file_path().is_none() {
            return Err(unsupported("appimage", "non-file source (appimage requires a file path)"));
        }
        let data = src.read_all();
        locate(data.as_slice())
    }
}

/// The file system of an AppImage lies behind its header and inside the file.
pub proof fn file_system_lies_inside(data: Seq<u8>)
    requires
        fs_offset(data) is Ok,
    ensures
        0 < fs_offset(data)->Ok_0 < data.len(),
{
    let (at, size, count) = section_table(data.take(HEADER_LEN as int));
    assert(0 <= size * count) by (nonlinear_arith)
        requires
            0 <= size,
            0 <= count,
    ;
}

/// A number stands somewhere in so many bytes, in the order that the image has them.
pub open spec fn number_at(s: Seq<u8>, i: int, v: int, n: nat, little: bool) -> bool {
    0 <= v && bytes::stands_at(s, i, if little { bytes::low_first(v, n) } else { bytes::low_first(v, n).reverse() })
}

/// The file system of an image begins where the program ends: behind the table of its
/// sections, whose place, row length and row count its head gives. The head of a program of
/// 64 bits has them elsewhere than that of one of 32, and one for machines that have the
/// highest byte first has each the other way round.
#[verifier::rlimit(40)]
pub proof fn file_system_follows_sections(data: Seq<u8>, wide: bool, little: bool, at: int, size: int, count: int)
    requires
        data.len() >= 64,
        data.take(4) == seq![0x7Fu8, 0x45, 0x4C, 0x46],
        data[4] == if wide { 2u8 } else { 1 },
        data[5] == if little { 1u8 } else { 2 },
        number_at(data, if wide { 40 } else { 32 }, at, if wide { 8 } else { 4 }, little),
        number_at(data, if wide { 58 } else { 46 }, size, 2, little),
        number_at(data, if wide { 60 } else { 48 }, count, 2, little),
        at <= if wide { u64::MAX as int } else { u32::MAX as int },
        size <= u16::MAX,
        count <= u16::MAX,
    ensures
        match fs_offset(data) {
            Ok(n) => n == at + size * count,
            Err(_) => at + size * count == 0 || at + size * count >= data.len() || at + size * count > u64::MAX,
        },
{
    let h = data.take(64);
    assert(h[4] == data[4] && h[5] == data[5]);
    assert(data.subrange(0, 4) =~= data.take(4));
    assert(ELF_MAGIC@ =~= seq![0x7Fu8, 0x45, 0x4C, 0x46]);
    let place = if wide { 40int } else { 32 };
    let rows = if wide { 58int } else { 46 };
    let many = if wide { 60int } else { 48 };
    bytes::low_first_has_length(at, 8);
    bytes::low_first_has_length(at, 4);
    bytes::low_first_has_length(size, 2);
    bytes::low_first_has_length(count, 2);
    let a = if little { bytes::low_first(at, if wide { 8 } else { 4 }) } else { bytes::low_first(at, if wide { 8 } else { 4 }).reverse() };
    let b = if little { bytes::low_first(size, 2) } else { bytes::low_first(size, 2).reverse() };
    let c = if little { bytes::low_first(count, 2) } else { bytes::low_first(count, 2).reverse() };
    assert(h.subrange(place, place + a.len()) =~= data.subrange(place, place + a.len()));
    assert(h.subrange(rows, rows + 2) =~= data.subrange(rows, rows + 2));
    assert(h.subrange(many, many + 2) =~= data.subrange(many, many + 2));
    bytes::standing_numbers_are_read(h, place, at);
    bytes::standing_numbers_are_read(h, rows, size);
    bytes::standing_numbers_are_read(h, many, count);
    assert(section_table(h) == (at, size, count));
}

/// The payload is the file system that is found there: a SquashFS image by the mark it
/// begins with, or an ISO image, which reaches to the end of the file.
pub proof fn payload_is_known_by_its_mark(data: Seq<u8>, front: Seq<u8>, image: Seq<u8>)
    requires
        data == front + image,
        fs_offset(data) == Ok::<int, ErrorView>(front.len() as int),
    ensures
        bytes::stands_at(image, 0, seq![0x68u8, 0x73, 0x71, 0x73]) ==> payload_of(data) == Ok::<PayloadView, ErrorView>(
            PayloadView::Squashfs(front.len() as int),
        ),
        bytes::stands_at(image, 0x8001, seq![0x43u8, 0x44, 0x30, 0x30, 0x31]) && !bytes::stands_at(
            image,
            0,
            seq![0x68u8, 0x73, 0x71, 0x73],
        ) ==> payload_of(data) == Ok::<PayloadView, ErrorView>(PayloadView::Iso(image)),
{
    let n = front.len() as int;
    assert(SQUASHFS_MAGIC@ =~= seq![0x68u8, 0x73, 0x71, 0x73]);
    assert(ISO_SIG@ =~= seq![0x43u8, 0x44, 0x30, 0x30, 0x31]);
    if image.len() >= 4 {
        assert(data.subrange(n, n + 4) =~= image.subrange(0, 4));
    }
    if image.len() >= 0x8001 + 5 {
        assert(data.subrange(n + 0x8001, n + 0x8001 + 5) =~= image.subrange(0x8001, 0x8006));
    }
    assert(data.skip(n) =~= image);
}

} // verus!
