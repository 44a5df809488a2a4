//! The contents of Nullsoft installers: an archive behind a program, far past
//! anything that the beginning of the file could show.
use vstd::prelude::*;
use vstd::slice::slice_subrange;

use crate::archive;
use crate::bytes;
use crate::error;
use crate::format::legacy;
use crate::archive::{Confidence, FormatHandler, FormatId, OpenOptions, Source};
use crate::error::{io_error, Error, IoError, IoKind};
use crate::format::legacy::{open_listed, Dating, LegacyKind, LegacyReader, Row, RowView};
use crate::bytes::{found_at, le_u32};
use crate::error::{io_err_to_corrupt, ErrorView};
use crate::format::legacy::bunzip;
use crate::format::legacy::bunzip::check_blocks;
use crate::text::copy_text;

verus! {

/// What `newtua_nsis::NsisArchive::recognize` says of some bytes.
pub uninterp spec fn is_nsis(data: Seq<u8>) -> bool;

/// `newtua_nsis::NsisArchive::recognize`: the answer depends on the bytes alone.
#[verifier::external_body]
pub(crate) fn recognize_nsis(data: &[u8]) -> (r: bool)
    ensures
        r == is_nsis(data@),
{
    newtua_nsis::NsisArchive::recognize(data)
}

/// The entries that `newtua_nsis::NsisArchive::entries` lists, or the failure to open.
pub uninterp spec fn nsis_rows(data: Seq<u8>) -> Result<Seq<RowView>, (IoKind, Seq<char>)>;

/// `newtua_nsis::NsisArchive::open` and then `entries`: the name, the size if it is known and whether it is a
/// directory, of each
/// entry, in order. The outside code has no place for runs of bytes longer than a
/// block, and counts with numbers that a run of a run's length goes beyond.
#[verifier::external_body]
fn list_nsis(data: &[u8]) -> (r: Result<Vec<Row>, IoError>)
    requires
        nsis_fits(data@),
    ensures
        legacy::rows_result(r) == nsis_rows(data@),
{
    let archive = newtua_nsis::NsisArchive::open(data).map_err(io_error)?;
    Ok(archive.entries().iter().map(|e| Row { name: e.name().to_vec(), is_dir: Some(e.is_dir()), size: e.size(), is_encrypted: None, is_resource_fork: None, date: None }).collect())
}

/// What `newtua_nsis::NsisArchive::read_entry` writes for an entry, or its failure.
pub uninterp spec fn nsis_entry(data: Seq<u8>, idx: int) -> Result<Seq<u8>, (IoKind, Seq<char>)>;

/// `newtua_nsis::NsisArchive::open` and then `read_entry`: what is written
/// for entry `idx`, or the first failure.
#[verifier::external_body]
pub(crate) fn read_nsis(data: &[u8], idx: usize) -> (r: Result<Vec<u8>, IoError>)
    requires
        nsis_fits(data@),
    ensures
        error::io_bytes(r) == nsis_entry(data@, idx as int),
{
    let archive = newtua_nsis::NsisArchive::open(data).map_err(io_error)?;
    let mut out = Vec::new();
    archive.read_entry(idx, &mut out).map_err(io_error)?;
    Ok(out)
}

/// The mark of an installer.
pub const NSIS_MAGIC: [u8; 16] = [
    0xEF,
    0xBE,
    0xAD,
    0xDE,
    0x4E,
    0x75,
    0x6C,
    0x6C,
    0x73,
    0x6F,
    0x66,
    0x74,
    0x49,
    0x6E,
    0x73,
    0x74,
];

/// No header of an installer goes further than this.
pub const HEADER_SPAN: usize = 0x1_0000;

/// Where the header of an installer is, from `pos` on in steps of a sector: flags, of
/// which the second tells an uninstaller, and the mark.
pub open spec fn header_from(data: Seq<u8>, pos: int) -> Option<int>
    decreases HEADER_SPAN + 512 - pos,
{
    if pos < 0 || pos + 20 > data.len() || pos + 20 > HEADER_SPAN {
        None
    } else if bytes::stands_at(data, pos + 4, NSIS_MAGIC@) && data[pos] / 2 % 2 == 0 {
        Some(pos)
    } else {
        header_from(data, pos + 512)
    }
}

/// The bytes from `from` on can be unpacked, if the word before them, which holds their
/// length and whether they are packed, says that they are.
pub open spec fn block_fits(data: Seq<u8>, word: int, from: int) -> bool {
    let size = word % 0x8000_0000;
    word >= 0x8000_0000 && from + size <= data.len() ==> bunzip::blocks_fit(data.subrange(from, from + size), false, 0)
}

/// All blocks from `pos` to `to` can be unpacked, where the first of them was at
/// `base`; each has its length before it. How far a block is from the first has to fit
/// in 32 bits, since blocks are found again by that.
pub open spec fn chain_fits(data: Seq<u8>, base: int, pos: int, to: int) -> bool
    decreases to - pos,
{
    if pos < 0 || pos + 4 >= to || to > data.len() {
        true
    } else if pos - base > u32::MAX {
        false
    } else {
        let word = bytes::le32(data, pos);
        let end = pos + 4 + word % 0x8000_0000;
        block_fits(data, word, pos + 4) && (end > to || chain_fits(data, base, end, to))
    }
}

/// Everything in an installer that may be packed by Burrows and Wheeler's method can be
/// unpacked: all of it as one, or its header and each file.
pub open spec fn nsis_fits(data: Seq<u8>) -> bool {
    match header_from(data, 0) {
        None => true,
        Some(h) => {
            let pos = h + 28;
            let total = bytes::le32(data, h + 24);
            let len = total - if data[h] % 2 == 1 { 36int } else { 32 };
            let far = if len < 0 { pos } else { pos + len };
            let to = if far > data.len() { data.len() as int } else { far };
            let word = bytes::le32(data, pos);
            let base = pos + 4 + word % 0x8000_0000;
            pos <= data.len() ==> {
                &&& bunzip::blocks_fit(data.subrange(pos, to), false, 0)
                &&& bunzip::blocks_fit(data.subrange(pos, to), true, 0)
                &&& pos + 4 <= data.len() && base <= data.len() ==> block_fits(data, word, pos + 4) && chain_fits(
                    data,
                    base,
                    base,
                    to,
                )
            }
        },
    }
}

fn find_header(data: &[u8]) -> (r: Option<usize>)
    ensures
        match r {
            Some(h) => header_from(data@, 0) == Some(h as int) && h + 20 <= data.len() && h <= HEADER_SPAN,
            None => header_from(data@, 0) is None,
        },
{
    let mut pos: usize = 0;
    while pos + 20 <= HEADER_SPAN && pos + 20 <= data.len()
        invariant
            pos <= HEADER_SPAN + 512,
            header_from(data@, 0) == header_from(data@, pos as int),
        decreases HEADER_SPAN + 512 - pos,
    {
        if found_at(data, pos + 4, &NSIS_MAGIC) && data[pos] / 2 % 2 == 0 {
            return Some(pos);
        }
        pos = pos + 512;
    }
    None
}

fn check_block(data: &[u8], word: u32, from: usize) -> (r: bool)
    requires
        from <= data.len(),
    ensures
        r == block_fits(data@, word as int, from as int),
{
    let size: u32 = word % 0x8000_0000;
    if word < 0x8000_0000 || size as u64 > (data.len() - from) as u64 {
        return true;
    }
    check_blocks(slice_subrange(data, from, from + size as usize), false)
}

fn check_chain(data: &[u8], base: usize, to: usize) -> (r: bool)
    requires
        base <= data.len(),
        to <= data.len(),
    ensures
        r == chain_fits(data@, base as int, base as int, to as int),
{
    let mut pos: usize = base;
    while pos < to && to - pos > 4
        invariant
            base <= pos <= data.len(),
            to <= data.len(),
            chain_fits(data@, base as int, base as int, to as int) == chain_fits(
                data@,
                base as int,
                pos as int,
                to as int,
            ),
        decreases to - pos,
    {
        if (pos - base) as u64 > u32::MAX as u64 {
            return false;
        }
        let word: u32 = le_u32(data, pos);
        if !check_block(data, word, pos + 4) {
            return false;
        }
        let size: u32 = word % 0x8000_0000;
        if size as u64 > (to - pos - 4) as u64 {
            return true;
        }
        pos = pos + 4 + size as usize;
    }
    true
}

/// Whether everything in an installer that may be packed by Burrows and Wheeler's method
/// can be unpacked.
pub fn check_nsis(data: &[u8]) -> (r: bool)
    ensures
        r == nsis_fits(data@),
{
    let h: usize = match find_header(data) {
        Some(h) => h,
        None => {
            return true;
        },
    };
    if data.len() - h < 28 {
        return true;
    }
    let pos: usize = h + 28;
    let total: u64 = le_u32(data, h + 24) as u64;
    let less: u64 = if data[h] % 2 == 1 { 36 } else { 32 };
    let len: u64 = if total < less { 0 } else { total - less };
    let to: usize = if len > (data.len() - pos) as u64 { data.len() } else { pos + len as usize };
    let region: &[u8] = slice_subrange(data, pos, to);
    if !check_blocks(region, false) || !check_blocks(region, true) {
        return false;
    }
    if data.len() - pos < 4 {
        return true;
    }
    let word: u32 = le_u32(data, pos);
    let size: u32 = word % 0x8000_0000;
    if size as u64 > (data.len() - pos - 4) as u64 {
        return true;
    }
    check_block(data, word, pos + 4) && check_chain(data, pos + 4 + size as usize, to)
}

/// The entries of an installer, or why it cannot be opened.
pub open spec fn nsis_listing(data: Seq<u8>) -> Result<Seq<RowView>, (IoKind, Seq<char>)> {
    if nsis_fits(data) {
        nsis_rows(data)
    } else {
        Err((IoKind::InvalidData, "nsis: block out of range"@))
    }
}

/// Reads the contents of installers.
#[derive(Debug, Clone, Copy)]
pub struct NsisHandler;

impl FormatHandler for NsisHandler {
    open spec fn spec_id(&self) -> FormatId {
        FormatId::Nsis
    }

    /// The beginning of a file never shows an installer.
    open spec fn spec_probe(&self, header: Seq<u8>, name: Option<Seq<char>>) -> Confidence {
        archive::magic_when(false)
    }

    fn id(&self) -> (r: FormatId) {
        FormatId::Nsis
    }

    fn probe(&self, header: &[u8], name: Option<&str>) -> (r: Confidence) {
        Confidence::none()
    }
}

/// The outcome of opening a file as an installer.
pub open spec fn opens_as_installer(r: Result<LegacyReader, Error>, data: Seq<u8>, opts: &OpenOptions) -> bool {
    if !is_nsis(data) {
        error::fails_with(r, ErrorView::UnknownFormat)
    } else {
        legacy::opens_as(r, nsis_listing(data), FormatId::Nsis, LegacyKind::Nsis, Dating::Undated, data, opts)
    }
}

impl NsisHandler {
    /// Open the bytes of a file. Bytes that hold no installer are of an unknown
    /// format; an installer that cannot be read fails with its own error.
    pub fn open_bytes(bytes: Vec<u8>, opts: &OpenOptions) -> (r: Result<LegacyReader, Error>)
        ensures
            opens_as_installer(r, bytes@, opts),
    {
        if !recognize_nsis(bytes.as_slice()) {
            return Err(Error::UnknownFormat);
        }
        if !check_nsis(bytes.as_slice()) {
            let e = IoError { kind: IoKind::InvalidData, message: copy_text("nsis: block out of range") };
            return Err(io_err_to_corrupt(e));
        }
        let rows = list_nsis(bytes.as_slice());
        open_listed(rows, FormatId::Nsis, LegacyKind::Nsis, Dating::Undated, bytes, opts)
    }

    /// Open an installer.
    pub fn open(&self, src: Source, opts: &OpenOptions) -> (r: Result<LegacyReader, Error>)
        ensures
            opens_as_installer(r, src.content(), opts),
    {
        NsisHandler::open_bytes(src.read_all(), opts)
    }
}

} // verus!
