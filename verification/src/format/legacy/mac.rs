//! Formats of classic Macs. A file has two streams there, the data fork and the
//! resource fork, and they are two entries of one name.
use vstd::prelude::*;
use vstd::slice::slice_subrange;

use crate::archive;
use crate::bytes;
use crate::error;
use crate::format::legacy;
use crate::format::legacy::{lzh, tree};
use crate::text;
use crate::archive::{Confidence, FormatHandler, FormatId, OpenOptions, Source};
use crate::error::{io_error, Error, IoError, IoKind};
use crate::format::legacy::{open_listed, Dating, LegacyKind, LegacyReader, Row, RowView};
use crate::bytes::{be_u16, be_u32, ends_with_ascii_ci, found_at};
use crate::error::io_err_to_corrupt;
use crate::format::legacy::{metas_from, unpack, EntryMeta, MetaView};
use crate::format::legacy::lzh::check_lzh;
use crate::format::legacy::tree::check_tree;
use crate::text::{copy_text, name_ends};

verus! {

/// What `newtua_mac::binhex::BinHexArchive::recognize` says of some bytes.
pub uninterp spec fn is_binhex(data: Seq<u8>) -> bool;

/// `newtua_mac::binhex::BinHexArchive::recognize`: the answer depends on the bytes alone.
#[verifier::external_body]
fn recognize_binhex(data: &[u8]) -> (r: bool)
    ensures
        r == is_binhex(data@),
{
    newtua_mac::binhex::BinHexArchive::recognize(data)
}

/// The entries that `newtua_mac::binhex::BinHexArchive::entries` lists, or the failure to open.
pub uninterp spec fn binhex_rows(data: Seq<u8>) -> Result<Seq<RowView>, (IoKind, Seq<char>)>;

/// `newtua_mac::binhex::BinHexArchive::open` and then `entries`: the name and size and whether it is a resource fork of each
/// entry, in order.
#[verifier::external_body]
fn list_binhex(data: &[u8]) -> (r: Result<Vec<Row>, IoError>)
    ensures
        legacy::rows_result(r) == binhex_rows(data@),
{
    let archive = newtua_mac::binhex::BinHexArchive::open(data).map_err(io_error)?;
    Ok(archive.entries().iter().map(|e| Row { name: e.name().to_vec(), is_dir: None, size: Some(e.size()), is_encrypted: None, is_resource_fork: Some(e.is_resource_fork()), date: None }).collect())
}

/// What `newtua_mac::binhex::BinHexArchive::read_entry` writes for an entry, or its failure.
pub uninterp spec fn binhex_entry(data: Seq<u8>, idx: int) -> Result<Seq<u8>, (IoKind, Seq<char>)>;

/// `newtua_mac::binhex::BinHexArchive::open` and then `read_entry`: what is written
/// for entry `idx`, or the first failure.
#[verifier::external_body]
pub(crate) fn read_binhex(data: &[u8], idx: usize) -> (r: Result<Vec<u8>, IoError>)
    ensures
        error::io_bytes(r) == binhex_entry(data@, idx as int),
{
    let archive = newtua_mac::binhex::BinHexArchive::open(data).map_err(io_error)?;
    let mut out = Vec::new();
    archive.read_entry(idx, &mut out).map_err(io_error)?;
    Ok(out)
}

/// What `newtua_mac::macbinary::MacBinaryArchive::recognize` says of some bytes.
pub uninterp spec fn is_macbinary(data: Seq<u8>) -> bool;

/// `newtua_mac::macbinary::MacBinaryArchive::recognize`: the answer depends on the bytes alone.
#[verifier::external_body]
fn recognize_macbinary(data: &[u8]) -> (r: bool)
    ensures
        r == is_macbinary(data@),
{
    newtua_mac::macbinary::MacBinaryArchive::recognize(data)
}

/// The entries that `newtua_mac::macbinary::MacBinaryArchive::entries` lists, or the failure to open.
pub uninterp spec fn macbinary_rows(data: Seq<u8>) -> Result<Seq<RowView>, (IoKind, Seq<char>)>;

/// `newtua_mac::macbinary::MacBinaryArchive::open` and then `entries`: the name and size and whether it is a resource fork
/// and its date of each
/// entry, in order.
#[verifier::external_body]
fn list_macbinary(data: &[u8]) -> (r: Result<Vec<Row>, IoError>)
    ensures
        legacy::rows_result(r) == macbinary_rows(data@),
{
    let archive = newtua_mac::macbinary::MacBinaryArchive::open(data).map_err(io_error)?;
    Ok(archive.entries().iter().map(|e| Row { name: e.name().to_vec(), is_dir: None, size: Some(e.size()), is_encrypted: None, is_resource_fork: Some(e.is_resource_fork()), date: Some(e.modification_date()) }).collect())
}

/// What `newtua_mac::macbinary::MacBinaryArchive::read_entry` writes for an entry, or its failure.
pub uninterp spec fn macbinary_entry(data: Seq<u8>, idx: int) -> Result<Seq<u8>, (IoKind, Seq<char>)>;

/// `newtua_mac::macbinary::MacBinaryArchive::open` and then `read_entry`: what is written
/// for entry `idx`, or the first failure.
#[verifier::external_body]
pub(crate) fn read_macbinary(data: &[u8], idx: usize) -> (r: Result<Vec<u8>, IoError>)
    ensures
        error::io_bytes(r) == macbinary_entry(data@, idx as int),
{
    let archive = newtua_mac::macbinary::MacBinaryArchive::open(data).map_err(io_error)?;
    let mut out = Vec::new();
    archive.read_entry(idx, &mut out).map_err(io_error)?;
    Ok(out)
}

/// The bytes begin with the mark and version of AppleSingle or AppleDouble, in
/// either byte order.
pub open spec fn is_applesingle(data: Seq<u8>) -> bool {
    &&& data.len() >= 8
    &&& bytes::be32(data, 0) == 0x0005_1600 || bytes::be32(data, 0) == 0x0005_1607 || bytes::be32(data, 0) == 0x0016_0500 || bytes::be32(data, 0)
        == 0x0716_0500
    &&& bytes::be32(data, 4) == 0x0002_0000 || bytes::be32(data, 4) == 0x0000_0200
}

/// `newtua_mac::applesingle::AppleSingleArchive::recognize`: the mark and the version fit.
#[verifier::external_body]
fn recognize_applesingle(data: &[u8]) -> (r: bool)
    ensures
        r == is_applesingle(data@),
{
    newtua_mac::applesingle::AppleSingleArchive::recognize(data)
}

/// The entries that `newtua_mac::applesingle::AppleSingleArchive::entries` lists, or the failure to open.
pub uninterp spec fn applesingle_rows(data: Seq<u8>) -> Result<Seq<RowView>, (IoKind, Seq<char>)>;

/// `newtua_mac::applesingle::AppleSingleArchive::open` and then `entries`: the name and size and whether it is a resource fork
/// and its date of each
/// entry, in order.
#[verifier::external_body]
fn list_applesingle(data: &[u8]) -> (r: Result<Vec<Row>, IoError>)
    ensures
        legacy::rows_result(r) == applesingle_rows(data@),
{
    let archive = newtua_mac::applesingle::AppleSingleArchive::open(data).map_err(io_error)?;
    Ok(archive.entries().iter().map(|e| Row { name: e.name().to_vec(), is_dir: None, size: Some(e.size()), is_encrypted: None, is_resource_fork: Some(e.is_resource_fork()), date: e.modification_date() }).collect())
}

/// What `newtua_mac::applesingle::AppleSingleArchive::read_entry` writes for an entry, or its failure.
pub uninterp spec fn applesingle_entry(data: Seq<u8>, idx: int) -> Result<Seq<u8>, (IoKind, Seq<char>)>;

/// `newtua_mac::applesingle::AppleSingleArchive::open` and then `read_entry`: what is written
/// for entry `idx`, or the first failure.
#[verifier::external_body]
pub(crate) fn read_applesingle(data: &[u8], idx: usize) -> (r: Result<Vec<u8>, IoError>)
    ensures
        error::io_bytes(r) == applesingle_entry(data@, idx as int),
{
    let archive = newtua_mac::applesingle::AppleSingleArchive::open(data).map_err(io_error)?;
    let mut out = Vec::new();
    archive.read_entry(idx, &mut out).map_err(io_error)?;
    Ok(out)
}

/// Reads AppleSingle and AppleDouble files.
#[derive(Debug, Clone, Copy)]
pub struct AppleSingleHandler;

impl FormatHandler for AppleSingleHandler {
    open spec fn spec_id(&self) -> FormatId {
        FormatId::AppleSingle
    }

    open spec fn spec_probe(&self, header: Seq<u8>, name: Option<Seq<char>>) -> Confidence {
        archive::magic_when(is_applesingle(header))
    }

    fn id(&self) -> (r: FormatId) {
        FormatId::AppleSingle
    }

    fn probe(&self, header: &[u8], name: Option<&str>) -> (r: Confidence) {
        Confidence::magic_if(recognize_applesingle(header))
    }
}

/// The outcome of opening an AppleSingle file.
pub open spec fn opens_applesingle(r: Result<LegacyReader, Error>, src: Source, opts: &OpenOptions) -> bool {
    legacy::opens_as(
        r,
        applesingle_rows(src.content()),
        FormatId::AppleSingle,
        LegacyKind::AppleSingle,
        Dating::AppleSingle,
        src.content(),
        opts,
    )
}

impl AppleSingleHandler {
    /// Open an archive.
    pub fn open(&self, src: Source, opts: &OpenOptions) -> (r: Result<LegacyReader, Error>)
        ensures
            opens_applesingle(r, src, opts),
    {
        let data = src.read_all();
        let rows = list_applesingle(data.as_slice());
        open_listed(rows, FormatId::AppleSingle, LegacyKind::AppleSingle, Dating::AppleSingle, data, opts)
    }
}

/// What `newtua_mac::compactpro::CompactProArchive::recognize` says of some bytes.
pub uninterp spec fn is_compactpro(data: Seq<u8>) -> bool;

/// `newtua_mac::compactpro::CompactProArchive::recognize`: the answer depends on the bytes alone.
#[verifier::external_body]
fn recognize_compactpro(data: &[u8]) -> (r: bool)
    ensures
        r == is_compactpro(data@),
{
    newtua_mac::compactpro::CompactProArchive::recognize(data)
}

/// The entries that `newtua_mac::compactpro::CompactProArchive::entries` lists, or the failure to open.
pub uninterp spec fn compactpro_rows(data: Seq<u8>) -> Result<Seq<RowView>, (IoKind, Seq<char>)>;

/// `newtua_mac::compactpro::CompactProArchive::open` and then `entries`: the name and size and whether it is a resource fork
/// or a directory and its date of each
/// entry, in order. The outside code calls itself for a folder in a folder.
#[verifier::external_body]
fn list_compactpro(data: &[u8]) -> (r: Result<Vec<Row>, IoError>)
    requires
        catalog_fits(data@),
    ensures
        legacy::rows_result(r) == compactpro_rows(data@),
{
    let archive = newtua_mac::compactpro::CompactProArchive::open(data).map_err(io_error)?;
    Ok(archive.entries().iter().map(|e| Row { name: e.name().to_vec(), is_dir: Some(e.is_directory()), size: Some(e.size()), is_encrypted: None, is_resource_fork: Some(e.is_resource_fork()), date: Some(e.modification_date()) }).collect())
}

/// What `newtua_mac::compactpro::CompactProArchive::read_entry` writes for an entry, or its failure.
pub uninterp spec fn compactpro_entry(data: Seq<u8>, idx: int) -> Result<Seq<u8>, (IoKind, Seq<char>)>;

/// `newtua_mac::compactpro::CompactProArchive::open` and then `read_entry`: what is written
/// for entry `idx`, or the first failure. The outside code counts up from where a
/// match begins, which must not be before the first byte if the match reaches it.
#[verifier::external_body]
fn read_compactpro(data: &[u8], idx: usize) -> (r: Result<Vec<u8>, IoError>)
    requires
        catalog_fits(data@),
        compactpro_fits(data@, idx as int),
    ensures
        error::io_bytes(r) == compactpro_entry(data@, idx as int),
{
    let archive = newtua_mac::compactpro::CompactProArchive::open(data).map_err(io_error)?;
    let mut out = Vec::new();
    archive.read_entry(idx, &mut out).map_err(io_error)?;
    Ok(out)
}

/// How many folders of a Compact Pro archive may lie in one another.
pub const MAX_FOLDERS: usize = 1000;

/// From `pos` on, inside the folders `open`, outermost first, each standing for
/// the number of records that it has left, no folder lies too deep. A record is
/// a name with its length before it; behind the name of a folder stands the
/// number of records in it, behind that of a file what is said of its forks.
pub open spec fn folders_fit(data: Seq<u8>, pos: int, open: Seq<i64>) -> bool
    decreases data.len() - pos, open.len(),
{
    if open.len() == 0 || pos < 0 || pos >= data.len() {
        true
    } else if open.last() <= 0 {
        folders_fit(data, pos, open.drop_last())
    } else {
        let after = pos + 1 + data[pos] % 128;
        if after + (if data[pos] < 128 { 45int } else { 2 }) > data.len() {
            true
        } else if data[pos] < 128 {
            folders_fit(data, after + 45, open.update(open.len() - 1, (open.last() - 1) as i64))
        } else {
            let count = bytes::be16(data, after);
            open.len() < MAX_FOLDERS && folders_fit(
                data,
                after + 2,
                open.update(open.len() - 1, (open.last() - count - 1) as i64).push(count as i64),
            )
        }
    }
}

/// In the catalog of a Compact Pro archive, if there is one, no folder lies too
/// deep. Before its records stand a checksum, their number and a comment with
/// its length before it.
pub open spec fn catalog_fits(data: Seq<u8>) -> bool {
    data.len() >= 8 && data[0] == 1 && bytes::be32(data, 4) + 7 <= data.len() ==> folders_fit(
        data,
        bytes::be32(data, 4) + 7 + data[bytes::be32(data, 4) + 6],
        seq![bytes::be16(data, bytes::be32(data, 4) + 4) as i64],
    )
}

/// Whether no folder of the catalog lies too deep.
pub fn check_folders(data: &[u8]) -> (r: bool)
    ensures
        r == catalog_fits(data@),
{
    if data.len() < 8 || data[0] != 1 {
        return true;
    }
    let at: usize = be_u32(data, 4) as usize;
    if at > data.len() - 7 {
        return true;
    }
    let comment: usize = data[at + 6] as usize;
    if comment > data.len() - at - 7 {
        return true;
    }
    let mut pos: usize = at + 7 + comment;
    let mut open: Vec<i64> = Vec::new();
    open.push(be_u16(data, at + 4) as i64);
    assert(open@ =~= seq![bytes::be16(data@, at + 4) as i64]);
    while open.len() > 0 && pos < data.len()
        invariant
            pos <= data.len(),
            catalog_fits(data@) == folders_fit(data@, pos as int, open@),
        decreases data.len() - pos, open.len(),
    {
        let top: usize = open.len() - 1;
        let left: i64 = open[top];
        if left <= 0 {
            open.pop();
        } else {
            let name: usize = (data[pos] % 128) as usize;
            let rest: usize = data.len() - pos;
            if data[pos] < 128 {
                if rest < name + 46 {
                    return true;
                }
                open.set(top, left - 1);
                pos = pos + 46 + name;
            } else {
                if rest < name + 3 {
                    return true;
                }
                if open.len() >= MAX_FOLDERS {
                    return false;
                }
                let count: u16 = be_u16(data, pos + 1 + name);
                open.set(top, left - count as i64 - 1);
                open.push(count as i64);
                pos = pos + 3 + name;
            }
        }
    }
    true
}

/// The packed fork of `len` bytes from `from` on can be unpacked, if it is not encrypted.
pub open spec fn packed_fork_fits(data: Seq<u8>, locked: bool, packed: bool, from: int, len: int) -> bool {
    locked || !packed || from + len > data.len() || lzh::lzh_fits(data.subrange(from, from + len))
}

fn check_packed_fork(data: &[u8], locked: bool, packed: bool, from: u64, len: u32) -> (r: bool)
    requires
        from <= 0xFFFF_FFFF_FFFF,
    ensures
        r == packed_fork_fits(data@, locked, packed, from as int, len as int),
{
    locked || !packed || from + len as u64 > data.len() as u64 || check_lzh(
        slice_subrange(data, from as usize, (from + len as u64) as usize),
    )
}

/// The entry that has `skip` others before it, among the records from `pos` on inside
/// the folders `open`, can be unpacked. A folder is an entry, and a file has one for
/// each of its forks, the resource fork before the data fork, without the empty ones;
/// one with two empty forks has its data fork.
pub open spec fn record_fits(data: Seq<u8>, pos: int, open: Seq<i64>, skip: int) -> bool
    decreases data.len() - pos, open.len(),
{
    let top = open.len() - 1;
    if open.len() == 0 || pos < 0 || pos >= data.len() {
        true
    } else if open.last() <= 0 {
        record_fits(data, pos, open.drop_last(), skip)
    } else {
        let after = pos + 1 + data[pos] % 128;
        if after + (if data[pos] < 128 { 45int } else { 2 }) > data.len() {
            true
        } else if data[pos] >= 128 {
            let count = bytes::be16(data, after);
            skip == 0 || record_fits(
                data,
                after + 2,
                open.update(top, (open.last() - count - 1) as i64).push(count as i64),
                skip - 1,
            )
        } else {
            let resource = bytes::be32(data, after + 29);
            let from = bytes::be32(data, after + 1);
            let middle = from + bytes::be32(data, after + 37);
            let flags = data[after + 28];
            let left = if resource != 0 { skip - 1 } else { skip };
            let rest = open.update(top, (open.last() - 1) as i64);
            if resource != 0 && skip == 0 {
                packed_fork_fits(data, flags % 2 == 1, flags / 2 % 2 == 1, from, middle - from)
            } else if resource != 0 && bytes::be32(data, after + 33) == 0 {
                record_fits(data, after + 45, rest, left)
            } else if left == 0 {
                packed_fork_fits(data, flags % 2 == 1, flags / 4 % 2 == 1, middle, bytes::be32(data, after + 41))
            } else {
                record_fits(data, after + 45, rest, left - 1)
            }
        }
    }
}

/// Entry `idx` of a Compact Pro archive can be unpacked.
pub open spec fn compactpro_fits(data: Seq<u8>, idx: int) -> bool {
    data.len() >= 8 && data[0] == 1 && bytes::be32(data, 4) + 7 <= data.len() ==> record_fits(
        data,
        bytes::be32(data, 4) + 7 + data[bytes::be32(data, 4) + 6],
        seq![bytes::be16(data, bytes::be32(data, 4) + 4) as i64],
        idx,
    )
}

/// Whether entry `idx` of a Compact Pro archive can be unpacked.
pub fn check_compactpro(data: &[u8], idx: usize) -> (r: bool)
    ensures
        r == compactpro_fits(data@, idx as int),
{
    if data.len() < 8 || data[0] != 1 {
        return true;
    }
    let start: usize = be_u32(data, 4) as usize;
    if start > data.len() - 7 {
        return true;
    }
    let comment: usize = data[start + 6] as usize;
    if comment > data.len() - start - 7 {
        return true;
    }
    let mut pos: usize = start + 7 + comment;
    let mut open: Vec<i64> = Vec::new();
    let mut skip: usize = idx;
    open.push(be_u16(data, start + 4) as i64);
    assert(open@ =~= seq![bytes::be16(data@, start + 4) as i64]);
    while open.len() > 0 && pos < data.len()
        invariant
            pos <= data.len(),
            compactpro_fits(data@, idx as int) == record_fits(data@, pos as int, open@, skip as int),
        decreases data.len() - pos, open.len(),
    {
        let top: usize = open.len() - 1;
        let left: i64 = open[top];
        if left <= 0 {
            open.pop();
        } else {
            let name: usize = (data[pos] % 128) as usize;
            let rest: usize = data.len() - pos;
            if data[pos] >= 128 {
                if rest < name + 3 || skip == 0 {
                    return true;
                }
                let count: u16 = be_u16(data, pos + 1 + name);
                open.set(top, left - count as i64 - 1);
                open.push(count as i64);
                skip = skip - 1;
                pos = pos + 3 + name;
            } else {
                if rest < name + 46 {
                    return true;
                }
                let after: usize = pos + 1 + name;
                let resource: bool = be_u32(data, after + 29) != 0;
                let held: bool = be_u32(data, after + 33) != 0 || !resource;
                let from: u64 = be_u32(data, after + 1) as u64;
                let len: u32 = be_u32(data, after + 37);
                let flags: u8 = data[after + 28];
                if resource {
                    if skip == 0 {
                        return check_packed_fork(data, flags % 2 == 1, flags / 2 % 2 == 1, from, len);
                    }
                    skip = skip - 1;
                }
                if held {
                    if skip == 0 {
                        return check_packed_fork(
                            data,
                            flags % 2 == 1,
                            flags / 4 % 2 == 1,
                            from + len as u64,
                            be_u32(data, after + 41),
                        );
                    }
                    skip = skip - 1;
                }
                open.set(top, left - 1);
                pos = pos + 46 + name;
            }
        }
    }
    true
}

/// The entries of an archive, or why it cannot be opened.
pub open spec fn compactpro_listing(data: Seq<u8>) -> Result<Seq<RowView>, (IoKind, Seq<char>)> {
    if catalog_fits(data) {
        compactpro_rows(data)
    } else {
        Err((IoKind::InvalidData, "compactpro: folders lie too deep"@))
    }
}

/// The body of an entry, or why it cannot be read.
pub open spec fn compactpro_body(data: Seq<u8>, idx: int) -> Result<Seq<u8>, (IoKind, Seq<char>)> {
    if !catalog_fits(data) {
        Err((IoKind::InvalidData, "compactpro: folders lie too deep"@))
    } else if !compactpro_fits(data, idx) {
        Err((IoKind::InvalidData, "compactpro: match before the first byte"@))
    } else {
        compactpro_entry(data, idx)
    }
}

fn too_deep() -> (r: IoError)
    ensures
        r.kind == IoKind::InvalidData,
        r.message@ == "compactpro: folders lie too deep"@,
{
    IoError { kind: IoKind::InvalidData, message: copy_text("compactpro: folders lie too deep") }
}

/// Read an entry.
pub(crate) fn unpack_compactpro(data: &[u8], idx: usize) -> (r: Result<Vec<u8>, IoError>)
    ensures
        error::io_bytes(r) == compactpro_body(data@, idx as int),
{
    if !check_folders(data) {
        Err(too_deep())
    } else if !check_compactpro(data, idx) {
        Err(IoError { kind: IoKind::InvalidData, message: copy_text("compactpro: match before the first byte") })
    } else {
        read_compactpro(data, idx)
    }
}

/// Reads Compact Pro archives.
#[derive(Debug, Clone, Copy)]
pub struct CompactProHandler;

impl FormatHandler for CompactProHandler {
    open spec fn spec_id(&self) -> FormatId {
        FormatId::CompactPro
    }

    open spec fn spec_probe(&self, header: Seq<u8>, name: Option<Seq<char>>) -> Confidence {
        archive::magic_when(is_compactpro(header) || text::name_has_suffix(name, ".cpt"@))
    }

    fn id(&self) -> (r: FormatId) {
        FormatId::CompactPro
    }

    fn probe(&self, header: &[u8], name: Option<&str>) -> (r: Confidence) {
        Confidence::magic_if(recognize_compactpro(header) || name_ends(name, ".cpt"))
    }
}

/// The outcome of opening a Compact Pro archive.
pub open spec fn opens_compactpro(r: Result<LegacyReader, Error>, src: Source, opts: &OpenOptions) -> bool {
    legacy::opens_as(
        r,
        compactpro_listing(src.content()),
        FormatId::CompactPro,
        LegacyKind::CompactPro,
        Dating::Mac,
        src.content(),
        opts,
    )
}

impl CompactProHandler {
    /// Open an archive.
    pub fn open(&self, src: Source, opts: &OpenOptions) -> (r: Result<LegacyReader, Error>)
        ensures
            opens_compactpro(r, src, opts),
    {
        let data = src.read_all();
        let rows = if check_folders(data.as_slice()) {
            list_compactpro(data.as_slice())
        } else {
            Err(too_deep())
        };
        open_listed(rows, FormatId::CompactPro, LegacyKind::CompactPro, Dating::Mac, data, opts)
    }
}

/// The bytes begin with the mark of a PackIt record.
pub open spec fn is_packit(data: Seq<u8>) -> bool {
    data.len() >= 4 && data[0] == 0x50 && data[1] == 0x4D && data[2] == 0x61 && (data[3] == 0x67 || data[3] == 0x34
        || data[3] == 0x35 || data[3] == 0x36)
}

/// `newtua_mac::packit::PackItArchive::recognize`: a record of one of the four sorts begins the bytes.
#[verifier::external_body]
fn recognize_packit(data: &[u8]) -> (r: bool)
    ensures
        r == is_packit(data@),
{
    newtua_mac::packit::PackItArchive::recognize(data)
}

/// The entries that `newtua_mac::packit::PackItArchive::entries` lists, or the failure to open.
pub uninterp spec fn packit_rows(data: Seq<u8>, password: Option<Seq<char>>) -> Result<Seq<RowView>, (IoKind, Seq<char>)>;

/// `newtua_mac::packit::PackItArchive::open`, or `open_with_password` where there is a password, and then `entries`: the name and size and whether it is a resource fork
/// and its date of each
/// entry, in order. The outside code unpacks every record, and calls itself for a
/// branch of a code tree. Without a password it stops at a record that is encrypted.
#[verifier::external_body]
fn list_packit(data: &[u8], password: Option<&str>) -> (r: Result<Vec<Row>, IoError>)
    requires
        records_fit(data@, password is Some),
    ensures
        legacy::rows_result(r) == packit_rows(data@, text::opt_text(password)),
{
    let archive = match password {
        Some(p) => newtua_mac::packit::PackItArchive::open_with_password(data, p.as_bytes()),
        None => newtua_mac::packit::PackItArchive::open(data),
    }.map_err(io_error)?;
    Ok(archive.entries().iter().map(|e| Row { name: e.name().to_vec(), is_dir: None, size: Some(e.size()), is_encrypted: None, is_resource_fork: Some(e.is_resource_fork()), date: Some(e.modification_date()) }).collect())
}

/// What `newtua_mac::packit::PackItArchive::read_entry` writes for an entry, or its failure.
pub uninterp spec fn packit_entry(data: Seq<u8>, password: Option<Seq<char>>, idx: int) -> Result<Seq<u8>, (IoKind, Seq<char>)>;

/// `newtua_mac::packit::PackItArchive::open`, or `open_with_password` where there is a password, and then `read_entry`: what is written
/// for entry `idx`, or the first failure. All records are unpacked first, as when
/// they are listed.
#[verifier::external_body]
fn read_packit(data: &[u8], password: Option<&str>, idx: usize) -> (r: Result<Vec<u8>, IoError>)
    requires
        records_fit(data@, password is Some),
    ensures
        error::io_bytes(r) == packit_entry(data@, text::opt_text(password), idx as int),
{
    let archive = match password {
        Some(p) => newtua_mac::packit::PackItArchive::open_with_password(data, p.as_bytes()),
        None => newtua_mac::packit::PackItArchive::open(data),
    }.map_err(io_error)?;
    let mut out = Vec::new();
    archive.read_entry(idx, &mut out).map_err(io_error)?;
    Ok(out)
}

/// The length of the header of a PackIt record.
pub const PACKIT_HEADER_LEN: usize = 94;

/// Where a record that is not packed ends: behind its mark, its header, the two
/// forks whose lengths stand there, and their checksum.
pub open spec fn plain_record_end(data: Seq<u8>, pos: int) -> int {
    pos + 4 + PACKIT_HEADER_LEN + bytes::be32(data, pos + 80) + bytes::be32(data, pos + 84) + 2
}

/// Where the records from `pos` on that are not packed end.
pub open spec fn plain_records_end(data: Seq<u8>, pos: int) -> int
    decreases data.len() - pos,
{
    if 0 <= pos && pos + 4 + PACKIT_HEADER_LEN <= data.len() && bytes::stands_at(data, pos, seq![0x50u8, 0x4D, 0x61, 0x67])
        && plain_record_end(data, pos) <= data.len() {
        plain_records_end(data, plain_record_end(data, pos))
    } else {
        pos
    }
}

/// If the mark of a packed record stands at `pos`, the code tree behind it has not too
/// many branches. What an encrypted record holds does not show, so with a key for it
/// there must be room for no more branches.
pub open spec fn packed_record_fits(data: Seq<u8>, keyed: bool, pos: int) -> bool {
    &&& bytes::stands_at(data, pos, seq![0x50u8, 0x4D, 0x61, 0x34]) ==> tree::tree_fits(
        data.subrange(pos + 4, data.len() as int),
    )
    &&& keyed && (bytes::stands_at(data, pos, seq![0x50u8, 0x4D, 0x61, 0x35]) || bytes::stands_at(
        data,
        pos,
        seq![0x50u8, 0x4D, 0x61, 0x36],
    )) ==> 8 * (data.len() - pos - 4) <= tree::MAX_BRANCHES
}

/// No code tree of a packed record has too many branches. Only unpacking shows where
/// such a record ends, so from the first one on, each place with the mark counts.
pub open spec fn records_fit(data: Seq<u8>, keyed: bool) -> bool {
    forall|pos: int| plain_records_end(data, 0) <= pos <= data.len() ==> #[trigger] packed_record_fits(data, keyed, pos)
}

/// Whether no code tree of a packed record has too many branches.
pub fn check_records(data: &[u8], keyed: bool) -> (r: bool)
    ensures
        r == records_fit(data@, keyed),
{
    let mut first: usize = 0;
    while first <= data.len() && 4 + PACKIT_HEADER_LEN <= data.len() - first && found_at(data, first, &[0x50, 0x4D, 0x61, 0x67])
        invariant_except_break
            first <= data.len(),
            plain_records_end(data@, 0) == plain_records_end(data@, first as int),
        ensures
            first <= data.len(),
            plain_records_end(data@, 0) == first,
        decreases data.len() - first,
    {
        let forks: u64 = be_u32(data, first + 80) as u64 + be_u32(data, first + 84) as u64;
        if 4 + PACKIT_HEADER_LEN as u64 + forks + 2 > (data.len() - first) as u64 {
            break;
        }
        first = first + 4 + PACKIT_HEADER_LEN + forks as usize + 2;
    }
    let mut pos: usize = first;
    while pos < data.len()
        invariant
            first <= pos <= data.len(),
            plain_records_end(data@, 0) == first,
            forall|p: int| first <= p < pos ==> #[trigger] packed_record_fits(data@, keyed, p),
        decreases data.len() - pos,
    {
        if found_at(data, pos, &[0x50, 0x4D, 0x61, 0x34]) && !check_tree(slice_subrange(data, pos + 4, data.len())) {
            assert(!packed_record_fits(data@, keyed, pos as int));
            return false;
        }
        if keyed && (found_at(data, pos, &[0x50, 0x4D, 0x61, 0x35]) || found_at(data, pos, &[0x50, 0x4D, 0x61, 0x36])) && data.len()
            - pos - 4 > tree::MAX_BRANCHES as usize / 8 {
            assert(!packed_record_fits(data@, keyed, pos as int));
            return false;
        }
        pos = pos + 1;
    }
    true
}

/// The entries of an archive, or why it cannot be opened.
pub open spec fn packit_listing(data: Seq<u8>, password: Option<Seq<char>>) -> Result<Seq<RowView>, (IoKind, Seq<char>)> {
    if records_fit(data, password is Some) {
        packit_rows(data, password)
    } else {
        Err((IoKind::InvalidData, "packit: code tree too large"@))
    }
}

/// The body of an entry, or why it cannot be read.
pub open spec fn packit_body(data: Seq<u8>, password: Option<Seq<char>>, idx: int) -> Result<Seq<u8>, (IoKind, Seq<char>)> {
    if records_fit(data, password is Some) {
        packit_entry(data, password, idx)
    } else {
        Err((IoKind::InvalidData, "packit: code tree too large"@))
    }
}

fn too_large() -> (r: IoError)
    ensures
        r.kind == IoKind::InvalidData,
        r.message@ == "packit: code tree too large"@,
{
    IoError { kind: IoKind::InvalidData, message: copy_text("packit: code tree too large") }
}

/// Read an entry.
pub(crate) fn unpack_packit(data: &[u8], password: Option<&str>, idx: usize) -> (r: Result<Vec<u8>, IoError>)
    ensures
        error::io_bytes(r) == packit_body(data@, text::opt_text(password), idx as int),
{
    if check_records(data, password.is_some()) {
        read_packit(data, password, idx)
    } else {
        Err(too_large())
    }
}

/// Reads PackIt archives.
#[derive(Debug, Clone, Copy)]
pub struct PackItHandler;

impl FormatHandler for PackItHandler {
    open spec fn spec_id(&self) -> FormatId {
        FormatId::PackIt
    }

    open spec fn spec_probe(&self, header: Seq<u8>, name: Option<Seq<char>>) -> Confidence {
        archive::magic_when(is_packit(header) || text::name_has_suffix(name, ".pit"@))
    }

    fn id(&self) -> (r: FormatId) {
        FormatId::PackIt
    }

    fn probe(&self, header: &[u8], name: Option<&str>) -> (r: Confidence) {
        Confidence::magic_if(recognize_packit(header) || name_ends(name, ".pit"))
    }
}

/// The outcome of opening a PackIt archive.
pub open spec fn opens_packit(r: Result<LegacyReader, Error>, src: Source, opts: &OpenOptions) -> bool {
    legacy::opens_as(
        r,
        packit_listing(src.content(), text::opt_string(opts.password)),
        FormatId::PackIt,
        LegacyKind::PackIt,
        Dating::Mac,
        src.content(),
        opts,
    )
}

impl PackItHandler {
    /// Open an archive.
    pub fn open(&self, src: Source, opts: &OpenOptions) -> (r: Result<LegacyReader, Error>)
        ensures
            opens_packit(r, src, opts),
    {
        let data = src.read_all();
        let pass = match &opts.password {
            Some(p) => Some(p.as_str()),
            None => None,
        };
        let rows = if check_records(data.as_slice(), pass.is_some()) {
            list_packit(data.as_slice(), pass)
        } else {
            Err(too_large())
        };
        open_listed(rows, FormatId::PackIt, LegacyKind::PackIt, Dating::Mac, data, opts)
    }
}

/// `.sit`, `.cpt` and `.sea`, the ends of the names of archives that an envelope
/// may carry.
pub const SIT_SUFFIX: [u8; 4] = [0x2E, 0x73, 0x69, 0x74];
pub const CPT_SUFFIX: [u8; 4] = [0x2E, 0x63, 0x70, 0x74];
pub const SEA_SUFFIX: [u8; 4] = [0x2E, 0x73, 0x65, 0x61];

/// The name is that of an archive that is worth opening in its envelope.
pub open spec fn names_nested_archive(name: Seq<u8>) -> bool {
    bytes::ends_with_any_case(name, SIT_SUFFIX@) || bytes::ends_with_any_case(name, CPT_SUFFIX@) || bytes::ends_with_any_case(
        name,
        SEA_SUFFIX@,
    )
}

/// Whether the name is that of an archive that is worth opening in its envelope.
pub fn payload_is_a_nested_archive(name: &[u8]) -> (r: bool)
    ensures
        r == names_nested_archive(name@),
{
    ends_with_ascii_ci(name, &SIT_SUFFIX) || ends_with_ascii_ci(name, &CPT_SUFFIX) || ends_with_ascii_ci(
        name,
        &SEA_SUFFIX,
    )
}

/// An entry of an envelope that is an archive: its data fork, for the resource
/// fork belongs to the envelope.
pub open spec fn is_payload(m: MetaView) -> bool {
    !m.is_resource_fork && names_nested_archive(m.raw)
}

/// The first entry from `i` on that is an archive, or the number of entries.
pub open spec fn payload_from(metas: Seq<MetaView>, i: int) -> int
    decreases metas.len() - i,
{
    if i < 0 || i >= metas.len() {
        metas.len() as int
    } else if is_payload(metas[i]) {
        i
    } else {
        payload_from(metas, i + 1)
    }
}

/// The entry of an envelope that is an archive, if there is one.
pub fn payload_index(metas: &Vec<EntryMeta>) -> (r: Option<usize>)
    ensures
        match r {
            Some(i) => i < metas.len() && i == payload_from(legacy::meta_views(metas@), 0),
            None => payload_from(legacy::meta_views(metas@), 0) == metas.len(),
        },
{
    let ghost all = legacy::meta_views(metas@);
    let mut i: usize = 0;
    while i < metas.len()
        invariant
            i <= metas.len(),
            all == legacy::meta_views(metas@),
            payload_from(all, 0) == payload_from(all, i as int),
        decreases metas.len() - i,
    {
        assert(all[i as int] == metas@[i as int]@);
        if !metas[i].is_resource_fork && payload_is_a_nested_archive(metas[i].raw.as_slice()) {
            return Some(i);
        }
        i = i + 1;
    }
    None
}

/// An opened envelope. `payload` is the archive that it carries, if it carries
/// one and it could be taken out: then that archive is to be opened, and the
/// envelope is shown only if that fails.
#[derive(Debug)]
pub struct Envelope {
    pub payload: Option<Vec<u8>>,
    pub reader: LegacyReader,
}

/// The archive that an envelope carries.
pub open spec fn payload_of(kind: LegacyKind, data: Seq<u8>, metas: Seq<MetaView>, opts: &OpenOptions) -> Option<Seq<u8>> {
    let i = payload_from(metas, 0);
    if i >= metas.len() {
        None
    } else {
        match legacy::unpacked(kind, data, text::opt_string(opts.password), i) {
            Ok(b) => Some(b),
            Err(_) => None,
        }
    }
}

/// The outcome of opening an envelope.
pub open spec fn opens_envelope(
    r: Result<Envelope, Error>,
    rows: Result<Seq<RowView>, (IoKind, Seq<char>)>,
    format: FormatId,
    kind: LegacyKind,
    dating: Dating,
    data: Seq<u8>,
    opts: &OpenOptions,
) -> bool {
    match rows {
        Err((k, message)) => error::fails_with(r, error::io_error_view(k, message)),
        Ok(rows) => r matches Ok(e) && {
            &&& legacy::shows(&e.reader, format, kind, data, legacy::metas_of(dating, rows), opts)
            &&& match e.payload {
                Some(b) => payload_of(kind, data, legacy::metas_of(dating, rows), opts) == Some(b@),
                None => payload_of(kind, data, legacy::metas_of(dating, rows), opts) is None,
            }
        },
    }
}

/// Open an envelope whose entries a decoder has listed, and take out the archive
/// that it carries.
pub fn unwrap_envelope(
    rows: Result<Vec<Row>, IoError>,
    format: FormatId,
    kind: LegacyKind,
    dating: Dating,
    data: Vec<u8>,
    opts: &OpenOptions,
) -> (r: Result<Envelope, Error>)
    requires
        legacy::decoder_ends(kind, data@),
    ensures
        opens_envelope(r, legacy::rows_result(rows), format, kind, dating, data@, opts),
{
    let rows = match rows {
        Err(e) => {
            return Err(io_err_to_corrupt(e));
        },
        Ok(rows) => rows,
    };
    let metas = metas_from(dating, &rows);
    let pass = match &opts.password {
        Some(p) => Some(p.as_str()),
        None => None,
    };
    let payload = match payload_index(&metas) {
        None => None,
        Some(i) => match unpack(kind, data.as_slice(), pass, i) {
            Ok(b) => Some(b),
            Err(_) => None,
        },
    };
    proof {
        assert(legacy::meta_views(metas@).len() == metas@.len());
    }
    Ok(Envelope { payload, reader: LegacyReader::new(format, kind, data, &metas, opts) })
}

/// Reads BinHex files: envelopes for seven-bit mail.
#[derive(Debug, Clone, Copy)]
pub struct BinHexHandler;

impl FormatHandler for BinHexHandler {
    open spec fn spec_id(&self) -> FormatId {
        FormatId::BinHex
    }

    open spec fn spec_probe(&self, header: Seq<u8>, name: Option<Seq<char>>) -> Confidence {
        archive::magic_when(is_binhex(header))
    }

    fn id(&self) -> (r: FormatId) {
        FormatId::BinHex
    }

    fn probe(&self, header: &[u8], name: Option<&str>) -> (r: Confidence) {
        Confidence::magic_if(recognize_binhex(header))
    }
}

/// The outcome of opening a BinHex file.
pub open spec fn opens_binhex(r: Result<Envelope, Error>, src: Source, opts: &OpenOptions) -> bool {
    opens_envelope(
        r,
        binhex_rows(src.content()),
        FormatId::BinHex,
        LegacyKind::BinHex,
        Dating::Undated,
        src.content(),
        opts,
    )
}

impl BinHexHandler {
    /// Open an envelope.
    pub fn open(&self, src: Source, opts: &OpenOptions) -> (r: Result<Envelope, Error>)
        ensures
            opens_binhex(r, src, opts),
    {
        let data = src.read_all();
        let rows = list_binhex(data.as_slice());
        unwrap_envelope(rows, FormatId::BinHex, LegacyKind::BinHex, Dating::Undated, data, opts)
    }
}

/// Reads MacBinary files: envelopes for foreign file systems.
#[derive(Debug, Clone, Copy)]
pub struct MacBinaryHandler;

impl FormatHandler for MacBinaryHandler {
    open spec fn spec_id(&self) -> FormatId {
        FormatId::MacBinary
    }

    open spec fn spec_probe(&self, header: Seq<u8>, name: Option<Seq<char>>) -> Confidence {
        archive::magic_when(is_macbinary(header))
    }

    fn id(&self) -> (r: FormatId) {
        FormatId::MacBinary
    }

    fn probe(&self, header: &[u8], name: Option<&str>) -> (r: Confidence) {
        Confidence::magic_if(recognize_macbinary(header))
    }
}

/// The outcome of opening a MacBinary file.
pub open spec fn opens_macbinary(r: Result<Envelope, Error>, src: Source, opts: &OpenOptions) -> bool {
    opens_envelope(
        r,
        macbinary_rows(src.content()),
        FormatId::MacBinary,
        LegacyKind::MacBinary,
        Dating::Mac,
        src.content(),
        opts,
    )
}

impl MacBinaryHandler {
    /// Open an envelope.
    pub fn open(&self, src: Source, opts: &OpenOptions) -> (r: Result<Envelope, Error>)
        ensures
            opens_macbinary(r, src, opts),
    {
        let data = src.read_all();
        let rows = list_macbinary(data.as_slice());
        unwrap_envelope(rows, FormatId::MacBinary, LegacyKind::MacBinary, Dating::Mac, data, opts)
    }
}

/// The archive that an envelope carries is never its resource fork, and no entry
/// before it is an archive.
pub proof fn payload_is_first_data_fork(metas: Seq<MetaView>)
    ensures
        ({
            let i = payload_from(metas, 0);
            &&& 0 <= i <= metas.len()
            &&& i < metas.len() ==> is_payload(metas[i])
            &&& forall|k: int| 0 <= k < i ==> !is_payload(#[trigger] metas[k])
        }),
{
    payload_after(metas, 0);
}

proof fn payload_after(metas: Seq<MetaView>, from: int)
    requires
        0 <= from <= metas.len(),
    ensures
        ({
            let i = payload_from(metas, from);
            &&& from <= i <= metas.len()
            &&& i < metas.len() ==> is_payload(metas[i])
            &&& forall|k: int| from <= k < i ==> !is_payload(#[trigger] metas[k])
        }),
    decreases metas.len() - from,
{
    if from < metas.len() && !is_payload(metas[from]) {
        payload_after(metas, from + 1);
    }
}

/// A file in an envelope is taken for an archive by the ending of its name, `.sit`, `.cpt`
/// or `.sea`, in whatever case.
pub proof fn nested_archives_are_known_by_their_ending(stem: Seq<u8>, end: Seq<u8>)
    requires
        end.len() == 4,
    ensures
        names_nested_archive(stem + end) == (bytes::lower_bytes(end) == seq![0x2Eu8, 0x73, 0x69, 0x74] || bytes::lower_bytes(
            end,
        ) == seq![0x2Eu8, 0x63, 0x70, 0x74] || bytes::lower_bytes(end) == seq![0x2Eu8, 0x73, 0x65, 0x61]),
{
    let name = stem + end;
    assert(name.skip(name.len() - 4) =~= end);
    assert(bytes::lower_bytes(SIT_SUFFIX@) =~= seq![0x2Eu8, 0x73, 0x69, 0x74]);
    assert(bytes::lower_bytes(CPT_SUFFIX@) =~= seq![0x2Eu8, 0x63, 0x70, 0x74]);
    assert(bytes::lower_bytes(SEA_SUFFIX@) =~= seq![0x2Eu8, 0x73, 0x65, 0x61]);
}

} // verus!
