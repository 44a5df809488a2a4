//! The StuffIt archivers.
use vstd::prelude::*;
use vstd::slice::slice_subrange;

use crate::archive;
use crate::bytes;
use crate::error;
use crate::format::legacy;
use crate::text;
use crate::archive::{Confidence, FormatHandler, FormatId, OpenOptions, Source};
use crate::error::{io_error, Error, IoError, IoKind};
use crate::format::legacy::{open_listed, Dating, LegacyKind, LegacyReader, Row, RowView};
use crate::format::legacy::{lzw, sitx, tree};
use crate::bytes::{be_u16, be_u32};
use crate::format::legacy::lzw::check_lzw;
use crate::format::legacy::sitx::check_sitx;
use crate::format::legacy::tree::check_tree;
use crate::text::copy_text;

verus! {

/// The two marks of a classic StuffIt archive: `SIT!` and `rLau`.
pub open spec fn is_stuffit(data: Seq<u8>) -> bool {
    bytes::stands_at(data, 0, seq![0x53u8, 0x49, 0x54, 0x21]) && bytes::stands_at(data, 10, seq![0x72u8, 0x4C, 0x61, 0x75])
}

/// `newtua_stuffit::stuffit::StuffItArchive::recognize`: both marks stand in their places.
#[verifier::external_body]
fn recognize_stuffit(data: &[u8]) -> (r: bool)
    ensures
        r == is_stuffit(data@),
{
    newtua_stuffit::stuffit::StuffItArchive::recognize(data)
}

/// The entries that `newtua_stuffit::stuffit::StuffItArchive::entries` lists, or the failure to open.
pub uninterp spec fn stuffit_rows(data: Seq<u8>) -> Result<Seq<RowView>, (IoKind, Seq<char>)>;

/// `newtua_stuffit::stuffit::StuffItArchive::open` and then `entries`: the name and size and whether it is a resource fork
/// or a directory and its date of each
/// entry, in order.
#[verifier::external_body]
fn list_stuffit(data: &[u8]) -> (r: Result<Vec<Row>, IoError>)
    ensures
        legacy::rows_result(r) == stuffit_rows(data@),
{
    let archive = newtua_stuffit::stuffit::StuffItArchive::open(data).map_err(io_error)?;
    Ok(archive.entries().iter().map(|e| Row { name: e.name().to_vec(), is_dir: Some(e.is_directory()), size: Some(e.size()), is_encrypted: None, is_resource_fork: Some(e.is_resource_fork()), date: Some(e.modification_date()) }).collect())
}

/// What `newtua_stuffit::stuffit::StuffItArchive::read_entry` writes for an entry, or its failure.
pub uninterp spec fn stuffit_entry(data: Seq<u8>, idx: int) -> Result<Seq<u8>, (IoKind, Seq<char>)>;

/// `newtua_stuffit::stuffit::StuffItArchive::open` and then `read_entry`: what is written
/// for entry `idx`, or the first failure. The outside code calls itself for a
/// branch of a code tree.
#[verifier::external_body]
fn read_stuffit(data: &[u8], idx: usize) -> (r: Result<Vec<u8>, IoError>)
    requires
        stuffit_fits(data@, idx as int),
    ensures
        error::io_bytes(r) == stuffit_entry(data@, idx as int),
{
    let archive = newtua_stuffit::stuffit::StuffItArchive::open(data).map_err(io_error)?;
    let mut out = Vec::new();
    archive.read_entry(idx, &mut out).map_err(io_error)?;
    Ok(out)
}

/// The length of the header of an entry of a classic StuffIt archive.
pub const ENTRY_LEN: usize = 112;

/// The first header of an entry.
pub const FIRST_ENTRY: usize = 22;

/// The bytes of a fork, `len` of them from `from` on, can be unpacked: a code tree
/// before them has not too many branches, and their codes have an end. What an
/// encrypted fork holds does not show, so with a key for it there must be room for
/// no more branches, and there are no codes.
#[verifier::opaque]
pub open spec fn fork_fits(data: Seq<u8>, locked: bool, keyed: bool, method: u8, from: int, len: int) -> bool {
    if from + len > data.len() || locked && !keyed {
        true
    } else if method % 16 == 3 {
        if locked {
            8 * len <= tree::MAX_BRANCHES
        } else {
            tree::tree_fits(data.subrange(from, from + len))
        }
    } else if method % 16 == 2 {
        !locked && lzw::lzw_fits(data.subrange(from, from + len), 14)
    } else {
        true
    }
}

fn check_fork(data: &[u8], locked: bool, keyed: bool, method: u8, from: u128, len: u32) -> (r: bool)
    requires
        from <= 0xFFFF_FFFF_FFFF_FFFF_FFFF,
    ensures
        r == fork_fits(data@, locked, keyed, method, from as int, len as int),
{
    proof {
        reveal(fork_fits);
    }
    if from + len as u128 > data.len() as u128 || locked && !keyed {
        return true;
    }
    let packed: &[u8] = slice_subrange(data, from as usize, (from + len as u128) as usize);
    if method % 16 == 3 {
        if locked {
            8 * len as u64 <= tree::MAX_BRANCHES as u64
        } else {
            check_tree(packed)
        }
    } else if method % 16 == 2 {
        !locked && check_lzw(packed, 14)
    } else {
        true
    }
}

/// A method that marks the beginning of a folder.
pub open spec fn opens_folder(method: u8) -> bool {
    method / 32 % 4 == 1 && method % 16 == 0
}

/// A method that marks the end of a folder.
pub open spec fn closes_folder(method: u8) -> bool {
    method / 32 % 4 == 1 && method % 16 == 1
}

/// The entry that has `skip` others before it, from the header at `pos` on, does
/// not begin with too large a code tree. A folder is an entry, its end is none,
/// and a file has one for each of its forks, the resource fork before the data
/// fork, without the empty ones; one with two empty forks has its data fork.
pub open spec fn entry_fits(data: Seq<u8>, pos: int, skip: int) -> bool
    decreases data.len() - pos,
{
    if pos < 0 || pos + ENTRY_LEN > bytes::be32(data, 6) || pos + ENTRY_LEN > data.len() {
        true
    } else {
        let resource = bytes::be32(data, pos + 84);
        let body = pos + ENTRY_LEN;
        let middle = body + bytes::be32(data, pos + 92);
        let end = middle + bytes::be32(data, pos + 96);
        let left = if resource != 0 { skip - 1 } else { skip };
        if opens_folder(data[pos]) || opens_folder(data[pos + 1]) {
            skip == 0 || entry_fits(data, body, skip - 1)
        } else if closes_folder(data[pos]) || closes_folder(data[pos + 1]) {
            entry_fits(data, body, skip)
        } else if resource != 0 && skip == 0 {
            fork_fits(data, data[pos] >= 128, false, data[pos], body, middle - body)
        } else if bytes::be32(data, pos + 88) == 0 && resource != 0 {
            end > data.len() || entry_fits(data, end, left)
        } else if left == 0 {
            fork_fits(data, data[pos + 1] >= 128, false, data[pos + 1], middle, end - middle)
        } else {
            end > data.len() || entry_fits(data, end, left - 1)
        }
    }
}

/// Entry `idx` of an archive can be unpacked.
pub open spec fn stuffit_fits(data: Seq<u8>, idx: int) -> bool {
    data.len() >= FIRST_ENTRY ==> entry_fits(data, FIRST_ENTRY as int, idx)
}

/// Whether entry `idx` of an archive can be unpacked.
pub fn check_stuffit(data: &[u8], idx: usize) -> (r: bool)
    ensures
        r == stuffit_fits(data@, idx as int),
{
    if data.len() < FIRST_ENTRY {
        return true;
    }
    let total: usize = be_u32(data, 6) as usize;
    let mut pos: usize = FIRST_ENTRY;
    let mut skip: usize = idx;
    while pos <= total && ENTRY_LEN <= total - pos && ENTRY_LEN <= data.len() - pos
        invariant
            pos <= data.len(),
            data.len() >= FIRST_ENTRY,
            total == bytes::be32(data@, 6),
            stuffit_fits(data@, idx as int) == entry_fits(data@, pos as int, skip as int),
        decreases data.len() - pos,
    {
        let a: u8 = data[pos];
        let b: u8 = data[pos + 1];
        let resource: u32 = be_u32(data, pos + 84);
        let first: u32 = be_u32(data, pos + 92);
        let second: u32 = be_u32(data, pos + 96);
        let body: u128 = pos as u128 + ENTRY_LEN as u128;
        let middle: u128 = body + first as u128;
        let end: u128 = middle + second as u128;
        if a / 32 % 4 == 1 && a % 16 == 0 || b / 32 % 4 == 1 && b % 16 == 0 {
            if skip == 0 {
                return true;
            }
            skip = skip - 1;
            pos = pos + ENTRY_LEN;
        } else if a / 32 % 4 == 1 && a % 16 == 1 || b / 32 % 4 == 1 && b % 16 == 1 {
            pos = pos + ENTRY_LEN;
        } else if resource != 0 && skip == 0 {
            return check_fork(data, a >= 128, false, a, body, first);
        } else {
            let left: usize = if resource != 0 { skip - 1 } else { skip };
            let held: bool = be_u32(data, pos + 88) != 0 || resource == 0;
            if held && left == 0 {
                return check_fork(data, b >= 128, false, b, middle, second);
            }
            if end > data.len() as u128 {
                return true;
            }
            skip = if held { left - 1 } else { left };
            pos = end as usize;
        }
    }
    true
}

/// The body of an entry, or why it cannot be read.
pub open spec fn stuffit_body(data: Seq<u8>, idx: int) -> Result<Seq<u8>, (IoKind, Seq<char>)> {
    if stuffit_fits(data, idx) {
        stuffit_entry(data, idx)
    } else {
        Err((IoKind::InvalidData, "stuffit: packed data without an end"@))
    }
}

/// Read an entry.
pub(crate) fn unpack_stuffit(data: &[u8], idx: usize) -> (r: Result<Vec<u8>, IoError>)
    ensures
        error::io_bytes(r) == stuffit_body(data@, idx as int),
{
    if check_stuffit(data, idx) {
        read_stuffit(data, idx)
    } else {
        Err(IoError { kind: IoKind::InvalidData, message: copy_text("stuffit: packed data without an end") })
    }
}

/// Reads classic StuffIt archives.
#[derive(Debug, Clone, Copy)]
pub struct StuffItHandler;

impl FormatHandler for StuffItHandler {
    open spec fn spec_id(&self) -> FormatId {
        FormatId::StuffIt
    }

    open spec fn spec_probe(&self, header: Seq<u8>, name: Option<Seq<char>>) -> Confidence {
        archive::magic_when(is_stuffit(header))
    }

    fn id(&self) -> (r: FormatId) {
        FormatId::StuffIt
    }

    fn probe(&self, header: &[u8], name: Option<&str>) -> (r: Confidence) {
        Confidence::magic_if(recognize_stuffit(header))
    }
}

/// The outcome of opening a classic StuffIt archive.
pub open spec fn opens_stuffit(r: Result<LegacyReader, Error>, src: Source, opts: &OpenOptions) -> bool {
    legacy::opens_as(
        r,
        stuffit_rows(src.content()),
        FormatId::StuffIt,
        LegacyKind::StuffIt,
        Dating::Mac,
        src.content(),
        opts,
    )
}

impl StuffItHandler {
    /// Open an archive.
    pub fn open(&self, src: Source, opts: &OpenOptions) -> (r: Result<LegacyReader, Error>)
        ensures
            opens_stuffit(r, src, opts),
    {
        let data = src.read_all();
        let rows = list_stuffit(data.as_slice());
        open_listed(rows, FormatId::StuffIt, LegacyKind::StuffIt, Dating::Mac, data, opts)
    }
}

/// What `newtua_stuffit::sit5::StuffIt5Archive::recognize` says of some bytes.
pub uninterp spec fn is_sit5(data: Seq<u8>) -> bool;

/// `newtua_stuffit::sit5::StuffIt5Archive::recognize`: the answer depends on the bytes alone.
#[verifier::external_body]
fn recognize_sit5(data: &[u8]) -> (r: bool)
    ensures
        r == is_sit5(data@),
{
    newtua_stuffit::sit5::StuffIt5Archive::recognize(data)
}

/// The entries that `newtua_stuffit::sit5::StuffIt5Archive::entries` lists, or the failure to open.
pub uninterp spec fn sit5_rows(data: Seq<u8>, password: Option<Seq<char>>) -> Result<Seq<RowView>, (IoKind, Seq<char>)>;

/// `newtua_stuffit::sit5::StuffIt5Archive::open`, or `open_with_password` where there is a password, and then `entries`: the name and size and whether it is a resource fork
/// or a directory and its date of each
/// entry, in order. Of a program with an archive in it, the outside code cuts off
/// what comes before the archive, so that has to be there.
#[verifier::external_body]
fn list_sit5(data: &[u8], password: Option<&str>) -> (r: Result<Vec<Row>, IoError>)
    requires
        stub_is_whole(data@),
    ensures
        legacy::rows_result(r) == sit5_rows(data@, text::opt_text(password)),
{
    let archive = match password {
        Some(p) => newtua_stuffit::sit5::StuffIt5Archive::open_with_password(data, p.as_bytes()),
        None => newtua_stuffit::sit5::StuffIt5Archive::open(data),
    }.map_err(io_error)?;
    Ok(archive.entries().iter().map(|e| Row { name: e.name().to_vec(), is_dir: Some(e.is_directory()), size: Some(e.size()), is_encrypted: None, is_resource_fork: Some(e.is_resource_fork()), date: Some(e.modification_date()) }).collect())
}

/// What `newtua_stuffit::sit5::StuffIt5Archive::read_entry` writes for an entry, or its failure.
pub uninterp spec fn sit5_entry(data: Seq<u8>, password: Option<Seq<char>>, idx: int) -> Result<Seq<u8>, (IoKind, Seq<char>)>;

/// `newtua_stuffit::sit5::StuffIt5Archive::open`, or `open_with_password` where there is a password, and then `read_entry`: what is written
/// for entry `idx`, or the first failure. The outside code calls itself for a
/// branch of a code tree; of that of an encrypted fork nothing is asked.
#[verifier::external_body]
fn read_sit5(data: &[u8], password: Option<&str>, idx: usize) -> (r: Result<Vec<u8>, IoError>)
    requires
        stub_is_whole(data@),
        sit5_fits(data@, password is Some, idx as int),
    ensures
        error::io_bytes(r) == sit5_entry(data@, text::opt_text(password), idx as int),
{
    let archive = match password {
        Some(p) => newtua_stuffit::sit5::StuffIt5Archive::open_with_password(data, p.as_bytes()),
        None => newtua_stuffit::sit5::StuffIt5Archive::open(data),
    }.map_err(io_error)?;
    let mut out = Vec::new();
    archive.read_entry(idx, &mut out).map_err(io_error)?;
    Ok(out)
}

/// The length of the program that a self-extracting StuffIt 5 archive begins with.
pub const STUB_LEN: usize = 0x1a000;

/// The length of the header of a StuffIt 5 archive.
pub const SIT5_HEADER_LEN: usize = 100;

/// The bytes are a program with a StuffIt 5 archive in it.
pub open spec fn wraps_sit5(data: Seq<u8>) -> bool {
    data.len() >= 4104 && data[0] == 0x4D && data[1] == 0x5A && bytes::be32(data, 4100) == 0x4203_E853
}

/// A program with an archive in it reaches as far as the archive.
pub open spec fn stub_is_whole(data: Seq<u8>) -> bool {
    wraps_sit5(data) ==> data.len() >= STUB_LEN
}

/// Where a StuffIt 5 archive begins.
pub open spec fn sit5_start(data: Seq<u8>) -> int {
    if wraps_sit5(data) {
        STUB_LEN as int
    } else {
        0
    }
}

/// Whether the bytes are a program with a StuffIt 5 archive in it.
fn is_wrapped(data: &[u8]) -> (r: bool)
    ensures
        r == wraps_sit5(data@),
{
    data.len() >= 4104 && data[0] == 0x4D && data[1] == 0x5A && be_u32(data, 4100) == 0x4203_E853
}

/// Whether a program with an archive in it reaches as far as the archive.
pub fn check_stub(data: &[u8]) -> (r: bool)
    ensures
        r == stub_is_whole(data@),
{
    !is_wrapped(data) || data.len() >= STUB_LEN
}

/// Where the name of a StuffIt 5 entry begins, whose header stands at `pos`.
pub open spec fn sit5_name(data: Seq<u8>, pos: int) -> int {
    if data[pos + 9] / 64 % 2 == 0 && data[pos + 9] / 32 % 2 == 1 && bytes::be32(data, pos + 34) != 0 {
        pos + 53
    } else {
        pos + 48
    }
}

/// Where the second header of a StuffIt 5 entry begins, in the archive that begins
/// at `start`: behind its name and the comment, if the first header, which says how
/// long it is, has room for one.
pub open spec fn sit5_second(data: Seq<u8>, start: int, pos: int) -> int {
    let past = sit5_name(data, pos) + bytes::be16(data, pos + 30);
    if past - start < (pos - start) % 0x1_0000_0000 + bytes::be16(data, pos + 6) && past + 2 <= data.len() {
        past + 4 + bytes::be16(data, past)
    } else {
        past
    }
}

/// What the two headers of a StuffIt 5 entry say.
#[derive(Debug, Clone, Copy)]
pub struct Sit5Header {
    /// Whether it is a folder.
    pub folder: bool,
    /// Whether its forks are encrypted.
    pub locked: bool,
    /// The length of the data fork.
    pub len: u32,
    /// Whether there is a resource fork.
    pub forked: bool,
    /// Whether the resource fork is encrypted.
    pub resource_locked: bool,
    /// How the resource fork is packed.
    pub resource_method: u8,
    /// The length of the packed resource fork.
    pub resource: u32,
    /// How the data fork is packed.
    pub method: u8,
    /// The length of the packed data fork.
    pub packed: u32,
    /// How many entries a folder has.
    pub inner: u16,
    /// Where the packed forks begin.
    pub content: u128,
}

/// What the headers say of the entry whose first header stands at `pos`; nothing, if
/// the bytes end before.
pub open spec fn sit5_header(data: Seq<u8>, start: int, pos: int) -> Option<Sit5Header> {
    let folder = data[pos + 9] / 64 % 2 == 1;
    let locked = data[pos + 9] / 32 % 2 == 1;
    let second = sit5_second(data, start, pos);
    let more = second + (if data[pos + 4] == 1 { 36int } else { 32 });
    let forked = data[second + 1] % 2 == 1;
    let resource_locked = forked && locked && bytes::be32(data, more) != 0;
    let content = more + (if !forked { 0int } else if resource_locked { 19 } else { 14 });
    if more > data.len() || content > data.len() {
        None
    } else {
        Some(Sit5Header {
            folder,
            locked,
            len: bytes::be32(data, pos + 34) as u32,
            forked,
            resource_locked,
            resource_method: if forked { data[more + 12] } else { 0 },
            resource: if forked { bytes::be32(data, more + 4) as u32 } else { 0 },
            method: data[pos + 46],
            packed: bytes::be32(data, pos + 38) as u32,
            inner: bytes::be16(data, pos + 46) as u16,
            content: content as u128,
        })
    }
}

fn read_sit5_header(data: &[u8], start: usize, pos: usize) -> (r: Option<Sit5Header>)
    requires
        start <= pos,
        pos + 48 <= data.len(),
    ensures
        r == sit5_header(data@, start as int, pos as int),
        r matches Some(h) ==> pos + 48 <= h.content <= data.len(),
{
    let all: u128 = data.len() as u128;
    let folder: bool = data[pos + 9] / 64 % 2 == 1;
    let locked: bool = data[pos + 9] / 32 % 2 == 1;
    let len: u32 = be_u32(data, pos + 34);
    let named: u128 = pos as u128 + if !folder && locked && len != 0 { 53 } else { 48 };
    let past: u128 = named + be_u16(data, pos + 30) as u128;
    let edge: u128 = (pos - start) as u128 % 0x1_0000_0000 + be_u16(data, pos + 6) as u128;
    let second: u128 = if past - (start as u128) < edge && past + 2 <= all {
        past + 4 + be_u16(data, past as usize) as u128
    } else {
        past
    };
    let more: u128 = second + (if data[pos + 4] == 1 { 36 } else { 32 });
    if more > all {
        return None;
    }
    let forked: bool = data[second as usize + 1] % 2 == 1;
    if forked && more + 14 > all {
        return None;
    }
    let resource_locked: bool = forked && locked && be_u32(data, more as usize) != 0;
    let content: u128 = more + (if !forked { 0 } else if resource_locked { 19 } else { 14 });
    if content > all {
        return None;
    }
    Some(Sit5Header {
        folder,
        locked,
        len,
        forked,
        resource_locked,
        resource_method: if forked { data[more as usize + 12] } else { 0 },
        resource: if forked { be_u32(data, more as usize + 4) } else { 0 },
        method: data[pos + 46],
        packed: be_u32(data, pos + 38),
        inner: be_u16(data, pos + 46),
        content,
    })
}

/// The entry that has `skip` others before it, from the header at `pos` on, where
/// `todo` headers are to come, can be unpacked. A folder is an entry; the header
/// without contents behind its own is none. A file has an entry for its resource
/// fork, if it has one, and one for its data fork, unless that is empty and there is
/// a resource fork.
pub open spec fn sit5_entry_fits(data: Seq<u8>, keyed: bool, start: int, pos: int, todo: int, skip: int) -> bool
    decreases data.len() - pos,
{
    if todo <= 0 || pos < 0 || pos + 48 > data.len() || bytes::be32(data, pos) != 0xA5A5_A5A5 {
        true
    } else if data[pos + 9] / 64 % 2 == 1 && bytes::be32(data, pos + 34) == 0xFFFF_FFFF {
        sit5_entry_fits(data, keyed, start, pos + 48, todo, skip)
    } else {
        match sit5_header(data, start, pos) {
            None => true,
            Some(h) => {
                let end = h.content + h.resource + h.packed;
                let left = if h.forked { skip - 1 } else { skip };
                if h.content <= pos || h.content > data.len() {
                    true
                } else if h.folder {
                    skip == 0 || sit5_entry_fits(data, keyed, start, h.content as int, todo - 1 + h.inner, skip - 1)
                } else if h.forked && skip == 0 {
                    fork_fits(data, h.resource_locked, keyed, h.resource_method, h.content as int, h.resource as int)
                } else if h.len == 0 && h.forked {
                    end > data.len() || sit5_entry_fits(data, keyed, start, end, todo - 1, left)
                } else if left == 0 {
                    fork_fits(data, h.locked && h.len != 0, keyed, h.method, h.content + h.resource, h.packed as int)
                } else {
                    end > data.len() || sit5_entry_fits(data, keyed, start, end, todo - 1, left - 1)
                }
            },
        }
    }
}

/// Entry `idx` of an archive can be unpacked, with a key for it or without.
pub open spec fn sit5_fits(data: Seq<u8>, keyed: bool, idx: int) -> bool {
    let start = sit5_start(data);
    start + SIT5_HEADER_LEN <= data.len() ==> sit5_entry_fits(
        data,
        keyed,
        start,
        start + bytes::be32(data, start + 94),
        bytes::be16(data, start + 92),
        idx,
    )
}

/// Whether entry `idx` of an archive can be unpacked, with a key for it or without.
pub fn check_sit5(data: &[u8], keyed: bool, idx: usize) -> (r: bool)
    ensures
        r == sit5_fits(data@, keyed, idx as int),
{
    let all: u128 = data.len() as u128;
    let start: usize = if is_wrapped(data) { STUB_LEN } else { 0 };
    if start as u128 + SIT5_HEADER_LEN as u128 > all {
        return true;
    }
    let mut pos: u128 = start as u128 + be_u32(data, start + 94) as u128;
    let mut todo: u128 = be_u16(data, start + 92) as u128;
    let mut skip: usize = idx;
    while todo > 0 && pos + 48 <= all
        invariant
            all == data.len(),
            start <= pos <= all + 0x1_0000_0000,
            todo <= 0x1_0000 * (pos + 1),
            sit5_fits(data@, keyed, idx as int) == sit5_entry_fits(
                data@,
                keyed,
                start as int,
                pos as int,
                todo as int,
                skip as int,
            ),
        decreases all + 0x1_0000_0000 - pos,
    {
        let at: usize = pos as usize;
        if be_u32(data, at) != 0xA5A5_A5A5 {
            return true;
        }
        if data[at + 9] / 64 % 2 == 1 && be_u32(data, at + 34) == 0xFFFF_FFFF {
            pos = pos + 48;
        } else {
            match read_sit5_header(data, start, at) {
                None => {
                    return true;
                },
                Some(h) => {
                    let middle: u128 = h.content + h.resource as u128;
                    let end: u128 = middle + h.packed as u128;
                    if h.folder {
                        if skip == 0 {
                            return true;
                        }
                        skip = skip - 1;
                        todo = todo - 1 + h.inner as u128;
                        pos = h.content;
                    } else if h.forked && skip == 0 {
                        return check_fork(data, h.resource_locked, keyed, h.resource_method, h.content, h.resource);
                    } else {
                        let left: usize = if h.forked { skip - 1 } else { skip };
                        let held: bool = h.len != 0 || !h.forked;
                        if held && left == 0 {
                            return check_fork(data, h.locked && h.len != 0, keyed, h.method, middle, h.packed);
                        }
                        if end > all {
                            return true;
                        }
                        skip = if held { left - 1 } else { left };
                        todo = todo - 1;
                        pos = end;
                    }
                },
            }
        }
    }
    true
}

/// The entries of an archive, or why it cannot be opened.
pub open spec fn sit5_listing(data: Seq<u8>, password: Option<Seq<char>>) -> Result<Seq<RowView>, (IoKind, Seq<char>)> {
    if stub_is_whole(data) {
        sit5_rows(data, password)
    } else {
        Err((IoKind::UnexpectedEof, "stuffit5: program without its archive"@))
    }
}

/// The body of an entry, or why it cannot be read.
pub open spec fn sit5_body(data: Seq<u8>, password: Option<Seq<char>>, idx: int) -> Result<Seq<u8>, (IoKind, Seq<char>)> {
    if !stub_is_whole(data) {
        Err((IoKind::UnexpectedEof, "stuffit5: program without its archive"@))
    } else if !sit5_fits(data, password is Some, idx) {
        Err((IoKind::InvalidData, "stuffit5: packed data without an end"@))
    } else {
        sit5_entry(data, password, idx)
    }
}

fn cut_short() -> (r: IoError)
    ensures
        r.kind == IoKind::UnexpectedEof,
        r.message@ == "stuffit5: program without its archive"@,
{
    IoError { kind: IoKind::UnexpectedEof, message: copy_text("stuffit5: program without its archive") }
}

/// Read an entry.
pub(crate) fn unpack_sit5(data: &[u8], password: Option<&str>, idx: usize) -> (r: Result<Vec<u8>, IoError>)
    ensures
        error::io_bytes(r) == sit5_body(data@, text::opt_text(password), idx as int),
{
    if !check_stub(data) {
        Err(cut_short())
    } else if !check_sit5(data, password.is_some(), idx) {
        Err(IoError { kind: IoKind::InvalidData, message: copy_text("stuffit5: packed data without an end") })
    } else {
        read_sit5(data, password, idx)
    }
}

/// Reads StuffIt 5 archives.
#[derive(Debug, Clone, Copy)]
pub struct StuffIt5Handler;

impl FormatHandler for StuffIt5Handler {
    open spec fn spec_id(&self) -> FormatId {
        FormatId::StuffIt5
    }

    open spec fn spec_probe(&self, header: Seq<u8>, name: Option<Seq<char>>) -> Confidence {
        archive::magic_when(is_sit5(header))
    }

    fn id(&self) -> (r: FormatId) {
        FormatId::StuffIt5
    }

    fn probe(&self, header: &[u8], name: Option<&str>) -> (r: Confidence) {
        Confidence::magic_if(recognize_sit5(header))
    }
}

/// The outcome of opening a StuffIt 5 archive.
pub open spec fn opens_stuffit5(r: Result<LegacyReader, Error>, src: Source, opts: &OpenOptions) -> bool {
    legacy::opens_as(
        r,
        sit5_listing(src.content(), text::opt_string(opts.password)),
        FormatId::StuffIt5,
        LegacyKind::StuffIt5,
        Dating::Mac,
        src.content(),
        opts,
    )
}

impl StuffIt5Handler {
    /// Open an archive.
    pub fn open(&self, src: Source, opts: &OpenOptions) -> (r: Result<LegacyReader, Error>)
        ensures
            opens_stuffit5(r, src, opts),
    {
        let data = src.read_all();
        let pass = match &opts.password {
            Some(p) => Some(p.as_str()),
            None => None,
        };
        let rows = if check_stub(data.as_slice()) {
            list_sit5(data.as_slice(), pass)
        } else {
            Err(cut_short())
        };
        open_listed(rows, FormatId::StuffIt5, LegacyKind::StuffIt5, Dating::Mac, data, opts)
    }
}

/// The mark of a StuffItX archive: `StuffIt` and then `!` or `?`.
pub open spec fn is_sitx(data: Seq<u8>) -> bool {
    data.len() >= 8 && bytes::stands_at(data, 0, seq![0x53u8, 0x74, 0x75, 0x66, 0x66, 0x49, 0x74]) && (data[7] == 0x21 || data[7]
        == 0x3F)
}

/// `newtua_stuffit::sitx::SitxArchive::recognize`: the mark begins the bytes.
#[verifier::external_body]
fn recognize_sitx(data: &[u8]) -> (r: bool)
    ensures
        r == is_sitx(data@),
{
    newtua_stuffit::sitx::SitxArchive::recognize(data)
}

/// The entries that `newtua_stuffit::sitx::SitxArchive::entries` lists, or the failure to open.
pub uninterp spec fn sitx_rows(data: Seq<u8>) -> Result<Seq<RowView>, (IoKind, Seq<char>)>;

/// `newtua_stuffit::sitx::SitxArchive::open` and then `entries`: the name, the size and whether it is a directory, of each
/// entry, in order. The outside code makes room for what the archive announces, adds up
/// the lengths in it, and unpacks the catalog; most of its unpackers trust what they
/// read.
#[verifier::external_body]
fn list_sitx(data: &[u8]) -> (r: Result<Vec<Row>, IoError>)
    requires
        sitx::sitx_fits(data@, false),
    ensures
        legacy::rows_result(r) == sitx_rows(data@),
{
    let archive = newtua_stuffit::sitx::SitxArchive::open(data).map_err(io_error)?;
    Ok(archive.entries().iter().map(|e| Row { name: e.name().to_vec(), is_dir: Some(e.is_directory()), size: Some(e.size()), is_encrypted: None, is_resource_fork: None, date: None }).collect())
}

/// What `newtua_stuffit::sitx::SitxArchive::read_entry` writes for an entry, or its failure.
pub uninterp spec fn sitx_entry(data: Seq<u8>, idx: int) -> Result<Seq<u8>, (IoKind, Seq<char>)>;

/// `newtua_stuffit::sitx::SitxArchive::open` and then `read_entry`: what is written
/// for entry `idx`, or the first failure.
#[verifier::external_body]
fn read_sitx(data: &[u8], idx: usize) -> (r: Result<Vec<u8>, IoError>)
    requires
        sitx::sitx_fits(data@, true),
    ensures
        error::io_bytes(r) == sitx_entry(data@, idx as int),
{
    let archive = newtua_stuffit::sitx::SitxArchive::open(data).map_err(io_error)?;
    let mut out = Vec::new();
    archive.read_entry(idx, &mut out).map_err(io_error)?;
    Ok(out)
}

/// The entries of an archive, or why it cannot be opened.
pub open spec fn sitx_listing(data: Seq<u8>) -> Result<Seq<RowView>, (IoKind, Seq<char>)> {
    if sitx::sitx_fits(data, false) {
        sitx_rows(data)
    } else {
        Err((IoKind::Other, "stuffitx: method or size is not supported"@))
    }
}

/// The body of an entry, or why it cannot be read.
pub open spec fn sitx_body(data: Seq<u8>, idx: int) -> Result<Seq<u8>, (IoKind, Seq<char>)> {
    if sitx::sitx_fits(data, true) {
        sitx_entry(data, idx)
    } else {
        Err((IoKind::Other, "stuffitx: method or size is not supported"@))
    }
}

fn unsupported() -> (r: IoError)
    ensures
        r.kind == IoKind::Other,
        r.message@ == "stuffitx: method or size is not supported"@,
{
    IoError { kind: IoKind::Other, message: copy_text("stuffitx: method or size is not supported") }
}

/// Read an entry.
pub(crate) fn unpack_sitx(data: &[u8], idx: usize) -> (r: Result<Vec<u8>, IoError>)
    ensures
        error::io_bytes(r) == sitx_body(data@, idx as int),
{
    if check_sitx(data, true) {
        read_sitx(data, idx)
    } else {
        Err(unsupported())
    }
}

/// Reads StuffItX archives.
#[derive(Debug, Clone, Copy)]
pub struct StuffItXHandler;

impl FormatHandler for StuffItXHandler {
    open spec fn spec_id(&self) -> FormatId {
        FormatId::StuffItX
    }

    open spec fn spec_probe(&self, header: Seq<u8>, name: Option<Seq<char>>) -> Confidence {
        archive::magic_when(is_sitx(header))
    }

    fn id(&self) -> (r: FormatId) {
        FormatId::StuffItX
    }

    fn probe(&self, header: &[u8], name: Option<&str>) -> (r: Confidence) {
        Confidence::magic_if(recognize_sitx(header))
    }
}

/// The outcome of opening a StuffItX archive.
pub open spec fn opens_stuffitx(r: Result<LegacyReader, Error>, src: Source, opts: &OpenOptions) -> bool {
    legacy::opens_as(
        r,
        sitx_listing(src.content()),
        FormatId::StuffItX,
        LegacyKind::StuffItX,
        Dating::Undated,
        src.content(),
        opts,
    )
}

impl StuffItXHandler {
    /// Open an archive.
    pub fn open(&self, src: Source, opts: &OpenOptions) -> (r: Result<LegacyReader, Error>)
        ensures
            opens_stuffitx(r, src, opts),
    {
        let data = src.read_all();
        let rows = if check_sitx(data.as_slice(), false) {
            list_sitx(data.as_slice())
        } else {
            Err(unsupported())
        };
        open_listed(rows, FormatId::StuffItX, LegacyKind::StuffItX, Dating::Undated, data, opts)
    }
}

} // verus!
