//! Archivers of DOS and CP/M.
use vstd::prelude::*;

use crate::archive;
use crate::bytes;
use crate::error;
use crate::format::legacy;
use crate::format::legacy::{arc, cpm};
use crate::text;
use crate::archive::{Confidence, FormatHandler, FormatId, OpenOptions, Source};
use crate::bytes::{found_at, le_u32, starts_with};
use crate::error::{io_error, Error, IoError, IoKind};
use crate::format::legacy::{open_listed, Dating, LegacyKind, LegacyReader, Row, RowView};
use crate::format::legacy::arc::check_arc;
use crate::format::legacy::cpm::{check_crunch, check_lbr, check_squeeze};
use crate::text::{copy_text, name_ends};

verus! {

/// What `newtua_dos::arj::ArjArchive::recognize` says of some bytes.
pub uninterp spec fn is_arj(data: Seq<u8>) -> bool;

/// `newtua_dos::arj::ArjArchive::recognize`: the answer depends on the bytes alone.
#[verifier::external_body]
fn recognize_arj(data: &[u8]) -> (r: bool)
    ensures
        r == is_arj(data@),
{
    newtua_dos::arj::ArjArchive::recognize(data)
}

/// The entries that `newtua_dos::arj::ArjArchive::entries` lists, or the failure to open.
pub uninterp spec fn arj_rows(data: Seq<u8>) -> Result<Seq<RowView>, (IoKind, Seq<char>)>;

/// `newtua_dos::arj::ArjArchive::open` and then `entries`: the name, the size and whether it is a directory, of each
/// entry, in order.
#[verifier::external_body]
fn list_arj(data: &[u8]) -> (r: Result<Vec<Row>, IoError>)
    ensures
        legacy::rows_result(r) == arj_rows(data@),
{
    let archive = newtua_dos::arj::ArjArchive::open(data).map_err(io_error)?;
    Ok(archive.entries().iter().map(|e| Row { name: e.name().to_vec(), is_dir: Some(e.is_dir()), size: Some(e.size()), is_encrypted: None, is_resource_fork: None, date: None }).collect())
}

/// What `newtua_dos::arj::ArjArchive::read_entry` writes for an entry, or its failure.
pub uninterp spec fn arj_entry(data: Seq<u8>, idx: int) -> Result<Seq<u8>, (IoKind, Seq<char>)>;

/// `newtua_dos::arj::ArjArchive::open` and then `read_entry`: what is written
/// for entry `idx`, or the first failure.
#[verifier::external_body]
pub(crate) fn read_arj(data: &[u8], idx: usize) -> (r: Result<Vec<u8>, IoError>)
    ensures
        error::io_bytes(r) == arj_entry(data@, idx as int),
{
    let archive = newtua_dos::arj::ArjArchive::open(data).map_err(io_error)?;
    let mut out = Vec::new();
    archive.read_entry(idx, &mut out).map_err(io_error)?;
    Ok(out)
}

/// Reads ARJ archives, which are known by a header whose checksum fits.
#[derive(Debug, Clone, Copy)]
pub struct ArjHandler;

impl FormatHandler for ArjHandler {
    open spec fn spec_id(&self) -> FormatId {
        FormatId::Arj
    }

    open spec fn spec_probe(&self, header: Seq<u8>, name: Option<Seq<char>>) -> Confidence {
        archive::magic_when(is_arj(header))
    }

    fn id(&self) -> (r: FormatId) {
        FormatId::Arj
    }

    fn probe(&self, header: &[u8], name: Option<&str>) -> (r: Confidence) {
        Confidence::magic_if(recognize_arj(header))
    }
}

/// The outcome of opening an ARJ archive.
pub open spec fn opens_arj(r: Result<LegacyReader, Error>, src: Source, opts: &OpenOptions) -> bool {
    legacy::opens_as(
        r,
        arj_rows(src.content()),
        FormatId::Arj,
        LegacyKind::Arj,
        Dating::Undated,
        src.content(),
        opts,
    )
}

impl ArjHandler {
    /// Open an archive.
    pub fn open(&self, src: Source, opts: &OpenOptions) -> (r: Result<LegacyReader, Error>)
        ensures
            opens_arj(r, src, opts),
    {
        let data = src.read_all();
        let rows = list_arj(data.as_slice());
        open_listed(rows, FormatId::Arj, LegacyKind::Arj, Dating::Undated, data, opts)
    }
}

/// Where the mark of a Zoo archive stands, there is one.
pub open spec fn is_zoo(data: Seq<u8>) -> bool {
    data.len() >= 0x22 && bytes::stands_at(data, 0x14, seq![0xDCu8, 0xA7, 0xC4, 0xFD])
}

/// The length of a directory entry of a Zoo archive, without its names.
pub const ZOO_ENTRY_LEN: usize = 38;

/// There is a directory entry at `pos` that another one follows: it is whole,
/// bears the mark and says where the next one is.
pub open spec fn zoo_goes_on(data: Seq<u8>, pos: int) -> bool {
    &&& pos + ZOO_ENTRY_LEN <= data.len()
    &&& bytes::stands_at(data, pos, seq![0xDCu8, 0xA7, 0xC4, 0xFD])
    &&& bytes::le32(data, pos + 6) != 0
}

/// From `pos` on there are at most `steps` directory entries that another one
/// follows.
pub open spec fn zoo_ends(data: Seq<u8>, pos: int, steps: nat) -> bool
    decreases steps,
{
    !zoo_goes_on(data, pos) || (steps > 0 && zoo_ends(data, bytes::le32(data, pos + 6), (steps - 1) as nat))
}

/// The list of directory entries ends. One that leads back into itself has more
/// entries than the archive has bytes, however many are asked for.
pub open spec fn zoo_list_ends(data: Seq<u8>) -> bool {
    is_zoo(data) ==> zoo_ends(data, bytes::le32(data, 0x18), data.len())
}

/// Whether the list of directory entries ends.
pub fn check_zoo_list(data: &[u8]) -> (r: bool)
    ensures
        r == zoo_list_ends(data@),
{
    if !recognize_zoo(data) {
        return true;
    }
    let mut pos: u64 = le_u32(data, 0x18) as u64;
    let mut steps: usize = data.len();
    loop
        invariant
            is_zoo(data@),
            zoo_list_ends(data@) == zoo_ends(data@, pos as int, steps as nat),
            pos <= u32::MAX,
        decreases steps,
    {
        if pos + ZOO_ENTRY_LEN as u64 > data.len() as u64 {
            return true;
        }
        let at: usize = pos as usize;
        if !found_at(data, at, &[0xDC, 0xA7, 0xC4, 0xFD]) {
            return true;
        }
        let next: u32 = le_u32(data, at + 6);
        if next == 0 {
            return true;
        }
        if steps == 0 {
            return false;
        }
        steps = steps - 1;
        pos = next as u64;
    }
}

/// `newtua_dos::zoo::ZooArchive::recognize`: the bytes are long enough for a header and the mark
/// stands in it.
#[verifier::external_body]
fn recognize_zoo(data: &[u8]) -> (r: bool)
    ensures
        r == is_zoo(data@),
{
    newtua_dos::zoo::ZooArchive::recognize(data)
}

/// The entries that `newtua_dos::zoo::ZooArchive::entries` lists, or the failure to open.
pub uninterp spec fn zoo_rows(data: Seq<u8>) -> Result<Seq<RowView>, (IoKind, Seq<char>)>;

/// `newtua_dos::zoo::ZooArchive::open` and then `entries`: the name, the size and whether it is a directory, of each
/// entry, in order. The outside code follows the list of directory entries to
/// its end, so there has to be one.
#[verifier::external_body]
fn list_zoo(data: &[u8]) -> (r: Result<Vec<Row>, IoError>)
    requires
        zoo_list_ends(data@),
    ensures
        legacy::rows_result(r) == zoo_rows(data@),
{
    let archive = newtua_dos::zoo::ZooArchive::open(data).map_err(io_error)?;
    Ok(archive.entries().iter().map(|e| Row { name: e.name().to_vec(), is_dir: Some(e.is_dir()), size: Some(e.size()), is_encrypted: None, is_resource_fork: None, date: None }).collect())
}

/// What `newtua_dos::zoo::ZooArchive::read_entry` writes for an entry, or its failure.
pub uninterp spec fn zoo_entry(data: Seq<u8>, idx: int) -> Result<Seq<u8>, (IoKind, Seq<char>)>;

/// `newtua_dos::zoo::ZooArchive::open` and then `read_entry`: what is written
/// for entry `idx`, or the first failure.
#[verifier::external_body]
pub(crate) fn read_zoo(data: &[u8], idx: usize) -> (r: Result<Vec<u8>, IoError>)
    requires
        zoo_list_ends(data@),
    ensures
        error::io_bytes(r) == zoo_entry(data@, idx as int),
{
    let archive = newtua_dos::zoo::ZooArchive::open(data).map_err(io_error)?;
    let mut out = Vec::new();
    archive.read_entry(idx, &mut out).map_err(io_error)?;
    Ok(out)
}

/// Reads Zoo archives.
#[derive(Debug, Clone, Copy)]
pub struct ZooHandler;

impl FormatHandler for ZooHandler {
    open spec fn spec_id(&self) -> FormatId {
        FormatId::Zoo
    }

    open spec fn spec_probe(&self, header: Seq<u8>, name: Option<Seq<char>>) -> Confidence {
        archive::magic_when(is_zoo(header))
    }

    fn id(&self) -> (r: FormatId) {
        FormatId::Zoo
    }

    fn probe(&self, header: &[u8], name: Option<&str>) -> (r: Confidence) {
        Confidence::magic_if(recognize_zoo(header))
    }
}

/// The outcome of opening a Zoo archive.
pub open spec fn opens_zoo(r: Result<LegacyReader, Error>, src: Source, opts: &OpenOptions) -> bool {
    legacy::opens_as(
        r,
        zoo_rows(src.content()),
        FormatId::Zoo,
        LegacyKind::Zoo,
        Dating::Undated,
        src.content(),
        opts,
    )
}

impl ZooHandler {
    /// Open an archive whose list of directory entries ends.
    pub fn open(&self, src: Source, opts: &OpenOptions) -> (r: Result<LegacyReader, Error>)
        requires
            zoo_list_ends(src.content()),
        ensures
            opens_zoo(r, src, opts),
    {
        let data = src.read_all();
        let rows = list_zoo(data.as_slice());
        open_listed(rows, FormatId::Zoo, LegacyKind::Zoo, Dating::Undated, data, opts)
    }
}

/// What `newtua_dos::lbr::LbrArchive::recognize` says of some bytes.
pub uninterp spec fn is_lbr(data: Seq<u8>) -> bool;

/// `newtua_dos::lbr::LbrArchive::recognize`: the answer depends on the bytes alone.
#[verifier::external_body]
fn recognize_lbr(data: &[u8]) -> (r: bool)
    ensures
        r == is_lbr(data@),
{
    newtua_dos::lbr::LbrArchive::recognize(data)
}

/// The entries that `newtua_dos::lbr::LbrArchive::entries` lists, or the failure to open.
pub uninterp spec fn lbr_rows(data: Seq<u8>) -> Result<Seq<RowView>, (IoKind, Seq<char>)>;

/// `newtua_dos::lbr::LbrArchive::open` and then `entries`: the name and size of each
/// entry, in order.
#[verifier::external_body]
fn list_lbr(data: &[u8]) -> (r: Result<Vec<Row>, IoError>)
    ensures
        legacy::rows_result(r) == lbr_rows(data@),
{
    let archive = newtua_dos::lbr::LbrArchive::open(data).map_err(io_error)?;
    Ok(archive.entries().iter().map(|e| Row { name: e.name().to_vec(), is_dir: None, size: Some(e.size()), is_encrypted: None, is_resource_fork: None, date: None }).collect())
}

/// What `newtua_dos::lbr::LbrArchive::read_entry` writes for an entry, or its failure.
pub uninterp spec fn lbr_entry(data: Seq<u8>, idx: int) -> Result<Seq<u8>, (IoKind, Seq<char>)>;

/// `newtua_dos::lbr::LbrArchive::open` and then `read_entry`: what is written
/// for entry `idx`, or the first failure. The outside code adds up the bytes of what
/// is squeezed or crunched, so their sum has to fit.
#[verifier::external_body]
fn read_lbr(data: &[u8], idx: usize) -> (r: Result<Vec<u8>, IoError>)
    requires
        cpm::lbr_fits(data@, idx as int),
    ensures
        error::io_bytes(r) == lbr_entry(data@, idx as int),
{
    let archive = newtua_dos::lbr::LbrArchive::open(data).map_err(io_error)?;
    let mut out = Vec::new();
    archive.read_entry(idx, &mut out).map_err(io_error)?;
    Ok(out)
}

/// The body of an entry, or why it cannot be read.
pub open spec fn lbr_body(data: Seq<u8>, idx: int) -> Result<Seq<u8>, (IoKind, Seq<char>)> {
    if cpm::lbr_fits(data, idx) {
        lbr_entry(data, idx)
    } else {
        Err((IoKind::InvalidData, "lbr: sum too large"@))
    }
}

/// Read an entry.
pub(crate) fn unpack_lbr(data: &[u8], idx: usize) -> (r: Result<Vec<u8>, IoError>)
    ensures
        error::io_bytes(r) == lbr_body(data@, idx as int),
{
    if check_lbr(data, idx) {
        read_lbr(data, idx)
    } else {
        Err(IoError { kind: IoKind::InvalidData, message: copy_text("lbr: sum too large") })
    }
}

/// Reads CP/M libraries.
#[derive(Debug, Clone, Copy)]
pub struct LbrHandler;

impl FormatHandler for LbrHandler {
    open spec fn spec_id(&self) -> FormatId {
        FormatId::Lbr
    }

    open spec fn spec_probe(&self, header: Seq<u8>, name: Option<Seq<char>>) -> Confidence {
        archive::magic_when(is_lbr(header))
    }

    fn id(&self) -> (r: FormatId) {
        FormatId::Lbr
    }

    fn probe(&self, header: &[u8], name: Option<&str>) -> (r: Confidence) {
        Confidence::magic_if(recognize_lbr(header))
    }
}

/// The outcome of opening a library.
pub open spec fn opens_lbr(r: Result<LegacyReader, Error>, src: Source, opts: &OpenOptions) -> bool {
    legacy::opens_as(
        r,
        lbr_rows(src.content()),
        FormatId::Lbr,
        LegacyKind::Lbr,
        Dating::Undated,
        src.content(),
        opts,
    )
}

impl LbrHandler {
    /// Open an archive.
    pub fn open(&self, src: Source, opts: &OpenOptions) -> (r: Result<LegacyReader, Error>)
        ensures
            opens_lbr(r, src, opts),
    {
        let data = src.read_all();
        let rows = list_lbr(data.as_slice());
        open_listed(rows, FormatId::Lbr, LegacyKind::Lbr, Dating::Undated, data, opts)
    }
}

/// The header of a crunched file: the mark, one of the two sorts, a name, and
/// behind the 0 that ends it two version numbers.
pub open spec fn is_crunch(data: Seq<u8>) -> bool {
    let end = 2 + bytes::index_or_len(data.skip(2), 0);
    &&& data.len() >= 9
    &&& data[0] == 0x76 && (data[1] == 0xFE || data[1] == 0xFD)
    &&& data[2] != 0
    &&& end + 4 <= data.len()
    &&& 0x10 <= data[end + 1] <= 0x2F && 0x10 <= data[end + 2] <= 0x2F
}

/// `newtua_dos::crunch_cpm::CrunchArchive::recognize`: such a header begins the
/// bytes.
#[verifier::external_body]
fn recognize_crunch(data: &[u8]) -> (r: bool)
    ensures
        r == is_crunch(data@),
{
    newtua_dos::crunch_cpm::CrunchArchive::recognize(data)
}

/// The entries that `newtua_dos::crunch_cpm::CrunchArchive::entries` lists, or the failure to open.
pub uninterp spec fn crunch_rows(data: Seq<u8>) -> Result<Seq<RowView>, (IoKind, Seq<char>)>;

/// `newtua_dos::crunch_cpm::CrunchArchive::open` and then `entries`: the name of each
/// entry, in order.
#[verifier::external_body]
fn list_crunch(data: &[u8]) -> (r: Result<Vec<Row>, IoError>)
    ensures
        legacy::rows_result(r) == crunch_rows(data@),
{
    let archive = newtua_dos::crunch_cpm::CrunchArchive::open(data).map_err(io_error)?;
    Ok(archive.entries().iter().map(|e| Row { name: e.name().to_vec(), is_dir: None, size: None, is_encrypted: None, is_resource_fork: None, date: None }).collect())
}

/// What `newtua_dos::crunch_cpm::CrunchArchive::read_entry` writes for an entry, or its failure.
pub uninterp spec fn crunch_entry(data: Seq<u8>, idx: int) -> Result<Seq<u8>, (IoKind, Seq<char>)>;

/// `newtua_dos::crunch_cpm::CrunchArchive::open` and then `read_entry`: what is written
/// for entry `idx`, or the first failure. The outside code adds up the bytes, so
/// their sum has to fit.
#[verifier::external_body]
fn read_crunch(data: &[u8], idx: usize) -> (r: Result<Vec<u8>, IoError>)
    requires
        cpm::crunch_fits(data@),
    ensures
        error::io_bytes(r) == crunch_entry(data@, idx as int),
{
    let archive = newtua_dos::crunch_cpm::CrunchArchive::open(data).map_err(io_error)?;
    let mut out = Vec::new();
    archive.read_entry(idx, &mut out).map_err(io_error)?;
    Ok(out)
}

/// The body of an entry, or why it cannot be read.
pub open spec fn crunch_body(data: Seq<u8>, idx: int) -> Result<Seq<u8>, (IoKind, Seq<char>)> {
    if cpm::crunch_fits(data) {
        crunch_entry(data, idx)
    } else {
        Err((IoKind::InvalidData, "crunch: sum too large"@))
    }
}

/// Read an entry.
pub(crate) fn unpack_crunch(data: &[u8], idx: usize) -> (r: Result<Vec<u8>, IoError>)
    ensures
        error::io_bytes(r) == crunch_body(data@, idx as int),
{
    if check_crunch(data) {
        read_crunch(data, idx)
    } else {
        Err(IoError { kind: IoKind::InvalidData, message: copy_text("crunch: sum too large") })
    }
}

/// Reads crunched CP/M files, which do not tell their size.
#[derive(Debug, Clone, Copy)]
pub struct CrunchHandler;

impl FormatHandler for CrunchHandler {
    open spec fn spec_id(&self) -> FormatId {
        FormatId::Crunch
    }

    open spec fn spec_probe(&self, header: Seq<u8>, name: Option<Seq<char>>) -> Confidence {
        archive::magic_when(is_crunch(header))
    }

    fn id(&self) -> (r: FormatId) {
        FormatId::Crunch
    }

    fn probe(&self, header: &[u8], name: Option<&str>) -> (r: Confidence) {
        Confidence::magic_if(recognize_crunch(header))
    }
}

/// The outcome of opening a crunched file.
pub open spec fn opens_crunch(r: Result<LegacyReader, Error>, src: Source, opts: &OpenOptions) -> bool {
    legacy::opens_as(
        r,
        crunch_rows(src.content()),
        FormatId::Crunch,
        LegacyKind::Crunch,
        Dating::Undated,
        src.content(),
        opts,
    )
}

impl CrunchHandler {
    /// Open an archive.
    pub fn open(&self, src: Source, opts: &OpenOptions) -> (r: Result<LegacyReader, Error>)
        ensures
            opens_crunch(r, src, opts),
    {
        let data = src.read_all();
        let rows = list_crunch(data.as_slice());
        open_listed(rows, FormatId::Crunch, LegacyKind::Crunch, Dating::Undated, data, opts)
    }
}

/// The entries that `newtua_dos::arc::ArcArchive::entries` lists, or the failure to open.
pub uninterp spec fn arc_rows(data: Seq<u8>) -> Result<Seq<RowView>, (IoKind, Seq<char>)>;

/// `newtua_dos::arc::ArcArchive::open` and then `entries`: the name, the size and whether it is a directory, of each
/// entry, in order.
#[verifier::external_body]
fn list_arc(data: &[u8]) -> (r: Result<Vec<Row>, IoError>)
    ensures
        legacy::rows_result(r) == arc_rows(data@),
{
    let archive = newtua_dos::arc::ArcArchive::open(data).map_err(io_error)?;
    Ok(archive.entries().iter().map(|e| Row { name: e.name().to_vec(), is_dir: Some(e.is_dir()), size: Some(u64::from(e.size())), is_encrypted: None, is_resource_fork: None, date: None }).collect())
}

/// What `newtua_dos::arc::ArcArchive::read_entry` writes for an entry, or its failure.
pub uninterp spec fn arc_entry(data: Seq<u8>, idx: int) -> Result<Seq<u8>, (IoKind, Seq<char>)>;

/// `newtua_dos::arc::ArcArchive::open` and then `read_entry`: what is written
/// for entry `idx`, or the first failure. The outside code follows a string to the
/// one that it begins with until there is none, so there has to be an end, and its
/// tables have room for codes of nine bits and more.
#[verifier::external_body]
fn read_arc(data: &[u8], idx: usize) -> (r: Result<Vec<u8>, IoError>)
    requires
        arc::arc_fits(data@, idx as int),
    ensures
        error::io_bytes(r) == arc_entry(data@, idx as int),
{
    let archive = newtua_dos::arc::ArcArchive::open(data).map_err(io_error)?;
    let mut out = Vec::new();
    archive.read_entry(idx, &mut out).map_err(io_error)?;
    Ok(out)
}

/// The body of an entry, or why it cannot be read.
pub open spec fn arc_body(data: Seq<u8>, idx: int) -> Result<Seq<u8>, (IoKind, Seq<char>)> {
    if arc::arc_fits(data, idx) {
        arc_entry(data, idx)
    } else {
        Err((IoKind::InvalidData, "arc: codes without an end"@))
    }
}

/// Read an entry.
pub(crate) fn unpack_arc(data: &[u8], idx: usize) -> (r: Result<Vec<u8>, IoError>)
    ensures
        error::io_bytes(r) == arc_body(data@, idx as int),
{
    if check_arc(data, idx) {
        read_arc(data, idx)
    } else {
        Err(IoError { kind: IoKind::InvalidData, message: copy_text("arc: codes without an end") })
    }
}

/// Reads ARC archives, which are known by their name alone.
#[derive(Debug, Clone, Copy)]
pub struct ArcHandler;

impl FormatHandler for ArcHandler {
    open spec fn spec_id(&self) -> FormatId {
        FormatId::Arc
    }

    open spec fn spec_probe(&self, header: Seq<u8>, name: Option<Seq<char>>) -> Confidence {
        archive::magic_when(text::name_has_suffix(name, ".arc"@) || text::name_has_suffix(name, ".ark"@) || text::name_has_suffix(name, ".pak"@) || text::name_has_suffix(name, ".spark"@))
    }

    fn id(&self) -> (r: FormatId) {
        FormatId::Arc
    }

    fn probe(&self, header: &[u8], name: Option<&str>) -> (r: Confidence) {
        Confidence::magic_if(name_ends(name, ".arc") || name_ends(name, ".ark") || name_ends(name, ".pak") || name_ends(name, ".spark"))
    }
}

/// The outcome of opening an ARC archive.
pub open spec fn opens_arc(r: Result<LegacyReader, Error>, src: Source, opts: &OpenOptions) -> bool {
    legacy::opens_as(
        r,
        arc_rows(src.content()),
        FormatId::Arc,
        LegacyKind::Arc,
        Dating::Undated,
        src.content(),
        opts,
    )
}

impl ArcHandler {
    /// Open an archive.
    pub fn open(&self, src: Source, opts: &OpenOptions) -> (r: Result<LegacyReader, Error>)
        ensures
            opens_arc(r, src, opts),
    {
        let data = src.read_all();
        let rows = list_arc(data.as_slice());
        open_listed(rows, FormatId::Arc, LegacyKind::Arc, Dating::Undated, data, opts)
    }
}

/// The mark of a squeezed file.
pub const SQUEEZE_MAGIC: [u8; 2] = [0x76, 0xFF];

/// The name that `newtua_dos::squeeze::SqueezeFile::open` finds, or its failure.
pub uninterp spec fn squeeze_rows(data: Seq<u8>) -> Result<Seq<RowView>, (IoKind, Seq<char>)>;

/// `newtua_dos::squeeze::SqueezeFile::open` and then `name`: the one entry.
#[verifier::external_body]
fn list_squeeze(data: &[u8]) -> (r: Result<Vec<Row>, IoError>)
    ensures
        legacy::rows_result(r) == squeeze_rows(data@),
{
    let file = newtua_dos::squeeze::SqueezeFile::open(data).map_err(io_error)?;
    let name = file.name().to_vec();
    Ok(vec![Row { name, is_dir: None, size: None, is_encrypted: None, is_resource_fork: None, date: None }])
}

/// What `newtua_dos::squeeze::SqueezeFile::decode` makes of some bytes.
pub uninterp spec fn squeezed(data: Seq<u8>) -> Result<Seq<u8>, (IoKind, Seq<char>)>;

/// `newtua_dos::squeeze::SqueezeFile::open` and then `decode`. The outside code adds
/// up the bytes, so their sum has to fit.
#[verifier::external_body]
fn unsqueeze(data: &[u8]) -> (r: Result<Vec<u8>, IoError>)
    requires
        cpm::squeeze_fits(data@),
    ensures
        error::io_bytes(r) == squeezed(data@),
{
    newtua_dos::squeeze::SqueezeFile::open(data).map_err(io_error)?.decode().map_err(io_error)
}

/// The body of an entry, or why it cannot be read.
pub open spec fn squeeze_body(data: Seq<u8>) -> Result<Seq<u8>, (IoKind, Seq<char>)> {
    if cpm::squeeze_fits(data) {
        squeezed(data)
    } else {
        Err((IoKind::InvalidData, "squeeze: sum too large"@))
    }
}

/// Read an entry.
pub(crate) fn unpack_squeeze(data: &[u8]) -> (r: Result<Vec<u8>, IoError>)
    ensures
        error::io_bytes(r) == squeeze_body(data@),
{
    if check_squeeze(data) {
        unsqueeze(data)
    } else {
        Err(IoError { kind: IoKind::InvalidData, message: copy_text("squeeze: sum too large") })
    }
}

/// Reads squeezed CP/M files: one entry each.
#[derive(Debug, Clone, Copy)]
pub struct SqueezeHandler;

impl FormatHandler for SqueezeHandler {
    open spec fn spec_id(&self) -> FormatId {
        FormatId::Squeeze
    }

    open spec fn spec_probe(&self, header: Seq<u8>, name: Option<Seq<char>>) -> Confidence {
        archive::magic_when(bytes::stands_at(header, 0, SQUEEZE_MAGIC@) || text::name_has_suffix(name, ".sq"@) || text::name_has_suffix(name, ".qqq"@))
    }

    fn id(&self) -> (r: FormatId) {
        FormatId::Squeeze
    }

    fn probe(&self, header: &[u8], name: Option<&str>) -> (r: Confidence) {
        Confidence::magic_if(starts_with(header, &SQUEEZE_MAGIC) || name_ends(name, ".sq") || name_ends(name, ".qqq"))
    }
}

/// The outcome of opening a squeezed file.
pub open spec fn opens_squeeze(r: Result<LegacyReader, Error>, src: Source, opts: &OpenOptions) -> bool {
    legacy::opens_as(
        r,
        squeeze_rows(src.content()),
        FormatId::Squeeze,
        LegacyKind::Squeeze,
        Dating::Undated,
        src.content(),
        opts,
    )
}

impl SqueezeHandler {
    /// Open an archive.
    pub fn open(&self, src: Source, opts: &OpenOptions) -> (r: Result<LegacyReader, Error>)
        ensures
            opens_squeeze(r, src, opts),
    {
        let data = src.read_all();
        let rows = list_squeeze(data.as_slice());
        open_listed(rows, FormatId::Squeeze, LegacyKind::Squeeze, Dating::Undated, data, opts)
    }
}

} // verus!
