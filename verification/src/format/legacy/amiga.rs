//! Formats of the Amiga.
use vstd::prelude::*;

use crate::archive;
use crate::bytes;
use crate::error;
use crate::format::legacy;
use crate::format::legacy::{dms, lzx};
use crate::text;
use crate::archive::{Confidence, FormatHandler, FormatId, OpenOptions, Source};
use crate::bytes::starts_with;
use crate::error::{io_error, Error, IoError, IoKind};
use crate::format::legacy::{open_listed, Dating, LegacyKind, LegacyReader, Row, RowView};
use crate::error::io_err_to_corrupt;
use crate::format::legacy::{file_stem_bytes, metas_from, EntryMeta};
use crate::format::legacy::dms::check_dms;
use crate::format::legacy::lzx::check_entry;
use crate::text::{copy_text, name_ends};

verus! {

/// `PP20`, the mark of a PowerPacker file.
pub const POWERPACKER_MAGIC: [u8; 4] = [0x50, 0x50, 0x32, 0x30];

/// The shortest PowerPacker file.
pub const POWERPACKER_MIN: usize = 12;

/// The unpacked length that a PowerPacker file tells at its end, or the failure
/// to open it.
pub open spec fn powerpacked_len(data: Seq<u8>) -> Result<int, (IoKind, Seq<char>)> {
    if data.len() < POWERPACKER_MIN || !bytes::stands_at(data, 0, POWERPACKER_MAGIC@) {
        Err((IoKind::InvalidData, "powerpacker: bad magic"@))
    } else {
        let n = data.len() as int;
        Ok(data[n - 4] * 65536 + data[n - 3] * 256 + data[n - 2])
    }
}

/// `newtua_amiga::powerpacker::PowerPackerFile::open` and then `decoded_len`: the
/// three bytes before the last, highest first, if the bytes begin with the mark
/// and are long enough.
#[verifier::external_body]
fn powerpacker_len(data: &[u8]) -> (r: Result<usize, IoError>)
    ensures
        match r {
            Ok(n) => powerpacked_len(data@) == Ok::<int, (IoKind, Seq<char>)>(n as int),
            Err(e) => powerpacked_len(data@) == Err::<int, (IoKind, Seq<char>)>((e.kind, e.message@)),
        },
{
    Ok(newtua_amiga::powerpacker::PowerPackerFile::open(data).map_err(io_error)?.decoded_len())
}

/// What `newtua_amiga::powerpacker::PowerPackerFile::decode` makes of some bytes.
pub uninterp spec fn powerpacked(data: Seq<u8>) -> Result<Seq<u8>, (IoKind, Seq<char>)>;

/// `newtua_amiga::powerpacker::PowerPackerFile::open` and then `decode`.
#[verifier::external_body]
pub(crate) fn unpack_powerpacker(data: &[u8]) -> (r: Result<Vec<u8>, IoError>)
    ensures
        error::io_bytes(r) == powerpacked(data@),
{
    newtua_amiga::powerpacker::PowerPackerFile::open(data).map_err(io_error)?.decode().map_err(io_error)
}

/// Reads PowerPacker files: one entry each, named after the file.
#[derive(Debug, Clone, Copy)]
pub struct PowerPackerHandler;

impl FormatHandler for PowerPackerHandler {
    open spec fn spec_id(&self) -> FormatId {
        FormatId::PowerPacker
    }

    open spec fn spec_probe(&self, header: Seq<u8>, name: Option<Seq<char>>) -> Confidence {
        archive::magic_when(bytes::stands_at(header, 0, POWERPACKER_MAGIC@) || text::name_has_suffix(name, ".pp"@))
    }

    fn id(&self) -> (r: FormatId) {
        FormatId::PowerPacker
    }

    fn probe(&self, header: &[u8], name: Option<&str>) -> (r: Confidence) {
        Confidence::magic_if(starts_with(header, &POWERPACKER_MAGIC) || name_ends(name, ".pp"))
    }
}

/// The outcome of opening a PowerPacker file.
pub open spec fn opens_powerpacker(r: Result<LegacyReader, Error>, src: Source, opts: &OpenOptions) -> bool {
    match powerpacked_len(src.content()) {
        Err((kind, message)) => error::fails_with(r, error::io_error_view(kind, message)),
        Ok(n) => r matches Ok(reader) && legacy::shows(
            &reader,
            FormatId::PowerPacker,
            LegacyKind::PowerPacker,
            src.content(),
            seq![legacy::plain_meta(legacy::stem_bytes(src.spec_path(), "powerpacker"@), false, n as u64)],
            opts,
        ),
    }
}

impl PowerPackerHandler {
    /// Open a PowerPacker file.
    pub fn open(&self, src: Source, opts: &OpenOptions) -> (r: Result<LegacyReader, Error>)
        ensures
            opens_powerpacker(r, src, opts),
    {
        let name = file_stem_bytes(&src, "powerpacker");
        let data = src.read_all();
        let n: usize = match powerpacker_len(data.as_slice()) {
            Err(e) => {
                return Err(io_err_to_corrupt(e));
            },
            Ok(n) => n,
        };
        let mut metas: Vec<EntryMeta> = Vec::new();
        metas.push(EntryMeta::file(name.as_slice(), n as u64));
        proof {
            assert(legacy::meta_views(metas@) =~= seq![legacy::plain_meta(name@, false, n as u64)]);
        }
        Ok(LegacyReader::new(FormatId::PowerPacker, LegacyKind::PowerPacker, data, &metas, opts))
    }
}

/// The bytes begin with `LZX` and are long enough for a header.
pub open spec fn is_lzx(data: Seq<u8>) -> bool {
    data.len() >= 10 && bytes::stands_at(data, 0, seq![0x4Cu8, 0x5A, 0x58])
}

/// `newtua_amiga::lzx::LzxArchive::recognize`: the mark begins the bytes and a
/// header has room.
#[verifier::external_body]
fn recognize_lzx(data: &[u8]) -> (r: bool)
    ensures
        r == is_lzx(data@),
{
    newtua_amiga::lzx::LzxArchive::recognize(data)
}

/// The entries that `newtua_amiga::lzx::LzxArchive::entries` lists, or the
/// failure to open.
pub uninterp spec fn lzx_rows(data: Seq<u8>) -> Result<Seq<RowView>, (IoKind, Seq<char>)>;

/// `newtua_amiga::lzx::LzxArchive::open` and then `entries`: the name and size of
/// each entry, in order.
#[verifier::external_body]
fn list_lzx(data: &[u8]) -> (r: Result<Vec<Row>, IoError>)
    ensures
        legacy::rows_result(r) == lzx_rows(data@),
{
    let archive = newtua_amiga::lzx::LzxArchive::open(data).map_err(io_error)?;
    Ok(archive.entries().iter().map(|e| Row { name: e.name.clone(), is_dir: None, size: Some(e.size), is_encrypted: None, is_resource_fork: None, date: None }).collect())
}

/// What `newtua_amiga::lzx::LzxArchive::read_entry` returns for an entry; nothing
/// for one that there is not.
pub uninterp spec fn lzx_entry(data: Seq<u8>, idx: int) -> Option<Result<Seq<u8>, (IoKind, Seq<char>)>>;

/// `newtua_amiga::lzx::LzxArchive::open` and then `read_entry` on the entry at
/// `idx`, or the failure to open. The outside code takes a length from a length, which
/// must not be smaller.
#[verifier::external_body]
fn read_lzx(data: &[u8], idx: usize) -> (r: Option<Result<Vec<u8>, IoError>>)
    requires
        lzx::entry_fits(data@, idx as int),
    ensures
        legacy::at_bytes(r) == lzx_entry(data@, idx as int),
{
    let archive = match newtua_amiga::lzx::LzxArchive::open(data) {
        Ok(archive) => archive,
        Err(e) => return Some(Err(io_error(e))),
    };
    archive.entries().get(idx).map(|e| archive.read_entry(e).map_err(io_error))
}

/// The body of an entry, or why it cannot be read.
pub open spec fn lzx_body(data: Seq<u8>, idx: int) -> Option<Result<Seq<u8>, (IoKind, Seq<char>)>> {
    if lzx::entry_fits(data, idx) {
        lzx_entry(data, idx)
    } else {
        Some(Err((IoKind::InvalidData, "lzx: code length out of range"@)))
    }
}

/// Read an entry.
pub(crate) fn unpack_lzx(data: &[u8], idx: usize) -> (r: Option<Result<Vec<u8>, IoError>>)
    ensures
        legacy::at_bytes(r) == lzx_body(data@, idx as int),
{
    if check_entry(data, idx) {
        read_lzx(data, idx)
    } else {
        Some(Err(IoError { kind: IoKind::InvalidData, message: copy_text("lzx: code length out of range") }))
    }
}

/// Reads Amiga LZX archives.
#[derive(Debug, Clone, Copy)]
pub struct LzxHandler;

impl FormatHandler for LzxHandler {
    open spec fn spec_id(&self) -> FormatId {
        FormatId::Lzx
    }

    open spec fn spec_probe(&self, header: Seq<u8>, name: Option<Seq<char>>) -> Confidence {
        archive::magic_when(is_lzx(header) || text::name_has_suffix(name, ".lzx"@))
    }

    fn id(&self) -> (r: FormatId) {
        FormatId::Lzx
    }

    fn probe(&self, header: &[u8], name: Option<&str>) -> (r: Confidence) {
        Confidence::magic_if(recognize_lzx(header) || name_ends(name, ".lzx"))
    }
}

/// The outcome of opening a LZX archive.
pub open spec fn opens_lzx(r: Result<LegacyReader, Error>, src: Source, opts: &OpenOptions) -> bool {
    legacy::opens_as(
        r,
        lzx_rows(src.content()),
        FormatId::Lzx,
        LegacyKind::Lzx,
        Dating::Undated,
        src.content(),
        opts,
    )
}

impl LzxHandler {
    /// Open an archive.
    pub fn open(&self, src: Source, opts: &OpenOptions) -> (r: Result<LegacyReader, Error>)
        ensures
            opens_lzx(r, src, opts),
    {
        let data = src.read_all();
        let rows = list_lzx(data.as_slice());
        open_listed(rows, FormatId::Lzx, LegacyKind::Lzx, Dating::Undated, data, opts)
    }
}

/// What `newtua_amiga::dms::DmsArchive::recognize` says of some bytes.
pub uninterp spec fn is_dms(data: Seq<u8>) -> bool;

/// `newtua_amiga::dms::DmsArchive::recognize`: the answer depends on the bytes
/// alone.
#[verifier::external_body]
fn recognize_dms(data: &[u8]) -> (r: bool)
    ensures
        r == is_dms(data@),
{
    newtua_amiga::dms::DmsArchive::recognize(data)
}

/// The files that `newtua_amiga::dms::DmsArchive::files` lists, or the failure to
/// open. A disk image has none.
pub uninterp spec fn dms_rows(data: Seq<u8>, password: Option<Seq<char>>) -> Result<Seq<RowView>, (IoKind, Seq<char>)>;

/// `newtua_amiga::dms::DmsArchive::open_with_password` and then `files`: the name
/// and size of each file and whether it is encrypted, in order. Without a
/// password, `open` is the same call.
#[verifier::external_body]
fn list_dms(data: &[u8], password: Option<&str>) -> (r: Result<Vec<Row>, IoError>)
    requires
        dms::dms_fits(data@, password is Some),
    ensures
        legacy::rows_result(r) == dms_rows(data@, text::opt_text(password)),
{
    let pass = password.map(|p| p.as_bytes());
    let archive = newtua_amiga::dms::DmsArchive::open_with_password(data, pass).map_err(io_error)?;
    Ok(archive.files().iter().map(|f| Row { name: f.name.clone(), is_dir: None, size: Some(u64::from(f.size)), is_encrypted: Some(f.is_crypted), is_resource_fork: None, date: None }).collect())
}

/// What `newtua_amiga::dms::DmsArchive::read_disk_image` returns.
pub uninterp spec fn dms_image(data: Seq<u8>, password: Option<Seq<char>>) -> Result<Seq<u8>, (IoKind, Seq<char>)>;

/// `newtua_amiga::dms::DmsArchive::open_with_password` and then
/// `read_disk_image`.
#[verifier::external_body]
fn read_dms_image(data: &[u8], password: Option<&str>) -> (r: Result<Vec<u8>, IoError>)
    requires
        dms::dms_fits(data@, password is Some),
    ensures
        error::io_bytes(r) == dms_image(data@, text::opt_text(password)),
{
    let pass = password.map(|p| p.as_bytes());
    let archive = newtua_amiga::dms::DmsArchive::open_with_password(data, pass).map_err(io_error)?;
    archive.read_disk_image().map_err(io_error)
}

/// What `newtua_amiga::dms::DmsArchive::read_file` returns for a file; nothing for
/// one that there is not.
pub uninterp spec fn dms_file(data: Seq<u8>, password: Option<Seq<char>>, idx: int) -> Option<
    Result<Seq<u8>, (IoKind, Seq<char>)>,
>;

/// `newtua_amiga::dms::DmsArchive::open_with_password` and then `read_file` on the
/// file at `idx`, or the failure to open.
#[verifier::external_body]
fn read_dms_file(data: &[u8], password: Option<&str>, idx: usize) -> (r: Option<Result<Vec<u8>, IoError>>)
    requires
        dms::dms_fits(data@, password is Some),
    ensures
        legacy::at_bytes(r) == dms_file(data@, text::opt_text(password), idx as int),
{
    let pass = password.map(|p| p.as_bytes());
    let archive = match newtua_amiga::dms::DmsArchive::open_with_password(data, pass) {
        Ok(archive) => archive,
        Err(e) => return Some(Err(io_error(e))),
    };
    archive.files().get(idx).map(|f| archive.read_file(f).map_err(io_error))
}

/// `.adf`, the end of the name of a disk image.
pub const ADF_SUFFIX: [u8; 4] = [0x2E, 0x61, 0x64, 0x66];

/// The entries of an archive, or why it cannot be opened.
pub open spec fn dms_listing(data: Seq<u8>, password: Option<Seq<char>>) -> Result<Seq<RowView>, (IoKind, Seq<char>)> {
    if dms::dms_fits(data, password is Some) {
        dms_rows(data, password)
    } else {
        Err((IoKind::InvalidData, "dms: code table is not whole"@))
    }
}

/// What a disk unpacks to, or why it does not.
pub open spec fn dms_disk_body(data: Seq<u8>, password: Option<Seq<char>>) -> Result<Seq<u8>, (IoKind, Seq<char>)> {
    if dms::dms_fits(data, password is Some) {
        dms_image(data, password)
    } else {
        Err((IoKind::InvalidData, "dms: code table is not whole"@))
    }
}

/// The body of a file, or why it cannot be read.
pub open spec fn dms_file_body(data: Seq<u8>, password: Option<Seq<char>>, idx: int) -> Option<Result<Seq<u8>, (IoKind, Seq<char>)>> {
    if dms::dms_fits(data, password is Some) {
        dms_file(data, password, idx)
    } else {
        Some(Err((IoKind::InvalidData, "dms: code table is not whole"@)))
    }
}

fn torn_table() -> (r: IoError)
    ensures
        r.kind == IoKind::InvalidData,
        r.message@ == "dms: code table is not whole"@,
{
    IoError { kind: IoKind::InvalidData, message: copy_text("dms: code table is not whole") }
}

/// Unpack a disk.
pub(crate) fn unpack_dms_image(data: &[u8], password: Option<&str>) -> (r: Result<Vec<u8>, IoError>)
    ensures
        error::io_bytes(r) == dms_disk_body(data@, text::opt_text(password)),
{
    if check_dms(data, password.is_some()) {
        read_dms_image(data, password)
    } else {
        Err(torn_table())
    }
}

/// Read a file.
pub(crate) fn unpack_dms_file(data: &[u8], password: Option<&str>, idx: usize) -> (r: Option<Result<Vec<u8>, IoError>>)
    ensures
        legacy::at_bytes(r) == dms_file_body(data@, text::opt_text(password), idx as int),
{
    if check_dms(data, password.is_some()) {
        read_dms_file(data, password, idx)
    } else {
        Some(Err(torn_table()))
    }
}

/// Reads DMS archives: disk images, one entry each, or named files.
#[derive(Debug, Clone, Copy)]
pub struct DmsHandler;

impl FormatHandler for DmsHandler {
    open spec fn spec_id(&self) -> FormatId {
        FormatId::Dms
    }

    open spec fn spec_probe(&self, header: Seq<u8>, name: Option<Seq<char>>) -> Confidence {
        archive::magic_when(is_dms(header) || text::name_has_suffix(name, ".dms"@))
    }

    fn id(&self) -> (r: FormatId) {
        FormatId::Dms
    }

    fn probe(&self, header: &[u8], name: Option<&str>) -> (r: Confidence) {
        Confidence::magic_if(recognize_dms(header) || name_ends(name, ".dms"))
    }
}

/// The outcome of opening a DMS archive.
pub open spec fn opens_dms(r: Result<LegacyReader, Error>, src: Source, opts: &OpenOptions) -> bool {
    match dms_listing(src.content(), text::opt_string(opts.password)) {
        Err((kind, message)) => error::fails_with(r, error::io_error_view(kind, message)),
        Ok(rows) => r matches Ok(reader) && if rows.len() == 0 {
            legacy::shows(
                &reader,
                FormatId::Dms,
                LegacyKind::DmsDisk,
                src.content(),
                seq![legacy::plain_meta(legacy::stem_bytes(src.spec_path(), "disk"@) + ADF_SUFFIX@, false, 0)],
                opts,
            )
        } else {
            legacy::shows(
                &reader,
                FormatId::Dms,
                LegacyKind::DmsFiles,
                src.content(),
                legacy::metas_of(Dating::Undated, rows),
                opts,
            )
        },
    }
}

impl DmsHandler {
    /// Open an archive. A disk image becomes one entry, named after the file; its
    /// size is not known before it is unpacked.
    pub fn open(&self, src: Source, opts: &OpenOptions) -> (r: Result<LegacyReader, Error>)
        ensures
            opens_dms(r, src, opts),
    {
        let stem = file_stem_bytes(&src, "disk");
        let data = src.read_all();
        let pass = match &opts.password {
            Some(p) => Some(p.as_str()),
            None => None,
        };
        if !check_dms(data.as_slice(), pass.is_some()) {
            return Err(io_err_to_corrupt(torn_table()));
        }
        let rows = match list_dms(data.as_slice(), pass) {
            Err(e) => {
                return Err(io_err_to_corrupt(e));
            },
            Ok(rows) => rows,
        };
        if rows.len() == 0 {
            let mut name = stem;
            let mut i: usize = 0;
            let ghost before = name@;
            assert(before + ADF_SUFFIX@.take(0) =~= before);
            while i < 4
                invariant
                    i <= 4,
                    name@ == before + ADF_SUFFIX@.take(i as int),
                decreases 4 - i,
            {
                name.push(ADF_SUFFIX[i]);
                i = i + 1;
                assert(name@ =~= before + ADF_SUFFIX@.take(i as int));
            }
            assert(ADF_SUFFIX@.take(4) =~= ADF_SUFFIX@);
            let mut metas: Vec<EntryMeta> = Vec::new();
            metas.push(EntryMeta::file(name.as_slice(), 0));
            proof {
                assert(legacy::meta_views(metas@) =~= seq![legacy::plain_meta(name@, false, 0)]);
            }
            return Ok(LegacyReader::new(FormatId::Dms, LegacyKind::DmsDisk, data, &metas, opts));
        }
        let metas = metas_from(Dating::Undated, &rows);
        Ok(LegacyReader::new(FormatId::Dms, LegacyKind::DmsFiles, data, &metas, opts))
    }
}

/// A file of PowerPacker tells its unpacked length in the last four bytes: three of the
/// length, the highest first, and one of padding bits.
pub proof fn powerpacked_lengths_read_back(packed: Seq<u8>, length: int, bits: u8)
    requires
        0 <= length < 0x100_0000,
        packed.len() >= 4,
    ensures
        powerpacked_len(
            seq![0x50u8, 0x50, 0x32, 0x30] + packed + bytes::low_first(length, 3).reverse() + seq![bits],
        ) == Ok::<int, (IoKind, Seq<char>)>(length),
{
    let three = bytes::low_first(length, 3);
    reveal_with_fuel(bytes::low_first, 4);
    assert(three =~= seq![(length % 256) as u8, (length / 256 % 256) as u8, (length / 256 / 256 % 256) as u8]);
    let data = seq![0x50u8, 0x50, 0x32, 0x30] + packed + three.reverse() + seq![bits];
    let n = data.len() as int;
    assert(data.subrange(0, 4) =~= POWERPACKER_MAGIC@);
    assert(data[n - 4] == three[2] && data[n - 3] == three[1] && data[n - 2] == three[0]);
}

} // verus!
