//! ALZip archives.
use vstd::prelude::*;

use crate::archive;
use crate::bytes;
use crate::error;
use crate::format::legacy;
use crate::text;
use crate::archive::{Confidence, FormatHandler, FormatId, OpenOptions, Source};
use crate::error::{io_error, Error, IoError, IoKind};
use crate::format::legacy::{open_listed, Dating, LegacyKind, LegacyReader, Row, RowView};
use crate::format::legacy::PasswordState;
use crate::text::{copy_text, name_ends};

verus! {

/// The header of an ALZip archive: `ALZ`, 1, and a 0 at its end.
pub open spec fn is_alz(data: Seq<u8>) -> bool {
    bytes::stands_at(data, 0, seq![0x41u8, 0x4C, 0x5A, 0x01]) && data.len() >= 8 && data[7] == 0
}

/// `newtua_alz::AlzArchive::recognize`: a valid file header begins the bytes.
#[verifier::external_body]
fn recognize_alz(data: &[u8]) -> (r: bool)
    ensures
        r == is_alz(data@),
{
    newtua_alz::AlzArchive::recognize(data)
}

/// The entries that `newtua_alz::AlzArchive::entries` lists, or the failure to open.
pub uninterp spec fn alz_rows(data: Seq<u8>, password: Option<Seq<char>>) -> Result<Seq<RowView>, (IoKind, Seq<char>)>;

/// `newtua_alz::AlzArchive::open`, or `open_with_password` where there is a password, and then `entries`: the name and size, whether it is a directory and whether it is encrypted,
/// and its date of each
/// entry, in order.
#[verifier::external_body]
fn list_alz(data: &[u8], password: Option<&str>) -> (r: Result<Vec<Row>, IoError>)
    ensures
        legacy::rows_result(r) == alz_rows(data@, text::opt_text(password)),
{
    let archive = match password {
        Some(p) => newtua_alz::AlzArchive::open_with_password(data, p.as_bytes()),
        None => newtua_alz::AlzArchive::open(data),
    }.map_err(io_error)?;
    Ok(archive.entries().iter().map(|e| Row { name: e.name().to_vec(), is_dir: Some(e.is_dir()), size: Some(e.size()), is_encrypted: Some(e.is_encrypted()), is_resource_fork: None, date: Some(e.dostime()) }).collect())
}

/// What `newtua_alz::AlzArchive::read_entry` writes for an entry, or its failure.
pub uninterp spec fn alz_entry(data: Seq<u8>, password: Option<Seq<char>>, idx: int) -> Result<Seq<u8>, (IoKind, Seq<char>)>;

/// A size that can be made room for.
pub open spec fn has_room(row: RowView) -> bool {
    match row.size {
        Some(n) => n <= isize::MAX,
        None => true,
    }
}

/// Entry `idx` is not too large to be made room for.
pub open spec fn entry_has_room(data: Seq<u8>, password: Option<Seq<char>>, idx: int) -> bool {
    match alz_rows(data, password) {
        Ok(rows) => 0 <= idx < rows.len() ==> has_room(rows[idx]),
        Err(_) => true,
    }
}

/// The body of an entry, or why it cannot be read.
pub open spec fn alz_body(data: Seq<u8>, password: Option<Seq<char>>, idx: int) -> Result<Seq<u8>, (IoKind, Seq<char>)> {
    if entry_has_room(data, password, idx) {
        alz_entry(data, password, idx)
    } else {
        Err((IoKind::InvalidData, "alz: size too large"@))
    }
}

/// Read an entry.
pub(crate) fn unpack_alz(data: &[u8], password: Option<&str>, idx: usize) -> (r: Result<Vec<u8>, IoError>)
    ensures
        error::io_bytes(r) == alz_body(data@, text::opt_text(password), idx as int),
{
    let listed = list_alz(data, password);
    let ghost shown = legacy::rows_result(listed);
    if let Ok(rows) = listed {
        if idx < rows.len() {
            assert(shown->Ok_0[idx as int] == rows@[idx as int]@);
            if let Some(n) = rows[idx].size {
                if n > isize::MAX as u64 {
                    return Err(IoError { kind: IoKind::InvalidData, message: copy_text("alz: size too large") });
                }
            }
        }
    }
    read_alz(data, password, idx)
}

/// `newtua_alz::AlzArchive::open`, or `open_with_password` where there is a password, and then `read_entry`: what is written
/// for entry `idx`, or the first failure. It makes room for the whole entry first.
#[verifier::external_body]
fn read_alz(data: &[u8], password: Option<&str>, idx: usize) -> (r: Result<Vec<u8>, IoError>)
    requires
        entry_has_room(data@, text::opt_text(password), idx as int),
    ensures
        error::io_bytes(r) == alz_entry(data@, text::opt_text(password), idx as int),
{
    let archive = match password {
        Some(p) => newtua_alz::AlzArchive::open_with_password(data, p.as_bytes()),
        None => newtua_alz::AlzArchive::open(data),
    }.map_err(io_error)?;
    let mut out = Vec::new();
    archive.read_entry(idx, &mut out).map_err(io_error)?;
    Ok(out)
}

/// Reads ALZip archives.
#[derive(Debug, Clone, Copy)]
pub struct AlzHandler;

impl FormatHandler for AlzHandler {
    open spec fn spec_id(&self) -> FormatId {
        FormatId::Alz
    }

    open spec fn spec_probe(&self, header: Seq<u8>, name: Option<Seq<char>>) -> Confidence {
        archive::magic_when(is_alz(header) || text::name_has_suffix(name, ".alz"@))
    }

    fn id(&self) -> (r: FormatId) {
        FormatId::Alz
    }

    fn probe(&self, header: &[u8], name: Option<&str>) -> (r: Confidence) {
        Confidence::magic_if(recognize_alz(header) || name_ends(name, ".alz"))
    }
}

/// The outcome of opening an ALZip archive.
pub open spec fn opens_alz(r: Result<LegacyReader, Error>, src: Source, opts: &OpenOptions) -> bool {
    legacy::opens_as(
        r,
        alz_rows(src.content(), text::opt_string(opts.password)),
        FormatId::Alz,
        LegacyKind::Alz,
        Dating::Dos,
        src.content(),
        opts,
    )
}

impl AlzHandler {
    /// Open an archive.
    pub fn open(&self, src: Source, opts: &OpenOptions) -> (r: Result<LegacyReader, Error>)
        ensures
            opens_alz(r, src, opts),
    {
        let data = src.read_all();
        let pass = match &opts.password {
            Some(p) => Some(p.as_str()),
            None => None,
        };
        let rows = list_alz(data.as_slice(), pass);
        open_listed(rows, FormatId::Alz, LegacyKind::Alz, Dating::Dos, data, opts)
    }
}

/// What `newtua_alz::AlzArchive::password_status` says; nothing of an archive
/// that cannot be opened.
pub uninterp spec fn alz_password(data: Seq<u8>, password: Option<Seq<char>>) -> Option<PasswordState>;

/// `newtua_alz::AlzArchive::open`, or `open_with_password` where there is a
/// password, and then `password_status`: the answer depends on the bytes and
/// the password alone.
#[verifier::external_body]
pub(crate) fn password_state(data: &[u8], password: Option<&str>) -> (r: Option<PasswordState>)
    ensures
        r == alz_password(data@, text::opt_text(password)),
{
    let archive = match password {
        Some(p) => newtua_alz::AlzArchive::open_with_password(data, p.as_bytes()),
        None => newtua_alz::AlzArchive::open(data),
    }.ok()?;
    Some(match archive.password_status() {
        newtua_alz::PasswordStatus::NotEncrypted => PasswordState::NotEncrypted,
        newtua_alz::PasswordStatus::Missing => PasswordState::Missing,
        newtua_alz::PasswordStatus::Wrong => PasswordState::Wrong,
        newtua_alz::PasswordStatus::Correct => PasswordState::Correct,
    })
}

} // verus!
