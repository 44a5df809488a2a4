//! Formats of the floppy and bulletin-board years. Each decoder lists the
//! entries of an archive and unpacks one of them; what is made of that is the
//! same for all.
use vstd::prelude::*;
use vstd::utf8;

use crate::archive;
use crate::datetime;
use crate::encoding;
use crate::error;
use crate::paths;
use crate::text;
use crate::archive::{read_entries_one_by_one, BatchReader, EntrySink};
use crate::archive::{ArchiveReader, Entry, EntryKind, EntryView, FormatId, KindView, OpenOptions, Source};
use crate::bytes::copy_bytes;
use crate::datetime::{dos_words_to_systime, local_unix_secs, Stamp, Timestamp};
use crate::encoding::decode_names;
use crate::error::{io_err_to_corrupt, Error, ErrorView, IoError, IoKind};
use crate::format::legacy::alz::{password_state, unpack_alz};
use crate::format::legacy::amiga::{unpack_dms_file, unpack_dms_image, unpack_lzx, unpack_powerpacker};
use crate::format::legacy::dos::{read_arj, read_zoo, unpack_arc, unpack_crunch, unpack_lbr, unpack_squeeze};
use crate::format::legacy::mac::{read_applesingle, read_binhex, read_macbinary, unpack_compactpro, unpack_packit};
use crate::format::legacy::nsis::read_nsis;
use crate::format::legacy::stuffit::{unpack_sit5, unpack_sitx, unpack_stuffit};
use crate::paths::path_file_stem;
use crate::text::{chars_of, copy_text, string_of};

pub mod alz;
pub mod amiga;
pub mod arc;
pub mod bits;
pub mod bunzip;
pub mod canon;
pub mod cpm;
pub mod crush;
pub mod dms;
pub mod dos;
pub mod lzh;
pub mod lzw;
pub mod lzx;
pub mod mac;
pub mod nsis;
pub mod sitx;
pub mod stuffit;
pub mod tree;

verus! {

/// Seconds from 1904-01-01, where the clocks of classic Macs begin, to
/// 1970-01-01.
pub const MAC_EPOCH_TO_UNIX: u64 = 2_082_844_800;

/// Seconds from 1970-01-01 to 2000-01-01, where the dates of AppleSingle begin.
pub const APPLESINGLE_EPOCH_TO_UNIX: i64 = 946_684_800;

/// What a classic Mac date means: none, if it is 0 or before 1970. Classic Macs
/// knew no time zones, so it is what the clock on the wall showed.
pub open spec fn mac_stamp(secs: u32) -> Option<Stamp> {
    if secs < MAC_EPOCH_TO_UNIX {
        None
    } else {
        Some(Stamp::WallClock(datetime::reading_of(secs - MAC_EPOCH_TO_UNIX)))
    }
}

/// A classic Mac date, in seconds since 1904-01-01.
pub fn mac_date_to_systime(secs: u32) -> (r: Option<Stamp>)
    ensures
        r == mac_stamp(secs),
{
    let s: u64 = secs as u64;
    if s < MAC_EPOCH_TO_UNIX {
        return None;
    }
    Some(Stamp::WallClock(local_unix_secs(s - MAC_EPOCH_TO_UNIX)))
}

/// The number that the bits of `n` are in two's complement.
pub open spec fn signed(n: u32) -> int {
    if n < 0x8000_0000 {
        n as int
    } else {
        n - 0x1_0000_0000
    }
}

/// What an AppleSingle date means. A date before 1970 is one too.
pub open spec fn applesingle_stamp(secs: Option<u32>) -> Option<Stamp> {
    match secs {
        None => None,
        Some(s) => Some(Stamp::Instant(datetime::at_second(signed(s) + APPLESINGLE_EPOCH_TO_UNIX))),
    }
}

/// An AppleSingle date, in signed seconds since 2000-01-01.
pub fn applesingle_date_to_systime(secs: Option<u32>) -> (r: Option<Stamp>)
    ensures
        r == applesingle_stamp(secs),
{
    match secs {
        None => None,
        Some(s) => {
            let count: i64 = if s < 0x8000_0000 {
                s as i64
            } else {
                s as i64 - 0x1_0000_0000
            };
            Some(Stamp::Instant(Timestamp { secs: (count + APPLESINGLE_EPOCH_TO_UNIX) as i128, nanos: 0 }))
        },
    }
}

/// How the dates of a format count.
#[derive(Debug, Clone, Copy, PartialEq, Eq, Structural)]
pub enum Dating {
    /// Nothing is made of them.
    Undated,
    /// Seconds since 1904 on the wall clock.
    Mac,
    /// Signed seconds since 2000.
    AppleSingle,
    /// A packed MS-DOS date above a packed time.
    Dos,
}

/// What a date of a format means.
pub open spec fn stamp_of(dating: Dating, date: Option<u32>) -> Option<Stamp> {
    match (dating, date) {
        (Dating::Mac, Some(d)) => mac_stamp(d),
        (Dating::AppleSingle, d) => applesingle_stamp(d),
        (Dating::Dos, Some(d)) => match datetime::wall_clock(datetime::dos_civil((d / 65536) as u16, (d % 65536) as u16)) {
            Some(c) => Some(Stamp::WallClock(c)),
            None => None,
        },
        _ => None,
    }
}

fn stamp(dating: Dating, date: Option<u32>) -> (r: Option<Stamp>)
    ensures
        r == stamp_of(dating, date),
{
    match (dating, date) {
        (Dating::Mac, Some(d)) => mac_date_to_systime(d),
        (Dating::AppleSingle, d) => applesingle_date_to_systime(d),
        (Dating::Dos, Some(d)) => match dos_words_to_systime((d / 65536) as u16, (d % 65536) as u16) {
            Some(c) => Some(Stamp::WallClock(c)),
            None => None,
        },
        _ => None,
    }
}

/// What a decoder tells of an entry; `None` is what it does not tell.
#[derive(Debug)]
pub struct Row {
    pub name: Vec<u8>,
    pub is_dir: Option<bool>,
    pub size: Option<u64>,
    pub is_encrypted: Option<bool>,
    pub is_resource_fork: Option<bool>,
    pub date: Option<u32>,
}

/// A `Row` with its name as a sequence.
pub struct RowView {
    pub name: Seq<u8>,
    pub is_dir: Option<bool>,
    pub size: Option<u64>,
    pub is_encrypted: Option<bool>,
    pub is_resource_fork: Option<bool>,
    pub date: Option<u32>,
}

impl View for Row {
    type V = RowView;

    open spec fn view(&self) -> RowView {
        RowView {
            name: self.name@,
            is_dir: self.is_dir,
            size: self.size,
            is_encrypted: self.is_encrypted,
            is_resource_fork: self.is_resource_fork,
            date: self.date,
        }
    }
}

/// The rows of a list with their names as sequences.
pub open spec fn row_views(rows: Seq<Row>) -> Seq<RowView> {
    rows.map_values(|r: Row| r@)
}

/// The rows that a decoder lists, or the kind and text of its failure.
pub open spec fn rows_result(r: Result<Vec<Row>, IoError>) -> Result<Seq<RowView>, (IoKind, Seq<char>)> {
    match r {
        Ok(v) => Ok(row_views(v@)),
        Err(e) => Err((e.kind, e.message@)),
    }
}

/// One entry before its name is decoded.
#[derive(Debug)]
pub struct EntryMeta {
    pub raw: Vec<u8>,
    pub is_dir: bool,
    pub size: u64,
    pub is_encrypted: bool,
    /// The resource fork of the file named by `raw`, rather than the file.
    pub is_resource_fork: bool,
    pub modified: Option<Stamp>,
}

/// An `EntryMeta` with its name as a sequence.
pub struct MetaView {
    pub raw: Seq<u8>,
    pub is_dir: bool,
    pub size: u64,
    pub is_encrypted: bool,
    pub is_resource_fork: bool,
    pub modified: Option<Stamp>,
}

impl View for EntryMeta {
    type V = MetaView;

    open spec fn view(&self) -> MetaView {
        MetaView {
            raw: self.raw@,
            is_dir: self.is_dir,
            size: self.size,
            is_encrypted: self.is_encrypted,
            is_resource_fork: self.is_resource_fork,
            modified: self.modified,
        }
    }
}

/// The metas of a list with their names as sequences.
pub open spec fn meta_views(metas: Seq<EntryMeta>) -> Seq<MetaView> {
    metas.map_values(|m: EntryMeta| m@)
}

/// A plain entry of that name, kind and size.
pub open spec fn plain_meta(raw: Seq<u8>, is_dir: bool, size: u64) -> MetaView {
    MetaView { raw, is_dir, size, is_encrypted: false, is_resource_fork: false, modified: None }
}

impl EntryMeta {
    /// An entry that is neither encrypted nor a fork and has no time.
    pub fn named(raw: &[u8], is_dir: bool, size: u64) -> (r: EntryMeta)
        ensures
            r@ == plain_meta(raw@, is_dir, size),
    {
        EntryMeta { raw: copy_bytes(raw), is_dir, size, is_encrypted: false, is_resource_fork: false, modified: None }
    }

    /// A file that is neither encrypted nor a fork and has no time.
    pub fn file(raw: &[u8], size: u64) -> (r: EntryMeta)
        ensures
            r@ == plain_meta(raw@, false, size),
    {
        EntryMeta::named(raw, false, size)
    }

    /// The same entry, as a resource fork or not.
    pub fn resource_fork(self, yes: bool) -> (r: EntryMeta)
        ensures
            r@ == (MetaView { is_resource_fork: yes, ..self@ }),
    {
        EntryMeta { is_resource_fork: yes, ..self }
    }

    /// The same entry with that time.
    pub fn at(self, modified: Option<Stamp>) -> (r: EntryMeta)
        ensures
            r@ == (MetaView { modified, ..self@ }),
    {
        EntryMeta { modified, ..self }
    }
}

/// What is made of a row: what the decoder does not tell is taken for no
/// directory, no encryption, no fork and a size of 0.
pub open spec fn meta_of(dating: Dating, row: RowView) -> MetaView {
    MetaView {
        raw: row.name,
        is_dir: row.is_dir == Some(true),
        size: match row.size {
            Some(n) => n,
            None => 0,
        },
        is_encrypted: row.is_encrypted == Some(true),
        is_resource_fork: row.is_resource_fork == Some(true),
        modified: stamp_of(dating, row.date),
    }
}

/// What is made of the rows.
pub open spec fn metas_of(dating: Dating, rows: Seq<RowView>) -> Seq<MetaView> {
    rows.map_values(|r: RowView| meta_of(dating, r))
}

/// What is made of the rows.
pub fn metas_from(dating: Dating, rows: &Vec<Row>) -> (r: Vec<EntryMeta>)
    ensures
        meta_views(r@) == metas_of(dating, row_views(rows@)),
{
    let mut metas: Vec<EntryMeta> = Vec::new();
    let mut i: usize = 0;
    while i < rows.len()
        invariant
            i <= rows.len(),
            metas.len() == i,
            forall|k: int| 0 <= k < i ==> (#[trigger] metas@[k])@ == meta_of(dating, rows@[k]@),
        decreases rows.len() - i,
    {
        let row = &rows[i];
        let is_dir = match row.is_dir {
            Some(b) => b,
            None => false,
        };
        let size: u64 = match row.size {
            Some(n) => n,
            None => 0,
        };
        let fork = match row.is_resource_fork {
            Some(b) => b,
            None => false,
        };
        let plain = EntryMeta::named(row.name.as_slice(), is_dir, size).resource_fork(fork).at(stamp(dating, row.date));
        let is_encrypted = match row.is_encrypted {
            Some(b) => b,
            None => false,
        };
        metas.push(EntryMeta { is_encrypted, ..plain });
        i = i + 1;
    }
    assert(meta_views(metas@) =~= metas_of(dating, row_views(rows@)));
    metas
}

/// The raw names of the entries.
pub open spec fn raw_names(metas: Seq<MetaView>) -> Seq<Seq<u8>> {
    metas.map_values(|m: MetaView| m.raw)
}

/// The listing of an archive: the names are decoded in one encoding.
pub open spec fn listing_of(metas: Seq<MetaView>, label: Option<Seq<char>>) -> Seq<EntryView> {
    let names = encoding::decoded_names(raw_names(metas), label);
    Seq::new(
        metas.len(),
        |i: int|
            EntryView {
                path_raw: metas[i].raw,
                path: names[i],
                kind: if metas[i].is_dir {
                    KindView::Dir
                } else {
                    KindView::File
                },
                size: metas[i].size,
                mode: None,
                is_encrypted: metas[i].is_encrypted,
                modified: metas[i].modified,
                is_resource_fork: metas[i].is_resource_fork,
            },
    )
}

fn build_entries(metas: &Vec<EntryMeta>, opts: &OpenOptions) -> (r: Vec<Entry>)
    ensures
        archive::views(r@) == listing_of(meta_views(metas@), text::opt_string(opts.encoding_override)),
{
    let ghost all = meta_views(metas@);
    let ghost label = text::opt_string(opts.encoding_override);
    let mut raw: Vec<Vec<u8>> = Vec::new();
    let mut i: usize = 0;
    while i < metas.len()
        invariant
            i <= metas.len(),
            all == meta_views(metas@),
            raw.len() == i,
            forall|k: int| 0 <= k < i ==> (#[trigger] raw@[k])@ == raw_names(all)[k],
        decreases metas.len() - i,
    {
        raw.push(copy_bytes(metas[i].raw.as_slice()));
        i = i + 1;
    }
    assert(encoding::raw_views(raw@) =~= raw_names(all));
    let names = decode_names(raw.as_slice(), opts.label());
    let ghost want = listing_of(all, label);
    let mut entries: Vec<Entry> = Vec::new();
    let mut j: usize = 0;
    while j < metas.len()
        invariant
            j <= metas.len(),
            all == meta_views(metas@),
            want == listing_of(all, label),
            encoding::text_views(names@) == encoding::decoded_names(raw_names(all), label),
            names.len() == metas.len(),
            entries.len() == j,
            forall|k: int| 0 <= k < j ==> (#[trigger] entries@[k])@ == want[k],
        decreases metas.len() - j,
    {
        let m = &metas[j];
        proof {
            assert(all[j as int] == m@);
            assert(encoding::text_views(names@)[j as int] == names@[j as int]@);
        }
        entries.push(
            Entry {
                path_raw: copy_bytes(m.raw.as_slice()),
                path: copy_text(names[j].as_str()),
                kind: if m.is_dir {
                    EntryKind::Dir
                } else {
                    EntryKind::File
                },
                size: m.size,
                mode: None,
                is_encrypted: m.is_encrypted,
                modified: m.modified,
                is_resource_fork: m.is_resource_fork,
            },
        );
        j = j + 1;
    }
    assert(archive::views(entries@) =~= want);
    entries
}

/// The decoders.
#[derive(Debug, Clone, Copy, PartialEq, Eq, Structural)]
pub enum LegacyKind {
    Arj,
    Zoo,
    Lbr,
    Crunch,
    Arc,
    Squeeze,
    BinHex,
    MacBinary,
    AppleSingle,
    CompactPro,
    PackIt,
    StuffIt,
    StuffIt5,
    StuffItX,
    Alz,
    Nsis,
    PowerPacker,
    Lzx,
    DmsDisk,
    DmsFiles,
}

/// A decoder's result, its failure told as an error of this library.
pub open spec fn reported(r: Result<Seq<u8>, (IoKind, Seq<char>)>) -> Result<Seq<u8>, ErrorView> {
    match r {
        Ok(b) => Ok(b),
        Err((kind, message)) => Err(error::io_error_view(kind, message)),
    }
}

/// A decoder's result for an entry that it may not have.
pub open spec fn reported_at(r: Option<Result<Seq<u8>, (IoKind, Seq<char>)>>, idx: int) -> Result<Seq<u8>, ErrorView> {
    match r {
        Some(r) => reported(r),
        None => Err(ErrorView::InvalidIndex(idx)),
    }
}

/// What a decoder makes of entry `idx`.
pub open spec fn unpacked(kind: LegacyKind, data: Seq<u8>, password: Option<Seq<char>>, idx: int) -> Result<
    Seq<u8>,
    ErrorView,
> {
    match kind {
        LegacyKind::Arj => reported(dos::arj_entry(data, idx)),
        LegacyKind::Zoo => reported(dos::zoo_entry(data, idx)),
        LegacyKind::Lbr => reported(dos::lbr_body(data, idx)),
        LegacyKind::Crunch => reported(dos::crunch_body(data, idx)),
        LegacyKind::Arc => reported(dos::arc_body(data, idx)),
        LegacyKind::Squeeze => reported(dos::squeeze_body(data)),
        LegacyKind::BinHex => reported(mac::binhex_entry(data, idx)),
        LegacyKind::MacBinary => reported(mac::macbinary_entry(data, idx)),
        LegacyKind::AppleSingle => reported(mac::applesingle_entry(data, idx)),
        LegacyKind::CompactPro => reported(mac::compactpro_body(data, idx)),
        LegacyKind::PackIt => reported(mac::packit_body(data, password, idx)),
        LegacyKind::StuffIt => reported(stuffit::stuffit_body(data, idx)),
        LegacyKind::StuffIt5 => reported(stuffit::sit5_body(data, password, idx)),
        LegacyKind::StuffItX => reported(stuffit::sitx_body(data, idx)),
        LegacyKind::Alz => reported(alz::alz_body(data, password, idx)),
        LegacyKind::Nsis => reported(nsis::nsis_entry(data, idx)),
        LegacyKind::PowerPacker => reported(amiga::powerpacked(data)),
        LegacyKind::Lzx => reported_at(amiga::lzx_body(data, idx), idx),
        LegacyKind::DmsDisk => reported(amiga::dms_disk_body(data, password)),
        LegacyKind::DmsFiles => reported_at(amiga::dms_file_body(data, password, idx), idx),
    }
}

fn report(r: Result<Vec<u8>, IoError>) -> (out: Result<Vec<u8>, Error>)
    ensures
        archive::body_view(out) == reported(crate::error::io_bytes(r)),
{
    match r {
        Ok(b) => Ok(b),
        Err(e) => Err(io_err_to_corrupt(e)),
    }
}

fn report_at(r: Option<Result<Vec<u8>, IoError>>, idx: usize) -> (out: Result<Vec<u8>, Error>)
    ensures
        archive::body_view(out) == reported_at(at_bytes(r), idx as int),
{
    match r {
        Some(r) => report(r),
        None => Err(Error::InvalidIndex(idx)),
    }
}

/// A decoder's result for an entry that it may not have, as its model.
pub open spec fn at_bytes(r: Option<Result<Vec<u8>, IoError>>) -> Option<Result<Seq<u8>, (IoKind, Seq<char>)>> {
    match r {
        Some(r) => Some(crate::error::io_bytes(r)),
        None => None,
    }
}

/// The decoder of a kind comes to an end on these bytes.
pub open spec fn decoder_ends(kind: LegacyKind, data: Seq<u8>) -> bool {
    &&& kind == LegacyKind::Zoo ==> dos::zoo_list_ends(data)
    &&& kind == LegacyKind::Nsis ==> nsis::nsis_fits(data)
}

/// Unpack entry `idx`.
pub fn unpack(kind: LegacyKind, data: &[u8], password: Option<&str>, idx: usize) -> (r: Result<Vec<u8>, Error>)
    requires
        decoder_ends(kind, data@),
    ensures
        archive::body_view(r) == unpacked(kind, data@, crate::text::opt_text(password), idx as int),
{
    match kind {
        LegacyKind::Arj => report(read_arj(data, idx)),
        LegacyKind::Zoo => report(read_zoo(data, idx)),
        LegacyKind::Lbr => report(unpack_lbr(data, idx)),
        LegacyKind::Crunch => report(unpack_crunch(data, idx)),
        LegacyKind::Arc => report(unpack_arc(data, idx)),
        LegacyKind::Squeeze => report(unpack_squeeze(data)),
        LegacyKind::BinHex => report(read_binhex(data, idx)),
        LegacyKind::MacBinary => report(read_macbinary(data, idx)),
        LegacyKind::AppleSingle => report(read_applesingle(data, idx)),
        LegacyKind::CompactPro => report(unpack_compactpro(data, idx)),
        LegacyKind::PackIt => report(unpack_packit(data, password, idx)),
        LegacyKind::StuffIt => report(unpack_stuffit(data, idx)),
        LegacyKind::StuffIt5 => report(unpack_sit5(data, password, idx)),
        LegacyKind::StuffItX => report(unpack_sitx(data, idx)),
        LegacyKind::Alz => report(unpack_alz(data, password, idx)),
        LegacyKind::Nsis => report(read_nsis(data, idx)),
        LegacyKind::PowerPacker => report(unpack_powerpacker(data)),
        LegacyKind::Lzx => report_at(unpack_lzx(data, idx), idx),
        LegacyKind::DmsDisk => report(unpack_dms_image(data, password)),
        LegacyKind::DmsFiles => report_at(unpack_dms_file(data, password, idx), idx),
    }
}

/// What an archive says of a password.
#[derive(Debug, Clone, Copy, PartialEq, Eq, Structural)]
pub enum PasswordState {
    /// It needs none.
    NotEncrypted,
    /// It needs one and there is none.
    Missing,
    /// It needs another.
    Wrong,
    /// It fits.
    Correct,
}

/// Whether a password lets an archive be unpacked. Only one format can tell
/// without unpacking.
pub open spec fn unlocked_by(kind: LegacyKind, data: Seq<u8>, password: Option<Seq<char>>) -> Result<(), ErrorView> {
    match kind {
        LegacyKind::Alz => match alz::alz_password(data, password) {
            Some(PasswordState::Missing) => Err(ErrorView::Encrypted),
            Some(PasswordState::Wrong) => Err(ErrorView::WrongPassword),
            _ => Ok(()),
        },
        _ => Ok(()),
    }
}

/// An opened archive.
#[derive(Debug)]
pub struct LegacyReader {
    format: FormatId,
    entries: Vec<Entry>,
    kind: LegacyKind,
    data: Vec<u8>,
    password: Option<String>,
}

/// The bodies of the first `n` entries.
pub open spec fn bodies_of(kind: LegacyKind, data: Seq<u8>, password: Option<Seq<char>>, n: nat) -> Seq<
    Result<Seq<u8>, ErrorView>,
> {
    Seq::new(n, |i: int| unpacked(kind, data, password, i))
}

/// The reader shows the archive in `data`, opened with `opts`, with these entries.
pub open spec fn shows(
    reader: &LegacyReader,
    format: FormatId,
    kind: LegacyKind,
    data: Seq<u8>,
    metas: Seq<MetaView>,
    opts: &OpenOptions,
) -> bool {
    &&& archive::presents(
        reader,
        format,
        listing_of(metas, text::opt_string(opts.encoding_override)),
        bodies_of(kind, data, text::opt_string(opts.password), metas.len()),
    )
    &&& reader.unlocked() == unlocked_by(kind, data, text::opt_string(opts.password))
}

impl LegacyReader {
    #[verifier::type_invariant]
    spec fn can_be_decoded(self) -> bool {
        decoder_ends(self.kind, self.data@)
    }

    fn pass(&self) -> (r: Option<&str>)
        ensures
            crate::text::opt_text(r) == text::opt_string(self.password),
    {
        match &self.password {
            Some(p) => Some(p.as_str()),
            None => None,
        }
    }

    /// A reader of these entries.
    pub fn new(format: FormatId, kind: LegacyKind, data: Vec<u8>, metas: &Vec<EntryMeta>, opts: &OpenOptions) -> (r: LegacyReader)
        requires
            decoder_ends(kind, data@),
        ensures
            shows(&r, format, kind, data@, meta_views(metas@), opts),
    {
        let entries = build_entries(metas, opts);
        proof {
            assert(archive::views(entries@).len() == entries@.len());
        }
        let password = match &opts.password {
            Some(p) => Some(copy_text(p.as_str())),
            None => None,
        };
        LegacyReader { format, entries, kind, data, password }
    }
}

impl ArchiveReader for LegacyReader {
    closed spec fn spec_format(&self) -> FormatId {
        self.format
    }

    closed spec fn listing(&self) -> Seq<EntryView> {
        archive::views(self.entries@)
    }

    closed spec fn body(&self, idx: int) -> Result<Seq<u8>, ErrorView> {
        archive::body_at(bodies_of(self.kind, self.data@, text::opt_string(self.password), self.entries@.len()), idx)
    }

    closed spec fn unlocked(&self) -> Result<(), ErrorView> {
        unlocked_by(self.kind, self.data@, text::opt_string(self.password))
    }

    fn format(&self) -> (r: FormatId) {
        self.format
    }

    fn entries(&self) -> (r: &Vec<Entry>) {
        &self.entries
    }

    fn read_entry(&self, idx: usize) -> (r: Result<Vec<u8>, Error>) {
        if idx >= self.entries.len() {
            return Err(Error::InvalidIndex(idx));
        }
        proof {
            use_type_invariant(self);
        }
        unpack(self.kind, self.data.as_slice(), self.pass(), idx)
    }

    fn verify_password(&self) -> (r: Result<(), Error>) {
        match self.kind {
            LegacyKind::Alz => match password_state(self.data.as_slice(), self.pass()) {
                Some(PasswordState::Missing) => Err(Error::Encrypted),
                Some(PasswordState::Wrong) => Err(Error::WrongPassword),
                _ => Ok(()),
            },
            _ => Ok(()),
        }
    }
}

impl BatchReader for LegacyReader {
    fn read_entries<S: EntrySink>(&self, indices: &[usize], sink: &mut S) -> (r: Result<(), Error>) {
        read_entries_one_by_one(self, indices, sink)
    }
}

/// The outcome of opening an archive whose entries a decoder lists.
pub open spec fn opens_as(
    r: Result<LegacyReader, Error>,
    rows: Result<Seq<RowView>, (IoKind, Seq<char>)>,
    format: FormatId,
    kind: LegacyKind,
    dating: Dating,
    data: Seq<u8>,
    opts: &OpenOptions,
) -> bool {
    match rows {
        Err((k, message)) => error::fails_with(r, error::io_error_view(k, message)),
        Ok(rows) => r matches Ok(reader) && shows(&reader, format, kind, data, metas_of(dating, rows), opts),
    }
}

/// Open an archive whose entries a decoder has listed.
pub fn open_listed(
    rows: Result<Vec<Row>, IoError>,
    format: FormatId,
    kind: LegacyKind,
    dating: Dating,
    data: Vec<u8>,
    opts: &OpenOptions,
) -> (r: Result<LegacyReader, Error>)
    requires
        decoder_ends(kind, data@),
    ensures
        opens_as(r, rows_result(rows), format, kind, dating, data@, opts),
{
    match rows {
        Err(e) => Err(io_err_to_corrupt(e)),
        Ok(rows) => {
            let metas = metas_from(dating, &rows);
            Ok(LegacyReader::new(format, kind, data, &metas, opts))
        },
    }
}

/// The name of a source's file without its extension, as bytes, or `fallback`
/// where there is none.
pub open spec fn stem_bytes(path: Option<Seq<char>>, fallback: Seq<char>) -> Seq<u8> {
    match path {
        Some(p) => match paths::file_stem(p) {
            Some(s) => utf8::encode_utf8(s),
            None => utf8::encode_utf8(fallback),
        },
        None => utf8::encode_utf8(fallback),
    }
}

/// The name of a source's file without its extension.
pub fn file_stem_bytes(src: &Source, fallback: &str) -> (r: Vec<u8>)
    ensures
        r@ == stem_bytes(src.spec_path(), fallback@),
{
    if let Some(p) = src.file_path() {
        let chars = chars_of(p);
        if let Some(stem) = path_file_stem(chars.as_slice()) {
            let s = string_of(stem.as_slice());
            return copy_bytes(s.as_str().as_bytes());
        }
    }
    copy_bytes(fallback.as_bytes())
}

/// Dates of old Macintosh archives count the seconds of the clock on the wall from the
/// first of January 1904; those of AppleSingle count them from the first of January 2000,
/// backwards too, and are instants; those of MS-DOS hold a packed date above a packed time.
/// A format without dates has none.
#[verifier::rlimit(40)]
pub proof fn dates_are_counted_from_their_own_start(secs: u32, c: datetime::CivilTime)
    requires
        c.year >= 1970,
        datetime::reads_as(c, secs + 86400 * datetime::day_number(1904, 1, 1)),
    ensures
        stamp_of(Dating::Mac, Some(secs)) == Some(Stamp::WallClock(c)),
        stamp_of(Dating::Undated, Some(secs)) is None,
        stamp_of(Dating::Mac, None) is None,
        stamp_of(Dating::Dos, None) is None,
        stamp_of(Dating::AppleSingle, None) is None,
{
    let since = secs + 86400 * datetime::day_number(1904, 1, 1);
    datetime::clocks_show_their_reading(c, since);
    mac_epoch();
}

proof fn mac_epoch()
    ensures
        86400 * datetime::day_number(1904, 1, 1) == -2_082_844_800,
{
}

/// Dates of AppleSingle files are seconds before or after the first of January 2000.
pub proof fn applesingle_dates_are_counted_from_2000(secs: int)
    requires
        -0x8000_0000 <= secs < 0x8000_0000,
    ensures
        stamp_of(
            Dating::AppleSingle,
            Some((if secs < 0 { secs + 0x1_0000_0000 } else { secs }) as u32),
        ) matches Some(Stamp::Instant(t)) && t.nanos == 0 && t.secs == secs + 86400 * datetime::day_number(2000, 1, 1),
{
    assert(datetime::day_number(2000, 1, 1) == 10957);
}

/// Dates of MS-DOS archives have the packed date in the upper half and the packed time of
/// day in the lower.
#[verifier::rlimit(40)]
pub proof fn dos_dates_stand_above_times(year: int, month: int, day: int, hour: int, min: int, half: int)
    requires
        1980 <= year < 2108,
        1 <= month <= 12,
        1 <= day < 32,
        0 <= hour < 24,
        0 <= min < 60,
        0 <= half < 30,
    ensures
        stamp_of(
            Dating::Dos,
            Some((((year - 1980) * 512 + month * 32 + day) * 0x10000 + (hour * 2048 + min * 32 + half)) as u32),
        ) matches Some(Stamp::WallClock(c)) && c.year == year && c.month == month && c.day == day && c.hour == hour && c.min
            == min && c.sec == 2 * half,
{
    datetime::dos_words_read_back(year, month, day, hour, min, half);
    let date = (year - 1980) * 512 + month * 32 + day;
    let time = hour * 2048 + min * 32 + half;
    let t = (date * 0x10000 + time) as u32;
    assert(0 <= date < 0x10000 && 0 <= time < 0x10000);
    assert(t as int / 65536 == date && t as int % 65536 == time);
}

/// An entry is listed as its row has it: what the row does not say is no directory, not
/// encrypted, no resource fork, and empty.
pub proof fn rows_are_listed_as_they_are(dating: Dating, rows: Seq<RowView>, label: Option<Seq<char>>, i: int)
    requires
        0 <= i < rows.len(),
    ensures
        ({
            let e = listing_of(metas_of(dating, rows), label)[i];
            &&& listing_of(metas_of(dating, rows), label).len() == rows.len()
            &&& e.path_raw == rows[i].name
            &&& (e.kind == KindView::Dir) == (rows[i].is_dir == Some(true))
            &&& e.kind == KindView::Dir || e.kind == KindView::File
            &&& rows[i].size matches Some(n) ==> e.size == n
            &&& rows[i].size is None ==> e.size == 0
            &&& e.is_encrypted == (rows[i].is_encrypted == Some(true))
            &&& e.is_resource_fork == (rows[i].is_resource_fork == Some(true))
            &&& e.mode is None
            &&& e.modified == stamp_of(dating, rows[i].date)
        }),
{
}

} // verus!
