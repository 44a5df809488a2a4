//! cpio archives: the `newc` and the `odc` variant.
use vstd::prelude::*;
use vstd::utf8;

use crate::archive;
use crate::bytes;
use crate::datetime;
use crate::encoding;
use crate::error;
use crate::text;
use crate::archive::{read_entries_one_by_one, BatchReader, EntrySink};
use crate::archive::{ArchiveReader, Confidence, Entry, EntryKind, EntryView, FormatHandler};
use crate::archive::{FormatId, KindView, OpenOptions, Source};
use crate::bytes::{copy_bytes, copy_range, same_bytes, starts_with, trim_end};
use crate::datetime::{unix_secs_to_systime, Stamp, Timestamp};
use crate::encoding::{decode_names, text_lossy};
use crate::error::{corrupt, io_err_to_corrupt, io_error, Error, ErrorView, IoError, IoKind};
use crate::text::{chars_of, copy_text, decimal_text, join2, quote, string_of, strip_prefix};
use crate::text::trim_end_char;

verus! {

/// The bits of a mode that tell the kind of file.
pub const S_IFMT: u32 = 0xF000;

pub const S_IFLNK: u32 = 0xA000;

pub const S_IFDIR: u32 = 0x4000;

pub const S_IFREG: u32 = 0x8000;

/// `070701`.
pub const MAGIC_NEWC: [u8; 6] = [0x30, 0x37, 0x30, 0x37, 0x30, 0x31];

/// `070702`.
pub const MAGIC_CRC: [u8; 6] = [0x30, 0x37, 0x30, 0x37, 0x30, 0x32];

/// `070707`.
pub const MAGIC_ODC: [u8; 6] = [0x30, 0x37, 0x30, 0x37, 0x30, 0x37];

pub const MAGIC_LEN: usize = 6;

/// Whether the magic is that of a variant that is opened.
pub fn is_supported_magic(magic: &[u8]) -> (r: bool)
    ensures
        r == (magic@ == MAGIC_NEWC@ || magic@ == MAGIC_ODC@),
{
    same_bytes(magic, &MAGIC_NEWC) || same_bytes(magic, &MAGIC_ODC)
}

pub const ODC_HEADER_LEN: usize = 76;

/// The place and the length of the fields of an `odc` header.
pub const ODC_MODE: (usize, usize) = (18, 6);

pub const ODC_MTIME: (usize, usize) = (48, 11);

pub const ODC_NAMESIZE: (usize, usize) = (59, 6);

pub const ODC_FILESIZE: (usize, usize) = (65, 11);

/// Padding: blanks and NULs alone.
pub open spec fn is_padding(s: Seq<u8>) -> bool {
    forall|i: int| 0 <= i < s.len() ==> (#[trigger] s[i] == 0x20 || s[i] == 0)
}

/// The number that follows `value`, digit by digit. Padding may stand before the
/// digits and behind them, and nothing else.
pub open spec fn octal_from(field: Seq<u8>, seen: bool, value: int) -> Option<int>
    decreases field.len(),
{
    if field.len() == 0 {
        if seen { Some(value) } else { None }
    } else if 0x30 <= field[0] <= 0x37 {
        let v = value * 8 + (field[0] - 0x30);
        if v > u64::MAX { None } else { octal_from(field.skip(1), true, v) }
    } else if field[0] == 0x20 || field[0] == 0 {
        if !seen {
            octal_from(field.skip(1), false, value)
        } else if is_padding(field) {
            Some(value)
        } else {
            None
        }
    } else {
        None
    }
}

/// The number in a field of octal digits.
pub open spec fn octal(field: Seq<u8>) -> Option<int> {
    octal_from(field, false, 0)
}

/// Eight to the power of `n`.
pub open spec fn eights(n: nat) -> int
    decreases n,
{
    if n == 0 { 1 } else { 8 * eights((n - 1) as nat) }
}

/// A number of so many digits is less than that power of eight.
proof fn octal_is_bounded(field: Seq<u8>, seen: bool, value: int, done: nat)
    requires
        0 <= value < eights(done),
        octal_from(field, seen, value) is Some,
    ensures
        0 <= octal_from(field, seen, value)->0 < eights(done + field.len()),
    decreases field.len(),
{
    if field.len() > 0 {
        assert(eights(done + 1) == 8 * eights(done));
        if 0x30 <= field[0] <= 0x37 {
            octal_is_bounded(field.skip(1), true, value * 8 + (field[0] - 0x30), done + 1);
        } else if !seen {
            octal_is_bounded(field.skip(1), false, value, done + 1);
        } else {
            eights_grow(done, done + field.len());
        }
    }
}

proof fn eights_grow(a: nat, b: nat)
    requires
        a <= b,
    ensures
        0 < eights(a) <= eights(b),
    decreases b,
{
    if a < b {
        eights_grow(a, (b - 1) as nat);
    } else if a > 0 {
        eights_grow((a - 1) as nat, (a - 1) as nat);
    }
}

/// Whether there is nothing but padding.
fn only_padding(s: &[u8]) -> (r: bool)
    ensures
        r == is_padding(s@),
{
    let mut i: usize = 0;
    while i < s.len()
        invariant
            i <= s.len(),
            forall|j: int| 0 <= j < i ==> (#[trigger] s@[j] == 0x20 || s@[j] == 0),
        decreases s.len() - i,
    {
        if s[i] != 0x20 && s[i] != 0 {
            return false;
        }
        i = i + 1;
    }
    true
}

/// Parse a field of octal digits.
pub fn parse_octal(field: &[u8]) -> (r: Option<u64>)
    ensures
        match r {
            Some(v) => octal(field@) == Some(v as int) && v < eights(field@.len()),
            None => octal(field@) is None,
        },
{
    let mut value: u64 = 0;
    let mut seen = false;
    let mut i: usize = 0;
    assert(field@.skip(0) =~= field@);
    while i < field.len()
        invariant
            i <= field.len(),
            octal(field@) == octal_from(field@.skip(i as int), seen, value as int),
        decreases field.len() - i,
    {
        let b: u8 = field[i];
        assert(field@.skip(i as int)[0] == b);
        assert(field@.skip(i as int).skip(1) =~= field@.skip(i + 1));
        if 0x30 <= b && b <= 0x37 {
            let d: u64 = (b - 0x30) as u64;
            if value > u64::MAX / 8 || d > u64::MAX - value * 8 {
                return None;
            }
            seen = true;
            value = value * 8 + d;
        } else if b == 0x20 || b == 0 {
            if seen {
                let rest: &[u8] = &field[i..field.len()];
                assert(rest@ =~= field@.skip(i as int));
                if !only_padding(rest) {
                    return None;
                }
                proof {
                    octal_is_bounded(field@, false, 0, 0);
                }
                return Some(value);
            }
        } else {
            return None;
        }
        i = i + 1;
    }
    if seen {
        proof {
            octal_is_bounded(field@, false, 0, 0);
        }
        Some(value)
    } else {
        None
    }
}

/// The field of an `odc` header, or the failure that names it.
pub open spec fn odc_value(header: Seq<u8>, span: (usize, usize), name: Seq<char>) -> Result<int, ErrorView> {
    match octal(header.subrange(span.0 as int, span.0 + span.1)) {
        Some(v) => Ok(v),
        None => Err(ErrorView::Corrupt("cpio odc: bad octal in "@ + name + " field"@)),
    }
}

/// Read a field of an `odc` header.
pub fn odc_field(header: &[u8], span: (usize, usize), name: &str) -> (r: Result<u64, Error>)
    requires
        span.0 + span.1 <= header.len(),
    ensures
        match r {
            Ok(v) => odc_value(header@, span, name@) == Ok::<int, ErrorView>(v as int) && v < eights(span.1 as nat),
            Err(e) => odc_value(header@, span, name@) == Err::<int, ErrorView>(e@),
        },
{
    let field: &[u8] = &header[span.0..span.0 + span.1];
    assert(field@ =~= header@.subrange(span.0 as int, span.0 + span.1));
    match parse_octal(field) {
        Some(v) => Ok(v),
        None => {
            let head = join2("cpio odc: bad octal in ", name);
            Err(Error::Corrupt(join2(head.as_str(), " field")))
        },
    }
}

/// What a record is.
#[derive(Debug)]
pub enum KindRaw {
    File,
    Dir,
    Symlink(Vec<u8>),
}

/// A `KindRaw` with its target as a sequence.
pub enum KindRawView {
    File,
    Dir,
    Symlink(Seq<u8>),
}

impl View for KindRaw {
    type V = KindRawView;

    open spec fn view(&self) -> KindRawView {
        match *self {
            KindRaw::File => KindRawView::File,
            KindRaw::Dir => KindRawView::Dir,
            KindRaw::Symlink(t) => KindRawView::Symlink(t@),
        }
    }
}

/// One record that is kept. The body of a file lies at `start` of the archive.
#[derive(Debug)]
pub struct Record {
    pub name: Vec<u8>,
    pub kind: KindRaw,
    pub start: usize,
    pub size: u64,
    pub mode: u32,
    pub modified: Option<Timestamp>,
}

/// A `Record` with its name as a sequence.
pub struct RecordView {
    pub name: Seq<u8>,
    pub kind: KindRawView,
    pub start: int,
    pub size: int,
    pub mode: u32,
    pub modified: Option<Timestamp>,
}

impl View for Record {
    type V = RecordView;

    open spec fn view(&self) -> RecordView {
        RecordView {
            name: self.name@,
            kind: self.kind@,
            start: self.start as int,
            size: self.size as int,
            mode: self.mode,
            modified: self.modified,
        }
    }
}

/// The views of a list of records.
pub open spec fn record_views(v: Seq<Record>) -> Seq<RecordView> {
    v.map_values(|r: Record| r@)
}

/// The record of a file of this mode whose body lies from `start` to
/// `start + size`, or `None` where no record is kept.
pub open spec fn kept_record(
    data: Seq<u8>,
    name: Seq<u8>,
    mode: u32,
    start: int,
    size: int,
    modified: Option<Timestamp>,
) -> Option<RecordView> {
    let kind = mode & S_IFMT;
    if kind == S_IFREG {
        Some(RecordView { name, kind: KindRawView::File, start, size, mode, modified })
    } else if kind == S_IFDIR {
        Some(RecordView { name, kind: KindRawView::Dir, start: 0, size: 0, mode, modified })
    } else if kind == S_IFLNK {
        Some(
            RecordView {
                name,
                kind: KindRawView::Symlink(bytes::trimmed(data.subrange(start, start + size), 0)),
                start: 0,
                size,
                mode,
                modified,
            },
        )
    } else {
        None
    }
}

/// Make the record of a file.
fn keep_record(data: &[u8], name: Vec<u8>, mode: u32, start: usize, size: usize, modified: Option<Timestamp>) -> (r: Option<
    Record,
>)
    requires
        start + size <= data.len(),
    ensures
        match r {
            Some(x) => kept_record(data@, name@, mode, start as int, size as int, modified) == Some(x@)
                && x.size <= data.len() && (x.kind is File ==> x.start + x.size <= data.len()),
            None => kept_record(data@, name@, mode, start as int, size as int, modified) is None,
        },
{
    let kind: u32 = mode & S_IFMT;
    if kind == S_IFREG {
        Some(Record { name, kind: KindRaw::File, start, size: size as u64, mode, modified })
    } else if kind == S_IFDIR {
        Some(Record { name, kind: KindRaw::Dir, start: 0, size: 0, mode, modified })
    } else if kind == S_IFLNK {
        let mut target = copy_range(data, start, start + size);
        trim_end(&mut target, 0);
        Some(Record { name, kind: KindRaw::Symlink(target), start: 0, size: size as u64, mode, modified })
    } else {
        None
    }
}

/// The name of the record that ends an archive: `TRAILER!!!`.
pub const TRAILER: [u8; 10] = [0x54, 0x52, 0x41, 0x49, 0x4C, 0x45, 0x52, 0x21, 0x21, 0x21];

/// A piece of a record that the archive is too short for.
pub open spec fn truncated(what: Seq<char>, moved: int, n: int) -> ErrorView {
    ErrorView::Corrupt(
        "cpio odc: truncated "@ + what + " ("@ + text::decimal(moved as nat) + " of "@ + text::decimal(n as nat) + " bytes)"@,
    )
}

/// A piece of a record that the archive is too short for.
fn truncated_error(what: &str, moved: u64, n: u64) -> (r: Error)
    ensures
        r@ == truncated(what@, moved as int, n as int),
{
    let a = decimal_text(moved);
    let b = decimal_text(n);
    let t1 = join2("cpio odc: truncated ", what);
    let t2 = join2(t1.as_str(), " (");
    let t3 = join2(t2.as_str(), a.as_str());
    let t4 = join2(t3.as_str(), " of ");
    let t5 = join2(t4.as_str(), b.as_str());
    Error::Corrupt(join2(t5.as_str(), " bytes)"))
}

/// The header of an `odc` record.
pub struct OdcHead {
    pub mode: u32,
    pub mtime: u64,
    pub namesize: u64,
    pub filesize: u64,
}

/// The header of the record at `pos`.
pub open spec fn odc_head(data: Seq<u8>, pos: int) -> Result<OdcHead, ErrorView> {
    let h = data.subrange(pos, pos + ODC_HEADER_LEN);
    if pos + ODC_HEADER_LEN > data.len() {
        Err(ErrorView::Corrupt("failed to fill whole buffer"@))
    } else if !bytes::stands_at(data, pos, MAGIC_ODC@) {
        Err(ErrorView::Corrupt("cpio odc: record does not start with 070707"@))
    } else {
        match odc_value(h, ODC_MODE, "mode"@) {
            Err(e) => Err(e),
            Ok(mode) => match odc_value(h, ODC_MTIME, "mtime"@) {
                Err(e) => Err(e),
                Ok(mtime) => match odc_value(h, ODC_NAMESIZE, "namesize"@) {
                    Err(e) => Err(e),
                    Ok(namesize) => match odc_value(h, ODC_FILESIZE, "filesize"@) {
                        Err(e) => Err(e),
                        Ok(filesize) => if namesize == 0 {
                            Err(ErrorView::Corrupt("cpio odc: zero-length name"@))
                        } else {
                            Ok(
                                OdcHead {
                                    mode: mode as u32,
                                    mtime: mtime as u64,
                                    namesize: namesize as u64,
                                    filesize: filesize as u64,
                                },
                            )
                        },
                    },
                },
            },
        }
    }
}

/// Read the header of the record at `pos`.
fn read_odc_head(data: &[u8], pos: usize) -> (r: Result<OdcHead, Error>)
    requires
        pos <= data.len(),
    ensures
        match r {
            Ok(h) => odc_head(data@, pos as int) == Ok::<OdcHead, ErrorView>(h) && h.mtime <= i64::MAX,
            Err(e) => odc_head(data@, pos as int) == Err::<OdcHead, ErrorView>(e@),
        },
{
    if data.len() - pos < ODC_HEADER_LEN {
        return Err(corrupt("failed to fill whole buffer"));
    }
    if !crate::bytes::found_at(data, pos, &MAGIC_ODC) {
        return Err(corrupt("cpio odc: record does not start with 070707"));
    }
    let h: &[u8] = &data[pos..pos + ODC_HEADER_LEN];
    assert(h@ =~= data@.subrange(pos as int, pos + ODC_HEADER_LEN));
    let mode: u64 = match odc_field(h, ODC_MODE, "mode") {
        Ok(v) => v,
        Err(e) => {
            return Err(e);
        },
    };
    let mtime: u64 = match odc_field(h, ODC_MTIME, "mtime") {
        Ok(v) => v,
        Err(e) => {
            return Err(e);
        },
    };
    let namesize: u64 = match odc_field(h, ODC_NAMESIZE, "namesize") {
        Ok(v) => v,
        Err(e) => {
            return Err(e);
        },
    };
    let filesize: u64 = match odc_field(h, ODC_FILESIZE, "filesize") {
        Ok(v) => v,
        Err(e) => {
            return Err(e);
        },
    };
    proof {
        reveal_with_fuel(eights, 12);
        assert(eights(6) == 262144);
        assert(eights(11) == 8589934592);
    }
    if namesize == 0 {
        return Err(corrupt("cpio odc: zero-length name"));
    }
    Ok(OdcHead { mode: mode as u32, mtime, namesize, filesize })
}

/// How the piece of a record that follows its name is called in a failure.
pub open spec fn piece_name(mode: u32, name: Seq<u8>) -> Seq<char> {
    if mode & S_IFMT == S_IFREG {
        "body of "@ + encoding::lossy(name)
    } else if mode & S_IFMT == S_IFLNK {
        "symlink target"@
    } else {
        "record body"@
    }
}

/// Unix seconds as an instant, none for 0.
pub open spec fn mtime_view(secs: u64) -> Option<Timestamp> {
    if secs == 0 { None } else { Some(datetime::at_second(secs as int)) }
}

/// The records of an `odc` archive from `pos` on, up to the one that ends it.
pub open spec fn odc_from(data: Seq<u8>, pos: int) -> Result<Seq<RecordView>, ErrorView>
    decreases data.len() - pos,
{
    match odc_head(data, pos) {
        Err(e) => Err(e),
        Ok(h) => {
            let at = pos + ODC_HEADER_LEN;
            let body = at + h.namesize;
            let next = body + h.filesize;
            let name = bytes::trimmed(data.subrange(at, body), 0);
            if body > data.len() {
                Err(truncated("entry name"@, data.len() - at, h.namesize as int))
            } else if name == TRAILER@ {
                Ok(Seq::empty())
            } else if next > data.len() {
                Err(truncated(piece_name(h.mode, name), data.len() - body, h.filesize as int))
            } else {
                match odc_from(data, next) {
                    Err(e) => Err(e),
                    Ok(rest) => match kept_record(
                        data,
                        name,
                        h.mode,
                        body,
                        h.filesize as int,
                        mtime_view(h.mtime),
                    ) {
                        Some(r) => Ok(seq![r] + rest),
                        None => Ok(rest),
                    },
                }
            }
        },
    }
}

/// What is scanned already, followed by what is still to come.
pub open spec fn after_records(done: Seq<RecordView>, rest: Result<Seq<RecordView>, ErrorView>) -> Result<
    Seq<RecordView>,
    ErrorView,
> {
    match rest {
        Ok(l) => Ok(done + l),
        Err(e) => Err(e),
    }
}

/// The records of a scan, or its failure.
pub open spec fn scan_view(r: Result<Vec<Record>, Error>) -> Result<Seq<RecordView>, ErrorView> {
    match r {
        Ok(v) => Ok(record_views(v@)),
        Err(e) => Err(e@),
    }
}

/// The bodies of the files lie in the archive.
pub open spec fn bodies_lie_in(v: Seq<Record>, len: int) -> bool {
    forall|k: int|
        0 <= k < v.len() ==> (#[trigger] v[k]).size <= len && (v[k].kind is File ==> v[k].start + v[k].size <= len)
}

/// Scan an `odc` archive.
pub fn scan_odc(data: &[u8]) -> (r: Result<Vec<Record>, Error>)
    ensures
        scan_view(r) == odc_from(data@, 0),
        r matches Ok(v) ==> bodies_lie_in(v@, data.len() as int),
{
    let mut out: Vec<Record> = Vec::new();
    let mut pos: usize = 0;
    let ghost whole = odc_from(data@, 0);
    proof {
        match whole {
            Ok(l) => assert(record_views(out@) + l =~= l),
            Err(e) => {},
        }
    }
    loop
        invariant
            pos <= data.len(),
            whole == odc_from(data@, 0),
            whole == after_records(record_views(out@), odc_from(data@, pos as int)),
            bodies_lie_in(out@, data.len() as int),
        decreases data.len() - pos,
    {
        let h = match read_odc_head(data, pos) {
            Ok(h) => h,
            Err(e) => {
                return Err(e);
            },
        };
        let at: usize = pos + ODC_HEADER_LEN;
        if h.namesize > (data.len() - at) as u64 {
            return Err(truncated_error("entry name", (data.len() - at) as u64, h.namesize));
        }
        let body: usize = at + h.namesize as usize;
        let mut name = copy_range(data, at, body);
        trim_end(&mut name, 0);
        if same_bytes(name.as_slice(), &TRAILER) {
            proof {
                assert(record_views(out@) + Seq::<RecordView>::empty() =~= record_views(out@));
            }
            return Ok(out);
        }
        let room: u64 = (data.len() - body) as u64;
        if h.filesize > room {
            let kind: u32 = h.mode & S_IFMT;
            if kind == S_IFREG {
                let shown = text_lossy(name.as_slice());
                let what = join2("body of ", shown.as_str());
                return Err(truncated_error(what.as_str(), room, h.filesize));
            } else if kind == S_IFLNK {
                return Err(truncated_error("symlink target", room, h.filesize));
            } else {
                return Err(truncated_error("record body", room, h.filesize));
            }
        }
        let size: usize = h.filesize as usize;
        let modified = unix_secs_to_systime(h.mtime);
        let ghost given = name@;
        match keep_record(data, name, h.mode, body, size, modified) {
            Some(rec) => {
                let ghost before = out@;
                out.push(rec);
                proof {
                    assert(record_views(out@) =~= record_views(before).push(rec@));
                    match odc_from(data@, body + size) {
                        Ok(l) => assert(record_views(before) + (seq![rec@] + l) =~= record_views(out@) + l),
                        Err(e) => {},
                    }
                }
            },
            None => {},
        }
        pos = body + size;
    }
}

/// The head of a `newc` record: what its header says, and how long it is with
/// its name and the padding after it.
#[derive(Debug)]
pub struct NewcHead {
    pub name: String,
    pub mode: u32,
    pub mtime: u32,
    pub file_size: u32,
    pub len: usize,
}

/// A `NewcHead` with its name as a sequence.
pub struct NewcView {
    pub name: Seq<char>,
    pub mode: u32,
    pub mtime: u32,
    pub file_size: u32,
    pub len: int,
}

/// The outcome of reading a head.
pub open spec fn newc_result(r: Result<NewcHead, IoError>) -> Result<NewcView, (IoKind, Seq<char>)> {
    match r {
        Ok(h) => Ok(
            NewcView { name: h.name@, mode: h.mode, mtime: h.mtime, file_size: h.file_size, len: h.len as int },
        ),
        Err(e) => Err((e.kind, e.message@)),
    }
}

/// What `cpio::NewcReader::new` reads at the start of some bytes.
pub uninterp spec fn newc_head(bytes: Seq<u8>) -> Result<NewcView, (IoKind, Seq<char>)>;

/// `cpio::NewcReader::new` over the bytes: the entry it parses, and how many
/// bytes it takes for that, depend on the bytes alone. A header alone is 110
/// bytes long.
#[verifier::external_body]
fn read_newc_head(bytes: &[u8]) -> (r: Result<NewcHead, IoError>)
    ensures
        newc_result(r) == newc_head(bytes@),
        r is Ok ==> 110 <= r->Ok_0.len <= bytes@.len(),
{
    let mut rest = bytes;
    let reader = cpio::NewcReader::new(&mut rest).map_err(io_error)?;
    let e = reader.entry().clone();
    drop(reader);
    Ok(NewcHead {
        name: e.name().to_owned(),
        mode: e.mode(),
        mtime: e.mtime(),
        file_size: e.file_size(),
        len: bytes.len() - rest.len(),
    })
}

/// The padding after `n` bytes, up to a multiple of four.
pub open spec fn padding(n: int) -> int {
    (4 - n % 4) % 4
}

/// The records of a `newc` archive from `pos` on, up to the one that ends it.
pub open spec fn newc_from(data: Seq<u8>, pos: int) -> Result<Seq<RecordView>, ErrorView>
    decreases data.len() - pos,
{
    match newc_head(data.skip(pos)) {
        Err((kind, message)) => Err(error::io_error_view(kind, message)),
        Ok(h) => {
            let body = pos + h.len;
            let next = body + h.file_size + padding(h.file_size as int);
            if h.name == "TRAILER!!!"@ {
                Ok(Seq::empty())
            } else if next > data.len() || h.len < 0 || pos < 0 || next <= pos {
                Err(ErrorView::Corrupt("failed to fill whole buffer"@))
            } else {
                match newc_from(data, next) {
                    Err(e) => Err(e),
                    Ok(rest) => match kept_record(
                        data,
                        utf8::encode_utf8(h.name),
                        h.mode,
                        body,
                        h.file_size as int,
                        mtime_view(h.mtime as u64),
                    ) {
                        Some(r) => Ok(seq![r] + rest),
                        None => Ok(rest),
                    },
                }
            }
        },
    }
}

/// Scan a `newc` archive. An archive that ends inside a body or its padding is
/// damaged.
pub fn scan_newc(data: &[u8]) -> (r: Result<Vec<Record>, Error>)
    ensures
        scan_view(r) == newc_from(data@, 0),
        r matches Ok(v) ==> bodies_lie_in(v@, data.len() as int),
{
    let mut out: Vec<Record> = Vec::new();
    let mut pos: usize = 0;
    let ghost whole = newc_from(data@, 0);
    proof {
        match whole {
            Ok(l) => assert(record_views(out@) + l =~= l),
            Err(e) => {},
        }
    }
    loop
        invariant
            pos <= data.len(),
            whole == newc_from(data@, 0),
            whole == after_records(record_views(out@), newc_from(data@, pos as int)),
            bodies_lie_in(out@, data.len() as int),
        decreases data.len() - pos,
    {
        let left: &[u8] = &data[pos..data.len()];
        assert(left@ =~= data@.skip(pos as int));
        let h = match read_newc_head(left) {
            Ok(h) => h,
            Err(e) => {
                return Err(io_err_to_corrupt(e));
            },
        };
        if crate::text::same_text(h.name.as_str(), "TRAILER!!!") {
            proof {
                assert(record_views(out@) + Seq::<RecordView>::empty() =~= record_views(out@));
            }
            return Ok(out);
        }
        let body: usize = pos + h.len;
        let size: u64 = h.file_size as u64;
        let pad: u64 = (4 - size % 4) % 4;
        if size + pad > (data.len() - body) as u64 {
            return Err(corrupt("failed to fill whole buffer"));
        }
        let name = copy_bytes(h.name.as_str().as_bytes());
        let modified = unix_secs_to_systime(h.mtime as u64);
        match keep_record(data, name, h.mode, body, size as usize, modified) {
            Some(rec) => {
                let ghost before = out@;
                out.push(rec);
                proof {
                    assert(record_views(out@) =~= record_views(before).push(rec@));
                    match newc_from(data@, body + size + pad) {
                        Ok(l) => assert(record_views(before) + (seq![rec@] + l) =~= record_views(out@) + l),
                        Err(e) => {},
                    }
                }
            },
            None => {},
        }
        pos = body + (size + pad) as usize;
    }
}

/// A decoded name without the slashes at its end and `./` at its start.
pub open spec fn cleaned(name: Seq<char>) -> Seq<char> {
    text::without_prefix(text::without_trailing(name, '/'), "./"@)
}

/// A decoded name without the slashes at its end and `./` at its start.
fn clean_name(name: &str) -> (r: String)
    ensures
        r@ == cleaned(name@),
{
    let cs = chars_of(name);
    let t = trim_end_char(&cs, '/');
    let p = strip_prefix(&t, "./");
    string_of(&p)
}

/// The raw target of each record, empty where it is no link.
pub open spec fn raw_targets(records: Seq<RecordView>) -> Seq<Seq<u8>> {
    records.map_values(
        |r: RecordView|
            match r.kind {
                KindRawView::Symlink(t) => t,
                _ => Seq::empty(),
            },
    )
}

/// The raw names of the records.
pub open spec fn record_names(records: Seq<RecordView>) -> Seq<Seq<u8>> {
    records.map_values(|r: RecordView| r.name)
}

/// The entry of a record with its decoded name and, where it is a link, its
/// decoded target.
pub open spec fn entry_of(r: RecordView, name: Seq<char>, target: Seq<char>) -> EntryView {
    EntryView {
        path_raw: r.name,
        path: cleaned(name),
        kind: match r.kind {
            KindRawView::File => KindView::File,
            KindRawView::Dir => KindView::Dir,
            KindRawView::Symlink(_) => KindView::Symlink(target),
        },
        size: r.size as u64,
        mode: Some(r.mode),
        is_encrypted: false,
        modified: match r.modified {
            Some(t) => Some(Stamp::Instant(t)),
            None => None,
        },
        is_resource_fork: false,
    }
}

/// The listing of an archive: names decoded in one encoding, link targets in one
/// encoding.
pub open spec fn listing_of(records: Seq<RecordView>, label: Option<Seq<char>>) -> Seq<EntryView> {
    let names = encoding::decoded_names(record_names(records), label);
    let targets = encoding::decoded_names(raw_targets(records), label);
    Seq::new(records.len(), |i: int| entry_of(records[i], names[i], targets[i]))
}

/// An opened cpio archive.
#[derive(Debug)]
pub struct CpioReader {
    data: Vec<u8>,
    entries: Vec<Entry>,
    bodies: Vec<Option<(usize, usize)>>,
}

impl CpioReader {
    #[verifier::type_invariant]
    spec fn wf(self) -> bool {
        &&& self.entries.len() == self.bodies.len()
        &&& forall|i: int|
            0 <= i < self.bodies.len() ==> (#[trigger] self.bodies@[i] matches Some(b) ==> b.0 + b.1 <= self.data.len())
    }

    /// The reader shows the records of this archive.
    pub closed spec fn shows(&self, data: Seq<u8>, records: Seq<RecordView>, label: Option<Seq<char>>) -> bool {
        &&& self.data@ == data
        &&& archive::views(self.entries@) == listing_of(records, label)
        &&& self.bodies.len() == records.len()
        &&& forall|i: int| 0 <= i < records.len() ==> #[trigger] self.bodies@[i] == body_place(records[i])
    }
}

/// Where the body of a record lies, if it has one.
pub open spec fn body_place(r: RecordView) -> Option<(usize, usize)> {
    match r.kind {
        KindRawView::File => Some((r.start as usize, r.size as usize)),
        _ => None,
    }
}

/// The body of an entry of an archive.
pub open spec fn record_body(data: Seq<u8>, records: Seq<RecordView>, idx: int) -> Result<Seq<u8>, ErrorView> {
    if idx >= records.len() {
        Err(ErrorView::InvalidIndex(idx))
    } else {
        match body_place(records[idx]) {
            None => Ok(Seq::empty()),
            Some((start, size)) => Ok(data.subrange(start as int, start + size)),
        }
    }
}

/// A record whose archive stands `by` bytes further on: the body of a file moves with it.
pub open spec fn moved(r: RecordView, by: int) -> RecordView {
    RecordView { start: if r.kind is File { r.start + by } else { r.start }, ..r }
}

/// The outcome of a scan of an archive that stands `by` bytes further on.
pub open spec fn moved_scan(scan: Result<Seq<RecordView>, ErrorView>, by: int) -> Result<Seq<RecordView>, ErrorView> {
    match scan {
        Ok(l) => Ok(l.map_values(|r: RecordView| moved(r, by))),
        Err(e) => Err(e),
    }
}

/// What becomes of a record by the type of file in its mode: a file lies where its body
/// does, a directory has no body, a link leads to its body without the zero bytes at the
/// end, and anything else is left out.
pub open spec fn is_record_of(
    r: Option<RecordView>,
    name: Seq<u8>,
    mode: u32,
    start: int,
    body: Seq<u8>,
    secs: int,
) -> bool {
    let t = mode as int / 0x1000 % 16;
    if t == 8 {
        r matches Some(x) && x.kind is File && x.start == start && x.size == body.len() && x.name == name && x.mode == mode
            && dated(x, secs)
    } else if t == 4 {
        r matches Some(x) && x.kind is Dir && x.size == 0 && x.name == name && x.mode == mode && dated(x, secs)
    } else if t == 10 {
        r matches Some(x) && leads_to(x, body) && x.size == body.len() && x.name == name && x.mode == mode && dated(x, secs)
    } else {
        r is None
    }
}

/// The time of a record, in seconds since 1970. 0 is none.
pub open spec fn dated(r: RecordView, secs: int) -> bool {
    match r.modified {
        Some(t) => secs != 0 && t.secs == secs && t.nanos == 0,
        None => secs == 0,
    }
}

/// The record is a link to what stands in `body` before the zero bytes at its end.
pub open spec fn leads_to(r: RecordView, body: Seq<u8>) -> bool {
    match r.kind {
        KindRawView::Symlink(t) => {
            &&& t.len() <= body.len()
            &&& forall|k: int| 0 <= k < t.len() ==> t[k] == body[k]
            &&& forall|k: int| t.len() <= k < body.len() ==> body[k] == 0
            &&& t.len() == 0 || t.last() != 0
        },
        _ => false,
    }
}

proof fn trimmed_is_prefix(s: Seq<u8>)
    ensures
        bytes::trimmed(s, 0).len() <= s.len(),
        forall|k: int| 0 <= k < bytes::trimmed(s, 0).len() ==> bytes::trimmed(s, 0)[k] == s[k],
        forall|k: int| bytes::trimmed(s, 0).len() <= k < s.len() ==> s[k] == 0,
        bytes::trimmed(s, 0).len() == 0 || bytes::trimmed(s, 0).last() != 0,
    decreases s.len(),
{
    if s.len() > 0 && s.last() == 0 {
        trimmed_is_prefix(s.drop_last());
        let t = bytes::trimmed(s, 0);
        assert forall|k: int| 0 <= k < t.len() implies t[k] == s[k] by {
            assert(t[k] == s.drop_last()[k]);
        }
        assert forall|k: int| t.len() <= k < s.len() implies s[k] == 0 by {
            if k < s.len() - 1 {
                assert(s.drop_last()[k] == 0);
            }
        }
    }
}

/// The type of file in the mode decides what becomes of a record.
pub proof fn mode_decides_record(data: Seq<u8>, name: Seq<u8>, mode: u32, start: int, size: int, secs: u64)
    requires
        0 <= start,
        0 <= size,
        start + size <= data.len(),
    ensures
        is_record_of(
            kept_record(data, name, mode, start, size, mtime_view(secs)),
            name,
            mode,
            start,
            data.subrange(start, start + size),
            secs as int,
        ),
{
    assert((mode & 0xF000 == 0x8000) == (mode / 0x1000 % 16 == 8) && (mode & 0xF000 == 0x4000) == (mode / 0x1000 % 16
        == 4) && (mode & 0xF000 == 0xA000) == (mode / 0x1000 % 16 == 10)) by (bit_vector);
    trimmed_is_prefix(data.subrange(start, start + size));
}

proof fn kept_moves(front: Seq<u8>, other: Seq<u8>, name: Seq<u8>, mode: u32, start: int, size: int, time: Option<Timestamp>)
    requires
        0 <= start,
        0 <= size,
        start + size <= other.len(),
    ensures
        kept_record(front + other, name, mode, front.len() + start, size, time) == match kept_record(
            other,
            name,
            mode,
            start,
            size,
            time,
        ) {
            Some(r) => Some(moved(r, front.len() as int)),
            None => None,
        },
{
    let n = front.len() as int;
    assert((front + other).subrange(n + start, n + start + size) =~= other.subrange(start, start + size));
}

proof fn moved_begins(r: RecordView, rest: Seq<RecordView>, by: int)
    ensures
        (seq![r] + rest).map_values(|r: RecordView| moved(r, by)) == seq![moved(r, by)] + rest.map_values(
            |r: RecordView| moved(r, by),
        ),
{
    assert((seq![r] + rest).map_values(|r: RecordView| moved(r, by)) =~= seq![moved(r, by)] + rest.map_values(
        |r: RecordView| moved(r, by),
    ));
}

#[verifier::rlimit(40)]
proof fn newc_moves(front: Seq<u8>, other: Seq<u8>, pos: int)
    requires
        0 <= pos <= other.len(),
    ensures
        newc_from(front + other, front.len() + pos) == moved_scan(newc_from(other, pos), front.len() as int),
    decreases other.len() - pos,
{
    let n = front.len() as int;
    let data = front + other;
    assert(data.skip(n + pos) =~= other.skip(pos));
    assert(Seq::<RecordView>::empty().map_values(|r: RecordView| moved(r, n)) =~= Seq::<RecordView>::empty());
    if let Ok(h) = newc_head(other.skip(pos)) {
        let body = pos + h.len;
        let next = body + h.file_size + padding(h.file_size as int);
        if h.name != "TRAILER!!!"@ && !(next > other.len() || h.len < 0 || pos < 0 || next <= pos) {
            newc_moves(front, other, next);
            let name = utf8::encode_utf8(h.name);
            let time = mtime_view(h.mtime as u64);
            kept_moves(front, other, name, h.mode, body, h.file_size as int, time);
            if let Ok(rest) = newc_from(other, next) {
                if let Some(r) = kept_record(other, name, h.mode, body, h.file_size as int, time) {
                    moved_begins(r, rest, n);
                }
            }
        }
    }
}

#[verifier::rlimit(40)]
proof fn odc_moves(front: Seq<u8>, other: Seq<u8>, pos: int)
    requires
        0 <= pos <= other.len(),
    ensures
        odc_from(front + other, front.len() + pos) == moved_scan(odc_from(other, pos), front.len() as int),
    decreases other.len() - pos,
{
    let n = front.len() as int;
    let data = front + other;
    if pos + 76 <= other.len() {
        assert(data.subrange(n + pos, n + pos + 76) =~= other.subrange(pos, pos + 76));
        assert(data.subrange(n + pos, n + pos + 6) =~= other.subrange(pos, pos + 6));
    }
    assert(odc_head(data, n + pos) == odc_head(other, pos));
    assert(Seq::<RecordView>::empty().map_values(|r: RecordView| moved(r, n)) =~= Seq::<RecordView>::empty());
    if let Ok(h) = odc_head(other, pos) {
        let at = pos + ODC_HEADER_LEN;
        let body = at + h.namesize;
        let next = body + h.filesize;
        if body <= other.len() {
            assert(data.subrange(n + at, n + body) =~= other.subrange(at, body));
            let name = bytes::trimmed(other.subrange(at, body), 0);
            if name != TRAILER@ && next <= other.len() {
                odc_moves(front, other, next);
                let time = mtime_view(h.mtime);
                kept_moves(front, other, name, h.mode, body, h.filesize as int, time);
                if let Ok(rest) = odc_from(other, next) {
                    if let Some(r) = kept_record(other, name, h.mode, body, h.filesize as int, time) {
                        moved_begins(r, rest, n);
                    }
                }
            }
        }
    }
}

/// One record, if there is one, and then those of the rest of an archive.
pub open spec fn before_rest(first: Option<RecordView>, rest: Result<Seq<RecordView>, ErrorView>) -> Result<
    Seq<RecordView>,
    ErrorView,
> {
    match rest {
        Ok(l) => match first {
            Some(r) => Ok(seq![r] + l),
            None => Ok(l),
        },
        Err(e) => Err(e),
    }
}

proof fn newc_goes_on(data: Seq<u8>, h: NewcView, next: int)
    requires
        newc_head(data) == Ok::<NewcView, (IoKind, Seq<char>)>(h),
        h.name != "TRAILER!!!"@,
        0 < h.len,
        next == h.len + h.file_size + padding(h.file_size as int),
        next <= data.len(),
    ensures
        newc_from(data, 0) == before_rest(
            kept_record(
                data,
                utf8::encode_utf8(h.name),
                h.mode,
                h.len,
                h.file_size as int,
                mtime_view(h.mtime as u64),
            ),
            newc_from(data, next),
        ),
{
    assert(data.skip(0) =~= data);
}

/// A `newc` record and its body, filled up to a multiple of four bytes, before another
/// archive: that is an archive with this record and then those of the other, whose bodies
/// stand as far behind as what was put before them is long.
#[verifier::rlimit(40)]
pub proof fn newc_record_before_archive(head: Seq<u8>, body: Seq<u8>, fill: Seq<u8>, other: Seq<u8>, h: NewcView) -> (first:
    Option<RecordView>)
    requires
        newc_head(head + body + fill + other) == Ok::<NewcView, (IoKind, Seq<char>)>(h),
        h.name != "TRAILER!!!"@,
        0 < h.len == head.len(),
        h.file_size == body.len(),
        fill.len() < 4,
        (body.len() + fill.len()) % 4 == 0,
    ensures
        is_record_of(first, utf8::encode_utf8(h.name), h.mode, head.len() as int, body, h.mtime as int),
        newc_from(head + body + fill + other, 0) == before_rest(
            first,
            moved_scan(newc_from(other, 0), (head + body + fill).len() as int),
        ),
{
    let front = head + body + fill;
    let data = front + other;
    let pos = head.len() as int;
    let size = body.len() as int;
    assert(data.subrange(pos, pos + size) =~= body);
    let first = kept_record(data, utf8::encode_utf8(h.name), h.mode, pos, size, mtime_view(h.mtime as u64));
    mode_decides_record(data, utf8::encode_utf8(h.name), h.mode, pos, size, h.mtime as u64);
    newc_moves(front, other, 0);
    newc_goes_on(data, h, front.len() as int);
    first
}

/// An archive that ends inside a body, or inside the bytes that fill it up to a multiple of
/// four, is damaged.
pub proof fn newc_needs_all_of_its_body(data: Seq<u8>, h: NewcView)
    requires
        newc_head(data) == Ok::<NewcView, (IoKind, Seq<char>)>(h),
        h.name != "TRAILER!!!"@,
        0 < h.len <= data.len(),
        data.len() < h.len + h.file_size || (exists|k: int|
            #![trigger fills_up(h.file_size as int, k)]
            fills_up(h.file_size as int, k) && data.len() < h.len + h.file_size + k),
    ensures
        newc_from(data, 0) == Err::<Seq<RecordView>, ErrorView>(ErrorView::Corrupt("failed to fill whole buffer"@)),
{
    assert(data.skip(0) =~= data);
}

/// `k` bytes fill `n` up to a multiple of four, and no fewer do.
pub open spec fn fills_up(n: int, k: int) -> bool {
    0 <= k < 4 && (n + k) % 4 == 0
}

/// The bytes behind the body of a record fill it up to a multiple of four.
pub proof fn padding_fills_up(n: int)
    requires
        0 <= n,
    ensures
        0 <= padding(n) < 4,
        (n + padding(n)) % 4 == 0,
        forall|k: int| #[trigger] fills_up(n, k) ==> k == padding(n),
{
}

/// The digits of a number in base eight, so many of them, the highest first.
pub open spec fn octal_digits(v: int, n: nat) -> Seq<u8>
    decreases n,
{
    if n == 0 {
        Seq::empty()
    } else {
        octal_digits(v / 8, (n - 1) as nat).push((0x30 + v % 8) as u8)
    }
}

#[verifier::rlimit(40)]
proof fn octal_goes_on(done: Seq<u8>, rest: Seq<u8>, seen: bool, value: int, v: int, n: nat)
    requires
        done == octal_digits(v, n),
        0 <= value,
        0 <= v < eights(n),
        value * eights(n) + v <= u64::MAX,
    ensures
        octal_from(done + rest, seen, value) == octal_from(rest, seen || n > 0, value * eights(n) + v),
    decreases n,
{
    if n == 0 {
        assert(done + rest =~= rest);
        assert(value * eights(n) == value) by (nonlinear_arith)
            requires
                eights(n) == 1,
        ;
    } else {
        let m = (n - 1) as nat;
        let init = octal_digits(v / 8, m);
        let last = (0x30 + v % 8) as u8;
        let tail = seq![last] + rest;
        assert(done + rest =~= init + tail);
        assert(eights(n) == 8 * eights(m));
        let so_far = value * eights(m) + v / 8;
        assert(value * (8 * eights(m)) == 8 * (value * eights(m))) by (nonlinear_arith);
        assert(0 <= value * eights(m)) by (nonlinear_arith)
            requires
                0 <= value,
                0 < eights(m),
        {
            eights_grow(m, m);
        }
        octal_goes_on(init, tail, seen, value, v / 8, m);
        assert(tail.skip(1) =~= rest);
        assert(tail[0] == last);
        assert(octal_from(tail, seen || m > 0, so_far) == octal_from(rest, true, so_far * 8 + v % 8));
    }
}

/// A number that is written in octal digits reads back, with blanks or zero bytes before
/// and behind it or without.
pub proof fn octal_reads_back(v: int, n: nat, before: Seq<u8>, behind: Seq<u8>)
    requires
        n > 0,
        0 <= v < eights(n),
        v <= u64::MAX,
        is_padding(before),
        is_padding(behind),
    ensures
        octal(before + octal_digits(v, n) + behind) == Some(v),
    decreases before.len(),
{
    let all = before + octal_digits(v, n) + behind;
    if before.len() > 0 {
        let less = before.skip(1);
        assert(is_padding(less)) by {
            assert forall|i: int| 0 <= i < less.len() implies (#[trigger] less[i] == 0x20 || less[i] == 0) by {
                assert(less[i] == before[i + 1]);
            }
        }
        octal_reads_back(v, n, less, behind);
        assert(all[0] == before[0]);
        assert(all.skip(1) =~= less + octal_digits(v, n) + behind);
    } else {
        assert(all =~= octal_digits(v, n) + behind);
        octal_goes_on(octal_digits(v, n), behind, false, 0, v, n);
        if behind.len() > 0 {
            assert(behind[0] == 0x20 || behind[0] == 0);
        }
    }
}

proof fn digits_have_length(v: int, n: nat)
    ensures
        octal_digits(v, n).len() == n,
    decreases n,
{
    if n > 0 {
        digits_have_length(v / 8, (n - 1) as nat);
    }
}

/// The header of an `odc` record. What stands for the device, the owner and the like is
/// passed over.
pub open spec fn odc_header(mode: int, mtime: int, namesize: int, filesize: int, passed: Seq<u8>, over: Seq<u8>) -> Seq<u8> {
    seq![0x30u8, 0x37, 0x30, 0x37, 0x30, 0x37] + passed + octal_digits(mode, 6) + over + octal_digits(mtime, 11) + octal_digits(
        namesize,
        6,
    ) + octal_digits(filesize, 11)
}

#[verifier::rlimit(40)]
proof fn odc_header_reads_back(mode: int, mtime: int, namesize: int, filesize: int, passed: Seq<u8>, over: Seq<u8>, rest: Seq<u8>)
    requires
        0 <= mode < 0o1000000,
        0 <= mtime < 0o100000000000,
        0 < namesize < 0o1000000,
        0 <= filesize < 0o100000000000,
        passed.len() == 12,
        over.len() == 24,
    ensures
        odc_header(mode, mtime, namesize, filesize, passed, over).len() == 76,
        odc_head(odc_header(mode, mtime, namesize, filesize, passed, over) + rest, 0) == Ok::<OdcHead, ErrorView>(
            OdcHead { mode: mode as u32, mtime: mtime as u64, namesize: namesize as u64, filesize: filesize as u64 },
        ),
{
    let none = Seq::<u8>::empty();
    let head = odc_header(mode, mtime, namesize, filesize, passed, over);
    let data = head + rest;
    reveal_with_fuel(eights, 12);
    assert(eights(6) == 0o1000000);
    assert(eights(11) == 0o100000000000);
    digits_have_length(mode, 6);
    digits_have_length(mtime, 11);
    digits_have_length(namesize, 6);
    digits_have_length(filesize, 11);
    octal_reads_back(mode, 6, none, none);
    octal_reads_back(mtime, 11, none, none);
    octal_reads_back(namesize, 6, none, none);
    octal_reads_back(filesize, 11, none, none);
    assert(none + octal_digits(mode, 6) + none =~= octal_digits(mode, 6));
    assert(none + octal_digits(mtime, 11) + none =~= octal_digits(mtime, 11));
    assert(none + octal_digits(namesize, 6) + none =~= octal_digits(namesize, 6));
    assert(none + octal_digits(filesize, 11) + none =~= octal_digits(filesize, 11));
    let h = data.subrange(0, 76);
    assert(data.subrange(0, 6) =~= MAGIC_ODC@);
    assert(h.subrange(18, 24) =~= octal_digits(mode, 6));
    assert(h.subrange(48, 59) =~= octal_digits(mtime, 11));
    assert(h.subrange(59, 65) =~= octal_digits(namesize, 6));
    assert(h.subrange(65, 76) =~= octal_digits(filesize, 11));
}

proof fn odc_goes_on(data: Seq<u8>, h: OdcHead, name: Seq<u8>)
    requires
        odc_head(data, 0) == Ok::<OdcHead, ErrorView>(h),
        76 + h.namesize + h.filesize <= data.len(),
        bytes::trimmed(data.subrange(76, 76 + h.namesize as int), 0) == name,
        name != TRAILER@,
    ensures
        odc_from(data, 0) == before_rest(
            kept_record(data, name, h.mode, 76 + h.namesize as int, h.filesize as int, mtime_view(h.mtime)),
            odc_from(data, 76 + h.namesize as int + h.filesize as int),
        ),
{
}

/// An `odc` record, with a zero byte behind its name and its body right behind that, before
/// another archive: that is an archive with this record and then those of the other, whose
/// bodies stand as far behind as what was put before them is long.
#[verifier::rlimit(40)]
pub proof fn odc_record_before_archive(
    name: Seq<u8>,
    body: Seq<u8>,
    mode: int,
    mtime: int,
    passed: Seq<u8>,
    over: Seq<u8>,
    other: Seq<u8>,
) -> (first: Option<RecordView>)
    requires
        0 <= mode < 0o1000000,
        0 <= mtime < 0o100000000000,
        name.len() + 1 < 0o1000000,
        body.len() < 0o100000000000,
        passed.len() == 12,
        over.len() == 24,
        name.len() == 0 || name.last() != 0,
        name != TRAILER@,
    ensures
        is_record_of(first, name, mode as u32, 77 + name.len() as int, body, mtime),
        ({
            let front = odc_header(mode, mtime, name.len() as int + 1, body.len() as int, passed, over) + name + seq![0u8] + body;
            odc_from(front + other, 0) == before_rest(first, moved_scan(odc_from(other, 0), front.len() as int))
        }),
{
    let head = odc_header(mode, mtime, name.len() as int + 1, body.len() as int, passed, over);
    let front = head + name + seq![0u8] + body;
    let data = front + other;
    let rest = name + seq![0u8] + body + other;
    odc_header_reads_back(mode, mtime, name.len() as int + 1, body.len() as int, passed, over, rest);
    assert(data =~= head + rest);
    let at = 76int;
    let start = 77 + name.len() as int;
    let raw = data.subrange(at, start);
    assert(raw =~= name.push(0));
    assert(raw.drop_last() =~= name);
    assert(bytes::trimmed(raw, 0) == bytes::trimmed(name, 0));
    assert(bytes::trimmed(name, 0) == name);
    let size = body.len() as int;
    assert(data.subrange(start, start + size) =~= body);
    let first = kept_record(data, name, mode as u32, start, size, mtime_view(mtime as u64));
    mode_decides_record(data, name, mode as u32, start, size, mtime as u64);
    odc_moves(front, other, 0);
    let h = OdcHead {
        mode: mode as u32,
        mtime: mtime as u64,
        namesize: (name.len() + 1) as u64,
        filesize: body.len() as u64,
    };
    assert(odc_head(data, 0) == Ok::<OdcHead, ErrorView>(h));
    odc_goes_on(data, h, name);
    first
}

/// The record called `TRAILER!!!` ends an `odc` archive, whatever follows it.
#[verifier::rlimit(40)]
pub proof fn nothing_follows_the_odc_trailer(size: int, mode: int, mtime: int, passed: Seq<u8>, over: Seq<u8>, rest: Seq<u8>)
    requires
        0 <= mode < 0o1000000,
        0 <= mtime < 0o100000000000,
        0 <= size < 0o100000000000,
        passed.len() == 12,
        over.len() == 24,
    ensures
        odc_from(
            odc_header(mode, mtime, 11, size, passed, over) + seq![
                0x54u8, 0x52, 0x41, 0x49, 0x4C, 0x45, 0x52, 0x21, 0x21, 0x21, 0,
            ] + rest,
            0,
        ) == Ok::<Seq<RecordView>, ErrorView>(Seq::empty()),
{
    let head = odc_header(mode, mtime, 11, size, passed, over);
    let raw = seq![0x54u8, 0x52, 0x41, 0x49, 0x4C, 0x45, 0x52, 0x21, 0x21, 0x21, 0];
    let data = head + raw + rest;
    odc_header_reads_back(mode, mtime, 11, size, passed, over, raw + rest);
    assert(data =~= head + (raw + rest));
    assert(data.subrange(76, 87) =~= raw);
    assert(raw.drop_last() =~= TRAILER@);
    assert(TRAILER@.last() == 0x21);
    assert(bytes::trimmed(raw, 0) == bytes::trimmed(raw.drop_last(), 0));
    assert(bytes::trimmed(TRAILER@, 0) == TRAILER@);
}

/// The bodies of an archive that has others put before it are what they were.
pub proof fn moved_bodies_are_the_same(front: Seq<u8>, other: Seq<u8>, first: Option<RecordView>, rest: Seq<RecordView>, k: int)
    requires
        0 <= k < rest.len(),
        front.len() + other.len() <= usize::MAX,
        rest[k].kind is File ==> 0 <= rest[k].start && 0 <= rest[k].size && rest[k].start + rest[k].size <= other.len(),
    ensures
        ({
            let all = before_rest(
                first,
                moved_scan(Ok::<Seq<RecordView>, ErrorView>(rest), front.len() as int),
            )->Ok_0;
            record_body(front + other, all, k + all.len() - rest.len()) == record_body(other, rest, k)
        }),
{
    let n = front.len() as int;
    let later = rest.map_values(|r: RecordView| moved(r, n));
    let all = before_rest(first, Ok::<Seq<RecordView>, ErrorView>(later))->Ok_0;
    let j = k + all.len() - rest.len();
    assert(all[j] == later[k]);
    assert(later[k] == moved(rest[k], n));
    if rest[k].kind is File {
        let (start, size) = (rest[k].start, rest[k].size);
        assert((front + other).subrange(n + start, n + start + size) =~= other.subrange(start, start + size));
    }
}

/// The record that ends an archive ends it, whatever follows.
pub proof fn nothing_follows_the_trailer(data: Seq<u8>, h: NewcView)
    requires
        newc_head(data) == Ok::<NewcView, (IoKind, Seq<char>)>(h),
        h.name == "TRAILER!!!"@,
    ensures
        newc_from(data, 0) == Ok::<Seq<RecordView>, ErrorView>(Seq::empty()),
{
    assert(data.skip(0) =~= data);
}

/// What a reader of an archive lists and reads.
pub proof fn reader_shows_records(
    reader: CpioReader,
    data: Seq<u8>,
    records: Seq<RecordView>,
    label: Option<Seq<char>>,
)
    requires
        reader.shows(data, records, label),
    ensures
        reader.listing() == listing_of(records, label),
        forall|idx: int| 0 <= idx ==> #[trigger] reader.body(idx) == record_body(data, records, idx),
{
    assert(reader.entries.len() == records.len()) by {
        assert(archive::views(reader.entries@).len() == listing_of(records, label).len());
    }
}

impl ArchiveReader for CpioReader {
    open spec fn spec_format(&self) -> FormatId {
        FormatId::Cpio
    }

    closed spec fn listing(&self) -> Seq<EntryView> {
        archive::views(self.entries@)
    }

    closed spec fn body(&self, idx: int) -> Result<Seq<u8>, ErrorView> {
        if idx >= self.entries.len() {
            Err(ErrorView::InvalidIndex(idx))
        } else {
            match self.bodies@[idx] {
                None => Ok(Seq::empty()),
                Some((start, size)) => Ok(self.data@.subrange(start as int, start + size)),
            }
        }
    }

    fn format(&self) -> (r: FormatId) {
        FormatId::Cpio
    }

    fn entries(&self) -> (r: &Vec<Entry>) {
        &self.entries
    }

    fn read_entry(&self, idx: usize) -> (r: Result<Vec<u8>, Error>) {
        proof {
            use_type_invariant(self);
        }
        if idx >= self.bodies.len() {
            return Err(Error::InvalidIndex(idx));
        }
        match self.bodies[idx] {
            None => {
                let none: Vec<u8> = Vec::new();
                assert(none@ =~= Seq::<u8>::empty());
                Ok(none)
            },
            Some((start, size)) => Ok(copy_range(self.data.as_slice(), start, start + size)),
        }
    }

    fn verify_password(&self) -> (r: Result<(), Error>) {
        Ok(())
    }
}

impl BatchReader for CpioReader {
    fn read_entries<S: EntrySink>(&self, indices: &[usize], sink: &mut S) -> (r: Result<(), Error>) {
        read_entries_one_by_one(self, indices, sink)
    }
}

/// Make a reader of scanned records.
fn finish(data: Vec<u8>, records: Vec<Record>, opts: &OpenOptions) -> (r: CpioReader)
    requires
        bodies_lie_in(records@, data.len() as int),
    ensures
        r.shows(data@, record_views(records@), text::opt_string(opts.encoding_override)),
{
    let ghost all = record_views(records@);
    let ghost label = text::opt_string(opts.encoding_override);
    let mut raw_names: Vec<Vec<u8>> = Vec::new();
    let mut targets: Vec<Vec<u8>> = Vec::new();
    let mut i: usize = 0;
    while i < records.len()
        invariant
            i <= records.len(),
            all == record_views(records@),
            raw_names.len() == i,
            targets.len() == i,
            forall|k: int| 0 <= k < i ==> (#[trigger] raw_names@[k])@ == record_names(all)[k],
            forall|k: int| 0 <= k < i ==> (#[trigger] targets@[k])@ == raw_targets(all)[k],
        decreases records.len() - i,
    {
        assert(all[i as int] == records@[i as int]@);
        raw_names.push(copy_bytes(records[i].name.as_slice()));
        targets.push(match &records[i].kind {
            KindRaw::Symlink(t) => copy_bytes(t.as_slice()),
            _ => {
                let none: Vec<u8> = Vec::new();
                assert(none@ =~= Seq::<u8>::empty());
                none
            },
        });
        i = i + 1;
    }
    assert(encoding::raw_views(raw_names@) =~= record_names(all));
    assert(encoding::raw_views(targets@) =~= raw_targets(all));
    let names = decode_names(raw_names.as_slice(), opts.label());
    let links = decode_names(targets.as_slice(), opts.label());
    let ghost want = listing_of(all, label);
    let mut entries: Vec<Entry> = Vec::new();
    let mut bodies: Vec<Option<(usize, usize)>> = Vec::new();
    let mut j: usize = 0;
    while j < records.len()
        invariant
            j <= records.len(),
            all == record_views(records@),
            want == listing_of(all, label),
            encoding::text_views(names@) == encoding::decoded_names(record_names(all), label),
            encoding::text_views(links@) == encoding::decoded_names(raw_targets(all), label),
            names.len() == records.len(),
            links.len() == records.len(),
            entries.len() == j,
            bodies.len() == j,
            bodies_lie_in(records@, data.len() as int),
            forall|k: int| 0 <= k < j ==> (#[trigger] entries@[k])@ == want[k],
            forall|k: int| 0 <= k < j ==> #[trigger] bodies@[k] == body_place(all[k]),
            forall|k: int|
                0 <= k < j ==> (#[trigger] bodies@[k] matches Some(b) ==> b.0 + b.1 <= data.len()),
        decreases records.len() - j,
    {
        let rec = &records[j];
        proof {
            assert(all[j as int] == rec@);
            assert(encoding::text_views(names@)[j as int] == names@[j as int]@);
            assert(encoding::text_views(links@)[j as int] == links@[j as int]@);
        }
        let kind = match &rec.kind {
            KindRaw::File => EntryKind::File,
            KindRaw::Dir => EntryKind::Dir,
            KindRaw::Symlink(_) => EntryKind::Symlink { target: copy_text(links[j].as_str()) },
        };
        bodies.push(match &rec.kind {
            KindRaw::File => Some((rec.start, rec.size as usize)),
            _ => None,
        });
        let entry = Entry {
            path_raw: copy_bytes(rec.name.as_slice()),
            path: clean_name(names[j].as_str()),
            kind,
            size: rec.size,
            mode: Some(rec.mode),
            is_encrypted: false,
            modified: match rec.modified {
                Some(t) => Some(Stamp::Instant(t)),
                None => None,
            },
            is_resource_fork: false,
        };
        entries.push(entry);
        j = j + 1;
    }
    assert(archive::views(entries@) =~= want);
    CpioReader { data, entries, bodies }
}

/// The records of an archive of a variant that is read.
pub open spec fn archive_records(data: Seq<u8>) -> Result<Seq<RecordView>, ErrorView> {
    if data.len() < MAGIC_LEN {
        Err(ErrorView::Corrupt("failed to fill whole buffer"@))
    } else if bytes::stands_at(data, 0, MAGIC_NEWC@) || bytes::stands_at(data, 0, MAGIC_CRC@) {
        newc_from(data, 0)
    } else if bytes::stands_at(data, 0, MAGIC_ODC@) {
        odc_from(data, 0)
    } else {
        Err(
            ErrorView::Corrupt(
                "unsupported cpio magic "@ + text::quoted(encoding::lossy(data.take(MAGIC_LEN as int))),
            ),
        )
    }
}

/// Reads cpio archives.
#[derive(Debug, Clone, Copy)]
pub struct CpioHandler;

impl FormatHandler for CpioHandler {
    open spec fn spec_id(&self) -> FormatId {
        FormatId::Cpio
    }

    open spec fn spec_probe(&self, header: Seq<u8>, name: Option<Seq<char>>) -> Confidence {
        archive::magic_when(bytes::stands_at(header, 0, MAGIC_NEWC@) || bytes::stands_at(header, 0, MAGIC_ODC@))
    }

    fn id(&self) -> (r: FormatId) {
        FormatId::Cpio
    }

    fn probe(&self, header: &[u8], name: Option<&str>) -> (r: Confidence) {
        Confidence::magic_if(starts_with(header, &MAGIC_NEWC) || starts_with(header, &MAGIC_ODC))
    }
}

/// The outcome of opening an archive.
pub open spec fn opens(r: Result<CpioReader, Error>, src: Source, opts: &OpenOptions) -> bool {
    match archive_records(src.content()) {
        Ok(records) => r matches Ok(reader) && reader.shows(
            src.content(),
            records,
            text::opt_string(opts.encoding_override),
        ),
        Err(e) => r matches Err(x) && x@ == e,
    }
}

impl CpioHandler {
    /// Open a cpio archive.
    pub fn open(&self, src: Source, opts: &OpenOptions) -> (r: Result<CpioReader, Error>)
        ensures
            opens(r, src, opts),
    {
        let data = src.read_all();
        if data.len() < MAGIC_LEN {
            return Err(corrupt("failed to fill whole buffer"));
        }
        let scan = if starts_with(data.as_slice(), &MAGIC_NEWC) || starts_with(data.as_slice(), &MAGIC_CRC) {
            scan_newc(data.as_slice())
        } else if starts_with(data.as_slice(), &MAGIC_ODC) {
            scan_odc(data.as_slice())
        } else {
            let head = copy_range(data.as_slice(), 0, MAGIC_LEN);
            assert(head@ =~= data@.take(MAGIC_LEN as int));
            let plain = text_lossy(head.as_slice());
            let shown = quote(plain.as_str());
            Err(Error::Corrupt(join2("unsupported cpio magic ", shown.as_str())))
        };
        match scan {
            Err(e) => Err(e),
            Ok(records) => Ok(finish(data, records, opts)),
        }
    }
}

/// A record is shown under its name without `./` before it and without slashes behind.
pub proof fn names_are_shown_without_dot_and_slashes(core: Seq<char>, slashes: nat)
    requires
        core.len() > 0,
        core.last() != '/',
        !(core.len() >= 2 && core[0] == '.' && core[1] == '/'),
    ensures
        cleaned(core) == core,
        cleaned(core + Seq::new(slashes, |k: int| '/')) == core,
        cleaned(seq!['.', '/'] + core + Seq::new(slashes, |k: int| '/')) == core,
{
    reveal_strlit("./");
    assert("./"@ =~= seq!['.', '/']);
    let dotted = seq!['.', '/'] + core;
    text::run_at_end_is_dropped(core, '/', slashes);
    text::run_at_end_is_dropped(core, '/', 0);
    assert(core + Seq::new(0, |k: int| '/') =~= core);
    text::run_at_end_is_dropped(dotted, '/', slashes);
    if text::text_begins(core, "./"@) {
        assert(core.take(2)[0] == '.' && core.take(2)[1] == '/');
    }
    assert(dotted.take(2) =~= "./"@);
    assert(dotted.skip(2) =~= core);
}

/// An entry has the kind, the size, the mode and the time of its record.
pub proof fn records_are_listed_as_they_are(records: Seq<RecordView>, label: Option<Seq<char>>, i: int)
    requires
        0 <= i < records.len(),
        0 <= records[i].size <= u64::MAX,
    ensures
        ({
            let e = listing_of(records, label)[i];
            let r = records[i];
            &&& listing_of(records, label).len() == records.len()
            &&& e.path_raw == r.name
            &&& (e.kind is File) == (r.kind is File)
            &&& (e.kind is Dir) == (r.kind is Dir)
            &&& e.size == r.size
            &&& e.mode == Some(r.mode)
            &&& r.modified is None ==> e.modified is None
            &&& r.modified matches Some(t) ==> e.modified == Some(Stamp::Instant(t))
            &&& !e.is_encrypted && !e.is_resource_fork
        }),
{
}

} // verus!
