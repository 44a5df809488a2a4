//! Site dumps of a WordPress plugin (`.wpress`): headers of fixed length, each
//! followed by the file's bytes as they are.
use vstd::prelude::*;

use crate::error;
use crate::archive;
use crate::bytes;
use crate::datetime;
use crate::encoding;
use crate::paths;
use crate::text;
use crate::archive::{read_entries_one_by_one, BatchReader, EntrySink};
use crate::archive::{ArchiveReader, Confidence, Entry, EntryKind, EntryView, FormatHandler, FormatId};
use crate::archive::{KindView, OpenOptions, Source};
use crate::bytes::{copy_bytes, copy_range, parse_digits, position_or_len};
use crate::datetime::{unix_secs_to_systime, Stamp, Timestamp};
use crate::encoding::{decode_names, text_lossy};
use crate::error::{unsupported, Error, ErrorView};
use crate::format::stored::{Body, StoredReader};
use crate::format::stored;
use crate::path_safety;
use crate::path_safety::raw_path_escapes;
use crate::paths::extension_is;
use crate::text::{copy_text, decimal_text, join2};

verus! {

pub const NAME_LEN: usize = 255;

pub const SIZE_LEN: usize = 14;

pub const MTIME_LEN: usize = 12;

pub const PREFIX_LEN: usize = 4096;

pub const HEADER_LEN: usize = 4377;

pub const NAME_OFF: usize = 0;

pub const SIZE_OFF: usize = 255;

pub const MTIME_OFF: usize = 269;

pub const PREFIX_OFF: usize = 281;

/// All bytes of `s` are zero.
pub open spec fn all_zero(s: Seq<u8>) -> bool {
    forall|i: int| 0 <= i < s.len() ==> s[i] == 0
}

/// Whether all bytes are zero.
pub fn is_all_zero(b: &[u8]) -> (r: bool)
    ensures
        r == all_zero(b@),
{
    let mut i: usize = 0;
    while i < b.len()
        invariant
            i <= b.len(),
            forall|j: int| 0 <= j < i ==> b@[j] == 0,
        decreases b.len() - i,
    {
        if b[i] != 0 {
            return false;
        }
        i = i + 1;
    }
    true
}

/// The text of a field: everything before its first zero byte, after which only
/// zero bytes may follow.
pub open spec fn field_text(field: Seq<u8>) -> Option<Seq<u8>> {
    let end = bytes::index_or_len(field, 0);
    if all_zero(field.skip(end)) { Some(field.take(end)) } else { None }
}

/// The text of a field.
pub fn text_field(field: &[u8]) -> (r: Option<&[u8]>)
    ensures
        match r {
            Some(t) => field_text(field@) == Some(t@) && t.len() <= field.len(),
            None => field_text(field@) is None,
        },
{
    let end: usize = position_or_len(field, 0);
    let tail: &[u8] = &field[end..field.len()];
    assert(tail@ =~= field@.skip(end as int));
    if is_all_zero(tail) {
        let t: &[u8] = &field[0..end];
        assert(t@ =~= field@.take(end as int));
        Some(t)
    } else {
        None
    }
}

/// `s` without the blanks at its end.
pub open spec fn without_blanks(s: Seq<u8>) -> Seq<u8>
    decreases s.len(),
{
    if s.len() > 0 && s.last() == 0x20 { without_blanks(s.drop_last()) } else { s }
}

/// The number of a field: none where the field is empty. Anything but digits,
/// and a number too large, is no field at all.
pub open spec fn field_number(field: Seq<u8>) -> Option<Option<int>> {
    match field_text(field) {
        None => None,
        Some(t) => {
            let digits = without_blanks(t);
            if digits.len() == 0 {
                Some(None)
            } else {
                match bytes::digits_value(digits) {
                    Some(v) if v <= u64::MAX => Some(Some(v)),
                    _ => None,
                }
            }
        },
    }
}

/// A parsed number as its model.
pub open spec fn number_view(r: Option<Option<u64>>) -> Option<Option<int>> {
    match r {
        None => None,
        Some(None) => Some(None),
        Some(Some(v)) => Some(Some(v as int)),
    }
}

/// The number of a field.
pub fn decimal_field(field: &[u8]) -> (r: Option<Option<u64>>)
    ensures
        number_view(r) == field_number(field@),
        r matches Some(Some(v)) ==> v < bytes::tens(field@.len()),
{
    let t = match text_field(field) {
        Some(t) => t,
        None => {
            return None;
        },
    };
    let mut n: usize = t.len();
    assert(t@.take(n as int) =~= t@);
    while n > 0 && t[n - 1] == 0x20
        invariant
            n <= t.len(),
            without_blanks(t@) == without_blanks(t@.take(n as int)),
        decreases n,
    {
        proof {
            assert(t@.take(n as int).last() == t@[n - 1]);
            assert(t@.take(n as int).drop_last() =~= t@.take(n - 1));
        }
        n = n - 1;
    }
    let digits: &[u8] = &t[0..n];
    proof {
        assert(digits@ =~= t@.take(n as int));
        if n > 0 {
            assert(t@.take(n as int).last() == t@[n - 1]);
        }
        assert(without_blanks(t@) == digits@);
    }
    if n == 0 {
        return Some(None);
    }
    match parse_digits(digits) {
        Some(v) => {
            proof {
                bytes::digits_are_bounded(digits@);
                bytes::tens_grow(digits@.len(), field@.len());
            }
            Some(Some(v))
        },
        None => None,
    }
}

/// A record's header, its texts still raw.
#[derive(Debug)]
pub struct RawHeader {
    pub name: Vec<u8>,
    pub prefix: Vec<u8>,
    pub size: u64,
    pub mtime: Option<u64>,
}

/// A `RawHeader` with its texts as sequences.
pub struct HeaderView {
    pub name: Seq<u8>,
    pub prefix: Seq<u8>,
    pub size: int,
    pub mtime: Option<int>,
}

impl View for RawHeader {
    type V = HeaderView;

    open spec fn view(&self) -> HeaderView {
        HeaderView {
            name: self.name@,
            prefix: self.prefix@,
            size: self.size as int,
            mtime: match self.mtime {
                Some(v) => Some(v as int),
                None => None,
            },
        }
    }
}

/// A file name without a directory part.
pub open spec fn is_bare_name(name: Seq<u8>) -> bool {
    name.len() > 0 && forall|i: int| 0 <= i < name.len() ==> name[i] != 0x2F && name[i] != 0x5C
}

/// What a header block says, or `None` where it is no header.
pub open spec fn header_view(b: Seq<u8>) -> Option<HeaderView> {
    let name = field_text(b.subrange(0, 255));
    let size = field_number(b.subrange(255, 269));
    let mtime = field_number(b.subrange(269, 281));
    let prefix = field_text(b.subrange(281, 4377));
    if name is Some && is_bare_name(name->0) && size is Some && mtime is Some && prefix is Some {
        Some(
            HeaderView {
                name: name->0,
                prefix: prefix->0,
                size: match size->0 {
                    Some(v) => v,
                    None => 0,
                },
                mtime: mtime->0,
            },
        )
    } else {
        None
    }
}

/// Parse a header block.
pub fn parse_header(block: &[u8]) -> (r: Option<RawHeader>)
    requires
        block.len() == HEADER_LEN,
    ensures
        match r {
            Some(h) => header_view(block@) == Some(h@) && (h.mtime matches Some(t) ==> t <= i64::MAX),
            None => header_view(block@) is None,
        },
{
    let name_field: &[u8] = &block[NAME_OFF..SIZE_OFF];
    let size_field: &[u8] = &block[SIZE_OFF..MTIME_OFF];
    let mtime_field: &[u8] = &block[MTIME_OFF..PREFIX_OFF];
    let prefix_field: &[u8] = &block[PREFIX_OFF..HEADER_LEN];
    proof {
        assert(name_field@ =~= block@.subrange(0, 255));
        assert(size_field@ =~= block@.subrange(255, 269));
        assert(mtime_field@ =~= block@.subrange(269, 281));
        assert(prefix_field@ =~= block@.subrange(281, 4377));
    }
    let name = match text_field(name_field) {
        Some(n) => n,
        None => {
            return None;
        },
    };
    if name.len() == 0 {
        return None;
    }
    let mut i: usize = 0;
    while i < name.len()
        invariant
            i <= name.len(),
            forall|j: int| 0 <= j < i ==> name@[j] != 0x2F && name@[j] != 0x5C,
            field_text(block@.subrange(0, 255)) == Some(name@),
        decreases name.len() - i,
    {
        if name[i] == 0x2F || name[i] == 0x5C {
            return None;
        }
        i = i + 1;
    }
    let size: u64 = match decimal_field(size_field) {
        Some(Some(v)) => v,
        Some(None) => 0,
        None => {
            return None;
        },
    };
    let mtime: Option<u64> = match decimal_field(mtime_field) {
        Some(m) => m,
        None => {
            return None;
        },
    };
    proof {
        reveal_with_fuel(bytes::tens, 13);
        assert(bytes::tens(12) == 1_000_000_000_000);
    }
    match text_field(prefix_field) {
        Some(p) => Some(RawHeader { name: copy_bytes(name), prefix: copy_bytes(p), size, mtime }),
        None => None,
    }
}

/// `p` without every `./` that leads it.
pub open spec fn without_dots(p: Seq<u8>) -> Seq<u8>
    decreases p.len(),
{
    if p.len() >= 2 && p[0] == 0x2E && p[1] == 0x2F { without_dots(p.skip(2)) } else { p }
}

/// `p` without the slashes at its end.
pub open spec fn without_slashes(p: Seq<u8>) -> Seq<u8>
    decreases p.len(),
{
    if p.len() > 0 && p.last() == 0x2F { without_slashes(p.drop_last()) } else { p }
}

/// The directory that a prefix names: a lone dot is the root.
pub open spec fn directory(prefix: Seq<u8>) -> Seq<u8> {
    let p = without_dots(prefix);
    without_slashes(if p == seq![0x2Eu8] { Seq::empty() } else { p })
}

/// The full path of a file.
pub open spec fn full_path(prefix: Seq<u8>, name: Seq<u8>) -> Seq<u8> {
    let d = directory(prefix);
    if d.len() == 0 { name } else { d + seq![0x2Fu8] + name }
}

/// Join a prefix and a name into the full path of a file.
pub fn join_raw(prefix: &[u8], name: &[u8]) -> (r: Vec<u8>)
    ensures
        r@ == full_path(prefix@, name@),
{
    let mut from: usize = 0;
    assert(prefix@.skip(0) =~= prefix@);
    while prefix.len() - from >= 2 && prefix[from] == 0x2E && prefix[from + 1] == 0x2F
        invariant
            from <= prefix.len(),
            without_dots(prefix@) == without_dots(prefix@.skip(from as int)),
        decreases prefix.len() - from,
    {
        assert(prefix@.skip(from as int).skip(2) =~= prefix@.skip(from + 2));
        from = from + 2;
    }
    let ghost p = prefix@.skip(from as int);
    assert(without_dots(prefix@) == p);
    let lone = prefix.len() - from == 1 && prefix[from] == 0x2E;
    proof {
        assert(lone == (p == seq![0x2Eu8])) by {
            if lone {
                assert(p =~= seq![0x2Eu8]);
            } else if p == seq![0x2Eu8] {
                assert(p.len() == 1 && p[0] == 0x2E);
            }
        }
    }
    let mut to: usize = if lone { from } else { prefix.len() };
    let ghost q = prefix@.subrange(from as int, to as int);
    proof {
        assert(q =~= if lone { Seq::<u8>::empty() } else { p });
    }
    while to > from && prefix[to - 1] == 0x2F
        invariant
            from <= to <= prefix.len(),
            without_slashes(q) == without_slashes(prefix@.subrange(from as int, to as int)),
        decreases to,
    {
        proof {
            let now = prefix@.subrange(from as int, to as int);
            assert(now.last() == prefix@[to - 1]);
            assert(now.drop_last() =~= prefix@.subrange(from as int, to - 1));
        }
        to = to - 1;
    }
    proof {
        let now = prefix@.subrange(from as int, to as int);
        if to > from {
            assert(now.last() == prefix@[to - 1]);
        }
        assert(directory(prefix@) == now);
    }
    let mut out = copy_range(prefix, from, to);
    if out.len() == 0 {
        return copy_bytes(name);
    }
    out.push(0x2F);
    out.extend_from_slice(name);
    assert(out@ =~= full_path(prefix@, name@));
    out
}

/// One record: its path, and where its body lies.
#[derive(Debug)]
pub struct Record {
    pub path: Vec<u8>,
    pub offset: u64,
    pub size: u64,
    pub mtime: Option<u64>,
}

/// A `Record` with its path as a sequence.
pub struct RecordView {
    pub path: Seq<u8>,
    pub offset: int,
    pub size: int,
    pub mtime: Option<int>,
}

impl View for Record {
    type V = RecordView;

    open spec fn view(&self) -> RecordView {
        RecordView {
            path: self.path@,
            offset: self.offset as int,
            size: self.size as int,
            mtime: match self.mtime {
                Some(v) => Some(v as int),
                None => None,
            },
        }
    }
}

/// The views of a list of records.
pub open spec fn record_views(v: Seq<Record>) -> Seq<RecordView> {
    v.map_values(|r: Record| r@)
}

/// A fault of the record at which `first` tells whether it is the first: then
/// the file is no such archive, else the archive is damaged.
pub open spec fn fault(first: bool, message: Seq<char>) -> ErrorView {
    if first { ErrorView::UnknownFormat } else { ErrorView::Corrupt(message) }
}

/// A fault of a record.
pub fn corrupt_or_unknown(first_record: bool, message: String) -> (r: Error)
    ensures
        r@ == fault(first_record, message@),
{
    if first_record { Error::UnknownFormat } else { Error::Corrupt(message) }
}

/// The records from `pos` on, `done` of them before it. A block of zeros ends the
/// archive, as the end of the file does.
pub open spec fn records_from(data: Seq<u8>, pos: int, first: bool) -> Result<Seq<RecordView>, ErrorView>
    decreases data.len() - pos,
{
    let left = data.len() - pos;
    let block = data.subrange(pos, pos + HEADER_LEN);
    if left <= 0 || pos < 0 {
        Ok(Seq::empty())
    } else if left < HEADER_LEN {
        if all_zero(data.skip(pos)) {
            Ok(Seq::empty())
        } else {
            Err(
                fault(
                    first,
                    "wpress: truncated header at offset "@ + text::decimal(pos as nat) + " ("@ + text::decimal(left as nat)
                        + " bytes left)"@,
                ),
            )
        }
    } else if all_zero(block) {
        Ok(Seq::empty())
    } else {
        match header_view(block) {
            None => Err(fault(first, "wpress: unparsable record header at offset "@ + text::decimal(pos as nat))),
            Some(h) => {
                let body = pos + HEADER_LEN;
                let next = body + h.size;
                if next > u64::MAX {
                    Err(
                        ErrorView::Corrupt(
                            "wpress: body size "@ + text::decimal(h.size as nat) + " overflows the offset at "@ + text::decimal(
                                pos as nat,
                            ),
                        ),
                    )
                } else if next > data.len() || h.size < 0 {
                    Err(
                        fault(
                            first,
                            "wpress: body of "@ + encoding::lossy(h.name) + " claims "@ + text::decimal(h.size as nat)
                                + " bytes but only "@ + text::decimal((data.len() - body) as nat) + " remain"@,
                        ),
                    )
                } else {
                    match records_from(data, next, false) {
                        Err(e) => Err(e),
                        Ok(rest) => Ok(
                            seq![
                                RecordView {
                                    path: full_path(h.prefix, h.name),
                                    offset: body,
                                    size: h.size,
                                    mtime: h.mtime,
                                },
                            ] + rest,
                        ),
                    }
                }
            },
        }
    }
}

/// The records of an archive. A file without any is no such archive.
pub open spec fn scan_view(data: Seq<u8>) -> Result<Seq<RecordView>, ErrorView> {
    match records_from(data, 0, true) {
        Err(e) => Err(e),
        Ok(l) => if l.len() == 0 { Err(ErrorView::UnknownFormat) } else { Ok(l) },
    }
}

/// The records of a scan, or its failure.
pub open spec fn scan_result(r: Result<Vec<Record>, Error>) -> Result<Seq<RecordView>, ErrorView> {
    match r {
        Ok(v) => Ok(record_views(v@)),
        Err(e) => Err(e@),
    }
}

/// Every body lies in the file, and every time can be told.
pub open spec fn records_fit(v: Seq<Record>, len: int) -> bool {
    forall|k: int|
        0 <= k < v.len() ==> (#[trigger] v[k]).offset + v[k].size <= len && (v[k].mtime matches Some(t) ==> t
            <= i64::MAX)
}

/// Walk the records of an archive.
pub fn scan(data: &[u8]) -> (r: Result<Vec<Record>, Error>)
    ensures
        scan_result(r) == scan_view(data@),
        r matches Ok(v) ==> records_fit(v@, data.len() as int),
{
    let mut out: Vec<Record> = Vec::new();
    let mut pos: usize = 0;
    let ghost whole = records_from(data@, 0, true);
    proof {
        match whole {
            Ok(l) => assert(record_views(out@) + l =~= l),
            Err(e) => {},
        }
    }
    while pos < data.len()
        invariant
            pos <= data.len(),
            whole == records_from(data@, 0, true),
            match records_from(data@, pos as int, out.len() == 0) {
                Ok(l) => whole == Ok::<Seq<RecordView>, ErrorView>(record_views(out@) + l),
                Err(e) => whole == Err::<Seq<RecordView>, ErrorView>(e),
            },
            records_fit(out@, data.len() as int),
        ensures
            whole == Ok::<Seq<RecordView>, ErrorView>(record_views(out@)),
            records_fit(out@, data.len() as int),
        decreases data.len() - pos,
    {
        let first = out.len() == 0;
        let left: usize = data.len() - pos;
        if left < HEADER_LEN {
            let tail: &[u8] = &data[pos..data.len()];
            assert(tail@ =~= data@.skip(pos as int));
            if is_all_zero(tail) {
                proof {
                    assert(record_views(out@) + Seq::<RecordView>::empty() =~= record_views(out@));
                }
                break;
            }
            let a = decimal_text(pos as u64);
            let b = decimal_text(left as u64);
            let t1 = join2("wpress: truncated header at offset ", a.as_str());
            let t2 = join2(t1.as_str(), " (");
            let t3 = join2(t2.as_str(), b.as_str());
            return Err(corrupt_or_unknown(first, join2(t3.as_str(), " bytes left)")));
        }
        let block: &[u8] = &data[pos..pos + HEADER_LEN];
        assert(block@ =~= data@.subrange(pos as int, pos + HEADER_LEN));
        if is_all_zero(block) {
            proof {
                assert(record_views(out@) + Seq::<RecordView>::empty() =~= record_views(out@));
            }
            break;
        }
        let h = match parse_header(block) {
            Some(h) => h,
            None => {
                let a = decimal_text(pos as u64);
                return Err(
                    corrupt_or_unknown(first, join2("wpress: unparsable record header at offset ", a.as_str())),
                );
            },
        };
        let body: usize = pos + HEADER_LEN;
        if h.size > u64::MAX - body as u64 {
            let a = decimal_text(h.size);
            let b = decimal_text(pos as u64);
            let t1 = join2("wpress: body size ", a.as_str());
            let t2 = join2(t1.as_str(), " overflows the offset at ");
            return Err(Error::Corrupt(join2(t2.as_str(), b.as_str())));
        }
        let room: u64 = (data.len() - body) as u64;
        if h.size > room {
            let shown = text_lossy(h.name.as_slice());
            let a = decimal_text(h.size);
            let b = decimal_text(room);
            let t1 = join2("wpress: body of ", shown.as_str());
            let t2 = join2(t1.as_str(), " claims ");
            let t3 = join2(t2.as_str(), a.as_str());
            let t4 = join2(t3.as_str(), " bytes but only ");
            let t5 = join2(t4.as_str(), b.as_str());
            return Err(corrupt_or_unknown(first, join2(t5.as_str(), " remain")));
        }
        let rec = Record {
            path: join_raw(h.prefix.as_slice(), h.name.as_slice()),
            offset: body as u64,
            size: h.size,
            mtime: h.mtime,
        };
        let ghost before = out@;
        out.push(rec);
        proof {
            assert(record_views(out@) =~= record_views(before).push(rec@));
            match records_from(data@, body + h.size, false) {
                Ok(l) => assert(record_views(before) + (seq![rec@] + l) =~= record_views(out@) + l),
                Err(e) => {},
            }
        }
        pos = body + h.size as usize;
        proof {
            if pos == data.len() {
                assert(record_views(out@) + Seq::<RecordView>::empty() =~= record_views(out@));
            }
        }
    }
    if out.len() == 0 {
        return Err(Error::UnknownFormat);
    }
    Ok(out)
}

/// The path of a record's entry: a path that leads out of the archive is shown
/// as stored, so that nothing of it is lost in decoding.
pub open spec fn shown_path(raw: Seq<u8>, decoded: Seq<char>) -> Seq<char> {
    if path_safety::path_escapes(raw) { encoding::lossy(raw) } else { decoded }
}

/// The time that a record tells, if it tells one.
pub open spec fn record_time(mtime: Option<int>) -> Option<Stamp> {
    match mtime {
        Some(s) if s != 0 => Some(Stamp::Instant(datetime::at_second(s))),
        _ => None,
    }
}

/// The raw paths of the records.
pub open spec fn record_paths(records: Seq<RecordView>) -> Seq<Seq<u8>> {
    records.map_values(|r: RecordView| r.path)
}

/// The listing of an archive: the paths are decoded in one encoding.
pub open spec fn listing_of(records: Seq<RecordView>, label: Option<Seq<char>>) -> Seq<EntryView> {
    let names = encoding::decoded_names(record_paths(records), label);
    Seq::new(
        records.len(),
        |i: int|
            EntryView {
                path_raw: records[i].path,
                path: shown_path(records[i].path, names[i]),
                kind: KindView::File,
                size: records[i].size as u64,
                mode: None,
                is_encrypted: false,
                modified: record_time(records[i].mtime),
                is_resource_fork: false,
            },
    )
}

/// The bodies of the records.
pub open spec fn bodies_of(data: Seq<u8>, records: Seq<RecordView>) -> Seq<Result<Seq<u8>, ErrorView>> {
    records.map_values(
        |r: RecordView| Ok::<Seq<u8>, ErrorView>(data.subrange(r.offset, r.offset + r.size)),
    )
}

/// An opened site dump.
#[derive(Debug)]
pub struct WpressReader {
    inner: StoredReader,
}

impl ArchiveReader for WpressReader {
    closed spec fn spec_format(&self) -> FormatId {
        self.inner.spec_format()
    }

    closed spec fn listing(&self) -> Seq<EntryView> {
        self.inner.listing()
    }

    closed spec fn body(&self, idx: int) -> Result<Seq<u8>, ErrorView> {
        self.inner.body(idx)
    }

    fn format(&self) -> (r: FormatId) {
        self.inner.format()
    }

    fn entries(&self) -> (r: &Vec<Entry>) {
        self.inner.entries()
    }

    fn read_entry(&self, idx: usize) -> (r: Result<Vec<u8>, Error>) {
        self.inner.read_entry(idx)
    }

    fn verify_password(&self) -> (r: Result<(), Error>) {
        Ok(())
    }
}

impl BatchReader for WpressReader {
    fn read_entries<S: EntrySink>(&self, indices: &[usize], sink: &mut S) -> (r: Result<(), Error>) {
        read_entries_one_by_one(self, indices, sink)
    }
}

/// Make a reader of scanned records.
fn build_reader(data: Vec<u8>, records: Vec<Record>, opts: &OpenOptions) -> (r: WpressReader)
    requires
        records_fit(records@, data.len() as int),
    ensures
        archive::presents(
            &r,
            FormatId::Wpress,
            listing_of(record_views(records@), text::opt_string(opts.encoding_override)),
            bodies_of(data@, record_views(records@)),
        ),
{
    let ghost all = record_views(records@);
    let ghost label = text::opt_string(opts.encoding_override);
    let mut raw: Vec<Vec<u8>> = Vec::new();
    let mut i: usize = 0;
    while i < records.len()
        invariant
            i <= records.len(),
            all == record_views(records@),
            raw.len() == i,
            forall|k: int| 0 <= k < i ==> (#[trigger] raw@[k])@ == record_paths(all)[k],
        decreases records.len() - i,
    {
        raw.push(copy_bytes(records[i].path.as_slice()));
        i = i + 1;
    }
    assert(encoding::raw_views(raw@) =~= record_paths(all));
    let names = decode_names(raw.as_slice(), opts.label());
    let ghost want = listing_of(all, label);
    let mut entries: Vec<Entry> = Vec::new();
    let mut bodies: Vec<Body> = Vec::new();
    let mut j: usize = 0;
    while j < records.len()
        invariant
            j <= records.len(),
            all == record_views(records@),
            want == listing_of(all, label),
            records_fit(records@, data.len() as int),
            encoding::text_views(names@) == encoding::decoded_names(record_paths(all), label),
            names.len() == records.len(),
            entries.len() == j,
            bodies.len() == j,
            forall|k: int| 0 <= k < j ==> (#[trigger] entries@[k])@ == want[k],
            forall|k: int|
                0 <= k < j ==> stored::fits(#[trigger] bodies@[k], data.len() as int) && stored::body_in(data@, bodies@[k])
                    == bodies_of(data@, all)[k],
        decreases records.len() - j,
    {
        let rec = &records[j];
        proof {
            assert(all[j as int] == rec@);
            assert(encoding::text_views(names@)[j as int] == names@[j as int]@);
        }
        let path = if raw_path_escapes(rec.path.as_slice()) {
            text_lossy(rec.path.as_slice())
        } else {
            copy_text(names[j].as_str())
        };
        let modified: Option<Timestamp> = match rec.mtime {
            Some(t) => unix_secs_to_systime(t),
            None => None,
        };
        entries.push(
            Entry {
                path_raw: copy_bytes(rec.path.as_slice()),
                path,
                kind: EntryKind::File,
                size: rec.size,
                mode: None,
                is_encrypted: false,
                modified: match modified {
                    Some(t) => Some(Stamp::Instant(t)),
                    None => None,
                },
                is_resource_fork: false,
            },
        );
        bodies.push(Body::At { start: rec.offset as usize, len: rec.size as usize });
        j = j + 1;
    }
    proof {
        assert(archive::views(entries@) =~= want);
        assert(stored::bodies_in(data@, bodies@) =~= bodies_of(data@, all));
    }
    WpressReader { inner: StoredReader::new(FormatId::Wpress, data, entries, bodies) }
}

/// Reads site dumps.
#[derive(Debug, Clone, Copy)]
pub struct WpressHandler;

impl FormatHandler for WpressHandler {
    open spec fn spec_id(&self) -> FormatId {
        FormatId::Wpress
    }

    /// The format has no mark of its own: only the name tells.
    open spec fn spec_probe(&self, header: Seq<u8>, name: Option<Seq<char>>) -> Confidence {
        archive::extension_when(paths::has_extension(name, "wpress"@))
    }

    fn id(&self) -> (r: FormatId) {
        FormatId::Wpress
    }

    fn probe(&self, header: &[u8], name: Option<&str>) -> (r: Confidence) {
        Confidence::extension_if(extension_is(name, "wpress"))
    }
}

/// The outcome of opening an archive.
pub open spec fn opens(r: Result<WpressReader, Error>, src: Source, opts: &OpenOptions) -> bool {
    match src {
        Source::Stream { .. } => error::fails_with(
            r,
            ErrorView::Unsupported {
                format: "wpress"@,
                feature: "streaming (wpress bodies are read by offset)"@,
            },
        ),
        Source::Seekable { inner, .. } => match scan_view(inner@) {
            Err(e) => error::fails_with(r, e),
            Ok(records) => r matches Ok(reader) && archive::presents(
                &reader,
                FormatId::Wpress,
                listing_of(records, text::opt_string(opts.encoding_override)),
                bodies_of(inner@, records),
            ),
        },
    }
}

impl WpressHandler {
    /// Open a site dump.
    pub fn open(&self, src: Source, opts: &OpenOptions) -> (r: Result<WpressReader, Error>)
        ensures
            opens(r, src, opts),
    {
        match src {
            Source::Stream { .. } => Err(unsupported("wpress", "streaming (wpress bodies are read by offset)")),
            Source::Seekable { inner, .. } => match scan(inner.as_slice()) {
                Err(e) => Err(e),
                Ok(records) => Ok(build_reader(inner, records, opts)),
            },
        }
    }
}

/// The bodies of an archive lie one behind the other, a header before each, and
/// none reaches past the end of the file.
pub proof fn bodies_follow_each_other(data: Seq<u8>)
    requires
        scan_view(data) is Ok,
    ensures
        forall|i: int|
            0 <= i < scan_view(data)->Ok_0.len() ==> HEADER_LEN <= (#[trigger] scan_view(data)->Ok_0[i]).offset
                && scan_view(data)->Ok_0[i].offset + scan_view(data)->Ok_0[i].size <= data.len(),
        forall|i: int, j: int|
            0 <= i && j == i + 1 && j < scan_view(data)->Ok_0.len() ==> #[trigger] scan_view(data)->Ok_0[i].offset
                + scan_view(data)->Ok_0[i].size + HEADER_LEN == (#[trigger] scan_view(data)->Ok_0[j]).offset,
{
    chain_from(data, 0, true);
}

proof fn chain_from(data: Seq<u8>, pos: int, first: bool)
    requires
        0 <= pos,
        records_from(data, pos, first) is Ok,
    ensures
        ({
            let l = records_from(data, pos, first)->Ok_0;
            &&& l.len() > 0 ==> l[0].offset == pos + HEADER_LEN
            &&& forall|i: int|
                0 <= i < l.len() ==> HEADER_LEN <= (#[trigger] l[i]).offset && l[i].offset + l[i].size <= data.len()
            &&& forall|i: int, j: int|
                0 <= i && j == i + 1 && j < l.len() ==> #[trigger] l[i].offset + l[i].size + HEADER_LEN == (
                #[trigger] l[j]).offset
        }),
    decreases data.len() - pos,
{
    let l = records_from(data, pos, first)->Ok_0;
    if l.len() > 0 {
        let next = l[0].offset + l[0].size;
        chain_from(data, next, false);
        let rest = records_from(data, next, false)->Ok_0;
        assert(l =~= seq![l[0]] + rest);
        assert forall|i: int| 0 <= i < l.len() implies HEADER_LEN <= (#[trigger] l[i]).offset && l[i].offset
            + l[i].size <= data.len() by {
            if i > 0 {
                assert(l[i] == rest[i - 1]);
            }
        }
        assert forall|i: int, j: int| 0 <= i && j == i + 1 && j < l.len() implies #[trigger] l[i].offset + l[i].size
            + HEADER_LEN == (#[trigger] l[j]).offset by {
            assert(l[j] == rest[j - 1]);
            if i > 0 {
                assert(l[i] == rest[i - 1]);
            }
        }
    }
}

/// A field of so many bytes: some text and zeros behind it.
pub open spec fn filled(t: Seq<u8>, n: int) -> Seq<u8> {
    t + Seq::new((n - t.len()) as nat, |k: int| 0u8)
}

/// The header of a record: the name, the size and the time in decimal digits, and the
/// directory, each in a field of its own.
pub open spec fn header_of(name: Seq<u8>, size: int, mtime: int, prefix: Seq<u8>) -> Seq<u8> {
    filled(name, 255) + bytes::decimal_digits(size, 14) + bytes::decimal_digits(mtime, 12) + filled(prefix, 4096)
}

proof fn filled_reads_back(t: Seq<u8>, n: int)
    requires
        t.len() <= n,
        !t.contains(0),
    ensures
        field_text(filled(t, n)) == Some(t),
        filled(t, n).len() == n,
{
    let f = filled(t, n);
    assert forall|j: int| 0 <= j < t.len() implies f[j] != 0 by {
        assert(t.contains(t[j]));
        assert(f[j] == t[j]);
    }
    bytes::index_or_len_is_first(f, 0, t.len() as int);
    assert(f.take(t.len() as int) =~= t);
}

proof fn digits_are_digits(v: int, n: nat)
    ensures
        bytes::decimal_digits(v, n).len() == n,
        forall|k: int| 0 <= k < n ==> 0x30 <= #[trigger] bytes::decimal_digits(v, n)[k] <= 0x39,
    decreases n,
{
    if n > 0 {
        digits_are_digits(v / 10, (n - 1) as nat);
        let init = bytes::decimal_digits(v / 10, (n - 1) as nat);
        assert forall|k: int| 0 <= k < n implies 0x30 <= #[trigger] bytes::decimal_digits(v, n)[k] <= 0x39 by {
            if k < n - 1 {
                assert(bytes::decimal_digits(v, n)[k] == init[k]);
            }
        }
    }
}

proof fn digits_field_reads_back(v: int, n: nat)
    requires
        0 < n,
        0 <= v < bytes::tens(n),
        v <= u64::MAX,
    ensures
        field_number(bytes::decimal_digits(v, n)) == Some(Some(v)),
        bytes::decimal_digits(v, n).len() == n,
{
    let d = bytes::decimal_digits(v, n);
    digits_are_digits(v, n);
    bytes::digits_read_back(v, n, Seq::empty(), 0, Seq::empty());
    bytes::index_or_len_is_first(d, 0, n as int);
    assert(d.take(n as int) =~= d);
    assert(d[n - 1] != 0x20);
    assert(without_blanks(d) == d);
}

/// A header reads back.
#[verifier::rlimit(40)]
pub proof fn header_reads_back(name: Seq<u8>, size: int, mtime: int, prefix: Seq<u8>)
    requires
        0 < name.len() <= 255,
        prefix.len() <= 4096,
        forall|k: int| 0 <= k < name.len() ==> #[trigger] name[k] != 0 && name[k] != 0x2F && name[k] != 0x5C,
        !prefix.contains(0),
        0 <= size < 100_000_000_000_000,
        0 <= mtime < 1_000_000_000_000,
    ensures
        header_of(name, size, mtime, prefix).len() == 4377,
        header_view(header_of(name, size, mtime, prefix)) == Some(
            HeaderView { name, prefix, size, mtime: Some(mtime) },
        ),
{
    let b = header_of(name, size, mtime, prefix);
    assert(!name.contains(0));
    filled_reads_back(name, 255);
    filled_reads_back(prefix, 4096);
    reveal_with_fuel(bytes::tens, 15);
    digits_field_reads_back(size, 14);
    digits_field_reads_back(mtime, 12);
    assert(b.subrange(0, 255) =~= filled(name, 255));
    assert(b.subrange(255, 269) =~= bytes::decimal_digits(size, 14));
    assert(b.subrange(269, 281) =~= bytes::decimal_digits(mtime, 12));
    assert(b.subrange(281, 4377) =~= filled(prefix, 4096));
}

#[verifier::rlimit(40)]
proof fn records_move(front: Seq<u8>, other: Seq<u8>, pos: int, first: bool)
    requires
        0 <= pos <= other.len(),
        front.len() + other.len() <= u64::MAX,
        records_from(other, pos, first) is Ok,
    ensures
        records_from(front + other, front.len() + pos, false) == Ok::<Seq<RecordView>, ErrorView>(
            records_from(other, pos, first)->Ok_0.map_values(
                |r: RecordView| RecordView { offset: r.offset + front.len(), ..r },
            ),
        ),
    decreases other.len() - pos,
{
    let n = front.len() as int;
    let data = front + other;
    let shift = |r: RecordView| RecordView { offset: r.offset + n, ..r };
    let left = other.len() - pos;
    assert(Seq::<RecordView>::empty().map_values(shift) =~= Seq::<RecordView>::empty());
    assert(data.skip(n + pos) =~= other.skip(pos));
    if left >= HEADER_LEN {
        let block = other.subrange(pos, pos + HEADER_LEN);
        assert(data.subrange(n + pos, n + pos + HEADER_LEN) =~= block);
        if !all_zero(block) && header_view(block) is Some {
            let h = header_view(block)->0;
            let body = pos + HEADER_LEN;
            let next = body + h.size;
            if !(next > u64::MAX) && !(next > other.len() || h.size < 0) && records_from(other, next, false) is Ok {
                records_move(front, other, next, false);
                let rec = RecordView { path: full_path(h.prefix, h.name), offset: body, size: h.size, mtime: h.mtime };
                let rest = records_from(other, next, false)->Ok_0;
                assert((seq![rec] + rest).map_values(shift) =~= seq![shift(rec)] + rest.map_values(shift));
            }
        }
    }
}

/// A record and its body before another archive: that is an archive with this record,
/// whose body lies right behind its header, and then those of the other, whose bodies lie
/// as far behind as what was put before them is long.
#[verifier::rlimit(40)]
pub proof fn record_before_archive(name: Seq<u8>, body: Seq<u8>, mtime: int, prefix: Seq<u8>, other: Seq<u8>)
    requires
        0 < name.len() <= 255,
        prefix.len() <= 4096,
        forall|k: int| 0 <= k < name.len() ==> #[trigger] name[k] != 0 && name[k] != 0x2F && name[k] != 0x5C,
        !prefix.contains(0),
        body.len() < 100_000_000_000_000,
        0 <= mtime < 1_000_000_000_000,
        4377 + body.len() + other.len() <= u64::MAX,
        records_from(other, 0, false) is Ok,
    ensures
        ({
            let front = header_of(name, body.len() as int, mtime, prefix) + body;
            &&& scan_view(front + other) matches Ok(l) && l == seq![
                RecordView {
                    path: full_path(prefix, name),
                    offset: 4377,
                    size: body.len() as int,
                    mtime: Some(mtime),
                },
            ] + records_from(other, 0, false)->Ok_0.map_values(
                |r: RecordView| RecordView { offset: r.offset + front.len(), ..r },
            )
            &&& bodies_of(front + other, scan_view(front + other)->Ok_0)[0] == Ok::<Seq<u8>, ErrorView>(body)
        }),
{
    let head = header_of(name, body.len() as int, mtime, prefix);
    let front = head + body;
    let data = front + other;
    header_reads_back(name, body.len() as int, mtime, prefix);
    assert(data.subrange(0, 4377) =~= head);
    assert(!all_zero(head)) by {
        assert(head[0] == name[0]);
    }
    records_move(front, other, 0, false);
    assert(front.len() + 0 == 4377 + body.len());
    assert(data.subrange(4377, 4377 + body.len() as int) =~= body);
    let rest = records_from(other, 0, false)->Ok_0.map_values(
        |r: RecordView| RecordView { offset: r.offset + front.len(), ..r },
    );
    assert(records_from(data, 4377 + body.len() as int, false) == Ok::<Seq<RecordView>, ErrorView>(rest));
}

/// An archive ends at its end or at a header that holds nothing but zeros, whatever follows
/// that.
pub proof fn archive_ends_at_zeros(behind: Seq<u8>)
    ensures
        records_from(Seq::<u8>::empty(), 0, false) == Ok::<Seq<RecordView>, ErrorView>(Seq::empty()),
        records_from(Seq::new(4377, |k: int| 0u8) + behind, 0, false) == Ok::<Seq<RecordView>, ErrorView>(Seq::empty()),
{
    let data = Seq::new(4377, |k: int| 0u8) + behind;
    assert(data.subrange(0, 4377) =~= Seq::new(4377, |k: int| 0u8));
}

/// A file in the directory `dir` lies there, however many slashes stand behind the
/// directory and whether or not it is written with a dot before it. A file whose directory
/// is a dot, or nothing, lies at the top.
#[verifier::rlimit(40)]
pub proof fn files_lie_in_their_directories(dir: Seq<u8>, slashes: nat, name: Seq<u8>)
    requires
        dir.len() > 0 ==> dir.last() != 0x2F && dir != seq![0x2Eu8] && !(dir.len() >= 2 && dir[0] == 0x2E && dir[1] == 0x2F),
    ensures
        dir.len() > 0 ==> full_path(dir + Seq::new(slashes, |k: int| 0x2Fu8), name) == dir + seq![0x2Fu8] + name,
        dir.len() > 0 ==> full_path(seq![0x2Eu8, 0x2F] + dir + Seq::new(slashes, |k: int| 0x2Fu8), name) == dir + seq![
            0x2Fu8,
        ] + name,
        full_path(seq![0x2Eu8], name) == name,
        full_path(Seq::empty(), name) == name,
        full_path(seq![0x2Eu8, 0x2F], name) == name,
{
    let run = Seq::new(slashes, |k: int| 0x2Fu8);
    let none = Seq::<u8>::empty();
    let dot = seq![0x2Eu8];
    let here = seq![0x2Eu8, 0x2F];
    assert(without_dots(none) == none);
    assert(without_slashes(none) == none);
    assert(here.skip(2) =~= none);
    assert(without_dots(here) == none);
    assert(without_dots(dot) == dot);
    assert(none != dot) by {
        assert(none.len() == 0);
    }
    if dir.len() > 0 {
        let p = dir + run;
        assert(dir[dir.len() - 1] != 0x2F);
        assert(p[0] == dir[0]);
        if dir.len() == 1 && dir[0] == 0x2E {
            assert(dir =~= seq![0x2Eu8]);
        }
        if dir.len() >= 2 {
            assert(p[1] == dir[1]);
        }
        assert(without_dots(p) == p);
        assert(p != dot) by {
            if p == dot {
                assert(p.len() == 1);
                assert(dir =~= dot);
            }
        }
        slashes_are_dropped(dir, slashes);
        let q = here + dir + run;
        assert(q.skip(2) =~= p);
        assert(q[0] == 0x2E && q[1] == 0x2F);
        assert(without_dots(q) == without_dots(p));
    }
}

proof fn slashes_are_dropped(dir: Seq<u8>, n: nat)
    requires
        dir.len() > 0,
        dir.last() != 0x2F,
    ensures
        without_slashes(dir + Seq::new(n, |k: int| 0x2Fu8)) == dir,
    decreases n,
{
    let all = dir + Seq::new(n, |k: int| 0x2Fu8);
    if n == 0 {
        assert(all =~= dir);
    } else {
        assert(all.drop_last() =~= dir + Seq::new((n - 1) as nat, |k: int| 0x2Fu8));
        slashes_are_dropped(dir, (n - 1) as nat);
    }
}

/// The time of a record is its seconds since 1970; none are no time.
pub proof fn times_are_seconds(secs: int)
    requires
        0 <= secs <= u64::MAX,
    ensures
        record_time(Some(secs)) matches Some(s) ==> secs != 0 && (s matches Stamp::Instant(t) && t.secs == secs && t.nanos == 0),
        record_time(Some(secs)) is None ==> secs == 0,
        record_time(None) is None,
{
}

/// An entry is a file under the path of its record; a path that leads out is shown as it is
/// stored, so that it is refused.
pub proof fn records_are_listed_as_they_are(records: Seq<RecordView>, label: Option<Seq<char>>, i: int)
    requires
        0 <= i < records.len(),
        0 <= records[i].size <= u64::MAX,
    ensures
        ({
            let e = listing_of(records, label)[i];
            &&& listing_of(records, label).len() == records.len()
            &&& e.path_raw == records[i].path
            &&& e.kind == KindView::File
            &&& e.size == records[i].size
            &&& e.mode is None
            &&& path_safety::path_escapes(records[i].path) ==> e.path == encoding::lossy(records[i].path)
            &&& !path_safety::path_escapes(records[i].path) ==> e.path == encoding::decoded_names(
                record_paths(records),
                label,
            )[i]
        }),
{
}

} // verus!
