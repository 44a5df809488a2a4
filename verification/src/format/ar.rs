//! Unix `ar` archives.
use vstd::prelude::*;
use vstd::utf8;

use crate::archive;
use crate::bytes;
use crate::datetime;
use crate::encoding;
use crate::error;
use crate::text;
use crate::archive::{read_entries_one_by_one, BatchReader, EntrySink};
use crate::archive::{ArchiveReader, Confidence, Entry, EntryKind, EntryView, FormatHandler, FormatId, KindView};
use crate::archive::{OpenOptions, Source};
use crate::bytes::{copy_bytes, parse_digits, same_bytes, starts_with, trim_end};
use crate::datetime::{Stamp, Timestamp};
use crate::encoding::{decode_names, is_utf8, text_lossy};
use crate::error::{io_err_to_corrupt, io_error, unsupported, Error, ErrorView, IoError, IoKind};
use crate::text::{chars_of, copy_chars, trim_end_white};

verus! {

/// `!<arch>` and a line feed, the mark of an archive.
pub const MAGIC: [u8; 8] = [0x21, 0x3C, 0x61, 0x72, 0x63, 0x68, 0x3E, 0x0A];

/// The length of a member's header.
pub const HEADER_LEN: usize = 60;

/// `/`, the name of a GNU symbol table.
pub const SYMBOL_TABLE: [u8; 1] = [0x2F];

/// `//`, the name of a GNU name table.
pub const NAME_TABLE: [u8; 2] = [0x2F, 0x2F];

/// `#1/`, with which a BSD name that stands behind the header begins.
pub const BSD_NAME: [u8; 3] = [0x23, 0x31, 0x2F];

/// The dialects of the format, told apart as an archive is read.
#[derive(Debug, Clone, Copy, PartialEq, Eq, Structural)]
pub enum Dialect {
    Common,
    Bsd,
    Gnu,
}

/// The digits of a text as bytes, if it holds nothing else.
pub open spec fn digit_bytes(t: Seq<char>) -> Option<Seq<u8>> {
    if forall|i: int| 0 <= i < t.len() ==> '0' <= #[trigger] t[i] <= '9' {
        Some(t.map_values(|c: char| c as u8))
    } else {
        None
    }
}

/// The number in a header's field: digits, perhaps with a plus sign before them
/// and white space behind.
pub open spec fn number(field: Seq<u8>) -> Option<int> {
    if !utf8::valid_utf8(field) {
        None
    } else {
        let t = text::without_trailing_white(utf8::decode_utf8(field));
        let d = if t.len() > 0 && t[0] == '+' { t.skip(1) } else { t };
        if d.len() == 0 {
            None
        } else {
            match digit_bytes(d) {
                None => None,
                Some(b) => match bytes::digits_value(b) {
                    Some(v) if v <= u64::MAX => Some(v),
                    _ => None,
                },
            }
        }
    }
}

/// The number in a header's field.
pub fn parse_number(field: &[u8]) -> (r: Option<u64>)
    ensures
        match r {
            Some(v) => number(field@) == Some(v as int),
            None => number(field@) is None,
        },
{
    if !is_utf8(field) {
        return None;
    }
    let text = text_lossy(field);
    let chars = chars_of(text.as_str());
    let t = trim_end_white(chars.as_slice());
    let from: usize = if t.len() > 0 && t[0] == '+' {
        1
    } else {
        0
    };
    let d = copy_chars(t.as_slice(), from, t.len());
    proof {
        if from == 1 {
            assert(d@ =~= t@.skip(1));
        } else {
            assert(d@ =~= t@);
        }
    }
    if d.len() == 0 {
        return None;
    }
    let mut b: Vec<u8> = Vec::new();
    let mut i: usize = 0;
    while i < d.len()
        invariant
            i <= d.len(),
            b.len() == i,
            digit_bytes(d@) is None ==> number(field@) is None,
            forall|k: int| 0 <= k < i ==> '0' <= #[trigger] d@[k] <= '9' && b@[k] == d@[k] as u8,
        decreases d.len() - i,
    {
        let c: char = d[i];
        if c < '0' || c > '9' {
            assert(!('0' <= d@[i as int] <= '9'));
            return None;
        }
        b.push(c as u8);
        i = i + 1;
    }
    assert(b@ =~= d@.map_values(|c: char| c as u8));
    parse_digits(b.as_slice())
}

/// Every reference of a header into the name table leads to a place in the
/// table, in the headers from `pos` on. `table` is the length of the name table
/// that is in force, `dialect` what the headers before have shown.
pub open spec fn names_resolve(data: Seq<u8>, pos: int, table: int, dialect: Dialect) -> bool
    decreases if pos <= data.len() { data.len() - pos + 1 } else { 0 },
{
    if pos < 0 || pos + HEADER_LEN > data.len() {
        true
    } else {
        let h = data.subrange(pos, pos + HEADER_LEN);
        let id = bytes::trimmed(h.subrange(0, 16), 0x20);
        match number(h.subrange(48, 58)) {
            None => true,
            Some(size) => if size < 0 {
                true
            } else {
                let next = pos + HEADER_LEN + size + size % 2;
                if dialect != Dialect::Bsd && id.len() > 0 && id[0] == 0x2F {
                    if id == SYMBOL_TABLE@ {
                        names_resolve(data, next, table, Dialect::Gnu)
                    } else if id == NAME_TABLE@ {
                        names_resolve(data, next, size, Dialect::Gnu)
                    } else {
                        match number(h.subrange(1, 16)) {
                            None => true,
                            Some(at) => at <= table && names_resolve(data, next, table, Dialect::Gnu),
                        }
                    }
                } else if dialect != Dialect::Bsd && id.len() > 0 && id.last() == 0x2F {
                    names_resolve(data, next, table, Dialect::Gnu)
                } else if dialect != Dialect::Gnu && bytes::stands_at(id, 0, BSD_NAME@) {
                    match number(h.subrange(3, 16)) {
                        Some(n) if n <= size => names_resolve(
                            data,
                            pos + HEADER_LEN + size + (size - n) % 2,
                            table,
                            Dialect::Bsd,
                        ),
                        _ => true,
                    }
                } else {
                    names_resolve(data, next, table, dialect)
                }
            },
        }
    }
}

/// Every long name of an archive is found in its name table.
pub open spec fn long_names_resolve(data: Seq<u8>) -> bool {
    bytes::stands_at(data, 0, MAGIC@) ==> names_resolve(data, MAGIC.len() as int, 0, Dialect::Common)
}

/// Whether every long name of an archive is found in its name table.
pub fn check_long_names(data: &[u8]) -> (r: bool)
    ensures
        r == long_names_resolve(data@),
{
    if !starts_with(data, &MAGIC) {
        return true;
    }
    let len: u128 = data.len() as u128;
    let mut pos: u128 = 8;
    let mut table: u64 = 0;
    let mut dialect = Dialect::Common;
    while pos <= len && HEADER_LEN as u128 <= len - pos
        invariant
            len == data.len(),
            long_names_resolve(data@) == names_resolve(data@, pos as int, table as int, dialect),
        decreases if pos <= data.len() { data.len() - pos + 1 } else { 0 },
    {
        let at: usize = pos as usize;
        let h: &[u8] = &data[at..at + HEADER_LEN];
        assert(h@ =~= data@.subrange(pos as int, pos + HEADER_LEN));
        let mut id = crate::bytes::copy_range(h, 0, 16);
        trim_end(&mut id, 0x20);
        let size: u64 = match parse_number(&h[48..58]) {
            None => {
                return true;
            },
            Some(v) => v,
        };
        let next: u128 = pos + 60 + size as u128 + (size % 2) as u128;
        if dialect != Dialect::Bsd && id.len() > 0 && id[0] == 0x2F {
            if same_bytes(id.as_slice(), &SYMBOL_TABLE) {
            } else if same_bytes(id.as_slice(), &NAME_TABLE) {
                table = size;
            } else {
                match parse_number(&h[1..16]) {
                    None => {
                        return true;
                    },
                    Some(v) => {
                        if v > table {
                            return false;
                        }
                    },
                }
            }
            dialect = Dialect::Gnu;
            pos = next;
        } else if dialect != Dialect::Bsd && id.len() > 0 && id[id.len() - 1] == 0x2F {
            dialect = Dialect::Gnu;
            pos = next;
        } else if dialect != Dialect::Gnu && starts_with(id.as_slice(), &BSD_NAME) {
            match parse_number(&h[3..16]) {
                None => {
                    return true;
                },
                Some(n) => {
                    if n > size {
                        return true;
                    }
                    dialect = Dialect::Bsd;
                    pos = pos + 60 + size as u128 + ((size - n) % 2) as u128;
                },
            }
        } else {
            pos = next;
        }
    }
    true
}

/// What is read of one member's header.
#[derive(Debug)]
pub struct ArRow {
    pub identifier: Vec<u8>,
    pub size: u64,
    pub mode: u32,
    pub mtime: u64,
}

/// An `ArRow` with its name as a sequence.
pub struct RowView {
    pub identifier: Seq<u8>,
    pub size: u64,
    pub mode: u32,
    pub mtime: u64,
}

impl View for ArRow {
    type V = RowView;

    open spec fn view(&self) -> RowView {
        RowView { identifier: self.identifier@, size: self.size, mode: self.mode, mtime: self.mtime }
    }
}

/// The members up to the end of an archive, or up to a failure.
#[derive(Debug)]
pub struct ArMembers {
    pub rows: Vec<ArRow>,
    pub failure: Option<IoError>,
}

/// The members of a list with their names as sequences.
pub open spec fn row_views(rows: Seq<ArRow>) -> Seq<RowView> {
    rows.map_values(|r: ArRow| r@)
}

/// A list of members, and the kind and text of the failure that cut it short.
pub open spec fn members_view(m: ArMembers) -> (Seq<RowView>, Option<(IoKind, Seq<char>)>) {
    (
        row_views(m.rows@),
        match m.failure {
            Some(e) => Some((e.kind, e.message@)),
            None => None,
        },
    )
}

/// What `ar::Archive::next_entry` yields on some bytes.
pub uninterp spec fn archive_members(data: Seq<u8>) -> (Seq<RowView>, Option<(IoKind, Seq<char>)>);

/// `ar::Archive::next_entry` over the bytes, up to its end or its first failure:
/// of each member the name, size, mode and time in its header. Symbol tables
/// and name tables are not among the members. It panics on a long name whose
/// place lies behind the end of the name table.
#[verifier::external_body]
pub(crate) fn list_members(data: &[u8]) -> (r: ArMembers)
    requires
        long_names_resolve(data@),
    ensures
        members_view(r) == archive_members(data@),
{
    let mut archive = ar::Archive::new(data);
    let mut rows = Vec::new();
    while let Some(entry) = archive.next_entry() {
        let entry = match entry {
            Ok(entry) => entry,
            Err(e) => return ArMembers { rows, failure: Some(io_error(e)) },
        };
        let h = entry.header();
        rows.push(ArRow { identifier: h.identifier().to_vec(), size: h.size(), mode: h.mode(), mtime: h.mtime() });
    }
    ArMembers { rows, failure: None }
}

/// What `ar::Archive::jump_to_entry` lets be read of a member.
pub uninterp spec fn member_body(data: Seq<u8>, idx: int) -> Result<Seq<u8>, (IoKind, Seq<char>)>;

/// `ar::Archive::jump_to_entry` over the bytes, and what the member then yields
/// up to its end. It panics on a long name whose place lies behind the end of
/// the name table.
#[verifier::external_body]
pub(crate) fn read_member(data: &[u8], idx: usize) -> (r: Result<Vec<u8>, IoError>)
    requires
        long_names_resolve(data@),
    ensures
        error::io_bytes(r) == member_body(data@, idx as int),
{
    let mut archive = ar::Archive::new(std::io::Cursor::new(data));
    let mut member = archive.jump_to_entry(idx).map_err(io_error)?;
    let mut body = Vec::new();
    std::io::Read::read_to_end(&mut member, &mut body).map_err(io_error)?;
    Ok(body)
}

/// The instant of a member's time.
pub fn unix_secs_to_systime(secs: u64) -> (r: Timestamp)
    ensures
        r == datetime::at_second(secs as int),
{
    Timestamp { secs: secs as i128, nanos: 0 }
}

/// The bits of a mode that say who may do what.
pub const PERMISSIONS: u32 = 0xFFF;

/// The raw names of the members.
pub open spec fn raw_names(rows: Seq<RowView>) -> Seq<Seq<u8>> {
    rows.map_values(|r: RowView| r.identifier)
}

/// The listing of an archive: the names are decoded in one encoding.
pub open spec fn listing_of(rows: Seq<RowView>, label: Option<Seq<char>>) -> Seq<EntryView> {
    let names = encoding::decoded_names(raw_names(rows), label);
    Seq::new(
        rows.len(),
        |i: int|
            EntryView {
                path_raw: rows[i].identifier,
                path: names[i],
                kind: KindView::File,
                size: rows[i].size,
                mode: Some(rows[i].mode & PERMISSIONS),
                is_encrypted: false,
                modified: Some(Stamp::Instant(datetime::at_second(rows[i].mtime as int))),
                is_resource_fork: false,
            },
    )
}

/// Make entries of the members.
pub fn build_entries(rows: &Vec<ArRow>, opts: &OpenOptions) -> (r: Vec<Entry>)
    ensures
        archive::views(r@) == listing_of(row_views(rows@), text::opt_string(opts.encoding_override)),
{
    let ghost all = row_views(rows@);
    let ghost label = text::opt_string(opts.encoding_override);
    let mut raw: Vec<Vec<u8>> = Vec::new();
    let mut i: usize = 0;
    while i < rows.len()
        invariant
            i <= rows.len(),
            all == row_views(rows@),
            raw.len() == i,
            forall|k: int| 0 <= k < i ==> (#[trigger] raw@[k])@ == raw_names(all)[k],
        decreases rows.len() - i,
    {
        raw.push(copy_bytes(rows[i].identifier.as_slice()));
        i = i + 1;
    }
    assert(encoding::raw_views(raw@) =~= raw_names(all));
    let names = decode_names(raw.as_slice(), opts.label());
    let ghost want = listing_of(all, label);
    let mut entries: Vec<Entry> = Vec::new();
    let mut j: usize = 0;
    while j < rows.len()
        invariant
            j <= rows.len(),
            all == row_views(rows@),
            want == listing_of(all, label),
            encoding::text_views(names@) == encoding::decoded_names(raw_names(all), label),
            names.len() == rows.len(),
            entries.len() == j,
            forall|k: int| 0 <= k < j ==> (#[trigger] entries@[k])@ == want[k],
        decreases rows.len() - j,
    {
        let row = &rows[j];
        proof {
            assert(all[j as int] == row@);
            assert(encoding::text_views(names@)[j as int] == names@[j as int]@);
        }
        entries.push(
            Entry {
                path_raw: copy_bytes(row.identifier.as_slice()),
                path: crate::text::copy_text(names[j].as_str()),
                kind: EntryKind::File,
                size: row.size,
                mode: Some(row.mode & PERMISSIONS),
                is_encrypted: false,
                modified: Some(Stamp::Instant(unix_secs_to_systime(row.mtime))),
                is_resource_fork: false,
            },
        );
        j = j + 1;
    }
    assert(archive::views(entries@) =~= want);
    entries
}

/// The body of a member, or how its failure is reported.
pub open spec fn body_of(data: Seq<u8>, idx: int) -> Result<Seq<u8>, ErrorView> {
    match member_body(data, idx) {
        Ok(b) => Ok(b),
        Err((kind, message)) => Err(error::io_error_view(kind, message)),
    }
}

/// The bodies of the first `n` members.
pub open spec fn bodies_of(data: Seq<u8>, n: nat) -> Seq<Result<Seq<u8>, ErrorView>> {
    Seq::new(n, |i: int| body_of(data, i))
}

/// An opened archive.
#[derive(Debug)]
pub struct ArReader {
    data: Vec<u8>,
    entries: Vec<Entry>,
}

impl ArReader {
    #[verifier::type_invariant]
    spec fn wf(self) -> bool {
        long_names_resolve(self.data@)
    }
}

impl ArchiveReader for ArReader {
    open spec fn spec_format(&self) -> FormatId {
        FormatId::Ar
    }

    closed spec fn listing(&self) -> Seq<EntryView> {
        archive::views(self.entries@)
    }

    closed spec fn body(&self, idx: int) -> Result<Seq<u8>, ErrorView> {
        archive::body_at(bodies_of(self.data@, self.entries@.len()), idx)
    }

    fn format(&self) -> (r: FormatId) {
        FormatId::Ar
    }

    fn entries(&self) -> (r: &Vec<Entry>) {
        &self.entries
    }

    fn read_entry(&self, idx: usize) -> (r: Result<Vec<u8>, Error>) {
        proof {
            use_type_invariant(self);
        }
        if idx >= self.entries.len() {
            return Err(Error::InvalidIndex(idx));
        }
        match read_member(self.data.as_slice(), idx) {
            Ok(b) => Ok(b),
            Err(e) => Err(io_err_to_corrupt(e)),
        }
    }

    fn verify_password(&self) -> (r: Result<(), Error>) {
        Ok(())
    }
}

impl BatchReader for ArReader {
    fn read_entries<S: EntrySink>(&self, indices: &[usize], sink: &mut S) -> (r: Result<(), Error>) {
        read_entries_one_by_one(self, indices, sink)
    }
}

/// What an archive of these bytes shows, or why it cannot be read.
pub open spec fn opened(data: Seq<u8>, label: Option<Seq<char>>) -> Result<
    (Seq<EntryView>, Seq<Result<Seq<u8>, ErrorView>>),
    ErrorView,
> {
    let (rows, failure) = archive_members(data);
    match failure {
        Some((kind, message)) => Err(error::io_error_view(kind, message)),
        None => Ok((listing_of(rows, label), bodies_of(data, rows.len()))),
    }
}

/// Reads `ar` archives.
#[derive(Debug, Clone, Copy)]
pub struct ArHandler;

impl FormatHandler for ArHandler {
    open spec fn spec_id(&self) -> FormatId {
        FormatId::Ar
    }

    open spec fn spec_probe(&self, header: Seq<u8>, name: Option<Seq<char>>) -> Confidence {
        archive::magic_when(bytes::stands_at(header, 0, MAGIC@))
    }

    fn id(&self) -> (r: FormatId) {
        FormatId::Ar
    }

    fn probe(&self, header: &[u8], name: Option<&str>) -> (r: Confidence) {
        Confidence::magic_if(starts_with(header, &MAGIC))
    }
}

/// The outcome of opening an archive.
pub open spec fn opens(r: Result<ArReader, Error>, src: Source, opts: &OpenOptions) -> bool {
    match src {
        Source::Stream { .. } => error::fails_with(
            r,
            ErrorView::Unsupported { format: "ar"@, feature: "streaming (ar requires seek)"@ },
        ),
        Source::Seekable { inner, .. } => match opened(inner@, text::opt_string(opts.encoding_override)) {
            Err(e) => error::fails_with(r, e),
            Ok(shown) => r matches Ok(reader) && archive::presents(&reader, FormatId::Ar, shown.0, shown.1),
        },
    }
}

impl ArHandler {
    /// Open an archive. Every long name of it must be found in its name table;
    /// `check_long_names` tells.
    pub fn open(&self, src: Source, opts: &OpenOptions) -> (r: Result<ArReader, Error>)
        requires
            src is Seekable ==> long_names_resolve(src.content()),
        ensures
            opens(r, src, opts),
    {
        match src {
            Source::Stream { .. } => Err(unsupported("ar", "streaming (ar requires seek)")),
            Source::Seekable { inner, .. } => {
                let members = list_members(inner.as_slice());
                match members.failure {
                    Some(e) => Err(io_err_to_corrupt(e)),
                    None => {
                        let entries = build_entries(&members.rows, opts);
                        assert(archive::views(entries@).len() == entries@.len());
                        Ok(ArReader { data: inner, entries })
                    },
                }
            },
        }
    }
}

/// A member is listed with the lower twelve bits of its mode, and with its time in seconds
/// since 1970.
pub proof fn members_keep_permissions_and_time(rows: Seq<RowView>, label: Option<Seq<char>>, i: int, t: u32, m: u32)
    requires
        0 <= i < rows.len(),
        rows[i].mode == t + m,
        t % 0o10000 == 0,
        m < 0o10000,
    ensures
        listing_of(rows, label)[i].mode == Some(m),
        listing_of(rows, label)[i].size == rows[i].size,
        listing_of(rows, label)[i].kind == KindView::File,
        listing_of(rows, label)[i].modified matches Some(Stamp::Instant(at)) && at.secs == rows[i].mtime && at.nanos == 0,
{
    let all = rows[i].mode;
    assert(all & 0xFFF == m) by (bit_vector)
        requires
            all == t + m,
            t % 0o10000 == 0,
            m < 0o10000,
    ;
}

} // verus!
