//! Debian packages: an `ar` archive whose payload is a tape archive.
use vstd::prelude::*;

use crate::archive;
use crate::bytes;
use crate::decompress;
use crate::detect;
use crate::error;
use crate::format::ar;
use crate::format::tar;
use crate::text;
use crate::archive::{Confidence, FormatHandler, FormatId, OpenOptions, Source};
use crate::bytes::{copy_range, ends_with_ascii_ci, found_at, starts_with};
use crate::decompress::{decompressor, Compressor};
use crate::detect::{detect_compressor, TempBackedReader};
use crate::error::{corrupt, io_err_to_corrupt, unsupported, Error, ErrorView, IoKind};
use crate::format::ar::{list_members, read_member, ArRow, RowView};
use crate::format::tar::{has_tar_magic, Backing, TarHandler, TarReader};

verus! {

/// `!<arch>` and a line feed, the mark of an `ar` archive.
pub const AR_MAGIC: [u8; 8] = [0x21, 0x3C, 0x61, 0x72, 0x63, 0x68, 0x3E, 0x0A];

/// `debian-binary`, the name of the first member of a package.
pub const FIRST_MEMBER: [u8; 13] = [
    0x64, 0x65, 0x62, 0x69, 0x61, 0x6E, 0x2D, 0x62, 0x69, 0x6E, 0x61, 0x72, 0x79,
];

/// `data.tar`, with which the name of the payload begins.
pub const PAYLOAD_NAME: [u8; 8] = [0x64, 0x61, 0x74, 0x61, 0x2E, 0x74, 0x61, 0x72];

/// `.lzma`, the end of the name of a payload that no mark in it tells.
pub const LZMA_SUFFIX: [u8; 5] = [0x2E, 0x6C, 0x7A, 0x6D, 0x61];

/// The bytes at the beginning of the payload that tell its compressor.
pub const PEEK_LEN: usize = 6;

/// The first member from `i` on that is the payload, or the number of members.
pub open spec fn payload_from(rows: Seq<RowView>, i: int) -> int
    decreases rows.len() - i,
{
    if i < 0 || i >= rows.len() {
        rows.len() as int
    } else if bytes::stands_at(rows[i].identifier, 0, PAYLOAD_NAME@) {
        i
    } else {
        payload_from(rows, i + 1)
    }
}

fn find_payload(rows: &Vec<ArRow>) -> (r: Option<usize>)
    ensures
        match r {
            Some(i) => i < rows.len() && i == payload_from(ar::row_views(rows@), 0),
            None => payload_from(ar::row_views(rows@), 0) == rows.len(),
        },
{
    let ghost all = ar::row_views(rows@);
    let mut i: usize = 0;
    while i < rows.len()
        invariant
            i <= rows.len(),
            all == ar::row_views(rows@),
            payload_from(all, 0) == payload_from(all, i as int),
        decreases rows.len() - i,
    {
        assert(all[i as int] == rows@[i as int]@);
        if starts_with(rows[i].identifier.as_slice(), &PAYLOAD_NAME) {
            return Some(i);
        }
        i = i + 1;
    }
    None
}

/// The payload of a package, still compressed, and its compressor.
#[derive(Debug)]
pub struct Payload {
    pub bytes: Vec<u8>,
    pub compressor: Option<Compressor>,
}

/// The compressor of a payload: what its beginning shows or, for bare LZMA, its
/// name.
pub open spec fn payload_compressor(name: Seq<u8>, bytes: Seq<u8>) -> Option<Compressor> {
    let head = bytes.take(if bytes.len() < PEEK_LEN { bytes.len() as int } else { PEEK_LEN as int });
    match detect::compressor_of(head) {
        Some(c) => Some(c),
        None => if bytes::ends_with_any_case(name, LZMA_SUFFIX@) {
            Some(Compressor::Lzma)
        } else {
            None
        },
    }
}

/// The payload of a package and its compressor. A payload that neither is
/// compressed nor shows a tape archive is refused.
pub open spec fn payload_of(data: Seq<u8>) -> Result<(Seq<u8>, Option<Compressor>), ErrorView> {
    let (rows, failure) = ar::archive_members(data);
    let i = payload_from(rows, 0);
    if i >= rows.len() {
        match failure {
            Some((kind, message)) => Err(error::io_error_view(kind, message)),
            None => Err(ErrorView::Corrupt("deb: missing data.tar member"@)),
        }
    } else {
        match ar::member_body(data, i) {
            Err((kind, message)) => Err(error::io_error_view(kind, message)),
            Ok(bytes) => {
                let comp = payload_compressor(rows[i].identifier, bytes);
                if comp is None && !tar::shows_tar(bytes) {
                    Err(ErrorView::Unsupported { format: "deb"@, feature: "data.tar compression"@ })
                } else {
                    Ok((bytes, comp))
                }
            },
        }
    }
}

/// Take the payload out of a package.
pub fn take_payload(data: &[u8]) -> (r: Result<Payload, Error>)
    requires
        ar::long_names_resolve(data@),
    ensures
        match r {
            Ok(p) => payload_of(data@) == Ok::<(Seq<u8>, Option<Compressor>), ErrorView>((p.bytes@, p.compressor)),
            Err(e) => payload_of(data@) == Err::<(Seq<u8>, Option<Compressor>), ErrorView>(e@),
        },
{
    let members = list_members(data);
    let ghost rows = ar::row_views(members.rows@);
    assert(rows.len() == members.rows@.len());
    let at: usize = match find_payload(&members.rows) {
        Some(i) => i,
        None => {
            return match members.failure {
                Some(e) => Err(io_err_to_corrupt(e)),
                None => Err(corrupt("deb: missing data.tar member")),
            };
        },
    };
    let bytes = match read_member(data, at) {
        Err(e) => {
            return Err(io_err_to_corrupt(e));
        },
        Ok(b) => b,
    };
    let n: usize = if bytes.len() < PEEK_LEN {
        bytes.len()
    } else {
        PEEK_LEN
    };
    let head = copy_range(bytes.as_slice(), 0, n);
    assert(head@ =~= bytes@.take(n as int));
    assert(rows[at as int] == members.rows@[at as int]@);
    let compressor = match detect_compressor(head.as_slice()) {
        Some(c) => Some(c),
        None => if ends_with_ascii_ci(members.rows[at].identifier.as_slice(), &LZMA_SUFFIX) {
            Some(Compressor::Lzma)
        } else {
            None
        },
    };
    if compressor.is_none() && !has_tar_magic(bytes.as_slice()) {
        return Err(unsupported("deb", "data.tar compression"));
    }
    Ok(Payload { bytes, compressor })
}

/// The tape archive of a package shows these entries and bodies, under the
/// package's format.
pub open spec fn opens_tar(r: Result<TempBackedReader<TarReader>, Error>, tar: Seq<u8>, label: Option<Seq<char>>) -> bool {
    match tar::opened(tar, Backing::File, label) {
        Err(e) => error::fails_with(r, e),
        Ok(shown) => r matches Ok(reader) && archive::presents(&reader, FormatId::Deb, shown.0, shown.1),
    }
}

/// Open the tape archive of a package.
pub fn open_payload(tar: Vec<u8>, opts: &OpenOptions) -> (r: Result<TempBackedReader<TarReader>, Error>)
    ensures
        opens_tar(r, tar@, text::opt_string(opts.encoding_override)),
{
    let src = Source::Seekable { inner: tar, path: Some(String::new()) };
    match TarHandler.open(src, opts) {
        Err(e) => Err(e),
        Ok(inner) => Ok(TempBackedReader::with_format(inner, FormatId::Deb)),
    }
}

/// Reads Debian packages.
#[derive(Debug, Clone, Copy)]
pub struct DebHandler;

/// The beginning of a package: an `ar` archive whose first member has the name
/// that every package has.
pub open spec fn shows_deb(header: Seq<u8>) -> bool {
    header.len() >= 24 && bytes::stands_at(header, 0, AR_MAGIC@) && bytes::stands_at(header, 8, FIRST_MEMBER@)
}

impl FormatHandler for DebHandler {
    open spec fn spec_id(&self) -> FormatId {
        FormatId::Deb
    }

    open spec fn spec_probe(&self, header: Seq<u8>, name: Option<Seq<char>>) -> Confidence {
        archive::magic_when(shows_deb(header))
    }

    fn id(&self) -> (r: FormatId) {
        FormatId::Deb
    }

    fn probe(&self, header: &[u8], name: Option<&str>) -> (r: Confidence) {
        Confidence::magic_if(header.len() >= 24 && starts_with(header, &AR_MAGIC) && found_at(header, 8, &FIRST_MEMBER))
    }
}

/// An opened package, or a payload that is to be decoded elsewhere and then
/// opened.
#[derive(Debug)]
pub enum DebOpening {
    Reader(TempBackedReader<TarReader>),
    /// The payload is packed with the LZW of `compress`.
    Lzw(Vec<u8>),
}

/// The outcome of opening a package.
pub open spec fn opens_package(r: Result<DebOpening, Error>, data: Seq<u8>, label: Option<Seq<char>>) -> bool {
    match payload_of(data) {
        Err(e) => error::fails_with(r, e),
        Ok((bytes, None)) => match tar::opened(bytes, Backing::File, label) {
            Err(e) => error::fails_with(r, e),
            Ok(shown) => r matches Ok(DebOpening::Reader(reader)) && archive::presents(&reader, FormatId::Deb, shown.0, shown.1),
        },
        Ok((bytes, Some(Compressor::Lzc))) => r matches Ok(DebOpening::Lzw(b)) && b@ == bytes,
        Ok((bytes, Some(c))) => decoded_opens(r, decompress::decompressed(c, bytes), label),
    }
}

/// The outcome of opening a package whose payload decodes to that.
pub open spec fn decoded_opens(
    r: Result<DebOpening, Error>,
    decoded: Result<Seq<u8>, (IoKind, Seq<char>)>,
    label: Option<Seq<char>>,
) -> bool {
    match decoded {
        Err((kind, message)) => error::fails_with(r, ErrorView::Io { kind, message }),
        Ok(tar) => match tar::opened(tar, Backing::File, label) {
            Err(e) => error::fails_with(r, e),
            Ok(shown) => r matches Ok(DebOpening::Reader(reader)) && archive::presents(&reader, FormatId::Deb, shown.0, shown.1),
        },
    }
}

/// The outcome of opening a package.
pub open spec fn opens(r: Result<DebOpening, Error>, src: Source, opts: &OpenOptions) -> bool {
    match src {
        Source::Stream { .. } => error::fails_with(
            r,
            ErrorView::Unsupported { format: "deb"@, feature: "streaming (deb requires seek)"@ },
        ),
        Source::Seekable { inner, .. } => opens_package(r, inner@, text::opt_string(opts.encoding_override)),
    }
}

impl DebHandler {
    /// Open a package. Every long name of the archive must be found in its name
    /// table; `ar::check_long_names` tells. Of a payload packed with the LZW of
    /// `compress` the bytes are handed out; decoded, they go to `open_payload`.
    pub fn open(&self, src: Source, opts: &OpenOptions) -> (r: Result<DebOpening, Error>)
        requires
            src is Seekable ==> ar::long_names_resolve(src.content()),
        ensures
            opens(r, src, opts),
    {
        let inner = match src {
            Source::Stream { .. } => {
                return Err(unsupported("deb", "streaming (deb requires seek)"));
            },
            Source::Seekable { inner, .. } => inner,
        };
        let payload = match take_payload(inner.as_slice()) {
            Err(e) => {
                return Err(e);
            },
            Ok(p) => p,
        };
        let tar: Vec<u8> = match payload.compressor {
            None => payload.bytes,
            Some(Compressor::Lzc) => {
                return Ok(DebOpening::Lzw(payload.bytes));
            },
            Some(c) => match decompressor(c, payload.bytes.as_slice()) {
                Err(e) => {
                    return Err(Error::Io(e));
                },
                Ok(t) => t,
            },
        };
        match open_payload(tar, opts) {
            Err(e) => Err(e),
            Ok(reader) => Ok(DebOpening::Reader(reader)),
        }
    }
}

/// Every package is an `ar` archive: where the beginning of a file shows a
/// package, it shows the archive too.
pub proof fn packages_are_archives(header: Seq<u8>)
    requires
        shows_deb(header),
    ensures
        bytes::stands_at(header, 0, crate::format::ar::MAGIC@),
{
}

/// The payload of a package is the first member whose name begins with `data.tar`.
pub proof fn payload_is_first_of_its_name(rows: Seq<RowView>, i: int, from: int)
    requires
        0 <= from <= i < rows.len(),
        bytes::stands_at(rows[i].identifier, 0, seq![0x64u8, 0x61, 0x74, 0x61, 0x2E, 0x74, 0x61, 0x72]),
        forall|k: int|
            from <= k < i ==> !bytes::stands_at(
                (#[trigger] rows[k]).identifier,
                0,
                seq![0x64u8, 0x61, 0x74, 0x61, 0x2E, 0x74, 0x61, 0x72],
            ),
    ensures
        payload_from(rows, from) == i,
    decreases i - from,
{
    assert(PAYLOAD_NAME@ =~= seq![0x64u8, 0x61, 0x74, 0x61, 0x2E, 0x74, 0x61, 0x72]);
    if from < i {
        payload_is_first_of_its_name(rows, i, from + 1);
    }
}

/// How the payload of a package is packed is told by the mark that it begins with, whatever
/// its member is called; without a mark, by the ending `.lzma` of that name, in whatever
/// case.
pub proof fn payload_compression_is_told_by_mark(name: Seq<u8>, rest: Seq<u8>)
    requires
        rest.len() >= 6,
    ensures
        payload_compressor(name, seq![0x1Fu8, 0x8B] + rest) == Some(Compressor::Gzip),
        payload_compressor(name, seq![0xFDu8, 0x37, 0x7A, 0x58, 0x5A, 0] + rest) == Some(Compressor::Xz),
        payload_compressor(name, seq![0x28u8, 0xB5, 0x2F, 0xFD] + rest) == Some(Compressor::Zstd),
        payload_compressor(name, seq![0x42u8, 0x5A, 0x68] + rest) == Some(Compressor::Bzip2),
        detect::compressor_of(rest.take(6)) is None ==> payload_compressor(name, rest) == if bytes::ends_with_any_case(
            name,
            seq![0x2Eu8, 0x6C, 0x7A, 0x6D, 0x61],
        ) {
            Some(Compressor::Lzma)
        } else {
            None
        },
{
    assert(LZMA_SUFFIX@ =~= seq![0x2Eu8, 0x6C, 0x7A, 0x6D, 0x61]);
    let gz = seq![0x1Fu8, 0x8B];
    let xz = seq![0xFDu8, 0x37, 0x7A, 0x58, 0x5A, 0];
    let zst = seq![0x28u8, 0xB5, 0x2F, 0xFD];
    let bz = seq![0x42u8, 0x5A, 0x68];
    assert((gz + rest).take(6) =~= gz + rest.take(4));
    assert((xz + rest).take(6) =~= xz + rest.take(0));
    assert((zst + rest).take(6) =~= zst + rest.take(2));
    assert((bz + rest).take(6) =~= bz + rest.take(3));
    detect::compressors_are_known_by_their_marks(rest.take(4));
    detect::compressors_are_known_by_their_marks(rest.take(0));
    detect::compressors_are_known_by_their_marks(rest.take(2));
    detect::compressors_are_known_by_their_marks(rest.take(3));
}

} // verus!
