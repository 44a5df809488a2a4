//! RPM packages: a compressed cpio archive behind headers.
use vstd::prelude::*;

use crate::archive;
use crate::bytes;
use crate::decompress;
use crate::detect;
use crate::error;
use crate::format::cpio;
use crate::text;
use crate::archive::{ArchiveReader, Confidence, FormatHandler, FormatId, OpenOptions, Source};
use crate::bytes::{be_u32, starts_with};
use crate::decompress::{decompressor, Compressor};
use crate::detect::TempBackedReader;
use crate::error::{unsupported, Error, ErrorView};
use crate::format::cpio::{CpioHandler, CpioReader};
use crate::text::{join2, same_text};

verus! {

/// How a package begins.
pub const MAGIC: [u8; 4] = [0xED, 0xAB, 0xEE, 0xDB];

/// What is read of a package.
#[derive(Debug)]
pub struct Package {
    pub payload_format: Option<String>,
    pub payload_compressor: Option<String>,
    pub payload: Vec<u8>,
}

/// A `Package` as its model.
pub struct PackageView {
    pub payload_format: Option<Seq<char>>,
    pub payload_compressor: Option<Seq<char>>,
    pub payload: Seq<u8>,
}

impl View for Package {
    type V = PackageView;

    open spec fn view(&self) -> PackageView {
        PackageView {
            payload_format: text::opt_string(self.payload_format),
            payload_compressor: text::opt_string(self.payload_compressor),
            payload: self.payload@,
        }
    }
}

/// What was read, or the text of the failure.
pub open spec fn package_result(r: Result<Package, String>) -> Result<PackageView, Seq<char>> {
    match r {
        Ok(p) => Ok(p@),
        Err(m) => Err(m@),
    }
}

/// Where the first header of a package begins.
pub const LEAD_LEN: usize = 96;

/// A header that the reader takes for one begins at `p`.
pub open spec fn header_begins(data: Seq<u8>, p: int) -> bool {
    p + 16 <= data.len() && data[p] == 0x8E && data[p + 1] == 0xAD && data[p + 3] == 1
}

/// The number of index entries of the header at `p`.
pub open spec fn index_count(data: Seq<u8>, p: int) -> int {
    bytes::be32(data, p + 8) as int
}

/// The length of the store of the header at `p`.
pub open spec fn store_len(data: Seq<u8>, p: int) -> int {
    bytes::be32(data, p + 12) as int
}

/// Where the header at `p` ends.
pub open spec fn header_end(data: Seq<u8>, p: int) -> int {
    p + 16 + 16 * index_count(data, p) + store_len(data, p)
}

/// Entry `k` of the header at `p` points into the store, or at its end.
pub open spec fn points_into_store(data: Seq<u8>, p: int, k: int) -> bool {
    bytes::be32(data, p + 24 + 16 * k) <= store_len(data, p) && bytes::be32(data, p + 24 + 16 * k) <= i32::MAX
}

/// The lengths of the header at `p` add up, and its entries point into its store.
pub open spec fn header_sound(data: Seq<u8>, p: int) -> bool {
    header_begins(data, p) ==> {
        &&& 16 * index_count(data, p) + store_len(data, p) <= u32::MAX
        &&& header_end(data, p) <= data.len() ==> forall|k: int|
            0 <= k < index_count(data, p) ==> #[trigger] points_into_store(data, p, k)
    }
}

/// Where the second header of a package begins: behind the first, at a multiple
/// of eight from where the store began.
pub open spec fn main_header_at(data: Seq<u8>) -> int {
    header_end(data, LEAD_LEN as int) + (8 - store_len(data, LEAD_LEN as int) % 8) % 8
}

/// The headers of a file that begins as a package are sound.
pub open spec fn headers_sound(data: Seq<u8>) -> bool {
    bytes::stands_at(data, 0, MAGIC@) ==> {
        &&& header_sound(data, LEAD_LEN as int)
        &&& header_begins(data, LEAD_LEN as int) ==> header_sound(data, main_header_at(data))
    }
}

/// Whether the header at `p` is sound.
fn check_header(data: &[u8], p: usize) -> (r: bool)
    ensures
        r == header_sound(data@, p as int),
{
    let len: usize = data.len();
    if len < 16 || p > len - 16 || data[p] != 0x8E || data[p + 1] != 0xAD || data[p + 3] != 1 {
        return true;
    }
    let n: u64 = be_u32(data, p + 8) as u64;
    let store: u64 = be_u32(data, p + 12) as u64;
    if 16 * n + store > u32::MAX as u64 {
        return false;
    }
    if 16 * n + store > (len - p - 16) as u64 {
        return true;
    }
    let mut k: u64 = 0;
    while k < n
        invariant
            k <= n,
            len == data.len(),
            header_begins(data@, p as int),
            p + 16 + 16 * n + store <= len,
            n == index_count(data@, p as int),
            store == store_len(data@, p as int),
            forall|j: int| 0 <= j < k ==> #[trigger] points_into_store(data@, p as int, j),
        decreases n - k,
    {
        let offset: u32 = be_u32(data, p + 24 + 16 * (k as usize));
        if offset as u64 > store || offset > 0x7FFF_FFFF {
            assert(!points_into_store(data@, p as int, k as int));
            return false;
        }
        k = k + 1;
    }
    true
}

/// Whether the headers of a file that begins as a package are sound.
pub fn check_headers(data: &[u8]) -> (r: bool)
    ensures
        r == headers_sound(data@),
{
    if !starts_with(data, &MAGIC) {
        return true;
    }
    if !check_header(data, LEAD_LEN) {
        return false;
    }
    let len: usize = data.len();
    if len < LEAD_LEN + 16 || data[LEAD_LEN] != 0x8E || data[LEAD_LEN + 1] != 0xAD || data[LEAD_LEN + 3] != 1 {
        return true;
    }
    let n: u64 = be_u32(data, LEAD_LEN + 8) as u64;
    let store: u64 = be_u32(data, LEAD_LEN + 12) as u64;
    let at: u64 = 96 + 16 + 16 * n + store + (8 - store % 8) % 8;
    if at >= len as u64 {
        return true;
    }
    check_header(data, at as usize)
}

/// What `rpm::Package::parse` reads of some bytes.
pub uninterp spec fn parsed_package(data: Seq<u8>) -> Result<PackageView, Seq<char>>;

/// `rpm::Package::parse`: the payload and, where the header has them as strings,
/// its format and compressor, or the text that the failure displays. A header
/// whose lengths overflow, or with an entry that points behind its store, would
/// make it panic.
#[verifier::external_body]
fn parse_package(data: &[u8]) -> (r: Result<Package, String>)
    requires
        headers_sound(data@),
    ensures
        package_result(r) == parsed_package(data@),
{
    let mut input = data;
    let pkg = rpm::Package::parse(&mut input).map_err(|e| e.to_string())?;
    let header = &pkg.metadata.header;
    let payload_format = header.get_entry_data_as_string(rpm::IndexTag::RPMTAG_PAYLOADFORMAT).ok().map(|s| s.to_owned());
    let payload_compressor = header.get_entry_data_as_string(rpm::IndexTag::RPMTAG_PAYLOADCOMPRESSOR).ok().map(|s| s.to_owned());
    Ok(Package { payload_format, payload_compressor, payload: pkg.payload })
}

/// The compressor that a package names for its payload: none, or one that can be
/// decoded.
pub open spec fn named_compressor(s: Seq<char>) -> Result<Option<Compressor>, ErrorView> {
    if s == "gzip"@ {
        Ok(Some(Compressor::Gzip))
    } else if s == "xz"@ {
        Ok(Some(Compressor::Xz))
    } else if s == "zstd"@ {
        Ok(Some(Compressor::Zstd))
    } else if s == "lzma"@ {
        Ok(Some(Compressor::Lzma))
    } else if s == "bzip2"@ {
        Ok(Some(Compressor::Bzip2))
    } else if s == ""@ || s == "none"@ {
        Ok(None)
    } else {
        Err(ErrorView::Unsupported { format: "rpm"@, feature: "payload compressor "@ + s })
    }
}

/// The compressor that a package names for its payload.
pub fn map_payload_compressor(s: &str) -> (r: Result<Option<Compressor>, Error>)
    ensures
        match r {
            Ok(c) => named_compressor(s@) == Ok::<Option<Compressor>, ErrorView>(c),
            Err(e) => named_compressor(s@) == Err::<Option<Compressor>, ErrorView>(e@),
        },
{
    if same_text(s, "gzip") {
        return Ok(Some(Compressor::Gzip));
    }
    if same_text(s, "xz") {
        return Ok(Some(Compressor::Xz));
    }
    if same_text(s, "zstd") {
        return Ok(Some(Compressor::Zstd));
    }
    if same_text(s, "lzma") {
        return Ok(Some(Compressor::Lzma));
    }
    if same_text(s, "bzip2") {
        return Ok(Some(Compressor::Bzip2));
    }
    if same_text(s, "") || same_text(s, "none") {
        return Ok(None);
    }
    let feature = join2("payload compressor ", s);
    Err(unsupported("rpm", feature.as_str()))
}

/// The cpio archive of a package.
pub open spec fn unpacked(p: PackageView) -> Result<Seq<u8>, ErrorView> {
    let format = match p.payload_format {
        Some(f) => f,
        None => "cpio"@,
    };
    let name = match p.payload_compressor {
        Some(c) => c,
        None => ""@,
    };
    if format != "cpio"@ {
        Err(ErrorView::Unsupported { format: "rpm"@, feature: "payload format "@ + format })
    } else {
        match named_compressor(name) {
            Err(e) => Err(e),
            Ok(None) => Ok(p.payload),
            Ok(Some(c)) => match decompress::decompressed(c, p.payload) {
                Err((kind, message)) => Err(ErrorView::Io { kind, message }),
                Ok(b) => Ok(b),
            },
        }
    }
}

/// Unpack the cpio archive of a package.
pub fn unpack(p: Package) -> (r: Result<Vec<u8>, Error>)
    ensures
        crate::archive::body_view(r) == unpacked(p@),
{
    let format: &str = match &p.payload_format {
        Some(f) => f.as_str(),
        None => "cpio",
    };
    if !same_text(format, "cpio") {
        let feature = join2("payload format ", format);
        return Err(unsupported("rpm", feature.as_str()));
    }
    let name: &str = match &p.payload_compressor {
        Some(c) => c.as_str(),
        None => "",
    };
    match map_payload_compressor(name) {
        Err(e) => Err(e),
        Ok(None) => Ok(p.payload),
        Ok(Some(c)) => match decompressor(c, p.payload.as_slice()) {
            Err(e) => Err(Error::Io(e)),
            Ok(b) => Ok(b),
        },
    }
}

/// The reader shows the cpio archive of a package, under the package's format.
pub open spec fn shows_package(reader: &TempBackedReader<CpioReader>, cpio: Seq<u8>, label: Option<Seq<char>>) -> bool {
    &&& reader.spec_format() == FormatId::Rpm
    &&& detect::shows_same(reader, &reader.spec_inner())
    &&& cpio::archive_records(cpio) is Ok
    &&& reader.spec_inner().shows(cpio, cpio::archive_records(cpio)->Ok_0, label)
}

/// Open the cpio archive of a package.
pub fn open_payload(cpio: Vec<u8>, opts: &OpenOptions) -> (r: Result<TempBackedReader<CpioReader>, Error>)
    ensures
        match cpio::archive_records(cpio@) {
            Err(e) => error::fails_with(r, e),
            Ok(_) => r matches Ok(reader) && shows_package(&reader, cpio@, text::opt_string(opts.encoding_override)),
        },
{
    let src = Source::Seekable { inner: cpio, path: Some(String::new()) };
    match CpioHandler.open(src, opts) {
        Err(e) => Err(e),
        Ok(inner) => Ok(TempBackedReader::with_format(inner, FormatId::Rpm)),
    }
}

/// Why a source cannot be opened as a package.
pub open spec fn source_fault(src: Source) -> Option<ErrorView> {
    if src is Stream {
        Some(ErrorView::Unsupported { format: "rpm"@, feature: "streaming (rpm requires seek)"@ })
    } else if src.spec_path() is None {
        Some(ErrorView::Unsupported { format: "rpm"@, feature: "seekable source without a path"@ })
    } else {
        None
    }
}

/// The cpio archive of a file that is a package.
pub open spec fn payload_of(data: Seq<u8>) -> Result<Seq<u8>, ErrorView> {
    match parsed_package(data) {
        Err(m) => Err(ErrorView::Corrupt(m)),
        Ok(p) => unpacked(p),
    }
}

/// Reads RPM packages.
#[derive(Debug, Clone, Copy)]
pub struct RpmHandler;

impl FormatHandler for RpmHandler {
    open spec fn spec_id(&self) -> FormatId {
        FormatId::Rpm
    }

    open spec fn spec_probe(&self, header: Seq<u8>, name: Option<Seq<char>>) -> Confidence {
        archive::magic_when(bytes::stands_at(header, 0, MAGIC@))
    }

    fn id(&self) -> (r: FormatId) {
        FormatId::Rpm
    }

    fn probe(&self, header: &[u8], name: Option<&str>) -> (r: Confidence) {
        Confidence::magic_if(starts_with(header, &MAGIC))
    }
}

/// The outcome of opening a package.
pub open spec fn opens(r: Result<TempBackedReader<CpioReader>, Error>, src: Source, opts: &OpenOptions) -> bool {
    match source_fault(src) {
        Some(e) => error::fails_with(r, e),
        None => match payload_of(src.content()) {
            Err(e) => error::fails_with(r, e),
            Ok(cpio) => match cpio::archive_records(cpio) {
                Err(e) => error::fails_with(r, e),
                Ok(_) => r matches Ok(reader) && shows_package(&reader, cpio, text::opt_string(opts.encoding_override)),
            },
        },
    }
}

impl RpmHandler {
    /// Open a package. Its headers must be sound; `check_headers` tells.
    pub fn open(&self, src: Source, opts: &OpenOptions) -> (r: Result<TempBackedReader<CpioReader>, Error>)
        requires
            source_fault(src) is None ==> headers_sound(src.content()),
        ensures
            opens(r, src, opts),
    {
        let data = match src {
            Source::Stream { .. } => {
                return Err(unsupported("rpm", "streaming (rpm requires seek)"));
            },
            Source::Seekable { path: None, .. } => {
                return Err(unsupported("rpm", "seekable source without a path"));
            },
            Source::Seekable { inner, path: Some(_) } => inner,
        };
        let p = match parse_package(data.as_slice()) {
            Err(m) => {
                return Err(Error::Corrupt(m));
            },
            Ok(p) => p,
        };
        match unpack(p) {
            Err(e) => Err(e),
            Ok(cpio) => open_payload(cpio, opts),
        }
    }
}

/// The main header stands behind the signature header, whose store is filled up to a
/// multiple of eight bytes.
pub proof fn main_header_is_aligned(data: Seq<u8>, rows: int, store: int)
    requires
        0 <= rows <= u32::MAX,
        0 <= store <= u32::MAX,
        bytes::stands_at(data, 104, bytes::low_first(rows, 4).reverse()),
        bytes::stands_at(data, 108, bytes::low_first(store, 4).reverse()),
    ensures
        ({
            let fill = main_header_at(data) - (96 + 16 + 16 * rows + store);
            0 <= fill < 8 && (store + fill) % 8 == 0
        }),
{
    bytes::standing_numbers_are_read(data, 104, rows);
    bytes::standing_numbers_are_read(data, 108, store);
}

/// The payload is unpacked as its header says: what is packed with nothing is taken as it
/// is, and what no header says is a cpio archive that is packed with nothing.
pub proof fn payloads_are_unpacked_as_told(p: PackageView)
    ensures
        p.payload_format is None && p.payload_compressor is None ==> unpacked(p) == Ok::<Seq<u8>, ErrorView>(p.payload),
        p.payload_format == Some("cpio"@) && p.payload_compressor == Some("none"@) ==> unpacked(p) == Ok::<Seq<u8>, ErrorView>(
            p.payload,
        ),
        p.payload_format is None && p.payload_compressor == Some("gzip"@) ==> (unpacked(p) matches Ok(b)
            ==> decompress::gzip_decoded(p.payload) == Ok::<Seq<u8>, (crate::error::IoKind, Seq<char>)>(b)),
        p.payload_format matches Some(f) ==> f != "cpio"@ ==> unpacked(p) is Err,
{
    reveal_strlit("gzip");
    reveal_strlit("xz");
    reveal_strlit("zstd");
    reveal_strlit("lzma");
    reveal_strlit("bzip2");
    reveal_strlit("");
    reveal_strlit("none");
    assert("none"@ != "gzip"@) by {
        assert("none"@[0] != "gzip"@[0]);
    }
    assert("none"@ != "xz"@ && "none"@ != "bzip2"@) by {
        assert("none"@.len() != "xz"@.len());
    }
    assert("none"@ != "zstd"@ && "none"@ != "lzma"@) by {
        assert("none"@[0] != "zstd"@[0] && "none"@[0] != "lzma"@[0]);
    }
    assert(""@.len() == 0);
}

/// The compressions that a header may name are those that packages are made with.
pub proof fn named_compressions_are_known()
    ensures
        named_compressor("gzip"@) == Ok::<Option<Compressor>, ErrorView>(Some(Compressor::Gzip)),
        named_compressor("xz"@) == Ok::<Option<Compressor>, ErrorView>(Some(Compressor::Xz)),
        named_compressor("zstd"@) == Ok::<Option<Compressor>, ErrorView>(Some(Compressor::Zstd)),
        named_compressor("lzma"@) == Ok::<Option<Compressor>, ErrorView>(Some(Compressor::Lzma)),
        named_compressor("bzip2"@) == Ok::<Option<Compressor>, ErrorView>(Some(Compressor::Bzip2)),
{
    reveal_strlit("gzip");
    reveal_strlit("xz");
    reveal_strlit("zstd");
    reveal_strlit("lzma");
    reveal_strlit("bzip2");
    assert("xz"@[0] == 'x' && "gzip"@[0] == 'g' && "zstd"@[0] == 'z' && "lzma"@[0] == 'l' && "bzip2"@[0] == 'b');
}

} // verus!
