//! Which format a file is of, and what stands behind its compression.
use vstd::prelude::*;
use vstd::utf8;

use crate::decompress;
use crate::format::bundle;
use crate::format::cpio;
use crate::format::deb;
use crate::format::dmg;
use crate::format::hfsplus;
use crate::format::iso;
use crate::format::legacy::nsis;
use crate::archive;
use crate::bytes;
use crate::datetime;
use crate::error;
use crate::format::stored;
use crate::format::tar;
use crate::format::apfs::ApfsHandler;
use crate::format::appimage::AppImageHandler;
use crate::format::ar::ArHandler;
use crate::format::cab::CabHandler;
use crate::format::conda::CondaHandler;
use crate::format::crx::CrxHandler;
use crate::format::deb::DebHandler;
use crate::format::dmg::DmgHandler;
use crate::format::hfsplus::HfsPlusHandler;
use crate::format::iso::IsoHandler;
use crate::format::legacy::alz::AlzHandler;
use crate::format::legacy::amiga::{PowerPackerHandler, LzxHandler, DmsHandler};
use crate::format::legacy::dos::{ArjHandler, ZooHandler, LbrHandler, CrunchHandler, ArcHandler, SqueezeHandler};
use crate::format::legacy::mac::{BinHexHandler, MacBinaryHandler, AppleSingleHandler, CompactProHandler, PackItHandler};
use crate::format::legacy::nsis::NsisHandler;
use crate::format::legacy::stuffit::{StuffIt5Handler, StuffItHandler, StuffItXHandler};
use crate::format::msi::MsiHandler;
use crate::format::rar::RarHandler;
use crate::format::rpm::RpmHandler;
use crate::format::sevenz::SevenZHandler;
use crate::format::sfx::SfxHandler;
use crate::format::squashfs::SquashfsHandler;
use crate::format::warc::WarcHandler;
use crate::format::wim::WimHandler;
use crate::format::wpress::WpressHandler;
use crate::format::bundle::{all_zip_bundles, ZipBundleHandler, ZIP_MAGIC};
use crate::archive::{Confidence, FormatHandler};
use crate::format::dmg::has_koly_trailer;
use crate::format::hfsplus::has_hfsplus_signature;
use crate::format::iso::has_iso_signature;
use crate::format::legacy::nsis::recognize_nsis;
use crate::text::{name_ends, to_lower_char};
use crate::decompress::decompressor;
use crate::paths;
use crate::text;
use crate::archive::{ArchiveReader, BatchReader, Entry, EntryKind, EntryView, FormatId, KindView, OpenOptions};
use crate::archive::{EntrySink, ReadSeek, SeekTo, SinkEvent, Source};
use crate::bytes::{copy_bytes, le_u32, same_bytes, starts_with};
use crate::datetime::{unix_secs_to_systime, Stamp, Timestamp};
use crate::decompress::Compressor;
use crate::error::{Error, ErrorView};
use crate::format::cpio::{is_supported_magic, CpioHandler, CpioReader, MAGIC_CRC, MAGIC_LEN, MAGIC_NEWC, MAGIC_ODC};
use crate::format::stored::{Body, StoredReader};
use crate::format::tar::{has_tar_magic, TarHandler, TarReader, PEEK_LEN};
use crate::format::sfx::MZ_MAGIC;
use crate::error::IoKind;
use crate::format::tar::Backing;
use crate::paths::path_file_name;
use crate::text::{chars_of, copy_chars, decimal_text, ends_exactly, join2, string_of};

verus! {

/// How compressed files begin.
pub const GZIP_MAGIC: [u8; 2] = [0x1F, 0x8B];
pub const BZIP2_MAGIC: [u8; 3] = [0x42, 0x5A, 0x68];
pub const XZ_MAGIC: [u8; 6] = [0xFD, 0x37, 0x7A, 0x58, 0x5A, 0x00];
pub const ZSTD_MAGIC: [u8; 4] = [0x28, 0xB5, 0x2F, 0xFD];
pub const LZC_MAGIC: [u8; 2] = [0x1F, 0x9D];
pub const LZ4_MAGIC: [u8; 4] = [0x04, 0x22, 0x4D, 0x18];
/// The whole of the first chunk of a framed stream: bare Snappy has no mark.
pub const SNAPPY_MAGIC: [u8; 10] = [0xFF, 0x06, 0x00, 0x00, 0x73, 0x4E, 0x61, 0x50, 0x70, 0x59];
/// The version is part of the mark, for only that version can be decoded.
pub const LZIP_MAGIC: [u8; 5] = [0x4C, 0x5A, 0x49, 0x50, 0x01];

/// The compressor that the beginning of a file shows.
pub open spec fn compressor_of(header: Seq<u8>) -> Option<Compressor> {
    if bytes::stands_at(header, 0, GZIP_MAGIC@) {
        Some(Compressor::Gzip)
    } else if bytes::stands_at(header, 0, BZIP2_MAGIC@) {
        Some(Compressor::Bzip2)
    } else if bytes::stands_at(header, 0, XZ_MAGIC@) {
        Some(Compressor::Xz)
    } else if bytes::stands_at(header, 0, ZSTD_MAGIC@) {
        Some(Compressor::Zstd)
    } else if bytes::stands_at(header, 0, LZC_MAGIC@) {
        Some(Compressor::Lzc)
    } else if bytes::stands_at(header, 0, LZ4_MAGIC@) {
        Some(Compressor::Lz4)
    } else if bytes::stands_at(header, 0, SNAPPY_MAGIC@) {
        Some(Compressor::Snappy)
    } else if bytes::stands_at(header, 0, LZIP_MAGIC@) {
        Some(Compressor::Lzip)
    } else {
        None
    }
}

/// The compressor that the beginning of a file shows.
pub fn detect_compressor(header: &[u8]) -> (r: Option<Compressor>)
    ensures
        r == compressor_of(header@),
{
    if starts_with(header, &GZIP_MAGIC) {
        return Some(Compressor::Gzip);
    }
    if starts_with(header, &BZIP2_MAGIC) {
        return Some(Compressor::Bzip2);
    }
    if starts_with(header, &XZ_MAGIC) {
        return Some(Compressor::Xz);
    }
    if starts_with(header, &ZSTD_MAGIC) {
        return Some(Compressor::Zstd);
    }
    if starts_with(header, &LZC_MAGIC) {
        return Some(Compressor::Lzc);
    }
    if starts_with(header, &LZ4_MAGIC) {
        return Some(Compressor::Lz4);
    }
    if starts_with(header, &SNAPPY_MAGIC) {
        return Some(Compressor::Snappy);
    }
    if starts_with(header, &LZIP_MAGIC) {
        return Some(Compressor::Lzip);
    }
    None
}

/// The ends of the names of compressed files, and the compressor, where the name
/// alone tells it. The first that fits counts.
pub open spec fn compressor_exts() -> Seq<(Seq<char>, Option<Compressor>)> {
    seq![
        (".gz"@, None),
        (".bz2"@, None),
        (".xz"@, None),
        (".zst"@, None),
        (".Z"@, None),
        (".lz4"@, None),
        (".br"@, Some(Compressor::Brotli)),
        (".sz"@, None),
        (".lzma"@, Some(Compressor::Lzma)),
        (".lz"@, None),
    ]
}

/// A list of ends of names and compressors as its model.
pub open spec fn ext_views(v: Seq<(&'static str, Option<Compressor>)>) -> Seq<(Seq<char>, Option<Compressor>)> {
    v.map_values(|e: (&'static str, Option<Compressor>)| (e.0@, e.1))
}

/// The ends of the names of compressed files. `.Z` is upper case, for `.z` is no
/// such end.
pub fn known_exts() -> (r: Vec<(&'static str, Option<Compressor>)>)
    ensures
        ext_views(r@) == compressor_exts(),
{
    let mut v: Vec<(&'static str, Option<Compressor>)> = Vec::new();
    v.push((".gz", None));
    v.push((".bz2", None));
    v.push((".xz", None));
    v.push((".zst", None));
    v.push((".Z", None));
    v.push((".lz4", None));
    v.push((".br", Some(Compressor::Brotli)));
    v.push((".sz", None));
    v.push((".lzma", Some(Compressor::Lzma)));
    v.push((".lz", None));
    assert(ext_views(v@) =~= compressor_exts());
    v
}

/// The first compressor, from row `i` on, that the end of a name tells.
pub open spec fn told_from(name: Seq<char>, exts: Seq<(Seq<char>, Option<Compressor>)>, i: int) -> Option<Compressor>
    decreases exts.len() - i,
{
    if i < 0 || i >= exts.len() {
        None
    } else if exts[i].1 is Some && text::text_ends(name, exts[i].0) {
        exts[i].1
    } else {
        told_from(name, exts, i + 1)
    }
}

/// The compressor that a name tells, in lower case, for those that leave no mark
/// in the content.
pub fn detect_compressor_by_ext(lower_name: &str) -> (r: Option<Compressor>)
    ensures
        r == told_from(lower_name@, compressor_exts(), 0),
{
    let exts = known_exts();
    let name = chars_of(lower_name);
    let mut i: usize = 0;
    while i < exts.len()
        invariant
            i <= exts.len(),
            name@ == lower_name@,
            ext_views(exts@) == compressor_exts(),
            told_from(lower_name@, compressor_exts(), 0) == told_from(lower_name@, compressor_exts(), i as int),
        decreases exts.len() - i,
    {
        let (ext, comp) = exts[i];
        assert(ext_views(exts@)[i as int] == (ext@, comp));
        if comp.is_some() {
            let end = chars_of(ext);
            if ends_exactly(name.as_slice(), end.as_slice()) {
                return comp;
            }
        }
        i = i + 1;
    }
    assert(ext_views(exts@).len() == exts@.len());
    None
}

/// A name without the end, from row `i` on, that it has.
pub open spec fn stem_from(name: Seq<char>, exts: Seq<(Seq<char>, Option<Compressor>)>, i: int) -> Seq<char>
    decreases exts.len() - i,
{
    if i < 0 || i >= exts.len() {
        name
    } else if text::text_ends(name, exts[i].0) {
        name.take(name.len() - exts[i].0.len())
    } else {
        stem_from(name, exts, i + 1)
    }
}

/// The name of the file in a compressed file of that path.
pub open spec fn inner_name(path: Seq<char>) -> Seq<char> {
    let name = match paths::file_name(path) {
        Some(n) => n,
        None => "data"@,
    };
    stem_from(name, compressor_exts(), 0)
}

/// The name of the file in a compressed file: that of the compressed file without
/// the end that tells the compressor.
pub fn stem_without_compressor_ext(path: &str) -> (r: String)
    ensures
        r@ == inner_name(path@),
{
    let chars = chars_of(path);
    let name: Vec<char> = match path_file_name(chars.as_slice()) {
        Some(n) => n,
        None => chars_of("data"),
    };
    let exts = known_exts();
    let mut i: usize = 0;
    while i < exts.len()
        invariant
            i <= exts.len(),
            ext_views(exts@) == compressor_exts(),
            inner_name(path@) == stem_from(name@, compressor_exts(), i as int),
        decreases exts.len() - i,
    {
        let (ext, comp) = exts[i];
        assert(ext_views(exts@)[i as int] == (ext@, comp));
        let end = chars_of(ext);
        if ends_exactly(name.as_slice(), end.as_slice()) {
            let stem = copy_chars(name.as_slice(), 0, name.len() - end.len());
            assert(stem@ =~= name@.take(name@.len() - ext@.len()));
            return string_of(stem.as_slice());
        }
        i = i + 1;
    }
    assert(ext_views(exts@).len() == exts@.len());
    string_of(name.as_slice())
}

/// A reader whose archive was taken out of another file. It may report the
/// format of that file.
#[derive(Debug)]
pub struct TempBackedReader<R: ArchiveReader> {
    inner: R,
    format_override: Option<FormatId>,
}

/// `a` shows what `b` shows, but for the format.
pub open spec fn shows_same<A: ArchiveReader, B: ArchiveReader>(a: &A, b: &B) -> bool {
    &&& a.listing() == b.listing()
    &&& a.unlocked() == b.unlocked()
    &&& forall|idx: int| #[trigger] a.body(idx) == b.body(idx)
}

impl<R: ArchiveReader> TempBackedReader<R> {
    /// The reader inside.
    pub closed spec fn spec_inner(&self) -> R {
        self.inner
    }

    /// A reader that reports the format of the one inside.
    pub fn new(inner: R) -> (r: TempBackedReader<R>)
        ensures
            r.spec_inner() == inner,
            r.spec_format() == inner.spec_format(),
            shows_same(&r, &inner),
    {
        TempBackedReader { inner, format_override: None }
    }

    /// A reader that reports another format.
    pub fn with_format(inner: R, format: FormatId) -> (r: TempBackedReader<R>)
        ensures
            r.spec_inner() == inner,
            r.spec_format() == format,
            shows_same(&r, &inner),
    {
        TempBackedReader { inner, format_override: Some(format) }
    }
}

impl<R: ArchiveReader> ArchiveReader for TempBackedReader<R> {
    closed spec fn spec_format(&self) -> FormatId {
        match self.format_override {
            Some(f) => f,
            None => self.inner.spec_format(),
        }
    }

    closed spec fn listing(&self) -> Seq<EntryView> {
        self.inner.listing()
    }

    closed spec fn body(&self, idx: int) -> Result<Seq<u8>, ErrorView> {
        self.inner.body(idx)
    }

    closed spec fn unlocked(&self) -> Result<(), ErrorView> {
        self.inner.unlocked()
    }

    fn format(&self) -> (r: FormatId) {
        match self.format_override {
            Some(f) => f,
            None => self.inner.format(),
        }
    }

    fn entries(&self) -> (r: &Vec<Entry>) {
        self.inner.entries()
    }

    fn read_entry(&self, idx: usize) -> (r: Result<Vec<u8>, Error>) {
        self.inner.read_entry(idx)
    }

    fn verify_password(&self) -> (r: Result<(), Error>) {
        self.inner.verify_password()
    }
}

impl<R: BatchReader> BatchReader for TempBackedReader<R> {
    /// The pass is that of the reader inside, which may know a quicker one than
    /// entry by entry.
    open spec fn passes(&self, indices: Seq<usize>, events: Seq<SinkEvent>, result: Result<(), ErrorView>) -> bool {
        self.spec_inner().passes(indices, events, result)
    }

    fn read_entries<S: EntrySink>(&self, indices: &[usize], sink: &mut S) -> (r: Result<(), Error>) {
        self.inner.read_entries(indices, sink)
    }
}

/// The bytes of `content` from `offset` on, `size` of them or as many as there
/// are.
pub open spec fn piece(content: Seq<u8>, offset: int, size: int) -> Seq<u8> {
    let len = content.len() as int;
    let start = if offset < len { offset } else { len };
    let end = if offset + size < len { offset + size } else { len };
    content.subrange(start, if end < start { start } else { end })
}

/// What copying a piece of a source gives: fewer bytes than were promised are a
/// loss of data.
pub open spec fn exact_piece(content: Seq<u8>, offset: int, size: int, what: Seq<char>) -> Result<Seq<u8>, ErrorView> {
    if size == 0 {
        Ok(Seq::empty())
    } else if offset > i64::MAX {
        Err(
            ErrorView::Io {
                kind: crate::error::IoKind::InvalidInput,
                message: "seek to a negative position"@,
            },
        )
    } else if piece(content, offset, size).len() != size {
        Err(
            ErrorView::Corrupt(
                what + ": truncated body at offset "@ + text::decimal(offset as nat) + " ("@ + text::decimal(
                    piece(content, offset, size).len(),
                ) + " of "@ + text::decimal(size as nat) + " bytes)"@,
            ),
        )
    } else {
        Ok(piece(content, offset, size))
    }
}

/// Copy exactly `size` bytes from `offset` on. `what` names the source in the
/// message of a failure.
pub fn copy_slice_exact<R: ReadSeek>(src: &mut R, offset: u64, size: u64, what: &str) -> (r: Result<Vec<u8>, Error>)
    requires
        size <= usize::MAX,
    ensures
        final(src).content() == old(src).content(),
        crate::archive::body_view(r) == exact_piece(old(src).content(), offset as int, size as int, what@),
{
    if size == 0 {
        let none: Vec<u8> = Vec::new();
        assert(none@ =~= Seq::<u8>::empty());
        return Ok(none);
    }
    match src.seek(SeekTo::Start(offset)) {
        Err(e) => {
            return Err(e);
        },
        Ok(_) => {},
    }
    let copied = src.read(size as usize);
    proof {
        assert(copied@ =~= piece(src.content(), offset as int, size as int));
    }
    if copied.len() as u64 != size {
        let a = decimal_text(offset);
        let b = decimal_text(copied.len() as u64);
        let c = decimal_text(size);
        let t1 = join2(what, ": truncated body at offset ");
        let t2 = join2(t1.as_str(), a.as_str());
        let t3 = join2(t2.as_str(), " (");
        let t4 = join2(t3.as_str(), b.as_str());
        let t5 = join2(t4.as_str(), " of ");
        let t6 = join2(t5.as_str(), c.as_str());
        return Err(Error::Corrupt(join2(t6.as_str(), " bytes)")));
    }
    Ok(copied)
}

/// The first `n` bytes of a source, or as many as there are. It is left at its
/// start.
pub fn peek_from_start<R: ReadSeek>(reader: &mut R, n: usize) -> (r: Result<Vec<u8>, Error>)
    ensures
        final(reader).content() == old(reader).content(),
        final(reader).position() == 0,
        r matches Ok(v) && v@ == piece(old(reader).content(), 0, n as int),
{
    match reader.seek(SeekTo::Start(0)) {
        Err(e) => {
            return Err(e);
        },
        Ok(_) => {},
    }
    let v = reader.read(n);
    assert(v@ =~= piece(old(reader).content(), 0, n as int));
    match reader.seek(SeekTo::Start(0)) {
        Err(e) => Err(e),
        Ok(_) => Ok(v),
    }
}

/// Whether a source is a tape archive. It is left at its start.
pub fn is_tar<R: ReadSeek>(reader: &mut R) -> (r: Result<bool, Error>)
    ensures
        final(reader).content() == old(reader).content(),
        final(reader).position() == 0,
        r matches Ok(b) && b == tar::shows_tar(piece(old(reader).content(), 0, PEEK_LEN as int)),
{
    match peek_from_start(reader, PEEK_LEN) {
        Err(e) => Err(e),
        Ok(v) => Ok(has_tar_magic(v.as_slice())),
    }
}

/// The bytes are the mark of a cpio archive that can be opened.
pub open spec fn is_cpio_magic(magic: Seq<u8>) -> bool {
    magic == MAGIC_NEWC@ || magic == MAGIC_ODC@ || magic == MAGIC_CRC@
}

fn has_cpio_magic(magic: &[u8]) -> (r: bool)
    ensures
        r == is_cpio_magic(magic@),
{
    is_supported_magic(magic) || same_bytes(magic, &MAGIC_CRC)
}

/// Whether a source is a cpio archive that can be opened. It is left at its start.
pub fn is_cpio<R: ReadSeek>(reader: &mut R) -> (r: Result<bool, Error>)
    ensures
        final(reader).content() == old(reader).content(),
        final(reader).position() == 0,
        r matches Ok(b) && b == is_cpio_magic(piece(old(reader).content(), 0, MAGIC_LEN as int)),
{
    match peek_from_start(reader, MAGIC_LEN) {
        Err(e) => Err(e),
        Ok(v) => Ok(has_cpio_magic(v.as_slice())),
    }
}

/// The time in the header of a gzip file; 0 means that there is none.
pub open spec fn gz_time(data: Seq<u8>) -> Option<Timestamp> {
    if data.len() < 8 || bytes::le32(data, 4) == 0 {
        None
    } else {
        Some(datetime::at_second(bytes::le32(data, 4)))
    }
}

/// The time in the header of a gzip file.
pub fn read_gz_mtime(data: &[u8]) -> (r: Option<Timestamp>)
    ensures
        r == gz_time(data@),
{
    if data.len() < 8 {
        return None;
    }
    unix_secs_to_systime(le_u32(data, 4) as u64)
}


/// Reads zip archives.
#[derive(Debug, Clone, Copy)]
pub struct ZipHandler;

impl FormatHandler for ZipHandler {
    open spec fn spec_id(&self) -> FormatId {
        FormatId::Zip
    }

    open spec fn spec_probe(&self, header: Seq<u8>, name: Option<Seq<char>>) -> Confidence {
        archive::magic_when(bytes::stands_at(header, 0, ZIP_MAGIC@))
    }

    fn id(&self) -> (r: FormatId) {
        FormatId::Zip
    }

    fn probe(&self, header: &[u8], name: Option<&str>) -> (r: Confidence) {
        Confidence::magic_if(starts_with(header, &ZIP_MAGIC))
    }
}

/// `xar!`, the mark of an extensible archive.
pub const XAR_MAGIC: [u8; 4] = [0x78, 0x61, 0x72, 0x21];

/// Reads extensible archives.
#[derive(Debug, Clone, Copy)]
pub struct XarHandler;

impl FormatHandler for XarHandler {
    open spec fn spec_id(&self) -> FormatId {
        FormatId::Xar
    }

    open spec fn spec_probe(&self, header: Seq<u8>, name: Option<Seq<char>>) -> Confidence {
        archive::magic_when(bytes::stands_at(header, 0, XAR_MAGIC@))
    }

    fn id(&self) -> (r: FormatId) {
        FormatId::Xar
    }

    fn probe(&self, header: &[u8], name: Option<&str>) -> (r: Confidence) {
        Confidence::magic_if(starts_with(header, &XAR_MAGIC))
    }
}

/// A handler of any format.
#[derive(Debug, Clone, Copy)]
pub enum Handler {
    Bundle(ZipBundleHandler),
    Crx,
    Conda,
    Zip,
    Cpio,
    SevenZ,
    Rar,
    Tar,
    Cab,
    Deb,
    Ar,
    Rpm,
    Xar,
    Msi,
    Iso,
    Squashfs,
    AppImage,
    Wim,
    Sfx,
    Warc,
    HfsPlus,
    Apfs,
    Dmg,
    Wpress,
    Arj,
    Zoo,
    Lbr,
    Crunch,
    Arc,
    Squeeze,
    BinHex,
    MacBinary,
    AppleSingle,
    CompactPro,
    PackIt,
    StuffIt5,
    StuffIt,
    StuffItX,
    Alz,
    Nsis,
    PowerPacker,
    Lzx,
    Dms,
}

/// A `Handler` as its model: a zip archive under another name, or the handler of
/// a format.
pub enum HandlerView {
    Bundle(Seq<char>, FormatId),
    Own(FormatId),
}

impl View for Handler {
    type V = HandlerView;

    open spec fn view(&self) -> HandlerView {
        match *self {
            Handler::Bundle(h) => HandlerView::Bundle(h.spec_ext(), h.spec_format()),
            Handler::Crx => HandlerView::Own(FormatId::Crx),
            Handler::Conda => HandlerView::Own(FormatId::Conda),
            Handler::Zip => HandlerView::Own(FormatId::Zip),
            Handler::Cpio => HandlerView::Own(FormatId::Cpio),
            Handler::SevenZ => HandlerView::Own(FormatId::SevenZ),
            Handler::Rar => HandlerView::Own(FormatId::Rar),
            Handler::Tar => HandlerView::Own(FormatId::Tar),
            Handler::Cab => HandlerView::Own(FormatId::Cab),
            Handler::Deb => HandlerView::Own(FormatId::Deb),
            Handler::Ar => HandlerView::Own(FormatId::Ar),
            Handler::Rpm => HandlerView::Own(FormatId::Rpm),
            Handler::Xar => HandlerView::Own(FormatId::Xar),
            Handler::Msi => HandlerView::Own(FormatId::Msi),
            Handler::Iso => HandlerView::Own(FormatId::Iso),
            Handler::Squashfs => HandlerView::Own(FormatId::Squashfs),
            Handler::AppImage => HandlerView::Own(FormatId::AppImage),
            Handler::Wim => HandlerView::Own(FormatId::Wim),
            Handler::Sfx => HandlerView::Own(FormatId::Sfx),
            Handler::Warc => HandlerView::Own(FormatId::Warc),
            Handler::HfsPlus => HandlerView::Own(FormatId::HfsPlus),
            Handler::Apfs => HandlerView::Own(FormatId::Apfs),
            Handler::Dmg => HandlerView::Own(FormatId::Dmg),
            Handler::Wpress => HandlerView::Own(FormatId::Wpress),
            Handler::Arj => HandlerView::Own(FormatId::Arj),
            Handler::Zoo => HandlerView::Own(FormatId::Zoo),
            Handler::Lbr => HandlerView::Own(FormatId::Lbr),
            Handler::Crunch => HandlerView::Own(FormatId::Crunch),
            Handler::Arc => HandlerView::Own(FormatId::Arc),
            Handler::Squeeze => HandlerView::Own(FormatId::Squeeze),
            Handler::BinHex => HandlerView::Own(FormatId::BinHex),
            Handler::MacBinary => HandlerView::Own(FormatId::MacBinary),
            Handler::AppleSingle => HandlerView::Own(FormatId::AppleSingle),
            Handler::CompactPro => HandlerView::Own(FormatId::CompactPro),
            Handler::PackIt => HandlerView::Own(FormatId::PackIt),
            Handler::StuffIt5 => HandlerView::Own(FormatId::StuffIt5),
            Handler::StuffIt => HandlerView::Own(FormatId::StuffIt),
            Handler::StuffItX => HandlerView::Own(FormatId::StuffItX),
            Handler::Alz => HandlerView::Own(FormatId::Alz),
            Handler::Nsis => HandlerView::Own(FormatId::Nsis),
            Handler::PowerPacker => HandlerView::Own(FormatId::PowerPacker),
            Handler::Lzx => HandlerView::Own(FormatId::Lzx),
            Handler::Dms => HandlerView::Own(FormatId::Dms),
        }
    }
}

/// The format of a handler.
pub open spec fn id_of(h: HandlerView) -> FormatId {
    match h {
        HandlerView::Bundle(_, f) => f,
        HandlerView::Own(f) => f,
    }
}

/// How sure a handler is.
pub open spec fn probe_of(h: HandlerView, header: Seq<u8>, name: Option<Seq<char>>) -> Confidence {
    match h {
        HandlerView::Bundle(ext, _) => archive::magic_when(bundle::is_bundle(ext, header, name)),
        HandlerView::Own(FormatId::Crx) => CrxHandler.spec_probe(header, name),
        HandlerView::Own(FormatId::Conda) => CondaHandler.spec_probe(header, name),
        HandlerView::Own(FormatId::Zip) => ZipHandler.spec_probe(header, name),
        HandlerView::Own(FormatId::Cpio) => CpioHandler.spec_probe(header, name),
        HandlerView::Own(FormatId::SevenZ) => SevenZHandler.spec_probe(header, name),
        HandlerView::Own(FormatId::Rar) => RarHandler.spec_probe(header, name),
        HandlerView::Own(FormatId::Tar) => TarHandler.spec_probe(header, name),
        HandlerView::Own(FormatId::Cab) => CabHandler.spec_probe(header, name),
        HandlerView::Own(FormatId::Deb) => DebHandler.spec_probe(header, name),
        HandlerView::Own(FormatId::Ar) => ArHandler.spec_probe(header, name),
        HandlerView::Own(FormatId::Rpm) => RpmHandler.spec_probe(header, name),
        HandlerView::Own(FormatId::Xar) => XarHandler.spec_probe(header, name),
        HandlerView::Own(FormatId::Msi) => MsiHandler.spec_probe(header, name),
        HandlerView::Own(FormatId::Iso) => IsoHandler.spec_probe(header, name),
        HandlerView::Own(FormatId::Squashfs) => SquashfsHandler.spec_probe(header, name),
        HandlerView::Own(FormatId::AppImage) => AppImageHandler.spec_probe(header, name),
        HandlerView::Own(FormatId::Wim) => WimHandler.spec_probe(header, name),
        HandlerView::Own(FormatId::Sfx) => SfxHandler.spec_probe(header, name),
        HandlerView::Own(FormatId::Warc) => WarcHandler.spec_probe(header, name),
        HandlerView::Own(FormatId::HfsPlus) => HfsPlusHandler.spec_probe(header, name),
        HandlerView::Own(FormatId::Apfs) => ApfsHandler.spec_probe(header, name),
        HandlerView::Own(FormatId::Dmg) => DmgHandler.spec_probe(header, name),
        HandlerView::Own(FormatId::Wpress) => WpressHandler.spec_probe(header, name),
        HandlerView::Own(FormatId::Arj) => ArjHandler.spec_probe(header, name),
        HandlerView::Own(FormatId::Zoo) => ZooHandler.spec_probe(header, name),
        HandlerView::Own(FormatId::Lbr) => LbrHandler.spec_probe(header, name),
        HandlerView::Own(FormatId::Crunch) => CrunchHandler.spec_probe(header, name),
        HandlerView::Own(FormatId::Arc) => ArcHandler.spec_probe(header, name),
        HandlerView::Own(FormatId::Squeeze) => SqueezeHandler.spec_probe(header, name),
        HandlerView::Own(FormatId::BinHex) => BinHexHandler.spec_probe(header, name),
        HandlerView::Own(FormatId::MacBinary) => MacBinaryHandler.spec_probe(header, name),
        HandlerView::Own(FormatId::AppleSingle) => AppleSingleHandler.spec_probe(header, name),
        HandlerView::Own(FormatId::CompactPro) => CompactProHandler.spec_probe(header, name),
        HandlerView::Own(FormatId::PackIt) => PackItHandler.spec_probe(header, name),
        HandlerView::Own(FormatId::StuffIt5) => StuffIt5Handler.spec_probe(header, name),
        HandlerView::Own(FormatId::StuffIt) => StuffItHandler.spec_probe(header, name),
        HandlerView::Own(FormatId::StuffItX) => StuffItXHandler.spec_probe(header, name),
        HandlerView::Own(FormatId::Alz) => AlzHandler.spec_probe(header, name),
        HandlerView::Own(FormatId::Nsis) => NsisHandler.spec_probe(header, name),
        HandlerView::Own(FormatId::PowerPacker) => PowerPackerHandler.spec_probe(header, name),
        HandlerView::Own(FormatId::Lzx) => LzxHandler.spec_probe(header, name),
        HandlerView::Own(FormatId::Dms) => DmsHandler.spec_probe(header, name),
        _ => Confidence(0),
    }
}

impl FormatHandler for Handler {
    open spec fn spec_id(&self) -> FormatId {
        id_of(self@)
    }

    open spec fn spec_probe(&self, header: Seq<u8>, name: Option<Seq<char>>) -> Confidence {
        probe_of(self@, header, name)
    }

    fn id(&self) -> (r: FormatId) {
        match self {
            Handler::Bundle(h) => h.id(),
            Handler::Crx => FormatId::Crx,
            Handler::Conda => FormatId::Conda,
            Handler::Zip => FormatId::Zip,
            Handler::Cpio => FormatId::Cpio,
            Handler::SevenZ => FormatId::SevenZ,
            Handler::Rar => FormatId::Rar,
            Handler::Tar => FormatId::Tar,
            Handler::Cab => FormatId::Cab,
            Handler::Deb => FormatId::Deb,
            Handler::Ar => FormatId::Ar,
            Handler::Rpm => FormatId::Rpm,
            Handler::Xar => FormatId::Xar,
            Handler::Msi => FormatId::Msi,
            Handler::Iso => FormatId::Iso,
            Handler::Squashfs => FormatId::Squashfs,
            Handler::AppImage => FormatId::AppImage,
            Handler::Wim => FormatId::Wim,
            Handler::Sfx => FormatId::Sfx,
            Handler::Warc => FormatId::Warc,
            Handler::HfsPlus => FormatId::HfsPlus,
            Handler::Apfs => FormatId::Apfs,
            Handler::Dmg => FormatId::Dmg,
            Handler::Wpress => FormatId::Wpress,
            Handler::Arj => FormatId::Arj,
            Handler::Zoo => FormatId::Zoo,
            Handler::Lbr => FormatId::Lbr,
            Handler::Crunch => FormatId::Crunch,
            Handler::Arc => FormatId::Arc,
            Handler::Squeeze => FormatId::Squeeze,
            Handler::BinHex => FormatId::BinHex,
            Handler::MacBinary => FormatId::MacBinary,
            Handler::AppleSingle => FormatId::AppleSingle,
            Handler::CompactPro => FormatId::CompactPro,
            Handler::PackIt => FormatId::PackIt,
            Handler::StuffIt5 => FormatId::StuffIt5,
            Handler::StuffIt => FormatId::StuffIt,
            Handler::StuffItX => FormatId::StuffItX,
            Handler::Alz => FormatId::Alz,
            Handler::Nsis => FormatId::Nsis,
            Handler::PowerPacker => FormatId::PowerPacker,
            Handler::Lzx => FormatId::Lzx,
            Handler::Dms => FormatId::Dms,
        }
    }

    fn probe(&self, header: &[u8], name: Option<&str>) -> (r: Confidence) {
        match self {
            Handler::Bundle(h) => h.probe(header, name),
            Handler::Crx => CrxHandler.probe(header, name),
            Handler::Conda => CondaHandler.probe(header, name),
            Handler::Zip => ZipHandler.probe(header, name),
            Handler::Cpio => CpioHandler.probe(header, name),
            Handler::SevenZ => SevenZHandler.probe(header, name),
            Handler::Rar => RarHandler.probe(header, name),
            Handler::Tar => TarHandler.probe(header, name),
            Handler::Cab => CabHandler.probe(header, name),
            Handler::Deb => DebHandler.probe(header, name),
            Handler::Ar => ArHandler.probe(header, name),
            Handler::Rpm => RpmHandler.probe(header, name),
            Handler::Xar => XarHandler.probe(header, name),
            Handler::Msi => MsiHandler.probe(header, name),
            Handler::Iso => IsoHandler.probe(header, name),
            Handler::Squashfs => SquashfsHandler.probe(header, name),
            Handler::AppImage => AppImageHandler.probe(header, name),
            Handler::Wim => WimHandler.probe(header, name),
            Handler::Sfx => SfxHandler.probe(header, name),
            Handler::Warc => WarcHandler.probe(header, name),
            Handler::HfsPlus => HfsPlusHandler.probe(header, name),
            Handler::Apfs => ApfsHandler.probe(header, name),
            Handler::Dmg => DmgHandler.probe(header, name),
            Handler::Wpress => WpressHandler.probe(header, name),
            Handler::Arj => ArjHandler.probe(header, name),
            Handler::Zoo => ZooHandler.probe(header, name),
            Handler::Lbr => LbrHandler.probe(header, name),
            Handler::Crunch => CrunchHandler.probe(header, name),
            Handler::Arc => ArcHandler.probe(header, name),
            Handler::Squeeze => SqueezeHandler.probe(header, name),
            Handler::BinHex => BinHexHandler.probe(header, name),
            Handler::MacBinary => MacBinaryHandler.probe(header, name),
            Handler::AppleSingle => AppleSingleHandler.probe(header, name),
            Handler::CompactPro => CompactProHandler.probe(header, name),
            Handler::PackIt => PackItHandler.probe(header, name),
            Handler::StuffIt5 => StuffIt5Handler.probe(header, name),
            Handler::StuffIt => StuffItHandler.probe(header, name),
            Handler::StuffItX => StuffItXHandler.probe(header, name),
            Handler::Alz => AlzHandler.probe(header, name),
            Handler::Nsis => NsisHandler.probe(header, name),
            Handler::PowerPacker => PowerPackerHandler.probe(header, name),
            Handler::Lzx => LzxHandler.probe(header, name),
            Handler::Dms => DmsHandler.probe(header, name),
        }
    }
}

/// The handlers of zip archives under other names.
pub open spec fn bundle_handlers() -> Seq<HandlerView> {
    bundle::all_bundles().map_values(|b: (Seq<char>, FormatId)| HandlerView::Bundle(b.0, b.1))
}

/// The other handlers, in order. Handlers that can be equally sure of one file
/// stand with the narrower one first: Conda packages before zip archives, Debian
/// packages before `ar` archives.
pub open spec fn own_handlers() -> Seq<HandlerView> {
    seq![
        HandlerView::Own(FormatId::Crx),
        HandlerView::Own(FormatId::Conda),
        HandlerView::Own(FormatId::Zip),
        HandlerView::Own(FormatId::Cpio),
        HandlerView::Own(FormatId::SevenZ),
        HandlerView::Own(FormatId::Rar),
        HandlerView::Own(FormatId::Tar),
        HandlerView::Own(FormatId::Cab),
        HandlerView::Own(FormatId::Deb),
        HandlerView::Own(FormatId::Ar),
        HandlerView::Own(FormatId::Rpm),
        HandlerView::Own(FormatId::Xar),
        HandlerView::Own(FormatId::Msi),
        HandlerView::Own(FormatId::Iso),
        HandlerView::Own(FormatId::Squashfs),
        HandlerView::Own(FormatId::AppImage),
        HandlerView::Own(FormatId::Wim),
        HandlerView::Own(FormatId::Sfx),
        HandlerView::Own(FormatId::Warc),
        HandlerView::Own(FormatId::HfsPlus),
        HandlerView::Own(FormatId::Apfs),
        HandlerView::Own(FormatId::Dmg),
        HandlerView::Own(FormatId::Wpress),
        HandlerView::Own(FormatId::Arj),
        HandlerView::Own(FormatId::Zoo),
        HandlerView::Own(FormatId::Lbr),
        HandlerView::Own(FormatId::Crunch),
        HandlerView::Own(FormatId::Arc),
        HandlerView::Own(FormatId::Squeeze),
        HandlerView::Own(FormatId::BinHex),
        HandlerView::Own(FormatId::MacBinary),
        HandlerView::Own(FormatId::AppleSingle),
        HandlerView::Own(FormatId::CompactPro),
        HandlerView::Own(FormatId::PackIt),
        HandlerView::Own(FormatId::StuffIt5),
        HandlerView::Own(FormatId::StuffIt),
        HandlerView::Own(FormatId::StuffItX),
        HandlerView::Own(FormatId::Alz),
        HandlerView::Own(FormatId::Nsis),
        HandlerView::Own(FormatId::PowerPacker),
        HandlerView::Own(FormatId::Lzx),
        HandlerView::Own(FormatId::Dms),
    ]
}

/// All handlers, in order of precedence.
pub open spec fn registered() -> Seq<HandlerView> {
    bundle_handlers() + own_handlers()
}

/// The handlers of a list as their models.
pub open spec fn handler_views(v: Seq<Handler>) -> Seq<HandlerView> {
    v.map_values(|h: Handler| h@)
}

/// All handlers, in order of precedence: of two that are equally sure the first
/// counts.
pub fn registry() -> (r: Vec<Handler>)
    ensures
        handler_views(r@) == registered(),
{
    let mut v: Vec<Handler> = Vec::new();
    let exts = all_zip_bundles();
    let mut i: usize = 0;
    assert(handler_views(v@) =~= bundle_handlers().take(0));
    while i < exts.len()
        invariant
            i <= exts.len(),
            bundle::bundle_views(exts@) == bundle::all_bundles(),
            handler_views(v@) == bundle_handlers().take(i as int),
        decreases exts.len() - i,
    {
        let (ext, format) = exts[i];
        assert(bundle::bundle_views(exts@)[i as int] == (ext@, format));
        let ghost before = v@;
        let h = Handler::Bundle(ZipBundleHandler::new(ext, format));
        v.push(h);
        i = i + 1;
        assert(handler_views(v@) =~= handler_views(before).push(h@));
        assert(handler_views(v@) =~= bundle_handlers().take(i as int));
    }
    proof {
        assert(bundle::bundle_views(exts@).len() == exts@.len());
        assert(bundle_handlers().take(i as int) =~= bundle_handlers());
    }
    let ghost before = v@;
    v.push(Handler::Crx);
    v.push(Handler::Conda);
    v.push(Handler::Zip);
    v.push(Handler::Cpio);
    v.push(Handler::SevenZ);
    v.push(Handler::Rar);
    v.push(Handler::Tar);
    v.push(Handler::Cab);
    v.push(Handler::Deb);
    v.push(Handler::Ar);
    v.push(Handler::Rpm);
    v.push(Handler::Xar);
    v.push(Handler::Msi);
    v.push(Handler::Iso);
    v.push(Handler::Squashfs);
    v.push(Handler::AppImage);
    v.push(Handler::Wim);
    v.push(Handler::Sfx);
    v.push(Handler::Warc);
    v.push(Handler::HfsPlus);
    v.push(Handler::Apfs);
    v.push(Handler::Dmg);
    v.push(Handler::Wpress);
    v.push(Handler::Arj);
    v.push(Handler::Zoo);
    v.push(Handler::Lbr);
    v.push(Handler::Crunch);
    v.push(Handler::Arc);
    v.push(Handler::Squeeze);
    v.push(Handler::BinHex);
    v.push(Handler::MacBinary);
    v.push(Handler::AppleSingle);
    v.push(Handler::CompactPro);
    v.push(Handler::PackIt);
    v.push(Handler::StuffIt5);
    v.push(Handler::StuffIt);
    v.push(Handler::StuffItX);
    v.push(Handler::Alz);
    v.push(Handler::Nsis);
    v.push(Handler::PowerPacker);
    v.push(Handler::Lzx);
    v.push(Handler::Dms);
    assert(handler_views(v@) =~= handler_views(before) + own_handlers());
    v
}


/// The first of the surest among the first `n` handlers; none where none is sure
/// at all.
pub open spec fn best_among(hs: Seq<HandlerView>, header: Seq<u8>, name: Option<Seq<char>>, n: int) -> Option<int>
    decreases n,
{
    if n <= 0 {
        None
    } else {
        let before = best_among(hs, header, name, n - 1);
        let c = probe_of(hs[n - 1], header, name).0;
        if c > 0 && (before is None || c > probe_of(hs[before->0], header, name).0) {
            Some(n - 1)
        } else {
            before
        }
    }
}

/// The first of the surest handlers.
pub fn choose_handler(handlers: &Vec<Handler>, header: &[u8], name: Option<&str>) -> (r: Option<usize>)
    ensures
        match r {
            Some(i) => i < handlers.len() && best_among(
                handler_views(handlers@),
                header@,
                text::opt_text(name),
                handlers.len() as int,
            ) == Some(i as int),
            None => best_among(handler_views(handlers@), header@, text::opt_text(name), handlers.len() as int) is None,
        },
{
    let ghost hs = handler_views(handlers@);
    let ghost called = text::opt_text(name);
    let mut best: Option<usize> = None;
    let mut sure: u8 = 0;
    let mut i: usize = 0;
    while i < handlers.len()
        invariant
            i <= handlers.len(),
            hs == handler_views(handlers@),
            called == text::opt_text(name),
            match best {
                Some(k) => k < i && best_among(hs, header@, called, i as int) == Some(k as int) && sure == probe_of(
                    hs[k as int],
                    header@,
                    called,
                ).0,
                None => best_among(hs, header@, called, i as int) is None && sure == 0,
            },
        decreases handlers.len() - i,
    {
        assert(hs[i as int] == handlers@[i as int]@);
        let c: Confidence = handlers[i].probe(header, name);
        if c.0 > 0 && (best.is_none() || c.0 > sure) {
            best = Some(i);
            sure = c.0;
        }
        i = i + 1;
    }
    best
}

/// The handler that is chosen is as sure as any, surer than all before it, and
/// sure at all; none is chosen only where none is sure at all.
pub proof fn chosen_is_first_of_surest(hs: Seq<HandlerView>, header: Seq<u8>, name: Option<Seq<char>>, n: int)
    requires
        0 <= n <= hs.len(),
    ensures
        match best_among(hs, header, name, n) {
            Some(i) => {
                &&& 0 <= i < n
                &&& probe_of(hs[i], header, name).0 > 0
                &&& forall|j: int| 0 <= j < n ==> probe_of(#[trigger] hs[j], header, name).0 <= probe_of(hs[i], header, name).0
                &&& forall|j: int| 0 <= j < i ==> probe_of(#[trigger] hs[j], header, name).0 < probe_of(hs[i], header, name).0
            },
            None => forall|j: int| 0 <= j < n ==> probe_of(#[trigger] hs[j], header, name).0 == 0,
        },
    decreases n,
{
    if n > 0 {
        chosen_is_first_of_surest(hs, header, name, n - 1);
    }
}

/// No handler is surer than sure.
pub proof fn sureness_is_bounded(h: HandlerView, header: Seq<u8>, name: Option<Seq<char>>)
    ensures
        probe_of(h, header, name).0 <= 100,
{
}

/// A handler that is fully sure is chosen, or one before it.
proof fn sure_handler_bounds_choice(header: Seq<u8>, name: Option<Seq<char>>, k: int)
    requires
        0 <= k < registered().len(),
        probe_of(registered()[k], header, name) == Confidence(100),
    ensures
        best_among(registered(), header, name, registered().len() as int) matches Some(i) && 0 <= i <= k && probe_of(
            registered()[i],
            header,
            name,
        ) == Confidence(100),
{
    chosen_is_first_of_surest(registered(), header, name, registered().len() as int);
    let i = best_among(registered(), header, name, registered().len() as int)->0;
    sureness_is_bounded(registered()[i], header, name);
}

/// A zip archive whose name ends like one of the formats that are zip archives
/// under another name is never opened as a plain zip archive.
pub proof fn bundles_precede_zip(header: Seq<u8>, name: Option<Seq<char>>, k: int)
    requires
        0 <= k < bundle::all_bundles().len(),
        bundle::is_bundle(bundle::all_bundles()[k].0, header, name),
    ensures
        best_among(registered(), header, name, registered().len() as int) matches Some(i) && 0 <= i <= k && registered()[i]
            is Bundle,
{
    assert(registered()[k] == HandlerView::Bundle(bundle::all_bundles()[k].0, bundle::all_bundles()[k].1));
    sure_handler_bounds_choice(header, name, k);
}

/// A Debian package is never opened as a plain `ar` archive.
pub proof fn packages_precede_archives(header: Seq<u8>, name: Option<Seq<char>>)
    requires
        deb::shows_deb(header),
    ensures
        best_among(registered(), header, name, registered().len() as int) matches Some(i) && 0 <= i < registered().len()
            && registered()[i] != HandlerView::Own(FormatId::Ar),
{
    let at = bundle::all_bundles().len() + 8;
    assert(own_handlers()[8] == HandlerView::Own(FormatId::Deb));
    assert(registered()[at as int] == HandlerView::Own(FormatId::Deb));
    sure_handler_bounds_choice(header, name, at as int);
    let i = best_among(registered(), header, name, registered().len() as int)->0;
    if i >= bundle::all_bundles().len() {
        assert(registered()[i] == own_handlers()[i - bundle::all_bundles().len()]);
    }
}

/// The beginning of a file never shows an installer: its handler is never chosen.
pub proof fn installers_are_not_chosen(header: Seq<u8>, name: Option<Seq<char>>)
    ensures
        best_among(registered(), header, name, registered().len() as int) matches Some(i) ==> registered()[i]
            != HandlerView::Own(FormatId::Nsis),
{
    chosen_is_first_of_surest(registered(), header, name, registered().len() as int);
}

/// The content never shows a compressor that leaves no mark in it, and the name
/// tells no other.
pub proof fn unmarked_compressors_are_named(header: Seq<u8>, name: Seq<char>)
    ensures
        compressor_of(header) != Some(Compressor::Brotli),
        compressor_of(header) != Some(Compressor::Lzma),
        told_from(name, compressor_exts(), 0) matches Some(c) ==> c == Compressor::Brotli || c == Compressor::Lzma,
{
    told_is_unmarked(name, 0);
}

proof fn told_is_unmarked(name: Seq<char>, i: int)
    requires
        0 <= i <= compressor_exts().len(),
    ensures
        told_from(name, compressor_exts(), i) matches Some(c) ==> c == Compressor::Brotli || c == Compressor::Lzma,
    decreases compressor_exts().len() - i,
{
    if i < compressor_exts().len() {
        told_is_unmarked(name, i + 1);
    }
}

/// What is to be done with a file.
#[derive(Debug)]
pub enum Route {
    /// Open it with this handler.
    Open(Handler),
    /// Decode it first.
    Unpack(Compressor),
    /// Open it as an installer.
    Installer,
}

/// A `Route` as its model.
pub enum RouteView {
    Open(HandlerView),
    Unpack(Compressor),
    Installer,
}

impl View for Route {
    type V = RouteView;

    open spec fn view(&self) -> RouteView {
        match *self {
            Route::Open(h) => RouteView::Open(h@),
            Route::Unpack(c) => RouteView::Unpack(c),
            Route::Installer => RouteView::Installer,
        }
    }
}

/// The bytes of a file that handlers look at.
pub const HEADER_LEN: usize = 512;

/// The beginning of a file that handlers look at.
pub open spec fn header_of(data: Seq<u8>) -> Seq<u8> {
    data.take(if data.len() < HEADER_LEN { data.len() as int } else { HEADER_LEN as int })
}

/// A name in lower case; nothing where there is none.
pub open spec fn lower_name(name: Option<Seq<char>>) -> Seq<char> {
    match name {
        Some(n) => text::lower_chars(n),
        None => Seq::empty(),
    }
}

/// The compressor that the content shows or, failing that, the name tells.
pub open spec fn outer_compressor(data: Seq<u8>, name: Option<Seq<char>>) -> Option<Compressor> {
    match compressor_of(header_of(data)) {
        Some(c) => Some(c),
        None => told_from(lower_name(name), compressor_exts(), 0),
    }
}

/// What is to be done with a file of that name and content; nothing, if its format
/// is unknown. Web archives and disk images come before compression, for either
/// may begin like a compressed file. Installers come before the handlers, which
/// cannot see them, and signatures that lie deep in a file come after them.
pub open spec fn route_of(name: Option<Seq<char>>, data: Seq<u8>) -> Option<RouteView> {
    if text::name_has_suffix(name, ".warc"@) || text::name_has_suffix(name, ".warc.gz"@) {
        Some(RouteView::Open(HandlerView::Own(FormatId::Warc)))
    } else if text::name_has_suffix(name, ".dmg"@) || dmg::file_koly(data) is Some {
        Some(RouteView::Open(HandlerView::Own(FormatId::Dmg)))
    } else if outer_compressor(data, name) is Some {
        Some(RouteView::Unpack(outer_compressor(data, name)->0))
    } else if bytes::stands_at(header_of(data), 0, MZ_MAGIC@) && nsis::is_nsis(data) {
        Some(RouteView::Installer)
    } else {
        match best_among(registered(), header_of(data), name, registered().len() as int) {
            Some(i) => Some(RouteView::Open(registered()[i])),
            None => if iso::is_marked(data) {
                Some(RouteView::Open(HandlerView::Own(FormatId::Iso)))
            } else if hfsplus::is_signed(data) {
                Some(RouteView::Open(HandlerView::Own(FormatId::HfsPlus)))
            } else {
                None
            },
        }
    }
}

fn lowered(name: Option<&str>) -> (r: String)
    ensures
        r@ == lower_name(text::opt_text(name)),
{
    let chars: Vec<char> = match name {
        Some(n) => chars_of(n),
        None => Vec::new(),
    };
    let mut lower: Vec<char> = Vec::new();
    let mut i: usize = 0;
    while i < chars.len()
        invariant
            i <= chars.len(),
            lower.len() == i,
            forall|k: int| 0 <= k < i ==> #[trigger] lower@[k] == text::lower_chars(chars@)[k],
        decreases chars.len() - i,
    {
        lower.push(to_lower_char(chars[i]));
        i = i + 1;
    }
    assert(lower@ =~= text::lower_chars(chars@));
    assert(lower@ =~= lower_name(text::opt_text(name)));
    string_of(lower.as_slice())
}

/// What is to be done with a file of that name and content.
pub fn route(name: Option<&str>, data: &[u8]) -> (r: Result<Route, Error>)
    ensures
        match r {
            Ok(way) => route_of(text::opt_text(name), data@) == Some(way@),
            Err(e) => route_of(text::opt_text(name), data@) is None && e@ == ErrorView::UnknownFormat,
        },
{
    if name_ends(name, ".warc") || name_ends(name, ".warc.gz") {
        return Ok(Route::Open(Handler::Warc));
    }
    if name_ends(name, ".dmg") || has_koly_trailer(data) {
        return Ok(Route::Open(Handler::Dmg));
    }
    let header = archive::read_up_to(data, HEADER_LEN);
    assert(header@ =~= header_of(data@));
    if let Some(c) = detect_compressor(header.as_slice()) {
        return Ok(Route::Unpack(c));
    }
    let lower = lowered(name);
    if let Some(c) = detect_compressor_by_ext(lower.as_str()) {
        return Ok(Route::Unpack(c));
    }
    if starts_with(header.as_slice(), &MZ_MAGIC) && recognize_nsis(data) {
        return Ok(Route::Installer);
    }
    let handlers = registry();
    proof {
        assert(handler_views(handlers@).len() == handlers@.len());
    }
    match choose_handler(&handlers, header.as_slice(), name) {
        Some(i) => {
            assert(handler_views(handlers@)[i as int] == handlers@[i as int]@);
            Ok(Route::Open(handlers[i]))
        },
        None => {
            if has_iso_signature(data) {
                return Ok(Route::Open(Handler::Iso));
            }
            if has_hfsplus_signature(data) {
                return Ok(Route::Open(Handler::HfsPlus));
            }
            Err(Error::UnknownFormat)
        },
    }
}

/// What was found in a compressed file.
#[derive(Debug)]
pub enum Unpacked {
    Tar(TempBackedReader<TarReader>),
    Cpio(TempBackedReader<CpioReader>),
    /// A file like any other.
    Single(StoredReader),
}

/// The entry of a compressed file that is no archive.
pub open spec fn single_entry(path: Seq<char>, size: nat, modified: Option<Timestamp>) -> EntryView {
    EntryView {
        path_raw: utf8::encode_utf8(inner_name(path)),
        path: inner_name(path),
        kind: KindView::File,
        size: size as u64,
        mode: None,
        is_encrypted: false,
        modified: match modified {
            Some(t) => Some(Stamp::Instant(t)),
            None => None,
        },
        is_resource_fork: false,
    }
}

/// Make a reader of a compressed file that is no archive: one entry.
pub fn open_single_file(path: &str, decoded: Vec<u8>, modified: Option<Timestamp>) -> (r: StoredReader)
    ensures
        archive::presents(
            &r,
            FormatId::Raw,
            seq![single_entry(path@, decoded@.len(), modified)],
            seq![Ok::<Seq<u8>, ErrorView>(decoded@)],
        ),
{
    let name = stem_without_compressor_ext(path);
    let mut entries: Vec<Entry> = Vec::new();
    let mut bodies: Vec<Body> = Vec::new();
    entries.push(
        Entry {
            path_raw: copy_bytes(name.as_str().as_bytes()),
            path: name,
            kind: EntryKind::File,
            size: decoded.len() as u64,
            mode: None,
            is_encrypted: false,
            modified: match modified {
                Some(t) => Some(Stamp::Instant(t)),
                None => None,
            },
            is_resource_fork: false,
        },
    );
    bodies.push(Body::At { start: 0, len: decoded.len() });
    proof {
        assert(archive::views(entries@) =~= seq![single_entry(path@, decoded@.len(), modified)]);
        assert(decoded@.subrange(0, decoded@.len() as int) =~= decoded@);
        assert(stored::bodies_in(decoded@, bodies@) =~= seq![Ok::<Seq<u8>, ErrorView>(decoded@)]);
    }
    StoredReader::new(FormatId::Raw, decoded, entries, bodies)
}

/// What opening the content of a compressed file comes to. Only tape archives and
/// cpio archives are opened in it, by their marks: any other archive stays one
/// entry.
pub open spec fn opens_unpacked(
    r: Result<Unpacked, Error>,
    path: Seq<char>,
    packed: Seq<u8>,
    comp: Compressor,
    decoded: Seq<u8>,
    label: Option<Seq<char>>,
) -> bool {
    if tar::shows_tar(decoded) {
        match tar::opened(decoded, Backing::File, label) {
            Err(e) => error::fails_with(r, e),
            Ok(shown) => r matches Ok(Unpacked::Tar(reader)) && archive::presents(
                &reader,
                FormatId::Tar,
                shown.0,
                shown.1,
            ),
        }
    } else if decoded.len() >= MAGIC_LEN && is_cpio_magic(decoded.take(MAGIC_LEN as int)) {
        match cpio::archive_records(decoded) {
            Err(e) => error::fails_with(r, e),
            Ok(records) => r matches Ok(Unpacked::Cpio(reader)) && reader.spec_format() == FormatId::Cpio && shows_same(
                &reader,
                &reader.spec_inner(),
            ) && reader.spec_inner().shows(decoded, records, label),
        }
    } else {
        r matches Ok(Unpacked::Single(reader)) && archive::presents(
            &reader,
            FormatId::Raw,
            seq![single_entry(path, decoded.len(), if comp == Compressor::Gzip { gz_time(packed) } else { None })],
            seq![Ok::<Seq<u8>, ErrorView>(decoded)],
        )
    }
}

/// Open the content of a compressed file.
pub fn open_unpacked(path: &str, packed: &[u8], comp: Compressor, decoded: Vec<u8>, opts: &OpenOptions) -> (r: Result<
    Unpacked,
    Error,
>)
    ensures
        opens_unpacked(r, path@, packed@, comp, decoded@, text::opt_string(opts.encoding_override)),
{
    if has_tar_magic(decoded.as_slice()) {
        let src = Source::Seekable { inner: decoded, path: Some(String::new()) };
        return match TarHandler.open(src, opts) {
            Err(e) => Err(e),
            Ok(inner) => Ok(Unpacked::Tar(TempBackedReader::new(inner))),
        };
    }
    if decoded.len() >= MAGIC_LEN {
        let magic = archive::read_up_to(decoded.as_slice(), MAGIC_LEN);
        assert(magic@ =~= decoded@.take(MAGIC_LEN as int));
        if has_cpio_magic(magic.as_slice()) {
            let src = Source::Seekable { inner: decoded, path: Some(String::new()) };
            return match CpioHandler.open(src, opts) {
                Err(e) => Err(e),
                Ok(inner) => Ok(Unpacked::Cpio(TempBackedReader::new(inner))),
            };
        }
    }
    let modified = match comp {
        Compressor::Gzip => read_gz_mtime(packed),
        _ => None,
    };
    Ok(Unpacked::Single(open_single_file(path, decoded, modified)))
}

/// What a file came to.
#[derive(Debug)]
pub enum Opening {
    /// It is to be opened with this handler.
    Handler(Handler),
    /// What was found in a compressed file.
    Unpacked(Unpacked),
    /// It is packed with the LZW of `compress`, which is decoded elsewhere; the
    /// result goes to `open_unpacked`.
    Lzw,
}

/// The outcome of opening a file, as far as it can be opened here.
pub open spec fn opens_single(r: Result<Opening, Error>, path: Seq<char>, data: Seq<u8>, opts: &OpenOptions) -> bool {
    match route_of(paths::file_name(path), data) {
        None => error::fails_with(r, ErrorView::UnknownFormat),
        Some(RouteView::Open(h)) => r matches Ok(Opening::Handler(x)) && x@ == h,
        Some(RouteView::Unpack(Compressor::Lzc)) => r matches Ok(Opening::Lzw),
        Some(RouteView::Unpack(c)) => opens_decoded(r, path, data, c, decompress::decompressed(c, data), opts),
        Some(RouteView::Installer) => r matches Ok(Opening::Handler(x)) && x@ == HandlerView::Own(FormatId::Nsis),
    }
}

/// `r` is what was found in a compressed file, or why nothing was.
pub open spec fn hands_on(r: Result<Opening, Error>, inner: Result<Unpacked, Error>) -> bool {
    match inner {
        Ok(u) => r matches Ok(Opening::Unpacked(x)) && x == u,
        Err(e) => r matches Err(x) && x == e,
    }
}

/// The outcome of opening a compressed file that decodes to that.
pub open spec fn opens_decoded(
    r: Result<Opening, Error>,
    path: Seq<char>,
    data: Seq<u8>,
    comp: Compressor,
    decoded: Result<Seq<u8>, (IoKind, Seq<char>)>,
    opts: &OpenOptions,
) -> bool {
    match decoded {
        Err((kind, message)) => error::fails_with(r, ErrorView::Io { kind, message }),
        Ok(d) => exists|inner: Result<Unpacked, Error>|
            #[trigger] hands_on(r, inner) && opens_unpacked(
                inner,
                path,
                data,
                comp,
                d,
                text::opt_string(opts.encoding_override),
            ),
    }
}

/// Open a file of that path and content, or say which handler is to open it.
pub fn open_single(path: &str, data: Vec<u8>, opts: &OpenOptions) -> (r: Result<Opening, Error>)
    ensures
        opens_single(r, path@, data@, opts),
{
    let chars = chars_of(path);
    let found = path_file_name(chars.as_slice());
    let named: Option<String> = match &found {
        Some(n) => Some(string_of(n.as_slice())),
        None => None,
    };
    let name: Option<&str> = match &named {
        Some(s) => Some(s.as_str()),
        None => None,
    };
    assert(text::opt_text(name) == paths::file_name(path@));
    let way = match route(name, data.as_slice()) {
        Err(e) => {
            return Err(e);
        },
        Ok(way) => way,
    };
    match way {
        Route::Open(h) => Ok(Opening::Handler(h)),
        Route::Installer => Ok(Opening::Handler(Handler::Nsis)),
        Route::Unpack(Compressor::Lzc) => Ok(Opening::Lzw),
        Route::Unpack(c) => match decompressor(c, data.as_slice()) {
            Err(e) => Err(Error::Io(e)),
            Ok(decoded) => {
                let inner = open_unpacked(path, data.as_slice(), c, decoded, opts);
                let ghost opened = inner;
                let r: Result<Opening, Error> = match inner {
                    Ok(u) => Ok(Opening::Unpacked(u)),
                    Err(e) => Err(e),
                };
                assert(hands_on(r, opened));
                r
            },
        },
    }
}

/// How a path is to be opened.
#[derive(Debug, Clone, Copy, PartialEq, Eq, Structural)]
pub enum Plan {
    /// The volumes are joined and the whole is opened like a file.
    JoinVolumes,
    /// The volumes of a split zip archive have been joined: the whole is opened as
    /// a zip archive, though nothing in its beginning shows one.
    JoinedZip,
    /// The file is opened as it is.
    Direct,
}

/// How a path is to be opened: `volumes` are the numbered volumes that were found
/// beside a first one, and `split_zip` says that the volumes of a split zip archive
/// were found and joined.
pub open spec fn plan_of(path: Seq<char>, volumes: nat, split_zip: bool) -> Plan {
    if text::name_has_suffix(paths::file_name(path), ".001"@) && volumes > 1 {
        Plan::JoinVolumes
    } else if split_zip {
        Plan::JoinedZip
    } else {
        Plan::Direct
    }
}

/// Whether a path is that of the first of several numbered volumes.
pub fn is_first_volume(path: &str) -> (r: bool)
    ensures
        r == text::name_has_suffix(paths::file_name(path@), ".001"@),
{
    let chars = chars_of(path);
    match path_file_name(chars.as_slice()) {
        Some(n) => {
            let s = string_of(n.as_slice());
            name_ends(Some(s.as_str()), ".001")
        },
        None => false,
    }
}

/// How a path is to be opened.
pub fn plan(path: &str, volumes: usize, split_zip: bool) -> (r: Plan)
    ensures
        r == plan_of(path@, volumes as nat, split_zip),
{
    if is_first_volume(path) && volumes > 1 {
        Plan::JoinVolumes
    } else if split_zip {
        Plan::JoinedZip
    } else {
        Plan::Direct
    }
}

/// A web archive is never decoded as a whole, whatever its content looks like: the
/// bounds of its records would be lost.
pub proof fn web_archives_are_not_unpacked(name: Option<Seq<char>>, data: Seq<u8>)
    requires
        text::name_has_suffix(name, ".warc.gz"@) || text::name_has_suffix(name, ".warc"@),
    ensures
        route_of(name, data) == Some(RouteView::Open(HandlerView::Own(FormatId::Warc))),
{
}

/// A disk image is known by its trailer under any name but that of a web archive,
/// even where it begins like a compressed file.
pub proof fn disk_images_are_known_by_trailer(name: Option<Seq<char>>, data: Seq<u8>)
    requires
        dmg::file_koly(data) is Some,
        !text::name_has_suffix(name, ".warc"@),
        !text::name_has_suffix(name, ".warc.gz"@),
    ensures
        route_of(name, data) == Some(RouteView::Open(HandlerView::Own(FormatId::Dmg))),
{
}

proof fn mark_begins(mark: Seq<u8>, rest: Seq<u8>)
    ensures
        bytes::stands_at(mark + rest, 0, mark),
        forall|p: Seq<u8>| #[trigger] bytes::stands_at(mark + rest, 0, p) && p.len() > 0 && mark.len() > 0 ==> p[0] == mark[0],
        forall|p: Seq<u8>| #[trigger] bytes::stands_at(mark + rest, 0, p) && p.len() > 1 && mark.len() > 1 ==> p[1] == mark[1],
{
    let s = mark + rest;
    assert(s.subrange(0, mark.len() as int) =~= mark);
    assert forall|p: Seq<u8>| #[trigger] bytes::stands_at(s, 0, p) && p.len() > 0 && mark.len() > 0 implies p[0] == mark[0] by {
        assert(s.subrange(0, p.len() as int)[0] == s[0]);
    }
    assert forall|p: Seq<u8>| #[trigger] bytes::stands_at(s, 0, p) && p.len() > 1 && mark.len() > 1 implies p[1] == mark[1] by {
        assert(s.subrange(0, p.len() as int)[1] == s[1]);
    }
}

/// Compressed data is known by the bytes that it begins with, whatever follows them.
#[verifier::rlimit(40)]
pub proof fn compressors_are_known_by_their_marks(rest: Seq<u8>)
    ensures
        compressor_of(seq![0x1Fu8, 0x8B] + rest) == Some(Compressor::Gzip),
        compressor_of(seq![0x42u8, 0x5A, 0x68] + rest) == Some(Compressor::Bzip2),
        compressor_of(seq![0xFDu8, 0x37, 0x7A, 0x58, 0x5A, 0] + rest) == Some(Compressor::Xz),
        compressor_of(seq![0x28u8, 0xB5, 0x2F, 0xFD] + rest) == Some(Compressor::Zstd),
        compressor_of(seq![0x1Fu8, 0x9D] + rest) == Some(Compressor::Lzc),
        compressor_of(seq![0x04u8, 0x22, 0x4D, 0x18] + rest) == Some(Compressor::Lz4),
        compressor_of(seq![0xFFu8, 6, 0, 0, 0x73, 0x4E, 0x61, 0x50, 0x70, 0x59] + rest) == Some(Compressor::Snappy),
        compressor_of(seq![0x4Cu8, 0x5A, 0x49, 0x50, 1] + rest) == Some(Compressor::Lzip),
{
    assert(GZIP_MAGIC@ =~= seq![0x1Fu8, 0x8B]);
    assert(BZIP2_MAGIC@ =~= seq![0x42u8, 0x5A, 0x68]);
    assert(XZ_MAGIC@ =~= seq![0xFDu8, 0x37, 0x7A, 0x58, 0x5A, 0]);
    assert(ZSTD_MAGIC@ =~= seq![0x28u8, 0xB5, 0x2F, 0xFD]);
    assert(LZC_MAGIC@ =~= seq![0x1Fu8, 0x9D]);
    assert(LZ4_MAGIC@ =~= seq![0x04u8, 0x22, 0x4D, 0x18]);
    assert(SNAPPY_MAGIC@ =~= seq![0xFFu8, 6, 0, 0, 0x73, 0x4E, 0x61, 0x50, 0x70, 0x59]);
    assert(LZIP_MAGIC@ =~= seq![0x4Cu8, 0x5A, 0x49, 0x50, 1]);
    mark_begins(GZIP_MAGIC@, rest);
    mark_begins(BZIP2_MAGIC@, rest);
    mark_begins(XZ_MAGIC@, rest);
    mark_begins(ZSTD_MAGIC@, rest);
    mark_begins(LZC_MAGIC@, rest);
    mark_begins(LZ4_MAGIC@, rest);
    mark_begins(SNAPPY_MAGIC@, rest);
    mark_begins(LZIP_MAGIC@, rest);
}

proof fn ends_apart(stem: Seq<char>, end: Seq<char>, other: Seq<char>)
    requires
        end.len() >= 2,
        other.len() >= 2,
        end.last() != other.last() || end[end.len() - 2] != other[other.len() - 2],
    ensures
        !text::text_ends(stem + end, other),
{
    let s = stem + end;
    if text::text_ends(s, other) {
        let tail = s.skip(s.len() - other.len());
        assert(tail[other.len() - 1] == s[s.len() - 1]);
        assert(tail[other.len() - 2] == s[s.len() - 2]);
        assert(s[s.len() - 1] == end[end.len() - 1]);
        assert(s[s.len() - 2] == end[end.len() - 2]);
    }
}

#[verifier::rlimit(40)]
proof fn ending_is_cut(stem: Seq<char>, k: int, j: int)
    requires
        0 <= j <= k < compressor_exts().len(),
    ensures
        stem_from(stem + compressor_exts()[k].0, compressor_exts(), j) == stem,
    decreases k - j,
{
    let exts = compressor_exts();
    let name = stem + exts[k].0;
    reveal_strlit(".gz");
    reveal_strlit(".bz2");
    reveal_strlit(".xz");
    reveal_strlit(".zst");
    reveal_strlit(".Z");
    reveal_strlit(".lz4");
    reveal_strlit(".br");
    reveal_strlit(".sz");
    reveal_strlit(".lzma");
    reveal_strlit(".lz");
    if j < k {
        assert(exts[k].0.len() >= 2 && exts[j].0.len() >= 2);
        ends_apart(stem, exts[k].0, exts[j].0);
        ending_is_cut(stem, k, j + 1);
    } else {
        assert(name.skip(name.len() - exts[k].0.len()) =~= exts[k].0);
        assert(name.take(name.len() - exts[k].0.len()) =~= stem);
    }
}

/// What a compressed file holds is named as the file is, without the ending that tells the
/// compression; one in a directory, as one beside it.
#[verifier::rlimit(40)]
pub proof fn unpacked_names_lose_their_ending(parent: Seq<char>, stem: Seq<char>)
    requires
        stem.len() > 0,
        !stem.contains('/'),
    ensures
        inner_name(paths::joined(parent, stem + ".gz"@)) == stem,
        inner_name(paths::joined(parent, stem + ".bz2"@)) == stem,
        inner_name(paths::joined(parent, stem + ".xz"@)) == stem,
        inner_name(paths::joined(parent, stem + ".zst"@)) == stem,
        inner_name(paths::joined(parent, stem + ".Z"@)) == stem,
        inner_name(paths::joined(parent, stem + ".lz4"@)) == stem,
        inner_name(paths::joined(parent, stem + ".br"@)) == stem,
        inner_name(paths::joined(parent, stem + ".sz"@)) == stem,
        inner_name(paths::joined(parent, stem + ".lzma"@)) == stem,
        inner_name(paths::joined(parent, stem + ".lz"@)) == stem,
{
    let exts = compressor_exts();
    assert forall|k: int| 0 <= k < exts.len() implies inner_name(paths::joined(parent, stem + (#[trigger] exts[k]).0)) == stem by {
        ending_is_cut(stem, k, 0);
        ended_name_is_piece(stem, k);
        paths::joined_ends_with_name(parent, stem + exts[k].0);
    }
    assert(exts[0].0 == ".gz"@ && exts[1].0 == ".bz2"@ && exts[2].0 == ".xz"@ && exts[3].0 == ".zst"@ && exts[4].0 == ".Z"@);
    assert(exts[5].0 == ".lz4"@ && exts[6].0 == ".br"@ && exts[7].0 == ".sz"@ && exts[8].0 == ".lzma"@ && exts[9].0 == ".lz"@);
}

#[verifier::rlimit(40)]
proof fn ended_name_is_piece(stem: Seq<char>, k: int)
    requires
        stem.len() > 0,
        !stem.contains('/'),
        0 <= k < compressor_exts().len(),
    ensures
        paths::is_segment(stem + compressor_exts()[k].0),
        stem + compressor_exts()[k].0 != seq!['.', '.'],
{
    let e = compressor_exts()[k].0;
    let name = stem + e;
    reveal_strlit(".gz");
    reveal_strlit(".bz2");
    reveal_strlit(".xz");
    reveal_strlit(".zst");
    reveal_strlit(".Z");
    reveal_strlit(".lz4");
    reveal_strlit(".br");
    reveal_strlit(".sz");
    reveal_strlit(".lzma");
    reveal_strlit(".lz");
    assert(e.len() >= 2);
    assert forall|i: int| 0 <= i < e.len() implies e[i] != '/' by {}
    if name.contains('/') {
        let i = choose|i: int| 0 <= i < name.len() && name[i] == '/';
        if i < stem.len() {
            assert(stem[i] == '/');
            assert(stem.contains('/'));
        } else {
            assert(e[i - stem.len()] == '/');
        }
    }
    assert(name.len() >= 3);
}

/// A piece of some content is read where it lies; one that the content is too short for is
/// cut where it ends, or refused where all of it is wanted.
pub proof fn pieces_are_read_where_they_lie(before: Seq<u8>, body: Seq<u8>, behind: Seq<u8>, more: int, what: Seq<char>)
    requires
        before.len() <= i64::MAX,
        more > 0,
    ensures
        piece(before + body + behind, before.len() as int, body.len() as int) == body,
        exact_piece(before + body + behind, before.len() as int, body.len() as int, what) == Ok::<Seq<u8>, ErrorView>(body),
        piece(before + body, before.len() as int, body.len() + more) == body,
        exact_piece(before + body, before.len() as int, body.len() + more, what) is Err,
{
    let all = before + body + behind;
    let n = before.len() as int;
    assert(all.subrange(n, n + body.len()) =~= body);
    let cut = before + body;
    assert(cut.subrange(n, cut.len() as int) =~= body);
    if body.len() == 0 {
        assert(body =~= Seq::<u8>::empty());
    }
}

/// The time of a gzip file is in its header, in seconds since 1970 behind the first four
/// bytes. 0 is none.
pub proof fn gzip_times_read_back(data: Seq<u8>, secs: int)
    requires
        0 <= secs <= u32::MAX,
        bytes::stands_at(data, 4, bytes::low_first(secs, 4)),
    ensures
        match gz_time(data) {
            Some(t) => secs != 0 && t.secs == secs && t.nanos == 0,
            None => secs == 0,
        },
{
    bytes::standing_numbers_are_read(data, 4, secs);
    bytes::low_first_has_length(secs, 4);
}

/// A file that begins with the mark of a format is that format's for sure, whatever it is
/// called and whatever follows.
#[verifier::rlimit(40)]
pub proof fn formats_are_known_by_their_marks(rest: Seq<u8>, name: Option<Seq<char>>)
    ensures
        probe_of(HandlerView::Own(FormatId::Zip), seq![0x50u8, 0x4B, 3, 4] + rest, name).0 == 100,
        probe_of(HandlerView::Own(FormatId::Rar), seq![0x52u8, 0x61, 0x72, 0x21, 0x1A, 7] + rest, name).0 == 100,
        probe_of(HandlerView::Own(FormatId::SevenZ), seq![0x37u8, 0x7A, 0xBC, 0xAF, 0x27, 0x1C] + rest, name).0 == 100,
        probe_of(HandlerView::Own(FormatId::Cab), seq![0x4Du8, 0x53, 0x43, 0x46] + rest, name).0 == 100,
        probe_of(HandlerView::Own(FormatId::Xar), seq![0x78u8, 0x61, 0x72, 0x21] + rest, name).0 == 100,
        probe_of(HandlerView::Own(FormatId::Rpm), seq![0xEDu8, 0xAB, 0xEE, 0xDB] + rest, name).0 == 100,
        probe_of(HandlerView::Own(FormatId::Crx), seq![0x43u8, 0x72, 0x32, 0x34] + rest, name).0 == 100,
        probe_of(HandlerView::Own(FormatId::Squashfs), seq![0x68u8, 0x73, 0x71, 0x73] + rest, name).0 == 100,
        probe_of(HandlerView::Own(FormatId::Cpio), seq![0x30u8, 0x37, 0x30, 0x37, 0x30, 0x31] + rest, name).0 == 100,
        probe_of(HandlerView::Own(FormatId::Cpio), seq![0x30u8, 0x37, 0x30, 0x37, 0x30, 0x37] + rest, name).0 == 100,
        probe_of(HandlerView::Own(FormatId::Ar), seq![0x21u8, 0x3C, 0x61, 0x72, 0x63, 0x68, 0x3E, 0x0A] + rest, name).0 == 100,
        probe_of(HandlerView::Own(FormatId::Wim), seq![0x4Du8, 0x53, 0x57, 0x49, 0x4D, 0, 0, 0] + rest, name).0 == 100,
        probe_of(HandlerView::Own(FormatId::Warc), seq![0x57u8, 0x41, 0x52, 0x43, 0x2F, 0x31, 0x2E] + rest, name).0 == 100,
{
    stands_first(ZIP_MAGIC@, seq![0x50u8, 0x4B, 3, 4], rest);
    stands_first(crate::format::rar::RAR_MAGIC@, seq![0x52u8, 0x61, 0x72, 0x21, 0x1A, 7], rest);
    stands_first(crate::format::sevenz::SEVENZ_MAGIC@, seq![0x37u8, 0x7A, 0xBC, 0xAF, 0x27, 0x1C], rest);
    stands_first(crate::format::cab::CAB_MAGIC@, seq![0x4Du8, 0x53, 0x43, 0x46], rest);
    stands_first(XAR_MAGIC@, seq![0x78u8, 0x61, 0x72, 0x21], rest);
    stands_first(crate::format::rpm::MAGIC@, seq![0xEDu8, 0xAB, 0xEE, 0xDB], rest);
    stands_first(crate::format::crx::MAGIC@, seq![0x43u8, 0x72, 0x32, 0x34], rest);
    stands_first(crate::format::squashfs::MAGIC@, seq![0x68u8, 0x73, 0x71, 0x73], rest);
    stands_first(MAGIC_NEWC@, seq![0x30u8, 0x37, 0x30, 0x37, 0x30, 0x31], rest);
    stands_first(MAGIC_ODC@, seq![0x30u8, 0x37, 0x30, 0x37, 0x30, 0x37], rest);
    stands_first(crate::format::ar::MAGIC@, seq![0x21u8, 0x3C, 0x61, 0x72, 0x63, 0x68, 0x3E, 0x0A], rest);
    stands_first(crate::format::wim::MAGIC@, seq![0x4Du8, 0x53, 0x57, 0x49, 0x4D, 0, 0, 0], rest);
    stands_first(crate::format::warc::WARC_MAGIC@, seq![0x57u8, 0x41, 0x52, 0x43, 0x2F, 0x31, 0x2E], rest);
}

proof fn stands_first(magic: Seq<u8>, mark: Seq<u8>, rest: Seq<u8>)
    requires
        magic =~= mark,
    ensures
        bytes::stands_at(mark + rest, 0, magic),
{
    assert((mark + rest).subrange(0, mark.len() as int) =~= mark);
}

/// A tar archive has its mark at byte 257, and an APFS container at byte 32.
pub proof fn some_marks_stand_further_on(header: Seq<u8>, name: Option<Seq<char>>)
    ensures
        header.len() >= 263 && header.subrange(257, 262) == seq![0x75u8, 0x73, 0x74, 0x61, 0x72] ==> probe_of(
            HandlerView::Own(FormatId::Tar),
            header,
            name,
        ).0 == 100,
        header.len() >= 36 && header.subrange(32, 36) == seq![0x4Eu8, 0x58, 0x53, 0x42] ==> probe_of(
            HandlerView::Own(FormatId::Apfs),
            header,
            name,
        ).0 == 100,
{
    assert(tar::MAGIC@ =~= seq![0x75u8, 0x73, 0x74, 0x61, 0x72]);
    assert(crate::format::apfs::APFS_MAGIC@ =~= seq![0x4Eu8, 0x58, 0x53, 0x42]);
}

/// A mark in the content is surer than an ending of the name, and either is surer than
/// nothing.
pub proof fn marks_are_surer_than_names()
    ensures
        archive::magic_when(true).0 > archive::extension_when(true).0,
        archive::extension_when(true).0 > archive::extension_when(false).0,
        archive::extension_when(false).0 == 0 && archive::magic_when(false).0 == 0,
{
}

/// Brotli and bare LZMA, which have no mark, are known by the ending of the name.
pub proof fn unmarked_compressors_are_known_by_their_ending(stem: Seq<char>)
    ensures
        told_from(stem + ".br"@, compressor_exts(), 0) == Some(Compressor::Brotli),
        told_from(stem + ".lzma"@, compressor_exts(), 0) == Some(Compressor::Lzma),
        told_from(stem + ".gz"@, compressor_exts(), 0) is None,
{
    let exts = compressor_exts();
    reveal_strlit(".gz");
    reveal_strlit(".br");
    reveal_strlit(".lzma");
    reveal_with_fuel(told_from, 11);
    ends_apart(stem, ".lzma"@, ".br"@);
    ends_apart(stem, ".gz"@, ".br"@);
    ends_apart(stem, ".gz"@, ".lzma"@);
    let a = stem + ".br"@;
    assert(a.skip(a.len() - 3) =~= ".br"@);
    let b = stem + ".lzma"@;
    assert(b.skip(b.len() - 5) =~= ".lzma"@);
}

/// A cpio archive in compressed data is known by one of three marks.
pub proof fn cpio_archives_are_known_by_their_marks(magic: Seq<u8>)
    ensures
        is_cpio_magic(magic) == (magic == seq![0x30u8, 0x37, 0x30, 0x37, 0x30, 0x31] || magic == seq![
            0x30u8, 0x37, 0x30, 0x37, 0x30, 0x32,
        ] || magic == seq![0x30u8, 0x37, 0x30, 0x37, 0x30, 0x37]),
{
    assert(MAGIC_NEWC@ =~= seq![0x30u8, 0x37, 0x30, 0x37, 0x30, 0x31]);
    assert(MAGIC_CRC@ =~= seq![0x30u8, 0x37, 0x30, 0x37, 0x30, 0x32]);
    assert(MAGIC_ODC@ =~= seq![0x30u8, 0x37, 0x30, 0x37, 0x30, 0x37]);
}

} // verus!
