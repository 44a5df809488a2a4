//! WIM install images (`.wim`, `.esd`, `.swm`).
use vstd::prelude::*;
use vstd::utf8;

use crate::archive;
use crate::error;
use crate::bytes;
use crate::datetime;
use crate::paths;
use crate::text;
use crate::archive::{read_entries_one_by_one, BatchReader, EntrySink};
use crate::archive::{ArchiveReader, Confidence, Entry, EntryKind, EntryView, FormatHandler};
use crate::archive::{FormatId, KindView, OpenOptions, Source};
use crate::bytes::{copy_bytes, copy_range, le_u16, le_u32, le_u64, starts_with};
use crate::datetime::{filetime_to_systime, Stamp, Timestamp};
use crate::error::{corrupt, unsupported, Error, ErrorView};
use crate::paths::join_path;
use crate::text::{decimal_text, hex4_text, join2, name_ends};
use crate::text::utf16_to_text;

verus! {

/// `MSWIM` and three zero bytes, at the start of an image.
pub const MAGIC: [u8; 8] = [0x4D, 0x53, 0x57, 0x49, 0x4D, 0, 0, 0];

pub const HEADER_LEN: usize = 208;

pub const FLAG_HEADER_COMPRESSION: u32 = 0x0000_0002;

pub const FLAG_SPANNED: u32 = 0x0000_0008;

pub const FLAG_COMPRESS_XPRESS: u32 = 0x0002_0000;

pub const FLAG_COMPRESS_LZX: u32 = 0x0004_0000;

pub const FLAG_COMPRESS_LZMS: u32 = 0x0008_0000;

pub const FLAG_METADATA: u8 = 0x02;

pub const FLAG_COMPRESSED: u8 = 0x04;

/// The codec of every compressed resource of an image.
#[derive(Debug, Clone, Copy, PartialEq, Eq, Structural)]
pub enum Compressor {
    Xpress,
    Lzx,
    Lzms,
}

/// Where a resource lies, how it is stored and how long it is when decoded.
#[derive(Debug, Clone, Copy, PartialEq, Eq, Structural)]
pub struct ResourceHeader {
    pub size_on_disk: u64,
    pub flags: u8,
    pub offset: u64,
    pub original_size: u64,
}

/// The header of an image.
#[derive(Debug, Clone, Copy, PartialEq, Eq, Structural)]
pub struct WimHeader {
    pub chunk_size: u32,
    pub compressor: Option<Compressor>,
    pub part_number: u16,
    pub total_parts: u16,
    pub image_count: u32,
    pub offset_table: ResourceHeader,
    pub boot_metadata: ResourceHeader,
}

/// A resource and the SHA-1 of its decoded content.
#[derive(Debug, Clone, Copy, PartialEq, Eq)]
pub struct LookupEntry {
    pub resource: ResourceHeader,
    pub hash: [u8; 20],
}

/// A `LookupEntry` with its hash as a sequence.
pub struct LookupView {
    pub resource: ResourceHeader,
    pub hash: Seq<u8>,
}

impl View for LookupEntry {
    type V = LookupView;

    open spec fn view(&self) -> LookupView {
        LookupView { resource: self.resource, hash: self.hash@ }
    }
}

/// The views of a list of lookup entries.
pub open spec fn lookup_views(v: Seq<LookupEntry>) -> Seq<LookupView> {
    v.map_values(|e: LookupEntry| e@)
}

/// The resource header stored at `i`: seven bytes of size, one of flags, then
/// the place and the decoded size.
pub open spec fn resource_at(b: Seq<u8>, i: int) -> ResourceHeader {
    ResourceHeader {
        size_on_disk: (bytes::le32(b, i) + 0x1_0000_0000 * (b[i + 4] + 0x100 * b[i + 5] + 0x1_0000 * b[i + 6])) as u64,
        flags: b[i + 7],
        offset: bytes::le64(b, i + 8) as u64,
        original_size: bytes::le64(b, i + 16) as u64,
    }
}

impl ResourceHeader {
    pub open spec fn spec_is_metadata(&self) -> bool {
        self.flags & FLAG_METADATA != 0
    }

    pub open spec fn spec_is_compressed(&self) -> bool {
        self.flags & FLAG_COMPRESSED != 0
    }

    /// The resource header at the start of `b`.
    pub fn parse(b: &[u8]) -> (r: Result<ResourceHeader, Error>)
        ensures
            match r {
                Ok(h) => b.len() >= 24 && h == resource_at(b@, 0),
                Err(e) => b.len() < 24 && e@ == ErrorView::Corrupt("wim: resource header shorter than 24 bytes"@),
            },
    {
        if b.len() < 24 {
            return Err(corrupt("wim: resource header shorter than 24 bytes"));
        }
        Ok(resource_header_at(b, 0))
    }

    pub fn is_metadata(&self) -> (r: bool)
        ensures
            r == self.spec_is_metadata(),
    {
        self.flags & FLAG_METADATA != 0
    }

    pub fn is_compressed(&self) -> (r: bool)
        ensures
            r == self.spec_is_compressed(),
    {
        self.flags & FLAG_COMPRESSED != 0
    }
}

/// The resource header stored at `i`.
fn resource_header_at(b: &[u8], i: usize) -> (r: ResourceHeader)
    requires
        i + 24 <= b.len(),
    ensures
        r == resource_at(b@, i as int),
{
    let low: u64 = le_u32(b, i) as u64;
    let high: u64 = b[i + 4] as u64 + 0x100 * (b[i + 5] as u64) + 0x1_0000 * (b[i + 6] as u64);
    ResourceHeader {
        size_on_disk: low + 0x1_0000_0000 * high,
        flags: b[i + 7],
        offset: le_u64(b, i + 8),
        original_size: le_u64(b, i + 16),
    }
}

/// The codec that the header's flags name: one of three where the header says
/// that there is compression. `Err` where it is not exactly one.
pub open spec fn compressor_of(flags: u32) -> Result<Option<Compressor>, ()> {
    let xpress = flags & FLAG_COMPRESS_XPRESS != 0;
    let lzx = flags & FLAG_COMPRESS_LZX != 0;
    let lzms = flags & FLAG_COMPRESS_LZMS != 0;
    if flags & FLAG_HEADER_COMPRESSION == 0 {
        Ok(None)
    } else if xpress && !lzx && !lzms {
        Ok(Some(Compressor::Xpress))
    } else if !xpress && lzx && !lzms {
        Ok(Some(Compressor::Lzx))
    } else if !xpress && !lzx && lzms {
        Ok(Some(Compressor::Lzms))
    } else {
        Err(())
    }
}

/// What a header says.
pub open spec fn header_view(b: Seq<u8>) -> Result<WimHeader, ErrorView> {
    let flags = bytes::le32(b, 16) as u32;
    let parts = bytes::le16(b, 42) as u16;
    if b.len() < HEADER_LEN {
        Err(ErrorView::Corrupt("wim: header shorter than 208 bytes"@))
    } else if !bytes::stands_at(b, 0, MAGIC@) {
        Err(ErrorView::Corrupt("wim: bad magic"@))
    } else {
        match compressor_of(flags) {
            Err(_) => Err(ErrorView::Corrupt("wim: HEADER_COMPRESSION set but compressor flags are ambiguous"@)),
            Ok(compressor) => Ok(
                WimHeader {
                    chunk_size: bytes::le32(b, 20) as u32,
                    compressor,
                    part_number: bytes::le16(b, 40) as u16,
                    total_parts: if flags & FLAG_SPANNED != 0 && parts <= 1 { 2 } else { parts },
                    image_count: bytes::le32(b, 44) as u32,
                    offset_table: resource_at(b, 48),
                    boot_metadata: resource_at(b, 96),
                },
            ),
        }
    }
}

impl WimHeader {
    pub fn spanned(&self) -> (r: bool)
        ensures
            r == (self.total_parts > 1),
    {
        self.total_parts > 1
    }

    /// The header at the start of an image.
    pub fn parse(b: &[u8]) -> (r: Result<WimHeader, Error>)
        ensures
            match r {
                Ok(h) => header_view(b@) == Ok::<WimHeader, ErrorView>(h),
                Err(e) => header_view(b@) == Err::<WimHeader, ErrorView>(e@),
            },
    {
        if b.len() < HEADER_LEN {
            return Err(corrupt("wim: header shorter than 208 bytes"));
        }
        if !starts_with(b, &MAGIC) {
            return Err(corrupt("wim: bad magic"));
        }
        let flags: u32 = le_u32(b, 16);
        let total_parts: u16 = le_u16(b, 42);
        let compressor = if flags & FLAG_HEADER_COMPRESSION != 0 {
            let xpress = flags & FLAG_COMPRESS_XPRESS != 0;
            let lzx = flags & FLAG_COMPRESS_LZX != 0;
            let lzms = flags & FLAG_COMPRESS_LZMS != 0;
            match (xpress, lzx, lzms) {
                (true, false, false) => Some(Compressor::Xpress),
                (false, true, false) => Some(Compressor::Lzx),
                (false, false, true) => Some(Compressor::Lzms),
                _ => {
                    return Err(corrupt("wim: HEADER_COMPRESSION set but compressor flags are ambiguous"));
                },
            }
        } else {
            None
        };
        Ok(WimHeader {
            chunk_size: le_u32(b, 20),
            compressor,
            part_number: le_u16(b, 40),
            total_parts: if flags & FLAG_SPANNED != 0 && total_parts <= 1 {
                2
            } else {
                total_parts
            },
            image_count: le_u32(b, 44),
            offset_table: resource_header_at(b, 48),
            boot_metadata: resource_header_at(b, 96),
        })
    }
}

/// The bytes of one entry of a lookup table.
pub const LOOKUP_ENTRY_LEN: usize = 50;

/// The entries of a lookup table of whole entries.
pub open spec fn table_entries(b: Seq<u8>) -> Seq<LookupView> {
    Seq::new(
        b.len() / 50,
        |k: int| LookupView { resource: resource_at(b, 50 * k), hash: b.subrange(50 * k + 30, 50 * k + 50) },
    )
}

/// What a lookup table says.
pub open spec fn table_view(b: Seq<u8>) -> Result<Seq<LookupView>, ErrorView> {
    if b.len() % 50 != 0 {
        Err(
            ErrorView::Corrupt(
                "wim: lookup table size "@ + text::decimal(b.len()) + " is not a multiple of 50"@,
            ),
        )
    } else {
        Ok(table_entries(b))
    }
}

/// Twenty bytes from `i` on.
fn hash_at(b: &[u8], i: usize) -> (r: [u8; 20])
    requires
        i + 20 <= b.len(),
    ensures
        r@ == b@.subrange(i as int, i + 20),
{
    let r: [u8; 20] = [
        b[i], b[i + 1], b[i + 2], b[i + 3], b[i + 4], b[i + 5], b[i + 6], b[i + 7], b[i + 8], b[i + 9],
        b[i + 10], b[i + 11], b[i + 12], b[i + 13], b[i + 14], b[i + 15], b[i + 16], b[i + 17], b[i + 18], b[i + 19],
    ];
    assert(r@ =~= b@.subrange(i as int, i + 20));
    r
}

/// The entries of a lookup table.
pub fn parse_lookup_table(bytes: &[u8]) -> (r: Result<Vec<LookupEntry>, Error>)
    ensures
        match r {
            Ok(v) => table_view(bytes@) == Ok::<Seq<LookupView>, ErrorView>(lookup_views(v@)),
            Err(e) => table_view(bytes@) == Err::<Seq<LookupView>, ErrorView>(e@),
        },
{
    if bytes.len() % LOOKUP_ENTRY_LEN != 0 {
        let n = decimal_text(bytes.len() as u64);
        let head = join2("wim: lookup table size ", n.as_str());
        let whole = join2(head.as_str(), " is not a multiple of 50");
        return Err(Error::Corrupt(whole));
    }
    let mut out: Vec<LookupEntry> = Vec::new();
    let mut i: usize = 0;
    while i < bytes.len()
        invariant
            i <= bytes.len(),
            bytes.len() % 50 == 0,
            i == 50 * out.len(),
            forall|k: int| 0 <= k < out.len() ==> (#[trigger] out@[k])@ == table_entries(bytes@)[k],
        decreases bytes.len() - i,
    {
        out.push(LookupEntry { resource: resource_header_at(bytes, i), hash: hash_at(bytes, i + 30) });
        i = i + 50;
    }
    assert(lookup_views(out@) =~= table_entries(bytes@));
    Ok(out)
}

/// What `newtua_mscompress::xpress::decompress_chunk` makes of a chunk and its
/// decoded length: the bytes, or the text of its error.
pub uninterp spec fn xpress_decoded(chunk: Seq<u8>, len: int) -> Result<Seq<u8>, Seq<char>>;

/// What `newtua_mscompress::lzx::decompress_chunk` makes of a chunk and its
/// decoded length: the bytes, or the text of its error.
pub uninterp spec fn lzx_decoded(chunk: Seq<u8>, len: int) -> Result<Seq<u8>, Seq<char>>;

/// The bytes of a decoded chunk, or the text of the decoder's error.
pub open spec fn chunk_view(r: Result<Vec<u8>, String>) -> Result<Seq<u8>, Seq<char>> {
    match r {
        Ok(v) => Ok(v@),
        Err(s) => Err(s@),
    }
}

/// `newtua_mscompress::xpress::decompress_chunk`: what it returns depends on the
/// chunk and the length alone.
#[verifier::external_body]
fn xpress_chunk(chunk: &[u8], len: usize) -> (r: Result<Vec<u8>, String>)
    ensures
        chunk_view(r) == xpress_decoded(chunk@, len as int),
{
    newtua_mscompress::xpress::decompress_chunk(chunk, len).map_err(|e| e.to_string())
}

/// `newtua_mscompress::lzx::decompress_chunk`: what it returns depends on the
/// chunk and the length alone.
#[verifier::external_body]
fn lzx_chunk(chunk: &[u8], len: usize) -> (r: Result<Vec<u8>, String>)
    ensures
        chunk_view(r) == lzx_decoded(chunk@, len as int),
{
    newtua_mscompress::lzx::decompress_chunk(chunk, len).map_err(|e| e.to_string())
}

/// The outcome of a chunk decoder, with its error told as damage.
pub open spec fn chunk_outcome(r: Result<Seq<u8>, Seq<char>>, prefix: Seq<char>) -> Result<Seq<u8>, ErrorView> {
    match r {
        Ok(b) => Ok(b),
        Err(m) => Err(ErrorView::Corrupt(prefix + m)),
    }
}

/// The outcome of a chunk decoder, with its error told as damage.
pub fn chunk_result(r: Result<Vec<u8>, String>, prefix: &str) -> (out: Result<Vec<u8>, Error>)
    ensures
        archive::body_view(out) == chunk_outcome(chunk_view(r), prefix@),
{
    match r {
        Ok(v) => Ok(v),
        Err(m) => Err(Error::Corrupt(join2(prefix, m.as_str()))),
    }
}

/// Decode an XPRESS chunk of a known decoded length.
pub fn decode_xpress_chunk(compressed: &[u8], uncompressed_len: usize) -> (r: Result<Vec<u8>, Error>)
    ensures
        archive::body_view(r) == chunk_outcome(
            xpress_decoded(compressed@, uncompressed_len as int),
            "wim: xpress chunk decode: "@,
        ),
{
    chunk_result(xpress_chunk(compressed, uncompressed_len), "wim: xpress chunk decode: ")
}

/// Decode an LZX chunk of a known decoded length.
pub fn decode_lzx_chunk(compressed: &[u8], uncompressed_len: usize) -> (r: Result<Vec<u8>, Error>)
    ensures
        archive::body_view(r) == chunk_outcome(
            lzx_decoded(compressed@, uncompressed_len as int),
            "wim: lzx chunk decode: "@,
        ),
{
    chunk_result(lzx_chunk(compressed, uncompressed_len), "wim: lzx chunk decode: ")
}

/// What a chunk decodes to. A chunk as long as its decoded content is stored as it is.
pub open spec fn one_chunk(chunk: Seq<u8>, len: int, compressor: Compressor) -> Result<Seq<u8>, ErrorView> {
    if chunk.len() == len {
        Ok(chunk)
    } else {
        match compressor {
            Compressor::Xpress => chunk_outcome(xpress_decoded(chunk, len), "wim: xpress chunk decode: "@),
            Compressor::Lzx => chunk_outcome(lzx_decoded(chunk, len), "wim: lzx chunk decode: "@),
            Compressor::Lzms => Err(
                ErrorView::Unsupported { format: "wim"@, feature: "LZMS compression (.esd)"@ },
            ),
        }
    }
}

/// Decode one chunk.
pub fn decode_one_chunk(compressed: &[u8], uncompressed_len: usize, compressor: Compressor) -> (r: Result<
    Vec<u8>,
    Error,
>)
    ensures
        archive::body_view(r) == one_chunk(compressed@, uncompressed_len as int, compressor),
{
    if compressed.len() == uncompressed_len {
        return Ok(copy_bytes(compressed));
    }
    match compressor {
        Compressor::Xpress => decode_xpress_chunk(compressed, uncompressed_len),
        Compressor::Lzx => decode_lzx_chunk(compressed, uncompressed_len),
        Compressor::Lzms => Err(unsupported("wim", "LZMS compression (.esd)")),
    }
}

/// The number of chunks of a resource.
pub open spec fn chunk_count(size: int, chunk_size: int) -> int {
    (size + chunk_size - 1) / chunk_size
}

/// The width of an entry of the table of chunk ends.
pub open spec fn table_width(size: int) -> int {
    if size < 0xFFFF_FFFF { 4 } else { 8 }
}

/// Where chunk `i` ends in the data that follows the table. The last one ends
/// with the data.
pub open spec fn chunk_end(raw: Seq<u8>, size: int, n: int, i: int) -> int {
    let w = table_width(size);
    if i == n - 1 {
        raw.len() - (n - 1) * w
    } else if w == 4 {
        bytes::le32(raw, i * 4)
    } else {
        bytes::le64(raw, i * 8)
    }
}

/// Where chunk `i` begins: where the one before it ends.
pub open spec fn chunk_start(raw: Seq<u8>, size: int, n: int, i: int) -> int {
    if i == 0 { 0 } else { chunk_end(raw, size, n, i - 1) }
}

/// The decoded length of chunk `i` of `n`.
pub open spec fn chunk_length(size: int, chunk_size: int, n: int, i: int) -> int {
    if i == n - 1 && size % chunk_size != 0 { size % chunk_size } else { chunk_size }
}

/// The chunks from `i` on, decoded and joined, or the first failure among them.
pub open spec fn chunks_from(
    raw: Seq<u8>,
    chunk_size: int,
    size: int,
    compressor: Compressor,
    i: int,
) -> Result<Seq<u8>, ErrorView>
    decreases chunk_count(size, chunk_size) - i,
{
    let n = chunk_count(size, chunk_size);
    let data = raw.skip((n - 1) * table_width(size));
    let start = chunk_start(raw, size, n, i);
    let end = chunk_end(raw, size, n, i);
    if i >= n {
        Ok(Seq::empty())
    } else if end < start || end > data.len() {
        Err(ErrorView::Corrupt("wim: bad chunk offset table entry"@))
    } else {
        match one_chunk(data.subrange(start, end), chunk_length(size, chunk_size, n, i), compressor) {
            Err(e) => Err(e),
            Ok(b) => match chunks_from(raw, chunk_size, size, compressor, i + 1) {
                Err(e) => Err(e),
                Ok(rest) => Ok(b + rest),
            },
        }
    }
}

/// What a compressed resource decodes to: its chunks in order. More than one
/// chunk is preceded by a table of where each but the last ends.
pub open spec fn chunked(raw: Seq<u8>, chunk_size: int, size: int, compressor: Compressor) -> Result<
    Seq<u8>,
    ErrorView,
> {
    let n = chunk_count(size, chunk_size);
    if size == 0 {
        Ok(Seq::empty())
    } else if n <= 1 {
        one_chunk(raw, size, compressor)
    } else if raw.len() < (n - 1) * table_width(size) {
        Err(ErrorView::Corrupt("wim: resource shorter than its chunk offset table"@))
    } else {
        chunks_from(raw, chunk_size, size, compressor, 0)
    }
}

/// The table of a resource whose chunks are all stored at their full length: where
/// each of the first `k` ends.
pub open spec fn stored_ends(chunk_size: int, k: int) -> Seq<u8>
    decreases k,
{
    if k <= 0 { Seq::empty() } else { stored_ends(chunk_size, k - 1) + bytes::le32_bytes(k * chunk_size) }
}

/// Entry `i` of such a table, whatever follows it.
proof fn stored_end_at(chunk_size: int, k: int, rest: Seq<u8>, i: int)
    requires
        0 <= i < k,
        0 < chunk_size,
        k * chunk_size <= u32::MAX,
    ensures
        stored_ends(chunk_size, k).len() == 4 * k,
        bytes::le32(stored_ends(chunk_size, k) + rest, i * 4) == (i + 1) * chunk_size,
    decreases k,
{
    let last = bytes::le32_bytes(k * chunk_size);
    let head = stored_ends(chunk_size, k - 1);
    assert(k * chunk_size == (k - 1) * chunk_size + chunk_size) by (nonlinear_arith);
    assert(0 <= (k - 1) * chunk_size) by (nonlinear_arith)
        requires
            k >= 1,
            chunk_size > 0,
    ;
    stored_ends_len(chunk_size, k - 1);
    if i < k - 1 {
        stored_end_at(chunk_size, k - 1, last + rest, i);
        assert(head + last + rest =~= head + (last + rest));
    } else {
        bytes::le32_reads_back(k * chunk_size);
        let all = head + last + rest;
        assert(all[i * 4] == last[0] && all[i * 4 + 1] == last[1] && all[i * 4 + 2] == last[2] && all[i * 4 + 3] == last[3]);
    }
}

proof fn stored_ends_len(chunk_size: int, k: int)
    requires
        0 <= k,
    ensures
        stored_ends(chunk_size, k).len() == 4 * k,
    decreases k,
{
    if k > 0 {
        stored_ends_len(chunk_size, k - 1);
    }
}

/// How the last chunk of a resource lies in it.
proof fn last_chunk_fits(size: int, chunk_size: int)
    requires
        0 < size,
        0 < chunk_size,
    ensures
        ({
            let n = chunk_count(size, chunk_size);
            &&& n >= 1
            &&& (n - 1) * chunk_size < size <= n * chunk_size
            &&& chunk_length(size, chunk_size, n, n - 1) == size - (n - 1) * chunk_size
        }),
{
    let q = size / chunk_size;
    let r = size % chunk_size;
    vstd::arithmetic::div_mod::lemma_fundamental_div_mod(size, chunk_size);
    vstd::arithmetic::div_mod::lemma_mod_bound(size, chunk_size);
    assert(q >= 0) by {
        vstd::arithmetic::div_mod::lemma_div_pos_is_pos(size, chunk_size);
    }
    let n = chunk_count(size, chunk_size);
    if r == 0 {
        assert(q * chunk_size == size) by {
            vstd::arithmetic::mul::lemma_mul_is_commutative(q, chunk_size);
        }
        assert(q >= 1) by (nonlinear_arith)
            requires
                q * chunk_size == size,
                size > 0,
                chunk_size > 0,
                q >= 0,
        ;
        vstd::arithmetic::div_mod::lemma_fundamental_div_mod_converse(size + chunk_size - 1, chunk_size, q, chunk_size - 1);
        assert(n == q);
    } else {
        assert((q + 1) * chunk_size == chunk_size * q + chunk_size) by (nonlinear_arith);
        vstd::arithmetic::div_mod::lemma_fundamental_div_mod_converse(size + chunk_size - 1, chunk_size, q + 1, r - 1);
        assert(n == q + 1);
    }
    assert(n * chunk_size == (n - 1) * chunk_size + chunk_size) by (nonlinear_arith);
    vstd::arithmetic::mul::lemma_mul_is_commutative(q, chunk_size);
}

/// The chunks from `i` on of a resource whose chunks are all stored.
proof fn stored_chunks_from(data: Seq<u8>, chunk_size: int, compressor: Compressor, i: int)
    requires
        0 < chunk_size,
        0 < data.len() < 0xFFFF_FFFF,
        chunk_count(data.len() as int, chunk_size) > 1,
        0 <= i <= chunk_count(data.len() as int, chunk_size),
    ensures
        ({
            let n = chunk_count(data.len() as int, chunk_size);
            let raw = stored_ends(chunk_size, n - 1) + data;
            chunks_from(raw, chunk_size, data.len() as int, compressor, i) == Ok::<Seq<u8>, ErrorView>(
                if i == n { Seq::empty() } else { data.skip(i * chunk_size) },
            )
        }),
    decreases chunk_count(data.len() as int, chunk_size) - i,
{
    let size = data.len() as int;
    let n = chunk_count(size, chunk_size);
    let table = stored_ends(chunk_size, n - 1);
    let raw = table + data;
    last_chunk_fits(size, chunk_size);
    stored_ends_len(chunk_size, n - 1);
    if i < n {
        stored_chunks_from(data, chunk_size, compressor, i + 1);
        assert(raw.skip((n - 1) * 4) =~= data);
        assert(i * chunk_size <= (n - 1) * chunk_size && 0 <= i * chunk_size && (i + 1) * chunk_size == i * chunk_size
            + chunk_size) by (nonlinear_arith)
            requires
                0 <= i <= n - 1,
                chunk_size > 0,
        ;
        if i > 0 {
            stored_end_at(chunk_size, n - 1, data, i - 1);
        }
        let start = i * chunk_size;
        if i < n - 1 {
            stored_end_at(chunk_size, n - 1, data, i);
            assert((i + 1) * chunk_size <= (n - 1) * chunk_size) by (nonlinear_arith)
                requires
                    i + 1 <= n - 1,
                    chunk_size > 0,
            ;
            let chunk = data.subrange(start, start + chunk_size);
            assert(chunk + data.skip((i + 1) * chunk_size) =~= data.skip(start));
        } else {
            let chunk = data.subrange(start, size);
            assert(chunk + Seq::<u8>::empty() =~= data.skip(start));
        }
    }
}

/// Data whose chunks are all stored at their full length, behind the table of their
/// ends, is given back as it is, whatever the chunks of the image are packed with:
/// such a chunk never reaches a decoder.
pub proof fn stored_chunks_are_given_back(data: Seq<u8>, chunk_size: int, compressor: Compressor)
    requires
        0 < chunk_size,
        0 < data.len() < 0xFFFF_FFFF,
    ensures
        chunked(
            stored_ends(chunk_size, chunk_count(data.len() as int, chunk_size) - 1) + data,
            chunk_size,
            data.len() as int,
            compressor,
        ) == Ok::<Seq<u8>, ErrorView>(data),
{
    let size = data.len() as int;
    let n = chunk_count(size, chunk_size);
    let table = stored_ends(chunk_size, n - 1);
    last_chunk_fits(size, chunk_size);
    stored_ends_len(chunk_size, n - 1);
    if n == 1 {
        assert(table + data =~= data);
    } else {
        stored_chunks_from(data, chunk_size, compressor, 0);
        assert(data.skip(0 * chunk_size) =~= data);
    }
}

/// What is decoded already, followed by what is still to come.
pub open spec fn after_bytes(done: Seq<u8>, rest: Result<Seq<u8>, ErrorView>) -> Result<Seq<u8>, ErrorView> {
    match rest {
        Ok(b) => Ok(done + b),
        Err(e) => Err(e),
    }
}

/// Decode a compressed resource.
pub fn decode_chunked_resource(raw: &[u8], chunk_size: u32, original_size: u64, compressor: Compressor) -> (r: Result<
    Vec<u8>,
    Error,
>)
    requires
        original_size != 0 ==> chunk_size > 0,
    ensures
        archive::body_view(r) == chunked(raw@, chunk_size as int, original_size as int, compressor),
{
    if original_size == 0 {
        let none: Vec<u8> = Vec::new();
        assert(none@ =~= Seq::<u8>::empty());
        return Ok(none);
    }
    let cs: u64 = chunk_size as u64;
    let n: u64 = (original_size - 1) / cs + 1;
    let ghost size = original_size as int;
    let ghost c = chunk_size as int;
    proof {
        assert(chunk_count(size, c) == (size - 1) / c + 1) by {
            vstd::arithmetic::div_mod::lemma_div_plus_one(size - 1, c);
        }
        vstd::arithmetic::div_mod::lemma_fundamental_div_mod(size - 1, c);
    }
    if n <= 1 {
        proof {
            assert((size - 1) / c == 0);
            assert(size <= c) by (nonlinear_arith)
                requires
                    size - 1 == c * 0 + (size - 1) % c,
                    c > 0,
                    (size - 1) % c < c,
            ;
        }
        return decode_one_chunk(raw, original_size as usize, compressor);
    }
    let wide = original_size >= 0xFFFF_FFFF;
    let width: u64 = if wide { 8 } else { 4 };
    if (raw.len() as u64) / width < n - 1 {
        proof {
            assert(raw.len() < (n - 1) * width) by (nonlinear_arith)
                requires
                    (raw.len() as u64) / width < n - 1,
                    width == 4 || width == 8,
            ;
        }
        return Err(corrupt("wim: resource shorter than its chunk offset table"));
    }
    proof {
        assert((n - 1) * width <= raw.len()) by (nonlinear_arith)
            requires
                (raw.len() as u64) / width >= n - 1,
                width == 4 || width == 8,
        ;
    }
    let table_len: usize = ((n - 1) * width) as usize;
    let data_len: u64 = (raw.len() - table_len) as u64;
    let ghost data = raw@.skip(table_len as int);
    let mut out: Vec<u8> = Vec::new();
    let mut start: u64 = 0;
    let mut i: u64 = 0;
    proof {
        assert(after_bytes(out@, chunks_from(raw@, c, size, compressor, 0)) == chunked(raw@, c, size, compressor)) by {
            match chunks_from(raw@, c, size, compressor, 0) {
                Ok(b) => {
                    assert(out@ + b =~= b);
                },
                Err(e) => {},
            }
        }
    }
    while i < n
        invariant
            i <= n,
            n > 1,
            size == original_size,
            c == chunk_size,
            cs == chunk_size,
            c > 0,
            n == chunk_count(size, c),
            wide == (original_size >= 0xFFFF_FFFF),
            width == table_width(size),
            table_len == (n - 1) * width,
            table_len + data_len == raw.len(),
            data == raw@.skip(table_len as int),
            i < n ==> start == chunk_start(raw@, size, n as int, i as int),
            start <= data_len,
            chunked(raw@, c, size, compressor) == after_bytes(
                out@,
                chunks_from(raw@, c, size, compressor, i as int),
            ),
        decreases n - i,
    {
        proof {
            if i < n - 1 {
                assert((i + 1) * width <= (n - 1) * width) by (nonlinear_arith)
                    requires
                        i + 1 <= n - 1,
                        width >= 0,
                ;
                assert((i + 1) * width == i * width + width) by (nonlinear_arith);
            }
        }
        let end: u64 = if i == n - 1 {
            data_len
        } else if wide {
            le_u64(raw, (i * 8) as usize)
        } else {
            le_u32(raw, (i * 4) as usize) as u64
        };
        assert(end == chunk_end(raw@, size, n as int, i as int));
        if end < start || end > data_len {
            return Err(corrupt("wim: bad chunk offset table entry"));
        }
        let rem: u64 = original_size % cs;
        let len: u64 = if i == n - 1 && rem != 0 {
            rem
        } else {
            cs
        };
        let piece = copy_range(raw, table_len + start as usize, table_len + end as usize);
        assert(piece@ =~= data.subrange(start as int, end as int));
        let decoded = decode_one_chunk(piece.as_slice(), len as usize, compressor);
        match decoded {
            Err(e) => {
                return Err(e);
            },
            Ok(bytes) => {
                let ghost before = out@;
                out.extend_from_slice(bytes.as_slice());
                proof {
                    assert(out@ =~= before + bytes@);
                    match chunks_from(raw@, c, size, compressor, i + 1) {
                        Ok(rest) => {
                            assert(before + (bytes@ + rest) =~= out@ + rest);
                        },
                        Err(e) => {},
                    }
                }
            },
        }
        start = end;
        i = i + 1;
    }
    proof {
        assert(out@ + Seq::<u8>::empty() =~= out@);
    }
    Ok(out)
}

/// A resource's content: the stored bytes, decoded if they are compressed.
pub open spec fn resource_view(src: Seq<u8>, chunk_size: int, compressor: Option<Compressor>, rh: ResourceHeader) -> Result<
    Seq<u8>,
    ErrorView,
> {
    if rh.size_on_disk != 0 && rh.offset + rh.size_on_disk > src.len() {
        Err(ErrorView::Corrupt("failed to fill whole buffer"@))
    } else {
        let raw = if rh.size_on_disk == 0 {
            Seq::<u8>::empty()
        } else {
            src.subrange(rh.offset as int, rh.offset + rh.size_on_disk)
        };
        if !rh.spec_is_compressed() {
            Ok(raw)
        } else {
            match compressor {
                None => Err(ErrorView::Corrupt("wim: resource is COMPRESSED but the header has no compressor"@)),
                Some(c) => chunked(raw, chunk_size, rh.original_size as int, c),
            }
        }
    }
}

/// A resource whose content is decoded chunk by chunk.
pub open spec fn needs_chunks(compressor: Option<Compressor>, rh: ResourceHeader) -> bool {
    rh.spec_is_compressed() && compressor is Some && rh.original_size != 0
}

/// Read a resource out of an image.
pub fn read_resource(src: &[u8], chunk_size: u32, header_compressor: Option<Compressor>, rh: &ResourceHeader) -> (r: Result<
    Vec<u8>,
    Error,
>)
    requires
        needs_chunks(header_compressor, *rh) ==> chunk_size > 0,
    ensures
        archive::body_view(r) == resource_view(src@, chunk_size as int, header_compressor, *rh),
{
    let raw: Vec<u8> = if rh.size_on_disk == 0 {
        let none: Vec<u8> = Vec::new();
        assert(none@ =~= Seq::<u8>::empty());
        none
    } else {
        let len: u64 = src.len() as u64;
        if rh.offset > len || rh.size_on_disk > len - rh.offset {
            return Err(corrupt("failed to fill whole buffer"));
        }
        copy_range(src, rh.offset as usize, (rh.offset + rh.size_on_disk) as usize)
    };
    if !rh.is_compressed() {
        return Ok(raw);
    }
    match header_compressor {
        None => Err(corrupt("wim: resource is COMPRESSED but the header has no compressor")),
        Some(c) => decode_chunked_resource(raw.as_slice(), chunk_size, rh.original_size, c),
    }
}

/// The little-endian 16-bit units of a byte sequence.
pub open spec fn units(b: Seq<u8>) -> Seq<u16> {
    Seq::new(b.len() / 2, |i: int| bytes::le16(b, 2 * i) as u16)
}

/// The text of a UTF-16 name.
pub open spec fn utf16le_name(b: Seq<u8>) -> Result<Seq<char>, ErrorView> {
    if b.len() % 2 != 0 {
        Err(ErrorView::Corrupt("wim: odd-length UTF-16LE name"@))
    } else {
        match text::utf16_text(units(b)) {
            Ok(t) => Ok(t),
            Err(x) => Err(
                ErrorView::Corrupt("wim: invalid UTF-16 name: unpaired surrogate found: "@ + text::hex4(x)),
            ),
        }
    }
}

/// The text of a string, or its failure.
pub open spec fn text_result(r: Result<String, Error>) -> Result<Seq<char>, ErrorView> {
    match r {
        Ok(s) => Ok(s@),
        Err(e) => Err(e@),
    }
}

/// Decode a UTF-16 name.
pub fn decode_utf16le(b: &[u8]) -> (r: Result<String, Error>)
    ensures
        text_result(r) == utf16le_name(b@),
{
    if b.len() % 2 != 0 {
        return Err(corrupt("wim: odd-length UTF-16LE name"));
    }
    let mut u: Vec<u16> = Vec::new();
    let mut i: usize = 0;
    while i < b.len()
        invariant
            i <= b.len(),
            b.len() % 2 == 0,
            i == 2 * u.len(),
            forall|k: int| 0 <= k < u.len() ==> u@[k] == bytes::le16(b@, 2 * k) as u16,
        decreases b.len() - i,
    {
        u.push(le_u16(b, i));
        i = i + 2;
    }
    assert(u@ =~= units(b@));
    match utf16_to_text(u.as_slice()) {
        Ok(s) => Ok(s),
        Err(x) => {
            let h = hex4_text(x);
            Err(Error::Corrupt(join2("wim: invalid UTF-16 name: unpaired surrogate found: ", h.as_str())))
        },
    }
}

/// The length of the security block that leads a metadata resource.
pub open spec fn security_len(meta: Seq<u8>) -> Result<int, ErrorView> {
    let total = bytes::le32(meta, 0);
    let len = ((if total > 8 { total } else { 8 }) + 7) / 8 * 8;
    if meta.len() < 8 {
        Err(ErrorView::Corrupt("wim: metadata resource too small for a security block"@))
    } else if len > meta.len() {
        Err(ErrorView::Corrupt("wim: security block longer than the metadata resource"@))
    } else {
        Ok(len)
    }
}

/// The length of the security block: at least eight bytes, rounded up to eight.
pub fn security_block_len(meta: &[u8]) -> (r: Result<usize, Error>)
    ensures
        match r {
            Ok(n) => security_len(meta@) == Ok::<int, ErrorView>(n as int),
            Err(e) => security_len(meta@) == Err::<int, ErrorView>(e@),
        },
{
    if meta.len() < 8 {
        return Err(corrupt("wim: metadata resource too small for a security block"));
    }
    let total: u64 = le_u32(meta, 0) as u64;
    let effective: u64 = if total > 8 { total } else { 8 };
    let len: u64 = (effective + 7) / 8 * 8;
    if len > meta.len() as u64 {
        return Err(corrupt("wim: security block longer than the metadata resource"));
    }
    Ok(len as usize)
}

pub const FILE_ATTRIBUTE_DIRECTORY: u32 = 0x10;

/// The bytes of a directory entry before its names.
pub const DIRENTRY_FIXED_LEN: usize = 0x66;

/// A directory entry, before its hash is looked up.
#[derive(Debug)]
pub struct RawDentry {
    pub is_dir: bool,
    pub subdir_offset: u64,
    pub modified: Option<Timestamp>,
    /// The POSIX permissions, where the image was captured with them.
    pub mode: Option<u32>,
    /// All zeros means no data.
    pub hash: [u8; 20],
    pub name: String,
}

/// A `RawDentry` with its hash and name as sequences.
pub struct DentryView {
    pub is_dir: bool,
    pub subdir_offset: u64,
    pub modified: Option<Timestamp>,
    pub mode: Option<u32>,
    pub hash: Seq<u8>,
    pub name: Seq<char>,
}

impl View for RawDentry {
    type V = DentryView;

    open spec fn view(&self) -> DentryView {
        DentryView {
            is_dir: self.is_dir,
            subdir_offset: self.subdir_offset,
            modified: self.modified,
            mode: self.mode,
            hash: self.hash@,
            name: self.name@,
        }
    }
}

/// The long name of the directory entry at `offset`.
pub open spec fn dirent_name(meta: Seq<u8>, offset: int) -> Result<Seq<char>, ErrorView> {
    let n = bytes::le16(meta, offset + 0x64);
    let start = offset + DIRENTRY_FIXED_LEN;
    if n == 0 {
        Ok(Seq::empty())
    } else if start + n > meta.len() {
        Err(ErrorView::Corrupt("wim: dirent file name runs past the metadata resource"@))
    } else {
        utf16le_name(meta.subrange(start, start + n))
    }
}

/// The mark of the item that keeps an owner, a group, a mode and a device number.
pub const UNIX_DATA_TAG: u32 = 0x337D_D873;

/// The length of such an item's data.
pub const UNIX_DATA_LEN: u32 = 16;

/// `n` rounded up to a multiple of eight.
pub open spec fn up_to_eight(n: int) -> int {
    (n + 7) / 8 * 8
}

/// The permissions in the first item of the UNIX data mark among the items that
/// stand from `p` to `end`. Each item is its mark, the length of its data and its
/// data, and the next begins at a multiple of eight behind it.
#[verifier::opaque]
pub open spec fn unix_mode(meta: Seq<u8>, p: int, end: int) -> Option<u32>
    decreases end - p,
{
    let len = bytes::le32(meta, p + 4);
    let next = p + 8 + up_to_eight(len);
    if p < 0 || end > meta.len() || p + 8 + UNIX_DATA_LEN > end || p + 8 + len > end {
        None
    } else if bytes::le32(meta, p) == UNIX_DATA_TAG && len >= UNIX_DATA_LEN {
        Some((bytes::le32(meta, p + 16) % 0o10000) as u32)
    } else if next > end {
        None
    } else {
        proof {
            assert(len >= 0 && up_to_eight(len) >= 0);
        }
        unix_mode(meta, next, end)
    }
}

/// A name in a directory entry takes so many bytes: it is followed by a null.
pub open spec fn name_room(n: int) -> int {
    if n == 0 { 0 } else { n + 2 }
}

/// Where the items of the directory entry at `offset` begin: behind its name and
/// its short name, at a multiple of eight.
pub open spec fn items_at(meta: Seq<u8>, offset: int) -> int {
    up_to_eight(
        offset + DIRENTRY_FIXED_LEN + name_room(bytes::le16(meta, offset + 0x64)) + name_room(
            bytes::le16(meta, offset + 0x62),
        ),
    )
}

/// The directory entry at `offset` and the place of the next one, or `None`
/// where the list of children ends.
pub open spec fn dirent_view(meta: Seq<u8>, offset: int) -> Result<Option<(DentryView, int)>, ErrorView> {
    let length = bytes::le64(meta, offset);
    let next = offset + (length + 7) / 8 * 8;
    if offset + 8 > meta.len() {
        Err(ErrorView::Corrupt("wim: dirent Length field runs past the metadata resource"@))
    } else if length <= 8 {
        Ok(None)
    } else if next > meta.len() {
        Err(ErrorView::Corrupt("wim: dirent Length runs past the metadata resource"@))
    } else if offset + DIRENTRY_FIXED_LEN > meta.len() {
        Err(ErrorView::Corrupt("wim: dirent shorter than its fixed-size prefix"@))
    } else {
        match dirent_name(meta, offset) {
            Err(e) => Err(e),
            Ok(name) => Ok(
                Some(
                    (
                        DentryView {
                            is_dir: (bytes::le32(meta, offset + 8) as u32) & FILE_ATTRIBUTE_DIRECTORY != 0,
                            subdir_offset: bytes::le64(meta, offset + 16) as u64,
                            modified: datetime::filetime_view(bytes::le64(meta, offset + 0x38)),
                            mode: unix_mode(meta, items_at(meta, offset), offset + length),
                            hash: meta.subrange(offset + 0x40, offset + 0x54),
                            name,
                        },
                        next,
                    ),
                ),
            ),
        }
    }
}

/// A parsed directory entry as its model.
pub open spec fn dirent_result(r: Result<Option<(RawDentry, usize)>, Error>) -> Result<
    Option<(DentryView, int)>,
    ErrorView,
> {
    match r {
        Ok(Some((d, next))) => Ok(Some((d@, next as int))),
        Ok(None) => Ok(None),
        Err(e) => Err(e@),
    }
}

/// Find the permissions of the directory entry at `offset`, which ends at `end`.
fn find_unix_mode(meta: &[u8], offset: usize, end: usize) -> (r: Option<u32>)
    requires
        offset + DIRENTRY_FIXED_LEN <= meta.len(),
        end <= meta.len(),
    ensures
        r == unix_mode(meta@, items_at(meta@, offset as int), end as int),
{
    let name: usize = le_u16(meta, offset + 0x64) as usize;
    let short: usize = le_u16(meta, offset + 0x62) as usize;
    proof {
        reveal(unix_mode);
    }
    let names: usize = (if name == 0 { 0 } else { name + 2 }) + (if short == 0 { 0 } else { short + 2 });
    let start: usize = offset + DIRENTRY_FIXED_LEN;
    if names + 8 > meta.len() - start {
        return None;
    }
    let mut p: usize = (start + names + 7) / 8 * 8;
    let ghost first = p as int;
    assert(first == items_at(meta@, offset as int));
    while p <= end && end - p >= 24
        invariant
            end <= meta.len(),
            first == items_at(meta@, offset as int),
            unix_mode(meta@, first, end as int) == unix_mode(meta@, p as int, end as int),
        decreases end - p,
    {
        proof {
            reveal(unix_mode);
        }
        let len: u32 = le_u32(meta, p + 4);
        if len as usize > end - p - 8 {
            return None;
        }
        if le_u32(meta, p) == UNIX_DATA_TAG && len >= UNIX_DATA_LEN {
            return Some(le_u32(meta, p + 16) % 0o10000);
        }
        let step: u64 = (len as u64 + 7) / 8 * 8;
        if step > (end - p - 8) as u64 {
            return None;
        }
        p = p + 8 + step as usize;
    }
    proof {
        reveal(unix_mode);
    }
    None
}

/// Parse the directory entry at `offset`.
pub fn parse_dirent(meta: &[u8], offset: usize) -> (r: Result<Option<(RawDentry, usize)>, Error>)
    ensures
        dirent_result(r) == dirent_view(meta@, offset as int),
        r matches Ok(Some((d, next))) ==> offset < next <= meta.len(),
{
    if offset > meta.len() || meta.len() - offset < 8 {
        return Err(corrupt("wim: dirent Length field runs past the metadata resource"));
    }
    let length: u64 = le_u64(meta, offset);
    if length <= 8 {
        return Ok(None);
    }
    let room: u64 = (meta.len() - offset) as u64;
    let eights: u64 = length / 8 + if length % 8 != 0 { 1 } else { 0 };
    if eights > room / 8 {
        return Err(corrupt("wim: dirent Length runs past the metadata resource"));
    }
    let next: usize = offset + (eights * 8) as usize;
    if meta.len() - offset < DIRENTRY_FIXED_LEN {
        return Err(corrupt("wim: dirent shorter than its fixed-size prefix"));
    }
    let name_nbytes: usize = le_u16(meta, offset + 0x64) as usize;
    let name = if name_nbytes > 0 {
        let start: usize = offset + DIRENTRY_FIXED_LEN;
        if meta.len() - start < name_nbytes {
            return Err(corrupt("wim: dirent file name runs past the metadata resource"));
        }
        let raw = copy_range(meta, start, start + name_nbytes);
        match decode_utf16le(raw.as_slice()) {
            Ok(s) => s,
            Err(e) => {
                return Err(e);
            },
        }
    } else {
        let empty = String::new();
        assert(empty@ =~= Seq::<char>::empty());
        empty
    };
    let mode = find_unix_mode(meta, offset, offset + length as usize);
    Ok(Some((
        RawDentry {
            is_dir: le_u32(meta, offset + 8) & FILE_ATTRIBUTE_DIRECTORY != 0,
            subdir_offset: le_u64(meta, offset + 16),
            modified: filetime_to_systime(le_u64(meta, offset + 0x38)),
            mode,
            hash: hash_at(meta, offset + 0x40),
            name,
        },
        next,
    )))
}

/// The resource of a hash: the last one that the table gives for it.
pub open spec fn found(lookup: Seq<LookupView>, hash: Seq<u8>) -> Option<ResourceHeader>
    decreases lookup.len(),
{
    if lookup.len() == 0 {
        None
    } else if lookup.last().hash == hash {
        Some(lookup.last().resource)
    } else {
        found(lookup.drop_last(), hash)
    }
}

/// The resource of a hash.
pub fn find_resource(lookup: &[LookupEntry], hash: &[u8; 20]) -> (r: Option<ResourceHeader>)
    ensures
        r == found(lookup_views(lookup@), hash@),
{
    let mut n: usize = lookup.len();
    let ghost all = lookup_views(lookup@);
    assert(all.take(n as int) =~= all);
    while n > 0
        invariant
            n <= lookup.len(),
            all == lookup_views(lookup@),
            found(all, hash@) == found(all.take(n as int), hash@),
        decreases n,
    {
        proof {
            assert(all.take(n as int).last() == lookup@[n - 1]@);
            assert(all.take(n as int).drop_last() =~= all.take(n - 1));
        }
        if crate::bytes::same_bytes(&lookup[n - 1].hash, hash) {
            return Some(lookup[n - 1].resource);
        }
        n = n - 1;
    }
    None
}

/// Twenty zero bytes.
pub open spec fn no_hash(hash: Seq<u8>) -> bool {
    forall|i: int| 0 <= i < hash.len() ==> hash[i] == 0
}

fn is_no_hash(hash: &[u8; 20]) -> (r: bool)
    ensures
        r == no_hash(hash@),
{
    let mut i: usize = 0;
    while i < 20
        invariant
            i <= 20,
            forall|j: int| 0 <= j < i ==> hash@[j] == 0,
        decreases 20 - i,
    {
        if hash[i] != 0 {
            return false;
        }
        i = i + 1;
    }
    true
}

/// An entry of the listing with the resource that holds its body, if it has one.
pub struct Listed {
    pub entry: EntryView,
    pub body: Option<ResourceHeader>,
}

/// What a directory entry becomes in the listing.
pub open spec fn listed(d: DentryView, parent: Seq<char>, lookup: Seq<LookupView>) -> Result<Listed, ErrorView> {
    let path = paths::joined(parent, d.name);
    let bare = d.is_dir || no_hash(d.hash);
    let rh = found(lookup, d.hash);
    if !bare && rh is None {
        Err(
            ErrorView::Corrupt(
                "wim: dirent "@ + path + " references a hash absent from the lookup table"@,
            ),
        )
    } else {
        Ok(
            Listed {
                entry: EntryView {
                    path_raw: utf8::encode_utf8(path),
                    path,
                    kind: if d.is_dir { KindView::Dir } else { KindView::File },
                    size: if bare { 0 } else { rh->0.original_size },
                    mode: d.mode,
                    is_encrypted: false,
                    modified: match d.modified {
                        Some(t) => Some(Stamp::Instant(t)),
                        None => None,
                    },
                    is_resource_fork: false,
                },
                body: if bare { None } else { rh },
            },
        )
    }
}

/// The children whose list starts at `offset`, each followed by what lies below
/// it. `above` holds the lists that are being walked: one that contains itself
/// is damage, as are more lists inside each other than the data has bytes.
pub open spec fn tree_from(
    meta: Seq<u8>,
    offset: int,
    parent: Seq<char>,
    lookup: Seq<LookupView>,
    above: Seq<int>,
) -> Result<Seq<Listed>, ErrorView>
    decreases meta.len() + 1 - above.len(), meta.len() - offset,
{
    match dirent_view(meta, offset) {
        Err(e) => Err(e),
        Ok(None) => Ok(Seq::empty()),
        Ok(Some((d, next))) => match listed(d, parent, lookup) {
            Err(e) => Err(e),
            Ok(one) => {
                let sub = d.subdir_offset as int;
                let below = if sub == 0 {
                    Ok(Seq::<Listed>::empty())
                } else if above.contains(sub) || above.len() > meta.len() {
                    Err(ErrorView::Corrupt("wim: a directory contains itself"@))
                } else {
                    tree_from(meta, sub, paths::joined(parent, d.name), lookup, above.push(sub))
                };
                match below {
                    Err(e) => Err(e),
                    Ok(b) => match tree_from(meta, next, parent, lookup, above) {
                        Err(e) => Err(e),
                        Ok(rest) => Ok(seq![one] + b + rest),
                    },
                }
            },
        },
    }
}

/// What is listed already, followed by what is still to come.
pub open spec fn after_listed(done: Seq<Listed>, rest: Result<Seq<Listed>, ErrorView>) -> Result<
    Seq<Listed>,
    ErrorView,
> {
    match rest {
        Ok(l) => Ok(done + l),
        Err(e) => Err(e),
    }
}

/// The entries and their bodies, side by side.
pub open spec fn listing_of(entries: Seq<Entry>, bodies: Seq<Option<ResourceHeader>>) -> Seq<Listed> {
    Seq::new(entries.len(), |i: int| Listed { entry: entries[i]@, body: bodies[i] })
}

/// The listing entry of one directory entry.
fn list_one(d: &RawDentry, path: &str, lookup: &[LookupEntry], parent: Ghost<Seq<char>>) -> (r: Result<
    (Entry, Option<ResourceHeader>),
    Error,
>)
    requires
        path@ == paths::joined(parent@, d.name@),
    ensures
        match r {
            Ok((e, b)) => listed(d@, parent@, lookup_views(lookup@)) == Ok::<Listed, ErrorView>(Listed { entry: e@, body: b }),
            Err(e) => listed(d@, parent@, lookup_views(lookup@)) == Err::<Listed, ErrorView>(e@),
        },
{
    let bare = d.is_dir || is_no_hash(&d.hash);
    let body: Option<ResourceHeader> = if bare {
        None
    } else {
        match find_resource(lookup, &d.hash) {
            Some(rh) => Some(rh),
            None => {
                let head = join2("wim: dirent ", path);
                return Err(
                    Error::Corrupt(join2(head.as_str(), " references a hash absent from the lookup table")),
                );
            },
        }
    };
    let size: u64 = match body {
        Some(rh) => rh.original_size,
        None => 0,
    };
    let entry = Entry {
        path_raw: copy_bytes(path.as_bytes()),
        path: path.to_owned(),
        kind: if d.is_dir { EntryKind::Dir } else { EntryKind::File },
        size,
        mode: d.mode,
        is_encrypted: false,
        modified: match d.modified {
            Some(t) => Some(Stamp::Instant(t)),
            None => None,
        },
        is_resource_fork: false,
    };
    Ok((entry, body))
}

/// Whether a list is being walked already.
fn is_above(above: &Vec<u64>, sub: u64) -> (r: bool)
    ensures
        r == above@.map_values(|x: u64| x as int).contains(sub as int),
{
    let ghost ints = above@.map_values(|x: u64| x as int);
    let mut i: usize = 0;
    while i < above.len()
        invariant
            i <= above.len(),
            ints == above@.map_values(|x: u64| x as int),
            forall|j: int| 0 <= j < i ==> ints[j] != sub,
        decreases above.len() - i,
    {
        if above[i] == sub {
            assert(ints[i as int] == sub);
            return true;
        }
        i = i + 1;
    }
    false
}

/// Walk the list of children that starts at `offset`, adding to the listing.
fn walk_children(
    meta: &[u8],
    offset: usize,
    parent: &str,
    lookup: &[LookupEntry],
    above: &mut Vec<u64>,
    entries: &mut Vec<Entry>,
    bodies: &mut Vec<Option<ResourceHeader>>,
) -> (r: Result<(), Error>)
    requires
        old(entries).len() == old(bodies).len(),
    ensures
        final(entries).len() == final(bodies).len(),
        match tree_from(meta@, offset as int, parent@, lookup_views(lookup@), old(above)@.map_values(|x: u64| x as int)) {
            Ok(l) => r is Ok && final(above)@ == old(above)@ && listing_of(final(entries)@, final(bodies)@)
                == listing_of(old(entries)@, old(bodies)@) + l,
            Err(e) => r matches Err(x) && x@ == e,
        },
    decreases meta.len() + 1 - old(above).len(), meta.len() - offset,
{
    let ghost ints = above@.map_values(|x: u64| x as int);
    let ghost first = listing_of(entries@, bodies@);
    let ghost whole = tree_from(meta@, offset as int, parent@, lookup_views(lookup@), ints);
    let ghost mut done = Seq::<Listed>::empty();
    let mut at: usize = offset;
    proof {
        match whole {
            Ok(l) => assert(done + l =~= l),
            Err(e) => {},
        }
        assert(first + done =~= first);
    }
    loop
        invariant
            offset <= at,
            at > meta.len() ==> at == offset,
            entries.len() == bodies.len(),
            above@ == old(above)@,
            ints == old(above)@.map_values(|x: u64| x as int),
            whole == tree_from(meta@, offset as int, parent@, lookup_views(lookup@), ints),
            whole == after_listed(done, tree_from(meta@, at as int, parent@, lookup_views(lookup@), ints)),
            listing_of(entries@, bodies@) == first + done,
            first == listing_of(old(entries)@, old(bodies)@),
        decreases meta.len() - at,
    {
        let (d, next) = match parse_dirent(meta, at) {
            Err(e) => {
                return Err(e);
            },
            Ok(None) => {
                proof {
                    assert(done + Seq::<Listed>::empty() =~= done);
                }
                return Ok(());
            },
            Ok(Some(pair)) => pair,
        };
        let path = join_path(parent, d.name.as_str());
        let (entry, body) = match list_one(&d, path.as_str(), lookup, Ghost(parent@)) {
            Err(e) => {
                return Err(e);
            },
            Ok(pair) => pair,
        };
        let ghost one = Listed { entry: entry@, body };
        let ghost e0 = entries@;
        let ghost b0 = bodies@;
        entries.push(entry);
        bodies.push(body);
        proof {
            assert(listing_of(entries@, bodies@) =~= listing_of(e0, b0).push(one));
        }
        let ghost mut below = Seq::<Listed>::empty();
        if d.subdir_offset != 0 {
            let sub: u64 = d.subdir_offset;
            if is_above(above, sub) || above.len() > meta.len() {
                return Err(corrupt("wim: a directory contains itself"));
            }
            let ghost above0 = above@;
            above.push(sub);
            proof {
                assert(above@.map_values(|x: u64| x as int) =~= ints.push(sub as int));
            }
            let start: usize = if sub > meta.len() as u64 { meta.len() } else { sub as usize };
            proof {
                if sub > meta.len() {
                    assert(dirent_view(meta@, sub as int) == dirent_view(meta@, meta@.len() as int));
                }
                assert(tree_from(meta@, sub as int, path@, lookup_views(lookup@), ints.push(sub as int)) == tree_from(
                    meta@, start as int, path@, lookup_views(lookup@), ints.push(sub as int)));
            }
            let ghost l0 = listing_of(entries@, bodies@);
            match walk_children(meta, start, path.as_str(), lookup, above, entries, bodies) {
                Err(e) => {
                    return Err(e);
                },
                Ok(()) => {},
            }
            proof {
                below = tree_from(meta@, sub as int, path@, lookup_views(lookup@), ints.push(sub as int))->Ok_0;
            }
            let _ = above.pop();
            proof {
                assert(above@ =~= above0);
                assert(listing_of(entries@, bodies@) == l0 + below);
            }
        }
        proof {
            let added = seq![one] + below;
            assert(first + (done + added) =~= (first + done).push(one) + below);
            match tree_from(meta@, next as int, parent@, lookup_views(lookup@), ints) {
                Ok(rest) => assert(done + (added + rest) =~= (done + added) + rest),
                Err(e) => {},
            }
            done = done + added;
        }
        at = next;
    }
}

/// The listing of a metadata resource: everything below its root.
pub open spec fn tree_view(meta: Seq<u8>, lookup: Seq<LookupView>) -> Result<Seq<Listed>, ErrorView> {
    match security_len(meta) {
        Err(e) => Err(e),
        Ok(sec) => match dirent_view(meta, sec) {
            Err(e) => Err(e),
            Ok(None) => Ok(Seq::empty()),
            Ok(Some((root, _))) => if root.subdir_offset == 0 {
                Ok(Seq::empty())
            } else {
                tree_from(
                    meta,
                    root.subdir_offset as int,
                    Seq::empty(),
                    lookup,
                    seq![root.subdir_offset as int],
                )
            },
        },
    }
}

/// The listing of a metadata resource, with the resource of each body beside it.
pub fn build_dir_tree(meta: &[u8], lookup: &[LookupEntry]) -> (r: Result<(Vec<Entry>, Vec<Option<ResourceHeader>>), Error>)
    ensures
        match r {
            Ok((entries, bodies)) => entries.len() == bodies.len() && tree_view(meta@, lookup_views(lookup@)) == Ok::<
                Seq<Listed>,
                ErrorView,
            >(listing_of(entries@, bodies@)),
            Err(e) => tree_view(meta@, lookup_views(lookup@)) == Err::<Seq<Listed>, ErrorView>(e@),
        },
{
    let sec: usize = match security_block_len(meta) {
        Ok(n) => n,
        Err(e) => {
            return Err(e);
        },
    };
    let mut entries: Vec<Entry> = Vec::new();
    let mut bodies: Vec<Option<ResourceHeader>> = Vec::new();
    proof {
        assert(listing_of(entries@, bodies@) =~= Seq::<Listed>::empty());
    }
    let root = match parse_dirent(meta, sec) {
        Err(e) => {
            return Err(e);
        },
        Ok(None) => {
            return Ok((entries, bodies));
        },
        Ok(Some((d, _))) => d,
    };
    if root.subdir_offset != 0 {
        let sub: u64 = root.subdir_offset;
        let mut above: Vec<u64> = Vec::new();
        above.push(sub);
        let start: usize = if sub > meta.len() as u64 { meta.len() } else { sub as usize };
        let top = String::new();
        proof {
            assert(above@.map_values(|x: u64| x as int) =~= seq![sub as int]);
            assert(top@ =~= Seq::<char>::empty());
            if sub > meta.len() {
                assert(dirent_view(meta@, sub as int) == dirent_view(meta@, meta@.len() as int));
            }
            assert(tree_from(meta@, sub as int, top@, lookup_views(lookup@), seq![sub as int]) == tree_from(
                meta@, start as int, top@, lookup_views(lookup@), seq![sub as int]));
        }
        match walk_children(meta, start, top.as_str(), lookup, &mut above, &mut entries, &mut bodies) {
            Err(e) => {
                return Err(e);
            },
            Ok(()) => {},
        }
        proof {
            assert(Seq::<Listed>::empty() + listing_of(entries@, bodies@) =~= listing_of(entries@, bodies@));
            assert(listing_of(entries@, bodies@) =~= tree_view(meta@, lookup_views(lookup@))->Ok_0);
        }
    }
    Ok((entries, bodies))
}

/// The entries that are not metadata, in order.
pub open spec fn data_entries(v: Seq<LookupView>) -> Seq<LookupView>
    decreases v.len(),
{
    if v.len() == 0 {
        Seq::empty()
    } else if v.last().resource.spec_is_metadata() {
        data_entries(v.drop_last())
    } else {
        data_entries(v.drop_last()).push(v.last())
    }
}

/// The first metadata resource: that of the first image.
pub open spec fn first_metadata(v: Seq<LookupView>) -> Option<ResourceHeader>
    decreases v.len(),
{
    if v.len() == 0 {
        None
    } else if first_metadata(v.drop_last()) is Some {
        first_metadata(v.drop_last())
    } else if v.last().resource.spec_is_metadata() {
        Some(v.last().resource)
    } else {
        None
    }
}

/// Part a lookup table: the first metadata resource, and the entries that hold data.
fn part_lookup(all: &[LookupEntry]) -> (r: (Option<ResourceHeader>, Vec<LookupEntry>))
    ensures
        r.0 == first_metadata(lookup_views(all@)),
        lookup_views(r.1@) == data_entries(lookup_views(all@)),
{
    let ghost v = lookup_views(all@);
    let mut meta: Option<ResourceHeader> = None;
    let mut data: Vec<LookupEntry> = Vec::new();
    let mut i: usize = 0;
    assert(lookup_views(data@) =~= data_entries(v.take(0)));
    while i < all.len()
        invariant
            i <= all.len(),
            v == lookup_views(all@),
            meta == first_metadata(v.take(i as int)),
            lookup_views(data@) == data_entries(v.take(i as int)),
        decreases all.len() - i,
    {
        let e: LookupEntry = all[i];
        proof {
            assert(v.take(i + 1).last() == e@);
            assert(v.take(i + 1).drop_last() =~= v.take(i as int));
        }
        if e.resource.is_metadata() {
            if meta.is_none() {
                meta = Some(e.resource);
            }
        } else {
            let ghost before = data@;
            data.push(e);
            assert(lookup_views(data@) =~= lookup_views(before).push(e@));
        }
        i = i + 1;
    }
    assert(v.take(i as int) =~= v);
    (meta, data)
}

/// An opened image: its header and its listing.
pub struct ImageView {
    pub header: WimHeader,
    pub files: Seq<Listed>,
}

/// The text that says which part of a spanned image a file is.
pub open spec fn part_text(h: WimHeader) -> Seq<char> {
    "multi-volume WIM / .swm (part "@ + text::decimal(h.part_number as nat) + " of "@ + text::decimal(h.total_parts as nat) + ")"@
}

/// What a file holds as an image.
pub open spec fn image_view(src: Seq<u8>) -> Result<ImageView, ErrorView> {
    if src.len() < HEADER_LEN {
        Err(ErrorView::Corrupt("failed to fill whole buffer"@))
    } else {
        match header_view(src) {
            Err(e) => Err(e),
            Ok(h) => if h.total_parts > 1 {
                Err(ErrorView::Unsupported { format: "wim"@, feature: part_text(h) })
            } else if h.compressor == Some(Compressor::Lzms) {
                Err(ErrorView::Unsupported { format: "wim"@, feature: "LZMS compression (.esd) — see task 20d"@ })
            } else {
                match resource_view(src, h.chunk_size as int, h.compressor, h.offset_table) {
                    Err(e) => Err(e),
                    Ok(table) => match table_view(table) {
                        Err(e) => Err(e),
                        Ok(all) => match first_metadata(all) {
                            None => Err(
                                ErrorView::Corrupt("wim: no metadata resource found in the lookup table"@),
                            ),
                            Some(rh) => match resource_view(src, h.chunk_size as int, h.compressor, rh) {
                                Err(e) => Err(e),
                                Ok(meta) => match tree_view(meta, data_entries(all)) {
                                    Err(e) => Err(e),
                                    Ok(files) => Ok(ImageView { header: h, files }),
                                },
                            },
                        },
                    },
                }
            },
        }
    }
}

/// A lookup table that is stored as it is; empty where it is not.
pub open spec fn stored_table(src: Seq<u8>, rh: ResourceHeader) -> Seq<u8> {
    if rh.spec_is_compressed() || rh.offset + rh.size_on_disk > src.len() {
        Seq::empty()
    } else {
        src.subrange(rh.offset as int, rh.offset + rh.size_on_disk)
    }
}

/// An image has a chunk size, or no resource that needs one.
pub open spec fn chunk_size_given(src: Seq<u8>) -> bool {
    match header_view(src) {
        Err(_) => true,
        Ok(h) => h.chunk_size > 0 || (!needs_chunks(h.compressor, h.offset_table) && match table_view(
            stored_table(src, h.offset_table),
        ) {
            Err(_) => true,
            Ok(all) => none_needs_chunks(h.compressor, all),
        }),
    }
}

/// No resource of a lookup table needs chunks.
pub open spec fn none_needs_chunks(compressor: Option<Compressor>, all: Seq<LookupView>) -> bool {
    forall|i: int| 0 <= i < all.len() ==> !needs_chunks(compressor, (#[trigger] all[i]).resource)
}

/// Whether an image has a chunk size, or no resource that needs one.
pub fn check_chunk_size(src: &[u8]) -> (r: bool)
    ensures
        r == chunk_size_given(src@),
{
    let h = match WimHeader::parse(src) {
        Err(_) => {
            return true;
        },
        Ok(h) => h,
    };
    if h.chunk_size > 0 || h.compressor.is_none() {
        return true;
    }
    let rh: ResourceHeader = h.offset_table;
    if rh.is_compressed() {
        proof {
            assert(stored_table(src@, rh).len() == 0);
            assert(table_entries(stored_table(src@, rh)).len() == 0);
        }
        return rh.original_size == 0;
    }
    let len: u64 = src.len() as u64;
    let table: Vec<u8> = if rh.offset > len || rh.size_on_disk > len - rh.offset {
        let none: Vec<u8> = Vec::new();
        assert(none@ =~= Seq::<u8>::empty());
        none
    } else {
        copy_range(src, rh.offset as usize, (rh.offset + rh.size_on_disk) as usize)
    };
    assert(table@ == stored_table(src@, rh));
    let all = match parse_lookup_table(table.as_slice()) {
        Err(_) => {
            return true;
        },
        Ok(all) => all,
    };
    let ghost rows = lookup_views(all@);
    let mut i: usize = 0;
    while i < all.len()
        invariant
            i <= all.len(),
            rows == lookup_views(all@),
            h.compressor is Some,
            chunk_size_given(src@) == none_needs_chunks(h.compressor, rows),
            forall|k: int| 0 <= k < i ==> !needs_chunks(h.compressor, (#[trigger] rows[k]).resource),
        decreases all.len() - i,
    {
        assert(rows[i as int].resource == all@[i as int].resource);
        if all[i].resource.is_compressed() && all[i].resource.original_size != 0 {
            assert(needs_chunks(h.compressor, rows[i as int].resource));
            return false;
        }
        i = i + 1;
    }
    true
}

/// A resource of a lookup table.
pub open spec fn is_row(all: Seq<LookupView>, rh: ResourceHeader) -> bool {
    exists|i: int| 0 <= i < all.len() && (#[trigger] all[i]).resource == rh
}

/// Every listed body is a resource of the lookup table.
pub open spec fn bodies_are_rows(files: Seq<Listed>, all: Seq<LookupView>) -> bool {
    forall|i: int| 0 <= i < files.len() && (#[trigger] files[i]).body is Some ==> is_row(all, files[i].body->0)
}

proof fn found_is_row(lookup: Seq<LookupView>, hash: Seq<u8>)
    ensures
        found(lookup, hash) matches Some(rh) ==> is_row(lookup, rh),
    decreases lookup.len(),
{
    if lookup.len() > 0 {
        found_is_row(lookup.drop_last(), hash);
        if lookup.last().hash == hash {
            assert(lookup[lookup.len() - 1].resource == lookup.last().resource);
        } else if found(lookup.drop_last(), hash) is Some {
            let rh = found(lookup.drop_last(), hash)->0;
            let i = choose|i: int| 0 <= i < lookup.drop_last().len() && (#[trigger] lookup.drop_last()[i]).resource == rh;
            assert(lookup[i].resource == rh);
        }
    }
}

/// Whatever a directory lists, its bodies are found in the lookup table.
#[verifier::rlimit(40)]
pub proof fn listed_bodies_are_rows(
    meta: Seq<u8>,
    offset: int,
    parent: Seq<char>,
    lookup: Seq<LookupView>,
    above: Seq<int>,
)
    ensures
        tree_from(meta, offset, parent, lookup, above) matches Ok(files) ==> bodies_are_rows(files, lookup),
    decreases meta.len() + 1 - above.len(), meta.len() - offset,
{
    match dirent_view(meta, offset) {
        Ok(Some((d, next))) => {
            if listed(d, parent, lookup) is Ok && tree_from(meta, offset, parent, lookup, above) is Ok {
                let one = listed(d, parent, lookup)->Ok_0;
                found_is_row(lookup, d.hash);
                let sub = d.subdir_offset as int;
                let inner = paths::joined(parent, d.name);
                let b = if sub == 0 {
                    Seq::<Listed>::empty()
                } else {
                    tree_from(meta, sub, inner, lookup, above.push(sub))->Ok_0
                };
                if sub != 0 {
                    listed_bodies_are_rows(meta, sub, inner, lookup, above.push(sub));
                }
                listed_bodies_are_rows(meta, next, parent, lookup, above);
                let rest = tree_from(meta, next, parent, lookup, above)->Ok_0;
                let files = seq![one] + b + rest;
                assert forall|i: int| 0 <= i < files.len() && (#[trigger] files[i]).body is Some implies is_row(
                    lookup,
                    files[i].body->0,
                ) by {
                    if i == 0 {
                        assert(files[i] == one);
                    } else if i < 1 + b.len() {
                        assert(files[i] == b[i - 1]);
                    } else {
                        assert(files[i] == rest[i - 1 - b.len()]);
                    }
                }
            }
        },
        _ => {},
    }
}

/// The directory entry at `at` stands in the list that begins at `list`: it is the first
/// one, or one that is reached from there, each being followed by the next.
pub open spec fn stands_in(meta: Seq<u8>, list: int, at: int) -> bool
    decreases meta.len() - list,
{
    match dirent_view(meta, list) {
        Ok(Some((_, next))) => at == list || list < next <= meta.len() && stands_in(meta, next, at),
        _ => false,
    }
}

/// `names` lead from the list at `list` to the directory entry `d`: the first of them is
/// that of an entry in the list, and the others lead on from the list of that entry.
pub open spec fn leads_to(meta: Seq<u8>, list: int, names: Seq<Seq<char>>, d: DentryView) -> bool
    decreases names.len(),
{
    names.len() > 0 && exists|at: int|
        #[trigger] stands_in(meta, list, at) && match dirent_view(meta, at) {
            Ok(Some((e, _))) => e.name == names[0] && if names.len() == 1 {
                d == e
            } else {
                e.subdir_offset != 0 && leads_to(meta, e.subdir_offset as int, names.skip(1), d)
            },
            _ => false,
        }
}

/// Where one comes from `parent` by going down through `names`. A name that begins with
/// a slash begins anew.
pub open spec fn path_down(parent: Seq<char>, names: Seq<Seq<char>>) -> Seq<char>
    decreases names.len(),
{
    if names.len() == 0 {
        parent
    } else {
        let above = path_down(parent, names.drop_last());
        let name = names.last();
        if name.len() > 0 && name[0] == '/' {
            name
        } else if above.len() == 0 || above.last() == '/' {
            above + name
        } else {
            above + seq!['/'] + name
        }
    }
}

proof fn path_down_begins(parent: Seq<char>, name: Seq<char>, names: Seq<Seq<char>>)
    ensures
        path_down(paths::joined(parent, name), names) == path_down(parent, seq![name] + names),
    decreases names.len(),
{
    let all = seq![name] + names;
    if names.len() == 0 {
        assert(all.drop_last() =~= Seq::<Seq<char>>::empty());
        assert(all.last() == name);
        assert(path_down(parent, all.drop_last()) == parent);
        assert(parent.push('/') + name =~= parent + seq!['/'] + name);
        assert(names =~= Seq::<Seq<char>>::empty());
    } else {
        path_down_begins(parent, name, names.drop_last());
        assert(all.drop_last() =~= seq![name] + names.drop_last());
        assert(all.last() == names.last());
    }
}

/// What is listed for a directory entry: its path leads down to it, and the rest is what
/// the entry says and what its hash finds.
pub open spec fn shows_entry(one: Listed, path: Seq<char>, d: DentryView, lookup: Seq<LookupView>) -> bool {
    &&& one.entry.path == path
    &&& one.entry.path_raw == utf8::encode_utf8(path)
    &&& (one.entry.kind == KindView::Dir) == d.is_dir
    &&& one.entry.kind == KindView::Dir || one.entry.kind == KindView::File
    &&& one.entry.mode == d.mode
    &&& !one.entry.is_encrypted
    &&& !one.entry.is_resource_fork
    &&& d.modified is Some == one.entry.modified is Some
    &&& d.modified matches Some(t) ==> one.entry.modified == Some(Stamp::Instant(t))
    &&& one.body is None ==> one.entry.size == 0
    &&& one.body matches Some(rh) ==> !d.is_dir && one.entry.size == rh.original_size && exists|k: int|
        0 <= k < lookup.len() && (#[trigger] lookup[k]).resource == rh && lookup[k].hash == d.hash
    &&& one.body is None ==> d.is_dir || forall|k: int| 0 <= k < d.hash.len() ==> d.hash[k] == 0
}

proof fn found_has_hash(lookup: Seq<LookupView>, hash: Seq<u8>)
    ensures
        found(lookup, hash) matches Some(rh) ==> exists|k: int|
            0 <= k < lookup.len() && (#[trigger] lookup[k]).resource == rh && lookup[k].hash == hash,
    decreases lookup.len(),
{
    if lookup.len() > 0 {
        found_has_hash(lookup.drop_last(), hash);
        if lookup.last().hash == hash {
            assert(lookup[lookup.len() - 1] == lookup.last());
        } else if let Some(rh) = found(lookup.drop_last(), hash) {
            let k = choose|k: int|
                0 <= k < lookup.drop_last().len() && (#[trigger] lookup.drop_last()[k]).resource == rh
                    && lookup.drop_last()[k].hash == hash;
            assert(lookup[k] == lookup.drop_last()[k]);
        }
    }
}

/// There is a way down from the list at `list` to what is listed at `i`, and the directory
/// that it goes through last is listed before.
pub open spec fn comes_down(meta: Seq<u8>, list: int, parent: Seq<char>, lookup: Seq<LookupView>, files: Seq<Listed>, i: int, names: Seq<Seq<char>>, d: DentryView) -> bool {
    &&& leads_to(meta, list, names, d)
    &&& shows_entry(files[i], path_down(parent, names), d, lookup)
    &&& names.len() > 1 ==> exists|h: int| 0 <= h < i && (#[trigger] files[h]).entry.path == path_down(parent, names.drop_last())
}

/// There is a way down from the list at `list` to what is listed at `i`.
pub open spec fn has_way(meta: Seq<u8>, list: int, parent: Seq<char>, lookup: Seq<LookupView>, files: Seq<Listed>, i: int) -> bool {
    exists|names: Seq<Seq<char>>, d: DentryView|
        #[trigger] comes_down(meta, list, parent, lookup, files, i, names, d)
}

proof fn next_of_list_leads_on(meta: Seq<u8>, list: int, next: int, names: Seq<Seq<char>>, d: DentryView)
    requires
        dirent_view(meta, list) matches Ok(Some((_, n))) && n == next,
        list < next <= meta.len(),
        leads_to(meta, next, names, d),
    ensures
        leads_to(meta, list, names, d),
{
    let at = choose|at: int|
        #[trigger] stands_in(meta, next, at) && match dirent_view(meta, at) {
            Ok(Some((e, _))) => e.name == names[0] && if names.len() == 1 {
                d == e
            } else {
                e.subdir_offset != 0 && leads_to(meta, e.subdir_offset as int, names.skip(1), d)
            },
            _ => false,
        };
    assert(stands_in(meta, list, at));
}

proof fn next_is_behind(meta: Seq<u8>, offset: int)
    ensures
        dirent_view(meta, offset) matches Ok(Some((_, next))) ==> offset < next <= meta.len(),
{
}

proof fn first_comes_down(meta: Seq<u8>, list: int, next: int, parent: Seq<char>, lookup: Seq<LookupView>, files: Seq<Listed>, d: DentryView)
    requires
        dirent_view(meta, list) == Ok::<Option<(DentryView, int)>, ErrorView>(Some((d, next))),
        files.len() > 0,
        listed(d, parent, lookup) == Ok::<Listed, ErrorView>(files[0]),
    ensures
        comes_down(meta, list, parent, lookup, files, 0, seq![d.name], d),
        files[0].entry.path == path_down(parent, seq![d.name]),
{
    let first = seq![d.name];
    assert(stands_in(meta, list, list));
    assert(leads_to(meta, list, first, d));
    path_down_begins(parent, d.name, Seq::empty());
    assert(first + Seq::<Seq<char>>::empty() =~= first);
    assert(path_down(paths::joined(parent, d.name), Seq::empty()) == paths::joined(parent, d.name));
    found_has_hash(lookup, d.hash);
}

#[verifier::rlimit(40)]
proof fn below_comes_down(meta: Seq<u8>, list: int, next: int, parent: Seq<char>, lookup: Seq<LookupView>, files: Seq<Listed>, b: Seq<Listed>, i: int, d: DentryView)
    requires
        dirent_view(meta, list) == Ok::<Option<(DentryView, int)>, ErrorView>(Some((d, next))),
        d.subdir_offset != 0,
        0 <= i < b.len() < files.len(),
        has_way(meta, d.subdir_offset as int, paths::joined(parent, d.name), lookup, b, i),
        forall|k: int| 0 <= k < b.len() ==> files[k + 1] == #[trigger] b[k],
        files[0].entry.path == path_down(parent, seq![d.name]),
    ensures
        has_way(meta, list, parent, lookup, files, i + 1),
{
    let sub = d.subdir_offset as int;
    let inner = paths::joined(parent, d.name);
    let (names, e) = choose|names: Seq<Seq<char>>, e: DentryView|
        #[trigger] comes_down(meta, sub, inner, lookup, b, i, names, e);
    let all = seq![d.name] + names;
    assert(all.skip(1) =~= names);
    assert(stands_in(meta, list, list));
    assert(leads_to(meta, list, all, e));
    path_down_begins(parent, d.name, names);
    assert(all.drop_last() =~= seq![d.name] + names.drop_last());
    path_down_begins(parent, d.name, names.drop_last());
    assert(files[i + 1] == b[i]);
    if names.len() > 1 {
        let h = choose|h: int| 0 <= h < i && (#[trigger] b[h]).entry.path == path_down(inner, names.drop_last());
        assert(files[h + 1] == b[h]);
    } else {
        assert(all.drop_last() =~= seq![d.name]);
        assert(files[0].entry.path == path_down(parent, all.drop_last()));
    }
    assert(comes_down(meta, list, parent, lookup, files, i + 1, all, e));
}

proof fn rest_comes_down(meta: Seq<u8>, list: int, next: int, parent: Seq<char>, lookup: Seq<LookupView>, files: Seq<Listed>, rest: Seq<Listed>, i: int, d: DentryView)
    requires
        dirent_view(meta, list) == Ok::<Option<(DentryView, int)>, ErrorView>(Some((d, next))),
        0 <= i < rest.len() <= files.len(),
        has_way(meta, next, parent, lookup, rest, i),
        forall|k: int| 0 <= k < rest.len() ==> files[k + files.len() - rest.len()] == #[trigger] rest[k],
    ensures
        has_way(meta, list, parent, lookup, files, i + files.len() - rest.len()),
{
    let (names, e) = choose|names: Seq<Seq<char>>, e: DentryView|
        #[trigger] comes_down(meta, next, parent, lookup, rest, i, names, e);
    let j = i + files.len() - rest.len();
    assert(files[j] == rest[i]);
    next_is_behind(meta, list);
    next_of_list_leads_on(meta, list, next, names, e);
    if names.len() > 1 {
        let h = choose|h: int| 0 <= h < i && (#[trigger] rest[h]).entry.path == path_down(parent, names.drop_last());
        let g = h + files.len() - rest.len();
        assert(files[g] == rest[h]);
    }
    assert(comes_down(meta, list, parent, lookup, files, j, names, e));
}

/// Whatever is listed of a list has a path that goes down through the names of the
/// directories that it lies in, from the list on, and ends with its own; and the directory
/// around it is listed before it.
#[verifier::rlimit(40)]
pub proof fn listed_paths_come_down(meta: Seq<u8>, list: int, parent: Seq<char>, lookup: Seq<LookupView>, above: Seq<int>)
    ensures
        tree_from(meta, list, parent, lookup, above) matches Ok(files) ==> forall|i: int|
            0 <= i < files.len() ==> #[trigger] has_way(meta, list, parent, lookup, files, i),
    decreases meta.len() + 1 - above.len(), meta.len() - list,
{
    if let Ok(Some((d, next))) = dirent_view(meta, list) {
        if tree_from(meta, list, parent, lookup, above) is Ok {
            let files = tree_from(meta, list, parent, lookup, above)->Ok_0;
            let one = listed(d, parent, lookup)->Ok_0;
            let sub = d.subdir_offset as int;
            let inner = paths::joined(parent, d.name);
            let b = if sub == 0 {
                Seq::<Listed>::empty()
            } else {
                tree_from(meta, sub, inner, lookup, above.push(sub))->Ok_0
            };
            let rest = tree_from(meta, next, parent, lookup, above)->Ok_0;
            next_is_behind(meta, list);
            if sub != 0 {
                listed_paths_come_down(meta, sub, inner, lookup, above.push(sub));
            }
            listed_paths_come_down(meta, next, parent, lookup, above);
            assert(files == seq![one] + b + rest);
            assert(files[0] == one);
            first_comes_down(meta, list, next, parent, lookup, files, d);
            assert forall|k: int| 0 <= k < b.len() implies files[k + 1] == #[trigger] b[k] by {}
            assert forall|k: int| 0 <= k < rest.len() implies files[k + files.len() - rest.len()] == #[trigger] rest[k] by {}
            assert forall|i: int| 0 <= i < files.len() implies #[trigger] has_way(
                meta,
                list,
                parent,
                lookup,
                files,
                i,
            ) by {
                if i == 0 {
                } else if i < 1 + b.len() {
                    assert(has_way(meta, sub, inner, lookup, b, i - 1));
                    below_comes_down(meta, list, next, parent, lookup, files, b, i - 1, d);
                } else {
                    let k = i - 1 - b.len();
                    assert(has_way(meta, next, parent, lookup, rest, k));
                    rest_comes_down(meta, list, next, parent, lookup, files, rest, k, d);
                }
            }
        }
    }
}

/// Whatever a way leads down to is listed, under the path of that way.
#[verifier::rlimit(40)]
pub proof fn ways_down_are_listed(
    meta: Seq<u8>,
    list: int,
    parent: Seq<char>,
    lookup: Seq<LookupView>,
    above: Seq<int>,
    names: Seq<Seq<char>>,
    d: DentryView,
)
    requires
        tree_from(meta, list, parent, lookup, above) is Ok,
        leads_to(meta, list, names, d),
    ensures
        exists|i: int|
            0 <= i < tree_from(meta, list, parent, lookup, above)->Ok_0.len() && #[trigger] shows_entry(
                tree_from(meta, list, parent, lookup, above)->Ok_0[i],
                path_down(parent, names),
                d,
                lookup,
            ),
    decreases meta.len() + 1 - above.len(), meta.len() - list,
{
    let at = choose|at: int|
        #[trigger] stands_in(meta, list, at) && match dirent_view(meta, at) {
            Ok(Some((e, _))) => e.name == names[0] && if names.len() == 1 {
                d == e
            } else {
                e.subdir_offset != 0 && leads_to(meta, e.subdir_offset as int, names.skip(1), d)
            },
            _ => false,
        };
    let (e, next) = dirent_view(meta, list)->Ok_0->0;
    let files = tree_from(meta, list, parent, lookup, above)->Ok_0;
    let one = listed(e, parent, lookup)->Ok_0;
    let sub = e.subdir_offset as int;
    let inner = paths::joined(parent, e.name);
    let b = if sub == 0 { Seq::<Listed>::empty() } else { tree_from(meta, sub, inner, lookup, above.push(sub))->Ok_0 };
    let rest = tree_from(meta, next, parent, lookup, above)->Ok_0;
    assert(files == seq![one] + b + rest);
    next_is_behind(meta, list);
    if at == list {
        assert(names =~= seq![e.name] + names.skip(1));
        path_down_begins(parent, e.name, names.skip(1));
        if names.len() == 1 {
            assert(names.skip(1) =~= Seq::<Seq<char>>::empty());
            found_has_hash(lookup, e.hash);
            assert(files[0] == one);
            assert(shows_entry(files[0], path_down(parent, names), d, lookup));
        } else {
            ways_down_are_listed(meta, sub, inner, lookup, above.push(sub), names.skip(1), d);
            let i = choose|i: int|
                0 <= i < b.len() && #[trigger] shows_entry(b[i], path_down(inner, names.skip(1)), d, lookup);
            assert(files[i + 1] == b[i]);
            assert(shows_entry(files[i + 1], path_down(parent, names), d, lookup));
        }
    } else {
        assert(stands_in(meta, next, at));
        assert(leads_to(meta, next, names, d));
        ways_down_are_listed(meta, next, parent, lookup, above, names, d);
        let i = choose|i: int|
            0 <= i < rest.len() && #[trigger] shows_entry(rest[i], path_down(parent, names), d, lookup);
        assert(files[i + 1 + b.len()] == rest[i]);
        assert(shows_entry(files[i + 1 + b.len()], path_down(parent, names), d, lookup));
    }
}

/// A name that is one piece of a path.
pub open spec fn is_piece(name: Seq<char>) -> bool {
    name.len() > 0 && !name.contains('/')
}

/// The path from the top down through names that are pieces is the names with slashes
/// between them: cut at its slashes it gives the names back.
pub proof fn way_down_is_cut_into_names(names: Seq<Seq<char>>)
    requires
        names.len() > 0,
        forall|k: int| 0 <= k < names.len() ==> is_piece(#[trigger] names[k]),
    ensures
        text::split(path_down(Seq::empty(), names), '/') == names,
{
    way_down_is_joined(names);
    assert(text::free_of(names, '/'));
    text::split_undoes_join(names, '/');
}

proof fn way_down_is_joined(names: Seq<Seq<char>>)
    requires
        names.len() > 0,
        forall|k: int| 0 <= k < names.len() ==> is_piece(#[trigger] names[k]),
    ensures
        path_down(Seq::empty(), names) == text::join(names, '/'),
        path_down(Seq::empty(), names).len() > 0,
        path_down(Seq::empty(), names).last() != '/',
    decreases names.len(),
{
    let init = names.drop_last();
    let name = names[names.len() - 1];
    assert(is_piece(name));
    assert(name[0] != '/' && name.last() != '/') by {
        assert(name.contains(name[0]));
        assert(name.contains(name[name.len() - 1]));
    }
    if names.len() == 1 {
        assert(init =~= Seq::<Seq<char>>::empty());
        assert(path_down(Seq::empty(), init) =~= Seq::<char>::empty());
        assert(Seq::<char>::empty() + name =~= name);
    } else {
        assert forall|k: int| 0 <= k < init.len() implies is_piece(#[trigger] init[k]) by {
            assert(init[k] == names[k]);
        }
        way_down_is_joined(init);
        let p = path_down(Seq::empty(), init);
        assert(p + seq!['/'] + name =~= p.push('/') + name);
    }
}

/// Where the list of what lies in the root of an image begins: the root is the first
/// directory entry behind the security block.
pub open spec fn top_list(meta: Seq<u8>) -> Option<int> {
    match security_len(meta) {
        Ok(sec) => match dirent_view(meta, sec) {
            Ok(Some((root, _))) => Some(root.subdir_offset as int),
            _ => None,
        },
        Err(_) => None,
    }
}

/// Everything that an image lists lies below its root, under the names that lead down to
/// it from there.
pub proof fn image_paths_come_down(meta: Seq<u8>, lookup: Seq<LookupView>, i: int)
    requires
        tree_view(meta, lookup) is Ok,
        0 <= i < tree_view(meta, lookup)->Ok_0.len(),
    ensures
        top_list(meta) matches Some(list) && has_way(
            meta,
            list,
            Seq::empty(),
            lookup,
            tree_view(meta, lookup)->Ok_0,
            i,
        ),
{
    let list = top_list(meta)->0;
    listed_paths_come_down(meta, list, Seq::empty(), lookup, seq![list]);
}

/// Whatever the names lead down to from the root of an image is listed under them.
pub proof fn image_lists_all_below_its_root(meta: Seq<u8>, lookup: Seq<LookupView>, names: Seq<Seq<char>>, d: DentryView)
    requires
        tree_view(meta, lookup) is Ok,
        top_list(meta) matches Some(list) && list != 0 && leads_to(meta, list, names, d),
    ensures
        exists|i: int|
            0 <= i < tree_view(meta, lookup)->Ok_0.len() && #[trigger] shows_entry(
                tree_view(meta, lookup)->Ok_0[i],
                path_down(Seq::empty(), names),
                d,
                lookup,
            ),
{
    let list = top_list(meta)->0;
    ways_down_are_listed(meta, list, Seq::empty(), lookup, seq![list], names, d);
}

/// A number stands somewhere in so many bytes, the lowest first.
pub open spec fn number_at(s: Seq<u8>, i: int, v: int, n: nat) -> bool {
    0 <= v && bytes::stands_at(s, i, bytes::low_first(v, n))
}

/// The place and the sizes of a resource read back: its size as stored in seven bytes, its
/// flags in one, its place and its size in eight each.
#[verifier::rlimit(40)]
pub proof fn resources_read_back(b: Seq<u8>, i: int, size: int, flags: u8, offset: int, original: int)
    requires
        0 <= size < 0x100_0000_0000_0000,
        0 <= offset <= u64::MAX,
        0 <= original <= u64::MAX,
        number_at(b, i, size + 0x100_0000_0000_0000 * flags, 8),
        number_at(b, i + 8, offset, 8),
        number_at(b, i + 16, original, 8),
    ensures
        resource_at(b, i) == (ResourceHeader {
            size_on_disk: size as u64,
            flags,
            offset: offset as u64,
            original_size: original as u64,
        }),
        resource_at(b, i).spec_is_metadata() == (flags as int / 2 % 2 == 1),
        resource_at(b, i).spec_is_compressed() == (flags as int / 4 % 2 == 1),
{
    bytes::standing_numbers_are_read(b, i, size + 0x100_0000_0000_0000 * flags);
    bytes::standing_numbers_are_read(b, i + 8, offset);
    bytes::standing_numbers_are_read(b, i + 16, original);
    assert((flags & 0x02 != 0) == (flags / 2 % 2 == 1) && (flags & 0x04 != 0) == (flags / 4 % 2 == 1)) by (bit_vector);
    bytes::low_first_has_length(size + 0x100_0000_0000_0000 * flags, 8);
    let low = bytes::le32(b, i);
    let high = bytes::le32(b, i + 4);
    let whole = size + 0x100_0000_0000_0000 * flags;
    assert(low + 0x1_0000_0000 * high == whole);
    let three = b[i + 4] + 0x100 * b[i + 5] + 0x1_0000 * b[i + 6];
    assert(high == three + 0x100_0000 * b[i + 7]);
    assert(low + 0x1_0000_0000 * three + 0x100_0000_0000_0000 * b[i + 7] == whole);
    assert(0 <= low + 0x1_0000_0000 * three < 0x100_0000_0000_0000);
}

/// The lookup table has a row for each fifty bytes: a resource in the first 24, and the
/// hash of its content in the last twenty.
#[verifier::rlimit(40)]
pub proof fn lookup_rows_read_back(b: Seq<u8>, k: int, size: int, flags: u8, offset: int, original: int, hash: Seq<u8>)
    requires
        b.len() % 50 == 0,
        0 <= k < b.len() / 50,
        0 <= size < 0x100_0000_0000_0000,
        0 <= offset <= u64::MAX,
        0 <= original <= u64::MAX,
        number_at(b, 50 * k, size + 0x100_0000_0000_0000 * flags, 8),
        number_at(b, 50 * k + 8, offset, 8),
        number_at(b, 50 * k + 16, original, 8),
        hash.len() == 20,
        bytes::stands_at(b, 50 * k + 30, hash),
    ensures
        table_view(b) matches Ok(rows) && rows.len() == b.len() / 50 && rows[k].hash == hash && rows[k].resource.size_on_disk
            == size && rows[k].resource.flags == flags && rows[k].resource.offset == offset && rows[k].resource.original_size
            == original,
{
    resources_read_back(b, 50 * k, size, flags, offset, original);
}

/// The compressor of an image goes by three bits of its flags, of which just one is set, if
/// bit 1 says that there is one.
pub proof fn compressor_goes_by_its_bit(flags: u32)
    ensures
        ({
            let f = flags as int;
            let (x, l, m) = (f / 0x2_0000 % 2, f / 0x4_0000 % 2, f / 0x8_0000 % 2);
            match compressor_of(flags) {
                Ok(None) => f / 2 % 2 == 0,
                Ok(Some(Compressor::Xpress)) => f / 2 % 2 == 1 && x == 1 && l == 0 && m == 0,
                Ok(Some(Compressor::Lzx)) => f / 2 % 2 == 1 && x == 0 && l == 1 && m == 0,
                Ok(Some(Compressor::Lzms)) => f / 2 % 2 == 1 && x == 0 && l == 0 && m == 1,
                Err(_) => f / 2 % 2 == 1 && x + l + m != 1,
            }
        }),
{
    assert((flags & 0x2 != 0) == (flags / 2 % 2 == 1) && (flags & 0x2_0000 != 0) == (flags / 0x2_0000 % 2 == 1) && (flags
        & 0x4_0000 != 0) == (flags / 0x4_0000 % 2 == 1) && (flags & 0x8_0000 != 0) == (flags / 0x8_0000 % 2 == 1))
        by (bit_vector);
}

/// The header of an image reads back: the mark, the flags, the size of a chunk, the number
/// of the part and of all parts, and the place of the lookup table, each at its own offset.
/// An image that is spread over several files has at least two parts.
#[verifier::rlimit(40)]
pub proof fn header_reads_back(b: Seq<u8>, flags: u32, chunk: int, part: int, parts: int, size: int, kind: u8, offset: int, original: int)
    requires
        b.len() >= 208,
        b.take(8) == seq![0x4Du8, 0x53, 0x57, 0x49, 0x4D, 0, 0, 0],
        number_at(b, 16, flags as int, 4),
        number_at(b, 20, chunk, 4),
        chunk <= u32::MAX,
        number_at(b, 40, part, 2),
        part <= u16::MAX,
        number_at(b, 42, parts, 2),
        parts <= u16::MAX,
        0 <= size < 0x100_0000_0000_0000,
        0 <= offset <= u64::MAX,
        0 <= original <= u64::MAX,
        number_at(b, 48, size + 0x100_0000_0000_0000 * kind, 8),
        number_at(b, 56, offset, 8),
        number_at(b, 64, original, 8),
    ensures
        match header_view(b) {
            Ok(h) => h.chunk_size == chunk && h.part_number == part && compressor_of(flags) == Ok::<Option<Compressor>, ()>(
                h.compressor,
            ) && h.offset_table.size_on_disk == size && h.offset_table.flags == kind && h.offset_table.offset == offset
                && h.offset_table.original_size == original && (h.total_parts == parts || flags as int / 8 % 2 == 1 && parts
                <= 1 && h.total_parts == 2) && (flags as int / 8 % 2 == 1 ==> h.total_parts > 1),
            Err(_) => compressor_of(flags) is Err,
        },
{
    assert((flags & 0x8 != 0) == (flags / 8 % 2 == 1)) by (bit_vector);
    bytes::standing_numbers_are_read(b, 16, flags as int);
    bytes::standing_numbers_are_read(b, 20, chunk);
    bytes::standing_numbers_are_read(b, 40, part);
    bytes::standing_numbers_are_read(b, 42, parts);
    resources_read_back(b, 48, size, kind, offset, original);
    assert(b.subrange(0, 8) =~= b.take(8));
    assert(MAGIC@ =~= seq![0x4Du8, 0x53, 0x57, 0x49, 0x4D, 0, 0, 0]);
}

/// The security block at the start of the metadata is as long as it says, and eight bytes
/// at least, filled up to a multiple of eight.
pub proof fn security_block_is_filled_up(meta: Seq<u8>, total: int)
    requires
        meta.len() >= 8,
        number_at(meta, 0, total, 4),
        total <= u32::MAX,
    ensures
        match security_len(meta) {
            Ok(n) => n % 8 == 0 && n >= 8 && total <= n && (n < total + 8 || n == 8) && n <= meta.len(),
            Err(_) => meta.len() < 8 || meta.len() < total + 8,
        },
{
    bytes::standing_numbers_are_read(meta, 0, total);
}

/// The bytes of units, the lower of each first.
pub open spec fn unit_bytes(u: Seq<u16>) -> Seq<u8>
    decreases u.len(),
{
    if u.len() == 0 {
        Seq::empty()
    } else {
        unit_bytes(u.drop_last()) + bytes::low_first(u.last() as int, 2)
    }
}

#[verifier::rlimit(40)]
proof fn unit_bytes_read_back(u: Seq<u16>)
    ensures
        unit_bytes(u).len() == 2 * u.len(),
        units(unit_bytes(u)) == u,
    decreases u.len(),
{
    let b = unit_bytes(u);
    if u.len() > 0 {
        let init = u.drop_last();
        let before = unit_bytes(init);
        let v = u.last() as int;
        unit_bytes_read_back(init);
        bytes::first_bytes(v);
        assert forall|i: int| 0 <= i < u.len() implies units(b)[i] == u[i] by {
            if i < init.len() {
                assert(b[2 * i] == before[2 * i] && b[2 * i + 1] == before[2 * i + 1]);
                assert(units(before)[i] == init[i]);
            } else {
                assert(b[2 * i] == (v % 256) as u8 && b[2 * i + 1] == (v / 256 % 256) as u8);
            }
        }
        assert(units(b) =~= u);
    } else {
        assert(units(b) =~= u);
    }
}

/// A directory entry reads back: its length, whether it is a directory, where its own list
/// begins, the time of its last change, its hash and its name, each at its own offset. The
/// next entry stands behind it, at a multiple of eight bytes from its start.
#[verifier::rlimit(40)]
pub proof fn directory_entries_read_back(
    meta: Seq<u8>,
    at: int,
    length: int,
    attributes: u32,
    sub: int,
    ticks: int,
    hash: Seq<u8>,
    name: Seq<char>,
)
    requires
        0 <= at,
        length > 8,
        length <= u64::MAX,
        sub <= u64::MAX,
        ticks <= u64::MAX,
        hash.len() == 20,
        text::units_of_text(name).len() < 0x8000,
        number_at(meta, at, length, 8),
        number_at(meta, at + 8, attributes as int, 4),
        number_at(meta, at + 16, sub, 8),
        number_at(meta, at + 56, ticks, 8),
        bytes::stands_at(meta, at + 64, hash),
        number_at(meta, at + 100, 2 * text::units_of_text(name).len() as int, 2),
        bytes::stands_at(meta, at + 102, unit_bytes(text::units_of_text(name))),
    ensures
        match dirent_view(meta, at) {
            Ok(Some((d, next))) => {
                &&& d.is_dir == (attributes as int / 16 % 2 == 1)
                &&& d.subdir_offset == sub
                &&& d.modified == datetime::filetime_view(ticks)
                &&& d.hash == hash
                &&& d.name == name
                &&& at + length <= next < at + length + 8
                &&& (next - at) % 8 == 0
            },
            Ok(None) => false,
            Err(_) => at + length + 8 > meta.len(),
        },
{
    assert((attributes & 0x10 != 0) == (attributes / 16 % 2 == 1)) by (bit_vector);
    eight_bytes_are_read(meta, at, length);
    four_bytes_are_read(meta, at + 8, attributes as int);
    eight_bytes_are_read(meta, at + 16, sub);
    eight_bytes_are_read(meta, at + 56, ticks);
    entry_names_read_back(meta, at, name);
}

proof fn eight_bytes_are_read(s: Seq<u8>, i: int, v: int)
    requires
        number_at(s, i, v, 8),
        v <= u64::MAX,
    ensures
        bytes::le64(s, i) == v,
        i + 8 <= s.len(),
{
    bytes::standing_numbers_are_read(s, i, v);
    bytes::low_first_has_length(v, 8);
}

proof fn four_bytes_are_read(s: Seq<u8>, i: int, v: int)
    requires
        number_at(s, i, v, 4),
        v <= u32::MAX,
    ensures
        bytes::le32(s, i) == v,
        i + 4 <= s.len(),
{
    bytes::standing_numbers_are_read(s, i, v);
    bytes::low_first_has_length(v, 4);
}

#[verifier::rlimit(40)]
proof fn entry_names_read_back(meta: Seq<u8>, at: int, name: Seq<char>)
    requires
        0 <= at,
        text::units_of_text(name).len() < 0x8000,
        number_at(meta, at + 100, 2 * text::units_of_text(name).len() as int, 2),
        bytes::stands_at(meta, at + 102, unit_bytes(text::units_of_text(name))),
    ensures
        dirent_name(meta, at) == Ok::<Seq<char>, ErrorView>(name),
        at + 102 <= meta.len(),
{
    let u = text::units_of_text(name);
    let n = 2 * u.len() as int;
    bytes::standing_numbers_are_read(meta, at + 100, n);
    unit_bytes_read_back(u);
    text::utf16_reads_back(name);
    if u.len() == 0 {
        assert(name =~= Seq::<char>::empty()) by {
            if name.len() > 0 {
                assert(text::units_of(name[0]).len() > 0);
            }
        }
    } else {
        let b = meta.subrange(at + 102, at + 102 + n);
        assert(b == unit_bytes(u));
        assert(utf16le_name(b) == Ok::<Seq<char>, ErrorView>(name));
    }
}

/// An entry that is no longer than its length, eight bytes, ends a list.
pub proof fn short_entries_end_lists(meta: Seq<u8>, at: int, length: int)
    requires
        0 <= at,
        length <= 8,
        number_at(meta, at, length, 8),
    ensures
        dirent_view(meta, at) == Ok::<Option<(DentryView, int)>, ErrorView>(None),
{
    bytes::standing_numbers_are_read(meta, at, length);
    bytes::low_first_has_length(length, 8);
}

/// The permissions of a file stand in an item of their own, tagged so, behind the owner and
/// the group: of the mode there, the lower twelve bits count. Items with another tag are
/// passed over, each filled up to a multiple of eight bytes.
#[verifier::rlimit(40)]
pub proof fn tagged_item_has_the_mode(meta: Seq<u8>, p: int, end: int, tag: int, len: int, mode: int, fill: int)
    requires
        0 <= p,
        end <= meta.len(),
        tag <= u32::MAX,
        len <= u32::MAX,
        mode <= u32::MAX,
        p + 24 <= end,
        p + 8 + len + fill <= end,
        0 <= fill < 8,
        (len + fill) % 8 == 0,
        number_at(meta, p, tag, 4),
        number_at(meta, p + 4, len, 4),
        number_at(meta, p + 16, mode, 4),
    ensures
        tag == 0x337D_D873 && len >= 16 ==> unix_mode(meta, p, end) == Some((mode % 0o10000) as u32),
        tag != 0x337D_D873 ==> unix_mode(meta, p, end) == unix_mode(meta, p + 8 + len + fill, end),
{
    bytes::standing_numbers_are_read(meta, p, tag);
    bytes::standing_numbers_are_read(meta, p + 4, len);
    bytes::standing_numbers_are_read(meta, p + 16, mode);
    assert(up_to_eight(len) == len + fill);
    assert(bytes::le32(meta, p) == tag && bytes::le32(meta, p + 4) == len && bytes::le32(meta, p + 16) == mode);
    assert(!(p < 0 || end > meta.len() || p + 8 + UNIX_DATA_LEN > end || p + 8 + len > end));
    reveal_with_fuel(unix_mode, 2);
}

/// A resource is cut into as many chunks as it takes: all but the last are full, and the
/// last is not empty.
#[verifier::rlimit(40)]
pub proof fn chunks_are_full_but_the_last(size: int, chunk: int, i: int)
    requires
        0 < size,
        0 < chunk,
        0 <= i < chunk_count(size, chunk),
    ensures
        i < chunk_count(size, chunk) - 1 ==> chunk_length(size, chunk, chunk_count(size, chunk), i) == chunk && (i + 1)
            * chunk < size,
        i == chunk_count(size, chunk) - 1 ==> chunk_length(size, chunk, chunk_count(size, chunk), i) == size - i * chunk
            && 0 < size - i * chunk <= chunk,
{
    let n = chunk_count(size, chunk);
    let x = size + chunk - 1;
    vstd::arithmetic::div_mod::lemma_fundamental_div_mod(x, chunk);
    vstd::arithmetic::div_mod::lemma_mod_bound(x, chunk);
    assert(chunk * n == n * chunk) by (nonlinear_arith);
    assert((n - 1) * chunk == n * chunk - chunk) by (nonlinear_arith);
    assert(n * chunk >= size && (n - 1) * chunk < size);
    if i < n - 1 {
        assert((i + 1) * chunk <= (n - 1) * chunk) by (nonlinear_arith)
            requires
                i + 1 <= n - 1,
                0 < chunk,
        ;
    } else {
        let rest = size - (n - 1) * chunk;
        if rest == chunk {
            assert(size == n * chunk + 0);
            vstd::arithmetic::div_mod::lemma_fundamental_div_mod_converse(size, chunk, n, 0);
        } else {
            vstd::arithmetic::div_mod::lemma_fundamental_div_mod_converse(size, chunk, n - 1, rest);
        }
    }
}

/// A resource that is stored as it is, is read where it lies.
pub proof fn stored_resources_are_read_where_they_lie(
    before: Seq<u8>,
    body: Seq<u8>,
    behind: Seq<u8>,
    chunk_size: int,
    compressor: Option<Compressor>,
    rh: ResourceHeader,
)
    requires
        rh.offset == before.len(),
        rh.size_on_disk == body.len(),
        rh.flags as int / 4 % 2 == 0,
    ensures
        resource_view(before + body + behind, chunk_size, compressor, rh) == Ok::<Seq<u8>, ErrorView>(body),
{
    let flags = rh.flags;
    assert((flags & 0x04 != 0) == (flags / 4 % 2 == 1)) by (bit_vector);
    let all = before + body + behind;
    let n = before.len() as int;
    assert(all.subrange(n, n + body.len()) =~= body);
    if body.len() == 0 {
        assert(body =~= Seq::<u8>::empty());
    }
}

/// The metadata of an image is the first resource of the lookup table that is flagged so,
/// and the bodies of files are among those that are not.
pub proof fn metadata_is_told_by_its_flag(all: Seq<LookupView>, row: LookupView)
    ensures
        ({
            let is_meta = row.resource.flags as int / 2 % 2 == 1;
            &&& data_entries(all.push(row)) == if is_meta { data_entries(all) } else { data_entries(all).push(row) }
            &&& first_metadata(all.push(row)) == match first_metadata(all) {
                Some(rh) => Some(rh),
                None => if is_meta { Some(row.resource) } else { None },
            }
        }),
        first_metadata(Seq::empty()) is None,
        data_entries(Seq::empty()) == Seq::<LookupView>::empty(),
{
    let flags = row.resource.flags;
    assert((flags & 0x02 != 0) == (flags / 2 % 2 == 1)) by (bit_vector);
    assert(all.push(row).drop_last() =~= all);
}

/// The tagged items of an entry begin behind its names, each of which has two bytes of zero
/// behind it, at the next multiple of eight bytes.
pub proof fn items_begin_behind_names(meta: Seq<u8>, at: int, name: int, short: int)
    requires
        0 <= at,
        number_at(meta, at + 98, short, 2),
        number_at(meta, at + 100, name, 2),
        name <= u16::MAX,
        short <= u16::MAX,
    ensures
        ({
            let end = at + 102 + (if name == 0 { 0 } else { name + 2 }) + (if short == 0 { 0 } else { short + 2 });
            end <= items_at(meta, at) < end + 8 && items_at(meta, at) % 8 == 0
        }),
{
    bytes::standing_numbers_are_read(meta, at + 98, short);
    bytes::standing_numbers_are_read(meta, at + 100, name);
}

proof fn listing_is_looked_up(meta: Seq<u8>, lookup: Seq<LookupView>)
    ensures
        tree_view(meta, lookup) matches Ok(files) ==> bodies_are_rows(files, lookup),
{
    if security_len(meta) is Ok {
        if let Ok(Some((root, _))) = dirent_view(meta, security_len(meta)->Ok_0) {
            listed_bodies_are_rows(
                meta,
                root.subdir_offset as int,
                Seq::empty(),
                lookup,
                seq![root.subdir_offset as int],
            );
        }
    }
}

proof fn rows_of_parts(all: Seq<LookupView>)
    ensures
        first_metadata(all) matches Some(rh) ==> is_row(all, rh),
        forall|rh: ResourceHeader| is_row(data_entries(all), rh) ==> #[trigger] is_row(all, rh),
    decreases all.len(),
{
    if all.len() > 0 {
        let init = all.drop_last();
        rows_of_parts(init);
        assert forall|rh: ResourceHeader| is_row(init, rh) implies #[trigger] is_row(all, rh) by {
            let i = choose|i: int| 0 <= i < init.len() && (#[trigger] init[i]).resource == rh;
            assert(all[i].resource == rh);
        }
        assert(is_row(all, all.last().resource)) by {
            assert(all[all.len() - 1].resource == all.last().resource);
        }
        let data = data_entries(all);
        assert forall|rh: ResourceHeader| is_row(data, rh) implies #[trigger] is_row(all, rh) by {
            let i = choose|i: int| 0 <= i < data.len() && (#[trigger] data[i]).resource == rh;
            if all.last().resource.spec_is_metadata() {
                assert(is_row(data_entries(init), rh));
            } else if i < data.len() - 1 {
                assert(data_entries(init)[i].resource == rh);
                assert(is_row(data_entries(init), rh));
            }
        }
    }
}

/// An opened image.
pub struct WimReader {
    inner: Vec<u8>,
    chunk_size: u32,
    compressor: Option<Compressor>,
    entries: Vec<Entry>,
    bodies: Vec<Option<ResourceHeader>>,
}

impl WimReader {
    #[verifier::type_invariant]
    spec fn wf(self) -> bool {
        &&& self.entries.len() == self.bodies.len()
        &&& forall|i: int|
            0 <= i < self.bodies.len() && (#[trigger] self.bodies@[i]) is Some && needs_chunks(
                self.compressor,
                self.bodies@[i]->0,
            ) ==> self.chunk_size > 0
    }

    /// The reader shows this file's image.
    pub closed spec fn shows(&self, src: Seq<u8>, image: ImageView) -> bool {
        &&& self.inner@ == src
        &&& self.chunk_size == image.header.chunk_size
        &&& self.compressor == image.header.compressor
        &&& listing_of(self.entries@, self.bodies@) == image.files
    }
}

/// The body of an entry of an image.
pub open spec fn image_body(src: Seq<u8>, image: ImageView, idx: int) -> Result<Seq<u8>, ErrorView> {
    if idx >= image.files.len() {
        Err(ErrorView::InvalidIndex(idx))
    } else {
        match image.files[idx].body {
            None => Ok(Seq::empty()),
            Some(rh) => resource_view(src, image.header.chunk_size as int, image.header.compressor, rh),
        }
    }
}

/// What a reader of an image lists and reads.
pub proof fn reader_shows_image(reader: WimReader, src: Seq<u8>, image: ImageView)
    requires
        reader.shows(src, image),
    ensures
        reader.listing() == image.files.map_values(|l: Listed| l.entry),
        forall|idx: int| 0 <= idx ==> #[trigger] reader.body(idx) == image_body(src, image, idx),
{
    assert(reader.listing() =~= image.files.map_values(|l: Listed| l.entry));
    assert forall|idx: int| 0 <= idx implies #[trigger] reader.body(idx) == image_body(src, image, idx) by {
        if idx < image.files.len() {
            assert(image.files[idx].body == reader.bodies@[idx]);
        }
    }
}

impl ArchiveReader for WimReader {
    open spec fn spec_format(&self) -> FormatId {
        FormatId::Wim
    }

    closed spec fn listing(&self) -> Seq<EntryView> {
        archive::views(self.entries@)
    }

    closed spec fn body(&self, idx: int) -> Result<Seq<u8>, ErrorView> {
        if idx >= self.entries.len() {
            Err(ErrorView::InvalidIndex(idx))
        } else {
            match self.bodies@[idx] {
                None => Ok(Seq::empty()),
                Some(rh) => resource_view(self.inner@, self.chunk_size as int, self.compressor, rh),
            }
        }
    }

    fn format(&self) -> (r: FormatId) {
        FormatId::Wim
    }

    fn entries(&self) -> (r: &Vec<Entry>) {
        &self.entries
    }

    fn read_entry(&self, idx: usize) -> (r: Result<Vec<u8>, Error>) {
        proof {
            use_type_invariant(self);
        }
        if idx >= self.bodies.len() {
            return Err(Error::InvalidIndex(idx));
        }
        match self.bodies[idx] {
            None => {
                let none: Vec<u8> = Vec::new();
                assert(none@ =~= Seq::<u8>::empty());
                Ok(none)
            },
            Some(rh) => read_resource(self.inner.as_slice(), self.chunk_size, self.compressor, &rh),
        }
    }

    fn verify_password(&self) -> (r: Result<(), Error>) {
        Ok(())
    }
}

impl BatchReader for WimReader {
    fn read_entries<S: EntrySink>(&self, indices: &[usize], sink: &mut S) -> (r: Result<(), Error>) {
        read_entries_one_by_one(self, indices, sink)
    }
}

/// Reads WIM images.
#[derive(Debug, Clone, Copy)]
pub struct WimHandler;

impl FormatHandler for WimHandler {
    open spec fn spec_id(&self) -> FormatId {
        FormatId::Wim
    }

    open spec fn spec_probe(&self, header: Seq<u8>, name: Option<Seq<char>>) -> Confidence {
        archive::magic_when(
            bytes::stands_at(header, 0, MAGIC@) || text::name_has_suffix(name, ".wim"@) || text::name_has_suffix(name, ".esd"@)
                || text::name_has_suffix(name, ".swm"@),
        )
    }

    fn id(&self) -> (r: FormatId) {
        FormatId::Wim
    }

    fn probe(&self, header: &[u8], name: Option<&str>) -> (r: Confidence) {
        Confidence::magic_if(
            starts_with(header, &MAGIC) || name_ends(name, ".wim") || name_ends(name, ".esd") || name_ends(name, ".swm"),
        )
    }
}

/// The outcome of opening an image.
pub open spec fn opens(r: Result<WimReader, Error>, src: Source) -> bool {
    match src {
        Source::Stream { .. } => error::fails_with(
            r,
            ErrorView::Unsupported { format: "wim"@, feature: "non-seekable source (wim requires seek)"@ },
        ),
        Source::Seekable { .. } => match image_view(src.content()) {
            Ok(image) => r matches Ok(reader) && reader.shows(src.content(), image),
            Err(e) => error::fails_with(r, e),
        },
    }
}

impl WimHandler {
    /// Open an image. A source that cannot be read at any place is not supported.
    pub fn open(&self, src: Source, opts: &OpenOptions) -> (r: Result<WimReader, Error>)
        requires
            chunk_size_given(src.content()),
        ensures
            opens(r, src),
    {
        let inner: Vec<u8> = match src {
            Source::Seekable { inner, .. } => inner,
            Source::Stream { .. } => {
                return Err(unsupported("wim", "non-seekable source (wim requires seek)"));
            },
        };
        if inner.len() < HEADER_LEN {
            return Err(corrupt("failed to fill whole buffer"));
        }
        let header = match WimHeader::parse(inner.as_slice()) {
            Ok(h) => h,
            Err(e) => {
                return Err(e);
            },
        };
        if header.spanned() {
            let a = decimal_text(header.part_number as u64);
            let b = decimal_text(header.total_parts as u64);
            let t1 = join2("multi-volume WIM / .swm (part ", a.as_str());
            let t2 = join2(t1.as_str(), " of ");
            let t3 = join2(t2.as_str(), b.as_str());
            let t4 = join2(t3.as_str(), ")");
            return Err(unsupported("wim", t4.as_str()));
        }
        if let Some(Compressor::Lzms) = header.compressor {
            return Err(unsupported("wim", "LZMS compression (.esd) — see task 20d"));
        }
        let table = match read_resource(inner.as_slice(), header.chunk_size, header.compressor, &header.offset_table) {
            Ok(b) => b,
            Err(e) => {
                return Err(e);
            },
        };
        let all = match parse_lookup_table(table.as_slice()) {
            Ok(v) => v,
            Err(e) => {
                return Err(e);
            },
        };
        let ghost rows = lookup_views(all@);
        proof {
            assert(header.chunk_size == 0 ==> table@ =~= stored_table(inner@, header.offset_table));
            assert(header.chunk_size > 0 || none_needs_chunks(header.compressor, rows));
            rows_of_parts(rows);
        }
        let (meta_rh, lookup) = part_lookup(all.as_slice());
        let rh = match meta_rh {
            Some(rh) => rh,
            None => {
                return Err(corrupt("wim: no metadata resource found in the lookup table"));
            },
        };
        let meta = match read_resource(inner.as_slice(), header.chunk_size, header.compressor, &rh) {
            Ok(b) => b,
            Err(e) => {
                return Err(e);
            },
        };
        match build_dir_tree(meta.as_slice(), lookup.as_slice()) {
            Ok((entries, bodies)) => {
                proof {
                    listing_is_looked_up(meta@, data_entries(rows));
                    let files = listing_of(entries@, bodies@);
                    assert forall|i: int| 0 <= i < bodies@.len() && (#[trigger] bodies@[i]) is Some && needs_chunks(
                        header.compressor,
                        bodies@[i]->0,
                    ) implies header.chunk_size > 0 by {
                        assert(files[i].body == bodies@[i]);
                        assert(is_row(rows, bodies@[i]->0));
                    }
                }
                Ok(
                    WimReader {
                        inner,
                        chunk_size: header.chunk_size,
                        compressor: header.compressor,
                        entries,
                        bodies,
                    },
                )
            },
            Err(e) => Err(e),
        }
    }
}

} // verus!
