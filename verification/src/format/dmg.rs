//! Apple disk images (`.dmg`): the trailer, the property list, the chunk tables,
//! and the raw image they describe.
use vstd::prelude::*;
use vstd::utf8;

use std::io::Read;

use base64::Engine;

use crate::format::xml;
use crate::archive;
use crate::bytes;
use crate::error;
use crate::paths;
use crate::text;
use crate::archive::{read_entries_one_by_one, ArchiveReader, BatchReader, Entry, EntrySink, EntryView};
use crate::archive::{Confidence, FormatHandler, FormatId, Source};
use crate::format::apfs;
use crate::format::hfsplus;
use crate::format::hfsplus::{open_hfsplus, HfsPlusReader, HFSX_SIGNATURE, HFS_PLUS_SIGNATURE};
use crate::bytes::{be_u16, be_u32, be_u64, copy_bytes, copy_range};
use crate::encoding::{is_utf8, text_lossy};
use crate::error::{corrupt, io_err_to_corrupt, io_error, unsupported, Error, ErrorView, IoError, IoKind};
use crate::format::xml::{child_elements, dict_value, exceeds_nesting_depth, has_tag};
use crate::format::xml::{parse_nodes, NodeView, XmlNode, MAX_DEPTH};
use crate::paths::extension_is;
use crate::text::{chars_of, decimal_text, hex8_text, join2, string_of};

verus! {

/// `koly`, read as a number.
pub const KOLY_SIGNATURE: u32 = 0x6B6F6C79;

/// The trailer is the last 512 bytes of the file.
pub const KOLY_SIZE: usize = 512;

pub const SECTOR_SIZE: u64 = 512;

/// The fields of the trailer that are used.
#[derive(Debug, Clone, Copy, PartialEq, Eq, Structural)]
pub struct Koly {
    pub data_fork_offset: u64,
    pub xml_offset: u64,
    pub xml_length: u64,
}

/// What a trailer says; a block without the signature is none.
pub open spec fn koly_view(b: Seq<u8>) -> Option<Koly> {
    if bytes::be32(b, 0) != KOLY_SIGNATURE {
        None
    } else {
        Some(
            Koly {
                data_fork_offset: bytes::be64(b, 0x18) as u64,
                xml_offset: bytes::be64(b, 0xD8) as u64,
                xml_length: bytes::be64(b, 0xE0) as u64,
            },
        )
    }
}

/// Parse a trailer of 512 bytes.
pub fn parse_koly(buf: &[u8]) -> (r: Result<Koly, Error>)
    requires
        buf.len() == KOLY_SIZE,
    ensures
        match r {
            Ok(k) => koly_view(buf@) == Some(k),
            Err(e) => koly_view(buf@) is None && e@ == ErrorView::UnknownFormat,
        },
{
    if be_u32(buf, 0) != KOLY_SIGNATURE {
        return Err(Error::UnknownFormat);
    }
    Ok(Koly { data_fork_offset: be_u64(buf, 0x18), xml_offset: be_u64(buf, 0xD8), xml_length: be_u64(buf, 0xE0) })
}

/// The trailer of a file, if it has one.
pub open spec fn file_koly(data: Seq<u8>) -> Option<Koly> {
    if data.len() < KOLY_SIZE {
        None
    } else {
        koly_view(data.skip(data.len() - KOLY_SIZE))
    }
}

/// Read the trailer of a file.
pub fn read_koly(data: &[u8]) -> (r: Result<Koly, Error>)
    ensures
        match r {
            Ok(k) => file_koly(data@) == Some(k),
            Err(e) => file_koly(data@) is None && e@ == ErrorView::UnknownFormat,
        },
{
    if data.len() < KOLY_SIZE {
        return Err(Error::UnknownFormat);
    }
    let from: usize = data.len() - KOLY_SIZE;
    let block: &[u8] = &data[from..data.len()];
    assert(block@ =~= data@.skip(from as int));
    parse_koly(block)
}

/// Whether a file ends in a trailer.
pub fn has_koly_trailer(data: &[u8]) -> (r: bool)
    ensures
        r == (file_koly(data@) is Some),
{
    read_koly(data).is_ok()
}

/// The bytes of the property list.
pub open spec fn plist_bytes(data: Seq<u8>, koly: Koly) -> Result<Seq<u8>, ErrorView> {
    if koly.xml_offset + koly.xml_length > data.len() {
        Err(ErrorView::Corrupt("dmg: plist offset/length out of range"@))
    } else {
        Ok(data.subrange(koly.xml_offset as int, koly.xml_offset + koly.xml_length))
    }
}

/// Read the bytes of the property list.
pub fn read_plist_bytes(data: &[u8], koly: &Koly) -> (r: Result<Vec<u8>, Error>)
    ensures
        archive::body_view(r) == plist_bytes(data@, *koly),
{
    let len: u64 = data.len() as u64;
    if koly.xml_offset > len || koly.xml_length > len - koly.xml_offset {
        return Err(corrupt("dmg: plist offset/length out of range"));
    }
    Ok(copy_range(data, koly.xml_offset as usize, (koly.xml_offset + koly.xml_length) as usize))
}

/// `n` bytes more, each the byte `back` places before it.
pub open spec fn copied_back(out: Seq<u8>, back: int, n: int) -> Seq<u8>
    decreases n,
{
    if n <= 0 {
        out
    } else {
        let shorter = copied_back(out, back, n - 1);
        shorter.push(shorter[shorter.len() - back])
    }
}

/// What follows `out` when the input is decoded from `i` on: runs of literal
/// bytes, and references back into what has been put out. Decoding ends with
/// the input or when `out_len` bytes are out.
pub open spec fn adc_from(input: Seq<u8>, i: int, out: Seq<u8>, out_len: int) -> Result<Seq<u8>, ErrorView>
    decreases input.len() - i,
{
    if i >= input.len() || i < 0 || out.len() >= out_len {
        Ok(out)
    } else {
        let b = input[i] as int;
        if b >= 0x80 {
            let n = b - 0x80 + 1;
            if i + 1 + n > input.len() || out.len() + n > out_len {
                Err(ErrorView::Corrupt("dmg: ADC literal run out of bounds"@))
            } else {
                adc_from(input, i + 1 + n, out + input.subrange(i + 1, i + 1 + n), out_len)
            }
        } else if b >= 0x40 {
            let n = b - 0x40 + 4;
            let back = input[i + 1] * 256 + input[i + 2] + 1;
            if i + 2 >= input.len() {
                Err(ErrorView::Corrupt("dmg: ADC long match header truncated"@))
            } else if back > out.len() || out.len() + n > out_len {
                Err(ErrorView::Corrupt("dmg: ADC back-reference out of bounds"@))
            } else {
                adc_from(input, i + 3, copied_back(out, back, n), out_len)
            }
        } else {
            let n = b / 4 + 3;
            let back = b % 4 * 256 + input[i + 1] + 1;
            if i + 1 >= input.len() {
                Err(ErrorView::Corrupt("dmg: ADC short match header truncated"@))
            } else if back > out.len() || out.len() + n > out_len {
                Err(ErrorView::Corrupt("dmg: ADC back-reference out of bounds"@))
            } else {
                adc_from(input, i + 2, copied_back(out, back, n), out_len)
            }
        }
    }
}

/// Copying back adds as many bytes as it says.
proof fn copied_back_len(out: Seq<u8>, back: int, n: int)
    requires
        n >= 0,
    ensures
        copied_back(out, back, n).len() == out.len() + n,
    decreases n,
{
    if n > 0 {
        copied_back_len(out, back, n - 1);
    }
}

/// Append `n` bytes, each the byte `back` places before it. The new bytes may be
/// among those that are copied.
pub fn adc_copy_overlap(out: &mut Vec<u8>, back: usize, n: usize, out_len: u64) -> (r: Result<(), Error>)
    requires
        back >= 1,
        old(out).len() <= out_len,
    ensures
        match r {
            Ok(_) => back <= old(out).len() && old(out).len() + n <= out_len && final(out)@ == copied_back(
                old(out)@,
                back as int,
                n as int,
            ) && final(out).len() == old(out).len() + n,
            Err(e) => (back > old(out).len() || old(out).len() + n > out_len) && e@ == ErrorView::Corrupt(
                "dmg: ADC back-reference out of bounds"@,
            ),
        },
{
    let pos: usize = out.len();
    if back > pos || n as u64 > out_len - pos as u64 {
        return Err(corrupt("dmg: ADC back-reference out of bounds"));
    }
    let mut k: usize = 0;
    while k < n
        invariant
            k <= n,
            1 <= back <= pos,
            pos + n <= out_len,
            out.len() == pos + k,
            out@ == copied_back(old(out)@, back as int, k as int),
        decreases n - k,
    {
        let b: u8 = out[out.len() - back];
        out.push(b);
        k = k + 1;
    }
    Ok(())
}

/// Decode Apple Data Compression to at most `out_len` bytes.
pub fn adc_decode(input: &[u8], out_len: u64) -> (r: Result<Vec<u8>, Error>)
    ensures
        archive::body_view(r) == adc_from(input@, 0, Seq::empty(), out_len as int),
        r matches Ok(v) ==> v.len() <= out_len,
{
    let mut out: Vec<u8> = Vec::new();
    let mut i: usize = 0;
    assert(out@ =~= Seq::<u8>::empty());
    while i < input.len() && (out.len() as u64) < out_len
        invariant
            i <= input.len(),
            out.len() <= out_len,
            adc_from(input@, 0, Seq::empty(), out_len as int) == adc_from(input@, i as int, out@, out_len as int),
        decreases input.len() - i,
    {
        let b: u8 = input[i];
        let room: usize = input.len() - i;
        if b >= 0x80 {
            let n: usize = (b - 0x80) as usize + 1;
            if room - 1 < n || n as u64 > out_len - out.len() as u64 {
                return Err(corrupt("dmg: ADC literal run out of bounds"));
            }
            let ghost before = out@;
            out.extend_from_slice(&input[i + 1..i + 1 + n]);
            assert(out@ =~= before + input@.subrange(i + 1, i + 1 + n));
            i = i + 1 + n;
        } else if b >= 0x40 {
            let n: usize = (b - 0x40) as usize + 4;
            if room < 3 {
                return Err(corrupt("dmg: ADC long match header truncated"));
            }
            let back: usize = input[i + 1] as usize * 256 + input[i + 2] as usize + 1;
            match adc_copy_overlap(&mut out, back, n, out_len) {
                Err(e) => {
                    return Err(e);
                },
                Ok(()) => {},
            }
            i = i + 3;
        } else {
            let n: usize = (b / 4) as usize + 3;
            if room < 2 {
                return Err(corrupt("dmg: ADC short match header truncated"));
            }
            let back: usize = (b % 4) as usize * 256 + input[i + 1] as usize + 1;
            match adc_copy_overlap(&mut out, back, n, out_len) {
                Err(e) => {
                    return Err(e);
                },
                Ok(()) => {},
            }
            i = i + 2;
        }
    }
    Ok(out)
}

/// `mish`, read as a number.
pub const MISH_SIGNATURE: u32 = 0x6D697368;

pub const MISH_CHUNKS_OFFSET: usize = 0xCC;

pub const CHUNK_ENTRY_SIZE: usize = 40;

/// One chunk of a table.
#[derive(Debug, Clone, Copy, PartialEq, Eq, Structural)]
pub struct ChunkEntry {
    pub entry_type: u32,
    /// Relative to the table's first sector.
    pub sector_number: u64,
    pub sector_count: u64,
    pub compressed_offset: u64,
    pub compressed_length: u64,
}

/// A table of chunks.
#[derive(Debug)]
pub struct Mish {
    pub sector_number: u64,
    pub sector_count: u64,
    pub data_offset: u64,
    pub chunks: Vec<ChunkEntry>,
}

/// A `Mish` with its chunks as a sequence.
pub struct MishView {
    pub sector_number: u64,
    pub sector_count: u64,
    pub data_offset: u64,
    pub chunks: Seq<ChunkEntry>,
}

impl View for Mish {
    type V = MishView;

    open spec fn view(&self) -> MishView {
        MishView {
            sector_number: self.sector_number,
            sector_count: self.sector_count,
            data_offset: self.data_offset,
            chunks: self.chunks@,
        }
    }
}

/// The chunk stored at `i`.
pub open spec fn chunk_at(b: Seq<u8>, i: int) -> ChunkEntry {
    ChunkEntry {
        entry_type: bytes::be32(b, i) as u32,
        sector_number: bytes::be64(b, i + 8) as u64,
        sector_count: bytes::be64(b, i + 16) as u64,
        compressed_offset: bytes::be64(b, i + 24) as u64,
        compressed_length: bytes::be64(b, i + 32) as u64,
    }
}

/// What a table of chunks says.
pub open spec fn mish_view(b: Seq<u8>) -> Result<MishView, ErrorView> {
    let n = bytes::be32(b, 0xC8);
    if b.len() < MISH_CHUNKS_OFFSET {
        Err(ErrorView::Corrupt("dmg: mish block truncated (header)"@))
    } else if bytes::be32(b, 0) != MISH_SIGNATURE {
        Err(ErrorView::Corrupt("dmg: bad mish signature "@ + text::hex8(bytes::be32(b, 0) as u32)))
    } else if b.len() < MISH_CHUNKS_OFFSET + n * CHUNK_ENTRY_SIZE {
        Err(ErrorView::Corrupt("dmg: mish block truncated (chunk table)"@))
    } else {
        Ok(
            MishView {
                sector_number: bytes::be64(b, 0x08) as u64,
                sector_count: bytes::be64(b, 0x10) as u64,
                data_offset: bytes::be64(b, 0x18) as u64,
                chunks: Seq::new(n as nat, |k: int| chunk_at(b, MISH_CHUNKS_OFFSET + k * CHUNK_ENTRY_SIZE)),
            },
        )
    }
}

/// A parsed table as its model.
pub open spec fn mish_result(r: Result<Mish, Error>) -> Result<MishView, ErrorView> {
    match r {
        Ok(m) => Ok(m@),
        Err(e) => Err(e@),
    }
}

/// Parse a table of chunks.
pub fn parse_mish(bytes: &[u8]) -> (r: Result<Mish, Error>)
    ensures
        mish_result(r) == mish_view(bytes@),
{
    if bytes.len() < MISH_CHUNKS_OFFSET {
        return Err(corrupt("dmg: mish block truncated (header)"));
    }
    let sig: u32 = be_u32(bytes, 0);
    if sig != MISH_SIGNATURE {
        let h = hex8_text(sig);
        return Err(Error::Corrupt(join2("dmg: bad mish signature ", h.as_str())));
    }
    let n: usize = be_u32(bytes, 0xC8) as usize;
    if (bytes.len() - MISH_CHUNKS_OFFSET) / CHUNK_ENTRY_SIZE < n {
        return Err(corrupt("dmg: mish block truncated (chunk table)"));
    }
    let mut chunks: Vec<ChunkEntry> = Vec::new();
    let mut off: usize = MISH_CHUNKS_OFFSET;
    let mut i: usize = 0;
    while i < n
        invariant
            i <= n,
            off == MISH_CHUNKS_OFFSET + i * CHUNK_ENTRY_SIZE,
            MISH_CHUNKS_OFFSET + n * CHUNK_ENTRY_SIZE <= bytes.len(),
            chunks.len() == i,
            forall|k: int| 0 <= k < i ==> chunks@[k] == chunk_at(bytes@, MISH_CHUNKS_OFFSET + k * CHUNK_ENTRY_SIZE),
        decreases n - i,
    {
        chunks.push(ChunkEntry {
            entry_type: be_u32(bytes, off),
            sector_number: be_u64(bytes, off + 8),
            sector_count: be_u64(bytes, off + 16),
            compressed_offset: be_u64(bytes, off + 24),
            compressed_length: be_u64(bytes, off + 32),
        });
        off = off + CHUNK_ENTRY_SIZE;
        i = i + 1;
    }
    let m = Mish {
        sector_number: be_u64(bytes, 0x08),
        sector_count: be_u64(bytes, 0x10),
        data_offset: be_u64(bytes, 0x18),
        chunks,
    };
    assert(m@.chunks =~= mish_view(bytes@)->Ok_0.chunks);
    Ok(m)
}

/// What `base64`'s standard engine makes of a text, or the text of its error.
pub uninterp spec fn base64_decoded(text: Seq<u8>) -> Result<Seq<u8>, Seq<char>>;

/// `base64::engine::general_purpose::STANDARD.decode`: what it returns depends on
/// the text alone.
#[verifier::external_body]
fn base64_standard(text: &[u8]) -> (r: Result<Vec<u8>, String>)
    ensures
        blob_view(r) == base64_decoded(text@),
{
    base64::engine::general_purpose::STANDARD.decode(text).map_err(|e| e.to_string())
}

/// The bytes of an outside call, or the text of its error.
pub open spec fn blob_view(r: Result<Vec<u8>, String>) -> Result<Seq<u8>, Seq<char>> {
    match r {
        Ok(v) => Ok(v@),
        Err(s) => Err(s@),
    }
}

/// An ASCII space, tab, line feed, form feed or carriage return.
pub open spec fn is_blank(c: char) -> bool {
    c == ' ' || c == '\t' || c == '\n' || c == '\u{C}' || c == '\r'
}

/// `s` without its blanks.
pub open spec fn without_blanks(s: Seq<char>) -> Seq<char>
    decreases s.len(),
{
    if s.len() == 0 {
        Seq::empty()
    } else if is_blank(s.last()) {
        without_blanks(s.drop_last())
    } else {
        without_blanks(s.drop_last()).push(s.last())
    }
}

/// What a base64 text holds, blanks aside.
pub open spec fn base64_view(s: Seq<char>) -> Result<Seq<u8>, ErrorView> {
    match base64_decoded(utf8::encode_utf8(without_blanks(s))) {
        Ok(b) => Ok(b),
        Err(m) => Err(ErrorView::Corrupt("dmg: base64 decode: "@ + m)),
    }
}

/// Decode a base64 text, blanks aside.
pub fn decode_base64(s: &str) -> (r: Result<Vec<u8>, Error>)
    ensures
        archive::body_view(r) == base64_view(s@),
{
    let cs = chars_of(s);
    let mut kept: Vec<char> = Vec::new();
    let mut i: usize = 0;
    assert(kept@ =~= without_blanks(cs@.take(0)));
    while i < cs.len()
        invariant
            i <= cs.len(),
            kept@ == without_blanks(cs@.take(i as int)),
        decreases cs.len() - i,
    {
        let c = cs[i];
        proof {
            assert(cs@.take(i + 1).last() == c);
            assert(cs@.take(i + 1).drop_last() =~= cs@.take(i as int));
        }
        if !(c == ' ' || c == '\t' || c == '\n' || c == '\u{C}' || c == '\r') {
            kept.push(c);
        }
        i = i + 1;
    }
    assert(cs@.take(i as int) =~= cs@);
    let text = string_of(kept.as_slice());
    match base64_standard(text.as_str().as_bytes()) {
        Ok(v) => Ok(v),
        Err(m) => Err(Error::Corrupt(join2("dmg: base64 decode: ", m.as_str()))),
    }
}

/// The chunk tables of the dictionaries among the elements `list`, from place
/// `k` on.
pub open spec fn tables_from(nodes: Seq<NodeView>, list: Seq<int>, k: int) -> Result<Seq<Seq<u8>>, ErrorView>
    decreases list.len() - k,
{
    if k < 0 || k >= list.len() {
        Ok(Seq::empty())
    } else if !xml::is_tag(nodes[list[k]], "dict"@) {
        tables_from(nodes, list, k + 1)
    } else {
        match xml::dict_entry(nodes, list[k], "Data"@) {
            None => Err(ErrorView::Corrupt("dmg: blkx entry missing Data"@)),
            Some(d) => match base64_view(
                match nodes[d].text {
                    Some(t) => t,
                    None => Seq::empty(),
                },
            ) {
                Err(e) => Err(e),
                Ok(b) => match tables_from(nodes, list, k + 1) {
                    Err(e) => Err(e),
                    Ok(rest) => Ok(seq![b] + rest),
                },
            },
        }
    }
}

/// The first dictionary among the elements `list`, from place `k` on.
pub open spec fn first_dict(nodes: Seq<NodeView>, list: Seq<int>, k: int) -> Option<int>
    decreases list.len() - k,
{
    if k < 0 || k >= list.len() {
        None
    } else if xml::is_tag(nodes[list[k]], "dict"@) {
        Some(list[k])
    } else {
        first_dict(nodes, list, k + 1)
    }
}

/// The chunk tables of a parsed property list: the `Data` of every dictionary in
/// the array `blkx` of `resource-fork`.
pub open spec fn blkx_of_nodes(nodes: Seq<NodeView>) -> Result<Seq<Seq<u8>>, ErrorView> {
    let roots = xml::children(nodes, 0);
    if roots.len() == 0 {
        Err(ErrorView::Corrupt("dmg: plist missing top-level dict"@))
    } else {
        match first_dict(nodes, xml::children(nodes, roots[0]), 0) {
            None => Err(ErrorView::Corrupt("dmg: plist missing top-level dict"@)),
            Some(top) => match xml::dict_entry(nodes, top, "resource-fork"@) {
                None => Err(ErrorView::Corrupt("dmg: plist missing resource-fork"@)),
                Some(fork) => match xml::dict_entry(nodes, fork, "blkx"@) {
                    None => Err(ErrorView::Corrupt("dmg: plist missing blkx"@)),
                    Some(array) => if !xml::is_tag(nodes[array], "array"@) {
                        Err(ErrorView::Corrupt("dmg: blkx is not an array"@))
                    } else {
                        tables_from(nodes, xml::children(nodes, array), 0)
                    },
                },
            },
        }
    }
}

/// The chunk tables of a property list.
pub open spec fn blkx_view(xml: Seq<u8>) -> Result<Seq<Seq<u8>>, ErrorView> {
    if !utf8::valid_utf8(xml) {
        Err(ErrorView::Corrupt("dmg: plist is not valid UTF-8"@))
    } else if xml::nests_deeper(utf8::decode_utf8(xml), MAX_DEPTH as int) {
        Err(ErrorView::Corrupt("dmg: plist nesting too deep"@))
    } else {
        match xml::parsed_nodes(utf8::decode_utf8(xml)) {
            Err(m) => Err(ErrorView::Corrupt("dmg: plist XML: "@ + m)),
            Ok(nodes) => blkx_of_nodes(nodes),
        }
    }
}

/// A list of byte runs, or its failure.
pub open spec fn blobs_view(r: Result<Vec<Vec<u8>>, Error>) -> Result<Seq<Seq<u8>>, ErrorView> {
    match r {
        Ok(v) => Ok(blob_views(v@)),
        Err(e) => Err(e@),
    }
}

/// The bytes of a list of byte runs.
pub open spec fn blob_views(v: Seq<Vec<u8>>) -> Seq<Seq<u8>> {
    v.map_values(|b: Vec<u8>| b@)
}

/// The chunk tables of the dictionaries among some elements.
fn collect_tables(nodes: &Vec<XmlNode>, list: &Vec<usize>) -> (r: Result<Vec<Vec<u8>>, Error>)
    requires
        forall|k: int| 0 <= k < list.len() ==> list@[k] < nodes.len(),
    ensures
        blobs_view(r) == tables_from(xml::node_views(nodes@), list@.map_values(|x: usize| x as int), 0),
{
    let ghost all = xml::node_views(nodes@);
    let ghost ints = list@.map_values(|x: usize| x as int);
    let ghost whole = tables_from(all, ints, 0);
    let mut out: Vec<Vec<u8>> = Vec::new();
    let mut k: usize = 0;
    proof {
        match whole {
            Ok(v) => assert(blob_views(out@) + v =~= v),
            Err(e) => {},
        }
    }
    while k < list.len()
        invariant
            k <= list.len(),
            all == xml::node_views(nodes@),
            ints == list@.map_values(|x: usize| x as int),
            forall|j: int| 0 <= j < list.len() ==> list@[j] < nodes.len(),
            whole == tables_from(all, ints, 0),
            whole == (match tables_from(all, ints, k as int) {
                Ok(v) => Ok(blob_views(out@) + v),
                Err(e) => Err(e),
            }),
        decreases list.len() - k,
    {
        assert(all[ints[k as int]] == nodes@[list@[k as int] as int]@);
        if has_tag(&nodes[list[k]], "dict") {
            let d: usize = match dict_value(nodes, list[k], "Data") {
                Some(d) => d,
                None => {
                    return Err(corrupt("dmg: blkx entry missing Data"));
                },
            };
            assert(all[d as int] == nodes@[d as int]@);
            let decoded = match &nodes[d].text {
                Some(t) => decode_base64(t.as_str()),
                None => {
                    let none = String::new();
                    assert(none@ =~= Seq::<char>::empty());
                    decode_base64(none.as_str())
                },
            };
            match decoded {
                Err(e) => {
                    return Err(e);
                },
                Ok(b) => {
                    let ghost before = out@;
                    out.push(b);
                    proof {
                        assert(blob_views(out@) =~= blob_views(before).push(b@));
                        match tables_from(all, ints, k + 1) {
                            Ok(v) => assert(blob_views(before) + (seq![b@] + v) =~= blob_views(out@) + v),
                            Err(e) => {},
                        }
                    }
                },
            }
        }
        k = k + 1;
    }
    proof {
        assert(blob_views(out@) + Seq::<Seq<u8>>::empty() =~= blob_views(out@));
    }
    Ok(out)
}

/// The first dictionary among some elements.
fn find_dict(nodes: &Vec<XmlNode>, list: &Vec<usize>) -> (r: Option<usize>)
    requires
        forall|k: int| 0 <= k < list.len() ==> list@[k] < nodes.len(),
    ensures
        match r {
            Some(d) => d < nodes.len() && first_dict(xml::node_views(nodes@), list@.map_values(|x: usize| x as int), 0)
                == Some(d as int),
            None => first_dict(xml::node_views(nodes@), list@.map_values(|x: usize| x as int), 0) is None,
        },
{
    let ghost all = xml::node_views(nodes@);
    let ghost ints = list@.map_values(|x: usize| x as int);
    let mut k: usize = 0;
    while k < list.len()
        invariant
            k <= list.len(),
            all == xml::node_views(nodes@),
            ints == list@.map_values(|x: usize| x as int),
            forall|j: int| 0 <= j < list.len() ==> list@[j] < nodes.len(),
            first_dict(all, ints, 0) == first_dict(all, ints, k as int),
        decreases list.len() - k,
    {
        assert(all[ints[k as int]] == nodes@[list@[k as int] as int]@);
        if has_tag(&nodes[list[k]], "dict") {
            return Some(list[k]);
        }
        k = k + 1;
    }
    None
}

/// The chunk tables of a parsed property list.
pub fn blkx_from_nodes(nodes: &Vec<XmlNode>) -> (r: Result<Vec<Vec<u8>>, Error>)
    ensures
        blobs_view(r) == blkx_of_nodes(xml::node_views(nodes@)),
{
    let roots = child_elements(nodes, 0);
    let ghost all = xml::node_views(nodes@);
    assert(roots@.map_values(|x: usize| x as int).len() == roots.len());
    if roots.len() == 0 {
        return Err(corrupt("dmg: plist missing top-level dict"));
    }
    assert(xml::children(all, 0)[0] == roots@.map_values(|x: usize| x as int)[0]);
    let below = child_elements(nodes, roots[0]);
    let top: usize = match find_dict(nodes, &below) {
        Some(d) => d,
        None => {
            return Err(corrupt("dmg: plist missing top-level dict"));
        },
    };
    let fork: usize = match dict_value(nodes, top, "resource-fork") {
        Some(d) => d,
        None => {
            return Err(corrupt("dmg: plist missing resource-fork"));
        },
    };
    let array: usize = match dict_value(nodes, fork, "blkx") {
        Some(d) => d,
        None => {
            return Err(corrupt("dmg: plist missing blkx"));
        },
    };
    assert(all[array as int] == nodes@[array as int]@);
    if !has_tag(&nodes[array], "array") {
        return Err(corrupt("dmg: blkx is not an array"));
    }
    let items = child_elements(nodes, array);
    collect_tables(nodes, &items)
}

/// The chunk tables of a property list.
pub fn parse_plist_blkx(xml_bytes: &[u8]) -> (r: Result<Vec<Vec<u8>>, Error>)
    ensures
        blobs_view(r) == blkx_view(xml_bytes@),
{
    if !is_utf8(xml_bytes) {
        return Err(corrupt("dmg: plist is not valid UTF-8"));
    }
    let xml = text_lossy(xml_bytes);
    if exceeds_nesting_depth(xml.as_str(), MAX_DEPTH) {
        return Err(corrupt("dmg: plist nesting too deep"));
    }
    match parse_nodes(xml.as_str()) {
        Err(m) => Err(Error::Corrupt(join2("dmg: plist XML: ", m.as_str()))),
        Ok(nodes) => blkx_from_nodes(&nodes),
    }
}

pub const ENTRY_ZERO_FILL: u32 = 0x0000_0000;

pub const ENTRY_RAW: u32 = 0x0000_0001;

pub const ENTRY_IGNORE: u32 = 0x0000_0002;

pub const ENTRY_ADC: u32 = 0x8000_0004;

pub const ENTRY_ZLIB: u32 = 0x8000_0005;

pub const ENTRY_BZIP2: u32 = 0x8000_0006;

pub const ENTRY_LZFSE: u32 = 0x8000_0007;

pub const ENTRY_LZMA: u32 = 0x8000_0008;

pub const ENTRY_COMMENT: u32 = 0x7FFF_FFFE;

pub const ENTRY_TERMINATOR: u32 = 0xFFFF_FFFF;

/// What `flate2::read::ZlibDecoder` reads to its end.
pub uninterp spec fn zlib_decoded(bytes: Seq<u8>) -> Result<Seq<u8>, (IoKind, Seq<char>)>;

/// What `bzip2::read::BzDecoder` reads to its end.
pub uninterp spec fn bz_decoded(bytes: Seq<u8>) -> Result<Seq<u8>, (IoKind, Seq<char>)>;

/// What `xz2::read::XzDecoder::new` reads to its end.
pub uninterp spec fn xz_stream_decoded(bytes: Seq<u8>) -> Result<Seq<u8>, (IoKind, Seq<char>)>;

/// What `lzfse_rust::decode_bytes` puts out, or the text of its error.
pub uninterp spec fn lzfse_decoded(bytes: Seq<u8>) -> Result<Seq<u8>, Seq<char>>;

/// `flate2::read::ZlibDecoder`, read to the end: what comes out depends on the
/// bytes alone.
#[verifier::external_body]
fn decode_zlib(bytes: &[u8]) -> (r: Result<Vec<u8>, IoError>)
    ensures
        error::io_bytes(r) == zlib_decoded(bytes@),
{
    let mut out = Vec::new();
    match flate2::read::ZlibDecoder::new(bytes).read_to_end(&mut out) {
        Ok(_) => Ok(out),
        Err(e) => Err(io_error(e)),
    }
}

/// `bzip2::read::BzDecoder`, read to the end: what comes out depends on the
/// bytes alone.
#[verifier::external_body]
fn decode_bz(bytes: &[u8]) -> (r: Result<Vec<u8>, IoError>)
    ensures
        error::io_bytes(r) == bz_decoded(bytes@),
{
    let mut out = Vec::new();
    match bzip2::read::BzDecoder::new(bytes).read_to_end(&mut out) {
        Ok(_) => Ok(out),
        Err(e) => Err(io_error(e)),
    }
}

/// `xz2::read::XzDecoder::new`, read to the end: what comes out depends on the
/// bytes alone.
#[verifier::external_body]
fn decode_xz_stream(bytes: &[u8]) -> (r: Result<Vec<u8>, IoError>)
    ensures
        error::io_bytes(r) == xz_stream_decoded(bytes@),
{
    let mut out = Vec::new();
    match xz2::read::XzDecoder::new(bytes).read_to_end(&mut out) {
        Ok(_) => Ok(out),
        Err(e) => Err(io_error(e)),
    }
}

/// `lzfse_rust::decode_bytes` into an empty vector: what comes out depends on the
/// bytes alone.
#[verifier::external_body]
fn decode_lzfse(bytes: &[u8]) -> (r: Result<Vec<u8>, String>)
    ensures
        blob_view(r) == lzfse_decoded(bytes@),
{
    let mut out = Vec::new();
    match lzfse_rust::decode_bytes(bytes, &mut out) {
        Ok(_) => Ok(out),
        Err(e) => Err(e.to_string()),
    }
}

/// The outcome of a decoder, its failure told as damage where it is one.
pub open spec fn stream_outcome(r: Result<Seq<u8>, (IoKind, Seq<char>)>) -> Result<Seq<u8>, ErrorView> {
    match r {
        Ok(b) => Ok(b),
        Err((kind, message)) => Err(error::io_error_view(kind, message)),
    }
}

/// The outcome of a decoder, its failure told as damage where it is one.
pub fn stream_result(r: Result<Vec<u8>, IoError>) -> (out: Result<Vec<u8>, Error>)
    ensures
        archive::body_view(out) == stream_outcome(error::io_bytes(r)),
{
    match r {
        Ok(v) => Ok(v),
        Err(e) => Err(io_err_to_corrupt(e)),
    }
}

/// What the bytes of a chunk decode to, whatever their number.
pub open spec fn chunk_content(entry_type: u32, comp: Seq<u8>, out_len: int) -> Result<Seq<u8>, ErrorView> {
    if entry_type == ENTRY_RAW {
        Ok(comp)
    } else if entry_type == ENTRY_ZLIB {
        stream_outcome(zlib_decoded(comp))
    } else if entry_type == ENTRY_BZIP2 {
        stream_outcome(bz_decoded(comp))
    } else if entry_type == ENTRY_LZMA {
        stream_outcome(xz_stream_decoded(comp))
    } else if entry_type == ENTRY_LZFSE {
        match lzfse_decoded(comp) {
            Ok(b) => Ok(b),
            Err(m) => Err(ErrorView::Corrupt("dmg: lzfse decode: "@ + m)),
        }
    } else if entry_type == ENTRY_ADC {
        adc_from(comp, 0, Seq::empty(), out_len)
    } else {
        Err(ErrorView::Corrupt("dmg: unknown chunk type "@ + text::hex8(entry_type)))
    }
}

/// A decoded chunk has exactly the length that its table gives.
pub open spec fn of_length(r: Result<Seq<u8>, ErrorView>, out_len: int) -> Result<Seq<u8>, ErrorView> {
    match r {
        Err(e) => Err(e),
        Ok(b) => if b.len() == out_len {
            Ok(b)
        } else {
            Err(
                ErrorView::Corrupt(
                    "dmg: chunk decoded to "@ + text::decimal(b.len()) + " bytes, expected "@ + text::decimal(
                        out_len as nat,
                    ),
                ),
            )
        },
    }
}

/// What a chunk decodes to.
pub open spec fn chunk_view(entry_type: u32, comp: Seq<u8>, out_len: int) -> Result<Seq<u8>, ErrorView> {
    of_length(chunk_content(entry_type, comp, out_len), out_len)
}

/// Hold a decoded chunk against the length that its table gives.
pub fn check_length(r: Result<Vec<u8>, Error>, out_len: u64) -> (out: Result<Vec<u8>, Error>)
    ensures
        archive::body_view(out) == of_length(archive::body_view(r), out_len as int),
{
    match r {
        Err(e) => Err(e),
        Ok(v) => {
            if v.len() as u64 != out_len {
                let a = decimal_text(v.len() as u64);
                let b = decimal_text(out_len);
                let t1 = join2("dmg: chunk decoded to ", a.as_str());
                let t2 = join2(t1.as_str(), " bytes, expected ");
                return Err(Error::Corrupt(join2(t2.as_str(), b.as_str())));
            }
            Ok(v)
        },
    }
}

/// Decode one chunk to exactly `out_len` bytes.
pub fn decode_chunk(entry_type: u32, comp: &[u8], out_len: u64) -> (r: Result<Vec<u8>, Error>)
    ensures
        archive::body_view(r) == chunk_view(entry_type, comp@, out_len as int),
        r matches Ok(v) ==> v.len() == out_len,
{
    let content: Result<Vec<u8>, Error> = if entry_type == ENTRY_RAW {
        Ok(copy_bytes(comp))
    } else if entry_type == ENTRY_ZLIB {
        stream_result(decode_zlib(comp))
    } else if entry_type == ENTRY_BZIP2 {
        stream_result(decode_bz(comp))
    } else if entry_type == ENTRY_LZMA {
        stream_result(decode_xz_stream(comp))
    } else if entry_type == ENTRY_LZFSE {
        match decode_lzfse(comp) {
            Ok(v) => Ok(v),
            Err(m) => Err(Error::Corrupt(join2("dmg: lzfse decode: ", m.as_str()))),
        }
    } else if entry_type == ENTRY_ADC {
        adc_decode(comp, out_len)
    } else {
        let h = hex8_text(entry_type);
        Err(Error::Corrupt(join2("dmg: unknown chunk type ", h.as_str())))
    };
    check_length(content, out_len)
}

/// A run of bytes at a place of the raw image.
#[derive(Debug)]
pub struct Piece {
    pub offset: u64,
    pub data: Vec<u8>,
}

/// A `Piece` with its bytes as a sequence.
pub struct PieceView {
    pub offset: int,
    pub data: Seq<u8>,
}

impl View for Piece {
    type V = PieceView;

    open spec fn view(&self) -> PieceView {
        PieceView { offset: self.offset as int, data: self.data@ }
    }
}

/// The views of a list of pieces.
pub open spec fn piece_views(v: Seq<Piece>) -> Seq<PieceView> {
    v.map_values(|p: Piece| p@)
}

/// The raw image: its length, and what is written into it in turn. Everything
/// else in it is zero.
#[derive(Debug)]
pub struct RawImage {
    pub len: u64,
    pub pieces: Vec<Piece>,
}

/// A chunk that puts nothing into the image.
pub open spec fn is_empty_chunk(entry_type: u32) -> bool {
    entry_type == ENTRY_ZERO_FILL || entry_type == ENTRY_IGNORE || entry_type == ENTRY_COMMENT || entry_type
        == ENTRY_TERMINATOR
}

/// What a chunk puts into the image.
pub open spec fn chunk_piece(src: Seq<u8>, koly: Koly, mish: MishView, c: ChunkEntry) -> Result<
    PieceView,
    ErrorView,
> {
    let sector = mish.sector_number + c.sector_number;
    let from = koly.data_fork_offset + mish.data_offset + c.compressed_offset;
    if sector * SECTOR_SIZE > u64::MAX {
        Err(ErrorView::Corrupt("dmg: chunk output offset overflow"@))
    } else if c.sector_count * SECTOR_SIZE > u64::MAX {
        Err(ErrorView::Corrupt("dmg: chunk output size overflow"@))
    } else if from > u64::MAX {
        Err(ErrorView::Corrupt("dmg: chunk offset overflow"@))
    } else if from + c.compressed_length > src.len() {
        Err(ErrorView::Corrupt("dmg: chunk data out of range"@))
    } else {
        match chunk_view(c.entry_type, src.subrange(from, from + c.compressed_length), c.sector_count * SECTOR_SIZE) {
            Err(e) => Err(e),
            Ok(data) => Ok(PieceView { offset: sector * SECTOR_SIZE, data }),
        }
    }
}

/// What the chunks of a table from `k` on put into the image.
pub open spec fn table_pieces(src: Seq<u8>, koly: Koly, mish: MishView, k: int) -> Result<Seq<PieceView>, ErrorView>
    decreases mish.chunks.len() - k,
{
    if k < 0 || k >= mish.chunks.len() {
        Ok(Seq::empty())
    } else if is_empty_chunk(mish.chunks[k].entry_type) {
        table_pieces(src, koly, mish, k + 1)
    } else {
        match chunk_piece(src, koly, mish, mish.chunks[k]) {
            Err(e) => Err(e),
            Ok(p) => match table_pieces(src, koly, mish, k + 1) {
                Err(e) => Err(e),
                Ok(rest) => Ok(seq![p] + rest),
            },
        }
    }
}

/// What the tables from `k` on put into the image.
pub open spec fn all_pieces(src: Seq<u8>, koly: Koly, mishes: Seq<MishView>, k: int) -> Result<
    Seq<PieceView>,
    ErrorView,
>
    decreases mishes.len() - k,
{
    if k < 0 || k >= mishes.len() {
        Ok(Seq::empty())
    } else {
        match table_pieces(src, koly, mishes[k], 0) {
            Err(e) => Err(e),
            Ok(p) => match all_pieces(src, koly, mishes, k + 1) {
                Err(e) => Err(e),
                Ok(rest) => Ok(p + rest),
            },
        }
    }
}

/// The parsed tables from `k` on. Each must end at a sector that can be counted.
pub open spec fn mishes_from(blobs: Seq<Seq<u8>>, k: int) -> Result<Seq<MishView>, ErrorView>
    decreases blobs.len() - k,
{
    if k < 0 || k >= blobs.len() {
        Ok(Seq::empty())
    } else {
        match mish_view(blobs[k]) {
            Err(e) => Err(e),
            Ok(m) => if m.sector_number + m.sector_count > u64::MAX {
                Err(ErrorView::Corrupt("dmg: mish sector range overflow"@))
            } else {
                match mishes_from(blobs, k + 1) {
                    Err(e) => Err(e),
                    Ok(rest) => Ok(seq![m] + rest),
                }
            },
        }
    }
}

/// The highest sector at which one of the tables ends.
pub open spec fn last_sector(mishes: Seq<MishView>) -> int
    decreases mishes.len(),
{
    if mishes.len() == 0 {
        0
    } else {
        let before = last_sector(mishes.drop_last());
        let end = mishes.last().sector_number + mishes.last().sector_count;
        if end > before { end } else { before }
    }
}

/// The raw image: its length and what is written into it.
pub struct RawView {
    pub len: int,
    pub pieces: Seq<PieceView>,
}

/// The raw image that a file's tables describe.
pub open spec fn raw_view(src: Seq<u8>, koly: Koly) -> Result<RawView, ErrorView> {
    match plist_bytes(src, koly) {
        Err(e) => Err(e),
        Ok(plist) => match blkx_view(plist) {
            Err(e) => Err(e),
            Ok(blobs) => match mishes_from(blobs, 0) {
                Err(e) => Err(e),
                Ok(mishes) => if last_sector(mishes) * SECTOR_SIZE > u64::MAX {
                    Err(ErrorView::Corrupt("dmg: raw image size overflow"@))
                } else {
                    match all_pieces(src, koly, mishes, 0) {
                        Err(e) => Err(e),
                        Ok(pieces) => Ok(RawView { len: last_sector(mishes) * SECTOR_SIZE, pieces }),
                    }
                },
            },
        },
    }
}

/// A built image as its model.
pub open spec fn raw_result(r: Result<RawImage, Error>) -> Result<RawView, ErrorView> {
    match r {
        Ok(i) => Ok(RawView { len: i.len as int, pieces: piece_views(i.pieces@) }),
        Err(e) => Err(e@),
    }
}

/// What one chunk puts into the image.
fn make_piece(src: &[u8], koly: &Koly, mish: &Mish, c: &ChunkEntry) -> (r: Result<Piece, Error>)
    ensures
        match r {
            Ok(p) => chunk_piece(src@, *koly, mish@, *c) == Ok::<PieceView, ErrorView>(p@),
            Err(e) => chunk_piece(src@, *koly, mish@, *c) == Err::<PieceView, ErrorView>(e@),
        },
{
    let max_sector: u64 = u64::MAX / SECTOR_SIZE;
    if mish.sector_number > max_sector || c.sector_number > max_sector - mish.sector_number {
        return Err(corrupt("dmg: chunk output offset overflow"));
    }
    let offset: u64 = (mish.sector_number + c.sector_number) * SECTOR_SIZE;
    if c.sector_count > max_sector {
        return Err(corrupt("dmg: chunk output size overflow"));
    }
    let out_len: u64 = c.sector_count * SECTOR_SIZE;
    if mish.data_offset > u64::MAX - koly.data_fork_offset {
        return Err(corrupt("dmg: chunk offset overflow"));
    }
    let base: u64 = koly.data_fork_offset + mish.data_offset;
    if c.compressed_offset > u64::MAX - base {
        return Err(corrupt("dmg: chunk offset overflow"));
    }
    let from: u64 = base + c.compressed_offset;
    let len: u64 = src.len() as u64;
    if from > len || c.compressed_length > len - from {
        return Err(corrupt("dmg: chunk data out of range"));
    }
    let comp: &[u8] = &src[from as usize..(from + c.compressed_length) as usize];
    assert(comp@ =~= src@.subrange(from as int, from + c.compressed_length));
    match decode_chunk(c.entry_type, comp, out_len) {
        Err(e) => Err(e),
        Ok(data) => Ok(Piece { offset, data }),
    }
}

/// Add what the chunks of one table put into the image.
fn add_table(src: &[u8], koly: &Koly, mish: &Mish, pieces: &mut Vec<Piece>) -> (r: Result<(), Error>)
    ensures
        match table_pieces(src@, *koly, mish@, 0) {
            Ok(p) => r is Ok && piece_views(final(pieces)@) == piece_views(old(pieces)@) + p,
            Err(e) => r matches Err(x) && x@ == e,
        },
{
    let ghost first = piece_views(pieces@);
    let ghost whole = table_pieces(src@, *koly, mish@, 0);
    let ghost mut done = Seq::<PieceView>::empty();
    let mut k: usize = 0;
    proof {
        assert(first + done =~= first);
        match whole {
            Ok(p) => assert(done + p =~= p),
            Err(e) => {},
        }
    }
    while k < mish.chunks.len()
        invariant
            k <= mish.chunks.len(),
            whole == table_pieces(src@, *koly, mish@, 0),
            piece_views(pieces@) == first + done,
            first == piece_views(old(pieces)@),
            whole == (match table_pieces(src@, *koly, mish@, k as int) {
                Ok(p) => Ok(done + p),
                Err(e) => Err(e),
            }),
        decreases mish.chunks.len() - k,
    {
        let c: ChunkEntry = mish.chunks[k];
        let t: u32 = c.entry_type;
        if !(t == ENTRY_ZERO_FILL || t == ENTRY_IGNORE || t == ENTRY_COMMENT || t == ENTRY_TERMINATOR) {
            match make_piece(src, koly, mish, &c) {
                Err(e) => {
                    return Err(e);
                },
                Ok(p) => {
                    let ghost before = pieces@;
                    pieces.push(p);
                    proof {
                        assert(piece_views(pieces@) =~= piece_views(before).push(p@));
                        assert((first + done).push(p@) =~= first + done.push(p@));
                        match table_pieces(src@, *koly, mish@, k + 1) {
                            Ok(rest) => assert(done + (seq![p@] + rest) =~= done.push(p@) + rest),
                            Err(e) => {},
                        }
                        done = done.push(p@);
                    }
                },
            }
        }
        k = k + 1;
    }
    proof {
        assert(done + Seq::<PieceView>::empty() =~= done);
    }
    Ok(())
}

/// The views of a list of tables.
pub open spec fn mish_views(v: Seq<Mish>) -> Seq<MishView> {
    v.map_values(|m: Mish| m@)
}

/// Parse the tables.
fn parse_tables(blobs: &Vec<Vec<u8>>) -> (r: Result<Vec<Mish>, Error>)
    ensures
        match r {
            Ok(v) => mishes_from(blob_views(blobs@), 0) == Ok::<Seq<MishView>, ErrorView>(mish_views(v@)) && forall|k: int|
                0 <= k < v.len() ==> (#[trigger] v@[k]).sector_number + v@[k].sector_count <= u64::MAX,
            Err(e) => mishes_from(blob_views(blobs@), 0) == Err::<Seq<MishView>, ErrorView>(e@),
        },
{
    let ghost all = blob_views(blobs@);
    let ghost whole = mishes_from(all, 0);
    let mut out: Vec<Mish> = Vec::new();
    let mut k: usize = 0;
    proof {
        match whole {
            Ok(v) => assert(mish_views(out@) + v =~= v),
            Err(e) => {},
        }
    }
    while k < blobs.len()
        invariant
            k <= blobs.len(),
            all == blob_views(blobs@),
            whole == mishes_from(all, 0),
            whole == (match mishes_from(all, k as int) {
                Ok(v) => Ok(mish_views(out@) + v),
                Err(e) => Err(e),
            }),
            forall|j: int| 0 <= j < out.len() ==> (#[trigger] out@[j]).sector_number + out@[j].sector_count <= u64::MAX,
        decreases blobs.len() - k,
    {
        assert(all[k as int] == blobs@[k as int]@);
        match parse_mish(blobs[k].as_slice()) {
            Err(e) => {
                return Err(e);
            },
            Ok(m) => {
                if m.sector_count > u64::MAX - m.sector_number {
                    return Err(corrupt("dmg: mish sector range overflow"));
                }
                let ghost before = out@;
                out.push(m);
                proof {
                    assert(mish_views(out@) =~= mish_views(before).push(m@));
                    match mishes_from(all, k + 1) {
                        Ok(v) => assert(mish_views(before) + (seq![m@] + v) =~= mish_views(out@) + v),
                        Err(e) => {},
                    }
                }
            },
        }
        k = k + 1;
    }
    proof {
        assert(mish_views(out@) + Seq::<MishView>::empty() =~= mish_views(out@));
    }
    Ok(out)
}

/// What the tables put into the image.
fn collect_pieces(src: &[u8], koly: &Koly, mishes: &Vec<Mish>) -> (r: Result<Vec<Piece>, Error>)
    ensures
        match all_pieces(src@, *koly, mish_views(mishes@), 0) {
            Ok(p) => r matches Ok(v) && piece_views(v@) == p,
            Err(e) => r matches Err(x) && x@ == e,
        },
{
    let ghost all = mish_views(mishes@);
    let ghost whole = all_pieces(src@, *koly, all, 0);
    let mut pieces: Vec<Piece> = Vec::new();
    let ghost mut done = Seq::<PieceView>::empty();
    let mut i: usize = 0;
    proof {
        assert(piece_views(pieces@) =~= done);
        match whole {
            Ok(p) => assert(done + p =~= p),
            Err(e) => {},
        }
    }
    while i < mishes.len()
        invariant
            i <= mishes.len(),
            all == mish_views(mishes@),
            whole == all_pieces(src@, *koly, all, 0),
            done == piece_views(pieces@),
            match all_pieces(src@, *koly, all, i as int) {
                Ok(p) => whole == Ok::<Seq<PieceView>, ErrorView>(done + p),
                Err(e) => whole == Err::<Seq<PieceView>, ErrorView>(e),
            },
        decreases mishes.len() - i,
    {
        assert(all[i as int] == mishes@[i as int]@);
        match add_table(src, koly, &mishes[i], &mut pieces) {
            Err(e) => {
                return Err(e);
            },
            Ok(()) => {},
        }
        proof {
            let p = table_pieces(src@, *koly, all[i as int], 0)->Ok_0;
            match all_pieces(src@, *koly, all, i + 1) {
                Ok(rest) => assert(done + (p + rest) =~= (done + p) + rest),
                Err(e) => {},
            }
            done = done + p;
        }
        i = i + 1;
    }
    proof {
        assert(done + Seq::<PieceView>::empty() =~= done);
    }
    Ok(pieces)
}

/// The raw image that a file's tables describe.
pub fn build_raw_image(src: &[u8], koly: &Koly) -> (r: Result<RawImage, Error>)
    ensures
        raw_result(r) == raw_view(src@, *koly),
{
    let plist = match read_plist_bytes(src, koly) {
        Ok(b) => b,
        Err(e) => {
            return Err(e);
        },
    };
    let blobs = match parse_plist_blkx(plist.as_slice()) {
        Ok(b) => b,
        Err(e) => {
            return Err(e);
        },
    };
    let mishes = match parse_tables(&blobs) {
        Ok(m) => m,
        Err(e) => {
            return Err(e);
        },
    };
    let ghost all = mish_views(mishes@);
    let mut sectors: u64 = 0;
    let mut k: usize = 0;
    while k < mishes.len()
        invariant
            k <= mishes.len(),
            all == mish_views(mishes@),
            sectors == last_sector(all.take(k as int)),
            forall|j: int| 0 <= j < mishes.len() ==> (#[trigger] mishes@[j]).sector_number + mishes@[j].sector_count
                <= u64::MAX,
        decreases mishes.len() - k,
    {
        proof {
            assert(all.take(k + 1).last() == mishes@[k as int]@);
            assert(all.take(k + 1).drop_last() =~= all.take(k as int));
        }
        let end: u64 = mishes[k].sector_number + mishes[k].sector_count;
        if end > sectors {
            sectors = end;
        }
        k = k + 1;
    }
    assert(all.take(k as int) =~= all);
    if sectors > u64::MAX / SECTOR_SIZE {
        return Err(corrupt("dmg: raw image size overflow"));
    }
    match collect_pieces(src, koly, &mishes) {
        Err(e) => Err(e),
        Ok(pieces) => Ok(RawImage { len: sectors * SECTOR_SIZE, pieces }),
    }
}

/// Every piece of a raw image is a whole number of sectors at a sector's start.
pub proof fn pieces_are_whole_sectors(src: Seq<u8>, koly: Koly, mish: MishView, c: ChunkEntry)
    requires
        chunk_piece(src, koly, mish, c) is Ok,
    ensures
        chunk_piece(src, koly, mish, c)->Ok_0.offset % 512 == 0,
        chunk_piece(src, koly, mish, c)->Ok_0.data.len() == c.sector_count * 512,
{
}

/// `n` zero bytes.
pub open spec fn zeros(n: int) -> Seq<u8> {
    Seq::new(n as nat, |i: int| 0u8)
}

/// `image` with a piece written into it; where the image is shorter it grows,
/// with zeros in between.
pub open spec fn written(image: Seq<u8>, piece: PieceView) -> Seq<u8> {
    let end = piece.offset + piece.data.len();
    let len = if end > image.len() && piece.data.len() > 0 { end } else { image.len() as int };
    Seq::new(
        len as nat,
        |i: int|
            if piece.offset <= i < end {
                piece.data[i - piece.offset]
            } else if i < image.len() {
                image[i]
            } else {
                0u8
            },
    )
}

/// The image with the first `n` pieces written into it in turn.
pub open spec fn image_of(len: int, pieces: Seq<PieceView>, n: int) -> Seq<u8>
    decreases n,
{
    if n <= 0 {
        zeros(len)
    } else {
        written(image_of(len, pieces, n - 1), pieces[n - 1])
    }
}

fn write_piece(image: &mut Vec<u8>, offset: usize, data: &[u8])
    requires
        offset + data.len() <= usize::MAX,
    ensures
        final(image)@ == written(old(image)@, PieceView { offset: offset as int, data: data@ }),
{
    let ghost before = image@;
    if data.len() == 0 {
        proof {
            assert(image@ =~= written(before, PieceView { offset: offset as int, data: data@ }));
        }
        return;
    }
    let end: usize = offset + data.len();
    while image.len() < end
        invariant
            image.len() >= before.len(),
            image.len() <= if end > before.len() { end as int } else { before.len() as int },
            forall|i: int| 0 <= i < before.len() ==> image@[i] == before[i],
            forall|i: int| before.len() <= i < image.len() ==> image@[i] == 0,
        decreases end - image.len(),
    {
        image.push(0);
    }
    let ghost grown = image@;
    let mut k: usize = 0;
    while k < data.len()
        invariant
            k <= data.len(),
            offset + data.len() == end,
            end <= image.len(),
            image.len() == grown.len(),
            forall|i: int|
                0 <= i < image.len() ==> image@[i] == if offset <= i < offset + k {
                    data@[i - offset]
                } else {
                    grown[i]
                },
        decreases data.len() - k,
    {
        image.set(offset + k, data[k]);
        k = k + 1;
    }
    proof {
        assert(image@ =~= written(before, PieceView { offset: offset as int, data: data@ }));
    }
}

/// The pieces end where a length can tell it.
pub open spec fn reachable(pieces: Seq<PieceView>) -> bool {
    forall|i: int| 0 <= i < pieces.len() ==> (#[trigger] pieces[i]).offset + pieces[i].data.len() <= usize::MAX
}

impl RawImage {
    /// All bytes of the image.
    pub fn to_bytes(&self) -> (r: Vec<u8>)
        requires
            self.len <= usize::MAX,
            reachable(piece_views(self.pieces@)),
        ensures
            r@ == image_of(self.len as int, piece_views(self.pieces@), self.pieces.len() as int),
    {
        let ghost all = piece_views(self.pieces@);
        let size: usize = self.len as usize;
        let mut image: Vec<u8> = Vec::new();
        while image.len() < size
            invariant
                image.len() <= size,
                image@ =~= zeros(image.len() as int),
            decreases size - image.len(),
        {
            image.push(0);
        }
        let mut n: usize = 0;
        while n < self.pieces.len()
            invariant
                n <= self.pieces.len(),
                all == piece_views(self.pieces@),
                reachable(all),
                image@ == image_of(self.len as int, all, n as int),
            decreases self.pieces.len() - n,
        {
            let piece = &self.pieces[n];
            assert(all[n as int] == piece@);
            write_piece(&mut image, piece.offset as usize, piece.data.as_slice());
            n = n + 1;
        }
        image
    }
}

/// A chunk of that type holds bytes of the image.
pub open spec fn holds_bytes(entry_type: u32) -> bool {
    entry_type != 0 && entry_type != 2 && entry_type != 0x7FFF_FFFE && entry_type != 0xFFFF_FFFF
}

/// A chunk of a table is for that byte of the image: its sectors are counted from the
/// first one of its table.
pub open spec fn is_for(m: MishView, c: ChunkEntry, place: int) -> bool {
    (m.sector_number + c.sector_number) * 512 <= place < (m.sector_number + c.sector_number + c.sector_count) * 512
}

/// A piece is what one of the chunks from `k` on puts into the image.
spec fn drawn_from(src: Seq<u8>, koly: Koly, m: MishView, k: int, p: PieceView) -> bool {
    exists|j: int|
        k <= j < m.chunks.len() && 0 <= j && holds_bytes((#[trigger] m.chunks[j]).entry_type) && chunk_piece(
            src,
            koly,
            m,
            m.chunks[j],
        ) == Ok::<PieceView, ErrorView>(p)
}

/// Where among the pieces of a table that of chunk `j` is; those behind it are of later
/// chunks.
proof fn piece_of_chunk(src: Seq<u8>, koly: Koly, m: MishView, k: int, j: int) -> (n: int)
    requires
        0 <= k <= j < m.chunks.len(),
        holds_bytes(m.chunks[j].entry_type),
        table_pieces(src, koly, m, k) is Ok,
    ensures
        ({
            let ps = table_pieces(src, koly, m, k)->Ok_0;
            &&& 0 <= n < ps.len()
            &&& chunk_piece(src, koly, m, m.chunks[j]) == Ok::<PieceView, ErrorView>(ps[n])
            &&& forall|r: int| n < r < ps.len() ==> drawn_from(src, koly, m, j + 1, #[trigger] ps[r])
        }),
    decreases m.chunks.len() - k,
{
    let ps = table_pieces(src, koly, m, k)->Ok_0;
    if k == j {
        let rest = table_pieces(src, koly, m, k + 1)->Ok_0;
        pieces_are_drawn(src, koly, m, k + 1);
        assert forall|r: int| 0 < r < ps.len() implies drawn_from(src, koly, m, j + 1, #[trigger] ps[r]) by {
            assert(ps[r] == rest[r - 1]);
        }
        0
    } else {
        let n = piece_of_chunk(src, koly, m, k + 1, j);
        if is_empty_chunk(m.chunks[k].entry_type) {
            n
        } else {
            let rest = table_pieces(src, koly, m, k + 1)->Ok_0;
            assert forall|r: int| n + 1 < r < ps.len() implies drawn_from(src, koly, m, j + 1, #[trigger] ps[r]) by {
                assert(ps[r] == rest[r - 1]);
            }
            n + 1
        }
    }
}

proof fn pieces_are_drawn(src: Seq<u8>, koly: Koly, m: MishView, k: int)
    requires
        0 <= k,
        table_pieces(src, koly, m, k) is Ok,
    ensures
        forall|r: int|
            0 <= r < table_pieces(src, koly, m, k)->Ok_0.len() ==> drawn_from(
                src,
                koly,
                m,
                k,
                #[trigger] table_pieces(src, koly, m, k)->Ok_0[r],
            ),
    decreases m.chunks.len() - k,
{
    if k < m.chunks.len() {
        pieces_are_drawn(src, koly, m, k + 1);
        let ps = table_pieces(src, koly, m, k)->Ok_0;
        let rest = table_pieces(src, koly, m, k + 1)->Ok_0;
        let empty = is_empty_chunk(m.chunks[k].entry_type);
        assert forall|r: int| 0 <= r < ps.len() implies drawn_from(src, koly, m, k, #[trigger] ps[r]) by {
            if empty {
                assert(drawn_from(src, koly, m, k + 1, rest[r]));
            } else if r == 0 {
                assert(chunk_piece(src, koly, m, m.chunks[k]) == Ok::<PieceView, ErrorView>(ps[r]));
            } else {
                assert(ps[r] == rest[r - 1]);
                assert(drawn_from(src, koly, m, k + 1, rest[r - 1]));
            }
        }
    }
}

/// A piece is what a chunk of one of the tables from `t` on puts into the image.
spec fn drawn_later(src: Seq<u8>, koly: Koly, mishes: Seq<MishView>, t: int, p: PieceView) -> bool {
    exists|u: int| t <= u < mishes.len() && 0 <= u && drawn_from(src, koly, #[trigger] mishes[u], 0, p)
}

proof fn all_pieces_are_drawn(src: Seq<u8>, koly: Koly, mishes: Seq<MishView>, t: int)
    requires
        0 <= t,
        all_pieces(src, koly, mishes, t) is Ok,
    ensures
        forall|r: int|
            0 <= r < all_pieces(src, koly, mishes, t)->Ok_0.len() ==> drawn_later(
                src,
                koly,
                mishes,
                t,
                #[trigger] all_pieces(src, koly, mishes, t)->Ok_0[r],
            ),
    decreases mishes.len() - t,
{
    if t < mishes.len() {
        all_pieces_are_drawn(src, koly, mishes, t + 1);
        pieces_are_drawn(src, koly, mishes[t], 0);
        let ps = all_pieces(src, koly, mishes, t)->Ok_0;
        let first = table_pieces(src, koly, mishes[t], 0)->Ok_0;
        let rest = all_pieces(src, koly, mishes, t + 1)->Ok_0;
        assert forall|r: int| 0 <= r < ps.len() implies drawn_later(src, koly, mishes, t, #[trigger] ps[r]) by {
            if r < first.len() {
                assert(ps[r] == first[r]);
                assert(drawn_from(src, koly, mishes[t], 0, first[r]));
            } else {
                assert(ps[r] == rest[r - first.len()]);
                assert(drawn_later(src, koly, mishes, t + 1, rest[r - first.len()]));
            }
        }
    }
}

/// Where among all pieces that of chunk `j` of table `t` is; those behind it are of later
/// chunks.
proof fn piece_among_all(src: Seq<u8>, koly: Koly, mishes: Seq<MishView>, from: int, t: int, j: int) -> (n: int)
    requires
        0 <= from <= t < mishes.len(),
        0 <= j < mishes[t].chunks.len(),
        holds_bytes(mishes[t].chunks[j].entry_type),
        all_pieces(src, koly, mishes, from) is Ok,
    ensures
        ({
            let ps = all_pieces(src, koly, mishes, from)->Ok_0;
            &&& 0 <= n < ps.len()
            &&& chunk_piece(src, koly, mishes[t], mishes[t].chunks[j]) == Ok::<PieceView, ErrorView>(ps[n])
            &&& forall|r: int|
                n < r < ps.len() ==> drawn_from(src, koly, mishes[t], j + 1, #[trigger] ps[r]) || drawn_later(
                    src,
                    koly,
                    mishes,
                    t + 1,
                    ps[r],
                )
        }),
    decreases mishes.len() - from,
{
    let ps = all_pieces(src, koly, mishes, from)->Ok_0;
    let first = table_pieces(src, koly, mishes[from], 0)->Ok_0;
    let rest = all_pieces(src, koly, mishes, from + 1)->Ok_0;
    if from == t {
        let n = piece_of_chunk(src, koly, mishes[t], 0, j);
        all_pieces_are_drawn(src, koly, mishes, t + 1);
        assert forall|r: int| n < r < ps.len() implies drawn_from(src, koly, mishes[t], j + 1, #[trigger] ps[r])
            || drawn_later(src, koly, mishes, t + 1, ps[r]) by {
            if r < first.len() {
                assert(ps[r] == first[r]);
            } else {
                assert(ps[r] == rest[r - first.len()]);
            }
        }
        n
    } else {
        let n = piece_among_all(src, koly, mishes, from + 1, t, j);
        let at = first.len() as int;
        assert forall|r: int| n + at < r < ps.len() implies drawn_from(src, koly, mishes[t], j + 1, #[trigger] ps[r])
            || drawn_later(src, koly, mishes, t + 1, ps[r]) by {
            assert(ps[r] == rest[r - at]);
        }
        n + at
    }
}

/// A byte of an image is that of the last piece that is for it.
proof fn last_piece_counts(len: int, pieces: Seq<PieceView>, n: int, q: int, place: int)
    requires
        0 <= q < n <= pieces.len(),
        0 <= pieces[q].offset <= place < pieces[q].offset + pieces[q].data.len(),
        forall|r: int| q < r < n ==> !((#[trigger] pieces[r]).offset <= place < pieces[r].offset + pieces[r].data.len()),
    ensures
        place < image_of(len, pieces, n).len(),
        image_of(len, pieces, n)[place] == pieces[q].data[place - pieces[q].offset],
    decreases n,
{
    if q < n - 1 {
        last_piece_counts(len, pieces, n - 1, q, place);
        assert(!(pieces[n - 1].offset <= place < pieces[n - 1].offset + pieces[n - 1].data.len()));
    }
}

/// A byte of an image that no piece is for is zero.
proof fn untouched_is_zero(len: int, pieces: Seq<PieceView>, n: int, place: int)
    requires
        0 <= n <= pieces.len(),
        0 <= place < len,
        forall|r: int| 0 <= r < n ==> !((#[trigger] pieces[r]).offset <= place < pieces[r].offset + pieces[r].data.len()),
    ensures
        place < image_of(len, pieces, n).len(),
        image_of(len, pieces, n)[place] == 0,
    decreases n,
{
    if n > 0 {
        untouched_is_zero(len, pieces, n - 1, place);
        assert(!(pieces[n - 1].offset <= place < pieces[n - 1].offset + pieces[n - 1].data.len()));
    }
}

/// A chunk's bytes stand in the image where its table and its own sector put them,
/// whatever else the image holds: those of a stored chunk as they are in the file, those
/// of a packed one unpacked. Only a later chunk for the same place takes it.
#[verifier::rlimit(40)]
pub proof fn chunks_stand_where_their_tables_put_them(
    src: Seq<u8>,
    koly: Koly,
    mishes: Seq<MishView>,
    len: int,
    t: int,
    j: int,
    i: int,
)
    requires
        all_pieces(src, koly, mishes, 0) is Ok,
        0 <= t < mishes.len(),
        0 <= j < mishes[t].chunks.len(),
        holds_bytes(mishes[t].chunks[j].entry_type),
        0 <= i < mishes[t].chunks[j].sector_count * 512,
        forall|u: int, k: int|
            #![trigger mishes[u].chunks[k]]
            t <= u < mishes.len() && 0 <= k < mishes[u].chunks.len() && (u > t || k > j) && holds_bytes(
                mishes[u].chunks[k].entry_type,
            ) ==> !is_for(
                mishes[u],
                mishes[u].chunks[k],
                (mishes[t].sector_number + mishes[t].chunks[j].sector_number) * 512 + i,
            ),
    ensures
        ({
            let pieces = all_pieces(src, koly, mishes, 0)->Ok_0;
            let image = image_of(len, pieces, pieces.len() as int);
            let c = mishes[t].chunks[j];
            let place = (mishes[t].sector_number + c.sector_number) * 512 + i;
            let from = koly.data_fork_offset + mishes[t].data_offset + c.compressed_offset;
            let packed = src.subrange(from, from + c.compressed_length);
            &&& from + c.compressed_length <= src.len()
            &&& place < image.len()
            &&& c.entry_type == 1 ==> c.compressed_length == c.sector_count * 512 && image[place] == src[from + i]
            &&& c.entry_type == 0x8000_0005 ==> (zlib_decoded(packed) matches Ok(b) && b.len() == c.sector_count * 512
                && image[place] == b[i])
            &&& c.entry_type == 0x8000_0006 ==> (bz_decoded(packed) matches Ok(b) && b.len() == c.sector_count * 512
                && image[place] == b[i])
            &&& c.entry_type == 0x8000_0007 ==> (lzfse_decoded(packed) matches Ok(b) && b.len() == c.sector_count * 512
                && image[place] == b[i])
            &&& c.entry_type == 0x8000_0008 ==> (xz_stream_decoded(packed) matches Ok(b) && b.len() == c.sector_count
                * 512 && image[place] == b[i])
            &&& c.entry_type == 0x8000_0004 ==> (adc_from(packed, 0, Seq::empty(), c.sector_count * 512) matches Ok(b)
                && b.len() == c.sector_count * 512 && image[place] == b[i])
        }),
{
    let ps = all_pieces(src, koly, mishes, 0)->Ok_0;
    let n = piece_among_all(src, koly, mishes, 0, t, j);
    let place = (mishes[t].sector_number + mishes[t].chunks[j].sector_number) * 512 + i;
    assert forall|r: int| n < r < ps.len() implies !((#[trigger] ps[r]).offset <= place < ps[r].offset
        + ps[r].data.len()) by {
        if drawn_from(src, koly, mishes[t], j + 1, ps[r]) {
            let k = choose|k: int|
                j + 1 <= k < mishes[t].chunks.len() && 0 <= k && holds_bytes((#[trigger] mishes[t].chunks[k]).entry_type)
                    && chunk_piece(src, koly, mishes[t], mishes[t].chunks[k]) == Ok::<PieceView, ErrorView>(ps[r]);
            assert(!is_for(mishes[t], mishes[t].chunks[k], place));
        } else {
            let u = choose|u: int|
                t + 1 <= u < mishes.len() && 0 <= u && drawn_from(src, koly, #[trigger] mishes[u], 0, ps[r]);
            let k = choose|k: int|
                0 <= k < mishes[u].chunks.len() && 0 <= k && holds_bytes((#[trigger] mishes[u].chunks[k]).entry_type)
                    && chunk_piece(src, koly, mishes[u], mishes[u].chunks[k]) == Ok::<PieceView, ErrorView>(ps[r]);
            assert(!is_for(mishes[u], mishes[u].chunks[k], place));
        }
    }
    last_piece_counts(len, ps, ps.len() as int, n, place);
}

/// What no chunk is for is zero in the image.
#[verifier::rlimit(40)]
pub proof fn rest_of_image_is_zero(src: Seq<u8>, koly: Koly, mishes: Seq<MishView>, len: int, place: int)
    requires
        all_pieces(src, koly, mishes, 0) is Ok,
        0 <= place < len,
        forall|u: int, k: int|
            #![trigger mishes[u].chunks[k]]
            0 <= u < mishes.len() && 0 <= k < mishes[u].chunks.len() && holds_bytes(mishes[u].chunks[k].entry_type)
                ==> !is_for(mishes[u], mishes[u].chunks[k], place),
    ensures
        ({
            let pieces = all_pieces(src, koly, mishes, 0)->Ok_0;
            let image = image_of(len, pieces, pieces.len() as int);
            place < image.len() && image[place] == 0
        }),
{
    let ps = all_pieces(src, koly, mishes, 0)->Ok_0;
    all_pieces_are_drawn(src, koly, mishes, 0);
    assert forall|r: int| 0 <= r < ps.len() implies !((#[trigger] ps[r]).offset <= place < ps[r].offset
        + ps[r].data.len()) by {
        let u = choose|u: int| 0 <= u < mishes.len() && 0 <= u && drawn_from(src, koly, #[trigger] mishes[u], 0, ps[r]);
        let k = choose|k: int|
            0 <= k < mishes[u].chunks.len() && 0 <= k && holds_bytes((#[trigger] mishes[u].chunks[k]).entry_type)
                && chunk_piece(src, koly, mishes[u], mishes[u].chunks[k]) == Ok::<PieceView, ErrorView>(ps[r]);
        assert(!is_for(mishes[u], mishes[u].chunks[k], place));
    }
    untouched_is_zero(len, ps, ps.len() as int, place);
}

/// A table that begins `k` sectors later puts the same pieces `k` sectors later.
#[verifier::rlimit(40)]
pub proof fn moved_table_moves_its_pieces(src: Seq<u8>, koly: Koly, m: MishView, moved: MishView, k: int, from: int)
    requires
        moved == (MishView { sector_number: moved.sector_number, ..m }),
        moved.sector_number == m.sector_number + k,
        0 <= from,
        table_pieces(src, koly, m, from) is Ok,
        table_pieces(src, koly, moved, from) is Ok,
    ensures
        table_pieces(src, koly, moved, from)->Ok_0.len() == table_pieces(src, koly, m, from)->Ok_0.len(),
        forall|i: int|
            0 <= i < table_pieces(src, koly, m, from)->Ok_0.len() ==> {
                let p = #[trigger] table_pieces(src, koly, m, from)->Ok_0[i];
                let q = table_pieces(src, koly, moved, from)->Ok_0[i];
                q.offset == p.offset + 512 * k && q.data == p.data
            },
    decreases m.chunks.len() - from,
{
    if from < m.chunks.len() {
        moved_table_moves_its_pieces(src, koly, m, moved, k, from + 1);
        if !is_empty_chunk(m.chunks[from].entry_type) {
            let a = table_pieces(src, koly, m, from)->Ok_0;
            let b = table_pieces(src, koly, moved, from)->Ok_0;
            let ra = table_pieces(src, koly, m, from + 1)->Ok_0;
            let rb = table_pieces(src, koly, moved, from + 1)->Ok_0;
            assert forall|i: int| 0 <= i < a.len() implies b[i].offset == (#[trigger] a[i]).offset + 512 * k && b[i].data
                == a[i].data by {
                if i > 0 {
                    assert(a[i] == ra[i - 1]);
                    assert(b[i] == rb[i - 1]);
                }
            }
        }
    }
}

/// The pieces of a table whose chunks lie in it lie between where the table begins and
/// where it ends.
pub proof fn pieces_lie_in_their_table(src: Seq<u8>, koly: Koly, m: MishView)
    requires
        table_pieces(src, koly, m, 0) is Ok,
        forall|j: int|
            0 <= j < m.chunks.len() ==> (#[trigger] m.chunks[j]).sector_number + m.chunks[j].sector_count
                <= m.sector_count,
    ensures
        forall|i: int|
            0 <= i < table_pieces(src, koly, m, 0)->Ok_0.len() ==> {
                let p = #[trigger] table_pieces(src, koly, m, 0)->Ok_0[i];
                m.sector_number * 512 <= p.offset && p.offset + p.data.len() <= (m.sector_number + m.sector_count) * 512
            },
{
    pieces_are_drawn(src, koly, m, 0);
    let ps = table_pieces(src, koly, m, 0)->Ok_0;
    assert forall|i: int| 0 <= i < ps.len() implies m.sector_number * 512 <= (#[trigger] ps[i]).offset && ps[i].offset
        + ps[i].data.len() <= (m.sector_number + m.sector_count) * 512 by {
        assert(drawn_from(src, koly, m, 0, ps[i]));
    }
}

/// A stored chunk that lies in the file and has as many bytes as its sectors is always
/// drawn.
pub proof fn stored_chunk_is_drawn(src: Seq<u8>, koly: Koly, m: MishView, c: ChunkEntry)
    requires
        c.entry_type == 1,
        c.compressed_length == c.sector_count * 512,
        (m.sector_number + c.sector_number) * 512 <= u64::MAX,
        src.len() <= u64::MAX,
        koly.data_fork_offset + m.data_offset + c.compressed_offset + c.compressed_length <= src.len(),
    ensures
        chunk_piece(src, koly, m, c) is Ok,
        chunk_piece(src, koly, m, c)->Ok_0.data.len() == c.compressed_length,
        forall|i: int|
            0 <= i < c.compressed_length ==> #[trigger] chunk_piece(src, koly, m, c)->Ok_0.data[i] == src[
                koly.data_fork_offset + m.data_offset + c.compressed_offset + i],
{
}

/// A chunk that holds no bytes makes no difference, wherever it stands in a table.
pub proof fn chunks_without_bytes_make_no_difference(src: Seq<u8>, koly: Koly, m: MishView, j: int, k: int)
    requires
        0 <= k <= j < m.chunks.len(),
        !holds_bytes(m.chunks[j].entry_type),
    ensures
        table_pieces(src, koly, m, k) == table_pieces(src, koly, (MishView { chunks: m.chunks.remove(j), ..m }), k),
    decreases j - k,
{
    let n = MishView { chunks: m.chunks.remove(j), ..m };
    if k == j {
        same_tail(src, koly, m, n, k);
    } else {
        chunks_without_bytes_make_no_difference(src, koly, m, j, k + 1);
        assert(n.chunks[k] == m.chunks[k]);
        assert(chunk_piece(src, koly, m, m.chunks[k]) == chunk_piece(src, koly, n, m.chunks[k]));
    }
}

proof fn same_tail(src: Seq<u8>, koly: Koly, m: MishView, n: MishView, k: int)
    requires
        0 <= k,
        n.sector_number == m.sector_number,
        n.data_offset == m.data_offset,
        m.chunks.len() == n.chunks.len() + 1,
        forall|i: int| k <= i < n.chunks.len() ==> #[trigger] n.chunks[i] == m.chunks[i + 1],
    ensures
        table_pieces(src, koly, m, k + 1) == table_pieces(src, koly, n, k),
    decreases m.chunks.len() - k,
{
    if k < n.chunks.len() {
        same_tail(src, koly, m, n, k + 1);
        assert(n.chunks[k] == m.chunks[k + 1]);
        assert(chunk_piece(src, koly, m, m.chunks[k + 1]) == chunk_piece(src, koly, n, n.chunks[k]));
    }
}

/// An image reaches as far as each of its tables, and no further than one of them.
pub proof fn image_reaches_its_tables(mishes: Seq<MishView>)
    ensures
        forall|t: int|
            0 <= t < mishes.len() ==> (#[trigger] mishes[t]).sector_number + mishes[t].sector_count <= last_sector(mishes),
        last_sector(mishes) == 0 || exists|t: int|
            0 <= t < mishes.len() && (#[trigger] mishes[t]).sector_number + mishes[t].sector_count == last_sector(mishes),
    decreases mishes.len(),
{
    if mishes.len() > 0 {
        let before = mishes.drop_last();
        image_reaches_its_tables(before);
        assert forall|t: int| 0 <= t < mishes.len() implies (#[trigger] mishes[t]).sector_number
            + mishes[t].sector_count <= last_sector(mishes) by {
            if t < before.len() {
                assert(before[t] == mishes[t]);
            }
        }
        if last_sector(mishes) == last_sector(before) && last_sector(mishes) != 0 {
            let t = choose|t: int|
                0 <= t < before.len() && (#[trigger] before[t]).sector_number + before[t].sector_count == last_sector(
                    before,
                );
            assert(mishes[t] == before[t]);
        } else if last_sector(mishes) != 0 {
            assert(mishes[mishes.len() - 1] == mishes.last());
        }
    }
}

/// A volume begins at `at`: its header is signed, and it can be opened.
pub open spec fn volume_at(raw: Seq<u8>, at: int) -> bool {
    hfsplus::opened(apfs::tail_of(raw, at)) is Ok
}

/// The first sector, from `at` on, at which a volume begins.
pub open spec fn first_volume(raw: Seq<u8>, at: int) -> Option<int>
    decreases raw.len() - at,
{
    if at < 0 || at + 1026 > raw.len() {
        None
    } else if volume_at(raw, at) {
        Some(at)
    } else {
        first_volume(raw, at + 512)
    }
}

/// Find where the volume of a raw image begins.
pub fn locate_hfsplus(raw: &[u8]) -> (r: Result<u64, Error>)
    ensures
        match first_volume(raw@, 0) {
            Some(at) => r == Ok::<u64, Error>(at as u64) && 0 <= at <= raw.len(),
            None => error::fails_with(r, ErrorView::UnknownFormat),
        },
{
    let mut s: usize = 0;
    while raw.len() >= 1026 && s <= raw.len() - 1026
        invariant
            first_volume(raw@, 0) == first_volume(raw@, s as int),
            s <= raw.len() + 512,
        decreases raw.len() + 512 - s,
    {
        let signature: u16 = be_u16(raw, s + 1024);
        proof {
            assert(apfs::tail_of(raw@, s as int) =~= raw@.skip(s as int));
            assert(bytes::be16(raw@.skip(s as int), 1024) == bytes::be16(raw@, s + 1024));
        }
        if signature == HFS_PLUS_SIGNATURE || signature == HFSX_SIGNATURE {
            if open_hfsplus(raw, s as u64).is_ok() {
                return Ok(s as u64);
            }
        }
        if raw.len() - s < 512 {
            proof {
                assert(first_volume(raw@, s + 512) is None);
            }
            return Err(Error::UnknownFormat);
        }
        s = s + 512;
    }
    Err(Error::UnknownFormat)
}

/// An opened disk image.
#[derive(Debug)]
pub struct DmgReader {
    inner: HfsPlusReader,
}

impl ArchiveReader for DmgReader {
    open spec fn spec_format(&self) -> FormatId {
        FormatId::Dmg
    }

    closed spec fn listing(&self) -> Seq<EntryView> {
        self.inner.listing()
    }

    closed spec fn body(&self, idx: int) -> Result<Seq<u8>, ErrorView> {
        self.inner.body(idx)
    }

    fn format(&self) -> (r: FormatId) {
        FormatId::Dmg
    }

    fn entries(&self) -> (r: &Vec<Entry>) {
        self.inner.entries()
    }

    fn read_entry(&self, idx: usize) -> (r: Result<Vec<u8>, Error>) {
        self.inner.read_entry(idx)
    }

    fn verify_password(&self) -> (r: Result<(), Error>) {
        Ok(())
    }
}

impl BatchReader for DmgReader {
    fn read_entries<S: EntrySink>(&self, indices: &[usize], sink: &mut S) -> (r: Result<(), Error>) {
        read_entries_one_by_one(self, indices, sink)
    }
}

/// Open the volume of a raw image.
pub fn open_volume(raw: &[u8]) -> (r: Result<DmgReader, Error>)
    ensures
        match first_volume(raw@, 0) {
            None => error::fails_with(r, ErrorView::UnknownFormat),
            Some(at) => {
                let volume = apfs::tail_of(raw@, at);
                match hfsplus::opened(volume) {
                    Err(e) => error::fails_with(r, e),
                    Ok(items) => r matches Ok(reader) && archive::presents(
                        &reader,
                        FormatId::Dmg,
                        hfsplus::listing_of(volume, items),
                        hfsplus::bodies_of(volume, items),
                    ),
                }
            },
        },
{
    let at: u64 = match locate_hfsplus(raw) {
        Ok(at) => at,
        Err(e) => {
            return Err(e);
        },
    };
    match open_hfsplus(raw, at) {
        Err(e) => Err(e),
        Ok(inner) => {
            proof {
                let volume = apfs::tail_of(raw@, at as int);
                let items = hfsplus::opened(volume)->Ok_0;
                let bodies = hfsplus::bodies_of(volume, items);
                assert forall|idx: int| 0 <= idx implies #[trigger] inner.body(idx) == archive::body_at(bodies, idx) by {}
            }
            let r = DmgReader { inner };
            proof {
                assert forall|idx: int| 0 <= idx implies #[trigger] r.body(idx) == inner.body(idx) by {}
            }
            Ok(r)
        },
    }
}

/// The first volume that is found begins at a sector, and at no earlier sector
/// does one begin.
pub proof fn first_volume_is_first(raw: Seq<u8>, from: int)
    requires
        first_volume(raw, from) is Some,
    ensures
        from <= first_volume(raw, from)->0,
        (first_volume(raw, from)->0 - from) % 512 == 0,
        volume_at(raw, first_volume(raw, from)->0),
        forall|k: int| 0 <= k && from + k * 512 < first_volume(raw, from)->0 ==> !#[trigger] volume_at(raw, from + k * 512),
    decreases raw.len() - from,
{
    if !volume_at(raw, from) {
        first_volume_is_first(raw, from + 512);
        let found = first_volume(raw, from)->0;
        assert forall|k: int| 0 <= k && from + k * 512 < found implies !#[trigger] volume_at(raw, from + k * 512) by {
            if k > 0 {
                assert(from + k * 512 == (from + 512) + (k - 1) * 512);
            }
        }
    }
}

/// Reads disk images.
#[derive(Debug, Clone, Copy)]
pub struct DmgHandler;

impl FormatHandler for DmgHandler {
    open spec fn spec_id(&self) -> FormatId {
        FormatId::Dmg
    }

    open spec fn spec_probe(&self, header: Seq<u8>, name: Option<Seq<char>>) -> Confidence {
        archive::magic_when(paths::has_extension(name, "dmg"@))
    }

    fn id(&self) -> (r: FormatId) {
        FormatId::Dmg
    }

    fn probe(&self, header: &[u8], name: Option<&str>) -> (r: Confidence) {
        Confidence::magic_if(extension_is(name, "dmg"))
    }
}

/// The outcome of opening a disk image.
pub open spec fn opens(r: Result<RawImage, Error>, src: Source) -> bool {
    if src.spec_path() is None {
        error::fails_with(
            r,
            ErrorView::Unsupported { format: "dmg"@, feature: "non-file source (dmg requires a file path)"@ },
        )
    } else {
        match file_koly(src.content()) {
            None => error::fails_with(r, ErrorView::UnknownFormat),
            Some(koly) => raw_result(r) == raw_view(src.content(), koly),
        }
    }
}

impl DmgHandler {
    /// The raw image of a disk image. A source without a path is not supported.
    pub fn open(&self, src: &Source) -> (r: Result<RawImage, Error>)
        ensures
            opens(r, *src),
    {
        if src.file_path().is_none() {
            return Err(unsupported("dmg", "non-file source (dmg requires a file path)"));
        }
        let data = match src {
            Source::Seekable { inner, .. } => inner,
            Source::Stream { inner, .. } => inner,
        };
        match read_koly(data.as_slice()) {
            Err(e) => Err(e),
            Ok(koly) => build_raw_image(data.as_slice(), &koly),
        }
    }
}

/// A number stands somewhere in so many bytes, the highest first.
pub open spec fn number_at(s: Seq<u8>, i: int, v: int, n: nat) -> bool {
    0 <= v && bytes::stands_at(s, i, bytes::low_first(v, n).reverse())
}

/// The trailer of an image is its last 512 bytes. It begins with `koly`, and says where the
/// chunks and the property list lie.
#[verifier::rlimit(40)]
pub proof fn trailer_reads_back(image: Seq<u8>, trailer: Seq<u8>, data: int, list: int, length: int)
    requires
        trailer.len() == 512,
        0 <= data <= u64::MAX,
        0 <= list <= u64::MAX,
        0 <= length <= u64::MAX,
        number_at(trailer, 24, data, 8),
        number_at(trailer, 216, list, 8),
        number_at(trailer, 224, length, 8),
    ensures
        match file_koly(image + trailer) {
            Some(k) => trailer.take(4) == seq![0x6Bu8, 0x6F, 0x6C, 0x79] && k.data_fork_offset == data && k.xml_offset == list
                && k.xml_length == length,
            None => trailer.take(4) != seq![0x6Bu8, 0x6F, 0x6C, 0x79],
        },
        image.len() + trailer.len() >= list + length ==> (file_koly(image + trailer) matches Some(k) ==> plist_bytes(
            image + trailer,
            k,
        ) == Ok::<Seq<u8>, ErrorView>((image + trailer).subrange(list, list + length))),
{
    let all = image + trailer;
    assert(all.skip(all.len() - 512) =~= trailer);
    bytes::standing_numbers_are_read(trailer, 24, data);
    bytes::standing_numbers_are_read(trailer, 216, list);
    bytes::standing_numbers_are_read(trailer, 224, length);
    let t = trailer.take(4);
    let mark = seq![0x6Bu8, 0x6F, 0x6C, 0x79];
    if bytes::be32(trailer, 0) == 0x6B6F6C79 {
        assert(trailer[0] == 0x6B && trailer[1] == 0x6F && trailer[2] == 0x6C && trailer[3] == 0x79);
        assert(t =~= mark);
    } else if t == mark {
        assert(trailer[0] == t[0] && trailer[1] == t[1] && trailer[2] == t[2] && trailer[3] == t[3]);
    }
}

/// A table of chunks reads back: it begins with `mish`, says which sectors it covers and
/// from where its chunks are counted, and has a row of forty bytes for each chunk.
#[verifier::rlimit(40)]
pub proof fn tables_read_back(b: Seq<u8>, sector: int, count: int, data: int, n: int)
    requires
        b.len() >= 204,
        b.take(4) == seq![0x6Du8, 0x69, 0x73, 0x68],
        0 <= sector <= u64::MAX,
        0 <= count <= u64::MAX,
        0 <= data <= u64::MAX,
        0 <= n <= u32::MAX,
        number_at(b, 8, sector, 8),
        number_at(b, 16, count, 8),
        number_at(b, 24, data, 8),
        number_at(b, 200, n, 4),
    ensures
        match mish_view(b) {
            Ok(m) => m.sector_number == sector && m.sector_count == count && m.data_offset == data && m.chunks.len() == n
                && b.len() >= 204 + 40 * n,
            Err(_) => b.len() < 204 + 40 * n,
        },
{
    bytes::standing_numbers_are_read(b, 8, sector);
    bytes::standing_numbers_are_read(b, 16, count);
    bytes::standing_numbers_are_read(b, 24, data);
    bytes::standing_numbers_are_read(b, 200, n);
    let t = b.take(4);
    assert(b[0] == t[0] && b[1] == t[1] && b[2] == t[2] && b[3] == t[3]);
    assert(bytes::be32(b, 0) == 0x6D697368);
}

/// A row of a table reads back: what is done with the chunk, which sectors of the table it
/// covers, and where its bytes lie.
#[verifier::rlimit(40)]
pub proof fn chunks_read_back(b: Seq<u8>, k: int, kind: int, sector: int, count: int, at: int, length: int)
    requires
        mish_view(b) is Ok,
        0 <= k < mish_view(b)->Ok_0.chunks.len(),
        0 <= kind <= u32::MAX,
        0 <= sector <= u64::MAX,
        0 <= count <= u64::MAX,
        0 <= at <= u64::MAX,
        0 <= length <= u64::MAX,
        number_at(b, 204 + 40 * k, kind, 4),
        number_at(b, 204 + 40 * k + 8, sector, 8),
        number_at(b, 204 + 40 * k + 16, count, 8),
        number_at(b, 204 + 40 * k + 24, at, 8),
        number_at(b, 204 + 40 * k + 32, length, 8),
    ensures
        ({
            let c = mish_view(b)->Ok_0.chunks[k];
            c.entry_type == kind && c.sector_number == sector && c.sector_count == count && c.compressed_offset == at
                && c.compressed_length == length
        }),
{
    let i = 204 + 40 * k;
    bytes::standing_numbers_are_read(b, i, kind);
    bytes::standing_numbers_are_read(b, i + 8, sector);
    bytes::standing_numbers_are_read(b, i + 16, count);
    bytes::standing_numbers_are_read(b, i + 24, at);
    bytes::standing_numbers_are_read(b, i + 32, length);
}

/// `longer` is `out` and `n` bytes more, each the same as the one `back` bytes before it.
pub open spec fn repeats(out: Seq<u8>, longer: Seq<u8>, back: int, n: int) -> bool {
    &&& longer.len() == out.len() + n
    &&& forall|k: int| 0 <= k < out.len() ==> longer[k] == #[trigger] out[k]
    &&& forall|k: int| out.len() <= k < longer.len() ==> #[trigger] longer[k] == longer[k - back]
}

/// Copying back repeats what was written.
pub proof fn copying_repeats(out: Seq<u8>, back: int, n: int)
    requires
        0 < back <= out.len(),
        0 <= n,
    ensures
        repeats(out, copied_back(out, back, n), back, n),
    decreases n,
{
    if n > 0 {
        copying_repeats(out, back, n - 1);
        let shorter = copied_back(out, back, n - 1);
        let longer = copied_back(out, back, n);
        assert forall|k: int| 0 <= k < out.len() implies longer[k] == #[trigger] out[k] by {
            assert(shorter[k] == out[k]);
        }
        assert forall|k: int| out.len() <= k < longer.len() implies #[trigger] longer[k] == longer[k - back] by {
            if k < shorter.len() {
                assert(shorter[k] == shorter[k - back]);
            }
        }
    }
}

/// A run of bytes that are meant as they are, one to 128 of them behind a byte that counts
/// them from 128 on, adds them.
pub proof fn literal_runs_are_added(before: Seq<u8>, run: Seq<u8>, behind: Seq<u8>, out: Seq<u8>, out_len: int)
    requires
        1 <= run.len() <= 128,
        out.len() + run.len() <= out_len,
    ensures
        ({
            let input = before + seq![(0x80 + run.len() - 1) as u8] + run + behind;
            adc_from(input, before.len() as int, out, out_len) == adc_from(
                input,
                before.len() as int + 1 + run.len() as int,
                out + run,
                out_len,
            )
        }),
{
    let input = before + seq![(0x80 + run.len() - 1) as u8] + run + behind;
    let i = before.len() as int;
    assert(input[i] == (0x80 + run.len() - 1) as u8);
    assert(input.subrange(i + 1, i + 1 + run.len()) =~= run);
}

/// A short match of three to 18 bytes, up to 1024 bytes back, takes two bytes: the length in
/// four bits, and the distance, counted from 0, in ten. A long one of four to 67 bytes, up
/// to 65536 bytes back, takes three. Both repeat what was written.
#[verifier::rlimit(40)]
pub proof fn matches_repeat(before: Seq<u8>, n: int, back: int, behind: Seq<u8>, out: Seq<u8>, out_len: int)
    requires
        1 <= back <= out.len(),
        out.len() + n <= out_len,
    ensures
        3 <= n <= 18 && back <= 1024 ==> ({
            let input = before + seq![((n - 3) * 4 + (back - 1) / 256) as u8, ((back - 1) % 256) as u8] + behind;
            let more = copied_back(out, back, n);
            repeats(out, more, back, n) && adc_from(input, before.len() as int, out, out_len) == adc_from(
                input,
                before.len() as int + 2,
                more,
                out_len,
            )
        }),
        4 <= n <= 67 && back <= 65536 ==> ({
            let input = before + seq![(0x40 + n - 4) as u8, ((back - 1) / 256) as u8, ((back - 1) % 256) as u8] + behind;
            let more = copied_back(out, back, n);
            repeats(out, more, back, n) && adc_from(input, before.len() as int, out, out_len) == adc_from(
                input,
                before.len() as int + 3,
                more,
                out_len,
            )
        }),
{
    let i = before.len() as int;
    if n >= 0 {
        copying_repeats(out, back, n);
    }
    if 3 <= n <= 18 && back <= 1024 {
        let input = before + seq![((n - 3) * 4 + (back - 1) / 256) as u8, ((back - 1) % 256) as u8] + behind;
        assert(input[i] == ((n - 3) * 4 + (back - 1) / 256) as u8);
        assert(input[i + 1] == ((back - 1) % 256) as u8);
        let b = input[i] as int;
        assert(b == (n - 3) * 4 + (back - 1) / 256);
        assert(b / 4 == n - 3 && b % 4 == (back - 1) / 256);
    }
    if 4 <= n <= 67 && back <= 65536 {
        let input = before + seq![(0x40 + n - 4) as u8, ((back - 1) / 256) as u8, ((back - 1) % 256) as u8] + behind;
        assert(input[i] == (0x40 + n - 4) as u8);
        assert(input[i + 1] == ((back - 1) / 256) as u8);
        assert(input[i + 2] == ((back - 1) % 256) as u8);
    }
}

/// Blanks in a text that stands for bytes make no difference, wherever they are.
pub proof fn blanks_make_no_difference(a: Seq<char>, c: char, b: Seq<char>)
    ensures
        c == ' ' || c == '\t' || c == '\n' || c == '\r' || c == '\u{C}' ==> without_blanks(a + seq![c] + b) == without_blanks(
            a + b,
        ),
        !(c == ' ' || c == '\t' || c == '\n' || c == '\r' || c == '\u{C}') ==> without_blanks(a.push(c)) == without_blanks(
            a,
        ).push(c),
    decreases b.len(),
{
    let all = a + seq![c] + b;
    assert(a.push(c).drop_last() =~= a);
    if b.len() == 0 {
        assert(all.drop_last() =~= a);
        assert(a + b =~= a);
    } else {
        blanks_make_no_difference(a, c, b.drop_last());
        assert(all.drop_last() =~= a + seq![c] + b.drop_last());
        assert((a + b).drop_last() =~= a + b.drop_last());
        assert((a + b).last() == b.last());
    }
}

/// The type of a chunk says how its bytes are packed: 1 not at all, and 4 to 8, with the
/// highest bit set, with ADC, zlib, bzip2, LZFSE and LZMA. Chunks of the types 0 and 2, and
/// comments and the end of a table, have no bytes; any other type is refused.
pub proof fn chunk_types_choose_decoders(kind: u32, comp: Seq<u8>, out_len: int)
    ensures
        chunk_content(1, comp, out_len) == Ok::<Seq<u8>, ErrorView>(comp),
        chunk_content(0x8000_0004, comp, out_len) == adc_from(comp, 0, Seq::empty(), out_len),
        zlib_decoded(comp) matches Ok(b) ==> chunk_content(0x8000_0005, comp, out_len) == Ok::<Seq<u8>, ErrorView>(b),
        bz_decoded(comp) matches Ok(b) ==> chunk_content(0x8000_0006, comp, out_len) == Ok::<Seq<u8>, ErrorView>(b),
        lzfse_decoded(comp) matches Ok(b) ==> chunk_content(0x8000_0007, comp, out_len) == Ok::<Seq<u8>, ErrorView>(b),
        xz_stream_decoded(comp) matches Ok(b) ==> chunk_content(0x8000_0008, comp, out_len) == Ok::<Seq<u8>, ErrorView>(b),
        is_empty_chunk(kind) == (kind == 0 || kind == 2 || kind == 0x7FFF_FFFE || kind == 0xFFFF_FFFF),
        kind != 1 && !(0x8000_0004 <= kind <= 0x8000_0008) ==> chunk_content(kind, comp, out_len) is Err,
{
}

/// A chunk that does not unpack to as many bytes as its sectors hold is damaged, and one
/// that does is taken as it is.
pub proof fn chunks_unpack_to_their_sectors(kind: u32, comp: Seq<u8>, out_len: int)
    ensures
        match chunk_view(kind, comp, out_len) {
            Ok(b) => b.len() == out_len && chunk_content(kind, comp, out_len) == Ok::<Seq<u8>, ErrorView>(b),
            Err(_) => chunk_content(kind, comp, out_len) matches Ok(b) ==> b.len() != out_len,
        },
{
}

} // verus!
