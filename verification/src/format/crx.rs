//! Browser extensions: a zip archive behind a header of its own.
use vstd::prelude::*;

use crate::archive;
use crate::bytes;
use crate::error;
use crate::text;
use crate::archive::{Confidence, FormatHandler, FormatId, Source};
use crate::bytes::{copy_range, le_u32, starts_with};
use crate::error::{corrupt, unsupported, Error, ErrorView};
use crate::text::{decimal_text, join2};

verus! {

/// `Cr24`, the mark of an extension.
pub const MAGIC: [u8; 4] = [0x43, 0x72, 0x32, 0x34];

/// Where the zip archive begins, as the beginning of the header tells: behind
/// the header of version 3, or behind the key and the signature of version 2.
pub open spec fn zip_offset(head: Seq<u8>) -> Result<int, ErrorView> {
    if head.len() < 12 || !bytes::stands_at(head, 0, MAGIC@) {
        Err(ErrorView::Corrupt("crx: short header or bad magic"@))
    } else if bytes::le32(head, 4) == 3 {
        Ok(12 + bytes::le32(head, 8))
    } else if bytes::le32(head, 4) == 2 {
        if head.len() < 16 {
            Err(ErrorView::Corrupt("crx2: short header"@))
        } else {
            Ok(16 + bytes::le32(head, 8) + bytes::le32(head, 12))
        }
    } else {
        Err(
            ErrorView::Unsupported {
                format: "crx"@,
                feature: "CRX version "@ + text::decimal(bytes::le32(head, 4) as nat),
            },
        )
    }
}

/// Where the zip archive begins.
pub fn crx_zip_offset(head: &[u8]) -> (r: Result<u64, Error>)
    ensures
        match r {
            Ok(n) => zip_offset(head@) == Ok::<int, ErrorView>(n as int),
            Err(e) => zip_offset(head@) == Err::<int, ErrorView>(e@),
        },
{
    if head.len() < 12 || !starts_with(head, &MAGIC) {
        return Err(corrupt("crx: short header or bad magic"));
    }
    let version: u32 = le_u32(head, 4);
    if version == 3 {
        return Ok(12 + le_u32(head, 8) as u64);
    }
    if version == 2 {
        if head.len() < 16 {
            return Err(corrupt("crx2: short header"));
        }
        return Ok(16 + le_u32(head, 8) as u64 + le_u32(head, 12) as u64);
    }
    let v = decimal_text(version as u64);
    let feature = join2("CRX version ", v.as_str());
    Err(unsupported("crx", feature.as_str()))
}

/// The message of a read that ends too early.
pub open spec fn short_read(what: Seq<char>) -> ErrorView {
    ErrorView::Corrupt(what + ": failed to fill whole buffer"@)
}

/// The bytes of the header that are read before the lengths in it are known:
/// version 2 has one length more.
pub open spec fn prefix_len(data: Seq<u8>) -> int {
    if bytes::le32(data, 4) == 2 { 16 } else { 12 }
}

/// The zip archive in an extension.
pub open spec fn carved(data: Seq<u8>) -> Result<Seq<u8>, ErrorView> {
    if data.len() < 12 {
        Err(short_read("crx header"@))
    } else if data.len() < prefix_len(data) {
        Err(short_read("crx2 header"@))
    } else {
        match zip_offset(data.take(prefix_len(data))) {
            Err(e) => Err(e),
            Ok(n) => if n > data.len() {
                Err(ErrorView::Corrupt("crx: truncated before zip"@))
            } else {
                Ok(data.skip(n))
            },
        }
    }
}

/// Take the zip archive out of an extension.
pub fn carve(data: &[u8]) -> (r: Result<Vec<u8>, Error>)
    ensures
        crate::archive::body_view(r) == carved(data@),
{
    if data.len() < 12 {
        return Err(corrupt(join2("crx header", ": failed to fill whole buffer").as_str()));
    }
    let version: u32 = le_u32(data, 4);
    let consumed: usize = if version == 2 {
        16
    } else {
        12
    };
    if data.len() < consumed {
        return Err(corrupt(join2("crx2 header", ": failed to fill whole buffer").as_str()));
    }
    let head = copy_range(data, 0, consumed);
    proof {
        assert(head@ =~= data@.take(consumed as int));
    }
    match crx_zip_offset(head.as_slice()) {
        Err(e) => Err(e),
        Ok(n) => {
            if n > data.len() as u64 {
                return Err(corrupt("crx: truncated before zip"));
            }
            let zip = copy_range(data, n as usize, data.len());
            assert(zip@ =~= data@.skip(n as int));
            Ok(zip)
        },
    }
}

/// Reads browser extensions.
#[derive(Debug, Clone, Copy)]
pub struct CrxHandler;

impl FormatHandler for CrxHandler {
    open spec fn spec_id(&self) -> FormatId {
        FormatId::Crx
    }

    open spec fn spec_probe(&self, header: Seq<u8>, name: Option<Seq<char>>) -> Confidence {
        archive::magic_when(bytes::stands_at(header, 0, MAGIC@))
    }

    fn id(&self) -> (r: FormatId) {
        FormatId::Crx
    }

    fn probe(&self, header: &[u8], name: Option<&str>) -> (r: Confidence) {
        Confidence::magic_if(starts_with(header, &MAGIC))
    }
}

impl CrxHandler {
    /// Open an extension: the zip archive in it, which is then to be opened.
    pub fn open(&self, src: Source) -> (r: Result<Vec<u8>, Error>)
        ensures
            match src {
                Source::Stream { .. } => error::fails_with(
                    r,
                    ErrorView::Unsupported { format: "crx"@, feature: "streaming (crx requires seek)"@ },
                ),
                Source::Seekable { inner, .. } => crate::archive::body_view(r) == carved(inner@),
            },
    {
        match src {
            Source::Stream { .. } => Err(unsupported("crx", "streaming (crx requires seek)")),
            Source::Seekable { inner, .. } => carve(inner.as_slice()),
        }
    }
}

/// An extension that is not damaged ends with its zip archive, and what stands
/// before that is at least the part of the header that every version has.
pub proof fn zip_ends_extension(data: Seq<u8>)
    requires
        carved(data) is Ok,
    ensures
        carved(data)->Ok_0.len() + 12 <= data.len(),
        carved(data)->Ok_0 == data.skip(data.len() - carved(data)->Ok_0.len()),
{
    let n = zip_offset(data.take(prefix_len(data)))->Ok_0;
    assert(carved(data)->Ok_0 == data.skip(n));
}

/// What is put behind the head of an extension of version 3, which gives the length of one
/// block, and behind that block, is the zip archive that is carved out of it.
#[verifier::rlimit(40)]
pub proof fn zip_is_carved_out(block: Seq<u8>, zip: Seq<u8>)
    requires
        block.len() < 0x1_0000_0000,
    ensures
        carved(
            seq![0x43u8, 0x72, 0x32, 0x34, 3, 0, 0, 0] + bytes::low_first(block.len() as int, 4) + block + zip,
        ) == Ok::<Seq<u8>, ErrorView>(zip),
{
    let mark = seq![0x43u8, 0x72, 0x32, 0x34, 3, 0, 0, 0];
    let a = bytes::low_first(block.len() as int, 4);
    assert(a.len() == 4) by {
        reveal_with_fuel(bytes::low_first, 5);
    }
    let data = mark + a + block + zip;
    let head = data.take(12);
    assert(head =~= mark + a + Seq::<u8>::empty());
    bytes::numbers_read_back(mark, block.len() as int, Seq::empty());
    assert(head.subrange(0, 4) =~= MAGIC@);
    assert(head[4] == 3 && head[5] == 0 && head[6] == 0 && head[7] == 0);
    assert(bytes::le32(head, 4) == 3);
    assert(data[4] == 3 && data[5] == 0 && data[6] == 0 && data[7] == 0);
    assert(bytes::le32(data, 4) == 3);
    assert(zip_offset(head) == Ok::<int, ErrorView>(12 + block.len() as int));
    assert(data.skip(12 + block.len() as int) =~= zip);
}

/// What is put behind the head of an extension of version 2, and behind the key and the
/// signature whose lengths it gives, is the zip archive that is carved out of it.
#[verifier::rlimit(40)]
pub proof fn zip_is_carved_out_behind_key(key: Seq<u8>, signature: Seq<u8>, zip: Seq<u8>)
    requires
        key.len() < 0x1_0000_0000,
        signature.len() < 0x1_0000_0000,
    ensures
        carved(
            seq![0x43u8, 0x72, 0x32, 0x34, 2, 0, 0, 0] + bytes::low_first(key.len() as int, 4) + bytes::low_first(
                signature.len() as int,
                4,
            ) + key + signature + zip,
        ) == Ok::<Seq<u8>, ErrorView>(zip),
{
    let mark = seq![0x43u8, 0x72, 0x32, 0x34, 2, 0, 0, 0];
    let a = bytes::low_first(key.len() as int, 4);
    let b = bytes::low_first(signature.len() as int, 4);
    assert(a.len() == 4 && b.len() == 4) by {
        reveal_with_fuel(bytes::low_first, 5);
    }
    let data = mark + a + b + key + signature + zip;
    let head = data.take(16);
    assert(head =~= mark + a + b);
    bytes::numbers_read_back(mark, key.len() as int, b);
    assert(head =~= (mark + a) + b + Seq::<u8>::empty());
    bytes::numbers_read_back(mark + a, signature.len() as int, Seq::empty());
    assert(head.subrange(0, 4) =~= MAGIC@);
    assert(head[4] == 2 && head[5] == 0 && head[6] == 0 && head[7] == 0);
    assert(bytes::le32(head, 4) == 2);
    assert(data[4] == 2 && data[5] == 0 && data[6] == 0 && data[7] == 0);
    assert(bytes::le32(data, 4) == 2);
    let n = 16 + key.len() as int + signature.len() as int;
    assert(zip_offset(head) == Ok::<int, ErrorView>(n));
    assert(data.skip(n) =~= zip);
}

} // verus!
