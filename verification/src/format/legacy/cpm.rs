//! Squeezed and crunched files of CP/M. Both end in a sum of all bytes, which has
//! to stay below two to the power 32, so what they unpack to is summed up here
//! before it is asked for.
use vstd::prelude::*;
use vstd::slice::slice_subrange;

use std::io::Read;

use crate::bytes;
use crate::error;
use crate::bytes::{le_u16, position_or_len};
use crate::error::{io_error, IoError, IoKind};

verus! {

/// What `newtua_dos::squeeze::SqueezeReader` reads from some bytes, or its failure.
pub uninterp spec fn squeeze_codes(packed: Seq<u8>) -> Result<Seq<u8>, (IoKind, Seq<char>)>;

/// `newtua_dos::squeeze::SqueezeReader::new` and then reading to the end: the bytes
/// of a squeezed file before runs in them are written out.
#[verifier::external_body]
fn read_squeeze_codes(packed: &[u8]) -> (r: Result<Vec<u8>, IoError>)
    ensures
        error::io_bytes(r) == squeeze_codes(packed@),
{
    let mut reader = newtua_dos::squeeze::SqueezeReader::new(packed).map_err(io_error)?;
    let mut out = Vec::new();
    reader.read_to_end(&mut out).map_err(io_error)?;
    Ok(out)
}

/// What `newtua_dos::crunch_cpm::CrunchCpmReader` reads from some bytes, or its failure.
pub uninterp spec fn crunch_codes(packed: Seq<u8>, aged: bool) -> Result<Seq<u8>, (IoKind, Seq<char>)>;

/// `newtua_dos::crunch_cpm::CrunchCpmReader::new` and then reading to the end: the
/// bytes of a crunched file, of the old sort or the new, before runs in them are
/// written out.
#[verifier::external_body]
fn read_crunch_codes(packed: &[u8], aged: bool) -> (r: Result<Vec<u8>, IoError>)
    ensures
        error::io_bytes(r) == crunch_codes(packed@, aged),
{
    let mut reader = newtua_dos::crunch_cpm::CrunchCpmReader::new(packed, aged).map_err(io_error)?;
    let mut out = Vec::new();
    reader.read_to_end(&mut out).map_err(io_error)?;
    Ok(out)
}

/// What `newtua_dos::crunch_cpm::CrunchLzhufReader` reads from some bytes, or its failure.
pub uninterp spec fn lzhuf_bytes(packed: Seq<u8>, aged: bool) -> Result<Seq<u8>, (IoKind, Seq<char>)>;

/// `newtua_dos::crunch_cpm::CrunchLzhufReader::new` and then reading to the end: the
/// bytes of a file packed with the second method, of the old sort or the new.
#[verifier::external_body]
fn read_lzhuf_bytes(packed: &[u8], aged: bool) -> (r: Result<Vec<u8>, IoError>)
    ensures
        error::io_bytes(r) == lzhuf_bytes(packed@, aged),
{
    let mut reader = newtua_dos::crunch_cpm::CrunchLzhufReader::new(packed, aged).map_err(io_error)?;
    let mut out = Vec::new();
    reader.read_to_end(&mut out).map_err(io_error)?;
    Ok(out)
}

/// From `i` on, with `last` as the byte before and `sum` as the sum so far, the sum
/// of all bytes fits when runs are written out. Behind 0x90 stands how often the
/// byte before it comes, or 0 for the byte 0x90 itself, or 1 for it if `loose`; else
/// 1 is a failure, as the end there is.
pub open spec fn sum_fits(codes: Seq<u8>, loose: bool, i: int, last: int, sum: int) -> bool
    decreases codes.len() - i,
{
    if i < 0 || i >= codes.len() {
        sum <= u32::MAX
    } else if codes[i] != 0x90 {
        sum_fits(codes, loose, i + 1, codes[i] as int, sum + codes[i])
    } else if i + 1 >= codes.len() {
        true
    } else if codes[i + 1] == 0 || codes[i + 1] == 1 && loose {
        sum_fits(codes, loose, i + 2, 0x90, sum + 0x90)
    } else if codes[i + 1] == 1 {
        true
    } else {
        sum_fits(codes, loose, i + 2, last, sum + last * (codes[i + 1] - 1))
    }
}

fn check_sum(codes: &[u8], loose: bool) -> (r: bool)
    ensures
        r == sum_fits(codes@, loose, 0, 0, 0),
{
    let mut i: usize = 0;
    let mut last: u8 = 0;
    let mut sum: u128 = 0;
    while i < codes.len()
        invariant
            i <= codes.len(),
            sum <= 0x1_0000 * i,
            sum_fits(codes@, loose, 0, 0, 0) == sum_fits(codes@, loose, i as int, last as int, sum as int),
        decreases codes.len() - i,
    {
        if codes[i] != 0x90 {
            last = codes[i];
            sum = sum + last as u128;
            i = i + 1;
        } else {
            if codes.len() - i < 2 {
                return true;
            }
            let n: u8 = codes[i + 1];
            if n == 0 || n == 1 && loose {
                last = 0x90;
                sum = sum + 0x90;
            } else if n == 1 {
                return true;
            } else {
                assert(0 <= last * (n - 1) <= 0x1_0000) by (nonlinear_arith)
                    requires
                        0 <= last <= 255,
                        1 <= n <= 255,
                ;
                sum = sum + last as u128 * (n - 1) as u128;
            }
            i = i + 2;
        }
    }
    sum <= u32::MAX as u128
}

/// The sum of some bytes.
pub open spec fn sum_of(b: Seq<u8>) -> int
    decreases b.len(),
{
    if b.len() == 0 {
        0
    } else {
        sum_of(b.drop_last()) + b.last()
    }
}

fn sum_bytes(b: &[u8]) -> (r: u128)
    ensures
        r == sum_of(b@),
{
    let mut i: usize = 0;
    let mut sum: u128 = 0;
    while i < b.len()
        invariant
            i <= b.len(),
            sum <= 255 * i,
            sum == sum_of(b@.take(i as int)),
        decreases b.len() - i,
    {
        assert(b@.take(i + 1).drop_last() =~= b@.take(i as int));
        sum = sum + b[i] as u128;
        i = i + 1;
    }
    assert(b@.take(i as int) =~= b@);
    sum
}

/// The sum of a squeezed file fits, if it is one. Behind the mark and the sum stands
/// a name with a 0 at its end, and then the packed bytes.
pub open spec fn squeeze_fits(data: Seq<u8>) -> bool {
    let end = 4 + bytes::index_or_len(data.skip(4), 0);
    data.len() >= 4 && end < data.len() ==> match squeeze_codes(data.subrange(end + 1, data.len() as int)) {
        Ok(codes) => sum_fits(codes, false, 0, 0, 0),
        Err(_) => true,
    }
}

/// Whether the sum of a squeezed file fits.
pub fn check_squeeze(data: &[u8]) -> (r: bool)
    ensures
        r == squeeze_fits(data@),
{
    if data.len() < 4 {
        return true;
    }
    let rest: &[u8] = slice_subrange(data, 4, data.len());
    assert(rest@ =~= data@.skip(4));
    let end: usize = position_or_len(rest, 0);
    if end >= rest.len() {
        return true;
    }
    match read_squeeze_codes(slice_subrange(data, 4 + end + 1, data.len())) {
        Ok(codes) => check_sum(codes.as_slice(), false),
        Err(_) => true,
    }
}

/// The sum of a crunched file fits, if it is one and has a sum. Behind the mark
/// stands a name with a 0 at its end, and then two versions, whether there is a sum,
/// a byte, and the packed bytes.
pub open spec fn crunch_fits(data: Seq<u8>) -> bool {
    let end = 2 + bytes::index_or_len(data.skip(2), 0);
    let packed = data.subrange(end + 5, data.len() as int);
    let aged = data[end + 2] / 16 == 1;
    data.len() >= 9 && end + 5 <= data.len() && data[end + 3] == 0 ==> if data[1] == 0xFE {
        match crunch_codes(packed, aged) {
            Ok(codes) => sum_fits(codes, true, 0, 0, 0),
            Err(_) => true,
        }
    } else {
        match lzhuf_bytes(packed, aged) {
            Ok(bytes) => sum_of(bytes) <= u32::MAX,
            Err(_) => true,
        }
    }
}

/// Whether the sum of a crunched file fits.
pub fn check_crunch(data: &[u8]) -> (r: bool)
    ensures
        r == crunch_fits(data@),
{
    if data.len() < 9 {
        return true;
    }
    let rest: &[u8] = slice_subrange(data, 2, data.len());
    assert(rest@ =~= data@.skip(2));
    let end: usize = 2 + position_or_len(rest, 0);
    if data.len() - end < 5 || data[end + 3] != 0 {
        return true;
    }
    let packed: &[u8] = slice_subrange(data, end + 5, data.len());
    let aged: bool = data[end + 2] / 16 == 1;
    if data[1] == 0xFE {
        match read_crunch_codes(packed, aged) {
            Ok(codes) => check_sum(codes.as_slice(), true),
            Err(_) => true,
        }
    } else {
        match read_lzhuf_bytes(packed, aged) {
            Ok(b) => sum_bytes(b.as_slice()) <= u32::MAX as u128,
            Err(_) => true,
        }
    }
}

/// The length of a record in the directory of a library.
pub const RECORD: usize = 32;

/// What the numbers in a directory count in.
pub const SECTOR: usize = 128;

/// The sum of the entry fits whose record stands at `pos`, if the letter in its
/// name and the mark of its contents say that it is squeezed or crunched.
pub open spec fn member_fits(data: Seq<u8>, pos: int) -> bool {
    let from = bytes::le16(data, pos + 12) * SECTOR;
    let len = bytes::le16(data, pos + 14) * SECTOR - data[pos + 26];
    let letter = data[pos + 10];
    let body = data.subrange(from, from + len);
    len >= 2 && from + len <= data.len() && data[from] == 0x76 ==> {
        &&& (letter == 0x71 || letter == 0x51) && data[from + 1] == 0xFF ==> squeeze_fits(body)
        &&& (letter == 0x7A || letter == 0x5A) && (data[from + 1] == 0xFE || data[from + 1] == 0xFD) ==> crunch_fits(body)
    }
}

/// The sum of the entry fits that has `skip` others before it, from record `i` of
/// `n` on. Records that do not begin with 0 are not in use.
pub open spec fn library_fits(data: Seq<u8>, i: int, n: int, skip: int) -> bool
    decreases n - i,
{
    if i >= n || (i + 1) * RECORD > data.len() {
        true
    } else if data[i * RECORD] != 0 {
        library_fits(data, i + 1, n, skip)
    } else if skip == 0 {
        member_fits(data, i * RECORD)
    } else {
        library_fits(data, i + 1, n, skip - 1)
    }
}

/// The sum of entry `idx` of a library fits. The first record is that of the
/// directory.
pub open spec fn lbr_fits(data: Seq<u8>, idx: int) -> bool {
    data.len() >= SECTOR ==> library_fits(data, 1, 4 * bytes::le16(data, 14), idx)
}

fn check_member(data: &[u8], pos: usize) -> (r: bool)
    requires
        pos + RECORD <= data.len(),
    ensures
        r == member_fits(data@, pos as int),
{
    let from: u64 = le_u16(data, pos + 12) as u64 * SECTOR as u64;
    let sectors: u64 = le_u16(data, pos + 14) as u64 * SECTOR as u64;
    let pad: u64 = data[pos + 26] as u64;
    let letter: u8 = data[pos + 10];
    if sectors < pad + 2 || from + (sectors - pad) > data.len() as u64 {
        return true;
    }
    let at: usize = from as usize;
    let body: &[u8] = slice_subrange(data, at, (from + (sectors - pad)) as usize);
    if data[at] != 0x76 {
        return true;
    }
    let sort: u8 = data[at + 1];
    if (letter == 0x71 || letter == 0x51) && sort == 0xFF {
        check_squeeze(body)
    } else if (letter == 0x7A || letter == 0x5A) && (sort == 0xFE || sort == 0xFD) {
        check_crunch(body)
    } else {
        true
    }
}

/// Whether the sum of entry `idx` of a library fits.
pub fn check_lbr(data: &[u8], idx: usize) -> (r: bool)
    ensures
        r == lbr_fits(data@, idx as int),
{
    if data.len() < SECTOR {
        return true;
    }
    let n: usize = 4 * le_u16(data, 14) as usize;
    let mut i: usize = 1;
    let mut skip: usize = idx;
    while i < n && (i + 1) * RECORD <= data.len()
        invariant
            1 <= i <= 0x4_0000,
            n <= 0x3_FFFC,
            lbr_fits(data@, idx as int) == library_fits(data@, i as int, n as int, skip as int),
        decreases n - i,
    {
        if data[i * RECORD] == 0 {
            if skip == 0 {
                return check_member(data, i * RECORD);
            }
            skip = skip - 1;
        }
        i = i + 1;
    }
    true
}

} // verus!
