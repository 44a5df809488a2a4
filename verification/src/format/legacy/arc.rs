//! The entries of ARC archives, as far as it takes to find the packed bytes of one
//! and to tell whether they can be unpacked.
use vstd::prelude::*;
use vstd::slice::slice_subrange;

use crate::bytes;
use crate::format::legacy::crush;
use crate::format::legacy::lzw;
use crate::bytes::le_u32;
use crate::format::legacy::crush::check_crush;
use crate::format::legacy::lzw::check_lzw;

verus! {

/// The mark before each header.
pub const MARK: u8 = 0x1A;

/// Where the next mark is, from `pos` on and at most `left` bytes behind it.
pub open spec fn mark_from(data: Seq<u8>, pos: int, left: nat) -> Option<int>
    decreases left,
{
    if pos < 0 || pos >= data.len() {
        None
    } else if data[pos] == MARK {
        Some(pos)
    } else if left == 0 {
        None
    } else {
        mark_from(data, pos + 1, (left - 1) as nat)
    }
}

/// The packed bytes of an entry can be unpacked by its method.
pub open spec fn packed_fits(method: u8, packed: Seq<u8>) -> bool {
    if method == 8 {
        packed.len() > 0 && packed[0] == 0x0c ==> lzw::lzw_fits(packed.subrange(1, packed.len() as int), 12)
    } else if method == 9 {
        lzw::lzw_fits(packed, 13)
    } else if method == 10 {
        crush::crush_fits(packed)
    } else if method == 0x7f {
        packed.len() > 0 ==> lzw::lzw_fits(packed.subrange(1, packed.len() as int), (packed[0] % 32) as nat)
    } else {
        true
    }
}

/// Where the packed bytes begin of the entry whose mark stands at `pos`.
pub open spec fn packed_from(data: Seq<u8>, pos: int) -> int {
    pos + 25 + (if data[pos + 1] == 1 { 0int } else { 4 }) + (if data[pos + 1] >= 0x80 { 12int } else { 0 })
}

/// The entry that has `skip` others before it, from `pos` on, can be unpacked. The
/// end of a folder is no entry, and a folder has no packed bytes.
pub open spec fn entry_fits(data: Seq<u8>, pos: int, skip: int) -> bool
    decreases data.len() - pos,
{
    match mark_from(data, pos, 63) {
        None => true,
        Some(at) => {
            if at < pos || at + 2 > data.len() || data[at + 1] == 0 {
                true
            } else if data[at + 1] == 0x1F || data[at + 1] == 0x80 {
                entry_fits(data, at + 2, skip)
            } else if at + 29 > data.len() {
                true
            } else {
                let from = packed_from(data, at);
                let to = if data[at + 1] == 0x1E { from } else { from + bytes::le32(data, at + 15) };
                if to > data.len() {
                    true
                } else if skip == 0 {
                    data[at + 1] == 0x1E || packed_fits((data[at + 1] % 128) as u8, data.subrange(from, to))
                } else {
                    entry_fits(data, to, skip - 1)
                }
            }
        },
    }
}

/// Entry `idx` of an archive can be unpacked.
pub open spec fn arc_fits(data: Seq<u8>, idx: int) -> bool {
    entry_fits(data, 0, idx)
}

fn find_mark(data: &[u8], pos: usize) -> (r: Option<usize>)
    requires
        pos <= data.len(),
    ensures
        match r {
            Some(at) => mark_from(data@, pos as int, 63) == Some(at as int) && pos <= at < data.len(),
            None => mark_from(data@, pos as int, 63) is None,
        },
{
    let mut at: usize = pos;
    let mut left: u8 = 63;
    while at < data.len()
        invariant
            pos <= at <= data.len(),
            mark_from(data@, pos as int, 63) == mark_from(data@, at as int, left as nat),
        decreases data.len() - at,
    {
        if data[at] == MARK {
            return Some(at);
        }
        if left == 0 {
            return None;
        }
        at = at + 1;
        left = left - 1;
    }
    None
}

fn check_packed(method: u8, packed: &[u8]) -> (r: bool)
    ensures
        r == packed_fits(method, packed@),
{
    if method == 8 {
        packed.len() == 0 || packed[0] != 0x0c || check_lzw(slice_subrange(packed, 1, packed.len()), 12)
    } else if method == 9 {
        check_lzw(packed, 13)
    } else if method == 10 {
        check_crush(packed)
    } else if method == 0x7f {
        packed.len() == 0 || check_lzw(slice_subrange(packed, 1, packed.len()), packed[0] % 32)
    } else {
        true
    }
}

/// Whether entry `idx` of an archive can be unpacked.
pub fn check_arc(data: &[u8], idx: usize) -> (r: bool)
    ensures
        r == arc_fits(data@, idx as int),
{
    let mut pos: usize = 0;
    let mut skip: usize = idx;
    loop
        invariant
            pos <= data.len(),
            arc_fits(data@, idx as int) == entry_fits(data@, pos as int, skip as int),
        decreases data.len() - pos,
    {
        match find_mark(data, pos) {
            None => {
                return true;
            },
            Some(at) => {
                if data.len() - at < 2 || data[at + 1] == 0 {
                    return true;
                }
                let method: u8 = data[at + 1];
                if method == 0x1F || method == 0x80 {
                    pos = at + 2;
                } else {
                    if data.len() - at < 29 {
                        return true;
                    }
                    let from: u128 = at as u128 + 25 + (if method == 1 { 0 } else { 4 }) + (if method >= 0x80 { 12 } else { 0 });
                    let to: u128 = if method == 0x1E { from } else { from + le_u32(data, at + 15) as u128 };
                    if to > data.len() as u128 {
                        return true;
                    }
                    if skip == 0 {
                        return method == 0x1E || check_packed(
                            method % 128,
                            slice_subrange(data, from as usize, to as usize),
                        );
                    }
                    skip = skip - 1;
                    pos = to as usize;
                }
            },
        }
    }
}

} // verus!
