//! The tracks of DMS archives, as far as it takes to tell whether the code tables in
//! them are whole.
use vstd::prelude::*;
use vstd::slice::slice_subrange;

use crate::bytes;
use crate::format::legacy::bits;
use crate::bytes::{be_u16, be_u32};
use crate::format::legacy::bits::{power_of_two, powers_grow, read_number};

verus! {

/// The length of the header of an archive.
pub const HEADER: usize = 56;

/// The length of the header of a track.
pub const TRACK: usize = 20;

/// How many tracks there may be.
pub const MOST_TRACKS: u32 = 30000;

/// How many bytes at the beginning of a track the code tables take at most.
pub const TABLES: usize = 400;

/// How many symbols for bytes and lengths there are.
pub const SYMBOLS: usize = 510;

/// The beginning of a track, with zeros behind it if it is short.
pub open spec fn padded(packed: Seq<u8>) -> Seq<u8> {
    Seq::new(TABLES as nat, |i: int| if i < packed.len() { packed[i] } else { 0 })
}

/// The `n` lengths of `width` bits each from bit `at` on, of `size`; the others are 0.
pub open spec fn lengths_at(data: Seq<u8>, at: int, width: nat, n: int, size: nat) -> Seq<u8> {
    Seq::new(size, |i: int| if i < n { bits::number_at(data, false, at + width * i, width) as u8 } else { 0 })
}

/// How much of all codes of `longest` bits the codes of the first `n` symbols take.
pub open spec fn share_of(lengths: Seq<u8>, n: int, longest: int) -> int
    decreases n,
{
    if n <= 0 {
        0
    } else {
        share_of(lengths, n - 1, longest) + if 0 < lengths[n - 1] <= longest {
            bits::two_to((longest - lengths[n - 1]) as nat)
        } else {
            0
        }
    }
}

/// Every string of bits begins with one code, none of which is longer than `longest`.
pub open spec fn is_whole(lengths: Seq<u8>, longest: int) -> bool {
    &&& forall|i: int| 0 <= i < lengths.len() ==> #[trigger] lengths[i] <= longest
    &&& share_of(lengths, lengths.len() as int, longest) == bits::two_to(longest as nat)
}

/// Where the table of `size` symbols ends that begins at bit `at`: how many lengths of
/// `width` bits there are, in `wide` bits, and the lengths; or 0 and the one symbol that
/// there is. None, if it is not whole. There is room for `room` lengths.
pub open spec fn table_end(data: Seq<u8>, at: int, wide: nat, width: nat, size: nat, room: int, longest: int) -> Option<int> {
    let n = bits::number_at(data, false, at, wide);
    if n == 0 {
        if bits::number_at(data, false, at + wide, wide) < size {
            Some(at + 2 * wide)
        } else {
            None
        }
    } else if n <= room && is_whole(lengths_at(data, at + wide, width, n, size), longest) {
        Some(at + wide + width * n)
    } else {
        None
    }
}

/// Both tables at the beginning of a track are whole; `far` tells the method with one
/// more symbol for offsets.
pub open spec fn tables_are_whole(packed: Seq<u8>, far: bool) -> bool {
    match table_end(padded(packed), 0, 9, 5, SYMBOLS as nat, 510, 28) {
        None => false,
        Some(at) => table_end(padded(packed), at, 5, 4, if far { 15 } else { 14 }, 30, 15) is Some,
    }
}

/// The track at `pos` can be unpacked as far as its tables go. They do not show where
/// the track is encrypted and there is a key.
pub open spec fn track_fits(data: Seq<u8>, keyed: bool, pos: int) -> bool {
    let method = data[pos + 13];
    let end = pos + TRACK + bytes::be16(data, pos + 6);
    method == 5 || method == 6 ==> !keyed && (data[pos + 12] / 2 % 2 == 1 && end <= data.len() ==> tables_are_whole(
        data.subrange(pos + TRACK, end),
        method == 6,
    ))
}

/// The tracks from `pos` on, `left` at most, can be unpacked. A track that has no tables
/// goes by those of another track; where there is one (`bare`), only one of the two
/// methods with tables (`near` and `far`) occurs.
pub open spec fn tracks_fit(data: Seq<u8>, keyed: bool, pos: int, left: nat, bare: bool, near: bool, far: bool) -> bool
    decreases left,
{
    if pos < 0 || pos + TRACK > data.len() || bytes::be16(data, pos) != 0x5452 {
        !(bare && near && far)
    } else if left == 0 {
        false
    } else {
        let method = data[pos + 13];
        let tables = method == 5 || method == 6;
        track_fits(data, keyed, pos) && tracks_fit(
            data,
            keyed,
            pos + TRACK + bytes::be16(data, pos + 6),
            (left - 1) as nat,
            bare || tables && data[pos + 12] / 2 % 2 == 0,
            near || method == 5,
            far || method == 6,
        )
    }
}

/// The archive holds files, not a disk.
pub open spec fn holds_files(data: Seq<u8>) -> bool {
    bytes::be16(data, 50) == 7 || bytes::be16(data, 38) == 7
}

/// An archive can be unpacked, with a key for it or without. Before the tracks of files
/// stands one with a name, which is not packed.
pub open spec fn dms_fits(data: Seq<u8>, keyed: bool) -> bool {
    data.len() >= HEADER + TRACK ==> {
        let locked = data[11] / 2 % 2 == 1;
        if holds_files(data) {
            bytes::be32(data, 24) <= 0xFFFF_0000 && tracks_fit(
                data,
                keyed && locked,
                HEADER + TRACK + bytes::be16(data, HEADER + 10),
                MOST_TRACKS as nat,
                false,
                false,
                false,
            )
        } else {
            tracks_fit(data, keyed && locked, HEADER as int, MOST_TRACKS as nat, false, false, false)
        }
    }
}

fn pad(packed: &[u8]) -> (r: Vec<u8>)
    ensures
        r@ == padded(packed@),
{
    let mut out: Vec<u8> = Vec::new();
    while out.len() < TABLES
        invariant
            out.len() <= TABLES,
            forall|i: int| 0 <= i < out.len() ==> #[trigger] out[i] == padded(packed@)[i],
        decreases TABLES - out.len(),
    {
        let i: usize = out.len();
        out.push(if i < packed.len() { packed[i] } else { 0 });
    }
    assert(out@ =~= padded(packed@));
    out
}

fn read_lengths(data: &[u8], at: u32, width: u32, n: usize, size: usize) -> (r: Vec<u8>)
    requires
        1 <= width <= 5,
        n <= 510,
        size <= 510,
        at <= 4000,
        at + width * n <= 8 * data.len(),
    ensures
        r@ == lengths_at(data@, at as int, width as nat, n as int, size as nat),
{
    let mut out: Vec<u8> = Vec::new();
    while out.len() < size
        invariant
            out.len() <= size <= 510,
            1 <= width <= 5,
            n <= 510,
            at <= 4000,
            at + width * n <= 8 * data.len(),
            forall|i: int|
                0 <= i < out.len() ==> #[trigger] out[i] == lengths_at(
                    data@,
                    at as int,
                    width as nat,
                    n as int,
                    size as nat,
                )[i],
        decreases size - out.len(),
    {
        let i: usize = out.len();
        if i < n {
            assert(0 <= width * i && width * i + width <= width * n && width * i <= 2550) by (nonlinear_arith)
                requires
                    i < n <= 510,
                    1 <= width <= 5,
            ;
            let v: u32 = read_number(data, false, (at + width * i as u32) as u128, width);
            out.push(v as u8);
        } else {
            out.push(0);
        }
    }
    assert(out@ =~= lengths_at(data@, at as int, width as nat, n as int, size as nat));
    out
}

fn check_whole(lengths: &Vec<u8>, longest: u32) -> (r: bool)
    requires
        lengths.len() <= 510,
        longest <= 28,
    ensures
        r == is_whole(lengths@, longest as int),
{
    let mut sum: u64 = 0;
    let mut i: usize = 0;
    assert(bits::two_to(28) == 0x1000_0000) by {
        reveal_with_fuel(bits::two_to, 29);
    }
    while i < lengths.len()
        invariant
            i <= lengths.len() <= 510,
            longest <= 28,
            bits::two_to(28) == 0x1000_0000,
            sum == share_of(lengths@, i as int, longest as int),
            sum <= 0x1000_0000 * i,
            forall|k: int| 0 <= k < i ==> #[trigger] lengths[k] <= longest,
        decreases lengths.len() - i,
    {
        let n: u32 = lengths[i] as u32;
        if n > longest {
            return false;
        }
        if n > 0 {
            proof {
                powers_grow((longest - n) as nat, 28);
            }
            sum = sum + power_of_two(longest - n);
        }
        i = i + 1;
    }
    sum == power_of_two(longest)
}

fn skip_table(data: &[u8], at: u32, wide: u32, width: u32, size: usize, room: usize, longest: u32) -> (r: Option<u32>)
    requires
        data.len() == TABLES,
        1 <= wide <= 9,
        1 <= width <= 5,
        size <= 510,
        room <= 510,
        longest <= 28,
        at + 2 * wide + width * room <= 8 * TABLES,
    ensures
        match r {
            Some(end) => table_end(
                data@,
                at as int,
                wide as nat,
                width as nat,
                size as nat,
                room as int,
                longest as int,
            ) == Some(end as int) && at <= end <= at + 2 * wide + width * room,
            None => table_end(
                data@,
                at as int,
                wide as nat,
                width as nat,
                size as nat,
                room as int,
                longest as int,
            ) is None,
        },
{
    assert(0 <= width * room <= 2550) by (nonlinear_arith)
        requires
            room <= 510,
            1 <= width <= 5,
    ;
    let n: usize = read_number(data, false, at as u128, wide) as usize;
    if n == 0 {
        let one: usize = read_number(data, false, (at + wide) as u128, wide) as usize;
        if one < size {
            return Some(at + 2 * wide);
        }
        return None;
    }
    if n > room {
        return None;
    }
    assert(0 <= width * n <= width * room) by (nonlinear_arith)
        requires
            n <= room,
            1 <= width,
    ;
    let lengths: Vec<u8> = read_lengths(data, at + wide, width, n, size);
    if check_whole(&lengths, longest) {
        Some(at + wide + width * n as u32)
    } else {
        None
    }
}

fn check_tables(packed: &[u8], far: bool) -> (r: bool)
    ensures
        r == tables_are_whole(packed@, far),
{
    let data: Vec<u8> = pad(packed);
    match skip_table(data.as_slice(), 0, 9, 5, SYMBOLS, 510, 28) {
        None => false,
        Some(at) => {
            let size: usize = if far { 15 } else { 14 };
            skip_table(data.as_slice(), at, 5, 4, size, 30, 15).is_some()
        },
    }
}

fn check_track(data: &[u8], keyed: bool, pos: usize) -> (r: bool)
    requires
        pos + TRACK <= data.len(),
    ensures
        r == track_fits(data@, keyed, pos as int),
{
    let method: u8 = data[pos + 13];
    if method != 5 && method != 6 {
        return true;
    }
    if keyed {
        return false;
    }
    let len: usize = be_u16(data, pos + 6) as usize;
    if data[pos + 12] / 2 % 2 == 0 || len > data.len() - pos - TRACK {
        return true;
    }
    check_tables(slice_subrange(data, pos + TRACK, pos + TRACK + len), method == 6)
}

fn check_tracks(data: &[u8], keyed: bool, from: usize) -> (r: bool)
    requires
        from <= HEADER + TRACK + 0xFFFF,
    ensures
        r == tracks_fit(data@, keyed, from as int, MOST_TRACKS as nat, false, false, false),
{
    let mut pos: u64 = from as u64;
    let mut left: u32 = MOST_TRACKS;
    let mut bare: bool = false;
    let mut near: bool = false;
    let mut far: bool = false;
    while pos + TRACK as u64 <= data.len() as u64
        invariant
            left <= MOST_TRACKS,
            pos <= HEADER + TRACK + 0xFFFF + (MOST_TRACKS - left) * 0x1_0013,
            tracks_fit(data@, keyed, from as int, MOST_TRACKS as nat, false, false, false) == tracks_fit(
                data@,
                keyed,
                pos as int,
                left as nat,
                bare,
                near,
                far,
            ),
        decreases left,
    {
        let at: usize = pos as usize;
        if be_u16(data, at) != 0x5452 {
            return !(bare && near && far);
        }
        if left == 0 {
            return false;
        }
        if !check_track(data, keyed, at) {
            return false;
        }
        let method: u8 = data[at + 13];
        bare = bare || (method == 5 || method == 6) && data[at + 12] / 2 % 2 == 0;
        near = near || method == 5;
        far = far || method == 6;
        pos = pos + TRACK as u64 + be_u16(data, at + 6) as u64;
        left = left - 1;
    }
    !(bare && near && far)
}

/// Whether an archive can be unpacked, with a key for it or without.
pub fn check_dms(data: &[u8], keyed: bool) -> (r: bool)
    ensures
        r == dms_fits(data@, keyed),
{
    if data.len() < HEADER + TRACK {
        return true;
    }
    let locked: bool = data[11] / 2 % 2 == 1;
    if be_u16(data, 50) == 7 || be_u16(data, 38) == 7 {
        be_u32(data, 24) <= 0xFFFF_0000 && check_tracks(
            data,
            keyed && locked,
            HEADER + TRACK + be_u16(data, HEADER + 10) as usize,
        )
    } else {
        check_tracks(data, keyed && locked, HEADER)
    }
}

} // verus!
