//! The packed forks of Compact Pro archives: three code tables, and then bytes and
//! matches, a match being some bytes that stand a way back in what was unpacked.
use vstd::prelude::*;

use crate::format::legacy::{bits, canon};
use crate::format::legacy::bits::{read_bit, read_number};
use crate::format::legacy::canon::Canon;

verus! {

/// No match goes further back than this.
pub const FARTHEST: u32 = 8191;

/// The lengths in the code table at `pos`, which is for `size` symbols at most, and
/// where the table ends. Each byte of it holds two lengths.
pub open spec fn table_at(data: Seq<u8>, pos: int, size: int) -> Option<(Seq<u8>, int)> {
    let n = data[pos] as int;
    let lengths = Seq::new(
        (2 * n) as nat,
        |i: int| if i % 2 == 0 { (data[pos + 1 + i / 2] / 16) as u8 } else { (data[pos + 1 + i / 2] % 16) as u8 },
    );
    if pos >= data.len() || 2 * n > size || pos + 1 + n > data.len() || canon::crowded(lengths, 15) {
        None
    } else {
        Some((lengths, pos + 1 + n))
    }
}

/// From bit `at` on, with `pos` bytes unpacked, no match begins before the first
/// byte and reaches it. Where there is no code, the data end.
pub open spec fn tokens_fit(data: Seq<u8>, literals: Seq<u8>, runs: Seq<u8>, offsets: Seq<u8>, at: int, pos: int) -> bool
    decreases 8 * data.len() - at,
{
    if pos >= FARTHEST || at < 0 || at >= 8 * data.len() {
        true
    } else if bits::bit_at(data, false, at) == 1 {
        match canon::symbol_at(data, false, literals, 15, at + 1) {
            None => true,
            Some((_, next)) => at < next <= 8 * data.len() ==> tokens_fit(data, literals, runs, offsets, next, pos + 1),
        }
    } else {
        match canon::symbol_at(data, false, runs, 15, at + 1) {
            None => true,
            Some((n, mid)) => match canon::symbol_at(data, false, offsets, 15, mid) {
                None => true,
                Some((high, low)) => {
                    let back = 64 * high + bits::number_at(data, false, low, 6);
                    if low + 6 > 8 * data.len() {
                        true
                    } else if back > pos && (n == 0 || n >= back - pos) {
                        false
                    } else {
                        n > 0 && at < low ==> tokens_fit(data, literals, runs, offsets, low + 6, pos + n)
                    }
                },
            },
        }
    }
}

/// No match in a packed fork begins before the first byte and reaches it. Where more
/// bytes are unpacked than a match can go back, none does any more.
pub open spec fn lzh_fits(data: Seq<u8>) -> bool {
    match table_at(data, 0, 256) {
        None => true,
        Some((literals, p)) => match table_at(data, p, 64) {
            None => true,
            Some((runs, q)) => match table_at(data, q, 128) {
                None => true,
                Some((offsets, r)) => tokens_fit(data, literals, runs, offsets, 8 * r, 0),
            },
        },
    }
}

fn read_table(data: &[u8], pos: usize, size: usize) -> (r: Option<(Canon, usize)>)
    requires
        size <= 256,
    ensures
        match r {
            Some((c, end)) => c.well_formed() && c.longest == 15 && table_at(data@, pos as int, size as int) == Some(
                (c.lengths@, end as int),
            ) && end <= data.len() && c.lengths.len() <= size,
            None => table_at(data@, pos as int, size as int) is None,
        },
{
    if pos >= data.len() {
        return None;
    }
    let n: usize = data[pos] as usize;
    if 2 * n > size || data.len() - pos - 1 < n {
        return None;
    }
    let mut lengths: Vec<u8> = Vec::new();
    let mut i: usize = 0;
    while i < 2 * n
        invariant
            i <= 2 * n <= 512,
            pos + 1 + n <= data.len(),
            lengths.len() == i,
            forall|k: int|
                0 <= k < i ==> #[trigger] lengths[k] == if k % 2 == 0 {
                    (data[pos + 1 + k / 2] / 16) as u8
                } else {
                    (data[pos + 1 + k / 2] % 16) as u8
                },
        decreases 2 * n - i,
    {
        let b: u8 = data[pos + 1 + i / 2];
        lengths.push(if i % 2 == 0 { b / 16 } else { b % 16 });
        i = i + 1;
    }
    assert(lengths@ =~= Seq::new(
        (2 * n) as nat,
        |i: int| if i % 2 == 0 { (data@[pos + 1 + i / 2] / 16) as u8 } else { (data@[pos + 1 + i / 2] % 16) as u8 },
    ));
    let c: Canon = Canon::new(lengths, 15);
    if c.is_crowded() {
        return None;
    }
    Some((c, pos + 1 + n))
}

/// Whether no match in a packed fork begins before the first byte and reaches it.
pub(crate) fn check_lzh(data: &[u8]) -> (r: bool)
    ensures
        r == lzh_fits(data@),
{
    let (literals, p) = match read_table(data, 0, 256) {
        Some(t) => t,
        None => {
            return true;
        },
    };
    let (runs, q) = match read_table(data, p, 64) {
        Some(t) => t,
        None => {
            return true;
        },
    };
    let (offsets, o) = match read_table(data, q, 128) {
        Some(t) => t,
        None => {
            return true;
        },
    };
    let all: u128 = 8 * data.len() as u128;
    let mut at: u128 = 8 * o as u128;
    let mut pos: u32 = 0;
    while pos < FARTHEST && at < all
        invariant
            all == 8 * data.len(),
            literals.well_formed(),
            literals.longest == 15,
            runs.well_formed(),
            runs.longest == 15,
            runs.lengths.len() <= 64,
            offsets.well_formed(),
            offsets.longest == 15,
            offsets.lengths.len() <= 128,
            pos <= FARTHEST + 64,
            lzh_fits(data@) == tokens_fit(
                data@,
                literals.lengths@,
                runs.lengths@,
                offsets.lengths@,
                at as int,
                pos as int,
            ),
        decreases all - at,
    {
        if read_bit(data, false, at) {
            match literals.next(data, false, at + 1) {
                None => {
                    return true;
                },
                Some((_, next)) => {
                    at = next;
                    pos = pos + 1;
                },
            }
        } else {
            let (n, mid) = match runs.next(data, false, at + 1) {
                Some(s) => s,
                None => {
                    return true;
                },
            };
            let (high, low) = match offsets.next(data, false, mid) {
                Some(s) => s,
                None => {
                    return true;
                },
            };
            if low + 6 > all {
                return true;
            }
            let rest: u32 = read_number(data, false, low, 6);
            assert(rest < 64) by {
                reveal_with_fuel(bits::two_to, 7);
            }
            let back: u32 = 64 * high as u32 + rest;
            let len: u32 = n as u32;
            if back > pos && (len == 0 || len >= back - pos) {
                return false;
            }
            if len == 0 {
                return true;
            }
            at = low + 6;
            pos = pos + len;
        }
    }
    true
}

} // verus!
