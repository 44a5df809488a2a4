//! The codes of data packed by the method of Lempel, Ziv and Welch, as the Unix
//! program `compress` writes them: nine bits each at first, and one more each time
//! the table of strings has doubled, up to a widest code. Code 256 empties the
//! table.
use vstd::prelude::*;

use crate::format::legacy::bits;
use crate::format::legacy::bits::{power_of_two, powers_grow, read_number};

verus! {

/// Where the codes go on after one of `width` bits that empties the table, and that
/// was number `count` of its group: codes come in groups of eight.
pub open spec fn group_end(at: int, width: int, count: int) -> int {
    if count == 0 {
        at
    } else {
        at + width * (8 - count)
    }
}

/// From bit `at` on, where the table has `known` strings, codes have `width` bits
/// and `count` of them were read of a group of eight, the first code for an
/// empty table is always a single byte. A code that the table does not have yet
/// ends the data, as their end does.
pub open spec fn codes_fit(data: Seq<u8>, widest: nat, at: int, known: int, width: nat, count: int, empty: bool) -> bool
    decreases 8 * data.len() - at,
{
    if at < 0 || width < 9 ||  at + width > 8 * data.len() {
        true
    } else {
        let code = bits::number_at(data, true, at, width);
        if code == 256 {
            let next = group_end(at + width, width as int, (count + 1) % 8);
            next > 8 * data.len() || codes_fit(data, widest, next, 257, 9, 0, true)
        } else if empty {
            code < 256 && codes_fit(data, widest, at + width, known, width, (count + 1) % 8, false)
        } else if code > known {
            true
        } else {
            let more = if known < bits::two_to(widest) { known + 1 } else { known };
            let wider = if known < more < bits::two_to(widest) && more == bits::two_to(width) { width + 1 } else { width };
            codes_fit(data, widest, at + width, more, wider as nat, (count + 1) % 8, false)
        }
    }
}

/// Codes of at most `widest` bits can be unpacked: no string of the table is made
/// of itself.
pub open spec fn lzw_fits(data: Seq<u8>, widest: nat) -> bool {
    9 <= widest <= 24 && codes_fit(data, widest, 0, 257, 9, 0, true)
}

/// Whether codes of at most `widest` bits can be unpacked.
pub(crate) fn check_lzw(data: &[u8], widest: u8) -> (r: bool)
    ensures
        r == lzw_fits(data@, widest as nat),
{
    if widest < 9 || widest > 24 {
        return false;
    }
    let all: u128 = 8 * data.len() as u128;
    let power: u64 = power_of_two(widest as u32);
    proof {
        powers_grow(widest as nat, 24);
        assert(bits::two_to(24) == 0x100_0000) by {
            reveal_with_fuel(bits::two_to, 25);
        }
    }
    let most: u32 = power as u32;
    let mut at: u128 = 0;
    let mut known: u32 = 257;
    let mut width: u32 = 9;
    let mut full: u32 = 512;
    let mut count: u32 = 0;
    let mut empty: bool = true;
    assert(bits::two_to(9) == 512) by {
        reveal_with_fuel(bits::two_to, 10);
    }
    proof {
        powers_grow(9, widest as nat);
    }
    while at + width as u128 <= all
        invariant
            all == 8 * data.len(),
            9 <= width <= widest <= 24,
            at <= all,
            count < 8,
            most == bits::two_to(widest as nat),
            full == bits::two_to(width as nat),
            512 <= full <= most <= 0x100_0000,
            bits::two_to(9) == 512,
            known <= most,
            lzw_fits(data@, widest as nat) == codes_fit(
                data@,
                widest as nat,
                at as int,
                known as int,
                width as nat,
                count as int,
                empty,
            ),
        decreases all - at,
    {
        let code: u32 = read_number(data, true, at, width);
        let next: u32 = (count + 1) % 8;
        if code == 256 {
            assert(0 <= width * (8 - next) <= 24 * 8) by (nonlinear_arith)
                requires
                    width <= 24,
                    next < 8,
            ;
            let skip: u128 = if next == 0 { 0 } else { (width * (8 - next)) as u128 };
            if at + width as u128 + skip > all {
                return true;
            }
            at = at + width as u128 + skip;
            known = 257;
            width = 9;
            full = 512;
            count = 0;
            empty = true;
        } else if empty {
            if code >= 256 {
                return false;
            }
            at = at + width as u128;
            count = next;
            empty = false;
        } else if code > known {
            return true;
        } else {
            at = at + width as u128;
            count = next;
            if known < most {
                known = known + 1;
                if known < most && known == full {
                    proof {
                        powers_grow((width + 1) as nat, widest as nat);
                    }
                    width = width + 1;
                    full = 2 * full;
                }
            }
        }
    }
    true
}

} // verus!
