//! The codes of crushed entries of ARC archives. A code stands for a byte or for a
//! string, and a string is another one and a byte behind it. When the table of
//! strings is full, a new one takes the place of one that was not used for long.
use vstd::prelude::*;

use crate::format::legacy::bits;
use crate::format::legacy::bits::{power_of_two, powers_fit, powers_grow, read_bit, read_number};

verus! {

/// How many codes there are.
pub const CODES: usize = 8192;

/// How many codes back the strings among the codes are counted.
pub const RING: usize = 500;

/// What is known of the codes when some of them were read.
pub struct Codes {
    /// The bit that comes next.
    pub at: int,
    /// How many codes have a meaning.
    pub known: int,
    /// The last code, or -1.
    pub prev: int,
    /// How many bits the code of a string has.
    pub width: nat,
    /// With so many strings a code gets another bit.
    pub bump: int,
    /// Whether a bit before a code tells bytes and strings apart.
    pub marked: bool,
    /// How many of the last codes were strings.
    pub strings: int,
    /// Where in the ring the next code goes.
    pub turn: int,
    /// Which of the last codes were strings.
    pub ring: Seq<bool>,
    /// Where the search for a string to replace begins.
    pub hand: int,
    /// How lately a code was used.
    pub usage: Seq<u8>,
    /// The string that a string begins with, or -1.
    pub parents: Seq<i32>,
}

/// Following strings to those that they begin with comes to an end.
pub open spec fn ends(parents: Seq<i32>, code: int, steps: nat) -> bool
    decreases steps,
{
    code < 0 || (steps > 0 && code < parents.len() && ends(parents, parents[code] as int, (steps - 1) as nat))
}

/// A code and those that it begins with count as used.
pub open spec fn used(parents: Seq<i32>, usage: Seq<u8>, code: int, steps: nat) -> Seq<u8>
    decreases steps,
{
    if code < 0 || steps == 0 || code >= parents.len() {
        usage
    } else {
        used(parents, usage.update(code, 4), parents[code] as int, (steps - 1) as nat)
    }
}

/// The next code and where it ends; none at the end of the data and after the code
/// that says so.
pub open spec fn next_code(data: Seq<u8>, c: Codes) -> Option<(int, int)> {
    let all = 8 * data.len();
    if c.marked && c.at + 1 > all {
        None
    } else if c.marked && bits::bit_at(data, true, c.at) == 0 {
        if c.at + 9 > all {
            None
        } else {
            Some((bits::number_at(data, true, c.at + 1, 8), c.at + 9))
        }
    } else {
        let from = if c.marked { c.at + 1 } else { c.at };
        let n = bits::number_at(data, true, from, c.width);
        let code = if c.marked {
            n + 256
        } else if n < 256 {
            255 - n
        } else {
            n
        };
        if from + c.width > all || code == 256 {
            None
        } else {
            Some((code, from + c.width))
        }
    }
}

/// The usage of strings after the search for one to replace, where the search
/// stopped, and the one that was found. It goes round once at most, and stops at a
/// string whose usage comes down to nothing.
pub open spec fn searched(usage: Seq<u8>, index: int, hand: int, best: int, least: int, steps: nat) -> (Seq<u8>, int, int)
    decreases steps,
{
    let i = if index + 1 == CODES { 257 } else { index + 1 };
    let u = usage[i];
    let left = if u == 0 { 255u8 } else { (u - 1) as u8 };
    let worn = usage.update(i, left);
    let found = if u < least { i } else { best };
    if left == 0 || i == hand || steps == 0 {
        (worn, i, found)
    } else {
        searched(worn, i, hand, found, if u < least { u as int } else { least }, (steps - 1) as nat)
    }
}

/// What is known after one code: nothing, if a string is made of itself or a code
/// has no place in the table; and nothing more, if the data end there.
pub open spec fn after_code(data: Seq<u8>, c: Codes) -> Option<Option<Codes>> {
    match next_code(data, c) {
        None => Some(None),
        Some((code, at)) => {
            let usage = used(c.parents, c.usage, code, CODES as nat);
            let gone = if c.ring[c.turn] { c.strings - 1 } else { c.strings };
            let strings = if code >= 256 { gone + 1 } else { gone };
            let marked = strings < 375;
            let bump = if marked == c.marked {
                c.bump
            } else {
                bits::two_to(c.width) - if marked { 0int } else { 256 }
            };
            let next = Codes {
                at,
                marked,
                bump,
                strings,
                turn: (c.turn + 1) % (RING as int),
                ring: c.ring.update(c.turn, code >= 256),
                prev: code,
                ..c
            };
            if code >= CODES || !ends(c.parents, code, CODES as nat) || c.width > 24 {
                None
            } else if c.known == CODES {
                let (worn, hand, old) = searched(usage, c.hand, c.hand, 0, 256, CODES as nat);
                let parents = c.parents.update(old, c.prev as i32);
                if !ends(parents, code, CODES as nat) {
                    None
                } else {
                    Some(Some(widened(Codes { usage: worn.update(old, 2), hand, parents, ..next })))
                }
            } else if c.prev < 0 {
                if code >= 256 {
                    None
                } else {
                    Some(Some(widened(Codes { usage: usage.update(c.known - 1, 2), ..next })))
                }
            } else if code > c.known {
                Some(None)
            } else {
                let parents = c.parents.update(c.known, c.prev as i32);
                if !ends(parents, code, CODES as nat) {
                    None
                } else {
                    Some(Some(widened(Codes { usage: usage.update(c.known, 2), known: c.known + 1, parents, ..next })))
                }
            }
        },
    }
}

/// Codes get another bit when there are strings enough.
pub open spec fn widened(c: Codes) -> Codes {
    if c.known - 257 >= c.bump {
        let width = c.width + 1;
        Codes { width, bump: bits::two_to(width) - if c.marked { 0int } else { 256 }, ..c }
    } else {
        c
    }
}

/// All codes that follow can be unpacked.
pub open spec fn codes_fit(data: Seq<u8>, c: Codes) -> bool
    decreases 8 * data.len() - c.at,
{
    match after_code(data, c) {
        None => false,
        Some(None) => true,
        Some(Some(next)) => c.at < next.at <= 8 * data.len() ==> codes_fit(data, next),
    }
}

/// What is known before the first code.
pub open spec fn no_codes() -> Codes {
    Codes {
        at: 0,
        known: 257,
        prev: -1,
        width: 1,
        bump: 2,
        marked: true,
        strings: 0,
        turn: 0,
        ring: Seq::new(RING as nat, |i: int| false),
        hand: 257,
        usage: Seq::new(CODES as nat, |i: int| 0u8),
        parents: Seq::new(CODES as nat, |i: int| -1i32),
    }
}

/// The codes can be unpacked: no string is made of itself.
pub open spec fn crush_fits(data: Seq<u8>) -> bool {
    codes_fit(data, no_codes())
}

fn chain_ends(parents: &Vec<i32>, code: i32) -> (r: bool)
    ensures
        r == ends(parents@, code as int, CODES as nat),
{
    let mut at: i32 = code;
    let mut steps: usize = CODES;
    while at >= 0
        invariant
            ends(parents@, code as int, CODES as nat) == ends(parents@, at as int, steps as nat),
        decreases steps,
    {
        if steps == 0 || at as usize >= parents.len() {
            return false;
        }
        at = parents[at as usize];
        steps = steps - 1;
    }
    true
}

fn mark_used(parents: &Vec<i32>, usage: &mut Vec<u8>, code: i32)
    requires
        parents.len() == old(usage).len(),
    ensures
        final(usage)@ == used(parents@, old(usage)@, code as int, CODES as nat),
        final(usage).len() == old(usage).len(),
{
    let mut at: i32 = code;
    let mut steps: usize = CODES;
    while at >= 0 && steps > 0 && (at as usize) < parents.len()
        invariant
            parents.len() == usage.len(),
            used(parents@, old(usage)@, code as int, CODES as nat) == used(parents@, usage@, at as int, steps as nat),
            usage.len() == old(usage).len(),
        decreases steps,
    {
        usage.set(at as usize, 4);
        at = parents[at as usize];
        steps = steps - 1;
    }
}

fn search(usage: &mut Vec<u8>, hand: usize) -> (r: (usize, usize))
    requires
        old(usage).len() == CODES,
        257 <= hand < CODES,
    ensures
        (final(usage)@, r.0 as int, r.1 as int) == searched(old(usage)@, hand as int, hand as int, 0, 256, CODES as nat),
        final(usage).len() == CODES,
        257 <= r.0 < CODES,
        r.1 < CODES,
{
    let mut index: usize = hand;
    let mut best: usize = 0;
    let mut least: u16 = 256;
    let mut steps: usize = CODES;
    loop
        invariant
            usage.len() == CODES,
            257 <= index < CODES,
            best < CODES,
            searched(old(usage)@, hand as int, hand as int, 0, 256, CODES as nat) == searched(
                usage@,
                index as int,
                hand as int,
                best as int,
                least as int,
                steps as nat,
            ),
        decreases steps,
    {
        index = if index + 1 == CODES { 257 } else { index + 1 };
        let u: u8 = usage[index];
        let left: u8 = if u == 0 { 255 } else { u - 1 };
        usage.set(index, left);
        if (u as u16) < least {
            best = index;
            least = u as u16;
        }
        if left == 0 || index == hand || steps == 0 {
            return (index, best);
        }
        steps = steps - 1;
    }
}

fn filled<T: Copy>(n: usize, v: T) -> (r: Vec<T>)
    ensures
        r@ == Seq::new(n as nat, |i: int| v),
{
    let mut out: Vec<T> = Vec::new();
    while out.len() < n
        invariant
            out.len() <= n,
            forall|i: int| 0 <= i < out.len() ==> out@[i] == v,
        decreases n - out.len(),
    {
        out.push(v);
    }
    assert(out@ =~= Seq::new(n as nat, |i: int| v));
    out
}

/// Whether the codes can be unpacked.
#[verifier::rlimit(60)]
pub(crate) fn check_crush(data: &[u8]) -> (r: bool)
    ensures
        r == crush_fits(data@),
{
    let all: u128 = 8 * data.len() as u128;
    let mut at: u128 = 0;
    let mut known: usize = 257;
    let mut prev: i32 = -1;
    let mut width: u32 = 1;
    let mut bump: i64 = 2;
    let mut marked: bool = true;
    let mut strings: i128 = 0;
    let mut turn: usize = 0;
    let mut ring: Vec<bool> = filled(RING, false);
    let mut hand: usize = 257;
    let mut usage: Vec<u8> = filled(CODES, 0u8);
    let mut parents: Vec<i32> = filled(CODES, -1i32);
    let ghost mut now = no_codes();
    loop
        invariant
            all == 8 * data.len(),
            now == (Codes {
                at: at as int,
                known: known as int,
                prev: prev as int,
                width: width as nat,
                bump: bump as int,
                marked,
                strings: strings as int,
                turn: turn as int,
                ring: ring@,
                hand: hand as int,
                usage: usage@,
                parents: parents@,
            }),
            at <= all,
            257 <= known <= CODES,
            -1 <= prev < CODES,
            prev < 0 ==> known == 257,
            1 <= width <= 25,
            turn < RING,
            ring.len() == RING,
            257 <= hand < CODES,
            usage.len() == CODES,
            parents.len() == CODES,
            -(at as int) <= strings <= at,
            crush_fits(data@) == codes_fit(data@, now),
        decreases all - at,
    {
        if marked && at + 1 > all {
            return true;
        }
        let mut from: u128 = at;
        let mut bytes: bool = false;
        if marked {
            bytes = !read_bit(data, true, at);
            from = at + 1;
        }
        let n: u32 = if bytes { 8 } else { width };
        if from + n as u128 > all {
            return true;
        }
        let number: u32 = read_number(data, true, from, n);
        proof {
            powers_fit(n as nat);
            powers_fit(width as nat);
            assert(bits::two_to(8) == 256 && bits::two_to(25) == 0x200_0000) by {
                reveal_with_fuel(bits::two_to, 26);
            }
            powers_grow(n as nat, 25);
        }
        let code: u32 = if bytes {
            number
        } else if marked {
            number + 256
        } else if number < 256 {
            255 - number
        } else {
            number
        };
        if !bytes && code == 256 {
            return true;
        }
        assert(next_code(data@, now) == Some((code as int, from + n)));
        if code as usize >= CODES || !chain_ends(&parents, code as i32) || width > 24 {
            return false;
        }
        at = from + n as u128;
        mark_used(&parents, &mut usage, code as i32);
        if ring[turn] {
            strings = strings - 1;
        }
        let string: bool = code >= 256;
        ring.set(turn, string);
        if string {
            strings = strings + 1;
        }
        turn = (turn + 1) % RING;
        let few: bool = strings < 375;
        let whole: i64 = power_of_two(width) as i64;
        if few != marked {
            marked = few;
            bump = if few { whole } else { whole - 256 };
        }
        if known == CODES {
            let (stop, old) = search(&mut usage, hand);
            hand = stop;
            parents.set(old, prev);
            usage.set(old, 2);
        } else if prev < 0 {
            if string {
                return false;
            }
            usage.set(known - 1, 2);
        } else if code as usize > known {
            return true;
        } else {
            parents.set(known, prev);
            usage.set(known, 2);
            known = known + 1;
        }
        if !chain_ends(&parents, code as i32) {
            return false;
        }
        prev = code as i32;
        if known as i64 - 257 >= bump {
            width = width + 1;
            bump = power_of_two(width) as i64 - if marked { 0 } else { 256 };
        }
        proof {
            let next = Codes {
                at: at as int,
                known: known as int,
                prev: prev as int,
                width: width as nat,
                bump: bump as int,
                marked,
                strings: strings as int,
                turn: turn as int,
                ring: ring@,
                hand: hand as int,
                usage: usage@,
                parents: parents@,
            };
            assert(after_code(data@, now) == Some(Some(next)));
            now = next;
        }
    }
}

} // verus!
