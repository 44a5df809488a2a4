//! Packed streams of Amiga LZX archives. A stream is cut into blocks, and a block
//! begins with the lengths of its codes, told by how much they differ from those of
//! the block before.
use vstd::prelude::*;
use vstd::slice::slice_subrange;

use crate::bytes;
use crate::bytes::le_u32;
use crate::format::legacy::{bits, canon};
use crate::format::legacy::bits::{power_of_two, powers_grow, read_bit, read_number, Way};
use crate::format::legacy::canon::Canon;

verus! {

/// The bytes of a stream are read in pairs, the second before the first.
pub open spec fn swapped(data: Seq<u8>) -> Seq<u8> {
    Seq::new(
        data.len(),
        |i: int|
            if i % 2 == 1 {
                data[i - 1]
            } else if i + 1 < data.len() {
                data[i + 1]
            } else {
                data[i]
            },
    )
}

/// The numbers of `width` bits that begin at `at`, `n` of them.
pub open spec fn numbers_at(data: Seq<u8>, at: int, width: nat, n: nat) -> Seq<u8> {
    Seq::new(n, |i: int| bits::number_at(data, true, at + width * i, width) as u8)
}

/// The length that a code of length `length` gets from the difference `less`.
pub open spec fn changed(length: u8, less: int) -> u8 {
    ((length + 17 - less) % 17) as u8
}

/// How many codes, from number `i` on, the symbol `symbol` is for whose further bits
/// begin at `at`, their length, and where it ends. In `tight` mode the counts are
/// smaller.
pub open spec fn run_at(data: Seq<u8>, pre: Seq<u8>, lengths: Seq<u8>, i: int, tight: bool, symbol: int, at: int) -> Way<(int, u8, int)> {
    let fix = if tight { 1int } else { 0 };
    let all = 8 * data.len();
    if symbol <= 16 {
        if i >= lengths.len() {
            Way::Over
        } else {
            Way::On((1, changed(lengths[i], symbol), at))
        }
    } else if symbol == 17 {
        if at + 4 > all {
            Way::Over
        } else {
            Way::On((bits::number_at(data, true, at, 4) + 4 - fix, 0, at + 4))
        }
    } else if symbol == 18 {
        let width = if tight { 6nat } else { 5 };
        if at + width > all {
            Way::Over
        } else {
            Way::On((bits::number_at(data, true, at, width) + 20 - fix, 0, at + width))
        }
    } else if at + 1 > all {
        Way::Over
    } else {
        match canon::symbol_at(data, true, pre, 15, at + 1) {
            None => Way::Over,
            Some((less, end)) => if i >= lengths.len() {
                Way::Over
            } else if lengths[i] + 17 < less {
                Way::Bad
            } else {
                Way::On((bits::bit_at(data, true, at) + 4 - fix, changed(lengths[i], less), end))
            },
        }
    }
}

/// The lengths with `n` of them, from number `i` on, set to `length`.
pub open spec fn set_run(lengths: Seq<u8>, i: int, n: int, length: u8) -> Seq<u8> {
    Seq::new(lengths.len(), |k: int| if i <= k < i + n { length } else { lengths[k] })
}

/// The lengths after those from number `i` to `to` are read, and where they end.
pub open spec fn lengths_from(data: Seq<u8>, pre: Seq<u8>, lengths: Seq<u8>, i: int, to: int, tight: bool, at: int) -> Way<(Seq<u8>, int)>
    decreases 8 * data.len() - at,
{
    if i >= to {
        Way::On((lengths, at))
    } else {
        match canon::symbol_at(data, true, pre, 15, at) {
            None => Way::Over,
            Some((symbol, mid)) => match run_at(data, pre, lengths, i, tight, symbol, mid) {
                Way::Over => Way::Over,
                Way::Bad => Way::Bad,
                Way::On((n, length, end)) => if i + n > lengths.len() || end <= at || end > 8 * data.len() {
                    Way::Over
                } else {
                    lengths_from(data, pre, set_run(lengths, i, n, length), i + n, to, tight, end)
                },
            },
        }
    }
}

/// The lengths from number `from` to `to`, read with a code of their own that comes
/// before them.
pub open spec fn lengths_at(data: Seq<u8>, lengths: Seq<u8>, from: int, to: int, tight: bool, at: int) -> Way<(Seq<u8>, int)> {
    let pre = numbers_at(data, at, 4, 20);
    if at + 80 > 8 * data.len() || canon::crowded(pre, 15) {
        Way::Over
    } else {
        lengths_from(data, pre, lengths, from, to, tight, at + 80)
    }
}

/// What the beginning of a block says.
pub struct Block {
    /// The lengths of the codes.
    pub lengths: Seq<u8>,
    /// The lengths of the codes for the end of an offset, if the block has any.
    pub offsets: Option<Seq<u8>>,
    /// How many bytes the block is for.
    pub size: int,
    /// Where the codes begin.
    pub at: int,
}

/// The block that begins at `at`, where the codes before had `lengths`.
pub open spec fn block_at(data: Seq<u8>, lengths: Seq<u8>, at: int) -> Way<Block> {
    let sort = bits::number_at(data, true, at, 3);
    let offsets = numbers_at(data, at + 3, 3, 8);
    let mid = if sort == 3 { at + 27 } else { at + 3 };
    let size = 0x1_0000 * bits::number_at(data, true, mid, 8) + 0x100 * bits::number_at(data, true, mid + 8, 8)
        + bits::number_at(data, true, mid + 16, 8);
    if at + 3 > 8 * data.len() || mid + 24 > 8 * data.len() || sort < 2 || sort > 3 || sort == 3 && canon::crowded(offsets, 7) {
        Way::Over
    } else {
        match lengths_at(data, lengths, 0, 256, false, mid + 24) {
            Way::Over => Way::Over,
            Way::Bad => Way::Bad,
            Way::On((some, then)) => match lengths_at(data, some, 256, 768, true, then) {
                Way::Over => Way::Over,
                Way::Bad => Way::Bad,
                Way::On((all, end)) => if canon::crowded(all, 16) {
                    Way::Over
                } else {
                    Way::On(Block { lengths: all, offsets: if sort == 3 { Some(offsets) } else { None }, size, at: end })
                },
            },
        }
    }
}

/// How many further bits go with a class of offsets or lengths.
pub open spec fn further_bits(class: int) -> int {
    if class < 4 {
        0
    } else {
        (class - 2) / 2
    }
}

/// The smallest offset or length of a class.
pub open spec fn base_of(class: int) -> int {
    if class < 2 {
        class
    } else {
        (2 + class % 2) * bits::two_to(((class - 2) / 2) as nat)
    }
}

/// The codes from bit `at` on can be read, with `out` bytes unpacked of `total`, in a
/// block that ends after `end` bytes; another begins there.
pub open spec fn stream_fits(data: Seq<u8>, total: int, at: int, out: int, b: Block, end: int) -> bool
    decreases 8 * data.len() - at, 1int,
{
    if out >= total {
        true
    } else if out < end {
        token_fits(data, total, at, out, b, end)
    } else {
        match block_at(data, b.lengths, at) {
            Way::Over => true,
            Way::Bad => false,
            Way::On(next) => at < next.at <= 8 * data.len() ==> token_fits(data, total, next.at, out, next, out + next.size),
        }
    }
}

/// The same, where a block has just begun or goes on.
pub open spec fn token_fits(data: Seq<u8>, total: int, at: int, out: int, b: Block, end: int) -> bool
    decreases 8 * data.len() - at, 0int,
{
    match token_at(data, b, at) {
        None => true,
        Some((n, next)) => at < next <= 8 * data.len() ==> stream_fits(data, total, next, out + n, b, end),
    }
}

/// How many bytes the byte or match at bit `at` unpacks to, and where it ends.
pub open spec fn token_at(data: Seq<u8>, b: Block, at: int) -> Option<(int, int)> {
    match canon::symbol_at(data, true, b.lengths, 16, at) {
        None => None,
        Some((symbol, mid)) => if symbol < 256 {
            Some((1, mid))
        } else {
            match offset_end(data, b.offsets, symbol % 32, mid) {
                None => None,
                Some(then) => {
                    let class = (symbol - 256) / 32 % 16;
                    let n = further_bits(class);
                    if then + n > 8 * data.len() {
                        None
                    } else {
                        Some((base_of(class) + 3 + bits::number_at(data, true, then, n as nat), then + n))
                    }
                },
            }
        },
    }
}

/// Where the offset of a class ends, whose further bits begin at `at`.
pub open spec fn offset_end(data: Seq<u8>, offsets: Option<Seq<u8>>, class: int, at: int) -> Option<int> {
    let n = further_bits(class);
    if class == 0 {
        Some(at)
    } else if offsets is Some && n >= 3 {
        if at + n - 3 > 8 * data.len() {
            None
        } else {
            match canon::symbol_at(data, true, offsets->Some_0, 7, at + n - 3) {
                None => None,
                Some((_, end)) => Some(end),
            }
        }
    } else if at + n > 8 * data.len() {
        None
    } else {
        Some(at + n)
    }
}

/// A packed stream for `total` bytes can be unpacked.
pub open spec fn lzx_fits(data: Seq<u8>, total: int) -> bool {
    total > 0 ==> match block_at(swapped(data), Seq::new(768, |i: int| 0u8), 0) {
        Way::Over => true,
        Way::Bad => false,
        Way::On(b) => stream_fits(swapped(data), total, b.at, 0, b, b.size),
    }
}

fn swap_pairs(data: &[u8]) -> (r: Vec<u8>)
    ensures
        r@ == swapped(data@),
{
    let mut out: Vec<u8> = Vec::new();
    let mut i: usize = 0;
    while i < data.len()
        invariant
            i <= data.len(),
            out.len() == i,
            forall|k: int| 0 <= k < i ==> #[trigger] out[k] == swapped(data@)[k],
        decreases data.len() - i,
    {
        if i % 2 == 1 {
            out.push(data[i - 1]);
        } else if data.len() - i > 1 {
            out.push(data[i + 1]);
        } else {
            out.push(data[i]);
        }
        i = i + 1;
    }
    assert(out@ =~= swapped(data@));
    out
}

fn read_numbers(data: &[u8], at: u128, width: u32, n: usize) -> (r: Vec<u8>)
    requires
        1 <= width <= 8,
        n <= 32,
        at + width * n <= 8 * data.len(),
    ensures
        r@ == numbers_at(data@, at as int, width as nat, n as nat),
{
    let mut out: Vec<u8> = Vec::new();
    let mut i: usize = 0;
    while i < n
        invariant
            i <= n <= 32,
            1 <= width <= 8,
            at + width * n <= 8 * data.len(),
            out.len() == i,
            forall|k: int| 0 <= k < i ==> #[trigger] out[k] == numbers_at(data@, at as int, width as nat, n as nat)[k],
        decreases n - i,
    {
        assert(0 <= width * i && width * i + width <= width * n && width * i <= 256) by (nonlinear_arith)
            requires
                i < n <= 32,
                1 <= width <= 8,
        ;
        let v: u32 = read_number(data, true, at + (width * i as u32) as u128, width);
        out.push(v as u8);
        i = i + 1;
    }
    assert(out@ =~= numbers_at(data@, at as int, width as nat, n as nat));
    out
}

fn power_bounds(width: u32) -> (r: u64)
    requires
        width <= 14,
    ensures
        r == bits::two_to(width as nat),
        1 <= r <= 16384,
{
    assert(bits::two_to(14) == 16384) by {
        reveal_with_fuel(bits::two_to, 15);
    }
    proof {
        powers_grow(width as nat, 14);
    }
    power_of_two(width)
}

fn change(length: u8, less: usize) -> (r: u8)
    requires
        less <= 19,
        length + 17 >= less,
    ensures
        r == changed(length, less as int),
{
    ((length as u32 + 17 - less as u32) % 17) as u8
}

fn read_run(data: &[u8], pre: &Canon, lengths: &Vec<u8>, i: usize, tight: bool, symbol: usize, at: u128) -> (r: Way<(usize, u8, u128)>)
    requires
        pre.well_formed(),
        pre.longest == 15,
        pre.lengths.len() == 20,
        symbol < 20,
        at <= 8 * data.len(),
    ensures
        match r {
            Way::On((n, length, end)) => run_at(data@, pre.lengths@, lengths@, i as int, tight, symbol as int, at as int)
                == Way::On((n as int, length, end as int)) && at <= end <= 8 * data.len() && n <= 100,
            Way::Over => run_at(data@, pre.lengths@, lengths@, i as int, tight, symbol as int, at as int)
                == Way::<(int, u8, int)>::Over,
            Way::Bad => run_at(data@, pre.lengths@, lengths@, i as int, tight, symbol as int, at as int)
                == Way::<(int, u8, int)>::Bad,
        },
{
    let all: u128 = 8 * data.len() as u128;
    let fix: u32 = if tight { 1 } else { 0 };
    proof {
        reveal_with_fuel(bits::two_to, 7);
    }
    if symbol <= 16 {
        if i >= lengths.len() {
            return Way::Over;
        }
        Way::On((1, change(lengths[i], symbol), at))
    } else if symbol == 17 {
        if at + 4 > all {
            return Way::Over;
        }
        let n: u32 = read_number(data, true, at, 4);
        Way::On(((n + 4 - fix) as usize, 0, at + 4))
    } else if symbol == 18 {
        let width: u32 = if tight { 6 } else { 5 };
        if at + width as u128 > all {
            return Way::Over;
        }
        let n: u32 = read_number(data, true, at, width);
        Way::On(((n + 20 - fix) as usize, 0, at + width as u128))
    } else {
        if at + 1 > all {
            return Way::Over;
        }
        let n: u32 = if read_bit(data, true, at) { 1 } else { 0 };
        match pre.next(data, true, at + 1) {
            None => Way::Over,
            Some((less, end)) => {
                if i >= lengths.len() {
                    return Way::Over;
                }
                if (lengths[i] as usize) + 17 < less {
                    return Way::Bad;
                }
                Way::On(((n + 4 - fix) as usize, change(lengths[i], less), end))
            },
        }
    }
}

fn fill_run(lengths: &mut Vec<u8>, i: usize, n: usize, length: u8)
    requires
        i + n <= old(lengths).len(),
    ensures
        final(lengths)@ == set_run(old(lengths)@, i as int, n as int, length),
{
    let mut k: usize = 0;
    while k < n
        invariant
            k <= n,
            i + n <= lengths.len(),
            lengths.len() == old(lengths).len(),
            forall|j: int|
                0 <= j < lengths.len() ==> #[trigger] lengths[j] == if i <= j < i + k {
                    length
                } else {
                    old(lengths)@[j]
                },
        decreases n - k,
    {
        lengths.set(i + k, length);
        k = k + 1;
    }
    assert(lengths@ =~= set_run(old(lengths)@, i as int, n as int, length));
}

fn read_lengths(data: &[u8], before: &Vec<u8>, from: usize, to: usize, tight: bool, at: u128) -> (r: Way<(Vec<u8>, u128)>)
    requires
        from <= to <= before.len(),
        before.len() == 768,
        at <= 8 * data.len(),
    ensures
        match r {
            Way::On((lengths, end)) => lengths_at(data@, before@, from as int, to as int, tight, at as int) == Way::On(
                (lengths@, end as int),
            ) && at < end <= 8 * data.len() && lengths.len() == 768,
            Way::Over => lengths_at(data@, before@, from as int, to as int, tight, at as int)
                == Way::<(Seq<u8>, int)>::Over,
            Way::Bad => lengths_at(data@, before@, from as int, to as int, tight, at as int)
                == Way::<(Seq<u8>, int)>::Bad,
        },
{
    let all: u128 = 8 * data.len() as u128;
    if at + 80 > all {
        return Way::Over;
    }
    let pre: Canon = Canon::new(read_numbers(data, at, 4, 20), 15);
    if pre.is_crowded() {
        return Way::Over;
    }
    let mut lengths: Vec<u8> = Vec::new();
    let mut k: usize = 0;
    while k < before.len()
        invariant
            k <= before.len(),
            lengths.len() == k,
            forall|j: int| 0 <= j < k ==> #[trigger] lengths[j] == before[j],
        decreases before.len() - k,
    {
        lengths.push(before[k]);
        k = k + 1;
    }
    assert(lengths@ =~= before@);
    let mut pos: u128 = at + 80;
    let mut i: usize = from;
    while i < to
        invariant
            all == 8 * data.len(),
            at + 80 <= pos <= all,
            to <= 768,
            lengths.len() == 768,
            pre.well_formed(),
            pre.longest == 15,
            pre.lengths.len() == 20,
            lengths_at(data@, before@, from as int, to as int, tight, at as int) == lengths_from(
                data@,
                pre.lengths@,
                lengths@,
                i as int,
                to as int,
                tight,
                pos as int,
            ),
        decreases all - pos,
    {
        let (symbol, mid) = match pre.next(data, true, pos) {
            Some(s) => s,
            None => {
                return Way::Over;
            },
        };
        match read_run(data, &pre, &lengths, i, tight, symbol, mid) {
            Way::Over => {
                return Way::Over;
            },
            Way::Bad => {
                return Way::Bad;
            },
            Way::On((n, length, end)) => {
                if i + n > lengths.len() {
                    return Way::Over;
                }
                fill_run(&mut lengths, i, n, length);
                i = i + n;
                pos = end;
            },
        }
    }
    Way::On((lengths, pos))
}

/// What the beginning of a block says, and its codes.
struct BlockCodes {
    main: Canon,
    offsets: Option<Canon>,
    size: u64,
    at: u128,
}

impl BlockCodes {
    spec fn view(&self) -> Block {
        Block {
            lengths: self.main.lengths@,
            offsets: match self.offsets {
                Some(c) => Some(c.lengths@),
                None => None,
            },
            size: self.size as int,
            at: self.at as int,
        }
    }

    spec fn well_formed(&self) -> bool {
        &&& self.main.well_formed()
        &&& self.main.longest == 16
        &&& self.main.lengths.len() == 768
        &&& self.size <= 0xFF_FFFF
        &&& self.offsets matches Some(c) ==> c.well_formed() && c.longest == 7
    }
}

fn read_block(data: &[u8], before: &Vec<u8>, at: u128) -> (r: Way<BlockCodes>)
    requires
        before.len() == 768,
        at <= 8 * data.len(),
    ensures
        match r {
            Way::On(b) => b.well_formed() && block_at(data@, before@, at as int) == Way::On(b.view()) && at < b.at <= 8
                * data.len(),
            Way::Over => block_at(data@, before@, at as int) == Way::<Block>::Over,
            Way::Bad => block_at(data@, before@, at as int) == Way::<Block>::Bad,
        },
{
    let all: u128 = 8 * data.len() as u128;
    if at + 3 > all {
        return Way::Over;
    }
    let sort: u32 = read_number(data, true, at, 3);
    let mid: u128 = if sort == 3 { at + 27 } else { at + 3 };
    if mid + 24 > all || sort < 2 || sort > 3 {
        return Way::Over;
    }
    let mut offsets: Option<Canon> = None;
    if sort == 3 {
        let c: Canon = Canon::new(read_numbers(data, at + 3, 3, 8), 7);
        if c.is_crowded() {
            return Way::Over;
        }
        offsets = Some(c);
    }
    let high: u32 = read_number(data, true, mid, 8);
    let middle: u32 = read_number(data, true, mid + 8, 8);
    let low: u32 = read_number(data, true, mid + 16, 8);
    proof {
        reveal_with_fuel(bits::two_to, 9);
    }
    let size: u64 = 0x1_0000 * high as u64 + 0x100 * middle as u64 + low as u64;
    match read_lengths(data, before, 0, 256, false, mid + 24) {
        Way::Over => Way::Over,
        Way::Bad => Way::Bad,
        Way::On((some, then)) => match read_lengths(data, &some, 256, 768, true, then) {
            Way::Over => Way::Over,
            Way::Bad => Way::Bad,
            Way::On((lengths, end)) => {
                let main: Canon = Canon::new(lengths, 16);
                if main.is_crowded() {
                    return Way::Over;
                }
                Way::On(BlockCodes { main, offsets, size, at: end })
            },
        },
    }
}

fn count_bits(class: usize) -> (r: u32)
    requires
        class < 32,
    ensures
        r == further_bits(class as int),
        r <= 14,
{
    if class < 4 {
        0
    } else {
        (class as u32 - 2) / 2
    }
}

fn smallest(class: usize) -> (r: u64)
    requires
        class < 32,
    ensures
        r == base_of(class as int),
        r <= 65536,
{
    if class < 2 {
        class as u64
    } else {
        let p: u64 = power_bounds((class as u32 - 2) / 2);
        if class % 2 == 0 {
            2 * p
        } else {
            3 * p
        }
    }
}

fn skip_offset(data: &[u8], offsets: &Option<Canon>, class: usize, at: u128) -> (r: Option<u128>)
    requires
        class < 32,
        at <= 8 * data.len(),
        offsets matches Some(c) ==> c.well_formed() && c.longest == 7,
    ensures
        match r {
            Some(end) => offset_end(
                data@,
                match *offsets {
                    Some(c) => Some(c.lengths@),
                    None => None,
                },
                class as int,
                at as int,
            ) == Some(end as int) && at <= end <= 8 * data.len(),
            None => offset_end(
                data@,
                match *offsets {
                    Some(c) => Some(c.lengths@),
                    None => None,
                },
                class as int,
                at as int,
            ) is None,
        },
{
    let all: u128 = 8 * data.len() as u128;
    let n: u128 = count_bits(class) as u128;
    if class == 0 {
        return Some(at);
    }
    match offsets {
        Some(c) if n >= 3 => {
            if at + n - 3 > all {
                return None;
            }
            match c.next(data, true, at + n - 3) {
                Some((_, end)) => Some(end),
                None => None,
            }
        },
        _ => {
            if at + n > all {
                None
            } else {
                Some(at + n)
            }
        },
    }
}

fn read_token(data: &[u8], b: &BlockCodes, at: u128) -> (r: Option<(u64, u128)>)
    requires
        b.well_formed(),
        at <= 8 * data.len(),
    ensures
        match r {
            Some((n, end)) => token_at(data@, b.view(), at as int) == Some((n as int, end as int)) && n <= 0x2_0000 && at
                < end <= 8 * data.len(),
            None => token_at(data@, b.view(), at as int) is None,
        },
{
    let all: u128 = 8 * data.len() as u128;
    let (symbol, mid) = match b.main.next(data, true, at) {
        Some(s) => s,
        None => {
            return None;
        },
    };
    if symbol < 256 {
        return Some((1, mid));
    }
    let then: u128 = match skip_offset(data, &b.offsets, symbol % 32, mid) {
        Some(then) => then,
        None => {
            return None;
        },
    };
    let class: usize = (symbol - 256) / 32 % 16;
    let n: u32 = count_bits(class);
    if then + n as u128 > all {
        return None;
    }
    let more: u32 = read_number(data, true, then, n);
    assert(more < 16384) by {
        powers_grow(n as nat, 14);
        reveal_with_fuel(bits::two_to, 15);
    }
    Some((smallest(class) + 3 + more as u64, then + n as u128))
}

/// Whether a packed stream for `total` bytes can be unpacked.
pub(crate) fn check_lzx(packed: &[u8], total: u128) -> (r: bool)
    requires
        total <= 0xFFFF_FFFF_FFFF_FFFF_FFFF_FFFF_FFFF,
    ensures
        r == lzx_fits(packed@, total as int),
{
    if total == 0 {
        return true;
    }
    let pairs: Vec<u8> = swap_pairs(packed);
    let data: &[u8] = pairs.as_slice();
    let all: u128 = 8 * data.len() as u128;
    let zeros: Vec<u8> = no_lengths();
    let mut b: BlockCodes = match read_block(data, &zeros, 0) {
        Way::Over => {
            return true;
        },
        Way::Bad => {
            return false;
        },
        Way::On(b) => b,
    };
    let mut at: u128 = b.at;
    let mut out: u128 = 0;
    let mut end: u128 = b.size as u128;
    while out < total
        invariant
            all == 8 * data.len(),
            at <= all,
            total <= 0xFFFF_FFFF_FFFF_FFFF_FFFF_FFFF_FFFF,
            out <= total + 0x2_0000,
            b.well_formed(),
            lzx_fits(packed@, total as int) == stream_fits(data@, total as int, at as int, out as int, b.view(), end as int),
        decreases all - at,
    {
        if out >= end {
            match read_block(data, &b.main.lengths, at) {
                Way::Over => {
                    return true;
                },
                Way::Bad => {
                    return false;
                },
                Way::On(next) => {
                    at = next.at;
                    end = out + next.size as u128;
                    b = next;
                },
            }
        }
        assert(lzx_fits(packed@, total as int) == token_fits(
            data@,
            total as int,
            at as int,
            out as int,
            b.view(),
            end as int,
        ));
        match read_token(data, &b, at) {
            None => {
                return true;
            },
            Some((n, next)) => {
                out = out + n as u128;
                at = next;
            },
        }
    }
    true
}

fn no_lengths() -> (r: Vec<u8>)
    ensures
        r@ == Seq::new(768, |i: int| 0u8),
{
    let mut out: Vec<u8> = Vec::new();
    while out.len() < 768
        invariant
            out.len() <= 768,
            forall|i: int| 0 <= i < out.len() ==> out[i] == 0,
        decreases 768 - out.len(),
    {
        out.push(0);
    }
    assert(out@ =~= Seq::new(768, |i: int| 0u8));
    out
}

/// The length of a record without its name and comment.
pub const RECORD: usize = 31;

/// The entry that has `skip` others before it can be unpacked, from the record at
/// `pos` on, where `held` entries with `total` bytes wait for the stream that they
/// share; it stands behind the first record that has any packed bytes.
pub open spec fn record_fits(data: Seq<u8>, pos: int, held: int, total: int, skip: int) -> bool
    decreases data.len() - pos,
{
    if pos < 0 || pos + RECORD > data.len() {
        true
    } else {
        let from = pos + RECORD + data[pos + 30] + data[pos + 14];
        let packed = bytes::le32(data, pos + 6);
        let size = total + bytes::le32(data, pos + 2);
        if from > data.len() {
            true
        } else if packed == 0 {
            record_fits(data, from, held + 1, size, skip)
        } else if from + packed > data.len() {
            true
        } else if skip <= held {
            data[pos + 11] != 2 || lzx_fits(data.subrange(from, from + packed), size)
        } else {
            record_fits(data, from + packed, 0, 0, skip - held - 1)
        }
    }
}

/// Entry `idx` of an archive can be unpacked.
pub open spec fn entry_fits(data: Seq<u8>, idx: int) -> bool {
    record_fits(data, 10, 0, 0, idx)
}

/// Whether entry `idx` of an archive can be unpacked.
pub fn check_entry(data: &[u8], idx: usize) -> (r: bool)
    ensures
        r == entry_fits(data@, idx as int),
{
    let all: u128 = data.len() as u128;
    let mut pos: u128 = 10;
    let mut held: u128 = 0;
    let mut total: u128 = 0;
    let mut skip: u128 = idx as u128;
    while pos + RECORD as u128 <= all
        invariant
            all == data.len(),
            pos <= all + 10,
            held <= pos,
            total <= 0x1_0000_0000 * pos,
            entry_fits(data@, idx as int) == record_fits(data@, pos as int, held as int, total as int, skip as int),
        decreases all - pos,
    {
        let at: usize = pos as usize;
        let from: u128 = pos + RECORD as u128 + data[at + 30] as u128 + data[at + 14] as u128;
        let packed: u32 = le_u32(data, at + 6);
        let size: u128 = total + le_u32(data, at + 2) as u128;
        if from > all {
            return true;
        }
        if packed == 0 {
            held = held + 1;
            total = size;
            pos = from;
        } else {
            if from + packed as u128 > all {
                return true;
            }
            if skip <= held {
                return data[at + 11] != 2 || check_lzx(
                    slice_subrange(data, from as usize, (from + packed as u128) as usize),
                    size,
                );
            }
            skip = skip - held - 1;
            held = 0;
            total = 0;
            pos = from + packed as u128;
        }
    }
    true
}

} // verus!
