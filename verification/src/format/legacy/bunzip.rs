//! Blocks packed by Burrows and Wheeler's method, as Nullsoft installers hold them:
//! without a header, each behind a byte of its own. A block is read as far as it
//! takes to know how many bytes it has, and where it ends.
use vstd::prelude::*;

use crate::format::legacy::{bits, canon};
use crate::format::legacy::bits::{power_of_two, powers_fit, read_bit, read_number, Way};
use crate::format::legacy::canon::Canon;

verus! {

/// So many bytes a block cannot have.
pub const FULL: u32 = 900_000;

/// How many bits of a run's length there may be.
pub const LONGEST_RUN: u32 = 30;

/// How many of the `n` bits from `at` on are ones.
pub open spec fn ones_at(data: Seq<u8>, at: int, n: nat) -> int
    decreases n,
{
    if n == 0 {
        0
    } else {
        ones_at(data, at, (n - 1) as nat) + bits::bit_at(data, false, at + n - 1)
    }
}

/// How many bytes occur, from row `i` of sixteen on, where the rows that have any are
/// told at `map` and come from `at` on; and where they end.
pub open spec fn bytes_from(data: Seq<u8>, map: int, i: int, at: int, n: int) -> Option<(int, int)>
    decreases 16 - i,
{
    if i >= 16 {
        Some((n, at))
    } else if bits::bit_at(data, false, map + i) == 0 {
        bytes_from(data, map, i + 1, at, n)
    } else if at + 16 > 8 * data.len() {
        None
    } else {
        bytes_from(data, map, i + 1, at + 16, n + ones_at(data, at, 16))
    }
}

/// How many ones come after `n` of them until a zero, which must be fewer than `most`,
/// and where they end.
pub open spec fn ones_from(data: Seq<u8>, at: int, n: int, most: int) -> Option<(int, int)>
    decreases most - n,
{
    if n >= most || at < 0 || at >= 8 * data.len() {
        None
    } else if bits::bit_at(data, false, at) == 0 {
        Some((n, at + 1))
    } else {
        ones_from(data, at + 1, n + 1, most)
    }
}

/// The list with item `j` moved to its front.
pub open spec fn fronted(list: Seq<u8>, j: int) -> Seq<u8> {
    Seq::new(
        list.len(),
        |k: int|
            if k == 0 {
                list[j]
            } else if k <= j {
                list[k - 1]
            } else {
                list[k]
            },
    )
}

/// Which code is for which fifty symbols: `left` more after `done`, and where they
/// end.
pub open spec fn selectors_from(data: Seq<u8>, at: int, left: nat, list: Seq<u8>, done: Seq<u8>) -> Option<(Seq<u8>, int)>
    decreases left,
{
    if left == 0 {
        Some((done, at))
    } else {
        match ones_from(data, at, 0, list.len() as int) {
            None => None,
            Some((j, next)) => {
                let moved = fronted(list, j);
                selectors_from(data, next, (left - 1) as nat, moved, done.push(moved[0]))
            },
        }
    }
}

/// The length that is told from bit `at` on, as steps up and down from `len`, and
/// where it ends.
pub open spec fn length_from(data: Seq<u8>, at: int, len: int) -> Option<(int, int)>
    decreases 8 * data.len() - at,
{
    if len < 1 || len > 20 || at + 2 > 8 * data.len() {
        None
    } else if bits::bit_at(data, false, at) == 0 {
        Some((len, at + 1))
    } else {
        length_from(data, at + 2, if bits::bit_at(data, false, at + 1) == 0 { len + 1 } else { len - 1 })
    }
}

/// The lengths of `left` more codes after those in `done`, and where they end.
pub open spec fn lengths_from(data: Seq<u8>, at: int, len: int, left: nat, done: Seq<u8>) -> Option<(Seq<u8>, int)>
    decreases left,
{
    if left == 0 {
        Some((done, at))
    } else {
        match length_from(data, at, len) {
            None => None,
            Some((next, end)) => lengths_from(data, end, next, (left - 1) as nat, done.push(next as u8)),
        }
    }
}

/// The greatest of some lengths.
pub open spec fn greatest(lengths: Seq<u8>) -> int
    decreases lengths.len(),
{
    if lengths.len() == 0 {
        0
    } else {
        let before = greatest(lengths.drop_last());
        if lengths.last() > before {
            lengths.last() as int
        } else {
            before
        }
    }
}

/// `left` more codes of `n` symbols each after those in `done`, and where they end.
pub open spec fn codes_from(data: Seq<u8>, at: int, left: nat, n: nat, done: Seq<Seq<u8>>) -> Way<(Seq<Seq<u8>>, int)>
    decreases left,
{
    if left == 0 {
        Way::On((done, at))
    } else if at + 5 > 8 * data.len() {
        Way::Over
    } else {
        match lengths_from(data, at + 5, bits::number_at(data, false, at, 5), n, Seq::empty()) {
            None => Way::Over,
            Some((lengths, end)) => if canon::crowded(lengths, greatest(lengths) as nat) {
                Way::Bad
            } else {
                codes_from(data, end, (left - 1) as nat, n, done.push(lengths))
            },
        }
    }
}

/// How many bytes the symbols from bit `at` on are for, after `bytes` bytes and a run
/// of `run` bytes told by `digits` symbols so far, and where they end. The next `turn`
/// symbols use the code of the selector before number `next`. There are `n` symbols
/// for bytes; the one after them ends the block.
pub open spec fn symbols_from(
    data: Seq<u8>,
    codes: Seq<Seq<u8>>,
    selectors: Seq<u8>,
    n: int,
    at: int,
    turn: int,
    next: int,
    digits: nat,
    run: int,
    bytes: int,
) -> Way<(int, int)>
    decreases 8 * data.len() - at,
{
    let select = if turn == 0 { next + 1 } else { next };
    let lengths = codes[selectors[select - 1] as int];
    let longest = greatest(lengths);
    if turn == 0 && next >= selectors.len() || at + longest > 8 * data.len() {
        Way::Over
    } else {
        match canon::symbol_at(data, false, lengths, longest as nat, at) {
            None => Way::Bad,
            Some((symbol, end)) => {
                let rest = if turn == 0 { 49 } else { turn - 1 };
                let sum = bytes + run;
                if end <= at || end > 8 * data.len() {
                    Way::Over
                } else if symbol <= 1 {
                    if digits >= LONGEST_RUN {
                        Way::Bad
                    } else {
                        let more = run + bits::two_to(if symbol == 0 { digits } else { digits + 1 });
                        symbols_from(data, codes, selectors, n, end, rest, select, digits + 1, more, bytes)
                    }
                } else if digits > 0 && sum >= FULL {
                    Way::Over
                } else if symbol > n {
                    Way::On((sum, end))
                } else if sum >= FULL {
                    Way::Over
                } else {
                    symbols_from(data, codes, selectors, n, end, rest, select, 0, 0, sum + 1)
                }
            },
        }
    }
}

/// Where the block ends that begins at `at`; nothing, if there is the mark of the end.
/// If `marked`, a bit more comes before a block.
pub open spec fn block_from(data: Seq<u8>, marked: bool, at: int) -> Way<Option<int>> {
    let all = 8 * data.len();
    let mark = bits::number_at(data, false, at, 8);
    let from = if marked { at + 9 } else { at + 8 };
    let origin = bits::number_at(data, false, from, 24);
    if at + 8 > all {
        Way::Over
    } else if mark == 0x17 {
        Way::On(None)
    } else if mark != 0x31 || from + 40 > all || origin > FULL {
        Way::Over
    } else {
        match bytes_from(data, from + 24, 0, from + 40, 0) {
            None => Way::Over,
            Some((n, mid)) => {
                let groups = bits::number_at(data, false, mid, 3);
                let count = bits::number_at(data, false, mid + 3, 15);
                if mid + 18 > all || groups < 2 || groups > 6 || count == 0 {
                    Way::Over
                } else {
                    match selectors_from(data, mid + 18, count as nat, Seq::new(groups as nat, |i: int| i as u8), Seq::empty()) {
                        None => Way::Over,
                        Some((selectors, then)) => match codes_from(data, then, groups as nat, (n + 2) as nat, Seq::empty()) {
                            Way::Over => Way::Over,
                            Way::Bad => Way::Bad,
                            Way::On((codes, start)) => match symbols_from(data, codes, selectors, n, start, 0, 0, 0, 0, 0) {
                                Way::Over => Way::Over,
                                Way::Bad => Way::Bad,
                                Way::On((bytes, end)) => if bytes > 0 && origin >= bytes {
                                    Way::Over
                                } else {
                                    Way::On(Some(end))
                                },
                            },
                        },
                    }
                }
            },
        }
    }
}

/// The blocks from `at` on can be unpacked.
pub open spec fn blocks_fit(data: Seq<u8>, marked: bool, at: int) -> bool
    decreases 8 * data.len() - at,
{
    match block_from(data, marked, at) {
        Way::Over => true,
        Way::Bad => false,
        Way::On(None) => true,
        Way::On(Some(next)) => at < next <= 8 * data.len() ==> blocks_fit(data, marked, next),
    }
}

fn count_ones(data: &[u8], at: u128) -> (r: u32)
    requires
        at + 16 <= 8 * data.len(),
    ensures
        r == ones_at(data@, at as int, 16),
        r <= 16,
{
    let mut n: u32 = 0;
    let mut i: u32 = 0;
    while i < 16
        invariant
            i <= 16,
            n <= i,
            at + 16 <= 8 * data.len(),
            n == ones_at(data@, at as int, i as nat),
        decreases 16 - i,
    {
        if read_bit(data, false, at + i as u128) {
            n = n + 1;
        }
        i = i + 1;
    }
    n
}

fn count_bytes(data: &[u8], map: u128) -> (r: Option<(usize, u128)>)
    requires
        map + 16 <= 8 * data.len(),
    ensures
        match r {
            Some((n, end)) => bytes_from(data@, map as int, 0, map + 16, 0) == Some((n as int, end as int)) && n <= 256
                && map + 16 <= end <= 8 * data.len(),
            None => bytes_from(data@, map as int, 0, map + 16, 0) is None,
        },
{
    let all: u128 = 8 * data.len() as u128;
    let mut n: usize = 0;
    let mut at: u128 = map + 16;
    let mut i: usize = 0;
    while i < 16
        invariant
            all == 8 * data.len(),
            i <= 16,
            n <= 16 * i,
            map + 16 <= at <= all,
            bytes_from(data@, map as int, 0, map + 16, 0) == bytes_from(data@, map as int, i as int, at as int, n as int),
        decreases 16 - i,
    {
        if read_bit(data, false, map + i as u128) {
            if at + 16 > all {
                return None;
            }
            n = n + count_ones(data, at) as usize;
            at = at + 16;
        }
        i = i + 1;
    }
    Some((n, at))
}

fn read_ones(data: &[u8], at: u128, most: usize) -> (r: Option<(usize, u128)>)
    requires
        most <= 6,
    ensures
        match r {
            Some((n, end)) => ones_from(data@, at as int, 0, most as int) == Some((n as int, end as int)) && n < most && at
                < end <= 8 * data.len(),
            None => ones_from(data@, at as int, 0, most as int) is None,
        },
{
    let all: u128 = 8 * data.len() as u128;
    let mut pos: u128 = at;
    let mut n: usize = 0;
    while n < most && pos < all
        invariant
            all == 8 * data.len(),
            n <= most <= 6,
            at <= pos,
            ones_from(data@, at as int, 0, most as int) == ones_from(data@, pos as int, n as int, most as int),
        decreases most - n,
    {
        if !read_bit(data, false, pos) {
            return Some((n, pos + 1));
        }
        pos = pos + 1;
        n = n + 1;
    }
    None
}

fn to_front(list: &mut Vec<u8>, j: usize)
    requires
        j < old(list).len(),
    ensures
        final(list)@ == fronted(old(list)@, j as int),
{
    let front: u8 = list[j];
    let mut k: usize = j;
    while k > 0
        invariant
            k <= j < list.len(),
            list.len() == old(list).len(),
            forall|i: int|
                0 <= i < list.len() ==> #[trigger] list[i] == if k < i <= j {
                    old(list)@[i - 1]
                } else {
                    old(list)@[i]
                },
        decreases k,
    {
        let moved: u8 = list[k - 1];
        list.set(k, moved);
        k = k - 1;
    }
    list.set(0, front);
    assert(list@ =~= fronted(old(list)@, j as int));
}

fn read_selectors(data: &[u8], from: u128, count: usize, groups: usize) -> (r: Option<(Vec<u8>, u128)>)
    requires
        2 <= groups <= 6,
    ensures
        match r {
            Some((selectors, end)) => selectors_from(
                data@,
                from as int,
                count as nat,
                Seq::new(groups as nat, |i: int| i as u8),
                Seq::empty(),
            ) == Some((selectors@, end as int)) && from <= end && (count > 0 ==> end <= 8 * data.len())
                && (forall|i: int| 0 <= i < selectors.len() ==> #[trigger] selectors[i] < groups) && selectors.len()
                == count,
            None => selectors_from(
                data@,
                from as int,
                count as nat,
                Seq::new(groups as nat, |i: int| i as u8),
                Seq::empty(),
            ) is None,
        },
{
    let mut list: Vec<u8> = Vec::new();
    let mut i: usize = 0;
    while i < groups
        invariant
            i <= groups <= 6,
            list.len() == i,
            forall|k: int| 0 <= k < i ==> #[trigger] list[k] == k as u8,
        decreases groups - i,
    {
        list.push(i as u8);
        i = i + 1;
    }
    assert(list@ =~= Seq::new(groups as nat, |i: int| i as u8));
    let mut done: Vec<u8> = Vec::new();
    assert(done@ =~= Seq::empty());
    let mut at: u128 = from;
    let mut left: usize = count;
    while left > 0
        invariant
            from <= at,
            left <= count,
            left < count ==> at <= 8 * data.len(),
            list.len() == groups,
            2 <= groups <= 6,
            done.len() + left == count,
            forall|k: int| 0 <= k < list.len() ==> #[trigger] list[k] < groups,
            forall|k: int| 0 <= k < done.len() ==> #[trigger] done[k] < groups,
            selectors_from(
                data@,
                from as int,
                count as nat,
                Seq::new(groups as nat, |i: int| i as u8),
                Seq::empty(),
            ) == selectors_from(data@, at as int, left as nat, list@, done@),
        decreases left,
    {
        match read_ones(data, at, groups) {
            None => {
                return None;
            },
            Some((j, next)) => {
                to_front(&mut list, j);
                done.push(list[0]);
                at = next;
                left = left - 1;
            },
        }
    }
    Some((done, at))
}

fn read_length(data: &[u8], from: u128, len: u32) -> (r: Option<(u32, u128)>)
    requires
        len <= 40,
        from <= 8 * data.len(),
    ensures
        match r {
            Some((n, end)) => length_from(data@, from as int, len as int) == Some((n as int, end as int)) && 1 <= n <= 20
                && from < end <= 8 * data.len(),
            None => length_from(data@, from as int, len as int) is None,
        },
{
    let all: u128 = 8 * data.len() as u128;
    let mut at: u128 = from;
    let mut n: u32 = len;
    while 1 <= n && n <= 20 && at + 2 <= all
        invariant
            all == 8 * data.len(),
            from <= at <= all,
            n <= 40,
            length_from(data@, from as int, len as int) == length_from(data@, at as int, n as int),
        decreases all - at,
    {
        if !read_bit(data, false, at) {
            return Some((n, at + 1));
        }
        n = if read_bit(data, false, at + 1) { n - 1 } else { n + 1 };
        at = at + 2;
    }
    None
}

fn read_lengths(data: &[u8], from: u128, len: u32, count: usize) -> (r: Option<(Vec<u8>, u128)>)
    requires
        len <= 40,
        count <= 258,
        from <= 8 * data.len(),
    ensures
        match r {
            Some((lengths, end)) => lengths_from(data@, from as int, len as int, count as nat, Seq::empty()) == Some(
                (lengths@, end as int),
            ) && lengths.len() == count && from <= end <= 8 * data.len() && (forall|i: int|
                0 <= i < lengths.len() ==> 1 <= #[trigger] lengths[i] <= 20),
            None => lengths_from(data@, from as int, len as int, count as nat, Seq::empty()) is None,
        },
{
    let mut done: Vec<u8> = Vec::new();
    assert(done@ =~= Seq::empty());
    let mut at: u128 = from;
    let mut n: u32 = len;
    let mut left: usize = count;
    while left > 0
        invariant
            n <= 40,
            from <= at <= 8 * data.len(),
            done.len() + left == count,
            forall|i: int| 0 <= i < done.len() ==> 1 <= #[trigger] done[i] <= 20,
            lengths_from(data@, from as int, len as int, count as nat, Seq::empty()) == lengths_from(
                data@,
                at as int,
                n as int,
                left as nat,
                done@,
            ),
        decreases left,
    {
        match read_length(data, at, n) {
            None => {
                return None;
            },
            Some((next, end)) => {
                done.push(next as u8);
                n = next;
                at = end;
                left = left - 1;
            },
        }
    }
    Some((done, at))
}

fn greatest_of(lengths: &Vec<u8>) -> (r: u8)
    ensures
        r == greatest(lengths@),
        forall|i: int| 0 <= i < lengths.len() ==> #[trigger] lengths[i] <= r,
        lengths.len() == 0 || exists|i: int| 0 <= i < lengths.len() && #[trigger] lengths[i] == r,
{
    let mut r: u8 = 0;
    let mut i: usize = 0;
    while i < lengths.len()
        invariant
            i <= lengths.len(),
            r == greatest(lengths@.take(i as int)),
            forall|k: int| 0 <= k < i ==> #[trigger] lengths[k] <= r,
            i == 0 ==> r == 0,
            i == 0 || exists|k: int| 0 <= k < i && #[trigger] lengths[k] == r,
        decreases lengths.len() - i,
    {
        assert(lengths@.take(i + 1).drop_last() =~= lengths@.take(i as int));
        if lengths[i] > r {
            r = lengths[i];
        } else if i == 0 {
            assert(lengths[0] == r);
        }
        i = i + 1;
    }
    assert(lengths@.take(i as int) =~= lengths@);
    r
}

/// The lengths in some codes.
spec fn lengths_in(codes: Seq<Canon>) -> Seq<Seq<u8>> {
    Seq::new(codes.len(), |i: int| codes[i].lengths@)
}

/// The codes can be read, and each is as long as its lengths say.
spec fn readable(codes: Seq<Canon>) -> bool {
    forall|i: int|
        0 <= i < codes.len() ==> (#[trigger] codes[i]).well_formed() && codes[i].longest == greatest(codes[i].lengths@)
            && codes[i].lengths.len() <= 258
}

fn read_codes(data: &[u8], from: u128, groups: usize, n: usize) -> (r: Way<(Vec<Canon>, u128)>)
    requires
        2 <= n <= 258,
        from <= 8 * data.len(),
    ensures
        match r {
            Way::On((codes, end)) => codes_from(data@, from as int, groups as nat, n as nat, Seq::empty()) == Way::On(
                (lengths_in(codes@), end as int),
            ) && readable(codes@) && codes.len() == groups && from <= end <= 8 * data.len(),
            Way::Over => codes_from(data@, from as int, groups as nat, n as nat, Seq::empty())
                == Way::<(Seq<Seq<u8>>, int)>::Over,
            Way::Bad => codes_from(data@, from as int, groups as nat, n as nat, Seq::empty())
                == Way::<(Seq<Seq<u8>>, int)>::Bad,
        },
{
    let all: u128 = 8 * data.len() as u128;
    let mut done: Vec<Canon> = Vec::new();
    assert(lengths_in(done@) =~= Seq::empty());
    let mut at: u128 = from;
    let mut left: usize = groups;
    while left > 0
        invariant
            all == 8 * data.len(),
            2 <= n <= 258,
            from <= at <= all,
            done.len() + left == groups,
            readable(done@),
            codes_from(data@, from as int, groups as nat, n as nat, Seq::empty()) == codes_from(
                data@,
                at as int,
                left as nat,
                n as nat,
                lengths_in(done@),
            ),
        decreases left,
    {
        if at + 5 > all {
            return Way::Over;
        }
        let first: u32 = read_number(data, false, at, 5);
        assert(first < 32) by {
            reveal_with_fuel(bits::two_to, 6);
        }
        match read_lengths(data, at + 5, first, n) {
            None => {
                return Way::Over;
            },
            Some((lengths, end)) => {
                let longest: u8 = greatest_of(&lengths);
                let code: Canon = Canon::new(lengths, longest as u32);
                if code.is_crowded() {
                    return Way::Bad;
                }
                let ghost before = done@;
                done.push(code);
                assert(lengths_in(done@) =~= lengths_in(before).push(code.lengths@));
                at = end;
                left = left - 1;
            },
        }
    }
    Way::On((done, at))
}

fn read_symbols(data: &[u8], codes: &Vec<Canon>, selectors: &Vec<u8>, n: usize, from: u128) -> (r: Way<(u64, u128)>)
    requires
        readable(codes@),
        forall|i: int| 0 <= i < selectors.len() ==> #[trigger] selectors[i] < codes.len(),
        from <= 8 * data.len(),
    ensures
        match r {
            Way::On((bytes, end)) => symbols_from(data@, lengths_in(codes@), selectors@, n as int, from as int, 0, 0, 0, 0, 0)
                == Way::On((bytes as int, end as int)) && from < end <= 8 * data.len(),
            Way::Over => symbols_from(data@, lengths_in(codes@), selectors@, n as int, from as int, 0, 0, 0, 0, 0)
                == Way::<(int, int)>::Over,
            Way::Bad => symbols_from(data@, lengths_in(codes@), selectors@, n as int, from as int, 0, 0, 0, 0, 0)
                == Way::<(int, int)>::Bad,
        },
{
    let all: u128 = 8 * data.len() as u128;
    let mut at: u128 = from;
    let mut turn: u32 = 0;
    let mut next: usize = 0;
    let mut digits: u32 = 0;
    let mut run: u64 = 0;
    let mut bytes: u64 = 0;
    loop
        invariant
            all == 8 * data.len(),
            readable(codes@),
            forall|i: int| 0 <= i < selectors.len() ==> #[trigger] selectors[i] < codes.len(),
            from <= at <= all,
            turn <= 49,
            turn > 0 ==> 0 < next,
            next <= selectors.len(),
            digits <= LONGEST_RUN,
            run <= 2 * bits::two_to(digits as nat),
            digits == 0 ==> run == 0,
            bytes <= FULL,
            symbols_from(data@, lengths_in(codes@), selectors@, n as int, from as int, 0, 0, 0, 0, 0) == symbols_from(
                data@,
                lengths_in(codes@),
                selectors@,
                n as int,
                at as int,
                turn as int,
                next as int,
                digits as nat,
                run as int,
                bytes as int,
            ),
        decreases all - at,
    {
        if turn == 0 && next >= selectors.len() {
            return Way::Over;
        }
        if turn == 0 {
            next = next + 1;
            turn = 49;
        } else {
            turn = turn - 1;
        }
        let code: &Canon = &codes[selectors[next - 1] as usize];
        assert(code.well_formed() && code.longest == greatest(code.lengths@));
        assert(lengths_in(codes@)[selectors[next - 1] as int] == code.lengths@);
        if at + code.longest as u128 > all {
            return Way::Over;
        }
        match code.next(data, false, at) {
            None => {
                return Way::Bad;
            },
            Some((symbol, end)) => {
                proof {
                    powers_fit(digits as nat);
                }
                let sum: u64 = bytes + run;
                if symbol <= 1 {
                    if digits >= LONGEST_RUN {
                        return Way::Bad;
                    }
                    let step: u64 = power_of_two(digits);
                    assert(bits::two_to((digits + 1) as nat) == 2 * step);
                    run = run + if symbol == 0 { step } else { 2 * step };
                    digits = digits + 1;
                } else if digits > 0 && sum >= FULL as u64 {
                    return Way::Over;
                } else if symbol > n {
                    return Way::On((sum, end));
                } else if sum >= FULL as u64 {
                    return Way::Over;
                } else {
                    digits = 0;
                    run = 0;
                    bytes = sum + 1;
                }
                at = end;
            },
        }
    }
}

fn read_bz_block(data: &[u8], marked: bool, at: u128) -> (r: Way<Option<u128>>)
    requires
        at <= 8 * data.len(),
    ensures
        match r {
            Way::On(Some(end)) => block_from(data@, marked, at as int) == Way::On(Some(end as int)) && at < end <= 8
                * data.len(),
            Way::On(None) => block_from(data@, marked, at as int) == Way::On(None::<int>),
            Way::Over => block_from(data@, marked, at as int) == Way::<Option<int>>::Over,
            Way::Bad => block_from(data@, marked, at as int) == Way::<Option<int>>::Bad,
        },
{
    let all: u128 = 8 * data.len() as u128;
    if at + 8 > all {
        return Way::Over;
    }
    let mark: u32 = read_number(data, false, at, 8);
    if mark == 0x17 {
        return Way::On(None);
    }
    let from: u128 = if marked { at + 9 } else { at + 8 };
    if mark != 0x31 || from + 40 > all {
        return Way::Over;
    }
    let origin: u32 = read_number(data, false, from, 24);
    if origin > FULL {
        return Way::Over;
    }
    let (n, mid) = match count_bytes(data, from + 24) {
        Some(x) => x,
        None => {
            return Way::Over;
        },
    };
    if mid + 18 > all {
        return Way::Over;
    }
    let groups: usize = read_number(data, false, mid, 3) as usize;
    let count: usize = read_number(data, false, mid + 3, 15) as usize;
    if groups < 2 || groups > 6 || count == 0 {
        return Way::Over;
    }
    let (selectors, then) = match read_selectors(data, mid + 18, count, groups) {
        Some(x) => x,
        None => {
            return Way::Over;
        },
    };
    let (codes, start) = match read_codes(data, then, groups, n + 2) {
        Way::On(x) => x,
        Way::Over => {
            return Way::Over;
        },
        Way::Bad => {
            return Way::Bad;
        },
    };
    match read_symbols(data, &codes, &selectors, n, start) {
        Way::On((bytes, end)) => {
            if bytes > 0 && origin as u64 >= bytes {
                return Way::Over;
            }
            Way::On(Some(end))
        },
        Way::Over => Way::Over,
        Way::Bad => Way::Bad,
    }
}

/// Whether the blocks can be unpacked.
pub(crate) fn check_blocks(data: &[u8], marked: bool) -> (r: bool)
    ensures
        r == blocks_fit(data@, marked, 0),
{
    let all: u128 = 8 * data.len() as u128;
    let mut at: u128 = 0;
    loop
        invariant
            all == 8 * data.len(),
            at <= all,
            blocks_fit(data@, marked, 0) == blocks_fit(data@, marked, at as int),
        decreases all - at,
    {
        match read_bz_block(data, marked, at) {
            Way::On(Some(end)) => {
                at = end;
            },
            Way::On(None) => {
                return true;
            },
            Way::Over => {
                return true;
            },
            Way::Bad => {
                return false;
            },
        }
    }
}

} // verus!
