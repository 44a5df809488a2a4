//! The elements of StuffItX archives, as far as it takes to tell whether what they
//! say can be relied on: numbers that are not too large, and methods whose unpackers
//! take any bytes.
use vstd::prelude::*;

use crate::format::legacy::bits;
use crate::format::legacy::bits::{read_bit, Way};

verus! {

/// No number has more bits than this.
pub const WIDEST: u32 = 40;

/// How many bytes all forks together, or a catalog, may have.
pub const MOST_BYTES: u64 = 0x100_0000_0000;

/// The number of ones from bit `at` on up to the next zero, on top of `n`, and where
/// that is.
pub open spec fn ones_from(data: Seq<u8>, at: int, n: int) -> Option<(int, int)>
    decreases 8 * data.len() - at,
{
    if at < 0 || at >= 8 * data.len() {
        None
    } else if bits::bit_at(data, true, at) == 0 {
        Some((n, at + 1))
    } else {
        ones_from(data, at + 1, n + 1)
    }
}

/// The number whose bits go on at `at` with number `k`, with `left` ones to come and
/// `v` so far; and where it ends.
pub open spec fn value_from(data: Seq<u8>, at: int, left: int, k: nat, v: int) -> Way<(int, int)>
    decreases 8 * data.len() - at,
{
    if left <= 0 {
        Way::On((v, at))
    } else if at < 0 || at >= 8 * data.len() {
        Way::Over
    } else if bits::bit_at(data, true, at) == 0 {
        value_from(data, at + 1, left, k + 1, v)
    } else if k >= WIDEST {
        Way::Bad
    } else {
        value_from(data, at + 1, left - 1, k + 1, v + bits::two_to(k))
    }
}

/// The number at bit `at`, and where it ends: as many ones as it has, but for one, then
/// a zero, and then its bits from the lowest to the highest one. It is stored one too
/// large.
pub open spec fn number_at(data: Seq<u8>, at: int) -> Way<(int, int)> {
    match ones_from(data, at, 1) {
        None => Way::Over,
        Some((n, mid)) => match value_from(data, mid, n, 0, 0) {
            Way::On((v, end)) => Way::On((v - 1, end)),
            Way::Over => Way::Over,
            Way::Bad => Way::Bad,
        },
    }
}

/// The values of two fields, `first` and `second`, in the list of fields at `at`, or
/// those given; and where the list ends. If `keyed`, another number comes behind the
/// value of field 4.
pub open spec fn fields_from(data: Seq<u8>, at: int, keyed: bool, first: int, second: int, a: int, b: int) -> Way<(int, int, int)>
    decreases 8 * data.len() - at,
{
    match number_at(data, at) {
        Way::Over => Way::Over,
        Way::Bad => Way::Bad,
        Way::On((field, mid)) => if field == 0 {
            Way::On((a, b, mid))
        } else {
            match number_at(data, mid) {
                Way::Over => Way::Over,
                Way::Bad => Way::Bad,
                Way::On((v, end)) => {
                    let x = if field == first { v } else { a };
                    let y = if field == second { v } else { b };
                    if keyed && field == 4 {
                        match number_at(data, end) {
                            Way::Over => Way::Over,
                            Way::Bad => Way::Bad,
                            Way::On((_, past)) => if past <= at || past > 8 * data.len() {
                                Way::Over
                            } else {
                                fields_from(data, past, keyed, first, second, x, y)
                            },
                        }
                    } else if end <= at || end > 8 * data.len() {
                        Way::Over
                    } else {
                        fields_from(data, end, keyed, first, second, x, y)
                    }
                },
            }
        },
    }
}

/// The first whole byte from bit `at` on.
pub open spec fn byte_after(at: int) -> int {
    (at + 7) / 8
}

/// Where the blocks end that begin at bit `at`: each is its length and so many bytes,
/// and the last has none.
pub open spec fn blocks_end(data: Seq<u8>, at: int) -> Way<int>
    decreases 8 * data.len() - at,
{
    match number_at(data, at) {
        Way::Over => Way::Over,
        Way::Bad => Way::Bad,
        Way::On((n, mid)) => {
            let end = byte_after(mid) + n;
            if n == 0 {
                Way::On(mid)
            } else if end > data.len() || 8 * end <= at {
                Way::Over
            } else {
                blocks_end(data, 8 * end)
            }
        },
    }
}

/// Where the contents of an element end that begin at byte `from`: blocks, and behind
/// them blocks again, the first of which may hold a sum.
pub open spec fn contents_end(data: Seq<u8>, from: int) -> Way<int> {
    match blocks_end(data, 8 * from) {
        Way::Over => Way::Over,
        Way::Bad => Way::Bad,
        Way::On(mid) => blocks_end(data, 8 * byte_after(mid)),
    }
}

/// The unpacker of a method takes any bytes, and so does what is done to them then. What
/// has no method is stored; what has another one than these is not unpacked at all.
pub open spec fn is_tame(method: int, then: int) -> bool {
    then != 2 && method != 0 && method != 1 && method != 4 && method != 6
}

/// What all elements from bit `at` on say can be relied on, with `total` bytes in forks
/// before them; if `deep`, also the methods of the forks.
pub open spec fn elements_fit(data: Seq<u8>, deep: bool, at: int, total: int) -> bool
    decreases 8 * data.len() - at,
{
    match element_at(data, deep, at, total) {
        Way::Over => true,
        Way::Bad => false,
        Way::On((sum, end)) => at < end <= 8 * data.len() ==> elements_fit(data, deep, end, sum),
    }
}

/// The bytes in forks after the element at bit `at`, and where it ends; `Bad` where what
/// it says cannot be relied on.
pub open spec fn element_at(data: Seq<u8>, deep: bool, at: int, total: int) -> Way<(int, int)> {
    match number_at(data, at + 1) {
        Way::Over => Way::Over,
        Way::Bad => Way::Bad,
        Way::On((sort, first)) => match fields_from(data, first, false, 4, 5, -1, -1) {
            Way::Over => Way::Over,
            Way::Bad => Way::Bad,
            Way::On((index, size, second)) => match fields_from(data, second, true, 1, 3, -1, -1) {
                Way::Over => Way::Over,
                Way::Bad => Way::Bad,
                Way::On((method, then, end)) => element_end(data, deep, sort, index, size, method, then, end, total),
            },
        },
    }
}

/// The same, of an element whose fields end at `at`.
pub open spec fn element_end(
    data: Seq<u8>,
    deep: bool,
    sort: int,
    index: int,
    size: int,
    method: int,
    then: int,
    at: int,
    total: int,
) -> Way<(int, int)> {
    if sort == 0 || sort == 10 {
        Way::Over
    } else if sort == 3 {
        match number_at(data, at) {
            Way::Over => Way::Over,
            Way::Bad => Way::Bad,
            Way::On((_, end)) => if index > data.len() || total + size > MOST_BYTES {
                Way::Bad
            } else {
                Way::On((if size < 0 { total } else { total + size }, 8 * byte_after(end)))
            },
        }
    } else if sort == 1 || sort == 5 || sort > 10 {
        if (sort == 5 || sort == 1 && deep) && !is_tame(method, then) || sort == 5 && size > MOST_BYTES {
            Way::Bad
        } else {
            match contents_end(data, byte_after(at)) {
                Way::Over => Way::Over,
                Way::Bad => Way::Bad,
                Way::On(end) => Way::On((total, 8 * byte_after(end))),
            }
        }
    } else if sort == 6 {
        let end = byte_after(at) + if size < 0 { 0 } else { size };
        if end > data.len() {
            Way::Over
        } else {
            Way::On((total, 8 * end))
        }
    } else if sort == 7 {
        match number_at(data, at) {
            Way::Over => Way::Over,
            Way::Bad => Way::Bad,
            Way::On((_, end)) => Way::On((total, 8 * byte_after(end))),
        }
    } else {
        Way::On((total, 8 * byte_after(at)))
    }
}

/// What an archive says of itself can be relied on; if `deep`, also the methods of its
/// forks.
pub open spec fn sitx_fits(data: Seq<u8>, deep: bool) -> bool {
    data.len() >= 8 ==> elements_fit(data, deep, 64, 0)
}

fn count_ones(data: &[u8], from: u128) -> (r: Option<(u128, u128)>)
    ensures
        match r {
            Some((n, end)) => ones_from(data@, from as int, 1) == Some((n as int, end as int)) && from < end <= 8
                * data.len() && 1 <= n <= end - from,
            None => ones_from(data@, from as int, 1) is None,
        },
{
    let all: u128 = 8 * data.len() as u128;
    let mut at: u128 = from;
    let mut n: u128 = 1;
    while at < all
        invariant
            all == 8 * data.len(),
            from <= at,
            n == 1 + at - from,
            ones_from(data@, from as int, 1) == ones_from(data@, at as int, n as int),
        decreases all - at,
    {
        if !read_bit(data, true, at) {
            return Some((n, at + 1));
        }
        at = at + 1;
        n = n + 1;
    }
    None
}

/// The powers of two up to that of 40.
proof fn steps_fit(k: nat)
    requires
        k <= WIDEST,
    ensures
        1 <= bits::two_to(k) <= MOST_BYTES,
{
    bits::powers_grow(k, 40);
    assert(bits::two_to(40) == MOST_BYTES) by {
        reveal_with_fuel(bits::two_to, 41);
    }
}

fn read_sitx_number(data: &[u8], at: u128) -> (r: Way<(u64, u128)>)
    ensures
        match r {
            Way::On((v, end)) => number_at(data@, at as int) == Way::On((v as int, end as int)) && at < end <= 8 * data.len()
                && v <= 2 * MOST_BYTES,
            Way::Over => number_at(data@, at as int) == Way::<(int, int)>::Over,
            Way::Bad => number_at(data@, at as int) == Way::<(int, int)>::Bad,
        },
{
    let all: u128 = 8 * data.len() as u128;
    let (n, mid) = match count_ones(data, at) {
        Some(x) => x,
        None => {
            return Way::Over;
        },
    };
    let mut pos: u128 = mid;
    let mut left: u128 = n;
    let mut k: u32 = 0;
    let mut step: u64 = 1;
    let mut v: u64 = 0;
    let ghost mut place: nat = 0;
    while left > 0
        invariant
            all == 8 * data.len(),
            mid <= pos <= all,
            ones_from(data@, at as int, 1) == Some((n as int, mid as int)),
            k <= WIDEST,
            step == bits::two_to(k as nat),
            place == k || k == WIDEST && place > k,
            v < 2 * bits::two_to(k as nat),
            k < WIDEST ==> v < bits::two_to(k as nat),
            left < n ==> v >= 1,
            left <= n,
            1 <= n,
            value_from(data@, mid as int, n as int, 0, 0) == value_from(data@, pos as int, left as int, place, v as int),
        decreases all - pos,
    {
        if pos >= all {
            return Way::Over;
        }
        proof {
            steps_fit(k as nat);
        }
        if read_bit(data, true, pos) {
            if k >= WIDEST {
                return Way::Bad;
            }
            v = v + step;
            left = left - 1;
        }
        if k < WIDEST {
            step = 2 * step;
            k = k + 1;
        }
        proof {
            place = place + 1;
            steps_fit(k as nat);
        }
        pos = pos + 1;
    }
    proof {
        steps_fit(k as nat);
    }
    Way::On((v - 1, pos))
}

fn read_fields(data: &[u8], from: u128, keyed: bool, first: u64, second: u64) -> (r: Way<(Option<u64>, Option<u64>, u128)>)
    requires
        from <= 8 * data.len(),
    ensures
        match r {
            Way::On((a, b, end)) => fields_from(data@, from as int, keyed, first as int, second as int, -1, -1) == Way::On(
                (or_none(a), or_none(b), end as int),
            ) && from < end <= 8 * data.len() && or_none(a) <= 2 * MOST_BYTES && or_none(b) <= 2 * MOST_BYTES,
            Way::Over => fields_from(data@, from as int, keyed, first as int, second as int, -1, -1) == Way::<
                (int, int, int),
            >::Over,
            Way::Bad => fields_from(data@, from as int, keyed, first as int, second as int, -1, -1) == Way::<
                (int, int, int),
            >::Bad,
        },
{
    let mut at: u128 = from;
    let mut a: Option<u64> = None;
    let mut b: Option<u64> = None;
    loop
        invariant
            from <= at <= 8 * data.len(),
            or_none(a) <= 2 * MOST_BYTES,
            or_none(b) <= 2 * MOST_BYTES,
            fields_from(data@, from as int, keyed, first as int, second as int, -1, -1) == fields_from(
                data@,
                at as int,
                keyed,
                first as int,
                second as int,
                or_none(a),
                or_none(b),
            ),
        decreases 8 * data.len() - at,
    {
        let (field, mid) = match read_sitx_number(data, at) {
            Way::On(x) => x,
            Way::Over => {
                return Way::Over;
            },
            Way::Bad => {
                return Way::Bad;
            },
        };
        if field == 0 {
            return Way::On((a, b, mid));
        }
        let (v, end) = match read_sitx_number(data, mid) {
            Way::On(x) => x,
            Way::Over => {
                return Way::Over;
            },
            Way::Bad => {
                return Way::Bad;
            },
        };
        if field == first {
            a = Some(v);
        }
        if field == second {
            b = Some(v);
        }
        at = end;
        if keyed && field == 4 {
            match read_sitx_number(data, end) {
                Way::On((_, past)) => {
                    at = past;
                },
                Way::Over => {
                    return Way::Over;
                },
                Way::Bad => {
                    return Way::Bad;
                },
            }
        }
    }
}

/// The value of a field, or -1 if it is not there.
pub open spec fn or_none(v: Option<u64>) -> int {
    match v {
        Some(v) => v as int,
        None => -1,
    }
}

fn skip_blocks(data: &[u8], from: u128) -> (r: Way<u128>)
    requires
        from <= 8 * data.len(),
    ensures
        match r {
            Way::On(end) => blocks_end(data@, from as int) == Way::On(end as int) && from < end <= 8 * data.len(),
            Way::Over => blocks_end(data@, from as int) == Way::<int>::Over,
            Way::Bad => blocks_end(data@, from as int) == Way::<int>::Bad,
        },
{
    let mut at: u128 = from;
    loop
        invariant
            from <= at <= 8 * data.len(),
            blocks_end(data@, from as int) == blocks_end(data@, at as int),
        decreases 8 * data.len() - at,
    {
        match read_sitx_number(data, at) {
            Way::On((n, mid)) => {
                if n == 0 {
                    return Way::On(mid);
                }
                let end: u128 = (mid + 7) / 8 + n as u128;
                if end > data.len() as u128 {
                    return Way::Over;
                }
                at = 8 * end;
            },
            Way::Over => {
                return Way::Over;
            },
            Way::Bad => {
                return Way::Bad;
            },
        }
    }
}

fn skip_contents(data: &[u8], from: u128) -> (r: Way<u128>)
    requires
        from <= data.len(),
    ensures
        match r {
            Way::On(end) => contents_end(data@, from as int) == Way::On(end as int) && 8 * from < end <= 8 * data.len(),
            Way::Over => contents_end(data@, from as int) == Way::<int>::Over,
            Way::Bad => contents_end(data@, from as int) == Way::<int>::Bad,
        },
{
    match skip_blocks(data, 8 * from) {
        Way::Over => Way::Over,
        Way::Bad => Way::Bad,
        Way::On(mid) => skip_blocks(data, 8 * ((mid + 7) / 8)),
    }
}

fn check_element(data: &[u8], deep: bool, at: u128, total: u64) -> (r: Way<(u64, u128)>)
    requires
        at < 8 * data.len(),
        total <= MOST_BYTES,
    ensures
        match r {
            Way::On((sum, end)) => element_at(data@, deep, at as int, total as int) == Way::On((sum as int, end as int))
                && at < end <= 8 * data.len() && sum <= MOST_BYTES,
            Way::Over => element_at(data@, deep, at as int, total as int) == Way::<(int, int)>::Over,
            Way::Bad => element_at(data@, deep, at as int, total as int) == Way::<(int, int)>::Bad,
        },
{
    let (sort, first) = match read_sitx_number(data, at + 1) {
        Way::On(x) => x,
        Way::Over => {
            return Way::Over;
        },
        Way::Bad => {
            return Way::Bad;
        },
    };
    let (index, size, second) = match read_fields(data, first, false, 4, 5) {
        Way::On(x) => x,
        Way::Over => {
            return Way::Over;
        },
        Way::Bad => {
            return Way::Bad;
        },
    };
    let (method, then, end) = match read_fields(data, second, true, 1, 3) {
        Way::On(x) => x,
        Way::Over => {
            return Way::Over;
        },
        Way::Bad => {
            return Way::Bad;
        },
    };
    finish_element(data, deep, sort, index, size, method, then, end, total)
}

fn finish_element(
    data: &[u8],
    deep: bool,
    sort: u64,
    index: Option<u64>,
    size: Option<u64>,
    method: Option<u64>,
    then: Option<u64>,
    at: u128,
    total: u64,
) -> (r: Way<(u64, u128)>)
    requires
        at <= 8 * data.len(),
        total <= MOST_BYTES,
        or_none(size) <= 2 * MOST_BYTES,
    ensures
        ({
            let spec = element_end(
                data@,
                deep,
                sort as int,
                or_none(index),
                or_none(size),
                or_none(method),
                or_none(then),
                at as int,
                total as int,
            );
            match r {
                Way::On((sum, end)) => spec == Way::On((sum as int, end as int)) && at <= end <= 8 * data.len() && sum
                    <= MOST_BYTES,
                Way::Over => spec == Way::<(int, int)>::Over,
                Way::Bad => spec == Way::<(int, int)>::Bad,
            }
        }),
{
    let len: u64 = match size {
        Some(n) => n,
        None => 0,
    };
    let next: u128 = (at + 7) / 8;
    if sort == 0 || sort == 10 {
        Way::Over
    } else if sort == 3 {
        match read_sitx_number(data, at) {
            Way::Over => Way::Over,
            Way::Bad => Way::Bad,
            Way::On((_, end)) => {
                let far: bool = match index {
                    Some(i) => i > data.len() as u64,
                    None => false,
                };
                if far || total + len > MOST_BYTES {
                    return Way::Bad;
                }
                Way::On((total + len, 8 * ((end + 7) / 8)))
            },
        }
    } else if sort == 1 || sort == 5 || sort > 10 {
        let wild: bool = match method {
            Some(m) => m == 0 || m == 1 || m == 4 || m == 6,
            None => false,
        };
        let changed: bool = match then {
            Some(t) => t == 2,
            None => false,
        };
        if (sort == 5 || sort == 1 && deep) && (wild || changed) || sort == 5 && len > MOST_BYTES {
            return Way::Bad;
        }
        match skip_contents(data, next) {
            Way::Over => Way::Over,
            Way::Bad => Way::Bad,
            Way::On(end) => Way::On((total, 8 * ((end + 7) / 8))),
        }
    } else if sort == 6 {
        let end: u128 = next + len as u128;
        if end > data.len() as u128 {
            return Way::Over;
        }
        Way::On((total, 8 * end))
    } else if sort == 7 {
        match read_sitx_number(data, at) {
            Way::Over => Way::Over,
            Way::Bad => Way::Bad,
            Way::On((_, end)) => Way::On((total, 8 * ((end + 7) / 8))),
        }
    } else {
        Way::On((total, 8 * next))
    }
}

/// Whether what an archive says of itself can be relied on; if `deep`, also the methods
/// of its forks.
pub fn check_sitx(data: &[u8], deep: bool) -> (r: bool)
    ensures
        r == sitx_fits(data@, deep),
{
    if data.len() < 8 {
        return true;
    }
    let all: u128 = 8 * data.len() as u128;
    let mut at: u128 = 64;
    let mut total: u64 = 0;
    while at < all
        invariant
            all == 8 * data.len(),
            at <= all,
            data.len() >= 8,
            total <= MOST_BYTES,
            sitx_fits(data@, deep) == elements_fit(data@, deep, at as int, total as int),
        decreases all - at,
    {
        match check_element(data, deep, at, total) {
            Way::Over => {
                return true;
            },
            Way::Bad => {
                return false;
            },
            Way::On((sum, end)) => {
                at = end;
                total = sum;
            },
        }
    }
    true
}

} // verus!
