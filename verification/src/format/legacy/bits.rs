//! Bits of packed data, in the two orders in which they are read: from the lowest
//! bit of a byte up, or from its highest down.
use vstd::prelude::*;

verus! {

/// How reading on in packed data goes.
pub enum Way<T> {
    /// What was read.
    On(T),
    /// The data end, or do not make sense.
    Over,
    /// The data must not be handed on.
    Bad,
}

/// What bit `k` of a byte counts, the lowest being bit 0.
pub open spec fn weight(k: int) -> int {
    if k == 0 {
        1
    } else if k == 1 {
        2
    } else if k == 2 {
        4
    } else if k == 3 {
        8
    } else if k == 4 {
        16
    } else if k == 5 {
        32
    } else if k == 6 {
        64
    } else {
        128
    }
}

/// Bit `at` of the bytes, counted from the lowest of each byte up if `low`, and from
/// the highest down if not.
pub open spec fn bit_at(data: Seq<u8>, low: bool, at: int) -> int {
    data[at / 8] as int / weight(if low { at % 8 } else { 7 - at % 8 }) % 2
}

/// The number that the `n` bits from `at` on make, the first of them counting least
/// if `low` and most if not.
pub open spec fn number_at(data: Seq<u8>, low: bool, at: int, n: nat) -> int
    decreases n,
{
    if n == 0 {
        0
    } else if low {
        bit_at(data, low, at) + 2 * number_at(data, low, at + 1, (n - 1) as nat)
    } else {
        2 * number_at(data, low, at, (n - 1) as nat) + bit_at(data, low, at + n - 1)
    }
}

/// Two to the power `n`.
pub open spec fn two_to(n: nat) -> int
    decreases n,
{
    if n == 0 {
        1
    } else {
        2 * two_to((n - 1) as nat)
    }
}

fn bit_weight(k: u8) -> (r: u8)
    requires
        k < 8,
    ensures
        r == weight(k as int),
        r > 0,
{
    if k == 0 {
        1
    } else if k == 1 {
        2
    } else if k == 2 {
        4
    } else if k == 3 {
        8
    } else if k == 4 {
        16
    } else if k == 5 {
        32
    } else if k == 6 {
        64
    } else {
        128
    }
}

/// The bit at `at`.
pub(crate) fn read_bit(data: &[u8], low: bool, at: u128) -> (r: bool)
    requires
        at < 8 * data.len(),
    ensures
        bit_at(data@, low, at as int) == if r { 1int } else { 0 },
{
    let k: u8 = (at % 8) as u8;
    let w: u8 = bit_weight(if low { k } else { 7 - k });
    data[(at / 8) as usize] / w % 2 == 1
}

/// The powers of two up to that of 32.
pub proof fn powers_fit(n: nat)
    requires
        n <= 32,
    ensures
        1 <= two_to(n) <= 0x1_0000_0000,
{
    reveal_with_fuel(two_to, 33);
}

/// A greater power of two is no smaller.
pub proof fn powers_grow(a: nat, b: nat)
    requires
        a <= b,
    ensures
        two_to(a) <= two_to(b),
        1 <= two_to(a),
    decreases b,
{
    if a < b {
        powers_grow(a, (b - 1) as nat);
    } else if a > 0 {
        powers_grow((a - 1) as nat, (b - 1) as nat);
    }
}

/// Two to the power `n`.
pub(crate) fn power_of_two(n: u32) -> (r: u64)
    requires
        n <= 32,
    ensures
        r == two_to(n as nat),
        r <= 0x1_0000_0000,
{
    let mut r: u64 = 1;
    let mut k: u32 = 0;
    while k < n
        invariant
            k <= n <= 32,
            r == two_to(k as nat),
        decreases n - k,
    {
        proof {
            powers_fit(k as nat);
        }
        r = 2 * r;
        k = k + 1;
    }
    proof {
        powers_fit(n as nat);
    }
    r
}

/// What `n` bits make is less than two to the power `n`.
pub proof fn number_fits(data: Seq<u8>, low: bool, at: int, n: nat)
    ensures
        0 <= number_at(data, low, at, n) < two_to(n),
    decreases n,
{
    if n > 0 {
        if low {
            number_fits(data, low, at + 1, (n - 1) as nat);
        } else {
            number_fits(data, low, at, (n - 1) as nat);
        }
    }
}

/// The number that the `n` bits from `at` on make.
pub(crate) fn read_number(data: &[u8], low: bool, at: u128, n: u32) -> (r: u32)
    requires
        n <= 32,
        at + n <= 8 * data.len(),
    ensures
        r == number_at(data@, low, at as int, n as nat),
        r < two_to(n as nat),
{
    let mut r: u64 = 0;
    let mut k: u32 = 0;
    while k < n
        invariant
            k <= n <= 32,
            at + n <= 8 * data.len(),
            low ==> r == number_at(data@, low, at + n - k, k as nat),
            !low ==> r == number_at(data@, low, at as int, k as nat),
            r < two_to(k as nat),
        decreases n - k,
    {
        let bit: bool = read_bit(data, low, if low { at + (n - 1 - k) as u128 } else { at + k as u128 });
        proof {
            powers_fit(k as nat);
            powers_fit((k + 1) as nat);
        }
        r = 2 * r + if bit { 1 } else { 0 };
        k = k + 1;
    }
    proof {
        powers_fit(n as nat);
    }
    r as u32
}

proof fn eight_bits_make_a_byte(b: u8)
    by (bit_vector)
    ensures
        b / 128 % 2 * 128 + b / 64 % 2 * 64 + b / 32 % 2 * 32 + b / 16 % 2 * 16 + b / 8 % 2 * 8 + b / 4 % 2 * 4 + b / 2 % 2 * 2
            + b / 1 % 2 == b,
{
}

/// The eight bits of a byte make up its value, whether the lowest of them comes first or
/// the highest.
pub proof fn bytes_are_read_as_numbers(data: Seq<u8>, i: int)
    requires
        0 <= i < data.len(),
    ensures
        number_at(data, true, 8 * i, 8) == data[i],
        number_at(data, false, 8 * i, 8) == data[i],
{
    let b = data[i];
    let at = 8 * i;
    eight_bits_make_a_byte(b);
    assert(bit_at(data, true, at) == b as int / 1 % 2);
    assert(bit_at(data, true, at + 1) == b as int / 2 % 2);
    assert(bit_at(data, true, at + 2) == b as int / 4 % 2);
    assert(bit_at(data, true, at + 3) == b as int / 8 % 2);
    assert(bit_at(data, true, at + 4) == b as int / 16 % 2);
    assert(bit_at(data, true, at + 5) == b as int / 32 % 2);
    assert(bit_at(data, true, at + 6) == b as int / 64 % 2);
    assert(bit_at(data, true, at + 7) == b as int / 128 % 2);
    assert(bit_at(data, false, at) == b as int / 128 % 2);
    assert(bit_at(data, false, at + 1) == b as int / 64 % 2);
    assert(bit_at(data, false, at + 2) == b as int / 32 % 2);
    assert(bit_at(data, false, at + 3) == b as int / 16 % 2);
    assert(bit_at(data, false, at + 4) == b as int / 8 % 2);
    assert(bit_at(data, false, at + 5) == b as int / 4 % 2);
    assert(bit_at(data, false, at + 6) == b as int / 2 % 2);
    assert(bit_at(data, false, at + 7) == b as int / 1 % 2);
    reveal_with_fuel(number_at, 9);
}

} // verus!
