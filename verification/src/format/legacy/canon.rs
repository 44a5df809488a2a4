//! Codes that are given by their lengths alone. Shorter codes come before longer
//! ones, and those of one length stand in the order of their symbols; a symbol of
//! length 0 has no code.
use vstd::prelude::*;

use crate::format::legacy::bits;
use crate::format::legacy::bits::{power_of_two, powers_fit, read_bit};

verus! {

/// How many of the first `n` symbols have codes of length `len`.
pub open spec fn count_of(lengths: Seq<u8>, n: int, len: int) -> int
    decreases n,
{
    if n <= 0 {
        0
    } else {
        count_of(lengths, n - 1, len) + if lengths[n - 1] == len { 1int } else { 0 }
    }
}

/// The first code of length `len`.
pub open spec fn first_code(lengths: Seq<u8>, len: nat) -> int
    decreases len,
{
    if len <= 1 {
        0
    } else {
        2 * (first_code(lengths, (len - 1) as nat) + count_of(lengths, lengths.len() as int, len - 1))
    }
}

/// Symbol number `k` of those from `i` on that have codes of length `len`.
pub open spec fn nth_of(lengths: Seq<u8>, len: int, k: int, i: int) -> int
    decreases lengths.len() - i,
{
    if i < 0 || i >= lengths.len() {
        lengths.len() as int
    } else if lengths[i] != len {
        nth_of(lengths, len, k, i + 1)
    } else if k == 0 {
        i
    } else {
        nth_of(lengths, len, k - 1, i + 1)
    }
}

/// There are more codes than bits can tell apart.
pub open spec fn crowded(lengths: Seq<u8>, longest: nat) -> bool {
    first_code(lengths, longest) + count_of(lengths, lengths.len() as int, longest as int) > bits::two_to(longest)
}

/// The symbol whose code goes on at bit `at`, after `len` bits of it that make
/// `code`, and where the code ends; none, if no code of at most `longest` bits stands
/// there.
pub open spec fn symbol_from(data: Seq<u8>, low: bool, lengths: Seq<u8>, longest: nat, at: int, len: nat, code: int) -> Option<(int, int)>
    decreases longest - len,
{
    if len >= longest || at < 0 || at >= 8 * data.len() {
        None
    } else {
        let more = 2 * code + bits::bit_at(data, low, at);
        let k = more - first_code(lengths, len + 1);
        if 0 <= k < count_of(lengths, lengths.len() as int, (len + 1) as int) {
            Some((nth_of(lengths, (len + 1) as int, k, 0), at + 1))
        } else {
            symbol_from(data, low, lengths, longest, at + 1, len + 1, more)
        }
    }
}

/// The symbol whose code begins at bit `at`, and where it ends.
pub open spec fn symbol_at(data: Seq<u8>, low: bool, lengths: Seq<u8>, longest: nat, at: int) -> Option<(int, int)> {
    symbol_from(data, low, lengths, longest, at, 0, 0)
}

proof fn counts_fit(lengths: Seq<u8>, n: int, len: int)
    requires
        0 <= n <= lengths.len(),
    ensures
        0 <= count_of(lengths, n, len) <= n,
    decreases n,
{
    if n > 0 {
        counts_fit(lengths, n - 1, len);
    }
}

proof fn counts_grow(lengths: Seq<u8>, m: int, n: int, len: int)
    requires
        0 <= m <= n,
    ensures
        count_of(lengths, m, len) <= count_of(lengths, n, len),
    decreases n,
{
    if m < n {
        counts_grow(lengths, m, n - 1, len);
    }
}

/// The symbol at `i` is the one with as many before it as there are.
proof fn nth_is_found(lengths: Seq<u8>, len: int, i: int, from: int)
    requires
        0 <= from <= i < lengths.len(),
        lengths[i] == len,
    ensures
        nth_of(lengths, len, count_of(lengths, i, len) - count_of(lengths, from, len), from) == i,
    decreases i - from,
{
    if from < i {
        nth_is_found(lengths, len, i, from + 1);
        counts_grow(lengths, from + 1, i, len);
    }
}

/// Codes that are given by their lengths, and what it takes to read them.
pub struct Canon {
    /// The length of each symbol's code.
    pub lengths: Vec<u8>,
    /// The length of the longest code that there may be.
    pub longest: u32,
    /// The first code of each length.
    pub firsts: Vec<u64>,
    /// The symbols of each length.
    pub rows: Vec<Vec<usize>>,
}

/// The symbols with codes of length `len`, in order, among the first `n`.
pub open spec fn is_row(row: Seq<usize>, lengths: Seq<u8>, len: int, n: int) -> bool {
    &&& row.len() == count_of(lengths, n, len)
    &&& forall|k: int| 0 <= k < row.len() ==> #[trigger] row[k] == nth_of(lengths, len, k, 0) && row[k] < lengths.len()
}

impl Canon {
    /// The tables say of the lengths what they are there to say.
    pub open spec fn well_formed(&self) -> bool {
        let l = self.lengths@;
        &&& 1 <= self.longest <= 20
        &&& self.firsts.len() == self.longest + 1
        &&& self.rows.len() == self.longest + 1
        &&& forall|n: int| 1 <= n <= self.longest ==> #[trigger] self.firsts[n] == first_code(l, n as nat)
        &&& forall|n: int| 1 <= n <= self.longest ==> is_row(#[trigger] self.rows[n]@, l, n, l.len() as int)
    }

    /// The codes of the symbols with these lengths.
    pub(crate) fn new(lengths: Vec<u8>, longest: u32) -> (r: Self)
        requires
            1 <= longest <= 20,
            lengths.len() <= 1024,
        ensures
            r.well_formed(),
            r.lengths@ == lengths@,
            r.longest == longest,
    {
        let mut firsts: Vec<u64> = Vec::new();
        let mut rows: Vec<Vec<usize>> = Vec::new();
        firsts.push(0);
        rows.push(Vec::new());
        let mut first: u64 = 0;
        let mut n: u32 = 1;
        assert(bits::two_to(1) == 2) by {
            reveal_with_fuel(bits::two_to, 2);
        }
        while n <= longest
            invariant
                1 <= n <= longest + 1,
                longest <= 20,
                lengths.len() <= 1024,
                firsts.len() == n,
                rows.len() == n,
                first == first_code(lengths@, n as nat),
                first <= 1024 * (bits::two_to(n as nat) - 2),
                forall|m: int| 1 <= m < n ==> #[trigger] firsts[m] == first_code(lengths@, m as nat),
                forall|m: int| 1 <= m < n ==> is_row(#[trigger] rows[m]@, lengths@, m, lengths.len() as int),
            decreases longest + 1 - n,
        {
            let mut row: Vec<usize> = Vec::new();
            let mut i: usize = 0;
            while i < lengths.len()
                invariant
                    i <= lengths.len() <= 1024,
                    is_row(row@, lengths@, n as int, i as int),
                decreases lengths.len() - i,
            {
                if lengths[i] as u32 == n {
                    proof {
                        nth_is_found(lengths@, n as int, i as int, 0);
                    }
                    row.push(i);
                }
                i = i + 1;
            }
            proof {
                counts_fit(lengths@, lengths.len() as int, n as int);
                powers_fit((n + 1) as nat);
                powers_fit(n as nat);
            }
            firsts.push(first);
            first = 2 * (first + row.len() as u64);
            rows.push(row);
            n = n + 1;
        }
        Canon { lengths, longest, firsts, rows }
    }

    /// Whether there are more codes than bits can tell apart.
    pub(crate) fn is_crowded(&self) -> (r: bool)
        requires
            self.well_formed(),
        ensures
            r == crowded(self.lengths@, self.longest as nat),
    {
        let n: usize = self.longest as usize;
        assert(is_row(self.rows[n as int]@, self.lengths@, n as int, self.lengths.len() as int));
        self.firsts[n] as u128 + self.rows[n].len() as u128 > power_of_two(self.longest) as u128
    }

    /// The symbol whose code begins at bit `at`, and where it ends.
    pub(crate) fn next(&self, data: &[u8], low: bool, at: u128) -> (r: Option<(usize, u128)>)
        requires
            self.well_formed(),
        ensures
            match r {
                Some((symbol, end)) => symbol_at(data@, low, self.lengths@, self.longest as nat, at as int) == Some(
                    (symbol as int, end as int),
                ) && at < end <= 8 * data.len() && symbol < self.lengths.len(),
                None => symbol_at(data@, low, self.lengths@, self.longest as nat, at as int) is None,
            },
    {
        let all: u128 = 8 * data.len() as u128;
        let mut pos: u128 = at;
        let mut len: u32 = 0;
        let mut code: u64 = 0;
        while len < self.longest && pos < all
            invariant
                self.well_formed(),
                all == 8 * data.len(),
                len <= self.longest,
                pos == at + len,
                code < bits::two_to(len as nat),
                symbol_at(data@, low, self.lengths@, self.longest as nat, at as int) == symbol_from(
                    data@,
                    low,
                    self.lengths@,
                    self.longest as nat,
                    pos as int,
                    len as nat,
                    code as int,
                ),
            decreases self.longest - len,
        {
            let bit: bool = read_bit(data, low, pos);
            proof {
                powers_fit(len as nat);
            }
            code = 2 * code + if bit { 1 } else { 0 };
            pos = pos + 1;
            len = len + 1;
            let first: u64 = self.firsts[len as usize];
            let row: &Vec<usize> = &self.rows[len as usize];
            assert(is_row(self.rows[len as int]@, self.lengths@, len as int, self.lengths.len() as int));
            if first <= code && code - first < row.len() as u64 {
                let k: usize = (code - first) as usize;
                return Some((row[k], pos));
            }
        }
        None
    }
}

} // verus!
