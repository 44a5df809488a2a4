//! Reading numbers, prefixes and runs out of byte sequences.
use vstd::prelude::*;

verus! {

/// The little-endian 16-bit number at `i`.
pub open spec fn le16(s: Seq<u8>, i: int) -> int {
    s[i] + 0x100 * s[i + 1]
}

/// The little-endian 32-bit number at `i`.
pub open spec fn le32(s: Seq<u8>, i: int) -> int {
    s[i] + 0x100 * s[i + 1] + 0x1_0000 * s[i + 2] + 0x100_0000 * s[i + 3]
}

/// The little-endian 64-bit number at `i`.
pub open spec fn le64(s: Seq<u8>, i: int) -> int {
    le32(s, i) + 0x1_0000_0000 * le32(s, i + 4)
}

/// The big-endian 16-bit number at `i`.
pub open spec fn be16(s: Seq<u8>, i: int) -> int {
    0x100 * s[i] + s[i + 1]
}

/// The big-endian 32-bit number at `i`.
pub open spec fn be32(s: Seq<u8>, i: int) -> int {
    0x100_0000 * s[i] + 0x1_0000 * s[i + 1] + 0x100 * s[i + 2] + s[i + 3]
}

/// The big-endian 64-bit number at `i`.
pub open spec fn be64(s: Seq<u8>, i: int) -> int {
    0x1_0000_0000 * be32(s, i) + be32(s, i + 4)
}

/// The four bytes of `v`, least significant first.
pub open spec fn le32_bytes(v: int) -> Seq<u8> {
    seq![(v % 256) as u8, (v / 256 % 256) as u8, (v / 65536 % 256) as u8, (v / 16777216 % 256) as u8]
}

/// The four bytes of `v`, most significant first.
pub open spec fn be32_bytes(v: int) -> Seq<u8> {
    seq![(v / 16777216 % 256) as u8, (v / 65536 % 256) as u8, (v / 256 % 256) as u8, (v % 256) as u8]
}

/// Reading back a number written most significant byte first gives that number.
pub proof fn be32_reads_back(v: int)
    requires
        0 <= v <= u32::MAX,
    ensures
        be32(be32_bytes(v), 0) == v,
{
}

/// Reading back a number written least significant byte first gives that number.
pub proof fn le32_reads_back(v: int)
    requires
        0 <= v <= u32::MAX,
    ensures
        le32(le32_bytes(v), 0) == v,
{
}

pub fn le_u16(b: &[u8], i: usize) -> (r: u16)
    requires
        i + 2 <= b.len(),
    ensures
        r == le16(b@, i as int),
{
    b[i] as u16 + 0x100 * (b[i + 1] as u16)
}

pub fn le_u32(b: &[u8], i: usize) -> (r: u32)
    requires
        i + 4 <= b.len(),
    ensures
        r == le32(b@, i as int),
{
    b[i] as u32 + 0x100 * (b[i + 1] as u32) + 0x1_0000 * (b[i + 2] as u32) + 0x100_0000 * (b[i + 3] as u32)
}

pub fn le_u64(b: &[u8], i: usize) -> (r: u64)
    requires
        i + 8 <= b.len(),
    ensures
        r == le64(b@, i as int),
{
    le_u32(b, i) as u64 + 0x1_0000_0000 * (le_u32(b, i + 4) as u64)
}

pub fn be_u16(b: &[u8], i: usize) -> (r: u16)
    requires
        i + 2 <= b.len(),
    ensures
        r == be16(b@, i as int),
{
    0x100 * (b[i] as u16) + b[i + 1] as u16
}

pub fn be_u32(b: &[u8], i: usize) -> (r: u32)
    requires
        i + 4 <= b.len(),
    ensures
        r == be32(b@, i as int),
{
    0x100_0000 * (b[i] as u32) + 0x1_0000 * (b[i + 1] as u32) + 0x100 * (b[i + 2] as u32) + b[i + 3] as u32
}

pub fn be_u64(b: &[u8], i: usize) -> (r: u64)
    requires
        i + 8 <= b.len(),
    ensures
        r == be64(b@, i as int),
{
    0x1_0000_0000 * (be_u32(b, i) as u64) + be_u32(b, i + 4) as u64
}

/// Append the four bytes of `v`, most significant first.
pub fn push_be_u32(out: &mut Vec<u8>, v: u32)
    ensures
        final(out)@ == old(out)@ + be32_bytes(v as int),
{
    out.push((v / 16777216 % 256) as u8);
    out.push((v / 65536 % 256) as u8);
    out.push((v / 256 % 256) as u8);
    out.push((v % 256) as u8);
    proof {
        assert(out@ =~= old(out)@ + be32_bytes(v as int));
    }
}

/// Append the four bytes of `v`, least significant first.
pub fn push_le_u32(out: &mut Vec<u8>, v: u32)
    ensures
        final(out)@ == old(out)@ + le32_bytes(v as int),
{
    out.push((v % 256) as u8);
    out.push((v / 256 % 256) as u8);
    out.push((v / 65536 % 256) as u8);
    out.push((v / 16777216 % 256) as u8);
    proof {
        assert(out@ =~= old(out)@ + le32_bytes(v as int));
    }
}

/// Whether `p` stands in `s` at position `i`.
pub open spec fn stands_at(s: Seq<u8>, i: int, p: Seq<u8>) -> bool {
    0 <= i && i + p.len() <= s.len() && s.subrange(i, i + p.len()) == p
}

/// Whether `p` stands in `b` at position `i`.
pub fn found_at(b: &[u8], i: usize, p: &[u8]) -> (r: bool)
    ensures
        r == stands_at(b@, i as int, p@),
{
    if i > b.len() || b.len() - i < p.len() {
        return false;
    }
    let mut k: usize = 0;
    while k < p.len()
        invariant
            k <= p.len(),
            i + p.len() <= b.len(),
            forall|j: int| 0 <= j < k ==> p@[j] == b@[i + j],
        decreases p.len() - k,
    {
        if b[i + k] != p[k] {
            assert(b@.subrange(i as int, i + p.len())[k as int] != p@[k as int]);
            return false;
        }
        k = k + 1;
    }
    assert(b@.subrange(i as int, i + p.len()) =~= p@);
    true
}

/// Whether `b` begins with `p`.
pub fn starts_with(b: &[u8], p: &[u8]) -> (r: bool)
    ensures
        r == stands_at(b@, 0, p@),
{
    found_at(b, 0, p)
}

/// Whether two byte runs are equal.
pub fn same_bytes(a: &[u8], b: &[u8]) -> (r: bool)
    ensures
        r == (a@ == b@),
{
    if a.len() != b.len() {
        return false;
    }
    let r = found_at(a, 0, b);
    assert(a@.subrange(0, a@.len() as int) =~= a@);
    r
}

/// `b` with ASCII capitals made small; other bytes as they are.
pub open spec fn lower_byte(b: u8) -> u8 {
    if 0x41 <= b <= 0x5A {
        (b + 32) as u8
    } else {
        b
    }
}

pub open spec fn lower_bytes(s: Seq<u8>) -> Seq<u8> {
    Seq::new(s.len(), |i: int| lower_byte(s[i]))
}

pub fn to_lower_byte(b: u8) -> (r: u8)
    ensures
        r == lower_byte(b),
{
    if 0x41 <= b && b <= 0x5A {
        b + 32
    } else {
        b
    }
}

/// `s` ends in `suffix`, ASCII capitals and small letters taken as equal.
pub open spec fn ends_with_any_case(s: Seq<u8>, suffix: Seq<u8>) -> bool {
    s.len() >= suffix.len() && lower_bytes(s.skip(s.len() - suffix.len())) == lower_bytes(suffix)
}

/// Whether `bytes` ends in `suffix`, ASCII letter case aside.
pub fn ends_with_ascii_ci(bytes: &[u8], suffix: &[u8]) -> (r: bool)
    ensures
        r == ends_with_any_case(bytes@, suffix@),
{
    if bytes.len() < suffix.len() {
        return false;
    }
    let base: usize = bytes.len() - suffix.len();
    let ghost tail = bytes@.skip(base as int);
    let mut k: usize = 0;
    while k < suffix.len()
        invariant
            k <= suffix.len(),
            base + suffix.len() == bytes.len(),
            tail == bytes@.skip(base as int),
            forall|j: int| 0 <= j < k ==> lower_byte(tail[j]) == lower_byte(suffix@[j]),
        decreases suffix.len() - k,
    {
        if to_lower_byte(bytes[base + k]) != to_lower_byte(suffix[k]) {
            assert(lower_bytes(tail)[k as int] != lower_bytes(suffix@)[k as int]);
            return false;
        }
        k = k + 1;
    }
    assert(lower_bytes(tail) =~= lower_bytes(suffix@));
    true
}

/// `a` and `b` are equal, ASCII letter case aside.
pub fn equal_any_case(a: &[u8], b: &[u8]) -> (r: bool)
    ensures
        r == (lower_bytes(a@) == lower_bytes(b@)),
{
    if a.len() != b.len() {
        assert(lower_bytes(a@).len() != lower_bytes(b@).len());
        return false;
    }
    let r = ends_with_ascii_ci(a, b);
    assert(a@.skip(0) =~= a@);
    r
}

/// A copy of the bytes from `from` up to `to`.
pub fn copy_range(b: &[u8], from: usize, to: usize) -> (r: Vec<u8>)
    requires
        from <= to <= b.len(),
    ensures
        r@ == b@.subrange(from as int, to as int),
{
    let mut v: Vec<u8> = Vec::new();
    v.extend_from_slice(&b[from..to]);
    assert(v@ =~= b@.subrange(from as int, to as int));
    v
}

/// A copy of `b`.
pub fn copy_bytes(b: &[u8]) -> (r: Vec<u8>)
    ensures
        r@ == b@,
{
    let v = copy_range(b, 0, b.len());
    assert(v@ =~= b@);
    v
}

/// No run equal to `p` starts in `s` before `n`.
pub open spec fn absent_before(s: Seq<u8>, p: Seq<u8>, n: int) -> bool {
    forall|j: int| 0 <= j < n ==> !stands_at(s, j, p)
}

/// The first place where `p` stands in `s`.
pub open spec fn first_at(s: Seq<u8>, p: Seq<u8>, i: int) -> bool {
    stands_at(s, i, p) && absent_before(s, p, i)
}

/// The first place where the non-empty run `p` stands in `b`.
pub fn find(b: &[u8], p: &[u8]) -> (r: Option<usize>)
    ensures
        match r {
            Some(i) => first_at(b@, p@, i as int),
            None => forall|j: int| !stands_at(b@, j, p@),
        },
{
    let mut i: usize = 0;
    while i < b.len()
        invariant
            i <= b.len(),
            absent_before(b@, p@, i as int),
        decreases b.len() - i,
    {
        if found_at(b, i, p) {
            return Some(i);
        }
        i = i + 1;
    }
    if found_at(b, i, p) {
        return Some(i);
    }
    None
}

/// The place of the first `x` in `b`, or the length of `b`.
pub open spec fn index_or_len(s: Seq<u8>, x: u8) -> int
    decreases s.len(),
{
    if s.len() == 0 || s[0] == x {
        0
    } else {
        1 + index_or_len(s.skip(1), x)
    }
}

/// What `index_or_len` says, place by place.
pub proof fn index_or_len_is_first(s: Seq<u8>, x: u8, n: int)
    requires
        0 <= n <= s.len(),
        forall|j: int| 0 <= j < n ==> s[j] != x,
        n == s.len() || s[n] == x,
    ensures
        index_or_len(s, x) == n,
    decreases s.len(),
{
    if n > 0 {
        assert forall|j: int| 0 <= j < n - 1 implies s.skip(1)[j] != x by {
            assert(s.skip(1)[j] == s[j + 1]);
        }
        index_or_len_is_first(s.skip(1), x, n - 1);
    }
}

/// The place of the first `x` in `b`, or the length of `b`.
pub fn position_or_len(b: &[u8], x: u8) -> (r: usize)
    ensures
        r == index_or_len(b@, x),
        r <= b.len(),
        forall|j: int| 0 <= j < r ==> b@[j] != x,
        r < b.len() ==> b@[r as int] == x,
{
    let mut i: usize = 0;
    while i < b.len()
        invariant
            i <= b.len(),
            forall|j: int| 0 <= j < i ==> b@[j] != x,
        decreases b.len() - i,
    {
        if b[i] == x {
            proof {
                index_or_len_is_first(b@, x, i as int);
            }
            return i;
        }
        i = i + 1;
    }
    proof {
        index_or_len_is_first(b@, x, i as int);
    }
    i
}

/// `s` without the run of `x` at its end.
pub open spec fn trimmed(s: Seq<u8>, x: u8) -> Seq<u8>
    decreases s.len(),
{
    if s.len() > 0 && s.last() == x {
        trimmed(s.drop_last(), x)
    } else {
        s
    }
}

/// Drop the run of `x` at the end.
pub fn trim_end(bytes: &mut Vec<u8>, x: u8)
    ensures
        final(bytes)@ == trimmed(old(bytes)@, x),
{
    while bytes.len() > 0 && bytes[bytes.len() - 1] == x
        invariant
            trimmed(bytes@, x) == trimmed(old(bytes)@, x),
        decreases bytes.len(),
    {
        let _ = bytes.pop();
    }
}

/// The number of a sequence of decimal digits, or `None` if one of them is none.
pub open spec fn digits_value(s: Seq<u8>) -> Option<int>
    decreases s.len(),
{
    if s.len() == 0 {
        Some(0)
    } else {
        match digits_value(s.drop_last()) {
            Some(v) if 0x30 <= s.last() <= 0x39 => Some(v * 10 + (s.last() - 0x30)),
            _ => None,
        }
    }
}

/// Ten to the power of `n`.
pub open spec fn tens(n: nat) -> int
    decreases n,
{
    if n == 0 { 1 } else { 10 * tens((n - 1) as nat) }
}

/// A number of so many digits is below that power of ten.
pub proof fn digits_are_bounded(s: Seq<u8>)
    requires
        digits_value(s) is Some,
    ensures
        0 <= digits_value(s)->0 < tens(s.len()),
    decreases s.len(),
{
    if s.len() > 0 {
        digits_are_bounded(s.drop_last());
    }
}

/// The powers of ten ascend.
pub proof fn tens_grow(a: nat, b: nat)
    requires
        a <= b,
    ensures
        0 < tens(a) <= tens(b),
    decreases b,
{
    if a < b {
        tens_grow(a, (b - 1) as nat);
    } else if a > 0 {
        tens_grow((a - 1) as nat, (a - 1) as nat);
    }
}

/// The number of a whole sequence bounds those of its beginnings.
proof fn beginnings_are_less(s: Seq<u8>, n: int)
    requires
        0 <= n <= s.len(),
        digits_value(s) is Some,
    ensures
        digits_value(s.take(n)) is Some,
        0 <= digits_value(s.take(n))->0 <= digits_value(s)->0,
    decreases s.len() - n,
{
    if n == s.len() {
        assert(s.take(n) =~= s);
        digits_are_bounded(s);
    } else {
        beginnings_are_less(s, n + 1);
        assert(s.take(n + 1).drop_last() =~= s.take(n));
        digits_are_bounded(s.take(n));
    }
}

/// The number of a sequence of digits.
pub fn parse_digits(d: &[u8]) -> (r: Option<u64>)
    ensures
        match r {
            Some(v) => digits_value(d@) == Some(v as int),
            None => digits_value(d@) is None || digits_value(d@)->0 > u64::MAX,
        },
{
    let mut v: u64 = 0;
    let mut i: usize = 0;
    while i < d.len()
        invariant
            i <= d.len(),
            digits_value(d@.take(i as int)) == Some(v as int),
        decreases d.len() - i,
    {
        let b: u8 = d[i];
        proof {
            assert(d@.take(i + 1).drop_last() =~= d@.take(i as int));
            assert(d@.take(i + 1).last() == b);
            if digits_value(d@) is Some {
                beginnings_are_less(d@, i + 1);
            }
        }
        if b < 0x30 || b > 0x39 {
            return None;
        }
        let x: u64 = (b - 0x30) as u64;
        if v > u64::MAX / 10 || x > u64::MAX - v * 10 {
            return None;
        }
        v = v * 10 + x;
        i = i + 1;
    }
    assert(d@.take(i as int) =~= d@);
    Some(v)
}

/// The bytes of a number, so many of them, the lowest first.
pub open spec fn low_first(v: int, n: nat) -> Seq<u8>
    decreases n,
{
    if n == 0 {
        Seq::empty()
    } else {
        seq![(v % 256) as u8] + low_first(v / 256, (n - 1) as nat)
    }
}

/// The bytes of a number, one by one.
pub proof fn first_bytes(v: int)
    ensures
        low_first(v, 2) == seq![(v % 256) as u8, (v / 256 % 256) as u8],
        low_first(v, 4) == seq![
            (v % 256) as u8,
            (v / 256 % 256) as u8,
            (v / 256 / 256 % 256) as u8,
            (v / 256 / 256 / 256 % 256) as u8,
        ],
{
    reveal_with_fuel(low_first, 5);
    assert(low_first(v, 2) =~= seq![(v % 256) as u8, (v / 256 % 256) as u8]);
    assert(low_first(v, 4) =~= seq![
        (v % 256) as u8,
        (v / 256 % 256) as u8,
        (v / 256 / 256 % 256) as u8,
        (v / 256 / 256 / 256 % 256) as u8,
    ]);
}

proof fn division_by_bytes(v: int)
    requires
        0 <= v,
    ensures
        v / 256 / 256 / 256 / 256 == v / 0x1_0000_0000,
{
}

proof fn whole_bytes_are_passed_over(a: int, h: int)
    ensures
        (256 * h + a) % 256 == a % 256,
        (256 * h + a) / 256 == h + a / 256,
{
}

#[verifier::rlimit(40)]
proof fn lower_half_has_same_bytes(v: int)
    requires
        0 <= v,
    ensures
        low_first(v % 0x1_0000_0000, 4) == low_first(v, 4),
{
    let low = v % 0x1_0000_0000;
    let h = v / 0x1_0000_0000;
    assert(v == 256 * (0x100_0000 * h) + low);
    whole_bytes_are_passed_over(low, 0x100_0000 * h);
    whole_bytes_are_passed_over(low / 256, 0x1_0000 * h);
    whole_bytes_are_passed_over(low / 256 / 256, 0x100 * h);
    whole_bytes_are_passed_over(low / 256 / 256 / 256, h);
    first_bytes(v);
    first_bytes(low);
}

#[verifier::rlimit(40)]
proof fn bytes_go_on(v: int, n: nat)
    ensures
        low_first(v, n + 4) == low_first(v, 4) + low_first(v / 256 / 256 / 256 / 256, n),
{
    first_bytes(v);
    reveal_with_fuel(low_first, 2);
    let a = low_first(v / 256, n + 3);
    let b = low_first(v / 256 / 256, n + 2);
    let c = low_first(v / 256 / 256 / 256, n + 1);
    let d = low_first(v / 256 / 256 / 256 / 256, n);
    assert(low_first(v, n + 4) == seq![(v % 256) as u8] + a);
    assert(a == seq![(v / 256 % 256) as u8] + b);
    assert(b == seq![(v / 256 / 256 % 256) as u8] + c);
    assert(c == seq![(v / 256 / 256 / 256 % 256) as u8] + d);
    assert(low_first(v, n + 4) =~= low_first(v, 4) + d);
}

proof fn eight_bytes_are_four_and_four(v: int)
    requires
        0 <= v,
    ensures
        low_first(v, 8) == low_first(v % 0x1_0000_0000, 4) + low_first(v / 0x1_0000_0000, 4),
{
    division_by_bytes(v);
    lower_half_has_same_bytes(v);
    bytes_go_on(v, 4);
}

/// A number of two, four or eight bytes reads back wherever it stands, the lowest byte
/// first or, turned round, the highest first.
#[verifier::rlimit(40)]
pub proof fn numbers_read_back(before: Seq<u8>, v: int, behind: Seq<u8>)
    requires
        0 <= v,
    ensures
        v < 0x1_0000 ==> le16(before + low_first(v, 2) + behind, before.len() as int) == v,
        v < 0x1_0000 ==> be16(before + low_first(v, 2).reverse() + behind, before.len() as int) == v,
        v < 0x1_0000_0000 ==> le32(before + low_first(v, 4) + behind, before.len() as int) == v,
        v < 0x1_0000_0000 ==> be32(before + low_first(v, 4).reverse() + behind, before.len() as int) == v,
        v < 0x1_0000_0000_0000_0000 ==> le64(before + low_first(v, 8) + behind, before.len() as int) == v,
        v < 0x1_0000_0000_0000_0000 ==> be64(before + low_first(v, 8).reverse() + behind, before.len() as int) == v,
{
    first_bytes(v);
    let n = before.len() as int;
    if v < 0x1_0000 {
        let two = low_first(v, 2);
        assert((before + two + behind)[n] == two[0] && (before + two + behind)[n + 1] == two[1]);
        assert((before + two.reverse() + behind)[n] == two[1] && (before + two.reverse() + behind)[n + 1] == two[0]);
    }
    if v < 0x1_0000_0000 {
        four_bytes_read_back(before, v, low_first(v, 4), behind);
    }
    if v < 0x1_0000_0000_0000_0000 {
        eight_bytes_read_back(before, v, behind);
    }
}

#[verifier::rlimit(40)]
proof fn eight_bytes_read_back(before: Seq<u8>, v: int, behind: Seq<u8>)
    requires
        0 <= v < 0x1_0000_0000_0000_0000,
    ensures
        le64(before + low_first(v, 8) + behind, before.len() as int) == v,
        be64(before + low_first(v, 8).reverse() + behind, before.len() as int) == v,
{
    let low = v % 0x1_0000_0000;
    let high = v / 0x1_0000_0000;
    let a = low_first(low, 4);
    let b = low_first(high, 4);
    let eight = low_first(v, 8);
    first_bytes(low);
    first_bytes(high);
    eight_bytes_are_four_and_four(v);
    four_bytes_read_back(before, low, a, b + behind);
    four_bytes_read_back(before + a, high, b, behind);
    assert(before + a + (b + behind) =~= before + eight + behind);
    assert((before + a) + b + behind =~= before + eight + behind);
    assert(eight.reverse() =~= b.reverse() + a.reverse());
    four_bytes_read_back(before, high, b, a.reverse() + behind);
    four_bytes_read_back(before + b.reverse(), low, a, behind);
    assert(before + b.reverse() + (a.reverse() + behind) =~= before + eight.reverse() + behind);
    assert((before + b.reverse()) + a.reverse() + behind =~= before + eight.reverse() + behind);
}

#[verifier::rlimit(40)]
proof fn four_bytes_read_back(before: Seq<u8>, v: int, four: Seq<u8>, behind: Seq<u8>)
    requires
        0 <= v < 0x1_0000_0000,
        four == seq![(v % 256) as u8, (v / 256 % 256) as u8, (v / 256 / 256 % 256) as u8, (v / 256 / 256 / 256 % 256) as u8],
    ensures
        le32(before + four + behind, before.len() as int) == v,
        be32(before + four.reverse() + behind, before.len() as int) == v,
{
    let n = before.len() as int;
    let s = before + four + behind;
    assert(s[n] == four[0] && s[n + 1] == four[1] && s[n + 2] == four[2] && s[n + 3] == four[3]);
    let t = before + four.reverse() + behind;
    assert(t[n] == four[3] && t[n + 1] == four[2] && t[n + 2] == four[1] && t[n + 3] == four[0]);
}

/// A run of one byte at the end is dropped, and nothing else.
pub proof fn run_is_trimmed(core: Seq<u8>, x: u8, n: nat)
    requires
        core.len() == 0 || core.last() != x,
    ensures
        trimmed(core + Seq::new(n, |k: int| x), x) == core,
    decreases n,
{
    let all = core + Seq::new(n, |k: int| x);
    if n == 0 {
        assert(all =~= core);
    } else {
        assert(all.drop_last() =~= core + Seq::new((n - 1) as nat, |k: int| x));
        run_is_trimmed(core, x, (n - 1) as nat);
    }
}

/// The decimal digits of a number, so many of them, the highest first.
pub open spec fn decimal_digits(v: int, n: nat) -> Seq<u8>
    decreases n,
{
    if n == 0 {
        Seq::empty()
    } else {
        decimal_digits(v / 10, (n - 1) as nat).push((0x30 + v % 10) as u8)
    }
}

/// A number that is written in decimal digits reads back, and anything but digits is no
/// number.
pub proof fn digits_read_back(v: int, n: nat, before: Seq<u8>, other: u8, behind: Seq<u8>)
    requires
        0 <= v < tens(n),
        other < 0x30 || other > 0x39,
    ensures
        digits_value(decimal_digits(v, n)) == Some(v),
        digits_value(before + seq![other] + behind) is None,
    decreases n + behind.len(),
{
    if n > 0 {
        digits_read_back(v / 10, (n - 1) as nat, before, other, Seq::empty());
        assert(decimal_digits(v, n).drop_last() =~= decimal_digits(v / 10, (n - 1) as nat));
    }
    let all = before + seq![other] + behind;
    if behind.len() == 0 {
        assert(all.last() == other);
    } else {
        digits_read_back(0, 0, before, other, behind.drop_last());
        assert(all.drop_last() =~= before + seq![other] + behind.drop_last());
    }
}

/// Two bytes count as the same letter.
pub open spec fn same_letter(a: u8, b: u8) -> bool {
    a == b || (0x41 <= a <= 0x5A && b == a + 0x20) || (0x41 <= b <= 0x5A && a == b + 0x20)
}

/// An ending is found in whatever case its letters and those before it stand, and only
/// where the letters are the same.
pub proof fn endings_go_by_letters(s: Seq<u8>, suffix: Seq<u8>)
    ensures
        ends_with_any_case(s, suffix) == (s.len() >= suffix.len() && forall|k: int|
            0 <= k < suffix.len() ==> same_letter(s[s.len() - suffix.len() + k], #[trigger] suffix[k])),
{
    if s.len() >= suffix.len() {
        let tail = s.skip(s.len() - suffix.len());
        if lower_bytes(tail) == lower_bytes(suffix) {
            assert forall|k: int| 0 <= k < suffix.len() implies same_letter(
                s[s.len() - suffix.len() + k],
                #[trigger] suffix[k],
            ) by {
                assert(lower_bytes(tail)[k] == lower_bytes(suffix)[k]);
                assert(tail[k] == s[s.len() - suffix.len() + k]);
            }
        } else if forall|k: int|
            0 <= k < suffix.len() ==> same_letter(s[s.len() - suffix.len() + k], #[trigger] suffix[k]) {
            assert(lower_bytes(tail) =~= lower_bytes(suffix)) by {
                assert forall|k: int| 0 <= k < suffix.len() implies lower_byte(tail[k]) == lower_byte(#[trigger] suffix[k]) by {
                    assert(tail[k] == s[s.len() - suffix.len() + k]);
                }
            }
        }
    }
}

/// The bytes of a number are as many as were asked for.
pub proof fn low_first_has_length(v: int, n: nat)
    ensures
        low_first(v, n).len() == n,
    decreases n,
{
    if n > 0 {
        low_first_has_length(v / 256, (n - 1) as nat);
    }
}

/// A number whose bytes stand somewhere is read there.
#[verifier::rlimit(40)]
pub proof fn standing_numbers_are_read(s: Seq<u8>, i: int, v: int)
    requires
        0 <= v,
    ensures
        v < 0x1_0000 && stands_at(s, i, low_first(v, 2)) ==> le16(s, i) == v,
        v < 0x1_0000 && stands_at(s, i, low_first(v, 2).reverse()) ==> be16(s, i) == v,
        v < 0x1_0000_0000 && stands_at(s, i, low_first(v, 4)) ==> le32(s, i) == v,
        v < 0x1_0000_0000 && stands_at(s, i, low_first(v, 4).reverse()) ==> be32(s, i) == v,
        v < 0x1_0000_0000_0000_0000 && stands_at(s, i, low_first(v, 8)) ==> le64(s, i) == v,
        v < 0x1_0000_0000_0000_0000 && stands_at(s, i, low_first(v, 8).reverse()) ==> be64(s, i) == v,
{
    low_first_has_length(v, 2);
    low_first_has_length(v, 4);
    low_first_has_length(v, 8);
    if 0 <= i <= s.len() {
        numbers_read_back(s.take(i), v, Seq::empty());
        around(s, i, low_first(v, 2), v);
        around(s, i, low_first(v, 2).reverse(), v);
        around(s, i, low_first(v, 4), v);
        around(s, i, low_first(v, 4).reverse(), v);
        around(s, i, low_first(v, 8), v);
        around(s, i, low_first(v, 8).reverse(), v);
    }
}

#[verifier::rlimit(40)]
proof fn around(s: Seq<u8>, i: int, p: Seq<u8>, v: int)
    requires
        0 <= i <= s.len(),
        0 <= v,
    ensures
        stands_at(s, i, p) ==> {
            let t = s.take(i) + p + Seq::<u8>::empty();
            &&& t.len() == i + p.len()
            &&& forall|k: int| 0 <= k < p.len() ==> #[trigger] s[i + k] == t[i + k]
            &&& p.len() >= 2 ==> le16(s, i) == le16(t, i) && be16(s, i) == be16(t, i)
            &&& p.len() >= 4 ==> le32(s, i) == le32(t, i) && be32(s, i) == be32(t, i)
            &&& p.len() >= 8 ==> le64(s, i) == le64(t, i) && be64(s, i) == be64(t, i)
        },
{
    if stands_at(s, i, p) {
        let t = s.take(i) + p + Seq::<u8>::empty();
        assert forall|k: int| 0 <= k < p.len() implies #[trigger] s[i + k] == t[i + k] by {
            assert(s.subrange(i, i + p.len())[k] == p[k]);
        }
        assert(p.len() >= 2 ==> s[i + 0] == t[i + 0] && s[i + 1] == t[i + 1]);
        assert(p.len() >= 4 ==> s[i + 2] == t[i + 2] && s[i + 3] == t[i + 3]);
        assert(p.len() >= 8 ==> s[i + 4] == t[i + 4] && s[i + 5] == t[i + 5] && s[i + 6] == t[i + 6] && s[i + 7] == t[i + 7]);
    }
}

} // verus!
