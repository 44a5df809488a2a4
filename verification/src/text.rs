//! Text as sequences of characters: case, suffixes, decimal numbers, splitting,
//! and the parts of a slash-separated path.
use vstd::prelude::*;
use vstd::string::StringExecFns;

verus! {

/// `String::push` puts one character at the end of the string.
pub assume_specification[ String::push ](s: &mut String, c: char)
    ensures
        final(s)@ == old(s)@.push(c),
;

/// A text as `{:?}` of the standard library shows it: between double quotes, with
/// what does not print escaped.
pub uninterp spec fn quoted(s: Seq<char>) -> Seq<char>;

/// `{:?}` of the standard library's formatting: what is shown depends on the text
/// alone.
#[verifier::external_body]
pub(crate) fn quote(s: &str) -> (r: String)
    ensures
        r@ == quoted(s@),
{
    format!("{:?}", s)
}

/// The characters of `s`, in order.
pub fn chars_of(s: &str) -> (r: Vec<char>)
    ensures
        r@ == s@,
{
    let mut out: Vec<char> = Vec::new();
    for c in it: s.chars()
        invariant
            out@ == s@.take(it.index()),
            it.seq() == s@,
    {
        assert(s@.take(it.index() + 1) =~= s@.take(it.index()).push(s@[it.index()]));
        out.push(c);
    }
    assert(s@.take(s@.len() as int) =~= s@);
    out
}

/// The string made of `cs`.
pub fn string_of(cs: &[char]) -> (r: String)
    ensures
        r@ == cs@,
{
    let mut s = String::new();
    let mut i: usize = 0;
    while i < cs.len()
        invariant
            i <= cs.len(),
            s@ == cs@.take(i as int),
        decreases cs.len() - i,
    {
        s.push(cs[i]);
        i = i + 1;
        assert(cs@.take(i as int) =~= cs@.take(i - 1).push(cs@[i - 1]));
    }
    assert(cs@.take(i as int) =~= cs@);
    s
}

/// A copy of the characters from `from` up to `to`.
pub fn copy_chars(cs: &[char], from: usize, to: usize) -> (r: Vec<char>)
    requires
        from <= to <= cs.len(),
    ensures
        r@ == cs@.subrange(from as int, to as int),
{
    let mut v: Vec<char> = Vec::new();
    v.extend_from_slice(&cs[from..to]);
    assert(v@ =~= cs@.subrange(from as int, to as int));
    v
}

/// A copy of `s`.
pub fn copy_text(s: &str) -> (r: String)
    ensures
        r@ == s@,
{
    s.to_owned()
}

/// Two texts joined.
pub fn join2(a: &str, b: &str) -> (r: String)
    ensures
        r@ == a@ + b@,
{
    let mut s = a.to_owned();
    s.append(b);
    s
}

/// Whether two texts are the same.
pub fn same_text(a: &str, b: &str) -> (r: bool)
    ensures
        r == (a@ == b@),
{
    let x = chars_of(a);
    let y = chars_of(b);
    same_chars(&x, &y)
}

/// Whether two runs of characters are the same.
pub fn same_chars(x: &[char], y: &[char]) -> (r: bool)
    ensures
        r == (x@ == y@),
{
    if x.len() != y.len() {
        return false;
    }
    let mut i: usize = 0;
    while i < x.len()
        invariant
            i <= x.len(),
            x.len() == y.len(),
            forall|j: int| 0 <= j < i ==> x@[j] == y@[j],
        decreases x.len() - i,
    {
        if x[i] != y[i] {
            return false;
        }
        i = i + 1;
    }
    assert(x@ =~= y@);
    true
}

/// The text of an optional name.
pub open spec fn opt_text(o: Option<&str>) -> Option<Seq<char>> {
    match o {
        Some(s) => Some(s@),
        None => None,
    }
}

/// The text of an optional owned name.
pub open spec fn opt_string(o: Option<String>) -> Option<Seq<char>> {
    match o {
        Some(s) => Some(s@),
        None => None,
    }
}

/// `c` with an ASCII capital made small; other characters as they are.
pub open spec fn lower_char(c: char) -> char {
    if 'A' <= c <= 'Z' {
        ((c as u32) + 32) as char
    } else {
        c
    }
}

pub open spec fn lower_chars(s: Seq<char>) -> Seq<char> {
    Seq::new(s.len(), |i: int| lower_char(s[i]))
}

pub fn to_lower_char(c: char) -> (r: char)
    ensures
        r == lower_char(c),
{
    if 'A' <= c && c <= 'Z' {
        ((c as u8) + 32) as char
    } else {
        c
    }
}

/// `s` ends in `suffix`, ASCII capitals and small letters taken as equal.
pub open spec fn text_ends_any_case(s: Seq<char>, suffix: Seq<char>) -> bool {
    s.len() >= suffix.len() && lower_chars(s.skip(s.len() - suffix.len())) == lower_chars(suffix)
}

/// Whether `s` ends in `suffix`, ASCII letter case aside.
pub fn ends_any_case(s: &[char], suffix: &[char]) -> (r: bool)
    ensures
        r == text_ends_any_case(s@, suffix@),
{
    if s.len() < suffix.len() {
        return false;
    }
    let base: usize = s.len() - suffix.len();
    let ghost tail = s@.skip(base as int);
    let mut k: usize = 0;
    while k < suffix.len()
        invariant
            k <= suffix.len(),
            base + suffix.len() == s.len(),
            tail == s@.skip(base as int),
            forall|j: int| 0 <= j < k ==> lower_char(tail[j]) == lower_char(suffix@[j]),
        decreases suffix.len() - k,
    {
        if to_lower_char(s[base + k]) != to_lower_char(suffix[k]) {
            assert(lower_chars(tail)[k as int] != lower_chars(suffix@)[k as int]);
            return false;
        }
        k = k + 1;
    }
    assert(lower_chars(tail) =~= lower_chars(suffix@));
    true
}

/// A name that is there and ends in `suffix`, ASCII letter case aside.
pub open spec fn name_has_suffix(name: Option<Seq<char>>, suffix: Seq<char>) -> bool {
    name matches Some(n) && text_ends_any_case(n, suffix)
}

/// Whether the name is there and ends in `suffix`, ASCII letter case aside.
pub fn name_ends(name: Option<&str>, suffix: &str) -> (r: bool)
    ensures
        r == name_has_suffix(opt_text(name), suffix@),
{
    match name {
        Some(n) => {
            let a = chars_of(n);
            let b = chars_of(suffix);
            ends_any_case(&a, &b)
        },
        None => false,
    }
}

/// Whether `s` ends in `suffix` exactly.
pub open spec fn text_ends(s: Seq<char>, suffix: Seq<char>) -> bool {
    s.len() >= suffix.len() && s.skip(s.len() - suffix.len()) == suffix
}

/// Whether `s` begins with `prefix` exactly.
pub open spec fn text_begins(s: Seq<char>, prefix: Seq<char>) -> bool {
    s.len() >= prefix.len() && s.take(prefix.len() as int) == prefix
}

/// Whether `s` ends in `suffix` exactly.
pub fn ends_exactly(s: &[char], suffix: &[char]) -> (r: bool)
    ensures
        r == text_ends(s@, suffix@),
{
    if s.len() < suffix.len() {
        return false;
    }
    let tail = copy_chars(s, s.len() - suffix.len(), s.len());
    assert(tail@ =~= s@.skip(s@.len() - suffix@.len()));
    same_chars(&tail, suffix)
}

/// Whether `s` begins with `prefix` exactly.
pub fn begins_exactly(s: &[char], prefix: &[char]) -> (r: bool)
    ensures
        r == text_begins(s@, prefix@),
{
    if s.len() < prefix.len() {
        return false;
    }
    let head = copy_chars(s, 0, prefix.len());
    assert(head@ =~= s@.take(prefix@.len() as int));
    same_chars(&head, prefix)
}

/// The decimal digit of a number below ten.
pub open spec fn digit(n: nat) -> char {
    ((48 + n) as u8) as char
}

/// The decimal digits of `n`, without leading zeros.
pub open spec fn decimal(n: nat) -> Seq<char>
    decreases n,
{
    if n < 10 {
        seq![digit(n)]
    } else {
        decimal(n / 10).push(digit(n % 10))
    }
}

/// `n` in decimal.
pub fn decimal_text(n: u64) -> (r: String)
    ensures
        r@ == decimal(n as nat),
    decreases n,
{
    let last: u8 = (n % 10) as u8;
    let mut s = if n < 10 {
        String::new()
    } else {
        decimal_text(n / 10)
    };
    let d: char = (48 + last) as char;
    s.push(d);
    proof {
        assert(s@ =~= decimal(n as nat));
    }
    s
}

/// A decimal number has at least one digit.
pub proof fn decimal_is_not_empty(n: nat)
    ensures
        decimal(n).len() >= 1,
{
}

/// Different numbers have different decimal texts.
pub proof fn decimal_is_injective(a: nat, b: nat)
    requires
        decimal(a) == decimal(b),
    ensures
        a == b,
    decreases a,
{
    decimal_is_not_empty(a / 10);
    decimal_is_not_empty(b / 10);
    assert(decimal(a).last() == digit(a % 10)) by {
        if a < 10 {
            assert(a % 10 == a);
        }
    }
    assert(decimal(b).last() == digit(b % 10)) by {
        if b < 10 {
            assert(b % 10 == b);
        }
    }
    assert(a % 10 == b % 10);
    if a < 10 {
        assert(decimal(b).len() == 1);
        if b >= 10 {
            assert(decimal(b).len() == decimal(b / 10).len() + 1);
        }
    } else {
        assert(decimal(a).len() == decimal(a / 10).len() + 1);
        assert(b >= 10);
        assert(decimal(a).drop_last() =~= decimal(a / 10));
        assert(decimal(b).drop_last() =~= decimal(b / 10));
        decimal_is_injective(a / 10, b / 10);
    }
}

/// `s` cut at every `sep`. There is always at least one piece.
pub open spec fn split(s: Seq<char>, sep: char) -> Seq<Seq<char>>
    decreases s.len(),
{
    if s.len() == 0 {
        seq![Seq::<char>::empty()]
    } else {
        let rest = split(s.drop_last(), sep);
        if s.last() == sep {
            rest.push(Seq::<char>::empty())
        } else {
            rest.drop_last().push(rest.last().push(s.last()))
        }
    }
}

/// Cutting a text gives at least one piece.
pub proof fn split_is_not_empty(s: Seq<char>, sep: char)
    ensures
        split(s, sep).len() >= 1,
    decreases s.len(),
{
    if s.len() > 0 {
        split_is_not_empty(s.drop_last(), sep);
    }
}

/// The texts of a list of owned character runs.
pub open spec fn runs(v: Seq<Vec<char>>) -> Seq<Seq<char>> {
    v.map_values(|x: Vec<char>| x@)
}

/// `s` cut at every `sep`.
pub fn split_chars(s: &[char], sep: char) -> (r: Vec<Vec<char>>)
    ensures
        runs(r@) == split(s@, sep),
{
    let mut done: Vec<Vec<char>> = Vec::new();
    let mut cur: Vec<char> = Vec::new();
    let mut i: usize = 0;
    proof {
        assert(runs(done@).push(cur@) =~= split(s@.take(0), sep));
    }
    while i < s.len()
        invariant
            i <= s.len(),
            runs(done@).push(cur@) == split(s@.take(i as int), sep),
        decreases s.len() - i,
    {
        let c = s[i];
        let ghost before = split(s@.take(i as int), sep);
        let ghost d0 = done@;
        let ghost c0 = cur@;
        i = i + 1;
        proof {
            assert(s@.take(i as int).drop_last() =~= s@.take(i - 1));
            assert(s@.take(i as int).last() == c);
            assert(before.drop_last() =~= runs(d0));
            assert(before.last() == c0);
        }
        if c == sep {
            done.push(cur);
            cur = Vec::new();
            proof {
                assert(runs(done@) =~= runs(d0).push(c0));
                assert(runs(done@).push(cur@) =~= split(s@.take(i as int), sep));
            }
        } else {
            cur.push(c);
            proof {
                assert(runs(done@).push(cur@) =~= split(s@.take(i as int), sep));
            }
        }
    }
    let ghost d0 = done@;
    let ghost c0 = cur@;
    done.push(cur);
    proof {
        assert(runs(done@) =~= runs(d0).push(c0));
        assert(s@.take(i as int) =~= s@);
    }
    done
}

/// The pieces of `parts`, joined with `sep` between them.
pub open spec fn join(parts: Seq<Seq<char>>, sep: char) -> Seq<char>
    decreases parts.len(),
{
    if parts.len() == 0 {
        Seq::empty()
    } else if parts.len() == 1 {
        parts[0]
    } else {
        join(parts.drop_last(), sep).push(sep) + parts.last()
    }
}

/// The pieces of `parts`, joined with `sep` between them.
pub fn join_chars(parts: &Vec<Vec<char>>, sep: char) -> (r: Vec<char>)
    ensures
        r@ == join(runs(parts@), sep),
{
    let mut out: Vec<char> = Vec::new();
    let mut i: usize = 0;
    let ghost all = runs(parts@);
    while i < parts.len()
        invariant
            i <= parts.len(),
            all == runs(parts@),
            out@ == join(all.take(i as int), sep),
        decreases parts.len() - i,
    {
        let ghost before = out@;
        if i > 0 {
            out.push(sep);
        }
        out.extend_from_slice(parts[i].as_slice());
        i = i + 1;
        proof {
            assert(all.take(i as int).drop_last() =~= all.take(i - 1));
            assert(all.take(i as int).last() == parts@[i - 1]@);
            if i == 1 {
                assert(all.take(1)[0] == parts@[0]@);
                assert(before =~= Seq::<char>::empty());
                assert(out@ =~= parts@[0]@);
            } else {
                assert(out@ =~= before.push(sep) + parts@[i - 1]@);
            }
        }
    }
    proof {
        assert(all.take(i as int) =~= all);
    }
    out
}

/// Where the last `c` stands in `s`, or -1.
pub open spec fn last_index(s: Seq<char>, c: char) -> int
    decreases s.len(),
{
    if s.len() == 0 {
        -1
    } else if s.last() == c {
        s.len() - 1
    } else {
        last_index(s.drop_last(), c)
    }
}

/// Where the first `c` stands in `s`, or the length of `s`.
pub open spec fn first_index(s: Seq<char>, c: char) -> int
    decreases s.len(),
{
    if s.len() == 0 || s[0] == c {
        0
    } else {
        1 + first_index(s.skip(1), c)
    }
}

/// Where the last `c` stands in `s`.
pub fn find_last(s: &[char], c: char) -> (r: Option<usize>)
    ensures
        match r {
            Some(i) => i < s.len() && i == last_index(s@, c) && s@[i as int] == c,
            None => last_index(s@, c) == -1,
        },
{
    let mut n: usize = s.len();
    proof {
        assert(s@.take(n as int) =~= s@);
    }
    while n > 0
        invariant
            n <= s.len(),
            last_index(s@, c) == last_index(s@.take(n as int), c),
        decreases n,
    {
        proof {
            assert(s@.take(n as int).last() == s@[n - 1]);
            assert(s@.take(n as int).drop_last() =~= s@.take(n - 1));
        }
        if s[n - 1] == c {
            return Some(n - 1);
        }
        n = n - 1;
    }
    None
}

/// Where the first `c` stands in `s`, or the length of `s`.
pub fn find_first(s: &[char], c: char) -> (r: usize)
    ensures
        r == first_index(s@, c),
        r <= s.len(),
        r < s.len() ==> s@[r as int] == c,
        forall|j: int| 0 <= j < r ==> s@[j] != c,
{
    let mut i: usize = 0;
    assert(s@.skip(0) =~= s@);
    while i < s.len()
        invariant
            i <= s.len(),
            first_index(s@, c) == i + first_index(s@.skip(i as int), c),
            forall|j: int| 0 <= j < i ==> s@[j] != c,
        decreases s.len() - i,
    {
        if s[i] == c {
            return i;
        }
        assert(s@.skip(i as int).skip(1) =~= s@.skip(i + 1));
        i = i + 1;
    }
    i
}

/// A half of a pair of UTF-16 units.
pub open spec fn is_surrogate(u: u16) -> bool {
    0xD800 <= u <= 0xDFFF
}

/// The units `hi` and `lo` are a pair.
pub open spec fn is_pair(hi: u16, lo: u16) -> bool {
    0xD800 <= hi <= 0xDBFF && 0xDC00 <= lo <= 0xDFFF
}

/// The text of a sequence of UTF-16 units, or its first half without a partner.
pub open spec fn utf16_text(u: Seq<u16>) -> Result<Seq<char>, u16>
    decreases u.len(),
{
    if u.len() == 0 {
        Ok(Seq::empty())
    } else if !is_surrogate(u[0]) {
        match utf16_text(u.skip(1)) {
            Ok(t) => Ok(seq![u[0] as char] + t),
            Err(x) => Err(x),
        }
    } else if u.len() > 1 && is_pair(u[0], u[1]) {
        match utf16_text(u.skip(2)) {
            Ok(t) => Ok(seq![(0x10000 + (u[0] - 0xD800) * 0x400 + (u[1] - 0xDC00)) as char] + t),
            Err(x) => Err(x),
        }
    } else {
        Err(u[0])
    }
}

/// A number is the code point of a character.
pub open spec fn is_code_point(n: u32) -> bool {
    n <= 0xD7FF || 0xE000 <= n <= 0x10FFFF
}

/// `char::from_u32` gives the character of a code point, and nothing for any
/// other number.
pub assume_specification[ char::from_u32 ](i: u32) -> (r: Option<char>)
    ensures
        r == if is_code_point(i) { Some(i as char) } else { None },
;

/// What is read already, followed by what is still to come.
pub open spec fn after_text(done: Seq<char>, rest: Result<Seq<char>, u16>) -> Result<Seq<char>, u16> {
    match rest {
        Ok(t) => Ok(done + t),
        Err(x) => Err(x),
    }
}

/// The text of a sequence of UTF-16 units, or its first half without a partner.
pub fn utf16_to_text(u: &[u16]) -> (r: Result<String, u16>)
    ensures
        match r {
            Ok(s) => utf16_text(u@) == Ok::<Seq<char>, u16>(s@),
            Err(x) => utf16_text(u@) == Err::<Seq<char>, u16>(x),
        },
{
    let mut out = String::new();
    let mut i: usize = 0;
    proof {
        assert(u@.skip(0) =~= u@);
        assert(after_text(out@, utf16_text(u@)) == utf16_text(u@)) by {
            match utf16_text(u@) {
                Ok(t) => assert(out@ + t =~= t),
                Err(x) => {},
            }
        }
    }
    while i < u.len()
        invariant
            i <= u.len(),
            utf16_text(u@) == after_text(out@, utf16_text(u@.skip(i as int))),
        decreases u.len() - i,
    {
        let ghost rest = u@.skip(i as int);
        let ghost before = out@;
        let a: u16 = u[i];
        let paired = u.len() - i > 1 && 0xD800 <= a && a <= 0xDBFF && 0xDC00 <= u[i + 1] && u[i + 1] <= 0xDFFF;
        let code: u32 = if a < 0xD800 || a > 0xDFFF {
            a as u32
        } else if paired {
            0x10000 + (a as u32 - 0xD800) * 0x400 + (u[i + 1] as u32 - 0xDC00)
        } else {
            return Err(a);
        };
        match char::from_u32(code) {
            Some(c) => {
                out.push(c);
                let step: usize = if paired { 2 } else { 1 };
                proof {
                    assert(rest.skip(step as int) =~= u@.skip(i + step));
                    match utf16_text(u@.skip(i + step)) {
                        Ok(t) => assert(before + (seq![c] + t) =~= out@ + t),
                        Err(x) => {},
                    }
                }
                i = i + step;
            },
            None => {
                return Err(a);
            },
        }
    }
    proof {
        assert(out@ + Seq::<char>::empty() =~= out@);
    }
    Ok(out)
}

/// The hexadecimal digit of a number below sixteen.
pub open spec fn hex_digit(n: int) -> char {
    if n < 10 { ((48 + n) as u8) as char } else { ((87 + n) as u8) as char }
}

/// A number of four hexadecimal digits.
pub open spec fn hex4(n: u16) -> Seq<char> {
    seq![
        hex_digit(n as int / 4096),
        hex_digit(n as int / 256 % 16),
        hex_digit(n as int / 16 % 16),
        hex_digit(n as int % 16),
    ]
}

fn to_hex_digit(n: u16) -> (r: char)
    requires
        n < 16,
    ensures
        r == hex_digit(n as int),
{
    if n < 10 { (48 + n as u8) as char } else { (87 + n as u8) as char }
}

/// A number of four hexadecimal digits.
pub fn hex4_text(n: u16) -> (r: String)
    ensures
        r@ == hex4(n),
{
    let mut s = String::new();
    s.push(to_hex_digit(n / 4096));
    s.push(to_hex_digit(n / 256 % 16));
    s.push(to_hex_digit(n / 16 % 16));
    s.push(to_hex_digit(n % 16));
    assert(s@ =~= hex4(n));
    s
}

/// A number of eight hexadecimal digits, with `0x` before them.
pub open spec fn hex8(n: u32) -> Seq<char> {
    "0x"@ + hex4((n / 65536) as u16) + hex4((n % 65536) as u16)
}

/// A number of eight hexadecimal digits, with `0x` before them.
pub fn hex8_text(n: u32) -> (r: String)
    ensures
        r@ == hex8(n),
{
    let a = hex4_text((n / 65536) as u16);
    let b = hex4_text((n % 65536) as u16);
    "0x".to_owned().concat(a.as_str()).concat(b.as_str())
}

/// `s` without the run of `c` at its end.
pub open spec fn without_trailing(s: Seq<char>, c: char) -> Seq<char>
    decreases s.len(),
{
    if s.len() > 0 && s.last() == c {
        without_trailing(s.drop_last(), c)
    } else {
        s
    }
}

/// `s` without the run of `c` at its end.
pub fn trim_end_char(s: &[char], c: char) -> (r: Vec<char>)
    ensures
        r@ == without_trailing(s@, c),
{
    let mut n: usize = s.len();
    assert(s@.take(n as int) =~= s@);
    while n > 0 && s[n - 1] == c
        invariant
            n <= s.len(),
            without_trailing(s@, c) == without_trailing(s@.take(n as int), c),
        decreases n,
    {
        proof {
            assert(s@.take(n as int).last() == s@[n - 1]);
            assert(s@.take(n as int).drop_last() =~= s@.take(n - 1));
        }
        n = n - 1;
    }
    proof {
        if n > 0 {
            assert(s@.take(n as int).last() == s@[n - 1]);
        }
    }
    let v = copy_chars(s, 0, n);
    assert(v@ =~= s@.take(n as int));
    v
}

/// `s` without `prefix` at its start, where it is there.
pub open spec fn without_prefix(s: Seq<char>, prefix: Seq<char>) -> Seq<char> {
    if text_begins(s, prefix) {
        s.skip(prefix.len() as int)
    } else {
        s
    }
}

/// `s` without `prefix` at its start, where it is there.
pub fn strip_prefix(s: &[char], prefix: &str) -> (r: Vec<char>)
    ensures
        r@ == without_prefix(s@, prefix@),
{
    let p = chars_of(prefix);
    if begins_exactly(s, &p) {
        let v = copy_chars(s, p.len(), s.len());
        assert(v@ =~= s@.skip(p@.len() as int));
        v
    } else {
        let v = copy_chars(s, 0, s.len());
        assert(v@ =~= s@);
        v
    }
}

/// White space, as Unicode has it.
pub open spec fn is_white(c: char) -> bool {
    let n = c as u32;
    ||| 0x09 <= n <= 0x0D
    ||| n == 0x20
    ||| n == 0x85
    ||| n == 0xA0
    ||| n == 0x1680
    ||| 0x2000 <= n <= 0x200A
    ||| n == 0x2028
    ||| n == 0x2029
    ||| n == 0x202F
    ||| n == 0x205F
    ||| n == 0x3000
}

fn white(c: char) -> (r: bool)
    ensures
        r == is_white(c),
{
    let n: u32 = c as u32;
    (0x09 <= n && n <= 0x0D) || n == 0x20 || n == 0x85 || n == 0xA0 || n == 0x1680 || (0x2000 <= n && n <= 0x200A)
        || n == 0x2028 || n == 0x2029 || n == 0x202F || n == 0x205F || n == 0x3000
}

/// `s` without the white space that leads it.
pub open spec fn without_leading_white(s: Seq<char>) -> Seq<char>
    decreases s.len(),
{
    if s.len() > 0 && is_white(s[0]) { without_leading_white(s.skip(1)) } else { s }
}

/// `s` without the white space at its end.
pub open spec fn without_trailing_white(s: Seq<char>) -> Seq<char>
    decreases s.len(),
{
    if s.len() > 0 && is_white(s.last()) { without_trailing_white(s.drop_last()) } else { s }
}

/// `s` without white space on either side.
pub open spec fn without_white(s: Seq<char>) -> Seq<char> {
    without_trailing_white(without_leading_white(s))
}

/// `s` without the white space at its end.
pub fn trim_end_white(s: &[char]) -> (r: Vec<char>)
    ensures
        r@ == without_trailing_white(s@),
{
    let mut to: usize = s.len();
    assert(s@.take(to as int) =~= s@);
    while to > 0 && white(s[to - 1])
        invariant
            to <= s.len(),
            without_trailing_white(s@) == without_trailing_white(s@.take(to as int)),
        decreases to,
    {
        assert(s@.take(to as int).drop_last() =~= s@.take(to - 1));
        to = to - 1;
    }
    let r = copy_chars(s, 0, to);
    assert(r@ =~= s@.take(to as int));
    r
}

/// `s` without white space on either side.
pub fn trim_white(s: &[char]) -> (r: Vec<char>)
    ensures
        r@ == without_white(s@),
{
    let mut from: usize = 0;
    assert(s@.skip(0) =~= s@);
    while from < s.len() && white(s[from])
        invariant
            from <= s.len(),
            without_leading_white(s@) == without_leading_white(s@.skip(from as int)),
        decreases s.len() - from,
    {
        assert(s@.skip(from as int).skip(1) =~= s@.skip(from + 1));
        from = from + 1;
    }
    let mut to: usize = s.len();
    let ghost rest = s@.skip(from as int);
    assert(without_leading_white(s@) == rest);
    assert(s@.subrange(from as int, to as int) =~= rest);
    while to > from && white(s[to - 1])
        invariant
            from <= to <= s.len(),
            without_trailing_white(rest) == without_trailing_white(s@.subrange(from as int, to as int)),
        decreases to,
    {
        proof {
            let now = s@.subrange(from as int, to as int);
            assert(now.last() == s@[to - 1]);
            assert(now.drop_last() =~= s@.subrange(from as int, to - 1));
        }
        to = to - 1;
    }
    proof {
        let now = s@.subrange(from as int, to as int);
        if to > from {
            assert(now.last() == s@[to - 1]);
        }
    }
    copy_chars(s, from, to)
}

/// No piece of `parts` holds `sep`.
pub open spec fn free_of(parts: Seq<Seq<char>>, sep: char) -> bool {
    forall|i: int| 0 <= i < parts.len() ==> !(#[trigger] parts[i]).contains(sep)
}

/// Cutting a text that holds no separator leaves it whole.
pub proof fn split_of_one(s: Seq<char>, sep: char)
    requires
        !s.contains(sep),
    ensures
        split(s, sep) == seq![s],
    decreases s.len(),
{
    if s.len() > 0 {
        let t = s.drop_last();
        assert(!t.contains(sep)) by {
            if t.contains(sep) {
                let i = choose|i: int| 0 <= i < t.len() && t[i] == sep;
                assert(s[i] == sep);
            }
        }
        split_of_one(t, sep);
        assert(s.last() != sep) by {
            assert(s[s.len() - 1] == s.last());
        }
        assert(t.push(s.last()) =~= s);
        assert(split(s, sep) =~= seq![s]);
    } else {
        assert(s =~= Seq::<char>::empty());
        assert(split(s, sep) =~= seq![s]);
    }
}

/// Text behind a separator is cut off as one piece.
proof fn split_of_last(head: Seq<char>, s: Seq<char>, sep: char)
    requires
        !s.contains(sep),
    ensures
        split(head.push(sep) + s, sep) == split(head, sep).push(s),
    decreases s.len(),
{
    let all = head.push(sep) + s;
    if s.len() == 0 {
        assert(all =~= head.push(sep));
        assert(all.drop_last() =~= head);
        assert(s =~= Seq::<char>::empty());
    } else {
        let t = s.drop_last();
        assert(!t.contains(sep)) by {
            if t.contains(sep) {
                let i = choose|i: int| 0 <= i < t.len() && t[i] == sep;
                assert(s[i] == sep);
            }
        }
        split_of_last(head, t, sep);
        assert(all.drop_last() =~= head.push(sep) + t);
        assert(s.last() != sep) by {
            assert(s[s.len() - 1] == s.last());
        }
        let rest = split(head, sep).push(t);
        assert(rest.drop_last() =~= split(head, sep));
        assert(t.push(s.last()) =~= s);
        assert(split(all, sep) =~= split(head, sep).push(s));
    }
}

/// Cutting what was joined gives the pieces back, if none of them holds the
/// separator.
pub proof fn split_undoes_join(parts: Seq<Seq<char>>, sep: char)
    requires
        parts.len() > 0,
        free_of(parts, sep),
    ensures
        split(join(parts, sep), sep) == parts,
    decreases parts.len(),
{
    if parts.len() == 1 {
        split_of_one(parts[0], sep);
        assert(parts =~= seq![parts[0]]);
    } else {
        let init = parts.drop_last();
        assert(free_of(init, sep)) by {
            assert forall|i: int| 0 <= i < init.len() implies !(#[trigger] init[i]).contains(sep) by {
                assert(init[i] == parts[i]);
            }
        }
        split_undoes_join(init, sep);
        assert(!parts.last().contains(sep)) by {
            assert(parts[parts.len() - 1] == parts.last());
        }
        split_of_last(join(init, sep), parts.last(), sep);
        assert(init.push(parts.last()) =~= parts);
    }
}

/// The pieces of a cut text hold no separator.
pub proof fn pieces_are_free(s: Seq<char>, sep: char)
    ensures
        free_of(split(s, sep), sep),
        split(s, sep).len() >= 1,
    decreases s.len(),
{
    let pieces = split(s, sep);
    if s.len() > 0 {
        let rest = split(s.drop_last(), sep);
        pieces_are_free(s.drop_last(), sep);
        assert forall|i: int| 0 <= i < pieces.len() implies !(#[trigger] pieces[i]).contains(sep) by {
            if s.last() == sep {
                if i < rest.len() {
                    assert(pieces[i] == rest[i]);
                }
            } else if i < rest.len() - 1 {
                assert(pieces[i] == rest[i]);
            } else {
                assert(!rest[rest.len() - 1].contains(sep));
                let p = rest.last().push(s.last());
                assert(pieces[i] == p);
                if p.contains(sep) {
                    let k = choose|k: int| 0 <= k < p.len() && p[k] == sep;
                    if k < rest.last().len() {
                        assert(rest.last()[k] == sep);
                    }
                }
            }
        }
    }
}

/// Joining the pieces of a cut text gives the text back.
pub proof fn join_undoes_split(s: Seq<char>, sep: char)
    ensures
        join(split(s, sep), sep) == s,
    decreases s.len(),
{
    let pieces = split(s, sep);
    if s.len() == 0 {
        assert(pieces.len() == 1);
        assert(s =~= Seq::<char>::empty());
    } else {
        let t = s.drop_last();
        let rest = split(t, sep);
        join_undoes_split(t, sep);
        split_is_not_empty(t, sep);
        if s.last() == sep {
            assert(pieces.drop_last() =~= rest);
            assert(pieces.last() =~= Seq::<char>::empty());
            assert(join(rest, sep).push(sep) + Seq::<char>::empty() =~= s);
        } else {
            assert(pieces.last() == rest.last().push(s.last()));
            assert(pieces.drop_last() =~= rest.drop_last());
            if rest.len() == 1 {
                assert(pieces[0] =~= s);
            } else {
                let init = join(rest.drop_last(), sep).push(sep);
                assert(init + rest.last().push(s.last()) =~= (init + rest.last()).push(s.last()));
                assert(t.push(s.last()) =~= s);
            }
        }
    }
}

/// What is found from the end is the last of its kind.
pub proof fn last_index_is_last(s: Seq<char>, c: char)
    ensures
        -1 <= last_index(s, c) < s.len(),
        last_index(s, c) >= 0 ==> s[last_index(s, c)] == c,
        forall|k: int| last_index(s, c) < k < s.len() ==> s[k] != c,
    decreases s.len(),
{
    if s.len() > 0 && s.last() != c {
        let t = s.drop_last();
        last_index_is_last(t, c);
        assert forall|k: int| last_index(s, c) < k < s.len() implies s[k] != c by {
            if k < t.len() {
                assert(t[k] != c);
            }
        }
    }
}

/// What is found from the start is the first of its kind.
pub proof fn first_index_is_first(s: Seq<char>, c: char)
    ensures
        0 <= first_index(s, c) <= s.len(),
        first_index(s, c) < s.len() ==> s[first_index(s, c)] == c,
        forall|k: int| 0 <= k < first_index(s, c) ==> s[k] != c,
    decreases s.len(),
{
    if s.len() > 0 && s[0] != c {
        let t = s.skip(1);
        first_index_is_first(t, c);
        assert forall|k: int| 0 <= k < first_index(s, c) implies s[k] != c by {
            if k > 0 {
                assert(t[k - 1] != c);
            }
        }
    }
}

/// The value of decimal digits.
pub open spec fn value_of_digits(t: Seq<char>) -> int
    decreases t.len(),
{
    if t.len() == 0 {
        0
    } else {
        10 * value_of_digits(t.drop_last()) + (t.last() as u32 - '0' as u32)
    }
}

/// A decimal text is made of digits, begins with no needless zero, and has the value that
/// it was made of.
pub proof fn decimal_reads_back(n: nat)
    ensures
        value_of_digits(decimal(n)) == n,
        forall|k: int| 0 <= k < decimal(n).len() ==> '0' <= #[trigger] decimal(n)[k] <= '9',
        n > 0 ==> decimal(n)[0] != '0',
    decreases n,
{
    if n < 10 {
        assert(decimal(n).drop_last() =~= Seq::<char>::empty());
        assert(value_of_digits(decimal(n).drop_last()) == 0);
    } else {
        decimal_reads_back(n / 10);
        decimal_is_not_empty(n / 10);
        assert(decimal(n).drop_last() =~= decimal(n / 10));
        assert forall|k: int| 0 <= k < decimal(n).len() implies '0' <= #[trigger] decimal(n)[k] <= '9' by {
            if k < decimal(n / 10).len() {
                assert(decimal(n)[k] == decimal(n / 10)[k]);
            }
        }
        assert(decimal(n)[0] == decimal(n / 10)[0]);
    }
}

/// The value of a hexadecimal digit in small letters.
pub open spec fn hex_value(c: char) -> int {
    if '0' <= c <= '9' {
        c as u32 - '0' as u32
    } else {
        10 + (c as u32 - 'a' as u32)
    }
}

/// Four hexadecimal digits, the highest first, have the value that they were made of.
#[verifier::rlimit(40)]
pub proof fn hex_reads_back(n: u16)
    ensures
        hex4(n).len() == 4,
        forall|k: int|
            0 <= k < 4 ==> ('0' <= #[trigger] hex4(n)[k] <= '9' || 'a' <= hex4(n)[k] <= 'f'),
        0x1000 * hex_value(hex4(n)[0]) + 0x100 * hex_value(hex4(n)[1]) + 0x10 * hex_value(hex4(n)[2]) + hex_value(
            hex4(n)[3],
        ) == n,
{
    assert forall|k: int| 0 <= k < 16 implies hex_value(#[trigger] hex_digit(k)) == k && ('0' <= hex_digit(k) <= '9'
        || 'a' <= hex_digit(k) <= 'f') by {}
}

/// The units that UTF-16 has for a character: one, or a pair for one beyond the first
/// 65536.
pub open spec fn units_of(c: char) -> Seq<u16> {
    let n = c as u32;
    if n < 0x10000 {
        seq![n as u16]
    } else {
        seq![(0xD800 + (n - 0x10000) / 0x400) as u16, (0xDC00 + (n - 0x10000) % 0x400) as u16]
    }
}

/// The units of a text.
pub open spec fn units_of_text(t: Seq<char>) -> Seq<u16>
    decreases t.len(),
{
    if t.len() == 0 {
        Seq::empty()
    } else {
        units_of(t[0]) + units_of_text(t.skip(1))
    }
}

proof fn characters_are_code_points(c: char)
    ensures
        is_code_point(c as u32),
        (c as u32) < 0x10000 ==> (c as u32) as u16 as char == c,
        (c as u32) as char == c,
{
}

/// A text that is stored in UTF-16 reads back.
#[verifier::rlimit(40)]
pub proof fn utf16_reads_back(t: Seq<char>)
    ensures
        utf16_text(units_of_text(t)) == Ok::<Seq<char>, u16>(t),
    decreases t.len(),
{
    let u = units_of_text(t);
    if t.len() == 0 {
        assert(t =~= Seq::<char>::empty());
    } else {
        let c = t[0];
        let n = c as u32;
        let rest = units_of_text(t.skip(1));
        utf16_reads_back(t.skip(1));
        characters_are_code_points(c);
        assert(seq![c] + t.skip(1) =~= t);
        if n < 0x10000 {
            assert(u[0] == n as u16);
            assert(u.skip(1) =~= rest);
            assert(u[0] as char == c);
        } else {
            assert(u[0] == (0xD800 + (n - 0x10000) / 0x400) as u16);
            assert(u[1] == (0xDC00 + (n - 0x10000) % 0x400) as u16);
            assert(u.skip(2) =~= rest);
            assert(0x10000 + (u[0] - 0xD800) * 0x400 + (u[1] - 0xDC00) == n);
        }
    }
}

/// Half of a pair by itself is no text, whatever stands before it.
#[verifier::rlimit(40)]
pub proof fn lone_half_is_refused(t: Seq<char>, half: u16, rest: Seq<u16>)
    requires
        0xD800 <= half <= 0xDFFF,
        half >= 0xDC00 || rest.len() == 0 || !(0xDC00 <= rest[0] <= 0xDFFF),
    ensures
        utf16_text(units_of_text(t) + seq![half] + rest) == Err::<Seq<char>, u16>(half),
    decreases t.len(),
{
    let u = units_of_text(t) + seq![half] + rest;
    if t.len() == 0 {
        assert(u[0] == half);
        if u.len() > 1 {
            assert(u[1] == rest[0]);
        }
    } else {
        lone_half_is_refused(t.skip(1), half, rest);
        let n = t[0] as u32;
        characters_are_code_points(t[0]);
        let later = units_of_text(t.skip(1)) + seq![half] + rest;
        if n < 0x10000 {
            assert(u[0] == n as u16);
            assert(u.skip(1) =~= later);
        } else {
            assert(u[0] == (0xD800 + (n - 0x10000) / 0x400) as u16);
            assert(u[1] == (0xDC00 + (n - 0x10000) % 0x400) as u16);
            assert(u.skip(2) =~= later);
        }
    }
}

/// A run of one character at the end of a text is dropped, and nothing else.
pub proof fn run_at_end_is_dropped(core: Seq<char>, c: char, n: nat)
    requires
        core.len() == 0 || core.last() != c,
    ensures
        without_trailing(core + Seq::new(n, |k: int| c), c) == core,
    decreases n,
{
    let all = core + Seq::new(n, |k: int| c);
    if n == 0 {
        assert(all =~= core);
    } else {
        assert(all.drop_last() =~= core + Seq::new((n - 1) as nat, |k: int| c));
        run_at_end_is_dropped(core, c, (n - 1) as nat);
    }
}

/// White space around a text is dropped, and nothing else.
pub proof fn white_around_is_dropped(before: Seq<char>, core: Seq<char>, behind: Seq<char>)
    requires
        forall|k: int| 0 <= k < before.len() ==> is_white(#[trigger] before[k]),
        forall|k: int| 0 <= k < behind.len() ==> is_white(#[trigger] behind[k]),
        core.len() > 0 ==> !is_white(core[0]) && !is_white(core.last()),
    ensures
        without_white(before + core + behind) == core,
    decreases before.len() + behind.len(),
{
    let all = before + core + behind;
    if core.len() == 0 && behind.len() > 0 {
        let more = before + behind;
        assert forall|k: int| 0 <= k < more.len() implies is_white(#[trigger] more[k]) by {
            if k >= before.len() {
                assert(is_white(behind[k - before.len()]));
            }
        }
        assert(all =~= more);
        all_white_is_dropped(more);
        assert(core =~= Seq::<char>::empty());
    } else if before.len() > 0 {
        let less = before.skip(1);
        assert forall|k: int| 0 <= k < less.len() implies is_white(#[trigger] less[k]) by {
            assert(is_white(before[k + 1]));
        }
        assert(is_white(before[0]));
        white_around_is_dropped(less, core, behind);
        assert(all.skip(1) =~= less + core + behind);
        assert(all[0] == before[0]);
    } else {
        assert(all =~= core + behind);
        if core.len() > 0 {
            assert(all[0] == core[0]);
            white_behind_is_dropped(core, behind);
        } else {
            assert(all =~= core);
        }
    }
}

proof fn all_white_is_dropped(s: Seq<char>)
    requires
        forall|k: int| 0 <= k < s.len() ==> is_white(#[trigger] s[k]),
    ensures
        without_leading_white(s) == Seq::<char>::empty(),
        without_white(s) == Seq::<char>::empty(),
    decreases s.len(),
{
    if s.len() > 0 {
        let t = s.skip(1);
        assert forall|k: int| 0 <= k < t.len() implies is_white(#[trigger] t[k]) by {
            assert(is_white(s[k + 1]));
        }
        assert(is_white(s[0]));
        all_white_is_dropped(t);
    } else {
        assert(s =~= Seq::<char>::empty());
    }
}

proof fn white_behind_is_dropped(core: Seq<char>, behind: Seq<char>)
    requires
        forall|k: int| 0 <= k < behind.len() ==> is_white(#[trigger] behind[k]),
        core.len() > 0 && !is_white(core.last()),
    ensures
        without_trailing_white(core + behind) == core,
    decreases behind.len(),
{
    let all = core + behind;
    if behind.len() == 0 {
        assert(all =~= core);
    } else {
        let t = behind.drop_last();
        assert forall|k: int| 0 <= k < t.len() implies is_white(#[trigger] t[k]) by {
            assert(is_white(behind[k]));
        }
        assert(is_white(behind[behind.len() - 1]));
        white_behind_is_dropped(core, t);
        assert(all.drop_last() =~= core + t);
    }
}

/// Two characters count as the same letter.
pub open spec fn same_letter(a: char, b: char) -> bool {
    a == b || ('A' <= a <= 'Z' && b as u32 == a as u32 + ('a' as u32 - 'A' as u32)) || ('A' <= b <= 'Z' && a as u32 == b as u32
        + ('a' as u32 - 'A' as u32))
}

/// An ending is found in whatever case its letters and those of the text stand, and only
/// where the letters are the same.
#[verifier::rlimit(40)]
pub proof fn endings_go_by_letters(s: Seq<char>, suffix: Seq<char>)
    ensures
        text_ends_any_case(s, suffix) == (s.len() >= suffix.len() && forall|k: int|
            0 <= k < suffix.len() ==> same_letter(s[s.len() - suffix.len() + k], #[trigger] suffix[k])),
{
    if s.len() >= suffix.len() {
        let tail = s.skip(s.len() - suffix.len());
        if lower_chars(tail) == lower_chars(suffix) {
            assert forall|k: int| 0 <= k < suffix.len() implies same_letter(
                s[s.len() - suffix.len() + k],
                #[trigger] suffix[k],
            ) by {
                assert(lower_chars(tail)[k] == lower_chars(suffix)[k]);
                assert(tail[k] == s[s.len() - suffix.len() + k]);
                letters_fold(tail[k], suffix[k]);
            }
        } else if forall|k: int|
            0 <= k < suffix.len() ==> same_letter(s[s.len() - suffix.len() + k], #[trigger] suffix[k]) {
            assert(lower_chars(tail) =~= lower_chars(suffix)) by {
                assert forall|k: int| 0 <= k < suffix.len() implies lower_char(tail[k]) == lower_char(#[trigger] suffix[k]) by {
                    assert(tail[k] == s[s.len() - suffix.len() + k]);
                    letters_fold(tail[k], suffix[k]);
                }
            }
        }
    }
}

proof fn letters_fold(a: char, b: char)
    ensures
        (lower_char(a) == lower_char(b)) == same_letter(a, b),
{
}

} // verus!
