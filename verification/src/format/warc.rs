//! Web archives: HTTP exchanges, one record each.
use vstd::hash_map::StringHashMap;
use vstd::hash_set::StringHashSet;
use vstd::prelude::*;
use vstd::utf8;

use std::io::Read;

use crate::archive;
use crate::bytes;
use crate::datetime;
use crate::decompress;
use crate::error;
use crate::format::stored;
use crate::paths;
use crate::text;
use crate::archive::KindView;
use crate::archive::{Confidence, Entry, EntryKind, EntryView, FormatHandler, FormatId, Source};
use crate::bytes::{copy_bytes, equal_any_case, found_at, parse_digits, starts_with};
use crate::encoding::{is_utf8, text_lossy};
use crate::datetime::{civil_to_systime, CivilTime, Stamp, Timestamp};
use crate::decompress::decode_gzip;
use crate::error::{Error, ErrorView, IoKind};
use crate::format::stored::{Body, StoredReader};
use crate::paths::{goes_up, is_name, path_file_name};
use crate::text::{chars_of, copy_chars, copy_text, decimal_text, ends_any_case, find_first};
use crate::text::{join2, join_chars, name_ends, same_text};
use crate::text::{split_chars, string_of, trim_white};

verus! {

/// How a web archive begins.
pub const WARC_MAGIC: [u8; 7] = [0x57, 0x41, 0x52, 0x43, 0x2F, 0x31, 0x2E];

/// The end of an HTTP header.
pub const HEADER_END: [u8; 4] = [0x0D, 0x0A, 0x0D, 0x0A];

/// What follows the first `://`, looking from `from` on; all of it where there
/// is none.
pub open spec fn after_scheme(uri: Seq<char>, from: int) -> Seq<char>
    decreases uri.len() - from,
{
    if from < 0 || from + 3 > uri.len() {
        uri
    } else if uri[from] == ':' && uri[from + 1] == '/' && uri[from + 2] == '/' {
        uri.skip(from + 3)
    } else {
        after_scheme(uri, from + 1)
    }
}

/// `s` up to the first `c`.
pub open spec fn up_to(s: Seq<char>, c: char) -> Seq<char> {
    s.take(text::first_index(s, c))
}

/// A piece that goes up becomes one that does not.
pub open spec fn tame(p: Seq<char>) -> Seq<char> {
    if p == seq!['.', '.'] { seq!['_'] } else { p }
}

/// The pieces of the path that stands for a URI.
pub open spec fn uri_pieces(uri: Seq<char>) -> Seq<Seq<char>> {
    paths::kept(text::split(up_to(up_to(after_scheme(uri, 0), '?'), '#'), '/')).map_values(|p: Seq<char>| tame(p))
}

/// The path that stands for a URI: without scheme, query and fragment.
pub open spec fn uri_path(uri: Seq<char>) -> Seq<char> {
    let pieces = uri_pieces(uri);
    if pieces.len() == 0 { "index"@ } else { text::join(pieces, '/') }
}

fn cut_scheme(uri: &[char]) -> (r: Vec<char>)
    ensures
        r@ == after_scheme(uri@, 0),
{
    let mut i: usize = 0;
    while uri.len() >= 3 && i <= uri.len() - 3
        invariant
            i <= uri.len(),
            after_scheme(uri@, 0) == after_scheme(uri@, i as int),
        decreases uri.len() - i,
    {
        if uri[i] == ':' && uri[i + 1] == '/' && uri[i + 2] == '/' {
            let r = copy_chars(uri, i + 3, uri.len());
            assert(r@ =~= uri@.skip(i + 3));
            return r;
        }
        i = i + 1;
    }
    let r = copy_chars(uri, 0, uri.len());
    assert(r@ =~= uri@);
    r
}

fn cut_at(s: &[char], c: char) -> (r: Vec<char>)
    ensures
        r@ == up_to(s@, c),
{
    let end: usize = find_first(s, c);
    let r = copy_chars(s, 0, end);
    assert(r@ =~= up_to(s@, c));
    r
}

/// The path that stands for a URI.
pub fn uri_to_path(uri: &str) -> (r: String)
    ensures
        r@ == uri_path(uri@),
{
    let all = chars_of(uri);
    let plain = cut_scheme(all.as_slice());
    let no_query = cut_at(plain.as_slice(), '?');
    let no_fragment = cut_at(no_query.as_slice(), '#');
    let parts = split_chars(no_fragment.as_slice(), '/');
    let ghost pieces = text::runs(parts@);
    let mut out: Vec<Vec<char>> = Vec::new();
    let mut i: usize = 0;
    let ghost want = |n: int| paths::kept(pieces.take(n)).map_values(|p: Seq<char>| tame(p));
    proof {
        assert(pieces.take(0) =~= Seq::<Seq<char>>::empty());
        assert(text::runs(out@) =~= want(0));
    }
    while i < parts.len()
        invariant
            i <= parts.len(),
            pieces == text::runs(parts@),
            want == (|n: int| paths::kept(pieces.take(n)).map_values(|p: Seq<char>| tame(p))),
            text::runs(out@) == want(i as int),
        decreases parts.len() - i,
    {
        let p = &parts[i];
        let ghost before = paths::kept(pieces.take(i as int));
        proof {
            assert(pieces[i as int] == p@);
            assert(pieces.take(i + 1).drop_last() =~= pieces.take(i as int));
            assert(pieces.take(i + 1).last() == p@);
        }
        if is_name(p) {
            let piece = if goes_up(p) {
                let mut one: Vec<char> = Vec::new();
                one.push('_');
                assert(one@ =~= seq!['_']);
                one
            } else {
                let same = copy_chars(p.as_slice(), 0, p.len());
                assert(same@ =~= p@);
                same
            };
            let ghost was = text::runs(out@);
            out.push(piece);
            proof {
                assert(text::runs(out@) =~= was.push(piece@));
                assert(paths::kept(pieces.take(i + 1)) == before.push(p@));
                assert(before.push(p@).map_values(|q: Seq<char>| tame(q)) =~= was.push(piece@));
            }
        }
        i = i + 1;
    }
    proof {
        assert(pieces.take(i as int) =~= pieces);
        assert(text::runs(out@) == uri_pieces(uri@));
    }
    if out.len() == 0 {
        copy_text("index")
    } else {
        let joined = join_chars(&out, '/');
        string_of(joined.as_slice())
    }
}

/// What is kept of pieces are pieces among them, each naming something.
proof fn kept_are_pieces(parts: Seq<Seq<char>>, sep: char)
    requires
        text::free_of(parts, sep),
    ensures
        text::free_of(paths::kept(parts), sep),
        forall|i: int| 0 <= i < paths::kept(parts).len() ==> paths::names_something(#[trigger] paths::kept(parts)[i]),
    decreases parts.len(),
{
    if parts.len() > 0 {
        let init = parts.drop_last();
        assert(text::free_of(init, sep)) by {
            assert forall|i: int| 0 <= i < init.len() implies !(#[trigger] init[i]).contains(sep) by {
                assert(init[i] == parts[i]);
            }
        }
        kept_are_pieces(init, sep);
        assert(!parts[parts.len() - 1].contains(sep));
        let k = paths::kept(parts);
        assert forall|i: int| 0 <= i < k.len() implies !(#[trigger] k[i]).contains(sep) && paths::names_something(k[i]) by {
            if i < paths::kept(init).len() {
                assert(k[i] == paths::kept(init)[i]);
            }
        }
    }
}

/// The path that stands for a URI stays below where it is put: cut at its
/// slashes, every piece names something and none goes up.
pub proof fn uri_path_is_safe(uri: Seq<char>)
    ensures
        ({
            let pieces = text::split(uri_path(uri), '/');
            forall|i: int|
                0 <= i < pieces.len() ==> paths::names_something(#[trigger] pieces[i]) && pieces[i] != seq!['.', '.']
        }),
{
    let plain = up_to(up_to(after_scheme(uri, 0), '?'), '#');
    text::pieces_are_free(plain, '/');
    let cut = text::split(plain, '/');
    kept_are_pieces(cut, '/');
    let names = paths::kept(cut);
    let pieces = uri_pieces(uri);
    assert forall|i: int| 0 <= i < pieces.len() implies !(#[trigger] pieces[i]).contains('/') && paths::names_something(
        pieces[i],
    ) && pieces[i] != seq!['.', '.'] by {
        assert(pieces[i] == tame(names[i]));
        assert(!names[i].contains('/'));
        assert(paths::names_something(names[i]));
        assert(seq!['_'][0] == '_');
        assert(seq!['.'][0] == '.');
        assert(seq!['.', '.'].len() == 2);
    }
    if pieces.len() > 0 {
        text::split_undoes_join(pieces, '/');
    } else {
        reveal_strlit("index");
        let word = "index"@;
        assert(!word.contains('/'));
        text::split_of_one(word, '/');
        assert(word.len() == 5);
        assert(text::split(word, '/')[0] == word);
    }
}

/// What follows the first end of an HTTP header, looking from `from` on; all of
/// the body where there is none.
pub open spec fn payload_from(body: Seq<u8>, from: int) -> Seq<u8>
    decreases body.len() - from,
{
    if from < 0 || from + 4 > body.len() {
        body
    } else if bytes::stands_at(body, from, HEADER_END@) {
        body.skip(from + 4)
    } else {
        payload_from(body, from + 1)
    }
}

/// What follows the HTTP header of a response.
pub fn strip_http_headers(body: &[u8]) -> (r: &[u8])
    ensures
        r@ == payload_from(body@, 0),
{
    let mut i: usize = 0;
    while body.len() >= 4 && i <= body.len() - 4
        invariant
            i <= body.len(),
            payload_from(body@, 0) == payload_from(body@, i as int),
        decreases body.len() - i,
    {
        if found_at(body, i, &HEADER_END) {
            let r: &[u8] = &body[i + 4..body.len()];
            assert(r@ =~= body@.skip(i + 4));
            return r;
        }
        i = i + 1;
    }
    body
}

/// The number that some bytes spell: digits behind an optional sign, a minus
/// only where `signed`.
pub open spec fn spelled(s: Seq<u8>, signed: bool) -> Option<int> {
    if s.len() == 0 {
        None
    } else if s[0] == 0x2B || (signed && s[0] == 0x2D) {
        if s.len() == 1 {
            None
        } else {
            match bytes::digits_value(s.skip(1)) {
                Some(v) => Some(if s[0] == 0x2D { -v } else { v }),
                None => None,
            }
        }
    } else {
        bytes::digits_value(s)
    }
}

/// A number out of at most four bytes.
fn parse_short(s: &[u8], signed: bool) -> (r: Option<i32>)
    requires
        s.len() <= 4,
    ensures
        match r {
            Some(v) => spelled(s@, signed) == Some(v as int) && -10000 < v < 10000 && (!signed ==> v >= 0),
            None => spelled(s@, signed) is None,
        },
{
    if s.len() == 0 {
        return None;
    }
    let minus = signed && s[0] == 0x2D;
    let from: usize = if s[0] == 0x2B || minus { 1 } else { 0 };
    if from == s.len() {
        return None;
    }
    let digits: &[u8] = &s[from..s.len()];
    proof {
        assert(digits@ =~= s@.skip(from as int));
        assert(s@.skip(0) =~= s@);
    }
    match parse_digits(digits) {
        Some(v) => {
            proof {
                bytes::digits_are_bounded(digits@);
                bytes::tens_grow(digits@.len(), 4);
                reveal_with_fuel(bytes::tens, 5);
                assert(bytes::tens(4) == 10_000);
            }
            if minus {
                Some(-(v as i32))
            } else {
                Some(v as i32)
            }
        },
        None => {
            proof {
                if bytes::digits_value(digits@) is Some {
                    bytes::digits_are_bounded(digits@);
                    bytes::tens_grow(digits@.len(), 4);
                    reveal_with_fuel(bytes::tens, 5);
                    assert(bytes::tens(4) == 10_000);
                }
            }
            None
        },
    }
}

/// The date that a text of the form `2006-01-02T15:04:05Z` spells. What stands
/// between the numbers is not looked at.
pub open spec fn date_fields(s: Seq<u8>) -> Option<CivilTime> {
    if s.len() < 20 {
        None
    } else {
        let year = spelled(s.subrange(0, 4), true);
        let month = spelled(s.subrange(5, 7), false);
        let day = spelled(s.subrange(8, 10), false);
        let hour = spelled(s.subrange(11, 13), false);
        let min = spelled(s.subrange(14, 16), false);
        let sec = spelled(s.subrange(17, 19), false);
        if year is Some && month is Some && day is Some && hour is Some && min is Some && sec is Some {
            Some(
                CivilTime {
                    year: year->0 as i32,
                    month: month->0 as u32,
                    day: day->0 as u32,
                    hour: hour->0 as u64,
                    min: min->0 as u64,
                    sec: sec->0 as u64,
                },
            )
        } else {
            None
        }
    }
}

/// The instant of a record's date, if it is one from 1970 on.
pub open spec fn date_of(date: Seq<char>) -> Option<Timestamp> {
    match date_fields(utf8::encode_utf8(text::without_white(date))) {
        Some(c) if datetime::time_in_range(c) => Some(datetime::at_second(datetime::civil_seconds(c))),
        _ => None,
    }
}

fn number_at(s: &[u8], from: usize, to: usize, signed: bool) -> (r: Option<i32>)
    requires
        from <= to <= s.len(),
        to - from <= 4,
    ensures
        match r {
            Some(v) => spelled(s@.subrange(from as int, to as int), signed) == Some(v as int) && -10000 < v < 10000 && (
            !signed ==> v >= 0),
            None => spelled(s@.subrange(from as int, to as int), signed) is None,
        },
{
    let part: &[u8] = &s[from..to];
    assert(part@ =~= s@.subrange(from as int, to as int));
    parse_short(part, signed)
}

fn parse_fields(s: &[u8]) -> (r: Option<CivilTime>)
    ensures
        r == date_fields(s@),
{
    if s.len() < 20 {
        return None;
    }
    let year: Option<i32> = number_at(s, 0, 4, true);
    let month: Option<i32> = number_at(s, 5, 7, false);
    let day: Option<i32> = number_at(s, 8, 10, false);
    let hour: Option<i32> = number_at(s, 11, 13, false);
    let min: Option<i32> = number_at(s, 14, 16, false);
    let sec: Option<i32> = number_at(s, 17, 19, false);
    match (year, month, day, hour, min, sec) {
        (Some(y), Some(mo), Some(d), Some(h), Some(mi), Some(se)) => Some(
            CivilTime {
                year: y,
                month: mo as u32,
                day: d as u32,
                hour: h as u64,
                min: mi as u64,
                sec: se as u64,
            },
        ),
        _ => None,
    }
}

/// The instant of a record's date.
pub fn parse_warc_date(date: &str) -> (r: Option<Timestamp>)
    ensures
        r == date_of(date@),
{
    let all = chars_of(date);
    let inner = trim_white(all.as_slice());
    let s = string_of(inner.as_slice());
    match parse_fields(s.as_str().as_bytes()) {
        None => None,
        Some(c) => {
            civil_to_systime(c.year, c.month, c.day, c.hour, c.min, c.sec)
        },
    }
}

/// The kinds of record that are told apart.
#[derive(Debug, Clone, Copy, PartialEq, Eq, Structural)]
pub enum RecordKind {
    Response,
    Resource,
    Other,
}

/// A record of a web archive. Its URI is as the header holds it.
#[derive(Debug)]
pub struct WarcRow {
    pub kind: RecordKind,
    pub uri: Option<Vec<u8>>,
    pub date: Option<String>,
    pub body: Vec<u8>,
}

/// A `WarcRow` with its texts and body as sequences.
pub struct RowView {
    pub kind: RecordKind,
    pub uri: Option<Seq<u8>>,
    pub date: Option<Seq<char>>,
    pub body: Seq<u8>,
}

impl View for WarcRow {
    type V = RowView;

    open spec fn view(&self) -> RowView {
        RowView {
            kind: self.kind,
            uri: match self.uri {
                Some(u) => Some(u@),
                None => None,
            },
            date: text::opt_string(self.date),
            body: self.body@,
        }
    }
}

/// Records as their models, or the text of a failure.
pub open spec fn rows_result(r: Result<Vec<WarcRow>, String>) -> Result<Seq<RowView>, Seq<char>> {
    match r {
        Ok(v) => Ok(v@.map_values(|w: WarcRow| w@)),
        Err(m) => Err(m@),
    }
}

/// A byte of the name of a field.
pub open spec fn is_token(b: u8) -> bool {
    31 < b < 128 && !SEPARATORS@.contains(b)
}

/// The bytes that separate what stands in a field.
pub const SEPARATORS: [u8; 18] = [
    0x28, 0x29, 0x3C, 0x3E, 0x40, 0x2C, 0x3B, 0x3A, 0x22, 0x2F, 0x5B, 0x5D, 0x3F, 0x3D, 0x7B, 0x7D, 0x20, 0x5C,
];

/// Which bytes a run is made of.
#[derive(Debug, Clone, Copy, PartialEq, Eq, Structural)]
pub enum Run {
    Token,
    Blank,
    /// All but the ends of lines.
    Line,
}

/// The byte goes on with a run.
pub open spec fn runs_on(kind: Run, b: u8) -> bool {
    match kind {
        Run::Token => is_token(b),
        Run::Blank => b == 0x20 || b == 0x09,
        Run::Line => b != 0x0D && b != 0x0A,
    }
}

/// Where the run that begins at `p` ends.
pub open spec fn run_end(s: Seq<u8>, kind: Run, p: int) -> int
    decreases s.len() - p,
{
    if 0 <= p < s.len() && runs_on(kind, s[p]) { run_end(s, kind, p + 1) } else { p }
}

/// Where the line goes on after its end at `p`, if it ends there.
pub open spec fn line_end(s: Seq<u8>, p: int) -> Option<int> {
    if 0 <= p < s.len() && s[p] == 0x0A {
        Some(p + 1)
    } else if 0 <= p && p + 1 < s.len() && s[p] == 0x0D && s[p + 1] == 0x0A {
        Some(p + 2)
    } else {
        None
    }
}

/// A field of a record's header: where its name, its value and its line end, and
/// where its value begins.
pub struct FieldView {
    pub name_end: int,
    pub value: int,
    pub value_end: int,
    pub next: int,
}

/// The field that begins at `p`, if one does.
pub open spec fn field_at(s: Seq<u8>, p: int) -> Option<FieldView> {
    let name_end = run_end(s, Run::Token, p);
    let colon = run_end(s, Run::Blank, name_end);
    let value = run_end(s, Run::Blank, colon + 1);
    let value_end = run_end(s, Run::Line, value);
    if name_end == p || colon >= s.len() || s[colon] != 0x3A {
        None
    } else {
        match line_end(s, value_end) {
            Some(next) => Some(FieldView { name_end, value, value_end, next }),
            None => None,
        }
    }
}

/// `content-length`.
pub const LENGTH_NAME: [u8; 14] = [0x63, 0x6F, 0x6E, 0x74, 0x65, 0x6E, 0x74, 0x2D, 0x6C, 0x65, 0x6E, 0x67, 0x74, 0x68];

/// The number that a length is given by: digits, which a plus sign may lead.
pub open spec fn length_value(v: Seq<u8>) -> Option<int> {
    let digits = if v.len() > 0 && v[0] == 0x2B { v.skip(1) } else { v };
    match bytes::digits_value(digits) {
        Some(n) if digits.len() > 0 && n <= usize::MAX => Some(n),
        _ => None,
    }
}

/// The length that the fields from `p` on give: the first of its name counts, and
/// without one it is nothing. A length that is no number is none.
pub open spec fn given_length(s: Seq<u8>, p: int) -> Option<int>
    decreases s.len() - p,
{
    match field_at(s, p) {
        None => Some(0),
        Some(f) => if f.next <= p || f.next > s.len() {
            Some(0)
        } else if bytes::lower_bytes(s.subrange(p, f.name_end)) == bytes::lower_bytes(LENGTH_NAME@) {
            length_value(s.subrange(f.value, f.value_end))
        } else {
            given_length(s, f.next)
        },
    }
}

/// Where the header that begins at `from` ends: behind its first empty line, which
/// is looked for from `p` on.
pub open spec fn head_end(data: Seq<u8>, from: int, p: int) -> Option<int>
    decreases data.len() - p,
{
    if p < from || from < 0 || p + 2 > data.len() {
        None
    } else if data[p] == 0x0D && data[p + 1] == 0x0A && (p == from || data[p - 1] == 0x0A) {
        Some(p + 2)
    } else {
        head_end(data, from, p + 1)
    }
}

/// `WARC/`.
pub const VERSION_MARK: [u8; 5] = [0x57, 0x41, 0x52, 0x43, 0x2F];

/// The length of the body behind a header, unless the header cannot be read.
pub open spec fn body_length(head: Seq<u8>) -> Option<int> {
    if !bytes::stands_at(head, 0, VERSION_MARK@) {
        None
    } else {
        match line_end(head, run_end(head, Run::Line, 5)) {
            None => None,
            Some(first) => if field_at(head, first) is None { None } else { given_length(head, first) },
        }
    }
}

/// A body of `n` bytes from `p` on is followed by the end of its record: an empty
/// line behind the end of a line.
pub open spec fn record_ends(data: Seq<u8>, p: int, n: int) -> bool {
    let q = p + n + 4;
    0 <= p && 0 <= n && q <= data.len() && data[q - 1] == 0x0A && data[q - 2] != 0x0A && data[q - 3] == 0x0A
}

/// From `p` on, no record gives a length that leaves no room for the four bytes
/// behind a body.
pub open spec fn lengths_fit_from(data: Seq<u8>, p: int) -> bool
    decreases data.len() - p,
{
    match head_end(data, p, p) {
        None => true,
        Some(e) => if !(p < e <= data.len()) {
            true
        } else {
            match body_length(data.subrange(p, e)) {
                None => true,
                Some(n) => n <= usize::MAX - 4 && (record_ends(data, e, n) ==> lengths_fit_from(data, e + n + 4)),
            }
        },
    }
}

/// No record gives a length that leaves no room for the four bytes behind a body.
pub open spec fn lengths_fit(data: Seq<u8>) -> bool {
    lengths_fit_from(data, 0)
}

fn is_token_byte(b: u8) -> (r: bool)
    ensures
        r == is_token(b),
{
    if b <= 31 || b >= 128 {
        return false;
    }
    let mut i: usize = 0;
    while i < SEPARATORS.len()
        invariant
            31 < b < 128,
            forall|k: int| 0 <= k < i ==> SEPARATORS@[k] != b,
        decreases SEPARATORS.len() - i,
    {
        if SEPARATORS[i] == b {
            assert(SEPARATORS@[i as int] == b);
            return false;
        }
        i = i + 1;
    }
    true
}

/// Where a run ends.
fn end_of_run(s: &[u8], kind: Run, from: usize) -> (r: usize)
    requires
        from <= s.len(),
    ensures
        r == run_end(s@, kind, from as int),
        from <= r <= s.len(),
{
    let mut p: usize = from;
    while p < s.len()
        invariant
            from <= p <= s.len(),
            run_end(s@, kind, from as int) == run_end(s@, kind, p as int),
        decreases s.len() - p,
    {
        let b: u8 = s[p];
        let on = match kind {
            Run::Token => is_token_byte(b),
            Run::Blank => b == 0x20 || b == 0x09,
            Run::Line => b != 0x0D && b != 0x0A,
        };
        if !on {
            return p;
        }
        p = p + 1;
    }
    p
}

fn end_of_line(s: &[u8], p: usize) -> (r: Option<usize>)
    requires
        p <= s.len(),
    ensures
        match r {
            Some(n) => line_end(s@, p as int) == Some(n as int) && p < n <= s.len(),
            None => line_end(s@, p as int) is None,
        },
{
    if p < s.len() && s[p] == 0x0A {
        Some(p + 1)
    } else if s.len() - p >= 2 && s[p] == 0x0D && s[p + 1] == 0x0A {
        Some(p + 2)
    } else {
        None
    }
}

/// A field of a record's header.
#[derive(Debug, Clone, Copy)]
struct Field {
    name_end: usize,
    value: usize,
    value_end: usize,
    next: usize,
}

fn read_field(s: &[u8], p: usize) -> (r: Option<Field>)
    requires
        p <= s.len(),
    ensures
        match r {
            Some(f) => field_at(s@, p as int) == Some(
                FieldView { name_end: f.name_end as int, value: f.value as int, value_end: f.value_end as int, next: f.next as int },
            ) && p < f.name_end < f.value <= f.value_end < f.next <= s.len(),
            None => field_at(s@, p as int) is None,
        },
{
    let name_end = end_of_run(s, Run::Token, p);
    let colon = end_of_run(s, Run::Blank, name_end);
    if name_end == p || colon >= s.len() || s[colon] != 0x3A {
        return None;
    }
    let value = end_of_run(s, Run::Blank, colon + 1);
    let value_end = end_of_run(s, Run::Line, value);
    match end_of_line(s, value_end) {
        Some(next) => Some(Field { name_end, value, value_end, next }),
        None => None,
    }
}

fn parse_length(v: &[u8]) -> (r: Option<usize>)
    ensures
        match r {
            Some(n) => length_value(v@) == Some(n as int),
            None => length_value(v@) is None,
        },
{
    let digits: &[u8] = if v.len() > 0 && v[0] == 0x2B { &v[1..v.len()] } else { v };
    proof {
        if v@.len() > 0 && v@[0] == 0x2B {
            assert(digits@ =~= v@.skip(1));
        }
    }
    if digits.len() == 0 {
        return None;
    }
    match parse_digits(digits) {
        Some(n) if n <= usize::MAX as u64 => Some(n as usize),
        _ => None,
    }
}

fn read_length(s: &[u8], from: usize) -> (r: Option<usize>)
    requires
        from <= s.len(),
    ensures
        match r {
            Some(n) => given_length(s@, from as int) == Some(n as int),
            None => given_length(s@, from as int) is None,
        },
{
    let mut p: usize = from;
    loop
        invariant
            p <= s.len(),
            given_length(s@, from as int) == given_length(s@, p as int),
        decreases s.len() - p,
    {
        match read_field(s, p) {
            None => {
                return Some(0);
            },
            Some(f) => {
                let name: &[u8] = &s[p..f.name_end];
                assert(name@ =~= s@.subrange(p as int, f.name_end as int));
                if equal_any_case(name, &LENGTH_NAME) {
                    let value: &[u8] = &s[f.value..f.value_end];
                    assert(value@ =~= s@.subrange(f.value as int, f.value_end as int));
                    return parse_length(value);
                }
                p = f.next;
            },
        }
    }
}

fn find_head_end(data: &[u8], from: usize) -> (r: Option<usize>)
    requires
        from <= data.len(),
    ensures
        match r {
            Some(e) => head_end(data@, from as int, from as int) == Some(e as int) && from < e <= data.len(),
            None => head_end(data@, from as int, from as int) is None,
        },
{
    let mut p: usize = from;
    while data.len() - p >= 2
        invariant
            from <= p <= data.len(),
            head_end(data@, from as int, from as int) == head_end(data@, from as int, p as int),
        decreases data.len() - p,
    {
        if data[p] == 0x0D && data[p + 1] == 0x0A && (p == from || data[p - 1] == 0x0A) {
            return Some(p + 2);
        }
        p = p + 1;
    }
    None
}

fn read_body_length(head: &[u8]) -> (r: Option<usize>)
    ensures
        match r {
            Some(n) => body_length(head@) == Some(n as int),
            None => body_length(head@) is None,
        },
{
    if !starts_with(head, &VERSION_MARK) {
        return None;
    }
    let version = end_of_run(head, Run::Line, 5);
    match end_of_line(head, version) {
        None => None,
        Some(first) => match read_field(head, first) {
            None => None,
            Some(_) => read_length(head, first),
        },
    }
}

/// Whether no record gives a length that leaves no room for the four bytes behind a
/// body.
fn check_lengths(data: &[u8]) -> (r: bool)
    ensures
        r == lengths_fit(data@),
{
    let mut p: usize = 0;
    loop
        invariant
            p <= data.len(),
            lengths_fit(data@) == lengths_fit_from(data@, p as int),
        decreases data.len() - p,
    {
        let e = match find_head_end(data, p) {
            None => {
                return true;
            },
            Some(e) => e,
        };
        let head: &[u8] = &data[p..e];
        assert(head@ =~= data@.subrange(p as int, e as int));
        let n = match read_body_length(head) {
            None => {
                return true;
            },
            Some(n) => n,
        };
        if n > usize::MAX - 4 {
            return false;
        }
        if n + 4 > data.len() - e {
            return true;
        }
        let q: usize = e + n + 4;
        if data[q - 1] != 0x0A || data[q - 2] == 0x0A || data[q - 3] != 0x0A {
            return true;
        }
        p = q;
    }
}

/// What `warc::WarcReader::iter_records` yields on some bytes.
pub uninterp spec fn warc_records(data: Seq<u8>) -> Result<Seq<RowView>, Seq<char>>;

/// `warc::WarcReader::iter_records` over the bytes: all records in order, or the
/// text that the first failure displays. A length that leaves no room for the
/// four bytes behind a body would make it panic; lengths are read where one record
/// follows the other.
#[verifier::external_body]
fn plain_records(data: &[u8]) -> (r: Result<Vec<WarcRow>, String>)
    requires
        lengths_fit(data@),
    ensures
        rows_result(r) == warc_records(data@),
{
    warc::WarcReader::new(data).iter_records().map(|record| {
        let record = record.map_err(|e| e.to_string())?;
        let kind = match record.warc_type() {
            warc::RecordType::Response => RecordKind::Response,
            warc::RecordType::Resource => RecordKind::Resource,
            _ => RecordKind::Other,
        };
        let date = record.header(warc::WarcHeader::Date).map(|s| s.into_owned());
        let (headers, body) = record.into_raw_parts();
        let uri = headers.as_ref().get(&warc::WarcHeader::TargetURI).cloned();
        Ok(WarcRow { kind, uri, date, body })
    }).collect()
}

/// A record that becomes an entry.
pub open spec fn is_kept(r: RowView) -> bool {
    r.kind == RecordKind::Response || r.kind == RecordKind::Resource
}

/// The URIs of the records that become entries are text.
pub open spec fn uris_are_text(rows: Seq<RowView>) -> bool {
    forall|i: int|
        0 <= i < rows.len() && is_kept(#[trigger] rows[i]) ==> (rows[i].uri matches Some(u) ==> utf8::valid_utf8(u))
}

/// Whether the URIs of the records that become entries are text.
pub fn check_uris(rows: &Vec<WarcRow>) -> (r: bool)
    ensures
        r == uris_are_text(rows@.map_values(|w: WarcRow| w@)),
{
    let ghost all = rows@.map_values(|w: WarcRow| w@);
    let mut i: usize = 0;
    while i < rows.len()
        invariant
            i <= rows.len(),
            all == rows@.map_values(|w: WarcRow| w@),
            forall|k: int|
                0 <= k < i && is_kept(#[trigger] all[k]) ==> (all[k].uri matches Some(u) ==> utf8::valid_utf8(u)),
        decreases rows.len() - i,
    {
        let row = &rows[i];
        assert(all[i as int] == row@);
        if row.kind == RecordKind::Response || row.kind == RecordKind::Resource {
            if let Some(uri) = &row.uri {
                if !is_utf8(uri.as_slice()) {
                    return false;
                }
            }
        }
        i = i + 1;
    }
    true
}

/// The records that become entries.
pub open spec fn kept_rows(rows: Seq<RowView>) -> Seq<RowView>
    decreases rows.len(),
{
    if rows.len() == 0 {
        Seq::empty()
    } else if is_kept(rows.last()) {
        kept_rows(rows.drop_last()).push(rows.last())
    } else {
        kept_rows(rows.drop_last())
    }
}

/// The name that a record has by itself, being entry number `i`.
pub open spec fn base_name(r: RowView, i: int) -> Seq<char> {
    match r.uri {
        Some(uri) => uri_path(utf8::decode_utf8(uri)),
        None => "record-"@ + text::decimal(i as nat),
    }
}

/// The names that the records have by themselves.
pub open spec fn base_names(rows: Seq<RowView>) -> Seq<Seq<char>> {
    Seq::new(rows.len(), |i: int| base_name(rows[i], i))
}

/// A name, told apart by a number: number 0 is the name itself.
pub open spec fn numbered(base: Seq<char>, n: nat) -> Seq<char> {
    if n == 0 { base } else { base + "-"@ + text::decimal(n) }
}

/// The first number by which a name differs from all those handed out.
pub open spec fn is_next(handed: Seq<Seq<char>>, base: Seq<char>, n: nat) -> bool {
    &&& !handed.contains(numbered(base, n))
    &&& forall|m: nat| m < n ==> handed.contains(#[trigger] numbered(base, m))
}

/// A name that was not handed out yet: the name itself, or with the first number
/// that tells it apart.
pub open spec fn fresh_name(handed: Seq<Seq<char>>, base: Seq<char>) -> Seq<char> {
    numbered(base, choose|n: nat| is_next(handed, base, n))
}

/// The names that are handed out for these, one after the other.
pub open spec fn handed_out(bases: Seq<Seq<char>>) -> Seq<Seq<char>>
    decreases bases.len(),
{
    if bases.len() == 0 {
        Seq::empty()
    } else {
        let before = handed_out(bases.drop_last());
        before.push(fresh_name(before, bases.last()))
    }
}

/// Different numbers give different names.
proof fn numbers_tell_apart(base: Seq<char>, m: nat, n: nat)
    requires
        numbered(base, m) == numbered(base, n),
    ensures
        m == n,
{
    reveal_strlit("-");
    let x = numbered(base, m);
    let y = numbered(base, n);
    if m == 0 && n > 0 {
        assert(y.len() > base.len());
    } else if n == 0 && m > 0 {
        assert(x.len() > base.len());
    } else if m > 0 && n > 0 {
        let k = base.len() + 1;
        assert(x.skip(k as int) =~= text::decimal(m));
        assert(y.skip(k as int) =~= text::decimal(n));
        text::decimal_is_injective(m, n);
    }
}

/// As many numbers as there are names cannot all be taken, and one more.
proof fn taken_numbers_are_few(handed: Seq<Seq<char>>, base: Seq<char>, n: nat)
    requires
        forall|m: nat| m < n ==> handed.contains(#[trigger] numbered(base, m)),
    ensures
        n <= handed.len(),
{
    let names = Seq::new(n, |m: int| numbered(base, m as nat));
    assert(names.no_duplicates()) by {
        assert forall|i: int, j: int| 0 <= i < n && 0 <= j < n && i != j implies names[i] != names[j] by {
            if names[i] == names[j] {
                numbers_tell_apart(base, i as nat, j as nat);
            }
        }
    }
    names.unique_seq_to_set();
    handed.lemma_cardinality_of_set();
    assert(names.to_set().subset_of(handed.to_set())) by {
        assert forall|x: Seq<char>| names.to_set().contains(x) implies handed.to_set().contains(x) by {
            let i = choose|i: int| 0 <= i < names.len() && names[i] == x;
            assert(handed.contains(numbered(base, i as nat)));
        }
    }
    vstd::set_lib::lemma_len_subset(names.to_set(), handed.to_set());
}

/// There is a first number by which a name differs: `n` or one behind it.
proof fn next_number_exists(handed: Seq<Seq<char>>, base: Seq<char>, n: nat)
    requires
        forall|m: nat| m < n ==> handed.contains(#[trigger] numbered(base, m)),
    ensures
        exists|k: nat| is_next(handed, base, k),
    decreases handed.len() + 1 - n,
{
    taken_numbers_are_few(handed, base, n);
    if handed.contains(numbered(base, n)) {
        assert forall|m: nat| m < n + 1 implies handed.contains(#[trigger] numbered(base, m)) by {
            if m == n {
                assert(handed.contains(numbered(base, n)));
            }
        }
        taken_numbers_are_few(handed, base, n + 1);
        next_number_exists(handed, base, n + 1);
    } else {
        assert(is_next(handed, base, n));
    }
}

/// Whichever number is the first one is the chosen one.
proof fn next_number_is_unique(handed: Seq<Seq<char>>, base: Seq<char>, n: nat)
    requires
        is_next(handed, base, n),
    ensures
        fresh_name(handed, base) == numbered(base, n),
{
    let k = choose|k: nat| is_next(handed, base, k);
    if k < n {
        assert(handed.contains(numbered(base, k)));
    } else if n < k {
        assert(handed.contains(numbered(base, n)));
    }
}

/// No name is handed out twice.
pub proof fn handed_out_names_differ(bases: Seq<Seq<char>>)
    ensures
        handed_out(bases).len() == bases.len(),
        handed_out(bases).no_duplicates(),
    decreases bases.len(),
{
    if bases.len() > 0 {
        let before = handed_out(bases.drop_last());
        handed_out_names_differ(bases.drop_last());
        next_number_exists(before, bases.last(), 0);
        let k = choose|k: nat| is_next(before, bases.last(), k);
        next_number_is_unique(before, bases.last(), k);
    }
}

/// The names handed out so far, and for each name the first number that may tell it
/// apart.
pub struct SeenNames {
    used: StringHashSet,
    next: StringHashMap<usize>,
    handed: Ghost<Seq<Seq<char>>>,
}

impl SeenNames {
    /// The names so far, in order.
    pub closed spec fn handed(&self) -> Seq<Seq<char>> {
        self.handed@
    }

    /// The tables say of the names so far what they are there to say.
    pub closed spec fn well_formed(&self) -> bool {
        let handed = self.handed@;
        &&& forall|x: Seq<char>| #[trigger] self.used@.contains(x) == handed.contains(x)
        &&& forall|b: Seq<char>, m: nat|
            #![trigger self.next@.contains_key(b), numbered(b, m)]
            self.next@.contains_key(b) && m < self.next@[b] ==> handed.contains(numbered(b, m))
    }

    /// No names yet.
    pub fn new() -> (r: SeenNames)
        ensures
            r.well_formed(),
            r.handed() == Seq::<Seq<char>>::empty(),
    {
        SeenNames { used: StringHashSet::new(), next: StringHashMap::new(), handed: Ghost(Seq::empty()) }
    }
}

/// The name with a number.
fn with_number(base: &str, n: usize) -> (r: String)
    ensures
        r@ == numbered(base@, n as nat),
{
    if n == 0 {
        copy_text(base)
    } else {
        let t = join2(base, "-");
        let d = decimal_text(n as u64);
        join2(t.as_str(), d.as_str())
    }
}

/// A name that was not handed out yet; and note it.
pub fn dedup_path(base: &str, seen: &mut SeenNames) -> (r: String)
    requires
        old(seen).well_formed(),
        old(seen).handed().len() < usize::MAX,
    ensures
        r@ == fresh_name(old(seen).handed(), base@),
        !old(seen).handed().contains(r@),
        final(seen).handed() == old(seen).handed().push(r@),
        final(seen).well_formed(),
{
    let ghost handed = seen.handed@;
    let mut n: usize = match seen.next.get(base) {
        Some(n) => *n,
        None => 0,
    };
    let mut name = with_number(base, n);
    proof {
        taken_numbers_are_few(handed, base@, n as nat);
    }
    while seen.used.contains(name.as_str())
        invariant
            seen.well_formed(),
            handed == seen.handed@,
            *seen == *old(seen),
            name@ == numbered(base@, n as nat),
            forall|m: nat| m < n ==> handed.contains(#[trigger] numbered(base@, m)),
            n <= handed.len() < usize::MAX,
        decreases handed.len() - n,
    {
        proof {
            assert forall|m: nat| m < n + 1 implies handed.contains(#[trigger] numbered(base@, m)) by {
                if m == n {
                    assert(handed.contains(name@));
                }
            }
            taken_numbers_are_few(handed, base@, (n + 1) as nat);
        }
        n = n + 1;
        name = with_number(base, n);
    }
    proof {
        assert(is_next(handed, base@, n as nat));
        next_number_is_unique(handed, base@, n as nat);
    }
    seen.used.insert(copy_text(name.as_str()));
    seen.next.insert(copy_text(base), n + 1);
    seen.handed = Ghost(handed.push(name@));
    proof {
        let now = handed.push(name@);
        assert forall|x: Seq<char>| #[trigger] seen.used@.contains(x) == now.contains(x) by {
            if handed.contains(x) {
                let i = choose|i: int| 0 <= i < handed.len() && handed[i] == x;
                assert(now[i] == x);
            }
            assert(now[handed.len() as int] == name@);
            assert(old(seen).used@.contains(x) == handed.contains(x));
        }
        assert forall|b: Seq<char>, m: nat|
            #![trigger seen.next@.contains_key(b), numbered(b, m)]
            seen.next@.contains_key(b) && m < seen.next@[b] implies now.contains(numbered(b, m)) by {
            let x = numbered(b, m);
            if b == base@ {
                if m == n {
                    assert(now[handed.len() as int] == x);
                } else {
                    assert(handed.contains(x));
                }
            } else {
                assert(old(seen).next@.contains_key(b));
                assert(handed.contains(x));
            }
            if handed.contains(x) {
                let i = choose|i: int| 0 <= i < handed.len() && handed[i] == x;
                assert(now[i] == x);
            }
        }
    }
    name
}

/// What a record holds: a response without its HTTP header.
pub open spec fn content_of(r: RowView) -> Seq<u8> {
    if r.kind == RecordKind::Response { payload_from(r.body, 0) } else { r.body }
}

/// The entry of a record under its name.
pub open spec fn entry_of(r: RowView, name: Seq<char>) -> EntryView {
    EntryView {
        path_raw: utf8::encode_utf8(name),
        path: name,
        kind: KindView::File,
        size: content_of(r).len() as u64,
        mode: None,
        is_encrypted: false,
        modified: match r.date {
            Some(d) => match date_of(d) {
                Some(t) => Some(Stamp::Instant(t)),
                None => None,
            },
            None => None,
        },
        is_resource_fork: false,
    }
}

/// The name of entry number `i`.
pub open spec fn entry_name(rows: Seq<RowView>, i: int) -> Seq<char> {
    handed_out(base_names(rows))[i]
}

/// The listing of an archive whose entries come from these records.
pub open spec fn listing_of(rows: Seq<RowView>) -> Seq<EntryView> {
    Seq::new(rows.len(), |i: int| entry_of(rows[i], entry_name(rows, i)))
}

/// No two entries of an archive have the same path.
pub proof fn paths_differ(rows: Seq<RowView>, i: int, j: int)
    requires
        0 <= i < rows.len(),
        0 <= j < rows.len(),
        i != j,
    ensures
        listing_of(rows)[i].path != listing_of(rows)[j].path,
{
    handed_out_names_differ(base_names(rows));
}

/// The bodies of these records.
pub open spec fn bodies_of(rows: Seq<RowView>) -> Seq<Result<Seq<u8>, ErrorView>> {
    rows.map_values(|r: RowView| Ok::<Seq<u8>, ErrorView>(content_of(r)))
}

/// Make a reader of the records of an archive.
pub fn build_reader(rows: Vec<WarcRow>) -> (r: StoredReader)
    requires
        uris_are_text(rows@.map_values(|w: WarcRow| w@)),
    ensures
        archive::presents(
            &r,
            FormatId::Warc,
            listing_of(kept_rows(rows@.map_values(|w: WarcRow| w@))),
            bodies_of(kept_rows(rows@.map_values(|w: WarcRow| w@))),
        ),
{
    let ghost all = rows@.map_values(|w: WarcRow| w@);
    let mut seen = SeenNames::new();
    let mut entries: Vec<Entry> = Vec::new();
    let mut bodies: Vec<Body> = Vec::new();
    let data: Vec<u8> = Vec::new();
    let mut i: usize = 0;
    proof {
        assert(all.take(0) =~= Seq::<RowView>::empty());
        assert(base_names(kept_rows(all.take(0))) =~= Seq::<Seq<char>>::empty());
        assert(handed_out(base_names(kept_rows(all.take(0)))) =~= Seq::<Seq<char>>::empty());
    }
    while i < rows.len()
        invariant
            i <= rows.len(),
            all == rows@.map_values(|w: WarcRow| w@),
            uris_are_text(all),
            entries.len() == kept_rows(all.take(i as int)).len(),
            bodies.len() == entries.len(),
            entries.len() <= i,
            seen.well_formed(),
            seen.handed() == handed_out(base_names(kept_rows(all.take(i as int)))),
            forall|k: int|
                0 <= k < entries.len() ==> (#[trigger] entries@[k])@ == listing_of(kept_rows(all.take(i as int)))[k],
            forall|k: int|
                0 <= k < bodies.len() ==> stored::fits(#[trigger] bodies@[k], data.len() as int) && stored::body_in(
                    data@,
                    bodies@[k],
                ) == bodies_of(kept_rows(all.take(i as int)))[k],
        decreases rows.len() - i,
    {
        let row = &rows[i];
        let ghost before = kept_rows(all.take(i as int));
        let ghost now = kept_rows(all.take(i + 1));
        proof {
            assert(all[i as int] == row@);
            assert(all.take(i + 1).drop_last() =~= all.take(i as int));
            assert(all.take(i + 1).last() == row@);
        }
        if row.kind == RecordKind::Response || row.kind == RecordKind::Resource {
            let base = match &row.uri {
                Some(uri) => {
                    let spelled = text_lossy(uri.as_slice());
                    uri_to_path(spelled.as_str())
                },
                None => {
                    let d = decimal_text(entries.len() as u64);
                    join2("record-", d.as_str())
                },
            };
            let ghost names = handed_out(base_names(before));
            proof {
                handed_out_names_differ(base_names(before));
            }
            let name = dedup_path(base.as_str(), &mut seen);
            let content: Vec<u8> = if row.kind == RecordKind::Response {
                copy_bytes(strip_http_headers(row.body.as_slice()))
            } else {
                copy_bytes(row.body.as_slice())
            };
            let modified = match &row.date {
                Some(d) => match parse_warc_date(d.as_str()) {
                    Some(t) => Some(Stamp::Instant(t)),
                    None => None,
                },
                None => None,
            };
            let entry = Entry {
                path_raw: copy_bytes(name.as_str().as_bytes()),
                path: copy_text(name.as_str()),
                kind: EntryKind::File,
                size: content.len() as u64,
                mode: None,
                is_encrypted: false,
                modified,
                is_resource_fork: false,
            };
            proof {
                assert(now == before.push(row@));
                let bases = base_names(now);
                let k = before.len() as int;
                assert(bases =~= base_names(before).push(base@));
                assert(bases.drop_last() =~= base_names(before));
                assert(handed_out(bases) == names.push(name@));
                assert(entry@ == entry_of(row@, entry_name(now, k)));
                assert forall|j: int| 0 <= j < k implies #[trigger] listing_of(now)[j] == listing_of(before)[j] by {
                    assert(names.push(name@)[j] == names[j]);
                }
            }
            entries.push(entry);
            bodies.push(Body::Held(content));
        }
        i = i + 1;
    }
    proof {
        assert(all.take(i as int) =~= all);
        assert(archive::views(entries@) =~= listing_of(kept_rows(all)));
        assert(stored::bodies_in(data@, bodies@) =~= bodies_of(kept_rows(all)));
    }
    StoredReader::new(FormatId::Warc, data, entries, bodies)
}

/// A source whose name says that its records are packed.
pub open spec fn is_packed(path: Option<Seq<char>>) -> bool {
    match path {
        Some(p) => match paths::file_name(p) {
            Some(n) => text::text_ends_any_case(n, ".warc.gz"@),
            None => false,
        },
        None => false,
    }
}

fn named_packed(src: &Source) -> (r: bool)
    ensures
        r == is_packed(src.spec_path()),
{
    match src.file_path() {
        Some(p) => {
            let cs = chars_of(p);
            match path_file_name(cs.as_slice()) {
                Some(n) => {
                    let suffix = chars_of(".warc.gz");
                    ends_any_case(n.as_slice(), suffix.as_slice())
                },
                None => false,
            }
        },
        None => false,
    }
}

/// What `flate2::read::MultiGzDecoder` yields behind a `BufReader` before it fails.
pub uninterp spec fn gzip_yield(data: Seq<u8>) -> Seq<u8>;

/// `flate2::read::MultiGzDecoder`, read through a `BufReader` byte by byte up to its
/// end or its first failure: what comes out depends on the bytes alone.
#[verifier::external_body]
fn gunzip_until_failure(data: &[u8]) -> (r: Vec<u8>)
    ensures
        r@ == gzip_yield(data@),
{
    std::io::BufReader::new(flate2::read::MultiGzDecoder::new(data)).bytes().map_while(|b| b.ok()).collect()
}

/// The bytes up to the last end of a line.
pub open spec fn whole_lines(b: Seq<u8>) -> Seq<u8>
    decreases b.len(),
{
    if b.len() == 0 || b.last() == 0x0A {
        b
    } else {
        whole_lines(b.drop_last())
    }
}

/// What is said where the source of the records fails.
pub const SOURCE_FAILED: &'static str = "Error reading data source.";

/// What is said where the records end in the middle of a body.
pub const BODY_CUT: &'static str = "Unexpected end of body.";

/// What the records of a source are read from: what its bytes unpack to, where its
/// name says that they are packed. Of bytes that do not unpack, the lines before the
/// failure are looked at, for records are read by line.
pub open spec fn record_bytes(data: Seq<u8>, path: Option<Seq<char>>) -> Seq<u8> {
    if !is_packed(path) {
        data
    } else {
        match decompress::gzip_decoded(data) {
            Ok(b) => b,
            Err(_) => whole_lines(gzip_yield(data)),
        }
    }
}

/// The bytes of a source are packed and do not unpack.
pub open spec fn breaks(data: Seq<u8>, path: Option<Seq<char>>) -> bool {
    is_packed(path) && decompress::gzip_decoded(data) is Err
}

/// The records before the source fails: a failure of one of them is told, and else that
/// of the source.
pub open spec fn broken_off(records: Result<Seq<RowView>, Seq<char>>) -> Result<Seq<RowView>, Seq<char>> {
    match records {
        Err(m) => Err(if m == BODY_CUT@ { SOURCE_FAILED@ } else { m }),
        Ok(_) => Err(SOURCE_FAILED@),
    }
}

/// The records of a source.
pub open spec fn source_records(data: Seq<u8>, path: Option<Seq<char>>) -> Result<Seq<RowView>, Seq<char>> {
    if breaks(data, path) {
        broken_off(warc_records(record_bytes(data, path)))
    } else {
        warc_records(record_bytes(data, path))
    }
}

/// The source can be read: no length in it is too long for the end of a record,
/// and the URIs of its entries are text.
pub open spec fn readable(data: Seq<u8>, path: Option<Seq<char>>) -> bool {
    &&& lengths_fit(record_bytes(data, path))
    &&& source_records(data, path) matches Ok(rows) ==> uris_are_text(rows)
}

fn keep_lines(bytes: &mut Vec<u8>)
    ensures
        final(bytes)@ == whole_lines(old(bytes)@),
{
    while bytes.len() > 0 && bytes[bytes.len() - 1] != 0x0A
        invariant
            whole_lines(bytes@) == whole_lines(old(bytes)@),
        decreases bytes.len(),
    {
        assert(bytes@.drop_last() =~= bytes@.take(bytes@.len() - 1));
        bytes.pop();
    }
}

/// Unpack what the records of a source are read from, and tell whether it fails.
fn unpacked_bytes(packed: bool, data: Vec<u8>) -> (r: (Vec<u8>, bool))
    ensures
        r.1 == (packed && decompress::gzip_decoded(data@) is Err),
        r.0@ == if !packed {
            data@
        } else {
            match decompress::gzip_decoded(data@) {
                Ok(b) => b,
                Err(_) => whole_lines(gzip_yield(data@)),
            }
        },
{
    if !packed {
        return (data, false);
    }
    match decode_gzip(data.as_slice()) {
        Ok(v) => (v, false),
        Err(_) => {
            let mut seen = gunzip_until_failure(data.as_slice());
            keep_lines(&mut seen);
            (seen, true)
        },
    }
}

/// The failure to tell where the source of the records fails.
fn break_off(records: Result<Vec<WarcRow>, String>) -> (r: String)
    ensures
        broken_off(rows_result(records)) == Err::<Seq<RowView>, Seq<char>>(r@),
{
    match records {
        Err(m) => {
            if same_text(m.as_str(), BODY_CUT) {
                copy_text(SOURCE_FAILED)
            } else {
                m
            }
        },
        Ok(_) => copy_text(SOURCE_FAILED),
    }
}

/// What opening a source comes to.
pub open spec fn opened(data: Seq<u8>, path: Option<Seq<char>>, r: Result<StoredReader, Error>) -> bool {
    match source_records(data, path) {
        Err(m) => error::fails_with(r, ErrorView::Corrupt(m)),
        Ok(rows) => r matches Ok(reader) && archive::presents(
            &reader,
            FormatId::Warc,
            listing_of(kept_rows(rows)),
            bodies_of(kept_rows(rows)),
        ),
    }
}

/// Reads web archives.
#[derive(Debug, Clone, Copy)]
pub struct WarcHandler;

impl FormatHandler for WarcHandler {
    open spec fn spec_id(&self) -> FormatId {
        FormatId::Warc
    }

    /// The packed kind hides its mark: its name is as good.
    open spec fn spec_probe(&self, header: Seq<u8>, name: Option<Seq<char>>) -> Confidence {
        archive::magic_when(
            bytes::stands_at(header, 0, WARC_MAGIC@) || text::name_has_suffix(name, ".warc"@) || text::name_has_suffix(
                name,
                ".warc.gz"@,
            ),
        )
    }

    fn id(&self) -> (r: FormatId) {
        FormatId::Warc
    }

    fn probe(&self, header: &[u8], name: Option<&str>) -> (r: Confidence) {
        Confidence::magic_if(
            starts_with(header, &WARC_MAGIC) || name_ends(name, ".warc") || name_ends(name, ".warc.gz"),
        )
    }
}

impl WarcHandler {
    /// Open a web archive that can be read.
    pub fn open(&self, src: Source) -> (r: Result<StoredReader, Error>)
        requires
            readable(src.content(), src.spec_path()),
        ensures
            opened(src.content(), src.spec_path(), r),
    {
        let packed = named_packed(&src);
        let (bytes, broken) = unpacked_bytes(packed, src.read_all());
        let records = plain_records(bytes.as_slice());
        if broken {
            return Err(Error::Corrupt(break_off(records)));
        }
        match records {
            Err(m) => Err(Error::Corrupt(m)),
            Ok(v) => Ok(build_reader(v)),
        }
    }

    /// Open a web archive, or `None` where it cannot be read.
    pub fn open_readable(&self, src: Source) -> (r: Option<Result<StoredReader, Error>>)
        ensures
            r is Some == readable(src.content(), src.spec_path()),
            r matches Some(o) ==> opened(src.content(), src.spec_path(), o),
    {
        let packed = named_packed(&src);
        let (bytes, broken) = unpacked_bytes(packed, src.read_all());
        if !check_lengths(bytes.as_slice()) {
            return None;
        }
        let records = plain_records(bytes.as_slice());
        if broken {
            return Some(Err(Error::Corrupt(break_off(records))));
        }
        match records {
            Err(m) => Some(Err(Error::Corrupt(m))),
            Ok(v) => if check_uris(&v) {
                Some(Ok(build_reader(v)))
            } else {
                None
            },
        }
    }
}

proof fn scheme_is_cut_off(scheme: Seq<char>, rest: Seq<char>, from: int)
    requires
        !scheme.contains(':'),
        0 <= from <= scheme.len(),
    ensures
        after_scheme(scheme + seq![':', '/', '/'] + rest, from) == rest,
    decreases scheme.len() - from,
{
    let uri = scheme + seq![':', '/', '/'] + rest;
    if from < scheme.len() {
        assert(uri[from] == scheme[from]);
        assert(scheme.contains(scheme[from]));
        scheme_is_cut_off(scheme, rest, from + 1);
    } else {
        assert(uri[from] == ':' && uri[from + 1] == '/' && uri[from + 2] == '/');
        assert(uri.skip(from + 3) =~= rest);
    }
}

proof fn cut_at_mark(s: Seq<char>, c: char, rest: Seq<char>)
    requires
        !s.contains(c),
    ensures
        up_to(s, c) == s,
        up_to(s.push(c) + rest, c) == s,
{
    let all = s.push(c) + rest;
    text::first_index_is_first(s, c);
    text::first_index_is_first(all, c);
    let k = text::first_index(s, c);
    if k < s.len() {
        assert(s.contains(s[k]));
    }
    assert(s.take(s.len() as int) =~= s);
    let j = text::first_index(all, c);
    assert(all[s.len() as int] == c);
    if j < s.len() {
        assert(s.contains(all[j]));
    }
    assert(all.take(s.len() as int) =~= s);
}

proof fn tame_pieces_stay(parts: Seq<Seq<char>>)
    requires
        forall|k: int| 0 <= k < parts.len() ==> #[trigger] parts[k] != seq!['.', '.'],
    ensures
        parts.map_values(|p: Seq<char>| tame(p)) == parts,
{
    assert(parts.map_values(|p: Seq<char>| tame(p)) =~= parts);
}

/// What was fetched is listed under the host and the path of its address: without the
/// scheme before them, and without the query and the fragment behind.
#[verifier::rlimit(40)]
pub proof fn addresses_become_paths(scheme: Seq<char>, parts: Seq<Seq<char>>, query: Seq<char>, fragment: Seq<char>)
    requires
        !scheme.contains(':'),
        parts.len() > 0,
        forall|k: int| 0 <= k < parts.len() ==> paths::is_segment(#[trigger] parts[k]) && parts[k] != seq!['.', '.'],
        !text::join(parts, '/').contains('?'),
        !text::join(parts, '/').contains('#'),
    ensures
        ({
            let path = text::join(parts, '/');
            let uri = scheme + seq![':', '/', '/'] + path;
            &&& uri_path(uri) == path
            &&& uri_path(uri + seq!['?'] + query) == path
            &&& uri_path(uri + seq!['#'] + fragment) == path
        }),
{
    let path = text::join(parts, '/');
    let mark = seq![':', '/', '/'];
    let uri = scheme + mark + path;
    paths::segments_of_joined_pieces(parts);
    tame_pieces_stay(parts);
    scheme_is_cut_off(scheme, path, 0);
    cut_at_mark(path, '?', query);
    cut_at_mark(path, '#', fragment);
    scheme_is_cut_off(scheme, path.push('?') + query, 0);
    assert(uri + seq!['?'] + query =~= scheme + mark + (path.push('?') + query));
    scheme_is_cut_off(scheme, path.push('#') + fragment, 0);
    assert(uri + seq!['#'] + fragment =~= scheme + mark + (path.push('#') + fragment));
    query_first(path, fragment);
}

proof fn query_first(path: Seq<char>, fragment: Seq<char>)
    requires
        !path.contains('?'),
        !path.contains('#'),
    ensures
        up_to(up_to(path.push('#') + fragment, '?'), '#') == path,
{
    let all = path.push('#') + fragment;
    text::first_index_is_first(all, '?');
    let k = text::first_index(all, '?');
    if k <= path.len() {
        if k < path.len() {
            assert(path.contains(all[k]));
        }
        assert(all[k] == '#' || k < path.len());
    }
    let cut = all.take(k);
    let rest = fragment.take(k - path.len() - 1);
    assert(cut =~= path.push('#') + rest);
    cut_at_mark(path, '#', rest);
}

proof fn payload_is_behind_head(body: Seq<u8>, head: Seq<u8>, payload: Seq<u8>, from: int)
    requires
        0 <= from <= head.len(),
        body == head + seq![0x0Du8, 0x0A, 0x0D, 0x0A] + payload,
        forall|k: int| 0 <= k < head.len() ==> !bytes::stands_at(body, k, #[trigger] seq_of_ends(k)),
    ensures
        payload_from(body, from) == payload,
    decreases head.len() - from,
{
    assert(HEADER_END@ =~= seq![0x0Du8, 0x0A, 0x0D, 0x0A]);
    if from < head.len() {
        assert(!bytes::stands_at(body, from, seq_of_ends(from)));
        payload_is_behind_head(body, head, payload, from + 1);
    } else {
        assert(body.subrange(from, from + 4) =~= HEADER_END@);
        assert(body.skip(from + 4) =~= payload);
    }
}

/// Two ends of line in a row do not stand before the end of the head.
pub open spec fn is_whole_head(head: Seq<u8>) -> bool {
    forall|k: int|
        0 <= k < head.len() ==> !bytes::stands_at(
            head + seq![0x0Du8, 0x0A, 0x0D, 0x0A],
            k,
            #[trigger] seq_of_ends(k),
        )
}

/// Two ends of line.
pub open spec fn seq_of_ends(k: int) -> Seq<u8> {
    seq![0x0Du8, 0x0A, 0x0D, 0x0A]
}

/// Of a response, what stands behind its head and an empty line is the file. Of a resource
/// the file is all of it.
pub proof fn head_of_response_is_cut_off(r: RowView, head: Seq<u8>, payload: Seq<u8>)
    requires
        r.body == head + seq![0x0Du8, 0x0A, 0x0D, 0x0A] + payload,
        is_whole_head(head),
    ensures
        r.kind == RecordKind::Response ==> content_of(r) == payload,
        r.kind == RecordKind::Resource ==> content_of(r) == r.body,
{
    let ends = seq![0x0Du8, 0x0A, 0x0D, 0x0A];
    let body = head + ends + payload;
    assert forall|k: int| 0 <= k < head.len() implies !bytes::stands_at(body, k, #[trigger] seq_of_ends(k)) by {
        assert(!bytes::stands_at(head + ends, k, seq_of_ends(k)));
        if bytes::stands_at(body, k, ends) {
            assert((head + ends).subrange(k, k + 4) =~= body.subrange(k, k + 4));
        }
    }
    payload_is_behind_head(body, head, payload, 0);
}

/// A date and a time of day in the notation `1994-11-06T08:49:37Z` read back.
#[verifier::rlimit(40)]
pub proof fn dates_read_back(year: int, month: int, day: int, hour: int, min: int, sec: int, marks: Seq<u8>)
    requires
        0 <= year < 10000,
        0 <= month < 100,
        0 <= day < 100,
        0 <= hour < 100,
        0 <= min < 100,
        0 <= sec < 100,
        marks.len() == 6,
    ensures
        ({
            let s = bytes::decimal_digits(year, 4) + seq![marks[0]] + bytes::decimal_digits(month, 2) + seq![marks[1]]
                + bytes::decimal_digits(day, 2) + seq![marks[2]] + bytes::decimal_digits(hour, 2) + seq![marks[3]]
                + bytes::decimal_digits(min, 2) + seq![marks[4]] + bytes::decimal_digits(sec, 2) + seq![marks[5]];
            date_fields(s) matches Some(c) && c.year == year && c.month == month && c.day == day && c.hour == hour && c.min
                == min && c.sec == sec
        }),
{
    reveal_with_fuel(bytes::tens, 5);
    let y = bytes::decimal_digits(year, 4);
    let mo = bytes::decimal_digits(month, 2);
    let d = bytes::decimal_digits(day, 2);
    let h = bytes::decimal_digits(hour, 2);
    let mi = bytes::decimal_digits(min, 2);
    let se = bytes::decimal_digits(sec, 2);
    digits_are_spelled(year, 4);
    digits_are_spelled(month, 2);
    digits_are_spelled(day, 2);
    digits_are_spelled(hour, 2);
    digits_are_spelled(min, 2);
    digits_are_spelled(sec, 2);
    let s = y + seq![marks[0]] + mo + seq![marks[1]] + d + seq![marks[2]] + h + seq![marks[3]] + mi + seq![marks[4]] + se
        + seq![marks[5]];
    assert(s.len() == 20);
    assert(s.subrange(0, 4) =~= y);
    assert(s.subrange(5, 7) =~= mo);
    assert(s.subrange(8, 10) =~= d);
    assert(s.subrange(11, 13) =~= h);
    assert(s.subrange(14, 16) =~= mi);
    assert(s.subrange(17, 19) =~= se);
}

proof fn digits_are_spelled(v: int, n: nat)
    requires
        0 < n,
        0 <= v < bytes::tens(n),
    ensures
        bytes::decimal_digits(v, n).len() == n,
        spelled(bytes::decimal_digits(v, n), false) == Some(v),
        spelled(bytes::decimal_digits(v, n), true) == Some(v),
{
    bytes::digits_read_back(v, n, Seq::empty(), 0, Seq::empty());
    first_is_digit(v, n);
}

proof fn first_is_digit(v: int, n: nat)
    requires
        0 < n,
    ensures
        bytes::decimal_digits(v, n).len() == n,
        0x30 <= bytes::decimal_digits(v, n)[0] <= 0x39,
    decreases n,
{
    if n > 1 {
        first_is_digit(v / 10, (n - 1) as nat);
    } else {
        assert(bytes::decimal_digits(v / 10, 0) =~= Seq::<u8>::empty());
    }
}

/// What is left of a damaged source reaches to the end of its last whole line.
pub proof fn half_lines_are_dropped(lines: Seq<u8>, half: Seq<u8>)
    requires
        lines.len() == 0 || lines.last() == 0x0A,
        !half.contains(0x0A),
    ensures
        whole_lines(lines + half) == lines,
    decreases half.len(),
{
    let all = lines + half;
    if half.len() == 0 {
        assert(all =~= lines);
    } else {
        let less = half.drop_last();
        assert(!less.contains(0x0A)) by {
            if less.contains(0x0A) {
                let k = choose|k: int| 0 <= k < less.len() && less[k] == 0x0A;
                assert(half[k] == 0x0A);
            }
        }
        assert(half.contains(half[half.len() - 1]));
        assert(all.drop_last() =~= lines + less);
        half_lines_are_dropped(lines, less);
    }
}

/// Responses and resources are listed, in their order, and nothing else is.
pub proof fn responses_and_resources_are_listed(rows: Seq<RowView>, r: RowView)
    ensures
        kept_rows(rows.push(r)) == if r.kind == RecordKind::Response || r.kind == RecordKind::Resource {
            kept_rows(rows).push(r)
        } else {
            kept_rows(rows)
        },
        kept_rows(Seq::empty()) == Seq::<RowView>::empty(),
{
    assert(rows.push(r).drop_last() =~= rows);
}

/// A name that was not handed out yet is handed out as it is. One that was gets a hyphen
/// and the least number behind it that makes it new.
pub proof fn repeated_names_are_numbered(handed: Seq<Seq<char>>, base: Seq<char>, n: nat)
    requires
        n > 0,
    ensures
        !handed.contains(base) ==> fresh_name(handed, base) == base,
        handed.contains(base) && (forall|m: nat|
            0 < m < n ==> handed.contains(base + seq!['-'] + #[trigger] text::decimal(m))) && !handed.contains(
            base + seq!['-'] + text::decimal(n),
        ) ==> fresh_name(handed, base) == base + seq!['-'] + text::decimal(n),
{
    reveal_strlit("-");
    assert("-"@ =~= seq!['-']);
    if !handed.contains(base) {
        assert(is_next(handed, base, 0));
        let k = choose|k: nat| is_next(handed, base, k);
        if k > 0 {
            assert(handed.contains(numbered(base, 0)));
        }
    } else if (forall|m: nat| 0 < m < n ==> handed.contains(base + seq!['-'] + #[trigger] text::decimal(m)))
        && !handed.contains(base + seq!['-'] + text::decimal(n)) {
        assert forall|m: nat| m < n implies handed.contains(#[trigger] numbered(base, m)) by {
            if m > 0 {
                assert(numbered(base, m) == base + seq!['-'] + text::decimal(m));
            }
        }
        assert(is_next(handed, base, n));
        let k = choose|k: nat| is_next(handed, base, k);
        if k < n {
            assert(handed.contains(numbered(base, k)));
        } else if k > n {
            assert(handed.contains(numbered(base, n)));
        }
    }
}

/// A record without an address is named after its number among those that are listed.
pub proof fn records_without_address_are_counted(rows: Seq<RowView>, i: int)
    requires
        0 <= i < rows.len(),
        rows[i].uri is None,
    ensures
        base_names(rows)[i] == seq!['r', 'e', 'c', 'o', 'r', 'd', '-'] + text::decimal(i as nat),
{
    reveal_strlit("record-");
    assert("record-"@ =~= seq!['r', 'e', 'c', 'o', 'r', 'd', '-']);
}

/// An entry is a file of as many bytes as its body has, under the name that was handed out
/// for it.
pub proof fn records_are_listed_as_they_are(rows: Seq<RowView>, i: int)
    requires
        0 <= i < rows.len(),
        content_of(rows[i]).len() <= u64::MAX,
    ensures
        listing_of(rows).len() == rows.len() && bodies_of(rows).len() == rows.len(),
        listing_of(rows)[i].kind == KindView::File,
        bodies_of(rows)[i] matches Ok(b) && listing_of(rows)[i].size == b.len(),
        listing_of(rows)[i].path == handed_out(base_names(rows))[i],
        rows[i].date is None ==> listing_of(rows)[i].modified is None,
{
}

} // verus!
