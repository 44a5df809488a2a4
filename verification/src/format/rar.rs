//! RAR archives: the names of volumes, the table of contents of a set of
//! volumes, and the pass over a set that unpacks from its start.
use vstd::prelude::*;

use crate::archive;
use crate::bytes;
use crate::datetime;
use crate::delivery;
use crate::encoding;
use crate::error;
use crate::text;
use crate::archive::{EntrySink, KindView, SinkEvent, SinkStep};
use crate::archive::{Confidence, Entry, EntryKind, EntryView, FormatHandler, FormatId, OpenOptions, Source};
use crate::format::cab;
use crate::bytes::{copy_bytes, parse_digits, starts_with};
use crate::datetime::{dos_words_to_systime, Stamp, Timestamp};
use crate::delivery::{Delivery, DeliveryView};
use crate::encoding::{decode_names, detect_encoding};
use crate::error::{corrupt, unsupported, Error, ErrorView, IoError, IoKind};
use crate::text::{begins_exactly, chars_of, copy_chars, copy_text, decimal_text, ends_exactly, join2};
use crate::text::{same_text, string_of, to_lower_char};

verus! {

/// How a RAR archive begins, whatever its generation.
pub const RAR_MAGIC: [u8; 6] = [0x52, 0x61, 0x72, 0x21, 0x1A, 0x07];

/// `p` stands in `s` at `i`.
pub open spec fn text_at(s: Seq<char>, i: int, p: Seq<char>) -> bool {
    0 <= i && i + p.len() <= s.len() && s.subrange(i, i + p.len()) == p
}

/// The last place, up to `from`, at which `p` stands in `s`; -1 where there is
/// none.
pub open spec fn last_place(s: Seq<char>, p: Seq<char>, from: int) -> int
    decreases from + 1,
{
    if from < 0 {
        -1
    } else if text_at(s, from, p) {
        from
    } else {
        last_place(s, p, from - 1)
    }
}

/// All characters are digits, and there is one.
pub open spec fn is_number(s: Seq<char>) -> bool {
    s.len() > 0 && forall|i: int| 0 <= i < s.len() ==> '0' <= #[trigger] s[i] <= '9'
}

/// The digits as bytes.
pub open spec fn digit_bytes(s: Seq<char>) -> Seq<u8> {
    s.map_values(|c: char| c as u8)
}

/// The number that digits spell; 0 where it is too large.
pub open spec fn number_of(s: Seq<char>) -> int {
    match bytes::digits_value(digit_bytes(s)) {
        Some(v) if v <= u64::MAX => v,
        _ => 0,
    }
}

/// `n` in at least `width` digits.
pub open spec fn padded(n: nat, width: int) -> Seq<char> {
    let d = text::decimal(n);
    if d.len() >= width { d } else { Seq::new((width - d.len()) as nat, |i: int| '0') + d }
}

/// How the volumes of a set are named.
pub enum SchemeView {
    /// `name.part1.rar`, `name.part2.rar`, and so on.
    Parts { head: Seq<char>, width: int, start: int, tail: Seq<char> },
    /// `name.rar`, `name.r00`, `name.r01`, and so on.
    Old { base: Seq<char> },
    /// `name.r07`, `name.r08`, and so on.
    Continued { head: Seq<char>, width: int, start: int },
}

/// How the volumes behind the one of this name are named; `None` where the name
/// is not that of a volume.
pub open spec fn scheme_of(name: Seq<char>) -> Option<SchemeView> {
    let lower = text::lower_chars(name);
    if text::text_ends(lower, ".rar"@) {
        let len = lower.len() - 4;
        let stem = lower.take(len);
        let cut = last_place(stem, ".part"@, len);
        let digits = stem.skip(cut + 5);
        if cut >= 0 && is_number(digits) {
            Some(
                SchemeView::Parts {
                    head: name.take(cut + 5),
                    width: digits.len() as int,
                    start: number_of(digits),
                    tail: name.skip(len),
                },
            )
        } else {
            Some(SchemeView::Old { base: name.take(len) })
        }
    } else {
        let cut = last_place(lower, ".r"@, lower.len() as int);
        let digits = lower.skip(cut + 2);
        if cut >= 0 && is_number(digits) {
            Some(
                SchemeView::Continued {
                    head: name.take(cut + 2),
                    width: digits.len() as int,
                    start: number_of(digits),
                },
            )
        } else {
            None
        }
    }
}

/// The name of the volume number `n`, counted from the one that the scheme was
/// taken from. `None` where the number is too large.
pub open spec fn volume_name(s: SchemeView, n: int) -> Option<Seq<char>> {
    match s {
        SchemeView::Parts { head, width, start, tail } => if start + n > u64::MAX {
            None
        } else {
            Some(head + padded((start + n) as nat, width) + tail)
        },
        SchemeView::Old { base } => Some(base + ".r"@ + padded((n - 1) as nat, 2)),
        SchemeView::Continued { head, width, start } => if start + n > u64::MAX {
            None
        } else {
            Some(head + padded((start + n) as nat, width))
        },
    }
}

/// The volumes from number `n` on that are present, up to the first gap.
pub open spec fn volumes_from(s: SchemeView, present: Seq<Seq<char>>, n: int) -> Seq<Seq<char>>
    decreases u64::MAX - n,
{
    if n >= u64::MAX {
        Seq::empty()
    } else {
        match volume_name(s, n) {
            Some(name) if present.contains(name) => seq![name] + volumes_from(s, present, n + 1),
            _ => Seq::empty(),
        }
    }
}

fn lower_text(s: &[char]) -> (r: Vec<char>)
    ensures
        r@ == text::lower_chars(s@),
{
    let mut out: Vec<char> = Vec::new();
    let mut i: usize = 0;
    while i < s.len()
        invariant
            i <= s.len(),
            out.len() == i,
            forall|k: int| 0 <= k < i ==> out@[k] == text::lower_chars(s@)[k],
        decreases s.len() - i,
    {
        out.push(to_lower_char(s[i]));
        i = i + 1;
    }
    assert(out@ =~= text::lower_chars(s@));
    out
}

fn find_place(s: &[char], p: &str) -> (r: Option<usize>)
    ensures
        match r {
            Some(i) => last_place(s@, p@, s@.len() as int) == i && i + p@.len() <= s.len(),
            None => last_place(s@, p@, s@.len() as int) == -1,
        },
{
    let want = chars_of(p);
    let mut i: usize = s.len();
    loop
        invariant
            i <= s.len(),
            want@ == p@,
            last_place(s@, p@, s@.len() as int) == last_place(s@, p@, i as int),
        decreases i,
    {
        let tail: &[char] = &s[i..s.len()];
        proof {
            assert(tail@ =~= s@.skip(i as int));
            if tail@.len() >= want@.len() {
                assert(tail@.take(want@.len() as int) =~= s@.subrange(i as int, i + want@.len()));
            }
        }
        if begins_exactly(tail, want.as_slice()) {
            return Some(i);
        }
        if i == 0 {
            assert(last_place(s@, p@, -1) == -1);
            return None;
        }
        i = i - 1;
    }
}

fn all_digits(s: &[char]) -> (r: bool)
    ensures
        r == is_number(s@),
{
    let mut i: usize = 0;
    while i < s.len()
        invariant
            i <= s.len(),
            forall|k: int| 0 <= k < i ==> '0' <= #[trigger] s@[k] <= '9',
        decreases s.len() - i,
    {
        if s[i] < '0' || s[i] > '9' {
            return false;
        }
        i = i + 1;
    }
    s.len() > 0
}

fn parse_number(s: &[char]) -> (r: u64)
    requires
        is_number(s@),
    ensures
        r == number_of(s@),
{
    let mut out: Vec<u8> = Vec::new();
    let mut i: usize = 0;
    while i < s.len()
        invariant
            i <= s.len(),
            is_number(s@),
            out.len() == i,
            forall|k: int| 0 <= k < i ==> out@[k] == digit_bytes(s@)[k],
        decreases s.len() - i,
    {
        assert('0' <= s@[i as int] <= '9');
        out.push(s[i] as u8);
        i = i + 1;
    }
    assert(out@ =~= digit_bytes(s@));
    match parse_digits(out.as_slice()) {
        Some(v) => v,
        None => 0,
    }
}

fn pad(n: u64, width: usize) -> (r: String)
    ensures
        r@ == padded(n as nat, width as int),
{
    let d = decimal_text(n);
    let cs = chars_of(d.as_str());
    let mut out: Vec<char> = Vec::new();
    if cs.len() < width {
        let missing: usize = width - cs.len();
        while out.len() < missing
            invariant
                out.len() <= missing,
                out@ =~= Seq::new(out@.len(), |i: int| '0'),
            decreases missing - out.len(),
        {
            out.push('0');
        }
    }
    out.extend_from_slice(cs.as_slice());
    assert(out@ =~= padded(n as nat, width as int));
    string_of(out.as_slice())
}

/// How the volumes of a set are named.
#[derive(Debug)]
pub enum Scheme {
    Parts { head: String, width: usize, start: u64, tail: String },
    Old { base: String },
    Continued { head: String, width: usize, start: u64 },
}

impl View for Scheme {
    type V = SchemeView;

    open spec fn view(&self) -> SchemeView {
        match *self {
            Scheme::Parts { head, width, start, tail } => SchemeView::Parts {
                head: head@,
                width: width as int,
                start: start as int,
                tail: tail@,
            },
            Scheme::Old { base } => SchemeView::Old { base: base@ },
            Scheme::Continued { head, width, start } => SchemeView::Continued {
                head: head@,
                width: width as int,
                start: start as int,
            },
        }
    }
}

/// A possible scheme as its model.
pub open spec fn opt_scheme(s: Option<Scheme>) -> Option<SchemeView> {
    match s {
        Some(x) => Some(x@),
        None => None,
    }
}

/// How the volumes behind the one of this name are named.
pub fn volume_scheme(name: &str) -> (r: Option<Scheme>)
    ensures
        opt_scheme(r) == scheme_of(name@),
{
    let cs = chars_of(name);
    let lower = lower_text(cs.as_slice());
    let suffix = chars_of(".rar");
    proof {
        reveal_strlit(".rar");
        reveal_strlit(".part");
        reveal_strlit(".r");
    }
    if ends_exactly(lower.as_slice(), suffix.as_slice()) {
        let len: usize = lower.len() - 4;
        let stem = copy_chars(lower.as_slice(), 0, len);
        assert(stem@ =~= lower@.take(len as int));
        if let Some(cut) = find_place(stem.as_slice(), ".part") {
            let digits = copy_chars(stem.as_slice(), cut + 5, len);
            assert(digits@ =~= stem@.skip(cut + 5));
            if all_digits(digits.as_slice()) {
                let head = copy_chars(cs.as_slice(), 0, cut + 5);
                let tail = copy_chars(cs.as_slice(), len, cs.len());
                proof {
                    assert(head@ =~= name@.take(cut + 5));
                    assert(tail@ =~= name@.skip(len as int));
                }
                return Some(
                    Scheme::Parts {
                        head: string_of(head.as_slice()),
                        width: digits.len(),
                        start: parse_number(digits.as_slice()),
                        tail: string_of(tail.as_slice()),
                    },
                );
            }
        }
        let base = copy_chars(cs.as_slice(), 0, len);
        assert(base@ =~= name@.take(len as int));
        return Some(Scheme::Old { base: string_of(base.as_slice()) });
    }
    if let Some(cut) = find_place(lower.as_slice(), ".r") {
        let digits = copy_chars(lower.as_slice(), cut + 2, lower.len());
        assert(digits@ =~= lower@.skip(cut + 2));
        if all_digits(digits.as_slice()) {
            let head = copy_chars(cs.as_slice(), 0, cut + 2);
            assert(head@ =~= name@.take(cut + 2));
            return Some(
                Scheme::Continued {
                    head: string_of(head.as_slice()),
                    width: digits.len(),
                    start: parse_number(digits.as_slice()),
                },
            );
        }
    }
    None
}

fn name_of_volume(s: &Scheme, n: u64) -> (r: Option<String>)
    requires
        n >= 1,
    ensures
        text::opt_string(r) == volume_name(s@, n as int),
{
    match s {
        Scheme::Parts { head, width, start, tail } => {
            if *start > u64::MAX - n {
                return None;
            }
            let num = pad(*start + n, *width);
            let t = join2(head.as_str(), num.as_str());
            Some(join2(t.as_str(), tail.as_str()))
        },
        Scheme::Old { base } => {
            let num = pad(n - 1, 2);
            let t = join2(base.as_str(), ".r");
            Some(join2(t.as_str(), num.as_str()))
        },
        Scheme::Continued { head, width, start } => {
            if *start > u64::MAX - n {
                return None;
            }
            let num = pad(*start + n, *width);
            Some(join2(head.as_str(), num.as_str()))
        },
    }
}

fn is_present(present: &Vec<String>, name: &str) -> (r: bool)
    ensures
        r == encoding::text_views(present@).contains(name@),
{
    let mut i: usize = 0;
    while i < present.len()
        invariant
            i <= present.len(),
            forall|k: int| 0 <= k < i ==> encoding::text_views(present@)[k] != name@,
        decreases present.len() - i,
    {
        assert(encoding::text_views(present@)[i as int] == present@[i as int]@);
        if same_text(present[i].as_str(), name) {
            assert(encoding::text_views(present@).contains(name@));
            return true;
        }
        i = i + 1;
    }
    false
}

/// The volumes behind the one of this name, out of the names that are present
/// beside it: in their order, up to the first gap.
pub open spec fn siblings(name: Seq<char>, present: Seq<Seq<char>>) -> Seq<Seq<char>> {
    match scheme_of(name) {
        None => Seq::empty(),
        Some(s) => volumes_from(s, present, 1),
    }
}

/// The volumes behind the one of this name.
pub fn sibling_volumes(name: &str, present: &Vec<String>) -> (r: Vec<String>)
    ensures
        encoding::text_views(r@) == siblings(name@, encoding::text_views(present@)),
{
    let mut out: Vec<String> = Vec::new();
    let scheme = match volume_scheme(name) {
        None => {
            assert(encoding::text_views(out@) =~= Seq::<Seq<char>>::empty());
            return out;
        },
        Some(s) => s,
    };
    let ghost there = encoding::text_views(present@);
    let ghost whole = volumes_from(scheme@, there, 1);
    let mut n: u64 = 1;
    assert(encoding::text_views(out@) + whole =~= whole);
    while n < u64::MAX
        invariant
            n >= 1,
            there == encoding::text_views(present@),
            whole == encoding::text_views(out@) + volumes_from(scheme@, there, n as int),
        ensures
            whole == encoding::text_views(out@),
        decreases u64::MAX - n,
    {
        let ghost before = encoding::text_views(out@);
        let name_n = match name_of_volume(&scheme, n) {
            Some(x) => x,
            None => {
                assert(before + Seq::<Seq<char>>::empty() =~= before);
                break;
            },
        };
        if !is_present(present, name_n.as_str()) {
            assert(before + Seq::<Seq<char>>::empty() =~= before);
            break;
        }
        let ghost shown = name_n@;
        out.push(name_n);
        n = n + 1;
        proof {
            let rest = volumes_from(scheme@, there, n as int);
            assert(encoding::text_views(out@) =~= before.push(shown));
            assert(before + (seq![shown] + rest) =~= encoding::text_views(out@) + rest);
            if n == u64::MAX {
                assert(encoding::text_views(out@) + rest =~= encoding::text_views(out@));
            }
        }
    }
    out
}

/// The generations of the format.
#[derive(Debug, Clone, Copy, PartialEq, Eq, Structural)]
pub enum Family {
    Rar13,
    Rar15To40,
    Rar50Plus,
}

/// A member as a volume's headers describe it. `link` is where it redirects to,
/// empty where it does not.
#[derive(Debug)]
pub struct Member {
    pub name: Vec<u8>,
    pub link: Vec<u8>,
    pub is_split_before: bool,
    pub is_split_after: bool,
    pub is_directory: bool,
    pub is_encrypted: bool,
    pub unpacked_size: u64,
    pub file_attr: u64,
    pub file_time: Option<u32>,
    pub is_solid: Option<bool>,
}

/// A `Member` with its texts as sequences.
pub struct MemberView {
    pub name: Seq<u8>,
    pub link: Seq<u8>,
    pub is_split_before: bool,
    pub is_split_after: bool,
    pub is_directory: bool,
    pub is_encrypted: bool,
    pub unpacked_size: u64,
    pub file_attr: u64,
    pub file_time: Option<u32>,
    pub is_solid: Option<bool>,
}

impl View for Member {
    type V = MemberView;

    open spec fn view(&self) -> MemberView {
        MemberView {
            name: self.name@,
            link: self.link@,
            is_split_before: self.is_split_before,
            is_split_after: self.is_split_after,
            is_directory: self.is_directory,
            is_encrypted: self.is_encrypted,
            unpacked_size: self.unpacked_size,
            file_attr: self.file_attr,
            file_time: self.file_time,
            is_solid: self.is_solid,
        }
    }
}

/// A volume of a set. It is solid if it says so itself or one of its members
/// does.
#[derive(Debug)]
pub struct Volume {
    pub family: Family,
    pub is_solid: bool,
    pub members: Vec<Member>,
}

/// Where an entry is: its volume, and its number among the volume's members.
#[derive(Debug, Clone, Copy, PartialEq, Eq, Structural)]
pub struct Place {
    pub volume: usize,
    pub ordinal: usize,
    /// The entry goes on in the next volume.
    pub split: bool,
}

/// The bits of a Unix mode that say what a file is.
pub const S_IFMT: u32 = 0o170000;

/// The permissions in the attributes of a member, if they are a Unix mode: that
/// of a file, a directory or a link.
pub open spec fn mode_of(attr: u64) -> Option<u32> {
    if attr > u32::MAX {
        None
    } else {
        let a = attr as u32;
        let kind = a & S_IFMT;
        if kind == 0o100000 || kind == 0o040000 || kind == 0o120000 { Some(a & 0o7777) } else { None }
    }
}

/// The permissions in the attributes of a member, if they are a Unix mode.
pub fn unix_mode(attr: u64) -> (r: Option<u32>)
    ensures
        r == mode_of(attr),
{
    if attr > u32::MAX as u64 {
        return None;
    }
    let a: u32 = attr as u32;
    let kind: u32 = a & S_IFMT;
    if kind == 0o100000 || kind == 0o040000 || kind == 0o120000 {
        Some(a & 0o7777)
    } else {
        None
    }
}

/// When a member was changed: the fifth generation stores an instant, the
/// others what the clock on the wall showed.
pub open spec fn stamp_of(family: Family, time: Option<u32>) -> Option<Stamp> {
    match time {
        None => None,
        Some(t) => if family == Family::Rar50Plus {
            Some(Stamp::Instant(datetime::at_second(t as int)))
        } else {
            match datetime::wall_clock(datetime::dos_civil((t / 65536) as u16, (t % 65536) as u16)) {
                Some(c) => Some(Stamp::WallClock(c)),
                None => None,
            }
        },
    }
}

/// When a member was changed.
pub fn modified(family: Family, time: Option<u32>) -> (r: Option<Stamp>)
    ensures
        r == stamp_of(family, time),
{
    match time {
        None => None,
        Some(t) => match family {
            Family::Rar50Plus => Some(Stamp::Instant(Timestamp { secs: t as i128, nanos: 0 })),
            _ => match dos_words_to_systime((t / 65536) as u16, (t % 65536) as u16) {
                Some(c) => Some(Stamp::WallClock(c)),
                None => None,
            },
        },
    }
}

/// A member and where it is.
pub struct Located {
    pub place: Place,
    pub family: Family,
    pub member: MemberView,
}

/// The members of one volume that begin in it, among the first `n`.
pub open spec fn heads_in(volume: Volume, number: int, n: int) -> Seq<Located>
    decreases n,
{
    if n <= 0 {
        Seq::empty()
    } else {
        let m = volume.members@[n - 1]@;
        if m.is_split_before {
            heads_in(volume, number, n - 1)
        } else {
            heads_in(volume, number, n - 1).push(
                Located {
                    place: Place { volume: number as usize, ordinal: (n - 1) as usize, split: m.is_split_after },
                    family: volume.family,
                    member: m,
                },
            )
        }
    }
}

/// The members of the first `n` volumes, each where it begins.
pub open spec fn heads_of(volumes: Seq<Volume>, n: int) -> Seq<Located>
    decreases n,
{
    if n <= 0 {
        Seq::empty()
    } else {
        heads_of(volumes, n - 1) + heads_in(volumes[n - 1], n - 1, volumes[n - 1].members.len() as int)
    }
}

/// A member that is cut by the end of a volume.
pub open spec fn is_cut(m: MemberView) -> bool {
    m.is_split_before || m.is_split_after
}

/// Some member of the first `n` volumes is cut.
pub open spec fn any_cut(volumes: Seq<Volume>, n: int) -> bool {
    exists|v: int, k: int|
        0 <= v < n && 0 <= k < volumes[v].members.len() && is_cut(#[trigger] volumes[v].members@[k]@)
}

/// The raw names of members.
pub open spec fn names_of(heads: Seq<Located>) -> Seq<Seq<u8>> {
    heads.map_values(|h: Located| h.member.name)
}

/// Where members redirect to.
pub open spec fn links_of(heads: Seq<Located>) -> Seq<Seq<u8>> {
    heads.map_values(|h: Located| h.member.link)
}

/// What a member is: a redirection is a link, even where it is a directory too.
pub open spec fn kind_of(m: MemberView, target: Seq<char>) -> KindView {
    if target.len() > 0 {
        KindView::Symlink(target)
    } else if m.is_directory {
        KindView::Dir
    } else {
        KindView::File
    }
}

/// The entry of a member with its decoded name and target.
pub open spec fn entry_of(h: Located, name: Seq<char>, target: Seq<char>) -> EntryView {
    EntryView {
        path_raw: h.member.name,
        path: name,
        kind: kind_of(h.member, target),
        size: h.member.unpacked_size,
        mode: mode_of(h.member.file_attr),
        is_encrypted: h.member.is_encrypted,
        modified: stamp_of(h.family, h.member.file_time),
        is_resource_fork: false,
    }
}

/// Some member redirects.
pub open spec fn any_link(heads: Seq<Located>) -> bool {
    exists|i: int| 0 <= i < heads.len() && (#[trigger] heads[i]).member.link.len() > 0
}

/// The listing of a set: names and targets are decoded in the one encoding that
/// the names settle.
pub open spec fn listing_of(heads: Seq<Located>, label: Option<Seq<char>>) -> Seq<EntryView> {
    let one = Some(encoding::settled(names_of(heads), label));
    let names = encoding::decoded_names(names_of(heads), one);
    let targets = encoding::decoded_names(links_of(heads), one);
    Seq::new(
        heads.len(),
        |i: int| entry_of(heads[i], names[i], if any_link(heads) { targets[i] } else { Seq::empty() }),
    )
}

/// The table of contents of a set.
#[derive(Debug)]
pub struct Toc {
    pub entries: Vec<Entry>,
    pub places: Vec<Place>,
    /// Some member is cut by the end of a volume.
    pub any_split: bool,
}

/// What is gathered of the members where they begin.
struct Gathered {
    names: Vec<Vec<u8>>,
    links: Vec<Vec<u8>>,
    places: Vec<Place>,
    any_split: bool,
    any_link: bool,
}

/// The lists go with these members.
spec fn goes_with(g: Gathered, heads: Seq<Located>) -> bool {
    &&& encoding::raw_views(g.names@) =~= names_of(heads)
    &&& encoding::raw_views(g.links@) =~= links_of(heads)
    &&& g.places@ =~= heads.map_values(|h: Located| h.place)
    &&& g.any_link == any_link(heads)
}

/// Every place is that of a member.
spec fn places_exist(g: Gathered, volumes: Seq<Volume>, heads: Seq<Located>) -> bool {
    forall|i: int|
        0 <= i < heads.len() ==> (#[trigger] heads[i]).place.volume < volumes.len() && heads[i].place.ordinal
            < volumes[heads[i].place.volume as int].members.len() && heads[i].member
            == volumes[heads[i].place.volume as int].members@[heads[i].place.ordinal as int]@ && heads[i].family
            == volumes[heads[i].place.volume as int].family
}

fn gather(volumes: &Vec<Volume>) -> (r: Gathered)
    ensures
        goes_with(r, heads_of(volumes@, volumes.len() as int)),
        places_exist(r, volumes@, heads_of(volumes@, volumes.len() as int)),
        r.any_split == any_cut(volumes@, volumes.len() as int),
{
    let mut g = Gathered {
        names: Vec::new(),
        links: Vec::new(),
        places: Vec::new(),
        any_split: false,
        any_link: false,
    };
    let mut n: usize = 0;
    while n < volumes.len()
        invariant
            n <= volumes.len(),
            goes_with(g, heads_of(volumes@, n as int)),
            places_exist(g, volumes@, heads_of(volumes@, n as int)),
            g.any_split == any_cut(volumes@, n as int),
        decreases volumes.len() - n,
    {
        let volume = &volumes[n];
        let ghost before = heads_of(volumes@, n as int);
        let ghost cut_before = g.any_split;
        let mut k: usize = 0;
        proof {
            assert(before + heads_in(*volume, n as int, 0) =~= before);
        }
        while k < volume.members.len()
            invariant
                k <= volume.members.len(),
                n < volumes.len(),
                *volume == volumes@[n as int],
                before == heads_of(volumes@, n as int),
                goes_with(g, before + heads_in(*volume, n as int, k as int)),
                places_exist(g, volumes@, before + heads_in(*volume, n as int, k as int)),
                cut_before == any_cut(volumes@, n as int),
                g.any_split == (cut_before || exists|j: int| 0 <= j < k && is_cut(#[trigger] volume.members@[j]@)),
            decreases volume.members.len() - k,
        {
            let m = &volume.members[k];
            let ghost so_far = before + heads_in(*volume, n as int, k as int);
            let ghost next = before + heads_in(*volume, n as int, k + 1);
            let ghost was = g;
            if m.is_split_before || m.is_split_after {
                g.any_split = true;
                assert(is_cut(volume.members@[k as int]@));
            } else {
                assert(!is_cut(volume.members@[k as int]@));
            }
            if !m.is_split_before {
                let place = Place { volume: n, ordinal: k, split: m.is_split_after };
                g.names.push(copy_bytes(m.name.as_slice()));
                g.links.push(copy_bytes(m.link.as_slice()));
                g.places.push(place);
                if m.link.len() > 0 {
                    g.any_link = true;
                }
                proof {
                    let h = Located { place, family: volume.family, member: m@ };
                    assert(next =~= so_far.push(h));
                    assert(names_of(next) =~= names_of(so_far).push(m@.name));
                    assert(links_of(next) =~= links_of(so_far).push(m@.link));
                    assert(encoding::raw_views(g.names@) =~= encoding::raw_views(was.names@).push(m@.name));
                    assert(encoding::raw_views(g.links@) =~= encoding::raw_views(was.links@).push(m@.link));
                    assert(next.map_values(|x: Located| x.place) =~= so_far.map_values(|x: Located| x.place).push(place));
                    assert(g.any_link == any_link(next)) by {
                        if any_link(so_far) {
                            let i = choose|i: int| 0 <= i < so_far.len() && (#[trigger] so_far[i]).member.link.len() > 0;
                            assert(next[i] == so_far[i]);
                        }
                        if m@.link.len() > 0 {
                            assert(next[so_far.len() as int] == h);
                        }
                        if any_link(next) {
                            let i = choose|i: int| 0 <= i < next.len() && (#[trigger] next[i]).member.link.len() > 0;
                            if i < so_far.len() {
                                assert(so_far[i] == next[i]);
                            }
                        }
                    }
                    assert forall|i: int| 0 <= i < next.len() implies (#[trigger] next[i]).place.volume < volumes@.len()
                        && next[i].place.ordinal < volumes@[next[i].place.volume as int].members.len()
                        && next[i].member
                        == volumes@[next[i].place.volume as int].members@[next[i].place.ordinal as int]@
                        && next[i].family == volumes@[next[i].place.volume as int].family by {
                        if i < so_far.len() {
                            assert(next[i] == so_far[i]);
                        } else {
                            assert(next[i] == h);
                        }
                    }
                }
            } else {
                assert(next =~= so_far);
            }
            k = k + 1;
        }
        proof {
            if g.any_split && !cut_before {
                let j = choose|j: int| 0 <= j < volume.members.len() && is_cut(#[trigger] volume.members@[j]@);
                assert(is_cut(volumes@[n as int].members@[j]@));
            }
            if any_cut(volumes@, n + 1) {
                let (v, j) = choose|v: int, j: int|
                    0 <= v < n + 1 && 0 <= j < volumes@[v].members.len() && is_cut(#[trigger] volumes@[v].members@[j]@);
                if v < n {
                    assert(any_cut(volumes@, n as int));
                }
            }
            if cut_before {
                let (v, j) = choose|v: int, j: int|
                    0 <= v < n && 0 <= j < volumes@[v].members.len() && is_cut(#[trigger] volumes@[v].members@[j]@);
                assert(is_cut(volumes@[v].members@[j]@));
            }
        }
        n = n + 1;
    }
    g
}

/// Make the table of contents of a set.
pub fn list(volumes: &Vec<Volume>, encoding: Option<&str>) -> (r: Toc)
    ensures
        archive::views(r.entries@) == listing_of(heads_of(volumes@, volumes.len() as int), text::opt_text(encoding)),
        r.places@ == heads_of(volumes@, volumes.len() as int).map_values(|h: Located| h.place),
        r.any_split == any_cut(volumes@, volumes.len() as int),
{
    let g = gather(volumes);
    let ghost heads = heads_of(volumes@, volumes.len() as int);
    let ghost label = text::opt_text(encoding);
    let ghost one = Some(encoding::settled(names_of(heads), label));
    let settled_label = detect_encoding(g.names.as_slice(), encoding);
    let names = decode_names(g.names.as_slice(), Some(settled_label.as_str()));
    let targets = decode_names(g.links.as_slice(), Some(settled_label.as_str()));
    let ghost want = listing_of(heads, label);
    let mut entries: Vec<Entry> = Vec::new();
    let mut i: usize = 0;
    proof {
        assert(heads.len() == g.places@.len());
        assert(encoding::raw_views(g.names@).len() == heads.len());
        assert(encoding::raw_views(g.links@).len() == heads.len());
    }
    while i < g.places.len()
        invariant
            i <= g.places.len(),
            heads == heads_of(volumes@, volumes.len() as int),
            want == listing_of(heads, label),
            one == Some(encoding::settled(names_of(heads), label)),
            goes_with(g, heads),
            places_exist(g, volumes@, heads),
            g.places.len() == heads.len(),
            names.len() == heads.len(),
            targets.len() == heads.len(),
            encoding::text_views(names@) == encoding::decoded_names(names_of(heads), one),
            encoding::text_views(targets@) == encoding::decoded_names(links_of(heads), one),
            entries.len() == i,
            forall|k: int| 0 <= k < i ==> (#[trigger] entries@[k])@ == want[k],
        decreases g.places.len() - i,
    {
        let place = g.places[i];
        proof {
            assert(heads[i as int].place == place) by {
                assert(heads.map_values(|h: Located| h.place)[i as int] == heads[i as int].place);
            }
            assert(encoding::text_views(names@)[i as int] == names@[i as int]@);
            assert(encoding::text_views(targets@)[i as int] == targets@[i as int]@);
        }
        let volume = &volumes[place.volume];
        let m = &volume.members[place.ordinal];
        let linked = g.any_link && !same_text(targets[i].as_str(), "");
        proof {
            reveal_strlit("");
            if targets@[i as int]@.len() == 0 {
                assert(targets@[i as int]@ =~= ""@);
            }
        }
        let kind = if linked {
            EntryKind::Symlink { target: copy_text(targets[i].as_str()) }
        } else if m.is_directory {
            EntryKind::Dir
        } else {
            EntryKind::File
        };
        let entry = Entry {
            path_raw: copy_bytes(m.name.as_slice()),
            path: copy_text(names[i].as_str()),
            kind,
            size: m.unpacked_size,
            mode: unix_mode(m.file_attr),
            is_encrypted: m.is_encrypted,
            modified: modified(volume.family, m.file_time),
            is_resource_fork: false,
        };
        proof {
            assert(entry@ == want[i as int]);
        }
        entries.push(entry);
        i = i + 1;
    }
    proof {
        assert(archive::views(entries@) =~= want);
    }
    Toc { entries, places: g.places, any_split: g.any_split }
}

/// The one family of a set, if all its volumes are of it.
pub open spec fn family_of(volumes: Seq<Volume>) -> Option<Family> {
    if volumes.len() > 0 && forall|i: int| 0 <= i < volumes.len() ==> (#[trigger] volumes[i]).family == volumes[0].family {
        Some(volumes[0].family)
    } else {
        None
    }
}

/// The one family of a set.
pub fn from_family(volumes: &Vec<Volume>) -> (r: Result<Family, Error>)
    ensures
        match family_of(volumes@) {
            Some(f) => r == Ok::<Family, Error>(f),
            None => error::fails_with(
                r,
                ErrorView::Corrupt("rar: тома набора разных поколений формата"@),
            ),
        },
{
    let mut i: usize = 0;
    while i < volumes.len()
        invariant
            i <= volumes.len(),
            forall|k: int| 0 <= k < i ==> (#[trigger] volumes@[k]).family == volumes@[0].family,
        decreases volumes.len() - i,
    {
        if volumes[i].family != volumes[0].family {
            return Err(corrupt("rar: тома набора разных поколений формата"));
        }
        i = i + 1;
    }
    if volumes.len() == 0 {
        Err(corrupt("rar: тома набора разных поколений формата"))
    } else {
        Ok(volumes[0].family)
    }
}

/// A member that is unpacked out of what was unpacked before it. Where that
/// cannot be told, it counts as one: the failure then comes up at this member,
/// not as damage to others.
pub open spec fn leans_back(family: Family, m: MemberView) -> bool {
    match family {
        Family::Rar13 => false,
        Family::Rar15To40 => m.is_solid != Some(false),
        Family::Rar50Plus => !m.is_directory && m.is_solid != Some(false),
    }
}

/// A volume that says so of itself or of a member.
pub open spec fn volume_solid(v: Volume) -> bool {
    v.is_solid || exists|k: int| 0 <= k < v.members.len() && leans_back(v.family, #[trigger] v.members@[k]@)
}

/// Some volume is solid: its members are unpacked out of those before them.
pub open spec fn any_solid(volumes: Seq<Volume>) -> bool {
    exists|i: int| 0 <= i < volumes.len() && volume_solid(#[trigger] volumes[i])
}

fn member_leans_back(family: Family, m: &Member) -> (r: bool)
    ensures
        r == leans_back(family, m@),
{
    let solid = match m.is_solid {
        Some(s) => s,
        None => true,
    };
    match family {
        Family::Rar13 => false,
        Family::Rar15To40 => solid,
        Family::Rar50Plus => !m.is_directory && solid,
    }
}

fn is_volume_solid(v: &Volume) -> (r: bool)
    ensures
        r == volume_solid(*v),
{
    if v.is_solid {
        return true;
    }
    let mut k: usize = 0;
    while k < v.members.len()
        invariant
            k <= v.members.len(),
            !v.is_solid,
            forall|j: int| 0 <= j < k ==> !leans_back(v.family, #[trigger] v.members@[j]@),
        decreases v.members.len() - k,
    {
        if member_leans_back(v.family, &v.members[k]) {
            assert(leans_back(v.family, v.members@[k as int]@));
            return true;
        }
        k = k + 1;
    }
    false
}

fn is_solid(volumes: &Vec<Volume>) -> (r: bool)
    ensures
        r == any_solid(volumes@),
{
    let mut i: usize = 0;
    while i < volumes.len()
        invariant
            i <= volumes.len(),
            forall|k: int| 0 <= k < i ==> !volume_solid(#[trigger] volumes@[k]),
        decreases volumes.len() - i,
    {
        if is_volume_solid(&volumes[i]) {
            assert(volume_solid(volumes@[i as int]));
            return true;
        }
        i = i + 1;
    }
    false
}

/// What the unpacker reports when it fails.
#[derive(Debug)]
pub enum Failure {
    /// A failure in a known entry or at a known place; `text` tells all of it.
    Within { text: String, source: Box<Failure> },
    NeedPassword,
    WrongPasswordOrCorruptData,
    Io(IoError),
    UnsupportedSignature,
    /// A version, a feature or a method that the unpacker does not know.
    Unsupported(String),
    Other(String),
}

/// A `Failure` with its texts as sequences of characters.
pub enum FailureView {
    Within(Seq<char>, Box<FailureView>),
    NeedPassword,
    WrongPasswordOrCorruptData,
    Io(IoKind, Seq<char>),
    UnsupportedSignature,
    Unsupported(Seq<char>),
    Other(Seq<char>),
}

impl Failure {
    /// The model of this failure.
    pub open spec fn shown(&self) -> FailureView
        decreases self,
    {
        match *self {
            Failure::Within { text, source } => FailureView::Within(text@, Box::new(source.shown())),
            Failure::NeedPassword => FailureView::NeedPassword,
            Failure::WrongPasswordOrCorruptData => FailureView::WrongPasswordOrCorruptData,
            Failure::Io(e) => FailureView::Io(e.kind, e.message@),
            Failure::UnsupportedSignature => FailureView::UnsupportedSignature,
            Failure::Unsupported(m) => FailureView::Unsupported(m@),
            Failure::Other(m) => FailureView::Other(m@),
        }
    }
}

/// How a failure of the unpacker is reported: by its cause, but damage with the
/// text that says where.
pub open spec fn failure_error(f: FailureView) -> ErrorView
    decreases f,
{
    match f {
        FailureView::Within(text, source) => match failure_error(*source) {
            ErrorView::Corrupt(_) => ErrorView::Corrupt(text),
            mapped => mapped,
        },
        FailureView::NeedPassword => ErrorView::Encrypted,
        FailureView::WrongPasswordOrCorruptData => ErrorView::WrongPassword,
        FailureView::Io(kind, message) => ErrorView::Io { kind, message },
        FailureView::UnsupportedSignature => ErrorView::UnknownFormat,
        FailureView::Unsupported(m) => ErrorView::Unsupported { format: "rar"@, feature: m },
        FailureView::Other(m) => ErrorView::Corrupt(m),
    }
}

/// A failure of the unpacker as an error of this library.
pub fn map_err(f: Failure) -> (r: Error)
    ensures
        r@ == failure_error(f.shown()),
    decreases f,
{
    match f {
        Failure::Within { text, source } => match map_err(*source) {
            Error::Corrupt(_) => Error::Corrupt(text),
            mapped => mapped,
        },
        Failure::NeedPassword => Error::Encrypted,
        Failure::WrongPasswordOrCorruptData => Error::WrongPassword,
        Failure::Io(e) => Error::Io(e),
        Failure::UnsupportedSignature => Error::UnknownFormat,
        Failure::Unsupported(m) => unsupported("rar", m.as_str()),
        Failure::Other(m) => Error::Corrupt(m),
    }
}

/// Why an entry is missing that the pass did not reach: a cause that calls for a
/// password or names what is not supported stays what it is.
pub open spec fn missing(broke_on: Option<ErrorView>, idx: int) -> ErrorView {
    match broke_on {
        None => ErrorView::Corrupt("rar: заголовки кончились на записи "@ + text::decimal(idx as nat)),
        Some(e) => match e {
            ErrorView::WrongPassword | ErrorView::Encrypted | ErrorView::Unsupported { .. } => e,
            other => ErrorView::Corrupt(
                "rar: обход архива прервался ("@ + error::message_of(other) + "), до этой записи он не дошёл"@,
            ),
        },
    }
}

/// Why an entry is missing that the pass did not reach.
pub fn not_reached(broke_on: Option<&Error>, idx: usize) -> (r: Error)
    ensures
        r@ == missing(
            match broke_on {
                Some(e) => Some(e@),
                None => None,
            },
            idx as int,
        ),
{
    match broke_on {
        None => {
            let n = decimal_text(idx as u64);
            Error::Corrupt(join2("rar: заголовки кончились на записи ", n.as_str()))
        },
        Some(e) => match e {
            Error::WrongPassword => Error::WrongPassword,
            Error::Encrypted => Error::Encrypted,
            Error::Unsupported { format, feature } => unsupported(format.as_str(), feature.as_str()),
            other => {
                let m = other.to_string();
                let t = join2("rar: обход архива прервался (", m.as_str());
                Error::Corrupt(join2(t.as_str(), "), до этой записи он не дошёл"))
            },
        },
    }
}

/// An opened set of volumes.
#[derive(Debug)]
pub struct RarArchive {
    pub entries: Vec<Entry>,
    pub places: Vec<Place>,
    pub family: Family,
    /// Entries can only be had in one pass from the start.
    pub one_pass: bool,
    pub solid: bool,
}

/// Reads RAR archives.
#[derive(Debug, Clone, Copy)]
pub struct RarHandler;

impl FormatHandler for RarHandler {
    open spec fn spec_id(&self) -> FormatId {
        FormatId::Rar
    }

    open spec fn spec_probe(&self, header: Seq<u8>, name: Option<Seq<char>>) -> Confidence {
        archive::magic_when(bytes::stands_at(header, 0, RAR_MAGIC@))
    }

    fn id(&self) -> (r: FormatId) {
        FormatId::Rar
    }

    fn probe(&self, header: &[u8], name: Option<&str>) -> (r: Confidence) {
        Confidence::magic_if(starts_with(header, &RAR_MAGIC))
    }
}

/// A set is opened from the headers of its volumes.
pub open spec fn opens_as(a: RarArchive, volumes: Seq<Volume>, label: Option<Seq<char>>) -> bool {
    let heads = heads_of(volumes, volumes.len() as int);
    &&& archive::views(a.entries@) == listing_of(heads, label)
    &&& a.places@ == heads.map_values(|h: Located| h.place)
    &&& family_of(volumes) == Some(a.family)
    &&& a.solid == any_solid(volumes)
    &&& a.one_pass == (any_solid(volumes) || any_cut(volumes, volumes.len() as int))
}

impl RarHandler {
    /// Open a set whose headers were read, or could not be. It must come from a
    /// file.
    pub fn open(&self, src: &Source, volumes: Result<Vec<Volume>, Failure>, opts: &OpenOptions) -> (r: Result<
        RarArchive,
        Error,
    >)
        ensures
            if src.spec_path() is None {
                error::fails_with(
                    r,
                    ErrorView::Unsupported { format: "rar"@, feature: "non-file source"@ },
                )
            } else {
                match volumes {
                    Err(f) => error::fails_with(r, failure_error(f.shown())),
                    Ok(v) => if family_of(v@) is None {
                        error::fails_with(
                            r,
                            ErrorView::Corrupt("rar: тома набора разных поколений формата"@),
                        )
                    } else {
                        r matches Ok(a) && opens_as(a, v@, text::opt_string(opts.encoding_override))
                    },
                }
            },
    {
        if src.file_path().is_none() {
            return Err(unsupported("rar", "non-file source"));
        }
        let volumes = match volumes {
            Err(f) => {
                return Err(map_err(f));
            },
            Ok(v) => v,
        };
        let toc = list(&volumes, opts.label());
        let family = match from_family(&volumes) {
            Err(e) => {
                return Err(e);
            },
            Ok(f) => f,
        };
        let solid = is_solid(&volumes);
        Ok(
            RarArchive {
                entries: toc.entries,
                places: toc.places,
                family,
                one_pass: solid || toc.any_split,
                solid,
            },
        )
    }
}

impl RarArchive {
    /// The first index that names no entry.
    pub fn invalid_index(&self, indices: &[usize]) -> (r: Option<usize>)
        ensures
            r == cab::first_invalid(indices@, self.entries@.len() as int, 0),
    {
        let mut i: usize = 0;
        while i < indices.len()
            invariant
                i <= indices.len(),
                cab::first_invalid(indices@, self.entries@.len() as int, 0) == cab::first_invalid(
                    indices@,
                    self.entries@.len() as int,
                    i as int,
                ),
            decreases indices.len() - i,
        {
            if indices[i] >= self.entries.len() {
                return Some(indices[i]);
            }
            i = i + 1;
        }
        None
    }

    /// Whether an entry can be unpacked without what lies before it.
    pub fn alone_readable(&self, idx: usize) -> (r: bool)
        requires
            idx < self.places.len(),
        ensures
            r == (!self.solid && !self.places@[idx as int].split),
    {
        !self.solid && !self.places[idx].split
    }

    /// Why an entry that the pass did not reach cannot be had; `None` where it
    /// can be unpacked alone.
    pub fn refusal(&self, idx: usize, broke_on: Option<&Error>) -> (r: Option<Error>)
        requires
            idx < self.places.len(),
        ensures
            delivery::opt_error(r) == if !self.solid && !self.places@[idx as int].split {
                None
            } else {
                Some(
                    missing(
                        match broke_on {
                            Some(e) => Some(e@),
                            None => None,
                        },
                        idx as int,
                    ),
                )
            },
    {
        if self.alone_readable(idx) {
            None
        } else {
            Some(not_reached(broke_on, idx))
        }
    }

    /// Prepare one entry for a sink. `refusal` tells that it cannot be had;
    /// `unpacked` is what came out of unpacking it. Directories and links have no
    /// body.
    pub fn prepare(&self, idx: usize, refusal: Option<Error>, unpacked: (Vec<u8>, Option<Error>)) -> (r: Delivery)
        requires
            idx < self.entries.len(),
        ensures
            r@ == (DeliveryView {
                idx: idx as int,
                body: if refusal is None && self.entries@[idx as int].kind is File {
                    unpacked.0@
                } else {
                    Seq::empty()
                },
                failure: if refusal is Some {
                    delivery::opt_error(refusal)
                } else if self.entries@[idx as int].kind is File {
                    delivery::opt_error(unpacked.1)
                } else {
                    None
                },
                drain: None,
            }),
    {
        let none: Vec<u8> = Vec::new();
        assert(none@ =~= Seq::<u8>::empty());
        match refusal {
            Some(e) => Delivery { idx, body: none, failure: Some(e), drain: None },
            None => match self.entries[idx].kind {
                EntryKind::File => Delivery { idx, body: unpacked.0, failure: unpacked.1, drain: None },
                _ => Delivery { idx, body: none, failure: None, drain: None },
            },
        }
    }
}

/// What a trial of the password comes to, given how reading the first encrypted
/// entry went.
pub open spec fn trial_verdict(read: Result<(), ErrorView>, has_password: bool) -> Result<(), ErrorView> {
    match read {
        Ok(()) => Ok(()),
        Err(ErrorView::Encrypted) => Err(ErrorView::Encrypted),
        Err(ErrorView::WrongPassword) => Err(ErrorView::WrongPassword),
        Err(_) => if has_password { Err(ErrorView::WrongPassword) } else { Err(ErrorView::Encrypted) },
    }
}

/// What a trial of the password comes to.
pub fn judge_trial(read: Result<(), Error>, has_password: bool) -> (r: Result<(), Error>)
    ensures
        archive::outcome_view(r) == trial_verdict(archive::outcome_view(read), has_password),
{
    match read {
        Ok(()) => Ok(()),
        Err(Error::Encrypted) => Err(Error::Encrypted),
        Err(Error::WrongPassword) => Err(Error::WrongPassword),
        Err(_) => if has_password {
            Err(Error::WrongPassword)
        } else {
            Err(Error::Encrypted)
        },
    }
}

/// Where a walker stands.
pub struct WalkerView {
    /// The wanted entries.
    pub want: Seq<usize>,
    /// How many of them were handed out.
    pub next: int,
    /// The number of the entry that the unpacker comes to next.
    pub pos: int,
    /// The entry whose body is being written.
    pub open: Option<int>,
    /// Why the sink refused a piece of that body.
    pub refusal: Option<ErrorView>,
    /// The sink broke the pass off.
    pub fatal: Option<ErrorView>,
    /// The sink ended the pass.
    pub stop: bool,
    /// The calls that the sink was given.
    pub history: Seq<SinkEvent>,
}

/// All wanted entries were handed out.
pub open spec fn is_exhausted(w: WalkerView) -> bool {
    w.next >= w.want.len()
}

/// The open entry is ended with `outcome`, unless the sink refused its body,
/// and the sink gives this answer.
pub open spec fn after_end(w: WalkerView, outcome: Result<(), ErrorView>, answer: Result<bool, ErrorView>) -> WalkerView {
    WalkerView {
        next: w.next + 1,
        open: None,
        refusal: None,
        fatal: match answer {
            Err(e) => Some(e),
            Ok(_) => w.fatal,
        },
        stop: w.stop || answer == Ok::<bool, ErrorView>(false),
        history: w.history.push(
            SinkEvent::End {
                idx: w.open->0,
                outcome: match w.refusal {
                    Some(e) => Err(e),
                    None => outcome,
                },
                answer,
            },
        ),
        ..w
    }
}

/// What ending the open entry, if there is one, comes to; `goes_on` tells
/// whether the sink wants more.
pub open spec fn ends(w: WalkerView, outcome: Result<(), ErrorView>, then: WalkerView, goes_on: bool) -> bool {
    match w.open {
        None => then == w && goes_on,
        Some(_) => exists|answer: Result<bool, ErrorView>|
            then == #[trigger] after_end(w, outcome, answer) && goes_on == (answer == Ok::<bool, ErrorView>(true)),
    }
}

/// The sink is told of the entry that the unpacker has come to, and gives this
/// answer.
pub open spec fn after_begin(w: WalkerView, answer: Result<SinkStep, ErrorView>) -> WalkerView {
    let told = WalkerView { history: w.history.push(SinkEvent::Begin { idx: w.pos, answer }), pos: w.pos + 1, ..w };
    match answer {
        Ok(SinkStep::Body) => WalkerView { open: Some(w.pos), ..told },
        Ok(SinkStep::Skip) => WalkerView { next: w.next + 1, ..told },
        Ok(SinkStep::Stop) => WalkerView { stop: true, ..told },
        Err(e) => WalkerView { fatal: Some(e), ..told },
    }
}

/// What becomes of the entry that the unpacker has come to: its body is wanted,
/// it is passed over, or the pass is cancelled.
pub open spec fn opened(w: WalkerView, then: WalkerView, r: Result<bool, ()>) -> bool {
    if w.stop || is_exhausted(w) {
        then == w && r is Err
    } else if w.pos != w.want[w.next] {
        then == (WalkerView { pos: w.pos + 1, ..w }) && r == Ok::<bool, ()>(false)
    } else {
        exists|answer: Result<SinkStep, ErrorView>|
            then == #[trigger] after_begin(w, answer) && match answer {
                Ok(SinkStep::Body) => r == Ok::<bool, ()>(true),
                Ok(SinkStep::Skip) => r == Ok::<bool, ()>(false),
                _ => r is Err,
            }
    }
}

/// Hands the wanted entries of one pass to a sink, while the unpacker goes
/// through the archive from its start. The unpacker says when it comes to an
/// entry and hands over pieces of bodies, but not when a body is over.
pub struct Walker<'a, S: EntrySink> {
    want: Vec<usize>,
    next: usize,
    pos: usize,
    sink: &'a mut S,
    open: Option<usize>,
    refused: Option<Error>,
    fatal: Option<Error>,
    stop: bool,
}

impl<'a, S: EntrySink> Walker<'a, S> {
    /// Where the walker stands.
    pub closed spec fn state(&self) -> WalkerView {
        WalkerView {
            want: self.want@,
            next: self.next as int,
            pos: self.pos as int,
            open: match self.open {
                Some(i) => Some(i as int),
                None => None,
            },
            refusal: delivery::opt_error(self.refused),
            fatal: delivery::opt_error(self.fatal),
            stop: self.stop,
            history: self.sink.history(),
        }
    }

    /// The open entry is one of the wanted.
    pub closed spec fn wf(&self) -> bool {
        self.open is Some ==> self.next < self.want.len()
    }

    /// Begin a pass.
    pub fn new(want: Vec<usize>, sink: &'a mut S) -> (r: Walker<'a, S>)
        ensures
            r.state() == (WalkerView {
                want: want@,
                next: 0,
                pos: 0,
                open: None,
                refusal: None,
                fatal: None,
                stop: false,
                history: old(sink).history(),
            }),
            r.wf(),
    {
        Walker { want, next: 0, pos: 0, sink, open: None, refused: None, fatal: None, stop: false }
    }

    /// End the open entry, if there is one. `false` cancels the pass.
    pub fn close_open(&mut self, outcome: Result<(), Error>) -> (r: bool)
        requires
            old(self).wf(),
        ensures
            final(self).wf(),
            ends(old(self).state(), archive::outcome_view(outcome), final(self).state(), r),
    {
        let idx: usize = match self.open.take() {
            None => {
                return true;
            },
            Some(idx) => idx,
        };
        let ghost before = old(self).state();
        let ghost said = archive::outcome_view(outcome);
        let result = match self.refused.take() {
            Some(e) => Err(e),
            None => outcome,
        };
        self.next = self.next + 1;
        match self.sink.end(idx, result) {
            Ok(true) => {
                proof {
                    let answer = Ok::<bool, ErrorView>(true);
                    assert(self.state() == after_end(before, said, answer));
                }
                true
            },
            Ok(false) => {
                self.stop = true;
                proof {
                    let answer = Ok::<bool, ErrorView>(false);
                    assert(self.state() == after_end(before, said, answer));
                }
                false
            },
            Err(e) => {
                let ghost shown = e@;
                self.fatal = Some(e);
                proof {
                    let answer = Err::<bool, ErrorView>(shown);
                    assert(self.state() == after_end(before, said, answer));
                }
                false
            },
        }
    }

    /// The unpacker comes to the next entry. `true` asks for its body, an error
    /// cancels the pass.
    pub fn open_body(&mut self) -> (r: Result<bool, ()>)
        requires
            old(self).wf(),
            old(self).state().pos < usize::MAX,
        ensures
            final(self).wf(),
            exists|between: WalkerView, goes_on: bool|
                #[trigger] ends(old(self).state(), Ok(()), between, goes_on) && if goes_on {
                    opened(between, final(self).state(), r)
                } else {
                    final(self).state() == between && r is Err
                },
    {
        let goes_on = self.close_open(Ok(()));
        let ghost between = self.state();
        proof {
            assert(ends(old(self).state(), Ok(()), between, goes_on));
        }
        if !goes_on {
            return Err(());
        }
        if self.stop || self.next >= self.want.len() {
            return Err(());
        }
        let pos: usize = self.pos;
        self.pos = pos + 1;
        if pos != self.want[self.next] {
            return Ok(false);
        }
        match self.sink.begin(pos) {
            Ok(SinkStep::Body) => {
                self.open = Some(pos);
                proof {
                    let answer = Ok::<SinkStep, ErrorView>(SinkStep::Body);
                    assert(self.state() == after_begin(between, answer));
                }
                Ok(true)
            },
            Ok(SinkStep::Skip) => {
                self.next = self.next + 1;
                proof {
                    let answer = Ok::<SinkStep, ErrorView>(SinkStep::Skip);
                    assert(self.state() == after_begin(between, answer));
                }
                Ok(false)
            },
            Ok(SinkStep::Stop) => {
                self.stop = true;
                proof {
                    let answer = Ok::<SinkStep, ErrorView>(SinkStep::Stop);
                    assert(self.state() == after_begin(between, answer));
                }
                Err(())
            },
            Err(e) => {
                let ghost shown = e@;
                self.fatal = Some(e);
                proof {
                    let answer = Err::<SinkStep, ErrorView>(shown);
                    assert(self.state() == after_begin(between, answer));
                }
                Err(())
            },
        }
    }

    /// A piece of the open entry's body. The sink's refusal is kept for the end
    /// of the entry; whoever writes only learns that there was one.
    pub fn write(&mut self, buf: &[u8]) -> (r: Result<(), Error>)
        requires
            old(self).wf(),
        ensures
            final(self).wf(),
            ({
                let before = old(self).state();
                let after = final(self).state();
                match r {
                    Ok(()) => after == (WalkerView {
                        history: before.history.push(SinkEvent::Wrote { body: buf@, answer: Ok(()) }),
                        ..before
                    }),
                    Err(e) => after.refusal is Some && after == (WalkerView {
                        history: before.history.push(
                            SinkEvent::Wrote { body: buf@, answer: Err(after.refusal->0) },
                        ),
                        refusal: after.refusal,
                        ..before
                    }) && e@ == (ErrorView::Io { kind: IoKind::Other, message: "entry sink rejected the body"@ }),
                }
            }),
    {
        match self.sink.write_body(buf) {
            Ok(()) => Ok(()),
            Err(e) => {
                self.refused = Some(e);
                Err(
                    Error::Io(IoError { kind: IoKind::Other, message: copy_text("entry sink rejected the body") }),
                )
            },
        }
    }

    /// A pass is over. `Ok(true)` asks for another one from the start, because
    /// this one broke off at an entry that was wanted; `Ok(false)` asks for none.
    pub fn after_pass(&mut self, broke_on: Option<Error>) -> (r: Result<bool, Error>)
        requires
            old(self).wf(),
        ensures
            final(self).wf(),
            pass_ended(
                old(self).state(),
                delivery::opt_error(broke_on),
                final(self).state(),
                match r {
                    Ok(b) => Ok(b),
                    Err(e) => Err(e@),
                },
            ),
    {
        if let Some(e) = self.fatal.take() {
            return Err(e);
        }
        let e = match broke_on {
            None => {
                return Ok(false);
            },
            Some(e) => e,
        };
        if self.open.is_none() {
            return Ok(false);
        }
        let ghost start = self.state();
        let ghost cause = e@;
        let goes_on = self.close_open(Err(e));
        let ghost closed = self.state();
        proof {
            let before = old(self).state();
            let told = delivery::opt_error(broke_on);
            assert(start == before);
            assert(told == Some(cause));
            assert(ends(before, Err(told->0), closed, goes_on));
        }
        if let Some(f) = self.fatal.take() {
            return Err(f);
        }
        if self.stop || self.next >= self.want.len() {
            return Ok(false);
        }
        self.pos = 0;
        Ok(true)
    }

    /// The passes are over: end the last entry, and tell how many of the wanted
    /// entries were dealt with.
    pub fn finish(&mut self) -> (r: Result<usize, Error>)
        requires
            old(self).wf(),
        ensures
            exists|closed: WalkerView, goes_on: bool|
                #[trigger] ends(old(self).state(), Ok(()), closed, goes_on) && match r {
                    Err(e) => closed.fatal == Some(e@),
                    Ok(n) => closed.fatal is None && n == if closed.stop { closed.want.len() as int } else { closed.next },
                } && final(self).state() == (WalkerView { fatal: None, ..closed }),
    {
        let goes_on = self.close_open(Ok(()));
        let ghost closed = self.state();
        proof {
            assert(ends(old(self).state(), Ok(()), closed, goes_on));
        }
        if let Some(e) = self.fatal.take() {
            return Err(e);
        }
        if self.stop {
            Ok(self.want.len())
        } else {
            Ok(self.next)
        }
    }
}

/// What the end of a pass comes to. A failure of the archive is put on the entry
/// whose body was being written; without one another pass would fail at the same
/// place.
pub open spec fn pass_ended(
    w: WalkerView,
    broke_on: Option<ErrorView>,
    then: WalkerView,
    r: Result<bool, ErrorView>,
) -> bool {
    match w.fatal {
        Some(e) => r == Err::<bool, ErrorView>(e) && then == (WalkerView { fatal: None, ..w }),
        None => if broke_on is None || w.open is None {
            r == Ok::<bool, ErrorView>(false) && then == w
        } else {
            exists|closed: WalkerView, goes_on: bool|
                #[trigger] ends(w, Err(broke_on->0), closed, goes_on) && match closed.fatal {
                    Some(e) => r == Err::<bool, ErrorView>(e) && then == (WalkerView { fatal: None, ..closed }),
                    None => if closed.stop || is_exhausted(closed) {
                        r == Ok::<bool, ErrorView>(false) && then == closed
                    } else {
                        r == Ok::<bool, ErrorView>(true) && then == (WalkerView { pos: 0, ..closed })
                    },
                }
        },
    }
}

/// The entry whose body a sink is being given after some calls: `None` where it
/// is given none, or where the calls are not those of a pass.
pub open spec fn entry_at(calls: Seq<SinkEvent>) -> Option<int>
    decreases calls.len(),
{
    if calls.len() == 0 {
        None
    } else {
        match calls.last() {
            SinkEvent::Begin { idx, answer: Ok(SinkStep::Body) } => Some(idx),
            SinkEvent::Wrote { .. } => entry_at(calls.drop_last()),
            _ => None,
        }
    }
}

/// Ending an entry and beginning the next keep the sink's calls in step with
/// the walker: the entry that the walker holds open is the one that the sink is
/// being given.
pub proof fn walker_stays_in_step(w: WalkerView, outcome: Result<(), ErrorView>, then: WalkerView, goes_on: bool, last: WalkerView, r: Result<bool, ()>)
    requires
        w.open == entry_at(w.history),
        ends(w, outcome, then, goes_on),
        opened(then, last, r),
    ensures
        then.open is None,
        then.open == entry_at(then.history),
        last.open == entry_at(last.history),
        r == Ok::<bool, ()>(true) ==> last.open == Some(then.pos),
{
    match w.open {
        None => {},
        Some(_) => {
            let answer = choose|answer: Result<bool, ErrorView>|
                then == #[trigger] after_end(w, outcome, answer) && goes_on == (answer == Ok::<bool, ErrorView>(true));
            assert(then.history.last() is End);
        },
    }
    if !(then.stop || is_exhausted(then)) && then.pos == then.want[then.next] {
        let answer = choose|answer: Result<SinkStep, ErrorView>|
            last == #[trigger] after_begin(then, answer) && match answer {
                Ok(SinkStep::Body) => r == Ok::<bool, ()>(true),
                Ok(SinkStep::Skip) => r == Ok::<bool, ()>(false),
                _ => r is Err,
            };
        assert(last.history.last() == (SinkEvent::Begin { idx: then.pos, answer }));
    }
}

/// The attributes of a member are a Unix mode if the four bits above the permissions are
/// those of a file (8), a directory (4) or a link (10); then its permissions are listed.
#[verifier::rlimit(40)]
pub proof fn attributes_are_modes_of_known_types(high: int, t: int, m: int)
    requires
        0 <= high,
        0 <= t < 16,
        0 <= m < 0o10000,
        high * 0x10000 + t * 0x1000 + m <= u64::MAX,
    ensures
        ({
            let attr = (high * 0x10000 + t * 0x1000 + m) as u64;
            match mode_of(attr) {
                Some(shown) => shown == m && high < 0x10000 && (t == 8 || t == 4 || t == 10),
                None => high >= 0x10000 || !(t == 8 || t == 4 || t == 10),
            }
        }),
{
    let attr = (high * 0x10000 + t * 0x1000 + m) as u64;
    if attr <= u32::MAX {
        let a = attr as u32;
        assert((a & 0o170000 == 0o100000) == (a / 0x1000 % 16 == 8) && (a & 0o170000 == 0o040000) == (a / 0x1000 % 16 == 4)
            && (a & 0o170000 == 0o120000) == (a / 0x1000 % 16 == 10) && a & 0o7777 == a % 0x1000) by (bit_vector);
        assert(a as int / 0x1000 == high * 16 + t);
        assert(a as int % 0x1000 == m);
        assert((high * 16 + t) % 16 == t);
    }
}

/// The time of a member is a count of seconds since 1970 in the newest family of archives,
/// and in the older ones a date in the upper half and a time of day in the lower, as MS-DOS
/// packs them.
#[verifier::rlimit(40)]
pub proof fn times_go_by_family(year: int, month: int, day: int, hour: int, min: int, half: int, secs: u32)
    requires
        1980 <= year < 2108,
        1 <= month <= 12,
        1 <= day < 32,
        0 <= hour < 24,
        0 <= min < 60,
        0 <= half < 30,
    ensures
        ({
            let t = (((year - 1980) * 512 + month * 32 + day) * 0x10000 + (hour * 2048 + min * 32 + half)) as u32;
            forall|family: Family| family != Family::Rar50Plus ==> (#[trigger] stamp_of(family, Some(t)) matches Some(
                Stamp::WallClock(c),
            ) && c.year == year && c.month == month && c.day == day && c.hour == hour && c.min == min && c.sec == 2 * half)
        }),
        stamp_of(Family::Rar50Plus, Some(secs)) matches Some(Stamp::Instant(at)) && at.secs == secs && at.nanos == 0,
        forall|family: Family| #[trigger] stamp_of(family, None) is None,
{
    datetime::dos_words_read_back(year, month, day, hour, min, half);
    let date = (year - 1980) * 512 + month * 32 + day;
    let time = hour * 2048 + min * 32 + half;
    let t = (date * 0x10000 + time) as u32;
    assert(0 <= date < 0x10000 && 0 <= time < 0x10000);
    assert(t == date * 0x10000 + time);
    assert(t as int / 65536 == date && t as int % 65536 == time);
}

proof fn padded_is_number(k: nat, width: int)
    requires
        k <= u64::MAX,
    ensures
        is_number(padded(k, width)),
        number_of(padded(k, width)) == k,
        padded(k, width).len() >= width,
        text::lower_chars(padded(k, width)) == padded(k, width),
        !padded(k, width).contains('.'),
{
    let d = text::decimal(k);
    let p = padded(k, width);
    text::decimal_is_not_empty(k);
    text::decimal_reads_back(k);
    let zeros = if d.len() >= width { 0nat } else { (width - d.len()) as nat };
    assert(p =~= Seq::new(zeros, |i: int| '0') + d);
    assert forall|i: int| 0 <= i < p.len() implies '0' <= #[trigger] p[i] <= '9' by {
        if i >= zeros {
            assert(p[i] == d[i - zeros]);
        }
    }
    zeros_count_nothing(zeros, d);
    assert(text::lower_chars(p) =~= p);
}

proof fn zeros_count_nothing(zeros: nat, d: Seq<char>)
    requires
        forall|i: int| 0 <= i < d.len() ==> '0' <= #[trigger] d[i] <= '9',
    ensures
        bytes::digits_value(digit_bytes(Seq::new(zeros, |i: int| '0') + d)) == Some(text::value_of_digits(d)),
        text::value_of_digits(d) >= 0,
    decreases zeros + d.len(),
{
    let p = Seq::new(zeros, |i: int| '0') + d;
    let b = digit_bytes(p);
    if d.len() > 0 {
        let t = d.drop_last();
        assert forall|i: int| 0 <= i < t.len() implies '0' <= #[trigger] t[i] <= '9' by {
            assert(t[i] == d[i]);
        }
        zeros_count_nothing(zeros, t);
        assert(b.drop_last() =~= digit_bytes(Seq::new(zeros, |i: int| '0') + t));
        assert('0' <= d[d.len() - 1] <= '9');
        assert(b.last() == d.last() as u8);
    } else if zeros > 0 {
        let less = Seq::new((zeros - 1) as nat, |i: int| '0') + d;
        zeros_count_nothing((zeros - 1) as nat, d);
        assert(b.drop_last() =~= digit_bytes(less));
        assert(p.last() == '0');
        assert(b.last() == 0x30);
    } else {
        assert(b =~= Seq::<u8>::empty());
    }
}

proof fn last_place_is_here(s: Seq<char>, p: Seq<char>, from: int, at: int)
    requires
        0 <= at <= from,
        text_at(s, at, p),
        forall|k: int| at < k <= from ==> !text_at(s, k, p),
    ensures
        last_place(s, p, from) == at,
    decreases from - at,
{
    if at < from {
        last_place_is_here(s, p, from - 1, at);
    }
}

proof fn dot_part_stands_once(head: Seq<char>, mark: Seq<char>, digits: Seq<char>)
    requires
        mark.len() > 0,
        mark[0] == '.',
        forall|k: int| 1 <= k < mark.len() ==> mark[k] != '.',
        !digits.contains('.'),
    ensures
        last_place(head + mark + digits, mark, (head + mark + digits).len() as int) == head.len(),
{
    let s = head + mark + digits;
    let at = head.len() as int;
    assert(s.subrange(at, at + mark.len()) =~= mark);
    assert forall|k: int| at < k <= s.len() implies !text_at(s, k, mark) by {
        if text_at(s, k, mark) {
            assert(s.subrange(k, k + mark.len())[0] == '.');
            assert(s[k] == '.');
            if k < at + mark.len() {
                assert(mark[k - at] == '.');
            } else {
                assert(digits[k - at - mark.len()] == '.');
                assert(digits.contains('.'));
            }
        }
    }
    last_place_is_here(s, mark, s.len() as int, at);
}

/// The volume that comes `n` volumes behind `name.part3.rar` has a number that is `n`
/// higher, with as many digits at least.
#[verifier::rlimit(40)]
pub proof fn parts_are_counted(head: Seq<char>, k: nat, width: int, n: nat)
    requires
        k + n <= u64::MAX,
        0 <= width,
    ensures
        ({
            let first = head + ".part"@ + padded(k, width) + ".rar"@;
            scheme_of(first) matches Some(s) && volume_name(s, n as int) == Some(
                head + ".part"@ + padded(k + n, padded(k, width).len() as int) + ".rar"@,
            )
        }),
{
    let digits = padded(k, width);
    let name = head + ".part"@ + digits + ".rar"@;
    reveal_strlit(".part");
    reveal_strlit(".rar");
    padded_is_number(k, width);
    let lower = text::lower_chars(name);
    let len = lower.len() - 4;
    let low = text::lower_chars(head);
    let stem = lower.take(len);
    assert(lower.skip(len) =~= ".rar"@);
    assert(stem =~= low + ".part"@ + digits) by {
        assert forall|i: int| 0 <= i < digits.len() implies text::lower_char(#[trigger] digits[i]) == digits[i] by {
            assert(text::lower_chars(digits)[i] == digits[i]);
        }
    }
    dot_part_stands_once(low, ".part"@, digits);
    let cut = head.len() as int;
    assert(stem.skip(cut + 5) =~= digits);
    assert(name.take(cut + 5) =~= head + ".part"@);
    assert(name.skip(len) =~= ".rar"@);
}

/// The volume that comes `n` volumes behind `name.r07` has a number that is `n` higher, with
/// as many digits at least.
#[verifier::rlimit(40)]
pub proof fn continuations_are_counted(head: Seq<char>, k: nat, width: int, n: nat)
    requires
        k + n <= u64::MAX,
        0 <= width,
    ensures
        ({
            let first = head + ".r"@ + padded(k, width);
            scheme_of(first) matches Some(s) && volume_name(s, n as int) == Some(
                head + ".r"@ + padded(k + n, padded(k, width).len() as int),
            )
        }),
{
    let digits = padded(k, width);
    let name = head + ".r"@ + digits;
    reveal_strlit(".r");
    reveal_strlit(".rar");
    padded_is_number(k, width);
    let lower = text::lower_chars(name);
    let low = text::lower_chars(head);
    assert(lower =~= low + ".r"@ + digits) by {
        assert forall|i: int| 0 <= i < digits.len() implies text::lower_char(#[trigger] digits[i]) == digits[i] by {
            assert(text::lower_chars(digits)[i] == digits[i]);
        }
    }
    assert(digits.len() > 0);
    assert(!text::text_ends(lower, ".rar"@)) by {
        if text::text_ends(lower, ".rar"@) {
            assert(lower.skip(lower.len() - 4)[3] == 'r');
            assert(lower[lower.len() - 1] == digits[digits.len() - 1]);
            assert('0' <= digits[digits.len() - 1] <= '9');
        }
    }
    dot_part_stands_once(low, ".r"@, digits);
    let cut = head.len() as int;
    assert(lower.skip(cut + 2) =~= digits);
    assert(name.take(cut + 2) =~= head + ".r"@);
}

/// The volumes behind `name.rar`, where the name does not end in a part's number, are
/// `name.r00`, `name.r01` and so on.
#[verifier::rlimit(40)]
pub proof fn old_volumes_are_counted(base: Seq<char>, n: nat)
    requires
        forall|c: char| base.contains(c) ==> c != '.',
        n > 0,
    ensures
        scheme_of(base + ".rar"@) matches Some(s) && volume_name(s, n as int) == Some(
            base + ".r"@ + padded((n - 1) as nat, 2),
        ),
{
    let name = base + ".rar"@;
    reveal_strlit(".rar");
    reveal_strlit(".part");
    let lower = text::lower_chars(name);
    let len = lower.len() - 4;
    let stem = lower.take(len);
    assert(lower.skip(len) =~= ".rar"@);
    assert(stem =~= text::lower_chars(base));
    assert(last_place(stem, ".part"@, len) < 0) by {
        assert forall|k: int| 0 <= k <= len implies !text_at(stem, k, ".part"@) by {
            if text_at(stem, k, ".part"@) {
                assert(stem.subrange(k, k + 5)[0] == '.');
                assert(text::lower_char(base[k]) == '.');
                assert(base.contains(base[k]));
            }
        }
        stands_nowhere(stem, ".part"@, len);
    }
    assert(name.take(len) =~= base);
}

proof fn stands_nowhere(s: Seq<char>, p: Seq<char>, from: int)
    requires
        forall|k: int| 0 <= k <= from ==> !text_at(s, k, p),
    ensures
        last_place(s, p, from) < 0,
    decreases from + 1,
{
    if from >= 0 {
        stands_nowhere(s, p, from - 1);
    }
}

/// The volumes that belong to an archive are those that stand next to it under the names
/// that follow, up to the first that is missing.
pub proof fn volumes_reach_to_the_first_that_is_missing(s: SchemeView, present: Seq<Seq<char>>, n: int, k: int)
    requires
        1 <= n,
        n + volumes_from(s, present, n).len() < u64::MAX,
        0 <= k < volumes_from(s, present, n).len(),
    ensures
        volume_name(s, n + k) == Some(volumes_from(s, present, n)[k]),
        present.contains(volumes_from(s, present, n)[k]),
        volume_name(s, n + volumes_from(s, present, n).len()) matches Some(name) ==> !present.contains(name),
    decreases k,
{
    let all = volumes_from(s, present, n);
    let rest = volumes_from(s, present, n + 1);
    assert(all =~= seq![all[0]] + rest);
    if k > 0 {
        volumes_reach_to_the_first_that_is_missing(s, present, n + 1, k - 1);
    } else if rest.len() > 0 {
        volumes_end(s, present, n + 1);
    }
}

proof fn volumes_end(s: SchemeView, present: Seq<Seq<char>>, n: int)
    requires
        n + volumes_from(s, present, n).len() < u64::MAX,
    ensures
        volume_name(s, n + volumes_from(s, present, n).len()) matches Some(name) ==> !present.contains(name),
    decreases u64::MAX - n,
{
    if n < u64::MAX && volume_name(s, n) is Some && present.contains(volume_name(s, n)->0) {
        let rest = volumes_from(s, present, n + 1);
        assert(volumes_from(s, present, n).len() == 1 + rest.len());
        volumes_end(s, present, n + 1);
    }
}

/// Of a volume, each member that does not go on from the volume before is an entry, in the
/// order of the volume, and nothing else is. Whether an entry goes on in the next volume is
/// what its member says.
#[verifier::rlimit(40)]
pub proof fn entries_begin_where_members_do(volume: Volume, number: int, n: int, k: int)
    requires
        0 <= n <= volume.members.len(),
        0 <= k < n,
        0 <= number <= usize::MAX,
    ensures
        ({
            let heads = heads_in(volume, number, n);
            &&& !volume.members@[k]@.is_split_before ==> exists|i: int|
                0 <= i < heads.len() && (#[trigger] heads[i]).place.ordinal == k && heads[i].member
                    == volume.members@[k]@
            &&& forall|i: int|
                0 <= i < heads.len() ==> !(#[trigger] heads[i]).member.is_split_before && heads[i].place.volume == number
                    && heads[i].place.ordinal < n && heads[i].member == volume.members@[heads[i].place.ordinal as int]@
                    && heads[i].place.split == heads[i].member.is_split_after
            &&& forall|i: int, j: int|
                0 <= i < j < heads.len() ==> (#[trigger] heads[i]).place.ordinal < (#[trigger] heads[j]).place.ordinal
        }),
    decreases n,
{
    let heads = heads_in(volume, number, n);
    let before = heads_in(volume, number, n - 1);
    if n > 1 {
        entries_begin_where_members_do(volume, number, n - 1, if k < n - 1 { k } else { 0 });
    } else {
        assert(before =~= Seq::<Located>::empty());
    }
    let m = volume.members@[n - 1]@;
    if !m.is_split_before {
        assert(heads.drop_last() =~= before);
        assert(heads[before.len() as int] == heads.last());
        if k < n - 1 && !volume.members@[k]@.is_split_before {
            let i = choose|i: int|
                0 <= i < before.len() && (#[trigger] before[i]).place.ordinal == k && before[i].member
                    == volume.members@[k]@;
            assert(heads[i] == before[i]);
        } else if k == n - 1 {
            assert(heads.last().place.ordinal == k);
        }
        assert forall|i: int, j: int| 0 <= i < j < heads.len() implies (#[trigger] heads[i]).place.ordinal < (
        #[trigger] heads[j]).place.ordinal by {
            assert(heads[i] == before[i]);
            if j < before.len() {
                assert(heads[j] == before[j]);
            }
        }
    }
}

/// What a pass begins with is the next entry that is wanted, and nothing else; entries
/// before it are passed over, one at a time, and none is begun twice.
pub proof fn walker_begins_what_is_wanted(w: WalkerView, then: WalkerView, r: Result<bool, ()>)
    requires
        opened(w, then, r),
        0 <= w.next,
    ensures
        then.want == w.want,
        w.stop || w.next >= w.want.len() ==> then == w && r is Err,
        !w.stop && w.next < w.want.len() && w.pos != w.want[w.next] ==> then.history == w.history && then.pos == w.pos + 1
            && then.next == w.next && r == Ok::<bool, ()>(false),
        !w.stop && w.next < w.want.len() && w.pos == w.want[w.next] ==> then.history.len() == w.history.len() + 1
            && then.history.drop_last() == w.history && (then.history.last() matches SinkEvent::Begin { idx, .. } && idx
            == w.want[w.next]) && then.pos == w.pos + 1,
        r == Ok::<bool, ()>(true) ==> then.open == Some(w.want[w.next] as int),
{
    if !w.stop && !is_exhausted(w) && w.pos == w.want[w.next] {
        let answer = choose|answer: Result<SinkStep, ErrorView>|
            then == #[trigger] after_begin(w, answer) && match answer {
                Ok(SinkStep::Body) => r == Ok::<bool, ()>(true),
                Ok(SinkStep::Skip) => r == Ok::<bool, ()>(false),
                _ => r is Err,
            };
        assert(then.history =~= w.history.push(SinkEvent::Begin { idx: w.pos, answer }));
        assert(then.history.drop_last() =~= w.history);
    }
}

/// What ends is the entry that is open, with the failure of the sink where it refused a
/// piece, and else with that of the unpacker; and then the next wanted entry is due.
pub proof fn walker_ends_what_is_open(w: WalkerView, outcome: Result<(), ErrorView>, then: WalkerView, goes_on: bool)
    requires
        ends(w, outcome, then, goes_on),
        w.open is Some,
    ensures
        then.open is None,
        then.refusal is None,
        then.next == w.next + 1,
        then.pos == w.pos,
        then.history.len() == w.history.len() + 1,
        then.history.drop_last() == w.history,
        then.history.last() matches SinkEvent::End { idx, outcome: told, answer } && Some(idx) == w.open && (w.refusal is None
            ==> told == outcome) && (w.refusal matches Some(e) ==> told == Err::<(), ErrorView>(e)) && goes_on == (answer
            == Ok::<bool, ErrorView>(true)),
{
    let answer = choose|answer: Result<bool, ErrorView>|
        then == #[trigger] after_end(w, outcome, answer) && goes_on == (answer == Ok::<bool, ErrorView>(true));
    assert(then.history.drop_last() =~= w.history);
}

/// An archive is solid if a volume says so, or if a member leans on what was unpacked before
/// it; a directory of the newest family never does, and in the oldest family no member
/// does.
pub proof fn one_solid_member_makes_an_archive_solid(volumes: Seq<Volume>, v: int, k: int)
    requires
        0 <= v < volumes.len(),
        0 <= k < volumes[v].members.len(),
    ensures
        volumes[v].is_solid ==> any_solid(volumes),
        volumes[v].family == Family::Rar15To40 && volumes[v].members@[k].is_solid == Some(true) ==> any_solid(volumes),
        volumes[v].family == Family::Rar50Plus && volumes[v].members@[k].is_solid == Some(true)
            && !volumes[v].members@[k].is_directory ==> any_solid(volumes),
        (forall|i: int| 0 <= i < volumes.len() ==> !(#[trigger] volumes[i]).is_solid && (volumes[i].family == Family::Rar13
            || forall|j: int|
            0 <= j < volumes[i].members.len() ==> (#[trigger] volumes[i].members@[j]).is_solid == Some(false)))
            ==> !any_solid(volumes),
{
    let vol = volumes[v];
    let m = vol.members@[k]@;
    if vol.is_solid || leans_back(vol.family, m) {
        assert(leans_back(vol.family, vol.members@[k]@) || vol.is_solid);
        assert(volume_solid(volumes[v]));
    }
    if forall|i: int| 0 <= i < volumes.len() ==> !(#[trigger] volumes[i]).is_solid && (volumes[i].family == Family::Rar13
        || forall|j: int|
        0 <= j < volumes[i].members.len() ==> (#[trigger] volumes[i].members@[j]).is_solid == Some(false)) {
        assert forall|i: int| 0 <= i < volumes.len() implies !volume_solid(#[trigger] volumes[i]) by {
            assert(!volumes[i].is_solid);
            assert forall|j: int| 0 <= j < volumes[i].members.len() implies !leans_back(
                volumes[i].family,
                #[trigger] volumes[i].members@[j]@,
            ) by {
                if volumes[i].family != Family::Rar13 {
                    assert(volumes[i].members@[j].is_solid == Some(false));
                }
            }
        }
    }
}

/// Failures that a password can help against are told as such: one is missing, or it does
/// not fit. Others are damage, and what the unpacker does not know is not supported.
pub proof fn failures_tell_about_passwords(text: Seq<char>, m: Seq<char>, has_password: bool, other: ErrorView)
    requires
        other != ErrorView::Encrypted,
        other != ErrorView::WrongPassword,
    ensures
        failure_error(FailureView::NeedPassword) == ErrorView::Encrypted,
        failure_error(FailureView::WrongPasswordOrCorruptData) == ErrorView::WrongPassword,
        failure_error(FailureView::Within(text, Box::new(FailureView::NeedPassword))) == ErrorView::Encrypted,
        failure_error(FailureView::Within(text, Box::new(FailureView::Other(m)))) == ErrorView::Corrupt(text),
        failure_error(FailureView::Other(m)) == ErrorView::Corrupt(m),
        failure_error(FailureView::UnsupportedSignature) == ErrorView::UnknownFormat,
        trial_verdict(Ok(()), has_password) is Ok,
        trial_verdict(Err(ErrorView::Encrypted), has_password) == Err::<(), ErrorView>(ErrorView::Encrypted),
        trial_verdict(Err(ErrorView::WrongPassword), has_password) == Err::<(), ErrorView>(ErrorView::WrongPassword),
        trial_verdict(Err(other), true) == Err::<(), ErrorView>(ErrorView::WrongPassword),
        trial_verdict(Err(other), false) == Err::<(), ErrorView>(ErrorView::Encrypted),
{
    reveal_with_fuel(failure_error, 3);
}

/// A member is listed as a link where it leads somewhere, and else as a directory or a file
/// as its header says, with the size, the mode and the time that the header has.
pub proof fn members_are_listed_as_they_are(h: Located, name: Seq<char>, target: Seq<char>)
    ensures
        ({
            let e = entry_of(h, name, target);
            &&& e.path == name && e.path_raw == h.member.name
            &&& target.len() > 0 ==> e.kind == KindView::Symlink(target)
            &&& target.len() == 0 && h.member.is_directory ==> e.kind == KindView::Dir
            &&& target.len() == 0 && !h.member.is_directory ==> e.kind == KindView::File
            &&& e.size == h.member.unpacked_size
            &&& e.is_encrypted == h.member.is_encrypted
            &&& e.mode == mode_of(h.member.file_attr)
            &&& e.modified == stamp_of(h.family, h.member.file_time)
        }),
{
}

} // verus!
