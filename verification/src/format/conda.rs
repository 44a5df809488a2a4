//! Conda packages: a zip archive whose members are compressed tape archives.
use vstd::prelude::*;

use crate::archive;
use crate::bytes;
use crate::decompress;
use crate::error;
use crate::format::tar;
use crate::text;
use crate::archive::{read_entries_one_by_one, ArchiveReader, BatchReader, Confidence, Entry, EntrySink, EntryView};
use crate::archive::{FormatHandler, FormatId, OpenOptions, Source};
use crate::bytes::{ends_with_ascii_ci, starts_with};
use crate::decompress::{decompressor, Compressor};
use crate::error::{corrupt, unsupported, Error, ErrorView};
use crate::format::bundle::ZIP_MAGIC;
use crate::format::tar::{Backing, TarHandler, TarReader};
use crate::text::name_ends;

verus! {

/// `.tar.zst`, the end of the names of the members that are unpacked.
pub const MEMBER_SUFFIX: [u8; 8] = [0x2E, 0x74, 0x61, 0x72, 0x2E, 0x7A, 0x73, 0x74];

/// The first `n` entries of the zip archive that are unpacked.
pub open spec fn members_among(listing: Seq<EntryView>, n: int) -> Seq<int>
    decreases n,
{
    if n <= 0 {
        Seq::empty()
    } else if bytes::ends_with_any_case(listing[n - 1].path_raw, MEMBER_SUFFIX@) {
        members_among(listing, n - 1).push(n - 1)
    } else {
        members_among(listing, n - 1)
    }
}

/// The entries of the zip archive that are unpacked, in order.
pub open spec fn members_of(listing: Seq<EntryView>) -> Seq<int> {
    members_among(listing, listing.len() as int)
}

/// The indices of a list as mathematical integers.
pub open spec fn as_ints(v: Seq<usize>) -> Seq<int> {
    v.map_values(|i: usize| i as int)
}

fn find_members(entries: &Vec<Entry>) -> (r: Vec<usize>)
    ensures
        as_ints(r@) == members_of(archive::views(entries@)),
{
    let ghost all = archive::views(entries@);
    let mut found: Vec<usize> = Vec::new();
    let mut i: usize = 0;
    assert(as_ints(found@) =~= members_among(all, 0));
    while i < entries.len()
        invariant
            i <= entries.len(),
            all == archive::views(entries@),
            as_ints(found@) == members_among(all, i as int),
        decreases entries.len() - i,
    {
        assert(all[i as int] == entries@[i as int]@);
        let ghost before = found@;
        if ends_with_ascii_ci(entries[i].path_raw.as_slice(), &MEMBER_SUFFIX) {
            found.push(i);
            assert(as_ints(found@) =~= as_ints(before).push(i as int));
        }
        i = i + 1;
    }
    assert(all.len() == entries@.len());
    found
}

/// What a member shows: the entries and bodies of the tape archive in it.
pub open spec fn part_of(body: Result<Seq<u8>, ErrorView>, label: Option<Seq<char>>) -> Result<
    (Seq<EntryView>, Seq<Result<Seq<u8>, ErrorView>>),
    ErrorView,
> {
    match body {
        Err(e) => Err(e),
        Ok(packed) => match decompress::zstd_decoded(packed) {
            Err((kind, message)) => Err(ErrorView::Io { kind, message }),
            Ok(tar) => tar::opened(tar, Backing::File, label),
        },
    }
}

/// What the members show together, one behind the other; the first failure
/// counts.
pub open spec fn gathered(
    bodies: spec_fn(int) -> Result<Seq<u8>, ErrorView>,
    members: Seq<int>,
    label: Option<Seq<char>>,
) -> Result<(Seq<EntryView>, Seq<Result<Seq<u8>, ErrorView>>), ErrorView>
    decreases members.len(),
{
    if members.len() == 0 {
        Ok((Seq::empty(), Seq::empty()))
    } else {
        match gathered(bodies, members.drop_last(), label) {
            Err(e) => Err(e),
            Ok(before) => match part_of(bodies(members.last()), label) {
                Err(e) => Err(e),
                Ok(part) => Ok((before.0 + part.0, before.1 + part.1)),
            },
        }
    }
}

/// A failure among the first members is the failure of all.
proof fn failure_stays(
    bodies: spec_fn(int) -> Result<Seq<u8>, ErrorView>,
    members: Seq<int>,
    n: int,
    label: Option<Seq<char>>,
)
    requires
        0 <= n <= members.len(),
        gathered(bodies, members.take(n), label) is Err,
    ensures
        gathered(bodies, members, label) == gathered(bodies, members.take(n), label),
    decreases members.len() - n,
{
    if n < members.len() {
        assert(members.take(n + 1).drop_last() =~= members.take(n));
        failure_stays(bodies, members, n + 1, label);
    } else {
        assert(members.take(n) =~= members);
    }
}

/// An opened package: the tape archives in it, and for each entry the archive and
/// the entry there that it is.
#[derive(Debug)]
pub struct CondaReader {
    inners: Vec<TarReader>,
    entries: Vec<Entry>,
    map: Vec<(usize, usize)>,
}

/// The place of an entry leads to an archive.
spec fn leads(inners: Seq<TarReader>, place: (usize, usize)) -> bool {
    place.0 < inners.len()
}

/// The body at a place.
spec fn body_there(inners: Seq<TarReader>, place: (usize, usize)) -> Result<Seq<u8>, ErrorView> {
    inners[place.0 as int].body(place.1 as int)
}

impl CondaReader {
    #[verifier::type_invariant]
    spec fn wf(self) -> bool {
        &&& self.entries.len() == self.map.len()
        &&& forall|k: int| 0 <= k < self.map.len() ==> leads(self.inners@, #[trigger] self.map@[k])
    }
}

impl ArchiveReader for CondaReader {
    open spec fn spec_format(&self) -> FormatId {
        FormatId::Conda
    }

    closed spec fn listing(&self) -> Seq<EntryView> {
        archive::views(self.entries@)
    }

    closed spec fn body(&self, idx: int) -> Result<Seq<u8>, ErrorView> {
        if idx >= self.map@.len() {
            Err(ErrorView::InvalidIndex(idx))
        } else {
            body_there(self.inners@, self.map@[idx])
        }
    }

    fn format(&self) -> (r: FormatId) {
        FormatId::Conda
    }

    fn entries(&self) -> (r: &Vec<Entry>) {
        &self.entries
    }

    fn read_entry(&self, idx: usize) -> (r: Result<Vec<u8>, Error>) {
        proof {
            use_type_invariant(self);
        }
        if idx >= self.map.len() {
            return Err(Error::InvalidIndex(idx));
        }
        let (which, at) = self.map[idx];
        assert(leads(self.inners@, self.map@[idx as int]));
        self.inners[which].read_entry(at)
    }

    fn verify_password(&self) -> (r: Result<(), Error>) {
        Ok(())
    }
}

impl BatchReader for CondaReader {
    fn read_entries<S: EntrySink>(&self, indices: &[usize], sink: &mut S) -> (r: Result<(), Error>) {
        read_entries_one_by_one(self, indices, sink)
    }
}

/// What a package shows whose zip archive has these entries and bodies.
pub open spec fn package_of(
    listing: Seq<EntryView>,
    bodies: spec_fn(int) -> Result<Seq<u8>, ErrorView>,
    label: Option<Seq<char>>,
) -> Result<(Seq<EntryView>, Seq<Result<Seq<u8>, ErrorView>>), ErrorView> {
    if members_of(listing).len() == 0 {
        Err(ErrorView::Corrupt("conda: no .tar.zst members"@))
    } else {
        gathered(bodies, members_of(listing), label)
    }
}

/// Open the members of a package's zip archive.
pub fn open_conda<R: ArchiveReader>(outer: &R, opts: &OpenOptions) -> (r: Result<CondaReader, Error>)
    ensures
        match package_of(outer.listing(), archive::bodies_of(outer), text::opt_string(opts.encoding_override)) {
            Err(e) => error::fails_with(r, e),
            Ok(shown) => r matches Ok(reader) && archive::presents(&reader, FormatId::Conda, shown.0, shown.1),
        },
{
    let members = find_members(outer.entries());
    let ghost ms = as_ints(members@);
    let ghost label = text::opt_string(opts.encoding_override);
    let ghost of = archive::bodies_of(outer);
    if members.len() == 0 {
        return Err(corrupt("conda: no .tar.zst members"));
    }
    let mut inners: Vec<TarReader> = Vec::new();
    let mut entries: Vec<Entry> = Vec::new();
    let mut map: Vec<(usize, usize)> = Vec::new();
    let ghost mut bodies: Seq<Result<Seq<u8>, ErrorView>> = Seq::empty();
    let mut i: usize = 0;
    proof {
        assert(ms.take(0) =~= Seq::<int>::empty());
        assert(archive::views(entries@) =~= Seq::<EntryView>::empty());
    }
    while i < members.len()
        invariant
            i <= members.len(),
            ms == as_ints(members@),
            of == archive::bodies_of(outer),
            label == text::opt_string(opts.encoding_override),
            package_of(outer.listing(), archive::bodies_of(outer), label) == gathered(of, ms, label),
            gathered(of, ms.take(i as int), label) == Ok::<
                (Seq<EntryView>, Seq<Result<Seq<u8>, ErrorView>>),
                ErrorView,
            >((archive::views(entries@), bodies)),
            bodies.len() == entries.len(),
            map.len() == entries.len(),
            forall|k: int|
                0 <= k < map.len() ==> leads(inners@, #[trigger] map@[k]) && body_there(inners@, map@[k]) == bodies[k],
        decreases members.len() - i,
    {
        let m: usize = members[i];
        proof {
            assert(ms[i as int] == m);
            assert(ms.take(i + 1).drop_last() =~= ms.take(i as int));
            assert(ms.take(i + 1).last() == m);
            if gathered(of, ms.take(i + 1), label) is Err {
                failure_stays(of, ms, i + 1, label);
            }
        }
        let packed = match outer.read_entry(m) {
            Err(e) => {
                return Err(e);
            },
            Ok(b) => b,
        };
        let tar = match decompressor(Compressor::Zstd, packed.as_slice()) {
            Err(e) => {
                return Err(Error::Io(e));
            },
            Ok(t) => t,
        };
        let src = Source::Seekable { inner: tar, path: Some(String::new()) };
        let reader = match TarHandler.open(src, opts) {
            Err(e) => {
                return Err(e);
            },
            Ok(reader) => reader,
        };
        let ghost part = part_of(of(m as int), label)->Ok_0;
        let ghost old_entries = entries@;
        let ghost old_map = map@;
        let ghost old_inners = inners@;
        let ghost old_bodies = bodies;
        let which: usize = inners.len();
        let listed = reader.entries();
        let mut j: usize = 0;
        proof {
            assert(archive::views(old_entries) + part.0.take(0) =~= archive::views(entries@));
            assert(archive::views(listed@).len() == listed@.len());
        }
        while j < listed.len()
            invariant
                j <= listed.len(),
                which == old_inners.len(),
                archive::views(listed@) == part.0,
                map.len() == old_map.len() + j,
                entries.len() == old_entries.len() + j,
                archive::views(entries@) == archive::views(old_entries) + part.0.take(j as int),
                forall|k: int| 0 <= k < old_map.len() ==> #[trigger] map@[k] == old_map[k],
                forall|k: int|
                    old_map.len() <= k < map.len() ==> (#[trigger] map@[k]).0 == which && map@[k].1 == k - old_map.len(),
            decreases listed.len() - j,
        {
            let e = listed[j].copy();
            proof {
                assert(archive::views(listed@)[j as int] == listed@[j as int]@);
            }
            let ghost now = entries@;
            entries.push(e);
            map.push((which, j));
            j = j + 1;
            assert(archive::views(entries@) =~= archive::views(now).push(part.0[j - 1]));
            assert(part.0.take(j as int) =~= part.0.take(j - 1).push(part.0[j - 1]));
            assert(archive::views(entries@) =~= archive::views(old_entries) + part.0.take(j as int));
        }
        assert(part.0.take(j as int) =~= part.0);
        let ghost inner = reader;
        inners.push(reader);
        proof {
            bodies = old_bodies + part.1;
            assert forall|k: int| 0 <= k < map.len() implies leads(inners@, #[trigger] map@[k]) && body_there(inners@, map@[k])
                == bodies[k] by {
                if k < old_map.len() {
                    assert(leads(old_inners, old_map[k]));
                    assert(body_there(old_inners, old_map[k]) == old_bodies[k]);
                    assert(inners@[map@[k].0 as int] == old_inners[map@[k].0 as int]);
                } else {
                    let j = k - old_map.len();
                    assert(inners@[which as int] == inner);
                    assert(inner.body(j) == archive::body_at(part.1, j));
                    assert(bodies[k] == part.1[j]);
                }
            }
        }
        i = i + 1;
    }
    assert(ms.take(i as int) =~= ms);
    Ok(CondaReader { inners, entries, map })
}

/// Reads Conda packages.
#[derive(Debug, Clone, Copy)]
pub struct CondaHandler;

impl FormatHandler for CondaHandler {
    open spec fn spec_id(&self) -> FormatId {
        FormatId::Conda
    }

    open spec fn spec_probe(&self, header: Seq<u8>, name: Option<Seq<char>>) -> Confidence {
        archive::magic_when(text::name_has_suffix(name, ".conda"@) && bytes::stands_at(header, 0, ZIP_MAGIC@))
    }

    fn id(&self) -> (r: FormatId) {
        FormatId::Conda
    }

    fn probe(&self, header: &[u8], name: Option<&str>) -> (r: Confidence) {
        Confidence::magic_if(name_ends(name, ".conda") && starts_with(header, &ZIP_MAGIC))
    }
}

impl CondaHandler {
    /// Open a package, given what opening it as a zip archive gave.
    pub fn open<R: ArchiveReader>(&self, src: &Source, outer: Result<R, Error>, opts: &OpenOptions) -> (r: Result<CondaReader, Error>)
        ensures
            if src is Stream {
                error::fails_with(
                    r,
                    ErrorView::Unsupported { format: "conda"@, feature: "streaming (conda requires seek)"@ },
                )
            } else {
                match outer {
                    Err(e) => error::fails_with(r, e@),
                    Ok(zip) => match package_of(zip.listing(), archive::bodies_of(&zip), text::opt_string(opts.encoding_override)) {
                        Err(e) => error::fails_with(r, e),
                        Ok(shown) => r matches Ok(reader) && archive::presents(&reader, FormatId::Conda, shown.0, shown.1),
                    },
                }
            },
    {
        match src {
            Source::Stream { .. } => Err(unsupported("conda", "streaming (conda requires seek)")),
            Source::Seekable { .. } => match outer {
                Err(e) => Err(e),
                Ok(zip) => open_conda(&zip, opts),
            },
        }
    }
}

/// The members of a package are the entries whose names end in `.tar.zst`, in whatever case,
/// in their order.
#[verifier::rlimit(40)]
pub proof fn members_are_known_by_their_ending(listing: Seq<EntryView>, e: EntryView, stem: Seq<u8>, end: Seq<u8>)
    requires
        e.path_raw == stem + end,
        end.len() == 8,
    ensures
        ({
            let n = listing.len() as int;
            let suffix = seq![0x2Eu8, 0x74, 0x61, 0x72, 0x2E, 0x7A, 0x73, 0x74];
            let fits = forall|k: int| 0 <= k < 8 ==> bytes::same_letter(end[k], #[trigger] suffix[k]);
            members_of(listing.push(e)) == if fits { members_of(listing).push(n) } else { members_of(listing) }
        }),
        members_of(Seq::empty()) == Seq::<int>::empty(),
{
    let suffix = seq![0x2Eu8, 0x74, 0x61, 0x72, 0x2E, 0x7A, 0x73, 0x74];
    assert(MEMBER_SUFFIX@ =~= suffix);
    bytes::endings_go_by_letters(e.path_raw, suffix);
    members_go_by_entries(listing, listing.push(e), listing.len() as int);
    let s = e.path_raw;
    assert forall|k: int| 0 <= k < 8 implies s[s.len() - suffix.len() + k] == end[k] by {}
    if forall|k: int| 0 <= k < 8 ==> bytes::same_letter(end[k], #[trigger] suffix[k]) {
        assert forall|k: int| 0 <= k < suffix.len() implies bytes::same_letter(
            s[s.len() - suffix.len() + k],
            #[trigger] suffix[k],
        ) by {}
    } else {
        let k = choose|k: int| 0 <= k < 8 && !bytes::same_letter(end[k], #[trigger] suffix[k]);
        assert(!bytes::same_letter(s[s.len() - suffix.len() + k], suffix[k]));
    }
}

proof fn members_go_by_entries(a: Seq<EntryView>, b: Seq<EntryView>, n: int)
    requires
        n <= a.len(),
        n <= b.len(),
        forall|k: int| 0 <= k < n ==> a[k] == b[k],
    ensures
        members_among(a, n) == members_among(b, n),
    decreases n,
{
    if n > 0 {
        members_go_by_entries(a, b, n - 1);
    }
}

/// A package lists what its first member holds, then what the next one does, and so on,
/// each body beside its entry.
pub proof fn members_are_listed_one_after_the_other(
    bodies: spec_fn(int) -> Result<Seq<u8>, ErrorView>,
    members: Seq<int>,
    m: int,
    label: Option<Seq<char>>,
)
    requires
        gathered(bodies, members.push(m), label) is Ok,
    ensures
        gathered(bodies, members, label) is Ok,
        part_of(bodies(m), label) is Ok,
        gathered(bodies, members.push(m), label)->Ok_0 == (
            gathered(bodies, members, label)->Ok_0.0 + part_of(bodies(m), label)->Ok_0.0,
            gathered(bodies, members, label)->Ok_0.1 + part_of(bodies(m), label)->Ok_0.1,
        ),
{
    assert(members.push(m).drop_last() =~= members);
}

} // verus!
