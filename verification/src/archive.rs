//! The shapes that every archive format is brought into, and the one-by-one
//! pass that hands entry bodies to a sink.
use vstd::prelude::*;

use crate::text;
use crate::bytes::copy_bytes;
use crate::datetime::Stamp;
use crate::error::{Error, ErrorView};
use crate::text::copy_text;

verus! {

/// The formats that are told apart.
#[derive(Debug, Clone, Copy, PartialEq, Eq, Structural)]
pub enum FormatId {
    Zip,
    Tar,
    Gzip,
    Bzip2,
    Xz,
    SevenZ,
    Rar,
    Cab,
    Ar,
    Deb,
    Cpio,
    Rpm,
    Xar,
    Msi,
    Iso,
    Sfx,
    Warc,
    Raw,
    Jar,
    Apk,
    Ipa,
    Epub,
    Docx,
    Xlsx,
    Pptx,
    Odt,
    Ods,
    Odp,
    War,
    Appx,
    Xpi,
    Crx,
    Conda,
    Squashfs,
    AppImage,
    Wim,
    HfsPlus,
    Dmg,
    Wpress,
    Apfs,
    Arj,
    Zoo,
    Lbr,
    Crunch,
    Arc,
    Squeeze,
    BinHex,
    MacBinary,
    AppleSingle,
    CompactPro,
    PackIt,
    StuffIt,
    StuffIt5,
    StuffItX,
    Alz,
    Nsis,
    Lzx,
    PowerPacker,
    Dms,
}

/// How sure a handler is that a file is of its format.
#[derive(Debug, Clone, Copy, PartialEq, Eq, PartialOrd, Ord, Structural)]
pub struct Confidence(pub u8);

impl Confidence {
    /// Not this format.
    pub fn none() -> (r: Confidence)
        ensures
            r == Confidence(0),
    {
        Confidence(0)
    }

    /// The name suggests the format.
    pub fn extension() -> (r: Confidence)
        ensures
            r == Confidence(50),
    {
        Confidence(50)
    }

    /// The content, or a name that is as good as it, shows the format.
    pub fn magic() -> (r: Confidence)
        ensures
            r == Confidence(100),
    {
        Confidence(100)
    }

    /// `magic` where `sure`, else `none`.
    pub fn magic_if(sure: bool) -> (r: Confidence)
        ensures
            r == magic_when(sure),
    {
        if sure {
            Confidence(100)
        } else {
            Confidence(0)
        }
    }

    /// `extension` where the name `fits`, else `none`.
    pub fn extension_if(fits: bool) -> (r: Confidence)
        ensures
            r == extension_when(fits),
    {
        if fits {
            Confidence(50)
        } else {
            Confidence(0)
        }
    }
}

/// The confidence that a name alone gives.
pub open spec fn extension_when(fits: bool) -> Confidence {
    if fits {
        Confidence(50)
    } else {
        Confidence(0)
    }
}

/// Full confidence where `sure`, else none.
pub open spec fn magic_when(sure: bool) -> Confidence {
    if sure {
        Confidence(100)
    } else {
        Confidence(0)
    }
}

/// What an entry is.
#[derive(Debug)]
pub enum EntryKind {
    File,
    Dir,
    Symlink { target: String },
}

/// An `EntryKind` with its text as a sequence of characters.
pub enum KindView {
    File,
    Dir,
    Symlink(Seq<char>),
}

impl View for EntryKind {
    type V = KindView;

    open spec fn view(&self) -> KindView {
        match *self {
            EntryKind::File => KindView::File,
            EntryKind::Dir => KindView::Dir,
            EntryKind::Symlink { target } => KindView::Symlink(target@),
        }
    }
}

impl EntryKind {
    /// A copy of this kind.
    pub fn copy(&self) -> (r: EntryKind)
        ensures
            r@ == self@,
    {
        match self {
            EntryKind::File => EntryKind::File,
            EntryKind::Dir => EntryKind::Dir,
            EntryKind::Symlink { target } => EntryKind::Symlink { target: copy_text(target.as_str()) },
        }
    }
}

/// One entry of an archive.
#[derive(Debug)]
pub struct Entry {
    /// The name as the archive stores it.
    pub path_raw: Vec<u8>,
    /// The decoded path, `/` between its pieces.
    pub path: String,
    pub kind: EntryKind,
    pub size: u64,
    pub mode: Option<u32>,
    pub is_encrypted: bool,
    pub modified: Option<Stamp>,
    /// The resource fork of the file named by `path`, rather than the file.
    pub is_resource_fork: bool,
}

/// An `Entry` with its name and path as sequences.
#[verifier::ext_equal]
pub struct EntryView {
    pub path_raw: Seq<u8>,
    pub path: Seq<char>,
    pub kind: KindView,
    pub size: u64,
    pub mode: Option<u32>,
    pub is_encrypted: bool,
    pub modified: Option<Stamp>,
    pub is_resource_fork: bool,
}

impl View for Entry {
    type V = EntryView;

    open spec fn view(&self) -> EntryView {
        EntryView {
            path_raw: self.path_raw@,
            path: self.path@,
            kind: self.kind@,
            size: self.size,
            mode: self.mode,
            is_encrypted: self.is_encrypted,
            modified: self.modified,
            is_resource_fork: self.is_resource_fork,
        }
    }
}

/// The views of a list of entries.
pub open spec fn views(entries: Seq<Entry>) -> Seq<EntryView> {
    entries.map_values(|e: Entry| e@)
}

impl Entry {
    pub fn is_dir(&self) -> (r: bool)
        ensures
            r == (self.kind is Dir),
    {
        matches!(self.kind, EntryKind::Dir)
    }

    /// A copy of this entry.
    pub fn copy(&self) -> (r: Entry)
        ensures
            r@ == self@,
    {
        Entry {
            path_raw: copy_bytes(self.path_raw.as_slice()),
            path: copy_text(self.path.as_str()),
            kind: self.kind.copy(),
            size: self.size,
            mode: self.mode,
            is_encrypted: self.is_encrypted,
            modified: self.modified,
            is_resource_fork: self.is_resource_fork,
        }
    }
}

/// How an archive is to be opened.
#[derive(Debug)]
pub struct OpenOptions {
    pub password: Option<String>,
    pub encoding_override: Option<String>,
}

impl Default for OpenOptions {
    fn default() -> (r: OpenOptions)
        ensures
            r.password is None && r.encoding_override is None,
    {
        OpenOptions { password: None, encoding_override: None }
    }
}

impl OpenOptions {
    /// The encoding label, if one was given.
    pub fn label(&self) -> (r: Option<&str>)
        ensures
            text::opt_text(r) == text::opt_string(self.encoding_override),
    {
        match &self.encoding_override {
            Some(s) => Some(s.as_str()),
            None => None,
        }
    }
}

/// Where an archive's bytes come from. `inner` holds what the source yields
/// from its start to its end.
#[derive(Debug)]
pub enum Source {
    /// A source that can be read at any place.
    Seekable { inner: Vec<u8>, path: Option<String> },
    /// A source that can only be read forward.
    Stream { inner: Vec<u8>, path: Option<String> },
}

impl Source {
    /// The path of the source, if it has one.
    pub open spec fn spec_path(&self) -> Option<Seq<char>> {
        match *self {
            Source::Seekable { path, .. } => text::opt_string(path),
            Source::Stream { path, .. } => text::opt_string(path),
        }
    }

    /// What the source yields.
    pub open spec fn content(&self) -> Seq<u8> {
        match *self {
            Source::Seekable { inner, .. } => inner@,
            Source::Stream { inner, .. } => inner@,
        }
    }

    pub fn file_path(&self) -> (r: Option<&str>)
        ensures
            text::opt_text(r) == self.spec_path(),
    {
        let p = match self {
            Source::Seekable { path, .. } => path,
            Source::Stream { path, .. } => path,
        };
        match p {
            Some(s) => Some(s.as_str()),
            None => None,
        }
    }

    /// The first `n` bytes of a seekable source, or all of them if there are
    /// fewer. A stream cannot be looked into.
    pub fn peek_header(&self, n: usize) -> (r: Result<Vec<u8>, Error>)
        ensures
            match r {
                Ok(v) => self is Seekable && v@ == self.content().take(
                    if n < self.content().len() { n as int } else { self.content().len() as int },
                ),
                Err(e) => self is Stream && e@ == ErrorView::UnknownFormat,
            },
    {
        match self {
            Source::Seekable { inner, .. } => Ok(read_up_to(inner.as_slice(), n)),
            Source::Stream { .. } => Err(Error::UnknownFormat),
        }
    }

    /// Everything the source yields.
    pub fn read_all(self) -> (r: Vec<u8>)
        ensures
            r@ == self.content(),
    {
        match self {
            Source::Seekable { inner, .. } => inner,
            Source::Stream { inner, .. } => inner,
        }
    }
}

/// The first `n` bytes of `data`, or all of them if there are fewer.
pub fn read_up_to(data: &[u8], n: usize) -> (r: Vec<u8>)
    ensures
        r@ == data@.take(if n < data@.len() { n as int } else { data@.len() as int }),
{
    let end: usize = if n < data.len() { n } else { data.len() };
    let v = crate::bytes::copy_range(data, 0, end);
    assert(v@ =~= data@.take(end as int));
    v
}

/// A format: how it is recognised.
pub trait FormatHandler {
    /// The format's identity.
    spec fn spec_id(&self) -> FormatId;

    /// How sure a beginning of a file and a name make the handler.
    spec fn spec_probe(&self, header: Seq<u8>, name: Option<Seq<char>>) -> Confidence;

    fn id(&self) -> (r: FormatId)
        ensures
            r == self.spec_id(),
    ;

    fn probe(&self, header: &[u8], name: Option<&str>) -> (r: Confidence)
        ensures
            r == self.spec_probe(header@, text::opt_text(name)),
    ;
}

/// A place to go to in a source.
#[derive(Debug, Clone, Copy, PartialEq, Eq)]
pub enum SeekTo {
    /// So many bytes behind the start.
    Start(u64),
    /// So many bytes behind the current place.
    Current(i64),
    /// So many bytes behind the end.
    End(i64),
}

/// Where a seek leads; negative where it leads before the start.
pub open spec fn seek_target(to: SeekTo, position: int, len: int) -> int {
    match to {
        SeekTo::Start(p) => p as int,
        SeekTo::Current(d) => position + d,
        SeekTo::End(d) => len + d,
    }
}

/// A source that can be read at any place.
pub trait ReadSeek {
    spec fn content(&self) -> Seq<u8>;

    spec fn position(&self) -> int;

    /// The next `n` bytes, or as many as there are.
    fn read(&mut self, n: usize) -> (r: Vec<u8>)
        ensures
            final(self).content() == old(self).content(),
            final(self).position() == old(self).position() + r.len(),
            if old(self).position() >= old(self).content().len() {
                r.len() == 0
            } else {
                &&& r.len() == if n <= old(self).content().len() - old(self).position() {
                    n as int
                } else {
                    old(self).content().len() - old(self).position()
                }
                &&& r@ == old(self).content().subrange(old(self).position(), old(self).position() + r.len())
            },
    ;

    /// Go to a place. A place before the start, or one that no signed number can
    /// tell, is refused.
    fn seek(&mut self, to: SeekTo) -> (r: Result<u64, Error>)
        ensures
            final(self).content() == old(self).content(),
            ({
                let target = seek_target(to, old(self).position(), old(self).content().len() as int);
                if 0 <= target <= i64::MAX {
                    r == Ok::<u64, Error>(target as u64) && final(self).position() == target
                } else {
                    r matches Err(e) && e@ == (ErrorView::Io {
                        kind: crate::error::IoKind::InvalidInput,
                        message: "seek to a negative position"@,
                    }) && final(self).position() == old(self).position()
                }
            }),
    ;
}

/// What a sink wants of an entry.
#[derive(Debug, Clone, Copy, PartialEq, Eq, Structural)]
pub enum SinkStep {
    /// The body, and then a call of `end`.
    Body,
    /// Nothing: no body and no `end`.
    Skip,
    /// The end of the pass.
    Stop,
}

/// The outcome of a body: whole, or why not.
pub open spec fn outcome_view(r: Result<(), Error>) -> Result<(), ErrorView> {
    match r {
        Ok(()) => Ok(()),
        Err(e) => Err(e@),
    }
}

/// One call that a sink was given, with its answer.
#[allow(inconsistent_fields)]
pub enum SinkEvent {
    Begin { idx: int, answer: Result<SinkStep, ErrorView> },
    Wrote { body: Seq<u8>, answer: Result<(), ErrorView> },
    End { idx: int, outcome: Result<(), ErrorView>, answer: Result<bool, ErrorView> },
}

/// Where entry bodies go in a pass over an archive. The calls for one entry are
/// `begin`, then `write_body` any number of times, then `end`.
pub trait EntrySink {
    /// The calls given so far, in order, with their answers. A verified sink says here
    /// what it was given, for one that says nothing meets no contract below. There is
    /// a body only because code that is not verified cannot write one.
    open spec fn history(&self) -> Seq<SinkEvent> {
        Seq::empty()
    }

    /// Prepare for entry `idx` and say whether its body is wanted.
    fn begin(&mut self, idx: usize) -> (r: Result<SinkStep, Error>)
        ensures
            final(self).history() == old(self).history().push(
                SinkEvent::Begin {
                    idx: idx as int,
                    answer: match r {
                        Ok(s) => Ok(s),
                        Err(e) => Err(e@),
                    },
                },
            ),
    ;

    /// The next piece of the current entry's body.
    fn write_body(&mut self, buf: &[u8]) -> (r: Result<(), Error>)
        ensures
            final(self).history() == old(self).history().push(
                SinkEvent::Wrote { body: buf@, answer: outcome_view(r) },
            ),
    ;

    /// The current entry's body is over. `false` ends the pass.
    fn end(&mut self, idx: usize, outcome: Result<(), Error>) -> (r: Result<bool, Error>)
        ensures
            final(self).history() == old(self).history().push(
                SinkEvent::End {
                    idx: idx as int,
                    outcome: outcome_view(outcome),
                    answer: match r {
                        Ok(b) => Ok(b),
                        Err(e) => Err(e@),
                    },
                },
            ),
    ;
}

/// Writes into a sink and keeps the sink's own refusal apart from the failure
/// that the writing side sees.
pub struct SinkWriter<'a, S: EntrySink> {
    sink: &'a mut S,
    err: Option<Error>,
}

impl<'a, S: EntrySink> SinkWriter<'a, S> {
    /// The refusal that is kept, if there is one.
    pub closed spec fn refusal(&self) -> Option<Error> {
        self.err
    }

    /// The calls given to the sink so far.
    pub closed spec fn history(&self) -> Seq<SinkEvent> {
        self.sink.history()
    }

    pub fn new(sink: &'a mut S) -> (r: SinkWriter<'a, S>)
        ensures
            r.refusal() is None,
            r.history() == old(sink).history(),
    {
        SinkWriter { sink, err: None }
    }

    /// The sink's refusal, if there was one. It is handed out once.
    pub fn take_err(&mut self) -> (r: Option<Error>)
        ensures
            r == old(self).refusal(),
            final(self).refusal() is None,
            final(self).history() == old(self).history(),
    {
        self.err.take()
    }

    /// Hand a piece of the body to the sink. A refusal is kept, and the writing
    /// side only learns that there was one.
    pub fn write(&mut self, buf: &[u8]) -> (r: Result<usize, Error>)
        ensures
            final(self).history().len() == old(self).history().len() + 1,
            final(self).history().drop_last() == old(self).history(),
            match r {
                Ok(n) => n == buf.len() && final(self).refusal() == old(self).refusal() && final(self).history().last()
                    == (SinkEvent::Wrote { body: buf@, answer: Ok(()) }),
                Err(e) => e@ == (ErrorView::Io {
                    kind: crate::error::IoKind::Other,
                    message: "entry sink rejected the body"@,
                }) && final(self).refusal() is Some && final(self).history().last() == (SinkEvent::Wrote {
                    body: buf@,
                    answer: Err(final(self).refusal()->0@),
                }),
            },
    {
        match self.sink.write_body(buf) {
            Ok(()) => {
                assert(self.sink.history().drop_last() =~= old(self).sink.history());
                Ok(buf.len())
            },
            Err(e) => {
                self.err = Some(e);
                assert(self.sink.history().drop_last() =~= old(self).sink.history());
                Err(Error::Io(crate::error::IoError {
                    kind: crate::error::IoKind::Other,
                    message: copy_text("entry sink rejected the body"),
                }))
            },
        }
    }
}

/// The bytes of a body, or why there are none.
pub open spec fn body_view(r: Result<Vec<u8>, Error>) -> Result<Seq<u8>, ErrorView> {
    match r {
        Ok(v) => Ok(v@),
        Err(e) => Err(e@),
    }
}

/// The calls of a pass follow the protocol of a sink: `current` is the entry
/// whose body is being written, and a pass ends with none.
pub open spec fn protocol(events: Seq<SinkEvent>, current: Option<int>) -> bool
    decreases events.len(),
{
    if events.len() == 0 {
        current is None
    } else {
        let rest = events.skip(1);
        match (current, events[0]) {
            (None, SinkEvent::Begin { idx, answer }) => match answer {
                Ok(SinkStep::Body) => protocol(rest, Some(idx)),
                Ok(SinkStep::Skip) => protocol(rest, None),
                _ => rest.len() == 0,
            },
            (Some(i), SinkEvent::Wrote { .. }) => protocol(rest, current),
            (Some(i), SinkEvent::End { idx, answer, .. }) => i == idx && match answer {
                Ok(true) => protocol(rest, None),
                _ => rest.len() == 0,
            },
            _ => false,
        }
    }
}

/// An opened archive.
pub trait ArchiveReader {
    spec fn spec_format(&self) -> FormatId;

    /// The entries, in the archive's order.
    spec fn listing(&self) -> Seq<EntryView>;

    /// The body of entry `idx`, or why it cannot be had.
    spec fn body(&self, idx: int) -> Result<Seq<u8>, ErrorView>;

    fn format(&self) -> (r: FormatId)
        ensures
            r == self.spec_format(),
    ;

    fn entries(&self) -> (r: &Vec<Entry>)
        ensures
            views(r@) == self.listing(),
    ;

    fn read_entry(&self, idx: usize) -> (r: Result<Vec<u8>, Error>)
        ensures
            body_view(r) == self.body(idx as int),
    ;

    /// Whether the password that the archive was opened with fits.
    open spec fn unlocked(&self) -> Result<(), ErrorView> {
        Ok(())
    }

    /// Check the password without unpacking anything.
    fn verify_password(&self) -> (r: Result<(), Error>)
        ensures
            outcome_view(r) == self.unlocked(),
    ;
}

/// The body of entry `idx` out of the bodies of all entries.
pub open spec fn body_at(bodies: Seq<Result<Seq<u8>, ErrorView>>, idx: int) -> Result<Seq<u8>, ErrorView> {
    if 0 <= idx < bodies.len() {
        bodies[idx]
    } else {
        Err(ErrorView::InvalidIndex(idx))
    }
}

/// The reader shows an archive of this format with these entries and bodies.
pub open spec fn presents<R: ArchiveReader>(
    reader: &R,
    format: FormatId,
    listing: Seq<EntryView>,
    bodies: Seq<Result<Seq<u8>, ErrorView>>,
) -> bool {
    &&& reader.spec_format() == format
    &&& reader.listing() == listing
    &&& bodies.len() == listing.len()
    &&& forall|idx: int| 0 <= idx ==> #[trigger] reader.body(idx) == body_at(bodies, idx)
}

/// The calls and the result of a pass over `indices`, entry by entry, of an
/// archive with the given bodies. The sink's refusal of a body outranks what
/// reading it gave.
pub open spec fn pass_over(
    bodies: spec_fn(int) -> Result<Seq<u8>, ErrorView>,
    indices: Seq<usize>,
    events: Seq<SinkEvent>,
    result: Result<(), ErrorView>,
) -> bool
    decreases indices.len(), 0int,
{
    if indices.len() == 0 {
        events.len() == 0 && result == Ok::<(), ErrorView>(())
    } else {
        let idx = indices[0] as int;
        let others = indices.skip(1);
        &&& events.len() > 0
        &&& match events[0] {
            SinkEvent::Begin { idx: i, answer } => i == idx && match answer {
                Err(e) => events.len() == 1 && result == Err::<(), ErrorView>(e),
                Ok(SinkStep::Stop) => events.len() == 1 && result == Ok::<(), ErrorView>(()),
                Ok(SinkStep::Skip) => pass_over(bodies, others, events.skip(1), result),
                Ok(SinkStep::Body) => match bodies(idx) {
                    Err(e) => ended(bodies, others, idx, Err(e), events.skip(1), result),
                    Ok(b) => events.len() > 1 && match events[1] {
                        SinkEvent::Wrote { body, answer: refusal } => body == b && ended(
                            bodies,
                            others,
                            idx,
                            refusal,
                            events.skip(2),
                            result,
                        ),
                        _ => false,
                    },
                },
            },
            _ => false,
        }
    }
}

/// The entry `idx` is ended with `outcome`, and the pass goes on as its answer says.
pub open spec fn ended(
    bodies: spec_fn(int) -> Result<Seq<u8>, ErrorView>,
    others: Seq<usize>,
    idx: int,
    outcome: Result<(), ErrorView>,
    events: Seq<SinkEvent>,
    result: Result<(), ErrorView>,
) -> bool
    decreases others.len(), 1int,
{
    events.len() > 0 && match events[0] {
        SinkEvent::End { idx: i, outcome: o, answer } => i == idx && o == outcome && match answer {
            Err(e) => events.len() == 1 && result == Err::<(), ErrorView>(e),
            Ok(false) => events.len() == 1 && result == Ok::<(), ErrorView>(()),
            Ok(true) => pass_over(bodies, others, events.skip(1), result),
        },
        _ => false,
    }
}

/// The bodies of an archive, by entry.
pub open spec fn bodies_of<R: ArchiveReader>(reader: &R) -> spec_fn(int) -> Result<Seq<u8>, ErrorView> {
    |k: int| reader.body(k)
}

/// What is left of a pass extends to the whole of it.
spec fn extends(bodies: spec_fn(int) -> Result<Seq<u8>, ErrorView>, indices: Seq<usize>, i: int, sofar: Seq<SinkEvent>) -> bool {
    forall|tail: Seq<SinkEvent>, result: Result<(), ErrorView>|
        #[trigger] pass_over(bodies, indices.skip(i), tail, result) ==> pass_over(
            bodies,
            indices,
            sofar + tail,
            result,
        )
}

/// Adding the calls for entry `i` keeps what is left of the pass extending to
/// the whole of it.
proof fn extends_by(
    bodies: spec_fn(int) -> Result<Seq<u8>, ErrorView>,
    indices: Seq<usize>,
    i: int,
    sofar: Seq<SinkEvent>,
    added: Seq<SinkEvent>,
)
    requires
        extends(bodies, indices, i, sofar),
        0 <= i < indices.len(),
        forall|tail: Seq<SinkEvent>, result: Result<(), ErrorView>|
            #[trigger] pass_over(bodies, indices.skip(i + 1), tail, result) ==> pass_over(
                bodies,
                indices.skip(i),
                added + tail,
                result,
            ),
    ensures
        extends(bodies, indices, i + 1, sofar + added),
{
    assert forall|tail: Seq<SinkEvent>, result: Result<(), ErrorView>|
        #[trigger] pass_over(bodies, indices.skip(i + 1), tail, result) implies pass_over(
        bodies,
        indices,
        (sofar + added) + tail,
        result,
    ) by {
        assert(pass_over(bodies, indices.skip(i), added + tail, result));
        assert(sofar + (added + tail) =~= (sofar + added) + tail);
    }
}

/// Hand the bodies of `indices` to the sink, one entry at a time.
pub fn read_entries_one_by_one<R: ArchiveReader, S: EntrySink>(
    reader: &R,
    indices: &[usize],
    sink: &mut S,
) -> (r: Result<(), Error>)
    ensures
        final(sink).history().len() >= old(sink).history().len(),
        final(sink).history().take(old(sink).history().len() as int) == old(sink).history(),
        pass_over(
            bodies_of(reader),
            indices@,
            final(sink).history().skip(old(sink).history().len() as int),
            outcome_view(r),
        ),
{
    let ghost before = sink.history();
    let ghost bodies = bodies_of(reader);
    let mut i: usize = 0;
    let ghost mut sofar = Seq::<SinkEvent>::empty();
    proof {
        assert(indices@.skip(0) =~= indices@);
        assert forall|tail: Seq<SinkEvent>, result: Result<(), ErrorView>|
            #[trigger] pass_over(bodies, indices@.skip(0), tail, result) implies pass_over(
            bodies, indices@, sofar + tail, result,
        ) by {
            assert(sofar + tail =~= tail);
        }
        assert(before + sofar =~= before);
    }
    while i < indices.len()
        invariant
            i <= indices.len(),
            bodies == bodies_of(reader),
            before == old(sink).history(),
            sink.history() == before + sofar,
            extends(bodies, indices@, i as int, sofar),
        decreases indices.len() - i,
    {
        let idx: usize = indices[i];
        let ghost rest = indices@.skip(i as int);
        let ghost after = indices@.skip(i + 1);
        proof {
            assert(rest[0] == idx);
            assert(rest.skip(1) =~= after);
        }
        let begun = sink.begin(idx);
        let ghost e1 = sink.history().last();
        proof {
            assert(sink.history() =~= before + (sofar + seq![e1]));
        }
        let step = match begun {
            Ok(s) => s,
            Err(e) => {
                proof {
                    let done: Result<(), ErrorView> = Err(e@);
                    assert(seq![e1].len() == 1);
                    assert(pass_over(bodies, rest, seq![e1], done));
                    assert(sink.history().skip(before.len() as int) =~= sofar + seq![e1]);
                    assert(sink.history().take(before.len() as int) =~= before);
                }
                return Err(e);
            },
        };
        match step {
            SinkStep::Stop => {
                proof {
                    let done: Result<(), ErrorView> = Ok(());
                    assert(pass_over(bodies, rest, seq![e1], done));
                    assert(sink.history().skip(before.len() as int) =~= sofar + seq![e1]);
                    assert(sink.history().take(before.len() as int) =~= before);
                }
                return Ok(());
            },
            SinkStep::Skip => {
                proof {
                    assert forall|tail: Seq<SinkEvent>, result: Result<(), ErrorView>|
                        #[trigger] pass_over(bodies, after, tail, result) implies pass_over(
                        bodies, rest, seq![e1] + tail, result,
                    ) by {
                        assert((seq![e1] + tail).skip(1) =~= tail);
                    }
                    extends_by(bodies, indices@, i as int, sofar, seq![e1]);
                    sofar = sofar + seq![e1];
                }
                i = i + 1;
                continue;
            },
            SinkStep::Body => {},
        }
        let outcome: Result<(), Error> = match reader.read_entry(idx) {
            Ok(body) => sink.write_body(body.as_slice()),
            Err(e) => Err(e),
        };
        let ghost given = sink.history().skip((before + sofar).len() as int);
        let ghost said = outcome_view(outcome);
        proof {
            match reader.body(idx as int) {
                Ok(b) => {
                    assert(given =~= seq![e1, SinkEvent::Wrote { body: b, answer: said }]);
                },
                Err(e) => {
                    assert(given =~= seq![e1]);
                },
            }
            assert(sink.history() =~= before + (sofar + given));
        }
        let answer = sink.end(idx, outcome);
        let ghost e3 = sink.history().last();
        let ghost added = given.push(e3);
        proof {
            assert(sink.history() =~= before + (sofar + added));
            assert(sink.history().skip(before.len() as int) =~= sofar + added);
            assert(sink.history().take(before.len() as int) =~= before);
            assert forall|tail: Seq<SinkEvent>, result: Result<(), ErrorView>|
                #[trigger] ended(bodies, after, idx as int, said, seq![e3] + tail, result) implies pass_over(
                bodies, rest, added + tail, result,
            ) by {
                match reader.body(idx as int) {
                    Ok(b) => {
                        assert((added + tail).skip(2) =~= seq![e3] + tail);
                        assert((added + tail)[1] == given[1]);
                    },
                    Err(e) => {
                        assert((added + tail).skip(1) =~= seq![e3] + tail);
                    },
                }
                assert((added + tail)[0] == e1);
            }
            assert(added + Seq::<SinkEvent>::empty() =~= added);
            assert(seq![e3] + Seq::<SinkEvent>::empty() =~= seq![e3]);
        }
        match answer {
            Err(e) => {
                proof {
                    let done: Result<(), ErrorView> = Err(e@);
                    assert(ended(bodies, after, idx as int, said, seq![e3] + Seq::<SinkEvent>::empty(), done));
                    assert(pass_over(bodies, rest, added, done));
                }
                return Err(e);
            },
            Ok(false) => {
                proof {
                    let done: Result<(), ErrorView> = Ok(());
                    assert(ended(bodies, after, idx as int, said, seq![e3] + Seq::<SinkEvent>::empty(), done));
                    assert(pass_over(bodies, rest, added, done));
                }
                return Ok(());
            },
            Ok(true) => {
                proof {
                    assert forall|tail: Seq<SinkEvent>, result: Result<(), ErrorView>|
                        #[trigger] pass_over(bodies, after, tail, result) implies pass_over(
                        bodies, rest, added + tail, result,
                    ) by {
                        assert((seq![e3] + tail).skip(1) =~= tail);
                        assert(ended(bodies, after, idx as int, said, seq![e3] + tail, result));
                    }
                    extends_by(bodies, indices@, i as int, sofar, added);
                    sofar = sofar + added;
                }
            },
        }
        i = i + 1;
    }
    proof {
        let done: Result<(), ErrorView> = Ok(());
        let empty = Seq::<SinkEvent>::empty();
        assert(pass_over(bodies, indices@.skip(i as int), empty, done));
        assert(sofar + empty =~= sofar);
        assert(sink.history().skip(before.len() as int) =~= sofar);
        assert(sink.history().take(before.len() as int) =~= before);
    }
    Ok(())
}

/// An opened archive that hands several entries to a sink in one pass. `indices`
/// are meant to ascend; a reader may take the entries in the order in which they
/// are stored.
pub trait BatchReader: ArchiveReader + Sized {
    /// `events` are the calls that a sink is given in a pass over `indices`, and
    /// `result` is what the pass comes to.
    open spec fn passes(&self, indices: Seq<usize>, events: Seq<SinkEvent>, result: Result<(), ErrorView>) -> bool {
        pass_over(bodies_of(self), indices, events, result)
    }

    fn read_entries<S: EntrySink>(&self, indices: &[usize], sink: &mut S) -> (r: Result<(), Error>)
        ensures
            final(sink).history().len() >= old(sink).history().len(),
            final(sink).history().take(old(sink).history().len() as int) == old(sink).history(),
            self.passes(
                indices@,
                final(sink).history().skip(old(sink).history().len() as int),
                outcome_view(r),
            ),
    ;
}

/// A pass that goes entry by entry keeps to the protocol of a sink.
pub proof fn pass_keeps_protocol(
    bodies: spec_fn(int) -> Result<Seq<u8>, ErrorView>,
    indices: Seq<usize>,
    events: Seq<SinkEvent>,
    result: Result<(), ErrorView>,
)
    requires
        pass_over(bodies, indices, events, result),
    ensures
        protocol(events, None),
    decreases indices.len(),
{
    reveal_with_fuel(pass_over, 2);
    reveal_with_fuel(ended, 2);
    reveal_with_fuel(protocol, 4);
    if indices.len() > 0 {
        let others = indices.skip(1);
        match events[0] {
            SinkEvent::Begin { idx, answer } => match answer {
                Ok(SinkStep::Skip) => {
                    pass_keeps_protocol(bodies, others, events.skip(1), result);
                },
                Ok(SinkStep::Body) => {
                    let rest = match bodies(idx) {
                        Ok(b) => events.skip(2),
                        Err(e) => events.skip(1),
                    };
                    match rest[0] {
                        SinkEvent::End { answer: Ok(true), .. } => {
                            pass_keeps_protocol(bodies, others, rest.skip(1), result);
                        },
                        _ => {},
                    }
                    assert(protocol(rest, Some(idx)));
                    assert(events.skip(1).skip(1) =~= events.skip(2));
                    assert(protocol(events.skip(1), Some(idx)));
                },
                _ => {},
            },
            _ => {},
        }
    }
}

/// The answers of a sink that takes everything.
pub open spec fn takes_all(events: Seq<SinkEvent>) -> bool {
    forall|k: int|
        0 <= k < events.len() ==> match #[trigger] events[k] {
            SinkEvent::Begin { answer, .. } => answer == Ok::<SinkStep, ErrorView>(SinkStep::Body),
            SinkEvent::Wrote { answer, .. } => answer == Ok::<(), ErrorView>(()),
            SinkEvent::End { answer, .. } => answer == Ok::<bool, ErrorView>(true),
        }
}

/// A sink that takes everything gets, for each index in turn, its beginning, its whole body
/// and its end, and the pass succeeds.
#[verifier::rlimit(40)]
pub proof fn willing_sink_gets_everything(
    bodies: spec_fn(int) -> Result<Seq<u8>, ErrorView>,
    indices: Seq<usize>,
    events: Seq<SinkEvent>,
    result: Result<(), ErrorView>,
)
    requires
        pass_over(bodies, indices, events, result),
        takes_all(events),
        forall|k: int| 0 <= k < indices.len() ==> bodies(#[trigger] indices[k] as int) is Ok,
    ensures
        result is Ok,
        events.len() == 3 * indices.len(),
        forall|k: int|
            0 <= k < indices.len() ==> {
                let idx = #[trigger] indices[k] as int;
                &&& events[3 * k] matches SinkEvent::Begin { idx: i, .. } && i == idx
                &&& events[3 * k + 1] matches SinkEvent::Wrote { body, .. } && bodies(idx) == Ok::<Seq<u8>, ErrorView>(body)
                &&& events[3 * k + 2] matches SinkEvent::End { idx: i, outcome, .. } && i == idx && outcome is Ok
            },
    decreases indices.len(),
{
    if indices.len() > 0 {
        let rest = indices.skip(1);
        assert(bodies(indices[0] as int) is Ok);
        let idx = indices[0] as int;
        let later = events.skip(2);
        assert(events[0] matches SinkEvent::Begin { idx: i, answer } && i == idx && answer == Ok::<SinkStep, ErrorView>(
            SinkStep::Body,
        ));
        assert(events.len() > 1);
        assert(events[1] matches SinkEvent::Wrote { body, answer } && bodies(idx) == Ok::<Seq<u8>, ErrorView>(body) && answer
            == Ok::<(), ErrorView>(()));
        assert(ended(bodies, rest, idx, Ok(()), later, result));
        assert(later.len() > 0);
        assert(later[0] == events[2]);
        assert(events[2] matches SinkEvent::End { idx: i, outcome, answer } && i == idx && outcome is Ok && answer == Ok::<
            bool,
            ErrorView,
        >(true));
        let left = later.skip(1);
        assert(left =~= events.skip(3));
        assert forall|k: int| 0 <= k < rest.len() implies bodies(#[trigger] rest[k] as int) is Ok by {
            assert(rest[k] == indices[k + 1]);
        }
        assert(takes_all(left)) by {
            assert forall|k: int| 0 <= k < left.len() implies match #[trigger] left[k] {
                SinkEvent::Begin { answer, .. } => answer == Ok::<SinkStep, ErrorView>(SinkStep::Body),
                SinkEvent::Wrote { answer, .. } => answer == Ok::<(), ErrorView>(()),
                SinkEvent::End { answer, .. } => answer == Ok::<bool, ErrorView>(true),
            } by {
                assert(left[k] == events[k + 3]);
            }
        }
        willing_sink_gets_everything(bodies, rest, left, result);
        assert forall|k: int| 0 <= k < indices.len() implies {
            let idx = #[trigger] indices[k] as int;
            &&& events[3 * k] matches SinkEvent::Begin { idx: i, .. } && i == idx
            &&& events[3 * k + 1] matches SinkEvent::Wrote { body, .. } && bodies(idx) == Ok::<Seq<u8>, ErrorView>(body)
            &&& events[3 * k + 2] matches SinkEvent::End { idx: i, outcome, .. } && i == idx && outcome is Ok
        } by {
            if k > 0 {
                assert(rest[k - 1] == indices[k]);
                assert(left[3 * (k - 1)] == events[3 * k]);
                assert(left[3 * (k - 1) + 1] == events[3 * k + 1]);
                assert(left[3 * (k - 1) + 2] == events[3 * k + 2]);
            }
        }
    }
}

/// A seek by nothing stays, two seeks from where one is are as good as one, and a seek from
/// the end by its length leads to the start.
pub proof fn seeks_add_up(position: int, len: int, a: i64, b: i64)
    requires
        i64::MIN <= a + b <= i64::MAX,
        0 <= len <= i64::MAX,
    ensures
        seek_target(SeekTo::Current(0), position, len) == position,
        seek_target(SeekTo::Current(b), seek_target(SeekTo::Current(a), position, len), len) == seek_target(
            SeekTo::Current((a + b) as i64),
            position,
            len,
        ),
        seek_target(SeekTo::End((-len) as i64), position, len) == seek_target(SeekTo::Start(0), position, len) == 0,
        seek_target(SeekTo::End(a), position, len) == seek_target(SeekTo::Current(a), len, len),
        seek_target(SeekTo::Start(len as u64), position, len) == seek_target(SeekTo::End(0), position, len) == len,
{
}

} // verus!
