//! Unpacking to disk: which entries go where, and what is to be done at each
//! step. The disk itself is not touched here: the steps are told, and what came
//! of them is told back.
use vstd::prelude::*;

use crate::archive;
use crate::bytes;
use crate::error;
use crate::format::legacy::mac;
use crate::paths;
use crate::text;
use crate::archive::{Entry, EntryKind, EntryView, KindView, SinkStep};
use crate::bytes::push_be_u32;
use crate::datetime::Stamp;
use crate::error::{corrupt, unsupported, Error, ErrorView, IoError, IoKind};
use crate::paths::{join_path, path_file_name, path_file_stem, path_segments};
use crate::text::{begins_exactly, chars_of, copy_text, join2, same_chars, same_text, string_of};

verus! {

/// What is told of an extraction as it goes on.
#[derive(Debug)]
pub enum ProgressEvent<'a> {
    EntryStart { index: usize, path: &'a str, size: u64 },
    Bytes { index: usize, written: u64 },
    EntryDone { index: usize },
}

/// The answer to a progress event.
#[derive(Debug, Clone, Copy, PartialEq, Eq, Structural)]
pub enum Flow {
    Continue,
    Abort,
}

/// How an archive is to be extracted.
#[derive(Debug)]
pub struct ExtractOptions {
    pub dest: String,
    /// The name of the folder that holds entries without a common root.
    pub wrapper_name: Option<String>,
    /// The first failure ends the extraction.
    pub strict: bool,
    /// Times and modes are restored.
    pub preserve: bool,
    /// Only these entries are extracted; all, where there is no selection.
    pub selection: Option<Vec<usize>>,
    /// The files that macOS puts beside others are extracted too.
    pub keep_macos_metadata: bool,
}

/// What became of an extraction.
#[derive(Debug)]
pub struct ExtractReport {
    pub extracted: usize,
    /// The paths of the entries that failed, and why.
    pub failed: Vec<(String, String)>,
    pub wrapped: bool,
    pub aborted: bool,
}

impl Default for ExtractReport {
    fn default() -> (r: ExtractReport)
        ensures
            r.extracted == 0,
            r.failed@.len() == 0,
            !r.wrapped,
            !r.aborted,
    {
        ExtractReport { extracted: 0, failed: Vec::new(), wrapped: false, aborted: false }
    }
}

/// What a path begins with before its pieces: a slash, or a dot that leads it.
pub open spec fn lead(path: Seq<char>) -> Seq<Seq<char>> {
    if path.len() > 0 && path[0] == '/' {
        seq![seq!['/']]
    } else if path.len() > 0 && path[0] == '.' && (path.len() == 1 || path[1] == '/') {
        seq![seq!['.']]
    } else {
        Seq::empty()
    }
}

/// The components of a path.
pub open spec fn components(path: Seq<char>) -> Seq<Seq<char>> {
    lead(path) + paths::segments(path)
}

/// The first component of a path, and whether another follows it; nothing for a
/// path without components.
fn top_component(path: &str) -> (r: Option<(String, bool)>)
    ensures
        match r {
            None => components(path@).len() == 0,
            Some((top, more)) => components(path@).len() > 0 && components(path@)[0] == top@ && more == (components(
                path@,
            ).len() > 1),
        },
{
    let chars = chars_of(path);
    let segs = path_segments(chars.as_slice());
    proof {
        assert(text::runs(segs@).len() == segs@.len());
    }
    let n: usize = chars.len();
    if n > 0 && chars[0] == '/' {
        let mut top: Vec<char> = Vec::new();
        top.push('/');
        assert(top@ =~= seq!['/']);
        return Some((string_of(top.as_slice()), segs.len() > 0));
    }
    if n > 0 && chars[0] == '.' && (n == 1 || chars[1] == '/') {
        let mut top: Vec<char> = Vec::new();
        top.push('.');
        assert(top@ =~= seq!['.']);
        return Some((string_of(top.as_slice()), segs.len() > 0));
    }
    assert(components(path@) =~= paths::segments(path@));
    if segs.len() == 0 {
        return None;
    }
    assert(text::runs(segs@)[0] == segs@[0]@);
    Some((string_of(segs[0].as_slice()), segs.len() > 1))
}

/// `root` is the first component of every path.
pub open spec fn is_shared_top(entries: Seq<EntryView>, root: Seq<char>) -> bool {
    forall|i: int| 0 <= i < entries.len() ==> tops(#[trigger] entries[i], root)
}

/// `root` is the first component of the entry's path.
pub open spec fn tops(e: EntryView, root: Seq<char>) -> bool {
    components(e.path).len() > 0 && components(e.path)[0] == root
}

/// The entry shows that the first component of its path is a directory.
pub open spec fn shows_dir(e: EntryView) -> bool {
    components(e.path).len() > 1 || e.kind is Dir
}

/// Some entry shows that the first component is a directory.
pub open spec fn any_shows_dir(entries: Seq<EntryView>) -> bool {
    exists|i: int| 0 <= i < entries.len() && shows_dir(#[trigger] entries[i])
}

/// `root` is the one directory that all entries are under.
pub open spec fn is_common_root(entries: Seq<EntryView>, root: Seq<char>) -> bool {
    entries.len() > 0 && is_shared_top(entries, root) && any_shows_dir(entries)
}

/// The one directory at the top that all entries are under; none for a single
/// file at the top, or where there are several things there.
pub fn common_root(entries: &[Entry]) -> (r: Option<String>)
    ensures
        match r {
            Some(root) => is_common_root(archive::views(entries@), root@),
            None => forall|root: Seq<char>| !(#[trigger] is_common_root(archive::views(entries@), root)),
        },
{
    let ghost all = archive::views(entries@);
    let mut root: Option<String> = None;
    let mut is_dir_root = false;
    let mut i: usize = 0;
    while i < entries.len()
        invariant
            i <= entries.len(),
            all == archive::views(entries@),
            root is None <==> i == 0,
            root matches Some(t) ==> forall|k: int| 0 <= k < i ==> tops(#[trigger] all[k], t@),
            is_dir_root == (exists|k: int| 0 <= k < i && shows_dir(#[trigger] all[k])),
        decreases entries.len() - i,
    {
        let e = &entries[i];
        assert(all[i as int] == e@);
        let (top, more) = match top_component(e.path.as_str()) {
            None => {
                assert forall|t: Seq<char>| !(#[trigger] is_common_root(all, t)) by {
                    if is_common_root(all, t) {
                        assert(tops(all[i as int], t));
                    }
                }
                return None;
            },
            Some(found) => found,
        };
        match &root {
            None => {
                root = Some(top);
            },
            Some(r) => {
                if !same_text(r.as_str(), top.as_str()) {
                    assert forall|t: Seq<char>| !(#[trigger] is_common_root(all, t)) by {
                        if is_common_root(all, t) {
                            assert(tops(all[i as int], t));
                            assert(tops(all[0], t));
                            assert(tops(all[0], r@));
                        }
                    }
                    return None;
                }
            },
        }
        if more || e.is_dir() {
            is_dir_root = true;
            assert(shows_dir(all[i as int]));
        }
        i = i + 1;
    }
    if is_dir_root {
        root
    } else {
        None
    }
}

/// All entries are under at most one common root.
pub proof fn common_root_is_unique(entries: Seq<EntryView>, a: Seq<char>, b: Seq<char>)
    requires
        is_common_root(entries, a),
        is_common_root(entries, b),
    ensures
        a == b,
{
    assert(tops(entries[0], a));
    assert(tops(entries[0], b));
}

/// The name of the folder for the entries of an archive, where one is wanted.
pub open spec fn wrapper_of(archive: Seq<char>, use_wrapper: bool) -> Option<Seq<char>> {
    if use_wrapper { paths::file_stem(archive) } else { None }
}

/// The name of the folder for the entries of an archive: the file name of the
/// archive without its extension, where such a folder is wanted.
pub fn wrapper_name(archive: &str, use_wrapper: bool) -> (r: Option<String>)
    ensures
        text::opt_string(r) == wrapper_of(archive@, use_wrapper),
{
    if !use_wrapper {
        return None;
    }
    let chars = chars_of(archive);
    match path_file_stem(chars.as_slice()) {
        Some(stem) => Some(string_of(stem.as_slice())),
        None => None,
    }
}

/// A piece of a path that holds only what macOS puts beside files.
pub open spec fn is_sidecar_folder(piece: Seq<char>) -> bool {
    piece == "__MACOSX"@
}

/// A path of a file that macOS put beside another: `._` and a name, `.DS_Store`,
/// or anything under `__MACOSX`.
pub open spec fn is_metadata_path(path: Seq<char>) -> bool {
    let segs = paths::segments(path);
    ||| segs.len() > 0 && (text::text_begins(segs.last(), "._"@) || segs.last() == ".DS_Store"@)
    ||| exists|i: int| 0 <= i < segs.len() && is_sidecar_folder(#[trigger] segs[i])
}

/// Whether a path is that of a file that macOS put beside another.
pub fn is_macos_metadata(path: &str) -> (r: bool)
    ensures
        r == is_metadata_path(path@),
{
    let chars = chars_of(path);
    let segs = path_segments(chars.as_slice());
    let ghost all = paths::segments(path@);
    proof {
        assert(text::runs(segs@).len() == segs@.len());
    }
    if segs.len() > 0 {
        let last = &segs[segs.len() - 1];
        assert(text::runs(segs@)[segs@.len() - 1] == last@);
        let dot = chars_of("._");
        let store = chars_of(".DS_Store");
        if begins_exactly(last.as_slice(), dot.as_slice()) || same_chars(last.as_slice(), store.as_slice()) {
            return true;
        }
    }
    let folder = chars_of("__MACOSX");
    let mut i: usize = 0;
    while i < segs.len()
        invariant
            i <= segs.len(),
            all == text::runs(segs@),
            folder@ == "__MACOSX"@,
            all == paths::segments(path@),
            forall|k: int| 0 <= k < i ==> !is_sidecar_folder(#[trigger] all[k]),
        decreases segs.len() - i,
    {
        assert(all[i as int] == segs@[i as int]@);
        if same_chars(segs[i].as_slice(), folder.as_slice()) {
            assert(is_sidecar_folder(all[i as int]));
            return true;
        }
        i = i + 1;
    }
    false
}

/// Entry `i` is to be extracted.
pub open spec fn is_wanted(e: EntryView, i: int, opts: &ExtractOptions) -> bool {
    &&& opts.selection matches Some(s) ==> exists|k: int| 0 <= k < s@.len() && #[trigger] s@[k] == i
    &&& opts.keep_macos_metadata || !is_metadata_path(e.path)
}

/// The entries among the first `n` that are to be extracted.
pub open spec fn wanted_among(entries: Seq<EntryView>, opts: &ExtractOptions, n: int) -> Seq<int>
    decreases n,
{
    if n <= 0 {
        Seq::empty()
    } else if is_wanted(entries[n - 1], n - 1, opts) {
        wanted_among(entries, opts, n - 1).push(n - 1)
    } else {
        wanted_among(entries, opts, n - 1)
    }
}

/// The indices of a list as mathematical integers.
pub open spec fn as_ints(v: Seq<usize>) -> Seq<int> {
    v.map_values(|i: usize| i as int)
}

/// The entries at those places.
pub open spec fn entries_at(entries: Seq<EntryView>, places: Seq<int>) -> Seq<EntryView> {
    places.map_values(|i: int| entries[i])
}

fn holds(s: &Vec<usize>, i: usize) -> (r: bool)
    ensures
        r == exists|k: int| 0 <= k < s@.len() && #[trigger] s@[k] == i,
{
    let mut k: usize = 0;
    while k < s.len()
        invariant
            k <= s.len(),
            forall|j: int| 0 <= j < k ==> #[trigger] s@[j] != i,
        decreases s.len() - k,
    {
        if s[k] == i {
            return true;
        }
        k = k + 1;
    }
    false
}

fn selected(selection: &Option<Vec<usize>>, i: usize) -> (r: bool)
    ensures
        r == (*selection matches Some(s) ==> exists|k: int| 0 <= k < s@.len() && #[trigger] s@[k] == i),
{
    match selection {
        None => true,
        Some(s) => holds(s, i),
    }
}

/// What is to be extracted, and where to.
#[derive(Debug)]
pub struct ExtractPlan {
    /// The entries, in order.
    pub indices: Vec<usize>,
    pub dest: String,
    /// The destination is a folder of its own, which is to be made.
    pub wrapped: bool,
}

/// The destination is a folder of its own: there is a name for one, and the
/// entries have no common root.
pub open spec fn is_wrapped(entries: Seq<EntryView>, opts: &ExtractOptions) -> bool {
    &&& opts.wrapper_name is Some
    &&& forall|root: Seq<char>|
        !(#[trigger] is_common_root(
            entries_at(entries, wanted_among(entries, opts, entries.len() as int)),
            root,
        ))
}

/// Where the entries go: into a folder of their own, or right into the destination.
pub open spec fn dest_of(entries: Seq<EntryView>, opts: &ExtractOptions) -> Seq<char> {
    if is_wrapped(entries, opts) { paths::joined(opts.dest@, opts.wrapper_name->0@) } else { opts.dest@ }
}

/// Say what is to be extracted, and where to.
pub fn plan_extraction(entries: &Vec<Entry>, opts: &ExtractOptions) -> (r: ExtractPlan)
    ensures
        as_ints(r.indices@) == wanted_among(archive::views(entries@), opts, entries@.len() as int),
        r.wrapped == is_wrapped(archive::views(entries@), opts),
        r.dest@ == dest_of(archive::views(entries@), opts),
{
    let ghost all = archive::views(entries@);
    let mut indices: Vec<usize> = Vec::new();
    let mut subset: Vec<Entry> = Vec::new();
    let mut i: usize = 0;
    proof {
        assert(as_ints(indices@) =~= wanted_among(all, opts, 0));
        assert(archive::views(subset@) =~= entries_at(all, as_ints(indices@)));
    }
    while i < entries.len()
        invariant
            i <= entries.len(),
            all == archive::views(entries@),
            as_ints(indices@) == wanted_among(all, opts, i as int),
            archive::views(subset@) == entries_at(all, as_ints(indices@)),
        decreases entries.len() - i,
    {
        let e = &entries[i];
        assert(all[i as int] == e@);
        let ghost old_indices = indices@;
        let ghost old_subset = subset@;
        if selected(&opts.selection, i) && (opts.keep_macos_metadata || !is_macos_metadata(e.path.as_str())) {
            assert(is_wanted(all[i as int], i as int, opts));
            indices.push(i);
            let c = e.copy();
            subset.push(c);
            proof {
                assert(as_ints(indices@) =~= as_ints(old_indices).push(i as int));
                assert(archive::views(subset@) =~= archive::views(old_subset).push(all[i as int]));
                assert(entries_at(all, as_ints(indices@)) =~= entries_at(all, as_ints(old_indices)).push(all[i as int]));
            }
        }
        i = i + 1;
    }
    proof {
        assert(all.len() == entries@.len());
    }
    match common_root(subset.as_slice()) {
        Some(root) => {
            assert(is_common_root(entries_at(all, wanted_among(all, opts, all.len() as int)), root@));
            ExtractPlan { indices, dest: copy_text(opts.dest.as_str()), wrapped: false }
        },
        None => match &opts.wrapper_name {
            Some(name) => ExtractPlan {
                indices,
                dest: join_path(opts.dest.as_str(), name.as_str()),
                wrapped: true,
            },
            None => ExtractPlan { indices, dest: copy_text(opts.dest.as_str()), wrapped: false },
        },
    }
}

/// The entries are extracted in the order of the archive, each once, and only
/// those that are wanted.
pub proof fn plan_goes_forward(entries: Seq<EntryView>, opts: &ExtractOptions, n: int)
    requires
        0 <= n <= entries.len(),
    ensures
        forall|a: int, b: int|
            0 <= a < b < wanted_among(entries, opts, n).len() ==> #[trigger] wanted_among(entries, opts, n)[a]
                < #[trigger] wanted_among(entries, opts, n)[b],
        forall|a: int|
            0 <= a < wanted_among(entries, opts, n).len() ==> 0 <= #[trigger] wanted_among(entries, opts, n)[a] < n
                && is_wanted(entries[wanted_among(entries, opts, n)[a]], wanted_among(entries, opts, n)[a], opts),
        forall|i: int| 0 <= i < n && is_wanted(#[trigger] entries[i], i, opts) ==> wanted_among(entries, opts, n).contains(i),
    decreases n,
{
    if n > 0 {
        plan_goes_forward(entries, opts, n - 1);
        let before = wanted_among(entries, opts, n - 1);
        let all = wanted_among(entries, opts, n);
        if is_wanted(entries[n - 1], n - 1, opts) {
            assert(all == before.push(n - 1));
            assert(all[before.len() as int] == n - 1);
            assert forall|i: int| 0 <= i < n && is_wanted(#[trigger] entries[i], i, opts) implies all.contains(i) by {
                if i < n - 1 {
                    assert(before.contains(i));
                    let k = choose|k: int| 0 <= k < before.len() && before[k] == i;
                    assert(all[k] == i);
                } else {
                    assert(all[before.len() as int] == i);
                }
            }
        }
    }
}


/// The parts of an AppleDouble file: its mark, its version, the number of the
/// part that is a resource fork, and the length of the header before that.
pub const APPLEDOUBLE_MAGIC: u32 = 0x0005_1607;

pub const APPLEDOUBLE_VERSION: u32 = 0x0002_0000;

pub const APPLEDOUBLE_RESOURCE_FORK_ID: u32 = 2;

pub const APPLEDOUBLE_HEADER_LEN: u32 = 38;

/// The AppleDouble file of a resource fork: the only part of it.
pub open spec fn appledouble_of(fork: Seq<u8>) -> Seq<u8> {
    bytes::be32_bytes(APPLEDOUBLE_MAGIC as int) + bytes::be32_bytes(APPLEDOUBLE_VERSION as int) + Seq::new(
        16,
        |i: int| 0u8,
    ) + seq![0u8, 1u8] + bytes::be32_bytes(APPLEDOUBLE_RESOURCE_FORK_ID as int) + bytes::be32_bytes(
        APPLEDOUBLE_HEADER_LEN as int,
    ) + bytes::be32_bytes(fork.len() as int) + fork
}

/// Wrap a resource fork as an AppleDouble file. One whose length does not fit in
/// the header is refused.
pub fn appledouble(fork: &[u8]) -> (r: Result<Vec<u8>, Error>)
    ensures
        if fork@.len() > u32::MAX {
            error::fails_with(
                r,
                ErrorView::Unsupported {
                    format: "resource fork"@,
                    feature: "fork larger than 4 GiB in an AppleDouble sidecar"@,
                },
            )
        } else {
            r matches Ok(v) && v@ == appledouble_of(fork@)
        },
{
    if fork.len() as u64 > u32::MAX as u64 {
        return Err(unsupported("resource fork", "fork larger than 4 GiB in an AppleDouble sidecar"));
    }
    let mut out: Vec<u8> = Vec::new();
    push_be_u32(&mut out, APPLEDOUBLE_MAGIC);
    push_be_u32(&mut out, APPLEDOUBLE_VERSION);
    let ghost before = out@;
    let mut i: usize = 0;
    assert(out@ =~= before + Seq::new(0, |i: int| 0u8));
    while i < 16
        invariant
            i <= 16,
            out@ == before + Seq::new(i as nat, |i: int| 0u8),
        decreases 16 - i,
    {
        out.push(0);
        i = i + 1;
        assert(out@ =~= before + Seq::new(i as nat, |i: int| 0u8));
    }
    out.push(0);
    out.push(1);
    push_be_u32(&mut out, APPLEDOUBLE_RESOURCE_FORK_ID);
    push_be_u32(&mut out, APPLEDOUBLE_HEADER_LEN);
    push_be_u32(&mut out, fork.len() as u32);
    let ghost head = out@;
    let mut k: usize = 0;
    assert(out@ =~= head + fork@.take(0));
    while k < fork.len()
        invariant
            k <= fork.len(),
            out@ == head + fork@.take(k as int),
        decreases fork.len() - k,
    {
        out.push(fork[k]);
        k = k + 1;
        assert(out@ =~= head + fork@.take(k as int));
    }
    assert(fork@.take(k as int) =~= fork@);
    assert(out@ =~= appledouble_of(fork@));
    Ok(out)
}

/// An AppleDouble file holds one part, a resource fork; its header says where the
/// fork begins and how long it is, the fork is found there unchanged, and the
/// file is known again as an AppleDouble file.
#[verifier::rlimit(60)]
pub proof fn appledouble_reads_back(fork: Seq<u8>)
    requires
        fork.len() <= u32::MAX,
    ensures
        ({
            let file = appledouble_of(fork);
            &&& mac::is_applesingle(file)
            &&& bytes::be16(file, 24) == 1
            &&& bytes::be32(file, 26) == APPLEDOUBLE_RESOURCE_FORK_ID
            &&& bytes::be32(file, 30) == APPLEDOUBLE_HEADER_LEN
            &&& bytes::be32(file, 34) == fork.len()
            &&& file.skip(bytes::be32(file, 30)) == fork
        }),
{
    let file = appledouble_of(fork);
    let n = fork.len() as int;
    let size = bytes::be32_bytes(n);
    assert(file.len() == 38 + n);
    assert(file.skip(38) =~= fork);
    assert(file[0] == 0 && file[1] == 5 && file[2] == 0x16 && file[3] == 7);
    assert(file[4] == 0 && file[5] == 2 && file[6] == 0 && file[7] == 0);
    assert(file[24] == 0 && file[25] == 1);
    assert(file[26] == 0 && file[27] == 0 && file[28] == 0 && file[29] == 2);
    assert(file[30] == 0 && file[31] == 0 && file[32] == 0 && file[33] == 38);
    assert(file[34] == size[0] && file[35] == size[1] && file[36] == size[2] && file[37] == size[3]);
    bytes::be32_reads_back(n);
    assert(bytes::be32(file, 34) == bytes::be32(size, 0));
}

/// The name of the file beside another that holds its resource fork.
pub open spec fn sidecar_of(path: Seq<char>) -> Option<Seq<char>> {
    match paths::file_name(path) {
        Some(n) => Some("._"@ + n),
        None => None,
    }
}

/// What an entry asks for on disk.
#[derive(Debug, Clone, Copy, PartialEq, Eq, Structural)]
pub enum Task {
    /// Make a directory.
    Dir,
    /// Make a symbolic link.
    Link,
    /// Open a file for the body.
    File,
    /// Take the resource fork of a file.
    Fork,
}

/// What an entry asks for. A resource fork is one whatever its kind.
pub open spec fn task_of(e: EntryView) -> Task {
    if e.is_resource_fork {
        Task::Fork
    } else {
        match e.kind {
            KindView::Dir => Task::Dir,
            KindView::Symlink(_) => Task::Link,
            KindView::File => Task::File,
        }
    }
}

fn task_for(e: &Entry) -> (r: Task)
    ensures
        r == task_of(e@),
{
    if e.is_resource_fork {
        return Task::Fork;
    }
    match &e.kind {
        EntryKind::Dir => Task::Dir,
        EntryKind::Symlink { .. } => Task::Link,
        EntryKind::File => Task::File,
    }
}

/// The entry whose body is being written.
#[derive(Debug)]
pub struct Current {
    pub idx: usize,
    /// The path of the entry itself.
    pub entry_path: String,
    pub is_fork: bool,
    /// A resource fork that is kept until it is whole; `None` where the body goes
    /// to a file.
    pub kept: Option<Vec<u8>>,
}

/// A `Current` as its model.
pub struct CurrentView {
    pub idx: int,
    pub entry_path: Seq<char>,
    pub is_fork: bool,
    pub kept: Option<Seq<u8>>,
}

impl View for Current {
    type V = CurrentView;

    open spec fn view(&self) -> CurrentView {
        CurrentView {
            idx: self.idx as int,
            entry_path: self.entry_path@,
            is_fork: self.is_fork,
            kept: match self.kept {
                Some(v) => Some(v@),
                None => None,
            },
        }
    }
}

/// The state of an extraction.
#[derive(Debug)]
pub struct ExtractSink {
    pub strict: bool,
    pub preserve: bool,
    /// The file system has resource forks of its own.
    pub native_forks: bool,
    pub report: ExtractReport,
    /// The directories that were made, and the times that they get at the end.
    pub dir_mtimes: Vec<(String, Option<Stamp>)>,
    pub cur: Option<Current>,
    /// The extraction was called off in the midst of a body.
    pub aborted: bool,
}

/// An `ExtractSink` as its model.
pub struct SinkView {
    pub strict: bool,
    pub preserve: bool,
    pub native_forks: bool,
    pub extracted: int,
    pub failed: Seq<(Seq<char>, Seq<char>)>,
    pub wrapped: bool,
    pub called_off: bool,
    pub dir_mtimes: Seq<(Seq<char>, Option<Stamp>)>,
    pub cur: Option<CurrentView>,
    pub aborted: bool,
}

impl View for ExtractSink {
    type V = SinkView;

    open spec fn view(&self) -> SinkView {
        SinkView {
            strict: self.strict,
            preserve: self.preserve,
            native_forks: self.native_forks,
            extracted: self.report.extracted as int,
            failed: self.report.failed@.map_values(|f: (String, String)| (f.0@, f.1@)),
            wrapped: self.report.wrapped,
            called_off: self.report.aborted,
            dir_mtimes: self.dir_mtimes@.map_values(|d: (String, Option<Stamp>)| (d.0@, d.1)),
            cur: match self.cur {
                Some(c) => Some(c@),
                None => None,
            },
            aborted: self.aborted,
        }
    }
}

/// The entry failed: the extraction ends, if it is strict; else the failure is
/// put down.
pub open spec fn after_failure(v: SinkView, e: EntryView, why: ErrorView) -> SinkView {
    if v.strict {
        v
    } else {
        SinkView { failed: v.failed.push((e.path, error::message_of(why))), ..v }
    }
}

/// The entry is on disk.
pub open spec fn after_done(v: SinkView) -> SinkView {
    SinkView { extracted: v.extracted + 1, ..v }
}

/// What comes first of an entry.
#[derive(Debug, Clone, Copy, PartialEq, Eq, Structural)]
pub enum Begin {
    /// The extraction was called off.
    Stop,
    /// This is to be done on disk; what came of it goes to `prepared`.
    Prepare(Task),
}

/// What is done with a piece of a body.
#[derive(Debug, Clone, Copy, PartialEq, Eq, Structural)]
pub enum Piece {
    /// It is to be written to the file that was opened.
    ToFile,
    /// It was kept.
    Kept,
}

/// How an extraction goes on behind a body that broke off.
#[derive(Debug, Clone, Copy, PartialEq, Eq, Structural)]
pub enum Next {
    GoesOn,
    /// It ends, for it was called off.
    CalledOff,
    /// It ends with the failure of the body.
    Fails,
}

/// What is to be done when a body is over.
#[derive(Debug)]
pub enum End {
    /// Restore the mode and time of the file at `path`, as far as they are given;
    /// what came of it goes to `finished`.
    Restore { path: String, mode: Option<u32>, modified: Option<Stamp> },
    /// Write the file `name` beside `path` and give it the time; what came of it
    /// goes to `finished`.
    Sidecar { path: String, name: String, bytes: Vec<u8>, modified: Option<Stamp> },
    /// Remove the half-written file, if there is one. How the extraction goes on is
    /// settled.
    Discard { remove: Option<String>, next: Next },
    /// Nothing: the entry has failed, and the extraction goes on.
    Failed,
}

/// An `End` as its model.
pub enum EndView {
    Restore { path: Seq<char>, mode: Option<u32>, modified: Option<Stamp> },
    Sidecar { path: Seq<char>, name: Seq<char>, bytes: Seq<u8>, modified: Option<Stamp> },
    Discard { remove: Option<Seq<char>>, next: Next },
    Failed,
}

impl View for End {
    type V = EndView;

    open spec fn view(&self) -> EndView {
        match *self {
            End::Restore { path, mode, modified } => EndView::Restore { path: path@, mode, modified },
            End::Sidecar { path, name, bytes, modified } => EndView::Sidecar {
                path: path@,
                name: name@,
                bytes: bytes@,
                modified,
            },
            End::Discard { remove, next } => EndView::Discard { remove: text::opt_string(remove), next },
            End::Failed => EndView::Failed,
        }
    }
}

/// The bits of a mode that are restored.
pub const MODE_BITS: u32 = 0xFFF;

/// The mode that is restored.
pub open spec fn restored_mode(mode: Option<u32>) -> Option<u32> {
    match mode {
        Some(m) => Some(m & MODE_BITS),
        None => None,
    }
}

/// The mode that a file or directory gets.
pub fn mode_to_restore(mode: Option<u32>) -> (r: Option<u32>)
    ensures
        r == restored_mode(mode),
{
    match mode {
        Some(m) => Some(m & MODE_BITS),
        None => None,
    }
}

/// The mode that is restored for permissions `m` below a type of file `t` is exactly
/// `m`: no bit is lost, and none is added.
pub proof fn permissions_are_restored(t: u32, m: u32)
    requires
        m < 0o10000,
        t % 0o10000 == 0,
    ensures
        restored_mode(Some(t | m)) == Some(m),
        restored_mode(Some((t + m) as u32)) == Some(m),
        restored_mode(None) is None,
{
    let sum = (t + m) as u32;
    assert((t | m) & 0o7777 == m && sum & 0o7777 == m) by (bit_vector)
        requires
            m < 0o10000,
            t % 0o10000 == 0,
            sum == (t + m) as u32,
    ;
}

/// What is to be done with a body that is whole.
pub open spec fn finish_of(v: SinkView, c: CurrentView, e: EntryView) -> Result<EndView, ErrorView> {
    match c.kept {
        None => Ok(
            EndView::Restore {
                path: c.entry_path,
                mode: if v.preserve && !c.is_fork {
                    restored_mode(e.mode)
                } else {
                    None
                },
                modified: if v.preserve {
                    e.modified
                } else {
                    None
                },
            },
        ),
        Some(fork) => if fork.len() > u32::MAX {
            Err(
                ErrorView::Unsupported {
                    format: "resource fork"@,
                    feature: "fork larger than 4 GiB in an AppleDouble sidecar"@,
                },
            )
        } else {
            match sidecar_of(c.entry_path) {
                None => Err(ErrorView::Corrupt("resource fork entry has no file name"@)),
                Some(name) => Ok(
                    EndView::Sidecar {
                        path: c.entry_path,
                        name,
                        bytes: appledouble_of(fork),
                        modified: if v.preserve {
                            e.modified
                        } else {
                            None
                        },
                    },
                ),
            }
        },
    }
}

/// What the end of a body comes to, and the state behind it.
pub open spec fn end_of(
    v: SinkView,
    entries: Seq<EntryView>,
    idx: int,
    outcome: Result<(), ErrorView>,
) -> (Result<EndView, ErrorView>, SinkView) {
    match v.cur {
        None => (Err(ErrorView::Corrupt("extract: entry end without begin"@)), v),
        Some(c) => {
            let w = SinkView { cur: None, ..v };
            if idx >= entries.len() {
                (Err(ErrorView::InvalidIndex(idx)), w)
            } else {
                match outcome {
                    Ok(()) => match finish_of(v, c, entries[idx]) {
                        Ok(end) => (Ok(end), w),
                        Err(e) => (
                            if v.strict {
                                Err(e)
                            } else {
                                Ok(EndView::Failed)
                            },
                            after_failure(w, entries[idx], e),
                        ),
                    },
                    Err(e) => {
                        let remove = if c.is_fork {
                            None
                        } else {
                            Some(c.entry_path)
                        };
                        if v.aborted {
                            (Ok(EndView::Discard { remove, next: Next::CalledOff }), SinkView { called_off: true, ..w })
                        } else if v.strict {
                            (Ok(EndView::Discard { remove, next: Next::Fails }), w)
                        } else {
                            (Ok(EndView::Discard { remove, next: Next::GoesOn }), after_failure(w, entries[idx], e))
                        }
                    },
                }
            }
        },
    }
}

/// How an entry goes on once what was asked for is done at `target`, or failed, and the
/// state behind it.
pub open spec fn prepared_of(v: SinkView, e: EntryView, idx: int, target: Seq<char>, outcome: Result<(), ErrorView>) -> (
    Result<SinkStep, ErrorView>,
    SinkView,
) {
    match outcome {
        Err(why) => (
            if v.strict {
                Err(why)
            } else {
                Ok(SinkStep::Skip)
            },
            after_failure(v, e, why),
        ),
        Ok(()) => match task_of(e) {
            Task::Dir => (
                Ok(SinkStep::Skip),
                after_done(SinkView { dir_mtimes: v.dir_mtimes.push((target, e.modified)), ..v }),
            ),
            Task::Link => (Ok(SinkStep::Skip), after_done(v)),
            Task::File => (
                Ok(SinkStep::Body),
                SinkView { cur: Some(CurrentView { idx, entry_path: target, is_fork: false, kept: None }), ..v },
            ),
            Task::Fork => (
                Ok(SinkStep::Body),
                SinkView {
                    cur: Some(
                        CurrentView {
                            idx,
                            entry_path: target,
                            is_fork: true,
                            kept: if v.native_forks {
                                None
                            } else {
                                Some(Seq::empty())
                            },
                        },
                    ),
                    ..v
                },
            ),
        },
    }
}

/// How an extraction goes on once what was asked for at the end of a body is done, or
/// failed, and the state behind it.
pub open spec fn finished_of(v: SinkView, e: EntryView, outcome: Result<(), ErrorView>) -> (
    Result<bool, ErrorView>,
    SinkView,
) {
    match outcome {
        Ok(()) => (Ok(true), after_done(v)),
        Err(why) => (
            if v.strict {
                Err(why)
            } else {
                Ok(true)
            },
            after_failure(v, e, why),
        ),
    }
}

impl ExtractSink {
    /// The state at the beginning.
    pub fn new(opts: &ExtractOptions, native_forks: bool, wrapped: bool) -> (r: ExtractSink)
        ensures
            r@.strict == opts.strict,
            r@.preserve == opts.preserve,
            r@.native_forks == native_forks,
            r@.extracted == 0,
            r@.failed.len() == 0,
            r@.wrapped == wrapped,
            !r@.called_off,
            r@.dir_mtimes.len() == 0,
            r@.cur is None,
            !r@.aborted,
    {
        let mut report = ExtractReport::default();
        report.wrapped = wrapped;
        ExtractSink {
            strict: opts.strict,
            preserve: opts.preserve,
            native_forks,
            report,
            dir_mtimes: Vec::new(),
            cur: None,
            aborted: false,
        }
    }

    fn put_down(&mut self, e: &Entry, why: &Error)
        ensures
            final(self)@ == (SinkView { failed: old(self)@.failed.push((e@.path, error::message_of(why@))), ..old(self)@ }),
            final(self).report.extracted == old(self).report.extracted,
    {
        let ghost before = self.report.failed@;
        let entry = (copy_text(e.path.as_str()), why.to_string());
        let ghost added = (entry.0@, entry.1@);
        self.report.failed.push(entry);
        assert(self@.failed =~= old(self)@.failed.push(added));
    }

    /// Begin with entry `idx`; `flow` is the answer to its progress event.
    pub fn begin(&mut self, entries: &Vec<Entry>, idx: usize, flow: Flow) -> (r: Result<Begin, Error>)
        ensures
            if idx >= entries@.len() {
                error::fails_with(r, ErrorView::InvalidIndex(idx as int)) && final(self)@ == old(self)@
            } else if flow == Flow::Abort {
                r == Ok::<Begin, Error>(Begin::Stop) && final(self)@ == (SinkView { called_off: true, ..old(self)@ })
            } else {
                r == Ok::<Begin, Error>(Begin::Prepare(task_of(entries@[idx as int]@))) && final(self)@ == old(self)@
            },
    {
        if idx >= entries.len() {
            return Err(Error::InvalidIndex(idx));
        }
        match flow {
            Flow::Abort => {
                self.report.aborted = true;
                Ok(Begin::Stop)
            },
            Flow::Continue => Ok(Begin::Prepare(task_for(&entries[idx]))),
        }
    }

    /// What was asked for is done at `target`, or failed. A directory or link is
    /// then on disk; for a file or fork the body follows.
    pub fn prepared(&mut self, entries: &Vec<Entry>, idx: usize, target: String, outcome: Result<(), Error>) -> (r: Result<
        SinkStep,
        Error,
    >)
        requires
            idx < entries@.len(),
            old(self)@.extracted < usize::MAX,
        ensures
            ({
                let (want, after) = prepared_of(
                    old(self)@,
                    entries@[idx as int]@,
                    idx as int,
                    target@,
                    archive::outcome_view(outcome),
                );
                &&& final(self)@ == after
                &&& match r {
                    Ok(step) => want == Ok::<SinkStep, ErrorView>(step),
                    Err(e) => want == Err::<SinkStep, ErrorView>(e@),
                }
            }),
    {
        let e = &entries[idx];
        if let Err(why) = outcome {
            if self.strict {
                return Err(why);
            }
            self.put_down(e, &why);
            return Ok(SinkStep::Skip);
        }
        match task_for(e) {
            Task::Dir => {
                let ghost added = (target@, e@.modified);
                self.dir_mtimes.push((target, e.modified));
                assert(self@.dir_mtimes =~= old(self)@.dir_mtimes.push(added));
                self.report.extracted = self.report.extracted + 1;
                Ok(SinkStep::Skip)
            },
            Task::Link => {
                self.report.extracted = self.report.extracted + 1;
                Ok(SinkStep::Skip)
            },
            Task::File => {
                self.cur = Some(Current { idx, entry_path: target, is_fork: false, kept: None });
                Ok(SinkStep::Body)
            },
            Task::Fork => {
                let kept: Option<Vec<u8>> = if self.native_forks {
                    None
                } else {
                    let none: Vec<u8> = Vec::new();
                    assert(none@ =~= Seq::<u8>::empty());
                    Some(none)
                };
                self.cur = Some(Current { idx, entry_path: target, is_fork: true, kept });
                Ok(SinkStep::Body)
            },
        }
    }

    /// A piece of the body. A piece that belongs to no entry is refused.
    pub fn write_body(&mut self, buf: &[u8]) -> (r: Result<Piece, Error>)
        ensures
            ({
                let v = old(self)@;
                match v.cur {
                    None => error::fails_with(
                        r,
                        ErrorView::Corrupt("extract: entry body arrived without begin"@),
                    ) && final(self)@ == v,
                    Some(c) => match c.kept {
                        None => r == Ok::<Piece, Error>(Piece::ToFile) && final(self)@ == v,
                        Some(k) => r == Ok::<Piece, Error>(Piece::Kept) && final(self)@ == (SinkView {
                            cur: Some(CurrentView { kept: Some(k + buf@), ..c }),
                            ..v
                        }),
                    },
                }
            }),
    {
        match self.cur.take() {
            None => Err(corrupt("extract: entry body arrived without begin")),
            Some(c) => {
                let Current { idx, entry_path, is_fork, kept } = c;
                match kept {
                    None => {
                        self.cur = Some(Current { idx, entry_path, is_fork, kept: None });
                        Ok(Piece::ToFile)
                    },
                    Some(k) => {
                        let mut k = k;
                        let ghost before = k@;
                        let mut i: usize = 0;
                        assert(k@ =~= before + buf@.take(0));
                        while i < buf.len()
                            invariant
                                i <= buf.len(),
                                k@ == before + buf@.take(i as int),
                            decreases buf.len() - i,
                        {
                            k.push(buf[i]);
                            i = i + 1;
                            assert(k@ =~= before + buf@.take(i as int));
                        }
                        assert(buf@.take(i as int) =~= buf@);
                        self.cur = Some(Current { idx, entry_path, is_fork, kept: Some(k) });
                        Ok(Piece::Kept)
                    },
                }
            },
        }
    }

    /// A piece was taken; `flow` is the answer to its progress event.
    pub fn wrote(&mut self, flow: Flow) -> (r: Result<(), Error>)
        ensures
            if flow == Flow::Abort {
                error::fails_with(r, ErrorView::Io { kind: IoKind::Other, message: "extraction aborted"@ }) && final(self)@
                    == (SinkView { aborted: true, ..old(self)@ })
            } else {
                r is Ok && final(self)@ == old(self)@
            },
    {
        match flow {
            Flow::Abort => {
                self.aborted = true;
                Err(Error::Io(IoError { kind: IoKind::Other, message: copy_text("extraction aborted") }))
            },
            Flow::Continue => Ok(()),
        }
    }

    /// What is to be done with a body that is whole.
    fn finish(&self, c: Current, e: &Entry) -> (r: Result<End, Error>)
        ensures
            match r {
                Ok(end) => finish_of(self@, c@, e@) == Ok::<EndView, ErrorView>(end@),
                Err(why) => finish_of(self@, c@, e@) == Err::<EndView, ErrorView>(why@),
            },
    {
        let modified: Option<Stamp> = if self.preserve {
            e.modified
        } else {
            None
        };
        let Current { entry_path, is_fork, kept, .. } = c;
        match kept {
            None => {
                let mode: Option<u32> = if self.preserve && !is_fork {
                    mode_to_restore(e.mode)
                } else {
                    None
                };
                Ok(End::Restore { path: entry_path, mode, modified })
            },
            Some(fork) => {
                let bytes = match appledouble(fork.as_slice()) {
                    Err(why) => {
                        return Err(why);
                    },
                    Ok(b) => b,
                };
                let chars = chars_of(entry_path.as_str());
                match path_file_name(chars.as_slice()) {
                    None => Err(corrupt("resource fork entry has no file name")),
                    Some(n) => {
                        let s = string_of(n.as_slice());
                        let name = join2("._", s.as_str());
                        Ok(End::Sidecar { path: entry_path, name, bytes, modified })
                    },
                }
            },
        }
    }

    /// The body of entry `idx` is over.
    pub fn end(&mut self, entries: &Vec<Entry>, idx: usize, outcome: &Result<(), Error>) -> (r: Result<End, Error>)
        ensures
            ({
                let told = match *outcome {
                    Ok(()) => Ok::<(), ErrorView>(()),
                    Err(e) => Err::<(), ErrorView>(e@),
                };
                let (want, after) = end_of(old(self)@, archive::views(entries@), idx as int, told);
                &&& final(self)@ == after
                &&& match r {
                    Ok(end) => want == Ok::<EndView, ErrorView>(end@),
                    Err(e) => want == Err::<EndView, ErrorView>(e@),
                }
            }),
    {
        let ghost all = archive::views(entries@);
        let c = match self.cur.take() {
            None => {
                return Err(corrupt("extract: entry end without begin"));
            },
            Some(c) => c,
        };
        if idx >= entries.len() {
            return Err(Error::InvalidIndex(idx));
        }
        let e = &entries[idx];
        assert(all[idx as int] == e@);
        match outcome {
            Ok(()) => match self.finish(c, e) {
                Ok(end) => Ok(end),
                Err(why) => {
                    if self.strict {
                        return Err(why);
                    }
                    self.put_down(e, &why);
                    Ok(End::Failed)
                },
            },
            Err(why) => {
                let remove: Option<String> = if c.is_fork {
                    None
                } else {
                    Some(c.entry_path)
                };
                if self.aborted {
                    self.report.aborted = true;
                    return Ok(End::Discard { remove, next: Next::CalledOff });
                }
                if self.strict {
                    return Ok(End::Discard { remove, next: Next::Fails });
                }
                self.put_down(e, why);
                Ok(End::Discard { remove, next: Next::GoesOn })
            },
        }
    }

    /// What was asked for at the end of a body is done, or failed.
    pub fn finished(&mut self, entries: &Vec<Entry>, idx: usize, outcome: Result<(), Error>) -> (r: Result<bool, Error>)
        requires
            idx < entries@.len(),
            old(self)@.extracted < usize::MAX,
        ensures
            ({
                let (want, after) = finished_of(old(self)@, entries@[idx as int]@, archive::outcome_view(outcome));
                &&& final(self)@ == after
                &&& match r {
                    Ok(goes_on) => want == Ok::<bool, ErrorView>(goes_on),
                    Err(e) => want == Err::<bool, ErrorView>(e@),
                }
            }),
    {
        match outcome {
            Ok(()) => {
                self.report.extracted = self.report.extracted + 1;
                Ok(true)
            },
            Err(why) => {
                if self.strict {
                    return Err(why);
                }
                self.put_down(&entries[idx], &why);
                Ok(true)
            },
        }
    }
}

/// Of an entry whose body broke off nothing stays on disk, unless it is a fork of
/// a file: the half-written file is removed, whether the extraction goes on or
/// not.
pub proof fn broken_bodies_leave_nothing(v: SinkView, entries: Seq<EntryView>, idx: int, why: ErrorView)
    requires
        v.cur is Some,
        !v.cur->0.is_fork,
        0 <= idx < entries.len(),
    ensures
        end_of(v, entries, idx, Err(why)).0 matches Ok(EndView::Discard { remove, .. }) && remove == Some(
            v.cur->0.entry_path,
        ),
{
}

/// Calling an extraction off is no failure: the entry that it hits is not among
/// the failed ones, and the report says that it was called off.
pub proof fn calling_off_is_no_failure(v: SinkView, entries: Seq<EntryView>, idx: int, why: ErrorView)
    requires
        v.cur is Some,
        v.aborted,
        0 <= idx < entries.len(),
    ensures
        end_of(v, entries, idx, Err(why)).1.failed == v.failed,
        end_of(v, entries, idx, Err(why)).1.called_off,
        end_of(v, entries, idx, Err(why)).0 matches Ok(EndView::Discard { next: Next::CalledOff, .. }),
{
}

/// A body that came whole is restored as its entry has it, where that is asked for: with
/// the permissions that stand below the type of file in its mode, and with its time. Where
/// it is not asked for, neither is touched. Either way nothing has failed.
pub proof fn whole_bodies_are_restored(v: SinkView, entries: Seq<EntryView>, idx: int, t: u32, m: u32)
    requires
        v.cur matches Some(c) && c.kept is None && !c.is_fork,
        0 <= idx < entries.len(),
        entries[idx].mode == Some(t | m),
        m < 0o10000,
        t % 0o10000 == 0,
    ensures
        end_of(v, entries, idx, Ok(())).1 == (SinkView { cur: None, ..v }),
        end_of(v, entries, idx, Ok(())).0 matches Ok(EndView::Restore { path, mode, modified }) && path
            == v.cur->0.entry_path && if v.preserve {
            mode == Some(m) && modified == entries[idx].modified
        } else {
            mode is None && modified is None
        },
{
    permissions_are_restored(t, m);
}

/// A resource fork that came whole is written beside its file, under the name of the file
/// with a dot and a low line before it, and can be read back from what is written. What is
/// written counts as metadata of macOS.
#[verifier::rlimit(40)]
pub proof fn forks_go_beside_their_files(v: SinkView, entries: Seq<EntryView>, idx: int, parent: Seq<char>, name: Seq<char>, fork: Seq<u8>)
    requires
        v.cur matches Some(c) && c.kept == Some(fork) && c.entry_path == paths::joined(parent, name),
        paths::is_segment(name),
        name != seq!['.', '.'],
        fork.len() <= u32::MAX,
        0 <= idx < entries.len(),
    ensures
        end_of(v, entries, idx, Ok(())).0 matches Ok(EndView::Sidecar { path, name: beside, bytes, .. }) && path
            == paths::joined(parent, name) && beside == seq!['.', '_'] + name && bytes.skip(38) == fork
            && is_metadata_path(beside),
{
    paths::joined_ends_with_name(parent, name);
    appledouble_reads_back(fork);
    reveal_strlit("._");
    assert("._"@ =~= seq!['.', '_']);
    let beside = seq!['.', '_'] + name;
    assert(!beside.contains('/')) by {
        if beside.contains('/') {
            let k = choose|k: int| 0 <= k < beside.len() && beside[k] == '/';
            assert(name[k - 2] == '/');
            assert(name.contains('/'));
        }
    }
    let one = seq![beside];
    assert(paths::is_segment(one[0]));
    paths::segments_of_joined_pieces(one);
    assert(text::join(one, '/') == beside);
    assert(beside.take(2) =~= "._"@);
}

/// The file that a resource fork is written to says what it is: the mark of AppleDouble in
/// its second version, sixteen bytes of filler, and one part, which is a resource fork,
/// begins behind these 38 bytes and reaches to the end.
#[verifier::rlimit(40)]
pub proof fn sidecar_is_appledouble(fork: Seq<u8>)
    requires
        fork.len() <= u32::MAX,
    ensures
        ({
            let file = appledouble_of(fork);
            &&& file.len() == 38 + fork.len()
            &&& file.take(8) == seq![0u8, 5, 0x16, 7, 0, 2, 0, 0]
            &&& forall|k: int| 8 <= k < 24 ==> #[trigger] file[k] == 0
            &&& file.subrange(24, 34) == seq![0u8, 1, 0, 0, 0, 2, 0, 0, 0, 38]
            &&& bytes::be32(file, 34) == fork.len()
            &&& file.skip(38) == fork
        }),
{
    appledouble_reads_back(fork);
    let file = appledouble_of(fork);
    assert(bytes::be32_bytes(0x0005_1607) =~= seq![0u8, 5, 0x16, 7]);
    assert(bytes::be32_bytes(0x0002_0000) =~= seq![0u8, 2, 0, 0]);
    assert(bytes::be32_bytes(2) =~= seq![0u8, 0, 0, 2]);
    assert(bytes::be32_bytes(38) =~= seq![0u8, 0, 0, 38]);
    assert(file.take(8) =~= seq![0u8, 5, 0x16, 7, 0, 2, 0, 0]);
    assert(file.subrange(24, 34) =~= seq![0u8, 1, 0, 0, 0, 2, 0, 0, 0, 38]);
}

/// A body that breaks off is one failure, under the path of its entry, and the extraction
/// goes on; where the first failure is to end it, it ends with that. Nothing counts as
/// extracted.
pub proof fn failures_are_reported_once(v: SinkView, entries: Seq<EntryView>, idx: int, why: ErrorView)
    requires
        v.cur is Some,
        !v.aborted,
        0 <= idx < entries.len(),
    ensures
        ({
            let (r, w) = end_of(v, entries, idx, Err(why));
            &&& w.extracted == v.extracted
            &&& w.called_off == v.called_off
            &&& w.cur is None
            &&& v.strict ==> w.failed == v.failed && (r matches Ok(EndView::Discard { next: Next::Fails, .. }))
            &&& !v.strict ==> w.failed.len() == v.failed.len() + 1 && w.failed.drop_last() == v.failed && w.failed.last().0
                == entries[idx].path && w.failed.last().1 == error::message_of(why) && (r matches Ok(
                EndView::Discard { next: Next::GoesOn, .. },
            ))
        }),
{
    let (r, w) = end_of(v, entries, idx, Err(why));
    if !v.strict {
        assert(w.failed.drop_last() =~= v.failed);
    }
}

/// The path of an entry below a directory: its pieces with slashes between them.
pub open spec fn lies_below(e: EntryView, root: Seq<char>, rest: Seq<Seq<char>>) -> bool {
    &&& e.path == text::join(seq![root] + rest, '/')
    &&& forall|k: int| 0 <= k < rest.len() ==> paths::is_segment(#[trigger] rest[k])
}

proof fn below_begins_with_root(e: EntryView, root: Seq<char>, rest: Seq<Seq<char>>)
    requires
        lies_below(e, root, rest),
        paths::is_segment(root),
    ensures
        components(e.path) == seq![root] + rest,
{
    let all = seq![root] + rest;
    assert forall|k: int| 0 <= k < all.len() implies paths::is_segment(#[trigger] all[k]) by {
        if k > 0 {
            assert(all[k] == rest[k - 1]);
        }
    }
    paths::segments_of_joined_pieces(all);
    crate::path_safety::first_of_joined(all);
    begins_no_other_way(all);
    assert(lead(e.path) =~= Seq::<Seq<char>>::empty());
    assert(Seq::<Seq<char>>::empty() + all =~= all);
}

proof fn begins_no_other_way(all: Seq<Seq<char>>)
    requires
        all.len() > 0,
        paths::is_segment(all[0]),
    ensures
        text::join(all, '/').len() >= all[0].len(),
        text::join(all, '/').take(all[0].len() as int) == all[0],
        !(text::join(all, '/')[0] == '.' && (text::join(all, '/').len() == 1 || text::join(all, '/')[1] == '/')),
    decreases all.len(),
{
    let t = text::join(all, '/');
    let first = all[0];
    if all.len() > 1 {
        assert(all.drop_last()[0] == first);
        begins_no_other_way(all.drop_last());
        let init = text::join(all.drop_last(), '/');
        assert(t == init.push('/') + all.last());
        assert(t.take(first.len() as int) =~= init.take(first.len() as int));
    } else {
        assert(t.take(first.len() as int) =~= first);
    }
    assert(t[0] == t.take(first.len() as int)[0]);
    if t[0] == '.' {
        if first.len() == 1 {
            assert(first =~= seq!['.']);
        } else {
            assert(t[1] == t.take(first.len() as int)[1]);
            assert(first.contains(first[1]));
        }
    }
}

/// Entries that all lie below one directory, or are it, have it as their common root, if
/// one of them shows that it is a directory. Entries below different ones have none.
#[verifier::rlimit(40)]
pub proof fn entries_below_one_directory_share_it(
    entries: Seq<EntryView>,
    roots: Seq<Seq<char>>,
    rests: Seq<Seq<Seq<char>>>,
    i: int,
    j: int,
)
    requires
        roots.len() == entries.len(),
        rests.len() == entries.len(),
        forall|k: int| 0 <= k < entries.len() ==> lies_below(#[trigger] entries[k], roots[k], rests[k]),
        forall|k: int| 0 <= k < entries.len() ==> paths::is_segment(#[trigger] roots[k]),
        0 <= i < entries.len(),
        0 <= j < entries.len(),
    ensures
        (forall|k: int| 0 <= k < entries.len() ==> #[trigger] roots[k] == roots[i]) && (rests[j].len() > 0
            || entries[j].kind is Dir) ==> is_common_root(entries, roots[i]),
        roots[i] != roots[j] ==> forall|root: Seq<char>| !#[trigger] is_common_root(entries, root),
        (forall|k: int| 0 <= k < entries.len() ==> (#[trigger] rests[k]).len() == 0 && !(entries[k].kind is Dir)) ==> forall|
            root: Seq<char>,
        |
            !#[trigger] is_common_root(entries, root),
{
    assert forall|k: int| 0 <= k < entries.len() implies components((#[trigger] entries[k]).path) == seq![roots[k]]
        + rests[k] by {
        assert(paths::is_segment(roots[k]));
        below_begins_with_root(entries[k], roots[k], rests[k]);
    }
    if forall|k: int| 0 <= k < entries.len() ==> #[trigger] roots[k] == roots[i] {
        assert(is_shared_top(entries, roots[i])) by {
            assert forall|k: int| 0 <= k < entries.len() implies tops(#[trigger] entries[k], roots[i]) by {
                assert(roots[k] == roots[i]);
            }
        }
        if rests[j].len() > 0 || entries[j].kind is Dir {
            assert(shows_dir(entries[j]));
        }
    }
    assert forall|root: Seq<char>| roots[i] != roots[j] implies !#[trigger] is_common_root(entries, root) by {
        if is_common_root(entries, root) {
            assert(tops(entries[i], root));
            assert(tops(entries[j], root));
        }
    }
    if forall|k: int| 0 <= k < entries.len() ==> (#[trigger] rests[k]).len() == 0 && !(entries[k].kind is Dir) {
        assert forall|root: Seq<char>| !#[trigger] is_common_root(entries, root) by {
            if any_shows_dir(entries) {
                let k = choose|k: int| 0 <= k < entries.len() && shows_dir(#[trigger] entries[k]);
                assert(rests[k].len() == 0);
            }
        }
    }
}

/// How many entries an extraction has dealt with: those that it extracted and those that
/// failed.
pub open spec fn dealt_with(v: SinkView) -> int {
    v.extracted + v.failed.len()
}

/// A directory or a link is dealt with once it is on disk, and its directory gets its time
/// at the end; what cannot be made is dealt with as a failure, under the path of its entry,
/// and no body follows. A file or a fork is not dealt with until its body is over: the body
/// follows, and the state says whose it is.
pub proof fn entries_are_dealt_with_once(v: SinkView, e: EntryView, idx: int, target: Seq<char>, outcome: Result<(), ErrorView>)
    requires
        v.cur is None,
        !v.strict,
    ensures
        ({
            let (r, w) = prepared_of(v, e, idx, target, outcome);
            &&& r is Ok
            &&& r == Ok::<SinkStep, ErrorView>(SinkStep::Body) ==> dealt_with(w) == dealt_with(v) && outcome is Ok && (
            w.cur matches Some(c) && c.idx == idx && c.entry_path == target && c.is_fork == e.is_resource_fork && (c.kept
                is Some ==> c.kept->0.len() == 0))
            &&& r == Ok::<SinkStep, ErrorView>(SinkStep::Skip) ==> dealt_with(w) == dealt_with(v) + 1 && w.cur is None
            &&& r != Ok::<SinkStep, ErrorView>(SinkStep::Stop)
            &&& w.extracted == v.extracted + 1 ==> outcome is Ok
            &&& outcome matches Err(why) ==> w.extracted == v.extracted && w.failed == v.failed.push(
                (e.path, error::message_of(why)),
            )
            &&& !e.is_resource_fork && e.kind is Dir && outcome is Ok ==> w.dir_mtimes == v.dir_mtimes.push(
                (target, e.modified),
            )
            &&& e.is_resource_fork || !(e.kind is Dir) ==> w.dir_mtimes == v.dir_mtimes
            &&& (r == Ok::<SinkStep, ErrorView>(SinkStep::Body)) == (outcome is Ok && (e.is_resource_fork || e.kind is File))
        }),
{
}

/// Once its body is over, a file is dealt with: extracted, or failed under the path of its
/// entry; and the extraction goes on either way.
pub proof fn bodies_are_dealt_with_once(v: SinkView, e: EntryView, outcome: Result<(), ErrorView>)
    requires
        !v.strict,
    ensures
        ({
            let (r, w) = finished_of(v, e, outcome);
            &&& r == Ok::<bool, ErrorView>(true)
            &&& dealt_with(w) == dealt_with(v) + 1
            &&& outcome is Ok ==> w.extracted == v.extracted + 1
            &&& outcome matches Err(why) ==> w.failed == v.failed.push((e.path, error::message_of(why)))
        }),
{
}

/// Where the first failure is to end an extraction, it is handed on as it is, and nothing
/// is put down.
pub proof fn strict_extraction_ends_with_the_failure(v: SinkView, e: EntryView, idx: int, target: Seq<char>, why: ErrorView)
    requires
        v.strict,
    ensures
        prepared_of(v, e, idx, target, Err(why)) == (Err::<SinkStep, ErrorView>(why), v),
        finished_of(v, e, Err(why)) == (Err::<bool, ErrorView>(why), v),
{
}

/// The files that macOS puts beside others are those below a folder `__MACOSX`, those whose
/// names begin with a dot and a low line, and those called `.DS_Store`. No other path is
/// taken for one.
pub proof fn metadata_is_known_by_its_path(parts: Seq<Seq<char>>)
    requires
        parts.len() > 0,
        forall|k: int| 0 <= k < parts.len() ==> paths::is_segment(#[trigger] parts[k]),
    ensures
        is_metadata_path(text::join(parts, '/')) == ({
            let name = parts.last();
            ||| parts.contains(seq!['_', '_', 'M', 'A', 'C', 'O', 'S', 'X'])
            ||| name.len() >= 2 && name[0] == '.' && name[1] == '_'
            ||| name == seq!['.', 'D', 'S', '_', 'S', 't', 'o', 'r', 'e']
        }),
{
    paths::segments_of_joined_pieces(parts);
    reveal_strlit("__MACOSX");
    reveal_strlit("._");
    reveal_strlit(".DS_Store");
    let folder = seq!['_', '_', 'M', 'A', 'C', 'O', 'S', 'X'];
    assert("__MACOSX"@ =~= folder);
    assert("._"@ =~= seq!['.', '_']);
    assert(".DS_Store"@ =~= seq!['.', 'D', 'S', '_', 'S', 't', 'o', 'r', 'e']);
    let name = parts.last();
    if name.len() >= 2 && name[0] == '.' && name[1] == '_' {
        assert(name.take(2) =~= "._"@);
    } else if text::text_begins(name, "._"@) {
        assert(name.take(2)[0] == '.' && name.take(2)[1] == '_');
    }
    if parts.contains(folder) {
        let k = choose|k: int| 0 <= k < parts.len() && parts[k] == folder;
        assert(is_sidecar_folder(parts[k]));
    }
}

/// Everything is extracted unless there is a selection that does not name it, or it is
/// metadata of macOS that is not to be kept.
pub proof fn selection_and_metadata_decide(entries: Seq<EntryView>, opts: &ExtractOptions, i: int)
    requires
        0 <= i < entries.len(),
    ensures
        opts.selection is None && opts.keep_macos_metadata ==> wanted_among(entries, opts, entries.len() as int).contains(i),
        opts.selection matches Some(s) ==> !(exists|k: int| 0 <= k < s@.len() && #[trigger] s@[k] == i) ==> !wanted_among(
            entries,
            opts,
            entries.len() as int,
        ).contains(i),
        !opts.keep_macos_metadata && is_metadata_path(entries[i].path) ==> !wanted_among(
            entries,
            opts,
            entries.len() as int,
        ).contains(i),
        opts.selection is None && !is_metadata_path(entries[i].path) ==> wanted_among(
            entries,
            opts,
            entries.len() as int,
        ).contains(i),
        opts.selection matches Some(s) ==> (exists|k: int| 0 <= k < s@.len() && #[trigger] s@[k] == i) && (
        opts.keep_macos_metadata || !is_metadata_path(entries[i].path)) ==> wanted_among(
            entries,
            opts,
            entries.len() as int,
        ).contains(i),
{
    plan_goes_forward(entries, opts, entries.len() as int);
    let all = wanted_among(entries, opts, entries.len() as int);
    if all.contains(i) {
        let a = choose|a: int| 0 <= a < all.len() && all[a] == i;
        assert(is_wanted(entries[all[a]], all[a], opts));
    }
}

/// The folder for the entries of an archive is called as the archive is, without its
/// extension.
pub proof fn folders_are_called_as_their_archive(parent: Seq<char>, stem: Seq<char>, ext: Seq<char>)
    requires
        stem.len() > 0,
        !stem.contains('/'),
        !ext.contains('/'),
        !ext.contains('.'),
        ext.len() > 0,
    ensures
        wrapper_of(paths::joined(parent, stem.push('.') + ext), true) == Some(stem),
        wrapper_of(paths::joined(parent, stem.push('.') + ext), false) is None,
{
    paths::stem_and_extension_of_file(parent, stem, ext);
}

/// Entries without a common root go into a folder of their own below the destination, if
/// there is a name for it; entries with one, and entries for whose folder there is no name,
/// go right into the destination.
pub proof fn entries_without_root_get_a_folder(entries: Seq<EntryView>, opts: &ExtractOptions, root: Seq<char>, name: Seq<char>)
    requires
        text::opt_string(opts.wrapper_name) == Some(name),
        paths::is_segment(name),
        name != seq!['.', '.'],
    ensures
        ({
            let wanted = entries_at(entries, wanted_among(entries, opts, entries.len() as int));
            &&& is_common_root(wanted, root) ==> dest_of(entries, opts) == opts.dest@
            &&& wanted.len() == 0 ==> paths::segments(dest_of(entries, opts)) == paths::segments(opts.dest@).push(name)
            &&& (exists|i: int, j: int|
                0 <= i < wanted.len() && 0 <= j < wanted.len() && components((#[trigger] wanted[i]).path).take(1)
                    != components((#[trigger] wanted[j]).path).take(1)) ==> paths::segments(dest_of(entries, opts))
                == paths::segments(opts.dest@).push(name)
        }),
{
    let wanted = entries_at(entries, wanted_among(entries, opts, entries.len() as int));
    paths::joined_ends_with_name(opts.dest@, name);
    if exists|i: int, j: int|
        0 <= i < wanted.len() && 0 <= j < wanted.len() && components((#[trigger] wanted[i]).path).take(1) != components(
            (#[trigger] wanted[j]).path,
        ).take(1) {
        let (i, j) = choose|i: int, j: int|
            0 <= i < wanted.len() && 0 <= j < wanted.len() && components((#[trigger] wanted[i]).path).take(1)
                != components((#[trigger] wanted[j]).path).take(1);
        assert forall|r: Seq<char>| !#[trigger] is_common_root(wanted, r) by {
            if is_common_root(wanted, r) {
                assert(tops(wanted[i], r));
                assert(tops(wanted[j], r));
                assert(components(wanted[i].path).take(1) =~= seq![r]);
                assert(components(wanted[j].path).take(1) =~= seq![r]);
            }
        }
    }
}

/// A resource fork that breaks off leaves the file that it belongs to alone.
pub proof fn broken_forks_leave_their_files(v: SinkView, entries: Seq<EntryView>, idx: int, why: ErrorView)
    requires
        v.cur is Some,
        v.cur->0.is_fork,
        0 <= idx < entries.len(),
    ensures
        end_of(v, entries, idx, Err(why)).0 matches Ok(EndView::Discard { remove, .. }) && remove is None,
{
}

/// A resource fork that goes to the file itself does not change the mode of that file; and
/// whatever a fork goes to gets the time of its entry, if times are restored.
pub proof fn forks_bring_no_mode(v: SinkView, entries: Seq<EntryView>, idx: int)
    requires
        v.cur is Some,
        v.cur->0.is_fork,
        0 <= idx < entries.len(),
    ensures
        v.cur->0.kept is None ==> (end_of(v, entries, idx, Ok(())).0 matches Ok(EndView::Restore { path, mode, modified })
            && path == v.cur->0.entry_path && mode is None && (v.preserve ==> modified == entries[idx].modified) && (
        !v.preserve ==> modified is None)),
        v.cur->0.kept is Some ==> (end_of(v, entries, idx, Ok(())).0 matches Ok(EndView::Sidecar { modified, .. }) ==> (
        v.preserve ==> modified == entries[idx].modified) && (!v.preserve ==> modified is None)),
{
}

/// The end of a body that never began, and that of an entry that is not there, are refused,
/// and count as nothing.
pub proof fn stray_ends_are_refused(v: SinkView, entries: Seq<EntryView>, idx: int, outcome: Result<(), ErrorView>)
    requires
        v.cur is None || idx >= entries.len(),
    ensures
        end_of(v, entries, idx, outcome).0 is Err,
        dealt_with(end_of(v, entries, idx, outcome).1) == dealt_with(v),
{
}

} // verus!
