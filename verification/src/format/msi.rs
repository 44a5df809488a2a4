//! Windows Installer packages: a database whose media are embedded cabinets.
use vstd::hash_map::StringHashMap;
use vstd::prelude::*;
use vstd::utf8;

use crate::archive;
use crate::bytes;
use crate::encoding;
use crate::error;
use crate::paths;
use crate::text;
use crate::archive::{read_entries_one_by_one, BatchReader, EntrySink};
use crate::archive::{ArchiveReader, Confidence, Entry, EntryView, FormatHandler, FormatId, Source};
use crate::bytes::{copy_bytes, starts_with};
use crate::error::{io_error, unsupported, Error, ErrorView, IoError, IoKind};
use crate::paths::{extension_is, join_path};
use crate::text::{chars_of, copy_chars, copy_text, find_first, find_last, join2};
use crate::text::{same_text, string_of};

verus! {

/// How a compound file begins.
pub const CFB_MAGIC: [u8; 8] = [0xD0, 0xCF, 0x11, 0xE0, 0xA1, 0xB1, 0x1A, 0xE1];

/// How many parents a directory can have before the rest is left out.
pub const MAX_DIR_DEPTH: usize = 256;

/// The target side of a `DefaultDir` value: what stands before the first colon.
pub open spec fn target_side(s: Seq<char>) -> Seq<char> {
    s.take(text::first_index(s, ':'))
}

/// The long name of a `short|long` pair: what stands behind the last bar.
pub open spec fn long_name(s: Seq<char>) -> Seq<char> {
    s.skip(text::last_index(s, '|') + 1)
}

/// The directory name that a `DefaultDir` value gives; a lone dot stands for the
/// parent itself.
pub open spec fn directory_name(default_dir: Seq<char>) -> Option<Seq<char>> {
    let long = long_name(target_side(default_dir));
    if long.len() == 0 || long == seq!['.'] { None } else { Some(long) }
}

fn long_part(s: &[char]) -> (r: Vec<char>)
    ensures
        r@ == long_name(s@),
{
    let from: usize = match find_last(s, '|') {
        Some(i) => i + 1,
        None => 0,
    };
    let r = copy_chars(s, from, s.len());
    assert(r@ =~= long_name(s@));
    r
}

/// The directory name that a `DefaultDir` value gives.
pub fn parse_defaultdir_name(default_dir: &str) -> (r: Option<String>)
    ensures
        text::opt_string(r) == directory_name(default_dir@),
{
    let all = chars_of(default_dir);
    let end: usize = find_first(all.as_slice(), ':');
    let target = copy_chars(all.as_slice(), 0, end);
    assert(target@ =~= target_side(default_dir@));
    let long = long_part(target.as_slice());
    if long.len() == 0 || (long.len() == 1 && long[0] == '.') {
        proof {
            if long@.len() == 1 {
                assert(long@ =~= seq!['.']);
            }
        }
        None
    } else {
        proof {
            if long@ == seq!['.'] {
                assert(long@.len() == 1 && long@[0] == '.');
            }
        }
        Some(string_of(long.as_slice()))
    }
}

/// The long name of a `FileName` value.
pub fn parse_filename_long(file_name: &str) -> (r: String)
    ensures
        r@ == long_name(file_name@),
{
    let all = chars_of(file_name);
    let long = long_part(all.as_slice());
    string_of(long.as_slice())
}

/// A row of the `Directory` table: the parent's key and the directory's name.
#[derive(Debug)]
pub struct DirRow {
    pub parent: Option<String>,
    pub name: Option<String>,
}

/// A `DirRow` with its texts as sequences.
pub struct DirView {
    pub parent: Option<Seq<char>>,
    pub name: Option<Seq<char>>,
}

impl View for DirRow {
    type V = DirView;

    open spec fn view(&self) -> DirView {
        DirView { parent: text::opt_string(self.parent), name: text::opt_string(self.name) }
    }
}

/// The directories of a package, by key.
pub struct Directories {
    map: StringHashMap<DirRow>,
}

impl View for Directories {
    type V = Map<Seq<char>, DirView>;

    closed spec fn view(&self) -> Map<Seq<char>, DirView> {
        self.map@.map_values(|r: DirRow| r@)
    }
}

impl Directories {
    /// No directories.
    pub fn new() -> (r: Directories)
        ensures
            r@ == Map::<Seq<char>, DirView>::empty(),
    {
        let r = Directories { map: StringHashMap::new() };
        assert(r@ =~= Map::<Seq<char>, DirView>::empty());
        r
    }

    /// Add a directory, or replace the one under the same key.
    pub fn insert(&mut self, key: String, row: DirRow)
        ensures
            final(self)@ == old(self)@.insert(key@, row@),
    {
        self.map.insert(key, row);
        assert(self@ =~= old(self)@.insert(key@, row@));
    }

    /// The directory under a key.
    pub fn get(&self, key: &str) -> (r: Option<&DirRow>)
        ensures
            match r {
                Some(d) => self@.contains_key(key@) && self@[key@] == d@,
                None => !self@.contains_key(key@),
            },
    {
        self.map.get(key)
    }
}

/// The names on the way from the root down to a directory. The root itself, a
/// directory without a parent or its own parent, gives none; neither does what
/// lies behind `fuel` parents, an unknown key or one in `seen`.
pub open spec fn way_down(
    dirs: Map<Seq<char>, DirView>,
    key: Seq<char>,
    seen: Seq<Seq<char>>,
    fuel: nat,
) -> Seq<Seq<char>>
    decreases fuel,
{
    if fuel == 0 || seen.contains(key) || !dirs.contains_key(key) {
        Seq::empty()
    } else {
        match dirs[key].parent {
            Some(p) if p != key => way_down(dirs, p, seen.push(key), (fuel - 1) as nat) + match dirs[key].name {
                Some(n) => seq![n],
                None => Seq::empty(),
            },
            _ => Seq::empty(),
        }
    }
}

/// Names joined into a path.
pub open spec fn path_of(names: Seq<Seq<char>>) -> Seq<char>
    decreases names.len(),
{
    if names.len() == 0 {
        Seq::empty()
    } else {
        paths::joined(path_of(names.drop_last()), names.last())
    }
}

/// The path of a directory.
pub open spec fn dir_path(dirs: Map<Seq<char>, DirView>, key: Seq<char>) -> Seq<char> {
    path_of(way_down(dirs, key, Seq::empty(), MAX_DIR_DEPTH as nat))
}

fn is_seen(seen: &Vec<String>, key: &str) -> (r: bool)
    ensures
        r == encoding::text_views(seen@).contains(key@),
{
    let mut i: usize = 0;
    while i < seen.len()
        invariant
            i <= seen.len(),
            forall|k: int| 0 <= k < i ==> encoding::text_views(seen@)[k] != key@,
        decreases seen.len() - i,
    {
        assert(encoding::text_views(seen@)[i as int] == seen@[i as int]@);
        if same_text(seen[i].as_str(), key) {
            assert(encoding::text_views(seen@).contains(key@));
            return true;
        }
        i = i + 1;
    }
    assert(!encoding::text_views(seen@).contains(key@));
    false
}

/// The path of a directory, from the root down.
pub fn resolve_dir_path(start: &str, dirs: &Directories) -> (r: String)
    ensures
        r@ == dir_path(dirs@, start@),
{
    let ghost whole = way_down(dirs@, start@, Seq::empty(), MAX_DIR_DEPTH as nat);
    let mut up: Vec<String> = Vec::new();
    let mut seen: Vec<String> = Vec::new();
    let mut current: String = copy_text(start);
    let mut depth: usize = 0;
    proof {
        assert(encoding::text_views(seen@) =~= Seq::<Seq<char>>::empty());
        assert(whole + encoding::text_views(up@).reverse() =~= whole);
    }
    while depth < MAX_DIR_DEPTH
        invariant
            depth <= MAX_DIR_DEPTH,
            whole == way_down(dirs@, current@, encoding::text_views(seen@), (MAX_DIR_DEPTH - depth) as nat) + encoding::text_views(
                up@,
            ).reverse(),
        ensures
            whole == encoding::text_views(up@).reverse(),
        decreases MAX_DIR_DEPTH - depth,
    {
        let ghost none = Seq::<Seq<char>>::empty();
        proof {
            assert(none + encoding::text_views(up@).reverse() =~= encoding::text_views(up@).reverse());
        }
        if is_seen(&seen, current.as_str()) {
            break;
        }
        let row = match dirs.get(current.as_str()) {
            Some(row) => row,
            None => {
                break;
            },
        };
        let parent = match &row.parent {
            Some(p) => p,
            None => {
                break;
            },
        };
        if same_text(parent.as_str(), current.as_str()) {
            break;
        }
        let ghost above = way_down(dirs@, parent@, encoding::text_views(seen@).push(current@), (MAX_DIR_DEPTH - depth - 1) as nat);
        let ghost before = encoding::text_views(up@);
        if let Some(n) = &row.name {
            let name = copy_text(n.as_str());
            up.push(name);
            proof {
                assert(encoding::text_views(up@) =~= before.push(name@));
                assert((above + seq![name@]) + before.reverse() =~= above + encoding::text_views(up@).reverse());
            }
        } else {
            proof {
                assert((above + none) + before.reverse() =~= above + before.reverse());
            }
        }
        let ghost was = encoding::text_views(seen@);
        let next = copy_text(parent.as_str());
        seen.push(current);
        proof {
            assert(encoding::text_views(seen@) =~= was.push(current@));
        }
        current = next;
        depth = depth + 1;
        proof {
            if depth == MAX_DIR_DEPTH {
                assert(none + encoding::text_views(up@).reverse() =~= encoding::text_views(up@).reverse());
            }
        }
    }
    let mut path: String = copy_text("");
    let mut i: usize = up.len();
    let ghost down = encoding::text_views(up@).reverse();
    proof {
        reveal_strlit("");
        assert(path@ =~= Seq::<char>::empty());
        assert(down.take(0) =~= Seq::<Seq<char>>::empty());
    }
    while i > 0
        invariant
            i <= up.len(),
            down == encoding::text_views(up@).reverse(),
            path@ == path_of(down.take(up.len() - i)),
        decreases i,
    {
        proof {
            let n = up.len() - i;
            assert(down[n] == up@[i - 1]@);
            assert(down.take(n + 1).drop_last() =~= down.take(n));
            assert(down.take(n + 1).last() == down[n]);
        }
        path = join_path(path.as_str(), up[i - 1].as_str());
        i = i - 1;
    }
    assert(down.take(up.len() as int) =~= down);
    path
}

/// A row of a table: its cells, `None` where a cell holds no text.
pub type Row = Vec<Option<String>>;

/// A `Row` with its texts as sequences.
pub open spec fn row_view(r: Row) -> Seq<Option<Seq<char>>> {
    r@.map_values(|c: Option<String>| text::opt_string(c))
}

/// The views of rows.
pub open spec fn row_views(rows: Seq<Row>) -> Seq<Seq<Option<Seq<char>>>> {
    rows.map_values(|r: Row| row_view(r))
}

/// A cell of a row; there is no text where there is no cell.
pub open spec fn cell_of(row: Seq<Option<Seq<char>>>, i: int) -> Option<Seq<char>> {
    if 0 <= i < row.len() { row[i] } else { None }
}

fn cell(row: &Row, i: usize) -> (r: Option<&str>)
    ensures
        text::opt_text(r) == cell_of(row_view(*row), i as int),
{
    if i < row.len() {
        match &row[i] {
            Some(s) => Some(s.as_str()),
            None => None,
        }
    } else {
        None
    }
}

/// The directory of a row of `Directory`, `Directory_Parent` and `DefaultDir`.
/// An empty parent is none.
pub open spec fn dir_of(row: Seq<Option<Seq<char>>>) -> DirView {
    DirView {
        parent: match cell_of(row, 1) {
            Some(p) if p.len() > 0 => Some(p),
            _ => None,
        },
        name: match cell_of(row, 2) {
            Some(d) => directory_name(d),
            None => None,
        },
    }
}

/// The directories of the first `n` rows. A later row replaces an earlier one.
pub open spec fn dirs_of(rows: Seq<Seq<Option<Seq<char>>>>, n: int) -> Map<Seq<char>, DirView>
    decreases n,
{
    if n <= 0 {
        Map::empty()
    } else {
        match cell_of(rows[n - 1], 0) {
            Some(key) => dirs_of(rows, n - 1).insert(key, dir_of(rows[n - 1])),
            None => dirs_of(rows, n - 1),
        }
    }
}

/// The directory keys of components in the first `n` rows of `Component` and
/// `Directory_`.
pub open spec fn components_of(rows: Seq<Seq<Option<Seq<char>>>>, n: int) -> Map<Seq<char>, Seq<char>>
    decreases n,
{
    if n <= 0 {
        Map::empty()
    } else {
        match (cell_of(rows[n - 1], 0), cell_of(rows[n - 1], 1)) {
            (Some(c), Some(d)) => components_of(rows, n - 1).insert(c, d),
            _ => components_of(rows, n - 1),
        }
    }
}

/// The path of a file: its long name, or its key where it has none, in the
/// directory of its component.
pub open spec fn file_path(
    dirs: Map<Seq<char>, DirView>,
    components: Map<Seq<char>, Seq<char>>,
    key: Seq<char>,
    component: Seq<char>,
    file_name: Option<Seq<char>>,
) -> Seq<char> {
    let name = match file_name {
        Some(n) => long_name(n),
        None => key,
    };
    let dir = if components.contains_key(component) {
        dir_path(dirs, components[component])
    } else {
        Seq::empty()
    };
    paths::joined(dir, name)
}

/// The paths of the files in the first `n` rows of `File`, `Component_` and
/// `FileName`.
pub open spec fn files_of(
    dirs: Map<Seq<char>, DirView>,
    components: Map<Seq<char>, Seq<char>>,
    rows: Seq<Seq<Option<Seq<char>>>>,
    n: int,
) -> Map<Seq<char>, Seq<char>>
    decreases n,
{
    if n <= 0 {
        Map::empty()
    } else {
        let row = rows[n - 1];
        match (cell_of(row, 0), cell_of(row, 1)) {
            (Some(f), Some(c)) => files_of(dirs, components, rows, n - 1).insert(
                f,
                file_path(dirs, components, f, c, cell_of(row, 2)),
            ),
            _ => files_of(dirs, components, rows, n - 1),
        }
    }
}

/// The paths of all files, out of the rows of the three tables.
pub open spec fn paths_of(
    directories: Seq<Seq<Option<Seq<char>>>>,
    components: Seq<Seq<Option<Seq<char>>>>,
    files: Seq<Seq<Option<Seq<char>>>>,
) -> Map<Seq<char>, Seq<char>> {
    files_of(
        dirs_of(directories, directories.len() as int),
        components_of(components, components.len() as int),
        files,
        files.len() as int,
    )
}

/// Texts by key.
pub struct TextMap {
    map: StringHashMap<String>,
}

impl View for TextMap {
    type V = Map<Seq<char>, Seq<char>>;

    closed spec fn view(&self) -> Map<Seq<char>, Seq<char>> {
        self.map@.map_values(|s: String| s@)
    }
}

impl TextMap {
    /// No texts.
    pub fn new() -> (r: TextMap)
        ensures
            r@ == Map::<Seq<char>, Seq<char>>::empty(),
    {
        let r = TextMap { map: StringHashMap::new() };
        assert(r@ =~= Map::<Seq<char>, Seq<char>>::empty());
        r
    }

    /// Add a text, or replace the one under the same key.
    pub fn insert(&mut self, key: String, value: String)
        ensures
            final(self)@ == old(self)@.insert(key@, value@),
    {
        self.map.insert(key, value);
        assert(self@ =~= old(self)@.insert(key@, value@));
    }

    /// The text under a key.
    pub fn get(&self, key: &str) -> (r: Option<&str>)
        ensures
            match r {
                Some(s) => self@.contains_key(key@) && self@[key@] == s@,
                None => !self@.contains_key(key@),
            },
    {
        match self.map.get(key) {
            Some(s) => Some(s.as_str()),
            None => None,
        }
    }
}

fn read_directories(rows: &Vec<Row>) -> (r: Directories)
    ensures
        r@ == dirs_of(row_views(rows@), rows.len() as int),
{
    let ghost all = row_views(rows@);
    let mut dirs = Directories::new();
    let mut i: usize = 0;
    while i < rows.len()
        invariant
            i <= rows.len(),
            all == row_views(rows@),
            dirs@ == dirs_of(all, i as int),
        decreases rows.len() - i,
    {
        let row = &rows[i];
        assert(all[i as int] == row_view(*row));
        if let Some(key) = cell(row, 0) {
            let parent = match cell(row, 1) {
                Some(p) => if same_text(p, "") {
                    None
                } else {
                    Some(copy_text(p))
                },
                None => None,
            };
            let name = match cell(row, 2) {
                Some(d) => parse_defaultdir_name(d),
                None => None,
            };
            proof {
                reveal_strlit("");
                if cell_of(all[i as int], 1) is Some && cell_of(all[i as int], 1)->0.len() == 0 {
                    assert(cell_of(all[i as int], 1)->0 =~= ""@);
                }
            }
            let d = DirRow { parent, name };
            assert(d@ == dir_of(all[i as int]));
            dirs.insert(copy_text(key), d);
        }
        i = i + 1;
    }
    dirs
}

fn read_components(rows: &Vec<Row>) -> (r: TextMap)
    ensures
        r@ == components_of(row_views(rows@), rows.len() as int),
{
    let ghost all = row_views(rows@);
    let mut map = TextMap::new();
    let mut i: usize = 0;
    while i < rows.len()
        invariant
            i <= rows.len(),
            all == row_views(rows@),
            map@ == components_of(all, i as int),
        decreases rows.len() - i,
    {
        let row = &rows[i];
        assert(all[i as int] == row_view(*row));
        if let Some(c) = cell(row, 0) {
            if let Some(d) = cell(row, 1) {
                map.insert(copy_text(c), copy_text(d));
            }
        }
        i = i + 1;
    }
    map
}

/// The paths of all files, out of the rows of the three tables.
pub fn join_tables(directories: &Vec<Row>, components: &Vec<Row>, files: &Vec<Row>) -> (r: TextMap)
    ensures
        r@ == paths_of(row_views(directories@), row_views(components@), row_views(files@)),
{
    let dirs = read_directories(directories);
    let comps = read_components(components);
    let ghost all = row_views(files@);
    let mut known = TextMap::new();
    let mut out = TextMap::new();
    let mut i: usize = 0;
    while i < files.len()
        invariant
            i <= files.len(),
            all == row_views(files@),
            out@ == files_of(dirs@, comps@, all, i as int),
            forall|k: Seq<char>| #[trigger] known@.contains_key(k) ==> known@[k] == dir_path(dirs@, k),
        decreases files.len() - i,
    {
        let row = &files[i];
        assert(all[i as int] == row_view(*row));
        if let Some(key) = cell(row, 0) {
            if let Some(comp) = cell(row, 1) {
                let name = match cell(row, 2) {
                    Some(n) => parse_filename_long(n),
                    None => copy_text(key),
                };
                let dir = match comps.get(comp) {
                    Some(dir_key) => match known.get(dir_key) {
                        Some(p) => copy_text(p),
                        None => {
                            let p = resolve_dir_path(dir_key, &dirs);
                            known.insert(copy_text(dir_key), copy_text(p.as_str()));
                            p
                        },
                    },
                    None => {
                        proof {
                            reveal_strlit("");
                            assert(""@ =~= Seq::<char>::empty());
                        }
                        copy_text("")
                    },
                };
                let full = join_path(dir.as_str(), name.as_str());
                assert(full@ == file_path(dirs@, comps@, key@, comp@, cell_of(all[i as int], 2)));
                out.insert(copy_text(key), full);
            }
        }
        i = i + 1;
    }
    out
}

/// How the compound file that a package is names the stream of the `_StringPool`
/// table.
pub const POOL_STREAM: &'static str = "\u{4840}\u{3F3F}\u{4577}\u{446C}\u{3E6A}\u{44B2}\u{482F}";

/// The name of the stream of the `_Tables` table.
pub const TABLES_STREAM: &'static str = "\u{4840}\u{3F7F}\u{4164}\u{422F}\u{4836}";

/// The name of the stream of the `_Columns` table.
pub const COLUMNS_STREAM: &'static str = "\u{4840}\u{3B3F}\u{43F2}\u{4438}\u{45B1}";

/// The name of the stream of the `_Validation` table.
pub const VALIDATION_STREAM: &'static str = "\u{4840}\u{3FFF}\u{43E4}\u{41EC}\u{45E4}\u{44AC}\u{4831}";

/// What `cfb::CompoundFile::open_stream` opens in some bytes, read to its end: nothing
/// inside where the bytes are no compound file or have no such stream, and nothing at
/// all where the stream cannot be read.
pub uninterp spec fn raw_stream(data: Seq<u8>, name: Seq<char>) -> Option<Option<Seq<u8>>>;

/// A raw stream as its model.
pub open spec fn raw_view(r: Option<Option<Vec<u8>>>) -> Option<Option<Seq<u8>>> {
    match r {
        Some(Some(v)) => Some(Some(v@)),
        Some(None) => Some(None),
        None => None,
    }
}

/// `cfb::CompoundFile::open_stream` on the compound file in the bytes, read to its
/// end. The result depends on the bytes and the name alone.
#[verifier::external_body]
fn read_raw_stream(data: &[u8], name: &str) -> (r: Option<Option<Vec<u8>>>)
    ensures
        raw_view(r) == raw_stream(data@, name@),
{
    let Ok(mut file) = cfb::CompoundFile::open(std::io::Cursor::new(data)) else {
        return Some(None);
    };
    let Ok(mut stream) = file.open_stream(name) else {
        return Some(None);
    };
    let mut out = Vec::new();
    std::io::Read::read_to_end(&mut stream, &mut out).ok()?;
    Some(Some(out))
}

/// The most rows of a table.
pub const MAX_ROWS: usize = 65536;

/// The cell of `width` bytes at `at` holds something.
pub open spec fn cell_is_filled(s: Seq<u8>, at: int, width: int) -> bool {
    exists|k: int| 0 <= k < width && 0 <= at + k < s.len() && #[trigger] s[at + k] != 0
}

/// A column of a table has no hole. A table is stored column by column: a row takes
/// `row` bytes, the columns before this one take `before` of them, and this one
/// takes `width`. Tables with too many rows are not read.
pub open spec fn column_is_filled(s: Seq<u8>, row: int, before: int, width: int) -> bool {
    let n = s.len() as int / row;
    n <= MAX_ROWS ==> forall|i: int| 0 <= i < n ==> #[trigger] cell_is_filled(s, n * before + i * width, width)
}

/// The bytes of a reference to a text: one more in a package of many texts.
pub open spec fn text_width(pool: Seq<u8>) -> int {
    if pool.len() >= 4 && pool[3] >= 0x80 { 3 } else { 2 }
}

/// The columns that must be filled are: `befores` tells, for each of them, the bytes of
/// a row before it, and `widths` its own.
pub open spec fn columns_are_filled(
    stream: Option<Option<Seq<u8>>>,
    row: int,
    befores: Seq<int>,
    widths: Seq<int>,
) -> bool {
    match stream {
        None => false,
        Some(None) => true,
        Some(Some(s)) => forall|c: int|
            0 <= c < befores.len() ==> column_is_filled(s, row, #[trigger] befores[c], widths[c]),
    }
}

/// The catalog of a package has no hole where a name or a number is due: in the list
/// of tables, in the list of columns, and in the table, column and kind of the rules
/// for columns.
pub open spec fn catalog_is_filled(data: Seq<u8>) -> bool {
    match raw_stream(data, POOL_STREAM@) {
        None => false,
        Some(None) => true,
        Some(Some(pool)) => {
            let w = text_width(pool);
            &&& columns_are_filled(raw_stream(data, TABLES_STREAM@), w, seq![0], seq![w])
            &&& columns_are_filled(
                raw_stream(data, COLUMNS_STREAM@),
                2 * w + 4,
                seq![0, w, w + 2, 2 * w + 2],
                seq![w, 2, w, 2],
            )
            &&& columns_are_filled(raw_stream(data, VALIDATION_STREAM@), 7 * w + 10, seq![0, w, 2 * w], seq![w, w, w])
        },
    }
}

fn check_cell(s: &[u8], at: usize, width: usize) -> (r: bool)
    requires
        at + width <= s.len(),
    ensures
        r == cell_is_filled(s@, at as int, width as int),
{
    let mut k: usize = 0;
    while k < width
        invariant
            k <= width,
            at + width <= s.len(),
            forall|j: int| 0 <= j < k ==> #[trigger] s@[at + j] == 0,
        decreases width - k,
    {
        if s[at + k] != 0 {
            assert(s@[at + k] != 0);
            return true;
        }
        k = k + 1;
    }
    false
}

fn check_column(s: &[u8], row: usize, before: usize, width: usize) -> (r: bool)
    requires
        0 < width,
        before + width <= row <= 64,
    ensures
        r == column_is_filled(s@, row as int, before as int, width as int),
{
    let n: usize = s.len() / row;
    if n > MAX_ROWS {
        return true;
    }
    proof {
        assert(n * row <= s.len()) by (nonlinear_arith)
            requires
                n == s.len() / row,
                row > 0,
        ;
        assert(n * before <= n * row) by (nonlinear_arith)
            requires
                before <= row,
                n >= 0,
        ;
    }
    let mut i: usize = 0;
    while i < n
        invariant
            i <= n <= MAX_ROWS,
            n == s@.len() as int / row as int,
            n * row <= s.len(),
            n * before <= n * row,
            0 < width,
            before + width <= row <= 64,
            forall|j: int| 0 <= j < i ==> #[trigger] cell_is_filled(s@, n * before + j * width, width as int),
        decreases n - i,
    {
        proof {
            assert(n * before + (i + 1) * width <= n * row && i * width + width == (i + 1) * width && i * width <= 65536 * 64)
                by (nonlinear_arith)
                requires
                    0 <= i < n <= 65536,
                    before + width <= row <= 64,
                    width >= 0,
                    before >= 0,
            ;
        }
        if !check_cell(s, n * before + i * width, width) {
            assert(!cell_is_filled(s@, n * before + i * width, width as int));
            return false;
        }
        i = i + 1;
    }
    true
}

/// Whether the columns that must be filled are.
fn check_columns(stream: Option<Option<Vec<u8>>>, row: usize, befores: &[usize], widths: &[usize]) -> (r: bool)
    requires
        befores.len() == widths.len(),
        row <= 64,
        forall|c: int| 0 <= c < befores.len() ==> 0 < #[trigger] widths[c] && befores[c] + widths[c] <= row,
    ensures
        r == columns_are_filled(
            raw_view(stream),
            row as int,
            befores@.map_values(|b: usize| b as int),
            widths@.map_values(|w: usize| w as int),
        ),
{
    let ghost shown = raw_view(stream);
    let ghost bs = befores@.map_values(|b: usize| b as int);
    let ghost ws = widths@.map_values(|w: usize| w as int);
    match stream {
        None => false,
        Some(None) => true,
        Some(Some(s)) => {
            let mut c: usize = 0;
            while c < befores.len()
                invariant
                    c <= befores.len(),
                    shown == Some(Some(s@)),
                    shown == raw_view(stream),
                    befores.len() == widths.len(),
                    row <= 64,
                    bs == befores@.map_values(|b: usize| b as int),
                    ws == widths@.map_values(|w: usize| w as int),
                    forall|k: int| 0 <= k < befores.len() ==> 0 < #[trigger] widths[k] && befores[k] + widths[k] <= row,
                    forall|k: int| 0 <= k < c ==> column_is_filled(s@, row as int, #[trigger] bs[k], ws[k]),
                decreases befores.len() - c,
            {
                assert(0 < widths[c as int]);
                assert(bs[c as int] == befores[c as int] && ws[c as int] == widths[c as int]);
                if !check_column(s.as_slice(), row, befores[c], widths[c]) {
                    assert(!column_is_filled(s@, row as int, bs[c as int], ws[c as int]));
                    return false;
                }
                c = c + 1;
            }
            true
        },
    }
}

/// Whether the catalog of a package has no hole where a name or a number is due.
pub fn check_catalog(data: &[u8]) -> (r: bool)
    ensures
        r == catalog_is_filled(data@),
{
    let pool = match read_raw_stream(data, POOL_STREAM) {
        None => {
            return false;
        },
        Some(None) => {
            return true;
        },
        Some(Some(pool)) => pool,
    };
    let w: usize = if pool.len() >= 4 && pool[3] >= 0x80 { 3 } else { 2 };
    let (b1, w1): ([usize; 1], [usize; 1]) = ([0], [w]);
    let (b2, w2): ([usize; 4], [usize; 4]) = ([0, w, w + 2, 2 * w + 2], [w, 2, w, 2]);
    let (b3, w3): ([usize; 3], [usize; 3]) = ([0, w, 2 * w], [w, w, w]);
    proof {
        let i = w as int;
        assert(b1@.map_values(|b: usize| b as int) =~= seq![0int]);
        assert(w1@.map_values(|b: usize| b as int) =~= seq![i]);
        assert(b2@.map_values(|b: usize| b as int) =~= seq![0int, i, i + 2, 2 * i + 2]);
        assert(w2@.map_values(|b: usize| b as int) =~= seq![i, 2int, i, 2int]);
        assert(b3@.map_values(|b: usize| b as int) =~= seq![0int, i, 2 * i]);
        assert(w3@.map_values(|b: usize| b as int) =~= seq![i, i, i]);
    }
    check_columns(read_raw_stream(data, TABLES_STREAM), w, b1.as_slice(), w1.as_slice()) && check_columns(
        read_raw_stream(data, COLUMNS_STREAM),
        2 * w + 4,
        b2.as_slice(),
        w2.as_slice(),
    ) && check_columns(read_raw_stream(data, VALIDATION_STREAM), 7 * w + 10, b3.as_slice(), w3.as_slice())
}

/// `msi::Package::open` accepts the bytes.
pub uninterp spec fn is_package(data: Seq<u8>) -> bool;

/// `msi::Package::open`: whether it accepts the bytes depends on them alone. It
/// panics on a package whose catalog has a hole where a name or a number is due.
#[verifier::external_body]
fn opens(data: &[u8]) -> (r: bool)
    requires
        catalog_is_filled(data@),
    ensures
        r == is_package(data@),
{
    msi::Package::open(std::io::Cursor::new(data)).is_ok()
}

/// What `msi::Package::has_table` says of a package.
pub uninterp spec fn package_has_table(data: Seq<u8>, table: Seq<char>) -> bool;

/// `msi::Package::has_table` on the package in the bytes.
#[verifier::external_body]
fn has_table(data: &[u8], table: &str) -> (r: bool)
    requires
        catalog_is_filled(data@),
        is_package(data@),
    ensures
        r == package_has_table(data@, table@),
{
    msi::Package::open(std::io::Cursor::new(data)).is_ok_and(|p| p.has_table(table))
}

/// What `msi::Package::select_rows` selects, or the text of its failure.
pub uninterp spec fn selected(data: Seq<u8>, table: Seq<char>, columns: Seq<Seq<char>>) -> Result<
    Seq<Seq<Option<Seq<char>>>>,
    Seq<char>,
>;

/// A selection as its model.
pub open spec fn selection_view(r: Result<Vec<Row>, String>) -> Result<Seq<Seq<Option<Seq<char>>>>, Seq<char>> {
    match r {
        Ok(rows) => Ok(row_views(rows@)),
        Err(m) => Err(m@),
    }
}

/// `msi::Package::select_rows` for some columns of a table of the package in the
/// bytes: the cells of each row in the order of the columns, or the text that
/// the failure displays.
#[verifier::external_body]
fn select(data: &[u8], table: &str, columns: &Vec<String>) -> (r: Result<Vec<Row>, String>)
    requires
        catalog_is_filled(data@),
        is_package(data@),
    ensures
        selection_view(r) == selected(data@, table@, encoding::text_views(columns@)),
{
    let mut package = msi::Package::open(std::io::Cursor::new(data)).map_err(|e| e.to_string())?;
    let query = msi::Select::table(table).columns(columns);
    let rows = package.select_rows(query).map_err(|e| e.to_string())?;
    Ok(rows.map(|row| (0..row.len()).map(|i| row[i].as_str().map(str::to_owned)).collect()).collect())
}

/// What `msi::Package::read_stream` opens, or the text of its failure; and what
/// reading the stream to its end gives.
pub uninterp spec fn stream_content(data: Seq<u8>, name: Seq<char>) -> Result<
    Result<Seq<u8>, (IoKind, Seq<char>)>,
    Seq<char>,
>;

/// A stream as its model.
pub open spec fn stream_view(r: Result<Result<Vec<u8>, IoError>, String>) -> Result<
    Result<Seq<u8>, (IoKind, Seq<char>)>,
    Seq<char>,
> {
    match r {
        Ok(Ok(v)) => Ok(Ok(v@)),
        Ok(Err(e)) => Ok(Err((e.kind, e.message@))),
        Err(m) => Err(m@),
    }
}

/// `msi::Package::read_stream` on the package in the bytes, read to its end. The
/// result depends on the bytes and the name alone.
#[verifier::external_body]
fn read_stream(data: &[u8], name: &str) -> (r: Result<Result<Vec<u8>, IoError>, String>)
    requires
        catalog_is_filled(data@),
        is_package(data@),
    ensures
        stream_view(r) == stream_content(data@, name@),
{
    let mut package = msi::Package::open(std::io::Cursor::new(data)).map_err(|e| e.to_string())?;
    let mut stream = package.read_stream(name).map_err(|e| e.to_string())?;
    let mut out = Vec::new();
    Ok(std::io::Read::read_to_end(&mut stream, &mut out).map(|_| out).map_err(io_error))
}

/// A list of three column names.
pub open spec fn three(a: Seq<char>, b: Seq<char>, c: Seq<char>) -> Seq<Seq<char>> {
    seq![a, b, c]
}

fn columns(a: &str, b: &str, c: Option<&str>) -> (r: Vec<String>)
    ensures
        encoding::text_views(r@) == match c {
            Some(x) => three(a@, b@, x@),
            None => seq![a@, b@],
        },
{
    let mut v: Vec<String> = Vec::new();
    v.push(copy_text(a));
    v.push(copy_text(b));
    if let Some(x) = c {
        v.push(copy_text(x));
        assert(encoding::text_views(v@) =~= three(a@, b@, x@));
    } else {
        assert(encoding::text_views(v@) =~= seq![a@, b@]);
    }
    v
}

/// The rows of a selection; a failed one has none.
pub open spec fn rows_or_none(s: Result<Seq<Seq<Option<Seq<char>>>>, Seq<char>>) -> Seq<Seq<Option<Seq<char>>>> {
    match s {
        Ok(rows) => rows,
        Err(_) => Seq::empty(),
    }
}

fn select_or_none(data: &[u8], table: &str, names: &Vec<String>) -> (r: Vec<Row>)
    requires
        catalog_is_filled(data@),
        is_package(data@),
    ensures
        row_views(r@) == rows_or_none(selected(data@, table@, encoding::text_views(names@))),
{
    match select(data, table, names) {
        Ok(rows) => rows,
        Err(_) => {
            let none: Vec<Row> = Vec::new();
            assert(row_views(none@) =~= Seq::empty());
            none
        },
    }
}

/// The paths of the files of a package, where it has the three tables that say
/// so. A table that cannot be read counts as empty.
pub open spec fn package_paths(data: Seq<u8>) -> Option<Map<Seq<char>, Seq<char>>> {
    if package_has_table(data, "File"@) && package_has_table(data, "Component"@) && package_has_table(
        data,
        "Directory"@,
    ) {
        Some(
            paths_of(
                rows_or_none(
                    selected(data, "Directory"@, three("Directory"@, "Directory_Parent"@, "DefaultDir"@)),
                ),
                rows_or_none(selected(data, "Component"@, seq!["Component"@, "Directory_"@])),
                rows_or_none(selected(data, "File"@, three("File"@, "Component_"@, "FileName"@))),
            ),
        )
    } else {
        None
    }
}

/// A possible map as its model.
pub open spec fn opt_map(m: Option<TextMap>) -> Option<Map<Seq<char>, Seq<char>>> {
    match m {
        Some(x) => Some(x@),
        None => None,
    }
}

/// The paths of the files of a package.
pub fn build_file_paths(data: &[u8]) -> (r: Option<TextMap>)
    requires
        catalog_is_filled(data@),
        is_package(data@),
    ensures
        opt_map(r) == package_paths(data@),
{
    if !(has_table(data, "File") && has_table(data, "Component") && has_table(data, "Directory")) {
        return None;
    }
    let dir_columns = columns("Directory", "Directory_Parent", Some("DefaultDir"));
    let comp_columns = columns("Component", "Directory_", None);
    let file_columns = columns("File", "Component_", Some("FileName"));
    let directories = select_or_none(data, "Directory", &dir_columns);
    let components = select_or_none(data, "Component", &comp_columns);
    let files = select_or_none(data, "File", &file_columns);
    Some(join_tables(&directories, &components, &files))
}

/// The embedded cabinets among the first `n` rows of `Cabinet`: those whose name
/// begins with `#`, without it.
pub open spec fn cabinets_of(rows: Seq<Seq<Option<Seq<char>>>>, n: int) -> Seq<Seq<char>>
    decreases n,
{
    if n <= 0 {
        Seq::empty()
    } else {
        match cell_of(rows[n - 1], 0) {
            Some(c) if c.len() > 0 && c[0] == '#' => cabinets_of(rows, n - 1).push(c.skip(1)),
            _ => cabinets_of(rows, n - 1),
        }
    }
}

/// The embedded cabinets that the rows of the `Media` table name.
pub fn embedded_cabinets(rows: &Vec<Row>) -> (r: Vec<String>)
    ensures
        encoding::text_views(r@) == cabinets_of(row_views(rows@), rows.len() as int),
{
    let ghost all = row_views(rows@);
    let mut out: Vec<String> = Vec::new();
    let mut i: usize = 0;
    assert(encoding::text_views(out@) =~= Seq::<Seq<char>>::empty());
    while i < rows.len()
        invariant
            i <= rows.len(),
            all == row_views(rows@),
            encoding::text_views(out@) == cabinets_of(all, i as int),
        decreases rows.len() - i,
    {
        let row = &rows[i];
        assert(all[i as int] == row_view(*row));
        if let Some(c) = cell(row, 0) {
            let cs = chars_of(c);
            if cs.len() > 0 && cs[0] == '#' {
                let rest = copy_chars(cs.as_slice(), 1, cs.len());
                let name = string_of(rest.as_slice());
                let ghost before = encoding::text_views(out@);
                out.push(name);
                proof {
                    assert(name@ =~= c@.skip(1));
                    assert(encoding::text_views(out@) =~= before.push(name@));
                }
            }
        }
        i = i + 1;
    }
    out
}

/// The names of the embedded cabinets of a package. A package without media has
/// none.
pub open spec fn package_cabinets(data: Seq<u8>) -> Result<Seq<Seq<char>>, ErrorView> {
    if !package_has_table(data, "Media"@) {
        Ok(Seq::empty())
    } else {
        match selected(data, "Media"@, seq!["Cabinet"@]) {
            Err(m) => Err(ErrorView::Corrupt("msi: reading Media table: "@ + m)),
            Ok(rows) => Ok(cabinets_of(rows, rows.len() as int)),
        }
    }
}

fn media_cabinets(data: &[u8]) -> (r: Result<Vec<String>, Error>)
    requires
        catalog_is_filled(data@),
        is_package(data@),
    ensures
        match r {
            Ok(v) => package_cabinets(data@) == Ok::<Seq<Seq<char>>, ErrorView>(encoding::text_views(v@)),
            Err(e) => package_cabinets(data@) == Err::<Seq<Seq<char>>, ErrorView>(e@),
        },
{
    if !has_table(data, "Media") {
        let none: Vec<String> = Vec::new();
        assert(encoding::text_views(none@) =~= Seq::<Seq<char>>::empty());
        return Ok(none);
    }
    let mut names: Vec<String> = Vec::new();
    names.push(copy_text("Cabinet"));
    assert(encoding::text_views(names@) =~= seq!["Cabinet"@]);
    match select(data, "Media", &names) {
        Err(m) => Err(Error::Corrupt(join2("msi: reading Media table: ", m.as_str()))),
        Ok(rows) => Ok(embedded_cabinets(&rows)),
    }
}

/// An opened package whose cabinets are still to be read.
pub struct MsiPackage {
    data: Vec<u8>,
    cabinets: Vec<String>,
    paths: Option<TextMap>,
}

impl MsiPackage {
    #[verifier::type_invariant]
    spec fn holds_a_package(self) -> bool {
        catalog_is_filled(self.data@) && is_package(self.data@)
    }

    /// The bytes of the package.
    pub closed spec fn content(&self) -> Seq<u8> {
        self.data@
    }

    /// The streams that hold the cabinets.
    pub closed spec fn streams(&self) -> Seq<Seq<char>> {
        encoding::text_views(self.cabinets@)
    }

    /// The paths of the files, by the names that the cabinets give them.
    pub closed spec fn file_paths(&self) -> Option<Map<Seq<char>, Seq<char>>> {
        opt_map(self.paths)
    }

    /// How many cabinets there are.
    pub fn count(&self) -> (r: usize)
        ensures
            r == self.streams().len(),
    {
        self.cabinets.len()
    }

    /// The bytes of a cabinet.
    pub fn cabinet(&self, k: usize) -> (r: Result<Vec<u8>, Error>)
        requires
            k < self.streams().len(),
        ensures
            archive::body_view(r) == cabinet_bytes(self.content(), self.streams()[k as int]),
    {
        proof {
            use_type_invariant(self);
        }
        let name = &self.cabinets[k];
        assert(self.streams()[k as int] == name@);
        match read_stream(self.data.as_slice(), name.as_str()) {
            Err(m) => {
                let t = join2("msi: opening stream ", name.as_str());
                let u = join2(t.as_str(), ": ");
                Err(Error::Corrupt(join2(u.as_str(), m.as_str())))
            },
            Ok(Err(e)) => Err(Error::Io(e)),
            Ok(Ok(v)) => Ok(v),
        }
    }
}

/// The bytes of the stream `name`, or why they cannot be had.
pub open spec fn cabinet_bytes(data: Seq<u8>, name: Seq<char>) -> Result<Seq<u8>, ErrorView> {
    match stream_content(data, name) {
        Err(m) => Err(ErrorView::Corrupt("msi: opening stream "@ + name + ": "@ + m)),
        Ok(Err(e)) => Err(ErrorView::Io { kind: e.0, message: e.1 }),
        Ok(Ok(v)) => Ok(v),
    }
}

/// Why a file is no package that can be opened; `None` where it is one.
pub open spec fn package_fault(data: Seq<u8>) -> Option<ErrorView> {
    if !is_package(data) || !package_has_table(data, "_Tables"@) {
        Some(ErrorView::UnknownFormat)
    } else {
        match package_cabinets(data) {
            Err(e) => Some(e),
            Ok(_) => None,
        }
    }
}

/// The entry of a cabinet under its place in the package: under its own path
/// where the package tells one, else below the cabinet's stream if `apart`.
pub open spec fn placed(
    e: EntryView,
    stream: Seq<char>,
    file_paths: Option<Map<Seq<char>, Seq<char>>>,
    apart: bool,
) -> EntryView {
    if file_paths is Some && file_paths->0.contains_key(e.path) {
        let path = file_paths->0[e.path];
        EntryView { path, path_raw: utf8::encode_utf8(path), ..e }
    } else if apart {
        EntryView {
            path: paths::joined(stream, e.path),
            path_raw: utf8::encode_utf8(stream) + seq![0x2Fu8] + e.path_raw,
            ..e
        }
    } else {
        e
    }
}

/// The entries of a cabinet under their places in the package.
pub open spec fn placed_all(
    listing: Seq<EntryView>,
    stream: Seq<char>,
    file_paths: Option<Map<Seq<char>, Seq<char>>>,
    apart: bool,
) -> Seq<EntryView> {
    listing.map_values(|e: EntryView| placed(e, stream, file_paths, apart))
}

/// The entries of the first `n` cabinets, one cabinet behind the other.
pub open spec fn package_listing(
    listings: Seq<Seq<EntryView>>,
    streams: Seq<Seq<char>>,
    file_paths: Option<Map<Seq<char>, Seq<char>>>,
    n: int,
) -> Seq<EntryView>
    decreases n,
{
    if n <= 0 {
        Seq::empty()
    } else {
        package_listing(listings, streams, file_paths, n - 1) + placed_all(
            listings[n - 1],
            streams[n - 1],
            file_paths,
            file_paths is None && streams.len() > 1,
        )
    }
}

/// Where the entries of the first `n` cabinets are: the cabinet, and the place
/// in it.
pub open spec fn routes(listings: Seq<Seq<EntryView>>, n: int) -> Seq<(int, int)>
    decreases n,
{
    if n <= 0 {
        Seq::empty()
    } else {
        routes(listings, n - 1) + Seq::new(listings[n - 1].len(), |i: int| (n - 1, i))
    }
}

/// The listings of readers.
pub open spec fn listings_of<R: ArchiveReader>(readers: Seq<R>) -> Seq<Seq<EntryView>> {
    readers.map_values(|r: R| r.listing())
}

/// The bodies of the entries at some places.
pub open spec fn bodies_at<R: ArchiveReader>(readers: Seq<R>, places: Seq<(int, int)>) -> Seq<
    Result<Seq<u8>, ErrorView>,
> {
    places.map_values(|p: (int, int)| readers[p.0].body(p.1))
}

/// An opened package with its cabinets.
pub struct MsiReader<R: ArchiveReader> {
    readers: Vec<R>,
    entries: Vec<Entry>,
    routing: Vec<(usize, usize)>,
}

impl<R: ArchiveReader> MsiReader<R> {
    #[verifier::type_invariant]
    spec fn wf(self) -> bool {
        &&& self.entries.len() == self.routing.len()
        &&& forall|i: int| 0 <= i < self.routing.len() ==> (#[trigger] self.routing@[i]).0 < self.readers.len()
    }

    /// Where the entries are.
    spec fn places(&self) -> Seq<(int, int)> {
        self.routing@.map_values(|p: (usize, usize)| (p.0 as int, p.1 as int))
    }

    /// Put a package together out of its opened cabinets.
    pub fn assemble(package: MsiPackage, readers: Vec<R>) -> (r: MsiReader<R>)
        requires
            readers.len() == package.streams().len(),
        ensures
            archive::presents(
                &r,
                FormatId::Msi,
                package_listing(
                    listings_of(readers@),
                    package.streams(),
                    package.file_paths(),
                    readers.len() as int,
                ),
                bodies_at(readers@, routes(listings_of(readers@), readers.len() as int)),
            ),
    {
        let MsiPackage { data, cabinets, paths: file_paths } = package;
        let ghost streams = encoding::text_views(cabinets@);
        let ghost listings = listings_of(readers@);
        let ghost known = opt_map(file_paths);
        let apart = file_paths.is_none() && cabinets.len() > 1;
        let mut entries: Vec<Entry> = Vec::new();
        let mut routing: Vec<(usize, usize)> = Vec::new();
        let ghost mut places = Seq::<(int, int)>::empty();
        let mut n: usize = 0;
        proof {
            assert(archive::views(entries@) =~= Seq::<EntryView>::empty());
        }
        while n < readers.len()
            invariant
                n <= readers.len(),
                readers.len() == cabinets.len(),
                streams == encoding::text_views(cabinets@),
                listings == listings_of(readers@),
                known == opt_map(file_paths),
                apart == (known is None && streams.len() > 1),
                archive::views(entries@) == package_listing(listings, streams, known, n as int),
                places == routes(listings, n as int),
                entries.len() == routing.len(),
                places.len() == routing.len(),
                forall|i: int|
                    0 <= i < routing.len() ==> (#[trigger] routing@[i]).0 < readers.len() && places[i] == (
                        routing@[i].0 as int,
                        routing@[i].1 as int,
                    ),
            decreases readers.len() - n,
        {
            let ghost done = archive::views(entries@);
            let ghost before = places;
            let stream = &cabinets[n];
            let inner = readers[n].entries();
            let ghost listing = listings[n as int];
            let ghost want = placed_all(listing, streams[n as int], known, apart);
            proof {
                assert(streams[n as int] == stream@);
                assert(listing == readers@[n as int].listing());
                assert(listing == archive::views(inner@));
                assert(done + want.take(0) =~= done);
                assert(before + Seq::new(0, |i: int| (n as int, i)) =~= before);
            }
            let mut k: usize = 0;
            while k < inner.len()
                invariant
                    k <= inner.len(),
                    n < readers.len(),
                    listing == archive::views(inner@),
                    want == placed_all(listing, stream@, known, apart),
                    known == opt_map(file_paths),
                    archive::views(entries@) == done + want.take(k as int),
                    places == before + Seq::new(k as nat, |i: int| (n as int, i)),
                    entries.len() == routing.len(),
                    places.len() == routing.len(),
                    forall|i: int|
                        0 <= i < routing.len() ==> (#[trigger] routing@[i]).0 < readers.len() && places[i] == (
                            routing@[i].0 as int,
                            routing@[i].1 as int,
                        ),
                decreases inner.len() - k,
            {
                let entry = &inner[k];
                assert(listing[k as int] == entry@);
                let mut e = entry.copy();
                let told: Option<&str> = match &file_paths {
                    Some(m) => m.get(entry.path.as_str()),
                    None => None,
                };
                match told {
                    Some(p) => {
                        e.path = copy_text(p);
                        e.path_raw = copy_bytes(p.as_bytes());
                    },
                    None => if apart {
                        let path = join_path(stream.as_str(), e.path.as_str());
                        let mut raw = copy_bytes(stream.as_str().as_bytes());
                        raw.push(0x2F);
                        raw.extend_from_slice(e.path_raw.as_slice());
                        assert(raw@ =~= utf8::encode_utf8(stream@) + seq![0x2Fu8] + entry@.path_raw);
                        e.path = path;
                        e.path_raw = raw;
                    },
                }
                let ghost sofar = archive::views(entries@);
                let ghost were = places;
                proof {
                    assert(e@ == placed(entry@, stream@, known, apart));
                }
                entries.push(e);
                routing.push((n, k));
                proof {
                    places = places.push((n as int, k as int));
                    assert(archive::views(entries@) =~= sofar.push(e@));
                    assert(want.take(k + 1) =~= want.take(k as int).push(want[k as int]));
                    assert(archive::views(entries@) =~= done + want.take(k + 1));
                    assert(places =~= before + Seq::new((k + 1) as nat, |i: int| (n as int, i)));
                }
                k = k + 1;
            }
            proof {
                assert(want.take(k as int) =~= want);
                assert(places =~= routes(listings, n + 1));
            }
            n = n + 1;
        }
        let r = MsiReader { readers, entries, routing };
        proof {
            assert(r.places() =~= places);
        }
        r
    }
}

impl<R: ArchiveReader> ArchiveReader for MsiReader<R> {
    open spec fn spec_format(&self) -> FormatId {
        FormatId::Msi
    }

    closed spec fn listing(&self) -> Seq<EntryView> {
        archive::views(self.entries@)
    }

    closed spec fn body(&self, idx: int) -> Result<Seq<u8>, ErrorView> {
        archive::body_at(bodies_at(self.readers@, self.places()), idx)
    }

    fn format(&self) -> (r: FormatId) {
        FormatId::Msi
    }

    fn entries(&self) -> (r: &Vec<Entry>) {
        &self.entries
    }

    fn read_entry(&self, idx: usize) -> (r: Result<Vec<u8>, Error>) {
        proof {
            use_type_invariant(self);
        }
        if idx >= self.routing.len() {
            return Err(Error::InvalidIndex(idx));
        }
        let (cab, inner) = self.routing[idx];
        self.readers[cab].read_entry(inner)
    }

    fn verify_password(&self) -> (r: Result<(), Error>) {
        Ok(())
    }
}

impl<R: ArchiveReader> BatchReader for MsiReader<R> {
    fn read_entries<S: EntrySink>(&self, indices: &[usize], sink: &mut S) -> (r: Result<(), Error>) {
        read_entries_one_by_one(self, indices, sink)
    }
}

/// Reads Windows Installer packages.
#[derive(Debug, Clone, Copy)]
pub struct MsiHandler;

impl FormatHandler for MsiHandler {
    open spec fn spec_id(&self) -> FormatId {
        FormatId::Msi
    }

    /// Other documents begin in the same way: the name must fit too.
    open spec fn spec_probe(&self, header: Seq<u8>, name: Option<Seq<char>>) -> Confidence {
        archive::magic_when(bytes::stands_at(header, 0, CFB_MAGIC@) && paths::has_extension(name, "msi"@))
    }

    fn id(&self) -> (r: FormatId) {
        FormatId::Msi
    }

    fn probe(&self, header: &[u8], name: Option<&str>) -> (r: Confidence) {
        Confidence::magic_if(starts_with(header, &CFB_MAGIC) && extension_is(name, "msi"))
    }
}

/// The outcome of opening a package as far as its own tables go.
pub open spec fn opens_as(r: Result<MsiPackage, Error>, src: Source) -> bool {
    match src {
        Source::Stream { .. } => error::fails_with(
            r,
            ErrorView::Unsupported { format: "msi"@, feature: "streaming (msi requires seek)"@ },
        ),
        Source::Seekable { inner, path } => if path is None {
            error::fails_with(r, ErrorView::Unsupported { format: "msi"@, feature: "seekable source without a path"@ })
        } else {
            match package_fault(inner@) {
                Some(e) => error::fails_with(r, e),
                None => r matches Ok(p) && p.content() == inner@ && Ok::<Seq<Seq<char>>, ErrorView>(p.streams())
                    == package_cabinets(inner@) && p.file_paths() == package_paths(inner@),
            }
        },
    }
}

/// The package can be looked into: its catalog has no hole. A source that is refused
/// anyway is not looked into.
pub open spec fn can_be_opened(src: Source) -> bool {
    src matches Source::Seekable { inner, path } ==> path is Some ==> catalog_is_filled(inner@)
}

impl MsiHandler {
    /// Open a package as far as its own tables go. It must come from a file, and its
    /// catalog must have no hole; `check_catalog` tells.
    pub fn open(&self, src: Source) -> (r: Result<MsiPackage, Error>)
        requires
            can_be_opened(src),
        ensures
            opens_as(r, src),
    {
        let (data, path) = match src {
            Source::Stream { .. } => {
                return Err(unsupported("msi", "streaming (msi requires seek)"));
            },
            Source::Seekable { inner, path } => (inner, path),
        };
        if path.is_none() {
            return Err(unsupported("msi", "seekable source without a path"));
        }
        if !opens(data.as_slice()) || !has_table(data.as_slice(), "_Tables") {
            return Err(Error::UnknownFormat);
        }
        let cabinets = match media_cabinets(data.as_slice()) {
            Ok(v) => v,
            Err(e) => {
                return Err(e);
            },
        };
        let file_paths = build_file_paths(data.as_slice());
        Ok(MsiPackage { data, cabinets, paths: file_paths })
    }

    /// Open a package as far as its own tables go, or `None` where its catalog has a
    /// hole.
    pub fn open_readable(&self, src: Source) -> (r: Option<Result<MsiPackage, Error>>)
        ensures
            r is Some == can_be_opened(src),
            r matches Some(o) ==> opens_as(o, src),
    {
        let fits = match &src {
            Source::Seekable { inner, path: Some(_) } => check_catalog(inner.as_slice()),
            _ => true,
        };
        if fits {
            Some(self.open(src))
        } else {
            None
        }
    }
}

/// The way down to a directory ends, whatever the package says of parents:
/// there are never more names on it than parents that are followed.
pub proof fn way_down_is_bounded(dirs: Map<Seq<char>, DirView>, key: Seq<char>, seen: Seq<Seq<char>>, fuel: nat)
    ensures
        way_down(dirs, key, seen, fuel).len() <= fuel,
    decreases fuel,
{
    if !(fuel == 0 || seen.contains(key) || !dirs.contains_key(key)) {
        match dirs[key].parent {
            Some(p) if p != key => {
                way_down_is_bounded(dirs, p, seen.push(key), (fuel - 1) as nat);
            },
            _ => {},
        }
    }
}

/// The parents of a directory lead to a root in at most `n` steps: a directory that
/// is not known, has no parent or is its own.
pub open spec fn leads_to_root(dirs: Map<Seq<char>, DirView>, key: Seq<char>, n: nat) -> bool
    decreases n,
{
    if !dirs.contains_key(key) {
        true
    } else {
        match dirs[key].parent {
            Some(p) if p != key => n > 0 && leads_to_root(dirs, p, (n - 1) as nat),
            _ => true,
        }
    }
}

/// Fewer steps than enough are not too few for more.
proof fn more_steps_do(dirs: Map<Seq<char>, DirView>, key: Seq<char>, m: nat, n: nat)
    requires
        m <= n,
        leads_to_root(dirs, key, m),
    ensures
        leads_to_root(dirs, key, n),
    decreases m,
{
    if dirs.contains_key(key) {
        match dirs[key].parent {
            Some(p) if p != key => {
                more_steps_do(dirs, p, (m - 1) as nat, (n - 1) as nat);
            },
            _ => {},
        }
    }
}

/// The way down does not depend on what was seen farther from the root, nor on how
/// many parents may be followed beyond those there are.
proof fn way_down_is_settled(
    dirs: Map<Seq<char>, DirView>,
    key: Seq<char>,
    seen: Seq<Seq<char>>,
    other: Seq<Seq<char>>,
    fuel: nat,
    more: nat,
    n: nat,
)
    requires
        leads_to_root(dirs, key, n),
        n > 0 ==> !leads_to_root(dirs, key, (n - 1) as nat),
        n < fuel,
        n < more,
        forall|i: int| 0 <= i < seen.len() ==> !leads_to_root(dirs, #[trigger] seen[i], n),
        forall|i: int| 0 <= i < other.len() ==> !leads_to_root(dirs, #[trigger] other[i], n),
    ensures
        way_down(dirs, key, seen, fuel) == way_down(dirs, key, other, more),
    decreases n,
{
    if dirs.contains_key(key) {
        match dirs[key].parent {
            Some(p) if p != key => {
                let m = (n - 1) as nat;
                assert forall|i: int| 0 <= i < seen.push(key).len() implies !leads_to_root(dirs, #[trigger] seen.push(key)[i], m) by {
                    if i < seen.len() && leads_to_root(dirs, seen[i], m) {
                        more_steps_do(dirs, seen[i], m, n);
                    }
                }
                assert forall|i: int| 0 <= i < other.push(key).len() implies !leads_to_root(dirs, #[trigger] other.push(key)[i], m) by {
                    if i < other.len() && leads_to_root(dirs, other[i], m) {
                        more_steps_do(dirs, other[i], m, n);
                    }
                }
                way_down_is_settled(dirs, p, seen.push(key), other.push(key), (fuel - 1) as nat, (more - 1) as nat, m);
            },
            _ => {},
        }
    }
}

/// There is a least number of steps that leads to a root.
proof fn least_steps(dirs: Map<Seq<char>, DirView>, key: Seq<char>, n: nat) -> (m: nat)
    requires
        leads_to_root(dirs, key, n),
    ensures
        m <= n,
        leads_to_root(dirs, key, m),
        m > 0 ==> !leads_to_root(dirs, key, (m - 1) as nat),
    decreases n,
{
    if n > 0 && leads_to_root(dirs, key, (n - 1) as nat) {
        least_steps(dirs, key, (n - 1) as nat)
    } else {
        n
    }
}

/// The path of a directory whose parents lead to a root is that of its parent,
/// followed by its own name where it has one.
pub proof fn path_follows_parent(dirs: Map<Seq<char>, DirView>, key: Seq<char>, parent: Seq<char>)
    requires
        dirs.contains_key(key),
        dirs[key].parent == Some(parent),
        parent != key,
        leads_to_root(dirs, key, (MAX_DIR_DEPTH - 1) as nat),
    ensures
        dir_path(dirs, key) == match dirs[key].name {
            Some(name) => paths::joined(dir_path(dirs, parent), name),
            None => dir_path(dirs, parent),
        },
{
    let none = Seq::<Seq<char>>::empty();
    let full = MAX_DIR_DEPTH as nat;
    let n = least_steps(dirs, key, (MAX_DIR_DEPTH - 1) as nat);
    let m = (n - 1) as nat;
    assert forall|i: int| 0 <= i < none.push(key).len() implies !leads_to_root(dirs, #[trigger] none.push(key)[i], m) by {}
    way_down_is_settled(dirs, parent, none.push(key), none, (full - 1) as nat, full, m);
    let above = way_down(dirs, parent, none, full);
    match dirs[key].name {
        Some(name) => {
            assert((above + seq![name]).drop_last() =~= above);
        },
        None => {
            assert(above + none =~= above);
        },
    }
}

/// A directory that is not known, has no parent or is its own has no path.
pub proof fn root_has_no_path(dirs: Map<Seq<char>, DirView>, key: Seq<char>)
    requires
        dirs.contains_key(key) ==> (dirs[key].parent is None || dirs[key].parent == Some(key)),
    ensures
        dir_path(dirs, key) == Seq::<char>::empty(),
{
}

/// Of what a directory is called, the part before the first colon counts, and of that the
/// part behind the last bar: the long name on the target's side. A dot, and nothing, are no
/// name.
#[verifier::rlimit(40)]
pub proof fn long_name_on_target_side_counts(short: Seq<char>, long: Seq<char>, source: Seq<char>)
    requires
        !short.contains(':'),
        !long.contains(':'),
        !long.contains('|'),
    ensures
        ({
            let name = if long.len() == 0 || long == seq!['.'] { None } else { Some(long) };
            &&& directory_name(long) == name
            &&& directory_name(short.push('|') + long) == name
            &&& directory_name(long.push(':') + source) == name
            &&& directory_name(short.push('|') + long.push(':') + source) == name
        }),
        long_name(short.push('|') + long) == long,
        long_name(long) == long,
{
    let both = short.push('|') + long;
    assert(!both.contains(':')) by {
        if both.contains(':') {
            let k = choose|k: int| 0 <= k < both.len() && both[k] == ':';
            if k < short.len() {
                assert(short[k] == ':');
            } else if k > short.len() {
                assert(long[k - short.len() - 1] == ':');
            }
        }
    }
    side_before_colon(long, source);
    side_before_colon(both, source);
    assert(short.push('|') + long.push(':') + source =~= both.push(':') + source);
    text::last_index_is_last(both, '|');
    text::last_index_is_last(long, '|');
    let k = text::last_index(both, '|');
    assert(both[short.len() as int] == '|');
    if k > short.len() {
        assert(long[k - short.len() - 1] == '|');
        assert(long.contains('|'));
    }
    assert(both.skip(short.len() as int + 1) =~= long);
    let j = text::last_index(long, '|');
    if j >= 0 {
        assert(long.contains(long[j]));
    }
    assert(long.skip(0) =~= long);
}

proof fn side_before_colon(target: Seq<char>, source: Seq<char>)
    requires
        !target.contains(':'),
    ensures
        target_side(target) == target,
        target_side(target.push(':') + source) == target,
{
    let all = target.push(':') + source;
    text::first_index_is_first(target, ':');
    text::first_index_is_first(all, ':');
    let k = text::first_index(target, ':');
    if k < target.len() {
        assert(target.contains(target[k]));
    }
    assert(target.take(target.len() as int) =~= target);
    let j = text::first_index(all, ':');
    assert(all[target.len() as int] == ':');
    if j < target.len() {
        assert(target.contains(all[j]));
    }
    assert(all.take(target.len() as int) =~= target);
}

/// A file lies in the directory of its component, under its long name.
pub proof fn files_lie_in_the_directory_of_their_component(
    dirs: Map<Seq<char>, DirView>,
    components: Map<Seq<char>, Seq<char>>,
    key: Seq<char>,
    component: Seq<char>,
    short: Seq<char>,
    long: Seq<char>,
)
    requires
        paths::is_segment(long),
        long != seq!['.', '.'],
        !long.contains('|'),
        components.contains_key(component),
    ensures
        ({
            let path = file_path(dirs, components, key, component, Some(short.push('|') + long));
            &&& paths::segments(path) == paths::segments(dir_path(dirs, components[component])).push(long)
            &&& paths::file_name(path) == Some(long)
        }),
        file_path(dirs, components, key, component, Some(long)) == file_path(
            dirs,
            components,
            key,
            component,
            Some(short.push('|') + long),
        ),
{
    let both = short.push('|') + long;
    text::last_index_is_last(both, '|');
    text::last_index_is_last(long, '|');
    let k = text::last_index(both, '|');
    assert(both[short.len() as int] == '|');
    if k > short.len() {
        assert(long[k - short.len() - 1] == '|');
        assert(long.contains('|'));
    }
    assert(both.skip(short.len() as int + 1) =~= long);
    let j = text::last_index(long, '|');
    if j >= 0 {
        assert(long.contains(long[j]));
    }
    assert(long.skip(0) =~= long);
    paths::joined_ends_with_name(dir_path(dirs, components[component]), long);
}

/// The cabinets inside a package are those whose names are written with a number sign
/// before them, in the order of the table. The others are left out.
pub proof fn cabinets_are_named_with_sign(rows: Seq<Seq<Option<Seq<char>>>>, row: Seq<Option<Seq<char>>>, name: Seq<char>)
    requires
        row.len() > 0,
    ensures
        ({
            let n = rows.len() as int;
            let more = cabinets_of(rows.push(row), n + 1);
            &&& row[0] == Some(seq!['#'] + name) ==> more == cabinets_of(rows, n).push(name)
            &&& row[0] matches Some(c) ==> (c.len() == 0 || c[0] != '#') ==> more == cabinets_of(rows, n)
            &&& row[0] is None ==> more == cabinets_of(rows, n)
        }),
        cabinets_of(rows, 0) == Seq::<Seq<char>>::empty(),
{
    cabinets_go_by_rows(rows.push(row), rows, rows.len() as int);
    assert((seq!['#'] + name).skip(1) =~= name);
}

proof fn cabinets_go_by_rows(a: Seq<Seq<Option<Seq<char>>>>, b: Seq<Seq<Option<Seq<char>>>>, n: int)
    requires
        n <= a.len(),
        n <= b.len(),
        forall|k: int| 0 <= k < n ==> a[k] == b[k],
    ensures
        cabinets_of(a, n) == cabinets_of(b, n),
    decreases n,
{
    if n > 0 {
        cabinets_go_by_rows(a, b, n - 1);
    }
}

/// How many entries the first cabinets list together.
pub open spec fn entries_before(listings: Seq<Seq<EntryView>>, n: int) -> int
    decreases n,
{
    if n <= 0 { 0 } else { entries_before(listings, n - 1) + listings[n - 1].len() }
}

proof fn lengths_add_up(
    listings: Seq<Seq<EntryView>>,
    streams: Seq<Seq<char>>,
    file_paths: Option<Map<Seq<char>, Seq<char>>>,
    n: int,
)
    requires
        0 <= n <= listings.len(),
    ensures
        package_listing(listings, streams, file_paths, n).len() == entries_before(listings, n),
        routes(listings, n).len() == entries_before(listings, n),
    decreases n,
{
    if n > 0 {
        lengths_add_up(listings, streams, file_paths, n - 1);
    }
}

/// The entries of the cabinets are listed one cabinet after the other, each in its order,
/// and each is read from the place that it is listed for. One that the package has a path
/// for is listed under that path; where it has no paths and there are several cabinets,
/// one is listed below the name of its cabinet.
#[verifier::rlimit(40)]
pub proof fn entries_are_listed_cabinet_by_cabinet(
    listings: Seq<Seq<EntryView>>,
    streams: Seq<Seq<char>>,
    file_paths: Option<Map<Seq<char>, Seq<char>>>,
    n: int,
    c: int,
    k: int,
)
    requires
        streams.len() == listings.len(),
        0 <= c < n <= listings.len(),
        0 <= k < listings[c].len(),
    ensures
        ({
            let j = entries_before(listings, c) + k;
            let e = listings[c][k];
            let shown = package_listing(listings, streams, file_paths, n)[j];
            &&& 0 <= j < package_listing(listings, streams, file_paths, n).len()
            &&& routes(listings, n)[j] == (c, k)
            &&& shown.kind == e.kind && shown.size == e.size && shown.modified == e.modified && shown.mode == e.mode
            &&& file_paths matches Some(m) ==> shown.path == if m.contains_key(e.path) { m[e.path] } else { e.path }
            &&& file_paths is None && streams.len() == 1 ==> shown == e
            &&& file_paths is None && streams.len() > 1 ==> shown.path == paths::joined(streams[c], e.path)
        }),
    decreases n,
{
    lengths_add_up(listings, streams, file_paths, n - 1);
    lengths_add_up(listings, streams, file_paths, c);
    if c < n - 1 {
        entries_are_listed_cabinet_by_cabinet(listings, streams, file_paths, n - 1, c, k);
    }
}

/// A row of the directory table gives a directory its parent and its name; a later row for
/// the same directory counts. An empty parent is none.
pub proof fn directory_rows_are_entered(rows: Seq<Seq<Option<Seq<char>>>>, key: Seq<char>, parent: Seq<char>, name: Seq<char>)
    requires
        name.len() > 0,
        name != seq!['.'],
        !name.contains(':'),
        !name.contains('|'),
    ensures
        ({
            let dirs = dirs_of(rows.push(seq![Some(key), Some(parent), Some(name)]), rows.len() as int + 1);
            &&& dirs == dirs_of(rows, rows.len() as int).insert(key, dirs[key])
            &&& dirs[key].name == Some(name)
            &&& dirs[key].parent == if parent.len() > 0 { Some(parent) } else { None }
        }),
        dirs_of(rows.push(seq![None]), rows.len() as int + 1) == dirs_of(rows, rows.len() as int),
{
    long_name_on_target_side_counts(Seq::empty(), name, Seq::empty());
    dirs_go_by_rows(rows.push(seq![Some(key), Some(parent), Some(name)]), rows, rows.len() as int);
    dirs_go_by_rows(rows.push(seq![None]), rows, rows.len() as int);
}

proof fn dirs_go_by_rows(a: Seq<Seq<Option<Seq<char>>>>, b: Seq<Seq<Option<Seq<char>>>>, n: int)
    requires
        n <= a.len(),
        n <= b.len(),
        forall|k: int| 0 <= k < n ==> a[k] == b[k],
    ensures
        dirs_of(a, n) == dirs_of(b, n),
        components_of(a, n) == components_of(b, n),
    decreases n,
{
    if n > 0 {
        dirs_go_by_rows(a, b, n - 1);
    }
}

/// A row of the component table says in which directory a component lies; a later row for
/// the same component counts.
pub proof fn component_rows_are_entered(rows: Seq<Seq<Option<Seq<char>>>>, component: Seq<char>, directory: Seq<char>)
    ensures
        components_of(rows.push(seq![Some(component), Some(directory)]), rows.len() as int + 1) == components_of(
            rows,
            rows.len() as int,
        ).insert(component, directory),
{
    dirs_go_by_rows(rows.push(seq![Some(component), Some(directory)]), rows, rows.len() as int);
}

/// A row of the file table gives a file its path, in the directory of its component; a
/// later row for the same file counts.
pub proof fn file_rows_are_entered(
    dirs: Map<Seq<char>, DirView>,
    components: Map<Seq<char>, Seq<char>>,
    rows: Seq<Seq<Option<Seq<char>>>>,
    key: Seq<char>,
    component: Seq<char>,
    name: Seq<char>,
)
    ensures
        files_of(dirs, components, rows.push(seq![Some(key), Some(component), Some(name)]), rows.len() as int + 1) == files_of(
            dirs,
            components,
            rows,
            rows.len() as int,
        ).insert(key, file_path(dirs, components, key, component, Some(name))),
{
    files_go_by_rows(dirs, components, rows.push(seq![Some(key), Some(component), Some(name)]), rows, rows.len() as int);
}

proof fn files_go_by_rows(
    dirs: Map<Seq<char>, DirView>,
    components: Map<Seq<char>, Seq<char>>,
    a: Seq<Seq<Option<Seq<char>>>>,
    b: Seq<Seq<Option<Seq<char>>>>,
    n: int,
)
    requires
        n <= a.len(),
        n <= b.len(),
        forall|k: int| 0 <= k < n ==> a[k] == b[k],
    ensures
        files_of(dirs, components, a, n) == files_of(dirs, components, b, n),
    decreases n,
{
    if n > 0 {
        files_go_by_rows(dirs, components, a, b, n - 1);
    }
}

} // verus!
