//! Whether the trees of an HFS+ volume can be gone through: their nodes, their
//! leaves and the folders in them do not lead back into themselves, and what their
//! records count does not run over.
use vstd::hash_map::HashMapWithView;
use vstd::prelude::*;

use crate::bytes;
use crate::bytes::{be_u16, be_u32, be_u64, le_u32, le_u64};

verus! {

/// Where the volume header begins.
pub const HEADER: usize = 1024;

/// The length of the volume header.
pub const HEADER_LEN: usize = 512;

/// Where the header of a volume tells the size of its blocks.
pub const BLOCK_SIZE_AT: usize = 1064;

/// Where it describes the file of the tree of extents.
pub const EXTENTS_FORK: usize = 1216;

/// Where it describes the file of the catalog.
pub const CATALOG_FORK: usize = 1296;

/// Where it describes the file of the tree of attributes.
pub const ATTRIBUTES_FORK: usize = 1376;

/// The length of a description of a file.
pub const FORK_LEN: usize = 80;

/// The largest block whose places can all be counted.
pub const MAX_BLOCK: u32 = 0x8000_0000;

/// How the nodes of a tree are marked.
pub const INDEX_NODE: u8 = 0;

pub const LEAF_NODE: u8 = 0xFF;

pub const HEADER_NODE: u8 = 1;

/// How the value of an attribute is marked that stands in its record.
pub const INLINE_VALUE: u32 = 0x10;

/// How it is marked where it is a file.
pub const FORK_VALUE: u32 = 0x20;

/// The value by which a compressed file is known begins so.
pub const PACKED_MAGIC: u32 = 0x636D_7066;

/// How many times the length of the volume a file in it may be.
pub const MAX_RATIO: u64 = 0x1000;

/// How deep folders may nest: the walk goes into each from the one around it.
pub const MAX_NESTING: usize = 1000;

/// The folder that everything lies in.
pub const ROOT_FOLDER: u32 = 2;

/// Where byte `at` of a file lies, looked for from its extent `k` on.
pub open spec fn fork_place(data: Seq<u8>, fork: int, block: int, at: int, k: int) -> Option<int>
    decreases 8 - k,
{
    let start = bytes::be32(data, fork + 16 + 8 * k);
    let len = bytes::be32(data, fork + 20 + 8 * k) * block;
    if k >= 8 || bytes::be32(data, fork + 20 + 8 * k) == 0 {
        None
    } else if at < len {
        Some(start * block + at)
    } else {
        fork_place(data, fork, block, at - len, k + 1)
    }
}

/// A tree: the description of its file, the sizes of blocks and nodes, and its root.
#[derive(Debug, Clone, Copy)]
pub struct Tree {
    pub fork: usize,
    pub block: u32,
    pub node: u16,
    pub root: u32,
}

/// The tree in a file, if its first node can be read.
pub open spec fn tree_in(data: Seq<u8>, fork: int, block: u32) -> Option<Tree> {
    match fork_place(data, fork, block as int, 0, 0) {
        Some(p) if p + 512 <= data.len() && data[p + 8] == HEADER_NODE => Some(
            Tree {
                fork: fork as usize,
                block,
                node: bytes::be16(data, p + 32) as u16,
                root: bytes::be32(data, p + 16) as u32,
            },
        ),
        _ => None,
    }
}

/// How many records a node at `p` has.
pub open spec fn record_count(data: Seq<u8>, p: int) -> int {
    bytes::be16(data, p + 10)
}

/// Where a node lies, if it can be read.
pub open spec fn node_place(data: Seq<u8>, t: Tree, num: u32) -> Option<int> {
    match fork_place(data, t.fork as int, t.block as int, num * t.node, 0) {
        Some(p) if t.node >= 14 && p + t.node <= data.len() && 2 * (record_count(data, p) + 1) <= t.node => Some(p),
        _ => None,
    }
}

/// Where record `i` of a node at `p` begins and ends, if it lies in the node.
pub open spec fn record_at(data: Seq<u8>, t: Tree, p: int, i: int) -> Option<(int, int)> {
    let from = bytes::be16(data, p + t.node - 2 * (i + 1));
    let to = bytes::be16(data, p + t.node - 2 * (i + 2));
    if from <= to <= t.node { Some((p + from, p + to)) } else { None }
}

/// The node that record `i` of an index node at `p` leads to.
pub open spec fn child_at(data: Seq<u8>, t: Tree, p: int, i: int) -> Option<u32> {
    match record_at(data, t, p, i) {
        Some((a, b)) => if b - a >= 2 && bytes::be16(data, a) + 6 <= b - a {
            Some(bytes::be32(data, a + 2 + bytes::be16(data, a)) as u32)
        } else {
            None
        },
        None => None,
    }
}

/// The nodes that the first `n` records of an index node lead to.
pub open spec fn first_children(data: Seq<u8>, t: Tree, p: int, n: int) -> Seq<u32>
    decreases n,
{
    if n <= 0 {
        Seq::empty()
    } else {
        match child_at(data, t, p, n - 1) {
            Some(c) => first_children(data, t, p, n - 1).push(c),
            None => first_children(data, t, p, n - 1),
        }
    }
}

/// The nodes that a node leads to.
pub open spec fn children(data: Seq<u8>, t: Tree, num: u32) -> Seq<u32> {
    match node_place(data, t, num) {
        Some(p) if data[p + 8] == INDEX_NODE => first_children(data, t, p, record_count(data, p)),
        _ => Seq::empty(),
    }
}

/// The nodes that are reached when each is followed by those it leads to, in turn
/// from number `i` of the queue on; nothing where they are more than `limit`.
pub open spec fn reached(data: Seq<u8>, t: Tree, queue: Seq<u32>, i: int, limit: int) -> Option<Seq<u32>>
    decreases limit - i,
{
    if queue.len() > limit {
        None
    } else if i < 0 || i >= queue.len() {
        Some(queue)
    } else {
        reached(data, t, queue + children(data, t, queue[i]), i + 1, limit)
    }
}

/// The nodes of a tree, level by level; nothing where there are more than the volume
/// has bytes, as when they lead back into themselves.
pub open spec fn nodes_of(data: Seq<u8>, t: Tree) -> Option<Seq<u32>> {
    reached(data, t, seq![t.root], 0, data.len() as int)
}

/// A leaf leads on to the next one in order, or to none.
pub open spec fn links_on(data: Seq<u8>, t: Tree, nodes: Seq<u32>, i: int) -> bool {
    match node_place(data, t, nodes[i]) {
        Some(p) if data[p + 8] == LEAF_NODE => bytes::be32(data, p) == 0 || (i + 1 < nodes.len() && nodes[i + 1] == bytes::be32(
            data,
            p,
        )),
        _ => true,
    }
}

/// All leaves among the nodes do.
pub open spec fn links_go_on(data: Seq<u8>, t: Tree, nodes: Seq<u32>) -> bool {
    forall|i: int| 0 <= i < nodes.len() ==> #[trigger] links_on(data, t, nodes, i)
}

/// The blocks that the extents from number `k` on of a list at `at` count.
pub open spec fn blocks_from(data: Seq<u8>, at: int, k: int) -> int
    decreases 8 - k,
{
    if k >= 8 { 0 } else { bytes::be32(data, at + 4 + 8 * k) + blocks_from(data, at, k + 1) }
}

/// Where the value of a record begins that begins at `a`: behind its key, at an even
/// place.
pub open spec fn value_at(data: Seq<u8>, a: int) -> int {
    let n = bytes::be16(data, a) + 2;
    a + if n % 2 == 0 { n } else { n + 1 }
}

/// The trees of a volume.
#[derive(Debug, Clone, Copy, PartialEq, Eq, Structural)]
pub enum Which {
    Catalog,
    Extents,
    Attributes,
}

/// What stands at `p`, if it says that a file is compressed, gives it a size that the
/// volume can hold: no compression makes so much out of so little.
pub open spec fn packed_size_fits(data: Seq<u8>, p: int) -> bool {
    bytes::le32(data, p) == PACKED_MAGIC ==> bytes::le64(data, p + 8) <= data.len() * MAX_RATIO
}

/// The value at `v` of an attribute, in a record that ends at `b`, gives no file too
/// large a size. It stands there itself, or at the beginning of a file.
pub open spec fn value_fits(data: Seq<u8>, block: u32, v: int, b: int) -> bool {
    if v + 32 <= b && bytes::be32(data, v) == INLINE_VALUE {
        packed_size_fits(data, v + 16)
    } else if v + 88 <= b && bytes::be32(data, v) == FORK_VALUE && bytes::be64(data, v + 8) >= 16 {
        let p = bytes::be32(data, v + 24) * block;
        block >= 16 && bytes::be32(data, v + 28) > 0 && (p + 16 <= data.len() ==> packed_size_fits(data, p))
    } else {
        true
    }
}

/// The blocks that a record from `a` to `b` counts fit a number: in the catalog both
/// forks of a file, in the tree of attributes the fork of one, and in the tree of
/// extents those that follow on a block, of which there is at least one. An attribute
/// gives no file too large a size.
pub open spec fn record_fits(data: Seq<u8>, block: u32, which: Which, a: int, b: int) -> bool {
    let v = value_at(data, a);
    match which {
        Which::Catalog => b - a >= 2 && v + 248 <= b && bytes::be16(data, v) == 2 ==> blocks_from(data, v + 104, 0) <= u32::MAX
            && blocks_from(data, v + 184, 0) <= u32::MAX,
        Which::Attributes => b - a >= 2 ==> value_fits(data, block, v, b) && (v + 88 <= b && bytes::be32(data, v)
            == FORK_VALUE ==> blocks_from(data, v + 24, 0) <= u32::MAX),
        Which::Extents => {
            let e = a + 2 + bytes::be16(data, a);
            b - a >= 12 && e + 64 <= b ==> bytes::be32(data, e + 4) > 0 && bytes::be32(data, a + 8) + blocks_from(data, e, 0)
                <= u32::MAX
        },
    }
}

/// The first `n` records of a node fit.
pub open spec fn records_fit(data: Seq<u8>, t: Tree, which: Which, p: int, n: int) -> bool {
    forall|i: int|
        0 <= i < n ==> (#[trigger] record_at(data, t, p, i) matches Some((a, b)) ==> record_fits(data, t.block, which, a, b))
}

/// The records of a node fit, if it is a leaf.
pub open spec fn leaf_fits(data: Seq<u8>, t: Tree, which: Which, num: u32) -> bool {
    match node_place(data, t, num) {
        Some(p) if data[p + 8] == LEAF_NODE => records_fit(data, t, which, p, record_count(data, p)),
        _ => true,
    }
}

/// The records of all leaves among the nodes fit.
pub open spec fn leaves_fit(data: Seq<u8>, t: Tree, which: Which, nodes: Seq<u32>) -> bool {
    forall|i: int| 0 <= i < nodes.len() ==> #[trigger] leaf_fits(data, t, which, nodes[i])
}

/// A folder that record `i` of a leaf at `p` describes: where it lies, and its number.
pub open spec fn folder_at(data: Seq<u8>, t: Tree, p: int, i: int) -> Option<(u32, u32)> {
    match record_at(data, t, p, i) {
        Some((a, b)) => {
            let v = value_at(data, a);
            if b - a >= 8 && v + 12 <= b && bytes::be16(data, v) == 1 {
                Some((bytes::be32(data, a + 2) as u32, bytes::be32(data, v + 8) as u32))
            } else {
                None
            }
        },
        None => None,
    }
}

/// The folders that the first `n` records of a leaf describe.
pub open spec fn folders_in(data: Seq<u8>, t: Tree, p: int, n: int) -> Seq<(u32, u32)>
    decreases n,
{
    if n <= 0 {
        Seq::empty()
    } else {
        match folder_at(data, t, p, n - 1) {
            Some(f) => folders_in(data, t, p, n - 1).push(f),
            None => folders_in(data, t, p, n - 1),
        }
    }
}

/// The folders that a node describes, if it is a leaf.
pub open spec fn node_folders(data: Seq<u8>, t: Tree, num: u32) -> Seq<(u32, u32)> {
    match node_place(data, t, num) {
        Some(p) if data[p + 8] == LEAF_NODE => folders_in(data, t, p, record_count(data, p)),
        _ => Seq::empty(),
    }
}

/// The folders that the first `n` of the nodes describe.
pub open spec fn folders_of(data: Seq<u8>, t: Tree, nodes: Seq<u32>, n: int) -> Seq<(u32, u32)>
    decreases n,
{
    if n <= 0 {
        Seq::empty()
    } else {
        folders_of(data, t, nodes, n - 1) + node_folders(data, t, nodes[n - 1])
    }
}

/// The folders that lie in a folder, last one first.
pub open spec fn folders_below(folders: Seq<(u32, u32)>, id: u32) -> Seq<u32>
    decreases folders.len(),
{
    if folders.len() == 0 {
        Seq::empty()
    } else {
        let rest = folders_below(folders.drop_last(), id);
        if folders.last().0 == id { seq![folders.last().1] + rest } else { rest }
    }
}

/// Going from folder to folder, from number `i` of the queue on, comes to an end
/// before there are more than `limit`. The queue up to `end` is of one depth.
pub open spec fn folders_end(folders: Seq<(u32, u32)>, queue: Seq<u32>, i: int, end: int, depth: int, limit: int) -> bool
    decreases limit - i, queue.len() - end,
{
    if queue.len() > limit {
        false
    } else if i < 0 || i >= queue.len() {
        true
    } else if i >= end {
        depth < MAX_NESTING && folders_end(folders, queue, i, queue.len() as int, depth + 1, limit)
    } else {
        folders_end(folders, queue + folders_below(folders, queue[i]), i + 1, end, depth, limit)
    }
}

/// The walk through all folders comes to an end, and does not go too deep.
pub open spec fn walk_ends(folders: Seq<(u32, u32)>) -> bool {
    folders_end(folders, folders_below(folders, ROOT_FOLDER), 0, 0, 0, folders.len() as int)
}

/// A tree can be searched, and its records fit.
pub open spec fn tree_is_sound(data: Seq<u8>, tree: Option<Tree>, which: Which) -> bool {
    match tree {
        None => true,
        Some(t) => match nodes_of(data, t) {
            None => false,
            Some(nodes) => leaves_fit(data, t, which, nodes),
        },
    }
}

/// The leaves of the catalog lead on in order, and going from folder to folder
/// comes to an end.
pub open spec fn catalog_is_sound(data: Seq<u8>, tree: Option<Tree>) -> bool {
    match tree {
        None => true,
        Some(t) => match nodes_of(data, t) {
            None => false,
            Some(nodes) => {
                let folders = folders_of(data, t, nodes, nodes.len() as int);
                &&& links_go_on(data, t, nodes)
                &&& walk_ends(folders)
            },
        },
    }
}

/// The trees of a volume can be gone through. Without a whole header there are none.
pub open spec fn volume_is_sound(data: Seq<u8>) -> bool {
    data.len() >= HEADER + HEADER_LEN ==> {
        let block = bytes::be32(data, BLOCK_SIZE_AT as int) as u32;
        let catalog = tree_in(data, CATALOG_FORK as int, block);
        &&& block <= MAX_BLOCK
        &&& tree_is_sound(data, catalog, Which::Catalog)
        &&& catalog_is_sound(data, catalog)
        &&& tree_is_sound(data, tree_in(data, EXTENTS_FORK as int, block), Which::Extents)
        &&& bytes::be64(data, ATTRIBUTES_FORK as int) == 0 || tree_is_sound(
            data,
            tree_in(data, ATTRIBUTES_FORK as int, block),
            Which::Attributes,
        )
    }
}

/// Find where a byte of a file lies.
fn find_place(data: &[u8], fork: usize, block: u32, at: u64) -> (r: Option<u128>)
    requires
        fork + FORK_LEN <= data.len(),
    ensures
        match r {
            Some(p) => fork_place(data@, fork as int, block as int, at as int, 0) == Some(p as int),
            None => fork_place(data@, fork as int, block as int, at as int, 0) is None,
        },
{
    let mut left: u128 = at as u128;
    let mut k: usize = 0;
    while k < 8
        invariant
            k <= 8,
            fork + FORK_LEN <= data.len(),
            left <= u64::MAX,
            fork_place(data@, fork as int, block as int, at as int, 0) == fork_place(
                data@,
                fork as int,
                block as int,
                left as int,
                k as int,
            ),
        decreases 8 - k,
    {
        let start: u32 = be_u32(data, fork + 16 + 8 * k);
        let count: u32 = be_u32(data, fork + 20 + 8 * k);
        if count == 0 {
            return None;
        }
        assert(0 <= count * block <= 0xFFFF_FFFF * 0xFFFF_FFFF && 0 <= start * block <= 0xFFFF_FFFF * 0xFFFF_FFFF)
            by (nonlinear_arith)
            requires
                0 <= count <= 0xFFFF_FFFF,
                0 <= block <= 0xFFFF_FFFF,
                0 <= start <= 0xFFFF_FFFF,
        ;
        let len: u128 = count as u128 * block as u128;
        if left < len {
            return Some(start as u128 * block as u128 + left);
        }
        left = left - len;
        k = k + 1;
    }
    None
}

fn read_tree(data: &[u8], fork: usize, block: u32) -> (r: Option<Tree>)
    requires
        fork + FORK_LEN <= data.len(),
    ensures
        r == tree_in(data@, fork as int, block),
        r matches Some(t) ==> t.fork == fork,
{
    match find_place(data, fork, block, 0) {
        None => None,
        Some(at) => {
            if at > data.len() as u128 || data.len() as u128 - at < 512 {
                return None;
            }
            let p: usize = at as usize;
            if data[p + 8] != HEADER_NODE {
                return None;
            }
            Some(Tree { fork, block, node: be_u16(data, p + 32), root: be_u32(data, p + 16) })
        },
    }
}

fn find_node(data: &[u8], t: &Tree, num: u32) -> (r: Option<usize>)
    requires
        t.fork + FORK_LEN <= data.len(),
    ensures
        match r {
            Some(p) => node_place(data@, *t, num) == Some(p as int) && p + t.node <= data.len() && t.node >= 14 && 2 * (
            record_count(data@, p as int) + 1) <= t.node,
            None => node_place(data@, *t, num) is None,
        },
{
    if t.node < 14 {
        return None;
    }
    assert(0 <= num * t.node <= 0xFFFF_FFFF * 0xFFFF) by (nonlinear_arith)
        requires
            0 <= num <= 0xFFFF_FFFF,
            0 <= t.node <= 0xFFFF,
    ;
    match find_place(data, t.fork, t.block, num as u64 * t.node as u64) {
        None => None,
        Some(at) => {
            if at > data.len() as u128 || data.len() as u128 - at < t.node as u128 {
                return None;
            }
            let p: usize = at as usize;
            let count: usize = be_u16(data, p + 10) as usize;
            if 2 * (count + 1) > t.node as usize {
                None
            } else {
                Some(p)
            }
        },
    }
}

fn read_record(data: &[u8], t: &Tree, p: usize, i: usize) -> (r: Option<(usize, usize)>)
    requires
        p + t.node <= data.len(),
        2 * (i + 2) <= t.node,
    ensures
        match r {
            Some((a, b)) => record_at(data@, *t, p as int, i as int) == Some((a as int, b as int)) && p <= a <= b
                <= p + t.node,
            None => record_at(data@, *t, p as int, i as int) is None,
        },
{
    let node: usize = t.node as usize;
    let from: usize = be_u16(data, p + node - 2 * (i + 1)) as usize;
    let to: usize = be_u16(data, p + node - 2 * (i + 2)) as usize;
    if from <= to && to <= node {
        Some((p + from, p + to))
    } else {
        None
    }
}

/// Put the nodes that a node leads to behind a queue, as far as there is room.
fn push_children(data: &[u8], t: &Tree, num: u32, queue: &mut Vec<u32>, limit: usize) -> (r: bool)
    requires
        t.fork + FORK_LEN <= data.len(),
        old(queue).len() <= limit,
    ensures
        r == (old(queue).len() + children(data@, *t, num).len() <= limit),
        r ==> final(queue)@ == old(queue)@ + children(data@, *t, num),
{
    let p = match find_node(data, t, num) {
        None => {
            assert(old(queue)@ + Seq::<u32>::empty() =~= old(queue)@);
            return true;
        },
        Some(p) => p,
    };
    if data[p + 8] != INDEX_NODE {
        assert(old(queue)@ + Seq::<u32>::empty() =~= old(queue)@);
        return true;
    }
    let n: usize = be_u16(data, p + 10) as usize;
    let mut i: usize = 0;
    assert(old(queue)@ + first_children(data@, *t, p as int, 0) =~= old(queue)@);
    while i < n
        invariant
            i <= n,
            n == record_count(data@, p as int),
            2 * (n + 1) <= t.node,
            p + t.node <= data.len(),
            queue@ == old(queue)@ + first_children(data@, *t, p as int, i as int),
            queue.len() <= limit,
            children(data@, *t, num) == first_children(data@, *t, p as int, n as int),
        decreases n - i,
    {
        let c = match read_record(data, t, p, i) {
            None => None,
            Some((a, b)) => if b - a >= 2 {
                let key: usize = be_u16(data, a) as usize;
                if key + 6 <= b - a {
                    Some(be_u32(data, a + 2 + key))
                } else {
                    None
                }
            } else {
                None
            },
        };
        assert(c == child_at(data@, *t, p as int, i as int));
        if let Some(num) = c {
            if queue.len() == limit {
                proof {
                    children_grow(data@, *t, p as int, i + 1, n as int);
                }
                return false;
            }
            let ghost before = first_children(data@, *t, p as int, i as int);
            queue.push(num);
            assert(queue@ =~= old(queue)@ + before.push(num));
        }
        i = i + 1;
    }
    true
}

proof fn children_grow(data: Seq<u8>, t: Tree, p: int, m: int, n: int)
    requires
        m <= n,
    ensures
        first_children(data, t, p, m).len() <= first_children(data, t, p, n).len(),
    decreases n,
{
    if 0 < n && m < n {
        children_grow(data, t, p, m, n - 1);
    }
}

/// The nodes of a tree, level by level.
fn reach(data: &[u8], t: &Tree) -> (r: Option<Vec<u32>>)
    requires
        t.fork + FORK_LEN <= data.len(),
    ensures
        match r {
            Some(v) => nodes_of(data@, *t) == Some(v@),
            None => nodes_of(data@, *t) is None,
        },
{
    let limit: usize = data.len();
    let mut queue: Vec<u32> = Vec::new();
    queue.push(t.root);
    assert(queue@ =~= seq![t.root]);
    let mut i: usize = 0;
    while i < queue.len()
        invariant
            i <= queue.len() <= limit,
            limit == data.len(),
            t.fork + FORK_LEN <= data.len(),
            nodes_of(data@, *t) == reached(data@, *t, queue@, i as int, limit as int),
        decreases limit - i,
    {
        let ghost before = queue@;
        let num: u32 = queue[i];
        let fits = push_children(data, t, num, &mut queue, limit);
        if !fits {
            assert(reached(data@, *t, before + children(data@, *t, num), i + 1, limit as int) is None);
            return None;
        }
        i = i + 1;
    }
    Some(queue)
}

fn count_blocks(data: &[u8], at: usize) -> (r: u64)
    requires
        at + 64 <= data.len(),
    ensures
        r == blocks_from(data@, at as int, 0),
        r <= 8 * 0xFFFF_FFFF,
{
    let mut sum: u64 = 0;
    let mut k: usize = 8;
    while k > 0
        invariant
            k <= 8,
            at + 64 <= data.len(),
            sum == blocks_from(data@, at as int, k as int),
            sum <= (8 - k) * 0xFFFF_FFFF,
        decreases k,
    {
        k = k - 1;
        sum = sum + be_u32(data, at + 4 + 8 * k) as u64;
    }
    sum
}

/// How far behind the beginning of a record its value begins.
fn value_offset(data: &[u8], a: usize) -> (r: usize)
    requires
        a + 2 <= data.len(),
    ensures
        a + r == value_at(data@, a as int),
        2 <= r <= 0x1_0002,
{
    let n: usize = be_u16(data, a) as usize + 2;
    if n % 2 == 0 {
        n
    } else {
        n + 1
    }
}

pub(crate) fn check_packed_size(data: &[u8], p: usize) -> (r: bool)
    requires
        p + 16 <= data.len(),
    ensures
        r == packed_size_fits(data@, p as int),
{
    if le_u32(data, p) != PACKED_MAGIC {
        return true;
    }
    le_u64(data, p + 8) as u128 <= data.len() as u128 * MAX_RATIO as u128
}

fn check_value(data: &[u8], block: u32, v: usize, b: usize) -> (r: bool)
    requires
        v <= b <= data.len(),
    ensures
        r == value_fits(data@, block, v as int, b as int),
{
    if b - v >= 32 && be_u32(data, v) == INLINE_VALUE {
        return check_packed_size(data, v + 16);
    }
    if b - v < 88 || be_u32(data, v) != FORK_VALUE || be_u64(data, v + 8) < 16 {
        return true;
    }
    if block < 16 || be_u32(data, v + 28) == 0 {
        return false;
    }
    let start: u32 = be_u32(data, v + 24);
    assert(0 <= start * block <= 0xFFFF_FFFF * 0xFFFF_FFFF) by (nonlinear_arith)
        requires
            0 <= start <= 0xFFFF_FFFF,
            0 <= block <= 0xFFFF_FFFF,
    ;
    let p: u64 = start as u64 * block as u64;
    if p > data.len() as u64 || data.len() as u64 - p < 16 {
        return true;
    }
    check_packed_size(data, p as usize)
}

fn check_record(data: &[u8], block: u32, which: Which, a: usize, b: usize) -> (r: bool)
    requires
        a <= b <= data.len(),
    ensures
        r == record_fits(data@, block, which, a as int, b as int),
{
    if b - a < 2 {
        return true;
    }
    let n = value_offset(data, a);
    let most: u64 = 0xFFFF_FFFF;
    match which {
        Which::Catalog => {
            if b - a < n + 248 || be_u16(data, a + n) != 2 {
                return true;
            }
            count_blocks(data, a + n + 104) <= most && count_blocks(data, a + n + 184) <= most
        },
        Which::Attributes => {
            if b - a < n {
                return true;
            }
            check_value(data, block, a + n, b) && (b - a < n + 88 || be_u32(data, a + n) != FORK_VALUE || count_blocks(
                data,
                a + n + 24,
            ) <= most)
        },
        Which::Extents => {
            let e: usize = 2 + be_u16(data, a) as usize;
            if b - a < 12 || b - a < e + 64 {
                return true;
            }
            be_u32(data, a + e + 4) > 0 && be_u32(data, a + 8) as u64 + count_blocks(data, a + e) <= most
        },
    }
}

fn check_leaf(data: &[u8], t: &Tree, which: Which, num: u32) -> (r: bool)
    requires
        t.fork + FORK_LEN <= data.len(),
    ensures
        r == leaf_fits(data@, *t, which, num),
{
    let p = match find_node(data, t, num) {
        None => {
            return true;
        },
        Some(p) => p,
    };
    if data[p + 8] != LEAF_NODE {
        return true;
    }
    let n: usize = be_u16(data, p + 10) as usize;
    let mut i: usize = 0;
    while i < n
        invariant
            i <= n,
            2 * (n + 1) <= t.node,
            p + t.node <= data.len(),
                records_fit(data@, *t, which, p as int, i as int),
            n == record_count(data@, p as int),
            leaf_fits(data@, *t, which, num) == records_fit(data@, *t, which, p as int, n as int),
        decreases n - i,
    {
        if let Some((a, b)) = read_record(data, t, p, i) {
            if !check_record(data, t.block, which, a, b) {
                assert(record_at(data@, *t, p as int, i as int) == Some((a as int, b as int)));
                return false;
            }
        }
        i = i + 1;
    }
    true
}

fn check_leaves(data: &[u8], t: &Tree, which: Which, nodes: &Vec<u32>) -> (r: bool)
    requires
        t.fork + FORK_LEN <= data.len(),
    ensures
        r == leaves_fit(data@, *t, which, nodes@),
{
    let mut i: usize = 0;
    while i < nodes.len()
        invariant
            i <= nodes.len(),
            t.fork + FORK_LEN <= data.len(),
                forall|k: int| 0 <= k < i ==> #[trigger] leaf_fits(data@, *t, which, nodes@[k]),
        decreases nodes.len() - i,
    {
        if !check_leaf(data, t, which, nodes[i]) {
            assert(!leaf_fits(data@, *t, which, nodes@[i as int]));
            return false;
        }
        i = i + 1;
    }
    true
}

fn check_tree(data: &[u8], tree: &Option<Tree>, which: Which) -> (r: bool)
    requires
        *tree matches Some(t) ==> t.fork + FORK_LEN <= data.len(),
    ensures
        r == tree_is_sound(data@, *tree, which),
{
    match tree {
        None => true,
        Some(t) => match reach(data, t) {
            None => false,
            Some(nodes) => check_leaves(data, t, which, &nodes),
        },
    }
}

fn check_links(data: &[u8], t: &Tree, nodes: &Vec<u32>) -> (r: bool)
    requires
        t.fork + FORK_LEN <= data.len(),
    ensures
        r == links_go_on(data@, *t, nodes@),
{
    let mut i: usize = 0;
    while i < nodes.len()
        invariant
            i <= nodes.len(),
            t.fork + FORK_LEN <= data.len(),
            forall|k: int| 0 <= k < i ==> #[trigger] links_on(data@, *t, nodes@, k),
        decreases nodes.len() - i,
    {
        if let Some(p) = find_node(data, t, nodes[i]) {
            if data[p + 8] == LEAF_NODE {
                let next: u32 = be_u32(data, p);
                if next != 0 && (i + 1 >= nodes.len() || nodes[i + 1] != next) {
                    assert(!links_on(data@, *t, nodes@, i as int));
                    return false;
                }
            }
        }
        assert(links_on(data@, *t, nodes@, i as int));
        i = i + 1;
    }
    true
}

fn push_folders(data: &[u8], t: &Tree, num: u32, folders: &mut Vec<(u32, u32)>)
    requires
        t.fork + FORK_LEN <= data.len(),
    ensures
        final(folders)@ == old(folders)@ + node_folders(data@, *t, num),
{
    let p = match find_node(data, t, num) {
        None => {
            assert(old(folders)@ + Seq::<(u32, u32)>::empty() =~= old(folders)@);
            return;
        },
        Some(p) => p,
    };
    if data[p + 8] != LEAF_NODE {
        assert(old(folders)@ + Seq::<(u32, u32)>::empty() =~= old(folders)@);
        return;
    }
    let n: usize = be_u16(data, p + 10) as usize;
    let mut i: usize = 0;
    assert(old(folders)@ + folders_in(data@, *t, p as int, 0) =~= old(folders)@);
    while i < n
        invariant
            i <= n,
            2 * (n + 1) <= t.node,
            p + t.node <= data.len(),
                n == record_count(data@, p as int),
            node_folders(data@, *t, num) == folders_in(data@, *t, p as int, n as int),
            folders@ == old(folders)@ + folders_in(data@, *t, p as int, i as int),
        decreases n - i,
    {
        let f = match read_record(data, t, p, i) {
            None => None,
            Some((a, b)) => if b - a >= 8 {
                let v = value_offset(data, a);
                if b - a >= v + 12 && be_u16(data, a + v) == 1 {
                    Some((be_u32(data, a + 2), be_u32(data, a + v + 8)))
                } else {
                    None
                }
            } else {
                None
            },
        };
        assert(f == folder_at(data@, *t, p as int, i as int));
        if let Some(f) = f {
            let ghost before = folders_in(data@, *t, p as int, i as int);
            folders.push(f);
            assert(folders@ =~= old(folders)@ + before.push(f));
        }
        i = i + 1;
    }
}

/// The last of the first `n` folders that lie in a folder.
spec fn last_below(folders: Seq<(u32, u32)>, n: int, id: u32) -> Option<int>
    decreases n,
{
    if n <= 0 {
        None
    } else if folders[n - 1].0 == id {
        Some(n - 1)
    } else {
        last_below(folders, n - 1, id)
    }
}

/// The last of them is where going through them backwards begins.
proof fn below_begins_with_last(folders: Seq<(u32, u32)>, n: int, id: u32)
    requires
        0 <= n <= folders.len(),
    ensures
        match last_below(folders, n, id) {
            None => folders_below(folders.take(n), id) == Seq::<u32>::empty(),
            Some(j) => 0 <= j < n && folders[j].0 == id && folders_below(folders.take(n), id) == seq![folders[j].1]
                + folders_below(folders.take(j), id),
        },
    decreases n,
{
    if n > 0 {
        assert(folders.take(n).drop_last() =~= folders.take(n - 1));
        below_begins_with_last(folders, n - 1, id);
    }
}

/// The folders of a volume, each with the one before it that lies in the same folder;
/// and the last one in each.
struct Nesting {
    folders: Vec<(u32, u32)>,
    before: Vec<Option<usize>>,
    last: HashMapWithView<u32, usize>,
}

impl Nesting {
    spec fn holds(&self, n: int) -> bool {
        &&& self.before.len() == n <= self.folders.len()
        &&& forall|j: int|
            0 <= j < n ==> (match #[trigger] self.before@[j] {
                Some(k) => last_below(self.folders@, j, self.folders@[j].0) == Some(k as int),
                None => last_below(self.folders@, j, self.folders@[j].0) is None,
            })
        &&& forall|id: u32|
            #![trigger last_below(self.folders@, n, id)]
            #![trigger self.last@.contains_key(id)]
            if self.last@.contains_key(id) {
                last_below(self.folders@, n, id) == Some(self.last@[id] as int)
            } else {
                last_below(self.folders@, n, id) is None
            }
    }
}

fn nest(folders: Vec<(u32, u32)>) -> (r: Nesting)
    ensures
        r.folders@ == folders@,
        r.holds(folders.len() as int),
{
    broadcast use vstd::std_specs::hash::group_hash_axioms;

    let n: usize = folders.len();
    let mut x = Nesting { folders, before: Vec::new(), last: HashMapWithView::new() };
    let mut i: usize = 0;
    while i < n
        invariant
            i <= n,
            n == folders@.len(),
            x.folders@ == folders@,
            x.holds(i as int),
        decreases n - i,
    {
        broadcast use vstd::std_specs::hash::group_hash_axioms;

        let ghost was = x;
        let id: u32 = x.folders[i].0;
        let found: Option<usize> = match x.last.get(&id) {
            Some(k) => Some(*k),
            None => None,
        };
        assert(last_below(x.folders@, i as int, id) == (match found {
            Some(k) => Some(k as int),
            None => None,
        }));
        x.before.push(found);
        x.last.insert(id, i);
        i = i + 1;
        proof {
            assert forall|j: int| 0 <= j < i implies (match #[trigger] x.before@[j] {
                Some(k) => last_below(x.folders@, j, x.folders@[j].0) == Some(k as int),
                None => last_below(x.folders@, j, x.folders@[j].0) is None,
            }) by {
                if j < i - 1 {
                    assert(x.before@[j] == was.before@[j]);
                }
            }
            assert forall|d: u32|
                #![trigger last_below(x.folders@, i as int, d)]
                #![trigger x.last@.contains_key(d)]
                if x.last@.contains_key(d) {
                    last_below(x.folders@, i as int, d) == Some(x.last@[d] as int)
                } else {
                    last_below(x.folders@, i as int, d) is None
                } by {
                assert(was.last@.contains_key(d) || last_below(was.folders@, i - 1, d) is None);
            }
        }
    }
    x
}

/// Put the folders in a folder behind a queue, as far as there is room.
fn push_below(x: &Nesting, id: u32, queue: &mut Vec<u32>, limit: usize) -> (r: bool)
    requires
        x.holds(x.folders.len() as int),
        old(queue).len() <= limit,
    ensures
        r == (old(queue).len() + folders_below(x.folders@, id).len() <= limit),
        r ==> final(queue)@ == old(queue)@ + folders_below(x.folders@, id),
{
    broadcast use vstd::std_specs::hash::group_hash_axioms;

    let ghost all = folders_below(x.folders@, id);
    let mut at: Option<usize> = match x.last.get(&id) {
        Some(k) => Some(*k),
        None => None,
    };
    let ghost mut n: int = x.folders@.len() as int;
    proof {
        assert(x.folders@.take(n) =~= x.folders@);
        assert(last_below(x.folders@, n, id) == (match at {
            Some(k) => Some(k as int),
            None => None,
        }));
    }
    loop
        invariant
            x.holds(x.folders.len() as int),
            all == folders_below(x.folders@, id),
            0 <= n <= x.folders@.len(),
            old(queue)@ + all == queue@ + folders_below(x.folders@.take(n), id),
            queue.len() <= limit,
            last_below(x.folders@, n, id) == (match at {
                Some(k) => Some(k as int),
                None => None,
            }),
        decreases n,
    {
        proof {
            below_begins_with_last(x.folders@, n, id);
        }
        match at {
            None => {
                assert(queue@ + Seq::<u32>::empty() =~= queue@);
                return true;
            },
            Some(k) => {
                if queue.len() == limit {
                    assert((old(queue)@ + all).len() > limit);
                    return false;
                }
                let ghost was = queue@;
                queue.push(x.folders[k].1);
                at = x.before[k];
                proof {
                    n = k as int;
                    let rest = folders_below(x.folders@.take(n), id);
                    assert(was + (seq![x.folders@[n].1] + rest) =~= queue@ + rest);
                }
            },
        }
    }
}

fn check_folders(folders: Vec<(u32, u32)>) -> (r: bool)
    ensures
        r == walk_ends(folders@),
{
    let limit: usize = folders.len();
    let x = nest(folders);
    let mut queue: Vec<u32> = Vec::new();
    let ghost top = folders_below(folders@, ROOT_FOLDER);
    if !push_below(&x, ROOT_FOLDER, &mut queue, limit) {
        assert(!folders_end(folders@, top, 0, 0, 0, limit as int));
        return false;
    }
    assert(queue@ =~= top);
    let mut i: usize = 0;
    let mut end: usize = 0;
    let mut depth: usize = 0;
    while i < queue.len()
        invariant
            i <= queue.len() <= limit,
            end <= queue.len(),
            depth <= MAX_NESTING,
            limit == folders@.len(),
            top == folders_below(folders@, ROOT_FOLDER),
            x.folders@ == folders@,
            x.holds(x.folders.len() as int),
            folders_end(folders@, top, 0, 0, 0, limit as int) == folders_end(
                folders@,
                queue@,
                i as int,
                end as int,
                depth as int,
                limit as int,
            ),
        decreases limit - i, queue.len() - end,
    {
        if i >= end {
            if depth >= MAX_NESTING {
                return false;
            }
            depth = depth + 1;
            end = queue.len();
        } else {
            let ghost before = queue@;
            let id: u32 = queue[i];
            let fits = push_below(&x, id, &mut queue, limit);
            if !fits {
                assert(!folders_end(
                    folders@,
                    before + folders_below(folders@, id),
                    i + 1,
                    end as int,
                    depth as int,
                    limit as int,
                ));
                return false;
            }
            i = i + 1;
        }
    }
    true
}

fn check_catalog(data: &[u8], tree: &Option<Tree>) -> (r: bool)
    requires
        *tree matches Some(t) ==> t.fork + FORK_LEN <= data.len(),
    ensures
        r == catalog_is_sound(data@, *tree),
{
    let t = match tree {
        None => {
            return true;
        },
        Some(t) => t,
    };
    let nodes = match reach(data, t) {
        None => {
            return false;
        },
        Some(v) => v,
    };
    if !check_links(data, t, &nodes) {
        return false;
    }
    let mut folders: Vec<(u32, u32)> = Vec::new();
    let mut i: usize = 0;
    assert(folders@ =~= folders_of(data@, *t, nodes@, 0));
    while i < nodes.len()
        invariant
            i <= nodes.len(),
            t.fork + FORK_LEN <= data.len(),
                folders@ == folders_of(data@, *t, nodes@, i as int),
        decreases nodes.len() - i,
    {
        push_folders(data, t, nodes[i], &mut folders);
        i = i + 1;
    }
    check_folders(folders)
}

/// Whether the trees of a volume can be gone through.
pub fn check_volume(data: &[u8]) -> (r: bool)
    ensures
        r == volume_is_sound(data@),
{
    if data.len() < HEADER + HEADER_LEN {
        return true;
    }
    let block: u32 = be_u32(data, BLOCK_SIZE_AT);
    if block > MAX_BLOCK {
        return false;
    }
    let catalog = read_tree(data, CATALOG_FORK, block);
    let extents = read_tree(data, EXTENTS_FORK, block);
    check_tree(data, &catalog, Which::Catalog) && check_catalog(data, &catalog) && check_tree(data, &extents, Which::Extents) && (
    be_u64(data, ATTRIBUTES_FORK) == 0 || check_tree(data, &read_tree(data, ATTRIBUTES_FORK, block), Which::Attributes))
}

} // verus!
