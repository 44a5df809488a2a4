//! The code trees that stand before data packed by Huffman's method in PackIt and
//! StuffIt archives. The bits of a byte come from the highest down: a one is a
//! leaf, with its value in the next eight bits, and a zero is a branch, with its
//! two trees behind it.
use vstd::prelude::*;

use crate::format::legacy::bits;
use crate::format::legacy::bits::read_bit;

verus! {

/// How many branches a code tree may have. One that tells all bytes apart needs
/// fewer than two hundred and fifty-six.
pub const MAX_BRANCHES: u32 = 4096;

/// From bit `at` on, where `wanted` trees are
/// still to come after `branches` branches, there are not too many branches. The
/// bytes may end before the trees do.
pub open spec fn trees_fit(data: Seq<u8>, at: int, wanted: int, branches: int) -> bool
    decreases MAX_BRANCHES - branches, wanted,
{
    if wanted <= 0 || at < 0 || at >= 8 * data.len() {
        true
    } else if bits::bit_at(data, false, at) == 1 {
        trees_fit(data, at + 9, wanted - 1, branches)
    } else {
        branches < MAX_BRANCHES && trees_fit(data, at + 1, wanted + 1, branches + 1)
    }
}

/// The code tree that begins the bytes has not too many branches.
pub open spec fn tree_fits(data: Seq<u8>) -> bool {
    trees_fit(data, 0, 1, 0)
}

/// Whether the code tree that begins the bytes has not too many branches.
pub(crate) fn check_tree(data: &[u8]) -> (r: bool)
    ensures
        r == tree_fits(data@),
{
    let mut at: u32 = 0;
    let mut wanted: u32 = 1;
    let mut branches: u32 = 0;
    while wanted > 0 && ((at / 8) as usize) < data.len()
        invariant
            branches <= MAX_BRANCHES,
            wanted <= branches + 1,
            at == 9 * (1 + branches - wanted) + branches,
            tree_fits(data@) == trees_fit(data@, at as int, wanted as int, branches as int),
        decreases MAX_BRANCHES - branches, wanted,
    {
        if read_bit(data, false, at as u128) {
            at = at + 9;
            wanted = wanted - 1;
        } else {
            if branches >= MAX_BRANCHES {
                return false;
            }
            at = at + 1;
            wanted = wanted + 1;
            branches = branches + 1;
        }
    }
    true
}

} // verus!
