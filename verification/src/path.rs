//! The path of a leaf: on which side its sibling sits, level by level.
//!
//! A path is read from the leaf upward. On each level the node that leads to
//! the root has the index of the level below halved. A node with an odd index
//! has its sibling on the left. A node with an even index has it on the right,
//! unless it is the unpaired last node of a level: that node moves up alone,
//! and the level gives no sibling.

use vstd::arithmetic::div_mod::lemma_div_denominator;
use vstd::arithmetic::power2::{lemma_pow2_pos, lemma_pow2_unfold, pow2};
use vstd::prelude::*;

verus! {

/// The side on which a sibling sits.
#[derive(Debug, Clone, Copy, PartialEq, Eq, Structural)]
pub enum Direction {
    Left,
    Right,
}

/// Number of halvings, each rounding up, that bring `n` nodes down to one.
/// For `n >= 1` this is the least `k` with `n <= 2^k`
/// (see [`lemma_height_is_ceil_log2`]).
pub open spec fn ceil_log2(n: nat) -> nat
    decreases n,
{
    if n <= 1 {
        0
    } else {
        1 + ceil_log2((n + 1) / 2)
    }
}

/// The sides of the siblings of node `index` in a level of `width` nodes, from
/// that level upward. A level on which the node is the unpaired last one
/// gives no entry.
pub open spec fn sibling_sides(width: nat, index: nat) -> Seq<Direction>
    decreases width,
{
    if width <= 1 {
        seq![]
    } else {
        let above = sibling_sides((width + 1) / 2, index / 2);
        if index % 2 == 1 {
            seq![Direction::Left] + above
        } else if index + 1 < width {
            seq![Direction::Right] + above
        } else {
            above
        }
    }
}

/// The path of leaf `leaf_num` among `num_leaves` leaves: the sides of its
/// siblings from the leaf upward, and behind them `Right` for each level on
/// which the way up has no sibling, so that every path of a tree is as long
/// as the tree is high.
pub open spec fn path_spec(num_leaves: nat, leaf_num: nat) -> Seq<Direction> {
    let sides = sibling_sides(num_leaves, leaf_num);
    sides + Seq::new((ceil_log2(num_leaves) - sides.len()) as nat, |k: int| Direction::Right)
}

/// Whether the path of leaf `leaf_num` names, sibling by sibling, the side on
/// which that sibling sits.
pub open spec fn path_names_sibling_sides(num_leaves: nat, leaf_num: nat) -> bool {
    let sides = sibling_sides(num_leaves, leaf_num);
    let path = path_spec(num_leaves, leaf_num);
    sides.len() <= path.len() && forall|k: int| 0 <= k < sides.len() ==> path[k] == sides[k]
}

/// Bit `k` of an index: the parity of the index halved `k` times.
pub open spec fn index_bit(index: nat, k: int) -> nat {
    (index / pow2(k as nat)) % 2
}

/// Two to the power zero is one.
pub(crate) proof fn lemma_pow2_of_zero()
    ensures
        pow2(0) == 1,
{
    reveal(vstd::arithmetic::power::pow);
}

/// `ceil_log2(n)` never exceeds `n`.
pub(crate) proof fn lemma_ceil_log2_le(n: nat)
    ensures
        ceil_log2(n) <= n,
    decreases n,
{
    if n > 1 {
        lemma_ceil_log2_le((n + 1) / 2);
    }
}

/// `ceil_log2(n)` is the ceiling of the binary logarithm of `n`: for `n >= 2`
/// it is the one `k` with `2^(k-1) < n <= 2^k`.
pub proof fn lemma_height_is_ceil_log2(n: nat)
    requires
        n >= 1,
    ensures
        n <= pow2(ceil_log2(n)),
        n >= 2 ==> pow2((ceil_log2(n) - 1) as nat) < n,
    decreases n,
{
    lemma_pow2_of_zero();
    if n > 1 {
        let h = (n + 1) / 2;
        lemma_height_is_ceil_log2(h);
        lemma_pow2_unfold(ceil_log2(n));
        if h >= 2 {
            lemma_pow2_unfold(ceil_log2(h));
        }
    }
}

/// A node has no more siblings on its way up than the tree is high.
pub proof fn lemma_sides_fit_height(width: nat, index: nat)
    ensures
        sibling_sides(width, index).len() <= ceil_log2(width),
    decreases width,
{
    if width > 1 {
        lemma_sides_fit_height((width + 1) / 2, index / 2);
    }
}

/// Path length. Whatever the leaf, the length `k` of its path is the ceiling
/// of the binary logarithm of the leaf count: `2^(k-1) < n <= 2^k` for two
/// leaves or more, and `k == 0` for one.
pub proof fn lemma_path_length(num_leaves: nat, leaf_num: nat)
    requires
        num_leaves >= 1,
    ensures
        path_spec(num_leaves, leaf_num).len() == ceil_log2(num_leaves),
        num_leaves <= pow2(path_spec(num_leaves, leaf_num).len()),
        num_leaves >= 2 ==> pow2((path_spec(num_leaves, leaf_num).len() - 1) as nat) < num_leaves,
        num_leaves == 1 ==> path_spec(num_leaves, leaf_num).len() == 0,
{
    lemma_height_is_ceil_log2(num_leaves);
    lemma_sides_fit_height(num_leaves, leaf_num);
}

/// Every path names the sides of the siblings.
pub proof fn lemma_path_names_sibling_sides(num_leaves: nat, leaf_num: nat)
    ensures
        path_names_sibling_sides(num_leaves, leaf_num),
{
    lemma_sides_fit_height(num_leaves, leaf_num);
}

/// A tree of `2^depth` leaves has the height `depth`.
pub proof fn lemma_height_of_complete_tree(depth: nat)
    ensures
        ceil_log2(pow2(depth)) == depth,
    decreases depth,
{
    lemma_pow2_of_zero();
    if depth > 0 {
        lemma_pow2_unfold(depth);
        lemma_pow2_pos((depth - 1) as nat);
        lemma_height_of_complete_tree((depth - 1) as nat);
        assert((pow2(depth) + 1) / 2 == pow2((depth - 1) as nat));
    }
}

/// The side that the bit of a level gives: the sibling of a node with an odd
/// index sits on the left, that of a node with an even index on the right.
pub open spec fn side_of_bit(bit: nat) -> Direction {
    if bit == 1 {
        Direction::Left
    } else {
        Direction::Right
    }
}

/// In a tree of `2^depth` leaves every node on the way up has a sibling, and
/// the path is the parity of the index level by level: entry `k`, counted
/// from the leaf, is `Right` where bit `k` of the index is 0 and `Left` where
/// it is 1.
pub proof fn lemma_path_in_complete_tree(depth: nat, index: nat)
    requires
        index < pow2(depth),
    ensures
        sibling_sides(pow2(depth), index).len() == depth,
        path_spec(pow2(depth), index) == sibling_sides(pow2(depth), index),
        forall|k: int|
            0 <= k < depth ==> #[trigger] path_spec(pow2(depth), index)[k] == side_of_bit(
                index_bit(index, k),
            ),
    decreases depth,
{
    lemma_pow2_of_zero();
    let width = pow2(depth);
    let sides = sibling_sides(width, index);
    if depth > 0 {
        let half = pow2((depth - 1) as nat);
        lemma_pow2_unfold(depth);
        lemma_height_of_complete_tree((depth - 1) as nat);
        lemma_path_in_complete_tree((depth - 1) as nat, index / 2);
        let above = sibling_sides(half, index / 2);
        assert(index % 2 == 0 ==> index + 1 < width);
        assert(sides =~= seq![sides[0]] + above);
        assert(path_spec(width, index) =~= sides);
        assert forall|k: int| 0 <= k < depth implies #[trigger] path_spec(width, index)[k]
            == side_of_bit(index_bit(index, k)) by {
            if k > 0 {
                lemma_pow2_pos((k - 1) as nat);
                lemma_pow2_unfold(k as nat);
                lemma_div_denominator(index as int, 2, pow2((k - 1) as nat) as int);
            }
        }
    }
}

/// Computes `ceil_log2(n)`.
pub fn tree_height(n: usize) -> (height: usize)
    ensures
        height == ceil_log2(n as nat),
{
    let mut height: usize = 0;
    let mut width: usize = n;
    while width > 1
        invariant
            height + ceil_log2(width as nat) == ceil_log2(n as nat),
        decreases width,
    {
        proof {
            lemma_ceil_log2_le(n as nat);
        }
        width = width / 2 + width % 2;
        height = height + 1;
    }
    height
}

/// Derives the path of leaf `leaf_num` in a tree of `num_leaves` leaves.
///
/// The index is halved level by level. On each level the side of the sibling
/// is recorded, `Right` for an even index and `Left` for an odd one; a level
/// without a sibling records nothing and adds one `Right` at the end.
pub fn path_finder(num_leaves: usize, leaf_num: usize) -> (path: Vec<Direction>)
    ensures
        path@ == path_spec(num_leaves as nat, leaf_num as nat),
        path@.len() == ceil_log2(num_leaves as nat),
        path_names_sibling_sides(num_leaves as nat, leaf_num as nat),
{
    let mut path: Vec<Direction> = Vec::new();
    let mut width: usize = num_leaves;
    let mut index: usize = leaf_num;
    let mut unpaired: usize = 0;
    while width > 1
        invariant
            path@ + sibling_sides(width as nat, index as nat) == sibling_sides(
                num_leaves as nat,
                leaf_num as nat,
            ),
            path@.len() + unpaired + ceil_log2(width as nat) == ceil_log2(num_leaves as nat),
        decreases width,
    {
        proof {
            lemma_ceil_log2_le(num_leaves as nat);
        }
        if index % 2 == 1 {
            path.push(Direction::Left);
        } else if index < width - 1 {
            path.push(Direction::Right);
        } else {
            unpaired = unpaired + 1;
        }
        width = width / 2 + width % 2;
        index = index / 2;
    }
    let ghost sides = path@;
    let mut filled: usize = 0;
    while filled < unpaired
        invariant
            filled <= unpaired,
            path@ == sides + Seq::new(filled as nat, |k: int| Direction::Right),
        decreases unpaired - filled,
    {
        path.push(Direction::Right);
        filled = filled + 1;
    }
    path
}

} // verus!
