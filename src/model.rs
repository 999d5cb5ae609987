use vstd::prelude::*;

verus! {

use vstd::arithmetic::power2::pow2;

/// First position of row `row` in a forest of height `h`.
///
/// Row 0 holds the `2^h` leaves `[0, 2^h)`; each row above holds half as
/// many nodes as the row below and starts where that row ends, so row `r`
/// starts at `2^(h+1) - 2^(h+1-r)`.
pub open spec fn row_start(row: nat, h: nat) -> int {
    pow2(h + 1) - pow2((h + 1 - row) as nat)
}

/// Left child of `p` in a forest of height `h`: the address shifted up one
/// place within the `h + 1` bit window.
pub open spec fn child_of(p: int, h: nat) -> int {
    (2 * p) % pow2(h + 1) as int
}

/// The position reached by taking the left child `k` times.
pub open spec fn child_iter(p: int, k: nat, h: nat) -> int
    decreases k,
{
    if k == 0 {
        p
    } else {
        child_of(child_iter(p, (k - 1) as nat, h), h)
    }
}

/// Descend `drop` levels from `p`, always to the left.
pub open spec fn left_descendant(p: int, drop: nat, h: nat) -> int {
    (p * pow2(drop)) % pow2(h + 1) as int
}

} // verus!

verus! {

/// Parent of `p` (valid for positions inside the `h + 1` bit window).
pub open spec fn parent_of(p: int, h: nat) -> int {
    p / 2 + pow2(h) as int
}

/// Ancestor `rise` levels above `p`: it lies in row `rise`, at the offset
/// `p / 2^rise` within that row (kept inside the window).
pub open spec fn ancestor(p: int, rise: nat, h: nat) -> int {
    row_start(rise, h) + (p / pow2(rise) as int) % pow2((h + 1 - rise) as nat) as int
}

/// The position reached by taking the parent `k` times.
pub open spec fn parent_iter(p: int, k: nat, h: nat) -> int
    decreases k,
{
    if k == 0 {
        p
    } else {
        parent_of(parent_iter(p, (k - 1) as nat, h), h)
    }
}

/// The position whose bit 1 is flipped: the same-side child of the parent's
/// sibling.
pub open spec fn cousin_of(p: int) -> int {
    if (p / 2) % 2 == 0 {
        p + 2
    } else {
        p - 2
    }
}

/// Height of the smallest perfect binary tree that holds `n` leaves: the
/// smallest `e` with `2^e >= n`.
pub open spec fn tree_height_of(n: nat) -> nat
    decreases n,
{
    if n <= 1 {
        0
    } else {
        1 + tree_height_of(((n + 1) / 2) as nat)
    }
}

/// Whether bit `i` of `x` is set.
pub open spec fn has_bit(x: nat, i: nat) -> bool {
    (x / pow2(i)) % 2 == 1
}

/// Leaves held by the trees taller than `height` in a forest of `leaves`
/// leaves: the bits of `leaves` above `height`.
pub open spec fn leaves_above(leaves: nat, height: nat) -> nat {
    (leaves / pow2(height + 1)) * pow2(height + 1)
}

/// Heights of the trees of a forest of `leaves` leaves, among the heights
/// `lo ..= hi`, tallest first.
pub open spec fn tree_heights(leaves: nat, lo: nat, hi: nat) -> Seq<nat>
    decreases hi + 1 - lo,
{
    if lo > hi {
        seq![]
    } else {
        let rest = tree_heights(leaves, lo + 1, hi);
        if has_bit(leaves, lo) {
            rest.push(lo)
        } else {
            rest
        }
    }
}

/// Root of the tree of height `height` in a forest of `leaves` leaves and
/// height `h`: the ancestor, `height` levels up, of the tree's first leaf.
pub open spec fn root_of(leaves: nat, height: nat, h: nat) -> int {
    ancestor(leaves_above(leaves, height) as int, height, h)
}

} // verus!

verus! {

/// `pos` lies in row `row` of a forest of height `h`.
pub open spec fn in_row(pos: int, row: nat, h: nat) -> bool {
    row_start(row, h) <= pos < row_start(row + 1, h)
}

/// Every leaf below `pos`, taken as a node of row `row`, is one of the `n`
/// leaves: its subtree's last leaf, `(offset + 1) * 2^row - 1`, is below `n`.
pub open spec fn subtree_full(pos: int, row: nat, h: nat, n: nat) -> bool {
    (pos - row_start(row, h) + 1) * pow2(row) <= n
}

/// `pos` names a live node of the forest of `n` leaves: it lies in some row
/// of the forest of height `tree_height_of(n)`, and all the leaves below it
/// are present.
pub open spec fn in_forest_of(pos: nat, n: nat) -> bool {
    exists|row: nat|
        row <= tree_height_of(n) && #[trigger] in_row(pos as int, row, tree_height_of(n))
            && subtree_full(pos as int, row, tree_height_of(n), n)
}

} // verus!

verus! {

/// The unsigned integer that the bytes `s` spell, most significant first.
pub open spec fn be_value(s: Seq<u8>) -> nat
    decreases s.len(),
{
    if s.len() == 0 {
        0
    } else {
        be_value(s.drop_last()) * 256 + s.last() as nat
    }
}

/// The `n` low bytes of `v`, most significant first.
pub open spec fn be_bytes(v: nat, n: nat) -> Seq<u8>
    decreases n,
{
    if n == 0 {
        seq![]
    } else {
        be_bytes(v / 256, (n - 1) as nat).push((v % 256) as u8)
    }
}

} // verus!
