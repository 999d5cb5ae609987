use vstd::prelude::*;

verus! {

use vstd::arithmetic::power2::{pow2, lemma_pow2_unfold, lemma_pow2_strictly_increases};
use crate::model::{row_start, in_row, subtree_full, in_forest_of, tree_height_of};

/// Rows start in increasing order; row 0 starts at 0, row 1 at `2^h`, and
/// row `r` holds `2^(h-r)` positions.
pub proof fn lemma_row_start(a: nat, b: nat, h: nat)
    requires
        a <= b <= h + 1,
    ensures
        row_start(a, h) <= row_start(b, h),
        row_start(0, h) == 0,
        row_start(1, h) == pow2(h),
        row_start(h + 1, h) == pow2(h + 1) - 1,
        a <= h ==> row_start(a + 1, h) - row_start(a, h) == pow2((h - a) as nat),
{
    if a < b {
        lemma_pow2_strictly_increases((h + 1 - b) as nat, (h + 1 - a) as nat);
    }
    lemma_pow2_unfold(h + 1);
    vstd::arithmetic::power2::lemma2_to64();
    if a <= h {
        lemma_pow2_unfold((h + 1 - a) as nat);
    }
}

/// A position lies in at most one row.
pub proof fn lemma_row_unique(pos: int, a: nat, b: nat, h: nat)
    requires
        a <= h,
        b <= h,
        in_row(pos, a, h),
        in_row(pos, b, h),
    ensures
        a == b,
{
    if a < b {
        lemma_row_start(a + 1, b, h);
    } else if b < a {
        lemma_row_start(b + 1, a, h);
    }
}

/// The row of a position inside the forest's span, searched from row `r` up.
pub proof fn row_from(pos: int, h: nat, r: nat) -> (row: nat)
    requires
        r <= h,
        row_start(r, h) <= pos < row_start(h + 1, h),
    ensures
        r <= row <= h,
        in_row(pos, row, h),
    decreases h - r,
{
    if pos < row_start(r + 1, h) {
        r
    } else {
        row_from(pos, h, r + 1)
    }
}

/// Membership of a position known to lie in `row` is decided by that row.
pub proof fn lemma_in_forest_at(pos: nat, n: nat, row: nat)
    requires
        row <= tree_height_of(n),
        in_row(pos as int, row, tree_height_of(n)),
    ensures
        in_forest_of(pos, n) == subtree_full(pos as int, row, tree_height_of(n), n),
{
    let h = tree_height_of(n);
    if in_forest_of(pos, n) {
        let w = choose|w: nat| w <= h && #[trigger] in_row(pos as int, w, h) && subtree_full(pos as int, w, h, n);
        lemma_row_unique(pos as int, w, row, h);
    }
}

/// Positions at or past the end of the forest's span are in no row.
pub proof fn lemma_past_span(pos: nat, n: nat)
    requires
        pos >= row_start(tree_height_of(n) + 1, tree_height_of(n)),
    ensures
        !in_forest_of(pos, n),
{
    let h = tree_height_of(n);
    assert forall|row: nat| row <= h implies !#[trigger] in_row(pos as int, row, h) by {
        lemma_row_start(row + 1, h + 1, h);
    }
}

/// The right child of a node of row `r >= 1`, `2 * pos - 2^(h+1) + 1`, lies in
/// row `r - 1` and has the same last leaf.
pub proof fn lemma_right_child(pos: int, r: nat, h: nat, n: nat)
    requires
        1 <= r <= h,
        in_row(pos, r, h),
    ensures
        in_row(2 * pos - pow2(h + 1) + 1, (r - 1) as nat, h),
        subtree_full(2 * pos - pow2(h + 1) + 1, (r - 1) as nat, h, n) == subtree_full(pos, r, h, n),
{
    lemma_row_start(r, r, h);
    lemma_row_start((r - 1) as nat, r, h);
    lemma_pow2_unfold((h + 2 - r) as nat);
    lemma_pow2_unfold((h + 1 - r) as nat);
    lemma_pow2_unfold(r);
    let c = 2 * pos - pow2(h + 1) + 1;
    let k = pos - row_start(r, h);
    assert(c - row_start((r - 1) as nat, h) + 1 == 2 * (k + 1));
    assert((2 * (k + 1)) * pow2((r - 1) as nat) == (k + 1) * pow2(r)) by (nonlinear_arith)
        requires pow2(r) == 2 * pow2((r - 1) as nat);
}

} // verus!
