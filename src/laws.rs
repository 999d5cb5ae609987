use vstd::prelude::*;

verus! {

use vstd::arithmetic::power2::{pow2, lemma_pow2_unfold, lemma_pow2_pos};
use vstd::arithmetic::power2::lemma_pow2_adds;
use vstd::arithmetic::div_mod::{lemma_div_denominator, lemma_small_mod, lemma_multiply_divide_lt, lemma_fundamental_div_mod_converse_mod};
use crate::model::{tree_height_of, child_iter, left_descendant, child_of, parent_of, cousin_of, ancestor, parent_iter, row_start, in_row, in_forest_of, be_value, be_bytes};
use crate::row_facts::{lemma_row_start, lemma_in_forest_at, lemma_past_span};

/// Any `e` with `2^(e-1) < n <= 2^e` (or `e == 0` and `n <= 1`) is the tree
/// height of `n`.
pub proof fn lemma_tree_height_unique(n: nat, e: nat)
    requires
        (e == 0 && n <= 1) || (e > 0 && pow2((e - 1) as nat) < n <= pow2(e)),
    ensures
        tree_height_of(n) == e,
    decreases e,
{
    if e > 0 {
        lemma_pow2_pos((e - 1) as nat);
        let m = ((n + 1) / 2) as nat;
        if e == 1 {
            vstd::arithmetic::power2::lemma2_to64();
            assert(n == 2);
            assert(tree_height_of(1) == 0);
        } else {
            lemma_pow2_unfold(e);
            lemma_pow2_unfold((e - 1) as nat);
            lemma_tree_height_unique(m, (e - 1) as nat);
        }
    }
}

/// The tree height of `n >= 1` leaves is the smallest `e` with `2^e >= n`:
/// `2^e >= n`, and `2^(e-1) < n` when `e > 0`; one leaf needs height 0.
pub proof fn lemma_tree_height_bounds(n: nat)
    requires
        n >= 1,
    ensures
        pow2(tree_height_of(n)) >= n,
        tree_height_of(n) > 0 ==> pow2((tree_height_of(n) - 1) as nat) < n,
        tree_height_of(1) == 0,
    decreases n,
{
    vstd::arithmetic::power2::lemma2_to64();
    if n > 1 {
        let m = ((n + 1) / 2) as nat;
        lemma_tree_height_bounds(m);
        lemma_pow2_unfold(tree_height_of(n));
        assert(tree_height_of(n) == 1 + tree_height_of(m));
        if tree_height_of(m) > 0 {
            lemma_pow2_unfold(tree_height_of(m));
        } else {
            assert(m <= 1) by {
                if m > 1 {
                    assert(tree_height_of(m) == 1 + tree_height_of(((m + 1) / 2) as nat));
                }
            }
        }
    }
}

/// Going down to the left child and back up returns to a node above row 0:
/// for `2^h <= position < 2^(h+1)`, the parent of the child is `position`.
/// (A leaf has no child: from a position below `2^h` the round trip lands
/// `2^h` higher.)
pub proof fn lemma_up1_child(position: u64, h: nat)
    requires
        h <= 62,
        pow2(h) <= position < pow2(h + 1),
    ensures
        child_of(position as int, h) < pow2(h + 1),
        parent_of(child_of(position as int, h), h) == position,
{
    lemma_pow2_unfold(h + 1);
    lemma_fundamental_div_mod_converse_mod(
        2 * position as int,
        pow2(h + 1) as int,
        1,
        2 * (position - pow2(h)),
    );
}

/// Descending `drop >= 1` levels at once is taking the left child `drop`
/// times.
pub proof fn lemma_child_many_is_repeated_child(position: u64, drop: nat, h: nat)
    requires
        drop >= 1,
    ensures
        left_descendant(position as int, drop, h) == child_iter(position as int, drop, h),
    decreases drop,
{
    lemma_pow2_pos(h + 1);
    lemma_pow2_unfold(drop);
    if drop == 1 {
        vstd::arithmetic::power2::lemma2_to64();
        assert(position as int * pow2(1) == 2 * position as int) by (nonlinear_arith)
            requires pow2(1) == 2;
        assert(child_iter(position as int, 0, h) == position);
    } else {
        let j = (drop - 1) as nat;
        lemma_child_many_is_repeated_child(position, j, h);
        let m = pow2(h + 1) as int;
        let x = position as int * pow2(j) as int;
        vstd::arithmetic::div_mod::lemma_mul_mod_noop_right(2, x, m);
        assert(2 * x == position as int * pow2(drop) as int) by (nonlinear_arith)
            requires
                x == position as int * pow2(j) as int,
                pow2(drop) == 2 * pow2(j),
        ;
        assert(child_iter(position as int, j, h) == x % m);
        assert(child_iter(position as int, drop, h) == (2 * (x % m)) % m);
        assert(left_descendant(position as int, drop, h) == (2 * x) % m);
    }
}

/// Flipping bit 1 twice gives the position back.
pub proof fn lemma_cousin_involution(position: u64)
    ensures
        cousin_of(cousin_of(position as int)) == position,
{
}

/// Inside the window, `k <= h + 1` parent steps reach row `k` at offset
/// `position / 2^k`.
proof fn lemma_parent_iter_closed(position: u64, k: nat, h: nat)
    requires
        k <= h + 1,
        position < pow2(h + 1),
    ensures
        parent_iter(position as int, k, h) == row_start(k, h) + position as int / pow2(k) as int,
    decreases k,
{
    vstd::arithmetic::power2::lemma2_to64();
    if k > 0 {
        let j = (k - 1) as nat;
        lemma_parent_iter_closed(position, j, h);
        lemma_pow2_pos(j);
        lemma_pow2_unfold(k);
        lemma_pow2_unfold((h + 1 - j) as nat);
        lemma_pow2_unfold(h + 1);
        lemma_div_denominator(position as int, pow2(j) as int, 2);
        assert(pow2(j) * 2 == pow2(k));
        let q = position as int / pow2(j) as int;
        let a = pow2(h) - pow2((h - j) as nat);
        assert(row_start(j, h) == 2 * a);
        assert((2 * a + q) / 2 == a + q / 2);
        assert((h + 1 - k) as nat == (h - j) as nat);
        assert(row_start(k, h) == pow2(h + 1) - pow2((h - j) as nat));
        assert(q / 2 == position as int / pow2(k) as int);
        assert(parent_iter(position as int, k, h) == parent_of(row_start(j, h) + q, h));
        assert(parent_iter(position as int, k, h) == row_start(k, h) + position as int / pow2(k) as int);
    } else {
        assert(row_start(0, h) == 0);
        assert(position as int / pow2(0) as int == position);
    }
}

/// Rising `rise` levels at once, for `1 <= rise <= h + 1` and a position
/// inside the window, is taking the parent `rise` times.
pub proof fn lemma_up_many_is_repeated_up1(position: u64, rise: nat, h: nat)
    requires
        h <= 62,
        1 <= rise <= h + 1,
        position < pow2(h + 1),
    ensures
        ancestor(position as int, rise, h) == parent_iter(position as int, rise, h),
{
    lemma_parent_iter_closed(position, rise, h);
    let k = (h + 1 - rise) as nat;
    lemma_pow2_pos(rise);
    lemma_pow2_pos(k);
    lemma_pow2_adds(rise, k);
    lemma_multiply_divide_lt(position as int, pow2(rise) as int, pow2(k) as int);
    lemma_small_mod((position as nat / pow2(rise)) as nat, pow2(k));
}

/// Every leaf below the leaf count is in the forest.
pub proof fn lemma_leaf_in_forest(pos: nat, n: nat)
    requires
        pos < n,
    ensures
        in_forest_of(pos, n),
{
    let h = tree_height_of(n);
    lemma_tree_height_bounds(n);
    lemma_row_start(0, 1, h);
    vstd::arithmetic::power2::lemma2_to64();
    assert(in_row(pos as int, 0, h));
    lemma_in_forest_at(pos, n, 0);
}

/// No position at or past `2^(tree_height(n)+1) - 1` is in the forest.
pub proof fn lemma_past_span_not_in_forest(pos: nat, n: nat)
    requires
        pos >= pow2(tree_height_of(n) + 1) - 1,
    ensures
        !in_forest_of(pos, n),
{
    let h = tree_height_of(n);
    lemma_row_start(0, h + 1, h);
    lemma_past_span(pos, n);
}

/// Decoding the `n` bytes of a value below `2^(8n)` gives the value back.
proof fn lemma_be_round_trip(v: nat, n: nat)
    requires
        v < pow2(8 * n),
    ensures
        be_bytes(v, n).len() == n,
        be_value(be_bytes(v, n)) == v,
    decreases n,
{
    vstd::arithmetic::power2::lemma2_to64();
    if n > 0 {
        let m = (n - 1) as nat;
        lemma_pow2_adds(8 * m, 8);
        lemma_pow2_pos(8 * m);
        assert(8 * m + 8 == 8 * n);
        lemma_multiply_divide_lt(v as int, 256, pow2(8 * m) as int);
        lemma_be_round_trip(v / 256, m);
        assert(be_bytes(v, n).drop_last() == be_bytes(v / 256, m));
    }
}

/// Encoding a 32-bit integer to four bytes and decoding them gives it back.
pub proof fn lemma_u32_round_trip(x: u32)
    ensures
        be_bytes(x as nat, 4).len() == 4,
        be_value(be_bytes(x as nat, 4)) == x,
{
    vstd::arithmetic::power2::lemma2_to64();
    lemma_be_round_trip(x as nat, 4);
}

/// Encoding a 64-bit integer to eight bytes and decoding them gives it back.
pub proof fn lemma_u64_round_trip(x: u64)
    ensures
        be_bytes(x as nat, 8).len() == 8,
        be_value(be_bytes(x as nat, 8)) == x,
{
    vstd::arithmetic::power2::lemma2_to64();
    lemma_be_round_trip(x as nat, 8);
}

} // verus!
