use vstd::prelude::*;

verus! {

use vstd::arithmetic::power2::pow2;
use crate::model::{child_of, left_descendant, parent_of, ancestor, cousin_of, tree_height_of, row_start, leaves_above, tree_heights, root_of, in_row, subtree_full, in_forest_of, be_value, be_bytes};
use crate::row_facts::{lemma_row_start, row_from, lemma_in_forest_at, lemma_past_span, lemma_right_child};
use crate::bit_facts::{lemma_top_pos_bits, lemma_descend_bits, lemma_clear_below, lemma_no_bits_below, lemma_test_bit, lemma_window_mask, lemma_shl_in_window, lemma_up_many_bits, lemma_one_shl, lemma_and_low, lemma_or_high_bit, window_mask, low_mask};
use crate::laws::lemma_tree_height_unique;
use vstd::arithmetic::power2::{lemma_pow2_unfold, lemma_pow2_pos, lemma_pow2_strictly_increases, lemma2_to64_rest};
use vstd::bits::lemma_u64_shr_is_div;

/// Left child of `position` (its lowest bit is 0); the right child is the
/// result plus one.
pub fn child(position: u64, forest_height: u8) -> (r: u64)
    requires
        forest_height <= 62,
    ensures
        r == child_of(position as int, forest_height as nat),
{
    let h = forest_height as u64;
    proof {
        lemma_window_mask(h);
        lemma_shl_in_window(position, 1, h);
        vstd::arithmetic::power2::lemma2_to64();
    }
    let mask: u64 = (2u64 << h) - 1;
    (position << 1u64) & mask
}

/// Descend `drop` levels from `position`, always taking the left branch.
pub fn child_many(position: u64, drop: u8, forest_height: u8) -> (r: u64)
    requires
        forest_height <= 62,
        drop < 64,
    ensures
        r == left_descendant(position as int, drop as nat, forest_height as nat),
{
    let h = forest_height as u64;
    let d = drop as u64;
    proof {
        lemma_window_mask(h);
        lemma_shl_in_window(position, d, h);
    }
    let mask: u64 = (2u64 << h) - 1;
    (position << d) & mask
}

/// Parent of `position`: shift down one place and set bit `forest_height`,
/// the marker of the row above. Only positions inside the window
/// `[0, 2^(forest_height+1))` may be passed: the bits above are not masked.
pub fn up1(position: u64, forest_height: u8) -> (r: u64)
    requires
        forest_height < 64,
        (position as nat) < pow2(forest_height as nat + 1),
    ensures
        r == parent_of(position as int, forest_height as nat),
{
    let h = forest_height as u64;
    proof {
        lemma_u64_shr_is_div(position, 1);
        lemma_pow2_unfold(h as nat + 1);
        vstd::arithmetic::power2::lemma2_to64();
        lemma_or_high_bit(position >> 1u64, h);
    }
    (position >> 1u64) | (1u64 << h)
}

/// Ancestor `rise` levels above `position`: shift down `rise` places, set the
/// `rise` high bits that mark the row, and keep the window. A rise of 0 sets
/// no marker and leaves the position (inside the window) unchanged.
pub fn up_many(position: u64, rise: u8, forest_height: u8) -> (r: u64)
    requires
        forest_height <= 62,
        rise <= forest_height + 1,
    ensures
        r == ancestor(position as int, rise as nat, forest_height as nat),
{
    let h = forest_height as u64;
    let up = rise as u64;
    proof {
        let k = (h + 1 - up) as u64;
        lemma_window_mask(h);
        lemma_up_many_bits(position, up, h);
        lemma_one_shl(k);
        lemma_and_low(position >> up, k);
        lemma_u64_shr_is_div(position, up);
        lemma_pow2_pos(k as nat);
        if k < h + 1 {
            lemma_pow2_strictly_increases(k as nat, h as nat + 1);
        }
        assert(window_mask(h) - low_mask(k) == row_start(up as nat, h as nat));
    }
    let mask: u64 = (2u64 << h) - 1;
    let marker: u64 = if up == 0 { 0 } else { mask << (h - (up - 1)) };
    ((position >> up) | marker) & mask
}

/// Cousin of `position`: the child of its parent's sibling on the same side,
/// found by flipping bit 1.
pub fn cousin(position: u64) -> (r: u64)
    ensures
        r == cousin_of(position as int),
{
    assert((position / 2) % 2 == 0 ==> position ^ 2 == vstd::prelude::add(position, 2)) by (bit_vector);
    assert((position / 2) % 2 == 0 ==> position <= 0xffff_ffff_ffff_fffd) by (bit_vector);
    assert((position / 2) % 2 != 0 ==> position ^ 2 == vstd::prelude::sub(position, 2)) by (bit_vector);
    assert((position / 2) % 2 != 0 ==> position >= 2) by (bit_vector);
    position ^ 2
}

/// Height of the smallest perfect binary tree able to hold `n` leaves: the
/// smallest `e` with `2^e >= n` (0 for no leaves or one leaf).
pub fn tree_height(n: u64) -> (r: u8)
    ensures
        r == tree_height_of(n as nat),
        r <= 64,
{
    let mut e: u8 = 0;
    while e < 64 && (1u64 << e) < n
        invariant
            e <= 64,
            e == 0 || pow2((e - 1) as nat) < n,
        decreases 64 - e,
    {
        proof {
            lemma_one_shl(e as u64);
        }
        e += 1;
    }
    proof {
        if e < 64 {
            lemma_one_shl(e as u64);
        }
        vstd::arithmetic::power2::lemma2_to64();
        lemma_tree_height_unique(n as nat, e as nat);
    }
    e
}

/// Roots of the forest of `leaves` leaves, with their heights: candidate
/// heights are scanned from `forest_height` down to 0, and each tree found is
/// appended, so the tallest tree comes first. A tree's root is the ancestor,
/// `height` levels up, of its first leaf. The leaves must fit the address
/// space: fewer than `2^(forest_height+1)`.
pub fn get_tops_reverse(leaves: u64, forest_height: u8) -> (r: (Vec<u64>, Vec<u8>))
    requires
        forest_height <= 62,
        (leaves as nat) < pow2(forest_height as nat + 1),
    ensures
        r.0@.len() == r.1@.len(),
        r.1@.map_values(|x: u8| x as nat) == tree_heights(leaves as nat, 0, forest_height as nat),
        forall|i: int|
            0 <= i < r.0@.len() ==> r.0@[i] == root_of(leaves as nat, r.1@[i] as nat, forest_height as nat),
{
    let mut position: u64 = 0;
    let mut height: u8 = forest_height;
    let mut tops: Vec<u64> = Vec::new();
    let mut heights: Vec<u8> = Vec::new();
    proof {
        lemma_pow2_pos(forest_height as nat + 1);
        vstd::arithmetic::div_mod::lemma_basic_div(leaves as int, pow2(forest_height as nat + 1) as int);
        assert(leaves_above(leaves as nat, forest_height as nat) == 0);
        assert(heights@.map_values(|x: u8| x as nat) =~= seq![]);
    }
    loop
        invariant_except_break
            height <= forest_height,
            position == leaves_above(leaves as nat, height as nat),
            heights@.map_values(|x: u8| x as nat) == tree_heights(leaves as nat, height as nat + 1, forest_height as nat),
        invariant
            forest_height <= 62,
            tops@.len() == heights@.len(),
            forall|i: int|
                0 <= i < tops@.len() ==> tops@[i] == root_of(leaves as nat, heights@[i] as nat, forest_height as nat),
        ensures
            tops@.len() == heights@.len(),
            heights@.map_values(|x: u8| x as nat) == tree_heights(leaves as nat, 0, forest_height as nat),
        decreases height,
    {
        proof {
            lemma_clear_below(leaves as nat, height as nat);
        }
        if position >= leaves {
            proof {
                lemma_no_bits_below(leaves as nat, 0, height as nat + 1, forest_height as nat);
            }
            break;
        }
        let bit: u64 = 1u64 << height as u64;
        proof {
            lemma_one_shl(height as u64);
            lemma_test_bit(leaves, height as u64);
        }
        if bit & leaves != 0 {
            let top = up_many(position, height, forest_height);
            let ghost before = heights@;
            tops.push(top);
            heights.push(height);
            position += bit;
            proof {
                assert(heights@.map_values(|x: u8| x as nat) =~= before.map_values(|x: u8| x as nat).push(height as nat));
            }
        }
        if height == 0 {
            proof {
                vstd::arithmetic::power2::lemma2_to64();
            }
            break;
        }
        height -= 1;
    }
    (tops, heights)
}

/// Whether `pos` names a live node of the forest of `num_leaves` leaves: a
/// leaf below `num_leaves`, or a node all of whose leaves are. Above row 0 the
/// node is followed down its right-hand children to its last leaf, which is
/// compared with `num_leaves`. Every `u64` is a leaf position of a forest of
/// height 64, which needs no descent.
pub fn in_forest(pos: u64, num_leaves: u64) -> (r: bool)
    ensures
        r == in_forest_of(pos as nat, num_leaves as nat),
{
    let h = tree_height(num_leaves);
    let ghost th = h as nat;
    proof {
        vstd::arithmetic::power2::lemma2_to64();
        lemma_row_start(0, th + 1, th);
        lemma_row_start(1, th + 1, th);
        lemma_pow2_strictly_increases(th, th + 1);
    }
    if pos < num_leaves {
        proof {
            crate::laws::lemma_leaf_in_forest(pos as nat, num_leaves as nat);
        }
        return true;
    }
    if h == 64 {
        proof {
            assert(in_row(pos as int, 0, th));
            lemma_in_forest_at(pos as nat, num_leaves as nat, 0);
        }
        return false;
    }
    let hh = h as u64;
    proof {
        lemma_one_shl(hh);
    }
    let marker: u64 = 1u64 << hh;
    let mask: u64 = marker - 1 + marker;
    if pos >= mask {
        proof {
            lemma_past_span(pos as nat, num_leaves as nat);
        }
        return false;
    }
    let mut p: u64 = pos;
    let ghost mut row: nat = row_from(pos as int, th, 0);
    proof {
        lemma_in_forest_at(pos as nat, num_leaves as nat, row);
    }
    while p & marker != 0
        invariant
            th == tree_height_of(num_leaves as nat),
            th <= 63,
            hh == th,
            marker == pow2(th),
            mask == pow2(th + 1) - 1,
            mask == vstd::prelude::add(low_mask(hh), 1u64 << hh),
            marker == 1u64 << hh,
            row <= th,
            in_row(p as int, row, th),
            p < mask,
            in_forest_of(pos as nat, num_leaves as nat) == subtree_full(p as int, row, th, num_leaves as nat),
        decreases row,
    {
        proof {
            lemma_descend_bits(p, hh);
            lemma_row_start(0, row, th);
            lemma_right_child(p as int, row, th, num_leaves as nat);
            lemma_row_start((row - 1) as nat, th + 1, th);
        }
        p = ((p << 1u64) & mask) | 1;
        proof {
            row = (row - 1) as nat;
        }
    }
    proof {
        lemma_descend_bits(p, hh);
        if row > 0 {
            lemma_row_start(1, row, th);
        }
        lemma_row_start(0, 0, th);
        vstd::arithmetic::power2::lemma2_to64();
        assert(row == 0);
        assert((p as int - row_start(row, th) + 1) * pow2(row) == p as int + 1) by (nonlinear_arith)
            requires pow2(row) == 1, row_start(row, th) == 0;
        assert(subtree_full(p as int, row, th, num_leaves as nat) == (p < num_leaves));
    }
    p < num_leaves
}

/// Position of the root of height `h` in the forest of `leaves` leaves and
/// height `forest_height`. No check is made that a tree of that height exists
/// (bit `h` of `leaves` is set); for height 0 the row marker is empty.
pub fn top_pos(leaves: u64, h: u8, forest_height: u8) -> (r: u64)
    requires
        forest_height <= 62,
        h <= forest_height,
    ensures
        r == root_of(leaves as nat, h as nat, forest_height as nat),
{
    let fh = forest_height as u64;
    let t = h as u64;
    proof {
        let k = (fh - t) as u64;
        let q = leaves as nat / pow2(t as nat + 1);
        lemma_window_mask(fh);
        lemma_top_pos_bits(leaves, t, fh);
        lemma_one_shl(k);
        lemma_one_shl((k + 1) as u64);
        lemma_and_low(leaves >> (t + 1) as u64, k);
        lemma_u64_shr_is_div(leaves, (t + 1) as u64);
        lemma_pow2_pos(k as nat);
        lemma_pow2_pos(t as nat);
        lemma_pow2_unfold(k as nat + 1);
        lemma_pow2_unfold(t as nat + 1);
        if k + 1 < fh + 1 {
            lemma_pow2_strictly_increases(k as nat + 1, fh as nat + 1);
        }
        assert(window_mask(fh) - low_mask((k + 1) as u64) == row_start(t as nat, fh as nat));
        vstd::arithmetic::div_mod::lemma_truncate_middle(q as int, 2, pow2(k as nat) as int);
        assert(leaves_above(leaves as nat, t as nat) == (2 * q) * pow2(t as nat)) by (nonlinear_arith)
            requires
                leaves_above(leaves as nat, t as nat) == q * pow2(t as nat + 1),
                pow2(t as nat + 1) == 2 * pow2(t as nat),
        ;
        vstd::arithmetic::div_mod::lemma_div_by_multiple((2 * q) as int, pow2(t as nat) as int);
    }
    let mask: u64 = (2u64 << fh) - 1;
    let before = leaves & (mask << (t + 1));
    let marker: u64 = if t == 0 { 0 } else { mask << (fh - (t - 1)) };
    let shifted = (before >> t) | marker;
    shifted & mask
}

/// The `width` low bytes of `value`, most significant first.
fn encode_be(value: u64, width: u64) -> (r: Vec<u8>)
    requires
        1 <= width <= 8,
    ensures
        r@ == be_bytes(value as nat, width as nat),
{
    let mut bytes: Vec<u8> = Vec::new();
    let mut k: u64 = 0;
    proof {
        let start = value as nat / pow2((8 * width) as nat);
        lemma_pow2_pos((8 * width) as nat);
        assert(bytes@ =~= be_bytes(start, 0));
    }
    while k < width
        invariant
            k <= width <= 8,
            bytes@ == be_bytes(value as nat / pow2((8 * (width - k)) as nat), k as nat),
        decreases width - k,
    {
        let s: u64 = 8 * (width - 1 - k);
        proof {
            lemma_u64_shr_is_div(value, s);
            lemma_pow2_pos(s as nat);
            lemma_pow2_pos((s + 8) as nat);
            vstd::arithmetic::power2::lemma2_to64();
            vstd::arithmetic::power2::lemma_pow2_adds(s as nat, 8);
            vstd::arithmetic::div_mod::lemma_div_denominator(value as int, pow2(s as nat) as int, 256);
        }
        bytes.push(((value >> s) % 256) as u8);
        k += 1;
    }
    proof {
        vstd::arithmetic::power2::lemma2_to64();
        assert(value as nat / pow2(0) == value);
    }
    bytes
}

/// The value that `bytes` spell, most significant first.
fn decode_be(bytes: &Vec<u8>) -> (r: u64)
    requires
        bytes@.len() <= 8,
    ensures
        r == be_value(bytes@),
        (r as nat) < pow2((8 * bytes@.len()) as nat),
{
    let mut acc: u64 = 0;
    let mut i: usize = 0;
    proof {
        vstd::arithmetic::power2::lemma2_to64();
    }
    while i < bytes.len()
        invariant
            i <= bytes@.len() <= 8,
            acc == be_value(bytes@.subrange(0, i as int)),
            (acc as nat) < pow2((8 * i) as nat),
        decreases bytes@.len() - i,
    {
        proof {
            vstd::arithmetic::power2::lemma2_to64();
            vstd::arithmetic::power2::lemma_pow2_adds((8 * i) as nat, 8);
            vstd::arithmetic::power2::lemma2_to64_rest();
            if i < 7 {
                lemma_pow2_strictly_increases((8 * i) as nat, 56);
            }
            assert(bytes@.subrange(0, i + 1).drop_last() =~= bytes@.subrange(0, i as int));
            assert(acc * 256 + 255 < pow2((8 * i) as nat) * 256) by (nonlinear_arith)
                requires (acc as nat) < pow2((8 * i) as nat);
        }
        acc = acc * 256 + bytes[i] as u64;
        i += 1;
    }
    proof {
        assert(bytes@.subrange(0, i as int) =~= bytes@);
    }
    acc
}

/// Big-endian bytes of a 32-bit integer.
pub fn u32_b(value: u32) -> (r: Vec<u8>)
    ensures
        r@ == be_bytes(value as nat, 4),
{
    encode_be(value as u64, 4)
}

/// The 32-bit integer that four big-endian bytes spell; any other length
/// gives `0xFFFF_FFFF`.
pub fn b_u32(value: Vec<u8>) -> (r: u32)
    ensures
        value@.len() == 4 ==> r == be_value(value@),
        value@.len() != 4 ==> r == u32::MAX,
{
    if value.len() != 4 {
        return 0xffff_ffff;
    }
    let v = decode_be(&value);
    proof {
        vstd::arithmetic::power2::lemma2_to64();
    }
    v as u32
}

/// Big-endian bytes of a 64-bit integer.
pub fn u64_b(value: u64) -> (r: Vec<u8>)
    ensures
        r@ == be_bytes(value as nat, 8),
{
    encode_be(value, 8)
}

/// The 64-bit integer that eight big-endian bytes spell; any other length
/// gives `0xFFFF_FFFF_FFFF_FFFF`.
pub fn b_u64(value: Vec<u8>) -> (r: u64)
    ensures
        value@.len() == 8 ==> r == be_value(value@),
        value@.len() != 8 ==> r == u64::MAX,
{
    if value.len() != 8 {
        return 0xffff_ffff_ffff_ffff;
    }
    decode_be(&value)
}

} // verus!
