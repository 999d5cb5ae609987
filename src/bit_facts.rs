use vstd::prelude::*;

verus! {

use vstd::arithmetic::power2::{pow2, lemma_pow2_unfold, lemma_pow2_adds, lemma_pow2_pos, lemma2_to64_rest, lemma_pow2_strictly_increases};
use vstd::arithmetic::div_mod::{lemma_truncate_middle, lemma_mod_multiples_basic};
use vstd::bits::{lemma_u64_shl_is_mul, lemma_u64_shr_is_div, lemma_u64_low_bits_mask_is_mod, low_bits_mask, lemma_u64_pow2_no_overflow};

/// `1 << k` is the k-th power of two.
pub proof fn lemma_one_shl(k: u64)
    requires
        k < 64,
    ensures
        (1u64 << k) as nat == pow2(k as nat),
        pow2(k as nat) <= 0x8000_0000_0000_0000,
{
    lemma_u64_pow2_no_overflow(k as nat);
    lemma_u64_shl_is_mul(1, k);
    lemma2_to64_rest();
    if k < 63 {
        lemma_pow2_strictly_increases(k as nat, 63);
    }
}

/// The window mask `(2 << h) - 1` holds the low `h + 1` bits.
pub proof fn lemma_window_mask(h: u64)
    requires
        h <= 62,
    ensures
        (2u64 << h) as nat == pow2((h + 1) as nat),
        vstd::prelude::sub(2u64 << h, 1) as nat == low_bits_mask((h + 1) as nat),
        2 <= pow2((h + 1) as nat) <= 0x8000_0000_0000_0000,
{
    lemma_pow2_unfold((h + 1) as nat);
    assert(2u64 << h == 1u64 << vstd::prelude::add(h, 1)) by (bit_vector)
        requires
            h <= 62,
    ;
    lemma_one_shl((h + 1) as u64);
    lemma_pow2_pos((h + 1) as nat);
}

/// `x & (2^k - 1)` keeps the remainder modulo `2^k`.
pub proof fn lemma_and_low(x: u64, k: u64)
    requires
        k < 64,
    ensures
        (x & vstd::prelude::sub(1u64 << k, 1)) as nat == x as nat % pow2(k as nat),
{
    lemma_one_shl(k);
    lemma_u64_low_bits_mask_is_mod(x, k as nat);
    lemma_pow2_pos(k as nat);
}

/// Shifting left by `d` and keeping the low `h + 1` bits multiplies by `2^d`
/// modulo `2^(h+1)`.
pub proof fn lemma_shl_in_window(p: u64, d: u64, h: u64)
    requires
        h <= 62,
        d < 64,
    ensures
        ((p << d) & vstd::prelude::sub(2u64 << h, 1)) as int == (p as int * pow2(d as nat)) % pow2((h + 1) as nat) as int,
{
    lemma_window_mask(h);
    lemma_pow2_pos(d as nat);
    if d > h {
        assert((p << d) & vstd::prelude::sub(2u64 << h, 1) == 0) by (bit_vector)
            requires
                h <= 62,
                h < d < 64,
        ;
        lemma_pow2_adds((h + 1) as nat, (d - h - 1) as nat);
        assert(p as int * pow2(d as nat) == (p as int * pow2((d - h - 1) as nat)) * pow2((h + 1) as nat)) by (nonlinear_arith)
            requires pow2(d as nat) == pow2((h + 1) as nat) * pow2((d - h - 1) as nat);
        lemma_mod_multiples_basic(p as int * pow2((d - h - 1) as nat), pow2((h + 1) as nat) as int);
    } else {
        let k: u64 = (h + 1 - d) as u64;
        assert((p << d) & vstd::prelude::sub(2u64 << h, 1) == (p & vstd::prelude::sub(1u64 << vstd::prelude::sub(vstd::prelude::add(h, 1), d), 1)) << d) by (bit_vector)
            requires
                h <= 62,
                d <= h,
        ;
        let lo = p & vstd::prelude::sub(1u64 << k, 1);
        lemma_and_low(p, k);
        lemma_pow2_pos(k as nat);
        lemma_pow2_adds(d as nat, k as nat);
        assert(lo * pow2(d as nat) < pow2(d as nat) * pow2(k as nat)) by (nonlinear_arith)
            requires lo < pow2(k as nat), pow2(d as nat) > 0;
        lemma_u64_shl_is_mul(lo, d);
        lemma_truncate_middle(p as int, pow2(d as nat) as int, pow2(k as nat) as int);
        assert(p as int * pow2(d as nat) == pow2(d as nat) * p as int) by (nonlinear_arith);
        assert(lo * pow2(d as nat) == pow2(d as nat) * lo) by (nonlinear_arith);
    }
}

} // verus!

verus! {

/// The window mask `(2 << h) - 1`, as the machine computes it.
pub open spec fn window_mask(h: u64) -> u64 {
    vstd::prelude::sub(2u64 << h, 1)
}

/// `(1 << k) - 1`, as the machine computes it.
pub open spec fn low_mask(k: u64) -> u64 {
    vstd::prelude::sub(1u64 << k, 1)
}

/// The high bits that mark row `rise`: none for row 0.
pub open spec fn row_marker(h: u64, rise: u64) -> u64 {
    if rise == 0 {
        0
    } else {
        window_mask(h) << vstd::prelude::sub(h, vstd::prelude::sub(rise, 1))
    }
}

/// `(p >> rise | marker) & mask` splits into the marker of row `rise` and
/// the shifted position kept below it.
pub proof fn lemma_up_many_bits(p: u64, rise: u64, h: u64)
    by (bit_vector)
    requires
        h <= 62,
        rise <= h + 1,
    ensures
        ((p >> rise) | row_marker(h, rise)) & window_mask(h) == vstd::prelude::add(
            (p >> rise) & low_mask(vstd::prelude::sub(vstd::prelude::add(h, 1), rise)),
            vstd::prelude::sub(window_mask(h), low_mask(vstd::prelude::sub(vstd::prelude::add(h, 1), rise))),
        ),
{
}

/// Setting bit `h` of a value below `2^h` adds `2^h`.
pub proof fn lemma_or_high_bit(x: u64, h: u64)
    requires
        h < 64,
        (x as nat) < pow2(h as nat),
    ensures
        (x | (1u64 << h)) as nat == x as nat + pow2(h as nat),
{
    lemma_one_shl(h);
    assert(x < (1u64 << h) ==> (x | (1u64 << h)) == vstd::prelude::add(x, 1u64 << h)) by (bit_vector)
        requires
            h < 64,
    ;
    lemma2_to64_rest();
}

/// Testing `1 << k` against `x` reads bit `k`.
pub proof fn lemma_test_bit(x: u64, k: u64)
    requires
        k < 64,
    ensures
        (((1u64 << k) & x) != 0) == (((x as nat) / pow2(k as nat)) % 2 == 1),
{
    assert((((1u64 << k) & x) != 0) == ((x >> k) % 2 == 1)) by (bit_vector)
        requires
            k < 64,
    ;
    lemma_u64_shr_is_div(x, k);
}

} // verus!

verus! {

use crate::model::{has_bit, leaves_above, tree_heights};
use vstd::arithmetic::div_mod::{lemma_div_denominator, lemma_fundamental_div_mod, lemma_div_by_multiple};

/// Clearing the bits of `x` below `j` gives the bits above `j`, plus bit `j`.
pub proof fn lemma_clear_below(x: nat, j: nat)
    ensures
        (x / pow2(j)) * pow2(j) == leaves_above(x, j) + (if has_bit(x, j) { pow2(j) } else { 0 }),
        (x / pow2(j)) * pow2(j) <= x,
        leaves_above(x, j) <= x,
{
    lemma_pow2_pos(j);
    lemma_pow2_unfold(j + 1);
    let q = x / pow2(j);
    lemma_div_denominator(x as int, pow2(j) as int, 2);
    assert(pow2(j) * 2 == pow2(j + 1)) by (nonlinear_arith)
        requires pow2(j + 1) == 2 * pow2(j);
    assert(x / pow2(j + 1) == q / 2);
    lemma_fundamental_div_mod(q as int, 2);
    assert(q * pow2(j) == (q / 2) * pow2(j + 1) + (q % 2) * pow2(j)) by (nonlinear_arith)
        requires q == 2 * (q / 2) + q % 2, pow2(j + 1) == 2 * pow2(j);
    lemma_fundamental_div_mod(x as int, pow2(j) as int);
    lemma_fundamental_div_mod(x as int, pow2(j + 1) as int);
}

/// Where `x` has no bit below `m`, the heights from `lo <= m` are those from `m`.
pub proof fn lemma_no_bits_below(x: nat, lo: nat, m: nat, hi: nat)
    requires
        lo <= m <= hi + 1,
        (x / pow2(m)) * pow2(m) == x,
    ensures
        tree_heights(x, lo, hi) == tree_heights(x, m, hi),
    decreases m - lo,
{
    if lo < m {
        lemma_no_bits_below(x, lo + 1, m, hi);
        let d = (m - lo) as nat;
        let big = x / pow2(m);
        lemma_pow2_adds(lo, d);
        lemma_pow2_pos(lo);
        lemma_pow2_unfold(d);
        let rest = pow2((d - 1) as nat);
        assert(x == (big * 2 * rest) * pow2(lo)) by (nonlinear_arith)
            requires
                x == big * pow2(m),
                pow2(m) == pow2(lo) * pow2(d),
                pow2(d) == 2 * rest,
        ;
        lemma_div_by_multiple((big * 2 * rest) as int, pow2(lo) as int);
        assert((big * rest * 2) % 2 == 0) by {
            lemma_mod_multiples_basic((big * rest) as int, 2);
        }
        assert(big * 2 * rest == big * rest * 2) by (nonlinear_arith);
        assert(!has_bit(x, lo));
    }
}

} // verus!

verus! {

/// One step of the right-hand descent in `in_forest`: with `marker = 2^h` and
/// `mask = 2^(h+1) - 1`, the marker bit tells whether `p` is above row 0, and
/// `((p << 1) & mask) | 1` is `2 * (p - 2^h) + 1`.
pub proof fn lemma_descend_bits(p: u64, h: u64)
    by (bit_vector)
    requires
        h <= 63,
        p < vstd::prelude::add(low_mask(h), 1u64 << h),
    ensures
        ((p & (1u64 << h)) != 0) == (p >= (1u64 << h)),
        p >= (1u64 << h) ==> ((p << 1) & vstd::prelude::add(low_mask(h), 1u64 << h)) | 1 == vstd::prelude::add(
            vstd::prelude::mul(vstd::prelude::sub(p, 1u64 << h), 2),
            1,
        ),
{
}

} // verus!

verus! {

/// `top_pos` in bits: the leaf-count bits above `t`, shifted down to offset
/// `2 * (leaves >> (t + 1))` within row `t`, under the marker of row `t`.
pub proof fn lemma_top_pos_bits(leaves: u64, t: u64, h: u64)
    by (bit_vector)
    requires
        h <= 62,
        t <= h,
    ensures
        (((leaves & (window_mask(h) << vstd::prelude::add(t, 1))) >> t) | row_marker(h, t)) & window_mask(h)
            == vstd::prelude::add(
            vstd::prelude::mul((leaves >> vstd::prelude::add(t, 1)) & low_mask(vstd::prelude::sub(h, t)), 2),
            vstd::prelude::sub(window_mask(h), low_mask(vstd::prelude::sub(vstd::prelude::add(h, 1), t))),
        ),
{
}

} // verus!
