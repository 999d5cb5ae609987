use forest_util::util::{child, child_many, cousin, get_tops_reverse, in_forest, top_pos, tree_height, up1, up_many};

#[test]
fn child_shifts_within_window() {
    assert_eq!(child(5, 3), 10);
    assert_eq!(child(12, 3), 8);
    assert_eq!(child(9, 3), 2);
    assert_eq!(child(0, 0), 0);
}

#[test]
fn child_many_descends_left() {
    assert_eq!(child_many(1, 2, 3), 4);
    assert_eq!(child_many(14, 3, 3), 0);
    assert_eq!(child_many(3, 5, 3), 0);
    assert_eq!(child_many(12, 1, 3), child(12, 3));
    assert_eq!(child_many(12, 2, 3), child(child(12, 3), 3));
}

#[test]
fn up1_sets_row_marker() {
    assert_eq!(up1(8, 3), 12);
    assert_eq!(up1(0, 3), 8);
    assert_eq!(up1(3, 3), 9);
    assert_eq!(up1(12, 3), 14);
}

#[test]
fn up1_of_child_returns_to_node() {
    for h in [1u8, 3, 10] {
        let start = 1u64 << h;
        for p in start..(start << 1) {
            assert_eq!(up1(child(p, h), h), p);
        }
    }
    // a leaf is not recovered: it lands one marker higher
    assert_eq!(up1(child(0, 1), 1), 2);
}

#[test]
fn up_many_reaches_ancestor() {
    assert_eq!(up_many(0, 2, 3), 12);
    assert_eq!(up_many(4, 1, 3), 10);
    assert_eq!(up_many(6, 4, 3), 15);
    assert_eq!(up_many(0, 3, 3), 14);
}

#[test]
fn up_many_zero_rise_is_identity() {
    assert_eq!(up_many(5, 0, 3), 5);
    assert_eq!(up_many(13, 0, 3), 13);
}

#[test]
fn up_many_matches_repeated_up1() {
    let h = 4u8;
    for p in 0..(2u64 << h) {
        let mut q = p;
        for rise in 1..=(h + 1) {
            q = up1(q, h);
            assert_eq!(up_many(p, rise, h), q);
        }
    }
}

#[test]
fn cousin_flips_bit_one() {
    assert_eq!(cousin(0), 2);
    assert_eq!(cousin(2), 0);
    assert_eq!(cousin(5), 7);
    assert_eq!(cousin(7), 5);
    assert_eq!(cousin(u64::MAX), u64::MAX - 2);
}

#[test]
fn cousin_is_an_involution() {
    for p in [0u64, 1, 2, 3, 12, 13, 1 << 40, u64::MAX - 1, u64::MAX] {
        assert_eq!(cousin(cousin(p)), p);
    }
}

#[test]
fn tree_height_values() {
    assert_eq!(tree_height(0), 0);
    assert_eq!(tree_height(1), 0);
    assert_eq!(tree_height(2), 1);
    assert_eq!(tree_height(3), 2);
    assert_eq!(tree_height(4), 2);
    assert_eq!(tree_height(5), 3);
    assert_eq!(tree_height(8), 3);
    assert_eq!(tree_height(9), 4);
    assert_eq!(tree_height(1 << 63), 63);
    assert_eq!(tree_height((1 << 63) + 1), 64);
    assert_eq!(tree_height(u64::MAX), 64);
}

#[test]
fn tree_height_is_smallest_power_at_least_n() {
    for n in 1u64..2000 {
        let e = tree_height(n) as u32;
        assert!(1u64 << e >= n);
        if e > 0 {
            assert!(1u64 << (e - 1) < n);
        }
    }
}

#[test]
fn top_pos_values() {
    assert_eq!(top_pos(5, 2, 3), 12);
    assert_eq!(top_pos(5, 0, 3), 4);
    assert_eq!(top_pos(6, 1, 3), 10);
    assert_eq!(top_pos(8, 3, 3), 14);
}

#[test]
fn tops_of_five_leaves() {
    assert_eq!(tree_height(5), 3);
    let (tops, heights) = get_tops_reverse(5, 3);
    assert_eq!(heights, vec![2, 0]);
    assert_eq!(tops, vec![up_many(0, 2, 3), 4]);
    assert_eq!(tops, vec![12, 4]);
}

#[test]
fn tops_other_counts() {
    assert_eq!(get_tops_reverse(0, 3), (vec![], vec![]));
    assert_eq!(get_tops_reverse(6, 3), (vec![12, 10], vec![2, 1]));
    assert_eq!(get_tops_reverse(8, 3), (vec![14], vec![3]));
    assert_eq!(get_tops_reverse(7, 3), (vec![12, 10, 6], vec![2, 1, 0]));
}

#[test]
fn tops_agree_with_top_pos() {
    let h = 5u8;
    for leaves in 0u64..64 {
        let (tops, heights) = get_tops_reverse(leaves, h);
        assert_eq!(tops.len(), heights.len());
        for (t, ht) in tops.iter().zip(heights.iter()) {
            assert_eq!(*t, top_pos(leaves, *ht, h));
        }
    }
}

#[test]
fn in_forest_five_leaves() {
    let expected = [
        true, true, true, true, true, false, false, false, // row 0
        true, true, false, false, // row 1
        true, false, // row 2
        false, // row 3
        false, false,
    ];
    for (pos, want) in expected.iter().enumerate() {
        assert_eq!(in_forest(pos as u64, 5), *want, "position {}", pos);
    }
}

#[test]
fn in_forest_no_leaves() {
    assert!(!in_forest(0, 0));
    assert!(!in_forest(1, 0));
}

#[test]
fn in_forest_leaves_below_count() {
    for n in 1u64..100 {
        for pos in 0..n {
            assert!(in_forest(pos, n));
        }
    }
}

#[test]
fn in_forest_past_span() {
    for n in 0u64..100 {
        let h = tree_height(n) as u32;
        let end = (1u64 << (h + 1)) - 1;
        for pos in end..end + 20 {
            assert!(!in_forest(pos, n));
        }
    }
}

#[test]
fn in_forest_large_counts() {
    assert!(in_forest(u64::MAX - 1, u64::MAX));
    assert!(!in_forest(u64::MAX, u64::MAX));
    assert!(!in_forest((1 << 63) + 1, (1 << 63) + 1));
    assert!(in_forest(1 << 63, (1 << 62) + 1));
    assert!(in_forest((1 << 63) + 1, (1 << 62) + 1));
    assert!(in_forest((1 << 63) + (1 << 61) - 1, (1 << 62) + 1));
    assert!(!in_forest((1 << 63) + (1 << 61), (1 << 62) + 1));
    assert!(!in_forest(u64::MAX, (1 << 62) + 1));
}
