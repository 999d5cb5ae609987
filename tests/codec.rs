use forest_util::util;

#[test]
fn u64_b_simple() {
    assert_eq!(util::u64_b(10), [0, 0, 0, 0, 0, 0, 0, 10]);
}

#[test]
fn b_u64_simple() {
    assert_eq!(util::b_u64(vec![0, 0, 0, 0, 0, 0, 0, 10]), 10);
}

#[test]
fn u32_b_simple() {
    assert_eq!(util::u32_b(10), [0, 0, 0, 10]);
}

#[test]
fn b_u32_simple() {
    assert_eq!(util::b_u32(vec![0, 0, 0, 10]), 10);
}

#[test]
fn u32_b_byte_order() {
    assert_eq!(util::u32_b(0x0102_0304), vec![1, 2, 3, 4]);
    assert_eq!(util::u32_b(u32::MAX), vec![0xff, 0xff, 0xff, 0xff]);
}

#[test]
fn u64_b_byte_order() {
    assert_eq!(util::u64_b(0x0102_0304_0506_0708), vec![1, 2, 3, 4, 5, 6, 7, 8]);
    assert_eq!(util::u64_b(0), vec![0; 8]);
}

#[test]
fn b_u32_reads_big_endian() {
    assert_eq!(util::b_u32(vec![0xde, 0xad, 0xbe, 0xef]), 0xdead_beef);
}

#[test]
fn b_u64_reads_big_endian() {
    assert_eq!(util::b_u64(vec![1, 2, 3, 4, 5, 6, 7, 8]), 0x0102_0304_0506_0708);
}

#[test]
fn b_u32_wrong_length_gives_sentinel() {
    assert_eq!(util::b_u32(vec![0, 0, 10]), 0xffff_ffff);
    assert_eq!(util::b_u32(vec![]), 0xffff_ffff);
    assert_eq!(util::b_u32(vec![0, 0, 0, 0, 1]), 0xffff_ffff);
}

#[test]
fn b_u64_wrong_length_gives_sentinel() {
    assert_eq!(util::b_u64(vec![0, 0, 0, 10]), 0xffff_ffff_ffff_ffff);
    assert_eq!(util::b_u64(vec![0; 9]), 0xffff_ffff_ffff_ffff);
}

#[test]
fn codec_round_trips() {
    for x in [0u32, 1, 10, 0x8000_0000, 0x1234_5678, u32::MAX] {
        assert_eq!(util::b_u32(util::u32_b(x)), x);
    }
    for x in [0u64, 1, 10, 0x8000_0000_0000_0000, 0x0123_4567_89ab_cdef, u64::MAX] {
        assert_eq!(util::b_u64(util::u64_b(x)), x);
    }
}
