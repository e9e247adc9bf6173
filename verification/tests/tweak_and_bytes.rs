use xts_mode::tweak::get_next_tweak;
use xts_mode::utils::{load_block, store, xor};

/// Multiplication by x in GF(2^128) on the number that the bytes spell,
/// least significant byte first.
fn reference_double(t: [u8; 16]) -> [u8; 16] {
    let v = u128::from_le_bytes(t);
    let shifted = v << 1;
    let doubled = if v >> 127 == 1 { shifted ^ 0x87 } else { shifted };
    doubled.to_le_bytes()
}

#[test]
fn next_tweak_of_one_is_two() {
    let mut t = [0u8; 16];
    t[0] = 1;
    get_next_tweak(&mut t);
    let mut expected = [0u8; 16];
    expected[0] = 2;
    assert_eq!(t, expected);
}

#[test]
fn next_tweak_of_zero_is_zero() {
    let mut t = [0u8; 16];
    get_next_tweak(&mut t);
    assert_eq!(t, [0u8; 16]);
}

#[test]
fn next_tweak_carries_into_the_next_byte() {
    let mut t = [0u8; 16];
    t[0] = 0x80;
    t[7] = 0xc1;
    get_next_tweak(&mut t);
    let mut expected = [0u8; 16];
    expected[1] = 0x01;
    expected[7] = 0x82;
    expected[8] = 0x01;
    assert_eq!(t, expected);
}

#[test]
fn next_tweak_folds_the_top_bit_into_the_lowest_byte() {
    let mut t = [0u8; 16];
    t[15] = 0x80;
    get_next_tweak(&mut t);
    let mut expected = [0u8; 16];
    expected[0] = 0x87;
    assert_eq!(t, expected);
}

#[test]
fn next_tweak_of_all_ones() {
    let mut t = [0xffu8; 16];
    get_next_tweak(&mut t);
    let mut expected = [0xffu8; 16];
    expected[0] = 0x79;
    assert_eq!(t, expected);
}

#[test]
fn next_tweak_matches_the_field_doubling() {
    let mut t: [u8; 16] = [
        0x66, 0xe9, 0x4b, 0xd4, 0xef, 0x8a, 0x2c, 0x3b, 0x88, 0x4c, 0xfa, 0x59, 0xca, 0x34, 0x2b,
        0x2e,
    ];
    for _ in 0..300 {
        let expected = reference_double(t);
        get_next_tweak(&mut t);
        assert_eq!(t, expected);
    }
}

#[test]
fn next_tweak_comes_back_after_the_order_of_x_divides() {
    // 128 doublings of 1 give x^128, which is x^7 + x^2 + x + 1.
    let mut t = [0u8; 16];
    t[0] = 1;
    for _ in 0..128 {
        get_next_tweak(&mut t);
    }
    let mut expected = [0u8; 16];
    expected[0] = 0x87;
    assert_eq!(t, expected);
}

#[test]
fn xor_masks_each_byte() {
    let mut buf = [0x0fu8, 0xf0, 0xaa, 0x00];
    xor(&mut buf, &[0xff, 0xff, 0x55, 0x00]);
    assert_eq!(buf, [0xf0, 0x0f, 0xff, 0x00]);
}

#[test]
fn xor_twice_gives_the_bytes_back() {
    let bytes: [u8; 16] = [1, 2, 3, 4, 5, 6, 7, 8, 9, 10, 11, 12, 13, 14, 15, 16];
    let mask = [0x5au8; 16];
    let mut buf = bytes;
    xor(&mut buf, &mask);
    assert_ne!(buf, bytes);
    xor(&mut buf, &mask);
    assert_eq!(buf, bytes);
}

#[test]
fn xor_of_nothing_is_nothing() {
    let mut buf: [u8; 0] = [];
    xor(&mut buf, &[]);
    assert_eq!(buf.len(), 0);
}

#[test]
fn load_block_reads_sixteen_bytes_at_the_offset() {
    let data: Vec<u8> = (0u8..40).collect();
    let block = load_block(&data, 17);
    let expected: Vec<u8> = (17u8..33).collect();
    assert_eq!(block.to_vec(), expected);
    let first = load_block(&data, 0);
    assert_eq!(first[0], 0);
    assert_eq!(first[15], 15);
    let last = load_block(&data, 24);
    assert_eq!(last[15], 39);
}

#[test]
fn store_overwrites_only_its_range() {
    let mut data = [0u8; 10];
    store(&mut data, 3, &[7, 8, 9]);
    assert_eq!(data, [0, 0, 0, 7, 8, 9, 0, 0, 0, 0]);
    store(&mut data, 0, &[1]);
    store(&mut data, 9, &[2]);
    assert_eq!(data, [1, 0, 0, 7, 8, 9, 0, 0, 0, 2]);
    store(&mut data, 10, &[]);
    assert_eq!(data, [1, 0, 0, 7, 8, 9, 0, 0, 0, 2]);
}
