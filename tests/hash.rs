use qt_ts_tools::hash::SysVHasher;

#[test]
fn basic_test() {
    // This matches Qt's encoding
    let expected_raw: [u8; 4] = [0x07, 0xa6, 0xc8, 0x95];
    let expected = u32::from_be_bytes(expected_raw);
    let actual = SysVHasher::new().hash("source".as_bytes()).compute();

    assert_eq!(actual, expected);
}

#[test]
fn hash_of_empty_input_is_one() {
    assert_eq!(SysVHasher::new().hash(&[]).compute(), 1);
}

#[test]
fn hash_of_short_inputs() {
    assert_eq!(SysVHasher::new().hash(b"a").compute(), 0x61);
    assert_eq!(SysVHasher::new().hash(b"Hi").compute(), 0x4e9);
}

#[test]
fn hash_folds_high_nibble_and_masks() {
    // Eight bytes push the accumulator past 28 bits, exercising the fold and the mask.
    let mut acc: u32 = 0;
    for b in b"abcdefghij" {
        acc = acc.wrapping_mul(16).wrapping_add(*b as u32);
        acc ^= (acc >> 24) & 0xf0;
    }
    acc &= 0x0fff_ffff;
    assert_eq!(SysVHasher::new().hash(b"abcdefghij").compute(), acc);
    assert_ne!(acc, 0);
}

#[test]
fn hash_in_two_calls_masks_between_calls() {
    let mut h = SysVHasher::new();
    h.hash(b"sour");
    let split = h.hash(b"ce").compute();
    let whole = SysVHasher::new().hash(b"source").compute();
    // Each call masks at its end; on this short input the mask changes nothing.
    assert_eq!(split, whole);
}
