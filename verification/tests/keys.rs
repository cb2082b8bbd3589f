use fintech::key::{from_key, to_key};

#[test]
fn keys_order_as_the_numbers_do() {
    let numbers = [
        f64::NEG_INFINITY,
        -1.0e300,
        -2.5,
        -1.0,
        -0.35000285888869426,
        -1.0e-300,
        -0.0,
        0.0,
        1.0e-300,
        0.00027630670043749607,
        0.1,
        0.21,
        1.0,
        4.125857367549767,
        1.0e300,
        f64::INFINITY,
    ];
    for pair in numbers.windows(2) {
        assert!(to_key(pair[0].to_bits()) < to_key(pair[1].to_bits()));
    }
}

#[test]
fn key_and_word_undo_each_other() {
    for x in [0.0f64, -0.0, 0.1, -0.1, 121.0, -7.25, f64::MAX, f64::MIN, f64::MIN_POSITIVE] {
        assert_eq!(from_key(to_key(x.to_bits())), x.to_bits());
    }
    for key in [0u64, 1, 0x7fff_ffff_ffff_ffff, 0x8000_0000_0000_0000, u64::MAX] {
        assert_eq!(to_key(from_key(key)), key);
    }
}

#[test]
fn key_of_known_words() {
    assert_eq!(to_key(0), 0x8000_0000_0000_0000);
    assert_eq!(to_key(0x8000_0000_0000_0000), 0x7fff_ffff_ffff_ffff);
    assert_eq!(to_key(1.0f64.to_bits()), 0xbff0_0000_0000_0000);
    assert_eq!(to_key((-1.0f64).to_bits()), 0x400f_ffff_ffff_ffff);
    assert_eq!(from_key(0xbff0_0000_0000_0000), 1.0f64.to_bits());
}
