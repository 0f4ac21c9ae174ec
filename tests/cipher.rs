use vault_crypt::pins::{
    decapsulate, decrypt, encapsulate, encapsulate_with, encrypt, n_shift, xorshift32,
};

#[test]
fn xorshift_of_one() {
    assert_eq!(xorshift32(1), 270369);
}

#[test]
fn xorshift_of_zero_stays_zero() {
    assert_eq!(xorshift32(0), 0);
}

#[test]
fn stream_with_zero_steps_is_seed() {
    for seed in [0u32, 1, 42, 123_456_789, u32::MAX] {
        assert_eq!(n_shift(seed, 0), seed);
    }
}

#[test]
fn stream_is_repeated_steps() {
    assert_eq!(n_shift(1, 1), 270369);
    assert_eq!(n_shift(1, 2), xorshift32(270369));
    let mut x = 987_654_321u32;
    for _ in 0..100 {
        x = xorshift32(x);
    }
    assert_eq!(n_shift(987_654_321, 100), x);
}

#[test]
fn stream_is_deterministic() {
    for steps in 0..=100u8 {
        assert_eq!(n_shift(123_456_789, steps), n_shift(123_456_789, steps));
    }
}

#[test]
fn mask_with_given_bits() {
    assert_eq!(encapsulate_with(5, 3), 5 | (3 << 30));
    assert_eq!(encapsulate_with(5, 0), 5);
    assert_eq!(encapsulate_with(u32::MAX, 1), 0x3FFF_FFFF | (1 << 30));
}

#[test]
fn mask_keeps_low_bits() {
    for pin in [0u32, 42, 999_999_999, 0x3FFF_FFFF] {
        for _ in 0..8 {
            assert_eq!(encapsulate(pin) & 0x3FFF_FFFF, pin);
        }
    }
}

#[test]
fn unmask_clears_top_bits() {
    assert_eq!(decapsulate(0xFFFF_FFFF), 0x3FFF_FFFF);
    assert_eq!(decapsulate(0xC000_002A), 42);
    assert_eq!(decapsulate(42), 42);
}

#[test]
fn round_trip() {
    for master in [0u32, 1, 123_456_789, u32::MAX] {
        for id in [0u8, 7, 50, 99] {
            for pin in [0u32, 1, 42, 123_456_789, 999_999_999, 0x3FFF_FFFF] {
                assert_eq!(decrypt(master, id, encrypt(master, id, pin)), pin);
            }
        }
    }
}

#[test]
fn encrypt_is_keystream_xor_masked_pin() {
    let w = encrypt(123_456_789, 7, 42);
    let k = n_shift(123_456_789, 8);
    assert_eq!((w ^ k) & 0x3FFF_FFFF, 42);
    assert_ne!(w, 42);
}

#[test]
fn repeated_encryption_differs_in_top_bits_only() {
    let first = encrypt(555, 3, 1234);
    let mut differs = false;
    for _ in 0..64 {
        let w = encrypt(555, 3, 1234);
        assert_eq!(w & 0x3FFF_FFFF, first & 0x3FFF_FFFF);
        assert_eq!(decrypt(555, 3, w), 1234);
        if w != first {
            differs = true;
        }
    }
    assert!(differs);
}

#[test]
fn decrypt_under_other_key_differs() {
    let w = encrypt(123_456_789, 7, 42);
    assert_ne!(decrypt(123_456_788, 7, w), 42);
}
