use curve25519_dalek::scalar::Scalar;
use r1cs_gadgets::bit_helpers::{get_bit, get_pow_2, set_bit, sum_last_n_bits};

#[test]
fn get_bit_test() {
    let zeroes: [u8; 32] = [0u8; 32];
    for i in 0..256 {
        assert_eq!(get_bit(zeroes, i), 0, "testing bit {}", i);
    }

    let bits: [u8; 32] = [
        0xA3, 0x03, 0x10, 0x5B, 0x72, 0x03, 0x12, 0xDE,
        0x26, 0x11, 0x17, 0x92, 0x82, 0xA6, 0x02, 0xD7,
        0xA3, 0x00, 0x10, 0x5B, 0x12, 0x32, 0x28, 0x27,
        0x5F, 0x21, 0x20, 0xE3, 0xAA, 0xB5, 0x86, 0xB9,
    ];

    let expected_bits: [u8; 256] = [
        1, 1, 0, 0, 0, 1, 0, 1, 1, 1, 0, 0, 0, 0, 0, 0,
        0, 0, 0, 0, 1, 0, 0, 0, 1, 1, 0, 1, 1, 0, 1, 0,
        0, 1, 0, 0, 1, 1, 1, 0, 1, 1, 0, 0, 0, 0, 0, 0,
        0, 1, 0, 0, 1, 0, 0, 0, 0, 1, 1, 1, 1, 0, 1, 1,
        0, 1, 1, 0, 0, 1, 0, 0, 1, 0, 0, 0, 1, 0, 0, 0,
        1, 1, 1, 0, 1, 0, 0, 0, 0, 1, 0, 0, 1, 0, 0, 1,
        0, 1, 0, 0, 0, 0, 0, 1, 0, 1, 1, 0, 0, 1, 0, 1,
        0, 1, 0, 0, 0, 0, 0, 0, 1, 1, 1, 0, 1, 0, 1, 1,
        1, 1, 0, 0, 0, 1, 0, 1, 0, 0, 0, 0, 0, 0, 0, 0,
        0, 0, 0, 0, 1, 0, 0, 0, 1, 1, 0, 1, 1, 0, 1, 0,
        0, 1, 0, 0, 1, 0, 0, 0, 0, 1, 0, 0, 1, 1, 0, 0,
        0, 0, 0, 1, 0, 1, 0, 0, 1, 1, 1, 0, 0, 1, 0, 0,
        1, 1, 1, 1, 1, 0, 1, 0, 1, 0, 0, 0, 0, 1, 0, 0,
        0, 0, 0, 0, 0, 1, 0, 0, 1, 1, 0, 0, 0, 1, 1, 1,
        0, 1, 0, 1, 0, 1, 0, 1, 1, 0, 1, 0, 1, 1, 0, 1,
        0, 1, 1, 0, 0, 0, 0, 1, 1, 0, 0, 1, 1, 1, 0, 1,
    ];

    for i in 0..256 {
        assert_eq!(get_bit(bits, i), expected_bits[i], "testing bit {}", i);
    }
}

#[test]
fn get_set_test() {
    let new_bits: [u8; 256] = [
        1, 1, 0, 0, 0, 1, 0, 1, 1, 1, 0, 0, 0, 0, 0, 0,
        0, 0, 0, 0, 1, 0, 0, 0, 1, 1, 0, 1, 1, 0, 1, 0,
        0, 1, 0, 0, 1, 1, 1, 0, 1, 1, 0, 0, 0, 0, 0, 0,
        0, 1, 0, 0, 1, 0, 0, 0, 0, 1, 1, 1, 1, 0, 1, 1,
        0, 1, 1, 0, 0, 1, 0, 0, 1, 0, 0, 0, 1, 0, 0, 0,
        1, 1, 1, 0, 1, 0, 0, 0, 0, 1, 0, 0, 1, 0, 0, 1,
        0, 1, 0, 0, 0, 0, 0, 1, 0, 1, 1, 0, 0, 1, 0, 1,
        0, 1, 0, 0, 0, 0, 0, 0, 1, 1, 1, 0, 1, 0, 1, 1,
        1, 1, 0, 0, 0, 1, 0, 1, 0, 0, 0, 0, 0, 0, 0, 0,
        0, 0, 0, 0, 1, 0, 0, 0, 1, 1, 0, 1, 1, 0, 1, 0,
        0, 1, 0, 0, 1, 0, 0, 0, 0, 1, 0, 0, 1, 1, 0, 0,
        0, 0, 0, 1, 0, 1, 0, 0, 1, 1, 1, 0, 0, 1, 0, 0,
        1, 1, 1, 1, 1, 0, 1, 0, 1, 0, 0, 0, 0, 1, 0, 0,
        0, 0, 0, 0, 0, 1, 0, 0, 1, 1, 0, 0, 0, 1, 1, 1,
        0, 1, 0, 1, 0, 1, 0, 1, 1, 0, 1, 0, 1, 1, 0, 1,
        0, 1, 1, 0, 0, 0, 0, 1, 1, 0, 0, 1, 1, 1, 0, 1,
    ];

    let expected_bytes: [u8; 32] = [
        0xA3, 0x03, 0x10, 0x5B, 0x72, 0x03, 0x12, 0xDE,
        0x26, 0x11, 0x17, 0x92, 0x82, 0xA6, 0x02, 0xD7,
        0xA3, 0x00, 0x10, 0x5B, 0x12, 0x32, 0x28, 0x27,
        0x5F, 0x21, 0x20, 0xE3, 0xAA, 0xB5, 0x86, 0xB9,
    ];

    let mut bits: [u8; 32] = [0u8; 32];
    for i in 0..256 {
        assert_eq!(get_bit(bits, i), 0, "testing bit {}", i);
    }

    for i in 0..256 {
        set_bit(&mut bits, i, new_bits[i]);
        assert_eq!(get_bit(bits, i), new_bits[i], "testing bit {}", i);
    }

    for i in 0..32 {
        assert_eq!(bits[i], expected_bytes[i], "testing byte {}", i);
    }
}

#[test]
fn sum_last_n_bits_test() {
    let bits: [u8; 32] = [
        0xA3, 0x03, 0x10, 0x5B, 0x72, 0x03, 0x12, 0xDE,
        0x26, 0x11, 0x17, 0x92, 0x82, 0xA6, 0x02, 0xD7,
        0xA3, 0x00, 0x10, 0x5B, 0x12, 0x32, 0x28, 0x27,
        0x5F, 0x21, 0x20, 0xE3, 0xAA, 0xB5, 0x86, 0xB9,
    ];

    let expected_sums: [u8; 256] = [
          0,   1,   1,   2,   3,   4,   4,   4,   5,   6,   6,   6,   6,   6,   7,   8,
          8,   9,   9,  10,  11,  11,  12,  12,  13,  14,  14,  15,  15,  16,  16,  17,
         17,  18,  19,  20,  20,  20,  20,  21,  22,  22,  22,  23,  23,  23,  23,  23,
         23,  23,  23,  24,  24,  24,  24,  24,  25,  25,  26,  26,  27,  28,  29,  30,
         31,  31,  31,  32,  32,  32,  33,  34,  35,  35,  35,  36,  36,  37,  37,  37,
         37,  37,  37,  38,  39,  39,  39,  40,  40,  40,  40,  40,  41,  41,  41,  42,
         42,  42,  43,  43,  44,  45,  45,  46,  47,  47,  47,  47,  48,  48,  48,  48,
         48,  48,  48,  48,  48,  48,  48,  48,  48,  49,  49,  50,  50,  50,  50,  51,
         52,  53,  54,  54,  55,  55,  56,  57,  58,  58,  58,  58,  58,  58,  58,  59,
         59,  60,  60,  61,  61,  61,  62,  63,  63,  64,  64,  64,  64,  64,  64,  65,
         65,  66,  66,  66,  67,  67,  67,  68,  68,  68,  68,  68,  69,  69,  70,  71,
         72,  72,  72,  72,  73,  73,  73,  73,  74,  74,  74,  75,  75,  75,  76,  77,
         77,  78,  79,  79,  80,  81,  82,  83,  83,  83,  83,  83,  84,  84,  84,  85,
         85,  85,  85,  85,  85,  85,  85,  86,  87,  87,  88,  89,  90,  90,  90,  91,
         91,  91,  92,  92,  93,  94,  94,  95,  96,  96,  96,  96,  97,  97,  97,  97,
         97,  97,  97,  97,  97,  97,  97,  98,  99, 100, 100, 101, 101, 101, 101, 102,
    ];

    for i in 0..256 {
        assert_eq!(sum_last_n_bits(bits, i), expected_sums[i], "testing sum of last {} bits", i);
    }
}

#[test]
fn get_pow_2_test() {
    let mut power: Scalar = Scalar::one();
    let two: Scalar = Scalar::from(2u32);
    for i in 0..253 {
        assert!(get_pow_2(i).to_bytes() == power.to_bytes());
        power = power * two;
    }
}

#[test]
fn set_bit_keeps_other_bits_test() {
    let mut bits: [u8; 32] = [0xFFu8; 32];
    set_bit(&mut bits, 9, 0);
    assert_eq!(bits[1], 0xFD);
    for i in 0..256 {
        if i != 9 {
            assert_eq!(get_bit(bits, i), 1);
        }
    }
    set_bit(&mut bits, 9, 3);
    assert_eq!(bits[1], 0xFF);
}

#[test]
fn sum_last_n_bits_of_zero_and_ones_test() {
    assert_eq!(sum_last_n_bits([0u8; 32], 255), 0);
    assert_eq!(sum_last_n_bits([0xFFu8; 32], 255), 255);
    assert_eq!(sum_last_n_bits([0xFFu8; 32], 0), 0);
    assert_eq!(sum_last_n_bits([0u8; 32], 256), 0);
    let mut one_bit = [0u8; 32];
    one_bit[3] = 0x10;
    assert_eq!(sum_last_n_bits(one_bit, 256), 1);
}
