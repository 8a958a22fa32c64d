use rc5::schedule::{magic_p, magic_q, odd};
use rc5::{Rc5, Rc5Error};

fn key_a() -> Vec<u8> {
    vec![
        0x00, 0x01, 0x02, 0x03, 0x04, 0x05, 0x06, 0x07, 0x08, 0x09, 0x0A, 0x0B, 0x0C, 0x0D, 0x0E,
        0x0F,
    ]
}

fn key_b() -> Vec<u8> {
    vec![
        0x2B, 0xD6, 0x45, 0x9F, 0x82, 0xC5, 0xB3, 0x00, 0x95, 0x2C, 0x49, 0x10, 0x48, 0x81, 0xFF,
        0x48,
    ]
}

#[test]
fn encode_a() {
    let key = key_a();
    let pt = vec![0x00, 0x11, 0x22, 0x33, 0x44, 0x55, 0x66, 0x77];
    let ct = vec![0x2D, 0xDC, 0x14, 0x9B, 0xCF, 0x08, 0x8B, 0x9E];
    let rc5 = Rc5::default();
    let encoded = rc5.encode(&key, &pt).unwrap();

    assert!(&ct[..] == &encoded[..]);
}

#[test]
fn encode_b() {
    let key = key_b();
    let pt = vec![0xEA, 0x02, 0x47, 0x14, 0xAD, 0x5C, 0x4D, 0x84];
    let ct = vec![0x11, 0xE4, 0x3B, 0x86, 0xD2, 0x31, 0xEA, 0x64];
    let rc5 = Rc5::default();
    let encoded = rc5.encode(&key, &pt).unwrap();

    assert!(&ct[..] == &encoded[..]);
}

#[test]
fn decode_a() {
    let key = key_a();
    let pt = vec![0x96, 0x95, 0x0D, 0xDA, 0x65, 0x4A, 0x3D, 0x62];
    let ct = vec![0x00, 0x11, 0x22, 0x33, 0x44, 0x55, 0x66, 0x77];
    let rc5 = Rc5::default();
    let decoded = rc5.decode(&key, &ct).unwrap();

    assert!(&pt[..] == &decoded[..]);
}

#[test]
fn decode_b() {
    let key = key_b();
    let pt = vec![0x63, 0x8B, 0x3A, 0x5E, 0xF7, 0x2B, 0x66, 0x3F];
    let ct = vec![0xEA, 0x02, 0x47, 0x14, 0xAD, 0x5C, 0x4D, 0x84];
    let rc5 = Rc5::default();
    let decoded = rc5.decode(&key, &ct).unwrap();
    assert!(&pt[..] == &decoded[..]);
}

#[test]
fn known_vectors_decode_back() {
    let rc5 = Rc5::default();
    let ct_a = vec![0x2D, 0xDC, 0x14, 0x9B, 0xCF, 0x08, 0x8B, 0x9E];
    let ct_b = vec![0x11, 0xE4, 0x3B, 0x86, 0xD2, 0x31, 0xEA, 0x64];
    assert_eq!(
        rc5.decode(&key_a(), &ct_a).unwrap(),
        vec![0x00, 0x11, 0x22, 0x33, 0x44, 0x55, 0x66, 0x77]
    );
    assert_eq!(
        rc5.decode(&key_b(), &ct_b).unwrap(),
        vec![0xEA, 0x02, 0x47, 0x14, 0xAD, 0x5C, 0x4D, 0x84]
    );
}

#[test]
fn round_trip_many_blocks() {
    let rc5 = Rc5::default();
    let pt: Vec<u8> = (0..64u32).map(|i| (i * 37 + 5) as u8).collect();
    let ct = rc5.encode(&key_b(), &pt).unwrap();
    assert_eq!(ct.len(), pt.len());
    assert_ne!(ct, pt);
    assert_eq!(rc5.decode(&key_b(), &ct).unwrap(), pt);
}

#[test]
fn encode_is_deterministic() {
    let rc5 = Rc5::default();
    let pt = b"same input, twice".to_vec();
    let first = rc5.encode(&key_a(), &pt).unwrap();
    let second = rc5.encode(&key_a(), &pt).unwrap();
    assert_eq!(first, second);
    let ct = vec![0u8; 16];
    assert_eq!(rc5.decode(&key_a(), &ct).unwrap(), rc5.decode(&key_a(), &ct).unwrap());
}

#[test]
fn partial_block_rounds_up() {
    let rc5 = Rc5::default();
    let short = rc5.encode(&key_a(), &[1, 2, 3]).unwrap();
    assert_eq!(short, vec![0x17, 0x9E, 0x60, 0x37, 0x65, 0x25, 0xFE, 0x19]);
    let nine: Vec<u8> = (1..=9u8).collect();
    let ct = rc5.encode(&key_a(), &nine).unwrap();
    assert_eq!(ct.len(), 16);
    assert_eq!(
        ct,
        vec![
            0x73, 0x47, 0x95, 0xF8, 0x2A, 0xBF, 0xF1, 0xBA, 0x76, 0x76, 0x2A, 0x2E, 0x02, 0x1D,
            0xCC, 0xE6
        ]
    );
    let back = rc5.decode(&key_a(), &ct).unwrap();
    assert_eq!(&back[..9], &nine[..]);
    assert_eq!(&back[9..], &[0u8; 7][..]);
}

#[test]
fn empty_plaintext_gives_empty_ciphertext() {
    let rc5 = Rc5::default();
    assert_eq!(rc5.encode(&key_a(), &[]).unwrap(), Vec::<u8>::new());
    assert_eq!(rc5.decode(&key_a(), &[]).unwrap(), Vec::<u8>::new());
}

#[test]
fn empty_key_is_one_zero_word() {
    let rc5 = Rc5::default();
    let pt: Vec<u8> = (1..=8u8).collect();
    let ct = rc5.encode(&[], &pt).unwrap();
    assert_eq!(ct, vec![0xC6, 0x64, 0x41, 0x5B, 0x4C, 0x9F, 0x1D, 0x9A]);
    assert_eq!(rc5.decode(&[], &ct).unwrap(), pt);
}

#[test]
fn sixteen_bit_words() {
    let rc5 = Rc5::new(16, 12, 16).unwrap();
    let ct = rc5.encode(&key_a(), &[0x00, 0x11, 0x22, 0x33]).unwrap();
    assert_eq!(ct, vec![0x0B, 0xDC, 0x7E, 0x8E]);
    assert_eq!(rc5.decode(&key_a(), &ct).unwrap(), vec![0x00, 0x11, 0x22, 0x33]);
}

#[test]
fn other_widths_round_trip() {
    for w in [8u32, 24, 40, 48, 56, 64, 80, 96, 112, 120] {
        let rc5 = Rc5::new(w, 8, 16).unwrap();
        let block = 2 * (w as usize / 8);
        let pt: Vec<u8> = (0..3 * block).map(|i| (i * 11 + 3) as u8).collect();
        let ct = rc5.encode(&key_b(), &pt).unwrap();
        assert_eq!(ct.len(), pt.len());
        assert_eq!(rc5.decode(&key_b(), &ct).unwrap(), pt);
    }
}

#[test]
fn zero_width_is_invalid() {
    assert!(matches!(Rc5::new(0, 12, 16), Err(Rc5Error::InvalidParameters)));
    assert!(matches!(Rc5::default().w(0), Err(Rc5Error::InvalidParameters)));
    assert!(matches!(Rc5::default().w(12), Err(Rc5Error::InvalidParameters)));
    assert!(Rc5::default().w(64).is_ok());
}

#[test]
fn every_multiple_of_eight_is_a_width() {
    for w in [8u32, 72, 128, 136, 256, 1024] {
        let rc5 = Rc5::default().w(w).unwrap();
        assert_eq!(rc5.c(), (16 + w as usize / 8 - 1) / (w as usize / 8));
    }
}

#[test]
fn seventy_two_bit_words() {
    let rc5 = Rc5::new(72, 12, 16).unwrap();
    let pt: Vec<u8> = (0..18u8).collect();
    let ct = rc5.encode(&key_a(), &pt).unwrap();
    assert_eq!(
        ct,
        vec![
            0xA3, 0x77, 0x66, 0xAF, 0x37, 0xBD, 0x65, 0x21, 0xFA, 0x1F, 0x11, 0xE0, 0x32, 0xCA,
            0x36, 0xFC, 0xED, 0x02
        ]
    );
    assert_eq!(rc5.decode(&key_a(), &ct).unwrap(), pt);
}

#[test]
fn one_hundred_twenty_eight_bit_words() {
    let rc5 = Rc5::new(128, 12, 16).unwrap();
    let pt: Vec<u8> = (0..32u8).collect();
    let ct = rc5.encode(&key_a(), &pt).unwrap();
    assert_eq!(
        ct,
        vec![
            0xC9, 0x80, 0xD4, 0x5C, 0x0B, 0xE7, 0xF8, 0xA6, 0xF4, 0x8B, 0x0C, 0x12, 0xDE, 0x86,
            0xA2, 0xED, 0xC7, 0xC4, 0xD5, 0xBE, 0x72, 0x7E, 0x1F, 0x64, 0xEB, 0x5F, 0x06, 0x09,
            0x4F, 0x1F, 0xA3, 0xA4
        ]
    );
    assert_eq!(rc5.decode(&key_a(), &ct).unwrap(), pt);
}

#[test]
fn widths_beyond_held_words_fail_derivation() {
    let rc5 = Rc5::new(136, 12, 16).unwrap();
    assert_eq!(rc5.encode(&key_a(), &[1, 2, 3]), Err(Rc5Error::ConstantDerivationError));
    assert_eq!(rc5.decode(&key_a(), &[0u8; 34]), Err(Rc5Error::ConstantDerivationError));
    assert_eq!(rc5.decode(&key_a(), &[0u8; 33]), Err(Rc5Error::MalformedCiphertext));
}

#[test]
fn derived_magic_constants() {
    assert_eq!(magic_p(8), Ok(0xb7));
    assert_eq!(magic_q(8), Ok(0x9f));
    assert_eq!(magic_p(24), Ok(0xb7e151));
    assert_eq!(magic_q(24), Ok(0x9e3779));
    assert_eq!(magic_p(72), Ok(0xb7e151628aed2a6abf));
    assert_eq!(magic_q(72), Ok(0x9e3779b97f4a7c15f3));
    assert_eq!(magic_p(128), Ok(0xb7e151628aed2a6abf7158809cf4f3c7));
    assert_eq!(magic_q(128), Ok(0x9e3779b97f4a7c15f39cc0605cedc835));
    assert_eq!(magic_p(136), Err(Rc5Error::ConstantDerivationError));
    assert_eq!(magic_q(136), Err(Rc5Error::ConstantDerivationError));
}

#[test]
fn nearest_odd_choices() {
    assert_eq!(odd(4, false), Ok(5));
    assert_eq!(odd(5, false), Ok(5));
    assert_eq!(odd(5, true), Ok(5));
    assert_eq!(odd(4, true), Err(Rc5Error::ConstantDerivationError));
}

#[test]
fn rotations_take_the_low_bits_of_the_word() {
    let narrow = Rc5::new(16, 12, 16).unwrap();
    assert_eq!(narrow.left(0x10000, 1), 0);
    assert_eq!(narrow.left(0x1_8001, 1), 0x0003);
    assert_eq!(narrow.right(0x1_0001, 1), 0x8000);
}

#[test]
fn short_ciphertext_is_malformed() {
    let rc5 = Rc5::default();
    assert_eq!(rc5.decode(&key_a(), &[1, 2, 3]), Err(Rc5Error::MalformedCiphertext));
    assert_eq!(rc5.decode(&key_a(), &[0u8; 12]), Err(Rc5Error::MalformedCiphertext));
    let wide = Rc5::new(64, 12, 16).unwrap();
    assert_eq!(wide.decode(&key_a(), &[0u8; 8]), Err(Rc5Error::MalformedCiphertext));
}

#[test]
fn derived_key_word_count() {
    assert_eq!(Rc5::default().c(), 4);
    assert_eq!(Rc5::default().b(10).c(), 3);
    assert_eq!(Rc5::default().b(0).c(), 0);
    assert_eq!(Rc5::new(64, 12, 17).unwrap().c(), 3);
}

#[test]
fn builders_change_one_parameter() {
    let rc5 = Rc5::default().r(20);
    let pt = vec![0x00, 0x11, 0x22, 0x33, 0x44, 0x55, 0x66, 0x77];
    let ct = rc5.encode(&key_a(), &pt).unwrap();
    assert_ne!(ct, vec![0x2D, 0xDC, 0x14, 0x9B, 0xCF, 0x08, 0x8B, 0x9E]);
    assert_eq!(rc5.decode(&key_a(), &ct).unwrap(), pt);
}

#[test]
fn cipher_rotations_follow_width() {
    let rc5 = Rc5::default();
    assert_eq!(rc5.left(1024, 8), 262144);
    assert_eq!(rc5.right(1024, 8), 4);
    let narrow = Rc5::new(16, 12, 16).unwrap();
    assert_eq!(narrow.left(0x8001, 1), 0x0003);
    assert_eq!(narrow.right(0x0001, 1), 0x8000);
}

#[test]
fn random_key_has_requested_length() {
    let rc5 = Rc5::default();
    assert_eq!(rc5.key(16).len(), 16);
    assert_eq!(rc5.key(0).len(), 0);
}

#[test]
fn flipping_a_key_bit_changes_about_half_the_bits() {
    let rc5 = Rc5::default();
    let key = key_a();
    let mut flipped = key.clone();
    flipped[5] ^= 0x10;
    let mut changed: u32 = 0;
    let mut total: u32 = 0;
    for n in 0..64u32 {
        let pt: Vec<u8> = (0..8u32).map(|i| (n * 31 + i * 7 + 1) as u8).collect();
        let a = rc5.encode(&key, &pt).unwrap();
        let b = rc5.encode(&flipped, &pt).unwrap();
        for (x, y) in a.iter().zip(b.iter()) {
            changed += (x ^ y).count_ones();
            total += 8;
        }
    }
    let ratio = changed as f64 / total as f64;
    assert!(ratio > 0.4 && ratio < 0.6, "ratio {}", ratio);
}
