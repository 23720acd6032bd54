use cryptg::ige::{load_block, xor_blocks};
use cryptg::{decrypt_ige, encrypt_ige, CryptoError};

fn counting_key() -> [u8; 32] {
    let mut key = [0u8; 32];
    for (i, byte) in key.iter_mut().enumerate() {
        *byte = i as u8;
    }
    key
}

fn stepping_iv() -> [u8; 32] {
    let mut iv = [0u8; 32];
    for (i, byte) in iv.iter_mut().enumerate() {
        *byte = (7 * i + 3) as u8;
    }
    iv
}

fn four_blocks() -> Vec<u8> {
    (0..64usize).map(|i| ((13 * i + 5) % 256) as u8).collect()
}

const FOUR_BLOCKS_ENCRYPTED: [u8; 64] = [
    49, 150, 61, 142, 216, 64, 10, 99, 115, 89, 0, 70, 20, 238, 79, 54, 38, 243, 97, 8, 93, 83, 78,
    254, 13, 156, 231, 246, 179, 127, 18, 131, 209, 145, 158, 103, 219, 249, 29, 65, 191, 49, 197,
    209, 203, 245, 169, 123, 48, 175, 187, 74, 88, 132, 138, 166, 84, 213, 14, 232, 190, 182, 182,
    85,
];

const FOUR_BLOCKS_DECRYPTED: [u8; 64] = [
    241, 198, 3, 17, 226, 133, 94, 241, 33, 96, 220, 198, 59, 63, 113, 168, 23, 80, 158, 120, 226,
    50, 173, 104, 6, 120, 128, 249, 238, 172, 151, 178, 152, 190, 184, 124, 107, 204, 152, 59, 136,
    233, 86, 51, 46, 3, 76, 51, 103, 20, 157, 11, 34, 152, 134, 21, 6, 199, 114, 140, 29, 251, 10,
    115,
];

// FIPS-197, appendix C.3: AES-256 under the key 00 01 .. 1f.
const FIPS_PLAIN: [u8; 16] = [
    0x00, 0x11, 0x22, 0x33, 0x44, 0x55, 0x66, 0x77, 0x88, 0x99, 0xaa, 0xbb, 0xcc, 0xdd, 0xee, 0xff,
];

const FIPS_CIPHER: [u8; 16] = [
    0x8e, 0xa2, 0xb7, 0xca, 0x51, 0x67, 0x45, 0xbf, 0xea, 0xfc, 0x49, 0x90, 0x4b, 0x49, 0x60, 0x89,
];

fn differing_blocks(a: &[u8], b: &[u8]) -> Vec<usize> {
    assert_eq!(a.len(), b.len());
    (0..a.len() / 16).filter(|&i| a[16 * i..16 * i + 16] != b[16 * i..16 * i + 16]).collect()
}

#[test]
fn zero_block_encrypts_to_pinned_ciphertext() {
    // With an all-zero block and an all-zero first IV half, the ciphertext is
    // the block cipher applied to the second IV half.
    let mut iv = [0u8; 32];
    iv[16..].copy_from_slice(&FIPS_PLAIN);
    let cipher = encrypt_ige(&[0u8; 16], &counting_key(), &iv).unwrap();
    assert_eq!(cipher, FIPS_CIPHER.to_vec());
}

#[test]
fn single_block_under_zero_iv_is_the_block_cipher() {
    let key = counting_key();
    let iv = [0u8; 32];
    assert_eq!(encrypt_ige(&FIPS_PLAIN, &key, &iv).unwrap(), FIPS_CIPHER.to_vec());
    assert_eq!(decrypt_ige(&FIPS_CIPHER, &key, &iv).unwrap(), FIPS_PLAIN.to_vec());
}

#[test]
fn zero_key_zero_block_zero_iv() {
    let expected: [u8; 16] = [
        0xdc, 0x95, 0xc0, 0x78, 0xa2, 0x40, 0x89, 0x89, 0xad, 0x48, 0xa2, 0x14, 0x92, 0x84, 0x20,
        0x87,
    ];
    let cipher = encrypt_ige(&[0u8; 16], &[0u8; 32], &[0u8; 32]).unwrap();
    assert_eq!(cipher, expected.to_vec());
}

#[test]
fn first_iv_half_is_mixed_in_after_the_block_cipher() {
    // One zero block: E(second half) ^ first half.
    let key = counting_key();
    let mut iv = [0u8; 32];
    iv[..16].copy_from_slice(&[0xff; 16]);
    iv[16..].copy_from_slice(&FIPS_PLAIN);
    let cipher = encrypt_ige(&[0u8; 16], &key, &iv).unwrap();
    let expected: Vec<u8> = FIPS_CIPHER.iter().map(|b| b ^ 0xff).collect();
    assert_eq!(cipher, expected);
}

#[test]
fn zero_block_under_counting_iv() {
    let expected: [u8; 16] =
        [233, 194, 237, 137, 182, 49, 85, 225, 248, 125, 150, 221, 58, 234, 166, 129];
    let cipher = encrypt_ige(&[0u8; 16], &counting_key(), &counting_key()).unwrap();
    assert_eq!(cipher, expected.to_vec());
}

#[test]
fn four_blocks_encrypt_to_pinned_ciphertext() {
    let cipher = encrypt_ige(&four_blocks(), &counting_key(), &stepping_iv()).unwrap();
    assert_eq!(cipher, FOUR_BLOCKS_ENCRYPTED.to_vec());
}

#[test]
fn four_blocks_decrypt_to_pinned_plaintext() {
    let plain = decrypt_ige(&four_blocks(), &counting_key(), &stepping_iv()).unwrap();
    assert_eq!(plain, FOUR_BLOCKS_DECRYPTED.to_vec());
    let back = decrypt_ige(&FOUR_BLOCKS_ENCRYPTED, &counting_key(), &stepping_iv()).unwrap();
    assert_eq!(back, four_blocks());
}

#[test]
fn two_blocks_chain_through_plaintext_and_ciphertext() {
    // C(1) = E(P(1) ^ P(0)) ^ C(0): with P(1) ^ P(0) the FIPS block and zero
    // IV, the second ciphertext block is the FIPS ciphertext mixed with the first.
    let key = counting_key();
    let iv = [0u8; 32];
    let mut plain = vec![0x5au8; 16];
    plain.extend(FIPS_PLAIN.iter().map(|b| b ^ 0x5a));
    let cipher = encrypt_ige(&plain, &key, &iv).unwrap();
    let first = encrypt_ige(&[0x5au8; 16], &key, &iv).unwrap();
    assert_eq!(&cipher[..16], &first[..]);
    let second: Vec<u8> = FIPS_CIPHER.iter().zip(first.iter()).map(|(a, b)| a ^ b).collect();
    assert_eq!(&cipher[16..], &second[..]);
}

#[test]
fn decrypting_restores_what_was_encrypted() {
    let key = counting_key();
    let iv = stepping_iv();
    for blocks in [0usize, 1, 2, 3, 10, 64] {
        let plain: Vec<u8> = (0..16 * blocks).map(|i| (i * 31 + blocks) as u8).collect();
        let cipher = encrypt_ige(&plain, &key, &iv).unwrap();
        assert_eq!(decrypt_ige(&cipher, &key, &iv).unwrap(), plain);
    }
}

#[test]
fn encrypting_restores_what_was_decrypted() {
    let key = [0x42u8; 32];
    let iv = stepping_iv();
    for blocks in [0usize, 1, 2, 5, 33] {
        let cipher: Vec<u8> = (0..16 * blocks).map(|i| (i * 17 + 9) as u8).collect();
        let plain = decrypt_ige(&cipher, &key, &iv).unwrap();
        assert_eq!(encrypt_ige(&plain, &key, &iv).unwrap(), cipher);
    }
}

#[test]
fn another_key_does_not_restore_the_plaintext() {
    let iv = stepping_iv();
    let plain = four_blocks();
    let cipher = encrypt_ige(&plain, &counting_key(), &iv).unwrap();
    assert_ne!(decrypt_ige(&cipher, &[1u8; 32], &iv).unwrap(), plain);
}

#[test]
fn output_is_as_long_as_input() {
    let key = counting_key();
    let iv = stepping_iv();
    for blocks in [0usize, 1, 2, 7, 100] {
        let data = vec![0xa5u8; 16 * blocks];
        assert_eq!(encrypt_ige(&data, &key, &iv).unwrap().len(), data.len());
        assert_eq!(decrypt_ige(&data, &key, &iv).unwrap().len(), data.len());
    }
}

#[test]
fn same_inputs_give_same_outputs() {
    let key = counting_key();
    let iv = stepping_iv();
    let data = four_blocks();
    assert_eq!(encrypt_ige(&data, &key, &iv), encrypt_ige(&data, &key, &iv));
    assert_eq!(decrypt_ige(&data, &key, &iv), decrypt_ige(&data, &key, &iv));
}

#[test]
fn fifteen_byte_plaintext_is_malformed() {
    let result = encrypt_ige(&[0u8; 15], &counting_key(), &stepping_iv());
    assert_eq!(result, Err(CryptoError::MalformedInput));
}

#[test]
fn lengths_off_the_block_grid_are_malformed() {
    let key = counting_key();
    let iv = stepping_iv();
    for len in [1usize, 15, 17, 31, 33, 100] {
        let data = vec![7u8; len];
        assert_eq!(encrypt_ige(&data, &key, &iv), Err(CryptoError::MalformedInput));
        assert_eq!(decrypt_ige(&data, &key, &iv), Err(CryptoError::MalformedInput));
    }
}

#[test]
fn empty_buffer_gives_empty_buffer() {
    let key = counting_key();
    let iv = stepping_iv();
    assert_eq!(encrypt_ige(&[], &key, &iv), Ok(Vec::new()));
    assert_eq!(decrypt_ige(&[], &key, &iv), Ok(Vec::new()));
}

#[test]
fn change_in_a_block_leaves_earlier_blocks_untouched() {
    let key = counting_key();
    let iv = stepping_iv();
    let plain = four_blocks();
    let cipher = encrypt_ige(&plain, &key, &iv).unwrap();
    for block in 0..4usize {
        let mut changed = cipher.clone();
        changed[16 * block + 5] ^= 0x01;
        let garbled = decrypt_ige(&changed, &key, &iv).unwrap();
        assert_eq!(&garbled[..16 * block], &plain[..16 * block]);
        assert_ne!(&garbled[16 * block..16 * block + 16], &plain[16 * block..16 * block + 16]);
    }
}

#[test]
fn change_in_next_to_last_block_shows_in_last_two_blocks_only() {
    let key = counting_key();
    let iv = stepping_iv();
    let plain = four_blocks();
    let cipher = encrypt_ige(&plain, &key, &iv).unwrap();
    let mut changed = cipher.clone();
    changed[2 * 16 + 5] ^= 0x01;
    let garbled = decrypt_ige(&changed, &key, &iv).unwrap();
    assert_eq!(differing_blocks(&garbled, &plain), vec![2, 3]);
}

#[test]
fn change_in_last_block_shows_in_last_block_only() {
    let key = counting_key();
    let iv = stepping_iv();
    let plain = four_blocks();
    let cipher = encrypt_ige(&plain, &key, &iv).unwrap();
    let mut changed = cipher.clone();
    changed[63] ^= 0x80;
    let garbled = decrypt_ige(&changed, &key, &iv).unwrap();
    assert_eq!(differing_blocks(&garbled, &plain), vec![3]);
}

#[test]
fn change_in_first_block_carries_one_mask_through_later_blocks() {
    let key = counting_key();
    let iv = stepping_iv();
    let plain = four_blocks();
    let cipher = encrypt_ige(&plain, &key, &iv).unwrap();
    let mut changed = cipher.clone();
    changed[3] ^= 0x10;
    let garbled = decrypt_ige(&changed, &key, &iv).unwrap();
    assert_eq!(differing_blocks(&garbled, &plain), vec![0, 1, 2, 3]);
    let mask = |block: usize| -> Vec<u8> {
        (16 * block..16 * block + 16).map(|i| garbled[i] ^ plain[i]).collect()
    };
    let carried: [u8; 16] = [
        0x5a, 0xa3, 0x65, 0x0d, 0x8c, 0x2e, 0x11, 0x8c, 0x94, 0x1e, 0x37, 0xfb, 0xa2, 0x15, 0x4c,
        0xcd,
    ];
    assert_eq!(mask(1), carried.to_vec());
    assert_eq!(mask(2), carried.to_vec());
    assert_eq!(mask(3), carried.to_vec());
    assert_ne!(mask(0), carried.to_vec());
}

#[test]
fn load_block_copies_the_sixteen_bytes_of_a_block() {
    let data = four_blocks();
    assert_eq!(load_block(&data, 0).to_vec(), data[..16].to_vec());
    assert_eq!(load_block(&data, 3).to_vec(), data[48..].to_vec());
    assert_eq!(load_block(&stepping_iv(), 1).to_vec(), stepping_iv()[16..].to_vec());
}

#[test]
fn xor_blocks_mixes_bytewise() {
    let a: [u8; 16] = [0, 1, 2, 3, 4, 5, 6, 7, 8, 9, 10, 11, 12, 13, 14, 255];
    let b: [u8; 16] = [255, 1, 0, 3, 0, 5, 0, 7, 0x80, 9, 0, 11, 0, 13, 0, 0x0f];
    let expected: [u8; 16] = [255, 0, 2, 0, 4, 0, 6, 0, 0x88, 0, 10, 0, 12, 0, 14, 0xf0];
    assert_eq!(xor_blocks(&a, &b), expected);
    assert_eq!(xor_blocks(&expected, &b), a);
}

#[test]
fn single_block_with_equal_iv_halves_matches_grammers_crypto() {
    // On one block whose two chaining values are equal, the order in which
    // they are mixed in makes no difference.
    let key = counting_key();
    let mut iv = [0u8; 32];
    for (i, byte) in iv.iter_mut().enumerate() {
        *byte = 100 + (i % 16) as u8;
    }
    let block: Vec<u8> = (50u8..66).collect();
    let mut reference = block.clone();
    grammers_crypto::aes::ige_encrypt(&mut reference, &key, &iv);
    assert_eq!(encrypt_ige(&block, &key, &iv).unwrap(), reference);
    let expected: [u8; 16] =
        [159, 253, 176, 229, 251, 32, 9, 53, 98, 127, 50, 45, 195, 162, 241, 234];
    assert_eq!(reference, expected.to_vec());
    grammers_crypto::aes::ige_decrypt(&mut reference, &key, &iv);
    assert_eq!(decrypt_ige(&expected, &key, &iv).unwrap(), reference);
}

#[test]
fn chaining_values_are_mixed_in_the_other_order_than_in_grammers_crypto() {
    // grammers-crypto mixes the ciphertext block before into the block
    // cipher's input and the plaintext block before into its output; here
    // it is the other way round, so the ciphertexts differ from the first
    // block on.
    let key = counting_key();
    let iv = stepping_iv();
    let mut reference = four_blocks();
    grammers_crypto::aes::ige_encrypt(&mut reference, &key, &iv);
    let expected_reference: [u8; 64] = [
        198, 248, 240, 153, 241, 87, 144, 107, 250, 170, 36, 238, 212, 155, 49, 19, 57, 124, 244,
        38, 74, 253, 230, 225, 68, 79, 152, 105, 53, 230, 168, 86, 238, 126, 12, 241, 57, 35, 15,
        138, 184, 148, 127, 55, 52, 89, 232, 218, 102, 248, 12, 133, 215, 172, 59, 137, 41, 77,
        120, 106, 135, 48, 238, 125,
    ];
    assert_eq!(reference, expected_reference.to_vec());
    let cipher = encrypt_ige(&four_blocks(), &key, &iv).unwrap();
    assert_eq!(differing_blocks(&cipher, &reference), vec![0, 1, 2, 3]);
    // With the IV halves exchanged the first block agrees, the later ones do not.
    let mut exchanged = [0u8; 32];
    exchanged[..16].copy_from_slice(&iv[16..]);
    exchanged[16..].copy_from_slice(&iv[..16]);
    let mut reference = four_blocks();
    grammers_crypto::aes::ige_encrypt(&mut reference, &key, &exchanged);
    assert_eq!(differing_blocks(&cipher, &reference), vec![1, 2, 3]);
}

#[test]
fn large_buffer_survives_the_round_trip() {
    let key = counting_key();
    let iv = stepping_iv();
    let plain: Vec<u8> = (0..65536usize).map(|i| (i * 131 + i / 251) as u8).collect();
    let cipher = encrypt_ige(&plain, &key, &iv).unwrap();
    assert_eq!(cipher.len(), plain.len());
    assert_ne!(cipher, plain);
    assert_eq!(decrypt_ige(&cipher, &key, &iv).unwrap(), plain);
}
