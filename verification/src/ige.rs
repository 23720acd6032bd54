//! Encryption and decryption of whole buffers in Infinite Garble Extension
//! mode. What the two functions compute is defined in `chain`; here are the
//! loops that compute it.

use crate::chain::{
    block_at, cipher_block, decrypt_input, decrypt_undoes_encrypt, encrypt_input,
    encrypt_undoes_decrypt, ige_decrypted, ige_encrypted, lemma_decrypt_undoes_encrypt,
    lemma_encrypt_undoes_decrypt, plain_block, prev_cipher_block, prev_plain_block, xor_block,
};
use crate::cipher::{decrypt_block, encrypt_block};
use crate::CryptoError;
use vstd::prelude::*;

verus! {

/// Block `i` of `data`, copied out.
pub fn load_block(data: &[u8], i: usize) -> (out: [u8; 16])
    requires
        16 * (i + 1) <= data@.len(),
    ensures
        out@ == block_at(data@, i as int),
{
    // The length, a `usize`, bounds the offsets below.
    let len: usize = data.len();
    let base: usize = i * 16;
    let mut out: [u8; 16] = [0u8; 16];
    let mut k: usize = 0;
    while k < 16
        invariant
            k <= 16,
            base == 16 * i,
            base + 16 <= len == data@.len(),
            forall|m: int| 0 <= m < k ==> out@[m] == data@[base + m],
        decreases 16 - k,
    {
        out[k] = data[base + k];
        k = k + 1;
    }
    assert(out@ =~= block_at(data@, i as int));
    out
}

/// The bytewise exclusive or of two blocks.
pub fn xor_blocks(a: &[u8; 16], b: &[u8; 16]) -> (out: [u8; 16])
    ensures
        out@ == xor_block(a@, b@),
{
    let mut out: [u8; 16] = [0u8; 16];
    let mut k: usize = 0;
    while k < 16
        invariant
            k <= 16,
            forall|m: int| 0 <= m < k ==> out@[m] == a@[m] ^ b@[m],
        decreases 16 - k,
    {
        out[k] = a[k] ^ b[k];
        k = k + 1;
    }
    assert(out@ =~= xor_block(a@, b@));
    out
}

/// Appends a block to `out`.
fn append_block(out: &mut Vec<u8>, block: &[u8; 16])
    ensures
        final(out)@ == old(out)@ + block@,
{
    let mut k: usize = 0;
    while k < 16
        invariant
            k <= 16,
            out@ == old(out)@ + block@.subrange(0, k as int),
        decreases 16 - k,
    {
        out.push(block[k]);
        assert(out@ =~= old(out)@ + block@.subrange(0, k + 1));
        k = k + 1;
    }
    assert(block@.subrange(0, 16) =~= block@);
}

/// Encrypts `plain` under `key` and `iv`.
///
/// The plaintext must be a whole number of 16-byte blocks, else it is refused
/// as `MalformedInput`; nothing is padded. The ciphertext has the length of
/// the plaintext, and decrypting it under the same key and IV gives the
/// plaintext back.
pub fn encrypt_ige(plain: &[u8], key: &[u8; 32], iv: &[u8; 32]) -> (result: Result<
    Vec<u8>,
    CryptoError,
>)
    ensures
        plain@.len() % 16 != 0 ==> result is Err && result->Err_0 == CryptoError::MalformedInput,
        plain@.len() % 16 == 0 ==> result is Ok && result->Ok_0@ == ige_encrypted(
            plain@,
            key@,
            iv@,
        ),
        result is Ok ==> result->Ok_0@.len() == plain@.len(),
        result is Ok ==> ige_decrypted(result->Ok_0@, key@, iv@) == plain@,
{
    let len: usize = plain.len();
    if len % 16 != 0 {
        return Err(CryptoError::MalformedInput);
    }
    let blocks: usize = len / 16;
    let mut out: Vec<u8> = Vec::with_capacity(len);
    let mut prev_cipher: [u8; 16] = load_block(iv.as_slice(), 0);
    let mut prev_plain: [u8; 16] = load_block(iv.as_slice(), 1);
    let mut i: usize = 0;
    while i < blocks
        invariant
            len == plain@.len(),
            len == 16 * blocks,
            i <= blocks,
            out@.len() == 16 * i,
            forall|j: int|
                0 <= j < 16 * i ==> out@[j] == cipher_block(plain@, key@, iv@, j / 16)[j % 16],
            prev_cipher@ == cipher_block(plain@, key@, iv@, i - 1),
            prev_plain@ == prev_plain_block(plain@, iv@, i as int),
            forall|m: int|
                0 <= m < i ==> decrypt_undoes_encrypt(
                    key@,
                    #[trigger] encrypt_input(plain@, iv@, m),
                ),
        decreases blocks - i,
    {
        let block: [u8; 16] = load_block(plain, i);
        let input: [u8; 16] = xor_blocks(&block, &prev_plain);
        let output: [u8; 16] = encrypt_block(key, &input);
        let next: [u8; 16] = xor_blocks(&output, &prev_cipher);
        let ghost before = out@;
        append_block(&mut out, &next);
        proof {
            assert(next@ == cipher_block(plain@, key@, iv@, i as int));
            assert forall|j: int| 0 <= j < 16 * (i + 1) implies out@[j] == cipher_block(
                plain@,
                key@,
                iv@,
                j / 16,
            )[j % 16] by {
                if j >= 16 * i {
                    assert(j / 16 == i && j % 16 == j - 16 * i);
                    assert(out@[j] == next@[j - 16 * i]);
                } else {
                    assert(out@[j] == before[j]);
                }
            }
            assert(input@ == encrypt_input(plain@, iv@, i as int));
        }
        prev_cipher = next;
        prev_plain = block;
        i = i + 1;
    }
    proof {
        assert(out@ =~= ige_encrypted(plain@, key@, iv@));
        lemma_decrypt_undoes_encrypt(plain@, key@, iv@);
    }
    Ok(out)
}

/// Decrypts `cipher` under `key` and `iv`.
///
/// The ciphertext must be a whole number of 16-byte blocks, else it is
/// refused as `MalformedInput`. The plaintext has the length of the
/// ciphertext, and encrypting it under the same key and IV gives the
/// ciphertext back.
pub fn decrypt_ige(cipher: &[u8], key: &[u8; 32], iv: &[u8; 32]) -> (result: Result<
    Vec<u8>,
    CryptoError,
>)
    ensures
        cipher@.len() % 16 != 0 ==> result is Err && result->Err_0 == CryptoError::MalformedInput,
        cipher@.len() % 16 == 0 ==> result is Ok && result->Ok_0@ == ige_decrypted(
            cipher@,
            key@,
            iv@,
        ),
        result is Ok ==> result->Ok_0@.len() == cipher@.len(),
        result is Ok ==> ige_encrypted(result->Ok_0@, key@, iv@) == cipher@,
{
    let len: usize = cipher.len();
    if len % 16 != 0 {
        return Err(CryptoError::MalformedInput);
    }
    let blocks: usize = len / 16;
    let mut out: Vec<u8> = Vec::with_capacity(len);
    let mut prev_cipher: [u8; 16] = load_block(iv.as_slice(), 0);
    let mut prev_plain: [u8; 16] = load_block(iv.as_slice(), 1);
    let mut i: usize = 0;
    while i < blocks
        invariant
            len == cipher@.len(),
            len == 16 * blocks,
            i <= blocks,
            out@.len() == 16 * i,
            forall|j: int|
                0 <= j < 16 * i ==> out@[j] == plain_block(cipher@, key@, iv@, j / 16)[j % 16],
            prev_cipher@ == prev_cipher_block(cipher@, iv@, i as int),
            prev_plain@ == plain_block(cipher@, key@, iv@, i - 1),
            forall|m: int|
                0 <= m < i ==> encrypt_undoes_decrypt(
                    key@,
                    #[trigger] decrypt_input(cipher@, iv@, m),
                ),
        decreases blocks - i,
    {
        let block: [u8; 16] = load_block(cipher, i);
        let input: [u8; 16] = xor_blocks(&block, &prev_cipher);
        let output: [u8; 16] = decrypt_block(key, &input);
        let next: [u8; 16] = xor_blocks(&output, &prev_plain);
        let ghost before = out@;
        append_block(&mut out, &next);
        proof {
            assert(next@ == plain_block(cipher@, key@, iv@, i as int));
            assert forall|j: int| 0 <= j < 16 * (i + 1) implies out@[j] == plain_block(
                cipher@,
                key@,
                iv@,
                j / 16,
            )[j % 16] by {
                if j >= 16 * i {
                    assert(j / 16 == i && j % 16 == j - 16 * i);
                    assert(out@[j] == next@[j - 16 * i]);
                } else {
                    assert(out@[j] == before[j]);
                }
            }
            assert(input@ == decrypt_input(cipher@, iv@, i as int));
        }
        prev_cipher = block;
        prev_plain = next;
        i = i + 1;
    }
    proof {
        assert(out@ =~= ige_decrypted(cipher@, key@, iv@));
        lemma_encrypt_undoes_decrypt(cipher@, key@, iv@);
    }
    Ok(out)
}

} // verus!
