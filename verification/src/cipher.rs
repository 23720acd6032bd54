//! The block cipher under the chaining: AES with a 256-bit key, on one
//! 16-byte block at a time. The cipher itself is the `aes` crate's; nothing
//! of it is proved here, and the two functions below say what is taken on
//! trust.

use aes::cipher::{BlockCipherDecrypt, BlockCipherEncrypt, KeyInit};
use vstd::prelude::*;

verus! {

/// The block that AES-256 encryption makes of `block` under `key`.
pub uninterp spec fn aes256_encrypt(key: Seq<u8>, block: Seq<u8>) -> [u8; 16];

/// The block that AES-256 decryption makes of `block` under `key`.
pub uninterp spec fn aes256_decrypt(key: Seq<u8>, block: Seq<u8>) -> [u8; 16];

/// Encrypts one block with `aes::Aes256`: `KeyInit::new` makes the cipher
/// from the key, `BlockCipherEncrypt::encrypt_block` encrypts a copy of the
/// block in place.
///
/// Trusted: the result is the AES-256 encryption of the block, and its
/// decryption under the same key is the block again.
#[verifier::external_body]
pub(crate) fn encrypt_block(key: &[u8; 32], block: &[u8; 16]) -> (out: [u8; 16])
    ensures
        out == aes256_encrypt(key@, block@),
        aes256_decrypt(key@, out@)@ == block@,
{
    let cipher = aes::Aes256::new(key.into());
    let mut buffer = aes::Block::from(*block);
    cipher.encrypt_block(&mut buffer);
    buffer.into()
}

/// Decrypts one block with `aes::Aes256`: `KeyInit::new` makes the cipher
/// from the key, `BlockCipherDecrypt::decrypt_block` decrypts a copy of the
/// block in place.
///
/// Trusted: the result is the AES-256 decryption of the block, and its
/// encryption under the same key is the block again.
#[verifier::external_body]
pub(crate) fn decrypt_block(key: &[u8; 32], block: &[u8; 16]) -> (out: [u8; 16])
    ensures
        out == aes256_decrypt(key@, block@),
        aes256_encrypt(key@, out@)@ == block@,
{
    let cipher = aes::Aes256::new(key.into());
    let mut buffer = aes::Block::from(*block);
    cipher.decrypt_block(&mut buffer);
    buffer.into()
}

} // verus!
