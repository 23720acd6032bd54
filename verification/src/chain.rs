//! Infinite Garble Extension: a chaining of 16-byte blocks in which every
//! block is mixed with the plaintext block and the ciphertext block before it.
//!
//! With `E` and `D` the block cipher under one key, `P(i)` and `C(i)` the
//! blocks of plaintext and ciphertext, and the two halves of the IV standing
//! in for the blocks before the first (`C(-1)` the first half, `P(-1)` the
//! second):
//!
//! ```text
//! C(i) = E(P(i) ^ P(i-1)) ^ C(i-1)
//! P(i) = D(C(i) ^ C(i-1)) ^ P(i-1)
//! ```
//!
//! The block before goes into the block cipher as plaintext and comes out of
//! it as ciphertext. Implementations that mix the two the other way round
//! (`C(i) = E(P(i) ^ C(i-1)) ^ P(i-1)`, as OpenSSL's `AES_ige_encrypt` does)
//! give other ciphertexts, except on a single block whose two IV halves are
//! equal.
//!
//! What a change in one ciphertext block does to the plaintext is stated by
//! the lemmas on corruption at the end of this file: the blocks before it
//! are spared, and from the block after it on the plaintext differs by one
//! and the same mask, so that a change which reaches the next block reaches
//! every block that follows.

use crate::cipher::{aes256_decrypt, aes256_encrypt};
use vstd::prelude::*;

verus! {

/// Block `i` of `data`: its bytes from `16 * i` up to `16 * i + 16`.
pub open spec fn block_at(data: Seq<u8>, i: int) -> Seq<u8> {
    data.subrange(16 * i, 16 * i + 16)
}

/// The bytewise exclusive or of two blocks.
pub open spec fn xor_block(a: Seq<u8>, b: Seq<u8>) -> Seq<u8> {
    Seq::new(16, |k: int| a[k] ^ b[k])
}

/// The plaintext block before block `i`: the second half of the IV before
/// the first block.
pub open spec fn prev_plain_block(plain: Seq<u8>, iv: Seq<u8>, i: int) -> Seq<u8> {
    if i <= 0 {
        block_at(iv, 1)
    } else {
        block_at(plain, i - 1)
    }
}

/// The ciphertext block before block `i`: the first half of the IV before
/// the first block.
pub open spec fn prev_cipher_block(cipher: Seq<u8>, iv: Seq<u8>, i: int) -> Seq<u8> {
    if i <= 0 {
        block_at(iv, 0)
    } else {
        block_at(cipher, i - 1)
    }
}

/// What goes into the block cipher when block `i` of `plain` is encrypted.
pub open spec fn encrypt_input(plain: Seq<u8>, iv: Seq<u8>, i: int) -> Seq<u8> {
    xor_block(block_at(plain, i), prev_plain_block(plain, iv, i))
}

/// What goes into the block cipher when block `i` of `cipher` is decrypted.
pub open spec fn decrypt_input(cipher: Seq<u8>, iv: Seq<u8>, i: int) -> Seq<u8> {
    xor_block(block_at(cipher, i), prev_cipher_block(cipher, iv, i))
}

/// Block `i` of the ciphertext of `plain`. For a negative `i` it is the
/// first half of the IV, the chaining value that the first block meets.
pub open spec fn cipher_block(plain: Seq<u8>, key: Seq<u8>, iv: Seq<u8>, i: int) -> Seq<u8>
    decreases i + 1,
{
    if i < 0 {
        block_at(iv, 0)
    } else {
        xor_block(
            aes256_encrypt(key, encrypt_input(plain, iv, i))@,
            cipher_block(plain, key, iv, i - 1),
        )
    }
}

/// Block `i` of the plaintext of `cipher`. For a negative `i` it is the
/// second half of the IV, the chaining value that the first block meets.
pub open spec fn plain_block(cipher: Seq<u8>, key: Seq<u8>, iv: Seq<u8>, i: int) -> Seq<u8>
    decreases i + 1,
{
    if i < 0 {
        block_at(iv, 1)
    } else {
        xor_block(
            aes256_decrypt(key, decrypt_input(cipher, iv, i))@,
            plain_block(cipher, key, iv, i - 1),
        )
    }
}

/// The ciphertext of `plain`, a whole number of blocks, under `key` and `iv`.
pub open spec fn ige_encrypted(plain: Seq<u8>, key: Seq<u8>, iv: Seq<u8>) -> Seq<u8> {
    Seq::new(plain.len(), |j: int| cipher_block(plain, key, iv, j / 16)[j % 16])
}

/// The plaintext of `cipher`, a whole number of blocks, under `key` and `iv`.
pub open spec fn ige_decrypted(cipher: Seq<u8>, key: Seq<u8>, iv: Seq<u8>) -> Seq<u8> {
    Seq::new(cipher.len(), |j: int| plain_block(cipher, key, iv, j / 16)[j % 16])
}

/// Under `key`, the block cipher's decryption undoes its encryption of `block`.
pub open spec fn decrypt_undoes_encrypt(key: Seq<u8>, block: Seq<u8>) -> bool {
    aes256_decrypt(key, aes256_encrypt(key, block)@)@ == block
}

/// Under `key`, the block cipher's encryption undoes its decryption of `block`.
pub open spec fn encrypt_undoes_decrypt(key: Seq<u8>, block: Seq<u8>) -> bool {
    aes256_encrypt(key, aes256_decrypt(key, block)@)@ == block
}

/// Mixing a block with the same block twice gives the block back.
pub proof fn lemma_xor_cancels(a: Seq<u8>, b: Seq<u8>)
    requires
        a.len() == 16,
    ensures
        xor_block(xor_block(a, b), b) == a,
{
    assert forall|k: int| 0 <= k < 16 implies (a[k] ^ b[k]) ^ b[k] == a[k] by {
        let x: u8 = a[k];
        let y: u8 = b[k];
        assert((x ^ y) ^ y == x) by (bit_vector);
    }
    assert(xor_block(xor_block(a, b), b) =~= a);
}

/// Two blocks that are each mixed with a third differ from one another as
/// they did before.
pub proof fn lemma_xor_common_mask(d: Seq<u8>, a: Seq<u8>, b: Seq<u8>)
    ensures
        xor_block(xor_block(d, a), xor_block(d, b)) == xor_block(a, b),
{
    assert forall|k: int| 0 <= k < 16 implies (d[k] ^ a[k]) ^ (d[k] ^ b[k]) == a[k] ^ b[k] by {
        let z: u8 = d[k];
        let x: u8 = a[k];
        let y: u8 = b[k];
        assert((z ^ x) ^ (z ^ y) == x ^ y) by (bit_vector);
    }
    assert(xor_block(xor_block(d, a), xor_block(d, b)) =~= xor_block(a, b));
}

/// Block `i` of a ciphertext is `cipher_block(.., i)`.
pub proof fn lemma_block_of_encrypted(plain: Seq<u8>, key: Seq<u8>, iv: Seq<u8>, i: int)
    requires
        0 <= i,
        16 * (i + 1) <= plain.len(),
    ensures
        block_at(ige_encrypted(plain, key, iv), i) == cipher_block(plain, key, iv, i),
{
    let whole = ige_encrypted(plain, key, iv);
    assert forall|k: int| 0 <= k < 16 implies block_at(whole, i)[k] == cipher_block(
        plain,
        key,
        iv,
        i,
    )[k] by {
        assert((16 * i + k) / 16 == i && (16 * i + k) % 16 == k);
    }
    assert(block_at(whole, i) =~= cipher_block(plain, key, iv, i));
}

/// Block `i` of a plaintext is `plain_block(.., i)`.
pub proof fn lemma_block_of_decrypted(cipher: Seq<u8>, key: Seq<u8>, iv: Seq<u8>, i: int)
    requires
        0 <= i,
        16 * (i + 1) <= cipher.len(),
    ensures
        block_at(ige_decrypted(cipher, key, iv), i) == plain_block(cipher, key, iv, i),
{
    let whole = ige_decrypted(cipher, key, iv);
    assert forall|k: int| 0 <= k < 16 implies block_at(whole, i)[k] == plain_block(
        cipher,
        key,
        iv,
        i,
    )[k] by {
        assert((16 * i + k) / 16 == i && (16 * i + k) % 16 == k);
    }
    assert(block_at(whole, i) =~= plain_block(cipher, key, iv, i));
}

/// A buffer of whole blocks is made of its blocks: two such buffers of one
/// length with the same blocks are equal.
pub proof fn lemma_equal_blocks_equal_buffers(a: Seq<u8>, b: Seq<u8>)
    requires
        a.len() == b.len(),
        a.len() % 16 == 0,
        forall|i: int| 0 <= i && 16 * (i + 1) <= a.len() ==> block_at(a, i) == block_at(b, i),
    ensures
        a == b,
{
    assert forall|j: int| 0 <= j < a.len() implies a[j] == b[j] by {
        let i: int = j / 16;
        assert(16 * (i + 1) <= a.len());
        assert(block_at(a, i)[j % 16] == a[j]);
        assert(block_at(b, i)[j % 16] == b[j]);
    }
    assert(a =~= b);
}

/// Decrypting what was encrypted hands the block cipher, at block `i`,
/// exactly what the block cipher gave out at block `i` of the encryption.
pub proof fn lemma_decrypt_input_of_encrypted(plain: Seq<u8>, key: Seq<u8>, iv: Seq<u8>, i: int)
    requires
        0 <= i,
        16 * (i + 1) <= plain.len(),
    ensures
        decrypt_input(ige_encrypted(plain, key, iv), iv, i) == aes256_encrypt(
            key,
            encrypt_input(plain, iv, i),
        )@,
{
    let cipher = ige_encrypted(plain, key, iv);
    lemma_block_of_encrypted(plain, key, iv, i);
    if i > 0 {
        lemma_block_of_encrypted(plain, key, iv, i - 1);
    }
    assert(prev_cipher_block(cipher, iv, i) == cipher_block(plain, key, iv, i - 1));
    lemma_xor_cancels(
        aes256_encrypt(key, encrypt_input(plain, iv, i))@,
        cipher_block(plain, key, iv, i - 1),
    );
}

/// Encrypting what was decrypted hands the block cipher, at block `i`,
/// exactly what the block cipher gave out at block `i` of the decryption.
pub proof fn lemma_encrypt_input_of_decrypted(cipher: Seq<u8>, key: Seq<u8>, iv: Seq<u8>, i: int)
    requires
        0 <= i,
        16 * (i + 1) <= cipher.len(),
    ensures
        encrypt_input(ige_decrypted(cipher, key, iv), iv, i) == aes256_decrypt(
            key,
            decrypt_input(cipher, iv, i),
        )@,
{
    let plain = ige_decrypted(cipher, key, iv);
    lemma_block_of_decrypted(cipher, key, iv, i);
    if i > 0 {
        lemma_block_of_decrypted(cipher, key, iv, i - 1);
    }
    assert(prev_plain_block(plain, iv, i) == plain_block(cipher, key, iv, i - 1));
    lemma_xor_cancels(
        aes256_decrypt(key, decrypt_input(cipher, iv, i))@,
        plain_block(cipher, key, iv, i - 1),
    );
}

/// Decrypting a ciphertext gives back block `i` of its plaintext, if the
/// block cipher's decryption undoes its encryption on what blocks 0 to `i`
/// sent through it.
pub proof fn lemma_plain_block_of_encrypted(plain: Seq<u8>, key: Seq<u8>, iv: Seq<u8>, i: int)
    requires
        16 * (i + 1) <= plain.len(),
        forall|m: int|
            0 <= m <= i ==> decrypt_undoes_encrypt(key, #[trigger] encrypt_input(plain, iv, m)),
    ensures
        plain_block(ige_encrypted(plain, key, iv), key, iv, i) == prev_plain_block(
            plain,
            iv,
            i + 1,
        ),
    decreases i + 1,
{
    if i >= 0 {
        lemma_plain_block_of_encrypted(plain, key, iv, i - 1);
        lemma_decrypt_input_of_encrypted(plain, key, iv, i);
        assert(decrypt_undoes_encrypt(key, encrypt_input(plain, iv, i)));
        lemma_xor_cancels(block_at(plain, i), prev_plain_block(plain, iv, i));
    }
}

/// Encrypting a plaintext gives back block `i` of its ciphertext, if the
/// block cipher's encryption undoes its decryption on what blocks 0 to `i`
/// sent through it.
pub proof fn lemma_cipher_block_of_decrypted(cipher: Seq<u8>, key: Seq<u8>, iv: Seq<u8>, i: int)
    requires
        16 * (i + 1) <= cipher.len(),
        forall|m: int|
            0 <= m <= i ==> encrypt_undoes_decrypt(key, #[trigger] decrypt_input(cipher, iv, m)),
    ensures
        cipher_block(ige_decrypted(cipher, key, iv), key, iv, i) == prev_cipher_block(
            cipher,
            iv,
            i + 1,
        ),
    decreases i + 1,
{
    if i >= 0 {
        lemma_cipher_block_of_decrypted(cipher, key, iv, i - 1);
        lemma_encrypt_input_of_decrypted(cipher, key, iv, i);
        assert(encrypt_undoes_decrypt(key, decrypt_input(cipher, iv, i)));
        lemma_xor_cancels(block_at(cipher, i), prev_cipher_block(cipher, iv, i));
    }
}

/// Decrypting undoes encrypting: the plaintext of the ciphertext of `plain`
/// is `plain`, given that the block cipher's decryption undoes its
/// encryption on the blocks that the encryption of `plain` sent through it.
pub proof fn lemma_decrypt_undoes_encrypt(plain: Seq<u8>, key: Seq<u8>, iv: Seq<u8>)
    requires
        plain.len() % 16 == 0,
        forall|m: int|
            0 <= m && 16 * (m + 1) <= plain.len() ==> decrypt_undoes_encrypt(
                key,
                #[trigger] encrypt_input(plain, iv, m),
            ),
    ensures
        ige_decrypted(ige_encrypted(plain, key, iv), key, iv) == plain,
{
    let cipher = ige_encrypted(plain, key, iv);
    let back = ige_decrypted(cipher, key, iv);
    assert forall|i: int| 0 <= i && 16 * (i + 1) <= back.len() implies block_at(back, i)
        == block_at(plain, i) by {
        lemma_block_of_decrypted(cipher, key, iv, i);
        lemma_plain_block_of_encrypted(plain, key, iv, i);
    }
    lemma_equal_blocks_equal_buffers(back, plain);
}

/// Encrypting undoes decrypting: the ciphertext of the plaintext of
/// `cipher` is `cipher`, given that the block cipher's encryption undoes its
/// decryption on the blocks that the decryption of `cipher` sent through it.
pub proof fn lemma_encrypt_undoes_decrypt(cipher: Seq<u8>, key: Seq<u8>, iv: Seq<u8>)
    requires
        cipher.len() % 16 == 0,
        forall|m: int|
            0 <= m && 16 * (m + 1) <= cipher.len() ==> encrypt_undoes_decrypt(
                key,
                #[trigger] decrypt_input(cipher, iv, m),
            ),
    ensures
        ige_encrypted(ige_decrypted(cipher, key, iv), key, iv) == cipher,
{
    let plain = ige_decrypted(cipher, key, iv);
    let back = ige_encrypted(plain, key, iv);
    assert forall|i: int| 0 <= i && 16 * (i + 1) <= back.len() implies block_at(back, i)
        == block_at(cipher, i) by {
        lemma_block_of_encrypted(plain, key, iv, i);
        lemma_cipher_block_of_decrypted(cipher, key, iv, i);
    }
    lemma_equal_blocks_equal_buffers(back, cipher);
}

/// A plaintext block depends on the ciphertext blocks up to its own only:
/// two ciphertexts that agree on blocks 0 to `i` give the same plaintext
/// block `i`.
pub proof fn lemma_plain_block_of_equal_prefix(
    c1: Seq<u8>,
    c2: Seq<u8>,
    key: Seq<u8>,
    iv: Seq<u8>,
    i: int,
)
    requires
        forall|m: int| 0 <= m <= i ==> block_at(c1, m) == block_at(c2, m),
    ensures
        plain_block(c1, key, iv, i) == plain_block(c2, key, iv, i),
    decreases i + 1,
{
    if i >= 0 {
        lemma_plain_block_of_equal_prefix(c1, c2, key, iv, i - 1);
        assert(block_at(c1, i) == block_at(c2, i));
        if i > 0 {
            assert(block_at(c1, i - 1) == block_at(c2, i - 1));
        }
        assert(decrypt_input(c1, iv, i) == decrypt_input(c2, iv, i));
    }
}

/// Once two decryptions agree on a plaintext block, they go on agreeing for
/// as long as the ciphertext blocks agree: if plaintext block `from` is the
/// same and the ciphertexts agree on blocks `from` to `i`, plaintext block
/// `i` is the same.
pub proof fn lemma_plain_block_resumes(
    c1: Seq<u8>,
    c2: Seq<u8>,
    key: Seq<u8>,
    iv: Seq<u8>,
    from: int,
    i: int,
)
    requires
        0 <= from <= i,
        plain_block(c1, key, iv, from) == plain_block(c2, key, iv, from),
        forall|m: int| from <= m <= i ==> block_at(c1, m) == block_at(c2, m),
    ensures
        plain_block(c1, key, iv, i) == plain_block(c2, key, iv, i),
    decreases i - from,
{
    if i > from {
        lemma_plain_block_resumes(c1, c2, key, iv, from, i - 1);
        assert(block_at(c1, i) == block_at(c2, i));
        assert(block_at(c1, i - 1) == block_at(c2, i - 1));
        assert(decrypt_input(c1, iv, i) == decrypt_input(c2, iv, i));
    }
}

/// A change in ciphertext block `i` leaves every plaintext block before
/// block `i` as it was.
pub proof fn lemma_corruption_spares_earlier_blocks(
    c1: Seq<u8>,
    c2: Seq<u8>,
    key: Seq<u8>,
    iv: Seq<u8>,
    i: int,
)
    requires
        c1.len() == c2.len(),
        forall|m: int| 0 <= m < i ==> block_at(c1, m) == block_at(c2, m),
    ensures
        forall|j: int|
            0 <= j < i && 16 * (j + 1) <= c1.len() ==> #[trigger] block_at(
                ige_decrypted(c1, key, iv),
                j,
            ) == block_at(ige_decrypted(c2, key, iv), j),
{
    assert forall|j: int| 0 <= j < i && 16 * (j + 1) <= c1.len() implies #[trigger] block_at(
        ige_decrypted(c1, key, iv),
        j,
    ) == block_at(ige_decrypted(c2, key, iv), j) by {
        lemma_plain_block_of_equal_prefix(c1, c2, key, iv, j);
        lemma_block_of_decrypted(c1, key, iv, j);
        lemma_block_of_decrypted(c2, key, iv, j);
    }
}

/// The difference between the plaintext blocks of two ciphertexts is handed
/// on unchanged from block `i + 1` to block `j`, if the ciphertexts agree on
/// the blocks after `i` up to `j`.
proof fn lemma_difference_is_handed_on(
    c1: Seq<u8>,
    c2: Seq<u8>,
    key: Seq<u8>,
    iv: Seq<u8>,
    i: int,
    j: int,
)
    requires
        0 <= i < j,
        forall|m: int| i < m <= j ==> block_at(c1, m) == block_at(c2, m),
    ensures
        xor_block(plain_block(c1, key, iv, j), plain_block(c2, key, iv, j)) == xor_block(
            plain_block(c1, key, iv, i + 1),
            plain_block(c2, key, iv, i + 1),
        ),
    decreases j - i,
{
    if j > i + 1 {
        lemma_difference_is_handed_on(c1, c2, key, iv, i, j - 1);
        assert(block_at(c1, j) == block_at(c2, j));
        assert(block_at(c1, j - 1) == block_at(c2, j - 1));
        assert(decrypt_input(c1, iv, j) == decrypt_input(c2, iv, j));
        lemma_xor_common_mask(
            aes256_decrypt(key, decrypt_input(c1, iv, j))@,
            plain_block(c1, key, iv, j - 1),
            plain_block(c2, key, iv, j - 1),
        );
    }
}

/// Two blocks whose mix is that of two equal blocks are equal: mixing two
/// different blocks never gives the all-zero block.
pub proof fn lemma_xor_tells_apart(a: Seq<u8>, b: Seq<u8>, c: Seq<u8>)
    requires
        a.len() == 16,
        b.len() == 16,
        xor_block(a, b) == xor_block(c, c),
    ensures
        a == b,
{
    assert forall|k: int| 0 <= k < 16 implies a[k] == b[k] by {
        let x: u8 = a[k];
        let y: u8 = b[k];
        let z: u8 = c[k];
        assert(xor_block(a, b)[k] == x ^ y);
        assert(xor_block(c, c)[k] == z ^ z);
        assert(x ^ y == z ^ z ==> x == y) by (bit_vector);
    }
    assert(a =~= b);
}

/// After a change in ciphertext block `i`, the two plaintexts differ by one
/// and the same mask in every block from `i + 1` on: the difference in
/// block `i + 1` is carried along unchanged to every later block `j`.
pub proof fn lemma_corruption_carries_on(
    c1: Seq<u8>,
    c2: Seq<u8>,
    key: Seq<u8>,
    iv: Seq<u8>,
    i: int,
    j: int,
)
    requires
        c1.len() == c2.len(),
        0 <= i < j,
        16 * (j + 1) <= c1.len(),
        forall|m: int| i < m <= j ==> block_at(c1, m) == block_at(c2, m),
    ensures
        xor_block(
            block_at(ige_decrypted(c1, key, iv), j),
            block_at(ige_decrypted(c2, key, iv), j),
        ) == xor_block(
            block_at(ige_decrypted(c1, key, iv), i + 1),
            block_at(ige_decrypted(c2, key, iv), i + 1),
        ),
{
    lemma_difference_is_handed_on(c1, c2, key, iv, i, j);
    lemma_block_of_decrypted(c1, key, iv, j);
    lemma_block_of_decrypted(c2, key, iv, j);
    lemma_block_of_decrypted(c1, key, iv, i + 1);
    lemma_block_of_decrypted(c2, key, iv, i + 1);
}

/// A change that reaches plaintext block `i + 1` reaches every block after
/// it: if the two plaintexts differ in block `i + 1`, they differ in every
/// later block `j`.
pub proof fn lemma_corruption_spreads(
    c1: Seq<u8>,
    c2: Seq<u8>,
    key: Seq<u8>,
    iv: Seq<u8>,
    i: int,
    j: int,
)
    requires
        c1.len() == c2.len(),
        0 <= i < j,
        16 * (j + 1) <= c1.len(),
        forall|m: int| i < m <= j ==> block_at(c1, m) == block_at(c2, m),
        block_at(ige_decrypted(c1, key, iv), i + 1) != block_at(ige_decrypted(c2, key, iv), i + 1),
    ensures
        block_at(ige_decrypted(c1, key, iv), j) != block_at(ige_decrypted(c2, key, iv), j),
{
    lemma_corruption_carries_on(c1, c2, key, iv, i, j);
    let first1 = block_at(ige_decrypted(c1, key, iv), i + 1);
    let first2 = block_at(ige_decrypted(c2, key, iv), i + 1);
    let later1 = block_at(ige_decrypted(c1, key, iv), j);
    let later2 = block_at(ige_decrypted(c2, key, iv), j);
    if later1 == later2 {
        lemma_xor_tells_apart(first1, first2, later1);
    }
}

/// A change in ciphertext block `i` shows in plaintext blocks `i` and
/// `i + 1` only, provided that block `i + 1` is the last one (or there is
/// none), or that plaintext block `i + 1` happens to come out unchanged.
/// Where blocks follow and block `i + 1` did change, every later block
/// changes with it (`lemma_corruption_spreads`).
pub proof fn lemma_corruption_is_local(
    c1: Seq<u8>,
    c2: Seq<u8>,
    key: Seq<u8>,
    iv: Seq<u8>,
    i: int,
)
    requires
        c1.len() == c2.len(),
        0 <= i,
        forall|m: int| 0 <= m && m != i && 16 * (m + 1) <= c1.len() ==> block_at(c1, m) == block_at(
            c2,
            m,
        ),
        c1.len() <= 16 * (i + 2) || block_at(ige_decrypted(c1, key, iv), i + 1) == block_at(
            ige_decrypted(c2, key, iv),
            i + 1,
        ),
    ensures
        forall|j: int|
            0 <= j && j != i && j != i + 1 && 16 * (j + 1) <= c1.len() ==> #[trigger] block_at(
                ige_decrypted(c1, key, iv),
                j,
            ) == block_at(ige_decrypted(c2, key, iv), j),
{
    assert forall|j: int|
        0 <= j && j != i && j != i + 1 && 16 * (j + 1) <= c1.len() implies #[trigger] block_at(
        ige_decrypted(c1, key, iv),
        j,
    ) == block_at(ige_decrypted(c2, key, iv), j) by {
        if j < i {
            lemma_plain_block_of_equal_prefix(c1, c2, key, iv, j);
        } else {
            lemma_block_of_decrypted(c1, key, iv, i + 1);
            lemma_block_of_decrypted(c2, key, iv, i + 1);
            lemma_plain_block_resumes(c1, c2, key, iv, i + 1, j);
        }
        lemma_block_of_decrypted(c1, key, iv, j);
        lemma_block_of_decrypted(c2, key, iv, j);
    }
}

} // verus!
