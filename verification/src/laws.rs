//! What holds of the mode under every cipher, proved from its definition.
//!
//! Each law names in its `requires` what it asks of the cipher: nothing, that
//! it computes a function, that its decryption undoes its encryption, or that
//! no two blocks decrypt to the same block.

use crate::cipher::{
    builds, builds_functions, builds_inverses, decrypt_inverts_encrypt, decrypt_is_injective,
    decrypts_by, encrypts, encrypts_by, is_deterministic, key_decides_cipher, BlockCipher,
    NewBlockCipher,
};
use crate::lemmas::{
    lemma_decrypts_len, lemma_encrypts_len, lemma_same_blocks, lemma_steal_round_trip,
    lemma_xex_blocks_invert, lemma_xex_decrypts_by, lemma_xex_decrypts_one,
    lemma_xex_encrypts_by, lemma_xex_encrypts_one, lemma_xex_inverts, lemma_xex_round_trip,
};
use crate::model::{
    block_at, blocks_decrypted, blocks_encrypted, derives, inverts, steal_decrypts,
    steal_encrypts, xex, xex_blocks, xex_decrypts, xts_decryption, xts_decrypts, xts_encryption,
    xts_encrypts,
};
use crate::tweak::{
    coefficient, gf_double, le_value, lemma_le_value_of_bytes, lemma_tweak_at_len, next_tweak,
    tweak_at,
};
use crate::utils::{lemma_xor_cancel, xor_bytes};
use vstd::prelude::*;

verus! {

/// Length preservation: a ciphertext is as long as its plaintext, and a
/// decryption as long as the ciphertext, under every cipher.
pub proof fn law_length_preserved<C: BlockCipher>(
    cipher: C,
    tweak: Seq<u8>,
    plain: Seq<u8>,
    crypt: Seq<u8>,
)
    requires
        xts_encrypts(cipher, tweak, plain, crypt) || xts_decrypts(cipher, tweak, crypt, plain),
    ensures
        crypt.len() == plain.len(),
{
}

/// Under a cipher that encrypts by the function `e`, whole blocks that
/// were encrypted one by one are their XEX transforms by `e`.
pub proof fn law_encrypt_blocks_formula<C: BlockCipher>(
    cipher: C,
    e: spec_fn(Seq<u8>) -> Seq<u8>,
    tweak: Seq<u8>,
    input: Seq<u8>,
    output: Seq<u8>,
    n: nat,
)
    requires
        encrypts_by(cipher, e),
        tweak.len() == 16,
        16 * n <= output.len(),
        blocks_encrypted(cipher, tweak, input, output, n),
    ensures
        output.subrange(0, 16 * (n as int)) == xex_blocks(e, tweak, input, n),
{
    let formula = xex_blocks(e, tweak, input, n);
    assert forall|i: int| 0 <= i < 16 * n implies output[i] == formula[i] by {
        let j = i / 16;
        lemma_tweak_at_len(tweak, j as nat);
        lemma_xex_encrypts_by(
            cipher,
            e,
            tweak_at(tweak, j as nat),
            block_at(input, j),
            block_at(output, j),
        );
        assert(output[i] == block_at(output, j)[i - 16 * j]);
    }
    assert(output.subrange(0, 16 * (n as int)) =~= xex_blocks(e, tweak, input, n));
}

/// Under a cipher that decrypts by the function `d`, whole blocks that
/// were decrypted one by one are their XEX transforms by `d`.
pub proof fn law_decrypt_blocks_formula<C: BlockCipher>(
    cipher: C,
    d: spec_fn(Seq<u8>) -> Seq<u8>,
    tweak: Seq<u8>,
    input: Seq<u8>,
    output: Seq<u8>,
    n: nat,
)
    requires
        decrypts_by(cipher, d),
        tweak.len() == 16,
        16 * n <= output.len(),
        blocks_decrypted(cipher, tweak, input, output, n),
    ensures
        output.subrange(0, 16 * (n as int)) == xex_blocks(d, tweak, input, n),
{
    let formula = xex_blocks(d, tweak, input, n);
    assert forall|i: int| 0 <= i < 16 * n implies output[i] == formula[i] by {
        let j = i / 16;
        lemma_tweak_at_len(tweak, j as nat);
        lemma_xex_decrypts_by(
            cipher,
            d,
            tweak_at(tweak, j as nat),
            block_at(input, j),
            block_at(output, j),
        );
        assert(output[i] == block_at(output, j)[i - 16 * j]);
    }
    assert(output.subrange(0, 16 * (n as int)) =~= xex_blocks(d, tweak, input, n));
}

/// The formula of encryption: under a cipher that encrypts by the function
/// `e`, the one ciphertext of a plaintext is `xts_encryption(e, tweak, plain)`.
pub proof fn law_encrypt_formula<C: BlockCipher>(
    cipher: C,
    e: spec_fn(Seq<u8>) -> Seq<u8>,
    tweak: Seq<u8>,
    plain: Seq<u8>,
    crypt: Seq<u8>,
)
    requires
        encrypts_by(cipher, e),
        tweak.len() == 16,
        xts_encrypts(cipher, tweak, plain, crypt),
    ensures
        crypt == xts_encryption(e, tweak, plain),
{
    let len = plain.len() as int;
    let m = len / 16;
    let r = len % 16;
    let whole = if r == 0 { m } else { m - 1 };
    let formula = xts_encryption(e, tweak, plain);
    law_encrypt_blocks_formula(cipher, e, tweak, plain, crypt, whole as nat);
    assert forall|i: int| 0 <= i < 16 * whole implies crypt[i] == formula[i] by {
        assert(crypt[i] == crypt.subrange(0, 16 * whole)[i]);
    }
    if r != 0 {
        let t1 = tweak_at(tweak, (m - 1) as nat);
        let t2 = tweak_at(tweak, m as nat);
        lemma_tweak_at_len(tweak, (m - 1) as nat);
        lemma_tweak_at_len(tweak, m as nat);
        let plain_end = plain.subrange(16 * (m - 1), len);
        let crypt_end = crypt.subrange(16 * (m - 1), len);
        let full = choose|full: Seq<u8>| steal_encrypts(cipher, t1, t2, plain_end, crypt_end, full);
        assert(plain_end.subrange(0, 16) =~= block_at(plain, m - 1));
        assert(plain_end.subrange(16, 16 + r) =~= plain.subrange(16 * m, len));
        lemma_xex_encrypts_by(cipher, e, t1, block_at(plain, m - 1), full);
        let filled = plain.subrange(16 * m, len) + full.subrange(r, 16);
        lemma_xex_encrypts_by(cipher, e, t2, filled, crypt_end.subrange(0, 16));
        lemma_encrypts_len(cipher, xor_bytes(block_at(plain, m - 1), t1), xor_bytes(full, t1));
        lemma_encrypts_len(
            cipher,
            xor_bytes(filled, t2),
            xor_bytes(crypt_end.subrange(0, 16), t2),
        );
        assert forall|i: int| 16 * (m - 1) <= i < len implies crypt[i] == formula[i] by {
            let off = i - 16 * (m - 1);
            assert(crypt[i] == crypt_end[off]);
            if off < 16 {
                assert(crypt_end[off] == crypt_end.subrange(0, 16)[off]);
            } else {
                assert(crypt_end[off] == crypt_end.subrange(16, 16 + r)[off - 16]);
            }
        }
    }
    assert(crypt =~= formula);
}

/// The formula of decryption: under a cipher that decrypts by the function
/// `d`, the one decryption of a ciphertext is `xts_decryption(d, tweak, crypt)`.
pub proof fn law_decrypt_formula<C: BlockCipher>(
    cipher: C,
    d: spec_fn(Seq<u8>) -> Seq<u8>,
    tweak: Seq<u8>,
    crypt: Seq<u8>,
    plain: Seq<u8>,
)
    requires
        decrypts_by(cipher, d),
        tweak.len() == 16,
        xts_decrypts(cipher, tweak, crypt, plain),
    ensures
        plain == xts_decryption(d, tweak, crypt),
{
    let len = crypt.len() as int;
    let m = len / 16;
    let r = len % 16;
    let whole = if r == 0 { m } else { m - 1 };
    let formula = xts_decryption(d, tweak, crypt);
    law_decrypt_blocks_formula(cipher, d, tweak, crypt, plain, whole as nat);
    assert forall|i: int| 0 <= i < 16 * whole implies plain[i] == formula[i] by {
        assert(plain[i] == plain.subrange(0, 16 * whole)[i]);
    }
    if r != 0 {
        let t1 = tweak_at(tweak, (m - 1) as nat);
        let t2 = tweak_at(tweak, m as nat);
        lemma_tweak_at_len(tweak, (m - 1) as nat);
        lemma_tweak_at_len(tweak, m as nat);
        let crypt_end = crypt.subrange(16 * (m - 1), len);
        let plain_end = plain.subrange(16 * (m - 1), len);
        let filled = choose|filled: Seq<u8>|
            steal_decrypts(cipher, t1, t2, crypt_end, plain_end, filled);
        assert(crypt_end.subrange(0, 16) =~= block_at(crypt, m - 1));
        assert(crypt_end.subrange(16, 16 + r) =~= crypt.subrange(16 * m, len));
        lemma_xex_decrypts_by(cipher, d, t2, block_at(crypt, m - 1), filled);
        let full = crypt.subrange(16 * m, len) + filled.subrange(r, 16);
        lemma_xex_decrypts_by(cipher, d, t1, full, plain_end.subrange(0, 16));
        lemma_decrypts_len(cipher, xor_bytes(block_at(crypt, m - 1), t2), xor_bytes(filled, t2));
        lemma_decrypts_len(
            cipher,
            xor_bytes(full, t1),
            xor_bytes(plain_end.subrange(0, 16), t1),
        );
        assert forall|i: int| 16 * (m - 1) <= i < len implies plain[i] == formula[i] by {
            let off = i - 16 * (m - 1);
            assert(plain[i] == plain_end[off]);
            if off < 16 {
                assert(plain_end[off] == plain_end.subrange(0, 16)[off]);
            } else {
                assert(plain_end[off] == plain_end.subrange(16, 16 + r)[off - 16]);
            }
        }
    }
    assert(plain =~= formula);
}

/// Round trip: whatever the mode makes of a plaintext of one block or more,
/// it decrypts to that plaintext again, under every cipher whose decryption
/// undoes its encryption and from every first tweak.
pub proof fn law_round_trip<C: BlockCipher>(
    cipher: C,
    tweak: Seq<u8>,
    plain: Seq<u8>,
    crypt: Seq<u8>,
    back: Seq<u8>,
)
    requires
        decrypt_inverts_encrypt(cipher),
        tweak.len() == 16,
        xts_encrypts(cipher, tweak, plain, crypt),
        xts_decrypts(cipher, tweak, crypt, back),
    ensures
        back == plain,
{
    let len = plain.len() as int;
    let m = len / 16;
    let r = len % 16;
    let whole = if r == 0 { m } else { m - 1 };
    assert forall|j: int| 0 <= j < whole implies #[trigger] block_at(back, j) == block_at(
        plain,
        j,
    ) by {
        lemma_tweak_at_len(tweak, j as nat);
        lemma_xex_round_trip(
            cipher,
            tweak_at(tweak, j as nat),
            block_at(plain, j),
            block_at(crypt, j),
            block_at(back, j),
        );
    }
    if r != 0 {
        let t1 = tweak_at(tweak, (m - 1) as nat);
        let t2 = tweak_at(tweak, m as nat);
        lemma_tweak_at_len(tweak, (m - 1) as nat);
        lemma_tweak_at_len(tweak, m as nat);
        let plain_end = plain.subrange(16 * (m - 1), len);
        let crypt_end = crypt.subrange(16 * (m - 1), len);
        let back_end = back.subrange(16 * (m - 1), len);
        let full = choose|full: Seq<u8>| steal_encrypts(cipher, t1, t2, plain_end, crypt_end, full);
        let filled = choose|filled: Seq<u8>|
            steal_decrypts(cipher, t1, t2, crypt_end, back_end, filled);
        lemma_steal_round_trip(cipher, t1, t2, plain_end, crypt_end, back_end, full, filled);
    } else {
        assert(plain.subrange(16 * m, len) =~= back.subrange(16 * m, len));
    }
    lemma_same_blocks(back, plain, whole);
}

/// Round trip of the formulas: where `d` undoes `e` on blocks, the
/// decryption by `d` of the encryption by `e` of a plaintext of one block or
/// more is that plaintext.
pub proof fn law_formula_round_trip(
    e: spec_fn(Seq<u8>) -> Seq<u8>,
    d: spec_fn(Seq<u8>) -> Seq<u8>,
    tweak: Seq<u8>,
    plain: Seq<u8>,
)
    requires
        inverts(d, e),
        tweak.len() == 16,
        plain.len() >= 16,
    ensures
        xts_encryption(e, tweak, plain).len() == plain.len(),
        xts_decryption(d, tweak, xts_encryption(e, tweak, plain)) == plain,
{
    let len = plain.len() as int;
    let m = len / 16;
    let r = len % 16;
    let crypt = xts_encryption(e, tweak, plain);
    if r == 0 {
        assert(crypt.subrange(0, 16 * m) =~= crypt);
        lemma_xex_blocks_invert(e, d, tweak, plain, crypt, m as nat);
        assert(plain.subrange(0, 16 * m) =~= plain);
    } else {
        let t1 = tweak_at(tweak, (m - 1) as nat);
        let t2 = tweak_at(tweak, m as nat);
        lemma_tweak_at_len(tweak, (m - 1) as nat);
        lemma_tweak_at_len(tweak, m as nat);
        let head = xex_blocks(e, tweak, plain, (m - 1) as nat);
        let full = xex(e, t1, block_at(plain, m - 1));
        lemma_xex_inverts(e, d, t1, block_at(plain, m - 1));
        let filled = plain.subrange(16 * m, len) + full.subrange(r, 16);
        let stolen = xex(e, t2, filled);
        lemma_xex_inverts(e, d, t2, filled);
        assert(crypt == head + stolen + full.subrange(0, r));
        assert(crypt.len() == len);
        assert(crypt.subrange(0, 16 * (m - 1)) =~= head);
        lemma_xex_blocks_invert(e, d, tweak, plain, crypt, (m - 1) as nat);
        assert(block_at(crypt, m - 1) =~= stolen);
        assert(xex(d, t2, block_at(crypt, m - 1)) == filled);
        assert(crypt.subrange(16 * m, len) + filled.subrange(r, 16) =~= full);
        assert(xts_decryption(d, tweak, crypt) =~= plain);
    }
}

/// No hidden randomness in the mode: under a cipher that is a function, a
/// plaintext has one ciphertext from a given first tweak.
pub proof fn law_encrypts_one<C: BlockCipher>(
    cipher: C,
    tweak: Seq<u8>,
    plain: Seq<u8>,
    crypt1: Seq<u8>,
    crypt2: Seq<u8>,
)
    requires
        is_deterministic(cipher),
        tweak.len() == 16,
        xts_encrypts(cipher, tweak, plain, crypt1),
        xts_encrypts(cipher, tweak, plain, crypt2),
    ensures
        crypt1 == crypt2,
{
    let len = plain.len() as int;
    let m = len / 16;
    let r = len % 16;
    let whole = if r == 0 { m } else { m - 1 };
    assert forall|j: int| 0 <= j < whole implies #[trigger] block_at(crypt1, j) == block_at(
        crypt2,
        j,
    ) by {
        lemma_tweak_at_len(tweak, j as nat);
        lemma_xex_encrypts_one(
            cipher,
            tweak_at(tweak, j as nat),
            block_at(plain, j),
            block_at(crypt1, j),
            block_at(crypt2, j),
        );
    }
    if r != 0 {
        let t1 = tweak_at(tweak, (m - 1) as nat);
        let t2 = tweak_at(tweak, m as nat);
        lemma_tweak_at_len(tweak, (m - 1) as nat);
        lemma_tweak_at_len(tweak, m as nat);
        let plain_end = plain.subrange(16 * (m - 1), len);
        let end1 = crypt1.subrange(16 * (m - 1), len);
        let end2 = crypt2.subrange(16 * (m - 1), len);
        let full1 = choose|full: Seq<u8>| steal_encrypts(cipher, t1, t2, plain_end, end1, full);
        let full2 = choose|full: Seq<u8>| steal_encrypts(cipher, t1, t2, plain_end, end2, full);
        lemma_xex_encrypts_one(cipher, t1, plain_end.subrange(0, 16), full1, full2);
        lemma_xex_encrypts_one(
            cipher,
            t2,
            plain_end.subrange(16, 16 + r) + full1.subrange(r, 16),
            end1.subrange(0, 16),
            end2.subrange(0, 16),
        );
        assert forall|i: int| 0 <= i < end1.len() implies end1[i] == end2[i] by {
            if i < 16 {
                assert(end1[i] == end1.subrange(0, 16)[i]);
                assert(end2[i] == end2.subrange(0, 16)[i]);
            } else {
                assert(end1[i] == end1.subrange(16, 16 + r)[i - 16]);
                assert(end2[i] == end2.subrange(16, 16 + r)[i - 16]);
            }
        }
        assert(end1 =~= end2);
    } else {
        assert(crypt1.subrange(16 * m, len) =~= crypt2.subrange(16 * m, len));
    }
    lemma_same_blocks(crypt1, crypt2, whole);
}

/// Two instances made from the same key and initial value, each on its
/// own, have the same cipher and the same first tweak, where keys decide
/// ciphers and every cipher built from a key is a function.
pub proof fn law_same_key_same_instance<C: BlockCipher + NewBlockCipher>(
    key: Seq<u8>,
    iv: Seq<u8>,
    cipher1: C,
    tweak1: Seq<u8>,
    cipher2: C,
    tweak2: Seq<u8>,
)
    requires
        key_decides_cipher::<C>(),
        builds_functions::<C>(),
        derives(key, iv, cipher1, tweak1),
        derives(key, iv, cipher2, tweak2),
    ensures
        cipher1 == cipher2,
        tweak1 == tweak2,
        tweak1.len() == 16,
{
    let size = C::KEY_SIZE as int;
    let half = key.subrange(size, 2 * size);
    let tweak_cipher1 = choose|c: C| builds(half, c) && encrypts(c, iv, tweak1);
    let tweak_cipher2 = choose|c: C| builds(half, c) && encrypts(c, iv, tweak2);
    assert(tweak_cipher1 == tweak_cipher2);
    lemma_encrypts_len(tweak_cipher1, iv, tweak1);
}

/// Tweak determinism: two instances made from the same key and initial
/// value, each on its own, give a plaintext the same ciphertext, where keys
/// decide ciphers and every cipher built from a key is a function.
pub proof fn law_same_key_same_ciphertext<C: BlockCipher + NewBlockCipher>(
    key: Seq<u8>,
    iv: Seq<u8>,
    cipher1: C,
    tweak1: Seq<u8>,
    cipher2: C,
    tweak2: Seq<u8>,
    plain: Seq<u8>,
    crypt1: Seq<u8>,
    crypt2: Seq<u8>,
)
    requires
        key_decides_cipher::<C>(),
        builds_functions::<C>(),
        derives(key, iv, cipher1, tweak1),
        derives(key, iv, cipher2, tweak2),
        xts_encrypts(cipher1, tweak1, plain, crypt1),
        xts_encrypts(cipher2, tweak2, plain, crypt2),
    ensures
        crypt1 == crypt2,
{
    law_same_key_same_instance(key, iv, cipher1, tweak1, cipher2, tweak2);
    assert(builds(key.subrange(0, C::KEY_SIZE as int), cipher1));
    law_encrypts_one(cipher1, tweak1, plain, crypt1, crypt2);
}

/// Round trip under a key: what one instance made from a key and an
/// initial value encrypts, another made from the same two decrypts to the
/// plaintext, where keys decide ciphers and every cipher built from a key is
/// a function whose decryption undoes its encryption.
pub proof fn law_round_trip_under_a_key<C: BlockCipher + NewBlockCipher>(
    key: Seq<u8>,
    iv: Seq<u8>,
    cipher1: C,
    tweak1: Seq<u8>,
    cipher2: C,
    tweak2: Seq<u8>,
    plain: Seq<u8>,
    crypt: Seq<u8>,
    back: Seq<u8>,
)
    requires
        key_decides_cipher::<C>(),
        builds_functions::<C>(),
        builds_inverses::<C>(),
        derives(key, iv, cipher1, tweak1),
        derives(key, iv, cipher2, tweak2),
        xts_encrypts(cipher1, tweak1, plain, crypt),
        xts_decrypts(cipher2, tweak2, crypt, back),
    ensures
        back == plain,
{
    law_same_key_same_instance(key, iv, cipher1, tweak1, cipher2, tweak2);
    assert(builds(key.subrange(0, C::KEY_SIZE as int), cipher1));
    law_round_trip(cipher1, tweak1, plain, crypt, back);
}

/// Malleability scope: where two ciphertexts differ in one block only, and
/// that block is not touched by ciphertext stealing, their decryptions
/// differ in that block and in no other byte. This is asked of the cipher:
/// that it is a function, and that no two blocks decrypt to the same block.
pub proof fn law_malleability<C: BlockCipher>(
    cipher: C,
    tweak: Seq<u8>,
    crypt1: Seq<u8>,
    crypt2: Seq<u8>,
    plain1: Seq<u8>,
    plain2: Seq<u8>,
    i: int,
)
    requires
        is_deterministic(cipher),
        decrypt_is_injective(cipher),
        tweak.len() == 16,
        xts_decrypts(cipher, tweak, crypt1, plain1),
        xts_decrypts(cipher, tweak, crypt2, plain2),
        crypt1.len() == crypt2.len(),
        0 <= i,
        crypt1.len() % 16 == 0 ==> i < crypt1.len() / 16,
        crypt1.len() % 16 != 0 ==> i < crypt1.len() / 16 - 1,
        forall|k: int|
            0 <= k < crypt1.len() && !(16 * i <= k < 16 * i + 16) ==> crypt1[k] == crypt2[k],
        block_at(crypt1, i) != block_at(crypt2, i),
    ensures
        forall|k: int|
            0 <= k < plain1.len() && !(16 * i <= k < 16 * i + 16) ==> plain1[k] == plain2[k],
        block_at(plain1, i) != block_at(plain2, i),
{
    let len = crypt1.len() as int;
    let m = len / 16;
    let r = len % 16;
    let whole = if r == 0 { m } else { m - 1 };
    assert forall|j: int| 0 <= j < whole && j != i implies #[trigger] block_at(plain1, j)
        == block_at(plain2, j) by {
        lemma_tweak_at_len(tweak, j as nat);
        assert(block_at(crypt1, j) =~= block_at(crypt2, j));
        lemma_xex_decrypts_one(
            cipher,
            tweak_at(tweak, j as nat),
            block_at(crypt1, j),
            block_at(plain1, j),
            block_at(plain2, j),
        );
    }
    if r != 0 {
        let t1 = tweak_at(tweak, (m - 1) as nat);
        let t2 = tweak_at(tweak, m as nat);
        lemma_tweak_at_len(tweak, (m - 1) as nat);
        lemma_tweak_at_len(tweak, m as nat);
        let crypt_end = crypt1.subrange(16 * (m - 1), len);
        assert(crypt_end =~= crypt2.subrange(16 * (m - 1), len));
        let end1 = plain1.subrange(16 * (m - 1), len);
        let end2 = plain2.subrange(16 * (m - 1), len);
        let filled1 = choose|filled: Seq<u8>|
            steal_decrypts(cipher, t1, t2, crypt_end, end1, filled);
        let filled2 = choose|filled: Seq<u8>|
            steal_decrypts(cipher, t1, t2, crypt_end, end2, filled);
        lemma_xex_decrypts_one(cipher, t2, crypt_end.subrange(0, 16), filled1, filled2);
        lemma_xex_decrypts_one(
            cipher,
            t1,
            crypt_end.subrange(16, 16 + r) + filled1.subrange(r, 16),
            end1.subrange(0, 16),
            end2.subrange(0, 16),
        );
        assert forall|k: int| 16 * (m - 1) <= k < len implies plain1[k] == plain2[k] by {
            let off = k - 16 * (m - 1);
            assert(plain1[k] == end1[off]);
            assert(plain2[k] == end2[off]);
            if off < 16 {
                assert(end1[off] == end1.subrange(0, 16)[off]);
                assert(end2[off] == end2.subrange(0, 16)[off]);
            } else {
                assert(end1[off] == end1.subrange(16, 16 + r)[off - 16]);
                assert(end2[off] == end2.subrange(16, 16 + r)[off - 16]);
            }
        }
    }
    assert forall|k: int|
        0 <= k < plain1.len() && !(16 * i <= k < 16 * i + 16) implies plain1[k] == plain2[k] by {
        if k < 16 * whole {
            let j = k / 16;
            assert(block_at(plain1, j) == block_at(plain2, j));
            assert(plain1[k] == block_at(plain1, j)[k - 16 * j]);
            assert(plain2[k] == block_at(plain2, j)[k - 16 * j]);
        }
    }
    // The block that differs: were its decryptions the same, the cipher
    // would decrypt two blocks to one.
    let t = tweak_at(tweak, i as nat);
    lemma_tweak_at_len(tweak, i as nat);
    let (in1, in2) = (block_at(crypt1, i), block_at(crypt2, i));
    let (out1, out2) = (block_at(plain1, i), block_at(plain2, i));
    assert(xex_decrypts(cipher, t, in1, out1));
    assert(xex_decrypts(cipher, t, in2, out2));
    if out1 == out2 {
        lemma_decrypts_len(cipher, xor_bytes(in1, t), xor_bytes(out1, t));
        lemma_decrypts_len(cipher, xor_bytes(in2, t), xor_bytes(out2, t));
        lemma_xor_cancel(in1, in2, t);
    }
}

/// Tweak advancement: going to the next block doubles the tweak, read as a
/// number with the least significant byte first, in GF(2^128).
pub proof fn law_next_tweak_doubles(t: Seq<u8>)
    requires
        t.len() == 16,
    ensures
        le_value(next_tweak(t)) == gf_double(le_value(t)),
{
    lemma_le_value_of_bytes(gf_double(le_value(t)));
}

/// Field doubling: `gf_double` is the multiplication by `x` modulo
/// `x^128 + x^7 + x^2 + x + 1`: each coefficient moves one power up, and
/// the one that reaches `x^128` is added to those of `x^7`, `x^2`, `x` and 1.
pub proof fn law_gf_double_is_times_x(v: u128, i: u128)
    requires
        i < 128,
    ensures
        coefficient(gf_double(v), i) == ((i > 0 && coefficient(v, (i - 1) as u128)) != (
        coefficient(v, 127) && (i == 0 || i == 1 || i == 2 || i == 7))),
{
    let d = gf_double(v);
    let below = if i > 0 { (i - 1) as u128 } else { 0u128 };
    assert(((d >> i) & 1 == 1) == ((i > 0 && (v >> below) & 1 == 1) != ((v >> 127) & 1 == 1 && (i
        == 0 || i == 1 || i == 2 || i == 7)))) by (bit_vector)
        requires
            i < 128,
            below == (if i > 0 { (i - 1) as u128 } else { 0u128 }),
            d == (if v >> 127 == 1 {
                (v << 1) ^ 0x87
            } else {
                v << 1
            }),
    ;
}

} // verus!
