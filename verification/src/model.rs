//! What the mode computes, stated over byte sequences.
//!
//! The first half of this file is the mode over a block function `e` or `d`
//! from 16 bytes to 16 bytes: [`xts_encryption`] and [`xts_decryption`] are the
//! textbook formulas. The second half takes a cipher as it is: the relations
//! [`xts_encrypts`] and [`xts_decrypts`] say which ciphertexts a plaintext
//! can have under a cipher and a first tweak, whatever the cipher's methods
//! may return. Where the cipher computes a function, the relations come down
//! to the formulas.

use crate::cipher::{builds, decrypts, encrypts, BlockCipher, NewBlockCipher};
use crate::tweak::tweak_at;
use crate::utils::xor_bytes;
use vstd::prelude::*;

verus! {

/// The bytes of block number `j` of `data`.
pub open spec fn block_at(data: Seq<u8>, j: int) -> Seq<u8> {
    data.subrange(16 * j, 16 * j + 16)
}

/// The XEX transform of `block` under `tweak` by the block function `f`:
/// `f(block ^ tweak) ^ tweak`.
pub open spec fn xex(f: spec_fn(Seq<u8>) -> Seq<u8>, tweak: Seq<u8>, block: Seq<u8>) -> Seq<u8> {
    xor_bytes(f(xor_bytes(block, tweak)), tweak)
}

/// The first `n` blocks of `data`, each under its XEX transform by `f`,
/// block `j` with the tweak `j` steps behind `tweak`.
pub open spec fn xex_blocks(
    f: spec_fn(Seq<u8>) -> Seq<u8>,
    tweak: Seq<u8>,
    data: Seq<u8>,
    n: nat,
) -> Seq<u8> {
    Seq::new(
        16 * n,
        |i: int| xex(f, tweak_at(tweak, (i / 16) as nat), block_at(data, i / 16))[i % 16],
    )
}

/// The XTS encryption of `plain`, of one block or more, by the block
/// encryption `e`, with `tweak` for the first block.
///
/// Where the length is a multiple of 16, every block is XEX-encrypted.
/// Where `r` bytes are left behind the last full block, that block is
/// XEX-encrypted to `full`; the ciphertext ends with the first `r` bytes of
/// `full`, and in the place of the block stands the XEX encryption, under
/// the tweak that comes next, of `filled`: the `r` last bytes of `plain`
/// followed by the other bytes of `full`.
pub open spec fn xts_encryption(
    e: spec_fn(Seq<u8>) -> Seq<u8>,
    tweak: Seq<u8>,
    plain: Seq<u8>,
) -> Seq<u8>
    recommends
        plain.len() >= 16,
        tweak.len() == 16,
{
    let len = plain.len() as int;
    let m = len / 16;
    let r = len % 16;
    if r == 0 {
        xex_blocks(e, tweak, plain, m as nat)
    } else {
        let full = xex(e, tweak_at(tweak, (m - 1) as nat), block_at(plain, m - 1));
        let filled = plain.subrange(16 * m, len) + full.subrange(r, 16);
        xex_blocks(e, tweak, plain, (m - 1) as nat) + xex(e, tweak_at(tweak, m as nat), filled)
            + full.subrange(0, r)
    }
}

/// The XTS decryption of `crypt`, of one block or more, by the block
/// decryption `d`, with `tweak` for the first block.
///
/// Where `r` bytes are left behind the last full block, that block is
/// XEX-decrypted, under the tweak behind its own, to `filled`; the plaintext
/// ends with the first `r` bytes of `filled`, and in the place of the block
/// stands the XEX decryption, under the block's own tweak, of the `r` last
/// bytes of `crypt` followed by the other bytes of `filled`.
pub open spec fn xts_decryption(
    d: spec_fn(Seq<u8>) -> Seq<u8>,
    tweak: Seq<u8>,
    crypt: Seq<u8>,
) -> Seq<u8>
    recommends
        crypt.len() >= 16,
        tweak.len() == 16,
{
    let len = crypt.len() as int;
    let m = len / 16;
    let r = len % 16;
    if r == 0 {
        xex_blocks(d, tweak, crypt, m as nat)
    } else {
        let filled = xex(d, tweak_at(tweak, m as nat), block_at(crypt, m - 1));
        let full = crypt.subrange(16 * m, len) + filled.subrange(r, 16);
        xex_blocks(d, tweak, crypt, (m - 1) as nat) + xex(d, tweak_at(tweak, (m - 1) as nat), full)
            + filled.subrange(0, r)
    }
}

/// `d` undoes `e` on blocks, and `e` gives blocks for blocks.
pub open spec fn inverts(d: spec_fn(Seq<u8>) -> Seq<u8>, e: spec_fn(Seq<u8>) -> Seq<u8>) -> bool {
    forall|x: Seq<u8>| x.len() == 16 ==> (#[trigger] e(x)).len() == 16 && d(e(x)) == x
}

/// `output` is an XEX encryption of the block `input` under `tweak`: the
/// cipher turns `input ^ tweak` into `output ^ tweak`, so that `output` is
/// `E(input ^ tweak) ^ tweak`.
pub open spec fn xex_encrypts<C: BlockCipher>(
    cipher: C,
    tweak: Seq<u8>,
    input: Seq<u8>,
    output: Seq<u8>,
) -> bool {
    encrypts(cipher, xor_bytes(input, tweak), xor_bytes(output, tweak))
}

/// `output` is an XEX decryption of the block `input` under `tweak`: the
/// cipher turns `input ^ tweak` back into `output ^ tweak`.
pub open spec fn xex_decrypts<C: BlockCipher>(
    cipher: C,
    tweak: Seq<u8>,
    input: Seq<u8>,
    output: Seq<u8>,
) -> bool {
    decrypts(cipher, xor_bytes(input, tweak), xor_bytes(output, tweak))
}

/// Each of the first `n` blocks of `output` is an XEX encryption of the same
/// block of `input`, block `j` under the tweak `j` steps behind `tweak`.
pub open spec fn blocks_encrypted<C: BlockCipher>(
    cipher: C,
    tweak: Seq<u8>,
    input: Seq<u8>,
    output: Seq<u8>,
    n: nat,
) -> bool {
    forall|j: int|
        0 <= j < n ==> xex_encrypts(
            cipher,
            tweak_at(tweak, j as nat),
            block_at(input, j),
            #[trigger] block_at(output, j),
        )
}

/// Each of the first `n` blocks of `output` is an XEX decryption of the same
/// block of `input`, block `j` under the tweak `j` steps behind `tweak`.
pub open spec fn blocks_decrypted<C: BlockCipher>(
    cipher: C,
    tweak: Seq<u8>,
    input: Seq<u8>,
    output: Seq<u8>,
    n: nat,
) -> bool {
    forall|j: int|
        0 <= j < n ==> xex_decrypts(
            cipher,
            tweak_at(tweak, j as nat),
            block_at(input, j),
            #[trigger] block_at(output, j),
        )
}

/// The number of whole blocks in `data`.
pub open spec fn whole_blocks(data: Seq<u8>) -> nat {
    data.len() / 16
}

/// `output` is as long as `input` and holds the same bytes from `from` on.
pub open spec fn same_from(input: Seq<u8>, output: Seq<u8>, from: int) -> bool {
    &&& output.len() == input.len()
    &&& forall|i: int| from <= i < input.len() ==> output[i] == input[i]
}

/// Ciphertext stealing on encryption. `plain` holds the last full block of
/// the plaintext and the `r` bytes behind it, `crypt` the same stretch of the
/// ciphertext; `tweak` and `next` are the tweaks of the two blocks. `full` is
/// the XEX encryption of the full block: its first `r` bytes end the
/// ciphertext, and its other bytes fill the partial block up to a whole one,
/// whose XEX encryption under `next` takes the place of the full block.
pub open spec fn steal_encrypts<C: BlockCipher>(
    cipher: C,
    tweak: Seq<u8>,
    next: Seq<u8>,
    plain: Seq<u8>,
    crypt: Seq<u8>,
    full: Seq<u8>,
) -> bool {
    let r = plain.len() - 16;
    &&& 0 < r < 16
    &&& crypt.len() == plain.len()
    &&& xex_encrypts(cipher, tweak, plain.subrange(0, 16), full)
    &&& xex_encrypts(
        cipher,
        next,
        plain.subrange(16, 16 + r) + full.subrange(r, 16),
        crypt.subrange(0, 16),
    )
    &&& crypt.subrange(16, 16 + r) == full.subrange(0, r)
}

/// Ciphertext stealing on decryption, the reverse of [`steal_encrypts`].
/// `filled` is the XEX decryption under `next` of the full block of `crypt`:
/// its first `r` bytes end the plaintext, and its other bytes follow the
/// partial block of `crypt` to make a whole one, whose XEX decryption under
/// `tweak` is the last full block of the plaintext.
pub open spec fn steal_decrypts<C: BlockCipher>(
    cipher: C,
    tweak: Seq<u8>,
    next: Seq<u8>,
    crypt: Seq<u8>,
    plain: Seq<u8>,
    filled: Seq<u8>,
) -> bool {
    let r = crypt.len() - 16;
    &&& 0 < r < 16
    &&& plain.len() == crypt.len()
    &&& xex_decrypts(cipher, next, crypt.subrange(0, 16), filled)
    &&& plain.subrange(16, 16 + r) == filled.subrange(0, r)
    &&& xex_decrypts(
        cipher,
        tweak,
        crypt.subrange(16, 16 + r) + filled.subrange(r, 16),
        plain.subrange(0, 16),
    )
}

/// `crypt` is an XTS encryption of `plain` under `cipher`, with `tweak` for
/// the first block: block by block where the length is a multiple of 16, and
/// with ciphertext stealing on the last full block and the bytes behind it
/// where it is not. No plaintext shorter than one block has a ciphertext.
pub open spec fn xts_encrypts<C: BlockCipher>(
    cipher: C,
    tweak: Seq<u8>,
    plain: Seq<u8>,
    crypt: Seq<u8>,
) -> bool {
    let len = plain.len() as int;
    let m = len / 16;
    &&& len >= 16
    &&& crypt.len() == len
    &&& len % 16 == 0 ==> blocks_encrypted(cipher, tweak, plain, crypt, m as nat)
    &&& len % 16 != 0 ==> {
        &&& blocks_encrypted(cipher, tweak, plain, crypt, (m - 1) as nat)
        &&& exists|full: Seq<u8>| #[trigger]
            steal_encrypts(
                cipher,
                tweak_at(tweak, (m - 1) as nat),
                tweak_at(tweak, m as nat),
                plain.subrange(16 * (m - 1), len),
                crypt.subrange(16 * (m - 1), len),
                full,
            )
    }
}

/// `plain` is an XTS decryption of `crypt` under `cipher`, with `tweak` for
/// the first block.
pub open spec fn xts_decrypts<C: BlockCipher>(
    cipher: C,
    tweak: Seq<u8>,
    crypt: Seq<u8>,
    plain: Seq<u8>,
) -> bool {
    let len = crypt.len() as int;
    let m = len / 16;
    &&& len >= 16
    &&& plain.len() == len
    &&& len % 16 == 0 ==> blocks_decrypted(cipher, tweak, crypt, plain, m as nat)
    &&& len % 16 != 0 ==> {
        &&& blocks_decrypted(cipher, tweak, crypt, plain, (m - 1) as nat)
        &&& exists|filled: Seq<u8>| #[trigger]
            steal_decrypts(
                cipher,
                tweak_at(tweak, (m - 1) as nat),
                tweak_at(tweak, m as nat),
                crypt.subrange(16 * (m - 1), len),
                plain.subrange(16 * (m - 1), len),
                filled,
            )
    }
}

/// The key bytes `key` and the initial value `iv` give an instance with the
/// data cipher `cipher` and the first tweak `tweak`: the first half of the
/// key builds `cipher`, and a cipher built from the second half turns `iv`
/// into `tweak`.
pub open spec fn derives<C: BlockCipher + NewBlockCipher>(
    key: Seq<u8>,
    iv: Seq<u8>,
    cipher: C,
    tweak: Seq<u8>,
) -> bool {
    let size = C::KEY_SIZE as int;
    &&& key.len() == 2 * size
    &&& iv.len() == 16
    &&& builds(key.subrange(0, size), cipher)
    &&& exists|tweak_cipher: C| #[trigger]
        builds(key.subrange(size, 2 * size), tweak_cipher) && encrypts(tweak_cipher, iv, tweak)
}

} // verus!
