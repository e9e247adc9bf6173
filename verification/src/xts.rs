//! The mode instance and its operations.

use crate::cipher::{
    builds, decrypts, decrypts_by, encrypts, encrypts_by, refuses, Block, BlockCipher,
    NewBlockCipher,
};
use crate::errors::{BlockModeError, InvalidKeyIvLength};
use crate::laws::{
    law_decrypt_blocks_formula, law_decrypt_formula, law_encrypt_blocks_formula,
    law_encrypt_formula,
};
use crate::model::{
    block_at, blocks_decrypted, blocks_encrypted, derives, same_from, steal_decrypts,
    steal_encrypts, whole_blocks, xex_blocks, xex_decrypts, xex_encrypts, xts_decryption,
    xts_decrypts, xts_encryption, xts_encrypts,
};
use crate::tweak::{get_next_tweak, tweak_at};
use crate::utils::{lemma_xor_twice, load_block, store, xor};
use vstd::prelude::*;
use vstd::slice::{slice_subrange, slice_to_vec};

verus! {

/// Xor-encrypt-xor with ciphertext stealing (XTS), over a cipher with
/// 128-bit blocks.
///
/// An instance holds the cipher for the data and the tweak of the block that
/// comes next. It is used up by one call of `encrypt` or `decrypt`, so that no
/// tweak sequence serves two messages.
pub struct Xts<C: BlockCipher> {
    cipher: C,
    tweak: Block,
}

impl<C: BlockCipher> Xts<C> {
    /// The cipher that the data blocks go through.
    pub closed spec fn cipher(&self) -> C {
        self.cipher
    }

    /// The tweak of the next block.
    pub closed spec fn tweak(&self) -> Seq<u8> {
        self.tweak@
    }

    /// An instance over `cipher` that starts at the tweak `iv`, taken as it
    /// is: where the tweak is derived from a sector number, the caller has
    /// encrypted it under the tweak key already.
    pub fn new(cipher: C, iv: &Block) -> (mode: Self)
        ensures
            mode.cipher() == cipher,
            mode.tweak() == iv@,
    {
        Xts { cipher, tweak: *iv }
    }

    /// Replaces `block` by its XEX encryption under the current tweak: masks
    /// it with the tweak, encrypts it, and masks it again.
    fn xex_encrypt(&self, block: &mut Block)
        ensures
            xex_encrypts(self.cipher(), self.tweak(), old(block)@, final(block)@),
    {
        xor(block, &self.tweak);
        let ghost masked = block@;
        *block = self.cipher.encrypt_block(*block);
        let ghost encrypted = block@;
        xor(block, &self.tweak);
        proof {
            lemma_xor_twice(encrypted, self.tweak@);
            assert(encrypts(self.cipher, masked, encrypted));
        }
    }

    /// Replaces `block` by its XEX decryption under the current tweak: masks
    /// it with the tweak, decrypts it, and masks it again.
    fn xex_decrypt(&self, block: &mut Block)
        ensures
            xex_decrypts(self.cipher(), self.tweak(), old(block)@, final(block)@),
    {
        xor(block, &self.tweak);
        let ghost masked = block@;
        *block = self.cipher.decrypt_block(*block);
        let ghost decrypted = block@;
        xor(block, &self.tweak);
        proof {
            lemma_xor_twice(decrypted, self.tweak@);
            assert(decrypts(self.cipher, masked, decrypted));
        }
    }

    /// Encrypts in place as many whole blocks as `blocks` holds, each under
    /// its own tweak, and leaves the tweak at the one behind the last block.
    /// The bytes behind the last whole block stay as they are.
    pub fn encrypt_blocks(&mut self, blocks: &mut [u8])
        ensures
            blocks_encrypted(
                old(self).cipher(),
                old(self).tweak(),
                old(blocks)@,
                final(blocks)@,
                whole_blocks(old(blocks)@),
            ),
            same_from(old(blocks)@, final(blocks)@, 16 * (whole_blocks(old(blocks)@) as int)),
            forall|e: spec_fn(Seq<u8>) -> Seq<u8>| #[trigger]
                encrypts_by(old(self).cipher(), e) ==> final(blocks)@.subrange(
                    0,
                    16 * (whole_blocks(old(blocks)@) as int),
                ) == xex_blocks(e, old(self).tweak(), old(blocks)@, whole_blocks(old(blocks)@)),
            final(self).cipher() == old(self).cipher(),
            final(self).tweak() == tweak_at(old(self).tweak(), whole_blocks(old(blocks)@)),
    {
        let len = blocks.len();
        let count = len / 16;
        let mut k: usize = 0;
        while k < count
            invariant
                k <= count == len / 16,
                len == blocks@.len() == old(blocks)@.len(),
                self.cipher == old(self).cipher,
                self.tweak@ == tweak_at(old(self).tweak@, k as nat),
                blocks_encrypted(
                    old(self).cipher,
                    old(self).tweak@,
                    old(blocks)@,
                    blocks@,
                    k as nat,
                ),
                same_from(old(blocks)@, blocks@, 16 * k),
            decreases count - k,
        {
            let ghost before = blocks@;
            let mut block = load_block(blocks, 16 * k);
            self.xex_encrypt(&mut block);
            store(blocks, 16 * k, &block);
            get_next_tweak(&mut self.tweak);
            proof {
                assert(block_at(blocks@, k as int) =~= block@);
                assert(block_at(before, k as int) =~= block_at(old(blocks)@, k as int));
                assert forall|j: int| 0 <= j < k + 1 implies xex_encrypts(
                    old(self).cipher,
                    tweak_at(old(self).tweak@, j as nat),
                    block_at(old(blocks)@, j),
                    #[trigger] block_at(blocks@, j),
                ) by {
                    if j < k {
                        assert(block_at(blocks@, j) =~= block_at(before, j));
                    }
                }
            }
            k += 1;
        }
        proof {
            assert forall|e: spec_fn(Seq<u8>) -> Seq<u8>| #[trigger]
                encrypts_by(old(self).cipher, e) implies blocks@.subrange(0, 16 * (count as int))
                == xex_blocks(e, old(self).tweak@, old(blocks)@, count as nat) by {
                law_encrypt_blocks_formula(
                    old(self).cipher,
                    e,
                    old(self).tweak@,
                    old(blocks)@,
                    blocks@,
                    count as nat,
                );
            }
        }
    }

    /// Decrypts in place as many whole blocks as `blocks` holds, each under
    /// its own tweak, and leaves the tweak at the one behind the last block.
    /// The bytes behind the last whole block stay as they are.
    pub fn decrypt_blocks(&mut self, blocks: &mut [u8])
        ensures
            blocks_decrypted(
                old(self).cipher(),
                old(self).tweak(),
                old(blocks)@,
                final(blocks)@,
                whole_blocks(old(blocks)@),
            ),
            same_from(old(blocks)@, final(blocks)@, 16 * (whole_blocks(old(blocks)@) as int)),
            forall|d: spec_fn(Seq<u8>) -> Seq<u8>| #[trigger]
                decrypts_by(old(self).cipher(), d) ==> final(blocks)@.subrange(
                    0,
                    16 * (whole_blocks(old(blocks)@) as int),
                ) == xex_blocks(d, old(self).tweak(), old(blocks)@, whole_blocks(old(blocks)@)),
            final(self).cipher() == old(self).cipher(),
            final(self).tweak() == tweak_at(old(self).tweak(), whole_blocks(old(blocks)@)),
    {
        let len = blocks.len();
        let count = len / 16;
        let mut k: usize = 0;
        while k < count
            invariant
                k <= count == len / 16,
                len == blocks@.len() == old(blocks)@.len(),
                self.cipher == old(self).cipher,
                self.tweak@ == tweak_at(old(self).tweak@, k as nat),
                blocks_decrypted(
                    old(self).cipher,
                    old(self).tweak@,
                    old(blocks)@,
                    blocks@,
                    k as nat,
                ),
                same_from(old(blocks)@, blocks@, 16 * k),
            decreases count - k,
        {
            let ghost before = blocks@;
            let mut block = load_block(blocks, 16 * k);
            self.xex_decrypt(&mut block);
            store(blocks, 16 * k, &block);
            get_next_tweak(&mut self.tweak);
            proof {
                assert(block_at(blocks@, k as int) =~= block@);
                assert(block_at(before, k as int) =~= block_at(old(blocks)@, k as int));
                assert forall|j: int| 0 <= j < k + 1 implies xex_decrypts(
                    old(self).cipher,
                    tweak_at(old(self).tweak@, j as nat),
                    block_at(old(blocks)@, j),
                    #[trigger] block_at(blocks@, j),
                ) by {
                    if j < k {
                        assert(block_at(blocks@, j) =~= block_at(before, j));
                    }
                }
            }
            k += 1;
        }
        proof {
            assert forall|d: spec_fn(Seq<u8>) -> Seq<u8>| #[trigger]
                decrypts_by(old(self).cipher, d) implies blocks@.subrange(0, 16 * (count as int))
                == xex_blocks(d, old(self).tweak@, old(blocks)@, count as nat) by {
                law_decrypt_blocks_formula(
                    old(self).cipher,
                    d,
                    old(self).tweak@,
                    old(blocks)@,
                    blocks@,
                    count as nat,
                );
            }
        }
    }

    /// Encrypts `buffer` in place and hands it back. `_pos` is taken for the
    /// sake of callers that treat all modes alike and is not read: the mode
    /// never pads. A buffer shorter than one block is refused and left as it
    /// is.
    pub fn encrypt<'a>(self, buffer: &'a mut [u8], _pos: usize) -> (r: Result<
        &'a [u8],
        BlockModeError,
    >)
        ensures
            final(buffer)@.len() == old(buffer)@.len(),
            old(buffer)@.len() < 16 ==> r is Err && final(buffer)@ == old(buffer)@,
            old(buffer)@.len() >= 16 ==> (r matches Ok(out) && out@ == final(buffer)@)
                && xts_encrypts(self.cipher(), self.tweak(), old(buffer)@, final(buffer)@),
            forall|e: spec_fn(Seq<u8>) -> Seq<u8>|
                old(buffer)@.len() >= 16 && #[trigger] encrypts_by(self.cipher(), e)
                    ==> final(buffer)@ == xts_encryption(e, self.tweak(), old(buffer)@),
    {
        let mut mode = self;
        let len = buffer.len();
        if len < 16 {
            return Err(BlockModeError);
        }
        mode.encrypt_blocks(buffer);
        let leftover = len % 16;
        if leftover != 0 {
            let last = len - leftover - 16;
            let ghost whole = buffer@;
            let ghost m = len as int / 16;
            assert(last == 16 * (m - 1));
            // The encrypted last full block gives its head to the end of the
            // ciphertext and its tail to the partial block, which is then
            // encrypted in its place under the tweak that comes next.
            let full = load_block(buffer, last);
            let mut block = full;
            store(&mut block, 0, slice_subrange(buffer, last + 16, len));
            let ghost filled = block@;
            store(buffer, last + 16, slice_subrange(&full, 0, leftover));
            mode.xex_encrypt(&mut block);
            store(buffer, last, &block);
            proof {
                let plain = old(buffer)@;
                let crypt = buffer@;
                assert(full@ =~= block_at(whole, m - 1));
                assert forall|j: int| 0 <= j < m - 1 implies xex_encrypts(
                    self.cipher,
                    tweak_at(self.tweak@, j as nat),
                    block_at(plain, j),
                    #[trigger] block_at(crypt, j),
                ) by {
                    assert(block_at(crypt, j) =~= block_at(whole, j));
                }
                let plain_end = plain.subrange(16 * (m - 1), len as int);
                let crypt_end = crypt.subrange(16 * (m - 1), len as int);
                assert(plain_end.subrange(0, 16) =~= block_at(plain, m - 1));
                assert(plain_end.subrange(16, 16 + leftover) + full@.subrange(leftover as int, 16)
                    =~= filled);
                assert(crypt_end.subrange(0, 16) =~= block@);
                assert(crypt_end.subrange(16, 16 + leftover) =~= full@.subrange(
                    0,
                    leftover as int,
                ));
                assert(steal_encrypts(
                    self.cipher,
                    tweak_at(self.tweak@, (m - 1) as nat),
                    tweak_at(self.tweak@, m as nat),
                    plain_end,
                    crypt_end,
                    full@,
                ));
            }
        }
        proof {
            assert forall|e: spec_fn(Seq<u8>) -> Seq<u8>| #[trigger]
                encrypts_by(self.cipher, e) implies buffer@ == xts_encryption(
                e,
                self.tweak@,
                old(buffer)@,
            ) by {
                law_encrypt_formula(self.cipher, e, self.tweak@, old(buffer)@, buffer@);
            }
        }
        Ok(buffer)
    }

    /// Decrypts `buffer` in place and hands it back. A buffer shorter than
    /// one block is refused and left as it is.
    pub fn decrypt<'a>(self, buffer: &'a mut [u8]) -> (r: Result<&'a [u8], BlockModeError>)
        ensures
            final(buffer)@.len() == old(buffer)@.len(),
            old(buffer)@.len() < 16 ==> r is Err && final(buffer)@ == old(buffer)@,
            old(buffer)@.len() >= 16 ==> (r matches Ok(out) && out@ == final(buffer)@)
                && xts_decrypts(self.cipher(), self.tweak(), old(buffer)@, final(buffer)@),
            forall|d: spec_fn(Seq<u8>) -> Seq<u8>|
                old(buffer)@.len() >= 16 && #[trigger] decrypts_by(self.cipher(), d)
                    ==> final(buffer)@ == xts_decryption(d, self.tweak(), old(buffer)@),
    {
        let mut mode = self;
        let len = buffer.len();
        if len < 16 {
            return Err(BlockModeError);
        }
        let leftover = len % 16;
        if leftover == 0 {
            mode.decrypt_blocks(buffer);
        } else {
            let last = len - leftover - 16;
            let ghost m = len as int / 16;
            assert(last == 16 * (m - 1));
            let (head, _) = buffer.split_at_mut(last);
            let ghost head_before = head@;
            mode.decrypt_blocks(head);
            let ghost head_after = head@;
            let ghost whole = buffer@;
            // The block that took the place of the last full block comes
            // first, under the tweak behind that block's own, which is kept
            // for the block put together from what is left.
            let second_to_last_tweak = mode.tweak;
            get_next_tweak(&mut mode.tweak);
            let mut filled = load_block(buffer, last);
            mode.xex_decrypt(&mut filled);
            let mut block = filled;
            store(&mut block, 0, slice_subrange(buffer, last + 16, len));
            let ghost full = block@;
            store(buffer, last + 16, slice_subrange(&filled, 0, leftover));
            mode.tweak = second_to_last_tweak;
            mode.xex_decrypt(&mut block);
            store(buffer, last, &block);
            proof {
                let crypt = old(buffer)@;
                let plain = buffer@;
                assert(whole.subrange(last as int, len as int) =~= crypt.subrange(
                    last as int,
                    len as int,
                ));
                assert forall|j: int| 0 <= j < m - 1 implies xex_decrypts(
                    self.cipher,
                    tweak_at(self.tweak@, j as nat),
                    block_at(crypt, j),
                    #[trigger] block_at(plain, j),
                ) by {
                    assert(block_at(plain, j) =~= block_at(head_after, j));
                    assert(block_at(crypt, j) =~= block_at(head_before, j));
                }
                let crypt_end = crypt.subrange(16 * (m - 1), len as int);
                let plain_end = plain.subrange(16 * (m - 1), len as int);
                assert(crypt_end.subrange(0, 16) =~= whole.subrange(last as int, last + 16));
                assert(crypt_end.subrange(16, 16 + leftover) + filled@.subrange(
                    leftover as int,
                    16,
                ) =~= full);
                assert(plain_end.subrange(0, 16) =~= block@);
                assert(plain_end.subrange(16, 16 + leftover) =~= filled@.subrange(
                    0,
                    leftover as int,
                ));
                assert(steal_decrypts(
                    self.cipher,
                    tweak_at(self.tweak@, (m - 1) as nat),
                    tweak_at(self.tweak@, m as nat),
                    crypt_end,
                    plain_end,
                    filled@,
                ));
            }
        }
        proof {
            assert forall|d: spec_fn(Seq<u8>) -> Seq<u8>| #[trigger]
                decrypts_by(self.cipher, d) implies buffer@ == xts_decryption(
                d,
                self.tweak@,
                old(buffer)@,
            ) by {
                law_decrypt_formula(self.cipher, d, self.tweak@, old(buffer)@, buffer@);
            }
        }
        Ok(buffer)
    }

    /// Encrypts `plaintext`, of one block or more, into a new vector.
    pub fn encrypt_vec(self, plaintext: &[u8]) -> (crypt: Vec<u8>)
        requires
            plaintext@.len() >= 16,
        ensures
            xts_encrypts(self.cipher(), self.tweak(), plaintext@, crypt@),
            forall|e: spec_fn(Seq<u8>) -> Seq<u8>| #[trigger]
                encrypts_by(self.cipher(), e) ==> crypt@ == xts_encryption(
                    e,
                    self.tweak(),
                    plaintext@,
                ),
    {
        let mut buf = slice_to_vec(plaintext);
        let done = self.encrypt(buf.as_mut_slice(), 0);
        assert(done is Ok);
        buf
    }

    /// Decrypts `ciphertext` into a new vector, or refuses one that is
    /// shorter than a block.
    pub fn decrypt_vec(self, ciphertext: &[u8]) -> (r: Result<Vec<u8>, BlockModeError>)
        ensures
            ciphertext@.len() < 16 ==> r is Err,
            ciphertext@.len() >= 16 ==> (r matches Ok(plain) && xts_decrypts(
                self.cipher(),
                self.tweak(),
                ciphertext@,
                plain@,
            )),
            forall|d: spec_fn(Seq<u8>) -> Seq<u8>|
                ciphertext@.len() >= 16 && #[trigger] decrypts_by(self.cipher(), d) ==> (r matches
                Ok(plain) && plain@ == xts_decryption(d, self.tweak(), ciphertext@)),
    {
        let mut buf = slice_to_vec(ciphertext);
        match self.decrypt(buf.as_mut_slice()) {
            Ok(_) => Ok(buf),
            Err(e) => Err(e),
        }
    }
}

impl<C: BlockCipher + NewBlockCipher> Xts<C> {
    /// An instance from raw key bytes and an initial value. The first half
    /// of `key` keys the cipher for the data; the second half keys a cipher
    /// that is used once, to encrypt `iv` into the first tweak. Fails where
    /// `key` is not twice the cipher's key size long or `iv` is not one block
    /// long, before any cipher is built, and where the cipher refuses a half
    /// of the key.
    pub fn new_var(key: &[u8], iv: &[u8]) -> (r: Result<Self, InvalidKeyIvLength>)
        ensures
            key@.len() != 2 * C::KEY_SIZE || iv@.len() != 16 ==> r is Err,
            r matches Ok(mode) ==> derives(key@, iv@, mode.cipher(), mode.tweak()),
            r is Err ==> {
                ||| key@.len() != 2 * C::KEY_SIZE
                ||| iv@.len() != 16
                ||| refuses::<C>(key@.subrange(0, C::KEY_SIZE as int))
                ||| refuses::<C>(key@.subrange(C::KEY_SIZE as int, 2 * C::KEY_SIZE))
            },
    {
        let size = C::KEY_SIZE;
        let key_len = key.len();
        if size > usize::MAX / 2 || key_len != 2 * size || iv.len() != 16 {
            return Err(InvalidKeyIvLength);
        }
        let cipher = match C::new_varkey(slice_subrange(key, 0, size)) {
            Ok(cipher) => cipher,
            Err(_) => {
                return Err(InvalidKeyIvLength);
            },
        };
        let tweak_cipher = match C::new_varkey(slice_subrange(key, size, key_len)) {
            Ok(cipher) => cipher,
            Err(_) => {
                return Err(InvalidKeyIvLength);
            },
        };
        let block = load_block(iv, 0);
        assert(block@ =~= iv@);
        let tweak = tweak_cipher.encrypt_block(block);
        proof {
            assert(builds(key@.subrange(size as int, 2 * size), tweak_cipher) && encrypts(
                tweak_cipher,
                iv@,
                tweak@,
            ));
        }
        Ok(Xts { cipher, tweak })
    }
}

} // verus!
