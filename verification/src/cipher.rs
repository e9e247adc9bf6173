//! The block cipher that the mode is built on.
//!
//! The two traits follow the `block-cipher` crate method for method, so
//! that an adapter for a cipher of that crate is a few forwarding lines.
//! Blocks are fixed at 16 bytes and handed over by value: what a method can
//! return is then a relation between two plain values.
//!
//! The methods carry no contract. The mode is verified for every
//! implementation, and its own contracts speak of what a cipher's methods
//! can return, through the relations below: `call_ensures(f, args, r)` holds
//! of every result `r` that a call of `f` on `args` can have. What a sound
//! cipher adds to that (that it computes a function, that its decryption
//! undoes its encryption) is stated as predicates, for the laws that need
//! them. An implementation that is itself verified proves them from the
//! `ensures` that it gives its methods.

use block_cipher::InvalidKeyLength;
use vstd::prelude::*;

verus! {

/// One cipher block.
pub type Block = [u8; 16];

/// The error of `block_cipher::NewBlockCipher::new_varkey`, an opaque unit
/// struct. Nothing is claimed of it.
#[verifier::external_type_specification]
#[verifier::external_body]
pub struct ExInvalidKeyLength(block_cipher::InvalidKeyLength);

/// A keyed transformation of 16-byte blocks, in both directions.
pub trait BlockCipher: Sized {
    /// Encrypts one block.
    fn encrypt_block(&self, block: Block) -> Block;

    /// Decrypts one block.
    fn decrypt_block(&self, block: Block) -> Block;
}

/// A block cipher that can be built from key bytes.
pub trait NewBlockCipher: Sized {
    /// The key length in bytes that the cipher is sure to accept.
    const KEY_SIZE: usize;

    /// Builds the cipher from a key of any length, or refuses the key.
    fn new_varkey(key: &[u8]) -> Result<Self, InvalidKeyLength>;
}

/// `cipher.encrypt_block` can turn the block with bytes `input` into the one
/// with bytes `output`.
pub open spec fn encrypts<C: BlockCipher>(cipher: C, input: Seq<u8>, output: Seq<u8>) -> bool {
    exists|a: Block, b: Block|
        a@ == input && b@ == output && #[trigger] call_ensures(
            C::encrypt_block,
            (&cipher, a),
            b,
        )
}

/// `cipher.decrypt_block` can turn the block with bytes `input` into the one
/// with bytes `output`.
pub open spec fn decrypts<C: BlockCipher>(cipher: C, input: Seq<u8>, output: Seq<u8>) -> bool {
    exists|a: Block, b: Block|
        a@ == input && b@ == output && #[trigger] call_ensures(
            C::decrypt_block,
            (&cipher, a),
            b,
        )
}

/// `C::new_varkey` can build `cipher` from the key bytes `key`.
pub open spec fn builds<C: NewBlockCipher>(key: Seq<u8>, cipher: C) -> bool {
    exists|k: &[u8]|
        k@ == key && #[trigger] call_ensures(
            C::new_varkey,
            (k,),
            Ok::<C, InvalidKeyLength>(cipher),
        )
}

/// `C::new_varkey` can refuse the key bytes `key`.
pub open spec fn refuses<C: NewBlockCipher>(key: Seq<u8>) -> bool {
    exists|k: &[u8], e: InvalidKeyLength|
        k@ == key && #[trigger] call_ensures(
            C::new_varkey,
            (k,),
            Err::<C, InvalidKeyLength>(e),
        )
}

/// `cipher.encrypt_block` computes the function `f` on the bytes of a
/// block.
pub open spec fn encrypts_by<C: BlockCipher>(cipher: C, f: spec_fn(Seq<u8>) -> Seq<u8>) -> bool {
    forall|x: Seq<u8>, y: Seq<u8>| #[trigger] encrypts(cipher, x, y) ==> y == f(x)
}

/// `cipher.decrypt_block` computes the function `f` on the bytes of a
/// block.
pub open spec fn decrypts_by<C: BlockCipher>(cipher: C, f: spec_fn(Seq<u8>) -> Seq<u8>) -> bool {
    forall|x: Seq<u8>, y: Seq<u8>| #[trigger] decrypts(cipher, x, y) ==> y == f(x)
}

/// What `cipher` returns for a block depends on the block alone, in both
/// directions.
pub open spec fn is_deterministic<C: BlockCipher>(cipher: C) -> bool {
    &&& forall|x: Seq<u8>, y1: Seq<u8>, y2: Seq<u8>|
        #![trigger encrypts(cipher, x, y1), encrypts(cipher, x, y2)]
        encrypts(cipher, x, y1) && encrypts(cipher, x, y2) ==> y1 == y2
    &&& forall|x: Seq<u8>, y1: Seq<u8>, y2: Seq<u8>|
        #![trigger decrypts(cipher, x, y1), decrypts(cipher, x, y2)]
        decrypts(cipher, x, y1) && decrypts(cipher, x, y2) ==> y1 == y2
}

/// Decryption undoes encryption: whatever `cipher` makes of a block, it
/// decrypts to that block again.
pub open spec fn decrypt_inverts_encrypt<C: BlockCipher>(cipher: C) -> bool {
    forall|x: Seq<u8>, y: Seq<u8>, z: Seq<u8>|
        #![trigger encrypts(cipher, x, y), decrypts(cipher, y, z)]
        encrypts(cipher, x, y) && decrypts(cipher, y, z) ==> z == x
}

/// Two different blocks never decrypt to the same block.
pub open spec fn decrypt_is_injective<C: BlockCipher>(cipher: C) -> bool {
    forall|y1: Seq<u8>, y2: Seq<u8>, z: Seq<u8>|
        #![trigger decrypts(cipher, y1, z), decrypts(cipher, y2, z)]
        decrypts(cipher, y1, z) && decrypts(cipher, y2, z) ==> y1 == y2
}

/// Keys decide ciphers: `C::new_varkey` builds at most one cipher from a key.
pub open spec fn key_decides_cipher<C: NewBlockCipher>() -> bool {
    forall|key: Seq<u8>, c1: C, c2: C|
        #![trigger builds(key, c1), builds(key, c2)]
        builds(key, c1) && builds(key, c2) ==> c1 == c2
}

/// Whatever `C::new_varkey` builds is a function of the block, in both
/// directions.
pub open spec fn builds_functions<C: BlockCipher + NewBlockCipher>() -> bool {
    forall|key: Seq<u8>, cipher: C| #[trigger] builds(key, cipher) ==> is_deterministic(cipher)
}

/// Whatever `C::new_varkey` builds decrypts what it has encrypted.
pub open spec fn builds_inverses<C: BlockCipher + NewBlockCipher>() -> bool {
    forall|key: Seq<u8>, cipher: C| #[trigger]
        builds(key, cipher) ==> decrypt_inverts_encrypt(cipher)
}

} // verus!
