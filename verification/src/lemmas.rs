//! Steps that the laws and the contracts of the mode are proved from.

use crate::cipher::{
    decrypt_inverts_encrypt, decrypts, decrypts_by, encrypts, encrypts_by, is_deterministic,
    BlockCipher,
};
use crate::model::{
    block_at, inverts, steal_decrypts, steal_encrypts, xex, xex_blocks, xex_decrypts,
    xex_encrypts,
};
use crate::tweak::{lemma_tweak_at_len, tweak_at};
use crate::utils::{lemma_xor_cancel, lemma_xor_twice, xor_bytes};
use vstd::prelude::*;

verus! {

/// Both sides of an encryption by the cipher are 16 bytes long.
pub proof fn lemma_encrypts_len<C: BlockCipher>(cipher: C, input: Seq<u8>, output: Seq<u8>)
    requires
        encrypts(cipher, input, output),
    ensures
        input.len() == 16,
        output.len() == 16,
{
}

/// Both sides of a decryption by the cipher are 16 bytes long.
pub proof fn lemma_decrypts_len<C: BlockCipher>(cipher: C, input: Seq<u8>, output: Seq<u8>)
    requires
        decrypts(cipher, input, output),
    ensures
        input.len() == 16,
        output.len() == 16,
{
}

/// One block, encrypted and decrypted under the same tweak, is itself
/// again, where the cipher's decryption undoes its encryption.
pub proof fn lemma_xex_round_trip<C: BlockCipher>(
    cipher: C,
    tweak: Seq<u8>,
    plain: Seq<u8>,
    crypt: Seq<u8>,
    back: Seq<u8>,
)
    requires
        decrypt_inverts_encrypt(cipher),
        tweak.len() == 16,
        xex_encrypts(cipher, tweak, plain, crypt),
        xex_decrypts(cipher, tweak, crypt, back),
    ensures
        back == plain,
{
    lemma_encrypts_len(cipher, xor_bytes(plain, tweak), xor_bytes(crypt, tweak));
    lemma_decrypts_len(cipher, xor_bytes(crypt, tweak), xor_bytes(back, tweak));
    lemma_xor_cancel(back, plain, tweak);
}

/// A block has one XEX encryption under a tweak, where the cipher is a
/// function.
pub proof fn lemma_xex_encrypts_one<C: BlockCipher>(
    cipher: C,
    tweak: Seq<u8>,
    plain: Seq<u8>,
    crypt1: Seq<u8>,
    crypt2: Seq<u8>,
)
    requires
        is_deterministic(cipher),
        tweak.len() == 16,
        xex_encrypts(cipher, tweak, plain, crypt1),
        xex_encrypts(cipher, tweak, plain, crypt2),
    ensures
        crypt1 == crypt2,
{
    lemma_encrypts_len(cipher, xor_bytes(plain, tweak), xor_bytes(crypt1, tweak));
    lemma_encrypts_len(cipher, xor_bytes(plain, tweak), xor_bytes(crypt2, tweak));
    lemma_xor_cancel(crypt1, crypt2, tweak);
}

/// A block has one XEX decryption under a tweak, where the cipher is a
/// function.
pub proof fn lemma_xex_decrypts_one<C: BlockCipher>(
    cipher: C,
    tweak: Seq<u8>,
    crypt: Seq<u8>,
    plain1: Seq<u8>,
    plain2: Seq<u8>,
)
    requires
        is_deterministic(cipher),
        tweak.len() == 16,
        xex_decrypts(cipher, tweak, crypt, plain1),
        xex_decrypts(cipher, tweak, crypt, plain2),
    ensures
        plain1 == plain2,
{
    lemma_decrypts_len(cipher, xor_bytes(crypt, tweak), xor_bytes(plain1, tweak));
    lemma_decrypts_len(cipher, xor_bytes(crypt, tweak), xor_bytes(plain2, tweak));
    lemma_xor_cancel(plain1, plain2, tweak);
}

/// Under a cipher that encrypts by the function `e`, the XEX encryption of
/// a block is its XEX transform by `e`.
pub proof fn lemma_xex_encrypts_by<C: BlockCipher>(
    cipher: C,
    e: spec_fn(Seq<u8>) -> Seq<u8>,
    tweak: Seq<u8>,
    plain: Seq<u8>,
    crypt: Seq<u8>,
)
    requires
        encrypts_by(cipher, e),
        tweak.len() == 16,
        xex_encrypts(cipher, tweak, plain, crypt),
    ensures
        crypt == xex(e, tweak, plain),
{
    lemma_encrypts_len(cipher, xor_bytes(plain, tweak), xor_bytes(crypt, tweak));
    lemma_xor_twice(crypt, tweak);
}

/// Under a cipher that decrypts by the function `d`, the XEX decryption of
/// a block is its XEX transform by `d`.
pub proof fn lemma_xex_decrypts_by<C: BlockCipher>(
    cipher: C,
    d: spec_fn(Seq<u8>) -> Seq<u8>,
    tweak: Seq<u8>,
    crypt: Seq<u8>,
    plain: Seq<u8>,
)
    requires
        decrypts_by(cipher, d),
        tweak.len() == 16,
        xex_decrypts(cipher, tweak, crypt, plain),
    ensures
        plain == xex(d, tweak, crypt),
{
    lemma_decrypts_len(cipher, xor_bytes(crypt, tweak), xor_bytes(plain, tweak));
    lemma_xor_twice(plain, tweak);
}

/// Two byte strings of one length that hold the same first `n` blocks and
/// the same bytes behind them are the same.
pub proof fn lemma_same_blocks(a: Seq<u8>, b: Seq<u8>, n: int)
    requires
        a.len() == b.len(),
        0 <= 16 * n <= a.len(),
        forall|j: int| 0 <= j < n ==> #[trigger] block_at(a, j) == block_at(b, j),
        a.subrange(16 * n, a.len() as int) == b.subrange(16 * n, a.len() as int),
    ensures
        a == b,
{
    assert forall|i: int| 0 <= i < a.len() implies a[i] == b[i] by {
        if i < 16 * n {
            let j = i / 16;
            assert(block_at(a, j) == block_at(b, j));
            assert(a[i] == block_at(a, j)[i - 16 * j]);
            assert(b[i] == block_at(b, j)[i - 16 * j]);
        } else {
            assert(a[i] == a.subrange(16 * n, a.len() as int)[i - 16 * n]);
            assert(b[i] == b.subrange(16 * n, a.len() as int)[i - 16 * n]);
        }
    }
    assert(a =~= b);
}

/// Round trip of the stolen end: the last full block and the bytes behind
/// it come back as they were.
pub proof fn lemma_steal_round_trip<C: BlockCipher>(
    cipher: C,
    tweak: Seq<u8>,
    next: Seq<u8>,
    plain: Seq<u8>,
    crypt: Seq<u8>,
    back: Seq<u8>,
    full: Seq<u8>,
    filled: Seq<u8>,
)
    requires
        decrypt_inverts_encrypt(cipher),
        tweak.len() == 16,
        next.len() == 16,
        steal_encrypts(cipher, tweak, next, plain, crypt, full),
        steal_decrypts(cipher, tweak, next, crypt, back, filled),
    ensures
        back == plain,
{
    let r = plain.len() - 16;
    let before = plain.subrange(16, 16 + r) + full.subrange(r, 16);
    lemma_xex_round_trip(cipher, next, before, crypt.subrange(0, 16), filled);
    lemma_encrypts_len(
        cipher,
        xor_bytes(plain.subrange(0, 16), tweak),
        xor_bytes(full, tweak),
    );
    assert(crypt.subrange(16, 16 + r) + filled.subrange(r, 16) =~= full);
    lemma_xex_round_trip(cipher, tweak, plain.subrange(0, 16), full, back.subrange(0, 16));
    assert(back.subrange(16, 16 + r) =~= plain.subrange(16, 16 + r));
    assert forall|i: int| 0 <= i < plain.len() implies back[i] == plain[i] by {
        if i < 16 {
            assert(back[i] == back.subrange(0, 16)[i]);
            assert(plain[i] == plain.subrange(0, 16)[i]);
        } else {
            assert(back[i] == back.subrange(16, 16 + r)[i - 16]);
            assert(plain[i] == plain.subrange(16, 16 + r)[i - 16]);
        }
    }
    assert(back =~= plain);
}

/// The XEX transform by `d` undoes the one by `e` under the same tweak.
pub proof fn lemma_xex_inverts(
    e: spec_fn(Seq<u8>) -> Seq<u8>,
    d: spec_fn(Seq<u8>) -> Seq<u8>,
    tweak: Seq<u8>,
    block: Seq<u8>,
)
    requires
        inverts(d, e),
        tweak.len() == 16,
        block.len() == 16,
    ensures
        xex(e, tweak, block).len() == 16,
        xex(d, tweak, xex(e, tweak, block)) == block,
{
    let masked = xor_bytes(block, tweak);
    assert(e(masked).len() == 16);
    lemma_xor_twice(e(masked), tweak);
    lemma_xor_twice(block, tweak);
}

/// Whole blocks transformed by `e` and then by `d` are as they were.
pub proof fn lemma_xex_blocks_invert(
    e: spec_fn(Seq<u8>) -> Seq<u8>,
    d: spec_fn(Seq<u8>) -> Seq<u8>,
    tweak: Seq<u8>,
    plain: Seq<u8>,
    crypt: Seq<u8>,
    n: nat,
)
    requires
        inverts(d, e),
        tweak.len() == 16,
        16 * n <= plain.len(),
        16 * n <= crypt.len(),
        crypt.subrange(0, 16 * (n as int)) == xex_blocks(e, tweak, plain, n),
    ensures
        xex_blocks(d, tweak, crypt, n) == plain.subrange(0, 16 * (n as int)),
{
    assert forall|i: int| 0 <= i < 16 * n implies xex_blocks(d, tweak, crypt, n)[i] == plain[i] by {
        let j = i / 16;
        let t = tweak_at(tweak, j as nat);
        lemma_tweak_at_len(tweak, j as nat);
        lemma_xex_inverts(e, d, t, block_at(plain, j));
        assert forall|k: int| 0 <= k < 16 implies block_at(crypt, j)[k] == xex(
            e,
            t,
            block_at(plain, j),
        )[k] by {
            assert(crypt[16 * j + k] == crypt.subrange(0, 16 * (n as int))[16 * j + k]);
            assert((16 * j + k) / 16 == j);
            assert((16 * j + k) % 16 == k);
        }
        assert(block_at(crypt, j) =~= xex(e, t, block_at(plain, j)));
        assert(plain[i] == block_at(plain, j)[i - 16 * j]);
    }
    assert(xex_blocks(d, tweak, crypt, n) =~= plain.subrange(0, 16 * (n as int)));
}

} // verus!
