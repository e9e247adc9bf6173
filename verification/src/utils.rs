//! Byte-level helpers of the mode.

use crate::cipher::Block;
use vstd::prelude::*;

verus! {

/// The bytewise exclusive or of `a` and `b`, as long as `a`.
pub open spec fn xor_bytes(a: Seq<u8>, b: Seq<u8>) -> Seq<u8>
    recommends
        a.len() <= b.len(),
{
    Seq::new(a.len(), |i: int| a[i] ^ b[i])
}

/// Applying the same mask twice gives the bytes back.
pub proof fn lemma_xor_twice(a: Seq<u8>, mask: Seq<u8>)
    requires
        a.len() <= mask.len(),
    ensures
        xor_bytes(xor_bytes(a, mask), mask) == a,
{
    assert forall|i: int| 0 <= i < a.len() implies xor_bytes(xor_bytes(a, mask), mask)[i]
        == a[i] by {
        let (x, y) = (a[i], mask[i]);
        assert((x ^ y) ^ y == x) by (bit_vector);
    }
    assert(xor_bytes(xor_bytes(a, mask), mask) =~= a);
}

/// Two byte strings that a mask turns into the same string are the same.
pub proof fn lemma_xor_cancel(a: Seq<u8>, b: Seq<u8>, mask: Seq<u8>)
    requires
        a.len() <= mask.len(),
        b.len() <= mask.len(),
        xor_bytes(a, mask) == xor_bytes(b, mask),
    ensures
        a == b,
{
    lemma_xor_twice(a, mask);
    lemma_xor_twice(b, mask);
}

/// Replaces `buf` by its exclusive or with `key`.
pub fn xor(buf: &mut [u8], key: &[u8])
    requires
        old(buf)@.len() == key@.len(),
    ensures
        final(buf)@ == xor_bytes(old(buf)@, key@),
{
    let n = buf.len();
    let mut i: usize = 0;
    while i < n
        invariant
            n == key@.len(),
            buf@.len() == n,
            i <= n,
            forall|j: int| 0 <= j < i ==> buf@[j] == old(buf)@[j] ^ key@[j],
            forall|j: int| i <= j < n ==> buf@[j] == old(buf)@[j],
        decreases n - i,
    {
        buf[i] = buf[i] ^ key[i];
        i += 1;
    }
}

/// The 16 bytes of `data` from `offset` on, as a block.
pub fn load_block(data: &[u8], offset: usize) -> (block: Block)
    requires
        offset + 16 <= data@.len(),
    ensures
        block@ == data@.subrange(offset as int, offset + 16),
{
    let len = data.len();
    let mut block: Block = [0u8; 16];
    let mut i: usize = 0;
    while i < 16
        invariant
            i <= 16,
            offset + 16 <= len == data@.len(),
            forall|j: int| 0 <= j < i ==> block@[j] == data@[offset + j],
        decreases 16 - i,
    {
        block[i] = data[offset + i];
        i += 1;
    }
    assert(block@ =~= data@.subrange(offset as int, offset + 16));
    block
}

/// Writes `bytes` over `data` from `offset` on.
pub fn store(data: &mut [u8], offset: usize, bytes: &[u8])
    requires
        offset + bytes@.len() <= old(data)@.len(),
    ensures
        final(data)@ == old(data)@.subrange(0, offset as int) + bytes@ + old(data)@.subrange(
            offset + bytes@.len(),
            old(data)@.len() as int,
        ),
{
    let len = data.len();
    let n = bytes.len();
    let mut i: usize = 0;
    while i < n
        invariant
            i <= n,
            n == bytes@.len(),
            len == data@.len() == old(data)@.len(),
            offset + n <= len,
            forall|j: int| 0 <= j < offset ==> data@[j] == old(data)@[j],
            forall|j: int| offset <= j < offset + i ==> data@[j] == bytes@[j - offset],
            forall|j: int| offset + i <= j < data@.len() ==> data@[j] == old(data)@[j],
        decreases n - i,
    {
        data[offset + i] = bytes[i];
        i += 1;
    }
    assert(data@ =~= old(data)@.subrange(0, offset as int) + bytes@ + old(data)@.subrange(
        offset + bytes@.len(),
        old(data)@.len() as int,
    ));
}

} // verus!
