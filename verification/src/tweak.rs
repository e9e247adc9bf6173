//! The tweak and how it advances from one block to the next.
//!
//! A tweak is a 16-byte value read as a 128-bit number, least significant
//! byte first. Going to the next block multiplies it by `x` in GF(2^128)
//! modulo `x^128 + x^7 + x^2 + x + 1`: a shift to the left by one bit, and,
//! where a bit falls off the top, an exclusive or of `0x87` into the lowest
//! byte.

use crate::cipher::Block;
use vstd::prelude::*;

verus! {

/// The number whose little-endian bytes are the 16 bytes of `t`.
pub open spec fn le_value(t: Seq<u8>) -> u128
    recommends
        t.len() == 16,
{
    (t[0] as u128)
        | (t[1] as u128) << 8
        | (t[2] as u128) << 16
        | (t[3] as u128) << 24
        | (t[4] as u128) << 32
        | (t[5] as u128) << 40
        | (t[6] as u128) << 48
        | (t[7] as u128) << 56
        | (t[8] as u128) << 64
        | (t[9] as u128) << 72
        | (t[10] as u128) << 80
        | (t[11] as u128) << 88
        | (t[12] as u128) << 96
        | (t[13] as u128) << 104
        | (t[14] as u128) << 112
        | (t[15] as u128) << 120
}

/// The 16 little-endian bytes of `v`.
pub open spec fn le_bytes(v: u128) -> Seq<u8> {
    seq![
        v as u8,
        (v >> 8) as u8,
        (v >> 16) as u8,
        (v >> 24) as u8,
        (v >> 32) as u8,
        (v >> 40) as u8,
        (v >> 48) as u8,
        (v >> 56) as u8,
        (v >> 64) as u8,
        (v >> 72) as u8,
        (v >> 80) as u8,
        (v >> 88) as u8,
        (v >> 96) as u8,
        (v >> 104) as u8,
        (v >> 112) as u8,
        (v >> 120) as u8,
    ]
}

/// `v` times `x` in GF(2^128), the bit `i` of a number standing for the
/// coefficient of `x^i`.
pub open spec fn gf_double(v: u128) -> u128 {
    if v >> 127 == 1 {
        (v << 1) ^ 0x87
    } else {
        v << 1
    }
}

/// The coefficient of `x^i` in the polynomial over GF(2) that `v` stands
/// for.
pub open spec fn coefficient(v: u128, i: u128) -> bool {
    (v >> i) & 1 == 1
}

/// The tweak of the block after the one with tweak `t`.
pub open spec fn next_tweak(t: Seq<u8>) -> Seq<u8>
    recommends
        t.len() == 16,
{
    le_bytes(gf_double(le_value(t)))
}

/// The tweak of block `n`, where block 0 has tweak `t`.
pub open spec fn tweak_at(t: Seq<u8>, n: nat) -> Seq<u8>
    recommends
        t.len() == 16,
    decreases n,
{
    if n == 0 {
        t
    } else {
        next_tweak(tweak_at(t, (n - 1) as nat))
    }
}

/// The bit that leaves byte `i - 1` of `t` for byte `i` when `t` is shifted,
/// and for byte 0 nothing.
pub open spec fn carry_into(t: Seq<u8>, i: int) -> u8 {
    if i == 0 {
        0
    } else {
        t[i - 1] >> 7
    }
}

/// What is folded into the lowest byte when the top bit of `t` is shifted out.
pub open spec fn reduction(t: Seq<u8>) -> u8 {
    if t[15] >> 7 == 1 {
        0x87
    } else {
        0
    }
}

/// Byte `i` of `next_tweak(t)`, computed from the bytes of `t` alone.
pub open spec fn next_tweak_byte(t: Seq<u8>, i: int) -> u8 {
    if i == 0 {
        ((t[0] << 1) | carry_into(t, 0)) ^ reduction(t)
    } else {
        (t[i] << 1) | carry_into(t, i)
    }
}

/// Every tweak of a sequence that starts with 16 bytes has 16 bytes.
pub proof fn lemma_tweak_at_len(t: Seq<u8>, n: nat)
    requires
        t.len() == 16,
    ensures
        tweak_at(t, n).len() == 16,
    decreases n,
{
    if n > 0 {
        lemma_tweak_at_len(t, (n - 1) as nat);
    }
}

/// A number is the value of its little-endian bytes.
pub proof fn lemma_le_value_of_bytes(v: u128)
    ensures
        le_value(le_bytes(v)) == v,
{
    assert(v == (v as u8 as u128)
        | ((v >> 8) as u8 as u128) << 8
        | ((v >> 16) as u8 as u128) << 16
        | ((v >> 24) as u8 as u128) << 24
        | ((v >> 32) as u8 as u128) << 32
        | ((v >> 40) as u8 as u128) << 40
        | ((v >> 48) as u8 as u128) << 48
        | ((v >> 56) as u8 as u128) << 56
        | ((v >> 64) as u8 as u128) << 64
        | ((v >> 72) as u8 as u128) << 72
        | ((v >> 80) as u8 as u128) << 80
        | ((v >> 88) as u8 as u128) << 88
        | ((v >> 96) as u8 as u128) << 96
        | ((v >> 104) as u8 as u128) << 104
        | ((v >> 112) as u8 as u128) << 112
        | ((v >> 120) as u8 as u128) << 120) by (bit_vector);
}

/// The multiplication by `x` works byte by byte: each byte is shifted, takes
/// the top bit of the byte below, and the lowest byte takes the reduction.
pub proof fn lemma_next_tweak_bytes(t: Seq<u8>)
    requires
        t.len() == 16,
    ensures
        next_tweak(t).len() == 16,
        forall|i: int| 0 <= i < 16 ==> next_tweak(t)[i] == #[trigger] next_tweak_byte(t, i),
{
    let (b0, b1, b2, b3) = (t[0], t[1], t[2], t[3]);
    let (b4, b5, b6, b7) = (t[4], t[5], t[6], t[7]);
    let (b8, b9, b10, b11) = (t[8], t[9], t[10], t[11]);
    let (b12, b13, b14, b15) = (t[12], t[13], t[14], t[15]);
    let v = le_value(t);
    let d = gf_double(v);
    assert({
        &&& d as u8 == ((b0 << 1) | 0) ^ (if b15 >> 7 == 1 { 0x87u8 } else { 0u8 })
        &&& (d >> 8) as u8 == (b1 << 1) | (b0 >> 7)
        &&& (d >> 16) as u8 == (b2 << 1) | (b1 >> 7)
        &&& (d >> 24) as u8 == (b3 << 1) | (b2 >> 7)
        &&& (d >> 32) as u8 == (b4 << 1) | (b3 >> 7)
        &&& (d >> 40) as u8 == (b5 << 1) | (b4 >> 7)
        &&& (d >> 48) as u8 == (b6 << 1) | (b5 >> 7)
        &&& (d >> 56) as u8 == (b7 << 1) | (b6 >> 7)
        &&& (d >> 64) as u8 == (b8 << 1) | (b7 >> 7)
        &&& (d >> 72) as u8 == (b9 << 1) | (b8 >> 7)
        &&& (d >> 80) as u8 == (b10 << 1) | (b9 >> 7)
        &&& (d >> 88) as u8 == (b11 << 1) | (b10 >> 7)
        &&& (d >> 96) as u8 == (b12 << 1) | (b11 >> 7)
        &&& (d >> 104) as u8 == (b13 << 1) | (b12 >> 7)
        &&& (d >> 112) as u8 == (b14 << 1) | (b13 >> 7)
        &&& (d >> 120) as u8 == (b15 << 1) | (b14 >> 7)
    }) by (bit_vector)
        requires
            v == (b0 as u128)
                | (b1 as u128) << 8
                | (b2 as u128) << 16
                | (b3 as u128) << 24
                | (b4 as u128) << 32
                | (b5 as u128) << 40
                | (b6 as u128) << 48
                | (b7 as u128) << 56
                | (b8 as u128) << 64
                | (b9 as u128) << 72
                | (b10 as u128) << 80
                | (b11 as u128) << 88
                | (b12 as u128) << 96
                | (b13 as u128) << 104
                | (b14 as u128) << 112
                | (b15 as u128) << 120,
            d == (if v >> 127 == 1 {
                (v << 1) ^ 0x87
            } else {
                v << 1
            }),
    ;
    assert forall|i: int| 0 <= i < 16 implies next_tweak(t)[i] == #[trigger] next_tweak_byte(
        t,
        i,
    ) by {
        if i == 0 {
        } else if i == 1 {
        } else if i == 2 {
        } else if i == 3 {
        } else if i == 4 {
        } else if i == 5 {
        } else if i == 6 {
        } else if i == 7 {
        } else if i == 8 {
        } else if i == 9 {
        } else if i == 10 {
        } else if i == 11 {
        } else if i == 12 {
        } else if i == 13 {
        } else if i == 14 {
        } else {
        }
    }
}

/// Advances `tweak` to the tweak of the next block.
pub fn get_next_tweak(tweak: &mut Block)
    ensures
        final(tweak)@ == next_tweak(old(tweak)@),
{
    let mut carry: u8 = 0;
    let mut i: usize = 0;
    while i < 16
        invariant
            i <= 16,
            carry == carry_into(old(tweak)@, i as int),
            forall|j: int|
                0 <= j < i ==> tweak@[j] == (old(tweak)@[j] << 1) | carry_into(old(tweak)@, j),
            forall|j: int| i <= j < 16 ==> tweak@[j] == old(tweak)@[j],
        decreases 16 - i,
    {
        let byte = tweak[i];
        tweak[i] = (byte << 1) | carry;
        carry = byte >> 7;
        i += 1;
    }
    if carry == 1 {
        tweak[0] = tweak[0] ^ 0x87;
    } else {
        let low = tweak[0];
        assert(low ^ 0 == low) by (bit_vector);
    }
    proof {
        lemma_next_tweak_bytes(old(tweak)@);
        assert forall|j: int| 0 <= j < 16 implies tweak@[j] == next_tweak(old(tweak)@)[j] by {
            assert(next_tweak(old(tweak)@)[j] == next_tweak_byte(old(tweak)@, j));
        }
        assert(tweak@ =~= next_tweak(old(tweak)@));
    }
}

} // verus!
