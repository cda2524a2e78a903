//! Scoring a digest by the number of its leading zero bits.

use vstd::prelude::*;
use vstd::std_specs::bits::{axiom_u8_leading_zeros, u8_leading_zeros};

verus! {

/// Longest input that `num_leading_zero_bits` accepts: every count for it fits in 16 bits.
pub const MAX_SCORED_LEN: usize = 8191;

/// Number of zero bits in front of the highest set bit of a byte; 8 for the zero byte.
pub open spec fn byte_leading_zeros(b: u8) -> u8 {
    if b >= 128 {
        0
    } else if b >= 64 {
        1
    } else if b >= 32 {
        2
    } else if b >= 16 {
        3
    } else if b >= 8 {
        4
    } else if b >= 4 {
        5
    } else if b >= 2 {
        6
    } else if b >= 1 {
        7
    } else {
        8
    }
}

/// Number of consecutive zero bits at the front of `bytes`, most significant bit first.
pub open spec fn leading_zero_bits(bytes: Seq<u8>) -> nat
    decreases bytes.len(),
{
    if bytes.len() == 0 {
        0
    } else if bytes[0] == 0 {
        8 + leading_zero_bits(bytes.drop_first())
    } else {
        byte_leading_zeros(bytes[0]) as nat
    }
}

/// Bit `j` of a byte, where bit 0 is the most significant one.
pub open spec fn byte_bit(b: u8, j: u8) -> bool {
    (b >> (7u8 - j) as u8) & 1u8 == 1u8
}

/// Bit `i` of `bytes`, counted from the most significant bit of the first byte.
pub open spec fn bit_at(bytes: Seq<u8>, i: int) -> bool {
    byte_bit(bytes[i / 8], (i % 8) as u8)
}

proof fn lemma_byte_bits(b: u8, j: u8)
    by (bit_vector)
    requires
        j < 8,
    ensures
        j < byte_leading_zeros(b) ==> !byte_bit(b, j),
        j == byte_leading_zeros(b) ==> byte_bit(b, j),
        b == 0 <==> byte_leading_zeros(b) == 8,
{
}

proof fn lemma_std_leading_zeros(b: u8)
    ensures
        u8_leading_zeros(b) == byte_leading_zeros(b),
{
    axiom_u8_leading_zeros(b);
    let z: u8 = u8_leading_zeros(b) as u8;
    assert(z == byte_leading_zeros(b)) by (bit_vector)
        requires
            z <= 8,
            b == 0 <==> z == 8,
            z < 8 ==> (b >> (7u8 - z) as u8) & 1u8 != 0u8,
            b >> (8u8 - z) as u8 == 0,
    ;
}

/// The score is the position of the first set bit: every bit in front of position
/// `leading_zero_bits(bytes)` is zero, and the bit at that position is one unless the
/// count has reached the full bit length, which happens exactly when all bytes are zero.
pub proof fn lemma_leading_zero_bits(bytes: Seq<u8>)
    ensures
        leading_zero_bits(bytes) <= 8 * bytes.len(),
        forall|i: int| 0 <= i < leading_zero_bits(bytes) ==> !bit_at(bytes, i),
        leading_zero_bits(bytes) < 8 * bytes.len() ==> bit_at(
            bytes,
            leading_zero_bits(bytes) as int,
        ),
        leading_zero_bits(bytes) == 8 * bytes.len() <==> forall|n: int|
            0 <= n < bytes.len() ==> bytes[n] == 0,
    decreases bytes.len(),
{
    if bytes.len() == 0 {
    } else if bytes[0] == 0 {
        let rest = bytes.drop_first();
        lemma_leading_zero_bits(rest);
        let k = leading_zero_bits(rest);
        assert forall|i: int| 0 <= i < 8 + k implies !bit_at(bytes, i) by {
            if i < 8 {
                lemma_byte_bits(bytes[0], i as u8);
            } else {
                assert(rest[(i - 8) / 8] == bytes[i / 8]);
                assert((i - 8) % 8 == i % 8);
                assert(!bit_at(rest, i - 8));
            }
        }
        if 8 + k < 8 * bytes.len() {
            let i = 8 + k as int;
            assert(rest[(i - 8) / 8] == bytes[i / 8]);
            assert((i - 8) % 8 == i % 8);
            assert(bit_at(rest, i - 8));
        }
        if k == 8 * rest.len() {
            assert forall|n: int| 0 <= n < bytes.len() implies bytes[n] == 0 by {
                if n > 0 {
                    assert(rest[n - 1] == bytes[n]);
                }
            }
        }
        if forall|n: int| 0 <= n < bytes.len() ==> bytes[n] == 0 {
            assert forall|n: int| 0 <= n < rest.len() implies rest[n] == 0 by {
                assert(rest[n] == bytes[n + 1]);
            }
        }
    } else {
        let z = byte_leading_zeros(bytes[0]);
        lemma_byte_bits(bytes[0], 0);
        assert forall|i: int| 0 <= i < z implies !bit_at(bytes, i) by {
            lemma_byte_bits(bytes[0], i as u8);
        }
        lemma_byte_bits(bytes[0], z);
    }
}

/// A count `k` is the score of `bytes` exactly when the first `k` bits are zero and
/// either bit `k` is one or `k` is the full bit length.
pub proof fn lemma_score_is_first_set_bit(bytes: Seq<u8>, k: int)
    ensures
        k == leading_zero_bits(bytes) <==> {
            &&& 0 <= k <= 8 * bytes.len()
            &&& forall|i: int| 0 <= i < k ==> !bit_at(bytes, i)
            &&& (k < 8 * bytes.len() ==> bit_at(bytes, k))
        },
{
    lemma_leading_zero_bits(bytes);
    let z = leading_zero_bits(bytes) as int;
    if 0 <= k <= 8 * bytes.len() && (forall|i: int| 0 <= i < k ==> !bit_at(bytes, i)) && (k < 8
        * bytes.len() ==> bit_at(bytes, k)) {
        if k < z {
            assert(!bit_at(bytes, k));
        }
        if z < k {
            assert(!bit_at(bytes, z));
        }
    }
}

/// Counts the leading zero bits of a digest, scanning from its first byte and stopping
/// at the first byte that is not zero.
pub fn num_leading_zero_bits(hash: &[u8]) -> (zeros: u16)
    requires
        hash@.len() <= MAX_SCORED_LEN,
    ensures
        zeros == leading_zero_bits(hash@),
        zeros <= 8 * hash@.len(),
{
    let mut zeros: u16 = 0;
    let mut i: usize = 0;
    proof {
        assert(hash@.skip(0) =~= hash@);
    }
    while i < hash.len()
        invariant_except_break
            i <= hash@.len(),
            zeros == 8 * i,
            leading_zero_bits(hash@) == 8 * i + leading_zero_bits(hash@.skip(i as int)),
        invariant
            hash@.len() <= MAX_SCORED_LEN,
        ensures
            zeros == leading_zero_bits(hash@),
        decreases hash@.len() - i,
    {
        let byte: u8 = hash[i];
        let width: u32 = byte.leading_zeros();
        proof {
            lemma_std_leading_zeros(byte);
            let rest = hash@.skip(i as int);
            assert(rest[0] == byte);
            assert(rest.drop_first() =~= hash@.skip(i + 1));
        }
        zeros = zeros + width as u16;
        if byte != 0 {
            break ;
        }
        i += 1;
    }
    proof {
        lemma_leading_zero_bits(hash@);
    }
    zeros
}

} // verus!
