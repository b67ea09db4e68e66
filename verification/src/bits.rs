//! Bits and the bytes they make: the first bit of eight is the lowest bit of
//! the byte.

use vstd::prelude::*;

verus! {

/// The bit at place `k`, as 0 or 1. Places outside the sequence read as 0,
/// which is how a sequence that ends inside a byte is filled up.
pub open spec fn bit_at(bits: Seq<bool>, k: int) -> int {
    if 0 <= k < bits.len() && bits[k] {
        1
    } else {
        0
    }
}

/// The value of the eight bits from place `start` on, the first of them
/// counting 1 and the last 128.
pub open spec fn byte_value(bits: Seq<bool>, start: int) -> int {
    bit_at(bits, start) + 2 * bit_at(bits, start + 1) + 4 * bit_at(bits, start + 2) + 8 * bit_at(
        bits,
        start + 3,
    ) + 16 * bit_at(bits, start + 4) + 32 * bit_at(bits, start + 5) + 64 * bit_at(bits, start + 6)
        + 128 * bit_at(bits, start + 7)
}

/// The whole bytes that a sequence of bits makes. Bits that follow the last
/// whole byte make none.
pub open spec fn packed_bytes(bits: Seq<bool>) -> Seq<u8> {
    Seq::new(bits.len() / 8, |i: int| byte_value(bits, 8 * i) as u8)
}

/// How many zero bits bring a sequence of `len` bits to a whole number of
/// bytes.
pub open spec fn padding_len(len: nat) -> nat {
    ((8 - len % 8) % 8) as nat
}

/// The sequence, followed by as many zero bits as bring it to a whole number
/// of bytes.
pub open spec fn zero_padded(bits: Seq<bool>) -> Seq<bool> {
    bits + Seq::new(padding_len(bits.len()), |i: int| false)
}

/// The first of the eight bits is the lowest bit of the byte, the second
/// the next, and so on to the eighth, which is the highest.
pub proof fn lemma_bit_order(bits: Seq<bool>, start: int)
    ensures
        byte_value(bits, start) % 2 == bit_at(bits, start),
        (byte_value(bits, start) / 2) % 2 == bit_at(bits, start + 1),
        (byte_value(bits, start) / 4) % 2 == bit_at(bits, start + 2),
        (byte_value(bits, start) / 8) % 2 == bit_at(bits, start + 3),
        (byte_value(bits, start) / 16) % 2 == bit_at(bits, start + 4),
        (byte_value(bits, start) / 32) % 2 == bit_at(bits, start + 5),
        (byte_value(bits, start) / 64) % 2 == bit_at(bits, start + 6),
        (byte_value(bits, start) / 128) % 2 == bit_at(bits, start + 7),
{
}

/// Padding adds fewer than eight bits, changes no bit that was there, and
/// leaves every place read by [`bit_at`] as it was.
pub proof fn lemma_zero_padded(bits: Seq<bool>)
    ensures
        zero_padded(bits).len() % 8 == 0,
        bits.len() <= zero_padded(bits).len() < bits.len() + 8,
        zero_padded(bits).len() / 8 == (bits.len() + 7) / 8,
        forall|k: int| bit_at(zero_padded(bits), k) == bit_at(bits, k),
{
    let padded = zero_padded(bits);
    assert forall|k: int| bit_at(padded, k) == bit_at(bits, k) by {
        if 0 <= k < bits.len() {
            assert(padded[k] == bits[k]);
        } else if bits.len() <= k < padded.len() {
            assert(padded[k] == false);
        }
    }
}

/// Two sequences that read alike over eight places make the same byte there.
pub proof fn lemma_byte_value_agrees(a: Seq<bool>, i: int, b: Seq<bool>, j: int)
    requires
        forall|k: int| i <= k < i + 8 ==> #[trigger] bit_at(a, k) == bit_at(b, k - i + j),
    ensures
        byte_value(a, i) == byte_value(b, j),
{
    assert(bit_at(a, i) == bit_at(b, j));
    assert(bit_at(a, i + 1) == bit_at(b, j + 1));
    assert(bit_at(a, i + 2) == bit_at(b, j + 2));
    assert(bit_at(a, i + 3) == bit_at(b, j + 3));
    assert(bit_at(a, i + 4) == bit_at(b, j + 4));
    assert(bit_at(a, i + 5) == bit_at(b, j + 5));
    assert(bit_at(a, i + 6) == bit_at(b, j + 6));
    assert(bit_at(a, i + 7) == bit_at(b, j + 7));
}

} // verus!
