//! Wire labels.
use vstd::prelude::*;

use crate::hash::{hash_16, random_seed};

verus! {

/// A wire label: 16 bytes, little end first in `bits`.
#[derive(Clone, Copy, Debug, PartialEq, Eq, Structural)]
pub struct S {
    pub bits: u128,
}

impl S {
    /// The 16 bytes of the label.
    pub open spec fn bytes(self) -> Seq<u8> {
        vstd::bytes::spec_u128_to_le_bytes(self.bits)
    }

    /// The label with the given 16 bytes.
    pub open spec fn of_bytes(bytes: Seq<u8>) -> S {
        S { bits: vstd::bytes::spec_u128_from_le_bytes(bytes) }
    }

    pub open spec fn spec_xor(self, other: S) -> S {
        S { bits: self.bits ^ other.bits }
    }

    /// Bitwise exclusive or.
    #[verifier::when_used_as_spec(spec_xor)]
    pub fn xor(self, other: S) -> (label: S)
        ensures
            label == self.spec_xor(other),
            label.bits == self.bits ^ other.bits,
    {
        S { bits: self.bits ^ other.bits }
    }

    /// This label offset by `delta` where `value` holds. With `self` the false
    /// label of a wire, the label that an evaluator holds for `value`.
    pub open spec fn offset(self, value: bool, delta: S) -> S {
        if value {
            self.xor(delta)
        } else {
            self
        }
    }

    /// `H(l) = Blake3(l || gid)`: what gate number `gid` is encrypted with.
    pub open spec fn hashed(self, gid: u32) -> S {
        S::of_bytes(
            crate::hash::blake3_16(self.bytes() + vstd::bytes::spec_u32_to_le_bytes(gid)),
        )
    }

    /// A label of 16 random bytes.
    pub fn random() -> (label: S) {
        let bytes = random_seed::<16>();
        S::from_slice(&bytes)
    }

    /// The label with the given bytes.
    pub fn from_slice(bytes: &[u8; 16]) -> (label: S)
        ensures
            label == S::of_bytes(bytes@),
            label.bytes() == bytes@,
            label.bits == vstd::bytes::spec_u128_from_le_bytes(bytes@),
    {
        proof {
            vstd::bytes::lemma_auto_spec_u128_to_from_le_bytes();
        }
        S { bits: vstd::bytes::u128_from_le_bytes(bytes.as_slice()) }
    }

    /// `H(self)` for gate number `gid`.
    pub fn hash_ext(self, gid: u32) -> (label: S)
        ensures
            label == self.hashed(gid),
            label.bits == vstd::bytes::spec_u128_from_le_bytes(
                crate::hash::blake3_16(
                    vstd::bytes::spec_u128_to_le_bytes(self.bits)
                        + vstd::bytes::spec_u32_to_le_bytes(gid),
                ),
            ),
    {
        let mut input: Vec<u8> = vstd::bytes::u128_to_le_bytes(self.bits);
        let mut id: Vec<u8> = vstd::bytes::u32_to_le_bytes(gid);
        input.append(&mut id);
        S::from_slice(&hash_16(input.as_slice()))
    }
}

/// A label has 16 bytes, little end first, and is determined by them.
pub proof fn law_a_label_is_its_bytes(label: S, bytes: Seq<u8>)
    ensures
        label.bytes().len() == 16,
        label.bytes() == vstd::bytes::spec_u128_to_le_bytes(label.bits),
        S::of_bytes(label.bytes()) == label,
        bytes.len() == 16 ==> S::of_bytes(bytes).bytes() == bytes,
{
    vstd::bytes::lemma_auto_spec_u128_to_from_le_bytes();
}

/// Labels are a group under exclusive or, in which each is its own inverse, and
/// an offset that is made twice is undone.
pub proof fn law_offsets_cancel(a: S, b: S, c: S)
    ensures
        a.xor(b).bits == a.bits ^ b.bits,
        a.xor(b) == b.xor(a),
        a.xor(b).xor(c) == a.xor(b.xor(c)),
        a.xor(b).xor(b) == a,
        a.xor(S { bits: 0 }) == a,
        a.offset(false, b) == a,
        a.offset(true, b).bits == a.bits ^ b.bits,
        a.offset(true, b).offset(true, b) == a,
{
    let (x, y, z) = (a.bits, b.bits, c.bits);
    assert(x ^ y == y ^ x) by (bit_vector);
    assert((x ^ y) ^ z == x ^ (y ^ z)) by (bit_vector);
    assert((x ^ y) ^ y == x) by (bit_vector);
    assert(x ^ 0u128 == x) by (bit_vector);
}

/// The hash of a label for a numbered gate is BLAKE3 of 20 bytes, the 16 of the
/// label and the 4 of the number, each little end first. These bytes tell every
/// label and every number apart.
pub proof fn law_hashed_bytes_tell_labels_and_numbers_apart(l: S, g: u32, m: S, h: u32)
    ensures
        l.hashed(g).bits == vstd::bytes::spec_u128_from_le_bytes(
            crate::hash::blake3_16(
                vstd::bytes::spec_u128_to_le_bytes(l.bits)
                    + vstd::bytes::spec_u32_to_le_bytes(g),
            ),
        ),
        (vstd::bytes::spec_u128_to_le_bytes(l.bits) + vstd::bytes::spec_u32_to_le_bytes(g)).len()
            == 20,
        vstd::bytes::spec_u128_to_le_bytes(l.bits) + vstd::bytes::spec_u32_to_le_bytes(g)
            == vstd::bytes::spec_u128_to_le_bytes(m.bits) + vstd::bytes::spec_u32_to_le_bytes(h)
            ==> l == m && g == h,
{
    vstd::bytes::lemma_auto_spec_u128_to_from_le_bytes();
    vstd::bytes::lemma_auto_spec_u32_to_from_le_bytes();
    let (a, b) = (
        vstd::bytes::spec_u128_to_le_bytes(l.bits),
        vstd::bytes::spec_u128_to_le_bytes(m.bits),
    );
    let (c, d) = (vstd::bytes::spec_u32_to_le_bytes(g), vstd::bytes::spec_u32_to_le_bytes(h));
    assert((a + c).subrange(0, 16) =~= a);
    assert((b + d).subrange(0, 16) =~= b);
    assert((a + c).subrange(16, 20) =~= c);
    assert((b + d).subrange(16, 20) =~= d);
}

} // verus!
