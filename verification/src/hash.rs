//! What the library has from outside: BLAKE3, and random bytes.
use vstd::prelude::*;

verus! {

/// The first 16 bytes of the extendable output of BLAKE3 on `input`.
pub uninterp spec fn blake3_16(input: Seq<u8>) -> Seq<u8>;

/// `blake3::Hasher` in its regular mode: one `update` with `input`, then the
/// first 16 bytes that `finalize_xof` yields. Trusted: the bytes are a function
/// of `input` alone.
#[verifier::external_body]
pub(crate) fn hash_16(input: &[u8]) -> (out: [u8; 16])
    ensures
        out@ == blake3_16(input@),
{
    let mut hasher = blake3::Hasher::new();
    hasher.update(input);
    let mut out = [0u8; 16];
    hasher.finalize_xof().fill(&mut out);
    out
}

/// `rand::random`: `N` bytes of the thread's generator. Nothing is claimed of
/// them. The generator seeds itself from the operating system and panics where
/// that fails, whatever the caller does.
#[verifier::external_body]
pub(crate) fn random_seed<const N: usize>() -> (bytes: [u8; N]) {
    rand::random::<[u8; N]>()
}

} // verus!
