//! The pseudo-random bytes that new kitties are made from: a BLAKE2 digest
//! of the SCALE encoding of a random seed, the caller and the call's index.
use vstd::prelude::*;
use parity_scale_codec::Encode;

verus! {

/// What the surrounding chain supplies for one call: its random seed and the
/// index of the call within its block.
#[derive(Clone, Copy, Debug, PartialEq, Eq)]
pub struct Entropy {
    pub random_seed: [u8; 32],
    pub extrinsic_index: Option<u32>,
}

/// The `n` low bytes of `v`, least significant first.
pub open spec fn le_bytes(v: nat, n: nat) -> Seq<u8>
    decreases n,
{
    if n == 0 {
        Seq::empty()
    } else {
        seq![(v % 256) as u8] + le_bytes(v / 256, (n - 1) as nat)
    }
}

/// The SCALE encoding of an optional `u32`: a 0 byte, or a 1 byte and the value.
pub open spec fn option_u32_bytes(o: Option<u32>) -> Seq<u8> {
    match o {
        None => seq![0u8],
        Some(x) => seq![1u8] + le_bytes(x as nat, 4),
    }
}

/// The SCALE encoding of the triple (seed, caller, call index).
pub open spec fn seed_payload(seed: Seq<u8>, sender: u64, index: Option<u32>) -> Seq<u8> {
    seed + le_bytes(sender as nat, 8) + option_u32_bytes(index)
}

/// The 128-bit BLAKE2b digest of `data`.
pub uninterp spec fn blake2_128_of(data: Seq<u8>) -> Seq<u8>;

/// Relies on parity-scale-codec's `Encode` for `(&[u8; 32], u64, Option<u32>)`:
/// a tuple encodes as its fields one after another, a byte array as its bytes,
/// an integer as its little-endian bytes, and an option as a 0 byte or as a
/// 1 byte followed by the value.
#[verifier::external_body]
fn encode_payload(seed: &[u8; 32], sender: u64, index: Option<u32>) -> (r: Vec<u8>)
    ensures
        r@ == seed_payload(seed@, sender, index),
{
    (seed, sender, index).encode()
}

/// Relies on sp_io::hashing::blake2_128: the 16-byte BLAKE2b digest of `data`,
/// which depends on `data` alone.
#[verifier::external_body]
fn blake2_128(data: &[u8]) -> (r: [u8; 16])
    ensures
        r@ == blake2_128_of(data@),
{
    sp_io::hashing::blake2_128(data)
}

/// Sixteen pseudo-random bytes for a call of `sender` under `entropy`.
pub fn random_value(sender: u64, entropy: &Entropy) -> (r: [u8; 16])
    ensures
        r@ == blake2_128_of(seed_payload(entropy.random_seed@, sender, entropy.extrinsic_index)),
{
    let payload = encode_payload(&entropy.random_seed, sender, entropy.extrinsic_index);
    blake2_128(payload.as_slice())
}

} // verus!
