//! Hassan: a transparent settlement BlockDAG — consensus parameters,
//! GHOSTDAG ordering, proof-of-work, fee market and address logic.

pub mod genesis;
pub mod bytes;
pub mod crypto;
pub mod hash;
pub mod pow;
pub mod fee;
pub mod address;
pub mod abs_sig;
pub mod tx;
pub mod ghostdag;
pub mod block;
pub mod pruning;
pub mod hd;
pub mod kernel;
pub mod assume_valid;
pub mod dual_sig;
pub mod custody;
pub mod chain;
pub mod select;
pub mod daa;
pub mod finality;
pub mod netaddr;
pub mod addrman;
pub mod economics;
pub mod text;
pub mod indexer;
pub mod api;
pub mod assurance;
pub mod admission;
pub mod template;
pub mod history;
pub mod trace;
pub mod keystore;

use vstd::prelude::*;
use vstd::string::StringSliceAdditionalSpecFns;

pub use crate::address::address_matches_pubkey;
pub use crate::block::{calculate_block_size, chain_hash, default_block_version, genesis_block, genesis_hash, Block};
pub use crate::crypto::{generate_keypair, now_ms, sign_message, verify_signature, PQ_PUBLIC_KEY_SIZE, PQ_SECRET_KEY_SIZE, PQ_SIGNATURE_SIZE};
pub use crate::hash::{address_hash, hash512, HASH_SIZE};
pub use crate::pow::{hash_meets_target, hop_difficulty_bounds, min_relay_fee_for_bytes, pow_target, retarget_difficulty, typical_signed_tx_min_fee, verify_pow};
pub use crate::pruning::{verify_pruning_proof, PruningProof, PruningProofSummary};
pub use crate::tx::TransparentTx;

verus! {

/// The canonical wallet address of a public key: bech32m `hsn1…` over the
/// first 32 bytes of its address digest.
pub fn hash_to_address(pubkey: &[u8]) -> (r: String)
    ensures
        r@ == crate::bytes::ascii_chars(crate::address::spec_encode_hash(crate::hash::spec_address_hash(pubkey@))),
{
    crate::address::encode_address(pubkey)
}

/// A valid bech32m address built from a digest whose 64 bytes all equal `seed`.
pub fn test_address(seed: u8) -> (r: String)
    ensures
        r@ == crate::bytes::ascii_chars(crate::address::spec_encode_hash(Seq::new(64, |i: int| seed))),
{
    let h = crate::hash::Hash([seed; 64]);
    proof {
        assert(h@ =~= Seq::new(64, |i: int| seed));
    }
    crate::address::encode_hash(&h)
}

/// The seed of the shared test-mining keypair.
pub open spec fn test_miner_seed() -> Seq<u8> {
    Seq::new(32, |i: int| 77u8)
}

/// The keypair `(secret, public)` shared by tests that mine blocks: derived
/// from a fixed seed, so every call gives the same keys.
pub fn test_miner_keys() -> (r: (Vec<u8>, Vec<u8>))
    ensures
        (r.0@, r.1@) == crate::crypto::mldsa87_seed_keypair(test_miner_seed()),
{
    let seed = [77u8; 32];
    proof {
        assert(seed@ =~= test_miner_seed());
        assert(seed@.subrange(0, 32) =~= seed@);
    }
    match crate::crypto::generate_keypair_from_seed(&seed) {
        Ok(kp) => kp,
        Err(_) => (Vec::new(), Vec::new()),
    }
}

/// The bytes of `.onion`.
pub open spec fn onion_suffix() -> Seq<u8> {
    seq![46u8, 111u8, 110u8, 105u8, 111u8, 110u8]
}

/// A Tor v3 onion address: 56 base32 characters followed by `.onion`
/// (62 bytes in all).
pub fn verify_tor_node(onion_address: &str) -> (r: bool)
    ensures
        r == (onion_address.spec_bytes().len() == 62
            && onion_address.spec_bytes().subrange(56, 62) == onion_suffix()),
{
    let b = onion_address.as_bytes();
    if b.len() != 62 {
        return false;
    }
    let suffix: [u8; 6] = [46u8, 111u8, 110u8, 105u8, 111u8, 110u8];
    let mut i: usize = 0;
    while i < 6
        invariant
            i <= 6,
            b@ == onion_address.spec_bytes(),
            b@.len() == 62,
            suffix@ == onion_suffix(),
            forall|j: int| 0 <= j < i ==> b@[56 + j] == onion_suffix()[j],
        decreases 6 - i,
    {
        if b[56 + i] != suffix[i] {
            proof {
                assert(b@.subrange(56, 62)[i as int] == b@[56 + i]);
                assert(suffix@[i as int] == onion_suffix()[i as int]);
                assert(b@.subrange(56, 62)[i as int] != onion_suffix()[i as int]);
                assert(b@.subrange(56, 62) != onion_suffix());
            }
            return false;
        }
        i = i + 1;
    }
    proof {
        assert(b@.subrange(56, 62) =~= onion_suffix());
    }
    true
}

/// Lowercase hex of [`chain_hash`].
pub fn chain_hash_hex() -> (r: String)
    ensures
        exists|h: crate::hash::Hash| h@ == crate::hash::spec_digest512(crate::block::spec_chain_hash_tag(),
            crate::genesis::spec_genesis_domain() + crate::bytes::le64(crate::genesis::CHAIN_ID)
            + crate::crypto::blake3_xof(crate::block::spec_genesis_identity(), 64))
            && r@ == crate::bytes::ascii_chars(crate::bytes::hex_encode_spec(h@)),
{
    let h = chain_hash();
    crate::bytes::hex_encode(h.as_slice())
}

/// The legacy `hsn:` prefix bytes.
pub open spec fn legacy_prefix_bytes() -> Seq<u8> {
    seq![104u8, 115u8, 110u8, 58u8]
}

/// Parse a legacy `hsn:<128 hex>` address back to its 512-bit digest.
pub fn address_to_bytes(address: &str) -> (r: Option<crate::hash::Hash>)
    ensures
        match r {
            Some(h) => {
                let a = address.spec_bytes();
                &&& a.len() >= 4
                &&& a.subrange(0, 4) == legacy_prefix_bytes()
                &&& crate::bytes::hex_decode_spec(a.subrange(4, a.len() as int)) == Some(h@)
            },
            None => {
                let a = address.spec_bytes();
                !(a.len() >= 4 && a.subrange(0, 4) == legacy_prefix_bytes()
                    && (crate::bytes::hex_decode_spec(a.subrange(4, a.len() as int)) matches Some(d) && d.len() == 64))
            },
        },
{
    let a = address.as_bytes();
    if a.len() < 4 || a[0] != 104u8 || a[1] != 115u8 || a[2] != 110u8 || a[3] != 58u8 {
        proof {
            if a@.len() >= 4 && a@.subrange(0, 4) == legacy_prefix_bytes() {
                assert(a@.subrange(0, 4)[0] == a@[0]);
                assert(a@.subrange(0, 4)[1] == a@[1]);
                assert(a@.subrange(0, 4)[2] == a@[2]);
                assert(a@.subrange(0, 4)[3] == a@[3]);
            }
        }
        return None;
    }
    proof {
        assert(a@.subrange(0, 4) =~= legacy_prefix_bytes());
    }
    let mut rest: Vec<u8> = Vec::new();
    let mut i: usize = 4;
    while i < a.len()
        invariant
            4 <= i <= a@.len(),
            rest@ == a@.subrange(4, i as int),
        decreases a@.len() - i,
    {
        rest.push(a[i]);
        proof {
            assert(rest@ =~= a@.subrange(4, i + 1));
        }
        i = i + 1;
    }
    match crate::bytes::hex_decode(rest.as_slice()) {
        Some(d) => {
            if d.len() == 64 {
                Some(crate::hash::hash_from_vec(&d))
            } else {
                None
            }
        },
        None => None,
    }
}

} // verus!
