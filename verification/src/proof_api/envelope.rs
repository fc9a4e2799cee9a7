//! The checks around a serialized proof: size limits, the digest field, and the claimed final
//! state and digest of a message proof.
use vstd::prelude::*;

use crate::sha512::{same_state, Sha512Circuit};
use crate::spec::state_bytes;

verus! {

/// Largest serialized single-block proof, in bytes.
pub const MAX_SINGLE_PROOF_BYTES: usize = 16777216;
/// Largest serialized message proof, in bytes.
pub const MAX_MULTI_PROOF_BYTES: usize = 67108864;
/// Largest serialized inner STARK proof, in bytes.
pub const MAX_INNER_PROOF_BYTES: usize = 16777216;
/// Largest serialized seed bundle, in bytes.
pub const MAX_SEED_PRIVATE_BUNDLE_BYTES: usize = 67108864;

/// Refuses an inner STARK proof above its size limit; `multi` selects the message wording.
pub fn validate_inner_proof_size(len: usize, multi: bool) -> (r: Result<(), String>)
    ensures
        r is Ok <==> len <= MAX_INNER_PROOF_BYTES,
        r matches Err(e) ==> (multi ==> e@ == "inner multi-block proof exceeds configured size limit"@)
            && (!multi ==> e@ == "inner single-block proof exceeds configured size limit"@),
{
    if len > MAX_INNER_PROOF_BYTES {
        if multi {
            return Err("inner multi-block proof exceeds configured size limit".to_string());
        } else {
            return Err("inner single-block proof exceeds configured size limit".to_string());
        }
    }
    Ok(())
}

/// Refuses a serialized single-block proof above its size limit.
pub fn validate_single_proof_size(len: usize) -> (r: Result<(), String>)
    ensures
        r is Ok <==> len <= MAX_SINGLE_PROOF_BYTES,
        r matches Err(e) ==> e@ == "serialized single-block proof exceeds configured size limit"@,
{
    if len > MAX_SINGLE_PROOF_BYTES {
        return Err("serialized single-block proof exceeds configured size limit".to_string());
    }
    Ok(())
}

/// Refuses a serialized message proof above its size limit.
pub fn validate_multi_proof_size(len: usize) -> (r: Result<(), String>)
    ensures
        r is Ok <==> len <= MAX_MULTI_PROOF_BYTES,
        r matches Err(e) ==> e@ == "serialized multi-block proof exceeds configured size limit"@,
{
    if len > MAX_MULTI_PROOF_BYTES {
        return Err("serialized multi-block proof exceeds configured size limit".to_string());
    }
    Ok(())
}

/// Refuses a serialized seed bundle above its size limit.
pub fn validate_seed_bundle_size(len: usize) -> (r: Result<(), String>)
    ensures
        r is Ok <==> len <= MAX_SEED_PRIVATE_BUNDLE_BYTES,
        r matches Err(e) ==> e@ == "serialized seed32 private proof exceeds configured size limit"@,
{
    if len > MAX_SEED_PRIVATE_BUNDLE_BYTES {
        return Err("serialized seed32 private proof exceeds configured size limit".to_string());
    }
    Ok(())
}

/// The 64-byte digest a decoded digest field holds: `None` unless it has exactly 64 bytes.
pub fn digest_from_bytes(bytes: &[u8]) -> (r: Option<[u8; 64]>)
    ensures
        r is Some <==> bytes@.len() == 64,
        r matches Some(d) ==> d@ == bytes@,
{
    if bytes.len() != 64 {
        return None;
    }
    let mut d = [0u8; 64];
    for k in 0..64
        invariant
            bytes@.len() == 64,
            forall|j: int| 0 <= j < k ==> #[trigger] d[j] == bytes@[j],
    {
        d[k] = bytes[k];
    }
    assert(d@ =~= bytes@);
    Some(d)
}

/// Whether a message proof claims the final state that the verifier computed and the digest
/// of that state.
pub fn message_claims_match(final_state: &[u64; 8], claimed_state: &[u64; 8], claimed_digest: &[u8; 64]) -> (ok: bool)
    ensures
        ok == (claimed_state@ == final_state@ && claimed_digest@ == state_bytes(final_state@)),
{
    if !same_state(claimed_state, final_state) {
        return false;
    }
    let digest = Sha512Circuit::state_to_digest(final_state);
    for k in 0..64
        invariant
            digest@ == state_bytes(final_state@),
            forall|j: int| 0 <= j < k ==> claimed_digest[j] == digest[j],
    {
        if claimed_digest[k] != digest[k] {
            return false;
        }
    }
    assert(claimed_digest@ =~= digest@);
    true
}

} // verus!
