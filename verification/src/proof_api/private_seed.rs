//! Sealed bundles for proofs about 32-byte seeds.
use vstd::prelude::*;

use crate::constants::INITIAL_STATE;
use crate::proof_api::serialization::{decoded_state, deserialize_message_instance};
use crate::proof_api::{
    meets_minimum_verifier_policy, spec_meets_policy, Sha512MessageInstance, Sha512ProofSettings,
    MAX_MESSAGE_INSTANCE_BYTES,
};
use crate::spec::be_word;

verus! {

/// A self-contained proof payload for the SHA-512 digest of a 32-byte seed: the digest, the
/// settings, the serialized message instance and the serialized message proof.
#[derive(Clone, Debug)]
pub struct Sha512Seed32PrivateProof {
    pub digest: [u8; 64],
    pub settings: Sha512ProofSettings,
    pub sealed_instance: Vec<u8>,
    pub sealed_proof: Vec<u8>,
}

/// The sealed instance of a bundle is acceptable for `settings`: the settings meet the
/// verifier policy and equal the bundle's, and the sealed bytes decode to a 32-byte message
/// hashed from the SHA-512 initial hash value.
pub open spec fn seed32_instance_ok(bundle: Sha512Seed32PrivateProof, settings: Sha512ProofSettings) -> bool {
    let b = bundle.sealed_instance@;
    &&& spec_meets_policy(settings)
    &&& bundle.settings == settings
    &&& b.len() >= 72
    &&& be_word(b, 8) <= MAX_MESSAGE_INSTANCE_BYTES
    &&& b.len() == 72 + be_word(b, 8)
    &&& decoded_state(b) == INITIAL_STATE@
    &&& be_word(b, 8) == 32
}

/// A bundle opens only for the very settings it was sealed with: settings that differ from
/// the bundle's in any field, or that fall short of the verifier policy, refuse it.
pub proof fn lemma_seed_bundle_needs_its_settings(bundle: Sha512Seed32PrivateProof, settings: Sha512ProofSettings)
    ensures
        bundle.settings != settings ==> !seed32_instance_ok(bundle, settings),
        !spec_meets_policy(settings) ==> !seed32_instance_ok(bundle, settings),
{
}

/// The statement of a seed proof: the 32-byte seed as the message, hashed from the SHA-512
/// initial hash value.
pub fn seed32_instance(seed: &[u8; 32]) -> (inst: Sha512MessageInstance)
    ensures
        inst.initial_state@ == INITIAL_STATE@,
        inst.message@ == seed@,
{
    let mut message: Vec<u8> = Vec::new();
    for k in 0..32
        invariant
            message@ == seed@.take(k as int),
    {
        message.push(seed[k]);
        assert(message@ =~= seed@.take(k + 1));
    }
    assert(seed@.take(32) =~= seed@);
    Sha512MessageInstance { initial_state: INITIAL_STATE, message }
}

/// Opens the sealed instance of a bundle: the checks that precede the proof verification.
pub fn open_seed32_instance(bundle: &Sha512Seed32PrivateProof, settings: Sha512ProofSettings) -> (r: Option<Sha512MessageInstance>)
    ensures
        r is Some <==> seed32_instance_ok(*bundle, settings),
        r matches Some(inst) ==> inst.initial_state@ == INITIAL_STATE@ && inst.message@
            == bundle.sealed_instance@.subrange(72, 104),
{
    if !meets_minimum_verifier_policy(settings) || bundle.settings != settings {
        return None;
    }
    let instance = match deserialize_message_instance(bundle.sealed_instance.as_slice()) {
        Ok(instance) => instance,
        Err(_) => {
            return None;
        },
    };
    if !same_words(&instance.initial_state, &INITIAL_STATE) || instance.message.len() != 32 {
        return None;
    }
    Some(instance)
}

fn same_words(a: &[u64; 8], b: &[u64; 8]) -> (r: bool)
    ensures
        r == (a@ == b@),
{
    for i in 0..8
        invariant
            forall|j: int| 0 <= j < i ==> a[j] == b[j],
    {
        if a[i] != b[i] {
            return false;
        }
    }
    assert(a@ =~= b@);
    true
}

} // verus!
