//! Public statements, proof settings and the verifier policy of the SHA-512 STARK proofs.
use vstd::prelude::*;

pub mod private_seed;
pub mod envelope;
pub mod serialization;

verus! {

/// Smallest accepted log2 of the FRI final polynomial length.
pub const MIN_VERIFIER_LOG_FINAL_POLY_LEN: usize = 4;
/// Smallest accepted log2 of the FRI blowup factor.
pub const MIN_VERIFIER_LOG_BLOWUP: usize = 3;
/// Smallest accepted number of FRI queries.
pub const MIN_VERIFIER_NUM_QUERIES: usize = 2;
/// Smallest accepted commit-phase proof-of-work bits.
pub const MIN_VERIFIER_COMMIT_POW_BITS: usize = 1;
/// Smallest accepted query-phase proof-of-work bits.
pub const MIN_VERIFIER_QUERY_POW_BITS: usize = 1;
/// Largest message, in bytes, that a message instance may hold.
pub const MAX_MESSAGE_INSTANCE_BYTES: usize = 16777216;

/// FRI and transcript parameters for the STARK prover and verifier. Prover and verifier must
/// use identical settings.
#[derive(Clone, Copy, Debug, PartialEq, Eq, Structural)]
pub struct Sha512ProofSettings {
    /// Log2 of the FRI blowup factor.
    pub log_blowup: usize,
    /// Log2 of the FRI final polynomial length.
    pub log_final_poly_len: usize,
    /// Number of FRI queries.
    pub num_queries: usize,
    /// Commit-phase proof-of-work bits.
    pub commit_proof_of_work_bits: usize,
    /// Query-phase proof-of-work bits.
    pub query_proof_of_work_bits: usize,
    /// Seed of the Fiat-Shamir transcript challenger.
    pub rng_seed: u64,
}

/// The default settings: the baseline of this crate, which is also the verifier policy of
/// the settings-free verification functions. With a blowup of 2^3, 28 queries and 16 bits of
/// query proof of work they target about 3 * 28 + 16 = 100 bits of conjectured FRI soundness.
pub open spec fn default_settings() -> Sha512ProofSettings {
    Sha512ProofSettings {
        log_blowup: 3,
        log_final_poly_len: 4,
        num_queries: 28,
        commit_proof_of_work_bits: 16,
        query_proof_of_work_bits: 16,
        rng_seed: 1,
    }
}

impl Default for Sha512ProofSettings {
    fn default() -> (s: Self)
        ensures
            s == default_settings(),
    {
        Sha512ProofSettings {
            log_blowup: 3,
            log_final_poly_len: 4,
            num_queries: 28,
            commit_proof_of_work_bits: 16,
            query_proof_of_work_bits: 16,
            rng_seed: 1,
        }
    }
}

/// The settings reach the minimum that a verifier accepts.
pub open spec fn spec_meets_policy(s: Sha512ProofSettings) -> bool {
    &&& s.log_final_poly_len >= MIN_VERIFIER_LOG_FINAL_POLY_LEN
    &&& s.log_blowup >= MIN_VERIFIER_LOG_BLOWUP
    &&& s.num_queries >= MIN_VERIFIER_NUM_QUERIES
    &&& s.commit_proof_of_work_bits >= MIN_VERIFIER_COMMIT_POW_BITS
    &&& s.query_proof_of_work_bits >= MIN_VERIFIER_QUERY_POW_BITS
}

/// The verifier policy is exactly the documented set of floors: a blowup of at least 2^3, a
/// final polynomial of at least 2^4, at least 2 queries, and at least 1 bit of proof of work in
/// each phase. Settings at the floors meet it; settings below any one of them do not.
pub proof fn lemma_policy_is_the_floors(s: Sha512ProofSettings)
    ensures
        spec_meets_policy(s) <==> (s.log_final_poly_len >= 4 && s.log_blowup >= 3 && s.num_queries >= 2
            && s.commit_proof_of_work_bits >= 1 && s.query_proof_of_work_bits >= 1),
{
}

/// The default settings meet the minimum verifier policy, so that proving with them is never
/// refused.
pub proof fn lemma_default_settings_meet_policy()
    ensures
        spec_meets_policy(default_settings()),
{
}

/// Whether the settings reach the minimum verifier policy.
pub fn meets_minimum_verifier_policy(settings: Sha512ProofSettings) -> (ok: bool)
    ensures
        ok == spec_meets_policy(settings),
{
    settings.log_final_poly_len >= MIN_VERIFIER_LOG_FINAL_POLY_LEN && settings.log_blowup
        >= MIN_VERIFIER_LOG_BLOWUP && settings.num_queries >= MIN_VERIFIER_NUM_QUERIES
        && settings.commit_proof_of_work_bits >= MIN_VERIFIER_COMMIT_POW_BITS
        && settings.query_proof_of_work_bits >= MIN_VERIFIER_QUERY_POW_BITS
}

/// Refuses settings below the verifier policy before any proving work is done.
pub fn validate_settings_for_proving(settings: Sha512ProofSettings) -> (r: Result<(), String>)
    ensures
        r is Ok <==> spec_meets_policy(settings),
        r matches Err(e) ==> e@ == "proof settings do not meet minimum verifier policy"@,
{
    if !meets_minimum_verifier_policy(settings) {
        return Err("proof settings do not meet minimum verifier policy".to_string());
    }
    Ok(())
}

/// Refuses messages above the configured size limit.
pub fn validate_message_size(message_len: usize) -> (r: Result<(), String>)
    ensures
        r is Ok <==> message_len <= MAX_MESSAGE_INSTANCE_BYTES,
        r matches Err(e) ==> e@ == "message instance exceeds configured size limit"@,
{
    if message_len > MAX_MESSAGE_INSTANCE_BYTES {
        return Err("message instance exceeds configured size limit".to_string());
    }
    Ok(())
}

/// The public statement of a single-block proof: the input chaining state and the block.
#[derive(Clone, Copy, Debug)]
pub struct Sha512SingleBlockInstance {
    /// The eight chaining words (H0..H7) going into this block.
    pub initial_state: [u64; 8],
    /// The 128-byte message block.
    pub block: [u8; 128],
}

/// The public statement of a message proof: the initial chaining state and the message.
#[derive(Clone, Debug)]
pub struct Sha512MessageInstance {
    /// Initial chaining state; the SHA-512 initial hash value for a standard hash.
    pub initial_state: [u64; 8],
    /// The message; it may be empty.
    pub message: Vec<u8>,
}

/// Settings of the experimental lookup-argument proof of the lag-limb ranges. The lookup
/// prover itself is not part of this crate: it needs Plonky3 crates that are only available
/// from their development repository. The settings are kept so that callers can carry them.
#[derive(Clone, Copy, Debug, PartialEq, Eq, Structural)]
pub struct Sha512LagLogupSettings {
    /// Log2 of the FRI final polynomial length.
    pub log_final_poly_len: usize,
    /// Seed of the Fiat-Shamir transcript challenger.
    pub rng_seed: u64,
}

impl Default for Sha512LagLogupSettings {
    fn default() -> (s: Self)
        ensures
            s.log_final_poly_len == 2,
            s.rng_seed == 1,
    {
        Sha512LagLogupSettings { log_final_poly_len: 2, rng_seed: 1 }
    }
}

} // verus!
