use sha2::{Digest, Sha512};
use sha512_circuit::air::columns::{
    limb_col, AIR_WIDTH, PREP_BLOCK_START_SELECTOR_COL, PREP_FINAL_SELECTOR_COL,
    PREP_INIT_W_SELECTOR_COL, PREP_ROUND_SELECTOR_COL, PREP_TRANSITION_SELECTOR_COL, WORD_K,
};
use sha512_circuit::air::{state_public_values, SEGMENT_CELLS};
use sha512_circuit::field::{bb, f_add, f_mul, f_sub, BABY_BEAR_P};
use sha512_circuit::ops::{big_sigma0, ch, maj, small_sigma0, small_sigma1};
use sha512_circuit::proof_api::envelope::{
    digest_from_bytes, message_claims_match, validate_inner_proof_size,
    validate_multi_proof_size, validate_seed_bundle_size, validate_single_proof_size,
    MAX_INNER_PROOF_BYTES, MAX_MULTI_PROOF_BYTES, MAX_SEED_PRIVATE_BUNDLE_BYTES,
    MAX_SINGLE_PROOF_BYTES,
};
use sha512_circuit::proof_api::private_seed::open_seed32_instance;
use sha512_circuit::proof_api::{
    meets_minimum_verifier_policy, validate_message_size, validate_settings_for_proving,
    MAX_MESSAGE_INSTANCE_BYTES,
};
use sha512_circuit::{
    deserialize_message_instance, deserialize_single_block_instance, serialize_message_instance,
    serialize_single_block_instance, Sha512Circuit, Sha512LagLogupSettings, Sha512MessageInstance,
    Sha512ProofSettings, Sha512Seed32PrivateProof, Sha512SingleBlockInstance, INITIAL_STATE,
};

fn reference_digest(message: &[u8]) -> [u8; 64] {
    let mut hasher = Sha512::new();
    hasher.update(message);
    hasher.finalize().into()
}

fn sample_message(len: usize) -> Vec<u8> {
    (0..len).map(|i| ((i * 5 + 11) & 0xff) as u8).collect()
}

fn seed_bundle(settings: Sha512ProofSettings) -> Sha512Seed32PrivateProof {
    let instance = Sha512MessageInstance {
        initial_state: INITIAL_STATE,
        message: (0..32).map(|i| i as u8).collect(),
    };
    Sha512Seed32PrivateProof {
        digest: Sha512Circuit::hash(&instance.message),
        settings,
        sealed_instance: serialize_message_instance(&instance).expect("encode"),
        sealed_proof: Vec::new(),
    }
}

#[test]
fn single_instance_bytes_roundtrip() {
    let mut block = [0_u8; 128];
    for (i, b) in block.iter_mut().enumerate() {
        *b = (i * 3) as u8;
    }
    let instance = Sha512SingleBlockInstance { initial_state: INITIAL_STATE, block };
    let bytes = serialize_single_block_instance(&instance);
    assert_eq!(bytes.len(), 192);
    assert_eq!(&bytes[0..8], &[0x6a, 0x09, 0xe6, 0x67, 0xf3, 0xbc, 0xc9, 0x08]);
    assert_eq!(&bytes[64..], &block[..]);
    let back = deserialize_single_block_instance(&bytes).expect("decode");
    assert_eq!(back.initial_state, instance.initial_state);
    assert_eq!(back.block, instance.block);
    assert_eq!(serialize_single_block_instance(&back), bytes);
}

#[test]
fn single_instance_rejects_wrong_length() {
    let err = deserialize_single_block_instance(&[0_u8; 191]).unwrap_err();
    assert_eq!(err, "invalid single-block instance length");
    assert!(deserialize_single_block_instance(&[0_u8; 193]).is_err());
    assert!(deserialize_single_block_instance(&[]).is_err());
}

#[test]
fn message_instance_bytes_roundtrip() {
    for len in [0_usize, 1, 150] {
        let instance = Sha512MessageInstance {
            initial_state: INITIAL_STATE,
            message: sample_message(len),
        };
        let bytes = serialize_message_instance(&instance).expect("encode");
        assert_eq!(bytes.len(), 72 + len);
        assert_eq!(&bytes[64..72], &(len as u64).to_be_bytes());
        let back = deserialize_message_instance(&bytes).expect("decode");
        assert_eq!(back.initial_state, instance.initial_state);
        assert_eq!(back.message, instance.message);
    }
}

#[test]
fn message_instance_decoding_errors() {
    assert_eq!(
        deserialize_message_instance(&[0_u8; 71]).unwrap_err(),
        "message instance too short"
    );

    let mut too_long = vec![0_u8; 72];
    too_long[64..72].copy_from_slice(&((MAX_MESSAGE_INSTANCE_BYTES as u64) + 1).to_be_bytes());
    assert_eq!(
        deserialize_message_instance(&too_long).unwrap_err(),
        "message instance exceeds configured size limit"
    );

    let mut mismatch = vec![0_u8; 75];
    mismatch[64..72].copy_from_slice(&4_u64.to_be_bytes());
    assert_eq!(
        deserialize_message_instance(&mismatch).unwrap_err(),
        "message instance length mismatch"
    );
}

#[test]
fn message_size_limit_boundary() {
    assert!(validate_message_size(MAX_MESSAGE_INSTANCE_BYTES).is_ok());
    assert_eq!(
        validate_message_size(MAX_MESSAGE_INSTANCE_BYTES + 1).unwrap_err(),
        "message instance exceeds configured size limit"
    );
    let big = Sha512MessageInstance {
        initial_state: INITIAL_STATE,
        message: vec![0_u8; MAX_MESSAGE_INSTANCE_BYTES + 1],
    };
    assert!(serialize_message_instance(&big).is_err());
}

#[test]
fn default_settings_meet_policy() {
    let settings = Sha512ProofSettings::default();
    assert_eq!(settings.log_blowup, 3);
    assert_eq!(settings.log_final_poly_len, 4);
    assert_eq!(settings.num_queries, 28);
    assert_eq!(settings.commit_proof_of_work_bits, 16);
    assert_eq!(settings.query_proof_of_work_bits, 16);
    assert_eq!(settings.rng_seed, 1);
    assert!(meets_minimum_verifier_policy(settings));
    assert!(validate_settings_for_proving(settings).is_ok());

    let logup = Sha512LagLogupSettings::default();
    assert_eq!(logup.log_final_poly_len, 2);
    assert_eq!(logup.rng_seed, 1);
}

#[test]
fn weak_settings_are_refused() {
    let base = Sha512ProofSettings::default();
    let weak = [
        Sha512ProofSettings { log_blowup: 2, ..base },
        Sha512ProofSettings { log_final_poly_len: 3, ..base },
        Sha512ProofSettings { num_queries: 1, ..base },
        Sha512ProofSettings { commit_proof_of_work_bits: 0, ..base },
        Sha512ProofSettings { query_proof_of_work_bits: 0, ..base },
    ];
    for settings in weak {
        assert!(!meets_minimum_verifier_policy(settings));
        assert_eq!(
            validate_settings_for_proving(settings).unwrap_err(),
            "proof settings do not meet minimum verifier policy"
        );
    }
    let strong = Sha512ProofSettings { log_blowup: 5, num_queries: 40, rng_seed: 99, ..base };
    assert!(meets_minimum_verifier_policy(strong));
}

#[test]
fn seed_bundle_opens_only_for_matching_settings() {
    let settings = Sha512ProofSettings::default();
    let bundle = seed_bundle(settings);
    let instance = open_seed32_instance(&bundle, settings).expect("opens");
    assert_eq!(instance.initial_state, INITIAL_STATE);
    assert_eq!(instance.message, (0..32).map(|i| i as u8).collect::<Vec<u8>>());

    let other = Sha512ProofSettings { rng_seed: 2, ..settings };
    assert!(open_seed32_instance(&bundle, other).is_none());

    let weak = Sha512ProofSettings { num_queries: 1, ..settings };
    let weak_bundle = seed_bundle(weak);
    assert!(open_seed32_instance(&weak_bundle, weak).is_none());
}

#[test]
fn seed_bundle_rejects_wrong_statement() {
    let settings = Sha512ProofSettings::default();

    let mut wrong_state = seed_bundle(settings);
    wrong_state.sealed_instance[0] ^= 1;
    assert!(open_seed32_instance(&wrong_state, settings).is_none());

    let mut wrong_length = seed_bundle(settings);
    let instance = Sha512MessageInstance {
        initial_state: INITIAL_STATE,
        message: vec![7_u8; 33],
    };
    wrong_length.sealed_instance = serialize_message_instance(&instance).expect("encode");
    assert!(open_seed32_instance(&wrong_length, settings).is_none());

    let mut truncated = seed_bundle(settings);
    truncated.sealed_instance.pop();
    assert!(open_seed32_instance(&truncated, settings).is_none());
}

#[test]
fn state_to_digest_is_big_endian() {
    let digest = Sha512Circuit::state_to_digest(&INITIAL_STATE);
    assert_eq!(&digest[0..8], &0x6a09e667f3bcc908_u64.to_be_bytes());
    assert_eq!(&digest[56..64], &0x5be0cd19137e2179_u64.to_be_bytes());
}

#[test]
fn padded_blocks_lengths_and_trailer() {
    for (len, blocks) in [(0_usize, 1_usize), (111, 1), (112, 2), (127, 2), (128, 2), (239, 2), (240, 3)] {
        let message = sample_message(len);
        let padded = Sha512Circuit::padded_blocks(&message);
        assert_eq!(padded.len(), blocks, "length {len}");
        let last = padded[blocks - 1];
        assert_eq!(&last[112..128], &((len as u128) * 8).to_be_bytes());
        let first_pad = len % 128;
        assert_eq!(padded[len / 128][first_pad], 0x80);
    }
}

#[test]
fn chained_compressions_give_the_hash() {
    for len in [0_usize, 200, 300] {
        let message = sample_message(len);
        let mut state = INITIAL_STATE;
        for block in Sha512Circuit::padded_blocks(&message) {
            let trace = Sha512Circuit::compress_block(&state, &block);
            assert!(Sha512Circuit::verify_block_trace(&trace));
            state = trace.output_state;
        }
        assert_eq!(Sha512Circuit::state_to_digest(&state), reference_digest(&message));
    }
}

#[test]
fn honest_trace_of_any_block_is_accepted() {
    for seed in [1_u8, 77, 200] {
        let mut block = [0_u8; 128];
        for (i, b) in block.iter_mut().enumerate() {
            *b = seed.wrapping_mul(i as u8).wrapping_add(seed);
        }
        let mut state = INITIAL_STATE;
        state[3] ^= seed as u64;
        let trace = Sha512Circuit::compress_block(&state, &block);
        let main = Sha512Circuit::build_plonky3_air_trace(&trace);
        assert_eq!(main.width, AIR_WIDTH);
        assert_eq!(main.height(), 128);
        assert!(Sha512Circuit::verify_plonky3_air_trace_with_instance(&main, &state, &block));

        let mut other_block = block;
        other_block[5] ^= 0x10;
        assert!(!Sha512Circuit::verify_plonky3_air_trace_with_instance(&main, &state, &other_block));
    }
}

#[test]
fn preprocessed_trace_carries_instance() {
    let block = [0_u8; 128];
    let prep = Sha512Circuit::build_plonky3_preprocessed_trace_from_instance(&INITIAL_STATE, &block);
    assert_eq!(prep.width, AIR_WIDTH);
    assert_eq!(prep.height(), 128);
    // The limbs of the initial state on the first row, least significant first.
    assert_eq!(prep.values[0], 0xc908);
    assert_eq!(prep.values[3], 0x6a09);
    // The limbs of K[0] on the first row.
    assert_eq!(prep.values[limb_col(WORD_K, 0)], 0xae22);
    assert_eq!(prep.values[limb_col(WORD_K, 3)], 0x428a);
    // The five selectors in the last five columns.
    assert_eq!(AIR_WIDTH, 1076);
    assert_eq!(PREP_BLOCK_START_SELECTOR_COL, AIR_WIDTH - 5);
    assert_eq!(PREP_FINAL_SELECTOR_COL, AIR_WIDTH - 1);
    assert_eq!(prep.values[PREP_BLOCK_START_SELECTOR_COL], 1);
    assert_eq!(prep.values[AIR_WIDTH + PREP_BLOCK_START_SELECTOR_COL], 0);
    assert_eq!(prep.values[PREP_ROUND_SELECTOR_COL], 1);
    assert_eq!(prep.values[79 * AIR_WIDTH + PREP_ROUND_SELECTOR_COL], 1);
    assert_eq!(prep.values[80 * AIR_WIDTH + PREP_ROUND_SELECTOR_COL], 0);
    assert_eq!(prep.values[15 * AIR_WIDTH + PREP_INIT_W_SELECTOR_COL], 1);
    assert_eq!(prep.values[16 * AIR_WIDTH + PREP_INIT_W_SELECTOR_COL], 0);
    assert_eq!(prep.values[80 * AIR_WIDTH + PREP_FINAL_SELECTOR_COL], 1);
    assert_eq!(prep.values[79 * AIR_WIDTH + PREP_FINAL_SELECTOR_COL], 0);
    assert_eq!(prep.values[126 * AIR_WIDTH + PREP_TRANSITION_SELECTOR_COL], 1);
    assert_eq!(prep.values[127 * AIR_WIDTH + PREP_TRANSITION_SELECTOR_COL], 0);
}

#[test]
fn message_bundle_chains_blocks() {
    for len in [0_usize, 127, 128, 129, 300] {
        let message = sample_message(len);
        let bundle = Sha512Circuit::build_message_air_bundle(&INITIAL_STATE, &message);
        let blocks = Sha512Circuit::padded_blocks(&message).len();
        let segments = bundle.main.values.len() / SEGMENT_CELLS;
        assert_eq!(bundle.main.width, AIR_WIDTH);
        assert_eq!(bundle.preprocessed.width, AIR_WIDTH);
        assert_eq!(segments, 1 << (bundle.degree_bits - 7));
        assert!(blocks <= segments && (segments == 1 || segments < 2 * blocks));
        assert_eq!(
            Sha512Circuit::state_to_digest(&bundle.final_state),
            reference_digest(&message),
            "length {len}"
        );
    }
}

#[test]
fn public_values_reduce_into_the_field() {
    let state = [0_u64, 1, BABY_BEAR_P as u64, u64::MAX, 2 * BABY_BEAR_P as u64 + 5, 7, 8, 9];
    let values = state_public_values(&state);
    assert_eq!(values[0], 0);
    assert_eq!(values[1], 1);
    assert_eq!(values[2], 0);
    assert_eq!(values[3], (u64::MAX % BABY_BEAR_P as u64) as u32);
    assert_eq!(values[4], 5);
}

#[test]
fn field_operations_exact_values() {
    let p = BABY_BEAR_P;
    assert_eq!(f_add(p - 1, 1), 0);
    assert_eq!(f_add(p - 1, p - 1), p - 2);
    assert_eq!(f_sub(0, 1), p - 1);
    assert_eq!(f_sub(5, 3), 2);
    assert_eq!(f_mul(p - 1, p - 1), 1);
    assert_eq!(f_mul(65536, 65536), 268435454);
    assert_eq!(bb(1_u64 << 32), 268435454);
}

#[test]
fn round_functions_exact_values() {
    assert_eq!(ch(0xff00, 0x0f0f, 0xf0f0), 0x0ff0);
    assert_eq!(maj(0b1100, 0b1010, 0b0110), 0b1110);
    assert_eq!(small_sigma0(1), 0x8100_0000_0000_0000);
    assert_eq!(small_sigma1(1), 0x0000_2000_0000_0008);
    assert_eq!(big_sigma0(1), (1_u64 << 36) | (1_u64 << 30) | (1_u64 << 25));
}

#[test]
fn message_bundle_segments_are_block_traces() {
    let message = sample_message(200);
    let bundle = Sha512Circuit::build_message_air_bundle(&INITIAL_STATE, &message);
    let blocks = Sha512Circuit::padded_blocks(&message);
    let mut state = INITIAL_STATE;
    for (s, block) in blocks.iter().enumerate() {
        let segment = sha512_circuit::TraceMatrix {
            values: bundle.main.values[s * SEGMENT_CELLS..(s + 1) * SEGMENT_CELLS].to_vec(),
            width: AIR_WIDTH,
        };
        assert!(Sha512Circuit::verify_plonky3_air_trace_with_instance(&segment, &state, block));
        state = Sha512Circuit::compress_block(&state, block).output_state;
    }
    assert_eq!(bundle.final_state, state);
}

#[test]
fn honest_trace_passes_the_self_instance_check() {
    let mut block = [0_u8; 128];
    for (i, b) in block.iter_mut().enumerate() {
        *b = (i * 7 + 1) as u8;
    }
    let trace = Sha512Circuit::compress_block(&INITIAL_STATE, &block);
    let mut main = Sha512Circuit::build_plonky3_air_trace(&trace);
    assert!(Sha512Circuit::verify_plonky3_air_trace(&main));
    main.values.truncate(127 * AIR_WIDTH);
    assert!(!Sha512Circuit::verify_plonky3_air_trace(&main));
}

#[test]
fn tampered_round_state_or_output_is_rejected() {
    let block = [3_u8; 128];
    let trace = Sha512Circuit::compress_block(&INITIAL_STATE, &block);
    assert!(Sha512Circuit::verify_block_trace(&trace));

    for i in [0_usize, 1, 40, 80] {
        let mut tampered = trace.clone();
        tampered.round_states[i][2] ^= 1;
        assert!(!Sha512Circuit::verify_block_trace(&tampered), "round state {i}");
    }
    for i in [0_usize, 15, 16, 79] {
        let mut tampered = trace.clone();
        tampered.words[i] = tampered.words[i].wrapping_add(1);
        assert!(!Sha512Circuit::verify_block_trace(&tampered), "word {i}");
    }
    let mut tampered = trace.clone();
    tampered.output_state[7] ^= 1 << 63;
    assert!(!Sha512Circuit::verify_block_trace(&tampered));
}

#[test]
fn trace_has_the_documented_shape() {
    let trace = Sha512Circuit::compress_block(&INITIAL_STATE, &[0_u8; 128]);
    let main = Sha512Circuit::build_plonky3_air_trace(&trace);
    assert_eq!(main.width, 1076);
    assert_eq!(main.height(), 128);
    assert_eq!(main.values.len(), 128 * 1076);
}

#[test]
fn public_values_are_bound_on_the_final_row() {
    let block = [9_u8; 128];
    let trace = Sha512Circuit::compress_block(&INITIAL_STATE, &block);
    let mut main = Sha512Circuit::build_plonky3_air_trace(&trace);
    assert!(Sha512Circuit::verify_plonky3_air_trace_with_instance(&main, &INITIAL_STATE, &block));
    // Row 80 holds the working state after the rounds; its first limb of `a` is bound.
    let cell = 80 * AIR_WIDTH + limb_col(0, 0);
    main.values[cell] = (main.values[cell] + 1) % BABY_BEAR_P;
    assert!(!Sha512Circuit::verify_plonky3_air_trace_with_instance(&main, &INITIAL_STATE, &block));
}

#[test]
fn accepted_trace_holds_the_compressed_state() {
    let block: [u8; 128] = core::array::from_fn(|i| (i * 29 + 3) as u8);
    let trace = Sha512Circuit::compress_block(&INITIAL_STATE, &block);
    let main = Sha512Circuit::build_plonky3_air_trace(&trace);
    assert!(Sha512Circuit::verify_plonky3_air_trace_with_instance(&main, &INITIAL_STATE, &block));
    let digest = reference_digest(&[]);
    let empty_block = {
        let mut b = [0_u8; 128];
        b[0] = 0x80;
        b
    };
    for i in 0..8 {
        let mut word = 0_u64;
        for k in 0..4 {
            word |= (main.values[80 * AIR_WIDTH + limb_col(i, k)] as u64) << (16 * k);
        }
        assert_eq!(word, trace.round_states[80][i]);
        assert_eq!(word.wrapping_add(INITIAL_STATE[i]), trace.output_state[i]);
    }
    // The same holds for the one-block padded empty message, against the reference digest.
    let trace = Sha512Circuit::compress_block(&INITIAL_STATE, &empty_block);
    let main = Sha512Circuit::build_plonky3_air_trace(&trace);
    assert!(Sha512Circuit::verify_plonky3_air_trace_with_instance(&main, &INITIAL_STATE, &empty_block));
    for i in 0..8 {
        let mut word = 0_u64;
        for k in 0..4 {
            word |= (main.values[80 * AIR_WIDTH + limb_col(i, k)] as u64) << (16 * k);
        }
        let expected = u64::from_be_bytes(digest[8 * i..8 * i + 8].try_into().unwrap());
        assert_eq!(word.wrapping_add(INITIAL_STATE[i]), expected);
    }
}

#[test]
fn proof_envelope_checks() {
    assert!(validate_single_proof_size(MAX_SINGLE_PROOF_BYTES).is_ok());
    assert_eq!(
        validate_single_proof_size(MAX_SINGLE_PROOF_BYTES + 1).unwrap_err(),
        "serialized single-block proof exceeds configured size limit"
    );
    assert!(validate_multi_proof_size(MAX_MULTI_PROOF_BYTES).is_ok());
    assert_eq!(
        validate_multi_proof_size(MAX_MULTI_PROOF_BYTES + 1).unwrap_err(),
        "serialized multi-block proof exceeds configured size limit"
    );
    assert_eq!(
        validate_inner_proof_size(MAX_INNER_PROOF_BYTES + 1, true).unwrap_err(),
        "inner multi-block proof exceeds configured size limit"
    );
    assert_eq!(
        validate_inner_proof_size(MAX_INNER_PROOF_BYTES + 1, false).unwrap_err(),
        "inner single-block proof exceeds configured size limit"
    );
    assert!(validate_seed_bundle_size(MAX_SEED_PRIVATE_BUNDLE_BYTES + 1).is_err());
    assert!(digest_from_bytes(&[1_u8; 63]).is_none());
    assert_eq!(digest_from_bytes(&[7_u8; 64]), Some([7_u8; 64]));

    let message = sample_message(130);
    let bundle = Sha512Circuit::build_message_air_bundle(&INITIAL_STATE, &message);
    let digest = reference_digest(&message);
    assert!(message_claims_match(&bundle.final_state, &bundle.final_state, &digest));
    let mut wrong_digest = digest;
    wrong_digest[63] ^= 1;
    assert!(!message_claims_match(&bundle.final_state, &bundle.final_state, &wrong_digest));
    let mut wrong_state = bundle.final_state;
    wrong_state[0] ^= 1;
    assert!(!message_claims_match(&bundle.final_state, &wrong_state, &digest));
}
