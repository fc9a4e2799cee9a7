# sha512_circuit

SHA-512 with a STARK-friendly execution trace, verified with Verus.

The library computes SHA-512 digests, produces the execution witness of a block
compression, lays that witness out as a 128-row AIR trace over the BabyBear field
(p = 2^31 - 2^27 + 1), checks the AIR constraints on concrete traces, and encodes the
public statements of block and message proofs.

## Layout

- `src/spec.rs` — the mathematical specification of SHA-512: message schedule, rounds,
  compression, padding, chaining and the big-endian encodings.
- `src/ops.rs`, `src/constants.rs` — the round functions and constants.
- `src/sha512.rs`, `src/trace.rs` — hashing, block compression with its witness, and the
  consistency check of a witness.
- `src/field.rs` — BabyBear arithmetic.
- `src/air/columns.rs` — the column layout of a trace row.
- `src/air/constraints.rs` — the AIR constraints as field equations, and a function that
  evaluates them on concrete rows.
- `src/air.rs` — the main and preprocessed traces of a block and of a message.
- `src/air/completeness.rs` — the proof that honest traces satisfy every constraint.
- `src/air/soundness.rs` — the proof that every accepted trace carries the compression.
- `src/proof_api*` — settings and verifier policy, statement encodings, seed bundles.
- `app/` — the Plonky3 side: STARK configuration, the AIR as a Plonky3 `Air`, proving,
  verifying and the binary encodings of proofs.

## Trace layout

Each 128-byte block is one 128-row trace of 1076 columns. Rows 0..80 hold the initial
state and the 80 rounds; the remaining rows are padding.

| columns     | contents                                                                 |
|-------------|--------------------------------------------------------------------------|
| 0..64       | 16-bit limbs of a..h, W, K, Σ0, Σ1, Ch, Maj, T1, T2 (four per word)       |
| 64..80      | limb carries of T1, T2, the new a and the new e                          |
| 80..144     | limbs of the sixteen schedule lags W[t-16..t-1]                          |
| 144..148    | carries of the schedule sum                                              |
| 148..532    | bit decompositions of a, b, c, e, f, g                                   |
| 532..660    | bits of the lag words that feed σ0 and σ1                                |
| 660..1044   | 16-bit range decompositions of the limbs of d, h, W, K, T1, T2           |
| 1044..1076  | bit decompositions of the carries                                        |

The preprocessed trace of an instance has the same width. Row 0 carries the limbs of the
initial state in columns 0..32; rows 0..80 carry the limbs of W and K in columns 32..40;
the last five columns hold the row selectors: block start (1071), transition (1072),
round (1073), initial schedule words (1074) and final row (1075).

The public values of a block are the eight words of the final state a..h, each reduced into
the field; on the row that the final selector marks, each word recombined from its four limbs
must equal its public value.

## Main results

- `Sha512Circuit::hash` returns the specified SHA-512 digest of its input.
- `Sha512Circuit::compress_block` returns the compression trace of a block, and
  `Sha512Circuit::verify_block_trace` accepts exactly the internally consistent traces.
- `lemma_honest_trace_accepted`: the main trace built for a compression satisfies the AIR
  against the preprocessed trace of its instance; `lemma_message_segment_accepted` and
  `lemma_message_trace_accepted` extend this to every block segment of a message trace,
  against the message's own preprocessed trace and the public values of its last block.
- `lemma_accepted_trace_is_the_compression`: any main trace that the AIR accepts against the
  preprocessed trace of an instance holds, on its final round row, the working state after
  the eighty rounds of that instance's compression. `verify_plonky3_air_trace_with_instance`
  states the same of every trace it accepts. `lemma_accepted_message_segment_is_the_compression`
  says the same of each segment of a message trace, for the block that segment proves.
- The statement encodings decode back to what was encoded, and the decoders reject exactly
  the malformed inputs.

## What is and is not proved

- Completeness: every honest trace satisfies every constraint of `row_ok`.
- Soundness: every trace that satisfies them carries the compression. The proof rests on p
  being prime (shown by trial division up to 2^16), so that a cell with x (x - 1) = 0 is a
  bit; from there every limb is below 2^16, every carry is small, and each field equation of
  an addition is an integer equation.
- `app/air.rs` writes the same constraints a second time as a Plonky3 `Air` over symbolic
  expressions. Nothing mechanically ties that text to the verified `row_ok`; the two are
  kept in step by hand, and the tests exercise the verified `check_row`.
