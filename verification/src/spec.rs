//! The mathematical definition of SHA-512 (FIPS 180-4) that the executable code is proved
//! against.
use vstd::prelude::*;

use crate::constants::{INITIAL_STATE, K};
use crate::ops::{spec_big_sigma0, spec_big_sigma1, spec_ch, spec_maj, spec_small_sigma0, spec_small_sigma1};

verus! {

/// The `i`-th big-endian 64-bit word of a byte sequence (bytes `8i .. 8i + 8`).
pub open spec fn be_word(b: Seq<u8>, i: int) -> u64 {
    ((b[8 * i] as u64) << 56u64) | ((b[8 * i + 1] as u64) << 48u64) | ((b[8 * i + 2] as u64)
        << 40u64) | ((b[8 * i + 3] as u64) << 32u64) | ((b[8 * i + 4] as u64) << 24u64) | ((b[8
        * i + 5] as u64) << 16u64) | ((b[8 * i + 6] as u64) << 8u64) | (b[8 * i + 7] as u64)
}

/// The sixteen message words M[0..15] of a 128-byte block.
pub open spec fn block_words(block: Seq<u8>) -> Seq<u64> {
    Seq::new(16, |i: int| be_word(block, i))
}

/// One step of the message schedule: W[t] from W[t-2], W[t-7], W[t-15], W[t-16].
pub open spec fn schedule_step(w2: u64, w7: u64, w15: u64, w16: u64) -> u64 {
    spec_small_sigma1(w2).wrapping_add(w7).wrapping_add(spec_small_sigma0(w15)).wrapping_add(w16)
}

/// The message schedule word W[i] that extends the sixteen message words `m`.
pub open spec fn schedule_word(m: Seq<u64>, i: nat) -> u64
    decreases i,
{
    if i < 16 {
        m[i as int]
    } else {
        schedule_step(
            schedule_word(m, (i - 2) as nat),
            schedule_word(m, (i - 7) as nat),
            schedule_word(m, (i - 15) as nat),
            schedule_word(m, (i - 16) as nat),
        )
    }
}

/// T1 of a round on working state `s` with round constant `k` and schedule word `w`.
pub open spec fn round_t1(s: Seq<u64>, k: u64, w: u64) -> u64 {
    s[7].wrapping_add(spec_big_sigma1(s[4])).wrapping_add(spec_ch(s[4], s[5], s[6])).wrapping_add(
        k,
    ).wrapping_add(w)
}

/// T2 of a round on working state `s`.
pub open spec fn round_t2(s: Seq<u64>) -> u64 {
    spec_big_sigma0(s[0]).wrapping_add(spec_maj(s[0], s[1], s[2]))
}

/// The working state `(a, ..., h)` after one compression round.
pub open spec fn round_step(s: Seq<u64>, k: u64, w: u64) -> Seq<u64> {
    let t1 = round_t1(s, k, w);
    let t2 = round_t2(s);
    seq![t1.wrapping_add(t2), s[0], s[1], s[2], s[3].wrapping_add(t1), s[4], s[5], s[6]]
}

/// The working state after the first `i` rounds, starting from `init`, with message words `m`.
pub open spec fn round_state(init: Seq<u64>, m: Seq<u64>, i: nat) -> Seq<u64>
    decreases i,
{
    if i == 0 {
        init
    } else {
        round_step(
            round_state(init, m, (i - 1) as nat),
            K[i - 1],
            schedule_word(m, (i - 1) as nat),
        )
    }
}

/// Component-wise addition modulo 2^64 of two eight-word states.
pub open spec fn feed_forward(a: Seq<u64>, b: Seq<u64>) -> Seq<u64> {
    Seq::new(8, |j: int| a[j].wrapping_add(b[j]))
}

/// The SHA-512 compression function: chaining state after processing one block.
pub open spec fn compress(state: Seq<u64>, block: Seq<u8>) -> Seq<u64> {
    feed_forward(state, round_state(state, block_words(block), 80))
}

/// Number of zero bytes that padding inserts after the `0x80` byte.
pub open spec fn pad_zero_count(len: nat) -> nat {
    ((128 - ((len + 17) % 128)) % 128) as nat
}

/// The sixteen big-endian bytes of a 128-bit integer.
pub open spec fn be_u128_bytes(x: u128) -> Seq<u8> {
    Seq::new(16, |j: int| (x >> ((120 - 8 * j) as u128)) as u8)
}

/// The padded message of FIPS 180-4, section 5.1.2: the message, the byte `0x80`, zero bytes
/// up to 16 bytes short of a multiple of 128, and the bit length as a 128-bit big-endian integer.
pub open spec fn padded(m: Seq<u8>) -> Seq<u8> {
    m + seq![0x80u8] + Seq::new(pad_zero_count(m.len()), |i: int| 0u8) + be_u128_bytes(
        (m.len() * 8) as u128,
    )
}

/// The `i`-th 128-byte block of a byte sequence.
pub open spec fn block_at(p: Seq<u8>, i: int) -> Seq<u8> {
    p.subrange(128 * i, 128 * i + 128)
}

/// Chaining state after compressing the first `n` blocks of `p`, starting from `state`.
pub open spec fn chain(state: Seq<u64>, p: Seq<u8>, n: nat) -> Seq<u64>
    decreases n,
{
    if n == 0 {
        state
    } else {
        compress(chain(state, p, (n - 1) as nat), block_at(p, n - 1))
    }
}

/// The big-endian serialization of an eight-word state (64 bytes).
pub open spec fn state_bytes(s: Seq<u64>) -> Seq<u8> {
    Seq::new(64, |j: int| (s[j / 8] >> ((56 - 8 * (j % 8)) as u64)) as u8)
}

/// The SHA-512 digest of a message.
pub open spec fn sha512(m: Seq<u8>) -> Seq<u8> {
    let p = padded(m);
    state_bytes(chain(INITIAL_STATE@, p, p.len() / 128))
}

} // verus!

verus! {

/// The eight big-endian bytes of a 64-bit word.
pub open spec fn be_u64_bytes(x: u64) -> Seq<u8> {
    Seq::new(8, |j: int| (x >> ((56 - 8 * j) as u64)) as u8)
}

proof fn lemma_word_bytes_roundtrip(w: u64)
    ensures
        ((((w >> 56u64) as u8) as u64) << 56u64) | ((((w >> 48u64) as u8) as u64) << 48u64) | ((((w
            >> 40u64) as u8) as u64) << 40u64) | ((((w >> 32u64) as u8) as u64) << 32u64) | ((((w
            >> 24u64) as u8) as u64) << 24u64) | ((((w >> 16u64) as u8) as u64) << 16u64) | ((((w
            >> 8u64) as u8) as u64) << 8u64) | (((w >> 0u64) as u8) as u64) == w,
{
    assert(((((w >> 56u64) as u8) as u64) << 56u64) | ((((w >> 48u64) as u8) as u64) << 48u64) | ((((w
        >> 40u64) as u8) as u64) << 40u64) | ((((w >> 32u64) as u8) as u64) << 32u64) | ((((w
        >> 24u64) as u8) as u64) << 24u64) | ((((w >> 16u64) as u8) as u64) << 16u64) | ((((w
        >> 8u64) as u8) as u64) << 8u64) | (((w >> 0u64) as u8) as u64) == w) by (bit_vector);
}

/// Reading back the words of a serialized state gives the state.
pub proof fn lemma_be_word_of_state_bytes(s: Seq<u64>, i: int)
    requires
        s.len() == 8,
        0 <= i < 8,
    ensures
        be_word(state_bytes(s), i) == s[i],
{
    let b = state_bytes(s);
    let w = s[i];
    assert(b[8 * i] == (w >> 56u64) as u8);
    assert(b[8 * i + 1] == (w >> 48u64) as u8);
    assert(b[8 * i + 2] == (w >> 40u64) as u8);
    assert(b[8 * i + 3] == (w >> 32u64) as u8);
    assert(b[8 * i + 4] == (w >> 24u64) as u8);
    assert(b[8 * i + 5] == (w >> 16u64) as u8);
    assert(b[8 * i + 6] == (w >> 8u64) as u8);
    assert(b[8 * i + 7] == (w >> 0u64) as u8);
    lemma_word_bytes_roundtrip(w);
}

proof fn lemma_bytes_word_roundtrip(b0: u8, b1: u8, b2: u8, b3: u8, b4: u8, b5: u8, b6: u8, b7: u8)
    ensures
        ({
            let w = ((b0 as u64) << 56u64) | ((b1 as u64) << 48u64) | ((b2 as u64) << 40u64) | ((b3
                as u64) << 32u64) | ((b4 as u64) << 24u64) | ((b5 as u64) << 16u64) | ((b6 as u64)
                << 8u64) | (b7 as u64);
            &&& (w >> 56u64) as u8 == b0
            &&& (w >> 48u64) as u8 == b1
            &&& (w >> 40u64) as u8 == b2
            &&& (w >> 32u64) as u8 == b3
            &&& (w >> 24u64) as u8 == b4
            &&& (w >> 16u64) as u8 == b5
            &&& (w >> 8u64) as u8 == b6
            &&& (w >> 0u64) as u8 == b7
        }),
{
    let w = ((b0 as u64) << 56u64) | ((b1 as u64) << 48u64) | ((b2 as u64) << 40u64) | ((b3 as u64)
        << 32u64) | ((b4 as u64) << 24u64) | ((b5 as u64) << 16u64) | ((b6 as u64) << 8u64) | (b7
        as u64);
    assert((w >> 56u64) as u8 == b0 && (w >> 48u64) as u8 == b1 && (w >> 40u64) as u8 == b2 && (w
        >> 32u64) as u8 == b3 && (w >> 24u64) as u8 == b4 && (w >> 16u64) as u8 == b5 && (w
        >> 8u64) as u8 == b6 && (w >> 0u64) as u8 == b7) by (bit_vector)
        requires
            w == ((b0 as u64) << 56u64) | ((b1 as u64) << 48u64) | ((b2 as u64) << 40u64) | ((b3
                as u64) << 32u64) | ((b4 as u64) << 24u64) | ((b5 as u64) << 16u64) | ((b6 as u64)
                << 8u64) | (b7 as u64),
    ;
}

/// Serializing the words read from 64 bytes gives those bytes back.
pub proof fn lemma_state_bytes_of_be_words(b: Seq<u8>)
    requires
        b.len() >= 64,
    ensures
        state_bytes(Seq::new(8, |i: int| be_word(b, i))) == b.take(64),
{
    let s = Seq::new(8, |i: int| be_word(b, i));
    assert forall|j: int| 0 <= j < 64 implies #[trigger] state_bytes(s)[j] == b[j] by {
        let i = j / 8;
        let k = j % 8;
        lemma_bytes_word_roundtrip(b[8 * i], b[8 * i + 1], b[8 * i + 2], b[8 * i + 3], b[8 * i + 4], b[8 * i + 5], b[8 * i + 6], b[8 * i + 7]);
        assert(j == 8 * i + k);
        if k == 0 {} else if k == 1 {} else if k == 2 {} else if k == 3 {} else if k == 4 {} else if k == 5 {} else if k == 6 {} else {}
    }
    assert(state_bytes(s) =~= b.take(64));
}

/// Reading back the word of serialized bytes gives the word.
pub proof fn lemma_be_word_of_u64_bytes(x: u64)
    ensures
        be_word(be_u64_bytes(x), 0) == x,
{
    let b = be_u64_bytes(x);
    assert(b[0] == (x >> 56u64) as u8);
    assert(b[1] == (x >> 48u64) as u8);
    assert(b[2] == (x >> 40u64) as u8);
    assert(b[3] == (x >> 32u64) as u8);
    assert(b[4] == (x >> 24u64) as u8);
    assert(b[5] == (x >> 16u64) as u8);
    assert(b[6] == (x >> 8u64) as u8);
    assert(b[7] == (x >> 0u64) as u8);
    lemma_word_bytes_roundtrip(x);
}

/// Serializing the word read from 8 bytes gives those bytes back.
pub proof fn lemma_u64_bytes_of_be_word(b: Seq<u8>, i: int)
    requires
        0 <= i,
        8 * i + 8 <= b.len(),
    ensures
        be_u64_bytes(be_word(b, i)) == b.subrange(8 * i, 8 * i + 8),
{
    lemma_bytes_word_roundtrip(b[8 * i], b[8 * i + 1], b[8 * i + 2], b[8 * i + 3], b[8 * i + 4], b[8 * i + 5], b[8 * i + 6], b[8 * i + 7]);
    assert(be_u64_bytes(be_word(b, i)) =~= b.subrange(8 * i, 8 * i + 8));
}

} // verus!
