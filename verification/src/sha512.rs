//! Reference SHA-512: padding, block compression with its full witness, trace checking and
//! hashing.
use vstd::prelude::*;

use crate::constants::{INITIAL_STATE, K};
use crate::ops::{big_sigma0, big_sigma1, ch, maj, small_sigma0, small_sigma1};
use crate::spec::{
    be_u128_bytes, be_word, block_at, block_words, chain, compress, feed_forward, pad_zero_count,
    padded, round_state, round_step, round_t1, round_t2, schedule_step, schedule_word, sha512,
    state_bytes,
};
use crate::trace::BlockTrace;

verus! {

/// Entry point of the SHA-512 computations of this crate.
pub struct Sha512Circuit;

/// Reads the `i`-th big-endian word of a 128-byte block.
fn block_word(block: &[u8; 128], i: usize) -> (w: u64)
    requires
        i < 16,
    ensures
        w == be_word(block@, i as int),
{
    let j = 8 * i;
    ((block[j] as u64) << 56u64) | ((block[j + 1] as u64) << 48u64) | ((block[j + 2] as u64)
        << 40u64) | ((block[j + 3] as u64) << 32u64) | ((block[j + 4] as u64) << 24u64) | ((block[j
        + 5] as u64) << 16u64) | ((block[j + 6] as u64) << 8u64) | (block[j + 7] as u64)
}

/// The trace is the compression trace of `state` with message words `m`: its schedule is the
/// expansion of `m`, its round states are the working states of the rounds started from
/// `state`, and its output is the feed-forward of `state` and the last working state.
pub open spec fn is_compression_trace(t: BlockTrace, state: Seq<u64>, m: Seq<u64>) -> bool {
    &&& t.input_state@ == state
    &&& forall|i: int| 0 <= i < 80 ==> #[trigger] t.words[i] == schedule_word(m, i as nat)
    &&& forall|i: int|
        0 <= i <= 80 ==> (#[trigger] t.round_states[i])@ == round_state(state, m, i as nat)
    &&& t.output_state@ == feed_forward(state, round_state(state, m, 80))
}

/// A block trace is internally consistent exactly when it is the compression trace of its own
/// input state and of its first sixteen schedule words.
pub proof fn lemma_consistent_iff_compression_trace(t: BlockTrace)
    ensures
        t.is_consistent() <==> is_compression_trace(t, t.input_state@, t.words@.take(16)),
{
    let m = t.words@.take(16);
    if t.is_consistent() {
        assert forall|i: int| 0 <= i < 80 implies #[trigger] t.words[i] == schedule_word(
            m,
            i as nat,
        ) by {
            lemma_schedule_matches(t, i);
        }
        assert forall|i: int| 0 <= i <= 80 implies (#[trigger] t.round_states[i])@
            == round_state(t.input_state@, m, i as nat) by {
            lemma_rounds_match(t, i);
        }
    }
    if is_compression_trace(t, t.input_state@, m) {
        assert forall|i: int| 16 <= i < 80 implies #[trigger] t.words[i] == schedule_step(
            t.words[i - 2],
            t.words[i - 7],
            t.words[i - 15],
            t.words[i - 16],
        ) by {
            assert(t.words[i] == schedule_word(m, i as nat));
            assert(t.words[i - 2] == schedule_word(m, (i - 2) as nat));
            assert(t.words[i - 7] == schedule_word(m, (i - 7) as nat));
            assert(t.words[i - 15] == schedule_word(m, (i - 15) as nat));
            assert(t.words[i - 16] == schedule_word(m, (i - 16) as nat));
        }
        assert(t.round_states[0]@ == t.input_state@);
        assert forall|i: int| 0 <= i < 80 implies (#[trigger] t.round_states[i + 1])@
            == round_step(t.round_states[i]@, K[i], t.words[i]) by {
            assert(t.round_states[i]@ == round_state(t.input_state@, m, i as nat));
            assert(t.round_states[i + 1]@ == round_state(t.input_state@, m, (i + 1) as nat));
            assert(t.words[i] == schedule_word(m, i as nat));
        }
        assert(t.round_states[80]@ == round_state(t.input_state@, m, 80));
    }
}

/// Changing one schedule word of a consistent trace, and nothing else, makes it inconsistent:
/// `verify_block_trace` rejects every such tampered trace.
pub proof fn lemma_word_tamper_detected(t: BlockTrace, u: BlockTrace, i: int)
    requires
        t.is_consistent(),
        0 <= i < 80,
        u.input_state == t.input_state,
        u.round_states == t.round_states,
        u.output_state == t.output_state,
        u.words[i] != t.words[i],
        forall|j: int| 0 <= j < 80 && j != i ==> #[trigger] u.words[j] == t.words[j],
    ensures
        !u.is_consistent(),
{
    if u.is_consistent() {
        let s = t.round_states[i]@;
        assert(u.round_states[i] == t.round_states[i]);
        assert(u.round_states[i + 1] == t.round_states[i + 1]);
        let next = t.round_states[i + 1]@;
        assert(next == round_step(s, K[i], t.words[i]));
        assert(next == round_step(s, K[i], u.words[i]));
        let t1 = round_t1(s, K[i], t.words[i]);
        let u1 = round_t1(s, K[i], u.words[i]);
        assert(round_step(s, K[i], t.words[i])[4] == s[3].wrapping_add(t1));
        assert(round_step(s, K[i], u.words[i])[4] == s[3].wrapping_add(u1));
        assert(t1 == u1);
        assert(false);
    }
}

/// Changing one working state of a consistent trace, and nothing else, makes it inconsistent.
pub proof fn lemma_round_state_tamper_detected(t: BlockTrace, u: BlockTrace, i: int)
    requires
        t.is_consistent(),
        0 <= i <= 80,
        u.input_state == t.input_state,
        u.words == t.words,
        u.output_state == t.output_state,
        u.round_states[i]@ != t.round_states[i]@,
        forall|j: int| 0 <= j <= 80 && j != i ==> #[trigger] u.round_states[j] == t.round_states[j],
    ensures
        !u.is_consistent(),
{
    if u.is_consistent() {
        if i == 0 {
            assert(u.round_states[0]@ == u.input_state@);
        } else {
            assert(u.round_states[i - 1] == t.round_states[i - 1]);
            assert(u.round_states[(i - 1) + 1]@ == round_step(u.round_states[i - 1]@, K[i - 1], u.words[i - 1]));
            assert(t.round_states[(i - 1) + 1]@ == round_step(t.round_states[i - 1]@, K[i - 1], t.words[i - 1]));
        }
    }
}

proof fn lemma_schedule_matches(t: BlockTrace, i: int)
    requires
        t.is_consistent(),
        0 <= i < 80,
    ensures
        t.words[i] == schedule_word(t.words@.take(16), i as nat),
    decreases i,
{
    if i >= 16 {
        lemma_schedule_matches(t, i - 2);
        lemma_schedule_matches(t, i - 7);
        lemma_schedule_matches(t, i - 15);
        lemma_schedule_matches(t, i - 16);
    }
}

proof fn lemma_rounds_match(t: BlockTrace, i: int)
    requires
        t.is_consistent(),
        0 <= i <= 80,
    ensures
        t.round_states[i]@ == round_state(t.input_state@, t.words@.take(16), i as nat),
    decreases i,
{
    if i > 0 {
        lemma_rounds_match(t, i - 1);
        lemma_schedule_matches(t, i - 1);
        assert(t.round_states[(i - 1) + 1]@ == round_step(
            t.round_states[i - 1]@,
            K[i - 1],
            t.words[i - 1],
        ));
    }
}

impl Sha512Circuit {
    /// Compresses one block and records the whole execution witness.
    pub fn compress_block(state: &[u64; 8], block: &[u8; 128]) -> (trace: BlockTrace)
        ensures
            trace.input_state == *state,
            is_compression_trace(trace, state@, block_words(block@)),
            trace.output_state@ == compress(state@, block@),
            trace.is_consistent(),
    {
        let ghost m = block_words(block@);
        let mut words = [0u64; 80];
        for i in 0..16
            invariant
                m == block_words(block@),
                forall|j: int| 0 <= j < i ==> #[trigger] words[j] == schedule_word(m, j as nat),
        {
            words[i] = block_word(block, i);
        }
        for i in 16..80
            invariant
                forall|j: int| 0 <= j < i ==> #[trigger] words[j] == schedule_word(m, j as nat),
        {
            assert(words[i - 2] == schedule_word(m, (i - 2) as nat));
            assert(words[i - 7] == schedule_word(m, (i - 7) as nat));
            assert(words[i - 15] == schedule_word(m, (i - 15) as nat));
            assert(words[i - 16] == schedule_word(m, (i - 16) as nat));
            words[i] = small_sigma1(words[i - 2]).wrapping_add(words[i - 7]).wrapping_add(
                small_sigma0(words[i - 15]),
            ).wrapping_add(words[i - 16]);
        }

        let mut round_states = [[0u64; 8]; 81];
        round_states[0] = *state;

        let mut a = state[0];
        let mut b = state[1];
        let mut c = state[2];
        let mut d = state[3];
        let mut e = state[4];
        let mut f = state[5];
        let mut g = state[6];
        let mut h = state[7];
        assert(seq![a, b, c, d, e, f, g, h] =~= state@);

        for i in 0..80
            invariant
                forall|j: int| 0 <= j < 80 ==> #[trigger] words[j] == schedule_word(m, j as nat),
                seq![a, b, c, d, e, f, g, h] == round_state(state@, m, i as nat),
                round_states[0] == *state,
                forall|j: int|
                    0 <= j <= i ==> (#[trigger] round_states[j])@ == round_state(state@, m, j as nat),
        {
            let ghost s = seq![a, b, c, d, e, f, g, h];
            let t1 = h.wrapping_add(big_sigma1(e)).wrapping_add(ch(e, f, g)).wrapping_add(
                K[i],
            ).wrapping_add(words[i]);
            let t2 = big_sigma0(a).wrapping_add(maj(a, b, c));
            assert(t1 == round_t1(s, K[i as int], words[i as int]));
            assert(t2 == round_t2(s));

            h = g;
            g = f;
            f = e;
            e = d.wrapping_add(t1);
            d = c;
            c = b;
            b = a;
            a = t1.wrapping_add(t2);

            round_states[i + 1] = [a, b, c, d, e, f, g, h];
            assert(seq![a, b, c, d, e, f, g, h] =~= round_step(s, K[i as int], words[i as int]));
            assert(round_states[i + 1]@ =~= seq![a, b, c, d, e, f, g, h]);
        }

        let output_state = [
            state[0].wrapping_add(a),
            state[1].wrapping_add(b),
            state[2].wrapping_add(c),
            state[3].wrapping_add(d),
            state[4].wrapping_add(e),
            state[5].wrapping_add(f),
            state[6].wrapping_add(g),
            state[7].wrapping_add(h),
        ];
        let trace = BlockTrace { input_state: *state, words, round_states, output_state };
        assert(trace.output_state@ =~= compress(state@, block@));
        assert forall|i: int| 16 <= i < 80 implies #[trigger] trace.words[i] == schedule_step(
            trace.words[i - 2],
            trace.words[i - 7],
            trace.words[i - 15],
            trace.words[i - 16],
        ) by {
            assert(trace.words[i - 2] == schedule_word(m, (i - 2) as nat));
            assert(trace.words[i - 7] == schedule_word(m, (i - 7) as nat));
            assert(trace.words[i - 15] == schedule_word(m, (i - 15) as nat));
            assert(trace.words[i - 16] == schedule_word(m, (i - 16) as nat));
        }
        assert forall|i: int| 0 <= i < 80 implies (#[trigger] trace.round_states[i + 1])@
            == round_step(trace.round_states[i]@, K[i], trace.words[i]) by {
            assert(trace.round_states[i]@ == round_state(state@, m, i as nat));
            assert(trace.round_states[i + 1]@ == round_state(state@, m, (i + 1) as nat));
        }
        trace
    }

    /// Checks a block trace algebraically: the schedule recurrence, the starting state, every
    /// round transition and the feed-forward output.
    pub fn verify_block_trace(trace: &BlockTrace) -> (ok: bool)
        ensures
            ok == trace.is_consistent(),
    {
        for i in 16..80
            invariant
                forall|j: int|
                    16 <= j < i ==> #[trigger] trace.words[j] == schedule_step(
                        trace.words[j - 2],
                        trace.words[j - 7],
                        trace.words[j - 15],
                        trace.words[j - 16],
                    ),
        {
            let expected = small_sigma1(trace.words[i - 2]).wrapping_add(
                trace.words[i - 7],
            ).wrapping_add(small_sigma0(trace.words[i - 15])).wrapping_add(trace.words[i - 16]);
            if trace.words[i] != expected {
                return false;
            }
        }

        if !same_state(&trace.round_states[0], &trace.input_state) {
            return false;
        }

        for i in 0..80
            invariant
                forall|j: int|
                    0 <= j < i ==> (#[trigger] trace.round_states[j + 1])@ == round_step(
                        trace.round_states[j]@,
                        K[j],
                        trace.words[j],
                    ),
        {
            let s = trace.round_states[i];
            let next = trace.round_states[i + 1];
            let ghost gs = s@;
            let t1 = s[7].wrapping_add(big_sigma1(s[4])).wrapping_add(ch(s[4], s[5], s[6])).wrapping_add(
                K[i],
            ).wrapping_add(trace.words[i]);
            let t2 = big_sigma0(s[0]).wrapping_add(maj(s[0], s[1], s[2]));
            assert(t1 == round_t1(gs, K[i as int], trace.words[i as int]));
            assert(t2 == round_t2(gs));
            let expected_next = [
                t1.wrapping_add(t2),
                s[0],
                s[1],
                s[2],
                s[3].wrapping_add(t1),
                s[4],
                s[5],
                s[6],
            ];
            assert(expected_next@ =~= round_step(gs, K[i as int], trace.words[i as int]));
            if !same_state(&next, &expected_next) {
                return false;
            }
        }

        let last = trace.round_states[80];
        let expected_output = [
            trace.input_state[0].wrapping_add(last[0]),
            trace.input_state[1].wrapping_add(last[1]),
            trace.input_state[2].wrapping_add(last[2]),
            trace.input_state[3].wrapping_add(last[3]),
            trace.input_state[4].wrapping_add(last[4]),
            trace.input_state[5].wrapping_add(last[5]),
            trace.input_state[6].wrapping_add(last[6]),
            trace.input_state[7].wrapping_add(last[7]),
        ];
        assert(expected_output@ =~= feed_forward(trace.input_state@, last@));
        same_state(&trace.output_state, &expected_output)
    }

    /// Serializes a chaining state as the 64-byte big-endian digest.
    pub fn state_to_digest(state: &[u64; 8]) -> (out: [u8; 64])
        ensures
            out@ == state_bytes(state@),
    {
        let mut out = [0u8; 64];
        for k in 0..64
            invariant
                forall|j: int|
                    0 <= j < k ==> #[trigger] out[j] == (state[j / 8] >> ((56 - 8 * (j % 8)) as u64)) as u8,
        {
            out[k] = (state[k / 8] >> ((56 - 8 * (k % 8)) as u64)) as u8;
        }
        assert(out@ =~= state_bytes(state@));
        out
    }

    /// Splits the padded message into 128-byte blocks.
    pub fn padded_blocks(message: &[u8]) -> (blocks: Vec<[u8; 128]>)
        requires
            message@.len() + 256 <= usize::MAX,
        ensures
            blocks@.len() == padded(message@).len() / 128,
            forall|i: int| 0 <= i < blocks@.len() ==> (#[trigger] blocks@[i])@ == block_at(padded(message@), i),
    {
        let p = pad_message(message);
        proof {
            lemma_padded_len(message@);
        }
        let n = p.len() / 128;
        let mut blocks: Vec<[u8; 128]> = Vec::new();
        for i in 0..n
            invariant
                p@ == padded(message@),
                p@.len() == 128 * n,
                blocks@.len() == i,
                forall|j: int| 0 <= j < i ==> (#[trigger] blocks@[j])@ == block_at(p@, j),
        {
            let mut blk = [0u8; 128];
            for k in 0..128
                invariant
                    i < n,
                    p.len() == 128 * n,
                    forall|j: int| 0 <= j < k ==> #[trigger] blk[j] == p@[128 * i + j],
            {
                blk[k] = p[128 * i + k];
            }
            assert(blk@ =~= block_at(p@, i as int));
            blocks.push(blk);
        }
        blocks
    }

    /// The SHA-512 digest of `message`.
    pub fn hash(message: &[u8]) -> (digest: [u8; 64])
        requires
            message@.len() + 256 <= usize::MAX,
        ensures
            digest@ == sha512(message@),
    {
        let mut state = INITIAL_STATE;
        let blocks = Self::padded_blocks(message);
        let ghost p = padded(message@);
        for i in 0..blocks.len()
            invariant
                blocks@.len() == p.len() / 128,
                forall|j: int| 0 <= j < blocks@.len() ==> (#[trigger] blocks@[j])@ == block_at(p, j),
                state@ == chain(INITIAL_STATE@, p, i as nat),
        {
            let trace = Self::compress_block(&state, &blocks[i]);
            state = trace.output_state;
        }
        Self::state_to_digest(&state)
    }
}

/// Compares two eight-word states.
pub(crate) fn same_state(a: &[u64; 8], b: &[u64; 8]) -> (r: bool)
    ensures
        r == (a@ == b@),
{
    for i in 0..8
        invariant
            forall|j: int| 0 <= j < i ==> a[j] == b[j],
    {
        if a[i] != b[i] {
            return false;
        }
    }
    assert(a@ =~= b@);
    true
}

/// The padded message has the length of the message, 17 bytes and the zero bytes, and that
/// length is a multiple of 128.
pub proof fn lemma_padded_len(m: Seq<u8>)
    ensures
        padded(m).len() == m.len() + 17 + pad_zero_count(m.len()),
        padded(m).len() % 128 == 0,
{
    let n = m.len() as int;
    let r = (n + 17) % 128;
    let q = (n + 17) / 128;
    vstd::arithmetic::div_mod::lemma_fundamental_div_mod(n + 17, 128);
    let z = pad_zero_count(m.len()) as int;
    if r == 0 {
        assert(z == 0);
        assert(n + 17 + z == 128 * q);
    } else {
        assert(z == 128 - r);
        assert(n + 17 + z == 128 * (q + 1));
    }
    vstd::arithmetic::div_mod::lemma_mod_multiples_basic(if r == 0 { q } else { q + 1 }, 128);
}

/// The zero-byte count of padding is the one count up to it that brings the length to a
/// multiple of 128.
proof fn lemma_pad_zero_count(n: nat, k: int)
    requires
        0 <= k <= pad_zero_count(n),
    ensures
        pad_zero_count(n) < 128,
        ((n + 17 + k) % 128 == 0) <==> (k == pad_zero_count(n)),
{
    let x: int = n as int + 17;
    let r: int = x % 128;
    let q: int = x / 128;
    vstd::arithmetic::div_mod::lemma_fundamental_div_mod(x, 128);
    if r == 0 {
        assert(k == 0);
        vstd::arithmetic::div_mod::lemma_fundamental_div_mod_converse(x + k, 128, q, 0);
    } else if r + k < 128 {
        vstd::arithmetic::div_mod::lemma_fundamental_div_mod_converse(x + k, 128, q, r + k);
    } else {
        vstd::arithmetic::div_mod::lemma_fundamental_div_mod_converse(x + k, 128, q + 1, 0);
    }
}

/// Pads a message as FIPS 180-4, section 5.1.2 prescribes.
fn pad_message(message: &[u8]) -> (out: Vec<u8>)
    requires
        message@.len() + 256 <= usize::MAX,
    ensures
        out@ == padded(message@),
{
    let bit_len: u128 = (message.len() as u128) * 8;
    let mut out: Vec<u8> = Vec::new();
    for i in 0..message.len()
        invariant
            out@ == message@.take(i as int),
    {
        out.push(message[i]);
        assert(out@ =~= message@.take(i + 1));
    }
    assert(message@.take(message@.len() as int) =~= message@);
    out.push(0x80);
    let ghost z = pad_zero_count(message@.len());
    let mut k: usize = 0;
    while (out.len() + 16) % 128 != 0
        invariant
            message@.len() + 256 <= usize::MAX,
            z == pad_zero_count(message@.len()),
            k <= z,
            out@ == message@ + seq![0x80u8] + Seq::new(k as nat, |i: int| 0u8),
        decreases z - k,
    {
        proof {
            lemma_pad_zero_count(message@.len(), k as int);
        }
        out.push(0);
        k = k + 1;
        assert(out@ =~= message@ + seq![0x80u8] + Seq::new(k as nat, |i: int| 0u8));
    }
    proof {
        lemma_pad_zero_count(message@.len(), k as int);
    }
    assert(k == z);
    let ghost prefix = out@;
    for j in 0..16
        invariant
            out@ == prefix + be_u128_bytes(bit_len).take(j as int),
    {
        out.push((bit_len >> ((120 - 8 * j) as u128)) as u8);
        assert(out@ =~= prefix + be_u128_bytes(bit_len).take(j + 1));
    }
    assert(be_u128_bytes(bit_len).take(16) =~= be_u128_bytes(bit_len));
    out
}

} // verus!
