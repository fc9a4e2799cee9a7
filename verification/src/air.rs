//! The SHA-512 AIR trace over BabyBear: building the main and the preprocessed trace of a
//! block, and checking the AIR constraints on a given trace.
use vstd::prelude::*;
use vstd::slice::slice_subrange;

pub mod columns;
pub mod completeness;
pub mod constraints;
pub mod soundness;

use crate::air::columns::{
    spec_bit_group_word, spec_ranged_word, AIR_WIDTH, PREP_BLOCK_START_SELECTOR_COL,
    PREP_FINAL_SELECTOR_COL, PREP_INIT_W_SELECTOR_COL, PREP_ROUND_SELECTOR_COL,
    PREP_TRANSITION_SELECTOR_COL, TRACE_ROWS, WORD_K, WORD_W,
};
use crate::air::columns::{limb_col, ranged_word, spec_lag_limb_col, spec_limb_col, LAG_COUNT, WORD_COUNT};
use crate::air::constraints::{check_row, cv, limbs_packed, row_ok};
use crate::air::soundness::lemma_accepted_trace_is_the_compression;
use crate::constants::K;
use crate::field::{bb, f_canon, fval, BABY_BEAR_P};
use crate::ops::{
    big_sigma0, big_sigma1, ch, maj, small_sigma0, small_sigma1, spec_big_sigma0, spec_big_sigma1,
    spec_ch, spec_maj, spec_small_sigma0, spec_small_sigma1,
};
use crate::sha512::{is_compression_trace, lemma_padded_len};
use crate::spec::{
    block_at, block_words, chain, compress, padded, round_state, round_t1, round_t2, schedule_word,
};
use vstd::arithmetic::power2::pow2;
use crate::sha512::Sha512Circuit;
use crate::trace::BlockTrace;

verus! {

/// A row-major matrix of field values: `values[r * width + c]` is the cell of row `r` and
/// column `c`.
#[derive(Clone, Debug)]
pub struct TraceMatrix {
    pub values: Vec<u32>,
    pub width: usize,
}

impl TraceMatrix {
    /// Number of complete rows.
    pub open spec fn spec_height(&self) -> int {
        if self.width == 0 {
            0
        } else {
            self.values@.len() as int / (self.width as int)
        }
    }

    /// Number of complete rows.
    pub fn height(&self) -> (h: usize)
        ensures
            h as int == self.spec_height(),
    {
        if self.width == 0 {
            0
        } else {
            self.values.len() / self.width
        }
    }
}

/// Limb `k` (16 bits, least significant first) of a 64-bit word.
pub open spec fn limb16(x: u64, k: int) -> u64 {
    (x >> ((16 * k) as u64)) & 0xffff
}

/// Bit `i` of a 64-bit word.
pub open spec fn bit_of(x: u64, i: int) -> u64 {
    (x >> (i as u64)) & 1
}

/// The carry out of limb `k` when the words `ops` are added limb by limb.
pub open spec fn limb_carry(ops: Seq<u64>, k: nat) -> int
    decreases k,
{
    let carry_in = if k == 0 {
        0
    } else {
        limb_carry(ops, (k - 1) as nat)
    };
    (limb_sum(ops, k as int, ops.len()) + carry_in) / 0x10000
}

/// Sum of limb `k` of the first `n` words of `ops`.
pub open spec fn limb_sum(ops: Seq<u64>, k: int, n: nat) -> int
    decreases n,
{
    if n == 0 {
        0
    } else {
        limb_sum(ops, k, (n - 1) as nat) + limb16(ops[n - 1], k)
    }
}

/// The four limb carries of the limb-wise addition of `ops`.
pub open spec fn carries_of(ops: Seq<u64>) -> Seq<u16> {
    Seq::new(4, |k: int| limb_carry(ops, k as nat) as u16)
}

/// Cell `j` of the carry-bit section: three bits for each T1 carry, one for each T2, A and E
/// carry, two for each schedule carry.
pub open spec fn carry_bit_cell(carries: Seq<u16>, j: int) -> u32 {
    if j < 12 {
        bit_of(carries[j / 3] as u64, j % 3) as u32
    } else if j < 24 {
        bit_of(carries[4 + (j - 12)] as u64, 0) as u32
    } else {
        bit_of(carries[16 + (j - 24) / 2] as u64, (j - 24) % 2) as u32
    }
}

/// Cell `c` of a main-trace row with the given sixteen words, sixteen lag words and twenty
/// carries.
pub open spec fn row_cell(words: Seq<u64>, lags: Seq<u64>, carries: Seq<u16>, c: int) -> u32 {
    if c < 64 {
        limb16(words[c / 4], c % 4) as u32
    } else if c < 80 {
        carries[c - 64] as u32
    } else if c < 144 {
        limb16(lags[(c - 80) / 4], (c - 80) % 4) as u32
    } else if c < 148 {
        carries[16 + (c - 144)] as u32
    } else if c < 532 {
        bit_of(words[spec_bit_group_word((c - 148) / 64)], (c - 148) % 64) as u32
    } else if c < 660 {
        bit_of(lags[if c < 596 { 1int } else { 14int }], (c - 532) % 64) as u32
    } else if c < 1044 {
        let s = (c - 660) / 16;
        bit_of(limb16(words[spec_ranged_word(s / 4)], s % 4), (c - 660) % 16) as u32
    } else {
        carry_bit_cell(carries, c - 1044)
    }
}

/// The 81 working states of a block trace.
pub open spec fn rounds_of(t: BlockTrace) -> Seq<Seq<u64>> {
    Seq::new(81, |i: int| t.round_states[i]@)
}

/// The schedule word fed into the lag window at row `j`: W[j] on the round rows, zero after.
pub open spec fn fed_word(ws: Seq<u64>, j: int) -> u64 {
    if 0 <= j < 80 {
        ws[j]
    } else {
        0
    }
}

/// The lag words of row `r`: lag `l` is the word fed at row `r - 1 - l`.
pub open spec fn row_lags(ws: Seq<u64>, r: int) -> Seq<u64> {
    Seq::new(16, |l: int| fed_word(ws, r - 1 - l))
}

/// The degenerate round of the padding rows: a <- h, e <- d + h, the other registers shift.
pub open spec fn pad_step(s: Seq<u64>) -> Seq<u64> {
    seq![s[7], s[0], s[1], s[2], s[3].wrapping_add(s[7]), s[4], s[5], s[6]]
}

/// The working state of row `r >= 80`: the final working state, then degenerate rounds.
pub open spec fn pad_state(rs: Seq<Seq<u64>>, r: nat) -> Seq<u64>
    decreases r,
{
    if r <= 80 {
        rs[80]
    } else {
        pad_step(pad_state(rs, (r - 1) as nat))
    }
}

/// The sixteen words of row `r`.
pub open spec fn row_words(ws: Seq<u64>, rs: Seq<Seq<u64>>, r: int) -> Seq<u64> {
    if r < 80 {
        let s = rs[r];
        let w = ws[r];
        let k = K[r];
        seq![
            s[0],
            s[1],
            s[2],
            s[3],
            s[4],
            s[5],
            s[6],
            s[7],
            w,
            k,
            spec_big_sigma0(s[0]),
            spec_big_sigma1(s[4]),
            spec_ch(s[4], s[5], s[6]),
            spec_maj(s[0], s[1], s[2]),
            round_t1(s, k, w),
            round_t2(s)
        ]
    } else if r < 127 {
        let s = pad_state(rs, r as nat);
        s + seq![0u64, 0, 0, 0, 0, 0, s[7], 0]
    } else {
        pad_state(rs, r as nat) + Seq::new(8, |i: int| 0u64)
    }
}

/// The twenty carries of row `r`.
pub open spec fn row_carries(ws: Seq<u64>, rs: Seq<Seq<u64>>, r: int) -> Seq<u16> {
    if r < 80 {
        let s = rs[r];
        let w = ws[r];
        let k = K[r];
        let t1 = round_t1(s, k, w);
        let t2 = round_t2(s);
        let sched = if r >= 16 {
            carries_of(
                seq![
                    spec_small_sigma1(ws[r - 2]),
                    ws[r - 7],
                    spec_small_sigma0(ws[r - 15]),
                    ws[r - 16]
                ],
            )
        } else {
            Seq::new(4, |i: int| 0u16)
        };
        carries_of(seq![s[7], spec_big_sigma1(s[4]), spec_ch(s[4], s[5], s[6]), k, w])
            + carries_of(seq![spec_big_sigma0(s[0]), spec_maj(s[0], s[1], s[2])])
            + carries_of(seq![t1, t2]) + carries_of(seq![s[3], t1]) + sched
    } else if r < 127 {
        let s = pad_state(rs, r as nat);
        carries_of(seq![s[7], 0u64, 0, 0, 0]) + carries_of(seq![0u64, 0]) + carries_of(
            seq![s[7], 0u64],
        ) + carries_of(seq![s[3], s[7]]) + Seq::new(4, |i: int| 0u16)
    } else {
        Seq::new(20, |i: int| 0u16)
    }
}

/// Cell `(r, c)` of the main trace of a block trace.
pub open spec fn trace_cell(ws: Seq<u64>, rs: Seq<Seq<u64>>, r: int, c: int) -> u32 {
    row_cell(row_words(ws, rs, r), row_lags(ws, r), row_carries(ws, rs, r), c)
}

} // verus!

verus! {

pub(crate) proof fn lemma_limb_bound(x: u64, s: u64)
    ensures
        (x >> s) & 0xffff <= 0xffff,
{
    assert((x >> s) & 0xffff <= 0xffff) by (bit_vector);
}

proof fn lemma_bit_bound(x: u64, s: u64)
    ensures
        (x >> s) & 1 <= 1,
{
    assert((x >> s) & 1 <= 1) by (bit_vector);
}

/// The four 16-bit limbs of a word, least significant first.
fn u64_to_limbs(value: u64) -> (limbs: [u16; 4])
    ensures
        forall|k: int| 0 <= k < 4 ==> #[trigger] limbs[k] as u64 == limb16(value, k),
{
    proof {
        lemma_limb_bound(value, 0);
        lemma_limb_bound(value, 16);
        lemma_limb_bound(value, 32);
        lemma_limb_bound(value, 48);
    }
    [
        ((value >> 0u64) & 0xffff) as u16,
        ((value >> 16u64) & 0xffff) as u16,
        ((value >> 32u64) & 0xffff) as u16,
        ((value >> 48u64) & 0xffff) as u16,
    ]
}

/// The limb carries of adding up to five words limb by limb.
fn limb_carries(ops: &[u64]) -> (carries: [u16; 4])
    requires
        ops@.len() <= 5,
    ensures
        carries@ == carries_of(ops@),
{
    let mut carries = [0u16; 4];
    let mut carry: u32 = 0;
    for k in 0..4
        invariant
            ops@.len() <= 5,
            carry <= 5,
            k > 0 ==> carry as int == limb_carry(ops@, (k - 1) as nat),
            k == 0 ==> carry == 0,
            forall|j: int| 0 <= j < k ==> #[trigger] carries[j] as int == limb_carry(ops@, j as nat),
    {
        let mut sum: u32 = carry;
        for j in 0..ops.len()
            invariant
                ops@.len() <= 5,
                k < 4,
                carry <= 5,
                sum as int == carry + limb_sum(ops@, k as int, j as nat),
                sum <= carry + 0xffff * j,
        {
            let limbs = u64_to_limbs(ops[j]);
            sum = sum + limbs[k] as u32;
        }
        proof {
            assert(limb_carry(ops@, k as nat) == (limb_sum(ops@, k as int, ops@.len()) + carry) / 0x10000);
        }
        carry = sum / 0x10000;
        carries[k] = carry as u16;
    }
    assert(carries@ =~= carries_of(ops@));
    carries
}

/// The wrapped sum h + Σ1 + Ch + K + W and its limb carries.
fn add_with_carries_5(a: u64, b: u64, c: u64, d: u64, e: u64) -> (r: (u64, [u16; 4]))
    ensures
        r.0 == a.wrapping_add(b).wrapping_add(c).wrapping_add(d).wrapping_add(e),
        r.1@ == carries_of(seq![a, b, c, d, e]),
{
    let ops = [a, b, c, d, e];
    assert(ops@ =~= seq![a, b, c, d, e]);
    (a.wrapping_add(b).wrapping_add(c).wrapping_add(d).wrapping_add(e), limb_carries(ops.as_slice()))
}

/// The wrapped sum of two words and its limb carries.
fn add_with_carries_2(a: u64, b: u64) -> (r: (u64, [u16; 4]))
    ensures
        r.0 == a.wrapping_add(b),
        r.1@ == carries_of(seq![a, b]),
{
    let ops = [a, b];
    assert(ops@ =~= seq![a, b]);
    (a.wrapping_add(b), limb_carries(ops.as_slice()))
}

/// The wrapped sum σ1(W[t-2]) + W[t-7] + σ0(W[t-15]) + W[t-16] and its limb carries.
fn add_with_carries_4(a: u64, b: u64, c: u64, d: u64) -> (r: (u64, [u16; 4]))
    ensures
        r.0 == a.wrapping_add(b).wrapping_add(c).wrapping_add(d),
        r.1@ == carries_of(seq![a, b, c, d]),
{
    let ops = [a, b, c, d];
    assert(ops@ =~= seq![a, b, c, d]);
    (a.wrapping_add(b).wrapping_add(c).wrapping_add(d), limb_carries(ops.as_slice()))
}

/// Shifts the lag window by one row, feeding `word` in as the newest lag.
fn advance_lags(lags: &mut [u64; 16], word: u64)
    ensures
        final(lags)@ == seq![word] + old(lags)@.take(15),
{
    let ghost before = lags@;
    let mut i: usize = 15;
    while i > 0
        invariant
            i <= 15,
            forall|j: int| 0 <= j <= i ==> #[trigger] lags[j] == before[j],
            forall|j: int| i < j < 16 ==> #[trigger] lags[j] == before[j - 1],
        decreases i,
    {
        lags[i] = lags[i - 1];
        i = i - 1;
    }
    lags[0] = word;
    assert(lags@ =~= seq![word] + before.take(15));
}

/// Cell `c` of a row with the given words, lag words and carries.
fn cell_value(words: &[u64; 16], lags: &[u64; 16], carries: &[u16; 20], c: usize) -> (v: u32)
    requires
        c < AIR_WIDTH,
    ensures
        v == row_cell(words@, lags@, carries@, c as int),
{
    if c < 64 {
        let k = c % 4;
        let x = words[c / 4];
        proof { lemma_limb_bound(x, (16 * k) as u64); }
        ((x >> ((16 * k) as u64)) & 0xffff) as u32
    } else if c < 80 {
        carries[c - 64] as u32
    } else if c < 144 {
        let k = (c - 80) % 4;
        let x = lags[(c - 80) / 4];
        proof { lemma_limb_bound(x, (16 * k) as u64); }
        ((x >> ((16 * k) as u64)) & 0xffff) as u32
    } else if c < 148 {
        carries[16 + (c - 144)] as u32
    } else if c < 532 {
        let g = (c - 148) / 64;
        let w = if g < 3 {
            g
        } else {
            g + 1
        };
        let x = words[w];
        proof { lemma_bit_bound(x, ((c - 148) % 64) as u64); }
        ((x >> (((c - 148) % 64) as u64)) & 1) as u32
    } else if c < 660 {
        let x = if c < 596 {
            lags[1]
        } else {
            lags[14]
        };
        proof { lemma_bit_bound(x, ((c - 532) % 64) as u64); }
        ((x >> (((c - 532) % 64) as u64)) & 1) as u32
    } else if c < 1044 {
        let s = (c - 660) / 16;
        let y = words[ranged_word(s / 4)];
        proof { lemma_limb_bound(y, (16 * (s % 4)) as u64); }
        let x = (y >> ((16 * (s % 4)) as u64)) & 0xffff;
        proof { lemma_bit_bound(x, ((c - 660) % 16) as u64); }
        ((x >> (((c - 660) % 16) as u64)) & 1) as u32
    } else {
        let j = c - 1044;
        let (x, b): (u64, usize) = if j < 12 {
            (carries[j / 3] as u64, j % 3)
        } else if j < 24 {
            (carries[4 + (j - 12)] as u64, 0)
        } else {
            (carries[16 + (j - 24) / 2] as u64, (j - 24) % 2)
        };
        proof { lemma_bit_bound(x, b as u64); }
        ((x >> (b as u64)) & 1) as u32
    }
}

/// Appends one row with the given words, lag words and carries.
fn push_row(values: &mut Vec<u32>, words: &[u64; 16], lags: &[u64; 16], carries: &[u16; 20])
    ensures
        final(values)@ == old(values)@ + Seq::new(
            AIR_WIDTH as nat,
            |c: int| row_cell(words@, lags@, carries@, c),
        ),
{
    let ghost start = values@;
    for c in 0..AIR_WIDTH
        invariant
            values@ == start + Seq::new(c as nat, |j: int| row_cell(words@, lags@, carries@, j)),
    {
        values.push(cell_value(words, lags, carries, c));
        assert(values@ =~= start + Seq::new((c + 1) as nat, |j: int| row_cell(words@, lags@, carries@, j)));
    }
}

/// Twenty carries in the order T1, T2, A, E, schedule.
fn join_carries(t1: [u16; 4], t2: [u16; 4], a: [u16; 4], e: [u16; 4], s: [u16; 4]) -> (c: [u16; 20])
    ensures
        c@ == t1@ + t2@ + a@ + e@ + s@,
{
    let c = [
        t1[0], t1[1], t1[2], t1[3], t2[0], t2[1], t2[2], t2[3], a[0], a[1], a[2], a[3], e[0], e[1],
        e[2], e[3], s[0], s[1], s[2], s[3],
    ];
    assert(c@ =~= t1@ + t2@ + a@ + e@ + s@);
    c
}

/// Words and carries of a padding row whose working state is `state`: the helper words are
/// zero except T1 = h, so that the degenerate round a <- h, e <- d + h satisfies the
/// transition constraints.
fn seed_padding_helpers(state: &[u64; 8]) -> (r: ([u64; 16], [u16; 20]))
    ensures
        r.0@ == state@ + seq![0u64, 0, 0, 0, 0, 0, state[7], 0],
        r.1@ == carries_of(seq![state[7], 0u64, 0, 0, 0]) + carries_of(seq![0u64, 0]) + carries_of(
            seq![state[7], 0u64],
        ) + carries_of(seq![state[3], state[7]]) + Seq::new(4, |i: int| 0u16),
{
    let h = state[7];
    let d = state[3];
    let t1 = h;
    let t2 = 0u64;
    let (_, carry_t1) = add_with_carries_5(h, 0, 0, 0, 0);
    let (_, carry_t2) = add_with_carries_2(0, 0);
    let (_, carry_a) = add_with_carries_2(t1, t2);
    let (_, carry_e) = add_with_carries_2(d, t1);
    let words = [
        state[0], state[1], state[2], state[3], state[4], state[5], state[6], state[7], 0, 0, 0, 0,
        0, 0, t1, t2,
    ];
    assert(words@ =~= state@ + seq![0u64, 0, 0, 0, 0, 0, state[7], 0]);
    let zero: [u16; 4] = [0, 0, 0, 0];
    assert(zero@ =~= Seq::new(4, |i: int| 0u16));
    let carries = join_carries(carry_t1, carry_t2, carry_a, carry_e, zero);
    (words, carries)
}

} // verus!

verus! {

/// The main trace holds the first `n` rows of the main trace of `t`.
pub open spec fn holds_trace_rows(values: Seq<u32>, ws: Seq<u64>, rs: Seq<Seq<u64>>, n: int) -> bool {
    &&& values.len() == n * AIR_WIDTH
    &&& forall|r: int, c: int|
        0 <= r < n && 0 <= c < AIR_WIDTH ==> #[trigger] values[r * AIR_WIDTH + c] == trace_cell(ws, rs, r, c)
}

proof fn lemma_push_trace_row(
    old: Seq<u32>,
    new: Seq<u32>,
    ws: Seq<u64>, rs: Seq<Seq<u64>>,
    i: int,
    words: Seq<u64>,
    lags: Seq<u64>,
    carries: Seq<u16>,
)
    requires
        0 <= i,
        holds_trace_rows(old, ws, rs, i),
        new == old + Seq::new(AIR_WIDTH as nat, |c: int| row_cell(words, lags, carries, c)),
        words == row_words(ws, rs, i),
        lags == row_lags(ws, i),
        carries == row_carries(ws, rs, i),
    ensures
        holds_trace_rows(new, ws, rs, i + 1),
{
    assert forall|r: int, c: int| 0 <= r < i + 1 && 0 <= c < AIR_WIDTH implies #[trigger] new[r
        * AIR_WIDTH + c] == trace_cell(ws, rs, r, c) by {
        if r < i {
            assert(r * AIR_WIDTH + c < i * AIR_WIDTH);
            assert(new[r * AIR_WIDTH + c] == old[r * AIR_WIDTH + c]);
        } else {
            assert(r * AIR_WIDTH + c == old.len() + c);
        }
    }
}

impl Sha512Circuit {
    /// Lays out the main AIR trace of a block trace: 80 round rows, the row of the final
    /// working state, and 47 padding rows of degenerate rounds.
    pub fn build_plonky3_air_trace(trace: &BlockTrace) -> (m: TraceMatrix)
        ensures
            m.width == AIR_WIDTH,
            holds_trace_rows(m.values@, trace.words@, rounds_of(*trace), TRACE_ROWS as int),
    {
        let ghost ws = trace.words@;
        let ghost rs = rounds_of(*trace);
        let mut values: Vec<u32> = Vec::new();
        let mut lags = [0u64; 16];
        assert(lags@ =~= row_lags(ws, 0));
        for i in 0..80
            invariant
                ws == trace.words@,
                rs == rounds_of(*trace),
                holds_trace_rows(values@, ws, rs, i as int),
                lags@ == row_lags(ws, i as int),
        {
            let s = trace.round_states[i];
            let word = trace.words[i];
            let constant = K[i];
            let sigma0 = big_sigma0(s[0]);
            let sigma1 = big_sigma1(s[4]);
            let choose = ch(s[4], s[5], s[6]);
            let majority = maj(s[0], s[1], s[2]);
            let (t1, carry_t1) = add_with_carries_5(s[7], sigma1, choose, constant, word);
            let (t2, carry_t2) = add_with_carries_2(sigma0, majority);
            assert(t1 == round_t1(s@, constant, word));
            assert(t2 == round_t2(s@));
            let (_, carry_a) = add_with_carries_2(t1, t2);
            let (_, carry_e) = add_with_carries_2(s[3], t1);
            let sched_carries = if i >= 16 {
                let w2 = trace.words[i - 2];
                let w7 = trace.words[i - 7];
                let w15 = trace.words[i - 15];
                let w16 = trace.words[i - 16];
                let (_, c) = add_with_carries_4(small_sigma1(w2), w7, small_sigma0(w15), w16);
                c
            } else {
                let zero: [u16; 4] = [0, 0, 0, 0];
                assert(zero@ =~= Seq::new(4, |j: int| 0u16));
                zero
            };
            let words = [
                s[0], s[1], s[2], s[3], s[4], s[5], s[6], s[7], word, constant, sigma0, sigma1,
                choose, majority, t1, t2,
            ];
            let carries = join_carries(carry_t1, carry_t2, carry_a, carry_e, sched_carries);
            assert(words@ =~= row_words(ws, rs, i as int));
            assert(carries@ =~= row_carries(ws, rs, i as int));
            let ghost before = values@;
            push_row(&mut values, &words, &lags, &carries);
            proof {
                lemma_push_trace_row(before, values@, ws, rs, i as int, words@, lags@, carries@);
            }
            advance_lags(&mut lags, word);
            assert(lags@ =~= row_lags(ws, i + 1));
        }

        let mut state = trace.round_states[80];
        let (words, carries) = seed_padding_helpers(&state);
        assert(state@ == pad_state(rs, 80));
        assert(words@ =~= row_words(ws, rs, 80));
        assert(carries@ =~= row_carries(ws, rs, 80));
        let ghost before = values@;
        push_row(&mut values, &words, &lags, &carries);
        proof {
            lemma_push_trace_row(before, values@, ws, rs, 80, words@, lags@, carries@);
        }
        advance_lags(&mut lags, 0);
        assert(lags@ =~= row_lags(ws, 81));

        for row_idx in 81..128
            invariant
                ws == trace.words@,
                rs == rounds_of(*trace),
                holds_trace_rows(values@, ws, rs, row_idx as int),
                lags@ == row_lags(ws, row_idx as int),
                state@ == pad_state(rs, (row_idx - 1) as nat),
        {
            let next_state = [
                state[7],
                state[0],
                state[1],
                state[2],
                state[3].wrapping_add(state[7]),
                state[4],
                state[5],
                state[6],
            ];
            assert(next_state@ =~= pad_state(rs, row_idx as nat));
            let (words, carries) = if row_idx == TRACE_ROWS - 1 {
                let words = [
                    next_state[0], next_state[1], next_state[2], next_state[3], next_state[4],
                    next_state[5], next_state[6], next_state[7], 0, 0, 0, 0, 0, 0, 0, 0,
                ];
                let carries = [0u16, 0, 0, 0, 0, 0, 0, 0, 0, 0, 0, 0, 0, 0, 0, 0, 0, 0, 0, 0];
                (words, carries)
            } else {
                seed_padding_helpers(&next_state)
            };
            assert(words@ =~= row_words(ws, rs, row_idx as int));
            assert(carries@ =~= row_carries(ws, rs, row_idx as int));
            let ghost before = values@;
            push_row(&mut values, &words, &lags, &carries);
            proof {
                lemma_push_trace_row(before, values@, ws, rs, row_idx as int, words@, lags@, carries@);
            }
            advance_lags(&mut lags, 0);
            assert(lags@ =~= row_lags(ws, row_idx + 1));
            state = next_state;
        }
        TraceMatrix { values, width: AIR_WIDTH }
    }
}

} // verus!

verus! {

/// Cell `(r, c)` of the preprocessed trace of the instance with initial state `state` and
/// message words `m`: the limbs of the initial state on the first row, the limbs of W[r] and
/// K[r] on the round rows, and the five row-type selectors in the final five columns.
pub open spec fn prep_cell(state: Seq<u64>, m: Seq<u64>, r: int, c: int) -> u32 {
    if r == 0 && c < 32 {
        limb16(state[c / 4], c % 4) as u32
    } else if 32 <= c < 36 {
        if r < 80 {
            limb16(schedule_word(m, r as nat), c - 32) as u32
        } else {
            0
        }
    } else if 36 <= c < 40 {
        if r < 80 {
            limb16(K[r], c - 36) as u32
        } else {
            0
        }
    } else if c == PREP_BLOCK_START_SELECTOR_COL {
        if r == 0 {
            1
        } else {
            0
        }
    } else if c == PREP_TRANSITION_SELECTOR_COL {
        if r < TRACE_ROWS - 1 {
            1
        } else {
            0
        }
    } else if c == PREP_ROUND_SELECTOR_COL {
        if r < 80 {
            1
        } else {
            0
        }
    } else if c == PREP_INIT_W_SELECTOR_COL {
        if r < 16 {
            1
        } else {
            0
        }
    } else if c == PREP_FINAL_SELECTOR_COL {
        if r == 80 {
            1
        } else {
            0
        }
    } else {
        0
    }
}

/// The preprocessed trace of an instance carries the initial state on its first row only:
/// there the limbs of a..h sit in columns 0..32, and on every other row those columns are zero.
pub proof fn lemma_prep_state_on_first_row_only(state: Seq<u64>, m: Seq<u64>)
    ensures
        forall|w: int, k: int|
            0 <= w < 8 && 0 <= k < 4 ==> #[trigger] instance_prep(state, m)[spec_limb_col(w, k)] == limb16(state[w], k) as u32,
        forall|r: int, c: int|
            1 <= r < TRACE_ROWS && 0 <= c < 32 ==> #[trigger] instance_prep(state, m)[r * AIR_WIDTH + c] == 0,
{
    let v = instance_prep(state, m);
    assert forall|w: int, k: int| 0 <= w < 8 && 0 <= k < 4 implies #[trigger] v[spec_limb_col(w, k)] == limb16(state[w], k) as u32 by {
        let c = spec_limb_col(w, k);
        vstd::arithmetic::div_mod::lemma_fundamental_div_mod_converse(c, AIR_WIDTH as int, 0, c);
        assert(c / 4 == w && c % 4 == k);
    }
    assert forall|r: int, c: int| 1 <= r < TRACE_ROWS && 0 <= c < 32 implies #[trigger] v[r * AIR_WIDTH + c] == 0 by {
        let j = r * AIR_WIDTH + c;
        vstd::arithmetic::div_mod::lemma_fundamental_div_mod_converse(j, AIR_WIDTH as int, r, c);
    }
}

proof fn lemma_limb_of_zero_word(k: int)
    ensures
        limb16(0, k) == 0,
{
    let s = (16 * k) as u64;
    assert((0u64 >> s) & 0xffff == 0) by (bit_vector);
}

/// The lag window of a block trace: on row `r`, lag `l` holds the W limbs of row `r - 1 - l`,
/// and it is zero where no schedule word precedes it (`l >= r`) or the rounds are over.
pub proof fn lemma_trace_lag_window(values: Seq<u32>, ws: Seq<u64>, rs: Seq<Seq<u64>>)
    requires
        holds_trace_rows(values, ws, rs, TRACE_ROWS as int),
    ensures
        forall|r: int, l: int, k: int|
            0 <= r <= l < LAG_COUNT && 0 <= k < 4 ==> #[trigger] values[r * AIR_WIDTH + spec_lag_limb_col(l, k)] == 0,
        forall|r: int, l: int, k: int|
            0 <= l < r < TRACE_ROWS && r - 1 - l < 80 && l < LAG_COUNT && 0 <= k < 4 ==> #[trigger] values[r * AIR_WIDTH
                + spec_lag_limb_col(l, k)] == values[(r - 1 - l) * AIR_WIDTH + spec_limb_col(WORD_W as int, k)],
        forall|r: int, l: int, k: int|
            0 <= l < LAG_COUNT && 80 <= r - 1 - l && r < TRACE_ROWS && 0 <= k < 4 ==> #[trigger] values[r * AIR_WIDTH
                + spec_lag_limb_col(l, k)] == 0,
{
    assert forall|r: int, l: int, k: int|
        0 <= r < TRACE_ROWS && 0 <= l < LAG_COUNT && 0 <= k < 4 implies #[trigger] values[r * AIR_WIDTH + spec_lag_limb_col(l, k)]
            == limb16(fed_word(ws, r - 1 - l), k) as u32 by {
        let c = spec_lag_limb_col(l, k);
        assert(values[r * AIR_WIDTH + c] == trace_cell(ws, rs, r, c));
        assert((c - 80) / 4 == l && (c - 80) % 4 == k);
    }
    assert forall|r: int, l: int, k: int|
        0 <= r <= l < LAG_COUNT && 0 <= k < 4 implies #[trigger] values[r * AIR_WIDTH + spec_lag_limb_col(l, k)] == 0 by {
        assert(values[r * AIR_WIDTH + spec_lag_limb_col(l, k)] == limb16(fed_word(ws, r - 1 - l), k) as u32);
        lemma_limb_of_zero_word(k);
    }
    assert forall|r: int, l: int, k: int|
        0 <= l < r < TRACE_ROWS && r - 1 - l < 80 && l < LAG_COUNT && 0 <= k < 4 implies #[trigger] values[r * AIR_WIDTH
            + spec_lag_limb_col(l, k)] == values[(r - 1 - l) * AIR_WIDTH + spec_limb_col(WORD_W as int, k)] by {
        let j = r - 1 - l;
        let c = spec_limb_col(WORD_W as int, k);
        assert(values[r * AIR_WIDTH + spec_lag_limb_col(l, k)] == limb16(fed_word(ws, j), k) as u32);
        assert(values[j * AIR_WIDTH + c] == trace_cell(ws, rs, j, c));
        assert(c / 4 == 8 && c % 4 == k);
    }
    assert forall|r: int, l: int, k: int|
        0 <= l < LAG_COUNT && 80 <= r - 1 - l && r < TRACE_ROWS && 0 <= k < 4 implies #[trigger] values[r * AIR_WIDTH
            + spec_lag_limb_col(l, k)] == 0 by {
        assert(values[r * AIR_WIDTH + spec_lag_limb_col(l, k)] == limb16(fed_word(ws, r - 1 - l), k) as u32);
        lemma_limb_of_zero_word(k);
    }
}

/// The public values of an instance: the working state after the eighty rounds, in the field.
pub open spec fn instance_public_values(state: Seq<u64>, m: Seq<u64>) -> Seq<u32> {
    Seq::new(8, |i: int| (round_state(state, m, 80)[i] % (BABY_BEAR_P as u64)) as u32)
}

/// The preprocessed trace of an instance, row-major.
pub open spec fn instance_prep(state: Seq<u64>, m: Seq<u64>) -> Seq<u32> {
    Seq::new(
        (TRACE_ROWS * AIR_WIDTH) as nat,
        |j: int| prep_cell(state, m, j / (AIR_WIDTH as int), j % (AIR_WIDTH as int)),
    )
}

/// Row `r` of a row-major trace.
pub open spec fn row_of(v: Seq<u32>, r: int) -> Seq<u32> {
    v.subrange(r * AIR_WIDTH, r * AIR_WIDTH + AIR_WIDTH)
}

/// The row paired with row `r` as its next row: `r + 1`, or `r` itself on the last row.
pub open spec fn next_row(r: int) -> int {
    if r + 1 < TRACE_ROWS {
        r + 1
    } else {
        r
    }
}

/// The window of row `r` satisfies the AIR constraints.
pub open spec fn window_ok(main: Seq<u32>, prep: Seq<u32>, pv: Seq<u32>, r: int) -> bool {
    row_ok(row_of(main, r), row_of(main, next_row(r)), row_of(prep, r), pv)
}

/// Every window of the 128-row main trace satisfies the AIR constraints against the
/// preprocessed trace.
pub open spec fn air_accepts(main: Seq<u32>, prep: Seq<u32>, pv: Seq<u32>) -> bool {
    forall|r: int| 0 <= r < TRACE_ROWS ==> #[trigger] window_ok(main, prep, pv, r)
}

fn prep_cell_value(state: &[u64; 8], trace: &BlockTrace, r: usize, c: usize) -> (v: u32)
    requires
        r < TRACE_ROWS,
        c < AIR_WIDTH,
    ensures
        forall|m: Seq<u64>|
            (forall|i: int| 0 <= i < 80 ==> #[trigger] trace.words[i] == schedule_word(m, i as nat))
                ==> v == prep_cell(state@, m, r as int, c as int),
{
    if r == 0 && c < 32 {
        let x = state[c / 4];
        proof { lemma_limb_bound(x, (16 * (c % 4)) as u64); }
        ((x >> ((16 * (c % 4)) as u64)) & 0xffff) as u32
    } else if 32 <= c && c < 36 {
        if r < 80 {
            let x = trace.words[r];
            proof { lemma_limb_bound(x, (16 * (c - 32)) as u64); }
            ((x >> ((16 * (c - 32)) as u64)) & 0xffff) as u32
        } else {
            0
        }
    } else if 36 <= c && c < 40 {
        if r < 80 {
            let x = K[r];
            proof { lemma_limb_bound(x, (16 * (c - 36)) as u64); }
            ((x >> ((16 * (c - 36)) as u64)) & 0xffff) as u32
        } else {
            0
        }
    } else if c == PREP_BLOCK_START_SELECTOR_COL {
        if r == 0 {
            1
        } else {
            0
        }
    } else if c == PREP_TRANSITION_SELECTOR_COL {
        if r < TRACE_ROWS - 1 {
            1
        } else {
            0
        }
    } else if c == PREP_ROUND_SELECTOR_COL {
        if r < 80 {
            1
        } else {
            0
        }
    } else if c == PREP_INIT_W_SELECTOR_COL {
        if r < 16 {
            1
        } else {
            0
        }
    } else if c == PREP_FINAL_SELECTOR_COL {
        if r == 80 {
            1
        } else {
            0
        }
    } else {
        0
    }
}

proof fn lemma_row_major(j: int)
    requires
        0 <= j,
    ensures
        j == (j / (AIR_WIDTH as int)) * (AIR_WIDTH as int) + j % (AIR_WIDTH as int),
        0 <= j % (AIR_WIDTH as int) < AIR_WIDTH,
{
    vstd::arithmetic::div_mod::lemma_fundamental_div_mod(j, AIR_WIDTH as int);
}

impl Sha512Circuit {
    /// The preprocessed trace of the instance `(initial_state, block)`.
    pub fn build_plonky3_preprocessed_trace_from_instance(
        initial_state: &[u64; 8],
        block: &[u8; 128],
    ) -> (m: TraceMatrix)
        ensures
            m.width == AIR_WIDTH,
            m.values@ == instance_prep(initial_state@, block_words(block@)),
    {
        let trace = Sha512Circuit::compress_block(initial_state, block);
        let ghost mw = block_words(block@);
        let mut values: Vec<u32> = Vec::new();
        for r in 0..TRACE_ROWS
            invariant
                is_compression_trace(trace, initial_state@, mw),
                values@.len() == r * AIR_WIDTH,
                forall|rr: int, c: int|
                    0 <= rr < r && 0 <= c < AIR_WIDTH ==> #[trigger] values@[rr * AIR_WIDTH + c]
                        == prep_cell(initial_state@, mw, rr, c),
        {
            let ghost before = values@;
            for c in 0..AIR_WIDTH
                invariant
                    r < TRACE_ROWS,
                    is_compression_trace(trace, initial_state@, mw),
                    values@.len() == r * AIR_WIDTH + c,
                    values@.subrange(0, r * AIR_WIDTH) == before,
                    forall|cc: int| 0 <= cc < c ==> #[trigger] values@[r * AIR_WIDTH + cc] == prep_cell(initial_state@, mw, r as int, cc),
            {
                let v = prep_cell_value(initial_state, &trace, r, c);
                values.push(v);
                assert(values@.subrange(0, r * AIR_WIDTH) =~= before);
            }
            assert forall|rr: int, c: int| 0 <= rr < r + 1 && 0 <= c < AIR_WIDTH implies #[trigger] values@[rr * AIR_WIDTH + c]
                == prep_cell(initial_state@, mw, rr, c) by {
                if rr < r {
                    assert(rr * AIR_WIDTH + c < r * AIR_WIDTH);
                    assert(values@[rr * AIR_WIDTH + c] == before[rr * AIR_WIDTH + c]);
                }
            }
        }
        assert forall|j: int| 0 <= j < values@.len() implies #[trigger] values@[j] == instance_prep(initial_state@, mw)[j] by {
            lemma_row_major(j);
            let rr = j / (AIR_WIDTH as int);
            let c = j % (AIR_WIDTH as int);
            assert(values@[rr * AIR_WIDTH + c] == prep_cell(initial_state@, mw, rr, c));
        }
        assert(values@ =~= instance_prep(initial_state@, mw));
        TraceMatrix { values, width: AIR_WIDTH }
    }
}

} // verus!

verus! {

/// Checks every window of a 128-row main trace against a preprocessed trace.
fn verify_with_preprocessed(main_trace: &TraceMatrix, preprocessed_trace: &TraceMatrix, public_values: &[u32; 8]) -> (ok: bool)
    requires
        main_trace.width == AIR_WIDTH,
        main_trace.spec_height() == TRACE_ROWS,
    ensures
        ok == (preprocessed_trace.width == AIR_WIDTH && preprocessed_trace.spec_height()
            == TRACE_ROWS && air_accepts(main_trace.values@, preprocessed_trace.values@, public_values@)),
{
    if preprocessed_trace.width != AIR_WIDTH || preprocessed_trace.height() != TRACE_ROWS {
        return false;
    }
    let main = main_trace.values.as_slice();
    let prep = preprocessed_trace.values.as_slice();
    assert(main@.len() >= TRACE_ROWS * AIR_WIDTH);
    assert(prep@.len() >= TRACE_ROWS * AIR_WIDTH);
    for row in 0..TRACE_ROWS
        invariant
            main@ == main_trace.values@,
            prep@ == preprocessed_trace.values@,
            main@.len() >= TRACE_ROWS * AIR_WIDTH,
            prep@.len() >= TRACE_ROWS * AIR_WIDTH,
            forall|r: int| 0 <= r < row ==> #[trigger] window_ok(main@, prep@, public_values@, r),
    {
        let next = if row + 1 < TRACE_ROWS {
            row + 1
        } else {
            row
        };
        let local_row = slice_subrange(main, row * AIR_WIDTH, row * AIR_WIDTH + AIR_WIDTH);
        let next_row_slice = slice_subrange(main, next * AIR_WIDTH, next * AIR_WIDTH + AIR_WIDTH);
        let local_prep = slice_subrange(prep, row * AIR_WIDTH, row * AIR_WIDTH + AIR_WIDTH);
        if !check_row(local_row, next_row_slice, local_prep, public_values.as_slice()) {
            assert(!window_ok(main@, prep@, public_values@, row as int));
            return false;
        }
    }
    true
}

impl Sha512Circuit {
    /// Checks a main trace against the AIR constraints of the instance
    /// `(initial_state, block)`, with the working state after the rounds as the public values:
    /// the trace must have the AIR width and 128 rows.
    pub fn verify_plonky3_air_trace_with_instance(
        main_trace: &TraceMatrix,
        initial_state: &[u64; 8],
        block: &[u8; 128],
    ) -> (ok: bool)
        ensures
            ok == (main_trace.width == AIR_WIDTH && main_trace.spec_height() == TRACE_ROWS
                && air_accepts(
                main_trace.values@,
                instance_prep(initial_state@, block_words(block@)),
                instance_public_values(initial_state@, block_words(block@)),
            )),
            ok ==> forall|i: int|
                0 <= i < 8 ==> #[trigger] decoded_word(row_of(main_trace.values@, 80), i) == Some(
                    round_state(initial_state@, block_words(block@), 80)[i],
                ),
    {
        if main_trace.width != AIR_WIDTH || main_trace.height() != TRACE_ROWS {
            return false;
        }
        let preprocessed_trace = Sha512Circuit::build_plonky3_preprocessed_trace_from_instance(
            initial_state,
            block,
        );
        let public_values = instance_public_values_exec(initial_state, block);
        proof {
            assert(preprocessed_trace.values@.len() == TRACE_ROWS * AIR_WIDTH);
            assert(preprocessed_trace.spec_height() == TRACE_ROWS);
        }
        let ok = verify_with_preprocessed(main_trace, &preprocessed_trace, &public_values);
        proof {
            if ok {
                assert(main_trace.values@.len() >= TRACE_ROWS * AIR_WIDTH);
                lemma_accepted_trace_is_the_compression(
                    main_trace.values@,
                    initial_state@,
                    block_words(block@),
                    public_values@,
                );
            }
        }
        ok
    }
}

} // verus!

verus! {

/// The 64-bit word that word `word` of a row holds according to its limbs: `None` when a
/// limb exceeds 16 bits.
pub open spec fn decoded_word(row: Seq<u32>, word: int) -> Option<u64> {
    let l0 = cv(row, spec_limb_col(word, 0));
    let l1 = cv(row, spec_limb_col(word, 1));
    let l2 = cv(row, spec_limb_col(word, 2));
    let l3 = cv(row, spec_limb_col(word, 3));
    if l0 > 0xffff || l1 > 0xffff || l2 > 0xffff || l3 > 0xffff {
        None
    } else {
        Some((l0 as u64) | ((l1 as u64) << 16u64) | ((l2 as u64) << 32u64) | ((l3 as u64) << 48u64))
    }
}

/// Reads the 64-bit word of word column `word` back from its limbs.
fn decode_word_from_row(row: &[u32], word: usize) -> (r: Option<u64>)
    requires
        row@.len() == AIR_WIDTH,
        word < WORD_COUNT,
    ensures
        r == decoded_word(row@, word as int),
{
    let l0 = f_canon(row[limb_col(word, 0)]);
    let l1 = f_canon(row[limb_col(word, 1)]);
    let l2 = f_canon(row[limb_col(word, 2)]);
    let l3 = f_canon(row[limb_col(word, 3)]);
    if l0 > 0xffff || l1 > 0xffff || l2 > 0xffff || l3 > 0xffff {
        return None;
    }
    Some((l0 as u64) | ((l1 as u64) << 16u64) | ((l2 as u64) << 32u64) | ((l3 as u64) << 48u64))
}

/// The instance that a main trace states itself: a..h on the first row, and the block whose
/// big-endian words are W on rows 0..15.
pub open spec fn inferable(main: Seq<u32>) -> bool {
    &&& forall|c: int| 0 <= c < 8 ==> (#[trigger] decoded_word(row_of(main, 0), c)) is Some
    &&& forall|i: int| 0 <= i < 16 ==> (#[trigger] decoded_word(row_of(main, i), WORD_W as int)) is Some
}

pub open spec fn inferred_state(main: Seq<u32>) -> Seq<u64> {
    Seq::new(8, |c: int| decoded_word(row_of(main, 0), c)->Some_0)
}

pub open spec fn inferred_block(main: Seq<u32>) -> Seq<u8> {
    Seq::new(
        128,
        |j: int| (decoded_word(row_of(main, j / 8), WORD_W as int)->Some_0 >> ((56 - 8 * (j % 8)) as u64)) as u8,
    )
}

fn infer_instance_from_main(main_trace: &TraceMatrix) -> (r: Option<([u64; 8], [u8; 128])>)
    requires
        main_trace.width == AIR_WIDTH,
        main_trace.spec_height() == TRACE_ROWS,
    ensures
        r is Some <==> inferable(main_trace.values@),
        r matches Some(inst) ==> inst.0@ == inferred_state(main_trace.values@) && inst.1@
            == inferred_block(main_trace.values@),
{
    let main = main_trace.values.as_slice();
    assert(main@.len() >= TRACE_ROWS * AIR_WIDTH);
    let row0 = slice_subrange(main, 0, AIR_WIDTH);
    let mut state = [0u64; 8];
    for c in 0..8
        invariant
            main@ == main_trace.values@,
            row0@ == row_of(main@, 0),
            row0@.len() == AIR_WIDTH,
            forall|j: int| 0 <= j < c ==> (#[trigger] decoded_word(row0@, j)) == Some(state[j]),
    {
        match decode_word_from_row(row0, c) {
            Some(w) => {
                state[c] = w;
            },
            None => {
                return None;
            },
        }
    }
    let mut block = [0u8; 128];
    for i in 0..16
        invariant
            main@ == main_trace.values@,
            main@.len() >= TRACE_ROWS * AIR_WIDTH,
            forall|j: int| 0 <= j < 8 ==> (#[trigger] decoded_word(row_of(main@, 0), j)) == Some(state[j]),
            forall|j: int| 0 <= j < 8 * i ==> #[trigger] block[j] == inferred_block(main@)[j],
            forall|j: int| 0 <= j < i ==> (#[trigger] decoded_word(row_of(main@, j), WORD_W as int)) is Some,
    {
        let row = slice_subrange(main, i * AIR_WIDTH, i * AIR_WIDTH + AIR_WIDTH);
        assert(row@ == row_of(main@, i as int));
        match decode_word_from_row(row, WORD_W) {
            Some(w) => {
                for k in 0..8
                    invariant
                        i < 16,
                        row@ == row_of(main@, i as int),
                        decoded_word(row@, WORD_W as int) == Some(w),
                        forall|j: int| 0 <= j < 8 * i + k ==> #[trigger] block[j] == inferred_block(main@)[j],
                {
                    block[8 * i + k] = (w >> ((56 - 8 * k) as u64)) as u8;
                    assert((8 * i + k) / 8 == i && (8 * i + k) % 8 == k);
                }
            },
            None => {
                assert(decoded_word(row_of(main@, i as int), WORD_W as int) is None);
                return None;
            },
        }
    }
    assert(state@ =~= inferred_state(main@));
    assert(block@ =~= inferred_block(main@));
    Some((state, block))
}

impl Sha512Circuit {
    /// Checks a main trace against the AIR constraints of the instance that the trace states
    /// itself (its first-row state and its first sixteen W words). Prefer
    /// `verify_plonky3_air_trace_with_instance`, which binds the trace to a given instance.
    pub fn verify_plonky3_air_trace(main_trace: &TraceMatrix) -> (ok: bool)
        ensures
            ok == (main_trace.width == AIR_WIDTH && main_trace.spec_height() == TRACE_ROWS
                && inferable(main_trace.values@) && air_accepts(
                main_trace.values@,
                instance_prep(inferred_state(main_trace.values@), block_words(inferred_block(main_trace.values@))),
                instance_public_values(inferred_state(main_trace.values@), block_words(inferred_block(main_trace.values@))),
            )),
    {
        if main_trace.width != AIR_WIDTH || main_trace.height() != TRACE_ROWS {
            return false;
        }
        let (initial_state, block) = match infer_instance_from_main(main_trace) {
            Some(inst) => inst,
            None => {
                return false;
            },
        };
        let preprocessed_trace = Sha512Circuit::build_plonky3_preprocessed_trace_from_instance(
            &initial_state,
            &block,
        );
        let public_values = instance_public_values_exec(&initial_state, &block);
        proof {
            assert(preprocessed_trace.values@.len() == TRACE_ROWS * AIR_WIDTH);
            assert(preprocessed_trace.spec_height() == TRACE_ROWS);
        }
        verify_with_preprocessed(main_trace, &preprocessed_trace, &public_values)
    }
}

} // verus!

verus! {

/// The schedule words of the compression of message words `m`.
pub open spec fn compression_words(m: Seq<u64>) -> Seq<u64> {
    Seq::new(80, |i: int| schedule_word(m, i as nat))
}

/// The working states of the compression of `m` from `state`.
pub open spec fn compression_rounds(state: Seq<u64>, m: Seq<u64>) -> Seq<Seq<u64>> {
    Seq::new(81, |i: int| round_state(state, m, i as nat))
}

/// The schedule and working states of a compression trace are those of the compression.
pub proof fn lemma_compression_trace_view(t: BlockTrace, state: Seq<u64>, m: Seq<u64>)
    requires
        is_compression_trace(t, state, m),
    ensures
        t.words@ == compression_words(m),
        rounds_of(t) == compression_rounds(state, m),
{
    assert(t.words@ =~= compression_words(m));
    assert(rounds_of(t) =~= compression_rounds(state, m));
}

/// An accepted trace states its public values: whatever main trace the AIR accepts against
/// the preprocessed trace of an instance, the working state a..h on its final round row
/// (row 80), each word recombined from its four limbs in the field, equals the public values.
pub proof fn lemma_accepted_trace_binds_public_values(
    main: Seq<u32>,
    state: Seq<u64>,
    m: Seq<u64>,
    pv: Seq<u32>,
)
    requires
        main.len() == TRACE_ROWS * AIR_WIDTH,
        air_accepts(main, instance_prep(state, m), pv),
    ensures
        forall|i: int|
            0 <= i < 8 ==> #[trigger] limbs_packed(row_of(main, 80), spec_limb_col(i, 0)) == fval(
                pv[i],
            ),
{
    let prep = instance_prep(state, m);
    assert(window_ok(main, prep, pv, 80));
    let j: int = 80 * AIR_WIDTH + PREP_FINAL_SELECTOR_COL;
    assert(j / (AIR_WIDTH as int) == 80 && j % (AIR_WIDTH as int) == PREP_FINAL_SELECTOR_COL);
    assert(row_of(prep, 80)[PREP_FINAL_SELECTOR_COL as int] == prep[j]);
    assert(prep[j] == 1);
    assert(cv(row_of(prep, 80), PREP_FINAL_SELECTOR_COL as int) == 1);
}

/// The eight field elements of a working state: the public values of a block proof.
pub fn state_public_values(state: &[u64; 8]) -> (v: [u32; 8])
    ensures
        forall|i: int| 0 <= i < 8 ==> #[trigger] v[i] as int == state[i] as int % BABY_BEAR_P as int,
{
    [bb(state[0]), bb(state[1]), bb(state[2]), bb(state[3]), bb(state[4]), bb(state[5]), bb(state[6]), bb(state[7])]
}

/// The public values of the instance `(initial_state, block)`.
fn instance_public_values_exec(initial_state: &[u64; 8], block: &[u8; 128]) -> (v: [u32; 8])
    ensures
        v@ == instance_public_values(initial_state@, block_words(block@)),
{
    let trace = Sha512Circuit::compress_block(initial_state, block);
    let v = state_public_values(&trace.round_states[80]);
    proof {
        let m = block_words(block@);
        assert(trace.round_states[80]@ == round_state(initial_state@, m, 80));
        assert forall|i: int| 0 <= i < 8 implies #[trigger] v@[i] == instance_public_values(initial_state@, m)[i] by {
            assert(v[i] as int == trace.round_states[80][i] as int % BABY_BEAR_P as int);
        }
        assert(v@ =~= instance_public_values(initial_state@, m));
    }
    v
}

} // verus!

verus! {

/// Number of cells of one 128-row block segment.
pub const SEGMENT_CELLS: usize = 137728;

/// The traces of a message proof: one 128-row segment per padded block, repeated for the last
/// block up to a power-of-two number of segments, the matching preprocessed trace, the
/// log2 height, the final chaining state and the public values (the last working state of
/// the last block, before the feed-forward).
pub struct Sha512MessageAirBundle {
    pub main: TraceMatrix,
    pub preprocessed: TraceMatrix,
    pub degree_bits: usize,
    pub final_state: [u64; 8],
    pub final_public_values: [u32; 8],
}

/// Cell `(r, c)` of the main segment of the compression of `m` from `st`.
pub open spec fn segment_main_cell(st: Seq<u64>, m: Seq<u64>, r: int, c: int) -> u32 {
    trace_cell(compression_words(m), compression_rounds(st, m), r, c)
}

/// Cell `(r, c)` of the preprocessed segment of the compression of `m` from `st`: the
/// single-block preprocessed cell, with the final selector kept only in the segments that
/// prove the last block (`last`), whose final working state is the public values.
pub open spec fn segment_prep_cell(st: Seq<u64>, m: Seq<u64>, last: bool, r: int, c: int) -> u32 {
    if c == PREP_FINAL_SELECTOR_COL && !last {
        0
    } else {
        prep_cell(st, m, r, c)
    }
}

/// The block that segment `s` of a message trace with `n` blocks proves.
pub open spec fn segment_block(n: int, s: int) -> int {
    if s < n {
        s
    } else {
        n - 1
    }
}

/// Chaining state entering block `b` of the padded message `p`.
pub open spec fn block_input(init: Seq<u64>, p: Seq<u8>, b: int) -> Seq<u64> {
    chain(init, p, b as nat)
}

/// Cell `(r, c)` of segment `s` of the main trace of the message whose padded form is `p`,
/// with `n` blocks, chained from `init`.
pub open spec fn message_main_cell(init: Seq<u64>, p: Seq<u8>, n: int, s: int, r: int, c: int) -> u32 {
    segment_main_cell(
        block_input(init, p, segment_block(n, s)),
        block_words(block_at(p, segment_block(n, s))),
        r,
        c,
    )
}

/// Cell `(r, c)` of segment `s` of the preprocessed trace of that message.
pub open spec fn message_prep_cell(init: Seq<u64>, p: Seq<u8>, n: int, s: int, r: int, c: int) -> u32 {
    segment_prep_cell(
        block_input(init, p, segment_block(n, s)),
        block_words(block_at(p, segment_block(n, s))),
        segment_block(n, s) == n - 1,
        r,
        c,
    )
}

/// The values hold `segs` segments of the main (`prep == false`) or preprocessed
/// (`prep == true`) trace of the message.
pub open spec fn holds_message_segments(values: Seq<u32>, prep: bool, init: Seq<u64>, p: Seq<u8>, n: int, segs: int) -> bool {
    &&& values.len() == segs * SEGMENT_CELLS
    &&& forall|s: int, j: int|
        0 <= s < segs && 0 <= j < SEGMENT_CELLS ==> #[trigger] values[s * SEGMENT_CELLS + j] == if prep {
            message_prep_cell(init, p, n, s, j / (AIR_WIDTH as int), j % (AIR_WIDTH as int))
        } else {
            message_main_cell(init, p, n, s, j / (AIR_WIDTH as int), j % (AIR_WIDTH as int))
        }
}

/// One segment of the main (`prep == false`) or preprocessed trace of the compression of `m`
/// from `st`.
pub open spec fn holds_segment(v: Seq<u32>, prep: bool, last: bool, st: Seq<u64>, m: Seq<u64>) -> bool {
    &&& v.len() == SEGMENT_CELLS
    &&& forall|j: int|
        0 <= j < SEGMENT_CELLS ==> #[trigger] v[j] == if prep {
            segment_prep_cell(st, m, last, j / (AIR_WIDTH as int), j % (AIR_WIDTH as int))
        } else {
            segment_main_cell(st, m, j / (AIR_WIDTH as int), j % (AIR_WIDTH as int))
        }
}

fn append_all(dst: &mut Vec<u32>, src: &Vec<u32>)
    ensures
        final(dst)@ == old(dst)@ + src@,
{
    let ghost start = dst@;
    for k in 0..src.len()
        invariant
            dst@ == start + src@.take(k as int),
    {
        dst.push(src[k]);
        assert(dst@ =~= start + src@.take(k + 1));
    }
    assert(src@.take(src@.len() as int) =~= src@);
}

proof fn lemma_append_segment(
    old: Seq<u32>,
    seg: Seq<u32>,
    prep: bool,
    init: Seq<u64>,
    p: Seq<u8>,
    n: int,
    s: int,
)
    requires
        0 <= s,
        holds_message_segments(old, prep, init, p, n, s),
        holds_segment(
            seg,
            prep,
            segment_block(n, s) == n - 1,
            block_input(init, p, segment_block(n, s)),
            block_words(block_at(p, segment_block(n, s))),
        ),
    ensures
        holds_message_segments(old + seg, prep, init, p, n, s + 1),
{
    let new = old + seg;
    assert forall|ss: int, j: int| 0 <= ss < s + 1 && 0 <= j < SEGMENT_CELLS implies #[trigger] new[ss * SEGMENT_CELLS + j]
        == if prep {
            message_prep_cell(init, p, n, ss, j / (AIR_WIDTH as int), j % (AIR_WIDTH as int))
        } else {
            message_main_cell(init, p, n, ss, j / (AIR_WIDTH as int), j % (AIR_WIDTH as int))
        } by {
        if ss < s {
            assert(ss * SEGMENT_CELLS + j < s * SEGMENT_CELLS);
            assert(new[ss * SEGMENT_CELLS + j] == old[ss * SEGMENT_CELLS + j]);
        } else {
            assert(ss * SEGMENT_CELLS + j == old.len() + j);
            assert(new[ss * SEGMENT_CELLS + j] == seg[j]);
        }
    }
}

impl Sha512Circuit {
    /// The preprocessed segment of one block of a message trace.
    fn message_prep_segment(state: &[u64; 8], block: &[u8; 128], last: bool) -> (v: Vec<u32>)
        ensures
            holds_segment(v@, true, last, state@, block_words(block@)),
    {
        let single = Self::build_plonky3_preprocessed_trace_from_instance(state, block);
        let ghost m = block_words(block@);
        let mut v: Vec<u32> = Vec::new();
        for j in 0..SEGMENT_CELLS
            invariant
                single.values@ == instance_prep(state@, m),
                v@.len() == j,
                forall|i: int| 0 <= i < j ==> #[trigger] v@[i] == segment_prep_cell(state@, m, last, i / (AIR_WIDTH as int), i % (AIR_WIDTH as int)),
        {
            let c = j % AIR_WIDTH;
            let x = if c == PREP_FINAL_SELECTOR_COL && !last {
                0
            } else {
                single.values[j]
            };
            v.push(x);
        }
        v
    }

    /// The traces of a message proof over the padded blocks of `message` chained from
    /// `initial_state`.
    pub fn build_message_air_bundle(initial_state: &[u64; 8], message: &[u8]) -> (bundle:
        Sha512MessageAirBundle)
        requires
            2 * (message@.len() + 256) * AIR_WIDTH <= usize::MAX,
        ensures
            ({
                let p = padded(message@);
                let n = (p.len() / 128) as int;
                let segs = bundle.main.values@.len() as int / (SEGMENT_CELLS as int);
                &&& bundle.main.width == AIR_WIDTH
                &&& bundle.preprocessed.width == AIR_WIDTH
                &&& bundle.degree_bits >= 7
                &&& segs == pow2((bundle.degree_bits - 7) as nat)
                &&& n <= segs
                &&& segs == 1 || segs < 2 * n
                &&& holds_message_segments(bundle.main.values@, false, initial_state@, p, n, segs)
                &&& holds_message_segments(bundle.preprocessed.values@, true, initial_state@, p, n, segs)
                &&& bundle.final_state@ == chain(initial_state@, p, n as nat)
                &&& forall|i: int|
                    0 <= i < 8 ==> #[trigger] bundle.final_public_values[i] as int == round_state(
                        block_input(initial_state@, p, n - 1),
                        block_words(block_at(p, n - 1)),
                        80,
                    )[i] as int % BABY_BEAR_P as int
            }),
    {
        let blocks = Self::padded_blocks(message);
        let ghost p = padded(message@);
        proof {
            lemma_padded_len(message@);
        }
        let n = blocks.len();
        let mut segs: usize = 1;
        let mut degree_bits: usize = 7;
        proof {
            vstd::arithmetic::power2::lemma2_to64();
        }
        while segs < n
            invariant
                1 <= n,
                n <= message@.len() + 256,
                2 * (message@.len() + 256) * AIR_WIDTH <= usize::MAX,
                1 <= segs,
                degree_bits >= 7,
                degree_bits <= 7 + segs,
                segs == pow2((degree_bits - 7) as nat),
                segs == 1 || segs < 2 * n,
            decreases 2 * n - segs,
        {
            proof {
                vstd::arithmetic::power2::lemma_pow2_unfold((degree_bits - 6) as nat);
            }
            segs = segs * 2;
            degree_bits = degree_bits + 1;
        }
        let mut state = *initial_state;
        let mut main_values: Vec<u32> = Vec::new();
        let mut prep_values: Vec<u32> = Vec::new();
        let mut last_main: Vec<u32> = Vec::new();
        let mut last_prep: Vec<u32> = Vec::new();
        let mut public_values = [0u32; 8];
        for s in 0..segs
            invariant
                n == blocks@.len(),
                n == p.len() / 128,
                1 <= n,
                segs <= 2 * n,
                n <= message@.len() + 256,
                2 * (message@.len() + 256) * AIR_WIDTH <= usize::MAX,
                forall|j: int| 0 <= j < blocks@.len() ==> (#[trigger] blocks@[j])@ == block_at(p, j),
                state@ == block_input(initial_state@, p, if s < n { s as int } else { n as int }),
                holds_message_segments(main_values@, false, initial_state@, p, n as int, s as int),
                holds_message_segments(prep_values@, true, initial_state@, p, n as int, s as int),
                s >= 1 ==> holds_segment(
                    last_main@,
                    false,
                    segment_block(n as int, s - 1) == n - 1,
                    block_input(initial_state@, p, segment_block(n as int, s - 1)),
                    block_words(block_at(p, segment_block(n as int, s - 1))),
                ),
                s >= 1 ==> holds_segment(
                    last_prep@,
                    true,
                    segment_block(n as int, s - 1) == n - 1,
                    block_input(initial_state@, p, segment_block(n as int, s - 1)),
                    block_words(block_at(p, segment_block(n as int, s - 1))),
                ),
                s >= 1 ==> forall|i: int|
                    0 <= i < 8 ==> #[trigger] public_values[i] as int == round_state(
                        block_input(initial_state@, p, segment_block(n as int, s - 1)),
                        block_words(block_at(p, segment_block(n as int, s - 1))),
                        80,
                    )[i] as int % BABY_BEAR_P as int,
        {
            if s < n {
                let ghost st = state@;
                let ghost m = block_words(blocks@[s as int]@);
                let trace = Self::compress_block(&state, &blocks[s]);
                proof {
                    lemma_compression_trace_view(trace, st, m);
                }
                let main_seg = Self::build_plonky3_air_trace(&trace);
                proof {
                    assert(segment_block(n as int, s as int) == s);
                    assert(st == block_input(initial_state@, p, s as int));
                    assert(m == block_words(block_at(p, s as int)));
                    assert forall|j: int| 0 <= j < SEGMENT_CELLS implies #[trigger] main_seg.values@[j]
                        == segment_main_cell(st, m, j / (AIR_WIDTH as int), j % (AIR_WIDTH as int)) by {
                        lemma_row_major(j);
                        let r = j / (AIR_WIDTH as int);
                        let c = j % (AIR_WIDTH as int);
                        assert(main_seg.values@[r * AIR_WIDTH + c] == trace_cell(trace.words@, rounds_of(trace), r, c));
                        assert(trace_cell(trace.words@, rounds_of(trace), r, c) == segment_main_cell(st, m, r, c));
                    }
                }
                last_main = main_seg.values;
                last_prep = Self::message_prep_segment(&state, &blocks[s], s + 1 == n);
                public_values = state_public_values(&trace.round_states[80]);
                state = trace.output_state;
                assert(chain(initial_state@, p, (s + 1) as nat) == compress(st, block_at(p, s as int)));
            }
            proof {
                if s >= n {
                    assert(segment_block(n as int, s as int) == segment_block(n as int, s - 1));
                }
            }
            let ghost before_main = main_values@;
            let ghost before_prep = prep_values@;
            append_all(&mut main_values, &last_main);
            append_all(&mut prep_values, &last_prep);
            proof {
                lemma_append_segment(before_main, last_main@, false, initial_state@, p, n as int, s as int);
                lemma_append_segment(before_prep, last_prep@, true, initial_state@, p, n as int, s as int);
            }
        }
        Sha512MessageAirBundle {
            main: TraceMatrix { values: main_values, width: AIR_WIDTH },
            preprocessed: TraceMatrix { values: prep_values, width: AIR_WIDTH },
            degree_bits,
            final_state: state,
            final_public_values: public_values,
        }
    }
}

} // verus!
