//! Soundness of the AIR: a main trace that satisfies every constraint against the
//! preprocessed trace of an instance carries the compression of that instance. Its working
//! state on the final round row is the state after the eighty rounds, word for word.
//!
//! The proof first reads the decompositions as integers: in the prime field a cell with
//! x (x - 1) = 0 is a bit, sixteen bits recombine to a limb below 2^16, and each bit of that
//! limb is the bit cell. Every addition then involves limbs and carries small enough that its
//! field equation is an integer equation, and limb by limb it fixes the output limb and the
//! carry. Row by row, the working state, the schedule word and the schedule lags are those of
//! the compression.
use vstd::prelude::*;

use crate::air::columns::{
    spec_bit_group_base, spec_bit_group_word, spec_carry_bit_base, spec_carry_bits,
    spec_carry_col, spec_lag_bit_col, spec_lag_limb_col, spec_limb_col, spec_range_bit_col,
    spec_ranged_word, AIR_WIDTH, BIT_GROUPS, CARRY_A_BASE, CARRY_E_BASE, CARRY_T1_BASE,
    CARRY_T2_BASE, PREP_BLOCK_START_SELECTOR_COL, PREP_FINAL_SELECTOR_COL,
    PREP_INIT_W_SELECTOR_COL, PREP_ROUND_SELECTOR_COL, PREP_TRANSITION_SELECTOR_COL,
    SCHED_CARRY_BASE, TRACE_ROWS, WORD_A, WORD_CH, WORD_D, WORD_E, WORD_H, WORD_K, WORD_MAJ,
    WORD_SIGMA0, WORD_SIGMA1, WORD_T1, WORD_T2, WORD_W,
};
use crate::air::completeness::{
    adder_limb_ok, lemma_adder2, lemma_adder4, lemma_adder5, lemma_field_sum2, lemma_field_sum4,
    lemma_field_sum5, lemma_limb_bit, lemma_limb_decomposition, lemma_limbs_join, lemma_pow2_f,
    lemma_prep_row, lemma_round_limbs, lemma_sigma_bits, lemma_sigma_limb,
};
use crate::air::constraints::{
    add2_limb_ok, add_t1_limb_ok, binding_limb_ok, binding_ok, bit_group_ok, bit_groups_ok,
    bits_packed, bool_ok, carries_ok, carry_bits_ok, carry_in, cv, first_row_ok, gb, lag_bit,
    lag_bit_pair_ok, lag_bits_ok, lag_limb_bits_ok, lag_shift_ok, pow2_f, range_ok, ranges_ok,
    round_limb_ok, round_limb_packed, round_word, round_words_ok, row_ok, schedule_limb_ok,
    schedule_ok, shift_limb_ok, sigma_limb_packed, transition_limb_ok, transition_ok, wl, TWO16,
};
use crate::air::{
    air_accepts, bit_of, block_input, decoded_word, holds_message_segments, instance_prep,
    lemma_limb_bound, limb16, limb_carry, limb_sum, next_row, prep_cell, row_of, segment_block,
    window_ok, SEGMENT_CELLS,
};
use crate::constants::K;
use crate::field::{fadd, fmul, fsub, lemma_bit_constraint, BABY_BEAR_P};
use crate::ops::{
    spec_big_sigma0, spec_big_sigma1, spec_ch, spec_maj, spec_small_sigma0, spec_small_sigma1,
};
use crate::spec::{
    block_at, block_words, round_state, round_step, round_t1, round_t2, schedule_step,
    schedule_word,
};
use vstd::arithmetic::div_mod::{
    lemma_fundamental_div_mod, lemma_fundamental_div_mod_converse, lemma_small_mod,
};
use vstd::arithmetic::power2::{
    lemma2_to64, lemma_pow2_strictly_increases, lemma_pow2_unfold, pow2,
};
use vstd::bits::lemma_u64_shl_is_mul;

verus! {

/// The integer that the bit cells `base .. base + n` recombine to.
pub open spec fn bits_value(row: Seq<u32>, base: int, n: nat) -> int
    decreases n,
{
    if n == 0 {
        0
    } else {
        bits_value(row, base, (n - 1) as nat) + cv(row, base + n - 1) * pow2((n - 1) as nat)
    }
}

/// The cells `base .. base + n` hold bits.
pub open spec fn cells_are_bits(row: Seq<u32>, base: int, n: nat) -> bool {
    forall|i: int| 0 <= i < n ==> #[trigger] cv(row, base + i) == 0 || cv(row, base + i) == 1
}

/// A cell that satisfies the bit constraint holds 0 or 1.
pub proof fn lemma_cell_bit(row: Seq<u32>, c: int)
    requires
        0 <= c < row.len(),
        bool_ok(cv(row, c)),
    ensures
        cv(row, c) == 0 || cv(row, c) == 1,
{
    lemma_bit_constraint(cv(row, c));
}

proof fn lemma_bit_extend(y: u64, b: u64, s: u64, i: u64)
    requires
        s < 16,
        y < (1u64 << s),
        b <= 1,
        i <= s,
    ensures
        y | (b << s) == y + (b << s),
        ((y | (b << s)) >> i) & 1 == if i < s {
            (y >> i) & 1
        } else {
            b
        },
{
    assert(y | (b << s) == y + (b << s) && ((y | (b << s)) >> i) & 1 == if i < s {
        (y >> i) & 1
    } else {
        b
    }) by (bit_vector)
        requires
            s < 16,
            y < (1u64 << s),
            b <= 1,
            i <= s,
    ;
}

/// Bit cells recombine, in the field, to the integer they spell, which is below 2^n and whose
/// bits are the cells.
pub proof fn lemma_bits_value(row: Seq<u32>, base: int, n: nat)
    requires
        0 <= base,
        base + n <= row.len(),
        n <= 16,
        cells_are_bits(row, base, n),
    ensures
        bits_packed(row, base, n) == bits_value(row, base, n),
        0 <= bits_value(row, base, n) < pow2(n),
        forall|i: int| 0 <= i < n ==> #[trigger] bit_of(bits_value(row, base, n) as u64, i) as int == cv(row, base + i),
    decreases n,
{
    lemma2_to64();
    if n > 0 {
        let s = (n - 1) as nat;
        lemma_bits_value(row, base, s);
        let y = bits_value(row, base, s);
        let b = cv(row, base + s);
        assert(b == 0 || b == 1);
        let p = BABY_BEAR_P as int;
        lemma_pow2_f(s);
        lemma_pow2_strictly_increases(s, 16);
        lemma_pow2_unfold(n);
        lemma_small_mod(pow2(s), p as nat);
        assert(pow2_f(s) == pow2(s));
        assert(b * pow2(s) == if b == 0 { 0 } else { pow2(s) as int });
        lemma_small_mod((b * pow2(s)) as nat, p as nat);
        assert(fmul(b, pow2_f(s)) == b * pow2(s));
        lemma_small_mod((y + b * pow2(s)) as nat, p as nat);
        assert(bits_packed(row, base, n) == fadd(bits_packed(row, base, s), fmul(b, pow2_f(s))));
        let yu = y as u64;
        let bu = b as u64;
        let su = s as u64;
        lemma_u64_shl_is_mul(1u64, su);
        lemma_u64_shl_is_mul(bu, su);
        assert forall|i: int| 0 <= i < n implies #[trigger] bit_of(bits_value(row, base, n) as u64, i) as int == cv(row, base + i) by {
            lemma_bit_extend(yu, bu, su, i as u64);
            if i < s {
                assert(bit_of(yu, i) as int == cv(row, base + i));
            }
        }
    }
}

/// Sixteen cells that satisfy the bit constraint recombine to a value below 2^16.
pub proof fn lemma_packed16_bound(row: Seq<u32>, base: int, n: nat)
    requires
        0 <= base,
        base + n <= row.len(),
        n <= 16,
        forall|j: int| 0 <= j < n ==> #[trigger] bool_ok(cv(row, base + j)),
    ensures
        0 <= bits_packed(row, base, n) < pow2(n),
        bits_packed(row, base, n) == bits_value(row, base, n),
        forall|i: int| 0 <= i < n ==> #[trigger] bit_of(bits_value(row, base, n) as u64, i) as int == cv(row, base + i),
{
    assert forall|j: int| 0 <= j < n implies #[trigger] cv(row, base + j) == 0 || cv(row, base + j) == 1 by {
        assert(bool_ok(cv(row, base + j)));
        lemma_cell_bit(row, base + j);
    }
    lemma_bits_value(row, base, n);
}

/// Sixteen bit cells that recombine to limb `k` of `x` are the bits of that limb.
pub proof fn lemma_limb_cells(row: Seq<u32>, base: int, x: u64, k: int)
    requires
        0 <= base,
        base + 16 <= row.len(),
        0 <= k < 4,
        forall|j: int| 0 <= j < 16 ==> #[trigger] bool_ok(cv(row, base + j)),
        bits_packed(row, base, 16) == limb16(x, k) as int,
    ensures
        forall|j: int| 0 <= j < 16 ==> #[trigger] cv(row, base + j) == bit_of(x, 16 * k + j) as int,
{
    lemma_packed16_bound(row, base, 16);
    assert forall|j: int| 0 <= j < 16 implies #[trigger] cv(row, base + j) == bit_of(x, 16 * k + j) as int by {
        assert(bits_value(row, base, 16) as u64 == limb16(x, k));
        assert(bit_of(limb16(x, k), j) as int == cv(row, base + j));
        lemma_limb_bit(x, k as u64, j as u64);
    }
}

/// A bit group whose word has the limbs of `x` holds the bits of `x`.
pub proof fn lemma_group_bits(local: Seq<u32>, g: int, x: u64)
    requires
        local.len() == AIR_WIDTH,
        0 <= g < BIT_GROUPS,
        bit_group_ok(local, g),
        forall|k: int| 0 <= k < 4 ==> #[trigger] wl(local, spec_bit_group_word(g), k) == limb16(x, k) as int,
    ensures
        forall|i: int| 0 <= i < 64 ==> #[trigger] gb(local, g, i) == bit_of(x, i) as int,
{
    let base = spec_bit_group_base(g);
    assert forall|i: int| 0 <= i < 64 implies #[trigger] gb(local, g, i) == bit_of(x, i) as int by {
        let k = i / 16;
        let j = i % 16;
        let bk = base + 16 * k;
        assert forall|t: int| 0 <= t < 16 implies #[trigger] bool_ok(cv(local, bk + t)) by {
            assert(bool_ok(gb(local, g, 16 * k + t)));
        }
        assert(wl(local, spec_bit_group_word(g), k) == limb16(x, k) as int);
        lemma_limb_cells(local, bk, x, k);
        assert(cv(local, bk + j) == bit_of(x, 16 * k + j) as int);
    }
}

/// The limbs of a bit-decomposed word are below 2^16.
pub proof fn lemma_group_bound(local: Seq<u32>, g: int)
    requires
        local.len() == AIR_WIDTH,
        0 <= g < BIT_GROUPS,
        bit_group_ok(local, g),
    ensures
        forall|k: int| 0 <= k < 4 ==> 0 <= #[trigger] wl(local, spec_bit_group_word(g), k) <= 0xffff,
{
    lemma2_to64();
    assert forall|k: int| 0 <= k < 4 implies 0 <= #[trigger] wl(local, spec_bit_group_word(g), k) <= 0xffff by {
        let bk = spec_bit_group_base(g) + 16 * k;
        assert forall|t: int| 0 <= t < 16 implies #[trigger] bool_ok(cv(local, bk + t)) by {
            assert(bool_ok(gb(local, g, 16 * k + t)));
        }
        lemma_packed16_bound(local, bk, 16);
    }
}

/// Lags 1 and 14, when their limbs are those of `l1` and `l14`, hold the bits of those words.
pub proof fn lemma_lag_bits(local: Seq<u32>, l1: u64, l14: u64)
    requires
        local.len() == AIR_WIDTH,
        lag_bits_ok(local),
        forall|k: int| 0 <= k < 4 ==> #[trigger] cv(local, spec_lag_limb_col(1, k)) == limb16(l1, k) as int,
        forall|k: int| 0 <= k < 4 ==> #[trigger] cv(local, spec_lag_limb_col(14, k)) == limb16(l14, k) as int,
    ensures
        forall|i: int| 0 <= i < 64 ==> #[trigger] lag_bit(local, true, i) == bit_of(l1, i) as int,
        forall|i: int| 0 <= i < 64 ==> #[trigger] lag_bit(local, false, i) == bit_of(l14, i) as int,
{
    assert forall|i: int| 0 <= i < 64 implies #[trigger] lag_bit(local, true, i) == bit_of(l1, i) as int by {
        let k = i / 16;
        let j = i % 16;
        let b1 = spec_lag_bit_col(true, 16 * k);
        assert forall|t: int| 0 <= t < 16 implies #[trigger] bool_ok(cv(local, b1 + t)) by {
            assert(lag_bit_pair_ok(local, 16 * k + t));
        }
        assert(lag_limb_bits_ok(local, k));
        assert(cv(local, spec_lag_limb_col(1, k)) == limb16(l1, k) as int);
        lemma_limb_cells(local, b1, l1, k);
        assert(cv(local, b1 + j) == bit_of(l1, 16 * k + j) as int);
    }
    assert forall|i: int| 0 <= i < 64 implies #[trigger] lag_bit(local, false, i) == bit_of(l14, i) as int by {
        let k = i / 16;
        let j = i % 16;
        let b14 = spec_lag_bit_col(false, 16 * k);
        assert forall|t: int| 0 <= t < 16 implies #[trigger] bool_ok(cv(local, b14 + t)) by {
            assert(lag_bit_pair_ok(local, 16 * k + t));
        }
        assert(lag_limb_bits_ok(local, k));
        assert(cv(local, spec_lag_limb_col(14, k)) == limb16(l14, k) as int);
        lemma_limb_cells(local, b14, l14, k);
        assert(cv(local, b14 + j) == bit_of(l14, 16 * k + j) as int);
    }
}

/// The limbs of d, h, W, K, T1 and T2 (range group `i`) are below 2^16.
pub proof fn lemma_range_bound(local: Seq<u32>, i: int, k: int)
    requires
        local.len() == AIR_WIDTH,
        ranges_ok(local),
        0 <= i < 6,
        0 <= k < 4,
    ensures
        0 <= wl(local, spec_ranged_word(i), k) <= 0xffff,
{
    lemma2_to64();
    let s = 4 * i + k;
    assert(range_ok(local, s));
    assert(s / 4 == i && s % 4 == k);
    let base = spec_range_bit_col(s, 0);
    assert forall|t: int| 0 <= t < 16 implies #[trigger] bool_ok(cv(local, base + t)) by {
        assert(bool_ok(cv(local, spec_range_bit_col(s, t))));
    }
    lemma_packed16_bound(local, base, 16);
}

/// Carry `j` is at most 7 for T1, 1 for T2, A and E, 3 for the schedule.
pub proof fn lemma_carry_bound(local: Seq<u32>, j: int)
    requires
        local.len() == AIR_WIDTH,
        carries_ok(local),
        0 <= j < 20,
    ensures
        0 <= cv(local, spec_carry_col(j)) <= if j < 4 {
            7int
        } else if j < 16 {
            1int
        } else {
            3int
        },
{
    lemma2_to64();
    assert(carry_bits_ok(local, j));
    let base = spec_carry_bit_base(j);
    let n = spec_carry_bits(j) as nat;
    assert forall|t: int| 0 <= t < n implies #[trigger] bool_ok(cv(local, base + t)) by {
        assert(bool_ok(cv(local, spec_carry_bit_base(j) + t)));
    }
    lemma_packed16_bound(local, base, n);
}

/// A limb below 2^16 plus a small carry times 2^16 does not wrap in the field, so the pair is
/// determined by its field value.
proof fn lemma_out_unique(out: int, cout: int, l: int, h: int)
    requires
        0 <= out <= 0xffff,
        0 <= cout <= 7,
        0 <= l <= 0xffff,
        0 <= h <= 7,
        fadd(out, fmul(cout, TWO16 as int)) == fadd(l, fmul(h, TWO16 as int)),
    ensures
        out == l,
        cout == h,
{
    let p = BABY_BEAR_P as int;
    lemma_small_mod((cout * 0x10000) as nat, p as nat);
    lemma_small_mod((h * 0x10000) as nat, p as nat);
    lemma_small_mod((out + cout * 0x10000) as nat, p as nat);
    lemma_small_mod((l + h * 0x10000) as nat, p as nat);
}

/// The carry into limb `k` of the honest limb-wise addition of `ops`.
pub open spec fn honest_carry_in(ops: Seq<u64>, k: int) -> int {
    if k == 0 {
        0
    } else {
        limb_carry(ops, (k - 1) as nat)
    }
}

proof fn lemma_t1_limb(local: Seq<u32>, ops: Seq<u64>, k: int)
    requires
        local.len() == AIR_WIDTH,
        ops.len() == 5,
        0 <= k < 4,
        add_t1_limb_ok(local, k),
        wl(local, WORD_H as int, k) == limb16(ops[0], k) as int,
        wl(local, WORD_SIGMA1 as int, k) == limb16(ops[1], k) as int,
        wl(local, WORD_CH as int, k) == limb16(ops[2], k) as int,
        wl(local, WORD_K as int, k) == limb16(ops[3], k) as int,
        wl(local, WORD_W as int, k) == limb16(ops[4], k) as int,
        0 <= wl(local, WORD_T1 as int, k) <= 0xffff,
        0 <= cv(local, CARRY_T1_BASE + k) <= 7,
        carry_in(local, CARRY_T1_BASE as int, k) == honest_carry_in(ops, k),
    ensures
        ({
            let o = ops[0].wrapping_add(ops[1]).wrapping_add(ops[2]).wrapping_add(ops[3]).wrapping_add(ops[4]);
            &&& wl(local, WORD_T1 as int, k) == limb16(o, k) as int
            &&& cv(local, CARRY_T1_BASE + k) == limb_carry(ops, k as nat)
        }),
{
    let o = ops[0].wrapping_add(ops[1]).wrapping_add(ops[2]).wrapping_add(ops[3]).wrapping_add(ops[4]);
    assert(ops =~= seq![ops[0], ops[1], ops[2], ops[3], ops[4]]);
    lemma_adder5(ops, ops[0], ops[1], ops[2], ops[3], ops[4]);
    assert(adder_limb_ok(ops, o, k));
    if k > 0 {
        assert(adder_limb_ok(ops, o, k - 1));
    }
    assert(limb_sum(ops, k, 5) == limb16(ops[0], k) + limb16(ops[1], k) + limb16(ops[2], k) + limb16(ops[3], k) + limb16(ops[4], k)) by {
        reveal_with_fuel(limb_sum, 6);
    }
    lemma_limb_bound(ops[0], (16 * k) as u64);
    lemma_limb_bound(ops[1], (16 * k) as u64);
    lemma_limb_bound(ops[2], (16 * k) as u64);
    lemma_limb_bound(ops[3], (16 * k) as u64);
    lemma_limb_bound(ops[4], (16 * k) as u64);
    lemma_limb_bound(o, (16 * k) as u64);
    lemma_field_sum5(
        limb16(ops[0], k) as int,
        limb16(ops[1], k) as int,
        limb16(ops[2], k) as int,
        limb16(ops[3], k) as int,
        limb16(ops[4], k) as int,
        honest_carry_in(ops, k),
        limb16(o, k) as int,
        limb_carry(ops, k as nat),
    );
    lemma_out_unique(
        wl(local, WORD_T1 as int, k),
        cv(local, CARRY_T1_BASE + k),
        limb16(o, k) as int,
        limb_carry(ops, k as nat),
    );
}

/// T1 = h + Σ1 + Ch + K + W: when the operand limbs are those of `ops`, the T1 limbs are
/// those of the wrapped sum.
pub proof fn lemma_t1_sound(local: Seq<u32>, ops: Seq<u64>)
    requires
        local.len() == AIR_WIDTH,
        ops.len() == 5,
        forall|k: int| 0 <= k < 4 ==> #[trigger] add_t1_limb_ok(local, k),
        forall|k: int| 0 <= k < 4 ==> #[trigger] wl(local, WORD_H as int, k) == limb16(ops[0], k) as int,
        forall|k: int| 0 <= k < 4 ==> #[trigger] wl(local, WORD_SIGMA1 as int, k) == limb16(ops[1], k) as int,
        forall|k: int| 0 <= k < 4 ==> #[trigger] wl(local, WORD_CH as int, k) == limb16(ops[2], k) as int,
        forall|k: int| 0 <= k < 4 ==> #[trigger] wl(local, WORD_K as int, k) == limb16(ops[3], k) as int,
        forall|k: int| 0 <= k < 4 ==> #[trigger] wl(local, WORD_W as int, k) == limb16(ops[4], k) as int,
        forall|k: int| 0 <= k < 4 ==> 0 <= #[trigger] wl(local, WORD_T1 as int, k) <= 0xffff,
        forall|k: int| 0 <= k < 4 ==> 0 <= #[trigger] cv(local, CARRY_T1_BASE + k) <= 7,
    ensures
        forall|k: int| 0 <= k < 4 ==> #[trigger] wl(local, WORD_T1 as int, k) == limb16(
            ops[0].wrapping_add(ops[1]).wrapping_add(ops[2]).wrapping_add(ops[3]).wrapping_add(ops[4]),
            k,
        ) as int,
{
    assert(wl(local, WORD_T1 as int, 0) <= 0xffff && cv(local, CARRY_T1_BASE + 0) <= 7);
    lemma_t1_limb(local, ops, 0);
    assert(wl(local, WORD_T1 as int, 1) <= 0xffff && cv(local, CARRY_T1_BASE + 1) <= 7);
    lemma_t1_limb(local, ops, 1);
    assert(wl(local, WORD_T1 as int, 2) <= 0xffff && cv(local, CARRY_T1_BASE + 2) <= 7);
    lemma_t1_limb(local, ops, 2);
    assert(wl(local, WORD_T1 as int, 3) <= 0xffff && cv(local, CARRY_T1_BASE + 3) <= 7);
    lemma_t1_limb(local, ops, 3);
}

proof fn lemma_add2_limb(local: Seq<u32>, out_row: Seq<u32>, lhs: int, rhs: int, out: int, base: int, ops: Seq<u64>, k: int)
    requires
        ops.len() == 2,
        0 <= k < 4,
        add2_limb_ok(local, out_row, lhs, rhs, out, base, k),
        wl(local, lhs, k) == limb16(ops[0], k) as int,
        wl(local, rhs, k) == limb16(ops[1], k) as int,
        0 <= wl(out_row, out, k) <= 0xffff,
        0 <= cv(local, base + k) <= 7,
        carry_in(local, base, k) == honest_carry_in(ops, k),
    ensures
        wl(out_row, out, k) == limb16(ops[0].wrapping_add(ops[1]), k) as int,
        cv(local, base + k) == limb_carry(ops, k as nat),
{
    let o = ops[0].wrapping_add(ops[1]);
    assert(ops =~= seq![ops[0], ops[1]]);
    lemma_adder2(ops, ops[0], ops[1]);
    assert(adder_limb_ok(ops, o, k));
    if k > 0 {
        assert(adder_limb_ok(ops, o, k - 1));
    }
    assert(limb_sum(ops, k, 2) == limb16(ops[0], k) + limb16(ops[1], k)) by {
        reveal_with_fuel(limb_sum, 3);
    }
    lemma_limb_bound(ops[0], (16 * k) as u64);
    lemma_limb_bound(ops[1], (16 * k) as u64);
    lemma_limb_bound(o, (16 * k) as u64);
    lemma_field_sum2(
        limb16(ops[0], k) as int,
        limb16(ops[1], k) as int,
        honest_carry_in(ops, k),
        limb16(o, k) as int,
        limb_carry(ops, k as nat),
    );
    lemma_out_unique(wl(out_row, out, k), cv(local, base + k), limb16(o, k) as int, limb_carry(ops, k as nat));
}

/// A two-operand limb-wise addition: when the operand limbs are those of `x` and `y`, the
/// output limbs are those of the wrapped sum.
pub proof fn lemma_add2_sound(local: Seq<u32>, out_row: Seq<u32>, lhs: int, rhs: int, out: int, base: int, x: u64, y: u64)
    requires
        forall|k: int| 0 <= k < 4 ==> #[trigger] add2_limb_ok(local, out_row, lhs, rhs, out, base, k),
        forall|k: int| 0 <= k < 4 ==> #[trigger] wl(local, lhs, k) == limb16(x, k) as int,
        forall|k: int| 0 <= k < 4 ==> #[trigger] wl(local, rhs, k) == limb16(y, k) as int,
        forall|k: int| 0 <= k < 4 ==> 0 <= #[trigger] wl(out_row, out, k) <= 0xffff,
        forall|k: int| 0 <= k < 4 ==> 0 <= #[trigger] cv(local, base + k) <= 7,
    ensures
        forall|k: int| 0 <= k < 4 ==> #[trigger] wl(out_row, out, k) == limb16(x.wrapping_add(y), k) as int,
{
    let ops = seq![x, y];
    assert(wl(out_row, out, 0) <= 0xffff && cv(local, base + 0) <= 7);
    assert(wl(local, lhs, 0) == limb16(x, 0) && wl(local, rhs, 0) == limb16(y, 0));
    lemma_add2_limb(local, out_row, lhs, rhs, out, base, ops, 0);
    assert(wl(out_row, out, 1) <= 0xffff && cv(local, base + 1) <= 7);
    assert(wl(local, lhs, 1) == limb16(x, 1) && wl(local, rhs, 1) == limb16(y, 1));
    lemma_add2_limb(local, out_row, lhs, rhs, out, base, ops, 1);
    assert(wl(out_row, out, 2) <= 0xffff && cv(local, base + 2) <= 7);
    assert(wl(local, lhs, 2) == limb16(x, 2) && wl(local, rhs, 2) == limb16(y, 2));
    lemma_add2_limb(local, out_row, lhs, rhs, out, base, ops, 2);
    assert(wl(out_row, out, 3) <= 0xffff && cv(local, base + 3) <= 7);
    assert(wl(local, lhs, 3) == limb16(x, 3) && wl(local, rhs, 3) == limb16(y, 3));
    lemma_add2_limb(local, out_row, lhs, rhs, out, base, ops, 3);
}

proof fn lemma_schedule_limb(local: Seq<u32>, ops: Seq<u64>, k: int)
    requires
        ops.len() == 4,
        0 <= k < 4,
        schedule_limb_ok(local, k),
        sigma_limb_packed(local, true, k, 16) == limb16(ops[0], k) as int,
        cv(local, spec_lag_limb_col(6, k)) == limb16(ops[1], k) as int,
        sigma_limb_packed(local, false, k, 16) == limb16(ops[2], k) as int,
        cv(local, spec_lag_limb_col(15, k)) == limb16(ops[3], k) as int,
        0 <= wl(local, WORD_W as int, k) <= 0xffff,
        0 <= cv(local, SCHED_CARRY_BASE + k) <= 7,
        carry_in(local, SCHED_CARRY_BASE as int, k) == honest_carry_in(ops, k),
    ensures
        wl(local, WORD_W as int, k) == limb16(ops[0].wrapping_add(ops[1]).wrapping_add(ops[2]).wrapping_add(ops[3]), k) as int,
        cv(local, SCHED_CARRY_BASE + k) == limb_carry(ops, k as nat),
{
    let o = ops[0].wrapping_add(ops[1]).wrapping_add(ops[2]).wrapping_add(ops[3]);
    assert(ops =~= seq![ops[0], ops[1], ops[2], ops[3]]);
    lemma_adder4(ops, ops[0], ops[1], ops[2], ops[3]);
    assert(adder_limb_ok(ops, o, k));
    if k > 0 {
        assert(adder_limb_ok(ops, o, k - 1));
    }
    assert(limb_sum(ops, k, 4) == limb16(ops[0], k) + limb16(ops[1], k) + limb16(ops[2], k) + limb16(ops[3], k)) by {
        reveal_with_fuel(limb_sum, 5);
    }
    lemma_limb_bound(ops[0], (16 * k) as u64);
    lemma_limb_bound(ops[1], (16 * k) as u64);
    lemma_limb_bound(ops[2], (16 * k) as u64);
    lemma_limb_bound(ops[3], (16 * k) as u64);
    lemma_limb_bound(o, (16 * k) as u64);
    lemma_field_sum4(
        limb16(ops[0], k) as int,
        limb16(ops[1], k) as int,
        limb16(ops[2], k) as int,
        limb16(ops[3], k) as int,
        honest_carry_in(ops, k),
        limb16(o, k) as int,
        limb_carry(ops, k as nat),
    );
    lemma_out_unique(
        wl(local, WORD_W as int, k),
        cv(local, SCHED_CARRY_BASE + k),
        limb16(o, k) as int,
        limb_carry(ops, k as nat),
    );
}

/// The schedule recurrence: when σ1 of lag 1, lag 6, σ0 of lag 14 and lag 15 have the limbs of
/// `ops`, the W limbs are those of their wrapped sum.
pub proof fn lemma_schedule_sound(local: Seq<u32>, ops: Seq<u64>)
    requires
        ops.len() == 4,
        forall|k: int| 0 <= k < 4 ==> #[trigger] schedule_limb_ok(local, k),
        forall|k: int| 0 <= k < 4 ==> #[trigger] sigma_limb_packed(local, true, k, 16) == limb16(ops[0], k) as int,
        forall|k: int| 0 <= k < 4 ==> #[trigger] cv(local, spec_lag_limb_col(6, k)) == limb16(ops[1], k) as int,
        forall|k: int| 0 <= k < 4 ==> #[trigger] sigma_limb_packed(local, false, k, 16) == limb16(ops[2], k) as int,
        forall|k: int| 0 <= k < 4 ==> #[trigger] cv(local, spec_lag_limb_col(15, k)) == limb16(ops[3], k) as int,
        forall|k: int| 0 <= k < 4 ==> 0 <= #[trigger] wl(local, WORD_W as int, k) <= 0xffff,
        forall|k: int| 0 <= k < 4 ==> 0 <= #[trigger] cv(local, SCHED_CARRY_BASE + k) <= 7,
    ensures
        forall|k: int| 0 <= k < 4 ==> #[trigger] wl(local, WORD_W as int, k) == limb16(
            ops[0].wrapping_add(ops[1]).wrapping_add(ops[2]).wrapping_add(ops[3]),
            k,
        ) as int,
{
    assert(wl(local, WORD_W as int, 0) <= 0xffff && cv(local, SCHED_CARRY_BASE + 0) <= 7);
    assert(cv(local, spec_lag_limb_col(6, 0)) == limb16(ops[1], 0) && cv(local, spec_lag_limb_col(15, 0)) == limb16(ops[3], 0));
    lemma_schedule_limb(local, ops, 0);
    assert(wl(local, WORD_W as int, 1) <= 0xffff && cv(local, SCHED_CARRY_BASE + 1) <= 7);
    assert(cv(local, spec_lag_limb_col(6, 1)) == limb16(ops[1], 1) && cv(local, spec_lag_limb_col(15, 1)) == limb16(ops[3], 1));
    lemma_schedule_limb(local, ops, 1);
    assert(wl(local, WORD_W as int, 2) <= 0xffff && cv(local, SCHED_CARRY_BASE + 2) <= 7);
    assert(cv(local, spec_lag_limb_col(6, 2)) == limb16(ops[1], 2) && cv(local, spec_lag_limb_col(15, 2)) == limb16(ops[3], 2));
    lemma_schedule_limb(local, ops, 2);
    assert(wl(local, WORD_W as int, 3) <= 0xffff && cv(local, SCHED_CARRY_BASE + 3) <= 7);
    assert(cv(local, spec_lag_limb_col(6, 3)) == limb16(ops[1], 3) && cv(local, spec_lag_limb_col(15, 3)) == limb16(ops[3], 3));
    lemma_schedule_limb(local, ops, 3);
}

/// The limbs of word `w` of a row are those of `x`.
pub open spec fn word_is(row: Seq<u32>, w: int, x: u64) -> bool {
    forall|k: int| 0 <= k < 4 ==> #[trigger] wl(row, w, k) == limb16(x, k) as int
}

/// The limbs of lag `l` of a row are those of `x`.
pub open spec fn lag_is(row: Seq<u32>, l: int, x: u64) -> bool {
    forall|k: int| 0 <= k < 4 ==> #[trigger] cv(row, spec_lag_limb_col(l, k)) == limb16(x, k) as int
}

/// Row `r` of a trace carries the compression of `m` from `state`: its working state a..h is
/// the state after `r` rounds, and each of its lags that precedes row `r` is the schedule word
/// it stands for.
pub open spec fn row_carries_compression(row: Seq<u32>, state: Seq<u64>, m: Seq<u64>, r: int) -> bool {
    &&& forall|w: int| 0 <= w < 8 ==> #[trigger] word_is(row, w, round_state(state, m, r as nat)[w])
    &&& forall|l: int| 0 <= l < 16 && l < r ==> #[trigger] lag_is(row, l, schedule_word(m, (r - 1 - l) as nat))
}

/// A preprocessed trace agrees with that of the instance `(state, m)` on every cell but,
/// possibly, the final selector (which a message trace clears outside its last block).
pub open spec fn prep_agrees(prep: Seq<u32>, state: Seq<u64>, m: Seq<u64>) -> bool {
    &&& prep.len() >= TRACE_ROWS * AIR_WIDTH
    &&& forall|r: int, c: int|
        0 <= r < TRACE_ROWS && 0 <= c < AIR_WIDTH && c != PREP_FINAL_SELECTOR_COL ==> #[trigger] row_of(prep, r)[c]
            == prep_cell(state, m, r, c)
}

/// The preprocessed trace of an instance agrees with it.
proof fn lemma_instance_prep_agrees(state: Seq<u64>, m: Seq<u64>)
    ensures
        prep_agrees(instance_prep(state, m), state, m),
{
    assert forall|r: int, c: int|
        0 <= r < TRACE_ROWS && 0 <= c < AIR_WIDTH && c != PREP_FINAL_SELECTOR_COL implies #[trigger] row_of(instance_prep(state, m), r)[c]
            == prep_cell(state, m, r, c) by {
        lemma_prep_row(state, m, r);
    }
}

/// The preprocessed row of round `r`: its selectors, and the initial state, W and K limbs.
proof fn lemma_prep_facts(all: Seq<u32>, state: Seq<u64>, m: Seq<u64>, r: int)
    requires
        prep_agrees(all, state, m),
        0 <= r < 80,
    ensures
        ({
            let prep = row_of(all, r);
            &&& prep.len() == AIR_WIDTH
            &&& cv(prep, PREP_BLOCK_START_SELECTOR_COL as int) == if r == 0 { 1int } else { 0int }
            &&& cv(prep, PREP_TRANSITION_SELECTOR_COL as int) == 1
            &&& cv(prep, PREP_ROUND_SELECTOR_COL as int) == 1
            &&& cv(prep, PREP_INIT_W_SELECTOR_COL as int) == if r < 16 { 1int } else { 0int }
            &&& word_is(prep, WORD_W as int, schedule_word(m, r as nat))
            &&& word_is(prep, WORD_K as int, K[r])
            &&& r == 0 ==> forall|w: int| 0 <= w < 8 ==> #[trigger] word_is(prep, w, state[w])
        }),
{
    let prep = row_of(all, r);
    let p = BABY_BEAR_P as int;
    assert(r * AIR_WIDTH + AIR_WIDTH <= TRACE_ROWS * AIR_WIDTH);
    assert(prep[PREP_BLOCK_START_SELECTOR_COL as int] == prep_cell(state, m, r, PREP_BLOCK_START_SELECTOR_COL as int));
    assert(prep[PREP_TRANSITION_SELECTOR_COL as int] == prep_cell(state, m, r, PREP_TRANSITION_SELECTOR_COL as int));
    assert(prep[PREP_ROUND_SELECTOR_COL as int] == prep_cell(state, m, r, PREP_ROUND_SELECTOR_COL as int));
    assert(prep[PREP_INIT_W_SELECTOR_COL as int] == prep_cell(state, m, r, PREP_INIT_W_SELECTOR_COL as int));
    assert forall|k: int| 0 <= k < 4 implies #[trigger] wl(prep, WORD_W as int, k) == limb16(schedule_word(m, r as nat), k) as int by {
        let c = spec_limb_col(WORD_W as int, k);
        assert(prep[c] == prep_cell(state, m, r, c));
        lemma_limb_bound(schedule_word(m, r as nat), (16 * k) as u64);
        lemma_small_mod(limb16(schedule_word(m, r as nat), k) as nat, p as nat);
    }
    assert forall|k: int| 0 <= k < 4 implies #[trigger] wl(prep, WORD_K as int, k) == limb16(K[r], k) as int by {
        let c = spec_limb_col(WORD_K as int, k);
        assert(prep[c] == prep_cell(state, m, r, c));
        lemma_limb_bound(K[r], (16 * k) as u64);
        lemma_small_mod(limb16(K[r], k) as nat, p as nat);
    }
    if r == 0 {
        assert forall|w: int| 0 <= w < 8 implies #[trigger] word_is(prep, w, state[w]) by {
            assert forall|k: int| 0 <= k < 4 implies #[trigger] wl(prep, w, k) == limb16(state[w], k) as int by {
                let c = spec_limb_col(w, k);
                assert(c / 4 == w && c % 4 == k);
                assert(prep[c] == prep_cell(state, m, r, c));
                lemma_limb_bound(state[w], (16 * k) as u64);
                lemma_small_mod(limb16(state[w], k) as nat, p as nat);
            }
        }
    }
}

/// A selected equality `1 * (a - b) = 0` between canonical values is an equality.
proof fn lemma_selected_equal(a: int, b: int)
    requires
        0 <= a < BABY_BEAR_P,
        0 <= b < BABY_BEAR_P,
        fmul(1, fsub(a, b)) == 0,
    ensures
        a == b,
{
    let p = BABY_BEAR_P as int;
    lemma_small_mod(fsub(a, b) as nat, p as nat);
    lemma_fundamental_div_mod(a - b, p);
}

/// The K and W limbs of round row `r` are those of K[r] and of the schedule word W[r].
#[verifier::spinoff_prover]
proof fn lemma_row_w(local: Seq<u32>, prep: Seq<u32>, state: Seq<u64>, m: Seq<u64>, r: int)
    requires
        local.len() == AIR_WIDTH,
        prep.len() == AIR_WIDTH,
        0 <= r < 80,
        binding_ok(local, prep),
        ranges_ok(local),
        carries_ok(local),
        lag_bits_ok(local),
        cv(prep, PREP_ROUND_SELECTOR_COL as int) == 1,
        cv(prep, PREP_INIT_W_SELECTOR_COL as int) == if r < 16 { 1int } else { 0int },
        fsub(cv(prep, PREP_ROUND_SELECTOR_COL as int), cv(prep, PREP_INIT_W_SELECTOR_COL as int)) == 0 || schedule_ok(local),
        word_is(prep, WORD_W as int, schedule_word(m, r as nat)),
        word_is(prep, WORD_K as int, K[r]),
        forall|l: int| 0 <= l < 16 && l < r ==> #[trigger] lag_is(local, l, schedule_word(m, (r - 1 - l) as nat)),
    ensures
        word_is(local, WORD_W as int, schedule_word(m, r as nat)),
        word_is(local, WORD_K as int, K[r]),
{
    let p = BABY_BEAR_P as int;
    let w = schedule_word(m, r as nat);
    assert forall|k: int| 0 <= k < 4 implies #[trigger] wl(local, WORD_K as int, k) == limb16(K[r], k) as int by {
        assert(binding_limb_ok(local, prep, k));
    }
    if r < 16 {
        assert forall|k: int| 0 <= k < 4 implies #[trigger] wl(local, WORD_W as int, k) == limb16(w, k) as int by {
            assert(binding_limb_ok(local, prep, k));
            assert(wl(prep, WORD_W as int, k) == limb16(w, k) as int);
            lemma_limb_bound(w, (16 * k) as u64);
            lemma_selected_equal(wl(local, WORD_W as int, k), wl(prep, WORD_W as int, k));
        }
    } else {
        assert(fsub(1, 0) == 1);
        assert(schedule_ok(local));
        let w2 = schedule_word(m, (r - 1 - 1) as nat);
        let w7 = schedule_word(m, (r - 1 - 6) as nat);
        let w15 = schedule_word(m, (r - 1 - 14) as nat);
        let w16 = schedule_word(m, (r - 1 - 15) as nat);
        assert(lag_is(local, 1, w2));
        assert(lag_is(local, 6, w7));
        assert(lag_is(local, 14, w15));
        assert(lag_is(local, 15, w16));
        lemma_lag_bits(local, w2, w15);
        lemma_sigma_bits(local, w2, w15);
        let ops = seq![spec_small_sigma1(w2), w7, spec_small_sigma0(w15), w16];
        assert forall|k: int| 0 <= k < 4 implies #[trigger] sigma_limb_packed(local, true, k, 16) == limb16(ops[0], k) as int by {
            lemma_sigma_limb(local, true, k, spec_small_sigma1(w2));
        }
        assert forall|k: int| 0 <= k < 4 implies #[trigger] sigma_limb_packed(local, false, k, 16) == limb16(ops[2], k) as int by {
            lemma_sigma_limb(local, false, k, spec_small_sigma0(w15));
        }
        assert forall|k: int| 0 <= k < 4 implies 0 <= #[trigger] wl(local, WORD_W as int, k) <= 0xffff by {
            lemma_range_bound(local, 2, k);
        }
        assert forall|k: int| 0 <= k < 4 implies 0 <= #[trigger] cv(local, SCHED_CARRY_BASE + k) <= 7 by {
            lemma_carry_bound(local, 16 + k);
        }
        assert forall|k: int| 0 <= k < 4 implies #[trigger] schedule_limb_ok(local, k) by {
            assert(schedule_limb_ok(local, k));
        }
        lemma_schedule_sound(local, ops);
        assert(w == schedule_step(w2, w7, w15, w16));
    }
}

/// On a round row whose working state has the limbs of `st`, the Σ0, Σ1, Ch and Maj limbs are
/// those of the round functions of `st`.
#[verifier::spinoff_prover]
proof fn lemma_row_round_words(local: Seq<u32>, st: Seq<u64>)
    requires
        local.len() == AIR_WIDTH,
        bit_groups_ok(local),
        round_words_ok(local),
        forall|w: int| 0 <= w < 8 ==> #[trigger] word_is(local, w, st[w]),
    ensures
        word_is(local, WORD_SIGMA0 as int, spec_big_sigma0(st[0])),
        word_is(local, WORD_SIGMA1 as int, spec_big_sigma1(st[4])),
        word_is(local, WORD_CH as int, spec_ch(st[4], st[5], st[6])),
        word_is(local, WORD_MAJ as int, spec_maj(st[0], st[1], st[2])),
{
    let words = seq![
        st[0], st[1], st[2], st[3], st[4], st[5], st[6], st[7], 0u64, 0u64,
        spec_big_sigma0(st[0]), spec_big_sigma1(st[4]), spec_ch(st[4], st[5], st[6]),
        spec_maj(st[0], st[1], st[2]), 0u64, 0u64,
    ];
    assert forall|g: int, i: int| 0 <= g < BIT_GROUPS && 0 <= i < 64 implies #[trigger] gb(local, g, i) == bit_of(words[spec_bit_group_word(g)], i) as int by {
        let w = spec_bit_group_word(g);
        assert(bit_group_ok(local, g));
        assert(word_is(local, w, st[w]));
        assert(words[w] == st[w]);
        lemma_group_bits(local, g, st[w]);
    }
    lemma_round_limbs(local, words);
    assert forall|kind: int, k: int| 0 <= kind < 4 && 0 <= k < 4 implies #[trigger] wl(local, round_word(kind), k) == limb16(words[10 + kind], k) as int by {
        assert(round_limb_ok(local, k));
        assert(round_limb_packed(local, kind, k, 16) == limb16(words[10 + kind], k) as int);
    }
    assert forall|k: int| 0 <= k < 4 implies #[trigger] wl(local, WORD_SIGMA0 as int, k) == limb16(spec_big_sigma0(st[0]), k) as int by {
        assert(wl(local, round_word(0int), k) == limb16(words[10int + 0int], k) as int);
    }
    assert forall|k: int| 0 <= k < 4 implies #[trigger] wl(local, WORD_SIGMA1 as int, k) == limb16(spec_big_sigma1(st[4]), k) as int by {
        assert(wl(local, round_word(1int), k) == limb16(words[10int + 1int], k) as int);
    }
    assert forall|k: int| 0 <= k < 4 implies #[trigger] wl(local, WORD_CH as int, k) == limb16(spec_ch(st[4], st[5], st[6]), k) as int by {
        assert(wl(local, round_word(2int), k) == limb16(words[10int + 2int], k) as int);
    }
    assert forall|k: int| 0 <= k < 4 implies #[trigger] wl(local, WORD_MAJ as int, k) == limb16(spec_maj(st[0], st[1], st[2]), k) as int by {
        assert(wl(local, round_word(3int), k) == limb16(words[10int + 3int], k) as int);
    }
}

/// One round: when round row `r` carries the compression, so does row `r + 1`.
#[verifier::spinoff_prover]
#[verifier::rlimit(40)]
proof fn lemma_row_step(local: Seq<u32>, next: Seq<u32>, all: Seq<u32>, pv: Seq<u32>, state: Seq<u64>, m: Seq<u64>, r: int)
    requires
        prep_agrees(all, state, m),
        local.len() == AIR_WIDTH,
        next.len() == AIR_WIDTH,
        0 <= r < 80,
        row_ok(local, next, row_of(all, r), pv),
        bit_groups_ok(next),
        row_carries_compression(local, state, m, r),
    ensures
        row_carries_compression(next, state, m, r + 1),
{
    let prep = row_of(all, r);
    lemma_prep_facts(all, state, m, r);
    let st = round_state(state, m, r as nat);
    let w = schedule_word(m, r as nat);
    let kr = K[r];
    lemma_row_w(local, prep, state, m, r);
    assert(round_words_ok(local));
    lemma_row_round_words(local, st);
    assert(transition_ok(local, next));
    assert forall|k: int| 0 <= k < 4 implies #[trigger] add_t1_limb_ok(local, k) by {
        assert(transition_limb_ok(local, next, k));
    }
    // T1 = h + Σ1(e) + Ch(e, f, g) + K + W.
    let ops1 = seq![st[7], spec_big_sigma1(st[4]), spec_ch(st[4], st[5], st[6]), kr, w];
    assert(word_is(local, 7, st[7]));
    assert forall|k: int| 0 <= k < 4 implies 0 <= #[trigger] wl(local, WORD_T1 as int, k) <= 0xffff by {
        lemma_range_bound(local, 4, k);
    }
    assert forall|k: int| 0 <= k < 4 implies 0 <= #[trigger] cv(local, CARRY_T1_BASE + k) <= 7 by {
        lemma_carry_bound(local, k);
    }
    assert forall|k: int| 0 <= k < 4 implies #[trigger] wl(local, WORD_H as int, k) == limb16(ops1[0], k) as int by {
        assert(wl(local, 7, k) == limb16(st[7], k) as int);
    }
    lemma_t1_sound(local, ops1);
    let t1 = round_t1(st, kr, w);
    assert(word_is(local, WORD_T1 as int, t1));
    // T2 = Σ0(a) + Maj(a, b, c).
    assert forall|k: int| 0 <= k < 4 implies 0 <= #[trigger] wl(local, WORD_T2 as int, k) <= 0xffff by {
        lemma_range_bound(local, 5, k);
    }
    assert forall|k: int| 0 <= k < 4 implies 0 <= #[trigger] cv(local, CARRY_T2_BASE + k) <= 7 by {
        lemma_carry_bound(local, 4 + k);
    }
    assert forall|k: int| 0 <= k < 4 implies #[trigger] add2_limb_ok(local, local, WORD_SIGMA0 as int, WORD_MAJ as int, WORD_T2 as int, CARRY_T2_BASE as int, k) by {
        assert(transition_limb_ok(local, next, k));
    }
    lemma_add2_sound(local, local, WORD_SIGMA0 as int, WORD_MAJ as int, WORD_T2 as int, CARRY_T2_BASE as int, spec_big_sigma0(st[0]), spec_maj(st[0], st[1], st[2]));
    let t2 = round_t2(st);
    // The new a = T1 + T2.
    lemma_group_bound(next, 0);
    assert forall|k: int| 0 <= k < 4 implies 0 <= #[trigger] wl(next, WORD_A as int, k) <= 0xffff by {
        assert(wl(next, spec_bit_group_word(0), k) <= 0xffff);
    }
    assert forall|k: int| 0 <= k < 4 implies 0 <= #[trigger] cv(local, CARRY_A_BASE + k) <= 7 by {
        lemma_carry_bound(local, 8 + k);
    }
    assert forall|k: int| 0 <= k < 4 implies #[trigger] add2_limb_ok(local, next, WORD_T1 as int, WORD_T2 as int, WORD_A as int, CARRY_A_BASE as int, k) by {
        assert(transition_limb_ok(local, next, k));
    }
    lemma_add2_sound(local, next, WORD_T1 as int, WORD_T2 as int, WORD_A as int, CARRY_A_BASE as int, t1, t2);
    // The new e = d + T1.
    lemma_group_bound(next, 3);
    assert forall|k: int| 0 <= k < 4 implies 0 <= #[trigger] wl(next, WORD_E as int, k) <= 0xffff by {
        assert(wl(next, spec_bit_group_word(3), k) <= 0xffff);
    }
    assert forall|k: int| 0 <= k < 4 implies 0 <= #[trigger] cv(local, CARRY_E_BASE + k) <= 7 by {
        lemma_carry_bound(local, 12 + k);
    }
    assert forall|k: int| 0 <= k < 4 implies #[trigger] add2_limb_ok(local, next, WORD_D as int, WORD_T1 as int, WORD_E as int, CARRY_E_BASE as int, k) by {
        assert(transition_limb_ok(local, next, k));
    }
    assert(word_is(local, 3, st[3]));
    lemma_add2_sound(local, next, WORD_D as int, WORD_T1 as int, WORD_E as int, CARRY_E_BASE as int, st[3], t1);
    // The register shifts and the new state.
    let ns = round_state(state, m, (r + 1) as nat);
    assert(ns == round_step(st, kr, w));
    assert forall|i: int| 0 <= i < 8 implies #[trigger] word_is(next, i, ns[i]) by {
        assert forall|k: int| 0 <= k < 4 implies #[trigger] wl(next, i, k) == limb16(ns[i], k) as int by {
            assert(transition_limb_ok(local, next, k));
            assert(shift_limb_ok(local, next, k));
            if i == 1 || i == 2 || i == 3 {
                assert(word_is(local, i - 1, st[i - 1]));
            } else if i == 5 || i == 6 || i == 7 {
                assert(word_is(local, i - 1, st[i - 1]));
            }
        }
    }
    // The lags: lag 0 is this row's W, lag l is this row's lag l - 1.
    assert forall|l: int| 0 <= l < 16 && l < r + 1 implies #[trigger] lag_is(next, l, schedule_word(m, (r + 1 - 1 - l) as nat)) by {
        assert forall|k: int| 0 <= k < 4 implies #[trigger] cv(next, spec_lag_limb_col(l, k)) == limb16(schedule_word(m, (r + 1 - 1 - l) as nat), k) as int by {
            if l == 0 {
                assert(transition_limb_ok(local, next, k));
            } else {
                assert(lag_shift_ok(local, next, l));
                assert(lag_is(local, l - 1, schedule_word(m, (r - 1 - (l - 1)) as nat)));
            }
        }
    }
}

/// The first row of an accepted trace holds the initial state.
proof fn lemma_first_row(local: Seq<u32>, next: Seq<u32>, all: Seq<u32>, pv: Seq<u32>, state: Seq<u64>, m: Seq<u64>)
    requires
        local.len() == AIR_WIDTH,
        prep_agrees(all, state, m),
        row_ok(local, next, row_of(all, 0), pv),
    ensures
        row_carries_compression(local, state, m, 0),
{
    let prep = row_of(all, 0);
    lemma_prep_facts(all, state, m, 0);
    assert(first_row_ok(local, prep));
    assert(round_state(state, m, 0) == state);
    assert forall|w: int| 0 <= w < 8 implies #[trigger] word_is(local, w, round_state(state, m, 0)[w]) by {
        assert(word_is(prep, w, state[w]));
        assert forall|k: int| 0 <= k < 4 implies #[trigger] wl(local, w, k) == limb16(state[w], k) as int by {
            assert(wl(local, w, k) == wl(prep, w, k));
        }
    }
}

/// Every round row of an accepted trace, up to the final one, carries the compression.
proof fn lemma_rows_carry_compression(main: Seq<u32>, prep: Seq<u32>, state: Seq<u64>, m: Seq<u64>, pv: Seq<u32>, r: int)
    requires
        main.len() >= TRACE_ROWS * AIR_WIDTH,
        prep_agrees(prep, state, m),
        air_accepts(main, prep, pv),
        0 <= r <= 80,
    ensures
        row_carries_compression(row_of(main, r), state, m, r),
    decreases r,
{
    if r == 0 {
        assert(window_ok(main, prep, pv, 0));
        lemma_first_row(row_of(main, 0), row_of(main, next_row(0)), prep, pv, state, m);
    } else {
        lemma_rows_carry_compression(main, prep, state, m, pv, r - 1);
        assert(window_ok(main, prep, pv, r - 1));
        assert(next_row(r - 1) == r);
        assert(window_ok(main, prep, pv, r));
        lemma_row_step(row_of(main, r - 1), row_of(main, r), prep, pv, state, m, r - 1);
    }
}

/// Four limbs that are those of `x` decode to `x`.
proof fn lemma_decoded_from_limbs(row: Seq<u32>, i: int, x: u64)
    requires
        word_is(row, i, x),
    ensures
        decoded_word(row, i) == Some(x),
{
    lemma_limb_decomposition(x);
    lemma_limbs_join(x);
    assert(wl(row, i, 0) == limb16(x, 0) as int);
    assert(wl(row, i, 1) == limb16(x, 1) as int);
    assert(wl(row, i, 2) == limb16(x, 2) as int);
    assert(wl(row, i, 3) == limb16(x, 3) as int);
}

/// A main trace accepted against a preprocessed trace that agrees with the instance
/// `(state, m)` holds, on its final round row, the working state after the eighty rounds.
proof fn lemma_accepted_against_agreeing_prep(main: Seq<u32>, prep: Seq<u32>, state: Seq<u64>, m: Seq<u64>, pv: Seq<u32>)
    requires
        main.len() >= TRACE_ROWS * AIR_WIDTH,
        prep_agrees(prep, state, m),
        air_accepts(main, prep, pv),
    ensures
        forall|i: int| 0 <= i < 8 ==> #[trigger] decoded_word(row_of(main, 80), i) == Some(round_state(state, m, 80)[i]),
{
    lemma_rows_carry_compression(main, prep, state, m, pv, 80);
    assert forall|i: int| 0 <= i < 8 implies #[trigger] decoded_word(row_of(main, 80), i) == Some(round_state(state, m, 80)[i]) by {
        let r: int = 80;
        assert(row_carries_compression(row_of(main, r), state, m, r));
        assert(word_is(row_of(main, r), i, round_state(state, m, r as nat)[i]));
        assert(round_state(state, m, r as nat) == round_state(state, m, 80));
        lemma_decoded_from_limbs(row_of(main, 80), i, round_state(state, m, 80)[i]);
    }
}

/// Soundness: whatever main trace the AIR accepts against the preprocessed trace of the
/// instance `(state, m)`, with any public values, its final round row (row 80) holds, word for
/// word, the working state a..h after the eighty rounds of the compression of the message
/// words `m` from `state`.
pub proof fn lemma_accepted_trace_is_the_compression(main: Seq<u32>, state: Seq<u64>, m: Seq<u64>, pv: Seq<u32>)
    requires
        main.len() >= TRACE_ROWS * AIR_WIDTH,
        air_accepts(main, instance_prep(state, m), pv),
    ensures
        forall|i: int| 0 <= i < 8 ==> #[trigger] decoded_word(row_of(main, 80), i) == Some(round_state(state, m, 80)[i]),
{
    lemma_instance_prep_agrees(state, m);
    lemma_accepted_against_agreeing_prep(main, instance_prep(state, m), state, m, pv);
}

/// Soundness for messages: whatever trace segment the AIR accepts against segment `s` of the
/// preprocessed trace of a message, with any public values, its final round row holds the
/// working state after the eighty rounds of the block that segment proves, compressed from
/// the chaining state entering that block.
pub proof fn lemma_accepted_message_segment_is_the_compression(
    segment: Seq<u32>,
    prep: Seq<u32>,
    init: Seq<u64>,
    p: Seq<u8>,
    n: int,
    segs: int,
    s: int,
    pv: Seq<u32>,
)
    requires
        holds_message_segments(prep, true, init, p, n, segs),
        0 <= s < segs,
        segment.len() >= TRACE_ROWS * AIR_WIDTH,
        air_accepts(segment, prep.subrange(s * SEGMENT_CELLS, (s + 1) * SEGMENT_CELLS), pv),
    ensures
        forall|i: int| 0 <= i < 8 ==> #[trigger] decoded_word(row_of(segment, 80), i) == Some(
            round_state(
                block_input(init, p, segment_block(n, s)),
                block_words(block_at(p, segment_block(n, s))),
                80,
            )[i],
        ),
{
    let b = segment_block(n, s);
    let st = block_input(init, p, b);
    let m = block_words(block_at(p, b));
    let q = prep.subrange(s * SEGMENT_CELLS, (s + 1) * SEGMENT_CELLS);
    assert((s + 1) * SEGMENT_CELLS <= segs * SEGMENT_CELLS) by (nonlinear_arith)
        requires s + 1 <= segs;
    assert(SEGMENT_CELLS == TRACE_ROWS * AIR_WIDTH);
    assert forall|r: int, c: int|
        0 <= r < TRACE_ROWS && 0 <= c < AIR_WIDTH && c != PREP_FINAL_SELECTOR_COL implies #[trigger] row_of(q, r)[c]
            == prep_cell(st, m, r, c) by {
        let j = r * AIR_WIDTH + c;
        lemma_fundamental_div_mod_converse(j, AIR_WIDTH as int, r, c);
        assert(r * AIR_WIDTH + AIR_WIDTH <= TRACE_ROWS * AIR_WIDTH);
        assert(q[j] == prep[s * SEGMENT_CELLS + j]);
    }
    lemma_accepted_against_agreeing_prep(segment, q, st, m, pv);
}

} // verus!
