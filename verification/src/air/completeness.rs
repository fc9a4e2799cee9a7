//! Completeness of the AIR: the main trace that the builder lays out for the compression of a
//! block satisfies every AIR constraint against the preprocessed trace and the public values
//! of that block, and so does every block segment of a message trace.
//!
//! The proof goes family by family: the bit, range and carry decompositions of each row, the
//! bitwise round functions recombined limb by limb, the limb-wise additions with their
//! carries, the register and lag shifts between consecutive rows, and the binding of the final
//! working state to the public values.
use vstd::prelude::*;

use crate::air::columns::{
    spec_bit_group_base, spec_bit_group_word, spec_carry_bit_base, spec_carry_bits,
    spec_carry_col, spec_lag_bit_col, spec_lag_limb_col, spec_limb_col, spec_range_bit_col,
    spec_ranged_word, AIR_WIDTH, BIT_A_BASE, BIT_GROUPS, CARRY_T1_BASE, LAG_COUNT,
    PREP_BLOCK_START_SELECTOR_COL, PREP_FINAL_SELECTOR_COL, PREP_INIT_W_SELECTOR_COL,
    PREP_ROUND_SELECTOR_COL, PREP_TRANSITION_SELECTOR_COL, RANGE_BITS_PER_SOURCE, RANGE_SOURCES,
    SCHED_CARRY_BASE, TRACE_ROWS, WORD_A, WORD_B, WORD_C, WORD_COUNT, WORD_D, WORD_E, WORD_F,
    WORD_G, WORD_H, WORD_K, WORD_W,
};
use crate::air::constraints::{
    add2_limb_ok, add_t1_limb_ok, binding_limb_ok, binding_ok, bit_group_ok, bit_groups_ok,
    bits_packed, bool_ok, carries_ok, carry_bits_ok, carry_in, cv, first_row_ok, gb, lag_bit,
    lag_bit_pair_ok, lag_bits_ok, lag_limb_bits_ok, lag_shift_ok, last_row_ok,
    lemma_power_constants, limbs_packed, pow2_f, public_ok, range_ok, ranges_ok, round_bit,
    round_limb_ok, round_limb_packed, round_word, round_words_ok, schedule_limb_ok, schedule_ok,
    sigma_limb_packed, small_sigma0_bit, small_sigma1_bit, transition_limb_ok, transition_ok, wl,
    row_ok, xor2f, xor3f, TWO16, TWO32, TWO48,
};
use crate::air::{
    air_accepts, bit_of, block_input, carries_of, compression_rounds, compression_words,
    decoded_word, holds_message_segments, holds_trace_rows, inferable, inferred_block,
    inferred_state, instance_prep, instance_public_values, lemma_compression_trace_view,
    lemma_limb_bound, limb16, limb_carry, limb_sum, pad_state, pad_step, prep_cell, row_carries,
    next_row, row_cell, row_lags, row_of, row_words, rounds_of, segment_block, segment_prep_cell,
    trace_cell, window_ok, SEGMENT_CELLS,
};
use crate::constants::K;
use crate::field::{fadd, fmul, fsub, fval, BABY_BEAR_P};
use crate::ops::{
    spec_big_sigma0, spec_big_sigma1, spec_ch, spec_maj, spec_small_sigma0, spec_small_sigma1,
};
use crate::sha512::is_compression_trace;
use crate::spec::{
    be_u64_bytes, be_word, block_at, block_words, lemma_u64_bytes_of_be_word, round_state,
    round_step, round_t1, round_t2, schedule_step, schedule_word,
};
use crate::trace::BlockTrace;
use vstd::arithmetic::div_mod::{
    lemma_add_mod_noop, lemma_add_mod_noop_right, lemma_fundamental_div_mod_converse,
    lemma_mod_breakdown, lemma_mul_mod_noop_left, lemma_mul_mod_noop_right, lemma_small_mod,
};
use vstd::arithmetic::power2::{lemma2_to64, lemma_pow2_pos, lemma_pow2_unfold, pow2};
use vstd::bits::lemma_u64_shr_is_div;

verus! {

proof fn lemma_big_sigma0_bit(x: u64, i: u64)
    requires
        i < 64,
    ensures
        bit_of(spec_big_sigma0(x), i as int) == bit_of(x, ((i + 28) % 64) as int) ^ bit_of(x, ((i + 34) % 64) as int) ^ bit_of(x, ((i + 39) % 64) as int),
{
    assert((((((x >> 28u64) | (x << 36u64)) ^ ((x >> 34u64) | (x << 30u64)) ^ ((x >> 39u64) | (x << 25u64))) >> i) & 1)
        == (((x >> ((i + 28) % 64)) & 1) ^ ((x >> ((i + 34) % 64)) & 1) ^ ((x >> ((i + 39) % 64)) & 1))) by (bit_vector)
        requires i < 64;
}

proof fn lemma_big_sigma1_bit(x: u64, i: u64)
    requires
        i < 64,
    ensures
        bit_of(spec_big_sigma1(x), i as int) == bit_of(x, ((i + 14) % 64) as int) ^ bit_of(x, ((i + 18) % 64) as int) ^ bit_of(x, ((i + 41) % 64) as int),
{
    assert((((((x >> 14u64) | (x << 50u64)) ^ ((x >> 18u64) | (x << 46u64)) ^ ((x >> 41u64) | (x << 23u64))) >> i) & 1)
        == (((x >> ((i + 14) % 64)) & 1) ^ ((x >> ((i + 18) % 64)) & 1) ^ ((x >> ((i + 41) % 64)) & 1))) by (bit_vector)
        requires i < 64;
}

proof fn lemma_small_sigma0_bit(x: u64, i: u64)
    requires
        i < 64,
    ensures
        bit_of(spec_small_sigma0(x), i as int) == bit_of(x, ((i + 1) % 64) as int) ^ bit_of(x, ((i + 8) % 64) as int) ^ (if i + 7 < 64 { bit_of(x, (i + 7) as int) } else { 0 }),
{
    assert((((((x >> 1u64) | (x << 63u64)) ^ ((x >> 8u64) | (x << 56u64)) ^ (x >> 7u64)) >> i) & 1)
        == (((x >> ((i + 1) % 64)) & 1) ^ ((x >> ((i + 8) % 64)) & 1) ^ (if i + 7 < 64 { (x >> (i + 7)) & 1 } else { 0 }))) by (bit_vector)
        requires i < 64;
}

proof fn lemma_small_sigma1_bit(x: u64, i: u64)
    requires
        i < 64,
    ensures
        bit_of(spec_small_sigma1(x), i as int) == bit_of(x, ((i + 19) % 64) as int) ^ bit_of(x, ((i + 61) % 64) as int) ^ (if i + 6 < 64 { bit_of(x, (i + 6) as int) } else { 0 }),
{
    assert((((((x >> 19u64) | (x << 45u64)) ^ ((x >> 61u64) | (x << 3u64)) ^ (x >> 6u64)) >> i) & 1)
        == (((x >> ((i + 19) % 64)) & 1) ^ ((x >> ((i + 61) % 64)) & 1) ^ (if i + 6 < 64 { (x >> (i + 6)) & 1 } else { 0 }))) by (bit_vector)
        requires i < 64;
}

proof fn lemma_ch_bit(e: u64, f: u64, g: u64, i: u64)
    requires
        i < 64,
    ensures
        bit_of(spec_ch(e, f, g), i as int) == if bit_of(e, i as int) == 1 { bit_of(f, i as int) } else { bit_of(g, i as int) },
{
    assert(((((e & f) ^ ((!e) & g)) >> i) & 1) == if (e >> i) & 1 == 1 { (f >> i) & 1 } else { (g >> i) & 1 }) by (bit_vector)
        requires i < 64;
}

proof fn lemma_maj_bit(a: u64, b: u64, c: u64, i: u64)
    requires
        i < 64,
    ensures
        bit_of(spec_maj(a, b, c), i as int) == (bit_of(a, i as int) & bit_of(b, i as int)) ^ (bit_of(a, i as int) & bit_of(c, i as int)) ^ (bit_of(b, i as int) & bit_of(c, i as int)),
{
    assert(((((a & b) ^ (a & c) ^ (b & c)) >> i) & 1) == (((a >> i) & 1) & ((b >> i) & 1)) ^ (((a >> i) & 1) & ((c >> i) & 1)) ^ (((b >> i) & 1) & ((c >> i) & 1))) by (bit_vector)
        requires i < 64;
}

pub(crate) proof fn lemma_limb_bit(x: u64, k: u64, j: u64)
    requires
        k < 4,
        j < 16,
    ensures
        bit_of(limb16(x, k as int), j as int) == bit_of(x, (16 * k + j) as int),
{
    assert((((x >> (16 * k)) & 0xffff) >> j) & 1 == (x >> (16 * k + j)) & 1) by (bit_vector)
        requires k < 4, j < 16;
}

pub(crate) proof fn lemma_limb_decomposition(x: u64)
    ensures
        x as int == limb16(x, 0) + limb16(x, 1) * 0x1_0000 + limb16(x, 2) * 0x1_0000_0000 + limb16(x, 3) * 0x1_0000_0000_0000,
        limb16(x, 0) <= 0xffff,
        limb16(x, 1) <= 0xffff,
        limb16(x, 2) <= 0xffff,
        limb16(x, 3) <= 0xffff,
{
    assert(x == ((x >> 0u64) & 0xffff) + ((x >> 16u64) & 0xffff) * 0x1_0000 + ((x >> 32u64) & 0xffff) * 0x1_0000_0000 + ((x >> 48u64) & 0xffff) * 0x1_0000_0000_0000) by (bit_vector);
    assert(((x >> 0u64) & 0xffff) <= 0xffff && ((x >> 16u64) & 0xffff) <= 0xffff && ((x >> 32u64) & 0xffff) <= 0xffff && ((x >> 48u64) & 0xffff) <= 0xffff) by (bit_vector);
}

proof fn lemma_add2_limbs(a: u64, b: u64)
    ensures
        ({
            let o = a.wrapping_add(b);
            let s0 = limb16(a, 0) + limb16(b, 0);
            let s1 = limb16(a, 1) + limb16(b, 1) + s0 / 0x10000;
            let s2 = limb16(a, 2) + limb16(b, 2) + s1 / 0x10000;
            let s3 = limb16(a, 3) + limb16(b, 3) + s2 / 0x10000;
            &&& s0 == limb16(o, 0) + (s0 / 0x10000) * 0x10000
            &&& s1 == limb16(o, 1) + (s1 / 0x10000) * 0x10000
            &&& s2 == limb16(o, 2) + (s2 / 0x10000) * 0x10000
            &&& s3 == limb16(o, 3) + (s3 / 0x10000) * 0x10000
        }),
{
    let o = a.wrapping_add(b);
    let c: u64 = if a + b > 0xffff_ffff_ffff_ffff { 1 } else { 0 };
    assert(o + c * 0x1_0000_0000_0000_0000 == a + b);
    assert({
        let s0 = ((a >> 0u64) & 0xffff) + ((b >> 0u64) & 0xffff);
        let s1 = ((a >> 16u64) & 0xffff) + ((b >> 16u64) & 0xffff) + s0 / 0x10000;
        let s2 = ((a >> 32u64) & 0xffff) + ((b >> 32u64) & 0xffff) + s1 / 0x10000;
        let s3 = ((a >> 48u64) & 0xffff) + ((b >> 48u64) & 0xffff) + s2 / 0x10000;
        &&& s0 == ((o >> 0u64) & 0xffff) + (s0 / 0x10000) * 0x10000
        &&& s1 == ((o >> 16u64) & 0xffff) + (s1 / 0x10000) * 0x10000
        &&& s2 == ((o >> 32u64) & 0xffff) + (s2 / 0x10000) * 0x10000
        &&& s3 == ((o >> 48u64) & 0xffff) + (s3 / 0x10000) * 0x10000
    }) by (bit_vector)
        requires o + c * 0x1_0000_0000_0000_0000 == a + b, c <= 1;
}

pub(crate) proof fn lemma_bit_div(x: u64, i: int)
    requires
        0 <= i < 64,
    ensures
        bit_of(x, i) as int == (x as nat / pow2(i as nat)) % 2,
        bit_of(x, i) <= 1,
{
    let s = i as u64;
    lemma_u64_shr_is_div(x, s);
    let y = x >> s;
    assert(y & 1 == y % 2 && y & 1 <= 1) by (bit_vector);
}

pub(crate) proof fn lemma_pow2_f(n: nat)
    ensures
        pow2_f(n) == pow2(n) as int % BABY_BEAR_P as int,
    decreases n,
{
    if n > 0 {
        lemma_pow2_f((n - 1) as nat);
        lemma_pow2_unfold(n);
        lemma_mul_mod_noop_left(pow2((n - 1) as nat) as int, 2, BABY_BEAR_P as int);
        assert(pow2(n) as int == pow2((n - 1) as nat) as int * 2);
    } else {
        lemma2_to64();
    }
}

/// One step of recombining bits: adding bit `n` of `v` times 2^n to the recombination of the
/// bits below `n`.
proof fn lemma_pack_step(v: nat, n: nat, prev: int, bit: int)
    requires
        prev == (v % pow2(n)) as int % BABY_BEAR_P as int,
        bit == (v / pow2(n)) % 2,
    ensures
        fadd(prev, fmul(bit, pow2_f(n))) == (v % pow2(n + 1)) as int % BABY_BEAR_P as int,
{
    let p = BABY_BEAR_P as int;
    let q = pow2(n) as int;
    lemma_pow2_f(n);
    lemma_pow2_pos(n);
    lemma_pow2_unfold(n + 1);
    lemma_mul_mod_noop_right(bit, q, p);
    lemma_add_mod_noop((v % pow2(n)) as int, bit * q, p);
    lemma_mod_breakdown(v as int, q, 2);
    assert(pow2(n + 1) as int == q * 2);
}

/// The bit cells of `x` from column `base` recombine to `x` modulo 2^n.
proof fn lemma_bits_packed(row: Seq<u32>, base: int, x: u64, n: nat)
    requires
        n <= 64,
        0 <= base,
        base + n <= row.len(),
        forall|i: int| 0 <= i < n ==> #[trigger] row[base + i] == bit_of(x, i) as u32,
    ensures
        bits_packed(row, base, n) == (x as nat % pow2(n)) as int % BABY_BEAR_P as int,
    decreases n,
{
    if n == 0 {
        lemma2_to64();
    } else {
        let i = n - 1;
        lemma_bits_packed(row, base, x, (n - 1) as nat);
        lemma_bit_div(x, i);
        assert(row[base + i] == bit_of(x, i) as u32);
        assert(cv(row, base + n - 1) == bit_of(x, i) as int);
        lemma_pack_step(x as nat, (n - 1) as nat, bits_packed(row, base, (n - 1) as nat), bit_of(x, i) as int);
    }
}

/// Bit `b` of σ1 (`sigma1`) or σ0 of the lagged schedule word, as the constraint computes it.
pub(crate) open spec fn sigma_bit(row: Seq<u32>, sigma1: bool, b: int) -> int {
    if sigma1 {
        small_sigma1_bit(row, b)
    } else {
        small_sigma0_bit(row, b)
    }
}

proof fn lemma_sigma_packed(row: Seq<u32>, sigma1: bool, k: int, y: u64, n: nat)
    requires
        0 <= k < 4,
        n <= 16,
        forall|b: int| 16 * k <= b < 16 * k + n ==> #[trigger] sigma_bit(row, sigma1, b) == bit_of(y, b) as int,
    ensures
        sigma_limb_packed(row, sigma1, k, n) == (limb16(y, k) as nat % pow2(n)) as int % BABY_BEAR_P as int,
    decreases n,
{
    if n == 0 {
        lemma2_to64();
    } else {
        let j = n - 1;
        let b = 16 * k + j;
        let prev = sigma_limb_packed(row, sigma1, k, (n - 1) as nat);
        assert(sigma_limb_packed(row, sigma1, k, n) == fadd(prev, fmul(sigma_bit(row, sigma1, b), pow2_f((n - 1) as nat))));
        lemma_sigma_packed(row, sigma1, k, y, (n - 1) as nat);
        assert(sigma_bit(row, sigma1, b) == bit_of(y, b) as int);
        lemma_limb_bit(y, k as u64, j as u64);
        lemma_bit_div(limb16(y, k), j);
        lemma_pack_step(limb16(y, k) as nat, (n - 1) as nat, prev, bit_of(y, b) as int);
    }
}

/// Four limb cells of `x` from column `c` recombine to `x` in the field.
proof fn lemma_limbs_packed(row: Seq<u32>, c: int, x: u64)
    requires
        0 <= c,
        c + 3 < row.len(),
        forall|k: int| 0 <= k < 4 ==> #[trigger] row[c + k] == limb16(x, k) as u32,
    ensures
        limbs_packed(row, c) == x as int % BABY_BEAR_P as int,
{
    let p = BABY_BEAR_P as int;
    lemma_limb_decomposition(x);
    lemma_power_constants();
    let l0 = limb16(x, 0) as int;
    let l1 = limb16(x, 1) as int;
    let l2 = limb16(x, 2) as int;
    let l3 = limb16(x, 3) as int;
    assert(row[c + 0] == limb16(x, 0) as u32);
    assert(row[c + 1] == limb16(x, 1) as u32);
    assert(row[c + 2] == limb16(x, 2) as u32);
    assert(row[c + 3] == limb16(x, 3) as u32);
    assert(cv(row, c) == l0);
    assert(cv(row, c + 1) == l1);
    assert(cv(row, c + 2) == l2);
    assert(cv(row, c + 3) == l3);
    lemma_mul_mod_noop_right(l2, 0x1_0000_0000, p);
    lemma_mul_mod_noop_right(l3, 0x1_0000_0000_0000, p);
    let x1 = l0 + l1 * 0x1_0000;
    let x2 = x1 + l2 * 0x1_0000_0000;
    let x3 = x2 + l3 * 0x1_0000_0000_0000;
    lemma_add_mod_noop_right(l0, l1 * 0x1_0000, p);
    lemma_add_mod_noop(x1, l2 * 0x1_0000_0000, p);
    lemma_add_mod_noop(x2, l3 * 0x1_0000_0000_0000, p);
    assert(fmul(l1, TWO16 as int) == (l1 * 0x1_0000) % p);
    assert(fmul(l2, TWO32 as int) == (l2 * 0x1_0000_0000) % p);
    assert(fmul(l3, TWO48 as int) == (l3 * 0x1_0000_0000_0000) % p);
    assert(x3 == x as int);
}

/// Limb `k` of the limb-wise addition of `ops` gives limb `k` of `o` and carry `cs[k]`.
spec fn limb_eq(ops: Seq<u64>, o: u64, cs: Seq<int>, k: int) -> bool {
    limb_sum(ops, k, ops.len()) + (if k == 0 { 0 } else { cs[k - 1] }) == limb16(o, k) + cs[k] * 0x10000
}

/// The limb-wise addition of `ops` yields `o` with carries `cs`.
spec fn limb_add_ok(ops: Seq<u64>, o: u64, cs: Seq<int>) -> bool {
    &&& cs.len() == 4
    &&& forall|k: int| 0 <= k < 4 ==> #[trigger] limb_eq(ops, o, cs, k)
}

proof fn lemma_limb_add2(a: u64, b: u64) -> (cs: Seq<int>)
    ensures
        limb_add_ok(seq![a, b], a.wrapping_add(b), cs),
{
    let o = a.wrapping_add(b);
    lemma_add2_limbs(a, b);
    let s0 = limb16(a, 0) + limb16(b, 0);
    let s1 = limb16(a, 1) + limb16(b, 1) + s0 / 0x10000;
    let s2 = limb16(a, 2) + limb16(b, 2) + s1 / 0x10000;
    let s3 = limb16(a, 3) + limb16(b, 3) + s2 / 0x10000;
    let cs = seq![s0 / 0x10000, s1 / 0x10000, s2 / 0x10000, s3 / 0x10000];
    let ops = seq![a, b];
    assert forall|k: int| 0 <= k < 4 implies #[trigger] limb_eq(ops, o, cs, k) by {
        assert(limb_sum(ops, k, 2) == limb16(a, k) + limb16(b, k)) by {
            reveal_with_fuel(limb_sum, 3);
        }
    }
    cs
}

proof fn lemma_limb_sum_push(ops: Seq<u64>, y: u64, k: int, n: nat)
    requires
        n <= ops.len(),
    ensures
        limb_sum(ops.push(y), k, n) == limb_sum(ops, k, n),
    decreases n,
{
    if n > 0 {
        lemma_limb_sum_push(ops, y, k, (n - 1) as nat);
    }
}

proof fn lemma_limb_add_extend(ops: Seq<u64>, x: u64, cs: Seq<int>, y: u64, z: u64, ds: Seq<int>)
    requires
        limb_add_ok(ops, x, cs),
        limb_add_ok(seq![x, y], z, ds),
    ensures
        limb_add_ok(ops.push(y), z, Seq::new(4, |k: int| cs[k] + ds[k])),
{
    let es = Seq::new(4, |k: int| cs[k] + ds[k]);
    assert forall|k: int| 0 <= k < 4 implies #[trigger] limb_eq(ops.push(y), z, es, k) by {
        assert(limb_eq(ops, x, cs, k));
        assert(limb_eq(seq![x, y], z, ds, k));
        assert(limb_sum(seq![x, y], k, 2) == limb16(x, k) + limb16(y, k)) by {
            reveal_with_fuel(limb_sum, 3);
        }
        lemma_limb_sum_push(ops, y, k, ops.len());
        assert(ops.push(y)[ops.len() as int] == y);
    }
}

proof fn lemma_limb_add_carry_at(ops: Seq<u64>, o: u64, cs: Seq<int>, k: int)
    requires
        limb_add_ok(ops, o, cs),
        0 <= k < 4,
    ensures
        cs[k] == limb_carry(ops, k as nat),
    decreases k,
{
    if k > 0 {
        lemma_limb_add_carry_at(ops, o, cs, k - 1);
    }
    assert(limb_eq(ops, o, cs, k));
    lemma_limb_bound(o, (16 * k) as u64);
    let s = limb_sum(ops, k, ops.len()) + (if k == 0 { 0 } else { cs[k - 1] });
    assert(limb_carry(ops, k as nat) == s / 0x10000);
}

/// The carries of a limb-wise addition are the limb carries of its operands.
proof fn lemma_limb_add_carries(ops: Seq<u64>, o: u64, cs: Seq<int>)
    requires
        limb_add_ok(ops, o, cs),
    ensures
        forall|k: int| 0 <= k < 4 ==> limb_sum(ops, k, ops.len()) + (if k == 0 { 0 } else { limb_carry(ops, (k - 1) as nat) }) == limb16(o, k) + #[trigger] limb_carry(ops, k as nat) * 0x10000,
{
    assert forall|k: int| 0 <= k < 4 implies limb_sum(ops, k, ops.len()) + (if k == 0 { 0 } else { limb_carry(ops, (k - 1) as nat) }) == limb16(o, k) + #[trigger] limb_carry(ops, k as nat) * 0x10000 by {
        assert(limb_eq(ops, o, cs, k));
        lemma_limb_add_carry_at(ops, o, cs, k);
        if k > 0 {
            lemma_limb_add_carry_at(ops, o, cs, k - 1);
        }
    }
}

proof fn lemma_limb_sum_bound(ops: Seq<u64>, k: int, n: nat)
    requires
        n <= ops.len(),
    ensures
        0 <= limb_sum(ops, k, n) <= n * 0xffff,
    decreases n,
{
    if n > 0 {
        lemma_limb_sum_bound(ops, k, (n - 1) as nat);
        lemma_limb_bound(ops[n - 1], (16 * k) as u64);
    }
}

proof fn lemma_limb_carry_bound(ops: Seq<u64>, k: nat)
    requires
        ops.len() >= 1,
    ensures
        0 <= limb_carry(ops, k) <= ops.len() - 1,
    decreases k,
{
    if k > 0 {
        lemma_limb_carry_bound(ops, (k - 1) as nat);
    }
    lemma_limb_sum_bound(ops, k as int, ops.len());
}

/// Limb `k` of the addition of `ops` into `o`, with the limb carries of `ops`.
pub(crate) open spec fn adder_limb_ok(ops: Seq<u64>, o: u64, k: int) -> bool {
    &&& limb_sum(ops, k, ops.len()) + (if k == 0 { 0 } else { limb_carry(ops, (k - 1) as nat) })
        == limb16(o, k) + limb_carry(ops, k as nat) * 0x10000
    &&& 0 <= limb_carry(ops, k as nat) <= ops.len() - 1
}

proof fn lemma_adder_from(ops: Seq<u64>, o: u64, cs: Seq<int>)
    requires
        limb_add_ok(ops, o, cs),
        ops.len() >= 1,
    ensures
        forall|k: int| 0 <= k < 4 ==> #[trigger] adder_limb_ok(ops, o, k),
{
    lemma_limb_add_carries(ops, o, cs);
    assert forall|k: int| 0 <= k < 4 implies #[trigger] adder_limb_ok(ops, o, k) by {
        lemma_limb_carry_bound(ops, k as nat);
        assert(limb_carry(ops, k as nat) * 0x10000 == limb_carry(ops, k as nat) * 0x10000);
    }
}

pub(crate) proof fn lemma_adder2(ops: Seq<u64>, a: u64, b: u64)
    requires
        ops == seq![a, b],
    ensures
        forall|k: int| 0 <= k < 4 ==> #[trigger] adder_limb_ok(ops, a.wrapping_add(b), k),
{
    let cs = lemma_limb_add2(a, b);
    lemma_adder_from(seq![a, b], a.wrapping_add(b), cs);
}

pub(crate) proof fn lemma_adder4(ops: Seq<u64>, a: u64, b: u64, c: u64, d: u64)
    requires
        ops == seq![a, b, c, d],
    ensures
        forall|k: int| 0 <= k < 4 ==> #[trigger] adder_limb_ok(
            ops,
            a.wrapping_add(b).wrapping_add(c).wrapping_add(d),
            k,
        ),
{
    let x1 = a.wrapping_add(b);
    let x2 = x1.wrapping_add(c);
    let x3 = x2.wrapping_add(d);
    let cs1 = lemma_limb_add2(a, b);
    let cs2 = lemma_limb_add2(x1, c);
    lemma_limb_add_extend(seq![a, b], x1, cs1, c, x2, cs2);
    let es2 = Seq::new(4, |k: int| cs1[k] + cs2[k]);
    assert(seq![a, b].push(c) =~= seq![a, b, c]);
    let cs3 = lemma_limb_add2(x2, d);
    lemma_limb_add_extend(seq![a, b, c], x2, es2, d, x3, cs3);
    assert(seq![a, b, c].push(d) =~= seq![a, b, c, d]);
    lemma_adder_from(seq![a, b, c, d], x3, Seq::new(4, |k: int| es2[k] + cs3[k]));
}

pub(crate) proof fn lemma_adder5(ops: Seq<u64>, a: u64, b: u64, c: u64, d: u64, e: u64)
    requires
        ops == seq![a, b, c, d, e],
    ensures
        forall|k: int| 0 <= k < 4 ==> #[trigger] adder_limb_ok(
            ops,
            a.wrapping_add(b).wrapping_add(c).wrapping_add(d).wrapping_add(e),
            k,
        ),
{
    let x1 = a.wrapping_add(b);
    let x2 = x1.wrapping_add(c);
    let x3 = x2.wrapping_add(d);
    let x4 = x3.wrapping_add(e);
    let cs1 = lemma_limb_add2(a, b);
    let cs2 = lemma_limb_add2(x1, c);
    lemma_limb_add_extend(seq![a, b], x1, cs1, c, x2, cs2);
    let es2 = Seq::new(4, |k: int| cs1[k] + cs2[k]);
    assert(seq![a, b].push(c) =~= seq![a, b, c]);
    let cs3 = lemma_limb_add2(x2, d);
    lemma_limb_add_extend(seq![a, b, c], x2, es2, d, x3, cs3);
    let es3 = Seq::new(4, |k: int| es2[k] + cs3[k]);
    assert(seq![a, b, c].push(d) =~= seq![a, b, c, d]);
    let cs4 = lemma_limb_add2(x3, e);
    lemma_limb_add_extend(seq![a, b, c, d], x3, es3, e, x4, cs4);
    assert(seq![a, b, c, d].push(e) =~= seq![a, b, c, d, e]);
    lemma_adder_from(seq![a, b, c, d, e], x4, Seq::new(4, |k: int| es3[k] + cs4[k]));
}

/// `local` is the row with the given words, lags and carries.
spec fn row_is(local: Seq<u32>, words: Seq<u64>, lags: Seq<u64>, carries: Seq<u16>) -> bool {
    &&& local.len() == AIR_WIDTH
    &&& words.len() == 16
    &&& lags.len() == 16
    &&& carries.len() == 20
    &&& forall|c: int| 0 <= c < AIR_WIDTH ==> #[trigger] local[c] == row_cell(words, lags, carries, c)
}

proof fn lemma_bit_is_bool(x: u64, i: int)
    requires
        0 <= i < 64,
    ensures
        bool_ok(bit_of(x, i) as int),
        bit_of(x, i) <= 1,
{
    lemma_bit_div(x, i);
    if bit_of(x, i) == 0 {
        assert(fmul(0, fsub(0, 1)) == 0);
    } else {
        assert(fsub(1, 1) == 0);
        assert(fmul(1, 0) == 0);
    }
}

proof fn lemma_xor3f(x: u64, y: u64, z: u64)
    requires
        x <= 1,
        y <= 1,
        z <= 1,
    ensures
        xor3f(x as int, y as int, z as int) == (x ^ y ^ z) as int,
        x ^ y ^ z <= 1,
{
    assert(x ^ y ^ z == (x + y + z) % 2 && x ^ y ^ z <= 1) by (bit_vector)
        requires x <= 1, y <= 1, z <= 1;
    assert(xor2f(0, 0) == 0);
    assert(xor2f(0, 1) == 1);
    assert(xor2f(1, 0) == 1);
    assert(xor2f(1, 1) == 0);
}

proof fn lemma_ch_f(e: u64, f: u64, g: u64)
    requires
        e <= 1,
        f <= 1,
        g <= 1,
    ensures
        fadd(fmul(e as int, f as int), fmul(fsub(1, e as int), g as int)) == if e == 1 { f as int } else { g as int },
{
    if e == 1 {
        assert(fsub(1, 1) == 0);
        assert(fmul(1, f as int) == f);
        assert(fmul(0, g as int) == 0);
    } else {
        assert(fsub(1, 0) == 1);
        assert(fmul(0, f as int) == 0);
        assert(fmul(1, g as int) == g);
    }
}

proof fn lemma_maj_f(a: u64, b: u64, c: u64)
    requires
        a <= 1,
        b <= 1,
        c <= 1,
    ensures
        fsub(
            fadd(fadd(fmul(a as int, b as int), fmul(a as int, c as int)), fmul(b as int, c as int)),
            fmul(fmul(fmul(a as int, b as int), c as int), 2),
        ) == ((a & b) ^ (a & c) ^ (b & c)) as int,
{
    assert((a & b) ^ (a & c) ^ (b & c) == if a + b + c >= 2 { 1u64 } else { 0u64 }) by (bit_vector)
        requires a <= 1, b <= 1, c <= 1;
    assert(fmul(0, 0) == 0);
    assert(fmul(0, 1) == 0);
    assert(fmul(1, 0) == 0);
    assert(fmul(1, 1) == 1);
    assert(fmul(0, 2) == 0);
    assert(fmul(1, 2) == 2);
}

/// The carries of a row fit their bit decompositions: at most 4 for T1, 1 for T2, A and E,
/// 3 for the schedule.
spec fn carries_fit(c: Seq<u16>) -> bool {
    forall|j: int|
        0 <= j < 20 ==> #[trigger] c[j] <= (if j < 4 {
            4int
        } else if j < 16 {
            1int
        } else {
            3int
        })
}

#[verifier::spinoff_prover]
proof fn lemma_cells(local: Seq<u32>, words: Seq<u64>, lags: Seq<u64>, carries: Seq<u16>)
    requires
        row_is(local, words, lags, carries),
    ensures
        forall|w: int, k: int| 0 <= w < 16 && 0 <= k < 4 ==> #[trigger] wl(local, w, k) == limb16(words[w], k) as int,
        forall|w: int, k: int| 0 <= w < 16 && 0 <= k < 4 ==> #[trigger] local[spec_limb_col(w, k)] == limb16(words[w], k) as u32,
        forall|j: int| 0 <= j < 16 ==> #[trigger] cv(local, CARRY_T1_BASE + j) == carries[j] as int,
        forall|j: int| 0 <= j < 4 ==> #[trigger] cv(local, SCHED_CARRY_BASE + j) == carries[16 + j] as int,
        forall|l: int, k: int| 0 <= l < 16 && 0 <= k < 4 ==> #[trigger] cv(local, spec_lag_limb_col(l, k)) == limb16(lags[l], k) as int,
        forall|l: int, k: int| 0 <= l < 16 && 0 <= k < 4 ==> #[trigger] local[spec_lag_limb_col(l, k)] == limb16(lags[l], k) as u32,
{
    assert forall|w: int, k: int| 0 <= w < 16 && 0 <= k < 4 implies #[trigger] local[spec_limb_col(w, k)] == limb16(words[w], k) as u32 by {
        let c = spec_limb_col(w, k);
        assert(local[c] == row_cell(words, lags, carries, c));
        assert(c / 4 == w && c % 4 == k);
    }
    assert forall|w: int, k: int| 0 <= w < 16 && 0 <= k < 4 implies #[trigger] wl(local, w, k) == limb16(words[w], k) as int by {
        assert(local[spec_limb_col(w, k)] == limb16(words[w], k) as u32);
        lemma_limb_bound(words[w], (16 * k) as u64);
    }
    assert forall|j: int| 0 <= j < 16 implies #[trigger] cv(local, CARRY_T1_BASE + j) == carries[j] as int by {
        assert(local[CARRY_T1_BASE + j] == row_cell(words, lags, carries, CARRY_T1_BASE + j));
    }
    assert forall|j: int| 0 <= j < 4 implies #[trigger] cv(local, SCHED_CARRY_BASE + j) == carries[16 + j] as int by {
        assert(local[SCHED_CARRY_BASE + j] == row_cell(words, lags, carries, SCHED_CARRY_BASE + j));
    }
    assert forall|l: int, k: int| 0 <= l < 16 && 0 <= k < 4 implies #[trigger] local[spec_lag_limb_col(l, k)] == limb16(lags[l], k) as u32 by {
        let c = spec_lag_limb_col(l, k);
        assert(local[c] == row_cell(words, lags, carries, c));
        assert((c - 80) / 4 == l && (c - 80) % 4 == k);
    }
    assert forall|l: int, k: int| 0 <= l < 16 && 0 <= k < 4 implies #[trigger] cv(local, spec_lag_limb_col(l, k)) == limb16(lags[l], k) as int by {
        assert(local[spec_lag_limb_col(l, k)] == limb16(lags[l], k) as u32);
        lemma_limb_bound(lags[l], (16 * k) as u64);
    }
}

/// Sixteen bit cells from `base` holding the bits of limb `k` of `x` recombine to that limb.
proof fn lemma_limb_from_bits(row: Seq<u32>, base: int, x: u64, k: int)
    requires
        0 <= k < 4,
        0 <= base,
        base + 16 <= row.len(),
        forall|j: int| 0 <= j < 16 ==> #[trigger] row[base + j] == bit_of(x, 16 * k + j) as u32,
    ensures
        bits_packed(row, base, 16) == limb16(x, k) as int,
        forall|j: int| 0 <= j < 16 ==> #[trigger] bool_ok(cv(row, base + j)),
{
    let y = limb16(x, k);
    assert forall|j: int| 0 <= j < 16 implies #[trigger] row[base + j] == bit_of(y, j) as u32 by {
        lemma_limb_bit(x, k as u64, j as u64);
    }
    assert forall|j: int| 0 <= j < 16 implies #[trigger] bool_ok(cv(row, base + j)) by {
        lemma_bit_is_bool(y, j);
        assert(row[base + j] == bit_of(y, j) as u32);
    }
    lemma_bits_packed(row, base, y, 16);
    lemma2_to64();
    lemma_limb_bound(x, (16 * k) as u64);
    lemma_small_mod(y as nat, pow2(16));
    lemma_small_mod(y as nat, BABY_BEAR_P as nat);
}

#[verifier::spinoff_prover]
proof fn lemma_bit_group_families(local: Seq<u32>, words: Seq<u64>, lags: Seq<u64>, carries: Seq<u16>)
    requires
        row_is(local, words, lags, carries),
    ensures
        bit_groups_ok(local),
{
    lemma_cells(local, words, lags, carries);
    assert forall|g: int| 0 <= g < BIT_GROUPS implies #[trigger] bit_group_ok(local, g) by {
        let base = spec_bit_group_base(g);
        let x = words[spec_bit_group_word(g)];
        assert forall|i: int| 0 <= i < 64 implies #[trigger] local[base + i] == bit_of(x, i) as u32 by {
            assert(local[base + i] == row_cell(words, lags, carries, base + i));
            assert((base + i - 148) / 64 == g && (base + i - 148) % 64 == i);
        }
        assert forall|i: int| 0 <= i < 64 implies #[trigger] bool_ok(gb(local, g, i)) by {
            lemma_bit_is_bool(x, i);
            assert(local[base + i] == bit_of(x, i) as u32);
        }
        assert forall|k: int| 0 <= k < 4 implies #[trigger] wl(local, spec_bit_group_word(g), k) == bits_packed(local, base + 16 * k, 16) by {
            assert forall|j: int| 0 <= j < 16 implies #[trigger] local[(base + 16 * k) + j] == bit_of(x, 16 * k + j) as u32 by {
                assert(local[base + (16 * k + j)] == bit_of(x, 16 * k + j) as u32);
            }
            lemma_limb_from_bits(local, base + 16 * k, x, k);
        }
    }
}

#[verifier::spinoff_prover]
proof fn lemma_lag_bit_families(local: Seq<u32>, words: Seq<u64>, lags: Seq<u64>, carries: Seq<u16>)
    requires
        row_is(local, words, lags, carries),
    ensures
        lag_bits_ok(local),
        forall|b: int| 0 <= b < 64 ==> #[trigger] lag_bit(local, true, b) == bit_of(lags[1], b) as int,
        forall|b: int| 0 <= b < 64 ==> #[trigger] lag_bit(local, false, b) == bit_of(lags[14], b) as int,
{
    lemma_cells(local, words, lags, carries);
    assert forall|sigma1: bool, b: int| 0 <= b < 64 implies #[trigger] local[spec_lag_bit_col(sigma1, b)] == bit_of(lags[if sigma1 { 1int } else { 14int }], b) as u32 by {
        let c = spec_lag_bit_col(sigma1, b);
        assert(local[c] == row_cell(words, lags, carries, c));
        assert((c - 532) % 64 == b);
    }
    assert forall|b: int| 0 <= b < 64 implies #[trigger] lag_bit(local, true, b) == bit_of(lags[1], b) as int by {
        assert(local[spec_lag_bit_col(true, b)] == bit_of(lags[1], b) as u32);
        lemma_bit_div(lags[1], b);
    }
    assert forall|b: int| 0 <= b < 64 implies #[trigger] lag_bit(local, false, b) == bit_of(lags[14], b) as int by {
        assert(local[spec_lag_bit_col(false, b)] == bit_of(lags[14], b) as u32);
        lemma_bit_div(lags[14], b);
    }
    assert forall|i: int| 0 <= i < 64 implies #[trigger] lag_bit_pair_ok(local, i) by {
        lemma_bit_is_bool(lags[1], i);
        lemma_bit_is_bool(lags[14], i);
    }
    assert forall|k: int| 0 <= k < 4 implies #[trigger] lag_limb_bits_ok(local, k) by {
        assert forall|j: int| 0 <= j < 16 implies #[trigger] local[spec_lag_bit_col(true, 16 * k) + j] == bit_of(lags[1], 16 * k + j) as u32 by {
            assert(spec_lag_bit_col(true, 16 * k) + j == spec_lag_bit_col(true, 16 * k + j));
            assert(local[spec_lag_bit_col(true, 16 * k + j)] == bit_of(lags[1], 16 * k + j) as u32);
        }
        lemma_limb_from_bits(local, spec_lag_bit_col(true, 16 * k), lags[1], k);
        assert forall|j: int| 0 <= j < 16 implies #[trigger] local[spec_lag_bit_col(false, 16 * k) + j] == bit_of(lags[14], 16 * k + j) as u32 by {
            assert(spec_lag_bit_col(false, 16 * k) + j == spec_lag_bit_col(false, 16 * k + j));
            assert(local[spec_lag_bit_col(false, 16 * k + j)] == bit_of(lags[14], 16 * k + j) as u32);
        }
        lemma_limb_from_bits(local, spec_lag_bit_col(false, 16 * k), lags[14], k);
    }
}

#[verifier::spinoff_prover]
proof fn lemma_range_families(local: Seq<u32>, words: Seq<u64>, lags: Seq<u64>, carries: Seq<u16>)
    requires
        row_is(local, words, lags, carries),
    ensures
        ranges_ok(local),
{
    lemma_cells(local, words, lags, carries);
    assert forall|s: int| 0 <= s < RANGE_SOURCES implies #[trigger] range_ok(local, s) by {
        let base = spec_range_bit_col(s, 0);
        let x = words[spec_ranged_word(s / 4)];
        let k = s % 4;
        assert forall|j: int| 0 <= j < 16 implies #[trigger] local[base + j] == bit_of(x, 16 * k + j) as u32 by {
            assert(local[base + j] == row_cell(words, lags, carries, base + j));
            assert((base + j - 660) / 16 == s && (base + j - 660) % 16 == j);
            lemma_limb_bit(x, k as u64, j as u64);
        }
        lemma_limb_from_bits(local, base, x, k);
        assert forall|b: int| 0 <= b < RANGE_BITS_PER_SOURCE implies #[trigger] bool_ok(cv(local, spec_range_bit_col(s, b))) by {
            assert(spec_range_bit_col(s, b) == base + b);
        }
        assert(wl(local, spec_ranged_word(s / 4), k) == limb16(x, k) as int);
    }
}

#[verifier::spinoff_prover]
proof fn lemma_carry_families(local: Seq<u32>, words: Seq<u64>, lags: Seq<u64>, carries: Seq<u16>)
    requires
        row_is(local, words, lags, carries),
        carries_fit(carries),
    ensures
        carries_ok(local),
{
    lemma_cells(local, words, lags, carries);
    assert forall|j: int| 0 <= j < 20 implies #[trigger] carry_bits_ok(local, j) by {
        let base = spec_carry_bit_base(j);
        let n = spec_carry_bits(j);
        let x = carries[j] as u64;
        assert(carries[j] <= (if j < 4 { 4int } else if j < 16 { 1int } else { 3int }));
        assert forall|i: int| 0 <= i < n implies #[trigger] local[base + i] == bit_of(x, i) as u32 by {
            let c = base + i;
            assert(local[c] == row_cell(words, lags, carries, c));
            if j < 4 {
                assert((c - 1044) / 3 == j && (c - 1044) % 3 == i);
            } else if j < 16 {
                assert(c - 1044 - 12 + 4 == j && i == 0);
            } else {
                assert(16 + (c - 1044 - 24) / 2 == j && (c - 1044 - 24) % 2 == i);
            }
        }
        assert forall|i: int| 0 <= i < n implies #[trigger] bool_ok(cv(local, base + i)) by {
            lemma_bit_is_bool(x, i);
            assert(local[base + i] == bit_of(x, i) as u32);
        }
        lemma_bits_packed(local, base, x, n as nat);
        lemma2_to64();
        lemma_small_mod(x as nat, pow2(n as nat));
        lemma_small_mod(x as nat, BABY_BEAR_P as nat);
        if j < 16 {
            assert(cv(local, spec_carry_col(j)) == carries[j] as int);
        } else {
            assert(cv(local, SCHED_CARRY_BASE + (j - 16)) == carries[16 + (j - 16)] as int);
        }
    }
}

/// The first `n` bits of limb `k` of the round function `kind` recombine to limb `k` of `y`
/// when each bit is the bit of `y`.
proof fn lemma_round_packed(row: Seq<u32>, kind: int, k: int, y: u64, n: nat)
    requires
        0 <= k < 4,
        n <= 16,
        forall|b: int| 16 * k <= b < 16 * k + n ==> #[trigger] round_bit(row, kind, b) == bit_of(y, b) as int,
    ensures
        round_limb_packed(row, kind, k, n) == (limb16(y, k) as nat % pow2(n)) as int % BABY_BEAR_P as int,
    decreases n,
{
    if n == 0 {
        lemma2_to64();
    } else {
        let j = n - 1;
        let b = 16 * k + j;
        let prev = round_limb_packed(row, kind, k, (n - 1) as nat);
        assert(round_limb_packed(row, kind, k, n) == fadd(prev, fmul(round_bit(row, kind, b), pow2_f((n - 1) as nat))));
        lemma_round_packed(row, kind, k, y, (n - 1) as nat);
        assert(round_bit(row, kind, b) == bit_of(y, b) as int);
        lemma_limb_bit(y, k as u64, j as u64);
        lemma_bit_div(limb16(y, k), j);
        lemma_pack_step(limb16(y, k) as nat, (n - 1) as nat, prev, bit_of(y, b) as int);
    }
}

/// The working-word relations of a round row: Σ0, Σ1, Ch and Maj of its registers.
pub(crate) open spec fn round_row_words(words: Seq<u64>) -> bool {
    &&& words[10] == spec_big_sigma0(words[0])
    &&& words[11] == spec_big_sigma1(words[4])
    &&& words[12] == spec_ch(words[4], words[5], words[6])
    &&& words[13] == spec_maj(words[0], words[1], words[2])
}

proof fn lemma_gb_cells(local: Seq<u32>, words: Seq<u64>, lags: Seq<u64>, carries: Seq<u16>)
    requires
        row_is(local, words, lags, carries),
    ensures
        forall|g: int, i: int| 0 <= g < BIT_GROUPS && 0 <= i < 64 ==> #[trigger] gb(local, g, i) == bit_of(words[spec_bit_group_word(g)], i) as int,
{
    assert forall|g: int, i: int| 0 <= g < BIT_GROUPS && 0 <= i < 64 implies #[trigger] gb(local, g, i) == bit_of(words[spec_bit_group_word(g)], i) as int by {
        let c = spec_bit_group_base(g) + i;
        assert(local[c] == row_cell(words, lags, carries, c));
        assert((c - 148) / 64 == g && (c - 148) % 64 == i);
        lemma_bit_div(words[spec_bit_group_word(g)], i);
    }
}

#[verifier::spinoff_prover]
proof fn lemma_round_bits(local: Seq<u32>, words: Seq<u64>, b: int)
    requires
        forall|g: int, i: int| 0 <= g < BIT_GROUPS && 0 <= i < 64 ==> #[trigger] gb(local, g, i) == bit_of(words[spec_bit_group_word(g)], i) as int,
        round_row_words(words),
        0 <= b < 64,
    ensures
        round_bit(local, 0, b) == bit_of(words[10], b) as int,
        round_bit(local, 1, b) == bit_of(words[11], b) as int,
        round_bit(local, 2, b) == bit_of(words[12], b) as int,
        round_bit(local, 3, b) == bit_of(words[13], b) as int,
{
    let j = b as u64;
    let w0 = words[0];
    let w1 = words[1];
    let w2 = words[2];
    let w4 = words[4];
    let w5 = words[5];
    let w6 = words[6];
    let i28 = (b + 28) % 64;
    let i34 = (b + 34) % 64;
    let i39 = (b + 39) % 64;
    let i14 = (b + 14) % 64;
    let i18 = (b + 18) % 64;
    let i41 = (b + 41) % 64;
    assert(gb(local, 0, i28) == bit_of(w0, i28) as int);
    assert(gb(local, 0, i34) == bit_of(w0, i34) as int);
    assert(gb(local, 0, i39) == bit_of(w0, i39) as int);
    assert(gb(local, 3, i14) == bit_of(w4, i14) as int);
    assert(gb(local, 3, i18) == bit_of(w4, i18) as int);
    assert(gb(local, 3, i41) == bit_of(w4, i41) as int);
    assert(gb(local, 0, b) == bit_of(w0, b) as int);
    assert(gb(local, 1, b) == bit_of(w1, b) as int);
    assert(gb(local, 2, b) == bit_of(w2, b) as int);
    assert(gb(local, 3, b) == bit_of(w4, b) as int);
    assert(gb(local, 4, b) == bit_of(w5, b) as int);
    assert(gb(local, 5, b) == bit_of(w6, b) as int);
    lemma_big_sigma0_bit(w0, j);
    lemma_big_sigma1_bit(w4, j);
    lemma_ch_bit(w4, w5, w6, j);
    lemma_maj_bit(w0, w1, w2, j);
    lemma_bit_div(w0, i28);
    lemma_bit_div(w0, i34);
    lemma_bit_div(w0, i39);
    lemma_bit_div(w4, i14);
    lemma_bit_div(w4, i18);
    lemma_bit_div(w4, i41);
    lemma_bit_div(w0, b);
    lemma_bit_div(w1, b);
    lemma_bit_div(w2, b);
    lemma_bit_div(w4, b);
    lemma_bit_div(w5, b);
    lemma_bit_div(w6, b);
    lemma_xor3f(bit_of(w0, i28), bit_of(w0, i34), bit_of(w0, i39));
    lemma_xor3f(bit_of(w4, i14), bit_of(w4, i18), bit_of(w4, i41));
    lemma_ch_f(bit_of(w4, b), bit_of(w5, b), bit_of(w6, b));
    lemma_maj_f(bit_of(w0, b), bit_of(w1, b), bit_of(w2, b));
}

#[verifier::spinoff_prover]
proof fn lemma_round_family(local: Seq<u32>, words: Seq<u64>, lags: Seq<u64>, carries: Seq<u16>)
    requires
        row_is(local, words, lags, carries),
        round_row_words(words),
    ensures
        round_words_ok(local),
{
    lemma_cells(local, words, lags, carries);
    lemma_gb_cells(local, words, lags, carries);
    lemma_round_limbs(local, words);
    assert forall|k: int| 0 <= k < 4 implies #[trigger] round_limb_ok(local, k) by {
        assert forall|kind: int| 0 <= kind < 4 implies #[trigger] wl(local, round_word(kind), k) == round_limb_packed(local, kind, k, 16) by {
            assert(round_limb_packed(local, kind, k, 16) == limb16(words[10 + kind], k) as int);
        }
    }
}

/// When the bit groups hold the bits of a, b, c, e, f, g, the bits of each round function
/// recombine to the limbs of Σ0(a), Σ1(e), Ch(e, f, g) and Maj(a, b, c).
pub(crate) proof fn lemma_round_limbs(local: Seq<u32>, words: Seq<u64>)
    requires
        forall|g: int, i: int| 0 <= g < BIT_GROUPS && 0 <= i < 64 ==> #[trigger] gb(local, g, i) == bit_of(words[spec_bit_group_word(g)], i) as int,
        round_row_words(words),
    ensures
        forall|kind: int, k: int| 0 <= kind < 4 && 0 <= k < 4 ==> #[trigger] round_limb_packed(local, kind, k, 16) == limb16(words[10 + kind], k) as int,
{
    assert forall|kind: int, k: int| 0 <= kind < 4 && 0 <= k < 4 implies #[trigger] round_limb_packed(local, kind, k, 16) == limb16(words[10 + kind], k) as int by {
        let y = words[10 + kind];
        assert forall|b: int| 16 * k <= b < 16 * k + 16 implies #[trigger] round_bit(local, kind, b) == bit_of(y, b) as int by {
            lemma_round_bits(local, words, b);
        }
        lemma_round_packed(local, kind, k, y, 16);
        lemma2_to64();
        lemma_limb_bound(y, (16 * k) as u64);
        lemma_small_mod(limb16(y, k) as nat, pow2(16));
        lemma_small_mod(limb16(y, k) as nat, BABY_BEAR_P as nat);
    }
}

/// A field sum of values whose integer sum stays below p is that integer sum.
pub(crate) proof fn lemma_fadd_small(a: int, b: int)
    requires
        0 <= a,
        0 <= b,
        a + b < BABY_BEAR_P,
    ensures
        fadd(a, b) == a + b,
{
    lemma_small_mod((a + b) as nat, BABY_BEAR_P as nat);
}

proof fn lemma_carry_times_base(c: int)
    requires
        0 <= c <= 4,
    ensures
        fmul(c, TWO16 as int) == c * 0x10000,
{
    lemma_small_mod((c * 0x10000) as nat, BABY_BEAR_P as nat);
}

/// Small field sums are integer sums.
#[verifier::spinoff_prover]
pub(crate) proof fn lemma_field_sum5(x1: int, x2: int, x3: int, x4: int, x5: int, cin: int, out: int, cout: int)
    requires
        0 <= x1 <= 0xffff,
        0 <= x2 <= 0xffff,
        0 <= x3 <= 0xffff,
        0 <= x4 <= 0xffff,
        0 <= x5 <= 0xffff,
        0 <= cin <= 4,
        0 <= out <= 0xffff,
        0 <= cout <= 4,
        x1 + x2 + x3 + x4 + x5 + cin == out + cout * 0x10000,
    ensures
        fadd(fadd(fadd(fadd(fadd(x1, x2), x3), x4), x5), cin) == fadd(out, fmul(cout, TWO16 as int)),
{
    lemma_fadd_small(x1, x2);
    lemma_fadd_small(x1 + x2, x3);
    lemma_fadd_small(x1 + x2 + x3, x4);
    lemma_fadd_small(x1 + x2 + x3 + x4, x5);
    lemma_fadd_small(x1 + x2 + x3 + x4 + x5, cin);
    lemma_carry_times_base(cout);
}

pub(crate) proof fn lemma_field_sum4(x1: int, x2: int, x3: int, x4: int, cin: int, out: int, cout: int)
    requires
        0 <= x1 <= 0xffff,
        0 <= x2 <= 0xffff,
        0 <= x3 <= 0xffff,
        0 <= x4 <= 0xffff,
        0 <= cin <= 3,
        0 <= out <= 0xffff,
        0 <= cout <= 3,
        x1 + x2 + x3 + x4 + cin == out + cout * 0x10000,
    ensures
        fadd(fadd(fadd(fadd(x1, x2), x3), x4), cin) == fadd(out, fmul(cout, TWO16 as int)),
{
    lemma_fadd_small(x1, x2);
    lemma_fadd_small(x1 + x2, x3);
    lemma_fadd_small(x1 + x2 + x3, x4);
    lemma_fadd_small(x1 + x2 + x3 + x4, cin);
    lemma_carry_times_base(cout);
}

pub(crate) proof fn lemma_field_sum2(x1: int, x2: int, cin: int, out: int, cout: int)
    requires
        0 <= x1 <= 0xffff,
        0 <= x2 <= 0xffff,
        0 <= cin <= 1,
        0 <= out <= 0xffff,
        0 <= cout <= 1,
        x1 + x2 + cin == out + cout * 0x10000,
    ensures
        fadd(fadd(x1, x2), cin) == fadd(out, fmul(cout, TWO16 as int)),
{
    lemma_fadd_small(x1, x2);
    lemma_fadd_small(x1 + x2, cin);
    lemma_carry_times_base(cout);
}

#[verifier::spinoff_prover]
proof fn lemma_add2_constraint(
    local: Seq<u32>,
    out_row: Seq<u32>,
    w: Seq<u64>,
    l: Seq<u64>,
    c: Seq<u16>,
    wo: Seq<u64>,
    lo: Seq<u64>,
    co: Seq<u16>,
    lhs: int,
    rhs: int,
    out: int,
    j: int,
    k: int,
)
    requires
        row_is(local, w, l, c),
        row_is(out_row, wo, lo, co),
        0 <= lhs < 16,
        0 <= rhs < 16,
        0 <= out < 16,
        1 <= j < 4,
        0 <= k < 4,
        c.subrange(4 * j, 4 * j + 4) == carries_of(seq![w[lhs], w[rhs]]),
        wo[out] == w[lhs].wrapping_add(w[rhs]),
    ensures
        add2_limb_ok(local, out_row, lhs, rhs, out, CARRY_T1_BASE + 4 * j, k),
{
    lemma_cells(local, w, l, c);
    lemma_cells(out_row, wo, lo, co);
    let ops = seq![w[lhs], w[rhs]];
    lemma_adder2(ops, w[lhs], w[rhs]);
    assert(adder_limb_ok(ops, wo[out], k));
    assert(limb_sum(ops, k, 2) == limb16(w[lhs], k) + limb16(w[rhs], k)) by {
        reveal_with_fuel(limb_sum, 3);
    }
    let base = CARRY_T1_BASE + 4 * j;
    assert(c[4 * j + k] == carries_of(ops)[k]);
    assert(cv(local, base + k) == limb_carry(ops, k as nat));
    if k > 0 {
        assert(adder_limb_ok(ops, wo[out], k - 1));
        assert(c[4 * j + k - 1] == carries_of(ops)[k - 1]);
        assert(cv(local, base + k - 1) == limb_carry(ops, (k - 1) as nat));
    }
    lemma_limb_bound(w[lhs], (16 * k) as u64);
    lemma_limb_bound(w[rhs], (16 * k) as u64);
    lemma_limb_bound(wo[out], (16 * k) as u64);
    lemma_field_sum2(
        limb16(w[lhs], k) as int,
        limb16(w[rhs], k) as int,
        carry_in(local, base, k),
        limb16(wo[out], k) as int,
        limb_carry(ops, k as nat),
    );
}

#[verifier::spinoff_prover]
proof fn lemma_t1_constraint(local: Seq<u32>, w: Seq<u64>, l: Seq<u64>, c: Seq<u16>, k: int)
    requires
        row_is(local, w, l, c),
        0 <= k < 4,
        c.subrange(0, 4) == carries_of(seq![w[7], w[11], w[12], w[9], w[8]]),
        w[14] == w[7].wrapping_add(w[11]).wrapping_add(w[12]).wrapping_add(w[9]).wrapping_add(w[8]),
    ensures
        add_t1_limb_ok(local, k),
{
    lemma_cells(local, w, l, c);
    let ops = seq![w[7], w[11], w[12], w[9], w[8]];
    lemma_adder5(ops, w[7], w[11], w[12], w[9], w[8]);
    assert(adder_limb_ok(ops, w[14], k));
    assert(limb_sum(ops, k, 5) == limb16(w[7], k) + limb16(w[11], k) + limb16(w[12], k) + limb16(w[9], k) + limb16(w[8], k)) by {
        reveal_with_fuel(limb_sum, 6);
    }
    let base = CARRY_T1_BASE as int;
    assert(c[k] == carries_of(ops)[k]);
    assert(cv(local, base + k) == limb_carry(ops, k as nat));
    if k > 0 {
        assert(adder_limb_ok(ops, w[14], k - 1));
        assert(c[k - 1] == carries_of(ops)[k - 1]);
        assert(cv(local, base + k - 1) == limb_carry(ops, (k - 1) as nat));
    }
    lemma_limb_bound(w[7], (16 * k) as u64);
    lemma_limb_bound(w[11], (16 * k) as u64);
    lemma_limb_bound(w[12], (16 * k) as u64);
    lemma_limb_bound(w[9], (16 * k) as u64);
    lemma_limb_bound(w[8], (16 * k) as u64);
    lemma_limb_bound(w[14], (16 * k) as u64);
    lemma_field_sum5(
        limb16(w[7], k) as int,
        limb16(w[11], k) as int,
        limb16(w[12], k) as int,
        limb16(w[9], k) as int,
        limb16(w[8], k) as int,
        carry_in(local, base, k),
        limb16(w[14], k) as int,
        limb_carry(ops, k as nat),
    );
}

#[verifier::spinoff_prover]
pub(crate) proof fn lemma_sigma_bits(local: Seq<u32>, l1: u64, l14: u64)
    requires
        forall|b: int| 0 <= b < 64 ==> #[trigger] lag_bit(local, true, b) == bit_of(l1, b) as int,
        forall|b: int| 0 <= b < 64 ==> #[trigger] lag_bit(local, false, b) == bit_of(l14, b) as int,
    ensures
        forall|b: int| 0 <= b < 64 ==> #[trigger] sigma_bit(local, true, b) == bit_of(spec_small_sigma1(l1), b) as int,
        forall|b: int| 0 <= b < 64 ==> #[trigger] sigma_bit(local, false, b) == bit_of(spec_small_sigma0(l14), b) as int,
{
    assert forall|b: int| 0 <= b < 64 implies #[trigger] sigma_bit(local, true, b) == bit_of(spec_small_sigma1(l1), b) as int by {
        let x = l1;
        lemma_small_sigma1_bit(x, b as u64);
        let b1 = (b + 19) % 64;
        let b2 = (b + 61) % 64;
        lemma_bit_div(x, b1);
        lemma_bit_div(x, b2);
        assert(lag_bit(local, true, b1) == bit_of(x, b1) as int);
        assert(lag_bit(local, true, b2) == bit_of(x, b2) as int);
        let z: u64 = if b + 6 < 64 { bit_of(x, b + 6) } else { 0 };
        if b + 6 < 64 {
            lemma_bit_div(x, b + 6);
            assert(lag_bit(local, true, b + 6) == bit_of(x, b + 6) as int);
        }
        lemma_xor3f(bit_of(x, b1), bit_of(x, b2), z);
    }
    assert forall|b: int| 0 <= b < 64 implies #[trigger] sigma_bit(local, false, b) == bit_of(spec_small_sigma0(l14), b) as int by {
        let x = l14;
        lemma_small_sigma0_bit(x, b as u64);
        let b1 = (b + 1) % 64;
        let b2 = (b + 8) % 64;
        lemma_bit_div(x, b1);
        lemma_bit_div(x, b2);
        assert(lag_bit(local, false, b1) == bit_of(x, b1) as int);
        assert(lag_bit(local, false, b2) == bit_of(x, b2) as int);
        let z: u64 = if b + 7 < 64 { bit_of(x, b + 7) } else { 0 };
        if b + 7 < 64 {
            lemma_bit_div(x, b + 7);
            assert(lag_bit(local, false, b + 7) == bit_of(x, b + 7) as int);
        }
        lemma_xor3f(bit_of(x, b1), bit_of(x, b2), z);
    }
}

proof fn lemma_schedule_family(local: Seq<u32>, w: Seq<u64>, l: Seq<u64>, c: Seq<u16>)
    requires
        row_is(local, w, l, c),
        schedule_row_ok(w, l, c),
    ensures
        schedule_ok(local),
{
    assert forall|k: int| 0 <= k < 4 implies #[trigger] schedule_limb_ok(local, k) by {
        lemma_schedule_sum(local, w, l, c, k);
    }
}

pub(crate) proof fn lemma_sigma_limb(local: Seq<u32>, sigma1: bool, k: int, y: u64)
    requires
        0 <= k < 4,
        forall|b: int| 0 <= b < 64 ==> #[trigger] sigma_bit(local, sigma1, b) == bit_of(y, b) as int,
    ensures
        sigma_limb_packed(local, sigma1, k, 16) == limb16(y, k) as int,
{
    lemma_sigma_packed(local, sigma1, k, y, 16);
    lemma2_to64();
    lemma_limb_bound(y, (16 * k) as u64);
    lemma_small_mod(limb16(y, k) as nat, pow2(16));
    lemma_small_mod(limb16(y, k) as nat, BABY_BEAR_P as nat);
}

/// The working-schedule relation of a schedule row: W from σ1, σ0 of the lags and its carries.
spec fn schedule_row_ok(w: Seq<u64>, l: Seq<u64>, c: Seq<u16>) -> bool {
    &&& w[8] == schedule_step(l[1], l[6], l[14], l[15])
    &&& c.subrange(16, 20) == carries_of(seq![spec_small_sigma1(l[1]), l[6], spec_small_sigma0(l[14]), l[15]])
}

/// The schedule sum of limb `k` equals limb `k` of W plus its carry, in the field.
#[verifier::spinoff_prover]
proof fn lemma_schedule_sum(local: Seq<u32>, w: Seq<u64>, l: Seq<u64>, c: Seq<u16>, k: int)
    requires
        row_is(local, w, l, c),
        0 <= k < 4,
        schedule_row_ok(w, l, c),
    ensures
        ({
            let base = SCHED_CARRY_BASE as int;
            fadd(
                fadd(
                    fadd(
                        fadd(sigma_limb_packed(local, true, k, 16), cv(local, spec_lag_limb_col(6, k))),
                        sigma_limb_packed(local, false, k, 16),
                    ),
                    cv(local, spec_lag_limb_col(15, k)),
                ),
                carry_in(local, base, k),
            ) == fadd(wl(local, WORD_W as int, k), fmul(cv(local, base + k), TWO16 as int))
        }),
{
    lemma_cells(local, w, l, c);
    lemma_lag_bit_families(local, w, l, c);
    lemma_sigma_bits(local, l[1], l[14]);
    let s1 = spec_small_sigma1(l[1]);
    let s0 = spec_small_sigma0(l[14]);
    lemma_sigma_limb(local, true, k, s1);
    lemma_sigma_limb(local, false, k, s0);
    let ops = seq![s1, l[6], s0, l[15]];
    lemma_adder4(ops, s1, l[6], s0, l[15]);
    assert(adder_limb_ok(ops, w[8], k));
    assert(limb_sum(ops, k, 4) == limb16(s1, k) + limb16(l[6], k) + limb16(s0, k) + limb16(l[15], k)) by {
        reveal_with_fuel(limb_sum, 5);
    }
    let base = SCHED_CARRY_BASE as int;
    assert(c[16 + k] == carries_of(ops)[k]);
    assert(cv(local, base + k) == limb_carry(ops, k as nat));
    if k > 0 {
        assert(adder_limb_ok(ops, w[8], k - 1));
        assert(c[16 + k - 1] == carries_of(ops)[k - 1]);
        assert(cv(local, base + k - 1) == limb_carry(ops, (k - 1) as nat));
    }
    lemma_limb_bound(s1, (16 * k) as u64);
    lemma_limb_bound(l[6], (16 * k) as u64);
    lemma_limb_bound(s0, (16 * k) as u64);
    lemma_limb_bound(l[15], (16 * k) as u64);
    lemma_limb_bound(w[8], (16 * k) as u64);
    lemma_field_sum4(
        limb16(s1, k) as int,
        limb16(l[6], k) as int,
        limb16(s0, k) as int,
        limb16(l[15], k) as int,
        carry_in(local, base, k),
        limb16(w[8], k) as int,
        limb_carry(ops, k as nat),
    );
}

/// How the words, lags and carries of a row and of the next row are related by one step of the
/// round function: the four additions with their carries, the register shifts and the lag shift.
spec fn step_ok(w: Seq<u64>, l: Seq<u64>, c: Seq<u16>, w2: Seq<u64>, l2: Seq<u64>) -> bool {
    &&& c.subrange(0, 4) == carries_of(seq![w[7], w[11], w[12], w[9], w[8]])
    &&& w[14] == w[7].wrapping_add(w[11]).wrapping_add(w[12]).wrapping_add(w[9]).wrapping_add(w[8])
    &&& c.subrange(4, 8) == carries_of(seq![w[10], w[13]])
    &&& w[15] == w[10].wrapping_add(w[13])
    &&& c.subrange(8, 12) == carries_of(seq![w[14], w[15]])
    &&& w2[0] == w[14].wrapping_add(w[15])
    &&& c.subrange(12, 16) == carries_of(seq![w[3], w[14]])
    &&& w2[4] == w[3].wrapping_add(w[14])
    &&& w2[1] == w[0]
    &&& w2[2] == w[1]
    &&& w2[3] == w[2]
    &&& w2[5] == w[4]
    &&& w2[6] == w[5]
    &&& w2[7] == w[6]
    &&& l2[0] == w[8]
    &&& forall|i: int| 1 <= i < 16 ==> #[trigger] l2[i] == l[i - 1]
}

#[verifier::spinoff_prover]
proof fn lemma_transition(
    local: Seq<u32>,
    next: Seq<u32>,
    w: Seq<u64>,
    l: Seq<u64>,
    c: Seq<u16>,
    w2: Seq<u64>,
    l2: Seq<u64>,
    c2: Seq<u16>,
)
    requires
        row_is(local, w, l, c),
        row_is(next, w2, l2, c2),
        step_ok(w, l, c, w2, l2),
    ensures
        transition_ok(local, next),
{
    lemma_cells(local, w, l, c);
    lemma_cells(next, w2, l2, c2);
    assert forall|k: int| 0 <= k < 4 implies #[trigger] transition_limb_ok(local, next, k) by {
        lemma_t1_constraint(local, w, l, c, k);
        lemma_add2_constraint(local, local, w, l, c, w, l, c, 10, 13, 15, 1, k);
        lemma_add2_constraint(local, next, w, l, c, w2, l2, c2, 14, 15, 0, 2, k);
        lemma_add2_constraint(local, next, w, l, c, w2, l2, c2, 3, 14, 4, 3, k);
        assert(wl(next, WORD_B as int, k) == wl(local, WORD_A as int, k));
        assert(wl(next, WORD_C as int, k) == wl(local, WORD_B as int, k));
        assert(wl(next, WORD_D as int, k) == wl(local, WORD_C as int, k));
        assert(wl(next, WORD_F as int, k) == wl(local, WORD_E as int, k));
        assert(wl(next, WORD_G as int, k) == wl(local, WORD_F as int, k));
        assert(wl(next, WORD_H as int, k) == wl(local, WORD_G as int, k));
        assert(cv(next, spec_lag_limb_col(0, k)) == limb16(l2[0], k) as int);
        assert(wl(local, WORD_W as int, k) == limb16(w[8], k) as int);
    }
    assert forall|i: int| 1 <= i < LAG_COUNT implies #[trigger] lag_shift_ok(local, next, i) by {
        assert(l2[i] == l[i - 1]);
        assert forall|k: int| 0 <= k < 4 implies #[trigger] cv(next, spec_lag_limb_col(i, k)) == cv(local, spec_lag_limb_col(i - 1, k)) by {
            assert(cv(next, spec_lag_limb_col(i, k)) == limb16(l2[i], k) as int);
            assert(cv(local, spec_lag_limb_col(i - 1, k)) == limb16(l[i - 1], k) as int);
        }
    }
}

proof fn lemma_pad_state_len(rs: Seq<Seq<u64>>, r: nat)
    requires
        rs.len() == 81,
        rs[80].len() == 8,
    ensures
        pad_state(rs, r).len() == 8,
    decreases r,
{
    if r > 80 {
        lemma_pad_state_len(rs, (r - 1) as nat);
    }
}

proof fn lemma_compression_rounds_shape(state: Seq<u64>, m: Seq<u64>)
    ensures
        compression_rounds(state, m).len() == 81,
        compression_rounds(state, m)[80].len() == 8,
        compression_rounds(state, m)[0] == state,
        forall|r: int| 0 <= r < 80 ==> #[trigger] compression_rounds(state, m)[r + 1] == round_step(
            compression_rounds(state, m)[r],
            K[r],
            compression_words(m)[r],
        ),
{
    let rs = compression_rounds(state, m);
    assert(rs[80] == round_state(state, m, 80));
    assert forall|r: int| 0 <= r < 80 implies #[trigger] rs[r + 1] == round_step(rs[r], K[r], compression_words(m)[r]) by {
        assert(rs[r + 1] == round_state(state, m, (r + 1) as nat));
        assert(rs[r] == round_state(state, m, r as nat));
    }
}

proof fn lemma_wrapping_add_zero(x: u64)
    ensures
        x.wrapping_add(0) == x,
        0u64.wrapping_add(x) == x,
{
}

/// The words, lags and carries of rows `r` and `r + 1` of a compression trace are related by
/// one step.
#[verifier::spinoff_prover]
proof fn lemma_trace_step(state: Seq<u64>, m: Seq<u64>, r: int)
    requires
        0 <= r < 127,
    ensures
        ({
            let ws = compression_words(m);
            let rs = compression_rounds(state, m);
            step_ok(row_words(ws, rs, r), row_lags(ws, r), row_carries(ws, rs, r), row_words(ws, rs, r + 1), row_lags(ws, r + 1))
        }),
{
    let ws = compression_words(m);
    let rs = compression_rounds(state, m);
    lemma_compression_rounds_shape(state, m);
    let w = row_words(ws, rs, r);
    let l = row_lags(ws, r);
    let c = row_carries(ws, rs, r);
    let w2 = row_words(ws, rs, r + 1);
    let l2 = row_lags(ws, r + 1);
    assert forall|i: int| 1 <= i < 16 implies #[trigger] l2[i] == l[i - 1] by {}
    if r < 80 {
        let s = rs[r];
        let t1 = round_t1(s, K[r], ws[r]);
        let t2 = round_t2(s);
        let c1 = carries_of(seq![s[7], spec_big_sigma1(s[4]), spec_ch(s[4], s[5], s[6]), K[r], ws[r]]);
        let c2 = carries_of(seq![spec_big_sigma0(s[0]), spec_maj(s[0], s[1], s[2])]);
        let c3 = carries_of(seq![t1, t2]);
        let c4 = carries_of(seq![s[3], t1]);
        let sched = if r >= 16 {
            carries_of(seq![spec_small_sigma1(ws[r - 2]), ws[r - 7], spec_small_sigma0(ws[r - 15]), ws[r - 16]])
        } else {
            Seq::new(4, |i: int| 0u16)
        };
        assert(c == c1 + c2 + c3 + c4 + sched);
        assert(c.subrange(0, 4) =~= c1);
        assert(c.subrange(4, 8) =~= c2);
        assert(c.subrange(8, 12) =~= c3);
        assert(c.subrange(12, 16) =~= c4);
        assert(seq![w[7], w[11], w[12], w[9], w[8]] =~= seq![s[7], spec_big_sigma1(s[4]), spec_ch(s[4], s[5], s[6]), K[r], ws[r]]);
        assert(seq![w[10], w[13]] =~= seq![spec_big_sigma0(s[0]), spec_maj(s[0], s[1], s[2])]);
        assert(seq![w[14], w[15]] =~= seq![t1, t2]);
        assert(seq![w[3], w[14]] =~= seq![s[3], t1]);
        let s2 = rs[r + 1];
        assert(s2 == round_step(s, K[r], ws[r]));
        if r + 1 < 80 {
            assert(w2[0] == s2[0] && w2[1] == s2[1] && w2[2] == s2[2] && w2[3] == s2[3]);
            assert(w2[4] == s2[4] && w2[5] == s2[5] && w2[6] == s2[6] && w2[7] == s2[7]);
        } else {
            assert(pad_state(rs, 80) == rs[80]);
            assert(w2 == rs[80] + seq![0u64, 0, 0, 0, 0, 0, rs[80][7], 0]);
            assert(w2[0] == s2[0] && w2[1] == s2[1] && w2[2] == s2[2] && w2[3] == s2[3]);
            assert(w2[4] == s2[4] && w2[5] == s2[5] && w2[6] == s2[6] && w2[7] == s2[7]);
        }
    } else {
        let s = pad_state(rs, r as nat);
        lemma_pad_state_len(rs, r as nat);
        lemma_pad_state_len(rs, (r + 1) as nat);
        assert(w == s + seq![0u64, 0, 0, 0, 0, 0, s[7], 0]);
        let c1 = carries_of(seq![s[7], 0u64, 0, 0, 0]);
        let c2 = carries_of(seq![0u64, 0]);
        let c3 = carries_of(seq![s[7], 0u64]);
        let c4 = carries_of(seq![s[3], s[7]]);
        assert(c == c1 + c2 + c3 + c4 + Seq::new(4, |i: int| 0u16));
        assert(c.subrange(0, 4) =~= c1);
        assert(c.subrange(4, 8) =~= c2);
        assert(c.subrange(8, 12) =~= c3);
        assert(c.subrange(12, 16) =~= c4);
        assert(seq![w[7], w[11], w[12], w[9], w[8]] =~= seq![s[7], 0u64, 0, 0, 0]);
        assert(seq![w[10], w[13]] =~= seq![0u64, 0]);
        assert(seq![w[14], w[15]] =~= seq![s[7], 0u64]);
        assert(seq![w[3], w[14]] =~= seq![s[3], s[7]]);
        lemma_wrapping_add_zero(s[7]);
        lemma_wrapping_add_zero(0);
        let s2 = pad_state(rs, (r + 1) as nat);
        assert(s2 == pad_step(s));
        if r + 1 < 127 {
            assert(w2 == s2 + seq![0u64, 0, 0, 0, 0, 0, s2[7], 0]);
        } else {
            assert(w2 == s2 + Seq::new(8, |i: int| 0u64));
        }
        assert(w2[0] == s2[0] && w2[1] == s2[1] && w2[2] == s2[2] && w2[3] == s2[3]);
        assert(w2[4] == s2[4] && w2[5] == s2[5] && w2[6] == s2[6] && w2[7] == s2[7]);
    }
}

proof fn lemma_limb_of_zero(k: int)
    requires
        0 <= k < 4,
    ensures
        limb16(0, k) == 0,
{
    let s = (16 * k) as u64;
    assert((0u64 >> s) & 0xffff == 0) by (bit_vector);
}

proof fn lemma_carries_of_bound(ops: Seq<u64>, k: int)
    requires
        1 <= ops.len() <= 5,
        0 <= k < 4,
    ensures
        carries_of(ops)[k] as int <= ops.len() - 1,
{
    lemma_limb_carry_bound(ops, k as nat);
}

/// The shape of row `r` of a compression trace.
#[verifier::spinoff_prover]
proof fn lemma_trace_row_shape(state: Seq<u64>, m: Seq<u64>, r: int)
    requires
        0 <= r < 128,
    ensures
        ({
            let ws = compression_words(m);
            let rs = compression_rounds(state, m);
            let w = row_words(ws, rs, r);
            let l = row_lags(ws, r);
            let c = row_carries(ws, rs, r);
            &&& w.len() == 16
            &&& l.len() == 16
            &&& c.len() == 20
            &&& carries_fit(c)
            &&& r < 80 ==> round_row_words(w)
            &&& 16 <= r < 80 ==> schedule_row_ok(w, l, c)
            &&& w[8] == (if r < 80 { ws[r] } else { 0 })
            &&& w[9] == (if r < 80 { K[r] } else { 0 })
            &&& r == 0 ==> forall|i: int| 0 <= i < 8 ==> #[trigger] w[i] == state[i]
            &&& r == 80 ==> forall|i: int| 0 <= i < 8 ==> #[trigger] w[i] == round_state(state, m, 80)[i]
            &&& r == 127 ==> (forall|i: int| 8 <= i < 16 ==> #[trigger] w[i] == 0)
            &&& r == 127 ==> (forall|i: int| 0 <= i < 20 ==> #[trigger] c[i] == 0)
            &&& r == 127 ==> (forall|i: int| 0 <= i < 16 ==> #[trigger] l[i] == 0)
        }),
{
    let ws = compression_words(m);
    let rs = compression_rounds(state, m);
    lemma_compression_rounds_shape(state, m);
    let w = row_words(ws, rs, r);
    let l = row_lags(ws, r);
    let c = row_carries(ws, rs, r);
    if r >= 80 {
        lemma_pad_state_len(rs, r as nat);
    }
    if r == 80 {
        assert(pad_state(rs, 80) == rs[80]);
        assert(rs[80] == round_state(state, m, 80));
    }
    if 16 <= r < 80 {
        assert(ws[r] == schedule_word(m, r as nat));
        assert(l[1] == ws[r - 2] && l[6] == ws[r - 7] && l[14] == ws[r - 15] && l[15] == ws[r - 16]);
        assert(ws[r - 2] == schedule_word(m, (r - 2) as nat));
        assert(ws[r - 7] == schedule_word(m, (r - 7) as nat));
        assert(ws[r - 15] == schedule_word(m, (r - 15) as nat));
        assert(ws[r - 16] == schedule_word(m, (r - 16) as nat));
        assert(c.subrange(16, 20) =~= carries_of(seq![spec_small_sigma1(l[1]), l[6], spec_small_sigma0(l[14]), l[15]]));
    }
    assert forall|j: int| 0 <= j < 20 implies #[trigger] c[j] <= (if j < 4 { 4int } else if j < 16 { 1int } else { 3int }) by {
        if r < 80 {
            let s = rs[r];
            let t1 = round_t1(s, K[r], ws[r]);
            let t2 = round_t2(s);
            let o1 = seq![s[7], spec_big_sigma1(s[4]), spec_ch(s[4], s[5], s[6]), K[r], ws[r]];
            let o2 = seq![spec_big_sigma0(s[0]), spec_maj(s[0], s[1], s[2])];
            let o3 = seq![t1, t2];
            let o4 = seq![s[3], t1];
            if j < 4 {
                lemma_carries_of_bound(o1, j);
            } else if j < 8 {
                lemma_carries_of_bound(o2, j - 4);
            } else if j < 12 {
                lemma_carries_of_bound(o3, j - 8);
            } else if j < 16 {
                lemma_carries_of_bound(o4, j - 12);
            } else if r >= 16 {
                lemma_carries_of_bound(seq![spec_small_sigma1(ws[r - 2]), ws[r - 7], spec_small_sigma0(ws[r - 15]), ws[r - 16]], j - 16);
            }
        } else if r < 127 {
            let s = pad_state(rs, r as nat);
            if j < 4 {
                lemma_carries_of_bound(seq![s[7], 0u64, 0, 0, 0], j);
            } else if j < 8 {
                lemma_carries_of_bound(seq![0u64, 0], j - 4);
            } else if j < 12 {
                lemma_carries_of_bound(seq![s[7], 0u64], j - 8);
            } else if j < 16 {
                lemma_carries_of_bound(seq![s[3], s[7]], j - 12);
            }
        }
    }
}

pub(crate) proof fn lemma_prep_row(state: Seq<u64>, m: Seq<u64>, r: int)
    requires
        0 <= r < 128,
    ensures
        row_of(instance_prep(state, m), r).len() == AIR_WIDTH,
        forall|c: int| 0 <= c < AIR_WIDTH ==> #[trigger] row_of(instance_prep(state, m), r)[c] == prep_cell(state, m, r, c),
{
    let v = instance_prep(state, m);
    assert(r * AIR_WIDTH + AIR_WIDTH <= 128 * AIR_WIDTH);
    assert forall|c: int| 0 <= c < AIR_WIDTH implies #[trigger] row_of(v, r)[c] == prep_cell(state, m, r, c) by {
        let j = r * AIR_WIDTH + c;
        lemma_fundamental_div_mod_converse(j, AIR_WIDTH as int, r, c);
        assert(row_of(v, r)[c] == v[j]);
    }
}

proof fn lemma_main_row(values: Seq<u32>, state: Seq<u64>, m: Seq<u64>, r: int)
    requires
        0 <= r < 128,
        holds_trace_rows(values, compression_words(m), compression_rounds(state, m), TRACE_ROWS as int),
    ensures
        ({
            let ws = compression_words(m);
            let rs = compression_rounds(state, m);
            row_is(row_of(values, r), row_words(ws, rs, r), row_lags(ws, r), row_carries(ws, rs, r))
        }),
{
    let ws = compression_words(m);
    let rs = compression_rounds(state, m);
    lemma_trace_row_shape(state, m, r);
    assert(r * AIR_WIDTH + AIR_WIDTH <= 128 * AIR_WIDTH);
    assert forall|c: int| 0 <= c < AIR_WIDTH implies #[trigger] row_of(values, r)[c] == row_cell(
        row_words(ws, rs, r),
        row_lags(ws, r),
        row_carries(ws, rs, r),
        c,
    ) by {
        assert(values[r * AIR_WIDTH + c] == trace_cell(ws, rs, r, c));
    }
}

#[verifier::spinoff_prover]
proof fn lemma_binding(local: Seq<u32>, prep: Seq<u32>, state: Seq<u64>, m: Seq<u64>, r: int)
    requires
        0 <= r < 128,
        ({
            let ws = compression_words(m);
            let rs = compression_rounds(state, m);
            row_is(local, row_words(ws, rs, r), row_lags(ws, r), row_carries(ws, rs, r))
        }),
        prep.len() == AIR_WIDTH,
        forall|c: int| 0 <= c < AIR_WIDTH ==> #[trigger] prep[c] == prep_cell(state, m, r, c),
    ensures
        binding_ok(local, prep),
        r == 0 ==> first_row_ok(local, prep),
{
    let ws = compression_words(m);
    let rs = compression_rounds(state, m);
    let w = row_words(ws, rs, r);
    lemma_trace_row_shape(state, m, r);
    lemma_cells(local, w, row_lags(ws, r), row_carries(ws, rs, r));
    assert forall|x: int| #[trigger] fmul(0, x) == 0 && fmul(x, 0) == 0 by {}
    assert forall|x: int| #[trigger] fsub(x, x) == 0 by {}
    assert(fsub(1, 1) == 0);
    assert(prep[PREP_ROUND_SELECTOR_COL as int] == prep_cell(state, m, r, PREP_ROUND_SELECTOR_COL as int));
    assert(prep[PREP_INIT_W_SELECTOR_COL as int] == prep_cell(state, m, r, PREP_INIT_W_SELECTOR_COL as int));
    if r < 80 {
        assert(ws[r] == schedule_word(m, r as nat));
    }
    assert forall|k: int| 0 <= k < 4 implies #[trigger] binding_limb_ok(local, prep, k) by {
        let kc = spec_limb_col(WORD_K as int, k);
        let wc = spec_limb_col(WORD_W as int, k);
        assert(prep[kc] == prep_cell(state, m, r, kc));
        assert(prep[wc] == prep_cell(state, m, r, wc));
        lemma_limb_of_zero(k);
        lemma_limb_bound(w[9], (16 * k) as u64);
        lemma_limb_bound(w[8], (16 * k) as u64);
        assert(kc - 36 == k && wc - 32 == k);
        assert(wl(local, WORD_K as int, k) == wl(prep, WORD_K as int, k));
        let lw = wl(local, WORD_W as int, k);
        let iw = cv(prep, PREP_INIT_W_SELECTOR_COL as int);
        let rd = cv(prep, PREP_ROUND_SELECTOR_COL as int);
        if r < 16 {
            assert(lw == wl(prep, WORD_W as int, k));
            assert(fsub(lw, wl(prep, WORD_W as int, k)) == 0);
            assert(fmul(iw, 0) == 0);
        } else {
            assert(iw == 0);
            assert(fmul(0, fsub(lw, wl(prep, WORD_W as int, k))) == 0);
        }
        if r >= 80 {
            assert(lw == 0);
            assert(fmul(fsub(1, rd), 0) == 0);
        } else {
            assert(rd == 1);
            assert(fmul(0, lw) == 0);
        }
    }
    if r == 0 {
        assert forall|i: int, k: int| 0 <= i < 8 && 0 <= k < 4 implies #[trigger] wl(local, i, k) == wl(prep, i, k) by {
            let c = spec_limb_col(i, k);
            assert(prep[c] == prep_cell(state, m, 0, c));
            assert(c / 4 == i && c % 4 == k);
            assert(w[i] == state[i]);
            lemma_limb_bound(state[i], (16 * k) as u64);
        }
    }
}

#[verifier::spinoff_prover]
proof fn lemma_last_row(local: Seq<u32>, state: Seq<u64>, m: Seq<u64>)
    requires
        ({
            let ws = compression_words(m);
            let rs = compression_rounds(state, m);
            row_is(local, row_words(ws, rs, 127), row_lags(ws, 127), row_carries(ws, rs, 127))
        }),
    ensures
        last_row_ok(local),
{
    let ws = compression_words(m);
    let rs = compression_rounds(state, m);
    let w = row_words(ws, rs, 127);
    let l = row_lags(ws, 127);
    let c = row_carries(ws, rs, 127);
    lemma_trace_row_shape(state, m, 127);
    lemma_cells(local, w, l, c);
    assert forall|i: int, k: int| WORD_W <= i < WORD_COUNT && 0 <= k < 4 implies #[trigger] wl(local, i, k) == 0 by {
        lemma_limb_of_zero(k);
    }
    assert forall|j: int| CARRY_T1_BASE <= j < BIT_A_BASE implies #[trigger] cv(local, j) == 0 by {
        if j < 80 {
            assert(cv(local, CARRY_T1_BASE + (j - 64)) == c[j - 64] as int);
        } else if j < 144 {
            let ll = (j - 80) / 4;
            let k = (j - 80) % 4;
            assert(spec_lag_limb_col(ll, k) == j);
            lemma_limb_of_zero(k);
            assert(cv(local, spec_lag_limb_col(ll, k)) == limb16(l[ll], k) as int);
        } else {
            assert(cv(local, SCHED_CARRY_BASE + (j - 144)) == c[16 + (j - 144)] as int);
        }
    }
}

#[verifier::spinoff_prover]
proof fn lemma_public(local: Seq<u32>, state: Seq<u64>, m: Seq<u64>)
    requires
        ({
            let ws = compression_words(m);
            let rs = compression_rounds(state, m);
            row_is(local, row_words(ws, rs, 80), row_lags(ws, 80), row_carries(ws, rs, 80))
        }),
    ensures
        public_ok(local, instance_public_values(state, m)),
{
    let ws = compression_words(m);
    let rs = compression_rounds(state, m);
    let w = row_words(ws, rs, 80);
    lemma_trace_row_shape(state, m, 80);
    lemma_cells(local, w, row_lags(ws, 80), row_carries(ws, rs, 80));
    let pv = instance_public_values(state, m);
    assert forall|i: int| 0 <= i < 8 implies #[trigger] limbs_packed(local, spec_limb_col(i, 0)) == fval(pv[i]) by {
        assert forall|k: int| 0 <= k < 4 implies #[trigger] local[spec_limb_col(i, 0) + k] == limb16(w[i], k) as u32 by {
            assert(spec_limb_col(i, 0) + k == spec_limb_col(i, k));
        }
        lemma_limbs_packed(local, spec_limb_col(i, 0), w[i]);
        assert(w[i] == round_state(state, m, 80)[i]);
    }
}

#[verifier::spinoff_prover]
proof fn lemma_window(values: Seq<u32>, state: Seq<u64>, m: Seq<u64>, r: int)
    requires
        0 <= r < 128,
        holds_trace_rows(values, compression_words(m), compression_rounds(state, m), TRACE_ROWS as int),
    ensures
        window_ok(values, instance_prep(state, m), instance_public_values(state, m), r),
{
    let ws = compression_words(m);
    let rs = compression_rounds(state, m);
    let local = row_of(values, r);
    let prep = row_of(instance_prep(state, m), r);
    let w = row_words(ws, rs, r);
    let l = row_lags(ws, r);
    let c = row_carries(ws, rs, r);
    lemma_main_row(values, state, m, r);
    lemma_prep_row(state, m, r);
    lemma_trace_row_shape(state, m, r);
    lemma_bit_group_families(local, w, l, c);
    lemma_lag_bit_families(local, w, l, c);
    lemma_range_families(local, w, l, c);
    lemma_carry_families(local, w, l, c);
    assert(prep[PREP_ROUND_SELECTOR_COL as int] == prep_cell(state, m, r, PREP_ROUND_SELECTOR_COL as int));
    assert(prep[PREP_INIT_W_SELECTOR_COL as int] == prep_cell(state, m, r, PREP_INIT_W_SELECTOR_COL as int));
    assert(prep[PREP_TRANSITION_SELECTOR_COL as int] == prep_cell(state, m, r, PREP_TRANSITION_SELECTOR_COL as int));
    assert(prep[PREP_BLOCK_START_SELECTOR_COL as int] == prep_cell(state, m, r, PREP_BLOCK_START_SELECTOR_COL as int));
    assert(prep[PREP_FINAL_SELECTOR_COL as int] == prep_cell(state, m, r, PREP_FINAL_SELECTOR_COL as int));
    lemma_binding(local, prep, state, m, r);
    if r < 80 {
        lemma_round_family(local, w, l, c);
    }
    if 16 <= r < 80 {
        lemma_schedule_family(local, w, l, c);
    }
    assert(fsub(0, 0) == 0 && fsub(1, 1) == 0 && fsub(1, 0) == 1);
    if r < 127 {
        let next = row_of(values, r + 1);
        lemma_main_row(values, state, m, r + 1);
        lemma_trace_step(state, m, r);
        lemma_transition(local, next, w, l, c, row_words(ws, rs, r + 1), row_lags(ws, r + 1), row_carries(ws, rs, r + 1));
    } else {
        lemma_last_row(local, state, m);
    }
    if r == 80 {
        lemma_public(local, state, m);
    }
}

/// An honest trace is accepted: the main trace laid out for the compression of the message
/// words `m` from `state` satisfies every AIR constraint against the preprocessed trace and
/// the public values of that instance.
pub proof fn lemma_honest_trace_accepted(values: Seq<u32>, state: Seq<u64>, m: Seq<u64>)
    requires
        holds_trace_rows(values, compression_words(m), compression_rounds(state, m), TRACE_ROWS as int),
    ensures
        air_accepts(values, instance_prep(state, m), instance_public_values(state, m)),
{
    assert forall|r: int| 0 <= r < TRACE_ROWS implies #[trigger] window_ok(values, instance_prep(state, m), instance_public_values(state, m), r) by {
        lemma_window(values, state, m, r);
    }
}

/// The main trace that `build_plonky3_air_trace` lays out for a compression trace of the
/// message words `m` from `state` is accepted against the preprocessed trace and the public
/// values of `(state, m)`.
pub proof fn lemma_compression_trace_accepted(t: BlockTrace, state: Seq<u64>, m: Seq<u64>, values: Seq<u32>)
    requires
        is_compression_trace(t, state, m),
        holds_trace_rows(values, t.words@, rounds_of(t), TRACE_ROWS as int),
    ensures
        air_accepts(values, instance_prep(state, m), instance_public_values(state, m)),
{
    lemma_compression_trace_view(t, state, m);
    lemma_honest_trace_accepted(values, state, m);
}

/// Every block segment of the main trace of a message is accepted against the preprocessed
/// trace and the public values of its block: the compression of that block from the chaining
/// state entering it.
pub proof fn lemma_message_segment_accepted(values: Seq<u32>, init: Seq<u64>, p: Seq<u8>, n: int, segs: int, s: int)
    requires
        holds_message_segments(values, false, init, p, n, segs),
        0 <= s < segs,
    ensures
        ({
            let st = block_input(init, p, segment_block(n, s));
            let m = block_words(block_at(p, segment_block(n, s)));
            air_accepts(
                values.subrange(s * SEGMENT_CELLS, (s + 1) * SEGMENT_CELLS),
                instance_prep(st, m),
                instance_public_values(st, m),
            )
        }),
{
    let st = block_input(init, p, segment_block(n, s));
    let m = block_words(block_at(p, segment_block(n, s)));
    let v = values.subrange(s * SEGMENT_CELLS, (s + 1) * SEGMENT_CELLS);
    assert((s + 1) * SEGMENT_CELLS <= segs * SEGMENT_CELLS) by (nonlinear_arith)
        requires s + 1 <= segs;
    assert(SEGMENT_CELLS == TRACE_ROWS * AIR_WIDTH);
    assert forall|r: int, c: int| 0 <= r < TRACE_ROWS && 0 <= c < AIR_WIDTH implies #[trigger] v[r * AIR_WIDTH + c]
        == trace_cell(compression_words(m), compression_rounds(st, m), r, c) by {
        let j = r * AIR_WIDTH + c;
        assert(j < SEGMENT_CELLS);
        lemma_fundamental_div_mod_converse(j, AIR_WIDTH as int, r, c);
        assert(v[j] == values[s * SEGMENT_CELLS + j]);
    }
    lemma_honest_trace_accepted(v, st, m);
}

/// A window that satisfies the constraints against a preprocessed row still does so when the
/// final selector of that row is cleared, whatever the public values: every other constraint
/// reads the same cells, and the public-value binding is then not selected.
proof fn lemma_row_ok_without_final(
    local: Seq<u32>,
    next: Seq<u32>,
    prep: Seq<u32>,
    cleared: Seq<u32>,
    pv: Seq<u32>,
    other_pv: Seq<u32>,
)
    requires
        row_ok(local, next, prep, pv),
        prep.len() == AIR_WIDTH,
        cleared.len() == AIR_WIDTH,
        forall|c: int| 0 <= c < AIR_WIDTH && c != PREP_FINAL_SELECTOR_COL ==> #[trigger] cleared[c] == prep[c],
        cleared[PREP_FINAL_SELECTOR_COL as int] == 0,
    ensures
        row_ok(local, next, cleared, other_pv),
{
    assert(cleared[PREP_BLOCK_START_SELECTOR_COL as int] == prep[PREP_BLOCK_START_SELECTOR_COL as int]);
    assert(cleared[PREP_TRANSITION_SELECTOR_COL as int] == prep[PREP_TRANSITION_SELECTOR_COL as int]);
    assert(cleared[PREP_ROUND_SELECTOR_COL as int] == prep[PREP_ROUND_SELECTOR_COL as int]);
    assert(cleared[PREP_INIT_W_SELECTOR_COL as int] == prep[PREP_INIT_W_SELECTOR_COL as int]);
    assert forall|k: int| 0 <= k < 4 implies #[trigger] binding_limb_ok(local, cleared, k) by {
        assert(binding_limb_ok(local, prep, k));
        assert(cleared[spec_limb_col(WORD_K as int, k)] == prep[spec_limb_col(WORD_K as int, k)]);
        assert(cleared[spec_limb_col(WORD_W as int, k)] == prep[spec_limb_col(WORD_W as int, k)]);
    }
    if cv(prep, PREP_BLOCK_START_SELECTOR_COL as int) != 0 {
        assert(first_row_ok(local, prep));
        assert forall|w: int, k: int| 0 <= w < 8 && 0 <= k < 4 implies #[trigger] wl(local, w, k) == wl(cleared, w, k) by {
            assert(wl(local, w, k) == wl(prep, w, k));
            assert(cleared[spec_limb_col(w, k)] == prep[spec_limb_col(w, k)]);
        }
    }
}

/// The main trace of a message is accepted, segment by segment, against the preprocessed trace
/// of the message and the public values of its last block: each segment satisfies the
/// constraints of the block it proves, and only the segments that prove the last block bind
/// their final row to the public values.
pub proof fn lemma_message_trace_accepted(
    main: Seq<u32>,
    prep: Seq<u32>,
    init: Seq<u64>,
    p: Seq<u8>,
    n: int,
    segs: int,
    s: int,
)
    requires
        holds_message_segments(main, false, init, p, n, segs),
        holds_message_segments(prep, true, init, p, n, segs),
        0 <= s < segs,
    ensures
        air_accepts(
            main.subrange(s * SEGMENT_CELLS, (s + 1) * SEGMENT_CELLS),
            prep.subrange(s * SEGMENT_CELLS, (s + 1) * SEGMENT_CELLS),
            instance_public_values(block_input(init, p, n - 1), block_words(block_at(p, n - 1))),
        ),
{
    let b = segment_block(n, s);
    let st = block_input(init, p, b);
    let m = block_words(block_at(p, b));
    let last = b == n - 1;
    let pv = instance_public_values(block_input(init, p, n - 1), block_words(block_at(p, n - 1)));
    let own_pv = instance_public_values(st, m);
    let v = main.subrange(s * SEGMENT_CELLS, (s + 1) * SEGMENT_CELLS);
    let q = prep.subrange(s * SEGMENT_CELLS, (s + 1) * SEGMENT_CELLS);
    let ip = instance_prep(st, m);
    lemma_message_segment_accepted(main, init, p, n, segs, s);
    assert((s + 1) * SEGMENT_CELLS <= segs * SEGMENT_CELLS) by (nonlinear_arith)
        requires s + 1 <= segs;
    assert(SEGMENT_CELLS == TRACE_ROWS * AIR_WIDTH);
    assert forall|r: int| 0 <= r < TRACE_ROWS implies #[trigger] window_ok(v, q, pv, r) by {
        assert(window_ok(v, ip, own_pv, r));
        lemma_prep_row(st, m, r);
        assert(r * AIR_WIDTH + AIR_WIDTH <= TRACE_ROWS * AIR_WIDTH);
        assert forall|c: int| 0 <= c < AIR_WIDTH implies #[trigger] row_of(q, r)[c] == segment_prep_cell(st, m, last, r, c) by {
            let j = r * AIR_WIDTH + c;
            lemma_fundamental_div_mod_converse(j, AIR_WIDTH as int, r, c);
            assert(q[j] == prep[s * SEGMENT_CELLS + j]);
        }
        if last {
            assert(row_of(q, r) =~= row_of(ip, r));
        } else {
            lemma_row_ok_without_final(row_of(v, r), row_of(v, next_row(r)), row_of(ip, r), row_of(q, r), own_pv, pv);
        }
    }
}

/// A word of a row decodes, through its limbs, to the word the row holds.
proof fn lemma_decoded_word(local: Seq<u32>, w: Seq<u64>, l: Seq<u64>, c: Seq<u16>, i: int)
    requires
        row_is(local, w, l, c),
        0 <= i < 16,
    ensures
        decoded_word(local, i) == Some(w[i]),
{
    lemma_cells(local, w, l, c);
    lemma_limb_decomposition(w[i]);
    lemma_limbs_join(w[i]);
    assert(cv(local, spec_limb_col(i, 0)) == limb16(w[i], 0) as int);
    assert(cv(local, spec_limb_col(i, 1)) == limb16(w[i], 1) as int);
    assert(cv(local, spec_limb_col(i, 2)) == limb16(w[i], 2) as int);
    assert(cv(local, spec_limb_col(i, 3)) == limb16(w[i], 3) as int);
}

pub(crate) proof fn lemma_limbs_join(x: u64)
    ensures
        x == ((limb16(x, 0) as int) as u64) | (((limb16(x, 1) as int) as u64) << 16u64) | (((limb16(x, 2) as int) as u64) << 32u64)
            | (((limb16(x, 3) as int) as u64) << 48u64),
{
    assert(x == ((x >> 0u64) & 0xffff) | (((x >> 16u64) & 0xffff) << 16u64) | (((x >> 32u64) & 0xffff) << 32u64) | (((x
        >> 48u64) & 0xffff) << 48u64)) by (bit_vector);
}

#[verifier::spinoff_prover]
proof fn lemma_decoded_registers(values: Seq<u32>, state: Seq<u64>, m: Seq<u64>, c: int)
    requires
        holds_trace_rows(values, compression_words(m), compression_rounds(state, m), TRACE_ROWS as int),
        0 <= c < 8,
    ensures
        decoded_word(row_of(values, 0), c) == Some(state[c]),
{
    let ws = compression_words(m);
    let rs = compression_rounds(state, m);
    lemma_main_row(values, state, m, 0);
    lemma_trace_row_shape(state, m, 0);
    lemma_decoded_word(row_of(values, 0), row_words(ws, rs, 0), row_lags(ws, 0), row_carries(ws, rs, 0), c);
}

#[verifier::spinoff_prover]
proof fn lemma_decoded_message_word(values: Seq<u32>, state: Seq<u64>, m: Seq<u64>, i: int)
    requires
        holds_trace_rows(values, compression_words(m), compression_rounds(state, m), TRACE_ROWS as int),
        0 <= i < 16,
    ensures
        decoded_word(row_of(values, i), WORD_W as int) == Some(m[i]),
{
    let ws = compression_words(m);
    let rs = compression_rounds(state, m);
    lemma_main_row(values, state, m, i);
    lemma_trace_row_shape(state, m, i);
    lemma_decoded_word(row_of(values, i), row_words(ws, rs, i), row_lags(ws, i), row_carries(ws, rs, i), WORD_W as int);
    assert(ws[i] == schedule_word(m, i as nat));
}

proof fn lemma_block_byte(block: Seq<u8>, j: int)
    requires
        block.len() == 128,
        0 <= j < 128,
    ensures
        (be_word(block, j / 8) >> ((56 - 8 * (j % 8)) as u64)) as u8 == block[j],
{
    let i = j / 8;
    let k = j % 8;
    lemma_u64_bytes_of_be_word(block, i);
    assert(be_u64_bytes(be_word(block, i))[k] == block.subrange(8 * i, 8 * i + 8)[k]);
}

/// The instance that an honest main trace states itself (its first-row registers and its
/// first sixteen W words) is the instance it was built for, so the self-instance check of
/// `verify_plonky3_air_trace` accepts it too.
pub proof fn lemma_honest_trace_states_its_instance(values: Seq<u32>, state: Seq<u64>, block: Seq<u8>)
    requires
        state.len() == 8,
        block.len() == 128,
        holds_trace_rows(
            values,
            compression_words(block_words(block)),
            compression_rounds(state, block_words(block)),
            TRACE_ROWS as int,
        ),
    ensures
        inferable(values),
        inferred_state(values) == state,
        inferred_block(values) == block,
        air_accepts(
            values,
            instance_prep(inferred_state(values), block_words(inferred_block(values))),
            instance_public_values(inferred_state(values), block_words(inferred_block(values))),
        ),
{
    let m = block_words(block);
    assert forall|c: int| 0 <= c < 8 implies (#[trigger] decoded_word(row_of(values, 0), c)) == Some(state[c]) by {
        lemma_decoded_registers(values, state, m, c);
    }
    assert forall|i: int| 0 <= i < 16 implies (#[trigger] decoded_word(row_of(values, i), WORD_W as int)) == Some(m[i]) by {
        lemma_decoded_message_word(values, state, m, i);
    }
    assert(inferred_state(values) =~= state);
    assert forall|j: int| 0 <= j < 128 implies #[trigger] inferred_block(values)[j] == block[j] by {
        assert(decoded_word(row_of(values, j / 8), WORD_W as int) == Some(m[j / 8]));
        lemma_block_byte(block, j);
    }
    assert(inferred_block(values) =~= block);
    lemma_honest_trace_accepted(values, state, m);
}

} // verus!
