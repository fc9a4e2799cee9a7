//! The AIR constraints of the SHA-512 round circuit, evaluated on concrete rows.
//!
//! A window is the current row, the next row (the current row again on the last row), the
//! current preprocessed row and the eight public values. Every constraint is a field equation;
//! a constraint selected by a preprocessed selector `s` is the equation `s * e = 0`, which in
//! the field holds exactly when `s = 0` or `e = 0`, and is stated that way below.
use vstd::prelude::*;

use crate::air::columns::{
    bit_group_base, bit_group_word, carry_bit_base, carry_bits, carry_col, lag_bit_col,
    lag_limb_col, limb_col, range_bit_col, range_source_col, spec_bit_group_base,
    spec_bit_group_word, spec_carry_bit_base, spec_carry_bits, spec_carry_col, spec_lag_bit_col,
    spec_lag_limb_col, spec_limb_col, spec_range_bit_col, spec_range_source_col, AIR_WIDTH,
    BIT_A_BASE, BIT_B_BASE, BIT_C_BASE, BIT_E_BASE, BIT_F_BASE, BIT_G_BASE, BIT_GROUPS,
    CARRY_A_BASE, CARRY_E_BASE, CARRY_T1_BASE, CARRY_T2_BASE, LAG_COUNT,
    PREP_BLOCK_START_SELECTOR_COL, PREP_FINAL_SELECTOR_COL, PREP_INIT_W_SELECTOR_COL,
    PREP_ROUND_SELECTOR_COL, PREP_TRANSITION_SELECTOR_COL, RANGE_BITS_PER_SOURCE, RANGE_SOURCES,
    SCHED_CARRY_BASE, WORD_A, WORD_B, WORD_C, WORD_CH, WORD_COUNT, WORD_D, WORD_E, WORD_F,
    WORD_G, WORD_H, WORD_K, WORD_MAJ, WORD_SIGMA0, WORD_SIGMA1, WORD_T1, WORD_T2, WORD_W,
};
use crate::field::{f_add, f_canon, f_mul, f_sub, fadd, fmul, fsub, fval, BABY_BEAR_P};

verus! {

/// 2^16 in the field.
pub const TWO16: u32 = 65536;
/// 2^32 in the field.
pub const TWO32: u32 = 268435454;
/// 2^48 in the field.
pub const TWO48: u32 = 268295646;

/// The field representatives of 2^16, 2^32 and 2^48.
pub proof fn lemma_power_constants()
    ensures
        TWO16 as int == 0x1_0000int % BABY_BEAR_P as int,
        TWO32 as int == 0x1_0000_0000int % BABY_BEAR_P as int,
        TWO48 as int == 0x1_0000_0000_0000int % BABY_BEAR_P as int,
{
    assert(0x1_0000_0000int == 2 * (BABY_BEAR_P as int) + TWO32 as int);
    assert(0x1_0000_0000_0000int == 139810 * (BABY_BEAR_P as int) + TWO48 as int);
}

/// The field value of cell `c` of a row.
pub open spec fn cv(row: Seq<u32>, c: int) -> int {
    fval(row[c])
}

/// 2^n in the field.
pub open spec fn pow2_f(n: nat) -> int
    decreases n,
{
    if n == 0 {
        1
    } else {
        fmul(pow2_f((n - 1) as nat), 2)
    }
}

/// A cell value is a bit: x (x - 1) = 0.
pub open spec fn bool_ok(x: int) -> bool {
    fmul(x, fsub(x, 1)) == 0
}

/// XOR of two bits as a field polynomial: x + y - 2xy.
pub open spec fn xor2f(x: int, y: int) -> int {
    fsub(fadd(x, y), fmul(fmul(x, y), 2))
}

/// XOR of three bits as a field polynomial.
pub open spec fn xor3f(x: int, y: int, z: int) -> int {
    xor2f(xor2f(x, y), z)
}

/// The four 16-bit limbs starting at column `c` recombined: l0 + l1 2^16 + l2 2^32 + l3 2^48.
pub open spec fn limbs_packed(row: Seq<u32>, c: int) -> int {
    fadd(
        fadd(fadd(cv(row, c), fmul(cv(row, c + 1), TWO16 as int)), fmul(cv(row, c + 2), TWO32 as int)),
        fmul(cv(row, c + 3), TWO48 as int),
    )
}

/// The first `n` bit cells starting at column `base` recombined: the sum of bit i times 2^i.
pub open spec fn bits_packed(row: Seq<u32>, base: int, n: nat) -> int
    decreases n,
{
    if n == 0 {
        0
    } else {
        fadd(
            bits_packed(row, base, (n - 1) as nat),
            fmul(cv(row, base + n - 1), pow2_f((n - 1) as nat)),
        )
    }
}

/// Bit `bit` of lag 1 (`sigma1`) or lag 14, from its decomposition.
pub open spec fn lag_bit(row: Seq<u32>, sigma1: bool, bit: int) -> int {
    cv(row, spec_lag_bit_col(sigma1, bit))
}

/// Bit `b` of σ0 of lag word 14 (that is, of W[t-15]) as a field polynomial.
pub open spec fn small_sigma0_bit(row: Seq<u32>, b: int) -> int {
    xor3f(
        lag_bit(row, false, (b + 1) % 64),
        lag_bit(row, false, (b + 8) % 64),
        if b + 7 < 64 {
            lag_bit(row, false, b + 7)
        } else {
            0
        },
    )
}

/// Bit `b` of σ1 of lag word 1 (that is, of W[t-2]) as a field polynomial.
pub open spec fn small_sigma1_bit(row: Seq<u32>, b: int) -> int {
    xor3f(
        lag_bit(row, true, (b + 19) % 64),
        lag_bit(row, true, (b + 61) % 64),
        if b + 6 < 64 {
            lag_bit(row, true, b + 6)
        } else {
            0
        },
    )
}

/// The first `n` bits of limb `limb` of σ0 (`sigma1 == false`) or σ1 (`sigma1 == true`)
/// recombined.
pub open spec fn sigma_limb_packed(row: Seq<u32>, sigma1: bool, limb: int, n: nat) -> int
    decreases n,
{
    if n == 0 {
        0
    } else {
        let b = 16 * limb + n - 1;
        let bit = if sigma1 {
            small_sigma1_bit(row, b)
        } else {
            small_sigma0_bit(row, b)
        };
        fadd(sigma_limb_packed(row, sigma1, limb, (n - 1) as nat), fmul(bit, pow2_f((n - 1) as nat)))
    }
}

/// Limb `k` of word `w`.
pub open spec fn wl(row: Seq<u32>, w: int, k: int) -> int {
    cv(row, spec_limb_col(w, k))
}

/// Carry into limb `k` of an addition whose carries start at column `base`.
pub open spec fn carry_in(row: Seq<u32>, base: int, k: int) -> int {
    if k == 0 {
        0
    } else {
        cv(row, base + k - 1)
    }
}

/// Bit `i` of the decomposition of a, b, c, e, f or g (bit group `g`).
pub open spec fn gb(row: Seq<u32>, g: int, i: int) -> int {
    cv(row, spec_bit_group_base(g) + i)
}

/// Bit `b` of Σ0(a) (`kind` 0), Σ1(e) (1), Ch(e, f, g) (2) or Maj(a, b, c) (3) as a field
/// polynomial in the decomposed working words.
pub open spec fn round_bit(row: Seq<u32>, kind: int, b: int) -> int {
    if kind == 0 {
        xor3f(gb(row, 0, (b + 28) % 64), gb(row, 0, (b + 34) % 64), gb(row, 0, (b + 39) % 64))
    } else if kind == 1 {
        xor3f(gb(row, 3, (b + 14) % 64), gb(row, 3, (b + 18) % 64), gb(row, 3, (b + 41) % 64))
    } else if kind == 2 {
        fadd(fmul(gb(row, 3, b), gb(row, 4, b)), fmul(fsub(1, gb(row, 3, b)), gb(row, 5, b)))
    } else {
        let a = gb(row, 0, b);
        let bb = gb(row, 1, b);
        let c = gb(row, 2, b);
        fsub(fadd(fadd(fmul(a, bb), fmul(a, c)), fmul(bb, c)), fmul(fmul(fmul(a, bb), c), 2))
    }
}

/// The first `n` bits of limb `limb` of the round function `kind` recombined.
pub open spec fn round_limb_packed(row: Seq<u32>, kind: int, limb: int, n: nat) -> int
    decreases n,
{
    if n == 0 {
        0
    } else {
        fadd(
            round_limb_packed(row, kind, limb, (n - 1) as nat),
            fmul(round_bit(row, kind, 16 * limb + n - 1), pow2_f((n - 1) as nat)),
        )
    }
}

/// The word that round function `kind` yields: Σ0, Σ1, Ch, Maj.
pub open spec fn round_word(kind: int) -> int {
    WORD_SIGMA0 + kind
}

/// The round-word and round-constant bindings that hold on every row: K equals the
/// preprocessed K, W equals the preprocessed W on the rows that take W from the block, and W
/// is zero outside the round rows.
pub open spec fn binding_ok(local: Seq<u32>, prep: Seq<u32>) -> bool {
    forall|k: int| 0 <= k < 4 ==> #[trigger] binding_limb_ok(local, prep, k)
}

/// The bindings of limb `k` of K and W.
pub open spec fn binding_limb_ok(local: Seq<u32>, prep: Seq<u32>, k: int) -> bool {
    &&& wl(local, WORD_K as int, k) == wl(prep, WORD_K as int, k)
    &&& fmul(
        cv(prep, PREP_INIT_W_SELECTOR_COL as int),
        fsub(wl(local, WORD_W as int, k), wl(prep, WORD_W as int, k)),
    ) == 0
    &&& fmul(fsub(1, cv(prep, PREP_ROUND_SELECTOR_COL as int)), wl(local, WORD_W as int, k)) == 0
}

/// On the first row of a block, a..h equal the preprocessed initial state, limb by limb.
pub open spec fn first_row_ok(local: Seq<u32>, prep: Seq<u32>) -> bool {
    forall|w: int, k: int| 0 <= w < 8 && 0 <= k < 4 ==> #[trigger] wl(local, w, k) == wl(prep, w, k)
}

/// Bit group `g` holds bits whose 16-bit chunks recombine to the limbs of its word.
pub open spec fn bit_group_ok(local: Seq<u32>, g: int) -> bool {
    &&& forall|i: int| 0 <= i < 64 ==> #[trigger] bool_ok(gb(local, g, i))
    &&& forall|k: int|
        0 <= k < 4 ==> #[trigger] wl(local, spec_bit_group_word(g), k) == bits_packed(
            local,
            spec_bit_group_base(g) + 16 * k,
            16,
        )
}

/// On the round rows, limb `k` of Σ0, Σ1, Ch and Maj is the recombination of its bits.
pub open spec fn round_limb_ok(local: Seq<u32>, k: int) -> bool {
    forall|kind: int| 0 <= kind < 4 ==> #[trigger] wl(local, round_word(kind), k) == round_limb_packed(local, kind, k, 16)
}

/// Lags 1 and 14 hold bits whose 16-bit chunks recombine to their limbs.
pub open spec fn lag_bits_ok(local: Seq<u32>) -> bool {
    &&& forall|i: int| 0 <= i < 64 ==> #[trigger] lag_bit_pair_ok(local, i)
    &&& forall|k: int| 0 <= k < 4 ==> #[trigger] lag_limb_bits_ok(local, k)
}

/// Bit `i` of lag 1 and of lag 14 is a bit.
pub open spec fn lag_bit_pair_ok(local: Seq<u32>, i: int) -> bool {
    bool_ok(lag_bit(local, true, i)) && bool_ok(lag_bit(local, false, i))
}

/// Limb `k` of lag 1 and of lag 14 is the recombination of its bits.
pub open spec fn lag_limb_bits_ok(local: Seq<u32>, k: int) -> bool {
    &&& cv(local, spec_lag_limb_col(1, k)) == bits_packed(local, spec_lag_bit_col(true, 16 * k), 16)
    &&& cv(local, spec_lag_limb_col(14, k)) == bits_packed(local, spec_lag_bit_col(false, 16 * k), 16)
}

/// Range source `s` holds sixteen bits that recombine to the checked limb.
pub open spec fn range_ok(local: Seq<u32>, s: int) -> bool {
    &&& forall|b: int|
        0 <= b < RANGE_BITS_PER_SOURCE ==> #[trigger] bool_ok(cv(local, spec_range_bit_col(s, b)))
    &&& cv(local, spec_range_source_col(s)) == bits_packed(local, spec_range_bit_col(s, 0), 16)
}

/// Carry `j` holds a few bits that recombine to it.
pub open spec fn carry_bits_ok(local: Seq<u32>, j: int) -> bool {
    &&& forall|i: int| 0 <= i < spec_carry_bits(j) ==> #[trigger] bool_ok(cv(local, spec_carry_bit_base(j) + i))
    &&& cv(local, spec_carry_col(j)) == bits_packed(local, spec_carry_bit_base(j), spec_carry_bits(j) as nat)
}

/// Limb `k` of T1 = h + Σ1 + Ch + K + W with its carries.
pub open spec fn add_t1_limb_ok(local: Seq<u32>, k: int) -> bool {
    let base = CARRY_T1_BASE as int;
    let sum = fadd(
        fadd(
            fadd(
                fadd(fadd(wl(local, WORD_H as int, k), wl(local, WORD_SIGMA1 as int, k)), wl(local, WORD_CH as int, k)),
                wl(local, WORD_K as int, k),
            ),
            wl(local, WORD_W as int, k),
        ),
        carry_in(local, base, k),
    );
    sum == fadd(wl(local, WORD_T1 as int, k), fmul(cv(local, base + k), TWO16 as int))
}

/// Limb `k` of `out = lhs + rhs` with its carries at `base`; the operands and carries are in
/// `local`, the result in `out_row`.
pub open spec fn add2_limb_ok(local: Seq<u32>, out_row: Seq<u32>, lhs: int, rhs: int, out: int, base: int, k: int) -> bool {
    fadd(fadd(wl(local, lhs, k), wl(local, rhs, k)), carry_in(local, base, k)) == fadd(
        wl(out_row, out, k),
        fmul(cv(local, base + k), TWO16 as int),
    )
}

/// Limb `k` of the schedule recurrence W = σ1(W[t-2]) + W[t-7] + σ0(W[t-15]) + W[t-16].
pub open spec fn schedule_limb_ok(local: Seq<u32>, k: int) -> bool {
    let base = SCHED_CARRY_BASE as int;
    let sum = fadd(
        fadd(
            fadd(
                fadd(sigma_limb_packed(local, true, k, 16), cv(local, spec_lag_limb_col(6, k))),
                sigma_limb_packed(local, false, k, 16),
            ),
            cv(local, spec_lag_limb_col(15, k)),
        ),
        carry_in(local, base, k),
    );
    sum == fadd(wl(local, WORD_W as int, k), fmul(cv(local, base + k), TWO16 as int))
}

/// Limb `k` of the register shifts b <- a, c <- b, d <- c, f <- e, g <- f, h <- g.
pub open spec fn shift_limb_ok(local: Seq<u32>, next: Seq<u32>, k: int) -> bool {
    &&& wl(next, WORD_B as int, k) == wl(local, WORD_A as int, k)
    &&& wl(next, WORD_C as int, k) == wl(local, WORD_B as int, k)
    &&& wl(next, WORD_D as int, k) == wl(local, WORD_C as int, k)
    &&& wl(next, WORD_F as int, k) == wl(local, WORD_E as int, k)
    &&& wl(next, WORD_G as int, k) == wl(local, WORD_F as int, k)
    &&& wl(next, WORD_H as int, k) == wl(local, WORD_G as int, k)
}

/// The per-limb transition constraints of limb `k`: the four round additions, the register
/// shifts and the newest lag limb.
pub open spec fn transition_limb_ok(local: Seq<u32>, next: Seq<u32>, k: int) -> bool {
    &&& add_t1_limb_ok(local, k)
    &&& add2_limb_ok(
        local,
        local,
        WORD_SIGMA0 as int,
        WORD_MAJ as int,
        WORD_T2 as int,
        CARRY_T2_BASE as int,
        k,
    )
    &&& add2_limb_ok(local, next, WORD_T1 as int, WORD_T2 as int, WORD_A as int, CARRY_A_BASE as int, k)
    &&& add2_limb_ok(local, next, WORD_D as int, WORD_T1 as int, WORD_E as int, CARRY_E_BASE as int, k)
    &&& shift_limb_ok(local, next, k)
    &&& cv(next, spec_lag_limb_col(0, k)) == wl(local, WORD_W as int, k)
}

/// Lag `l` of the next row is lag `l - 1` of this row, limb by limb.
pub open spec fn lag_shift_ok(local: Seq<u32>, next: Seq<u32>, l: int) -> bool {
    forall|k: int|
        0 <= k < 4 ==> #[trigger] cv(next, spec_lag_limb_col(l, k)) == cv(local, spec_lag_limb_col(l - 1, k))
}

/// The constraints between a row and the next one within a block.
pub open spec fn transition_ok(local: Seq<u32>, next: Seq<u32>) -> bool {
    &&& forall|k: int| 0 <= k < 4 ==> #[trigger] transition_limb_ok(local, next, k)
    &&& forall|l: int| 1 <= l < LAG_COUNT ==> #[trigger] lag_shift_ok(local, next, l)
}

/// On the last row of a block the helper words W..T2, all carries and all lags are zero.
pub open spec fn last_row_ok(local: Seq<u32>) -> bool {
    &&& forall|w: int, k: int|
        WORD_W <= w < WORD_COUNT && 0 <= k < 4 ==> #[trigger] wl(local, w, k) == 0
    &&& forall|c: int| CARRY_T1_BASE <= c < BIT_A_BASE ==> #[trigger] cv(local, c) == 0
}

/// On the final row, a..h recombined from their limbs are the public values.
pub open spec fn public_ok(local: Seq<u32>, pv: Seq<u32>) -> bool {
    forall|i: int| 0 <= i < 8 ==> #[trigger] limbs_packed(local, spec_limb_col(i, 0)) == fval(pv[i])
}

/// Every bit group holds its word.
pub open spec fn bit_groups_ok(local: Seq<u32>) -> bool {
    forall|g: int| 0 <= g < BIT_GROUPS ==> #[trigger] bit_group_ok(local, g)
}

/// Σ0, Σ1, Ch and Maj follow from the decomposed working words.
pub open spec fn round_words_ok(local: Seq<u32>) -> bool {
    forall|k: int| 0 <= k < 4 ==> #[trigger] round_limb_ok(local, k)
}

/// Every range source holds its limb.
pub open spec fn ranges_ok(local: Seq<u32>) -> bool {
    forall|s: int| 0 <= s < RANGE_SOURCES ==> #[trigger] range_ok(local, s)
}

/// Every carry holds its bits.
pub open spec fn carries_ok(local: Seq<u32>) -> bool {
    forall|j: int| 0 <= j < 20 ==> #[trigger] carry_bits_ok(local, j)
}

/// The schedule recurrence holds on all four limbs.
pub open spec fn schedule_ok(local: Seq<u32>) -> bool {
    forall|k: int| 0 <= k < 4 ==> #[trigger] schedule_limb_ok(local, k)
}

/// All constraints of one window.
pub open spec fn row_ok(local: Seq<u32>, next: Seq<u32>, prep: Seq<u32>, pv: Seq<u32>) -> bool {
    let round = cv(prep, PREP_ROUND_SELECTOR_COL as int);
    let trans = cv(prep, PREP_TRANSITION_SELECTOR_COL as int);
    &&& binding_ok(local, prep)
    &&& cv(prep, PREP_BLOCK_START_SELECTOR_COL as int) == 0 || first_row_ok(local, prep)
    &&& bit_groups_ok(local)
    &&& round == 0 || round_words_ok(local)
    &&& lag_bits_ok(local)
    &&& ranges_ok(local)
    &&& carries_ok(local)
    &&& trans == 0 || transition_ok(local, next)
    &&& fsub(round, cv(prep, PREP_INIT_W_SELECTOR_COL as int)) == 0 || schedule_ok(local)
    &&& fsub(1, trans) == 0 || last_row_ok(local)
    &&& cv(prep, PREP_FINAL_SELECTOR_COL as int) == 0 || public_ok(local, pv)
}

/// On the last row of a block (transition selector 0), an accepted window has every helper
/// cell zero: the limbs of W, K, Σ0, Σ1, Ch, Maj, T1 and T2 (columns 32..64), all carries and
/// all lag limbs (columns 64..148).
pub proof fn lemma_last_row_helpers_vanish(local: Seq<u32>, next: Seq<u32>, prep: Seq<u32>, pv: Seq<u32>)
    requires
        row_ok(local, next, prep, pv),
        cv(prep, PREP_TRANSITION_SELECTOR_COL as int) == 0,
    ensures
        forall|c: int| 32 <= c < 148 ==> #[trigger] cv(local, c) == 0,
{
    assert(fsub(1, 0) == 1);
    assert(last_row_ok(local));
    assert forall|c: int| 32 <= c < 148 implies #[trigger] cv(local, c) == 0 by {
        if c < 64 {
            let w = c / 4;
            let k = c % 4;
            assert(spec_limb_col(w, k) == c);
            assert(wl(local, w, k) == 0);
        }
    }
}

} // verus!

verus! {

/// Canonical field value of cell `c`.
fn cell(row: &[u32], c: usize) -> (r: u32)
    requires
        c < row@.len(),
    ensures
        r as int == cv(row@, c as int),
        r < BABY_BEAR_P,
{
    f_canon(row[c])
}

fn xor2_exec(x: u32, y: u32) -> (r: u32)
    requires
        x < BABY_BEAR_P,
        y < BABY_BEAR_P,
    ensures
        r as int == xor2f(x as int, y as int),
        r < BABY_BEAR_P,
{
    f_sub(f_add(x, y), f_mul(f_mul(x, y), 2))
}

fn xor3_exec(x: u32, y: u32, z: u32) -> (r: u32)
    requires
        x < BABY_BEAR_P,
        y < BABY_BEAR_P,
        z < BABY_BEAR_P,
    ensures
        r as int == xor3f(x as int, y as int, z as int),
        r < BABY_BEAR_P,
{
    xor2_exec(xor2_exec(x, y), z)
}

fn is_bool_exec(x: u32) -> (r: bool)
    requires
        x < BABY_BEAR_P,
    ensures
        r == bool_ok(x as int),
{
    f_mul(x, f_sub(x, 1)) == 0
}

fn limbs_packed_exec(row: &[u32], c: usize) -> (r: u32)
    requires
        c + 3 < row.len(),
    ensures
        r as int == limbs_packed(row@, c as int),
        r < BABY_BEAR_P,
{
    f_add(
        f_add(f_add(cell(row, c), f_mul(cell(row, c + 1), TWO16)), f_mul(cell(row, c + 2), TWO32)),
        f_mul(cell(row, c + 3), TWO48),
    )
}

fn bits_packed_exec(row: &[u32], base: usize, n: usize) -> (r: u32)
    requires
        base + n <= row.len(),
    ensures
        r as int == bits_packed(row@, base as int, n as nat),
        r < BABY_BEAR_P,
{
    let mut acc: u32 = 0;
    let mut pw: u32 = 1;
    for i in 0..n
        invariant
            base + n <= row.len(),
            acc as int == bits_packed(row@, base as int, i as nat),
            acc < BABY_BEAR_P,
            pw as int == pow2_f(i as nat),
            pw < BABY_BEAR_P,
    {
        acc = f_add(acc, f_mul(cell(row, base + i), pw));
        pw = f_mul(pw, 2);
    }
    acc
}

fn carry_in_exec(row: &[u32], base: usize, k: usize) -> (r: u32)
    requires
        base + 4 <= row.len(),
        k < 4,
    ensures
        r as int == carry_in(row@, base as int, k as int),
        r < BABY_BEAR_P,
{
    if k == 0 {
        0
    } else {
        cell(row, base + k - 1)
    }
}

fn add_t1_limb_ok_exec(local: &[u32], k: usize) -> (r: bool)
    requires
        local@.len() == AIR_WIDTH,
        k < 4,
    ensures
        r == add_t1_limb_ok(local@, k as int),
{
    let sum = f_add(
        f_add(
            f_add(
                f_add(
                    f_add(cell(local, limb_col(WORD_H, k)), cell(local, limb_col(WORD_SIGMA1, k))),
                    cell(local, limb_col(WORD_CH, k)),
                ),
                cell(local, limb_col(WORD_K, k)),
            ),
            cell(local, limb_col(WORD_W, k)),
        ),
        carry_in_exec(local, CARRY_T1_BASE, k),
    );
    sum == f_add(cell(local, limb_col(WORD_T1, k)), f_mul(cell(local, CARRY_T1_BASE + k), TWO16))
}

fn add2_limb_ok_exec(
    local: &[u32],
    out_row: &[u32],
    lhs: usize,
    rhs: usize,
    out: usize,
    base: usize,
    k: usize,
) -> (r: bool)
    requires
        local@.len() == AIR_WIDTH,
        out_row@.len() == AIR_WIDTH,
        lhs < WORD_COUNT,
        rhs < WORD_COUNT,
        out < WORD_COUNT,
        base + 4 <= AIR_WIDTH,
        k < 4,
    ensures
        r == add2_limb_ok(local@, out_row@, lhs as int, rhs as int, out as int, base as int, k as int),
{
    f_add(f_add(cell(local, limb_col(lhs, k)), cell(local, limb_col(rhs, k))), carry_in_exec(local, base, k))
        == f_add(cell(out_row, limb_col(out, k)), f_mul(cell(local, base + k), TWO16))
}

fn lag_bit_exec(row: &[u32], sigma1: bool, bit: usize) -> (r: u32)
    requires
        row@.len() == AIR_WIDTH,
        bit < 64,
    ensures
        r as int == lag_bit(row@, sigma1, bit as int),
        r < BABY_BEAR_P,
{
    cell(row, lag_bit_col(sigma1, bit))
}

fn sigma_limb_packed_exec(row: &[u32], sigma1: bool, limb: usize) -> (r: u32)
    requires
        row@.len() == AIR_WIDTH,
        limb < 4,
    ensures
        r as int == sigma_limb_packed(row@, sigma1, limb as int, 16),
        r < BABY_BEAR_P,
{
    let mut acc: u32 = 0;
    let mut pw: u32 = 1;
    for n in 0..16
        invariant
            row@.len() == AIR_WIDTH,
            limb < 4,
            acc as int == sigma_limb_packed(row@, sigma1, limb as int, n as nat),
            acc < BABY_BEAR_P,
            pw as int == pow2_f(n as nat),
            pw < BABY_BEAR_P,
    {
        let b = 16 * limb + n;
        let bit = if sigma1 {
            let z = if b + 6 < 64 {
                lag_bit_exec(row, true, b + 6)
            } else {
                0
            };
            xor3_exec(lag_bit_exec(row, true, (b + 19) % 64), lag_bit_exec(row, true, (b + 61) % 64), z)
        } else {
            let z = if b + 7 < 64 {
                lag_bit_exec(row, false, b + 7)
            } else {
                0
            };
            xor3_exec(lag_bit_exec(row, false, (b + 1) % 64), lag_bit_exec(row, false, (b + 8) % 64), z)
        };
        acc = f_add(acc, f_mul(bit, pw));
        pw = f_mul(pw, 2);
    }
    acc
}

fn gb_exec(row: &[u32], g: usize, i: usize) -> (r: u32)
    requires
        row@.len() == AIR_WIDTH,
        g < BIT_GROUPS,
        i < 64,
    ensures
        r as int == gb(row@, g as int, i as int),
        r < BABY_BEAR_P,
{
    cell(row, bit_group_base(g) + i)
}

fn round_bit_exec(row: &[u32], kind: usize, b: usize) -> (r: u32)
    requires
        row@.len() == AIR_WIDTH,
        kind < 4,
        b < 64,
    ensures
        r as int == round_bit(row@, kind as int, b as int),
        r < BABY_BEAR_P,
{
    if kind == 0 {
        xor3_exec(gb_exec(row, 0, (b + 28) % 64), gb_exec(row, 0, (b + 34) % 64), gb_exec(row, 0, (b + 39) % 64))
    } else if kind == 1 {
        xor3_exec(gb_exec(row, 3, (b + 14) % 64), gb_exec(row, 3, (b + 18) % 64), gb_exec(row, 3, (b + 41) % 64))
    } else if kind == 2 {
        let e = gb_exec(row, 3, b);
        f_add(f_mul(e, gb_exec(row, 4, b)), f_mul(f_sub(1, e), gb_exec(row, 5, b)))
    } else {
        let a = gb_exec(row, 0, b);
        let bb = gb_exec(row, 1, b);
        let c = gb_exec(row, 2, b);
        let ab = f_mul(a, bb);
        f_sub(f_add(f_add(ab, f_mul(a, c)), f_mul(bb, c)), f_mul(f_mul(ab, c), 2))
    }
}

fn round_limb_packed_exec(row: &[u32], kind: usize, limb: usize) -> (r: u32)
    requires
        row@.len() == AIR_WIDTH,
        kind < 4,
        limb < 4,
    ensures
        r as int == round_limb_packed(row@, kind as int, limb as int, 16),
        r < BABY_BEAR_P,
{
    let mut acc: u32 = 0;
    let mut pw: u32 = 1;
    for n in 0..16
        invariant
            row@.len() == AIR_WIDTH,
            kind < 4,
            limb < 4,
            acc as int == round_limb_packed(row@, kind as int, limb as int, n as nat),
            acc < BABY_BEAR_P,
            pw as int == pow2_f(n as nat),
            pw < BABY_BEAR_P,
    {
        acc = f_add(acc, f_mul(round_bit_exec(row, kind, 16 * limb + n), pw));
        pw = f_mul(pw, 2);
    }
    acc
}

fn binding_ok_exec(local: &[u32], prep: &[u32]) -> (r: bool)
    requires
        local@.len() == AIR_WIDTH,
        prep@.len() == AIR_WIDTH,
    ensures
        r == binding_ok(local@, prep@),
{
    let init_w = cell(prep, PREP_INIT_W_SELECTOR_COL);
    let round = cell(prep, PREP_ROUND_SELECTOR_COL);
    for k in 0..4
        invariant
            local@.len() == AIR_WIDTH,
            prep@.len() == AIR_WIDTH,
            init_w as int == cv(prep@, PREP_INIT_W_SELECTOR_COL as int),
            round as int == cv(prep@, PREP_ROUND_SELECTOR_COL as int),
            forall|j: int| 0 <= j < k ==> #[trigger] binding_limb_ok(local@, prep@, j),
    {
        let w = cell(local, limb_col(WORD_W, k));
        if cell(local, limb_col(WORD_K, k)) != cell(prep, limb_col(WORD_K, k)) || f_mul(
            init_w,
            f_sub(w, cell(prep, limb_col(WORD_W, k))),
        ) != 0 || f_mul(f_sub(1, round), w) != 0 {
            assert(!binding_limb_ok(local@, prep@, k as int));
            return false;
        }
    }
    true
}

fn first_row_ok_exec(local: &[u32], prep: &[u32]) -> (r: bool)
    requires
        local@.len() == AIR_WIDTH,
        prep@.len() == AIR_WIDTH,
    ensures
        r == first_row_ok(local@, prep@),
{
    for w in 0..8
        invariant
            local@.len() == AIR_WIDTH,
            prep@.len() == AIR_WIDTH,
            forall|j: int, k: int| 0 <= j < w && 0 <= k < 4 ==> #[trigger] wl(local@, j, k) == wl(prep@, j, k),
    {
        for k in 0..4
            invariant
                local@.len() == AIR_WIDTH,
                prep@.len() == AIR_WIDTH,
                w < 8,
                forall|j: int, m: int| 0 <= j < w && 0 <= m < 4 ==> #[trigger] wl(local@, j, m) == wl(prep@, j, m),
                forall|m: int| 0 <= m < k ==> #[trigger] wl(local@, w as int, m) == wl(prep@, w as int, m),
        {
            if cell(local, limb_col(w, k)) != cell(prep, limb_col(w, k)) {
                assert(wl(local@, w as int, k as int) != wl(prep@, w as int, k as int));
                return false;
            }
        }
    }
    true
}

fn bit_group_ok_exec(local: &[u32], g: usize) -> (r: bool)
    requires
        local@.len() == AIR_WIDTH,
        g < BIT_GROUPS,
    ensures
        r == bit_group_ok(local@, g as int),
{
    for i in 0..64
        invariant
            local@.len() == AIR_WIDTH,
            g < BIT_GROUPS,
            forall|j: int| 0 <= j < i ==> #[trigger] bool_ok(gb(local@, g as int, j)),
    {
        if !is_bool_exec(gb_exec(local, g, i)) {
            return false;
        }
    }
    let base = bit_group_base(g);
    let w = bit_group_word(g);
    for k in 0..4
        invariant
            local@.len() == AIR_WIDTH,
            g < BIT_GROUPS,
            base == spec_bit_group_base(g as int),
            w == spec_bit_group_word(g as int),
            forall|j: int| 0 <= j < 64 ==> #[trigger] bool_ok(gb(local@, g as int, j)),
            forall|m: int|
                0 <= m < k ==> #[trigger] wl(local@, spec_bit_group_word(g as int), m) == bits_packed(
                    local@,
                    spec_bit_group_base(g as int) + 16 * m,
                    16,
                ),
    {
        if cell(local, limb_col(w, k)) != bits_packed_exec(local, base + 16 * k, 16) {
            assert(wl(local@, spec_bit_group_word(g as int), k as int) != bits_packed(
                local@,
                spec_bit_group_base(g as int) + 16 * k,
                16,
            ));
            return false;
        }
    }
    true
}

fn round_limb_ok_exec(local: &[u32], k: usize) -> (r: bool)
    requires
        local@.len() == AIR_WIDTH,
        k < 4,
    ensures
        r == round_limb_ok(local@, k as int),
{
    for kind in 0..4
        invariant
            local@.len() == AIR_WIDTH,
            k < 4,
            forall|j: int| 0 <= j < kind ==> #[trigger] wl(local@, round_word(j), k as int) == round_limb_packed(local@, j, k as int, 16),
    {
        if cell(local, limb_col(WORD_SIGMA0 + kind, k)) != round_limb_packed_exec(local, kind, k) {
            assert(wl(local@, round_word(kind as int), k as int) != round_limb_packed(local@, kind as int, k as int, 16));
            return false;
        }
    }
    true
}

fn lag_bits_ok_exec(local: &[u32]) -> (r: bool)
    requires
        local@.len() == AIR_WIDTH,
    ensures
        r == lag_bits_ok(local@),
{
    for i in 0..64
        invariant
            local@.len() == AIR_WIDTH,
            forall|j: int| 0 <= j < i ==> #[trigger] lag_bit_pair_ok(local@, j),
    {
        if !is_bool_exec(lag_bit_exec(local, true, i)) || !is_bool_exec(lag_bit_exec(local, false, i)) {
            assert(!lag_bit_pair_ok(local@, i as int));
            return false;
        }
    }
    for k in 0..4
        invariant
            local@.len() == AIR_WIDTH,
            forall|j: int| 0 <= j < 64 ==> #[trigger] lag_bit_pair_ok(local@, j),
            forall|m: int| 0 <= m < k ==> #[trigger] lag_limb_bits_ok(local@, m),
    {
        if cell(local, lag_limb_col(1, k)) != bits_packed_exec(local, lag_bit_col(true, 16 * k), 16)
            || cell(local, lag_limb_col(14, k)) != bits_packed_exec(local, lag_bit_col(false, 16 * k), 16) {
            assert(!lag_limb_bits_ok(local@, k as int));
            return false;
        }
    }
    true
}

fn range_ok_exec(local: &[u32], s: usize) -> (r: bool)
    requires
        local@.len() == AIR_WIDTH,
        s < RANGE_SOURCES,
    ensures
        r == range_ok(local@, s as int),
{
    for b in 0..RANGE_BITS_PER_SOURCE
        invariant
            local@.len() == AIR_WIDTH,
            s < RANGE_SOURCES,
            forall|j: int|
                0 <= j < b ==> #[trigger] bool_ok(cv(local@, spec_range_bit_col(s as int, j))),
    {
        if !is_bool_exec(cell(local, range_bit_col(s, b))) {
            return false;
        }
    }
    cell(local, range_source_col(s)) == bits_packed_exec(local, range_bit_col(s, 0), 16)
}

fn carry_bits_ok_exec(local: &[u32], j: usize) -> (r: bool)
    requires
        local@.len() == AIR_WIDTH,
        j < 20,
    ensures
        r == carry_bits_ok(local@, j as int),
{
    let base = carry_bit_base(j);
    let n = carry_bits(j);
    for i in 0..n
        invariant
            local@.len() == AIR_WIDTH,
            j < 20,
            base == spec_carry_bit_base(j as int),
            n == spec_carry_bits(j as int),
            base + n <= AIR_WIDTH,
            forall|m: int| 0 <= m < i ==> #[trigger] bool_ok(cv(local@, spec_carry_bit_base(j as int) + m)),
    {
        if !is_bool_exec(cell(local, base + i)) {
            return false;
        }
    }
    cell(local, carry_col(j)) == bits_packed_exec(local, base, n)
}

fn schedule_limb_ok_exec(local: &[u32], k: usize) -> (r: bool)
    requires
        local@.len() == AIR_WIDTH,
        k < 4,
    ensures
        r == schedule_limb_ok(local@, k as int),
{
    let sum = f_add(
        f_add(
            f_add(
                f_add(sigma_limb_packed_exec(local, true, k), cell(local, lag_limb_col(6, k))),
                sigma_limb_packed_exec(local, false, k),
            ),
            cell(local, lag_limb_col(15, k)),
        ),
        carry_in_exec(local, SCHED_CARRY_BASE, k),
    );
    sum == f_add(cell(local, limb_col(WORD_W, k)), f_mul(cell(local, SCHED_CARRY_BASE + k), TWO16))
}

fn transition_limb_ok_exec(local: &[u32], next: &[u32], k: usize) -> (r: bool)
    requires
        local@.len() == AIR_WIDTH,
        next@.len() == AIR_WIDTH,
        k < 4,
    ensures
        r == transition_limb_ok(local@, next@, k as int),
{
    add_t1_limb_ok_exec(local, k) && add2_limb_ok_exec(
        local,
        local,
        WORD_SIGMA0,
        WORD_MAJ,
        WORD_T2,
        CARRY_T2_BASE,
        k,
    ) && add2_limb_ok_exec(local, next, WORD_T1, WORD_T2, WORD_A, CARRY_A_BASE, k)
        && add2_limb_ok_exec(local, next, WORD_D, WORD_T1, WORD_E, CARRY_E_BASE, k)
        && cell(next, limb_col(WORD_B, k)) == cell(local, limb_col(WORD_A, k))
        && cell(next, limb_col(WORD_C, k)) == cell(local, limb_col(WORD_B, k))
        && cell(next, limb_col(WORD_D, k)) == cell(local, limb_col(WORD_C, k))
        && cell(next, limb_col(WORD_F, k)) == cell(local, limb_col(WORD_E, k))
        && cell(next, limb_col(WORD_G, k)) == cell(local, limb_col(WORD_F, k))
        && cell(next, limb_col(WORD_H, k)) == cell(local, limb_col(WORD_G, k))
        && cell(next, lag_limb_col(0, k)) == cell(local, limb_col(WORD_W, k))
}

fn lag_shift_ok_exec(local: &[u32], next: &[u32], l: usize) -> (r: bool)
    requires
        local@.len() == AIR_WIDTH,
        next@.len() == AIR_WIDTH,
        1 <= l < LAG_COUNT,
    ensures
        r == lag_shift_ok(local@, next@, l as int),
{
    for m in 0..4
        invariant
            local@.len() == AIR_WIDTH,
            next@.len() == AIR_WIDTH,
            1 <= l < LAG_COUNT,
            forall|n: int|
                0 <= n < m ==> #[trigger] cv(next@, spec_lag_limb_col(l as int, n)) == cv(
                    local@,
                    spec_lag_limb_col(l - 1, n),
                ),
    {
        if cell(next, lag_limb_col(l, m)) != cell(local, lag_limb_col(l - 1, m)) {
            return false;
        }
    }
    true
}

fn transition_ok_exec(local: &[u32], next: &[u32]) -> (r: bool)
    requires
        local@.len() == AIR_WIDTH,
        next@.len() == AIR_WIDTH,
    ensures
        r == transition_ok(local@, next@),
{
    for k in 0..4
        invariant
            local@.len() == AIR_WIDTH,
            next@.len() == AIR_WIDTH,
            forall|j: int| 0 <= j < k ==> #[trigger] transition_limb_ok(local@, next@, j),
    {
        if !transition_limb_ok_exec(local, next, k) {
            return false;
        }
    }
    for l in 1..LAG_COUNT
        invariant
            local@.len() == AIR_WIDTH,
            next@.len() == AIR_WIDTH,
            forall|j: int| 1 <= j < l ==> #[trigger] lag_shift_ok(local@, next@, j),
    {
        if !lag_shift_ok_exec(local, next, l) {
            return false;
        }
    }
    true
}

fn last_row_ok_exec(local: &[u32]) -> (r: bool)
    requires
        local@.len() == AIR_WIDTH,
    ensures
        r == last_row_ok(local@),
{
    for w in WORD_W..WORD_COUNT
        invariant
            local@.len() == AIR_WIDTH,
            forall|j: int, k: int| WORD_W <= j < w && 0 <= k < 4 ==> #[trigger] wl(local@, j, k) == 0,
    {
        for k in 0..4
            invariant
                local@.len() == AIR_WIDTH,
                WORD_W <= w < WORD_COUNT,
                forall|j: int, m: int| WORD_W <= j < w && 0 <= m < 4 ==> #[trigger] wl(local@, j, m) == 0,
                forall|m: int| 0 <= m < k ==> #[trigger] wl(local@, w as int, m) == 0,
        {
            if cell(local, limb_col(w, k)) != 0 {
                assert(wl(local@, w as int, k as int) != 0);
                return false;
            }
        }
    }
    for c in CARRY_T1_BASE..BIT_A_BASE
        invariant
            local@.len() == AIR_WIDTH,
            forall|j: int| CARRY_T1_BASE <= j < c ==> #[trigger] cv(local@, j) == 0,
    {
        if cell(local, c) != 0 {
            return false;
        }
    }
    true
}

fn public_ok_exec(local: &[u32], pv: &[u32]) -> (r: bool)
    requires
        local@.len() == AIR_WIDTH,
        pv@.len() == 8,
    ensures
        r == public_ok(local@, pv@),
{
    for i in 0..8
        invariant
            local@.len() == AIR_WIDTH,
            pv@.len() == 8,
            forall|j: int| 0 <= j < i ==> #[trigger] limbs_packed(local@, spec_limb_col(j, 0)) == fval(pv@[j]),
    {
        if limbs_packed_exec(local, limb_col(i, 0)) != f_canon(pv[i]) {
            return false;
        }
    }
    true
}

fn bit_groups_ok_exec(local: &[u32]) -> (r: bool)
    requires
        local@.len() == AIR_WIDTH,
    ensures
        r == bit_groups_ok(local@),
{
    for g in 0..BIT_GROUPS
        invariant
            local@.len() == AIR_WIDTH,
            forall|j: int| 0 <= j < g ==> #[trigger] bit_group_ok(local@, j),
    {
        if !bit_group_ok_exec(local, g) {
            return false;
        }
    }
    true
}

fn round_words_ok_exec(local: &[u32]) -> (r: bool)
    requires
        local@.len() == AIR_WIDTH,
    ensures
        r == round_words_ok(local@),
{
    for k in 0..4
        invariant
            local@.len() == AIR_WIDTH,
            forall|j: int| 0 <= j < k ==> #[trigger] round_limb_ok(local@, j),
    {
        if !round_limb_ok_exec(local, k) {
            return false;
        }
    }
    true
}

fn ranges_ok_exec(local: &[u32]) -> (r: bool)
    requires
        local@.len() == AIR_WIDTH,
    ensures
        r == ranges_ok(local@),
{
    for s in 0..RANGE_SOURCES
        invariant
            local@.len() == AIR_WIDTH,
            forall|j: int| 0 <= j < s ==> #[trigger] range_ok(local@, j),
    {
        if !range_ok_exec(local, s) {
            return false;
        }
    }
    true
}

fn carries_ok_exec(local: &[u32]) -> (r: bool)
    requires
        local@.len() == AIR_WIDTH,
    ensures
        r == carries_ok(local@),
{
    for j in 0..20
        invariant
            local@.len() == AIR_WIDTH,
            forall|m: int| 0 <= m < j ==> #[trigger] carry_bits_ok(local@, m),
    {
        if !carry_bits_ok_exec(local, j) {
            return false;
        }
    }
    true
}

fn schedule_ok_exec(local: &[u32]) -> (r: bool)
    requires
        local@.len() == AIR_WIDTH,
    ensures
        r == schedule_ok(local@),
{
    for k in 0..4
        invariant
            local@.len() == AIR_WIDTH,
            forall|j: int| 0 <= j < k ==> #[trigger] schedule_limb_ok(local@, j),
    {
        if !schedule_limb_ok_exec(local, k) {
            return false;
        }
    }
    true
}

/// Checks every constraint of one window.
pub fn check_row(local: &[u32], next: &[u32], prep: &[u32], pv: &[u32]) -> (r: bool)
    requires
        local@.len() == AIR_WIDTH,
        next@.len() == AIR_WIDTH,
        prep@.len() == AIR_WIDTH,
        pv@.len() == 8,
    ensures
        r == row_ok(local@, next@, prep@, pv@),
{
    let round = cell(prep, PREP_ROUND_SELECTOR_COL);
    let trans = cell(prep, PREP_TRANSITION_SELECTOR_COL);
    binding_ok_exec(local, prep) && (cell(prep, PREP_BLOCK_START_SELECTOR_COL) == 0
        || first_row_ok_exec(local, prep)) && bit_groups_ok_exec(local) && (round == 0
        || round_words_ok_exec(local)) && lag_bits_ok_exec(local) && ranges_ok_exec(local)
        && carries_ok_exec(local) && (trans == 0 || transition_ok_exec(local, next)) && (f_sub(
        round,
        cell(prep, PREP_INIT_W_SELECTOR_COL),
    ) == 0 || schedule_ok_exec(local)) && (f_sub(1, trans) == 0 || last_row_ok_exec(local)) && (
    cell(prep, PREP_FINAL_SELECTOR_COL) == 0 || public_ok_exec(local, pv))
}

} // verus!
