//! Column layout of the SHA-512 AIR trace (1076 columns per row).
//!
//! | columns    | content                                                              |
//! |------------|----------------------------------------------------------------------|
//! | 0–63       | 16-bit limbs of the sixteen words a..h, W, K, Σ0, Σ1, Ch, Maj, T1, T2 |
//! | 64–79      | limb carries of the T1, T2, A and E additions                         |
//! | 80–143     | limbs of the sixteen previous schedule words (lags)                  |
//! | 144–147    | limb carries of the schedule addition                                |
//! | 148–531    | 64-bit decompositions of a, b, c, e, f, g                            |
//! | 532–659    | 64-bit decompositions of lag 1 and lag 14 (the σ1 and σ0 inputs)     |
//! | 660–1043   | range bits: 16 bits for each limb of d, h, W, K, T1, T2              |
//! | 1044–1075  | carry bits: 3 per T1 carry, 1 per T2/A/E carry, 2 per schedule carry |
//!
//! The preprocessed trace has the same width. It holds the initial state limbs on row 0, the
//! W and K limbs on the round rows, and five row-type selectors in the final five columns:
//! block start, transition, round, initial W, final.
use vstd::prelude::*;
verus! {

/// Rows of the trace: 80 rounds, the final working state, and padding up to 2^7.
pub const TRACE_ROWS: usize = 128;
/// Rows that hold the rounds and the final working state.
pub const SHA_ROUNDS_PLUS_INIT: usize = 81;
pub const WORD_A: usize = 0;
pub const WORD_B: usize = 1;
pub const WORD_C: usize = 2;
pub const WORD_D: usize = 3;
pub const WORD_E: usize = 4;
pub const WORD_F: usize = 5;
pub const WORD_G: usize = 6;
pub const WORD_H: usize = 7;
pub const WORD_W: usize = 8;
pub const WORD_K: usize = 9;
pub const WORD_SIGMA0: usize = 10;
pub const WORD_SIGMA1: usize = 11;
pub const WORD_CH: usize = 12;
pub const WORD_MAJ: usize = 13;
pub const WORD_T1: usize = 14;
pub const WORD_T2: usize = 15;
/// Number of words each row holds as limbs.
pub const WORD_COUNT: usize = 16;
pub const LIMBS_PER_WORD: usize = 4;
pub const LIMB_BASE: usize = 0;
pub const CARRY_T1_BASE: usize = 64;
pub const CARRY_T2_BASE: usize = 68;
pub const CARRY_A_BASE: usize = 72;
pub const CARRY_E_BASE: usize = 76;
pub const LAG_COUNT: usize = 16;
pub const LAG_LIMB_BASE: usize = 80;
pub const SCHED_CARRY_BASE: usize = 144;
pub const BIT_A_BASE: usize = 148;
pub const BIT_B_BASE: usize = 212;
pub const BIT_C_BASE: usize = 276;
pub const BIT_E_BASE: usize = 340;
pub const BIT_F_BASE: usize = 404;
pub const BIT_G_BASE: usize = 468;
/// Number of working words with a 64-bit decomposition: a, b, c, e, f, g.
pub const BIT_GROUPS: usize = 6;
/// First column of the decompositions of lag 1 and lag 14.
pub const LAG_BIT_BASE: usize = 532;
/// Number of limbs that receive a 16-bit range check: the limbs of d, h, W, K, T1, T2.
pub const RANGE_SOURCES: usize = 24;
pub const RANGE_BITS_PER_SOURCE: usize = 16;
pub const RANGE_BIT_BASE: usize = 660;
pub const CARRY_BIT_BASE: usize = 1044;
/// Number of columns of a row, shared by the main and the preprocessed trace.
pub const AIR_WIDTH: usize = 1076;
/// Preprocessed selector: 1 on the first row of a block.
pub const PREP_BLOCK_START_SELECTOR_COL: usize = 1071;
/// Preprocessed selector: 1 on the rows whose successor belongs to the same block.
pub const PREP_TRANSITION_SELECTOR_COL: usize = 1072;
/// Preprocessed selector: 1 on the eighty round rows.
pub const PREP_ROUND_SELECTOR_COL: usize = 1073;
/// Preprocessed selector: 1 on the sixteen rows whose W comes from the block.
pub const PREP_INIT_W_SELECTOR_COL: usize = 1074;
/// Preprocessed selector: 1 on the row of the final working state, bound to the public values.
pub const PREP_FINAL_SELECTOR_COL: usize = 1075;

pub open spec fn spec_limb_col(word: int, limb: int) -> int {
    LIMB_BASE + word * LIMBS_PER_WORD + limb
}

pub open spec fn spec_lag_limb_col(lag: int, limb: int) -> int {
    LAG_LIMB_BASE + lag * LIMBS_PER_WORD + limb
}

/// The word that bit group `g` decomposes: a, b, c, e, f, g.
pub open spec fn spec_bit_group_word(g: int) -> int {
    if g < 3 {
        g
    } else {
        g + 1
    }
}

/// First column of bit group `g`.
pub open spec fn spec_bit_group_base(g: int) -> int {
    BIT_A_BASE + 64 * g
}

/// Column of bit `bit` of lag 1 (`sigma1`) or lag 14.
pub open spec fn spec_lag_bit_col(sigma1: bool, bit: int) -> int {
    LAG_BIT_BASE + (if sigma1 { 0int } else { 64int }) + bit
}

/// The word whose limbs range source group `i` checks: d, h, W, K, T1, T2.
pub open spec fn spec_ranged_word(i: int) -> int {
    if i == 0 {
        WORD_D as int
    } else if i == 1 {
        WORD_H as int
    } else if i == 2 {
        WORD_W as int
    } else if i == 3 {
        WORD_K as int
    } else if i == 4 {
        WORD_T1 as int
    } else {
        WORD_T2 as int
    }
}

/// The column holding the limb that range source `source` checks.
pub open spec fn spec_range_source_col(source: int) -> int {
    spec_limb_col(spec_ranged_word(source / 4), source % 4)
}

pub open spec fn spec_range_bit_col(source: int, bit: int) -> int {
    RANGE_BIT_BASE + source * RANGE_BITS_PER_SOURCE + bit
}

/// The column of carry `j` (0..20: T1, T2, A, E, schedule).
pub open spec fn spec_carry_col(j: int) -> int {
    if j < 16 {
        CARRY_T1_BASE + j
    } else {
        SCHED_CARRY_BASE + (j - 16)
    }
}

/// Number of bits of carry `j`: 3 for T1, 2 for the schedule, 1 otherwise.
pub open spec fn spec_carry_bits(j: int) -> int {
    if j < 4 {
        3
    } else if j < 16 {
        1
    } else {
        2
    }
}

/// First bit column of carry `j`.
pub open spec fn spec_carry_bit_base(j: int) -> int {
    if j < 4 {
        CARRY_BIT_BASE + 3 * j
    } else if j < 16 {
        CARRY_BIT_BASE + 12 + (j - 4)
    } else {
        CARRY_BIT_BASE + 24 + 2 * (j - 16)
    }
}

pub fn limb_col(word: usize, limb: usize) -> (c: usize)
    requires
        word < WORD_COUNT,
        limb < LIMBS_PER_WORD,
    ensures
        c == spec_limb_col(word as int, limb as int),
{
    LIMB_BASE + word * LIMBS_PER_WORD + limb
}

pub fn lag_limb_col(lag: usize, limb: usize) -> (c: usize)
    requires
        lag < LAG_COUNT,
        limb < LIMBS_PER_WORD,
    ensures
        c == spec_lag_limb_col(lag as int, limb as int),
{
    LAG_LIMB_BASE + lag * LIMBS_PER_WORD + limb
}

pub fn lag_bit_col(sigma1: bool, bit: usize) -> (c: usize)
    requires
        bit < 64,
    ensures
        c == spec_lag_bit_col(sigma1, bit as int),
        c < AIR_WIDTH,
{
    LAG_BIT_BASE + (if sigma1 { 0 } else { 64 }) + bit
}

pub fn ranged_word(i: usize) -> (w: usize)
    requires
        i < 6,
    ensures
        w == spec_ranged_word(i as int),
{
    if i == 0 {
        WORD_D
    } else if i == 1 {
        WORD_H
    } else if i == 2 {
        WORD_W
    } else if i == 3 {
        WORD_K
    } else if i == 4 {
        WORD_T1
    } else {
        WORD_T2
    }
}

pub fn range_source_col(source: usize) -> (c: usize)
    requires
        source < RANGE_SOURCES,
    ensures
        c == spec_range_source_col(source as int),
        c < 64,
{
    limb_col(ranged_word(source / 4), source % 4)
}

pub fn range_bit_col(source: usize, bit: usize) -> (c: usize)
    requires
        source < RANGE_SOURCES,
        bit < RANGE_BITS_PER_SOURCE,
    ensures
        c == spec_range_bit_col(source as int, bit as int),
        c < AIR_WIDTH,
{
    RANGE_BIT_BASE + source * RANGE_BITS_PER_SOURCE + bit
}

pub fn carry_col(j: usize) -> (c: usize)
    requires
        j < 20,
    ensures
        c == spec_carry_col(j as int),
        c < AIR_WIDTH,
{
    if j < 16 {
        CARRY_T1_BASE + j
    } else {
        SCHED_CARRY_BASE + (j - 16)
    }
}

pub fn carry_bits(j: usize) -> (n: usize)
    requires
        j < 20,
    ensures
        n == spec_carry_bits(j as int),
{
    if j < 4 {
        3
    } else if j < 16 {
        1
    } else {
        2
    }
}

pub fn carry_bit_base(j: usize) -> (c: usize)
    requires
        j < 20,
    ensures
        c == spec_carry_bit_base(j as int),
        c + spec_carry_bits(j as int) <= AIR_WIDTH,
{
    if j < 4 {
        CARRY_BIT_BASE + 3 * j
    } else if j < 16 {
        CARRY_BIT_BASE + 12 + (j - 4)
    } else {
        CARRY_BIT_BASE + 24 + 2 * (j - 16)
    }
}

pub fn bit_group_word(g: usize) -> (w: usize)
    requires
        g < BIT_GROUPS,
    ensures
        w == spec_bit_group_word(g as int),
{
    if g < 3 {
        g
    } else {
        g + 1
    }
}

pub fn bit_group_base(g: usize) -> (c: usize)
    requires
        g < BIT_GROUPS,
    ensures
        c == spec_bit_group_base(g as int),
{
    BIT_A_BASE + 64 * g
}

} // verus!
