//! Arithmetic in the BabyBear prime field, p = 2^31 - 2^27 + 1.
//!
//! A field element is held as its canonical representative, a `u32` below p. A stored `u32`
//! that is not canonical stands for its residue modulo p.
use vstd::prelude::*;

use vstd::arithmetic::div_mod::{
    lemma_fundamental_div_mod, lemma_mod_multiples_basic, lemma_small_mod,
};

verus! {

/// The BabyBear modulus.
pub const BABY_BEAR_P: u32 = 2013265921;

/// The field element that a stored value stands for.
pub open spec fn fval(x: u32) -> int {
    x as int % BABY_BEAR_P as int
}

/// Field addition on integers.
pub open spec fn fadd(a: int, b: int) -> int {
    (a + b) % BABY_BEAR_P as int
}

/// Field subtraction on integers.
pub open spec fn fsub(a: int, b: int) -> int {
    (a - b) % BABY_BEAR_P as int
}

/// Field multiplication on integers.
pub open spec fn fmul(a: int, b: int) -> int {
    (a * b) % BABY_BEAR_P as int
}

/// The field element 1 for a boolean `true` and 0 for `false`.
pub open spec fn fbool(b: bool) -> int {
    if b {
        1
    } else {
        0
    }
}

/// Reduces a 64-bit integer into the field.
pub fn bb(x: u64) -> (r: u32)
    ensures
        r as int == x as int % BABY_BEAR_P as int,
{
    (x % (BABY_BEAR_P as u64)) as u32
}

/// Canonical representative of a stored value.
pub fn f_canon(x: u32) -> (r: u32)
    ensures
        r as int == fval(x),
{
    x % BABY_BEAR_P
}

/// Addition of canonical field elements.
pub fn f_add(a: u32, b: u32) -> (r: u32)
    requires
        a < BABY_BEAR_P,
        b < BABY_BEAR_P,
    ensures
        r as int == fadd(a as int, b as int),
{
    let s = a as u64 + b as u64;
    (s % (BABY_BEAR_P as u64)) as u32
}

/// Subtraction of canonical field elements.
pub fn f_sub(a: u32, b: u32) -> (r: u32)
    requires
        a < BABY_BEAR_P,
        b < BABY_BEAR_P,
    ensures
        r as int == fsub(a as int, b as int),
{
    if a >= b {
        a - b
    } else {
        a + (BABY_BEAR_P - b)
    }
}

/// Multiplication of canonical field elements.
pub fn f_mul(a: u32, b: u32) -> (r: u32)
    requires
        a < BABY_BEAR_P,
        b < BABY_BEAR_P,
    ensures
        r as int == fmul(a as int, b as int),
{
    assert((a as u64) * (b as u64) <= 0xffff_ffff_u64 * 0xffff_ffff_u64) by (nonlinear_arith)
        requires
            a < BABY_BEAR_P,
            b < BABY_BEAR_P,
    ;
    let p = a as u64 * b as u64;
    (p % (BABY_BEAR_P as u64)) as u32
}

/// The field element of a boolean.
pub fn f_bool(b: bool) -> (r: u32)
    ensures
        r as int == fbool(b),
{
    if b {
        1
    } else {
        0
    }
}

/// No integer strictly between 1 and 2^16 divides p.
#[verifier::rlimit(100)]
proof fn lemma_no_small_divisor(d: int)
    requires
        2 <= d < 0x10000,
    ensures
        BABY_BEAR_P as int % d != 0,
{
    assert(forall|x: u32| 2 <= x && x < 0x10000 ==> #[trigger] (2013265921u32 % x) != 0u32) by (bit_vector);
    let x = d as u32;
    assert(2013265921u32 % x != 0u32);
}

/// p is prime: no integer strictly between 1 and p divides it.
pub proof fn lemma_p_is_prime(d: int)
    requires
        2 <= d < BABY_BEAR_P,
    ensures
        BABY_BEAR_P as int % d != 0,
{
    let p = BABY_BEAR_P as int;
    if d < 0x10000 {
        lemma_no_small_divisor(d);
    } else if p % d == 0 {
        let q = p / d;
        lemma_fundamental_div_mod(p, d);
        assert(p == d * q);
        assert(q >= 2 && q < 0x10000) by (nonlinear_arith)
            requires
                p == d * q,
                0x10000 <= d < p,
                p == 2013265921,
        ;
        assert(p % q == 0) by {
            lemma_mod_multiples_basic(d, q);
        }
        lemma_no_small_divisor(q);
    }
}

/// Euclid's lemma for p: if p divides a * b and not a, it divides b.
pub proof fn lemma_p_divides_factor(a: int, b: int)
    requires
        0 < a < BABY_BEAR_P,
        (a * b) % (BABY_BEAR_P as int) == 0,
    ensures
        b % (BABY_BEAR_P as int) == 0,
    decreases a,
{
    let p = BABY_BEAR_P as int;
    if a != 1 {
        lemma_p_is_prime(a);
        lemma_fundamental_div_mod(p, a);
        let q = p / a;
        let r = p % a;
        assert(0 < r < a);
        lemma_fundamental_div_mod(a * b, p);
        let t = (a * b) / p;
        assert(a * b == p * t);
        assert(r * b == (b - q * t) * p) by (nonlinear_arith)
            requires
                p == a * q + r,
                a * b == p * t,
        ;
        lemma_mod_multiples_basic(b - q * t, p);
        lemma_p_divides_factor(r, b);
    }
}

/// The bit constraint x (x - 1) = 0 holds in the field only for x = 0 and x = 1.
pub proof fn lemma_bit_constraint(x: int)
    requires
        0 <= x < BABY_BEAR_P,
        fmul(x, fsub(x, 1)) == 0,
    ensures
        x == 0 || x == 1,
{
    let p = BABY_BEAR_P as int;
    if x != 0 {
        lemma_small_mod((x - 1) as nat, p as nat);
        assert(fsub(x, 1) == x - 1);
        lemma_p_divides_factor(x, x - 1);
        lemma_small_mod((x - 1) as nat, p as nat);
    }
}

} // verus!
