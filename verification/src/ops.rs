//! The SHA-512 bitwise functions of FIPS 180-4, section 4.1.3.
use vstd::prelude::*;

verus! {

/// Right rotation of a 64-bit word by `n` positions, `0 < n < 64`.
pub open spec fn rotr(x: u64, n: u64) -> u64 {
    (x >> n) | (x << ((64 - n) as u64))
}

/// Ch(x, y, z) = (x AND y) XOR (NOT x AND z).
pub open spec fn spec_ch(x: u64, y: u64, z: u64) -> u64 {
    (x & y) ^ ((!x) & z)
}

/// Maj(x, y, z) = (x AND y) XOR (x AND z) XOR (y AND z).
pub open spec fn spec_maj(x: u64, y: u64, z: u64) -> u64 {
    (x & y) ^ (x & z) ^ (y & z)
}

/// Σ0(x) = ROTR28(x) XOR ROTR34(x) XOR ROTR39(x).
pub open spec fn spec_big_sigma0(x: u64) -> u64 {
    rotr(x, 28) ^ rotr(x, 34) ^ rotr(x, 39)
}

/// Σ1(x) = ROTR14(x) XOR ROTR18(x) XOR ROTR41(x).
pub open spec fn spec_big_sigma1(x: u64) -> u64 {
    rotr(x, 14) ^ rotr(x, 18) ^ rotr(x, 41)
}

/// σ0(x) = ROTR1(x) XOR ROTR8(x) XOR SHR7(x).
pub open spec fn spec_small_sigma0(x: u64) -> u64 {
    rotr(x, 1) ^ rotr(x, 8) ^ (x >> 7u64)
}

/// σ1(x) = ROTR19(x) XOR ROTR61(x) XOR SHR6(x).
pub open spec fn spec_small_sigma1(x: u64) -> u64 {
    rotr(x, 19) ^ rotr(x, 61) ^ (x >> 6u64)
}

pub fn ch(x: u64, y: u64, z: u64) -> (r: u64)
    ensures
        r == spec_ch(x, y, z),
{
    (x & y) ^ ((!x) & z)
}

pub fn maj(x: u64, y: u64, z: u64) -> (r: u64)
    ensures
        r == spec_maj(x, y, z),
{
    (x & y) ^ (x & z) ^ (y & z)
}

pub fn big_sigma0(x: u64) -> (r: u64)
    ensures
        r == spec_big_sigma0(x),
{
    ((x >> 28u64) | (x << 36u64)) ^ ((x >> 34u64) | (x << 30u64)) ^ ((x >> 39u64) | (x << 25u64))
}

pub fn big_sigma1(x: u64) -> (r: u64)
    ensures
        r == spec_big_sigma1(x),
{
    ((x >> 14u64) | (x << 50u64)) ^ ((x >> 18u64) | (x << 46u64)) ^ ((x >> 41u64) | (x << 23u64))
}

pub fn small_sigma0(x: u64) -> (r: u64)
    ensures
        r == spec_small_sigma0(x),
{
    ((x >> 1u64) | (x << 63u64)) ^ ((x >> 8u64) | (x << 56u64)) ^ (x >> 7u64)
}

pub fn small_sigma1(x: u64) -> (r: u64)
    ensures
        r == spec_small_sigma1(x),
{
    ((x >> 19u64) | (x << 45u64)) ^ ((x >> 61u64) | (x << 3u64)) ^ (x >> 6u64)
}

} // verus!
