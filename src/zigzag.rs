//! The zigzag mapping between signed and unsigned integers, which keeps
//! values of small magnitude small whatever their sign.

use vstd::prelude::*;

verus! {

/// Non-negative `v` goes to `2v`, negative `v` to `-2v - 1`.
pub open spec fn zigzag(v: int) -> nat {
    if v >= 0 {
        (2 * v) as nat
    } else {
        (-2 * v - 1) as nat
    }
}

/// The inverse of [`zigzag`]: even `u` comes from `u / 2`, odd `u` from
/// `-(u / 2) - 1`.
pub open spec fn unzigzag(u: nat) -> int {
    if u % 2 == 0 {
        (u / 2) as int
    } else {
        -((u / 2) as int) - 1
    }
}

/// `unzigzag` undoes `zigzag`.
pub proof fn lemma_unzigzag_zigzag(v: int)
    ensures
        unzigzag(zigzag(v)) == v,
{
}

/// `zigzag` undoes `unzigzag`.
pub proof fn lemma_zigzag_unzigzag(u: nat)
    ensures
        zigzag(unzigzag(u)) == u,
{
}

pub fn zigzag_i16(v: i16) -> (u: u16)
    ensures
        u == zigzag(v as int),
{
    if v >= 0 {
        (v as u16) * 2
    } else {
        (-(v + 1)) as u16 * 2 + 1
    }
}

pub fn unzigzag_u16(u: u16) -> (v: i16)
    ensures
        v == unzigzag(u as nat),
{
    if u % 2 == 0 {
        (u / 2) as i16
    } else {
        -((u / 2) as i16) - 1
    }
}

pub fn zigzag_i32(v: i32) -> (u: u32)
    ensures
        u == zigzag(v as int),
{
    if v >= 0 {
        (v as u32) * 2
    } else {
        (-(v + 1)) as u32 * 2 + 1
    }
}

pub fn unzigzag_u32(u: u32) -> (v: i32)
    ensures
        v == unzigzag(u as nat),
{
    if u % 2 == 0 {
        (u / 2) as i32
    } else {
        -((u / 2) as i32) - 1
    }
}

pub fn zigzag_i64(v: i64) -> (u: u64)
    ensures
        u == zigzag(v as int),
{
    if v >= 0 {
        (v as u64) * 2
    } else {
        (-(v + 1)) as u64 * 2 + 1
    }
}

pub fn unzigzag_u64(u: u64) -> (v: i64)
    ensures
        v == unzigzag(u as nat),
{
    if u % 2 == 0 {
        (u / 2) as i64
    } else {
        -((u / 2) as i64) - 1
    }
}

pub fn zigzag_i128(v: i128) -> (u: u128)
    ensures
        u == zigzag(v as int),
{
    if v >= 0 {
        (v as u128) * 2
    } else {
        (-(v + 1)) as u128 * 2 + 1
    }
}

pub fn unzigzag_u128(u: u128) -> (v: i128)
    ensures
        v == unzigzag(u as nat),
{
    if u % 2 == 0 {
        (u / 2) as i128
    } else {
        -((u / 2) as i128) - 1
    }
}

} // verus!
