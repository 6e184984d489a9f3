//! Zigzag mapping of signed integers to unsigned ones, so that values of small
//! magnitude, negative or not, get short varints: `0, -1, 1, -2, 2` map to
//! `0, 1, 2, 3, 4`.

use vstd::prelude::*;

verus! {

/// The unsigned number a signed one maps to.
pub open spec fn zig_zag(n: int) -> nat {
    if n >= 0 {
        (2 * n) as nat
    } else {
        (-2 * n - 1) as nat
    }
}

/// The signed number an unsigned one maps back to.
pub open spec fn de_zig_zag(u: nat) -> int {
    if u % 2 == 0 {
        (u / 2) as int
    } else {
        -((u / 2) as int) - 1
    }
}

/// Mapping back undoes mapping.
pub proof fn zig_zag_round_trip(n: int)
    ensures
        de_zig_zag(zig_zag(n)) == n,
{
}

/// Mapping undoes mapping back, so every unsigned number stands for exactly
/// one signed one.
pub proof fn de_zig_zag_round_trip(u: nat)
    ensures
        zig_zag(de_zig_zag(u)) == u,
{
}

/// Maps a 16-bit signed integer.
pub fn zig_zag_i16(n: i16) -> (r: u16)
    ensures
        r == zig_zag(n as int),
{
    if n >= 0 {
        (n as u16) * 2
    } else {
        ((-(n + 1)) as u16) * 2 + 1
    }
}

/// Maps a 32-bit signed integer.
pub fn zig_zag_i32(n: i32) -> (r: u32)
    ensures
        r == zig_zag(n as int),
{
    if n >= 0 {
        (n as u32) * 2
    } else {
        ((-(n + 1)) as u32) * 2 + 1
    }
}

/// Maps a 64-bit signed integer.
pub fn zig_zag_i64(n: i64) -> (r: u64)
    ensures
        r == zig_zag(n as int),
{
    if n >= 0 {
        (n as u64) * 2
    } else {
        ((-(n + 1)) as u64) * 2 + 1
    }
}

/// Maps a 128-bit signed integer.
pub fn zig_zag_i128(n: i128) -> (r: u128)
    ensures
        r == zig_zag(n as int),
{
    if n >= 0 {
        (n as u128) * 2
    } else {
        ((-(n + 1)) as u128) * 2 + 1
    }
}

/// Maps a 16-bit unsigned integer back.
pub fn de_zig_zag_i16(u: u16) -> (r: i16)
    ensures
        r == de_zig_zag(u as nat),
{
    if u % 2 == 0 {
        (u / 2) as i16
    } else {
        -((u / 2) as i16) - 1
    }
}

/// Maps a 32-bit unsigned integer back.
pub fn de_zig_zag_i32(u: u32) -> (r: i32)
    ensures
        r == de_zig_zag(u as nat),
{
    if u % 2 == 0 {
        (u / 2) as i32
    } else {
        -((u / 2) as i32) - 1
    }
}

/// Maps a 64-bit unsigned integer back.
pub fn de_zig_zag_i64(u: u64) -> (r: i64)
    ensures
        r == de_zig_zag(u as nat),
{
    if u % 2 == 0 {
        (u / 2) as i64
    } else {
        -((u / 2) as i64) - 1
    }
}

/// Maps a 128-bit unsigned integer back.
pub fn de_zig_zag_i128(u: u128) -> (r: i128)
    ensures
        r == de_zig_zag(u as nat),
{
    if u % 2 == 0 {
        (u / 2) as i128
    } else {
        -((u / 2) as i128) - 1
    }
}

} // verus!
