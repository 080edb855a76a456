//! Little-endian integers read out of byte sequences.

use vstd::prelude::*;

verus! {

/// The unsigned value of the `n` bytes of `b` that start at `at`, least
/// significant byte first.
#[verifier::opaque]
pub open spec fn le_value(b: Seq<u8>, at: int, n: nat) -> nat
    decreases n,
{
    if n == 0 {
        0
    } else {
        b[at] as nat + 256 * le_value(b, at + 1, (n - 1) as nat)
    }
}

/// Reading inside a window of `b` reads the same bytes as reading `b` itself.
pub proof fn lemma_le_value_subrange(b: Seq<u8>, s: int, e: int, at: int, n: nat)
    requires
        0 <= s <= e <= b.len(),
        0 <= at,
        s + at + n <= e,
    ensures
        le_value(b.subrange(s, e), at, n) == le_value(b, s + at, n),
    decreases n,
{
    reveal(le_value);
    if n > 0 {
        lemma_le_value_subrange(b, s, e, at + 1, (n - 1) as nat);
    }
}

/// The 64-bit word stored little-endian at `at`.
pub open spec fn le_u64(b: Seq<u8>, at: int) -> u64 {
    le_value(b, at, 8) as u64
}

/// The 32-bit word stored little-endian at `at`.
pub open spec fn le_u32(b: Seq<u8>, at: int) -> u32 {
    le_value(b, at, 4) as u32
}

/// The 16-bit word stored little-endian at `at`.
pub open spec fn le_u16(b: Seq<u8>, at: int) -> u16 {
    le_value(b, at, 2) as u16
}

/// Reads the 64-bit little-endian word at `at`.
pub fn read_u64(b: &[u8], at: usize) -> (r: u64)
    requires
        at + 8 <= b.len(),
    ensures
        r as nat == le_value(b@, at as int, 8),
        r == le_u64(b@, at as int),
{
    reveal_with_fuel(le_value, 9);
    let mut r: u64 = b[at + 7] as u64;
    r = r * 256 + b[at + 6] as u64;
    r = r * 256 + b[at + 5] as u64;
    r = r * 256 + b[at + 4] as u64;
    r = r * 256 + b[at + 3] as u64;
    r = r * 256 + b[at + 2] as u64;
    r = r * 256 + b[at + 1] as u64;
    r = r * 256 + b[at] as u64;
    r
}

/// Reads the 32-bit little-endian word at `at`.
pub fn read_u32(b: &[u8], at: usize) -> (r: u32)
    requires
        at + 4 <= b.len(),
    ensures
        r as nat == le_value(b@, at as int, 4),
        r == le_u32(b@, at as int),
{
    reveal_with_fuel(le_value, 5);
    let mut r: u32 = b[at + 3] as u32;
    r = r * 256 + b[at + 2] as u32;
    r = r * 256 + b[at + 1] as u32;
    r = r * 256 + b[at] as u32;
    r
}

/// Reads the 16-bit little-endian word at `at`.
pub fn read_u16(b: &[u8], at: usize) -> (r: u16)
    requires
        at + 2 <= b.len(),
    ensures
        r as nat == le_value(b@, at as int, 2),
        r == le_u16(b@, at as int),
{
    reveal_with_fuel(le_value, 3);
    let r: u16 = (b[at + 1] as u16) * 256 + b[at] as u16;
    r
}

} // verus!
