//! Ordering of 32-bit sequence numbers on a circle of 2^32 points.

use vstd::prelude::*;

verus! {

/// Half of the sequence space: two numbers further apart than this are
/// ordered the other way round.
pub const HALF_SPACE: u32 = 0x8000_0000;

/// `lhs` precedes `rhs` within half the sequence space.
pub open spec fn spec_lt(lhs: u32, rhs: u32) -> bool {
    lhs.wrapping_sub(rhs) > HALF_SPACE
}

/// `lhs` precedes `rhs` or equals it.
pub open spec fn spec_le(lhs: u32, rhs: u32) -> bool {
    spec_lt(lhs, rhs) || lhs == rhs
}

/// `x` lies in the window `[start, end)`.
pub open spec fn spec_segment_valid(start: u32, x: u32, end: u32) -> bool {
    spec_le(start, x) && spec_lt(x, end)
}

/// The number of steps from `from` forward to `to` on the circle.
pub open spec fn gap(from: u32, to: u32) -> int {
    if to >= from {
        to - from
    } else {
        to - from + 0x1_0000_0000
    }
}

/// The number `n` steps ahead of `seq` on the circle.
pub open spec fn spec_seq_add(seq: u32, n: int) -> u32 {
    ((seq + n) % 0x1_0000_0000) as u32
}

/// Whether `lhs` precedes `rhs` within half the sequence space.
#[verifier::when_used_as_spec(spec_lt)]
pub fn lt(lhs: u32, rhs: u32) -> (r: bool)
    ensures
        r == spec_lt(lhs, rhs),
{
    lhs.wrapping_sub(rhs) > HALF_SPACE
}

/// Whether `lhs` precedes `rhs` or equals it.
#[verifier::when_used_as_spec(spec_le)]
pub fn le(lhs: u32, rhs: u32) -> (r: bool)
    ensures
        r == spec_le(lhs, rhs),
{
    lt(lhs, rhs) || lhs == rhs
}

/// Whether `x` lies in the window `[start, end)`.
#[verifier::when_used_as_spec(spec_segment_valid)]
pub fn segment_valid(start: u32, x: u32, end: u32) -> (r: bool)
    ensures
        r == spec_segment_valid(start, x, end),
{
    le(start, x) && lt(x, end)
}

/// Steps `n` places forward from `seq`, wrapping at 2^32.
pub fn seq_add(seq: u32, n: usize) -> (r: u32)
    ensures
        r == spec_seq_add(seq, n as int),
{
    let low: u32 = (n as u64 % 0x1_0000_0000u64) as u32;
    seq.wrapping_add(low)
}

/// Two steps forward are one step of their sum.
pub proof fn lemma_seq_add_twice(seq: u32, a: int, b: int)
    requires
        0 <= a,
        0 <= b,
    ensures
        spec_seq_add(spec_seq_add(seq, a), b) == spec_seq_add(seq, a + b),
{
    vstd::arithmetic::div_mod::lemma_add_mod_noop(seq + a, b, 0x1_0000_0000);
    vstd::arithmetic::div_mod::lemma_mod_bound(seq + a, 0x1_0000_0000);
    vstd::arithmetic::div_mod::lemma_mod_bound(seq + a + b, 0x1_0000_0000);
    vstd::arithmetic::div_mod::lemma_mod_bound(b, 0x1_0000_0000);
    vstd::arithmetic::div_mod::lemma_mod_twice(seq + a, 0x1_0000_0000);
    vstd::arithmetic::div_mod::lemma_add_mod_noop((seq + a) % 0x1_0000_0000, b, 0x1_0000_0000);
}

/// Stepping forward adds to the gap, modulo the circle.
pub proof fn lemma_gap_seq_add(from: u32, to: u32, n: int)
    requires
        0 <= n,
        gap(from, to) + n < 0x1_0000_0000,
    ensures
        gap(from, spec_seq_add(to, n)) == gap(from, to) + n,
{
}

/// `lt` and `le` read as distances: `lhs` precedes `rhs` exactly when the
/// way forward from `lhs` to `rhs` is shorter than half the circle.
pub proof fn lemma_order_is_gap(lhs: u32, rhs: u32)
    ensures
        rhs.wrapping_sub(lhs) == gap(lhs, rhs),
        lt(lhs, rhs) <==> 0 < gap(lhs, rhs) < HALF_SPACE,
        le(lhs, rhs) <==> gap(lhs, rhs) < HALF_SPACE,
{
}

/// No number precedes itself, and of two numbers at most one precedes the
/// other.
pub proof fn lemma_lt_asymmetric(a: u32, b: u32)
    ensures
        !lt(a, a),
        lt(a, b) ==> !lt(b, a),
        le(a, b) && le(b, a) ==> a == b,
{
}

/// Wrap ordering is transitive on any three numbers that fit in half the
/// circle: with `c` less than 2^31 steps ahead of `a`, `a <= b` and
/// `b <= c` give `a <= c`.
pub proof fn lemma_le_transitive(a: u32, b: u32, c: u32)
    requires
        c.wrapping_sub(a) < HALF_SPACE,
        le(a, b),
        le(b, c),
    ensures
        le(a, c),
{
}

/// The strict form: `a < b` and `b < c` give `a < c` when both steps
/// together stay under half the circle.
pub proof fn lemma_lt_transitive(a: u32, b: u32, c: u32)
    requires
        gap(a, b) + gap(b, c) < HALF_SPACE,
        lt(a, b),
        lt(b, c),
    ensures
        lt(a, c),
        gap(a, c) == gap(a, b) + gap(b, c),
{
}

} // verus!
