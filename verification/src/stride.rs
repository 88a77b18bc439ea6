//! Stride arithmetic: how far a thread's counter moves per dispatch, and how
//! two counters are ordered on a ring that wraps around.

use vstd::prelude::*;

verus! {

/// The amount of stride that one unit of priority is worth.
pub const BIG_STRIDE: u64 = 0xFFFF_FFFF_FFFF_FFFF;

/// Largest gap over which two counters are still ordered.
pub const HALF_STRIDE: u64 = 0x7FFF_FFFF_FFFF_FFFF;

/// Smallest priority a thread may have.
pub const MIN_PRIORITY: usize = 2;

/// Priority of a thread that never asked for one.
pub const DEFAULT_PRIORITY: usize = 16;

/// Number of steps on the ring from `from` forward to `to`.
pub open spec fn distance(from: u64, to: u64) -> int {
    if to >= from {
        to - from
    } else {
        to - from + 0x1_0000_0000_0000_0000
    }
}

/// `a` is strictly behind `b`: `b` is reached from `a` by going forward at
/// most half the ring.
pub open spec fn stride_before(a: u64, b: u64) -> bool {
    0 < distance(a, b) <= HALF_STRIDE
}

/// The pass of a priority: the stride a thread gains each time it runs.
pub open spec fn pass_of(priority: usize) -> int {
    BIG_STRIDE as int / priority as int
}

/// The counter `steps` forward of `stride` on the ring.
pub open spec fn advanced(stride: u64, steps: int) -> u64 {
    ((stride + steps) % 0x1_0000_0000_0000_0000) as u64
}

/// Computes the pass of `priority`.
pub fn stride_pass(priority: usize) -> (pass: u64)
    requires
        priority >= MIN_PRIORITY,
    ensures
        pass == pass_of(priority),
        0 < pass <= HALF_STRIDE,
{
    let p: u64 = priority as u64;
    let pass: u64 = BIG_STRIDE / p;
    assert(0 < pass <= HALF_STRIDE) by (nonlinear_arith)
        requires
            2 <= p <= 0xFFFF_FFFF_FFFF_FFFF,
            pass == 0xFFFF_FFFF_FFFF_FFFFu64 / p,
    ;
    pass
}

/// Moves `stride` forward by the pass of `priority`, wrapping around.
pub fn stride_advance(stride: u64, priority: usize) -> (next: u64)
    requires
        priority >= MIN_PRIORITY,
    ensures
        next == advanced(stride, pass_of(priority)),
        distance(stride, next) == pass_of(priority),
        stride_before(stride, next),
{
    let pass: u64 = stride_pass(priority);
    stride.wrapping_add(pass)
}

/// Tells whether `a` is strictly behind `b` on the ring.
pub fn stride_is_before(a: u64, b: u64) -> (r: bool)
    ensures
        r == stride_before(a, b),
{
    let d: u64 = b.wrapping_sub(a);
    d != 0 && d <= HALF_STRIDE
}

/// No counter is behind itself, and of two counters at most one is behind
/// the other.
pub proof fn lemma_before_asymmetric(a: u64, b: u64)
    ensures
        !stride_before(a, a),
        stride_before(a, b) ==> !stride_before(b, a),
{
}

/// Counters that all lie at most half the ring ahead of a common `base` are
/// ordered by how far ahead of it they are, whatever their raw values.
pub proof fn lemma_before_in_window(base: u64, a: u64, b: u64)
    requires
        distance(base, a) <= HALF_STRIDE,
        distance(base, b) <= HALF_STRIDE,
    ensures
        stride_before(a, b) <==> distance(base, a) < distance(base, b),
{
}

} // verus!
