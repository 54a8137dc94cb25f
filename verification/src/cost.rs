//! Link costs and pacing delays.
//!
//! A link's routing cost is the reciprocal of its bandwidth — time per
//! bit — held as a fixed-point integer: `COST_SCALE / bandwidth` cost
//! units.  Path costs add with saturation at the counter width.  The
//! pacing delay of a frame over a link is `((length + 2) * 8) /
//! bandwidth` milliseconds, with bandwidth in bits per millisecond.

use vstd::prelude::*;

use crate::MESSAGE_LENGTH;

verus! {

/// Cost units per one unit of time-per-bit: the cost of a link of
/// bandwidth `bw` is `COST_SCALE / bw` units.
pub const COST_SCALE: u64 = 1_000_000_000;

/// The routing cost of a link of bandwidth `bw` bits per millisecond.
pub open spec fn spec_link_cost(bw: usize) -> u64
    recommends
        bw > 0,
{
    (COST_SCALE as int / bw as int) as u64
}

/// The routing cost of a link of bandwidth `bw` bits per millisecond.
pub fn link_cost(bw: usize) -> (r: u64)
    requires
        bw > 0,
    ensures
        r == spec_link_cost(bw),
{
    COST_SCALE / (bw as u64)
}

/// The pacing delay, in milliseconds, of a frame of `len` bytes over a
/// link of bandwidth `bw` bits per millisecond.
pub open spec fn spec_delay_ms(len: usize, bw: usize) -> u64
    recommends
        bw > 0,
        len <= MESSAGE_LENGTH,
{
    (((len + 2) * 8) as int / bw as int) as u64
}

/// The pacing delay, in milliseconds, of a frame of `len` bytes over a
/// link of bandwidth `bw` bits per millisecond.
pub fn delay_ms(len: usize, bw: usize) -> (r: u64)
    requires
        bw > 0,
        len <= MESSAGE_LENGTH,
    ensures
        r == spec_delay_ms(len, bw),
{
    ((len as u64 + 2) * 8) / (bw as u64)
}

} // verus!
