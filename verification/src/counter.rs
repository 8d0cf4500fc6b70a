//! Values derived from a counter signal: the computed fields a counter
//! consumer shows beside the count itself.

use vstd::prelude::*;

verus! {

/// The derived values a counter consumer displays.
pub struct CounterStats {
    pub is_even: bool,
    pub doubled: i64,
}

/// Computes the derived values for a counter reading: whether it is even,
/// and its double.
pub fn counter_stats(value: i64) -> (s: CounterStats)
    requires
        -0x4000_0000_0000_0000 <= value < 0x4000_0000_0000_0000,
    ensures
        s.is_even <==> value % 2 == 0,
        s.doubled == 2 * value,
{
    CounterStats { is_even: value % 2 == 0, doubled: 2 * value }
}

} // verus!
