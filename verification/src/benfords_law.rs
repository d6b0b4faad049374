//! Simulates [benford's law][https://en.wikipedia.org/wiki/Benford%27s_law]
//!
//! The random numbers and the statistics printed from them are floating
//! point work left to the caller; the library keeps the counts of leading
//! digits.
use vstd::prelude::*;

verus! {

/// Counts one more number whose leading digit is `leading_digit`:
/// `stats[d - 1]` holds how many numbers led with digit `d`.
pub fn record_leading_digit(stats: &mut Vec<u32>, leading_digit: usize)
    requires
        1 <= leading_digit <= old(stats)@.len(),
        old(stats)@[leading_digit - 1] < u32::MAX,
    ensures
        final(stats)@ == old(stats)@.update(
            leading_digit - 1,
            (old(stats)@[leading_digit - 1] + 1) as u32,
        ),
{
    let count = stats[leading_digit - 1];
    stats.set(leading_digit - 1, count + 1);
}

} // verus!
