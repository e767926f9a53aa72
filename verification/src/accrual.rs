//! The accrual rate rule evaluated by the desktop handlers: one minute of
//! sick time per thirty minutes worked, whatever the employer size.

use vstd::prelude::*;

verus! {

/// One minute accrued per this many minutes worked.
pub const ACCRUAL_RATE: u64 = 30;

/// Accrued sick time for minutes worked: one minute per thirty, rounded down.
/// The employer size may bound caps elsewhere; the rate is the same for all.
pub fn calculate_accrual(minutes_worked: u64, employer_size: &str) -> (r: u64)
    ensures
        r == minutes_worked / 30,
{
    let _ = employer_size;
    minutes_worked / ACCRUAL_RATE
}

} // verus!
