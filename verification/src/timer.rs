//! Splitting an elapsed second count into clock fields for display.

use vstd::prelude::*;

verus! {

/// The hours, minutes and seconds of an elapsed second count. Minutes and
/// seconds are exact; the hour field wraps at 256 as the narrow return
/// type forces.
pub fn get_time_from_seconds(seconds: u64) -> (time: (u8, u8, u8))
    ensures
        time.0 == (seconds / 3600) as u8,
        time.1 == (seconds as int % 3600) / 60,
        time.2 == seconds as int % 60,
{
    let mut s = seconds;
    let h = s / 3600;
    s = s - h * 3600;
    let m = s / 60;
    s = s - m * 60;
    proof {
        assert(seconds as int % 3600 % 60 == seconds as int % 60) by (nonlinear_arith);
        assert(s < 60);
        assert(m < 60);
    }
    let time: (u8, u8, u8) = (#[verifier::truncate] (h as u8), m as u8, s as u8);
    time
}

} // verus!
