//! The machine timer of each hart.
use vstd::prelude::*;

verus! {

use crate::kernel::config::{CPU_NUMBER, MTIMECMP_ADDR, TIME_PERIOD};

/// The timer setup of hart `hartid` at time `now`: the address of its
/// compare register, the first deadline, and the scratch words the timer
/// trap reads (that address and the period).
pub fn timer_setup(hartid: usize, now: usize) -> (r: (usize, usize, [usize; 2]))
    requires
        hartid < CPU_NUMBER,
        now + TIME_PERIOD <= usize::MAX,
    ensures
        r.0 == MTIMECMP_ADDR + hartid * 8,
        r.1 == now + TIME_PERIOD,
        r.2@ == seq![r.0, TIME_PERIOD],
{
    let addr = MTIMECMP_ADDR + hartid * 8;
    let scratch = [addr, TIME_PERIOD];
    proof {
        assert(scratch@ =~= seq![addr, TIME_PERIOD]);
    }
    (addr, now + TIME_PERIOD, scratch)
}

} // verus!
