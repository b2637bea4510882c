//! A portfolio that is picked anew from time to time.
use crate::scheduler::{Schedule, ScheduleElement};
use vstd::prelude::*;

verus! {

/// The cores to use: two if the user names no number.
pub fn cores_or_default(cores: Option<usize>) -> (r: usize)
    ensures
        r == match cores {
            Some(n) => n,
            None => 2,
        },
{
    match cores {
        Some(n) => n,
        None => 2,
    }
}

/// The schedule that runs before anything is known of the problem: two solvers share the cores.
pub fn static_schedule(cores: usize) -> (r: Schedule)
    ensures
        r@.len() == 2,
        r@[0].solver@ == "gecode"@ && r@[0].cores == cores / 2,
        r@[1].solver@ == "coinbc"@ && r@[1].cores == cores / 2,
        forall|i: int| 0 <= i < 2 ==> (#[trigger] r@[i]).id == 0,
{
    let mut schedule: Schedule = Vec::new();
    schedule.push(ScheduleElement::new(0, "gecode".to_owned(), cores / 2));
    schedule.push(ScheduleElement::new(0, "coinbc".to_owned(), cores / 2));
    schedule
}

} // verus!
