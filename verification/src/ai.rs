//! Deciding on a schedule.
pub mod svc;
pub mod svc_laws;

use crate::scheduler::{Schedule, ScheduleElement};
use vstd::prelude::*;

verus! {

/// What is known of a problem.
pub type Features = Vec<i64>;

/// Why no schedule was decided on.
#[derive(Debug, PartialEq, Eq)]
pub enum Error {
    Other(String),
}

/// Something that decides on a schedule.
pub trait Ai {
    /// A schedule for a problem with the given features on the given number of cores.
    fn schedule(&mut self, features: &Features, cores: usize) -> Schedule;
}

/// An AI that lets two solvers share the cores, whatever the problem.
#[derive(Debug)]
pub struct SimpleAi {}

impl Ai for SimpleAi {
    fn schedule(&mut self, features: &Features, cores: usize) -> (r: Schedule)
        ensures
            r@.len() == 2,
            r@[0].solver@ == "gecode"@ && r@[0].cores == cores / 2,
            r@[1].solver@ == "coinbc"@ && r@[1].cores == cores / 2,
            forall|i: int| 0 <= i < 2 ==> (#[trigger] r@[i]).id == 0,
            *final(self) == *old(self),
    {
        let mut schedule: Schedule = Vec::new();
        schedule.push(ScheduleElement::new(0, "gecode".to_owned(), cores / 2));
        schedule.push(ScheduleElement::new(0, "coinbc".to_owned(), cores / 2));
        schedule
    }
}

} // verus!
