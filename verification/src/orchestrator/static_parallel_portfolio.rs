//! A portfolio that is picked once and restarted from time to time to share bounds.
use crate::ai;
use crate::args::{parse_compilation_priority, solver_lines, CommonArgs, StaticArgs, UnpackAiError};
use crate::io_error::IoError;
use crate::mzn_to_fzn;
use crate::mzn_to_fzn::priority::SolverPriority;
use vstd::prelude::*;

verus! {

/// Why the portfolio failed. A cause that is only told is given in words.
#[derive(Debug)]
pub enum Error {
    Cancelled,
    FznToFeatures(String),
    MznToFzn(mzn_to_fzn::Error),
    WaitForMznToFzn(String),
    Schedule(String),
    Ai(ai::Error),
    JoinError(String),
    SolverManager(String),
    /// No solver is left that has not failed.
    SolverFailure,
    TokioIo(IoError),
    UnpackAi(UnpackAiError),
}

impl Error {
    /// The error in words, as a mathematical value.
    pub open spec fn words(self) -> Seq<char> {
        match self {
            Error::Cancelled => "conversion was cancelled"@,
            Error::FznToFeatures(_) => "failed converting flatzinc to features"@,
            Error::MznToFzn(_) => "failed converting minizinc to flatzinc"@,
            Error::WaitForMznToFzn(_) => "failed to wait for the compilation"@,
            Error::Schedule(_) => "Schedule error"@,
            Error::Ai(_) => "Ai error"@,
            Error::JoinError(_) => "Task join error"@,
            Error::SolverManager(_) => "Solver manager error"@,
            Error::SolverFailure => "All solvers failed, could not continue"@,
            Error::TokioIo(_) => "an IO error occurred"@,
            Error::UnpackAi(_) => "failed to unpack the AI"@,
        }
    }

    /// The error in words.
    pub fn message(&self) -> (r: &'static str)
        ensures
            r@ == self.words(),
    {
        match self {
            Error::Cancelled => "conversion was cancelled",
            Error::FznToFeatures(_) => "failed converting flatzinc to features",
            Error::MznToFzn(_) => "failed converting minizinc to flatzinc",
            Error::WaitForMznToFzn(_) => "failed to wait for the compilation",
            Error::Schedule(_) => "Schedule error",
            Error::Ai(_) => "Ai error",
            Error::JoinError(_) => "Task join error",
            Error::SolverManager(_) => "Solver manager error",
            Error::SolverFailure => "All solvers failed, could not continue",
            Error::TokioIo(_) => "an IO error occurred",
            Error::UnpackAi(_) => "failed to unpack the AI",
        }
    }
}

/// The cores to use, and how many of them the initial schedule gets. With an AI there are at least
/// two, and one is kept back to extract features on.
pub fn get_cores(args: &CommonArgs, has_ai: bool) -> (r: (usize, usize))
    ensures
        has_ai ==> r.0 == if args.cores <= 1 {
            2
        } else {
            args.cores
        },
        has_ai ==> r.1 == r.0 - 1,
        !has_ai ==> r == (args.cores, args.cores),
{
    let mut cores = args.cores;
    let initial_solver_cores = if has_ai {
        if cores <= 1 {
            cores = 2;
        }
        cores - 1
    } else {
        cores
    };
    (cores, initial_solver_cores)
}

/// The solvers to compile for ahead of need, from the file that lists them if there is one.
pub fn get_compilation_priority(content: Option<&str>) -> (r: SolverPriority)
    ensures
        r@ == match content {
            Some(text) => Map::new(
                |p: u64| p < solver_lines(text@).len(),
                |p: u64| solver_lines(text@)[p as int],
            ),
            None => Map::empty(),
        },
{
    match content {
        Some(text) => parse_compilation_priority(text),
        None => SolverPriority::empty(),
    }
}

/// The seconds after which feature extraction is given up. Since the initial schedule runs for its
/// whole time in any case, there is no point in giving up before.
pub fn feature_timeout(args: &StaticArgs) -> (r: u64)
    ensures
        r >= args.feature_timeout && r >= args.static_runtime,
        r == args.feature_timeout || r == args.static_runtime,
{
    if args.feature_timeout >= args.static_runtime {
        args.feature_timeout
    } else {
        args.static_runtime
    }
}

/// What became of feature extraction.
#[derive(Debug)]
pub enum FeatureOutcome<F> {
    Extracted(F),
    Failed(Error),
    /// It took too long.
    TimedOut,
    /// The search was called off.
    Cancelled,
}

/// Where the schedule comes from.
#[derive(Debug)]
pub enum ScheduleSource<F> {
    /// The AI decides from the features, for the given number of cores.
    Ai(F, usize),
    /// The schedule for when features take too long, for the given number of cores.
    Timeout(usize),
}

/// Decides where the schedule comes from, once the initial one has had its time.
pub fn schedule_source<F>(outcome: FeatureOutcome<F>, cores: usize) -> (r: Result<
    ScheduleSource<F>,
    Error,
>)
    ensures
        r == match outcome {
            FeatureOutcome::Extracted(features) => Ok::<ScheduleSource<F>, Error>(
                ScheduleSource::Ai(features, cores),
            ),
            FeatureOutcome::Failed(e) => Err::<ScheduleSource<F>, Error>(e),
            FeatureOutcome::TimedOut => Ok::<ScheduleSource<F>, Error>(
                ScheduleSource::Timeout(cores),
            ),
            FeatureOutcome::Cancelled => Err::<ScheduleSource<F>, Error>(Error::Cancelled),
        },
{
    match outcome {
        FeatureOutcome::Extracted(features) => Ok(ScheduleSource::Ai(features, cores)),
        FeatureOutcome::Failed(e) => Err(e),
        FeatureOutcome::TimedOut => Ok(ScheduleSource::Timeout(cores)),
        FeatureOutcome::Cancelled => Err(Error::Cancelled),
    }
}

/// What the restart loop waits for.
#[derive(Debug, Clone, Copy, PartialEq, Eq, Structural)]
pub enum RestartEvent {
    /// The time is up, and whether all the solvers of the schedule have failed.
    TimeUp { all_solvers_failed: bool },
    /// The search was called off.
    Cancelled,
}

/// What the restart loop does next.
#[derive(Debug)]
pub enum RestartStep {
    /// It ends.
    End(Error),
    /// Extra compilations are switched off if need be, the schedule is started afresh, and the
    /// time until the next event begins.
    Restart { disable_extra_compilations: bool, seconds: u64 },
}

/// The restart loop between two events.
#[derive(Debug, Clone, Copy)]
pub struct RestartLoop {
    /// Whether extra compilations are on.
    pub extra_compilations_are_enabled: bool,
    pub restart_interval: u64,
}

impl RestartLoop {
    /// The loop at its start. Without an AI there is nothing to compile ahead for, and extra
    /// compilations are off.
    pub fn new(has_ai: bool, restart_interval: u64) -> (r: Self)
        ensures
            r == (RestartLoop { extra_compilations_are_enabled: has_ai, restart_interval }),
    {
        RestartLoop { extra_compilations_are_enabled: has_ai, restart_interval }
    }

    /// What the loop does on an event.
    pub open spec fn reaction(self, event: RestartEvent) -> RestartStep {
        match event {
            RestartEvent::Cancelled => RestartStep::End(Error::Cancelled),
            RestartEvent::TimeUp { all_solvers_failed } => if all_solvers_failed {
                RestartStep::End(Error::SolverFailure)
            } else {
                RestartStep::Restart {
                    disable_extra_compilations: self.extra_compilations_are_enabled,
                    seconds: self.restart_interval,
                }
            },
        }
    }

    /// The loop after an event.
    pub open spec fn after(self, event: RestartEvent) -> RestartLoop {
        RestartLoop {
            extra_compilations_are_enabled: self.extra_compilations_are_enabled
                && self.reaction(event) is End,
            ..self
        }
    }

    /// Reacts to an event.
    pub fn step(&mut self, event: RestartEvent) -> (r: RestartStep)
        ensures
            r == old(self).reaction(event),
            *final(self) == old(self).after(event),
    {
        match event {
            RestartEvent::Cancelled => RestartStep::End(Error::Cancelled),
            RestartEvent::TimeUp { all_solvers_failed } => {
                if all_solvers_failed {
                    return RestartStep::End(Error::SolverFailure);
                }
                let disable_extra_compilations = self.extra_compilations_are_enabled;
                self.extra_compilations_are_enabled = false;
                RestartStep::Restart { disable_extra_compilations, seconds: self.restart_interval }
            },
        }
    }
}

/// The loop after the given events.
pub open spec fn after_all(state: RestartLoop, events: Seq<RestartEvent>) -> RestartLoop
    decreases events.len(),
{
    if events.len() == 0 {
        state
    } else {
        after_all(state, events.drop_last()).after(events.last())
    }
}

/// The loop ends when the search is called off or all solvers have failed, and for no other cause; else
/// it starts the schedule afresh and waits as long as it always does.
pub proof fn law_loop_ends_for_a_cause(state: RestartLoop, events: Seq<RestartEvent>, next: RestartEvent)
    ensures
        ({
            let now = after_all(state, events);
            &&& now.restart_interval == state.restart_interval
            &&& next == RestartEvent::Cancelled ==> now.reaction(next) == RestartStep::End(
                Error::Cancelled,
            )
            &&& next == (RestartEvent::TimeUp { all_solvers_failed: true }) ==> now.reaction(next)
                == RestartStep::End(Error::SolverFailure)
            &&& next == (RestartEvent::TimeUp { all_solvers_failed: false }) ==> (now.reaction(
                next,
            ) is Restart && now.reaction(next)->seconds == state.restart_interval)
        }),
    decreases events.len(),
{
    if events.len() > 0 {
        law_loop_ends_for_a_cause(state, events.drop_last(), next);
    }
}

/// Extra compilations that are on are switched off at the first restart: until then, every event leaves
/// them on, and those that are off are never switched off.
pub proof fn law_first_restart_disables_extras(
    state: RestartLoop,
    events: Seq<RestartEvent>,
    next: RestartEvent,
)
    requires
        forall|i: int|
            0 <= i < events.len() ==> #[trigger] events[i] != (RestartEvent::TimeUp {
                all_solvers_failed: false,
            }),
        next == (RestartEvent::TimeUp { all_solvers_failed: false }),
    ensures
        after_all(state, events) == state,
        state.reaction(next) is Restart,
        state.reaction(next)->disable_extra_compilations == state.extra_compilations_are_enabled,
        !state.after(next).extra_compilations_are_enabled,
    decreases events.len(),
{
    if events.len() > 0 {
        let rest = events.drop_last();
        assert forall|i: int| 0 <= i < rest.len() implies #[trigger] rest[i] != (
        RestartEvent::TimeUp { all_solvers_failed: false }) by {
            assert(events[i] != (RestartEvent::TimeUp { all_solvers_failed: false }));
        }
        law_first_restart_disables_extras(state, rest, next);
        assert(events[events.len() - 1] == events.last());
        match events.last() {
            RestartEvent::Cancelled => {},
            RestartEvent::TimeUp { all_solvers_failed } => {
                assert(all_solvers_failed);
            },
        }
    }
}

/// Extra compilations are switched off at the first restart and never again: once the loop has
/// restarted the schedule, no later event switches them off.
pub proof fn law_extras_are_disabled_once(
    state: RestartLoop,
    events: Seq<RestartEvent>,
    next: RestartEvent,
)
    requires
        exists|i: int| 0 <= i < events.len() && state.reaction(#[trigger] events[i]) is Restart,
    ensures
        after_all(state, events).reaction(next) matches RestartStep::Restart {
            disable_extra_compilations,
            ..
        } ==> !disable_extra_compilations,
    decreases events.len(),
{
    let i = choose|i: int|
        0 <= i < events.len() && state.reaction(#[trigger] events[i]) is Restart;
    let rest = events.drop_last();
    if i < rest.len() {
        assert(state.reaction(rest[i]) is Restart);
        law_extras_are_disabled_once(state, rest, events.last());
        law_extras_are_disabled_once(state, rest, next);
    }
}

} // verus!
