//! What holds of the results of calls: of one call on every input, or of calls that follow one another.
//!
//! A call is spoken of by what it is given and what it gives back. For something that a call changes,
//! `old` is what it was before and `final` what it is after.
use crate::ai::svc::{entries, BagSvc, LoadError, SvcAi};
use crate::ai::svc_laws::{
    begins_well, law_foreign_files_are_refused, law_just_whole_models_load,
    law_model_says_what_the_bytes_say, spells, stands_at,
};
use crate::args::{
    law_config_reads_back, law_idle_lines_change_nothing, names_solver, pair_texts, unpack_ai, Ai,
    AiArgs, CommonArgs, StaticArgs, UnpackAiError, UnpackedAi, Verbosity,
};
use crate::backup_solvers;
use crate::command::ExitStatus;
use crate::insert_objective::json::{self, field_of, name_in, Json, Tree};
use crate::insert_objective::json_laws::{allows, law_bound_allows_nothing_worse};
use crate::io_error::IoError;
use crate::model_parser::{
    classify, law_words_decide_the_objective, ModelParseError, ObjectiveType, ObjectiveValue,
};
use crate::mzn_to_fzn;
use crate::mzn_to_fzn::compilation_core_manager;
use crate::mzn_to_fzn::compilation_manager::{
    self, after_waiting, law_started_can_be_waited_for, law_stop_spares_done, outcome_of,
    CompilationManager, Lookup, Outcome, Waited,
};
use crate::mzn_to_fzn::compilation_scheduler;
use crate::mzn_to_fzn::pool::{ids, CompilationWork, Cores, Work};
use crate::mzn_to_fzn::pool_laws::{
    has_place, law_end_takes_one_compilation_out, law_promote_keeps_places,
    law_release_keeps_places, one_place_each,
};
use crate::mzn_to_fzn::priority::{Priority, SolverId, SolverPriority};
use crate::mzn_to_fzn::work_laws::law_work_is_the_difference;
use crate::mzn_to_fzn::{conversion_result, CachedConverter, ConversionError, Wait};
use crate::orchestrator;
use crate::orchestrator::static_parallel_portfolio::{
    self, feature_timeout, get_compilation_priority, get_cores, schedule_source, FeatureOutcome,
    ScheduleSource,
};
use crate::scheduler::{
    memory_limit_bytes, numbered, sort_schedule, ApplyPlan, MemoryEnforcerState, MemoryUse,
    Schedule, ScheduleElement,
};
use crate::scheduler_laws::{
    distinct_processes, law_applied_schedule_runs, law_applying_suspends_the_others,
    law_apply_replaces_the_runs, law_no_running_solver_is_passed_over, numbered_below,
};
use crate::solver_output::{
    is_closed_by, law_just_terminators_end_the_search, Output, OutputKind,
};
use crate::sunny::static_schedule;
use crate::text::{decimal_text, joined, law_decimal_reads_back, parse_u64, trim};
use crate::vec_map::VecMap;
use std::collections::HashSet;
use std::sync::Arc;
use vstd::prelude::*;

verus! {

/// A number that is written and then read is the same number.
pub proof fn law_number_is_read_as_written(n: u64, text: String, s: &str, r: Option<u64>)
    requires
        call_ensures(decimal_text, (n,), text),
        s@ == text@,
        call_ensures(parse_u64, (s,), r),
    ensures
        r == Some(n),
{
    law_decimal_reads_back(n as nat);
}

/// A value that is put into a map is found under its key, and every other key has what it had.
pub proof fn law_value_is_found_under_its_key<V>(
    map: &mut VecMap<String, V>,
    k: String,
    v: V,
    after: &VecMap<String, V>,
    other: &String,
    found: Option<&V>,
)
    requires
        call_ensures(VecMap::<String, V>::insert, (map, k, v), ()),
        *after == *final(map),
        call_ensures(VecMap::<String, V>::get, (after, other), found),
    ensures
        other@ == k@ ==> (found matches Some(x) && *x == v),
        other@ != k@ ==> match found {
            Some(x) => old(map)@.contains_key(other@) && *x == old(map)@[other@],
            None => !old(map)@.contains_key(other@),
        },
{
}

/// Of the solvers that are queued, the first comes out first, under the highest priority.
pub proof fn law_first_solver_comes_out_first(
    solvers: Vec<String>,
    made: SolverPriority,
    queue: &mut SolverPriority,
    next: Option<(SolverId, Priority)>,
)
    requires
        call_ensures(SolverPriority::from_descending_priority, (solvers,), made),
        old(queue)@ == made@,
        solvers@.len() <= u64::MAX,
        call_ensures(SolverPriority::take_next, (queue,), next),
    ensures
        solvers@.len() == 0 ==> next is None,
        solvers@.len() > 0 ==> (next matches Some((id, p)) && id@ == solvers@[0]@ && p.0 == 0),
{
    if solvers@.len() > 0 {
        assert(made@.contains_key(0));
    } else {
        if let Some((_, p)) = next {
            assert(made@.contains_key(p.0));
        }
    }
}

/// The memory that may be used is the limit where there is one, else all that the machine has.
pub proof fn law_limit_counts_before_the_machine(
    state: &MemoryEnforcerState,
    system_total: u64,
    r: u64,
)
    requires
        call_ensures(MemoryEnforcerState::total_memory, (state, system_total), r),
    ensures
        state@.memory_limit != 0 ==> r == state@.memory_limit,
        state@.memory_limit == 0 ==> r == system_total,
{
}

/// A limit in MiB is 2^20 times as many bytes, and no limit is none.
pub proof fn law_limit_is_counted_in_bytes(mib: Option<u64>, r: u64)
    requires
        call_ensures(memory_limit_bytes, (mib,), r),
    ensures
        mib matches Some(n) ==> r == n * 0x10_0000,
        mib is None ==> r == 0,
{
}

/// While memory is short, suspended solvers are killed one after the other, in the order of the list;
/// one that is killed is suspended no longer, and every other run is as it was.
pub proof fn law_suspended_solvers_go_in_order(
    state: &mut MemoryEnforcerState,
    sorted: &mut Vec<MemoryUse>,
    over_threshold: bool,
    r: Option<MemoryUse>,
)
    requires
        call_ensures(
            MemoryEnforcerState::next_suspended_to_kill,
            (state, sorted, over_threshold),
            r,
        ),
    ensures
        r is Some <==> over_threshold && old(sorted)@.len() > 0,
        r matches Some(e) ==> old(sorted)@ == seq![e] + final(sorted)@
            && !final(state)@.runs.suspended.contains_key(e.1) && forall|id: usize| #[trigger]
            old(state)@.runs.suspended.contains_key(id) && id != e.1
                ==> final(state)@.runs.suspended.contains_key(id)
                && final(state)@.runs.suspended[id] == old(state)@.runs.suspended[id],
        r is None ==> final(sorted)@ == old(sorted)@ && final(state)@ == old(state)@,
        final(state)@.runs.running == old(state)@.runs.running,
        final(state)@.next_id == old(state)@.next_id,
        final(state)@.memory_limit == old(state)@.memory_limit,
{
    if over_threshold && old(sorted)@.len() > 0 {
        assert(old(sorted)@ =~= seq![old(sorted)@[0]] + final(sorted)@);
    }
}

/// While memory is short, running solvers are killed one after the other, in the order of the list; one
/// that is killed runs no longer, and every other run is as it was.
pub proof fn law_running_solvers_go_in_order(
    state: &mut MemoryEnforcerState,
    remaining: &mut Vec<MemoryUse>,
    over_threshold: bool,
    r: Option<MemoryUse>,
)
    requires
        call_ensures(
            MemoryEnforcerState::next_running_to_kill,
            (state, remaining, over_threshold),
            r,
        ),
    ensures
        r is Some <==> over_threshold && old(remaining)@.len() > 0,
        r matches Some(e) ==> old(remaining)@ == seq![e] + final(remaining)@
            && !final(state)@.runs.running.contains_key(e.1) && forall|id: usize| #[trigger]
            old(state)@.runs.running.contains_key(id) && id != e.1
                ==> final(state)@.runs.running.contains_key(id) && final(state)@.runs.running[id]
                == old(state)@.runs.running[id],
        r is None ==> final(remaining)@ == old(remaining)@ && final(state)@ == old(state)@,
        final(state)@.runs.suspended == old(state)@.runs.suspended,
        final(state)@.next_id == old(state)@.next_id,
        final(state)@.memory_limit == old(state)@.memory_limit,
{
    if over_threshold && old(remaining)@.len() > 0 {
        assert(old(remaining)@ =~= seq![old(remaining)@[0]] + final(remaining)@);
    }
}

/// Every running solver of the list that uses more than its share is killed and runs no longer, and
/// every other one is left among those that can be killed next.
pub proof fn law_every_solver_over_its_share_goes(
    state: &mut MemoryEnforcerState,
    sorted: &Vec<MemoryUse>,
    per_core: u64,
    r: (Vec<MemoryUse>, Vec<MemoryUse>),
    i: int,
)
    requires
        call_ensures(
            MemoryEnforcerState::take_over_fair_share,
            (state, sorted, per_core),
            r,
        ),
        distinct_processes(sorted@),
        0 <= i < sorted@.len(),
        old(state)@.runs.running.contains_key(sorted@[i].1),
    ensures
        ({
            let (memory, id) = sorted@[i];
            if memory as int / old(state)@.runs.running[id].cores as int > per_core {
                &&& r.0@.contains((memory, id)) && !r.1@.contains((memory, id))
                &&& !final(state)@.runs.running.contains_key(id)
            } else {
                &&& r.1@.contains((memory, id)) && !r.0@.contains((memory, id))
                &&& final(state)@.runs.running.contains_key(id)
            }
        }),
        final(state)@.runs.suspended == old(state)@.runs.suspended,
{
    law_no_running_solver_is_passed_over(old(state)@.runs.running, sorted@, per_core, i);
}

/// Whether an element of a schedule is put into effect: as the element with the number `next + i`, of
/// the solver and on the cores that the schedule gives.
pub open spec fn is_put_into_effect(
    made: Seq<ScheduleElement>,
    next: usize,
    schedule: Seq<ScheduleElement>,
) -> bool {
    &&& made.len() == schedule.len()
    &&& forall|i: int|
        0 <= i < schedule.len() ==> {
            &&& (#[trigger] made[i]).id == next + i
            &&& made[i].solver == schedule[i].solver
            &&& made[i].cores == schedule[i].cores
        }
}

/// A schedule is put into effect whole. Without an objective, each of its solvers is started, those that
/// run are suspended, and nothing is resumed; from then on just the solvers of the schedule run, each
/// under its number. With one, all the solvers of the schedule are restarted.
pub proof fn law_whole_schedule_is_put_into_effect(
    state: &mut MemoryEnforcerState,
    schedule: Schedule,
    has_best_objective: bool,
    active: &HashSet<usize>,
    plan: ApplyPlan,
)
    requires
        call_ensures(
            MemoryEnforcerState::plan_apply,
            (state, schedule, has_best_objective, active),
            plan,
        ),
        old(state)@.next_id + schedule@.len() <= usize::MAX,
        old(state)@.runs.apart(),
        numbered_below(old(state)@.runs, old(state)@.next_id),
    ensures
        has_best_objective ==> (plan matches ApplyPlan::Restart(s) && is_put_into_effect(
            s@,
            old(state)@.next_id,
            schedule@,
        )),
        !has_best_objective ==> (plan matches ApplyPlan::Change(changes) && {
            let next = old(state)@.next_id;
            let runs = old(state)@.runs;
            let after = final(state)@.runs;
            &&& is_put_into_effect(changes.to_start@, next, schedule@)
            &&& changes.to_resume@.len() == 0
            &&& forall|id: usize|
                changes.to_suspend@.contains(id) <==> #[trigger] runs.running.contains_key(id)
                    && active@.contains(id)
            &&& forall|id: usize| #[trigger]
                after.running.contains_key(id) <==> next <= id < next + schedule@.len()
            &&& forall|id: usize| #[trigger]
                after.running.contains_key(id) ==> after.running[id].name == schedule@[id
                    - next].solver && after.running[id].cores == schedule@[id - next].cores
            &&& forall|id: usize| #[trigger]
                after.suspended.contains_key(id) <==> active@.contains(id) && (
                runs.running.contains_key(id) || runs.suspended.contains_key(id))
        }),
        final(state)@.next_id == old(state)@.next_id + schedule@.len(),
        final(state)@.memory_limit == old(state)@.memory_limit,
{
    let next = old(state)@.next_id;
    if let ApplyPlan::Change(changes) = plan {
        let kept = old(state)@.runs.retain(active@);
        assert(kept.apart());
        assert(numbered_below(kept, next));
        law_apply_replaces_the_runs(kept, next, schedule@, changes.to_suspend@);
        law_applied_schedule_runs(kept, next, schedule@, changes.to_suspend@);
        let asked = numbered(next, schedule@);
        let sorted = sort_schedule(kept.running.dom(), kept.suspended.dom(), asked);
        let after = kept.apply(sorted.to_start, sorted.to_resume, changes.to_suspend@);
        assert(after == final(state)@.runs);
        assert forall|id: usize|
            changes.to_suspend@.contains(id) <==> #[trigger] old(state)@.runs.running.contains_key(
                id,
            ) && active@.contains(id) by {
            law_applying_suspends_the_others(kept, next, schedule@, changes.to_suspend@, id);
        }
    }
}

/// A solver whose compilation is registered as a main one and then broken off waits again under every
/// priority that it had, in particular that with which it ran as an extra.
pub proof fn law_stopped_main_waits_again(
    state: &mut compilation_scheduler::State,
    solver: SolverId,
    cores: Cores,
    later: &mut compilation_scheduler::State,
    id: &SolverId,
    p: u64,
)
    requires
        old(state)@.pool.wf(),
        call_ensures(
            compilation_scheduler::State::register_main_compilation,
            (state, solver, cores),
            (),
        ),
        old(later)@ == final(state)@,
        id@ == solver@,
        call_ensures(compilation_scheduler::State::compilation_stopped, (later, id), ()),
        has_place(old(state)@.pool, p, solver@),
    ensures
        final(later)@.pool.queue.contains_key(p),
        final(later)@.pool.queue[p] == solver@,
        !final(later)@.pool.running.contains_key(solver@),
{
    let pool = old(state)@.pool;
    pool.lemma_promote(solver@, cores, 1);
    law_promote_keeps_places(pool, solver@, cores, 1);
    law_release_keeps_places(pool.promote(solver@, cores, 1), solver@);
    law_end_takes_one_compilation_out(pool.promote(solver@, cores, 1), solver@);
    assert(has_place(pool.promote(solver@, cores, 1), p, solver@));
}

/// Where main compilations wait until work is taken, too, a compilation that runs, is registered as a main
/// one and then broken off has its solver wait again under every priority that it had.
pub proof fn law_stopped_deferred_main_waits_again(
    state: &mut compilation_core_manager::State,
    solver: SolverId,
    cores: Cores,
    later: &mut compilation_core_manager::State,
    id: &SolverId,
    p: u64,
)
    requires
        old(state)@.pool.wf(),
        old(state)@.pool.running.contains_key(solver@),
        call_ensures(
            compilation_core_manager::State::register_main_compilation,
            (state, solver, cores),
            (),
        ),
        old(later)@ == final(state)@,
        id@ == solver@,
        call_ensures(compilation_core_manager::State::compilation_stopped, (later, id), ()),
        has_place(old(state)@.pool, p, solver@),
    ensures
        final(later)@.pool.queue.contains_key(p),
        final(later)@.pool.queue[p] == solver@,
        !final(later)@.pool.running.contains_key(solver@),
{
    let pool = old(state)@.pool;
    pool.lemma_promote(solver@, cores, 0);
    law_promote_keeps_places(pool, solver@, cores, 0);
    law_release_keeps_places(pool.promote(solver@, cores, 0), solver@);
    law_end_takes_one_compilation_out(pool.promote(solver@, cores, 0), solver@);
    assert(has_place(pool.promote(solver@, cores, 0), p, solver@));
}

/// A main compilation that is done already is not started again, and asking for it changes nothing; any
/// other is started.
pub proof fn law_done_compilations_are_left_alone(
    state: &mut compilation_scheduler::State,
    solver: &SolverId,
    cores: Cores,
    done: bool,
    r: bool,
)
    requires
        call_ensures(
            compilation_scheduler::State::request_main_compilation,
            (state, solver, cores, done),
            r,
        ),
    ensures
        r == !done,
        done ==> final(state)@ == old(state)@,
        !done ==> final(state)@.pool.running.contains_key(solver@)
            && final(state)@.pool.running[solver@] is Main,
{
}

/// However a compilation ended, it runs no longer; after one that was broken off there is nothing to look
/// for, and after any other there is.
pub proof fn law_ended_compilation_runs_no_longer(
    state: &mut compilation_scheduler::State,
    solver: &SolverId,
    cancelled: bool,
    r: bool,
)
    requires
        call_ensures(
            compilation_scheduler::State::compilation_ended,
            (state, solver, cancelled),
            r,
        ),
        old(state)@.pool.wf(),
    ensures
        r == !cancelled,
        !final(state)@.pool.running.contains_key(solver@),
        !cancelled ==> final(state)@.pool.queue == old(state)@.pool.queue,
        cancelled ==> forall|p: u64| #[trigger]
            has_place(old(state)@.pool, p, solver@) ==> final(state)@.pool.queue.contains_key(p)
                && final(state)@.pool.queue[p] == solver@,
        final(state)@.enabled == old(state)@.enabled,
{
    law_end_takes_one_compilation_out(old(state)@.pool, solver@);
    law_release_keeps_places(old(state)@.pool, solver@);
}

/// The work that is handed out starts just the compilations that run after and not before, and stops
/// just those that run before and not after.
pub proof fn law_work_handed_out_is_the_difference(
    state: &mut compilation_scheduler::State,
    work: Vec<CompilationWork>,
    i: int,
)
    requires
        call_ensures(compilation_scheduler::State::take_compilation_work, (state,), work),
        old(state)@.pool.wf(),
        one_place_each(old(state)@.pool),
        0 <= i < work@.len(),
    ensures
        match work@[i] {
            CompilationWork::Start(id) => !old(state)@.pool.running.contains_key(id@)
                && final(state)@.pool.running.contains_key(id@) && old(state)@.enabled,
            CompilationWork::Stop(id) => old(state)@.pool.running.contains_key(id@)
                && !final(state)@.pool.running.contains_key(id@)
                && old(state)@.pool.running[id@] is Extra,
        },
{
    let seen = compilation_scheduler::works(work@);
    assert(seen[i] == work@[i]@);
    match work@[i] {
        CompilationWork::Start(id) => {
            assert(seen.contains(Work::Start(id@)));
            law_work_is_the_difference(old(state)@, id@);
        },
        CompilationWork::Stop(id) => {
            assert(seen.contains(Work::Stop(id@)));
            law_work_is_the_difference(old(state)@, id@);
        },
    }
}

/// Where main compilations wait until work is taken, just a main compilation may be waited for, and one
/// that was asked for may.
pub proof fn law_registered_main_may_be_waited_for<E>(
    state: &mut compilation_core_manager::State,
    solver: SolverId,
    cores: Cores,
    later: &compilation_core_manager::State,
    name: &str,
    r: Result<(), compilation_manager::Error<E>>,
)
    requires
        call_ensures(
            compilation_core_manager::State::register_main_compilation,
            (state, solver, cores),
            (),
        ),
        later@ == final(state)@,
        call_ensures(compilation_core_manager::State::check_wait::<E>, (later, name), r),
    ensures
        r is Ok <==> name@ == solver@ || old(state)@.is_main(name@),
        r matches Err(e) ==> (e matches compilation_manager::Error::NotStarted(n) && n@ == name@),
{
    crate::mzn_to_fzn::work_laws::law_mains_are_asked_for_and_not_ended(
        old(state)@,
        solver@,
        cores,
        name@,
    );
}

/// A compilation that came to something is found as what it came to, and other solvers have what they
/// had; one that was called off is not taken in.
pub proof fn law_outcome_is_found<C, E, S>(
    manager: &mut CompilationManager<C, E, S>,
    solver: String,
    outcome: Arc<Outcome<C, E>>,
    later: &CompilationManager<C, E, S>,
    name: &str,
    found: Lookup<'_, C, E, S>,
)
    requires
        call_ensures(CompilationManager::<C, E, S>::compiled, (manager, solver, outcome), ()),
        later@ == final(manager)@,
        call_ensures(CompilationManager::<C, E, S>::lookup, (later, name, false), found),
    ensures
        *outcome matches Err(compilation_manager::Error::Cancelled) ==> final(manager)@
            == old(manager)@,
        !(*outcome matches Err(compilation_manager::Error::Cancelled)) && name@ == solver@ ==> (
        found matches Lookup::Ready(o) && *o == outcome),
        name@ != solver@ ==> final(manager)@.contains_key(name@) == old(manager)@.contains_key(
            name@,
        ),
        !final(manager)@.contains_key(name@) ==> (found matches Lookup::Refused(
            compilation_manager::Error::NotStarted(n),
        ) && n@ == name@),
{
}

/// A compilation that was started has to be waited for with the handle that it was started with; the wait
/// for it that was called off is refused whatever there is.
pub proof fn law_started_is_pending<C, E, S>(
    manager: &mut CompilationManager<C, E, S>,
    started: Vec<(String, Arc<S>)>,
    i: int,
    later: &CompilationManager<C, E, S>,
    name: &str,
    cancelled: bool,
    found: Lookup<'_, C, E, S>,
)
    requires
        call_ensures(CompilationManager::<C, E, S>::register_started, (manager, started), ()),
        later@ == final(manager)@,
        0 <= i < started@.len(),
        name@ == started@[i].0@,
        forall|j: int| i < j < started@.len() ==> (#[trigger] started@[j]).0@ != started@[i].0@,
        call_ensures(CompilationManager::<C, E, S>::lookup, (later, name, cancelled), found),
    ensures
        !cancelled ==> (found matches Lookup::Pending(h) && *h == started@[i].1),
        cancelled ==> (found matches Lookup::Refused(compilation_manager::Error::Cancelled)),
{
    law_started_can_be_waited_for(old(manager)@, started@, i);
}

/// Compilations have to be started just for solvers that have none, and for all of these.
pub proof fn law_just_new_solvers_are_started<C, E, S>(
    manager: &CompilationManager<C, E, S>,
    names: Vec<String>,
    new: Vec<String>,
    id: Seq<char>,
)
    requires
        call_ensures(CompilationManager::<C, E, S>::new_solvers, (manager, names), new),
    ensures
        ids(new@).contains(id) <==> ids(names@).contains(id) && !manager@.contains_key(id),
{
    let keep = |x: Seq<char>| !manager@.contains_key(x);
    let all = ids(names@);
    if all.contains(id) && keep(id) {
        let i = choose|i: int| 0 <= i < all.len() && all[i] == id;
        all.lemma_filter_contains(keep, i);
    }
    if all.filter(keep).contains(id) {
        all.lemma_filter_contains_rev(keep, id);
        let j = choose|j: int| 0 <= j < all.filter(keep).len() && all.filter(keep)[j] == id;
        all.lemma_filter_pred(keep, j);
    }
}

/// Once compilations are stopped, none of them can be waited for, and those that are done are still to be
/// had.
pub proof fn law_stopped_is_not_started<C, E, S>(
    manager: &mut CompilationManager<C, E, S>,
    names: Vec<String>,
    stopped: Vec<Arc<S>>,
    later: &CompilationManager<C, E, S>,
    name: &str,
    found: Lookup<'_, C, E, S>,
)
    requires
        call_ensures(CompilationManager::<C, E, S>::stop_all, (manager, names), stopped),
        later@ == final(manager)@,
        ids(names@).contains(name@),
        call_ensures(CompilationManager::<C, E, S>::lookup, (later, name, false), found),
    ensures
        !(found is Pending),
        old(manager)@.contains_key(name@) && old(manager)@[name@] is Done ==> (
        found matches Lookup::Ready(o) && *o == old(manager)@[name@]->Done_0),
        old(manager)@.contains_key(name@) && old(manager)@[name@] is Started
            ==> found is Refused,
{
    law_stop_spares_done(old(manager)@, ids(names@), name@);
}

/// What a compilation came to is handed on as it is when the wait for it ends; a wait that ends otherwise
/// has no result.
pub proof fn law_wait_hands_on_the_outcome<C, E>(
    name: &str,
    waited: Waited<C, E>,
    r: Result<Arc<Outcome<C, E>>, compilation_manager::Error<E>>,
)
    requires
        call_ensures(after_waiting::<C, E>, (name, waited), r),
    ensures
        r is Ok <==> waited is Value && waited->Value_0 is Some,
        r matches Ok(outcome) ==> waited == Waited::<C, E>::Value(Some(outcome)),
        waited is Cancelled <==> r matches Err(compilation_manager::Error::Cancelled),
{
}

/// What the compiler gave back is kept; that it failed, however, is told as a failure of the compilation.
pub proof fn law_compiler_result_is_kept<C, E>(result: Result<C, E>, r: Outcome<C, E>)
    requires
        call_ensures(outcome_of::<C, E>, (result,), r),
    ensures
        r is Ok <==> result is Ok,
        result matches Ok(c) ==> r == Ok::<C, compilation_manager::Error<E>>(c),
        result matches Err(e) ==> (r matches Err(compilation_manager::Error::Compilation(f)) && f
            == e),
{
}

/// A conversion that succeeded is found from then on; one that failed is made again.
pub proof fn law_conversion_is_found<C>(
    converter: &mut CachedConverter<C>,
    solver: &str,
    result: Result<Arc<C>, mzn_to_fzn::Error>,
    r: Result<(), mzn_to_fzn::Error>,
    later: &CachedConverter<C>,
    found: Option<&Arc<C>>,
)
    requires
        call_ensures(CachedConverter::<C>::converted, (converter, solver, result), r),
        later@ == final(converter)@,
        call_ensures(CachedConverter::<C>::cached, (later, solver), found),
    ensures
        r is Ok <==> result is Ok,
        result matches Ok(c) ==> (found matches Some(f) && *f == c),
        result is Err ==> final(converter)@ == old(converter)@,
{
}

/// A conversion succeeds just if MiniZinc exits with 0, and is called off just if the wait for it was.
pub proof fn law_conversion_succeeds_with_code_zero(
    wait: Wait,
    r: Result<(), mzn_to_fzn::Error>,
)
    requires
        call_ensures(conversion_result, (wait,), r),
    ensures
        r is Ok <==> wait == Wait::Exited(ExitStatus::Code(0)),
        r matches Err(mzn_to_fzn::Error::Cancelled) <==> wait is Cancelled,
        wait matches Wait::Failed(e) ==> r == Err::<(), mzn_to_fzn::Error>(
            mzn_to_fzn::Error::Conversion(ConversionError::Io(e)),
        ),
{
}

/// The backup solver succeeds just if it exits with 0.
pub proof fn law_backup_solver_succeeds_with_code_zero(
    ended: Result<ExitStatus, IoError>,
    r: Result<(), backup_solvers::Error>,
)
    requires
        call_ensures(backup_solvers::backup_result, (ended,), r),
    ensures
        r is Ok <==> ended == Ok::<ExitStatus, IoError>(ExitStatus::Code(0)),
        ended matches Err(e) ==> r == Err::<(), backup_solvers::Error>(
            backup_solvers::Error::Io(e),
        ),
{
}

/// The backup solver is run just where the portfolio failed, not where it succeeded nor where the user
/// called the search off; and the program fails just where the backup solver does.
pub proof fn law_backup_solver_is_the_last_resort(
    result: &Result<(), orchestrator::Error>,
    needed: bool,
    backup: &Option<Result<(), backup_solvers::Error>>,
    code: i32,
)
    requires
        call_ensures(orchestrator::needs_backup_solver, (result,), needed),
        call_ensures(orchestrator::exit_code, (backup,), code),
    ensures
        *result is Ok ==> !needed,
        *result matches Err(e) ==> needed == !(e is Cancelled),
        code != 0 <==> *backup is Some && backup->Some_0 is Err,
        code == 0 || code == 1,
{
}

/// Warnings of MiniZinc are passed on from the level of warnings on.
pub proof fn law_warnings_are_passed_on(verbosity: Verbosity, r: bool)
    requires
        call_ensures(mzn_to_fzn::forwards_warnings, (verbosity,), r),
    ensures
        r <==> !(verbosity is Quiet) && !(verbosity is Error),
{
}

/// With an AI, one of at least two cores is kept back to extract features on; without one, all cores run
/// solvers.
pub proof fn law_one_core_extracts_features(args: &CommonArgs, has_ai: bool, r: (usize, usize))
    requires
        call_ensures(get_cores, (args, has_ai), r),
    ensures
        has_ai ==> r.0 == r.1 + 1 && r.1 >= 1,
        has_ai && args.cores >= 2 ==> r.0 == args.cores,
        has_ai && args.cores < 2 ==> r.0 == 2,
        !has_ai ==> r.0 == args.cores && r.1 == args.cores,
{
}

/// Feature extraction is not given up before the initial schedule has had its time, nor before its own.
pub proof fn law_features_have_the_longer_time(args: &StaticArgs, r: u64)
    requires
        call_ensures(feature_timeout, (args,), r),
    ensures
        args.feature_timeout >= args.static_runtime ==> r == args.feature_timeout,
        args.feature_timeout <= args.static_runtime ==> r == args.static_runtime,
{
}

/// The AI decides on all cores just where there are features; where extracting them took too long, the
/// schedule for that case runs on all cores; else there is none, and the cause is told.
pub proof fn law_features_are_given_to_the_ai<F>(
    outcome: FeatureOutcome<F>,
    cores: usize,
    r: Result<ScheduleSource<F>, static_parallel_portfolio::Error>,
)
    requires
        call_ensures(schedule_source::<F>, (outcome, cores), r),
    ensures
        outcome matches FeatureOutcome::Extracted(f) ==> (r matches Ok(ScheduleSource::Ai(g, n)) && g
            == f && n == cores),
        outcome is TimedOut ==> (r matches Ok(ScheduleSource::Timeout(n)) && n == cores),
        outcome matches FeatureOutcome::Failed(e) ==> (r matches Err(f) && f == e),
        outcome is Cancelled ==> (r matches Err(static_parallel_portfolio::Error::Cancelled)),
{
}

/// What a solver printed is told by the terminator at its end, whatever white space surrounds it.
pub proof fn law_output_is_told_by_its_end(output: &str, r: Output)
    requires
        call_ensures(Output::parse, (output,), r),
    ensures
        r.original_output@ == trim(output@),
        r.kind == OutputKind::Optimal <==> is_closed_by(trim(output@), "=========="@),
        r.kind == OutputKind::Unsatisfiable <==> is_closed_by(
            trim(output@),
            "=====UNSATISFIABLE====="@,
        ),
        r.kind == OutputKind::Unbounded <==> is_closed_by(trim(output@), "=====UNBOUNDED====="@),
        r.kind == OutputKind::Unknown <==> is_closed_by(trim(output@), "=====UNKNOWN====="@),
{
    law_just_terminators_end_the_search(trim(output@));
}

/// A statement in which the word `minimize` stands asks for the least, whatever else stands in it.
pub proof fn law_minimize_makes_it_a_minimization(
    statement: &str,
    a: Seq<char>,
    b: Seq<char>,
    r: Result<ObjectiveType, ModelParseError>,
)
    requires
        statement@ == a + seq!['m', 'i', 'n', 'i', 'm', 'i', 'z', 'e'] + b,
        call_ensures(classify, (Some(statement),), r),
    ensures
        r == Ok::<ObjectiveType, ModelParseError>(ObjectiveType::Minimize),
{
    let at = a.len() as int;
    law_words_decide_the_objective(statement@);
    assert(statement@.subrange(at, at + 8) =~= seq!['m', 'i', 'n', 'i', 'm', 'i', 'z', 'e']);
}

/// The constraint that bounds an objective allows just the values that are no worse than the bound.
pub proof fn law_constraint_bounds_the_objective<E>(
    objective_type: &ObjectiveType,
    name: &str,
    bound: ObjectiveValue,
    r: Result<Json, json::Error<E>>,
    v: int,
)
    requires
        call_ensures(
            json::get_objective_constraint_json_value::<E>,
            (objective_type, name, bound),
            r,
        ),
    ensures
        r is Err <==> *objective_type == ObjectiveType::Satisfy,
        *objective_type == ObjectiveType::Minimize ==> (r matches Ok(c) && (allows(c@, name@, v)
            <==> v <= bound)),
        *objective_type == ObjectiveType::Maximize ==> (r matches Ok(c) && (allows(c@, name@, v)
            <==> v >= bound)),
{
    if *objective_type != ObjectiveType::Satisfy {
        law_bound_allows_nothing_worse(*objective_type, name@, bound, v);
    }
}

/// The text of a model is written as it was read, and just where a bound can be put in; a blank text, one
/// that is no JSON and a problem without an objective are refused for that.
pub proof fn law_text_is_written_as_read<E>(
    content: String,
    parsed: Result<Json, E>,
    objective_type: &ObjectiveType,
    bound: ObjectiveValue,
    r: Result<String, json::Error<E>>,
)
    requires
        call_ensures(
            json::insert_objective_parsed::<E>,
            (content, parsed, objective_type, bound),
            r,
        ),
    ensures
        r matches Ok(text) ==> text@ == content@ && trim(content@).len() > 0 && parsed is Ok
            && *objective_type != ObjectiveType::Satisfy,
        trim(content@).len() > 0 && *objective_type != ObjectiveType::Satisfy && (
        parsed matches Ok(model) && name_in(model@) is Ok && (field_of(
            model@,
            "constraints"@,
        ) matches Some(Tree::Array(_)))) ==> r is Ok,
        trim(content@).len() == 0 ==> (r matches Err(json::Error::NoStatements(text)) && text@
            == content@),
        trim(content@).len() > 0 && parsed is Err ==> (r matches Err(json::Error::JsonParse(e)) && e
            == parsed->Err_0),
        trim(content@).len() > 0 && parsed is Ok && *objective_type == ObjectiveType::Satisfy ==> (
        r matches Err(json::Error::GetObjectiveOnSatisfyType)),
{
    let view = json::parsed_view(parsed);
    let blank = json::Error::<E>::NoStatements(content);
    let broken = json::Error::<E>::JsonParse(view->Err_0);
    let aimless = json::Error::<E>::GetObjectiveOnSatisfyType;
    assert(trim(content@).len() == 0 ==> json::refuses(content@, view, *objective_type, blank));
    assert(trim(content@).len() > 0 && view is Err ==> json::refuses(
        content@,
        view,
        *objective_type,
        broken,
    ));
    assert(trim(content@).len() > 0 && view is Ok && *objective_type == ObjectiveType::Satisfy
        ==> json::refuses(content@, view, *objective_type, aimless));
}

/// A model that loads says what its bytes say, number by number.
pub proof fn law_loaded_model_spells_its_bytes(
    bytes: &[u8],
    r: Result<BagSvc, LoadError>,
)
    requires
        call_ensures(BagSvc::from_bytes, (bytes,), r),
        crate::ai::svc::is_consistent(bytes@),
        bytes@.len() <= usize::MAX,
    ensures
        r matches Ok(bag) ==> {
            let f = bag.n_features as int;
            let s = bag.n_svcs as int;
            let v = bag.dual_coef@.len() as int;
            &&& begins_well(bytes@)
            &&& spells(bytes@, 8, 4, f) && spells(bytes@, 12, 4, s) && spells(bytes@, 16, 8, v)
            &&& stands_at(bytes@, 24, bag.scaler_mean@)
            &&& stands_at(bytes@, 24 + 8 * f, bag.scaler_scale@)
            &&& stands_at(bytes@, 24 + 16 * f, bag.gamma@)
            &&& stands_at(bytes@, 24 + 16 * f + 8 * s, bag.intercept@)
            &&& stands_at(bytes@, 24 + 16 * f + 16 * s, bag.prob_a@)
            &&& stands_at(bytes@, 24 + 16 * f + 24 * s, bag.prob_b@)
            &&& stands_at(bytes@, 24 + 16 * f + 36 * s, bag.support_vectors@)
            &&& stands_at(bytes@, 24 + 16 * f + 36 * s + 8 * (v * f), bag.dual_coef@)
        },
        r matches Err(LoadError::BadMagic(_)) ==> !begins_well(bytes@),
        r matches Err(LoadError::BadVersion(_)) ==> !begins_well(bytes@),
{
    law_just_whole_models_load(bytes@);
    law_foreign_files_are_refused(bytes@);
    if let Ok(bag) = r {
        law_model_says_what_the_bytes_say(bag, bytes@);
    }
}

/// A problem is refused just if it has not as many features as the model wants; a problem of the class 0
/// gets one solver on eight cores, any other the portfolio of the model.
pub proof fn law_portfolio_follows_the_class(
    ai: &SvcAi,
    got: usize,
    checked: Result<(), crate::ai::Error>,
    predicted: usize,
    portfolio: crate::scheduler::Portfolio,
)
    requires
        call_ensures(SvcAi::check_feature_count, (ai, got), checked),
        call_ensures(SvcAi::portfolio_for, (ai, predicted), portfolio),
    ensures
        checked is Ok <==> got == ai.bag.n_features,
        predicted == 0 ==> portfolio@.len() == 1 && portfolio@[0].name@ == "cp-sat"@
            && portfolio@[0].cores == 8,
        predicted != 0 ==> portfolio@.len() == ai.portfolio@.len() && forall|i: int|
            0 <= i < portfolio@.len() ==> (#[trigger] portfolio@[i]).name@ == ai.portfolio@[i].name@
                && portfolio@[i].cores == ai.portfolio@[i].cores,
{
    let seen = entries(portfolio@);
    if predicted == 0 {
        assert(seen.len() == 1 && seen[0] == ("cp-sat"@, 8usize));
        assert(seen[0].0 == portfolio@[0].name@ && seen[0].1 == portfolio@[0].cores);
    } else {
        let own = entries(ai.portfolio@);
        assert(seen.len() == own.len());
        assert forall|i: int| 0 <= i < portfolio@.len() implies (#[trigger] portfolio@[i]).name@
            == ai.portfolio@[i].name@ && portfolio@[i].cores == ai.portfolio@[i].cores by {
            assert(seen[i] == own[i]);
        }
    }
}

/// An AI that is a program is the program that the configuration names, by the last pair that does.
pub proof fn law_program_is_named_in_the_configuration(
    ai: &AiArgs,
    pairs: Seq<(Seq<char>, Seq<char>)>,
    i: int,
    r: Result<Option<UnpackedAi>, UnpackAiError>,
)
    requires
        ai.kind == Ai::CommandLine,
        ai.config matches Some(text) && text@ == joined(pair_texts(pairs), seq![',']),
        0 <= i < pairs.len(),
        forall|j: int|
            0 <= j < pairs.len() ==> !(#[trigger] pairs[j]).0.contains('=')
                && !pairs[j].0.contains(',') && !pairs[j].1.contains(','),
        pairs[i].0 == "command"@,
        forall|j: int| i < j < pairs.len() ==> (#[trigger] pairs[j]).0 != pairs[i].0,
        call_ensures(unpack_ai, (ai,), r),
    ensures
        r matches Ok(Some(UnpackedAi::CommandLine(command))) && command@ == pairs[i].1,
{
    law_config_reads_back(pairs, i);
}

/// An AI that is off is none, and the simple one is the simple one, whatever the configuration.
pub proof fn law_other_ais_need_no_configuration(
    ai: &AiArgs,
    r: Result<Option<UnpackedAi>, UnpackAiError>,
)
    requires
        call_ensures(unpack_ai, (ai,), r),
    ensures
        ai.kind == Ai::Off <==> r matches Ok(None),
        ai.kind == Ai::Simple <==> r matches Ok(Some(UnpackedAi::Simple(_))),
{
}

/// The solvers to compile for ahead of need are those that the text lists, the first with the highest
/// priority; without a text there are none.
pub proof fn law_listed_solvers_are_compiled_for(
    content: Option<&str>,
    lines: Seq<Seq<char>>,
    r: SolverPriority,
    p: u64,
)
    requires
        content matches Some(text) ==> text@ == joined(lines, seq!['\n']),
        forall|i: int| 0 <= i < lines.len() ==> !(#[trigger] lines[i]).contains('\n'),
        call_ensures(get_compilation_priority, (content,), r),
    ensures
        content is None ==> !r@.contains_key(p),
        content is Some ==> {
            let named = lines.map_values(|line: Seq<char>| trim(line)).filter(
                |line: Seq<char>| line.len() > 0 && line[0] != '#',
            );
            &&& r@.contains_key(p) <==> p < named.len()
            &&& r@.contains_key(p) ==> r@[p] == named[p as int]
        },
{
    law_idle_lines_change_nothing(lines);
    let cut = lines.map_values(|line: Seq<char>| trim(line));
    lemma_same_filter(
        cut,
        |line: Seq<char>| names_solver(line),
        |line: Seq<char>| line.len() > 0 && line[0] != '#',
    );
}

/// Lists are filtered alike by what says the same of every text.
proof fn lemma_same_filter(
    s: Seq<Seq<char>>,
    f: spec_fn(Seq<char>) -> bool,
    g: spec_fn(Seq<char>) -> bool,
)
    requires
        forall|x: Seq<char>| #[trigger] f(x) == g(x),
    ensures
        s.filter(f) == s.filter(g),
    decreases s.len(),
{
    reveal(Seq::filter);
    if s.len() > 0 {
        lemma_same_filter(s.drop_last(), f, g);
        assert(f(s.last()) == g(s.last()));
    }
}

/// The two solvers of the initial schedule share the cores: each gets as many as the other, and no core
/// is given twice nor more than one left over.
pub proof fn law_initial_schedule_shares_the_cores(cores: usize, r: Schedule)
    requires
        call_ensures(static_schedule, (cores,), r),
    ensures
        r@.len() == 2,
        r@[0].cores == r@[1].cores,
        cores - 1 <= r@[0].cores + r@[1].cores <= cores,
{
}

} // verus!
