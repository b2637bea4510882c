//! What holds of the runs of solvers whatever schedules are applied.
use crate::scheduler::{
    fair_share, info_of, numbered, sort_schedule, start_all, total_cores, MemoryUse, Runs,
    ScheduleElement, SolverInfo,
};
use crate::vec_map::lemma_sum_insert;
use vstd::prelude::*;

verus! {

/// Whether an element of `schedule` has the number `id`.
pub open spec fn asks_for(schedule: Seq<ScheduleElement>, id: usize) -> bool {
    exists|i: int| 0 <= i < schedule.len() && #[trigger] schedule[i].id == id
}

/// Whether no two elements of `schedule` have one number.
pub open spec fn distinct_ids(schedule: Seq<ScheduleElement>) -> bool {
    forall|i: int, j: int|
        0 <= i < j < schedule.len() ==> #[trigger] schedule[i].id != #[trigger] schedule[j].id
}

proof fn lemma_asks_for_last(schedule: Seq<ScheduleElement>, id: usize)
    requires
        schedule.len() > 0,
    ensures
        asks_for(schedule, id) <==> asks_for(schedule.drop_last(), id) || schedule.last().id == id,
{
    let head = schedule.drop_last();
    if asks_for(head, id) {
        let i = choose|i: int| 0 <= i < head.len() && #[trigger] head[i].id == id;
        assert(schedule[i].id == id);
    }
    if schedule.last().id == id {
        assert(schedule[schedule.len() - 1].id == id);
    }
    if asks_for(schedule, id) {
        let i = choose|i: int| 0 <= i < schedule.len() && #[trigger] schedule[i].id == id;
        if i < head.len() {
            assert(head[i].id == id);
        }
    }
}

proof fn lemma_asks_for_push(schedule: Seq<ScheduleElement>, element: ScheduleElement, id: usize)
    ensures
        asks_for(schedule.push(element), id) <==> asks_for(schedule, id) || element.id == id,
{
    lemma_asks_for_last(schedule.push(element), id);
    assert(schedule.push(element).drop_last() =~= schedule);
}

proof fn lemma_contains_push(ids: Seq<usize>, id: usize, x: usize)
    ensures
        ids.push(id).contains(x) <==> ids.contains(x) || x == id,
{
    if ids.contains(x) {
        let i = choose|i: int| 0 <= i < ids.len() && ids[i] == x;
        assert(ids.push(id)[i] == x);
    }
    if x == id {
        assert(ids.push(id)[ids.len() as int] == x);
    }
}

/// What becomes of the number `id` when a schedule is parted.
proof fn lemma_sort(
    running: Set<usize>,
    suspended: Set<usize>,
    schedule: Seq<ScheduleElement>,
    id: usize,
)
    requires
        running.disjoint(suspended),
    ensures
        ({
            let s = sort_schedule(running, suspended, schedule);
            &&& s.running.contains(id) <==> running.contains(id) && !asks_for(schedule, id)
            &&& s.suspended.contains(id) <==> suspended.contains(id) && !asks_for(schedule, id)
            &&& s.to_resume.contains(id) <==> suspended.contains(id) && asks_for(schedule, id)
            &&& asks_for(s.to_start, id) ==> asks_for(schedule, id)
            &&& !running.contains(id) && !suspended.contains(id) && asks_for(schedule, id)
                ==> asks_for(s.to_start, id)
            &&& distinct_ids(schedule) && (running.contains(id) || suspended.contains(id))
                ==> !asks_for(s.to_start, id)
        }),
    decreases schedule.len(),
{
    if schedule.len() > 0 {
        let head = schedule.drop_last();
        let element = schedule.last();
        let s = sort_schedule(running, suspended, head);
        lemma_sort(running, suspended, head, id);
        lemma_sort(running, suspended, head, element.id);
        lemma_asks_for_last(schedule, id);
        lemma_asks_for_push(s.to_start, element, id);
        lemma_contains_push(s.to_resume, element.id, id);
        if distinct_ids(schedule) {
            assert forall|i: int, j: int| 0 <= i < j < head.len() implies #[trigger] head[i].id
                != #[trigger] head[j].id by {
                assert(schedule[i].id != schedule[j].id);
            }
            assert(!asks_for(head, element.id)) by {
                if asks_for(head, element.id) {
                    let i = choose|i: int|
                        0 <= i < head.len() && #[trigger] head[i].id == element.id;
                    assert(schedule[i].id != schedule[schedule.len() - 1].id);
                }
            }
        }
    }
}

/// What becomes of the number `id` when a schedule is started.
proof fn lemma_start_all(
    running: Map<usize, SolverInfo>,
    schedule: Seq<ScheduleElement>,
    id: usize,
)
    ensures
        start_all(running, schedule).contains_key(id) <==> running.contains_key(id) || asks_for(
            schedule,
            id,
        ),
        !asks_for(schedule, id) && running.contains_key(id) ==> start_all(running, schedule)[id]
            == running[id],
    decreases schedule.len(),
{
    if schedule.len() > 0 {
        lemma_asks_for_last(schedule, id);
        lemma_start_all(running, schedule.drop_last(), id);
    }
}

/// An element of a schedule without double numbers runs as it says.
proof fn lemma_started(
    running: Map<usize, SolverInfo>,
    schedule: Seq<ScheduleElement>,
    i: int,
)
    requires
        0 <= i < schedule.len(),
        distinct_ids(schedule),
    ensures
        start_all(running, schedule).contains_key(schedule[i].id),
        start_all(running, schedule)[schedule[i].id] == info_of(schedule[i]),
    decreases schedule.len(),
{
    let head = schedule.drop_last();
    if i < head.len() {
        assert forall|j: int, k: int| 0 <= j < k < head.len() implies #[trigger] head[j].id
            != #[trigger] head[k].id by {
            assert(schedule[j].id != schedule[k].id);
        }
        lemma_started(running, head, i);
        assert(schedule[i].id != schedule[schedule.len() - 1].id);
    }
}

/// An element that neither runs nor is suspended, in a schedule without double numbers, is started as
/// it says.
proof fn lemma_new_element_starts(
    map: Map<usize, SolverInfo>,
    running: Set<usize>,
    suspended: Set<usize>,
    schedule: Seq<ScheduleElement>,
    i: int,
)
    requires
        running.disjoint(suspended),
        distinct_ids(schedule),
        0 <= i < schedule.len(),
        !running.contains(schedule[i].id),
        !suspended.contains(schedule[i].id),
    ensures
        start_all(map, sort_schedule(running, suspended, schedule).to_start)[schedule[i].id]
            == info_of(schedule[i]),
    decreases schedule.len(),
{
    let head = schedule.drop_last();
    let element = schedule.last();
    let before = sort_schedule(running, suspended, head).to_start;
    assert(before.push(element).drop_last() =~= before);
    lemma_sort(running, suspended, head, element.id);
    if i < head.len() {
        assert forall|j: int, k: int| 0 <= j < k < head.len() implies #[trigger] head[j].id
            != #[trigger] head[k].id by {
            assert(schedule[j].id != schedule[k].id);
        }
        lemma_new_element_starts(map, running, suspended, head, i);
        assert(schedule[i].id != schedule[schedule.len() - 1].id);
    }
}

proof fn lemma_contains_last(ids: Seq<usize>, id: usize)
    requires
        ids.len() > 0,
    ensures
        ids.contains(id) <==> ids.drop_last().contains(id) || ids.last() == id,
{
    lemma_contains_push(ids.drop_last(), ids.last(), id);
    assert(ids.drop_last().push(ids.last()) =~= ids);
}

/// What becomes of the number `id` when runs are resumed.
proof fn lemma_resume_all(runs: Runs, to_resume: Seq<usize>, id: usize)
    ensures
        ({
            let after = runs.resume_all(to_resume);
            let resumed = to_resume.contains(id) && runs.suspended.contains_key(id);
            &&& after.running.contains_key(id) <==> runs.running.contains_key(id) || resumed
            &&& after.suspended.contains_key(id) <==> runs.suspended.contains_key(id) && !resumed
            &&& resumed ==> after.running[id] == runs.suspended[id]
            &&& !resumed && runs.running.contains_key(id) ==> after.running[id] == runs.running[id]
            &&& after.suspended.contains_key(id) ==> after.suspended[id] == runs.suspended[id]
        }),
    decreases to_resume.len(),
{
    if to_resume.len() > 0 {
        lemma_contains_last(to_resume, id);
        lemma_resume_all(runs, to_resume.drop_last(), id);
    }
}

/// What becomes of the number `id` when runs are suspended.
proof fn lemma_suspend_all(runs: Runs, to_suspend: Seq<usize>, id: usize)
    ensures
        ({
            let after = runs.suspend_all(to_suspend);
            let suspended = to_suspend.contains(id) && runs.running.contains_key(id);
            &&& after.suspended.contains_key(id) <==> runs.suspended.contains_key(id) || suspended
            &&& after.running.contains_key(id) <==> runs.running.contains_key(id) && !suspended
            &&& suspended ==> after.suspended[id] == runs.running[id]
            &&& !suspended && runs.suspended.contains_key(id) ==> after.suspended[id]
                == runs.suspended[id]
            &&& after.running.contains_key(id) ==> after.running[id] == runs.running[id]
        }),
    decreases to_suspend.len(),
{
    if to_suspend.len() > 0 {
        lemma_contains_last(to_suspend, id);
        lemma_suspend_all(runs, to_suspend.drop_last(), id);
    }
}

/// Once a schedule is applied, the solvers that it asks for run and no others do; every other
/// solver that ran or was suspended is suspended. A solver that goes on or is resumed keeps its
/// cores, one that is started gets what the schedule says, and one that is suspended loses nothing;
/// what goes on or is started does so provided that the schedule's numbers differ.
pub proof fn law_exactly_the_schedule_runs(
    runs: Runs,
    schedule: Seq<ScheduleElement>,
    to_suspend: Seq<usize>,
)
    requires
        runs.apart(),
        to_suspend.to_set() == sort_schedule(
            runs.running.dom(),
            runs.suspended.dom(),
            schedule,
        ).running,
    ensures
        ({
            let sorted = sort_schedule(runs.running.dom(), runs.suspended.dom(), schedule);
            let after = runs.apply(sorted.to_start, sorted.to_resume, to_suspend);
            &&& forall|id: usize| #[trigger]
                after.running.contains_key(id) <==> asks_for(schedule, id)
            &&& forall|id: usize| #[trigger]
                after.suspended.contains_key(id) <==> (runs.running.contains_key(id)
                    || runs.suspended.contains_key(id)) && !asks_for(schedule, id)
            &&& after.apart()
            &&& forall|id: usize| #[trigger]
                after.suspended.contains_key(id) ==> after.suspended[id]
                    == if runs.running.contains_key(id) {
                    runs.running[id]
                } else {
                    runs.suspended[id]
                }
            &&& forall|id: usize| #[trigger]
                after.running.contains_key(id) && runs.suspended.contains_key(id)
                    ==> after.running[id] == runs.suspended[id]
            &&& distinct_ids(schedule) ==> forall|id: usize| #[trigger]
                after.running.contains_key(id) && runs.running.contains_key(id)
                    ==> after.running[id] == runs.running[id]
            &&& distinct_ids(schedule) ==> forall|i: int|
                0 <= i < schedule.len() && !runs.running.contains_key(
                    (#[trigger] schedule[i]).id,
                ) && !runs.suspended.contains_key(schedule[i].id)
                    ==> after.running[schedule[i].id] == (SolverInfo {
                    name: schedule[i].solver,
                    cores: schedule[i].cores,
                })
        }),
{
    let sorted = sort_schedule(runs.running.dom(), runs.suspended.dom(), schedule);
    let started = Runs { running: start_all(runs.running, sorted.to_start), ..runs };
    let resumed = started.resume_all(sorted.to_resume);
    let after = resumed.suspend_all(to_suspend);
    assert forall|id: usize|
        {
            &&& (#[trigger] after.running.contains_key(id) <==> asks_for(schedule, id))
            &&& (after.suspended.contains_key(id) <==> (runs.running.contains_key(id)
                || runs.suspended.contains_key(id)) && !asks_for(schedule, id))
            &&& (after.suspended.contains_key(id) ==> after.suspended[id]
                == if runs.running.contains_key(id) {
                runs.running[id]
            } else {
                runs.suspended[id]
            })
            &&& (after.running.contains_key(id) && runs.suspended.contains_key(id)
                ==> after.running[id] == runs.suspended[id])
            &&& (distinct_ids(schedule) && after.running.contains_key(id)
                && runs.running.contains_key(id) ==> after.running[id] == runs.running[id])
        } by {
        lemma_sort(runs.running.dom(), runs.suspended.dom(), schedule, id);
        lemma_start_all(runs.running, sorted.to_start, id);
        lemma_resume_all(started, sorted.to_resume, id);
        lemma_suspend_all(resumed, to_suspend, id);
        assert(to_suspend.contains(id) <==> to_suspend.to_set().contains(id));
        assert(!(runs.running.dom().contains(id) && runs.suspended.dom().contains(id)));
    }
    assert forall|id: usize| #[trigger]
        after.suspended.contains_key(id) <==> (runs.running.contains_key(id)
            || runs.suspended.contains_key(id)) && !asks_for(schedule, id) by {
        assert(after.running.contains_key(id) <==> asks_for(schedule, id));
    }
    assert forall|id: usize| #[trigger] after.suspended.contains_key(id) implies after.suspended[id]
        == if runs.running.contains_key(id) {
        runs.running[id]
    } else {
        runs.suspended[id]
    } by {
        assert(after.running.contains_key(id) <==> asks_for(schedule, id));
    }
    if distinct_ids(schedule) {
        assert forall|i: int|
            0 <= i < schedule.len() && !runs.running.contains_key((#[trigger] schedule[i]).id)
                && !runs.suspended.contains_key(
                schedule[i].id,
            ) implies after.running[schedule[i].id] == info_of(schedule[i]) by {
            let id = schedule[i].id;
            lemma_new_element_starts(
                runs.running,
                runs.running.dom(),
                runs.suspended.dom(),
                schedule,
                i,
            );
            lemma_sort(runs.running.dom(), runs.suspended.dom(), schedule, id);
            lemma_start_all(runs.running, sorted.to_start, id);
            lemma_resume_all(started, sorted.to_resume, id);
            lemma_suspend_all(resumed, to_suspend, id);
            assert(to_suspend.contains(id) <==> to_suspend.to_set().contains(id));
        }
    }
    assert(after.running.dom().disjoint(after.suspended.dom())) by {
        assert forall|id: usize| after.running.dom().contains(id) implies !after.suspended.dom().contains(
            id,
        ) by {
            assert(after.running.contains_key(id));
            assert(after.suspended.contains_key(id) <==> (runs.running.contains_key(id)
                || runs.suspended.contains_key(id)) && !asks_for(schedule, id));
        }
    }
}

/// A schedule whose numbers are all new is started whole: nothing goes on, nothing is resumed, and
/// everything that ran is suspended.
pub proof fn law_new_numbers_start_afresh(
    running: Set<usize>,
    suspended: Set<usize>,
    schedule: Seq<ScheduleElement>,
)
    requires
        forall|i: int|
            0 <= i < schedule.len() ==> !running.contains(#[trigger] schedule[i].id)
                && !suspended.contains(schedule[i].id),
    ensures
        sort_schedule(running, suspended, schedule).to_start == schedule,
        sort_schedule(running, suspended, schedule).to_resume == Seq::<usize>::empty(),
        sort_schedule(running, suspended, schedule).running == running,
    decreases schedule.len(),
{
    if schedule.len() > 0 {
        let head = schedule.drop_last();
        assert forall|i: int| 0 <= i < head.len() implies !running.contains(#[trigger] head[i].id)
            && !suspended.contains(head[i].id) by {
            assert(head[i] == schedule[i]);
        }
        law_new_numbers_start_afresh(running, suspended, head);
        lemma_sort_shrinks(running, suspended, head);
        assert(!suspended.contains(schedule[schedule.len() - 1].id));
        assert(head.push(schedule.last()) =~= schedule);
    } else {
        assert(schedule =~= Seq::empty());
    }
}

proof fn lemma_sort_shrinks(
    running: Set<usize>,
    suspended: Set<usize>,
    schedule: Seq<ScheduleElement>,
)
    ensures
        sort_schedule(running, suspended, schedule).suspended.subset_of(suspended),
    decreases schedule.len(),
{
    if schedule.len() > 0 {
        lemma_sort_shrinks(running, suspended, schedule.drop_last());
    }
}

/// After a restart just the solvers of the schedule run, each as the schedule says, provided that
/// their numbers differ.
pub proof fn law_restart_runs_the_schedule(schedule: Seq<ScheduleElement>)
    requires
        distinct_ids(schedule),
    ensures
        forall|id: usize| #[trigger]
            start_all(Map::empty(), schedule).contains_key(id) <==> asks_for(schedule, id),
        forall|i: int|
            0 <= i < schedule.len() ==> start_all(Map::empty(), schedule)[(
            #[trigger] schedule[i]).id] == (SolverInfo {
                name: schedule[i].solver,
                cores: schedule[i].cores,
            }),
{
    assert forall|id: usize| #[trigger]
        start_all(Map::empty(), schedule).contains_key(id) <==> asks_for(schedule, id) by {
        lemma_start_all(Map::empty(), schedule, id);
    }
    assert forall|i: int| 0 <= i < schedule.len() implies start_all(Map::empty(), schedule)[(
    #[trigger] schedule[i]).id] == info_of(schedule[i]) by {
        lemma_started(Map::empty(), schedule, i);
    }
}

/// A solver is killed for its own memory only if it uses more than its share, and one that is left
/// to run does not.
pub proof fn law_only_excess_is_killed(
    running: Map<usize, SolverInfo>,
    sorted: Seq<MemoryUse>,
    per_core: u64,
)
    ensures
        ({
            let share = fair_share(running, sorted, per_core);
            &&& forall|id: usize| #[trigger]
                share.running.contains_key(id) ==> running.contains_key(id) && share.running[id]
                    == running[id]
            &&& forall|i: int|
                0 <= i < share.to_kill.len() ==> {
                    let (memory, id) = #[trigger] share.to_kill[i];
                    &&& running.contains_key(id)
                    &&& memory as int / running[id].cores as int > per_core
                    &&& !share.running.contains_key(id)
                }
            &&& forall|i: int|
                0 <= i < share.remaining.len() ==> {
                    let (memory, id) = #[trigger] share.remaining[i];
                    &&& running.contains_key(id)
                    &&& memory as int / running[id].cores as int <= per_core
                }
        }),
    decreases sorted.len(),
{
    if sorted.len() > 0 {
        law_only_excess_is_killed(running, sorted.drop_last(), per_core);
        let before = fair_share(running, sorted.drop_last(), per_core);
        let share = fair_share(running, sorted, per_core);
        let (memory, id) = sorted.last();
        if before.running.contains_key(id) {
            assert(running.contains_key(id) && running[id] == before.running[id]);
        }
        assert forall|i: int| 0 <= i < share.to_kill.len() implies ({
            let (memory, id) = #[trigger] share.to_kill[i];
            &&& running.contains_key(id)
            &&& memory as int / running[id].cores as int > per_core
            &&& !share.running.contains_key(id)
        }) by {
            if i < before.to_kill.len() {
                assert(share.to_kill[i] == before.to_kill[i]);
            }
        }
        assert forall|i: int| 0 <= i < share.remaining.len() implies ({
            let (memory, id) = #[trigger] share.remaining[i];
            &&& running.contains_key(id)
            &&& memory as int / running[id].cores as int <= per_core
        }) by {
            if i < before.remaining.len() {
                assert(share.remaining[i] == before.remaining[i]);
            }
        }
    }
}

/// Whether every solver that runs or is suspended has a number below `next`.
pub open spec fn numbered_below(runs: Runs, next: usize) -> bool {
    &&& forall|id: usize| #[trigger] runs.running.contains_key(id) ==> id < next
    &&& forall|id: usize| #[trigger] runs.suspended.contains_key(id) ==> id < next
}

/// Where all numbers in use are below the next one, applying a schedule starts all its solvers,
/// suspends all that ran, and keeps the numbers in use below the next one.
pub proof fn law_apply_replaces_the_runs(
    runs: Runs,
    next: usize,
    schedule: Seq<ScheduleElement>,
    to_suspend: Seq<usize>,
)
    requires
        runs.apart(),
        numbered_below(runs, next),
        next + schedule.len() <= usize::MAX,
        to_suspend.to_set() == sort_schedule(
            runs.running.dom(),
            runs.suspended.dom(),
            numbered(next, schedule),
        ).running,
    ensures
        ({
            let asked = numbered(next, schedule);
            let sorted = sort_schedule(runs.running.dom(), runs.suspended.dom(), asked);
            let after = runs.apply(sorted.to_start, sorted.to_resume, to_suspend);
            &&& distinct_ids(asked)
            &&& sorted.to_start == asked
            &&& sorted.to_resume == Seq::<usize>::empty()
            &&& sorted.running == runs.running.dom()
            &&& forall|id: usize| #[trigger]
                after.running.contains_key(id) <==> asks_for(asked, id)
            &&& forall|id: usize| #[trigger]
                after.suspended.contains_key(id) <==> runs.running.contains_key(id)
                    || runs.suspended.contains_key(id)
            &&& after.apart()
            &&& numbered_below(after, (next + schedule.len()) as usize)
        }),
{
    let asked = numbered(next, schedule);
    let sorted = sort_schedule(runs.running.dom(), runs.suspended.dom(), asked);
    let after = runs.apply(sorted.to_start, sorted.to_resume, to_suspend);
    assert forall|i: int| 0 <= i < asked.len() implies !runs.running.dom().contains(
        #[trigger] asked[i].id,
    ) && !runs.suspended.dom().contains(asked[i].id) by {
        if runs.running.contains_key(asked[i].id) || runs.suspended.contains_key(asked[i].id) {
            assert(asked[i].id == next + i);
        }
    }
    law_new_numbers_start_afresh(runs.running.dom(), runs.suspended.dom(), asked);
    law_exactly_the_schedule_runs(runs, asked, to_suspend);
    assert forall|id: usize| asks_for(asked, id) implies next <= id < next + schedule.len() by {
        let i = choose|i: int| 0 <= i < asked.len() && #[trigger] asked[i].id == id;
        assert(asked[i].id == next + i);
    }
    assert forall|id: usize| #[trigger] after.suspended.contains_key(id) <==> runs.running.contains_key(
        id,
    ) || runs.suspended.contains_key(id) by {
        if runs.running.contains_key(id) || runs.suspended.contains_key(id) {
            assert(!asks_for(asked, id));
        }
    }
}

/// Forgetting solvers that have exited, killing one, and restarting keep runs and suspended solvers
/// apart and their numbers below the next one.
pub proof fn law_runs_stay_in_order(
    runs: Runs,
    next: usize,
    active: Set<usize>,
    id: usize,
    schedule: Seq<ScheduleElement>,
)
    requires
        runs.apart(),
        numbered_below(runs, next),
        next + schedule.len() <= usize::MAX,
    ensures
        runs.retain(active).apart() && numbered_below(runs.retain(active), next),
        ({
            let killed = Runs { suspended: runs.suspended.remove(id), ..runs };
            killed.apart() && numbered_below(killed, next)
        }),
        ({
            let killed = Runs { running: runs.running.remove(id), ..runs };
            killed.apart() && numbered_below(killed, next)
        }),
        ({
            let restarted = Runs {
                running: start_all(Map::empty(), numbered(next, schedule)),
                suspended: Map::empty(),
            };
            restarted.apart() && numbered_below(restarted, (next + schedule.len()) as usize)
        }),
{
    let asked = numbered(next, schedule);
    law_restart_runs_the_schedule(asked);
    assert forall|x: usize| #[trigger] start_all(Map::empty(), asked).contains_key(x) implies x
        < next + schedule.len() by {
        let i = choose|i: int| 0 <= i < asked.len() && #[trigger] asked[i].id == x;
        assert(asked[i].id == next + i);
    }
}

/// Numbering a schedule changes nothing but the numbers, which are `first` and those after it, in
/// order: every element keeps its solver and its cores.
pub proof fn law_numbering_changes_numbers_only(
    first: usize,
    schedule: Seq<ScheduleElement>,
    i: int,
)
    requires
        first + schedule.len() <= usize::MAX,
        0 <= i < schedule.len(),
    ensures
        numbered(first, schedule).len() == schedule.len(),
        numbered(first, schedule)[i].id == first + i,
        numbered(first, schedule)[i].solver == schedule[i].solver,
        numbered(first, schedule)[i].cores == schedule[i].cores,
{
}

/// Once a schedule is applied, be it by changing the runs or by restarting, the run with the number
/// `next + i` is that of the `i`-th element of the schedule that was passed in, with its solver and its
/// cores, and no other number runs.
pub proof fn law_applied_schedule_runs(
    runs: Runs,
    next: usize,
    schedule: Seq<ScheduleElement>,
    to_suspend: Seq<usize>,
)
    requires
        runs.apart(),
        numbered_below(runs, next),
        next + schedule.len() <= usize::MAX,
        to_suspend.to_set() == sort_schedule(
            runs.running.dom(),
            runs.suspended.dom(),
            numbered(next, schedule),
        ).running,
    ensures
        ({
            let asked = numbered(next, schedule);
            let sorted = sort_schedule(runs.running.dom(), runs.suspended.dom(), asked);
            let changed = runs.apply(sorted.to_start, sorted.to_resume, to_suspend).running;
            let restarted = start_all(Map::empty(), asked);
            &&& forall|id: usize| #[trigger]
                changed.contains_key(id) <==> next <= id < next + schedule.len()
            &&& forall|id: usize| #[trigger]
                restarted.contains_key(id) <==> next <= id < next + schedule.len()
            &&& forall|id: usize| #[trigger]
                changed.contains_key(id) ==> changed[id].name == schedule[id - next].solver
                    && changed[id].cores == schedule[id - next].cores
            &&& forall|id: usize| #[trigger]
                restarted.contains_key(id) ==> restarted[id].name == schedule[id - next].solver
                    && restarted[id].cores == schedule[id - next].cores
        }),
{
    let asked = numbered(next, schedule);
    law_apply_replaces_the_runs(runs, next, schedule, to_suspend);
    law_exactly_the_schedule_runs(runs, asked, to_suspend);
    law_restart_runs_the_schedule(asked);
    assert forall|id: usize| asks_for(asked, id) <==> next <= id < next + schedule.len() by {
        if asks_for(asked, id) {
            let i = choose|i: int| 0 <= i < asked.len() && #[trigger] asked[i].id == id;
            assert(asked[i].id == next + i);
        }
        if next <= id < next + schedule.len() {
            assert(asked[id - next].id == id);
        }
    }
    assert forall|id: usize| next <= id < next + schedule.len() implies {
        &&& (#[trigger] asked[id - next]).id == id
        &&& asked[id - next].solver == schedule[id - next].solver
        &&& asked[id - next].cores == schedule[id - next].cores
        &&& !runs.running.contains_key(id)
        &&& !runs.suspended.contains_key(id)
    } by {}
    let sorted = sort_schedule(runs.running.dom(), runs.suspended.dom(), asked);
    let changed = runs.apply(sorted.to_start, sorted.to_resume, to_suspend).running;
    let restarted = start_all(Map::empty(), asked);
    assert forall|id: usize| #[trigger] changed.contains_key(id) implies changed[id].name
        == schedule[id - next].solver && changed[id].cores == schedule[id - next].cores by {
        assert(asked[id - next].id == id);
    }
    assert forall|id: usize| #[trigger] restarted.contains_key(id) implies restarted[id].name
        == schedule[id - next].solver && restarted[id].cores == schedule[id - next].cores by {
        assert(asked[id - next].id == id);
    }
}

/// Applying a schedule forgets no run that goes on or is suspended, and changes none of them: a solver
/// that ran or was suspended before is suspended after with its name and its cores.
pub proof fn law_applying_suspends_the_others(
    runs: Runs,
    next: usize,
    schedule: Seq<ScheduleElement>,
    to_suspend: Seq<usize>,
    id: usize,
)
    requires
        runs.apart(),
        numbered_below(runs, next),
        next + schedule.len() <= usize::MAX,
        to_suspend.to_set() == sort_schedule(
            runs.running.dom(),
            runs.suspended.dom(),
            numbered(next, schedule),
        ).running,
    ensures
        ({
            let asked = numbered(next, schedule);
            let sorted = sort_schedule(runs.running.dom(), runs.suspended.dom(), asked);
            let after = runs.apply(sorted.to_start, sorted.to_resume, to_suspend);
            &&& runs.running.contains_key(id) ==> after.suspended.contains_key(id)
                && after.suspended[id] == runs.running[id]
            &&& runs.suspended.contains_key(id) ==> after.suspended.contains_key(id)
                && after.suspended[id] == runs.suspended[id]
            &&& after.suspended.contains_key(id) ==> runs.running.contains_key(id)
                || runs.suspended.contains_key(id)
            &&& to_suspend.contains(id) <==> runs.running.contains_key(id)
        }),
{
    let asked = numbered(next, schedule);
    law_apply_replaces_the_runs(runs, next, schedule, to_suspend);
    law_exactly_the_schedule_runs(runs, asked, to_suspend);
    let sorted = sort_schedule(runs.running.dom(), runs.suspended.dom(), asked);
    let after = runs.apply(sorted.to_start, sorted.to_resume, to_suspend);
    assert(after.suspended.contains_key(id) <==> runs.running.contains_key(id)
        || runs.suspended.contains_key(id));
    assert(to_suspend.contains(id) <==> to_suspend.to_set().contains(id));
    assert(!(runs.running.dom().contains(id) && runs.suspended.dom().contains(id)));
}

/// Forgetting the solvers that have exited forgets just those: the others run or are suspended as
/// before.
pub proof fn law_only_exited_solvers_are_forgotten(runs: Runs, active: Set<usize>, id: usize)
    ensures
        runs.retain(active).running.contains_key(id) <==> runs.running.contains_key(id)
            && active.contains(id),
        runs.retain(active).suspended.contains_key(id) <==> runs.suspended.contains_key(id)
            && active.contains(id),
        runs.retain(active).running.contains_key(id) ==> runs.retain(active).running[id]
            == runs.running[id],
        runs.retain(active).suspended.contains_key(id) ==> runs.retain(active).suspended[id]
            == runs.suspended[id],
{
}

/// A schedule whose numbers differ is parted in its own order: what neither runs nor is suspended is
/// started, what is suspended is resumed, and of what runs or is suspended just that is left over which
/// no element asks for.
pub proof fn law_schedule_is_parted_in_order(
    running: Set<usize>,
    suspended: Set<usize>,
    schedule: Seq<ScheduleElement>,
)
    requires
        running.disjoint(suspended),
        distinct_ids(schedule),
    ensures
        ({
            let sorted = sort_schedule(running, suspended, schedule);
            let numbers = schedule.map_values(|e: ScheduleElement| e.id);
            &&& sorted.to_start == schedule.filter(
                |e: ScheduleElement| !running.contains(e.id) && !suspended.contains(e.id),
            )
            &&& sorted.to_resume == numbers.filter(|id: usize| suspended.contains(id))
            &&& forall|id: usize| #[trigger]
                sorted.running.contains(id) <==> running.contains(id) && !numbers.contains(id)
            &&& forall|id: usize| #[trigger]
                sorted.suspended.contains(id) <==> suspended.contains(id) && !numbers.contains(id)
        }),
    decreases schedule.len(),
{
    let numbers = schedule.map_values(|e: ScheduleElement| e.id);
    reveal(Seq::filter);
    if schedule.len() == 0 {
        assert(schedule =~= Seq::empty());
        assert(numbers =~= Seq::empty());
    } else {
        let head = schedule.drop_last();
        let element = schedule.last();
        assert forall|i: int, j: int| 0 <= i < j < head.len() implies #[trigger] head[i].id
            != #[trigger] head[j].id by {
            assert(schedule[i].id != schedule[j].id);
        }
        law_schedule_is_parted_in_order(running, suspended, head);
        let before = head.map_values(|e: ScheduleElement| e.id);
        assert(numbers.drop_last() =~= before);
        assert(numbers =~= before.push(element.id));
        assert(!before.contains(element.id)) by {
            if before.contains(element.id) {
                let i = choose|i: int| 0 <= i < before.len() && before[i] == element.id;
                assert(head[i].id == element.id);
                assert(schedule[i].id != schedule[schedule.len() - 1].id);
            }
        }
        assert forall|id: usize| #[trigger]
            numbers.contains(id) <==> before.contains(id) || id == element.id by {
            lemma_contains_push(before, element.id, id);
        }
        let s = sort_schedule(running, suspended, head);
        assert(s.running.contains(element.id) <==> running.contains(element.id));
        assert(s.suspended.contains(element.id) <==> suspended.contains(element.id));
    }
}

/// The cores that runs take up are the sum of those of each: none without runs, and one more run adds
/// its own.
pub proof fn law_total_cores_adds_up(running: Map<usize, SolverInfo>, id: usize, info: SolverInfo)
    requires
        running.dom().finite(),
        !running.contains_key(id),
    ensures
        total_cores(Map::empty()) == 0,
        total_cores(running.insert(id, info)) == total_cores(running) + info.cores,
{
    let f = |info: SolverInfo| info.cores as nat;
    assert(Map::<usize, SolverInfo>::empty().dom() =~= Set::empty());
    lemma_sum_insert(running, f, id, info);
}

/// Whether no two entries of a list are of one process.
pub open spec fn distinct_processes(sorted: Seq<MemoryUse>) -> bool {
    forall|i: int, j: int|
        0 <= i < j < sorted.len() ==> (#[trigger] sorted[i]).1 != (#[trigger] sorted[j]).1
}

/// The list is gone through in its own order, and each entry of a running solver ends up on one side:
/// those that use more than `per_core` bytes for each of their cores have to go, the others are left;
/// and of the running solvers just those that have to go run no longer.
pub proof fn law_fair_share_keeps_the_order(
    running: Map<usize, SolverInfo>,
    sorted: Seq<MemoryUse>,
    per_core: u64,
)
    requires
        distinct_processes(sorted),
    ensures
        ({
            let share = fair_share(running, sorted, per_core);
            let over = |e: MemoryUse| e.0 as int / running[e.1].cores as int > per_core;
            &&& share.to_kill == sorted.filter(
                |e: MemoryUse| running.contains_key(e.1) && over(e),
            )
            &&& share.remaining == sorted.filter(
                |e: MemoryUse| running.contains_key(e.1) && !over(e),
            )
            &&& forall|id: usize| #[trigger]
                share.running.contains_key(id) <==> running.contains_key(id) && !exists|i: int|
                    0 <= i < sorted.len() && (#[trigger] sorted[i]).1 == id && over(sorted[i])
            &&& forall|id: usize| #[trigger]
                share.running.contains_key(id) ==> share.running[id] == running[id]
        }),
    decreases sorted.len(),
{
    let over = |e: MemoryUse| e.0 as int / running[e.1].cores as int > per_core;
    let kill = |e: MemoryUse| running.contains_key(e.1) && over(e);
    let keep = |e: MemoryUse| running.contains_key(e.1) && !over(e);
    reveal(Seq::filter);
    if sorted.len() == 0 {
        assert(sorted =~= Seq::empty());
        assert(sorted.filter(kill) =~= Seq::empty());
        assert(sorted.filter(keep) =~= Seq::empty());
    } else {
        let head = sorted.drop_last();
        let last = sorted.last();
        assert forall|i: int, j: int| 0 <= i < j < head.len() implies (#[trigger] head[i]).1 != (
        #[trigger] head[j]).1 by {
            assert(sorted[i].1 != sorted[j].1);
        }
        law_fair_share_keeps_the_order(running, head, per_core);
        let before = fair_share(running, head, per_core);
        let share = fair_share(running, sorted, per_core);
        assert(before.running.contains_key(last.1) <==> running.contains_key(last.1)) by {
            if exists|i: int| 0 <= i < head.len() && (#[trigger] head[i]).1 == last.1 && over(head[i]) {
                let i = choose|i: int|
                    0 <= i < head.len() && (#[trigger] head[i]).1 == last.1 && over(head[i]);
                assert(sorted[i].1 != sorted[sorted.len() - 1].1);
            }
        }
        assert(sorted[sorted.len() - 1] == last);
        assert forall|id: usize| #[trigger] share.running.contains_key(id) <==> running.contains_key(
            id,
        ) && !exists|i: int|
            0 <= i < sorted.len() && (#[trigger] sorted[i]).1 == id && over(sorted[i]) by {
            if exists|i: int| 0 <= i < head.len() && (#[trigger] head[i]).1 == id && over(head[i]) {
                let i = choose|i: int|
                    0 <= i < head.len() && (#[trigger] head[i]).1 == id && over(head[i]);
                assert(sorted[i].1 == id && over(sorted[i]));
            }
            if exists|i: int| 0 <= i < sorted.len() && (#[trigger] sorted[i]).1 == id && over(sorted[i]) {
                let i = choose|i: int|
                    0 <= i < sorted.len() && (#[trigger] sorted[i]).1 == id && over(sorted[i]);
                if i < head.len() {
                    assert(head[i].1 == id && over(head[i]));
                }
            }
            if id != last.1 {
                assert(share.running.contains_key(id) <==> before.running.contains_key(id));
            }
        }
    }
}

/// No running solver is passed over: one that uses more than its share has to go and runs no longer,
/// and any other is among those that are left.
pub proof fn law_no_running_solver_is_passed_over(
    running: Map<usize, SolverInfo>,
    sorted: Seq<MemoryUse>,
    per_core: u64,
    i: int,
)
    requires
        distinct_processes(sorted),
        0 <= i < sorted.len(),
        running.contains_key(sorted[i].1),
    ensures
        ({
            let share = fair_share(running, sorted, per_core);
            let (memory, id) = sorted[i];
            if memory as int / running[id].cores as int > per_core {
                &&& share.to_kill.contains((memory, id))
                &&& !share.remaining.contains((memory, id))
                &&& !share.running.contains_key(id)
            } else {
                &&& share.remaining.contains((memory, id))
                &&& !share.to_kill.contains((memory, id))
                &&& share.running.contains_key(id)
            }
        }),
        ({
            let share = fair_share(running, sorted, per_core);
            share.to_kill.no_duplicates() && share.remaining.no_duplicates()
        }),
{
    law_fair_share_keeps_the_order(running, sorted, per_core);
    let over = |e: MemoryUse| e.0 as int / running[e.1].cores as int > per_core;
    let kill = |e: MemoryUse| running.contains_key(e.1) && over(e);
    let keep = |e: MemoryUse| running.contains_key(e.1) && !over(e);
    if over(sorted[i]) {
        sorted.lemma_filter_contains(kill, i);
    } else {
        sorted.lemma_filter_contains(keep, i);
    }
    let share = fair_share(running, sorted, per_core);
    assert forall|e: MemoryUse| share.to_kill.contains(e) implies over(e) by {
        let j = choose|j: int| 0 <= j < share.to_kill.len() && share.to_kill[j] == e;
        sorted.lemma_filter_pred(kill, j);
    }
    assert forall|e: MemoryUse| share.remaining.contains(e) implies !over(e) by {
        let j = choose|j: int| 0 <= j < share.remaining.len() && share.remaining[j] == e;
        sorted.lemma_filter_pred(keep, j);
    }
    if !over(sorted[i]) {
        assert forall|j: int| 0 <= j < sorted.len() && (#[trigger] sorted[j]).1 == sorted[i].1 implies j
            == i by {
            if j < i {
                assert(sorted[j].1 != sorted[i].1);
            }
            if i < j {
                assert(sorted[i].1 != sorted[j].1);
            }
        }
    }
    assert(sorted.no_duplicates()) by {
        assert forall|a: int, b: int| 0 <= a < b < sorted.len() implies sorted[a] != sorted[b] by {
            assert(sorted[a].1 != sorted[b].1);
        }
    }
    lemma_filter_no_duplicates(sorted, kill);
    lemma_filter_no_duplicates(sorted, keep);
}

/// What is kept of a list in which nothing occurs twice does not, either.
proof fn lemma_filter_no_duplicates(s: Seq<MemoryUse>, keep: spec_fn(MemoryUse) -> bool)
    requires
        s.no_duplicates(),
    ensures
        s.filter(keep).no_duplicates(),
        forall|e: MemoryUse| #[trigger] s.filter(keep).contains(e) ==> s.contains(e),
    decreases s.len(),
{
    reveal(Seq::filter);
    if s.len() > 0 {
        let head = s.drop_last();
        assert(head.no_duplicates());
        lemma_filter_no_duplicates(head, keep);
        assert(!head.contains(s.last())) by {
            if head.contains(s.last()) {
                let i = choose|i: int| 0 <= i < head.len() && head[i] == s.last();
                assert(s[i] == s[s.len() - 1]);
            }
        }
        assert forall|e: MemoryUse| #[trigger] s.filter(keep).contains(e) implies s.contains(e) by {
            let j = choose|j: int| 0 <= j < s.filter(keep).len() && s.filter(keep)[j] == e;
            if j < head.filter(keep).len() {
                assert(head.filter(keep)[j] == e);
                assert(head.filter(keep).contains(e));
                let k = choose|k: int| 0 <= k < head.len() && head[k] == e;
                assert(s[k] == e);
            } else {
                assert(s[s.len() - 1] == e);
            }
        }
        assert forall|a: int, b: int|
            0 <= a < b < s.filter(keep).len() implies s.filter(keep)[a] != s.filter(keep)[b] by {
            assert(head.filter(keep)[a] == s.filter(keep)[a]);
            assert(head.filter(keep).contains(head.filter(keep)[a]));
            if b < head.filter(keep).len() {
                assert(head.filter(keep)[b] == s.filter(keep)[b]);
            }
        }
    }
}

/// A schedule is gone through one element after the other: its second part is parted by what the first
/// has left over.
pub proof fn law_schedule_is_parted_one_by_one(
    running: Set<usize>,
    suspended: Set<usize>,
    a: Seq<ScheduleElement>,
    b: Seq<ScheduleElement>,
)
    ensures
        ({
            let first = sort_schedule(running, suspended, a);
            let second = sort_schedule(first.running, first.suspended, b);
            let whole = sort_schedule(running, suspended, a + b);
            &&& whole.running == second.running
            &&& whole.suspended == second.suspended
            &&& whole.to_start == first.to_start + second.to_start
            &&& whole.to_resume == first.to_resume + second.to_resume
        }),
    decreases b.len(),
{
    let first = sort_schedule(running, suspended, a);
    if b.len() == 0 {
        assert(a + b =~= a);
        let second = sort_schedule(first.running, first.suspended, b);
        assert(first.to_start + second.to_start =~= first.to_start);
        assert(first.to_resume + second.to_resume =~= first.to_resume);
    } else {
        law_schedule_is_parted_one_by_one(running, suspended, a, b.drop_last());
        assert((a + b).drop_last() =~= a + b.drop_last());
        let second = sort_schedule(first.running, first.suspended, b);
        let whole = sort_schedule(running, suspended, a + b);
        assert(whole.to_start =~= first.to_start + second.to_start);
        assert(whole.to_resume =~= first.to_resume + second.to_resume);
    }
}

/// One element takes up the run with its number if one runs; else it resumes the one that is suspended;
/// else it is started.
pub proof fn law_element_takes_up_its_run(
    running: Set<usize>,
    suspended: Set<usize>,
    element: ScheduleElement,
)
    ensures
        ({
            let sorted = sort_schedule(running, suspended, seq![element]);
            let goes_on = running.contains(element.id);
            let is_resumed = !goes_on && suspended.contains(element.id);
            &&& sorted.running == running.remove(element.id)
            &&& sorted.suspended == if goes_on {
                suspended
            } else {
                suspended.remove(element.id)
            }
            &&& sorted.to_resume == if is_resumed {
                seq![element.id]
            } else {
                Seq::empty()
            }
            &&& sorted.to_start == if goes_on || is_resumed {
                Seq::empty()
            } else {
                seq![element]
            }
        }),
{
    reveal_with_fuel(sort_schedule, 2);
    let one = seq![element];
    assert(one.drop_last() =~= Seq::empty());
    let sorted = sort_schedule(running, suspended, one);
    assert(sorted.running =~= running.remove(element.id));
    if !running.contains(element.id) {
        assert(sorted.suspended =~= suspended.remove(element.id));
    }
    assert(Seq::<usize>::empty().push(element.id) =~= seq![element.id]);
    assert(Seq::<ScheduleElement>::empty().push(element) =~= one);
}

/// Runs are started one after the other, each with the name and the cores of its element, in place of a
/// run with the same number.
pub proof fn law_runs_start_one_by_one(
    running: Map<usize, SolverInfo>,
    a: Seq<ScheduleElement>,
    b: Seq<ScheduleElement>,
    element: ScheduleElement,
)
    ensures
        start_all(running, a + b) == start_all(start_all(running, a), b),
        start_all(running, Seq::empty()) == running,
        start_all(running, seq![element]) == running.insert(
            element.id,
            SolverInfo { name: element.solver, cores: element.cores },
        ),
    decreases b.len(),
{
    reveal_with_fuel(start_all, 2);
    assert(seq![element].drop_last() =~= Seq::empty());
    if b.len() == 0 {
        assert(a + b =~= a);
    } else {
        law_runs_start_one_by_one(running, a, b.drop_last(), element);
        assert((a + b).drop_last() =~= a + b.drop_last());
    }
}

/// A list of memory use is gone through one entry after the other: its second part by what runs after the
/// first.
pub proof fn law_memory_is_gone_through_one_by_one(
    running: Map<usize, SolverInfo>,
    a: Seq<MemoryUse>,
    b: Seq<MemoryUse>,
    per_core: u64,
)
    ensures
        ({
            let first = fair_share(running, a, per_core);
            let second = fair_share(first.running, b, per_core);
            let whole = fair_share(running, a + b, per_core);
            &&& whole.running == second.running
            &&& whole.to_kill == first.to_kill + second.to_kill
            &&& whole.remaining == first.remaining + second.remaining
        }),
    decreases b.len(),
{
    let first = fair_share(running, a, per_core);
    let second = fair_share(first.running, b, per_core);
    let whole = fair_share(running, a + b, per_core);
    if b.len() == 0 {
        assert(a + b =~= a);
        assert(first.to_kill + second.to_kill =~= first.to_kill);
        assert(first.remaining + second.remaining =~= first.remaining);
    } else {
        law_memory_is_gone_through_one_by_one(running, a, b.drop_last(), per_core);
        assert((a + b).drop_last() =~= a + b.drop_last());
        assert(whole.to_kill =~= first.to_kill + second.to_kill);
        assert(whole.remaining =~= first.remaining + second.remaining);
    }
}

/// Suspending undoes resuming: a suspended solver that is resumed and then suspended again is where it
/// was, and so is a running one that is suspended and then resumed.
pub proof fn law_suspending_undoes_resuming(runs: Runs, id: usize)
    requires
        runs.apart(),
    ensures
        runs.suspended.contains_key(id) ==> runs.resume_all(seq![id]).suspend_all(seq![id]) == runs,
        runs.running.contains_key(id) ==> runs.suspend_all(seq![id]).resume_all(seq![id]) == runs,
{
    reveal_with_fuel(Runs::resume_all, 2);
    reveal_with_fuel(Runs::suspend_all, 2);
    assert(seq![id].drop_last() =~= Seq::empty());
    assert(!(runs.running.dom().contains(id) && runs.suspended.dom().contains(id)));
    if runs.suspended.contains_key(id) {
        let back = runs.resume_all(seq![id]).suspend_all(seq![id]);
        assert(back.running =~= runs.running);
        assert(back.suspended =~= runs.suspended);
    }
    if runs.running.contains_key(id) {
        let back = runs.suspend_all(seq![id]).resume_all(seq![id]);
        assert(back.running =~= runs.running);
        assert(back.suspended =~= runs.suspended);
    }
}

} // verus!
