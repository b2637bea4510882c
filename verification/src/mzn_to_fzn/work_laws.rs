//! What holds of the work that is handed out to keep compilations in line with the cores.
use super::compilation_core_manager::{self, start_mains, unstarted_cores};
use super::compilation_scheduler;
use super::pool::{
    extras, is_last_extra, last_extra, least_key, lemma_main_cores_insert,
    lemma_main_cores_remove, main_cores, CompilationWork, MainCompilation, PoolView,
    RunningCompilation, Work,
};
use super::pool_laws::{
    balanced, has_place, law_highest_priority_starts_first, law_lowest_priority_stops_first,
    law_promote_changes_one_compilation, law_promote_keeps_places, law_started_extras_run,
    law_stopped_extras_wait_again, lemma_after_starts, lemma_after_stops,
    lemma_last_extra_exists, lemma_least_key_exists, one_place_each,
};
use super::priority::{Priority, SolverId};
use vstd::prelude::*;

verus! {

/// Whether `id` has the same main compilation in both pools, or none in either.
pub open spec fn same_main(a: PoolView, b: PoolView, id: Seq<char>) -> bool {
    &&& (a.running.contains_key(id) && a.running[id] is Main) == (b.running.contains_key(id)
        && b.running[id] is Main)
    &&& a.running.contains_key(id) && a.running[id] is Main ==> a.running[id] == b.running[id]
}

/// A pool from which no extra compilation must go, and in which no core is free that a waiting
/// solver could take.
pub open spec fn settled(pool: PoolView) -> bool {
    &&& pool.used <= pool.available || extras(pool.running).len() == 0
    &&& pool.available <= pool.used || pool.queue.dom().len() == 0
}

/// Whether `id` waits in the queue.
pub open spec fn waits(pool: PoolView, id: Seq<char>) -> bool {
    exists|p: u64| #[trigger] pool.queue.contains_key(p) && pool.queue[p] == id
}

/// Whether `id` runs as a main compilation and yet waits in the queue.
pub open spec fn main_waits(pool: PoolView, id: Seq<char>) -> bool {
    pool.running.contains_key(id) && pool.running[id] is Main && waits(pool, id)
}

/// Stopping extra compilations leaves the main ones alone, and makes none of them wait.
proof fn lemma_stops_spare_main(pool: PoolView, n: nat, x: Seq<char>)
    requires
        pool.wf(),
        n <= extras(pool.running).len(),
    ensures
        same_main(pool, pool.after_stops(n), x),
        main_waits(pool.after_stops(n), x) ==> main_waits(pool, x),
    decreases n,
{
    if n > 0 {
        lemma_last_extra_exists(pool.running);
        let id = last_extra(pool.running);
        let next = pool.requeue(id);
        pool.lemma_requeue(id);
        lemma_stops_spare_main(next, (n - 1) as nat, x);
        assert(is_last_extra(pool.running, id));
        if main_waits(next, x) {
            let p = choose|p: u64| #[trigger] next.queue.contains_key(p) && next.queue[p] == x;
            assert(x != id);
            assert(pool.queue.contains_key(p) && pool.queue[p] == x);
        }
    }
}

/// Starting waiting solvers leaves a main compilation alone that does not wait, and makes none.
proof fn lemma_starts_spare_main(pool: PoolView, n: nat, x: Seq<char>)
    requires
        pool.wf(),
        !main_waits(pool, x),
        n <= pool.queue.dom().len(),
    ensures
        same_main(pool, pool.after_starts(n), x),
        !main_waits(pool.after_starts(n), x),
    decreases n,
{
    if n > 0 {
        lemma_least_key_exists(pool.queue);
        let p = least_key(pool.queue);
        let next = pool.start_extra(p);
        assert(pool.queue.contains_key(p));
        pool.lemma_start_extra(p);
        assert(!main_waits(next, x)) by {
            if main_waits(next, x) {
                let q = choose|q: u64| #[trigger] next.queue.contains_key(q) && next.queue[q] == x;
                assert(pool.queue.contains_key(q) && pool.queue[q] == x);
            }
        }
        assert(same_main(pool, next, x));
        lemma_starts_spare_main(next, (n - 1) as nat, x);
    }
}

/// What the stops and the starts of one round of work leave behind.
proof fn lemma_round(pool: PoolView, all: bool)
    requires
        pool.wf(),
    ensures
        ({
            let trimmed = pool.after_stops(pool.stop_count(all));
            let after = trimmed.after_starts(trimmed.start_count());
            &&& pool.stop_count(all) <= extras(pool.running).len()
            &&& trimmed.wf()
            &&& trimmed.start_count() <= trimmed.queue.dom().len()
            &&& all ==> extras(trimmed.running).len() == 0 && trimmed.stop_count(true) == 0
            &&& pool.stop_count(false) > 0 ==> pool.after_stops(
                pool.stop_count(false),
            ).start_count() == 0
            &&& !all ==> after.wf() && settled(after) && after.stop_count(false) == 0
                && after.start_count() == 0
        }),
{
    let n = pool.stop_count(all);
    lemma_after_stops(pool, n);
    let trimmed = pool.after_stops(n);
    let m = trimmed.start_count();
    lemma_after_starts(trimmed, m);
    lemma_after_stops(pool, pool.stop_count(false));
}

/// Where no solver is listed twice, cores are in balance when nothing runs yet.
pub proof fn law_new_state_is_balanced(queue: Map<u64, Seq<char>>)
    requires
        queue.dom().finite(),
        queue.is_injective(),
    ensures
        ({
            let pool = PoolView { queue, running: Map::empty(), available: 0, used: 0 };
            pool.wf() && balanced(pool)
        }),
{
    let pool = PoolView { queue, running: Map::empty(), available: 0, used: 0 };
    assert(pool.running.dom() =~= Set::empty());
    assert(main_cores(pool.running) == 0);
    assert forall|p: u64, q: u64|
        #![trigger pool.queue.contains_key(p), pool.queue.contains_key(q)]
        pool.queue.contains_key(p) && pool.queue.contains_key(q) && pool.queue[p]
            == pool.queue[q] implies p == q by {
        assert(queue.dom().contains(p) && queue.dom().contains(q));
    }
}

/// One list of work never both stops and starts compilations.
pub proof fn law_work_is_one_sided(state: compilation_scheduler::StateView)
    requires
        state.pool.wf(),
    ensures
        forall|i: int, j: int|
            0 <= i < state.work().len() && 0 <= j < state.work().len() ==> !(#[trigger] state.work()[i] is Stop
                && #[trigger] state.work()[j] is Start),
{
    lemma_round(state.pool, !state.enabled);
    lemma_round(state.pool, false);
    let n = state.pool.stop_count(!state.enabled);
    law_lowest_priority_stops_first(state.pool, n);
    if state.enabled {
        law_highest_priority_starts_first(state.trimmed(), state.trimmed().start_count());
    }
}

/// Once the work was taken on, there is no more of it.
pub proof fn law_work_settles(state: compilation_scheduler::StateView)
    requires
        state.pool.wf(),
    ensures
        state.after_work().work() == Seq::<Work>::empty(),
        state.after_work().after_work() == state.after_work(),
{
    lemma_round(state.pool, !state.enabled);
    let after = state.after_work();
    assert(after.pool.stop_count(!after.enabled) == 0);
    assert(after.trimmed() == after.pool);
    assert(after.work() =~= Seq::<Work>::empty());
}

/// While extra compilations are on, the work brings the use of cores to what is available as far as
/// the extra compilations and the waiting solvers go: none of them runs too much, and no core stays
/// free that a waiting solver could take.
pub proof fn law_work_fills_the_cores(state: compilation_scheduler::StateView)
    requires
        state.pool.wf(),
        state.enabled,
    ensures
        settled(state.after_work().pool),
        state.after_work().pool.available == state.pool.available,
{
    lemma_round(state.pool, false);
    lemma_after_stops(state.pool, state.pool.stop_count(false));
    lemma_after_starts(state.trimmed(), state.trimmed().start_count());
}

/// Once extra compilations are off, the work stops every one of them and starts nothing.
pub proof fn law_disabled_stops_all_extras(state: compilation_scheduler::StateView)
    requires
        state.pool.wf(),
        !state.enabled,
    ensures
        state.work().len() == extras(state.pool.running).len(),
        forall|i: int| 0 <= i < state.work().len() ==> #[trigger] state.work()[i] is Stop,
        extras(state.after_work().pool.running).len() == 0,
{
    lemma_round(state.pool, true);
    law_lowest_priority_stops_first(state.pool, state.pool.stop_count(true));
}

/// The work stops no main compilation, makes none an extra one and makes no other compilation a main
/// one, unless the solver of a main compilation waits in the queue as well.
pub proof fn law_work_spares_mains(state: compilation_scheduler::StateView, solver: Seq<char>)
    requires
        state.pool.wf(),
        !main_waits(state.pool, solver),
    ensures
        same_main(state.pool, state.after_work().pool, solver),
{
    lemma_round(state.pool, !state.enabled);
    lemma_stops_spare_main(state.pool, state.pool.stop_count(!state.enabled), solver);
    if state.enabled {
        lemma_starts_spare_main(state.trimmed(), state.trimmed().start_count(), solver);
    }
}

/// The work loses no solver's place in the queue, where no solver has two.
pub proof fn law_work_keeps_places(state: compilation_scheduler::StateView)
    requires
        state.pool.wf(),
        one_place_each(state.pool),
    ensures
        forall|p: u64, id: Seq<char>| #[trigger]
            has_place(state.after_work().pool, p, id) <==> has_place(state.pool, p, id),
        state.after_work().pool.wf(),
        one_place_each(state.after_work().pool),
{
    lemma_round(state.pool, !state.enabled);
    lemma_after_stops(state.pool, state.pool.stop_count(!state.enabled));
    if state.enabled {
        let trimmed = state.trimmed();
        lemma_after_starts(trimmed, trimmed.start_count());
        assert forall|p: u64, id: Seq<char>| #[trigger]
            has_place(state.after_work().pool, p, id) <==> has_place(state.pool, p, id) by {
            assert(has_place(trimmed, p, id) <==> has_place(state.pool, p, id));
        }
    }
}

/// Starting waiting solvers leaves the cores that main compilations bring alone, where none of those
/// solvers is compiled as a main one.
proof fn lemma_starts_keep_cores(pool: PoolView, n: nat)
    requires
        pool.wf(),
        forall|id: Seq<char>| !#[trigger] main_waits(pool, id),
        n <= pool.queue.dom().len(),
    ensures
        main_cores(pool.after_starts(n).running) == main_cores(pool.running),
        pool.after_starts(n).available == pool.available,
    decreases n,
{
    if n > 0 {
        lemma_least_key_exists(pool.queue);
        let p = least_key(pool.queue);
        let id = pool.queue[p];
        let next = pool.start_extra(p);
        assert(pool.queue.contains_key(p));
        assert(!main_waits(pool, id));
        pool.lemma_start_extra(p);
        lemma_main_cores_insert(pool.running, id, RunningCompilation::Extra(Priority(p)));
        assert forall|x: Seq<char>| !#[trigger] main_waits(next, x) by {
            assert(!main_waits(pool, x));
            if main_waits(next, x) {
                let q = choose|q: u64| #[trigger] next.queue.contains_key(q) && next.queue[q] == x;
                assert(pool.queue.contains_key(q) && pool.queue[q] == x);
            }
        }
        lemma_starts_keep_cores(next, (n - 1) as nat);
    }
}

/// The stops and starts of one round of work leave the cores that main compilations bring alone.
proof fn lemma_round_keeps_cores(pool: PoolView, all: bool)
    requires
        pool.wf(),
        forall|id: Seq<char>| !#[trigger] main_waits(pool, id),
    ensures
        ({
            let trimmed = pool.after_stops(pool.stop_count(all));
            let after = trimmed.after_starts(trimmed.start_count());
            &&& main_cores(trimmed.running) == main_cores(pool.running)
            &&& trimmed.available == pool.available
            &&& main_cores(after.running) == main_cores(pool.running)
            &&& after.available == pool.available
        }),
{
    let n = pool.stop_count(all);
    let trimmed = pool.after_stops(n);
    lemma_round(pool, all);
    lemma_after_stops(pool, n);
    assert forall|id: Seq<char>| !#[trigger] main_waits(trimmed, id) by {
        lemma_stops_spare_main(pool, n, id);
        assert(!main_waits(pool, id));
    }
    lemma_starts_keep_cores(trimmed, trimmed.start_count());
}

/// Registering a main compilation keeps the cores that are available exactly those that the main
/// compilations bring, whether the solver was not compiled before, as an extra or as a main one.
pub proof fn law_register_keeps_cores(
    state: compilation_scheduler::StateView,
    solver: Seq<char>,
    cores: usize,
)
    requires
        state.pool.wf(),
        state.pool.available == main_cores(state.pool.running),
    ensures
        ({
            let next = state.register(solver, cores).pool;
            next.available == main_cores(next.running)
        }),
{
    lemma_main_cores_insert(
        state.pool.running,
        solver,
        RunningCompilation::Main(MainCompilation { cores, priority: state.pool.place(solver) }),
    );
}

/// Taking work keeps the cores that are available exactly those that the main compilations bring,
/// unless the solver of a main compilation waits in the queue as well.
pub proof fn law_work_keeps_cores(state: compilation_scheduler::StateView)
    requires
        state.pool.wf(),
        state.pool.available == main_cores(state.pool.running),
        forall|id: Seq<char>| !#[trigger] main_waits(state.pool, id),
    ensures
        ({
            let next = state.after_work().pool;
            next.available == main_cores(next.running)
        }),
{
    lemma_round_keeps_cores(state.pool, !state.enabled);
}

/// The end of a compilation, be it finished or broken off, keeps the cores that are available exactly
/// those that the main compilations bring.
pub proof fn law_end_keeps_cores(pool: PoolView, id: Seq<char>)
    requires
        pool.wf(),
        pool.available == main_cores(pool.running),
    ensures
        pool.finish(id).available == main_cores(pool.finish(id).running),
        pool.release(id).available == main_cores(pool.release(id).running),
{
    if pool.running.contains_key(id) {
        lemma_main_cores_remove(pool.running, id);
    }
}

/// The cores that all main compilations bring, whether they run or have not started.
pub open spec fn granted_cores(state: compilation_core_manager::StateView) -> nat {
    main_cores(state.pool.running) + unstarted_cores(state.unstarted)
}

/// Where main compilations wait until work is taken, too, registering one keeps the cores that are
/// available exactly those that the main compilations bring, whether the solver was not compiled
/// before, as an extra or as a main one.
pub proof fn law_deferred_register_keeps_cores(
    state: compilation_core_manager::StateView,
    solver: Seq<char>,
    cores: usize,
)
    requires
        state.wf(),
        state.pool.available == granted_cores(state),
    ensures
        state.register(solver, cores).pool.available == granted_cores(
            state.register(solver, cores),
        ),
{
    let next = state.register(solver, cores);
    if state.pool.running.contains_key(solver) {
        lemma_main_cores_insert(
            state.pool.running,
            solver,
            RunningCompilation::Main(MainCompilation { cores, priority: state.pool.place(solver) }),
        );
    } else {
        assert(next.unstarted.drop_last() =~= state.unstarted);
    }
}

/// The end of a compilation keeps this balance, too, where main compilations wait until work is taken.
pub proof fn law_deferred_end_keeps_cores(
    state: compilation_core_manager::StateView,
    solver: Seq<char>,
)
    requires
        state.wf(),
        state.pool.available == granted_cores(state),
    ensures
        ({
            let finished = compilation_core_manager::StateView {
                pool: state.pool.finish(solver),
                ..state
            };
            let released = compilation_core_manager::StateView {
                pool: state.pool.release(solver),
                ..state
            };
            &&& finished.pool.available == granted_cores(finished)
            &&& released.pool.available == granted_cores(released)
        }),
{
    if state.pool.running.contains_key(solver) {
        lemma_main_cores_remove(state.pool.running, solver);
    }
}

/// Starting the first `n` main compilations brings their cores over to those that run.
proof fn lemma_mains_keep_cores(state: compilation_core_manager::StateView, n: int)
    requires
        state.wf(),
        distinct_unstarted(state),
        0 <= n <= state.unstarted.len(),
    ensures
        ({
            let pool = start_mains(state.pool, state.unstarted.take(n));
            &&& pool.running.dom().finite()
            &&& main_cores(pool.running) == main_cores(state.pool.running) + unstarted_cores(
                state.unstarted.take(n),
            )
            &&& forall|id: Seq<char>| #[trigger]
                pool.running.contains_key(id) && pool.running[id] is Main
                    ==> state.pool.running.contains_key(id) && state.pool.running[id] is Main
                    || exists|i: int| 0 <= i < n && (#[trigger] state.unstarted[i]).0 == id
        }),
    decreases n,
{
    let pool = start_mains(state.pool, state.unstarted.take(n));
    if n == 0 {
        assert(state.unstarted.take(0) =~= Seq::empty());
    } else {
        lemma_mains_keep_cores(state, n - 1);
        let head = state.unstarted.take(n);
        let before = start_mains(state.pool, state.unstarted.take(n - 1));
        assert(head.drop_last() =~= state.unstarted.take(n - 1));
        let (id, main) = state.unstarted[n - 1];
        assert(head.last() == (id, main));
        assert(pool == before.start_main(id, main));
        assert(!(before.running.contains_key(id) && before.running[id] is Main)) by {
            if before.running.contains_key(id) && before.running[id] is Main {
                assert(!(state.pool.running.contains_key(state.unstarted[n - 1].0)
                    && state.pool.running[state.unstarted[n - 1].0] is Main));
                let i = choose|i: int| 0 <= i < n - 1 && (#[trigger] state.unstarted[i]).0 == id;
                assert(state.unstarted[i].0 != state.unstarted[n - 1].0);
            }
        }
        lemma_main_cores_insert(before.running, id, RunningCompilation::Main(main));
        assert(pool.running.dom() =~= before.running.dom().insert(id));
        assert forall|x: Seq<char>| #[trigger]
            pool.running.contains_key(x) && pool.running[x] is Main implies (
        state.pool.running.contains_key(x) && state.pool.running[x] is Main) || exists|i: int|
            0 <= i < n && (#[trigger] state.unstarted[i]).0 == x by {
            if x == id {
                assert(state.unstarted[n - 1].0 == x);
            } else {
                assert(before.running.contains_key(x));
                if !(state.pool.running.contains_key(x) && state.pool.running[x] is Main) {
                    let i = choose|i: int|
                        0 <= i < n - 1 && (#[trigger] state.unstarted[i]).0 == x;
                    assert(0 <= i < n && state.unstarted[i].0 == x);
                }
            }
        }
    }
}

/// The main compilations that have not started are of solvers that differ, of which none runs as a
/// main compilation.
pub open spec fn distinct_unstarted(state: compilation_core_manager::StateView) -> bool {
    &&& forall|i: int, j: int|
        0 <= i < j < state.unstarted.len() ==> (#[trigger] state.unstarted[i]).0 != (
        #[trigger] state.unstarted[j]).0
    &&& forall|i: int|
        0 <= i < state.unstarted.len() ==> !(state.pool.running.contains_key(
            (#[trigger] state.unstarted[i]).0,
        ) && state.pool.running[state.unstarted[i].0] is Main)
}

/// Where main compilations wait until work is taken, too, taking it keeps the cores that are
/// available exactly those that the main compilations bring, unless one was asked for twice or its
/// solver waits in the queue as well.
pub proof fn law_deferred_work_keeps_cores(state: compilation_core_manager::StateView)
    requires
        state.wf(),
        state.pool.available == granted_cores(state),
        distinct_unstarted(state),
        forall|id: Seq<char>| #[trigger] state.is_main(id) ==> !waits(state.pool, id),
    ensures
        state.after_work().pool.available == granted_cores(state.after_work()),
{
    let count = state.unstarted.len() as int;
    assert(state.unstarted.take(count) =~= state.unstarted);
    compilation_core_manager::lemma_all_mains(state);
    lemma_mains_keep_cores(state, count);
    let mains = state.all_mains();
    assert forall|id: Seq<char>| !#[trigger] main_waits(mains, id) by {
        if main_waits(mains, id) {
            assert(state.is_main(id));
            let p = choose|p: u64| #[trigger] mains.queue.contains_key(p) && mains.queue[p] == id;
            assert(state.pool.queue.contains_key(p));
        }
    }
    lemma_round_keeps_cores(mains, false);
}

/// A main compilation that was asked for is one from then on, whether it runs or waits to start.
pub proof fn law_registered_is_main(
    state: compilation_core_manager::StateView,
    solver: Seq<char>,
    cores: usize,
)
    ensures
        state.register(solver, cores).is_main(solver),
{
    let next = state.register(solver, cores);
    if !state.pool.running.contains_key(solver) {
        assert(next.unstarted[state.unstarted.len() as int].0 == solver);
    }
}

/// Where main compilations wait until work is taken, too, the work fills the cores that are
/// available and there is no more of it once it was taken on.
pub proof fn law_deferred_work_settles(state: compilation_core_manager::StateView)
    requires
        state.wf(),
    ensures
        settled(state.after_work().pool),
        state.after_work().pool.available == state.pool.available,
        state.after_work().work() == Seq::<Work>::empty(),
        state.after_work().after_work() == state.after_work(),
{
    compilation_core_manager::lemma_all_mains(state);
    lemma_round(state.all_mains(), false);
    lemma_after_stops(state.all_mains(), state.all_mains().stop_count(false));
    lemma_after_starts(state.trimmed(), state.trimmed().start_count());
    let after = state.after_work();
    assert(after.all_mains() == after.pool);
    assert(after.trimmed() == after.pool);
    assert(after.work() =~= Seq::<Work>::empty());
}

/// A main compilation that was asked for and has not ended runs once work was taken, unless its
/// solver waits in the queue as well.
pub proof fn law_deferred_mains_start(
    state: compilation_core_manager::StateView,
    solver: Seq<char>,
)
    requires
        state.wf(),
        state.is_main(solver),
        !waits(state.pool, solver),
    ensures
        state.after_work().pool.running.contains_key(solver),
        state.after_work().pool.running[solver] is Main,
{
    compilation_core_manager::lemma_all_mains(state);
    let mains = state.all_mains();
    lemma_round(mains, false);
    lemma_mains_run(state.pool, state.unstarted, solver);
    assert(!main_waits(mains, solver)) by {
        if main_waits(mains, solver) {
            let p = choose|p: u64| #[trigger]
                mains.queue.contains_key(p) && mains.queue[p] == solver;
            assert(state.pool.queue.contains_key(p));
        }
    }
    lemma_stops_spare_main(mains, mains.stop_count(false), solver);
    lemma_starts_spare_main(state.trimmed(), state.trimmed().start_count(), solver);
}

/// Starting main compilations keeps those that run and starts those that wait.
proof fn lemma_mains_run(
    pool: PoolView,
    unstarted: Seq<(Seq<char>, MainCompilation)>,
    solver: Seq<char>,
)
    requires
        (pool.running.contains_key(solver) && pool.running[solver] is Main) || exists|i: int|
            0 <= i < unstarted.len() && #[trigger] unstarted[i].0 == solver,
    ensures
        ({
            let mains = start_mains(pool, unstarted);
            mains.running.contains_key(solver) && mains.running[solver] is Main
        }),
    decreases unstarted.len(),
{
    if unstarted.len() > 0 && unstarted.last().0 != solver {
        if exists|i: int| 0 <= i < unstarted.len() && #[trigger] unstarted[i].0 == solver {
            let i = choose|i: int| 0 <= i < unstarted.len() && #[trigger] unstarted[i].0 == solver;
            assert(unstarted.drop_last()[i].0 == solver);
        }
        lemma_mains_run(pool, unstarted.drop_last(), solver);
    }
}

/// The cores in use are as many as compilations run.
pub open spec fn counted(pool: PoolView) -> bool {
    pool.used == pool.running.dom().len()
}

/// Stopping extra compilations keeps the count of cores in use.
proof fn lemma_stops_keep_count(pool: PoolView, n: nat)
    requires
        pool.wf(),
        counted(pool),
        n <= extras(pool.running).len(),
    ensures
        counted(pool.after_stops(n)),
    decreases n,
{
    if n > 0 {
        lemma_last_extra_exists(pool.running);
        let id = last_extra(pool.running);
        let next = pool.requeue(id);
        pool.lemma_requeue(id);
        assert(next.running.dom() =~= pool.running.dom().remove(id));
        lemma_stops_keep_count(next, (n - 1) as nat);
    }
}

/// Where no solver waits while it is compiled, starting waiting solvers keeps the count of cores in
/// use.
proof fn lemma_starts_keep_count(pool: PoolView, n: nat)
    requires
        pool.wf(),
        one_place_each(pool),
        counted(pool),
        n <= pool.queue.dom().len(),
    ensures
        counted(pool.after_starts(n)),
    decreases n,
{
    if n > 0 {
        lemma_least_key_exists(pool.queue);
        let p = least_key(pool.queue);
        let next = pool.start_extra(p);
        assert(pool.queue.contains_key(p));
        pool.lemma_start_extra(p);
        lemma_after_starts(pool, 1);
        assert(pool.after_starts(1) == next) by {
            reveal_with_fuel(PoolView::after_starts, 2);
        }
        assert(next.running.dom() =~= pool.running.dom().insert(pool.queue[p]));
        lemma_starts_keep_count(next, (n - 1) as nat);
    }
}

/// Taking work keeps the cores in use as many as compilations run, and starts no solver that still
/// waits.
pub proof fn law_work_keeps_count(state: compilation_scheduler::StateView)
    requires
        state.pool.wf(),
        one_place_each(state.pool),
        counted(state.pool),
    ensures
        counted(state.after_work().pool),
        one_place_each(state.after_work().pool),
{
    let n = state.pool.stop_count(!state.enabled);
    lemma_round(state.pool, !state.enabled);
    lemma_after_stops(state.pool, n);
    lemma_stops_keep_count(state.pool, n);
    if state.enabled {
        let trimmed = state.trimmed();
        lemma_after_starts(trimmed, trimmed.start_count());
        lemma_starts_keep_count(trimmed, trimmed.start_count());
    }
}

/// The main compilations that have not started are of solvers that differ, of which none is compiled
/// or waits in the queue.
pub open spec fn unstarted_apart(state: compilation_core_manager::StateView) -> bool {
    &&& forall|i: int, j: int|
        0 <= i < j < state.unstarted.len() ==> (#[trigger] state.unstarted[i]).0 != (
        #[trigger] state.unstarted[j]).0
    &&& forall|i: int|
        0 <= i < state.unstarted.len() ==> !state.pool.running.contains_key(
            (#[trigger] state.unstarted[i]).0,
        )
    &&& forall|i: int, p: u64|
        0 <= i < state.unstarted.len() && #[trigger] state.pool.queue.contains_key(p)
            ==> state.pool.queue[p] != (#[trigger] state.unstarted[i]).0
}

/// Starting the first `n` main compilations keeps the count of cores in use, and adds their solvers
/// and no others to those that are compiled.
proof fn lemma_mains_keep_count(state: compilation_core_manager::StateView, n: int)
    requires
        state.pool.running.dom().finite(),
        counted(state.pool),
        unstarted_apart(state),
        0 <= n <= state.unstarted.len(),
    ensures
        ({
            let pool = start_mains(state.pool, state.unstarted.take(n));
            &&& pool.running.dom().finite()
            &&& counted(pool)
            &&& pool.queue == state.pool.queue
            &&& forall|id: Seq<char>| #[trigger]
                pool.running.contains_key(id) ==> state.pool.running.contains_key(id) || exists|
                    i: int,
                | 0 <= i < n && (#[trigger] state.unstarted[i]).0 == id
        }),
    decreases n,
{
    let pool = start_mains(state.pool, state.unstarted.take(n));
    if n == 0 {
        assert(state.unstarted.take(0) =~= Seq::empty());
    } else {
        lemma_mains_keep_count(state, n - 1);
        let head = state.unstarted.take(n);
        let before = start_mains(
            state.pool,
            state.unstarted.take(n - 1),
        );
        assert(head.drop_last() =~= state.unstarted.take(n - 1));
        let (id, main) = state.unstarted[n - 1];
        assert(head.last() == (id, main));
        assert(pool == before.start_main(id, main));
        assert(!before.running.contains_key(id)) by {
            if before.running.contains_key(id) {
                assert(!state.pool.running.contains_key(state.unstarted[n - 1].0));
                let i = choose|i: int| 0 <= i < n - 1 && (#[trigger] state.unstarted[i]).0 == id;
                assert(state.unstarted[i].0 != state.unstarted[n - 1].0);
            }
        }
        assert(pool.running.dom() =~= before.running.dom().insert(id));
        assert forall|x: Seq<char>| #[trigger] pool.running.contains_key(x) implies state.pool.running.contains_key(
            x) || exists|i: int| 0 <= i < n && (#[trigger] state.unstarted[i]).0 == x by {
            if x == id {
                assert(state.unstarted[n - 1].0 == x);
            } else {
                assert(before.running.contains_key(x));
                if !state.pool.running.contains_key(x) {
                    let i = choose|i: int|
                        0 <= i < n - 1 && (#[trigger] state.unstarted[i]).0 == x;
                    assert(0 <= i < n && state.unstarted[i].0 == x);
                }
            }
        }
    }
}

/// Where main compilations wait until work is taken, too, taking it keeps the cores in use as many
/// as compilations run, and starts no solver that still waits.
pub proof fn law_deferred_work_keeps_count(state: compilation_core_manager::StateView)
    requires
        state.wf(),
        one_place_each(state.pool),
        unstarted_apart(state),
        counted(state.pool),
    ensures
        counted(state.after_work().pool),
        one_place_each(state.after_work().pool),
{
    let count = state.unstarted.len() as int;
    assert(state.unstarted.take(count) =~= state.unstarted);
    compilation_core_manager::lemma_all_mains(state);
    lemma_mains_keep_count(state, count);
    let mains = state.all_mains();
    assert forall|p: u64| #[trigger] mains.queue.contains_key(p) implies !mains.running.contains_key(
        mains.queue[p],
    ) by {
        let id = mains.queue[p];
        assert(state.pool.queue.contains_key(p));
        if mains.running.contains_key(id) {
            let i = choose|i: int| 0 <= i < count && (#[trigger] state.unstarted[i]).0 == id;
            assert(state.pool.queue[p] != state.unstarted[i].0);
        }
    }
    assert forall|p: u64, q: u64|
        #![trigger mains.queue.contains_key(p), mains.queue.contains_key(q)]
        mains.queue.contains_key(p) && mains.queue.contains_key(q) && mains.queue[p]
            == mains.queue[q] implies p == q by {
        assert(state.pool.queue.contains_key(p) && state.pool.queue.contains_key(q));
    }
    lemma_round(mains, false);
    lemma_after_stops(mains, mains.stop_count(false));
    lemma_stops_keep_count(mains, mains.stop_count(false));
    lemma_after_starts(state.trimmed(), state.trimmed().start_count());
    lemma_starts_keep_count(state.trimmed(), state.trimmed().start_count());
}

/// Registering a main compilation makes that compilation a main one that brings the cores given and
/// counts one more core as used; no solver loses its place, every other compilation is as it was, and
/// extra compilations stay on or off.
pub proof fn law_register_makes_a_main(
    state: compilation_scheduler::StateView,
    solver: Seq<char>,
    cores: usize,
)
    ensures
        ({
            let next = state.register(solver, cores);
            &&& next.enabled == state.enabled
            &&& next.pool.used == state.pool.used + 1
            &&& next.pool.running.contains_key(solver)
            &&& next.pool.running[solver] matches RunningCompilation::Main(main) && main.cores
                == cores
            &&& next.pool.running.remove(solver) == state.pool.running.remove(solver)
            &&& forall|p: u64, id: Seq<char>| #[trigger]
                has_place(next.pool, p, id) <==> has_place(state.pool, p, id)
        }),
{
    law_promote_keeps_places(state.pool, solver, cores, 1);
    law_promote_changes_one_compilation(state.pool, solver, cores, 1);
    let next = state.register(solver, cores);
    assert(next.pool.running.remove(solver) =~= state.pool.running.remove(solver));
}

/// A list of work that names solvers tells of each whether it is started or stopped.
proof fn lemma_named_work(stopped: Seq<Seq<char>>, started: Seq<Seq<char>>, x: Seq<char>)
    ensures
        (compilation_scheduler::stops(stopped) + compilation_scheduler::starts(started)).contains(
            Work::Stop(x),
        ) <==> stopped.contains(x),
        (compilation_scheduler::stops(stopped) + compilation_scheduler::starts(started)).contains(
            Work::Start(x),
        ) <==> started.contains(x),
{
    let a = compilation_scheduler::stops(stopped);
    let b = compilation_scheduler::starts(started);
    let all = a + b;
    if stopped.contains(x) {
        let i = choose|i: int| 0 <= i < stopped.len() && stopped[i] == x;
        assert(all[i] == Work::Stop(x));
    }
    if started.contains(x) {
        let i = choose|i: int| 0 <= i < started.len() && started[i] == x;
        assert(all[a.len() + i] == Work::Start(x));
    }
    if all.contains(Work::Stop(x)) {
        let i = choose|i: int| 0 <= i < all.len() && all[i] == Work::Stop(x);
        if i < a.len() {
            assert(stopped[i] == x);
        } else {
            assert(b[i - a.len()] == Work::Start(started[i - a.len()]));
        }
    }
    if all.contains(Work::Start(x)) {
        let i = choose|i: int| 0 <= i < all.len() && all[i] == Work::Start(x);
        if i < a.len() {
            assert(a[i] == Work::Stop(stopped[i]));
        } else {
            assert(started[i - a.len()] == x);
        }
    }
}

/// What the stops and starts of one round do to the compilation of one solver.
proof fn lemma_round_difference(pool: PoolView, all: bool, x: Seq<char>)
    requires
        pool.wf(),
        one_place_each(pool),
    ensures
        ({
            let stopped = pool.stopped(pool.stop_count(all));
            let trimmed = pool.after_stops(pool.stop_count(all));
            let started = trimmed.started(trimmed.start_count());
            let after = trimmed.after_starts(trimmed.start_count());
            &&& stopped.contains(x) <==> pool.running.contains_key(x) && !trimmed.running.contains_key(
                x,
            )
            &&& stopped.contains(x) ==> pool.running[x] is Extra
            &&& trimmed.running.contains_key(x) ==> pool.running.contains_key(x)
            &&& started.contains(x) <==> !trimmed.running.contains_key(x)
                && after.running.contains_key(x)
            &&& started.contains(x) ==> after.running[x] is Extra
            &&& trimmed.running.contains_key(x) ==> after.running.contains_key(x)
            &&& !all && stopped.contains(x) ==> !started.contains(x)
        }),
{
    lemma_round(pool, all);
    let n = pool.stop_count(all);
    let trimmed = pool.after_stops(n);
    lemma_after_stops(pool, n);
    law_stopped_extras_wait_again(pool, n);
    law_started_extras_run(trimmed, trimmed.start_count());
    let started = trimmed.started(trimmed.start_count());
    if started.contains(x) {
        let p = choose|p: u64| #[trigger] trimmed.queue.contains_key(p) && trimmed.queue[p] == x;
        assert(trimmed.queue.contains_key(p));
    }
    if !all && pool.stopped(n).contains(x) {
        law_lowest_priority_stops_first(pool, n);
        assert(n > 0);
        assert(trimmed.start_count() == 0);
    }
}

/// The work is just the difference that it makes: it stops the compilations that run before and not
/// after, and starts those that run after and not before, where no solver has two places.
pub proof fn law_work_is_the_difference(
    state: compilation_scheduler::StateView,
    solver: Seq<char>,
)
    requires
        state.pool.wf(),
        one_place_each(state.pool),
    ensures
        ({
            let before = state.pool.running;
            let after = state.after_work().pool.running;
            &&& state.work().contains(Work::Stop(solver)) <==> before.contains_key(solver)
                && !after.contains_key(solver)
            &&& state.work().contains(Work::Start(solver)) <==> !before.contains_key(solver)
                && after.contains_key(solver)
            &&& state.work().contains(Work::Stop(solver)) ==> before[solver] is Extra
            &&& state.work().contains(Work::Start(solver)) ==> after[solver] is Extra
            &&& state.after_work().enabled == state.enabled
        }),
{
    lemma_round_difference(state.pool, !state.enabled, solver);
    let stopped = state.pool.stopped(state.pool.stop_count(!state.enabled));
    if state.enabled {
        let started = state.trimmed().started(state.trimmed().start_count());
        lemma_named_work(stopped, started, solver);
    } else {
        lemma_named_work(stopped, Seq::empty(), solver);
        assert(compilation_scheduler::stops(stopped) + compilation_scheduler::starts(Seq::empty())
            =~= compilation_scheduler::stops(stopped));
    }
}

/// Parting a list of work keeps each piece on its own side, and in the order of the list.
pub proof fn law_partition_keeps_sides(a: Seq<Work>, b: Seq<Work>, solver: Seq<char>)
    ensures
        compilation_scheduler::started_in(a + b) == compilation_scheduler::started_in(a)
            + compilation_scheduler::started_in(b),
        compilation_scheduler::stopped_in(a + b) == compilation_scheduler::stopped_in(a)
            + compilation_scheduler::stopped_in(b),
        compilation_scheduler::started_in(seq![Work::Start(solver)]) == seq![solver],
        compilation_scheduler::stopped_in(seq![Work::Start(solver)]) == Seq::<Seq<char>>::empty(),
        compilation_scheduler::started_in(seq![Work::Stop(solver)]) == Seq::<Seq<char>>::empty(),
        compilation_scheduler::stopped_in(seq![Work::Stop(solver)]) == seq![solver],
    decreases b.len(),
{
    let start = seq![Work::Start(solver)];
    let stop = seq![Work::Stop(solver)];
    reveal_with_fuel(compilation_scheduler::started_in, 2);
    reveal_with_fuel(compilation_scheduler::stopped_in, 2);
    assert(start.drop_last() =~= Seq::<Work>::empty());
    assert(stop.drop_last() =~= Seq::<Work>::empty());
    assert(Seq::<Seq<char>>::empty().push(solver) =~= seq![solver]);
    if b.len() == 0 {
        assert(a + b =~= a);
    } else {
        law_partition_keeps_sides(a, b.drop_last(), solver);
        assert((a + b).drop_last() =~= a + b.drop_last());
    }
}

/// Whether `id` has the priority `p`, be it in the queue, while it runs, or until its main compilation
/// starts.
pub open spec fn has_deferred_place(
    state: compilation_core_manager::StateView,
    p: u64,
    id: Seq<char>,
) -> bool {
    ||| has_place(state.pool, p, id)
    ||| exists|i: int|
        0 <= i < state.unstarted.len() && (#[trigger] state.unstarted[i]).0 == id
            && state.unstarted[i].1.priority == Some(Priority(p))
}

/// Where main compilations wait until work is taken, registering one makes a compilation that runs a
/// main one at once, and puts any other behind those that wait to start, with the cores given. It
/// starts nothing, counts no core as used, and loses no solver's place.
pub proof fn law_deferred_register_waits(
    state: compilation_core_manager::StateView,
    solver: Seq<char>,
    cores: usize,
)
    ensures
        ({
            let next = state.register(solver, cores);
            let runs = state.pool.running.contains_key(solver);
            &&& next.pool.used == state.pool.used
            &&& next.pool.running.remove(solver) == state.pool.running.remove(solver)
            &&& next.pool.running.contains_key(solver) == runs
            &&& runs ==> next.unstarted == state.unstarted && (
            next.pool.running[solver] matches RunningCompilation::Main(main) && main.cores == cores)
            &&& !runs ==> next.unstarted.drop_last() == state.unstarted && next.unstarted.len()
                == state.unstarted.len() + 1 && next.unstarted.last().0 == solver
                && next.unstarted.last().1.cores == cores
            &&& forall|p: u64, id: Seq<char>| #[trigger]
                has_deferred_place(next, p, id) <==> has_deferred_place(state, p, id)
        }),
{
    let next = state.register(solver, cores);
    assert(next.pool.running.remove(solver) =~= state.pool.running.remove(solver));
    if state.pool.running.contains_key(solver) {
        law_promote_keeps_places(state.pool, solver, cores, 0);
        law_promote_changes_one_compilation(state.pool, solver, cores, 0);
    } else {
        let old_len = state.unstarted.len() as int;
        assert(next.unstarted.drop_last() =~= state.unstarted);
        if exists|q: u64| super::priority::is_least_of(state.pool.queue, solver, q) {
            let q = choose|q: u64| super::priority::is_least_of(state.pool.queue, solver, q);
            assert(super::priority::is_least_of(state.pool.queue, solver, q));
        }
        assert forall|p: u64, id: Seq<char>| #[trigger]
            has_deferred_place(next, p, id) <==> has_deferred_place(state, p, id) by {
            if has_deferred_place(state, p, id) && !has_place(state.pool, p, id) {
                let i = choose|i: int|
                    0 <= i < old_len && (#[trigger] state.unstarted[i]).0 == id
                        && state.unstarted[i].1.priority == Some(Priority(p));
                assert(next.unstarted[i] == state.unstarted[i]);
            }
            if has_deferred_place(next, p, id) && !has_place(next.pool, p, id) {
                let i = choose|i: int|
                    0 <= i < next.unstarted.len() && (#[trigger] next.unstarted[i]).0 == id
                        && next.unstarted[i].1.priority == Some(Priority(p));
                if i < old_len {
                    assert(state.unstarted[i] == next.unstarted[i]);
                }
            }
            if has_place(state.pool, p, id) && !has_place(next.pool, p, id) {
                assert(next.unstarted[old_len].0 == id);
            }
        }
    }
}

/// Once the main compilations have started that waited, each runs as it was asked for, every other
/// compilation is as it was, and the queue is, too.
proof fn lemma_all_mains_run(state: compilation_core_manager::StateView, n: int)
    requires
        unstarted_apart(state),
        0 <= n <= state.unstarted.len(),
    ensures
        ({
            let pool = start_mains(state.pool, state.unstarted.take(n));
            &&& pool.queue == state.pool.queue
            &&& forall|i: int|
                0 <= i < n ==> pool.running.contains_key((#[trigger] state.unstarted[i]).0)
                    && pool.running[state.unstarted[i].0] == RunningCompilation::Main(
                    state.unstarted[i].1,
                )
            &&& forall|x: Seq<char>| #[trigger]
                state.pool.running.contains_key(x) ==> pool.running.contains_key(x)
                    && pool.running[x] == state.pool.running[x]
            &&& forall|x: Seq<char>| #[trigger]
                pool.running.contains_key(x) && !state.pool.running.contains_key(x) ==> exists|
                    i: int,
                | 0 <= i < n && (#[trigger] state.unstarted[i]).0 == x
        }),
    decreases n,
{
    let pool = start_mains(state.pool, state.unstarted.take(n));
    if n == 0 {
        assert(state.unstarted.take(0) =~= Seq::empty());
    } else {
        lemma_all_mains_run(state, n - 1);
        let head = state.unstarted.take(n);
        let before = start_mains(state.pool, state.unstarted.take(n - 1));
        assert(head.drop_last() =~= state.unstarted.take(n - 1));
        let (id, main) = state.unstarted[n - 1];
        assert(head.last() == (id, main));
        assert(pool == before.start_main(id, main));
        assert forall|i: int| 0 <= i < n implies pool.running.contains_key(
            (#[trigger] state.unstarted[i]).0,
        ) && pool.running[state.unstarted[i].0] == RunningCompilation::Main(
            state.unstarted[i].1,
        ) by {
            if i < n - 1 {
                assert(state.unstarted[i].0 != state.unstarted[n - 1].0);
            }
        }
        assert forall|x: Seq<char>| #[trigger] state.pool.running.contains_key(x) implies pool.running.contains_key(
            x,
        ) && pool.running[x] == state.pool.running[x] by {
            assert(!state.pool.running.contains_key(state.unstarted[n - 1].0));
            assert(before.running.contains_key(x));
        }
        assert forall|x: Seq<char>| #[trigger]
            pool.running.contains_key(x) && !state.pool.running.contains_key(x) implies exists|
            i: int,
        | 0 <= i < n && (#[trigger] state.unstarted[i]).0 == x by {
            if x == id {
                assert(state.unstarted[n - 1].0 == x);
            } else {
                assert(before.running.contains_key(x));
                let i = choose|i: int| 0 <= i < n - 1 && (#[trigger] state.unstarted[i]).0 == x;
                assert(0 <= i < n && state.unstarted[i].0 == x);
            }
        }
    }
}

/// The pool with all main compilations started, where their solvers neither ran nor waited.
proof fn lemma_mains_apart(state: compilation_core_manager::StateView)
    requires
        state.wf(),
        one_place_each(state.pool),
        unstarted_apart(state),
    ensures
        one_place_each(state.all_mains()),
        state.all_mains().wf(),
{
    let count = state.unstarted.len() as int;
    let mains = state.all_mains();
    assert(state.unstarted.take(count) =~= state.unstarted);
    compilation_core_manager::lemma_all_mains(state);
    lemma_all_mains_run(state, count);
    assert forall|p: u64| #[trigger] mains.queue.contains_key(p) implies !mains.running.contains_key(
        mains.queue[p],
    ) by {
        let id = mains.queue[p];
        assert(state.pool.queue.contains_key(p));
        if mains.running.contains_key(id) {
            let i = choose|i: int| 0 <= i < count && (#[trigger] state.unstarted[i]).0 == id;
            assert(state.pool.queue[p] != state.unstarted[i].0);
        }
    }
    assert forall|p: u64, q: u64|
        #![trigger mains.queue.contains_key(p), mains.queue.contains_key(q)]
        mains.queue.contains_key(p) && mains.queue.contains_key(q) && mains.queue[p]
            == mains.queue[q] implies p == q by {
        assert(state.pool.queue.contains_key(p) && state.pool.queue.contains_key(q));
    }
}

/// Where main compilations wait until work is taken, the work starts them first, in the order in which
/// they were asked for, and each of them runs from then on with the cores and the place that it was
/// registered with.
pub proof fn law_deferred_work_starts_mains_first(
    state: compilation_core_manager::StateView,
    i: int,
)
    requires
        state.wf(),
        one_place_each(state.pool),
        unstarted_apart(state),
        0 <= i < state.unstarted.len(),
    ensures
        state.work().len() >= state.unstarted.len(),
        state.work()[i] == Work::Start(state.unstarted[i].0),
        state.after_work().unstarted == Seq::<(Seq<char>, MainCompilation)>::empty(),
        state.after_work().pool.running.contains_key(state.unstarted[i].0),
        state.after_work().pool.running[state.unstarted[i].0] == RunningCompilation::Main(
            state.unstarted[i].1,
        ),
{
    let count = state.unstarted.len() as int;
    let mains = state.all_mains();
    let solver = state.unstarted[i].0;
    assert(state.unstarted.take(count) =~= state.unstarted);
    lemma_mains_apart(state);
    lemma_all_mains_run(state, count);
    lemma_round(mains, false);
    assert(mains.running[solver] is Main);
    assert(!main_waits(mains, solver)) by {
        if main_waits(mains, solver) {
            let p = choose|p: u64| #[trigger]
                mains.queue.contains_key(p) && mains.queue[p] == solver;
            assert(!mains.running.contains_key(mains.queue[p]));
        }
    }
    lemma_stops_spare_main(mains, mains.stop_count(false), solver);
    lemma_starts_spare_main(state.trimmed(), state.trimmed().start_count(), solver);
}

/// Where main compilations wait until work is taken, too, the work is just the difference that it
/// makes.
pub proof fn law_deferred_work_is_the_difference(
    state: compilation_core_manager::StateView,
    solver: Seq<char>,
)
    requires
        state.wf(),
        one_place_each(state.pool),
        unstarted_apart(state),
    ensures
        ({
            let before = state.pool.running;
            let after = state.after_work().pool.running;
            &&& state.work().contains(Work::Stop(solver)) <==> before.contains_key(solver)
                && !after.contains_key(solver)
            &&& state.work().contains(Work::Start(solver)) <==> !before.contains_key(solver)
                && after.contains_key(solver)
            &&& state.work().contains(Work::Stop(solver)) ==> before[solver] is Extra
        }),
{
    let count = state.unstarted.len() as int;
    let mains = state.all_mains();
    assert(state.unstarted.take(count) =~= state.unstarted);
    lemma_mains_apart(state);
    lemma_all_mains_run(state, count);
    lemma_round_difference(mains, false, solver);
    let names = state.unstarted.map_values(|u: (Seq<char>, MainCompilation)| u.0);
    let first = compilation_scheduler::starts(names);
    let stopped = mains.stopped(mains.stop_count(false));
    let started = state.trimmed().started(state.trimmed().start_count());
    let rest = compilation_scheduler::stops(stopped) + compilation_scheduler::starts(started);
    let none = Seq::<Seq<char>>::empty();
    assert(state.work() =~= first + rest);
    lemma_named_work(stopped, started, solver);
    lemma_named_work(none, names, solver);
    assert(compilation_scheduler::stops(none) + first =~= first);
    assert forall|w: Work| #[trigger]
        state.work().contains(w) <==> first.contains(w) || rest.contains(w) by {
        if first.contains(w) {
            let i = choose|i: int| 0 <= i < first.len() && first[i] == w;
            assert(state.work()[i] == w);
        }
        if rest.contains(w) {
            let i = choose|i: int| 0 <= i < rest.len() && rest[i] == w;
            assert(state.work()[first.len() + i] == w);
        }
        if state.work().contains(w) {
            let i = choose|i: int| 0 <= i < state.work().len() && state.work()[i] == w;
            if i < first.len() {
                assert(first[i] == w);
            } else {
                assert(rest[i - first.len()] == w);
            }
        }
    }
    if names.contains(solver) {
        let i = choose|i: int| 0 <= i < names.len() && names[i] == solver;
        assert(state.unstarted[i].0 == solver);
        assert(mains.running[solver] is Main);
        assert(!state.pool.running.contains_key(state.unstarted[i].0));
    }
    if mains.running.contains_key(solver) && !state.pool.running.contains_key(solver) {
        let i = choose|i: int| 0 <= i < count && (#[trigger] state.unstarted[i]).0 == solver;
        assert(names[i] == solver);
    }
}

/// Where main compilations wait until work is taken, too, taking it loses no solver's place.
pub proof fn law_deferred_work_keeps_places(state: compilation_core_manager::StateView)
    requires
        state.wf(),
        one_place_each(state.pool),
        unstarted_apart(state),
    ensures
        forall|p: u64, id: Seq<char>| #[trigger]
            has_place(state.after_work().pool, p, id) <==> has_deferred_place(state, p, id),
{
    let count = state.unstarted.len() as int;
    let mains = state.all_mains();
    let trimmed = state.trimmed();
    assert(state.unstarted.take(count) =~= state.unstarted);
    lemma_mains_apart(state);
    lemma_all_mains_run(state, count);
    lemma_round(mains, false);
    lemma_after_stops(mains, mains.stop_count(false));
    lemma_after_starts(trimmed, trimmed.start_count());
    assert forall|p: u64, id: Seq<char>| #[trigger]
        has_place(state.after_work().pool, p, id) <==> has_deferred_place(state, p, id) by {
        assert(has_place(trimmed, p, id) <==> has_place(mains, p, id));
        assert(has_place(state.after_work().pool, p, id) <==> has_place(trimmed, p, id));
        if has_place(mains, p, id) && !has_place(state.pool, p, id) {
            let i = choose|i: int| 0 <= i < count && (#[trigger] state.unstarted[i]).0 == id;
            assert(state.unstarted[i].1.priority == Some(Priority(p)));
        }
        if has_deferred_place(state, p, id) && !has_place(state.pool, p, id) {
            let i = choose|i: int|
                0 <= i < count && (#[trigger] state.unstarted[i]).0 == id
                    && state.unstarted[i].1.priority == Some(Priority(p));
            assert(mains.running[state.unstarted[i].0] == RunningCompilation::Main(
                state.unstarted[i].1,
            ));
        }
    }
}

/// Main compilations that have not started are started one after the other, each as it was asked for.
pub proof fn law_mains_start_one_by_one(
    pool: PoolView,
    a: Seq<(Seq<char>, MainCompilation)>,
    b: Seq<(Seq<char>, MainCompilation)>,
    solver: Seq<char>,
    main: MainCompilation,
)
    ensures
        start_mains(pool, a + b) == start_mains(start_mains(pool, a), b),
        start_mains(pool, Seq::empty()) == pool,
        start_mains(pool, seq![(solver, main)]) == (PoolView {
            running: pool.running.insert(solver, RunningCompilation::Main(main)),
            used: pool.used + 1,
            ..pool
        }),
    decreases b.len(),
{
    reveal_with_fuel(start_mains, 2);
    let one = seq![(solver, main)];
    assert(one.drop_last() =~= Seq::empty());
    assert(one.last() == (solver, main));
    if b.len() == 0 {
        assert(a + b =~= a);
    } else {
        law_mains_start_one_by_one(pool, a, b.drop_last(), solver, main);
        assert((a + b).drop_last() =~= a + b.drop_last());
    }
}

/// Where main compilations wait until work is taken, the work first starts each of them, in the order in
/// which they were asked for, then stops, then starts extra compilations, and nothing waits to start when
/// it is taken.
pub proof fn law_deferred_work_comes_in_order(state: compilation_core_manager::StateView)
    ensures
        state.work().len() >= state.unstarted.len(),
        forall|i: int|
            0 <= i < state.unstarted.len() ==> #[trigger] state.work()[i] == Work::Start(
                state.unstarted[i].0,
            ),
        forall|i: int, j: int|
            state.unstarted.len() <= i < j < state.work().len() && #[trigger] state.work()[i] is Start
                ==> #[trigger] state.work()[j] is Start,
        state.after_work().unstarted.len() == 0,
{
}

/// A main compilation is one that was asked for and has not ended: asking for one makes its solver a main
/// one and no other, and the end of one leaves its solver a main one just where another waits to start.
pub proof fn law_mains_are_asked_for_and_not_ended(
    state: compilation_core_manager::StateView,
    solver: Seq<char>,
    cores: usize,
    other: Seq<char>,
)
    ensures
        state.register(solver, cores).is_main(other) <==> state.is_main(other) || other == solver,
        ({
            let finished = compilation_core_manager::StateView {
                pool: state.pool.finish(solver),
                ..state
            };
            let released = compilation_core_manager::StateView {
                pool: state.pool.release(solver),
                ..state
            };
            let waits_to_start = exists|i: int|
                0 <= i < state.unstarted.len() && #[trigger] state.unstarted[i].0 == solver;
            &&& finished.is_main(solver) <==> waits_to_start
            &&& released.is_main(solver) <==> waits_to_start
            &&& other != solver ==> finished.is_main(other) == state.is_main(other)
            &&& other != solver ==> released.is_main(other) == state.is_main(other)
        }),
{
    let next = state.register(solver, cores);
    let finished = compilation_core_manager::StateView {
        pool: state.pool.finish(solver),
        ..state
    };
    let released = compilation_core_manager::StateView {
        pool: state.pool.release(solver),
        ..state
    };
    assert(finished.unstarted == state.unstarted && released.unstarted == state.unstarted);
    assert(!finished.pool.running.contains_key(solver));
    assert(!released.pool.running.contains_key(solver));
    assert(other != solver ==> finished.pool.running.contains_key(other)
        == state.pool.running.contains_key(other));
    assert(other != solver ==> released.pool.running.contains_key(other)
        == state.pool.running.contains_key(other));
    if !state.pool.running.contains_key(solver) {
        let n = state.unstarted.len() as int;
        assert(next.unstarted[n].0 == solver);
        if exists|i: int| 0 <= i < n && #[trigger] state.unstarted[i].0 == other {
            let i = choose|i: int| 0 <= i < n && #[trigger] state.unstarted[i].0 == other;
            assert(next.unstarted[i].0 == other);
        }
        if exists|i: int| 0 <= i < next.unstarted.len() && #[trigger] next.unstarted[i].0 == other {
            let i = choose|i: int|
                0 <= i < next.unstarted.len() && #[trigger] next.unstarted[i].0 == other;
            if i < n {
                assert(state.unstarted[i].0 == other);
            }
        }
        assert(next.is_main(other) <==> state.is_main(other) || other == solver);
    } else {
        assert(next.unstarted == state.unstarted);
        assert(next.pool.running.contains_key(solver) && next.pool.running[solver] is Main);
        assert(other != solver ==> next.pool.running.contains_key(other)
            == state.pool.running.contains_key(other));
        assert(next.is_main(other) <==> state.is_main(other) || other == solver);
    }
}

/// A list of work is seen whole: what each piece starts or stops, in order.
pub proof fn law_work_is_seen_whole(work: Seq<CompilationWork>, i: int)
    requires
        0 <= i < work.len(),
    ensures
        compilation_scheduler::works(work).len() == work.len(),
        match work[i] {
            CompilationWork::Start(id) => compilation_scheduler::works(work)[i] == Work::Start(id@),
            CompilationWork::Stop(id) => compilation_scheduler::works(work)[i] == Work::Stop(id@),
        },
{
}

/// The main compilations that have not started are seen whole, in order.
pub proof fn law_unstarted_are_seen_whole(unstarted: Seq<(SolverId, MainCompilation)>, i: int)
    requires
        0 <= i < unstarted.len(),
    ensures
        compilation_core_manager::unstarted_view(unstarted).len() == unstarted.len(),
        compilation_core_manager::unstarted_view(unstarted)[i].0 == unstarted[i].0@,
        compilation_core_manager::unstarted_view(unstarted)[i].1 == unstarted[i].1,
{
}

} // verus!
