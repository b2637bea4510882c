//! Which compilations run at a time, when main compilations are started as soon as they are asked
//! for and extra compilations can be switched off.
use super::pool::{ids, CompilationPool, CompilationWork, Cores, PoolView, Work};
use super::priority::{SolverId, SolverPriority};
use vstd::prelude::*;

verus! {

/// The scheduler's state as a mathematical value.
pub struct StateView {
    pub pool: PoolView,
    /// Whether extra compilations may run.
    pub enabled: bool,
}

/// Work that stops the given solvers, in order.
pub open spec fn stops(solvers: Seq<Seq<char>>) -> Seq<Work> {
    solvers.map_values(|id: Seq<char>| Work::Stop(id))
}

/// Work that starts the given solvers, in order.
pub open spec fn starts(solvers: Seq<Seq<char>>) -> Seq<Work> {
    solvers.map_values(|id: Seq<char>| Work::Start(id))
}

/// A list of work as plain values.
pub open spec fn works(work: Seq<CompilationWork>) -> Seq<Work> {
    work.map_values(|w: CompilationWork| w@)
}

impl StateView {
    /// The state once a main compilation of `solver` that brings `cores` was started.
    pub open spec fn register(self, solver: Seq<char>, cores: Cores) -> StateView {
        StateView { pool: self.pool.promote(solver, cores, 1), ..self }
    }

    /// The pool once the extra compilations that must not run are back in the queue.
    pub open spec fn trimmed(self) -> PoolView {
        self.pool.after_stops(self.pool.stop_count(!self.enabled))
    }

    /// The work that brings the extra compilations in line with the cores: the compilations that
    /// must not run are stopped, then waiting solvers take the cores that are free.
    pub open spec fn work(self) -> Seq<Work> {
        let stopped = stops(self.pool.stopped(self.pool.stop_count(!self.enabled)));
        if self.enabled {
            stopped + starts(self.trimmed().started(self.trimmed().start_count()))
        } else {
            stopped
        }
    }

    /// The state once that work was taken on.
    pub open spec fn after_work(self) -> StateView {
        StateView {
            pool: if self.enabled {
                self.trimmed().after_starts(self.trimmed().start_count())
            } else {
                self.trimmed()
            },
            ..self
        }
    }
}

/// The compilations that are known to a scheduler.
///
/// Not thread-safe.
#[derive(Debug)]
pub struct State {
    pool: CompilationPool,
    is_enabled: bool,
}

impl View for State {
    type V = StateView;

    closed spec fn view(&self) -> StateView {
        StateView { pool: self.pool@, enabled: self.is_enabled }
    }
}

impl State {
    /// The compilations and the cores are in order.
    pub closed spec fn wf(&self) -> bool {
        self.pool.wf()
    }

    /// What order means for the state's view.
    pub proof fn lemma_wf(&self)
        requires
            self.wf(),
        ensures
            self@.pool.wf(),
            0 <= self@.pool.available <= usize::MAX,
            0 <= self@.pool.used <= usize::MAX,
    {
        self.pool.lemma_wf();
    }

    /// A state in which nothing runs and the solvers of `priority` wait.
    pub fn from_vec(priority: SolverPriority) -> (r: Self)
        ensures
            r.wf(),
            r@ == (StateView {
                pool: PoolView {
                    queue: priority@,
                    running: Map::empty(),
                    available: 0,
                    used: 0,
                },
                enabled: true,
            }),
    {
        State { pool: CompilationPool::new(priority), is_enabled: true }
    }

    /// The cores that compilations may take up.
    pub fn available_cores(&self) -> (r: Cores)
        ensures
            r == self@.pool.available,
    {
        self.pool.available_cores()
    }

    /// The cores that compilations are taken to use.
    pub fn used_cores(&self) -> (r: Cores)
        ensures
            r == self@.pool.used,
    {
        self.pool.used_cores()
    }

    /// Takes in that the compilation of `solver` was started as a main one that brings `cores`.
    ///
    /// Its core is counted as used even where the solver was being compiled before.
    pub fn register_main_compilation(&mut self, solver: SolverId, cores: Cores)
        requires
            old(self).wf(),
            old(self)@.pool.available + cores <= usize::MAX,
            old(self)@.pool.used < usize::MAX,
        ensures
            final(self).wf(),
            final(self)@ == old(self)@.register(solver@, cores),
    {
        self.pool.promote(solver, cores, 1);
    }

    /// Takes in that a main compilation of `solver` is asked for, and tells whether it has to be
    /// started: one that is done already is left alone.
    pub fn request_main_compilation(&mut self, solver: &SolverId, cores: Cores, done: bool) -> (r:
        bool)
        requires
            old(self).wf(),
            !done ==> old(self)@.pool.available + cores <= usize::MAX,
            !done ==> old(self)@.pool.used < usize::MAX,
        ensures
            final(self).wf(),
            r == !done,
            final(self)@ == if done {
                old(self)@
            } else {
                old(self)@.register(solver@, cores)
            },
    {
        if done {
            return false;
        }
        self.register_main_compilation(solver.clone(), cores);
        true
    }

    /// Decides which extra compilations to stop and to start.
    ///
    /// Assumes that the work is performed after this call.
    #[must_use]
    pub fn take_compilation_work(&mut self) -> (r: Vec<CompilationWork>)
        requires
            old(self).wf(),
        ensures
            final(self).wf(),
            works(r@) == old(self)@.work(),
            final(self)@ == old(self)@.after_work(),
    {
        let ghost before = self@;
        let mut work: Vec<CompilationWork> = Vec::new();
        let stopped = self.pool.stop_extras(!self.is_enabled);
        push_work(&mut work, stopped, false);
        if self.is_enabled {
            let started = self.pool.start_extras();
            push_work(&mut work, started, true);
        }
        proof {
            let empty = Seq::<CompilationWork>::empty();
            assert(works(empty) =~= Seq::<Work>::empty());
            assert(works(work@) =~= before.work());
        }
        work
    }

    /// Takes in that the compilation of `solver` is over.
    pub fn compilation_finished(&mut self, solver: &SolverId)
        requires
            old(self).wf(),
        ensures
            final(self).wf(),
            final(self)@ == (StateView { pool: old(self)@.pool.finish(solver@), ..old(self)@ }),
    {
        self.pool.finish(solver);
    }

    /// Takes in that the compilation of `solver` was broken off.
    pub fn compilation_stopped(&mut self, solver: &SolverId)
        requires
            old(self).wf(),
        ensures
            final(self).wf(),
            final(self)@ == (StateView { pool: old(self)@.pool.release(solver@), ..old(self)@ }),
    {
        self.pool.release(solver);
    }

    /// Takes in how the wait for a compilation ended, and tells whether new work may have come up:
    /// after one that was broken off there is nothing to look for, after any other there is.
    pub fn compilation_ended(&mut self, solver: &SolverId, cancelled: bool) -> (r: bool)
        requires
            old(self).wf(),
        ensures
            final(self).wf(),
            r == !cancelled,
            final(self)@ == (StateView {
                pool: if cancelled {
                    old(self)@.pool.release(solver@)
                } else {
                    old(self)@.pool.finish(solver@)
                },
                ..old(self)@
            }),
    {
        if cancelled {
            self.compilation_stopped(solver);
            false
        } else {
            self.compilation_finished(solver);
            true
        }
    }

    /// The solvers whose main compilations run, except those listed.
    pub fn get_main_compilations_except(&self, exception_solvers: &Vec<SolverId>) -> (r: Vec<
        SolverId,
    >)
        requires
            self.wf(),
        ensures
            ids(r@).no_duplicates(),
            forall|id: Seq<char>| #[trigger]
                ids(r@).contains(id) <==> self@.pool.running.contains_key(id)
                    && self@.pool.running[id] is Main && !ids(exception_solvers@).contains(id),
    {
        self.pool.mains_except(exception_solvers)
    }

    /// Switches extra compilations off.
    pub fn disable(&mut self)
        ensures
            final(self).wf() == old(self).wf(),
            final(self)@ == (StateView { enabled: false, ..old(self)@ }),
    {
        self.is_enabled = false;
    }
}

/// Adds one piece of work for each of the given solvers.
pub(crate) fn push_work(work: &mut Vec<CompilationWork>, solvers: Vec<SolverId>, start: bool)
    ensures
        works(final(work)@) == works(old(work)@) + if start {
            starts(ids(solvers@))
        } else {
            stops(ids(solvers@))
        },
{
    let ghost before = works(work@);
    let ghost target = if start {
        starts(ids(solvers@))
    } else {
        stops(ids(solvers@))
    };
    let mut i: usize = 0;
    while i < solvers.len()
        invariant
            i <= solvers@.len(),
            target == if start {
                starts(ids(solvers@))
            } else {
                stops(ids(solvers@))
            },
            works(work@) == before + target.take(i as int),
        decreases solvers@.len() - i,
    {
        let id = solvers[i].clone();
        let ghost so_far = work@;
        let item = if start {
            CompilationWork::Start(id)
        } else {
            CompilationWork::Stop(id)
        };
        proof {
            assert(works(so_far.push(item)) =~= works(so_far).push(item@));
            assert(target[i as int] == item@);
            assert(before + target.take(i + 1) =~= (before + target.take(i as int)).push(item@));
        }
        work.push(item);
        i += 1;
    }
    assert(target.take(i as int) =~= target);
}

/// The solvers that a list of work starts.
pub open spec fn started_in(work: Seq<Work>) -> Seq<Seq<char>>
    decreases work.len(),
{
    if work.len() == 0 {
        Seq::empty()
    } else {
        match work.last() {
            Work::Start(id) => started_in(work.drop_last()).push(id),
            Work::Stop(_) => started_in(work.drop_last()),
        }
    }
}

/// The solvers that a list of work stops.
pub open spec fn stopped_in(work: Seq<Work>) -> Seq<Seq<char>>
    decreases work.len(),
{
    if work.len() == 0 {
        Seq::empty()
    } else {
        match work.last() {
            Work::Start(_) => stopped_in(work.drop_last()),
            Work::Stop(id) => stopped_in(work.drop_last()).push(id),
        }
    }
}

/// Parts a list of work into the solvers to start and the solvers to stop, each in order.
pub fn partition_work(work: Vec<CompilationWork>) -> (r: (Vec<SolverId>, Vec<SolverId>))
    ensures
        ids(r.0@) == started_in(works(work@)),
        ids(r.1@) == stopped_in(works(work@)),
{
    let mut to_start: Vec<SolverId> = Vec::new();
    let mut to_stop: Vec<SolverId> = Vec::new();
    let ghost all = works(work@);
    let mut i: usize = 0;
    assert(ids(to_start@) =~= Seq::<Seq<char>>::empty());
    assert(ids(to_stop@) =~= Seq::<Seq<char>>::empty());
    while i < work.len()
        invariant
            i <= work@.len(),
            all == works(work@),
            ids(to_start@) == started_in(all.take(i as int)),
            ids(to_stop@) == stopped_in(all.take(i as int)),
        decreases work@.len() - i,
    {
        proof {
            assert(all.take(i + 1).drop_last() =~= all.take(i as int));
            assert(all.take(i + 1).last() == work@[i as int]@);
        }
        match &work[i] {
            CompilationWork::Start(id) => {
                let id = id.clone();
                assert(ids(to_start@.push(id)) =~= ids(to_start@).push(id@));
                to_start.push(id);
            },
            CompilationWork::Stop(id) => {
                let id = id.clone();
                assert(ids(to_stop@.push(id)) =~= ids(to_stop@).push(id@));
                to_stop.push(id);
            },
        }
        i += 1;
    }
    assert(all.take(i as int) =~= all);
    (to_start, to_stop)
}

} // verus!
