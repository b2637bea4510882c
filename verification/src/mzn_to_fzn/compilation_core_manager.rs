//! Which compilations run at a time, when main compilations wait until the next work is taken.
use super::compilation_manager::Error;
use super::compilation_scheduler::{push_work, starts, stops, works};
use super::pool::{
    ids, lemma_main_cores_insert, lemma_push, lists, main_cores, place_of, CompilationPool,
    CompilationWork, Cores, MainCompilation, PoolView, RunningCompilation, Work,
};
use super::priority::{SolverId, SolverPriority};
use vstd::prelude::*;

verus! {

/// The cores that main compilations that have not started bring.
pub open spec fn unstarted_cores(unstarted: Seq<(Seq<char>, MainCompilation)>) -> nat
    decreases unstarted.len(),
{
    if unstarted.len() == 0 {
        0
    } else {
        unstarted_cores(unstarted.drop_last()) + unstarted.last().1.cores as nat
    }
}

/// The manager's state as a mathematical value.
pub struct StateView {
    pub pool: PoolView,
    /// The main compilations that have not started, in the order in which they were asked for.
    pub unstarted: Seq<(Seq<char>, MainCompilation)>,
}

/// The pool once the given main compilations have started, one after the other.
pub open spec fn start_mains(
    pool: PoolView,
    unstarted: Seq<(Seq<char>, MainCompilation)>,
) -> PoolView
    decreases unstarted.len(),
{
    if unstarted.len() == 0 {
        pool
    } else {
        start_mains(pool, unstarted.drop_last()).start_main(
            unstarted.last().0,
            unstarted.last().1,
        )
    }
}

impl StateView {
    /// The state once a main compilation of `solver` that brings `cores` was asked for.
    ///
    /// One that runs becomes a main one at once. Any other gives up its place in the queue and
    /// waits to be started, even where it waits already.
    pub open spec fn register(self, solver: Seq<char>, cores: Cores) -> StateView {
        if self.pool.running.contains_key(solver) {
            StateView { pool: self.pool.promote(solver, cores, 0), ..self }
        } else {
            let priority = place_of(self.pool.queue, solver);
            StateView {
                pool: self.pool.defer(solver, cores),
                unstarted: self.unstarted.push((solver, MainCompilation { cores, priority })),
            }
        }
    }

    /// The pool once every main compilation has started.
    pub open spec fn all_mains(self) -> PoolView {
        start_mains(self.pool, self.unstarted)
    }

    /// The pool once the extra compilations that are too many are back in the queue.
    pub open spec fn trimmed(self) -> PoolView {
        self.all_mains().after_stops(self.all_mains().stop_count(false))
    }

    /// The work to be done: the main compilations are started, then extra compilations make way for
    /// them, then waiting solvers take the cores that are free.
    pub open spec fn work(self) -> Seq<Work> {
        starts(self.unstarted.map_values(|u: (Seq<char>, MainCompilation)| u.0)) + stops(
            self.all_mains().stopped(self.all_mains().stop_count(false)),
        ) + starts(self.trimmed().started(self.trimmed().start_count()))
    }

    /// The state once that work was taken on.
    pub open spec fn after_work(self) -> StateView {
        StateView {
            pool: self.trimmed().after_starts(self.trimmed().start_count()),
            unstarted: Seq::empty(),
        }
    }

    /// Whether `solver` is compiled, or waits to be compiled, as a main compilation.
    pub open spec fn is_main(self, solver: Seq<char>) -> bool {
        ||| self.pool.running.contains_key(solver) && self.pool.running[solver] is Main
        ||| exists|i: int|
            0 <= i < self.unstarted.len() && #[trigger] self.unstarted[i].0 == solver
    }

    /// The pool is in order, all the main compilations together have brought no more cores than are
    /// available, and those that have not started share no priority with any other solver.
    pub open spec fn wf(self) -> bool {
        &&& self.pool.wf()
        &&& main_cores(self.pool.running) + unstarted_cores(self.unstarted) <= self.pool.available
        &&& forall|i: int|
            0 <= i < self.unstarted.len() ==> match (#[trigger] self.unstarted[i]).1.priority {
                Some(p) => {
                    &&& self.pool.is_free(p)
                    &&& forall|j: int|
                        0 <= j < self.unstarted.len() && j != i ==> (
                        #[trigger] self.unstarted[j]).1.priority != Some(p)
                },
                None => true,
            }
    }
}

/// The compilations that are known to a manager of cores.
///
/// Not thread-safe.
#[derive(Debug)]
pub struct State {
    unstarted_main_compilations: Vec<(SolverId, MainCompilation)>,
    pool: CompilationPool,
}

/// Main compilations that have not started, the solvers as plain text.
pub open spec fn unstarted_view(
    unstarted: Seq<(SolverId, MainCompilation)>,
) -> Seq<(Seq<char>, MainCompilation)> {
    unstarted.map_values(|u: (SolverId, MainCompilation)| (u.0@, u.1))
}

impl View for State {
    type V = StateView;

    closed spec fn view(&self) -> StateView {
        StateView {
            pool: self.pool@,
            unstarted: unstarted_view(self.unstarted_main_compilations@),
        }
    }
}

impl State {
    /// The compilations and the cores are in order.
    pub closed spec fn wf(&self) -> bool {
        self.pool.wf() && self@.wf()
    }

    /// What order means for the state's view.
    pub proof fn lemma_wf(&self)
        requires
            self.wf(),
        ensures
            self@.wf(),
            0 <= self@.pool.available <= usize::MAX,
            0 <= self@.pool.used <= usize::MAX,
    {
        self.pool.lemma_wf();
    }

    /// A state in which nothing runs and the solvers of `priority` wait.
    pub fn from_vec(priority: SolverPriority) -> (r: Self)
        ensures
            r.wf(),
            r@ == (StateView {
                pool: PoolView {
                    queue: priority@,
                    running: Map::empty(),
                    available: 0,
                    used: 0,
                },
                unstarted: Seq::empty(),
            }),
    {
        let r = State {
            unstarted_main_compilations: Vec::new(),
            pool: CompilationPool::new(priority),
        };
        proof {
            r.pool.lemma_wf();
            assert(r@.unstarted =~= Seq::empty());
        }
        r
    }

    /// Whether `solver` is compiled, or waits to be compiled, as a main compilation.
    pub fn is_main_compilation(&self, solver: &str) -> (r: bool)
        requires
            self.wf(),
        ensures
            r == self@.is_main(solver@),
    {
        let id = solver.to_owned();
        if let Some(RunningCompilation::Main(_)) = self.pool.compilation(&id) {
            return true;
        }
        let mut i: usize = 0;
        while i < self.unstarted_main_compilations.len()
            invariant
                i <= self.unstarted_main_compilations@.len(),
                id@ == solver@,
                forall|j: int| 0 <= j < i ==> #[trigger] self@.unstarted[j].0 != solver@,
            decreases self.unstarted_main_compilations@.len() - i,
        {
            if self.unstarted_main_compilations[i].0 == id {
                assert(self@.unstarted[i as int].0 == solver@);
                return true;
            }
            i += 1;
        }
        false
    }

    /// Whether the cores can still be counted once a main compilation of `solver` that brings
    /// `cores` is asked for.
    pub fn can_register(&self, solver: &SolverId, cores: Cores) -> (r: bool)
        requires
            self.wf(),
        ensures
            r == (self@.register(solver@, cores).pool.available <= usize::MAX && (
            self@.pool.running.contains_key(solver@) ==> (
            self@.pool.running[solver@] matches RunningCompilation::Main(main) ==> (cores
                <= isize::MAX <==> main.cores <= isize::MAX)))),
    {
        proof {
            self.pool.lemma_wf();
            self@.pool.lemma_finish(solver@);
        }
        let most = isize::MAX as usize;
        match self.pool.compilation(solver) {
            Some(RunningCompilation::Main(main)) => {
                let others = self.pool.available_cores() - main.cores;
                others <= usize::MAX - cores && (cores <= most) == (main.cores <= most)
            },
            _ => self.pool.available_cores() <= usize::MAX - cores,
        }
    }

    /// Whether the cores can still be counted once work is taken.
    pub fn can_take_work(&self) -> (r: bool)
        ensures
            r == (self@.pool.used + self@.unstarted.len() <= usize::MAX),
    {
        self.pool.used_cores() <= usize::MAX - self.unstarted_main_compilations.len()
    }

    /// Takes in that a main compilation of `solver` that brings `cores` is asked for.
    pub fn register_main_compilation(&mut self, solver: SolverId, cores: Cores)
        requires
            old(self).wf(),
            old(self)@.register(solver@, cores).pool.available <= usize::MAX,
            old(self)@.pool.running.contains_key(solver@) ==> (
            old(self)@.pool.running[solver@] matches RunningCompilation::Main(main) ==> (cores
                <= isize::MAX <==> main.cores <= isize::MAX)),
        ensures
            final(self).wf(),
            final(self)@ == old(self)@.register(solver@, cores),
    {
        proof {
            self@.lemma_register(solver@, cores);
            self.pool.lemma_wf();
        }
        let ghost before = self@;
        if self.pool.compilation(&solver).is_some() {
            self.pool.promote(solver, cores, 0);
        } else {
            let priority = self.pool.defer(&solver, cores);
            let ghost so_far = self.unstarted_main_compilations@;
            let ghost entry = (solver, MainCompilation { cores, priority });
            assert(unstarted_view(so_far.push(entry)) =~= unstarted_view(so_far).push(
                (solver@, MainCompilation { cores, priority }),
            ));
            self.unstarted_main_compilations.push((solver, MainCompilation::new(cores, priority)));
        }
    }

    /// Takes in that a main compilation of `solver` is asked for, and tells whether there may be
    /// work now: one that is done already is left alone.
    pub fn request_main_compilation(&mut self, solver: &SolverId, cores: Cores, done: bool) -> (r:
        bool)
        requires
            old(self).wf(),
            !done ==> old(self)@.register(solver@, cores).pool.available <= usize::MAX,
            !done && old(self)@.pool.running.contains_key(solver@) ==> (
            old(self)@.pool.running[solver@] matches RunningCompilation::Main(main) ==> (cores
                <= isize::MAX <==> main.cores <= isize::MAX)),
        ensures
            final(self).wf(),
            r == !done,
            final(self)@ == if done {
                old(self)@
            } else {
                old(self)@.register(solver@, cores)
            },
    {
        if done {
            return false;
        }
        self.register_main_compilation(solver.clone(), cores);
        true
    }

    /// Whether the compilation of `solver_name` may be waited for: only a main one may.
    pub fn check_wait<E>(&self, solver_name: &str) -> (r: Result<(), Error<E>>)
        requires
            self.wf(),
        ensures
            if self@.is_main(solver_name@) {
                r == Ok::<(), Error<E>>(())
            } else {
                r matches Err(Error::NotStarted(name)) && name@ == solver_name@
            },
    {
        if self.is_main_compilation(solver_name) {
            Ok(())
        } else {
            Err(Error::NotStarted(solver_name.to_owned()))
        }
    }

    /// Takes in how the wait for a compilation ended.
    pub fn compilation_ended(&mut self, solver: &SolverId, cancelled: bool)
        requires
            old(self).wf(),
        ensures
            final(self).wf(),
            final(self)@ == (StateView {
                pool: if cancelled {
                    old(self)@.pool.release(solver@)
                } else {
                    old(self)@.pool.finish(solver@)
                },
                ..old(self)@
            }),
    {
        if cancelled {
            self.compilation_stopped(solver);
        } else {
            self.compilation_finished(solver);
        }
    }

    /// Decides which compilations to start and which extra ones to stop.
    ///
    /// Assumes that the work is performed after this call.
    #[must_use]
    pub fn take_compilation_work(&mut self) -> (r: Vec<CompilationWork>)
        requires
            old(self).wf(),
            old(self)@.pool.used + old(self)@.unstarted.len() <= usize::MAX,
        ensures
            final(self).wf(),
            works(r@) == old(self)@.work(),
            final(self)@ == old(self)@.after_work(),
    {
        let ghost before = self@;
        let mut work: Vec<CompilationWork> = Vec::new();
        let mut mains: Vec<SolverId> = Vec::new();
        let mut unstarted: Vec<(SolverId, MainCompilation)> = Vec::new();
        unstarted.append(&mut self.unstarted_main_compilations);
        assert(unstarted_view(unstarted@) =~= before.unstarted);
        assert(ids(mains@) =~= Seq::<Seq<char>>::empty());
        let mut i: usize = 0;
        while i < unstarted.len()
            invariant
                i <= unstarted@.len(),
                before.wf(),
                unstarted_view(unstarted@) == before.unstarted,
                self.unstarted_main_compilations@ == Seq::<(SolverId, MainCompilation)>::empty(),
                self.pool.wf(),
                self.pool@ == start_mains(before.pool, before.unstarted.take(i as int)),
                before.pool.used + unstarted@.len() <= usize::MAX,
                ids(mains@) == before.unstarted.take(i as int).map_values(
                    |u: (Seq<char>, MainCompilation)| u.0,
                ),
            decreases unstarted@.len() - i,
        {
            let id = unstarted[i].0.clone();
            let main = unstarted[i].1;
            proof {
                let head = before.unstarted.take(i + 1);
                lemma_start_mains(before, i as int);
                assert(before.unstarted[i as int] == (id@, main));
                assert(head.drop_last() =~= before.unstarted.take(i as int));
                assert(head.last() == (id@, main));
                assert(ids(mains@.push(id)) =~= ids(mains@).push(id@));
                assert(head.map_values(|u: (Seq<char>, MainCompilation)| u.0)
                    =~= before.unstarted.take(i as int).map_values(
                    |u: (Seq<char>, MainCompilation)| u.0,
                ).push(id@));
            }
            mains.push(id.clone());
            self.pool.start_main(id, main);
            i += 1;
        }
        assert(before.unstarted.take(i as int) =~= before.unstarted);
        push_work(&mut work, mains, true);
        let stopped = self.pool.stop_extras(false);
        push_work(&mut work, stopped, false);
        let started = self.pool.start_extras();
        push_work(&mut work, started, true);
        proof {
            self.pool.lemma_wf();
            assert(works(Seq::<CompilationWork>::empty()) =~= Seq::<Work>::empty());
            assert(works(work@) =~= before.work());
            assert(self@.unstarted =~= Seq::empty());
        }
        work
    }

    /// Takes in that the compilation of `solver` is over.
    pub fn compilation_finished(&mut self, solver: &SolverId)
        requires
            old(self).wf(),
        ensures
            final(self).wf(),
            final(self)@ == (StateView { pool: old(self)@.pool.finish(solver@), ..old(self)@ }),
    {
        proof {
            self@.lemma_end(solver@);
        }
        self.pool.finish(solver);
    }

    /// Takes in that the compilation of `solver` was broken off.
    pub fn compilation_stopped(&mut self, solver: &SolverId)
        requires
            old(self).wf(),
        ensures
            final(self).wf(),
            final(self)@ == (StateView { pool: old(self)@.pool.release(solver@), ..old(self)@ }),
    {
        proof {
            self@.lemma_end(solver@);
        }
        self.pool.release(solver);
    }

    /// The solvers that are compiled, or wait to be compiled, as main compilations, except those
    /// listed.
    pub fn get_main_compilations_except(&self, exception_solvers: &Vec<SolverId>) -> (r: Vec<
        SolverId,
    >)
        requires
            self.wf(),
        ensures
            ids(r@).no_duplicates(),
            forall|id: Seq<char>| #[trigger]
                ids(r@).contains(id) <==> self@.is_main(id) && !ids(exception_solvers@).contains(
                    id,
                ),
    {
        let mut out = self.pool.mains_except(exception_solvers);
        let ghost unstarted = self@.unstarted;
        let ghost running = self@.pool.running;
        let mut i: usize = 0;
        while i < self.unstarted_main_compilations.len()
            invariant
                i <= self.unstarted_main_compilations@.len(),
                unstarted == unstarted_view(self.unstarted_main_compilations@),
                ids(out@).no_duplicates(),
                forall|id: Seq<char>| #[trigger]
                    ids(out@).contains(id) <==> ((running.contains_key(id) && running[id] is Main)
                        || exists|j: int| 0 <= j < i && #[trigger] unstarted[j].0 == id) && !ids(
                        exception_solvers@,
                    ).contains(id),
            decreases self.unstarted_main_compilations@.len() - i,
        {
            let id = self.unstarted_main_compilations[i].0.clone();
            let ghost before = ids(out@);
            assert(unstarted[i as int].0 == id@);
            if !lists(exception_solvers, &id) && !lists(&out, &id) {
                proof {
                    assert(ids(out@.push(id)) =~= before.push(id@));
                    lemma_push(before, id@);
                }
                out.push(id);
            }
            proof {
                assert forall|x: Seq<char>| #[trigger] ids(out@).contains(x) <==> ((
                running.contains_key(x) && running[x] is Main) || exists|j: int|
                    0 <= j < i + 1 && #[trigger] unstarted[j].0 == x) && !ids(
                    exception_solvers@,
                ).contains(x) by {
                    if exists|j: int| 0 <= j < i && #[trigger] unstarted[j].0 == x {
                        let j = choose|j: int| 0 <= j < i && #[trigger] unstarted[j].0 == x;
                        assert(0 <= j < i + 1 && unstarted[j].0 == x);
                    }
                }
            }
            i += 1;
        }
        out
    }
}

impl StateView {
    /// Asking for a main compilation keeps the state in order.
    pub proof fn lemma_register(self, solver: Seq<char>, cores: Cores)
        requires
            self.wf(),
        ensures
            self.register(solver, cores).wf(),
    {
        let next = self.register(solver, cores);
        if self.pool.running.contains_key(solver) {
            self.pool.lemma_promote(solver, cores, 0);
            lemma_main_cores_insert(
                self.pool.running,
                solver,
                RunningCompilation::Main(
                    MainCompilation { cores, priority: self.pool.place(solver) },
                ),
            );
            assert forall|i: int| 0 <= i < next.unstarted.len() implies match (
            #[trigger] next.unstarted[i]).1.priority {
                Some(p) => next.pool.is_free(p),
                None => true,
            } by {
                match self.unstarted[i].1.priority {
                    Some(p) => {
                        assert(self.pool.is_free(p));
                        assert(self.pool.running.contains_key(solver));
                    },
                    None => {},
                }
            }
        } else {
            self.pool.lemma_defer(solver, cores);
            assert(next.unstarted.drop_last() =~= self.unstarted);
            assert forall|i: int| 0 <= i < next.unstarted.len() implies match (
            #[trigger] next.unstarted[i]).1.priority {
                Some(p) => {
                    &&& next.pool.is_free(p)
                    &&& forall|j: int|
                        0 <= j < next.unstarted.len() && j != i ==> (
                        #[trigger] next.unstarted[j]).1.priority != Some(p)
                },
                None => true,
            } by {
                if i < self.unstarted.len() {
                    assert(next.unstarted[i] == self.unstarted[i]);
                    match self.unstarted[i].1.priority {
                        Some(p) => {
                            assert(self.pool.is_free(p));
                            assert forall|j: int|
                                0 <= j < next.unstarted.len() && j != i implies (
                            #[trigger] next.unstarted[j]).1.priority != Some(p) by {
                                if j < self.unstarted.len() {
                                    assert(next.unstarted[j] == self.unstarted[j]);
                                }
                            }
                        },
                        None => {},
                    }
                } else {
                    assert forall|j: int| 0 <= j < self.unstarted.len() implies (
                    #[trigger] next.unstarted[j]).1.priority != place_of(self.pool.queue, solver)
                        || place_of(self.pool.queue, solver) is None by {
                        assert(next.unstarted[j] == self.unstarted[j]);
                        match self.unstarted[j].1.priority {
                            Some(p) => {
                                assert(self.pool.is_free(p));
                            },
                            None => {},
                        }
                    }
                }
            }
        }
    }

    /// The end of a compilation keeps the state in order.
    pub proof fn lemma_end(self, solver: Seq<char>)
        requires
            self.wf(),
        ensures
            (StateView { pool: self.pool.finish(solver), ..self }).wf(),
            (StateView { pool: self.pool.release(solver), ..self }).wf(),
    {
        self.pool.lemma_finish(solver);
        self.pool.lemma_release(solver);
        if self.pool.running.contains_key(solver) {
            super::pool::lemma_main_cores_remove(self.pool.running, solver);
            assert forall|i: int| 0 <= i < self.unstarted.len() implies match (
            #[trigger] self.unstarted[i]).1.priority {
                Some(p) => self.pool.finish(solver).is_free(p) && self.pool.release(solver).is_free(
                    p,
                ),
                None => true,
            } by {
                match self.unstarted[i].1.priority {
                    Some(p) => {
                        assert(self.pool.is_free(p));
                    },
                    None => {},
                }
            }
        }
    }
}

/// Once the first `n` main compilations have started, the pool is in order, the cores of the
/// others are still to be had, and the next one's priority is free.
proof fn lemma_start_mains(state: StateView, n: int)
    requires
        state.wf(),
        0 <= n <= state.unstarted.len(),
    ensures
        ({
            let pool = start_mains(state.pool, state.unstarted.take(n));
            &&& pool.wf()
            &&& pool.used == state.pool.used + n
            &&& pool.available == state.pool.available
            &&& pool.queue == state.pool.queue
            &&& main_cores(pool.running) + unstarted_cores(state.unstarted.skip(n))
                <= pool.available
            &&& n < state.unstarted.len() ==> main_cores(pool.running)
                + state.unstarted[n].1.cores <= pool.available
            &&& forall|i: int|
                n <= i < state.unstarted.len() ==> match (
                #[trigger] state.unstarted[i]).1.priority {
                    Some(p) => pool.is_free(p),
                    None => true,
                }
        }),
    decreases n,
{
    let pool = start_mains(state.pool, state.unstarted.take(n));
    if n == 0 {
        assert(state.unstarted.take(0) =~= Seq::empty());
        assert(state.unstarted.skip(0) =~= state.unstarted);
    } else {
        lemma_start_mains(state, n - 1);
        let head = state.unstarted.take(n);
        assert(head.drop_last() =~= state.unstarted.take(n - 1));
        let before = start_mains(state.pool, state.unstarted.take(n - 1));
        let (id, main) = state.unstarted[n - 1];
        before.lemma_start_main(id, main);
        assert(pool == before.start_main(id, main));
        assert(state.unstarted.skip(n - 1)[0] == (id, main));
        lemma_unstarted_cores(state.unstarted.skip(n - 1));
        assert(state.unstarted.skip(n - 1).skip(1) =~= state.unstarted.skip(n));
        assert forall|i: int| n <= i < state.unstarted.len() implies match (
        #[trigger] state.unstarted[i]).1.priority {
            Some(p) => pool.is_free(p),
            None => true,
        } by {
            match state.unstarted[i].1.priority {
                Some(p) => {
                    assert(before.is_free(p));
                    assert(state.unstarted[n - 1].1.priority != Some(p));
                },
                None => {},
            }
        }
    }
    if n < state.unstarted.len() {
        assert(state.unstarted.skip(n)[0] == state.unstarted[n]);
        lemma_unstarted_cores(state.unstarted.skip(n));
    }
}

/// Once every main compilation has started, the pool is in order and its cores are what they were.
pub proof fn lemma_all_mains(state: StateView)
    requires
        state.wf(),
    ensures
        state.all_mains().wf(),
        state.all_mains().available == state.pool.available,
        state.all_mains().used == state.pool.used + state.unstarted.len(),
        state.all_mains().queue == state.pool.queue,
{
    lemma_start_mains(state, state.unstarted.len() as int);
    assert(state.unstarted.take(state.unstarted.len() as int) =~= state.unstarted);
}

/// The cores of a list are those of its head and those of the rest.
proof fn lemma_unstarted_cores(unstarted: Seq<(Seq<char>, MainCompilation)>)
    requires
        unstarted.len() > 0,
    ensures
        unstarted_cores(unstarted) == unstarted[0].1.cores + unstarted_cores(unstarted.skip(1)),
    decreases unstarted.len(),
{
    if unstarted.len() == 1 {
        assert(unstarted.drop_last() =~= Seq::empty());
        assert(unstarted.skip(1) =~= Seq::empty());
    } else {
        lemma_unstarted_cores(unstarted.drop_last());
        assert(unstarted.drop_last().skip(1) =~= unstarted.skip(1).drop_last());
    }
}

} // verus!
