//! The compilations that run at one time, and the cores that they may take up.
//!
//! A main compilation is one that a solver about to run waits for, and brings cores with it.
//! An extra compilation is one started ahead of need on cores that would idle otherwise.
use super::priority::{is_least, is_least_of, Priority, SolverId, SolverPriority};
use crate::vec_map::{lemma_sum_insert, lemma_sum_remove, sum_values, VecMap};
use vstd::prelude::*;

verus! {

/// A number of processor cores.
pub type Cores = usize;

/// A compilation that a solver waits for.
#[derive(Debug, Clone, Copy)]
pub struct MainCompilation {
    /// The cores that the solver brings.
    pub cores: Cores,
    /// The place in the queue that the solver gave up, if it had one.
    pub priority: Option<Priority>,
}

impl MainCompilation {
    /// A main compilation with the given cores and place in the queue.
    pub fn new(cores: Cores, priority: Option<Priority>) -> (r: Self)
        ensures
            r == (MainCompilation { cores, priority }),
    {
        MainCompilation { cores, priority }
    }
}

/// A compilation that runs.
#[derive(Debug, Clone, Copy)]
pub enum RunningCompilation {
    Main(MainCompilation),
    Extra(Priority),
}

/// Something to be done to a compilation.
#[derive(Debug)]
pub enum CompilationWork {
    Start(SolverId),
    Stop(SolverId),
}

/// What a piece of work says, with the solver as plain text.
pub enum Work {
    Start(Seq<char>),
    Stop(Seq<char>),
}

impl View for CompilationWork {
    type V = Work;

    open spec fn view(&self) -> Work {
        match *self {
            CompilationWork::Start(id) => Work::Start(id@),
            CompilationWork::Stop(id) => Work::Stop(id@),
        }
    }
}

/// The cores that a running compilation brings.
pub open spec fn cores_of(compilation: RunningCompilation) -> nat {
    match compilation {
        RunningCompilation::Main(main) => main.cores as nat,
        RunningCompilation::Extra(_) => 0,
    }
}

/// The priority that a running compilation has in the queue once it is stopped.
pub open spec fn priority_of(compilation: RunningCompilation) -> Option<u64> {
    match compilation {
        RunningCompilation::Main(main) => match main.priority {
            Some(p) => Some(p.0),
            None => None,
        },
        RunningCompilation::Extra(p) => Some(p.0),
    }
}

/// The cores that all the main compilations of `running` bring.
pub open spec fn main_cores(running: Map<Seq<char>, RunningCompilation>) -> nat {
    sum_values(running, |c: RunningCompilation| cores_of(c))
}

/// The solvers of `running` whose compilations are extra ones.
pub open spec fn extras(running: Map<Seq<char>, RunningCompilation>) -> Set<Seq<char>> {
    running.dom().filter(|id: Seq<char>| running[id] is Extra)
}

/// Whether `id` is the extra compilation of `running` with the lowest priority.
pub open spec fn is_last_extra(
    running: Map<Seq<char>, RunningCompilation>,
    id: Seq<char>,
) -> bool {
    &&& running.contains_key(id) && running[id] is Extra
    &&& forall|other: Seq<char>| #[trigger]
        running.contains_key(other) && running[other] is Extra ==> running[other]->Extra_0.0
            <= running[id]->Extra_0.0
}

/// The extra compilation of `running` with the lowest priority.
pub open spec fn last_extra(running: Map<Seq<char>, RunningCompilation>) -> Seq<char> {
    choose|id: Seq<char>| is_last_extra(running, id)
}

/// The smallest key of `queue`.
pub open spec fn least_key(queue: Map<u64, Seq<char>>) -> u64 {
    choose|p: u64| is_least(queue, p)
}

/// The highest priority with which `id` waits in `queue`, if it waits.
pub open spec fn place_of(queue: Map<u64, Seq<char>>, id: Seq<char>) -> Option<Priority> {
    if exists|p: u64| is_least_of(queue, id, p) {
        Some(Priority(choose|p: u64| is_least_of(queue, id, p)))
    } else {
        None
    }
}

/// `queue` without the place that `priority` names.
pub open spec fn without(
    queue: Map<u64, Seq<char>>,
    priority: Option<Priority>,
) -> Map<u64, Seq<char>> {
    match priority {
        Some(p) => queue.remove(p.0),
        None => queue,
    }
}

/// A pool of compilations as a mathematical value.
pub struct PoolView {
    /// The solvers that wait to be compiled, by priority.
    pub queue: Map<u64, Seq<char>>,
    /// The compilations that run.
    pub running: Map<Seq<char>, RunningCompilation>,
    /// The cores that compilations may take up.
    pub available: int,
    /// The cores that compilations are taken to use.
    pub used: int,
}

impl PoolView {
    /// Every running compilation is counted as using a core, the main compilations have brought no
    /// more cores than are available, and no two solvers share a priority.
    pub open spec fn wf(self) -> bool {
        &&& self.queue.dom().finite()
        &&& self.running.dom().finite()
        &&& self.running.dom().len() <= self.used
        &&& main_cores(self.running) <= self.available
        &&& forall|a: Seq<char>, b: Seq<char>|
            #![trigger self.running.contains_key(a), self.running.contains_key(b)]
            self.running.contains_key(a) && self.running.contains_key(b) && a != b && priority_of(
                self.running[a],
            ) is Some ==> priority_of(self.running[a]) != priority_of(self.running[b])
        &&& forall|id: Seq<char>| #[trigger]
            self.running.contains_key(id) ==> match priority_of(self.running[id]) {
                Some(p) => !self.queue.contains_key(p),
                None => true,
            }
    }

    /// The place in the queue that `id` has, or gave up when its compilation started.
    pub open spec fn place(self, id: Seq<char>) -> Option<Priority> {
        if !self.running.contains_key(id) {
            place_of(self.queue, id)
        } else {
            match self.running[id] {
                RunningCompilation::Main(main) => main.priority,
                RunningCompilation::Extra(p) => Some(p),
            }
        }
    }

    /// The pool once the compilation of `id` is a main one that brings `cores` and is counted as
    /// using `more` cores beyond what it used before.
    pub open spec fn promote(self, id: Seq<char>, cores: Cores, more: int) -> PoolView {
        let running = self.running.contains_key(id);
        let given_back = if running {
            cores_of(self.running[id])
        } else {
            0
        };
        PoolView {
            queue: if running {
                self.queue
            } else {
                without(self.queue, self.place(id))
            },
            running: self.running.insert(
                id,
                RunningCompilation::Main(MainCompilation { cores, priority: self.place(id) }),
            ),
            available: self.available - given_back + cores,
            used: self.used + more,
        }
    }

    /// The pool once `id` has given up its place in the queue for a main compilation that is still
    /// to start and brings `cores`.
    pub open spec fn defer(self, id: Seq<char>, cores: Cores) -> PoolView {
        PoolView {
            queue: without(self.queue, place_of(self.queue, id)),
            available: self.available + cores,
            ..self
        }
    }

    /// The pool once a main compilation whose cores are available already has started.
    pub open spec fn start_main(self, id: Seq<char>, main: MainCompilation) -> PoolView {
        PoolView {
            running: self.running.insert(id, RunningCompilation::Main(main)),
            used: self.used + 1,
            ..self
        }
    }

    /// Whether no solver that waits or is compiled has the priority `p`.
    pub open spec fn is_free(self, p: Priority) -> bool {
        &&& !self.queue.contains_key(p.0)
        &&& forall|id: Seq<char>| #[trigger]
            self.running.contains_key(id) ==> priority_of(self.running[id]) != Some(p.0)
    }

    /// The pool once the extra compilation of `id` has gone back to the queue.
    pub open spec fn requeue(self, id: Seq<char>) -> PoolView {
        PoolView {
            queue: self.queue.insert(self.running[id]->Extra_0.0, id),
            running: self.running.remove(id),
            available: self.available,
            used: self.used - 1,
        }
    }

    /// How many extra compilations are one too many, or how many there are if `all` must go.
    pub open spec fn stop_count(self, all: bool) -> nat {
        let n = extras(self.running).len();
        if all || self.used - self.available > n {
            n
        } else if self.used > self.available {
            (self.used - self.available) as nat
        } else {
            0
        }
    }

    /// The `n` extra compilations with the lowest priorities, the lowest first.
    pub open spec fn stopped(self, n: nat) -> Seq<Seq<char>>
        decreases n,
    {
        if n == 0 {
            Seq::empty()
        } else {
            let id = last_extra(self.running);
            seq![id] + self.requeue(id).stopped((n - 1) as nat)
        }
    }

    /// The pool once those `n` compilations have gone back to the queue.
    pub open spec fn after_stops(self, n: nat) -> PoolView
        decreases n,
    {
        if n == 0 {
            self
        } else {
            self.requeue(last_extra(self.running)).after_stops((n - 1) as nat)
        }
    }

    /// The pool once the solver that waits under `p` compiles as an extra.
    pub open spec fn start_extra(self, p: u64) -> PoolView {
        PoolView {
            queue: self.queue.remove(p),
            running: self.running.insert(self.queue[p], RunningCompilation::Extra(Priority(p))),
            available: self.available,
            used: self.used + 1,
        }
    }

    /// How many waiting solvers there are cores for.
    pub open spec fn start_count(self) -> nat {
        let n = self.queue.dom().len();
        if self.available - self.used > n {
            n
        } else if self.available > self.used {
            (self.available - self.used) as nat
        } else {
            0
        }
    }

    /// The `n` waiting solvers with the highest priorities, the highest first.
    pub open spec fn started(self, n: nat) -> Seq<Seq<char>>
        decreases n,
    {
        if n == 0 {
            Seq::empty()
        } else {
            let p = least_key(self.queue);
            seq![self.queue[p]] + self.start_extra(p).started((n - 1) as nat)
        }
    }

    /// The pool once those `n` solvers compile as extras.
    pub open spec fn after_starts(self, n: nat) -> PoolView
        decreases n,
    {
        if n == 0 {
            self
        } else {
            self.start_extra(least_key(self.queue)).after_starts((n - 1) as nat)
        }
    }

    /// The pool once the compilation of `id` is over: its core and the cores it brought are gone.
    pub open spec fn finish(self, id: Seq<char>) -> PoolView {
        if self.running.contains_key(id) {
            PoolView {
                queue: self.queue,
                running: self.running.remove(id),
                available: self.available - cores_of(self.running[id]),
                used: self.used - 1,
            }
        } else {
            self
        }
    }

    /// The pool once the compilation of `id` was broken off: as if it were over, but the solver
    /// waits again if it has a place in the queue.
    pub open spec fn release(self, id: Seq<char>) -> PoolView {
        let finished = self.finish(id);
        if self.running.contains_key(id) {
            match priority_of(self.running[id]) {
                Some(p) => PoolView { queue: self.queue.insert(p, id), ..finished },
                None => finished,
            }
        } else {
            finished
        }
    }
}

/// Taking one compilation out takes its cores out of the sum.
pub proof fn lemma_main_cores_remove(running: Map<Seq<char>, RunningCompilation>, id: Seq<char>)
    requires
        running.dom().finite(),
        running.contains_key(id),
    ensures
        main_cores(running) == cores_of(running[id]) + main_cores(running.remove(id)),
{
    lemma_sum_remove(running, |c: RunningCompilation| cores_of(c), id);
}

/// Putting a compilation in adds its cores in place of those of the one it replaces.
pub proof fn lemma_main_cores_insert(
    running: Map<Seq<char>, RunningCompilation>,
    id: Seq<char>,
    compilation: RunningCompilation,
)
    requires
        running.dom().finite(),
    ensures
        main_cores(running.insert(id, compilation)) == cores_of(compilation) + main_cores(
            running.remove(id),
        ),
        running.contains_key(id) ==> main_cores(running) == cores_of(running[id]) + main_cores(
            running.remove(id),
        ),
        !running.contains_key(id) ==> main_cores(running) == main_cores(running.remove(id)),
{
    lemma_sum_insert(running, |c: RunningCompilation| cores_of(c), id, compilation);
}

impl PoolView {
    /// Moving an extra compilation back to the queue keeps the pool in order.
    pub proof fn lemma_requeue(self, id: Seq<char>)
        requires
            self.wf(),
            self.running.contains_key(id),
            self.running[id] is Extra,
        ensures
            self.requeue(id).wf(),
            extras(self.requeue(id).running) == extras(self.running).remove(id),
            extras(self.running).contains(id),
            extras(self.running).finite(),
    {
        let next = self.requeue(id);
        lemma_main_cores_remove(self.running, id);
        assert(next.running.dom() =~= self.running.dom().remove(id));
        assert(next.queue.dom() =~= self.queue.dom().insert(self.running[id]->Extra_0.0));
        assert(extras(next.running) =~= extras(self.running).remove(id));
        assert forall|a: Seq<char>| #[trigger] next.running.contains_key(a) implies match priority_of(
            next.running[a],
        ) {
            Some(p) => !next.queue.contains_key(p),
            None => true,
        } by {
            assert(self.running.contains_key(a));
        }
    }

    /// Making a compilation a main one keeps the pool in order.
    pub proof fn lemma_promote(self, id: Seq<char>, cores: Cores, more: int)
        requires
            self.wf(),
            more >= 0,
            self.running.contains_key(id) || more >= 1,
        ensures
            self.promote(id, cores, more).wf(),
            self.running.contains_key(id) ==> cores_of(self.running[id]) <= self.available,
    {
        let next = self.promote(id, cores, more);
        let priority = self.place(id);
        lemma_main_cores_insert(
            self.running,
            id,
            RunningCompilation::Main(MainCompilation { cores, priority }),
        );
        assert(next.running.dom() =~= self.running.dom().insert(id));
        if !self.running.contains_key(id) && priority is Some {
            assert(is_least_of(self.queue, id, priority.unwrap().0));
            assert(next.queue.dom() =~= self.queue.dom().remove(priority.unwrap().0));
        }
    }

    /// Giving up a place keeps the pool in order, and the place is free then.
    pub proof fn lemma_defer(self, id: Seq<char>, cores: Cores)
        requires
            self.wf(),
        ensures
            self.defer(id, cores).wf(),
            match place_of(self.queue, id) {
                Some(p) => self.queue.contains_key(p.0) && self.defer(id, cores).is_free(p),
                None => true,
            },
    {
        match place_of(self.queue, id) {
            Some(p) => {
                assert(is_least_of(self.queue, id, p.0));
                assert(self.defer(id, cores).queue.dom() =~= self.queue.dom().remove(p.0));
            },
            None => {},
        }
    }

    /// Starting a main compilation keeps the pool in order.
    pub proof fn lemma_start_main(self, id: Seq<char>, main: MainCompilation)
        requires
            self.wf(),
            main_cores(self.running) + main.cores <= self.available,
            main.priority matches Some(p) ==> self.is_free(p),
        ensures
            self.start_main(id, main).wf(),
            main_cores(self.start_main(id, main).running) <= main_cores(self.running) + main.cores,
    {
        lemma_main_cores_insert(self.running, id, RunningCompilation::Main(main));
        assert(self.start_main(id, main).running.dom() =~= self.running.dom().insert(id));
    }

    /// Starting a waiting solver as an extra keeps the pool in order.
    pub proof fn lemma_start_extra(self, p: u64)
        requires
            self.wf(),
            self.queue.contains_key(p),
        ensures
            self.start_extra(p).wf(),
            self.start_extra(p).queue.dom() == self.queue.dom().remove(p),
    {
        let next = self.start_extra(p);
        lemma_main_cores_insert(
            self.running,
            self.queue[p],
            RunningCompilation::Extra(Priority(p)),
        );
        assert(next.running.dom() =~= self.running.dom().insert(self.queue[p]));
        assert(next.queue.dom() =~= self.queue.dom().remove(p));
    }

    /// Taking a compilation out keeps the pool in order.
    pub proof fn lemma_finish(self, id: Seq<char>)
        requires
            self.wf(),
        ensures
            self.finish(id).wf(),
            self.running.contains_key(id) ==> self.used >= 1 && cores_of(self.running[id])
                <= self.available,
    {
        if self.running.contains_key(id) {
            lemma_main_cores_remove(self.running, id);
            assert(self.finish(id).running.dom() =~= self.running.dom().remove(id));
        }
    }

    /// Breaking a compilation off keeps the pool in order.
    pub proof fn lemma_release(self, id: Seq<char>)
        requires
            self.wf(),
        ensures
            self.release(id).wf(),
    {
        self.lemma_finish(id);
        if self.running.contains_key(id) {
            match priority_of(self.running[id]) {
                Some(p) => {
                    assert(self.release(id).queue.dom() =~= self.queue.dom().insert(p));
                },
                None => {},
            }
        }
    }
}

/// Two extra compilations with the lowest priority are the same one.
proof fn lemma_last_extra_unique(pool: PoolView, id: Seq<char>)
    requires
        pool.wf(),
        is_last_extra(pool.running, id),
    ensures
        last_extra(pool.running) == id,
{
    let other = last_extra(pool.running);
    assert(is_last_extra(pool.running, other));
    assert(pool.running.contains_key(other));
    if other != id {
        assert(priority_of(pool.running[other]) != priority_of(pool.running[id]));
    }
}

/// A pool of compilations that work on one machine.
#[derive(Debug)]
pub struct CompilationPool {
    queue: SolverPriority,
    running: VecMap<SolverId, RunningCompilation>,
    available_cores: Cores,
    used_cores: Cores,
}

impl View for CompilationPool {
    type V = PoolView;

    closed spec fn view(&self) -> PoolView {
        PoolView {
            queue: self.queue@,
            running: self.running@,
            available: self.available_cores as int,
            used: self.used_cores as int,
        }
    }
}

impl CompilationPool {
    /// The pool is in order.
    pub closed spec fn wf(&self) -> bool {
        self.running.wf() && self@.wf()
    }

    /// What order in the pool means for its view.
    pub proof fn lemma_wf(&self)
        requires
            self.wf(),
        ensures
            self@.wf(),
            0 <= self@.available <= usize::MAX,
            0 <= self@.used <= usize::MAX,
    {
    }

    /// A pool in which nothing runs and no core is available.
    pub fn new(queue: SolverPriority) -> (r: Self)
        ensures
            r.wf(),
            r@ == (PoolView { queue: queue@, running: Map::empty(), available: 0, used: 0 }),
    {
        proof {
            queue.lemma_finite();
        }
        CompilationPool { queue, running: VecMap::new(), available_cores: 0, used_cores: 0 }
    }

    /// The cores that compilations may take up.
    pub fn available_cores(&self) -> (r: Cores)
        ensures
            r == self@.available,
    {
        self.available_cores
    }

    /// The cores that compilations are taken to use.
    pub fn used_cores(&self) -> (r: Cores)
        ensures
            r == self@.used,
    {
        self.used_cores
    }

    /// The extra compilation with the lowest priority.
    fn find_last_extra(&self) -> (r: Option<(SolverId, Priority)>)
        requires
            self.wf(),
        ensures
            match r {
                Some((id, p)) => is_last_extra(self@.running, id@) && self@.running[id@]
                    == RunningCompilation::Extra(p),
                None => extras(self@.running) == Set::<Seq<char>>::empty(),
            },
    {
        proof {
            self.running.lemma_pairs();
        }
        let mut best: Option<(usize, Priority)> = None;
        let mut i: usize = 0;
        while i < self.running.len()
            invariant
                i <= self.running.pairs().len(),
                match best {
                    Some((b, p)) => {
                        &&& b < i
                        &&& self.running.pairs()[b as int].1 == RunningCompilation::Extra(p)
                        &&& forall|j: int|
                            0 <= j < i && (#[trigger] self.running.pairs()[j]).1 is Extra
                                ==> self.running.pairs()[j].1->Extra_0.0 <= p.0
                    },
                    None => forall|j: int|
                        0 <= j < i ==> !((#[trigger] self.running.pairs()[j]).1 is Extra),
                },
            decreases self.running.pairs().len() - i,
        {
            match self.running.entry(i).1 {
                RunningCompilation::Extra(p) => match best {
                    Some((_, q)) => {
                        if p.0 > q.0 {
                            best = Some((i, *p));
                        }
                    },
                    None => {
                        best = Some((i, *p));
                    },
                },
                RunningCompilation::Main(_) => {},
            }
            i += 1;
        }
        match best {
            Some((b, p)) => {
                let id = self.running.entry(b).0.clone();
                proof {
                    assert(self.running.pairs()[b as int].0 == id@);
                    assert forall|other: Seq<char>| #[trigger]
                        self.running@.contains_key(other) && self.running@[other] is Extra implies self.running@[other]->Extra_0.0
                        <= p.0 by {
                        let j = choose|j: int|
                            0 <= j < self.running.pairs().len() && #[trigger] self.running.pairs()[j]
                                == (other, self.running@[other]);
                    }
                }
                Some((id, p))
            },
            None => {
                proof {
                    assert forall|id: Seq<char>| !extras(self@.running).contains(id) by {
                        if self.running@.contains_key(id) {
                            let j = choose|j: int|
                                0 <= j < self.running.pairs().len()
                                    && #[trigger] self.running.pairs()[j] == (id, self.running@[id]);
                        }
                    }
                    assert(extras(self@.running) =~= Set::<Seq<char>>::empty());
                }
                None
            },
        }
    }

    /// Moves the extra compilations that are too many back to the queue, or all of them, and hands
    /// out their solvers.
    pub fn stop_extras(&mut self, all: bool) -> (r: Vec<SolverId>)
        requires
            old(self).wf(),
        ensures
            final(self).wf(),
            ids(r@) == old(self)@.stopped(old(self)@.stop_count(all)),
            final(self)@ == old(self)@.after_stops(old(self)@.stop_count(all)),
    {
        let ghost start = self@;
        let mut stopped: Vec<SolverId> = Vec::new();
        while all || self.used_cores > self.available_cores
            invariant
                self.wf(),
                ids(stopped@) + self@.stopped(self@.stop_count(all)) == start.stopped(
                    start.stop_count(all),
                ),
                self@.after_stops(self@.stop_count(all)) == start.after_stops(
                    start.stop_count(all),
                ),
            ensures
                self.wf(),
                self@.stop_count(all) == 0,
                ids(stopped@) + self@.stopped(self@.stop_count(all)) == start.stopped(
                    start.stop_count(all),
                ),
                self@.after_stops(self@.stop_count(all)) == start.after_stops(
                    start.stop_count(all),
                ),
            decreases extras(self@.running).len(),
        {
            match self.find_last_extra() {
                Some((id, p)) => {
                    let ghost before = self@;
                    proof {
                        before.lemma_requeue(id@);
                        lemma_last_extra_unique(before, id@);
                    }
                    let ghost done = ids(stopped@);
                    self.running.remove(&id);
                    self.used_cores -= 1;
                    self.queue.insert(id.clone(), p);
                    assert(self@ == before.requeue(id@));
                    assert(self@.stop_count(all) == before.stop_count(all) - 1);
                    proof {
                        assert(ids(stopped@.push(id)) =~= done.push(id@));
                        let n = before.stop_count(all);
                        assert(before.stopped(n) == seq![id@] + self@.stopped((n - 1) as nat));
                        assert(done + (seq![id@] + self@.stopped((n - 1) as nat)) =~= done.push(id@)
                            + self@.stopped((n - 1) as nat));
                    }
                    stopped.push(id);
                },
                None => {
                    break;
                },
            }
        }
        assert(ids(stopped@) + self@.stopped(0) =~= ids(stopped@));
        stopped
    }

    /// Starts as many waiting solvers as there are cores for, and hands them out.
    pub fn start_extras(&mut self) -> (r: Vec<SolverId>)
        requires
            old(self).wf(),
        ensures
            final(self).wf(),
            ids(r@) == old(self)@.started(old(self)@.start_count()),
            final(self)@ == old(self)@.after_starts(old(self)@.start_count()),
    {
        let ghost start = self@;
        let mut started: Vec<SolverId> = Vec::new();
        while self.used_cores < self.available_cores
            invariant
                self.wf(),
                ids(started@) + self@.started(self@.start_count()) == start.started(
                    start.start_count(),
                ),
                self@.after_starts(self@.start_count()) == start.after_starts(start.start_count()),
            ensures
                self.wf(),
                self@.start_count() == 0,
                ids(started@) + self@.started(self@.start_count()) == start.started(
                    start.start_count(),
                ),
                self@.after_starts(self@.start_count()) == start.after_starts(start.start_count()),
            decreases self.available_cores - self.used_cores,
        {
            let ghost before = self@;
            match self.queue.take_next() {
                Some((id, p)) => {
                    proof {
                        before.lemma_start_extra(p.0);
                        let q = least_key(before.queue);
                        assert(is_least(before.queue, q));
                    }
                    let ghost done = ids(started@);
                    self.running.insert(id.clone(), RunningCompilation::Extra(p));
                    self.used_cores += 1;
                    assert(self@ == before.start_extra(p.0));
                    proof {
                        assert(ids(started@.push(id)) =~= done.push(id@));
                        let n = before.start_count();
                        assert(before.started(n) == seq![id@] + self@.started((n - 1) as nat));
                        assert(done + (seq![id@] + self@.started((n - 1) as nat)) =~= done.push(id@)
                            + self@.started((n - 1) as nat));
                    }
                    started.push(id);
                },
                None => {
                    assert(self@ == before);
                    break;
                },
            }
        }
        assert(ids(started@) + self@.started(0) =~= ids(started@));
        started
    }

    /// Whether the compilation of `solver` runs, and if it does, what it is.
    pub fn compilation(&self, solver: &SolverId) -> (r: Option<&RunningCompilation>)
        requires
            self.wf(),
        ensures
            match r {
                Some(c) => self@.running.contains_key(solver@) && *c == self@.running[solver@],
                None => !self@.running.contains_key(solver@),
            },
    {
        self.running.get(solver)
    }

    /// Makes the compilation of `solver` a main one that brings `cores`, and counts `more` cores as
    /// used by it beyond what it used before.
    pub fn promote(&mut self, solver: SolverId, cores: Cores, more: Cores)
        requires
            old(self).wf(),
            old(self)@.running.contains_key(solver@) || more >= 1,
            old(self)@.promote(solver@, cores, more as int).available <= usize::MAX,
            old(self)@.used + more <= usize::MAX,
        ensures
            final(self).wf(),
            final(self)@ == old(self)@.promote(solver@, cores, more as int),
    {
        proof {
            self@.lemma_promote(solver@, cores, more as int);
        }
        let ghost before = self@;
        let priority = match self.running.get(&solver) {
            None => {
                self.available_cores += cores;
                self.take_place(&solver)
            },
            Some(RunningCompilation::Extra(p)) => {
                self.available_cores += cores;
                Some(*p)
            },
            Some(RunningCompilation::Main(main)) => {
                let main = *main;
                self.available_cores = self.available_cores - main.cores + cores;
                main.priority
            },
        };
        self.used_cores += more;
        self.running.insert(
            solver,
            RunningCompilation::Main(MainCompilation::new(cores, priority)),
        );
        assert(self@ == before.promote(solver@, cores, more as int));
    }

    /// Takes `solver` out of the queue for a main compilation that is still to start and brings
    /// `cores`, and hands out the place that the solver had.
    pub fn defer(&mut self, solver: &SolverId, cores: Cores) -> (r: Option<Priority>)
        requires
            old(self).wf(),
            old(self)@.available + cores <= usize::MAX,
        ensures
            final(self).wf(),
            final(self)@ == old(self)@.defer(solver@, cores),
            r == place_of(old(self)@.queue, solver@),
    {
        proof {
            self@.lemma_defer(solver@, cores);
        }
        let place = self.take_place(solver);
        self.available_cores += cores;
        place
    }

    /// Starts a main compilation whose cores are available already.
    pub fn start_main(&mut self, solver: SolverId, main: MainCompilation)
        requires
            old(self).wf(),
            old(self)@.used < usize::MAX,
            main_cores(old(self)@.running) + main.cores <= old(self)@.available,
            main.priority matches Some(p) ==> old(self)@.is_free(p),
        ensures
            final(self).wf(),
            final(self)@ == old(self)@.start_main(solver@, main),
    {
        proof {
            self@.lemma_start_main(solver@, main);
        }
        self.running.insert(solver, RunningCompilation::Main(main));
        self.used_cores += 1;
    }

    /// The solvers whose main compilations run, except those listed.
    pub fn mains_except(&self, exceptions: &Vec<SolverId>) -> (r: Vec<SolverId>)
        requires
            self.wf(),
        ensures
            ids(r@).no_duplicates(),
            forall|id: Seq<char>| #[trigger]
                ids(r@).contains(id) <==> self@.running.contains_key(id)
                    && self@.running[id] is Main && !ids(exceptions@).contains(id),
    {
        proof {
            self.running.lemma_pairs();
        }
        let ghost pairs = self.running.pairs();
        let mut out: Vec<SolverId> = Vec::new();
        let mut i: usize = 0;
        while i < self.running.len()
            invariant
                i <= pairs.len(),
                pairs == self.running.pairs(),
                self.wf(),
                forall|j: int, k: int|
                    0 <= j < k < pairs.len() ==> #[trigger] pairs[j].0 != #[trigger] pairs[k].0,
                ids(out@).no_duplicates(),
                forall|id: Seq<char>| #[trigger]
                    ids(out@).contains(id) <==> exists|j: int|
                        0 <= j < i && #[trigger] pairs[j].0 == id && pairs[j].1 is Main && !ids(
                            exceptions@,
                        ).contains(id),
            decreases pairs.len() - i,
        {
            let (id, compilation) = self.running.entry(i);
            let is_main = match compilation {
                RunningCompilation::Main(_) => true,
                RunningCompilation::Extra(_) => false,
            };
            let ghost before = ids(out@);
            if is_main && !lists(exceptions, id) {
                let id = id.clone();
                proof {
                    assert(!before.contains(id@)) by {
                        if before.contains(id@) {
                            let j = choose|j: int|
                                0 <= j < i && #[trigger] pairs[j].0 == id@ && pairs[j].1 is Main
                                    && !ids(exceptions@).contains(id@);
                            assert(pairs[j].0 != pairs[i as int].0);
                        }
                    }
                    assert(ids(out@.push(id)) =~= before.push(id@));
                    lemma_push(before, id@);
                    assert(pairs[i as int].0 == id@);
                }
                out.push(id);
            }
            proof {
                assert forall|x: Seq<char>| #[trigger] ids(out@).contains(x) <==> exists|j: int|
                    0 <= j < i + 1 && #[trigger] pairs[j].0 == x && pairs[j].1 is Main && !ids(
                        exceptions@,
                    ).contains(x) by {
                    if before.contains(x) {
                        let j = choose|j: int|
                            0 <= j < i && #[trigger] pairs[j].0 == x && pairs[j].1 is Main && !ids(
                                exceptions@,
                            ).contains(x);
                        assert(0 <= j < i + 1);
                    }
                }
            }
            i += 1;
        }
        proof {
            assert forall|id: Seq<char>| #[trigger] ids(out@).contains(id)
                <==> self@.running.contains_key(id) && self@.running[id] is Main && !ids(
                exceptions@,
            ).contains(id) by {
                if self@.running.contains_key(id) && self@.running[id] is Main && !ids(
                    exceptions@,
                ).contains(id) {
                    let j = choose|j: int|
                        0 <= j < pairs.len() && #[trigger] pairs[j] == (id, self.running@[id]);
                    assert(pairs[j].0 == id);
                }
                if ids(out@).contains(id) {
                    let j = choose|j: int|
                        0 <= j < i && #[trigger] pairs[j].0 == id && pairs[j].1 is Main && !ids(
                            exceptions@,
                        ).contains(id);
                    assert(self.running@.contains_key(pairs[j].0));
                }
            }
        }
        out
    }

    /// Takes `solver` out of the queue, and hands out the place that it had there.
    fn take_place(&mut self, solver: &SolverId) -> (r: Option<Priority>)
        ensures
            r == place_of(old(self)@.queue, solver@),
            final(self)@ == (PoolView { queue: without(old(self)@.queue, r), ..old(self)@ }),
            final(self).running == old(self).running,
    {
        let r = self.queue.remove_by_solver_id(solver);
        proof {
            match r {
                Some(p) => {
                    let q = choose|q: u64| is_least_of(old(self)@.queue, solver@, q);
                    assert(is_least_of(old(self)@.queue, solver@, p.0));
                    assert(is_least_of(old(self)@.queue, solver@, q));
                },
                None => {},
            }
        }
        r
    }

    /// Takes out the compilation of `solver`, which is over.
    pub fn finish(&mut self, solver: &SolverId)
        requires
            old(self).wf(),
        ensures
            final(self).wf(),
            final(self)@ == old(self)@.finish(solver@),
    {
        proof {
            self@.lemma_finish(solver@);
        }
        if let Some(compilation) = self.running.remove(solver) {
            self.used_cores -= 1;
            if let RunningCompilation::Main(main) = compilation {
                self.available_cores -= main.cores;
            }
        } else {
            assert(old(self).running@.remove(solver@) =~= old(self).running@);
        }
    }

    /// Takes out the compilation of `solver`, which was broken off, and lets the solver wait again.
    pub fn release(&mut self, solver: &SolverId)
        requires
            old(self).wf(),
        ensures
            final(self).wf(),
            final(self)@ == old(self)@.release(solver@),
    {
        proof {
            self@.lemma_finish(solver@);
            self@.lemma_release(solver@);
        }
        if let Some(compilation) = self.running.remove(solver) {
            self.used_cores -= 1;
            let priority = match compilation {
                RunningCompilation::Main(main) => {
                    self.available_cores -= main.cores;
                    main.priority
                },
                RunningCompilation::Extra(p) => Some(p),
            };
            if let Some(p) = priority {
                self.queue.insert(solver.clone(), p);
            }
        } else {
            assert(old(self).running@.remove(solver@) =~= old(self).running@);
        }
    }
}

/// The solvers of a list as plain text.
pub open spec fn ids(solvers: Seq<SolverId>) -> Seq<Seq<char>> {
    solvers.map_values(|id: SolverId| id@)
}

/// Whether `id` is in the list.
pub fn lists(solvers: &Vec<SolverId>, id: &SolverId) -> (r: bool)
    ensures
        r == ids(solvers@).contains(id@),
{
    let mut i: usize = 0;
    while i < solvers.len()
        invariant
            i <= solvers@.len(),
            forall|j: int| 0 <= j < i ==> #[trigger] ids(solvers@)[j] != id@,
        decreases solvers@.len() - i,
    {
        if solvers[i] == *id {
            assert(ids(solvers@)[i as int] == id@);
            return true;
        }
        i += 1;
    }
    false
}

/// Adding an element at the end adds that element and no other.
pub proof fn lemma_push(s: Seq<Seq<char>>, x: Seq<char>)
    ensures
        forall|y: Seq<char>| #[trigger] s.push(x).contains(y) <==> s.contains(y) || y == x,
        s.no_duplicates() && !s.contains(x) ==> s.push(x).no_duplicates(),
{
    assert forall|y: Seq<char>| #[trigger] s.push(x).contains(y) <==> s.contains(y) || y == x by {
        if s.contains(y) {
            let j = choose|j: int| 0 <= j < s.len() && s[j] == y;
            assert(s.push(x)[j] == y);
        }
        if y == x {
            assert(s.push(x)[s.len() as int] == y);
        }
    }
}

} // verus!
