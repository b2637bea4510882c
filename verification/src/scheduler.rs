//! Which solvers run, which are suspended, and which must go when memory runs short.
use crate::text::{parse_u64, written_number};
use crate::vec_map::{lemma_sum_remove, sum_values};
use std::collections::{HashMap, HashSet};
use vstd::prelude::*;

verus! {

broadcast use vstd::std_specs::hash::group_hash_axioms;

/// A solver in a schedule.
#[derive(Debug, Clone)]
pub struct ScheduleElement {
    /// The number by which the run of the solver is known, given when the schedule is applied.
    pub id: usize,
    pub solver: String,
    pub cores: usize,
}

impl ScheduleElement {
    /// An element with the given properties.
    pub fn new(id: usize, solver: String, cores: usize) -> (r: Self)
        ensures
            r == (ScheduleElement { id, solver, cores }),
    {
        ScheduleElement { id, solver, cores }
    }
}

/// Solvers that are to run at a time.
pub type Schedule = Vec<ScheduleElement>;

/// A solver and the cores that it is given.
#[derive(Debug, Clone)]
pub struct SolverInfo {
    pub name: String,
    pub cores: usize,
}

impl SolverInfo {
    /// The given solver with the given cores.
    pub fn new(name: String, cores: usize) -> (r: Self)
        ensures
            r == (SolverInfo { name, cores }),
    {
        SolverInfo { name, cores }
    }
}

/// Solvers picked to run side by side.
pub type Portfolio = Vec<SolverInfo>;

/// How the runs that there are turn into the runs that a schedule asks for.
#[derive(Debug)]
pub struct ScheduleChanges {
    pub to_start: Schedule,
    pub to_suspend: Vec<usize>,
    pub to_resume: Vec<usize>,
}

/// A process by number, and before it the memory that it uses, in bytes.
pub type MemoryUse = (u64, usize);

/// The runs of solvers as a mathematical value.
pub struct Runs {
    pub running: Map<usize, SolverInfo>,
    pub suspended: Map<usize, SolverInfo>,
}

/// What is known of a scheduled solver once it runs.
pub open spec fn info_of(element: ScheduleElement) -> SolverInfo {
    SolverInfo { name: element.solver, cores: element.cores }
}

/// The runs of `schedule` on top of `running`; of elements with one number, the last counts.
pub open spec fn start_all(
    running: Map<usize, SolverInfo>,
    schedule: Seq<ScheduleElement>,
) -> Map<usize, SolverInfo>
    decreases schedule.len(),
{
    if schedule.len() == 0 {
        running
    } else {
        start_all(running, schedule.drop_last()).insert(schedule.last().id, info_of(schedule.last()))
    }
}

/// A schedule parted by what the runs that there are make of it.
pub struct Sorted {
    /// The running solvers that no element asked for.
    pub running: Set<usize>,
    /// The suspended solvers that no element asked for.
    pub suspended: Set<usize>,
    pub to_start: Seq<ScheduleElement>,
    pub to_resume: Seq<usize>,
}

/// Parts a schedule: an element takes up the run with its number if one runs, else one that is
/// suspended, and has to be started if there is none or an earlier element has taken it up.
pub open spec fn sort_schedule(
    running: Set<usize>,
    suspended: Set<usize>,
    schedule: Seq<ScheduleElement>,
) -> Sorted
    decreases schedule.len(),
{
    if schedule.len() == 0 {
        Sorted { running, suspended, to_start: Seq::empty(), to_resume: Seq::empty() }
    } else {
        let s = sort_schedule(running, suspended, schedule.drop_last());
        let element = schedule.last();
        if s.running.contains(element.id) {
            Sorted { running: s.running.remove(element.id), ..s }
        } else if s.suspended.contains(element.id) {
            Sorted {
                suspended: s.suspended.remove(element.id),
                to_resume: s.to_resume.push(element.id),
                ..s
            }
        } else {
            Sorted { to_start: s.to_start.push(element), ..s }
        }
    }
}

impl Runs {
    /// The runs without those that are not among `active`.
    pub open spec fn retain(self, active: Set<usize>) -> Runs {
        Runs {
            running: self.running.restrict(active),
            suspended: self.suspended.restrict(active),
        }
    }

    /// The runs once those given have been resumed, one after the other.
    pub open spec fn resume_all(self, to_resume: Seq<usize>) -> Runs
        decreases to_resume.len(),
    {
        if to_resume.len() == 0 {
            self
        } else {
            let runs = self.resume_all(to_resume.drop_last());
            let id = to_resume.last();
            if runs.suspended.contains_key(id) {
                Runs {
                    running: runs.running.insert(id, runs.suspended[id]),
                    suspended: runs.suspended.remove(id),
                }
            } else {
                runs
            }
        }
    }

    /// The runs once those given have been suspended, one after the other.
    pub open spec fn suspend_all(self, to_suspend: Seq<usize>) -> Runs
        decreases to_suspend.len(),
    {
        if to_suspend.len() == 0 {
            self
        } else {
            let runs = self.suspend_all(to_suspend.drop_last());
            let id = to_suspend.last();
            if runs.running.contains_key(id) {
                Runs {
                    running: runs.running.remove(id),
                    suspended: runs.suspended.insert(id, runs.running[id]),
                }
            } else {
                runs
            }
        }
    }

    /// The runs once a change of schedule was carried out: starts, then resumptions, then
    /// suspensions.
    pub open spec fn apply(
        self,
        to_start: Seq<ScheduleElement>,
        to_resume: Seq<usize>,
        to_suspend: Seq<usize>,
    ) -> Runs {
        Runs { running: start_all(self.running, to_start), ..self }.resume_all(
            to_resume,
        ).suspend_all(to_suspend)
    }

    /// Whether no solver runs and is suspended at once.
    pub open spec fn apart(self) -> bool {
        self.running.dom().disjoint(self.suspended.dom())
    }
}

/// `schedule` with the numbers from `first` on.
pub open spec fn numbered(first: usize, schedule: Seq<ScheduleElement>) -> Seq<ScheduleElement> {
    Seq::new(
        schedule.len(),
        |i: int| ScheduleElement { id: (first + i) as usize, ..schedule[i] },
    )
}

/// The cores that all the given runs take up.
pub open spec fn total_cores(running: Map<usize, SolverInfo>) -> nat {
    sum_values(running, |info: SolverInfo| info.cores as nat)
}

/// Running solvers parted by whether they use more memory than their cores entitle them to.
pub struct FairShare {
    pub running: Map<usize, SolverInfo>,
    pub to_kill: Seq<MemoryUse>,
    pub remaining: Seq<MemoryUse>,
}

/// Goes through `sorted` in order. A running solver that uses more than `per_core` bytes for each
/// of its cores has to go; one that does not run, or has gone, is passed over.
pub open spec fn fair_share(
    running: Map<usize, SolverInfo>,
    sorted: Seq<MemoryUse>,
    per_core: u64,
) -> FairShare
    decreases sorted.len(),
{
    if sorted.len() == 0 {
        FairShare { running, to_kill: Seq::empty(), remaining: Seq::empty() }
    } else {
        let s = fair_share(running, sorted.drop_last(), per_core);
        let (memory, id) = sorted.last();
        if !s.running.contains_key(id) {
            s
        } else if memory as int / s.running[id].cores as int > per_core {
            FairShare { running: s.running.remove(id), to_kill: s.to_kill.push((memory, id)), ..s }
        } else {
            FairShare { remaining: s.remaining.push((memory, id)), ..s }
        }
    }
}

/// How a schedule is put into effect.
#[derive(Debug)]
pub enum ApplyPlan {
    /// All solvers are stopped, and those of the schedule are started with the bound found.
    Restart(Schedule),
    /// The runs that there are turn into those that the schedule asks for.
    Change(ScheduleChanges),
}

/// The runs of solvers, and what bounds their memory.
#[derive(Debug)]
pub struct MemoryEnforcerState {
    running_solvers: HashMap<usize, SolverInfo>,
    suspended_solvers: HashMap<usize, SolverInfo>,
    memory_limit: u64,
    id: usize,
}

/// A state as a mathematical value.
pub struct EnforcerView {
    pub runs: Runs,
    /// The memory that may be used, in bytes; 0 stands for all there is.
    pub memory_limit: u64,
    /// The number of the next run.
    pub next_id: usize,
}

impl View for MemoryEnforcerState {
    type V = EnforcerView;

    closed spec fn view(&self) -> EnforcerView {
        EnforcerView {
            runs: Runs { running: self.running_solvers@, suspended: self.suspended_solvers@ },
            memory_limit: self.memory_limit,
            next_id: self.id,
        }
    }
}

/// The numbers of the given runs.
fn keys_of(map: &HashMap<usize, SolverInfo>) -> (r: Vec<usize>)
    ensures
        r@.no_duplicates(),
        r@.to_set() == map@.dom(),
{
    let mut keys: Vec<usize> = Vec::new();
    let iter = map.keys();
    let ghost all = vstd::std_specs::iter::IteratorSpec::remaining(&iter).unref();
    for id in it: iter
        invariant
            it.seq().unref() == all,
            keys@ == all.take(it.index()),
    {
        keys.push(*id);
    }
    assert(keys@ =~= all);
    keys
}

/// The numbers in a set, each once.
fn ids_in(set: &HashSet<usize>) -> (r: Vec<usize>)
    ensures
        r@.no_duplicates(),
        r@.to_set() == set@,
{
    let mut ids: Vec<usize> = Vec::new();
    let iter = set.iter();
    let ghost all = vstd::std_specs::iter::IteratorSpec::remaining(&iter).unref();
    for id in it: iter
        invariant
            it.seq().unref() == all,
            ids@ == all.take(it.index()),
    {
        ids.push(*id);
    }
    assert(ids@ =~= all);
    ids
}

/// The numbers of the given runs, as a set.
fn key_set(map: &HashMap<usize, SolverInfo>) -> (r: HashSet<usize>)
    ensures
        r@ == map@.dom(),
{
    let keys = keys_of(map);
    let mut set: HashSet<usize> = HashSet::new();
    let mut i: usize = 0;
    assert(set@ =~= keys@.take(0).to_set());
    while i < keys.len()
        invariant
            i <= keys@.len(),
            set@ == keys@.take(i as int).to_set(),
        decreases keys@.len() - i,
    {
        set.insert(keys[i]);
        proof {
            lemma_take_to_set(keys@, i as int);
        }
        i += 1;
    }
    assert(keys@.take(i as int) =~= keys@);
    set
}

/// One more element of a sequence adds it to the set of elements.
proof fn lemma_take_to_set(s: Seq<usize>, i: int)
    requires
        0 <= i < s.len(),
    ensures
        s.take(i + 1).to_set() == s.take(i).to_set().insert(s[i]),
{
    let next = s.take(i + 1);
    assert forall|x: usize| next.contains(x) <==> s.take(i).contains(x) || x == s[i] by {
        if s.take(i).contains(x) {
            let j = choose|j: int| 0 <= j < i && s.take(i)[j] == x;
            assert(next[j] == x);
        }
        if next.contains(x) {
            let j = choose|j: int| 0 <= j < i + 1 && next[j] == x;
            if j < i {
                assert(s.take(i)[j] == x);
            }
        }
        assert(next[i] == s[i]);
    }
    assert(next.to_set() =~= s.take(i).to_set().insert(s[i]));
}

/// Takes out the runs that are not among `active`.
fn retain_active(map: &mut HashMap<usize, SolverInfo>, active: &HashSet<usize>)
    ensures
        final(map)@ == old(map)@.restrict(active@),
{
    let ghost before = map@;
    let keys = keys_of(map);
    let mut i: usize = 0;
    assert(keys@.take(0).to_set() =~= Set::empty());
    while i < keys.len()
        invariant
            i <= keys@.len(),
            keys@.to_set() == before.dom(),
            map@ == before.restrict(active@ + keys@.take(i as int).to_set().complement()),
        decreases keys@.len() - i,
    {
        let id = keys[i];
        let ghost so_far = map@;
        proof {
            lemma_take_to_set(keys@, i as int);
        }
        if !active.contains(&id) {
            map.remove(&id);
        }
        assert(map@ =~= before.restrict(active@ + keys@.take(i + 1).to_set().complement()));
        i += 1;
    }
    assert(keys@.take(i as int) =~= keys@);
    assert(map@ =~= before.restrict(active@));
}

impl MemoryEnforcerState {
    /// A state without runs.
    pub fn new(memory_limit: u64) -> (r: Self)
        ensures
            r@ == (EnforcerView {
                runs: Runs { running: Map::empty(), suspended: Map::empty() },
                memory_limit,
                next_id: 0,
            }),
    {
        MemoryEnforcerState {
            running_solvers: HashMap::new(),
            suspended_solvers: HashMap::new(),
            memory_limit,
            id: 0,
        }
    }

    /// The numbers of the solvers that run.
    pub fn running_ids(&self) -> (r: Vec<usize>)
        ensures
            r@.no_duplicates(),
            r@.to_set() == self@.runs.running.dom(),
    {
        keys_of(&self.running_solvers)
    }

    /// The numbers of the solvers that are suspended.
    pub fn suspended_ids(&self) -> (r: Vec<usize>)
        ensures
            r@.no_duplicates(),
            r@.to_set() == self@.runs.suspended.dom(),
    {
        keys_of(&self.suspended_solvers)
    }

    /// The memory that may be used on a machine that has `system_total` bytes.
    pub fn total_memory(&self, system_total: u64) -> (r: u64)
        ensures
            r == if self@.memory_limit > 0 {
                self@.memory_limit
            } else {
                system_total
            },
    {
        if self.memory_limit > 0 {
            self.memory_limit
        } else {
            system_total
        }
    }

    /// Forgets the solvers that have exited: all but those that are `active`.
    pub fn remove_exited_solvers(&mut self, active: &HashSet<usize>)
        ensures
            final(self)@ == (EnforcerView {
                runs: old(self)@.runs.retain(active@),
                ..old(self)@
            }),
    {
        retain_active(&mut self.running_solvers, active);
        retain_active(&mut self.suspended_solvers, active);
    }

    /// Gives each element of a schedule the next free number.
    pub fn assign_ids(&mut self, schedule: &mut Schedule)
        requires
            old(self)@.next_id + old(schedule)@.len() <= usize::MAX,
        ensures
            final(self)@ == (EnforcerView {
                next_id: (old(self)@.next_id + old(schedule)@.len()) as usize,
                ..old(self)@
            }),
            final(schedule)@ == numbered(old(self)@.next_id, old(schedule)@),
            final(schedule)@.len() == old(schedule)@.len(),
            forall|i: int|
                0 <= i < old(schedule)@.len() ==> {
                    &&& (#[trigger] final(schedule)@[i]).id == old(self)@.next_id + i
                    &&& final(schedule)@[i].solver == old(schedule)@[i].solver
                    &&& final(schedule)@[i].cores == old(schedule)@[i].cores
                },
    {
        let ghost before = schedule@;
        let ghost first = self.id;
        let mut i: usize = 0;
        while i < schedule.len()
            invariant
                i <= schedule@.len(),
                schedule@.len() == before.len(),
                first + before.len() <= usize::MAX,
                self.id == first + i,
                self.running_solvers == old(self).running_solvers,
                self.suspended_solvers == old(self).suspended_solvers,
                self.memory_limit == old(self).memory_limit,
                forall|j: int|
                    0 <= j < i ==> #[trigger] schedule@[j] == (ScheduleElement {
                        id: (first + j) as usize,
                        ..before[j]
                    }),
                forall|j: int| i <= j < before.len() ==> #[trigger] schedule@[j] == before[j],
            decreases schedule@.len() - i,
        {
            schedule[i].id = self.id;
            self.id += 1;
            i += 1;
        }
        assert(schedule@ =~= numbered(first, before));
    }

    /// Forgets the solvers that have exited, then works out what has to change for exactly the
    /// solvers of `schedule` to run.
    pub fn categorize_schedule(&mut self, schedule: Schedule, active: &HashSet<usize>) -> (r:
        ScheduleChanges)
        ensures
            final(self)@ == (EnforcerView {
                runs: old(self)@.runs.retain(active@),
                ..old(self)@
            }),
            ({
                let runs = final(self)@.runs;
                let sorted = sort_schedule(runs.running.dom(), runs.suspended.dom(), schedule@);
                &&& r.to_start@ == sorted.to_start
                &&& r.to_resume@ == sorted.to_resume
                &&& r.to_suspend@.no_duplicates()
                &&& r.to_suspend@.to_set() == sorted.running
            }),
    {
        self.remove_exited_solvers(active);
        let mut running = key_set(&self.running_solvers);
        let mut suspended = key_set(&self.suspended_solvers);
        let mut to_start: Schedule = Vec::new();
        let mut to_resume: Vec<usize> = Vec::new();
        let ghost all_running = self@.runs.running.dom();
        let ghost all_suspended = self@.runs.suspended.dom();
        let mut i: usize = 0;
        while i < schedule.len()
            invariant
                i <= schedule@.len(),
                sort_schedule(all_running, all_suspended, schedule@.take(i as int)) == (Sorted {
                    running: running@,
                    suspended: suspended@,
                    to_start: to_start@,
                    to_resume: to_resume@,
                }),
            decreases schedule@.len() - i,
        {
            let id = schedule[i].id;
            proof {
                assert(schedule@.take(i + 1).drop_last() =~= schedule@.take(i as int));
                assert(schedule@.take(i + 1).last() == schedule@[i as int]);
            }
            let ghost (was_running, was_suspended) = (running@, suspended@);
            if !running.remove(&id) {
                assert(running@ =~= was_running);
                if suspended.remove(&id) {
                    to_resume.push(id);
                } else {
                    assert(suspended@ =~= was_suspended);
                    let element = ScheduleElement::new(
                        id,
                        schedule[i].solver.clone(),
                        schedule[i].cores,
                    );
                    assert(element == schedule@[i as int]);
                    to_start.push(element);
                }
            }
            i += 1;
        }
        assert(schedule@.take(i as int) =~= schedule@);
        ScheduleChanges { to_start, to_suspend: ids_in(&running), to_resume }
    }

    /// Takes in that a change of schedule is carried out.
    pub fn apply_changes_to_state(&mut self, changes: &ScheduleChanges)
        ensures
            final(self)@ == (EnforcerView {
                runs: old(self)@.runs.apply(
                    changes.to_start@,
                    changes.to_resume@,
                    changes.to_suspend@,
                ),
                ..old(self)@
            }),
    {
        let ghost before = self@;
        let ghost started = Runs {
            running: start_all(before.runs.running, changes.to_start@),
            ..before.runs
        };
        start_in(&mut self.running_solvers, &changes.to_start);
        let ghost resumed = started.resume_all(changes.to_resume@);
        let mut i: usize = 0;
        assert(changes.to_resume@.take(0) =~= Seq::empty());
        while i < changes.to_resume.len()
            invariant
                i <= changes.to_resume@.len(),
                self@ == (EnforcerView {
                    runs: started.resume_all(changes.to_resume@.take(i as int)),
                    ..before
                }),
            decreases changes.to_resume@.len() - i,
        {
            let id = changes.to_resume[i];
            proof {
                assert(changes.to_resume@.take(i + 1).drop_last() =~= changes.to_resume@.take(
                    i as int,
                ));
            }
            let ghost so_far = self@.runs;
            if let Some(info) = self.suspended_solvers.remove(&id) {
                self.running_solvers.insert(id, info);
            } else {
                assert(so_far.suspended.remove(id) =~= so_far.suspended);
            }
            i += 1;
        }
        assert(changes.to_resume@.take(i as int) =~= changes.to_resume@);
        let mut k: usize = 0;
        assert(changes.to_suspend@.take(0) =~= Seq::empty());
        while k < changes.to_suspend.len()
            invariant
                k <= changes.to_suspend@.len(),
                self@ == (EnforcerView {
                    runs: resumed.suspend_all(changes.to_suspend@.take(k as int)),
                    ..before
                }),
            decreases changes.to_suspend@.len() - k,
        {
            let id = changes.to_suspend[k];
            proof {
                assert(changes.to_suspend@.take(k + 1).drop_last() =~= changes.to_suspend@.take(
                    k as int,
                ));
            }
            let ghost so_far = self@.runs;
            if let Some(info) = self.running_solvers.remove(&id) {
                self.suspended_solvers.insert(id, info);
            } else {
                assert(so_far.running.remove(id) =~= so_far.running);
            }
            k += 1;
        }
        assert(changes.to_suspend@.take(k as int) =~= changes.to_suspend@);
    }

    /// Takes in that all solvers were stopped and just those of `schedule` were started.
    pub fn restart_with(&mut self, schedule: &Schedule)
        ensures
            final(self)@ == (EnforcerView {
                runs: Runs {
                    running: start_all(Map::empty(), schedule@),
                    suspended: Map::empty(),
                },
                ..old(self)@
            }),
    {
        let mut running: HashMap<usize, SolverInfo> = HashMap::new();
        start_in(&mut running, schedule);
        self.running_solvers = running;
        self.suspended_solvers = HashMap::new();
    }

    /// Works out how a schedule is put into effect. Its solvers are numbered anew. Once there is an
    /// objective, everything is restarted, and the state follows when the restart has succeeded;
    /// before, the runs are changed, and the state follows at once.
    pub fn plan_apply(
        &mut self,
        schedule: Schedule,
        has_best_objective: bool,
        active: &HashSet<usize>,
    ) -> (r: ApplyPlan)
        requires
            old(self)@.next_id + schedule@.len() <= usize::MAX,
        ensures
            ({
                let asked = numbered(old(self)@.next_id, schedule@);
                let renumbered = EnforcerView {
                    next_id: (old(self)@.next_id + schedule@.len()) as usize,
                    ..old(self)@
                };
                let runs = old(self)@.runs.retain(active@);
                let sorted = sort_schedule(runs.running.dom(), runs.suspended.dom(), asked);
                match r {
                    ApplyPlan::Restart(s) => {
                        &&& has_best_objective
                        &&& s@ == asked
                        &&& final(self)@ == renumbered
                    },
                    ApplyPlan::Change(changes) => {
                        &&& !has_best_objective
                        &&& changes.to_start@ == sorted.to_start
                        &&& changes.to_resume@ == sorted.to_resume
                        &&& changes.to_suspend@.no_duplicates()
                        &&& changes.to_suspend@.to_set() == sorted.running
                        &&& final(self)@ == (EnforcerView {
                            runs: runs.apply(
                                changes.to_start@,
                                changes.to_resume@,
                                changes.to_suspend@,
                            ),
                            ..renumbered
                        })
                    },
                }
            }),
    {
        let mut schedule = schedule;
        self.assign_ids(&mut schedule);
        if has_best_objective {
            return ApplyPlan::Restart(schedule);
        }
        let changes = self.categorize_schedule(schedule, active);
        self.apply_changes_to_state(&changes);
        ApplyPlan::Change(changes)
    }

    /// Whether there are numbers left for so many runs.
    pub fn can_number(&self, runs: usize) -> (r: bool)
        ensures
            r == (self@.next_id + runs <= usize::MAX),
    {
        self.id <= usize::MAX - runs
    }

    /// The cores that the running solvers take up together, if their number fits.
    pub fn total_running_cores(&self) -> (r: Option<usize>)
        ensures
            r == if total_cores(self@.runs.running) <= usize::MAX {
                Some(total_cores(self@.runs.running) as usize)
            } else {
                None
            },
    {
        let map = &self.running_solvers;
        let keys = keys_of(map);
        let ghost f = |info: SolverInfo| info.cores as nat;
        let ghost mut rest = map@;
        let mut total: usize = 0;
        let mut i: usize = 0;
        proof {
            assert(keys@.skip(0) =~= keys@);
            assert forall|id: usize| #[trigger] rest.contains_key(id) <==> keys@.skip(0).contains(
                id,
            ) by {
                assert(keys@.to_set().contains(id) <==> map@.dom().contains(id));
            }
        }
        while i < keys.len()
            invariant
                i <= keys@.len(),
                f == (|info: SolverInfo| info.cores as nat),
                keys@.no_duplicates(),
                keys@.to_set() == map@.dom(),
                rest.dom().finite(),
                forall|id: usize| #[trigger]
                    rest.contains_key(id) <==> keys@.skip(i as int).contains(id),
                forall|id: usize| #[trigger] rest.contains_key(id) ==> map@.contains_key(id)
                    && rest[id] == map@[id],
                total + sum_values(rest, f) == sum_values(map@, f),
                total_cores(self@.runs.running) == sum_values(map@, f),
            decreases keys@.len() - i,
        {
            let id = keys[i];
            proof {
                let left = keys@.skip(i as int);
                let next = keys@.skip(i + 1);
                assert(left[0] == id);
                assert(rest.contains_key(id));
                lemma_sum_remove(rest, f, id);
                assert(rest.remove(id).dom() =~= rest.dom().remove(id));
                assert forall|x: usize| left.contains(x) && x != id <==> next.contains(x) by {
                    if left.contains(x) && x != id {
                        let j = choose|j: int| 0 <= j < left.len() && left[j] == x;
                        assert(next[j - 1] == x);
                    }
                    if next.contains(x) {
                        let j = choose|j: int| 0 <= j < next.len() && next[j] == x;
                        assert(left[j + 1] == x);
                        assert(keys@[i + 1 + j] == x);
                    }
                }
                rest = rest.remove(id);
            }
            let cores = match map.get(&id) {
                Some(info) => info.cores,
                None => 0,
            };
            if cores > usize::MAX - total {
                return None;
            }
            total += cores;
            i += 1;
        }
        assert(rest.dom() =~= Set::empty());
        Some(total)
    }

    /// Whether each running solver of `sorted` has a core to share memory by.
    pub fn have_cores(&self, sorted: &Vec<MemoryUse>) -> (r: bool)
        ensures
            r == forall|i: int|
                0 <= i < sorted@.len() && self@.runs.running.contains_key(
                    (#[trigger] sorted@[i]).1,
                ) ==> self@.runs.running[sorted@[i].1].cores > 0,
    {
        let mut i: usize = 0;
        while i < sorted.len()
            invariant
                i <= sorted@.len(),
                forall|j: int|
                    0 <= j < i && self@.runs.running.contains_key((#[trigger] sorted@[j]).1)
                        ==> self@.runs.running[sorted@[j].1].cores > 0,
            decreases sorted@.len() - i,
        {
            if let Some(info) = self.running_solvers.get(&sorted[i].1) {
                if info.cores == 0 {
                    assert(self@.runs.running.contains_key(sorted@[i as int].1));
                    return false;
                }
            }
            i += 1;
        }
        true
    }

    /// The suspended solver to kill next, if memory is short: the first of `sorted`.
    pub fn next_suspended_to_kill(
        &mut self,
        sorted: &mut Vec<MemoryUse>,
        over_threshold: bool,
    ) -> (r: Option<MemoryUse>)
        ensures
            if over_threshold && old(sorted)@.len() > 0 {
                &&& r == Some(old(sorted)@[0])
                &&& final(sorted)@ == old(sorted)@.drop_first()
                &&& final(self)@ == (EnforcerView {
                    runs: Runs {
                        suspended: old(self)@.runs.suspended.remove(old(sorted)@[0].1),
                        ..old(self)@.runs
                    },
                    ..old(self)@
                })
            } else {
                r is None && final(sorted)@ == old(sorted)@ && final(self)@ == old(self)@
            },
    {
        if sorted.is_empty() || !over_threshold {
            return None;
        }
        let ghost before = sorted@;
        let (memory, id) = sorted.remove(0);
        assert(sorted@ =~= before.drop_first());
        self.suspended_solvers.remove(&id);
        Some((memory, id))
    }

    /// The running solver to kill next, if memory is short: the first of `remaining`.
    pub fn next_running_to_kill(
        &mut self,
        remaining: &mut Vec<MemoryUse>,
        over_threshold: bool,
    ) -> (r: Option<MemoryUse>)
        ensures
            if over_threshold && old(remaining)@.len() > 0 {
                &&& r == Some(old(remaining)@[0])
                &&& final(remaining)@ == old(remaining)@.drop_first()
                &&& final(self)@ == (EnforcerView {
                    runs: Runs {
                        running: old(self)@.runs.running.remove(old(remaining)@[0].1),
                        ..old(self)@.runs
                    },
                    ..old(self)@
                })
            } else {
                r is None && final(remaining)@ == old(remaining)@ && final(self)@ == old(self)@
            },
    {
        if remaining.is_empty() || !over_threshold {
            return None;
        }
        let ghost before = remaining@;
        let (memory, id) = remaining.remove(0);
        assert(remaining@ =~= before.drop_first());
        self.running_solvers.remove(&id);
        Some((memory, id))
    }

    /// Parts the running solvers of `sorted` into those that use more memory than `per_core` bytes
    /// for each of their cores, which no longer count as running, and the others.
    pub fn take_over_fair_share(&mut self, sorted: &Vec<MemoryUse>, per_core: u64) -> (r: (
        Vec<MemoryUse>,
        Vec<MemoryUse>,
    ))
        requires
            forall|i: int|
                0 <= i < sorted@.len() && old(self)@.runs.running.contains_key(
                    (#[trigger] sorted@[i]).1,
                ) ==> old(self)@.runs.running[sorted@[i].1].cores > 0,
        ensures
            ({
                let share = fair_share(old(self)@.runs.running, sorted@, per_core);
                &&& r.0@ == share.to_kill
                &&& r.1@ == share.remaining
                &&& final(self)@ == (EnforcerView {
                    runs: Runs { running: share.running, ..old(self)@.runs },
                    ..old(self)@
                })
            }),
    {
        let ghost before = self@;
        let mut to_kill: Vec<MemoryUse> = Vec::new();
        let mut remaining: Vec<MemoryUse> = Vec::new();
        let mut i: usize = 0;
        assert(sorted@.take(0) =~= Seq::empty());
        while i < sorted.len()
            invariant
                i <= sorted@.len(),
                fair_share(before.runs.running, sorted@.take(i as int), per_core) == (FairShare {
                    running: self@.runs.running,
                    to_kill: to_kill@,
                    remaining: remaining@,
                }),
                self@ == (EnforcerView {
                    runs: Runs { running: self@.runs.running, ..before.runs },
                    ..before
                }),
                forall|x: usize| #[trigger]
                    self@.runs.running.contains_key(x) ==> before.runs.running.contains_key(x)
                        && self@.runs.running[x] == before.runs.running[x],
                forall|j: int|
                    0 <= j < sorted@.len() && before.runs.running.contains_key(
                        (#[trigger] sorted@[j]).1,
                    ) ==> before.runs.running[sorted@[j].1].cores > 0,
            decreases sorted@.len() - i,
        {
            let (memory, id) = sorted[i];
            proof {
                assert(sorted@.take(i + 1).drop_last() =~= sorted@.take(i as int));
                assert(sorted@.take(i + 1).last() == sorted@[i as int]);
            }
            let cores: Option<usize> = match self.running_solvers.get(&id) {
                Some(info) => Some(info.cores),
                None => None,
            };
            if let Some(cores) = cores {
                assert(self@.runs.running.contains_key(id));
                assert(before.runs.running.contains_key(sorted@[i as int].1));
                if memory / (cores as u64) > per_core {
                    self.running_solvers.remove(&id);
                    to_kill.push((memory, id));
                } else {
                    remaining.push((memory, id));
                }
            }
            i += 1;
        }
        assert(sorted@.take(i as int) =~= sorted@);
        (to_kill, remaining)
    }
}

/// Adds the runs of a schedule.
fn start_in(running: &mut HashMap<usize, SolverInfo>, schedule: &Schedule)
    ensures
        final(running)@ == start_all(old(running)@, schedule@),
{
    let ghost before = running@;
    let mut i: usize = 0;
    assert(schedule@.take(0) =~= Seq::empty());
    while i < schedule.len()
        invariant
            i <= schedule@.len(),
            running@ == start_all(before, schedule@.take(i as int)),
        decreases schedule@.len() - i,
    {
        proof {
            assert(schedule@.take(i + 1).drop_last() =~= schedule@.take(i as int));
            assert(schedule@.take(i + 1).last() == schedule@[i as int]);
        }
        running.insert(
            schedule[i].id,
            SolverInfo::new(schedule[i].solver.clone(), schedule[i].cores),
        );
        i += 1;
    }
    assert(schedule@.take(i as int) =~= schedule@);
}

/// The limit on memory that a setting gives, in MiB. One that is not a number counts for nothing.
pub fn memory_limit_mib(setting: Option<&str>) -> (r: Option<u64>)
    ensures
        r == match setting {
            Some(text) => match written_number(text@) {
                Some(n) => if n <= u64::MAX {
                    Some(n as u64)
                } else {
                    None
                },
                None => None,
            },
            None => None,
        },
{
    match setting {
        Some(text) => parse_u64(text),
        None => None,
    }
}

/// The limit on memory in bytes; 0 stands for no limit.
pub fn memory_limit_bytes(mib: Option<u64>) -> (r: u64)
    requires
        mib matches Some(n) ==> n * 1024 * 1024 <= u64::MAX,
    ensures
        r == match mib {
            Some(n) => n * 1024 * 1024,
            None => 0,
        },
{
    match mib {
        Some(n) => n * 1024 * 1024,
        None => 0,
    }
}

} // verus!
