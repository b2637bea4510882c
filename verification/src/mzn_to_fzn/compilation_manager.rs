//! Compilations that are under way or done, by solver.
use super::pool::ids;
use crate::vec_map::VecMap;
use std::sync::Arc;
use vstd::prelude::*;

verus! {

/// Why a compilation cannot be had.
#[derive(Debug)]
pub enum Error<E> {
    Cancelled,
    /// No compilation was started for the solver, which is named.
    NotStarted(String),
    /// The compilation went away without a result.
    ChannelClosed(String),
    /// The wait was over, but not the compilation.
    CompilationUnfinishedAfterWaiting(String),
    /// The compilation failed.
    Compilation(E),
}

impl<E> Error<E> {
    /// Whether somebody called the wait off.
    pub fn is_cancelled(&self) -> (r: bool)
        ensures
            r == (self is Cancelled),
    {
        match self {
            Error::Cancelled => true,
            _ => false,
        }
    }
}

/// What a compilation came to.
pub type Outcome<C, E> = Result<C, Error<E>>;

/// Whether somebody called the wait off.
pub fn is_cancelled<C, E>(outcome: &Outcome<C, E>) -> (r: bool)
    ensures
        r == (*outcome matches Err(Error::Cancelled)),
{
    match outcome {
        Ok(_) => false,
        Err(e) => e.is_cancelled(),
    }
}

/// What a compilation came to, from what the compiler gave back. That the compiler was called off
/// counts as a failure like any other.
pub fn outcome_of<C, E>(result: Result<C, E>) -> (r: Outcome<C, E>)
    ensures
        r == match result {
            Ok(conversion) => Ok::<C, Error<E>>(conversion),
            Err(e) => Err::<C, Error<E>>(Error::Compilation(e)),
        },
{
    match result {
        Ok(conversion) => Ok(conversion),
        Err(e) => Err(Error::Compilation(e)),
    }
}

/// A compilation; `S` is what it takes to call one off and to wait for it.
#[derive(Debug)]
pub enum Compilation<C, E, S> {
    Done(Arc<Outcome<C, E>>),
    Started(Arc<S>),
}

/// What is known at once of a compilation that somebody wants.
#[derive(Debug)]
pub enum Lookup<'a, C, E, S> {
    /// There is nothing to wait for, and why.
    Refused(Error<E>),
    /// It is over.
    Ready(&'a Arc<Outcome<C, E>>),
    /// It has to be waited for.
    Pending(&'a Arc<S>),
}

/// How the wait for a compilation ended.
#[derive(Debug)]
pub enum Waited<C, E> {
    Cancelled,
    /// The compilation went away.
    Closed,
    /// What there was at the end of the wait.
    Value(Option<Arc<Outcome<C, E>>>),
}

/// The compilations once those of `started` were added, one after the other.
pub open spec fn with_started<C, E, S>(
    compilations: Map<Seq<char>, Compilation<C, E, S>>,
    started: Seq<(String, Arc<S>)>,
) -> Map<Seq<char>, Compilation<C, E, S>>
    decreases started.len(),
{
    if started.len() == 0 {
        compilations
    } else {
        with_started(compilations, started.drop_last()).insert(
            started.last().0@,
            Compilation::Started(started.last().1),
        )
    }
}

/// Whether the compilation of `id` is under way.
pub open spec fn is_under_way<C, E, S>(
    compilations: Map<Seq<char>, Compilation<C, E, S>>,
    id: Seq<char>,
) -> bool {
    compilations.contains_key(id) && compilations[id] is Started
}

/// The compilations once those of `names` that are under way are gone.
pub open spec fn without_started<C, E, S>(
    compilations: Map<Seq<char>, Compilation<C, E, S>>,
    names: Seq<Seq<char>>,
) -> Map<Seq<char>, Compilation<C, E, S>> {
    compilations.remove_keys(
        compilations.dom().filter(
            |id: Seq<char>| names.contains(id) && is_under_way(compilations, id),
        ),
    )
}

/// The compilations of `names` that are under way, each once, in the order of the names.
pub open spec fn to_stop<C, E, S>(
    compilations: Map<Seq<char>, Compilation<C, E, S>>,
    names: Seq<Seq<char>>,
) -> Seq<Arc<S>>
    decreases names.len(),
{
    if names.len() == 0 {
        Seq::empty()
    } else {
        let before = to_stop(compilations, names.drop_last());
        let name = names.last();
        if is_under_way(compilations, name) && !names.drop_last().contains(name) {
            before.push(compilations[name]->Started_0)
        } else {
            before
        }
    }
}

/// The compilations that a manager has started.
#[derive(Debug)]
pub struct CompilationManager<C, E, S> {
    compilations: VecMap<String, Compilation<C, E, S>>,
}

impl<C, E, S> View for CompilationManager<C, E, S> {
    type V = Map<Seq<char>, Compilation<C, E, S>>;

    closed spec fn view(&self) -> Map<Seq<char>, Compilation<C, E, S>> {
        self.compilations@
    }
}

impl<C, E, S> CompilationManager<C, E, S> {
    /// The compilations can be looked up.
    pub closed spec fn wf(&self) -> bool {
        self.compilations.wf()
    }

    /// Nothing was started yet.
    pub fn new() -> (r: Self)
        ensures
            r.wf(),
            r@ == Map::<Seq<char>, Compilation<C, E, S>>::empty(),
    {
        CompilationManager { compilations: VecMap::new() }
    }

    /// Whether a compilation for `solver_name` is under way or done.
    pub fn is_started(&self, solver_name: &str) -> (r: bool)
        requires
            self.wf(),
        ensures
            r == self@.contains_key(solver_name@),
    {
        self.compilations.contains_key(&solver_name.to_owned())
    }

    /// The solvers of `solver_names` for which a compilation has to be started, in order.
    pub fn new_solvers(&self, solver_names: Vec<String>) -> (r: Vec<String>)
        requires
            self.wf(),
        ensures
            ids(r@) == ids(solver_names@).filter(|id: Seq<char>| !self@.contains_key(id)),
    {
        let ghost keep = |id: Seq<char>| !self@.contains_key(id);
        let ghost all = ids(solver_names@);
        let mut out: Vec<String> = Vec::new();
        let mut i: usize = 0;
        proof {
            reveal(Seq::filter);
            assert(ids(out@) =~= all.take(0).filter(keep));
        }
        while i < solver_names.len()
            invariant
                i <= solver_names@.len(),
                self.wf(),
                keep == (|id: Seq<char>| !self@.contains_key(id)),
                all == ids(solver_names@),
                ids(out@) == all.take(i as int).filter(keep),
            decreases solver_names@.len() - i,
        {
            let name = solver_names[i].clone();
            proof {
                reveal(Seq::filter);
                assert(all.take(i + 1).drop_last() =~= all.take(i as int));
                assert(all.take(i + 1).last() == name@);
                assert(ids(out@.push(name)) =~= ids(out@).push(name@));
            }
            if !self.compilations.contains_key(&name) {
                out.push(name);
            }
            i += 1;
        }
        assert(all.take(i as int) =~= all);
        out
    }

    /// Takes in that compilations were started.
    pub fn register_started(&mut self, started: Vec<(String, Arc<S>)>)
        requires
            old(self).wf(),
        ensures
            final(self).wf(),
            final(self)@ == with_started(old(self)@, started@),
    {
        let ghost before = self@;
        let ghost all = started@;
        assert(all.take(0) =~= Seq::empty());
        for entry in it: started
            invariant
                it.seq() == all,
                self.wf(),
                self@ == with_started(before, all.take(it.index())),
        {
            assert(all.take(it.index() + 1).drop_last() =~= all.take(it.index()));
            let (name, handle) = entry;
            self.compilations.insert(name, Compilation::Started(handle));
        }
        assert(all.take(all.len() as int) =~= all);
    }

    /// Takes in what the compilation for `solver_name` came to. It is kept unless somebody called
    /// it off.
    pub fn compiled(&mut self, solver_name: String, outcome: Arc<Outcome<C, E>>)
        requires
            old(self).wf(),
        ensures
            final(self).wf(),
            final(self)@ == if *outcome matches Err(Error::Cancelled) {
                old(self)@
            } else {
                old(self)@.insert(solver_name@, Compilation::Done(outcome))
            },
    {
        if !is_cancelled(&*outcome) {
            self.compilations.insert(solver_name, Compilation::Done(outcome));
        }
    }

    /// Looks up the compilation for `solver_name`, unless the wait for it was called off.
    pub fn lookup<'a>(&'a self, solver_name: &str, cancelled: bool) -> (r: Lookup<'a, C, E, S>)
        requires
            self.wf(),
        ensures
            if cancelled {
                r matches Lookup::Refused(Error::Cancelled)
            } else if !self@.contains_key(solver_name@) {
                r matches Lookup::Refused(Error::NotStarted(name)) && name@ == solver_name@
            } else {
                match self@[solver_name@] {
                    Compilation::Done(outcome) => r matches Lookup::Ready(o) && *o == outcome,
                    Compilation::Started(handle) => r matches Lookup::Pending(h) && *h == handle,
                }
            },
    {
        if cancelled {
            return Lookup::Refused(Error::Cancelled);
        }
        match self.compilations.get(&solver_name.to_owned()) {
            None => Lookup::Refused(Error::NotStarted(solver_name.to_owned())),
            Some(Compilation::Done(outcome)) => Lookup::Ready(outcome),
            Some(Compilation::Started(handle)) => Lookup::Pending(handle),
        }
    }

    /// Forgets the compilations of `solver_names` that are under way, and hands them out to be
    /// called off. Those that are done stay.
    pub fn stop_all(&mut self, solver_names: Vec<String>) -> (r: Vec<Arc<S>>)
        requires
            old(self).wf(),
        ensures
            final(self).wf(),
            final(self)@ == without_started(old(self)@, ids(solver_names@)),
            r@ == to_stop(old(self)@, ids(solver_names@)),
    {
        let ghost before = self@;
        let ghost all = ids(solver_names@);
        let mut out: Vec<Arc<S>> = Vec::new();
        let mut i: usize = 0;
        assert(self@ =~= without_started(before, all.take(0)));
        while i < solver_names.len()
            invariant
                i <= solver_names@.len(),
                self.wf(),
                all == ids(solver_names@),
                self@ == without_started(before, all.take(i as int)),
                out@ == to_stop(before, all.take(i as int)),
            decreases solver_names@.len() - i,
        {
            let name = solver_names[i].clone();
            let ghost names = all.take(i as int);
            let ghost more = all.take(i + 1);
            let ghost now = self@;
            proof {
                assert(more.drop_last() =~= names);
                assert(more.last() == name@);
                assert(more =~= names.push(name@));
                assert forall|id: Seq<char>| #[trigger]
                    more.contains(id) <==> names.contains(id) || id == name@ by {
                    if names.contains(id) {
                        let j = choose|j: int| 0 <= j < names.len() && names[j] == id;
                        assert(more[j] == id);
                    }
                    assert(more[i as int] == name@);
                }
                assert(is_under_way(now, name@) <==> is_under_way(before, name@) && !names.contains(
                    name@,
                ));
            }
            let under_way = match self.compilations.get(&name) {
                Some(Compilation::Started(_)) => true,
                _ => false,
            };
            if under_way {
                match self.compilations.remove(&name) {
                    Some(Compilation::Started(handle)) => {
                        out.push(handle);
                    },
                    _ => {},
                }
            }
            assert(self@ =~= without_started(before, more));
            i += 1;
        }
        assert(all.take(i as int) =~= all);
        out
    }
}

/// What the end of the wait for the compilation of `solver_name` means.
pub fn after_waiting<C, E>(solver_name: &str, waited: Waited<C, E>) -> (r: Result<
    Arc<Outcome<C, E>>,
    Error<E>,
>)
    ensures
        match waited {
            Waited::Cancelled => r matches Err(Error::Cancelled),
            Waited::Closed => r matches Err(Error::ChannelClosed(name)) && name@ == solver_name@,
            Waited::Value(None) => r matches Err(Error::CompilationUnfinishedAfterWaiting(name))
                && name@ == solver_name@,
            Waited::Value(Some(outcome)) => r == Ok::<Arc<Outcome<C, E>>, Error<E>>(outcome),
        },
{
    match waited {
        Waited::Cancelled => Err(Error::Cancelled),
        Waited::Closed => Err(Error::ChannelClosed(solver_name.to_owned())),
        Waited::Value(None) => Err(
            Error::CompilationUnfinishedAfterWaiting(solver_name.to_owned()),
        ),
        Waited::Value(Some(outcome)) => Ok(outcome),
    }
}

/// Where compilations were started for solvers that had none, stopping them undoes it.
pub proof fn law_stop_undoes_start<C, E, S>(
    compilations: Map<Seq<char>, Compilation<C, E, S>>,
    started: Seq<(String, Arc<S>)>,
)
    requires
        forall|i: int|
            0 <= i < started.len() ==> !compilations.contains_key(#[trigger] started[i].0@),
    ensures
        without_started(
            with_started(compilations, started),
            started.map_values(|s: (String, Arc<S>)| s.0@),
        ) == compilations,
{
    let names = started.map_values(|s: (String, Arc<S>)| s.0@);
    let now = with_started(compilations, started);
    lemma_with_started(compilations, started);
    assert forall|id: Seq<char>| names.contains(id) implies !compilations.contains_key(id) by {
        let i = choose|i: int| 0 <= i < names.len() && names[i] == id;
        assert(started[i].0@ == id);
    }
    assert(without_started(now, names) =~= compilations);
}

/// What the compilations are once some were added: those that were added are under way, the others
/// are what they were.
pub proof fn lemma_with_started<C, E, S>(
    compilations: Map<Seq<char>, Compilation<C, E, S>>,
    started: Seq<(String, Arc<S>)>,
)
    ensures
        ({
            let names = started.map_values(|s: (String, Arc<S>)| s.0@);
            let now = with_started(compilations, started);
            forall|id: Seq<char>| #[trigger]
                now.contains_key(id) == (compilations.contains_key(id) || names.contains(id)) && (
                if names.contains(id) {
                    now[id] is Started
                } else {
                    now[id] == compilations[id]
                })
        }),
    decreases started.len(),
{
    let names = started.map_values(|s: (String, Arc<S>)| s.0@);
    let now = with_started(compilations, started);
    if started.len() > 0 {
        let rest = started.drop_last();
        let less = rest.map_values(|s: (String, Arc<S>)| s.0@);
        lemma_with_started(compilations, rest);
        assert(names =~= less.push(started.last().0@));
        assert forall|id: Seq<char>| #[trigger] now.contains_key(id) == (compilations.contains_key(
            id,
        ) || names.contains(id)) && (if names.contains(id) {
            now[id] is Started
        } else {
            now[id] == compilations[id]
        }) by {
            assert(names[less.len() as int] == started.last().0@);
            if less.contains(id) {
                let i = choose|i: int| 0 <= i < less.len() && less[i] == id;
                assert(names[i] == id);
            }
            assert(with_started(compilations, rest).contains_key(id) == (compilations.contains_key(
                id,
            ) || less.contains(id)));
        }
    }
}

/// Every compilation that stopping forgets is handed out to be called off.
pub proof fn law_forgotten_are_called_off<C, E, S>(
    compilations: Map<Seq<char>, Compilation<C, E, S>>,
    names: Seq<Seq<char>>,
    id: Seq<char>,
)
    requires
        compilations.contains_key(id),
        !without_started(compilations, names).contains_key(id),
    ensures
        compilations[id] is Started,
        to_stop(compilations, names).contains(compilations[id]->Started_0),
    decreases names.len(),
{
    assert(names.contains(id) && is_under_way(compilations, id));
    let rest = names.drop_last();
    let before = to_stop(compilations, rest);
    let now = to_stop(compilations, names);
    if rest.contains(id) {
        law_forgotten_are_called_off(compilations, rest, id);
        let i = choose|i: int| 0 <= i < before.len() && before[i] == compilations[id]->Started_0;
        assert(now[i] == compilations[id]->Started_0);
    } else {
        let i = choose|i: int| 0 <= i < names.len() && names[i] == id;
        if i < rest.len() {
            assert(rest[i] == id);
        }
        assert(names.last() == id);
        assert(now[before.len() as int] == compilations[id]->Started_0);
    }
}

/// Stopping compilations touches none that is done, and leaves none of those named under way.
pub proof fn law_stop_spares_done<C, E, S>(
    compilations: Map<Seq<char>, Compilation<C, E, S>>,
    names: Seq<Seq<char>>,
    id: Seq<char>,
)
    ensures
        compilations.contains_key(id) && compilations[id] is Done ==> without_started(
            compilations,
            names,
        ).contains_key(id) && without_started(compilations, names)[id] == compilations[id],
        names.contains(id) ==> !is_under_way(without_started(compilations, names), id),
        !names.contains(id) ==> without_started(compilations, names).contains_key(id)
            == compilations.contains_key(id),
{
}

/// A compilation that was started is under way with what it takes to call it off and to wait for it; of
/// those for one solver, the last counts.
pub proof fn law_started_can_be_waited_for<C, E, S>(
    compilations: Map<Seq<char>, Compilation<C, E, S>>,
    started: Seq<(String, Arc<S>)>,
    i: int,
)
    requires
        0 <= i < started.len(),
        forall|j: int| i < j < started.len() ==> (#[trigger] started[j]).0@ != started[i].0@,
    ensures
        with_started(compilations, started).contains_key(started[i].0@),
        with_started(compilations, started)[started[i].0@] == Compilation::<C, E, S>::Started(
            started[i].1,
        ),
    decreases started.len(),
{
    let rest = started.drop_last();
    if i < rest.len() {
        assert(started[started.len() - 1].0@ != started[i].0@);
        assert forall|j: int| i < j < rest.len() implies (#[trigger] rest[j]).0@ != rest[i].0@ by {
            assert(started[j].0@ != started[i].0@);
        }
        law_started_can_be_waited_for(compilations, rest, i);
    }
}

/// Starting compilations touches none but those that are started.
pub proof fn law_start_spares_the_others<C, E, S>(
    compilations: Map<Seq<char>, Compilation<C, E, S>>,
    started: Seq<(String, Arc<S>)>,
    id: Seq<char>,
)
    requires
        forall|j: int| 0 <= j < started.len() ==> (#[trigger] started[j]).0@ != id,
    ensures
        with_started(compilations, started).contains_key(id) == compilations.contains_key(id),
        compilations.contains_key(id) ==> with_started(compilations, started)[id]
            == compilations[id],
    decreases started.len(),
{
    if started.len() > 0 {
        let rest = started.drop_last();
        assert(started[started.len() - 1].0@ != id);
        assert forall|j: int| 0 <= j < rest.len() implies (#[trigger] rest[j]).0@ != id by {
            assert(started[j].0@ != id);
        }
        law_start_spares_the_others(compilations, rest, id);
    }
}

/// Stopping compilations hands out what is under way of those named, in the order of the names, and
/// nothing else, where no name comes twice; and it forgets none but those.
pub proof fn law_stop_hands_out_what_is_under_way<C, E, S>(
    compilations: Map<Seq<char>, Compilation<C, E, S>>,
    names: Seq<Seq<char>>,
)
    requires
        names.no_duplicates(),
    ensures
        to_stop(compilations, names) == names.filter(
            |id: Seq<char>| compilations.contains_key(id) && compilations[id] is Started,
        ).map_values(|id: Seq<char>| compilations[id]->Started_0),
        forall|id: Seq<char>| #[trigger]
            without_started(compilations, names).contains_key(id) <==> compilations.contains_key(id)
                && !(names.contains(id) && compilations[id] is Started),
        forall|id: Seq<char>| #[trigger]
            without_started(compilations, names).contains_key(id) ==> without_started(
                compilations,
                names,
            )[id] == compilations[id],
    decreases names.len(),
{
    let keep = |id: Seq<char>| compilations.contains_key(id) && compilations[id] is Started;
    let handle = |id: Seq<char>| compilations[id]->Started_0;
    reveal(Seq::filter);
    if names.len() == 0 {
        assert(to_stop(compilations, names) =~= names.filter(keep).map_values(handle));
    } else {
        let rest = names.drop_last();
        let name = names.last();
        assert(rest.no_duplicates());
        law_stop_hands_out_what_is_under_way(compilations, rest);
        assert(!rest.contains(name)) by {
            if rest.contains(name) {
                let i = choose|i: int| 0 <= i < rest.len() && rest[i] == name;
                assert(names[i] == names[names.len() - 1]);
            }
        }
        assert(to_stop(compilations, names) =~= names.filter(keep).map_values(handle));
    }
}

/// A name that comes again hands nothing more out.
pub proof fn law_stop_hands_out_once<C, E, S>(
    compilations: Map<Seq<char>, Compilation<C, E, S>>,
    names: Seq<Seq<char>>,
    again: Seq<Seq<char>>,
)
    requires
        forall|i: int| 0 <= i < again.len() ==> names.contains(#[trigger] again[i]),
    ensures
        to_stop(compilations, names + again) == to_stop(compilations, names),
    decreases again.len(),
{
    if again.len() == 0 {
        assert(names + again =~= names);
    } else {
        let rest = again.drop_last();
        assert forall|i: int| 0 <= i < rest.len() implies names.contains(#[trigger] rest[i]) by {
            assert(rest[i] == again[i]);
        }
        law_stop_hands_out_once(compilations, names, rest);
        let all = names + again;
        assert(all.drop_last() =~= names + rest);
        assert(names.contains(again[again.len() - 1]));
        let k = choose|k: int| 0 <= k < names.len() && names[k] == again.last();
        assert((names + rest)[k] == all.last());
    }
}

} // verus!
