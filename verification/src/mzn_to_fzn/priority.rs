//! Solvers waiting to be compiled, ordered by priority.
use std::collections::BTreeMap;
use vstd::prelude::*;

verus! {

/// The name by which a solver is known.
pub type SolverId = String;

/// A rank in the compilation queue: the smaller the number, the sooner the solver is compiled.
#[derive(Debug, Clone, Copy, PartialEq, Eq, Structural)]
pub struct Priority(pub u64);

/// Whether `p` is the smallest key of `queue`.
pub open spec fn is_least(queue: Map<u64, Seq<char>>, p: u64) -> bool {
    queue.contains_key(p) && forall|q: u64| #[trigger] queue.contains_key(q) ==> p <= q
}

/// Whether `p` is the smallest key of `queue` under which `id` waits.
pub open spec fn is_least_of(queue: Map<u64, Seq<char>>, id: Seq<char>, p: u64) -> bool {
    &&& queue.contains_key(p) && queue[p] == id
    &&& forall|q: u64| #[trigger] queue.contains_key(q) && queue[q] == id ==> p <= q
}

/// A queue of solvers, each under a priority of its own.
#[derive(Debug)]
pub struct SolverPriority(BTreeMap<u64, SolverId>);

impl View for SolverPriority {
    type V = Map<u64, Seq<char>>;

    closed spec fn view(&self) -> Map<u64, Seq<char>> {
        self.0@.map_values(|id: SolverId| id@)
    }
}

impl SolverPriority {
    /// The queue is finite.
    pub proof fn lemma_finite(&self)
        ensures
            self@.dom().finite(),
    {
        assert(self@.dom() =~= self.0@.dom());
    }

    /// A queue in which no solver waits.
    pub fn empty() -> (r: Self)
        ensures
            r@ == Map::<u64, Seq<char>>::empty(),
    {
        let r = SolverPriority(BTreeMap::new());
        assert(r@ =~= Map::<u64, Seq<char>>::empty());
        r
    }

    /// Queues the given solvers, the first with the highest priority.
    pub fn from_descending_priority(solvers: Vec<String>) -> (r: Self)
        ensures
            r@ == Map::new(|p: u64| p < solvers@.len(), |p: u64| solvers@[p as int]@),
    {
        let mut queue = SolverPriority::empty();
        let mut i: usize = 0;
        while i < solvers.len()
            invariant
                i <= solvers@.len(),
                queue@ == Map::new(|p: u64| p < i, |p: u64| solvers@[p as int]@),
            decreases solvers@.len() - i,
        {
            queue.insert(solvers[i].clone(), Priority(i as u64));
            i += 1;
            assert(queue@ =~= Map::new(|p: u64| p < i, |p: u64| solvers@[p as int]@));
        }
        queue
    }

    /// Takes out the solver with the highest priority.
    pub fn take_next(&mut self) -> (r: Option<(SolverId, Priority)>)
        ensures
            match r {
                Some((id, p)) => is_least(old(self)@, p.0) && id@ == old(self)@[p.0] && final(self)@
                    == old(self)@.remove(p.0),
                None => old(self)@ == Map::<u64, Seq<char>>::empty() && final(self)@ == old(self)@,
            },
    {
        match self.first_key() {
            Some(p) => {
                let ghost before = self@;
                match self.0.remove(&p) {
                    Some(id) => {
                        assert(self@ =~= before.remove(p));
                        Some((id, Priority(p)))
                    },
                    None => None,
                }
            },
            None => None,
        }
    }

    /// The smallest key in use.
    fn first_key(&self) -> (r: Option<u64>)
        ensures
            match r {
                Some(p) => is_least(self@, p),
                None => self@ == Map::<u64, Seq<char>>::empty(),
            },
    {
        broadcast use vstd::std_specs::btree::group_btree_axioms;
        broadcast use vstd::laws_cmp::group_laws_cmp;

        for entry in it: self.0.iter()
            invariant
                it.index() == 0,
                it.seq() == vstd::std_specs::iter::IteratorSpec::remaining(
                    &vstd::std_specs::btree::spec_btree_map_iter(&self.0),
                ),
                vstd::std_specs::btree::increasing_seq(
                    it.seq().map_values(|kv: (&u64, &SolverId)| *kv.0),
                ),
        {
            proof {
                let keys = it.seq().map_values(|kv: (&u64, &SolverId)| *kv.0);
                assert forall|q: u64| #[trigger] self@.contains_key(q) implies *entry.0 <= q by {
                    assert(self.0@.contains_key(q));
                    let j = choose|j: int|
                        0 <= j < it.seq().len() && it.seq()[j] == (&q, &self.0@[q]);
                    assert(keys[j] == q);
                    assert(keys[0] == *entry.0);
                    assert(vstd::laws_cmp::obeys_cmp::<u64>());
                    if j > 0 {
                        assert(vstd::std_specs::cmp::OrdSpec::cmp_spec(&keys[0], &keys[j]) is Less);
                    }
                }
                assert(self.0@.contains_key(*it.seq()[0].0));
            }
            return Some(*entry.0);
        }
        assert(self@ =~= Map::<u64, Seq<char>>::empty());
        None
    }

    /// Takes out the solver `id` where it waits with its highest priority.
    pub fn remove_by_solver_id(&mut self, id: &SolverId) -> (r: Option<Priority>)
        ensures
            match r {
                Some(p) => is_least_of(old(self)@, id@, p.0) && final(self)@ == old(self)@.remove(
                    p.0,
                ),
                None => final(self)@ == old(self)@ && forall|p: u64| #[trigger]
                    old(self)@.contains_key(p) ==> old(self)@[p] != id@,
            },
    {
        match self.first_key_of(id) {
            Some(p) => {
                let ghost before = self@;
                self.0.remove(&p);
                assert(self@ =~= before.remove(p));
                Some(Priority(p))
            },
            None => None,
        }
    }

    /// The smallest key under which `id` waits.
    fn first_key_of(&self, id: &SolverId) -> (r: Option<u64>)
        ensures
            match r {
                Some(p) => is_least_of(self@, id@, p),
                None => forall|p: u64| #[trigger] self@.contains_key(p) ==> self@[p] != id@,
            },
    {
        broadcast use vstd::std_specs::btree::group_btree_axioms;
        broadcast use vstd::laws_cmp::group_laws_cmp;

        for entry in it: self.0.iter()
            invariant
                it.seq() == vstd::std_specs::iter::IteratorSpec::remaining(
                    &vstd::std_specs::btree::spec_btree_map_iter(&self.0),
                ),
                vstd::std_specs::btree::increasing_seq(
                    it.seq().map_values(|kv: (&u64, &SolverId)| *kv.0),
                ),
                forall|j: int| 0 <= j < it.index() ==> (#[trigger] it.seq()[j]).1@ != id@,
        {
            if *entry.1 == *id {
                proof {
                    let keys = it.seq().map_values(|kv: (&u64, &SolverId)| *kv.0);
                    let i = it.index();
                    assert forall|q: u64| #[trigger]
                        self@.contains_key(q) && self@[q] == id@ implies *entry.0 <= q by {
                        assert(self.0@.contains_key(q));
                        let j = choose|j: int|
                            0 <= j < it.seq().len() && it.seq()[j] == (&q, &self.0@[q]);
                        assert(it.seq()[j].1@ == id@);
                        assert(keys[j] == q);
                        assert(keys[i] == *entry.0);
                        assert(vstd::laws_cmp::obeys_cmp::<u64>());
                        if j > i {
                            assert(vstd::std_specs::cmp::OrdSpec::cmp_spec(
                                &keys[i],
                                &keys[j],
                            ) is Less);
                        }
                    }
                    assert(self.0@.contains_key(*it.seq()[i].0));
                }
                return Some(*entry.0);
            }
        }
        assert forall|p: u64| #[trigger] self@.contains_key(p) implies self@[p] != id@ by {
            assert(self.0@.contains_key(p));
            let s = vstd::std_specs::iter::IteratorSpec::remaining(
                &vstd::std_specs::btree::spec_btree_map_iter(&self.0),
            );
            let j = choose|j: int| 0 <= j < s.len() && s[j] == (&p, &self.0@[p]);
            assert(s[j].1@ != id@);
        }
        None
    }

    /// Adds a solver under a priority, in place of the solver that waited under it.
    pub fn insert(&mut self, solver_id: SolverId, priority: Priority)
        ensures
            final(self)@ == old(self)@.insert(priority.0, solver_id@),
    {
        let ghost before = self@;
        let ghost id = solver_id@;
        self.0.insert(priority.0, solver_id);
        assert(self@ =~= before.insert(priority.0, id));
    }
}

} // verus!
