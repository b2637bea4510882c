//! A map that keeps its entries in the order in which their keys were first inserted.
use vstd::prelude::*;

verus! {

/// A type whose values can be compared for equality by their views.
pub trait MapKey: View + Sized {
    /// Whether two keys have the same view.
    fn same(&self, other: &Self) -> (r: bool)
        ensures
            r == (self@ == other@),
    ;
}

impl MapKey for String {
    fn same(&self, other: &Self) -> (r: bool) {
        *self == *other
    }
}

/// The sum of `f` over the values of a finite map.
pub open spec fn sum_values<K, V>(map: Map<K, V>, f: spec_fn(V) -> nat) -> nat
    decreases map.dom().len(),
    when map.dom().finite()
{
    if map.dom().len() == 0 {
        0
    } else {
        let k = map.dom().choose();
        f(map[k]) + sum_values(map.remove(k), f)
    }
}

/// Taking one entry out takes its value out of the sum.
pub proof fn lemma_sum_remove<K, V>(map: Map<K, V>, f: spec_fn(V) -> nat, k: K)
    requires
        map.dom().finite(),
        map.contains_key(k),
    ensures
        sum_values(map, f) == f(map[k]) + sum_values(map.remove(k), f),
    decreases map.dom().len(),
{
    let first = map.dom().choose();
    assert(map.dom().contains(first));
    assert(map.remove(first).dom() =~= map.dom().remove(first));
    if first != k {
        assert(map.remove(k).dom() =~= map.dom().remove(k));
        lemma_sum_remove(map.remove(first), f, k);
        lemma_sum_remove(map.remove(k), f, first);
        assert(map.remove(first).remove(k) =~= map.remove(k).remove(first));
    }
}

/// Putting an entry in adds its value in place of that of the entry it replaces.
pub proof fn lemma_sum_insert<K, V>(map: Map<K, V>, f: spec_fn(V) -> nat, k: K, v: V)
    requires
        map.dom().finite(),
    ensures
        sum_values(map.insert(k, v), f) == f(v) + sum_values(map.remove(k), f),
        map.contains_key(k) ==> sum_values(map, f) == f(map[k]) + sum_values(map.remove(k), f),
        !map.contains_key(k) ==> sum_values(map, f) == sum_values(map.remove(k), f),
{
    assert(map.insert(k, v).dom() =~= map.dom().insert(k));
    lemma_sum_remove(map.insert(k, v), f, k);
    assert(map.insert(k, v).remove(k) =~= map.remove(k));
    if map.contains_key(k) {
        lemma_sum_remove(map, f, k);
    } else {
        assert(map.remove(k) =~= map);
    }
}

/// An insertion-ordered map, viewed as a finite mathematical map.
#[derive(Debug, Clone)]
pub struct VecMap<K: MapKey, V> {
    entries: Vec<(K, V)>,
}

impl<K: MapKey, V> View for VecMap<K, V> {
    type V = Map<K::V, V>;

    closed spec fn view(&self) -> Map<K::V, V> {
        Map::new(
            |k: K::V| exists|i: int| 0 <= i < self.entries@.len() && #[trigger] self.entries@[i].0@ == k,
            |k: K::V| self.entries@[self.position(k)].1,
        )
    }
}

impl<K: MapKey, V> VecMap<K, V> {
    spec fn position(&self, k: K::V) -> int {
        choose|i: int| 0 <= i < self.entries@.len() && #[trigger] self.entries@[i].0@ == k
    }

    /// No key occurs twice.
    pub closed spec fn wf(&self) -> bool {
        &&& forall|i: int, j: int|
            0 <= i < j < self.entries@.len() ==> #[trigger] self.entries@[i].0@
                != #[trigger] self.entries@[j].0@
        &&& self@.dom().finite()
        &&& self@.dom().len() == self.entries@.len()
    }

    /// The entries in order, each key taken by its view.
    pub closed spec fn pairs(&self) -> Seq<(K::V, V)> {
        Seq::new(self.entries@.len(), |i: int| (self.entries@[i].0@, self.entries@[i].1))
    }

    /// The listed pairs are exactly the entries of the map, each listed once.
    pub proof fn lemma_pairs(&self)
        requires
            self.wf(),
        ensures
            self@.dom().finite(),
            self@.dom().len() == self.pairs().len(),
            forall|i: int|
                0 <= i < self.pairs().len() ==> self@.contains_key(#[trigger] self.pairs()[i].0)
                    && self@[self.pairs()[i].0] == self.pairs()[i].1,
            forall|i: int, j: int|
                0 <= i < j < self.pairs().len() ==> #[trigger] self.pairs()[i].0
                    != #[trigger] self.pairs()[j].0,
            forall|k: K::V| #[trigger]
                self@.contains_key(k) ==> exists|i: int|
                    0 <= i < self.pairs().len() && #[trigger] self.pairs()[i] == (k, self@[k]),
    {
        assert forall|i: int| 0 <= i < self.pairs().len() implies self@.contains_key(
            #[trigger] self.pairs()[i].0,
        ) && self@[self.pairs()[i].0] == self.pairs()[i].1 by {
            let k = self.entries@[i].0@;
            let p = self.position(k);
            assert(0 <= p < self.entries@.len() && self.entries@[p].0@ == k);
            assert(p == i);
        }
        assert forall|k: K::V| #[trigger] self@.contains_key(k) implies exists|i: int|
            0 <= i < self.pairs().len() && #[trigger] self.pairs()[i] == (k, self@[k]) by {
            let p = self.position(k);
            assert(self.pairs()[p] == (k, self@[k]));
        }
    }

    /// The empty map.
    pub fn new() -> (r: Self)
        ensures
            r.wf(),
            r@ == Map::<K::V, V>::empty(),
            r.pairs() == Seq::<(K::V, V)>::empty(),
    {
        let r = VecMap { entries: Vec::new() };
        assert(r@ =~= Map::<K::V, V>::empty());
        r
    }

    /// How many entries there are.
    pub fn len(&self) -> (r: usize)
        ensures
            r == self.pairs().len(),
    {
        self.entries.len()
    }

    /// The entry at position `i`.
    pub fn entry(&self, i: usize) -> (r: (&K, &V))
        requires
            i < self.pairs().len(),
        ensures
            (r.0@, *r.1) == self.pairs()[i as int],
    {
        let e = &self.entries[i];
        (&e.0, &e.1)
    }

    fn find(&self, k: &K) -> (r: Option<usize>)
        ensures
            match r {
                Some(i) => i < self.entries@.len() && self.entries@[i as int].0@ == k@,
                None => forall|i: int|
                    0 <= i < self.entries@.len() ==> #[trigger] self.entries@[i].0@ != k@,
            },
    {
        let mut i: usize = 0;
        while i < self.entries.len()
            invariant
                i <= self.entries@.len(),
                forall|j: int| 0 <= j < i ==> #[trigger] self.entries@[j].0@ != k@,
            decreases self.entries@.len() - i,
        {
            if self.entries[i].0.same(k) {
                return Some(i);
            }
            i += 1;
        }
        None
    }

    /// Whether `k` has an entry.
    pub fn contains_key(&self, k: &K) -> (r: bool)
        requires
            self.wf(),
        ensures
            r == self@.contains_key(k@),
    {
        self.find(k).is_some()
    }

    /// The value of `k`, if it has one.
    pub fn get(&self, k: &K) -> (r: Option<&V>)
        requires
            self.wf(),
        ensures
            match r {
                Some(v) => self@.contains_key(k@) && *v == self@[k@],
                None => !self@.contains_key(k@),
            },
    {
        match self.find(k) {
            Some(i) => {
                proof {
                    self.lemma_pairs();
                    assert(self.pairs()[i as int].0 == k@);
                }
                Some(&self.entries[i].1)
            },
            None => None,
        }
    }

    /// Takes out the entry of `k`, if there is one; the others keep their order.
    pub fn remove(&mut self, k: &K) -> (r: Option<V>)
        requires
            old(self).wf(),
        ensures
            final(self).wf(),
            final(self)@ == old(self)@.remove(k@),
            match r {
                Some(v) => old(self)@.contains_key(k@) && v == old(self)@[k@],
                None => !old(self)@.contains_key(k@),
            },
    {
        let ghost before = *self;
        match self.find(k) {
            Some(i) => {
                let (_, v) = self.entries.remove(i);
                proof {
                    before.lemma_pairs();
                    assert(before.pairs()[i as int].0 == k@);
                    assert forall|x: K::V| #[trigger] self@.contains_key(x) == before@.remove(
                        k@,
                    ).contains_key(x) by {
                        if before@.remove(k@).contains_key(x) {
                            let p = before.position(x);
                            assert(before.entries@[p].0@ == x);
                            if p < i {
                                assert(self.entries@[p].0@ == x);
                            } else {
                                assert(self.entries@[p - 1].0@ == x);
                            }
                        }
                        if self@.contains_key(x) {
                            let p = self.position(x);
                            assert(self.entries@[p].0@ == x);
                            if p < i {
                                assert(before.entries@[p].0@ == x);
                            } else {
                                assert(before.entries@[p + 1].0@ == x);
                            }
                        }
                    }
                    assert(self@.dom() =~= before@.remove(k@).dom());
                    assert(self.wf());
                    self.lemma_pairs();
                    assert forall|x: K::V| #[trigger] self@.contains_key(x) implies self@[x]
                        == before@[x] by {
                        let p = self.position(x);
                        assert(self.pairs()[p].0 == x);
                        let q = if p < i { p } else { p + 1 };
                        assert(before.pairs()[q].0 == x);
                    }
                    assert(self@ =~= before@.remove(k@));
                }
                Some(v)
            },
            None => {
                assert(self@ =~= before@.remove(k@));
                None
            },
        }
    }

    /// Gives `k` the value `v`, in place of an earlier value if there was one.
    pub fn insert(&mut self, k: K, v: V)
        requires
            old(self).wf(),
        ensures
            final(self).wf(),
            final(self)@ == old(self)@.insert(k@, v),
    {
        let ghost before = *self;
        match self.find(&k) {
            Some(i) => {
                self.entries[i].1 = v;
                proof {
                    before.lemma_pairs();
                    assert(before.pairs()[i as int].0 == k@);
                    assert forall|j: int| 0 <= j < self.entries@.len() implies #[trigger] self.entries@[j].0@
                        == before.entries@[j].0@ by {}
                    assert forall|x: K::V| #[trigger] self@.contains_key(x) == before@.insert(
                        k@,
                        v,
                    ).contains_key(x) by {
                        if before@.contains_key(x) {
                            let p = before.position(x);
                            assert(self.entries@[p].0@ == x);
                        }
                        if self@.contains_key(x) {
                            let p = self.position(x);
                            assert(before.entries@[p].0@ == x);
                        }
                    }
                    assert(self@.dom() =~= before@.insert(k@, v).dom());
                    assert(self@.dom() =~= before@.dom());
                    self.lemma_pairs();
                    assert forall|x: K::V| #[trigger] self@.contains_key(x) implies self@[x]
                        == before@.insert(k@, v)[x] by {
                        let p = self.position(x);
                        assert(self.pairs()[p].0 == x);
                        assert(before.pairs()[p].0 == x);
                    }
                    assert(self@ =~= before@.insert(k@, v));
                }
            },
            None => {
                let ghost kv = k@;
                self.entries.push((k, v));
                proof {
                    before.lemma_pairs();
                    assert forall|x: K::V| #[trigger] self@.contains_key(x) == before@.insert(
                        kv,
                        v,
                    ).contains_key(x) by {
                        if before@.contains_key(x) {
                            let p = before.position(x);
                            assert(self.entries@[p].0@ == x);
                        }
                        if x == kv {
                            assert(self.entries@[before.entries@.len() as int].0@ == x);
                        }
                        if self@.contains_key(x) && x != kv {
                            let p = self.position(x);
                            assert(before.entries@[p].0@ == x);
                        }
                    }
                    assert(self@.dom() =~= before@.insert(kv, v).dom());
                    assert(!before@.contains_key(kv));
                    self.lemma_pairs();
                    assert forall|x: K::V| #[trigger] self@.contains_key(x) implies self@[x]
                        == before@.insert(kv, v)[x] by {
                        let p = self.position(x);
                        assert(self.pairs()[p].0 == x);
                        if x != kv {
                            assert(before.pairs()[p].0 == x);
                        }
                    }
                    assert(self@ =~= before@.insert(kv, v));
                }
            },
        }
    }
}

} // verus!
