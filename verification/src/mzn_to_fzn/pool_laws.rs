//! What holds of a pool of compilations whatever is done to it.
use super::pool::{
    extras, ids, is_last_extra, last_extra, least_key, lemma_main_cores_insert, lemma_main_cores_remove,
    main_cores, place_of, priority_of, Cores, MainCompilation, PoolView, RunningCompilation,
};
use super::priority::{is_least, is_least_of, Priority, SolverId};
use vstd::prelude::*;

verus! {

/// Where there is an extra compilation, there is one with the lowest priority.
pub proof fn lemma_last_extra_exists(running: Map<Seq<char>, RunningCompilation>)
    requires
        running.dom().finite(),
        extras(running).len() > 0,
    ensures
        is_last_extra(running, last_extra(running)),
    decreases running.dom().len(),
{
    let id = extras(running).choose();
    assert(extras(running).contains(id));
    let rest = running.remove(id);
    assert(rest.dom() =~= running.dom().remove(id));
    assert(extras(rest) =~= extras(running).remove(id));
    if extras(rest).len() == 0 {
        assert forall|other: Seq<char>| #[trigger]
            running.contains_key(other) && running[other] is Extra implies other == id by {
            assert(extras(running).contains(other));
            if other != id {
                assert(extras(rest).contains(other));
            }
        }
        assert(is_last_extra(running, id));
    } else {
        lemma_last_extra_exists(rest);
        let last = last_extra(rest);
        assert(running.contains_key(last) && running[last] is Extra);
        let best = if running[id]->Extra_0.0 > running[last]->Extra_0.0 {
            id
        } else {
            last
        };
        assert forall|other: Seq<char>| #[trigger]
            running.contains_key(other) && running[other] is Extra implies running[other]->Extra_0.0
            <= running[best]->Extra_0.0 by {
            if other != id {
                assert(rest.contains_key(other));
            }
        }
        assert(is_last_extra(running, best));
    }
}

/// A queue in which something waits has a smallest key.
pub proof fn lemma_least_key_exists(queue: Map<u64, Seq<char>>)
    requires
        queue.dom().finite(),
        queue.dom().len() > 0,
    ensures
        is_least(queue, least_key(queue)),
    decreases queue.dom().len(),
{
    let p = queue.dom().choose();
    assert(queue.dom().contains(p));
    let rest = queue.remove(p);
    assert(rest.dom() =~= queue.dom().remove(p));
    if rest.dom().len() == 0 {
        assert forall|q: u64| #[trigger] queue.contains_key(q) implies p <= q by {
            if q != p {
                assert(rest.dom().contains(q));
            }
        }
        assert(is_least(queue, p));
    } else {
        lemma_least_key_exists(rest);
        let least = least_key(rest);
        assert(rest.contains_key(least));
        let best = if p < least {
            p
        } else {
            least
        };
        assert forall|q: u64| #[trigger] queue.contains_key(q) implies best <= q by {
            if q != p {
                assert(rest.contains_key(q));
            }
        }
        assert(is_least(queue, best));
    }
}

/// Whether `id` has the priority `p`, be it in the queue or, for when it is stopped, while it runs.
pub open spec fn has_place(pool: PoolView, p: u64, id: Seq<char>) -> bool {
    ||| pool.queue.contains_key(p) && pool.queue[p] == id
    ||| pool.running.contains_key(id) && pool.running[id] == RunningCompilation::Extra(Priority(p))
    ||| pool.running.contains_key(id) && (pool.running[id] matches RunningCompilation::Main(main)
        && main.priority == Some(Priority(p)))
}

/// No solver waits twice, and none waits while it is being compiled.
pub open spec fn one_place_each(pool: PoolView) -> bool {
    &&& forall|p: u64, q: u64|
        #![trigger pool.queue.contains_key(p), pool.queue.contains_key(q)]
        pool.queue.contains_key(p) && pool.queue.contains_key(q) && pool.queue[p] == pool.queue[q]
            ==> p == q
    &&& forall|p: u64| #[trigger]
        pool.queue.contains_key(p) ==> !pool.running.contains_key(pool.queue[p])
}

/// The cores that are available are exactly those that the main compilations have brought.
pub open spec fn balanced(pool: PoolView) -> bool {
    &&& one_place_each(pool)
    &&& pool.available == main_cores(pool.running)
}

/// Stopping extra compilations gives back one core each, loses no solver's place, leaves the other
/// cores alone, and keeps order and balance.
pub proof fn lemma_after_stops(pool: PoolView, n: nat)
    requires
        pool.wf(),
        n <= extras(pool.running).len(),
    ensures
        pool.after_stops(n).wf(),
        pool.after_stops(n).used == pool.used - n,
        pool.after_stops(n).available == pool.available,
        extras(pool.after_stops(n).running).len() == extras(pool.running).len() - n,
        forall|p: u64, id: Seq<char>| #[trigger]
            has_place(pool.after_stops(n), p, id) <==> has_place(pool, p, id),
        main_cores(pool.after_stops(n).running) == main_cores(pool.running),
        one_place_each(pool) ==> one_place_each(pool.after_stops(n)),
    decreases n,
{
    if n > 0 {
        lemma_last_extra_exists(pool.running);
        let id = last_extra(pool.running);
        let next = pool.requeue(id);
        pool.lemma_requeue(id);
        lemma_main_cores_remove(pool.running, id);
        assert forall|p: u64, x: Seq<char>| #[trigger] has_place(next, p, x) <==> has_place(
            pool,
            p,
            x,
        ) by {
            assert(pool.running.contains_key(id));
        }
        lemma_after_stops(next, (n - 1) as nat);
        assert forall|p: u64, x: Seq<char>| #[trigger]
            has_place(pool.after_stops(n), p, x) <==> has_place(pool, p, x) by {
            assert(has_place(next, p, x) <==> has_place(pool, p, x));
        }
    }
}

/// Starting waiting solvers takes one core each, leaves the other cores alone, and keeps order and
/// balance; where no solver has two places, none loses its place.
pub proof fn lemma_after_starts(pool: PoolView, n: nat)
    requires
        pool.wf(),
        n <= pool.queue.dom().len(),
    ensures
        pool.after_starts(n).wf(),
        pool.after_starts(n).used == pool.used + n,
        pool.after_starts(n).available == pool.available,
        pool.after_starts(n).queue.dom().len() == pool.queue.dom().len() - n,
        one_place_each(pool) ==> {
            &&& one_place_each(pool.after_starts(n))
            &&& main_cores(pool.after_starts(n).running) == main_cores(pool.running)
            &&& forall|p: u64, id: Seq<char>| #[trigger]
                has_place(pool.after_starts(n), p, id) <==> has_place(pool, p, id)
        },
    decreases n,
{
    if n > 0 {
        lemma_least_key_exists(pool.queue);
        let p = least_key(pool.queue);
        let id = pool.queue[p];
        let next = pool.start_extra(p);
        pool.lemma_start_extra(p);
        lemma_main_cores_insert(pool.running, id, RunningCompilation::Extra(Priority(p)));
        lemma_after_starts(next, (n - 1) as nat);
        if one_place_each(pool) {
            assert(!pool.running.contains_key(id));
            assert forall|q: u64, x: Seq<char>| #[trigger] has_place(next, q, x) <==> has_place(
                pool,
                q,
                x,
            ) by {}
            assert forall|q: u64| #[trigger] next.queue.contains_key(q) implies !next.running.contains_key(
                next.queue[q],
            ) by {
                assert(pool.queue.contains_key(q));
            }
            assert(one_place_each(next));
            assert forall|q: u64, x: Seq<char>| #[trigger]
                has_place(pool.after_starts(n), q, x) <==> has_place(pool, q, x) by {
                assert(has_place(next, q, x) <==> has_place(pool, q, x));
            }
        }
    }
}

/// Of the extra compilations, those with the lowest priorities are stopped, the lowest first.
pub proof fn law_lowest_priority_stops_first(pool: PoolView, n: nat)
    requires
        pool.wf(),
        n <= extras(pool.running).len(),
    ensures
        pool.stopped(n).len() == n,
        forall|i: int|
            0 <= i < n ==> extras(pool.running).contains(#[trigger] pool.stopped(n)[i]),
        forall|i: int, j: int|
            0 <= i < j < n ==> pool.running[#[trigger] pool.stopped(n)[i]]->Extra_0.0
                > pool.running[#[trigger] pool.stopped(n)[j]]->Extra_0.0,
        forall|i: int, id: Seq<char>|
            0 <= i < n && #[trigger] extras(pool.running).contains(id) && !pool.stopped(
                n,
            ).contains(id) ==> pool.running[id]->Extra_0.0 < pool.running[#[trigger] pool.stopped(
                n,
            )[i]]->Extra_0.0,
    decreases n,
{
    if n > 0 {
        lemma_last_extra_exists(pool.running);
        let last = last_extra(pool.running);
        let next = pool.requeue(last);
        pool.lemma_requeue(last);
        law_lowest_priority_stops_first(next, (n - 1) as nat);
        let rest = next.stopped((n - 1) as nat);
        let all = pool.stopped(n);
        assert(all == seq![last] + rest);
        assert(all[0] == last);
        assert forall|i: int| 1 <= i < n implies all[i] == #[trigger] rest[i - 1] by {}
        assert forall|id: Seq<char>| #[trigger] extras(next.running).contains(id) implies {
            &&& extras(pool.running).contains(id)
            &&& next.running[id] == pool.running[id]
            &&& pool.running[id]->Extra_0.0 < pool.running[last]->Extra_0.0
        } by {
            assert(pool.running.contains_key(id) && pool.running.contains_key(last));
            assert(priority_of(pool.running[id]) != priority_of(pool.running[last]));
        }
        assert forall|i: int| 0 <= i < n implies extras(pool.running).contains(
            #[trigger] all[i],
        ) by {
            if i > 0 {
                assert(all[i] == rest[i - 1]);
            }
        }
        assert forall|i: int, j: int| 0 <= i < j < n implies pool.running[#[trigger] all[i]]->Extra_0.0
            > pool.running[#[trigger] all[j]]->Extra_0.0 by {
            assert(all[j] == rest[j - 1]);
            if i > 0 {
                assert(all[i] == rest[i - 1]);
            }
        }
        assert forall|i: int, id: Seq<char>|
            0 <= i < n && #[trigger] extras(pool.running).contains(id) && !all.contains(id) implies pool.running[id]->Extra_0.0
            < pool.running[#[trigger] all[i]]->Extra_0.0 by {
            assert(id != last) by {
                assert(all.contains(all[0]));
            }
            assert(extras(next.running).contains(id));
            assert(!rest.contains(id)) by {
                if rest.contains(id) {
                    let j = choose|j: int| 0 <= j < rest.len() && rest[j] == id;
                    assert(all[j + 1] == id);
                }
            }
            if i > 0 {
                assert(all[i] == rest[i - 1]);
            }
        }
    }
}

/// The keys under which the `n` solvers that start first wait.
pub open spec fn started_keys(pool: PoolView, n: nat) -> Seq<u64>
    decreases n,
{
    if n == 0 {
        Seq::empty()
    } else {
        let p = least_key(pool.queue);
        seq![p] + started_keys(pool.start_extra(p), (n - 1) as nat)
    }
}

/// Of the waiting solvers, those with the highest priorities are started, the highest first.
pub proof fn law_highest_priority_starts_first(pool: PoolView, n: nat)
    requires
        pool.wf(),
        n <= pool.queue.dom().len(),
    ensures
        pool.started(n).len() == n,
        started_keys(pool, n).len() == n,
        forall|i: int|
            0 <= i < n ==> pool.queue.contains_key(#[trigger] started_keys(pool, n)[i])
                && pool.started(n)[i] == pool.queue[started_keys(pool, n)[i]],
        forall|i: int, j: int|
            0 <= i < j < n ==> #[trigger] started_keys(pool, n)[i] < #[trigger] started_keys(
                pool,
                n,
            )[j],
        forall|i: int, p: u64|
            0 <= i < n && #[trigger] pool.queue.contains_key(p) && !started_keys(pool, n).contains(
                p,
            ) ==> #[trigger] started_keys(pool, n)[i] < p,
    decreases n,
{
    if n > 0 {
        lemma_least_key_exists(pool.queue);
        let least = least_key(pool.queue);
        let next = pool.start_extra(least);
        pool.lemma_start_extra(least);
        law_highest_priority_starts_first(next, (n - 1) as nat);
        let rest = started_keys(next, (n - 1) as nat);
        let all = started_keys(pool, n);
        assert(all == seq![least] + rest);
        assert forall|i: int| 0 <= i < n implies pool.queue.contains_key(#[trigger] all[i])
            && pool.started(n)[i] == pool.queue[all[i]] by {
            if i > 0 {
                assert(all[i] == rest[i - 1]);
                assert(next.queue.contains_key(rest[i - 1]));
            }
        }
        assert forall|i: int, j: int| 0 <= i < j < n implies #[trigger] all[i]
            < #[trigger] all[j] by {
            assert(all[j] == rest[j - 1]);
            assert(next.queue.contains_key(rest[j - 1]));
            if i > 0 {
                assert(all[i] == rest[i - 1]);
            }
        }
        assert forall|i: int, p: u64|
            0 <= i < n && #[trigger] pool.queue.contains_key(p) && !all.contains(
                p,
            ) implies #[trigger] all[i] < p by {
            assert(p != least) by {
                assert(all.contains(all[0]));
            }
            assert(next.queue.contains_key(p));
            assert(!rest.contains(p)) by {
                if rest.contains(p) {
                    let j = choose|j: int| 0 <= j < rest.len() && rest[j] == p;
                    assert(all[j + 1] == p);
                }
            }
            if i > 0 {
                assert(all[i] == rest[i - 1]);
            }
        }
    }
}

/// Making a compilation a main one keeps the balance of cores.
pub proof fn law_promote_keeps_balance(pool: PoolView, id: Seq<char>, cores: Cores, more: int)
    requires
        pool.wf(),
        balanced(pool),
    ensures
        balanced(pool.promote(id, cores, more)),
{
    let next = pool.promote(id, cores, more);
    let priority = pool.place(id);
    lemma_main_cores_insert(
        pool.running,
        id,
        RunningCompilation::Main(MainCompilation { cores, priority }),
    );
    if !pool.running.contains_key(id) {
        assert forall|p: u64| #[trigger] next.queue.contains_key(p) implies next.queue[p] != id by {
            if pool.queue[p] == id {
                assert(is_least_of(pool.queue, id, p)) by {
                    assert forall|q: u64| #[trigger]
                        pool.queue.contains_key(q) && pool.queue[q] == id implies p <= q by {
                        assert(q == p);
                    }
                }
                let q = choose|q: u64| is_least_of(pool.queue, id, q);
                assert(is_least_of(pool.queue, id, q));
                assert(pool.queue.contains_key(q) && pool.queue.contains_key(p));
            }
        }
    }
    assert forall|p: u64| #[trigger] next.queue.contains_key(p) implies !next.running.contains_key(
        next.queue[p],
    ) by {
        assert(pool.queue.contains_key(p));
    }
}

/// The end of a compilation, be it finished or broken off, keeps the balance of cores.
pub proof fn law_end_keeps_balance(pool: PoolView, id: Seq<char>)
    requires
        pool.wf(),
        balanced(pool),
    ensures
        balanced(pool.finish(id)),
        balanced(pool.release(id)),
{
    if pool.running.contains_key(id) {
        lemma_main_cores_remove(pool.running, id);
        let next = pool.release(id);
        assert forall|p: u64| #[trigger] next.queue.contains_key(p) implies !next.running.contains_key(
            next.queue[p],
        ) by {
            if pool.queue.contains_key(p) {
            }
        }
        assert forall|p: u64, q: u64|
            #![trigger next.queue.contains_key(p), next.queue.contains_key(q)]
            next.queue.contains_key(p) && next.queue.contains_key(q) && next.queue[p]
                == next.queue[q] implies p == q by {
            if pool.queue.contains_key(p) {
            }
            if pool.queue.contains_key(q) {
            }
        }
    }
}

/// Breaking off a compilation undoes its start as a main one: where the solver was not being
/// compiled before, the queue, the running compilations and the cores are what they were.
pub proof fn law_release_undoes_promote(pool: PoolView, id: Seq<char>, cores: Cores)
    requires
        pool.wf(),
        !pool.running.contains_key(id),
    ensures
        pool.promote(id, cores, 1).release(id) == pool,
{
    let next = pool.promote(id, cores, 1);
    let back = next.release(id);
    assert(back.running =~= pool.running);
    match pool.place(id) {
        Some(p) => {
            let q = choose|q: u64| is_least_of(pool.queue, id, q);
            assert(is_least_of(pool.queue, id, q));
            assert(back.queue =~= pool.queue);
        },
        None => {},
    }
}

/// Making a compilation a main one loses no solver's place and gives none a new one, whether its
/// solver waited before, ran as an extra or ran as a main compilation.
pub proof fn law_promote_keeps_places(pool: PoolView, id: Seq<char>, cores: Cores, more: int)
    ensures
        forall|p: u64, x: Seq<char>| #[trigger]
            has_place(pool.promote(id, cores, more), p, x) <==> has_place(pool, p, x),
{
    if !pool.running.contains_key(id) && exists|q: u64| is_least_of(pool.queue, id, q) {
        let q = choose|q: u64| is_least_of(pool.queue, id, q);
        assert(is_least_of(pool.queue, id, q));
    }
}

/// Making a compilation a main one gives that compilation its cores and leaves every other one alone.
/// Of the queue, just the highest place of a solver that was not compiled before goes; and of the
/// cores that are available, those that the solver brought before go, and the new ones come.
pub proof fn law_promote_changes_one_compilation(
    pool: PoolView,
    id: Seq<char>,
    cores: Cores,
    more: int,
)
    ensures
        ({
            let next = pool.promote(id, cores, more);
            &&& next.running.contains_key(id)
            &&& next.running[id] matches RunningCompilation::Main(main) && main.cores == cores
            &&& forall|x: Seq<char>|
                x != id ==> (#[trigger] next.running.contains_key(x) <==> pool.running.contains_key(x))
            &&& forall|x: Seq<char>|
                x != id && #[trigger] next.running.contains_key(x) ==> next.running[x]
                    == pool.running[x]
            &&& forall|p: u64| #[trigger]
                next.queue.contains_key(p) <==> pool.queue.contains_key(p) && !(
                !pool.running.contains_key(id) && pool.queue[p] == id && forall|q: u64| #[trigger]
                    pool.queue.contains_key(q) && pool.queue[q] == id ==> p <= q)
            &&& forall|p: u64| #[trigger]
                next.queue.contains_key(p) ==> next.queue[p] == pool.queue[p]
            &&& next.used == pool.used + more
            &&& next.available == pool.available + cores - brought(pool, id)
        }),
{
    if !pool.running.contains_key(id) {
        if exists|q: u64| is_least_of(pool.queue, id, q) {
            let q = choose|q: u64| is_least_of(pool.queue, id, q);
            assert(is_least_of(pool.queue, id, q));
        }
        assert forall|p: u64|
            pool.queue.contains_key(p) && pool.queue[p] == id && (forall|q: u64| #[trigger]
                pool.queue.contains_key(q) && pool.queue[q] == id ==> p <= q) implies is_least_of(
            pool.queue,
            id,
            p,
        ) by {}
    }
}

/// The cores that the main compilation of `id` has brought, if it runs.
pub open spec fn brought(pool: PoolView, id: Seq<char>) -> int {
    if pool.running.contains_key(id) {
        match pool.running[id] {
            RunningCompilation::Main(main) => main.cores as int,
            RunningCompilation::Extra(_) => 0,
        }
    } else {
        0
    }
}

/// The end of a compilation takes that compilation out with its core and the cores that it brought,
/// and leaves every other one alone; where it does not run, nothing changes.
pub proof fn law_end_takes_one_compilation_out(pool: PoolView, id: Seq<char>)
    ensures
        pool.finish(id).running == pool.running.remove(id),
        pool.release(id).running == pool.running.remove(id),
        pool.finish(id).available == pool.available - brought(pool, id),
        pool.release(id).available == pool.available - brought(pool, id),
        ({
            let core: int = if pool.running.contains_key(id) {
                1
            } else {
                0
            };
            pool.finish(id).used == pool.used - core && pool.release(id).used == pool.used - core
        }),
{
    if !pool.running.contains_key(id) {
        assert(pool.running.remove(id) =~= pool.running);
    }
}

/// A compilation that is over gives up its solver's place for good, and no other place changes.
pub proof fn law_finish_leaves_the_queue_alone(pool: PoolView, id: Seq<char>)
    ensures
        pool.finish(id).queue == pool.queue,
        forall|p: u64, x: Seq<char>|
            x != id ==> (#[trigger] has_place(pool.finish(id), p, x) <==> has_place(pool, p, x)),
{
}

/// A compilation that is broken off loses no solver's place: its own solver waits in the queue
/// wherever it had a place, be it as an extra or as a main compilation, and every other place is as
/// it was.
pub proof fn law_release_keeps_places(pool: PoolView, id: Seq<char>)
    requires
        pool.wf(),
    ensures
        forall|p: u64, x: Seq<char>| #[trigger]
            has_place(pool.release(id), p, x) <==> has_place(pool, p, x),
        forall|p: u64| #[trigger]
            has_place(pool, p, id) ==> pool.release(id).queue.contains_key(p) && pool.release(
                id,
            ).queue[p] == id,
        forall|p: u64| #[trigger]
            pool.queue.contains_key(p) ==> pool.release(id).queue.contains_key(p) && pool.release(
                id,
            ).queue[p] == pool.queue[p],
{
    if pool.running.contains_key(id) {
        assert(match priority_of(pool.running[id]) {
            Some(p) => !pool.queue.contains_key(p),
            None => true,
        });
    }
}

/// A solver whose compilation is made a main one and then broken off waits again where it had its
/// place, in particular under the priority with which it ran as an extra.
pub proof fn law_broken_off_main_waits_again(
    pool: PoolView,
    id: Seq<char>,
    cores: Cores,
    more: int,
    p: u64,
)
    requires
        pool.wf(),
        more >= 0,
        pool.running.contains_key(id) || more >= 1,
        has_place(pool, p, id),
    ensures
        ({
            let back = pool.promote(id, cores, more).release(id);
            &&& back.queue.contains_key(p)
            &&& back.queue[p] == id
            &&& !back.running.contains_key(id)
        }),
{
    pool.lemma_promote(id, cores, more);
    law_promote_keeps_places(pool, id, cores, more);
    law_release_keeps_places(pool.promote(id, cores, more), id);
    law_end_takes_one_compilation_out(pool.promote(id, cores, more), id);
    assert(has_place(pool.promote(id, cores, more), p, id));
}

/// A solver that gives up its place for a main compilation that is still to start gives up the
/// highest one that it has in the queue, and just that; the cores that it brings are available at
/// once, and nothing starts.
pub proof fn law_defer_takes_the_highest_place(pool: PoolView, id: Seq<char>, cores: Cores)
    ensures
        ({
            let next = pool.defer(id, cores);
            &&& next.running == pool.running
            &&& next.used == pool.used
            &&& next.available == pool.available + cores
            &&& forall|p: u64| #[trigger]
                next.queue.contains_key(p) <==> pool.queue.contains_key(p) && !(pool.queue[p] == id
                    && forall|q: u64| #[trigger]
                    pool.queue.contains_key(q) && pool.queue[q] == id ==> p <= q)
            &&& forall|p: u64| #[trigger]
                next.queue.contains_key(p) ==> next.queue[p] == pool.queue[p]
        }),
{
    if exists|q: u64| is_least_of(pool.queue, id, q) {
        let q = choose|q: u64| is_least_of(pool.queue, id, q);
        assert(is_least_of(pool.queue, id, q));
    }
    assert forall|p: u64|
        pool.queue.contains_key(p) && pool.queue[p] == id && (forall|q: u64| #[trigger]
            pool.queue.contains_key(q) && pool.queue[q] == id ==> p <= q) implies is_least_of(
        pool.queue,
        id,
        p,
    ) by {}
}

/// Starting a main compilation whose cores are available already takes one more core and changes that
/// compilation only, which is from then on as it was to be.
pub proof fn law_start_main_starts_one(pool: PoolView, id: Seq<char>, main: MainCompilation)
    ensures
        ({
            let next = pool.start_main(id, main);
            &&& next.running.contains_key(id) && next.running[id] == RunningCompilation::Main(main)
            &&& next.running.remove(id) == pool.running.remove(id)
            &&& next.queue == pool.queue
            &&& next.available == pool.available
            &&& next.used == pool.used + 1
        }),
{
    assert(pool.start_main(id, main).running.remove(id) =~= pool.running.remove(id));
}

/// The place of a solver in the queue is the highest under which it waits: it waits there, and nowhere
/// before; a solver that waits has a place.
pub proof fn law_place_is_the_highest(queue: Map<u64, Seq<char>>, id: Seq<char>)
    requires
        queue.dom().finite(),
    ensures
        match place_of(queue, id) {
            Some(p) => queue.contains_key(p.0) && queue[p.0] == id && forall|q: u64| #[trigger]
                queue.contains_key(q) && queue[q] == id ==> p.0 <= q,
            None => forall|q: u64| #[trigger] queue.contains_key(q) ==> queue[q] != id,
        },
{
    if exists|q: u64| is_least_of(queue, id, q) {
        let q = choose|q: u64| is_least_of(queue, id, q);
        assert(is_least_of(queue, id, q));
    } else {
        assert forall|q: u64| #[trigger] queue.contains_key(q) implies queue[q] != id by {
            if queue[q] == id {
                let own = queue.restrict(Set::new(|k: u64| queue.contains_key(k) && queue[k] == id));
                assert(own.dom().subset_of(queue.dom()));
                vstd::set_lib::lemma_set_subset_finite(queue.dom(), own.dom());
                assert(own.dom().contains(q));
                if own.dom().len() == 0 {
                    assert(own.dom() =~= Set::empty());
                }
                lemma_least_key_exists(own);
                let p = least_key(own);
                assert(own.contains_key(p));
                assert forall|k: u64| #[trigger] queue.contains_key(k) && queue[k] == id implies p
                    <= k by {
                    assert(own.contains_key(k));
                }
                assert(is_least_of(queue, id, p));
            }
        }
    }
}

/// Stopping extra compilations takes out just those that are handed out, and each of them waits under
/// its own priority from then on; everything else in the queue and among the running compilations is
/// as it was.
pub proof fn law_stopped_extras_wait_again(pool: PoolView, n: nat)
    requires
        pool.wf(),
        n <= extras(pool.running).len(),
    ensures
        ({
            let next = pool.after_stops(n);
            &&& forall|x: Seq<char>| #[trigger]
                next.running.contains_key(x) <==> pool.running.contains_key(x) && !pool.stopped(
                    n,
                ).contains(x)
            &&& forall|x: Seq<char>| #[trigger]
                next.running.contains_key(x) ==> next.running[x] == pool.running[x]
            &&& forall|x: Seq<char>| #[trigger]
                pool.stopped(n).contains(x) ==> pool.running.contains_key(x) && (
                pool.running[x] matches RunningCompilation::Extra(p) && next.queue.contains_key(p.0)
                    && next.queue[p.0] == x)
            &&& forall|p: u64| #[trigger]
                pool.queue.contains_key(p) ==> next.queue.contains_key(p) && next.queue[p]
                    == pool.queue[p]
            &&& forall|p: u64| #[trigger]
                next.queue.contains_key(p) && !pool.queue.contains_key(p) ==> pool.stopped(
                    n,
                ).contains(next.queue[p])
        }),
    decreases n,
{
    if n > 0 {
        lemma_last_extra_exists(pool.running);
        let last = last_extra(pool.running);
        let after = pool.requeue(last);
        pool.lemma_requeue(last);
        law_stopped_extras_wait_again(after, (n - 1) as nat);
        let rest = after.stopped((n - 1) as nat);
        let all = pool.stopped(n);
        assert(all == seq![last] + rest);
        assert(pool.running.contains_key(last));
        assert forall|x: Seq<char>| #[trigger] all.contains(x) <==> x == last || rest.contains(x) by {
            assert(all[0] == last);
            if rest.contains(x) {
                let j = choose|j: int| 0 <= j < rest.len() && rest[j] == x;
                assert(all[j + 1] == x);
            }
            if all.contains(x) {
                let j = choose|j: int| 0 <= j < all.len() && all[j] == x;
                if j > 0 {
                    assert(rest[j - 1] == x);
                }
            }
        }
        let next = pool.after_stops(n);
        assert(next == after.after_stops((n - 1) as nat));
        assert(after.queue.contains_key(pool.running[last]->Extra_0.0));
        assert forall|x: Seq<char>| #[trigger] next.running.contains_key(x) implies next.running[x]
            == pool.running[x] by {
            assert(after.running.contains_key(x));
        }
        assert forall|x: Seq<char>| #[trigger] all.contains(x) implies pool.running.contains_key(x)
            && (pool.running[x] matches RunningCompilation::Extra(p) && next.queue.contains_key(p.0)
            && next.queue[p.0] == x) by {
            if rest.contains(x) {
                assert(after.running.contains_key(x));
            }
        }
        assert forall|p: u64| #[trigger] pool.queue.contains_key(p) implies next.queue.contains_key(p)
            && next.queue[p] == pool.queue[p] by {
            assert(after.queue.contains_key(p));
        }
        assert forall|p: u64| #[trigger]
            next.queue.contains_key(p) && !pool.queue.contains_key(p) implies all.contains(
            next.queue[p],
        ) by {
            if after.queue.contains_key(p) {
                assert(next.queue[p] == after.queue[p]);
            } else {
                assert(rest.contains(next.queue[p]));
            }
        }
    } else {
        assert(!pool.stopped(0).contains(Seq::empty()));
    }
}

/// As many extra compilations are stopped as it takes to bring the cores in use down to those that are
/// available, and no more, as far as there are any; or all of them, if all must go.
pub proof fn law_no_extra_stops_without_need(pool: PoolView)
    ensures
        pool.stop_count(true) == extras(pool.running).len(),
        ({
            let n = pool.stop_count(false);
            &&& n <= extras(pool.running).len()
            &&& n > 0 ==> pool.used - n >= pool.available
            &&& pool.used - n <= pool.available || n == extras(pool.running).len()
        }),
{
}

/// As many waiting solvers are started as there are free cores, and no more, as far as any wait.
pub proof fn law_no_core_stays_free(pool: PoolView)
    ensures
        ({
            let n = pool.start_count();
            &&& n <= pool.queue.dom().len()
            &&& n > 0 ==> pool.used + n <= pool.available
            &&& pool.used + n >= pool.available || n == pool.queue.dom().len()
        }),
{
}

/// Starting waiting solvers takes just the highest priorities out of the queue, and each solver that
/// waited there runs as an extra under its own priority from then on; everything else in the queue and
/// among the running compilations is as it was, where no solver has two places.
pub proof fn law_started_extras_run(pool: PoolView, n: nat)
    requires
        pool.wf(),
        one_place_each(pool),
        n <= pool.queue.dom().len(),
    ensures
        ({
            let next = pool.after_starts(n);
            &&& forall|p: u64| #[trigger]
                pool.queue.contains_key(p) ==> if next.queue.contains_key(p) {
                    next.queue[p] == pool.queue[p] && !pool.started(n).contains(pool.queue[p])
                } else {
                    &&& next.running.contains_key(pool.queue[p])
                    &&& next.running[pool.queue[p]] == RunningCompilation::Extra(Priority(p))
                    &&& pool.started(n).contains(pool.queue[p])
                }
            &&& forall|p: u64| #[trigger] next.queue.contains_key(p) ==> pool.queue.contains_key(p)
            &&& forall|p: u64, q: u64|
                #![trigger pool.queue.contains_key(p), next.queue.contains_key(q)]
                pool.queue.contains_key(p) && !next.queue.contains_key(p)
                    && next.queue.contains_key(q) ==> p < q
            &&& forall|x: Seq<char>| #[trigger]
                pool.running.contains_key(x) ==> next.running.contains_key(x) && next.running[x]
                    == pool.running[x]
            &&& forall|x: Seq<char>| #[trigger]
                next.running.contains_key(x) ==> pool.running.contains_key(x) || pool.started(
                    n,
                ).contains(x)
            &&& pool.started(n).no_duplicates()
            &&& forall|x: Seq<char>| #[trigger]
                pool.started(n).contains(x) ==> exists|p: u64| #[trigger]
                    pool.queue.contains_key(p) && pool.queue[p] == x
        }),
    decreases n,
{
    if n > 0 {
        lemma_least_key_exists(pool.queue);
        let least = least_key(pool.queue);
        let id = pool.queue[least];
        let after = pool.start_extra(least);
        assert(pool.queue.contains_key(least));
        pool.lemma_start_extra(least);
        lemma_after_starts(pool, 1);
        assert(pool.after_starts(1) == after) by {
            reveal_with_fuel(PoolView::after_starts, 2);
        }
        assert(!pool.running.contains_key(id));
        law_started_extras_run(after, (n - 1) as nat);
        let rest = after.started((n - 1) as nat);
        let all = pool.started(n);
        let next = pool.after_starts(n);
        assert(next == after.after_starts((n - 1) as nat));
        assert(all == seq![id] + rest);
        assert forall|x: Seq<char>| #[trigger] all.contains(x) <==> x == id || rest.contains(x) by {
            assert(all[0] == id);
            if rest.contains(x) {
                let j = choose|j: int| 0 <= j < rest.len() && rest[j] == x;
                assert(all[j + 1] == x);
            }
            if all.contains(x) {
                let j = choose|j: int| 0 <= j < all.len() && all[j] == x;
                if j > 0 {
                    assert(rest[j - 1] == x);
                }
            }
        }
        assert forall|x: Seq<char>| #[trigger] rest.contains(x) implies exists|p: u64| #[trigger]
            pool.queue.contains_key(p) && p != least && pool.queue[p] == x by {
            let p = choose|p: u64| #[trigger] after.queue.contains_key(p) && after.queue[p] == x;
            assert(pool.queue.contains_key(p));
        }
        assert(!rest.contains(id)) by {
            if rest.contains(id) {
                let p = choose|p: u64| #[trigger]
                    pool.queue.contains_key(p) && p != least && pool.queue[p] == id;
                assert(pool.queue.contains_key(p) && pool.queue.contains_key(least));
            }
        }
        assert(after.running.contains_key(id));
        assert forall|p: u64| #[trigger] pool.queue.contains_key(p) implies if next.queue.contains_key(
            p,
        ) {
            next.queue[p] == pool.queue[p] && !all.contains(pool.queue[p])
        } else {
            &&& next.running.contains_key(pool.queue[p])
            &&& next.running[pool.queue[p]] == RunningCompilation::Extra(Priority(p))
            &&& all.contains(pool.queue[p])
        } by {
            if p == least {
                assert(!after.queue.contains_key(p));
            } else {
                assert(after.queue.contains_key(p));
                assert(pool.queue.contains_key(p) && pool.queue.contains_key(least));
            }
        }
        assert forall|p: u64| #[trigger] next.queue.contains_key(p) implies pool.queue.contains_key(
            p,
        ) by {
            assert(after.queue.contains_key(p));
        }
        assert forall|p: u64, q: u64|
            #![trigger pool.queue.contains_key(p), next.queue.contains_key(q)]
            pool.queue.contains_key(p) && !next.queue.contains_key(p) && next.queue.contains_key(
                q,
            ) implies p < q by {
            assert(after.queue.contains_key(q) && pool.queue.contains_key(q));
            if p != least {
                assert(after.queue.contains_key(p));
            }
        }
        assert forall|x: Seq<char>| #[trigger]
            pool.running.contains_key(x) implies next.running.contains_key(x) && next.running[x]
            == pool.running[x] by {
            assert(after.running.contains_key(x));
        }
        assert forall|x: Seq<char>| #[trigger]
            next.running.contains_key(x) implies pool.running.contains_key(x) || all.contains(x) by {
            if after.running.contains_key(x) {
            }
        }
        assert forall|i: int, j: int| 0 <= i < all.len() && 0 <= j < all.len() && i != j implies all[i]
            != all[j] by {
            if i > 0 {
                assert(all[i] == rest[i - 1]);
                assert(rest.contains(all[i]));
            }
            if j > 0 {
                assert(all[j] == rest[j - 1]);
                assert(rest.contains(all[j]));
            }
        }
        assert forall|x: Seq<char>| #[trigger] all.contains(x) implies exists|p: u64| #[trigger]
            pool.queue.contains_key(p) && pool.queue[p] == x by {
            if rest.contains(x) {
                let p = choose|p: u64| #[trigger]
                    pool.queue.contains_key(p) && p != least && pool.queue[p] == x;
                assert(pool.queue.contains_key(p) && pool.queue[p] == x);
            }
        }
    }
}

/// The extra compilation that is stopped next is the one with the lowest priority: it goes from those
/// that run to the queue, under its priority, and gives back its core.
pub proof fn law_lowest_extra_stops_next(pool: PoolView, id: Seq<char>, p: Priority)
    requires
        pool.wf(),
        pool.running.contains_key(id),
        pool.running[id] == RunningCompilation::Extra(p),
        forall|x: Seq<char>| #[trigger]
            pool.running.contains_key(x) && pool.running[x] is Extra ==> pool.running[x]->Extra_0.0
                <= p.0,
    ensures
        pool.stopped(1) == seq![id],
        pool.after_stops(1) == (PoolView {
            queue: pool.queue.insert(p.0, id),
            running: pool.running.remove(id),
            available: pool.available,
            used: pool.used - 1,
        }),
{
    reveal_with_fuel(PoolView::stopped, 2);
    reveal_with_fuel(PoolView::after_stops, 2);
    assert(is_last_extra(pool.running, id));
    let last = last_extra(pool.running);
    assert(is_last_extra(pool.running, last));
    assert(pool.running.contains_key(last));
    if last != id {
        assert(priority_of(pool.running[last]) != priority_of(pool.running[id]));
    }
    assert(pool.stopped(1) =~= seq![id]);
}

/// Stopping some extra compilations and then some more is stopping them all.
pub proof fn law_stops_follow_one_another(pool: PoolView, m: nat, n: nat)
    ensures
        pool.after_stops(m + n) == pool.after_stops(m).after_stops(n),
        pool.stopped(m + n) == pool.stopped(m) + pool.after_stops(m).stopped(n),
    decreases m,
{
    if m == 0 {
        assert(pool.stopped(0) + pool.stopped(n) =~= pool.stopped(n));
    } else {
        let id = last_extra(pool.running);
        let next = pool.requeue(id);
        law_stops_follow_one_another(next, (m - 1) as nat, n);
        assert((m + n - 1) as nat == (m - 1) as nat + n);
        assert(pool.stopped(m + n) =~= pool.stopped(m) + pool.after_stops(m).stopped(n));
    }
}

/// The solver that starts next is the one that waits with the highest priority: it goes from the queue to
/// the compilations that run, as an extra under its priority, and takes a core.
pub proof fn law_highest_waiting_starts_next(pool: PoolView, p: u64)
    requires
        pool.queue.contains_key(p),
        forall|q: u64| #[trigger] pool.queue.contains_key(q) ==> p <= q,
    ensures
        pool.started(1) == seq![pool.queue[p]],
        pool.after_starts(1) == (PoolView {
            queue: pool.queue.remove(p),
            running: pool.running.insert(pool.queue[p], RunningCompilation::Extra(Priority(p))),
            available: pool.available,
            used: pool.used + 1,
        }),
{
    reveal_with_fuel(PoolView::started, 2);
    reveal_with_fuel(PoolView::after_starts, 2);
    assert(is_least(pool.queue, p));
    let least = least_key(pool.queue);
    assert(is_least(pool.queue, least));
    assert(pool.started(1) =~= seq![pool.queue[p]]);
}

/// Starting some waiting solvers and then some more is starting them all.
pub proof fn law_starts_follow_one_another(pool: PoolView, m: nat, n: nat)
    ensures
        pool.after_starts(m + n) == pool.after_starts(m).after_starts(n),
        pool.started(m + n) == pool.started(m) + pool.after_starts(m).started(n),
    decreases m,
{
    if m == 0 {
        assert(pool.started(0) + pool.started(n) =~= pool.started(n));
    } else {
        let p = least_key(pool.queue);
        let next = pool.start_extra(p);
        law_starts_follow_one_another(next, (m - 1) as nat, n);
        assert((m + n - 1) as nat == (m - 1) as nat + n);
        assert(pool.started(m + n) =~= pool.started(m) + pool.after_starts(m).started(n));
    }
}

/// A list of solvers is seen whole: each of its names, in order.
pub proof fn law_solvers_are_seen_whole(solvers: Seq<SolverId>, i: int)
    requires
        0 <= i < solvers.len(),
    ensures
        ids(solvers).len() == solvers.len(),
        ids(solvers)[i] == solvers[i]@,
{
}

} // verus!
