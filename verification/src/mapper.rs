//! The parallel mapper: a pool of workers that map a function over one shared
//! source, and deliver the results as they come.
//!
//! A worker pulls the next item from the source, alone; it computes without
//! holding anything; it delivers the result and pulls again. When the source
//! gives nothing it leaves. The threads and the channel are the caller's: here
//! stand what a worker decides, and the pool as a value, with what holds of
//! every order in which the workers may take their turns.
use vstd::prelude::*;
use vstd::multiset::Multiset;

verus! {

/// What a worker does with what it pulled from the source.
#[derive(Debug)]
pub enum Work<T> {
    /// Compute the result for this item, and deliver it.
    Compute(T),
    /// The source is exhausted: leave.
    Leave,
}

/// What a worker does with what it pulled from the source.
pub fn after_pull<T>(pulled: Option<T>) -> (work: Work<T>)
    ensures
        work == match pulled {
            Some(item) => Work::Compute(item),
            None => Work::Leave,
        },
{
    match pulled {
        Some(item) => Work::Compute(item),
        None => Work::Leave,
    }
}

/// A worker as a value.
pub enum Worker<T> {
    /// About to pull.
    Idle,
    /// Computing the result for an item.
    Busy(T),
    /// Gone, after the source gave nothing.
    Gone,
}

/// A pool as a value: what the source still holds, the workers, and the
/// results in the order in which they were delivered.
pub struct Pool<T, U> {
    pub source: Seq<T>,
    pub workers: Seq<Worker<T>>,
    pub delivered: Seq<U>,
}

/// A pool of `workers` workers at the start, with `items` in the source.
pub open spec fn pool_at_start<T, U>(items: Seq<T>, workers: nat) -> Pool<T, U> {
    Pool { source: items, workers: Seq::new(workers, |i: int| Worker::Idle), delivered: Seq::empty() }
}

/// The pool after worker `who` has taken one turn: an idle worker pulls, and
/// leaves where the source gives nothing; a busy one delivers its result.
pub open spec fn pool_after<T, U>(pool: Pool<T, U>, f: spec_fn(T) -> U, who: int) -> Pool<T, U> {
    if 0 <= who < pool.workers.len() {
        match pool.workers[who] {
            Worker::Idle => if pool.source.len() > 0 {
                Pool {
                    source: pool.source.skip(1),
                    workers: pool.workers.update(who, Worker::Busy(pool.source[0])),
                    delivered: pool.delivered,
                }
            } else {
                Pool {
                    source: pool.source,
                    workers: pool.workers.update(who, Worker::Gone),
                    delivered: pool.delivered,
                }
            },
            Worker::Busy(item) => Pool {
                source: pool.source,
                workers: pool.workers.update(who, Worker::Idle),
                delivered: pool.delivered.push(f(item)),
            },
            Worker::Gone => pool,
        }
    } else {
        pool
    }
}

/// The pool after the workers have taken their turns in the order `schedule`.
pub open spec fn pool_run<T, U>(
    pool: Pool<T, U>,
    f: spec_fn(T) -> U, schedule: Seq<int>,
) -> Pool<T, U>
    decreases schedule.len(),
{
    if schedule.len() == 0 {
        pool
    } else {
        pool_after(pool_run(pool, f, schedule.drop_last()), f, schedule.last())
    }
}

/// Every worker has left: nothing more will be delivered.
pub open spec fn pool_closed<T, U>(pool: Pool<T, U>) -> bool {
    forall|i: int| 0 <= i < pool.workers.len() ==> #[trigger] pool.workers[i] is Gone
}

/// The result that a worker is computing, if any.
pub open spec fn in_hand<T, U>(worker: Worker<T>, f: spec_fn(T) -> U) -> Multiset<U> {
    match worker {
        Worker::Busy(item) => Multiset::singleton(f(item)),
        _ => Multiset::empty(),
    }
}

/// The results that the workers are computing.
pub open spec fn in_flight<T, U>(workers: Seq<Worker<T>>, f: spec_fn(T) -> U) -> Multiset<U>
    decreases workers.len(),
{
    if workers.len() == 0 {
        Multiset::empty()
    } else {
        in_flight(workers.drop_last(), f).add(in_hand(workers.last(), f))
    }
}

/// Every result is accounted for: those delivered, those being computed and
/// those of the items still in the source are together the results of all the
/// items. And no worker has left while the source held anything.
pub open spec fn accounted<T, U>(pool: Pool<T, U>, f: spec_fn(T) -> U, items: Seq<T>) -> bool {
    &&& pool.delivered.to_multiset().add(in_flight(pool.workers, f)).add(
        pool.source.map_values(f).to_multiset(),
    ) == items.map_values(f).to_multiset()
    &&& (exists|i: int| 0 <= i < pool.workers.len() && #[trigger] pool.workers[i] is Gone)
        ==> pool.source.len() == 0
}

/// A sequence without items has no items to count.
proof fn lemma_nothing_to_count<A>(s: Seq<A>)
    requires
        s.len() == 0,
    ensures
        s.to_multiset() == Multiset::<A>::empty(),
{
    s.to_multiset_ensures();
    vstd::multiset::lemma_multiset_empty_len(s.to_multiset());
    assert(s.to_multiset() =~= Multiset::<A>::empty());
}

/// The items of a sequence are its first item and the items after it.
proof fn lemma_count_first<A>(s: Seq<A>)
    requires
        s.len() > 0,
    ensures
        s.to_multiset() == s.skip(1).to_multiset().insert(s[0]),
{
    s.to_multiset_ensures();
    assert(s.remove(0) =~= s.skip(1));
    assert(s.contains(s[0]));
    assert(s.to_multiset() =~= s.skip(1).to_multiset().insert(s[0]));
}

/// A change of one worker changes what is in flight by what that worker held
/// and holds.
proof fn lemma_in_flight_update<T, U>(
    workers: Seq<Worker<T>>,
    f: spec_fn(T) -> U, who: int, now: Worker<T>,
)
    requires
        0 <= who < workers.len(),
    ensures
        in_flight(workers.update(who, now), f).add(in_hand(workers[who], f)) == in_flight(
            workers,
            f,
        ).add(in_hand(now, f)),
    decreases workers.len(),
{
    let updated = workers.update(who, now);
    let was = in_hand(workers[who], f);
    let is = in_hand(now, f);
    if who == workers.len() - 1 {
        let rest = in_flight(workers.drop_last(), f);
        assert(updated.drop_last() =~= workers.drop_last());
        assert(in_flight(updated, f) == rest.add(is));
        assert(in_flight(workers, f) == rest.add(was));
        assert(rest.add(is).add(was) =~= rest.add(was).add(is));
    } else {
        let last = in_hand(workers.last(), f);
        let rest = in_flight(workers.drop_last(), f);
        let rest_updated = in_flight(workers.drop_last().update(who, now), f);
        assert(updated.drop_last() =~= workers.drop_last().update(who, now));
        lemma_in_flight_update(workers.drop_last(), f, who, now);
        assert(workers.drop_last()[who] == workers[who]);
        assert(rest_updated.add(was) == rest.add(is));
        assert(updated.last() == workers.last());
        assert(in_flight(updated, f) == rest_updated.add(last));
        assert(in_flight(workers, f) == rest.add(last));
        assert(rest_updated.add(last).add(was) =~= rest_updated.add(was).add(last));
        assert(rest.add(last).add(is) =~= rest.add(is).add(last));
    }
}

/// Where no worker is busy nothing is in flight.
proof fn lemma_in_flight_none<T, U>(workers: Seq<Worker<T>>, f: spec_fn(T) -> U)
    requires
        forall|i: int| 0 <= i < workers.len() ==> !(#[trigger] workers[i] is Busy),
    ensures
        in_flight(workers, f) == Multiset::<U>::empty(),
    decreases workers.len(),
{
    if workers.len() > 0 {
        assert forall|i: int| 0 <= i < workers.drop_last().len() implies !(
        #[trigger] workers.drop_last()[i] is Busy) by {
            assert(workers.drop_last()[i] == workers[i]);
        }
        lemma_in_flight_none(workers.drop_last(), f);
        assert(!(workers[workers.len() - 1] is Busy));
        assert(in_flight(workers, f) =~= Multiset::<U>::empty());
    }
}

/// A turn of any worker keeps every result accounted for.
proof fn lemma_accounted_after<T, U>(pool: Pool<T, U>, f: spec_fn(T) -> U, items: Seq<T>, who: int)
    requires
        accounted(pool, f, items),
    ensures
        accounted(pool_after(pool, f, who), f, items),
        pool_after(pool, f, who).workers.len() == pool.workers.len(),
{
    let after = pool_after(pool, f, who);
    if 0 <= who < pool.workers.len() {
        match pool.workers[who] {
            Worker::Idle => {
                if pool.source.len() > 0 {
                    let item = pool.source[0];
                    lemma_in_flight_update(pool.workers, f, who, Worker::Busy(item));
                    let mapped = pool.source.map_values(f);
                    assert(mapped.skip(1) =~= pool.source.skip(1).map_values(f));
                    lemma_count_first(mapped);
                    assert(in_hand(pool.workers[who], f) =~= Multiset::<U>::empty());
                    let delivered = pool.delivered.to_multiset();
                    let flying = in_flight(pool.workers, f);
                    let flying_now = in_flight(after.workers, f);
                    let left = pool.source.skip(1).map_values(f).to_multiset();
                    let one = Multiset::singleton(f(item));
                    assert(flying_now.add(Multiset::empty()) == flying.add(one));
                    assert(flying_now =~= flying.add(one));
                    assert(mapped.to_multiset() =~= left.add(one));
                    assert(delivered.add(flying.add(one)).add(left) =~= delivered.add(flying).add(
                        left.add(one),
                    ));
                    assert forall|i: int| 0 <= i < after.workers.len() implies !(
                    #[trigger] after.workers[i] is Gone) by {
                        if i != who {
                            assert(after.workers[i] == pool.workers[i]);
                        }
                    }
                } else {
                    lemma_in_flight_update(pool.workers, f, who, Worker::Gone);
                    let flying = in_flight(pool.workers, f);
                    let flying_now = in_flight(after.workers, f);
                    assert(flying_now.add(Multiset::empty()) == flying.add(Multiset::empty()));
                    assert(flying_now =~= flying_now.add(Multiset::empty()));
                    assert(flying =~= flying.add(Multiset::empty()));
                }
            },
            Worker::Busy(item) => {
                lemma_in_flight_update(pool.workers, f, who, Worker::Idle);
                pool.delivered.to_multiset_ensures();
                let delivered = pool.delivered.to_multiset();
                let flying = in_flight(pool.workers, f);
                let flying_now = in_flight(after.workers, f);
                let left = pool.source.map_values(f).to_multiset();
                let one = Multiset::singleton(f(item));
                assert(flying_now.add(one) == flying.add(Multiset::empty()));
                assert(flying =~= flying_now.add(one));
                assert(after.delivered.to_multiset() =~= delivered.add(one));
                assert(delivered.add(one).add(flying_now).add(left) =~= delivered.add(
                    flying_now.add(one),
                ).add(left));
                if exists|i: int| 0 <= i < after.workers.len() && #[trigger] after.workers[i] is Gone {
                    let i = choose|i: int|
                        0 <= i < after.workers.len() && #[trigger] after.workers[i] is Gone;
                    assert(pool.workers[i] is Gone);
                }
            },
            Worker::Gone => {},
        }
    }
}

/// Whatever the order of the turns, every result stays accounted for.
pub proof fn lemma_accounted_run<T, U>(
    items: Seq<T>,
    workers: nat,
    f: spec_fn(T) -> U, schedule: Seq<int>,
)
    ensures
        accounted(pool_run(pool_at_start::<T, U>(items, workers), f, schedule), f, items),
        pool_run(pool_at_start::<T, U>(items, workers), f, schedule).workers.len() == workers,
    decreases schedule.len(),
{
    let start = pool_at_start::<T, U>(items, workers);
    if schedule.len() == 0 {
        lemma_in_flight_none(start.workers, f);
        lemma_nothing_to_count(start.delivered);
        assert(start.delivered.to_multiset().add(in_flight(start.workers, f)).add(
            start.source.map_values(f).to_multiset(),
        ) =~= items.map_values(f).to_multiset());
    } else {
        lemma_accounted_run(items, workers, f, schedule.drop_last());
        lemma_accounted_after(pool_run(start, f, schedule.drop_last()), f, items, schedule.last());
    }
}

/// A pool of one worker or more, once every worker has left, has delivered
/// the result of every item, each once: as many results as there were items,
/// and the same results, in some order, as mapping the items one by one.
pub proof fn lemma_pool_delivers_all<T, U>(
    items: Seq<T>,
    workers: nat,
    f: spec_fn(T) -> U, schedule: Seq<int>,
)
    requires
        workers >= 1,
        pool_closed(pool_run(pool_at_start::<T, U>(items, workers), f, schedule)),
    ensures
        pool_run(pool_at_start::<T, U>(items, workers), f, schedule).delivered.to_multiset()
            == items.map_values(f).to_multiset(),
        pool_run(pool_at_start::<T, U>(items, workers), f, schedule).delivered.len()
            == items.len(),
{
    let end = pool_run(pool_at_start::<T, U>(items, workers), f, schedule);
    lemma_accounted_run(items, workers, f, schedule);
    assert(end.workers[0] is Gone);
    assert(end.source.len() == 0);
    assert(end.source.map_values(f) =~= Seq::<U>::empty());
    lemma_in_flight_none(end.workers, f);
    lemma_nothing_to_count(end.source.map_values(f));
    assert(end.delivered.to_multiset() =~= items.map_values(f).to_multiset());
    end.delivered.to_multiset_ensures();
    items.map_values(f).to_multiset_ensures();
}

/// With one worker the results come in the order of the items: what was
/// delivered, then the result in hand, then the results of what the source
/// holds, are the results of the items in order.
pub open spec fn in_sequence<T, U>(pool: Pool<T, U>, f: spec_fn(T) -> U, items: Seq<T>) -> bool {
    &&& pool.workers.len() == 1
    &&& pool.delivered + (match pool.workers[0] {
        Worker::Busy(item) => seq![f(item)],
        _ => Seq::empty(),
    }) + pool.source.map_values(f) == items.map_values(f)
}

/// A pool of one worker, whatever turns it takes, delivers in the order of the
/// items; once the worker has left, it has delivered exactly what mapping the
/// items one by one gives.
pub proof fn lemma_one_worker_in_order<T, U>(items: Seq<T>, f: spec_fn(T) -> U, schedule: Seq<int>)
    ensures
        in_sequence(pool_run(pool_at_start::<T, U>(items, 1), f, schedule), f, items),
        pool_closed(pool_run(pool_at_start::<T, U>(items, 1), f, schedule)) ==> pool_run(
            pool_at_start::<T, U>(items, 1),
            f,
            schedule,
        ).delivered == items.map_values(f),
    decreases schedule.len(),
{
    let start = pool_at_start::<T, U>(items, 1);
    let end = pool_run(start, f, schedule);
    if schedule.len() == 0 {
        assert(start.delivered + Seq::<U>::empty() + items.map_values(f) =~= items.map_values(f));
    } else {
        let before = pool_run(start, f, schedule.drop_last());
        lemma_one_worker_in_order(items, f, schedule.drop_last());
        if schedule.last() == 0 {
            match before.workers[0] {
                Worker::Idle => {
                    if before.source.len() > 0 {
                        assert(seq![f(before.source[0])] + before.source.skip(1).map_values(f)
                            =~= before.source.map_values(f));
                        assert(end.delivered + seq![f(before.source[0])] + end.source.map_values(f)
                            =~= before.delivered + Seq::<U>::empty() + before.source.map_values(
                            f,
                        ));
                    }
                },
                Worker::Busy(item) => {
                    assert(end.delivered + Seq::<U>::empty() + end.source.map_values(f)
                        =~= before.delivered + seq![f(item)] + before.source.map_values(f));
                },
                Worker::Gone => {},
            }
        }
    }
    if pool_closed(end) {
        lemma_accounted_run(items, 1, f, schedule);
        assert(end.workers[0] is Gone);
        assert(end.source.map_values(f) =~= Seq::<U>::empty());
        assert(end.delivered =~= end.delivered + Seq::<U>::empty() + end.source.map_values(f));
    }
}

} // verus!
