use crate::event::{DelayedSpawnEvent, SpawnEvent};
use vstd::prelude::*;

verus! {

/// The pending delayed spawn requests, in the order they were scheduled.
pub struct DelayedSpawnQueue<O, T> {
    pending: Vec<DelayedSpawnEvent<O, T>>,
}

/// Every request advanced by one tick.
pub open spec fn advanced<O, T>(s: Seq<DelayedSpawnEvent<O, T>>) -> Seq<DelayedSpawnEvent<O, T>> {
    s.map_values(|e: DelayedSpawnEvent<O, T>| e.after_tick())
}

/// The requests that are not done yet, order kept.
pub open spec fn still_pending<O, T>(s: Seq<DelayedSpawnEvent<O, T>>) -> Seq<DelayedSpawnEvent<O, T>> {
    s.filter(|e: DelayedSpawnEvent<O, T>| !e.done())
}

/// The spawn requests wrapped by the requests that are done, order kept.
pub open spec fn releasable<O, T>(s: Seq<DelayedSpawnEvent<O, T>>) -> Seq<SpawnEvent<O, T>> {
    s.filter(|e: DelayedSpawnEvent<O, T>| e.done()).map_values(
        |e: DelayedSpawnEvent<O, T>| e.event,
    )
}

/// The request leaves the queue on the coming tick.
pub open spec fn due<O, T>(e: DelayedSpawnEvent<O, T>) -> bool {
    e.tick_delay <= 1
}

/// One tick releases exactly the spawn requests, unchanged and in scheduling
/// order, of the requests whose delay was at most one, and keeps exactly the
/// others, each advanced by one tick.
pub proof fn lemma_tick_splits_on_delay<O, T>(s: Seq<DelayedSpawnEvent<O, T>>)
    ensures
        releasable(advanced(s)) == s.filter(|e: DelayedSpawnEvent<O, T>| due(e)).map_values(
            |e: DelayedSpawnEvent<O, T>| e.event,
        ),
        still_pending(advanced(s)) == advanced(s.filter(|e: DelayedSpawnEvent<O, T>| !due(e))),
    decreases s.len(),
{
    reveal(Seq::filter);
    if s.len() > 0 {
        let init = s.drop_last();
        lemma_tick_splits_on_delay(init);
        assert(advanced(s).drop_last() =~= advanced(init));
        assert(advanced(s).last() == s.last().after_tick());
        let done_adv = advanced(s).filter(|e: DelayedSpawnEvent<O, T>| e.done());
        let done_init = advanced(init).filter(|e: DelayedSpawnEvent<O, T>| e.done());
        let due_s = s.filter(|e: DelayedSpawnEvent<O, T>| due(e));
        let due_init = init.filter(|e: DelayedSpawnEvent<O, T>| due(e));
        let kept_s = s.filter(|e: DelayedSpawnEvent<O, T>| !due(e));
        let kept_init = init.filter(|e: DelayedSpawnEvent<O, T>| !due(e));
        if due(s.last()) {
            assert(done_adv == done_init.push(s.last().after_tick()));
            assert(due_s == due_init.push(s.last()));
            assert(kept_s == kept_init);
            assert(done_adv.map_values(|e: DelayedSpawnEvent<O, T>| e.event) =~= done_init.map_values(
                |e: DelayedSpawnEvent<O, T>| e.event,
            ).push(s.last().event));
            assert(due_s.map_values(|e: DelayedSpawnEvent<O, T>| e.event) =~= due_init.map_values(
                |e: DelayedSpawnEvent<O, T>| e.event,
            ).push(s.last().event));
        } else {
            assert(done_adv == done_init);
            assert(due_s == due_init);
            assert(kept_s == kept_init.push(s.last()));
            assert(advanced(kept_s) =~= advanced(kept_init).push(s.last().after_tick()));
        }
    } else {
        assert(advanced(s) =~= s);
    }
}

impl<O, T> View for DelayedSpawnQueue<O, T> {
    type V = Seq<DelayedSpawnEvent<O, T>>;

    closed spec fn view(&self) -> Seq<DelayedSpawnEvent<O, T>> {
        self.pending@
    }
}

impl<O, T> DelayedSpawnQueue<O, T> {
    pub fn new() -> (r: Self)
        ensures
            r@ == Seq::<DelayedSpawnEvent<O, T>>::empty(),
    {
        DelayedSpawnQueue { pending: Vec::new() }
    }

    /// Adds a request behind those already pending.
    pub fn schedule(&mut self, e: DelayedSpawnEvent<O, T>)
        ensures
            final(self)@ == old(self)@.push(e),
    {
        self.pending.push(e);
    }

    pub fn len(&self) -> (r: usize)
        ensures
            r == self@.len(),
    {
        self.pending.len()
    }

    pub fn pending(&self) -> (r: &Vec<DelayedSpawnEvent<O, T>>)
        ensures
            r@ == self@,
    {
        &self.pending
    }

    /// Runs one simulation tick: every pending request is advanced by one tick;
    /// those that are then done leave the queue and their spawn requests are
    /// returned, each exactly once, in scheduling order.
    pub fn tick(&mut self) -> (released: Vec<SpawnEvent<O, T>>)
        ensures
            final(self)@ == still_pending(advanced(old(self)@)),
            released@ == releasable(advanced(old(self)@)),
    {
        let mut rest: Vec<DelayedSpawnEvent<O, T>> = Vec::new();
        std::mem::swap(&mut self.pending, &mut rest);
        let ghost orig = rest@;
        let ghost mut i: int = 0;
        let mut kept: Vec<DelayedSpawnEvent<O, T>> = Vec::new();
        let mut released: Vec<SpawnEvent<O, T>> = Vec::new();
        while rest.len() > 0
            invariant
                orig == old(self)@,
                0 <= i <= orig.len(),
                rest@ == orig.subrange(i, orig.len() as int),
                kept@ == still_pending(advanced(orig.subrange(0, i))),
                released@ == releasable(advanced(orig.subrange(0, i))),
            decreases rest.len(),
        {
            let mut e = rest.remove(0);
            e.pass_tick();
            proof {
                let a = advanced(orig.subrange(0, i + 1));
                assert(a.drop_last() =~= advanced(orig.subrange(0, i)));
                assert(a.last() == e);
                reveal(Seq::filter);
            }
            if e.is_done() {
                released.push(e.event);
            } else {
                kept.push(e);
            }
            proof {
                i = i + 1;
            }
            assert(rest@ =~= orig.subrange(i, orig.len() as int));
        }
        assert(orig.subrange(0, i) =~= orig);
        self.pending = kept;
        released
    }
}

} // verus!
