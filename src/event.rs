use vstd::prelude::*;

verus! {

/// Emitted after a node has been moved under another parent, or detached to the
/// root when `new_parent` is `None`. Purely informational.
#[derive(Debug, Clone, PartialEq, Default)]
pub struct ParentChangeEvent {
    pub name: String,
    pub new_parent: Option<String>,
}

/// Emitted after the object called `name` has been duplicated.
#[derive(Debug, Clone, PartialEq, Default)]
pub struct DuplicationEvent {
    pub name: String,
}

/// A request to instantiate `object` now, placed at `transform` in its parent's
/// local space. Both are opaque to the scheduler.
#[derive(Debug, Clone, PartialEq, Default)]
pub struct SpawnEvent<O, T> {
    pub object: O,
    pub transform: T,
}

/// A spawn request held back for `tick_delay` more simulation ticks.
#[derive(Debug, Clone, PartialEq, Default)]
pub struct DelayedSpawnEvent<O, T> {
    pub tick_delay: usize,
    pub event: SpawnEvent<O, T>,
}

impl<O, T> DelayedSpawnEvent<O, T> {
    /// The request may be released.
    pub open spec fn done(self) -> bool {
        self.tick_delay == 0
    }

    /// The request one tick later: the delay drops by one, floored at zero.
    pub open spec fn after_tick(self) -> Self {
        DelayedSpawnEvent {
            tick_delay: if self.tick_delay == 0 { 0 } else { (self.tick_delay - 1) as usize },
            event: self.event,
        }
    }

    /// The request `k` ticks later.
    pub open spec fn after_ticks(self, k: nat) -> Self
        decreases k,
    {
        if k == 0 {
            self
        } else {
            self.after_ticks((k - 1) as nat).after_tick()
        }
    }

    /// Advances the request by one tick and hands it back for inspection.
    pub fn pass_tick(&mut self) -> (r: &mut Self)
        ensures
            *r == old(self).after_tick(),
            *final(self) == *final(r),
    {
        self.tick_delay = self.tick_delay.saturating_sub(1);
        self
    }

    pub fn is_done(&self) -> (r: bool)
        ensures
            r == self.done(),
    {
        self.tick_delay == 0
    }
}

/// After `k` ticks the delay is the original one less `k`, never below zero,
/// and the wrapped request is untouched.
pub proof fn lemma_after_ticks<O, T>(e: DelayedSpawnEvent<O, T>, k: nat)
    ensures
        e.after_ticks(k).tick_delay == if k >= e.tick_delay { 0 } else { e.tick_delay - k },
        e.after_ticks(k).event == e.event,
    decreases k,
{
    if k > 0 {
        lemma_after_ticks(e, (k - 1) as nat);
    }
}

/// A request with delay `n` is done after exactly `n` ticks and, when `n` is
/// positive, not yet done after `n - 1` ticks.
pub proof fn lemma_done_after_delay<O, T>(e: DelayedSpawnEvent<O, T>)
    ensures
        e.after_ticks(e.tick_delay as nat).done(),
        e.tick_delay >= 1 ==> !e.after_ticks((e.tick_delay - 1) as nat).done(),
        e.tick_delay == 0 ==> e.done(),
{
    lemma_after_ticks(e, e.tick_delay as nat);
    if e.tick_delay >= 1 {
        lemma_after_ticks(e, (e.tick_delay - 1) as nat);
    }
}

/// Advancing a request that is already done, by any number of ticks, leaves it
/// done with a delay of zero and the same wrapped request.
pub proof fn lemma_done_stays_done<O, T>(e: DelayedSpawnEvent<O, T>, k: nat)
    requires
        e.done(),
    ensures
        e.after_ticks(k) == e,
        e.after_tick() == e,
{
    lemma_after_ticks(e, k);
}

/// However many ticks pass, the wrapped request keeps its object and transform.
pub proof fn lemma_ticks_keep_event<O, T>(e: DelayedSpawnEvent<O, T>, k: nat)
    ensures
        e.after_ticks(k).event.object == e.event.object,
        e.after_ticks(k).event.transform == e.event.transform,
{
    lemma_after_ticks(e, k);
}

} // verus!
