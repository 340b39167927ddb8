//! The trigger bus's scheduling discipline: a per-tick processing budget,
//! a chain-depth cap, and the counters that instrument both. Deliberately
//! survives infinite loops: when the budget is hit, the remaining events are
//! dropped and counted, so nothing leaks into the next tick.
//!
//! The queue is generic over the event type; magnitudes and their decay are
//! the caller's business.

use vstd::prelude::*;
use std::collections::VecDeque;

verus! {

#[derive(Clone, Copy, Debug, Default)]
pub struct TriggerStats {
    pub emitted: u64,
    pub processed: u64,
    pub dropped_budget: u64,
    pub dropped_depth: u64,
    pub dropped_floor: u64,
    pub max_depth_seen: u32,
    /// Ticks on which the budget ran out (cumulative).
    pub budget_hit_ticks: u64,
    /// Events processed on the most recent tick.
    pub last_tick_processed: u32,
}

/// Budgeted FIFO of pending trigger events.
pub struct TriggerQueue<T> {
    queue: VecDeque<T>,
    /// Hard cap on events processed per tick.
    budget_per_tick: u32,
    /// Chains deeper than this are cut.
    max_chain_depth: u32,
    stats: TriggerStats,
    spent: u32,
}

impl<T> TriggerQueue<T> {
    /// Pending events, front first.
    pub closed spec fn pending(self) -> Seq<T> {
        self.queue@
    }

    pub closed spec fn spec_stats(self) -> TriggerStats {
        self.stats
    }

    /// Per-tick processing budget.
    pub closed spec fn budget(self) -> u32 {
        self.budget_per_tick
    }

    /// Maximum chain depth.
    pub closed spec fn depth_cap(self) -> u32 {
        self.max_chain_depth
    }

    /// The counters.
    pub fn stats(&self) -> (r: TriggerStats)
        ensures
            r == self.spec_stats(),
    {
        self.stats
    }

    /// Replaces the budget and depth cap.
    pub fn configure(&mut self, budget_per_tick: u32, max_chain_depth: u32)
        ensures
            final(self).budget() == budget_per_tick,
            final(self).depth_cap() == max_chain_depth,
            final(self).spec_stats() == old(self).spec_stats(),
            final(self).pending() == old(self).pending(),
            final(self).spent_this_tick() == old(self).spent_this_tick(),
    {
        self.budget_per_tick = budget_per_tick;
        self.max_chain_depth = max_chain_depth;
    }

    /// Events taken so far during the current tick.
    pub closed spec fn spent_this_tick(self) -> u32 {
        self.spent
    }

    /// No counter can overflow during the next operation.
    pub open spec fn headroom(self) -> bool {
        &&& self.spec_stats().emitted < u64::MAX
        &&& self.spec_stats().processed < u64::MAX
        &&& self.spec_stats().dropped_budget + self.pending().len() <= u64::MAX
        &&& self.spec_stats().dropped_depth < u64::MAX
        &&& self.spec_stats().dropped_floor < u64::MAX
        &&& self.spec_stats().budget_hit_ticks < u64::MAX
    }

    pub fn new(budget_per_tick: u32, max_chain_depth: u32) -> (r: Self)
        ensures
            r.pending() == Seq::<T>::empty(),
            r.spent_this_tick() == 0,
            r.budget() == budget_per_tick,
            r.depth_cap() == max_chain_depth,
            r.spec_stats() == TriggerStats::default_spec(),
    {
        TriggerQueue {
            queue: VecDeque::new(),
            budget_per_tick,
            max_chain_depth,
            stats: TriggerStats::new(),
            spent: 0,
        }
    }

    /// Whether every counter has room for the next operation.
    pub fn has_headroom(&self) -> (r: bool)
        ensures
            r == self.headroom(),
    {
        self.stats.emitted < u64::MAX && self.stats.processed < u64::MAX
            && self.queue.len() as u64 <= u64::MAX - self.stats.dropped_budget
            && self.stats.dropped_depth < u64::MAX && self.stats.dropped_floor < u64::MAX
            && self.stats.budget_hit_ticks < u64::MAX
    }

    pub fn pending_len(&self) -> (r: usize)
        ensures
            r == self.pending().len(),
    {
        self.queue.len()
    }

    /// Queues a root event (chain depth 0).
    pub fn emit_root(&mut self, ev: T)
        requires
            old(self).headroom(),
        ensures
            final(self).pending() == old(self).pending().push(ev),
            final(self).spec_stats() == (TriggerStats { emitted: (old(self).spec_stats().emitted + 1) as u64, ..old(self).spec_stats() }),
            final(self).spent_this_tick() == old(self).spent_this_tick(),
            final(self).budget() == old(self).budget(),
            final(self).depth_cap() == old(self).depth_cap(),
    {
        self.stats.emitted = self.stats.emitted + 1;
        self.queue.push_back(ev);
    }

    /// Counts a child emission at depth `parent_depth + 1`; returns that
    /// depth if the chain may continue, or `None` (counted as a depth drop)
    /// past the depth cap.
    pub fn admit_child(&mut self, parent_depth: u32) -> (r: Option<u32>)
        requires
            old(self).headroom(),
            parent_depth < u32::MAX,
        ensures
            final(self).spec_stats().emitted == old(self).spec_stats().emitted + 1,
            parent_depth + 1 > old(self).depth_cap() ==> r is None
                && final(self).spec_stats() == (TriggerStats {
                    emitted: (old(self).spec_stats().emitted + 1) as u64,
                    dropped_depth: (old(self).spec_stats().dropped_depth + 1) as u64,
                    ..old(self).spec_stats()
                }),
            parent_depth + 1 <= old(self).depth_cap() ==> r == Some((parent_depth + 1) as u32)
                && final(self).spec_stats() == (TriggerStats { emitted: (old(self).spec_stats().emitted + 1) as u64, ..old(self).spec_stats() }),
            final(self).pending() == old(self).pending(),
            final(self).spent_this_tick() == old(self).spent_this_tick(),
            final(self).budget() == old(self).budget(),
            final(self).depth_cap() == old(self).depth_cap(),
    {
        let depth = parent_depth + 1;
        self.stats.emitted = self.stats.emitted + 1;
        if depth > self.max_chain_depth {
            self.stats.dropped_depth = self.stats.dropped_depth + 1;
            return None;
        }
        Some(depth)
    }

    /// Counts a child dropped because its magnitude decayed below the floor.
    pub fn drop_below_floor(&mut self)
        requires
            old(self).headroom(),
        ensures
            final(self).spec_stats() == (TriggerStats { dropped_floor: (old(self).spec_stats().dropped_floor + 1) as u64, ..old(self).spec_stats() }),
            final(self).pending() == old(self).pending(),
            final(self).spent_this_tick() == old(self).spent_this_tick(),
            final(self).budget() == old(self).budget(),
            final(self).depth_cap() == old(self).depth_cap(),
    {
        self.stats.dropped_floor = self.stats.dropped_floor + 1;
    }

    /// Queues an admitted child event at chain depth `depth`.
    pub fn push_child(&mut self, ev: T, depth: u32)
        ensures
            final(self).pending() == old(self).pending().push(ev),
            final(self).spec_stats() == (TriggerStats {
                max_depth_seen: if old(self).spec_stats().max_depth_seen >= depth { old(self).spec_stats().max_depth_seen } else { depth },
                ..old(self).spec_stats()
            }),
            final(self).spent_this_tick() == old(self).spent_this_tick(),
            final(self).budget() == old(self).budget(),
            final(self).depth_cap() == old(self).depth_cap(),
    {
        if depth > self.stats.max_depth_seen {
            self.stats.max_depth_seen = depth;
        }
        self.queue.push_back(ev);
    }

    /// Starts a tick's processing.
    pub fn begin_tick(&mut self)
        ensures
            final(self).spent_this_tick() == 0,
            final(self).pending() == old(self).pending(),
            final(self).spec_stats() == old(self).spec_stats(),
            final(self).budget() == old(self).budget(),
            final(self).depth_cap() == old(self).depth_cap(),
    {
        self.spent = 0;
    }

    /// The next event to process this tick. Once the budget is spent, the
    /// rest of the queue is dropped and counted, and `None` is returned.
    pub fn next(&mut self) -> (r: Option<T>)
        requires
            old(self).headroom(),
        ensures
            final(self).budget() == old(self).budget(),
            final(self).depth_cap() == old(self).depth_cap(),
            old(self).pending().len() == 0 ==> r is None && final(self).pending() == old(self).pending()
                && final(self).spec_stats() == old(self).spec_stats() && final(self).spent_this_tick() == old(self).spent_this_tick(),
            old(self).pending().len() > 0 && old(self).spent_this_tick() >= old(self).budget() ==> {
                &&& r is None
                &&& final(self).pending() == Seq::<T>::empty()
                &&& final(self).spec_stats() == (TriggerStats {
                    dropped_budget: (old(self).spec_stats().dropped_budget + old(self).pending().len()) as u64,
                    budget_hit_ticks: (old(self).spec_stats().budget_hit_ticks + 1) as u64,
                    ..old(self).spec_stats()
                })
                &&& final(self).spent_this_tick() == old(self).spent_this_tick()
            },
            old(self).pending().len() > 0 && old(self).spent_this_tick() < old(self).budget() ==> {
                &&& r == Some(old(self).pending()[0])
                &&& final(self).pending() == old(self).pending().drop_first()
                &&& final(self).spec_stats() == (TriggerStats { processed: (old(self).spec_stats().processed + 1) as u64, ..old(self).spec_stats() })
                &&& final(self).spent_this_tick() == old(self).spent_this_tick() + 1
            },
            // containment: a tick never hands out more than the budget, and
            // once `next` says there is nothing more, nothing is left over
            old(self).spent_this_tick() <= old(self).budget() ==> final(self).spent_this_tick() <= final(self).budget(),
            r is None ==> final(self).pending().len() == 0,
    {
        match self.queue.pop_front() {
            None => None,
            Some(ev) => {
                if self.spent >= self.budget_per_tick {
                    self.queue.push_front(ev);
                    let dropped = self.queue.len() as u64;
                    self.stats.dropped_budget = self.stats.dropped_budget + dropped;
                    self.queue.clear();
                    self.stats.budget_hit_ticks = self.stats.budget_hit_ticks + 1;
                    None
                } else {
                    self.spent = self.spent + 1;
                    self.stats.processed = self.stats.processed + 1;
                    Some(ev)
                }
            },
        }
    }

    /// Ends a tick's processing, recording how many events it processed.
    pub fn end_tick(&mut self)
        ensures
            final(self).spec_stats() == (TriggerStats { last_tick_processed: old(self).spent_this_tick(), ..old(self).spec_stats() }),
            final(self).pending() == old(self).pending(),
            final(self).spent_this_tick() == old(self).spent_this_tick(),
            final(self).budget() == old(self).budget(),
            final(self).depth_cap() == old(self).depth_cap(),
    {
        self.stats.last_tick_processed = self.spent;
    }
}

impl TriggerStats {
    pub open spec fn default_spec() -> Self {
        TriggerStats {
            emitted: 0,
            processed: 0,
            dropped_budget: 0,
            dropped_depth: 0,
            dropped_floor: 0,
            max_depth_seen: 0,
            budget_hit_ticks: 0,
            last_tick_processed: 0,
        }
    }

    pub fn new() -> (r: Self)
        ensures
            r == Self::default_spec(),
    {
        TriggerStats {
            emitted: 0,
            processed: 0,
            dropped_budget: 0,
            dropped_depth: 0,
            dropped_floor: 0,
            max_depth_seen: 0,
            budget_hit_ticks: 0,
            last_tick_processed: 0,
        }
    }
}

} // verus!
