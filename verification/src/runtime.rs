//! The running graph, and the driver that evaluates it tick after tick.

use vstd::prelude::*;

use crate::compiler::{jobs_fit, tick_stopped, ticked, CompiledGraph};
use crate::error::AqueductResult;

verus! {

/// The compiled graph that is running; it is replaced whole when the graph
/// changes.
pub struct LiveGraph {
    current: CompiledGraph,
}

impl LiveGraph {
    /// The running compiled graph.
    pub closed spec fn graph(&self) -> CompiledGraph {
        self.current
    }

    /// Runs `initial`.
    pub fn new(initial: CompiledGraph) -> (r: Self)
        ensures
            r.graph() == initial,
    {
        LiveGraph { current: initial }
    }

    /// The running compiled graph.
    pub fn snapshot(&self) -> (r: &CompiledGraph)
        ensures
            *r == self.graph(),
    {
        &self.current
    }

    /// Runs `next` in place of the current graph.
    pub fn replace(&mut self, next: CompiledGraph)
        ensures
            final(self).graph() == next,
    {
        self.current = next;
    }

    /// Calls `reader` on the running graph and returns what it returns.
    pub fn with_graph<R, F: FnOnce(&CompiledGraph) -> AqueductResult<R>>(&self, reader: F) -> (r: AqueductResult<R>)
        requires
            reader.requires((&self.graph(),)),
        ensures
            reader.ensures((&self.graph(),), r),
    {
        reader(&self.current)
    }

    /// The running graph, to change in place.
    pub fn with_graph_mut(&mut self) -> (r: &mut CompiledGraph)
        ensures
            *r == old(self).graph(),
            final(self).graph() == *final(r),
    {
        &mut self.current
    }

    /// Evaluates one tick of the running graph.
    pub fn tick(&mut self, tick: u64) -> (r: AqueductResult<()>)
        requires
            old(self).graph().wf(),
        ensures
            final(self).graph().wf(),
            final(self).graph().same_plan(&old(self).graph()),
            r is Ok ==> final(self).graph()@.pin_store.events.len() == 0 && final(self).graph()@.completed_jobs.len() == 0,
            r is Ok ==> ticked(old(self).graph()@, old(self).graph().evaluators(), final(self).graph()@, tick),
            jobs_fit(old(self).graph()@) ==> (r matches Err(e) ==> tick_stopped(old(self).graph()@, old(self).graph().evaluators(), final(self).graph()@, tick, e)),
    {
        self.current.tick(tick)
    }
}

/// Counts the ticks of the running graph.
pub struct TickDriver {
    next_tick: u64,
}

impl TickDriver {
    /// The number of the next tick.
    pub closed spec fn spec_next_tick(&self) -> u64 {
        self.next_tick
    }

    /// A driver whose first tick is tick 0.
    pub fn new() -> (r: Self)
        ensures
            r.spec_next_tick() == 0,
    {
        TickDriver { next_tick: 0 }
    }

    /// The number of the next tick.
    pub fn next_tick(&self) -> (r: u64)
        ensures
            r == self.spec_next_tick(),
    {
        self.next_tick
    }

    /// Evaluates the next tick of `live_graph` and returns its number; the count
    /// moves on (and stays at `u64::MAX` once there) only when the tick succeeds.
    pub fn run_tick(&mut self, live_graph: &mut LiveGraph) -> (r: AqueductResult<u64>)
        requires
            old(live_graph).graph().wf(),
        ensures
            final(live_graph).graph().wf(),
            final(live_graph).graph().same_plan(&old(live_graph).graph()),
            r matches Ok(t) ==> t == old(self).spec_next_tick()
                && final(self).spec_next_tick() == if t == u64::MAX { u64::MAX } else { (t + 1) as u64 }
                && final(live_graph).graph()@.pin_store.events.len() == 0,
            r matches Ok(t) ==> ticked(old(live_graph).graph()@, old(live_graph).graph().evaluators(), final(live_graph).graph()@, t),
            r is Err ==> final(self).spec_next_tick() == old(self).spec_next_tick(),
            jobs_fit(old(live_graph).graph()@) ==> (r matches Err(e) ==> tick_stopped(
                old(live_graph).graph()@,
                old(live_graph).graph().evaluators(),
                final(live_graph).graph()@,
                old(self).spec_next_tick(),
                e,
            )),
    {
        let tick = self.next_tick;
        match live_graph.tick(tick) {
            Ok(()) => {},
            Err(e) => {
                return Err(e);
            },
        }
        self.next_tick = self.next_tick.saturating_add(1);
        Ok(tick)
    }
}

} // verus!
