//! Compilation of a graph into an evaluation plan, and the plan's evaluation tick
//! by tick over a pin store.

use vstd::prelude::*;

use crate::error::{concat2, concat3, concat5, AqueductError, AqueductResult, ErrorKind};
use crate::ids::{contains_id, id_views, NodeId};
use crate::keyed::{has_key, key_index, keyed_insert, keyed_remove, keys_distinct, lemma_distinct_index, lemma_insert_distinct, lemma_key_index, lemma_push_lookup, lemma_remove_distinct, lookup};
use crate::maps::node_property_set;
use crate::graph::{all_nodes_ok, all_edges_ok, def_of_node, edge_known, edge_ok, first_bad_edge, first_bad_node, graph_valid, has_topological_order, invalid_graph_error, is_least_topological_order, lemma_evaluation_order_is_unique, node_ok, topological_sort, validate_graph};
use crate::model::{Edge, Graph, GraphView, NodeDef, PinDef, PinValue};
use crate::pin_store::{all_types_registered, is_default_value, keys_with_types, seed_nodes, value_type};
use crate::registry::{def_lookup, has_def, NodeRegistry};
use crate::node::{NodeEvalResult, NodeEvaluator, NodeFactory};
use crate::pin_store::{PinStore, PinStoreView, ScopedPinId};
use crate::text::{decimal_text, u64_text};

verus! {

/// The views of scoped pins.
pub open spec fn scoped_views(pins: Seq<ScopedPinId>) -> Seq<(Seq<char>, Seq<char>)> {
    pins.map_values(|p: ScopedPinId| p@)
}

/// The model of a compiled node.
pub struct CompiledNodeView {
    pub node_id: Seq<char>,
    pub input_pins: Seq<(Seq<char>, Seq<char>)>,
    pub output_pins: Seq<(Seq<char>, Seq<char>)>,
}

/// A node of the evaluation plan: its id, and its input and output pins in the
/// order of its type's definition.
#[derive(Debug, PartialEq, Eq)]
pub struct CompiledNode {
    /// The node.
    pub node_id: NodeId,
    /// The input pins, in order.
    pub input_pins: Vec<ScopedPinId>,
    /// The output pins, in order.
    pub output_pins: Vec<ScopedPinId>,
}

impl View for CompiledNode {
    type V = CompiledNodeView;

    open spec fn view(&self) -> CompiledNodeView {
        CompiledNodeView {
            node_id: self.node_id@,
            input_pins: scoped_views(self.input_pins@),
            output_pins: scoped_views(self.output_pins@),
        }
    }
}

impl Clone for CompiledNode {
    fn clone(&self) -> (r: Self)
        ensures
            r@ == self@,
    {
        let input_pins = self.input_pins.clone();
        let output_pins = self.output_pins.clone();
        assert(input_pins@ =~= self.input_pins@);
        assert(output_pins@ =~= self.output_pins@);
        CompiledNode { node_id: self.node_id.clone(), input_pins, output_pins }
    }
}

/// The model of a finished asynchronous job.
pub struct AsyncJobView {
    pub job_id: u64,
    pub node_id: Seq<char>,
    pub tick_spawned: u64,
    pub outputs: Seq<PinValue>,
}

/// The result of an asynchronous job, to be written to its node's outputs.
#[derive(Debug, PartialEq)]
pub struct AsyncJobResult {
    /// The job.
    pub job_id: u64,
    /// The node that started it.
    pub node_id: NodeId,
    /// The tick in which it was started.
    pub tick_spawned: u64,
    /// Its outputs, one per output pin of the node.
    pub outputs: Vec<PinValue>,
}

impl View for AsyncJobResult {
    type V = AsyncJobView;

    open spec fn view(&self) -> AsyncJobView {
        AsyncJobView {
            job_id: self.job_id,
            node_id: self.node_id@,
            tick_spawned: self.tick_spawned,
            outputs: self.outputs@,
        }
    }
}

impl Clone for AsyncJobResult {
    fn clone(&self) -> (r: Self)
        ensures
            r@ == self@,
    {
        let outputs = self.outputs.clone();
        assert(outputs@ =~= self.outputs@);
        AsyncJobResult {
            job_id: self.job_id,
            node_id: self.node_id.clone(),
            tick_spawned: self.tick_spawned,
            outputs,
        }
    }
}

/// The model of a job that was started and has not finished.
pub struct PendingJobView {
    pub node_id: Seq<char>,
    pub tick_spawned: u64,
    pub graph_rev: u64,
}

#[derive(Debug)]
struct PendingAsyncJob {
    node_id: NodeId,
    tick_spawned: u64,
    graph_rev: u64,
}

impl View for PendingAsyncJob {
    type V = PendingJobView;

    closed spec fn view(&self) -> PendingJobView {
        PendingJobView { node_id: self.node_id@, tick_spawned: self.tick_spawned, graph_rev: self.graph_rev }
    }
}

/// The model of a compiled graph.
pub struct CompiledGraphView {
    /// The graph it was compiled from.
    pub graph: GraphView,
    /// The evaluation order.
    pub eval_order: Seq<Seq<char>>,
    /// The plan of each node, in evaluation order.
    pub nodes: Seq<CompiledNodeView>,
    /// For each connected input pin, the output pin that feeds it.
    pub connections: Seq<((Seq<char>, Seq<char>), (Seq<char>, Seq<char>))>,
    /// The graph revision.
    pub graph_rev: u64,
    /// The pin values and fired events.
    pub pin_store: PinStoreView,
    /// The started jobs by job id.
    pub pending_jobs: Seq<(u64, PendingJobView)>,
    /// The finished jobs waiting to be written, oldest first.
    pub completed_jobs: Seq<AsyncJobView>,
}

/// A compiled graph: the plan, one evaluator per node, and the state of the run.
pub struct CompiledGraph {
    graph: Graph,
    eval_order: Vec<NodeId>,
    nodes: Vec<CompiledNode>,
    evaluators: Vec<Box<dyn NodeEvaluator>>,
    connections: Vec<(ScopedPinId, ScopedPinId)>,
    graph_rev: u64,
    pin_store: PinStore,
    pending_jobs: Vec<(u64, PendingAsyncJob)>,
    completed_jobs: Vec<AsyncJobResult>,
}

impl View for CompiledGraph {
    type V = CompiledGraphView;

    closed spec fn view(&self) -> CompiledGraphView {
        CompiledGraphView {
            graph: self.graph@,
            eval_order: id_views(self.eval_order@),
            nodes: self.nodes@.map_values(|n: CompiledNode| n@),
            connections: connection_views(self.connections@),
            graph_rev: self.graph_rev,
            pin_store: self.pin_store@,
            pending_jobs: self.pending_jobs@.map_values(|p: (u64, PendingAsyncJob)| (p.0, p.1@)),
            completed_jobs: job_views(self.completed_jobs@),
        }
    }
}

/// The views of connections.
pub open spec fn connection_views(c: Seq<(ScopedPinId, ScopedPinId)>) -> Seq<((Seq<char>, Seq<char>), (Seq<char>, Seq<char>))> {
    c.map_values(|e: (ScopedPinId, ScopedPinId)| (e.0@, e.1@))
}

/// The views of finished jobs.
pub open spec fn job_views(jobs: Seq<AsyncJobResult>) -> Seq<AsyncJobView> {
    jobs.map_values(|j: AsyncJobResult| j@)
}

/// The plans keyed by node id.
pub open spec fn plan_entries(nodes: Seq<CompiledNodeView>) -> Seq<(Seq<char>, CompiledNodeView)> {
    nodes.map_values(|n: CompiledNodeView| (n.node_id, n))
}

/// The pin that feeds input pin `pin`: its connected output, or itself.
pub open spec fn input_source(
    connections: Seq<((Seq<char>, Seq<char>), (Seq<char>, Seq<char>))>,
    pin: (Seq<char>, Seq<char>),
) -> (Seq<char>, Seq<char>) {
    match lookup(connections, pin) {
        Some(source) => source,
        None => pin,
    }
}

/// The value that input pin `pin` reads: an event if its source fired, else the
/// source's value, else no value.
pub open spec fn input_value(
    store: PinStoreView,
    connections: Seq<((Seq<char>, Seq<char>), (Seq<char>, Seq<char>))>,
    pin: (Seq<char>, Seq<char>),
) -> PinValue {
    let source = input_source(connections, pin);
    if store.events.contains(source) {
        PinValue::Event
    } else {
        match lookup(store.values, source) {
            Some(v) => v,
            None => PinValue::Nothing,
        }
    }
}

/// `store` after output `v` is written to `pin`: an event fires the pin, any other
/// value is stored on it.
pub open spec fn write_output(store: PinStoreView, pin: (Seq<char>, Seq<char>), v: PinValue) -> PinStoreView {
    if v is Event {
        PinStoreView {
            values: store.values,
            events: if store.events.contains(pin) {
                store.events
            } else {
                store.events.push(pin)
            },
        }
    } else {
        PinStoreView { values: keyed_insert(store.values, pin, v), events: store.events }
    }
}

/// `store` after `values` are written, in order, to the pins `pins`.
pub open spec fn written(store: PinStoreView, pins: Seq<(Seq<char>, Seq<char>)>, values: Seq<PinValue>) -> PinStoreView
    decreases values.len(),
{
    if values.len() == 0 {
        store
    } else {
        write_output(written(store, pins, values.drop_last()), pins[values.len() - 1], values.last())
    }
}

/// The message of an output count that does not match a node's output pins.
pub open spec fn output_mismatch_message(node_id: Seq<char>, expected: nat, actual: nat) -> Seq<char> {
    "ノード "@ + node_id + " の出力数が一致しません: expected="@ + decimal_text(expected) + ", actual="@
        + decimal_text(actual)
}

/// The finished job `job` can be written: its node has no plan, or it has one
/// output per output pin of the node.
pub open spec fn job_output_ok(nodes: Seq<CompiledNodeView>, job: AsyncJobView) -> bool {
    match lookup(plan_entries(nodes), job.node_id) {
        Some(plan) => job.outputs.len() == plan.output_pins.len(),
        None => true,
    }
}

/// `store` after the outputs of the finished job `job` are written to its node's
/// output pins (unchanged when the node has no plan).
pub open spec fn job_written(store: PinStoreView, nodes: Seq<CompiledNodeView>, job: AsyncJobView) -> PinStoreView {
    match lookup(plan_entries(nodes), job.node_id) {
        Some(plan) => written(store, plan.output_pins, job.outputs),
        None => store,
    }
}

/// `store` after the finished jobs `jobs` are written, in order.
pub open spec fn drained(store: PinStoreView, nodes: Seq<CompiledNodeView>, jobs: Seq<AsyncJobView>) -> PinStoreView
    decreases jobs.len(),
{
    if jobs.len() == 0 {
        store
    } else {
        job_written(drained(store, nodes, jobs.drop_last()), nodes, jobs.last())
    }
}

/// Job `k` of `jobs` is the first that cannot be written.
pub open spec fn first_bad_job(nodes: Seq<CompiledNodeView>, jobs: Seq<AsyncJobView>, k: int) -> bool {
    &&& 0 <= k < jobs.len()
    &&& !job_output_ok(nodes, jobs[k])
    &&& forall|i: int| 0 <= i < k ==> #[trigger] job_output_ok(nodes, jobs[i])
}

/// What evaluating one node does to the run: outputs available now are written to
/// the node's output pins; a started job is recorded as pending under its id, with
/// the node, the tick and the graph revision. The error code when refused: outputs
/// that do not match the node's output pins, a node without a plan, or a job id
/// already pending.
pub open spec fn result_applied(
    v: CompiledGraphView,
    node: CompiledNodeView,
    result: NodeEvalResult,
    tick: u64,
) -> Result<CompiledGraphView, Seq<char>> {
    match result {
        NodeEvalResult::Ready(outputs) => if outputs@.len() == node.output_pins.len() {
            Ok(CompiledGraphView { pin_store: written(v.pin_store, node.output_pins, outputs@), ..v })
        } else {
            Err("COMPILED_OUTPUT_LENGTH_MISMATCH"@)
        },
        NodeEvalResult::Spawned { job_id } => if !has_key(plan_entries(v.nodes), node.node_id) {
            Err("COMPILED_ASYNC_NODE_MISSING"@)
        } else if has_key(v.pending_jobs, job_id) {
            Err("COMPILED_ASYNC_JOB_DUPLICATE"@)
        } else {
            Ok(CompiledGraphView {
                pending_jobs: v.pending_jobs.push(
                    (job_id, PendingJobView { node_id: node.node_id, tick_spawned: tick, graph_rev: v.graph_rev }),
                ),
                ..v
            })
        },
    }
}

/// What evaluating the first `results.len()` nodes of the plan, in plan order, does
/// to the run when node `i` produces `results[i]`: the run after the last of them,
/// or the error code of the first that is refused.
pub open spec fn evaluated(v: CompiledGraphView, results: Seq<NodeEvalResult>, tick: u64) -> Result<CompiledGraphView, Seq<char>>
    decreases results.len(),
{
    if results.len() == 0 {
        Ok(v)
    } else {
        match evaluated(v, results.drop_last(), tick) {
            Ok(w) => result_applied(w, v.nodes[results.len() - 1], results.last(), tick),
            Err(code) => Err(code),
        }
    }
}

/// The run with its finished jobs written, oldest first, and their queue emptied.
pub open spec fn jobs_drained(v: CompiledGraphView) -> CompiledGraphView {
    CompiledGraphView {
        pin_store: drained(v.pin_store, v.nodes, v.completed_jobs),
        completed_jobs: Seq::empty(),
        ..v
    }
}

/// The inputs of `node` as the run `v` holds them: for each input pin, in order,
/// the value it reads (see `input_value`).
pub open spec fn node_inputs(v: CompiledGraphView, node: CompiledNodeView) -> Seq<PinValue> {
    node.input_pins.map_values(|p: (Seq<char>, Seq<char>)| input_value(v.pin_store, v.connections, p))
}

/// Node `i` of the plan of `start` produced `results[i]`: its evaluator `evs[i]`,
/// handed at `tick` the inputs that node reads from the run after the nodes before
/// it produced theirs, may answer that.
pub open spec fn answered_at(
    start: CompiledGraphView,
    evs: Seq<Box<dyn NodeEvaluator>>,
    results: Seq<NodeEvalResult>,
    tick: u64,
    i: int,
) -> bool {
    match evaluated(start, results.take(i), tick) {
        Ok(w) => evs[i].answers(node_inputs(w, start.nodes[i]), tick, Ok(results[i])),
        Err(_) => false,
    }
}

/// One tick took the run from `before`, with evaluators `evs`, to `after`: the
/// finished jobs were written, then each node in plan order was handed its inputs
/// and its evaluator's answer applied, and the fired events were cleared.
pub open spec fn ticked(before: CompiledGraphView, evs: Seq<Box<dyn NodeEvaluator>>, after: CompiledGraphView, tick: u64) -> bool {
    exists|results: Seq<NodeEvalResult>| {
        &&& results.len() == before.nodes.len()
        &&& #[trigger] evaluated(jobs_drained(before), results, tick) matches Ok(w)
        &&& after == events_cleared(w)
        &&& forall|i: int| 0 <= i < results.len() ==> #[trigger] answered_at(jobs_drained(before), evs, results, tick, i)
    }
}

/// Every finished job of the run can be written to its node's outputs.
pub open spec fn jobs_fit(v: CompiledGraphView) -> bool {
    forall|i: int| 0 <= i < v.completed_jobs.len() ==> #[trigger] job_output_ok(v.nodes, v.completed_jobs[i])
}

/// A tick stopped from `before`, with evaluators `evs`, at `after`, with error `e`:
/// the finished jobs were written and the nodes before some node of the plan
/// evaluated as in a tick, giving `after`; that node's evaluator, handed its
/// inputs, then answered the error `e`, or answered what cannot be applied, and
/// `e` is the runtime error of that refusal.
pub open spec fn tick_stopped(
    before: CompiledGraphView,
    evs: Seq<Box<dyn NodeEvaluator>>,
    after: CompiledGraphView,
    tick: u64,
    e: AqueductError,
) -> bool {
    exists|results: Seq<NodeEvalResult>| {
        &&& results.len() < before.nodes.len()
        &&& #[trigger] evaluated(jobs_drained(before), results, tick) == Ok::<CompiledGraphView, Seq<char>>(after)
        &&& forall|i: int| 0 <= i < results.len() ==> #[trigger] answered_at(jobs_drained(before), evs, results, tick, i)
        &&& exists|x: AqueductResult<NodeEvalResult>| {
            &&& #[trigger] evs[results.len() as int].answers(node_inputs(after, before.nodes[results.len() as int]), tick, x)
            &&& ((x matches Err(xe) && xe == e) || (x matches Ok(res) && result_applied(
                after,
                before.nodes[results.len() as int],
                res,
                tick,
            ) matches Err(code) && e.spec_kind() == ErrorKind::Runtime && e.spec_code()@ == code))
        }
    }
}

/// The run with no event fired.
pub open spec fn events_cleared(v: CompiledGraphView) -> CompiledGraphView {
    CompiledGraphView { pin_store: PinStoreView { events: Seq::empty(), ..v.pin_store }, ..v }
}

/// `after` runs, for each node outside `affected` that `before` also ran, the
/// evaluator that `before` ran it with.
pub open spec fn carries_evaluators(before: CompiledGraph, after: CompiledGraph, affected: Seq<Seq<char>>) -> bool {
    forall|i: int, j: int|
        0 <= i < after.evaluators().len() && 0 <= j < before.evaluators().len() && !affected.contains(after@.eval_order[i])
            && before@.eval_order[j] == after@.eval_order[i] ==> #[trigger] after.evaluators()[i]
            == #[trigger] before.evaluators()[j]
}

/// The result of job `job` is awaited: a job is pending under its id, for the same
/// node and tick, started under the current graph revision.
pub open spec fn job_awaited(v: CompiledGraphView, job: AsyncJobView) -> bool {
    match lookup(v.pending_jobs, job.job_id) {
        Some(p) => p.graph_rev == v.graph_rev && p.node_id == job.node_id && p.tick_spawned == job.tick_spawned,
        None => false,
    }
}

/// The value of a pin after values of a previous store are carried over: that
/// store's value for the pin, unless the pin's node is affected or that store has
/// no value for it.
pub open spec fn carried_value(
    entry: ((Seq<char>, Seq<char>), PinValue),
    previous: Seq<((Seq<char>, Seq<char>), PinValue)>,
    affected: Seq<Seq<char>>,
) -> PinValue {
    if !affected.contains(entry.0.0) && has_key(previous, entry.0) {
        lookup(previous, entry.0).unwrap()
    } else {
        entry.1
    }
}

impl CompiledGraph {
    /// The plan lines up with the evaluation order and the evaluators, the store
    /// and the maps have distinct keys.
    pub closed spec fn wf(&self) -> bool {
        &&& self.graph.wf()
        &&& self.pin_store.wf()
        &&& self.nodes@.len() == self.eval_order@.len()
        &&& self.evaluators@.len() == self.eval_order@.len()
        &&& forall|i: int| 0 <= i < self.nodes@.len() ==> (#[trigger] self.nodes@[i]).node_id@ == self.eval_order@[i]@
        &&& self@.eval_order.no_duplicates()
        &&& keys_distinct(self@.pending_jobs)
        &&& keys_distinct(self@.connections)
    }

    /// The evaluators, one per node of the plan, in evaluation order.
    pub closed spec fn evaluators(&self) -> Seq<Box<dyn NodeEvaluator>> {
        self.evaluators@
    }

    /// There is one evaluator per node of the plan.
    pub proof fn lemma_one_evaluator_per_node(&self)
        requires
            self.wf(),
        ensures
            self.evaluators().len() == self@.nodes.len(),
            self.evaluators().len() == self@.eval_order.len(),
    {
    }

    /// Distinct started jobs have distinct ids.
    pub proof fn lemma_pending_jobs_distinct(&self)
        requires
            self.wf(),
        ensures
            keys_distinct(self@.pending_jobs),
    {
    }

    /// The parts of the run that evaluation does not change.
    pub open spec fn same_plan(&self, other: &CompiledGraph) -> bool {
        &&& self@.graph == other@.graph
        &&& self@.eval_order == other@.eval_order
        &&& self@.nodes == other@.nodes
        &&& self@.connections == other@.connections
        &&& self@.graph_rev == other@.graph_rev
    }

    fn find_plan(&self, node_id: &NodeId) -> (r: Option<usize>)
        ensures
            r matches Some(i) ==> i == key_index(plan_entries(self@.nodes), node_id@) && i < self@.nodes.len(),
            r is None <==> !has_key(plan_entries(self@.nodes), node_id@),
    {
        let ghost es = plan_entries(self@.nodes);
        let mut i: usize = 0;
        while i < self.nodes.len()
            invariant
                i <= self@.nodes.len(),
                es == plan_entries(self@.nodes),
                forall|j: int| 0 <= j < i ==> es[j].0 != node_id@,
            decreases self@.nodes.len() - i,
        {
            assert(es[i as int].0 == self.nodes@[i as int].node_id@);
            if self.nodes[i].node_id == *node_id {
                proof {
                    lemma_key_index(es, node_id@);
                }
                return Some(i);
            }
            i = i + 1;
        }
        proof {
            lemma_key_index(es, node_id@);
        }
        None
    }

    fn find_connection(&self, pin: &ScopedPinId) -> (r: Option<usize>)
        ensures
            r matches Some(i) ==> i == key_index(self@.connections, pin@) && i < self@.connections.len(),
            r is None <==> !has_key(self@.connections, pin@),
    {
        let ghost cs = self@.connections;
        let mut i: usize = 0;
        while i < self.connections.len()
            invariant
                i <= cs.len(),
                cs == self@.connections,
                forall|j: int| 0 <= j < i ==> cs[j].0 != pin@,
            decreases cs.len() - i,
        {
            assert(cs[i as int].0 == self.connections@[i as int].0@);
            if self.connections[i].0 == *pin {
                proof {
                    lemma_key_index(cs, pin@);
                }
                return Some(i);
            }
            i = i + 1;
        }
        proof {
            lemma_key_index(cs, pin@);
        }
        None
    }

    fn find_pending(&self, job_id: u64) -> (r: Option<usize>)
        ensures
            r matches Some(i) ==> i == key_index(self@.pending_jobs, job_id) && i < self@.pending_jobs.len(),
            r is None <==> !has_key(self@.pending_jobs, job_id),
    {
        let ghost ps = self@.pending_jobs;
        let mut i: usize = 0;
        while i < self.pending_jobs.len()
            invariant
                i <= ps.len(),
                ps == self@.pending_jobs,
                forall|j: int| 0 <= j < i ==> ps[j].0 != job_id,
            decreases ps.len() - i,
        {
            assert(ps[i as int].0 == self.pending_jobs@[i as int].0);
            if self.pending_jobs[i].0 == job_id {
                proof {
                    lemma_key_index(ps, job_id);
                }
                return Some(i);
            }
            i = i + 1;
        }
        proof {
            lemma_key_index(ps, job_id);
        }
        None
    }

    /// The inputs of `node`, in input-pin order, as the store holds them now.
    fn collect_inputs(&self, node: &CompiledNode) -> (r: Vec<PinValue>)
        ensures
            r@.len() == node@.input_pins.len(),
            forall|k: int| 0 <= k < r@.len() ==> r@[k] == input_value(self@.pin_store, self@.connections, #[trigger] node@.input_pins[k]),
    {
        let mut inputs: Vec<PinValue> = Vec::new();
        let mut k: usize = 0;
        while k < node.input_pins.len()
            invariant
                k <= node@.input_pins.len(),
                inputs@.len() == k,
                forall|j: int| 0 <= j < k ==> inputs@[j] == input_value(self@.pin_store, self@.connections, #[trigger] node@.input_pins[j]),
            decreases node@.input_pins.len() - k,
        {
            let pin = &node.input_pins[k];
            assert(node@.input_pins[k as int] == pin@);
            let source = match self.find_connection(pin) {
                Some(c) => &self.connections[c].1,
                None => pin,
            };
            assert(source@ == input_source(self@.connections, pin@));
            let value = if self.pin_store.is_event_fired(source) {
                PinValue::Event
            } else {
                match self.pin_store.get_value(source) {
                    Some(v) => v.clone(),
                    None => PinValue::Nothing,
                }
            };
            inputs.push(value);
            k = k + 1;
        }
        inputs
    }

    /// Writes `outputs` to the output pins of `node`, in order; refused, with the
    /// store unchanged, when their number differs from the node's output pins.
    fn write_outputs(node: &CompiledNode, outputs: Vec<PinValue>, pin_store: &mut PinStore) -> (r: AqueductResult<()>)
        requires
            old(pin_store).wf(),
        ensures
            final(pin_store).wf(),
            outputs@.len() == node@.output_pins.len() ==> r is Ok && final(pin_store)@ == written(
                old(pin_store)@,
                node@.output_pins,
                outputs@,
            ),
            outputs@.len() != node@.output_pins.len() ==> (r matches Err(e)
                && e.spec_kind() == ErrorKind::Runtime
                && e.spec_code()@ == "COMPILED_OUTPUT_LENGTH_MISMATCH"@
                && e.spec_message() == output_mismatch_message(node@.node_id, node@.output_pins.len(), outputs@.len())
                && final(pin_store)@ == old(pin_store)@),
    {
        if outputs.len() != node.output_pins.len() {
            let expected = u64_text(node.output_pins.len() as u64);
            let actual = u64_text(outputs.len() as u64);
            let mut message = concat5(
                "ノード ",
                node.node_id.as_str(),
                " の出力数が一致しません: expected=",
                expected.as_str(),
                ", actual=",
            );
            message.append(actual.as_str());
            return Err(AqueductError::new(ErrorKind::Runtime, "COMPILED_OUTPUT_LENGTH_MISMATCH", message));
        }
        let ghost start = pin_store@;
        let mut k: usize = 0;
        while k < outputs.len()
            invariant
                k <= outputs@.len(),
                outputs@.len() == node@.output_pins.len(),
                pin_store.wf(),
                pin_store@ == written(start, node@.output_pins, outputs@.take(k as int)),
            decreases outputs@.len() - k,
        {
            proof {
                let t = outputs@.take(k + 1);
                assert(t.drop_last() =~= outputs@.take(k as int));
                assert(t.last() == outputs@[k as int]);
            }
            let pin = node.output_pins[k].clone();
            assert(node@.output_pins[k as int] == pin@);
            let value = outputs[k].clone();
            match value {
                PinValue::Event => {
                    pin_store.fire_event(pin);
                },
                other => {
                    pin_store.set_value(pin, other);
                },
            }
            k = k + 1;
        }
        assert(outputs@.take(outputs@.len() as int) =~= outputs@);
        Ok(())
    }

    /// Records a started job as pending under its id.
    fn register_pending_job(&mut self, node_id: NodeId, job_id: u64, tick_spawned: u64) -> (r: AqueductResult<()>)
        requires
            old(self).wf(),
        ensures
            final(self).wf(),
            final(self).evaluators() == old(self).evaluators(),
            !has_key(plan_entries(old(self)@.nodes), node_id@) ==> (r matches Err(e)
                && e.spec_kind() == ErrorKind::Runtime
                && e.spec_code()@ == "COMPILED_ASYNC_NODE_MISSING"@
                && e.spec_message() == "非同期ジョブ対象ノードが見つかりません: "@ + node_id@
                && final(self)@ == old(self)@),
            has_key(plan_entries(old(self)@.nodes), node_id@) && has_key(old(self)@.pending_jobs, job_id) ==> (r matches Err(e)
                && e.spec_kind() == ErrorKind::Runtime
                && e.spec_code()@ == "COMPILED_ASYNC_JOB_DUPLICATE"@
                && e.spec_message() == "重複した job_id を検出しました: "@ + decimal_text(job_id as nat)
                && final(self)@ == old(self)@),
            has_key(plan_entries(old(self)@.nodes), node_id@) && !has_key(old(self)@.pending_jobs, job_id) ==> r is Ok
                && final(self)@ == (CompiledGraphView {
                    pending_jobs: old(self)@.pending_jobs.push(
                        (job_id, PendingJobView { node_id: node_id@, tick_spawned, graph_rev: old(self)@.graph_rev }),
                    ),
                    ..old(self)@
                }),
    {
        if self.find_plan(&node_id).is_none() {
            return Err(AqueductError::new(
                ErrorKind::Runtime,
                "COMPILED_ASYNC_NODE_MISSING",
                concat2("非同期ジョブ対象ノードが見つかりません: ", node_id.as_str()),
            ));
        }
        if self.find_pending(job_id).is_some() {
            let id_text = u64_text(job_id);
            return Err(AqueductError::new(
                ErrorKind::Runtime,
                "COMPILED_ASYNC_JOB_DUPLICATE",
                concat2("重複した job_id を検出しました: ", id_text.as_str()),
            ));
        }
        let ghost before = self@;
        let pending = PendingAsyncJob { node_id, tick_spawned, graph_rev: self.graph_rev };
        let ghost pv = pending@;
        proof {
            lemma_key_index(before.pending_jobs, job_id);
            lemma_insert_distinct(before.pending_jobs, job_id, pv);
        }
        self.pending_jobs.push((job_id, pending));
        assert(self@.pending_jobs =~= before.pending_jobs.push((job_id, pv)));
        assert(self@.nodes =~= before.nodes);
        assert(self@.eval_order =~= before.eval_order);
        assert(self@.connections =~= before.connections);
        assert(self@.completed_jobs =~= before.completed_jobs);
        Ok(())
    }

    /// Applies what evaluating `node` produced in tick `tick`.
    fn apply_result(&mut self, node: &CompiledNode, result: NodeEvalResult, tick: u64) -> (r: AqueductResult<()>)
        requires
            old(self).wf(),
        ensures
            final(self).wf(),
            final(self).evaluators() == old(self).evaluators(),
            match result_applied(old(self)@, node@, result, tick) {
                Ok(v) => r is Ok && final(self)@ == v,
                Err(code) => (r matches Err(e) && e.spec_kind() == ErrorKind::Runtime && e.spec_code()@ == code
                    && final(self)@ == old(self)@),
            },
    {
        match result {
            NodeEvalResult::Ready(outputs) => {
                let ghost before = self@;
                let r = Self::write_outputs(node, outputs, &mut self.pin_store);
                assert(self@.nodes =~= before.nodes);
                assert(self@.eval_order =~= before.eval_order);
                assert(self@.connections =~= before.connections);
                assert(self@.pending_jobs =~= before.pending_jobs);
                assert(self@.completed_jobs =~= before.completed_jobs);
                r
            },
            NodeEvalResult::Spawned { job_id } => self.register_pending_job(node.node_id.clone(), job_id, tick),
        }
    }

    /// Writes the finished jobs to their nodes' output pins, oldest first. A job
    /// whose node has no plan is dropped; the first job whose outputs do not match
    /// its node's output pins ends the work with an error, and the jobs after it
    /// stay queued.
    #[verifier::loop_isolation(false)]
    pub fn drain_completed_jobs(&mut self) -> (r: AqueductResult<()>)
        requires
            old(self).wf(),
        ensures
            final(self).wf(),
            final(self).evaluators() == old(self).evaluators(),
            final(self).same_plan(old(self)),
            final(self)@.pending_jobs == old(self)@.pending_jobs,
            r is Ok <==> forall|i: int| 0 <= i < old(self)@.completed_jobs.len() ==> #[trigger] job_output_ok(
                old(self)@.nodes,
                old(self)@.completed_jobs[i],
            ),
            r is Ok ==> final(self)@.pin_store == drained(old(self)@.pin_store, old(self)@.nodes, old(self)@.completed_jobs)
                && final(self)@.completed_jobs.len() == 0,
            r matches Err(e) ==> exists|k: int| {
                &&& #[trigger] first_bad_job(old(self)@.nodes, old(self)@.completed_jobs, k)
                &&& final(self)@.pin_store == drained(
                    old(self)@.pin_store,
                    old(self)@.nodes,
                    old(self)@.completed_jobs.take(k),
                )
                &&& final(self)@.completed_jobs == old(self)@.completed_jobs.skip(k + 1)
                &&& e.spec_kind() == ErrorKind::Runtime
                &&& e.spec_code()@ == "COMPILED_OUTPUT_LENGTH_MISMATCH"@
                &&& e.spec_message() == output_mismatch_message(
                    old(self)@.completed_jobs[k].node_id,
                    lookup(plan_entries(old(self)@.nodes), old(self)@.completed_jobs[k].node_id).unwrap().output_pins.len(),
                    old(self)@.completed_jobs[k].outputs.len(),
                )
            },
    {
        let ghost v0 = self@;
        let ghost q = self@.completed_jobs;
        let mut queue: Vec<AsyncJobResult> = Vec::new();
        std::mem::swap(&mut queue, &mut self.completed_jobs);
        let ghost mut k: int = 0;
        while queue.len() > 0
            invariant
                self.wf(),
                self.evaluators() == old(self).evaluators(),
                self@.graph == v0.graph,
                self@.eval_order == v0.eval_order,
                self@.nodes == v0.nodes,
                self@.connections == v0.connections,
                self@.graph_rev == v0.graph_rev,
                self@.pending_jobs == v0.pending_jobs,
                self@.completed_jobs.len() == 0,
                q == v0.completed_jobs,
                0 <= k <= q.len(),
                job_views(queue@) == q.skip(k as int),
                self@.pin_store == drained(v0.pin_store, v0.nodes, q.take(k as int)),
                forall|i: int| 0 <= i < k ==> #[trigger] job_output_ok(v0.nodes, q[i]),
            decreases queue@.len(),
        {
            let ghost whole = queue@;
            proof {
                assert(job_views(whole).len() == whole.len());
                assert(q.skip(k as int).len() > 0);
                assert(job_views(whole)[0] == whole[0]@);
                assert(q.skip(k as int)[0] == q[k as int]);
            }
            let result = queue.remove(0);
            proof {
                assert forall|x: int| 0 <= x < queue@.len() implies #[trigger] job_views(queue@)[x] == q.skip(k + 1)[x] by {
                    assert(queue@[x] == whole[x + 1]);
                    assert(job_views(whole)[x + 1] == q.skip(k as int)[x + 1]);
                }
                assert(job_views(queue@) =~= q.skip(k + 1));
                let t = q.take(k + 1);
                assert(t.drop_last() =~= q.take(k as int));
                assert(t.last() == q[k as int]);
            }
            let ghost before = self@;
            match self.find_plan(&result.node_id) {
                None => {},
                Some(i) => {
                    proof {
                        lemma_key_index(plan_entries(v0.nodes), result.node_id@);
                    }
                    let node = self.nodes[i].clone();
                    assert(node@ == v0.nodes[i as int]);
                    match Self::write_outputs(&node, result.outputs, &mut self.pin_store) {
                        Ok(()) => {},
                        Err(e) => {
                            self.completed_jobs = queue;
                            proof {
                                assert(self@.nodes =~= v0.nodes);
                                assert(self@.eval_order =~= v0.eval_order);
                                assert(self@.connections =~= v0.connections);
                                assert(self@.pending_jobs =~= v0.pending_jobs);
                                assert(first_bad_job(v0.nodes, q, k as int));
                                assert(self@.completed_jobs =~= q.skip(k + 1));
                            }
                            return Err(e);
                        },
                    }
                },
            }
            proof {
                assert(job_output_ok(v0.nodes, q[k as int]));
                k = k + 1;
            }
        }
        proof {
            assert(q.take(q.len() as int) =~= q);
        }
        Ok(())
    }

    /// Evaluates one tick: writes the finished jobs, then evaluates each node in
    /// evaluation order on the inputs it reads from the store and applies what it
    /// produced, then clears the fired events. The first error ends the tick.
    #[verifier::loop_isolation(false)]
    pub fn tick(&mut self, tick: u64) -> (r: AqueductResult<()>)
        requires
            old(self).wf(),
        ensures
            final(self).wf(),
            final(self).same_plan(old(self)),
            r is Ok ==> final(self)@.pin_store.events.len() == 0 && final(self)@.completed_jobs.len() == 0,
            r is Ok ==> ticked(old(self)@, old(self).evaluators(), final(self)@, tick),
            jobs_fit(old(self)@) ==> (r matches Err(e) ==> tick_stopped(old(self)@, old(self).evaluators(), final(self)@, tick, e)),
            !(forall|i: int| 0 <= i < old(self)@.completed_jobs.len() ==> #[trigger] job_output_ok(
                old(self)@.nodes,
                old(self)@.completed_jobs[i],
            )) ==> (r matches Err(e) && e.spec_kind() == ErrorKind::Runtime && e.spec_code()@ == "COMPILED_OUTPUT_LENGTH_MISMATCH"@),
    {
        let ghost v0 = self@;
        match self.drain_completed_jobs() {
            Ok(()) => {},
            Err(e) => {
                return Err(e);
            },
        }
        let ghost v1 = jobs_drained(v0);
        let ghost e0 = old(self).evaluators();
        assert(self@.completed_jobs =~= v1.completed_jobs);
        assert(self@.pin_store == v1.pin_store);
        assert(self@ == v1);
        let ghost mut results: Seq<NodeEvalResult> = Seq::empty();
        let mut i: usize = 0;
        while i < self.nodes.len()
            invariant
                self.wf(),
                self@.graph == v0.graph,
                self@.eval_order == v0.eval_order,
                self@.nodes == v0.nodes,
                self@.connections == v0.connections,
                self@.graph_rev == v0.graph_rev,
                self@.completed_jobs.len() == 0,
                v1.nodes == v0.nodes,
                i <= self.nodes@.len(),
                self.nodes@.len() == v0.nodes.len(),
                results.len() == i,
                evaluated(v1, results, tick) == Ok::<CompiledGraphView, Seq<char>>(self@),
                self.evaluators().len() == e0.len(),
                e0.len() == v0.nodes.len(),
                forall|m: int| i <= m < e0.len() ==> self.evaluators()[m] == e0[m],
                forall|j: int| 0 <= j < i ==> #[trigger] answered_at(v1, e0, results, tick, j),
            decreases self@.nodes.len() - i,
        {
            let node = self.nodes[i].clone();
            let inputs = self.collect_inputs(&node);
            let ghost evs = self.evaluators@;
            let ghost w = self@;
            proof {
                assert(inputs@ =~= node_inputs(w, v1.nodes[i as int]));
                assert(results.take(i as int) =~= results);
            }
            let outcome = self.evaluators[i].evaluate(inputs.as_slice(), tick);
            proof {
                assert(evs[i as int].answers(inputs@, tick, outcome));
                assert(evs[i as int] == e0[i as int]);
                assert forall|m: int| i < m < e0.len() implies self.evaluators()[m] == e0[m] by {
                    assert(self.evaluators@[m] == evs[m]);
                }
                assert(self.evaluators().len() == e0.len());
                assert(self@ == w);
                assert(self@.nodes =~= v0.nodes);
                assert(self@.eval_order =~= v0.eval_order);
                assert(self@.connections =~= v0.connections);
            }
            let result = match outcome {
                Ok(res) => res,
                Err(e) => {
                    assert(evaluated(jobs_drained(v0), results, tick) == Ok::<CompiledGraphView, Seq<char>>(self@));
                    assert(e0[results.len() as int].answers(node_inputs(self@, v0.nodes[results.len() as int]), tick, outcome));
                    return Err(e);
                },
            };
            let ghost rg = result;
            let ghost prev = self@;
            match self.apply_result(&node, result, tick) {
                Ok(()) => {},
                Err(e) => {
                    assert(evaluated(jobs_drained(v0), results, tick) == Ok::<CompiledGraphView, Seq<char>>(self@));
                    assert(outcome == Ok::<NodeEvalResult, AqueductError>(rg));
                    assert(e0[results.len() as int].answers(node_inputs(self@, v0.nodes[results.len() as int]), tick, outcome));
                    return Err(e);
                },
            }
            proof {
                let next = results.push(rg);
                assert(next.drop_last() =~= results);
                assert(next.last() == rg);
                assert(node@ == v1.nodes[i as int]);
                assert forall|j: int| 0 <= j < i + 1 implies #[trigger] answered_at(v1, e0, next, tick, j) by {
                    assert(next.take(j) =~= results.take(j));
                    assert(next[j] == if j < i { results[j] } else { rg });
                    if j < i {
                        assert(answered_at(v1, e0, results, tick, j));
                    }
                }
                results = next;
            }
            i = i + 1;
        }
        let ghost before = self@;
        self.pin_store.clear_events();
        assert(self@.nodes =~= before.nodes);
        assert(self@.eval_order =~= before.eval_order);
        assert(self@.pin_store.events =~= events_cleared(before).pin_store.events);
        assert(self@.pending_jobs =~= before.pending_jobs);
        assert(self@.completed_jobs =~= before.completed_jobs);
        assert(self@.connections =~= before.connections);
        assert(self@.pin_store == events_cleared(before).pin_store);
        assert(self@ == events_cleared(before));
        assert(results.len() == v0.nodes.len());
        assert(evaluated(jobs_drained(v0), results, tick) == Ok::<CompiledGraphView, Seq<char>>(before));
        Ok(())
    }

    /// Queues the result of a finished job, if it is awaited (see `job_awaited`); a
    /// result for an unknown job, another node or tick, or an older graph revision
    /// is dropped.
    pub fn complete_job(&mut self, result: AsyncJobResult) -> (r: bool)
        requires
            old(self).wf(),
        ensures
            final(self).wf(),
            r == job_awaited(old(self)@, result@),
            r ==> final(self)@ == (CompiledGraphView {
                pending_jobs: keyed_remove(old(self)@.pending_jobs, result.job_id),
                completed_jobs: old(self)@.completed_jobs.push(result@),
                ..old(self)@
            }),
            !r ==> final(self)@ == old(self)@,
    {
        let ghost v0 = self@;
        proof {
            lemma_key_index(v0.pending_jobs, result.job_id);
        }
        let i = match self.find_pending(result.job_id) {
            Some(i) => i,
            None => {
                return false;
            },
        };
        let pending = &self.pending_jobs[i].1;
        assert(v0.pending_jobs[i as int].1 == pending@);
        if pending.graph_rev != self.graph_rev || !(pending.node_id == result.node_id)
            || pending.tick_spawned != result.tick_spawned {
            return false;
        }
        proof {
            lemma_remove_distinct(v0.pending_jobs, result.job_id);
        }
        self.pending_jobs.remove(i);
        let ghost rv = result@;
        self.completed_jobs.push(result);
        assert(self@.pending_jobs =~= keyed_remove(v0.pending_jobs, rv.job_id));
        assert(self@.completed_jobs =~= v0.completed_jobs.push(rv));
        assert(self@.nodes =~= v0.nodes);
        assert(self@.eval_order =~= v0.eval_order);
        assert(self@.connections =~= v0.connections);
        true
    }

    /// The number of started jobs still awaited.
    pub fn pending_job_count(&self) -> (r: usize)
        ensures
            r == self@.pending_jobs.len(),
    {
        self.pending_jobs.len()
    }

    /// A copy of the value of `pin_id`.
    pub fn pin_value(&self, pin_id: &ScopedPinId) -> (r: Option<PinValue>)
        ensures
            r == lookup(self@.pin_store.values, pin_id@),
    {
        match self.pin_store.get_value(pin_id) {
            Some(v) => Some(v.clone()),
            None => {
                proof {
                    lemma_key_index(self@.pin_store.values, pin_id@);
                }
                None
            },
        }
    }

    /// Whether the event pin `pin_id` fired in the current tick.
    pub fn is_event_fired(&self, pin_id: &ScopedPinId) -> (r: bool)
        ensures
            r == self@.pin_store.events.contains(pin_id@),
    {
        self.pin_store.is_event_fired(pin_id)
    }

    /// A copy of the pin store.
    pub fn pin_store_snapshot(&self) -> (r: PinStore)
        requires
            self.wf(),
        ensures
            r@ == self@.pin_store,
            r.wf(),
    {
        self.pin_store.duplicate()
    }

    /// Carries values over from a previous store: every value pin of this store that
    /// the previous store also holds takes its value there, unless its node is among
    /// `affected_nodes`.
    pub fn copy_pin_values_from(&mut self, previous: &PinStore, affected_nodes: &[NodeId])
        requires
            old(self).wf(),
            previous.wf(),
        ensures
            final(self).wf(),
            final(self)@ == (CompiledGraphView {
                pin_store: PinStoreView { values: final(self)@.pin_store.values, ..old(self)@.pin_store },
                ..old(self)@
            }),
            final(self)@.pin_store.values.len() == old(self)@.pin_store.values.len(),
            forall|i: int| 0 <= i < old(self)@.pin_store.values.len() ==> #[trigger] final(self)@.pin_store.values[i] == (
                old(self)@.pin_store.values[i].0,
                carried_value(old(self)@.pin_store.values[i], previous@.values, id_views(affected_nodes@)),
            ),
            final(self).evaluators() == old(self).evaluators(),
    {
        let ghost v0 = self@;
        let ghost vals = v0.pin_store.values;
        let ghost prev = previous@.values;
        let ghost aff = id_views(affected_nodes@);
        let entries = previous.value_entries();
        let mut j: usize = 0;
        proof {
            assert forall|i: int| 0 <= i < vals.len() implies #[trigger] vals[i] == (vals[i].0, carried_value(vals[i], prev.take(0), aff)) by {
                assert(!has_key(prev.take(0), vals[i].0));
            }
        }
        while j < entries.len()
            invariant
                self.evaluators() == old(self).evaluators(),
                self.wf(),
                j <= prev.len(),
                entries@.len() == prev.len(),
                forall|x: int| 0 <= x < entries@.len() ==> (#[trigger] entries@[x]).0@ == prev[x].0 && entries@[x].1 == prev[x].1,
                keys_distinct(prev),
                keys_distinct(vals),
                aff == id_views(affected_nodes@),
                self@ == (CompiledGraphView { pin_store: PinStoreView { values: self@.pin_store.values, ..v0.pin_store }, ..v0 }),
                self@.pin_store.values.len() == vals.len(),
                forall|i: int| 0 <= i < vals.len() ==> #[trigger] self@.pin_store.values[i] == (vals[i].0, carried_value(vals[i], prev.take(j as int), aff)),
            decreases prev.len() - j,
        {
            let pin_id = &entries[j].0;
            let ghost key = prev[j as int].0;
            assert(entries@[j as int].0@ == key);
            assert(pin_id@ == key);
            assert(pin_id.node_id@ == key.0);
            let ghost cur = self@.pin_store.values;
            proof {
                assert(prev.take(j + 1) =~= prev.take(j as int).push(prev[j as int]));
                assert(!has_key(prev.take(j as int), key)) by {
                    if has_key(prev.take(j as int), key) {
                        let x = choose|x: int| 0 <= x < prev.take(j as int).len() && #[trigger] prev.take(j as int)[x].0 == key;
                        assert(prev[x].0 == prev[j as int].0);
                    }
                }
                assert forall|q: (Seq<char>, Seq<char>)| #[trigger] has_key(prev.take(j + 1), q) == (has_key(prev.take(j as int), q) || q == key)
                    && lookup(prev.take(j + 1), q) == (if has_key(prev.take(j as int), q) { lookup(prev.take(j as int), q) } else if q == key { Some(prev[j as int].1) } else { None::<PinValue> }) by {
                    lemma_push_lookup(prev.take(j as int), key, prev[j as int].1, q);
                }
                assert(keys_distinct(cur)) by {
                    assert forall|a: int, b: int| 0 <= a < cur.len() && 0 <= b < cur.len() && a != b implies cur[a].0 != cur[b].0 by {
                        assert(cur[a].0 == vals[a].0);
                        assert(cur[b].0 == vals[b].0);
                    }
                }
            }
            let is_affected = contains_id(affected_nodes, &pin_id.node_id);
            if !is_affected {
                if self.pin_store.contains_value_pin(pin_id) {
                    let value = entries[j].1.clone();
                    let ghost before = self@;
                    self.pin_store.set_value_if_present(pin_id, value);
                    proof {
                        let idx = key_index(cur, key);
                        lemma_key_index(cur, key);
                        lemma_distinct_index(cur, idx);
                        assert(self@.pin_store.values =~= cur.update(idx, (key, prev[j as int].1)));
                        assert forall|i: int| 0 <= i < vals.len() implies #[trigger] self@.pin_store.values[i] == (vals[i].0, carried_value(vals[i], prev.take(j + 1), aff)) by {
                            if i == idx {
                                assert(cur[i].0 == key);
                            } else {
                                assert(cur[i].0 != key) by {
                                    if cur[i].0 == key {
                                        lemma_distinct_index(cur, i);
                                    }
                                }
                            }
                        }
                        assert(self@.nodes =~= before.nodes);
                        assert(self@.eval_order =~= before.eval_order);
                    }
                } else {
                    proof {
                        assert forall|i: int| 0 <= i < vals.len() implies #[trigger] self@.pin_store.values[i] == (vals[i].0, carried_value(vals[i], prev.take(j + 1), aff)) by {
                            if vals[i].0 == key {
                                assert(cur[i].0 == key);
                            }
                        }
                    }
                }
            } else {
                proof {
                    assert forall|i: int| 0 <= i < vals.len() implies #[trigger] self@.pin_store.values[i] == (vals[i].0, carried_value(vals[i], prev.take(j + 1), aff)) by {
                        if vals[i].0 == key {
                            assert(aff.contains(vals[i].0.0));
                        }
                    }
                }
            }
            j = j + 1;
        }
        proof {
            assert(prev.take(prev.len() as int) =~= prev);
        }
    }

    /// Takes over from `previous` the evaluator, with its state, of every node
    /// outside `affected_nodes` that `previous` also runs; the other evaluators stay.
    pub fn carry_evaluators_from(&mut self, previous: &mut CompiledGraph, affected_nodes: &[NodeId])
        requires
            old(self).wf(),
            old(previous).wf(),
        ensures
            final(self).wf(),
            final(previous).wf(),
            final(self)@ == old(self)@,
            final(self).evaluators().len() == old(self).evaluators().len(),
            carries_evaluators(*old(previous), *final(self), id_views(affected_nodes@)),
            forall|i: int| 0 <= i < old(self).evaluators().len() && (id_views(affected_nodes@).contains(old(self)@.eval_order[i])
                || !old(previous)@.eval_order.contains(old(self)@.eval_order[i])) ==> #[trigger] final(self).evaluators()[i]
                == old(self).evaluators()[i],
    {
        let ghost s0 = self@;
        let ghost p0 = previous@;
        let ghost se0 = self.evaluators@;
        let ghost pe0 = previous.evaluators@;
        let ghost aff = id_views(affected_nodes@);
        let n = self.evaluators.len();
        let mut i: usize = 0;
        while i < n
            invariant
                self.wf(),
                previous.wf(),
                self@ == s0,
                previous@ == p0,
                n == se0.len(),
                self.evaluators@.len() == n,
                previous.evaluators@.len() == pe0.len(),
                pe0.len() == p0.eval_order.len(),
                n == s0.eval_order.len(),
                i <= n,
                aff == id_views(affected_nodes@),
                forall|a: int, j: int| 0 <= a < i && 0 <= j < pe0.len() && !aff.contains(s0.eval_order[a])
                    && p0.eval_order[j] == s0.eval_order[a] ==> self.evaluators@[a] == pe0[j],
                forall|a: int| 0 <= a < i && (aff.contains(s0.eval_order[a]) || !p0.eval_order.contains(s0.eval_order[a]))
                    ==> self.evaluators@[a] == se0[a],
                forall|a: int| i <= a < n ==> self.evaluators@[a] == se0[a],
                forall|j: int| 0 <= j < pe0.len() && !s0.eval_order.take(i as int).contains(p0.eval_order[j])
                    ==> previous.evaluators@[j] == pe0[j],
            decreases n - i,
        {
            let id = self.eval_order[i].clone();
            assert(id@ == s0.eval_order[i as int]);
            let ghost before_self = self.evaluators@;
            let ghost before_prev = previous.evaluators@;
            if !contains_id(affected_nodes, &id) {
                match previous.find_plan(&id) {
                    Some(j) => {
                        proof {
                            lemma_key_index(plan_entries(p0.nodes), id@);
                            assert(plan_entries(p0.nodes)[j as int].0 == p0.eval_order[j as int]);
                            assert(!s0.eval_order.take(i as int).contains(p0.eval_order[j as int])) by {
                                if s0.eval_order.take(i as int).contains(p0.eval_order[j as int]) {
                                    let x = choose|x: int| 0 <= x < i && s0.eval_order.take(i as int)[x] == p0.eval_order[j as int];
                                    assert(s0.eval_order[x] == s0.eval_order[i as int]);
                                }
                            }
                        }
                        std::mem::swap(&mut self.evaluators[i], &mut previous.evaluators[j]);
                        proof {
                            assert(self.evaluators@[i as int] == pe0[j as int]);
                            assert forall|b: int| 0 <= b < n && b != i implies self.evaluators@[b] == before_self[b] by {}
                            assert forall|b: int| 0 <= b < pe0.len() && b != j implies previous.evaluators@[b] == before_prev[b] by {}
                            assert forall|b: int| 0 <= b < pe0.len() && p0.eval_order[b] == id@ implies b == j by {}
                        }
                    },
                    None => {
                        proof {
                            if p0.eval_order.contains(id@) {
                                let x = choose|x: int| 0 <= x < p0.eval_order.len() && p0.eval_order[x] == id@;
                                assert(plan_entries(p0.nodes)[x].0 == id@);
                            }
                        }
                    },
                }
            }
            proof {
                assert forall|j: int| 0 <= j < pe0.len() && !s0.eval_order.take(i + 1).contains(p0.eval_order[j])
                    implies previous.evaluators@[j] == pe0[j] by {
                    if s0.eval_order.take(i as int).contains(p0.eval_order[j]) {
                        let x = choose|x: int| 0 <= x < i && s0.eval_order.take(i as int)[x] == p0.eval_order[j];
                        assert(s0.eval_order.take(i + 1)[x] == p0.eval_order[j]);
                    }
                    if p0.eval_order[j] == id@ {
                        assert(s0.eval_order.take(i + 1)[i as int] == id@);
                    }
                }
            }
            i = i + 1;
        }
    }

    /// Sets property `key` of node `node_id` in the source graph, then hands the
    /// change to the node's evaluator, without recompiling. Refused when the graph
    /// has no such node, or no evaluator runs it; otherwise the evaluator's answer.
    pub fn apply_property_patch(&mut self, node_id: &NodeId, key: &str, value: &serde_json::Value) -> (r: AqueductResult<()>)
        requires
            old(self).wf(),
        ensures
            final(self).wf(),
            final(self)@ == (CompiledGraphView {
                graph: GraphView {
                    nodes: node_property_set(old(self)@.graph.nodes, node_id@, key@, *value),
                    edges: old(self)@.graph.edges,
                },
                ..old(self)@
            }),
            final(self).evaluators().len() == old(self).evaluators().len(),
            forall|j: int| 0 <= j < old(self).evaluators().len() && old(self)@.eval_order[j] != node_id@
                ==> #[trigger] final(self).evaluators()[j] == old(self).evaluators()[j],
            has_key(old(self)@.graph.nodes, node_id@) ==> forall|j: int| 0 <= j < old(self).evaluators().len()
                && old(self)@.eval_order[j] == node_id@ ==> #[trigger] old(self).evaluators()[j].patches(key@, *value, r),
            !has_key(old(self)@.graph.nodes, node_id@) ==> (r matches Err(e)
                && e.spec_kind() == ErrorKind::Runtime
                && e.spec_code()@ == "COMPILED_PROPERTY_TARGET_MISSING"@
                && e.spec_message() == "プロパティ適用先ノードが見つかりません: "@ + node_id@),
            has_key(old(self)@.graph.nodes, node_id@) && !old(self)@.eval_order.contains(node_id@) ==> (r matches Err(e)
                && e.spec_kind() == ErrorKind::Runtime
                && e.spec_code()@ == "COMPILED_EVALUATOR_MISSING"@
                && e.spec_message() == "評価器が見つかりません: "@ + node_id@),
    {
        let ghost v0 = self@;
        if !self.graph.nodes.set_property(node_id, String::from_str(key), value.clone()) {
            return Err(AqueductError::new(
                ErrorKind::Runtime,
                "COMPILED_PROPERTY_TARGET_MISSING",
                concat2("プロパティ適用先ノードが見つかりません: ", node_id.as_str()),
            ));
        }
        proof {
            use_type_invariant(&self.graph.nodes);
        }
        assert(self@.nodes =~= v0.nodes);
        assert(self@.eval_order =~= v0.eval_order);
        let i = match self.find_plan(node_id) {
            Some(i) => i,
            None => {
                proof {
                    if v0.eval_order.contains(node_id@) {
                        let x = choose|x: int| 0 <= x < v0.eval_order.len() && v0.eval_order[x] == node_id@;
                        assert(plan_entries(v0.nodes)[x].0 == node_id@);
                    }
                }
                return Err(AqueductError::new(
                    ErrorKind::Runtime,
                    "COMPILED_EVALUATOR_MISSING",
                    concat2("評価器が見つかりません: ", node_id.as_str()),
                ));
            },
        };
        let ghost evs = self.evaluators@;
        proof {
            lemma_key_index(plan_entries(v0.nodes), node_id@);
            assert(v0.eval_order[i as int] == node_id@);
        }
        let r = self.evaluators[i].apply_property_patch(key, value);
        proof {
            assert(evs[i as int].patches(key@, *value, r));
            assert forall|j: int| 0 <= j < evs.len() && v0.eval_order[j] == node_id@ implies #[trigger] evs[j].patches(key@, *value, r) by {
                assert(v0.eval_order.no_duplicates());
                assert(j == i);
            }
            assert forall|j: int| 0 <= j < evs.len() && v0.eval_order[j] != node_id@ implies self.evaluators()[j] == evs[j] by {
                assert(j != i);
            }
        }
        r
    }

    /// Stores `value` on `pin_id`.
    pub fn set_pin_value(&mut self, pin_id: ScopedPinId, value: PinValue)
        requires
            old(self).wf(),
        ensures
            final(self).wf(),
            final(self)@ == (CompiledGraphView {
                pin_store: PinStoreView {
                    values: keyed_insert(old(self)@.pin_store.values, pin_id@, value),
                    ..old(self)@.pin_store
                },
                ..old(self)@
            }),
    {
        let ghost v0 = self@;
        self.pin_store.set_value(pin_id, value);
        assert(self@.nodes =~= v0.nodes);
        assert(self@.eval_order =~= v0.eval_order);
    }

    /// The graph revision the plan was compiled for.
    pub fn graph_rev(&self) -> (r: u64)
        ensures
            r == self@.graph_rev,
    {
        self.graph_rev
    }

    /// The evaluation order.
    pub fn eval_order(&self) -> (r: &[NodeId])
        ensures
            id_views(r@) == self@.eval_order,
    {
        self.eval_order.as_slice()
    }

    /// The graph the plan was compiled from.
    pub fn source_graph(&self) -> (r: &Graph)
        ensures
            r@ == self@.graph,
            self.wf() ==> r.wf(),
    {
        &self.graph
    }
}


/// The pins `pins` of node `id`, scoped by it.
pub open spec fn pin_keys(id: Seq<char>, pins: Seq<PinDef>) -> Seq<(Seq<char>, Seq<char>)> {
    pins.map_values(|p: PinDef| (id, p.id@))
}

/// The plan of node `id`, whose type is defined by `d`.
pub open spec fn plan_of(id: Seq<char>, d: crate::model::NodeDefView) -> CompiledNodeView {
    CompiledNodeView { node_id: id, input_pins: pin_keys(id, d.inputs), output_pins: pin_keys(id, d.outputs) }
}

/// Each edge's target pin with the source pin that feeds it; a later edge into
/// the same pin replaces an earlier one.
pub open spec fn connection_map(edges: Seq<Edge>) -> Seq<((Seq<char>, Seq<char>), (Seq<char>, Seq<char>))>
    decreases edges.len(),
{
    if edges.len() == 0 {
        Seq::empty()
    } else {
        let e = edges.last();
        keyed_insert(connection_map(edges.drop_last()), (e.to_node@, e.to_pin@), (e.from_node@, e.from_pin@))
    }
}

/// `v` is what compiling graph `g` against the definitions `defs` under revision
/// `rev` gives: the least topological order, each node's plan from its type's
/// definition, the connections of the edges, a fresh store and no jobs.
pub open spec fn compiled_from(v: CompiledGraphView, g: GraphView, defs: Seq<crate::model::NodeDefView>, rev: u64) -> bool {
    &&& graph_valid(g, defs)
    &&& v.graph == g
    &&& v.graph_rev == rev
    &&& is_least_topological_order(g, v.eval_order)
    &&& v.nodes.len() == v.eval_order.len()
    &&& forall|i: int| 0 <= i < v.nodes.len() ==> #[trigger] v.nodes[i] == plan_of(v.eval_order[i], def_of_node(g, defs, v.eval_order[i]))
    &&& v.connections == connection_map(g.edges)
    &&& keys_with_types(v.pin_store.values) == seed_nodes(Seq::empty(), g.nodes, defs)
    &&& forall|i: int| 0 <= i < v.pin_store.values.len() ==> is_default_value(
        value_type(#[trigger] v.pin_store.values[i].1),
        v.pin_store.values[i].1,
    )
    &&& v.pin_store.events.len() == 0
    &&& v.pending_jobs.len() == 0
    &&& v.completed_jobs.len() == 0
}

/// Asked for an evaluator for node `k` of `g`, with that node's properties, the
/// factory that the registry holds for the node's type may answer `r`.
pub open spec fn created_for(registry: NodeRegistry, g: GraphView, k: Seq<char>, r: AqueductResult<Box<dyn NodeEvaluator>>) -> bool {
    registry.factories()[crate::registry::def_index(registry@, lookup(g.nodes, k).unwrap().node_type)].creates(
        lookup(g.nodes, k).unwrap().properties,
        r,
    )
}

/// The factory of the type of node `k` of `g`, asked with that node's
/// properties, may answer with an evaluator.
pub open spec fn accepted_for(registry: NodeRegistry, g: GraphView, k: Seq<char>) -> bool {
    exists|res: AqueductResult<Box<dyn NodeEvaluator>>| res is Ok && #[trigger] created_for(registry, g, k, res)
}

/// Evaluator `evs[i]` is one that the factory of the type of node `k` of `g`,
/// asked with that node's properties, may answer with.
pub open spec fn made_by_factory(registry: NodeRegistry, g: GraphView, k: Seq<char>, evs: Seq<Box<dyn NodeEvaluator>>, i: int) -> bool {
    exists|res: AqueductResult<Box<dyn NodeEvaluator>>| #[trigger] created_for(registry, g, k, res) && res is Ok && res->Ok_0 == evs[i]
}

/// `e` is an error that the factory of some node of `g` may answer when asked for
/// an evaluator with that node's properties.
pub open spec fn refused_by_a_factory(registry: NodeRegistry, g: GraphView, e: AqueductError) -> bool {
    exists|k: Seq<char>| has_key(g.nodes, k) && #[trigger] created_for(registry, g, k, Err(e))
}

/// The pins `pins` of node `node_id`, scoped by it.
fn scoped_pins(node_id: &NodeId, pins: &Vec<PinDef>) -> (r: Vec<ScopedPinId>)
    ensures
        scoped_views(r@) == pin_keys(node_id@, pins@),
{
    let mut out: Vec<ScopedPinId> = Vec::new();
    let mut k: usize = 0;
    while k < pins.len()
        invariant
            k <= pins@.len(),
            out@.len() == k,
            forall|j: int| 0 <= j < k ==> (#[trigger] out@[j])@ == (node_id@, pins@[j].id@),
        decreases pins@.len() - k,
    {
        out.push(ScopedPinId::new(node_id.clone(), pins[k].id.clone()));
        k = k + 1;
    }
    assert(scoped_views(out@) =~= pin_keys(node_id@, pins@));
    out
}

/// The plan of node `node_id`, whose type is defined by `def`.
fn build_plan(node_id: &NodeId, def: &NodeDef) -> (r: CompiledNode)
    ensures
        r@ == plan_of(node_id@, def@),
{
    CompiledNode {
        node_id: node_id.clone(),
        input_pins: scoped_pins(node_id, &def.inputs),
        output_pins: scoped_pins(node_id, &def.outputs),
    }
}

/// The position of the connection into `pin`.
fn find_connection_index(connections: &Vec<(ScopedPinId, ScopedPinId)>, pin: &ScopedPinId) -> (r: Option<usize>)
    ensures
        r matches Some(i) ==> i == key_index(connection_views(connections@), pin@) && i < connections@.len(),
        r is None <==> !has_key(connection_views(connections@), pin@),
{
    let ghost cs = connection_views(connections@);
    let mut i: usize = 0;
    while i < connections.len()
        invariant
            i <= cs.len(),
            cs == connection_views(connections@),
            forall|j: int| 0 <= j < i ==> cs[j].0 != pin@,
        decreases cs.len() - i,
    {
        assert(cs[i as int].0 == connections@[i as int].0@);
        if connections[i].0 == *pin {
            proof {
                lemma_key_index(cs, pin@);
            }
            return Some(i);
        }
        i = i + 1;
    }
    proof {
        lemma_key_index(cs, pin@);
    }
    None
}

/// The connections of the edges of `graph`.
fn build_connection_map(graph: &Graph) -> (r: Vec<(ScopedPinId, ScopedPinId)>)
    ensures
        connection_views(r@) == connection_map(graph@.edges),
        keys_distinct(connection_views(r@)),
{
    let mut connections: Vec<(ScopedPinId, ScopedPinId)> = Vec::new();
    let mut j: usize = 0;
    assert(connection_views(connections@) =~= connection_map(graph@.edges.take(0)));
    while j < graph.edges.len()
        invariant
            j <= graph@.edges.len(),
            connection_views(connections@) == connection_map(graph@.edges.take(j as int)),
            keys_distinct(connection_views(connections@)),
        decreases graph@.edges.len() - j,
    {
        let edge = &graph.edges[j];
        let to_pin = ScopedPinId::new(edge.to_node.clone(), edge.to_pin.clone());
        let from_pin = ScopedPinId::new(edge.from_node.clone(), edge.from_pin.clone());
        let ghost cv = connection_views(connections@);
        let ghost kv = to_pin@;
        let ghost fv = from_pin@;
        proof {
            let t = graph@.edges.take(j + 1);
            assert(t.drop_last() =~= graph@.edges.take(j as int));
            assert(t.last() == graph@.edges[j as int]);
            lemma_key_index(cv, kv);
            lemma_insert_distinct(cv, kv, fv);
        }
        match find_connection_index(&connections, &to_pin) {
            Some(k) => {
                proof {
                    lemma_key_index(cv, kv);
                }
                connections.set(k, (to_pin, from_pin));
            },
            None => {
                connections.push((to_pin, from_pin));
            },
        }
        assert(connection_views(connections@) =~= keyed_insert(cv, kv, fv));
        j = j + 1;
    }
    assert(graph@.edges.take(graph@.edges.len() as int) =~= graph@.edges);
    connections
}

/// Compiles graphs against the node types of a registry.
pub struct GraphCompiler<'a> {
    registry: &'a NodeRegistry,
}

impl<'a> GraphCompiler<'a> {
    /// The registry compiled against.
    pub closed spec fn registry(&self) -> NodeRegistry {
        *self.registry
    }

    /// A compiler for the node types of `registry`.
    pub fn new(registry: &'a NodeRegistry) -> (r: Self)
        ensures
            r.registry() == *registry,
    {
        GraphCompiler { registry }
    }

    /// Compiles `graph` under revision `graph_rev`: validates it, orders its nodes,
    /// makes an evaluator for each node in that order from its type's factory and
    /// plans its pins from its type's definition, maps its connections and seeds a
    /// fresh store. Refused with the validation error, or with the error of a
    /// factory that cannot make an evaluator.
    #[verifier::loop_isolation(false)]
    pub fn compile(&self, graph: &Graph, graph_rev: u64) -> (r: AqueductResult<CompiledGraph>)
        requires
            self.registry().wf(),
        ensures
            !graph_valid(graph@, self.registry()@) ==> (r matches Err(e) && invalid_graph_error(graph@, self.registry()@, e)),
            r matches Ok(c) ==> c.wf() && compiled_from(c@, graph@, self.registry()@, graph_rev),
            graph_valid(graph@, self.registry()@) && r is Err ==> (r matches Err(e) && refused_by_a_factory(self.registry(), graph@, e)),
            r matches Ok(c) ==> forall|i: int| 0 <= i < c@.eval_order.len() ==> #[trigger] accepted_for(
                self.registry(),
                graph@,
                c@.eval_order[i],
            ),
            r matches Ok(c) ==> c.evaluators().len() == c@.eval_order.len() && forall|i: int| 0 <= i < c@.eval_order.len()
                ==> #[trigger] made_by_factory(self.registry(), graph@, c@.eval_order[i], c.evaluators(), i),
    {
        let ghost g = graph@;
        let ghost defs = self.registry@;
        proof {
            use_type_invariant(&graph.nodes);
        }
        match validate_graph(graph, self.registry) {
            Ok(()) => {},
            Err(e) => {
                return Err(e);
            },
        }
        proof {
            assert forall|j: int| 0 <= j < g.edges.len() implies #[trigger] edge_known(g, j) by {
                assert(edge_ok(g, defs, j));
            }
            assert forall|i: int| 0 <= i < g.nodes.len() implies has_def(defs, #[trigger] g.nodes[i].1.node_type) by {
                assert(node_ok(g.nodes[i], defs));
            }
            assert forall|i: int| !first_bad_node(g, defs, i) by {
                if first_bad_node(g, defs, i) {
                    assert(node_ok(g.nodes[i], defs));
                }
            }
            assert forall|j: int| !first_bad_edge(g, defs, j) by {
                if first_bad_edge(g, defs, j) {
                    assert(edge_ok(g, defs, j));
                }
            }
        }
        let eval_order = match topological_sort(graph) {
            Ok(order) => order,
            Err(e) => {
                return Err(e);
            },
        };
        let ghost ov = id_views(eval_order@);
        let mut nodes: Vec<CompiledNode> = Vec::new();
        let mut evaluators = Vec::new();
        let ghost mut results: Seq<AqueductResult<Box<dyn NodeEvaluator>>> = Seq::empty();
        let mut k: usize = 0;
        while k < eval_order.len()
            invariant
                k <= eval_order@.len(),
                g == graph@,
                defs == self.registry@,
                self.registry.wf(),
                ov == id_views(eval_order@),
                nodes@.len() == k,
                evaluators@.len() == k,
                forall|i: int| 0 <= i < k ==> (#[trigger] nodes@[i]).node_id@ == eval_order@[i]@,
                forall|i: int| 0 <= i < k ==> (#[trigger] nodes@[i])@ == plan_of(ov[i], def_of_node(g, defs, ov[i])),
                is_least_topological_order(g, ov),
                graph_valid(g, defs),
                forall|i: int| 0 <= i < k ==> #[trigger] accepted_for(*self.registry, g, ov[i]),
                results.len() == k,
                forall|i: int| 0 <= i < k ==> #[trigger] created_for(*self.registry, g, ov[i], results[i]),
                forall|i: int| 0 <= i < k ==> #[trigger] results[i] is Ok && results[i]->Ok_0 == evaluators@[i],
            decreases eval_order@.len() - k,
        {
            let node_id = &eval_order[k];
            assert(ov[k as int] == node_id@);
            assert(ov.contains(ov[k as int]));
            let node = match graph.nodes.get(node_id) {
                Some(n) => n,
                None => {
                    return Err(AqueductError::new(
                        ErrorKind::Compile,
                        "COMPILER_NODE_INSTANCE_MISSING",
                        concat2("ノードインスタンスが見つかりません: ", node_id.as_str()),
                    ));
                },
            };
            proof {
                if graph_valid(g, defs) {
                    crate::keyed::lemma_key_index(g.nodes, node_id@);
                    assert(node_ok(g.nodes[key_index(g.nodes, node_id@)], defs));
                }
            }
            let pos = match self.registry.position(node.node_type.as_str()) {
                Some(p) => p,
                None => {
                    return Err(AqueductError::new(
                        ErrorKind::Compile,
                        "COMPILER_FACTORY_MISSING",
                        concat3("ノード型 ", node.node_type.as_str(), " のファクトリが見つかりません"),
                    ));
                },
            };
            let factory = self.registry.factory_at(pos);
            let def = self.registry.def_at(pos);
            proof {
                assert(has_def(defs, node@.node_type)) by {
                    assert(defs[pos as int].node_type == node@.node_type) by {
                        crate::registry::lemma_def_index(defs, node@.node_type);
                    }
                }
                assert(def_lookup(defs, node@.node_type) == Some(def@));
            }
            proof {
                crate::registry::lemma_def_index(defs, node@.node_type);
                assert(lookup(g.nodes, node_id@) == Some(node@));
            }
            let created = factory.create(&node.properties);
            let ghost cr = created;
            let ghost evs = evaluators@;
            proof {
                assert(factory.creates(node.properties@, created));
                assert(*factory == self.registry.factories()[pos as int]);
                assert(pos == crate::registry::def_index(defs, node@.node_type));
                assert(lookup(g.nodes, ov[k as int]).unwrap() == node@);
                assert(created_for(*self.registry, g, ov[k as int], created));
            }
            match created {
                Ok(ev) => {
                    evaluators.push(ev);
                    proof {
                        assert(cr is Ok && cr->Ok_0 == ev);
                        assert(evaluators@[k as int] == ev);
                        assert(accepted_for(*self.registry, g, ov[k as int]));
                    }
                },
                Err(e) => {
                    proof {
                        assert(has_key(g.nodes, ov[k as int]));
                        assert(self.registry() == *self.registry);
                        assert(created_for(self.registry(), graph@, ov[k as int], Err(e)));
                    }
                    let res: AqueductResult<CompiledGraph> = Err(e);
                    assert(res matches Err(x) && x == e);
                    assert(res matches Err(x) && exists|kk: Seq<char>| has_key(graph@.nodes, kk) && #[trigger] created_for(self.registry(), graph@, kk, Err(x)));
                    return res;
                },
            }
            let plan = build_plan(node_id, def);
            nodes.push(plan);
            proof {
                assert forall|i: int| 0 <= i < k implies evaluators@[i] == evs[i] by {}
                assert(created_for(*self.registry, g, ov[k as int], cr) && cr is Ok && cr->Ok_0 == evaluators@[k as int]);
                results = results.push(cr);
            }
            k = k + 1;
        }
        let connections = build_connection_map(graph);
        proof {
            assert forall|i: int| 0 <= i < g.nodes.len() implies has_def(defs, #[trigger] g.nodes[i].1.node_type) by {
                assert(node_ok(g.nodes[i], defs));
            }
        }
        let pin_store = match PinStore::from_graph(graph, self.registry) {
            Ok(s) => s,
            Err(e) => {
                return Err(e);
            },
        };
        let compiled = CompiledGraph {
            graph: graph.duplicate(),
            eval_order,
            nodes,
            evaluators,
            connections,
            graph_rev,
            pin_store,
            pending_jobs: Vec::new(),
            completed_jobs: Vec::new(),
        };
        proof {
            let v = compiled@;
            assert(v.nodes.len() == v.eval_order.len());
            assert forall|i: int| 0 <= i < v.nodes.len() implies #[trigger] v.nodes[i] == plan_of(v.eval_order[i], def_of_node(g, defs, v.eval_order[i])) by {
                assert(v.nodes[i] == compiled.nodes@[i]@);
            }
            assert(v.pending_jobs =~= Seq::<(u64, PendingJobView)>::empty());
            assert(v.completed_jobs =~= Seq::<AsyncJobView>::empty());
            assert forall|i: int| 0 <= i < v.eval_order.len() implies compiled.evaluators()[i] == results[i]->Ok_0 by {
                assert(results[i] is Ok && results[i]->Ok_0 == compiled.evaluators@[i]);
            }
            assert forall|i: int| 0 <= i < compiled@.eval_order.len() implies #[trigger] made_by_factory(
                self.registry(),
                graph@,
                compiled@.eval_order[i],
                compiled.evaluators(),
                i,
            ) by {
                assert(created_for(*self.registry, g, ov[i], results[i]));
                assert(ov[i] == compiled@.eval_order[i]);
                assert(results[i] is Ok && results[i]->Ok_0 == compiled.evaluators()[i]);
            }
        }
        Ok(compiled)
    }
}

/// Compiling is deterministic: two compilations of the same graph against the
/// same node types under the same revision have the same evaluation order, node
/// plans, connections and pins (each pin with the same type), and nothing fired or
/// queued.
pub proof fn lemma_compile_is_deterministic(
    a: CompiledGraphView,
    b: CompiledGraphView,
    g: GraphView,
    defs: Seq<crate::model::NodeDefView>,
    rev: u64,
)
    requires
        compiled_from(a, g, defs, rev),
        compiled_from(b, g, defs, rev),
    ensures
        a.graph == b.graph,
        a.graph_rev == b.graph_rev,
        a.eval_order == b.eval_order,
        a.nodes == b.nodes,
        a.connections == b.connections,
        keys_with_types(a.pin_store.values) == keys_with_types(b.pin_store.values),
        a.pin_store.events == b.pin_store.events,
        a.pending_jobs == b.pending_jobs,
        a.completed_jobs == b.completed_jobs,
{
    assert forall|j: int| 0 <= j < g.edges.len() implies #[trigger] edge_known(g, j) by {
        assert(edge_ok(g, defs, j));
    }
    lemma_evaluation_order_is_unique(g, a.eval_order, b.eval_order);
    assert(a.nodes =~= b.nodes) by {
        assert forall|i: int| 0 <= i < a.nodes.len() implies a.nodes[i] == b.nodes[i] by {
            assert(a.nodes[i] == plan_of(a.eval_order[i], def_of_node(g, defs, a.eval_order[i])));
            assert(b.nodes[i] == plan_of(b.eval_order[i], def_of_node(g, defs, b.eval_order[i])));
        }
    }
    assert(a.pin_store.events =~= b.pin_store.events);
    assert(a.pending_jobs =~= b.pending_jobs);
    assert(a.completed_jobs =~= b.completed_jobs);
}

/// A job's result is taken once: once it is accepted, the same result is no
/// longer awaited.
pub proof fn lemma_job_result_taken_once(v: CompiledGraphView, job: AsyncJobView)
    requires
        keys_distinct(v.pending_jobs),
        job_awaited(v, job),
    ensures
        !job_awaited(
            CompiledGraphView {
                pending_jobs: keyed_remove(v.pending_jobs, job.job_id),
                completed_jobs: v.completed_jobs.push(job),
                ..v
            },
            job,
        ),
{
    lemma_remove_distinct(v.pending_jobs, job.job_id);
    lemma_key_index(keyed_remove(v.pending_jobs, job.job_id), job.job_id);
}

} // verus!

verus! {

/// A started job is awaited: when a node's evaluation starts job `job_id` at
/// `tick` and the run takes it, a result of that job for that node and tick is
/// awaited, whatever its outputs.
pub proof fn lemma_spawned_job_is_awaited(
    v: CompiledGraphView,
    node: CompiledNodeView,
    job_id: u64,
    tick: u64,
    outputs: Seq<PinValue>,
)
    requires
        result_applied(v, node, NodeEvalResult::Spawned { job_id }, tick) is Ok,
    ensures
        job_awaited(
            result_applied(v, node, NodeEvalResult::Spawned { job_id }, tick)->Ok_0,
            AsyncJobView { job_id, node_id: node.node_id, tick_spawned: tick, outputs },
        ),
{
    let w = result_applied(v, node, NodeEvalResult::Spawned { job_id }, tick)->Ok_0;
    let p = PendingJobView { node_id: node.node_id, tick_spawned: tick, graph_rev: v.graph_rev };
    crate::keyed::lemma_push_lookup(v.pending_jobs, job_id, p, job_id);
    assert(w.pending_jobs == v.pending_jobs.push((job_id, p)));
}

} // verus!
