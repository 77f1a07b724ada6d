//! Applying graph mutations, and patching a live graph with them.

use vstd::prelude::*;

use crate::error::{concat2, AqueductError, AqueductResult, ErrorKind};
use crate::ids::{id_views, insert_sorted, strictly_sorted, EdgeId, NodeId};
use crate::keyed::{has_key, key_index, keyed_insert, keyed_remove, lemma_key_index, lookup};
use crate::maps::node_property_set;
use crate::compiler::{accepted_for, made_by_factory, carried_value, carries_evaluators, compiled_from, refused_by_a_factory, job_awaited, AsyncJobView, CompiledGraph, CompiledGraphView, GraphCompiler};
use crate::graph::{downstream_nodes, graph_valid, invalid_graph_error, reachable};
use crate::model::{Edge, Graph, GraphMutation, GraphView, NodeInstance, NodeInstanceView};
use crate::pin_store::PinStoreView;
use crate::registry::NodeRegistry;
use crate::runtime::LiveGraph;

verus! {

/// The edges of `edges` keyed by their ids.
pub open spec fn edge_entries(edges: Seq<Edge>) -> Seq<(Seq<char>, Edge)> {
    edges.map_values(|e: Edge| (e.id@, e))
}

/// The edges that do not touch node `id`.
pub open spec fn not_touching(id: Seq<char>) -> spec_fn(Edge) -> bool {
    |e: Edge| e.from_node@ != id && e.to_node@ != id
}

/// The error code and message with which mutation `m` is refused on graph `g`, if
/// it is: a node or edge id that is taken, or a node or edge that is not there.
pub open spec fn mutation_error(g: GraphView, m: GraphMutation) -> Option<(Seq<char>, Seq<char>)> {
    match m {
        GraphMutation::AddNode { instance } => if has_key(g.nodes, instance.id@) {
            Some(("PATCH_DUPLICATE_NODE_ID"@, "既に存在する node id です: "@ + instance.id@))
        } else {
            None
        },
        GraphMutation::RemoveNode { id } => if has_key(g.nodes, id@) {
            None
        } else {
            Some(("PATCH_REMOVE_NODE_NOT_FOUND"@, "削除対象ノードが存在しません: "@ + id@))
        },
        GraphMutation::AddEdge { edge } => if has_key(edge_entries(g.edges), edge.id@) {
            Some(("PATCH_DUPLICATE_EDGE_ID"@, "既に存在する edge id です: "@ + edge.id@))
        } else {
            None
        },
        GraphMutation::RemoveEdge { id } => if has_key(edge_entries(g.edges), id@) {
            None
        } else {
            Some(("PATCH_REMOVE_EDGE_NOT_FOUND"@, "削除対象エッジが存在しません: "@ + id@))
        },
        GraphMutation::UpdateProperty { node_id, .. } => if has_key(g.nodes, node_id@) {
            None
        } else {
            Some(("PATCH_PROPERTY_NODE_NOT_FOUND"@, "更新対象ノードが存在しません: "@ + node_id@))
        },
    }
}

/// Graph `g` after mutation `m`: a node added under its id, a node removed with
/// every edge that touches it, an edge appended, the first edge with an id
/// removed, or one property of a node set.
pub open spec fn apply_one(g: GraphView, m: GraphMutation) -> GraphView {
    match m {
        GraphMutation::AddNode { instance } => GraphView {
            nodes: keyed_insert(g.nodes, instance.id@, instance@),
            edges: g.edges,
        },
        GraphMutation::RemoveNode { id } => GraphView {
            nodes: keyed_remove(g.nodes, id@),
            edges: g.edges.filter(not_touching(id@)),
        },
        GraphMutation::AddEdge { edge } => GraphView { nodes: g.nodes, edges: g.edges.push(edge) },
        GraphMutation::RemoveEdge { id } => GraphView {
            nodes: g.nodes,
            edges: g.edges.remove(key_index(edge_entries(g.edges), id@)),
        },
        GraphMutation::UpdateProperty { node_id, key, value } => GraphView {
            nodes: node_property_set(g.nodes, node_id@, key@, value),
            edges: g.edges,
        },
    }
}

/// The nodes that mutation `m` changes on graph `g`: the node added, removed or
/// updated, or both ends of the edge added or removed.
pub open spec fn touched_nodes(g: GraphView, m: GraphMutation) -> Set<Seq<char>> {
    match m {
        GraphMutation::AddNode { instance } => set![instance.id@],
        GraphMutation::RemoveNode { id } => set![id@],
        GraphMutation::AddEdge { edge } => set![edge.from_node@, edge.to_node@],
        GraphMutation::RemoveEdge { id } => {
            let e = g.edges[key_index(edge_entries(g.edges), id@)];
            set![e.from_node@, e.to_node@]
        },
        GraphMutation::UpdateProperty { node_id, .. } => set![node_id@],
    }
}

/// Graph `g` after the mutations `muts`, one after the other.
pub open spec fn applied(g: GraphView, muts: Seq<GraphMutation>) -> GraphView
    decreases muts.len(),
{
    if muts.len() == 0 {
        g
    } else {
        apply_one(applied(g, muts.drop_last()), muts.last())
    }
}

/// The nodes that the mutations `muts` change, applied to `g` one after the other.
pub open spec fn changed_by(g: GraphView, muts: Seq<GraphMutation>) -> Set<Seq<char>>
    decreases muts.len(),
{
    if muts.len() == 0 {
        Set::empty()
    } else {
        changed_by(g, muts.drop_last()).union(touched_nodes(applied(g, muts.drop_last()), muts.last()))
    }
}

/// Mutation `i` of `muts` is accepted where it is applied.
pub open spec fn accepted_at(g: GraphView, muts: Seq<GraphMutation>, i: int) -> bool {
    mutation_error(applied(g, muts.take(i)), muts[i]) is None
}

/// Every mutation of `muts` is accepted on `g` after those before it.
pub open spec fn all_accepted(g: GraphView, muts: Seq<GraphMutation>) -> bool {
    forall|i: int| 0 <= i < muts.len() ==> #[trigger] accepted_at(g, muts, i)
}

/// Mutation `i` is the first of `muts` to be refused.
pub open spec fn first_refused(g: GraphView, muts: Seq<GraphMutation>, i: int) -> bool {
    &&& 0 <= i < muts.len()
    &&& !accepted_at(g, muts, i)
    &&& forall|j: int| 0 <= j < i ==> #[trigger] accepted_at(g, muts, j)
}

/// The position of the first edge with id `id`.
fn find_edge(edges: &Vec<Edge>, id: &EdgeId) -> (r: Option<usize>)
    ensures
        r matches Some(i) ==> i == key_index(edge_entries(edges@), id@) && i < edges@.len(),
        r is None <==> !has_key(edge_entries(edges@), id@),
{
    let ghost es = edge_entries(edges@);
    proof {
        lemma_key_index(es, id@);
    }
    let mut i: usize = 0;
    while i < edges.len()
        invariant
            i <= edges@.len(),
            es == edge_entries(edges@),
            forall|j: int| 0 <= j < i ==> es[j].0 != id@,
        decreases edges@.len() - i,
    {
        if edges[i].id == *id {
            proof {
                assert(es[i as int].0 == id@);
                lemma_key_index(es, id@);
            }
            return Some(i);
        }
        assert(es[i as int].0 == edges@[i as int].id@);
        i = i + 1;
    }
    None
}

/// The edges of `edges` that do not touch node `id`, in order.
fn without_touching(edges: &Vec<Edge>, id: &NodeId) -> (r: Vec<Edge>)
    ensures
        r@ == edges@.filter(not_touching(id@)),
{
    let mut kept: Vec<Edge> = Vec::new();
    let mut i: usize = 0;
    while i < edges.len()
        invariant
            i <= edges@.len(),
            kept@ == edges@.take(i as int).filter(not_touching(id@)),
        decreases edges@.len() - i,
    {
        let e = &edges[i];
        proof {
            let t = edges@.take(i + 1);
            assert(t.drop_last() =~= edges@.take(i as int));
            assert(t.last() == edges@[i as int]);
            reveal(Seq::filter);
        }
        if !(e.from_node == *id) && !(e.to_node == *id) {
            kept.push(e.clone());
        }
        i = i + 1;
    }
    assert(edges@.take(edges@.len() as int) =~= edges@);
    kept
}

/// Applies one mutation to `graph` and adds the nodes it changes to the ordered
/// set `changed`; on refusal nothing changes.
fn apply_mutation(graph: &mut Graph, mutation: &GraphMutation, changed: &mut Vec<NodeId>) -> (r: AqueductResult<()>)
    requires
        strictly_sorted(id_views(old(changed)@)),
    ensures
        strictly_sorted(id_views(final(changed)@)),
        r is Ok <==> mutation_error(old(graph)@, *mutation) is None,
        r is Ok ==> final(graph)@ == apply_one(old(graph)@, *mutation),
        r is Ok ==> forall|k: Seq<char>| #[trigger] id_views(final(changed)@).contains(k) <==> (id_views(old(changed)@).contains(k) || touched_nodes(old(graph)@, *mutation).contains(k)),
        r matches Err(e) ==> e.spec_kind() == ErrorKind::Patch && mutation_error(old(graph)@, *mutation) == Some((e.spec_code()@, e.spec_message())),
        r is Err ==> final(graph)@ == old(graph)@,
{
    match mutation {
        GraphMutation::AddNode { instance } => {
            if graph.nodes.contains_key(&instance.id) {
                return Err(AqueductError::new(
                    ErrorKind::Patch,
                    "PATCH_DUPLICATE_NODE_ID",
                    concat2("既に存在する node id です: ", instance.id.as_str()),
                ));
            }
            insert_sorted(changed, instance.id.clone());
            graph.nodes.insert(instance.id.clone(), instance.clone());
            assert(graph@ =~= apply_one(old(graph)@, *mutation));
            Ok(())
        },
        GraphMutation::RemoveNode { id } => {
            if graph.nodes.remove(id).is_none() {
                return Err(AqueductError::new(
                    ErrorKind::Patch,
                    "PATCH_REMOVE_NODE_NOT_FOUND",
                    concat2("削除対象ノードが存在しません: ", id.as_str()),
                ));
            }
            let kept = without_touching(&graph.edges, id);
            graph.edges = kept;
            insert_sorted(changed, id.clone());
            assert(graph@ =~= apply_one(old(graph)@, *mutation));
            Ok(())
        },
        GraphMutation::AddEdge { edge } => {
            if find_edge(&graph.edges, &edge.id).is_some() {
                return Err(AqueductError::new(
                    ErrorKind::Patch,
                    "PATCH_DUPLICATE_EDGE_ID",
                    concat2("既に存在する edge id です: ", edge.id.as_str()),
                ));
            }
            graph.edges.push(edge.clone());
            insert_sorted(changed, edge.from_node.clone());
            insert_sorted(changed, edge.to_node.clone());
            assert(graph@ =~= apply_one(old(graph)@, *mutation));
            Ok(())
        },
        GraphMutation::RemoveEdge { id } => {
            let position = match find_edge(&graph.edges, id) {
                Some(p) => p,
                None => {
                    return Err(AqueductError::new(
                        ErrorKind::Patch,
                        "PATCH_REMOVE_EDGE_NOT_FOUND",
                        concat2("削除対象エッジが存在しません: ", id.as_str()),
                    ));
                },
            };
            let edge = graph.edges.remove(position);
            insert_sorted(changed, edge.from_node);
            insert_sorted(changed, edge.to_node);
            assert(graph@ =~= apply_one(old(graph)@, *mutation));
            Ok(())
        },
        GraphMutation::UpdateProperty { node_id, key, value } => {
            if !graph.nodes.set_property(node_id, key.clone(), value.clone()) {
                return Err(AqueductError::new(
                    ErrorKind::Patch,
                    "PATCH_PROPERTY_NODE_NOT_FOUND",
                    concat2("更新対象ノードが存在しません: ", node_id.as_str()),
                ));
            }
            insert_sorted(changed, node_id.clone());
            assert(graph@ =~= apply_one(old(graph)@, *mutation));
            Ok(())
        },
    }
}

/// Applies `mutations` to `graph` in order and returns the nodes they change, as an
/// ordered set. The first mutation that is refused ends the work with its error;
/// those before it stay applied.
pub fn apply_mutations(graph: &mut Graph, mutations: &[GraphMutation]) -> (r: AqueductResult<Vec<NodeId>>)
    ensures
        r is Ok <==> all_accepted(old(graph)@, mutations@),
        r matches Ok(changed) ==> {
            &&& final(graph)@ == applied(old(graph)@, mutations@)
            &&& strictly_sorted(id_views(changed@))
            &&& forall|k: Seq<char>| #[trigger] id_views(changed@).contains(k) <==> changed_by(old(graph)@, mutations@).contains(k)
        },
        r matches Err(e) ==> exists|i: int| {
            &&& #[trigger] first_refused(old(graph)@, mutations@, i)
            &&& final(graph)@ == applied(old(graph)@, mutations@.take(i))
            &&& e.spec_kind() == ErrorKind::Patch
            &&& mutation_error(applied(old(graph)@, mutations@.take(i)), mutations@[i]) == Some((e.spec_code()@, e.spec_message()))
        },
{
    let ghost g0 = graph@;
    let ghost ms = mutations@;
    let mut changed: Vec<NodeId> = Vec::new();
    let mut i: usize = 0;
    while i < mutations.len()
        invariant
            i <= ms.len(),
            ms == mutations@,
            g0 == old(graph)@,
            graph@ == applied(g0, ms.take(i as int)),
            forall|j: int| 0 <= j < i ==> #[trigger] accepted_at(g0, ms, j),
            strictly_sorted(id_views(changed@)),
            forall|k: Seq<char>| #[trigger] id_views(changed@).contains(k) <==> changed_by(g0, ms.take(i as int)).contains(k),
        decreases ms.len() - i,
    {
        let ghost before = graph@;
        let ghost changed_before = id_views(changed@);
        proof {
            let t = ms.take(i + 1);
            assert(t.drop_last() =~= ms.take(i as int));
            assert(t.last() == ms[i as int]);
        }
        match apply_mutation(graph, &mutations[i], &mut changed) {
            Ok(()) => {},
            Err(e) => {
                assert(first_refused(g0, ms, i as int));
                return Err(e);
            },
        }
        proof {
            assert(accepted_at(g0, ms, i as int));
            assert forall|k: Seq<char>| #[trigger] id_views(changed@).contains(k) <==> changed_by(g0, ms.take(i + 1)).contains(k) by {
                if id_views(changed@).contains(k) {
                    if changed_before.contains(k) {
                        assert(changed_by(g0, ms.take(i as int)).contains(k));
                    }
                }
            }
        }
        i = i + 1;
    }
    proof {
        assert(ms.take(ms.len() as int) =~= ms);
    }
    Ok(changed)
}

/// Every mutation of `mutations` only sets a property.
pub open spec fn property_only(mutations: Seq<GraphMutation>) -> bool {
    forall|i: int| 0 <= i < mutations.len() ==> #[trigger] mutations[i] is UpdateProperty
}

/// Whether every mutation only sets a property.
fn is_property_only_batch(mutations: &[GraphMutation]) -> (r: bool)
    ensures
        r == property_only(mutations@),
{
    let mut i: usize = 0;
    while i < mutations.len()
        invariant
            i <= mutations@.len(),
            forall|j: int| 0 <= j < i ==> #[trigger] mutations@[j] is UpdateProperty,
        decreases mutations@.len() - i,
    {
        match &mutations[i] {
            GraphMutation::UpdateProperty { .. } => {},
            _ => {
                return false;
            },
        }
        i = i + 1;
    }
    true
}

/// Some mutation of `mutations` sets a property of node `k`.
pub open spec fn property_target(mutations: Seq<GraphMutation>, k: Seq<char>) -> bool {
    exists|i: int| 0 <= i < mutations.len() && (#[trigger] mutations[i] matches GraphMutation::UpdateProperty { node_id, .. } && node_id@ == k)
}

/// The nodes whose properties `mutations` set, as an ordered set.
fn collect_property_changed_nodes(mutations: &[GraphMutation]) -> (r: Vec<NodeId>)
    ensures
        strictly_sorted(id_views(r@)),
        forall|k: Seq<char>| #[trigger] id_views(r@).contains(k) <==> property_target(mutations@, k),
{
    let mut changed: Vec<NodeId> = Vec::new();
    let mut i: usize = 0;
    while i < mutations.len()
        invariant
            i <= mutations@.len(),
            strictly_sorted(id_views(changed@)),
            forall|k: Seq<char>| #[trigger] id_views(changed@).contains(k) <==> property_target(mutations@.take(i as int), k),
        decreases mutations@.len() - i,
    {
        let ghost before = mutations@.take(i as int);
        let ghost after = mutations@.take(i + 1);
        proof {
            assert(after =~= before.push(mutations@[i as int]));
        }
        match &mutations[i] {
            GraphMutation::UpdateProperty { node_id, .. } => {
                insert_sorted(&mut changed, node_id.clone());
            },
            _ => {},
        }
        proof {
            assert forall|k: Seq<char>| #[trigger] id_views(changed@).contains(k) <==> property_target(after, k) by {
                if property_target(before, k) {
                    let j = choose|j: int| 0 <= j < before.len() && (#[trigger] before[j] matches GraphMutation::UpdateProperty { node_id, .. } && node_id@ == k);
                    assert(after[j] == before[j]);
                }
                if property_target(after, k) {
                    let j = choose|j: int| 0 <= j < after.len() && (#[trigger] after[j] matches GraphMutation::UpdateProperty { node_id, .. } && node_id@ == k);
                    if j < before.len() {
                        assert(before[j] == after[j]);
                    }
                }
                match mutations@[i as int] {
                    GraphMutation::UpdateProperty { node_id, .. } => {
                        if node_id@ == k {
                            assert(after[i as int] == mutations@[i as int]);
                        }
                    },
                    _ => {},
                }
            }
        }
        i = i + 1;
    }
    assert(mutations@.take(mutations@.len() as int) =~= mutations@);
    changed
}


/// The nodes whose properties `mutations` set.
pub open spec fn property_targets(mutations: Seq<GraphMutation>) -> Set<Seq<char>> {
    Set::new(|k: Seq<char>| property_target(mutations, k))
}

/// Graph `g` with the properties that `mutations` set, in order; other mutations
/// are ignored.
pub open spec fn properties_set(g: GraphView, mutations: Seq<GraphMutation>) -> GraphView
    decreases mutations.len(),
{
    if mutations.len() == 0 {
        g
    } else {
        let h = properties_set(g, mutations.drop_last());
        match mutations.last() {
            GraphMutation::UpdateProperty { node_id, key, value } => GraphView {
                nodes: node_property_set(h.nodes, node_id@, key@, value),
                edges: h.edges,
            },
            _ => h,
        }
    }
}

/// The revision after `rev` (which stays at `u64::MAX` once there).
pub open spec fn next_revision(rev: u64) -> u64 {
    if rev == u64::MAX {
        u64::MAX
    } else {
        (rev + 1) as u64
    }
}

/// `after` is what compiling graph `g` against the definitions `defs` under the
/// revision after `before`'s gives, with the values of `before`'s store carried
/// over for the pins of nodes outside `affected`.
pub open spec fn compiled_over(
    before: CompiledGraphView,
    after: CompiledGraphView,
    g: GraphView,
    defs: Seq<crate::model::NodeDefView>,
    affected: Seq<Seq<char>>,
) -> bool {
    exists|c: CompiledGraphView| {
        &&& #[trigger] compiled_from(c, g, defs, next_revision(before.graph_rev))
        &&& after == (CompiledGraphView { pin_store: PinStoreView { values: after.pin_store.values, ..c.pin_store }, ..c })
        &&& after.pin_store.values.len() == c.pin_store.values.len()
        &&& forall|i: int| 0 <= i < c.pin_store.values.len() ==> #[trigger] after.pin_store.values[i] == (
            c.pin_store.values[i].0,
            carried_value(c.pin_store.values[i], before.pin_store.values, affected),
        )
    }
}

/// `after` is `before` recompiled after `mutations`: the mutated graph compiled
/// over `before` (see `compiled_over`).
pub open spec fn recompiled(
    before: CompiledGraphView,
    after: CompiledGraphView,
    mutations: Seq<GraphMutation>,
    defs: Seq<crate::model::NodeDefView>,
    affected: Seq<Seq<char>>,
) -> bool {
    compiled_over(before, after, applied(before.graph, mutations), defs, affected)
}

/// Patching the running graph `before` with `mutations` succeeded, left `after`,
/// and reported the nodes `affected` and the revision `rev`: without mutations
/// nothing changes; a batch that only sets properties sets them in place, keeps
/// the revision and affects the nodes downstream of those it sets; any other batch
/// is accepted, recompiles the mutated graph under the next revision and affects
/// the nodes downstream of those it changes.
pub open spec fn patch_ok(
    before: CompiledGraphView,
    after: CompiledGraphView,
    mutations: Seq<GraphMutation>,
    defs: Seq<crate::model::NodeDefView>,
    affected: Seq<Seq<char>>,
    rev: u64,
) -> bool {
    if mutations.len() == 0 {
        after == before && affected.len() == 0 && rev == before.graph_rev
    } else if property_only(mutations) {
        &&& after == (CompiledGraphView { graph: properties_set(before.graph, mutations), ..before })
        &&& rev == before.graph_rev
        &&& strictly_sorted(affected)
        &&& forall|k: Seq<char>| #[trigger] affected.contains(k) <==> reachable(before.graph.edges, property_targets(mutations), k)
    } else {
        &&& all_accepted(before.graph, mutations)
        &&& rev == next_revision(before.graph_rev)
        &&& strictly_sorted(affected)
        &&& forall|k: Seq<char>| #[trigger] affected.contains(k) <==> reachable(
            applied(before.graph, mutations).edges,
            changed_by(before.graph, mutations),
            k,
        )
        &&& recompiled(before, after, mutations, defs, affected)
    }
}

/// What patching a live graph did: the nodes affected, and the revision after.
#[derive(Debug, PartialEq, Eq)]
pub struct PatchReport {
    /// The changed nodes and those downstream of them, as an ordered set.
    pub affected_nodes: Vec<NodeId>,
    /// The graph revision after the patch.
    pub graph_rev: u64,
}

impl Clone for PatchReport {
    fn clone(&self) -> (r: Self)
        ensures
            id_views(r.affected_nodes@) == id_views(self.affected_nodes@),
            r.graph_rev == self.graph_rev,
    {
        let affected_nodes = self.affected_nodes.clone();
        assert(affected_nodes@ =~= self.affected_nodes@);
        PatchReport { affected_nodes, graph_rev: self.graph_rev }
    }
}

/// The evaluators of `after` are those of `before`, but for the nodes whose
/// properties `mutations` set: a property patch keeps every other evaluator, with
/// its state.
pub open spec fn keeps_untargeted_evaluators(before: CompiledGraph, after: CompiledGraph, mutations: Seq<GraphMutation>) -> bool {
    &&& after.evaluators().len() == before.evaluators().len()
    &&& forall|j: int| 0 <= j < before.evaluators().len() && !property_target(mutations, before@.eval_order[j])
        ==> #[trigger] after.evaluators()[j] == before.evaluators()[j]
}

/// Mutation `m`, a property change handed to running graph `mid`, is refused
/// with `e`: the graph has no such node, or no evaluator runs it, or the node's
/// evaluator, in its state in `mid`, may answer `e`.
pub open spec fn step_refused(mid: CompiledGraph, m: GraphMutation, e: AqueductError) -> bool {
    match m {
        GraphMutation::UpdateProperty { node_id, key, value } => {
            ||| !has_key(mid@.graph.nodes, node_id@) && e.spec_kind() == ErrorKind::Runtime
                && e.spec_code()@ == "COMPILED_PROPERTY_TARGET_MISSING"@
                && e.spec_message() == "プロパティ適用先ノードが見つかりません: "@ + node_id@
            ||| has_key(mid@.graph.nodes, node_id@) && !mid@.eval_order.contains(node_id@) && e.spec_kind() == ErrorKind::Runtime
                && e.spec_code()@ == "COMPILED_EVALUATOR_MISSING"@ && e.spec_message() == "評価器が見つかりません: "@ + node_id@
            ||| has_key(mid@.graph.nodes, node_id@) && exists|j: int| 0 <= j < mid.evaluators().len() && mid@.eval_order[j] == node_id@
                && #[trigger] mid.evaluators()[j].patches(key@, value, Err(e))
        },
        _ => false,
    }
}

/// Change `k` of `mutations`, handed to running graph `before` after the changes
/// before it, is accepted: where the graph has the properties of the earlier
/// changes set, and the evaluators of nodes that no earlier change targets as in
/// `before`, the target node has an evaluator, which may answer `Ok`.
pub open spec fn step_accepted_at(before: CompiledGraph, mutations: Seq<GraphMutation>, k: int) -> bool {
    exists|mid: CompiledGraph| {
        &&& mid@ == (CompiledGraphView { graph: properties_set(before@.graph, mutations.take(k)), ..before@ })
        &&& keeps_untargeted_evaluators(before, mid, mutations.take(k))
        &&& #[trigger] step_accepted(mid, mutations[k])
    }
}

/// Property change `m`, handed to running graph `mid`, reaches the evaluator of
/// its node, which may answer `Ok`.
pub open spec fn step_accepted(mid: CompiledGraph, m: GraphMutation) -> bool {
    match m {
        GraphMutation::UpdateProperty { node_id, key, value } => has_key(mid@.graph.nodes, node_id@) && exists|j: int|
            0 <= j < mid.evaluators().len() && mid@.eval_order[j] == node_id@ && #[trigger] mid.evaluators()[j].patches(
            key@,
            value,
            Ok(()),
        ),
        _ => false,
    }
}

/// Property changes `mutations`, handed one after the other to running graph
/// `before`, stop with error `e`: some change is refused with `e` where the graph
/// has the properties of the changes before it set, and the evaluators of nodes
/// that no earlier change targets as in `before`.
pub open spec fn batch_refused(before: CompiledGraph, mutations: Seq<GraphMutation>, e: AqueductError) -> bool {
    exists|k: int, mid: CompiledGraph| {
        &&& 0 <= k < mutations.len()
        &&& mid@ == (CompiledGraphView { graph: properties_set(before@.graph, mutations.take(k)), ..before@ })
        &&& keeps_untargeted_evaluators(before, mid, mutations.take(k))
        &&& #[trigger] step_refused(mid, mutations[k], e)
    }
}

/// Applies property-only mutations to a running graph in place, through its
/// evaluators; the revision stays. Stops at the first refused change, with its
/// error.
fn patch_property_only_batch(graph: &mut CompiledGraph, mutations: &[GraphMutation], current_rev: u64) -> (r: AqueductResult<PatchReport>)
    requires
        old(graph).wf(),
        property_only(mutations@),
    ensures
        final(graph).wf(),
        keeps_untargeted_evaluators(*old(graph), *final(graph), mutations@),
        r matches Ok(report) ==> {
            &&& final(graph)@ == (CompiledGraphView { graph: properties_set(old(graph)@.graph, mutations@), ..old(graph)@ })
            &&& report.graph_rev == current_rev
            &&& strictly_sorted(id_views(report.affected_nodes@))
            &&& forall|k: Seq<char>| #[trigger] id_views(report.affected_nodes@).contains(k) <==> reachable(
                old(graph)@.graph.edges,
                property_targets(mutations@),
                k,
            )
        },
        r is Err ==> exists|k: int| 0 <= k < mutations@.len() && final(graph)@ == (CompiledGraphView {
            graph: properties_set(old(graph)@.graph, #[trigger] mutations@.take(k + 1)),
            ..old(graph)@
        }),
        r matches Err(e) ==> batch_refused(*old(graph), mutations@, e),
        r is Ok ==> forall|k: int| 0 <= k < mutations@.len() ==> #[trigger] step_accepted_at(*old(graph), mutations@, k),
        (exists|k: Seq<char>| property_target(mutations@, k) && !has_key(old(graph)@.graph.nodes, k)) ==> r is Err,
{
    let ghost g0 = graph@;
    let ghost ms = mutations@;
    let changed = collect_property_changed_nodes(mutations);
    let mut k: usize = 0;
    assert(ms.take(0) =~= Seq::<GraphMutation>::empty());
    while k < mutations.len()
        invariant
            k <= ms.len(),
            ms == mutations@,
            g0 == old(graph)@,
            graph.wf(),
            graph@ == (CompiledGraphView { graph: properties_set(g0.graph, ms.take(k as int)), ..g0 }),
            forall|i: int| 0 <= i < k ==> (#[trigger] ms[i] matches GraphMutation::UpdateProperty { node_id, .. }
                ==> has_key(g0.graph.nodes, node_id@)),
            keeps_untargeted_evaluators(*old(graph), *graph, ms.take(k as int)),
            old(graph)@.eval_order == graph@.eval_order,
            forall|i: int| 0 <= i < k ==> #[trigger] step_accepted_at(*old(graph), ms, i),
            property_only(ms),
        decreases ms.len() - k,
    {
        proof {
            let t = ms.take(k + 1);
            assert(t.drop_last() =~= ms.take(k as int));
            assert(t.last() == ms[k as int]);
        }
        match &mutations[k] {
            GraphMutation::UpdateProperty { node_id, key, value } => {
                proof {
                    lemma_properties_set_keys(g0.graph, ms.take(k as int), node_id@);
                }
                let ghost mid = *graph;
                let outcome = graph.apply_property_patch(node_id, key.as_str(), value);
                proof {
                    let t = ms.take(k + 1);
                    assert(t[k as int] == ms[k as int]);
                    assert forall|j: int| 0 <= j < old(graph).evaluators().len() && !property_target(t, old(graph)@.eval_order[j])
                        implies #[trigger] graph.evaluators()[j] == old(graph).evaluators()[j] by {
                        assert(old(graph)@.eval_order[j] != node_id@);
                        if property_target(ms.take(k as int), old(graph)@.eval_order[j]) {
                            let x = choose|x: int| 0 <= x < ms.take(k as int).len() && (#[trigger] ms.take(k as int)[x] matches GraphMutation::UpdateProperty { node_id, .. } && node_id@ == old(graph)@.eval_order[j]);
                            assert(t[x] == ms.take(k as int)[x]);
                        }
                    }
                    assert forall|j: int| 0 <= j < old(graph).evaluators().len() && !property_target(ms, old(graph)@.eval_order[j])
                        implies !property_target(t, old(graph)@.eval_order[j]) by {
                        if property_target(t, old(graph)@.eval_order[j]) {
                            let x = choose|x: int| 0 <= x < t.len() && (#[trigger] t[x] matches GraphMutation::UpdateProperty { node_id, .. } && node_id@ == old(graph)@.eval_order[j]);
                            assert(ms[x] == t[x]);
                        }
                    }
                }
                let ghost outcome_value = outcome;
                match outcome {
                    Ok(()) => {
                        proof {
                            assert(outcome_value is Ok);
                            assert(ms[k as int] == (GraphMutation::UpdateProperty { node_id: *node_id, key: *key, value: *value }));
                            assert(has_key(mid@.graph.nodes, node_id@));
                            assert(mid@.eval_order.contains(node_id@));
                            let j = choose|j: int| 0 <= j < mid@.eval_order.len() && mid@.eval_order[j] == node_id@;
                            mid.lemma_one_evaluator_per_node();
                            assert(mid.evaluators()[j].patches(key@, *value, outcome_value));
                            let u: () = outcome_value->Ok_0;
                            assert(u == ());
                            assert(outcome_value == Ok::<(), AqueductError>(()));
                            assert(mid.evaluators()[j].patches(key@, *value, Ok(())));
                            assert(step_accepted(mid, ms[k as int]));
                            assert(mid@ == (CompiledGraphView { graph: properties_set(old(graph)@.graph, ms.take(k as int)), ..old(graph)@ }));
                            assert(step_accepted_at(*old(graph), ms, k as int));
                        }
                    },
                    Err(e) => {
                        proof {
                            assert(ms[k as int] == (GraphMutation::UpdateProperty { node_id: *node_id, key: *key, value: *value }));
                            if has_key(mid@.graph.nodes, node_id@) && mid@.eval_order.contains(node_id@) {
                                let j = choose|j: int| 0 <= j < mid@.eval_order.len() && mid@.eval_order[j] == node_id@;
                                mid.lemma_one_evaluator_per_node();
                                assert(mid.evaluators()[j].patches(key@, *value, outcome));
                            }
                            assert(step_refused(mid, ms[k as int], e));
                            assert(mid@ == (CompiledGraphView { graph: properties_set(old(graph)@.graph, mutations@.take(k as int)), ..old(graph)@ }));
                            assert(keeps_untargeted_evaluators(*old(graph), mid, mutations@.take(k as int)));
                            assert(batch_refused(*old(graph), mutations@, e));
                        }
                        return Err(e);
                    },
                }
            },
            _ => {
                proof {
                    let t = ms.take(k + 1);
                    assert(t[k as int] == ms[k as int]);
                    assert forall|j: int| 0 <= j < old(graph).evaluators().len() && !property_target(t, old(graph)@.eval_order[j])
                        implies #[trigger] graph.evaluators()[j] == old(graph).evaluators()[j] by {
                        if property_target(ms.take(k as int), old(graph)@.eval_order[j]) {
                            let x = choose|x: int| 0 <= x < ms.take(k as int).len() && (#[trigger] ms.take(k as int)[x] matches GraphMutation::UpdateProperty { node_id, .. } && node_id@ == old(graph)@.eval_order[j]);
                            assert(t[x] == ms.take(k as int)[x]);
                        }
                    }
                }
            },
        }
        k = k + 1;
    }
    proof {
        assert(ms.take(ms.len() as int) =~= ms);
        assert forall|x: Seq<char>| property_target(ms, x) implies has_key(g0.graph.nodes, x) by {
            let i = choose|i: int| 0 <= i < ms.len() && (#[trigger] ms[i] matches GraphMutation::UpdateProperty { node_id, .. } && node_id@ == x);
            assert(ms[i] matches GraphMutation::UpdateProperty { node_id, .. } ==> has_key(g0.graph.nodes, node_id@));
        }
    }
    let affected = downstream_nodes(graph.source_graph(), changed.as_slice());
    proof {
        assert(id_views(changed@).to_set() =~= property_targets(ms));
        assert(graph@.graph.edges == properties_set(g0.graph, ms).edges);
        lemma_properties_set_edges(g0.graph, ms);
    }
    Ok(PatchReport { affected_nodes: affected, graph_rev: current_rev })
}

proof fn lemma_property_set_keys(nodes: Seq<(Seq<char>, NodeInstanceView)>, id: Seq<char>, key: Seq<char>, value: serde_json::Value, x: Seq<char>)
    ensures
        has_key(node_property_set(nodes, id, key, value), x) == has_key(nodes, x),
{
    if has_key(nodes, id) {
        lemma_key_index(nodes, id);
        let i = key_index(nodes, id);
        let t = node_property_set(nodes, id, key, value);
        if has_key(nodes, x) {
            let j = choose|j: int| 0 <= j < nodes.len() && #[trigger] nodes[j].0 == x;
            assert(t[j].0 == x);
        }
        if has_key(t, x) {
            let j = choose|j: int| 0 <= j < t.len() && #[trigger] t[j].0 == x;
            assert(nodes[j].0 == x);
        }
    }
}

proof fn lemma_properties_set_keys(g: GraphView, mutations: Seq<GraphMutation>, x: Seq<char>)
    ensures
        has_key(properties_set(g, mutations).nodes, x) == has_key(g.nodes, x),
    decreases mutations.len(),
{
    if mutations.len() > 0 {
        lemma_properties_set_keys(g, mutations.drop_last(), x);
        let h = properties_set(g, mutations.drop_last());
        match mutations.last() {
            GraphMutation::UpdateProperty { node_id, key, value } => {
                lemma_property_set_keys(h.nodes, node_id@, key@, value, x);
            },
            _ => {},
        }
    }
}

proof fn lemma_properties_set_edges(g: GraphView, mutations: Seq<GraphMutation>)
    ensures
        properties_set(g, mutations).edges == g.edges,
    decreases mutations.len(),
{
    if mutations.len() > 0 {
        lemma_properties_set_edges(g, mutations.drop_last());
    }
}

/// Applies graph mutations to a running graph.
pub struct GraphPatcher<'a> {
    compiler: GraphCompiler<'a>,
}

impl<'a> GraphPatcher<'a> {
    /// The registry compiled against.
    pub closed spec fn registry(&self) -> NodeRegistry {
        self.compiler.registry()
    }

    /// A patcher that compiles against `registry`.
    pub fn new(registry: &'a NodeRegistry) -> (r: Self)
        ensures
            r.registry() == *registry,
    {
        GraphPatcher { compiler: GraphCompiler::new(registry) }
    }

    /// Applies `mutations` to the running graph. No mutation: nothing changes. Only
    /// property changes: they are applied in place through the evaluators and the
    /// revision stays. Otherwise the source graph is copied, mutated and compiled
    /// under the next revision, the values of pins outside the affected nodes are
    /// carried over, and the result replaces the running graph; on any error the
    /// running graph stays as it was.
    pub fn patch_live_graph(&self, live_graph: &mut LiveGraph, mutations: &[GraphMutation]) -> (r: AqueductResult<PatchReport>)
        requires
            old(live_graph).graph().wf(),
            self.registry().wf(),
        ensures
            final(live_graph).graph().wf(),
            mutations@.len() == 0 ==> r is Ok && final(live_graph).graph() == old(live_graph).graph(),
            r matches Ok(report) ==> patch_ok(
                old(live_graph).graph()@,
                final(live_graph).graph()@,
                mutations@,
                self.registry()@,
                id_views(report.affected_nodes@),
                report.graph_rev,
            ),
            mutations@.len() > 0 && property_only(mutations@) && (exists|k: Seq<char>| property_target(mutations@, k)
                && !has_key(old(live_graph).graph()@.graph.nodes, k)) ==> r is Err,
            mutations@.len() > 0 && !property_only(mutations@) ==> (r matches Ok(report) ==> carries_evaluators(
                old(live_graph).graph(),
                final(live_graph).graph(),
                id_views(report.affected_nodes@),
            )),
            mutations@.len() > 0 && property_only(mutations@) ==> keeps_untargeted_evaluators(
                old(live_graph).graph(),
                final(live_graph).graph(),
                mutations@,
            ),
            mutations@.len() > 0 && property_only(mutations@) ==> (r matches Err(e) ==> batch_refused(old(live_graph).graph(), mutations@, e)),
            mutations@.len() > 0 && property_only(mutations@) && r is Ok ==> forall|k: int| 0 <= k < mutations@.len()
                ==> #[trigger] step_accepted_at(old(live_graph).graph(), mutations@, k),
            mutations@.len() > 0 && property_only(mutations@) && r is Err ==> exists|k: int|
                0 <= k < mutations@.len() && final(live_graph).graph()@ == (CompiledGraphView {
                    graph: properties_set(old(live_graph).graph()@.graph, #[trigger] mutations@.take(k + 1)),
                    ..old(live_graph).graph()@
                }),
            mutations@.len() > 0 && !property_only(mutations@) ==> {
                let before = old(live_graph).graph()@;
                &&& r is Err ==> final(live_graph).graph() == old(live_graph).graph()
                &&& !all_accepted(before.graph, mutations@) ==> (r matches Err(e) && exists|i: int| {
                    &&& #[trigger] first_refused(before.graph, mutations@, i)
                    &&& e.spec_kind() == ErrorKind::Patch
                    &&& mutation_error(applied(before.graph, mutations@.take(i)), mutations@[i]) == Some((e.spec_code()@, e.spec_message()))
                })
                &&& all_accepted(before.graph, mutations@) && !graph_valid(applied(before.graph, mutations@), self.registry()@) ==> (r matches Err(e)
                    && invalid_graph_error(applied(before.graph, mutations@), self.registry()@, e))
                &&& all_accepted(before.graph, mutations@) && graph_valid(applied(before.graph, mutations@), self.registry()@) && r is Err
                    ==> (r matches Err(e) && refused_by_a_factory(self.registry(), applied(before.graph, mutations@), e))
                &&& r is Ok ==> forall|i: int| 0 <= i < final(live_graph).graph()@.eval_order.len() ==> #[trigger] accepted_for(
                    self.registry(),
                    applied(before.graph, mutations@),
                    final(live_graph).graph()@.eval_order[i],
                )
                &&& r matches Ok(report) ==> forall|i: int| 0 <= i < final(live_graph).graph()@.eval_order.len()
                    && (id_views(report.affected_nodes@).contains(final(live_graph).graph()@.eval_order[i])
                    || !before.eval_order.contains(final(live_graph).graph()@.eval_order[i])) ==> #[trigger] made_by_factory(
                    self.registry(),
                    applied(before.graph, mutations@),
                    final(live_graph).graph()@.eval_order[i],
                    final(live_graph).graph().evaluators(),
                    i,
                )
            },
    {
        let current_rev = live_graph.snapshot().graph_rev();
        if mutations.len() == 0 {
            return Ok(PatchReport { affected_nodes: Vec::new(), graph_rev: current_rev });
        }
        if is_property_only_batch(mutations) {
            let graph = live_graph.with_graph_mut();
            return patch_property_only_batch(graph, mutations, current_rev);
        }
        let ghost before = live_graph.graph()@;
        let mut next_graph = live_graph.snapshot().source_graph().duplicate();
        let changed = match apply_mutations(&mut next_graph, mutations) {
            Ok(c) => c,
            Err(e) => {
                return Err(e);
            },
        };
        let affected = downstream_nodes(&next_graph, changed.as_slice());
        let next_rev = current_rev.saturating_add(1);
        let mut compiled = match self.compiler.compile(&next_graph, next_rev) {
            Ok(c) => c,
            Err(e) => {
                return Err(e);
            },
        };
        let ghost c0 = compiled@;
        let ghost ce = compiled.evaluators();
        let previous_store = live_graph.snapshot().pin_store_snapshot();
        compiled.copy_pin_values_from(&previous_store, affected.as_slice());
        let ghost c1 = compiled@;
        let previous = live_graph.with_graph_mut();
        compiled.carry_evaluators_from(previous, affected.as_slice());
        assert(compiled@ == c1);
        proof {
            assert(id_views(changed@).to_set() =~= changed_by(before.graph, mutations@));
            assert(compiled_from(c0, applied(before.graph, mutations@), self.registry()@, next_revision(before.graph_rev)));
            assert forall|i: int| 0 <= i < compiled@.eval_order.len()
                && (id_views(affected@).contains(compiled@.eval_order[i]) || !before.eval_order.contains(compiled@.eval_order[i]))
                implies #[trigger] made_by_factory(
                self.registry(),
                applied(before.graph, mutations@),
                compiled@.eval_order[i],
                compiled.evaluators(),
                i,
            ) by {
                assert(made_by_factory(self.registry(), applied(before.graph, mutations@), c0.eval_order[i], ce, i));
                assert(compiled.evaluators()[i] == ce[i]);
            }
        }
        live_graph.replace(compiled);
        Ok(PatchReport { affected_nodes: affected, graph_rev: next_rev })
    }
}

/// A batch that only sets properties changes the graph as applying it
/// mutation by mutation does, and changes the nodes whose properties it sets:
/// the in-place path agrees with the general one.
pub proof fn lemma_property_batch_agrees(g: GraphView, mutations: Seq<GraphMutation>)
    requires
        property_only(mutations),
    ensures
        properties_set(g, mutations) == applied(g, mutations),
        changed_by(g, mutations) == property_targets(mutations),
    decreases mutations.len(),
{
    if mutations.len() > 0 {
        let init = mutations.drop_last();
        assert(property_only(init)) by {
            assert forall|i: int| 0 <= i < init.len() implies #[trigger] init[i] is UpdateProperty by {
                assert(init[i] == mutations[i]);
            }
        }
        lemma_property_batch_agrees(g, init);
        let last = mutations.last();
        assert(last is UpdateProperty);
        assert(changed_by(g, mutations) =~= property_targets(mutations)) by {
            assert forall|k: Seq<char>| changed_by(g, mutations).contains(k) <==> #[trigger] property_targets(mutations).contains(k) by {
                if property_target(init, k) {
                    let j = choose|j: int| 0 <= j < init.len() && (#[trigger] init[j] matches GraphMutation::UpdateProperty { node_id, .. } && node_id@ == k);
                    assert(mutations[j] == init[j]);
                }
                if property_target(mutations, k) {
                    let j = choose|j: int| 0 <= j < mutations.len() && (#[trigger] mutations[j] matches GraphMutation::UpdateProperty { node_id, .. } && node_id@ == k);
                    if j < init.len() {
                        assert(init[j] == mutations[j]);
                        assert(property_target(init, k));
                    }
                }
                match last {
                    GraphMutation::UpdateProperty { node_id, .. } => {
                        if node_id@ == k {
                            assert(mutations[mutations.len() - 1] == last);
                        }
                    },
                    _ => {},
                }
            }
        }
    }
}

/// A structural patch drops every job started before it: after a batch that does
/// more than set properties is applied, no earlier job's result is awaited.
pub proof fn lemma_patch_drops_stale_jobs(
    before: CompiledGraphView,
    after: CompiledGraphView,
    mutations: Seq<GraphMutation>,
    defs: Seq<crate::model::NodeDefView>,
    affected: Seq<Seq<char>>,
    rev: u64,
    job: AsyncJobView,
)
    requires
        patch_ok(before, after, mutations, defs, affected, rev),
        mutations.len() > 0,
        !property_only(mutations),
    ensures
        !job_awaited(after, job),
{
    let c = choose|c: CompiledGraphView| {
        &&& #[trigger] compiled_from(c, applied(before.graph, mutations), defs, next_revision(before.graph_rev))
        &&& after == (CompiledGraphView { pin_store: PinStoreView { values: after.pin_store.values, ..c.pin_store }, ..c })
        &&& after.pin_store.values.len() == c.pin_store.values.len()
        &&& forall|i: int| 0 <= i < c.pin_store.values.len() ==> #[trigger] after.pin_store.values[i] == (
            c.pin_store.values[i].0,
            carried_value(c.pin_store.values[i], before.pin_store.values, affected),
        )
    };
    assert(after.pending_jobs.len() == 0);
    lemma_key_index(after.pending_jobs, job.job_id);
}

/// A patch keeps the values of pins outside the affected nodes: a pin held both
/// before and after a successful patch, whose node the patch does not affect,
/// holds the same value after it.
pub proof fn lemma_patch_keeps_unaffected_values(
    before: CompiledGraphView,
    after: CompiledGraphView,
    mutations: Seq<GraphMutation>,
    defs: Seq<crate::model::NodeDefView>,
    affected: Seq<Seq<char>>,
    rev: u64,
    pin: (Seq<char>, Seq<char>),
)
    requires
        patch_ok(before, after, mutations, defs, affected, rev),
        has_key(before.pin_store.values, pin),
        has_key(after.pin_store.values, pin),
        !affected.contains(pin.0),
    ensures
        lookup(after.pin_store.values, pin) == lookup(before.pin_store.values, pin),
{
    if mutations.len() > 0 && !property_only(mutations) {
        let c = choose|c: CompiledGraphView| {
            &&& #[trigger] compiled_from(c, applied(before.graph, mutations), defs, next_revision(before.graph_rev))
            &&& after == (CompiledGraphView { pin_store: PinStoreView { values: after.pin_store.values, ..c.pin_store }, ..c })
            &&& after.pin_store.values.len() == c.pin_store.values.len()
            &&& forall|i: int| 0 <= i < c.pin_store.values.len() ==> #[trigger] after.pin_store.values[i] == (
                c.pin_store.values[i].0,
                carried_value(c.pin_store.values[i], before.pin_store.values, affected),
            )
        };
        lemma_key_index(after.pin_store.values, pin);
        let i = key_index(after.pin_store.values, pin);
        assert(after.pin_store.values[i] == (
            c.pin_store.values[i].0,
            carried_value(c.pin_store.values[i], before.pin_store.values, affected),
        ));
    }
}

/// Keeping the elements of `s` that all pass `pred` keeps `s`.
proof fn lemma_filter_keeps_all(s: Seq<Edge>, pred: spec_fn(Edge) -> bool)
    requires
        forall|i: int| 0 <= i < s.len() ==> pred(#[trigger] s[i]),
    ensures
        s.filter(pred) == s,
    decreases s.len(),
{
    reveal(Seq::filter);
    if s.len() > 0 {
        let d = s.drop_last();
        assert forall|i: int| 0 <= i < d.len() implies pred(#[trigger] d[i]) by {
            assert(d[i] == s[i]);
        }
        lemma_filter_keeps_all(d, pred);
        assert(pred(s[s.len() - 1]));
        assert(s.drop_last().push(s.last()) =~= s);
    }
}

/// Adding a node under an unused id and then removing it is accepted and leaves
/// the graph as it was, when no edge mentions that id.
pub proof fn lemma_add_then_remove_node(g: GraphView, instance: NodeInstance)
    requires
        !has_key(g.nodes, instance.id@),
        forall|j: int| 0 <= j < g.edges.len() ==> (#[trigger] g.edges[j]).from_node@ != instance.id@ && g.edges[j].to_node@
            != instance.id@,
    ensures
        all_accepted(g, seq![GraphMutation::AddNode { instance }, GraphMutation::RemoveNode { id: instance.id }]),
        applied(g, seq![GraphMutation::AddNode { instance }, GraphMutation::RemoveNode { id: instance.id }]) == g,
{
    let add = GraphMutation::AddNode { instance };
    let rem = GraphMutation::RemoveNode { id: instance.id };
    let muts = seq![add, rem];
    assert(muts.take(0) =~= Seq::<GraphMutation>::empty());
    assert(muts.take(1) =~= seq![add]);
    assert(muts.drop_last() =~= seq![add]);
    assert(seq![add].drop_last() =~= Seq::<GraphMutation>::empty());
    let g1 = apply_one(g, add);
    assert(applied(g, Seq::<GraphMutation>::empty()) == g);
    assert(seq![add].last() == add);
    assert(applied(g, seq![add]) == g1);
    lemma_key_index(g.nodes, instance.id@);
    assert(g1.nodes == g.nodes.push((instance.id@, instance@)));
    assert(g1.nodes[g.nodes.len() as int].0 == instance.id@);
    lemma_key_index(g1.nodes, instance.id@);
    assert(key_index(g1.nodes, instance.id@) == g.nodes.len()) by {
        let x = key_index(g1.nodes, instance.id@);
        if x < g.nodes.len() {
            assert(g1.nodes[x] == g.nodes[x]);
        }
    }
    assert(g1.nodes.remove(g.nodes.len() as int) =~= g.nodes);
    assert forall|i: int| 0 <= i < g.edges.len() implies (not_touching(instance.id@))(#[trigger] g.edges[i]) by {}
    lemma_filter_keeps_all(g.edges, not_touching(instance.id@));
    assert(accepted_at(g, muts, 0));
    assert(accepted_at(g, muts, 1));
    assert(applied(g, muts) =~= g);
}

/// Adding an edge under an unused id and then removing it is accepted and leaves
/// the graph as it was.
pub proof fn lemma_add_then_remove_edge(g: GraphView, edge: Edge)
    requires
        !has_key(edge_entries(g.edges), edge.id@),
    ensures
        all_accepted(g, seq![GraphMutation::AddEdge { edge }, GraphMutation::RemoveEdge { id: edge.id }]),
        applied(g, seq![GraphMutation::AddEdge { edge }, GraphMutation::RemoveEdge { id: edge.id }]) == g,
{
    let add = GraphMutation::AddEdge { edge };
    let rem = GraphMutation::RemoveEdge { id: edge.id };
    let muts = seq![add, rem];
    assert(muts.take(0) =~= Seq::<GraphMutation>::empty());
    assert(muts.take(1) =~= seq![add]);
    assert(muts.drop_last() =~= seq![add]);
    assert(seq![add].drop_last() =~= Seq::<GraphMutation>::empty());
    let g1 = apply_one(g, add);
    assert(applied(g, Seq::<GraphMutation>::empty()) == g);
    assert(seq![add].last() == add);
    assert(applied(g, seq![add]) == g1);
    let es = edge_entries(g1.edges);
    lemma_key_index(edge_entries(g.edges), edge.id@);
    assert(es[g.edges.len() as int].0 == edge.id@);
    lemma_key_index(es, edge.id@);
    assert(key_index(es, edge.id@) == g.edges.len()) by {
        let x = key_index(es, edge.id@);
        if x < g.edges.len() {
            assert(es[x] == edge_entries(g.edges)[x]);
        }
    }
    assert(g1.edges.remove(g.edges.len() as int) =~= g.edges);
    assert(accepted_at(g, muts, 0));
    assert(accepted_at(g, muts, 1));
    assert(applied(g, muts) =~= g);
}

} // verus!
