//! Graph analysis: topological order, cycle detection, downstream closure, and
//! validation of a graph against the registered node types.

use vstd::prelude::*;
use vstd::set_lib::{lemma_len_subset, lemma_subset_equality};

use crate::error::{concat2, concat3, concat5, AqueductError, AqueductResult, ErrorKind};
use crate::ids::{PinId, contains_id, id_views, insert_sorted, lemma_text_lt_irreflexive, lemma_text_lt_total, lemma_text_lt_transitive, strictly_sorted, text_lt, NodeId};
use crate::keyed::{has_key, key_index, keys_distinct, keys_of, lemma_distinct_index, lemma_key_index, lookup};
use crate::model::{Direction, Edge, Graph, GraphView, NodeDefView, NodeInstanceView, PinDef, PinType};
use crate::registry::{def_index, def_lookup, has_def, lemma_def_index, NodeRegistry};

verus! {

// ----------------------------------------------------------------------------
// Orders of a graph's nodes

/// Every edge that appears in `order` goes from an earlier to a later position.
pub open spec fn respects_edges(order: Seq<Seq<char>>, edges: Seq<Edge>) -> bool {
    forall|j: int, a: int, b: int|
        #![trigger edges[j], order[a], order[b]]
        0 <= j < edges.len() && 0 <= a < order.len() && 0 <= b < order.len() && order[a]
            == edges[j].from_node@ && order[b] == edges[j].to_node@ ==> a < b
}

/// `order` lists every node of `g` once and puts the source of every edge before
/// its target.
pub open spec fn is_topological_order(g: GraphView, order: Seq<Seq<char>>) -> bool {
    &&& order.no_duplicates()
    &&& forall|k: Seq<char>| #[trigger] order.contains(k) <==> has_key(g.nodes, k)
    &&& respects_edges(order, g.edges)
}

/// Some topological order of `g` exists (that is, `g` has no cycle).
pub open spec fn has_topological_order(g: GraphView) -> bool {
    exists|order: Seq<Seq<char>>| is_topological_order(g, order)
}

/// Node `k` of `g` is not in `placed`, and the sources of all edges into it are.
pub open spec fn ready(g: GraphView, placed: Seq<Seq<char>>, k: Seq<char>) -> bool {
    &&& has_key(g.nodes, k)
    &&& !placed.contains(k)
    &&& forall|j: int| 0 <= j < g.edges.len() && #[trigger] g.edges[j].to_node@ == k ==> placed.contains(g.edges[j].from_node@)
}

/// `order` is the topological order of `g` that, at each position, takes the least
/// node (in the order of ids' text) among those ready there; there is exactly one.
pub open spec fn is_least_topological_order(g: GraphView, order: Seq<Seq<char>>) -> bool {
    &&& is_topological_order(g, order)
    &&& forall|i: int, k: Seq<char>|
        #![trigger ready(g, order.take(i), k), order[i]]
        0 <= i < order.len() && ready(g, order.take(i), k) ==> !text_lt(k, order[i])
}

/// Both endpoints of edge `j` are nodes of `g`.
pub open spec fn edge_known(g: GraphView, j: int) -> bool {
    has_key(g.nodes, g.edges[j].from_node@) && has_key(g.nodes, g.edges[j].to_node@)
}

/// Every edge of `g` connects nodes of `g`.
pub open spec fn all_edges_known(g: GraphView) -> bool {
    forall|j: int| 0 <= j < g.edges.len() ==> #[trigger] edge_known(g, j)
}

/// Edge `j` is the first edge of `g` with an endpoint that is not a node.
pub open spec fn first_unknown_edge(g: GraphView, j: int) -> bool {
    &&& 0 <= j < g.edges.len()
    &&& !edge_known(g, j)
    &&& forall|i: int| 0 <= i < j ==> #[trigger] edge_known(g, i)
}

// ----------------------------------------------------------------------------
// Counting edges

/// The number of edges into `k` whose source is not in `placed`.
pub open spec fn pending_in(edges: Seq<Edge>, k: Seq<char>, placed: Seq<Seq<char>>) -> nat
    decreases edges.len(),
{
    if edges.len() == 0 {
        0
    } else {
        pending_in(edges.drop_last(), k, placed) + if edges.last().to_node@ == k && !placed.contains(
            edges.last().from_node@,
        ) {
            1nat
        } else {
            0nat
        }
    }
}

/// The number of edges from `p` into `k`.
pub open spec fn from_to(edges: Seq<Edge>, p: Seq<char>, k: Seq<char>) -> nat
    decreases edges.len(),
{
    if edges.len() == 0 {
        0
    } else {
        from_to(edges.drop_last(), p, k) + if edges.last().from_node@ == p && edges.last().to_node@ == k {
            1nat
        } else {
            0nat
        }
    }
}

#[verifier::spinoff_prover]
proof fn lemma_pending_in_zero(edges: Seq<Edge>, k: Seq<char>, placed: Seq<Seq<char>>)
    ensures
        pending_in(edges, k, placed) == 0 <==> forall|j: int|
            0 <= j < edges.len() && #[trigger] edges[j].to_node@ == k ==> placed.contains(edges[j].from_node@),
        pending_in(edges, k, placed) <= edges.len(),
    decreases edges.len(),
{
    if edges.len() > 0 {
        let d = edges.drop_last();
        lemma_pending_in_zero(d, k, placed);
        assert forall|j: int| 0 <= j < d.len() implies d[j] == edges[j] by {}
        if pending_in(edges, k, placed) == 0 {
            assert forall|j: int| 0 <= j < edges.len() && #[trigger] edges[j].to_node@ == k implies placed.contains(
                edges[j].from_node@) by {
                if j < d.len() {
                    assert(d[j] == edges[j]);
                }
            }
        }
    }
}

proof fn lemma_prefix_step(edges: Seq<Edge>, j: int, k: Seq<char>, p: Seq<char>, placed: Seq<Seq<char>>)
    requires
        0 <= j < edges.len(),
    ensures
        pending_in(edges.take(j + 1), k, placed) == pending_in(edges.take(j), k, placed) + if edges[j].to_node@ == k
            && !placed.contains(edges[j].from_node@) {
            1nat
        } else {
            0nat
        },
        from_to(edges.take(j + 1), p, k) == from_to(edges.take(j), p, k) + if edges[j].from_node@ == p
            && edges[j].to_node@ == k {
            1nat
        } else {
            0nat
        },
{
    assert(edges.take(j + 1).drop_last() =~= edges.take(j));
}

proof fn lemma_from_to_prefix_le(edges: Seq<Edge>, j: int, p: Seq<char>, k: Seq<char>)
    requires
        0 <= j <= edges.len(),
    ensures
        from_to(edges.take(j), p, k) <= from_to(edges, p, k),
    decreases edges.len() - j,
{
    if j < edges.len() {
        lemma_prefix_step(edges, j, k, p, Seq::empty());
        lemma_from_to_prefix_le(edges, j + 1, p, k);
    } else {
        assert(edges.take(j) =~= edges);
    }
}

proof fn lemma_pending_place(edges: Seq<Edge>, k: Seq<char>, placed: Seq<Seq<char>>, p: Seq<char>)
    requires
        !placed.contains(p),
    ensures
        pending_in(edges, k, placed.push(p)) + from_to(edges, p, k) == pending_in(edges, k, placed),
    decreases edges.len(),
{
    if edges.len() > 0 {
        lemma_pending_place(edges.drop_last(), k, placed, p);
        let e = edges.last();
        assert(placed.push(p).contains(e.from_node@) <==> (placed.contains(e.from_node@) || e.from_node@ == p)) by {
            if placed.push(p).contains(e.from_node@) {
                let i = choose|i: int| 0 <= i < placed.push(p).len() && placed.push(p)[i] == e.from_node@;
                if i < placed.len() {
                    assert(placed[i] == e.from_node@);
                }
            }
            if placed.contains(e.from_node@) {
                let i = choose|i: int| 0 <= i < placed.len() && placed[i] == e.from_node@;
                assert(placed.push(p)[i] == e.from_node@);
            }
            if e.from_node@ == p {
                assert(placed.push(p)[placed.len() as int] == p);
            }
        }
    }
}

proof fn lemma_take_full<A>(s: Seq<A>)
    ensures
        s.take(s.len() as int) == s,
{
    assert(s.take(s.len() as int) =~= s);
}


proof fn lemma_keys_of<V>(s: Seq<(Seq<char>, V)>)
    ensures
        keys_of(s).len() == s.len(),
        forall|i: int| 0 <= i < s.len() ==> #[trigger] keys_of(s)[i] == s[i].0,
        forall|k: Seq<char>| #[trigger] keys_of(s).contains(k) <==> has_key(s, k),
        keys_distinct(s) ==> keys_of(s).no_duplicates(),
{
    let kv = keys_of(s);
    assert forall|k: Seq<char>| #[trigger] kv.contains(k) <==> has_key(s, k) by {
        if kv.contains(k) {
            let i = choose|i: int| 0 <= i < kv.len() && kv[i] == k;
            assert(s[i].0 == k);
        }
        if has_key(s, k) {
            let i = choose|i: int| 0 <= i < s.len() && #[trigger] s[i].0 == k;
            assert(kv[i] == k);
        }
    }
}

/// A sequence without duplicates, all of whose elements are in `kv` (itself without
/// duplicates), is no longer than `kv`, and covers it when as long.
proof fn lemma_covers(kv: Seq<Seq<char>>, ov: Seq<Seq<char>>)
    requires
        kv.no_duplicates(),
        ov.no_duplicates(),
        forall|x: Seq<char>| #[trigger] ov.contains(x) ==> kv.contains(x),
    ensures
        ov.len() <= kv.len(),
        ov.len() == kv.len() ==> forall|x: Seq<char>| #[trigger] kv.contains(x) ==> ov.contains(x),
{
    kv.unique_seq_to_set();
    ov.unique_seq_to_set();
    assert(ov.to_set().subset_of(kv.to_set()));
    lemma_len_subset(ov.to_set(), kv.to_set());
    if ov.len() == kv.len() {
        lemma_subset_equality(ov.to_set(), kv.to_set());
        assert forall|x: Seq<char>| #[trigger] kv.contains(x) implies ov.contains(x) by {
            assert(kv.to_set().contains(x));
        }
    }
}

proof fn lemma_push_contains(s: Seq<Seq<char>>, x: Seq<char>, y: Seq<char>)
    ensures
        s.push(x).contains(y) <==> (s.contains(y) || y == x),
{
    if s.push(x).contains(y) {
        let i = choose|i: int| 0 <= i < s.push(x).len() && s.push(x)[i] == y;
        if i < s.len() {
            assert(s[i] == y);
        }
    }
    if s.contains(y) {
        let i = choose|i: int| 0 <= i < s.len() && s[i] == y;
        assert(s.push(x)[i] == y);
    }
    if y == x {
        assert(s.push(x)[s.len() as int] == y);
    }
}

/// When every unplaced node still waits for an unplaced source, no node outside
/// `ov` can appear in a topological order.
proof fn lemma_descent(g: GraphView, ov: Seq<Seq<char>>, pi: Seq<Seq<char>>, m: int)
    requires
        is_topological_order(g, pi),
        all_edges_known(g),
        forall|k: Seq<char>| has_key(g.nodes, k) && !ov.contains(k) ==> #[trigger] pending_in(g.edges, k, ov) > 0,
        0 <= m < pi.len(),
    ensures
        ov.contains(pi[m]),
    decreases m,
{
    let k = pi[m];
    assert(pi.contains(k));
    if !ov.contains(k) {
        assert(pending_in(g.edges, k, ov) > 0);
        lemma_pending_in_zero(g.edges, k, ov);
        let j = choose|j: int| 0 <= j < g.edges.len() && #[trigger] g.edges[j].to_node@ == k && !ov.contains(g.edges[j].from_node@);
        assert(edge_known(g, j));
        let from = g.edges[j].from_node@;
        assert(pi.contains(from));
        let a = choose|a: int| 0 <= a < pi.len() && pi[a] == from;
        assert(a < m);
        lemma_descent(g, ov, pi, a);
    }
}

proof fn lemma_stuck_no_order(g: GraphView, ov: Seq<Seq<char>>)
    requires
        all_edges_known(g),
        keys_distinct(g.nodes),
        ov.no_duplicates(),
        forall|x: Seq<char>| #[trigger] ov.contains(x) ==> has_key(g.nodes, x),
        ov.len() < g.nodes.len(),
        forall|k: Seq<char>| has_key(g.nodes, k) && !ov.contains(k) ==> #[trigger] pending_in(g.edges, k, ov) > 0,
    ensures
        !has_topological_order(g),
{
    let kv = keys_of(g.nodes);
    lemma_keys_of(g.nodes);
    if has_topological_order(g) {
        let pi = choose|pi: Seq<Seq<char>>| is_topological_order(g, pi);
        assert forall|x: Seq<char>| #[trigger] kv.contains(x) implies ov.contains(x) by {
            assert(pi.contains(x));
            let m = choose|m: int| 0 <= m < pi.len() && pi[m] == x;
            lemma_descent(g, ov, pi, m);
        }
        lemma_covers(ov, kv);
        assert forall|x: Seq<char>| #[trigger] ov.contains(x) implies kv.contains(x) by {}
        lemma_covers(kv, ov);
    }
}

/// Why the nodes could not be ordered.
enum SortFailure {
    UnknownSource(usize),
    UnknownTarget(usize),
    Cycle,
}

/// For each node, the number of edges into it; for each edge, the positions of its
/// endpoints among the nodes.
fn count_indegrees(graph: &Graph) -> (r: Result<(Vec<usize>, Vec<usize>, Vec<usize>), SortFailure>)
    requires
        graph.wf(),
    ensures
        match r {
            Ok((indeg, fi, ti)) => {
                &&& all_edges_known(graph@)
                &&& indeg@.len() == graph@.nodes.len()
                &&& fi@.len() == graph@.edges.len()
                &&& ti@.len() == graph@.edges.len()
                &&& forall|q: int| 0 <= q < graph@.nodes.len() ==> #[trigger] indeg@[q] == pending_in(graph@.edges, graph@.nodes[q].0, Seq::empty())
                &&& forall|j: int| 0 <= j < graph@.edges.len() ==> #[trigger] fi@[j] < graph@.nodes.len() && graph@.nodes[fi@[j] as int].0 == graph@.edges[j].from_node@
                &&& forall|j: int| 0 <= j < graph@.edges.len() ==> #[trigger] ti@[j] < graph@.nodes.len() && graph@.nodes[ti@[j] as int].0 == graph@.edges[j].to_node@
            },
            Err(SortFailure::UnknownSource(j)) => first_unknown_edge(graph@, j as int) && !has_key(graph@.nodes, graph@.edges[j as int].from_node@),
            Err(SortFailure::UnknownTarget(j)) => first_unknown_edge(graph@, j as int) && has_key(graph@.nodes, graph@.edges[j as int].from_node@),
            Err(SortFailure::Cycle) => false,
        },
{
    let ghost g = graph@;
    let n = graph.nodes.len();
    let mut indeg: Vec<usize> = Vec::new();
    let mut q: usize = 0;
    while q < n
        invariant
            q <= n,
            n == g.nodes.len(),
            indeg@.len() == q,
            forall|x: int| 0 <= x < q ==> #[trigger] indeg@[x] == 0,
        decreases n - q,
    {
        indeg.push(0);
        q = q + 1;
    }
    let mut fi: Vec<usize> = Vec::new();
    let mut ti: Vec<usize> = Vec::new();
    let m = graph.edges.len();
    let mut j: usize = 0;
    while j < m
        invariant
            j <= m,
            m == g.edges.len(),
            n == g.nodes.len(),
            g == graph@,
            keys_distinct(g.nodes),
            indeg@.len() == n,
            fi@.len() == j,
            ti@.len() == j,
            forall|x: int| 0 <= x < j ==> #[trigger] edge_known(g, x),
            forall|x: int| 0 <= x < n ==> #[trigger] indeg@[x] == pending_in(g.edges.take(j as int), g.nodes[x].0, Seq::empty()),
            forall|x: int| 0 <= x < j ==> #[trigger] fi@[x] < n && g.nodes[fi@[x] as int].0 == g.edges[x].from_node@,
            forall|x: int| 0 <= x < j ==> #[trigger] ti@[x] < n && g.nodes[ti@[x] as int].0 == g.edges[x].to_node@,
        decreases m - j,
    {
        let edge = &graph.edges[j];
        let f = match graph.nodes.find(&edge.from_node) {
            Some(f) => f,
            None => {
                return Err(SortFailure::UnknownSource(j));
            },
        };
        let t = match graph.nodes.find(&edge.to_node) {
            Some(t) => t,
            None => {
                return Err(SortFailure::UnknownTarget(j));
            },
        };
        proof {
            lemma_key_index(g.nodes, g.edges[j as int].from_node@);
            lemma_key_index(g.nodes, g.edges[j as int].to_node@);
            assert(edge_known(g, j as int));
            assert forall|x: int| 0 <= x < n implies pending_in(g.edges.take(j + 1), g.nodes[x].0, Seq::empty())
                == pending_in(g.edges.take(j as int), g.nodes[x].0, Seq::empty()) + if x == t { 1nat } else { 0nat } by {
                lemma_prefix_step(g.edges, j as int, g.nodes[x].0, g.nodes[x].0, Seq::empty());
                if x != t {
                    lemma_distinct_index(g.nodes, x);
                    lemma_distinct_index(g.nodes, t as int);
                }
            }
            lemma_pending_in_zero(g.edges.take(j as int), g.nodes[t as int].0, Seq::empty());
        }
        let c = indeg[t];
        indeg.set(t, c + 1);
        fi.push(f);
        ti.push(t);
        j = j + 1;
    }
    proof {
        lemma_take_full(g.edges);
    }
    Ok((indeg, fi, ti))
}


/// The position of the least node (by id) that is not placed and has no pending
/// edges, if any.
fn pick_ready(graph: &Graph, indeg: &Vec<usize>, placed: &Vec<bool>) -> (r: Option<usize>)
    requires
        indeg@.len() == graph@.nodes.len(),
        placed@.len() == graph@.nodes.len(),
    ensures
        match r {
            Some(b) => b < graph@.nodes.len() && !placed@[b as int] && indeg@[b as int] == 0
                && forall|q: int| 0 <= q < graph@.nodes.len() && !placed@[q] && indeg@[q] == 0
                    ==> !text_lt(#[trigger] graph@.nodes[q].0, graph@.nodes[b as int].0),
            None => forall|q: int| 0 <= q < graph@.nodes.len() && !(#[trigger] placed@[q]) ==> indeg@[q] != 0,
        },
{
    let nodes = graph.nodes.as_slice();
    let n = nodes.len();
    let mut best: Option<usize> = None;
    let mut q: usize = 0;
    while q < n
        invariant
            q <= n,
            n == graph@.nodes.len(),
            nodes@.len() == n,
            indeg@.len() == n,
            placed@.len() == n,
            forall|x: int| 0 <= x < n ==> (#[trigger] nodes@[x]).0@ == graph@.nodes[x].0,
            match best {
                Some(b) => b < q && !placed@[b as int] && indeg@[b as int] == 0
                    && forall|x: int| 0 <= x < q && !placed@[x] && indeg@[x] == 0
                        ==> !text_lt(#[trigger] graph@.nodes[x].0, graph@.nodes[b as int].0),
                None => forall|x: int| 0 <= x < q && !(#[trigger] placed@[x]) ==> indeg@[x] != 0,
            },
        decreases n - q,
    {
        if !placed[q] && indeg[q] == 0 {
            match best {
                None => {
                    proof {
                        lemma_text_lt_irreflexive(graph@.nodes[q as int].0);
                    }
                    best = Some(q);
                },
                Some(b) => {
                    if nodes[q].0.less_than(&nodes[b].0) {
                        proof {
                            let kq = graph@.nodes[q as int].0;
                            let kb = graph@.nodes[b as int].0;
                            lemma_text_lt_irreflexive(kq);
                            assert forall|x: int| 0 <= x < q + 1 && !placed@[x] && indeg@[x] == 0
                                implies !text_lt(#[trigger] graph@.nodes[x].0, kq) by {
                                if x < q {
                                    let kx = graph@.nodes[x].0;
                                    if text_lt(kx, kq) {
                                        lemma_text_lt_transitive(kx, kq, kb);
                                    }
                                }
                            }
                        }
                        best = Some(q);
                    }
                },
            }
        }
        q = q + 1;
    }
    best
}

/// Takes away, from the pending counts, the edges whose source is the node at `b`.
fn release(
    indeg: &mut Vec<usize>,
    fi: &Vec<usize>,
    ti: &Vec<usize>,
    b: usize,
    Ghost(g): Ghost<GraphView>,
    Ghost(ov): Ghost<Seq<Seq<char>>>,
)
    requires
        keys_distinct(g.nodes),
        b < g.nodes.len(),
        !ov.contains(g.nodes[b as int].0),
        old(indeg)@.len() == g.nodes.len(),
        fi@.len() == g.edges.len(),
        ti@.len() == g.edges.len(),
        forall|j: int| 0 <= j < g.edges.len() ==> #[trigger] fi@[j] < g.nodes.len() && g.nodes[fi@[j] as int].0 == g.edges[j].from_node@,
        forall|j: int| 0 <= j < g.edges.len() ==> #[trigger] ti@[j] < g.nodes.len() && g.nodes[ti@[j] as int].0 == g.edges[j].to_node@,
        forall|q: int| 0 <= q < g.nodes.len() ==> #[trigger] old(indeg)@[q] == pending_in(g.edges, g.nodes[q].0, ov),
    ensures
        final(indeg)@.len() == g.nodes.len(),
        forall|q: int| 0 <= q < g.nodes.len() ==> #[trigger] final(indeg)@[q] == pending_in(g.edges, g.nodes[q].0, ov.push(g.nodes[b as int].0)),
{
    let ghost kb = g.nodes[b as int].0;
    let m = fi.len();
    let mut j: usize = 0;
    proof {
        assert forall|q: int| 0 <= q < g.nodes.len() implies from_to(g.edges.take(0), kb, g.nodes[q].0) == 0 by {
            assert(g.edges.take(0).len() == 0);
        }
    }
    while j < m
        invariant
            j <= m,
            m == g.edges.len(),
            keys_distinct(g.nodes),
            b < g.nodes.len(),
            kb == g.nodes[b as int].0,
            !ov.contains(kb),
            indeg@.len() == g.nodes.len(),
            fi@.len() == m,
            ti@.len() == m,
            forall|x: int| 0 <= x < m ==> #[trigger] fi@[x] < g.nodes.len() && g.nodes[fi@[x] as int].0 == g.edges[x].from_node@,
            forall|x: int| 0 <= x < m ==> #[trigger] ti@[x] < g.nodes.len() && g.nodes[ti@[x] as int].0 == g.edges[x].to_node@,
            forall|q: int| 0 <= q < g.nodes.len() ==> #[trigger] indeg@[q] + from_to(g.edges.take(j as int), kb, g.nodes[q].0)
                == pending_in(g.edges, g.nodes[q].0, ov),
        decreases m - j,
    {
        let t = ti[j];
        proof {
            assert forall|q: int| 0 <= q < g.nodes.len() implies from_to(g.edges.take(j + 1), kb, g.nodes[q].0)
                == from_to(g.edges.take(j as int), kb, g.nodes[q].0) + if fi@[j as int] == b && q == t { 1nat } else { 0nat } by {
                lemma_prefix_step(g.edges, j as int, g.nodes[q].0, kb, ov);
                lemma_distinct_index(g.nodes, q);
                lemma_distinct_index(g.nodes, b as int);
                lemma_distinct_index(g.nodes, t as int);
                lemma_distinct_index(g.nodes, fi@[j as int] as int);
            }
        }
        if fi[j] == b {
            proof {
                let kt = g.nodes[t as int].0;
                lemma_from_to_prefix_le(g.edges, j + 1, kb, kt);
                lemma_pending_place(g.edges, kt, ov, kb);
            }
            let c = indeg[t];
            indeg.set(t, c - 1);
        }
        j = j + 1;
    }
    proof {
        lemma_take_full(g.edges);
        assert forall|q: int| 0 <= q < g.nodes.len() implies #[trigger] indeg@[q] == pending_in(g.edges, g.nodes[q].0, ov.push(kb)) by {
            lemma_pending_place(g.edges, g.nodes[q].0, ov, kb);
        }
    }
}


proof fn lemma_take_push(s: Seq<Seq<char>>, x: Seq<char>, i: int)
    requires
        0 <= i <= s.len(),
    ensures
        s.push(x).take(i) == s.take(i),
{
    assert(s.push(x).take(i) =~= s.take(i));
}

/// The least topological order of the graph's nodes, or why there is none.
fn sort_nodes(graph: &Graph) -> (r: Result<Vec<NodeId>, SortFailure>)
    requires
        graph.wf(),
    ensures
        match r {
            Ok(order) => all_edges_known(graph@) && is_least_topological_order(graph@, id_views(order@)),
            Err(SortFailure::UnknownSource(j)) => first_unknown_edge(graph@, j as int) && !has_key(graph@.nodes, graph@.edges[j as int].from_node@),
            Err(SortFailure::UnknownTarget(j)) => first_unknown_edge(graph@, j as int) && has_key(graph@.nodes, graph@.edges[j as int].from_node@),
            Err(SortFailure::Cycle) => all_edges_known(graph@) && !has_topological_order(graph@),
        },
{
    let ghost g = graph@;
    let (mut indeg, fi, ti) = match count_indegrees(graph) {
        Ok(x) => x,
        Err(f) => {
            return Err(f);
        },
    };
    let nodes = graph.nodes.as_slice();
    let n = nodes.len();
    proof {
        lemma_keys_of(g.nodes);
    }
    let mut placed: Vec<bool> = Vec::new();
    let mut q: usize = 0;
    while q < n
        invariant
            q <= n,
            placed@.len() == q,
            forall|x: int| 0 <= x < q ==> !#[trigger] placed@[x],
        decreases n - q,
    {
        placed.push(false);
        q = q + 1;
    }
    let mut order: Vec<NodeId> = Vec::new();
    let ghost mut ov: Seq<Seq<char>> = Seq::empty();
    let mut stuck = false;
    while !stuck && order.len() < n
        invariant
            g == graph@,
            n == g.nodes.len(),
            nodes@.len() == n,
            forall|x: int| 0 <= x < n ==> (#[trigger] nodes@[x]).0@ == g.nodes[x].0,
            keys_distinct(g.nodes),
            keys_of(g.nodes).no_duplicates(),
            forall|k: Seq<char>| #[trigger] keys_of(g.nodes).contains(k) <==> has_key(g.nodes, k),
            all_edges_known(g),
            indeg@.len() == n,
            placed@.len() == n,
            fi@.len() == g.edges.len(),
            ti@.len() == g.edges.len(),
            forall|j: int| 0 <= j < g.edges.len() ==> #[trigger] fi@[j] < n && g.nodes[fi@[j] as int].0 == g.edges[j].from_node@,
            forall|j: int| 0 <= j < g.edges.len() ==> #[trigger] ti@[j] < n && g.nodes[ti@[j] as int].0 == g.edges[j].to_node@,
            ov == id_views(order@),
            ov.no_duplicates(),
            forall|x: Seq<char>| #[trigger] ov.contains(x) ==> has_key(g.nodes, x),
            forall|x: int| 0 <= x < n ==> #[trigger] placed@[x] == ov.contains(g.nodes[x].0),
            forall|x: int| 0 <= x < n ==> #[trigger] indeg@[x] == pending_in(g.edges, g.nodes[x].0, ov),
            forall|i: int| 0 <= i < ov.len() ==> #[trigger] ready(g, ov.take(i), ov[i]),
            forall|i: int, k: Seq<char>|
                #![trigger ready(g, ov.take(i), k), ov[i]]
                0 <= i < ov.len() && ready(g, ov.take(i), k) ==> !text_lt(k, ov[i]),
            stuck ==> forall|x: int| 0 <= x < n && !(#[trigger] placed@[x]) ==> indeg@[x] != 0,
        decreases n - order@.len(), if stuck { 0int } else { 1int },
    {
        proof {
            lemma_covers(keys_of(g.nodes), ov);
        }
        let ghost pre_placed = placed@;
        let ghost pre_indeg = indeg@;
        match pick_ready(graph, &indeg, &placed) {
            None => {
                stuck = true;
            },
            Some(b) => {
                let ghost kb = g.nodes[b as int].0;
                proof {
                    lemma_pending_in_zero(g.edges, kb, ov);
                    lemma_distinct_index(g.nodes, b as int);
                }
                release(&mut indeg, &fi, &ti, b, Ghost(g), Ghost(ov));
                placed.set(b, true);
                let id = nodes[b].0.clone();
                order.push(id);
                let ghost old_ov = ov;
                proof {
                    ov = ov.push(kb);
                    assert(ov =~= id_views(order@));
                    assert(ov.take(old_ov.len() as int) =~= old_ov);
                    assert(ready(g, old_ov, kb));
                    assert forall|x: Seq<char>| #[trigger] ov.contains(x) implies has_key(g.nodes, x) by {
                        lemma_push_contains(old_ov, kb, x);
                    }
                    assert forall|x: int| 0 <= x < n implies #[trigger] placed@[x] == ov.contains(g.nodes[x].0) by {
                        lemma_push_contains(old_ov, kb, g.nodes[x].0);
                        lemma_distinct_index(g.nodes, x);
                    }
                    assert forall|i: int| 0 <= i < ov.len() implies #[trigger] ready(g, ov.take(i), ov[i]) by {
                        lemma_take_push(old_ov, kb, i);
                        if i < old_ov.len() {
                            assert(ov[i] == old_ov[i]);
                        }
                    }
                    assert forall|i: int, k: Seq<char>|
                        #![trigger ready(g, ov.take(i), k), ov[i]]
                        0 <= i < ov.len() && ready(g, ov.take(i), k) implies !text_lt(k, ov[i]) by {
                        lemma_take_push(old_ov, kb, i);
                        if i < old_ov.len() {
                            assert(ov[i] == old_ov[i]);
                        } else {
                            assert(keys_of(g.nodes).contains(k));
                            let x = choose|x: int| 0 <= x < n && keys_of(g.nodes)[x] == k;
                            assert(g.nodes[x].0 == k);
                            assert(!pre_placed[x]);
                            lemma_pending_in_zero(g.edges, k, old_ov);
                            assert(pre_indeg[x] == 0);
                        }
                    }
                }
            },
        }
    }
    proof {
        lemma_covers(keys_of(g.nodes), ov);
    }
    if order.len() < n {
        proof {
            assert forall|k: Seq<char>| has_key(g.nodes, k) && !ov.contains(k) implies #[trigger] pending_in(g.edges, k, ov) > 0 by {
                assert(keys_of(g.nodes).contains(k));
                let x = choose|x: int| 0 <= x < n && keys_of(g.nodes)[x] == k;
                assert(g.nodes[x].0 == k);
                assert(!placed@[x]);
            }
            lemma_stuck_no_order(g, ov);
        }
        return Err(SortFailure::Cycle);
    }
    proof {
        assert forall|k: Seq<char>| #[trigger] ov.contains(k) <==> has_key(g.nodes, k) by {
            if has_key(g.nodes, k) {
                assert(keys_of(g.nodes).contains(k));
            }
        }
        assert forall|j: int, a: int, b: int|
            #![trigger g.edges[j], ov[a], ov[b]]
            0 <= j < g.edges.len() && 0 <= a < ov.len() && 0 <= b < ov.len() && ov[a] == g.edges[j].from_node@
                && ov[b] == g.edges[j].to_node@ implies a < b by {
            assert(ready(g, ov.take(b), ov[b]));
            assert(ov.take(b).contains(g.edges[j].from_node@));
            let c = choose|c: int| 0 <= c < ov.take(b).len() && ov.take(b)[c] == g.edges[j].from_node@;
            assert(ov[c] == ov[a]);
        }
    }
    Ok(order)
}


proof fn lemma_first_unknown_unique(g: GraphView, a: int, b: int)
    requires
        first_unknown_edge(g, a),
        first_unknown_edge(g, b),
    ensures
        a == b,
{
    if a < b {
        assert(edge_known(g, a));
    } else if b < a {
        assert(edge_known(g, b));
    }
}

/// The error for a failed sort.
fn sort_error(graph: &Graph, failure: SortFailure) -> (e: AqueductError)
    requires
        failure matches SortFailure::UnknownSource(j) ==> j < graph@.edges.len(),
        failure matches SortFailure::UnknownTarget(j) ==> j < graph@.edges.len(),
    ensures
        e.spec_kind() == ErrorKind::Graph,
        failure matches SortFailure::UnknownSource(j) ==> e.spec_code()@ == "GRAPH_UNKNOWN_EDGE_SOURCE_NODE"@
            && e.spec_message() == "edge "@ + graph@.edges[j as int].id@ + " の from_node "@
                + graph@.edges[j as int].from_node@ + " が存在しません"@,
        failure matches SortFailure::UnknownTarget(j) ==> e.spec_code()@ == "GRAPH_UNKNOWN_EDGE_TARGET_NODE"@
            && e.spec_message() == "edge "@ + graph@.edges[j as int].id@ + " の to_node "@
                + graph@.edges[j as int].to_node@ + " が存在しません"@,
        failure is Cycle ==> e.spec_code()@ == "GRAPH_CYCLE_DETECTED"@ && e.spec_message() == "循環を検出しました"@,
{
    match failure {
        SortFailure::UnknownSource(j) => {
            let edge = &graph.edges[j];
            AqueductError::new(
                ErrorKind::Graph,
                "GRAPH_UNKNOWN_EDGE_SOURCE_NODE",
                concat5("edge ", edge.id.as_str(), " の from_node ", edge.from_node.as_str(), " が存在しません"),
            )
        },
        SortFailure::UnknownTarget(j) => {
            let edge = &graph.edges[j];
            AqueductError::new(
                ErrorKind::Graph,
                "GRAPH_UNKNOWN_EDGE_TARGET_NODE",
                concat5("edge ", edge.id.as_str(), " の to_node ", edge.to_node.as_str(), " が存在しません"),
            )
        },
        SortFailure::Cycle => AqueductError::new(
            ErrorKind::Graph,
            "GRAPH_CYCLE_DETECTED",
            String::from_str("循環を検出しました"),
        ),
    }
}

/// The evaluation order of a graph: its least topological order (at each step the
/// ready node with the least id).
///
/// Refused when an edge names a node that does not exist (the first such edge,
/// its source checked before its target), or when the graph has a cycle.
pub fn topological_sort(graph: &Graph) -> (r: AqueductResult<Vec<NodeId>>)
    ensures
        forall|j: int| first_unknown_edge(graph@, j) && !has_key(graph@.nodes, graph@.edges[j].from_node@) ==> (r matches Err(e)
            && e.spec_kind() == ErrorKind::Graph
            && e.spec_code()@ == "GRAPH_UNKNOWN_EDGE_SOURCE_NODE"@
            && e.spec_message() == "edge "@ + graph@.edges[j].id@ + " の from_node "@ + graph@.edges[j].from_node@ + " が存在しません"@),
        forall|j: int| first_unknown_edge(graph@, j) && has_key(graph@.nodes, graph@.edges[j].from_node@) ==> (r matches Err(e)
            && e.spec_kind() == ErrorKind::Graph
            && e.spec_code()@ == "GRAPH_UNKNOWN_EDGE_TARGET_NODE"@
            && e.spec_message() == "edge "@ + graph@.edges[j].id@ + " の to_node "@ + graph@.edges[j].to_node@ + " が存在しません"@),
        all_edges_known(graph@) ==> (r is Ok <==> has_topological_order(graph@)),
        all_edges_known(graph@) && !has_topological_order(graph@) ==> (r matches Err(e)
            && e.spec_kind() == ErrorKind::Graph
            && e.spec_code()@ == "GRAPH_CYCLE_DETECTED"@ && e.spec_message() == "循環を検出しました"@),
        r matches Ok(order) ==> all_edges_known(graph@) && is_least_topological_order(graph@, id_views(order@)),
{
    proof {
        use_type_invariant(&graph.nodes);
    }
    match sort_nodes(graph) {
        Ok(order) => Ok(order),
        Err(failure) => {
            proof {
                assert forall|j: int| first_unknown_edge(graph@, j) implies !all_edges_known(graph@) by {
                    assert(!edge_known(graph@, j));
                }
                match failure {
                    SortFailure::UnknownSource(j0) => {
                        assert forall|j: int| first_unknown_edge(graph@, j) implies j == j0 by {
                            lemma_first_unknown_unique(graph@, j, j0 as int);
                        }
                    },
                    SortFailure::UnknownTarget(j0) => {
                        assert forall|j: int| first_unknown_edge(graph@, j) implies j == j0 by {
                            lemma_first_unknown_unique(graph@, j, j0 as int);
                        }
                    },
                    SortFailure::Cycle => {},
                }
            }
            Err(sort_error(graph, failure))
        },
    }
}

/// Node `order[i]` is ready once the nodes before it are placed, when every edge
/// connects nodes of `g`.
proof fn lemma_order_entry_ready(g: GraphView, order: Seq<Seq<char>>, i: int)
    requires
        all_edges_known(g),
        is_topological_order(g, order),
        0 <= i < order.len(),
    ensures
        ready(g, order.take(i), order[i]),
{
    let k = order[i];
    assert(order.contains(k));
    assert(!order.take(i).contains(k)) by {
        if order.take(i).contains(k) {
            let p = choose|p: int| 0 <= p < order.take(i).len() && order.take(i)[p] == k;
            assert(order[p] == order[i]);
        }
    }
    assert forall|j: int| 0 <= j < g.edges.len() && #[trigger] g.edges[j].to_node@ == k implies order.take(i).contains(
        g.edges[j].from_node@,
    ) by {
        assert(edge_known(g, j));
        assert(order.contains(g.edges[j].from_node@));
        let p = choose|p: int| 0 <= p < order.len() && order[p] == g.edges[j].from_node@;
        assert(p < i);
        assert(order.take(i)[p] == order[p]);
    }
}

/// Two least topological orders agree on their first `i` entries.
proof fn lemma_orders_agree_upto(g: GraphView, a: Seq<Seq<char>>, b: Seq<Seq<char>>, i: int)
    requires
        all_edges_known(g),
        is_least_topological_order(g, a),
        is_least_topological_order(g, b),
        0 <= i <= a.len(),
        i <= b.len(),
    ensures
        a.take(i) == b.take(i),
    decreases i,
{
    if i > 0 {
        let h = i - 1;
        lemma_orders_agree_upto(g, a, b, h);
        lemma_order_entry_ready(g, a, h);
        lemma_order_entry_ready(g, b, h);
        assert(ready(g, a.take(h), b[h]));
        assert(!text_lt(b[h], a[h]));
        assert(ready(g, b.take(h), a[h]));
        assert(!text_lt(a[h], b[h]));
        if a[h] != b[h] {
            lemma_text_lt_total(a[h], b[h]);
        }
        assert forall|x: int| 0 <= x < i implies a.take(i)[x] == b.take(i)[x] by {
            if x < h {
                assert(a.take(h)[x] == b.take(h)[x]);
            }
        }
        assert(a.take(i) =~= b.take(i));
    }
}

/// The evaluation order is determined by the graph: two least topological orders
/// of a graph whose edges all connect its nodes are the same sequence.
pub proof fn lemma_evaluation_order_is_unique(g: GraphView, a: Seq<Seq<char>>, b: Seq<Seq<char>>)
    requires
        all_edges_known(g),
        is_least_topological_order(g, a),
        is_least_topological_order(g, b),
    ensures
        a == b,
{
    let n: int = if a.len() <= b.len() { a.len() as int } else { b.len() as int };
    lemma_orders_agree_upto(g, a, b, n);
    if a.len() < b.len() {
        let k = b[n];
        assert(b.contains(k));
        assert(a.contains(k));
        let p = choose|p: int| 0 <= p < a.len() && a[p] == k;
        assert(a.take(n)[p] == b.take(n)[p]);
        assert(b[p] == b[n]);
    } else if b.len() < a.len() {
        let k = a[n];
        assert(a.contains(k));
        assert(b.contains(k));
        let p = choose|p: int| 0 <= p < b.len() && b[p] == k;
        assert(a.take(n)[p] == b.take(n)[p]);
        assert(a[p] == a[n]);
    }
    assert forall|x: int| 0 <= x < a.len() implies a[x] == b[x] by {
        assert(a.take(n)[x] == b.take(n)[x]);
    }
    assert(a =~= b);
}

/// Whether the graph has a cycle. Refused, as `topological_sort` is, when an edge
/// names a node that does not exist.
pub fn detect_cycle(graph: &Graph) -> (r: AqueductResult<bool>)
    ensures
        all_edges_known(graph@) ==> r == Ok::<bool, AqueductError>(!has_topological_order(graph@)),
        forall|j: int| first_unknown_edge(graph@, j) && !has_key(graph@.nodes, graph@.edges[j].from_node@) ==> (r matches Err(e)
            && e.spec_kind() == ErrorKind::Graph
            && e.spec_code()@ == "GRAPH_UNKNOWN_EDGE_SOURCE_NODE"@
            && e.spec_message() == "edge "@ + graph@.edges[j].id@ + " の from_node "@ + graph@.edges[j].from_node@ + " が存在しません"@),
        forall|j: int| first_unknown_edge(graph@, j) && has_key(graph@.nodes, graph@.edges[j].from_node@) ==> (r matches Err(e)
            && e.spec_kind() == ErrorKind::Graph
            && e.spec_code()@ == "GRAPH_UNKNOWN_EDGE_TARGET_NODE"@
            && e.spec_message() == "edge "@ + graph@.edges[j].id@ + " の to_node "@ + graph@.edges[j].to_node@ + " が存在しません"@),
{
    proof {
        use_type_invariant(&graph.nodes);
    }
    match sort_nodes(graph) {
        Ok(order) => {
            proof {
                assert(is_topological_order(graph@, id_views(order@)));
            }
            Ok(false)
        },
        Err(SortFailure::Cycle) => Ok(true),
        Err(failure) => {
            proof {
                assert forall|j: int| first_unknown_edge(graph@, j) implies !all_edges_known(graph@) by {
                    assert(!edge_known(graph@, j));
                }
                match failure {
                    SortFailure::UnknownSource(j0) => {
                        assert forall|j: int| first_unknown_edge(graph@, j) implies j == j0 by {
                            lemma_first_unknown_unique(graph@, j, j0 as int);
                        }
                    },
                    SortFailure::UnknownTarget(j0) => {
                        assert forall|j: int| first_unknown_edge(graph@, j) implies j == j0 by {
                            lemma_first_unknown_unique(graph@, j, j0 as int);
                        }
                    },
                    SortFailure::Cycle => {},
                }
            }
            Err(sort_error(graph, failure))
        },
    }
}


// ----------------------------------------------------------------------------
// Downstream closure

/// `k` is reached from `start` along at most `n` edges.
pub open spec fn reaches_within(edges: Seq<Edge>, start: Set<Seq<char>>, k: Seq<char>, n: nat) -> bool
    decreases n,
{
    if n == 0 {
        start.contains(k)
    } else {
        reaches_within(edges, start, k, (n - 1) as nat) || exists|j: int|
            0 <= j < edges.len() && #[trigger] edges[j].to_node@ == k && reaches_within(
                edges,
                start,
                edges[j].from_node@,
                (n - 1) as nat,
            )
    }
}

/// `k` is in `start` or reached from it along edges.
pub open spec fn reachable(edges: Seq<Edge>, start: Set<Seq<char>>, k: Seq<char>) -> bool {
    exists|n: nat| #[trigger] reaches_within(edges, start, k, n)
}

/// The nodes reachable from `start`, as a set.
pub open spec fn reachable_set(edges: Seq<Edge>, start: Set<Seq<char>>) -> Set<Seq<char>> {
    Set::new(|x: Seq<char>| reachable(edges, start, x))
}

/// Every set that holds `start` and, with the source of an edge, its target,
/// holds whatever is reached from `start` within `n` edges.
proof fn lemma_closed_set_holds_reached(edges: Seq<Edge>, start: Set<Seq<char>>, s: Set<Seq<char>>, k: Seq<char>, n: nat)
    requires
        start.subset_of(s),
        forall|j: int| 0 <= j < edges.len() && s.contains(#[trigger] edges[j].from_node@) ==> s.contains(edges[j].to_node@),
        reaches_within(edges, start, k, n),
    ensures
        s.contains(k),
    decreases n,
{
    if n > 0 {
        if reaches_within(edges, start, k, (n - 1) as nat) {
            lemma_closed_set_holds_reached(edges, start, s, k, (n - 1) as nat);
        } else {
            let j = choose|j: int| 0 <= j < edges.len() && #[trigger] edges[j].to_node@ == k && reaches_within(
                edges,
                start,
                edges[j].from_node@,
                (n - 1) as nat,
            );
            lemma_closed_set_holds_reached(edges, start, s, edges[j].from_node@, (n - 1) as nat);
        }
    }
}

/// The nodes reachable from `start` are the least set that holds `start` and is
/// closed under edges: it holds `start`, holds the target of every edge whose
/// source it holds, and lies within every other such set. So the closure of the
/// closure is the closure itself.
pub proof fn lemma_reachable_is_least_closed_set(edges: Seq<Edge>, start: Set<Seq<char>>, s: Set<Seq<char>>)
    ensures
        forall|k: Seq<char>| start.contains(k) ==> #[trigger] reachable(edges, start, k),
        forall|j: int| 0 <= j < edges.len() && reachable(edges, start, #[trigger] edges[j].from_node@) ==> reachable(
            edges,
            start,
            edges[j].to_node@,
        ),
        start.subset_of(s) && (forall|j: int| 0 <= j < edges.len() && s.contains(#[trigger] edges[j].from_node@) ==> s.contains(
            edges[j].to_node@,
        )) ==> forall|k: Seq<char>| #[trigger] reachable(edges, start, k) ==> s.contains(k),
        forall|k: Seq<char>| #[trigger] reachable(edges, reachable_set(edges, start), k) <==> reachable(
            edges,
            start,
            k,
        ),
{
    assert forall|k: Seq<char>| start.contains(k) implies #[trigger] reachable(edges, start, k) by {
        assert(reaches_within(edges, start, k, 0));
    }
    assert forall|j: int| 0 <= j < edges.len() && reachable(edges, start, #[trigger] edges[j].from_node@) implies reachable(
        edges,
        start,
        edges[j].to_node@,
    ) by {
        let n = choose|n: nat| #[trigger] reaches_within(edges, start, edges[j].from_node@, n);
        assert(reaches_within(edges, start, edges[j].to_node@, n + 1));
    }
    if start.subset_of(s) && (forall|j: int| 0 <= j < edges.len() && s.contains(#[trigger] edges[j].from_node@) ==> s.contains(
        edges[j].to_node@,
    )) {
        assert forall|k: Seq<char>| #[trigger] reachable(edges, start, k) implies s.contains(k) by {
            let n = choose|n: nat| #[trigger] reaches_within(edges, start, k, n);
            lemma_closed_set_holds_reached(edges, start, s, k, n);
        }
    }
    let r = reachable_set(edges, start);
    assert forall|j: int| 0 <= j < edges.len() && r.contains(#[trigger] edges[j].from_node@) implies r.contains(edges[j].to_node@) by {
        assert(reachable(edges, start, edges[j].from_node@));
    }
    assert forall|k: Seq<char>| #[trigger] reachable(edges, r, k) <==> reachable(edges, start, k) by {
        if reachable(edges, r, k) {
            let n = choose|n: nat| #[trigger] reaches_within(edges, r, k, n);
            lemma_closed_set_holds_reached(edges, r, r, k, n);
        }
        if reachable(edges, start, k) {
            assert(r.contains(k));
            assert(reaches_within(edges, r, k, 0));
        }
    }
}

proof fn lemma_closed_contains_reachable(edges: Seq<Edge>, start: Set<Seq<char>>, s: Seq<Seq<char>>, k: Seq<char>, n: nat)
    requires
        forall|x: Seq<char>| #[trigger] start.contains(x) ==> s.contains(x),
        forall|j: int| 0 <= j < edges.len() && s.contains(#[trigger] edges[j].from_node@) ==> s.contains(edges[j].to_node@),
        reaches_within(edges, start, k, n),
    ensures
        s.contains(k),
    decreases n,
{
    if n > 0 {
        if reaches_within(edges, start, k, (n - 1) as nat) {
            lemma_closed_contains_reachable(edges, start, s, k, (n - 1) as nat);
        } else {
            let j = choose|j: int|
                0 <= j < edges.len() && #[trigger] edges[j].to_node@ == k && reaches_within(
                    edges,
                    start,
                    edges[j].from_node@,
                    (n - 1) as nat,
                );
            lemma_closed_contains_reachable(edges, start, s, edges[j].from_node@, (n - 1) as nat);
        }
    }
}

/// A sequence without duplicates inside `cand` is no longer than `cand`.
proof fn lemma_distinct_within(vv: Seq<Seq<char>>, cand: Seq<Seq<char>>)
    requires
        vv.no_duplicates(),
        forall|x: Seq<char>| #[trigger] vv.contains(x) ==> cand.contains(x),
    ensures
        vv.len() <= cand.len(),
{
    vv.unique_seq_to_set();
    cand.lemma_cardinality_of_set();
    assert(vv.to_set().subset_of(cand.to_set()));
    lemma_len_subset(vv.to_set(), cand.to_set());
}

/// The candidates for the downstream closure: the start nodes and every edge target.
spec fn closure_candidates(edges: Seq<Edge>, start: Seq<Seq<char>>) -> Seq<Seq<char>> {
    start + edges.map_values(|e: Edge| e.to_node@)
}

/// The changed nodes and every node reachable from them along edges, as an ordered set.
pub fn downstream_nodes(graph: &Graph, changed_nodes: &[NodeId]) -> (r: Vec<NodeId>)
    ensures
        strictly_sorted(id_views(r@)),
        forall|k: Seq<char>| #[trigger] id_views(r@).contains(k) <==> reachable(graph@.edges, id_views(changed_nodes@).to_set(), k),
{
    let ghost edges = graph@.edges;
    let ghost start = id_views(changed_nodes@);
    let ghost cand = closure_candidates(edges, start);
    let mut visited: Vec<NodeId> = Vec::new();
    let mut i: usize = 0;
    while i < changed_nodes.len()
        invariant
            i <= changed_nodes@.len(),
            start == id_views(changed_nodes@),
            cand == closure_candidates(edges, start),
            id_views(visited@).no_duplicates(),
            forall|x: Seq<char>| #[trigger] id_views(visited@).contains(x) ==> start.contains(x),
            forall|a: int| 0 <= a < i ==> id_views(visited@).contains(#[trigger] start[a]),
        decreases changed_nodes@.len() - i,
    {
        let c = &changed_nodes[i];
        if !contains_id(visited.as_slice(), c) {
            let ghost before = id_views(visited@);
            visited.push(c.clone());
            proof {
                assert(id_views(visited@) =~= before.push(c@));
                assert forall|x: Seq<char>| #[trigger] id_views(visited@).contains(x) <==> (before.contains(x) || x == c@) by {
                    lemma_push_contains(before, c@, x);
                }
                assert(start[i as int] == c@);
            }
        }
        i = i + 1;
    }
    proof {
        assert forall|x: Seq<char>| #[trigger] id_views(visited@).contains(x) implies reachable(edges, start.to_set(), x) by {
            assert(reaches_within(edges, start.to_set(), x, 0));
        }
        assert forall|x: Seq<char>| #[trigger] id_views(visited@).contains(x) implies cand.contains(x) by {
            let a = choose|a: int| 0 <= a < start.len() && start[a] == x;
            assert(cand[a] == x);
        }
    }
    let m = graph.edges.len();
    let mut qi: usize = 0;
    while qi < visited.len()
        invariant
            m == edges.len(),
            edges == graph@.edges,
            cand == closure_candidates(edges, start),
            qi <= visited@.len(),
            id_views(visited@).no_duplicates(),
            forall|x: Seq<char>| #[trigger] start.contains(x) ==> id_views(visited@).contains(x),
            forall|x: Seq<char>| #[trigger] id_views(visited@).contains(x) ==> reachable(edges, start.to_set(), x),
            forall|x: Seq<char>| #[trigger] id_views(visited@).contains(x) ==> cand.contains(x),
            forall|a: int, j: int|
                #![trigger id_views(visited@)[a], edges[j]]
                0 <= a < qi && 0 <= j < m && edges[j].from_node@ == id_views(visited@)[a] ==> id_views(visited@).contains(edges[j].to_node@),
        decreases cand.len() - qi,
    {
        proof {
            lemma_distinct_within(id_views(visited@), cand);
        }
        let u = visited[qi].clone();
        let ghost uv = u@;
        assert(id_views(visited@)[qi as int] == uv);
        let mut j: usize = 0;
        while j < m
            invariant
                j <= m,
                m == edges.len(),
                edges == graph@.edges,
                cand == closure_candidates(edges, start),
                qi < visited@.len(),
                id_views(visited@)[qi as int] == uv,
                u@ == uv,
                id_views(visited@).no_duplicates(),
                forall|x: Seq<char>| #[trigger] start.contains(x) ==> id_views(visited@).contains(x),
                forall|x: Seq<char>| #[trigger] id_views(visited@).contains(x) ==> reachable(edges, start.to_set(), x),
                forall|x: Seq<char>| #[trigger] id_views(visited@).contains(x) ==> cand.contains(x),
                forall|a: int, jj: int|
                    #![trigger id_views(visited@)[a], edges[jj]]
                    0 <= a < qi && 0 <= jj < m && edges[jj].from_node@ == id_views(visited@)[a] ==> id_views(visited@).contains(edges[jj].to_node@),
                forall|jj: int| 0 <= jj < j && #[trigger] edges[jj].from_node@ == uv ==> id_views(visited@).contains(edges[jj].to_node@),
            decreases m - j,
        {
            let edge = &graph.edges[j];
            if edge.from_node == u && !contains_id(visited.as_slice(), &edge.to_node) {
                let ghost before = id_views(visited@);
                let ghost tv = edge.to_node@;
                visited.push(edge.to_node.clone());
                proof {
                    assert(id_views(visited@) =~= before.push(tv));
                    assert forall|x: Seq<char>| #[trigger] id_views(visited@).contains(x) <==> (before.contains(x) || x == tv) by {
                        lemma_push_contains(before, tv, x);
                    }
                    assert(before.contains(uv));
                    let n = choose|n: nat| #[trigger] reaches_within(edges, start.to_set(), uv, n);
                    assert(edges[j as int].to_node@ == tv);
                    assert(reaches_within(edges, start.to_set(), tv, n + 1));
                    assert(cand[start.len() + j] == tv);
                    assert forall|a: int| 0 <= a < before.len() implies id_views(visited@)[a] == before[a] by {}
                }
            }
            j = j + 1;
        }
        qi = qi + 1;
    }
    proof {
        let vv = id_views(visited@);
        assert forall|j: int| 0 <= j < edges.len() && vv.contains(#[trigger] edges[j].from_node@) implies vv.contains(edges[j].to_node@) by {
            let a = choose|a: int| 0 <= a < vv.len() && vv[a] == edges[j].from_node@;
            assert(vv[a] == edges[j].from_node@);
        }
        assert forall|k: Seq<char>| reachable(edges, start.to_set(), k) implies #[trigger] vv.contains(k) by {
            let n = choose|n: nat| #[trigger] reaches_within(edges, start.to_set(), k, n);
            lemma_closed_contains_reachable(edges, start.to_set(), vv, k, n);
        }
    }
    let mut out: Vec<NodeId> = Vec::new();
    let mut i: usize = 0;
    while i < visited.len()
        invariant
            i <= visited@.len(),
            strictly_sorted(id_views(out@)),
            forall|k: Seq<char>| #[trigger] id_views(out@).contains(k) <==> id_views(visited@.take(i as int)).contains(k),
        decreases visited@.len() - i,
    {
        let ghost before = id_views(visited@.take(i as int));
        insert_sorted(&mut out, visited[i].clone());
        proof {
            assert(id_views(visited@.take(i + 1)) =~= before.push(visited@[i as int]@));
            assert forall|k: Seq<char>| #[trigger] id_views(visited@.take(i + 1)).contains(k) <==> (before.contains(k) || k == visited@[i as int]@) by {
                lemma_push_contains(before, visited@[i as int]@, k);
            }
        }
        i = i + 1;
    }
    proof {
        assert(visited@.take(visited@.len() as int) =~= visited@);
    }
    out
}


// ----------------------------------------------------------------------------
// Validation

/// Whether a connection from a pin of type `from` to one of type `to` is allowed:
/// `Any` connects to everything, `Event` only to `Event`, other types to themselves.
pub open spec fn types_compatible(from: PinType, to: PinType) -> bool {
    if from == PinType::Any || to == PinType::Any {
        true
    } else if from == PinType::Event || to == PinType::Event {
        from == PinType::Event && to == PinType::Event
    } else {
        from == to
    }
}

/// Pin types connect as follows: `Any` connects to every type, in either
/// direction; otherwise an event connects only to an event, and a value type
/// only to the same type. So compatibility does not depend on the direction.
pub proof fn lemma_pin_type_compatibility(from: PinType, to: PinType)
    ensures
        types_compatible(PinType::Any, to),
        types_compatible(from, PinType::Any),
        types_compatible(from, to) == types_compatible(to, from),
        types_compatible(from, from),
        from != PinType::Any && to != PinType::Any ==> (types_compatible(from, to) <==> from == to),
{
}

fn pin_types_compatible(from: PinType, to: PinType) -> (r: bool)
    ensures
        r == types_compatible(from, to),
{
    if from == PinType::Any || to == PinType::Any {
        return true;
    }
    if from == PinType::Event || to == PinType::Event {
        return from == PinType::Event && to == PinType::Event;
    }
    from == to
}

/// Some pin in `pins` has id `id`.
pub open spec fn has_pin(pins: Seq<PinDef>, id: Seq<char>) -> bool {
    exists|i: int| 0 <= i < pins.len() && #[trigger] pins[i].id@ == id
}

/// The first pin in `pins` with id `id` (`pins.len()` if none).
pub open spec fn pin_index(pins: Seq<PinDef>, id: Seq<char>) -> int
    decreases pins.len(),
{
    if pins.len() == 0 {
        0
    } else if pins[0].id@ == id {
        0
    } else {
        1 + pin_index(pins.drop_first(), id)
    }
}

proof fn lemma_pin_index(pins: Seq<PinDef>, id: Seq<char>)
    ensures
        0 <= pin_index(pins, id) <= pins.len(),
        pin_index(pins, id) < pins.len() <==> has_pin(pins, id),
        pin_index(pins, id) < pins.len() ==> pins[pin_index(pins, id)].id@ == id,
        forall|j: int| 0 <= j < pin_index(pins, id) ==> pins[j].id@ != id,
    decreases pins.len(),
{
    if pins.len() > 0 && pins[0].id@ != id {
        let t = pins.drop_first();
        lemma_pin_index(t, id);
        if has_pin(pins, id) {
            let i = choose|i: int| 0 <= i < pins.len() && #[trigger] pins[i].id@ == id;
            assert(t[i - 1].id@ == id);
        }
        if has_pin(t, id) {
            let i = choose|i: int| 0 <= i < t.len() && #[trigger] t[i].id@ == id;
            assert(pins[i + 1].id@ == id);
        }
        assert forall|j: int| 0 <= j < pin_index(pins, id) implies pins[j].id@ != id by {
            if j > 0 {
                assert(pins[j] == t[j - 1]);
            }
        }
    } else if pins.len() > 0 {
        assert(pins[0].id@ == id);
    }
}

/// The first pin in `pins` with id `id`.
pub fn find_pin_def<'a>(pins: &'a [PinDef], target_id: &PinId) -> (r: Option<&'a PinDef>)
    ensures
        match r {
            Some(p) => has_pin(pins@, target_id@) && *p == pins@[pin_index(pins@, target_id@)],
            None => !has_pin(pins@, target_id@),
        },
{
    let mut i: usize = 0;
    while i < pins.len()
        invariant
            i <= pins@.len(),
            forall|j: int| 0 <= j < i ==> pins@[j].id@ != target_id@,
        decreases pins@.len() - i,
    {
        if pins[i].id == *target_id {
            proof {
                lemma_pin_index(pins@, target_id@);
            }
            return Some(&pins[i]);
        }
        i = i + 1;
    }
    proof {
        lemma_pin_index(pins@, target_id@);
    }
    None
}

/// Every input pin of `d` is an input, and every output pin an output.
pub open spec fn directions_ok(d: NodeDefView) -> bool {
    &&& forall|i: int| 0 <= i < d.inputs.len() ==> (#[trigger] d.inputs[i]).direction == Direction::Input
    &&& forall|i: int| 0 <= i < d.outputs.len() ==> (#[trigger] d.outputs[i]).direction == Direction::Output
}

/// A node entry is consistent: its key is its id, its type is registered, and the
/// type's pins have the right directions.
pub open spec fn node_ok(entry: (Seq<char>, NodeInstanceView), defs: Seq<NodeDefView>) -> bool {
    &&& entry.0 == entry.1.id
    &&& has_def(defs, entry.1.node_type)
    &&& directions_ok(def_lookup(defs, entry.1.node_type).unwrap())
}

/// The code of the first check that a node entry fails.
pub open spec fn node_error_code(entry: (Seq<char>, NodeInstanceView), defs: Seq<NodeDefView>) -> Seq<char> {
    if entry.0 != entry.1.id {
        "GRAPH_NODE_ID_MISMATCH"@
    } else if !has_def(defs, entry.1.node_type) {
        "GRAPH_UNKNOWN_NODE_TYPE"@
    } else if !(forall|i: int| 0 <= i < def_lookup(defs, entry.1.node_type).unwrap().inputs.len()
        ==> (#[trigger] def_lookup(defs, entry.1.node_type).unwrap().inputs[i]).direction == Direction::Input) {
        "GRAPH_INVALID_INPUT_DIRECTION"@
    } else {
        "GRAPH_INVALID_OUTPUT_DIRECTION"@
    }
}

/// The first pin in `pins` whose direction is not `dir` (`pins.len()` if none).
pub open spec fn first_misdirected(pins: Seq<PinDef>, dir: Direction) -> int
    decreases pins.len(),
{
    if pins.len() == 0 {
        0
    } else if pins[0].direction != dir {
        0
    } else {
        1 + first_misdirected(pins.drop_first(), dir)
    }
}

proof fn lemma_first_misdirected_none(pins: Seq<PinDef>, dir: Direction)
    requires
        forall|x: int| 0 <= x < pins.len() ==> (#[trigger] pins[x]).direction == dir,
    ensures
        first_misdirected(pins, dir) == pins.len(),
    decreases pins.len(),
{
    if pins.len() > 0 {
        let t = pins.drop_first();
        assert forall|x: int| 0 <= x < t.len() implies (#[trigger] t[x]).direction == dir by {
            assert(t[x] == pins[x + 1]);
        }
        lemma_first_misdirected_none(t, dir);
    }
}

proof fn lemma_first_misdirected(pins: Seq<PinDef>, dir: Direction, k: int)
    requires
        0 <= k < pins.len(),
        pins[k].direction != dir,
        forall|x: int| 0 <= x < k ==> (#[trigger] pins[x]).direction == dir,
    ensures
        first_misdirected(pins, dir) == k,
    decreases k,
{
    if k > 0 {
        let t = pins.drop_first();
        assert(pins[0].direction == dir);
        assert forall|x: int| 0 <= x < k - 1 implies (#[trigger] t[x]).direction == dir by {
            assert(t[x] == pins[x + 1]);
        }
        lemma_first_misdirected(t, dir, k - 1);
    }
}

/// The message of the first check that a node entry fails.
pub open spec fn node_error_message(entry: (Seq<char>, NodeInstanceView), defs: Seq<NodeDefView>) -> Seq<char> {
    let t = entry.1.node_type;
    let d = def_lookup(defs, t).unwrap();
    if entry.0 != entry.1.id {
        "nodes マップのキー "@ + entry.0 + " と NodeInstance.id "@ + entry.1.id + " が一致しません"@
    } else if !has_def(defs, t) {
        "ノード型 "@ + t + " は未登録です"@
    } else if first_misdirected(d.inputs, Direction::Input) < d.inputs.len() {
        "ノード型 "@ + t + " の入力ピン "@ + d.inputs[first_misdirected(d.inputs, Direction::Input)].id@
            + " の方向が Input ではありません"@
    } else {
        "ノード型 "@ + t + " の出力ピン "@ + d.outputs[first_misdirected(d.outputs, Direction::Output)].id@
            + " の方向が Output ではありません"@
    }
}

/// Node entry `i` is the first that fails a check.
pub open spec fn first_bad_node(g: GraphView, defs: Seq<NodeDefView>, i: int) -> bool {
    &&& 0 <= i < g.nodes.len()
    &&& !node_ok(g.nodes[i], defs)
    &&& forall|x: int| 0 <= x < i ==> #[trigger] node_ok(g.nodes[x], defs)
}

/// Every node entry passes its checks.
pub open spec fn all_nodes_ok(g: GraphView, defs: Seq<NodeDefView>) -> bool {
    forall|x: int| 0 <= x < g.nodes.len() ==> #[trigger] node_ok(g.nodes[x], defs)
}

/// The definition of the type of node `k`.
pub open spec fn def_of_node(g: GraphView, defs: Seq<NodeDefView>, k: Seq<char>) -> NodeDefView {
    def_lookup(defs, lookup(g.nodes, k).unwrap().node_type).unwrap()
}

/// Edge `j` repeats the id of an earlier edge.
pub open spec fn duplicate_edge_id(g: GraphView, j: int) -> bool {
    exists|i: int| 0 <= i < j && #[trigger] g.edges[i].id@ == g.edges[j].id@
}

/// Edge `j` feeds an input pin that an earlier edge already feeds.
pub open spec fn input_already_connected(g: GraphView, j: int) -> bool {
    exists|i: int| 0 <= i < j && #[trigger] g.edges[i].to_node@ == g.edges[j].to_node@ && g.edges[i].to_pin@ == g.edges[j].to_pin@
}

/// The type of the output pin that edge `j` leaves from.
pub open spec fn edge_from_type(g: GraphView, defs: Seq<NodeDefView>, j: int) -> PinType {
    let d = def_of_node(g, defs, g.edges[j].from_node@);
    d.outputs[pin_index(d.outputs, g.edges[j].from_pin@)].pin_type
}

/// The type of the input pin that edge `j` enters.
pub open spec fn edge_to_type(g: GraphView, defs: Seq<NodeDefView>, j: int) -> PinType {
    let d = def_of_node(g, defs, g.edges[j].to_node@);
    d.inputs[pin_index(d.inputs, g.edges[j].to_pin@)].pin_type
}

/// Edge `j` passes its checks.
pub open spec fn edge_ok(g: GraphView, defs: Seq<NodeDefView>, j: int) -> bool {
    &&& !duplicate_edge_id(g, j)
    &&& has_key(g.nodes, g.edges[j].from_node@)
    &&& has_key(g.nodes, g.edges[j].to_node@)
    &&& has_pin(def_of_node(g, defs, g.edges[j].from_node@).outputs, g.edges[j].from_pin@)
    &&& has_pin(def_of_node(g, defs, g.edges[j].to_node@).inputs, g.edges[j].to_pin@)
    &&& !input_already_connected(g, j)
    &&& types_compatible(edge_from_type(g, defs, j), edge_to_type(g, defs, j))
}

/// The code of the first check that edge `j` fails.
pub open spec fn edge_error_code(g: GraphView, defs: Seq<NodeDefView>, j: int) -> Seq<char> {
    if duplicate_edge_id(g, j) {
        "GRAPH_DUPLICATE_EDGE_ID"@
    } else if !has_key(g.nodes, g.edges[j].from_node@) {
        "GRAPH_EDGE_FROM_NODE_MISSING"@
    } else if !has_key(g.nodes, g.edges[j].to_node@) {
        "GRAPH_EDGE_TO_NODE_MISSING"@
    } else if !has_pin(def_of_node(g, defs, g.edges[j].from_node@).outputs, g.edges[j].from_pin@) {
        "GRAPH_EDGE_FROM_PIN_MISSING"@
    } else if !has_pin(def_of_node(g, defs, g.edges[j].to_node@).inputs, g.edges[j].to_pin@) {
        "GRAPH_EDGE_TO_PIN_MISSING"@
    } else if input_already_connected(g, j) {
        "GRAPH_INPUT_MULTI_CONNECTION"@
    } else {
        "GRAPH_PIN_TYPE_MISMATCH"@
    }
}

/// The name of a pin type, as it is printed.
pub open spec fn pin_type_text(t: PinType) -> Seq<char> {
    match t {
        PinType::Float => "Float"@,
        PinType::Int => "Int"@,
        PinType::Bool => "Bool"@,
        PinType::String => "String"@,
        PinType::Json => "Json"@,
        PinType::Event => "Event"@,
        PinType::Any => "Any"@,
    }
}

/// The message of the first check that edge `j` fails.
pub open spec fn edge_error_message(g: GraphView, defs: Seq<NodeDefView>, j: int) -> Seq<char> {
    let e = g.edges[j];
    if duplicate_edge_id(g, j) {
        "重複した edge id: "@ + e.id@
    } else if !has_key(g.nodes, e.from_node@) {
        "edge "@ + e.id@ + " の from_node "@ + e.from_node@ + " が存在しません"@
    } else if !has_key(g.nodes, e.to_node@) {
        "edge "@ + e.id@ + " の to_node "@ + e.to_node@ + " が存在しません"@
    } else if !has_pin(def_of_node(g, defs, e.from_node@).outputs, e.from_pin@) {
        "edge "@ + e.id@ + " の from_pin "@ + e.from_pin@ + " が存在しません"@
    } else if !has_pin(def_of_node(g, defs, e.to_node@).inputs, e.to_pin@) {
        "edge "@ + e.id@ + " の to_pin "@ + e.to_pin@ + " が存在しません"@
    } else if input_already_connected(g, j) {
        "入力ピン "@ + e.to_node@ + "."@ + e.to_pin@ + " には複数接続できません"@
    } else {
        "edge "@ + e.id@ + " の型が不一致です: "@ + pin_type_text(edge_from_type(g, defs, j)) + " -> "@
            + pin_type_text(edge_to_type(g, defs, j))
    }
}

/// Edge `j` is the first that fails a check.
pub open spec fn first_bad_edge(g: GraphView, defs: Seq<NodeDefView>, j: int) -> bool {
    &&& 0 <= j < g.edges.len()
    &&& !edge_ok(g, defs, j)
    &&& forall|x: int| 0 <= x < j ==> #[trigger] edge_ok(g, defs, x)
}

/// Every edge passes its checks.
pub open spec fn all_edges_ok(g: GraphView, defs: Seq<NodeDefView>) -> bool {
    forall|x: int| 0 <= x < g.edges.len() ==> #[trigger] edge_ok(g, defs, x)
}

/// A graph is valid against registered definitions: every node and edge passes its
/// checks, and there is no cycle.
pub open spec fn graph_valid(g: GraphView, defs: Seq<NodeDefView>) -> bool {
    &&& all_nodes_ok(g, defs)
    &&& all_edges_ok(g, defs)
    &&& has_topological_order(g)
}

/// `e` is the error with which an invalid graph `g` is refused: the code and
/// message of the first node entry that fails a check; else those of the first
/// edge that fails one; else the cycle.
pub open spec fn invalid_graph_error(g: GraphView, defs: Seq<NodeDefView>, e: AqueductError) -> bool {
    &&& e.spec_kind() == ErrorKind::Graph
    &&& forall|i: int| #[trigger] first_bad_node(g, defs, i) ==> e.spec_code()@ == node_error_code(g.nodes[i], defs)
        && e.spec_message() == node_error_message(g.nodes[i], defs)
    &&& forall|j: int| all_nodes_ok(g, defs) && #[trigger] first_bad_edge(g, defs, j) ==> e.spec_code()@ == edge_error_code(g, defs, j)
        && e.spec_message() == edge_error_message(g, defs, j)
    &&& all_nodes_ok(g, defs) && all_edges_ok(g, defs) && !has_topological_order(g) ==> e.spec_code()@ == "GRAPH_CYCLE_DETECTED"@
        && e.spec_message() == "循環を検出しました"@
}

/// Checks each node entry in order; gives, for each, the position of its type's
/// definition in the registry.
#[verifier::loop_isolation(false)]
fn collect_node_defs(graph: &Graph, registry: &NodeRegistry) -> (r: AqueductResult<Vec<usize>>)
    ensures
        match r {
            Ok(pos) => all_nodes_ok(graph@, registry@) && pos@.len() == graph@.nodes.len()
                && forall|i: int| 0 <= i < graph@.nodes.len() ==> (#[trigger] pos@[i]) == def_index(registry@, graph@.nodes[i].1.node_type)
                    && pos@[i] < registry@.len(),
            Err(e) => e.spec_kind() == ErrorKind::Graph && exists|i: int| first_bad_node(graph@, registry@, i)
                && e.spec_code()@ == node_error_code(graph@.nodes[i], registry@)
                && e.spec_message() == node_error_message(graph@.nodes[i], registry@),
        },
{
    let ghost g = graph@;
    let nodes = graph.nodes.as_slice();
    let mut pos: Vec<usize> = Vec::new();
    let mut i: usize = 0;
    while i < nodes.len()
        invariant
            g == graph@,
            i <= nodes@.len(),
            nodes@.len() == g.nodes.len(),
            forall|x: int| 0 <= x < nodes@.len() ==> (#[trigger] nodes@[x]).0@ == g.nodes[x].0 && nodes@[x].1@ == g.nodes[x].1,
            pos@.len() == i,
            forall|x: int| 0 <= x < i ==> #[trigger] node_ok(g.nodes[x], registry@),
            forall|x: int| 0 <= x < i ==> (#[trigger] pos@[x]) == def_index(registry@, g.nodes[x].1.node_type) && pos@[x] < registry@.len(),
        decreases nodes@.len() - i,
    {
        let key = &nodes[i].0;
        let node = &nodes[i].1;
        let ghost entry = g.nodes[i as int];
        if !(*key == node.id) {
            let r = Err(AqueductError::new(
                ErrorKind::Graph,
                "GRAPH_NODE_ID_MISMATCH",
                concat5("nodes マップのキー ", key.as_str(), " と NodeInstance.id ", node.id.as_str(), " が一致しません"),
            ));
            assert(first_bad_node(g, registry@, i as int));
            return r;
        }
        let d = match registry.position(node.node_type.as_str()) {
            Some(d) => d,
            None => {
                let r = Err(AqueductError::new(
                    ErrorKind::Graph,
                    "GRAPH_UNKNOWN_NODE_TYPE",
                    concat3("ノード型 ", node.node_type.as_str(), " は未登録です"),
                ));
                assert(first_bad_node(g, registry@, i as int));
                return r;
            },
        };
        let def = registry.def_at(d);
        proof {
            lemma_def_index(registry@, entry.1.node_type);
            assert(def_lookup(registry@, entry.1.node_type) == Some(def@));
        }
        let mut k: usize = 0;
        while k < def.inputs.len()
            invariant
                k <= def.inputs@.len(),
                forall|x: int| 0 <= x < k ==> (#[trigger] def.inputs@[x]).direction == Direction::Input,
            decreases def.inputs@.len() - k,
        {
            if def.inputs[k].direction != Direction::Input {
                let r = Err(AqueductError::new(
                    ErrorKind::Graph,
                    "GRAPH_INVALID_INPUT_DIRECTION",
                    concat5("ノード型 ", node.node_type.as_str(), " の入力ピン ", def.inputs[k].id.as_str(), " の方向が Input ではありません"),
                ));
                proof {
                    lemma_first_misdirected(def.inputs@, Direction::Input, k as int);
                }
                assert(first_bad_node(g, registry@, i as int));
                return r;
            }
            k = k + 1;
        }
        let mut k: usize = 0;
        while k < def.outputs.len()
            invariant
                k <= def.outputs@.len(),
                forall|x: int| 0 <= x < k ==> (#[trigger] def.outputs@[x]).direction == Direction::Output,
            decreases def.outputs@.len() - k,
        {
            if def.outputs[k].direction != Direction::Output {
                let r = Err(AqueductError::new(
                    ErrorKind::Graph,
                    "GRAPH_INVALID_OUTPUT_DIRECTION",
                    concat5("ノード型 ", node.node_type.as_str(), " の出力ピン ", def.outputs[k].id.as_str(), " の方向が Output ではありません"),
                ));
                proof {
                    lemma_first_misdirected(def.outputs@, Direction::Output, k as int);
                    lemma_first_misdirected_none(def.inputs@, Direction::Input);
                }
                assert(first_bad_node(g, registry@, i as int));
                return r;
            }
            k = k + 1;
        }
        pos.push(d);
        i = i + 1;
    }
    Ok(pos)
}


/// The name of a pin type, as it is printed.
fn pin_type_name(t: PinType) -> (r: &'static str)
    ensures
        r@ == pin_type_text(t),
{
    match t {
        PinType::Float => "Float",
        PinType::Int => "Int",
        PinType::Bool => "Bool",
        PinType::String => "String",
        PinType::Json => "Json",
        PinType::Event => "Event",
        PinType::Any => "Any",
    }
}

/// Checks each edge in order against the nodes' definitions.
#[verifier::loop_isolation(false)]
fn validate_edges(graph: &Graph, registry: &NodeRegistry, pos: &Vec<usize>) -> (r: AqueductResult<()>)
    requires
        graph.wf(),
        all_nodes_ok(graph@, registry@),
        pos@.len() == graph@.nodes.len(),
        forall|i: int| 0 <= i < graph@.nodes.len() ==> (#[trigger] pos@[i]) == def_index(registry@, graph@.nodes[i].1.node_type)
            && pos@[i] < registry@.len(),
    ensures
        match r {
            Ok(()) => all_edges_ok(graph@, registry@),
            Err(e) => e.spec_kind() == ErrorKind::Graph && exists|j: int| first_bad_edge(graph@, registry@, j)
                && e.spec_code()@ == edge_error_code(graph@, registry@, j)
                && e.spec_message() == edge_error_message(graph@, registry@, j),
        },
{
    let ghost g = graph@;
    let ghost defs = registry@;
    let m = graph.edges.len();
    let mut j: usize = 0;
    while j < m
        invariant
            j <= m,
            m == g.edges.len(),
            forall|x: int| 0 <= x < j ==> #[trigger] edge_ok(g, defs, x),
        decreases m - j,
    {
        let edge = &graph.edges[j];
        let mut i: usize = 0;
        while i < j
            invariant
                i <= j,
                forall|x: int| 0 <= x < i ==> #[trigger] g.edges[x].id@ != g.edges[j as int].id@,
            decreases j - i,
        {
            if graph.edges[i].id == edge.id {
                let r = Err(AqueductError::new(
                    ErrorKind::Graph,
                    "GRAPH_DUPLICATE_EDGE_ID",
                    concat2("重複した edge id: ", edge.id.as_str()),
                ));
                assert(duplicate_edge_id(g, j as int));
                assert(first_bad_edge(g, defs, j as int));
                return r;
            }
            i = i + 1;
        }
        assert(!duplicate_edge_id(g, j as int));
        let fi = match graph.nodes.find(&edge.from_node) {
            Some(fi) => fi,
            None => {
                let r = Err(AqueductError::new(
                    ErrorKind::Graph,
                    "GRAPH_EDGE_FROM_NODE_MISSING",
                    concat5("edge ", edge.id.as_str(), " の from_node ", edge.from_node.as_str(), " が存在しません"),
                ));
                assert(first_bad_edge(g, defs, j as int));
                return r;
            },
        };
        let ti = match graph.nodes.find(&edge.to_node) {
            Some(ti) => ti,
            None => {
                let r = Err(AqueductError::new(
                    ErrorKind::Graph,
                    "GRAPH_EDGE_TO_NODE_MISSING",
                    concat5("edge ", edge.id.as_str(), " の to_node ", edge.to_node.as_str(), " が存在しません"),
                ));
                assert(first_bad_edge(g, defs, j as int));
                return r;
            },
        };
        proof {
            lemma_key_index(g.nodes, g.edges[j as int].from_node@);
            lemma_key_index(g.nodes, g.edges[j as int].to_node@);
            assert(node_ok(g.nodes[fi as int], defs));
            assert(node_ok(g.nodes[ti as int], defs));
            lemma_def_index(defs, g.nodes[fi as int].1.node_type);
            lemma_def_index(defs, g.nodes[ti as int].1.node_type);
        }
        let from_def = registry.def_at(pos[fi]);
        let to_def = registry.def_at(pos[ti]);
        assert(from_def@ == def_of_node(g, defs, g.edges[j as int].from_node@));
        assert(to_def@ == def_of_node(g, defs, g.edges[j as int].to_node@));
        let from_pin = match find_pin_def(from_def.outputs.as_slice(), &edge.from_pin) {
            Some(p) => p,
            None => {
                let r = Err(AqueductError::new(
                    ErrorKind::Graph,
                    "GRAPH_EDGE_FROM_PIN_MISSING",
                    concat5("edge ", edge.id.as_str(), " の from_pin ", edge.from_pin.as_str(), " が存在しません"),
                ));
                assert(first_bad_edge(g, defs, j as int));
                return r;
            },
        };
        let to_pin = match find_pin_def(to_def.inputs.as_slice(), &edge.to_pin) {
            Some(p) => p,
            None => {
                let r = Err(AqueductError::new(
                    ErrorKind::Graph,
                    "GRAPH_EDGE_TO_PIN_MISSING",
                    concat5("edge ", edge.id.as_str(), " の to_pin ", edge.to_pin.as_str(), " が存在しません"),
                ));
                assert(first_bad_edge(g, defs, j as int));
                return r;
            },
        };
        let mut i: usize = 0;
        while i < j
            invariant
                i <= j,
                forall|x: int| 0 <= x < i ==> !(#[trigger] g.edges[x].to_node@ == g.edges[j as int].to_node@
                    && g.edges[x].to_pin@ == g.edges[j as int].to_pin@),
            decreases j - i,
        {
            if graph.edges[i].to_node == edge.to_node && graph.edges[i].to_pin == edge.to_pin {
                let mut message = String::from_str("入力ピン ");
                message.append(edge.to_node.as_str());
                message.append(".");
                message.append(edge.to_pin.as_str());
                message.append(" には複数接続できません");
                let r = Err(AqueductError::new(ErrorKind::Graph, "GRAPH_INPUT_MULTI_CONNECTION", message));
                assert(input_already_connected(g, j as int));
                assert(first_bad_edge(g, defs, j as int));
                return r;
            }
            i = i + 1;
        }
        assert(!input_already_connected(g, j as int));
        if !pin_types_compatible(from_pin.pin_type, to_pin.pin_type) {
            let mut message = String::from_str("edge ");
            message.append(edge.id.as_str());
            message.append(" の型が不一致です: ");
            message.append(pin_type_name(from_pin.pin_type));
            message.append(" -> ");
            message.append(pin_type_name(to_pin.pin_type));
            let r = Err(AqueductError::new(ErrorKind::Graph, "GRAPH_PIN_TYPE_MISMATCH", message));
            assert(first_bad_edge(g, defs, j as int));
            return r;
        }
        assert(edge_ok(g, defs, j as int));
        j = j + 1;
    }
    Ok(())
}

proof fn lemma_first_bad_node_unique(g: GraphView, defs: Seq<NodeDefView>, a: int, b: int)
    requires
        first_bad_node(g, defs, a),
        first_bad_node(g, defs, b),
    ensures
        a == b,
{
    if a < b {
        assert(node_ok(g.nodes[a], defs));
    } else if b < a {
        assert(node_ok(g.nodes[b], defs));
    }
}

proof fn lemma_first_bad_edge_unique(g: GraphView, defs: Seq<NodeDefView>, a: int, b: int)
    requires
        first_bad_edge(g, defs, a),
        first_bad_edge(g, defs, b),
    ensures
        a == b,
{
    if a < b {
        assert(edge_ok(g, defs, a));
    } else if b < a {
        assert(edge_ok(g, defs, b));
    }
}

/// Checks a graph against the registered node types: every node entry (in order:
/// its key is its id, its type is registered, its type's pins have the right
/// directions), then every edge (in order: a new id, existing endpoints and pins, an
/// input pin fed once, compatible types), then that there is no cycle. The error is
/// that of the first failed check.
pub fn validate_graph(graph: &Graph, registry: &NodeRegistry) -> (r: AqueductResult<()>)
    ensures
        r is Ok <==> graph_valid(graph@, registry@),
        r matches Err(e) ==> invalid_graph_error(graph@, registry@, e),
{
    proof {
        use_type_invariant(&graph.nodes);
    }
    let ghost g = graph@;
    let ghost defs = registry@;
    let pos = match collect_node_defs(graph, registry) {
        Ok(pos) => pos,
        Err(e) => {
            proof {
                let i0 = choose|i: int| first_bad_node(g, defs, i) && e.spec_code()@ == node_error_code(g.nodes[i], defs)
                    && e.spec_message() == node_error_message(g.nodes[i], defs);
                assert forall|i: int| first_bad_node(g, defs, i) implies i == i0 by {
                    lemma_first_bad_node_unique(g, defs, i, i0);
                }
                assert(!node_ok(g.nodes[i0], defs));
            }
            return Err(e);
        },
    };
    match validate_edges(graph, registry, &pos) {
        Ok(()) => {},
        Err(e) => {
            proof {
                let j0 = choose|j: int| first_bad_edge(g, defs, j) && e.spec_code()@ == edge_error_code(g, defs, j)
                    && e.spec_message() == edge_error_message(g, defs, j);
                assert forall|j: int| first_bad_edge(g, defs, j) implies j == j0 by {
                    lemma_first_bad_edge_unique(g, defs, j, j0);
                }
                assert(!edge_ok(g, defs, j0));
                assert forall|i: int| !first_bad_node(g, defs, i) by {
                    if first_bad_node(g, defs, i) {
                        assert(node_ok(g.nodes[i], defs));
                    }
                }
            }
            return Err(e);
        },
    }
    proof {
        assert forall|j: int| 0 <= j < g.edges.len() implies #[trigger] edge_known(g, j) by {
            assert(edge_ok(g, defs, j));
        }
        assert forall|i: int| !first_bad_node(g, defs, i) by {
            if first_bad_node(g, defs, i) {
                assert(node_ok(g.nodes[i], defs));
            }
        }
        assert forall|j: int| !first_bad_edge(g, defs, j) by {
            if first_bad_edge(g, defs, j) {
                assert(edge_ok(g, defs, j));
            }
        }
    }
    match topological_sort(graph) {
        Ok(_order) => Ok(()),
        Err(e) => Err(e),
    }
}

/// In a valid graph every edge joins two nodes of the graph, leaves from an
/// output pin of its source node's type and enters an input pin of its target
/// node's type; no two edges share an id, and no two edges feed the same input
/// pin of the same node. Every node's type is registered.
pub proof fn lemma_valid_graph_edges(g: GraphView, defs: Seq<NodeDefView>)
    requires
        graph_valid(g, defs),
    ensures
        forall|x: int| 0 <= x < g.nodes.len() ==> has_def(defs, (#[trigger] g.nodes[x]).1.node_type),
        forall|j: int| 0 <= j < g.edges.len() ==> has_key(g.nodes, (#[trigger] g.edges[j]).from_node@) && has_key(
            g.nodes,
            g.edges[j].to_node@,
        ),
        forall|j: int| 0 <= j < g.edges.len() ==> has_pin(def_of_node(g, defs, (#[trigger] g.edges[j]).from_node@).outputs, g.edges[j].from_pin@),
        forall|j: int| 0 <= j < g.edges.len() ==> has_pin(def_of_node(g, defs, (#[trigger] g.edges[j]).to_node@).inputs, g.edges[j].to_pin@),
        forall|i: int, j: int| 0 <= i < g.edges.len() && 0 <= j < g.edges.len() && i != j ==> (#[trigger] g.edges[i]).id@
            != (#[trigger] g.edges[j]).id@,
        forall|i: int, j: int| 0 <= i < g.edges.len() && 0 <= j < g.edges.len() && i != j ==> !((#[trigger] g.edges[i]).to_node@
            == (#[trigger] g.edges[j]).to_node@ && g.edges[i].to_pin@ == g.edges[j].to_pin@),
{
    assert forall|x: int| 0 <= x < g.nodes.len() implies has_def(defs, (#[trigger] g.nodes[x]).1.node_type) by {
        assert(node_ok(g.nodes[x], defs));
    }
    assert forall|j: int| 0 <= j < g.edges.len() implies has_key(g.nodes, (#[trigger] g.edges[j]).from_node@) && has_key(
        g.nodes,
        g.edges[j].to_node@,
    ) && has_pin(def_of_node(g, defs, g.edges[j].from_node@).outputs, g.edges[j].from_pin@) && has_pin(
        def_of_node(g, defs, g.edges[j].to_node@).inputs,
        g.edges[j].to_pin@,
    ) by {
        assert(edge_ok(g, defs, j));
    }
    assert forall|i: int, j: int| 0 <= i < g.edges.len() && 0 <= j < g.edges.len() && i != j implies (#[trigger] g.edges[i]).id@
        != (#[trigger] g.edges[j]).id@ && !(g.edges[i].to_node@ == g.edges[j].to_node@ && g.edges[i].to_pin@ == g.edges[j].to_pin@) by {
        if i < j {
            assert(edge_ok(g, defs, j));
            assert(!duplicate_edge_id(g, j));
            assert(!input_already_connected(g, j));
        } else {
            assert(edge_ok(g, defs, i));
            assert(!duplicate_edge_id(g, i));
            assert(!input_already_connected(g, i));
        }
    }
}

} // verus!
