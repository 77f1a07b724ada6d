use aqueduct::{
    apply_mutations, detect_cycle, downstream_nodes, topological_sort, validate_graph, AqueductError, AqueductResult,
    AsyncJobResult, Direction, Edge, EdgeId, ErrorKind, Graph, GraphCompiler, GraphMutation, GraphPatcher, LiveGraph,
    NodeDef, NodeEvalResult, NodeEvaluator, NodeFactory, NodeId, NodeInstance, NodeMap, NodeRegistry, PinDef, PinId,
    PinStore, PinType, PinValue, PropertyMap, ScopedPinId, SessionManager, TickDriver,
};

fn pins(entries: &[(&str, PinType)], direction: Direction) -> Vec<PinDef> {
    entries
        .iter()
        .map(|(id, pin_type)| PinDef { id: PinId::from(*id), name: (*id).to_owned(), pin_type: *pin_type, direction })
        .collect()
}

fn def(node_type: &str, inputs: &[(&str, PinType)], outputs: &[(&str, PinType)]) -> NodeDef {
    NodeDef {
        node_type: node_type.to_owned(),
        inputs: pins(inputs, Direction::Input),
        outputs: pins(outputs, Direction::Output),
        properties: Vec::new(),
    }
}

/// A node type whose evaluator always produces the same result.
struct Fixed {
    def: NodeDef,
    result: NodeEvalResult,
}

struct FixedEvaluator {
    result: NodeEvalResult,
}

impl NodeFactory for Fixed {
    fn node_def(&self) -> NodeDef {
        self.def.clone()
    }

    fn create(&self, _properties: &PropertyMap) -> AqueductResult<Box<dyn NodeEvaluator>> {
        let result = match &self.result {
            NodeEvalResult::Ready(values) => NodeEvalResult::Ready(values.clone()),
            NodeEvalResult::Spawned { job_id } => NodeEvalResult::Spawned { job_id: *job_id },
        };
        Ok(Box::new(FixedEvaluator { result }))
    }
}

impl NodeEvaluator for FixedEvaluator {
    fn evaluate(&mut self, _inputs: &[PinValue], _tick: u64) -> AqueductResult<NodeEvalResult> {
        Ok(match &self.result {
            NodeEvalResult::Ready(values) => NodeEvalResult::Ready(values.clone()),
            NodeEvalResult::Spawned { job_id } => NodeEvalResult::Spawned { job_id: *job_id },
        })
    }

    fn apply_property_patch(&mut self, _key: &str, _value: &serde_json::Value) -> AqueductResult<()> {
        Ok(())
    }
}

/// A node type that reports whether its input carries an event.
struct EventProbe;

struct EventProbeEvaluator;

impl NodeFactory for EventProbe {
    fn node_def(&self) -> NodeDef {
        def("probe", &[("in", PinType::Event)], &[("seen", PinType::Bool)])
    }

    fn create(&self, _properties: &PropertyMap) -> AqueductResult<Box<dyn NodeEvaluator>> {
        Ok(Box::new(EventProbeEvaluator))
    }
}

impl NodeEvaluator for EventProbeEvaluator {
    fn evaluate(&mut self, inputs: &[PinValue], _tick: u64) -> AqueductResult<NodeEvalResult> {
        Ok(NodeEvalResult::Ready(vec![PinValue::Bool(inputs.first() == Some(&PinValue::Event))]))
    }

    fn apply_property_patch(&mut self, _key: &str, _value: &serde_json::Value) -> AqueductResult<()> {
        Ok(())
    }
}

/// A node type whose evaluation always fails.
struct Failing;

struct FailingEvaluator;

impl NodeFactory for Failing {
    fn node_def(&self) -> NodeDef {
        def("failing", &[], &[])
    }

    fn create(&self, _properties: &PropertyMap) -> AqueductResult<Box<dyn NodeEvaluator>> {
        Ok(Box::new(FailingEvaluator))
    }
}

impl NodeEvaluator for FailingEvaluator {
    fn evaluate(&mut self, _inputs: &[PinValue], _tick: u64) -> AqueductResult<NodeEvalResult> {
        Err(AqueductError::new(ErrorKind::Node, "TEST_FAILING", "always fails".to_owned()))
    }

    fn apply_property_patch(&mut self, _key: &str, _value: &serde_json::Value) -> AqueductResult<()> {
        Ok(())
    }
}

fn fixed(node_type: &str, inputs: &[(&str, PinType)], outputs: &[(&str, PinType)], result: NodeEvalResult) -> Box<Fixed> {
    Box::new(Fixed { def: def(node_type, inputs, outputs), result })
}

fn node(id: &str, node_type: &str) -> NodeInstance {
    NodeInstance {
        id: NodeId::from(id),
        node_type: node_type.to_owned(),
        properties: PropertyMap::new(),
        position: (0, 0),
    }
}

fn edge(id: &str, from_node: &str, from_pin: &str, to_node: &str, to_pin: &str) -> Edge {
    Edge {
        id: EdgeId::from(id),
        from_node: NodeId::from(from_node),
        from_pin: PinId::from(from_pin),
        to_node: NodeId::from(to_node),
        to_pin: PinId::from(to_pin),
    }
}

fn graph(nodes: Vec<NodeInstance>, edges: Vec<Edge>) -> Graph {
    let mut map = NodeMap::new();
    for instance in nodes {
        map.insert(instance.id.clone(), instance);
    }
    Graph { nodes: map, edges }
}

fn ids(values: &[&str]) -> Vec<NodeId> {
    values.iter().map(|v| NodeId::from(*v)).collect()
}

fn scoped(node_id: &str, pin_id: &str) -> ScopedPinId {
    ScopedPinId::new(NodeId::from(node_id), PinId::from(pin_id))
}

fn code<T>(result: AqueductResult<T>) -> String {
    match result {
        Ok(_) => panic!("expected an error"),
        Err(error) => error.code().to_owned(),
    }
}

fn error_of<T>(result: AqueductResult<T>) -> AqueductError {
    match result {
        Ok(_) => panic!("expected an error"),
        Err(error) => error,
    }
}

/// Node types `src` (output `out`: Float), `dst` (input `in`: Float, output
/// `out`: Float), `flag` (input `in`: Bool) and `any` (input `in`: Any).
fn typed_registry() -> NodeRegistry {
    let mut registry = NodeRegistry::new();
    registry.register(fixed("src", &[], &[("out", PinType::Float)], NodeEvalResult::Ready(vec![PinValue::Float(1)]))).unwrap();
    registry
        .register(fixed("dst", &[("in", PinType::Float)], &[("out", PinType::Float)], NodeEvalResult::Ready(vec![PinValue::Float(2)])))
        .unwrap();
    registry.register(fixed("flag", &[("in", PinType::Bool)], &[], NodeEvalResult::Ready(Vec::new()))).unwrap();
    registry.register(fixed("any", &[("in", PinType::Any)], &[], NodeEvalResult::Ready(Vec::new()))).unwrap();
    registry
}

#[test]
fn evaluation_order_takes_the_least_ready_id() {
    let g = graph(vec![node("c", "src"), node("a", "src"), node("b", "src")], Vec::new());
    assert_eq!(topological_sort(&g).unwrap(), ids(&["a", "b", "c"]));

    let g = graph(
        vec![node("c", "src"), node("a", "dst"), node("b", "src")],
        vec![edge("e", "c", "out", "a", "in")],
    );
    assert_eq!(topological_sort(&g).unwrap(), ids(&["b", "c", "a"]));
}

#[test]
fn edges_to_missing_nodes_are_refused() {
    let g = graph(vec![node("a", "dst")], vec![edge("e1", "ghost", "out", "a", "in")]);
    let error = error_of(topological_sort(&g));
    assert_eq!(error.code(), "GRAPH_UNKNOWN_EDGE_SOURCE_NODE");
    assert_eq!(error.message(), "edge e1 の from_node ghost が存在しません");
    assert_eq!(code(detect_cycle(&g)), "GRAPH_UNKNOWN_EDGE_SOURCE_NODE");

    let g = graph(vec![node("a", "src")], vec![edge("e2", "a", "out", "ghost", "in")]);
    let error = error_of(topological_sort(&g));
    assert_eq!(error.code(), "GRAPH_UNKNOWN_EDGE_TARGET_NODE");
    assert_eq!(error.message(), "edge e2 の to_node ghost が存在しません");
}

#[test]
fn cycles_are_found_and_refused() {
    let cyclic = graph(
        vec![node("a", "dst"), node("b", "dst")],
        vec![edge("ab", "a", "out", "b", "in"), edge("ba", "b", "out", "a", "in")],
    );
    assert_eq!(code(topological_sort(&cyclic)), "GRAPH_CYCLE_DETECTED");
    assert!(detect_cycle(&cyclic).unwrap());

    let acyclic = graph(vec![node("a", "src"), node("b", "dst")], vec![edge("ab", "a", "out", "b", "in")]);
    assert!(!detect_cycle(&acyclic).unwrap());
    assert_eq!(code(validate_graph(&cyclic, &typed_registry())), "GRAPH_CYCLE_DETECTED");
}

#[test]
fn downstream_closure_follows_edges() {
    let g = graph(
        vec![node("a", "src"), node("b", "dst"), node("c", "dst"), node("d", "src"), node("e", "dst")],
        vec![edge("ab", "a", "out", "b", "in"), edge("bc", "b", "out", "c", "in"), edge("de", "d", "out", "e", "in")],
    );
    assert_eq!(downstream_nodes(&g, &ids(&["a"])), ids(&["a", "b", "c"]));
    assert_eq!(downstream_nodes(&g, &ids(&["d", "c"])), ids(&["c", "d", "e"]));
    assert_eq!(downstream_nodes(&g, &ids(&["a", "a"])), ids(&["a", "b", "c"]));
    assert!(downstream_nodes(&g, &[]).is_empty());
}

#[test]
fn validation_reports_the_first_failed_check() {
    let registry = typed_registry();
    let ok = graph(vec![node("s", "src"), node("d", "dst")], vec![edge("e", "s", "out", "d", "in")]);
    assert!(validate_graph(&ok, &registry).is_ok());

    let unknown = graph(vec![node("x", "nope")], Vec::new());
    assert_eq!(code(validate_graph(&unknown, &registry)), "GRAPH_UNKNOWN_NODE_TYPE");

    let mut mismatched = NodeMap::new();
    mismatched.insert(NodeId::from("key"), node("other", "src"));
    let mismatched = Graph { nodes: mismatched, edges: Vec::new() };
    assert_eq!(code(validate_graph(&mismatched, &registry)), "GRAPH_NODE_ID_MISMATCH");

    let duplicate = graph(
        vec![node("s", "src"), node("d", "dst"), node("d2", "dst")],
        vec![edge("e", "s", "out", "d", "in"), edge("e", "s", "out", "d2", "in")],
    );
    assert_eq!(code(validate_graph(&duplicate, &registry)), "GRAPH_DUPLICATE_EDGE_ID");

    let missing_from = graph(vec![node("d", "dst")], vec![edge("e", "s", "out", "d", "in")]);
    assert_eq!(code(validate_graph(&missing_from, &registry)), "GRAPH_EDGE_FROM_NODE_MISSING");

    let missing_to = graph(vec![node("s", "src")], vec![edge("e", "s", "out", "d", "in")]);
    assert_eq!(code(validate_graph(&missing_to, &registry)), "GRAPH_EDGE_TO_NODE_MISSING");

    let missing_pin = graph(vec![node("s", "src"), node("d", "dst")], vec![edge("e", "s", "nope", "d", "in")]);
    assert_eq!(code(validate_graph(&missing_pin, &registry)), "GRAPH_EDGE_FROM_PIN_MISSING");

    let missing_input = graph(vec![node("s", "src"), node("d", "dst")], vec![edge("e", "s", "out", "d", "nope")]);
    assert_eq!(code(validate_graph(&missing_input, &registry)), "GRAPH_EDGE_TO_PIN_MISSING");

    let twice = graph(
        vec![node("s", "src"), node("t", "src"), node("d", "dst")],
        vec![edge("e1", "s", "out", "d", "in"), edge("e2", "t", "out", "d", "in")],
    );
    assert_eq!(code(validate_graph(&twice, &registry)), "GRAPH_INPUT_MULTI_CONNECTION");

    let wrong_type = graph(vec![node("s", "src"), node("f", "flag")], vec![edge("e", "s", "out", "f", "in")]);
    assert_eq!(code(validate_graph(&wrong_type, &registry)), "GRAPH_PIN_TYPE_MISMATCH");

    let to_any = graph(vec![node("s", "src"), node("x", "any")], vec![edge("e", "s", "out", "x", "in")]);
    assert!(validate_graph(&to_any, &registry).is_ok());

    let mut bad_registry = NodeRegistry::new();
    let mut twisted = def("twisted.in", &[("in", PinType::Float)], &[]);
    twisted.inputs[0].direction = Direction::Output;
    bad_registry.register(Box::new(Fixed { def: twisted, result: NodeEvalResult::Ready(Vec::new()) })).unwrap();
    let g = graph(vec![node("t", "twisted.in")], Vec::new());
    assert_eq!(code(validate_graph(&g, &bad_registry)), "GRAPH_INVALID_INPUT_DIRECTION");
}

#[test]
fn mutations_are_applied_in_order_and_refused_when_they_do_not_fit() {
    let base = || graph(vec![node("s", "src"), node("d", "dst")], vec![edge("e", "s", "out", "d", "in")]);

    let mut g = base();
    let error = error_of(apply_mutations(&mut g, &[GraphMutation::AddNode { instance: node("s", "src") }]));
    assert_eq!(error.code(), "PATCH_DUPLICATE_NODE_ID");
    assert_eq!(error.message(), "既に存在する node id です: s");

    let mut g = base();
    assert_eq!(code(apply_mutations(&mut g, &[GraphMutation::RemoveNode { id: NodeId::from("x") }])), "PATCH_REMOVE_NODE_NOT_FOUND");
    let mut g = base();
    assert_eq!(
        code(apply_mutations(&mut g, &[GraphMutation::AddEdge { edge: edge("e", "s", "out", "d", "in") }])),
        "PATCH_DUPLICATE_EDGE_ID"
    );
    let mut g = base();
    assert_eq!(code(apply_mutations(&mut g, &[GraphMutation::RemoveEdge { id: EdgeId::from("x") }])), "PATCH_REMOVE_EDGE_NOT_FOUND");
    let mut g = base();
    assert_eq!(
        code(apply_mutations(
            &mut g,
            &[GraphMutation::UpdateProperty {
                node_id: NodeId::from("x"),
                key: "k".to_owned(),
                value: serde_json::Value::from(1),
            }]
        )),
        "PATCH_PROPERTY_NODE_NOT_FOUND"
    );

    let mut g = base();
    let changed = apply_mutations(&mut g, &[GraphMutation::RemoveNode { id: NodeId::from("s") }]).unwrap();
    assert_eq!(changed, ids(&["s"]));
    assert!(g.edges.is_empty());
    assert!(!g.nodes.contains_key(&NodeId::from("s")));

    let mut g = base();
    let changed = apply_mutations(&mut g, &[GraphMutation::RemoveEdge { id: EdgeId::from("e") }]).unwrap();
    assert_eq!(changed, ids(&["d", "s"]));
    assert!(g.edges.is_empty());

    let mut g = base();
    let result = apply_mutations(
        &mut g,
        &[
            GraphMutation::AddNode { instance: node("n", "src") },
            GraphMutation::RemoveNode { id: NodeId::from("missing") },
            GraphMutation::AddNode { instance: node("m", "src") },
        ],
    );
    assert_eq!(code(result), "PATCH_REMOVE_NODE_NOT_FOUND");
    assert!(g.nodes.contains_key(&NodeId::from("n")));
    assert!(!g.nodes.contains_key(&NodeId::from("m")));
}

#[test]
fn registry_refuses_blank_and_repeated_names() {
    let mut registry = NodeRegistry::new();
    assert_eq!(code(registry.register(fixed("  ", &[], &[], NodeEvalResult::Ready(Vec::new())))), "REGISTRY_EMPTY_TYPE_NAME");
    registry.register(fixed("b.node", &[], &[], NodeEvalResult::Ready(Vec::new()))).unwrap();
    registry.register(fixed("a.node", &[], &[], NodeEvalResult::Ready(Vec::new()))).unwrap();
    let error = error_of(registry.register(fixed("b.node", &[], &[], NodeEvalResult::Ready(Vec::new()))));
    assert_eq!(error.code(), "REGISTRY_DUPLICATE_TYPE");
    assert_eq!(error.message(), "既に登録済みのノード型です: b.node");
    let listed: Vec<String> = registry.list_node_defs().into_iter().map(|d| d.node_type).collect();
    assert_eq!(listed, vec!["a.node".to_owned(), "b.node".to_owned()]);
    assert!(registry.get("a.node").is_some());
    assert!(registry.get("c.node").is_none());
    assert_eq!(registry.node_def("a.node").map(|d| d.node_type.clone()), Some("a.node".to_owned()));
    assert_eq!(code(registry.load_wasm_plugin("plugin.wasm")), "REGISTRY_WASM_NOT_AVAILABLE");
}

#[test]
fn a_fresh_store_holds_each_value_pin_at_its_default() {
    let mut registry = NodeRegistry::new();
    registry
        .register(fixed(
            "mixed",
            &[("f", PinType::Float), ("s", PinType::String), ("ev", PinType::Event)],
            &[("b", PinType::Bool), ("any", PinType::Any)],
            NodeEvalResult::Ready(Vec::new()),
        ))
        .unwrap();
    let g = graph(vec![node("m", "mixed")], Vec::new());
    let store = PinStore::from_graph(&g, &registry).unwrap();
    assert_eq!(store.get_value(&scoped("m", "f")), Some(&PinValue::Float(0)));
    assert_eq!(store.get_value(&scoped("m", "s")), Some(&PinValue::String(String::new())));
    assert_eq!(store.get_value(&scoped("m", "b")), Some(&PinValue::Bool(false)));
    assert_eq!(store.get_value(&scoped("m", "any")), Some(&PinValue::Nothing));
    assert_eq!(store.get_value(&scoped("m", "ev")), None);
    assert_eq!(store.value_entries().len(), 4);

    let unknown = graph(vec![node("x", "nope")], Vec::new());
    assert_eq!(code(PinStore::from_graph(&unknown, &registry)), "PIN_STORE_NODE_DEF_MISSING");
}

#[test]
fn read_after_write_and_other_pins_keep_their_values() {
    let mut store = PinStore::new();
    store.set_value(scoped("n", "a"), PinValue::Int(1));
    store.set_value(scoped("n", "b"), PinValue::Int(2));
    store.set_value(scoped("n", "a"), PinValue::Int(3));
    assert_eq!(store.get_value(&scoped("n", "a")), Some(&PinValue::Int(3)));
    assert_eq!(store.get_value(&scoped("n", "b")), Some(&PinValue::Int(2)));
    store.set_value_if_present(&scoped("n", "c"), PinValue::Int(9));
    assert!(!store.contains_value_pin(&scoped("n", "c")));
    store.set_value_if_present(&scoped("n", "b"), PinValue::Int(9));
    assert_eq!(store.get_value(&scoped("n", "b")), Some(&PinValue::Int(9)));
}

#[test]
fn events_reach_downstream_nodes_and_are_cleared_after_the_tick() {
    let mut registry = NodeRegistry::new();
    registry.register(fixed("pulse", &[], &[("fire", PinType::Event)], NodeEvalResult::Ready(vec![PinValue::Event]))).unwrap();
    registry.register(Box::new(EventProbe)).unwrap();
    let g = graph(vec![node("p", "pulse"), node("q", "probe")], vec![edge("e", "p", "fire", "q", "in")]);
    let mut compiled = GraphCompiler::new(&registry).compile(&g, 0).unwrap();
    compiled.tick(0).unwrap();
    assert_eq!(compiled.pin_value(&scoped("q", "seen")), Some(PinValue::Bool(true)));
    assert!(!compiled.is_event_fired(&scoped("p", "fire")));
}

#[test]
fn outputs_that_do_not_match_the_pins_are_refused() {
    let mut registry = NodeRegistry::new();
    registry
        .register(fixed("pair", &[], &[("x", PinType::Int), ("y", PinType::Int)], NodeEvalResult::Ready(vec![PinValue::Int(1)])))
        .unwrap();
    let g = graph(vec![node("p", "pair")], Vec::new());
    let mut compiled = GraphCompiler::new(&registry).compile(&g, 0).unwrap();
    let error = error_of(compiled.tick(0));
    assert_eq!(error.code(), "COMPILED_OUTPUT_LENGTH_MISMATCH");
    assert_eq!(error.message(), "ノード p の出力数が一致しません: expected=2, actual=1");
}

#[test]
fn jobs_are_registered_once_and_taken_once() {
    let mut registry = NodeRegistry::new();
    registry.register(fixed("job", &[], &[("out", PinType::Int)], NodeEvalResult::Spawned { job_id: 7 })).unwrap();
    let g = graph(vec![node("w", "job")], Vec::new());
    let mut compiled = GraphCompiler::new(&registry).compile(&g, 3).unwrap();
    compiled.tick(0).unwrap();
    assert_eq!(compiled.pending_job_count(), 1);

    let error = error_of(compiled.tick(1));
    assert_eq!(error.code(), "COMPILED_ASYNC_JOB_DUPLICATE");
    assert_eq!(error.message(), "重複した job_id を検出しました: 7");

    let result = |tick_spawned: u64, node: &str| AsyncJobResult {
        job_id: 7,
        node_id: NodeId::from(node),
        tick_spawned,
        outputs: vec![PinValue::Int(5)],
    };
    assert!(!compiled.complete_job(result(1, "w")));
    assert!(!compiled.complete_job(result(0, "other")));
    assert!(compiled.complete_job(result(0, "w")));
    assert!(!compiled.complete_job(result(0, "w")));
    assert_eq!(compiled.pending_job_count(), 0);
    compiled.drain_completed_jobs().unwrap();
    assert_eq!(compiled.pin_value(&scoped("w", "out")), Some(PinValue::Int(5)));
}

#[test]
fn carried_values_skip_affected_nodes() {
    let mut registry = NodeRegistry::new();
    registry.register(fixed("n", &[], &[("out", PinType::Int)], NodeEvalResult::Ready(vec![PinValue::Int(1)]))).unwrap();
    let g = graph(vec![node("a", "n"), node("b", "n")], Vec::new());
    let mut previous = PinStore::new();
    previous.set_value(scoped("a", "out"), PinValue::Int(10));
    previous.set_value(scoped("b", "out"), PinValue::Int(20));
    previous.set_value(scoped("gone", "out"), PinValue::Int(30));

    let mut compiled = GraphCompiler::new(&registry).compile(&g, 1).unwrap();
    compiled.copy_pin_values_from(&previous, &ids(&["b"]));
    assert_eq!(compiled.pin_value(&scoped("a", "out")), Some(PinValue::Int(10)));
    assert_eq!(compiled.pin_value(&scoped("b", "out")), Some(PinValue::Int(0)));
    assert_eq!(compiled.pin_value(&scoped("gone", "out")), None);
}

#[test]
fn property_patch_of_a_missing_node_is_refused() {
    let mut registry = NodeRegistry::new();
    registry.register(fixed("n", &[], &[], NodeEvalResult::Ready(Vec::new()))).unwrap();
    let g = graph(vec![node("a", "n")], Vec::new());
    let compiled = GraphCompiler::new(&registry).compile(&g, 4).unwrap();
    let mut live = LiveGraph::new(compiled);
    let patcher = GraphPatcher::new(&registry);
    let mutation = GraphMutation::UpdateProperty {
        node_id: NodeId::from("b"),
        key: "k".to_owned(),
        value: serde_json::Value::from(1),
    };
    let error = error_of(patcher.patch_live_graph(&mut live, &[mutation]));
    assert_eq!(error.code(), "COMPILED_PROPERTY_TARGET_MISSING");
    assert_eq!(live.snapshot().graph_rev(), 4);

    let empty = patcher.patch_live_graph(&mut live, &[]).unwrap();
    assert!(empty.affected_nodes.is_empty());
    assert_eq!(empty.graph_rev, 4);

    let invalid = GraphMutation::AddNode { instance: node("x", "unknown") };
    assert_eq!(code(patcher.patch_live_graph(&mut live, &[invalid])), "GRAPH_UNKNOWN_NODE_TYPE");
    assert_eq!(live.snapshot().graph_rev(), 4);
    assert_eq!(live.snapshot().eval_order(), ids(&["a"]).as_slice());
}

#[test]
fn structural_patch_reports_the_downstream_nodes() {
    let mut registry = NodeRegistry::new();
    registry.register(fixed("src", &[], &[("out", PinType::Int)], NodeEvalResult::Ready(vec![PinValue::Int(1)]))).unwrap();
    registry
        .register(fixed("dst", &[("in", PinType::Int)], &[("out", PinType::Int)], NodeEvalResult::Ready(vec![PinValue::Int(2)])))
        .unwrap();
    let g = graph(vec![node("a", "src"), node("b", "dst"), node("c", "dst")], vec![edge("bc", "b", "out", "c", "in")]);
    let mut live = LiveGraph::new(GraphCompiler::new(&registry).compile(&g, 0).unwrap());
    let patcher = GraphPatcher::new(&registry);
    let report = patcher.patch_live_graph(&mut live, &[GraphMutation::AddEdge { edge: edge("ab", "a", "out", "b", "in") }]).unwrap();
    assert_eq!(report.affected_nodes, ids(&["a", "b", "c"]));
    assert_eq!(report.graph_rev, 1);
}

#[test]
fn a_failed_tick_does_not_advance_the_driver() {
    let mut registry = NodeRegistry::new();
    registry.register(Box::new(Failing)).unwrap();
    let g = graph(vec![node("f", "failing")], Vec::new());
    let mut live = LiveGraph::new(GraphCompiler::new(&registry).compile(&g, 0).unwrap());
    let mut driver = TickDriver::new();
    assert_eq!(code(driver.run_tick(&mut live)), "TEST_FAILING");
    assert_eq!(driver.next_tick(), 0);

    let mut empty = LiveGraph::new(GraphCompiler::new(&registry).compile(&Graph::default(), 0).unwrap());
    assert_eq!(driver.run_tick(&mut empty).unwrap(), 0);
    assert_eq!(driver.run_tick(&mut empty).unwrap(), 1);
    assert_eq!(driver.next_tick(), 2);
}

#[test]
fn collecting_twice_from_the_same_store_sends_nothing_new() {
    let mut manager = SessionManager::new();
    manager.add_session("s").unwrap();
    manager.subscribe_pins("s", &[PinId::from("out")]).unwrap();
    let mut store = PinStore::new();
    store.set_value(scoped("a", "out"), PinValue::Int(1));
    store.set_value(scoped("a", "other"), PinValue::Int(2));

    let first = manager.collect_pin_diffs(&store).unwrap();
    assert_eq!(first.len(), 1);
    assert_eq!(first[0].values, vec![(PinId::from("out"), PinValue::Int(1))]);
    assert!(manager.collect_pin_diffs(&store).unwrap().is_empty());

    store.set_value(scoped("a", "out"), PinValue::Int(3));
    let changed = manager.collect_pin_diffs(&store).unwrap();
    assert_eq!(changed[0].values, vec![(PinId::from("out"), PinValue::Int(3))]);

    manager.unsubscribe_pins("s", &[PinId::from("out")]).unwrap();
    assert!(manager.collect_pin_diffs(&store).unwrap().is_empty());
    manager.subscribe_pins("s", &[PinId::from("out")]).unwrap();
    assert_eq!(manager.collect_pin_diffs(&store).unwrap().len(), 1);

    assert_eq!(code(manager.unsubscribe_pins("nobody", &[])), "SESSION_MANAGER_SESSION_NOT_FOUND");
}

#[test]
fn errors_read_as_code_and_message() {
    let error = AqueductError::new(ErrorKind::Patch, "SOME_CODE", "some message".to_owned());
    assert_eq!(error.kind(), ErrorKind::Patch);
    assert_eq!(error.to_text(), "SOME_CODE: some message");
}

#[test]
fn node_ids_order_by_their_bytes() {
    assert!(NodeId::from("a").less_than(&NodeId::from("b")));
    assert!(NodeId::from("Z").less_than(&NodeId::from("a")));
    assert!(NodeId::from("ab").less_than(&NodeId::from("b")));
    assert!(NodeId::from("a").less_than(&NodeId::from("ab")));
    assert!(NodeId::from("z").less_than(&NodeId::from("é")));
    assert!(!NodeId::from("a").less_than(&NodeId::from("a")));
    assert_eq!(NodeId::new("x"), NodeId::from("x".to_owned()));
}

#[test]
fn float_values_compare_as_doubles_do() {
    let nan = f64::NAN.to_bits();
    assert!(PinValue::Float(nan) != PinValue::Float(nan));
    assert!(PinValue::Float(0.0f64.to_bits()) == PinValue::Float((-0.0f64).to_bits()));
    assert!(PinValue::Float(1.5f64.to_bits()) == PinValue::Float(1.5f64.to_bits()));
    assert!(PinValue::Float(1.5f64.to_bits()) != PinValue::Float(2.5f64.to_bits()));
    assert!(aqueduct::model::float_equal(f64::INFINITY.to_bits(), f64::INFINITY.to_bits()));
    assert!(!aqueduct::model::float_equal(f64::INFINITY.to_bits(), f64::NEG_INFINITY.to_bits()));
}

fn message<T>(result: AqueductResult<T>) -> String {
    error_of(result).message().to_owned()
}

#[test]
fn validation_messages_name_what_failed() {
    let registry = typed_registry();
    let unknown = graph(vec![node("x", "nope")], Vec::new());
    assert_eq!(message(validate_graph(&unknown, &registry)), "ノード型 nope は未登録です");

    let mut mismatched = NodeMap::new();
    mismatched.insert(NodeId::from("key"), node("other", "src"));
    let mismatched = Graph { nodes: mismatched, edges: Vec::new() };
    assert_eq!(
        message(validate_graph(&mismatched, &registry)),
        "nodes マップのキー key と NodeInstance.id other が一致しません"
    );

    let duplicate = graph(
        vec![node("s", "src"), node("d", "dst"), node("d2", "dst")],
        vec![edge("e", "s", "out", "d", "in"), edge("e", "s", "out", "d2", "in")],
    );
    assert_eq!(message(validate_graph(&duplicate, &registry)), "重複した edge id: e");

    let missing_from = graph(vec![node("d", "dst")], vec![edge("e", "s", "out", "d", "in")]);
    assert_eq!(message(validate_graph(&missing_from, &registry)), "edge e の from_node s が存在しません");

    let missing_pin = graph(vec![node("s", "src"), node("d", "dst")], vec![edge("e", "s", "nope", "d", "in")]);
    assert_eq!(message(validate_graph(&missing_pin, &registry)), "edge e の from_pin nope が存在しません");

    let missing_input = graph(vec![node("s", "src"), node("d", "dst")], vec![edge("e", "s", "out", "d", "nope")]);
    assert_eq!(message(validate_graph(&missing_input, &registry)), "edge e の to_pin nope が存在しません");

    let twice = graph(
        vec![node("s", "src"), node("t", "src"), node("d", "dst")],
        vec![edge("e1", "s", "out", "d", "in"), edge("e2", "t", "out", "d", "in")],
    );
    assert_eq!(message(validate_graph(&twice, &registry)), "入力ピン d.in には複数接続できません");

    let wrong_type = graph(vec![node("s", "src"), node("f", "flag")], vec![edge("e", "s", "out", "f", "in")]);
    assert_eq!(message(validate_graph(&wrong_type, &registry)), "edge e の型が不一致です: Float -> Bool");

    let cyclic = graph(
        vec![node("a", "dst"), node("b", "dst")],
        vec![edge("ab", "a", "out", "b", "in"), edge("ba", "b", "out", "a", "in")],
    );
    assert_eq!(message(validate_graph(&cyclic, &registry)), "循環を検出しました");

    let mut bad_registry = NodeRegistry::new();
    let mut twisted = def("twisted.out", &[("in", PinType::Float)], &[("a", PinType::Float), ("b", PinType::Float)]);
    twisted.outputs[1].direction = Direction::Input;
    bad_registry.register(Box::new(Fixed { def: twisted, result: NodeEvalResult::Ready(Vec::new()) })).unwrap();
    let g = graph(vec![node("t", "twisted.out")], Vec::new());
    let error = error_of(validate_graph(&g, &bad_registry));
    assert_eq!(error.code(), "GRAPH_INVALID_OUTPUT_DIRECTION");
    assert_eq!(error.message(), "ノード型 twisted.out の出力ピン b の方向が Output ではありません");
}

#[test]
fn compiling_twice_gives_the_same_plan() {
    let registry = typed_registry();
    let g = graph(
        vec![node("z", "src"), node("m", "dst"), node("a", "src")],
        vec![edge("e", "z", "out", "m", "in")],
    );
    let compiler = GraphCompiler::new(&registry);
    let first = compiler.compile(&g, 3).unwrap();
    let second = compiler.compile(&g, 3).unwrap();
    assert_eq!(first.eval_order(), second.eval_order());
    assert_eq!(first.eval_order().to_vec(), ids(&["a", "z", "m"]));
    assert_eq!(first.graph_rev(), second.graph_rev());
    assert_eq!(first.pin_store_snapshot().value_entries().len(), second.pin_store_snapshot().value_entries().len());
}

#[test]
fn a_structural_patch_drops_jobs_started_before_it() {
    let mut registry = NodeRegistry::new();
    registry.register(fixed("job", &[], &[("out", PinType::Int)], NodeEvalResult::Spawned { job_id: 9 })).unwrap();
    registry.register(fixed("n", &[], &[("out", PinType::Int)], NodeEvalResult::Ready(vec![PinValue::Int(4)]))).unwrap();
    let g = graph(vec![node("w", "job")], Vec::new());
    let mut live = LiveGraph::new(GraphCompiler::new(&registry).compile(&g, 0).unwrap());
    live.tick(0).unwrap();
    assert_eq!(live.snapshot().pending_job_count(), 1);

    let patcher = GraphPatcher::new(&registry);
    let report = patcher.patch_live_graph(&mut live, &[GraphMutation::AddNode { instance: node("x", "n") }]).unwrap();
    assert_eq!(report.graph_rev, 1);
    assert_eq!(live.snapshot().pending_job_count(), 0);
    let stale = AsyncJobResult { job_id: 9, node_id: NodeId::from("w"), tick_spawned: 0, outputs: vec![PinValue::Int(5)] };
    assert!(!live.with_graph_mut().complete_job(stale));
}

#[test]
fn a_patch_keeps_the_values_of_unaffected_pins() {
    let mut registry = NodeRegistry::new();
    registry.register(fixed("n", &[], &[("out", PinType::Int)], NodeEvalResult::Ready(vec![PinValue::Int(8)]))).unwrap();
    let g = graph(vec![node("a", "n")], Vec::new());
    let mut live = LiveGraph::new(GraphCompiler::new(&registry).compile(&g, 0).unwrap());
    live.tick(0).unwrap();
    assert_eq!(live.snapshot().pin_value(&scoped("a", "out")), Some(PinValue::Int(8)));

    let patcher = GraphPatcher::new(&registry);
    let report = patcher.patch_live_graph(&mut live, &[GraphMutation::AddNode { instance: node("b", "n") }]).unwrap();
    assert_eq!(report.affected_nodes, ids(&["b"]));
    assert_eq!(live.snapshot().pin_value(&scoped("a", "out")), Some(PinValue::Int(8)));
    assert_eq!(live.snapshot().pin_value(&scoped("b", "out")), Some(PinValue::Int(0)));
}

#[test]
fn sessions_subscribe_independently() {
    let mut manager = SessionManager::new();
    manager.add_session("one").unwrap();
    manager.add_session("two").unwrap();
    manager.subscribe_pins("one", &[PinId::from("out")]).unwrap();
    assert_eq!(manager.subscribed_pins("one").unwrap().unwrap().len(), 1);
    assert_eq!(manager.subscribed_pins("two").unwrap().unwrap().len(), 0);

    let mut store = PinStore::new();
    store.set_value(scoped("a", "out"), PinValue::Int(1));
    let diffs = manager.collect_pin_diffs(&store).unwrap();
    assert_eq!(diffs.len(), 1);
    assert_eq!(diffs[0].session_id, "one");

    manager.unsubscribe_pins("two", &[PinId::from("out")]).unwrap();
    assert_eq!(manager.subscribed_pins("one").unwrap().unwrap().len(), 1);
}

#[test]
fn time_elapsed_counts_from_its_start_tick() {
    let factory = aqueduct::nodes::TimeElapsedFactory;
    let def = factory.definition();
    assert_eq!(def.node_type, "time.elapsed");
    assert_eq!(def.properties[0].key, "start_tick");
    assert_eq!(def.properties[0].default_value, serde_json::Value::from(0u64));

    let mut properties = PropertyMap::new();
    properties.insert("start_tick".to_owned(), serde_json::Value::from(5u64));
    let mut evaluator = factory.evaluator(&properties).unwrap();
    assert_eq!(evaluator.elapsed(3), 0);
    assert_eq!(evaluator.elapsed(12), 7);
    let error = error_of(evaluator.set_property("start_tick", &serde_json::Value::from(-1)));
    assert_eq!(error.code(), "TIME_ELAPSED_INVALID_START_TICK");
    assert_eq!(error.message(), "start_tick は 0 以上の整数である必要があります");
    assert_eq!(evaluator.start_tick, 5);
}

#[test]
fn adding_then_removing_a_fresh_node_or_edge_leaves_the_graph() {
    let base = || graph(vec![node("s", "src"), node("d", "dst")], vec![edge("e", "s", "out", "d", "in")]);

    let mut g = base();
    apply_mutations(
        &mut g,
        &[GraphMutation::AddNode { instance: node("n", "src") }, GraphMutation::RemoveNode { id: NodeId::from("n") }],
    )
    .expect("accepted");
    assert_eq!(g, base());

    let mut g = base();
    apply_mutations(
        &mut g,
        &[GraphMutation::AddEdge { edge: edge("f", "d", "out", "s", "in") }, GraphMutation::RemoveEdge { id: EdgeId::from("f") }],
    )
    .expect("accepted");
    assert_eq!(g, base());
}
