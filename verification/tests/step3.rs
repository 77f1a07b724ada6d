use aqueduct::nodes::{convert_factories, logic_factories, string_factories, time_factories, TimeElapsedFactory};
use aqueduct::{
    run_tick_and_collect_diffs, AqueductResult, ClientEnvelope, ClientMessage, Direction, Graph, GraphCompiler,
    GraphMutation, LiveGraph, MessageDispatcher, NodeDef, NodeEvalResult, NodeEvaluator, NodeFactory, NodeId,
    NodeInstance, NodeMap, NodeRegistry, PinDef, PinId, PinType, PinValue, PropertyMap, RuntimeState, ServerEnvelope,
    ServerMessage, SessionManager, TickDriver, PROTOCOL_VERSION,
};

struct MathAddFactory;

impl NodeFactory for MathAddFactory {
    fn node_def(&self) -> NodeDef {
        let pin = |id: &str, direction: Direction| PinDef {
            id: PinId::from(id),
            name: id.to_owned(),
            pin_type: PinType::Float,
            direction,
        };
        NodeDef {
            node_type: "math.add".to_owned(),
            inputs: vec![pin("a", Direction::Input), pin("b", Direction::Input)],
            outputs: vec![pin("out", Direction::Output)],
            properties: Vec::new(),
        }
    }

    fn create(&self, _properties: &PropertyMap) -> AqueductResult<Box<dyn NodeEvaluator>> {
        Ok(Box::new(MathAddEvaluator))
    }
}

struct MathAddEvaluator;

impl NodeEvaluator for MathAddEvaluator {
    fn evaluate(&mut self, inputs: &[PinValue], _tick: u64) -> AqueductResult<NodeEvalResult> {
        let value = |index: usize| match inputs.get(index) {
            Some(PinValue::Float(bits)) => f64::from_bits(*bits),
            _ => 0.0,
        };
        Ok(NodeEvalResult::Ready(vec![PinValue::Float((value(0) + value(1)).to_bits())]))
    }

    fn apply_property_patch(&mut self, _key: &str, _value: &serde_json::Value) -> AqueductResult<()> {
        Ok(())
    }
}

#[test]
fn test_session_manager_subscribe_unsubscribe() {
    let mut manager = SessionManager::new();
    must_ok(manager.add_session("session-a"));

    must_ok(manager.subscribe_pins("session-a", &[PinId::from("out"), PinId::from("tick")]));
    let subscribed = must_some(must_ok(manager.subscribed_pins("session-a")));
    assert!(subscribed.iter().any(|scoped| scoped.pin_id == PinId::from("out")));
    assert!(subscribed.iter().any(|scoped| scoped.pin_id == PinId::from("tick")));

    must_ok(manager.unsubscribe_pins("session-a", &[PinId::from("out")]));
    let subscribed = must_some(must_ok(manager.subscribed_pins("session-a")));
    assert!(!subscribed.iter().any(|scoped| scoped.pin_id == PinId::from("out")));
    assert!(subscribed.iter().any(|scoped| scoped.pin_id == PinId::from("tick")));

    must_ok(manager.remove_session("session-a"));
    assert!(must_ok(manager.subscribed_pins("session-a")).is_none());
}

#[test]
fn test_dispatcher_handshake() {
    let mut dispatcher = must_ok(build_dispatcher());
    must_ok(dispatcher.add_session("session-hs"));
    let inbound = vec![ClientEnvelope {
        request_id: 1,
        body: ClientMessage::Handshake { protocol_version: PROTOCOL_VERSION.to_owned() },
    }];

    let sent = must_ok(pump_session(&mut dispatcher, "session-hs", inbound));
    assert_eq!(sent.len(), 1);

    let response = &sent[0];
    assert_eq!(response.request_id, Some(1));
    assert_eq!(response.graph_rev, 0);
    assert_eq!(response.body, ServerMessage::Handshake { protocol_version: PROTOCOL_VERSION.to_owned() });
}

#[test]
fn test_dispatcher_registry_list() {
    let mut dispatcher = must_ok(build_dispatcher());
    must_ok(dispatcher.add_session("session-reg"));

    let response = must_some(must_ok(
        dispatcher.dispatch("session-reg", ClientEnvelope { request_id: 2, body: ClientMessage::RegistryList }),
    ));
    assert_eq!(response.request_id, Some(2));

    let ServerMessage::RegistryNodes { defs } = response.body else {
        panic!("registry.nodes 以外のメッセージを受信しました");
    };
    assert!(
        defs.iter().any(|def| def.node_type == "math.add"),
        "registry.list の結果に `math.add` が含まれていません"
    );
}

#[test]
fn test_dispatcher_graph_load_and_compile() {
    let mut dispatcher = must_ok(build_dispatcher());
    must_ok(dispatcher.add_session("session-graph"));

    let graph = graph_with_nodes(vec![node_instance("adder", "math.add")]);
    let loaded = must_some(must_ok(dispatcher.dispatch(
        "session-graph",
        ClientEnvelope { request_id: 10, body: ClientMessage::GraphLoad { graph: graph.clone() } },
    )));
    assert_eq!(loaded.request_id, Some(10));
    assert_eq!(loaded.graph_rev, 1);

    let ServerMessage::GraphCompiled { eval_order, warnings } = loaded.body else {
        panic!("graph.compiled 以外のメッセージを受信しました");
    };
    assert_eq!(warnings, Vec::<String>::new());
    assert_eq!(eval_order, vec![NodeId::from("adder")]);

    let compiled = must_some(must_ok(
        dispatcher.dispatch("session-graph", ClientEnvelope { request_id: 11, body: ClientMessage::GraphCompile }),
    ));
    assert_eq!(compiled.request_id, Some(11));
    assert_eq!(compiled.graph_rev, 2);

    let ServerMessage::GraphCompiled { eval_order, warnings } = compiled.body else {
        panic!("graph.compiled 以外のメッセージを受信しました");
    };
    assert_eq!(warnings, Vec::<String>::new());
    assert_eq!(eval_order, vec![NodeId::from("adder")]);
}

#[test]
fn test_dispatcher_graph_mutate() {
    let mut dispatcher = must_ok(build_dispatcher());
    must_ok(dispatcher.add_session("session-mutate"));

    let initial = graph_with_nodes(vec![node_instance("adder", "math.add")]);
    let _ = must_some(must_ok(dispatcher.dispatch(
        "session-mutate",
        ClientEnvelope { request_id: 20, body: ClientMessage::GraphLoad { graph: initial } },
    )));

    let mutated = must_some(must_ok(dispatcher.dispatch(
        "session-mutate",
        ClientEnvelope {
            request_id: 21,
            body: ClientMessage::GraphMutate {
                mutations: vec![GraphMutation::AddNode { instance: node_instance("clock", "time.tick") }],
            },
        },
    )));
    assert_eq!(mutated.request_id, Some(21));
    assert_eq!(mutated.graph_rev, 2);

    let ServerMessage::GraphCompiled { eval_order, warnings } = mutated.body else {
        panic!("graph.compiled 以外のメッセージを受信しました");
    };
    assert_eq!(warnings, Vec::<String>::new());
    assert_eq!(eval_order.len(), 2);
    assert!(eval_order.contains(&NodeId::from("adder")));
    assert!(eval_order.contains(&NodeId::from("clock")));
}

#[test]
fn test_dispatcher_runtime_start_stop() {
    let mut dispatcher = must_ok(build_dispatcher());
    must_ok(dispatcher.add_session("session-runtime"));

    let started = must_some(must_ok(
        dispatcher.dispatch("session-runtime", ClientEnvelope { request_id: 30, body: ClientMessage::RuntimeStart }),
    ));
    assert_eq!(started.request_id, Some(30));
    assert_eq!(started.body, ServerMessage::RuntimeState { state: RuntimeState::Running });
    assert!(dispatcher.is_runtime_running());

    let stopped = must_some(must_ok(
        dispatcher.dispatch("session-runtime", ClientEnvelope { request_id: 31, body: ClientMessage::RuntimeStop }),
    ));
    assert_eq!(stopped.request_id, Some(31));
    assert_eq!(stopped.body, ServerMessage::RuntimeState { state: RuntimeState::Stopped });
    assert!(!dispatcher.is_runtime_running());
}

fn pump_session(
    dispatcher: &mut MessageDispatcher,
    session_id: &str,
    inbound: Vec<ClientEnvelope>,
) -> AqueductResult<Vec<ServerEnvelope>> {
    let mut sent = Vec::new();
    for envelope in inbound {
        if let Some(response) = dispatcher.dispatch(session_id, envelope)? {
            sent.push(response);
        }
    }
    Ok(sent)
}

fn build_registry() -> AqueductResult<NodeRegistry> {
    let mut registry = NodeRegistry::new();
    registry.register(Box::new(MathAddFactory))?;
    let stateless = string_factories().into_iter().chain(logic_factories()).chain(time_factories()).chain(convert_factories());
    for factory in stateless {
        registry.register(Box::new(factory))?;
    }
    registry.register(Box::new(TimeElapsedFactory))?;
    Ok(registry)
}

fn build_dispatcher() -> AqueductResult<MessageDispatcher> {
    let registry = build_registry()?;
    let compiled = GraphCompiler::new(&registry).compile(&Graph::default(), 0)?;
    let live_graph = LiveGraph::new(compiled);
    Ok(MessageDispatcher::new(live_graph, registry, SessionManager::new()))
}

fn node_instance(id: &str, node_type: &str) -> NodeInstance {
    NodeInstance {
        id: NodeId::from(id),
        node_type: node_type.to_owned(),
        properties: PropertyMap::new(),
        position: (0.0f32.to_bits(), 0.0f32.to_bits()),
    }
}

fn graph_with_nodes(nodes: Vec<NodeInstance>) -> Graph {
    let mut map = NodeMap::new();
    for instance in nodes {
        map.insert(instance.id.clone(), instance);
    }
    Graph { nodes: map, edges: Vec::new() }
}

fn must_ok<T>(result: AqueductResult<T>) -> T {
    match result {
        Ok(value) => value,
        Err(error) => panic!("unexpected error: {}", error.to_text()),
    }
}

fn must_some<T>(value: Option<T>) -> T {
    match value {
        Some(value) => value,
        None => panic!("expected Some(..), got None"),
    }
}

#[test]
fn tick_step_sends_changed_pins_once() {
    let mut dispatcher = must_ok(build_dispatcher());
    must_ok(dispatcher.add_session("session-tick"));
    let graph = graph_with_nodes(vec![node_instance("clock", "time.tick")]);
    let _ = must_ok(dispatcher.dispatch("session-tick", ClientEnvelope { request_id: 1, body: ClientMessage::GraphLoad { graph } }));
    let none = must_ok(dispatcher.dispatch(
        "session-tick",
        ClientEnvelope { request_id: 2, body: ClientMessage::PinSubscribe { pin_ids: vec![PinId::from("tick")] } },
    ));
    assert!(none.is_none());

    let mut driver = TickDriver::new();
    assert!(must_ok(run_tick_and_collect_diffs(&mut driver, &mut dispatcher)).is_none());

    let _ = must_ok(dispatcher.dispatch("session-tick", ClientEnvelope { request_id: 3, body: ClientMessage::RuntimeStart }));
    let first = must_some(must_ok(run_tick_and_collect_diffs(&mut driver, &mut dispatcher)));
    assert_eq!(first.graph_rev, 1);
    assert_eq!(first.pin_diffs.len(), 1);
    assert_eq!(first.pin_diffs[0].session_id, "session-tick");
    assert_eq!(first.pin_diffs[0].values, vec![(PinId::from("tick"), PinValue::Int(0))]);

    let second = must_some(must_ok(run_tick_and_collect_diffs(&mut driver, &mut dispatcher)));
    assert_eq!(second.pin_diffs[0].values, vec![(PinId::from("tick"), PinValue::Int(1))]);
    assert_eq!(driver.next_tick(), 2);
}

#[test]
fn dispatcher_reports_errors_as_responses() {
    let mut dispatcher = must_ok(build_dispatcher());
    must_ok(dispatcher.add_session("session-err"));

    let wrong = must_some(must_ok(dispatcher.dispatch(
        "session-err",
        ClientEnvelope { request_id: 5, body: ClientMessage::Handshake { protocol_version: "9.9.9".to_owned() } },
    )));
    assert_eq!(
        wrong.body,
        ServerMessage::Error {
            code: "SERVER_PROTOCOL_VERSION_MISMATCH".to_owned(),
            message: format!("プロトコルバージョンが一致しません: client=9.9.9, server={PROTOCOL_VERSION}"),
            node_id: None,
        }
    );

    let save = must_some(must_ok(dispatcher.dispatch("session-err", ClientEnvelope { request_id: 6, body: ClientMessage::GraphSave })));
    assert!(matches!(save.body, ServerMessage::Error { ref code, .. } if code == "SERVER_GRAPH_SAVE_UNSUPPORTED"));

    let bad_rate = must_some(must_ok(dispatcher.dispatch(
        "session-err",
        ClientEnvelope { request_id: 7, body: ClientMessage::RuntimeSetTickRate { hz: (-1.0f64).to_bits() } },
    )));
    assert!(matches!(bad_rate.body, ServerMessage::Error { ref code, .. } if code == "SERVER_INVALID_TICK_RATE"));
    let nan_rate = must_some(must_ok(dispatcher.dispatch(
        "session-err",
        ClientEnvelope { request_id: 8, body: ClientMessage::RuntimeSetTickRate { hz: f64::NAN.to_bits() } },
    )));
    assert!(matches!(nan_rate.body, ServerMessage::Error { ref code, .. } if code == "SERVER_INVALID_TICK_RATE"));
    assert_eq!(must_ok(dispatcher.tick_rate_hz()), 60.0f64.to_bits());

    let good_rate = must_some(must_ok(dispatcher.dispatch(
        "session-err",
        ClientEnvelope { request_id: 9, body: ClientMessage::RuntimeSetTickRate { hz: 30.0f64.to_bits() } },
    )));
    assert_eq!(good_rate.body, ServerMessage::RuntimeState { state: RuntimeState::Stopped });
    assert_eq!(must_ok(dispatcher.tick_rate_hz()), 30.0f64.to_bits());

    let missing = must_some(must_ok(dispatcher.dispatch(
        "nobody",
        ClientEnvelope { request_id: 10, body: ClientMessage::PinSubscribe { pin_ids: vec![PinId::from("x")] } },
    )));
    assert!(matches!(missing.body, ServerMessage::Error { ref code, .. } if code == "SESSION_MANAGER_SESSION_NOT_FOUND"));
}
