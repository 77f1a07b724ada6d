use aqueduct::nodes::{
    convert_factories, format_template, logic_factories, parse_u64, register_builtin_nodes, string_factories,
    time_factories, BuiltinOp, StatelessEvaluator, TimeElapsedEvaluator, TimeElapsedFactory,
};
use aqueduct::{
    CompiledGraph, Edge, EdgeId, Graph, GraphCompiler, NodeEvalResult, NodeEvaluator, NodeId,
    NodeInstance, NodeMap, NodeRegistry, PinId, PinValue, PropertyMap, ScopedPinId,
};

#[test]
fn string_concat_and_length_work() {
    let registry = build_registry();
    let graph = graph(
        vec![node("concat", "string.concat"), node("length", "string.length")],
        vec![edge("e1", "concat", "out", "length", "s")],
    );
    let mut compiled = compile(&registry, &graph);

    compiled.set_pin_value(scoped_pin("concat", "a"), PinValue::String(String::from("Hello")));
    compiled.set_pin_value(scoped_pin("concat", "b"), PinValue::String(String::from("世界")));

    compiled.tick(0).expect("tick failed");

    assert_eq!(
        compiled.pin_value(&scoped_pin("concat", "out")),
        Some(PinValue::String(String::from("Hello世界")))
    );
    assert_eq!(compiled.pin_value(&scoped_pin("length", "out")), Some(PinValue::Int(7)));
}

#[test]
fn logic_and_and_not_work() {
    let registry = build_registry();
    let graph = graph(vec![node("and", "logic.and"), node("not", "logic.not")], vec![edge("e1", "and", "out", "not", "a")]);
    let mut compiled = compile(&registry, &graph);

    compiled.set_pin_value(scoped_pin("and", "a"), PinValue::Bool(true));
    compiled.set_pin_value(scoped_pin("and", "b"), PinValue::Bool(false));

    compiled.tick(0).expect("tick failed");

    assert_eq!(compiled.pin_value(&scoped_pin("and", "out")), Some(PinValue::Bool(false)));
    assert_eq!(compiled.pin_value(&scoped_pin("not", "out")), Some(PinValue::Bool(true)));
}

#[test]
fn time_tick_outputs_current_tick() {
    let registry = build_registry();
    let graph = graph(vec![node("clock", "time.tick")], Vec::new());
    let mut compiled = compile(&registry, &graph);

    compiled.tick(0).expect("tick failed");
    assert_eq!(compiled.pin_value(&scoped_pin("clock", "tick")), Some(PinValue::Int(0)));

    compiled.tick(1).expect("tick failed");
    assert_eq!(compiled.pin_value(&scoped_pin("clock", "tick")), Some(PinValue::Int(1)));
}

#[test]
fn builtin_registry_lists_integer_and_text_types() {
    let registry = build_registry();
    let expected = [
        "string.concat",
        "string.length",
        "string.uppercase",
        "string.lowercase",
        "string.contains",
        "string.replace",
        "string.trim",
        "logic.and",
        "logic.or",
        "logic.not",
        "logic.equals",
        "logic.select",
        "time.tick",
        "time.elapsed",
        "convert.parse_int",
        "convert.bool_to_int",
    ];
    assert_eq!(registry.list_node_defs().len(), expected.len());
    for node_type in expected {
        assert!(registry.contains(node_type), "missing node type: {node_type}");
    }
}

#[test]
fn logic_select_and_equals_choose_inputs() {
    let mut select = StatelessEvaluator { op: BuiltinOp::LogicSelect };
    let inputs = [PinValue::Bool(true), PinValue::Int(1), PinValue::Int(2)];
    assert_eq!(ready(select.evaluate(&inputs, 0)), vec![PinValue::Int(1)]);
    let inputs = [PinValue::Bool(false), PinValue::Int(1), PinValue::Int(2)];
    assert_eq!(ready(select.evaluate(&inputs, 0)), vec![PinValue::Int(2)]);
    assert_eq!(ready(select.evaluate(&[], 0)), vec![PinValue::Nothing]);

    let mut equals = StatelessEvaluator { op: BuiltinOp::LogicEquals };
    let same = [PinValue::String("x".to_owned()), PinValue::String("x".to_owned())];
    assert_eq!(ready(equals.evaluate(&same, 0)), vec![PinValue::Bool(true)]);
    let different = [PinValue::Int(1), PinValue::Bool(true)];
    assert_eq!(ready(equals.evaluate(&different, 0)), vec![PinValue::Bool(false)]);
}

#[test]
fn text_nodes_transform_their_input() {
    let text = |s: &str| PinValue::String(s.to_owned());
    let mut upper = StatelessEvaluator { op: BuiltinOp::StringUppercase };
    assert_eq!(ready(upper.evaluate(&[text("abc")], 0)), vec![text("ABC")]);
    let mut lower = StatelessEvaluator { op: BuiltinOp::StringLowercase };
    assert_eq!(ready(lower.evaluate(&[text("AbC")], 0)), vec![text("abc")]);
    let mut contains = StatelessEvaluator { op: BuiltinOp::StringContains };
    assert_eq!(ready(contains.evaluate(&[text("haystack"), text("st")], 0)), vec![PinValue::Bool(true)]);
    assert_eq!(ready(contains.evaluate(&[text("haystack"), text("xy")], 0)), vec![PinValue::Bool(false)]);
    let mut replace = StatelessEvaluator { op: BuiltinOp::StringReplace };
    assert_eq!(ready(replace.evaluate(&[text("a-b-c"), text("-"), text("+")], 0)), vec![text("a+b+c")]);
    let mut trim = StatelessEvaluator { op: BuiltinOp::StringTrim };
    assert_eq!(ready(trim.evaluate(&[text("  pad  ")], 0)), vec![text("pad")]);
    let mut length = StatelessEvaluator { op: BuiltinOp::StringLength };
    assert_eq!(ready(length.evaluate(&[PinValue::Int(3)], 0)), vec![PinValue::Int(0)]);
}

#[test]
fn conversions_parse_and_count() {
    let text = |s: &str| PinValue::String(s.to_owned());
    let mut parse = StatelessEvaluator { op: BuiltinOp::ConvertParseInt };
    assert_eq!(ready(parse.evaluate(&[text("-42")], 0)), vec![PinValue::Int(-42)]);
    assert_eq!(ready(parse.evaluate(&[text("+7")], 0)), vec![PinValue::Int(7)]);
    assert_eq!(ready(parse.evaluate(&[text("4x")], 0)), vec![PinValue::Int(0)]);
    assert_eq!(ready(parse.evaluate(&[text("99999999999999999999")], 0)), vec![PinValue::Int(0)]);
    let mut to_int = StatelessEvaluator { op: BuiltinOp::ConvertBoolToInt };
    assert_eq!(ready(to_int.evaluate(&[PinValue::Bool(true)], 0)), vec![PinValue::Int(1)]);
    assert_eq!(ready(to_int.evaluate(&[PinValue::Bool(false)], 0)), vec![PinValue::Int(0)]);
    let mut tick = StatelessEvaluator { op: BuiltinOp::TimeTick };
    assert_eq!(ready(tick.evaluate(&[], u64::MAX)), vec![PinValue::Int(i64::MAX)]);
}

#[test]
fn time_elapsed_counts_from_start_tick() {
    let mut props = PropertyMap::new();
    props.insert("start_tick".to_owned(), serde_json::Value::from(5u64));
    let mut evaluator = TimeElapsedFactory.evaluator(&props).expect("create failed");
    assert_eq!(evaluator.elapsed(12), 7);
    assert_eq!(evaluator.elapsed(3), 0);
    assert!(evaluator.set_property("start_tick", &serde_json::Value::from(-1)).is_err());
    assert_eq!(evaluator.start_tick, 5);
    evaluator.set_property("start_tick", &serde_json::Value::from(10)).expect("patch failed");
    assert_eq!(ready(evaluator.evaluate(&[], 15)), vec![PinValue::Int(5)]);

    let defaulted: TimeElapsedEvaluator = TimeElapsedFactory.evaluator(&PropertyMap::new()).expect("create failed");
    assert_eq!(defaulted.start_tick, 0);

    let error = parse_u64(&serde_json::Value::from("soon")).expect_err("a text is no tick");
    assert_eq!(error.code(), "TIME_ELAPSED_INVALID_START_TICK");
    assert_eq!(parse_u64(&serde_json::Value::from(3u64)).expect("a tick"), 3);
}

fn ready(result: aqueduct::AqueductResult<NodeEvalResult>) -> Vec<PinValue> {
    match result.expect("evaluate failed") {
        NodeEvalResult::Ready(values) => values,
        NodeEvalResult::Spawned { .. } => panic!("a stateless node spawns no job"),
    }
}

fn build_registry() -> NodeRegistry {
    let mut registry = NodeRegistry::new();
    let stateless = string_factories().into_iter().chain(logic_factories()).chain(time_factories()).chain(convert_factories());
    for factory in stateless {
        registry.register(Box::new(factory)).expect("register failed");
    }
    registry.register(Box::new(TimeElapsedFactory)).expect("register failed");
    registry
}

fn compile(registry: &NodeRegistry, graph: &Graph) -> CompiledGraph {
    GraphCompiler::new(registry).compile(graph, 0).expect("compile failed")
}

fn node(id: &str, node_type: &str) -> NodeInstance {
    NodeInstance {
        id: NodeId::from(id),
        node_type: node_type.to_owned(),
        properties: PropertyMap::new(),
        position: (0.0f32.to_bits(), 0.0f32.to_bits()),
    }
}

fn edge(id: &str, from_node: &str, from_pin: &str, to_node: &str, to_pin: &str) -> Edge {
    Edge {
        id: EdgeId::from(id),
        from_node: NodeId::from(from_node),
        from_pin: PinId::from(from_pin),
        to_node: NodeId::from(to_node),
        to_pin: PinId::from(to_pin),
    }
}

fn graph(nodes: Vec<NodeInstance>, edges: Vec<Edge>) -> Graph {
    let mut map = NodeMap::new();
    for instance in nodes {
        map.insert(instance.id.clone(), instance);
    }
    Graph { nodes: map, edges }
}

fn scoped_pin(node_id: &str, pin_id: &str) -> ScopedPinId {
    ScopedPinId::new(NodeId::from(node_id), PinId::from(pin_id))
}

#[test]
fn register_builtin_nodes_registers_the_library_types_in_order() {
    let mut registry = NodeRegistry::new();
    register_builtin_nodes(&mut registry).expect("register failed");
    let names = [
        "string.concat",
        "string.length",
        "string.uppercase",
        "string.lowercase",
        "string.contains",
        "string.replace",
        "string.trim",
        "logic.and",
        "logic.or",
        "logic.not",
        "logic.equals",
        "logic.select",
        "time.tick",
        "time.elapsed",
        "convert.parse_int",
        "convert.bool_to_int",
    ];
    for name in names {
        assert!(registry.contains(name), "{name} is registered");
    }
    assert_eq!(registry.list_node_defs().len(), names.len());

    let error = register_builtin_nodes(&mut registry).expect_err("the types are registered already");
    assert_eq!(error.code(), "REGISTRY_DUPLICATE_TYPE");
    assert_eq!(error.message(), "既に登録済みのノード型です: string.concat");
    assert_eq!(registry.list_node_defs().len(), names.len());
}

#[test]
fn format_template_fills_the_template_or_the_fallback() {
    assert_eq!(format_template("", "Hello {}", "42"), "Hello 42");
    assert_eq!(format_template("x={} y={}", "unused {}", "1"), "x=1 y=1");
    assert_eq!(format_template("no hole", "unused", "1"), "no hole");
    assert_eq!(format_template("", "", "1"), "");
}

#[test]
fn property_patch_reaches_the_compiled_evaluator() {
    let registry = build_registry();
    let graph = graph(vec![node("clock", "time.elapsed")], vec![]);
    let mut compiled = compile(&registry, &graph);
    let clock = NodeId::from("clock");

    let error = compiled
        .apply_property_patch(&clock, "start_tick", &serde_json::Value::from("soon"))
        .expect_err("a text is no tick");
    assert_eq!(error.code(), "TIME_ELAPSED_INVALID_START_TICK");

    compiled
        .apply_property_patch(&clock, "start_tick", &serde_json::Value::from(2u64))
        .expect("a tick is accepted");
    compiled.tick(5).expect("tick failed");
    assert_eq!(compiled.pin_value(&scoped_pin("clock", "elapsed")), Some(PinValue::Int(3)));

    let missing = compiled
        .apply_property_patch(&NodeId::from("nowhere"), "start_tick", &serde_json::Value::from(1u64))
        .expect_err("no such node");
    assert_eq!(missing.code(), "COMPILED_PROPERTY_TARGET_MISSING");
}
