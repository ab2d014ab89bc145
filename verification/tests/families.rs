use nodetool::compile::{compile, CompiledGraph, CompiledNode};
use nodetool::fizzbuzz_nodes;
use nodetool::graph::{Edge, FloatLiteral, GraphDefinition, NodeInstance, ParameterValue};
use nodetool::ids::parse_uuid;
use nodetool::literal::Scalar;
use nodetool::model::{NodeType, Port};
use nodetool::registry::Registry;
use nodetool::scalars::base_scalars;

const COUNTER: &str = "00000000-0000-0000-0000-0000000000f1";
const OUTPUT: &str = "00000000-0000-0000-0000-0000000000f3";
const SOURCE_A: &str = "00000000-0000-0000-0000-0000000000f4";
const SOURCE_B: &str = "00000000-0000-0000-0000-0000000000f5";
const SOURCE_C: &str = "00000000-0000-0000-0000-0000000000f6";

/// A descriptor-only source of one type: the compiler never runs it.
fn source(type_ref: &str, label: &str, value_type: &str) -> NodeType {
    NodeType {
        type_ref: type_ref.to_owned(),
        label: label.to_owned(),
        icon: "<svg/>".to_owned(),
        plugin: "fizzbuzz-tests".to_owned(),
        sub_group: None,
        ui: None,
        inputs: vec![],
        outputs: vec![Port {
            name: "value".to_owned(),
            type_refs: vec![value_type.to_owned()],
            family: None,
        }],
        choices: vec![],
        behaviour: false,
        check_parameters: false,
    }
}

fn registry() -> Registry {
    let mut node_types = fizzbuzz_nodes::node_types();
    node_types.push(source("tests/int8_source", "Int8 source", "i8"));
    node_types.push(source("tests/int16_source", "Int16 source", "i16"));
    node_types.push(source("tests/int32_source", "Int32 source", "i32"));
    node_types.push(source("tests/float64_source", "Float64 source", "f64"));
    node_types.push(source("tests/uint64_source", "Uint64 source", "u64"));
    node_types.push(source("tests/bool_source", "Bool source", "bool"));
    Registry::collect(node_types, base_scalars()).expect("the declarations are consistent")
}

fn uuid(text: &str) -> u128 {
    parse_uuid(text).unwrap()
}

fn node(id: &str, type_ref: &str) -> NodeInstance {
    NodeInstance {
        uuid: uuid(id),
        type_ref: type_ref.to_owned(),
        label: None,
        parameters: vec![],
        metadata: vec![],
    }
}

fn with_parameters(mut node: NodeInstance, parameters: &[(&str, ParameterValue)]) -> NodeInstance {
    for (name, value) in parameters {
        node.parameters.retain(|(held, _)| held != name);
        node.parameters.push((name.to_string(), value.copy()));
    }
    node
}

fn float(value: f64) -> ParameterValue {
    ParameterValue::Float(FloatLiteral {
        bits: value.to_bits(),
        narrowed: Some((value as f32).to_bits()),
        text: format!("{value:?}"),
        number_text: format!("{value}"),
    })
}

fn edge(from: &str, from_port: &str, to: &str, to_port: &str) -> Edge {
    Edge {
        from: uuid(from),
        from_port: from_port.to_owned(),
        to: uuid(to),
        to_port: to_port.to_owned(),
    }
}

fn definition(nodes: Vec<NodeInstance>, edges: Vec<Edge>) -> GraphDefinition {
    GraphDefinition {
        schema_version: 1,
        name: None,
        nodes,
        edges,
        groups: vec![],
    }
}

fn check(node: &CompiledNode) -> Vec<String> {
    fizzbuzz_nodes::check(node)
}

fn compile_ok(definition: &GraphDefinition) -> CompiledGraph {
    let result = compile(definition, &registry(), &check);
    let messages: Vec<String> = result.errors.iter().map(|p| p.message.clone()).collect();
    result.graph.unwrap_or_else(|| panic!("the definition compiles: {messages:?}"))
}

fn compile_errors(definition: &GraphDefinition) -> Vec<String> {
    let result = compile(definition, &registry(), &check);
    assert!(result.graph.is_none());
    result.errors.into_iter().map(|problem| problem.message).collect()
}

/// The one problem a compile found: its message, and whether it marks
/// the node `id`.
fn single_error(definition: &GraphDefinition, id: &str) -> (String, bool) {
    let result = compile(definition, &registry(), &check);
    assert!(result.graph.is_none());
    let messages: Vec<&String> = result.errors.iter().map(|problem| &problem.message).collect();
    assert_eq!(result.errors.len(), 1, "expected one error, got: {messages:?}");
    let problem = &result.errors[0];
    (problem.message.clone(), problem.nodes.contains(&uuid(id)))
}

fn compiled_node<'a>(compiled: &'a CompiledGraph, id: &str) -> &'a CompiledNode {
    &compiled.nodes.iter().find(|(key, _)| *key == uuid(id)).expect("the node compiled").1
}

fn family_of(compiled: &CompiledGraph, id: &str) -> String {
    compiled_node(compiled, id)
        .families
        .iter()
        .find(|(family, _)| family == "numeric")
        .expect("the numeric family resolved")
        .1
        .name
        .clone()
}

fn parameter_of(compiled: &CompiledGraph, id: &str, port: &str) -> String {
    compiled_node(compiled, id)
        .parameters
        .iter()
        .find(|(name, _)| name == port)
        .expect("the input holds a compiled parameter")
        .1
        .resolved_type
        .name
        .clone()
}

fn stop_value(compiled: &CompiledGraph) -> Scalar {
    compiled_node(compiled, COUNTER)
        .parameters
        .iter()
        .find(|(name, _)| name == "stop")
        .expect("the stop holds a compiled parameter")
        .1
        .value
        .copy()
}

/// A counter whose start, stop, and step are the given literals.
fn counter(id: &str, start: ParameterValue, stop: ParameterValue, step: ParameterValue) -> NodeInstance {
    with_parameters(node(id, "fizzbuzz/counter"), &[("start", start), ("stop", stop), ("step", step)])
}

#[test]
fn several_reachable_members_resolve_by_declaration_order() {
    // An i32 source and integer literals reach both i32 and f64; the
    // family's declaration order puts i32 first.
    let compiled = compile_ok(&definition(
        vec![
            node(SOURCE_A, "tests/int32_source"),
            with_parameters(
                node(COUNTER, "fizzbuzz/counter"),
                &[("stop", ParameterValue::Int(100)), ("step", ParameterValue::Int(1))],
            ),
        ],
        vec![edge(SOURCE_A, "value", COUNTER, "start")],
    ));

    assert_eq!(family_of(&compiled, COUNTER), "i32");
    assert_eq!(parameter_of(&compiled, COUNTER, "stop"), "i32");
}

#[test]
fn family_literals_pick_the_first_member_every_literal_fits() {
    let compiled = compile_ok(&definition(
        vec![counter(COUNTER, ParameterValue::Int(1), ParameterValue::Int(100), ParameterValue::Int(1))],
        vec![],
    ));

    assert_eq!(family_of(&compiled, COUNTER), "i8");
    for port in ["start", "stop", "step"] {
        assert_eq!(parameter_of(&compiled, COUNTER, port), "i8");
    }
    assert!(matches!(stop_value(&compiled), Scalar::I8(100)));

    // 300 does not fit i8, so the family moves to the first member it and
    // every other literal fits.
    let compiled = compile_ok(&definition(
        vec![counter(COUNTER, ParameterValue::Int(1), ParameterValue::Int(300), ParameterValue::Int(1))],
        vec![],
    ));

    assert_eq!(family_of(&compiled, COUNTER), "i16");
    assert!(matches!(stop_value(&compiled), Scalar::I16(300)));
}

#[test]
fn conflicting_sources_fail_naming_the_node_ports_and_types() {
    // u64 reaches only u64, f64 only f64; no declared member joins them.
    let (error, marked) = single_error(&definition(
        vec![
            node(SOURCE_A, "tests/uint64_source"),
            node(SOURCE_B, "tests/float64_source"),
            with_parameters(node(COUNTER, "fizzbuzz/counter"), &[("step", ParameterValue::Int(1))]),
        ],
        vec![edge(SOURCE_A, "value", COUNTER, "start"), edge(SOURCE_B, "value", COUNTER, "stop")],
    ), COUNTER);

    assert!(error.contains(COUNTER), "{error}");
    assert!(error.contains("`start`") && error.contains("`stop`"), "{error}");
    assert!(error.contains("u64") && error.contains("f64"), "{error}");
    assert!(marked);
}

#[test]
fn a_family_with_no_resolution_source_fails() {
    let (error, marked) = single_error(&definition(vec![node(COUNTER, "fizzbuzz/counter")], vec![]), COUNTER);

    assert!(error.contains(COUNTER), "{error}");
    assert!(
        error.contains("`start`") && error.contains("`stop`") && error.contains("`step`"),
        "{error}"
    );
    assert!(marked);
}

#[test]
fn a_zero_step_literal_fails_at_compile_time() {
    let (error, marked) = single_error(&definition(
        vec![counter(COUNTER, ParameterValue::Int(1), ParameterValue::Int(100), ParameterValue::Int(0))],
        vec![],
    ), COUNTER);

    assert!(error.contains(COUNTER) && error.contains("`step`"), "{error}");
    assert!(error.contains("zero"), "{error}");
    assert!(marked);
}

#[test]
fn a_value_nothing_bridges_fails_to_compile_into_the_output() {
    let (error, marked) = single_error(&definition(
        vec![node(SOURCE_C, "tests/bool_source"), node(OUTPUT, "fizzbuzz/output")],
        vec![edge(SOURCE_C, "value", OUTPUT, "text")],
    ), OUTPUT);

    assert!(error.contains(OUTPUT) && error.contains("`text`"), "{error}");
    assert!(error.contains("bool") && error.contains("String"), "{error}");
    assert!(marked);
}

#[test]
fn a_parameter_and_a_connection_on_one_family_input_is_still_an_error() {
    let messages = compile_errors(&definition(
        vec![
            node(SOURCE_A, "tests/int32_source"),
            counter(COUNTER, ParameterValue::Int(1), ParameterValue::Int(100), ParameterValue::Int(1)),
        ],
        vec![edge(SOURCE_A, "value", COUNTER, "start")],
    ));

    assert!(
        messages.iter().any(|error| error.contains("holds a parameter value and receives a connection")),
        "{messages:?}"
    );
}

#[test]
fn float_literals_and_a_float_source_resolve_the_counter_to_f64() {
    let compiled = compile_ok(&definition(
        vec![
            node(SOURCE_A, "tests/float64_source"),
            with_parameters(node(COUNTER, "fizzbuzz/counter"), &[("stop", float(5.0)), ("step", float(1.0))]),
        ],
        vec![edge(SOURCE_A, "value", COUNTER, "start")],
    ));

    assert_eq!(family_of(&compiled, COUNTER), "f64");
    let into_counter = &compiled.connections[0];
    assert_eq!(into_counter.resolved_type.name, "f64");
    assert!(into_counter.conversion.is_none());
}

#[test]
fn an_i16_source_rides_its_declared_widening_into_an_i32_family() {
    let compiled = compile_ok(&definition(
        vec![
            node(SOURCE_A, "tests/int16_source"),
            node(SOURCE_B, "tests/int32_source"),
            with_parameters(node(COUNTER, "fizzbuzz/counter"), &[("step", ParameterValue::Int(1))]),
        ],
        vec![edge(SOURCE_A, "value", COUNTER, "start"), edge(SOURCE_B, "value", COUNTER, "stop")],
    ));

    assert_eq!(family_of(&compiled, COUNTER), "i32");
    let bridged = &compiled.connections[0];
    assert_eq!(bridged.resolved_type.name, "i32");
    assert!(bridged.conversion.is_some());
    let exact = &compiled.connections[1];
    assert_eq!(exact.resolved_type.name, "i32");
    assert!(exact.conversion.is_none());
}

#[test]
fn the_numeric_ports_of_every_fizzbuzz_node_span_the_members() {
    let registry = registry();
    for type_ref in ["fizzbuzz/counter", "fizzbuzz/case", "fizzbuzz/arithmetic", "fizzbuzz/comparison"] {
        let node_type = registry.node_type(type_ref).unwrap();
        for port in node_type.inputs.iter().chain(node_type.outputs.iter()).filter(|port| port.family.is_some()) {
            assert_eq!(port.type_refs, NUMERICS, "{type_ref} `{}`", port.name);
        }
    }
}

const NUMERICS: &[&str] = &["i8", "i16", "i32", "i64", "u8", "u16", "u32", "u64", "f32", "f64"];

fn with_ui(mut node_type: NodeType, entry: &str) -> NodeType {
    node_type.ui = Some(nodetool::model::NodeUi { contract: 1, entry: entry.to_owned(), source: "export {}".to_owned() });
    node_type
}

#[test]
fn plugin_ui_bundles_are_served_each_under_its_own_path() {
    let node_types = vec![
        with_ui(source("tests/a", "A", "i8"), "tests/a.js"),
        with_ui(source("tests/b", "B", "i8"), "tests/b.js"),
    ];
    let registry = Registry::collect(node_types, base_scalars()).expect("consistent");
    let served = nodetool::assets::plugin_assets(&registry);
    let paths: Vec<&str> = served.iter().map(|a| a.path.as_str()).collect();
    assert_eq!(paths, vec!["/plugins/tests/a.js", "/plugins/tests/b.js"]);
}

#[test]
fn two_declarations_of_one_ui_entry_are_a_conflict_naming_both() {
    let node_types = vec![
        with_ui(source("tests/a", "A", "i8"), "tests/shared.js"),
        with_ui(source("tests/b", "B", "i8"), "tests/shared.js"),
    ];
    let registry = Registry::collect(node_types, base_scalars()).expect("consistent");
    match nodetool::assets::checked_assets(&registry) {
        Err(message) => assert_eq!(
            message,
            "duplicate plugin UI asset `/plugins/tests/shared.js`: named by both node type tests/a and node type tests/b"
        ),
        Ok(_) => panic!("a repeated entry is a conflict"),
    }
}
