use nodetool::compile::{compile, CompileResult, CompiledNode};
use nodetool::graph::{Edge, GraphDefinition, NodeInstance, ParameterValue};
use nodetool::ids::parse_uuid;
use nodetool::literal::Scalar;
use nodetool::model::{Conversion, DataType, NodeType, Port};
use nodetool::parameters::CompiledParameter;
use nodetool::registry::Registry;
use nodetool::resolve::Resolved;
use nodetool::scalars::{base_scalars, BOOL, STRING};
use nodetool::utility::{self, format_text, route, string_form, Select, SelectArrival};

const THING: u128 = 0x0800_0000_0001;
const WORD: u128 = 0x0800_0000_0002;

const SOURCE: &str = "00000000-0000-0000-0000-0800000000a1";
const ROUTER: &str = "00000000-0000-0000-0000-0800000000a2";
const FORMATTER: &str = "00000000-0000-0000-0000-0800000000a3";
const CHOOSER: &str = "00000000-0000-0000-0000-0800000000a4";
const FLAGGER: &str = "00000000-0000-0000-0000-0800000000a5";

fn source(type_ref: &str, label: &str, value_type: &str) -> NodeType {
    NodeType {
        type_ref: type_ref.to_owned(),
        label: label.to_owned(),
        icon: "<svg/>".to_owned(),
        plugin: "utility-test".to_owned(),
        sub_group: None,
        ui: None,
        inputs: vec![],
        outputs: vec![Port { name: "value".to_owned(), type_refs: vec![value_type.to_owned()], family: None }],
        choices: vec![],
        behaviour: false,
        check_parameters: false,
    }
}

fn custom(id: u128, name: &str, conversions: Vec<Conversion>) -> DataType {
    DataType { id, name: name.to_owned(), conversions, meta: vec![], ui: None }
}

fn registry() -> Registry {
    let mut node_types = utility::node_types();
    node_types.push(source("utility-test/thing_source", "Thing source", "utility-test/thing"));
    node_types.push(source("utility-test/string_source", "String source", "String"));
    node_types.push(source("utility-test/bool_source", "Bool source", "bool"));
    node_types.push(source("utility-test/word_source", "Word source", "utility-test/word"));
    let mut data_types = base_scalars();
    data_types.push(custom(THING, "utility-test/thing", vec![]));
    data_types.push(custom(WORD, "utility-test/word", vec![Conversion { source: WORD, target: STRING }]));
    Registry::collect(node_types, data_types).expect("the declarations are consistent")
}

fn uuid(text: &str) -> u128 {
    parse_uuid(text).unwrap()
}

fn node(id: &str, type_ref: &str) -> NodeInstance {
    NodeInstance { uuid: uuid(id), type_ref: type_ref.to_owned(), label: None, parameters: vec![], metadata: vec![] }
}

fn edge(from: &str, from_port: &str, to: &str, to_port: &str) -> Edge {
    Edge { from: uuid(from), from_port: from_port.to_owned(), to: uuid(to), to_port: to_port.to_owned() }
}

fn definition(nodes: Vec<NodeInstance>, edges: Vec<Edge>) -> GraphDefinition {
    GraphDefinition { schema_version: 1, name: None, nodes, edges, groups: Vec::new() }
}

fn check(node: &CompiledNode) -> Vec<String> {
    utility::check(node)
}

fn compiled(definition: &GraphDefinition) -> CompileResult {
    compile(definition, &registry(), &check)
}

#[test]
fn the_utility_crate_contributes_exactly_its_three_node_types() {
    let mut contributed: Vec<String> = registry()
        .node_types
        .iter()
        .filter(|node_type| node_type.plugin == "utility")
        .map(|node_type| node_type.type_ref.clone())
        .collect();
    contributed.sort_unstable();
    assert_eq!(
        contributed,
        ["utility/format", "utility/if", "utility/select"],
        "the utility crate declares exactly the three named nodes: {contributed:?}"
    );
}

#[test]
fn an_exact_union_member_match_compiles_without_a_conversion() {
    let compiled = compiled(&definition(
        vec![node(SOURCE, "utility-test/string_source"), node(ROUTER, "utility/if"), node(FORMATTER, "utility/format")],
        vec![edge(SOURCE, "value", ROUTER, "value"), edge(ROUTER, "then", FORMATTER, "value")],
    ))
    .graph
    .expect("the definition compiles");
    assert_eq!(compiled.connections.len(), 2);
    let resolved: Vec<String> = compiled
        .connections
        .iter()
        .map(|connection| {
            assert!(connection.conversion.is_none(), "an exact union member matches, no conversion rides");
            connection.resolved_type.name.clone()
        })
        .collect();
    assert_eq!(
        resolved,
        ["String", "i8"],
        "the first connection matches its exact member; the union-to-union one resolves to the first declared member both sides share"
    );
}

#[test]
fn a_plugin_custom_type_reaches_format_through_its_own_declared_conversion() {
    let compiled = compiled(&definition(
        vec![node(SOURCE, "utility-test/word_source"), node(FORMATTER, "utility/format")],
        vec![edge(SOURCE, "value", FORMATTER, "value")],
    ))
    .graph
    .expect("the word type's own declared conversion bridges it into the union");
    let connection = &compiled.connections[0];
    assert_eq!(connection.resolved_type.name, "String", "the conversion targets the union's String member");
    assert_eq!(
        connection.conversion,
        Some(Conversion { source: WORD, target: STRING }),
        "the connection rides the word type's declared conversion"
    );
}

#[test]
fn a_connection_the_union_and_declared_conversions_cannot_bridge_fails_to_compile() {
    let result = compiled(&definition(
        vec![node(SOURCE, "utility-test/thing_source"), node(ROUTER, "utility/if")],
        vec![edge(SOURCE, "value", ROUTER, "value")],
    ));
    assert!(result.graph.is_none(), "the union cannot bridge the custom type");
    let messages: Vec<&String> = result.errors.iter().map(|problem| &problem.message).collect();
    assert_eq!(result.errors.len(), 1, "expected one error, got: {:?}", messages);
    let message = &result.errors[0].message;
    assert!(
        message.contains("utility-test/thing") && message.contains("String"),
        "the error names both ports' types: {}",
        message
    );
    assert!(
        message.contains("no exact match and no declared conversion bridges them"),
        "the standard error: {}",
        message
    );
}

#[test]
fn an_input_nothing_carries_is_a_compile_error_naming_it() {
    let result = compiled(&definition(
        vec![
            node(FLAGGER, "utility-test/bool_source"),
            node(SOURCE, "utility-test/string_source"),
            node(CHOOSER, "utility/select"),
        ],
        vec![edge(FLAGGER, "value", CHOOSER, "choose"), edge(SOURCE, "value", CHOOSER, "then")],
    ));
    assert!(result.graph.is_none(), "the `else` input nothing carries blocks the compile");
    let messages: Vec<&String> = result.errors.iter().map(|problem| &problem.message).collect();
    assert_eq!(result.errors.len(), 1, "expected one error, got: {:?}", messages);
    let message = &result.errors[0].message;
    assert!(
        message.contains("Select") && message.contains("`else`"),
        "the error names the node and the input: {message}"
    );
    assert!(
        message.contains("the node would never fire"),
        "the fault surfaces at compile, before a run hangs on it: {message}"
    );
}

#[test]
fn a_literal_candidate_carries_its_input_beside_a_connected_one() {
    let mut chooser = node(CHOOSER, "utility/select");
    chooser.parameters.push(("else".to_owned(), ParameterValue::Str("spare".to_owned())));
    let result = compiled(&definition(
        vec![node(FLAGGER, "utility-test/bool_source"), node(SOURCE, "utility-test/string_source"), chooser],
        vec![edge(FLAGGER, "value", CHOOSER, "choose"), edge(SOURCE, "value", CHOOSER, "then")],
    ));
    let messages: Vec<&String> = result.errors.iter().map(|problem| &problem.message).collect();
    assert!(result.graph.is_some(), "the literal carries the `else` input: {:?}", messages);
    let warnings: Vec<&String> = result.warnings.iter().map(|problem| &problem.message).collect();
    assert!(result.warnings.is_empty(), "every input carried, so nothing to warn about: {:?}", warnings);
}

/// One scripted arrival on a Select's inputs.
enum Arrival {
    Choose(bool),
    Then(&'static str),
    Else(&'static str),
}

/// A compiled Select whose named inputs a parameter literal carries.
fn select_node(held: &[(&str, Scalar)]) -> CompiledNode {
    CompiledNode {
        type_ref: "utility/select".to_owned(),
        label: "Select".to_owned(),
        parameters: held
            .iter()
            .map(|(input, value)| {
                let (id, name) = match value {
                    Scalar::Bool(_) => (BOOL, "bool"),
                    _ => (STRING, "String"),
                };
                let parameter = CompiledParameter {
                    resolved_type: Resolved { id, name: name.to_owned() },
                    value: value.copy(),
                    conversion: None,
                };
                (input.to_string(), parameter)
            })
            .collect(),
        families: vec![],
        fed: vec![],
    }
}

/// Runs one Select over its inputs' arrivals: each held input's literal
/// arrives first, then the script, in order — the order runs fire in once
/// every input has delivered.
fn selected(held: &[(&str, Scalar)], script: &[Arrival]) -> Vec<String> {
    let mut select = Select::new(&select_node(held));
    let mut emitted = Vec::new();
    let literals = held.iter().map(|(input, value)| match (*input, value) {
        ("choose", Scalar::Bool(flag)) => SelectArrival::Choose(*flag),
        ("then", Scalar::Str(text)) => SelectArrival::OnTrue(text.clone()),
        (_, Scalar::Str(text)) => SelectArrival::OnFalse(text.clone()),
        _ => panic!("a held literal of the declared type"),
    });
    let scripted = script.iter().map(|arrival| match arrival {
        Arrival::Choose(flag) => SelectArrival::Choose(*flag),
        Arrival::Then(text) => SelectArrival::OnTrue(text.to_string()),
        Arrival::Else(text) => SelectArrival::OnFalse(text.to_string()),
    });
    for arrival in literals.collect::<Vec<_>>().into_iter().chain(scripted) {
        if let Some(value) = select.arrive(arrival) {
            emitted.push(value);
        }
    }
    emitted
}

#[test]
fn a_literal_candidate_pairs_each_choice_with_the_connections_next_value() {
    let emitted = selected(
        &[("then", Scalar::Str("literal".to_owned()))],
        &[Arrival::Choose(true), Arrival::Else("e1"), Arrival::Choose(false), Arrival::Else("e2"), Arrival::Choose(true)],
    );
    assert_eq!(
        emitted,
        ["literal", "e2"],
        "the literal never gated a pairing, and the last choice found no `else` value to pair with"
    );
}

#[test]
fn two_connected_candidates_arriving_out_of_step_pair_one_to_one_with_each_choice() {
    let emitted = selected(
        &[],
        &[
            Arrival::Then("t1"),
            Arrival::Then("t2"),
            Arrival::Choose(true),
            Arrival::Else("e1"),
            Arrival::Choose(false),
            Arrival::Then("t3"),
            Arrival::Else("e2"),
            Arrival::Choose(false),
            Arrival::Else("e3"),
        ],
    );
    assert_eq!(
        emitted,
        ["t1", "e2", "e3"],
        "each emission pairs the k-th value of every input, never a stale or future neighbour"
    );
}

#[test]
fn a_choice_stream_that_ends_still_pairs_its_buffered_choices_with_the_later_candidates() {
    let emitted = selected(
        &[],
        &[
            Arrival::Choose(true),
            Arrival::Choose(false),
            Arrival::Then("t1"),
            Arrival::Else("e1"),
            Arrival::Then("t2"),
            Arrival::Else("e2"),
            Arrival::Then("t3"),
            Arrival::Else("e3"),
        ],
    );
    assert_eq!(emitted, ["t1", "e2"], "the two buffered choices paired with the first two candidate pairs");
}

#[test]
fn a_choice_held_as_a_parameter_literal_pairs_every_candidate_pair_under_it() {
    let emitted = selected(
        &[("choose", Scalar::Bool(true))],
        &[
            Arrival::Then("t1"),
            Arrival::Else("e1"),
            Arrival::Then("t2"),
            Arrival::Else("e2"),
            Arrival::Then("t3"),
            Arrival::Else("e3"),
        ],
    );
    assert_eq!(
        emitted,
        ["t1", "t2", "t3"],
        "the held choice is always there: it pairs with every candidate pair, not only the first"
    );
}

#[test]
fn a_select_whose_every_input_is_held_completes_instead_of_pairing_for_ever() {
    let emitted = selected(
        &[
            ("choose", Scalar::Bool(false)),
            ("then", Scalar::Str("taken".to_owned())),
            ("else", Scalar::Str("spare".to_owned())),
        ],
        &[],
    );
    assert_eq!(
        emitted,
        ["spare", "spare", "spare"],
        "each literal's own arrival fired a run under the held choice, like any other arrival"
    );
}

#[test]
fn the_router_sends_each_value_to_the_branch_its_condition_selects() {
    assert_eq!(route(true), "then");
    assert_eq!(route(false), "else");
}

#[test]
fn the_format_substitutes_at_the_first_placeholder_only() {
    assert_eq!(format_text(Some("count: {}"), "1"), "count: 1");
    assert_eq!(format_text(Some("{} and {}"), "x"), "x and {}");
    assert_eq!(format_text(Some("no placeholder"), "x"), "no placeholder");
    assert_eq!(format_text(Some(""), "2.5"), "2.5");
    assert_eq!(format_text(None, "true"), "true");
    assert_eq!(format_text(Some("{"), "x"), "{");
    assert_eq!(format_text(Some("é{}ü"), "x"), "éxü");
}

#[test]
fn the_string_forms_of_the_base_scalars() {
    assert_eq!(string_form(&Scalar::I32(1)), Some("1".to_owned()));
    assert_eq!(string_form(&Scalar::I8(-128)), Some("-128".to_owned()));
    assert_eq!(string_form(&Scalar::U64(u64::MAX)), Some("18446744073709551615".to_owned()));
    assert_eq!(string_form(&Scalar::Bool(true)), Some("true".to_owned()));
    assert_eq!(string_form(&Scalar::Str("hi".to_owned())), Some("hi".to_owned()));
    assert_eq!(string_form(&Scalar::F64(2.5f64.to_bits())), None);
}

#[test]
fn a_held_template_formats_each_value_s_string_form() {
    let forms = [
        string_form(&Scalar::I32(1)).unwrap(),
        format!("{}", 2.5f64),
        string_form(&Scalar::Bool(true)).unwrap(),
        string_form(&Scalar::Str("hi".to_owned())).unwrap(),
    ];
    let texts: Vec<String> = forms.iter().map(|form| format_text(Some("count: {}"), form)).collect();
    assert_eq!(texts, ["count: 1", "count: 2.5", "count: true", "count: hi"]);
    let plain: Vec<String> = forms.iter().map(|form| format_text(Some(""), form)).collect();
    assert_eq!(plain, ["1", "2.5", "true", "hi"]);
}
