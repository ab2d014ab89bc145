use nodetool::document::dump_document;
use nodetool::graph::{
    Edge, FloatLiteral, GraphDefinition, GroupDefinition, GroupPort, NodeInstance, ParameterValue, Yaml, YamlEntry,
    YamlNumber, SCHEMA_VERSION,
};
use nodetool::ids::parse_uuid;
use nodetool::loader::{load_document, LoadLocation};

const A: &str = "00000000-0000-0000-0000-00000000000a";
const B: &str = "00000000-0000-0000-0000-00000000000b";
const INNER: &str = "00000000-0000-0000-0000-0000000000c1";

fn uuid(text: &str) -> u128 {
    parse_uuid(text).unwrap()
}

fn text(t: &str) -> Yaml {
    Yaml::Text(t.to_owned())
}

fn entry(key: &str, value: Yaml) -> YamlEntry {
    YamlEntry { key: text(key), key_text: key.to_owned(), value }
}

fn mapping(entries: Vec<(&str, Yaml)>) -> Yaml {
    Yaml::Mapping(entries.into_iter().map(|(k, v)| entry(k, v)).collect())
}

fn float(value: f64) -> FloatLiteral {
    FloatLiteral {
        bits: value.to_bits(),
        narrowed: Some((value as f32).to_bits()),
        text: format!("{value:?}"),
        number_text: format!("{value}"),
    }
}

fn node(id: &str, type_ref: &str) -> NodeInstance {
    NodeInstance { uuid: uuid(id), type_ref: type_ref.to_owned(), label: None, parameters: vec![], metadata: vec![] }
}

fn edge(from: &str, from_port: &str, to: &str, to_port: &str) -> Edge {
    Edge { from: uuid(from), from_port: from_port.to_owned(), to: uuid(to), to_port: to_port.to_owned() }
}

fn sample() -> GraphDefinition {
    let mut first = node(A, "fizzbuzz/counter");
    first.label = Some("Count".to_owned());
    first.parameters = vec![
        ("start".to_owned(), ParameterValue::Int(1)),
        ("stop".to_owned(), ParameterValue::Int(-15)),
        ("step".to_owned(), ParameterValue::Float(float(0.5))),
        ("flag".to_owned(), ParameterValue::Bool(true)),
        ("word".to_owned(), ParameterValue::Str("fizz".to_owned())),
    ];
    first.metadata = vec![entry("position", mapping(vec![("x", Yaml::Number(YamlNumber::PosInt(40))), ("y", Yaml::Number(YamlNumber::NegInt(-8)))]))];
    let second = node(B, "fizzbuzz/output");
    let group = GroupDefinition {
        name: "wrapped".to_owned(),
        inputs: vec![GroupPort { name: "value".to_owned(), type_refs: vec!["i64".to_owned(), "u64".to_owned()], node: uuid(INNER), port: "value".to_owned() }],
        outputs: vec![],
        nodes: vec![node(INNER, "fizzbuzz/output")],
        edges: vec![],
    };
    GraphDefinition {
        schema_version: SCHEMA_VERSION,
        name: Some("sample".to_owned()),
        nodes: vec![first, second],
        edges: vec![edge(A, "count", B, "value")],
        groups: vec![group],
    }
}

fn field<'a>(value: &'a Yaml, name: &str) -> Option<&'a Yaml> {
    match value {
        Yaml::Mapping(entries) => entries.iter().find(|e| e.key_text == name).map(|e| &e.value),
        _ => None,
    }
}

fn error_text(root: &Yaml) -> String {
    match load_document(root) {
        Ok(_) => panic!("the document was expected to be refused"),
        Err(e) => e.text(),
    }
}

fn minimal(extra: Vec<(&str, Yaml)>) -> Yaml {
    let mut fields = vec![
        ("schema_version", Yaml::Number(YamlNumber::PosInt(2))),
        ("nodes", Yaml::Sequence(vec![])),
        ("edges", Yaml::Sequence(vec![])),
    ];
    fields.extend(extra);
    mapping(fields)
}

#[test]
fn a_dumped_graph_loads_back_unchanged() {
    let graph = sample();
    let back = load_document(&dump_document(&graph)).expect("a dumped graph loads");
    assert_eq!(back.schema_version, graph.schema_version);
    assert_eq!(back.name, graph.name);
    assert_eq!(back.nodes.len(), 2);
    for (read, written) in back.nodes.iter().zip(graph.nodes.iter()) {
        assert_eq!(read.uuid, written.uuid);
        assert_eq!(read.type_ref, written.type_ref);
        assert_eq!(read.label, written.label);
        assert_eq!(read.parameters.len(), written.parameters.len());
        for ((rn, rv), (wn, wv)) in read.parameters.iter().zip(written.parameters.iter()) {
            assert_eq!(rn, wn);
            assert!(rv == wv);
        }
        assert_eq!(read.metadata.len(), written.metadata.len());
    }
    assert_eq!(back.edges.len(), 1);
    assert_eq!(back.edges[0].from, uuid(A));
    assert_eq!(back.edges[0].to_port, "value");
    assert_eq!(back.groups.len(), 1);
    assert_eq!(back.groups[0].name, "wrapped");
    assert_eq!(back.groups[0].inputs[0].type_refs, vec!["i64".to_owned(), "u64".to_owned()]);
    assert_eq!(back.groups[0].inputs[0].node, uuid(INNER));
    assert_eq!(back.groups[0].nodes[0].uuid, uuid(INNER));
}

#[test]
fn the_dump_leaves_out_what_holds_nothing() {
    let graph = GraphDefinition {
        schema_version: SCHEMA_VERSION,
        name: None,
        nodes: vec![node(A, "fizzbuzz/output")],
        edges: vec![],
        groups: vec![],
    };
    let dumped = dump_document(&graph);
    assert!(field(&dumped, "name").is_none());
    assert!(field(&dumped, "groups").is_none());
    let nodes = field(&dumped, "nodes").unwrap();
    let first = match nodes {
        Yaml::Sequence(items) => &items[0],
        _ => panic!("nodes are a sequence"),
    };
    match first {
        Yaml::Mapping(entries) => {
            let keys: Vec<&str> = entries.iter().map(|e| e.key_text.as_str()).collect();
            assert_eq!(keys, vec!["uuid", "type_ref"]);
        },
        _ => panic!("a node is a mapping"),
    }
    match field(first, "uuid") {
        Some(Yaml::Text(t)) => assert_eq!(t, A),
        _ => panic!("the uuid is written as its hyphenated text"),
    }
}

#[test]
fn integers_are_written_by_sign() {
    let mut graph = sample();
    graph.groups.clear();
    let dumped = dump_document(&graph);
    let nodes = field(&dumped, "nodes").unwrap();
    let first = match nodes {
        Yaml::Sequence(items) => &items[0],
        _ => panic!("nodes are a sequence"),
    };
    let parameters = field(first, "parameters").unwrap();
    assert!(matches!(field(parameters, "start"), Some(Yaml::Number(YamlNumber::PosInt(1)))));
    assert!(matches!(field(parameters, "stop"), Some(Yaml::Number(YamlNumber::NegInt(-15)))));
    assert!(matches!(field(parameters, "flag"), Some(Yaml::Bool(true))));
}

#[test]
fn an_unknown_field_is_refused_at_its_own_path() {
    let root = minimal(vec![("colour", text("red"))]);
    assert_eq!(
        error_text(&root),
        "document.colour: unknown field `colour`, expected one of `schema_version`, `name`, `nodes`, `edges`, `groups`"
    );
}

#[test]
fn a_missing_field_is_named() {
    let root = mapping(vec![("schema_version", Yaml::Number(YamlNumber::PosInt(2))), ("nodes", Yaml::Sequence(vec![]))]);
    assert_eq!(error_text(&root), "document: missing field `edges`");
}

#[test]
fn an_unsupported_version_is_refused() {
    let root = mapping(vec![
        ("schema_version", Yaml::Number(YamlNumber::PosInt(3))),
        ("nodes", Yaml::Sequence(vec![])),
        ("edges", Yaml::Sequence(vec![])),
    ]);
    assert_eq!(error_text(&root), "schema_version: unsupported schema version 3; this reader understands versions 1 to 2");
}

#[test]
fn a_version_one_document_with_groups_is_refused() {
    let root = mapping(vec![
        ("schema_version", Yaml::Number(YamlNumber::PosInt(1))),
        ("nodes", Yaml::Sequence(vec![])),
        ("edges", Yaml::Sequence(vec![])),
        ("groups", Yaml::Sequence(vec![])),
    ]);
    assert_eq!(
        error_text(&root),
        "schema_version: a version 1 document carries a `groups` section; groups arrived with version 2"
    );
}

#[test]
fn a_version_one_document_loads_as_the_current_version() {
    let root = mapping(vec![
        ("schema_version", Yaml::Number(YamlNumber::PosInt(1))),
        ("nodes", Yaml::Sequence(vec![])),
        ("edges", Yaml::Sequence(vec![])),
    ]);
    assert_eq!(load_document(&root).unwrap().schema_version, SCHEMA_VERSION);
}

#[test]
fn an_invalid_uuid_is_refused_where_it_sits() {
    let root = minimal(vec![]);
    let root = match root {
        Yaml::Mapping(mut entries) => {
            entries[1].value = Yaml::Sequence(vec![mapping(vec![("uuid", text("nope")), ("type_ref", text("x"))])]);
            Yaml::Mapping(entries)
        },
        _ => unreachable!(),
    };
    assert_eq!(error_text(&root), "nodes[0].uuid: invalid uuid `nope`");
}

#[test]
fn a_duplicate_uuid_names_both_places() {
    let graph = GraphDefinition {
        schema_version: SCHEMA_VERSION,
        name: None,
        nodes: vec![node(A, "x"), node(A, "y")],
        edges: vec![],
        groups: vec![],
    };
    assert_eq!(
        error_text(&dump_document(&graph)),
        format!("nodes[1]: duplicate node uuid {A}; already used at nodes[0]")
    );
}

#[test]
fn an_edge_to_a_missing_node_is_refused() {
    let graph = GraphDefinition {
        schema_version: SCHEMA_VERSION,
        name: None,
        nodes: vec![node(A, "x")],
        edges: vec![edge(A, "out", B, "in")],
        groups: vec![],
    };
    assert_eq!(
        error_text(&dump_document(&graph)),
        format!("edges[0]: the edge's `to` node {B} is not defined in the file")
    );
}

#[test]
fn a_parameter_that_is_not_a_plain_scalar_is_refused() {
    let root = minimal(vec![]);
    let root = match root {
        Yaml::Mapping(mut entries) => {
            entries[1].value = Yaml::Sequence(vec![mapping(vec![
                ("uuid", text(A)),
                ("type_ref", text("x")),
                ("parameters", mapping(vec![("start", Yaml::Sequence(vec![]))])),
            ])]);
            Yaml::Mapping(entries)
        },
        _ => unreachable!(),
    };
    assert_eq!(
        error_text(&root),
        "nodes[0].parameters.start: must be a plain scalar — boolean, integer, float, or string — not a sequence"
    );
}

#[test]
fn a_malformed_position_reads_as_line_and_column() {
    let error = nodetool::loader::LoadError {
        location: LoadLocation::Position { line: 3, column: 7 },
        message: "did not find expected key".to_owned(),
    };
    assert_eq!(error.text(), "line 3, column 7: did not find expected key");
}

#[test]
fn a_version_that_is_no_integer_is_refused_naming_what_it_holds() {
    let root = mapping(vec![
        ("schema_version", text("two")),
        ("nodes", Yaml::Sequence(vec![])),
        ("edges", Yaml::Sequence(vec![])),
    ]);
    assert_eq!(error_text(&root), "schema_version: the schema version must be a non-negative integer, not a string");
    let zero = mapping(vec![
        ("schema_version", Yaml::Number(YamlNumber::PosInt(0))),
        ("nodes", Yaml::Sequence(vec![])),
        ("edges", Yaml::Sequence(vec![])),
    ]);
    assert_eq!(error_text(&zero), "schema_version: unsupported schema version 0; this reader understands versions 1 to 2");
}

#[test]
fn a_parse_failure_carries_its_position_once() {
    let e = nodetool::loader::parse_failure("did not find expected key at line 3 column 5, while parsing", Some((3, 5)));
    assert!(matches!(e.location, LoadLocation::Position { line: 3, column: 5 }));
    assert_eq!(e.message, "did not find expected key, while parsing");
    let plain = nodetool::loader::parse_failure("end of stream", None);
    assert_eq!(plain.text(), "document: end of stream");
}

#[test]
fn a_fresh_id_is_a_random_version_four_id() {
    let id = nodetool::ids::fresh_uuid();
    assert_eq!((id >> 76) & 0xF, 4);
    assert_eq!((id >> 62) & 0x3, 2);
    assert_ne!(id, nodetool::ids::fresh_uuid());
}

#[test]
fn a_version_one_document_keeps_its_name() {
    let root = mapping(vec![
        ("schema_version", Yaml::Number(YamlNumber::PosInt(1))),
        ("name", text("old graph")),
        ("nodes", Yaml::Sequence(vec![])),
        ("edges", Yaml::Sequence(vec![])),
    ]);
    let loaded = load_document(&root).expect("a version 1 document loads");
    assert_eq!(loaded.name.as_deref(), Some("old graph"));
    assert_eq!(loaded.schema_version, SCHEMA_VERSION);
}
