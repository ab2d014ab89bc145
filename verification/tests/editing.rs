use nodetool::compile::CompiledNode;
use nodetool::display::{run_step, RunEvent, RunOutcome, Status, TaskReport};
use nodetool::fizzbuzz_nodes;
use nodetool::graph::{Edge, GraphDefinition, NodeInstance, ParameterValue, Yaml, YamlNumber, SCHEMA_VERSION};
use nodetool::ids::parse_uuid;
use nodetool::model::NodeType;
use nodetool::registry::Registry;
use nodetool::scalars::base_scalars;
use nodetool::session::{Reply, Request, RunState, Session};
use nodetool::wiring::{plan, Feed};

const COUNTER: &str = "00000000-0000-0000-0000-0000000000e1";
const OTHER: &str = "00000000-0000-0000-0000-0000000000e2";
const THIRD: &str = "00000000-0000-0000-0000-0000000000e3";

fn uuid(text: &str) -> u128 {
    parse_uuid(text).unwrap()
}

fn registry() -> Registry {
    Registry::collect(fizzbuzz_nodes::node_types(), base_scalars()).expect("the declarations are consistent")
}

fn listing() -> Vec<NodeType> {
    fizzbuzz_nodes::node_types()
}

fn check(node: &CompiledNode) -> Vec<String> {
    fizzbuzz_nodes::check(node)
}

fn counter(id: &str) -> NodeInstance {
    NodeInstance {
        uuid: uuid(id),
        type_ref: "fizzbuzz/counter".to_owned(),
        label: None,
        parameters: vec![
            ("start".to_owned(), ParameterValue::Int(1)),
            ("stop".to_owned(), ParameterValue::Int(3)),
            ("step".to_owned(), ParameterValue::Int(1)),
        ],
        metadata: vec![],
    }
}

fn graph(nodes: Vec<NodeInstance>, edges: Vec<Edge>) -> GraphDefinition {
    GraphDefinition { schema_version: SCHEMA_VERSION, name: None, nodes, edges, groups: vec![] }
}

fn session(nodes: Vec<NodeInstance>, edges: Vec<Edge>) -> Session {
    Session::new(graph(nodes, edges), None, &registry(), &check)
}

fn position(x: u64, y: u64) -> Yaml {
    Yaml::Mapping(vec![
        nodetool::graph::YamlEntry { key: Yaml::Text("x".to_owned()), key_text: "x".to_owned(), value: Yaml::Number(YamlNumber::PosInt(x)) },
        nodetool::graph::YamlEntry { key: Yaml::Text("y".to_owned()), key_text: "y".to_owned(), value: Yaml::Number(YamlNumber::PosInt(y)) },
    ])
}

#[test]
fn a_created_node_joins_the_definition_and_dirties_it() {
    let mut s = session(vec![], vec![]);
    let id = s.create_node("fizzbuzz/output".to_owned(), position(10, 20), &listing()).expect("a listed type");
    assert_eq!(s.graph.nodes.len(), 1);
    assert_eq!(s.graph.nodes[0].uuid, id);
    assert_eq!(s.graph.nodes[0].type_ref, "fizzbuzz/output");
    assert!(s.dirty);
    assert_eq!(s.graph.nodes[0].metadata.len(), 1);
    assert_eq!(s.graph.nodes[0].metadata[0].key_text, "position");
}

#[test]
fn an_unknown_type_is_refused_and_changes_nothing() {
    let mut s = session(vec![], vec![]);
    let error = s.create_node("nowhere/thing".to_owned(), position(0, 0), &listing()).unwrap_err();
    assert_eq!(
        error,
        "no group `nowhere/thing` is defined in this document and no node type `nowhere/thing` is linked into this binary"
    );
    assert!(s.graph.nodes.is_empty());
    assert!(!s.dirty);
}

#[test]
fn a_landing_wire_replaces_the_inputs_other_sources() {
    let mut s = session(vec![counter(COUNTER), counter(OTHER), counter(THIRD)], vec![]);
    s.wire(uuid(OTHER), "count".to_owned(), uuid(COUNTER), "start".to_owned()).unwrap();
    assert_eq!(s.graph.edges.len(), 1);
    assert!(!s.graph.nodes[0].parameters.iter().any(|(name, _)| name == "start"));
    s.wire(uuid(THIRD), "count".to_owned(), uuid(COUNTER), "start".to_owned()).unwrap();
    assert_eq!(s.graph.edges.len(), 1);
    assert_eq!(s.graph.edges[0].from, uuid(THIRD));
    assert_eq!(s.wire(uuid(THIRD), "count".to_owned(), 7, "start".to_owned()).unwrap_err(), "no such node in the definition");
}

#[test]
fn unhooking_answers_whether_an_edge_went() {
    let mut s = session(vec![counter(COUNTER), counter(OTHER)], vec![]);
    s.wire(uuid(OTHER), "count".to_owned(), uuid(COUNTER), "stop".to_owned()).unwrap();
    assert_eq!(s.unhook(uuid(COUNTER), "stop".to_owned()), Ok(true));
    assert!(s.graph.edges.is_empty());
    assert_eq!(s.unhook(uuid(COUNTER), "stop".to_owned()), Ok(false));
}

#[test]
fn deleting_a_node_takes_its_wires_with_it() {
    let mut s = session(vec![counter(COUNTER), counter(OTHER), counter(THIRD)], vec![]);
    s.wire(uuid(OTHER), "count".to_owned(), uuid(COUNTER), "start".to_owned()).unwrap();
    s.wire(uuid(COUNTER), "count".to_owned(), uuid(THIRD), "stop".to_owned()).unwrap();
    s.delete_node(uuid(COUNTER)).unwrap();
    assert_eq!(s.graph.nodes.len(), 2);
    assert!(s.graph.edges.is_empty());
    assert_eq!(s.delete_node(uuid(COUNTER)).unwrap_err(), "no such node in the definition");
}

#[test]
fn a_run_holds_the_definition_still() {
    let mut s = session(vec![counter(COUNTER)], vec![]);
    let registry = registry();
    let started = s.handle(Request::StartRun, &listing(), &registry, &check);
    assert!(matches!(started, Ok(Reply::RunStarted(_))));
    assert!(matches!(s.run, RunState::Running));
    let refused = s.handle(Request::DeleteNode { uuid: uuid(COUNTER) }, &listing(), &registry, &check);
    assert_eq!(refused.err(), Some("a run is on: the definition is held still until it ends".to_owned()));
    assert_eq!(s.graph.nodes.len(), 1);
    assert!(matches!(s.handle(Request::GetDefinition, &listing(), &registry, &check), Ok(Reply::Definition)));
    let again = s.handle(Request::StartRun, &listing(), &registry, &check);
    assert_eq!(again.err(), Some("a run is already on: stop it before starting another".to_owned()));
}

#[test]
fn an_empty_definition_has_nothing_to_run() {
    let mut s = session(vec![], vec![]);
    assert_eq!(
        s.start_run(&registry(), &check).err(),
        Some("the held definition has no nodes: there is nothing to run".to_owned())
    );
    assert_eq!(s.stop_run().err(), Some("no run is on to stop".to_owned()));
    assert_eq!(s.reset_run().err(), Some("no run to reset: none is on and none has run".to_owned()));
}

#[test]
fn a_definition_that_does_not_compile_is_answered_with_its_errors() {
    let mut bare = counter(COUNTER);
    bare.parameters.clear();
    let mut s = session(vec![bare], vec![]);
    let error = match s.start_run(&registry(), &check) {
        Err(error) => error,
        Ok(_) => panic!("the counter without literals does not compile"),
    };
    assert!(error.starts_with("the definition does not compile:\n"), "{error}");
    assert!(matches!(s.run, RunState::Idle(None)));
}

#[test]
fn the_run_display_follows_the_runs_events() {
    let mut s = session(vec![counter(COUNTER)], vec![]);
    s.start_run(&registry(), &check).unwrap();
    let generation = s.generation;
    let node = uuid(COUNTER);
    assert_eq!(s.hear(generation, RunEvent::NodeStarted(node)), Some(vec![(node, Status::Running)]));
    s.hear(generation, RunEvent::Emitted { node, port: "count".to_owned(), value: Some("1".to_owned()) });
    assert_eq!(s.display.values.len(), 1);
    assert_eq!(s.display.values[0].2, "1");
    assert_eq!(s.hear(generation.wrapping_add(1), RunEvent::NodeCompleted(node)), None);
    let closing = s.hear(generation, RunEvent::RunFinished(RunOutcome::Stopped)).unwrap();
    assert_eq!(closing, vec![(node, Status::Stopped)]);
    assert!(matches!(s.run, RunState::Idle(Some(_))));
    assert_eq!(s.reset_run(), Ok(false));
    assert!(s.display.statuses.is_empty());
}

#[test]
fn a_run_plan_feeds_each_input_from_its_literal() {
    let s = session(vec![counter(COUNTER)], vec![]);
    let registry = registry();
    let mut s = s;
    let compiled = s.start_run(&registry, &check).unwrap();
    let plans = match plan(&compiled, &registry) {
        Ok(plans) => plans,
        Err((message, _)) => panic!("{message}"),
    };
    assert_eq!(plans.len(), 1);
    assert_eq!(plans[0].uuid, uuid(COUNTER));
    let names: Vec<&str> = plans[0].inputs.iter().map(|(name, _)| name.as_str()).collect();
    assert_eq!(names, vec!["start", "stop", "step"]);
    assert!(plans[0].inputs.iter().all(|(_, feed)| matches!(feed, Feed::Literal(_))));
    assert_eq!(plans[0].outputs.len(), 1);
    assert!(plans[0].outputs[0].1.is_empty());
}

#[test]
fn packaging_and_unpacking_a_selection_round_trips_its_nodes() {
    let mut s = session(vec![counter(COUNTER), counter(OTHER)], vec![]);
    let registry = registry();
    s.wire(uuid(COUNTER), "count".to_owned(), uuid(OTHER), "stop".to_owned()).unwrap();
    let selection = vec![uuid(COUNTER), uuid(OTHER)];
    let instance = s.package_group(&selection, "pair", &registry).expect("the selection packages");
    assert_eq!(s.graph.nodes.len(), 1);
    assert_eq!(s.graph.nodes[0].uuid, instance);
    assert_eq!(s.graph.nodes[0].type_ref, "pair");
    assert_eq!(s.graph.groups.len(), 1);
    assert_eq!(s.graph.groups[0].nodes.len(), 2);
    assert_eq!(s.graph.groups[0].edges.len(), 1);
    let restored = s.unpack_group(instance, &registry).expect("the instance unpacks");
    assert_eq!(restored.len(), 2);
    assert_eq!(s.graph.nodes.len(), 2);
    assert_eq!(s.graph.edges.len(), 1);
    assert!(s.graph.nodes.iter().all(|n| n.type_ref == "fizzbuzz/counter"));
}

#[test]
fn packaging_refuses_an_empty_selection_and_a_taken_name() {
    let mut s = session(vec![counter(COUNTER)], vec![]);
    let registry = registry();
    assert_eq!(
        s.package_group(&vec![], "pair", &registry).unwrap_err(),
        "the selection is empty: there is nothing to package"
    );
    assert_eq!(s.package_group(&vec![uuid(COUNTER)], "", &registry).unwrap_err(), "the group's name is empty");
    assert_eq!(
        s.package_group(&vec![uuid(COUNTER)], "fizzbuzz/counter", &registry).unwrap_err(),
        "the name `fizzbuzz/counter` collides with a node type a linked plugin declares"
    );
}

#[test]
fn unpacking_a_plain_node_is_refused() {
    let mut s = session(vec![counter(COUNTER)], vec![]);
    let error = s.unpack_group(uuid(COUNTER), &registry()).unwrap_err();
    assert_eq!(
        error,
        "node Counter instantiates `fizzbuzz/counter`, which no group in the document defines; there is nothing to unpack"
    );
}

#[test]
fn a_cycle_is_refused_naming_it() {
    let mut s = session(vec![counter(COUNTER), counter(OTHER)], vec![]);
    s.wire(uuid(COUNTER), "count".to_owned(), uuid(OTHER), "start".to_owned()).unwrap();
    s.wire(uuid(OTHER), "count".to_owned(), uuid(COUNTER), "start".to_owned()).unwrap();
    let error = match s.start_run(&registry(), &check) {
        Err(error) => error,
        Ok(_) => panic!("a cycle does not compile"),
    };
    assert!(error.contains("cycle: Counter → Counter → Counter"), "{error}");
}

#[test]
fn a_cycle_reports_its_walk_and_each_input_carrying_both() {
    let wire = |from: &str, to: &str| Edge {
        from: uuid(from),
        from_port: "count".to_owned(),
        to: uuid(to),
        to_port: "start".to_owned(),
    };
    let definition = graph(vec![counter(COUNTER), counter(OTHER)], vec![wire(COUNTER, OTHER), wire(OTHER, COUNTER)]);
    let result = nodetool::compile::compile(&definition, &registry(), &check);
    assert!(result.graph.is_none());
    let cycle = result.errors.iter().find(|p| p.message.starts_with("cycle: ")).expect("the cycle is reported");
    assert_eq!(cycle.message, "cycle: Counter → Counter → Counter");
    assert_eq!(cycle.nodes.len(), 3);
    assert_eq!(cycle.nodes[0], cycle.nodes[2]);
    assert_ne!(cycle.nodes[0], cycle.nodes[1]);
    let both: Vec<&Vec<u128>> = result
        .errors
        .iter()
        .filter(|p| {
            p.message
                == "input `start` of node Counter holds a parameter value and receives a connection; an input carries one or the other"
        })
        .map(|p| &p.nodes)
        .collect();
    assert_eq!(both, vec![&vec![uuid(COUNTER)], &vec![uuid(OTHER)]]);
}

#[test]
fn an_unknown_type_is_the_first_compile_error_marking_its_node() {
    let mut stray = counter(THIRD);
    stray.type_ref = "nowhere/nothing".to_owned();
    let result = nodetool::compile::compile(&graph(vec![counter(COUNTER), stray], vec![]), &registry(), &check);
    assert!(result.graph.is_none());
    assert!(result.errors[0].message.contains("instantiates `nowhere/nothing`"), "{}", result.errors[0].message);
    assert!(result.errors[0].message.ends_with("no linked plugin declares"));
    assert_eq!(result.errors[0].nodes, vec![uuid(THIRD)]);
}

#[test]
fn a_run_ends_at_the_first_report_that_ends_it() {
    assert!(matches!(run_step(TaskReport::AllEnded), Some(RunOutcome::Complete)));
    assert!(run_step(TaskReport::NodeEnded).is_none());
    assert!(run_step(TaskReport::StopChanged { stop: false }).is_none());
    assert!(matches!(run_step(TaskReport::StopChanged { stop: true }), Some(RunOutcome::Stopped)));
    match run_step(TaskReport::NodeFailed { node: uuid(COUNTER), error: "boom".to_owned() }) {
        Some(RunOutcome::Failed { error, node }) => {
            assert_eq!(error, "boom");
            assert_eq!(node, Some(uuid(COUNTER)));
        },
        _ => panic!("a node failure ends the run failed"),
    }
    match run_step(TaskReport::TaskLost { error: "gone".to_owned() }) {
        Some(RunOutcome::Failed { error, node }) => {
            assert_eq!(error, "gone");
            assert_eq!(node, None);
        },
        _ => panic!("a lost task ends the run failed"),
    }
}

#[test]
fn the_walk_names_the_cycle_it_closes_first() {
    let adjacency = vec![vec![], vec![2], vec![3], vec![1]];
    assert_eq!(nodetool::cycle::first_cycle(&vec![1, 2, 3], &adjacency), Some(vec![1, 2, 3, 1]));
    assert_eq!(nodetool::cycle::first_cycle(&vec![2, 1], &adjacency), Some(vec![2, 3, 1, 2]));
    let chain = vec![vec![1], vec![2], vec![]];
    assert_eq!(nodetool::cycle::first_cycle(&vec![0, 1, 2], &chain), None);
    let looped = vec![vec![0]];
    assert_eq!(nodetool::cycle::first_cycle(&vec![0], &looped), Some(vec![0, 0]));
}

#[test]
fn runs_wait_for_every_input_then_follow_the_arrivals_in_order() {
    let mut firing = nodetool::behaviour::Firing::new(2);
    firing.arrived(0);
    firing.arrived(0);
    assert_eq!(firing.next_run(), None);
    firing.arrived(1);
    assert_eq!(firing.next_run(), Some(0));
    assert_eq!(firing.next_run(), Some(0));
    assert_eq!(firing.next_run(), Some(1));
    assert_eq!(firing.next_run(), None);
}
