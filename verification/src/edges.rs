//! Wiring: every edge must land on ports that exist on its node types, an
//! input takes at most one upstream connection while an output fans out
//! freely, and each connection's type resolves across the two ports'
//! declared unions before the graph is built.

use vstd::prelude::*;
use vstd::string::StringExecFns;
use crate::graph::{Edge, NodeInstance};
use crate::ids::{hyphenated, uuid_text};
use crate::instances::{carried, instance_of, instance_with, lemma_carried, name_in, name_of, problem, type_label, type_of, types_known, Problem};
use crate::model::{has_port, port, port_named, Conversion, NodeType};
use crate::registry::Registry;
use crate::resolve::{resolution, resolve_types, Resolved};
use crate::text::{join_names, joined, same_text, views};

verus! {

/// One compiled connection: a definition edge whose type resolved.
pub struct Connection {
    pub from: u128,
    pub from_port: String,
    pub to: u128,
    pub to_port: String,
    /// The connection's type, resolved from the ports' declared unions.
    pub resolved_type: Resolved,
    /// The declared conversion the connection rides, if any.
    pub conversion: Option<Conversion>,
}

/// One fed input: the node and input port, the upstream node of the latest
/// edge into it, and the upstream output and resolved type of the latest
/// edge into it whose type resolved.
pub struct Feed {
    pub to: u128,
    pub input: String,
    pub from: u128,
    pub source: Option<(u128, String, Resolved)>,
}

/// The node type of the instance a uuid names, if both exist.
pub open spec fn typed(registry: Registry, nodes: Seq<NodeInstance>, uuid: u128) -> Option<NodeType> {
    if carried(nodes, uuid) { type_of(registry, instance_with(nodes, uuid)) } else { None }
}

/// The edge feeds input `port` of the node `uuid`: it lands there, on a
/// port the node's type declares.
pub open spec fn feeds_input(registry: Registry, nodes: Seq<NodeInstance>, edge: Edge, uuid: u128, port: Seq<char>) -> bool {
    &&& edge.to == uuid
    &&& edge.to_port@ == port
    &&& match typed(registry, nodes, uuid) {
        Some(t) => has_port(t.inputs@, port),
        None => false,
    }
}

/// Some edge feeds input `port` of the node `uuid`.
pub open spec fn is_fed(registry: Registry, nodes: Seq<NodeInstance>, edges: Seq<Edge>, uuid: u128, port: Seq<char>) -> bool {
    exists|i: int| 0 <= i < edges.len() && feeds_input(registry, nodes, #[trigger] edges[i], uuid, port)
}

/// The type a sound edge's connection resolves to, with its conversion.
pub open spec fn edge_resolution(registry: Registry, nodes: Seq<NodeInstance>, edge: Edge) -> Option<(Resolved, Option<Conversion>)> {
    match (typed(registry, nodes, edge.from), typed(registry, nodes, edge.to)) {
        (Some(tf), Some(tt)) => match (port_named(tf.outputs@, edge.from_port@), port_named(tt.inputs@, edge.to_port@)) {
            (Some(output), Some(input)) => resolution(registry, output.type_refs@, input.type_refs@),
            _ => None,
        },
        _ => None,
    }
}

/// Both ends exist, on ports their types declare, and the type resolves.
pub open spec fn edge_sound(registry: Registry, nodes: Seq<NodeInstance>, edge: Edge) -> bool {
    edge_resolution(registry, nodes, edge) is Some
}

/// Every edge is sound and no two edges feed the same input.
pub open spec fn edges_sound(registry: Registry, nodes: Seq<NodeInstance>, edges: Seq<Edge>) -> bool {
    &&& forall|i: int| 0 <= i < edges.len() ==> edge_sound(registry, nodes, #[trigger] edges[i])
    &&& forall|i: int, j: int| 0 <= i < j < edges.len() ==>
        !((#[trigger] edges[i]).to == (#[trigger] edges[j]).to && edges[i].to_port@ == edges[j].to_port@)
}

/// The connection compiled from a sound edge.
pub open spec fn connects(registry: Registry, nodes: Seq<NodeInstance>, edge: Edge, connection: Connection) -> bool {
    &&& connection.from == edge.from
    &&& connection.from_port@ == edge.from_port@
    &&& connection.to == edge.to
    &&& connection.to_port@ == edge.to_port@
    &&& edge_resolution(registry, nodes, edge) == Some((connection.resolved_type, connection.conversion))
}

/// Whether the feeds record input `port` of node `uuid`.
pub open spec fn fed_has(fed: Seq<Feed>, uuid: u128, port: Seq<char>) -> bool {
    exists|j: int| 0 <= j < fed.len() && (#[trigger] fed[j]).to == uuid && fed[j].input@ == port
}

/// No input is recorded twice.
pub open spec fn fed_unique(fed: Seq<Feed>) -> bool {
    forall|i: int, j: int| 0 <= i < j < fed.len() ==>
        !((#[trigger] fed[i]).to == (#[trigger] fed[j]).to && fed[i].input@ == fed[j].input@)
}

/// How a message names one end of an edge: the node's own name where the
/// graph defines it, else the uuid the file writes for it.
pub open spec fn endpoint_name(registry: Registry, nodes: Seq<NodeInstance>, uuid: u128) -> Seq<char> {
    if carried(nodes, uuid) { name_in(registry, instance_with(nodes, uuid)) } else { hyphenated(uuid) }
}

pub fn endpoint_text(registry: &Registry, nodes: &Vec<NodeInstance>, uuid: u128) -> (name: String)
    requires
        registry.wf(),
    ensures
        name@ == endpoint_name(*registry, nodes@, uuid),
{
    match instance_of(nodes, uuid) {
        Some(instance) => name_of(registry, instance),
        None => uuid_text(uuid),
    }
}

/// The position of the feed recorded for input `port` of node `uuid`.
fn feed_position(fed: &Vec<Feed>, uuid: u128, port: &str) -> (found: Option<usize>)
    ensures
        match found {
            Some(j) => j < fed.len() && fed@[j as int].to == uuid && fed@[j as int].input@ == port@,
            None => !fed_has(fed@, uuid, port@),
        },
{
    let mut j: usize = 0;
    while j < fed.len()
        invariant
            j <= fed.len(),
            forall|m: int| 0 <= m < j ==> !((#[trigger] fed@[m]).to == uuid && fed@[m].input@ == port@),
        decreases fed.len() - j,
    {
        if fed[j].to == uuid && same_text(fed[j].input.as_str(), port) {
            return Some(j);
        }
        j = j + 1;
    }
    None
}

/// The position of the feed recorded for input `port` of node `uuid`.
pub fn feed_position_for(fed: &Vec<Feed>, uuid: u128, port: &str) -> (found: Option<usize>)
    ensures
        match found {
            Some(j) => j < fed.len() && fed@[j as int].to == uuid && fed@[j as int].input@ == port@,
            None => !fed_has(fed@, uuid, port@),
        },
{
    feed_position(fed, uuid, port)
}

/// Whether the feeds record input `port` of node `uuid`.
pub fn is_fed_input(fed: &Vec<Feed>, uuid: u128, port: &str) -> (found: bool)
    ensures
        found == fed_has(fed@, uuid, port@),
{
    feed_position(fed, uuid, port).is_some()
}

fn undefined_end(from: &String, from_port: &String, to: &String, to_port: &String, role: &str) -> (message: String)
    ensures
        message@ == "edge "@ + from@ + " `"@ + from_port@ + "` → "@ + to@ + " `"@ + to_port@
            + "`: the "@ + role@ + " node is not defined in the graph"@,
{
    let mut message = "edge ".to_owned();
    message.append(from.as_str());
    message.append(" `");
    message.append(from_port.as_str());
    message.append("` → ");
    message.append(to.as_str());
    message.append(" `");
    message.append(to_port.as_str());
    message.append("`: the ");
    message.append(role);
    message.append(" node is not defined in the graph");
    message
}

fn missing_port(name: &String, side: &str, port: &String) -> (message: String)
    ensures
        message@ == "node "@ + name@ + " has no "@ + side@ + " port `"@ + port@ + "`"@,
{
    let mut message = "node ".to_owned();
    message.append(name.as_str());
    message.append(" has no ");
    message.append(side);
    message.append(" port `");
    message.append(port.as_str());
    message.append("`");
    message
}

fn doubly_fed(input: &String, name: &String, first: &String, second: &String) -> (message: String)
    ensures
        message@ == "input `"@ + input@ + "` of node "@ + name@ + " receives more than one connection (from "@
            + first@ + " and "@ + second@ + ")"@,
{
    let mut message = "input `".to_owned();
    message.append(input.as_str());
    message.append("` of node ");
    message.append(name.as_str());
    message.append(" receives more than one connection (from ");
    message.append(first.as_str());
    message.append(" and ");
    message.append(second.as_str());
    message.append(")");
    message
}

fn unbridged(from: &String, from_id: u128, from_port: &String, outputs: &Vec<String>, to: &String, to_id: u128, to_port: &String,
    inputs: &Vec<String>) -> (message: String)
    ensures
        message@ == "connection "@ + from@ + " ("@ + hyphenated(from_id) + ") `"@ + from_port@ + "` ("@
            + joined(views(outputs@), ", "@) + ") → "@ + to@ + " ("@ + hyphenated(to_id) + ") `"@ + to_port@ + "` ("@
            + joined(views(inputs@), ", "@) + "): no exact match and no declared conversion bridges them"@,
{
    let mut message = "connection ".to_owned();
    message.append(from.as_str());
    message.append(" (");
    let id = uuid_text(from_id);
    message.append(id.as_str());
    message.append(") `");
    message.append(from_port.as_str());
    message.append("` (");
    let outs = join_names(outputs, ", ");
    message.append(outs.as_str());
    message.append(") → ");
    message.append(to.as_str());
    message.append(" (");
    let id = uuid_text(to_id);
    message.append(id.as_str());
    message.append(") `");
    message.append(to_port.as_str());
    message.append("` (");
    let ins = join_names(inputs, ", ");
    message.append(ins.as_str());
    message.append("): no exact match and no declared conversion bridges them");
    message
}

/// A problem marking the two ends of a connection.
fn problem_of_two(message: String, first: u128, second: u128) -> (p: Problem)
    ensures
        p.message@ == message@,
        p.nodes@ == seq![first, second],
{
    let mut nodes: Vec<u128> = Vec::new();
    nodes.push(first);
    nodes.push(second);
    Problem { message, nodes }
}

/// The type of the instance a uuid names.
fn typed_of<'r>(registry: &'r Registry, nodes: &Vec<NodeInstance>, uuid: u128) -> (found: Option<&'r NodeType>)
    requires
        registry.wf(),
    ensures
        match found {
            Some(t) => typed(*registry, nodes@, uuid) == Some(*t),
            None => typed(*registry, nodes@, uuid) is None,
        },
{
    match instance_of(nodes, uuid) {
        Some(instance) => type_label(registry, instance),
        None => None,
    }
}

/// Under known types, every uuid a node carries names a typed instance.
proof fn lemma_typed(registry: Registry, nodes: Seq<NodeInstance>, uuid: u128)
    requires
        types_known(registry, nodes),
        carried(nodes, uuid),
    ensures
        typed(registry, nodes, uuid) is Some,
{
    let k = choose|k: int| 0 <= k < nodes.len() && #[trigger] nodes[k].uuid == uuid;
    lemma_carried(nodes, uuid, k);
    let f = choose|f: int| 0 <= f < nodes.len() && instance_with(nodes, uuid) == #[trigger] nodes[f];
    assert(type_of(registry, nodes[f]) is Some);
}

/// Wire one edge: report what is wrong with it, record the input it feeds,
/// and compile its connection when its type resolves.
fn wire_edge(
    nodes: &Vec<NodeInstance>,
    edge: &Edge,
    registry: &Registry,
    errors: &mut Vec<Problem>,
    fed: &mut Vec<Feed>,
    connections: &mut Vec<Connection>,
)
    requires
        registry.wf(),
        fed_unique(old(fed)@),
    ensures
        final(errors)@.len() >= old(errors)@.len(),
        final(errors)@.subrange(0, old(errors)@.len() as int) == old(errors)@,
        fed_unique(final(fed)@),
        forall|u: u128, p: Seq<char>| fed_has(final(fed)@, u, p)
            <==> (fed_has(old(fed)@, u, p) || feeds_input(*registry, nodes@, *edge, u, p)),
        final(errors)@.len() == old(errors)@.len() && types_known(*registry, nodes@) ==> {
            &&& edge_sound(*registry, nodes@, *edge)
            &&& !fed_has(old(fed)@, edge.to, edge.to_port@)
            &&& final(connections)@.len() == old(connections)@.len() + 1
            &&& final(connections)@.subrange(0, old(connections)@.len() as int) == old(connections)@
            &&& connects(*registry, nodes@, *edge, final(connections)@.last())
        },
        edge_sound(*registry, nodes@, *edge) && !fed_has(old(fed)@, edge.to, edge.to_port@) ==> final(errors)@ == old(errors)@,
{
    let ghost start = errors@;
    let ghost start_fed = fed@;
    let ghost start_connections = connections@;
    let from = instance_of(nodes, edge.from);
    let to = instance_of(nodes, edge.to);
    proof {
        if types_known(*registry, nodes@) && carried(nodes@, edge.from) {
            lemma_typed(*registry, nodes@, edge.from);
        }
        if types_known(*registry, nodes@) && carried(nodes@, edge.to) {
            lemma_typed(*registry, nodes@, edge.to);
        }
        crate::model::lemma_port_index(
            match typed(*registry, nodes@, edge.from) { Some(t) => t.outputs@, None => Seq::empty() },
            edge.from_port@,
        );
    }
    if from.is_none() || to.is_none() {
        proof { assert(!(edge_sound(*registry, nodes@, *edge) && !fed_has(start_fed, edge.to, edge.to_port@))); }
        let from_name = endpoint_text(registry, nodes, edge.from);
        let to_name = endpoint_text(registry, nodes, edge.to);
        if from.is_none() {
            let message = undefined_end(&from_name, &edge.from_port, &to_name, &edge.to_port, "from");
            errors.push(problem(message, edge.from));
        }
        if to.is_none() {
            let message = undefined_end(&from_name, &edge.from_port, &to_name, &edge.to_port, "to");
            errors.push(problem(message, edge.to));
        }
    }
    let ghost after_ends = errors@;
    proof {
        assert(errors@.subrange(0, start.len() as int) =~= start);
    }
    let from_type = typed_of(registry, nodes, edge.from);
    let to_type = typed_of(registry, nodes, edge.to);
    let mut output: Option<&crate::model::Port> = None;
    match from_type {
        Some(t) => {
            output = port(&t.outputs, edge.from_port.as_str());
            if output.is_none() {
                proof { assert(!(edge_sound(*registry, nodes@, *edge) && !fed_has(start_fed, edge.to, edge.to_port@))); }
                let name = endpoint_text(registry, nodes, edge.from);
                let message = missing_port(&name, "output", &edge.from_port);
                let ghost before = errors@;
                errors.push(problem(message, edge.from));
                assert(errors@.subrange(0, start.len() as int) =~= before.subrange(0, start.len() as int));
            }
        },
        None => {},
    }
    let mut input: Option<&crate::model::Port> = None;
    match to_type {
        Some(t) => {
            input = port(&t.inputs, edge.to_port.as_str());
            if input.is_none() {
                proof { assert(!(edge_sound(*registry, nodes@, *edge) && !fed_has(start_fed, edge.to, edge.to_port@))); }
                let name = endpoint_text(registry, nodes, edge.to);
                let message = missing_port(&name, "input", &edge.to_port);
                let ghost before = errors@;
                errors.push(problem(message, edge.to));
                assert(errors@.subrange(0, start.len() as int) =~= before.subrange(0, start.len() as int));
            }
        },
        None => {},
    }
    proof {
        crate::model::lemma_port_index(
            match typed(*registry, nodes@, edge.to) { Some(t) => t.inputs@, None => Seq::empty() },
            edge.to_port@,
        );
    }
    let mut slot: Option<usize> = None;
    match input {
        Some(input_port) => {
            match feed_position(fed, edge.to, input_port.name.as_str()) {
                Some(j) => {
                    proof {
                        assert(input_port.name@ == edge.to_port@);
                        assert(fed_has(start_fed, edge.to, edge.to_port@));
                    }
                    let first = fed[j].from;
                    let input_name = input_port.name.clone();
                    let name = endpoint_text(registry, nodes, edge.to);
                    let first_name = endpoint_text(registry, nodes, first);
                    let from_name = endpoint_text(registry, nodes, edge.from);
                    let message = doubly_fed(&input_name, &name, &first_name, &from_name);
                    let ghost before = errors@;
                    errors.push(problem(message, edge.to));
                    assert(errors@.subrange(0, start.len() as int) =~= before.subrange(0, start.len() as int));
                    let entry = Feed {
                        to: fed[j].to,
                        input: fed[j].input.clone(),
                        from: edge.from,
                        source: match &fed[j].source {
                            Some(s) => Some((s.0, s.1.clone(), s.2.copy())),
                            None => None,
                        },
                    };
                    let ghost before_fed = fed@;
                    fed.set(j, entry);
                    proof {
                        assert forall|u: u128, p: Seq<char>| fed_has(fed@, u, p) <==> fed_has(before_fed, u, p) by {
                            if fed_has(fed@, u, p) {
                                let m = choose|m: int| 0 <= m < fed@.len() && (#[trigger] fed@[m]).to == u && fed@[m].input@ == p;
                                assert(before_fed[m].to == u && before_fed[m].input@ == p);
                            }
                            if fed_has(before_fed, u, p) {
                                let m = choose|m: int| 0 <= m < before_fed.len() && (#[trigger] before_fed[m]).to == u && before_fed[m].input@ == p;
                                assert(fed@[m].to == u && fed@[m].input@ == p);
                            }
                        }
                        assert(fed_unique(fed@)) by {
                            assert forall|a: int, b: int| 0 <= a < b < fed@.len() implies
                                !((#[trigger] fed@[a]).to == (#[trigger] fed@[b]).to && fed@[a].input@ == fed@[b].input@) by {
                                assert(before_fed[a].to == fed@[a].to && before_fed[a].input@ == fed@[a].input@);
                                assert(before_fed[b].to == fed@[b].to && before_fed[b].input@ == fed@[b].input@);
                            }
                        }
                    }
                    proof {
                        assert(before_fed[j as int].to == edge.to && before_fed[j as int].input@ == input_port.name@);
                        assert(fed_has(start_fed, edge.to, input_port.name@));
                    }
                    slot = Some(j);
                },
                None => {
                    let ghost before_fed = fed@;
                    fed.push(Feed { to: edge.to, input: input_port.name.clone(), from: edge.from, source: None });
                    proof {
                        assert forall|u: u128, p: Seq<char>| fed_has(fed@, u, p) <==> (fed_has(before_fed, u, p) || (u == edge.to && p == input_port.name@)) by {
                            if fed_has(fed@, u, p) {
                                let m = choose|m: int| 0 <= m < fed@.len() && (#[trigger] fed@[m]).to == u && fed@[m].input@ == p;
                                if m < before_fed.len() {
                                    assert(before_fed[m].to == u && before_fed[m].input@ == p);
                                }
                            }
                            if fed_has(before_fed, u, p) {
                                let m = choose|m: int| 0 <= m < before_fed.len() && (#[trigger] before_fed[m]).to == u && before_fed[m].input@ == p;
                                assert(fed@[m].to == u && fed@[m].input@ == p);
                            }
                            if u == edge.to && p == input_port.name@ {
                                assert(fed@[before_fed.len() as int].to == u);
                            }
                        }
                        assert(fed_unique(fed@)) by {
                            assert forall|a: int, b: int| 0 <= a < b < fed@.len() implies
                                !((#[trigger] fed@[a]).to == (#[trigger] fed@[b]).to && fed@[a].input@ == fed@[b].input@) by {
                                if b == before_fed.len() {
                                    assert(before_fed[a] == fed@[a]);
                                } else {
                                    assert(before_fed[a] == fed@[a]);
                                    assert(before_fed[b] == fed@[b]);
                                }
                            }
                        }
                    }
                    slot = Some(fed.len() - 1);
                },
            }
        },
        None => {},
    }
    proof {
        assert forall|u: u128, p: Seq<char>| fed_has(fed@, u, p)
            <==> (fed_has(start_fed, u, p) || feeds_input(*registry, nodes@, *edge, u, p)) by {
            if feeds_input(*registry, nodes@, *edge, u, p) {
                assert(input is Some);
            }
            if input is Some {
                assert(input.unwrap().name@ == edge.to_port@);
            }
        }
    }
    match (output, input) {
        (Some(output_port), Some(input_port)) => {
            match resolve_types(&output_port.type_refs, &input_port.type_refs, registry) {
                Some((resolved_type, conversion)) => {
                    match slot {
                        Some(j) => {
                            let entry = Feed {
                                to: fed[j].to,
                                input: fed[j].input.clone(),
                                from: fed[j].from,
                                source: Some((edge.from, output_port.name.clone(), resolved_type.copy())),
                            };
                            let ghost before_fed = fed@;
                            fed.set(j, entry);
                            proof {
                                assert forall|u: u128, p: Seq<char>| fed_has(fed@, u, p) <==> fed_has(before_fed, u, p) by {
                                    if fed_has(fed@, u, p) {
                                        let m = choose|m: int| 0 <= m < fed@.len() && (#[trigger] fed@[m]).to == u && fed@[m].input@ == p;
                                        assert(before_fed[m].to == u && before_fed[m].input@ == p);
                                    }
                                    if fed_has(before_fed, u, p) {
                                        let m = choose|m: int| 0 <= m < before_fed.len() && (#[trigger] before_fed[m]).to == u && before_fed[m].input@ == p;
                                        assert(fed@[m].to == u && fed@[m].input@ == p);
                                    }
                                }
                                assert(fed_unique(fed@)) by {
                                    assert forall|a: int, b: int| 0 <= a < b < fed@.len() implies
                                        !((#[trigger] fed@[a]).to == (#[trigger] fed@[b]).to && fed@[a].input@ == fed@[b].input@) by {
                                        assert(before_fed[a].to == fed@[a].to && before_fed[a].input@ == fed@[a].input@);
                                        assert(before_fed[b].to == fed@[b].to && before_fed[b].input@ == fed@[b].input@);
                                    }
                                }
                            }
                        },
                        None => {},
                    }
                    connections.push(Connection {
                        from: edge.from,
                        from_port: output_port.name.clone(),
                        to: edge.to,
                        to_port: input_port.name.clone(),
                        resolved_type,
                        conversion,
                    });
                    proof {
                        assert(connections@.subrange(0, start_connections.len() as int) =~= start_connections);
                    }
                },
                None => {
                    proof { assert(!(edge_sound(*registry, nodes@, *edge) && !fed_has(start_fed, edge.to, edge.to_port@))); }
                    let from_name = endpoint_text(registry, nodes, edge.from);
                    let to_name = endpoint_text(registry, nodes, edge.to);
                    let message = unbridged(&from_name, edge.from, &edge.from_port, &output_port.type_refs, &to_name, edge.to, &edge.to_port,
                        &input_port.type_refs);
                    let ghost before = errors@;
                    errors.push(problem_of_two(message, edge.from, edge.to));
                    assert(errors@.subrange(0, start.len() as int) =~= before.subrange(0, start.len() as int));
                },
            }
        },
        _ => {},
    }
}

/// Wire every edge in order: the problems each edge raises, the fed inputs,
/// and the compiled connections. With no problem raised, every edge is
/// sound, no input is fed twice, and the connections are the edges'.
pub fn wire_edges(
    nodes: &Vec<NodeInstance>,
    edges: &Vec<Edge>,
    registry: &Registry,
    errors: &mut Vec<Problem>,
) -> (wiring: (Vec<Connection>, Vec<Feed>))
    requires
        registry.wf(),
    ensures
        final(errors)@.len() >= old(errors)@.len(),
        final(errors)@.subrange(0, old(errors)@.len() as int) == old(errors)@,
        fed_unique(wiring.1@),
        forall|u: u128, p: Seq<char>| fed_has(wiring.1@, u, p) <==> is_fed(*registry, nodes@, edges@, u, p),
        final(errors)@.len() == old(errors)@.len() && types_known(*registry, nodes@) ==> {
            &&& edges_sound(*registry, nodes@, edges@)
            &&& wiring.0@.len() == edges@.len()
            &&& forall|i: int| 0 <= i < edges@.len() ==> connects(*registry, nodes@, #[trigger] edges@[i], wiring.0@[i])
        },
        edges_sound(*registry, nodes@, edges@) ==> final(errors)@ == old(errors)@,
{
    let ghost original = errors@;
    let mut connections: Vec<Connection> = Vec::new();
    let mut fed: Vec<Feed> = Vec::new();
    let mut i: usize = 0;
    while i < edges.len()
        invariant
            registry.wf(),
            i <= edges.len(),
            errors@.len() >= original.len(),
            errors@.subrange(0, original.len() as int) == original,
            fed_unique(fed@),
            forall|u: u128, p: Seq<char>| fed_has(fed@, u, p) <==> is_fed(*registry, nodes@, edges@.subrange(0, i as int), u, p),
            original == old(errors)@,
            edges_sound(*registry, nodes@, edges@) ==> errors@ == original,
            errors@.len() == original.len() && types_known(*registry, nodes@) ==> {
                &&& edges_sound(*registry, nodes@, edges@.subrange(0, i as int))
                &&& connections@.len() == i
                &&& forall|k: int| 0 <= k < i ==> connects(*registry, nodes@, #[trigger] edges@[k], connections@[k])
            },
        decreases edges.len() - i,
    {
        let ghost before = errors@;
        let ghost before_connections = connections@;
        let ghost seen = edges@.subrange(0, i as int);
        let ghost next = edges@.subrange(0, i + 1);
        proof {
            if edges_sound(*registry, nodes@, edges@) {
                assert(edge_sound(*registry, nodes@, edges@[i as int]));
                if fed_has(fed@, edges@[i as int].to, edges@[i as int].to_port@) {
                    let m = choose|m: int| 0 <= m < seen.len() && feeds_input(*registry, nodes@, #[trigger] seen[m], edges@[i as int].to, edges@[i as int].to_port@);
                    assert(seen[m] == edges@[m]);
                    assert(false);
                }
            }
        }
        wire_edge(nodes, &edges[i], registry, errors, &mut fed, &mut connections);
        proof {
            assert(errors@.subrange(0, original.len() as int) =~= errors@.subrange(0, before.len() as int).subrange(0, original.len() as int));
            assert forall|u: u128, p: Seq<char>| is_fed(*registry, nodes@, next, u, p)
                <==> (is_fed(*registry, nodes@, seen, u, p) || feeds_input(*registry, nodes@, edges@[i as int], u, p)) by {
                if is_fed(*registry, nodes@, next, u, p) {
                    let m = choose|m: int| 0 <= m < next.len() && feeds_input(*registry, nodes@, #[trigger] next[m], u, p);
                    if m < i {
                        assert(seen[m] == next[m]);
                    }
                }
                if is_fed(*registry, nodes@, seen, u, p) {
                    let m = choose|m: int| 0 <= m < seen.len() && feeds_input(*registry, nodes@, #[trigger] seen[m], u, p);
                    assert(next[m] == seen[m]);
                }
                if feeds_input(*registry, nodes@, edges@[i as int], u, p) {
                    assert(next[i as int] == edges@[i as int]);
                }
            }
            if errors@.len() == original.len() && types_known(*registry, nodes@) {
                assert(before.len() == original.len());
                let e = edges@[i as int];
                assert forall|k: int| 0 <= k < i + 1 implies connects(*registry, nodes@, #[trigger] edges@[k], connections@[k]) by {
                    if k < i {
                        assert(connections@[k] == before_connections[k]);
                    }
                }
                assert forall|a: int, b: int| 0 <= a < b < next.len() implies
                    !((#[trigger] next[a]).to == (#[trigger] next[b]).to && next[a].to_port@ == next[b].to_port@) by {
                    if b == i {
                        if next[a].to == e.to && next[a].to_port@ == e.to_port@ {
                            assert(seen[a] == next[a]);
                            assert(edge_sound(*registry, nodes@, seen[a]));
                            crate::model::lemma_port_index(typed(*registry, nodes@, e.to).unwrap().inputs@, e.to_port@);
                            assert(feeds_input(*registry, nodes@, seen[a], e.to, e.to_port@));
                            assert(is_fed(*registry, nodes@, seen, e.to, e.to_port@));
                        }
                    } else {
                        assert(seen[a] == next[a]);
                        assert(seen[b] == next[b]);
                    }
                }
                assert forall|k: int| 0 <= k < next.len() implies edge_sound(*registry, nodes@, #[trigger] next[k]) by {
                    if k < i {
                        assert(seen[k] == next[k]);
                    }
                }
            }
        }
        i = i + 1;
    }
    assert(edges@.subrange(0, edges.len() as int) =~= edges@);
    (connections, fed)
}

} // verus!
