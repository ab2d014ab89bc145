//! How a run wires a compiled graph, decided before anything runs: a node
//! whose type declares no behaviour refuses the run; otherwise, per node
//! instance in the graph's order, each declared input is fed by the
//! connection into it, or by the parameter literal it holds — a stream
//! that yields once and completes — or by nothing, and each declared
//! output fans out to every connection leaving it, in connection order.
//! The engine's tasks, hand-offs and events follow the plan; the plan
//! branches on nothing but the compiled graph's shape.

use vstd::prelude::*;
use vstd::string::StringExecFns;
use crate::compile::{CompiledGraph, CompiledNode};
use crate::edges::Connection;
use crate::literal::Scalar;
use crate::model::{NodeType, Port};
use crate::registry::Registry;
use crate::text::same_text;

verus! {

/// What feeds one input of a running node.
pub enum Feed {
    /// The connection of this index in the compiled graph.
    Connection(usize),
    /// The parameter literal the input holds.
    Literal(Scalar),
    /// Nothing: the degenerate stream that ends at once.
    Unconnected,
}

/// One node's wiring: its declared inputs, each with what feeds it, and
/// its declared outputs, each with the connections it fans out to.
pub struct NodePlan {
    pub uuid: u128,
    pub inputs: Vec<(String, Feed)>,
    pub outputs: Vec<(String, Vec<usize>)>,
}

/// The index of the last connection into input `port` of `uuid`, or -1.
pub open spec fn last_into(connections: Seq<Connection>, uuid: u128, port: Seq<char>) -> int
    decreases connections.len(),
{
    if connections.len() == 0 {
        -1
    } else if connections.last().to == uuid && connections.last().to_port@ == port {
        connections.len() - 1
    } else {
        last_into(connections.drop_last(), uuid, port)
    }
}

/// The value of the first compiled parameter named `name`.
pub open spec fn literal_of(node: CompiledNode, name: Seq<char>) -> Option<Scalar> {
    crate::utility::parameter_value(node, name)
}

/// What feeds input `port` of the compiled node `node` of `uuid`.
pub open spec fn feed_of(connections: Seq<Connection>, uuid: u128, node: CompiledNode, port: Seq<char>) -> Feed {
    let k = last_into(connections, uuid, port);
    if k >= 0 {
        Feed::Connection(k as usize)
    } else {
        match literal_of(node, port) {
            Some(value) => Feed::Literal(value),
            None => Feed::Unconnected,
        }
    }
}

/// The indices, ascending, of the connections leaving output `port` of
/// `uuid`, among the first `n` connections.
pub open spec fn leaving(connections: Seq<Connection>, uuid: u128, port: Seq<char>) -> Seq<usize>
    decreases connections.len(),
{
    if connections.len() == 0 {
        Seq::empty()
    } else {
        let rest = leaving(connections.drop_last(), uuid, port);
        if connections.last().from == uuid && connections.last().from_port@ == port {
            rest.push((connections.len() - 1) as usize)
        } else {
            rest
        }
    }
}

/// Whether a node's plan follows its type's declared ports.
pub open spec fn planned(plan: NodePlan, uuid: u128, node: CompiledNode, node_type: NodeType, connections: Seq<Connection>) -> bool {
    &&& plan.uuid == uuid
    &&& plan.inputs@.len() == node_type.inputs@.len()
    &&& forall|i: int| 0 <= i < node_type.inputs@.len() ==> {
        &&& (#[trigger] plan.inputs@[i]).0@ == node_type.inputs@[i].name@
        &&& plan.inputs@[i].1 == feed_of(connections, uuid, node, node_type.inputs@[i].name@)
    }
    &&& plan.outputs@.len() == node_type.outputs@.len()
    &&& forall|i: int| 0 <= i < node_type.outputs@.len() ==> {
        &&& (#[trigger] plan.outputs@[i]).0@ == node_type.outputs@[i].name@
        &&& plan.outputs@[i].1@ == leaving(connections, uuid, node_type.outputs@[i].name@)
    }
}

/// The index of the first node whose type declares no behaviour, or the
/// number of nodes.
pub open spec fn first_inert(nodes: Seq<(u128, CompiledNode)>, registry: Registry) -> int
    decreases nodes.len(),
{
    if nodes.len() == 0 {
        0
    } else if !registry.node_type_of(nodes[0].1.type_ref@).unwrap().behaviour {
        0
    } else {
        1 + first_inert(nodes.drop_first(), registry)
    }
}

/// The refusal of a run with a node whose type declares no behaviour.
pub open spec fn inert_refusal(uuid: u128, node: CompiledNode) -> Seq<char> {
    "node "@ + node.label@ + " ("@ + crate::ids::hyphenated(uuid) + ") instantiates `"@ + node.type_ref@
        + "`, which declares no behaviour to run"@
}

/// The refusal of a run whose node `uuid`, compiled as `node`, has a type
/// that declares no behaviour.
pub fn refusal_text(uuid: u128, node: &CompiledNode) -> (message: String)
    ensures
        message@ == inert_refusal(uuid, *node),
{
    let mut message = "node ".to_owned();
    message.append(node.label.as_str());
    message.append(" (");
    let shown = crate::ids::uuid_text(uuid);
    message.append(shown.as_str());
    message.append(") instantiates `");
    message.append(node.type_ref.as_str());
    message.append("`, which declares no behaviour to run");
    message
}

fn last_connection_into(connections: &Vec<Connection>, uuid: u128, port: &str) -> (found: Option<usize>)
    ensures
        match found {
            Some(k) => k as int == last_into(connections@, uuid, port@) && k < connections@.len(),
            None => last_into(connections@, uuid, port@) == -1,
        },
{
    let mut k: usize = connections.len();
    assert(connections@.subrange(0, connections@.len() as int) =~= connections@);
    while k > 0
        invariant
            k <= connections@.len(),
            last_into(connections@, uuid, port@) == last_into(connections@.subrange(0, k as int), uuid, port@),
        decreases k,
    {
        let ghost prefix = connections@.subrange(0, k as int);
        assert(prefix.drop_last() =~= connections@.subrange(0, k - 1));
        k = k - 1;
        if connections[k].to == uuid && same_text(connections[k].to_port.as_str(), port) {
            return Some(k);
        }
    }
    None
}

fn connections_leaving(connections: &Vec<Connection>, uuid: u128, port: &str) -> (found: Vec<usize>)
    ensures
        found@ == leaving(connections@, uuid, port@),
{
    let mut found: Vec<usize> = Vec::new();
    let mut k: usize = 0;
    while k < connections.len()
        invariant
            k <= connections@.len(),
            found@ == leaving(connections@.subrange(0, k as int), uuid, port@),
        decreases connections@.len() - k,
    {
        assert(connections@.subrange(0, k + 1).drop_last() =~= connections@.subrange(0, k as int));
        assert(connections@.subrange(0, k + 1).last() == connections@[k as int]);
        if connections[k].from == uuid && same_text(connections[k].from_port.as_str(), port) {
            found.push(k);
        }
        k = k + 1;
    }
    assert(connections@.subrange(0, connections@.len() as int) =~= connections@);
    found
}

/// The wiring of one node, by its type's declared ports.
fn plan_node(uuid: u128, node: &CompiledNode, node_type: &NodeType, connections: &Vec<Connection>) -> (plan: NodePlan)
    ensures
        planned(plan, uuid, *node, *node_type, connections@),
{
    let mut inputs: Vec<(String, Feed)> = Vec::new();
    let mut i: usize = 0;
    while i < node_type.inputs.len()
        invariant
            i <= node_type.inputs@.len(),
            inputs@.len() == i,
            forall|j: int| 0 <= j < i ==> {
                &&& (#[trigger] inputs@[j]).0@ == node_type.inputs@[j].name@
                &&& inputs@[j].1 == feed_of(connections@, uuid, *node, node_type.inputs@[j].name@)
            },
        decreases node_type.inputs@.len() - i,
    {
        let name = node_type.inputs[i].name.as_str();
        let feed = match last_connection_into(connections, uuid, name) {
            Some(k) => Feed::Connection(k),
            None => match crate::utility::find_parameter(node, name) {
                Some(value) => Feed::Literal(value.copy()),
                None => Feed::Unconnected,
            },
        };
        inputs.push((name.to_owned(), feed));
        i = i + 1;
    }
    let mut outputs: Vec<(String, Vec<usize>)> = Vec::new();
    let mut o: usize = 0;
    while o < node_type.outputs.len()
        invariant
            o <= node_type.outputs@.len(),
            outputs@.len() == o,
            forall|j: int| 0 <= j < o ==> {
                &&& (#[trigger] outputs@[j]).0@ == node_type.outputs@[j].name@
                &&& outputs@[j].1@ == leaving(connections@, uuid, node_type.outputs@[j].name@)
            },
        decreases node_type.outputs@.len() - o,
    {
        let name = node_type.outputs[o].name.as_str();
        let fan = connections_leaving(connections, uuid, name);
        outputs.push((name.to_owned(), fan));
        o = o + 1;
    }
    NodePlan { uuid, inputs, outputs }
}

/// The wiring of a compiled graph's run: refused, naming the node, when a
/// node's type declares no behaviour to run; otherwise each node's plan,
/// in the graph's order.
pub fn plan(graph: &CompiledGraph, registry: &Registry) -> (result: Result<Vec<NodePlan>, (String, u128)>)
    requires
        registry.wf(),
        forall|k: int| 0 <= k < graph.nodes@.len() ==> registry.node_type_of((#[trigger] graph.nodes@[k]).1.type_ref@) is Some,
    ensures
        match result {
            Err((message, uuid)) => {
                let k = first_inert(graph.nodes@, *registry);
                &&& k < graph.nodes@.len()
                &&& uuid == graph.nodes@[k].0
                &&& message@ == inert_refusal(uuid, graph.nodes@[k].1)
            },
            Ok(plans) => {
                &&& first_inert(graph.nodes@, *registry) == graph.nodes@.len()
                &&& plans@.len() == graph.nodes@.len()
                &&& forall|k: int| 0 <= k < graph.nodes@.len() ==> planned(#[trigger] plans@[k], graph.nodes@[k].0, graph.nodes@[k].1,
                    registry.node_type_of(graph.nodes@[k].1.type_ref@).unwrap(), graph.connections@)
            },
        },
{
    let mut k: usize = 0;
    assert(graph.nodes@.subrange(0, graph.nodes@.len() as int) =~= graph.nodes@);
    while k < graph.nodes.len()
        invariant
            k <= graph.nodes@.len(),
            registry.wf(),
            forall|j: int| 0 <= j < graph.nodes@.len() ==> registry.node_type_of((#[trigger] graph.nodes@[j]).1.type_ref@) is Some,
            first_inert(graph.nodes@, *registry) == k + first_inert(graph.nodes@.subrange(k as int, graph.nodes@.len() as int), *registry),
        decreases graph.nodes@.len() - k,
    {
        let ghost rest = graph.nodes@.subrange(k as int, graph.nodes@.len() as int);
        assert(rest.drop_first() =~= graph.nodes@.subrange(k + 1, graph.nodes@.len() as int));
        assert(rest[0] == graph.nodes@[k as int]);
        let node = &graph.nodes[k].1;
        let declared = match registry.node_type(node.type_ref.as_str()) {
            Some(t) => t.behaviour,
            None => {
                proof {
                    assert(registry.node_type_of(graph.nodes@[k as int].1.type_ref@) is Some);
                }
                false
            },
        };
        if !declared {
            let uuid = graph.nodes[k].0;
            let message = refusal_text(uuid, node);
            return Err((message, uuid));
        }
        k = k + 1;
    }
    proof {
        assert(graph.nodes@.subrange(graph.nodes@.len() as int, graph.nodes@.len() as int).len() == 0);
    }
    let mut plans: Vec<NodePlan> = Vec::new();
    let mut n: usize = 0;
    while n < graph.nodes.len()
        invariant
            n <= graph.nodes@.len(),
            registry.wf(),
            forall|j: int| 0 <= j < graph.nodes@.len() ==> registry.node_type_of((#[trigger] graph.nodes@[j]).1.type_ref@) is Some,
            plans@.len() == n,
            forall|j: int| 0 <= j < n ==> planned(#[trigger] plans@[j], graph.nodes@[j].0, graph.nodes@[j].1,
                registry.node_type_of(graph.nodes@[j].1.type_ref@).unwrap(), graph.connections@),
        decreases graph.nodes@.len() - n,
    {
        let node = &graph.nodes[n].1;
        match registry.node_type(node.type_ref.as_str()) {
            Some(node_type) => {
                plans.push(plan_node(graph.nodes[n].0, node, node_type, &graph.connections));
            },
            None => {
                proof {
                    assert(registry.node_type_of(graph.nodes@[n as int].1.type_ref@) is Some);
                }
            },
        }
        n = n + 1;
    }
    Ok(plans)
}

} // verus!
