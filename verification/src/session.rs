//! The editing session the editor's server holds: the in-memory
//! definition — the same document the files carry and the compiler takes —
//! the file it belongs to, whether it has changed since that file was last
//! opened or saved, the run of the graph, the problems the compile finds in
//! the definition, and the run display. Every edit is an operation applied
//! here; the browser is a synced view of it. While a run is on the
//! definition is held still: every editing operation is refused.

use vstd::prelude::*;
use vstd::string::{StrSliceExecFns, StringExecFns};
use crate::display::{Outcome, RunDisplay};
use crate::graph::{Edge, GraphDefinition, NodeInstance, ParameterValue, Yaml, YamlEntry};
use crate::instances::{carried, first_index, first_with, instance_with, lemma_first_with, name_in, name_of};
use crate::model::NodeType;
use crate::packaging::{defines_group, find_group, groups_bound};
use crate::registry::Registry;
use crate::text::same_text;

verus! {

/// Whether a run is on, and when idle, how the last one ended — none
/// before any run.
pub enum RunState {
    Running,
    Idle(Option<Outcome>),
}

/// The editing session.
pub struct Session {
    pub graph: GraphDefinition,
    pub file: Option<String>,
    pub dirty: bool,
    pub run: RunState,
    /// Which run the session is on: bumped as each run starts, and again
    /// when a reset ends one, so a run the session has moved past is not
    /// heard.
    pub generation: u64,
    pub problems: Vec<crate::instances::Problem>,
    pub display: RunDisplay,
}

/// The message kinds that edit the held definition: the node operations
/// and the file operations with them.
pub open spec fn editing(kind: Seq<char>) -> bool {
    ||| kind == "create_node"@
    ||| kind == "move_node"@
    ||| kind == "set_label"@
    ||| kind == "set_parameter"@
    ||| kind == "wire"@
    ||| kind == "unhook"@
    ||| kind == "delete_node"@
    ||| kind == "package_group"@
    ||| kind == "unpack_group"@
    ||| kind == "open_file"@
    ||| kind == "save_file"@
    ||| kind == "new_graph"@
}

/// Whether a message kind edits the held definition.
pub fn is_editing(kind: &str) -> (edits: bool)
    ensures
        edits == editing(kind@),
{
    same_text(kind, "create_node") || same_text(kind, "move_node") || same_text(kind, "set_label")
        || same_text(kind, "set_parameter") || same_text(kind, "wire") || same_text(kind, "unhook")
        || same_text(kind, "delete_node") || same_text(kind, "package_group") || same_text(kind, "unpack_group")
        || same_text(kind, "open_file") || same_text(kind, "save_file") || same_text(kind, "new_graph")
}

/// The answer to an editing operation arriving while a run is on.
pub open spec fn held_still() -> Seq<char> {
    "a run is on: the definition is held still until it ends"@
}

/// Whether the node at index `k` is the one `uuid` names.
pub open spec fn names(nodes: Seq<NodeInstance>, uuid: u128, k: int) -> bool {
    first_with(nodes, uuid, k)
}

/// The refusal of an operation naming a node the definition lacks.
pub open spec fn no_such_node() -> Seq<char> {
    "no such node in the definition"@
}

/// The metadata with `value` recorded under the `position` key: replacing
/// the value of the first entry with that key, appended where none has it.
pub open spec fn position_index(metadata: Seq<YamlEntry>) -> int
    decreases metadata.len(),
{
    if metadata.len() == 0 {
        0
    } else if metadata[0].key matches Yaml::Text(t) && t@ == "position"@ {
        0
    } else {
        1 + position_index(metadata.drop_first())
    }
}

proof fn lemma_position_index(metadata: Seq<YamlEntry>)
    ensures
        0 <= position_index(metadata) <= metadata.len(),
        position_index(metadata) < metadata.len() ==> (metadata[position_index(metadata)].key matches Yaml::Text(t) && t@ == "position"@),
        forall|j: int| 0 <= j < position_index(metadata) ==> !((#[trigger] metadata[j]).key matches Yaml::Text(t) && t@ == "position"@),
    decreases metadata.len(),
{
    if metadata.len() > 0 && !(metadata[0].key matches Yaml::Text(t) && t@ == "position"@) {
        lemma_position_index(metadata.drop_first());
        assert forall|j: int| 0 <= j < position_index(metadata) implies !((#[trigger] metadata[j]).key matches Yaml::Text(t) && t@ == "position"@) by {
            if j > 0 {
                assert(metadata[j] == metadata.drop_first()[j - 1]);
            }
        }
        if position_index(metadata) < metadata.len() {
            assert(metadata[position_index(metadata)] == metadata.drop_first()[position_index(metadata) - 1]);
        }
    }
}

/// Whether `after` is `before` with `position` recorded as the position:
/// the first `position` entry's value replaced, or a `position` entry
/// appended when none is there; every other entry as it was.
pub open spec fn positioned(before: Seq<YamlEntry>, after: Seq<YamlEntry>, position: Yaml) -> bool {
    let i = position_index(before);
    if i < before.len() {
        &&& after.len() == before.len()
        &&& forall|j: int| 0 <= j < before.len() && j != i ==> #[trigger] after[j] == before[j]
        &&& after[i].key == before[i].key && after[i].key_text == before[i].key_text && after[i].value == position
    } else {
        &&& after.len() == before.len() + 1
        &&& after.subrange(0, before.len() as int) == before
        &&& after[before.len() as int].key matches Yaml::Text(t) && t@ == "position"@
        &&& after[before.len() as int].key_text@ == "position"@
        &&& after[before.len() as int].value == position
    }
}

/// Record `position` as the node's position, leaving the rest of its
/// bookkeeping alone.
fn set_position(metadata: &mut Vec<YamlEntry>, position: Yaml)
    ensures
        positioned(old(metadata)@, final(metadata)@, position),
{
    proof {
        lemma_position_index(metadata@);
    }
    let mut i: usize = 0;
    while i < metadata.len()
        invariant
            i <= metadata@.len(),
            metadata@ == old(metadata)@,
            0 <= position_index(metadata@) <= metadata@.len(),
            position_index(metadata@) < metadata@.len() ==> (metadata@[position_index(metadata@)].key matches Yaml::Text(t) && t@ == "position"@),
            forall|j: int| 0 <= j < position_index(metadata@) ==> !((#[trigger] metadata@[j]).key matches Yaml::Text(t) && t@ == "position"@),
            forall|j: int| 0 <= j < i ==> !((#[trigger] metadata@[j]).key matches Yaml::Text(t) && t@ == "position"@),
        decreases metadata@.len() - i,
    {
        let found = match &metadata[i].key {
            Yaml::Text(t) => same_text(t.as_str(), "position"),
            _ => false,
        };
        if found {
            assert(position_index(metadata@) == i as int) by {
                if position_index(metadata@) < i {
                    assert(!(metadata@[position_index(metadata@)].key matches Yaml::Text(t) && t@ == "position"@));
                }
            }
            let mut entry = metadata.remove(i);
            entry.value = position;
            metadata.insert(i, entry);
            return;
        }
        i = i + 1;
    }
    assert(position_index(metadata@) == metadata@.len()) by {
        if position_index(metadata@) < metadata@.len() {
            assert(!(metadata@[position_index(metadata@)].key matches Yaml::Text(t) && t@ == "position"@));
        }
    }
    let ghost before = metadata@;
    metadata.push(YamlEntry { key: Yaml::Text("position".to_owned()), key_text: "position".to_owned(), value: position });
    assert(metadata@.subrange(0, before.len() as int) =~= before);
}


/// The edges, in order, without any into input `port` of `to`.
pub open spec fn edges_not_into(edges: Seq<Edge>, to: u128, port: Seq<char>) -> Seq<Edge>
    decreases edges.len(),
{
    if edges.len() == 0 {
        Seq::empty()
    } else {
        let rest = edges_not_into(edges.drop_last(), to, port);
        if edges.last().to == to && edges.last().to_port@ == port { rest } else { rest.push(edges.last()) }
    }
}

fn drop_edges_into(edges: Vec<Edge>, to: u128, port: &str) -> (kept: Vec<Edge>)
    ensures
        kept@ == edges_not_into(edges@, to, port@),
{
    let ghost all = edges@;
    let mut rest = edges;
    let mut kept: Vec<Edge> = Vec::new();
    let ghost mut done: int = 0;
    assert(all.subrange(0, 0) =~= Seq::<Edge>::empty());
    while rest.len() > 0
        invariant
            0 <= done <= all.len(),
            rest@ == all.subrange(done, all.len() as int),
            kept@ == edges_not_into(all.subrange(0, done), to, port@),
        decreases rest.len(),
    {
        let edge = rest.remove(0);
        proof {
            assert(all.subrange(0, done + 1).drop_last() =~= all.subrange(0, done));
            assert(all.subrange(0, done + 1).last() == edge);
        }
        if !(edge.to == to && same_text(edge.to_port.as_str(), port)) {
            kept.push(edge);
        }
        proof {
            done = done + 1;
            assert(rest@ =~= all.subrange(done, all.len() as int));
        }
    }
    assert(all.subrange(0, all.len() as int) =~= all);
    kept
}

/// The parameters, in order, without any under `name`.
pub open spec fn parameters_without(parameters: Seq<(String, ParameterValue)>, name: Seq<char>) -> Seq<(String, ParameterValue)>
    decreases parameters.len(),
{
    if parameters.len() == 0 {
        Seq::empty()
    } else {
        let rest = parameters_without(parameters.drop_last(), name);
        if parameters.last().0@ == name { rest } else { rest.push(parameters.last()) }
    }
}

fn drop_parameter(parameters: &mut Vec<(String, ParameterValue)>, name: &str)
    ensures
        final(parameters)@ == parameters_without(old(parameters)@, name@),
{
    let ghost all = parameters@;
    let mut rest: Vec<(String, ParameterValue)> = Vec::new();
    std::mem::swap(&mut rest, parameters);
    let ghost mut done: int = 0;
    assert(all.subrange(0, 0) =~= Seq::<(String, ParameterValue)>::empty());
    while rest.len() > 0
        invariant
            0 <= done <= all.len(),
            rest@ == all.subrange(done, all.len() as int),
            parameters@ == parameters_without(all.subrange(0, done), name@),
        decreases rest.len(),
    {
        let entry = rest.remove(0);
        proof {
            assert(all.subrange(0, done + 1).drop_last() =~= all.subrange(0, done));
            assert(all.subrange(0, done + 1).last() == entry);
        }
        if !same_text(entry.0.as_str(), name) {
            parameters.push(entry);
        }
        proof {
            done = done + 1;
            assert(rest@ =~= all.subrange(done, all.len() as int));
        }
    }
    assert(all.subrange(0, all.len() as int) =~= all);
}

/// The nodes, in order, without any carrying `uuid`.
pub open spec fn nodes_without(nodes: Seq<NodeInstance>, uuid: u128) -> Seq<NodeInstance>
    decreases nodes.len(),
{
    if nodes.len() == 0 {
        Seq::empty()
    } else {
        let rest = nodes_without(nodes.drop_last(), uuid);
        if nodes.last().uuid == uuid { rest } else { rest.push(nodes.last()) }
    }
}

fn drop_nodes(nodes: Vec<NodeInstance>, uuid: u128) -> (kept: Vec<NodeInstance>)
    ensures
        kept@ == nodes_without(nodes@, uuid),
{
    let ghost all = nodes@;
    let mut rest = nodes;
    let mut kept: Vec<NodeInstance> = Vec::new();
    let ghost mut done: int = 0;
    assert(all.subrange(0, 0) =~= Seq::<NodeInstance>::empty());
    while rest.len() > 0
        invariant
            0 <= done <= all.len(),
            rest@ == all.subrange(done, all.len() as int),
            kept@ == nodes_without(all.subrange(0, done), uuid),
        decreases rest.len(),
    {
        let node = rest.remove(0);
        proof {
            assert(all.subrange(0, done + 1).drop_last() =~= all.subrange(0, done));
            assert(all.subrange(0, done + 1).last() == node);
        }
        if node.uuid != uuid {
            kept.push(node);
        }
        proof {
            done = done + 1;
            assert(rest@ =~= all.subrange(done, all.len() as int));
        }
    }
    assert(all.subrange(0, all.len() as int) =~= all);
    kept
}

/// Whether the listing holds a node type of reference `type_ref`.
pub open spec fn listed(listing: Seq<NodeType>, type_ref: Seq<char>) -> bool {
    exists|i: int| 0 <= i < listing.len() && (#[trigger] listing[i]).type_ref@ == type_ref
}

fn is_listed(listing: &Vec<NodeType>, type_ref: &str) -> (found: bool)
    ensures
        found == listed(listing@, type_ref@),
{
    let mut i: usize = 0;
    while i < listing.len()
        invariant
            i <= listing@.len(),
            forall|j: int| 0 <= j < i ==> (#[trigger] listing@[j]).type_ref@ != type_ref@,
        decreases listing@.len() - i,
    {
        if same_text(listing[i].type_ref.as_str(), type_ref) {
            return true;
        }
        i = i + 1;
    }
    false
}

/// The node `node` with the position entry set, nothing else changed.
pub open spec fn moved(before: NodeInstance, after: NodeInstance, position: Yaml) -> bool {
    &&& after.uuid == before.uuid
    &&& after.type_ref == before.type_ref
    &&& after.label == before.label
    &&& after.parameters == before.parameters
    &&& positioned(before.metadata@, after.metadata@, position)
}

/// Whether `after` holds `before`'s nodes with the `k`-th replaced by one
/// `change` relates to it.
pub open spec fn one_node_changed(before: Seq<NodeInstance>, after: Seq<NodeInstance>, k: int) -> bool {
    &&& after.len() == before.len()
    &&& forall|j: int| 0 <= j < before.len() && j != k ==> #[trigger] after[j] == before[j]
}

/// A successful edit: the definition changed, so it is dirty; the file,
/// the run, and the run display stay.
pub open spec fn edited(before: Session, after: Session) -> bool {
    &&& after.dirty
    &&& after.file == before.file
    &&& after.run == before.run
    &&& after.generation == before.generation
    &&& after.display == before.display
}

/// The graph's top level and groups, but for the nodes, as they were.
pub open spec fn same_frame(before: GraphDefinition, after: GraphDefinition) -> bool {
    &&& after.schema_version == before.schema_version
    &&& after.name == before.name
    &&& after.groups == before.groups
}

/// What `create_node` does, from the session before to the one after.
pub open spec fn create_node_done(before: Session, after: Session, type_ref: String, position: Yaml, listing: Seq<NodeType>, result: Result<u128, String>) -> bool {
    &&& (match result {
            Err(message) => {
                &&& !defines_group(before.graph, type_ref@) && !listed(listing, type_ref@)
                &&& message@ == "no group `"@ + type_ref@ + "` is defined in this document and no node type `"@ + type_ref@
                    + "` is linked into this binary"@
                &&& after == before
            },
            Ok(uuid) => {
                &&& defines_group(before.graph, type_ref@) || listed(listing, type_ref@)
                &&& edited(before, after)
                &&& same_frame(before.graph, after.graph)
                &&& after.graph.edges == before.graph.edges
                &&& after.graph.nodes@.len() == before.graph.nodes@.len() + 1
                &&& after.graph.nodes@.subrange(0, before.graph.nodes@.len() as int) == before.graph.nodes@
                &&& after.graph.nodes@.last().uuid == uuid
                &&& after.graph.nodes@.last().type_ref == type_ref
                &&& after.graph.nodes@.last().label is None
                &&& after.graph.nodes@.last().parameters@.len() == 0
                &&& positioned(Seq::empty(), after.graph.nodes@.last().metadata@, position)
            },
        })
}

/// What `move_node` does, from the session before to the one after.
pub open spec fn move_node_done(before: Session, after: Session, uuid: u128, position: Yaml, result: Result<(), String>) -> bool {
    &&& (match result {
            Err(message) => !carried(before.graph.nodes@, uuid) && message@ == no_such_node() && after == before,
            Ok(()) => {
                let k = choose|k: int| names(before.graph.nodes@, uuid, k);
                &&& carried(before.graph.nodes@, uuid)
                &&& edited(before, after)
                &&& same_frame(before.graph, after.graph)
                &&& after.graph.edges == before.graph.edges
                &&& one_node_changed(before.graph.nodes@, after.graph.nodes@, k)
                &&& moved(before.graph.nodes@[k], after.graph.nodes@[k], position)
            },
        })
}

/// What `set_label` does, from the session before to the one after.
pub open spec fn set_label_done(before: Session, after: Session, uuid: u128, label: String, result: Result<(), String>) -> bool {
    &&& (match result {
            Err(message) => !carried(before.graph.nodes@, uuid) && message@ == no_such_node() && after == before,
            Ok(()) => {
                let k = choose|k: int| names(before.graph.nodes@, uuid, k);
                let node = after.graph.nodes@[k];
                let was = before.graph.nodes@[k];
                &&& carried(before.graph.nodes@, uuid)
                &&& edited(before, after)
                &&& same_frame(before.graph, after.graph)
                &&& after.graph.edges == before.graph.edges
                &&& one_node_changed(before.graph.nodes@, after.graph.nodes@, k)
                &&& node.uuid == was.uuid && node.type_ref == was.type_ref && node.parameters == was.parameters && node.metadata == was.metadata
                &&& node.label == if label@.len() == 0 { None } else { Some(label) }
            },
        })
}

/// What `set_parameter` does, from the session before to the one after.
pub open spec fn set_parameter_done(before: Session, after: Session, uuid: u128, input: String, value: Option<ParameterValue>, registry: Registry, result: Result<(), String>) -> bool {
    &&& (match result {
            Err(message) => {
                &&& after == before
                &&& if !carried(before.graph.nodes@, uuid) {
                    message@ == no_such_node()
                } else {
                    &&& connected(before.graph.edges@, uuid, input@)
                    &&& message@ == "input `"@ + input@ + "` of node "@ + name_in(registry, instance_with(before.graph.nodes@, uuid))
                        + " receives a connection; a connected input carries no parameter value"@
                }
            },
            Ok(()) => {
                let k = choose|k: int| names(before.graph.nodes@, uuid, k);
                let node = after.graph.nodes@[k];
                let was = before.graph.nodes@[k];
                &&& carried(before.graph.nodes@, uuid)
                &&& !connected(before.graph.edges@, uuid, input@)
                &&& edited(before, after)
                &&& same_frame(before.graph, after.graph)
                &&& after.graph.edges == before.graph.edges
                &&& one_node_changed(before.graph.nodes@, after.graph.nodes@, k)
                &&& node.uuid == was.uuid && node.type_ref == was.type_ref && node.label == was.label && node.metadata == was.metadata
                &&& crate::packaging::parameter_views(node.parameters@) == parameter_edit(was.parameters@, input@, value)
            },
        })
}

/// What `wire` does, from the session before to the one after.
pub open spec fn wire_done(before: Session, after: Session, from: u128, from_port: String, to: u128, to_port: String, result: Result<(), String>) -> bool {
    &&& (match result {
            Err(message) => {
                &&& !(carried(before.graph.nodes@, from) && carried(before.graph.nodes@, to))
                &&& message@ == no_such_node()
                &&& after == before
            },
            Ok(()) => {
                let k = choose|k: int| names(before.graph.nodes@, to, k);
                let node = after.graph.nodes@[k];
                let was = before.graph.nodes@[k];
                &&& carried(before.graph.nodes@, from) && carried(before.graph.nodes@, to)
                &&& edited(before, after)
                &&& same_frame(before.graph, after.graph)
                &&& after.graph.edges@ == edges_not_into(before.graph.edges@, to, to_port@).push(
                    Edge { from, from_port, to, to_port })
                &&& one_node_changed(before.graph.nodes@, after.graph.nodes@, k)
                &&& node.uuid == was.uuid && node.type_ref == was.type_ref && node.label == was.label && node.metadata == was.metadata
                &&& node.parameters@ == parameters_without(was.parameters@, to_port@)
            },
        })
}

/// What `unhook` does, from the session before to the one after.
pub open spec fn unhook_done(before: Session, after: Session, to: u128, to_port: String, result: Result<bool, String>) -> bool {
    &&& (match result {
            Err(message) => !carried(before.graph.nodes@, to) && message@ == no_such_node() && after == before,
            Ok(changed) => {
                &&& carried(before.graph.nodes@, to)
                &&& changed == connected(before.graph.edges@, to, to_port@)
                &&& changed ==> {
                    &&& after.graph.edges@ == edges_not_into(before.graph.edges@, to, to_port@)
                    &&& after.graph.nodes == before.graph.nodes
                    &&& same_frame(before.graph, after.graph)
                    &&& edited(before, after)
                }
                &&& !changed ==> after == before
            },
        })
}

/// What `delete_node` does, from the session before to the one after.
pub open spec fn delete_node_done(before: Session, after: Session, uuid: u128, result: Result<(), String>) -> bool {
    &&& (match result {
            Err(message) => !carried(before.graph.nodes@, uuid) && message@ == no_such_node() && after == before,
            Ok(()) => {
                &&& carried(before.graph.nodes@, uuid)
                &&& edited(before, after)
                &&& same_frame(before.graph, after.graph)
                &&& after.graph.nodes@ == nodes_without(before.graph.nodes@, uuid)
                &&& after.graph.edges@ == crate::packaging::edges_clear_of(before.graph.edges@, uuid)
            },
        })
}

/// What `package_group` does, from the session before to the one after.
pub open spec fn package_group_done(before: Session, after: Session, selection: Seq<u128>, name: Seq<char>, registry: Registry, result: Result<u128, String>) -> bool {
    &&& (match result {
            Err(message) => {
                &&& crate::packaging::package_problem(before.graph, selection, name, registry) == Some(message@)
                &&& after == before
            },
            Ok(instance) => {
                &&& crate::packaging::packaged(before.graph, after.graph, selection, name, registry, instance)
                &&& edited(before, after)
            },
        })
}

/// What `unpack_group` does, from the session before to the one after.
pub open spec fn unpack_group_done(before: Session, after: Session, uuid: u128, registry: Registry, result: Result<Vec<u128>, String>) -> bool {
    &&& (match result {
            Err(message) => {
                &&& crate::packaging::unpack_problem(before.graph, uuid, registry) == Some(message@)
                &&& after == before
            },
            Ok(returned) => {
                &&& crate::packaging::unpacked(before.graph, after.graph, uuid, returned@)
                &&& edited(before, after)
            },
        })
}

/// What `open` does, from the session before to the one after.
pub open spec fn open_done(before: Session, after: Session, graph: GraphDefinition, path: String) -> bool {
    &&& (after.graph == graph)
    &&& (after.file == Some(path))
    &&& (!after.dirty)
    &&& (after.run == before.run)
    &&& (after.generation == before.generation)
    &&& (after.display == before.display)
}

/// What `save_target` does, from the session before to the one after.
pub open spec fn save_target_done(before: Session, asked: Option<String>, target: Result<String, String>) -> bool {
    &&& (match (asked, before.file) {
            (Some(path), _) => target == Ok::<String, String>(path),
            (None, Some(file)) => target == Ok::<String, String>(file),
            (None, None) => target matches Err(message) && message@ == "nothing to save to: an untitled graph's first save must name a path"@,
        })
}

/// What `new_graph` does, from the session before to the one after.
pub open spec fn new_graph_done(before: Session, after: Session) -> bool {
    &&& (after.graph.schema_version == crate::graph::SCHEMA_VERSION)
    &&& (after.graph.name is None)
    &&& (after.graph.nodes@.len() == 0)
    &&& (after.graph.edges@.len() == 0)
    &&& (after.graph.groups@.len() == 0)
    &&& (after.file is None)
    &&& (!after.dirty)
    &&& (after.run == before.run)
    &&& (after.generation == before.generation)
    &&& (after.display == before.display)
}

/// What `start_run` does, from the session before to the one after.
pub open spec fn start_run_done(before: Session, after: Session, registry: Registry, result: Result<crate::compile::CompiledGraph, String>) -> bool {
    &&& (match result {
            Err(message) => {
                &&& after == before
                &&& before.run is Running ==> message@ == "a run is already on: stop it before starting another"@
                &&& !(before.run is Running) && before.graph.nodes@.len() == 0
                    ==> message@ == "the held definition has no nodes: there is nothing to run"@
            },
            Ok(compiled) => {
                &&& !(before.run is Running)
                &&& before.graph.nodes@.len() > 0
                &&& before.graph.groups@.len() == 0 ==> crate::compile::definition_sound(registry, before.graph.nodes@, before.graph.edges@)
                    && crate::compile::acyclic(before.graph.nodes@, before.graph.edges@)
                &&& after.run == RunState::Running
                &&& after.generation == before.generation.wrapping_add(1)
                &&& after.display.statuses_view() == Map::<u128, crate::display::Status>::empty()
                &&& after.display.values_view() == Map::<(u128, Seq<char>), Seq<char>>::empty()
                &&& after.graph == before.graph
                &&& after.file == before.file
                &&& after.dirty == before.dirty
                &&& after.problems == before.problems
            },
        })
}

/// What `stop_run` does, from the session before to the one after.
pub open spec fn stop_run_done(before: Session, result: Result<(), String>) -> bool {
    &&& (result is Ok <==> before.run is Running)
    &&& (result matches Err(message) ==> message@ == "no run is on to stop"@)
}

/// What `reset_run` does, from the session before to the one after.
pub open spec fn reset_run_done(before: Session, after: Session, result: Result<bool, String>) -> bool {
    &&& (match result {
            Err(message) => {
                &&& before.run == RunState::Idle(None)
                &&& message@ == "no run to reset: none is on and none has run"@
                &&& after == before
            },
            Ok(was_running) => {
                &&& before.run != RunState::Idle(None)
                &&& was_running == before.run is Running
                &&& after.run == RunState::Idle(None)
                &&& after.generation == before.generation.wrapping_add(1)
                &&& after.display.statuses_view() == Map::<u128, crate::display::Status>::empty()
                &&& after.display.values_view() == Map::<(u128, Seq<char>), Seq<char>>::empty()
                &&& after.graph == before.graph
                &&& after.file == before.file
                &&& after.dirty == before.dirty
            },
        })
}

impl Session {
    /// The session's standing invariant: every group binds inside its body,
    /// and the run display holds one entry per node and port.
    pub open spec fn wf(&self) -> bool {
        &&& groups_bound(self.graph)
        &&& self.display.wf()
    }

    /// Create a node of `type_ref` at `position`, under a fresh uuid,
    /// answered. The reference resolves against the document's groups
    /// before the node-type listing's.
    pub fn create_node(&mut self, type_ref: String, position: Yaml, listing: &Vec<NodeType>) -> (result: Result<u128, String>)
        requires
            old(self).wf(),
        ensures
            final(self).wf(),
            create_node_done(*old(self), *final(self), type_ref, position, listing@, result),
    {
        let defined = match find_group(&self.graph.groups, type_ref.as_str()) {
            Some(_) => true,
            None => is_listed(listing, type_ref.as_str()),
        };
        if !defined {
            let mut message = "no group `".to_owned();
            message.append(type_ref.as_str());
            message.append("` is defined in this document and no node type `");
            message.append(type_ref.as_str());
            message.append("` is linked into this binary");
            return Err(message);
        }
        let uuid = crate::ids::fresh_uuid();
        let mut metadata: Vec<YamlEntry> = Vec::new();
        set_position(&mut metadata, position);
        let ghost before = self.graph.nodes@;
        self.graph.nodes.push(NodeInstance { uuid, type_ref, label: None, parameters: Vec::new(), metadata });
        self.dirty = true;
        assert(self.graph.nodes@.subrange(0, before.len() as int) =~= before);
        Ok(uuid)
    }

    /// Record where a node rests; the rest of its metadata is its own.
    pub fn move_node(&mut self, uuid: u128, position: Yaml) -> (result: Result<(), String>)
        requires
            old(self).wf(),
        ensures
            final(self).wf(),
            move_node_done(*old(self), *final(self), uuid, position, result),
    {
        match first_index(&self.graph.nodes, uuid) {
            None => Err("no such node in the definition".to_owned()),
            Some(k) => {
                proof {
                    lemma_first_with(self.graph.nodes@, uuid, k as int);
                    lemma_names_unique(self.graph.nodes@, uuid, k as int);
                }
                let ghost before = self.graph.nodes@;
                let mut node = self.graph.nodes.remove(k);
                set_position(&mut node.metadata, position);
                self.graph.nodes.insert(k, node);
                self.dirty = true;
                assert(self.graph.nodes@ =~= before.update(k as int, self.graph.nodes@[k as int]));
                Ok(())
            },
        }
    }

    /// Set a node's label override; an empty label clears it, the node
    /// returning to its type's label.
    pub fn set_label(&mut self, uuid: u128, label: String) -> (result: Result<(), String>)
        requires
            old(self).wf(),
        ensures
            final(self).wf(),
            set_label_done(*old(self), *final(self), uuid, label, result),
    {
        match first_index(&self.graph.nodes, uuid) {
            None => Err("no such node in the definition".to_owned()),
            Some(k) => {
                proof {
                    lemma_names_unique(self.graph.nodes@, uuid, k as int);
                }
                let ghost before = self.graph.nodes@;
                let mut node = self.graph.nodes.remove(k);
                node.label = if label.as_str().unicode_len() == 0 { None } else { Some(label) };
                self.graph.nodes.insert(k, node);
                self.dirty = true;
                assert(self.graph.nodes@ =~= before.update(k as int, self.graph.nodes@[k as int]));
                Ok(())
            },
        }
    }
}

/// The first node carrying a uuid is the one it names.
proof fn lemma_names_unique(nodes: Seq<NodeInstance>, uuid: u128, k: int)
    requires
        first_with(nodes, uuid, k),
    ensures
        (choose|c: int| names(nodes, uuid, c)) == k,
        carried(nodes, uuid),
{
    let c = choose|c: int| names(nodes, uuid, c);
    assert(names(nodes, uuid, k));
    assert(names(nodes, uuid, c));
    if c < k {
        assert(nodes[c].uuid != uuid);
    } else if c > k {
        assert(nodes[k].uuid != uuid);
    }
}


/// No edge of `edges_not_into` enters the input it clears.
pub proof fn lemma_edges_not_into(edges: Seq<Edge>, to: u128, port: Seq<char>)
    ensures
        forall|i: int| 0 <= i < edges_not_into(edges, to, port).len() ==>
            !((#[trigger] edges_not_into(edges, to, port)[i]).to == to && edges_not_into(edges, to, port)[i].to_port@ == port),
    decreases edges.len(),
{
    if edges.len() > 0 {
        lemma_edges_not_into(edges.drop_last(), to, port);
        let rest = edges_not_into(edges.drop_last(), to, port);
        if !(edges.last().to == to && edges.last().to_port@ == port) {
            assert forall|i: int| 0 <= i < rest.push(edges.last()).len() implies
                !((#[trigger] rest.push(edges.last())[i]).to == to && rest.push(edges.last())[i].to_port@ == port) by {
                if i < rest.len() {
                    assert(rest.push(edges.last())[i] == rest[i]);
                }
            }
        }
    }
}

/// No parameter of `parameters_without` is under the name it clears.
pub proof fn lemma_parameters_without(parameters: Seq<(String, ParameterValue)>, name: Seq<char>)
    ensures
        !crate::graph::has_parameter(parameters_without(parameters, name), name),
    decreases parameters.len(),
{
    if parameters.len() > 0 {
        lemma_parameters_without(parameters.drop_last(), name);
        let rest = parameters_without(parameters.drop_last(), name);
        if parameters.last().0@ != name {
            assert forall|i: int| 0 <= i < rest.push(parameters.last()).len() implies
                (#[trigger] rest.push(parameters.last())[i]).0@ != name by {
                if i < rest.len() {
                    assert(rest.push(parameters.last())[i] == rest[i]);
                }
            }
        }
    }
}

/// No node of `nodes_without` carries the uuid it drops.
pub proof fn lemma_nodes_without(nodes: Seq<NodeInstance>, uuid: u128)
    ensures
        !carried(nodes_without(nodes, uuid), uuid),
    decreases nodes.len(),
{
    if nodes.len() > 0 {
        lemma_nodes_without(nodes.drop_last(), uuid);
        let rest = nodes_without(nodes.drop_last(), uuid);
        if nodes.last().uuid != uuid {
            assert forall|i: int| 0 <= i < rest.push(nodes.last()).len() implies (#[trigger] rest.push(nodes.last())[i]).uuid != uuid by {
                if i < rest.len() {
                    assert(rest.push(nodes.last())[i] == rest[i]);
                }
            }
        }
    }
}

/// No edge of `edges_clear_of` touches the node it clears.
pub proof fn lemma_edges_clear_of(edges: Seq<Edge>, uuid: u128)
    ensures
        forall|i: int| 0 <= i < crate::packaging::edges_clear_of(edges, uuid).len() ==>
            (#[trigger] crate::packaging::edges_clear_of(edges, uuid)[i]).from != uuid
            && crate::packaging::edges_clear_of(edges, uuid)[i].to != uuid,
    decreases edges.len(),
{
    if edges.len() > 0 {
        lemma_edges_clear_of(edges.drop_last(), uuid);
        let rest = crate::packaging::edges_clear_of(edges.drop_last(), uuid);
        if edges.last().from != uuid && edges.last().to != uuid {
            assert forall|i: int| 0 <= i < rest.push(edges.last()).len() implies
                (#[trigger] rest.push(edges.last())[i]).from != uuid && rest.push(edges.last())[i].to != uuid by {
                if i < rest.len() {
                    assert(rest.push(edges.last())[i] == rest[i]);
                }
            }
        }
    }
}

/// Whether some edge enters input `port` of `uuid`.
pub open spec fn connected(edges: Seq<Edge>, uuid: u128, port: Seq<char>) -> bool {
    exists|i: int| 0 <= i < edges.len() && (#[trigger] edges[i]).to == uuid && edges[i].to_port@ == port
}

fn is_connected(edges: &Vec<Edge>, uuid: u128, port: &str) -> (found: bool)
    ensures
        found == connected(edges@, uuid, port@),
{
    let mut i: usize = 0;
    while i < edges.len()
        invariant
            i <= edges@.len(),
            forall|j: int| 0 <= j < i ==> !((#[trigger] edges@[j]).to == uuid && edges@[j].to_port@ == port@),
        decreases edges@.len() - i,
    {
        if edges[i].to == uuid && same_text(edges[i].to_port.as_str(), port) {
            return true;
        }
        i = i + 1;
    }
    false
}

/// A parameter list after an edit setting `value` under `name`, or
/// clearing it when there is none.
pub open spec fn parameter_edit(parameters: Seq<(String, ParameterValue)>, name: Seq<char>, value: Option<ParameterValue>) -> Seq<(Seq<char>, ParameterValue)> {
    match value {
        Some(v) => crate::packaging::put(crate::packaging::parameter_views(parameters), name, v),
        None => crate::packaging::parameter_views(parameters_without(parameters, name)),
    }
}

impl Session {
    /// Set an input's parameter value, or clear it when none is given. A
    /// connected input refuses the edit: an input carries a connection or a
    /// literal, never both. Whether the name is a port of the type and
    /// whether the value suits it is compile time's business.
    pub fn set_parameter(&mut self, uuid: u128, input: String, value: Option<ParameterValue>, registry: &Registry) -> (result: Result<(), String>)
        requires
            old(self).wf(),
            registry.wf(),
        ensures
            final(self).wf(),
            set_parameter_done(*old(self), *final(self), uuid, input, value, *registry, result),
    {
        let k = match first_index(&self.graph.nodes, uuid) {
            None => {
                return Err("no such node in the definition".to_owned());
            },
            Some(k) => k,
        };
        proof {
            lemma_first_with(self.graph.nodes@, uuid, k as int);
            lemma_names_unique(self.graph.nodes@, uuid, k as int);
        }
        if is_connected(&self.graph.edges, uuid, input.as_str()) {
            let mut message = "input `".to_owned();
            message.append(input.as_str());
            message.append("` of node ");
            let shown = name_of(registry, &self.graph.nodes[k]);
            message.append(shown.as_str());
            message.append(" receives a connection; a connected input carries no parameter value");
            return Err(message);
        }
        let ghost before = self.graph.nodes@;
        let mut node = self.graph.nodes.remove(k);
        match value {
            Some(v) => crate::packaging::put_parameter(&mut node.parameters, input, v),
            None => drop_parameter(&mut node.parameters, input.as_str()),
        }
        self.graph.nodes.insert(k, node);
        self.dirty = true;
        assert(self.graph.nodes@ =~= before.update(k as int, self.graph.nodes@[k as int]));
        Ok(())
    }

    /// Wire an output to an input. Edit time judges nothing about the wire
    /// — not the ports, not the types, not cycles — but an input carries one
    /// value source: the landing wire replaces whatever edge and parameter
    /// literal the input held.
    pub fn wire(&mut self, from: u128, from_port: String, to: u128, to_port: String) -> (result: Result<(), String>)
        requires
            old(self).wf(),
        ensures
            final(self).wf(),
            wire_done(*old(self), *final(self), from, from_port, to, to_port, result),
    {
        if first_index(&self.graph.nodes, from).is_none() {
            return Err("no such node in the definition".to_owned());
        }
        let k = match first_index(&self.graph.nodes, to) {
            None => {
                return Err("no such node in the definition".to_owned());
            },
            Some(k) => k,
        };
        proof {
            lemma_first_with(self.graph.nodes@, to, k as int);
            lemma_names_unique(self.graph.nodes@, to, k as int);
        }
        let mut edges: Vec<Edge> = Vec::new();
        std::mem::swap(&mut edges, &mut self.graph.edges);
        let mut kept = drop_edges_into(edges, to, to_port.as_str());
        let ghost before = self.graph.nodes@;
        let mut node = self.graph.nodes.remove(k);
        drop_parameter(&mut node.parameters, to_port.as_str());
        self.graph.nodes.insert(k, node);
        kept.push(Edge { from, from_port, to, to_port });
        self.graph.edges = kept;
        self.dirty = true;
        assert(self.graph.nodes@ =~= before.update(k as int, self.graph.nodes@[k as int]));
        Ok(())
    }

    /// Unhook an input: its edge, if any, goes; whether one went is
    /// answered. An input with no edge changes nothing.
    pub fn unhook(&mut self, to: u128, to_port: String) -> (result: Result<bool, String>)
        requires
            old(self).wf(),
        ensures
            final(self).wf(),
            unhook_done(*old(self), *final(self), to, to_port, result),
    {
        if first_index(&self.graph.nodes, to).is_none() {
            return Err("no such node in the definition".to_owned());
        }
        if !is_connected(&self.graph.edges, to, to_port.as_str()) {
            return Ok(false);
        }
        let mut edges: Vec<Edge> = Vec::new();
        std::mem::swap(&mut edges, &mut self.graph.edges);
        self.graph.edges = drop_edges_into(edges, to, to_port.as_str());
        self.dirty = true;
        Ok(true)
    }

    /// Delete a node together with every wire attached to it: no dangling
    /// edges, which the file format forbids.
    pub fn delete_node(&mut self, uuid: u128) -> (result: Result<(), String>)
        requires
            old(self).wf(),
        ensures
            final(self).wf(),
            delete_node_done(*old(self), *final(self), uuid, result),
    {
        if first_index(&self.graph.nodes, uuid).is_none() {
            return Err("no such node in the definition".to_owned());
        }
        let mut nodes: Vec<NodeInstance> = Vec::new();
        std::mem::swap(&mut nodes, &mut self.graph.nodes);
        self.graph.nodes = drop_nodes(nodes, uuid);
        let mut edges: Vec<Edge> = Vec::new();
        std::mem::swap(&mut edges, &mut self.graph.edges);
        self.graph.edges = crate::packaging::clear_edges(edges, uuid);
        self.dirty = true;
        Ok(())
    }
}


/// A selected node the definition holds is in the selection's body.
proof fn lemma_in_body(nodes: Seq<NodeInstance>, selection: Seq<u128>, uuid: u128)
    requires
        selection.contains(uuid),
        carried(nodes, uuid),
    ensures
        carried(crate::packaging::nodes_on(nodes, selection, true), uuid),
    decreases nodes.len(),
{
    let body = crate::packaging::nodes_on(nodes, selection, true);
    if nodes.last().uuid == uuid {
        assert(body.last() == nodes.last());
        assert(body[body.len() - 1].uuid == uuid);
    } else {
        let k = choose|k: int| 0 <= k < nodes.len() && #[trigger] nodes[k].uuid == uuid;
        assert(nodes.drop_last()[k] == nodes[k]);
        lemma_in_body(nodes.drop_last(), selection, uuid);
        let rest = crate::packaging::nodes_on(nodes.drop_last(), selection, true);
        let j = choose|j: int| 0 <= j < rest.len() && #[trigger] rest[j].uuid == uuid;
        if selection.contains(nodes.last().uuid) {
            assert(body[j] == rest[j]);
        }
    }
}

/// Every edge of one class is of that class.
proof fn lemma_edges_where_class(edges: Seq<Edge>, selection: Seq<u128>, class: int)
    ensures
        forall|i: int| 0 <= i < crate::packaging::edges_where(edges, selection, class).len() ==>
            crate::packaging::edge_class(#[trigger] crate::packaging::edges_where(edges, selection, class)[i], selection) == class,
    decreases edges.len(),
{
    if edges.len() > 0 {
        lemma_edges_where_class(edges.drop_last(), selection, class);
        let rest = crate::packaging::edges_where(edges.drop_last(), selection, class);
        if crate::packaging::edge_class(edges.last(), selection) == class {
            assert forall|i: int| 0 <= i < rest.push(edges.last()).len() implies
                crate::packaging::edge_class(#[trigger] rest.push(edges.last())[i], selection) == class by {
                if i < rest.len() {
                    assert(rest.push(edges.last())[i] == rest[i]);
                }
            }
        }
    }
}

/// Packaging keeps every group bound inside its body: the new group's
/// ports bind selected nodes, and its edges join them.
proof fn lemma_package_bound(before: GraphDefinition, after: GraphDefinition, selection: Seq<u128>, name: Seq<char>,
    registry: Registry, instance: u128)
    requires
        groups_bound(before),
        crate::packaging::package_problem(before, selection, name, registry) is None,
        crate::packaging::packaged(before, after, selection, name, registry, instance),
    ensures
        groups_bound(after),
{
    crate::packaging::lemma_selection_carried(before.nodes@, selection, name, before, registry);
    let group = after.groups@.last();
    let crossing = crate::packaging::edges_where(before.edges@, selection, 2);
    lemma_edges_where_class(before.edges@, selection, 2);
    lemma_edges_where_class(before.edges@, selection, 1);
    assert forall|b: int| 0 <= b < group.inputs@.len() implies carried(group.nodes@, (#[trigger] group.inputs@[b]).node) by {
        let p = group.inputs@[b];
        assert(crate::packaging::bound_by(p, crossing, selection, false));
        let k = choose|k: int| 0 <= k < crossing.len() && #[trigger] crate::packaging::crosses_at(crossing[k], selection, false, p.node, p.port@);
        assert(crate::packaging::edge_class(crossing[k], selection) == 2);
        lemma_in_body(before.nodes@, selection, p.node);
    }
    assert forall|b: int| 0 <= b < group.outputs@.len() implies carried(group.nodes@, (#[trigger] group.outputs@[b]).node) by {
        let p = group.outputs@[b];
        assert(crate::packaging::bound_by(p, crossing, selection, true));
        let k = choose|k: int| 0 <= k < crossing.len() && #[trigger] crate::packaging::crosses_at(crossing[k], selection, true, p.node, p.port@);
        lemma_in_body(before.nodes@, selection, p.node);
    }
    assert forall|e: int| 0 <= e < group.edges@.len() implies carried(group.nodes@, (#[trigger] group.edges@[e]).from)
        && carried(group.nodes@, group.edges@[e].to) by {
        assert(crate::packaging::edge_class(group.edges@[e], selection) == 1);
        lemma_in_body(before.nodes@, selection, group.edges@[e].from);
        lemma_in_body(before.nodes@, selection, group.edges@[e].to);
    }
    assert forall|g: int| 0 <= g < after.groups@.len() implies {
        &&& crate::loader::bindings_inside(#[trigger] after.groups@[g])
        &&& forall|e: int| 0 <= e < after.groups@[g].edges@.len() ==> carried(after.groups@[g].nodes@, (#[trigger] after.groups@[g].edges@[e]).from)
            && carried(after.groups@[g].nodes@, after.groups@[g].edges@[e].to)
    } by {
        if g < before.groups@.len() {
            assert(after.groups@[g] == after.groups@.subrange(0, before.groups@.len() as int)[g]);
            assert(after.groups@[g] == before.groups@[g]);
        }
    }
}

/// A group left after some are dropped by name is one there was.
proof fn lemma_groups_without(groups: Seq<crate::graph::GroupDefinition>, name: Seq<char>)
    ensures
        forall|i: int| 0 <= i < crate::packaging::groups_without(groups, name).len() ==>
            exists|j: int| 0 <= j < groups.len() && groups[j] == #[trigger] crate::packaging::groups_without(groups, name)[i],
    decreases groups.len(),
{
    if groups.len() > 0 {
        lemma_groups_without(groups.drop_last(), name);
        let rest = crate::packaging::groups_without(groups.drop_last(), name);
        assert forall|i: int| 0 <= i < crate::packaging::groups_without(groups, name).len() implies
            exists|j: int| 0 <= j < groups.len() && groups[j] == #[trigger] crate::packaging::groups_without(groups, name)[i] by {
            if i < rest.len() {
                assert(crate::packaging::groups_without(groups, name)[i] == rest[i]);
                let j = choose|j: int| 0 <= j < groups.drop_last().len() && groups.drop_last()[j] == #[trigger] rest[i];
                assert(groups[j] == groups.drop_last()[j]);
            } else {
                assert(groups[groups.len() - 1] == groups.last());
            }
        }
    }
}

/// Unpacking keeps every group bound inside its body: the groups after are
/// some of the groups before.
proof fn lemma_unpack_bound(before: GraphDefinition, after: GraphDefinition, uuid: u128, returned: Seq<u128>)
    requires
        groups_bound(before),
        crate::packaging::unpacked(before, after, uuid, returned),
    ensures
        groups_bound(after),
{
    let at = crate::packaging::instance_index(before.nodes@, uuid);
    let instance = before.nodes@[at];
    let group = before.groups@[crate::packaging::group_index(before.groups@, instance.type_ref@)];
    lemma_groups_without(before.groups@, group.name@);
    assert forall|g: int| 0 <= g < after.groups@.len() implies {
        &&& crate::loader::bindings_inside(#[trigger] after.groups@[g])
        &&& forall|e: int| 0 <= e < after.groups@[g].edges@.len() ==> carried(after.groups@[g].nodes@, (#[trigger] after.groups@[g].edges@[e]).from)
            && carried(after.groups@[g].nodes@, after.groups@[g].edges@[e].to)
    } by {
        if after.groups@ == before.groups@ {
        } else {
            let j = choose|j: int| 0 <= j < before.groups@.len() && before.groups@[j] == #[trigger] crate::packaging::groups_without(before.groups@, group.name@)[g];
            assert(after.groups@[g] == before.groups@[j]);
        }
    }
}


/// The requirements a compile puts on its registry and its check.
pub open spec fn compiles_against<F: Fn(&crate::compile::CompiledNode) -> Vec<String>>(registry: Registry, check: F) -> bool {
    &&& registry.wf()
    &&& registry.data_type_with_id(crate::scalars::STRING) is Some
    &&& forall|node: &crate::compile::CompiledNode| check.requires((node,))
}

/// What a compile promises of the errors and warnings it finds in a
/// definition without groups: none of the errors means a sound, acyclic
/// definition; a cycle is named among the errors; the warnings are the
/// hang warnings, in order.
pub open spec fn compile_findings(registry: Registry, graph: GraphDefinition, errors: Seq<crate::instances::Problem>, warnings: Seq<crate::instances::Problem>) -> bool {
    graph.groups@.len() == 0 ==> {
        &&& errors.len() == 0 ==> crate::compile::definition_sound(registry, graph.nodes@, graph.edges@)
            && crate::compile::acyclic(graph.nodes@, graph.edges@)
        &&& crate::compile::defined_cycle(graph.nodes@, graph.edges@) ==> crate::compile::names_a_cycle(errors)
        &&& exists|table: Seq<u128>| {
            &&& crate::instances::instance_table(graph.nodes@, table)
            &&& crate::compile::problems_read(warnings, crate::compile::hang_warnings(registry, graph.nodes@, graph.edges@, table))
        }
    }
}

/// The problems are a compile's findings for `graph`: its errors, then its
/// warnings.
pub open spec fn problems_found(registry: Registry, graph: GraphDefinition, problems: Seq<crate::instances::Problem>) -> bool {
    exists|errors: int| 0 <= errors <= problems.len()
        && #[trigger] compile_findings(registry, graph, problems.subrange(0, errors), problems.subrange(errors, problems.len() as int))
}

/// The problems a compile of `graph` finds, errors then warnings.
pub fn problems_of<F: Fn(&crate::compile::CompiledNode) -> Vec<String>>(graph: &GraphDefinition, registry: &Registry, check: &F)
    -> (problems: Vec<crate::instances::Problem>)
    requires
        compiles_against(*registry, *check),
    ensures
        graph.groups@.len() == 0 && problems@.len() == 0 ==> crate::compile::definition_sound(*registry, graph.nodes@, graph.edges@),
        problems_found(*registry, *graph, problems@),
{
    let result = crate::compile::compile(graph, registry, check);
    let mut problems = result.errors;
    let mut warnings = result.warnings;
    let ghost errors = result.errors@;
    let ghost found = result.errors@ + result.warnings@;
    while warnings.len() > 0
        invariant
            problems@ + warnings@ == found,
            problems@.len() >= errors.len(),
            problems@.subrange(0, errors.len() as int) == errors,
        decreases warnings.len(),
    {
        let ghost was = problems@;
        let warning = warnings.remove(0);
        problems.push(warning);
        proof {
            assert(problems@.subrange(0, errors.len() as int) =~= was.subrange(0, errors.len() as int));
            assert(problems@ + warnings@ =~= found);
        }
    }
    proof {
        assert(problems@ =~= found);
        assert(problems@.subrange(0, errors.len() as int) =~= result.errors@);
        assert(problems@.subrange(errors.len() as int, problems@.len() as int) =~= result.warnings@);
        assert(compile_findings(*registry, *graph, problems@.subrange(0, errors.len() as int), problems@.subrange(errors.len() as int, problems@.len() as int)));
    }
    problems
}

/// The answer to a start with errors: each error's message, one per line.
pub open spec fn refusal(messages: Seq<Seq<char>>) -> Seq<char> {
    "the definition does not compile:\n"@ + crate::text::joined(messages, "\n"@)
}

impl Session {
    /// A session holding `graph` and the file it came from, if any: clean,
    /// no run on or run before, nothing shown, and the definition's
    /// problems the compile's.
    pub fn new<F: Fn(&crate::compile::CompiledNode) -> Vec<String>>(graph: GraphDefinition, file: Option<String>, registry: &Registry, check: &F)
        -> (session: Session)
        requires
            groups_bound(graph),
            compiles_against(*registry, *check),
        ensures
            session.wf(),
            session.graph == graph,
            session.file == file,
            !session.dirty,
            session.run == RunState::Idle(None),
            session.generation == 0,
            session.display.statuses_view() == Map::<u128, crate::display::Status>::empty(),
            session.display.values_view() == Map::<(u128, Seq<char>), Seq<char>>::empty(),
    {
        let problems = problems_of(&graph, registry, check);
        Session { graph, file, dirty: false, run: RunState::Idle(None), generation: 0, problems, display: RunDisplay::new() }
    }

    /// Recompute the problems after a change to the held definition; nothing
    /// else changes.
    pub fn refresh_problems<F: Fn(&crate::compile::CompiledNode) -> Vec<String>>(&mut self, registry: &Registry, check: &F)
        requires
            compiles_against(*registry, *check),
        ensures
            final(self).graph == old(self).graph,
            final(self).file == old(self).file,
            final(self).dirty == old(self).dirty,
            final(self).run == old(self).run,
            final(self).generation == old(self).generation,
            final(self).display == old(self).display,
            problems_found(*registry, final(self).graph, final(self).problems@),
    {
        self.problems = problems_of(&self.graph, registry, check);
    }

    /// Package the selection into a group named `name`; the new instance's
    /// uuid is answered.
    pub fn package_group(&mut self, selection: &Vec<u128>, name: &str, registry: &Registry) -> (result: Result<u128, String>)
        requires
            old(self).wf(),
            registry.wf(),
        ensures
            final(self).wf(),
            package_group_done(*old(self), *final(self), selection@, name@, *registry, result),
    {
        let ghost before = self.graph;
        let result = crate::packaging::package(&mut self.graph, selection, name, registry);
        match result {
            Ok(instance) => {
                proof {
                    lemma_package_bound(before, self.graph, selection@, name@, *registry, instance);
                }
                self.dirty = true;
                Ok(instance)
            },
            Err(message) => Err(message),
        }
    }

    /// Unpack a group instance back into its nodes; the uuids they return
    /// under are answered.
    pub fn unpack_group(&mut self, uuid: u128, registry: &Registry) -> (result: Result<Vec<u128>, String>)
        requires
            old(self).wf(),
            registry.wf(),
        ensures
            final(self).wf(),
            unpack_group_done(*old(self), *final(self), uuid, *registry, result),
    {
        let ghost before = self.graph;
        let result = crate::packaging::unpack(&mut self.graph, uuid, registry);
        match result {
            Ok(returned) => {
                proof {
                    lemma_unpack_bound(before, self.graph, uuid, returned@);
                }
                self.dirty = true;
                Ok(returned)
            },
            Err(message) => Err(message),
        }
    }

    /// Open a definition read from the file at `path`: it replaces the held
    /// one, the file becomes the current one, and the definition is clean.
    pub fn open(&mut self, graph: GraphDefinition, path: String)
        requires
            old(self).wf(),
            groups_bound(graph),
        ensures
            final(self).wf(),
            open_done(*old(self), *final(self), graph, path),
    {
        self.graph = graph;
        self.file = Some(path);
        self.dirty = false;
    }

    /// Where a save writes: the path asked, or the current file; an
    /// untitled graph's first save must name one.
    pub fn save_target(&self, asked: Option<String>) -> (target: Result<String, String>)
        ensures
            save_target_done(*self, asked, target),
    {
        match asked {
            Some(path) => Ok(path),
            None => match &self.file {
                Some(file) => Ok(file.clone()),
                None => Err("nothing to save to: an untitled graph's first save must name a path".to_owned()),
            },
        }
    }

    /// A completed save: the target becomes the current file and the
    /// definition is clean.
    pub fn saved(&mut self, target: String)
        ensures
            final(self).file == Some(target),
            !final(self).dirty,
            final(self).graph == old(self).graph,
            final(self).run == old(self).run,
            final(self).generation == old(self).generation,
            final(self).display == old(self).display,
            final(self).problems == old(self).problems,
    {
        self.file = Some(target);
        self.dirty = false;
    }

    /// Start a fresh graph: an empty, untitled definition, clean.
    pub fn new_graph(&mut self)
        requires
            old(self).wf(),
        ensures
            final(self).wf(),
            new_graph_done(*old(self), *final(self)),
    {
        self.graph = GraphDefinition::empty();
        self.file = None;
        self.dirty = false;
    }
}


impl Session {
    /// Start a run: the held definition compiles afresh — whatever was
    /// edited last is exactly what runs — and a clean compile sets the run
    /// on, bumps the generation, and resets the canvas; the compiled graph
    /// is answered for the run to take. A run already on refuses a second
    /// start; an empty definition has nothing to run; a definition that
    /// does not compile is answered with its errors, one per line, and the
    /// session is left as it was.
    pub fn start_run<F: Fn(&crate::compile::CompiledNode) -> Vec<String>>(&mut self, registry: &Registry, check: &F)
        -> (result: Result<crate::compile::CompiledGraph, String>)
        requires
            old(self).wf(),
            compiles_against(*registry, *check),
        ensures
            final(self).wf(),
            start_run_done(*old(self), *final(self), *registry, result),
    {
        match self.run {
            RunState::Running => {
                return Err("a run is already on: stop it before starting another".to_owned());
            },
            RunState::Idle(_) => {},
        }
        if self.graph.nodes.len() == 0 {
            return Err("the held definition has no nodes: there is nothing to run".to_owned());
        }
        let result = crate::compile::compile(&self.graph, registry, check);
        match result.graph {
            None => {
                let mut messages: Vec<String> = Vec::new();
                let mut i: usize = 0;
                while i < result.errors.len()
                    invariant
                        i <= result.errors@.len(),
                    decreases result.errors@.len() - i,
                {
                    messages.push(result.errors[i].message.clone());
                    i = i + 1;
                }
                let mut message = "the definition does not compile:\n".to_owned();
                let listed = crate::text::join_names(&messages, "\n");
                message.append(listed.as_str());
                Err(message)
            },
            Some(compiled) => {
                self.run = RunState::Running;
                self.generation = self.generation.wrapping_add(1);
                self.display.reset();
                Ok(compiled)
            },
        }
    }

    /// Stop the run that is on: the host signals the engine, and the run's
    /// finish carries the stopped outcome back. No run on, nothing to stop.
    pub fn stop_run(&self) -> (result: Result<(), String>)
        ensures
            stop_run_done(*self, result),
    {
        match self.run {
            RunState::Running => Ok(()),
            RunState::Idle(_) => Err("no run is on to stop".to_owned()),
        }
    }

    /// Reset the run: back to the idle canvas, as before the first run —
    /// the outcome, the statuses, and the values go, and the generation
    /// moves past the run so its late events are not heard. Whether a run
    /// was on, for the host to stop, is answered. Nothing to reset — never
    /// run, or already reset — is refused.
    pub fn reset_run(&mut self) -> (result: Result<bool, String>)
        requires
            old(self).wf(),
        ensures
            final(self).wf(),
            reset_run_done(*old(self), *final(self), result),
    {
        let was_running = match &self.run {
            RunState::Running => true,
            RunState::Idle(None) => {
                return Err("no run to reset: none is on and none has run".to_owned());
            },
            RunState::Idle(Some(_)) => false,
        };
        self.generation = self.generation.wrapping_add(1);
        self.run = RunState::Idle(None);
        self.display.reset();
        Ok(was_running)
    }

    /// Hear one event of the run spawned under `generation`: only while it
    /// is still the session's run. The display derives what the event
    /// changes, and a run's finish carries its outcome into the run state.
    /// The status changes to push are answered; an event of a run the
    /// session has moved past is dropped.
    pub fn hear(&mut self, generation: u64, event: crate::display::RunEvent) -> (changes: Option<Vec<(u128, crate::display::Status)>>)
        requires
            old(self).wf(),
        ensures
            final(self).wf(),
            generation != old(self).generation ==> changes is None && *final(self) == *old(self),
            generation == old(self).generation ==> {
                &&& changes is Some
                &&& final(self).graph == old(self).graph
                &&& final(self).file == old(self).file
                &&& final(self).dirty == old(self).dirty
                &&& final(self).generation == old(self).generation
                &&& match event {
                    crate::display::RunEvent::RunFinished(outcome) => final(self).run == RunState::Idle(Some(crate::display::told(outcome))),
                    _ => final(self).run == old(self).run,
                }
                &&& match crate::display::derived(event) {
                    Some(change) => final(self).display.statuses_view() == old(self).display.statuses_view().insert(change.0, change.1),
                    None => !crate::display::closes(event) ==> final(self).display.statuses_view() == old(self).display.statuses_view(),
                }
                &&& crate::display::closes(event) ==> final(self).display.statuses_view() == crate::display::closed(old(self).display.statuses_view())
            },
    {
        if generation != self.generation {
            return None;
        }
        let heard = self.display.hear(event);
        match heard.outcome {
            Some(outcome) => {
                self.run = RunState::Idle(Some(outcome));
            },
            None => {},
        }
        Some(heard.changes)
    }
}


/// What applying `request` to the session `before` does, leaving `after`
/// and answering `reply`: the named operation's own effect and result,
/// under the reply that carries it.
pub open spec fn performed(before: Session, after: Session, request: Request, reply: Result<Reply, String>,
    listing: Seq<NodeType>, registry: Registry) -> bool {
    match request {
        Request::ListNodeTypes => after == before && reply == Ok::<Reply, String>(Reply::NodeTypes),
        Request::GetDefinition => after == before && reply == Ok::<Reply, String>(Reply::Definition),
        Request::CreateNode { type_ref, position } => match reply {
            Ok(Reply::NodeCreated(uuid)) => create_node_done(before, after, type_ref, position, listing, Ok(uuid)),
            Ok(_) => false,
            Err(message) => create_node_done(before, after, type_ref, position, listing, Err(message)),
        },
        Request::MoveNode { uuid, position } => match reply {
            Ok(Reply::NodeMoved) => move_node_done(before, after, uuid, position, Ok(())),
            Ok(_) => false,
            Err(message) => move_node_done(before, after, uuid, position, Err(message)),
        },
        Request::SetLabel { uuid, label } => match reply {
            Ok(Reply::LabelSet) => set_label_done(before, after, uuid, label, Ok(())),
            Ok(_) => false,
            Err(message) => set_label_done(before, after, uuid, label, Err(message)),
        },
        Request::SetParameter { uuid, input, value } => match reply {
            Ok(Reply::ParameterSet) => set_parameter_done(before, after, uuid, input, value, registry, Ok(())),
            Ok(_) => false,
            Err(message) => set_parameter_done(before, after, uuid, input, value, registry, Err(message)),
        },
        Request::Wire { from, from_port, to, to_port } => match reply {
            Ok(Reply::Wired) => wire_done(before, after, from, from_port, to, to_port, Ok(())),
            Ok(_) => false,
            Err(message) => wire_done(before, after, from, from_port, to, to_port, Err(message)),
        },
        Request::Unhook { to, to_port } => match reply {
            Ok(Reply::Unhooked(changed)) => unhook_done(before, after, to, to_port, Ok(changed)),
            Ok(_) => false,
            Err(message) => unhook_done(before, after, to, to_port, Err(message)),
        },
        Request::DeleteNode { uuid } => match reply {
            Ok(Reply::NodeDeleted) => delete_node_done(before, after, uuid, Ok(())),
            Ok(_) => false,
            Err(message) => delete_node_done(before, after, uuid, Err(message)),
        },
        Request::PackageGroup { nodes, name } => match reply {
            Ok(Reply::GroupPackaged(instance, named)) => named == name
                && package_group_done(before, after, nodes@, name@, registry, Ok(instance)),
            Ok(_) => false,
            Err(message) => package_group_done(before, after, nodes@, name@, registry, Err(message)),
        },
        Request::UnpackGroup { uuid } => match reply {
            Ok(Reply::GroupUnpacked(returned)) => unpack_group_done(before, after, uuid, registry, Ok(returned)),
            Ok(_) => false,
            Err(message) => unpack_group_done(before, after, uuid, registry, Err(message)),
        },
        Request::OpenFile { path, graph } => reply == Ok::<Reply, String>(Reply::FileOpened) && open_done(before, after, graph, path),
        Request::SaveFile { path } => after == before && match reply {
            Ok(Reply::SaveTo(target)) => save_target_done(before, path, Ok(target)),
            Ok(_) => false,
            Err(message) => save_target_done(before, path, Err(message)),
        },
        Request::NewGraph => reply == Ok::<Reply, String>(Reply::GraphCreated) && new_graph_done(before, after),
        Request::StartRun => match reply {
            Ok(Reply::RunStarted(compiled)) => start_run_done(before, after, registry, Ok(compiled)),
            Ok(_) => false,
            Err(message) => start_run_done(before, after, registry, Err(message)),
        },
        Request::StopRun => after == before && match reply {
            Ok(Reply::RunStopped) => stop_run_done(before, Ok(())),
            Ok(_) => false,
            Err(message) => stop_run_done(before, Err(message)),
        },
        Request::ResetRun => match reply {
            Ok(Reply::RunReset(was_running)) => reset_run_done(before, after, Ok(was_running)),
            Ok(_) => false,
            Err(message) => reset_run_done(before, after, Err(message)),
        },
    }
}

/// The session after a request settles: where an edit went through, its
/// problems recomputed and nothing else changed; otherwise as the
/// operation left it.
pub open spec fn settled(applied: Session, after: Session, registry: Registry, refreshed: bool) -> bool {
    if refreshed {
        &&& after.graph == applied.graph
        &&& after.file == applied.file
        &&& after.dirty == applied.dirty
        &&& after.run == applied.run
        &&& after.generation == applied.generation
        &&& after.display == applied.display
        &&& problems_found(registry, after.graph, after.problems@)
    } else {
        after == applied
    }
}

/// One protocol request, its fields read: the operations the editor's
/// catalogue carries. A file is read, and a save written, by the host; an
/// open hands the definition read, a save asks where to write.
pub enum Request {
    ListNodeTypes,
    GetDefinition,
    CreateNode { type_ref: String, position: Yaml },
    MoveNode { uuid: u128, position: Yaml },
    SetLabel { uuid: u128, label: String },
    SetParameter { uuid: u128, input: String, value: Option<ParameterValue> },
    Wire { from: u128, from_port: String, to: u128, to_port: String },
    Unhook { to: u128, to_port: String },
    DeleteNode { uuid: u128 },
    PackageGroup { nodes: Vec<u128>, name: String },
    UnpackGroup { uuid: u128 },
    OpenFile { path: String, graph: GraphDefinition },
    SaveFile { path: Option<String> },
    NewGraph,
    StartRun,
    StopRun,
    ResetRun,
}

/// What an applied request answers.
pub enum Reply {
    NodeTypes,
    Definition,
    NodeCreated(u128),
    NodeMoved,
    LabelSet,
    ParameterSet,
    Wired,
    Unhooked(bool),
    NodeDeleted,
    GroupPackaged(u128, String),
    GroupUnpacked(Vec<u128>),
    FileOpened,
    SaveTo(String),
    GraphCreated,
    RunStarted(crate::compile::CompiledGraph),
    RunStopped,
    RunReset(bool),
}

/// The message type a request travels under.
pub open spec fn kind(request: Request) -> Seq<char> {
    match request {
        Request::ListNodeTypes => "list_node_types"@,
        Request::GetDefinition => "get_definition"@,
        Request::CreateNode { .. } => "create_node"@,
        Request::MoveNode { .. } => "move_node"@,
        Request::SetLabel { .. } => "set_label"@,
        Request::SetParameter { .. } => "set_parameter"@,
        Request::Wire { .. } => "wire"@,
        Request::Unhook { .. } => "unhook"@,
        Request::DeleteNode { .. } => "delete_node"@,
        Request::PackageGroup { .. } => "package_group"@,
        Request::UnpackGroup { .. } => "unpack_group"@,
        Request::OpenFile { .. } => "open_file"@,
        Request::SaveFile { .. } => "save_file"@,
        Request::NewGraph => "new_graph"@,
        Request::StartRun => "start_run"@,
        Request::StopRun => "stop_run"@,
        Request::ResetRun => "reset_run"@,
    }
}

/// The message type a request travels under.
pub fn request_kind(request: &Request) -> (name: &'static str)
    ensures
        name@ == kind(*request),
{
    match request {
        Request::ListNodeTypes => "list_node_types",
        Request::GetDefinition => "get_definition",
        Request::CreateNode { .. } => "create_node",
        Request::MoveNode { .. } => "move_node",
        Request::SetLabel { .. } => "set_label",
        Request::SetParameter { .. } => "set_parameter",
        Request::Wire { .. } => "wire",
        Request::Unhook { .. } => "unhook",
        Request::DeleteNode { .. } => "delete_node",
        Request::PackageGroup { .. } => "package_group",
        Request::UnpackGroup { .. } => "unpack_group",
        Request::OpenFile { .. } => "open_file",
        Request::SaveFile { .. } => "save_file",
        Request::NewGraph => "new_graph",
        Request::StartRun => "start_run",
        Request::StopRun => "stop_run",
        Request::ResetRun => "reset_run",
    }
}

impl Session {
    /// Apply one request: while a run is on every editing operation is
    /// refused before it can touch anything — the definition held still —
    /// and otherwise the request is applied, the problems recomputed after
    /// any change to the definition. A refused or failed request changes
    /// nothing; a request that edits nothing leaves the definition as it is.
    pub fn handle<F: Fn(&crate::compile::CompiledNode) -> Vec<String>>(&mut self, request: Request, listing: &Vec<NodeType>,
        registry: &Registry, check: &F) -> (result: Result<Reply, String>)
        requires
            old(self).wf(),
            compiles_against(*registry, *check),
            request matches Request::OpenFile { graph, .. } ==> groups_bound(graph),
        ensures
            final(self).wf(),
            old(self).run is Running && editing(kind(request)) ==> (result matches Err(message) && message@ == held_still()),
            result is Err ==> *final(self) == *old(self),
            !editing(kind(request)) ==> final(self).graph == old(self).graph,
            !(old(self).run is Running && editing(kind(request))) ==> exists|applied: Session|
                #[trigger] performed(*old(self), applied, request, result, listing@, *registry)
                && settled(applied, *final(self), *registry, result is Ok && editing(kind(request))),
    {
        let ghost asked = request;
        let kind_name = request_kind(&request);
        proof {
            reveal_strlit("create_node");
            reveal_strlit("move_node");
            reveal_strlit("set_label");
            reveal_strlit("set_parameter");
            reveal_strlit("wire");
            reveal_strlit("unhook");
            reveal_strlit("delete_node");
            reveal_strlit("package_group");
            reveal_strlit("unpack_group");
            reveal_strlit("open_file");
            reveal_strlit("save_file");
            reveal_strlit("new_graph");
            reveal_strlit("list_node_types");
            reveal_strlit("get_definition");
            reveal_strlit("start_run");
            reveal_strlit("stop_run");
            reveal_strlit("reset_run");
        }
        let running = match self.run {
            RunState::Running => true,
            RunState::Idle(_) => false,
        };
        if running && is_editing(kind_name) {
            return Err("a run is on: the definition is held still until it ends".to_owned());
        }
        let ghost before = *self;
        let reply = match request {
            Request::ListNodeTypes => Ok(Reply::NodeTypes),
            Request::GetDefinition => Ok(Reply::Definition),
            Request::CreateNode { type_ref, position } => match self.create_node(type_ref, position, listing) {
                Ok(uuid) => Ok(Reply::NodeCreated(uuid)),
                Err(message) => Err(message),
            },
            Request::MoveNode { uuid, position } => match self.move_node(uuid, position) {
                Ok(()) => Ok(Reply::NodeMoved),
                Err(message) => Err(message),
            },
            Request::SetLabel { uuid, label } => match self.set_label(uuid, label) {
                Ok(()) => Ok(Reply::LabelSet),
                Err(message) => Err(message),
            },
            Request::SetParameter { uuid, input, value } => match self.set_parameter(uuid, input, value, registry) {
                Ok(()) => Ok(Reply::ParameterSet),
                Err(message) => Err(message),
            },
            Request::Wire { from, from_port, to, to_port } => match self.wire(from, from_port, to, to_port) {
                Ok(()) => Ok(Reply::Wired),
                Err(message) => Err(message),
            },
            Request::Unhook { to, to_port } => match self.unhook(to, to_port) {
                Ok(changed) => Ok(Reply::Unhooked(changed)),
                Err(message) => Err(message),
            },
            Request::DeleteNode { uuid } => match self.delete_node(uuid) {
                Ok(()) => Ok(Reply::NodeDeleted),
                Err(message) => Err(message),
            },
            Request::PackageGroup { nodes, name } => match self.package_group(&nodes, name.as_str(), registry) {
                Ok(uuid) => Ok(Reply::GroupPackaged(uuid, name)),
                Err(message) => Err(message),
            },
            Request::UnpackGroup { uuid } => match self.unpack_group(uuid, registry) {
                Ok(returned) => Ok(Reply::GroupUnpacked(returned)),
                Err(message) => Err(message),
            },
            Request::OpenFile { path, graph } => {
                self.open(graph, path);
                Ok(Reply::FileOpened)
            },
            Request::SaveFile { path } => match self.save_target(path) {
                Ok(target) => Ok(Reply::SaveTo(target)),
                Err(message) => Err(message),
            },
            Request::NewGraph => {
                self.new_graph();
                Ok(Reply::GraphCreated)
            },
            Request::StartRun => match self.start_run(registry, check) {
                Ok(compiled) => Ok(Reply::RunStarted(compiled)),
                Err(message) => Err(message),
            },
            Request::StopRun => match self.stop_run() {
                Ok(()) => Ok(Reply::RunStopped),
                Err(message) => Err(message),
            },
            Request::ResetRun => match self.reset_run() {
                Ok(was_running) => Ok(Reply::RunReset(was_running)),
                Err(message) => Err(message),
            },
        };
        let ghost applied = *self;
        let ghost answered = reply;
        assert(performed(before, applied, asked, answered, listing@, *registry));
        match reply {
            Ok(answer) => {
                if is_editing(kind_name) {
                    self.refresh_problems(registry, check);
                }
                assert(settled(applied, *self, *registry, editing(kind(asked))));
                Ok(answer)
            },
            Err(message) => {
                assert(settled(applied, *self, *registry, false));
                Err(message)
            },
        }
    }
}

} // verus!
