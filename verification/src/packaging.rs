//! The two group gestures the editing catalogue carries: packaging a
//! selection into a group and unpacking a group instance back into its
//! nodes. Both are derivations from the definition the server holds: the
//! browser names the selection and, for packaging, the group, and the
//! exposed ports and the body follow from what is already there. Both
//! validate first and mutate once, so a refusal leaves the definition
//! exactly as it was.
//!
//! Stored positions are visual bookkeeping in floating point; the caller
//! moves them (packaged nodes to offsets from the selection's centroid, the
//! instance to that centroid, and back on unpacking) once a gesture here
//! has applied.

use vstd::prelude::*;
use vstd::set_lib::{lemma_int_range, lemma_len_subset, lemma_map_size, set_int_range};
use vstd::string::{StrSliceExecFns, StringExecFns};
use crate::graph::{Edge, GraphDefinition, GroupDefinition, GroupPort, NodeInstance, ParameterValue};
use crate::ids::{hyphenated, uuid_text};
use crate::instances::{carried, instance_of, instance_with, name_in, name_of, table_holds};
use crate::model::{port, port_named};
use crate::registry::Registry;
use crate::text::{decimal, decimal_text, lemma_decimal_injective, same_text, views};

verus! {

/// A port name with a numeric suffix: the name, a space, the number.
pub open spec fn suffixed(port: Seq<char>, k: nat) -> Seq<char> {
    port + " "@ + decimal(k)
}

/// Whether `name` is the name a port standing in for `port` takes beside
/// the names already `taken`: its own when free, else the form with the
/// least suffix from 2 up that is free.
pub open spec fn fresh_name(taken: Seq<Seq<char>>, port: Seq<char>, name: Seq<char>) -> bool {
    if !taken.contains(port) {
        name == port
    } else {
        exists|k: nat| {
            &&& k >= 2
            &&& name == suffixed(port, k)
            &&& !taken.contains(name)
            &&& forall|j: nat| 2 <= j < k ==> taken.contains(#[trigger] suffixed(port, j))
        }
    }
}

proof fn lemma_suffixes_distinct(port: Seq<char>, a: nat, b: nat)
    requires
        suffixed(port, a) == suffixed(port, b),
    ensures
        a == b,
{
    reveal_strlit(" ");
    let n: int = port.len() as int + 1;
    assert(suffixed(port, a).subrange(n, suffixed(port, a).len() as int) =~= decimal(a));
    assert(suffixed(port, b).subrange(n, suffixed(port, b).len() as int) =~= decimal(b));
    lemma_decimal_injective(a, b);
}

/// Of the suffixes 2 to `taken.len() + 2`, one names a free port: more
/// candidates than taken names.
proof fn lemma_some_suffix_free(taken: Seq<Seq<char>>, port: Seq<char>)
    ensures
        exists|k: nat| 2 <= k <= taken.len() + 2 && !taken.contains(#[trigger] suffixed(port, k)),
{
    broadcast use vstd::seq_lib::seq_to_set_is_finite;
    if forall|k: nat| 2 <= k <= taken.len() + 2 ==> taken.contains(#[trigger] suffixed(port, k)) {
        let m = taken.len() as int;
        let candidates = set_int_range(2, m + 3);
        lemma_int_range(2, m + 3);
        let name_of = |k: int| suffixed(port, k as nat);
        let names = candidates.map(name_of);
        assert(vstd::relations::injective_on(name_of, candidates)) by {
            assert forall|a: int, b: int| candidates.contains(a) && candidates.contains(b) && #[trigger] name_of(a) == #[trigger] name_of(b) implies a == b by {
                lemma_suffixes_distinct(port, a as nat, b as nat);
            }
        }
        lemma_map_size(candidates, names, name_of);
        assert(names.subset_of(taken.to_set())) by {
            assert forall|n: Seq<char>| names.contains(n) implies taken.to_set().contains(n) by {
                let k = choose|k: int| candidates.contains(k) && n == name_of(k);
                assert(taken.contains(suffixed(port, k as nat)));
            }
        }
        taken.lemma_cardinality_of_set();
        lemma_len_subset(names, taken.to_set());
    }
}

/// Whether `name` is one of the names.
fn is_taken(taken: &Vec<String>, name: &str) -> (found: bool)
    ensures
        found == views(taken@).contains(name@),
{
    let mut i: usize = 0;
    while i < taken.len()
        invariant
            i <= taken.len(),
            forall|j: int| 0 <= j < i ==> taken@[j]@ != name@,
        decreases taken.len() - i,
    {
        if same_text(taken[i].as_str(), name) {
            assert(views(taken@)[i as int] == name@);
            return true;
        }
        i = i + 1;
    }
    assert forall|j: int| 0 <= j < views(taken@).len() implies views(taken@)[j] != name@ by {
        assert(views(taken@)[j] == taken@[j]@);
    }
    false
}

/// The name a port standing in for `port` takes beside the names already
/// taken.
fn fresh(taken: &Vec<String>, port: &str) -> (name: String)
    ensures
        fresh_name(views(taken@), port@, name@),
        !views(taken@).contains(name@),
{
    if !is_taken(taken, port) {
        return port.to_owned();
    }
    proof {
        lemma_some_suffix_free(views(taken@), port@);
    }
    let bound: u128 = taken.len() as u128 + 2;
    let mut suffix: u128 = 2;
    loop
        invariant
            2 <= suffix <= bound,
            bound == taken@.len() + 2,
            views(taken@).contains(port@),
            exists|k: nat| 2 <= k <= bound && !views(taken@).contains(#[trigger] suffixed(port@, k)),
            forall|j: nat| 2 <= j < suffix ==> views(taken@).contains(#[trigger] suffixed(port@, j)),
        decreases bound - suffix,
    {
        let mut name = port.to_owned();
        name.append(" ");
        let digits = decimal_text(suffix);
        name.append(digits.as_str());
        assert(name@ == suffixed(port@, suffix as nat));
        if !is_taken(taken, name.as_str()) {
            return name;
        }
        proof {
            if suffix == bound {
                let k = choose|k: nat| 2 <= k <= bound && !views(taken@).contains(#[trigger] suffixed(port@, k));
                assert(views(taken@).contains(suffixed(port@, k)));
            }
        }
        suffix = suffix + 1;
    }
}

/// The index of the first group named `name`, or the number of groups.
pub open spec fn group_index(groups: Seq<GroupDefinition>, name: Seq<char>) -> int
    decreases groups.len(),
{
    if groups.len() == 0 {
        0
    } else if groups[0].name@ == name {
        0
    } else {
        1 + group_index(groups.drop_first(), name)
    }
}

proof fn lemma_group_index(groups: Seq<GroupDefinition>, name: Seq<char>)
    ensures
        0 <= group_index(groups, name) <= groups.len(),
        group_index(groups, name) < groups.len() ==> groups[group_index(groups, name)].name@ == name,
        forall|j: int| 0 <= j < group_index(groups, name) ==> groups[j].name@ != name,
    decreases groups.len(),
{
    if groups.len() > 0 && groups[0].name@ != name {
        lemma_group_index(groups.drop_first(), name);
        assert forall|j: int| 0 <= j < group_index(groups, name) implies groups[j].name@ != name by {
            if j > 0 {
                assert(groups[j] == groups.drop_first()[j - 1]);
            }
        }
        if group_index(groups, name) < groups.len() {
            assert(groups[group_index(groups, name)] == groups.drop_first()[group_index(groups, name) - 1]);
        }
    }
}

/// Whether the document defines a group named `name`.
pub open spec fn defines_group(graph: GraphDefinition, name: Seq<char>) -> bool {
    group_index(graph.groups@, name) < graph.groups@.len()
}

/// The index of the first group named `name`, if any.
pub fn find_group(groups: &Vec<GroupDefinition>, name: &str) -> (found: Option<usize>)
    ensures
        match found {
            Some(g) => g as int == group_index(groups@, name@) && g < groups@.len(),
            None => group_index(groups@, name@) == groups@.len(),
        },
{
    proof {
        lemma_group_index(groups@, name@);
    }
    let mut g: usize = 0;
    while g < groups.len()
        invariant
            g <= groups.len(),
            forall|j: int| 0 <= j < g ==> groups@[j].name@ != name@,
            0 <= group_index(groups@, name@) <= groups@.len(),
            group_index(groups@, name@) < groups@.len() ==> groups@[group_index(groups@, name@)].name@ == name@,
            forall|j: int| 0 <= j < group_index(groups@, name@) ==> groups@[j].name@ != name@,
        decreases groups.len() - g,
    {
        if same_text(groups[g].name.as_str(), name) {
            return Some(g);
        }
        g = g + 1;
    }
    None
}

/// Whether the node of `uuid` instantiates a type the document or the
/// registry declares.
pub open spec fn declared(graph: GraphDefinition, registry: Registry, instance: NodeInstance) -> bool {
    registry.node_type_of(instance.type_ref@) is Some || defines_group(graph, instance.type_ref@)
}

/// The first node, from the `k`-th crossing edge on, at the selection's end
/// of an edge crossing its boundary whose type nothing declares, by name.
pub open spec fn placeholder_from(graph: GraphDefinition, registry: Registry, selection: Seq<u128>, k: int) -> Option<Seq<char>>
    decreases graph.edges@.len() - k,
{
    if k < 0 || k >= graph.edges@.len() {
        None
    } else {
        let edge = graph.edges@[k];
        if crosses(edge, selection) && !declared(graph, registry, instance_with(graph.nodes@, inner_node(edge, selection))) {
            Some(name_in(registry, instance_with(graph.nodes@, inner_node(edge, selection))))
        } else {
            placeholder_from(graph, registry, selection, k + 1)
        }
    }
}

/// Whether an edge crosses the selection's boundary.
pub open spec fn crosses(edge: Edge, selection: Seq<u128>) -> bool {
    selection.contains(edge.from) != selection.contains(edge.to)
}

/// The selection's end of an edge: its source when the source is selected.
pub open spec fn inner_node(edge: Edge, selection: Seq<u128>) -> u128 {
    if selection.contains(edge.from) { edge.from } else { edge.to }
}

/// What the `k`-th pick of the selection and the ones after it are
/// refused for: a uuid naming no node, or one named a second time.
pub open spec fn pick_fault(nodes: Seq<NodeInstance>, selection: Seq<u128>, k: int) -> Option<Seq<char>>
    decreases selection.len() - k,
{
    if k < 0 || k >= selection.len() {
        None
    } else if !carried(nodes, selection[k]) {
        Some("no such node in the definition"@)
    } else if selection.subrange(0, k).contains(selection[k]) {
        Some("node "@ + hyphenated(selection[k]) + " is named twice in the selection"@)
    } else {
        pick_fault(nodes, selection, k + 1)
    }
}

/// Why a selection cannot be packaged into a group named `name`, if it
/// cannot.
pub open spec fn package_problem(graph: GraphDefinition, selection: Seq<u128>, name: Seq<char>, registry: Registry) -> Option<Seq<char>> {
    if selection.len() == 0 {
        Some("the selection is empty: there is nothing to package"@)
    } else if pick_fault(graph.nodes@, selection, 0) is Some {
        pick_fault(graph.nodes@, selection, 0)
    } else if name.len() == 0 {
        Some("the group's name is empty"@)
    } else if defines_group(graph, name) {
        Some("a group named `"@ + name + "` already exists in this document"@)
    } else if registry.node_type_of(name) is Some {
        Some("the name `"@ + name + "` collides with a node type a linked plugin declares"@)
    } else {
        match placeholder_from(graph, registry, selection, 0) {
            Some(who) => Some("the selection's boundary crosses node "@ + who
                + ", whose type no group in the document defines and no linked plugin declares; an exposed port would have no types to declare"@),
            None => None,
        }
    }
}

fn selection_fault(nodes: &Vec<NodeInstance>, selection: &Vec<u128>) -> (fault: Option<String>)
    ensures
        match fault {
            Some(message) => pick_fault(nodes@, selection@, 0) == Some(message@),
            None => pick_fault(nodes@, selection@, 0) is None,
        },
{
    let mut k: usize = 0;
    while k < selection.len()
        invariant
            k <= selection.len(),
            pick_fault(nodes@, selection@, 0) == pick_fault(nodes@, selection@, k as int),
        decreases selection.len() - k,
    {
        let uuid = selection[k];
        match instance_of(nodes, uuid) {
            None => {
                return Some("no such node in the definition".to_owned());
            },
            Some(_) => {},
        }
        let mut j: usize = 0;
        while j < k
            invariant
                j <= k < selection.len(),
                uuid == selection@[k as int],
                carried(nodes@, uuid),
                pick_fault(nodes@, selection@, 0) == pick_fault(nodes@, selection@, k as int),
                forall|m: int| 0 <= m < j ==> selection@[m] != uuid,
            decreases k - j,
        {
            if selection[j] == uuid {
                assert(selection@.subrange(0, k as int)[j as int] == uuid);
                let mut message = "node ".to_owned();
                let shown = uuid_text(uuid);
                message.append(shown.as_str());
                message.append(" is named twice in the selection");
                return Some(message);
            }
            j = j + 1;
        }
        assert(!selection@.subrange(0, k as int).contains(uuid)) by {
            if selection@.subrange(0, k as int).contains(uuid) {
                let m = choose|m: int| 0 <= m < k && selection@.subrange(0, k as int)[m] == uuid;
                assert(selection@[m] == uuid);
            }
        }
        k = k + 1;
    }
    None
}

/// The first node at the selection's end of a crossing edge whose type
/// nothing declares, by name.
fn boundary_placeholder(graph: &GraphDefinition, selection: &Vec<u128>, registry: &Registry) -> (who: Option<String>)
    requires
        registry.wf(),
        forall|uuid: u128| selection@.contains(uuid) ==> carried(graph.nodes@, uuid),
    ensures
        match who {
            Some(name) => placeholder_from(*graph, *registry, selection@, 0) == Some(name@),
            None => placeholder_from(*graph, *registry, selection@, 0) is None,
        },
{
    let mut k: usize = 0;
    while k < graph.edges.len()
        invariant
            k <= graph.edges.len(),
            registry.wf(),
            forall|uuid: u128| selection@.contains(uuid) ==> carried(graph.nodes@, uuid),
            placeholder_from(*graph, *registry, selection@, 0) == placeholder_from(*graph, *registry, selection@, k as int),
        decreases graph.edges.len() - k,
    {
        let edge = &graph.edges[k];
        let from_in = table_holds(selection, edge.from);
        let to_in = table_holds(selection, edge.to);
        if from_in != to_in {
            let uuid = if from_in { edge.from } else { edge.to };
            match instance_of(&graph.nodes, uuid) {
                Some(node) => {
                    let known = match registry.node_type(node.type_ref.as_str()) {
                        Some(_) => true,
                        None => match find_group(&graph.groups, node.type_ref.as_str()) {
                            Some(_) => true,
                            None => false,
                        },
                    };
                    if !known {
                        return Some(name_of(registry, node));
                    }
                },
                None => {
                    proof {
                        assert(selection@.contains(uuid));
                    }
                },
            }
        }
        k = k + 1;
    }
    None
}

/// The index of the first group port of `ports` named `name`, or their
/// number.
pub open spec fn group_port_index(ports: Seq<GroupPort>, name: Seq<char>) -> int
    decreases ports.len(),
{
    if ports.len() == 0 {
        0
    } else if ports[0].name@ == name {
        0
    } else {
        1 + group_port_index(ports.drop_first(), name)
    }
}

proof fn lemma_group_port_index(ports: Seq<GroupPort>, name: Seq<char>)
    ensures
        0 <= group_port_index(ports, name) <= ports.len(),
        group_port_index(ports, name) < ports.len() ==> ports[group_port_index(ports, name)].name@ == name,
        forall|j: int| 0 <= j < group_port_index(ports, name) ==> ports[j].name@ != name,
    decreases ports.len(),
{
    if ports.len() > 0 && ports[0].name@ != name {
        lemma_group_port_index(ports.drop_first(), name);
        assert forall|j: int| 0 <= j < group_port_index(ports, name) implies ports[j].name@ != name by {
            if j > 0 {
                assert(ports[j] == ports.drop_first()[j - 1]);
            }
        }
        if group_port_index(ports, name) < ports.len() {
            assert(ports[group_port_index(ports, name)] == ports.drop_first()[group_port_index(ports, name) - 1]);
        }
    }
}

fn find_group_port(ports: &Vec<GroupPort>, name: &str) -> (found: Option<usize>)
    ensures
        match found {
            Some(i) => i as int == group_port_index(ports@, name@) && i < ports@.len(),
            None => group_port_index(ports@, name@) == ports@.len(),
        },
{
    proof {
        lemma_group_port_index(ports@, name@);
    }
    let mut i: usize = 0;
    while i < ports.len()
        invariant
            i <= ports.len(),
            forall|j: int| 0 <= j < i ==> ports@[j].name@ != name@,
            0 <= group_port_index(ports@, name@) <= ports@.len(),
            group_port_index(ports@, name@) < ports@.len() ==> ports@[group_port_index(ports@, name@)].name@ == name@,
            forall|j: int| 0 <= j < group_port_index(ports@, name@) ==> ports@[j].name@ != name@,
        decreases ports.len() - i,
    {
        if same_text(ports[i].name.as_str(), name) {
            return Some(i);
        }
        i = i + 1;
    }
    None
}

/// The type references the port `port` of the node `uuid` declares, an
/// input when `input`: a group instance's exposed ports resolving against
/// the document's groups before the linked types'. A node or port nothing
/// declares declares none.
pub open spec fn declared_types(graph: GraphDefinition, registry: Registry, uuid: u128, port: Seq<char>, input: bool) -> Seq<Seq<char>> {
    if !carried(graph.nodes@, uuid) {
        Seq::empty()
    } else {
        let instance = instance_with(graph.nodes@, uuid);
        let g = group_index(graph.groups@, instance.type_ref@);
        if g < graph.groups@.len() {
            let ports = if input { graph.groups@[g].inputs@ } else { graph.groups@[g].outputs@ };
            let i = group_port_index(ports, port);
            if i < ports.len() { views(ports[i].type_refs@) } else { Seq::empty() }
        } else {
            match registry.node_type_of(instance.type_ref@) {
                Some(node_type) => match port_named(if input { node_type.inputs@ } else { node_type.outputs@ }, port) {
                    Some(p) => views(p.type_refs@),
                    None => Seq::empty(),
                },
                None => Seq::empty(),
            }
        }
    }
}

fn inner_port_types(graph: &GraphDefinition, registry: &Registry, uuid: u128, port_name: &str, input: bool) -> (types: Vec<String>)
    requires
        registry.wf(),
    ensures
        views(types@) == declared_types(*graph, *registry, uuid, port_name@, input),
{
    let instance = match instance_of(&graph.nodes, uuid) {
        Some(instance) => instance,
        None => {
            let none: Vec<String> = Vec::new();
            assert(views(none@) =~= Seq::<Seq<char>>::empty());
            return none;
        },
    };
    match find_group(&graph.groups, instance.type_ref.as_str()) {
        Some(g) => {
            let group = &graph.groups[g];
            let ports = if input { &group.inputs } else { &group.outputs };
            match find_group_port(ports, port_name) {
                Some(i) => crate::text::copy_names(&ports[i].type_refs),
                None => {
                    let none: Vec<String> = Vec::new();
                    assert(views(none@) =~= Seq::<Seq<char>>::empty());
                    none
                },
            }
        },
        None => match registry.node_type(instance.type_ref.as_str()) {
            Some(node_type) => {
                let ports = if input { &node_type.inputs } else { &node_type.outputs };
                match port(ports, port_name) {
                    Some(p) => crate::text::copy_names(&p.type_refs),
                    None => {
                        let none: Vec<String> = Vec::new();
                        assert(views(none@) =~= Seq::<Seq<char>>::empty());
                        none
                    },
                }
            },
            None => {
                let none: Vec<String> = Vec::new();
                assert(views(none@) =~= Seq::<Seq<char>>::empty());
                none
            },
        },
    }
}

/// The edges of one class, in order: 0 those with neither end selected,
/// 1 those with both, 2 those crossing the boundary.
pub open spec fn edges_where(edges: Seq<Edge>, selection: Seq<u128>, class: int) -> Seq<Edge>
    decreases edges.len(),
{
    if edges.len() == 0 {
        Seq::empty()
    } else {
        let rest = edges_where(edges.drop_last(), selection, class);
        if edge_class(edges.last(), selection) == class { rest.push(edges.last()) } else { rest }
    }
}

/// An edge's class against a selection.
pub open spec fn edge_class(edge: Edge, selection: Seq<u128>) -> int {
    let from = selection.contains(edge.from);
    let to = selection.contains(edge.to);
    if from && to { 1 } else if !from && !to { 0 } else { 2 }
}

/// Whether a group port stands in for the port `name` of `node`.
pub open spec fn binds(port: GroupPort, node: u128, name: Seq<char>) -> bool {
    port.node == node && port.port@ == name
}

/// The crossing edge `edge` runs through the new instance as `rewired`
/// does: an outward edge from the exposed output binding its source, an
/// inward one into the exposed input binding its target.
pub open spec fn rewired(edge: Edge, rewired: Edge, selection: Seq<u128>, instance: u128, inputs: Seq<GroupPort>, outputs: Seq<GroupPort>) -> bool {
    if selection.contains(edge.from) {
        exists|i: int| 0 <= i < outputs.len() && binds(#[trigger] outputs[i], edge.from, edge.from_port@)
            && rewired.from == instance && rewired.from_port@ == outputs[i].name@
            && rewired.to == edge.to && rewired.to_port@ == edge.to_port@
    } else {
        exists|i: int| 0 <= i < inputs.len() && binds(#[trigger] inputs[i], edge.to, edge.to_port@)
            && rewired.from == edge.from && rewired.from_port@ == edge.from_port@
            && rewired.to == instance && rewired.to_port@ == inputs[i].name@
    }
}

/// Whether a crossing edge has its selected end at `port` of `node`, in the
/// direction `outward`.
pub open spec fn crosses_at(edge: Edge, selection: Seq<u128>, outward: bool, node: u128, port: Seq<char>) -> bool {
    &&& selection.contains(edge.from) == outward
    &&& if outward { edge.from == node && edge.from_port@ == port } else { edge.to == node && edge.to_port@ == port }
}

/// Whether some crossing edge has its selected end where `port` binds.
pub open spec fn bound_by(port: GroupPort, crossing: Seq<Edge>, selection: Seq<u128>, outward: bool) -> bool {
    exists|k: int| 0 <= k < crossing.len() && #[trigger] crosses_at(crossing[k], selection, outward, port.node, port.port@)
}

/// The exposed ports of one direction: one per bound inner port, each bound
/// by a crossing edge of that direction, declaring the bound port's type
/// references, named as the bound port or with a numeric suffix.
pub open spec fn ports_sound(ports: Seq<GroupPort>, crossing: Seq<Edge>, selection: Seq<u128>, outward: bool, graph: GraphDefinition, registry: Registry) -> bool {
    &&& forall|i: int, j: int| 0 <= i < j < ports.len() ==> !binds(#[trigger] ports[i], (#[trigger] ports[j]).node, ports[j].port@)
    &&& forall|i: int| 0 <= i < ports.len() ==> bound_by(#[trigger] ports[i], crossing, selection, outward)
    &&& forall|i: int| 0 <= i < ports.len() ==> views((#[trigger] ports[i]).type_refs@) == declared_types(graph, registry, ports[i].node, ports[i].port@, !outward)
    &&& forall|i: int| 0 <= i < ports.len() ==> ((#[trigger] ports[i]).name@ == ports[i].port@
        || exists|k: nat| k >= 2 && ports[i].name@ == suffixed(ports[i].port@, k))
}

/// No two exposed ports, of either direction, share a name.
pub open spec fn names_distinct(inputs: Seq<GroupPort>, outputs: Seq<GroupPort>) -> bool {
    &&& forall|i: int, j: int| 0 <= i < j < inputs.len() ==> (#[trigger] inputs[i]).name@ != (#[trigger] inputs[j]).name@
    &&& forall|i: int, j: int| 0 <= i < j < outputs.len() ==> (#[trigger] outputs[i]).name@ != (#[trigger] outputs[j]).name@
    &&& forall|i: int, j: int| 0 <= i < inputs.len() && 0 <= j < outputs.len() ==> (#[trigger] inputs[i]).name@ != (#[trigger] outputs[j]).name@
}

/// The exposed ports the selection's crossing edges derive, and each
/// crossing edge, in order, rewired through the new instance.
pub open spec fn exposes(graph: GraphDefinition, registry: Registry, selection: Seq<u128>, instance: u128,
    inputs: Seq<GroupPort>, outputs: Seq<GroupPort>, reattached: Seq<Edge>) -> bool {
    let crossing = edges_where(graph.edges@, selection, 2);
    &&& reattached.len() == crossing.len()
    &&& forall|k: int| 0 <= k < crossing.len() ==> rewired(#[trigger] crossing[k], reattached[k], selection, instance, inputs, outputs)
    &&& ports_sound(inputs, crossing, selection, false, graph, registry)
    &&& ports_sound(outputs, crossing, selection, true, graph, registry)
    &&& names_distinct(inputs, outputs)
}

fn bound_port(ports: &Vec<GroupPort>, node: u128, name: &str) -> (found: Option<usize>)
    ensures
        match found {
            Some(i) => i < ports@.len() && binds(ports@[i as int], node, name@),
            None => forall|i: int| 0 <= i < ports@.len() ==> !binds(#[trigger] ports@[i], node, name@),
        },
{
    let mut i: usize = 0;
    while i < ports.len()
        invariant
            i <= ports.len(),
            forall|j: int| 0 <= j < i ==> !binds(#[trigger] ports@[j], node, name@),
        decreases ports.len() - i,
    {
        if ports[i].node == node && same_text(ports[i].port.as_str(), name) {
            return Some(i);
        }
        i = i + 1;
    }
    None
}

proof fn lemma_edges_where_step(edges: Seq<Edge>, selection: Seq<u128>, class: int, i: int)
    requires
        0 <= i < edges.len(),
    ensures
        edges_where(edges.subrange(0, i + 1), selection, class) == if edge_class(edges[i], selection) == class {
            edges_where(edges.subrange(0, i), selection, class).push(edges[i])
        } else {
            edges_where(edges.subrange(0, i), selection, class)
        },
{
    assert(edges.subrange(0, i + 1).drop_last() =~= edges.subrange(0, i));
    assert(edges.subrange(0, i + 1).last() == edges[i]);
}

/// A rewiring stays one as the port lists grow.
proof fn lemma_rewired_grow(edge: Edge, re: Edge, selection: Seq<u128>, instance: u128,
    inputs: Seq<GroupPort>, outputs: Seq<GroupPort>, more_inputs: Seq<GroupPort>, more_outputs: Seq<GroupPort>)
    requires
        rewired(edge, re, selection, instance, inputs, outputs),
        inputs.len() <= more_inputs.len(),
        outputs.len() <= more_outputs.len(),
        forall|j: int| 0 <= j < inputs.len() ==> more_inputs[j] == inputs[j],
        forall|j: int| 0 <= j < outputs.len() ==> more_outputs[j] == outputs[j],
    ensures
        rewired(edge, re, selection, instance, more_inputs, more_outputs),
{
    if selection.contains(edge.from) {
        let i = choose|i: int| 0 <= i < outputs.len() && binds(#[trigger] outputs[i], edge.from, edge.from_port@)
            && re.from == instance && re.from_port@ == outputs[i].name@
            && re.to == edge.to && re.to_port@ == edge.to_port@;
        assert(binds(more_outputs[i], edge.from, edge.from_port@));
    } else {
        let i = choose|i: int| 0 <= i < inputs.len() && binds(#[trigger] inputs[i], edge.to, edge.to_port@)
            && re.from == edge.from && re.from_port@ == edge.from_port@
            && re.to == instance && re.to_port@ == inputs[i].name@;
        assert(binds(more_inputs[i], edge.to, edge.to_port@));
    }
}

/// Sound ports stay sound as more crossing edges are seen.
proof fn lemma_ports_sound_more_edges(ports: Seq<GroupPort>, crossing: Seq<Edge>, edge: Edge, selection: Seq<u128>,
    outward: bool, graph: GraphDefinition, registry: Registry)
    requires
        ports_sound(ports, crossing, selection, outward, graph, registry),
    ensures
        ports_sound(ports, crossing.push(edge), selection, outward, graph, registry),
{
    assert forall|i: int| 0 <= i < ports.len() implies bound_by(#[trigger] ports[i], crossing.push(edge), selection, outward) by {
        let k = choose|k: int| 0 <= k < crossing.len()
            && #[trigger] crosses_at(crossing[k], selection, outward, ports[i].node, ports[i].port@);
        assert(crossing.push(edge)[k] == crossing[k]);
        assert(crosses_at(crossing.push(edge)[k], selection, outward, ports[i].node, ports[i].port@));
    }
}

/// Sound ports stay sound with a new port bound by the newest crossing
/// edge's inner end, where no port bound it before.
proof fn lemma_ports_sound_add(ports: Seq<GroupPort>, crossing: Seq<Edge>, edge: Edge, added: GroupPort,
    selection: Seq<u128>, outward: bool, graph: GraphDefinition, registry: Registry)
    requires
        ports_sound(ports, crossing.push(edge), selection, outward, graph, registry),
        crosses_at(edge, selection, outward, added.node, added.port@),
        forall|i: int| 0 <= i < ports.len() ==> !binds(#[trigger] ports[i], added.node, added.port@),
        views(added.type_refs@) == declared_types(graph, registry, added.node, added.port@, !outward),
        added.name@ == added.port@ || exists|k: nat| k >= 2 && added.name@ == suffixed(added.port@, k),
    ensures
        ports_sound(ports.push(added), crossing.push(edge), selection, outward, graph, registry),
{
    let all = ports.push(added);
    let c = crossing.push(edge);
    assert forall|i: int| 0 <= i < all.len() implies bound_by(#[trigger] all[i], c, selection, outward) by {
        if i < ports.len() {
            assert(all[i] == ports[i]);
            assert(bound_by(ports[i], c, selection, outward));
        } else {
            assert(c[crossing.len() as int] == edge);
            assert(crosses_at(c[crossing.len() as int], selection, outward, all[i].node, all[i].port@));
        }
    }
    assert forall|i: int, j: int| 0 <= i < j < all.len() implies !binds(#[trigger] all[i], (#[trigger] all[j]).node, all[j].port@) by {
        if j < ports.len() {
            assert(all[i] == ports[i] && all[j] == ports[j]);
        } else {
            assert(all[i] == ports[i]);
        }
    }
    assert forall|i: int| 0 <= i < all.len() implies views((#[trigger] all[i]).type_refs@) == declared_types(graph, registry, all[i].node, all[i].port@, !outward) by {
        if i < ports.len() {
            assert(all[i] == ports[i]);
        }
    }
    assert forall|i: int| 0 <= i < all.len() implies ((#[trigger] all[i]).name@ == all[i].port@
        || exists|k: nat| k >= 2 && all[i].name@ == suffixed(all[i].port@, k)) by {
        if i < ports.len() {
            assert(all[i] == ports[i]);
        }
    }
}

/// The exposed ports the selection's crossing edges derive, walking the
/// edges in their stored order, with each crossing edge rewritten to run
/// through the new instance: one inner output serves all its external
/// downstreams, so a binding already spoken for takes its port's name
/// again, and the names are deduplicated across the whole new port set.
fn exposed_ports(graph: &GraphDefinition, registry: &Registry, selection: &Vec<u128>, instance: u128)
    -> (exposed: (Vec<GroupPort>, Vec<GroupPort>, Vec<Edge>))
    requires
        registry.wf(),
    ensures
        exposes(*graph, *registry, selection@, instance, exposed.0@, exposed.1@, exposed.2@),
{
    let ghost sel = selection@;
    let mut inputs: Vec<GroupPort> = Vec::new();
    let mut outputs: Vec<GroupPort> = Vec::new();
    let mut reattached: Vec<Edge> = Vec::new();
    let mut taken: Vec<String> = Vec::new();
    let mut i: usize = 0;
    while i < graph.edges.len()
        invariant
            i <= graph.edges.len(),
            sel == selection@,
            registry.wf(),
            reattached@.len() == edges_where(graph.edges@.subrange(0, i as int), sel, 2).len(),
            forall|k: int| 0 <= k < reattached@.len() ==> rewired(
                #[trigger] edges_where(graph.edges@.subrange(0, i as int), sel, 2)[k], reattached@[k], sel, instance, inputs@, outputs@),
            ports_sound(inputs@, edges_where(graph.edges@.subrange(0, i as int), sel, 2), sel, false, *graph, *registry),
            ports_sound(outputs@, edges_where(graph.edges@.subrange(0, i as int), sel, 2), sel, true, *graph, *registry),
            names_distinct(inputs@, outputs@),
            forall|j: int| 0 <= j < inputs@.len() ==> views(taken@).contains((#[trigger] inputs@[j]).name@),
            forall|j: int| 0 <= j < outputs@.len() ==> views(taken@).contains((#[trigger] outputs@[j]).name@),
        decreases graph.edges.len() - i,
    {
        let ghost before = edges_where(graph.edges@.subrange(0, i as int), sel, 2);
        let ghost inputs_before = inputs@;
        let ghost outputs_before = outputs@;
        let ghost reattached_before = reattached@;
        let edge = &graph.edges[i];
        let from_in = table_holds(selection, edge.from);
        let to_in = table_holds(selection, edge.to);
        proof {
            lemma_edges_where_step(graph.edges@, sel, 2, i as int);
        }
        if from_in != to_in {
            let ghost after = before.push(*edge);
            assert(edges_where(graph.edges@.subrange(0, i + 1), sel, 2) == after);
            let outward = from_in;
            let node = if outward { edge.from } else { edge.to };
            let port_name = if outward { edge.from_port.as_str() } else { edge.to_port.as_str() };
            assert(crosses_at(*edge, sel, outward, node, port_name@));
            proof {
                lemma_ports_sound_more_edges(inputs@, before, *edge, sel, false, *graph, *registry);
                lemma_ports_sound_more_edges(outputs@, before, *edge, sel, true, *graph, *registry);
            }
            let spoken = if outward { bound_port(&outputs, node, port_name) } else { bound_port(&inputs, node, port_name) };
            let ghost mut at: int = 0;
            let name = match spoken {
                Some(p) => {
                    proof {
                        at = p as int;
                    }
                    if outward { outputs[p].name.clone() } else { inputs[p].name.clone() }
                },
                None => {
                    let name = fresh(&taken, port_name);
                    let types = inner_port_types(graph, registry, node, port_name, !outward);
                    let added = GroupPort { name: name.clone(), type_refs: types, node, port: port_name.to_owned() };
                    proof {
                        if outward {
                            at = outputs@.len() as int;
                            lemma_ports_sound_add(outputs@, before, *edge, added, sel, true, *graph, *registry);
                        } else {
                            at = inputs@.len() as int;
                            lemma_ports_sound_add(inputs@, before, *edge, added, sel, false, *graph, *registry);
                        }
                    }
                    if outward {
                        outputs.push(added);
                    } else {
                        inputs.push(added);
                    }
                    let ghost taken_before = taken@;
                    taken.push(name.clone());
                    proof {
                        assert(views(taken@) =~= views(taken_before).push(name@));
                        assert forall|j: int| 0 <= j < inputs@.len() implies views(taken@).contains((#[trigger] inputs@[j]).name@) by {
                            if j < inputs_before.len() {
                                assert(inputs@[j] == inputs_before[j]);
                                assert(views(taken_before).contains(inputs_before[j].name@));
                                let w = choose|w: int| 0 <= w < views(taken_before).len() && views(taken_before)[w] == inputs_before[j].name@;
                                assert(views(taken@)[w] == inputs_before[j].name@);
                            } else {
                                assert(views(taken@)[views(taken_before).len() as int] == name@);
                            }
                        }
                        assert forall|j: int| 0 <= j < outputs@.len() implies views(taken@).contains((#[trigger] outputs@[j]).name@) by {
                            if j < outputs_before.len() {
                                assert(outputs@[j] == outputs_before[j]);
                                assert(views(taken_before).contains(outputs_before[j].name@));
                                let w = choose|w: int| 0 <= w < views(taken_before).len() && views(taken_before)[w] == outputs_before[j].name@;
                                assert(views(taken@)[w] == outputs_before[j].name@);
                            } else {
                                assert(views(taken@)[views(taken_before).len() as int] == name@);
                            }
                        }
                        assert forall|j: int| 0 <= j < inputs_before.len() implies (#[trigger] inputs_before[j]).name@ != name@ by {
                            assert(views(taken_before).contains(inputs_before[j].name@));
                        }
                        assert forall|j: int| 0 <= j < outputs_before.len() implies (#[trigger] outputs_before[j]).name@ != name@ by {
                            assert(views(taken_before).contains(outputs_before[j].name@));
                        }
                    }
                    name
                },
            };
            let rewired_edge = if outward {
                Edge { from: instance, from_port: name, to: edge.to, to_port: edge.to_port.clone() }
            } else {
                Edge { from: edge.from, from_port: edge.from_port.clone(), to: instance, to_port: name }
            };
            reattached.push(rewired_edge);
            proof {
                assert forall|k: int| 0 <= k < reattached@.len() implies rewired(
                    #[trigger] after[k], reattached@[k], sel, instance, inputs@, outputs@) by {
                    if k < reattached_before.len() {
                        assert(after[k] == before[k]);
                        assert(reattached@[k] == reattached_before[k]);
                        lemma_rewired_grow(before[k], reattached_before[k], sel, instance, inputs_before, outputs_before, inputs@, outputs@);
                    } else {
                        assert(after[k] == *edge);
                        if outward {
                            assert(binds(outputs@[at], edge.from, edge.from_port@));
                        } else {
                            assert(binds(inputs@[at], edge.to, edge.to_port@));
                        }
                    }
                }
            }
        } else {
            proof {
                assert(edges_where(graph.edges@.subrange(0, i + 1), sel, 2) == before);
            }
        }
        i = i + 1;
    }
    assert(graph.edges@.subrange(0, graph.edges@.len() as int) =~= graph.edges@);
    (inputs, outputs, reattached)
}

/// The nodes of `nodes` inside the selection, or outside it, in order.
pub open spec fn nodes_on(nodes: Seq<NodeInstance>, selection: Seq<u128>, inside: bool) -> Seq<NodeInstance>
    decreases nodes.len(),
{
    if nodes.len() == 0 {
        Seq::empty()
    } else {
        let rest = nodes_on(nodes.drop_last(), selection, inside);
        if selection.contains(nodes.last().uuid) == inside { rest.push(nodes.last()) } else { rest }
    }
}

/// The nodes inside the selection and those outside it, each in order.
fn split_nodes(nodes: Vec<NodeInstance>, selection: &Vec<u128>) -> (split: (Vec<NodeInstance>, Vec<NodeInstance>))
    ensures
        split.0@ == nodes_on(nodes@, selection@, true),
        split.1@ == nodes_on(nodes@, selection@, false),
{
    let ghost all = nodes@;
    let mut rest = nodes;
    let mut inside: Vec<NodeInstance> = Vec::new();
    let mut outside: Vec<NodeInstance> = Vec::new();
    let ghost mut done: int = 0;
    assert(all.subrange(0, 0) =~= Seq::<NodeInstance>::empty());
    while rest.len() > 0
        invariant
            0 <= done <= all.len(),
            rest@ == all.subrange(done, all.len() as int),
            inside@ == nodes_on(all.subrange(0, done), selection@, true),
            outside@ == nodes_on(all.subrange(0, done), selection@, false),
        decreases rest.len(),
    {
        let node = rest.remove(0);
        proof {
            assert(all.subrange(0, done + 1).drop_last() =~= all.subrange(0, done));
            assert(all.subrange(0, done + 1).last() == node);
        }
        if table_holds(selection, node.uuid) {
            inside.push(node);
        } else {
            outside.push(node);
        }
        proof {
            done = done + 1;
            assert(rest@ =~= all.subrange(done, all.len() as int));
        }
    }
    assert(all.subrange(0, all.len() as int) =~= all);
    (inside, outside)
}

/// The edges with neither end selected and those with both, each in
/// order; the crossing ones go.
fn split_edges(edges: Vec<Edge>, selection: &Vec<u128>) -> (split: (Vec<Edge>, Vec<Edge>))
    ensures
        split.0@ == edges_where(edges@, selection@, 0),
        split.1@ == edges_where(edges@, selection@, 1),
{
    let ghost all = edges@;
    let mut rest = edges;
    let mut untouched: Vec<Edge> = Vec::new();
    let mut internal: Vec<Edge> = Vec::new();
    let ghost mut done: int = 0;
    assert(all.subrange(0, 0) =~= Seq::<Edge>::empty());
    while rest.len() > 0
        invariant
            0 <= done <= all.len(),
            rest@ == all.subrange(done, all.len() as int),
            untouched@ == edges_where(all.subrange(0, done), selection@, 0),
            internal@ == edges_where(all.subrange(0, done), selection@, 1),
        decreases rest.len(),
    {
        let edge = rest.remove(0);
        proof {
            assert(all.subrange(0, done + 1).drop_last() =~= all.subrange(0, done));
            assert(all.subrange(0, done + 1).last() == edge);
        }
        let from_in = table_holds(selection, edge.from);
        let to_in = table_holds(selection, edge.to);
        if from_in && to_in {
            internal.push(edge);
        } else if !from_in && !to_in {
            untouched.push(edge);
        }
        proof {
            done = done + 1;
            assert(rest@ =~= all.subrange(done, all.len() as int));
        }
    }
    assert(all.subrange(0, all.len() as int) =~= all);
    (untouched, internal)
}

/// `after` is `before` with the selection packaged into a group named
/// `name`, collapsed into the instance `instance`: the selected nodes and
/// the edges wholly inside the selection form the group's body, the edges
/// crossing its boundary run through the instance's exposed ports, and the
/// rest stands as it was.
pub open spec fn packaged(before: GraphDefinition, after: GraphDefinition, selection: Seq<u128>, name: Seq<char>,
    registry: Registry, instance: u128) -> bool {
    let outside = nodes_on(before.nodes@, selection, false);
    let untouched = edges_where(before.edges@, selection, 0);
    let group = after.groups@.last();
    let node = after.nodes@.last();
    &&& after.schema_version == before.schema_version
    &&& after.name == before.name
    &&& after.nodes@.len() == outside.len() + 1
    &&& after.nodes@.subrange(0, outside.len() as int) == outside
    &&& node.uuid == instance && node.type_ref@ == name && node.label is None
    &&& node.parameters@.len() == 0 && node.metadata@.len() == 0
    &&& after.groups@.len() == before.groups@.len() + 1
    &&& after.groups@.subrange(0, before.groups@.len() as int) == before.groups@
    &&& group.name@ == name
    &&& group.nodes@ == nodes_on(before.nodes@, selection, true)
    &&& group.edges@ == edges_where(before.edges@, selection, 1)
    &&& after.edges@.len() >= untouched.len()
    &&& after.edges@.subrange(0, untouched.len() as int) == untouched
    &&& exposes(before, registry, selection, instance, group.inputs@, group.outputs@,
        after.edges@.subrange(untouched.len() as int, after.edges@.len() as int))
}

/// Package the selection into a new group named `name`, replacing it on
/// the canvas with one collapsed instance, whose fresh uuid is answered.
/// Each edge crossing the selection's boundary becomes an exposed port
/// binding the inner port it stood in for, which takes that port's name,
/// deduplicated across the new port set, and declares its type references.
pub fn package(graph: &mut GraphDefinition, selection: &Vec<u128>, name: &str, registry: &Registry) -> (result: Result<u128, String>)
    requires
        registry.wf(),
    ensures
        match result {
            Err(message) => {
                &&& package_problem(*old(graph), selection@, name@, *registry) == Some(message@)
                &&& *final(graph) == *old(graph)
            },
            Ok(instance) => {
                &&& package_problem(*old(graph), selection@, name@, *registry) is None
                &&& packaged(*old(graph), *final(graph), selection@, name@, *registry, instance)
            },
        },
{
    if selection.len() == 0 {
        return Err("the selection is empty: there is nothing to package".to_owned());
    }
    match selection_fault(&graph.nodes, selection) {
        Some(fault) => {
            return Err(fault);
        },
        None => {},
    }
    proof {
        lemma_picks_carried(graph.nodes@, selection@);
    }
    if name.unicode_len() == 0 {
        return Err("the group's name is empty".to_owned());
    }
    match find_group(&graph.groups, name) {
        Some(_) => {
            let mut message = "a group named `".to_owned();
            message.append(name);
            message.append("` already exists in this document");
            return Err(message);
        },
        None => {},
    }
    match registry.node_type(name) {
        Some(_) => {
            let mut message = "the name `".to_owned();
            message.append(name);
            message.append("` collides with a node type a linked plugin declares");
            return Err(message);
        },
        None => {},
    }
    match boundary_placeholder(graph, selection, registry) {
        Some(who) => {
            let mut message = "the selection's boundary crosses node ".to_owned();
            message.append(who.as_str());
            message.append(", whose type no group in the document defines and no linked plugin declares; an exposed port would have no types to declare");
            return Err(message);
        },
        None => {},
    }
    let ghost before = *graph;
    let instance = crate::ids::fresh_uuid();
    let (inputs, outputs, reattached) = exposed_ports(graph, registry, selection, instance);
    let mut nodes: Vec<NodeInstance> = Vec::new();
    std::mem::swap(&mut nodes, &mut graph.nodes);
    let (body, mut outside) = split_nodes(nodes, selection);
    let mut edges: Vec<Edge> = Vec::new();
    std::mem::swap(&mut edges, &mut graph.edges);
    let (mut kept, body_edges) = split_edges(edges, selection);
    let ghost untouched = kept@;
    let mut k: usize = 0;
    while k < reattached.len()
        invariant
            k <= reattached.len(),
            kept@ == untouched + reattached@.subrange(0, k as int),
        decreases reattached.len() - k,
    {
        let edge = &reattached[k];
        kept.push(Edge { from: edge.from, from_port: edge.from_port.clone(), to: edge.to, to_port: edge.to_port.clone() });
        proof {
            assert(reattached@.subrange(0, k + 1) =~= reattached@.subrange(0, k as int).push(reattached@[k as int]));
            assert(kept@.last() == reattached@[k as int]);
        }
        k = k + 1;
    }
    outside.push(NodeInstance {
        uuid: instance,
        type_ref: name.to_owned(),
        label: None,
        parameters: Vec::new(),
        metadata: Vec::new(),
    });
    graph.nodes = outside;
    graph.edges = kept;
    graph.groups.push(GroupDefinition { name: name.to_owned(), inputs, outputs, nodes: body, edges: body_edges });
    proof {
        assert(graph.nodes@.subrange(0, graph.nodes@.len() - 1) =~= nodes_on(before.nodes@, selection@, false));
        assert(graph.groups@.subrange(0, before.groups@.len() as int) =~= before.groups@);
        assert(graph.edges@.subrange(0, untouched.len() as int) =~= untouched);
        assert(reattached@.subrange(0, reattached@.len() as int) =~= reattached@);
        assert(graph.edges@.subrange(untouched.len() as int, graph.edges@.len() as int) =~= reattached@);
    }
    Ok(instance)
}

/// Every pick of a selection without a fault names a node.
proof fn lemma_picks_carried(nodes: Seq<NodeInstance>, selection: Seq<u128>)
    requires
        pick_fault(nodes, selection, 0) is None,
    ensures
        forall|uuid: u128| selection.contains(uuid) ==> carried(nodes, uuid),
{
    assert forall|k: int| 0 <= k < selection.len() implies pick_fault(nodes, selection, k) is None && carried(nodes, #[trigger] selection[k]) by {
        lemma_pick_fault_tail(nodes, selection, k);
    }
}

proof fn lemma_pick_fault_tail(nodes: Seq<NodeInstance>, selection: Seq<u128>, k: int)
    requires
        pick_fault(nodes, selection, 0) is None,
        0 <= k < selection.len(),
    ensures
        pick_fault(nodes, selection, k) is None,
        carried(nodes, selection[k]),
    decreases k,
{
    if k > 0 {
        lemma_pick_fault_tail(nodes, selection, k - 1);
    }
}

/// A parameter list as its names' texts and values.
pub open spec fn parameter_views(parameters: Seq<(String, ParameterValue)>) -> Seq<(Seq<char>, ParameterValue)> {
    parameters.map_values(|entry: (String, ParameterValue)| (entry.0@, entry.1))
}

/// The index of the first entry named `name`, or the number of entries.
pub open spec fn entry_index(entries: Seq<(Seq<char>, ParameterValue)>, name: Seq<char>) -> int
    decreases entries.len(),
{
    if entries.len() == 0 {
        0
    } else if entries[0].0 == name {
        0
    } else {
        1 + entry_index(entries.drop_first(), name)
    }
}

/// The entries with `value` set under `name`: replacing the first entry
/// of that name where there is one, appended where there is none.
pub open spec fn put(entries: Seq<(Seq<char>, ParameterValue)>, name: Seq<char>, value: ParameterValue) -> Seq<(Seq<char>, ParameterValue)> {
    let i = entry_index(entries, name);
    if i < entries.len() { entries.update(i, (name, value)) } else { entries.push((name, value)) }
}

/// The value the first entry named `name` holds.
pub open spec fn held(entries: Seq<(Seq<char>, ParameterValue)>, name: Seq<char>) -> Option<ParameterValue> {
    let i = entry_index(entries, name);
    if i < entries.len() { Some(entries[i].1) } else { None }
}

/// The uuid a body node returns under, by the uuid it carried in the body:
/// that of the last body node carrying it.
pub open spec fn returned_as(body: Seq<NodeInstance>, returned: Seq<u128>, id: u128) -> u128
    decreases body.len(),
{
    if body.len() == 0 {
        id
    } else if body.last().uuid == id {
        returned[body.len() - 1]
    } else {
        returned_as(body.drop_last(), returned, id)
    }
}

/// The index of the first returned uuid equal to `id`, or their number.
pub open spec fn first_returned(returned: Seq<u128>, id: u128) -> int
    decreases returned.len(),
{
    if returned.len() == 0 {
        0
    } else if returned[0] == id {
        0
    } else {
        1 + first_returned(returned.drop_first(), id)
    }
}

/// The external edges of the instance `uuid`, in order, re-attached
/// through the exposed ports' bindings: one into the instance lands on the
/// inner input its port binds, one out of it leaves from the inner output
/// its port binds; one at a port name no binding declares has nothing to
/// land on and goes.
pub open spec fn reattached(edges: Seq<Edge>, uuid: u128, group: GroupDefinition, returned: Seq<u128>) -> Seq<Edge>
    decreases edges.len(),
{
    if edges.len() == 0 {
        Seq::empty()
    } else {
        let rest = reattached(edges.drop_last(), uuid, group, returned);
        let edge = edges.last();
        if edge.to == uuid {
            let i = group_port_index(group.inputs@, edge.to_port@);
            if i < group.inputs@.len() {
                let port = group.inputs@[i];
                rest.push(Edge { from: edge.from, from_port: edge.from_port, to: returned_as(group.nodes@, returned, port.node), to_port: port.port })
            } else {
                rest
            }
        } else if edge.from == uuid {
            let i = group_port_index(group.outputs@, edge.from_port@);
            if i < group.outputs@.len() {
                let port = group.outputs@[i];
                rest.push(Edge { from: returned_as(group.nodes@, returned, port.node), from_port: port.port, to: edge.to, to_port: edge.to_port })
            } else {
                rest
            }
        } else {
            rest
        }
    }
}

/// Whether a value the instance held lands on input `port` of the returned
/// node `node`: an exposed input holding a value binds it.
pub open spec fn lands_on(ports: Seq<GroupPort>, group: GroupDefinition, held_values: Seq<(Seq<char>, ParameterValue)>, returned: Seq<u128>, node: u128, port: Seq<char>) -> bool {
    exists|i: int| 0 <= i < ports.len() && held(held_values, (#[trigger] ports[i]).name@) is Some
        && returned_as(group.nodes@, returned, ports[i].node) == node && ports[i].port@ == port
}

/// Whether a re-attached wire lands on input `port` of the returned node
/// `node`.
pub open spec fn wired_in(edges: Seq<Edge>, uuid: u128, group: GroupDefinition, returned: Seq<u128>, node: u128, port: Seq<char>) -> bool {
    exists|k: int| 0 <= k < edges.len() && (#[trigger] edges[k]).to == uuid
        && group_port_index(group.inputs@, edges[k].to_port@) < group.inputs@.len()
        && returned_as(group.nodes@, returned, group.inputs@[group_port_index(group.inputs@, edges[k].to_port@)].node) == node
        && group.inputs@[group_port_index(group.inputs@, edges[k].to_port@)].port@ == port
}

/// Whether the input `port` of the returned node `node` is fed from outside
/// once the instance unpacks: a re-attached wire or a landed value.
pub open spec fn spliced(edges: Seq<Edge>, uuid: u128, group: GroupDefinition, held_values: Seq<(Seq<char>, ParameterValue)>,
    returned: Seq<u128>, node: u128, port: Seq<char>) -> bool {
    ||| wired_in(edges, uuid, group, returned, node, port)
    ||| lands_on(group.inputs@, group, held_values, returned, node, port)
}

/// The group's own edges, in order, between the returned nodes, less those
/// into an input fed from outside: the landing wire or value replaces what
/// the input held.
pub open spec fn inner_edges(group_edges: Seq<Edge>, edges: Seq<Edge>, uuid: u128, group: GroupDefinition,
    held_values: Seq<(Seq<char>, ParameterValue)>, returned: Seq<u128>) -> Seq<Edge>
    decreases group_edges.len(),
{
    if group_edges.len() == 0 {
        Seq::empty()
    } else {
        let rest = inner_edges(group_edges.drop_last(), edges, uuid, group, held_values, returned);
        let edge = group_edges.last();
        let to = returned_as(group.nodes@, returned, edge.to);
        if spliced(edges, uuid, group, held_values, returned, to, edge.to_port@) {
            rest
        } else {
            rest.push(Edge { from: returned_as(group.nodes@, returned, edge.from), from_port: edge.from_port, to, to_port: edge.to_port })
        }
    }
}

/// The returned nodes' parameters once the values the instance held on its
/// exposed inputs, taken in port order, land on the bound inner inputs of
/// the first returned node each binding names.
pub open spec fn landed(base: Seq<Seq<(Seq<char>, ParameterValue)>>, ports: Seq<GroupPort>, group: GroupDefinition,
    held_values: Seq<(Seq<char>, ParameterValue)>, returned: Seq<u128>) -> Seq<Seq<(Seq<char>, ParameterValue)>>
    decreases ports.len(),
{
    if ports.len() == 0 {
        base
    } else {
        let before = landed(base, ports.drop_last(), group, held_values, returned);
        let port = ports.last();
        match held(held_values, port.name@) {
            Some(value) => {
                let j = first_returned(returned, returned_as(group.nodes@, returned, port.node));
                if 0 <= j < before.len() { before.update(j, put(before[j], port.port@, value)) } else { before }
            },
            None => before,
        }
    }
}

/// Whether a node is referenced by name as an instance: on the canvas, or
/// inside another group than the one named.
pub open spec fn still_shown(nodes: Seq<NodeInstance>, groups: Seq<GroupDefinition>, name: Seq<char>) -> bool {
    ||| exists|k: int| 0 <= k < nodes.len() && (#[trigger] nodes[k]).type_ref@ == name
    ||| exists|g: int, k: int| 0 <= g < groups.len() && (#[trigger] groups[g]).name@ != name && 0 <= k < groups[g].nodes@.len()
        && (#[trigger] groups[g].nodes@[k]).type_ref@ == name
}

/// The groups without those named `name`, in order.
pub open spec fn groups_without(groups: Seq<GroupDefinition>, name: Seq<char>) -> Seq<GroupDefinition>
    decreases groups.len(),
{
    if groups.len() == 0 {
        Seq::empty()
    } else {
        let rest = groups_without(groups.drop_last(), name);
        if groups.last().name@ == name { rest } else { rest.push(groups.last()) }
    }
}

/// The edges touching neither end of the instance `uuid`, in order.
pub open spec fn edges_clear_of(edges: Seq<Edge>, uuid: u128) -> Seq<Edge>
    decreases edges.len(),
{
    if edges.len() == 0 {
        Seq::empty()
    } else {
        let rest = edges_clear_of(edges.drop_last(), uuid);
        if edges.last().from != uuid && edges.last().to != uuid { rest.push(edges.last()) } else { rest }
    }
}

/// Why the node `uuid` cannot be unpacked, if it cannot.
pub open spec fn unpack_problem(graph: GraphDefinition, uuid: u128, registry: Registry) -> Option<Seq<char>> {
    if !carried(graph.nodes@, uuid) {
        Some("no such node in the definition"@)
    } else {
        let instance = instance_with(graph.nodes@, uuid);
        if !defines_group(graph, instance.type_ref@) {
            Some("node "@ + name_in(registry, instance) + " instantiates `"@ + instance.type_ref@
                + "`, which no group in the document defines; there is nothing to unpack"@)
        } else {
            None
        }
    }
}

/// Every group's exposed ports bind nodes of its body, and its edges join
/// nodes of its body.
pub open spec fn groups_bound(graph: GraphDefinition) -> bool {
    forall|g: int| 0 <= g < graph.groups@.len() ==> {
        &&& crate::loader::bindings_inside(#[trigger] graph.groups@[g])
        &&& forall|e: int| 0 <= e < graph.groups@[g].edges@.len() ==> carried(graph.groups@[g].nodes@, (#[trigger] graph.groups@[g].edges@[e]).from)
            && carried(graph.groups@[g].nodes@, graph.groups@[g].edges@[e].to)
    }
}

fn returned_uuid(body: &Vec<NodeInstance>, returned: &Vec<u128>, id: u128) -> (found: u128)
    requires
        returned@.len() == body@.len(),
    ensures
        found == returned_as(body@, returned@, id),
{
    let mut i: usize = body.len();
    assert(body@.subrange(0, body@.len() as int) =~= body@);
    while i > 0
        invariant
            i <= body@.len(),
            returned@.len() == body@.len(),
            returned_as(body@, returned@, id) == returned_as(body@.subrange(0, i as int), returned@, id),
        decreases i,
    {
        i = i - 1;
        assert(body@.subrange(0, i + 1).drop_last() =~= body@.subrange(0, i as int));
        if body[i].uuid == id {
            return returned[i];
        }
    }
    id
}

fn first_returned_index(returned: &Vec<u128>, id: u128) -> (j: usize)
    ensures
        j as int == first_returned(returned@, id),
        j <= returned@.len(),
{
    let mut j: usize = 0;
    assert(returned@.subrange(0, returned@.len() as int) =~= returned@);
    proof {
        lemma_first_returned_bound(returned@, id);
    }
    while j < returned.len()
        invariant
            j <= returned@.len(),
            first_returned(returned@, id) == j + first_returned(returned@.subrange(j as int, returned@.len() as int), id),
            first_returned(returned@.subrange(j as int, returned@.len() as int), id) <= returned@.len() - j,
        decreases returned@.len() - j,
    {
        let ghost rest = returned@.subrange(j as int, returned@.len() as int);
        assert(rest.drop_first() =~= returned@.subrange(j + 1, returned@.len() as int));
        proof {
            lemma_first_returned_bound(rest.drop_first(), id);
        }
        if returned[j] == id {
            return j;
        }
        j = j + 1;
    }
    j
}

proof fn lemma_first_returned_bound(returned: Seq<u128>, id: u128)
    ensures
        0 <= first_returned(returned, id) <= returned.len(),
    decreases returned.len(),
{
    if returned.len() > 0 {
        lemma_first_returned_bound(returned.drop_first(), id);
    }
}

proof fn lemma_entry_index(entries: Seq<(Seq<char>, ParameterValue)>, name: Seq<char>)
    ensures
        0 <= entry_index(entries, name) <= entries.len(),
        entry_index(entries, name) < entries.len() ==> entries[entry_index(entries, name)].0 == name,
        forall|j: int| 0 <= j < entry_index(entries, name) ==> entries[j].0 != name,
    decreases entries.len(),
{
    if entries.len() > 0 && entries[0].0 != name {
        lemma_entry_index(entries.drop_first(), name);
        assert forall|j: int| 0 <= j < entry_index(entries, name) implies entries[j].0 != name by {
            if j > 0 {
                assert(entries[j] == entries.drop_first()[j - 1]);
            }
        }
        if entry_index(entries, name) < entries.len() {
            assert(entries[entry_index(entries, name)] == entries.drop_first()[entry_index(entries, name) - 1]);
        }
    }
}

/// Set `value` under `name`, replacing the first entry of that name where
/// there is one, appending where there is none.
pub fn put_parameter(parameters: &mut Vec<(String, ParameterValue)>, name: String, value: ParameterValue)
    ensures
        parameter_views(final(parameters)@) == put(parameter_views(old(parameters)@), name@, value),
{
    let ghost entries = parameter_views(parameters@);
    proof {
        lemma_entry_index(entries, name@);
    }
    let mut i: usize = 0;
    while i < parameters.len()
        invariant
            i <= parameters@.len(),
            entries == parameter_views(parameters@),
            parameters@ == old(parameters)@,
            0 <= entry_index(entries, name@) <= entries.len(),
            entry_index(entries, name@) < entries.len() ==> entries[entry_index(entries, name@)].0 == name@,
            forall|j: int| 0 <= j < entry_index(entries, name@) ==> entries[j].0 != name@,
            forall|j: int| 0 <= j < i ==> parameters@[j].0@ != name@,
        decreases parameters@.len() - i,
    {
        if same_text(parameters[i].0.as_str(), name.as_str()) {
            assert(entries[i as int].0 == name@);
            assert(entry_index(entries, name@) == i as int) by {
                if entry_index(entries, name@) < i {
                    assert(parameters@[entry_index(entries, name@)].0@ != name@);
                }
            }
            let ghost named = name@;
            parameters.set(i, (name, value));
            assert(parameter_views(parameters@) =~= entries.update(i as int, (named, value)));
            return;
        }
        i = i + 1;
    }
    assert(entry_index(entries, name@) == entries.len()) by {
        if entry_index(entries, name@) < entries.len() {
            assert(parameters@[entry_index(entries, name@)].0@ != name@);
        }
    }
    let ghost named = name@;
    parameters.push((name, value));
    assert(parameter_views(parameters@) =~= entries.push((named, value)));
}

/// The value the parameters hold under `name`, the first such.
fn held_value<'p>(parameters: &'p Vec<(String, ParameterValue)>, name: &str) -> (found: Option<&'p ParameterValue>)
    ensures
        match found {
            Some(v) => held(parameter_views(parameters@), name@) == Some(*v),
            None => held(parameter_views(parameters@), name@) is None,
        },
{
    let ghost entries = parameter_views(parameters@);
    proof {
        lemma_entry_index(entries, name@);
    }
    let mut i: usize = 0;
    while i < parameters.len()
        invariant
            i <= parameters@.len(),
            entries == parameter_views(parameters@),
            0 <= entry_index(entries, name@) <= entries.len(),
            entry_index(entries, name@) < entries.len() ==> entries[entry_index(entries, name@)].0 == name@,
            forall|j: int| 0 <= j < entry_index(entries, name@) ==> entries[j].0 != name@,
            forall|j: int| 0 <= j < i ==> parameters@[j].0@ != name@,
        decreases parameters@.len() - i,
    {
        if same_text(parameters[i].0.as_str(), name) {
            assert(entries[i as int].0 == name@);
            assert(entry_index(entries, name@) == i as int) by {
                if entry_index(entries, name@) < i {
                    assert(parameters@[entry_index(entries, name@)].0@ != name@);
                }
            }
            return Some(&parameters[i].1);
        }
        i = i + 1;
    }
    assert(entry_index(entries, name@) == entries.len()) by {
        if entry_index(entries, name@) < entries.len() {
            assert(parameters@[entry_index(entries, name@)].0@ != name@);
        }
    }
    None
}

/// The index of the node the uuid names: the first carrying it.
pub open spec fn instance_index(nodes: Seq<NodeInstance>, uuid: u128) -> int {
    choose|k: int| crate::instances::first_with(nodes, uuid, k)
}

/// The parameters of each body node, as its names' texts and values.
pub open spec fn body_parameters(body: Seq<NodeInstance>) -> Seq<Seq<(Seq<char>, ParameterValue)>> {
    Seq::new(body.len(), |k: int| parameter_views(body[k].parameters@))
}

/// Whether `node` is the body node `body` returning under `id` with the
/// parameters `parameters`.
pub open spec fn returned_node(node: NodeInstance, body: NodeInstance, id: u128, parameters: Seq<(Seq<char>, ParameterValue)>) -> bool {
    &&& node.uuid == id
    &&& node.type_ref@ == body.type_ref@
    &&& node.label == body.label
    &&& parameter_views(node.parameters@) == parameters
    &&& crate::graph::same_entries(body.metadata@, node.metadata@)
}

/// `after` is `before` with the group instance `uuid` unpacked, its body
/// nodes returning under `returned`: each under its body uuid unless a
/// node that survives the unpack already holds it.
pub open spec fn unpacked(before: GraphDefinition, after: GraphDefinition, uuid: u128, returned: Seq<u128>) -> bool {
    let at = instance_index(before.nodes@, uuid);
    let instance = before.nodes@[at];
    let group = before.groups@[group_index(before.groups@, instance.type_ref@)];
    let body = group.nodes@;
    let remaining = before.nodes@.remove(at);
    let values = parameter_views(instance.parameters@);
    let parameters = landed(body_parameters(body), group.inputs@, group, values, returned);
    &&& returned.len() == body.len()
    &&& forall|k: int| 0 <= k < body.len() && !(carried(before.nodes@, (#[trigger] body[k]).uuid) && body[k].uuid != uuid)
        ==> returned[k] == body[k].uuid
    &&& after.schema_version == before.schema_version
    &&& after.name == before.name
    &&& after.nodes@.len() == remaining.len() + body.len()
    &&& after.nodes@.subrange(0, remaining.len() as int) == remaining
    &&& forall|k: int| 0 <= k < body.len() ==> returned_node(after.nodes@[remaining.len() + k], #[trigger] body[k], returned[k], parameters[k])
    &&& after.edges@ == edges_clear_of(before.edges@, uuid) + reattached(before.edges@, uuid, group, returned)
        + inner_edges(group.edges@, before.edges@, uuid, group, values, returned)
    &&& after.groups@ == if still_shown(remaining, before.groups@, group.name@) {
        before.groups@
    } else {
        groups_without(before.groups@, group.name@)
    }
}

proof fn lemma_landed_len(base: Seq<Seq<(Seq<char>, ParameterValue)>>, ports: Seq<GroupPort>, group: GroupDefinition,
    held_values: Seq<(Seq<char>, ParameterValue)>, returned: Seq<u128>)
    ensures
        landed(base, ports, group, held_values, returned).len() == base.len(),
    decreases ports.len(),
{
    if ports.len() > 0 {
        lemma_landed_len(base, ports.drop_last(), group, held_values, returned);
    }
}

/// Whether the fed pairs hold input `port` of `node`.
pub open spec fn fed_pair(fed: Seq<(u128, String)>, node: u128, port: Seq<char>) -> bool {
    exists|i: int| 0 <= i < fed.len() && (#[trigger] fed[i]).0 == node && fed[i].1@ == port
}

fn has_fed_pair(fed: &Vec<(u128, String)>, node: u128, port: &str) -> (found: bool)
    ensures
        found == fed_pair(fed@, node, port@),
{
    let mut i: usize = 0;
    while i < fed.len()
        invariant
            i <= fed.len(),
            forall|j: int| 0 <= j < i ==> !((#[trigger] fed@[j]).0 == node && fed@[j].1@ == port@),
        decreases fed.len() - i,
    {
        if fed[i].0 == node && same_text(fed[i].1.as_str(), port) {
            return true;
        }
        i = i + 1;
    }
    false
}

/// The body nodes, as they return to the canvas: each under its body uuid
/// unless a surviving node holds it, then under a fresh one.
fn returning_nodes(nodes: &Vec<NodeInstance>, uuid: u128, body: &Vec<NodeInstance>) -> (returning: (Vec<NodeInstance>, Vec<u128>))
    ensures
        returning.0@.len() == body@.len(),
        returning.1@.len() == body@.len(),
        forall|k: int| 0 <= k < body@.len() && !(carried(nodes@, (#[trigger] body@[k]).uuid) && body@[k].uuid != uuid)
            ==> returning.1@[k] == body@[k].uuid,
        forall|k: int| 0 <= k < body@.len() ==> returned_node(#[trigger] returning.0@[k], body@[k], returning.1@[k],
            parameter_views(body@[k].parameters@)),
{
    let mut returning: Vec<NodeInstance> = Vec::new();
    let mut returned: Vec<u128> = Vec::new();
    let mut k: usize = 0;
    while k < body.len()
        invariant
            k <= body@.len(),
            returning@.len() == k,
            returned@.len() == k,
            forall|j: int| 0 <= j < k && !(carried(nodes@, (#[trigger] body@[j]).uuid) && body@[j].uuid != uuid)
                ==> returned@[j] == body@[j].uuid,
            forall|j: int| 0 <= j < k ==> returned_node(#[trigger] returning@[j], body@[j], returned@[j],
                parameter_views(body@[j].parameters@)),
        decreases body@.len() - k,
    {
        let collides = crate::instances::first_index(nodes, body[k].uuid).is_some() && body[k].uuid != uuid;
        let fresh = if collides { crate::ids::fresh_uuid() } else { body[k].uuid };
        let mut node = body[k].copy();
        node.uuid = fresh;
        returning.push(node);
        returned.push(fresh);
        k = k + 1;
    }
    (returning, returned)
}

/// The instance's external edges re-attached through the bindings, and the
/// inputs they land on.
fn reattach_edges(edges: &Vec<Edge>, uuid: u128, group: &GroupDefinition, returned: &Vec<u128>) -> (attached: (Vec<Edge>, Vec<(u128, String)>))
    requires
        returned@.len() == group.nodes@.len(),
    ensures
        attached.0@ == reattached(edges@, uuid, *group, returned@),
        forall|node: u128, port: Seq<char>| fed_pair(attached.1@, node, port) <==> wired_in(edges@, uuid, *group, returned@, node, port),
{
    let mut attached: Vec<Edge> = Vec::new();
    let mut fed: Vec<(u128, String)> = Vec::new();
    let mut i: usize = 0;
    proof {
        lemma_group_port_index(group.inputs@, Seq::empty());
    }
    while i < edges.len()
        invariant
            i <= edges@.len(),
            returned@.len() == group.nodes@.len(),
            attached@ == reattached(edges@.subrange(0, i as int), uuid, *group, returned@),
            forall|node: u128, port: Seq<char>| fed_pair(fed@, node, port) <==> wired_in(edges@.subrange(0, i as int), uuid, *group, returned@, node, port),
        decreases edges@.len() - i,
    {
        let ghost prefix = edges@.subrange(0, i as int);
        let ghost next = edges@.subrange(0, i + 1);
        assert(next.drop_last() =~= prefix);
        assert(next.last() == edges@[i as int]);
        let edge = &edges[i];
        let ghost fed_before = fed@;
        if edge.to == uuid {
            match find_group_port(&group.inputs, edge.to_port.as_str()) {
                Some(p) => {
                    let port = &group.inputs[p];
                    let to = returned_uuid(&group.nodes, returned, port.node);
                    fed.push((to, port.port.clone()));
                    assert(fed@ == fed_before.push((to, port.port)));
                    attached.push(Edge { from: edge.from, from_port: edge.from_port.clone(), to, to_port: port.port.clone() });
                    proof {
                        assert forall|node: u128, name: Seq<char>| fed_pair(fed@, node, name) <==> wired_in(next, uuid, *group, returned@, node, name) by {
                            if fed_pair(fed@, node, name) {
                                let f = choose|f: int| 0 <= f < fed@.len() && (#[trigger] fed@[f]).0 == node && fed@[f].1@ == name;
                                if f < fed_before.len() {
                                    assert(fed@[f] == fed_before[f]);
                                    assert(fed_pair(fed_before, node, name));
                                    let k = choose|k: int| 0 <= k < prefix.len() && (#[trigger] prefix[k]).to == uuid
                                        && group_port_index(group.inputs@, prefix[k].to_port@) < group.inputs@.len()
                                        && returned_as(group.nodes@, returned@, group.inputs@[group_port_index(group.inputs@, prefix[k].to_port@)].node) == node
                                        && group.inputs@[group_port_index(group.inputs@, prefix[k].to_port@)].port@ == name;
                                    assert(next[k] == prefix[k]);
                                } else {
                                    assert(next[i as int] == *edge);
                                }
                            }
                            if wired_in(next, uuid, *group, returned@, node, name) {
                                let k = choose|k: int| 0 <= k < next.len() && (#[trigger] next[k]).to == uuid
                                    && group_port_index(group.inputs@, next[k].to_port@) < group.inputs@.len()
                                    && returned_as(group.nodes@, returned@, group.inputs@[group_port_index(group.inputs@, next[k].to_port@)].node) == node
                                    && group.inputs@[group_port_index(group.inputs@, next[k].to_port@)].port@ == name;
                                if k < prefix.len() {
                                    assert(prefix[k] == next[k]);
                                    assert(wired_in(prefix, uuid, *group, returned@, node, name));
                                    assert(fed_pair(fed_before, node, name));
                                    let f = choose|f: int| 0 <= f < fed_before.len() && (#[trigger] fed_before[f]).0 == node && fed_before[f].1@ == name;
                                    assert(fed@[f] == fed_before[f]);
                                } else {
                                    assert(fed@[fed_before.len() as int] == (to, port.port));
                                }
                            }
                        }
                    }
                },
                None => {
                    proof {
                        assert forall|node: u128, name: Seq<char>| fed_pair(fed@, node, name) <==> wired_in(next, uuid, *group, returned@, node, name) by {
                            if wired_in(next, uuid, *group, returned@, node, name) {
                                let k = choose|k: int| 0 <= k < next.len() && (#[trigger] next[k]).to == uuid
                                    && group_port_index(group.inputs@, next[k].to_port@) < group.inputs@.len()
                                    && returned_as(group.nodes@, returned@, group.inputs@[group_port_index(group.inputs@, next[k].to_port@)].node) == node
                                    && group.inputs@[group_port_index(group.inputs@, next[k].to_port@)].port@ == name;
                                assert(prefix[k] == next[k]);
                            }
                            if wired_in(prefix, uuid, *group, returned@, node, name) {
                                let k = choose|k: int| 0 <= k < prefix.len() && (#[trigger] prefix[k]).to == uuid
                                    && group_port_index(group.inputs@, prefix[k].to_port@) < group.inputs@.len()
                                    && returned_as(group.nodes@, returned@, group.inputs@[group_port_index(group.inputs@, prefix[k].to_port@)].node) == node
                                    && group.inputs@[group_port_index(group.inputs@, prefix[k].to_port@)].port@ == name;
                                assert(next[k] == prefix[k]);
                            }
                        }
                    }
                },
            }
        } else {
            if edge.from == uuid {
                match find_group_port(&group.outputs, edge.from_port.as_str()) {
                    Some(p) => {
                        let port = &group.outputs[p];
                        let from = returned_uuid(&group.nodes, returned, port.node);
                        attached.push(Edge { from, from_port: port.port.clone(), to: edge.to, to_port: edge.to_port.clone() });
                    },
                    None => {},
                }
            }
            proof {
                assert forall|node: u128, name: Seq<char>| fed_pair(fed@, node, name) <==> wired_in(next, uuid, *group, returned@, node, name) by {
                    if wired_in(next, uuid, *group, returned@, node, name) {
                        let k = choose|k: int| 0 <= k < next.len() && (#[trigger] next[k]).to == uuid
                            && group_port_index(group.inputs@, next[k].to_port@) < group.inputs@.len()
                            && returned_as(group.nodes@, returned@, group.inputs@[group_port_index(group.inputs@, next[k].to_port@)].node) == node
                            && group.inputs@[group_port_index(group.inputs@, next[k].to_port@)].port@ == name;
                        assert(prefix[k] == next[k]);
                    }
                    if wired_in(prefix, uuid, *group, returned@, node, name) {
                        let k = choose|k: int| 0 <= k < prefix.len() && (#[trigger] prefix[k]).to == uuid
                            && group_port_index(group.inputs@, prefix[k].to_port@) < group.inputs@.len()
                            && returned_as(group.nodes@, returned@, group.inputs@[group_port_index(group.inputs@, prefix[k].to_port@)].node) == node
                            && group.inputs@[group_port_index(group.inputs@, prefix[k].to_port@)].port@ == name;
                        assert(next[k] == prefix[k]);
                    }
                }
            }
        }
        i = i + 1;
    }
    assert(edges@.subrange(0, edges@.len() as int) =~= edges@);
    (attached, fed)
}

/// Whether two returned nodes agree on all but their parameters.
pub open spec fn same_but_parameters(a: NodeInstance, b: NodeInstance) -> bool {
    &&& a.uuid == b.uuid
    &&& a.type_ref == b.type_ref
    &&& a.label == b.label
    &&& a.metadata == b.metadata
}

/// Land the values the instance held on its exposed inputs on the bound
/// inner inputs of the returning nodes, in port order, recording each
/// landing input as fed from outside.
fn land_values(returning: &mut Vec<NodeInstance>, fed: &mut Vec<(u128, String)>, group: &GroupDefinition,
    values: &Vec<(String, ParameterValue)>, returned: &Vec<u128>)
    requires
        returned@.len() == group.nodes@.len(),
        old(returning)@.len() == group.nodes@.len(),
    ensures
        final(returning)@.len() == old(returning)@.len(),
        forall|k: int| 0 <= k < old(returning)@.len() ==> same_but_parameters(#[trigger] final(returning)@[k], old(returning)@[k]),
        forall|k: int| 0 <= k < old(returning)@.len() ==> parameter_views((#[trigger] final(returning)@[k]).parameters@)
            == landed(Seq::new(old(returning)@.len(), |j: int| parameter_views(old(returning)@[j].parameters@)),
                group.inputs@, *group, parameter_views(values@), returned@)[k],
        forall|node: u128, port: Seq<char>| fed_pair(final(fed)@, node, port) <==> (fed_pair(old(fed)@, node, port)
            || lands_on(group.inputs@, *group, parameter_views(values@), returned@, node, port)),
{
    let ghost start = returning@;
    let ghost base = Seq::new(start.len(), |j: int| parameter_views(start[j].parameters@));
    let ghost fed_start = fed@;
    let ghost held_values = parameter_views(values@);
    let n = returning.len();
    let mut q: usize = 0;
    assert(group.inputs@.subrange(0, 0) =~= Seq::<GroupPort>::empty());
    while q < group.inputs.len()
        invariant
            q <= group.inputs@.len(),
            n == start.len(),
            returned@.len() == group.nodes@.len(),
            start.len() == group.nodes@.len(),
            base == Seq::new(start.len(), |j: int| parameter_views(start[j].parameters@)),
            held_values == parameter_views(values@),
            returning@.len() == n,
            forall|k: int| 0 <= k < n ==> same_but_parameters(#[trigger] returning@[k], start[k]),
            forall|k: int| 0 <= k < n ==> parameter_views((#[trigger] returning@[k]).parameters@)
                == landed(base, group.inputs@.subrange(0, q as int), *group, held_values, returned@)[k],
            forall|node: u128, port: Seq<char>|
                #![trigger fed_pair(fed@, node, port)]
                #![trigger fed_pair(fed_start, node, port)]
                #![trigger lands_on(group.inputs@.subrange(0, q as int), *group, held_values, returned@, node, port)]
                fed_pair(fed@, node, port) <==> (fed_pair(fed_start, node, port)
                || lands_on(group.inputs@.subrange(0, q as int), *group, held_values, returned@, node, port)),
        decreases group.inputs@.len() - q,
    {
        let ghost ports = group.inputs@.subrange(0, q as int);
        let ghost next = group.inputs@.subrange(0, q + 1);
        assert(next.drop_last() =~= ports);
        assert(next.last() == group.inputs@[q as int]);
        proof {
            lemma_landed_len(base, ports, *group, held_values, returned@);
        }
        let ghost before = landed(base, ports, *group, held_values, returned@);
        let ghost fed_before = fed@;
        let ghost returning_before = returning@;
        let port = &group.inputs[q];
        match held_value(values, port.name.as_str()) {
            Some(value) => {
                let target = returned_uuid(&group.nodes, returned, port.node);
                fed.push((target, port.port.clone()));
                assert(fed@ == fed_before.push((target, port.port)));
                let j = first_returned_index(returned, target);
                if j < returning.len() {
                    let mut node = returning.remove(j);
                    put_parameter(&mut node.parameters, port.port.clone(), value.copy());
                    returning.insert(j, node);
                    proof {
                        assert(returning@ =~= returning_before.update(j as int, node));
                        assert forall|k: int| 0 <= k < n implies parameter_views((#[trigger] returning@[k]).parameters@)
                            == landed(base, next, *group, held_values, returned@)[k] by {
                            if k == j as int {
                                assert(returning_before[k] == returning_before[j as int]);
                            }
                        }
                    }
                }
                proof {
                    assert forall|node: u128, name: Seq<char>| fed_pair(fed@, node, name) <==> (fed_pair(fed_start, node, name)
                        || lands_on(next, *group, held_values, returned@, node, name)) by {
                        if fed_pair(fed@, node, name) {
                            let f = choose|f: int| 0 <= f < fed@.len() && (#[trigger] fed@[f]).0 == node && fed@[f].1@ == name;
                            if f < fed_before.len() {
                                assert(fed@[f] == fed_before[f]);
                                assert(fed_pair(fed_before, node, name));
                                if lands_on(ports, *group, held_values, returned@, node, name) {
                                    let i = choose|i: int| 0 <= i < ports.len() && held(held_values, (#[trigger] ports[i]).name@) is Some
                                        && returned_as(group.nodes@, returned@, ports[i].node) == node && ports[i].port@ == name;
                                    assert(next[i] == ports[i]);
                                }
                            } else {
                                assert(held(held_values, next[q as int].name@) is Some);
                            }
                        }
                        if lands_on(next, *group, held_values, returned@, node, name) {
                            let i = choose|i: int| 0 <= i < next.len() && held(held_values, (#[trigger] next[i]).name@) is Some
                                && returned_as(group.nodes@, returned@, next[i].node) == node && next[i].port@ == name;
                            if i < ports.len() {
                                assert(ports[i] == next[i]);
                                assert(lands_on(ports, *group, held_values, returned@, node, name));
                                assert(fed_pair(fed_before, node, name));
                                let f = choose|f: int| 0 <= f < fed_before.len() && (#[trigger] fed_before[f]).0 == node && fed_before[f].1@ == name;
                                assert(fed@[f] == fed_before[f]);
                            } else {
                                assert(fed@[fed_before.len() as int] == (target, port.port));
                            }
                        }
                        if fed_pair(fed_start, node, name) {
                            assert(fed_pair(fed_before, node, name));
                            let f = choose|f: int| 0 <= f < fed_before.len() && (#[trigger] fed_before[f]).0 == node && fed_before[f].1@ == name;
                            assert(fed@[f] == fed_before[f]);
                        }
                    }
                }
            },
            None => {
                proof {
                    assert forall|node: u128, name: Seq<char>| fed_pair(fed@, node, name) <==> (fed_pair(fed_start, node, name)
                        || lands_on(next, *group, held_values, returned@, node, name)) by {
                        if lands_on(next, *group, held_values, returned@, node, name) {
                            let i = choose|i: int| 0 <= i < next.len() && held(held_values, (#[trigger] next[i]).name@) is Some
                                && returned_as(group.nodes@, returned@, next[i].node) == node && next[i].port@ == name;
                            assert(ports[i] == next[i]);
                            assert(lands_on(ports, *group, held_values, returned@, node, name));
                        }
                        if lands_on(ports, *group, held_values, returned@, node, name) {
                            let i = choose|i: int| 0 <= i < ports.len() && held(held_values, (#[trigger] ports[i]).name@) is Some
                                && returned_as(group.nodes@, returned@, ports[i].node) == node && ports[i].port@ == name;
                            assert(next[i] == ports[i]);
                        }
                    }
                }
            },
        }
        q = q + 1;
    }
    assert(group.inputs@.subrange(0, group.inputs@.len() as int) =~= group.inputs@);
}

/// The group's own edges between the returned nodes, less those into an
/// input fed from outside.
fn inner_edge_list(group: &GroupDefinition, fed: &Vec<(u128, String)>, returned: &Vec<u128>,
    edges: &Vec<Edge>, uuid: u128, values: &Vec<(String, ParameterValue)>) -> (inner: Vec<Edge>)
    requires
        returned@.len() == group.nodes@.len(),
        forall|node: u128, port: Seq<char>| #![trigger fed_pair(fed@, node, port)]
            fed_pair(fed@, node, port) <==> spliced(edges@, uuid, *group, parameter_views(values@), returned@, node, port),
    ensures
        inner@ == inner_edges(group.edges@, edges@, uuid, *group, parameter_views(values@), returned@),
{
    let ghost held_values = parameter_views(values@);
    let mut inner: Vec<Edge> = Vec::new();
    let mut i: usize = 0;
    while i < group.edges.len()
        invariant
            i <= group.edges@.len(),
            returned@.len() == group.nodes@.len(),
            held_values == parameter_views(values@),
            forall|node: u128, port: Seq<char>| #![trigger fed_pair(fed@, node, port)]
                fed_pair(fed@, node, port) <==> spliced(edges@, uuid, *group, held_values, returned@, node, port),
            inner@ == inner_edges(group.edges@.subrange(0, i as int), edges@, uuid, *group, held_values, returned@),
        decreases group.edges@.len() - i,
    {
        assert(group.edges@.subrange(0, i + 1).drop_last() =~= group.edges@.subrange(0, i as int));
        assert(group.edges@.subrange(0, i + 1).last() == group.edges@[i as int]);
        let edge = &group.edges[i];
        let to = returned_uuid(&group.nodes, returned, edge.to);
        if !has_fed_pair(fed, to, edge.to_port.as_str()) {
            let from = returned_uuid(&group.nodes, returned, edge.from);
            inner.push(Edge { from, from_port: edge.from_port.clone(), to, to_port: edge.to_port.clone() });
        }
        i = i + 1;
    }
    assert(group.edges@.subrange(0, group.edges@.len() as int) =~= group.edges@);
    inner
}

/// Whether some node is an instance of `name`: on the canvas, or inside
/// another group than the one so named.
fn shown_elsewhere(nodes: &Vec<NodeInstance>, groups: &Vec<GroupDefinition>, name: &str) -> (shown: bool)
    ensures
        shown == still_shown(nodes@, groups@, name@),
{
    let mut k: usize = 0;
    while k < nodes.len()
        invariant
            k <= nodes@.len(),
            forall|j: int| 0 <= j < k ==> (#[trigger] nodes@[j]).type_ref@ != name@,
        decreases nodes@.len() - k,
    {
        if same_text(nodes[k].type_ref.as_str(), name) {
            assert(nodes@[k as int].type_ref@ == name@);
            return true;
        }
        k = k + 1;
    }
    let mut g: usize = 0;
    while g < groups.len()
        invariant
            g <= groups@.len(),
            forall|j: int| 0 <= j < nodes@.len() ==> (#[trigger] nodes@[j]).type_ref@ != name@,
            forall|h: int, m: int| 0 <= h < g && (#[trigger] groups@[h]).name@ != name@ && 0 <= m < groups@[h].nodes@.len()
                ==> (#[trigger] groups@[h].nodes@[m]).type_ref@ != name@,
        decreases groups@.len() - g,
    {
        if !same_text(groups[g].name.as_str(), name) {
            let mut m: usize = 0;
            while m < groups[g].nodes.len()
                invariant
                    g < groups@.len(),
                    groups@[g as int].name@ != name@,
                    m <= groups@[g as int].nodes@.len(),
                    forall|j: int| 0 <= j < m ==> (#[trigger] groups@[g as int].nodes@[j]).type_ref@ != name@,
                    forall|j: int| 0 <= j < nodes@.len() ==> (#[trigger] nodes@[j]).type_ref@ != name@,
                    forall|h: int, n: int| 0 <= h < g && (#[trigger] groups@[h]).name@ != name@ && 0 <= n < groups@[h].nodes@.len()
                        ==> (#[trigger] groups@[h].nodes@[n]).type_ref@ != name@,
                decreases groups@[g as int].nodes@.len() - m,
            {
                if same_text(groups[g].nodes[m].type_ref.as_str(), name) {
                    assert(groups@[g as int].name@ != name@ && groups@[g as int].nodes@[m as int].type_ref@ == name@);
                    return true;
                }
                m = m + 1;
            }
        }
        g = g + 1;
    }
    assert(!still_shown(nodes@, groups@, name@)) by {
        if exists|h: int, m: int| 0 <= h < groups@.len() && (#[trigger] groups@[h]).name@ != name@ && 0 <= m < groups@[h].nodes@.len()
            && (#[trigger] groups@[h].nodes@[m]).type_ref@ == name@ {
            let (h, m) = choose|h: int, m: int| 0 <= h < groups@.len() && (#[trigger] groups@[h]).name@ != name@ && 0 <= m < groups@[h].nodes@.len()
                && (#[trigger] groups@[h].nodes@[m]).type_ref@ == name@;
            assert(groups@[h].nodes@[m].type_ref@ != name@);
        }
    }
    false
}

/// The groups without those named `name`.
fn drop_groups(groups: Vec<GroupDefinition>, name: &str) -> (kept: Vec<GroupDefinition>)
    ensures
        kept@ == groups_without(groups@, name@),
{
    let ghost all = groups@;
    let mut rest = groups;
    let mut kept: Vec<GroupDefinition> = Vec::new();
    let ghost mut done: int = 0;
    assert(all.subrange(0, 0) =~= Seq::<GroupDefinition>::empty());
    while rest.len() > 0
        invariant
            0 <= done <= all.len(),
            rest@ == all.subrange(done, all.len() as int),
            kept@ == groups_without(all.subrange(0, done), name@),
        decreases rest.len(),
    {
        let group = rest.remove(0);
        proof {
            assert(all.subrange(0, done + 1).drop_last() =~= all.subrange(0, done));
            assert(all.subrange(0, done + 1).last() == group);
        }
        if !same_text(group.name.as_str(), name) {
            kept.push(group);
        }
        proof {
            done = done + 1;
            assert(rest@ =~= all.subrange(done, all.len() as int));
        }
    }
    assert(all.subrange(0, all.len() as int) =~= all);
    kept
}

/// The edges touching neither end of `uuid`.
pub(crate) fn clear_edges(edges: Vec<Edge>, uuid: u128) -> (kept: Vec<Edge>)
    ensures
        kept@ == edges_clear_of(edges@, uuid),
{
    let ghost all = edges@;
    let mut rest = edges;
    let mut kept: Vec<Edge> = Vec::new();
    let ghost mut done: int = 0;
    assert(all.subrange(0, 0) =~= Seq::<Edge>::empty());
    while rest.len() > 0
        invariant
            0 <= done <= all.len(),
            rest@ == all.subrange(done, all.len() as int),
            kept@ == edges_clear_of(all.subrange(0, done), uuid),
        decreases rest.len(),
    {
        let edge = rest.remove(0);
        proof {
            assert(all.subrange(0, done + 1).drop_last() =~= all.subrange(0, done));
            assert(all.subrange(0, done + 1).last() == edge);
        }
        if edge.from != uuid && edge.to != uuid {
            kept.push(edge);
        }
        proof {
            done = done + 1;
            assert(rest@ =~= all.subrange(done, all.len() as int));
        }
    }
    assert(all.subrange(0, all.len() as int) =~= all);
    kept
}

/// Append `more` to `edges`.
pub(crate) fn append_edges(edges: &mut Vec<Edge>, more: Vec<Edge>)
    ensures
        final(edges)@ == old(edges)@ + more@,
{
    let ghost start = edges@;
    let ghost all = more@;
    let mut rest = more;
    let ghost mut done: int = 0;
    while rest.len() > 0
        invariant
            0 <= done <= all.len(),
            rest@ == all.subrange(done, all.len() as int),
            edges@ == start + all.subrange(0, done),
        decreases rest.len(),
    {
        let edge = rest.remove(0);
        edges.push(edge);
        proof {
            assert(all.subrange(0, done + 1) =~= all.subrange(0, done).push(edge));
            done = done + 1;
            assert(rest@ =~= all.subrange(done, all.len() as int));
        }
    }
    assert(all.subrange(0, all.len() as int) =~= all);
}

/// Unpack the group instance `uuid` back into its nodes, answering the
/// uuids the nodes return under. Each body node returns under its body
/// uuid unless a node that survives the unpack already holds it, then
/// under a fresh one; the external wires re-attach through the exposed
/// ports' bindings; a value the instance held on an exposed input lands on
/// the bound inner input; and the group's definition leaves with the
/// instance when no other instance shows it.
pub fn unpack(graph: &mut GraphDefinition, uuid: u128, registry: &Registry) -> (result: Result<Vec<u128>, String>)
    requires
        registry.wf(),
        groups_bound(*old(graph)),
    ensures
        match result {
            Err(message) => {
                &&& unpack_problem(*old(graph), uuid, *registry) == Some(message@)
                &&& *final(graph) == *old(graph)
            },
            Ok(returned) => {
                &&& unpack_problem(*old(graph), uuid, *registry) is None
                &&& unpacked(*old(graph), *final(graph), uuid, returned@)
            },
        },
{
    let at = match crate::instances::first_index(&graph.nodes, uuid) {
        Some(at) => at,
        None => {
            return Err("no such node in the definition".to_owned());
        },
    };
    proof {
        crate::instances::lemma_first_with(graph.nodes@, uuid, at as int);
        assert(instance_index(graph.nodes@, uuid) == at as int) by {
            let c = instance_index(graph.nodes@, uuid);
            assert(crate::instances::first_with(graph.nodes@, uuid, c));
            if c < at as int {
                assert(graph.nodes@[c].uuid != uuid);
            } else if c > at as int {
                assert(graph.nodes@[at as int].uuid != uuid);
            }
        }
    }
    let g = match find_group(&graph.groups, graph.nodes[at].type_ref.as_str()) {
        Some(g) => g,
        None => {
            let instance = &graph.nodes[at];
            let mut message = "node ".to_owned();
            let shown = name_of(registry, instance);
            message.append(shown.as_str());
            message.append(" instantiates `");
            message.append(instance.type_ref.as_str());
            message.append("`, which no group in the document defines; there is nothing to unpack");
            return Err(message);
        },
    };
    let ghost before = *graph;
    let ghost group_spec = graph.groups@[g as int];
    let (mut returning, returned) = returning_nodes(&graph.nodes, uuid, &graph.groups[g].nodes);
    let ghost fresh_nodes = returning@;
    let (attached, mut fed) = reattach_edges(&graph.edges, uuid, &graph.groups[g], &returned);
    land_values(&mut returning, &mut fed, &graph.groups[g], &graph.nodes[at].parameters, &returned);
    proof {
        let held_values = parameter_views(before.nodes@[at as int].parameters@);
        assert forall|node: u128, port: Seq<char>| #![trigger fed_pair(fed@, node, port)]
            fed_pair(fed@, node, port) <==> spliced(before.edges@, uuid, group_spec, held_values, returned@, node, port) by {}
        assert(Seq::new(fresh_nodes.len(), |j: int| parameter_views(fresh_nodes[j].parameters@))
            =~= body_parameters(group_spec.nodes@));
    }
    let inner = inner_edge_list(&graph.groups[g], &fed, &returned, &graph.edges, uuid, &graph.nodes[at].parameters);
    let name = graph.groups[g].name.clone();
    graph.nodes.remove(at);
    let shown = shown_elsewhere(&graph.nodes, &graph.groups, name.as_str());
    if !shown {
        let mut groups: Vec<GroupDefinition> = Vec::new();
        std::mem::swap(&mut groups, &mut graph.groups);
        graph.groups = drop_groups(groups, name.as_str());
    }
    let mut edges: Vec<Edge> = Vec::new();
    std::mem::swap(&mut edges, &mut graph.edges);
    let mut kept = clear_edges(edges, uuid);
    append_edges(&mut kept, attached);
    append_edges(&mut kept, inner);
    graph.edges = kept;
    let ghost remaining = graph.nodes@;
    let mut rest = returning;
    let ghost landed_nodes = rest@;
    let ghost mut done: int = 0;
    while rest.len() > 0
        invariant
            0 <= done <= landed_nodes.len(),
            rest@ == landed_nodes.subrange(done, landed_nodes.len() as int),
            graph.nodes@ == remaining + landed_nodes.subrange(0, done),
            graph.edges@ == edges_clear_of(before.edges@, uuid) + reattached(before.edges@, uuid, group_spec, returned@)
                + inner_edges(group_spec.edges@, before.edges@, uuid, group_spec, parameter_views(before.nodes@[at as int].parameters@), returned@),
            graph.schema_version == before.schema_version,
            graph.name == before.name,
            graph.groups@ == if still_shown(remaining, before.groups@, group_spec.name@) {
                before.groups@
            } else {
                groups_without(before.groups@, group_spec.name@)
            },
        decreases rest.len(),
    {
        let node = rest.remove(0);
        graph.nodes.push(node);
        proof {
            assert(landed_nodes.subrange(0, done + 1) =~= landed_nodes.subrange(0, done).push(node));
            done = done + 1;
            assert(rest@ =~= landed_nodes.subrange(done, landed_nodes.len() as int));
        }
    }
    proof {
        assert(landed_nodes.subrange(0, landed_nodes.len() as int) =~= landed_nodes);
        assert(remaining =~= before.nodes@.remove(at as int));
        assert(graph.nodes@.subrange(0, remaining.len() as int) =~= remaining);
    }
    Ok(returned)
}


/// A selection without a problem names only nodes the definition holds.
pub proof fn lemma_selection_carried(nodes: Seq<NodeInstance>, selection: Seq<u128>, name: Seq<char>, graph: GraphDefinition, registry: Registry)
    requires
        graph.nodes@ == nodes,
        package_problem(graph, selection, name, registry) is None,
    ensures
        forall|uuid: u128| selection.contains(uuid) ==> carried(nodes, uuid),
{
    lemma_picks_carried(nodes, selection);
}


proof fn lemma_nodes_on_sides(nodes: Seq<NodeInstance>, selection: Seq<u128>, inside: bool)
    ensures
        forall|k: int| 0 <= k < nodes_on(nodes, selection, inside).len()
            ==> selection.contains((#[trigger] nodes_on(nodes, selection, inside)[k]).uuid) == inside,
    decreases nodes.len(),
{
    if nodes.len() > 0 {
        lemma_nodes_on_sides(nodes.drop_last(), selection, inside);
        let rest = nodes_on(nodes.drop_last(), selection, inside);
        assert forall|k: int| 0 <= k < nodes_on(nodes, selection, inside).len()
            implies selection.contains((#[trigger] nodes_on(nodes, selection, inside)[k]).uuid) == inside by {
            if k < rest.len() {
                assert(nodes_on(nodes, selection, inside)[k] == rest[k]);
            }
        }
    }
}

/// Unpacking the instance a packaging just made gives the packaged nodes
/// back, in their order and under their own uuids, after the nodes the
/// selection left on the canvas. (The instance's fresh uuid must not be one
/// a node outside the selection already carries.)
pub proof fn lemma_package_then_unpack(before: GraphDefinition, middle: GraphDefinition, after: GraphDefinition,
    selection: Seq<u128>, name: Seq<char>, registry: Registry, instance: u128, returned: Seq<u128>)
    requires
        package_problem(before, selection, name, registry) is None,
        packaged(before, middle, selection, name, registry, instance),
        !carried(nodes_on(before.nodes@, selection, false), instance),
        forall|e: int| 0 <= e < before.edges@.len() ==> (#[trigger] before.edges@[e]).from != instance && before.edges@[e].to != instance,
        unpacked(middle, after, instance, returned),
    ensures
        after.schema_version == before.schema_version,
        after.name == before.name,
        after.groups@ == if still_shown(nodes_on(before.nodes@, selection, false), middle.groups@, name) {
            middle.groups@
        } else {
            before.groups@
        },
        after.edges@.len() >= edges_where(before.edges@, selection, 0).len(),
        after.edges@.subrange(0, edges_where(before.edges@, selection, 0).len() as int) == edges_where(before.edges@, selection, 0),
        returned == nodes_on(before.nodes@, selection, true).map_values(|n: NodeInstance| n.uuid),
        after.nodes@.len() == nodes_on(before.nodes@, selection, false).len() + nodes_on(before.nodes@, selection, true).len(),
        after.nodes@.subrange(0, nodes_on(before.nodes@, selection, false).len() as int) == nodes_on(before.nodes@, selection, false),
        forall|k: int| 0 <= k < nodes_on(before.nodes@, selection, true).len() ==> {
            let node = after.nodes@[nodes_on(before.nodes@, selection, false).len() + k];
            let packed = #[trigger] nodes_on(before.nodes@, selection, true)[k];
            &&& node.uuid == packed.uuid
            &&& node.type_ref@ == packed.type_ref@
            &&& node.label == packed.label
        },
{
    let outside = nodes_on(before.nodes@, selection, false);
    let body = nodes_on(before.nodes@, selection, true);
    let n = outside.len() as int;
    assert(middle.nodes@[n] == middle.nodes@.last());
    assert forall|j: int| 0 <= j < n implies #[trigger] middle.nodes@[j].uuid != instance by {
        assert(middle.nodes@[j] == outside[j]);
        if outside[j].uuid == instance {
            assert(carried(outside, instance));
        }
    }
    assert(crate::instances::first_with(middle.nodes@, instance, n));
    let at = instance_index(middle.nodes@, instance);
    assert(crate::instances::first_with(middle.nodes@, instance, at));
    assert(at == n) by {
        if at < n {
            assert(middle.nodes@[at].uuid != instance);
        }
    }
    lemma_group_index(before.groups@, name);
    lemma_group_index(middle.groups@, name);
    let g = group_index(middle.groups@, name);
    assert(g == before.groups@.len()) by {
        let last = before.groups@.len() as int;
        assert(middle.groups@[last] == middle.groups@.last());
        assert forall|j: int| 0 <= j < last implies middle.groups@[j].name@ != name by {
            assert(middle.groups@[j] == before.groups@[j]);
        }
        if g < last {
            assert(middle.groups@[g] == before.groups@[g]);
        }
    }
    assert(middle.nodes@.remove(n) =~= outside);
    lemma_nodes_on_sides(before.nodes@, selection, true);
    lemma_nodes_on_sides(before.nodes@, selection, false);
    assert forall|k: int| 0 <= k < body.len() implies returned[k] == (#[trigger] body[k]).uuid by {
        if carried(middle.nodes@, body[k].uuid) && body[k].uuid != instance {
            let j = choose|j: int| 0 <= j < middle.nodes@.len() && #[trigger] middle.nodes@[j].uuid == body[k].uuid;
            if j < n {
                assert(middle.nodes@[j] == outside[j]);
                assert(selection.contains(outside[j].uuid) == false);
                assert(selection.contains(body[k].uuid));
            }
        }
    }
    assert(returned =~= body.map_values(|n: NodeInstance| n.uuid));
    // The groups: the new one, the only one of its name, goes unless still shown.
    assert(middle.groups@ =~= before.groups@.push(middle.groups@.last()));
    assert(!defines_group(before, name));
    lemma_groups_without_absent(before.groups@, name);
    assert(groups_without(middle.groups@, name) == groups_without(before.groups@, name)) by {
        assert(middle.groups@.drop_last() =~= before.groups@);
    }
    // The edges: those outside the selection first, untouched.
    let untouched = edges_where(before.edges@, selection, 0);
    let rest = middle.edges@.subrange(untouched.len() as int, middle.edges@.len() as int);
    assert(middle.edges@ =~= untouched + rest);
    lemma_edges_where_from(before.edges@, selection, 0);
    assert forall|e: int| 0 <= e < untouched.len() implies (#[trigger] untouched[e]).from != instance && untouched[e].to != instance by {}
    assert forall|e: int| 0 <= e < rest.len() implies (#[trigger] rest[e]).from == instance || rest[e].to == instance by {
        let crossing = edges_where(before.edges@, selection, 2);
        assert(rewired(crossing[e], rest[e], selection, instance, middle.groups@.last().inputs@, middle.groups@.last().outputs@));
    }
    lemma_edges_clear_split(untouched, rest, instance);
    assert(after.edges@.subrange(0, untouched.len() as int) =~= untouched);
}

/// The groups keep their order where none is named `name`.
proof fn lemma_groups_without_absent(groups: Seq<GroupDefinition>, name: Seq<char>)
    requires
        forall|j: int| 0 <= j < groups.len() ==> (#[trigger] groups[j]).name@ != name,
    ensures
        groups_without(groups, name) == groups,
    decreases groups.len(),
{
    if groups.len() > 0 {
        lemma_groups_without_absent(groups.drop_last(), name);
        assert(groups.drop_last().push(groups.last()) =~= groups);
    }
}

/// Every edge the class keeps is one of the edges, so it has their ends.
proof fn lemma_edges_where_from(edges: Seq<Edge>, selection: Seq<u128>, class: int)
    ensures
        forall|e: int| 0 <= e < edges_where(edges, selection, class).len()
            ==> edges.contains(#[trigger] edges_where(edges, selection, class)[e]),
    decreases edges.len(),
{
    if edges.len() > 0 {
        lemma_edges_where_from(edges.drop_last(), selection, class);
        let rest = edges_where(edges.drop_last(), selection, class);
        assert forall|e: int| 0 <= e < edges_where(edges, selection, class).len()
            implies edges.contains(#[trigger] edges_where(edges, selection, class)[e]) by {
            if e < rest.len() {
                assert(edges_where(edges, selection, class)[e] == rest[e]);
                let w = choose|w: int| 0 <= w < edges.drop_last().len() && edges.drop_last()[w] == rest[e];
                assert(edges[w] == rest[e]);
            } else {
                assert(edges[edges.len() - 1] == edges.last());
            }
        }
    }
}

/// Clearing an instance's edges from edges that never touch it keeps them
/// all; from edges that all touch it, keeps none.
proof fn lemma_edges_clear_split(kept: Seq<Edge>, touching: Seq<Edge>, uuid: u128)
    requires
        forall|e: int| 0 <= e < kept.len() ==> (#[trigger] kept[e]).from != uuid && kept[e].to != uuid,
        forall|e: int| 0 <= e < touching.len() ==> (#[trigger] touching[e]).from == uuid || touching[e].to == uuid,
    ensures
        edges_clear_of(kept + touching, uuid) == kept,
    decreases touching.len(), kept.len(),
{
    if touching.len() > 0 {
        assert((kept + touching).drop_last() =~= kept + touching.drop_last());
        assert((kept + touching).last() == touching.last());
        assert(touching.last() == touching[touching.len() - 1]);
        lemma_edges_clear_split(kept, touching.drop_last(), uuid);
    } else if kept.len() > 0 {
        assert(kept + touching =~= kept);
        assert(kept.drop_last() + touching =~= kept.drop_last());
        lemma_edges_clear_split(kept.drop_last(), touching, uuid);
        assert(kept.last() == kept[kept.len() - 1]);
        assert(kept.drop_last().push(kept.last()) =~= kept);
    } else {
        assert(kept + touching =~= Seq::<Edge>::empty());
    }
}

} // verus!
