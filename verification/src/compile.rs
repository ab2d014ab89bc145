//! The compiler: the pure transformation from a flat node and edge list to
//! a compiled graph, or every compile error found, with the non-fatal
//! warnings beside either. Every problem carries the node instances it
//! names, so no consumer parses a message to find where a problem lives.
//!
//! The graph must be a DAG, every edge must land on ports that exist, an
//! input takes at most one connection, a node instance carries a unique
//! uuid, a parameter names an input port or a declared choice, an input
//! carries a parameter or a connection but never both, and each declared
//! choice holds one of its options. An input left with neither is not of
//! itself an error; but one starving beside a fed sibling hangs the run,
//! and compile warns of it.

use vstd::prelude::*;
use vstd::string::StringExecFns;
use crate::cycle::{first_cycle, is_cycle, well_keyed};
use crate::edges::{
    edges_sound, endpoint_text, fed_has, is_fed, is_fed_input, typed, wire_edges, Connection, Feed,
};
use crate::families::{family_jobs, member_at, member_of, members_declared, resolve_families, FamilyMember, FamilyResolution};
use crate::graph::{has_parameter, contains_parameter, Edge, GraphDefinition, NodeInstance, ParameterValue};
use crate::instances::{ascending, 
    carried, first_with, index_instances, instance_of, instance_table, instance_with, instances_sound,
    lemma_carried, lemma_first_with, name_in, name_of, problem, reported, type_label, type_of, Problem,
};
use crate::literal::{literal_resolution, resolve_literal};
use crate::model::{has_port, port, port_named, choice_named, NodeType, Port};
use crate::parameters::{
    compile_parameters, literal_display, literal_text, parameters_sound, instance_parameters_sound,
    parameter_sound, set_parameter, CompiledParameter, InstanceParameters,
};
use crate::registry::Registry;
use crate::resolve::{resolve_types, Resolved};
use crate::scalars::STRING;
use crate::text::{copy_names, has_name, same_text};

verus! {

/// One compiled node instance.
pub struct CompiledNode {
    /// The type reference of the node type this instance instantiates.
    pub type_ref: String,
    /// What a run names the node by: the instance's label, or the type's
    /// default label when it gave none.
    pub label: String,
    /// The values fixed for input ports as literals, and the option each
    /// declared choice holds, by name.
    pub parameters: Vec<(String, CompiledParameter)>,
    /// The member each of the instance's port families resolved to.
    pub families: Vec<(String, Resolved)>,
    /// The input ports the graph's wiring feeds.
    pub fed: Vec<String>,
}

/// A compiled graph, addressed by instance uuid, ready for an engine.
pub struct CompiledGraph {
    /// The definition's name, if it gave one.
    pub name: Option<String>,
    /// The graph's nodes, in ascending uuid order.
    pub nodes: Vec<(u128, CompiledNode)>,
    /// The connections, in the definition's edge order.
    pub connections: Vec<Connection>,
}

/// What a compile found: the compiled graph when the definition is
/// correct, every compile error when it is not, and the warnings beside
/// either.
pub struct CompileResult {
    pub graph: Option<CompiledGraph>,
    pub errors: Vec<Problem>,
    pub warnings: Vec<Problem>,
}

/// The option a declared choice holds in a compiled node's parameters.
pub open spec fn chosen_option(parameters: Seq<(String, CompiledParameter)>, name: Seq<char>) -> Option<Seq<char>>
    decreases parameters.len(),
{
    if parameters.len() == 0 {
        None
    } else if parameters[0].0@ == name {
        match parameters[0].1.value {
            crate::literal::Scalar::Str(text) => Some(text@),
            _ => None,
        }
    } else {
        chosen_option(parameters.drop_first(), name)
    }
}

impl CompiledNode {
    /// The option one of the type's declared choices holds on this
    /// instance. Compile refuses an instance whose choice is absent or
    /// outside its options, so a behaviour reads its setting here.
    pub fn choice(&self, name: &str) -> (option: &str)
        requires
            chosen_option(self.parameters@, name@) is Some,
        ensures
            Some(option@) == chosen_option(self.parameters@, name@),
    {
        let mut i: usize = 0;
        assert(self.parameters@.subrange(0, self.parameters@.len() as int) =~= self.parameters@);
        while i < self.parameters.len()
            invariant
                i <= self.parameters.len(),
                chosen_option(self.parameters@, name@) == chosen_option(self.parameters@.subrange(i as int, self.parameters@.len() as int), name@),
                chosen_option(self.parameters@, name@) is Some,
            decreases self.parameters.len() - i,
        {
            let ghost rest = self.parameters@.subrange(i as int, self.parameters@.len() as int);
            assert(rest.drop_first() =~= self.parameters@.subrange(i + 1, self.parameters@.len() as int));
            if same_text(self.parameters[i].0.as_str(), name) {
                match &self.parameters[i].1.value {
                    crate::literal::Scalar::Str(text) => {
                        return text.as_str();
                    },
                    _ => {},
                }
            }
            i = i + 1;
        }
        assert(self.parameters@.subrange(i as int, self.parameters@.len() as int).len() == 0);
        ""
    }
}

/// A uuid walk along the edges, each step an edge between two defined
/// nodes, closing where it started.
pub open spec fn closed_walk(nodes: Seq<NodeInstance>, edges: Seq<Edge>, walk: Seq<u128>) -> bool {
    &&& walk.len() >= 2
    &&& walk[0] == walk[walk.len() - 1]
    &&& forall|i: int| 0 <= i < walk.len() - 1 ==> edge_between(edges, #[trigger] walk[i], walk[i + 1])
}

/// Some edge runs from `from` to `to`.
pub open spec fn edge_between(edges: Seq<Edge>, from: u128, to: u128) -> bool {
    exists|x: int| 0 <= x < edges.len() && (#[trigger] edges[x]).from == from && edges[x].to == to
}

/// No walk along the edges closes on itself.
pub open spec fn acyclic(nodes: Seq<NodeInstance>, edges: Seq<Edge>) -> bool {
    forall|walk: Seq<u128>| !closed_walk(nodes, edges, walk)
}

/// No walk along the edges through the table's uuids closes on itself.
pub open spec fn acyclic_within(nodes: Seq<NodeInstance>, edges: Seq<Edge>, table: Seq<u128>) -> bool {
    forall|walk: Seq<u128>| #[trigger] closed_walk(nodes, edges, walk) ==> exists|i: int| 0 <= i < walk.len() && !table.contains(#[trigger] walk[i])
}

/// A message naming a cycle.
pub open spec fn cycle_message(message: Seq<char>) -> bool {
    message.len() >= 7 && message.subrange(0, 7) == "cycle: "@
}

/// The edges close a walk through defined nodes.
pub open spec fn defined_cycle(nodes: Seq<NodeInstance>, edges: Seq<Edge>) -> bool {
    exists|walk: Seq<u128>| #[trigger] closed_walk(nodes, edges, walk)
        && forall|i: int| 0 <= i < walk.len() ==> carried(nodes, #[trigger] walk[i])
}

/// Some problem names a cycle.
pub open spec fn names_a_cycle(problems: Seq<Problem>) -> bool {
    exists|k: int| 0 <= k < problems.len() && cycle_message(#[trigger] problems[k].message@)
}

/// Some position of the table holding `uuid` is among the roots.
spec fn rooted(table: Seq<u128>, roots: Seq<usize>, uuid: u128) -> bool {
    exists|p: int| 0 <= p < table.len() && table[p] == uuid && #[trigger] roots.contains(p as usize)
}

/// The position the table holds `uuid` at.
pub open spec fn position_in(table: Seq<u128>, uuid: u128) -> int {
    choose|p: int| 0 <= p < table.len() && table[p] == uuid
}

/// Each neighbour of a table position is the target of an edge from it.
pub open spec fn adjacency_of_edges(adjacency: Seq<Vec<usize>>, edges: Seq<Edge>, table: Seq<u128>) -> bool {
    forall|p: int, q: int| 0 <= p < adjacency.len() && 0 <= q < adjacency[p]@.len() ==>
        edge_between(edges, table[p], table[#[trigger] adjacency[p]@[q] as int])
}

/// The instances' adjacency, as table positions: for each edge between
/// two instances, in edge order, its target after its source's earlier
/// targets.
pub open spec fn edge_adjacency(edges: Seq<Edge>, table: Seq<u128>) -> Seq<Seq<usize>>
    decreases edges.len(),
{
    if edges.len() == 0 {
        Seq::new(table.len(), |p: int| Seq::<usize>::empty())
    } else {
        let rest = edge_adjacency(edges.drop_last(), table);
        let e = edges.last();
        if table.contains(e.from) && table.contains(e.to) {
            let p = position_in(table, e.from);
            rest.update(p, rest[p].push(position_in(table, e.to) as usize))
        } else {
            rest
        }
    }
}

/// The walk's roots: each node's table position, in definition order.
pub open spec fn node_roots(nodes: Seq<NodeInstance>, table: Seq<u128>) -> Seq<usize> {
    nodes.map_values(|n: NodeInstance| position_in(table, n.uuid) as usize)
}

/// The uuids the table holds at the walk's positions.
pub open spec fn uuids_at(table: Seq<u128>, walk: Seq<usize>) -> Seq<u128> {
    walk.map_values(|p: usize| table[p as int])
}

/// The cycle the shared walk meets first among the instances, as uuids.
pub open spec fn first_edge_cycle(nodes: Seq<NodeInstance>, edges: Seq<Edge>, table: Seq<u128>) -> Option<Seq<u128>> {
    match crate::cycle::first_cycle_of(edge_adjacency(edges, table), node_roots(nodes, table)) {
        Some(w) => Some(uuids_at(table, w)),
        None => None,
    }
}

proof fn lemma_position_in(table: Seq<u128>, p: int)
    requires
        ascending(table),
        0 <= p < table.len(),
    ensures
        position_in(table, table[p]) == p,
{
    let q = position_in(table, table[p]);
    if q != p {
        assert(table[q] < table[p] || table[p] < table[q]);
    }
}

/// The position of `uuid` in the table.
fn table_position(table: &Vec<u128>, uuid: u128) -> (found: Option<usize>)
    ensures
        match found {
            Some(p) => p < table.len() && table@[p as int] == uuid,
            None => !table@.contains(uuid),
        },
{
    let mut i: usize = 0;
    while i < table.len()
        invariant
            i <= table.len(),
            forall|j: int| 0 <= j < i ==> table@[j] != uuid,
        decreases table.len() - i,
    {
        if table[i] == uuid {
            return Some(i);
        }
        i = i + 1;
    }
    None
}

fn copy_keys(keys: &Vec<usize>) -> (copy: Vec<usize>)
    ensures
        copy@ == keys@,
{
    let mut copy: Vec<usize> = Vec::new();
    let mut i: usize = 0;
    while i < keys.len()
        invariant
            i <= keys.len(),
            copy@ == keys@.subrange(0, i as int),
        decreases keys.len() - i,
    {
        copy.push(keys[i]);
        i = i + 1;
    }
    assert(keys@.subrange(0, keys.len() as int) =~= keys@);
    copy
}

/// The first cycle the edges form, as the uuids around it: the shared walk
/// over the instances' adjacency, starting from each node in definition
/// order and following edges in edge order.
pub fn find_cycle(nodes: &Vec<NodeInstance>, edges: &Vec<Edge>, table: &Vec<u128>) -> (cycle: Option<Vec<u128>>)
    requires
        instance_table(nodes@, table@),
    ensures
        match cycle {
            Some(walk) => closed_walk(nodes@, edges@, walk@),
            None => acyclic_within(nodes@, edges@, table@),
        },
        first_edge_cycle(nodes@, edges@, table@) == match cycle {
            Some(walk) => Some(walk@),
            None => None,
        },
{
    let mut adjacency: Vec<Vec<usize>> = Vec::new();
    while adjacency.len() < table.len()
        invariant
            adjacency.len() <= table.len(),
            forall|k: int| 0 <= k < adjacency.len() ==> (#[trigger] adjacency@[k])@.len() == 0,
        decreases table.len() - adjacency.len(),
    {
        adjacency.push(Vec::new());
    }
    proof {
        assert(edges@.subrange(0, 0) =~= Seq::<Edge>::empty());
        assert forall|k: int| 0 <= k < adjacency@.len() implies
            #[trigger] crate::cycle::neighbours(adjacency@)[k] == edge_adjacency(edges@.subrange(0, 0), table@)[k] by {
            assert(crate::cycle::neighbours(adjacency@)[k] =~= Seq::<usize>::empty());
        }
        assert(crate::cycle::neighbours(adjacency@) =~= edge_adjacency(edges@.subrange(0, 0), table@));
    }
    let mut e: usize = 0;
    while e < edges.len()
        invariant
            e <= edges.len(),
            adjacency.len() == table.len(),
            well_keyed(adjacency@),
            adjacency_of_edges(adjacency@, edges@, table@),
            crate::cycle::neighbours(adjacency@) == edge_adjacency(edges@.subrange(0, e as int), table@),
            ascending(table@),
            forall|x: int, p: int, q: int| #![trigger edges@[x], table@[p], table@[q]]
                0 <= x < e && 0 <= p < table.len() && 0 <= q < table.len()
                && table@[p] == edges@[x].from && table@[q] == edges@[x].to
                ==> adjacency@[p]@.contains(q as usize),
        decreases edges.len() - e,
    {
        proof {
            assert(edges@.subrange(0, e + 1).drop_last() =~= edges@.subrange(0, e as int));
            assert(edges@.subrange(0, e + 1).last() == edges@[e as int]);
        }
        match (table_position(table, edges[e].from), table_position(table, edges[e].to)) {
            (Some(p), Some(q)) => {
                let ghost before = adjacency@;
                let mut neighbours = copy_keys(&adjacency[p]);
                let ghost old_neighbours = neighbours@;
                assert(old_neighbours == before[p as int]@);
                neighbours.push(q);
                adjacency.set(p, neighbours);
                proof {
                    lemma_position_in(table@, p as int);
                    lemma_position_in(table@, q as int);
                    assert(table@.contains(edges@[e as int].from));
                    assert(table@.contains(edges@[e as int].to));
                    assert(crate::cycle::neighbours(adjacency@) =~= edge_adjacency(edges@.subrange(0, e + 1), table@));
                }
                proof {
                    assert forall|a: int, b: int| 0 <= a < adjacency.len() && 0 <= b < adjacency@[a]@.len()
                        implies #[trigger] adjacency@[a]@[b] < adjacency.len() by {
                        if a != p {
                            assert(adjacency@[a] == before[a]);
                        } else if b < old_neighbours.len() {
                            assert(adjacency@[a]@[b] == before[a]@[b]);
                        }
                    }
                    assert forall|a: int, b: int| 0 <= a < adjacency.len() && 0 <= b < adjacency@[a]@.len() implies
                        edge_between(edges@, table@[a], table@[#[trigger] adjacency@[a]@[b] as int]) by {
                        if a != p {
                            assert(adjacency@[a] == before[a]);
                            assert(before[a]@[b] == adjacency@[a]@[b]);
                        } else if b < old_neighbours.len() {
                            assert(adjacency@[a]@[b] == before[a]@[b]);
                        } else {
                            assert(adjacency@[a]@[b] == q);
                            assert(edges@[e as int].from == table@[a] && edges@[e as int].to == table@[adjacency@[a]@[b] as int]);
                            assert(edge_between(edges@, table@[a], table@[adjacency@[a]@[b] as int]));
                        }
                    }
                    assert forall|x: int, pp: int, qq: int| #![trigger edges@[x], table@[pp], table@[qq]]
                        0 <= x < e + 1 && 0 <= pp < table.len() && 0 <= qq < table.len()
                        && table@[pp] == edges@[x].from && table@[qq] == edges@[x].to
                        implies adjacency@[pp]@.contains(qq as usize) by {
                        if x < e {
                            assert(before[pp]@.contains(qq as usize));
                            if pp == p as int {
                                let w = choose|w: int| 0 <= w < before[pp]@.len() && before[pp]@[w] == qq as usize;
                                assert(adjacency@[pp]@[w] == qq as usize);
                            } else {
                                assert(adjacency@[pp] == before[pp]);
                            }
                        } else {
                            if pp != p as int {
                                assert(table@[pp] < table@[p as int] || table@[p as int] < table@[pp]);
                            }
                            if qq != q as int {
                                assert(table@[qq] < table@[q as int] || table@[q as int] < table@[qq]);
                            }
                            assert(adjacency@[pp]@[old_neighbours.len() as int] == q);
                        }
                    }
                }
            },
            (found_from, found_to) => {
                proof {
                    assert(!(table@.contains(edges@[e as int].from) && table@.contains(edges@[e as int].to)));
                }
                proof {
                    assert forall|x: int, pp: int, qq: int| #![trigger edges@[x], table@[pp], table@[qq]]
                        0 <= x < e + 1 && 0 <= pp < table.len() && 0 <= qq < table.len()
                        && table@[pp] == edges@[x].from && table@[qq] == edges@[x].to
                        implies adjacency@[pp]@.contains(qq as usize) by {
                        if x == e {
                            if found_from is None {
                                assert(table@.contains(table@[pp]));
                            } else {
                                assert(table@.contains(table@[qq]));
                            }
                        }
                    }
                }
            },
        }
        e = e + 1;
    }
    let mut roots: Vec<usize> = Vec::new();
    let mut k: usize = 0;
    while k < nodes.len()
        invariant
            k <= nodes.len(),
            forall|i: int| 0 <= i < roots.len() ==> #[trigger] roots@[i] < table.len(),
            instance_table(nodes@, table@),
            forall|i: int| 0 <= i < k ==> rooted(table@, roots@, (#[trigger] nodes@[i]).uuid),
            roots@ == node_roots(nodes@.subrange(0, k as int), table@),
        decreases nodes.len() - k,
    {
        let ghost before = roots@;
        match table_position(table, nodes[k].uuid) {
            Some(p) => {
                roots.push(p);
                proof {
                    lemma_position_in(table@, p as int);
                    assert(roots@ =~= node_roots(nodes@.subrange(0, k + 1), table@));
                }
                proof {
                    assert(roots@[before.len() as int] == p);
                    assert(roots@.contains(p));
                    assert forall|i: int| 0 <= i < k + 1 implies rooted(table@, roots@, (#[trigger] nodes@[i]).uuid) by {
                        if i < k {
                            let w = choose|w: int| 0 <= w < table@.len() && table@[w] == nodes@[i].uuid && #[trigger] before.contains(w as usize);
                            let at = choose|at: int| 0 <= at < before.len() && before[at] == w as usize;
                            assert(roots@[at] == w as usize);
                            assert(roots@.contains(w as usize));
                        } else {
                            let w: int = p as int;
                            assert(table@[w] == nodes@[i].uuid);
                            assert(roots@.contains(w as usize));
                        }
                    }
                }
            },
            None => {
                proof {
                    assert(carried(nodes@, nodes@[k as int].uuid));
                }
            },
        }
        k = k + 1;
    }
    proof {
        assert(nodes@.subrange(0, nodes@.len() as int) =~= nodes@);
        assert(edges@.subrange(0, edges@.len() as int) =~= edges@);
    }
    proof {
        assert forall|p: int| 0 <= p < table@.len() implies #[trigger] roots@.contains(p as usize) by {
            assert(table@.contains(table@[p]));
            let i = choose|i: int| 0 <= i < nodes@.len() && #[trigger] nodes@[i].uuid == table@[p];
            assert(rooted(table@, roots@, nodes@[i].uuid));
            let w = choose|w: int| 0 <= w < table@.len() && table@[w] == nodes@[i].uuid && #[trigger] roots@.contains(w as usize);
            if w != p {
                assert(table@[w] < table@[p] || table@[p] < table@[w]);
            }
        }
    }
    match first_cycle(&roots, &adjacency) {
        Some(walk) => {
            let mut uuids: Vec<u128> = Vec::new();
            let mut i: usize = 0;
            while i < walk.len()
                invariant
                    i <= walk.len(),
                    uuids@.len() == i,
                    is_cycle(adjacency@, walk@),
                    adjacency.len() == table.len(),
                    forall|j: int| 0 <= j < i ==> walk@[j] < table.len() && #[trigger] uuids@[j] == table@[walk@[j] as int],
                decreases walk.len() - i,
            {
                let position = walk[i];
                if position < table.len() {
                    uuids.push(table[position]);
                } else {
                    uuids.push(0);
                    proof {
                        if i < walk.len() - 1 {
                            assert(walk@[i as int] < adjacency.len());
                        } else {
                            assert(walk@[i as int] == walk@[0]);
                            assert(walk@[0] < adjacency.len());
                        }
                    }
                }
                i = i + 1;
            }
            proof {
                assert(uuids@ =~= uuids_at(table@, walk@));
                assert forall|j: int| 0 <= j < uuids@.len() - 1 implies edge_between(edges@, #[trigger] uuids@[j], uuids@[j + 1]) by {
                    assert(adjacency@[walk@[j] as int]@.contains(walk@[j + 1]));
                    let q = choose|q: int| 0 <= q < adjacency@[walk@[j] as int]@.len() && adjacency@[walk@[j] as int]@[q] == walk@[j + 1];
                    assert(adjacency@[walk@[j] as int]@[q] == walk@[j + 1]);
                }
            }
            Some(uuids)
        },
        None => {
            proof {
                assert forall|walk: Seq<u128>| #[trigger] closed_walk(nodes@, edges@, walk)
                    implies exists|i: int| 0 <= i < walk.len() && !table@.contains(#[trigger] walk[i]) by {
                    if forall|i: int| 0 <= i < walk.len() ==> table@.contains(#[trigger] walk[i]) {
                        let positions = Seq::new(walk.len(), |i: int| position_in(table@, walk[i]) as usize);
                        assert forall|i: int| 0 <= i < walk.len() implies
                            0 <= (#[trigger] positions[i]) < table@.len() && table@[positions[i] as int] == walk[i] by {
                            assert(table@.contains(walk[i]));
                        }
                        assert forall|i: int| 0 <= i < positions.len() - 1 implies {
                            &&& 0 <= #[trigger] positions[i] < adjacency@.len()
                            &&& adjacency@[positions[i] as int]@.contains(positions[i + 1])
                        } by {
                            assert(edge_between(edges@, walk[i], walk[i + 1]));
                            let x = choose|x: int| 0 <= x < edges@.len() && (#[trigger] edges@[x]).from == walk[i] && edges@[x].to == walk[i + 1];
                            assert(table@[positions[i] as int] == edges@[x].from);
                            assert(table@[positions[i + 1] as int] == edges@[x].to);
                        }
                        assert(positions[0] == positions[positions.len() - 1]) by {
                            let a = positions[0] as int;
                            let b = positions[positions.len() - 1] as int;
                            if a != b {
                                assert(table@[a] < table@[b] || table@[b] < table@[a]);
                            }
                        }
                        assert(is_cycle(adjacency@, positions));
                        assert(roots@.contains(positions[0]));
                    }
                }
            }
            None
        },
    }
}

/// The walk with each run of one uuid named once.
pub open spec fn collapsed(walk: Seq<u128>) -> Seq<u128>
    decreases walk.len(),
{
    if walk.len() == 0 {
        Seq::empty()
    } else {
        let rest = collapsed(walk.drop_last());
        if rest.len() > 0 && rest.last() == walk.last() { rest } else { rest.push(walk.last()) }
    }
}

/// The names of the nodes along a walk.
pub open spec fn walk_names(registry: Registry, nodes: Seq<NodeInstance>, walk: Seq<u128>) -> Seq<Seq<char>> {
    Seq::new(walk.len(), |i: int| crate::edges::endpoint_name(registry, nodes, walk[i]))
}

/// The message naming a cycle: the names around the walk joined by arrows.
pub open spec fn cycle_text(registry: Registry, nodes: Seq<NodeInstance>, walk: Seq<u128>) -> Seq<char> {
    "cycle: "@ + crate::text::joined(walk_names(registry, nodes, walk), " → "@)
}

/// Some problem names a closed walk along the edges, by its text, and
/// marks the walk's nodes.
pub open spec fn cycle_reported(registry: Registry, nodes: Seq<NodeInstance>, edges: Seq<Edge>, problems: Seq<Problem>) -> bool {
    exists|k: int, walk: Seq<u128>| #![trigger problems[k], closed_walk(nodes, edges, walk)]
        0 <= k < problems.len() && closed_walk(nodes, edges, walk)
        && problems[k].message@ == cycle_text(registry, nodes, walk) && problems[k].nodes@ == collapsed(walk)
}

/// The cycle problem: the names around the walk joined by arrows, marking
/// each node once where the walk names it twice in a row.
fn cycle_problem(registry: &Registry, nodes: &Vec<NodeInstance>, walk: &Vec<u128>) -> (p: Problem)
    requires
        registry.wf(),
    ensures
        cycle_message(p.message@),
        p.message@ == cycle_text(*registry, nodes@, walk@),
        p.nodes@ == collapsed(walk@),
{
    let ghost names = walk_names(*registry, nodes@, walk@);
    let mut message = "cycle: ".to_owned();
    proof {
        reveal_strlit("cycle: ");
        reveal_strlit(" → ");
        assert(message@.len() == 7);
        assert(message@.subrange(0, 7) =~= "cycle: "@);
        assert(walk@.subrange(0, 0) =~= Seq::<u128>::empty());
        assert(names.subrange(0, 0) =~= Seq::<Seq<char>>::empty());
        assert(message@ =~= "cycle: "@ + crate::text::joined(names.subrange(0, 0), " → "@));
    }
    let mut marks: Vec<u128> = Vec::new();
    let mut i: usize = 0;
    while i < walk.len()
        invariant
            registry.wf(),
            i <= walk.len(),
            names == walk_names(*registry, nodes@, walk@),
            cycle_message(message@),
            message@ == "cycle: "@ + crate::text::joined(names.subrange(0, i as int), " → "@),
            marks@ == collapsed(walk@.subrange(0, i as int)),
        decreases walk.len() - i,
    {
        let ghost prefix = names.subrange(0, i as int);
        proof {
            assert(names.subrange(0, i + 1).drop_last() =~= prefix);
            assert(walk@.subrange(0, i + 1).drop_last() =~= walk@.subrange(0, i as int));
        }
        if i > 0 {
            let ghost before = message@;
            message.append(" → ");
            assert(message@.subrange(0, 7) =~= before.subrange(0, 7));
        }
        let name = endpoint_text(registry, nodes, walk[i]);
        let ghost before = message@;
        message.append(name.as_str());
        assert(message@.subrange(0, 7) =~= before.subrange(0, 7));
        proof {
            assert(names.subrange(0, i + 1).last() == name@);
            if i == 0 {
                assert(crate::text::joined(names.subrange(0, 1), " → "@) == name@);
                assert(message@ =~= "cycle: "@ + crate::text::joined(names.subrange(0, 1), " → "@));
            } else {
                assert(crate::text::joined(names.subrange(0, i + 1), " → "@)
                    == crate::text::joined(prefix, " → "@) + " → "@ + name@);
                assert(message@ =~= "cycle: "@ + crate::text::joined(names.subrange(0, i + 1), " → "@));
            }
        }
        if marks.len() == 0 || marks[marks.len() - 1] != walk[i] {
            marks.push(walk[i]);
        }
        i = i + 1;
    }
    assert(names.subrange(0, i as int) =~= names);
    assert(walk@.subrange(0, i as int) =~= walk@);
    Problem { message, nodes: marks }
}

/// The inputs of a node, in declared order, neither fed nor holding a
/// parameter value.
pub open spec fn starving_inputs(fed: spec_fn(Seq<char>) -> bool, inputs: Seq<Port>, parameters: Seq<(String, ParameterValue)>) -> Seq<Seq<char>>
    decreases inputs.len(),
{
    if inputs.len() == 0 {
        Seq::empty()
    } else {
        let rest = starving_inputs(fed, inputs.drop_last(), parameters);
        let last = inputs.last().name@;
        if !fed(last) && !has_parameter(parameters, last) { rest.push(last) } else { rest }
    }
}

proof fn lemma_starving_len(fed: spec_fn(Seq<char>) -> bool, inputs: Seq<Port>, parameters: Seq<(String, ParameterValue)>)
    ensures
        starving_inputs(fed, inputs, parameters).len() <= inputs.len(),
    decreases inputs.len(),
{
    if inputs.len() > 0 {
        lemma_starving_len(fed, inputs.drop_last(), parameters);
    }
}

pub open spec fn hang_message(name: Seq<char>, input: Seq<char>) -> Seq<char> {
    "node "@ + name + ": input `"@ + input
        + "` is neither connected nor parameterised — the node will never fire, hanging the run until it is stopped"@
}

/// Whether input `p` of node `uuid` is fed, as a predicate on `p`.
pub open spec fn fed_at(registry: Registry, nodes: Seq<NodeInstance>, edges: Seq<Edge>, uuid: u128) -> spec_fn(Seq<char>) -> bool {
    |p: Seq<char>| is_fed(registry, nodes, edges, uuid, p)
}

/// The starvation warnings of one node: one per starving input, when some
/// but not all of its inputs starve.
pub open spec fn node_warnings(registry: Registry, nodes: Seq<NodeInstance>, edges: Seq<Edge>, uuid: u128) -> Seq<(Seq<char>, u128)> {
    match typed(registry, nodes, uuid) {
        Some(t) => {
            let instance = instance_with(nodes, uuid);
            let starving = starving_inputs(fed_at(registry, nodes, edges, uuid), t.inputs@, instance.parameters@);
            if starving.len() == 0 || starving.len() == t.inputs@.len() {
                Seq::empty()
            } else {
                starving.map_values(|input: Seq<char>| (hang_message(name_in(registry, instance), input), uuid))
            }
        },
        None => Seq::empty(),
    }
}

/// The starvation warnings of the table's nodes, in table order.
pub open spec fn hang_warnings(registry: Registry, nodes: Seq<NodeInstance>, edges: Seq<Edge>, table: Seq<u128>) -> Seq<(Seq<char>, u128)>
    decreases table.len(),
{
    if table.len() == 0 {
        Seq::empty()
    } else {
        hang_warnings(registry, nodes, edges, table.drop_last()) + node_warnings(registry, nodes, edges, table.last())
    }
}

/// The problems read as the expected messages, each marking its one node.
pub open spec fn problems_read(problems: Seq<Problem>, expected: Seq<(Seq<char>, u128)>) -> bool {
    &&& problems.len() == expected.len()
    &&& forall|i: int| 0 <= i < problems.len() ==> (#[trigger] problems[i]).message@ == expected[i].0
        && problems[i].nodes@ == seq![expected[i].1]
}

fn hang_warning(name: &String, input: &String) -> (message: String)
    ensures
        message@ == hang_message(name@, input@),
{
    let mut message = "node ".to_owned();
    message.append(name.as_str());
    message.append(": input `");
    message.append(input.as_str());
    message.append("` is neither connected nor parameterised — the node will never fire, hanging the run until it is stopped");
    message
}

/// Starvation: an input neither connected nor parameterised beside one
/// that is. The graph compiles, but the starving input never arrives and
/// the node never fires, so compile warns, naming the node and the input.
pub fn starvation_warnings(
    nodes: &Vec<NodeInstance>,
    edges: &Vec<Edge>,
    table: &Vec<u128>,
    fed: &Vec<Feed>,
    registry: &Registry,
) -> (warnings: Vec<Problem>)
    requires
        registry.wf(),
        forall|u: u128, p: Seq<char>| fed_has(fed@, u, p) <==> is_fed(*registry, nodes@, edges@, u, p),
    ensures
        problems_read(warnings@, hang_warnings(*registry, nodes@, edges@, table@)),
{
    let mut warnings: Vec<Problem> = Vec::new();
    let mut i: usize = 0;
    while i < table.len()
        invariant
            registry.wf(),
            i <= table.len(),
            forall|u: u128, p: Seq<char>| fed_has(fed@, u, p) <==> is_fed(*registry, nodes@, edges@, u, p),
            problems_read(warnings@, hang_warnings(*registry, nodes@, edges@, table@.subrange(0, i as int))),
        decreases table.len() - i,
    {
        let uuid = table[i];
        let ghost before = warnings@;
        proof {
            assert(table@.subrange(0, i + 1).drop_last() =~= table@.subrange(0, i as int));
        }
        match instance_of(nodes, uuid) {
            Some(instance) => {
                match type_label(registry, instance) {
                    Some(t) => {
                        let ghost fed_spec = fed_at(*registry, nodes@, edges@, uuid);
                        let mut starving: Vec<String> = Vec::new();
                        let mut k: usize = 0;
                        while k < t.inputs.len()
                            invariant
                                k <= t.inputs.len(),
                                fed_spec == fed_at(*registry, nodes@, edges@, uuid),
                                forall|u: u128, p: Seq<char>| fed_has(fed@, u, p) <==> is_fed(*registry, nodes@, edges@, u, p),
                                crate::text::views(starving@) == starving_inputs(fed_spec, t.inputs@.subrange(0, k as int), instance.parameters@),
                            decreases t.inputs.len() - k,
                        {
                            let input = &t.inputs[k];
                            proof {
                                assert(t.inputs@.subrange(0, k + 1).drop_last() =~= t.inputs@.subrange(0, k as int));
                            }
                            let starve = !is_fed_input(fed, uuid, input.name.as_str()) && !contains_parameter(&instance.parameters, input.name.as_str());
                            proof {
                                let pre = t.inputs@.subrange(0, k + 1);
                                assert(pre.last() == *input);
                                assert(fed_spec(input.name@) == is_fed(*registry, nodes@, edges@, uuid, input.name@));
                                assert(starve == (!fed_spec(input.name@) && !has_parameter(instance.parameters@, input.name@)));
                            }
                            if starve {
                                let ghost prior = starving@;
                                starving.push(input.name.clone());
                                assert(crate::text::views(starving@) =~= crate::text::views(prior).push(input.name@));
                            }
                            k = k + 1;
                        }
                        assert(t.inputs@.subrange(0, t.inputs@.len() as int) =~= t.inputs@);
                        if starving.len() > 0 && starving.len() < t.inputs.len() {
                            let name = name_of(registry, instance);
                            let mut s: usize = 0;
                            while s < starving.len()
                                invariant
                                    s <= starving.len(),
                                    warnings@.len() == before.len() + s,
                                    warnings@.subrange(0, before.len() as int) == before,
                                    name@ == name_in(*registry, *instance),
                                    forall|m: int| 0 <= m < s ==> (#[trigger] warnings@[before.len() + m]).message@ == hang_message(name@, starving@[m]@)
                                        && warnings@[before.len() + m].nodes@ == seq![uuid],
                                decreases starving.len() - s,
                            {
                                let message = hang_warning(&name, &starving[s]);
                                let ghost prior = warnings@;
                                warnings.push(problem(message, uuid));
                                assert(warnings@.subrange(0, before.len() as int) =~= prior.subrange(0, before.len() as int));
                                assert forall|m: int| 0 <= m < s + 1 implies (#[trigger] warnings@[before.len() + m]).message@ == hang_message(name@, starving@[m]@)
                                    && warnings@[before.len() + m].nodes@ == seq![uuid] by {
                                    if m < s {
                                        assert(warnings@[before.len() + m] == prior[before.len() + m]);
                                    }
                                }
                                s = s + 1;
                            }
                            assert(forall|r: int| 0 <= r < starving@.len() ==> (#[trigger] warnings@[before.len() + r]).message@
                                == hang_message(name_in(*registry, *instance), starving@[r]@)
                                && warnings@[before.len() + r].nodes@ == seq![uuid]);
                        }
                        proof {
                            let expected = hang_warnings(*registry, nodes@, edges@, table@.subrange(0, i + 1));
                            let own = node_warnings(*registry, nodes@, edges@, uuid);
                            assert(expected == hang_warnings(*registry, nodes@, edges@, table@.subrange(0, i as int)) + own);
                            let names = crate::text::views(starving@);
                            assert(names.len() == starving@.len());
                            assert(typed(*registry, nodes@, uuid) == Some(*t));
                            assert(instance_with(nodes@, uuid) == *instance);
                            assert(names == starving_inputs(fed_spec, t.inputs@, instance.parameters@));
                            lemma_starving_len(fed_spec, t.inputs@, instance.parameters@);
                            if starving.len() > 0 && starving.len() < t.inputs.len() {
                                assert(own =~= names.map_values(|input: Seq<char>| (hang_message(name_in(*registry, *instance), input), uuid)));
                                assert forall|m: int| 0 <= m < own.len() implies (#[trigger] own[m]).0 == hang_message(name_in(*registry, *instance), starving@[m]@)
                                    && own[m].1 == uuid by {
                                    assert(names[m] == starving@[m]@);
                                }
                                assert(warnings@.len() == before.len() + own.len());
                            } else {
                                assert(own.len() == 0);
                            }
                            assert(problems_read(warnings@, expected)) by {
                                assert forall|m: int| 0 <= m < warnings@.len() implies (#[trigger] warnings@[m]).message@ == expected[m].0
                                    && warnings@[m].nodes@ == seq![expected[m].1] by {
                                    let prev = hang_warnings(*registry, nodes@, edges@, table@.subrange(0, i as int));
                                    if m < before.len() {
                                        assert(warnings@[m] == before[m]);
                                        assert(expected[m] == prev[m]);
                                    } else {
                                        let r = m - before.len();
                                        assert(expected[m] == own[r]);
                                        assert(warnings@[before.len() + r].message@ == hang_message(name_in(*registry, *instance), starving@[r]@));
                                    }
                                }
                            }
                        }
                    },
                    None => {
                        proof {
                            let expected = hang_warnings(*registry, nodes@, edges@, table@.subrange(0, i + 1));
                            assert(expected =~= hang_warnings(*registry, nodes@, edges@, table@.subrange(0, i as int)));
                        }
                    },
                }
            },
            None => {
                proof {
                    let expected = hang_warnings(*registry, nodes@, edges@, table@.subrange(0, i + 1));
                    assert(expected =~= hang_warnings(*registry, nodes@, edges@, table@.subrange(0, i as int)));
                }
            },
        }
        i = i + 1;
    }
    assert(table@.subrange(0, table.len() as int) =~= table@);
    warnings
}


fn unfit_literal(name: &String, input: &String, literal: &ParameterValue, family: &String, member: &String) -> (message: String)
    ensures
        message@ == "node "@ + name@ + ": input `"@ + input@ + "`: literal "@ + literal_text(*literal)
            + " does not fit the `"@ + family@ + "` family's resolved type "@ + member@,
{
    let mut message = "node ".to_owned();
    message.append(name.as_str());
    message.append(": input `");
    message.append(input.as_str());
    message.append("`: literal ");
    let shown = literal_display(literal);
    message.append(shown.as_str());
    message.append(" does not fit the `");
    message.append(family.as_str());
    message.append("` family's resolved type ");
    message.append(member.as_str());
    message
}

/// Every family literal of the compiled instances, with its instance's
/// uuid, in order.
pub open spec fn pending_literals(compiled: Seq<InstanceParameters>) -> Seq<(u128, crate::parameters::FamilyLiteral)>
    decreases compiled.len(),
{
    if compiled.len() == 0 {
        Seq::empty()
    } else {
        let last = compiled.last();
        pending_literals(compiled.drop_last())
            + Seq::new(last.literals@.len(), |k: int| (last.uuid, last.literals@[k]))
    }
}

/// How a family literal fits the member its family resolved to: none where
/// the family did not resolve, else the literal's resolution against that
/// member.
pub open spec fn literal_fit(registry: Registry, resolved: Seq<FamilyMember>, uuid: u128, literal: crate::parameters::FamilyLiteral)
    -> Option<Option<(Resolved, crate::literal::Scalar, Option<crate::model::Conversion>)>>
{
    let m = member_at(resolved, uuid, literal.family@);
    if m < resolved.len() {
        Some(literal_resolution(registry, literal.literal, seq![resolved[m].member.name]))
    } else {
        None
    }
}

/// The literals that fit, compiled, in order.
pub open spec fn fitted_literals(registry: Registry, resolved: Seq<FamilyMember>, pending: Seq<(u128, crate::parameters::FamilyLiteral)>)
    -> Seq<(u128, String, CompiledParameter)>
    decreases pending.len(),
{
    if pending.len() == 0 {
        Seq::empty()
    } else {
        let rest = fitted_literals(registry, resolved, pending.drop_last());
        let (uuid, literal) = pending.last();
        match literal_fit(registry, resolved, uuid, literal) {
            Some(Some((resolved_type, value, conversion))) =>
                rest.push((uuid, literal.input, CompiledParameter { resolved_type, value, conversion })),
            _ => rest,
        }
    }
}

/// One finding for each literal, in order, that its family's resolved
/// type cannot hold.
pub open spec fn unfit_literals(registry: Registry, nodes: Seq<NodeInstance>, resolved: Seq<FamilyMember>, pending: Seq<(u128, crate::parameters::FamilyLiteral)>)
    -> Seq<(Seq<char>, Seq<u128>)>
    decreases pending.len(),
{
    if pending.len() == 0 {
        Seq::empty()
    } else {
        let rest = unfit_literals(registry, nodes, resolved, pending.drop_last());
        let (uuid, literal) = pending.last();
        if literal_fit(registry, resolved, uuid, literal) == Some(None::<(Resolved, crate::literal::Scalar, Option<crate::model::Conversion>)>) {
            rest.push((
                "node "@ + crate::edges::endpoint_name(registry, nodes, uuid) + ": input `"@ + literal.input@ + "`: literal "@
                    + literal_text(literal.literal) + " does not fit the `"@ + literal.family@ + "` family's resolved type "@
                    + resolved[member_at(resolved, uuid, literal.family@)].member.name@,
                seq![uuid],
            ))
        } else {
            rest
        }
    }
}

/// Resolve each family literal against the member its family resolved
/// to; a literal whose family failed is its family's consequence.
#[verifier::spinoff_prover]
fn family_literals(
    nodes: &Vec<NodeInstance>,
    compiled: &Vec<InstanceParameters>,
    resolved: &Vec<FamilyMember>,
    registry: &Registry,
    errors: &mut Vec<Problem>,
) -> (fitted: Vec<(u128, String, CompiledParameter)>)
    requires
        registry.wf(),
    ensures
        final(errors)@.len() >= old(errors)@.len(),
        final(errors)@.subrange(0, old(errors)@.len() as int) == old(errors)@,
        fitted@ == fitted_literals(*registry, resolved@, pending_literals(compiled@)),
        reported(old(errors)@, final(errors)@, unfit_literals(*registry, nodes@, resolved@, pending_literals(compiled@))),
{
    let ghost original = errors@;
    let mut fitted: Vec<(u128, String, CompiledParameter)> = Vec::new();
    proof {
        crate::instances::lemma_reported_none(original);
        assert(compiled@.subrange(0, 0) =~= Seq::<InstanceParameters>::empty());
    }
    let mut j: usize = 0;
    while j < compiled.len()
        invariant
            registry.wf(),
            j <= compiled.len(),
            original == old(errors)@,
            errors@.len() >= original.len(),
            errors@.subrange(0, original.len() as int) == original,
            fitted@ == fitted_literals(*registry, resolved@, pending_literals(compiled@.subrange(0, j as int))),
            reported(original, errors@, unfit_literals(*registry, nodes@, resolved@, pending_literals(compiled@.subrange(0, j as int)))),
        decreases compiled.len() - j,
    {
        let uuid = compiled[j].uuid;
        let literals = &compiled[j].literals;
        let ghost done = pending_literals(compiled@.subrange(0, j as int));
        let ghost mine = Seq::new(literals@.len(), |k: int| (uuid, literals@[k]));
        proof {
            assert(compiled@.subrange(0, j + 1).drop_last() =~= compiled@.subrange(0, j as int));
            assert(pending_literals(compiled@.subrange(0, j + 1)) == done + mine);
            assert(done + mine.subrange(0, 0) =~= done);
        }
        let mut k: usize = 0;
        while k < literals.len()
            invariant
                registry.wf(),
                k <= literals.len(),
                literals == &compiled@[j as int].literals,
                uuid == compiled@[j as int].uuid,
                mine == Seq::new(literals@.len(), |k: int| (uuid, literals@[k])),
                original == old(errors)@,
                errors@.len() >= original.len(),
                errors@.subrange(0, original.len() as int) == original,
                fitted@ == fitted_literals(*registry, resolved@, done + mine.subrange(0, k as int)),
                reported(original, errors@, unfit_literals(*registry, nodes@, resolved@, done + mine.subrange(0, k as int))),
            decreases literals.len() - k,
        {
            let ghost now = done + mine.subrange(0, k + 1);
            proof {
                assert(now.drop_last() =~= done + mine.subrange(0, k as int));
                assert(now.last() == (uuid, literals@[k as int]));
            }
            let pending = &literals[k];
            match member_of(resolved, uuid, pending.family.as_str()) {
                Some(member) => {
                    let declared = vec![member.name.clone()];
                    assert(declared@ =~= seq![resolved@[member_at(resolved@, uuid, pending.family@)].member.name]);
                    match resolve_literal(&pending.literal, &declared, registry) {
                        Some((resolved_type, value, conversion)) => {
                            fitted.push((uuid, pending.input.clone(), CompiledParameter { resolved_type, value, conversion }));
                        },
                        None => {
                            let name = match instance_of(nodes, uuid) {
                                Some(instance) => name_of(registry, instance),
                                None => crate::ids::uuid_text(uuid),
                            };
                            let message = unfit_literal(&name, &pending.input, &pending.literal, &pending.family, &member.name);
                            let ghost before = errors@;
                            errors.push(problem(message, uuid));
                            assert(errors@.subrange(0, original.len() as int) =~= before.subrange(0, original.len() as int));
                            proof {
                                crate::instances::lemma_reported_push(original, before,
                                    unfit_literals(*registry, nodes@, resolved@, done + mine.subrange(0, k as int)),
                                    errors@.last(), (errors@.last().message@, seq![uuid]));
                            }
                        },
                    }
                },
                None => {},
            }
            k = k + 1;
        }
        proof {
            assert(mine.subrange(0, literals@.len() as int) =~= mine);
        }
        j = j + 1;
    }
    assert(compiled@.subrange(0, compiled@.len() as int) =~= compiled@);
    fitted
}

fn unreachable_family(from: &String, from_port: &String, to: &String, to_port: &String) -> (message: String)
    ensures
        message@ == "connection "@ + from@ + " `"@ + from_port@ + "` → "@ + to@ + " `"@ + to_port@
            + "`: the resolved family type cannot reach the other side"@,
{
    let mut message = "connection ".to_owned();
    message.append(from.as_str());
    message.append(" `");
    message.append(from_port.as_str());
    message.append("` → ");
    message.append(to.as_str());
    message.append(" `");
    message.append(to_port.as_str());
    message.append("`: the resolved family type cannot reach the other side");
    message
}

/// The types a port offers a connection: its family's resolved member
/// where its family resolved, else what it declares.
pub open spec fn offered(port_found: Port, node: u128, resolved: Seq<FamilyMember>) -> Seq<Seq<char>> {
    match port_found.family {
        Some(family) => if member_at(resolved, node, family@) < resolved.len() {
            seq![resolved[member_at(resolved, node, family@)].member.name@]
        } else {
            crate::text::views(port_found.type_refs@)
        },
        None => crate::text::views(port_found.type_refs@),
    }
}

/// The type names a port offers a connection, as `offered` reads them.
pub open spec fn offered_names(port_found: Port, node: u128, resolved: Seq<FamilyMember>) -> Seq<String> {
    match port_found.family {
        Some(family) => if member_at(resolved, node, family@) < resolved.len() {
            seq![resolved[member_at(resolved, node, family@)].member.name]
        } else {
            port_found.type_refs@
        },
        None => port_found.type_refs@,
    }
}

fn offered_types(port_found: &Port, node: u128, resolved: &Vec<FamilyMember>) -> (types: Vec<String>)
    ensures
        crate::text::views(types@) == offered(*port_found, node, resolved@),
        types@ == offered_names(*port_found, node, resolved@),
{
    match &port_found.family {
        Some(family) => match member_of(resolved, node, family.as_str()) {
            Some(member) => {
                let types = vec![member.name.clone()];
                assert(crate::text::views(types@) =~= seq![member.name@]);
                types
            },
            None => copy_names(&port_found.type_refs),
        },
        None => copy_names(&port_found.type_refs),
    }
}

/// The port family a port of the instance's type belongs to, if any.
fn family_of_port(nodes: &Vec<NodeInstance>, registry: &Registry, node: u128, name: &str, output: bool) -> (found: Option<Port>)
    requires
        registry.wf(),
    ensures
        match typed(*registry, nodes@, node) {
            Some(t) => match port_named(if output { t.outputs@ } else { t.inputs@ }, name@) {
                Some(q) => found matches Some(p) && p.name == q.name && p.type_refs@ == q.type_refs@ && p.family == q.family,
                None => found is None,
            },
            None => found is None,
        },
{
    match instance_of(nodes, node) {
        Some(instance) => match type_label(registry, instance) {
            Some(t) => {
                let declared = if output { port(&t.outputs, name) } else { port(&t.inputs, name) };
                match declared {
                    Some(p) => Some(Port { name: p.name.clone(), type_refs: copy_names(&p.type_refs), family: match &p.family {
                        Some(f) => Some(f.clone()),
                        None => None,
                    } }),
                    None => None,
                }
            },
            None => None,
        },
        None => None,
    }
}

/// The declared ports at a connection's two ends, where both ends' types
/// declare them and one of the two belongs to a family.
pub open spec fn family_ends(registry: Registry, nodes: Seq<NodeInstance>, c: Connection) -> Option<(Port, Port)> {
    match (typed(registry, nodes, c.from), typed(registry, nodes, c.to)) {
        (Some(f), Some(t)) => match (port_named(f.outputs@, c.from_port@), port_named(t.inputs@, c.to_port@)) {
            (Some(out), Some(inp)) => if out.family is Some || inp.family is Some { Some((out, inp)) } else { None },
            _ => None,
        },
        _ => None,
    }
}

/// For a connection through a family port: how the types its ends offer
/// after resolution resolve, if they do.
pub open spec fn family_resolution(registry: Registry, nodes: Seq<NodeInstance>, resolved: Seq<FamilyMember>, c: Connection)
    -> Option<Option<(Resolved, Option<crate::model::Conversion>)>>
{
    match family_ends(registry, nodes, c) {
        Some((out, inp)) => Some(crate::resolve::resolution(registry, offered_names(out, c.from, resolved), offered_names(inp, c.to, resolved))),
        None => None,
    }
}

/// One finding for each connection, in order, whose family's resolved
/// types cannot reach the other side, marking both ends.
pub open spec fn unreachable_connections(registry: Registry, nodes: Seq<NodeInstance>, resolved: Seq<FamilyMember>, connections: Seq<Connection>)
    -> Seq<(Seq<char>, Seq<u128>)>
    decreases connections.len(),
{
    if connections.len() == 0 {
        Seq::empty()
    } else {
        let rest = unreachable_connections(registry, nodes, resolved, connections.drop_last());
        let c = connections.last();
        if family_resolution(registry, nodes, resolved, c) == Some(None::<(Resolved, Option<crate::model::Conversion>)>) {
            rest.push((
                "connection "@ + crate::edges::endpoint_name(registry, nodes, c.from) + " `"@ + c.from_port@ + "` → "@
                    + crate::edges::endpoint_name(registry, nodes, c.to) + " `"@ + c.to_port@
                    + "`: the resolved family type cannot reach the other side"@,
                seq![c.from, c.to],
            ))
        } else {
            rest
        }
    }
}

/// What rebuilding leaves of one connection: resolved anew where it runs
/// through a family port and the family's types reach across, else as it
/// was.
pub open spec fn rebuilt_connection(registry: Registry, nodes: Seq<NodeInstance>, resolved: Seq<FamilyMember>, before: Connection, after: Connection) -> bool {
    &&& after.from == before.from
    &&& after.from_port@ == before.from_port@
    &&& after.to == before.to
    &&& after.to_port@ == before.to_port@
    &&& match family_resolution(registry, nodes, resolved, before) {
        Some(Some((t, conversion))) => after.resolved_type == t && after.conversion == conversion,
        _ => after == before,
    }
}

/// Rebuild every connection that touches a family port against the
/// family's resolution, so the compiled graph carries what will flow.
#[verifier::spinoff_prover]
fn rebuild_connections(
    nodes: &Vec<NodeInstance>,
    connections: &mut Vec<Connection>,
    resolved: &Vec<FamilyMember>,
    registry: &Registry,
    errors: &mut Vec<Problem>,
)
    requires
        registry.wf(),
    ensures
        final(errors)@.len() >= old(errors)@.len(),
        final(errors)@.subrange(0, old(errors)@.len() as int) == old(errors)@,
        final(connections)@.len() == old(connections)@.len(),
        forall|c: int| 0 <= c < final(connections)@.len() ==> {
            &&& (#[trigger] final(connections)@[c]).from == old(connections)@[c].from
            &&& final(connections)@[c].from_port@ == old(connections)@[c].from_port@
            &&& final(connections)@[c].to == old(connections)@[c].to
            &&& final(connections)@[c].to_port@ == old(connections)@[c].to_port@
        },
        forall|c: int| 0 <= c < final(connections)@.len()
            ==> rebuilt_connection(*registry, nodes@, resolved@, old(connections)@[c], #[trigger] final(connections)@[c]),
        reported(old(errors)@, final(errors)@, unreachable_connections(*registry, nodes@, resolved@, old(connections)@)),
{
    let ghost original = errors@;
    let ghost start = connections@;
    proof {
        crate::instances::lemma_reported_none(original);
        assert(start.subrange(0, 0) =~= Seq::<Connection>::empty());
    }
    let mut c: usize = 0;
    while c < connections.len()
        invariant
            registry.wf(),
            c <= connections.len(),
            connections@.len() == start.len(),
            start == old(connections)@,
            original == old(errors)@,
            forall|m: int| 0 <= m < c ==> rebuilt_connection(*registry, nodes@, resolved@, start[m], #[trigger] connections@[m]),
            forall|m: int| c <= m < connections@.len() ==> #[trigger] connections@[m] == start[m],
            reported(original, errors@, unreachable_connections(*registry, nodes@, resolved@, start.subrange(0, c as int))),
            forall|m: int| 0 <= m < connections@.len() ==> {
                &&& (#[trigger] connections@[m]).from == start[m].from
                &&& connections@[m].from_port@ == start[m].from_port@
                &&& connections@[m].to == start[m].to
                &&& connections@[m].to_port@ == start[m].to_port@
            },
            errors@.len() >= original.len(),
            errors@.subrange(0, original.len() as int) == original,
        decreases connections.len() - c,
    {
        proof {
            assert(start.subrange(0, c + 1).drop_last() =~= start.subrange(0, c as int));
            assert(connections@[c as int] == start[c as int]);
        }
        let from = connections[c].from;
        let to = connections[c].to;
        let output = family_of_port(nodes, registry, from, connections[c].from_port.as_str(), true);
        let input = family_of_port(nodes, registry, to, connections[c].to_port.as_str(), false);
        match (output, input) {
            (Some(output), Some(input)) => {
                if output.family.is_some() || input.family.is_some() {
                    let from_types = offered_types(&output, from, resolved);
                    let to_types = offered_types(&input, to, resolved);
                    match resolve_types(&from_types, &to_types, registry) {
                        Some((resolved_type, conversion)) => {
                            let rebuilt = Connection {
                                from,
                                from_port: connections[c].from_port.clone(),
                                to,
                                to_port: connections[c].to_port.clone(),
                                resolved_type,
                                conversion,
                            };
                            let ghost before = connections@;
                            connections.set(c, rebuilt);
                            assert forall|m: int| 0 <= m < connections@.len() implies {
                                &&& (#[trigger] connections@[m]).from == start[m].from
                                &&& connections@[m].from_port@ == start[m].from_port@
                                &&& connections@[m].to == start[m].to
                                &&& connections@[m].to_port@ == start[m].to_port@
                            } by {
                                if m != c {
                                    assert(connections@[m] == before[m]);
                                }
                            }
                            assert(rebuilt_connection(*registry, nodes@, resolved@, start[c as int], connections@[c as int]));
                            assert forall|m: int| 0 <= m < c + 1 implies rebuilt_connection(*registry, nodes@, resolved@, start[m], #[trigger] connections@[m]) by {
                                if m < c {
                                    assert(connections@[m] == before[m]);
                                }
                            }
                            assert forall|m: int| c + 1 <= m < connections@.len() implies #[trigger] connections@[m] == start[m] by {
                                assert(connections@[m] == before[m]);
                            }
                        },
                        None => {
                            let from_name = endpoint_text(registry, nodes, from);
                            let to_name = endpoint_text(registry, nodes, to);
                            let message = unreachable_family(&from_name, &connections[c].from_port, &to_name, &connections[c].to_port);
                            let mut marks: Vec<u128> = Vec::new();
                            marks.push(from);
                            marks.push(to);
                            let ghost before = errors@;
                            errors.push(Problem { message, nodes: marks });
                            assert(errors@.subrange(0, original.len() as int) =~= before.subrange(0, original.len() as int));
                            proof {
                                assert(marks@ =~= seq![from, to]);
                                crate::instances::lemma_reported_push(original, before,
                                    unreachable_connections(*registry, nodes@, resolved@, start.subrange(0, c as int)),
                                    errors@.last(),
                                    (errors@.last().message@, seq![from, to]));
                            }
                        },
                    }
                }
            },
            _ => {},
        }
        c = c + 1;
    }
    assert(start.subrange(0, start.len() as int) =~= start);
}

/// The input ports of node `uuid` the wiring feeds, in the order first fed.
fn fed_inputs(fed: &Vec<Feed>, uuid: u128) -> (inputs: Vec<String>)
    ensures
        forall|p: Seq<char>| crate::text::has_name(inputs@, p) <==> fed_has(fed@, uuid, p),
{
    let mut inputs: Vec<String> = Vec::new();
    let mut j: usize = 0;
    while j < fed.len()
        invariant
            j <= fed.len(),
            forall|p: Seq<char>| crate::text::has_name(inputs@, p) <==> fed_has(fed@.subrange(0, j as int), uuid, p),
        decreases fed.len() - j,
    {
        let ghost prior = inputs@;
        proof {
            assert forall|p: Seq<char>| fed_has(fed@.subrange(0, j + 1), uuid, p)
                <==> (fed_has(fed@.subrange(0, j as int), uuid, p) || (fed@[j as int].to == uuid && fed@[j as int].input@ == p)) by {
                let pre = fed@.subrange(0, j as int);
                let next = fed@.subrange(0, j + 1);
                if fed_has(next, uuid, p) {
                    let m = choose|m: int| 0 <= m < next.len() && (#[trigger] next[m]).to == uuid && next[m].input@ == p;
                    if m < j {
                        assert(pre[m] == next[m]);
                    }
                }
                if fed_has(pre, uuid, p) {
                    let m = choose|m: int| 0 <= m < pre.len() && (#[trigger] pre[m]).to == uuid && pre[m].input@ == p;
                    assert(next[m] == pre[m]);
                }
                if fed@[j as int].to == uuid && fed@[j as int].input@ == p {
                    assert(next[j as int] == fed@[j as int]);
                }
            }
        }
        if fed[j].to == uuid {
            inputs.push(fed[j].input.clone());
            proof {
                assert forall|p: Seq<char>| crate::text::has_name(inputs@, p) <==> (crate::text::has_name(prior, p) || fed@[j as int].input@ == p) by {
                    if crate::text::has_name(inputs@, p) {
                        let m = choose|m: int| 0 <= m < inputs@.len() && #[trigger] inputs@[m]@ == p;
                        if m < prior.len() {
                            assert(prior[m] == inputs@[m]);
                        }
                    }
                    if crate::text::has_name(prior, p) {
                        let m = choose|m: int| 0 <= m < prior.len() && #[trigger] prior[m]@ == p;
                        assert(inputs@[m] == prior[m]);
                    }
                    if fed@[j as int].input@ == p {
                        assert(inputs@[prior.len() as int]@ == p);
                    }
                }
            }
        }
        assert forall|p: Seq<char>| crate::text::has_name(inputs@, p) <==> fed_has(fed@.subrange(0, j + 1), uuid, p) by {
            assert(crate::text::has_name(prior, p) <==> fed_has(fed@.subrange(0, j as int), uuid, p));
        }
        j = j + 1;
    }
    assert(fed@.subrange(0, fed.len() as int) =~= fed@);
    inputs
}


/// The label a compiled node runs under: the instance's own, else the
/// type's default.
pub open spec fn run_label(instance: NodeInstance, t: NodeType) -> Seq<char> {
    match instance.label {
        Some(label) => label@,
        None => t.label@,
    }
}

/// The compiled parameters every entry for `uuid` holds, in order.
pub open spec fn own_parameters(compiled: Seq<InstanceParameters>, uuid: u128) -> Seq<(String, CompiledParameter)>
    decreases compiled.len(),
{
    if compiled.len() == 0 {
        Seq::empty()
    } else {
        let rest = own_parameters(compiled.drop_last(), uuid);
        if compiled.last().uuid == uuid { rest + compiled.last().parameters@ } else { rest }
    }
}

/// The parameters with each fitted family literal of `uuid` set, in order.
pub open spec fn fitted_into(parameters: Seq<(String, CompiledParameter)>, fitted: Seq<(u128, String, CompiledParameter)>, uuid: u128)
    -> Seq<(String, CompiledParameter)>
    decreases fitted.len(),
{
    if fitted.len() == 0 {
        parameters
    } else {
        let rest = fitted_into(parameters, fitted.drop_last(), uuid);
        if fitted.last().0 == uuid { crate::parameters::set_in(rest, fitted.last().1, fitted.last().2) } else { rest }
    }
}

/// The compiled parameters of one instance: its own, then its fitted
/// family literals.
fn parameters_for(compiled: &Vec<InstanceParameters>, fitted: &Vec<(u128, String, CompiledParameter)>, uuid: u128) -> (parameters: Vec<(String, CompiledParameter)>)
    ensures
        parameters@ == fitted_into(own_parameters(compiled@, uuid), fitted@, uuid),
{
    let mut parameters: Vec<(String, CompiledParameter)> = Vec::new();
    let mut j: usize = 0;
    while j < compiled.len()
        invariant
            j <= compiled.len(),
            parameters@ == own_parameters(compiled@.subrange(0, j as int), uuid),
        decreases compiled.len() - j,
    {
        let ghost upto = compiled@.subrange(0, j + 1);
        assert(upto.drop_last() =~= compiled@.subrange(0, j as int));
        assert(upto.last() == compiled@[j as int]);
        if compiled[j].uuid == uuid {
            let own = &compiled[j].parameters;
            let ghost start = parameters@;
            let mut k: usize = 0;
            while k < own.len()
                invariant
                    k <= own@.len(),
                    parameters@ == start + own@.subrange(0, k as int),
                decreases own.len() - k,
            {
                parameters.push((own[k].0.clone(), own[k].1.copy()));
                assert(parameters@ =~= start + own@.subrange(0, k + 1));
                k = k + 1;
            }
            assert(own@.subrange(0, own@.len() as int) =~= own@);
        }
        j = j + 1;
    }
    assert(compiled@.subrange(0, compiled@.len() as int) =~= compiled@);
    let ghost own_part = parameters@;
    let mut f: usize = 0;
    while f < fitted.len()
        invariant
            f <= fitted.len(),
            parameters@ == fitted_into(own_part, fitted@.subrange(0, f as int), uuid),
        decreases fitted.len() - f,
    {
        let ghost upto = fitted@.subrange(0, f + 1);
        assert(upto.drop_last() =~= fitted@.subrange(0, f as int));
        assert(upto.last() == fitted@[f as int]);
        if fitted[f].0 == uuid {
            set_parameter(&mut parameters, fitted[f].1.clone(), fitted[f].2.copy());
        }
        f = f + 1;
    }
    assert(fitted@.subrange(0, fitted@.len() as int) =~= fitted@);
    parameters
}

/// The resolved families of `uuid`, with their members, in order.
pub open spec fn families_in(resolved: Seq<FamilyMember>, uuid: u128) -> Seq<(String, Resolved)>
    decreases resolved.len(),
{
    if resolved.len() == 0 {
        Seq::empty()
    } else {
        let rest = families_in(resolved.drop_last(), uuid);
        if resolved.last().node == uuid { rest.push((resolved.last().family, resolved.last().member)) } else { rest }
    }
}

/// The families of one instance that resolved, with their members.
fn families_for(resolved: &Vec<FamilyMember>, uuid: u128) -> (families: Vec<(String, Resolved)>)
    ensures
        families@ == families_in(resolved@, uuid),
{
    let mut families: Vec<(String, Resolved)> = Vec::new();
    let mut j: usize = 0;
    while j < resolved.len()
        invariant
            j <= resolved.len(),
            families@ == families_in(resolved@.subrange(0, j as int), uuid),
        decreases resolved.len() - j,
    {
        let ghost upto = resolved@.subrange(0, j + 1);
        assert(upto.drop_last() =~= resolved@.subrange(0, j as int));
        assert(upto.last() == resolved@[j as int]);
        if resolved[j].node == uuid {
            families.push((resolved[j].family.clone(), resolved[j].member.copy()));
        }
        j = j + 1;
    }
    assert(resolved@.subrange(0, resolved@.len() as int) =~= resolved@);
    families
}

/// Build the compiled node of every typed instance, in table order, and
/// run each type's own compile-time check on it, reporting what it finds.
fn build_nodes<F: Fn(&CompiledNode) -> Vec<String>>(
    nodes: &Vec<NodeInstance>,
    table: &Vec<u128>,
    fed: &Vec<Feed>,
    compiled: &Vec<InstanceParameters>,
    fitted: &Vec<(u128, String, CompiledParameter)>,
    resolved: &Vec<FamilyMember>,
    registry: &Registry,
    errors: &mut Vec<Problem>,
    check: &F,
) -> (built: Vec<(u128, CompiledNode)>)
    requires
        registry.wf(),
        forall|node: &CompiledNode| check.requires((node,)),
    ensures
        final(errors)@.len() >= old(errors)@.len(),
        final(errors)@.subrange(0, old(errors)@.len() as int) == old(errors)@,
        checks_pass(*check) ==> final(errors)@ == old(errors)@,
        (forall|i: int| 0 <= i < table@.len() ==> typed(*registry, nodes@, #[trigger] table@[i]) is Some) ==> {
            &&& built@.len() == table@.len()
            &&& forall|i: int| 0 <= i < table@.len() ==> (#[trigger] built@[i]).0 == table@[i]
                && built@[i].1.type_ref@ == typed(*registry, nodes@, table@[i]).unwrap().type_ref@
                && built@[i].1.label@ == run_label(instance_with(nodes@, table@[i]), typed(*registry, nodes@, table@[i]).unwrap())
                && forall|p: Seq<char>| crate::text::has_name(built@[i].1.fed@, p) <==> fed_has(fed@, table@[i], p)
            &&& forall|i: int| 0 <= i < table@.len() ==>
                (#[trigger] built@[i]).1.parameters@ == fitted_into(own_parameters(compiled@, table@[i]), fitted@, table@[i])
                && built@[i].1.families@ == families_in(resolved@, table@[i])
        },
{
    let ghost original = errors@;
    let mut built: Vec<(u128, CompiledNode)> = Vec::new();
    let mut i: usize = 0;
    while i < table.len()
        invariant
            registry.wf(),
            forall|node: &CompiledNode| check.requires((node,)),
            i <= table.len(),
            original == old(errors)@,
            checks_pass(*check) ==> errors@ == original,
            errors@.len() >= original.len(),
            errors@.subrange(0, original.len() as int) == original,
            (forall|m: int| 0 <= m < table@.len() ==> typed(*registry, nodes@, #[trigger] table@[m]) is Some) ==> {
                &&& built@.len() == i
                &&& forall|m: int| 0 <= m < i ==> (#[trigger] built@[m]).0 == table@[m]
                    && built@[m].1.type_ref@ == typed(*registry, nodes@, table@[m]).unwrap().type_ref@
                    && built@[m].1.label@ == run_label(instance_with(nodes@, table@[m]), typed(*registry, nodes@, table@[m]).unwrap())
                    && forall|p: Seq<char>| crate::text::has_name(built@[m].1.fed@, p) <==> fed_has(fed@, table@[m], p)
                &&& forall|m: int| 0 <= m < i ==>
                    (#[trigger] built@[m]).1.parameters@ == fitted_into(own_parameters(compiled@, table@[m]), fitted@, table@[m])
                    && built@[m].1.families@ == families_in(resolved@, table@[m])
            },
        decreases table.len() - i,
    {
        let uuid = table[i];
        let ghost before_built = built@;
        match instance_of(nodes, uuid) {
            Some(instance) => {
                match type_label(registry, instance) {
                    Some(t) => {
                        let label = match &instance.label {
                            Some(label) => label.clone(),
                            None => t.label.clone(),
                        };
                        let node = CompiledNode {
                            type_ref: t.type_ref.clone(),
                            label,
                            parameters: parameters_for(compiled, fitted, uuid),
                            families: families_for(resolved, uuid),
                            fed: fed_inputs(fed, uuid),
                        };
                        if t.check_parameters {
                            let found = check(&node);
                            let name = name_of(registry, instance);
                            let mut m: usize = 0;
                            proof {
                                if checks_pass(*check) {
                                    assert(check.ensures((&node,), found));
                                }
                            }
                            while m < found.len()
                                invariant
                                    errors@.len() >= original.len(),
                                    errors@.subrange(0, original.len() as int) == original,
                                    checks_pass(*check) ==> errors@ == original && found@.len() == 0,
                                decreases found.len() - m,
                            {
                                let mut message = "node ".to_owned();
                                message.append(name.as_str());
                                message.append(" (");
                                let id = crate::ids::uuid_text(uuid);
                                message.append(id.as_str());
                                message.append("): ");
                                message.append(found[m].as_str());
                                let ghost before = errors@;
                                errors.push(problem(message, uuid));
                                assert(errors@.subrange(0, original.len() as int) =~= before.subrange(0, original.len() as int));
                                m = m + 1;
                            }
                        }
                        built.push((uuid, node));
                        proof {
                            if forall|m: int| 0 <= m < table@.len() ==> typed(*registry, nodes@, #[trigger] table@[m]) is Some {
                                assert forall|m: int| 0 <= m < i implies built@[m] == before_built[m] by {}
                            }
                        }
                    },
                    None => {
                        proof {
                            assert(typed(*registry, nodes@, table@[i as int]) is None);
                        }
                    },
                }
            },
            None => {
                proof {
                    assert(typed(*registry, nodes@, table@[i as int]) is None);
                }
            },
        }
        i = i + 1;
    }
    built
}


/// What one parameter of an instance must be for the instance to compile:
/// naming an input the wiring leaves unfed, with a literal its declared
/// union takes (or a family input, whose literal waits for its family), or
/// naming a declared choice, holding one of its options.
pub open spec fn parameter_ok(registry: Registry, nodes: Seq<NodeInstance>, edges: Seq<Edge>, t: NodeType, uuid: u128, name: Seq<char>, literal: ParameterValue) -> bool {
    match port_named(t.inputs@, name) {
        Some(input) => {
            &&& !is_fed(registry, nodes, edges, uuid, input.name@)
            &&& (input.family is Some || literal_resolution(registry, literal, input.type_refs@) is Some)
        },
        None => match choice_named(t.choices@, name) {
            Some(choice) => literal matches ParameterValue::Str(text) && has_name(choice.options@, text@),
            None => false,
        },
    }
}

/// An instance of a declared type whose parameters are all in order and
/// whose every declared choice holds a value.
pub open spec fn node_ok(registry: Registry, nodes: Seq<NodeInstance>, edges: Seq<Edge>, instance: NodeInstance) -> bool {
    match type_of(registry, instance) {
        Some(t) => {
            &&& forall|k: int| 0 <= k < instance.parameters@.len() ==>
                parameter_ok(registry, nodes, edges, t, instance.uuid, (#[trigger] instance.parameters@[k]).0@, instance.parameters@[k].1)
            &&& forall|c: int| 0 <= c < t.choices@.len() ==> has_parameter(instance.parameters@, (#[trigger] t.choices@[c]).name@)
        },
        None => false,
    }
}

/// A definition that passes the compiler's checks on instances, edges and
/// parameters: every type declared, every uuid its own, every edge landing
/// on declared ports with a type that resolves, no input fed twice, and
/// every node's parameters in order.
pub open spec fn definition_sound(registry: Registry, nodes: Seq<NodeInstance>, edges: Seq<Edge>) -> bool {
    &&& instances_sound(nodes, registry)
    &&& edges_sound(registry, nodes, edges)
    &&& forall|k: int| 0 <= k < nodes.len() ==> node_ok(registry, nodes, edges, #[trigger] nodes[k])
}

/// The compiled nodes are the table's instances, each under its type and
/// run label, fed exactly where the wiring feeds it.
pub open spec fn nodes_compiled(registry: Registry, nodes: Seq<NodeInstance>, edges: Seq<Edge>, table: Seq<u128>, built: Seq<(u128, CompiledNode)>) -> bool {
    &&& built.len() == table.len()
    &&& forall|i: int| 0 <= i < table.len() ==> (#[trigger] built[i]).0 == table[i]
        && built[i].1.type_ref@ == typed(registry, nodes, table[i]).unwrap().type_ref@
        && built[i].1.label@ == run_label(instance_with(nodes, table[i]), typed(registry, nodes, table[i]).unwrap())
        && forall|p: Seq<char>| crate::text::has_name(built[i].1.fed@, p) <==> is_fed(registry, nodes, edges, table[i], p)
}

/// Each compiled node holds exactly its instance's compiled parameters,
/// with the inputs the wiring feeds left out, and no family.
pub open spec fn parameters_compiled(registry: Registry, nodes: Seq<NodeInstance>, edges: Seq<Edge>, table: Seq<u128>, built: Seq<(u128, CompiledNode)>) -> bool {
    forall|i: int| 0 <= i < table.len() ==>
        (#[trigger] built[i]).1.parameters@ == crate::parameters::compiled_parameters(registry, typed(registry, nodes, table[i]).unwrap(),
            fed_at(registry, nodes, edges, table[i]), instance_with(nodes, table[i]).parameters@)
        && built[i].1.families@.len() == 0
}

proof fn lemma_nodes_ok(registry: Registry, nodes: Seq<NodeInstance>, edges: Seq<Edge>, fed: Seq<Feed>, table: Seq<u128>)
    requires
        instances_sound(nodes, registry),
        instance_table(nodes, table),
        parameters_sound(registry, nodes, fed, table),
        forall|u: u128, p: Seq<char>| fed_has(fed, u, p) <==> is_fed(registry, nodes, edges, u, p),
    ensures
        forall|k: int| 0 <= k < nodes.len() ==> node_ok(registry, nodes, edges, #[trigger] nodes[k]),
{
    assert forall|k: int| 0 <= k < nodes.len() implies node_ok(registry, nodes, edges, #[trigger] nodes[k]) by {
        let uuid = nodes[k].uuid;
        assert(carried(nodes, uuid));
        assert(table.contains(uuid));
        let i = choose|i: int| 0 <= i < table.len() && table[i] == uuid;
        assert(first_with(nodes, uuid, k));
        lemma_first_with(nodes, uuid, k);
        let t = type_of(registry, nodes[k]).unwrap();
        assert(typed(registry, nodes, table[i]) == Some(t));
        assert(instance_parameters_sound(registry, t, fed, nodes[k]));
        assert forall|m: int| 0 <= m < nodes[k].parameters@.len() implies
            parameter_ok(registry, nodes, edges, t, nodes[k].uuid, (#[trigger] nodes[k].parameters@[m]).0@, nodes[k].parameters@[m].1) by {
            assert(parameter_sound(registry, t, fed, nodes[k].uuid, nodes[k].parameters@[m].0@, nodes[k].parameters@[m].1));
            match port_named(t.inputs@, nodes[k].parameters@[m].0@) {
                Some(input) => {
                    assert(fed_has(fed, uuid, input.name@) <==> is_fed(registry, nodes, edges, uuid, input.name@));
                },
                None => {},
            }
        }
    }
}

/// Every check a node type runs finds nothing.
pub open spec fn checks_pass<F: Fn(&CompiledNode) -> Vec<String>>(check: F) -> bool {
    forall|node: &CompiledNode, found: Vec<String>| #[trigger] check.ensures((node,), found) ==> found@.len() == 0
}

proof fn lemma_no_literals(registry: Registry, nodes: Seq<NodeInstance>, compiled: Seq<InstanceParameters>)
    requires
        crate::families::family_free(registry, nodes),
        forall|j: int| 0 <= j < compiled.len() ==> match typed(registry, nodes, (#[trigger] compiled[j]).uuid) {
            Some(t) => forall|m: int| 0 <= m < compiled[j].literals@.len() ==>
                crate::parameters::family_input(t.inputs@, (#[trigger] compiled[j].literals@[m]).input@, compiled[j].literals@[m].family@),
            None => false,
        },
    ensures
        pending_literals(compiled).len() == 0,
    decreases compiled.len(),
{
    if compiled.len() > 0 {
        assert forall|j: int| 0 <= j < compiled.drop_last().len() implies match typed(registry, nodes, (#[trigger] compiled.drop_last()[j]).uuid) {
            Some(t) => forall|m: int| 0 <= m < compiled.drop_last()[j].literals@.len() ==>
                crate::parameters::family_input(t.inputs@, (#[trigger] compiled.drop_last()[j].literals@[m]).input@, compiled.drop_last()[j].literals@[m].family@),
            None => false,
        } by {
            assert(compiled.drop_last()[j] == compiled[j]);
        }
        lemma_no_literals(registry, nodes, compiled.drop_last());
        let last = compiled[compiled.len() - 1];
        if last.literals@.len() > 0 {
            let t = typed(registry, nodes, last.uuid).unwrap();
            crate::families::lemma_typed_family_free(registry, nodes, last.uuid);
            let literal = last.literals@[0];
            assert(crate::parameters::family_input(t.inputs@, literal.input@, literal.family@));
            crate::model::lemma_port_index(t.inputs@, literal.input@);
            let idx = crate::model::port_index(t.inputs@, literal.input@);
            assert(crate::families::all_ports(t)[idx] == t.inputs@[idx]);
            assert(false);
        }
    }
}

proof fn lemma_no_unreachable(registry: Registry, nodes: Seq<NodeInstance>, resolved: Seq<FamilyMember>, connections: Seq<Connection>)
    requires
        crate::families::family_free(registry, nodes),
    ensures
        unreachable_connections(registry, nodes, resolved, connections).len() == 0,
    decreases connections.len(),
{
    if connections.len() > 0 {
        lemma_no_unreachable(registry, nodes, resolved, connections.drop_last());
        let c = connections.last();
        match (typed(registry, nodes, c.from), typed(registry, nodes, c.to)) {
            (Some(f), Some(tt)) => {
                crate::families::lemma_typed_family_free(registry, nodes, c.from);
                crate::families::lemma_typed_family_free(registry, nodes, c.to);
                crate::model::lemma_port_index(f.outputs@, c.from_port@);
                crate::model::lemma_port_index(tt.inputs@, c.to_port@);
                let oi = crate::model::port_index(f.outputs@, c.from_port@);
                let ii = crate::model::port_index(tt.inputs@, c.to_port@);
                if oi < f.outputs@.len() {
                    assert(crate::families::all_ports(f)[f.inputs@.len() + oi] == f.outputs@[oi]);
                }
                if ii < tt.inputs@.len() {
                    assert(crate::families::all_ports(tt)[ii] == tt.inputs@[ii]);
                }
                assert(family_ends(registry, nodes, c) is None);
            },
            _ => {},
        }
    }
}

/// A sound definition's parameters compile soundly against its wiring.
proof fn lemma_parameters_sound(registry: Registry, nodes: Seq<NodeInstance>, edges: Seq<Edge>, fed: Seq<Feed>, table: Seq<u128>)
    requires
        definition_sound(registry, nodes, edges),
        instance_table(nodes, table),
        forall|u: u128, p: Seq<char>| fed_has(fed, u, p) <==> is_fed(registry, nodes, edges, u, p),
    ensures
        crate::parameters::parameters_sound(registry, nodes, fed, table),
{
    assert forall|i: int| 0 <= i < table.len() implies match typed(registry, nodes, #[trigger] table[i]) {
        Some(t) => crate::parameters::instance_parameters_sound(registry, t, fed, instance_with(nodes, table[i])),
        None => true,
    } by {
        let uuid = table[i];
        assert(table.contains(uuid));
        if typed(registry, nodes, uuid) is Some {
            let t = typed(registry, nodes, uuid).unwrap();
            let k = choose|k: int| 0 <= k < nodes.len() && #[trigger] nodes[k].uuid == uuid;
            lemma_carried(nodes, uuid, k);
            let f = choose|f: int| 0 <= f < nodes.len() && instance_with(nodes, uuid) == #[trigger] nodes[f];
            let instance = nodes[f];
            assert(node_ok(registry, nodes, edges, instance));
            assert(instance.uuid == uuid);
            assert forall|m: int| 0 <= m < instance.parameters@.len() implies
                crate::parameters::parameter_sound(registry, t, fed, instance.uuid, (#[trigger] instance.parameters@[m]).0@, instance.parameters@[m].1) by {
                assert(parameter_ok(registry, nodes, edges, t, instance.uuid, instance.parameters@[m].0@, instance.parameters@[m].1));
                match port_named(t.inputs@, instance.parameters@[m].0@) {
                    Some(input) => {
                        assert(fed_has(fed, uuid, input.name@) <==> is_fed(registry, nodes, edges, uuid, input.name@));
                    },
                    None => {},
                }
            }
        }
    }
}

/// The problem at `k` names the cycle along `walk` and marks its nodes.
pub open spec fn cycle_at(registry: Registry, nodes: Seq<NodeInstance>, problems: Seq<Problem>, k: int, walk: Seq<u128>) -> bool {
    &&& 0 <= k < problems.len()
    &&& problems[k].message@ == cycle_text(registry, nodes, walk)
    &&& problems[k].nodes@ == collapsed(walk)
}

/// The family literal the node `uuid` holds on input `input`, fed where
/// the edges feed it.
pub open spec fn node_literal(registry: Registry, nodes: Seq<NodeInstance>, edges: Seq<Edge>, uuid: u128, input: Seq<char>)
    -> Option<crate::parameters::FamilyLiteral> {
    match typed(registry, nodes, uuid) {
        Some(t) => crate::families::literal_held(crate::parameters::family_literal_list(t, fed_at(registry, nodes, edges, uuid),
            instance_with(nodes, uuid).parameters@), input),
        None => None,
    }
}

/// The sources a family of `uuid` draws from the literals the node holds
/// on the family's input ports, in port order.
pub open spec fn held_sources(registry: Registry, nodes: Seq<NodeInstance>, edges: Seq<Edge>, uuid: u128, ports: Seq<Port>, inputs: Seq<Port>)
    -> Seq<crate::families::FamilySource>
    decreases ports.len(),
{
    if ports.len() == 0 {
        Seq::empty()
    } else {
        let rest = held_sources(registry, nodes, edges, uuid, ports.drop_last(), inputs);
        let p = ports.last();
        if port_named(inputs, p.name@) is Some {
            match node_literal(registry, nodes, edges, uuid, p.name@) {
                Some(l) => rest.push(crate::families::FamilySource::Literal(l.input, l.literal)),
                None => rest,
            }
        } else {
            rest
        }
    }
}

/// How the family `family` of node `uuid`, with the members its ports
/// declare, resolves from the literals the node holds.
pub open spec fn family_of(registry: Registry, nodes: Seq<NodeInstance>, edges: Seq<Edge>, uuid: u128, family: Seq<char>, members: Seq<String>)
    -> crate::families::FamilyResolution {
    let t = typed(registry, nodes, uuid).unwrap();
    crate::families::family_resolution(registry,
        held_sources(registry, nodes, edges, uuid, crate::families::family_ports(crate::families::all_ports(t), family), t.inputs@), members)
}

/// Every family the instances declare belongs to a node nothing feeds and
/// resolves from the literals it holds.
pub open spec fn families_settled(registry: Registry, nodes: Seq<NodeInstance>, edges: Seq<Edge>, table: Seq<u128>) -> bool {
    let shapes = crate::families::gathered(registry, nodes, table).0;
    forall|s: int| 0 <= s < shapes.len() ==> (forall|p: Seq<char>| !is_fed(registry, nodes, edges, (#[trigger] shapes[s]).0, p))
        && family_of(registry, nodes, edges, shapes[s].0, shapes[s].1, shapes[s].2) is Resolved
}

/// The resolution `entry` carries is that of a family of node `uuid`.
pub open spec fn family_entry_ok(registry: Registry, nodes: Seq<NodeInstance>, edges: Seq<Edge>, table: Seq<u128>, uuid: u128,
    entry: (String, Resolved)) -> bool {
    exists|s: int| #![trigger crate::families::gathered(registry, nodes, table).0[s]]
        0 <= s < crate::families::gathered(registry, nodes, table).0.len()
        && crate::families::gathered(registry, nodes, table).0[s].0 == uuid
        && crate::families::gathered(registry, nodes, table).0[s].1 == entry.0@
        && family_of(registry, nodes, edges, uuid, crate::families::gathered(registry, nodes, table).0[s].1,
            crate::families::gathered(registry, nodes, table).0[s].2) == FamilyResolution::Resolved(entry.1)
}

/// The compiled node carries a resolution for the family `family`.
pub open spec fn family_carried(node: CompiledNode, family: Seq<char>) -> bool {
    exists|k: int| 0 <= k < node.families@.len() && (#[trigger] node.families@[k]).0@ == family
}

/// Each compiled node carries a resolution for each of its families, and
/// each resolution it carries is its family's.
pub open spec fn families_compiled(registry: Registry, nodes: Seq<NodeInstance>, edges: Seq<Edge>, table: Seq<u128>,
    built: Seq<(u128, CompiledNode)>) -> bool {
    &&& forall|i: int, k: int| 0 <= i < table.len() && 0 <= k < built[i].1.families@.len()
        ==> family_entry_ok(registry, nodes, edges, table, table[i], #[trigger] built[i].1.families@[k])
    &&& forall|s: int, i: int| 0 <= s < crate::families::gathered(registry, nodes, table).0.len() && 0 <= i < table.len()
        && #[trigger] table[i] == (#[trigger] crate::families::gathered(registry, nodes, table).0[s]).0
        ==> family_carried(built[i].1, crate::families::gathered(registry, nodes, table).0[s].1)
}

proof fn lemma_sources_agree(registry: Registry, nodes: Seq<NodeInstance>, edges: Seq<Edge>, compiled: Seq<InstanceParameters>,
    fed: Seq<Feed>, table: Seq<u128>, uuid: u128, ports: Seq<Port>, inputs: Seq<Port>)
    requires
        table.contains(uuid),
        forall|u: u128, x: Seq<char>| #[trigger] crate::families::instance_literal(compiled, u, x)
            == if table.contains(u) { crate::parameters::held_literal(registry, nodes, fed, u, x) } else { None },
        (|p: Seq<char>| fed_has(fed, uuid, p)) == fed_at(registry, nodes, edges, uuid),
    ensures
        crate::families::literal_sources(compiled, uuid, ports, inputs) == held_sources(registry, nodes, edges, uuid, ports, inputs),
        crate::families::no_deferred(held_sources(registry, nodes, edges, uuid, ports, inputs)),
    decreases ports.len(),
{
    if ports.len() > 0 {
        lemma_sources_agree(registry, nodes, edges, compiled, fed, table, uuid, ports.drop_last(), inputs);
        let x = ports.last().name@;
        assert(crate::families::instance_literal(compiled, uuid, x) == node_literal(registry, nodes, edges, uuid, x));
        let rest = held_sources(registry, nodes, edges, uuid, ports.drop_last(), inputs);
        assert forall|k: int| 0 <= k < held_sources(registry, nodes, edges, uuid, ports, inputs).len()
            implies !(#[trigger] held_sources(registry, nodes, edges, uuid, ports, inputs)[k] is Deferred) by {
            if k < rest.len() {
                assert(held_sources(registry, nodes, edges, uuid, ports, inputs)[k] == rest[k]);
            }
        }
    }
}

/// Each family an instance's resolutions list names is one resolved for
/// it.
proof fn lemma_family_entry(resolved: Seq<FamilyMember>, uuid: u128, k: int) -> (r: int)
    requires
        0 <= k < families_in(resolved, uuid).len(),
    ensures
        0 <= r < resolved.len(),
        resolved[r].node == uuid,
        resolved[r].family == families_in(resolved, uuid)[k].0,
        resolved[r].member == families_in(resolved, uuid)[k].1,
    decreases resolved.len(),
{
    let before = resolved.drop_last();
    let rest = families_in(before, uuid);
    if k < rest.len() {
        let r = lemma_family_entry(before, uuid, k);
        assert(resolved[r] == before[r]);
        r
    } else {
        resolved.len() - 1
    }
}

/// Each family resolved for an instance is on its resolutions list.
proof fn lemma_family_listed(resolved: Seq<FamilyMember>, uuid: u128, r: int) -> (k: int)
    requires
        0 <= r < resolved.len(),
        resolved[r].node == uuid,
    ensures
        0 <= k < families_in(resolved, uuid).len(),
        families_in(resolved, uuid)[k].0 == resolved[r].family,
    decreases resolved.len(),
{
    let before = resolved.drop_last();
    if r < before.len() {
        assert(before[r] == resolved[r]);
        lemma_family_listed(before, uuid, r)
    } else {
        families_in(resolved, uuid).len() - 1
    }
}

/// Where every family resolves from the literals of a node nothing feeds,
/// the jobs resolve, and each compiled node carries its families' members.
#[verifier::spinoff_prover]
#[verifier::rlimit(100)]
proof fn lemma_families_compiled(registry: Registry, nodes: Seq<NodeInstance>, edges: Seq<Edge>, table: Seq<u128>, fed: Seq<Feed>,
    compiled: Seq<InstanceParameters>, start: Seq<crate::families::FamilyJob>, jobs: Seq<crate::families::FamilyJob>,
    resolved: Seq<FamilyMember>, built: Seq<(u128, CompiledNode)>)
    requires
        instance_table(nodes, table),
        families_settled(registry, nodes, edges, table),
        forall|u: u128, p: Seq<char>| fed_has(fed, u, p) <==> is_fed(registry, nodes, edges, u, p),
        crate::parameters::literals_held(registry, nodes, fed, table, compiled),
        crate::families::jobs_shaped(start, crate::families::gathered(registry, nodes, table).0),
        crate::families::jobs_literal(registry, nodes, fed, compiled, start),
        jobs.len() == start.len(),
        forall|j: int| 0 <= j < jobs.len() ==> (#[trigger] jobs[j]).node == start[j].node
            && jobs[j].name@ == start[j].name@ && jobs[j].members@ == start[j].members@,
        crate::families::resolutions_sound(registry, jobs, resolved),
        forall|j: int| 0 <= j < start.len() && crate::families::no_deferred((#[trigger] start[j]).sources@)
            ==> jobs[j].sources@ == start[j].sources@,
        crate::families::all_resolving(registry, start)
            ==> forall|j: int| 0 <= j < jobs.len() ==> crate::families::is_resolved(resolved, (#[trigger] jobs[j]).node, jobs[j].name@),
        built.len() == table.len(),
        forall|i: int| 0 <= i < table.len() ==> (#[trigger] built[i]).1.families@ == families_in(resolved, table[i]),
    ensures
        crate::families::all_resolving(registry, start),
        families_compiled(registry, nodes, edges, table, built),
{
    // Each job draws the sources its family resolves from.
    assert forall|j: int| 0 <= j < start.len() implies {
        let t = typed(registry, nodes, (#[trigger] start[j]).node).unwrap();
        &&& start[j].sources@ == held_sources(registry, nodes, edges, start[j].node,
            crate::families::family_ports(crate::families::all_ports(t), start[j].name@), t.inputs@)
        &&& crate::families::no_deferred(start[j].sources@)
        &&& family_of(registry, nodes, edges, start[j].node, start[j].name@, start[j].members@) is Resolved
    } by {
        reveal(crate::families::jobs_literal);
        reveal(crate::parameters::literals_held);
        crate::families::lemma_gathered_nodes(registry, nodes, table);
        let u = start[j].node;
        assert(crate::families::gathered(registry, nodes, table).0[j].0 == u && crate::families::gathered(registry, nodes, table).0[j].1 == start[j].name@ && crate::families::gathered(registry, nodes, table).0[j].2 == start[j].members@);
        assert(table.contains(crate::families::gathered(registry, nodes, table).0[j].0));
        assert(forall|p: Seq<char>| !is_fed(registry, nodes, edges, crate::families::gathered(registry, nodes, table).0[j].0, p));
        assert(forall|p: Seq<char>| !fed_has(fed, u, p));
        assert(crate::families::literal_job(registry, nodes, fed, compiled, start[j]));
        let t = typed(registry, nodes, u).unwrap();
        assert((|p: Seq<char>| fed_has(fed, u, p)) =~= fed_at(registry, nodes, edges, u));
        lemma_sources_agree(registry, nodes, edges, compiled, fed, table, u,
            crate::families::family_ports(crate::families::all_ports(t), start[j].name@), t.inputs@);
    }
    assert(crate::families::all_resolving(registry, start));
    assert forall|i: int, k: int| 0 <= i < table.len() && 0 <= k < built[i].1.families@.len() implies
        family_entry_ok(registry, nodes, edges, table, table[i], #[trigger] built[i].1.families@[k]) by {
        let r = lemma_family_entry(resolved, table[i], k);
        let m = choose|m: int| 0 <= m < jobs.len()
            && (#[trigger] jobs[m]).node == resolved[r].node && jobs[m].name@ == resolved[r].family@
            && crate::families::family_resolution(registry, jobs[m].sources@, jobs[m].members@) == FamilyResolution::Resolved(resolved[r].member);
        assert(start[m].node == jobs[m].node);
        assert(jobs[m].sources@ == start[m].sources@);
        assert(crate::families::gathered(registry, nodes, table).0[m].0 == table[i]);
        assert(family_of(registry, nodes, edges, table[i], crate::families::gathered(registry, nodes, table).0[m].1,
            crate::families::gathered(registry, nodes, table).0[m].2) == FamilyResolution::Resolved(built[i].1.families@[k].1));
    }
    assert forall|s: int, i: int| 0 <= s < crate::families::gathered(registry, nodes, table).0.len() && 0 <= i < table.len() && #[trigger] table[i] == (#[trigger] crate::families::gathered(registry, nodes, table).0[s]).0
        implies family_carried(built[i].1, crate::families::gathered(registry, nodes, table).0[s].1) by {
        assert(crate::families::is_resolved(resolved, jobs[s].node, jobs[s].name@));
        let r = choose|r: int| 0 <= r < resolved.len() && (#[trigger] resolved[r]).node == jobs[s].node && resolved[r].family@ == jobs[s].name@;
        let k = lemma_family_listed(resolved, table[i], r);
        assert(built[i].1.families@[k].0 == resolved[r].family);
    }
}

/// What compiling the parameters of the table's instances reports, with
/// each input fed where the edges feed it.
pub open spec fn definition_findings(registry: Registry, nodes: Seq<NodeInstance>, edges: Seq<Edge>, table: Seq<u128>) -> Seq<(Seq<char>, Seq<u128>)> {
    crate::parameters::table_findings(registry, nodes, |u: u128, p: Seq<char>| is_fed(registry, nodes, edges, u, p), table)
}

/// From position `start` on, the problems carry the findings, in order.
pub open spec fn findings_follow(problems: Seq<Problem>, start: int, findings: Seq<(Seq<char>, Seq<u128>)>) -> bool {
    &&& problems.len() >= start + findings.len()
    &&& forall|k: int| 0 <= k < findings.len() ==> problems[start + k].message@ == (#[trigger] findings[k]).0
        && problems[start + k].nodes@ == findings[k].1
}

/// What compiling flat nodes and edges gives, after the problems already
/// found: those problems first; a graph exactly when no problem; a sound,
/// acyclic definition when nothing was added; a cycle named; the hang
/// warnings; and on a graph, the compiled nodes and the connections in
/// edge order.
pub open spec fn flat_compiled(nodes: Seq<NodeInstance>, edges: Seq<Edge>, name: Option<String>, errors: Seq<Problem>, registry: Registry,
    result: CompileResult) -> bool {
    &&& (result.errors@.len() >= errors.len())
    &&& (result.errors@.subrange(0, errors.len() as int) == errors)
    &&& (result.graph is Some <==> result.errors@.len() == 0)
    &&& (result.errors@.len() == errors.len() ==> definition_sound(registry, nodes, edges) && acyclic(nodes, edges))
    &&& (defined_cycle(nodes, edges) ==> names_a_cycle(result.errors@))
    &&& (defined_cycle(nodes, edges) ==> cycle_reported(registry, nodes, edges, result.errors@))
    &&& findings_follow(result.errors@, errors.len() as int, crate::instances::instance_findings(registry, nodes))
    &&& (exists|table: Seq<u128>| {
            &&& instance_table(nodes, table)
            &&& problems_read(result.warnings@, hang_warnings(registry, nodes, edges, table))
            &&& result.graph matches Some(graph) ==> nodes_compiled(registry, nodes, edges, table, graph.nodes@)
            &&& result.graph matches Some(graph) ==> (crate::families::family_free(registry, nodes)
                ==> parameters_compiled(registry, nodes, edges, table, graph.nodes@))
            &&& result.graph matches Some(graph) ==> (families_settled(registry, nodes, edges, table)
                ==> families_compiled(registry, nodes, edges, table, graph.nodes@))
            &&& (defined_cycle(nodes, edges) ==> first_edge_cycle(nodes, edges, table) is Some)
            &&& (first_edge_cycle(nodes, edges, table) is Some ==> cycle_at(registry, nodes, result.errors@,
                (errors.len() + crate::instances::instance_findings(registry, nodes).len()) as int, first_edge_cycle(nodes, edges, table)->0))
            &&& (instances_sound(nodes, registry) && acyclic(nodes, edges) && edges_sound(registry, nodes, edges)
                ==> findings_follow(result.errors@, errors.len() as int, definition_findings(registry, nodes, edges, table)))
            &&& exists|start: int| errors.len() + crate::instances::instance_findings(registry, nodes).len() <= start
                && #[trigger] findings_follow(result.errors@, start, definition_findings(registry, nodes, edges, table))
        })
    &&& (result.graph matches Some(graph) ==> {
            &&& graph.name == name
            &&& graph.connections@.len() == edges.len()
            &&& forall|i: int| 0 <= i < edges.len() ==> {
                &&& (#[trigger] graph.connections@[i]).from == edges[i].from
                &&& graph.connections@[i].from_port@ == edges[i].from_port@
                &&& graph.connections@[i].to == edges[i].to
                &&& graph.connections@[i].to_port@ == edges[i].to_port@
            }
        })
}

/// Compile an already-flat node and edge list: every check, type
/// resolution and family resolution the definition must pass, and the
/// compiled graph when it all holds. `errors` arrives preloaded with the
/// flattening's own; the type checks `check` runs are those node types
/// declare for their instances.
#[verifier::spinoff_prover]
#[verifier::rlimit(100)]
pub fn compile_flat<F: Fn(&CompiledNode) -> Vec<String>>(
    nodes: &Vec<NodeInstance>,
    edges: &Vec<Edge>,
    name: Option<String>,
    errors: Vec<Problem>,
    registry: &Registry,
    check: &F,
) -> (result: CompileResult)
    requires
        registry.wf(),
        registry.data_type_with_id(STRING) is Some,
        forall|node: &CompiledNode| check.requires((node,)),
    ensures
        flat_compiled(nodes@, edges@, name, errors@, *registry, result),
        definition_sound(*registry, nodes@, edges@) && acyclic(nodes@, edges@)
            && crate::families::family_free(*registry, nodes@) && checks_pass(*check) ==> result.errors@ == errors@,
{
    let ghost preloaded = errors@;
    let mut errors = errors;
    let table = index_instances(nodes, registry, &mut errors);
    let ghost after_instances = errors@;
    let found = find_cycle(nodes, edges, &table);
    let ghost none_found = found is None;
    let ghost clean = definition_sound(*registry, nodes@, edges@) && acyclic(nodes@, edges@)
        && crate::families::family_free(*registry, nodes@) && checks_pass(*check);
    proof {
        if clean {
            if found is Some {
                assert(!closed_walk(nodes@, edges@, found->0@));
            }
        }
        if defined_cycle(nodes@, edges@) && none_found {
            let walk = choose|walk: Seq<u128>| #[trigger] closed_walk(nodes@, edges@, walk)
                && forall|i: int| 0 <= i < walk.len() ==> carried(nodes@, #[trigger] walk[i]);
            let i = choose|i: int| 0 <= i < walk.len() && !table@.contains(#[trigger] walk[i]);
            assert(carried(nodes@, walk[i]));
        }
    }
    let ghost found_walk: Seq<u128> = if found is Some { found->0@ } else { Seq::empty() };
    match found {
        Some(walk) => {
            let found = cycle_problem(registry, nodes, &walk);
            errors.push(found);
            assert(errors@[after_instances.len() as int].message@ == cycle_text(*registry, nodes@, found_walk));
            assert(errors@[after_instances.len() as int].nodes@ == collapsed(found_walk));
            assert(closed_walk(nodes@, edges@, found_walk));
            assert(errors@.subrange(0, after_instances.len() as int) =~= after_instances);
        },
        None => {},
    }
    let ghost after_cycle = errors@;
    let (mut connections, fed) = wire_edges(nodes, edges, registry, &mut errors);
    let ghost wired = connections@;
    let ghost after_edges = errors@;
    let compiled = compile_parameters(nodes, &table, &fed, registry, &mut errors);
    let ghost after_parameters = errors@;
    let warnings = starvation_warnings(nodes, edges, &table, &fed, registry);
    let mut jobs = family_jobs(nodes, &table, &fed, &compiled, registry, &mut errors);
    let ghost after_jobs = errors@;
    let ghost jobs_before = jobs@;
    let resolved = resolve_families(&mut jobs, nodes, registry, &mut errors);
    let ghost after_resolve = errors@;
    let fitted = family_literals(nodes, &compiled, &resolved, registry, &mut errors);
    let ghost after_literals = errors@;
    let ghost connections_before = connections@;
    rebuild_connections(nodes, &mut connections, &resolved, registry, &mut errors);
    let ghost after_rebuild = errors@;
    let built = build_nodes(nodes, &table, &fed, &compiled, &fitted, &resolved, registry, &mut errors, check);
    proof {
        if clean {
            assert(after_instances == preloaded);
            assert(after_cycle == after_instances);
            assert(after_edges == after_cycle);
            lemma_parameters_sound(*registry, nodes@, edges@, fed@, table@);
            assert(after_parameters == after_edges);
            crate::families::lemma_gathered_empty(*registry, nodes@, table@);
            assert(after_jobs =~= after_parameters) by {
                assert(after_jobs.subrange(0, after_parameters.len() as int) == after_parameters);
            }
            assert(jobs_before.len() == 0);
            assert(after_resolve == after_jobs);
            lemma_no_literals(*registry, nodes@, compiled@);
            assert(unfit_literals(*registry, nodes@, resolved@, pending_literals(compiled@)).len() == 0);
            assert(after_literals =~= after_resolve) by {
                assert(after_literals.subrange(0, after_resolve.len() as int) == after_resolve);
            }
            lemma_no_unreachable(*registry, nodes@, resolved@, connections_before);
            assert(after_rebuild =~= after_literals) by {
                assert(after_rebuild.subrange(0, after_literals.len() as int) == after_literals);
            }
            assert(errors@ == after_rebuild);
            assert(errors@ == preloaded);
        }
        if !none_found {
            assert(cycle_message(after_cycle[after_instances.len() as int].message@));
            assert(after_instances.len() == preloaded.len() + crate::instances::instance_findings(*registry, nodes@).len());
            assert(found_walk == first_edge_cycle(nodes@, edges@, table@)->0);
            assert(errors@.subrange(0, after_cycle.len() as int) == after_cycle) by {
                assert(after_edges.subrange(0, after_cycle.len() as int) == after_cycle);
                assert(after_parameters.subrange(0, after_edges.len() as int) == after_edges);
                assert(errors@.subrange(0, after_parameters.len() as int) == after_parameters);
                assert(errors@.subrange(0, after_cycle.len() as int) =~= after_parameters.subrange(0, after_cycle.len() as int));
                assert(after_parameters.subrange(0, after_cycle.len() as int) =~= after_edges.subrange(0, after_cycle.len() as int));
            }
            assert(errors@[after_instances.len() as int] == after_cycle[after_instances.len() as int]);
            assert(names_a_cycle(errors@));
            assert(errors@[after_instances.len() as int] == after_cycle[after_instances.len() as int]);
            assert(cycle_at(*registry, nodes@, errors@, after_instances.len() as int, found_walk));
            assert(cycle_reported(*registry, nodes@, edges@, errors@)) by {
                let k = after_instances.len() as int;
                assert(errors@[k].message@ == cycle_text(*registry, nodes@, found_walk));
                assert(closed_walk(nodes@, edges@, found_walk));
            }
        }
        assert(errors@.subrange(0, after_instances.len() as int) =~= after_instances) by {
            assert(after_cycle.subrange(0, after_instances.len() as int) == after_instances);
            assert(after_edges.subrange(0, after_cycle.len() as int) == after_cycle);
            assert(after_parameters.subrange(0, after_edges.len() as int) == after_edges);
            assert(errors@.subrange(0, after_parameters.len() as int) == after_parameters);
            assert(errors@.subrange(0, after_instances.len() as int) =~= after_parameters.subrange(0, after_instances.len() as int));
            assert(after_parameters.subrange(0, after_instances.len() as int) =~= after_edges.subrange(0, after_instances.len() as int));
            assert(after_edges.subrange(0, after_instances.len() as int) =~= after_cycle.subrange(0, after_instances.len() as int));
        }
        assert forall|k: int| 0 <= k < crate::instances::instance_findings(*registry, nodes@).len() implies
            errors@[preloaded.len() + k].message@ == (#[trigger] crate::instances::instance_findings(*registry, nodes@)[k]).0
            && errors@[preloaded.len() + k].nodes@ == crate::instances::instance_findings(*registry, nodes@)[k].1 by {
            assert(errors@[preloaded.len() + k] == errors@.subrange(0, after_instances.len() as int)[preloaded.len() + k]);
        }
        let found_pars = crate::parameters::table_findings(*registry, nodes@, |u: u128, p: Seq<char>| fed_has(fed@, u, p), table@);
        assert((|u: u128, p: Seq<char>| fed_has(fed@, u, p)) =~= (|u: u128, p: Seq<char>| is_fed(*registry, nodes@, edges@, u, p))) by {
            assert forall|u: u128, p: Seq<char>| fed_has(fed@, u, p) == is_fed(*registry, nodes@, edges@, u, p) by {}
        }
        assert(errors@.subrange(0, after_parameters.len() as int) == after_parameters) by {
            assert(after_jobs.subrange(0, after_parameters.len() as int) == after_parameters);
            assert(after_resolve.subrange(0, after_jobs.len() as int) == after_jobs);
            assert(after_literals.subrange(0, after_resolve.len() as int) == after_resolve);
            assert(after_rebuild.subrange(0, after_literals.len() as int) == after_literals);
            assert(errors@.subrange(0, after_rebuild.len() as int) == after_rebuild);
            assert(errors@.subrange(0, after_parameters.len() as int) =~= after_rebuild.subrange(0, after_parameters.len() as int));
            assert(after_rebuild.subrange(0, after_parameters.len() as int) =~= after_literals.subrange(0, after_parameters.len() as int));
            assert(after_literals.subrange(0, after_parameters.len() as int) =~= after_resolve.subrange(0, after_parameters.len() as int));
            assert(after_resolve.subrange(0, after_parameters.len() as int) =~= after_jobs.subrange(0, after_parameters.len() as int));
        }
        assert(findings_follow(errors@, after_edges.len() as int, found_pars)) by {
            assert forall|k: int| 0 <= k < found_pars.len() implies
                errors@[after_edges.len() + k].message@ == (#[trigger] found_pars[k]).0
                && errors@[after_edges.len() + k].nodes@ == found_pars[k].1 by {
                assert(errors@[after_edges.len() + k] == errors@.subrange(0, after_parameters.len() as int)[after_edges.len() + k]);
            }
        }
        assert(after_edges.len() >= after_instances.len());
        assert(after_instances.len() == preloaded.len() + crate::instances::instance_findings(*registry, nodes@).len());
        assert(definition_findings(*registry, nodes@, edges@, table@) == found_pars);
        assert(exists|start: int| preloaded.len() + crate::instances::instance_findings(*registry, nodes@).len() <= start
            && #[trigger] findings_follow(errors@, start, definition_findings(*registry, nodes@, edges@, table@))) by {
            assert(findings_follow(errors@, after_edges.len() as int, definition_findings(*registry, nodes@, edges@, table@)));
        }
        if instances_sound(nodes@, *registry) && acyclic(nodes@, edges@) && edges_sound(*registry, nodes@, edges@) {
            if found is Some {
                assert(!closed_walk(nodes@, edges@, found_walk));
            }
            assert(after_instances == preloaded);
            assert(after_cycle == after_instances);
            assert(after_edges == after_cycle);
            assert forall|k: int| 0 <= k < found_pars.len() implies
                errors@[preloaded.len() + k].message@ == (#[trigger] found_pars[k]).0
                && errors@[preloaded.len() + k].nodes@ == found_pars[k].1 by {
                assert(errors@[preloaded.len() + k] == errors@.subrange(0, after_parameters.len() as int)[preloaded.len() + k]);
            }
        }
        assert(errors@.subrange(0, preloaded.len() as int) =~= preloaded) by {
            assert(after_instances.subrange(0, preloaded.len() as int) == preloaded);
            assert(after_cycle.subrange(0, after_instances.len() as int) == after_instances);
            assert(after_edges.subrange(0, after_cycle.len() as int) == after_cycle);
            assert(after_parameters.subrange(0, after_edges.len() as int) == after_edges);
            assert(errors@.subrange(0, after_parameters.len() as int) == after_parameters);
            assert(errors@.subrange(0, preloaded.len() as int) =~= after_parameters.subrange(0, preloaded.len() as int));
            assert(after_parameters.subrange(0, preloaded.len() as int) =~= after_edges.subrange(0, preloaded.len() as int));
            assert(after_edges.subrange(0, preloaded.len() as int) =~= after_cycle.subrange(0, preloaded.len() as int));
            assert(after_cycle.subrange(0, preloaded.len() as int) =~= after_instances.subrange(0, preloaded.len() as int));
        }
        if errors@.len() == preloaded.len() {
            assert(after_instances.len() == preloaded.len());
            assert(after_edges.len() == preloaded.len());
            assert(after_parameters.len() == preloaded.len());
            assert(instances_sound(nodes@, *registry));
            lemma_nodes_ok(*registry, nodes@, edges@, fed@, table@);
            assert forall|m: int| 0 <= m < table@.len() implies typed(*registry, nodes@, #[trigger] table@[m]) is Some by {
                assert(table@.contains(table@[m]));
                assert(carried(nodes@, table@[m]));
                let k = choose|k: int| 0 <= k < nodes@.len() && #[trigger] nodes@[k].uuid == table@[m];
                lemma_carried(nodes@, table@[m], k);
                let f = choose|f: int| 0 <= f < nodes@.len() && instance_with(nodes@, table@[m]) == #[trigger] nodes@[f];
                assert(type_of(*registry, nodes@[f]) is Some);
            }
            assert forall|i: int| 0 <= i < table@.len() implies (#[trigger] built@[i]).0 == table@[i]
                && built@[i].1.type_ref@ == typed(*registry, nodes@, table@[i]).unwrap().type_ref@
                && built@[i].1.label@ == run_label(instance_with(nodes@, table@[i]), typed(*registry, nodes@, table@[i]).unwrap())
                && forall|p: Seq<char>| crate::text::has_name(built@[i].1.fed@, p) <==> is_fed(*registry, nodes@, edges@, table@[i], p) by {
                assert forall|p: Seq<char>| crate::text::has_name(built@[i].1.fed@, p) <==> is_fed(*registry, nodes@, edges@, table@[i], p) by {
                    assert(fed_has(fed@, table@[i], p) <==> is_fed(*registry, nodes@, edges@, table@[i], p));
                    assert(crate::text::has_name(built@[i].1.fed@, p) <==> fed_has(fed@, table@[i], p));
                }
            }
            assert(nodes_compiled(*registry, nodes@, edges@, table@, built@));
            if families_settled(*registry, nodes@, edges@, table@) {
                lemma_families_compiled(*registry, nodes@, edges@, table@, fed@, compiled@, jobs_before, jobs@, resolved@, built@);
            }
            if crate::families::family_free(*registry, nodes@) {
                crate::families::lemma_gathered_empty(*registry, nodes@, table@);
                assert(jobs_before.len() == 0);
                if resolved@.len() > 0 {
                    assert(members_declared(jobs@, resolved@));
                    let r = 0int;
                    assert(exists|j: int| 0 <= j < jobs@.len() && (#[trigger] jobs@[j]).node == resolved@[r].node);
                }
                assert(resolved@.len() == 0);
                lemma_no_literals(*registry, nodes@, compiled@);
                assert(fitted@.len() == 0);
                assert forall|i: int| 0 <= i < table@.len() implies
                    (#[trigger] built@[i]).1.parameters@ == crate::parameters::compiled_parameters(*registry, typed(*registry, nodes@, table@[i]).unwrap(),
                        fed_at(*registry, nodes@, edges@, table@[i]), instance_with(nodes@, table@[i]).parameters@)
                    && built@[i].1.families@.len() == 0 by {
                    let u = table@[i];
                    assert(table@.contains(u));
                    assert(own_parameters(compiled@, u) == crate::parameters::instance_compiled(*registry, nodes@, fed@, u));
                    assert(fitted_into(own_parameters(compiled@, u), fitted@, u) == own_parameters(compiled@, u));
                    assert((|p: Seq<char>| fed_has(fed@, u, p)) =~= fed_at(*registry, nodes@, edges@, u)) by {
                        assert forall|p: Seq<char>| fed_has(fed@, u, p) == fed_at(*registry, nodes@, edges@, u)(p) by {
                            assert(fed_has(fed@, u, p) <==> is_fed(*registry, nodes@, edges@, u, p));
                        }
                    }
                    assert(families_in(resolved@, u) == Seq::<(String, Resolved)>::empty());
                }
                assert(parameters_compiled(*registry, nodes@, edges@, table@, built@));
            }
            assert(after_cycle.len() == after_instances.len());
            assert(none_found);
            lemma_acyclic(*registry, nodes@, edges@, table@);
        }
    }
    if errors.len() == 0 {
        CompileResult {
            graph: Some(CompiledGraph { name, nodes: built, connections }),
            errors,
            warnings,
        }
    } else {
        CompileResult { graph: None, errors, warnings }
    }
}


/// Edges between defined nodes that close no walk through the instances
/// close no walk at all.
proof fn lemma_acyclic(registry: Registry, nodes: Seq<NodeInstance>, edges: Seq<Edge>, table: Seq<u128>)
    requires
        instance_table(nodes, table),
        acyclic_within(nodes, edges, table),
        edges_sound(registry, nodes, edges),
    ensures
        acyclic(nodes, edges),
{
    assert forall|walk: Seq<u128>| !closed_walk(nodes, edges, walk) by {
        if closed_walk(nodes, edges, walk) {
            assert forall|i: int| 0 <= i < walk.len() implies table.contains(#[trigger] walk[i]) by {
                let j = if i < walk.len() - 1 { i } else { 0 };
                assert(walk[j] == walk[i]);
                assert(edge_between(edges, walk[j], walk[j + 1]));
                let x = choose|x: int| 0 <= x < edges.len() && (#[trigger] edges[x]).from == walk[j] && edges[x].to == walk[j + 1];
                assert(crate::edges::edge_sound(registry, nodes, edges[x]));
                assert(typed(registry, nodes, edges[x].from) is Some);
            }
            let i = choose|i: int| 0 <= i < walk.len() && !table.contains(#[trigger] walk[i]);
        }
    }
}

/// Where a mark lands: the group instance the first provenance entry of
/// an inner node names, else the node itself.
pub open spec fn mark_in(provenance: Seq<(u128, u128)>, uuid: u128) -> u128
    decreases provenance.len(),
{
    if provenance.len() == 0 {
        uuid
    } else if provenance[0].0 == uuid {
        provenance[0].1
    } else {
        mark_in(provenance.drop_first(), uuid)
    }
}

fn mark_of(provenance: &Vec<(u128, u128)>, uuid: u128) -> (mark: u128)
    ensures
        mark == mark_in(provenance@, uuid),
{
    let mut j: usize = 0;
    assert(provenance@.subrange(0, provenance@.len() as int) =~= provenance@);
    while j < provenance.len()
        invariant
            j <= provenance.len(),
            mark_in(provenance@, uuid) == mark_in(provenance@.subrange(j as int, provenance@.len() as int), uuid),
        decreases provenance.len() - j,
    {
        let ghost rest = provenance@.subrange(j as int, provenance@.len() as int);
        assert(rest.drop_first() =~= provenance@.subrange(j + 1, provenance@.len() as int));
        assert(rest[0] == provenance@[j as int]);
        if provenance[j].0 == uuid {
            return provenance[j].1;
        }
        j = j + 1;
    }
    assert(provenance@.subrange(provenance@.len() as int, provenance@.len() as int).len() == 0);
    uuid
}

/// The problems with each mark re-pointed at the group instance holding it.
/// The problems with each mark re-pointed through the provenance.
pub open spec fn repointed_as(repointed: Seq<Problem>, problems: Seq<Problem>, provenance: Seq<(u128, u128)>) -> bool {
    &&& repointed.len() == problems.len()
    &&& forall|i: int| 0 <= i < problems.len() ==> (#[trigger] repointed[i]).message@ == problems[i].message@
        && repointed[i].nodes@ == problems[i].nodes@.map_values(|uuid: u128| mark_in(provenance, uuid))
}

fn repoint(problems: &Vec<Problem>, provenance: &Vec<(u128, u128)>) -> (repointed: Vec<Problem>)
    ensures
        repointed@.len() == problems@.len(),
        forall|i: int| 0 <= i < problems@.len() ==> (#[trigger] repointed@[i]).message@ == problems@[i].message@,
        repointed_as(repointed@, problems@, provenance@),
{
    let mut repointed: Vec<Problem> = Vec::new();
    let mut i: usize = 0;
    while i < problems.len()
        invariant
            i <= problems.len(),
            repointed@.len() == i,
            forall|m: int| 0 <= m < i ==> (#[trigger] repointed@[m]).message@ == problems@[m].message@
                && repointed@[m].nodes@ == problems@[m].nodes@.map_values(|uuid: u128| mark_in(provenance@, uuid)),
        decreases problems.len() - i,
    {
        let mut marks: Vec<u128> = Vec::new();
        let mut k: usize = 0;
        while k < problems[i].nodes.len()
            invariant
                i < problems.len(),
                k <= problems@[i as int].nodes@.len(),
                marks@ == problems@[i as int].nodes@.subrange(0, k as int).map_values(|uuid: u128| mark_in(provenance@, uuid)),
            decreases problems@[i as int].nodes@.len() - k,
        {
            marks.push(mark_of(provenance, problems[i].nodes[k]));
            assert(marks@ =~= problems@[i as int].nodes@.subrange(0, k + 1).map_values(|uuid: u128| mark_in(provenance@, uuid)));
            k = k + 1;
        }
        assert(problems@[i as int].nodes@.subrange(0, k as int) =~= problems@[i as int].nodes@);
        let ghost before = repointed@;
        repointed.push(Problem { message: problems[i].message.clone(), nodes: marks });
        proof {
            assert forall|m: int| 0 <= m < i + 1 implies (#[trigger] repointed@[m]).message@ == problems@[m].message@
                && repointed@[m].nodes@ == problems@[m].nodes@.map_values(|uuid: u128| mark_in(provenance@, uuid)) by {
                if m < i {
                    assert(repointed@[m] == before[m]);
                }
            }
        }
        i = i + 1;
    }
    repointed
}

/// Compile a graph definition into a runnable graph, or report every
/// compile error found, with the warnings beside either. Groups are
/// flattened out first, and a problem naming an inner node is re-pointed
/// at the group instance whose collapsed node holds it; a definition
/// without groups compiles as it stands.
pub fn compile<F: Fn(&CompiledNode) -> Vec<String>>(definition: &GraphDefinition, registry: &Registry, check: &F) -> (result: CompileResult)
    requires
        registry.wf(),
        registry.data_type_with_id(STRING) is Some,
        forall|node: &CompiledNode| check.requires((node,)),
    ensures
        result.graph is Some <==> result.errors@.len() == 0,
        definition.groups@.len() == 0 ==> flat_compiled(definition.nodes@, definition.edges@, definition.name, Seq::empty(), *registry, result),
        definition.groups@.len() == 0 ==> (definition_sound(*registry, definition.nodes@, definition.edges@)
            && acyclic(definition.nodes@, definition.edges@) && crate::families::family_free(*registry, definition.nodes@)
            && checks_pass(*check) ==> result.graph is Some),
        definition.groups@.len() > 0 ==> exists|flat: crate::flatten::Flat, inner: CompileResult|
            #![trigger crate::flatten::flattens_to(*definition, *registry, flat), flat_compiled(flat.nodes@, flat.edges@, definition.name, flat.errors@, *registry, inner)] {
            &&& crate::flatten::flattens_to(*definition, *registry, flat)
            &&& flat_compiled(flat.nodes@, flat.edges@, definition.name, flat.errors@, *registry, inner)
            &&& (definition_sound(*registry, flat.nodes@, flat.edges@) && acyclic(flat.nodes@, flat.edges@)
                && crate::families::family_free(*registry, flat.nodes@) && checks_pass(*check) ==> inner.errors@ == flat.errors@)
            &&& result.graph == inner.graph
            &&& repointed_as(result.errors@, inner.errors@, flat.provenance@)
            &&& repointed_as(result.warnings@, inner.warnings@, flat.provenance@)
        },
{
    let name = match &definition.name {
        Some(name) => Some(name.clone()),
        None => None,
    };
    if definition.groups.len() == 0 {
        return compile_flat(&definition.nodes, &definition.edges, name, Vec::new(), registry, check);
    }
    let flat = crate::flatten::flatten(definition, registry);
    let result = compile_flat(&flat.nodes, &flat.edges, name, flat.errors, registry, check);
    let errors = repoint(&result.errors, &flat.provenance);
    let warnings = repoint(&result.warnings, &flat.provenance);
    let ghost inner = result;
    let answer = CompileResult { graph: result.graph, errors, warnings };
    proof {
        assert(name == definition.name);
        assert(crate::flatten::flattens_to(*definition, *registry, flat));
    }
    answer
}

} // verus!
