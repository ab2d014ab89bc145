//! Flattening: the compile-time pass that makes groups real. Every group
//! instance is replaced by its group's inner graph — inner nodes under
//! identities derived from the chain of instances enclosing them, boundary
//! edges rewired through the exposed ports' bindings, an exposed input's
//! parameter literal fed to the port it binds — so the compiler and the
//! engine see one flat graph.
//!
//! Only the groups the top level reaches have their interface checked and
//! their instances expanded. The group-reference cycle is the one check
//! that runs wherever a group sits, and the one that stops the flattening:
//! expanding through a cycle has no base case.

use vstd::prelude::*;
use vstd::string::StringExecFns;
use crate::cycle::{first_cycle, follows, is_cycle, well_keyed};
use crate::graph::{Edge, GraphDefinition, GroupDefinition, GroupPort, NodeInstance, ParameterValue};
use crate::ids::{hyphenated, identity_of, inner_identity, uuid_text};
use crate::model::port_named;
use crate::instances::{lemma_reported_chain, lemma_reported_none, lemma_reported_push, problem, reported, type_label, Problem};
use crate::registry::Registry;
use crate::resolve::resolve_types;
use crate::text::{contains_name, copy_names, has_name, join_names, same_text};

verus! {

/// A definition with its groups flattened out, the provenance of each inner
/// identity — the top-level group instance whose collapsed node holds it —
/// and the problems the flattening found.
pub struct Flat {
    pub nodes: Vec<NodeInstance>,
    pub edges: Vec<Edge>,
    pub provenance: Vec<(u128, u128)>,
    pub errors: Vec<Problem>,
}

/// Which side of a boundary an edge end crosses or a binding stands on.
#[derive(Clone, Copy, PartialEq, Eq, Structural)]
pub enum Side {
    Input,
    Output,
}

impl Side {
    pub fn name(self) -> (name: &'static str)
        ensures
            name@ == match self {
                Side::Input => "input"@,
                Side::Output => "output"@,
            },
    {
        match self {
            Side::Input => "input",
            Side::Output => "output",
        }
    }
}

/// A problem naming the given nodes.
fn problem_of(message: String, nodes: Vec<u128>) -> (p: Problem)
    ensures
        p.message@ == message@,
        p.nodes@ == nodes@,
{
    Problem { message, nodes }
}

/// The group a type reference names: the last the document defines under
/// that name, as a later definition replaces an earlier one.
fn group_named<'g>(groups: &'g Vec<GroupDefinition>, name: &str) -> (found: Option<usize>)
    ensures
        match found {
            Some(g) => g < groups.len() && groups@[g as int].name@ == name@
                && forall|h: int| g < h < groups.len() ==> (#[trigger] groups@[h]).name@ != name@,
            None => forall|h: int| 0 <= h < groups.len() ==> (#[trigger] groups@[h]).name@ != name@,
        },
{
    let mut g: usize = groups.len();
    while g > 0
        invariant
            g <= groups.len(),
            forall|h: int| g <= h < groups.len() ==> (#[trigger] groups@[h]).name@ != name@,
        decreases g,
    {
        g = g - 1;
        if same_text(groups[g].name.as_str(), name) {
            return Some(g);
        }
    }
    None
}

/// The node of `nodes` carrying `uuid`, the first such.
fn node_with(nodes: &Vec<NodeInstance>, uuid: u128) -> (found: Option<usize>)
    ensures
        match found {
            Some(k) => k < nodes.len() && nodes@[k as int].uuid == uuid
                && forall|j: int| 0 <= j < k ==> (#[trigger] nodes@[j]).uuid != uuid,
            None => forall|k: int| 0 <= k < nodes.len() ==> (#[trigger] nodes@[k]).uuid != uuid,
        },
{
    let mut k: usize = 0;
    while k < nodes.len()
        invariant
            k <= nodes.len(),
            forall|j: int| 0 <= j < k ==> (#[trigger] nodes@[j]).uuid != uuid,
        decreases nodes.len() - k,
    {
        if nodes[k].uuid == uuid {
            return Some(k);
        }
        k = k + 1;
    }
    None
}

/// A copy of a list of uuids.
fn copy_uuids(uuids: &Vec<u128>) -> (copy: Vec<u128>)
    ensures
        copy@ == uuids@,
{
    let mut copy: Vec<u128> = Vec::new();
    let mut i: usize = 0;
    while i < uuids.len()
        invariant
            i <= uuids.len(),
            copy@ == uuids@.subrange(0, i as int),
        decreases uuids.len() - i,
    {
        copy.push(uuids[i]);
        i = i + 1;
    }
    assert(uuids@.subrange(0, uuids.len() as int) =~= uuids@);
    copy
}

/// A list holding one uuid.
fn one_uuid(uuid: u128) -> (list: Vec<u128>)
    ensures
        list@ == seq![uuid],
{
    let mut list: Vec<u128> = Vec::new();
    list.push(uuid);
    list
}

/// Whether `i` is the first place the parameters carry `name`.
pub open spec fn first_named(parameters: Seq<(String, ParameterValue)>, name: Seq<char>, i: int) -> bool {
    &&& 0 <= i < parameters.len()
    &&& parameters[i].0@ == name
    &&& forall|j: int| 0 <= j < i ==> (#[trigger] parameters[j]).0@ != name
}

/// The value the parameters carry under `name`, the first such.
fn parameter_value<'p>(parameters: &'p Vec<(String, ParameterValue)>, name: &str) -> (found: Option<&'p ParameterValue>)
    ensures
        match found {
            Some(value) => exists|i: int| #[trigger] first_named(parameters@, name@, i) && *value == parameters@[i].1,
            None => !crate::graph::has_parameter(parameters@, name@),
        },
{
    let mut i: usize = 0;
    while i < parameters.len()
        invariant
            i <= parameters.len(),
            forall|j: int| 0 <= j < i ==> (#[trigger] parameters@[j]).0@ != name@,
        decreases parameters.len() - i,
    {
        if same_text(parameters[i].0.as_str(), name) {
            assert(first_named(parameters@, name@, i as int));
            return Some(&parameters[i].1);
        }
        i = i + 1;
    }
    None
}

/// Set the value under `name`, replacing one already there; whether one was.
fn put_parameter(parameters: &mut Vec<(String, ParameterValue)>, name: String, value: ParameterValue) -> (replaced: bool)
    ensures
        replaced == crate::graph::has_parameter(old(parameters)@, name@),
        replaced ==> exists|i: int| #[trigger] first_named(old(parameters)@, name@, i)
            && final(parameters)@ == old(parameters)@.update(i, (name, value)),
        !replaced ==> final(parameters)@ == old(parameters)@.push((name, value)),
{
    let ghost original = parameters@;
    let mut i: usize = 0;
    while i < parameters.len()
        invariant
            i <= parameters.len(),
            parameters@ == original,
            original == old(parameters)@,
            forall|j: int| 0 <= j < i ==> (#[trigger] original[j]).0@ != name@,
        decreases parameters.len() - i,
    {
        if same_text(parameters[i].0.as_str(), name.as_str()) {
            assert(first_named(original, name@, i as int));
            parameters.set(i, (name, value));
            return true;
        }
        i = i + 1;
    }
    parameters.push((name, value));
    false
}

/// A copy of a parameter list.
fn copy_parameters(parameters: &Vec<(String, ParameterValue)>) -> (copy: Vec<(String, ParameterValue)>)
    ensures
        copy@ == parameters@,
{
    let mut copy: Vec<(String, ParameterValue)> = Vec::new();
    let mut i: usize = 0;
    while i < parameters.len()
        invariant
            i <= parameters.len(),
            copy@ == parameters@.subrange(0, i as int),
        decreases parameters.len() - i,
    {
        copy.push((parameters[i].0.clone(), parameters[i].1.copy()));
        assert(copy@ =~= parameters@.subrange(0, i + 1));
        i = i + 1;
    }
    assert(parameters@.subrange(0, parameters.len() as int) =~= parameters@);
    copy
}

/// A node instance as the flat graph carries it: uuid, type, label and
/// parameters; the canvas metadata stays with the definition.
fn flat_node(instance: &NodeInstance) -> (node: NodeInstance)
    ensures
        node.uuid == instance.uuid,
        node.type_ref@ == instance.type_ref@,
        node.label == instance.label,
        node.parameters@ == instance.parameters@,
        node.metadata@.len() == 0,
{
    NodeInstance {
        uuid: instance.uuid,
        type_ref: instance.type_ref.clone(),
        label: match &instance.label {
            Some(label) => Some(label.clone()),
            None => None,
        },
        parameters: copy_parameters(&instance.parameters),
        metadata: Vec::new(),
    }
}

fn copy_edge(edge: &Edge) -> (copy: Edge)
    ensures
        copy.from == edge.from,
        copy.from_port@ == edge.from_port@,
        copy.to == edge.to,
        copy.to_port@ == edge.to_port@,
{
    Edge { from: edge.from, from_port: edge.from_port.clone(), to: edge.to, to_port: edge.to_port.clone() }
}

/// The uuids of the nodes instantiating `name`, in order.
pub open spec fn instances_named(nodes: Seq<NodeInstance>, name: Seq<char>) -> Seq<u128>
    decreases nodes.len(),
{
    if nodes.len() == 0 {
        Seq::empty()
    } else {
        let rest = instances_named(nodes.drop_last(), name);
        if nodes.last().type_ref@ == name { rest.push(nodes.last().uuid) } else { rest }
    }
}

/// The uuids of the top-level nodes instantiating `name`.
fn instances_of(definition: &GraphDefinition, name: &str) -> (uuids: Vec<u128>)
    ensures
        uuids@ == instances_named(definition.nodes@, name@),
{
    let mut uuids: Vec<u128> = Vec::new();
    let mut k: usize = 0;
    while k < definition.nodes.len()
        invariant
            k <= definition.nodes.len(),
            uuids@ == instances_named(definition.nodes@.subrange(0, k as int), name@),
        decreases definition.nodes.len() - k,
    {
        assert(definition.nodes@.subrange(0, k + 1).drop_last() =~= definition.nodes@.subrange(0, k as int));
        if same_text(definition.nodes[k].type_ref.as_str(), name) {
            uuids.push(definition.nodes[k].uuid);
        }
        k = k + 1;
    }
    assert(definition.nodes@.subrange(0, definition.nodes.len() as int) =~= definition.nodes@);
    uuids
}

/// Whether a group named `name` is reached within `depth` steps: a top-level
/// node instantiates it, or a node of a group reached one step sooner does.
/// A name is the last group defined under it, as references resolve.
pub open spec fn reached_within(groups: Seq<GroupDefinition>, nodes: Seq<NodeInstance>, name: Seq<char>, depth: nat) -> bool
    decreases depth,
{
    group_position(groups, name) is Some && (
        (exists|k: int| 0 <= k < nodes.len() && #[trigger] nodes[k].type_ref@ == name)
        || (depth > 0 && exists|g: int, n: int| #![trigger groups[g].nodes@[n]]
            last_of_name(groups, g) && 0 <= n < groups[g].nodes@.len() && groups[g].nodes@[n].type_ref@ == name
            && reached_within(groups, nodes, groups[g].name@, (depth - 1) as nat)))
}

/// Whether the top level instantiates the group named `name`, directly or
/// through the groups it instantiates.
pub open spec fn instantiated_name(groups: Seq<GroupDefinition>, nodes: Seq<NodeInstance>, name: Seq<char>) -> bool {
    exists|depth: nat| #[trigger] reached_within(groups, nodes, name, depth)
}

/// Every group a listed group's nodes instantiate is listed.
spec fn closed_under_instantiation(groups: Seq<GroupDefinition>, names: Seq<String>) -> bool {
    forall|g: int, n: int| #![trigger groups[g].nodes@[n]]
        last_of_name(groups, g) && has_name(names, groups[g].name@) && 0 <= n < groups[g].nodes@.len()
        && group_position(groups, groups[g].nodes@[n].type_ref@) is Some
        ==> has_name(names, groups[g].nodes@[n].type_ref@)
}

proof fn lemma_reached_listed(groups: Seq<GroupDefinition>, nodes: Seq<NodeInstance>, names: Seq<String>, name: Seq<char>, depth: nat)
    requires
        forall|k: int| 0 <= k < nodes.len() && group_position(groups, #[trigger] nodes[k].type_ref@) is Some
            ==> has_name(names, nodes[k].type_ref@),
        closed_under_instantiation(groups, names),
        reached_within(groups, nodes, name, depth),
    ensures
        has_name(names, name),
    decreases depth,
{
    if !(exists|k: int| 0 <= k < nodes.len() && #[trigger] nodes[k].type_ref@ == name) {
        let (g, n) = choose|g: int, n: int| #![trigger groups[g].nodes@[n]]
            last_of_name(groups, g) && 0 <= n < groups[g].nodes@.len() && groups[g].nodes@[n].type_ref@ == name
            && reached_within(groups, nodes, groups[g].name@, (depth - 1) as nat);
        lemma_reached_listed(groups, nodes, names, groups[g].name@, (depth - 1) as nat);
    } else {
        let k = choose|k: int| 0 <= k < nodes.len() && #[trigger] nodes[k].type_ref@ == name;
        assert(group_position(groups, nodes[k].type_ref@) is Some);
    }
}

/// The groups transitively instantiated from the top level, through the
/// groups instantiating groups, each named once.
#[verifier::spinoff_prover]
fn instantiated(definition: &GraphDefinition) -> (live: Vec<String>)
    ensures
        forall|name: Seq<char>| has_name(live@, name) <==> instantiated_name(definition.groups@, definition.nodes@, name),
{
    let groups = &definition.groups;
    let ghost nodes = definition.nodes@;
    let mut seen: Vec<String> = Vec::new();
    let mut k: usize = 0;
    while k < definition.nodes.len()
        invariant
            k <= definition.nodes.len(),
            nodes == definition.nodes@,
            forall|i: int| 0 <= i < seen@.len() ==> instantiated_name(groups@, nodes, #[trigger] seen@[i]@),
            forall|j: int| 0 <= j < k && group_position(groups@, #[trigger] nodes[j].type_ref@) is Some
                ==> has_name(seen@, nodes[j].type_ref@),
        decreases definition.nodes.len() - k,
    {
        let type_ref = &definition.nodes[k].type_ref;
        match group_named(groups, type_ref.as_str()) {
            Some(h) => {
                proof {
                    lemma_group_position(groups@, type_ref@, h as int);
                }
                if !contains_name(&seen, type_ref.as_str()) {
                    let ghost before = seen@;
                    seen.push(type_ref.clone());
                    proof {
                        lemma_has_name_push(before, *type_ref);
                        assert(reached_within(groups@, nodes, type_ref@, 0));
                        assert forall|i: int| 0 <= i < seen@.len() implies instantiated_name(groups@, nodes, #[trigger] seen@[i]@) by {
                            if i < before.len() {
                                assert(seen@[i] == before[i]);
                            } else {
                                assert(reached_within(groups@, nodes, seen@[i]@, 0));
                            }
                        }
                    }
                }
            },
            None => {
                proof {
                    lemma_group_position(groups@, type_ref@, -1);
                }
            },
        }
        k = k + 1;
    }
    let mut rounds: usize = groups.len();
    let mut grew = true;
    proof {
        lemma_listed_count(groups@, seen@, seen@, groups.len() as int, -1);
    }
    while grew && rounds > 0
        invariant
            nodes == definition.nodes@,
            rounds <= groups.len(),
            forall|i: int| 0 <= i < seen@.len() ==> instantiated_name(groups@, nodes, #[trigger] seen@[i]@),
            forall|j: int| 0 <= j < nodes.len() && group_position(groups@, #[trigger] nodes[j].type_ref@) is Some
                ==> has_name(seen@, nodes[j].type_ref@),
            grew ==> listed_count(groups@, seen@, groups.len() as int) >= groups.len() - rounds,
            !grew ==> closed_under_instantiation(groups@, seen@),
        decreases rounds,
    {
        rounds = rounds - 1;
        grew = false;
        let ghost at_start = seen@;
        let mut g: usize = 0;
        while g < groups.len()
            invariant
                nodes == definition.nodes@,
                g <= groups.len(),
                forall|i: int| 0 <= i < seen@.len() ==> instantiated_name(groups@, nodes, #[trigger] seen@[i]@),
                forall|x: Seq<char>| has_name(at_start, x) ==> has_name(seen@, x),
                listed_count(groups@, at_start, groups.len() as int) >= groups.len() - rounds - 1,
                !grew ==> seen@ == at_start,
                grew ==> listed_count(groups@, seen@, groups.len() as int) > listed_count(groups@, at_start, groups.len() as int),
                !grew ==> forall|h: int, n: int| #![trigger groups@[h].nodes@[n]]
                    0 <= h < g && last_of_name(groups@, h) && has_name(seen@, groups@[h].name@) && 0 <= n < groups@[h].nodes@.len()
                    && group_position(groups@, groups@[h].nodes@[n].type_ref@) is Some
                    ==> has_name(seen@, groups@[h].nodes@[n].type_ref@),
            decreases groups.len() - g,
        {
            let group = &groups[g];
            let mut resolves_here = false;
            match group_named(groups, group.name.as_str()) {
                Some(h) => {
                    proof {
                        lemma_group_position(groups@, group.name@, h as int);
                        if h as int > g as int {
                            assert(groups@[h as int].name@ == groups@[g as int].name@);
                        }
                    }
                    resolves_here = h == g;
                },
                None => {},
            }
            assert(resolves_here <==> last_of_name(groups@, g as int));
            if resolves_here && contains_name(&seen, group.name.as_str()) {
                let ghost name_sound = seen@;
                let mut n: usize = 0;
                while n < group.nodes.len()
                    invariant
                        nodes == definition.nodes@,
                        g < groups@.len(),
                        group == &groups@[g as int],
                        n <= group.nodes@.len(),
                        last_of_name(groups@, g as int),
                        has_name(seen@, group.name@),
                        forall|i: int| 0 <= i < seen@.len() ==> instantiated_name(groups@, nodes, #[trigger] seen@[i]@),
                        forall|x: Seq<char>| has_name(at_start, x) ==> has_name(seen@, x),
                        listed_count(groups@, at_start, groups.len() as int) >= groups.len() - rounds - 1,
                        !grew ==> seen@ == at_start,
                        grew ==> listed_count(groups@, seen@, groups.len() as int) > listed_count(groups@, at_start, groups.len() as int),
                        !grew ==> forall|h: int, m: int| #![trigger groups@[h].nodes@[m]]
                            0 <= h < g && last_of_name(groups@, h) && has_name(seen@, groups@[h].name@) && 0 <= m < groups@[h].nodes@.len()
                            && group_position(groups@, groups@[h].nodes@[m].type_ref@) is Some
                            ==> has_name(seen@, groups@[h].nodes@[m].type_ref@),
                        !grew ==> forall|m: int| #![trigger groups@[g as int].nodes@[m]] 0 <= m < n
                            && group_position(groups@, groups@[g as int].nodes@[m].type_ref@) is Some
                            ==> has_name(seen@, groups@[g as int].nodes@[m].type_ref@),
                    decreases group.nodes.len() - n,
                {
                    let type_ref = &group.nodes[n].type_ref;
                    match group_named(groups, type_ref.as_str()) {
                        Some(h) => {
                            proof {
                                lemma_group_position(groups@, type_ref@, h as int);
                            }
                            if !contains_name(&seen, type_ref.as_str()) {
                                let ghost before = seen@;
                                seen.push(type_ref.clone());
                                proof {
                                    lemma_has_name_push(before, *type_ref);
                                    let i = choose|i: int| 0 <= i < before.len() && #[trigger] before[i]@ == group.name@;
                                    assert(instantiated_name(groups@, nodes, before[i]@));
                                    let d = choose|d: nat| #[trigger] reached_within(groups@, nodes, before[i]@, d);
                                    assert(groups@[g as int].nodes@[n as int] == group.nodes@[n as int]);
                                    assert(reached_within(groups@, nodes, type_ref@, d + 1));
                                    assert forall|j: int| 0 <= j < seen@.len() implies instantiated_name(groups@, nodes, #[trigger] seen@[j]@) by {
                                        if j < before.len() {
                                            assert(seen@[j] == before[j]);
                                        } else {
                                            assert(reached_within(groups@, nodes, seen@[j]@, d + 1));
                                        }
                                    }
                                    lemma_listed_count(groups@, at_start, before, groups.len() as int, -1);
                                    lemma_listed_count(groups@, before, seen@, groups.len() as int, h as int);
                                }
                                grew = true;
                            }
                        },
                        None => {
                            proof {
                                lemma_group_position(groups@, type_ref@, -1);
                            }
                        },
                    }
                    n = n + 1;
                }
            }
            g = g + 1;
        }
        proof {
            if grew {
                assert(listed_count(groups@, seen@, groups.len() as int) >= groups.len() - rounds);
            }
        }
    }
    proof {
        if grew {
            lemma_listed_count(groups@, seen@, seen@, groups.len() as int, -1);
            assert forall|h: int, n: int| #![trigger groups@[h].nodes@[n]]
                last_of_name(groups@, h) && has_name(seen@, groups@[h].name@) && 0 <= n < groups@[h].nodes@.len()
                && group_position(groups@, groups@[h].nodes@[n].type_ref@) is Some
                implies has_name(seen@, groups@[h].nodes@[n].type_ref@) by {
                let p = group_position(groups@, groups@[h].nodes@[n].type_ref@)->0;
                lemma_group_position_found(groups@, groups@[h].nodes@[n].type_ref@);
                assert(has_name(seen@, groups@[p].name@));
            }
        }
        assert forall|x: Seq<char>| has_name(seen@, x) <==> instantiated_name(groups@, nodes, x) by {
            if has_name(seen@, x) {
                let i = choose|i: int| 0 <= i < seen@.len() && #[trigger] seen@[i]@ == x;
                assert(instantiated_name(groups@, nodes, seen@[i]@));
            }
            if instantiated_name(groups@, nodes, x) {
                let d = choose|d: nat| #[trigger] reached_within(groups@, nodes, x, d);
                lemma_reached_listed(groups@, nodes, seen@, x, d);
            }
        }
    }
    seen
}

/// Whether the name `name` is doomed within `depth` steps: a name of the
/// cycle, or the name of a group one of whose nodes instantiates a name
/// doomed one step sooner.
pub open spec fn doomed_within(groups: Seq<GroupDefinition>, cycle: Seq<String>, name: Seq<char>, depth: nat) -> bool
    decreases depth,
{
    has_name(cycle, name) || (depth > 0 && exists|g: int, n: int| #![trigger groups[g].nodes@[n]]
        0 <= g < groups.len() && groups[g].name@ == name && 0 <= n < groups[g].nodes@.len()
        && doomed_within(groups, cycle, groups[g].nodes@[n].type_ref@, (depth - 1) as nat))
}

/// Whether a group-reference cycle dooms the name: it is a member, or a
/// group instantiating one, directly or through others.
pub open spec fn doomed_name(groups: Seq<GroupDefinition>, cycle: Seq<String>, name: Seq<char>) -> bool {
    exists|depth: nat| #[trigger] doomed_within(groups, cycle, name, depth)
}

/// The uuids of the nodes a cycle dooms, in order.
pub open spec fn doomed_uuids(nodes: Seq<NodeInstance>, groups: Seq<GroupDefinition>, cycle: Seq<String>) -> Seq<u128>
    decreases nodes.len(),
{
    if nodes.len() == 0 {
        Seq::empty()
    } else {
        let rest = doomed_uuids(nodes.drop_last(), groups, cycle);
        if doomed_name(groups, cycle, nodes.last().type_ref@) { rest.push(nodes.last().uuid) } else { rest }
    }
}

/// Every group one of whose nodes instantiates a listed name is listed.
spec fn closed_under_reference(groups: Seq<GroupDefinition>, names: Seq<String>) -> bool {
    forall|g: int, n: int| #![trigger groups[g].nodes@[n]]
        0 <= g < groups.len() && 0 <= n < groups[g].nodes@.len() && has_name(names, groups[g].nodes@[n].type_ref@)
        ==> has_name(names, groups[g].name@)
}

/// How many of the first `k` groups have a listed name.
spec fn listed_count(groups: Seq<GroupDefinition>, names: Seq<String>, k: int) -> int
    decreases k,
{
    if k <= 0 {
        0
    } else {
        listed_count(groups, names, k - 1) + if has_name(names, groups[k - 1].name@) { 1int } else { 0int }
    }
}

proof fn lemma_listed_count(groups: Seq<GroupDefinition>, a: Seq<String>, b: Seq<String>, k: int, added: int)
    requires
        0 <= k <= groups.len(),
        forall|x: Seq<char>| has_name(a, x) ==> has_name(b, x),
        0 <= added < k ==> !has_name(a, groups[added].name@) && has_name(b, groups[added].name@),
    ensures
        listed_count(groups, a, k) <= listed_count(groups, b, k),
        0 <= added < k ==> listed_count(groups, a, k) < listed_count(groups, b, k),
        0 <= listed_count(groups, a, k) <= k,
        listed_count(groups, a, k) == k ==> forall|h: int| 0 <= h < k ==> has_name(a, #[trigger] groups[h].name@),
    decreases k,
{
    if k > 0 {
        lemma_listed_count(groups, a, b, k - 1, added);
        if listed_count(groups, a, k) == k {
            assert(has_name(a, groups[k - 1].name@));
        }
    }
}

proof fn lemma_has_name_push(names: Seq<String>, name: String)
    ensures
        forall|x: Seq<char>| has_name(names.push(name), x) <==> (has_name(names, x) || x == name@),
{
    let pushed = names.push(name);
    assert forall|x: Seq<char>| has_name(names, x) implies has_name(pushed, x) by {
        let i = choose|i: int| 0 <= i < names.len() && #[trigger] names[i]@ == x;
        assert(pushed[i] == names[i]);
    }
    assert(pushed[names.len() as int] == name);
    assert(has_name(pushed, name@));
    assert forall|x: Seq<char>| has_name(pushed, x) implies (has_name(names, x) || x == name@) by {
        let i = choose|i: int| 0 <= i < pushed.len() && #[trigger] pushed[i]@ == x;
        if i < names.len() {
            assert(pushed[i] == names[i]);
            assert(names[i]@ == x);
        } else {
            assert(pushed[i] == name);
        }
    }
}

/// A list holding the cycle and closed under reference holds every doomed
/// name.
proof fn lemma_doomed_listed(groups: Seq<GroupDefinition>, cycle: Seq<String>, names: Seq<String>, name: Seq<char>, depth: nat)
    requires
        forall|x: Seq<char>| has_name(cycle, x) ==> has_name(names, x),
        closed_under_reference(groups, names),
        doomed_within(groups, cycle, name, depth),
    ensures
        has_name(names, name),
    decreases depth,
{
    if !has_name(cycle, name) {
        let (g, n) = choose|g: int, n: int| #![trigger groups[g].nodes@[n]]
            0 <= g < groups.len() && groups[g].name@ == name && 0 <= n < groups[g].nodes@.len()
            && doomed_within(groups, cycle, groups[g].nodes@[n].type_ref@, (depth - 1) as nat);
        lemma_doomed_listed(groups, cycle, names, groups[g].nodes@[n].type_ref@, (depth - 1) as nat);
    }
}

/// The instances a group-reference cycle dooms: every top-level instance
/// whose group is a cycle member, or instantiates one directly or through
/// others.
#[verifier::spinoff_prover]
fn doomed_instances(definition: &GraphDefinition, cycle: &Vec<String>) -> (doomed: Vec<u128>)
    ensures
        doomed@ == doomed_uuids(definition.nodes@, definition.groups@, cycle@),
{
    let ghost groups = definition.groups@;
    let mut names = copy_names(cycle);
    let mut rounds: usize = definition.groups.len();
    let mut grew = true;
    proof {
        assert forall|i: int| 0 <= i < names@.len() implies doomed_name(groups, cycle@, #[trigger] names@[i]@) by {
            assert(doomed_within(groups, cycle@, names@[i]@, 0));
        }
        lemma_listed_count(groups, names@, names@, groups.len() as int, -1);
    }
    while grew && rounds > 0
        invariant
            groups == definition.groups@,
            rounds <= groups.len(),
            forall|i: int| 0 <= i < names@.len() ==> doomed_name(groups, cycle@, #[trigger] names@[i]@),
            forall|x: Seq<char>| has_name(cycle@, x) ==> has_name(names@, x),
            grew ==> listed_count(groups, names@, groups.len() as int) >= groups.len() - rounds,
            !grew ==> closed_under_reference(groups, names@),
        decreases rounds,
    {
        rounds = rounds - 1;
        grew = false;
        let ghost at_start = names@;
        let mut g: usize = 0;
        while g < definition.groups.len()
            invariant
                groups == definition.groups@,
                g <= groups.len(),
                forall|i: int| 0 <= i < names@.len() ==> doomed_name(groups, cycle@, #[trigger] names@[i]@),
                forall|x: Seq<char>| has_name(cycle@, x) ==> has_name(names@, x),
                forall|x: Seq<char>| has_name(at_start, x) ==> has_name(names@, x),
                listed_count(groups, at_start, groups.len() as int) >= groups.len() - rounds - 1,
                !grew ==> names@ == at_start,
                grew ==> listed_count(groups, names@, groups.len() as int) > listed_count(groups, at_start, groups.len() as int),
                !grew ==> forall|h: int, n: int| #![trigger groups[h].nodes@[n]]
                    0 <= h < g && 0 <= n < groups[h].nodes@.len() && has_name(names@, groups[h].nodes@[n].type_ref@)
                    ==> has_name(names@, groups[h].name@),
            decreases definition.groups.len() - g,
        {
            let group = &definition.groups[g];
            if !contains_name(&names, group.name.as_str()) {
                let mut reaches = false;
                let mut n: usize = 0;
                while n < group.nodes.len()
                    invariant
                        g < definition.groups@.len(),
                        group == &definition.groups@[g as int],
                        n <= group.nodes@.len(),
                        reaches <==> exists|m: int| 0 <= m < n && #[trigger] has_name(names@, group.nodes@[m].type_ref@),
                    decreases group.nodes.len() - n,
                {
                    if contains_name(&names, group.nodes[n].type_ref.as_str()) {
                        reaches = true;
                    }
                    n = n + 1;
                }
                if !reaches {
                    proof {
                        if !grew {
                            assert forall|h: int, n: int| #![trigger groups[h].nodes@[n]]
                                0 <= h < g + 1 && 0 <= n < groups[h].nodes@.len() && has_name(names@, groups[h].nodes@[n].type_ref@)
                                implies has_name(names@, groups[h].name@) by {
                                if h == g {
                                    assert(groups[h].nodes@[n] == group.nodes@[n]);
                                    assert(has_name(names@, group.nodes@[n].type_ref@));
                                    assert(reaches);
                                }
                            }
                        }
                    }
                }
                if reaches {
                    let ghost before = names@;
                    let ghost m = choose|m: int| 0 <= m < group.nodes@.len() && #[trigger] has_name(before, group.nodes@[m].type_ref@);
                    names.push(group.name.clone());
                    proof {
                        lemma_has_name_push(before, group.name);
                        let i = choose|i: int| 0 <= i < before.len() && #[trigger] before[i]@ == group.nodes@[m].type_ref@;
                        assert(doomed_name(groups, cycle@, before[i]@));
                        let d = choose|d: nat| #[trigger] doomed_within(groups, cycle@, before[i]@, d);
                        assert(groups[g as int].nodes@[m] == group.nodes@[m]);
                        assert(doomed_within(groups, cycle@, group.name@, d + 1));
                        assert forall|k: int| 0 <= k < names@.len() implies doomed_name(groups, cycle@, #[trigger] names@[k]@) by {
                            if k < before.len() {
                                assert(names@[k] == before[k]);
                            } else {
                                assert(doomed_within(groups, cycle@, names@[k]@, d + 1));
                            }
                        }
                        lemma_listed_count(groups, at_start, before, groups.len() as int, -1);
                        lemma_listed_count(groups, before, names@, groups.len() as int, g as int);
                    }
                    grew = true;
                }
            } else {
                proof {
                    if !grew {
                        assert forall|h: int, n: int| #![trigger groups[h].nodes@[n]]
                            0 <= h < g + 1 && 0 <= n < groups[h].nodes@.len() && has_name(names@, groups[h].nodes@[n].type_ref@)
                            implies has_name(names@, groups[h].name@) by {
                        }
                    }
                }
            }
            g = g + 1;
        }
        proof {
            if grew {
                assert(listed_count(groups, names@, groups.len() as int) >= groups.len() - rounds);
            }
        }
    }
    proof {
        if grew {
            lemma_listed_count(groups, names@, names@, groups.len() as int, -1);
            assert forall|h: int, n: int| #![trigger groups[h].nodes@[n]]
                0 <= h < groups.len() && 0 <= n < groups[h].nodes@.len() && has_name(names@, groups[h].nodes@[n].type_ref@)
                implies has_name(names@, groups[h].name@) by {
                assert(has_name(names@, groups[h].name@));
            }
        }
        assert forall|x: Seq<char>| has_name(names@, x) <==> doomed_name(groups, cycle@, x) by {
            if has_name(names@, x) {
                let i = choose|i: int| 0 <= i < names@.len() && #[trigger] names@[i]@ == x;
                assert(doomed_name(groups, cycle@, names@[i]@));
            }
            if doomed_name(groups, cycle@, x) {
                let d = choose|d: nat| #[trigger] doomed_within(groups, cycle@, x, d);
                lemma_doomed_listed(groups, cycle@, names@, x, d);
            }
        }
    }
    let mut doomed: Vec<u128> = Vec::new();
    let mut k: usize = 0;
    while k < definition.nodes.len()
        invariant
            groups == definition.groups@,
            k <= definition.nodes.len(),
            forall|x: Seq<char>| has_name(names@, x) <==> doomed_name(groups, cycle@, x),
            doomed@ == doomed_uuids(definition.nodes@.subrange(0, k as int), groups, cycle@),
        decreases definition.nodes.len() - k,
    {
        assert(definition.nodes@.subrange(0, k + 1).drop_last() =~= definition.nodes@.subrange(0, k as int));
        if contains_name(&names, definition.nodes[k].type_ref.as_str()) {
            doomed.push(definition.nodes[k].uuid);
        }
        k = k + 1;
    }
    assert(definition.nodes@.subrange(0, definition.nodes.len() as int) =~= definition.nodes@);
    doomed
}

/// Whether group `g` is the last the document defines under its name: the
/// one its name refers to.
pub open spec fn last_of_name(groups: Seq<GroupDefinition>, g: int) -> bool {
    &&& 0 <= g < groups.len()
    &&& forall|h: int| g < h < groups.len() ==> (#[trigger] groups[h]).name@ != groups[g].name@
}

/// Whether a node of group `from` instantiates group `to`.
pub open spec fn refers(groups: Seq<GroupDefinition>, from: int, to: int) -> bool {
    &&& 0 <= from < groups.len()
    &&& last_of_name(groups, to)
    &&& exists|n: int| 0 <= n < groups[from].nodes@.len() && (#[trigger] groups[from].nodes@[n]).type_ref@ == groups[to].name@
}

/// A closed walk along the groups' references.
pub open spec fn reference_cycle(groups: Seq<GroupDefinition>, walk: Seq<usize>) -> bool {
    &&& walk.len() >= 2
    &&& walk[0] == walk[walk.len() - 1]
    &&& forall|i: int| 0 <= i < walk.len() - 1 ==> refers(groups, #[trigger] walk[i] as int, walk[i + 1] as int)
}

/// The first group-reference cycle, as the group names around it: the
/// shared walk over the groups' reference adjacency, starting from each
/// group in document order and following references in node order.
#[verifier::spinoff_prover]
fn group_cycle(definition: &GraphDefinition) -> (cycle: Option<Vec<String>>)
    ensures
        match cycle {
            Some(names) => exists|walk: Seq<usize>| #[trigger] reference_cycle(definition.groups@, walk)
                && names@.len() == walk.len()
                && forall|i: int| 0 <= i < walk.len() ==> (#[trigger] names@[i]) == definition.groups@[walk[i] as int].name,
            None => forall|walk: Seq<usize>| !reference_cycle(definition.groups@, walk),
        },
{
    let groups = &definition.groups;
    let mut adjacency: Vec<Vec<usize>> = Vec::new();
    let mut g: usize = 0;
    while g < groups.len()
        invariant
            adjacency.len() == g,
            g <= groups.len(),
            forall|a: int, b: int| 0 <= a < adjacency.len() && 0 <= b < adjacency@[a]@.len()
                ==> #[trigger] adjacency@[a]@[b] < groups.len(),
            forall|a: int, b: int| 0 <= a < adjacency.len() && 0 <= b < adjacency@[a]@.len()
                ==> refers(groups@, a, #[trigger] adjacency@[a]@[b] as int),
            forall|a: int, t: int| 0 <= a < adjacency.len() && #[trigger] refers(groups@, a, t)
                ==> adjacency@[a]@.contains(t as usize),
        decreases groups.len() - g,
    {
        let mut neighbours: Vec<usize> = Vec::new();
        let mut n: usize = 0;
        while n < groups[g].nodes.len()
            invariant
                g < groups.len(),
                n <= groups@[g as int].nodes@.len(),
                forall|b: int| 0 <= b < neighbours@.len() ==> #[trigger] neighbours@[b] < groups.len(),
                forall|b: int| 0 <= b < neighbours@.len() ==> refers(groups@, g as int, #[trigger] neighbours@[b] as int),
                forall|m: int, t: int| #![trigger groups@[g as int].nodes@[m], last_of_name(groups@, t)]
                    0 <= m < n && last_of_name(groups@, t)
                    && groups@[g as int].nodes@[m].type_ref@ == groups@[t].name@
                    ==> neighbours@.contains(t as usize),
            decreases groups@[g as int].nodes@.len() - n,
        {
            let ghost before = neighbours@;
            match group_named(groups, groups[g].nodes[n].type_ref.as_str()) {
                Some(nested) => {
                    neighbours.push(nested);
                    proof {
                        assert(refers(groups@, g as int, nested as int)) by {
                            assert(groups@[g as int].nodes@[n as int].type_ref@ == groups@[nested as int].name@);
                        }
                        assert forall|b: int| 0 <= b < neighbours@.len() implies refers(groups@, g as int, #[trigger] neighbours@[b] as int) by {
                            if b < before.len() {
                                assert(neighbours@[b] == before[b]);
                            }
                        }
                        assert forall|m: int, t: int| #![trigger groups@[g as int].nodes@[m], last_of_name(groups@, t)]
                            0 <= m < n + 1 && last_of_name(groups@, t)
                            && groups@[g as int].nodes@[m].type_ref@ == groups@[t].name@
                            implies neighbours@.contains(t as usize) by {
                            if m < n {
                                assert(before.contains(t as usize));
                                let w = choose|w: int| 0 <= w < before.len() && before[w] == t as usize;
                                assert(neighbours@[w] == t as usize);
                            } else {
                                if t < nested {
                                    assert(groups@[nested as int].name@ != groups@[t].name@);
                                } else if nested < t {
                                    assert(groups@[t].name@ != groups@[nested as int].name@);
                                }
                                assert(neighbours@[before.len() as int] == t as usize);
                            }
                        }
                    }
                },
                None => {},
            }
            n = n + 1;
        }
        let ghost before = adjacency@;
        adjacency.push(neighbours);
        proof {
            assert forall|a: int, b: int| 0 <= a < adjacency.len() && 0 <= b < adjacency@[a]@.len()
                implies #[trigger] adjacency@[a]@[b] < groups.len() by {
                if a < before.len() {
                    assert(adjacency@[a] == before[a]);
                }
            }
            assert forall|a: int, b: int| 0 <= a < adjacency.len() && 0 <= b < adjacency@[a]@.len()
                implies refers(groups@, a, #[trigger] adjacency@[a]@[b] as int) by {
                if a < before.len() {
                    assert(adjacency@[a] == before[a]);
                }
            }
            assert forall|a: int, t: int| 0 <= a < adjacency.len() && #[trigger] refers(groups@, a, t)
                implies adjacency@[a]@.contains(t as usize) by {
                if a < before.len() {
                    assert(adjacency@[a] == before[a]);
                } else {
                    let m = choose|m: int| 0 <= m < groups@[a].nodes@.len() && (#[trigger] groups@[a].nodes@[m]).type_ref@ == groups@[t].name@;
                    assert(groups@[g as int].nodes@[m].type_ref@ == groups@[t].name@);
                }
            }
        }
        g = g + 1;
    }
    let mut roots: Vec<usize> = Vec::new();
    let mut r: usize = 0;
    while r < groups.len()
        invariant
            r <= groups.len(),
            forall|q: int| 0 <= q < roots.len() ==> #[trigger] roots@[q] < groups.len(),
            forall|t: int| 0 <= t < r && #[trigger] last_of_name(groups@, t) ==> roots@.contains(t as usize),
        decreases groups.len() - r,
    {
        let ghost before = roots@;
        match group_named(groups, groups[r].name.as_str()) {
            Some(resolved) => {
                roots.push(resolved);
                proof {
                    assert forall|t: int| 0 <= t < r + 1 && #[trigger] last_of_name(groups@, t) implies roots@.contains(t as usize) by {
                        if t < r {
                            let w = choose|w: int| 0 <= w < before.len() && before[w] == t as usize;
                            assert(roots@[w] == t as usize);
                        } else {
                            if resolved as int > t {
                                assert(groups@[resolved as int].name@ != groups@[t].name@);
                            }
                            assert(roots@[before.len() as int] == t as usize);
                        }
                    }
                }
            },
            None => {},
        }
        r = r + 1;
    }
    proof {
        assert(well_keyed(adjacency@));
    }
    match first_cycle(&roots, &adjacency) {
        Some(walk) => {
            let mut names: Vec<String> = Vec::new();
            let mut i: usize = 0;
            while i < walk.len()
                invariant
                    i <= walk.len(),
                    is_cycle(adjacency@, walk@),
                    adjacency.len() == groups.len(),
                    names@.len() == i,
                    forall|k: int| 0 <= k < i ==> (#[trigger] names@[k]) == groups@[walk@[k] as int].name,
                decreases walk.len() - i,
            {
                proof {
                    if i + 1 < walk.len() {
                        assert(0 <= walk@[i as int] < adjacency.len());
                    } else {
                        assert(0 <= walk@[0] < adjacency.len());
                    }
                }
                if walk[i] < groups.len() {
                    names.push(groups[walk[i]].name.clone());
                }
                i = i + 1;
            }
            proof {
                assert forall|k: int| 0 <= k < walk@.len() - 1 implies refers(groups@, #[trigger] walk@[k] as int, walk@[k + 1] as int) by {
                    let w = choose|w: int| 0 <= w < adjacency@[walk@[k] as int]@.len() && adjacency@[walk@[k] as int]@[w] == walk@[k + 1];
                    assert(refers(groups@, walk@[k] as int, adjacency@[walk@[k] as int]@[w] as int));
                }
                assert(reference_cycle(groups@, walk@));
            }
            Some(names)
        },
        None => {
            proof {
                assert forall|walk: Seq<usize>| !reference_cycle(groups@, walk) by {
                    if reference_cycle(groups@, walk) {
                        let last = walk.len() - 1;
                        assert(refers(groups@, walk[last - 1] as int, walk[last] as int));
                        assert(follows(adjacency@, walk)) by {
                            assert forall|i: int| 0 <= i < walk.len() - 1 implies {
                                &&& 0 <= #[trigger] walk[i] < adjacency.len()
                                &&& adjacency@[walk[i] as int]@.contains(walk[i + 1])
                            } by {
                                assert(refers(groups@, walk[i] as int, walk[i + 1] as int));
                            }
                        }
                        assert(is_cycle(adjacency@, walk));
                        assert(last_of_name(groups@, walk[0] as int));
                        assert(roots@.contains(walk[0]));
                    }
                }
            }
            None
        },
    }
}

/// The first node carrying `uuid`.
pub open spec fn node_found(nodes: Seq<NodeInstance>, uuid: u128) -> Option<NodeInstance>
    decreases nodes.len(),
{
    if nodes.len() == 0 {
        None
    } else if nodes[0].uuid == uuid {
        Some(nodes[0])
    } else {
        node_found(nodes.drop_first(), uuid)
    }
}

proof fn lemma_node_found(nodes: Seq<NodeInstance>, uuid: u128, k: int)
    requires
        0 <= k <= nodes.len(),
        k < nodes.len() ==> nodes[k].uuid == uuid,
        forall|j: int| 0 <= j < k ==> (#[trigger] nodes[j]).uuid != uuid,
    ensures
        node_found(nodes, uuid) == if k < nodes.len() { Some(nodes[k]) } else { None },
    decreases k,
{
    if nodes.len() > 0 && k > 0 {
        assert(nodes[0].uuid != uuid);
        assert forall|j: int| 0 <= j < k - 1 implies (#[trigger] nodes.drop_first()[j]).uuid != uuid by {
            assert(nodes.drop_first()[j] == nodes[j + 1]);
        }
        lemma_node_found(nodes.drop_first(), uuid, k - 1);
    }
}

/// The first exposed port named `name`.
pub open spec fn exposed_port(ports: Seq<GroupPort>, name: Seq<char>) -> Option<GroupPort>
    decreases ports.len(),
{
    if ports.len() == 0 {
        None
    } else if ports[0].name@ == name {
        Some(ports[0])
    } else {
        exposed_port(ports.drop_first(), name)
    }
}

proof fn lemma_exposed_port(ports: Seq<GroupPort>, name: Seq<char>, b: int)
    requires
        0 <= b <= ports.len(),
        b < ports.len() ==> ports[b].name@ == name,
        forall|j: int| 0 <= j < b ==> (#[trigger] ports[j]).name@ != name,
    ensures
        exposed_port(ports, name) == if b < ports.len() { Some(ports[b]) } else { None },
    decreases b,
{
    if ports.len() > 0 && b > 0 {
        assert(ports[0].name@ != name);
        assert forall|j: int| 0 <= j < b - 1 implies (#[trigger] ports.drop_first()[j]).name@ != name by {
            assert(ports.drop_first()[j] == ports[j + 1]);
        }
        lemma_exposed_port(ports.drop_first(), name, b - 1);
    }
}

/// The group a name refers to: the last defined under it.
pub open spec fn group_by_name(groups: Seq<GroupDefinition>, name: Seq<char>) -> Option<GroupDefinition>
    decreases groups.len(),
{
    if groups.len() == 0 {
        None
    } else if groups.last().name@ == name {
        Some(groups.last())
    } else {
        group_by_name(groups.drop_last(), name)
    }
}

proof fn lemma_group_by_name(groups: Seq<GroupDefinition>, name: Seq<char>, g: int)
    requires
        -1 <= g < groups.len(),
        g >= 0 ==> groups[g].name@ == name,
        forall|h: int| g < h < groups.len() ==> (#[trigger] groups[h]).name@ != name,
    ensures
        group_by_name(groups, name) == if g >= 0 { Some(groups[g]) } else { None },
    decreases groups.len(),
{
    if groups.len() > 0 && g < groups.len() - 1 {
        assert(groups[groups.len() - 1].name@ != name);
        assert forall|h: int| g < h < groups.drop_last().len() implies (#[trigger] groups.drop_last()[h]).name@ != name by {
            assert(groups.drop_last()[h] == groups[h]);
        }
        lemma_group_by_name(groups.drop_last(), name, g);
    }
}

/// The position of the group a name refers to: the last defined under it.
pub open spec fn group_position(groups: Seq<GroupDefinition>, name: Seq<char>) -> Option<int>
    decreases groups.len(),
{
    if groups.len() == 0 {
        None
    } else if groups.last().name@ == name {
        Some(groups.len() - 1)
    } else {
        group_position(groups.drop_last(), name)
    }
}

proof fn lemma_group_position(groups: Seq<GroupDefinition>, name: Seq<char>, g: int)
    requires
        -1 <= g < groups.len(),
        g >= 0 ==> groups[g].name@ == name,
        forall|h: int| g < h < groups.len() ==> (#[trigger] groups[h]).name@ != name,
    ensures
        group_position(groups, name) == if g >= 0 { Some(g) } else { None::<int> },
    decreases groups.len(),
{
    if groups.len() > 0 && g < groups.len() - 1 {
        assert(groups[groups.len() - 1].name@ != name);
        assert forall|h: int| g < h < groups.drop_last().len() implies (#[trigger] groups.drop_last()[h]).name@ != name by {
            assert(groups.drop_last()[h] == groups[h]);
        }
        lemma_group_position(groups.drop_last(), name, g);
    }
}

proof fn lemma_group_position_found(groups: Seq<GroupDefinition>, name: Seq<char>)
    requires
        group_position(groups, name) is Some,
    ensures
        0 <= group_position(groups, name)->0 < groups.len(),
        groups[group_position(groups, name)->0].name@ == name,
    decreases groups.len(),
{
    if groups.len() > 0 && groups.last().name@ != name {
        lemma_group_position_found(groups.drop_last(), name);
    }
}

/// Where the exposed port `port` of an instance of group `g` leads: the
/// inner port its binding chain ends on, named by its compiled identity,
/// or the error an exposed port the group lacks reports. A binding to a
/// node the group lacks, or a chain longer than the fuel, ends nowhere,
/// reported elsewhere.
pub open spec fn exposed_end(groups: Seq<GroupDefinition>, g: int, instance: NodeInstance, chain: Seq<u128>, instance_uuid: u128,
    port: Seq<char>, side: Side, fuel: nat) -> (Option<(u128, Seq<char>)>, Option<(Seq<char>, Seq<u128>)>)
    decreases fuel,
{
    let group = groups[g];
    match exposed_port(side_ports(group, side), port) {
        None => (None, Some((
            "group instance "@ + (match instance.label { Some(label) => label@, None => group.name@ }) + " has no exposed "@
                + side_name(side) + " port `"@ + port + "`"@,
            seq![instance_uuid],
        ))),
        Some(binding) => match node_found(group.nodes@, binding.node) {
            None => (None, None),
            Some(inner) => match group_position(groups, inner.type_ref@) {
                Some(nested) => if fuel == 0 {
                    (None, None)
                } else {
                    exposed_end(groups, nested, inner, chain.push(binding.node), binding.node, binding.port@, side, (fuel - 1) as nat)
                },
                None => (Some((identity_of(chain, binding.node), binding.port@)), None),
            },
        },
    }
}

/// Where an inner edge's end on node `uuid` of group `g` leads: straight
/// to the node, or through the nested instance's exposed port; or the
/// error an end on a node the group lacks reports.
pub open spec fn crossed_end(groups: Seq<GroupDefinition>, g: int, chain: Seq<u128>, uuid: u128, port: Seq<char>, side: Side, fuel: nat)
    -> (Option<(u128, Seq<char>)>, Option<(Seq<char>, Seq<u128>)>)
{
    match node_found(groups[g].nodes@, uuid) {
        None => (None, Some((
            "an inner edge of group `"@ + groups[g].name@ + "` lands on node "@ + hyphenated(uuid) + ", which the group does not contain"@,
            Seq::empty(),
        ))),
        Some(inner) => match group_position(groups, inner.type_ref@) {
            Some(nested) => exposed_end(groups, nested, inner, chain.push(uuid), uuid, port, side, fuel),
            None => (Some((identity_of(chain, uuid), port)), None),
        },
    }
}

/// The problems after one step: one more, with this message and these
/// nodes, where the step reports; else the same.
pub open spec fn reports_one(before: Seq<Problem>, after: Seq<Problem>, finding: Option<(Seq<char>, Seq<u128>)>) -> bool {
    match finding {
        Some((message, nodes)) => {
            &&& after == before.push(after.last())
            &&& after.last().message@ == message
            &&& after.last().nodes@ == nodes
        },
        None => after == before,
    }
}

/// The exposed ports of one side of a group.
pub open spec fn side_ports(group: GroupDefinition, side: Side) -> Seq<GroupPort> {
    match side {
        Side::Input => group.inputs@,
        Side::Output => group.outputs@,
    }
}

/// How a side is named in messages.
pub open spec fn side_name(side: Side) -> Seq<char> {
    match side {
        Side::Input => "input"@,
        Side::Output => "output"@,
    }
}

/// The declared types of the port a binding binds, and the error it
/// reports where it cannot be resolved: a node the group does not
/// contain, a nested group that does not expose the port, a node type
/// that does not declare it. A node of no known type resolves to nothing,
/// and reports nothing here.
pub open spec fn binding_refs(groups: Seq<GroupDefinition>, registry: Registry, group: GroupDefinition, binding: GroupPort, side: Side)
    -> (Option<Seq<String>>, Option<Seq<char>>)
{
    let opening = "group `"@ + group.name@ + "`: the exposed "@ + side_name(side) + " port `"@ + binding.name@;
    match node_found(group.nodes@, binding.node) {
        None => (None, Some(opening + "` binds node "@ + hyphenated(binding.node) + ", which the group does not contain"@)),
        Some(inner) => match group_by_name(groups, inner.type_ref@) {
            Some(nested) => match exposed_port(side_ports(nested, side), binding.port@) {
                Some(p) => (Some(p.type_refs@), None),
                None => (None, Some(opening + "` binds `"@ + binding.port@ + "` on the instance "@
                    + (match inner.label { Some(label) => label@, None => nested.name@ }) + ", which does not expose it"@)),
            },
            None => match registry.node_type_of(inner.type_ref@) {
                None => (None, None),
                Some(t) => match port_named(match side { Side::Input => t.inputs@, Side::Output => t.outputs@ }, binding.port@) {
                    Some(found) => (Some(found.type_refs@), None),
                    None => (None, Some(opening + "` binds port `"@ + binding.port@ + "` on node "@
                        + (match inner.label { Some(label) => label@, None => t.label@ }) + ", which does not declare it"@)),
                },
            },
        },
    }
}

/// How a binding's declared types and the types of the port it binds
/// resolve, in the direction values flow across that side.
pub open spec fn bridge(registry: Registry, side: Side, declared: Seq<String>, bound: Seq<String>)
    -> Option<(crate::resolve::Resolved, Option<crate::model::Conversion>)>
{
    match side {
        Side::Input => crate::resolve::resolution(registry, declared, bound),
        Side::Output => crate::resolve::resolution(registry, bound, declared),
    }
}

/// What checking one binding finds: the error resolving it, or, where it
/// resolved, the types it cannot bridge; each marking the instances.
pub open spec fn binding_findings(groups: Seq<GroupDefinition>, registry: Registry, group: GroupDefinition, binding: GroupPort, side: Side, instances: Seq<u128>)
    -> Seq<(Seq<char>, Seq<u128>)>
{
    let found = binding_refs(groups, registry, group, binding, side);
    let unresolved = match found.1 {
        Some(message) => seq![(message, instances)],
        None => Seq::empty(),
    };
    let unbridged = match found.0 {
        Some(bound) => if bridge(registry, side, binding.type_refs@, bound) is None {
            seq![("group `"@ + group.name@ + "`: the exposed "@ + side_name(side) + " port `"@ + binding.name@ + "` declares "@
                + crate::text::joined(crate::text::views(binding.type_refs@), ", "@)
                + ", which cannot bridge to the port it binds ("@ + crate::text::joined(crate::text::views(bound), ", "@) + ")"@,
                instances)]
        } else {
            Seq::empty()
        },
        None => Seq::empty(),
    };
    unresolved + unbridged
}

/// What checking the bindings of one side finds, in order.
pub open spec fn side_findings(groups: Seq<GroupDefinition>, registry: Registry, group: GroupDefinition, bindings: Seq<GroupPort>, side: Side, instances: Seq<u128>)
    -> Seq<(Seq<char>, Seq<u128>)>
    decreases bindings.len(),
{
    if bindings.len() == 0 {
        Seq::empty()
    } else {
        side_findings(groups, registry, group, bindings.drop_last(), side, instances)
            + binding_findings(groups, registry, group, bindings.last(), side, instances)
    }
}

/// What checking the first `sides` sides of a group finds: inputs, then
/// outputs.
pub open spec fn sides_findings(groups: Seq<GroupDefinition>, registry: Registry, group: GroupDefinition, sides: int, instances: Seq<u128>)
    -> Seq<(Seq<char>, Seq<u128>)>
{
    if sides <= 0 {
        Seq::empty()
    } else if sides == 1 {
        side_findings(groups, registry, group, group.inputs@, Side::Input, instances)
    } else {
        side_findings(groups, registry, group, group.inputs@, Side::Input, instances)
            + side_findings(groups, registry, group, group.outputs@, Side::Output, instances)
    }
}

/// What checking the interfaces of the live groups finds, in document
/// order.
pub open spec fn interface_findings(groups: Seq<GroupDefinition>, registry: Registry, defined: Seq<GroupDefinition>, live: Seq<String>, nodes: Seq<NodeInstance>)
    -> Seq<(Seq<char>, Seq<u128>)>
    decreases defined.len(),
{
    if defined.len() == 0 {
        Seq::empty()
    } else {
        let rest = interface_findings(groups, registry, defined.drop_last(), live, nodes);
        let group = defined.last();
        if crate::text::has_name(live, group.name@) {
            rest + sides_findings(groups, registry, group, 2, instances_named(nodes, group.name@))
        } else {
            rest
        }
    }
}

/// Whether some group's exposed port of `ports` is named `name`.
fn exposed_named(ports: &Vec<GroupPort>, name: &str) -> (found: Option<usize>)
    ensures
        match found {
            Some(b) => b < ports.len() && ports@[b as int].name@ == name@
                && forall|j: int| 0 <= j < b ==> (#[trigger] ports@[j]).name@ != name@,
            None => forall|b: int| 0 <= b < ports.len() ==> (#[trigger] ports@[b]).name@ != name@,
        },
{
    let mut b: usize = 0;
    while b < ports.len()
        invariant
            b <= ports.len(),
            forall|j: int| 0 <= j < b ==> (#[trigger] ports@[j]).name@ != name@,
        decreases ports.len() - b,
    {
        if same_text(ports[b].name.as_str(), name) {
            return Some(b);
        }
        b = b + 1;
    }
    None
}

/// The message naming a group a linked plugin also declares.
pub open spec fn collision_message(name: Seq<char>) -> Seq<char> {
    "group `"@ + name + "` collides with a node type a linked plugin declares; the group's instances would be ambiguous"@
}

/// One finding for each live group, in document order, whose name a
/// linked plugin declares: its message, and the top-level instances of it.
pub open spec fn collisions(groups: Seq<GroupDefinition>, live: Seq<String>, registry: Registry, nodes: Seq<NodeInstance>)
    -> Seq<(Seq<char>, Seq<u128>)>
    decreases groups.len(),
{
    if groups.len() == 0 {
        Seq::empty()
    } else {
        let rest = collisions(groups.drop_last(), live, registry, nodes);
        let name = groups.last().name@;
        if crate::text::has_name(live, name) && registry.node_type_of(name) is Some {
            rest.push((collision_message(name), instances_named(nodes, name)))
        } else {
            rest
        }
    }
}

/// The flat graph after an expansion step, against before: provenance,
/// edges and problems only appended to, every new provenance entry tracing
/// to `root`, and the nodes already there keeping their identity and type.
pub open spec fn extends(before: Flat, after: Flat, root: u128) -> bool {
    &&& after.provenance@.len() >= before.provenance@.len()
    &&& after.provenance@.subrange(0, before.provenance@.len() as int) == before.provenance@
    &&& forall|i: int| before.provenance@.len() <= i < after.provenance@.len() ==> (#[trigger] after.provenance@[i]).1 == root
    &&& after.nodes@.len() >= before.nodes@.len()
    &&& forall|k: int| 0 <= k < before.nodes@.len() ==> (#[trigger] after.nodes@[k]).uuid == before.nodes@[k].uuid
        && after.nodes@[k].type_ref@ == before.nodes@[k].type_ref@
    &&& after.edges@.len() >= before.edges@.len()
    &&& after.edges@.subrange(0, before.edges@.len() as int) == before.edges@
    &&& after.errors@.len() >= before.errors@.len()
    &&& after.errors@.subrange(0, before.errors@.len() as int) == before.errors@
}

/// The provenance appended since `from` records `identity` as coming from
/// `root`.
pub open spec fn traces(flat: Flat, from: int, identity: u128, root: u128) -> bool {
    exists|i: int| from <= i < flat.provenance@.len() && #[trigger] flat.provenance@[i] == (identity, root)
}

/// A node appended since `from` carries `identity` and the type `type_ref`.
pub open spec fn carries_node(flat: Flat, from: int, identity: u128, type_ref: Seq<char>) -> bool {
    exists|k: int| from <= k < flat.nodes@.len() && (#[trigger] flat.nodes@[k]).uuid == identity && flat.nodes@[k].type_ref@ == type_ref
}

proof fn lemma_extends_same(flat: Flat, root: u128)
    ensures
        extends(flat, flat, root),
{
    assert(flat.provenance@.subrange(0, flat.provenance@.len() as int) =~= flat.provenance@);
    assert(flat.edges@.subrange(0, flat.edges@.len() as int) =~= flat.edges@);
    assert(flat.errors@.subrange(0, flat.errors@.len() as int) =~= flat.errors@);
}

proof fn lemma_extends_chain(a: Flat, b: Flat, c: Flat, root: u128)
    requires
        extends(a, b, root),
        extends(b, c, root),
    ensures
        extends(a, c, root),
        forall|from: int, identity: u128| 0 <= from <= b.provenance@.len() && #[trigger] traces(b, from, identity, root) ==> traces(c, from, identity, root),
        forall|from: int, identity: u128, t: Seq<char>| 0 <= from <= b.nodes@.len() && #[trigger] carries_node(b, from, identity, t) ==> carries_node(c, from, identity, t),
{
    assert(c.provenance@.subrange(0, a.provenance@.len() as int) =~= a.provenance@) by {
        assert forall|i: int| 0 <= i < a.provenance@.len() implies c.provenance@[i] == a.provenance@[i] by {
            assert(c.provenance@.subrange(0, b.provenance@.len() as int)[i] == b.provenance@[i]);
            assert(b.provenance@.subrange(0, a.provenance@.len() as int)[i] == a.provenance@[i]);
        }
    }
    assert forall|i: int| a.provenance@.len() <= i < c.provenance@.len() implies (#[trigger] c.provenance@[i]).1 == root by {
        if i < b.provenance@.len() {
            assert(c.provenance@.subrange(0, b.provenance@.len() as int)[i] == b.provenance@[i]);
        }
    }
    assert(c.edges@.subrange(0, a.edges@.len() as int) =~= a.edges@) by {
        assert forall|i: int| 0 <= i < a.edges@.len() implies c.edges@[i] == a.edges@[i] by {
            assert(c.edges@.subrange(0, b.edges@.len() as int)[i] == b.edges@[i]);
            assert(b.edges@.subrange(0, a.edges@.len() as int)[i] == a.edges@[i]);
        }
    }
    assert(c.errors@.subrange(0, a.errors@.len() as int) =~= a.errors@) by {
        assert forall|i: int| 0 <= i < a.errors@.len() implies c.errors@[i] == a.errors@[i] by {
            assert(c.errors@.subrange(0, b.errors@.len() as int)[i] == b.errors@[i]);
            assert(b.errors@.subrange(0, a.errors@.len() as int)[i] == a.errors@[i]);
        }
    }
    assert forall|from: int, identity: u128| 0 <= from <= b.provenance@.len() && #[trigger] traces(b, from, identity, root)
        implies traces(c, from, identity, root) by {
        let i = choose|i: int| from <= i < b.provenance@.len() && #[trigger] b.provenance@[i] == (identity, root);
        assert(c.provenance@.subrange(0, b.provenance@.len() as int)[i] == b.provenance@[i]);
        assert(c.provenance@[i] == (identity, root));
    }
    assert forall|from: int, identity: u128, t: Seq<char>| 0 <= from <= b.nodes@.len() && #[trigger] carries_node(b, from, identity, t)
        implies carries_node(c, from, identity, t) by {
        let k = choose|k: int| from <= k < b.nodes@.len() && (#[trigger] b.nodes@[k]).uuid == identity && b.nodes@[k].type_ref@ == t;
        assert(c.nodes@[k].uuid == identity);
    }
}

/// One finding for each parameter of a group instance, in order, that
/// names no exposed input of the group, marking the top-level instance.
pub open spec fn unexposed_parameters(group: GroupDefinition, label: Seq<char>, parameters: Seq<(String, ParameterValue)>, root: u128)
    -> Seq<(Seq<char>, Seq<u128>)>
    decreases parameters.len(),
{
    if parameters.len() == 0 {
        Seq::empty()
    } else {
        let rest = unexposed_parameters(group, label, parameters.drop_last(), root);
        let name = parameters.last().0@;
        if exposed_port(group.inputs@, name) is None {
            rest.push(("group instance "@ + label + ": parameter `"@ + name + "` does not name an exposed input"@, seq![root]))
        } else {
            rest
        }
    }
}

/// One finding for each exposed input, in order, that receives a literal
/// through the boundary while the instance carries a parameter for it.
pub open spec fn doubled_inputs(group: GroupDefinition, label: Seq<char>, parameters: Seq<(String, ParameterValue)>,
    passed: Seq<(String, ParameterValue)>, inputs: Seq<GroupPort>, root: u128) -> Seq<(Seq<char>, Seq<u128>)>
    decreases inputs.len(),
{
    if inputs.len() == 0 {
        Seq::empty()
    } else {
        let rest = doubled_inputs(group, label, parameters, passed, inputs.drop_last(), root);
        let name = inputs.last().name@;
        if crate::graph::has_parameter(parameters, name) && crate::graph::has_parameter(passed, name) {
            rest.push(("group instance "@ + label + " receives the exposed input `"@ + name
                + "` through the boundary while carrying a parameter for it; an input carries one or the other"@, seq![root]))
        } else {
            rest
        }
    }
}

/// What expanding a group instance first reports at its boundary: the
/// parameters naming no exposed input, then the inputs fed both ways.
pub open spec fn boundary_findings(group: GroupDefinition, label: Seq<char>, parameters: Seq<(String, ParameterValue)>,
    passed: Seq<(String, ParameterValue)>, root: u128) -> Seq<(Seq<char>, Seq<u128>)>
{
    unexposed_parameters(group, label, parameters, root) + doubled_inputs(group, label, parameters, passed, group.inputs@, root)
}

/// The flat graph only grew: provenance, edges and problems appended to,
/// and the nodes already there keeping their identity and type.
pub open spec fn grows(before: Flat, after: Flat) -> bool {
    &&& after.provenance@.len() >= before.provenance@.len()
    &&& after.provenance@.subrange(0, before.provenance@.len() as int) == before.provenance@
    &&& after.nodes@.len() >= before.nodes@.len()
    &&& forall|k: int| 0 <= k < before.nodes@.len() ==> (#[trigger] after.nodes@[k]).uuid == before.nodes@[k].uuid
        && after.nodes@[k].type_ref@ == before.nodes@[k].type_ref@
    &&& after.edges@.len() >= before.edges@.len()
    &&& after.edges@.subrange(0, before.edges@.len() as int) == before.edges@
    &&& after.errors@.len() >= before.errors@.len()
    &&& after.errors@.subrange(0, before.errors@.len() as int) == before.errors@
}

proof fn lemma_grows_chain(a: Flat, b: Flat, c: Flat)
    requires
        grows(a, b),
        grows(b, c),
    ensures
        grows(a, c),
        forall|identity: u128, root: u128| #[trigger] traces(b, 0, identity, root) ==> traces(c, 0, identity, root),
        forall|identity: u128, t: Seq<char>| #[trigger] carries_node(b, 0, identity, t) ==> carries_node(c, 0, identity, t),
{
    assert(c.provenance@.subrange(0, a.provenance@.len() as int) =~= a.provenance@) by {
        assert forall|i: int| 0 <= i < a.provenance@.len() implies c.provenance@[i] == a.provenance@[i] by {
            assert(c.provenance@.subrange(0, b.provenance@.len() as int)[i] == b.provenance@[i]);
            assert(b.provenance@.subrange(0, a.provenance@.len() as int)[i] == a.provenance@[i]);
        }
    }
    assert(c.edges@.subrange(0, a.edges@.len() as int) =~= a.edges@) by {
        assert forall|i: int| 0 <= i < a.edges@.len() implies c.edges@[i] == a.edges@[i] by {
            assert(c.edges@.subrange(0, b.edges@.len() as int)[i] == b.edges@[i]);
            assert(b.edges@.subrange(0, a.edges@.len() as int)[i] == a.edges@[i]);
        }
    }
    assert(c.errors@.subrange(0, a.errors@.len() as int) =~= a.errors@) by {
        assert forall|i: int| 0 <= i < a.errors@.len() implies c.errors@[i] == a.errors@[i] by {
            assert(c.errors@.subrange(0, b.errors@.len() as int)[i] == b.errors@[i]);
            assert(b.errors@.subrange(0, a.errors@.len() as int)[i] == a.errors@[i]);
        }
    }
    assert forall|identity: u128, root: u128| #[trigger] traces(b, 0, identity, root) implies traces(c, 0, identity, root) by {
        let i = choose|i: int| 0 <= i < b.provenance@.len() && #[trigger] b.provenance@[i] == (identity, root);
        assert(c.provenance@.subrange(0, b.provenance@.len() as int)[i] == b.provenance@[i]);
        assert(c.provenance@[i] == (identity, root));
    }
    assert forall|identity: u128, t: Seq<char>| #[trigger] carries_node(b, 0, identity, t) implies carries_node(c, 0, identity, t) by {
        let k = choose|k: int| 0 <= k < b.nodes@.len() && (#[trigger] b.nodes@[k]).uuid == identity && b.nodes@[k].type_ref@ == t;
        assert(c.nodes@[k].uuid == identity);
    }
}

proof fn lemma_grows_of_extends(a: Flat, b: Flat, root: u128)
    requires
        extends(a, b, root),
    ensures
        grows(a, b),
        forall|from: int, identity: u128| 0 <= from && #[trigger] traces(b, from, identity, root) ==> traces(b, 0, identity, root),
        forall|from: int, identity: u128, t: Seq<char>| 0 <= from && #[trigger] carries_node(b, from, identity, t) ==> carries_node(b, 0, identity, t),
{
}

/// Where a top-level instance lands in the flat graph: a group instance's
/// inner nodes each traced back to it under their derived identity, its
/// plain inner nodes carried under that identity with their type; any
/// other instance carried under its own uuid and type.
pub open spec fn placed(groups: Seq<GroupDefinition>, instance: NodeInstance, flat: Flat) -> bool {
    match group_position(groups, instance.type_ref@) {
        Some(g) => {
            &&& forall|n: int| 0 <= n < groups[g].nodes@.len() ==> traces(flat, 0,
                identity_of(seq![instance.uuid], (#[trigger] groups[g].nodes@[n]).uuid), instance.uuid)
            &&& forall|n: int| 0 <= n < groups[g].nodes@.len()
                && group_position(groups, (#[trigger] groups[g].nodes@[n]).type_ref@) is None
                ==> carries_node(flat, 0, identity_of(seq![instance.uuid], groups[g].nodes@[n].uuid), groups[g].nodes@[n].type_ref@)
        },
        None => carries_node(flat, 0, instance.uuid, instance.type_ref@),
    }
}

proof fn lemma_placed_grows(groups: Seq<GroupDefinition>, instance: NodeInstance, a: Flat, b: Flat)
    requires
        placed(groups, instance, a),
        grows(a, b),
    ensures
        placed(groups, instance, b),
{
    lemma_grows_same(a);
    lemma_grows_chain(a, a, b);
    match group_position(groups, instance.type_ref@) {
        Some(g) => {
            assert forall|n: int| 0 <= n < groups[g].nodes@.len() implies traces(b, 0,
                identity_of(seq![instance.uuid], (#[trigger] groups[g].nodes@[n]).uuid), instance.uuid) by {
                assert(traces(a, 0, identity_of(seq![instance.uuid], groups[g].nodes@[n].uuid), instance.uuid));
            }
            assert forall|n: int| 0 <= n < groups[g].nodes@.len()
                && group_position(groups, (#[trigger] groups[g].nodes@[n]).type_ref@) is None
                implies carries_node(b, 0, identity_of(seq![instance.uuid], groups[g].nodes@[n].uuid), groups[g].nodes@[n].type_ref@) by {
                assert(carries_node(a, 0, identity_of(seq![instance.uuid], groups[g].nodes@[n].uuid), groups[g].nodes@[n].type_ref@));
            }
        },
        None => {},
    }
}

proof fn lemma_grows_same(flat: Flat)
    ensures
        grows(flat, flat),
{
    assert(flat.provenance@.subrange(0, flat.provenance@.len() as int) =~= flat.provenance@);
    assert(flat.edges@.subrange(0, flat.edges@.len() as int) =~= flat.edges@);
    assert(flat.errors@.subrange(0, flat.errors@.len() as int) =~= flat.errors@);
}

/// Where a top-level edge's end lands once groups are flattened: through
/// the exposed port of a group instance, else where the definition writes it.
pub open spec fn edge_end(groups: Seq<GroupDefinition>, nodes: Seq<NodeInstance>, uuid: u128, port: Seq<char>, side: Side, fuel: nat)
    -> Option<(u128, Seq<char>)>
{
    match node_found(nodes, uuid) {
        Some(instance) => match group_position(groups, instance.type_ref@) {
            Some(g) => exposed_end(groups, g, instance, seq![uuid], uuid, port, side, fuel).0,
            None => Some((uuid, port)),
        },
        None => Some((uuid, port)),
    }
}

/// The top-level edges rewired across group boundaries, in order: each
/// whose two ends land somewhere.
pub open spec fn rewired(groups: Seq<GroupDefinition>, nodes: Seq<NodeInstance>, edges: Seq<Edge>, fuel: nat)
    -> Seq<(u128, Seq<char>, u128, Seq<char>)>
    decreases edges.len(),
{
    if edges.len() == 0 {
        Seq::empty()
    } else {
        let rest = rewired(groups, nodes, edges.drop_last(), fuel);
        let edge = edges.last();
        match (edge_end(groups, nodes, edge.from, edge.from_port@, Side::Output, fuel),
            edge_end(groups, nodes, edge.to, edge.to_port@, Side::Input, fuel)) {
            (Some(from), Some(to)) => rest.push((from.0, from.1, to.0, to.1)),
            _ => rest,
        }
    }
}

/// The edges after `from` are the listed ones, in order.
pub open spec fn edges_listed(edges: Seq<Edge>, from: int, listed: Seq<(u128, Seq<char>, u128, Seq<char>)>) -> bool {
    &&& edges.len() == from + listed.len()
    &&& forall|i: int| 0 <= i < listed.len() ==> {
        &&& (#[trigger] edges[from + i]).from == listed[i].0
        &&& edges[from + i].from_port@ == listed[i].1
        &&& edges[from + i].to == listed[i].2
        &&& edges[from + i].to_port@ == listed[i].3
    }
}

/// Each group name defined again after an earlier definition, in order.
pub open spec fn duplicate_groups(groups: Seq<GroupDefinition>) -> Seq<(Seq<char>, Seq<u128>)>
    decreases groups.len(),
{
    if groups.len() == 0 {
        Seq::empty()
    } else {
        let rest = duplicate_groups(groups.drop_last());
        let name = groups.last().name@;
        if exists|h: int| 0 <= h < groups.len() - 1 && (#[trigger] groups[h]).name@ == name {
            rest.push(("duplicate group name `"@ + name + "`"@, Seq::empty()))
        } else {
            rest
        }
    }
}

/// The flattening in progress.
struct Flattener<'a> {
    groups: &'a Vec<GroupDefinition>,
    registry: &'a Registry,
    flat: Flat,
}

impl<'a> Flattener<'a> {
    fn error(&mut self, message: String, nodes: Vec<u128>)
        ensures
            final(self).flat.errors@ == old(self).flat.errors@.push(final(self).flat.errors@.last()),
            final(self).flat.errors@.last().message@ == message@,
            final(self).flat.errors@.last().nodes@ == nodes@,
            final(self).flat.nodes == old(self).flat.nodes,
            final(self).flat.edges == old(self).flat.edges,
            final(self).flat.provenance == old(self).flat.provenance,
            final(self).groups == old(self).groups,
            final(self).registry == old(self).registry,
    {
        self.flat.errors.push(problem_of(message, nodes));
    }

    /// A group whose name a linked plugin also claims would make its
    /// instances' type references ambiguous.
    #[verifier::spinoff_prover]
    fn check_collisions(&mut self, definition: &GraphDefinition, live: &Vec<String>)
        requires
            old(self).registry.wf(),
        ensures
            final(self).registry == old(self).registry,
            final(self).groups == old(self).groups,
            final(self).flat.nodes == old(self).flat.nodes,
            final(self).flat.edges == old(self).flat.edges,
            final(self).flat.provenance == old(self).flat.provenance,
            reported(old(self).flat.errors@, final(self).flat.errors@,
                collisions(definition.groups@, live@, *old(self).registry, definition.nodes@)),
    {
        let ghost errors_before = self.flat.errors@;
        proof {
            lemma_reported_none(errors_before);
            assert(definition.groups@.subrange(0, 0) =~= Seq::<GroupDefinition>::empty());
        }
        let mut g: usize = 0;
        while g < definition.groups.len()
            invariant
                g <= definition.groups.len(),
                self.registry.wf(),
                self.registry == old(self).registry,
                self.groups == old(self).groups,
                self.flat.nodes == old(self).flat.nodes,
                self.flat.edges == old(self).flat.edges,
                self.flat.provenance == old(self).flat.provenance,
                errors_before == old(self).flat.errors@,
                reported(errors_before, self.flat.errors@,
                    collisions(definition.groups@.subrange(0, g as int), live@, *self.registry, definition.nodes@)),
            decreases definition.groups.len() - g,
        {
            assert(definition.groups@.subrange(0, g + 1).drop_last() =~= definition.groups@.subrange(0, g as int));
            let group = &definition.groups[g];
            if contains_name(live, group.name.as_str()) && self.registry.node_type(group.name.as_str()).is_some() {
                let mut message = "group `".to_owned();
                message.append(group.name.as_str());
                message.append("` collides with a node type a linked plugin declares; the group's instances would be ambiguous");
                let instances = instances_of(definition, group.name.as_str());
                let ghost mid = self.flat.errors@;
                self.error(message, instances);
                proof {
                    lemma_reported_push(errors_before, mid, collisions(definition.groups@.subrange(0, g as int), live@, *self.registry, definition.nodes@),
                        self.flat.errors@.last(), (collision_message(group.name@), instances_named(definition.nodes@, group.name@)));
                }
            }
            g = g + 1;
        }
        assert(definition.groups@.subrange(0, definition.groups.len() as int) =~= definition.groups@);
    }

    /// The declared types of the port one binding binds, or none when the
    /// binding cannot be resolved — its own error reported here, or the
    /// node's unknown type reported where the node compiles.
    #[verifier::spinoff_prover]
    fn bound_refs(&mut self, group: &GroupDefinition, binding: &GroupPort, side: Side, instances: &Vec<u128>) -> (refs: Option<Vec<String>>)
        requires
            old(self).registry.wf(),
        ensures
            final(self).registry == old(self).registry,
            final(self).groups == old(self).groups,
            final(self).flat.nodes == old(self).flat.nodes,
            final(self).flat.edges == old(self).flat.edges,
            final(self).flat.provenance == old(self).flat.provenance,
            (match refs { Some(r) => Some(r@), None => None })
                == binding_refs(old(self).groups@, *old(self).registry, *group, *binding, side).0,
            match binding_refs(old(self).groups@, *old(self).registry, *group, *binding, side).1 {
                Some(message) => {
                    &&& final(self).flat.errors@ == old(self).flat.errors@.push(final(self).flat.errors@.last())
                    &&& final(self).flat.errors@.last().message@ == message
                    &&& final(self).flat.errors@.last().nodes@ == instances@
                },
                None => final(self).flat.errors == old(self).flat.errors,
            },
    {
        let inner = match node_with(&group.nodes, binding.node) {
            Some(k) => {
                proof {
                    lemma_node_found(group.nodes@, binding.node, k as int);
                }
                &group.nodes[k]
            },
            None => {
                proof {
                    lemma_node_found(group.nodes@, binding.node, group.nodes@.len() as int);
                }
                let mut message = "group `".to_owned();
                message.append(group.name.as_str());
                message.append("`: the exposed ");
                message.append(side.name());
                message.append(" port `");
                message.append(binding.name.as_str());
                message.append("` binds node ");
                let id = uuid_text(binding.node);
                message.append(id.as_str());
                message.append(", which the group does not contain");
                self.error(message, copy_uuids(instances));
                return None;
            },
        };
        match group_named(self.groups, inner.type_ref.as_str()) {
            Some(n) => {
                proof {
                    lemma_group_by_name(self.groups@, inner.type_ref@, n as int);
                }
                let nested = &self.groups[n];
                let ports = match side {
                    Side::Input => &nested.inputs,
                    Side::Output => &nested.outputs,
                };
                assert(ports@ == side_ports(*nested, side));
                match exposed_named(ports, binding.port.as_str()) {
                    Some(b) => {
                        proof {
                            lemma_exposed_port(ports@, binding.port@, b as int);
                        }
                        Some(copy_names(&ports[b].type_refs))
                    },
                    None => {
                        proof {
                            lemma_exposed_port(ports@, binding.port@, ports@.len() as int);
                        }
                        let label = match &inner.label {
                            Some(label) => label.clone(),
                            None => nested.name.clone(),
                        };
                        let mut message = "group `".to_owned();
                        message.append(group.name.as_str());
                        message.append("`: the exposed ");
                        message.append(side.name());
                        message.append(" port `");
                        message.append(binding.name.as_str());
                        message.append("` binds `");
                        message.append(binding.port.as_str());
                        message.append("` on the instance ");
                        message.append(label.as_str());
                        message.append(", which does not expose it");
                        self.error(message, copy_uuids(instances));
                        None
                    },
                }
            },
            None => {
                proof {
                    lemma_group_by_name(self.groups@, inner.type_ref@, -1);
                }
                let node_type = match self.registry.node_type(inner.type_ref.as_str()) {
                    Some(t) => t,
                    None => {
                        return None;
                    },
                };
                let ports = match side {
                    Side::Input => &node_type.inputs,
                    Side::Output => &node_type.outputs,
                };
                match crate::model::port(ports, binding.port.as_str()) {
                    Some(found) => Some(copy_names(&found.type_refs)),
                    None => {
                        let label = match &inner.label {
                            Some(label) => label.clone(),
                            None => node_type.label.clone(),
                        };
                        let mut message = "group `".to_owned();
                        message.append(group.name.as_str());
                        message.append("`: the exposed ");
                        message.append(side.name());
                        message.append(" port `");
                        message.append(binding.name.as_str());
                        message.append("` binds port `");
                        message.append(binding.port.as_str());
                        message.append("` on node ");
                        message.append(label.as_str());
                        message.append(", which does not declare it");
                        self.error(message, copy_uuids(instances));
                        None
                    },
                }
            },
        }
    }

    /// The interface each group the top level reaches declares, checked
    /// before anything is expanded: every binding names an inner port that
    /// exists, and the exposed port's declared types bridge to it.
    #[verifier::spinoff_prover]
    fn check_interfaces(&mut self, definition: &GraphDefinition, live: &Vec<String>)
        requires
            old(self).registry.wf(),
        ensures
            final(self).registry == old(self).registry,
            final(self).groups == old(self).groups,
            final(self).flat.nodes == old(self).flat.nodes,
            final(self).flat.edges == old(self).flat.edges,
            final(self).flat.provenance == old(self).flat.provenance,
            reported(old(self).flat.errors@, final(self).flat.errors@,
                interface_findings(old(self).groups@, *old(self).registry, definition.groups@, live@, definition.nodes@)),
    {
        let ghost original = self.flat.errors@;
        let ghost all = self.groups@;
        proof {
            lemma_reported_none(original);
            assert(definition.groups@.subrange(0, 0) =~= Seq::<GroupDefinition>::empty());
        }
        let mut g: usize = 0;
        while g < definition.groups.len()
            invariant
                g <= definition.groups.len(),
                self.registry.wf(),
                self.registry == old(self).registry,
                self.groups == old(self).groups,
                all == self.groups@,
                original == old(self).flat.errors@,
                self.flat.nodes == old(self).flat.nodes,
                self.flat.edges == old(self).flat.edges,
                self.flat.provenance == old(self).flat.provenance,
                reported(original, self.flat.errors@,
                    interface_findings(all, *self.registry, definition.groups@.subrange(0, g as int), live@, definition.nodes@)),
            decreases definition.groups.len() - g,
        {
            let ghost done = interface_findings(all, *self.registry, definition.groups@.subrange(0, g as int), live@, definition.nodes@);
            proof {
                assert(definition.groups@.subrange(0, g + 1).drop_last() =~= definition.groups@.subrange(0, g as int));
            }
            let group = &definition.groups[g];
            if contains_name(live, group.name.as_str()) {
                let instances = instances_of(definition, group.name.as_str());
                let ghost before_group = self.flat.errors@;
                proof {
                    lemma_reported_none(before_group);
                    assert(done + sides_findings(all, *self.registry, *group, 0, instances@) =~= done);
                }
                let mut s: usize = 0;
                while s < 2
                    invariant
                        s <= 2,
                        self.registry.wf(),
                        self.registry == old(self).registry,
                        self.groups == old(self).groups,
                        all == self.groups@,
                        original == old(self).flat.errors@,
                        self.flat.nodes == old(self).flat.nodes,
                        self.flat.edges == old(self).flat.edges,
                        self.flat.provenance == old(self).flat.provenance,
                        reported(original, before_group, done),
                        reported(before_group, self.flat.errors@, sides_findings(all, *self.registry, *group, s as int, instances@)),
                    decreases 2 - s,
                {
                    let side = if s == 0 { Side::Input } else { Side::Output };
                    let ports = if s == 0 { &group.inputs } else { &group.outputs };
                    assert(ports@ == side_ports(*group, side));
                    let ghost before_side = self.flat.errors@;
                    proof {
                        lemma_reported_none(before_side);
                        assert(ports@.subrange(0, 0) =~= Seq::<GroupPort>::empty());
                    }
                    let mut b: usize = 0;
                    while b < ports.len()
                        invariant
                            b <= ports.len(),
                            self.registry.wf(),
                            self.registry == old(self).registry,
                            self.groups == old(self).groups,
                            all == self.groups@,
                            self.flat.nodes == old(self).flat.nodes,
                            self.flat.edges == old(self).flat.edges,
                            self.flat.provenance == old(self).flat.provenance,
                            reported(before_side, self.flat.errors@,
                                side_findings(all, *self.registry, *group, ports@.subrange(0, b as int), side, instances@)),
                        decreases ports.len() - b,
                    {
                        proof {
                            assert(ports@.subrange(0, b + 1).drop_last() =~= ports@.subrange(0, b as int));
                        }
                        let binding = &ports[b];
                        let ghost before_binding = self.flat.errors@;
                        let ghost found = binding_refs(all, *self.registry, *group, *binding, side);
                        let ghost unresolved = match found.1 {
                            Some(message) => seq![(message, instances@)],
                            None => Seq::<(Seq<char>, Seq<u128>)>::empty(),
                        };
                        match self.bound_refs(group, binding, side, &instances) {
                            Some(refs) => {
                                proof {
                                    lemma_reported_none(self.flat.errors@);
                                }
                                let bridged = match side {
                                    Side::Input => resolve_types(&binding.type_refs, &refs, self.registry),
                                    Side::Output => resolve_types(&refs, &binding.type_refs, self.registry),
                                };
                                assert(bridged == bridge(*self.registry, side, binding.type_refs@, refs@));
                                let ghost after_bound = self.flat.errors@;
                                if bridged.is_none() {
                                    let mut message = "group `".to_owned();
                                    message.append(group.name.as_str());
                                    message.append("`: the exposed ");
                                    message.append(side.name());
                                    message.append(" port `");
                                    message.append(binding.name.as_str());
                                    message.append("` declares ");
                                    let declared = join_names(&binding.type_refs, ", ");
                                    message.append(declared.as_str());
                                    message.append(", which cannot bridge to the port it binds (");
                                    let bound = join_names(&refs, ", ");
                                    message.append(bound.as_str());
                                    message.append(")");
                                    let ghost shown = message@;
                                    self.error(message, copy_uuids(&instances));
                                    proof {
                                        lemma_reported_none(after_bound);
                                        lemma_reported_push(after_bound, after_bound, Seq::empty(), self.flat.errors@.last(), (shown, instances@));
                                        assert(Seq::<(Seq<char>, Seq<u128>)>::empty().push((shown, instances@)) =~= seq![(shown, instances@)]);
                                        assert(binding_findings(all, *self.registry, *group, *binding, side, instances@) =~= seq![(shown, instances@)]);
                                    }
                                } else {
                                    assert(binding_findings(all, *self.registry, *group, *binding, side, instances@) =~= Seq::<(Seq<char>, Seq<u128>)>::empty());
                                    proof {
                                        lemma_reported_none(after_bound);
                                    }
                                }
                            },
                            None => {
                                proof {
                                    match found.1 {
                                        Some(m) => {
                                            lemma_reported_none(before_binding);
                                            lemma_reported_push(before_binding, before_binding, Seq::empty(), self.flat.errors@.last(), (m, instances@));
                                            assert(Seq::<(Seq<char>, Seq<u128>)>::empty().push((m, instances@)) =~= unresolved);
                                        },
                                        None => {
                                            lemma_reported_none(before_binding);
                                        },
                                    }
                                    assert(binding_findings(all, *self.registry, *group, *binding, side, instances@) =~= unresolved);
                                    assert(unresolved =~= unresolved + Seq::<(Seq<char>, Seq<u128>)>::empty());
                                }
                            },
                        }
                        proof {
                            lemma_reported_chain(before_side, before_binding, self.flat.errors@,
                                side_findings(all, *self.registry, *group, ports@.subrange(0, b as int), side, instances@),
                                binding_findings(all, *self.registry, *group, *binding, side, instances@));
                        }
                        b = b + 1;
                    }
                    proof {
                        assert(ports@.subrange(0, ports@.len() as int) =~= ports@);
                        lemma_reported_chain(before_group, before_side, self.flat.errors@,
                            sides_findings(all, *self.registry, *group, s as int, instances@),
                            side_findings(all, *self.registry, *group, ports@, side, instances@));
                        if s == 0 {
                            assert(sides_findings(all, *self.registry, *group, 0, instances@)
                                + side_findings(all, *self.registry, *group, ports@, side, instances@)
                                =~= sides_findings(all, *self.registry, *group, 1, instances@));
                        }
                    }
                    s = s + 1;
                }
                proof {
                    lemma_reported_chain(original, before_group, self.flat.errors@, done,
                        sides_findings(all, *self.registry, *group, 2, instances@));
                }
            } else {
                assert(interface_findings(all, *self.registry, definition.groups@.subrange(0, g + 1), live@, definition.nodes@) == done);
            }
            g = g + 1;
        }
        assert(definition.groups@.subrange(0, definition.groups.len() as int) =~= definition.groups@);
    }

    /// Replace every group instance on the top level with its group's
    /// inner graph, recursing into the nested instances.
    fn expand(&mut self, definition: &GraphDefinition)
        requires
            old(self).registry.wf(),
            old(self).groups == &definition.groups,
        ensures
            final(self).registry == old(self).registry,
            final(self).groups == old(self).groups,
            definition.groups@.len() == 0 ==> final(self).flat.nodes@.len() == old(self).flat.nodes@.len() + definition.nodes@.len()
                && final(self).flat.errors == old(self).flat.errors
                && final(self).flat.edges == old(self).flat.edges
                && final(self).flat.provenance == old(self).flat.provenance
                && (forall|k: int| 0 <= k < old(self).flat.nodes@.len() ==> #[trigger] final(self).flat.nodes@[k] == old(self).flat.nodes@[k])
                && (forall|k: int| 0 <= k < definition.nodes@.len() ==>
                    (#[trigger] final(self).flat.nodes@[old(self).flat.nodes@.len() + k]).uuid == definition.nodes@[k].uuid
                    && final(self).flat.nodes@[old(self).flat.nodes@.len() + k].type_ref@ == definition.nodes@[k].type_ref@
                    && final(self).flat.nodes@[old(self).flat.nodes@.len() + k].label == definition.nodes@[k].label
                    && final(self).flat.nodes@[old(self).flat.nodes@.len() + k].parameters@ == definition.nodes@[k].parameters@),
            grows(old(self).flat, final(self).flat),
            forall|k: int| 0 <= k < definition.nodes@.len() ==> placed(definition.groups@, #[trigger] definition.nodes@[k], final(self).flat),
    {
        let ghost start = self.flat.nodes@;
        let ghost first = self.flat;
        proof {
            lemma_grows_same(first);
        }
        let fuel = self.groups.len();
        let mut k: usize = 0;
        while k < definition.nodes.len()
            invariant
                self.registry.wf(),
                self.registry == old(self).registry,
                self.groups == old(self).groups,
                self.groups == &definition.groups,
                k <= definition.nodes.len(),
                definition.groups@.len() == 0 ==> self.flat.nodes@.len() == start.len() + k
                    && self.flat.errors == old(self).flat.errors
                    && self.flat.edges == old(self).flat.edges
                    && self.flat.provenance == old(self).flat.provenance
                    && (forall|m: int| 0 <= m < start.len() ==> #[trigger] self.flat.nodes@[m] == start[m])
                    && (forall|m: int| 0 <= m < k ==>
                        (#[trigger] self.flat.nodes@[start.len() + m]).uuid == definition.nodes@[m].uuid
                        && self.flat.nodes@[start.len() + m].type_ref@ == definition.nodes@[m].type_ref@
                        && self.flat.nodes@[start.len() + m].label == definition.nodes@[m].label
                        && self.flat.nodes@[start.len() + m].parameters@ == definition.nodes@[m].parameters@),
                first == old(self).flat,
                grows(first, self.flat),
                forall|m: int| 0 <= m < k ==> placed(definition.groups@, #[trigger] definition.nodes@[m], self.flat),
            decreases definition.nodes.len() - k,
        {
            let instance = &definition.nodes[k];
            let ghost step_start = self.flat;
            match group_named(self.groups, instance.type_ref.as_str()) {
                Some(g) => {
                    proof {
                        lemma_group_position(self.groups@, instance.type_ref@, g as int);
                    }
                    let mut chain: Vec<u128> = Vec::new();
                    chain.push(instance.uuid);
                    let passed: Vec<(String, ParameterValue)> = Vec::new();
                    assert(chain@ =~= seq![instance.uuid]);
                    self.expand_group(instance, g, &chain, instance.uuid, &passed, fuel);
                    proof {
                        lemma_grows_of_extends(step_start, self.flat, instance.uuid);
                        assert(placed(definition.groups@, *instance, self.flat));
                    }
                },
                None => {
                    proof {
                        lemma_group_position(self.groups@, instance.type_ref@, -1);
                    }
                    let ghost before = self.flat.nodes@;
                    let node = flat_node(instance);
                    self.flat.nodes.push(node);
                    proof {
                        assert(self.flat.provenance@.subrange(0, step_start.provenance@.len() as int) =~= step_start.provenance@);
                        assert(self.flat.edges@.subrange(0, step_start.edges@.len() as int) =~= step_start.edges@);
                        assert(self.flat.errors@.subrange(0, step_start.errors@.len() as int) =~= step_start.errors@);
                        assert(grows(step_start, self.flat));
                        assert(self.flat.nodes@[before.len() as int].uuid == instance.uuid);
                        assert(carries_node(self.flat, 0, instance.uuid, instance.type_ref@));
                    }
                    proof {
                        if definition.groups@.len() == 0 {
                            assert(before.len() == start.len() + k);
                            assert(self.flat.nodes@[start.len() + k] == node);
                            assert(*instance == definition.nodes@[k as int]);
                            assert(node.uuid == definition.nodes@[k as int].uuid);
                            assert(node.type_ref@ == definition.nodes@[k as int].type_ref@);
                            assert(node.label == definition.nodes@[k as int].label);
                            assert(node.parameters@ == definition.nodes@[k as int].parameters@);
                            assert forall|m: int| 0 <= m < k + 1 implies
                                (#[trigger] self.flat.nodes@[start.len() + m]).uuid == definition.nodes@[m].uuid
                                && self.flat.nodes@[start.len() + m].type_ref@ == definition.nodes@[m].type_ref@
                                && self.flat.nodes@[start.len() + m].label == definition.nodes@[m].label
                                && self.flat.nodes@[start.len() + m].parameters@ == definition.nodes@[m].parameters@ by {
                                if m < k {
                                    assert(self.flat.nodes@[start.len() + m] == before[start.len() + m]);
                                }
                            }
                            assert forall|m: int| 0 <= m < start.len() implies #[trigger] self.flat.nodes@[m] == start[m] by {
                                assert(self.flat.nodes@[m] == before[m]);
                            }
                        }
                    }
                },
            }
            proof {
                lemma_grows_chain(first, step_start, self.flat);
                assert forall|m: int| 0 <= m < k + 1 implies placed(definition.groups@, #[trigger] definition.nodes@[m], self.flat) by {
                    if m < k {
                        lemma_placed_grows(definition.groups@, definition.nodes@[m], step_start, self.flat);
                    }
                }
            }
            k = k + 1;
        }
    }

    /// One group instance's inside: its plain inner nodes under derived
    /// identities, labelled by the instance they sit in, its nested
    /// instances expanded in turn, the literals its exposed inputs carry
    /// routed through the bindings, and its inner edges rewritten across
    /// its own boundary.
    #[verifier::spinoff_prover]
    fn expand_group(
        &mut self,
        instance: &NodeInstance,
        g: usize,
        chain: &Vec<u128>,
        root: u128,
        literals: &Vec<(String, ParameterValue)>,
        fuel: usize,
    )
        requires
            old(self).registry.wf(),
            g < old(self).groups.len(),
        ensures
            final(self).registry == old(self).registry,
            final(self).groups == old(self).groups,
            extends(old(self).flat, final(self).flat, root),
            forall|n: int| 0 <= n < old(self).groups@[g as int].nodes@.len() ==> traces(final(self).flat, old(self).flat.provenance@.len() as int,
                identity_of(chain@, (#[trigger] old(self).groups@[g as int].nodes@[n]).uuid), root),
            forall|n: int| 0 <= n < old(self).groups@[g as int].nodes@.len()
                && group_position(old(self).groups@, (#[trigger] old(self).groups@[g as int].nodes@[n]).type_ref@) is None
                ==> carries_node(final(self).flat, old(self).flat.nodes@.len() as int,
                    identity_of(chain@, old(self).groups@[g as int].nodes@[n].uuid), old(self).groups@[g as int].nodes@[n].type_ref@),
            final(self).flat.errors@.len() >= old(self).flat.errors@.len() + boundary_findings(old(self).groups@[g as int],
                (match instance.label { Some(label) => label@, None => old(self).groups@[g as int].name@ }), instance.parameters@, literals@, root).len(),
            reported(old(self).flat.errors@,
                final(self).flat.errors@.subrange(0, (old(self).flat.errors@.len() + boundary_findings(old(self).groups@[g as int],
                    (match instance.label { Some(label) => label@, None => old(self).groups@[g as int].name@ }), instance.parameters@, literals@, root).len()) as int),
                boundary_findings(old(self).groups@[g as int],
                    (match instance.label { Some(label) => label@, None => old(self).groups@[g as int].name@ }), instance.parameters@, literals@, root)),
        decreases fuel,
    {
        let ghost start = self.flat;
        proof {
            lemma_extends_same(start, root);
        }
        let group = &self.groups[g];
        let label = match &instance.label {
            Some(label) => label.clone(),
            None => group.name.clone(),
        };
        // A parameter naming no exposed input would vanish through the
        // boundary unheard.
        let ghost shown = match &instance.label { Some(l) => l@, None => group.name@ };
        assert(label@ == shown);
        proof {
            lemma_reported_none(start.errors@);
            assert(instance.parameters@.subrange(0, 0) =~= Seq::<(String, ParameterValue)>::empty());
        }
        let mut p: usize = 0;
        while p < instance.parameters.len()
            invariant
                self.registry.wf(),
                self.registry == old(self).registry,
                self.groups == old(self).groups,
                group == &self.groups@[g as int],
                p <= instance.parameters@.len(),
                label@ == shown,
                reported(start.errors@, self.flat.errors@, unexposed_parameters(*group, shown, instance.parameters@.subrange(0, p as int), root)),
                start == old(self).flat,
                self.flat.nodes == start.nodes,
                self.flat.edges == start.edges,
                self.flat.provenance == start.provenance,
                extends(start, self.flat, root),
            decreases instance.parameters.len() - p,
        {
            proof {
                assert(instance.parameters@.subrange(0, p + 1).drop_last() =~= instance.parameters@.subrange(0, p as int));
            }
            let named = exposed_named(&group.inputs, instance.parameters[p].0.as_str());
            proof {
                match named {
                    Some(b) => lemma_exposed_port(group.inputs@, instance.parameters@[p as int].0@, b as int),
                    None => lemma_exposed_port(group.inputs@, instance.parameters@[p as int].0@, group.inputs@.len() as int),
                }
            }
            if named.is_none() {
                let mut message = "group instance ".to_owned();
                message.append(label.as_str());
                message.append(": parameter `");
                message.append(instance.parameters[p].0.as_str());
                message.append("` does not name an exposed input");
                let ghost before = self.flat;
                let ghost shown_message = message@;
                self.error(message, one_uuid(root));
                proof {
                    assert(self.flat.errors@.subrange(0, start.errors@.len() as int) =~= before.errors@.subrange(0, start.errors@.len() as int));
                    lemma_reported_push(start.errors@, before.errors@, unexposed_parameters(*group, shown, instance.parameters@.subrange(0, p as int), root),
                        self.flat.errors@.last(), (shown_message, seq![root]));
                }
            }
            p = p + 1;
        }
        let ghost mid = self.flat;
        let ghost unexposed = unexposed_parameters(*group, shown, instance.parameters@, root);
        let ghost doubled = doubled_inputs(*group, shown, instance.parameters@, literals@, group.inputs@, root);
        proof {
            lemma_extends_same(mid, root);
            assert(instance.parameters@.subrange(0, instance.parameters@.len() as int) =~= instance.parameters@);
            lemma_reported_none(mid.errors@);
            assert(group.inputs@.subrange(0, 0) =~= Seq::<GroupPort>::empty());
        }
        // The literals the exposed inputs carry — the instance's own, or the
        // ones an enclosing instance passed through this boundary — routed
        // to the inner port each binding names.
        let mut inherited: Vec<(u128, String, ParameterValue)> = Vec::new();
        let mut plain: Vec<(u128, String, ParameterValue)> = Vec::new();
        let mut b: usize = 0;
        while b < group.inputs.len()
            invariant
                self.registry.wf(),
                self.registry == old(self).registry,
                self.groups == old(self).groups,
                group == &self.groups@[g as int],
                start == old(self).flat,
                extends(start, mid, root),
                mid.provenance@.len() == start.provenance@.len(),
                mid.nodes@.len() == start.nodes@.len(),
                self.flat.nodes == mid.nodes,
                self.flat.edges == mid.edges,
                self.flat.provenance == mid.provenance,
                extends(mid, self.flat, root),
                b <= group.inputs@.len(),
                label@ == shown,
                mid.errors@.len() == start.errors@.len() + unexposed.len(),
                unexposed == unexposed_parameters(*group, shown, instance.parameters@, root),
                doubled == doubled_inputs(*group, shown, instance.parameters@, literals@, group.inputs@, root),
                reported(start.errors@, mid.errors@, unexposed),
                reported(mid.errors@, self.flat.errors@, doubled_inputs(*group, shown, instance.parameters@, literals@, group.inputs@.subrange(0, b as int), root)),
            decreases group.inputs.len() - b,
        {
            proof {
                assert(group.inputs@.subrange(0, b + 1).drop_last() =~= group.inputs@.subrange(0, b as int));
            }
            let binding = &group.inputs[b];
            let own = parameter_value(&instance.parameters, binding.name.as_str());
            let passed = parameter_value(literals, binding.name.as_str());
            proof {
                if own is Some {
                    let i = choose|i: int| #[trigger] first_named(instance.parameters@, binding.name@, i) && *own->0 == instance.parameters@[i].1;
                    assert(instance.parameters@[i].0@ == binding.name@);
                }
                if passed is Some {
                    let i = choose|i: int| #[trigger] first_named(literals@, binding.name@, i) && *passed->0 == literals@[i].1;
                    assert(literals@[i].0@ == binding.name@);
                }
            }
            let literal = match (own, passed) {
                (None, None) => None,
                (Some(_), Some(_)) => {
                    let mut message = "group instance ".to_owned();
                    message.append(label.as_str());
                    message.append(" receives the exposed input `");
                    message.append(binding.name.as_str());
                    message.append("` through the boundary while carrying a parameter for it; an input carries one or the other");
                    let ghost before = self.flat;
                    let ghost shown_message = message@;
                    self.error(message, one_uuid(root));
                    proof {
                        assert(self.flat.errors@.subrange(0, mid.errors@.len() as int) =~= before.errors@.subrange(0, mid.errors@.len() as int));
                        lemma_reported_push(mid.errors@, before.errors@,
                            doubled_inputs(*group, shown, instance.parameters@, literals@, group.inputs@.subrange(0, b as int), root),
                            self.flat.errors@.last(), (shown_message, seq![root]));
                    }
                    None
                },
                (Some(literal), None) => Some(literal),
                (None, Some(literal)) => Some(literal),
            };
            match literal {
                Some(literal) => {
                    match node_with(&group.nodes, binding.node) {
                        Some(k) => {
                            if group_named(self.groups, group.nodes[k].type_ref.as_str()).is_some() {
                                inherited.push((binding.node, binding.port.clone(), literal.copy()));
                            } else {
                                let identity = inner_identity(chain.as_slice(), binding.node);
                                plain.push((identity, binding.port.clone(), literal.copy()));
                            }
                        },
                        None => {},
                    }
                },
                None => {},
            }
            b = b + 1;
        }
        let ghost late = self.flat;
        proof {
            assert(group.inputs@.subrange(0, group.inputs@.len() as int) =~= group.inputs@);
            lemma_extends_same(late, root);
            lemma_extends_chain(start, mid, late, root);
        }
        let mut n: usize = 0;
        while n < group.nodes.len()
            invariant
                self.registry.wf(),
                self.registry == old(self).registry,
                self.groups == old(self).groups,
                group == &self.groups@[g as int],
                g < self.groups@.len(),
                n <= group.nodes@.len(),
                start == old(self).flat,
                extends(start, late, root),
                extends(start, mid, root),
                extends(mid, late, root),
                late.provenance@.len() == start.provenance@.len(),
                late.nodes@.len() == start.nodes@.len(),
                mid.errors@.len() == start.errors@.len() + unexposed.len(),
                late.errors@.len() == mid.errors@.len() + doubled.len(),
                reported(mid.errors@, late.errors@, doubled),
                extends(late, self.flat, root),
                forall|m: int| 0 <= m < n ==> traces(self.flat, late.provenance@.len() as int,
                    identity_of(chain@, (#[trigger] group.nodes@[m]).uuid), root),
                forall|m: int| 0 <= m < n && group_position(self.groups@, (#[trigger] group.nodes@[m]).type_ref@) is None
                    ==> carries_node(self.flat, late.nodes@.len() as int, identity_of(chain@, group.nodes@[m].uuid), group.nodes@[m].type_ref@),
            decreases group.nodes.len() - n,
        {
            let inner = &group.nodes[n];
            let identity = inner_identity(chain.as_slice(), inner.uuid);
            let ghost before_push = self.flat;
            self.flat.provenance.push((identity, root));
            let ghost pushed = self.flat;
            proof {
                assert(pushed.provenance@.subrange(0, before_push.provenance@.len() as int) =~= before_push.provenance@);
                assert(pushed.edges@.subrange(0, before_push.edges@.len() as int) =~= before_push.edges@);
                assert(pushed.errors@.subrange(0, before_push.errors@.len() as int) =~= before_push.errors@);
                assert(extends(before_push, pushed, root));
                lemma_extends_chain(late, before_push, pushed, root);
                assert(pushed.provenance@[before_push.provenance@.len() as int] == (identity, root));
                assert(traces(pushed, late.provenance@.len() as int, identity, root));
            }
            match group_named(self.groups, inner.type_ref.as_str()) {
                Some(nested) => {
                    proof {
                        lemma_group_position(self.groups@, inner.type_ref@, nested as int);
                    }
                    if fuel > 0 {
                        let mut nested_chain = copy_uuids(chain);
                        nested_chain.push(inner.uuid);
                        let mut passed: Vec<(String, ParameterValue)> = Vec::new();
                        let mut m: usize = 0;
                        while m < inherited.len()
                            decreases inherited.len() - m,
                        {
                            if inherited[m].0 == inner.uuid {
                                passed.push((inherited[m].1.clone(), inherited[m].2.copy()));
                            }
                            m = m + 1;
                        }
                        let ghost before_call = self.flat;
                        proof {
                            assert(before_call == pushed);
                            lemma_extends_same(pushed, root);
                        }
                        self.expand_group(inner, nested, &nested_chain, root, &passed, fuel - 1);
                        proof {
                            lemma_extends_chain(late, before_call, self.flat, root);
                            lemma_extends_chain(pushed, before_call, self.flat, root);
                        }
                    }
                },
                None => {
                    proof {
                        lemma_group_position(self.groups@, inner.type_ref@, -1);
                    }
                    let default = match self.registry.node_type(inner.type_ref.as_str()) {
                        Some(t) => t.label.clone(),
                        None => inner.type_ref.clone(),
                    };
                    let mut composed = label.clone();
                    composed.append(" · ");
                    match &inner.label {
                        Some(own) => composed.append(own.as_str()),
                        None => composed.append(default.as_str()),
                    }
                    let ghost before_node = self.flat;
                    self.flat.nodes.push(NodeInstance {
                        uuid: identity,
                        type_ref: inner.type_ref.clone(),
                        label: Some(composed),
                        parameters: copy_parameters(&inner.parameters),
                        metadata: Vec::new(),
                    });
                    proof {
                        assert(self.flat.provenance@.subrange(0, before_node.provenance@.len() as int) =~= before_node.provenance@);
                        assert(self.flat.edges@.subrange(0, before_node.edges@.len() as int) =~= before_node.edges@);
                        assert(self.flat.errors@.subrange(0, before_node.errors@.len() as int) =~= before_node.errors@);
                        assert(extends(before_node, self.flat, root));
                        lemma_extends_chain(late, before_node, self.flat, root);
                        lemma_extends_chain(pushed, before_node, self.flat, root);
                        assert(self.flat.nodes@[before_node.nodes@.len() as int].uuid == identity);
                        assert(carries_node(self.flat, late.nodes@.len() as int, identity, inner.type_ref@));
                    }
                },
            }
            proof {
                assert forall|m: int| 0 <= m < n + 1 implies traces(self.flat, late.provenance@.len() as int,
                    identity_of(chain@, (#[trigger] group.nodes@[m]).uuid), root) by {
                    if m < n {
                        assert(traces(before_push, late.provenance@.len() as int, identity_of(chain@, group.nodes@[m].uuid), root));
                    }
                }
                assert forall|m: int| 0 <= m < n + 1 && group_position(self.groups@, (#[trigger] group.nodes@[m]).type_ref@) is None
                    implies carries_node(self.flat, late.nodes@.len() as int, identity_of(chain@, group.nodes@[m].uuid), group.nodes@[m].type_ref@) by {
                    if m < n {
                        assert(carries_node(before_push, late.nodes@.len() as int, identity_of(chain@, group.nodes@[m].uuid), group.nodes@[m].type_ref@));
                    }
                }
            }
            n = n + 1;
        }
        let ghost expanded = self.flat;
        proof {
            lemma_extends_same(expanded, root);
        }
        let mut q: usize = 0;
        while q < plain.len()
            invariant
                self.registry.wf(),
                self.registry == old(self).registry,
                self.groups == old(self).groups,
                group == &self.groups@[g as int],
                g < self.groups@.len(),
                start == old(self).flat,
                extends(start, late, root),
                extends(start, mid, root),
                extends(mid, late, root),
                late.provenance@.len() == start.provenance@.len(),
                late.nodes@.len() == start.nodes@.len(),
                mid.errors@.len() == start.errors@.len() + unexposed.len(),
                late.errors@.len() == mid.errors@.len() + doubled.len(),
                reported(mid.errors@, late.errors@, doubled),
                extends(late, expanded, root),
                extends(expanded, self.flat, root),
                forall|m: int| 0 <= m < group.nodes@.len() ==> traces(expanded, late.provenance@.len() as int,
                    identity_of(chain@, (#[trigger] group.nodes@[m]).uuid), root),
                forall|m: int| 0 <= m < group.nodes@.len() && group_position(self.groups@, (#[trigger] group.nodes@[m]).type_ref@) is None
                    ==> carries_node(expanded, late.nodes@.len() as int, identity_of(chain@, group.nodes@[m].uuid), group.nodes@[m].type_ref@),
            decreases plain.len() - q,
        {
            let identity = plain[q].0;
            match node_with(&self.flat.nodes, identity) {
                Some(k) => {
                    let ghost before_set = self.flat;
                    let mut node = flat_node(&self.flat.nodes[k]);
                    let replaced = put_parameter(&mut node.parameters, plain[q].1.clone(), plain[q].2.copy());
                    let node_label = match &node.label {
                        Some(l) => l.clone(),
                        None => String::new(),
                    };
                    self.flat.nodes.set(k, node);
                    proof {
                        lemma_extends_same(before_set, root);
                        assert forall|j: int| 0 <= j < before_set.nodes@.len() implies (#[trigger] self.flat.nodes@[j]).uuid == before_set.nodes@[j].uuid
                            && self.flat.nodes@[j].type_ref@ == before_set.nodes@[j].type_ref@ by {
                            if j != k {
                                assert(self.flat.nodes@[j] == before_set.nodes@[j]);
                            }
                        }
                        assert(extends(before_set, self.flat, root));
                        lemma_extends_chain(expanded, before_set, self.flat, root);
                    }
                    if replaced {
                        let mut message = "input `".to_owned();
                        message.append(plain[q].1.as_str());
                        message.append("` of ");
                        message.append(node_label.as_str());
                        message.append(" (");
                        let id = uuid_text(identity);
                        message.append(id.as_str());
                        message.append(") receives more than one parameter value; an input carries one");
                        let ghost before_error = self.flat;
                        self.error(message, one_uuid(root));
                        proof {
                            lemma_extends_same(before_error, root);
                            assert(self.flat.errors@.subrange(0, before_error.errors@.len() as int) =~= before_error.errors@);
                            assert(extends(before_error, self.flat, root));
                            lemma_extends_chain(expanded, before_error, self.flat, root);
                        }
                    }
                },
                None => {},
            }
            q = q + 1;
        }
        let mut e: usize = 0;
        let ghost patched = self.flat;
        proof {
            lemma_extends_same(patched, root);
        }
        while e < group.edges.len()
            invariant
                self.registry.wf(),
                self.registry == old(self).registry,
                self.groups == old(self).groups,
                group == &self.groups@[g as int],
                g < self.groups.len(),
                start == old(self).flat,
                extends(start, late, root),
                extends(start, mid, root),
                extends(mid, late, root),
                late.provenance@.len() == start.provenance@.len(),
                late.nodes@.len() == start.nodes@.len(),
                mid.errors@.len() == start.errors@.len() + unexposed.len(),
                late.errors@.len() == mid.errors@.len() + doubled.len(),
                reported(mid.errors@, late.errors@, doubled),
                extends(late, expanded, root),
                extends(expanded, patched, root),
                extends(patched, self.flat, root),
                forall|m: int| 0 <= m < group.nodes@.len() ==> traces(expanded, late.provenance@.len() as int,
                    identity_of(chain@, (#[trigger] group.nodes@[m]).uuid), root),
                forall|m: int| 0 <= m < group.nodes@.len() && group_position(self.groups@, (#[trigger] group.nodes@[m]).type_ref@) is None
                    ==> carries_node(expanded, late.nodes@.len() as int, identity_of(chain@, group.nodes@[m].uuid), group.nodes@[m].type_ref@),
            decreases group.edges.len() - e,
        {
            let edge = &group.edges[e];
            let ghost before_edge = self.flat;
            let from = self.cross(g, chain, edge.from, edge.from_port.as_str(), Side::Output, fuel);
            let to = self.cross(g, chain, edge.to, edge.to_port.as_str(), Side::Input, fuel);
            let ghost crossed = self.flat;
            proof {
                assert(crossed.errors@.subrange(0, before_edge.errors@.len() as int) =~= before_edge.errors@);
                lemma_extends_same(before_edge, root);
                assert(extends(before_edge, crossed, root));
            }
            match (from, to) {
                (Some(from), Some(to)) => {
                    self.flat.edges.push(Edge { from: from.0, from_port: from.1, to: to.0, to_port: to.1 });
                    proof {
                        assert(self.flat.edges@.subrange(0, crossed.edges@.len() as int) =~= crossed.edges@);
                        lemma_extends_same(crossed, root);
                        assert(extends(crossed, self.flat, root));
                        lemma_extends_chain(before_edge, crossed, self.flat, root);
                    }
                },
                _ => {},
            }
            proof {
                lemma_extends_chain(patched, before_edge, self.flat, root);
            }
            e = e + 1;
        }
        proof {
            lemma_extends_chain(late, expanded, patched, root);
            lemma_extends_chain(late, patched, self.flat, root);
            lemma_extends_chain(expanded, patched, self.flat, root);
            assert forall|n: int| 0 <= n < group.nodes@.len() implies traces(self.flat, late.provenance@.len() as int,
                identity_of(chain@, (#[trigger] group.nodes@[n]).uuid), root) by {
                assert(traces(expanded, late.provenance@.len() as int, identity_of(chain@, group.nodes@[n].uuid), root));
            }
            assert forall|n: int| 0 <= n < group.nodes@.len() && group_position(self.groups@, (#[trigger] group.nodes@[n]).type_ref@) is None
                implies carries_node(self.flat, late.nodes@.len() as int, identity_of(chain@, group.nodes@[n].uuid), group.nodes@[n].type_ref@) by {
                assert(carries_node(expanded, late.nodes@.len() as int, identity_of(chain@, group.nodes@[n].uuid), group.nodes@[n].type_ref@));
            }
        }
        proof {
            lemma_extends_chain(mid, late, self.flat, root);
            lemma_extends_chain(start, late, self.flat, root);
            assert(self.flat.errors@.subrange(0, late.errors@.len() as int) == late.errors@);
            assert(self.flat.errors@.subrange(0, mid.errors@.len() as int) == mid.errors@);
            assert(self.flat.errors@.subrange(0, late.errors@.len() as int).subrange(0, mid.errors@.len() as int)
                =~= self.flat.errors@.subrange(0, mid.errors@.len() as int));
            lemma_reported_chain(start.errors@, mid.errors@, late.errors@, unexposed, doubled);
            assert(instance.parameters@.subrange(0, instance.parameters@.len() as int) =~= instance.parameters@);
            assert(self.flat.errors@.subrange(0, late.errors@.len() as int) == late.errors@);
        }
    }

    /// One end of an inner edge, resolved across this group's boundary: a
    /// plain node's derived identity and its port, or the inner port an
    /// exposed binding stands in for on a nested instance.
    #[verifier::spinoff_prover]
    fn cross(&mut self, g: usize, chain: &Vec<u128>, uuid: u128, port: &str, side: Side, fuel: usize) -> (end: Option<(u128, String)>)
        requires
            old(self).registry.wf(),
            g < old(self).groups.len(),
        ensures
            final(self).registry == old(self).registry,
            final(self).groups == old(self).groups,
            final(self).flat.nodes == old(self).flat.nodes,
            final(self).flat.edges == old(self).flat.edges,
            final(self).flat.provenance == old(self).flat.provenance,
            (match end { Some((u, p)) => Some((u, p@)), None => None })
                == crossed_end(old(self).groups@, g as int, chain@, uuid, port@, side, fuel as nat).0,
            reports_one(old(self).flat.errors@, final(self).flat.errors@,
                crossed_end(old(self).groups@, g as int, chain@, uuid, port@, side, fuel as nat).1),
    {
        let group = &self.groups[g];
        let inner = match node_with(&group.nodes, uuid) {
            Some(k) => {
                proof {
                    lemma_node_found(group.nodes@, uuid, k as int);
                }
                &group.nodes[k]
            },
            None => {
                proof {
                    lemma_node_found(group.nodes@, uuid, group.nodes@.len() as int);
                }
                let mut message = "an inner edge of group `".to_owned();
                message.append(group.name.as_str());
                message.append("` lands on node ");
                let id = uuid_text(uuid);
                message.append(id.as_str());
                message.append(", which the group does not contain");
                self.error(message, Vec::new());
                return None;
            },
        };
        match group_named(self.groups, inner.type_ref.as_str()) {
            Some(nested) => {
                proof {
                    lemma_group_position(self.groups@, inner.type_ref@, nested as int);
                }
                let mut nested_chain = copy_uuids(chain);
                nested_chain.push(uuid);
                self.expose(nested, inner, &nested_chain, uuid, port, side, fuel)
            },
            None => {
                proof {
                    lemma_group_position(self.groups@, inner.type_ref@, -1);
                }
                Some((inner_identity(chain.as_slice(), uuid), port.to_owned()))
            },
        }
    }

    /// The exposed port `port` of the group instance `instance`, followed to
    /// the inner port it binds, through the nested instances the binding
    /// chain may cross.
    #[verifier::spinoff_prover]
    fn expose(&mut self, g: usize, instance: &NodeInstance, chain: &Vec<u128>, instance_uuid: u128, port: &str, side: Side, fuel: usize) -> (end: Option<(u128, String)>)
        requires
            old(self).registry.wf(),
            g < old(self).groups.len(),
        ensures
            final(self).registry == old(self).registry,
            final(self).groups == old(self).groups,
            final(self).flat.nodes == old(self).flat.nodes,
            final(self).flat.edges == old(self).flat.edges,
            final(self).flat.provenance == old(self).flat.provenance,
            (match end { Some((u, p)) => Some((u, p@)), None => None })
                == exposed_end(old(self).groups@, g as int, *instance, chain@, instance_uuid, port@, side, fuel as nat).0,
            reports_one(old(self).flat.errors@, final(self).flat.errors@,
                exposed_end(old(self).groups@, g as int, *instance, chain@, instance_uuid, port@, side, fuel as nat).1),
        decreases fuel,
    {
        let group = &self.groups[g];
        let ports = match side {
            Side::Input => &group.inputs,
            Side::Output => &group.outputs,
        };
        assert(ports@ == side_ports(*group, side));
        let binding = match exposed_named(ports, port) {
            Some(b) => {
                proof {
                    lemma_exposed_port(ports@, port@, b as int);
                }
                &ports[b]
            },
            None => {
                proof {
                    lemma_exposed_port(ports@, port@, ports@.len() as int);
                }
                let label = match &instance.label {
                    Some(label) => label.clone(),
                    None => group.name.clone(),
                };
                let mut message = "group instance ".to_owned();
                message.append(label.as_str());
                message.append(" has no exposed ");
                message.append(side.name());
                message.append(" port `");
                message.append(port);
                message.append("`");
                self.error(message, one_uuid(instance_uuid));
                return None;
            },
        };
        let inner = match node_with(&group.nodes, binding.node) {
            Some(k) => {
                proof {
                    lemma_node_found(group.nodes@, binding.node, k as int);
                }
                &group.nodes[k]
            },
            None => {
                proof {
                    lemma_node_found(group.nodes@, binding.node, group.nodes@.len() as int);
                }
                return None;
            },
        };
        match group_named(self.groups, inner.type_ref.as_str()) {
            Some(nested) => {
                proof {
                    lemma_group_position(self.groups@, inner.type_ref@, nested as int);
                }
                if fuel == 0 {
                    return None;
                }
                let mut nested_chain = copy_uuids(chain);
                nested_chain.push(binding.node);
                self.expose(nested, inner, &nested_chain, binding.node, binding.port.as_str(), side, fuel - 1)
            },
            None => {
                proof {
                    lemma_group_position(self.groups@, inner.type_ref@, -1);
                }
                Some((inner_identity(chain.as_slice(), binding.node), binding.port.clone()))
            },
        }
    }

    /// The top-level edges, each end resolved across a group boundary when
    /// it lands on a group instance's exposed port.
    fn rewire(&mut self, definition: &GraphDefinition)
        requires
            old(self).registry.wf(),
            old(self).groups == &definition.groups,
        ensures
            final(self).registry == old(self).registry,
            final(self).groups == old(self).groups,
            final(self).flat.nodes == old(self).flat.nodes,
            final(self).flat.provenance == old(self).flat.provenance,
            definition.groups@.len() == 0 ==> final(self).flat.edges@.len() == old(self).flat.edges@.len() + definition.edges@.len()
                && final(self).flat.errors == old(self).flat.errors
                && (forall|k: int| 0 <= k < old(self).flat.edges@.len() ==> #[trigger] final(self).flat.edges@[k] == old(self).flat.edges@[k])
                && (forall|e: int| 0 <= e < definition.edges@.len() ==>
                    (#[trigger] final(self).flat.edges@[old(self).flat.edges@.len() + e]).from == definition.edges@[e].from
                    && final(self).flat.edges@[old(self).flat.edges@.len() + e].from_port@ == definition.edges@[e].from_port@
                    && final(self).flat.edges@[old(self).flat.edges@.len() + e].to == definition.edges@[e].to
                    && final(self).flat.edges@[old(self).flat.edges@.len() + e].to_port@ == definition.edges@[e].to_port@),
            grows(old(self).flat, final(self).flat),
            edges_listed(final(self).flat.edges@, old(self).flat.edges@.len() as int,
                rewired(definition.groups@, definition.nodes@, definition.edges@, definition.groups@.len() as nat)),
    {
        let ghost start = self.flat.edges@;
        let ghost first = self.flat;
        let fuel = self.groups.len();
        proof {
            lemma_grows_same(first);
            assert(definition.edges@.subrange(0, 0) =~= Seq::<Edge>::empty());
        }
        let mut e: usize = 0;
        while e < definition.edges.len()
            invariant
                first == old(self).flat,
                start == first.edges@,
                fuel == definition.groups@.len(),
                grows(first, self.flat),
                edges_listed(self.flat.edges@, start.len() as int,
                    rewired(definition.groups@, definition.nodes@, definition.edges@.subrange(0, e as int), fuel as nat)),
                self.registry.wf(),
                self.registry == old(self).registry,
                self.groups == old(self).groups,
                self.groups == &definition.groups,
                self.flat.nodes == old(self).flat.nodes,
                self.flat.provenance == old(self).flat.provenance,
                e <= definition.edges.len(),
                definition.groups@.len() == 0 ==> self.flat.edges@.len() == start.len() + e
                    && self.flat.errors == old(self).flat.errors
                    && (forall|k: int| 0 <= k < start.len() ==> #[trigger] self.flat.edges@[k] == start[k])
                    && (forall|m: int| 0 <= m < e ==>
                        (#[trigger] self.flat.edges@[start.len() + m]).from == definition.edges@[m].from
                        && self.flat.edges@[start.len() + m].from_port@ == definition.edges@[m].from_port@
                        && self.flat.edges@[start.len() + m].to == definition.edges@[m].to
                        && self.flat.edges@[start.len() + m].to_port@ == definition.edges@[m].to_port@),
            decreases definition.edges.len() - e,
        {
            let edge = &definition.edges[e];
            let ghost listed_before = rewired(definition.groups@, definition.nodes@, definition.edges@.subrange(0, e as int), fuel as nat);
            proof {
                assert(definition.edges@.subrange(0, e + 1).drop_last() =~= definition.edges@.subrange(0, e as int));
                assert(definition.edges@.subrange(0, e + 1).last() == *edge);
            }
            let ghost step_start = self.flat;
            let from = self.end(definition, edge.from, edge.from_port.as_str(), Side::Output, fuel);
            let ghost mid_flat = self.flat;
            let to = self.end(definition, edge.to, edge.to_port.as_str(), Side::Input, fuel);
            proof {
                lemma_grows_chain(step_start, mid_flat, self.flat);
                lemma_grows_chain(first, step_start, self.flat);
            }
            let ghost crossed = self.flat;
            match (from, to) {
                (Some(from), Some(to)) => {
                    let ghost before = self.flat.edges@;
                    let ghost ends = (from, to);
                    self.flat.edges.push(Edge { from: from.0, from_port: from.1, to: to.0, to_port: to.1 });
                    proof {
                        assert(self.flat.edges@.subrange(0, crossed.edges@.len() as int) =~= crossed.edges@);
                        assert(self.flat.provenance@.subrange(0, crossed.provenance@.len() as int) =~= crossed.provenance@);
                        assert(self.flat.errors@.subrange(0, crossed.errors@.len() as int) =~= crossed.errors@);
                        assert(grows(crossed, self.flat));
                        lemma_grows_chain(first, crossed, self.flat);
                        assert forall|i: int| 0 <= i < listed_before.len() implies #[trigger] self.flat.edges@[start.len() + i] == crossed.edges@[start.len() + i] by {}
                    }
                    proof {
                        if definition.groups@.len() == 0 {
                            assert(*edge == definition.edges@[e as int]);
                            assert(self.flat.edges@[start.len() + e].from == edge.from);
                            assert(self.flat.edges@[start.len() + e].to == edge.to);
                            assert forall|m: int| 0 <= m < e + 1 implies
                                (#[trigger] self.flat.edges@[start.len() + m]).from == definition.edges@[m].from
                                && self.flat.edges@[start.len() + m].from_port@ == definition.edges@[m].from_port@
                                && self.flat.edges@[start.len() + m].to == definition.edges@[m].to
                                && self.flat.edges@[start.len() + m].to_port@ == definition.edges@[m].to_port@ by {
                                if m < e {
                                    assert(self.flat.edges@[start.len() + m] == before[start.len() + m]);
                                }
                            }
                            assert forall|k: int| 0 <= k < start.len() implies #[trigger] self.flat.edges@[k] == start[k] by {
                                assert(self.flat.edges@[k] == before[k]);
                            }
                        }
                    }
                },
                _ => {},
            }
            proof {
                assert(crossed.edges@.len() >= step_start.edges@.len());
                assert(crossed.edges@.subrange(0, step_start.edges@.len() as int) == step_start.edges@);
                assert(crossed.edges@.len() == step_start.edges@.len()) by {
                    assert(mid_flat.edges == step_start.edges);
                }
                assert forall|i: int| 0 <= i < step_start.edges@.len() implies crossed.edges@[i] == step_start.edges@[i] by {
                    assert(crossed.edges@.subrange(0, step_start.edges@.len() as int)[i] == step_start.edges@[i]);
                }
            }
            e = e + 1;
        }
        assert(definition.edges@.subrange(0, definition.edges@.len() as int) =~= definition.edges@);
    }

    /// One end of a top-level edge: through the exposed port when it lands
    /// on a group instance, else as the definition writes it — a dangling
    /// end included, which the ordinary compile reports.
    fn end(&mut self, definition: &GraphDefinition, uuid: u128, port: &str, side: Side, fuel: usize) -> (end: Option<(u128, String)>)
        requires
            old(self).registry.wf(),
            old(self).groups == &definition.groups,
        ensures
            final(self).registry == old(self).registry,
            final(self).groups == old(self).groups,
            final(self).flat.nodes == old(self).flat.nodes,
            final(self).flat.edges == old(self).flat.edges,
            final(self).flat.provenance == old(self).flat.provenance,
            definition.groups@.len() == 0 ==> (end matches Some(found) && found.0 == uuid && found.1@ == port@),
            definition.groups@.len() == 0 ==> final(self).flat.errors == old(self).flat.errors,
            (match end { Some((u, p)) => Some((u, p@)), None => None })
                == edge_end(definition.groups@, definition.nodes@, uuid, port@, side, fuel as nat),
            grows(old(self).flat, final(self).flat),
    {
        let ghost before = self.flat;
        proof {
            lemma_grows_same(before);
        }
        match node_with(&definition.nodes, uuid) {
            Some(k) => {
                proof {
                    lemma_node_found(definition.nodes@, uuid, k as int);
                }
                let instance = &definition.nodes[k];
                match group_named(self.groups, instance.type_ref.as_str()) {
                    Some(g) => {
                        proof {
                            lemma_group_position(self.groups@, instance.type_ref@, g as int);
                        }
                        let mut chain: Vec<u128> = Vec::new();
                        chain.push(uuid);
                        assert(chain@ =~= seq![uuid]);
                        let found = self.expose(g, instance, &chain, uuid, port, side, fuel);
                        proof {
                            assert(self.flat.errors@.subrange(0, before.errors@.len() as int) =~= before.errors@);
                        }
                        found
                    },
                    None => {
                        proof {
                            lemma_group_position(self.groups@, instance.type_ref@, -1);
                        }
                        Some((uuid, port.to_owned()))
                    },
                }
            },
            None => {
                proof {
                    lemma_node_found(definition.nodes@, uuid, definition.nodes@.len() as int);
                }
                Some((uuid, port.to_owned()))
            },
        }
    }

}

/// What flattening a definition with groups gives, the live groups being
/// `live`: the duplicate names and the plugin collisions reported first.
/// A group-reference cycle then ends it, reported naming the groups around
/// it and marking the instances it dooms. Otherwise the interfaces' errors
/// follow, every top-level instance is placed, and the top-level edges
/// rewired across the boundaries close the edge list.
pub open spec fn flattened(definition: GraphDefinition, registry: Registry, live: Seq<String>, flat: Flat) -> bool {
    let found = duplicate_groups(definition.groups@)
        + collisions(definition.groups@, live, registry, definition.nodes@);
    if exists|walk: Seq<usize>| #[trigger] reference_cycle(definition.groups@, walk) {
        &&& flat.nodes@.len() == 0
        &&& flat.edges@.len() == 0
        &&& flat.provenance@.len() == 0
        &&& reported(Seq::empty(), flat.errors@.drop_last(), found)
        &&& flat.errors@.len() == found.len() + 1
        &&& exists|walk: Seq<usize>, names: Seq<String>| #![trigger reference_cycle(definition.groups@, walk), doomed_uuids(definition.nodes@, definition.groups@, names)]
        reference_cycle(definition.groups@, walk)
            && names.len() == walk.len()
            && (forall|i: int| 0 <= i < walk.len() ==> (#[trigger] names[i]) == definition.groups@[walk[i] as int].name)
            && flat.errors@.last().message@ == "group cycle: "@ + crate::text::joined(crate::text::views(names), " → "@)
            && flat.errors@.last().nodes@ == doomed_uuids(definition.nodes@, definition.groups@, names)
    } else {
        let checked = found + interface_findings(definition.groups@, registry, definition.groups@, live, definition.nodes@);
        &&& flat.errors@.len() >= checked.len()
        &&& reported(Seq::empty(), flat.errors@.subrange(0, checked.len() as int), checked)
        &&& forall|k: int| 0 <= k < definition.nodes@.len() ==> placed(definition.groups@, #[trigger] definition.nodes@[k], flat)
        &&& exists|inner: int| 0 <= inner <= flat.edges@.len() && edges_listed(flat.edges@, inner,
            rewired(definition.groups@, definition.nodes@, definition.edges@, definition.groups@.len() as nat))
    }
}

/// What flattening a definition gives: a definition without groups
/// passes through as it stands; one with groups is flattened as
/// `flattened` says, its live groups the ones the top level instantiates.
pub open spec fn flattens_to(definition: GraphDefinition, registry: Registry, flat: Flat) -> bool {
    &&& (definition.groups@.len() == 0 ==> {
        &&& flat.errors@.len() == 0
        &&& flat.provenance@.len() == 0
        &&& flat.nodes@.len() == definition.nodes@.len()
        &&& forall|k: int| 0 <= k < definition.nodes@.len() ==> (#[trigger] flat.nodes@[k]).uuid == definition.nodes@[k].uuid
            && flat.nodes@[k].type_ref@ == definition.nodes@[k].type_ref@
            && flat.nodes@[k].label == definition.nodes@[k].label
            && flat.nodes@[k].parameters@ == definition.nodes@[k].parameters@
        &&& flat.edges@.len() == definition.edges@.len()
        &&& forall|e: int| 0 <= e < definition.edges@.len() ==> (#[trigger] flat.edges@[e]).from == definition.edges@[e].from
            && flat.edges@[e].from_port@ == definition.edges@[e].from_port@
            && flat.edges@[e].to == definition.edges@[e].to
            && flat.edges@[e].to_port@ == definition.edges@[e].to_port@
    })
    &&& (definition.groups@.len() > 0 ==> exists|live: Seq<String>|
        (forall|x: Seq<char>| has_name(live, x) <==> instantiated_name(definition.groups@, definition.nodes@, x))
        && #[trigger] flattened(definition, registry, live, flat))
}

/// Flatten a definition's groups out. A definition without groups passes
/// through as it stands: its nodes and edges, no provenance, no problem.
pub fn flatten(definition: &GraphDefinition, registry: &Registry) -> (flat: Flat)
    requires
        registry.wf(),
    ensures
        flattens_to(*definition, *registry, flat),
{
    let mut errors: Vec<Problem> = Vec::new();
    proof {
        lemma_reported_none(errors@);
        assert(definition.groups@.subrange(0, 0) =~= Seq::<GroupDefinition>::empty());
    }
    let mut g: usize = 0;
    while g < definition.groups.len()
        invariant
            g <= definition.groups.len(),
            definition.groups@.len() == 0 ==> errors@.len() == 0,
            reported(Seq::empty(), errors@, duplicate_groups(definition.groups@.subrange(0, g as int))),
        decreases definition.groups.len() - g,
    {
        let name = &definition.groups[g].name;
        let mut h: usize = 0;
        let mut earlier = false;
        while h < g
            invariant
                g < definition.groups.len(),
                h <= g,
                earlier <==> exists|m: int| 0 <= m < h && (#[trigger] definition.groups@[m]).name@ == name@,
            decreases g - h,
        {
            if same_text(definition.groups[h].name.as_str(), name.as_str()) {
                earlier = true;
            }
            h = h + 1;
        }
        let ghost upto = definition.groups@.subrange(0, g + 1);
        proof {
            assert(upto.drop_last() =~= definition.groups@.subrange(0, g as int));
            assert(upto.last().name@ == name@);
            assert((exists|m: int| 0 <= m < upto.len() - 1 && (#[trigger] upto[m]).name@ == name@)
                <==> (exists|m: int| 0 <= m < g && (#[trigger] definition.groups@[m]).name@ == name@)) by {
                if exists|m: int| 0 <= m < upto.len() - 1 && (#[trigger] upto[m]).name@ == name@ {
                    let m = choose|m: int| 0 <= m < upto.len() - 1 && (#[trigger] upto[m]).name@ == name@;
                    assert(definition.groups@[m] == upto[m]);
                }
                if exists|m: int| 0 <= m < g && (#[trigger] definition.groups@[m]).name@ == name@ {
                    let m = choose|m: int| 0 <= m < g && (#[trigger] definition.groups@[m]).name@ == name@;
                    assert(definition.groups@[m] == upto[m]);
                }
            }
        }
        if earlier {
            let mut message = "duplicate group name `".to_owned();
            message.append(name.as_str());
            message.append("`");
            let ghost before = errors@;
            let ghost shown = message@;
            errors.push(problem_of(message, Vec::new()));
            proof {
                lemma_reported_push(Seq::empty(), before, duplicate_groups(definition.groups@.subrange(0, g as int)), errors@.last(),
                    (shown, Seq::<u128>::empty()));
            }
        }
        g = g + 1;
    }
    assert(definition.groups@.subrange(0, definition.groups@.len() as int) =~= definition.groups@);
    let mut flattener = Flattener {
        groups: &definition.groups,
        registry,
        flat: Flat { nodes: Vec::new(), edges: Vec::new(), provenance: Vec::new(), errors },
    };
    if definition.groups.len() == 0 {
        let ghost n0 = flattener.flat.nodes@.len();
        let ghost e0 = flattener.flat.edges@.len();
        assert(n0 == 0 && e0 == 0);
        flattener.expand(definition);
        flattener.rewire(definition);
        assert forall|k: int| 0 <= k < definition.nodes@.len() implies (#[trigger] flattener.flat.nodes@[k]).uuid == definition.nodes@[k].uuid
            && flattener.flat.nodes@[k].type_ref@ == definition.nodes@[k].type_ref@
            && flattener.flat.nodes@[k].label == definition.nodes@[k].label
            && flattener.flat.nodes@[k].parameters@ == definition.nodes@[k].parameters@ by {
            assert(flattener.flat.nodes@[n0 + k] == flattener.flat.nodes@[k]);
        }
        assert forall|e: int| 0 <= e < definition.edges@.len() implies (#[trigger] flattener.flat.edges@[e]).from == definition.edges@[e].from
            && flattener.flat.edges@[e].from_port@ == definition.edges@[e].from_port@
            && flattener.flat.edges@[e].to == definition.edges@[e].to
            && flattener.flat.edges@[e].to_port@ == definition.edges@[e].to_port@ by {
            assert(flattener.flat.edges@[e0 + e] == flattener.flat.edges@[e]);
        }
        return flattener.flat;
    }
    let live = instantiated(definition);
    let ghost dups = flattener.flat.errors@;
    flattener.check_collisions(definition, &live);
    let ghost found = duplicate_groups(definition.groups@) + collisions(definition.groups@, live@, *registry, definition.nodes@);
    proof {
        lemma_reported_chain(Seq::empty(), dups, flattener.flat.errors@, duplicate_groups(definition.groups@),
            collisions(definition.groups@, live@, *registry, definition.nodes@));
    }
    let ghost after_collisions = flattener.flat;
    match group_cycle(definition) {
        Some(cycle) => {
            let doomed = doomed_instances(definition, &cycle);
            let mut message = "group cycle: ".to_owned();
            let names = join_names(&cycle, " → ");
            message.append(names.as_str());
            flattener.error(message, doomed);
            proof {
                assert(flattener.flat.errors@.drop_last() =~= after_collisions.errors@);
                assert(flattened(*definition, *registry, live@, flattener.flat));
            }
            return flattener.flat;
        },
        None => {},
    }
    flattener.check_interfaces(definition, &live);
    let ghost checked = found + interface_findings(definition.groups@, *registry, definition.groups@, live@, definition.nodes@);
    let ghost after_interfaces = flattener.flat;
    proof {
        lemma_reported_chain(Seq::empty(), after_collisions.errors@, flattener.flat.errors@, found,
            interface_findings(definition.groups@, *registry, definition.groups@, live@, definition.nodes@));
    }
    flattener.expand(definition);
    let ghost expanded = flattener.flat;
    flattener.rewire(definition);
    proof {
        lemma_grows_chain(after_interfaces, expanded, flattener.flat);
        assert(flattener.flat.errors@.subrange(0, checked.len() as int) == after_interfaces.errors@);
        assert forall|k: int| 0 <= k < definition.nodes@.len() implies placed(definition.groups@, #[trigger] definition.nodes@[k], flattener.flat) by {
            lemma_placed_grows(definition.groups@, definition.nodes@[k], expanded, flattener.flat);
        }
        assert(edges_listed(flattener.flat.edges@, expanded.edges@.len() as int,
            rewired(definition.groups@, definition.nodes@, definition.edges@, definition.groups@.len() as nat)));
        assert(flattened(*definition, *registry, live@, flattener.flat));
    }
    flattener.flat
}

} // verus!
